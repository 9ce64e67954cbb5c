[package]
name = "loginator"
version = "0.1.0"
edition = "2021"
publish = false

[dependencies]
anyhow = "1"
btleplug = "0.11"
clap = { version = "4", features = ["derive"] }
colored = "2"
confy = "0.6"
futures = "0.3"
rumqttc = { version = "0.24", default-features = false }
serde = { version = "1", features = ["derive"] }
serde_json = "1"
thiserror = "1"
tokio = { version = "1", features = ["full"] }
uuid = "1"
