//! Decoding of the telemetry that a VEX brain prints over Bluetooth, and the
//! bookkeeping of the bridge that forwards it to an MQTT broker.

pub mod bluetooth;
pub mod cobs;
pub mod config;
pub mod decoder;
pub mod dispatch;
pub mod telemetry;
