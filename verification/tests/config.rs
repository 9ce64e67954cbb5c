use loginator::config::Config;
use loginator::dispatch::{publication, Delivery, DispatchError};

#[test]
fn default_config() {
    let config = Config::default();
    assert_eq!(config.brain_name, "VEX_V5");
    assert_eq!(config.brain_code, "0000");
    let routes: Vec<(&str, Vec<&str>)> = config
        .routes
        .iter()
        .map(|(topic, labels)| (topic.as_str(), labels.iter().map(|l| l.as_str()).collect()))
        .collect();
    assert_eq!(
        routes,
        vec![
            ("pid/linear", vec!["P", "I", "D"]),
            ("pid/angular", vec!["P", "I", "D"]),
            ("joysticks/x", vec!["Left", "Right"]),
            ("joysticks/y", vec!["Left", "Right"]),
        ]
    );
}

#[test]
fn publication_labels_values_after_the_route() {
    let config = Config::default();
    let p = publication(&config, 2, 3);
    assert_eq!(p.topic, "joysticks/x");
    assert_eq!(p.fields, vec![("Left".to_string(), 1), ("Right".to_string(), 2)]);
    assert_eq!(p.delivery, Delivery::AtLeastOnce);
    assert!(p.retain);
}

#[test]
fn publication_with_extra_values() {
    let config = Config::default();
    let p = publication(&config, 0, 10);
    assert_eq!(p.topic, "pid/linear");
    assert_eq!(
        p.fields,
        vec![("P".to_string(), 1), ("I".to_string(), 2), ("D".to_string(), 3)]
    );
}

#[test]
fn dispatch_error_message() {
    assert_eq!(DispatchError::DecodeError.message(), "Couldn't decode");
}
