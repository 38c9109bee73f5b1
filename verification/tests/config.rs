use waterci_core::{address, config_from_file, Config, PartialConfig};

#[test]
fn defaults() {
    let c = Config::default();
    assert_eq!(c.incoming_bind_host, "0.0.0.0");
    assert_eq!(c.incoming_bind_port, 5632);
    assert_eq!(c.executor_bind_host, "0.0.0.0");
    assert_eq!(c.executor_bind_port, 5633);
    assert_eq!(Config::default_incoming_bind_host(), "0.0.0.0");
    assert_eq!(Config::default_executor_bind_host(), "0.0.0.0");
    assert_eq!(Config::default_incoming_bind_port(), 5632);
    assert_eq!(Config::default_executor_bind_port(), 5633);
}

#[test]
fn missing_file_gives_defaults() {
    let c = config_from_file(None);
    assert_eq!(c.incoming_bind_host, "0.0.0.0");
    assert_eq!(c.incoming_bind_port, 5632);
    assert_eq!(c.executor_bind_host, "0.0.0.0");
    assert_eq!(c.executor_bind_port, 5633);
}

#[test]
fn file_fields_override_defaults() {
    let c = config_from_file(Some(PartialConfig {
        incoming_bind_host: Some("127.0.0.1".to_string()),
        incoming_bind_port: None,
        executor_bind_host: None,
        executor_bind_port: Some(15633),
    }));
    assert_eq!(c.incoming_bind_host, "127.0.0.1");
    assert_eq!(c.incoming_bind_port, 5632);
    assert_eq!(c.executor_bind_host, "0.0.0.0");
    assert_eq!(c.executor_bind_port, 15633);
    let d = Config::from_partial(PartialConfig {
        incoming_bind_host: None,
        incoming_bind_port: Some(15632),
        executor_bind_host: Some("::1".to_string()),
        executor_bind_port: None,
    });
    assert_eq!(d.incoming_bind_host, "0.0.0.0");
    assert_eq!(d.incoming_bind_port, 15632);
    assert_eq!(d.executor_bind_host, "::1");
    assert_eq!(d.executor_bind_port, 5633);
}

#[test]
fn addresses() {
    let c = Config::default();
    assert_eq!(c.incoming_address(), "0.0.0.0:5632");
    assert_eq!(c.executor_address(), "0.0.0.0:5633");
    assert_eq!(address(&"127.0.0.1".to_string(), 15632), "127.0.0.1:15632");
    assert_eq!(address(&"h".to_string(), 0), "h:0");
    assert_eq!(address(&"h".to_string(), 10), "h:10");
    assert_eq!(address(&String::new(), u32::MAX), ":4294967295");
}
