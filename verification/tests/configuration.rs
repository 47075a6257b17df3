use zero2prod::configuration::{LoadError, Routing, Settings};

fn settings(host: &str, port: u16) -> Settings {
    Settings { routing: Routing { host: host.to_string(), port } }
}

#[test]
fn configuration_valid() {
    // A file holding host 0.0.0.0 and port 8080 loads.
    let s = Settings::new(Some("/tmp/valid.yaml"), Ok(settings("0.0.0.0", 8080))).expect("Failed to load valid configuration");
    assert_eq!(s, settings("0.0.0.0", 8080));
}

#[test]
fn configuration_invalid() {
    // An empty file does not hold the settings: loading it fails.
    let err = Settings::new(Some("/tmp/invalid.yaml"), Err("missing field `routing`".to_string()))
        .expect_err("Invalid configuration should fail to load");
    assert_eq!(err.path, "/tmp/invalid.yaml");
    assert_eq!(err.cause, "missing field `routing`");
    assert_eq!(err.message(), "Failed to load configuration file at /tmp/invalid.yaml");
}

#[test]
fn configuration_from_env_simple() {
    // Z2P_ROUTING_HOST=localhost and no file: the loader gives host localhost.
    let s = Settings::new(None, Ok(settings("localhost", 0))).expect("Failed to load settings");
    assert_eq!(&s.routing.host, "localhost");
}

#[test]
fn configuration_from_env_override() {
    let s = Settings::new(Some("/tmp/valid.yaml"), Ok(settings("localhost", 8080))).expect("Failed to load settings");
    assert_eq!(&s.routing.host, "localhost");
}

#[test]
fn configuration_missing_without_file_is_default() {
    let s = Settings::new(None, Err("no configuration".to_string())).expect("defaults");
    assert_eq!(s, Settings::default());
    assert_eq!(s.routing, Routing::default());
    assert_eq!(s.routing.host, "0.0.0.0");
    assert_eq!(s.routing.port, 8000);
}

#[test]
fn address_and_health_check_url() {
    assert_eq!(Settings::default().address(), "0.0.0.0:8000");
    assert_eq!(settings("localhost", 65535).address(), "localhost:65535");
    assert_eq!(settings("h", 0).health_check_url(), "http://h:0/health_check");
}

#[test]
fn load_error_message() {
    let e = LoadError { path: "zero2prod.yml".to_string(), cause: String::new() };
    assert_eq!(e.message(), "Failed to load configuration file at zero2prod.yml");
}
