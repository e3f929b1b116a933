use redis_replay::config::{BackoffConfig, Config};

#[test]
fn default_arguments() {
    let config = Config::init();
    assert_eq!(config.is_verbose(), false);
    assert_eq!(config.is_silent(), false);
    assert_eq!(config.redis().as_str(), "redis://127.0.0.1:6379");
    assert_eq!(config.input().as_str(), "")
}

#[test]
fn explicit_arguments() {
    let config = Config::new(
        true,
        false,
        "dump.log".to_string(),
        "redis://10.0.0.1:6379".to_string(),
    );
    assert!(config.is_verbose());
    assert!(!config.is_silent());
    assert_eq!(config.input().as_str(), "dump.log");
    assert_eq!(config.redis().as_str(), "redis://10.0.0.1:6379");
}

#[test]
fn backoff_defaults() {
    let backoff = BackoffConfig::new();
    assert_eq!(backoff.exponent_base, 2);
    assert_eq!(backoff.min_delay_millis, 100);
    assert_eq!(backoff.number_of_retries, 6);
}
