use tarn::config::{
    storage_config, Builder, Config, ConfigError, InMemoryRevisionTrackerConfig, LocalStorageConfig, LogLevel,
    RevisionTrackerConfig, StorageConfig,
};

fn vars(pairs: &[(&str, &str)]) -> Vec<(String, String)> {
    pairs.iter().map(|(k, v)| (k.to_string(), v.to_string())).collect()
}

#[test]
fn get_storage_config_local() {
    let v = vars(&[("STORAGE__TYPE", "local"), ("STORAGE__PATH", "/tmp/vault")]);
    let config = storage_config(&v).unwrap();
    match config {
        StorageConfig::Local(c) => assert_eq!(c.path, std::path::PathBuf::from("/tmp/vault")),
    }
}

#[test]
fn get_storage_config_missing_type() {
    let v = vars(&[]);
    let err = storage_config(&v).unwrap_err();
    assert!(matches!(err, ConfigError::MissingVar(_)));
}

#[test]
fn get_storage_config_unsupported_type() {
    let v = vars(&[("STORAGE__TYPE", "s3")]);
    let err = storage_config(&v).unwrap_err();
    assert!(matches!(err, ConfigError::UnsupportedStorageType(_)));
}

#[test]
fn get_storage_config_missing_path() {
    let v = vars(&[("STORAGE__TYPE", "local")]);
    let err = storage_config(&v).unwrap_err();
    assert!(matches!(err, ConfigError::MissingVar(_)));
}

#[test]
fn config_error_messages() {
    let v = vars(&[("STORAGE__TYPE", "local")]);
    assert_eq!(storage_config(&v).unwrap_err().to_string(), "missing environment variable: STORAGE__PATH");
    let v = vars(&[("STORAGE__TYPE", "s3")]);
    assert_eq!(storage_config(&v).unwrap_err().to_string(), "unsupported storage type: s3");
}

#[test]
fn later_variable_wins() {
    let v = vars(&[("STORAGE__TYPE", "s3"), ("STORAGE__TYPE", "local"), ("STORAGE__PATH", "/v")]);
    assert!(storage_config(&v).is_ok());
}

#[test]
fn defaults_have_no_persistence() {
    let c = InMemoryRevisionTrackerConfig::default();
    assert!(c.persistence_path.is_none());
    match RevisionTrackerConfig::default() {
        RevisionTrackerConfig::InMemory(c) => assert!(c.persistence_path.is_none()),
    }
}

#[test]
fn builder_keeps_config() {
    let b = Builder::new(Config {
        storage: StorageConfig::Local(LocalStorageConfig { path: std::path::PathBuf::from("/v") }),
    });
    match &b.config.storage {
        StorageConfig::Local(c) => assert_eq!(c.path, std::path::PathBuf::from("/v")),
    }
}

#[test]
fn log_level_filters() {
    assert_eq!(LogLevel::Trace.as_filter(), "trace");
    assert_eq!(LogLevel::Debug.as_filter(), "debug");
    assert_eq!(LogLevel::Info.as_filter(), "info");
    assert_eq!(LogLevel::Warn.as_filter(), "warn");
    assert_eq!(LogLevel::Error.as_filter(), "error");
}
