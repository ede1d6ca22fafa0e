use llm_stream::config::{load_api_config, load_from_path, ConfigError};

#[test]
fn config_text_parses() {
    let text = "[api]\nendpoint = \"https://api.example.com/v1/chat\"\nkey = \"k-123\"\nmodel = \"demo-model\"\n";
    let config = load_from_path(text).unwrap();
    assert_eq!(config.api.endpoint, "https://api.example.com/v1/chat");
    assert_eq!(config.api.key, "k-123");
    assert_eq!(config.api.model, "demo-model");

    let api = load_api_config(text).unwrap();
    assert_eq!(api.endpoint, config.api.endpoint);
    assert_eq!(api.key, config.api.key);
    assert_eq!(api.model, config.api.model);
}

#[test]
fn invalid_toml_is_rejected() {
    let r = load_from_path("this is = = not toml");
    assert!(matches!(r, Err(ConfigError)));
}

#[test]
fn missing_field_is_rejected() {
    let r = load_from_path("[api]\nendpoint = \"e\"\nkey = \"k\"\n");
    assert!(matches!(r, Err(ConfigError)));
    let r = load_api_config("[other]\nendpoint = \"e\"\n");
    assert!(matches!(r, Err(ConfigError)));
}

#[test]
fn non_string_field_is_rejected() {
    let r = load_from_path("[api]\nendpoint = 7\nkey = \"k\"\nmodel = \"m\"\n");
    assert!(matches!(r, Err(ConfigError)));
}
