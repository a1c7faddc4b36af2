use bip39_generator::config::Config;

#[test]
fn test_default_config() {
    let config = Config::default();
    assert_eq!(config.default_word_count, 12);
    assert!(config.use_colors);
    assert_eq!(config.log_level, "INFO");
    assert!(config.show_warnings);
}

#[test]
fn test_update_from_args() {
    let mut config = Config::default();
    config.update_from_args(Some(24), true);
    assert_eq!(config.default_word_count, 24);
    assert!(!config.use_colors);
}

#[test]
fn update_without_args_keeps_defaults() {
    let mut config = Config::default();
    config.update_from_args(None, false);
    assert_eq!(config.default_word_count(), 12);
    assert!(config.should_use_colors());
    assert_eq!(config.log_level(), "INFO");
    assert!(config.output_directory().is_none());
}

#[test]
fn output_directory_is_returned() {
    let mut config = Config::default();
    config.output_directory = Some("/tmp/seeds".to_string());
    assert_eq!(config.output_directory().map(|d| d.as_str()), Some("/tmp/seeds"));
}
