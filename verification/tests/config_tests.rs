use typefix::base::config::{
    validate_settings, BufferConfig, CorrectionConfig, HookMode, HooksConfig, LoggingConfig,
};

fn langs(v: &[&str]) -> Vec<String> {
    v.iter().map(|s| s.to_string()).collect()
}

#[test]
fn test_validation_empty_languages() {
    assert!(validate_settings(&langs(&[]), "en", &None, 64).is_err());
}

#[test]
fn test_validation_invalid_default() {
    assert!(validate_settings(&langs(&["en"]), "de", &None, 64).is_err());
}

#[test]
fn test_user_preferred_language_valid() {
    assert!(validate_settings(&langs(&["en", "es"]), "en", &Some("es".to_string()), 64).is_ok());
}

#[test]
fn test_user_preferred_language_invalid() {
    let err = validate_settings(&langs(&["en", "es"]), "en", &Some("fr".to_string()), 64).unwrap_err();
    assert!(err.contains("user_preferred_language"));
}

// Own tests

#[test]
fn validation_messages_in_rule_order() {
    assert_eq!(
        validate_settings(&langs(&[]), "de", &Some("fr".to_string()), 0).unwrap_err(),
        "At least one supported language is required"
    );
    assert_eq!(
        validate_settings(&langs(&["en"]), "de", &Some("fr".to_string()), 0).unwrap_err(),
        "Default language 'de' must be in supported languages"
    );
    assert_eq!(
        validate_settings(&langs(&["en"]), "en", &Some("fr".to_string()), 0).unwrap_err(),
        "user_preferred_language 'fr' must be in supported languages"
    );
    assert_eq!(
        validate_settings(&langs(&["en"]), "en", &None, 0).unwrap_err(),
        "Buffer max_size must be > 0"
    );
    assert_eq!(validate_settings(&langs(&["en"]), "en", &None, 1), Ok(()));
}

#[test]
fn config_section_defaults() {
    let logging = LoggingConfig::default();
    assert_eq!(logging.level, "info");
    assert!(logging.file.is_none());
    assert!(logging.structured);

    let buffer = BufferConfig::default();
    assert_eq!(buffer.max_size, 64);
    assert!(buffer.normalize_unicode);

    let correction = CorrectionConfig::default();
    assert_eq!(correction.max_edit_distance, 1);
    assert_eq!(correction.max_corrections, 3);
    assert_eq!(correction.min_word_length, 2);
    assert!(!correction.case_sensitive);
    assert!(correction.learn_from_user);
    assert_eq!(
        correction.user_errors_path,
        Some(std::path::PathBuf::from("data/user_errors.json"))
    );
    assert!(!correction.enforce_accents);

    let hooks = HooksConfig::default();
    assert!(hooks.keyboard_enabled);
    assert_eq!(hooks.mode, HookMode::System);
    assert!(hooks.target_app.is_none());
    assert!(!hooks.log_keystrokes);
    assert_eq!(HookMode::default(), HookMode::System);
}

#[test]
fn pipeline_config_defaults() {
    let c = typefix::pipeline::PipelineConfig::default();
    assert!(c.auto_correct);
    assert!(c.detect_language);
    assert_eq!(c.buffer_size, 64);
    assert!(!c.suggestion_mode);
}
