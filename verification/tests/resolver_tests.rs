use typefix::language::resolver::{
    bcp47_to_iso639, detect_system_locale, detect_system_locale_with, resolve_language,
    resolve_language_with, LanguageSource, ResolvedLanguage,
};

#[test]
fn test_bcp47_simple_language() {
    assert_eq!(bcp47_to_iso639("en"), "en");
    assert_eq!(bcp47_to_iso639("es"), "es");
    assert_eq!(bcp47_to_iso639("pt"), "pt");
}

#[test]
fn test_bcp47_with_region() {
    assert_eq!(bcp47_to_iso639("en-US"), "en");
    assert_eq!(bcp47_to_iso639("es-ES"), "es");
    assert_eq!(bcp47_to_iso639("es-MX"), "es");
    assert_eq!(bcp47_to_iso639("pt-BR"), "pt");
    assert_eq!(bcp47_to_iso639("pt-PT"), "pt");
}

#[test]
fn test_bcp47_with_script() {
    assert_eq!(bcp47_to_iso639("zh-Hans-CN"), "zh");
    assert_eq!(bcp47_to_iso639("sr-Cyrl-RS"), "sr");
}

#[test]
fn test_bcp47_underscore_separator() {
    assert_eq!(bcp47_to_iso639("en_US"), "en");
    assert_eq!(bcp47_to_iso639("pt_BR"), "pt");
}

#[test]
fn test_bcp47_uppercase_normalized() {
    assert_eq!(bcp47_to_iso639("EN"), "en");
    assert_eq!(bcp47_to_iso639("PT-BR"), "pt");
}

#[test]
fn test_bcp47_empty_falls_back() {
    assert_eq!(bcp47_to_iso639(""), "en");
}

#[test]
fn test_bcp47_separator_only() {
    assert_eq!(bcp47_to_iso639("-"), "en");
    assert_eq!(bcp47_to_iso639("_"), "en");
}

#[test]
fn test_bcp47_grandfathered_tags() {
    assert_eq!(bcp47_to_iso639("x-private"), "x");
    assert_eq!(bcp47_to_iso639("i-klingon"), "i");
}

#[test]
fn test_detect_with_exact_match() {
    let supported = vec!["en".to_string(), "es".to_string()];
    assert_eq!(
        detect_system_locale_with(Some("en-US"), &supported),
        Some("en".to_string())
    );
    assert_eq!(
        detect_system_locale_with(Some("es-MX"), &supported),
        Some("es".to_string())
    );
}

#[test]
fn test_detect_with_no_match_returns_none() {
    let supported = vec!["en".to_string()];
    assert_eq!(detect_system_locale_with(Some("fr-FR"), &supported), None);
}

#[test]
fn test_detect_with_empty_supported_returns_none() {
    assert_eq!(detect_system_locale_with(Some("en-US"), &[]), None);
}

#[test]
fn test_detect_with_none_input_returns_none() {
    let supported = vec!["en".to_string()];
    assert_eq!(detect_system_locale_with(None, &supported), None);
}

#[test]
fn test_resolve_user_pref_takes_priority() {
    let supported = vec!["en".to_string(), "es".to_string()];
    let resolved = resolve_language_with(&Some("es".to_string()), &supported, "en", Some("en-US"));
    assert_eq!(resolved.code, "es");
    assert_eq!(resolved.source, LanguageSource::UserPreference);
}

#[test]
fn test_resolve_with_override_system_match() {
    let supported = vec!["en".to_string(), "es".to_string()];
    let resolved = resolve_language_with(&None, &supported, "en", Some("es-ES"));
    assert_eq!(resolved.code, "es");
    assert_eq!(resolved.source, LanguageSource::SystemLocale);
}

#[test]
fn test_resolve_with_override_no_match_falls_back() {
    let supported = vec!["en".to_string()];
    let resolved = resolve_language_with(&None, &supported, "en", Some("fr-FR"));
    assert_eq!(resolved.code, "en");
    assert_eq!(resolved.source, LanguageSource::DefaultFallback);
}

#[test]
fn test_resolve_user_pref_unsupported_falls_through_to_system() {
    let supported = vec!["en".to_string(), "es".to_string()];
    let resolved = resolve_language_with(&Some("fr".to_string()), &supported, "en", Some("es-ES"));
    assert_eq!(resolved.code, "es");
    assert_eq!(resolved.source, LanguageSource::SystemLocale);
}

#[test]
fn test_resolve_user_pref_unsupported_no_match_falls_to_default() {
    let supported = vec!["en".to_string(), "es".to_string()];
    let resolved = resolve_language_with(&Some("fr".to_string()), &supported, "en", Some("de-DE"));
    assert_eq!(resolved.code, "en");
    assert_eq!(resolved.source, LanguageSource::DefaultFallback);
}

#[test]
fn test_resolved_language_equality() {
    let a = ResolvedLanguage {
        code: "en".to_string(),
        source: LanguageSource::UserPreference,
    };
    let b = ResolvedLanguage {
        code: "en".to_string(),
        source: LanguageSource::UserPreference,
    };
    assert_eq!(a, b);
}

// Own tests

#[test]
fn system_detection_only_answers_supported_languages() {
    let supported = vec!["en".to_string(), "es".to_string()];
    if let Some(code) = detect_system_locale(&supported) {
        assert!(supported.contains(&code));
    }
    let resolved = resolve_language(&None, &supported, "en");
    assert!(supported.contains(&resolved.code));
    assert_ne!(resolved.source, LanguageSource::UserPreference);
}

#[test]
fn preference_wins_over_system() {
    let supported = vec!["en".to_string(), "es".to_string()];
    let resolved = resolve_language(&Some("es".to_string()), &supported, "en");
    assert_eq!(resolved, ResolvedLanguage { code: "es".to_string(), source: LanguageSource::UserPreference });
}

#[test]
fn test_detect_system_locale_with_empty_tag() {
    let supported = vec!["en".to_string()];
    assert_eq!(detect_system_locale_with(Some(""), &supported), None);
}
