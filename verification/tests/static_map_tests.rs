use typefix::correction::static_map::StaticErrorMap;

#[test]
fn test_basic_lookup() {
    let mut map = StaticErrorMap::new("es");
    map.insert_static("qeu", "que");

    assert_eq!(map.lookup("qeu"), Some("que".to_string()));
    assert_eq!(map.lookup("QEU"), Some("que".to_string())); // Case insensitive
    assert_eq!(map.lookup("que"), None); // "que" is not a typo
}

#[test]
fn test_learn() {
    let mut map = StaticErrorMap::new("es");
    map.learn("tengo", "tengo"); // Should be ignored (same)
    map.learn("mipropio", "mi propio");

    assert_eq!(map.lookup("mipropio"), Some("mi propio".to_string()));
}

#[test]
fn test_user_override() {
    let mut map = StaticErrorMap::new("es");
    map.insert_static("qeu", "que");

    // User says "qeu" should actually be "qué"
    map.learn("qeu", "qué");

    // User correction takes priority
    assert_eq!(map.lookup("qeu"), Some("qué".to_string()));
}

#[test]
fn test_unlearn() {
    let mut map = StaticErrorMap::new("es");
    // Learn a real correction (typo != correction)
    map.learn("testtypo", "test typo");
    assert_eq!(map.lookup("testtypo"), Some("test typo".to_string()));

    map.unlearn("testtypo");
    assert_eq!(map.lookup("testtypo"), None);
}

#[test]
fn test_is_known_typo() {
    let mut map = StaticErrorMap::new("es");
    map.insert_static("qeu", "que");

    assert!(map.is_known_typo("qeu"));
    assert!(!map.is_known_typo("que"));
    assert!(!map.is_known_typo("unknown"));
}

#[test]
fn test_frequency() {
    let mut map = StaticErrorMap::new("es");
    map.learn("test1", "correct1");

    assert_eq!(map.get_frequency("test1"), 1000);
}

#[test]
fn test_all_typos() {
    let mut map = StaticErrorMap::new("en");
    map.insert_static("teh", "the");
    map.learn("mytypo", "my typo");

    let all = map.all_typos();
    assert!(all.len() >= 2);
}

#[test]
fn test_clear_user_errors() {
    let mut map = StaticErrorMap::new("en");
    map.learn("typo1", "correct1");
    map.learn("typo2", "correct2");

    assert!(map.lookup("typo1").is_some());

    map.clear_user_errors();
    assert!(map.lookup("typo1").is_none());
}

// Own tests

#[test]
fn stats_count_learned_entries() {
    let mut map = StaticErrorMap::default();
    map.insert_static("qeu", "que");
    map.learn("mipalabra", "mi palabra");
    let stats = map.stats();
    assert_eq!(stats.static_errors, 0);
    assert_eq!(stats.user_errors, 2);
    assert_eq!(stats.language, "unknown");
    assert_eq!(map.language(), "unknown");
}

#[test]
fn from_pairs_lowercases_typos_only() {
    let pairs = vec![("Teh".to_string(), "The".to_string()), ("qeu".to_string(), "que".to_string())];
    let mut map = StaticErrorMap::from_pairs("en", &pairs);
    assert_eq!(map.language(), "en");
    assert_eq!(map.lookup("teh"), Some("The".to_string()));
    assert_eq!(map.lookup("QEU"), Some("que".to_string()));
    let mut more = StaticErrorMap::new("en");
    more.learn_pairs(&pairs);
    assert_eq!(more.lookup("teh"), Some("the".to_string()));
}

#[test]
fn least_recently_used_entry_is_forgotten_when_full() {
    let mut map = StaticErrorMap::new("en");
    for i in 0..1000 {
        map.learn(&format!("typo{}", i), &format!("fix{}", i));
    }
    // touching the oldest keeps it
    assert_eq!(map.lookup("typo0"), Some("fix0".to_string()));
    map.learn("typo1000", "fix1000");
    assert_eq!(map.stats().user_errors, 1000);
    assert!(map.is_known_typo("typo0"));
    assert!(!map.is_known_typo("typo1"));
    assert_eq!(map.user_pairs()[0], ("typo1000".to_string(), "fix1000".to_string()));
}

#[test]
fn static_map_test_json_parsing() {
    let json = r#"{
            "language": "en",
            "errors": {
                "teh": "the",
                "qeu": "que"
            }
        }"#;

    let mut map = StaticErrorMap::from_json_str("en", json).unwrap();
    assert_eq!(map.language(), "en");
    assert_eq!(map.lookup("teh"), Some("the".to_string()));
    assert_eq!(map.lookup("qeu"), Some("que".to_string()));
}

#[test]
fn json_error_map_edge_cases() {
    assert!(StaticErrorMap::from_json_str("en", "not json").is_err());
    let mut map = StaticErrorMap::from_json_str("en", r#"{"language": "en"}"#).unwrap();
    assert_eq!(map.lookup("teh"), None);
    let mut map = StaticErrorMap::from_json_str("en", r#"{"errors": {"TEH": "The", "n": 3}}"#).unwrap();
    assert_eq!(map.lookup("teh"), Some("The".to_string()));
    assert_eq!(map.lookup("n"), None);
}

#[test]
fn learned_corrections_round_trip_through_json() {
    let mut map = StaticErrorMap::new("en");
    map.learn("teh", "the");
    map.learn("adn", "and");
    let text = map.user_errors_json();
    let mut other = StaticErrorMap::new("en");
    other.learn_from_json(&text).unwrap();
    assert_eq!(other.lookup("teh"), Some("the".to_string()));
    assert_eq!(other.lookup("adn"), Some("and".to_string()));
    // keys in code point order
    assert!(text.find("adn").unwrap() < text.find("teh").unwrap());
}

#[test]
fn learning_from_bad_json_learns_nothing() {
    let mut map = StaticErrorMap::new("en");
    assert!(map.learn_from_json("[1, 2]").is_err());
    assert!(map.learn_from_json(r#"{"a": 1}"#).is_err());
    assert!(map.user_pairs().is_empty());
    map.learn_from_json(r#"{"QEU": "Que"}"#).unwrap();
    assert_eq!(map.lookup("qeu"), Some("que".to_string()));
}
