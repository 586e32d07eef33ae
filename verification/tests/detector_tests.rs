use typefix::language::detector::{LanguageDetector, StopwordsTrie};

#[test]
fn test_stopwords_trie() {
    let mut trie = StopwordsTrie::new();
    trie.insert("el");
    trie.insert("la");
    trie.insert("de");
    trie.insert("que");

    assert!(trie.is_stopword("el"));
    assert!(trie.is_stopword("EL")); // Case insensitive
    assert!(!trie.is_stopword("hola"));
    assert_eq!(trie.len(), 4);
}

// Own tests

#[test]
fn stopwords_counted_once() {
    let mut trie = StopwordsTrie::default();
    assert!(trie.is_empty());
    trie.insert("el");
    trie.insert("el");
    assert_eq!(trie.len(), 1);
    let from = StopwordsTrie::from_words(&vec!["a".to_string(), "b".to_string(), "a".to_string()]);
    assert_eq!(from.len(), 2);
    assert!(from.is_stopword("B"));
}

#[test]
fn window_keeps_most_recent_words_lowercased() {
    let mut d = LanguageDetector::new(3, 2);
    assert!(!d.has_enough_words());
    for w in ["Uno", "DOS", "tres", "cuatro"] {
        d.push_word(w);
    }
    assert_eq!(d.get_window(), vec!["dos".to_string(), "tres".to_string(), "cuatro".to_string()]);
    assert_eq!(d.window_len(), 3);
    assert!(d.has_enough_words());
    d.reset();
    assert_eq!(d.window_len(), 0);
}

#[test]
fn hits_count_stopwords_per_language() {
    let mut d = LanguageDetector::new(5, 1);
    let mut es = StopwordsTrie::new();
    es.insert("el");
    es.insert("la");
    let mut en = StopwordsTrie::new();
    en.insert("the");
    d.add_language("es", es);
    d.add_language("en", en);
    d.set_language("en");
    for w in ["El", "perro", "la", "the"] {
        d.push_word(w);
    }
    assert_eq!(d.stopword_hits(), vec![("es".to_string(), 2), ("en".to_string(), 1)]);
    assert_eq!(d.current_hits(), 1);
    assert_eq!(d.get_language(), "en");
    d.set_language("fr");
    assert_eq!(d.current_hits(), 0);
    // replacing a language keeps its place
    d.add_language("es", StopwordsTrie::new());
    assert_eq!(d.stopword_hits(), vec![("es".to_string(), 0), ("en".to_string(), 1)]);
}

#[test]
fn stopwords_are_stored_lower_cased() {
    let mut trie = StopwordsTrie::new();
    trie.insert("EL");
    assert!(trie.is_stopword("EL"));
    assert!(trie.is_stopword("el"));
    assert!(trie.is_stopword("El"));
    assert_eq!(trie.len(), 1);
}

#[test]
fn window_keeps_latest_words() {
    let mut detector = LanguageDetector::new(3, 1);
    for w in ["one", "two", "three", "four", "five"] {
        detector.push_word(w);
        assert!(detector.window_len() <= 3);
    }
    assert_eq!(detector.window_len(), 3);
}

#[test]
fn detector_test_json_parsing() {
    let json = r#"{
            "language": "es",
            "stopwords": ["el", "la", "de", "que"]
        }"#;

    let trie = StopwordsTrie::from_json(json).unwrap();
    assert!(trie.is_stopword("el"));
    assert!(trie.is_stopword("que"));
    assert!(!trie.is_stopword("casa"));
}

#[test]
fn stopwords_json_must_hold_strings() {
    assert!(StopwordsTrie::from_json(r#"{"stopwords": ["el", 3]}"#).is_err());
    assert!(StopwordsTrie::from_json(r#"{"words": []}"#).is_err());
    assert!(StopwordsTrie::from_json("[").is_err());
    assert!(StopwordsTrie::from_json(r#"{"stopwords": []}"#).unwrap().is_empty());
}

#[test]
fn leading_language_is_the_first_with_most_hits() {
    let mut detector = LanguageDetector::new(5, 1);
    assert_eq!(detector.leading_language(), None);
    let en = StopwordsTrie::from_words(&vec!["the".to_string(), "and".to_string()]);
    let es = StopwordsTrie::from_words(&vec!["el".to_string(), "la".to_string()]);
    detector.add_language("en", en);
    detector.add_language("es", es);
    // no hits: the first language leads
    assert_eq!(detector.leading_language(), Some(("en".to_string(), 0)));
    detector.push_word("El");
    detector.push_word("perro");
    assert_eq!(detector.leading_language(), Some(("es".to_string(), 1)));
    detector.push_word("the");
    // a tie goes to the first language
    assert_eq!(detector.leading_language(), Some(("en".to_string(), 1)));
}
