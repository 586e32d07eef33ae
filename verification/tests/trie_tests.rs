use typefix::base::trie::{damerau_distance, Trie};

#[test]
fn test_insert_and_search() {
    let mut trie = Trie::new();
    trie.insert("hola", 100);
    trie.insert("mundo", 50);
    trie.insert("hola", 200); // Update frequency

    assert_eq!(trie.search("hola"), Some(200));
    assert_eq!(trie.search("mundo"), Some(50));
    assert_eq!(trie.search("noexiste"), None);
}

#[test]
fn test_starts_with() {
    let mut trie = Trie::new();
    trie.insert("hola", 100);
    trie.insert("hola mundo", 50);
    trie.insert("adios", 25);

    assert!(trie.starts_with("ho"));
    assert!(trie.starts_with("hola"));
    assert!(trie.starts_with("ad"));
    assert!(!trie.starts_with("xyz"));
}

#[test]
fn test_get_all_with_prefix() {
    let mut trie = Trie::new();
    trie.insert("hola", 100);
    trie.insert("hola mundo", 50);
    trie.insert("hola amigos", 75);
    trie.insert("adios", 25);

    let results = trie.get_all_with_prefix("hola", 10);
    assert_eq!(results.len(), 3); // hola, hola mundo, hola amigos
    assert_eq!(results[0].0, "hola"); // Highest frequency first
    assert_eq!(results[0].1, 100); // Frequency preserved
}

#[test]
fn test_len_and_empty() {
    let mut trie = Trie::new();
    assert!(trie.is_empty());
    assert_eq!(trie.len(), 0);

    trie.insert("hola", 100);
    assert!(!trie.is_empty());
    assert_eq!(trie.len(), 1);
}

#[test]
fn test_damerau_distance() {
    // Transposition
    assert_eq!(damerau_distance("qeu", "que", 1), 1);
    // Insertion
    assert_eq!(damerau_distance("hola", "holaa", 1), 1);
    // Deletion
    assert_eq!(damerau_distance("holaa", "hola", 1), 1);
    // Substitution
    assert_eq!(damerau_distance("hola", "holb", 1), 1);
    // No match
    assert!(damerau_distance("hola", "xyz", 1) > 1);
}

#[test]
fn trie_test_unicode() {
    let mut trie = Trie::new();
    trie.insert("café", 100);
    trie.insert("naïve", 50);
    trie.insert("日本語", 25);

    assert!(trie.contains("café"));
    assert!(trie.contains("naïve"));
    assert!(trie.contains("日本語"));
}

#[test]
fn test_emoji_boundary() {
    let mut trie = Trie::new();
    trie.insert("😀", 100);
    trie.insert("hola 😀 mundo", 50);

    assert!(trie.contains("😀"));
    assert!(trie.starts_with("hola"));
}

#[test]
fn test_find_similar() {
    let mut trie = Trie::new();
    trie.insert("hola", 100);
    trie.insert("bola", 50);
    trie.insert("pola", 30);
    trie.insert("jola", 10);

    let results = trie.find_similar("hola", 1, 10);
    // "bola" and "pola" are distance 1, "jola" is distance 1
    assert!(results.iter().any(|(w, d, _)| w == "bola" && *d == 1));
}

// Own tests

#[test]
fn insert_word_uses_frequency_one_and_len_counts_distinct_words() {
    let mut trie = Trie::default();
    trie.insert_word("uno");
    trie.insert_word("uno");
    trie.insert_word("dos");
    assert_eq!(trie.len(), 2);
    assert_eq!(trie.search("uno"), Some(1));
    assert_eq!(trie.search("un"), None);
    assert!(trie.starts_with(""));
}

#[test]
fn prefix_listing_is_ordered_and_limited() {
    let mut trie = Trie::new();
    trie.insert("casa", 10);
    trie.insert("casado", 30);
    trie.insert("casas", 20);
    trie.insert("cosa", 99);
    let all = trie.get_all_with_prefix("cas", 0);
    assert_eq!(
        all,
        vec![("casado".to_string(), 30), ("casas".to_string(), 20), ("casa".to_string(), 10)]
    );
    let top = trie.get_all_with_prefix("cas", 2);
    assert_eq!(top, vec![("casado".to_string(), 30), ("casas".to_string(), 20)]);
    assert!(trie.get_all_with_prefix("x", 0).is_empty());
}

#[test]
fn all_words_lists_every_word_by_frequency() {
    let mut trie = Trie::new();
    trie.insert("b", 2);
    trie.insert("a", 3);
    trie.insert("c", 1);
    let words = trie.all_words();
    assert_eq!(words, vec![("a".to_string(), 3), ("b".to_string(), 2), ("c".to_string(), 1)]);
}

#[test]
fn find_similar_orders_by_distance_then_frequency_and_limits() {
    let mut trie = Trie::new();
    trie.insert("hola", 100);
    trie.insert("bola", 50);
    trie.insert("pola", 30);
    trie.insert("hoja", 80);
    trie.insert("xyz", 999);
    let results = trie.find_similar("hola", 1, 0);
    assert_eq!(
        results,
        vec![
            ("hola".to_string(), 0, 100),
            ("hoja".to_string(), 1, 80),
            ("bola".to_string(), 1, 50),
            ("pola".to_string(), 1, 30),
        ]
    );
    let limited = trie.find_similar("hola", 1, 2);
    assert_eq!(limited.len(), 2);
    assert_eq!(limited[1].0, "hoja");
}

#[test]
fn trie_distance_capped_and_transposition() {
    assert_eq!(damerau_distance("", "abc", 1), 2);
    assert_eq!(damerau_distance("abc", "", 5), 3);
    assert_eq!(damerau_distance("abcd", "a", 1), 2);
    assert_eq!(damerau_distance("ab", "ba", 3), 1);
    assert_eq!(damerau_distance("same", "same", 0), 0);
}

#[test]
fn from_entries_keeps_last_frequency() {
    let entries = vec![("hola".to_string(), 1), ("mundo".to_string(), 2), ("hola".to_string(), 7)];
    let trie = Trie::from_entries(&entries);
    assert_eq!(trie.len(), 2);
    assert_eq!(trie.search("hola"), Some(7));
    assert_eq!(trie.search("mundo"), Some(2));
}

#[test]
fn trie_distance_has_no_transposition_without_a_match() {
    // no single edit or adjacent swap turns "ax" into "ya"
    assert_eq!(damerau_distance("ax", "ya", 2), 2);
    assert_eq!(damerau_distance("ya", "ax", 2), 2);
    assert_eq!(damerau_distance("ab", "ba", 2), 1);
}

#[test]
fn trie_find_similar_uses_true_distance() {
    let mut trie = Trie::new();
    trie.insert("ya", 10);
    assert!(trie.find_similar("ax", 1, 10).is_empty());
    let r = trie.find_similar("ax", 2, 10);
    assert_eq!(r, vec![("ya".to_string(), 2usize, 10u64)]);
}

#[test]
fn trie_empty_has_no_prefix() {
    let trie = Trie::new();
    assert!(!trie.starts_with(""));
    assert!(!trie.starts_with("a"));
    let mut trie = Trie::new();
    trie.insert("hola", 100);
    assert!(trie.starts_with(""));
    assert!(trie.starts_with("ho"));
    assert!(!trie.starts_with("xyz"));
}

#[test]
fn trie_entries_keep_last_frequency() {
    let entries = vec![("a".to_string(), 1u64), ("b".to_string(), 2u64), ("a".to_string(), 3u64)];
    let trie = Trie::from_entries(&entries);
    assert_eq!(trie.search("a"), Some(3));
    assert_eq!(trie.search("b"), Some(2));
    assert_eq!(trie.search("c"), None);
    assert_eq!(trie.len(), 2);
}

#[test]
fn test_json_deserialize() {
    let json = r#"{
            "words": [
                {"word": "hola", "frequency": 100},
                {"word": "mundo", "frequency": 50}
            ]
        }"#;

    let trie = Trie::from_json(json).unwrap();
    assert!(trie.contains("hola"));
    assert!(trie.contains("mundo"));
    assert_eq!(trie.search("hola"), Some(100));
}

#[test]
fn trie_json_defaults_and_errors() {
    let trie = Trie::from_json(r#"{"words": [{"word": "uno"}, {"word": "dos", "frequency": 7}]}"#).unwrap();
    assert_eq!(trie.search("uno"), Some(1));
    assert_eq!(trie.search("dos"), Some(7));
    assert!(Trie::from_json(r#"{"words": [{"frequency": 7}]}"#).is_err());
    assert!(Trie::from_json(r#"{"words": [{"word": "x", "frequency": -1}]}"#).is_err());
    assert!(Trie::from_json(r#"{"words": [{"word": "x", "frequency": null}]}"#).is_err());
    assert!(Trie::from_json("{}").is_err());
}
