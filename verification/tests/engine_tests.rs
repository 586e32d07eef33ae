use std::sync::Arc;
use typefix::base::trie::Trie;
use typefix::correction::engine::{CorrectionEngine, CorrectionSource, EngineConfig};
use typefix::correction::static_map::StaticErrorMap;
use typefix::language::detector::LanguageDetector;

fn create_test_engine() -> CorrectionEngine {
    let mut engine = CorrectionEngine::new(EngineConfig {
        max_edit_distance: 1,
        max_candidates: 3,
        min_word_length: 2,
        case_sensitive: false,
    });

    // Add test dictionary
    let mut trie = Trie::new();
    trie.insert("hello", 1000);
    trie.insert("world", 800);
    trie.insert("hola", 900);
    trie.insert("que", 500);
    trie.insert("the", 10000);
    trie.insert("and", 9000);
    trie.insert("is", 8000);
    engine.add_dictionary("en", Arc::new(trie));

    let mut detector = LanguageDetector::new(5, 1);

    // Set language
    detector.set_language("en");

    engine.with_detector(detector)
}

#[test]
fn test_short_words_not_corrected() {
    let mut engine = create_test_engine();
    let result = engine.correct("h");
    assert_eq!(result.corrected, None);
    assert_eq!(result.original, "h");
}

#[test]
fn test_no_correction_for_valid_word() {
    let mut engine = create_test_engine();
    let result = engine.correct("hello");
    assert_eq!(result.corrected, None); // Already valid
}

#[test]
fn test_multiple_candidates() {
    let mut engine = create_test_engine();
    let mut trie = Trie::new();
    trie.insert("hello", 1000);
    trie.insert("jello", 800);
    trie.insert("yello", 600);
    trie.insert("hallo", 400);
    engine.add_dictionary("en", Arc::new(trie));

    let candidates = engine.get_corrections("helo");
    assert!(!candidates.is_empty());
}

#[test]
fn test_text_correction_preserves_punctuation() {
    let mut engine = create_test_engine();
    let mut trie = Trie::new();
    trie.insert("hello", 1000);
    trie.insert("world", 800);
    engine.add_dictionary("en", Arc::new(trie));

    let detector = LanguageDetector::new(5, 1);
    let mut engine = engine.with_detector(detector);

    let text = "hello, world!";
    let corrected = engine.correct_text(text);
    assert_eq!(corrected, text); // Valid words unchanged
}

#[test]
fn test_case_preservation_title_case() {
    let mut engine = create_test_engine();
    // "HELLO" should stay uppercase-ish if desired
    let result = engine.correct("HELLO");
    // Valid word, no correction needed
    assert_eq!(result.corrected, None);
}

#[test]
fn test_empty_string() {
    let mut engine = create_test_engine();
    let result = engine.correct("");
    assert_eq!(result.original, "");
    assert_eq!(result.corrected, None);
}

#[test]
fn test_fail_safe_returns_original() {
    let mut engine = CorrectionEngine::default();
    // Unknown word returns original
    let result = engine.correct("xyzzyab");
    assert_eq!(result.original, "xyzzyab");
    assert_eq!(result.corrected, None);
}

#[test]
fn test_unicode_in_text() {
    let mut engine = create_test_engine();
    let mut trie = Trie::new();
    trie.insert("café", 1000);
    trie.insert("naïve", 800);
    engine.add_dictionary("en", Arc::new(trie));

    let detector = LanguageDetector::new(5, 1);
    let mut engine = engine.with_detector(detector);

    let text = "I love café";
    let corrected = engine.correct_text(text);
    assert!(corrected.contains("café"));
}

#[test]
fn test_emoji_not_crashed() {
    let mut engine = create_test_engine();
    let result = engine.correct("😀");
    // Should not crash, returns original
    assert_eq!(result.original, "😀");
}

#[test]
fn test_very_long_word() {
    let mut engine = create_test_engine();
    let long = "a".repeat(1000);
    let result = engine.correct(&long);
    // Should not crash, returns original
    assert_eq!(result.original.len(), 1000);
}

#[test]
fn test_word_with_apostrophe() {
    let mut engine = create_test_engine();
    let mut trie = Trie::new();
    trie.insert("don't", 1000);
    trie.insert("isn't", 800);
    engine.add_dictionary("en", Arc::new(trie));

    let detector = LanguageDetector::new(5, 1);
    let mut engine = engine.with_detector(detector);

    let result = engine.correct("don't");
    assert_eq!(result.corrected, None); // Valid word
}

#[test]
fn test_mark_correct_learns() {
    let mut engine = create_test_engine();

    let errors = StaticErrorMap::new("en");
    engine.add_error_map(errors, "en");

    engine.mark_correct("mytypo", "my typo");
    let result = engine.correct("mytypo");
    assert_eq!(result.corrected, Some("my typo".to_string()));
}

#[test]
fn test_mark_incorrect_unlearns() {
    let mut engine = create_test_engine();
    engine.mark_incorrect("testtypo");
    // Should not crash
    let result = engine.correct("testtypo");
    assert_eq!(result.original, "testtypo");
}

#[test]
fn test_suggestions_sorted_by_distance_then_frequency() {
    let mut engine = create_test_engine();
    let mut trie = Trie::new();
    trie.insert("hello", 1000);
    trie.insert("jello", 800);
    trie.insert("hella", 600);
    engine.add_dictionary("en", Arc::new(trie));

    let detector = LanguageDetector::new(5, 1);
    let mut engine = engine.with_detector(detector);

    let candidates = engine.get_corrections("helo");
    // Should be sorted by distance, then frequency
    if candidates.len() >= 2 {
        assert!(candidates[0].distance <= candidates[1].distance);
    }
}

// Own tests

#[test]
fn dictionary_correction_picks_nearest_most_frequent() {
    let mut engine = create_test_engine();
    let result = engine.correct("helo");
    assert_eq!(result.corrected, Some("hello".to_string()));
    assert_eq!(result.source, CorrectionSource::Dictionary);
    assert_eq!(result.candidates[0].distance, 1);
    assert_eq!(result.candidates[0].frequency, 1000);
    let result = engine.correct("teh");
    assert_eq!(result.corrected, Some("the".to_string()));
}

#[test]
fn learned_correction_wins_and_is_listed_first() {
    let mut engine = create_test_engine();
    let mut map = StaticErrorMap::new("en");
    map.insert_static("helo", "hola");
    engine.add_error_map(map, "en");
    let result = engine.correct("HELO");
    assert_eq!(result.corrected, Some("hola".to_string()));
    assert_eq!(result.source, CorrectionSource::UserKnown);
    let suggestions = engine.get_corrections("helo");
    assert_eq!(suggestions[0].word, "hola");
    assert_eq!(suggestions[0].distance, 0);
    assert_eq!(suggestions[0].source, CorrectionSource::UserKnown);
    assert_eq!(suggestions[1].word, "hello");
    assert!(suggestions.len() <= 3);
    engine.mark_incorrect("helo");
    let result = engine.correct("helo");
    assert_eq!(result.corrected, Some("hello".to_string()));
}

#[test]
fn correct_text_replaces_words_keeping_case_and_punctuation() {
    let mut engine = create_test_engine();
    assert_eq!(engine.correct_text("Helo, wrold!"), "Hello, world!");
    assert_eq!(engine.correct_text("teh end"), "the and");
    assert_eq!(engine.correct_text(""), "");
    assert_eq!(engine.current_language(), "en");
}

#[test]
fn preserve_case_patterns() {
    assert_eq!(CorrectionEngine::preserve_case("Helo", "hello"), "Hello");
    assert_eq!(CorrectionEngine::preserve_case("helo", "HELLO"), "hello");
    assert_eq!(CorrectionEngine::preserve_case("", "abc"), "abc");
    assert_eq!(CorrectionEngine::preserve_case("ABC", "xYZ"), "Xyz");
}

#[test]
fn zero_candidates_limit_gives_no_suggestions() {
    let mut engine = CorrectionEngine::new(EngineConfig { max_edit_distance: 1, max_candidates: 0, min_word_length: 2, case_sensitive: false });
    let mut trie = Trie::new();
    trie.insert("hello", 1);
    engine.add_dictionary("en", Arc::new(trie));
    engine.set_language("en");
    assert!(engine.get_corrections("helo").is_empty());
}

#[test]
fn engine_dictionary_correction_differs_from_word() {
    let mut engine = create_test_engine();
    let result = engine.correct("Helo");
    assert_eq!(result.source, CorrectionSource::Dictionary);
    let corrected = result.corrected.expect("a dictionary correction");
    assert_ne!(corrected, "helo");
    assert_eq!(corrected, "hello");
    assert!(result.candidates.iter().all(|c| c.distance >= 1 && c.distance <= 1));
}

#[test]
fn engine_dictionary_word_kept_in_any_case() {
    let mut engine = create_test_engine();
    let result = engine.correct("WORLD");
    assert_eq!(result.corrected, None);
    assert_eq!(result.source, CorrectionSource::NotFound);
    assert!(result.candidates.is_empty());
}

#[test]
fn fresh_engine_knows_the_common_typos() {
    let mut engine = CorrectionEngine::new(EngineConfig::default());
    assert_eq!(engine.current_language(), "en");
    let result = engine.correct("qeu");
    assert_eq!(result.corrected, Some("que".to_string()));
    assert_eq!(result.source, CorrectionSource::UserKnown);
    assert_eq!(engine.correct("QEU").corrected, Some("que".to_string()));
    assert_eq!(engine.correct("teh").corrected, None);
    assert_eq!(engine.correct("xyzzyab").corrected, None);
    engine.set_language("es");
    assert_eq!(engine.correct("qeu").corrected, None);
}

#[test]
fn word_step_corrects_a_finished_word() {
    let mut buffer = typefix::base::buffer::CharBuffer::new();
    let mut engine = CorrectionEngine::new(EngineConfig::default());
    for c in "qeu".chars() {
        assert_eq!(typefix::pipeline::word_step(&mut buffer, &mut engine, true, c), None);
    }
    let r = typefix::pipeline::word_step(&mut buffer, &mut engine, true, ' ');
    assert_eq!(r, Some(("qeu".to_string(), Some("que".to_string()))));
    assert!(buffer.is_empty());
    for c in "qeu".chars() {
        typefix::pipeline::word_step(&mut buffer, &mut engine, false, c);
    }
    let r = typefix::pipeline::word_step(&mut buffer, &mut engine, false, '.');
    assert_eq!(r, Some(("qeu".to_string(), None)));
}
