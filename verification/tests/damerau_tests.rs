use typefix::correction::damerau::{damerau_distance, is_within_distance, DamerauLevenshtein};

#[test]
fn test_identical_strings() {
    let mut calc = DamerauLevenshtein::new();
    assert_eq!(calc.distance("hello", "hello", 2), 0);
    assert_eq!(calc.distance("hola", "hola", 2), 0);
}

#[test]
fn test_single_transposition() {
    let mut calc = DamerauLevenshtein::new();
    // Common typo: qeu -> que
    assert_eq!(calc.distance("qeu", "que", 1), 1);
    assert_eq!(calc.distance("hte", "the", 1), 1);
    assert_eq!(calc.distance("adn", "and", 1), 1);
    assert_eq!(calc.distance("teh", "the", 1), 1);
}

#[test]
fn test_single_insertion() {
    let mut calc = DamerauLevenshtein::new();
    assert_eq!(calc.distance("hola", "holaa", 1), 1);
    assert_eq!(calc.distance("", "a", 1), 1);
}

#[test]
fn test_single_deletion() {
    let mut calc = DamerauLevenshtein::new();
    assert_eq!(calc.distance("holaa", "hola", 1), 1);
    assert_eq!(calc.distance("a", "", 1), 1);
}

#[test]
fn test_single_substitution() {
    let mut calc = DamerauLevenshtein::new();
    assert_eq!(calc.distance("hola", "holb", 1), 1);
    assert_eq!(calc.distance("cat", "bat", 1), 1);
}

#[test]
fn test_distance_two() {
    let mut calc = DamerauLevenshtein::new();
    assert_eq!(calc.distance("cat", "dog", 2), 3);
    assert_eq!(calc.distance("hello", "helo", 2), 1);
}

#[test]
fn test_early_exit() {
    let mut calc = DamerauLevenshtein::new();
    // Should early exit when distance exceeds threshold
    assert_eq!(calc.distance("abc", "xyz", 1), 2); // 3, but capped at 2
}

#[test]
fn test_empty_strings() {
    let mut calc = DamerauLevenshtein::new();
    assert_eq!(calc.distance("", "", 2), 0);
    assert_eq!(calc.distance("abc", "", 2), 3);
    assert_eq!(calc.distance("", "abc", 2), 3);
}

#[test]
fn damerau_test_unicode() {
    let mut calc = DamerauLevenshtein::new();
    assert_eq!(calc.distance("café", "café", 1), 0);
    assert_eq!(calc.distance("naïve", "naive", 1), 1);
    assert_eq!(calc.distance("日本語", "日本", 1), 1);
}

#[test]
fn damerau_test_emoji() {
    let mut calc = DamerauLevenshtein::new();
    assert_eq!(calc.distance("😀", "😀", 1), 0);
    assert_eq!(calc.distance("😀😁", "😀", 1), 1);
}

#[test]
fn test_case_sensitivity() {
    let mut calc = DamerauLevenshtein::new();
    assert_eq!(calc.distance("Hello", "hello", 1), 1); // Case is considered substitution
}

#[test]
fn test_multiple_transpositions() {
    let mut calc = DamerauLevenshtein::new();
    // caab -> abca has multiple ops
    assert_eq!(calc.distance("caab", "abca", 2), 3);
}

#[test]
fn test_convenience_functions() {
    assert!(is_within_distance("qeu", "que", 1));
    assert!(!is_within_distance("qeu", "casa", 1));
    assert_eq!(damerau_distance("test", "test", 2), 0);
}

#[test]
fn test_special_chars() {
    let mut calc = DamerauLevenshtein::new();
    assert_eq!(calc.distance("hello!", "hello", 1), 1);
    assert_eq!(calc.distance("hello!", "hello!", 1), 0);
    assert_eq!(calc.distance("don't", "dont", 1), 1);
}

#[test]
fn test_whitespace() {
    let mut calc = DamerauLevenshtein::new();
    assert_eq!(calc.distance("hello world", "helloworld", 1), 1);
    assert_eq!(calc.distance("hello world", "hello  world", 1), 1);
}

#[test]
fn test_length_difference_limit() {
    let mut calc = DamerauLevenshtein::new();
    // "abc" and "abcdef" can't be distance 1
    assert_eq!(calc.distance("abc", "abcdef", 1), 2);
    assert_eq!(calc.distance("abcdef", "abc", 1), 2);
}

// Own tests

#[test]
fn distance_capped_at_threshold_plus_one() {
    let mut calc = DamerauLevenshtein::new();
    assert_eq!(calc.distance("kitten", "sitting", 0), 1);
    assert_eq!(calc.distance("kitten", "sitting", 2), 3);
    assert_eq!(calc.distance("kitten", "sitting", 5), 3);
}

#[test]
fn distance_general_table_values() {
    let mut calc = DamerauLevenshtein::new();
    assert_eq!(calc.distance("ca", "abc", 3), 2);
    assert_eq!(calc.distance("abcdef", "badcfe", 4), 3);
    assert_eq!(calc.distance("ab", "ba", 3), 1);
}

#[test]
fn distance_one_fast_path_cases() {
    let mut calc = DamerauLevenshtein::new();
    assert_eq!(calc.distance("abcd", "abdc", 1), 1);
    assert_eq!(calc.distance("abcd", "badc", 1), 2);
    assert_eq!(calc.distance("abc", "abxc", 1), 1);
    assert_eq!(calc.distance("abxc", "abc", 1), 1);
    assert_eq!(calc.distance("abc", "xbcy", 1), 2);
}

#[test]
fn distance_zero_only_for_equal_strings() {
    let mut calc = DamerauLevenshtein::new();
    assert_eq!(calc.distance("same", "same", 0), 0);
    assert_eq!(calc.distance("same", "sane", 0), 1);
}

#[test]
fn within_distance_agrees_with_distance() {
    assert!(is_within_distance("hola", "hola", 0));
    assert!(!is_within_distance("hola", "bola", 0));
    assert!(is_within_distance("abc", "xyz", 3));
    assert_eq!(damerau_distance("abc", "xyz", 1), 2);
}

#[test]
fn pool_is_reused_across_calls() {
    let mut calc = DamerauLevenshtein::default();
    for _ in 0..10 {
        assert_eq!(calc.distance("abcdefgh", "hgfedcba", 8), 7);
    }
}

#[test]
fn threshold_one_agrees_with_table() {
    let mut calc = DamerauLevenshtein::new();
    let pairs = [
        ("teh", "the"),
        ("abcd", "acbd"),
        ("hello", "helo"),
        ("helo", "hello"),
        ("cat", "cut"),
        ("abc", "cab"),
        ("abcd", "badc"),
        ("ab", "ba"),
        ("a", "b"),
        ("kitten", "sitting"),
        ("same", "same"),
    ];
    for (a, b) in pairs {
        let fast = calc.distance(a, b, 1);
        let table = calc.distance(a, b, 3);
        assert_eq!(fast, table.min(2), "{} vs {}", a, b);
    }
}

#[test]
fn distance_of_long_strings_is_exact() {
    // a table of more than a million cells still gives the true distance
    let a: String = "ab".repeat(600);
    let mut b = a.clone();
    b.replace_range(0..1, "z");
    assert_eq!(damerau_distance(&a, &b, 2), 1);
    let mut calc = DamerauLevenshtein::new();
    assert_eq!(calc.distance(&a, &b, 3), 1);
}

#[test]
fn distance_is_symmetric() {
    assert_eq!(damerau_distance("ca", "abc", 3), 2);
    assert_eq!(damerau_distance("abc", "ca", 3), 2);
    assert_eq!(damerau_distance("ax", "ya", 2), 2);
    assert_eq!(damerau_distance("ya", "ax", 2), 2);
}
