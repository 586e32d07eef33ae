use typefix::base::dict::{Dict, DictError};

fn build(entries: &[(&str, u64)]) -> Dict {
    let owned: Vec<(String, u64)> = entries.iter().map(|(w, f)| (w.to_string(), *f)).collect();
    let bytes = Dict::compile_entries(&owned).expect("compiles");
    Dict::from_bytes(bytes).expect("loads")
}

#[test]
fn dict_compile_and_search() {
    let dict = build(&[("hello", 1000), ("canción", 50), ("hello", 7), ("zero", 0)]);
    assert_eq!(dict.len(), 3);
    assert!(!dict.is_empty());
    // a word listed twice keeps its first frequency
    assert_eq!(dict.search("hello"), Some(1000));
    // accented words are found by their accented form
    assert_eq!(dict.search("canción"), Some(50));
    assert!(dict.contains("canción"));
    assert!(!dict.contains("cancion"));
    // a frequency of 0 is stored as 1
    assert_eq!(dict.search("zero"), Some(1));
    assert_eq!(dict.search("nope"), None);
    assert!(!dict.contains("nope"));
}

#[test]
fn dict_compiled_bytes_match_fst_builder() {
    // The bytes read back by the fst crate hold the encoded, sorted words.
    let owned = vec![("b".to_string(), 2u64), ("a".to_string(), 1u64), ("é".to_string(), 3u64)];
    let bytes = Dict::compile_entries(&owned).unwrap();
    let map = fst::Map::new(bytes).unwrap();
    assert_eq!(map.len(), 3);
    assert_eq!(map.get("a"), Some(1));
    assert_eq!(map.get("b"), Some(2));
    // 'é' is stored as its code letter 'E'
    assert_eq!(map.get("E"), Some(3));
    assert_eq!(map.get("é"), None);
}

#[test]
fn dict_empty() {
    let dict = build(&[]);
    assert!(dict.is_empty());
    assert_eq!(dict.len(), 0);
    assert_eq!(dict.search("a"), None);
    assert!(dict.find_similar("a", 2, 0).is_empty());
}

#[test]
fn dict_error_messages() {
    assert_eq!(DictError::LoadFailed.message(), "Failed to load FST map from bytes");
    assert_eq!(DictError::BuildFailed.message(), "Failed to build FST map");
}

#[test]
fn dict_loads_map_built_with_fst() {
    let mut builder = fst::MapBuilder::memory();
    builder.insert("hello", 1000).unwrap();
    builder.insert("world", 900).unwrap();
    let dict = Dict::from_bytes(builder.into_inner().unwrap()).unwrap();
    assert_eq!(dict.len(), 2);
    assert_eq!(dict.search("world"), Some(900));
}

#[test]
fn dict_find_similar_transposition() {
    let dict = build(&[("the", 10000), ("then", 500), ("hello", 1000)]);
    let r = dict.find_similar("teh", 1, 10);
    assert_eq!(r, vec![("the".to_string(), 1, 10000)]);
}

#[test]
fn dict_find_similar_accents() {
    let dict = build(&[("canción", 100), ("camión", 80)]);
    let r = dict.find_similar("cancion", 1, 5);
    assert_eq!(r, vec![("canción".to_string(), 1, 100)]);
}

#[test]
fn dict_find_similar_order_and_limit() {
    let dict = build(&[("cat", 10), ("bat", 30), ("hat", 20), ("cart", 40), ("dog", 99)]);
    let all = dict.find_similar("cat", 1, 0);
    assert_eq!(
        all,
        vec![
            ("cat".to_string(), 0, 10),
            ("cart".to_string(), 1, 40),
            ("bat".to_string(), 1, 30),
            ("hat".to_string(), 1, 20),
        ]
    );
    let two = dict.find_similar("cat", 1, 2);
    assert_eq!(two, vec![("cat".to_string(), 0, 10), ("cart".to_string(), 1, 40)]);
}

#[test]
fn dict_find_similar_overlap_filter() {
    // "xy" is within two edits of "ab" but shares no character with it.
    let dict = build(&[("xy", 5), ("ay", 3)]);
    let r = dict.find_similar("ab", 2, 0);
    assert_eq!(r, vec![("ay".to_string(), 1, 3)]);
}

#[test]
fn dict_find_similar_sixty_percent() {
    // "abcde" against "abxyz": 2 of 5 characters shared (40%) is refused,
    // "abcxy": 3 of 5 (60%) is kept.
    let dict = build(&[("abxyz", 1), ("abcxy", 2)]);
    let r = dict.find_similar("abcde", 3, 0);
    assert_eq!(r, vec![("abcxy".to_string(), 2, 2)]);
}

#[test]
fn dict_find_similar_ties_in_code_point_order() {
    let dict = build(&[("hat", 30), ("cat", 30), ("bat", 30), ("rat", 5)]);
    let r = dict.find_similar("xat", 1, 0);
    assert_eq!(
        r,
        vec![
            ("bat".to_string(), 1, 30),
            ("cat".to_string(), 1, 30),
            ("hat".to_string(), 1, 30),
            ("rat".to_string(), 1, 5),
        ]
    );
}

#[test]
fn dict_compile_always_succeeds() {
    assert!(Dict::compile_entries(&Vec::new()).is_ok());
    let owned = vec![("b".to_string(), 1u64), ("a".to_string(), 1u64), ("b".to_string(), 9u64)];
    let dict = Dict::from_bytes(Dict::compile_entries(&owned).unwrap()).unwrap();
    assert_eq!(dict.len(), 2);
    assert_eq!(dict.search("b"), Some(1));
}

#[test]
fn dict_from_entries_builds_and_loads() {
    let owned = vec![("hola".to_string(), 3u64), ("adiós".to_string(), 0u64)];
    let dict = Dict::from_entries(&owned).unwrap();
    assert_eq!(dict.len(), 2);
    assert_eq!(dict.search("hola"), Some(3));
    assert_eq!(dict.search("adiós"), Some(1));
}
