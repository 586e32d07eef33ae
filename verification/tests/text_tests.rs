use typefix::text::{chars_eq, str_eq};

#[test]
fn string_equality_by_characters() {
    assert!(str_eq("añil", "añil"));
    assert!(!str_eq("añil", "anil"));
    assert!(chars_eq(&vec!['a', 'b'], &vec!['a', 'b']));
    assert!(!chars_eq(&vec!['a'], &vec!['a', 'b']));
}

#[test]
fn whitespace_agrees_with_std_on_every_char() {
    for n in 0u32..=0x10FFFF {
        if let Some(c) = char::from_u32(n) {
            assert_eq!(typefix::text::is_whitespace(c), c.is_whitespace(), "code point {:#x}", n);
        }
    }
}
