use typefix::base::buffer::{
    BufferEvent, CharBuffer, CharBufferBuilder, Delimiter, MAX_BUFFER_SIZE,
};

#[test]
fn test_basic_push_and_extract() {
    let mut buffer = CharBuffer::new();

    buffer.push('h');
    buffer.push('o');
    buffer.push('l');
    buffer.push('a');

    assert_eq!(buffer.contents(), "hola");
    assert_eq!(buffer.len(), 4);
    assert!(!buffer.is_empty());
}

#[test]
fn test_delimiter_extraction() {
    let mut buffer = CharBuffer::new();

    buffer.push('h');
    buffer.push('o');
    buffer.push('l');
    buffer.push('a');
    let token = buffer.push(' '); // delimiter

    assert_eq!(token, Some("hola".to_string()));
    assert!(buffer.is_empty());
}

#[test]
fn test_multiple_delimiters() {
    let mut buffer = CharBuffer::new();

    let t1 = buffer.push('h');
    buffer.push('o');
    let t2 = buffer.push(' ');

    assert_eq!(t1, None);
    assert_eq!(t2, Some("ho".to_string()));
}

#[test]
fn test_punctuation_delimiter() {
    let mut buffer = CharBuffer::new();

    buffer.push('h');
    buffer.push('o');
    let token = buffer.push('.');

    assert_eq!(token, Some("ho".to_string()));
}

#[test]
fn test_clear() {
    let mut buffer = CharBuffer::new();

    buffer.push('t');
    buffer.push('e');
    buffer.push('s');
    buffer.push('t');

    buffer.clear();
    assert!(buffer.is_empty());
}

#[test]
fn test_max_size_truncation() {
    // Use default buffer (MAX_BUFFER_SIZE = 64)
    let mut buffer = CharBuffer::new();

    // Push exactly 10 characters
    for i in 0..10 {
        buffer.push(std::char::from_u32('a' as u32 + i as u32).unwrap());
    }

    // Buffer should have all 10 characters (under MAX_BUFFER_SIZE)
    assert_eq!(buffer.len(), 10);
    assert_eq!(buffer.contents(), "abcdefghij");
}

#[test]
fn buffer_test_unicode() {
    let mut buffer = CharBuffer::new();

    buffer.push('c');
    buffer.push('a');
    buffer.push('f');
    buffer.push('é');
    // 'é' is not a delimiter, so buffer accumulates
    let token = buffer.push('.'); // '.' triggers extraction

    assert_eq!(token, Some("café".to_string()));
}

#[test]
fn buffer_test_emoji() {
    let mut buffer = CharBuffer::new();

    buffer.push('h');
    buffer.push('i');
    buffer.push('😀');
    // No delimiters, just accumulation
    assert_eq!(buffer.contents(), "hi😀");
}

#[test]
fn test_push_string() {
    let mut buffer = CharBuffer::new();

    let tokens = buffer.push_string("hola mundo cruel");

    assert_eq!(tokens.len(), 3);
    assert_eq!(tokens[0], "hola");
    assert_eq!(tokens[1], "mundo");
    assert_eq!(tokens[2], "cruel");
}

#[test]
fn test_last_chars() {
    let mut buffer = CharBuffer::new();

    buffer.push('o');
    buffer.push('l');
    buffer.push('d');

    assert_eq!(buffer.last_chars(2), "ld");
    assert_eq!(buffer.last_chars(10), "old");
}

#[test]
fn test_extract() {
    let mut buffer = CharBuffer::new();

    buffer.push('t');
    buffer.push('e');
    buffer.push('s');
    buffer.push('t');

    let token = buffer.extract();
    assert_eq!(token, Some("test".to_string()));
    assert!(buffer.is_empty());

    // Extract from empty buffer
    assert_eq!(buffer.extract(), None);
}

#[test]
fn test_enter_delimiter() {
    let mut buffer = CharBuffer::new();

    buffer.push('l');
    buffer.push('i');
    buffer.push('n');
    let token = buffer.push('\n');

    assert_eq!(token, Some("lin".to_string()));
}

#[test]
fn test_tab_delimiter() {
    let mut buffer = CharBuffer::new();

    buffer.push('d');
    buffer.push('a');
    buffer.push('t');
    let token = buffer.push('\t');

    assert_eq!(token, Some("dat".to_string()));
}

#[test]
fn test_consecutive_delimiters() {
    let mut buffer = CharBuffer::new();

    buffer.push('a');
    let t1 = buffer.push(' ');
    buffer.push('b');
    let t2 = buffer.push(' ');

    assert_eq!(t1, Some("a".to_string()));
    assert_eq!(t2, Some("b".to_string()));
    assert!(buffer.is_empty());
}

// Own tests

#[test]
fn classify_matches_is_delimiter() {
    for ch in [' ', '\n', '\r', '\t', '.', ',', '!', '?', '-', '_', '`', '~', 'a', 'Z', '0', 'é', '😀'] {
        assert_eq!(Delimiter::classify(ch).is_some(), Delimiter::is_delimiter(ch));
    }
    assert_eq!(Delimiter::classify(' '), Some(Delimiter::Space));
    assert_eq!(Delimiter::classify('\r'), Some(Delimiter::Enter));
    assert_eq!(Delimiter::classify('\t'), Some(Delimiter::Tab));
    assert_eq!(Delimiter::classify('#'), Some(Delimiter::Punctuation));
    assert_eq!(Delimiter::classify('x'), None);
    assert!(Delimiter::is_punctuation('\\'));
    assert!(!Delimiter::is_punctuation(' '));
}

#[test]
fn full_buffer_keeps_the_newest_chars() {
    let mut buffer = CharBuffer::new();
    for _ in 0..MAX_BUFFER_SIZE {
        buffer.push('a');
    }
    assert_eq!(buffer.len(), MAX_BUFFER_SIZE);
    let (token, event) = buffer.push_with_event('b');
    assert_eq!(token, None);
    assert_eq!(buffer.len(), MAX_BUFFER_SIZE);
    assert!(buffer.contents().ends_with('b'));
    assert_eq!(buffer.contents(), format!("{}b", "a".repeat(MAX_BUFFER_SIZE - 1)));
    match event {
        BufferEvent::BufferTruncated { original, truncated } => {
            assert_eq!(original.chars().count(), MAX_BUFFER_SIZE);
            assert_eq!(truncated.chars().count(), MAX_BUFFER_SIZE);
            assert_eq!(truncated, buffer.contents());
        }
        other => panic!("unexpected event {:?}", other),
    }
}

#[test]
fn ring_buffer_holds_the_last_chars_pushed() {
    let mut buffer = CharBuffer::new();
    let text: String = (0..100).map(|i| (b'a' + (i % 26) as u8) as char).collect();
    for c in text.chars() {
        assert_eq!(buffer.push(c), None);
    }
    assert_eq!(buffer.len(), MAX_BUFFER_SIZE);
    assert_eq!(buffer.contents(), text[100 - MAX_BUFFER_SIZE..].to_string());
}

#[test]
fn events_for_each_kind_of_push() {
    let mut buffer = CharBuffer::new();
    let (t, e) = buffer.push_with_event(' ');
    assert_eq!(t, Some(String::new()));
    assert!(matches!(e, BufferEvent::BufferCleared));
    let (_, e) = buffer.push_with_event('x');
    assert!(matches!(e, BufferEvent::BufferOverflowPrevented { attempted: 'x' }));
    let (t, e) = buffer.push_with_event(';');
    assert_eq!(t, Some("x".to_string()));
    match e {
        BufferEvent::TokenExtracted { token, delimiter } => {
            assert_eq!(token, "x");
            assert_eq!(delimiter, Delimiter::Punctuation);
        }
        other => panic!("unexpected event {:?}", other),
    }
}

#[test]
fn push_string_flushes_rest_and_skips_empty_tokens() {
    let mut buffer = CharBuffer::with_capacity(500);
    let tokens = buffer.push_string("  uno,, dos");
    assert_eq!(tokens, vec!["uno".to_string(), "dos".to_string()]);
    // the rest is flushed
    assert!(buffer.is_empty());
}

#[test]
fn builder_clamps_capacity_and_builds_empty_buffer() {
    let buffer = CharBufferBuilder::new().capacity(1000).build();
    assert!(buffer.is_empty());
    let buffer = CharBufferBuilder::default().capacity(3).build();
    assert_eq!(buffer.len(), 0);
    assert_eq!(CharBuffer::default().last_chars(5), "");
}

#[test]
fn builder_capacity_is_the_limit() {
    let mut buf = CharBufferBuilder::new().capacity(8).build();
    for c in "abcdefgh".chars() {
        assert_eq!(buf.push(c), None);
    }
    assert_eq!(buf.len(), 8);
    assert_eq!(buf.push('i'), None);
    assert!(buf.len() <= 8);
    assert_eq!(buf.contents(), "bcdefghi");

    let mut none = CharBufferBuilder::new().capacity(0).build();
    assert_eq!(none.push('a'), None);
    assert!(none.is_empty());
}

#[test]
fn push_string_flushes_the_last_word() {
    let mut buf = CharBuffer::new();
    assert_eq!(
        buf.push_string("hola mundo cruel"),
        vec!["hola".to_string(), "mundo".to_string(), "cruel".to_string()]
    );
    assert!(buf.is_empty());
}

#[test]
fn extract_announces_a_cleared_buffer() {
    let mut buffer = CharBuffer::new();
    let (token, event) = buffer.extract_with_event();
    assert_eq!(token, None);
    assert!(event.is_none());
    buffer.push('o');
    buffer.push('k');
    let (token, event) = buffer.extract_with_event();
    assert_eq!(token, Some("ok".to_string()));
    assert!(matches!(event, Some(BufferEvent::BufferCleared)));
    assert!(buffer.is_empty());
}
