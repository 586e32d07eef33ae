use std::sync::Arc;
use std::time::{Duration, Instant};

use typefix::base::buffer::{CharBuffer, MAX_BUFFER_SIZE};
use typefix::base::trie::Trie;
use typefix::correction::engine::{CorrectionEngine, EngineConfig};
use typefix::correction::static_map::StaticErrorMap;
use typefix::hooks::platform::{
    ControlKey, HookConfig, HookMode, KeyEvent, KeyboardHook, MockHook, SpecialKey,
};

#[test]
fn test_boundary_buffer_max_65_chars() {
    let mut buffer = CharBuffer::new();
    let input: String = "a".repeat(80);
    for ch in input.chars() {
        let _ = buffer.push(ch);
    }
    assert!(buffer.len() <= MAX_BUFFER_SIZE);
    let contents = buffer.contents();
    assert!(contents.len() <= MAX_BUFFER_SIZE);
    assert!(contents.chars().all(|c| c == 'a'));
}

#[test]
fn test_boundary_buffer_zero_chars() {
    let mut buffer = CharBuffer::new();
    assert!(buffer.is_empty());
    assert_eq!(buffer.len(), 0);
    assert_eq!(buffer.contents(), "");
    let result = buffer.push(' ');
    assert!(result.is_none() || result == Some(String::new()));
    assert!(buffer.is_empty());
}

#[test]
fn test_boundary_unicode_10k_chars() {
    let mut buffer = CharBuffer::new();
    let mut long_input = String::new();
    let pattern = "japanese-cyrillic-arabic-emoji";
    while long_input.chars().count() < 10_500 {
        long_input.push_str(pattern);
    }
    let expected_char_count = long_input.chars().count();
    let mut last_token: Option<String> = None;
    for (i, ch) in long_input.chars().enumerate() {
        let result = buffer.push(ch);
        if result.is_some() {
            last_token = result;
        }
        if i > 0 && i % 100 == 0 {
            let _ = buffer.push(' ');
        }
    }
    assert!(buffer.len() <= MAX_BUFFER_SIZE);
    assert!(last_token.is_some() || buffer.contents().chars().count() > 0);
    assert!(expected_char_count >= 10_000);
}

#[test]
fn test_boundary_buffer_max_unicode_no_delimiter() {
    let mut buffer = CharBuffer::new();
    for _ in 0..10_000 {
        let _ = buffer.push('\u{1F600}');
    }
    assert!(buffer.len() <= MAX_BUFFER_SIZE);
    assert!(buffer.contents().chars().all(|c| c == '\u{1F600}'));
}

#[test]
fn test_boundary_long_session_no_memory_leak() {
    let mut buffer = CharBuffer::new();
    let start = Instant::now();
    for cycle in 0..100 {
        for i in 0..MAX_BUFFER_SIZE {
            let ch = (b'a' + (i % 26) as u8) as char;
            let _ = buffer.push(ch);
        }
        let _ = buffer.push(' ');
        assert!(buffer.is_empty(), "buffer should be empty after delimiter (cycle {})", cycle);
    }
    assert!(start.elapsed().as_secs() < 5);
}

#[test]
fn test_boundary_emoji_hola_mundo() {
    let mut buffer = CharBuffer::new();
    let _ = buffer.push('h');
    let _ = buffer.push('o');
    let _ = buffer.push('l');
    let _ = buffer.push('a');
    let token1 = buffer.push(' ');
    assert_eq!(token1, Some("hola".to_string()));

    let _ = buffer.push('\u{1F600}');
    let token2 = buffer.push(' ');
    assert_eq!(token2, Some("\u{1F600}".to_string()));

    let _ = buffer.push('m');
    let _ = buffer.push('u');
    let _ = buffer.push('n');
    let _ = buffer.push('d');
    let _ = buffer.push('o');
    let token3 = buffer.push(' ');
    assert_eq!(token3, Some("mundo".to_string()));

    let _ = buffer.push('\u{1F30D}');
    assert_eq!(buffer.contents(), "\u{1F30D}");
    let token4 = buffer.push(' ');
    assert_eq!(token4, Some("\u{1F30D}".to_string()));
    assert!(buffer.is_empty());
}

#[test]
fn test_boundary_arabic_multibyte() {
    let mut buffer = CharBuffer::new();
    let text = "\u{0645}\u{0631}\u{062D}\u{0628}\u{0627}";
    for ch in text.chars() {
        let _ = buffer.push(ch);
    }
    assert_eq!(buffer.contents(), text);
    let token = buffer.push(' ');
    assert_eq!(token, Some(text.to_string()));
}

#[test]
fn test_boundary_chinese_cjk() {
    let mut buffer = CharBuffer::new();
    let text = "\u{4F60}\u{597D}\u{4E16}\u{754C}";
    for ch in text.chars() {
        let _ = buffer.push(ch);
    }
    assert_eq!(buffer.contents(), text);
    let token = buffer.push(' ');
    assert_eq!(token, Some(text.to_string()));
}

#[test]
fn test_boundary_japanese_mixed_scripts() {
    let mut buffer = CharBuffer::new();
    let text = "\u{3053}\u{3093}\u{306B}\u{3061}\u{306F}\u{30AB}\u{30BF}\u{30AB}\u{30CA}";
    for ch in text.chars() {
        let _ = buffer.push(ch);
    }
    assert_eq!(buffer.contents(), text);
    let token = buffer.push(' ');
    assert_eq!(token, Some(text.to_string()));
}

#[test]
fn test_boundary_cyrillic_russian() {
    let mut buffer = CharBuffer::new();
    let text = "\u{041F}\u{0440}\u{0438}\u{0432}\u{0435}\u{0442}";
    for ch in text.chars() {
        let _ = buffer.push(ch);
    }
    assert_eq!(buffer.contents(), text);
    let token = buffer.push(' ');
    assert_eq!(token, Some(text.to_string()));
}

#[test]
fn test_boundary_combining_characters_nfd() {
    let mut buffer = CharBuffer::new();
    let nfd_e_acute: &str = "e\u{0301}";
    assert_eq!(nfd_e_acute.chars().count(), 2);
    assert_ne!(nfd_e_acute.as_bytes(), "\u{00E9}".as_bytes());
    for ch in nfd_e_acute.chars() {
        let _ = buffer.push(ch);
    }
    let contents = buffer.contents();
    assert_eq!(contents.chars().count(), 2);
    assert_eq!(contents.as_bytes(), nfd_e_acute.as_bytes());

    let mut buffer2 = CharBuffer::new();
    let nfc: &str = "\u{00E9}";
    for ch in nfc.chars() {
        let _ = buffer2.push(ch);
    }
    assert_eq!(buffer2.contents().chars().count(), 1);
}

#[test]
fn test_boundary_zero_width_characters() {
    let mut buffer = CharBuffer::new();
    let zwc_chars = ['\u{200B}', '\u{200C}', '\u{200D}', '\u{2060}', '\u{200E}'];
    for &ch in &zwc_chars {
        let _ = buffer.push(ch);
    }
    let contents = buffer.contents();
    assert_eq!(contents.chars().count(), 5);
    for (i, &expected) in zwc_chars.iter().enumerate() {
        assert_eq!(contents.chars().nth(i), Some(expected));
    }
}

#[test]
fn test_boundary_bom_marker() {
    let mut buffer = CharBuffer::new();
    let bom = '\u{FEFF}';
    let _ = buffer.push(bom);
    let _ = buffer.push('h');
    let _ = buffer.push('i');
    let contents = buffer.contents();
    assert!(contents.starts_with(bom));
    assert!(contents.ends_with('i'));
    let token = buffer.push(' ');
    let extracted = token.expect("expected a token from delimiter");
    assert!(extracted.starts_with(bom));
    assert!(extracted.ends_with('i'));
}

#[test]
fn test_boundary_bom_prefixed_text() {
    let mut buffer = CharBuffer::new();
    let mut text = String::new();
    text.push('\u{FEFF}');
    text.push_str("helloworld");
    for ch in text.chars() {
        let _ = buffer.push(ch);
    }
    let token = buffer.push('.');
    let extracted = token.expect("expected token");
    assert!(extracted.starts_with('\u{FEFF}'));
    assert!(extracted.ends_with("helloworld"));
}

#[test]
fn test_boundary_mixed_multibyte_word() {
    let mut buffer = CharBuffer::new();
    let text = "hello\u{65E5}\u{672C}\u{8A9E}\u{1F389}\u{0645}\u{0631}\u{062D}\u{0628}\u{0627}";
    for ch in text.chars() {
        let _ = buffer.push(ch);
    }
    assert_eq!(buffer.contents(), text);
    let token = buffer.push(' ');
    assert_eq!(token, Some(text.to_string()));
}

#[test]
fn test_boundary_keyboard_rollover_10_keys() {
    let mut buffer = CharBuffer::new();
    let rollover: Vec<char> = vec!['h', 'e', 'l', 'l', 'o', 'w', 'o', 'r', 'l', 'd', '1', '2'];
    for &ch in &rollover {
        let _ = buffer.push(ch);
    }
    assert!(buffer.contents().len() <= MAX_BUFFER_SIZE);
    let token = buffer.push(' ');
    let extracted = token.expect("expected token");
    assert_eq!(extracted, "helloworld12");
}

#[test]
fn test_boundary_keyboard_rollover_hook_15_keys() {
    let mut hook = MockHook::new(HookConfig {
        enabled: true,
        mode: HookMode::System,
    });
    hook.start().expect("hook should start");
    for ch in "abcdefghijklmno".chars() {
        hook.simulate(KeyEvent::Char(ch));
    }
    let mut received = 0;
    while hook.receiver().recv_timeout(Duration::from_millis(50)).is_ok() {
        received += 1;
    }
    assert_eq!(received, 15, "expected 15 hook events, got {}", received);
    hook.stop().expect("hook should stop");
}

#[test]
fn test_boundary_burst_100_chars_per_sec_stable() {
    let mut buffer = CharBuffer::new();
    let total_chars = 500;
    let start = Instant::now();
    let chars: Vec<char> = "hola mundo como estas ".chars().collect();
    for i in 0..total_chars {
        let ch = chars[i % chars.len()];
        let _ = buffer.push(ch);
    }
    let total_elapsed = start.elapsed();
    let actual_rate = total_chars as f64 / total_elapsed.as_secs_f64().max(1e-9);
    assert!(actual_rate > 50.0, "burst rate too low: {:.0} chars/sec", actual_rate);
    assert!(buffer.len() <= MAX_BUFFER_SIZE);
}

#[test]
fn test_boundary_paste_10kb() {
    let mut buffer = CharBuffer::new();
    let long_text: String = "The quick brown fox jumps over the lazy dog. ".repeat(230);
    let char_count = long_text.chars().count();
    assert!(char_count >= 10_000);
    let start = Instant::now();
    let tokens = buffer.push_string(&long_text);
    let elapsed = start.elapsed();
    assert!(!tokens.is_empty(), "paste should produce tokens");
    for token in &tokens {
        assert!(token.chars().count() <= MAX_BUFFER_SIZE);
    }
    assert!(elapsed.as_secs() < 5);
}

#[test]
fn test_boundary_ime_composition_incomplete() {
    let mut buffer = CharBuffer::new();
    let _ = buffer.push('n');
    let _ = buffer.push('i');
    let _ = buffer.push('h');
    let _ = buffer.push('a');
    let _ = buffer.push('o');
    assert_eq!(buffer.contents(), "nihao");
    buffer.clear();
    assert!(buffer.is_empty());
    let _ = buffer.push('n');
    let _ = buffer.push('i');
    buffer.clear();
    let _ = buffer.push('\u{4F60}');
    let _ = buffer.push('\u{597D}');
    assert_eq!(buffer.contents(), "\u{4F60}\u{597D}");
}

#[test]
fn test_boundary_rapid_typing_hook_no_event_loss() {
    let mut hook = MockHook::new(HookConfig {
        enabled: true,
        mode: HookMode::System,
    });
    hook.start().expect("hook should start");
    let total = 50;
    for i in 0..total {
        let ch = (b'a' + (i % 26) as u8) as char;
        hook.simulate(KeyEvent::Char(ch));
    }
    let mut count = 0;
    while hook.receiver().recv_timeout(Duration::from_millis(50)).is_ok() {
        count += 1;
    }
    assert_eq!(count, total);
    hook.stop().expect("hook should stop");
}

#[test]
fn test_boundary_hook_multiple_key_types() {
    let mut hook = MockHook::new(HookConfig::default());
    hook.start().expect("hook should start");
    let events = vec![
        KeyEvent::Control(ControlKey::Shift),
        KeyEvent::Control(ControlKey::Ctrl),
        KeyEvent::Control(ControlKey::Alt),
        KeyEvent::Char('h'),
        KeyEvent::Char('i'),
        KeyEvent::Special(SpecialKey::Enter),
        KeyEvent::Special(SpecialKey::Tab),
        KeyEvent::Char('!'),
        KeyEvent::Control(ControlKey::CapsLock),
        KeyEvent::Special(SpecialKey::Escape),
    ];
    for ev in &events {
        hook.simulate(ev.clone());
    }
    let mut count = 0;
    while hook.receiver().recv_timeout(Duration::from_millis(50)).is_ok() {
        count += 1;
    }
    assert_eq!(count, 10, "expected 10 events, got {}", count);
    hook.stop().expect("hook should stop");
}

#[test]
fn test_boundary_correction_very_long_word() {
    let mut engine = CorrectionEngine::new(EngineConfig::default());
    let long_word: String = "a".repeat(1000);
    let result = engine.correct(&long_word);
    assert_eq!(result.original.len(), 1000);
    assert!(result.corrected.is_none());
}

#[test]
fn test_boundary_correction_10k_unicode() {
    let mut engine = CorrectionEngine::new(EngineConfig::default());
    let long_word: String = "\u{1F600}".repeat(10_000);
    let result = engine.correct(&long_word);
    assert_eq!(result.original.chars().count(), 10_000);
    assert!(result.corrected.is_none());
}

#[test]
fn test_boundary_paste_empty_and_whitespace() {
    let mut buffer = CharBuffer::new();
    let tokens = buffer.push_string("");
    assert!(tokens.is_empty());
    let tokens = buffer.push_string("   \t\n  ");
    assert!(tokens.is_empty());
    let tokens = buffer.push_string(" hello  world \t");
    assert!(tokens.len() >= 2);
}

#[test]
fn test_boundary_smoke_compiles() {
    assert_eq!(2 + 2, 4);
    assert!(MAX_BUFFER_SIZE >= 64, "MAX_BUFFER_SIZE must be at least 64");
}

fn build_test_engine_with_dict() -> CorrectionEngine {
    let mut engine = CorrectionEngine::new(EngineConfig {
        max_edit_distance: 1,
        max_candidates: 3,
        min_word_length: 2,
        case_sensitive: false,
    });
    let mut trie = Trie::new();
    for (word, freq) in [
        ("cafe", 500u64),
        ("hello", 1000),
        ("hola", 900),
        ("naive", 400),
        ("the", 10000),
        ("world", 800),
    ] {
        trie.insert(word, freq);
    }
    engine.add_dictionary("en", Arc::new(trie));
    let mut error_map = StaticErrorMap::new("en");
    error_map.insert_static("teh", "the");
    error_map.insert_static("qeu", "que");
    engine.add_error_map(error_map, "en");
    engine
}

#[test]
fn test_boundary_helper_engine_works() {
    let mut engine = build_test_engine_with_dict();
    engine.set_language("en");
    let result = engine.correct("teh");
    assert_eq!(result.corrected, Some("the".to_string()));
}

#[test]
fn test_cli_correct_basic() {
    let mut engine = CorrectionEngine::new(EngineConfig::default());
    let mut trie = Trie::new();
    trie.insert("hello", 1000);
    trie.insert("world", 900);
    engine.add_dictionary("en", Arc::new(trie));
    let result = engine.correct("hellp");
    assert_eq!(result.original, "hellp");
}

#[test]
fn test_cli_correct_valid_word() {
    let mut engine = CorrectionEngine::new(EngineConfig::default());
    let mut trie = Trie::new();
    trie.insert("hello", 1000);
    engine.add_dictionary("en", Arc::new(trie));
    let result = engine.correct("hello");
    assert_eq!(result.original, "hello");
    assert_eq!(result.corrected, None);
}

#[test]
fn test_cli_correct_transposition() {
    let mut engine = CorrectionEngine::new(EngineConfig::default());
    let mut trie = Trie::new();
    trie.insert("the", 1000);
    engine.add_dictionary("en", Arc::new(trie));
    let result = engine.correct("teh");
    assert_eq!(result.original, "teh");
}

#[test]
fn test_cli_correct_empty() {
    let mut engine = CorrectionEngine::new(EngineConfig::default());
    let result = engine.correct("");
    assert_eq!(result.original, "");
    assert_eq!(result.corrected, None);
}
