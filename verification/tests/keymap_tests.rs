use typefix::hooks::daemon::{
    correction_keystrokes, daemon_step, plan_key_event, DaemonAction, DaemonEvent, DaemonState, KeyAction,
};
use typefix::hooks::keymap::{
    is_modifier_key, mac_flags_to_modifiers, mac_keycode_to_char, mac_keycode_to_special, vk_to_special,
    x11_keycode_to_char, x11_keycode_to_special,
};
use typefix::hooks::platform::{HookEvent, KeyEvent, Modifiers, SpecialKey};
use typefix::memory::memory_stats_from_status;

fn mods(shift: bool, caps_lock: bool) -> Modifiers {
    Modifiers { shift, ctrl: false, alt: false, caps_lock }
}

#[test]
fn keymap_x11_letters_digits_and_blanks() {
    assert_eq!(x11_keycode_to_char(38, &mods(false, false)), Some('a'));
    assert_eq!(x11_keycode_to_char(38, &mods(true, false)), Some('A'));
    assert_eq!(x11_keycode_to_char(38, &mods(false, true)), Some('A'));
    assert_eq!(x11_keycode_to_char(38, &mods(true, true)), Some('a'));
    assert_eq!(x11_keycode_to_char(63, &mods(false, false)), Some('z'));
    assert_eq!(x11_keycode_to_char(10, &mods(false, false)), Some('1'));
    assert_eq!(x11_keycode_to_char(10, &mods(true, false)), Some('!'));
    assert_eq!(x11_keycode_to_char(19, &mods(true, false)), Some(')'));
    assert_eq!(x11_keycode_to_char(65, &mods(false, false)), Some(' '));
    assert_eq!(x11_keycode_to_char(36, &mods(false, false)), Some('\n'));
    assert_eq!(x11_keycode_to_char(23, &mods(false, false)), Some('\t'));
    assert_eq!(x11_keycode_to_char(200, &mods(false, false)), None);
}

#[test]
fn keymap_x11_special_keys() {
    assert_eq!(x11_keycode_to_special(22), Some(SpecialKey::Backspace));
    assert_eq!(x11_keycode_to_special(36), Some(SpecialKey::Enter));
    assert_eq!(x11_keycode_to_special(114), Some(SpecialKey::ArrowRight));
    assert_eq!(x11_keycode_to_special(38), None);
}

#[test]
fn keymap_mac_table_and_flags() {
    assert_eq!(mac_keycode_to_char(0x00, &mods(false, false)), Some('a'));
    assert_eq!(mac_keycode_to_char(0x00, &mods(true, false)), Some('A'));
    assert_eq!(mac_keycode_to_char(0x31, &mods(false, false)), Some(' '));
    assert_eq!(mac_keycode_to_char(0x30, &mods(false, false)), Some('\t'));
    assert_eq!(mac_keycode_to_char(0x26, &mods(true, false)), Some(')'));
    assert_eq!(mac_keycode_to_char(0x7F, &mods(false, false)), None);
    assert!(mac_keycode_to_special(0x33).is_some());

    let m = mac_flags_to_modifiers(0x45);
    assert!(m.shift && !m.ctrl && m.alt && m.caps_lock);
    let none = mac_flags_to_modifiers(0x38);
    assert!(!none.shift && !none.ctrl && !none.alt && !none.caps_lock);
}

#[test]
fn keymap_windows_virtual_keys() {
    assert_eq!(vk_to_special(0x08), Some(SpecialKey::Backspace));
    assert_eq!(vk_to_special(0x0D), Some(SpecialKey::Enter));
    assert_eq!(vk_to_special(0x41), None);
    assert!(is_modifier_key(0x10));
    assert!(is_modifier_key(0xA5));
    assert!(!is_modifier_key(0xA6));
    assert!(!is_modifier_key(0x41));
}

fn event(ev: KeyEvent, window_id: isize) -> HookEvent {
    HookEvent { event: ev, timestamp: 0, modifiers: Modifiers::default(), window_id }
}

#[test]
fn daemon_plans_key_events() {
    let p = plan_key_event(0, &event(KeyEvent::Char('a'), 5));
    assert!(!p.clear_first);
    assert_eq!(p.window_id, 5);
    assert_eq!(p.action, KeyAction::PushChar('a'));

    let p = plan_key_event(5, &event(KeyEvent::Special(SpecialKey::Backspace), 7));
    assert!(p.clear_first);
    assert_eq!(p.window_id, 7);
    assert_eq!(p.action, KeyAction::Clear);

    let p = plan_key_event(7, &event(KeyEvent::Special(SpecialKey::Enter), 7));
    assert!(!p.clear_first);
    assert_eq!(p.action, KeyAction::PushSpace);

    let p = plan_key_event(7, &event(KeyEvent::Special(SpecialKey::ArrowUp), 7));
    assert_eq!(p.action, KeyAction::Ignore);
}

#[test]
fn daemon_correction_keystrokes() {
    assert_eq!(correction_keystrokes("teh", "the", ' '), (4, "the ".to_string()));
    assert_eq!(correction_keystrokes("canción", "cancion", '.'), (8, "cancion.".to_string()));
}

#[test]
fn memory_status_parsing() {
    let status = "Name:\ttypefix\nVmSize:\t  2048 kB\nVmRSS:\t   1024 kB\nThreads:\t1\n";
    let s = memory_stats_from_status(status);
    assert_eq!(s.rss, 1024 * 1024);
    assert_eq!(s.virtual_size, 2048 * 1024);
    assert_eq!(s.heap_used, 0);

    let bad = memory_stats_from_status("VmRSS:\tlots kB\n");
    assert_eq!(bad.rss, 0);
    assert_eq!(memory_stats_from_status("").rss, 0);
}

fn key_event(event: KeyEvent, window_id: isize) -> HookEvent {
    HookEvent { event, timestamp: 0, modifiers: Modifiers::default(), window_id }
}

#[test]
fn daemon_step_feeds_keys_and_tracks_the_window() {
    let state = DaemonState { window_id: 0, pending: None };
    let (state, action) = daemon_step(state, DaemonEvent::Key(key_event(KeyEvent::Char('a'), 5)));
    assert_eq!(state.window_id, 5);
    assert!(matches!(action, DaemonAction::Feed { clear_first: false, key: KeyAction::PushChar('a') }));
    let (state, action) = daemon_step(state, DaemonEvent::Key(key_event(KeyEvent::Special(SpecialKey::Backspace), 6)));
    assert_eq!(state.window_id, 6);
    assert!(matches!(action, DaemonAction::Feed { clear_first: true, key: KeyAction::Clear }));
}

#[test]
fn daemon_step_injects_a_confirmed_correction() {
    let state = DaemonState { window_id: 9, pending: None };
    let (state, action) = daemon_step(
        state,
        DaemonEvent::WordDone {
            original: "qeu".to_string(),
            corrected: Some("que".to_string()),
            detected_language: Some("es".to_string()),
            delimiter: ' ',
        },
    );
    match action {
        DaemonAction::Settle { switch_to, check_window } => {
            assert_eq!(switch_to, Some("es".to_string()));
            assert!(check_window);
        }
        other => panic!("unexpected {:?}", other),
    }
    assert_eq!(state.pending, Some((4, "que ".to_string())));
    let (state, action) = daemon_step(state, DaemonEvent::WindowActive(true));
    match action {
        DaemonAction::Inject { backspaces, text, window_id } => {
            assert_eq!(backspaces, 4);
            assert_eq!(text, "que ");
            assert_eq!(window_id, 9);
        }
        other => panic!("unexpected {:?}", other),
    }
    assert_eq!(state.pending, None);
    let (_, action) = daemon_step(state, DaemonEvent::WindowActive(true));
    assert!(matches!(action, DaemonAction::Idle));
}

#[test]
fn daemon_step_aborts_when_the_window_changed() {
    let state = DaemonState { window_id: 3, pending: None };
    let (state, action) = daemon_step(
        state,
        DaemonEvent::WordDone { original: "teh".to_string(), corrected: Some("the".to_string()), detected_language: None, delimiter: '.' },
    );
    assert!(matches!(action, DaemonAction::Settle { switch_to: None, check_window: true }));
    let (state, action) = daemon_step(state, DaemonEvent::WindowActive(false));
    assert!(matches!(action, DaemonAction::Abort));
    assert_eq!(state.pending, None);
    let (state, action) = daemon_step(
        state,
        DaemonEvent::WordDone { original: "fine".to_string(), corrected: None, detected_language: None, delimiter: ' ' },
    );
    assert!(matches!(action, DaemonAction::Settle { switch_to: None, check_window: false }));
    assert_eq!(state.pending, None);
}
