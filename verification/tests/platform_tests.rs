use std::sync::mpsc::RecvTimeoutError;
use std::time::Duration;
use typefix::hooks::platform::{
    injection_request, injection_step, simulated_event, ControlKey, HookConfig, HookError, HookMode,
    InjectPhase, InjectReply, InjectRequest, InjectStep, KeyEvent, KeyboardHook, MockHook, Modifiers,
    SpecialKey,
};

#[test]
fn test_mock_hook_start_stop() {
    let mut hook = MockHook::new(HookConfig::default());
    assert!(!hook.is_running());

    hook.start().unwrap();
    assert!(hook.is_running());

    hook.stop().unwrap();
    assert!(!hook.is_running());
}

#[test]
fn test_mock_hook_already_running() {
    let mut hook = MockHook::new(HookConfig::default());
    hook.start().unwrap();

    let result = hook.start();
    assert!(result.is_err());
    assert!(matches!(result.unwrap_err(), HookError::AlreadyRunning));
}

#[test]
fn test_mock_hook_not_running() {
    let mut hook = MockHook::new(HookConfig::default());

    let result = hook.stop();
    assert!(result.is_err());
    assert!(matches!(result.unwrap_err(), HookError::NotRunning));
}

#[test]
fn test_mock_hook_simulate_char() {
    let mut hook = MockHook::new(HookConfig::default());
    hook.start().unwrap();

    hook.simulate(KeyEvent::Char('h'));
    hook.simulate(KeyEvent::Char('e'));
    hook.simulate(KeyEvent::Char('l'));
    hook.simulate(KeyEvent::Char('l'));
    hook.simulate(KeyEvent::Char('o'));

    let rx = hook.receiver();
    let mut received = Vec::new();

    // Receive all events with timeout
    loop {
        match rx.recv_timeout(Duration::from_millis(100)) {
            Ok(event) => received.push(event),
            Err(RecvTimeoutError::Timeout) => break,
            Err(RecvTimeoutError::Disconnected) => break,
        }
    }

    assert_eq!(received.len(), 5);
    assert!(received
        .iter()
        .all(|e| matches!(e.event, KeyEvent::Char(_))));
}

#[test]
fn test_mock_hook_simulate_special_key() {
    let mut hook = MockHook::new(HookConfig::default());
    hook.start().unwrap();

    hook.simulate(KeyEvent::Special(SpecialKey::Enter));

    let rx = hook.receiver();
    let event = rx.recv_timeout(Duration::from_millis(100)).unwrap();

    assert!(matches!(event.event, KeyEvent::Special(SpecialKey::Enter)));
}

#[test]
fn test_mock_hook_simulate_control_key() {
    let mut hook = MockHook::new(HookConfig::default());
    hook.start().unwrap();

    hook.simulate(KeyEvent::Control(ControlKey::Shift));

    let rx = hook.receiver();
    let event = rx.recv_timeout(Duration::from_millis(100)).unwrap();

    assert!(matches!(event.event, KeyEvent::Control(ControlKey::Shift)));
}

#[test]
fn test_mock_hook_modifiers() {
    let mut hook = MockHook::new(HookConfig::default());
    hook.start().unwrap();

    let _modifiers = Modifiers {
        shift: true,
        ctrl: false,
        alt: false,
        caps_lock: true,
    };

    hook.simulate(KeyEvent::Char('A'));
    // In real implementation, modifiers would be set on the event

    let rx = hook.receiver();
    let event = rx.recv_timeout(Duration::from_millis(100)).unwrap();

    assert_eq!(event.modifiers.shift, false); // Default
    assert_eq!(event.modifiers.ctrl, false);
}

#[test]
fn test_hook_event_timestamp() {
    let mut hook = MockHook::new(HookConfig::default());
    hook.start().unwrap();

    let before = std::time::SystemTime::now()
        .duration_since(std::time::UNIX_EPOCH)
        .unwrap()
        .as_millis() as u64;

    hook.simulate(KeyEvent::Char('a'));

    let after = std::time::SystemTime::now()
        .duration_since(std::time::UNIX_EPOCH)
        .unwrap()
        .as_millis() as u64;

    let rx = hook.receiver();
    let event = rx.recv_timeout(Duration::from_millis(100)).unwrap();

    assert!(event.timestamp >= before);
    assert!(event.timestamp <= after);
}

#[test]
fn test_hook_config_default() {
    let config = HookConfig::default();
    assert!(config.enabled);
    assert!(matches!(config.mode, HookMode::System));
}

#[test]
fn test_modifiers_default() {
    let mods = Modifiers::default();
    assert!(!mods.shift);
    assert!(!mods.ctrl);
    assert!(!mods.alt);
    assert!(!mods.caps_lock);
}

#[test]
fn test_hook_error_messages() {
    let err = HookError::InitFailed("test".to_string());
    assert!(err.message().contains("test"));

    let err = HookError::PermissionDenied("access".to_string());
    assert!(err.message().contains("access"));

    let err = HookError::PlatformError("x11".to_string());
    assert!(err.message().contains("x11"));
}

#[test]
fn test_mock_hook_disconnect() {
    let mut hook = MockHook::new(HookConfig::default());
    hook.start().unwrap();
    hook.stop().unwrap();

    // Receiver should be disconnected after stop
    let rx = hook.receiver();
    let result = rx.recv_timeout(Duration::from_millis(10));
    assert!(matches!(result, Err(RecvTimeoutError::Disconnected)));
}

// Own tests

#[test]
fn error_messages_are_exact() {
    assert_eq!(HookError::InitFailed("x".to_string()).message(), "Hook initialization failed: x");
    assert_eq!(HookError::AlreadyRunning.message(), "Hook already running");
    assert_eq!(HookError::NotRunning.message(), "Hook not running");
    assert_eq!(HookError::PermissionDenied("p".to_string()).message(), "Permission denied: p");
    assert_eq!(HookError::PlatformError("q".to_string()).message(), "Platform error: q");
    assert_eq!(HookError::InjectionFailed("r".to_string()).message(), "Keystroke injection failed: r");
}

#[test]
fn correction_is_sent_to_active_window() {
    let mut hook = MockHook::new(HookConfig { enabled: true, mode: HookMode::Application });
    hook.start().unwrap();
    assert!(hook.send_correction_atomic(3, "hola", 7).is_ok());
    assert!(hook.send_text("x").is_ok());
}

#[test]
fn simulated_event_has_no_modifiers_and_window_zero() {
    let e = simulated_event(KeyEvent::Char('q'), 1234);
    assert!(matches!(e.event, KeyEvent::Char('q')));
    assert_eq!(e.timestamp, 1234);
    assert!(!e.modifiers.shift && !e.modifiers.ctrl && !e.modifiers.alt && !e.modifiers.caps_lock);
    assert_eq!(e.window_id, 0);
}

#[test]
fn injection_requests_fix_the_keys() {
    assert!(matches!(injection_request(InjectPhase::Start, "que "), InjectRequest::CheckWindow));
    assert!(matches!(injection_request(InjectPhase::Rechecking, "que "), InjectRequest::CheckWindow));
    match injection_request(InjectPhase::Erasing(0), "que ") {
        InjectRequest::Send(keys) => assert_eq!(keys, "\x08"),
        other => panic!("unexpected {:?}", other),
    }
    match injection_request(InjectPhase::Typing, "que ") {
        InjectRequest::Send(keys) => assert_eq!(keys, "que "),
        other => panic!("unexpected {:?}", other),
    }
}

#[test]
fn injection_steps_follow_the_replies() {
    assert!(matches!(
        injection_step(InjectPhase::Start, 2, InjectReply::Window(true)),
        InjectStep::Next(InjectPhase::Erasing(0))
    ));
    assert!(matches!(
        injection_step(InjectPhase::Start, 0, InjectReply::Window(true)),
        InjectStep::Next(InjectPhase::Rechecking)
    ));
    assert!(matches!(injection_step(InjectPhase::Start, 2, InjectReply::Window(false)), InjectStep::WindowChanged));
    assert!(matches!(
        injection_step(InjectPhase::Erasing(0), 2, InjectReply::Sent(Ok(()))),
        InjectStep::Next(InjectPhase::Erasing(1))
    ));
    assert!(matches!(
        injection_step(InjectPhase::Erasing(1), 2, InjectReply::Sent(Ok(()))),
        InjectStep::Next(InjectPhase::Rechecking)
    ));
    assert!(matches!(
        injection_step(InjectPhase::Erasing(1), 2, InjectReply::Sent(Err(HookError::NotRunning))),
        InjectStep::Finished(Err(HookError::NotRunning))
    ));
    assert!(matches!(
        injection_step(InjectPhase::Rechecking, 2, InjectReply::Window(false)),
        InjectStep::WindowChangedMidway
    ));
    assert!(matches!(
        injection_step(InjectPhase::Rechecking, 2, InjectReply::Window(true)),
        InjectStep::Next(InjectPhase::Typing)
    ));
    assert!(matches!(injection_step(InjectPhase::Typing, 2, InjectReply::Sent(Ok(()))), InjectStep::Finished(Ok(()))));
    // a reply of the wrong kind leaves the phase as it is
    assert!(matches!(
        injection_step(InjectPhase::Typing, 2, InjectReply::Window(true)),
        InjectStep::Next(InjectPhase::Typing)
    ));
}

struct RecordingHook {
    hook: MockHook,
    sent: std::cell::RefCell<Vec<String>>,
    active: std::cell::Cell<u32>,
}

impl KeyboardHook for RecordingHook {
    fn start(&mut self) -> Result<(), HookError> {
        self.hook.start()
    }
    fn stop(&mut self) -> Result<(), HookError> {
        self.hook.stop()
    }
    fn is_running(&self) -> bool {
        self.hook.is_running()
    }
    fn receiver(&self) -> &std::sync::mpsc::Receiver<typefix::hooks::platform::HookEvent> {
        self.hook.receiver()
    }
    fn send_text(&self, text: &str) -> Result<(), HookError> {
        self.sent.borrow_mut().push(text.to_string());
        Ok(())
    }
    fn is_window_active(&self, _window_id: isize) -> bool {
        let left = self.active.get();
        if left == 0 {
            return false;
        }
        self.active.set(left - 1);
        true
    }
}

#[test]
fn correction_sends_backspaces_then_text() {
    let hook = RecordingHook {
        hook: MockHook::new(HookConfig::default()),
        sent: std::cell::RefCell::new(Vec::new()),
        active: std::cell::Cell::new(2),
    };
    assert!(hook.send_correction_atomic(3, "que ", 7).is_ok());
    assert_eq!(*hook.sent.borrow(), vec!["\x08", "\x08", "\x08", "que "]);
}

#[test]
fn correction_stops_when_the_window_changes() {
    let hook = RecordingHook {
        hook: MockHook::new(HookConfig::default()),
        sent: std::cell::RefCell::new(Vec::new()),
        active: std::cell::Cell::new(0),
    };
    match hook.send_correction_atomic(2, "x", 1) {
        Err(e) => assert_eq!(e.message(), "Keystroke injection failed: Window changed"),
        Ok(()) => panic!("expected an error"),
    }
    assert!(hook.sent.borrow().is_empty());
    let hook = RecordingHook {
        hook: MockHook::new(HookConfig::default()),
        sent: std::cell::RefCell::new(Vec::new()),
        active: std::cell::Cell::new(1),
    };
    match hook.send_correction_atomic(2, "x", 1) {
        Err(e) => assert_eq!(e.message(), "Keystroke injection failed: Window changed during backspace"),
        Ok(()) => panic!("expected an error"),
    }
    assert_eq!(*hook.sent.borrow(), vec!["\x08", "\x08"]);
}
