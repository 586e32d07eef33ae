//! Platform abstraction for keyboard hooks
//!
//! Provides a unified interface for keyboard hooks across all platforms.

use std::sync::mpsc::{Receiver, Sender};
use vstd::prelude::*;
use crate::text::push_str;

verus! {

#[verifier::external_type_specification]
#[verifier::external_body]
#[verifier::reject_recursive_types(T)]
pub struct ExReceiver<T>(std::sync::mpsc::Receiver<T>);

#[verifier::external_type_specification]
#[verifier::external_body]
#[verifier::reject_recursive_types(T)]
pub struct ExSender<T>(std::sync::mpsc::Sender<T>);

/// Keyboard event types
#[derive(Debug, Clone)]
pub enum KeyEvent {
    /// A character was typed
    Char(char),
    /// A control key was pressed
    Control(ControlKey),
    /// A special key was pressed
    Special(SpecialKey),
}

/// Control keys
#[derive(Debug, Clone, Copy, PartialEq, Eq, Structural)]
pub enum ControlKey {
    /// Shift modifier key
    Shift,
    /// Control modifier key
    Ctrl,
    /// Alt modifier key
    Alt,
    /// Caps Lock toggle key
    CapsLock,
    /// Num Lock toggle key
    NumLock,
}

/// Special keys
#[derive(Debug, Clone, Copy, PartialEq, Eq, Structural)]
pub enum SpecialKey {
    /// Enter / Return key
    Enter,
    /// Tab key
    Tab,
    /// Backspace key
    Backspace,
    /// Delete key
    Delete,
    /// Escape key
    Escape,
    /// Home key
    Home,
    /// End key
    End,
    /// Page Up key
    PageUp,
    /// Page Down key
    PageDown,
    /// Up arrow key
    ArrowUp,
    /// Down arrow key
    ArrowDown,
    /// Left arrow key
    ArrowLeft,
    /// Right arrow key
    ArrowRight,
}

/// Hook event
#[derive(Debug, Clone)]
pub struct HookEvent {
    /// Event type
    pub event: KeyEvent,
    /// Timestamp in milliseconds
    pub timestamp: u64,
    /// Modifier state
    pub modifiers: Modifiers,
    /// Window ID where the event occurred
    pub window_id: isize,
}

/// Keyboard modifiers state
#[derive(Debug, Clone, Copy)]
pub struct Modifiers {
    /// Shift key is currently held
    pub shift: bool,
    /// Control key is currently held
    pub ctrl: bool,
    /// Alt key is currently held
    pub alt: bool,
    /// Caps Lock is currently active
    pub caps_lock: bool,
}

impl Default for Modifiers {
    fn default() -> (m: Self)
        ensures
            !m.shift && !m.ctrl && !m.alt && !m.caps_lock,
    {
        Modifiers { shift: false, ctrl: false, alt: false, caps_lock: false }
    }
}

/// Hook configuration
#[derive(Debug, Clone, Copy)]
pub struct HookConfig {
    /// Enable hook
    pub enabled: bool,
    /// Hook mode
    pub mode: HookMode,
}

/// Hook mode selecting the installation scope of the keyboard hook
#[derive(Debug, Clone, Copy, PartialEq, Eq, Structural)]
pub enum HookMode {
    /// System-wide hook (requires elevation on Windows)
    System,
    /// Application-scoped hook
    Application,
    /// Hook disabled
    Disabled,
}

impl Default for HookConfig {
    fn default() -> (c: Self)
        ensures
            c.enabled,
            c.mode == HookMode::System,
    {
        HookConfig { enabled: true, mode: HookMode::System }
    }
}

/// Hook errors
#[derive(Debug)]
pub enum HookError {
    /// Hook installation failed during startup
    InitFailed(String),
    /// Attempted to start a hook that is already running
    AlreadyRunning,
    /// Attempted to use a hook that has not been started
    NotRunning,
    /// The OS denied the privileges required to install the hook
    PermissionDenied(String),
    /// A platform-specific error occurred while running the hook
    PlatformError(String),
    /// Keystroke injection failed
    InjectionFailed(String),
}

/// The message that describes an error.
pub open spec fn error_message(e: HookError) -> Seq<char> {
    match e {
        HookError::InitFailed(s) => "Hook initialization failed: "@ + s@,
        HookError::AlreadyRunning => "Hook already running"@,
        HookError::NotRunning => "Hook not running"@,
        HookError::PermissionDenied(s) => "Permission denied: "@ + s@,
        HookError::PlatformError(s) => "Platform error: "@ + s@,
        HookError::InjectionFailed(s) => "Keystroke injection failed: "@ + s@,
    }
}

/// `prefix` followed by `detail`.
fn prefixed(prefix: &str, detail: &String) -> (r: String)
    ensures
        r@ == prefix@ + detail@,
{
    let mut s = String::from_str(prefix);
    push_str(&mut s, detail.as_str());
    s
}

impl HookError {
    /// The message that describes the error
    pub fn message(&self) -> (r: String)
        ensures
            r@ == error_message(*self),
    {
        match self {
            HookError::InitFailed(s) => prefixed("Hook initialization failed: ", s),
            HookError::AlreadyRunning => String::from_str("Hook already running"),
            HookError::NotRunning => String::from_str("Hook not running"),
            HookError::PermissionDenied(s) => prefixed("Permission denied: ", s),
            HookError::PlatformError(s) => prefixed("Platform error: ", s),
            HookError::InjectionFailed(s) => prefixed("Keystroke injection failed: ", s),
        }
    }
}

/// Keyboard hook trait
pub trait KeyboardHook {
    /// Start the hook
    fn start(&mut self) -> Result<(), HookError>;

    /// Stop the hook
    fn stop(&mut self) -> Result<(), HookError>;

    /// Check if hook is running
    fn is_running(&self) -> bool;

    /// Get event receiver
    fn receiver(&self) -> &Receiver<HookEvent>;

    /// Send text keystrokes to the system
    fn send_text(&self, text: &str) -> Result<(), HookError>;

    /// Check if window is still active; by default every window counts
    /// as active
    fn is_window_active(&self, window_id: isize) -> (r: bool)
        default_ensures
            r,
    {
        true
    }

    /// Atomically send backspaces and text, ensuring window hasn't changed.
    ///
    /// The window is checked, `backspaces` backspace characters are sent
    /// one by one, the window is checked again and `text` is sent; see
    /// `injection_request` and `injection_step` for each move.
    fn send_correction_atomic(&self, backspaces: usize, text: &str, window_id: isize) -> (r: Result<(), HookError>)
        ensures
            exists|rs: Seq<InjectReply>| #[trigger] concluded(injection_run(backspaces as nat, rs), r),
    {
        let mut phase = InjectPhase::Start;
        let ghost mut rs: Seq<InjectReply> = Seq::empty();
        loop
            invariant
                injection_run(backspaces as nat, rs) == InjectStep::Next(phase),
                phase matches InjectPhase::Erasing(n) ==> n < backspaces,
            decreases phase_measure(phase, backspaces as nat),
        {
            let reply = match injection_request(phase, text) {
                InjectRequest::CheckWindow => InjectReply::Window(self.is_window_active(window_id)),
                InjectRequest::Send(keys) => InjectReply::Sent(self.send_text(keys.as_str())),
            };
            proof {
                lemma_run_push(backspaces as nat, rs, reply);
                rs = rs.push(reply);
            }
            match injection_step(phase, backspaces, reply) {
                InjectStep::Next(next) => {
                    phase = next;
                },
                InjectStep::WindowChanged => {
                    let r = Err(HookError::InjectionFailed(String::from_str("Window changed")));
                    proof {
                        reveal_strlit("Window changed");
                        assert(concluded(injection_run(backspaces as nat, rs), r));
                    }
                    return r;
                },
                InjectStep::WindowChangedMidway => {
                    let r = Err(HookError::InjectionFailed(String::from_str("Window changed during backspace")));
                    proof {
                        reveal_strlit("Window changed during backspace");
                        assert(concluded(injection_run(backspaces as nat, rs), r));
                    }
                    return r;
                },
                InjectStep::Finished(result) => {
                    proof {
                        assert(concluded(injection_run(backspaces as nat, rs), result));
                    }
                    return result;
                },
            }
        }
    }
}

/// Where an atomic correction stands.
#[derive(Debug, Clone, Copy, PartialEq, Eq, Structural)]
pub enum InjectPhase {
    /// Nothing done yet: the window is checked first.
    Start,
    /// That many backspaces have been sent; the next one is due.
    Erasing(usize),
    /// Every backspace has been sent: the window is checked again.
    Rechecking,
    /// The replacement text is due.
    Typing,
}

/// What the hook is asked to do in a phase.
#[derive(Debug)]
pub enum InjectRequest {
    /// Tell whether the window is still active.
    CheckWindow,
    /// Send these keys.
    Send(String),
}

/// What the hook answered.
#[derive(Debug)]
pub enum InjectReply {
    /// Whether the window is still active.
    Window(bool),
    /// The result of sending keys.
    Sent(Result<(), HookError>),
}

/// Where a reply leads.
#[derive(Debug)]
pub enum InjectStep {
    /// On to this phase.
    Next(InjectPhase),
    /// The window changed before anything was sent.
    WindowChanged,
    /// The window changed while the backspaces were sent.
    WindowChangedMidway,
    /// Done, with this result of the last send.
    Finished(Result<(), HookError>),
}

/// The request of each phase: the window check at the start and again
/// after the backspaces, a backspace character while erasing, then `text`.
pub open spec fn request_keys(phase: InjectPhase, text: Seq<char>) -> Option<Seq<char>> {
    match phase {
        InjectPhase::Start => None,
        InjectPhase::Erasing(_) => Some(seq!['\x08']),
        InjectPhase::Rechecking => None,
        InjectPhase::Typing => Some(text),
    }
}

/// Where `reply` leads from `phase`, for a correction of `backspaces`
/// backspaces.  A reply of the wrong kind for the phase leaves it as it is.
pub open spec fn step_of(phase: InjectPhase, backspaces: nat, reply: InjectReply) -> InjectStep {
    match phase {
        InjectPhase::Start => match reply {
            InjectReply::Window(true) => if backspaces > 0 {
                InjectStep::Next(InjectPhase::Erasing(0))
            } else {
                InjectStep::Next(InjectPhase::Rechecking)
            },
            InjectReply::Window(false) => InjectStep::WindowChanged,
            InjectReply::Sent(_) => InjectStep::Next(phase),
        },
        InjectPhase::Erasing(n) => match reply {
            InjectReply::Sent(Ok(())) => if n + 1 < backspaces {
                InjectStep::Next(InjectPhase::Erasing((n + 1) as usize))
            } else {
                InjectStep::Next(InjectPhase::Rechecking)
            },
            InjectReply::Sent(Err(e)) => InjectStep::Finished(Err(e)),
            InjectReply::Window(_) => InjectStep::Next(phase),
        },
        InjectPhase::Rechecking => match reply {
            InjectReply::Window(true) => InjectStep::Next(InjectPhase::Typing),
            InjectReply::Window(false) => InjectStep::WindowChangedMidway,
            InjectReply::Sent(_) => InjectStep::Next(phase),
        },
        InjectPhase::Typing => match reply {
            InjectReply::Sent(result) => InjectStep::Finished(result),
            InjectReply::Window(_) => InjectStep::Next(phase),
        },
    }
}

/// Where the replies `rs`, taken in order from the start, lead; replies
/// after the end are ignored.
pub open spec fn injection_run(backspaces: nat, rs: Seq<InjectReply>) -> InjectStep
    decreases rs.len(),
{
    if rs.len() == 0 {
        InjectStep::Next(InjectPhase::Start)
    } else {
        match injection_run(backspaces, rs.drop_last()) {
            InjectStep::Next(phase) => step_of(phase, backspaces, rs.last()),
            done => done,
        }
    }
}

/// Whether `r` is what a correction that ended at `s` returns: the two
/// window changes are reported as injection failures, and otherwise the
/// result of the last send is returned.
pub open spec fn concluded(s: InjectStep, r: Result<(), HookError>) -> bool {
    match s {
        InjectStep::Next(_) => false,
        InjectStep::WindowChanged => r matches Err(HookError::InjectionFailed(m)) && m@ == "Window changed"@,
        InjectStep::WindowChangedMidway => r matches Err(HookError::InjectionFailed(m))
            && m@ == "Window changed during backspace"@,
        InjectStep::Finished(result) => r == result,
    }
}

/// How many replies at most are still to come from a phase.
pub open spec fn phase_measure(phase: InjectPhase, backspaces: nat) -> int {
    match phase {
        InjectPhase::Start => backspaces as int + 3,
        InjectPhase::Erasing(n) => backspaces - n + 2,
        InjectPhase::Rechecking => 2,
        InjectPhase::Typing => 1,
    }
}

proof fn lemma_run_push(backspaces: nat, rs: Seq<InjectReply>, reply: InjectReply)
    ensures
        injection_run(backspaces, rs.push(reply)) == match injection_run(backspaces, rs) {
            InjectStep::Next(phase) => step_of(phase, backspaces, reply),
            done => done,
        },
{
    assert(rs.push(reply).drop_last() =~= rs);
}

/// What the hook is asked in `phase`: a window check, or the keys to send.
pub fn injection_request(phase: InjectPhase, text: &str) -> (r: InjectRequest)
    ensures
        match request_keys(phase, text@) {
            None => r is CheckWindow,
            Some(keys) => r matches InjectRequest::Send(s) && s@ == keys,
        },
{
    match phase {
        InjectPhase::Start => InjectRequest::CheckWindow,
        InjectPhase::Erasing(_) => {
            let keys = String::from_str("\x08");
            proof {
                reveal_strlit("\x08");
            }
            InjectRequest::Send(keys)
        },
        InjectPhase::Rechecking => InjectRequest::CheckWindow,
        InjectPhase::Typing => InjectRequest::Send(String::from_str(text)),
    }
}

/// Where `reply` leads from `phase` (see `step_of`).
pub fn injection_step(phase: InjectPhase, backspaces: usize, reply: InjectReply) -> (s: InjectStep)
    ensures
        s == step_of(phase, backspaces as nat, reply),
{
    match phase {
        InjectPhase::Start => match reply {
            InjectReply::Window(true) => if backspaces > 0 {
                InjectStep::Next(InjectPhase::Erasing(0))
            } else {
                InjectStep::Next(InjectPhase::Rechecking)
            },
            InjectReply::Window(false) => InjectStep::WindowChanged,
            InjectReply::Sent(_) => InjectStep::Next(phase),
        },
        InjectPhase::Erasing(n) => match reply {
            InjectReply::Sent(Ok(())) => if n < backspaces && n + 1 < backspaces {
                InjectStep::Next(InjectPhase::Erasing(n + 1))
            } else {
                InjectStep::Next(InjectPhase::Rechecking)
            },
            InjectReply::Sent(Err(e)) => InjectStep::Finished(Err(e)),
            InjectReply::Window(_) => InjectStep::Next(phase),
        },
        InjectPhase::Rechecking => match reply {
            InjectReply::Window(true) => InjectStep::Next(InjectPhase::Typing),
            InjectReply::Window(false) => InjectStep::WindowChangedMidway,
            InjectReply::Sent(_) => InjectStep::Next(phase),
        },
        InjectPhase::Typing => match reply {
            InjectReply::Sent(result) => InjectStep::Finished(result),
            InjectReply::Window(_) => InjectStep::Next(phase),
        },
    }
}

/// `std::sync::mpsc::channel` for hook events.  Nothing is claimed of the
/// channel.
#[verifier::external_body]
fn event_channel() -> (r: (Sender<HookEvent>, Receiver<HookEvent>)) {
    std::sync::mpsc::channel()
}

/// `Sender::send`; a send on a channel whose receiver is gone is dropped,
/// as the hook does not report it.  Nothing is claimed.
#[verifier::external_body]
fn deliver(sender: &Sender<HookEvent>, event: HookEvent) {
    let _ = sender.send(event);
}

/// Milliseconds since the Unix epoch by the system clock
/// (`SystemTime::now`), 0 for a clock set before it.  It depends on the
/// clock, so nothing is claimed of it.
#[verifier::external_body]
fn now_millis() -> (r: u64) {
    std::time::SystemTime::now().duration_since(std::time::UNIX_EPOCH).unwrap_or_default().as_millis() as u64
}

/// The event that a simulated keypress delivers: the key as given, stamped
/// with `timestamp`, with no modifier held, in window 0.
pub fn simulated_event(event: KeyEvent, timestamp: u64) -> (e: HookEvent)
    ensures
        e.event == event,
        e.timestamp == timestamp,
        !e.modifiers.shift && !e.modifiers.ctrl && !e.modifiers.alt && !e.modifiers.caps_lock,
        e.window_id == 0,
{
    HookEvent { event, timestamp, modifiers: Modifiers::default(), window_id: 0 }
}

/// Mock hook for testing
pub struct MockHook {
    config: HookConfig,
    running: bool,
    sender: Option<Sender<HookEvent>>,
    receiver: Receiver<HookEvent>,
}

impl MockHook {
    /// Whether the hook was started and not stopped since.
    pub closed spec fn active(&self) -> bool {
        self.running
    }

    /// Whether simulated events still reach the receiver.
    pub closed spec fn connected(&self) -> bool {
        self.sender is Some
    }

    /// The receiving end of the hook's event channel.
    pub closed spec fn event_source(&self) -> Receiver<HookEvent> {
        self.receiver
    }

    /// The configuration the hook was made with.
    pub closed spec fn settings(&self) -> HookConfig {
        self.config
    }

    /// Construct a new `MockHook` using the supplied configuration
    pub fn new(config: HookConfig) -> (h: Self)
        ensures
            !h.active(),
            h.connected(),
            h.settings() == config,
    {
        let (sender, receiver) = event_channel();
        MockHook { config, running: false, sender: Some(sender), receiver }
    }

    /// Simulate a keypress (for testing): the event, stamped with the
    /// current time, no modifiers and window 0, goes to the receiver while
    /// the hook is connected
    pub fn simulate(&self, event: KeyEvent) {
        let hook_event = simulated_event(event, now_millis());
        match &self.sender {
            Some(sender) => deliver(sender, hook_event),
            None => {},
        }
    }
}

impl KeyboardHook for MockHook {
    fn start(&mut self) -> (r: Result<(), HookError>)
        ensures
            old(self).active() ==> (r matches Err(HookError::AlreadyRunning)) && final(self).active(),
            !old(self).active() ==> r is Ok && final(self).active(),
            final(self).connected() == old(self).connected(),
            final(self).settings() == old(self).settings(),
            final(self).event_source() == old(self).event_source(),
    {
        if self.running {
            return Err(HookError::AlreadyRunning);
        }
        self.running = true;
        Ok(())
    }

    fn stop(&mut self) -> (r: Result<(), HookError>)
        ensures
            !old(self).active() ==> (r matches Err(HookError::NotRunning)) && !final(self).active()
                && final(self).connected() == old(self).connected(),
            old(self).active() ==> r is Ok && !final(self).active() && !final(self).connected(),
            final(self).settings() == old(self).settings(),
            final(self).event_source() == old(self).event_source(),
    {
        if !self.running {
            return Err(HookError::NotRunning);
        }
        self.running = false;
        // Drop sender to disconnect receiver
        self.sender = None;
        Ok(())
    }

    fn is_running(&self) -> (r: bool)
        ensures
            r == self.active(),
    {
        self.running
    }

    fn receiver(&self) -> (r: &Receiver<HookEvent>)
        ensures
            *r == self.event_source(),
    {
        &self.receiver
    }

    fn send_text(&self, _text: &str) -> (r: Result<(), HookError>)
        ensures
            r is Ok,
    {
        Ok(())
    }
}

} // verus!
