//! Decisions of the background service: what each keyboard event does to
//! the pipeline, and which keystrokes replace a corrected word.

use vstd::prelude::*;
use crate::hooks::platform::{HookEvent, KeyEvent, SpecialKey};
use crate::text::{chars_of, push_char};

verus! {

/// What a keyboard event does to the pipeline
#[derive(Debug, Clone, Copy, PartialEq, Eq, Structural)]
pub enum KeyAction {
    /// Feed the typed character
    PushChar(char),
    /// Forget the word being typed
    Clear,
    /// Feed a space, ending the word being typed
    PushSpace,
    /// Nothing
    Ignore,
}

/// The handling of one event
#[derive(Debug, Clone, Copy)]
pub struct KeyPlan {
    /// Whether the pipeline is cleared first, the focus having moved to
    /// another window
    pub clear_first: bool,
    /// The window to remember for the next event
    pub window_id: isize,
    /// What the event itself does
    pub action: KeyAction,
}

/// The action of a key event: characters are fed, Backspace forgets the
/// word, Enter, Tab and Escape end it, and every other key is ignored.
pub open spec fn action_of(e: KeyEvent) -> KeyAction {
    match e {
        KeyEvent::Char(c) => KeyAction::PushChar(c),
        KeyEvent::Special(SpecialKey::Backspace) => KeyAction::Clear,
        KeyEvent::Special(SpecialKey::Enter) => KeyAction::PushSpace,
        KeyEvent::Special(SpecialKey::Tab) => KeyAction::PushSpace,
        KeyEvent::Special(SpecialKey::Escape) => KeyAction::PushSpace,
        _ => KeyAction::Ignore,
    }
}

/// Decide what one hook event does, given the window of the events seen
/// before it (0 before the first one).
pub fn plan_key_event(current_window_id: isize, event: &HookEvent) -> (p: KeyPlan)
    ensures
        p.clear_first == (current_window_id != 0 && event.window_id != current_window_id),
        p.window_id == event.window_id,
        p.action == action_of(event.event),
{
    let clear_first = current_window_id != 0 && event.window_id != current_window_id;
    let action = match &event.event {
        KeyEvent::Char(c) => KeyAction::PushChar(*c),
        KeyEvent::Special(SpecialKey::Backspace) => KeyAction::Clear,
        KeyEvent::Special(SpecialKey::Enter) => KeyAction::PushSpace,
        KeyEvent::Special(SpecialKey::Tab) => KeyAction::PushSpace,
        KeyEvent::Special(SpecialKey::Escape) => KeyAction::PushSpace,
        _ => KeyAction::Ignore,
    };
    KeyPlan { clear_first, window_id: event.window_id, action }
}

/// The keystrokes that replace a typed word and the delimiter that ended
/// it by the correction followed by the same delimiter: one backspace per
/// character of the word and one for the delimiter, then the text.
pub fn correction_keystrokes(original: &str, corrected: &str, delimiter: char) -> (r: (usize, String))
    ensures
        r.0 == original@.len() + 1,
        r.1@ == corrected@.push(delimiter),
{
    let typed = chars_of(original);
    let mut text = String::from_str(corrected);
    push_char(&mut text, delimiter);
    (typed.len() + 1, text)
}

/// What the service remembers between events.
#[derive(Debug, Clone)]
pub struct DaemonState {
    /// The window of the events seen so far (0 before the first one)
    pub window_id: isize,
    /// A correction waiting for the window check: how many backspaces to
    /// send, then which text
    pub pending: Option<(usize, String)>,
}

/// What the service learns.
#[derive(Debug)]
pub enum DaemonEvent {
    /// The hook reported a key
    Key(HookEvent),
    /// The pipeline ended a word on the typed character `delimiter`, with
    /// the correction it proposes and the language it switched to, if any
    WordDone {
        /// The word as typed
        original: String,
        /// Its correction
        corrected: Option<String>,
        /// The language detected on the word
        detected_language: Option<String>,
        /// The character that ended the word
        delimiter: char,
    },
    /// The hook answered whether the window is still active
    WindowActive(bool),
}

/// What the service does next.
#[derive(Debug)]
pub enum DaemonAction {
    /// Hand the key to the pipeline, clearing it first if the focus moved
    Feed {
        /// Whether the pipeline is cleared first
        clear_first: bool,
        /// What the key does
        key: KeyAction,
    },
    /// Switch to the detected language, if any, then ask whether the window
    /// is still active when a correction waits
    Settle {
        /// The language to switch to
        switch_to: Option<String>,
        /// Whether the hook is asked about the window
        check_window: bool,
    },
    /// Send the backspaces and the text at once into the window
    Inject {
        /// How many backspaces
        backspaces: usize,
        /// The text that follows them
        text: String,
        /// The window that must still be active
        window_id: isize,
    },
    /// The focus moved before the correction was sent: clear the pipeline
    /// and send nothing
    Abort,
    /// Nothing to do
    Idle,
}

/// Whether `next` and `action` are what the service does on `event` in
/// `state`:
/// - a key updates the window, drops any waiting correction, and is fed
///   to the pipeline as `plan_key_event` says;
/// - a finished word switches to its detected language; a correction of it
///   waits, as one backspace per typed character and one for the
///   delimiter followed by the correction and the delimiter, while the
///   window is checked;
/// - the window check sends the waiting correction into the window when it
///   is still active and aborts it otherwise.
pub open spec fn daemon_transition(
    state: DaemonState,
    event: DaemonEvent,
    next: DaemonState,
    action: DaemonAction,
) -> bool {
    match event {
        DaemonEvent::Key(e) => {
            &&& next.window_id == e.window_id
            &&& next.pending is None
            &&& action == DaemonAction::Feed {
                clear_first: state.window_id != 0 && e.window_id != state.window_id,
                key: action_of(e.event),
            }
        },
        DaemonEvent::WordDone { original, corrected, detected_language, delimiter } => {
            &&& next.window_id == state.window_id
            &&& match corrected {
                Some(c) => {
                    &&& next.pending matches Some((n, t)) && n == original@.len() + 1 && t@ == c@.push(delimiter)
                    &&& action == DaemonAction::Settle { switch_to: detected_language, check_window: true }
                },
                None => {
                    &&& next.pending is None
                    &&& action == DaemonAction::Settle { switch_to: detected_language, check_window: false }
                },
            }
        },
        DaemonEvent::WindowActive(active) => {
            &&& next.window_id == state.window_id
            &&& next.pending is None
            &&& match state.pending {
                Some((n, t)) => if active {
                    action == DaemonAction::Inject { backspaces: n, text: t, window_id: state.window_id }
                } else {
                    action is Abort
                },
                None => action is Idle,
            }
        },
    }
}

/// One decision of the service: from what it remembers and what it
/// learns, what it remembers next and what it does (see
/// `daemon_transition`).
pub fn daemon_step(state: DaemonState, event: DaemonEvent) -> (r: (DaemonState, DaemonAction))
    ensures
        daemon_transition(state, event, r.0, r.1),
{
    match event {
        DaemonEvent::Key(e) => {
            let plan = plan_key_event(state.window_id, &e);
            (
                DaemonState { window_id: plan.window_id, pending: None },
                DaemonAction::Feed { clear_first: plan.clear_first, key: plan.action },
            )
        },
        DaemonEvent::WordDone { original, corrected, detected_language, delimiter } => match corrected {
            Some(c) => {
                let (n, t) = correction_keystrokes(original.as_str(), c.as_str(), delimiter);
                (
                    DaemonState { window_id: state.window_id, pending: Some((n, t)) },
                    DaemonAction::Settle { switch_to: detected_language, check_window: true },
                )
            },
            None => (
                DaemonState { window_id: state.window_id, pending: None },
                DaemonAction::Settle { switch_to: detected_language, check_window: false },
            ),
        },
        DaemonEvent::WindowActive(active) => {
            let action = match state.pending {
                Some((n, t)) => if active {
                    DaemonAction::Inject { backspaces: n, text: t, window_id: state.window_id }
                } else {
                    DaemonAction::Abort
                },
                None => DaemonAction::Idle,
            };
            (DaemonState { window_id: state.window_id, pending: None }, action)
        },
    }
}

/// What each key does: a typed character is fed, Backspace forgets the
/// word, Enter, Tab and Escape end it (so that it is corrected), and every
/// other key (arrows, Home, End, page keys, Delete, modifiers) is ignored.
pub proof fn law_key_actions(e: KeyEvent)
    ensures
        e matches KeyEvent::Char(c) ==> action_of(e) == KeyAction::PushChar(c),
        e matches KeyEvent::Special(SpecialKey::Backspace) ==> action_of(e) == KeyAction::Clear,
        e matches KeyEvent::Special(SpecialKey::Enter) ==> action_of(e) == KeyAction::PushSpace,
        e matches KeyEvent::Special(SpecialKey::Tab) ==> action_of(e) == KeyAction::PushSpace,
        e matches KeyEvent::Special(SpecialKey::Escape) ==> action_of(e) == KeyAction::PushSpace,
        e is Control ==> action_of(e) == KeyAction::Ignore,
        (e matches KeyEvent::Special(k) && k != SpecialKey::Backspace && k != SpecialKey::Enter
            && k != SpecialKey::Tab && k != SpecialKey::Escape) ==> action_of(e) == KeyAction::Ignore,
{
}

} // verus!
