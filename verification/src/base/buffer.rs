//! Character buffer with delimiter detection
//!
//! Keeps the keystrokes typed so far until a delimiter arrives, then hands
//! the collected token out and starts over.

use std::collections::VecDeque;
use vstd::prelude::*;
use crate::text::{chars_of, string_of};

verus! {

/// Maximum buffer size - prevents memory bloat from long strings
pub const MAX_BUFFER_SIZE: usize = 64;

/// Delimiter types that trigger token extraction
#[derive(Debug, Clone, Copy, PartialEq, Eq, Structural)]
pub enum Delimiter {
    /// Space character (` `)
    Space,
    /// Newline / carriage return characters
    Enter,
    /// Tab character (`\t`)
    Tab,
    /// Any punctuation character
    Punctuation,
    /// User-supplied custom delimiter character
    Custom(char),
}

/// The punctuation characters that end a token.
pub open spec fn punctuation_char(ch: char) -> bool {
    ||| ch == '.' || ch == ',' || ch == ';' || ch == ':' || ch == '!' || ch == '?'
    ||| ch == '"' || ch == '\'' || ch == '(' || ch == ')' || ch == '[' || ch == ']'
    ||| ch == '{' || ch == '}' || ch == '-' || ch == '_' || ch == '/' || ch == '\\'
    ||| ch == '@' || ch == '#' || ch == '$' || ch == '%' || ch == '^' || ch == '&'
    ||| ch == '*' || ch == '+' || ch == '=' || ch == '<' || ch == '>' || ch == '|'
    ||| ch == '~' || ch == '`'
}

/// The characters that end a token: white space of the three kinds, and
/// punctuation.
pub open spec fn delimiter_char(ch: char) -> bool {
    ch == ' ' || ch == '\n' || ch == '\r' || ch == '\t' || punctuation_char(ch)
}

/// The kind of delimiter a character is, if it is one.
pub open spec fn delimiter_kind(ch: char) -> Option<Delimiter> {
    if ch == ' ' {
        Some(Delimiter::Space)
    } else if ch == '\n' || ch == '\r' {
        Some(Delimiter::Enter)
    } else if ch == '\t' {
        Some(Delimiter::Tab)
    } else if punctuation_char(ch) {
        Some(Delimiter::Punctuation)
    } else {
        None
    }
}

impl Delimiter {
    /// Check if a character is a delimiter
    pub fn is_delimiter(ch: char) -> (r: bool)
        ensures
            r == delimiter_char(ch),
    {
        ch == ' ' || ch == '\n' || ch == '\r' || ch == '\t' || Self::is_punctuation(ch)
    }

    /// Check if character is punctuation
    pub fn is_punctuation(ch: char) -> (r: bool)
        ensures
            r == punctuation_char(ch),
    {
        match ch {
            '.' | ',' | ';' | ':' | '!' | '?' | '"' | '\'' | '(' | ')' | '[' | ']' | '{' | '}'
            | '-' | '_' | '/' | '\\' | '@' | '#' | '$' | '%' | '^' | '&' | '*' | '+' | '='
            | '<' | '>' | '|' | '~' | '`' => true,
            _ => false,
        }
    }

    /// Classify a character
    pub fn classify(ch: char) -> (r: Option<Delimiter>)
        ensures
            r == delimiter_kind(ch),
    {
        if ch == ' ' {
            Some(Delimiter::Space)
        } else if ch == '\n' || ch == '\r' {
            Some(Delimiter::Enter)
        } else if ch == '\t' {
            Some(Delimiter::Tab)
        } else if Self::is_punctuation(ch) {
            Some(Delimiter::Punctuation)
        } else {
            None
        }
    }
}

/// A character is classified exactly when it is a delimiter, and never as
/// a custom delimiter.
pub proof fn law_classify_agrees_with_is_delimiter(ch: char)
    ensures
        delimiter_kind(ch) is Some <==> delimiter_char(ch),
        !(delimiter_kind(ch) matches Some(Delimiter::Custom(_))),
{
}

/// Buffer event types
#[derive(Debug, Clone)]
pub enum BufferEvent {
    /// Token was extracted (complete word)
    TokenExtracted {
        /// The extracted token text
        token: String,
        /// The delimiter that triggered extraction
        delimiter: Delimiter,
    },
    /// Buffer was truncated (max size reached)
    BufferTruncated {
        /// The original buffer contents before truncation
        original: String,
        /// The remaining buffer contents after truncation
        truncated: String,
    },
    /// Buffer was cleared
    BufferCleared,
    /// Buffer overflow prevented
    BufferOverflowPrevented {
        /// The character that was attempted to be added
        attempted: char,
    },
}

/// The contents after one character `ch` reaches a buffer holding `buf`
/// that holds at most `limit` characters, and the token it hands out.
///
/// A delimiter hands out the whole contents and empties the buffer.  Any
/// other character is appended; on a full buffer the oldest character is
/// dropped to make room, so that the buffer keeps the newest characters (a
/// buffer with no room at all keeps nothing).
pub open spec fn after_push(buf: Seq<char>, ch: char, limit: nat) -> (Seq<char>, Option<Seq<char>>) {
    if delimiter_char(ch) {
        (Seq::empty(), Some(buf))
    } else if buf.len() >= limit {
        (if buf.len() > 0 { buf.drop_first().push(ch) } else { buf }, None)
    } else {
        (buf.push(ch), None)
    }
}

/// The event announced when `ch` reaches a buffer holding `buf` that holds
/// at most `limit` characters.
pub open spec fn push_event_matches(buf: Seq<char>, ch: char, limit: nat, e: BufferEvent) -> bool {
    if delimiter_char(ch) {
        if buf.len() > 0 {
            e matches BufferEvent::TokenExtracted { token, delimiter }
                && token@ == buf && Some(delimiter) == delimiter_kind(ch)
        } else {
            e is BufferCleared
        }
    } else if buf.len() >= limit {
        e matches BufferEvent::BufferTruncated { original, truncated }
            && original@ == buf && truncated@ == after_push(buf, ch, limit).0
    } else {
        e matches BufferEvent::BufferOverflowPrevented { attempted } && attempted == ch
    }
}

/// Feeding the characters of `s` one by one into a buffer holding `buf`
/// (at most `limit` characters): the contents at the end, and the non-empty
/// tokens handed out, in order.
pub open spec fn after_feed(buf: Seq<char>, s: Seq<char>, limit: nat) -> (Seq<char>, Seq<Seq<char>>)
    decreases s.len(),
{
    if s.len() == 0 {
        (buf, Seq::empty())
    } else {
        let (b, ts) = after_feed(buf, s.drop_last(), limit);
        let (b2, t) = after_push(b, s.last(), limit);
        (b2, match t {
            Some(tok) => if tok.len() > 0 { ts.push(tok) } else { ts },
            None => ts,
        })
    }
}

/// No character of `s` ends a token.
pub open spec fn free_of_delimiters(s: Seq<char>) -> bool {
    forall|k: int| 0 <= k < s.len() ==> !delimiter_char(#[trigger] s[k])
}

/// A buffer never holds a delimiter, so no token handed out holds one.
pub proof fn law_tokens_free_of_delimiters(buf: Seq<char>, ch: char, limit: nat)
    requires
        free_of_delimiters(buf),
    ensures
        free_of_delimiters(after_push(buf, ch, limit).0),
        after_push(buf, ch, limit).1 matches Some(t) ==> free_of_delimiters(t),
{
    if !delimiter_char(ch) && buf.len() >= limit && buf.len() > 0 {
        let d = buf.drop_first();
        assert forall|k: int| 0 <= k < d.len() implies !delimiter_char(#[trigger] d[k]) by {
            assert(d[k] == buf[k + 1]);
        }
    } else if !delimiter_char(ch) {
        let d = buf.push(ch);
        assert forall|k: int| 0 <= k < d.len() implies !delimiter_char(#[trigger] d[k]) by {
            if k < buf.len() {
                assert(d[k] == buf[k]);
            }
        }
    }
}

/// Every buffer holds no delimiter and at most its limit of characters,
/// across every operation (each keeps the buffer well formed).
pub proof fn law_buffer_bounded_and_free_of_delimiters(b: CharBuffer)
    requires
        b.wf(),
    ensures
        free_of_delimiters(b@),
        b@.len() <= b.limit(),
        b.limit() <= MAX_BUFFER_SIZE,
{
}

/// Character buffer
///
/// # Guarantees
/// * Bounded size - at most its limit, itself at most MAX_BUFFER_SIZE
///   characters
/// * Fail-safe - never panics, always returns valid state
/// * Ring buffer - when full, the oldest character makes room for the new
///   one, so the newest characters are kept
///
/// # Events
/// Each push hands back the event it causes (`push_with_event`), for the
/// caller to announce to its listeners; a listener is a closure, so the
/// list of listeners and their calls, in registration order, belong to the
/// program around the buffer.
#[derive(Debug)]
pub struct CharBuffer {
    buffer: VecDeque<char>,
    limit: usize,
}

impl View for CharBuffer {
    type V = Seq<char>;

    /// The characters held, oldest first.
    closed spec fn view(&self) -> Seq<char> {
        self.buffer@
    }
}

impl CharBuffer {
    /// The most characters the buffer holds.
    pub closed spec fn limit(&self) -> nat {
        self.limit as nat
    }

    /// The buffer holds no delimiter and never more than its limit, which
    /// is at most `MAX_BUFFER_SIZE` characters.
    pub closed spec fn wf(&self) -> bool {
        &&& self.buffer@.len() <= self.limit
        &&& self.limit <= MAX_BUFFER_SIZE
        &&& free_of_delimiters(self.buffer@)
    }

    /// Create a new empty buffer
    pub fn new() -> (b: Self)
        ensures
            b.wf(),
            b@ == Seq::<char>::empty(),
            b.limit() == MAX_BUFFER_SIZE,
    {
        CharBuffer { buffer: VecDeque::with_capacity(MAX_BUFFER_SIZE), limit: MAX_BUFFER_SIZE }
    }

    /// Create a new empty buffer, reserving room for `capacity` characters
    /// (at most `MAX_BUFFER_SIZE`); it holds up to `MAX_BUFFER_SIZE`
    pub fn with_capacity(capacity: usize) -> (b: Self)
        ensures
            b.wf(),
            b@ == Seq::<char>::empty(),
            b.limit() == MAX_BUFFER_SIZE,
    {
        let cap = if capacity < MAX_BUFFER_SIZE { capacity } else { MAX_BUFFER_SIZE };
        CharBuffer { buffer: VecDeque::with_capacity(cap), limit: MAX_BUFFER_SIZE }
    }

    /// The characters held, as a vector.
    fn collect_chars(&self) -> (v: Vec<char>)
        ensures
            v@ == self@,
    {
        let mut v: Vec<char> = Vec::new();
        let mut i: usize = 0;
        while i < self.buffer.len()
            invariant
                i <= self.buffer@.len(),
                v@ == self.buffer@.subrange(0, i as int),
            decreases self.buffer.len() - i,
        {
            v.push(self.buffer[i]);
            assert(self.buffer@.subrange(0, i + 1) =~= self.buffer@.subrange(0, i as int).push(self.buffer@[i as int]));
            i = i + 1;
        }
        assert(self.buffer@.subrange(0, i as int) =~= self.buffer@);
        v
    }

    /// Add a character to the buffer, and say what happened
    ///
    /// Returns the extracted token if a delimiter was hit, None otherwise,
    /// together with the event to announce.
    ///
    /// # Fail-Safe Behavior
    /// * If buffer is full: truncate
    /// * If char is delimiter: extract token
    pub fn push_with_event(&mut self, ch: char) -> (r: (Option<String>, BufferEvent))
        requires
            old(self).wf(),
        ensures
            final(self).wf(),
            final(self).limit() == old(self).limit(),
            final(self)@ == after_push(old(self)@, ch, old(self).limit()).0,
            match r.0 {
                Some(t) => after_push(old(self)@, ch, old(self).limit()).1 == Some(t@),
                None => after_push(old(self)@, ch, old(self).limit()).1 is None,
            },
            push_event_matches(old(self)@, ch, old(self).limit(), r.1),
    {
        // Check for delimiter
        match Delimiter::classify(ch) {
            Some(delimiter) => {
                // Extract token before clearing
                let chars = self.collect_chars();
                let token = string_of(&chars);
                let event = if chars.len() > 0 {
                    let shown = string_of(&chars);
                    BufferEvent::TokenExtracted { token: shown, delimiter }
                } else {
                    // Empty buffer before delimiter, just clear
                    BufferEvent::BufferCleared
                };
                self.buffer.clear();
                (Some(token), event)
            },
            None => {
                if self.buffer.len() >= self.limit {
                    // Buffer full - drop the oldest character to make room
                    let chars = self.collect_chars();
                    let original = string_of(&chars);
                    let ghost before = self.buffer@;
                    if self.buffer.len() > 0 {
                        self.buffer.pop_front();
                        self.buffer.push_back(ch);
                        proof {
                            assert(self.buffer@ =~= before.drop_first().push(ch));
                        }
                    }
                    proof {
                        let d = self.buffer@;
                        assert forall|k: int| 0 <= k < d.len() implies !delimiter_char(#[trigger] d[k]) by {
                            if k + 1 < before.len() {
                                assert(d[k] == before[k + 1]);
                            }
                        }
                    }
                    let truncated = self.contents();
                    let event = BufferEvent::BufferTruncated { original, truncated };
                    (None, event)
                } else {
                    let ghost before = self.buffer@;
                    self.buffer.push_back(ch);
                    proof {
                        let d = self.buffer@;
                        assert forall|k: int| 0 <= k < d.len() implies !delimiter_char(#[trigger] d[k]) by {
                            if k < before.len() {
                                assert(d[k] == before[k]);
                            }
                        }
                    }
                    (None, BufferEvent::BufferOverflowPrevented { attempted: ch })
                }
            },
        }
    }

    /// Add a character to the buffer
    ///
    /// Returns the extracted token if a delimiter was hit, None otherwise.
    pub fn push(&mut self, ch: char) -> (r: Option<String>)
        requires
            old(self).wf(),
        ensures
            final(self).wf(),
            final(self).limit() == old(self).limit(),
            final(self)@ == after_push(old(self)@, ch, old(self).limit()).0,
            match r {
                Some(t) => after_push(old(self)@, ch, old(self).limit()).1 == Some(t@),
                None => after_push(old(self)@, ch, old(self).limit()).1 is None,
            },
    {
        let (token, _event) = self.push_with_event(ch);
        token
    }

    /// Add a string to the buffer (for paste events)
    ///
    /// Processes character by character, extracting tokens at delimiters.
    /// Any content left in the buffer afterwards is flushed: handed out as a
    /// last token, leaving the buffer empty.
    pub fn push_string(&mut self, text: &str) -> (r: Vec<String>)
        requires
            old(self).wf(),
        ensures
            final(self).wf(),
            final(self).limit() == old(self).limit(),
            final(self)@ == Seq::<char>::empty(),
            r@.map_values(|t: String| t@) == if after_feed(old(self)@, text@, old(self).limit()).0.len() > 0 {
                after_feed(old(self)@, text@, old(self).limit()).1.push(after_feed(old(self)@, text@, old(self).limit()).0)
            } else {
                after_feed(old(self)@, text@, old(self).limit()).1
            },
    {
        let chars = chars_of(text);
        let ghost start = self@;
        let mut tokens: Vec<String> = Vec::new();
        let mut i: usize = 0;
        while i < chars.len()
            invariant
                self.wf(),
                self.limit() == old(self).limit(),
                chars@ == text@,
                i <= chars@.len(),
                self@ == after_feed(start, chars@.subrange(0, i as int), self.limit()).0,
                tokens@.map_values(|t: String| t@) == after_feed(start, chars@.subrange(0, i as int), self.limit()).1,
            decreases chars.len() - i,
        {
            let ghost before = tokens@;
            proof {
                let s = chars@.subrange(0, i + 1);
                assert(s.drop_last() =~= chars@.subrange(0, i as int));
                assert(s.last() == chars@[i as int]);
            }
            let token = self.push(chars[i]);
            match token {
                Some(t) => {
                    if t.as_str().unicode_len() > 0 {
                        tokens.push(t);
                        assert(tokens@.map_values(|t: String| t@) =~= before.map_values(|t: String| t@).push(t@));
                    }
                },
                None => {},
            }
            i = i + 1;
        }
        proof {
            assert(chars@.subrange(0, i as int) =~= chars@);
        }
        // Flush any remaining buffer content
        let remaining = self.collect_chars();
        if remaining.len() > 0 {
            let ghost before = tokens@;
            tokens.push(string_of(&remaining));
            assert(tokens@.map_values(|t: String| t@) =~= before.map_values(|t: String| t@).push(self@));
        }
        self.buffer.clear();
        tokens
    }

    /// Get current buffer contents
    pub fn contents(&self) -> (r: String)
        ensures
            r@ == self@,
    {
        let chars = self.collect_chars();
        string_of(&chars)
    }

    /// Get buffer length
    pub fn len(&self) -> (r: usize)
        ensures
            r == self@.len(),
    {
        self.buffer.len()
    }

    /// Check if buffer is empty
    pub fn is_empty(&self) -> (r: bool)
        ensures
            r == (self@.len() == 0),
    {
        self.buffer.len() == 0
    }

    /// Clear the buffer
    pub fn clear(&mut self)
        requires
            old(self).wf(),
        ensures
            final(self).wf(),
            final(self).limit() == old(self).limit(),
            final(self)@ == Seq::<char>::empty(),
    {
        self.buffer.clear();
    }

    /// Get last N characters
    pub fn last_chars(&self, n: usize) -> (r: String)
        ensures
            r@ == self@.subrange(if n >= self@.len() { 0 } else { self@.len() - n }, self@.len() as int),
    {
        let len = self.buffer.len();
        let start = if n >= len { 0 } else { len - n };
        let mut v: Vec<char> = Vec::new();
        let mut i: usize = start;
        while i < len
            invariant
                len == self.buffer@.len(),
                start <= i <= len,
                v@ == self.buffer@.subrange(start as int, i as int),
            decreases len - i,
        {
            v.push(self.buffer[i]);
            assert(self.buffer@.subrange(start as int, i + 1) =~= self.buffer@.subrange(start as int, i as int).push(self.buffer@[i as int]));
            i = i + 1;
        }
        string_of(&v)
    }

    /// Extract current buffer as token and clear
    pub fn extract(&mut self) -> (r: Option<String>)
        requires
            old(self).wf(),
        ensures
            final(self).wf(),
            final(self).limit() == old(self).limit(),
            old(self)@.len() == 0 ==> r is None && final(self)@ == old(self)@,
            old(self)@.len() > 0 ==> (r matches Some(t) && t@ == old(self)@) && final(self)@ == Seq::<char>::empty(),
    {
        if self.buffer.len() == 0 {
            return None;
        }
        let token = self.contents();
        self.buffer.clear();
        Some(token)
    }

    /// Extract current buffer as token and clear, and say what happened:
    /// a non-empty buffer announces that it was cleared, an empty one
    /// announces nothing
    pub fn extract_with_event(&mut self) -> (r: (Option<String>, Option<BufferEvent>))
        requires
            old(self).wf(),
        ensures
            final(self).wf(),
            final(self).limit() == old(self).limit(),
            old(self)@.len() == 0 ==> r.0 is None && r.1 is None && final(self)@ == old(self)@,
            old(self)@.len() > 0 ==> (r.0 matches Some(t) && t@ == old(self)@) && (r.1 matches Some(e) && e is BufferCleared)
                && final(self)@ == Seq::<char>::empty(),
    {
        let token = self.extract();
        match token {
            Some(t) => (Some(t), Some(BufferEvent::BufferCleared)),
            None => (None, None),
        }
    }
}

impl Default for CharBuffer {
    fn default() -> (b: Self)
        ensures
            b.wf(),
            b@ == Seq::<char>::empty(),
            b.limit() == MAX_BUFFER_SIZE,
    {
        Self::new()
    }
}

/// Builder for CharBuffer with custom configuration
#[derive(Debug)]
pub struct CharBufferBuilder {
    capacity: usize,
}

impl CharBufferBuilder {
    /// The most characters the built buffer will hold.
    pub closed spec fn reserved(&self) -> nat {
        self.capacity as nat
    }

    /// Create a new builder with default capacity
    pub fn new() -> (b: Self)
        ensures
            b.reserved() == MAX_BUFFER_SIZE,
    {
        CharBufferBuilder { capacity: MAX_BUFFER_SIZE }
    }

    /// Set the maximum buffer capacity (clamped to `MAX_BUFFER_SIZE`)
    pub fn capacity(self, capacity: usize) -> (b: Self)
        ensures
            b.reserved() == if capacity < MAX_BUFFER_SIZE { capacity } else { MAX_BUFFER_SIZE },
    {
        let cap = if capacity < MAX_BUFFER_SIZE { capacity } else { MAX_BUFFER_SIZE };
        CharBufferBuilder { capacity: cap }
    }

    /// Build the configured `CharBuffer`, holding at most the configured
    /// capacity
    pub fn build(self) -> (b: CharBuffer)
        ensures
            b.wf(),
            b@ == Seq::<char>::empty(),
            b.limit() == if self.reserved() < MAX_BUFFER_SIZE { self.reserved() } else { MAX_BUFFER_SIZE as nat },
    {
        let cap = if self.capacity < MAX_BUFFER_SIZE { self.capacity } else { MAX_BUFFER_SIZE };
        CharBuffer { buffer: VecDeque::with_capacity(cap), limit: cap }
    }
}

impl Default for CharBufferBuilder {
    fn default() -> (b: Self)
        ensures
            b.reserved() == MAX_BUFFER_SIZE,
    {
        Self::new()
    }
}

/// The delimiters are exactly the three kinds of white space and the
/// punctuation characters: . , ; : ! ? " ' ( ) [ ] { } - _ / \\ @ # $ % ^ &
/// * + = < > | ~ `.
pub proof fn law_delimiters(c: char)
    ensures
        delimiter_char(c) <==> (c == ' ' || c == '\n' || c == '\r' || c == '\t'
            || c == '.' || c == ',' || c == ';' || c == ':' || c == '!' || c == '?'
            || c == '"' || c == '\'' || c == '(' || c == ')' || c == '[' || c == ']'
            || c == '{' || c == '}' || c == '-' || c == '_' || c == '/' || c == '\\'
            || c == '@' || c == '#' || c == '$' || c == '%' || c == '^' || c == '&'
            || c == '*' || c == '+' || c == '=' || c == '<' || c == '>' || c == '|'
            || c == '~' || c == '`'),
        (c == '.' || c == ',' || c == ';' || c == ':' || c == '!' || c == '?'
            || c == '"' || c == '\'' || c == '(' || c == ')' || c == '[' || c == ']'
            || c == '{' || c == '}' || c == '-' || c == '_' || c == '/' || c == '\\'
            || c == '@' || c == '#' || c == '$' || c == '%' || c == '^' || c == '&'
            || c == '*' || c == '+' || c == '=' || c == '<' || c == '>' || c == '|'
            || c == '~' || c == '`') ==> delimiter_kind(c) == Some(Delimiter::Punctuation),
{
}

/// A delimiter hands out the whole word typed so far and leaves the buffer
/// empty; any other character hands out nothing.
pub proof fn law_delimiter_ends_word(buf: Seq<char>, c: char, limit: nat)
    ensures
        delimiter_char(c) ==> after_push(buf, c, limit) == (Seq::<char>::empty(), Some(buf)),
        !delimiter_char(c) ==> after_push(buf, c, limit).1 is None,
{
}

} // verus!
