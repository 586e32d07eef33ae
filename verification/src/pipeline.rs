//! Settings of the text processing pipeline, and its step on one typed
//! character: the buffer, then the correction of a finished word.

use vstd::prelude::*;
use crate::base::buffer::{after_push, CharBuffer};
use crate::correction::engine::{correction_matches, errors_touched, normalized, CorrectionEngine, CorrectionResult};
use crate::text::spec_to_lowercase;

verus! {

/// Pipeline configuration
#[derive(Debug, Clone, Copy)]
pub struct PipelineConfig {
    /// Enable automatic correction
    pub auto_correct: bool,
    /// Enable language detection
    pub detect_language: bool,
    /// Buffer size
    pub buffer_size: usize,
    /// Enable suggestion mode (show suggestions instead of auto-correct)
    pub suggestion_mode: bool,
}

impl Default for PipelineConfig {
    fn default() -> (c: Self)
        ensures
            c.auto_correct,
            c.detect_language,
            c.buffer_size == 64,
            !c.suggestion_mode,
    {
        PipelineConfig { auto_correct: true, detect_language: true, buffer_size: 64, suggestion_mode: false }
    }
}

/// Feed one typed character: the buffer takes it, and when it ends a word,
/// the word is handed back with its correction (when `auto_correct` is on
/// and the engine can correct).  Language detection, which may switch the
/// language between words, is left to the caller.
pub fn word_step(
    buffer: &mut CharBuffer,
    engine: &mut CorrectionEngine,
    auto_correct: bool,
    ch: char,
) -> (r: Option<(String, Option<String>)>)
    requires
        old(buffer).wf(),
        old(engine).wf(),
    ensures
        final(buffer).wf(),
        final(buffer).limit() == old(buffer).limit(),
        final(buffer)@ == after_push(old(buffer)@, ch, old(buffer).limit()).0,
        final(engine).wf(),
        final(engine).settings() == old(engine).settings(),
        final(engine).language() == old(engine).language(),
        final(engine).dictionaries() == old(engine).dictionaries(),
        after_push(old(buffer)@, ch, old(buffer).limit()).1 matches Some(t) ==> (auto_correct
            && old(engine).settings().max_edit_distance < usize::MAX ==> final(engine).error_maps() == if t.len()
            < old(engine).settings().min_word_length {
            old(engine).error_maps()
        } else {
            errors_touched(
                old(engine).error_maps(),
                old(engine).language(),
                spec_to_lowercase(normalized(t, old(engine).settings().case_sensitive)),
            )
        }),
        match after_push(old(buffer)@, ch, old(buffer).limit()).1 {
            None => r is None && final(engine).error_maps() == old(engine).error_maps(),
            Some(t) => r matches Some(p) && p.0@ == t && if auto_correct && old(engine).settings().max_edit_distance < usize::MAX {
                exists|cr: CorrectionResult| #[trigger] correction_matches(
                    old(engine).settings(),
                    old(engine).language(),
                    old(engine).dictionaries(),
                    old(engine).error_maps(),
                    t,
                    cr,
                ) && cr.corrected == p.1
            } else {
                p.1 is None && final(engine).error_maps() == old(engine).error_maps()
            },
        },
{
    let word = match buffer.push(ch) {
        Some(w) => w,
        None => return None,
    };
    if auto_correct && engine.config().max_edit_distance < usize::MAX {
        let result = engine.correct(word.as_str());
        proof {
            assert(correction_matches(
                old(engine).settings(),
                old(engine).language(),
                old(engine).dictionaries(),
                old(engine).error_maps(),
                word@,
                result,
            ));
        }
        let corrected = result.corrected;
        Some((word, corrected))
    } else {
        Some((word, None))
    }
}

} // verus!
