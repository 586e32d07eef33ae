//! Correction engine - main entry point for typo correction
//!
//! Combines learned error maps, Damerau-Levenshtein distance, and language
//! dictionaries to provide accurate typo corrections.

use std::sync::Arc;
use vstd::prelude::*;
use crate::base::ranking::{by_rank, ranks_before, scored_distinct};
use crate::base::trie::{lemma_similar_truncate, similar_listing, Trie};
use crate::correction::distance_spec::{dl_distance, lemma_dl_zero};
use crate::correction::static_map::{
    holds_key, keys_unique, key_pos, law_put_then_found, learned_entries, lemma_touched_answers, put_entry,
    touched, without_key, StaticErrorMap, USER_ERROR_CAPACITY,
    KNOWN_TYPO_FREQUENCY,
};
use crate::language::detector::LanguageDetector;
use crate::text::{
    chars_of, is_alphanumeric, is_uppercase, lower_first, spec_is_alphanumeric, spec_is_uppercase,
    spec_lower_first, spec_to_lowercase, ascii_lowercase, lemma_ascii_lowercase, spec_upper_first, str_eq, string_of, to_lowercase,
    upper_first,
};

verus! {

/// Correction candidate
#[derive(Debug, Clone)]
pub struct CorrectionCandidate {
    /// The corrected word
    pub word: String,
    /// Edit distance from original
    pub distance: usize,
    /// Word frequency in dictionary
    pub frequency: u64,
    /// Source of correction
    pub source: CorrectionSource,
}

/// Where the correction came from
#[derive(Debug, Clone, Copy, PartialEq, Eq, Structural)]
pub enum CorrectionSource {
    /// Static error map
    UserKnown,
    /// Damerau-Levenshtein match
    Dictionary,
    /// No correction found
    NotFound,
}

/// Correction result
#[derive(Debug, Clone)]
pub struct CorrectionResult {
    /// The original word
    pub original: String,
    /// The corrected word (if any)
    pub corrected: Option<String>,
    /// All candidates considered
    pub candidates: Vec<CorrectionCandidate>,
    /// Source of correction
    pub source: CorrectionSource,
}

/// Correction engine configuration
#[derive(Debug, Clone, Copy)]
pub struct EngineConfig {
    /// Maximum edit distance for dictionary lookups
    pub max_edit_distance: usize,
    /// Maximum candidates to return
    pub max_candidates: usize,
    /// Minimum word length to correct
    pub min_word_length: usize,
    /// Case sensitivity
    pub case_sensitive: bool,
}

impl Default for EngineConfig {
    fn default() -> (c: Self)
        ensures
            c.max_edit_distance == 1,
            c.max_candidates == 3,
            c.min_word_length == 2,
            !c.case_sensitive,
    {
        EngineConfig { max_edit_distance: 1, max_candidates: 3, min_word_length: 2, case_sensitive: false }
    }
}

/// A candidate as (word, distance, frequency).
pub open spec fn candidate_view(c: CorrectionCandidate) -> (Seq<char>, usize, u64) {
    (c.word@, c.distance, c.frequency)
}

/// Candidates as (word, distance, frequency) triples.
pub open spec fn candidates_view(v: Seq<CorrectionCandidate>) -> Seq<(Seq<char>, usize, u64)> {
    v.map_values(|c: CorrectionCandidate| candidate_view(c))
}

/// Every candidate comes from `s`.
pub open spec fn all_from(v: Seq<CorrectionCandidate>, s: CorrectionSource) -> bool {
    forall|k: int| 0 <= k < v.len() ==> (#[trigger] v[k]).source == s
}

/// The entry for `lang` in a list keyed by language, if any.
pub open spec fn entry_for<T>(l: Seq<(Seq<char>, T)>, lang: Seq<char>) -> Option<T> {
    if exists|k: int| 0 <= k < l.len() && l[k].0 == lang {
        Some(l[choose|k: int| 0 <= k < l.len() && l[k].0 == lang].1)
    } else {
        None
    }
}

/// No language is listed twice.
pub open spec fn langs_distinct<T>(l: Seq<(Seq<char>, T)>) -> bool {
    forall|a: int, b: int| 0 <= a < b < l.len() ==> l[a].0 != l[b].0
}

/// The word as the engine looks it up: lower-cased unless case matters.
pub open spec fn normalized(word: Seq<char>, case_sensitive: bool) -> Seq<char> {
    if case_sensitive { word } else { spec_to_lowercase(word) }
}

/// What a dictionary offers for `word`: nothing when the word is in it,
/// else its words within the allowed distance, nearest and most frequent
/// first (see `similar_listing`).
pub open spec fn dictionary_offers(
    d: Map<Seq<char>, u64>,
    word: Seq<char>,
    max_distance: int,
    limit: int,
    cands: Seq<CorrectionCandidate>,
) -> bool {
    &&& all_from(cands, CorrectionSource::Dictionary)
    &&& if d.contains_key(word) {
        cands.len() == 0
    } else {
        similar_listing(d, word, candidates_view(cands), max_distance, limit)
    }
}

/// What `correct` answers for `word`, given the engine's configuration,
/// language, dictionaries and learned corrections.
pub open spec fn correction_matches(
    cfg: EngineConfig,
    lang: Seq<char>,
    dicts: Seq<(Seq<char>, Map<Seq<char>, u64>)>,
    errs: Seq<(Seq<char>, Seq<(Seq<char>, Seq<char>)>)>,
    word: Seq<char>,
    r: CorrectionResult,
) -> bool {
    let wn = normalized(word, cfg.case_sensitive);
    let key = spec_to_lowercase(wn);
    &&& r.original@ == word
    &&& if word.len() < cfg.min_word_length {
        r.corrected is None && r.candidates@.len() == 0 && r.source == CorrectionSource::NotFound
    } else if entry_for(errs, lang) is Some && holds_key(entry_for(errs, lang)->0, key) {
        let e = entry_for(errs, lang)->0;
        let v = e[key_pos(e, key)].1;
        &&& r.corrected matches Some(c) && c@ == v
        &&& r.candidates@.len() == 1
        &&& candidate_view(r.candidates@[0]) == (v, 0usize, KNOWN_TYPO_FREQUENCY)
        &&& r.candidates@[0].source == CorrectionSource::UserKnown
        &&& r.source == CorrectionSource::UserKnown
    } else if entry_for(dicts, lang) is Some {
        &&& dictionary_offers(entry_for(dicts, lang)->0, wn, cfg.max_edit_distance as int, cfg.max_candidates as int, r.candidates@)
        &&& if r.candidates@.len() > 0 {
            (r.corrected matches Some(c) && c@ == r.candidates@[0].word@) && r.source == CorrectionSource::Dictionary
        } else {
            r.corrected is None && r.source == CorrectionSource::NotFound
        }
    } else {
        r.corrected is None && r.candidates@.len() == 0 && r.source == CorrectionSource::NotFound
    }
}

/// The learned corrections after looking `key` up in the map of `lang`.
pub open spec fn errors_touched(
    errs: Seq<(Seq<char>, Seq<(Seq<char>, Seq<char>)>)>,
    lang: Seq<char>,
    key: Seq<char>,
) -> Seq<(Seq<char>, Seq<(Seq<char>, Seq<char>)>)> {
    if exists|k: int| 0 <= k < errs.len() && errs[k].0 == lang {
        let k = choose|k: int| 0 <= k < errs.len() && errs[k].0 == lang;
        errs.update(k, (lang, touched(errs[k].1, key)))
    } else {
        errs
    }
}

/// What `get_corrections` answers for `word`: the learned correction, if
/// any, first; then what the dictionary offers, all within
/// `max_candidates` entries and ordered by distance, then frequency.
pub open spec fn suggestions_match(
    cfg: EngineConfig,
    lang: Seq<char>,
    dicts: Seq<(Seq<char>, Map<Seq<char>, u64>)>,
    errs: Seq<(Seq<char>, Seq<(Seq<char>, Seq<char>)>)>,
    word: Seq<char>,
    r: Seq<CorrectionCandidate>,
) -> bool {
    let wn = spec_to_lowercase(word);
    let key = spec_to_lowercase(wn);
    let learned = entry_for(errs, lang) is Some && holds_key(entry_for(errs, lang)->0, key);
    let max = cfg.max_candidates as int;
    let tail = if learned && r.len() > 0 { r.drop_first() } else { r };
    let room = if learned { max - 1 } else { max };
    &&& r.len() <= max
    &&& by_rank(candidates_view(r))
    &&& learned && max > 0 ==> r.len() > 0
        && candidate_view(r[0]) == (entry_for(errs, lang)->0[key_pos(entry_for(errs, lang)->0, key)].1, 0usize, KNOWN_TYPO_FREQUENCY)
        && r[0].source == CorrectionSource::UserKnown
    &&& if room <= 0 {
        tail.len() == 0
    } else if entry_for(dicts, lang) is Some {
        dictionary_offers(entry_for(dicts, lang)->0, wn, cfg.max_edit_distance as int, room, tail)
    } else {
        tail.len() == 0
    }
}

/// The learned corrections after the map of `lang`, if there is one, was
/// changed from `e` to `f(e)`: only `lang` finds something else.
pub open spec fn errors_changed(
    old_errs: Seq<(Seq<char>, Seq<(Seq<char>, Seq<char>)>)>,
    new_errs: Seq<(Seq<char>, Seq<(Seq<char>, Seq<char>)>)>,
    lang: Seq<char>,
    f: spec_fn(Seq<(Seq<char>, Seq<char>)>) -> Seq<(Seq<char>, Seq<char>)>,
) -> bool {
    &&& entry_for(new_errs, lang) == match entry_for(old_errs, lang) {
        Some(e) => Some(f(e)),
        None => None,
    }
    &&& forall|l: Seq<char>| l != lang ==> #[trigger] entry_for(new_errs, l) == entry_for(old_errs, l)
}

/// A dictionary offer never holds the word itself, so every candidate is
/// at distance 1 or more.
proof fn lemma_offers_not_zero(
    d: Map<Seq<char>, u64>,
    wn: Seq<char>,
    max: int,
    limit: int,
    cands: Seq<CorrectionCandidate>,
)
    requires
        dictionary_offers(d, wn, max, limit, cands),
    ensures
        forall|k: int| 0 <= k < cands.len() ==> (#[trigger] cands[k]).distance >= 1,
{
    assert forall|k: int| 0 <= k < cands.len() implies (#[trigger] cands[k]).distance >= 1 by {
        let cv = candidates_view(cands);
        assert(cv[k] == candidate_view(cands[k]));
        let w = cv[k].0;
        assert(d.contains_key(w));
        if cands[k].distance == 0 {
            lemma_dl_zero(wn, w, wn.len() as int, w.len() as int);
            assert(wn.subrange(0, wn.len() as int) =~= wn);
            assert(w.subrange(0, w.len() as int) =~= w);
        }
    }
}

/// Whether a character is part of a word
pub open spec fn word_char(ch: char) -> bool {
    spec_is_alphanumeric(ch) || ch == '\'' || ch == '-'
}

/// `corrected` with the case pattern of `original`: capitalised when the
/// original starts with an upper-case letter, lower-case otherwise.
pub open spec fn preserved_case(original: Seq<char>, corrected: Seq<char>) -> Seq<char> {
    if original.len() == 0 || corrected.len() == 0 {
        corrected
    } else if spec_is_uppercase(original[0]) {
        Seq::new(
            corrected.len(),
            |i: int| if i == 0 { spec_upper_first(corrected[0]) } else { spec_lower_first(corrected[i]) },
        )
    } else {
        spec_to_lowercase(corrected)
    }
}

/// Replacing the entry of `key` keeps the keys distinct and changes only
/// what `key` finds.
proof fn lemma_replace_entry<T>(l: Seq<(Seq<char>, T)>, i: int, key: Seq<char>, val: T)
    requires
        langs_distinct(l),
        0 <= i < l.len(),
        l[i].0 == key,
    ensures
        langs_distinct(l.update(i, (key, val))),
        entry_for(l.update(i, (key, val)), key) == Some(val),
        forall|o: Seq<char>| o != key ==> #[trigger] entry_for(l.update(i, (key, val)), o) == entry_for(l, o),
{
    let d = l.update(i, (key, val));
    assert forall|a: int, b: int| 0 <= a < b < d.len() implies d[a].0 != d[b].0 by {
        assert(d[a].0 == l[a].0 && d[b].0 == l[b].0);
    }
    let k = choose|k: int| 0 <= k < d.len() && d[k].0 == key;
    assert(d[i].0 == key);
    assert(k == i);
    assert forall|o: Seq<char>| o != key implies #[trigger] entry_for(d, o) == entry_for(l, o) by {
        if exists|k: int| 0 <= k < d.len() && d[k].0 == o {
            let k = choose|k: int| 0 <= k < d.len() && d[k].0 == o;
            assert(l[k].0 == o);
            let m = choose|m: int| 0 <= m < l.len() && l[m].0 == o;
            assert(m == k);
        }
        if exists|k: int| 0 <= k < l.len() && l[k].0 == o {
            let k = choose|k: int| 0 <= k < l.len() && l[k].0 == o;
            assert(d[k].0 == o);
        }
    }
}

/// Appending an entry for a new `key` keeps the keys distinct and changes
/// only what `key` finds.
proof fn lemma_append_entry<T>(l: Seq<(Seq<char>, T)>, key: Seq<char>, val: T)
    requires
        langs_distinct(l),
        forall|k: int| 0 <= k < l.len() ==> l[k].0 != key,
    ensures
        langs_distinct(l.push((key, val))),
        entry_for(l.push((key, val)), key) == Some(val),
        forall|o: Seq<char>| o != key ==> #[trigger] entry_for(l.push((key, val)), o) == entry_for(l, o),
{
    let d = l.push((key, val));
    assert forall|a: int, b: int| 0 <= a < b < d.len() implies d[a].0 != d[b].0 by {
        if b < l.len() {
            assert(d[a].0 == l[a].0 && d[b].0 == l[b].0);
        } else {
            assert(d[a].0 == l[a].0);
        }
    }
    assert(d[l.len() as int].0 == key);
    let k = choose|k: int| 0 <= k < d.len() && d[k].0 == key;
    assert(k == l.len());
    assert forall|o: Seq<char>| o != key implies #[trigger] entry_for(d, o) == entry_for(l, o) by {
        if exists|k: int| 0 <= k < d.len() && d[k].0 == o {
            let k = choose|k: int| 0 <= k < d.len() && d[k].0 == o;
            assert(l[k].0 == o);
            let m = choose|m: int| 0 <= m < l.len() && l[m].0 == o;
            assert(m == k);
        }
        if exists|k: int| 0 <= k < l.len() && l[k].0 == o {
            let k = choose|k: int| 0 <= k < l.len() && l[k].0 == o;
            assert(d[k].0 == o);
        }
    }
}

/// `correct_text` walking `text`: the text rebuilt so far with the i-th
/// word replaced by `reps[i]`, the word being read, and how many words were
/// replaced.
pub open spec fn rebuild_scan(text: Seq<char>, reps: Seq<Seq<char>>) -> (Seq<char>, Seq<char>, nat)
    decreases text.len(),
{
    if text.len() == 0 {
        (Seq::empty(), Seq::empty(), 0)
    } else {
        let prev = rebuild_scan(text.drop_last(), reps);
        let c = text.last();
        if word_char(c) {
            (prev.0, prev.1.push(c), prev.2)
        } else if prev.1.len() > 0 {
            ((prev.0 + reps[prev.2 as int]).push(c), Seq::empty(), prev.2 + 1)
        } else {
            (prev.0.push(c), Seq::empty(), prev.2)
        }
    }
}

/// The text with its i-th word (maximal run of word characters) replaced
/// by `reps[i]`, every other character kept in place.
pub open spec fn rebuilt_text(text: Seq<char>, reps: Seq<Seq<char>>) -> Seq<char> {
    let s = rebuild_scan(text, reps);
    if s.1.len() > 0 { s.0 + reps[s.2 as int] } else { s.0 }
}

/// The words read so far and the word being read.
pub open spec fn word_scan(text: Seq<char>) -> (Seq<Seq<char>>, Seq<char>)
    decreases text.len(),
{
    if text.len() == 0 {
        (Seq::empty(), Seq::empty())
    } else {
        let prev = word_scan(text.drop_last());
        let c = text.last();
        if word_char(c) {
            (prev.0, prev.1.push(c))
        } else if prev.1.len() > 0 {
            (prev.0.push(prev.1), Seq::empty())
        } else {
            (prev.0, Seq::empty())
        }
    }
}

/// The words of the text (maximal runs of word characters), in order.
pub open spec fn text_words(text: Seq<char>) -> Seq<Seq<char>> {
    let s = word_scan(text);
    if s.1.len() > 0 { s.0.push(s.1) } else { s.0 }
}

/// `rep` is what `correct_text` may put for `word`: the word with the case
/// of its correction preserved, or the word itself when it has none.
pub open spec fn replacement_ok(
    cfg: EngineConfig,
    lang: Seq<char>,
    dicts: Seq<(Seq<char>, Map<Seq<char>, u64>)>,
    errs: Seq<(Seq<char>, Seq<(Seq<char>, Seq<char>)>)>,
    word: Seq<char>,
    rep: Seq<char>,
) -> bool {
    exists|r: CorrectionResult|
        #[trigger] correction_matches(cfg, lang, dicts, errs, word, r) && rep == match r.corrected {
            Some(c) => preserved_case(word, c@),
            None => word,
        }
}

/// The maps give the same answers for `lang`: the same typos, with the
/// same corrections.
pub open spec fn same_answers(
    a: Seq<(Seq<char>, Seq<(Seq<char>, Seq<char>)>)>,
    b: Seq<(Seq<char>, Seq<(Seq<char>, Seq<char>)>)>,
    lang: Seq<char>,
) -> bool {
    &&& entry_for(a, lang) is Some <==> entry_for(b, lang) is Some
    &&& entry_for(a, lang) is Some ==> forall|x: Seq<char>|
        #[trigger] holds_key(entry_for(a, lang)->0, x) == holds_key(entry_for(b, lang)->0, x)
        && (holds_key(entry_for(a, lang)->0, x) ==> entry_for(a, lang)->0[key_pos(entry_for(a, lang)->0, x)].1
            == entry_for(b, lang)->0[key_pos(entry_for(b, lang)->0, x)].1)
}

proof fn lemma_same_answers_match(
    cfg: EngineConfig,
    lang: Seq<char>,
    dicts: Seq<(Seq<char>, Map<Seq<char>, u64>)>,
    a: Seq<(Seq<char>, Seq<(Seq<char>, Seq<char>)>)>,
    b: Seq<(Seq<char>, Seq<(Seq<char>, Seq<char>)>)>,
    word: Seq<char>,
    rep: Seq<char>,
)
    requires
        same_answers(a, b, lang),
        replacement_ok(cfg, lang, dicts, a, word, rep),
    ensures
        replacement_ok(cfg, lang, dicts, b, word, rep),
{
    let r = choose|r: CorrectionResult|
        #[trigger] correction_matches(cfg, lang, dicts, a, word, r) && rep == match r.corrected {
            Some(c) => preserved_case(word, c@),
            None => word,
        };
    let key = spec_to_lowercase(normalized(word, cfg.case_sensitive));
    if entry_for(a, lang) is Some {
        assert(holds_key(entry_for(a, lang)->0, key) == holds_key(entry_for(b, lang)->0, key));
    }
    assert(correction_matches(cfg, lang, dicts, b, word, r));
}

proof fn lemma_touch_same_answers(
    errs: Seq<(Seq<char>, Seq<(Seq<char>, Seq<char>)>)>,
    base: Seq<(Seq<char>, Seq<(Seq<char>, Seq<char>)>)>,
    lang: Seq<char>,
    key: Seq<char>,
)
    requires
        same_answers(errs, base, lang),
        langs_distinct(errs),
        entry_for(errs, lang) is Some ==> crate::correction::static_map::keys_unique(entry_for(errs, lang)->0),
    ensures
        same_answers(errors_touched(errs, lang, key), base, lang),
{
    let t = errors_touched(errs, lang, key);
    if exists|k: int| 0 <= k < errs.len() && errs[k].0 == lang {
        let k = choose|k: int| 0 <= k < errs.len() && errs[k].0 == lang;
        let e = errs[k].1;
        lemma_replace_entry(errs, k, lang, touched(e, key));
        assert forall|x: Seq<char>| #[trigger] holds_key(entry_for(t, lang)->0, x) == holds_key(entry_for(base, lang)->0, x)
            && (holds_key(entry_for(t, lang)->0, x) ==> entry_for(t, lang)->0[key_pos(entry_for(t, lang)->0, x)].1
                == entry_for(base, lang)->0[key_pos(entry_for(base, lang)->0, x)].1) by {
            lemma_touched_answers(e, key, x);
            assert(holds_key(entry_for(errs, lang)->0, x) == holds_key(entry_for(base, lang)->0, x));
        }
    }
}

proof fn lemma_scan_extend(t: Seq<char>, reps: Seq<Seq<char>>, x: Seq<char>)
    requires
        rebuild_scan(t, reps).2 <= reps.len(),
    ensures
        rebuild_scan(t, reps.push(x)) == rebuild_scan(t, reps),
    decreases t.len(),
{
    if t.len() > 0 {
        let prev = rebuild_scan(t.drop_last(), reps);
        assert(prev.2 <= rebuild_scan(t, reps).2);
        lemma_scan_extend(t.drop_last(), reps, x);
        if !word_char(t.last()) && prev.1.len() > 0 {
            assert(reps.push(x)[prev.2 as int] == reps[prev.2 as int]);
        }
    }
}

/// What is learned is applied: after `mark_correct(typo, correction)`
/// (with the two different once lower-cased), correcting `typo` answers
/// the lower-cased correction from the learned map, provided the current
/// language has a map, `typo` is long enough to be corrected, and looking
/// it up lower-cases it to the same key it was learned under.
pub proof fn law_learned_correction_applies(
    cfg: EngineConfig,
    lang: Seq<char>,
    dicts: Seq<(Seq<char>, Map<Seq<char>, u64>)>,
    errs_before: Seq<(Seq<char>, Seq<(Seq<char>, Seq<char>)>)>,
    errs_after: Seq<(Seq<char>, Seq<(Seq<char>, Seq<char>)>)>,
    typo: Seq<char>,
    correction: Seq<char>,
    r: CorrectionResult,
)
    requires
        entry_for(errs_before, lang) is Some,
        keys_unique(entry_for(errs_before, lang)->0),
        errors_changed(errs_before, errs_after, lang,
            |e: Seq<(Seq<char>, Seq<char>)>| learned_entries(e, typo, correction)),
        spec_to_lowercase(typo) != spec_to_lowercase(correction),
        typo.len() >= cfg.min_word_length,
        spec_to_lowercase(normalized(typo, cfg.case_sensitive)) == spec_to_lowercase(typo),
        correction_matches(cfg, lang, dicts, errs_after, typo, r),
    ensures
        r.corrected matches Some(c) && c@ == spec_to_lowercase(correction),
        r.source == CorrectionSource::UserKnown,
{
    let e = entry_for(errs_before, lang)->0;
    law_put_then_found(e, spec_to_lowercase(typo), spec_to_lowercase(correction), USER_ERROR_CAPACITY as nat);
}

/// A correction from the dictionary differs from the word looked up: it is
/// a word of the dictionary of the current language, which does not hold
/// the looked-up (normalized) word, within the allowed distance of it.
pub proof fn law_dictionary_correction_differs(
    cfg: EngineConfig,
    lang: Seq<char>,
    dicts: Seq<(Seq<char>, Map<Seq<char>, u64>)>,
    errs: Seq<(Seq<char>, Seq<(Seq<char>, Seq<char>)>)>,
    word: Seq<char>,
    r: CorrectionResult,
)
    requires
        correction_matches(cfg, lang, dicts, errs, word, r),
        r.source == CorrectionSource::Dictionary,
    ensures
        entry_for(dicts, lang) is Some,
        r.corrected is Some,
        r.corrected->0@ != normalized(word, cfg.case_sensitive),
        entry_for(dicts, lang)->0.contains_key(r.corrected->0@),
        !entry_for(dicts, lang)->0.contains_key(normalized(word, cfg.case_sensitive)),
        dl_distance(normalized(word, cfg.case_sensitive), r.corrected->0@) <= cfg.max_edit_distance,
{
    let d = entry_for(dicts, lang)->0;
    let wn = normalized(word, cfg.case_sensitive);
    let cv = candidates_view(r.candidates@);
    assert(cv[0] == candidate_view(r.candidates@[0]));
    assert(d.contains_key(cv[0].0));
}

/// A word of the dictionary is left as it is: when nothing was learned for
/// it and the dictionary of the current language holds it (normalized),
/// `correct` answers no correction.
pub proof fn law_dictionary_word_kept(
    cfg: EngineConfig,
    lang: Seq<char>,
    dicts: Seq<(Seq<char>, Map<Seq<char>, u64>)>,
    errs: Seq<(Seq<char>, Seq<(Seq<char>, Seq<char>)>)>,
    word: Seq<char>,
    r: CorrectionResult,
)
    requires
        correction_matches(cfg, lang, dicts, errs, word, r),
        !(entry_for(errs, lang) is Some
            && holds_key(entry_for(errs, lang)->0, spec_to_lowercase(normalized(word, cfg.case_sensitive)))),
        entry_for(dicts, lang) is Some,
        entry_for(dicts, lang)->0.contains_key(normalized(word, cfg.case_sensitive)),
    ensures
        r.corrected is None,
{
}

/// Position of `key` in a list keyed by language, if listed.
fn find_entry<T>(v: &Vec<(String, T)>, key: &str) -> (r: Option<usize>)
    ensures
        match r {
            Some(i) => i < v@.len() && v@[i as int].0@ == key@,
            None => forall|k: int| 0 <= k < v@.len() ==> v@[k].0@ != key@,
        },
{
    let mut i: usize = 0;
    while i < v.len()
        invariant
            i <= v@.len(),
            forall|k: int| 0 <= k < i ==> v@[k].0@ != key@,
        decreases v.len() - i,
    {
        if str_eq(v[i].0.as_str(), key) {
            return Some(i);
        }
        i = i + 1;
    }
    None
}

/// The typo that a new engine knows: "qeu" for "que", in English.
pub open spec fn default_error_maps() -> Seq<(Seq<char>, Seq<(Seq<char>, Seq<char>)>)> {
    seq![("en"@, seq![("qeu"@, "que"@)])]
}

/// Lower-casing a word that is already in small ASCII letters keeps it.
proof fn lemma_lowercase_keeps(s: Seq<char>)
    requires
        forall|i: int| 0 <= i < s.len() ==> 97 <= (#[trigger] s[i] as u32) <= 122,
    ensures
        spec_to_lowercase(s) == s,
{
    lemma_ascii_lowercase(s);
    assert(ascii_lowercase(s) =~= s);
}

/// Main correction engine
pub struct CorrectionEngine {
    config: EngineConfig,
    /// Dictionaries by language
    dictionaries: Vec<(String, Arc<Trie>)>,
    /// Error maps by language
    error_maps: Vec<(String, StaticErrorMap)>,
    /// Current language
    detector: LanguageDetector,
}

impl CorrectionEngine {
    /// The configuration.
    pub closed spec fn settings(&self) -> EngineConfig {
        self.config
    }

    /// The current language.
    pub closed spec fn language(&self) -> Seq<char> {
        self.detector.language()
    }

    /// The dictionaries, by language.
    pub closed spec fn dictionaries(&self) -> Seq<(Seq<char>, Map<Seq<char>, u64>)> {
        self.dictionaries@.map_values(|e: (String, Arc<Trie>)| (e.0@, e.1@))
    }

    /// The learned corrections, by language, most recently used first.
    pub closed spec fn error_maps(&self) -> Seq<(Seq<char>, Seq<(Seq<char>, Seq<char>)>)> {
        self.error_maps@.map_values(|e: (String, StaticErrorMap)| (e.0@, e.1.entries()))
    }

    /// Every dictionary and map is sound, each language is listed once in
    /// each list, and the detector is sound.
    pub closed spec fn wf(&self) -> bool {
        &&& forall|k: int| 0 <= k < self.dictionaries@.len() ==> (#[trigger] self.dictionaries@[k]).1.wf()
        &&& forall|k: int| 0 <= k < self.error_maps@.len() ==> (#[trigger] self.error_maps@[k]).1.wf()
        &&& langs_distinct(self.dictionaries())
        &&& langs_distinct(self.error_maps())
        &&& self.detector.wf()
    }

    /// Create a new engine with configuration
    ///
    /// The engine starts in English and already knows the typo "qeu" for
    /// "que", so that a fresh engine corrects "qeu" to "que".
    pub fn new(config: EngineConfig) -> (e: Self)
        ensures
            e.wf(),
            e.settings() == config,
            e.language() == "en"@,
            e.dictionaries() == Seq::<(Seq<char>, Map<Seq<char>, u64>)>::empty(),
            e.error_maps() == default_error_maps(),
    {
        let mut en = StaticErrorMap::new("en");
        en.insert_static("qeu", "que");
        let mut detector = LanguageDetector::new(5, 5);
        detector.set_language("en");
        let mut error_maps: Vec<(String, StaticErrorMap)> = Vec::new();
        error_maps.push((String::from_str("en"), en));
        let e = CorrectionEngine { config, dictionaries: Vec::new(), error_maps, detector };
        proof {
            reveal_strlit("en");
            reveal_strlit("qeu");
            reveal_strlit("que");
            lemma_lowercase_keeps("qeu"@);
            lemma_lowercase_keeps("que"@);
            assert(put_entry(Seq::empty(), "qeu"@, "que"@, USER_ERROR_CAPACITY as nat) =~= seq![("qeu"@, "que"@)]);
            assert(e.dictionaries() =~= Seq::<(Seq<char>, Map<Seq<char>, u64>)>::empty());
            assert(e.error_maps() =~= default_error_maps());
        }
        e
    }

    /// The configuration the engine corrects with
    pub fn config(&self) -> (c: EngineConfig)
        ensures
            c == self.settings(),
    {
        self.config
    }

    /// Add a dictionary for a language, replacing an earlier one
    pub fn add_dictionary(&mut self, lang: &str, trie: Arc<Trie>)
        requires
            old(self).wf(),
            trie.wf(),
        ensures
            final(self).wf(),
            final(self).settings() == old(self).settings(),
            final(self).language() == old(self).language(),
            final(self).error_maps() == old(self).error_maps(),
            entry_for(final(self).dictionaries(), lang@) == Some(trie@),
            forall|l: Seq<char>| l != lang@ ==> #[trigger] entry_for(final(self).dictionaries(), l) == entry_for(old(self).dictionaries(), l),
    {
        let ghost tv = trie@;
        let ghost old_d = self.dictionaries();
        match find_entry(&self.dictionaries, lang) {
            Some(i) => {
                self.dictionaries.set(i, (String::from_str(lang), trie));
                proof {
                    assert(self.dictionaries() =~= old_d.update(i as int, (lang@, tv)));
                    lemma_replace_entry(old_d, i as int, lang@, tv);
                }
            },
            None => {
                self.dictionaries.push((String::from_str(lang), trie));
                proof {
                    assert(self.dictionaries() =~= old_d.push((lang@, tv)));
                    lemma_append_entry(old_d, lang@, tv);
                }
            },
        }
    }

    /// Add an error map for a language, replacing an earlier one
    pub fn add_error_map(&mut self, map: StaticErrorMap, lang: &str)
        requires
            old(self).wf(),
            map.wf(),
        ensures
            final(self).wf(),
            final(self).settings() == old(self).settings(),
            final(self).language() == old(self).language(),
            final(self).dictionaries() == old(self).dictionaries(),
            entry_for(final(self).error_maps(), lang@) == Some(map.entries()),
            forall|l: Seq<char>| l != lang@ ==> #[trigger] entry_for(final(self).error_maps(), l) == entry_for(old(self).error_maps(), l),
    {
        let ghost mv = map.entries();
        let ghost old_e = self.error_maps();
        match find_entry(&self.error_maps, lang) {
            Some(i) => {
                self.error_maps.set(i, (String::from_str(lang), map));
                proof {
                    assert(self.error_maps() =~= old_e.update(i as int, (lang@, mv)));
                    lemma_replace_entry(old_e, i as int, lang@, mv);
                    assert forall|k: int| 0 <= k < self.error_maps@.len() implies (#[trigger] self.error_maps@[k]).1.wf() by {
                        if k != i {
                            assert(self.error_maps@[k] == old(self).error_maps@[k]);
                        }
                    }
                }
            },
            None => {
                self.error_maps.push((String::from_str(lang), map));
                proof {
                    assert(self.error_maps() =~= old_e.push((lang@, mv)));
                    lemma_append_entry(old_e, lang@, mv);
                    assert forall|k: int| 0 <= k < self.error_maps@.len() implies (#[trigger] self.error_maps@[k]).1.wf() by {
                        if k < old_e.len() {
                            assert(self.error_maps@[k] == old(self).error_maps@[k]);
                        }
                    }
                }
            },
        }
    }

    /// Replace the language detector
    pub fn set_detector(&mut self, detector: LanguageDetector)
        requires
            old(self).wf(),
            detector.wf(),
        ensures
            final(self).wf(),
            final(self).settings() == old(self).settings(),
            final(self).language() == detector.language(),
            final(self).dictionaries() == old(self).dictionaries(),
            final(self).error_maps() == old(self).error_maps(),
    {
        self.detector = detector;
    }

    /// Set the language detector (consuming)
    pub fn with_detector(self, detector: LanguageDetector) -> (e: Self)
        requires
            self.wf(),
            detector.wf(),
        ensures
            e.wf(),
            e.settings() == self.settings(),
            e.language() == detector.language(),
            e.dictionaries() == self.dictionaries(),
            e.error_maps() == self.error_maps(),
    {
        let mut e = self;
        e.detector = detector;
        e
    }

    /// Set the current language
    pub fn set_language(&mut self, lang: &str)
        requires
            old(self).wf(),
        ensures
            final(self).wf(),
            final(self).settings() == old(self).settings(),
            final(self).language() == lang@,
            final(self).dictionaries() == old(self).dictionaries(),
            final(self).error_maps() == old(self).error_maps(),
    {
        self.detector.set_language(lang);
    }

    /// Get current language
    pub fn current_language(&self) -> (l: String)
        ensures
            l@ == self.language(),
    {
        self.detector.get_language()
    }

    /// Looks `key` up in the map of `lang`, if there is one.
    fn lookup_learned(&mut self, lang: &str, key: &str) -> (r: Option<String>)
        requires
            old(self).wf(),
        ensures
            final(self).wf(),
            final(self).settings() == old(self).settings(),
            final(self).language() == old(self).language(),
            final(self).dictionaries() == old(self).dictionaries(),
            final(self).error_maps() == errors_touched(old(self).error_maps(), lang@, spec_to_lowercase(key@)),
            match r {
                Some(c) => entry_for(old(self).error_maps(), lang@) is Some
                    && holds_key(entry_for(old(self).error_maps(), lang@)->0, spec_to_lowercase(key@))
                    && c@ == entry_for(old(self).error_maps(), lang@)->0[key_pos(entry_for(old(self).error_maps(), lang@)->0, spec_to_lowercase(key@))].1,
                None => !(entry_for(old(self).error_maps(), lang@) is Some
                    && holds_key(entry_for(old(self).error_maps(), lang@)->0, spec_to_lowercase(key@))),
            },
    {
        let ghost old_e = self.error_maps();
        match find_entry(&self.error_maps, lang) {
            Some(i) => {
                proof {
                    let k = choose|k: int| 0 <= k < old_e.len() && old_e[k].0 == lang@;
                    assert(old_e[i as int].0 == lang@);
                    assert(k == i);
                }
                let found = self.error_maps[i].1.lookup(key);
                proof {
                    let e = self.error_maps();
                    assert(e =~= errors_touched(old_e, lang@, spec_to_lowercase(key@)));
                    assert forall|a: int, b: int| 0 <= a < b < e.len() implies e[a].0 != e[b].0 by {
                        assert(e[a].0 == old_e[a].0 && e[b].0 == old_e[b].0);
                    }
                }
                found
            },
            None => {
                proof {
                    assert(!(exists|k: int| 0 <= k < old_e.len() && old_e[k].0 == lang@));
                }
                None
            },
        }
    }

    /// Find corrections in dictionary using Damerau-Levenshtein
    fn find_dictionary_corrections(&self, word: &str, dict: &Trie) -> (r: Vec<CorrectionCandidate>)
        requires
            dict.wf(),
            self.config.max_edit_distance < usize::MAX,
        ensures
            dictionary_offers(dict@, word@, self.config.max_edit_distance as int, self.config.max_candidates as int, r@),
    {
        // First try exact match - no typo
        if dict.contains(word) {
            let none: Vec<CorrectionCandidate> = Vec::new();
            return none;
        }

        // Find similar words within max edit distance
        let similar = dict.find_similar(word, self.config.max_edit_distance, self.config.max_candidates);
        let mut out: Vec<CorrectionCandidate> = Vec::new();
        let mut i: usize = 0;
        while i < similar.len()
            invariant
                i <= similar@.len(),
                out@.len() == i,
                forall|k: int| 0 <= k < i ==> candidate_view(#[trigger] out@[k]) == (similar@[k].0@, similar@[k].1, similar@[k].2)
                    && out@[k].source == CorrectionSource::Dictionary,
            decreases similar.len() - i,
        {
            let w = similar[i].0.clone();
            out.push(CorrectionCandidate {
                word: w,
                distance: similar[i].1,
                frequency: similar[i].2,
                source: CorrectionSource::Dictionary,
            });
            i = i + 1;
        }
        proof {
            assert(candidates_view(out@) =~= similar@.map_values(|x: (String, usize, u64)| (x.0@, x.1, x.2)));
        }
        out
    }

    /// Looks `word` up in the dictionary of `lang`, if there is one.
    fn dictionary_candidates(&self, lang: &str, word: &str) -> (r: Option<Vec<CorrectionCandidate>>)
        requires
            self.wf(),
            self.config.max_edit_distance < usize::MAX,
        ensures
            match r {
                Some(c) => entry_for(self.dictionaries(), lang@) is Some
                    && dictionary_offers(entry_for(self.dictionaries(), lang@)->0, word@, self.config.max_edit_distance as int, self.config.max_candidates as int, c@),
                None => entry_for(self.dictionaries(), lang@) is None,
            },
    {
        let ghost d = self.dictionaries();
        match find_entry(&self.dictionaries, lang) {
            Some(j) => {
                proof {
                    let k = choose|k: int| 0 <= k < d.len() && d[k].0 == lang@;
                    assert(d[j as int].0 == lang@);
                    assert(k == j);
                }
                Some(self.find_dictionary_corrections(word, &self.dictionaries[j].1))
            },
            None => {
                proof {
                    assert(!(exists|k: int| 0 <= k < d.len() && d[k].0 == lang@));
                }
                None
            },
        }
    }

    /// Correct a single word
    ///
    /// Returns the best correction if found.
    /// Fails gracefully: never panics, always returns a valid result.
    pub fn correct(&mut self, word: &str) -> (r: CorrectionResult)
        requires
            old(self).wf(),
            old(self).settings().max_edit_distance < usize::MAX,
        ensures
            final(self).wf(),
            final(self).settings() == old(self).settings(),
            final(self).language() == old(self).language(),
            final(self).dictionaries() == old(self).dictionaries(),
            final(self).error_maps() == if word@.len() < old(self).settings().min_word_length {
                old(self).error_maps()
            } else {
                errors_touched(old(self).error_maps(), old(self).language(),
                    spec_to_lowercase(normalized(word@, old(self).settings().case_sensitive)))
            },
            correction_matches(old(self).settings(), old(self).language(), old(self).dictionaries(), old(self).error_maps(), word@, r),
    {
        let chars = chars_of(word);
        // Skip short words
        if chars.len() < self.config.min_word_length {
            return CorrectionResult {
                original: String::from_str(word),
                corrected: None,
                candidates: Vec::new(),
                source: CorrectionSource::NotFound,
            };
        }

        let current_lang = self.detector.get_language();
        let word_normalized = if self.config.case_sensitive {
            String::from_str(word)
        } else {
            to_lowercase(word)
        };

        // Step 1: Check learned error map
        let learned = self.lookup_learned(current_lang.as_str(), word_normalized.as_str());
        match learned {
            Some(correction) => {
                let candidate = CorrectionCandidate {
                    word: correction.clone(),
                    distance: 0,
                    frequency: KNOWN_TYPO_FREQUENCY,
                    source: CorrectionSource::UserKnown,
                };
                return CorrectionResult {
                    original: String::from_str(word),
                    corrected: Some(correction),
                    candidates: vec![candidate],
                    source: CorrectionSource::UserKnown,
                };
            },
            None => {},
        }

        // Step 2: Dictionary lookup with Damerau-Levenshtein
        match self.dictionary_candidates(current_lang.as_str(), word_normalized.as_str()) {
            Some(candidates) => {
                if candidates.len() > 0 {
                    let best = candidates[0].word.clone();
                    return CorrectionResult {
                        original: String::from_str(word),
                        corrected: Some(best),
                        candidates,
                        source: CorrectionSource::Dictionary,
                    };
                }
            },
            None => {},
        }

        // No correction found - fail gracefully
        CorrectionResult {
            original: String::from_str(word),
            corrected: None,
            candidates: Vec::new(),
            source: CorrectionSource::NotFound,
        }
    }

    /// Get all possible corrections for a word (without applying)
    ///
    /// The word is looked up lower-cased.
    #[verifier::rlimit(30)]
    pub fn get_corrections(&mut self, word: &str) -> (r: Vec<CorrectionCandidate>)
        requires
            old(self).wf(),
            old(self).settings().max_edit_distance < usize::MAX,
        ensures
            final(self).wf(),
            final(self).settings() == old(self).settings(),
            final(self).language() == old(self).language(),
            final(self).dictionaries() == old(self).dictionaries(),
            word@.len() < old(self).settings().min_word_length ==> r@.len() == 0 && final(self).error_maps() == old(self).error_maps(),
            word@.len() >= old(self).settings().min_word_length ==> final(self).error_maps()
                == errors_touched(old(self).error_maps(), old(self).language(), spec_to_lowercase(spec_to_lowercase(word@)))
                && suggestions_match(old(self).settings(), old(self).language(), old(self).dictionaries(), old(self).error_maps(), word@, r@),
    {
        let chars = chars_of(word);
        if chars.len() < self.config.min_word_length {
            let none: Vec<CorrectionCandidate> = Vec::new();
            return none;
        }

        let current_lang = self.detector.get_language();
        let word_normalized = to_lowercase(word);
        let ghost dicts = self.dictionaries();
        let ghost wn = word_normalized@;
        let max = self.config.max_candidates;
        let mut candidates: Vec<CorrectionCandidate> = Vec::new();

        // Add learned corrections
        let learned = self.lookup_learned(current_lang.as_str(), word_normalized.as_str());
        let has_learned = learned.is_some();
        match learned {
            Some(correction) => {
                candidates.push(CorrectionCandidate {
                    word: correction,
                    distance: 0,
                    frequency: KNOWN_TYPO_FREQUENCY,
                    source: CorrectionSource::UserKnown,
                });
            },
            None => {},
        }
        let ghost head = candidates@;

        // Add dictionary corrections
        let offered = self.dictionary_candidates(current_lang.as_str(), word_normalized.as_str());
        let ghost ds: Seq<CorrectionCandidate> = if offered is Some { offered->0@ } else { Seq::empty() };
        match offered {
            Some(dict_corrections) => {
                let mut rest = dict_corrections;
                candidates.append(&mut rest);
            },
            None => {},
        }
        proof {
            assert(candidates@ =~= head + ds);
        }

        // Already in order: a learned correction has distance 0 and every
        // dictionary candidate at least 1, and the dictionary lists its
        // candidates by distance, then frequency.
        let ghost full = candidates@;
        candidates.truncate(max);
        proof {
            let r = candidates@;
            let me = self.config.max_edit_distance as int;
            assert(r =~= if full.len() > max { full.subrange(0, max as int) } else { full });
            if ds.len() > 0 {
                let d = entry_for(dicts, current_lang@)->0;
                lemma_offers_not_zero(d, wn, me, max as int, ds);
                assert(similar_listing(d, wn, candidates_view(ds), me, max as int));
            }
            let tail = if has_learned && r.len() > 0 { r.drop_first() } else { r };
            if has_learned && max > 1 {
                assert(tail =~= if ds.len() > max - 1 { ds.subrange(0, max - 1) } else { ds });
                if ds.len() > max - 1 {
                    let d = entry_for(dicts, current_lang@)->0;
                    lemma_similar_truncate(d, wn, me, max as int, max - 1, candidates_view(ds));
                    assert(candidates_view(ds.subrange(0, max - 1)) =~= candidates_view(ds).subrange(0, max - 1));
                }
            } else if !has_learned && max > 0 {
                assert(tail =~= ds);
            }
            let cv = candidates_view(r);
            assert forall|a: int, b: int| 0 <= a < b < cv.len() implies #[trigger] ranks_before(cv[a], cv[b]) by {
                if has_learned && a == 0 {
                    assert(r[b] == ds[b - 1]);
                    assert(ds[b - 1].distance >= 1);
                } else {
                    let off: int = if has_learned { 1 } else { 0 };
                    assert(r[a] == ds[a - off] && r[b] == ds[b - off]);
                    assert(candidates_view(ds)[a - off] == cv[a]);
                    assert(candidates_view(ds)[b - off] == cv[b]);
                    assert(ranks_before(candidates_view(ds)[a - off], candidates_view(ds)[b - off]));
                }
            }
        }
        candidates
    }

    /// Mark a correction as correct (learn)
    pub fn mark_correct(&mut self, typo: &str, correction: &str)
        requires
            old(self).wf(),
        ensures
            final(self).wf(),
            final(self).settings() == old(self).settings(),
            final(self).language() == old(self).language(),
            final(self).dictionaries() == old(self).dictionaries(),
            errors_changed(old(self).error_maps(), final(self).error_maps(), old(self).language(),
                |e: Seq<(Seq<char>, Seq<char>)>| learned_entries(e, typo@, correction@)),
    {
        let current_lang = self.detector.get_language();
        let ghost old_e = self.error_maps();
        match find_entry(&self.error_maps, current_lang.as_str()) {
            Some(i) => {
                let ghost before = self.error_maps@[i as int].1.entries();
                self.error_maps[i].1.learn(typo, correction);
                proof {
                    let after = learned_entries(before, typo@, correction@);
                    assert(self.error_maps() =~= old_e.update(i as int, (current_lang@, after)));
                    lemma_replace_entry(old_e, i as int, current_lang@, after);
                    let k = choose|k: int| 0 <= k < old_e.len() && old_e[k].0 == current_lang@;
                    assert(old_e[i as int].0 == current_lang@);
                    assert(k == i);
                }
            },
            None => {
                proof {
                    assert(!(exists|k: int| 0 <= k < old_e.len() && old_e[k].0 == current_lang@));
                }
            },
        }
    }

    /// Mark a correction as wrong (unlearn)
    pub fn mark_incorrect(&mut self, typo: &str)
        requires
            old(self).wf(),
        ensures
            final(self).wf(),
            final(self).settings() == old(self).settings(),
            final(self).language() == old(self).language(),
            final(self).dictionaries() == old(self).dictionaries(),
            errors_changed(old(self).error_maps(), final(self).error_maps(), old(self).language(),
                |e: Seq<(Seq<char>, Seq<char>)>| without_key(e, spec_to_lowercase(typo@))),
    {
        let current_lang = self.detector.get_language();
        let ghost old_e = self.error_maps();
        match find_entry(&self.error_maps, current_lang.as_str()) {
            Some(i) => {
                let ghost before = self.error_maps@[i as int].1.entries();
                self.error_maps[i].1.unlearn(typo);
                proof {
                    let after = without_key(before, spec_to_lowercase(typo@));
                    assert(self.error_maps() =~= old_e.update(i as int, (current_lang@, after)));
                    lemma_replace_entry(old_e, i as int, current_lang@, after);
                    let k = choose|k: int| 0 <= k < old_e.len() && old_e[k].0 == current_lang@;
                    assert(old_e[i as int].0 == current_lang@);
                    assert(k == i);
                }
            },
            None => {
                proof {
                    assert(!(exists|k: int| 0 <= k < old_e.len() && old_e[k].0 == current_lang@));
                }
            },
        }
    }

    /// The word with its correction, case preserved, or the word itself.
    fn fix_word(&mut self, word: &str) -> (r: String)
        requires
            old(self).wf(),
            old(self).settings().max_edit_distance < usize::MAX,
        ensures
            final(self).wf(),
            final(self).settings() == old(self).settings(),
            final(self).language() == old(self).language(),
            final(self).dictionaries() == old(self).dictionaries(),
            same_answers(final(self).error_maps(), old(self).error_maps(), old(self).language()),
            replacement_ok(old(self).settings(), old(self).language(), old(self).dictionaries(), old(self).error_maps(), word@, r@),
    {
        let ghost errs = self.error_maps();
        let ghost lang = self.language();
        proof {
            self.lemma_errors_unique();
        }
        let correction = self.correct(word);
        proof {
            if word@.len() >= old(self).settings().min_word_length {
                lemma_touch_same_answers(errs, errs, lang, spec_to_lowercase(normalized(word@, old(self).settings().case_sensitive)));
            }
        }
        match correction.corrected {
            Some(corrected) => Self::preserve_case(word, corrected.as_str()),
            None => String::from_str(word),
        }
    }

    /// Each learned map lists each typo once.
    proof fn lemma_errors_unique(&self)
        requires
            self.wf(),
        ensures
            entry_for(self.error_maps(), self.language()) is Some
                ==> crate::correction::static_map::keys_unique(entry_for(self.error_maps(), self.language())->0),
            same_answers(self.error_maps(), self.error_maps(), self.language()),
    {
        let errs = self.error_maps();
        let lang = self.language();
        if exists|k: int| 0 <= k < errs.len() && errs[k].0 == lang {
            let k = choose|k: int| 0 <= k < errs.len() && errs[k].0 == lang;
            assert(self.error_maps@[k].1.wf());
            self.error_maps@[k].1.lemma_keys_unique();
        }
    }

    /// Correct multiple words (text) preserving punctuation
    ///
    /// Every word (a maximal run of letters, digits, `'` and `-`) is
    /// replaced by its correction with the word's case pattern, or kept;
    /// every other character stays in place.
    #[verifier::rlimit(40)]
    pub fn correct_text(&mut self, text: &str) -> (r: String)
        requires
            old(self).wf(),
            old(self).settings().max_edit_distance < usize::MAX,
        ensures
            final(self).wf(),
            final(self).settings() == old(self).settings(),
            final(self).language() == old(self).language(),
            final(self).dictionaries() == old(self).dictionaries(),
            same_answers(final(self).error_maps(), old(self).error_maps(), old(self).language()),
            exists|reps: Seq<Seq<char>>| {
                &&& reps.len() == text_words(text@).len()
                &&& forall|i: int| 0 <= i < reps.len() ==> #[trigger] replacement_ok(old(self).settings(),
                    old(self).language(), old(self).dictionaries(), old(self).error_maps(), text_words(text@)[i], reps[i])
                &&& r@ == rebuilt_text(text@, reps)
            },
    {
        let ghost cfg = self.settings();
        let ghost lang = self.language();
        let ghost dicts = self.dictionaries();
        let ghost errs0 = self.error_maps();
        proof {
            self.lemma_errors_unique();
        }
        let chars = chars_of(text);
        let mut result: Vec<char> = Vec::new();
        let mut current_word: Vec<char> = Vec::new();
        let ghost mut reps: Seq<Seq<char>> = Seq::empty();
        let mut i: usize = 0;
        while i < chars.len()
            invariant
                self.wf(),
                self.settings() == cfg,
                cfg.max_edit_distance < usize::MAX,
                self.language() == lang,
                self.dictionaries() == dicts,
                same_answers(self.error_maps(), errs0, lang),
                chars@ == text@,
                i <= chars@.len(),
                rebuild_scan(chars@.subrange(0, i as int), reps) == (result@, current_word@, reps.len()),
                word_scan(chars@.subrange(0, i as int)) == (word_scan(chars@.subrange(0, i as int)).0, current_word@),
                word_scan(chars@.subrange(0, i as int)).0.len() == reps.len(),
                forall|j: int| 0 <= j < reps.len() ==> #[trigger] replacement_ok(cfg, lang, dicts, errs0,
                    word_scan(chars@.subrange(0, i as int)).0[j], reps[j]),
            decreases chars.len() - i,
        {
            let ch = chars[i];
            let ghost p = chars@.subrange(0, i as int);
            let ghost p1 = chars@.subrange(0, i + 1);
            proof {
                assert(p1.drop_last() =~= p);
                assert(p1.last() == ch);
            }
            if Self::is_word_char(ch) {
                current_word.push(ch);
            } else {
                if current_word.len() > 0 {
                    let w = string_of(&current_word);
                    let ghost errs_now = self.error_maps();
                    let fixed = self.fix_word(w.as_str());
                    proof {
                        lemma_same_answers_match(cfg, lang, dicts, errs_now, errs0, current_word@, fixed@);
                        assert(same_answers(self.error_maps(), errs0, lang));
                        lemma_scan_extend(p, reps, fixed@);
                        reps = reps.push(fixed@);
                    }
                    let mut fixed_chars = chars_of(fixed.as_str());
                    result.append(&mut fixed_chars);
                    current_word.clear();
                }
                result.push(ch);
            }
            proof {
                assert forall|j: int| 0 <= j < reps.len() implies #[trigger] replacement_ok(cfg, lang, dicts, errs0,
                    word_scan(p1).0[j], reps[j]) by {
                    if j < word_scan(p).0.len() {
                        assert(word_scan(p1).0[j] == word_scan(p).0[j]);
                    }
                }
            }
            i = i + 1;
        }
        let ghost t = chars@.subrange(0, i as int);
        proof {
            assert(t =~= text@);
        }
        // Handle last word
        if current_word.len() > 0 {
            let w = string_of(&current_word);
            let ghost errs_now = self.error_maps();
            let fixed = self.fix_word(w.as_str());
            proof {
                lemma_same_answers_match(cfg, lang, dicts, errs_now, errs0, current_word@, fixed@);
                assert(same_answers(self.error_maps(), errs0, lang));
                lemma_scan_extend(t, reps, fixed@);
                reps = reps.push(fixed@);
            }
            let mut fixed_chars = chars_of(fixed.as_str());
            result.append(&mut fixed_chars);
        }
        proof {
            let words = text_words(text@);
            assert(words.len() == reps.len());
            assert forall|j: int| 0 <= j < reps.len() implies #[trigger] replacement_ok(cfg, lang, dicts, errs0,
                words[j], reps[j]) by {
                if j < word_scan(t).0.len() {
                    assert(words[j] == word_scan(t).0[j]);
                }
            }
            assert(result@ == rebuilt_text(text@, reps));
        }
        string_of(&result)
    }

    /// Check if character is part of a word
    fn is_word_char(ch: char) -> (r: bool)
        ensures
            r == word_char(ch),
    {
        is_alphanumeric(ch) || ch == '\'' || ch == '-'
    }

    /// Preserve original case pattern
    pub fn preserve_case(original: &str, corrected: &str) -> (r: String)
        ensures
            r@ == preserved_case(original@, corrected@),
    {
        let original_chars = chars_of(original);
        let corrected_chars = chars_of(corrected);

        if original_chars.len() == 0 || corrected_chars.len() == 0 {
            return String::from_str(corrected);
        }

        // Title case: first letter uppercase
        if is_uppercase(original_chars[0]) {
            let mut out: Vec<char> = Vec::new();
            let mut i: usize = 0;
            while i < corrected_chars.len()
                invariant
                    i <= corrected_chars@.len(),
                    corrected_chars@ == corrected@,
                    corrected@.len() > 0,
                    out@ == preserved_case(original@, corrected@).subrange(0, i as int),
                    spec_is_uppercase(original@[0]),
                    original@.len() > 0,
                decreases corrected_chars.len() - i,
            {
                let c = corrected_chars[i];
                let mapped = if i == 0 { upper_first(c) } else { lower_first(c) };
                out.push(mapped);
                proof {
                    let p = preserved_case(original@, corrected@);
                    assert(p.subrange(0, i + 1) =~= p.subrange(0, i as int).push(p[i as int]));
                }
                i = i + 1;
            }
            proof {
                let p = preserved_case(original@, corrected@);
                assert(p.subrange(0, i as int) =~= p);
            }
            return string_of(&out);
        }

        to_lowercase(corrected)
    }
}

impl Default for CorrectionEngine {
    fn default() -> (e: Self)
        ensures
            e.wf(),
            e.settings().max_edit_distance == 1,
            e.settings().max_candidates == 3,
            e.settings().min_word_length == 2,
            !e.settings().case_sensitive,
            e.language() == "en"@,
            e.dictionaries() == Seq::<(Seq<char>, Map<Seq<char>, u64>)>::empty(),
            e.error_maps() == default_error_maps(),
    {
        Self::new(EngineConfig::default())
    }
}

/// A word is made of letters and digits, apostrophes and hyphens: those
/// characters, and no others, continue a word.
pub proof fn law_word_characters(c: char)
    ensures
        word_char(c) <==> (spec_is_alphanumeric(c) || c == '\'' || c == '-'),
{
}

/// A text made only of letters, digits, apostrophes and hyphens is read as
/// one word: the text is that word, all of it, and is scanned to
/// (no finished word, the text itself).
proof fn lemma_one_run(s: Seq<char>, reps: Seq<Seq<char>>)
    requires
        forall|i: int| 0 <= i < s.len() ==> spec_is_alphanumeric(#[trigger] s[i]) || s[i] == '\'' || s[i] == '-',
    ensures
        word_scan(s) == (Seq::<Seq<char>>::empty(), s),
        rebuild_scan(s, reps) == (Seq::<char>::empty(), s, 0nat),
    decreases s.len(),
{
    if s.len() > 0 {
        let p = s.drop_last();
        assert forall|i: int| 0 <= i < p.len() implies spec_is_alphanumeric(#[trigger] p[i]) || p[i] == '\'' || p[i] == '-' by {
            assert(p[i] == s[i]);
        }
        lemma_one_run(p, reps);
        assert(s.last() == s[s.len() - 1]);
        assert(p.push(s.last()) =~= s);
    } else {
        assert(s =~= Seq::<char>::empty());
    }
}

/// A contraction or hyphenated word is one word: a non-empty text of
/// letters, digits, apostrophes and hyphens has itself as its only word,
/// and correcting the text replaces it whole by the replacement of that
/// one word.
pub proof fn law_contraction_is_one_word(s: Seq<char>, reps: Seq<Seq<char>>)
    requires
        s.len() > 0,
        forall|i: int| 0 <= i < s.len() ==> spec_is_alphanumeric(#[trigger] s[i]) || s[i] == '\'' || s[i] == '-',
    ensures
        text_words(s) == seq![s],
        rebuilt_text(s, reps) == reps[0],
{
    lemma_one_run(s, reps);
    assert(Seq::<Seq<char>>::empty().push(s) =~= seq![s]);
    assert(Seq::<char>::empty() + reps[0] =~= reps[0]);
}

} // verus!
