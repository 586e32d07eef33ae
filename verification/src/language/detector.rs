//! Evidence for language detection: stopword lists per language and a
//! rolling window of recent words.
//!
//! The window and the stopword counts are kept here; weighing the counts
//! into a decision to switch languages is left to the caller.

use vstd::prelude::*;
use crate::base::json::{json_stopwords, stopwords_from_json, strings_view, JsonError};
use crate::base::trie::Trie;
use crate::text::{spec_to_lowercase, str_eq, to_lowercase};

verus! {

/// Stopwords Trie for efficient language detection
///
/// Stores stopwords (common words) for quick language fingerprinting.
pub struct StopwordsTrie {
    trie: Trie,
    stopword_count: usize,
}

impl View for StopwordsTrie {
    type V = Set<Seq<char>>;

    /// The stopwords held.
    closed spec fn view(&self) -> Set<Seq<char>> {
        self.trie@.dom()
    }
}

impl StopwordsTrie {
    /// The trie is sound and the count is its number of words.
    pub closed spec fn wf(&self) -> bool {
        &&& self.trie.wf()
        &&& self.stopword_count == self.trie@.dom().len()
        &&& self.trie@.dom().finite()
    }

    /// Create a new empty StopwordsTrie
    pub fn new() -> (t: Self)
        ensures
            t.wf(),
            t@ == Set::<Seq<char>>::empty(),
    {
        let t = StopwordsTrie { trie: Trie::new(), stopword_count: 0 };
        assert(t.trie@.dom() =~= Set::<Seq<char>>::empty());
        t
    }

    /// Insert a stopword (stored lower-cased, so that lookups ignore case)
    pub fn insert(&mut self, word: &str)
        requires
            old(self).wf(),
            old(self)@.len() < usize::MAX || old(self)@.contains(spec_to_lowercase(word@)),
        ensures
            final(self).wf(),
            final(self)@ == old(self)@.insert(spec_to_lowercase(word@)),
    {
        let lower = to_lowercase(word);
        if !self.trie.contains(lower.as_str()) {
            self.stopword_count += 1;
        }
        self.trie.insert_word(lower.as_str());
        assert(self.trie@.dom() =~= old(self).trie@.dom().insert(lower@));
    }

    /// Check if a word is a stopword (ignoring case)
    pub fn is_stopword(&self, word: &str) -> (r: bool)
        requires
            self.wf(),
        ensures
            r == self@.contains(spec_to_lowercase(word@)),
    {
        let lower = to_lowercase(word);
        self.trie.contains(lower.as_str())
    }

    /// Get the number of stopwords
    pub fn len(&self) -> (n: usize)
        requires
            self.wf(),
        ensures
            n == self@.len(),
    {
        self.stopword_count
    }

    /// Check if empty
    pub fn is_empty(&self) -> (b: bool)
        requires
            self.wf(),
        ensures
            b == (self@.len() == 0),
    {
        self.stopword_count == 0
    }

    /// Load stopwords from JSON string (`{"stopwords": [...]}`)
    pub fn from_json(json: &str) -> (r: Result<Self, JsonError>)
        ensures
            match r {
                Ok(t) => t.wf() && (json_stopwords(json@) matches Some(ws) && t@ == lowercased_set(ws)),
                Err(_) => json_stopwords(json@) is None,
            },
    {
        let words = match stopwords_from_json(json) {
            Ok(words) => words,
            Err(e) => return Err(e),
        };
        let t = Self::from_words(&words);
        proof {
            let ws = strings_view(words@);
            assert(t.wf());
            assert(json_stopwords(json@) == Some(ws));
            assert forall|w: Seq<char>| #[trigger] t@.contains(w) <==> lowercased_set(ws).contains(w) by {
                if t@.contains(w) {
                    let k = choose|k: int| 0 <= k < words@.len() && spec_to_lowercase(words@[k]@) == w;
                    assert(ws[k] == words@[k]@);
                }
                if exists|k: int| 0 <= k < ws.len() && spec_to_lowercase(ws[k]) == w {
                    let k = choose|k: int| 0 <= k < ws.len() && spec_to_lowercase(ws[k]) == w;
                    assert(ws[k] == words@[k]@);
                }
            }
            assert(t@ =~= lowercased_set(ws));
        }
        Ok(t)
    }

    /// Builds the stopword list of the given words.
    pub fn from_words(words: &Vec<String>) -> (t: Self)
        ensures
            t.wf(),
            forall|w: Seq<char>| #[trigger] t@.contains(w) <==> exists|k: int| 0 <= k < words@.len() && spec_to_lowercase(words@[k]@) == w,
    {
        let mut t = StopwordsTrie::new();
        let mut i: usize = 0;
        while i < words.len()
            invariant
                i <= words@.len(),
                t.wf(),
                t@.len() <= i,
                forall|w: Seq<char>| #[trigger] t@.contains(w) <==> exists|k: int| 0 <= k < i && spec_to_lowercase(words@[k]@) == w,
            decreases words.len() - i,
        {
            let ghost before = t@;
            t.insert(words[i].as_str());
            proof {
                assert forall|w: Seq<char>| #[trigger] t@.contains(w) <==> exists|k: int| 0 <= k < i + 1 && spec_to_lowercase(words@[k]@) == w by {
                    if t@.contains(w) && w != spec_to_lowercase(words@[i as int]@) {
                        assert(before.contains(w));
                    }
                    if exists|k: int| 0 <= k < i + 1 && spec_to_lowercase(words@[k]@) == w {
                        let k = choose|k: int| 0 <= k < i + 1 && spec_to_lowercase(words@[k]@) == w;
                        if k < i {
                            assert(before.contains(w));
                        }
                    }
                }
            }
            i = i + 1;
        }
        t
    }
}

impl Default for StopwordsTrie {
    fn default() -> (t: Self)
        ensures
            t.wf(),
            t@ == Set::<Seq<char>>::empty(),
    {
        Self::new()
    }
}

/// The words of `ws`, lower-cased, as a set.
pub open spec fn lowercased_set(ws: Seq<Seq<char>>) -> Set<Seq<char>> {
    Set::new(|w: Seq<char>| exists|k: int| 0 <= k < ws.len() && spec_to_lowercase(ws[k]) == w)
}

/// How many words of the window are stopwords of the list (each word
/// compared ignoring case).
pub open spec fn hits(window: Seq<Seq<char>>, stops: Set<Seq<char>>) -> nat
    decreases window.len(),
{
    if window.len() == 0 {
        0
    } else {
        hits(window.drop_last(), stops) + if stops.contains(spec_to_lowercase(window.last())) { 1nat } else { 0nat }
    }
}

proof fn lemma_hits_bound(window: Seq<Seq<char>>, stops: Set<Seq<char>>)
    ensures
        hits(window, stops) <= window.len(),
    decreases window.len(),
{
    if window.len() > 0 {
        lemma_hits_bound(window.drop_last(), stops);
    }
}

/// No language is listed twice.
pub open spec fn languages_distinct(l: Seq<(Seq<char>, Set<Seq<char>>)>) -> bool {
    forall|a: int, b: int| 0 <= a < b < l.len() ==> l[a].0 != l[b].0
}

/// The window after `word` (lower-cased) joins a window holding at most
/// `limit` words: the oldest word leaves when there are more.
pub open spec fn window_after(window: Seq<Seq<char>>, word: Seq<char>, limit: nat) -> Seq<Seq<char>> {
    let pushed = window.push(spec_to_lowercase(word));
    if pushed.len() > limit {
        pushed.drop_first()
    } else {
        pushed
    }
}

/// The window after each of `words` joins it in turn (see `window_after`).
pub open spec fn window_after_all(window: Seq<Seq<char>>, words: Seq<Seq<char>>, limit: nat) -> Seq<Seq<char>>
    decreases words.len(),
{
    if words.len() == 0 {
        window
    } else {
        window_after(window_after_all(window, words.drop_last(), limit), words.last(), limit)
    }
}

/// The words of the window followed by `words`, lower-cased.
pub open spec fn window_history(window: Seq<Seq<char>>, words: Seq<Seq<char>>) -> Seq<Seq<char>> {
    window + words.map_values(|w: Seq<char>| spec_to_lowercase(w))
}

/// However many words are pushed, the window holds the latest of them,
/// lower-cased and in order, as many as its limit allows and no more.
pub proof fn law_window_keeps_latest(window: Seq<Seq<char>>, words: Seq<Seq<char>>, limit: nat)
    requires
        window.len() <= limit,
    ensures
        ({
            let all = window_history(window, words);
            let n: int = if all.len() < limit { all.len() as int } else { limit as int };
            window_after_all(window, words, limit) == all.subrange(all.len() - n, all.len() as int)
        }),
        window_after_all(window, words, limit).len() <= limit,
    decreases words.len(),
{
    let all = window_history(window, words);
    if words.len() == 0 {
        assert(all =~= window);
        assert(all.subrange(0, all.len() as int) =~= all);
    } else {
        let p = words.drop_last();
        law_window_keeps_latest(window, p, limit);
        let prev_all = window_history(window, p);
        assert(all =~= prev_all.push(spec_to_lowercase(words.last())));
        let pn: int = if prev_all.len() < limit { prev_all.len() as int } else { limit as int };
        let prev = prev_all.subrange(prev_all.len() - pn, prev_all.len() as int);
        let pushed = prev.push(spec_to_lowercase(words.last()));
        assert(pushed =~= all.subrange(prev_all.len() - pn, all.len() as int));
        if pushed.len() > limit {
            assert(pushed.drop_first() =~= all.subrange(all.len() - limit, all.len() as int));
        }
    }
}

/// Rolling window of recent words and the stopword lists of the languages
/// it is weighed against.
pub struct LanguageDetector {
    window_size: usize,
    min_words_before_switch: usize,
    /// Rolling window of recent words
    word_window: Vec<String>,
    /// Stopwords lists by language, in the order they were added
    stopwords_tries: Vec<(String, StopwordsTrie)>,
    /// Current detected language
    current_language: String,
}

impl LanguageDetector {
    /// The current language.
    pub closed spec fn language(&self) -> Seq<char> {
        self.current_language@
    }

    /// The words of the window, oldest first.
    pub closed spec fn window(&self) -> Seq<Seq<char>> {
        self.word_window@.map_values(|w: String| w@)
    }

    /// The languages with their stopwords, in the order they were added.
    pub closed spec fn languages(&self) -> Seq<(Seq<char>, Set<Seq<char>>)> {
        self.stopwords_tries@.map_values(|e: (String, StopwordsTrie)| (e.0@, e.1@))
    }

    /// How many words the window holds at most.
    pub closed spec fn window_limit(&self) -> nat {
        self.window_size as nat
    }

    /// How many words the window must hold before a switch is considered.
    pub closed spec fn min_words(&self) -> nat {
        self.min_words_before_switch as nat
    }

    /// The stopword lists are sound, each language is listed once, and the
    /// window is within its limit.
    pub closed spec fn wf(&self) -> bool {
        &&& forall|k: int| 0 <= k < self.stopwords_tries@.len() ==> (#[trigger] self.stopwords_tries@[k]).1.wf()
        &&& languages_distinct(self.languages())
        &&& self.word_window@.len() <= self.window_size
    }

    /// Create a detector whose window holds `window_size` words and which
    /// weighs a switch once `min_words_before_switch` words are in it
    pub fn new(window_size: usize, min_words_before_switch: usize) -> (d: Self)
        ensures
            d.wf(),
            d.language() == Seq::<char>::empty(),
            d.window() == Seq::<Seq<char>>::empty(),
            d.languages() == Seq::<(Seq<char>, Set<Seq<char>>)>::empty(),
            d.window_limit() == window_size,
            d.min_words() == min_words_before_switch,
    {
        let d = LanguageDetector {
            window_size,
            min_words_before_switch,
            word_window: Vec::new(),
            stopwords_tries: Vec::new(),
            current_language: String::new(),
        };
        assert(d.window() =~= Seq::<Seq<char>>::empty());
        assert(d.languages() =~= Seq::<(Seq<char>, Set<Seq<char>>)>::empty());
        d
    }

    /// Position of `lang` among the languages, if listed.
    fn find_language(&self, lang: &str) -> (r: Option<usize>)
        requires
            self.wf(),
        ensures
            match r {
                Some(i) => i < self.languages().len() && self.languages()[i as int].0 == lang@,
                None => forall|k: int| 0 <= k < self.languages().len() ==> self.languages()[k].0 != lang@,
            },
    {
        let mut i: usize = 0;
        while i < self.stopwords_tries.len()
            invariant
                i <= self.stopwords_tries@.len(),
                forall|k: int| 0 <= k < i ==> self.languages()[k].0 != lang@,
            decreases self.stopwords_tries.len() - i,
        {
            if str_eq(self.stopwords_tries[i].0.as_str(), lang) {
                return Some(i);
            }
            i = i + 1;
        }
        None
    }

    /// Add a stopwords list for a language, replacing an earlier one
    pub fn add_language(&mut self, lang: &str, stopwords: StopwordsTrie)
        requires
            old(self).wf(),
            stopwords.wf(),
        ensures
            final(self).wf(),
            final(self).language() == old(self).language(),
            final(self).window() == old(self).window(),
            final(self).window_limit() == old(self).window_limit(),
            final(self).min_words() == old(self).min_words(),
            final(self).languages() == if exists|k: int| 0 <= k < old(self).languages().len() && old(self).languages()[k].0 == lang@ {
                old(self).languages().update(
                    choose|k: int| 0 <= k < old(self).languages().len() && old(self).languages()[k].0 == lang@,
                    (lang@, stopwords@),
                )
            } else {
                old(self).languages().push((lang@, stopwords@))
            },
    {
        let ghost sw = stopwords@;
        match self.find_language(lang) {
            Some(i) => {
                let ghost old_l = self.languages();
                self.stopwords_tries.set(i, (String::from_str(lang), stopwords));
                proof {
                    let k = choose|k: int| 0 <= k < old_l.len() && old_l[k].0 == lang@;
                    assert(k == i);
                    assert(self.languages() =~= old_l.update(i as int, (lang@, sw)));
                }
            },
            None => {
                let ghost old_l = self.languages();
                self.stopwords_tries.push((String::from_str(lang), stopwords));
                proof {
                    assert(self.languages() =~= old_l.push((lang@, sw)));
                }
            },
        }
    }

    /// Set the current language (initial state)
    pub fn set_language(&mut self, lang: &str)
        ensures
            final(self).language() == lang@,
            final(self).window() == old(self).window(),
            final(self).languages() == old(self).languages(),
            final(self).window_limit() == old(self).window_limit(),
            final(self).min_words() == old(self).min_words(),
            old(self).wf() ==> final(self).wf(),
    {
        self.current_language = String::from_str(lang);
    }

    /// Get the current detected language
    pub fn get_language(&self) -> (l: String)
        ensures
            l@ == self.language(),
    {
        self.current_language.clone()
    }

    /// Add a word (lower-cased) to the window, dropping the oldest word
    /// when the window is over its limit
    pub fn push_word(&mut self, word: &str)
        requires
            old(self).wf(),
        ensures
            final(self).wf(),
            final(self).window() == window_after(old(self).window(), word@, old(self).window_limit()),
            final(self).language() == old(self).language(),
            final(self).languages() == old(self).languages(),
            final(self).window_limit() == old(self).window_limit(),
            final(self).min_words() == old(self).min_words(),
    {
        let word_lower = to_lowercase(word);
        let ghost w0 = self.window();
        self.word_window.push(word_lower);
        proof {
            assert(self.window() =~= w0.push(spec_to_lowercase(word@)));
        }
        if self.word_window.len() > self.window_size {
            let ghost w1 = self.window();
            self.word_window.remove(0);
            proof {
                assert(self.window() =~= w1.drop_first());
            }
        }
    }

    /// Whether the window holds enough words to weigh a switch
    pub fn has_enough_words(&self) -> (r: bool)
        ensures
            r == (self.window().len() >= self.min_words()),
    {
        self.word_window.len() >= self.min_words_before_switch
    }

    /// How many words of the window are stopwords of `stops`.
    fn count_hits(&self, stops: &StopwordsTrie) -> (n: usize)
        requires
            stops.wf(),
        ensures
            n == hits(self.window(), stops@),
    {
        let mut n: usize = 0;
        let mut i: usize = 0;
        while i < self.word_window.len()
            invariant
                stops.wf(),
                i <= self.word_window@.len(),
                n == hits(self.window().subrange(0, i as int), stops@),
            decreases self.word_window.len() - i,
        {
            proof {
                let s = self.window().subrange(0, i + 1);
                assert(s.drop_last() =~= self.window().subrange(0, i as int));
                assert(s.last() == self.word_window@[i as int]@);
                lemma_hits_bound(self.window().subrange(0, i as int), stops@);
            }
            if stops.is_stopword(self.word_window[i].as_str()) {
                n = n + 1;
            }
            i = i + 1;
        }
        proof {
            assert(self.window().subrange(0, i as int) =~= self.window());
        }
        n
    }

    /// For each language, in order, how many words of the window are its
    /// stopwords
    pub fn stopword_hits(&self) -> (r: Vec<(String, usize)>)
        requires
            self.wf(),
        ensures
            r@.len() == self.languages().len(),
            forall|k: int| 0 <= k < r@.len() ==> (#[trigger] r@[k]).0@ == self.languages()[k].0
                && r@[k].1 == hits(self.window(), self.languages()[k].1),
    {
        let mut r: Vec<(String, usize)> = Vec::new();
        let mut i: usize = 0;
        while i < self.stopwords_tries.len()
            invariant
                self.wf(),
                i <= self.stopwords_tries@.len(),
                r@.len() == i,
                forall|k: int| 0 <= k < i ==> (#[trigger] r@[k]).0@ == self.languages()[k].0
                    && r@[k].1 == hits(self.window(), self.languages()[k].1),
            decreases self.stopwords_tries.len() - i,
        {
            let n = self.count_hits(&self.stopwords_tries[i].1);
            r.push((self.stopwords_tries[i].0.clone(), n));
            i = i + 1;
        }
        r
    }

    /// The language whose stopwords fill the window most, the first of
    /// them on a tie, with its number of hits; `None` when no language has
    /// a list
    pub fn leading_language(&self) -> (r: Option<(String, usize)>)
        requires
            self.wf(),
        ensures
            r is None <==> self.languages().len() == 0,
            r matches Some(p) ==> exists|k: int| #![trigger self.languages()[k]]
                0 <= k < self.languages().len()
                && self.languages()[k].0 == p.0@
                && p.1 == hits(self.window(), self.languages()[k].1)
                && (forall|j: int| 0 <= j < k ==> #[trigger] hits(self.window(), self.languages()[j].1) < p.1)
                && (forall|j: int| 0 <= j < self.languages().len() ==> #[trigger] hits(self.window(), self.languages()[j].1) <= p.1),
    {
        let scores = self.stopword_hits();
        if scores.len() == 0 {
            return None;
        }
        let mut best: usize = 0;
        let mut i: usize = 1;
        while i < scores.len()
            invariant
                scores@.len() == self.languages().len(),
                forall|k: int| 0 <= k < scores@.len() ==> (#[trigger] scores@[k]).0@ == self.languages()[k].0
                    && scores@[k].1 == hits(self.window(), self.languages()[k].1),
                1 <= i <= scores@.len(),
                best < i,
                forall|j: int| 0 <= j < best ==> scores@[j].1 < scores@[best as int].1,
                forall|j: int| 0 <= j < i ==> scores@[j].1 <= scores@[best as int].1,
            decreases scores.len() - i,
        {
            if scores[i].1 > scores[best].1 {
                best = i;
            }
            i = i + 1;
        }
        let name = scores[best].0.clone();
        proof {
            let k = best as int;
            assert(scores@[k].0@ == self.languages()[k].0);
            assert forall|j: int| 0 <= j < k implies #[trigger] hits(self.window(), self.languages()[j].1) < scores@[k].1 by {
                assert(scores@[j].1 == hits(self.window(), self.languages()[j].1));
            }
            assert forall|j: int| 0 <= j < self.languages().len() implies #[trigger] hits(self.window(), self.languages()[j].1)
                <= scores@[k].1 by {
                assert(scores@[j].1 == hits(self.window(), self.languages()[j].1));
            }
        }
        Some((name, scores[best].1))
    }

    /// How many words of the window are stopwords of the current language
    /// (0 when it has no list)
    pub fn current_hits(&self) -> (n: usize)
        requires
            self.wf(),
        ensures
            n == if exists|k: int| 0 <= k < self.languages().len() && self.languages()[k].0 == self.language() {
                hits(self.window(), self.languages()[choose|k: int| 0 <= k < self.languages().len() && self.languages()[k].0 == self.language()].1)
            } else {
                0
            },
    {
        match self.find_language(self.current_language.as_str()) {
            Some(i) => {
                proof {
                    let k = choose|k: int| 0 <= k < self.languages().len() && self.languages()[k].0 == self.language();
                    assert(k == i);
                }
                self.count_hits(&self.stopwords_tries[i].1)
            },
            None => 0,
        }
    }

    /// Reset the word window
    pub fn reset(&mut self)
        requires
            old(self).wf(),
        ensures
            final(self).wf(),
            final(self).window() == Seq::<Seq<char>>::empty(),
            final(self).language() == old(self).language(),
            final(self).languages() == old(self).languages(),
            final(self).window_limit() == old(self).window_limit(),
            final(self).min_words() == old(self).min_words(),
    {
        self.word_window.clear();
        assert(self.window() =~= Seq::<Seq<char>>::empty());
    }

    /// Get window contents
    pub fn get_window(&self) -> (r: Vec<String>)
        ensures
            r@.map_values(|w: String| w@) == self.window(),
    {
        self.word_window.clone()
    }

    /// Get the number of words in the window
    pub fn window_len(&self) -> (n: usize)
        ensures
            n == self.window().len(),
    {
        self.word_window.len()
    }
}

/// Every word of the window that is a stopword counts, repeated ones too:
/// one more word adds one hit exactly when it is a stopword, whatever the
/// window held before.
pub proof fn law_hits_count_every_word(window: Seq<Seq<char>>, word: Seq<char>, stops: Set<Seq<char>>)
    ensures
        hits(window.push(word), stops) == hits(window, stops) + if stops.contains(spec_to_lowercase(word)) { 1int } else { 0int },
{
    assert(window.push(word).drop_last() =~= window);
}

/// A window of stopwords only has as many hits as it has words, however
/// often a stopword repeats.
pub proof fn law_all_stopwords_all_hits(window: Seq<Seq<char>>, stops: Set<Seq<char>>)
    requires
        forall|i: int| 0 <= i < window.len() ==> stops.contains(spec_to_lowercase(#[trigger] window[i])),
    ensures
        hits(window, stops) == window.len(),
    decreases window.len(),
{
    if window.len() > 0 {
        let p = window.drop_last();
        assert forall|i: int| 0 <= i < p.len() implies stops.contains(spec_to_lowercase(#[trigger] p[i])) by {
            assert(p[i] == window[i]);
        }
        law_all_stopwords_all_hits(p, stops);
        assert(window.last() == window[window.len() - 1]);
    }
}

} // verus!
