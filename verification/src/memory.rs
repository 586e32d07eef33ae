//! Memory profiling utilities
//!
//! Keeps memory samples and dictionary size estimates; the samples
//! themselves are read from the operating system by the caller.

use vstd::prelude::*;
use crate::text::{chars_of, is_whitespace, spec_is_whitespace, str_eq};

verus! {

/// Memory statistics
#[derive(Debug, Clone, Copy)]
pub struct MemoryStats {
    /// Resident Set Size in bytes
    pub rss: usize,
    /// Heap usage in bytes (estimated)
    pub heap_used: usize,
    /// Virtual memory size in bytes
    pub virtual_size: usize,
}

impl MemoryStats {
    /// Create new empty memory stats
    pub fn new() -> (s: Self)
        ensures
            s.rss == 0,
            s.heap_used == 0,
            s.virtual_size == 0,
    {
        MemoryStats { rss: 0, heap_used: 0, virtual_size: 0 }
    }
}

impl Default for MemoryStats {
    fn default() -> (s: Self)
        ensures
            s.rss == 0,
            s.heap_used == 0,
            s.virtual_size == 0,
    {
        Self::new()
    }
}

/// Statistics with every figure 0.
pub open spec fn zero_stats() -> MemoryStats {
    MemoryStats { rss: 0, heap_used: 0, virtual_size: 0 }
}

/// Sum of the resident sizes of the samples.
pub open spec fn sum_rss(s: Seq<MemoryStats>) -> nat
    decreases s.len(),
{
    if s.len() == 0 { 0 } else { sum_rss(s.drop_last()) + s.last().rss as nat }
}

/// Sum of the heap sizes of the samples.
pub open spec fn sum_heap(s: Seq<MemoryStats>) -> nat
    decreases s.len(),
{
    if s.len() == 0 { 0 } else { sum_heap(s.drop_last()) + s.last().heap_used as nat }
}

/// Sum of the virtual sizes of the samples.
pub open spec fn sum_virtual(s: Seq<MemoryStats>) -> nat
    decreases s.len(),
{
    if s.len() == 0 { 0 } else { sum_virtual(s.drop_last()) + s.last().virtual_size as nat }
}

/// `a - b`, or 0 when `b` is larger.
pub open spec fn minus_or_zero(a: usize, b: usize) -> usize {
    if a >= b { (a - b) as usize } else { 0 }
}

proof fn lemma_sums_bound(s: Seq<MemoryStats>)
    ensures
        sum_rss(s) <= s.len() * usize::MAX,
        sum_heap(s) <= s.len() * usize::MAX,
        sum_virtual(s) <= s.len() * usize::MAX,
    decreases s.len(),
{
    if s.len() > 0 {
        lemma_sums_bound(s.drop_last());
        assert((s.len() - 1) * usize::MAX + usize::MAX == s.len() * usize::MAX) by (nonlinear_arith);
    }
}

/// The sample with the highest resident size among `s`, the earliest of
/// equal ones (all zero when no sample is above zero).
pub open spec fn running_peak(s: Seq<MemoryStats>) -> MemoryStats
    decreases s.len(),
{
    if s.len() == 0 {
        zero_stats()
    } else {
        let p = running_peak(s.drop_last());
        if s.last().rss > p.rss { s.last() } else { p }
    }
}

/// The peak a tracker reports is at least every sample taken since it was
/// started, and is one of them unless all are zero.
pub proof fn law_peak_covers_samples(s: Seq<MemoryStats>)
    ensures
        forall|k: int| 0 <= k < s.len() ==> running_peak(s).rss >= (#[trigger] s[k]).rss,
        running_peak(s) == zero_stats() || exists|k: int| 0 <= k < s.len() && s[k] == running_peak(s),
    decreases s.len(),
{
    if s.len() > 0 {
        let t = s.drop_last();
        law_peak_covers_samples(t);
        assert forall|k: int| 0 <= k < s.len() implies running_peak(s).rss >= (#[trigger] s[k]).rss by {
            if k < s.len() - 1 {
                assert(s[k] == t[k]);
            }
        }
        if running_peak(s) != zero_stats() && running_peak(s) != s.last() {
            let k = choose|k: int| 0 <= k < t.len() && t[k] == running_peak(t);
            assert(s[k] == t[k]);
        }
    }
}

/// Memory tracker for benchmarking
#[derive(Debug, Clone)]
pub struct MemoryTracker {
    /// Initial memory baseline
    baseline: Option<MemoryStats>,
    /// Peak memory observed
    peak: MemoryStats,
    /// Samples collected
    samples: Vec<MemoryStats>,
}

impl MemoryTracker {
    /// The baseline, once started.
    pub closed spec fn start_point(&self) -> Option<MemoryStats> {
        self.baseline
    }

    /// The sample with the highest resident size seen since the start
    /// (all zero before any larger one).
    pub closed spec fn highest(&self) -> MemoryStats {
        self.peak
    }

    /// The samples, oldest first.
    pub closed spec fn sampled(&self) -> Seq<MemoryStats> {
        self.samples@
    }

    /// The peak is the running peak of the samples.
    pub open spec fn wf(&self) -> bool {
        self.highest() == running_peak(self.sampled())
    }

    /// Create a new memory tracker
    pub fn new() -> (t: Self)
        ensures
            t.wf(),
            t.start_point() is None,
            t.highest() == zero_stats(),
            t.sampled() == Seq::<MemoryStats>::empty(),
    {
        MemoryTracker { baseline: None, peak: MemoryStats::new(), samples: Vec::new() }
    }

    /// Start tracking with `current` as the baseline
    pub fn start(&mut self, current: MemoryStats)
        ensures
            final(self).wf(),
            final(self).start_point() == Some(current),
            final(self).highest() == zero_stats(),
            final(self).sampled() == Seq::<MemoryStats>::empty(),
    {
        self.baseline = Some(current);
        self.peak = MemoryStats::new();
        self.samples.clear();
    }

    /// Record a memory sample
    pub fn sample(&mut self, current: MemoryStats)
        requires
            old(self).wf(),
        ensures
            final(self).wf(),
            final(self).start_point() == old(self).start_point(),
            final(self).sampled() == old(self).sampled().push(current),
            final(self).highest() == if current.rss > old(self).highest().rss { current } else { old(self).highest() },
    {
        let ghost before = self.samples@;
        self.samples.push(current);
        proof {
            assert(self.samples@.drop_last() =~= before);
        }
        if current.rss > self.peak.rss {
            self.peak = current;
        }
    }

    /// Get memory increase since baseline
    pub fn increase(&self) -> (r: Option<MemoryStats>)
        ensures
            match (self.start_point(), r) {
                (Some(b), Some(d)) => self.sampled().len() > 0
                    && d.rss == minus_or_zero(self.sampled().last().rss, b.rss)
                    && d.heap_used == minus_or_zero(self.sampled().last().heap_used, b.heap_used)
                    && d.virtual_size == minus_or_zero(self.sampled().last().virtual_size, b.virtual_size),
                (Some(b), None) => self.sampled().len() == 0,
                (None, r) => r is None,
            },
    {
        let baseline = match self.baseline {
            Some(b) => b,
            None => {
                return None;
            },
        };
        if self.samples.len() == 0 {
            return None;
        }
        let current = self.samples[self.samples.len() - 1];
        Some(MemoryStats {
            rss: current.rss.saturating_sub(baseline.rss),
            heap_used: current.heap_used.saturating_sub(baseline.heap_used),
            virtual_size: current.virtual_size.saturating_sub(baseline.virtual_size),
        })
    }

    /// Get peak memory
    pub fn peak_memory(&self) -> (p: MemoryStats)
        ensures
            p == self.highest(),
    {
        self.peak
    }

    /// Get all samples
    pub fn samples(&self) -> (s: &[MemoryStats])
        ensures
            s@ == self.sampled(),
    {
        self.samples.as_slice()
    }

    /// Get average memory: each figure summed over the samples and divided
    /// by their number, rounded down
    pub fn average(&self) -> (r: Option<MemoryStats>)
        ensures
            self.sampled().len() == 0 ==> r is None,
            self.sampled().len() > 0 ==> (r matches Some(a)
                && a.rss == sum_rss(self.sampled()) / self.sampled().len()
                && a.heap_used == sum_heap(self.sampled()) / self.sampled().len()
                && a.virtual_size == sum_virtual(self.sampled()) / self.sampled().len()),
    {
        let n = self.samples.len();
        if n == 0 {
            return None;
        }
        let mut rss: u128 = 0;
        let mut heap: u128 = 0;
        let mut virt: u128 = 0;
        let mut i: usize = 0;
        while i < n
            invariant
                n == self.samples@.len(),
                i <= n,
                rss == sum_rss(self.samples@.subrange(0, i as int)),
                heap == sum_heap(self.samples@.subrange(0, i as int)),
                virt == sum_virtual(self.samples@.subrange(0, i as int)),
            decreases n - i,
        {
            proof {
                let s = self.samples@.subrange(0, i + 1);
                assert(s.drop_last() =~= self.samples@.subrange(0, i as int));
                lemma_sums_bound(s);
                assert(s.len() * usize::MAX <= usize::MAX * usize::MAX) by (nonlinear_arith)
                    requires s.len() <= usize::MAX;
                assert(usize::MAX * usize::MAX < u128::MAX) by (nonlinear_arith)
                    requires usize::MAX <= u64::MAX;
            }
            let s = self.samples[i];
            rss = rss + s.rss as u128;
            heap = heap + s.heap_used as u128;
            virt = virt + s.virtual_size as u128;
            i = i + 1;
        }
        proof {
            assert(self.samples@.subrange(0, n as int) =~= self.samples@);
            lemma_sums_bound(self.samples@);
            assert(rss / (n as u128) <= usize::MAX) by (nonlinear_arith)
                requires rss <= n * usize::MAX, n > 0;
            assert(heap / (n as u128) <= usize::MAX) by (nonlinear_arith)
                requires heap <= n * usize::MAX, n > 0;
            assert(virt / (n as u128) <= usize::MAX) by (nonlinear_arith)
                requires virt <= n * usize::MAX, n > 0;
        }
        Some(MemoryStats {
            rss: (rss / (n as u128)) as usize,
            heap_used: (heap / (n as u128)) as usize,
            virtual_size: (virt / (n as u128)) as usize,
        })
    }
}

impl Default for MemoryTracker {
    fn default() -> (t: Self)
        ensures
            t.start_point() is None,
            t.highest() == zero_stats(),
            t.sampled() == Seq::<MemoryStats>::empty(),
    {
        Self::new()
    }
}

/// Bytes taken to hold one word beyond its characters.
pub const WORD_OVERHEAD: usize = 64;

/// The estimated size of a dictionary.
pub open spec fn dictionary_estimate(word_count: usize, avg_word_len: usize) -> int {
    word_count * (avg_word_len + WORD_OVERHEAD)
}

/// Sum of the estimates.
pub open spec fn sum_estimates(e: Seq<(Seq<char>, usize)>) -> nat
    decreases e.len(),
{
    if e.len() == 0 { 0 } else { sum_estimates(e.drop_last()) + e.last().1 as nat }
}

/// Track dictionary memory usage
#[derive(Debug, Clone)]
pub struct DictionaryMemoryTracker {
    dictionaries: Vec<(String, usize)>, // lang -> estimated_size
}

impl DictionaryMemoryTracker {
    /// The estimated size of each language's dictionary, in the order the
    /// languages were first added.
    pub closed spec fn estimates(&self) -> Seq<(Seq<char>, usize)> {
        self.dictionaries@.map_values(|e: (String, usize)| (e.0@, e.1))
    }

    /// Each language is listed once.
    pub closed spec fn wf(&self) -> bool {
        forall|a: int, b: int| 0 <= a < b < self.estimates().len() ==> self.estimates()[a].0 != self.estimates()[b].0
    }

    /// Create new tracker
    pub fn new() -> (t: Self)
        ensures
            t.wf(),
            t.estimates() == Seq::<(Seq<char>, usize)>::empty(),
    {
        let t = DictionaryMemoryTracker { dictionaries: Vec::new() };
        assert(t.estimates() =~= Seq::<(Seq<char>, usize)>::empty());
        t
    }

    /// Add a dictionary, or replace the estimate of one already added
    ///
    /// Rough estimate: each word entry takes its characters plus
    /// `WORD_OVERHEAD` bytes.
    pub fn add_dictionary(&mut self, lang: &str, word_count: usize, avg_word_len: usize)
        requires
            old(self).wf(),
            avg_word_len + WORD_OVERHEAD <= usize::MAX,
            dictionary_estimate(word_count, avg_word_len) <= usize::MAX,
        ensures
            final(self).wf(),
            final(self).estimates() == if exists|k: int| 0 <= k < old(self).estimates().len() && old(self).estimates()[k].0 == lang@ {
                old(self).estimates().update(
                    choose|k: int| 0 <= k < old(self).estimates().len() && old(self).estimates()[k].0 == lang@,
                    (lang@, dictionary_estimate(word_count, avg_word_len) as usize),
                )
            } else {
                old(self).estimates().push((lang@, dictionary_estimate(word_count, avg_word_len) as usize))
            },
    {
        let estimated: usize = word_count * (avg_word_len + WORD_OVERHEAD);
        let ghost old_e = self.estimates();
        let mut i: usize = 0;
        while i < self.dictionaries.len()
            invariant
                i <= self.dictionaries@.len(),
                self.estimates() == old_e,
                old(self).wf(),
                old_e == old(self).estimates(),
                estimated as int == dictionary_estimate(word_count, avg_word_len),
                forall|k: int| 0 <= k < i ==> old_e[k].0 != lang@,
            decreases self.dictionaries.len() - i,
        {
            if str_eq(self.dictionaries[i].0.as_str(), lang) {
                self.dictionaries.set(i, (String::from_str(lang), estimated));
                proof {
                    assert(old_e[i as int].0 == lang@);
                    let k = choose|k: int| 0 <= k < old_e.len() && old_e[k].0 == lang@;
                    assert(k == i);
                    let ne = self.estimates();
                    assert(ne =~= old_e.update(i as int, (lang@, estimated)));
                    assert forall|a: int, b: int| 0 <= a < b < ne.len() implies ne[a].0 != ne[b].0 by {
                        assert(ne[a].0 == old_e[a].0 && ne[b].0 == old_e[b].0);
                    }
                }
                return;
            }
            i = i + 1;
        }
        self.dictionaries.push((String::from_str(lang), estimated));
        proof {
            let ne = self.estimates();
            assert(ne =~= old_e.push((lang@, estimated)));
            assert forall|a: int, b: int| 0 <= a < b < ne.len() implies ne[a].0 != ne[b].0 by {
                if b < old_e.len() {
                    assert(ne[a].0 == old_e[a].0 && ne[b].0 == old_e[b].0);
                } else {
                    assert(ne[a].0 == old_e[a].0);
                }
            }
        }
    }

    /// Get total estimated memory
    pub fn total_memory(&self) -> (t: usize)
        requires
            sum_estimates(self.estimates()) <= usize::MAX,
        ensures
            t == sum_estimates(self.estimates()),
    {
        let mut total: usize = 0;
        let mut i: usize = 0;
        while i < self.dictionaries.len()
            invariant
                i <= self.dictionaries@.len(),
                sum_estimates(self.estimates()) <= usize::MAX,
                total == sum_estimates(self.estimates().subrange(0, i as int)),
            decreases self.dictionaries.len() - i,
        {
            proof {
                let s = self.estimates().subrange(0, i + 1);
                assert(s.drop_last() =~= self.estimates().subrange(0, i as int));
                lemma_sum_prefix(self.estimates(), i + 1);
            }
            total = total + self.dictionaries[i].1;
            i = i + 1;
        }
        proof {
            assert(self.estimates().subrange(0, i as int) =~= self.estimates());
        }
        total
    }
}

/// A prefix never sums to more than the whole list.
proof fn lemma_sum_prefix(e: Seq<(Seq<char>, usize)>, n: int)
    requires
        0 <= n <= e.len(),
    ensures
        sum_estimates(e.subrange(0, n)) <= sum_estimates(e),
    decreases e.len() - n,
{
    if n < e.len() {
        lemma_sum_prefix(e, n + 1);
        let s = e.subrange(0, n + 1);
        assert(s.drop_last() =~= e.subrange(0, n));
    } else {
        assert(e.subrange(0, n) =~= e);
    }
}

impl Default for DictionaryMemoryTracker {
    fn default() -> (t: Self)
        ensures
            t.wf(),
            t.estimates() == Seq::<(Seq<char>, usize)>::empty(),
    {
        Self::new()
    }
}

/// Splitting a text at line feeds: the lines ended so far and the line
/// being read.
pub open spec fn line_scan(s: Seq<char>) -> (Seq<Seq<char>>, Seq<char>)
    decreases s.len(),
{
    if s.len() == 0 {
        (Seq::empty(), Seq::empty())
    } else {
        let prev = line_scan(s.drop_last());
        if s.last() == '\n' {
            (prev.0.push(prev.1), Seq::empty())
        } else {
            (prev.0, prev.1.push(s.last()))
        }
    }
}

/// The lines of a text: the pieces between line feeds.
pub open spec fn lines_of(s: Seq<char>) -> Seq<Seq<char>> {
    line_scan(s).0.push(line_scan(s).1)
}

/// Splitting a line at white space: the words ended so far and the word
/// being read.
pub open spec fn word_scan_ws(s: Seq<char>) -> (Seq<Seq<char>>, Seq<char>)
    decreases s.len(),
{
    if s.len() == 0 {
        (Seq::empty(), Seq::empty())
    } else {
        let prev = word_scan_ws(s.drop_last());
        if spec_is_whitespace(s.last()) {
            (if prev.1.len() > 0 { prev.0.push(prev.1) } else { prev.0 }, Seq::empty())
        } else {
            (prev.0, prev.1.push(s.last()))
        }
    }
}

/// The words of a line: the runs of characters that are not white space.
pub open spec fn words_of(s: Seq<char>) -> Seq<Seq<char>> {
    let w = word_scan_ws(s);
    if w.1.len() > 0 { w.0.push(w.1) } else { w.0 }
}

/// Whether `c` is an ASCII digit.
pub open spec fn digit(c: char) -> bool {
    '0' <= c && c <= '9'
}

/// The number the decimal digits stand for.
pub open spec fn digits_value(d: Seq<char>) -> nat
    decreases d.len(),
{
    if d.len() == 0 {
        0
    } else {
        digits_value(d.drop_last()) * 10 + ((d.last() as u32) - 48) as nat
    }
}

/// The digits of a word after an optional leading `+`.
pub open spec fn unsigned_digits(t: Seq<char>) -> Seq<char> {
    if t.len() > 0 && t[0] == '+' { t.drop_first() } else { t }
}

/// Whether every character is an ASCII digit.
pub open spec fn all_digits(d: Seq<char>) -> bool {
    forall|k: int| 0 <= k < d.len() ==> digit(#[trigger] d[k])
}

/// What `usize::from_str` makes of a word: an optional `+`, then one or
/// more decimal digits whose number fits in `usize`.
pub open spec fn parsed_usize(t: Seq<char>) -> Option<nat> {
    let d = unsigned_digits(t);
    if d.len() > 0 && all_digits(d) && digits_value(d) <= usize::MAX {
        Some(digits_value(d))
    } else {
        None
    }
}

/// The byte count a status line gives under `tag`: its second word read
/// as kB, when the line starts with `tag`, the word is a number and the
/// count fits in `usize`.
pub open spec fn tagged_bytes(line: Seq<char>, tag: Seq<char>) -> Option<nat> {
    if line.len() >= tag.len() && line.subrange(0, tag.len() as int) == tag && words_of(line).len() >= 2 {
        match parsed_usize(words_of(line)[1]) {
            Some(kb) => if kb * 1024 <= usize::MAX { Some(kb * 1024) } else { None },
            None => None,
        }
    } else {
        None
    }
}

/// The (resident, virtual) sizes that the lines give, the last line that
/// gives one counting, 0 when none does.
pub open spec fn status_sizes(lines: Seq<Seq<char>>) -> (nat, nat)
    decreases lines.len(),
{
    if lines.len() == 0 {
        (0, 0)
    } else {
        let prev = status_sizes(lines.drop_last());
        let line = lines.last();
        match tagged_bytes(line, "VmRSS:"@) {
            Some(b) => (b, prev.1),
            None => if line.len() >= 6 && line.subrange(0, 6) == "VmRSS:"@ {
                prev
            } else {
                match tagged_bytes(line, "VmSize:"@) {
                    Some(b) => (prev.0, b),
                    None => prev,
                }
            },
        }
    }
}

/// The lines of a text, split at line feeds.
fn split_lines(text: &Vec<char>) -> (r: Vec<Vec<char>>)
    ensures
        r@.map_values(|l: Vec<char>| l@) == lines_of(text@),
{
    let mut lines: Vec<Vec<char>> = Vec::new();
    let mut cur: Vec<char> = Vec::new();
    let mut i: usize = 0;
    while i < text.len()
        invariant
            i <= text@.len(),
            line_scan(text@.subrange(0, i as int)) == (lines@.map_values(|l: Vec<char>| l@), cur@),
        decreases text.len() - i,
    {
        let c = text[i];
        proof {
            let p1 = text@.subrange(0, i + 1);
            assert(p1.drop_last() =~= text@.subrange(0, i as int));
            assert(p1.last() == c);
        }
        if c == '\n' {
            let ghost before = lines@;
            let done = cur;
            cur = Vec::new();
            lines.push(done);
            proof {
                assert(lines@.map_values(|l: Vec<char>| l@) =~= before.map_values(|l: Vec<char>| l@).push(done@));
                assert(cur@ =~= Seq::<char>::empty());
            }
        } else {
            cur.push(c);
        }
        i = i + 1;
    }
    proof {
        assert(text@.subrange(0, i as int) =~= text@);
    }
    let ghost before = lines@;
    let last = cur;
    lines.push(last);
    proof {
        assert(lines@.map_values(|l: Vec<char>| l@) =~= before.map_values(|l: Vec<char>| l@).push(last@));
    }
    lines
}

/// The words of a line.
fn split_words(line: &Vec<char>) -> (r: Vec<Vec<char>>)
    ensures
        r@.map_values(|w: Vec<char>| w@) == words_of(line@),
{
    let mut words: Vec<Vec<char>> = Vec::new();
    let mut cur: Vec<char> = Vec::new();
    let mut i: usize = 0;
    while i < line.len()
        invariant
            i <= line@.len(),
            word_scan_ws(line@.subrange(0, i as int)) == (words@.map_values(|w: Vec<char>| w@), cur@),
        decreases line.len() - i,
    {
        let c = line[i];
        proof {
            let p1 = line@.subrange(0, i + 1);
            assert(p1.drop_last() =~= line@.subrange(0, i as int));
            assert(p1.last() == c);
        }
        if is_whitespace(c) {
            if cur.len() > 0 {
                let ghost before = words@;
                let done = cur;
                cur = Vec::new();
                words.push(done);
                proof {
                    assert(words@.map_values(|w: Vec<char>| w@) =~= before.map_values(|w: Vec<char>| w@).push(done@));
                }
            }
            assert(cur@ =~= Seq::<char>::empty());
        } else {
            cur.push(c);
        }
        i = i + 1;
    }
    proof {
        assert(line@.subrange(0, i as int) =~= line@);
    }
    if cur.len() > 0 {
        let ghost before = words@;
        let last = cur;
        words.push(last);
        proof {
            assert(words@.map_values(|w: Vec<char>| w@) =~= before.map_values(|w: Vec<char>| w@).push(last@));
        }
    }
    words
}

/// What `usize::from_str` makes of a word.
fn parse_usize(t: &Vec<char>) -> (r: Option<usize>)
    ensures
        match r {
            Some(v) => parsed_usize(t@) == Some(v as nat),
            None => parsed_usize(t@) is None,
        },
{
    let start: usize = if t.len() > 0 && t[0] == '+' { 1 } else { 0 };
    let ghost d = unsigned_digits(t@);
    proof {
        assert(d =~= t@.subrange(start as int, t@.len() as int));
    }
    if start >= t.len() {
        return None;
    }
    let mut value: usize = 0;
    let mut i: usize = start;
    while i < t.len()
        invariant
            start <= i <= t@.len(),
            d == t@.subrange(start as int, t@.len() as int),
            d == unsigned_digits(t@),
            forall|k: int| start <= k < i ==> digit(#[trigger] t@[k]),
            value as nat == digits_value(t@.subrange(start as int, i as int)),
        decreases t.len() - i,
    {
        let c = t[i];
        if !('0' <= c && c <= '9') {
            proof {
                assert(d[i - start] == c);
                assert(!digit(d[i - start]));
            }
            return None;
        }
        let dv = (c as u32 - 48) as usize;
        proof {
            let p1 = t@.subrange(start as int, i + 1);
            assert(p1.drop_last() =~= t@.subrange(start as int, i as int));
            assert(p1.last() == c);
        }
        match value.checked_mul(10) {
            Some(v10) => match v10.checked_add(dv) {
                Some(v) => {
                    value = v;
                },
                None => {
                    proof {
                        lemma_overflow_rejected(t@, d, start as int, i as int, value, dv);
                    }
                    return None;
                },
            },
            None => {
                proof {
                    lemma_overflow_rejected(t@, d, start as int, i as int, value, dv);
                }
                return None;
            },
        }
        i = i + 1;
    }
    proof {
        assert(t@.subrange(start as int, i as int) =~= d);
        assert forall|k: int| 0 <= k < d.len() implies digit(#[trigger] d[k]) by {
            assert(d[k] == t@[start + k]);
        }
    }
    Some(value)
}

/// The number of a prefix of the digits is never more than the number of
/// all of them.
proof fn lemma_digits_grow(d: Seq<char>, n: int)
    requires
        0 <= n <= d.len(),
        forall|k: int| 0 <= k < n ==> digit(#[trigger] d[k]),
    ensures
        digits_value(d.subrange(0, n)) <= digits_value(d) || exists|k: int| n <= k < d.len() && !digit(#[trigger] d[k]),
    decreases d.len() - n,
{
    if n < d.len() && digit(d[n]) {
        lemma_digits_grow(d, n + 1);
        let p = d.subrange(0, n + 1);
        assert(p.drop_last() =~= d.subrange(0, n));
    } else if n == d.len() {
        assert(d.subrange(0, n) =~= d);
    }
}

/// A number whose digits so far already exceed `usize` is rejected.
proof fn lemma_overflow_rejected(t: Seq<char>, d: Seq<char>, start: int, i: int, value: usize, dv: usize)
    requires
        0 <= start <= i < t.len(),
        d == t.subrange(start, t.len() as int),
        d == unsigned_digits(t),
        forall|k: int| start <= k < i ==> digit(#[trigger] t[k]),
        digit(t[i]),
        dv == (t[i] as u32) - 48,
        value as nat == digits_value(t.subrange(start, i)),
        value * 10 + dv > usize::MAX,
    ensures
        parsed_usize(t) is None,
{
    let n = i - start + 1;
    assert forall|k: int| 0 <= k < n implies digit(#[trigger] d[k]) by {
        assert(d[k] == t[start + k]);
    }
    let p = d.subrange(0, n);
    assert(p.drop_last() =~= t.subrange(start, i));
    assert(p.last() == t[i]);
    assert(digits_value(p) == digits_value(p.drop_last()) * 10 + ((p.last() as u32) - 48) as nat);
    assert(digits_value(p) > usize::MAX);
    lemma_digits_grow(d, n);
    if all_digits(d) {
        assert(digits_value(d) > usize::MAX);
    }
}

/// Whether `line` starts with `tag`.
fn starts_with_chars(line: &Vec<char>, tag: &Vec<char>) -> (r: bool)
    ensures
        r == (line@.len() >= tag@.len() && line@.subrange(0, tag@.len() as int) == tag@),
{
    if line.len() < tag.len() {
        return false;
    }
    let mut i: usize = 0;
    while i < tag.len()
        invariant
            tag@.len() <= line@.len(),
            i <= tag@.len(),
            forall|k: int| 0 <= k < i ==> line@[k] == tag@[k],
        decreases tag.len() - i,
    {
        if line[i] != tag[i] {
            assert(line@.subrange(0, tag@.len() as int)[i as int] != tag@[i as int]);
            return false;
        }
        i = i + 1;
    }
    assert(line@.subrange(0, tag@.len() as int) =~= tag@);
    true
}

/// The byte count the line gives under `tag`, if any.
fn tagged_value(line: &Vec<char>, tag: &Vec<char>) -> (r: Option<usize>)
    ensures
        match r {
            Some(b) => tagged_bytes(line@, tag@) == Some(b as nat),
            None => tagged_bytes(line@, tag@) is None,
        },
{
    if !starts_with_chars(line, tag) {
        return None;
    }
    let words = split_words(line);
    if words.len() < 2 {
        return None;
    }
    proof {
        assert(words@.map_values(|w: Vec<char>| w@)[1] == words@[1]@);
    }
    match parse_usize(&words[1]) {
        Some(kb) => kb.checked_mul(1024),
        None => None,
    }
}

/// Memory statistics read from the text of the process status file
/// (`/proc/self/status`): the resident size from its `VmRSS:` line and the
/// virtual size from its `VmSize:` line, both given in kB.  A figure that
/// is missing, malformed or too large to count in bytes is left at 0.
pub fn memory_stats_from_status(content: &str) -> (s: MemoryStats)
    ensures
        s.rss == status_sizes(lines_of(content@)).0,
        s.virtual_size == status_sizes(lines_of(content@)).1,
        s.heap_used == 0,
{
    let text = chars_of(content);
    let lines = split_lines(&text);
    let rss_tag = chars_of("VmRSS:");
    let size_tag = chars_of("VmSize:");
    proof {
        reveal_strlit("VmRSS:");
        reveal_strlit("VmSize:");
        assert(rss_tag@.len() == 6);
    }
    let ghost ls = lines@.map_values(|l: Vec<char>| l@);
    let mut stats = MemoryStats::new();
    let mut i: usize = 0;
    while i < lines.len()
        invariant
            i <= lines@.len(),
            ls == lines@.map_values(|l: Vec<char>| l@),
            rss_tag@ == "VmRSS:"@,
            size_tag@ == "VmSize:"@,
            rss_tag@.len() == 6,
            stats.rss == status_sizes(ls.subrange(0, i as int)).0,
            stats.virtual_size == status_sizes(ls.subrange(0, i as int)).1,
            stats.heap_used == 0,
        decreases lines.len() - i,
    {
        proof {
            let p1 = ls.subrange(0, i + 1);
            assert(p1.drop_last() =~= ls.subrange(0, i as int));
            assert(p1.last() == lines@[i as int]@);
        }
        match tagged_value(&lines[i], &rss_tag) {
            Some(b) => {
                stats.rss = b;
            },
            None => {
                if !starts_with_chars(&lines[i], &rss_tag) {
                    match tagged_value(&lines[i], &size_tag) {
                        Some(b) => {
                            stats.virtual_size = b;
                        },
                        None => {},
                    }
                }
            },
        }
        i = i + 1;
    }
    proof {
        assert(ls.subrange(0, i as int) =~= ls);
    }
    stats
}

} // verus!
