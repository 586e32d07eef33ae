//! Damerau-Levenshtein distance: the number of insertions, deletions,
//! substitutions and transpositions of adjacent characters that turn one
//! string into another, with a fast path for the common threshold of one.

use vstd::prelude::*;
use crate::correction::distance_spec::{
    dl_distance, dl_table, last_before, lemma_dl_bounds, lemma_dl_symmetric, lemma_dl_zero, lemma_last_before, min2,
};
use crate::correction::one_edit::{lemma_branches_give_distance, lemma_dl_self_zero};
use crate::text::{chars_eq, chars_of};

verus! {

/// Value recorded for `c` in a list of (character, row) pairs whose
/// characters are pairwise distinct, or 0 when `c` is not listed.
pub open spec fn seen_row(seen: Seq<(char, usize)>, c: char) -> int {
    if exists|p: int| 0 <= p < seen.len() && seen[p].0 == c {
        seen[choose|p: int| 0 <= p < seen.len() && seen[p].0 == c].1 as int
    } else {
        0
    }
}

pub open spec fn keys_distinct(seen: Seq<(char, usize)>) -> bool {
    forall|p: int, q: int| 0 <= p < q < seen.len() ==> seen[p].0 != seen[q].0
}

proof fn lemma_seen_row_at(seen: Seq<(char, usize)>, p: int)
    requires
        keys_distinct(seen),
        0 <= p < seen.len(),
    ensures
        seen_row(seen, seen[p].0) == seen[p].1 as int,
{
    let c = seen[p].0;
    let q = choose|q: int| 0 <= q < seen.len() && seen[q].0 == c;
    if q < p {
        assert(seen[q].0 != seen[p].0);
    } else if p < q {
        assert(seen[p].0 != seen[q].0);
    }
}

/// Row recorded for `c` (0 when none).
fn seen_lookup(seen: &Vec<(char, usize)>, c: char) -> (r: usize)
    requires
        keys_distinct(seen@),
    ensures
        r as int == seen_row(seen@, c),
{
    let mut p: usize = 0;
    while p < seen.len()
        invariant
            p <= seen@.len(),
            keys_distinct(seen@),
            forall|q: int| 0 <= q < p ==> seen@[q].0 != c,
        decreases seen.len() - p,
    {
        if seen[p].0 == c {
            proof {
                lemma_seen_row_at(seen@, p as int);
            }
            return seen[p].1;
        }
        p = p + 1;
    }
    0
}

/// Records `row` for `c`, replacing what was recorded for it before.
fn seen_record(seen: &mut Vec<(char, usize)>, c: char, row: usize)
    requires
        keys_distinct(old(seen)@),
    ensures
        keys_distinct(final(seen)@),
        seen_row(final(seen)@, c) == row as int,
        forall|d: char| d != c ==> seen_row(final(seen)@, d) == seen_row(old(seen)@, d),
{
    let ghost before = seen@;
    let mut p: usize = 0;
    while p < seen.len()
        invariant
            p <= seen@.len(),
            seen@ == before,
            before == old(seen)@,
            keys_distinct(seen@),
            forall|q: int| 0 <= q < p ==> seen@[q].0 != c,
        decreases seen.len() - p,
    {
        if seen[p].0 == c {
            seen.set(p, (c, row));
            proof {
                let after = seen@;
                assert(keys_distinct(after)) by {
                    assert forall|x: int, y: int| 0 <= x < y < after.len() implies after[x].0 != after[y].0 by {
                        assert(before[x].0 != before[y].0);
                    }
                }
                lemma_seen_row_at(after, p as int);
                assert forall|d: char| d != c implies seen_row(after, d) == seen_row(before, d) by {
                    if exists|q: int| 0 <= q < before.len() && before[q].0 == d {
                        let q = choose|q: int| 0 <= q < before.len() && before[q].0 == d;
                        lemma_seen_row_at(before, q);
                        assert(q != p);
                        assert(after[q] == before[q]);
                        lemma_seen_row_at(after, q);
                    } else {
                        assert forall|q: int| 0 <= q < after.len() implies after[q].0 != d by {
                            if q != p {
                                assert(after[q] == before[q]);
                            }
                        }
                    }
                }
            }
            return;
        }
        p = p + 1;
    }
    seen.push((c, row));
    proof {
        let after = seen@;
        assert(keys_distinct(after)) by {
            assert forall|x: int, y: int| 0 <= x < y < after.len() implies after[x].0 != after[y].0 by {
                if y < before.len() {
                    assert(before[x].0 != before[y].0);
                }
            }
        }
        lemma_seen_row_at(after, before.len() as int);
        assert forall|d: char| d != c implies seen_row(after, d) == seen_row(before, d) by {
            if exists|q: int| 0 <= q < before.len() && before[q].0 == d {
                let q = choose|q: int| 0 <= q < before.len() && before[q].0 == d;
                lemma_seen_row_at(before, q);
                lemma_seen_row_at(after, q);
            } else {
                assert forall|q: int| 0 <= q < after.len() implies after[q].0 != d by {
                    if q < before.len() {
                        assert(after[q] == before[q]);
                    }
                }
            }
        }
    }
}

/// Whether a matrix has at least `rows` rows, each of them at least `cols` long.
pub open spec fn matrix_holds(m: Seq<Vec<usize>>, rows: int, cols: int) -> bool {
    &&& m.len() >= rows
    &&& forall|r: int| 0 <= r < rows ==> #[trigger] m[r]@.len() >= cols
}

/// Whether the first `rows` by `cols` cells of `m` are the Damerau-Levenshtein
/// table of `a` against `b`.
pub open spec fn table_filled(
    m: Seq<Vec<usize>>,
    a: Seq<char>,
    b: Seq<char>,
    rows: int,
    cols: int,
) -> bool {
    forall|r: int, c: int|
        0 <= r < rows && 0 <= c < cols ==> #[trigger] m[r]@[c] as int == dl_table(a, b, r, c)
}

/// One cell of the table, from the cells above it and to its left.
#[verifier::spinoff_prover]
#[verifier::rlimit(40)]
fn dl_cell(
    a: &Vec<char>,
    b: &Vec<char>,
    matrix: &Vec<Vec<usize>>,
    i: usize,
    j: usize,
    k: usize,
    last_match: usize,
) -> (v: usize)
    requires
        1 <= i <= a@.len(),
        1 <= j <= b@.len(),
        a@.len() < usize::MAX,
        b@.len() < usize::MAX,
        matrix_holds(matrix@, a@.len() as int + 1, b@.len() as int + 1),
        table_filled(matrix@, a@, b@, i as int, b@.len() as int + 1),
        forall|c: int| 0 <= c < j ==> #[trigger] matrix@[i as int]@[c] as int == dl_table(a@, b@, i as int, c),
        k as int == last_before(a@, i as int, b@[j - 1]),
        last_match as int == last_before(b@, j as int, a@[i - 1]),
    ensures
        v as int == dl_table(a@, b@, i as int, j as int),
{
    let c1 = a[i - 1];
    let c2 = b[j - 1];
    proof {
        lemma_dl_bounds(a@, b@, i - 1, j as int);
        lemma_dl_bounds(a@, b@, i as int, j - 1);
        lemma_dl_bounds(a@, b@, i - 1, j - 1);
        lemma_last_before(a@, i as int, c2);
        lemma_last_before(b@, j as int, c1);
        assert(matrix@[i - 1]@[j as int] as int == dl_table(a@, b@, i - 1, j as int));
        assert(matrix@[i - 1]@[j - 1] as int == dl_table(a@, b@, i - 1, j - 1));
        assert(matrix@[i as int]@[j - 1] as int == dl_table(a@, b@, i as int, j - 1));
    }
    let cost: usize = if c1 == c2 { 0 } else { 1 };
    let deletion = matrix[i - 1][j] + 1;
    let insertion = matrix[i][j - 1] + 1;
    let substitution = matrix[i - 1][j - 1] + cost;
    let mut best = if deletion <= insertion { deletion } else { insertion };
    if substitution < best {
        best = substitution;
    }
    let l: usize = last_match;
    if k != 0 && l != 0 && l < j {
        proof {
            lemma_dl_bounds(a@, b@, k - 1, l - 1);
            assert(matrix@[k - 1]@[l - 1] as int == dl_table(a@, b@, k - 1, l - 1));
        }
        let far = matrix[k - 1][l - 1];
        match far.checked_add(i - k - 1) {
            Some(t1) => match t1.checked_add(1) {
                Some(t2) => match t2.checked_add(j - l - 1) {
                    Some(t) => {
                        if t < best {
                            best = t;
                        }
                    },
                    None => {},
                },
                None => {},
            },
            None => {},
        }
    }
    best
}

/// Fills rows `0..=a.len()` and columns `0..=b.len()` of `matrix` with the
/// Damerau-Levenshtein table of `a` against `b` (see `dl_table`).
pub(crate) fn fill_dl_table(a: &Vec<char>, b: &Vec<char>, matrix: &mut Vec<Vec<usize>>)
    requires
        a@.len() < usize::MAX,
        b@.len() < usize::MAX,
        matrix_holds(old(matrix)@, a@.len() as int + 1, b@.len() as int + 1),
    ensures
        final(matrix)@.len() == old(matrix)@.len(),
        forall|r: int| 0 <= r < final(matrix)@.len() ==> #[trigger] final(matrix)@[r]@.len() == old(matrix)@[r]@.len(),
        table_filled(final(matrix)@, a@, b@, a@.len() as int + 1, b@.len() as int + 1),
{
    let len1 = a.len();
    let len2 = b.len();
    let ghost shape = matrix@.map_values(|row: Vec<usize>| row@.len());
    let mut i: usize = 0;
    while i <= len1
        invariant
            len1 == a@.len(),
            len2 == b@.len(),
            len1 < usize::MAX,
            i <= len1 + 1,
            matrix@.len() == shape.len(),
            forall|r: int| 0 <= r < matrix@.len() ==> #[trigger] matrix@[r]@.len() == shape[r],
            matrix_holds(matrix@, len1 + 1, len2 + 1),
            forall|r: int| 0 <= r < i ==> #[trigger] matrix@[r]@[0] as int == r,
        decreases len1 + 1 - i,
    {
        matrix[i][0] = i;
        i = i + 1;
    }
    let mut j: usize = 0;
    while j <= len2
        invariant
            len1 == a@.len(),
            len2 == b@.len(),
            len2 < usize::MAX,
            j <= len2 + 1,
            matrix@.len() == shape.len(),
            forall|r: int| 0 <= r < matrix@.len() ==> #[trigger] matrix@[r]@.len() == shape[r],
            matrix_holds(matrix@, len1 + 1, len2 + 1),
            forall|r: int| 1 <= r <= len1 ==> #[trigger] matrix@[r]@[0] as int == r,
            forall|c: int| 0 <= c < j ==> #[trigger] matrix@[0]@[c] as int == c,
        decreases len2 + 1 - j,
    {
        matrix[0][j] = j;
        j = j + 1;
    }
    let mut seen: Vec<(char, usize)> = Vec::new();
    let mut i: usize = 1;
    while i <= len1
        invariant
            len1 == a@.len(),
            len2 == b@.len(),
            len1 < usize::MAX,
            len2 < usize::MAX,
            1 <= i <= len1 + 1,
            matrix@.len() == shape.len(),
            forall|r: int| 0 <= r < matrix@.len() ==> #[trigger] matrix@[r]@.len() == shape[r],
            matrix_holds(matrix@, len1 + 1, len2 + 1),
            table_filled(matrix@, a@, b@, i as int, len2 + 1),
            forall|r: int| i <= r <= len1 ==> #[trigger] matrix@[r]@[0] as int == r,
            keys_distinct(seen@),
            forall|c: char| #[trigger] seen_row(seen@, c) == last_before(a@, i as int, c),
        decreases len1 + 1 - i,
    {
        let c1 = a[i - 1];
        let mut last_match: usize = 0;
        let mut j: usize = 1;
        while j <= len2
            invariant
                len1 == a@.len(),
                len2 == b@.len(),
                len1 < usize::MAX,
                len2 < usize::MAX,
                1 <= i <= len1,
                1 <= j <= len2 + 1,
                c1 == a@[i - 1],
                matrix@.len() == shape.len(),
                forall|r: int| 0 <= r < matrix@.len() ==> #[trigger] matrix@[r]@.len() == shape[r],
                matrix_holds(matrix@, len1 + 1, len2 + 1),
                table_filled(matrix@, a@, b@, i as int, len2 + 1),
                forall|c: int| 0 <= c < j ==> #[trigger] matrix@[i as int]@[c] as int == dl_table(a@, b@, i as int, c),
                forall|r: int| i < r <= len1 ==> #[trigger] matrix@[r]@[0] as int == r,
                keys_distinct(seen@),
                forall|c: char| #[trigger] seen_row(seen@, c) == last_before(a@, i as int, c),
                last_match as int == last_before(b@, j as int, c1),
            decreases len2 + 1 - j,
        {
            let c2 = b[j - 1];
            let k = seen_lookup(&seen, c2);
            let best = dl_cell(a, b, &matrix, i, j, k, last_match);
            matrix[i][j] = best;
            if c1 == c2 {
                last_match = j;
            }
            j = j + 1;
        }
        seen_record(&mut seen, c1, i);
        i = i + 1;
    }
}

/// Number of positions below `n` at which `a` and `b` differ.
pub open spec fn mismatches(a: Seq<char>, b: Seq<char>, n: int) -> int
    decreases n,
{
    if n <= 0 {
        0
    } else {
        mismatches(a, b, n - 1) + if a[n - 1] != b[n - 1] { 1int } else { 0int }
    }
}

pub(crate) proof fn lemma_mismatches_nonneg(a: Seq<char>, b: Seq<char>, n: int)
    ensures
        0 <= mismatches(a, b, n),
    decreases n,
{
    if n > 0 {
        lemma_mismatches_nonneg(a, b, n - 1);
    }
}

pub(crate) proof fn lemma_mismatches_monotone(a: Seq<char>, b: Seq<char>, m: int, n: int)
    requires
        0 <= m <= n,
    ensures
        0 <= mismatches(a, b, m) <= mismatches(a, b, n),
    decreases n - m,
{
    lemma_mismatches_nonneg(a, b, m);
    if m < n {
        lemma_mismatches_monotone(a, b, m, n - 1);
    }
}

pub(crate) proof fn lemma_mismatches_zero(a: Seq<char>, b: Seq<char>, n: int)
    requires
        0 <= n <= a.len(),
        n <= b.len(),
        mismatches(a, b, n) == 0,
    ensures
        forall|k: int| 0 <= k < n ==> a[k] == b[k],
    decreases n,
{
    if n > 0 {
        lemma_mismatches_monotone(a, b, 0, n - 1);
        lemma_mismatches_zero(a, b, n - 1);
    }
}

/// Whether `b` is `a` with the two characters at some differing position
/// `k` and `k + 1` exchanged.
pub open spec fn has_adjacent_swap(a: Seq<char>, b: Seq<char>) -> bool {
    exists|k: int|
        0 <= k && k + 1 < a.len() && a[k] != b[k] && #[trigger] a[k] == b[k + 1] && a[k + 1] == b[k]
}

/// Whether `short` is `long` with exactly one character removed.
pub open spec fn is_one_deletion(long: Seq<char>, short: Seq<char>) -> bool {
    exists|k: int| 0 <= k < long.len() && #[trigger] long.remove(k) == short
}

/// The distance of two sequences when it is known to be at most one:
/// 0 when equal, 1 when one substitution, one adjacent transposition, one
/// insertion or one deletion turns `a` into `b`, and 2 otherwise.
pub open spec fn one_edit_distance(a: Seq<char>, b: Seq<char>) -> int {
    if a.len() == b.len() {
        let d = mismatches(a, b, a.len() as int);
        if d == 0 {
            0
        } else if d == 1 {
            1
        } else if d == 2 && has_adjacent_swap(a, b) {
            1
        } else {
            2
        }
    } else if a.len() + 1 == b.len() {
        if is_one_deletion(b, a) { 1 } else { 2 }
    } else if b.len() + 1 == a.len() {
        if is_one_deletion(a, b) { 1 } else { 2 }
    } else {
        2
    }
}

/// What the branches of `DamerauLevenshtein::distance` give for `a`, `b`
/// and threshold `max`: the early exits, the single-edit test for a
/// threshold of one, then the table.
pub open spec fn branch_distance(a: Seq<char>, b: Seq<char>, max: int) -> int {
    let la = a.len() as int;
    let lb = b.len() as int;
    if a == b {
        0
    } else if la == 0 {
        min2(lb, max + 1)
    } else if lb == 0 {
        min2(la, max + 1)
    } else if (if la >= lb { la - lb } else { lb - la }) > max {
        max + 1
    } else if max == 1 {
        one_edit_distance(a, b)
    } else {
        min2(dl_distance(a, b), max + 1)
    }
}

/// What `DamerauLevenshtein::distance` returns for `a`, `b` and threshold
/// `max`: their Damerau-Levenshtein distance (see `dl_distance`) when it is
/// at most `max`, and `max + 1` otherwise.
pub open spec fn spec_distance(a: Seq<char>, b: Seq<char>, max: int) -> int {
    min2(dl_distance(a, b), max + 1)
}

/// The distance never exceeds the threshold by more than one: a result of
/// `max + 1` stands for every distance beyond `max`.
pub proof fn law_distance_capped(a: Seq<char>, b: Seq<char>, max: int)
    requires
        0 <= max,
    ensures
        0 <= spec_distance(a, b, max) <= max + 1,
{
    lemma_dl_bounds(a, b, a.len() as int, b.len() as int);
}

/// The distance does not depend on the order of the two strings.
pub proof fn law_distance_symmetric(a: Seq<char>, b: Seq<char>, max: int)
    ensures
        spec_distance(a, b, max) == spec_distance(b, a, max),
{
    lemma_dl_symmetric(a, b, a.len() as int, b.len() as int);
}

/// The distance is 0 exactly when the two strings are equal.
pub proof fn law_distance_zero_iff_equal(a: Seq<char>, b: Seq<char>, max: int)
    requires
        0 <= max,
    ensures
        (spec_distance(a, b, max) == 0) <==> (a == b),
{
    let la = a.len() as int;
    let lb = b.len() as int;
    lemma_dl_bounds(a, b, la, lb);
    if a == b {
        lemma_dl_self_zero(a);
    } else if spec_distance(a, b, max) == 0 {
        lemma_dl_zero(a, b, la, lb);
        assert(a =~= a.subrange(0, la));
        assert(b =~= b.subrange(0, lb));
    }
}

/// Damerau-Levenshtein distance calculator
#[derive(Debug)]
pub struct DamerauLevenshtein {
    /// Matrices handed back after use, kept for later calls.
    matrix_pool: Vec<Vec<Vec<usize>>>,
}

impl DamerauLevenshtein {
    /// Number of matrices kept for reuse.
    pub closed spec fn pool_size(&self) -> nat {
        self.matrix_pool@.len()
    }

    /// At most four matrices are kept.
    #[verifier::type_invariant]
    spec fn pool_bounded(&self) -> bool {
        self.matrix_pool@.len() <= 4
    }

    /// Create a new calculator
    pub fn new() -> (calc: Self)
        ensures
            calc.pool_size() == 0,
    {
        DamerauLevenshtein { matrix_pool: Vec::new() }
    }

    /// Calculate distance between two strings
    ///
    /// Returns the minimum number of operations needed to transform `s1`
    /// into `s2` (insertion, deletion, substitution, transposition of
    /// adjacent characters).  Distance if <= max_distance, otherwise
    /// max_distance + 1.
    pub fn distance(&mut self, s1: &str, s2: &str, max_distance: usize) -> (d: usize)
        requires
            max_distance < usize::MAX,
        ensures
            d as int == spec_distance(s1@, s2@, max_distance as int),
    {
        proof {
            lemma_branches_give_distance(s1@, s2@, max_distance as int);
        }
        let s1_chars = chars_of(s1);
        let s2_chars = chars_of(s2);
        let len1 = s1_chars.len();
        let len2 = s2_chars.len();

        // Early exit for identical strings
        if len1 == len2 && chars_eq(&s1_chars, &s2_chars) {
            return 0;
        }
        assert(s1@ != s2@);

        // Early exit conditions
        if len1 == 0 {
            return if len2 <= max_distance + 1 { len2 } else { max_distance + 1 };
        }
        if len2 == 0 {
            return if len1 <= max_distance + 1 { len1 } else { max_distance + 1 };
        }

        // Length difference check
        let diff = if len1 >= len2 { len1 - len2 } else { len2 - len1 };
        if diff > max_distance {
            return max_distance + 1;
        }

        // Optimized path for distance = 1
        if max_distance == 1 {
            return self.distance_one(&s1_chars, &s2_chars);
        }

        // General case with matrix
        self.distance_general(&s1_chars, &s2_chars, max_distance)
    }

    /// Optimized distance = 1 check
    fn distance_one(&mut self, s1: &Vec<char>, s2: &Vec<char>) -> (d: usize)
        ensures
            d as int == one_edit_distance(s1@, s2@),
            final(self).pool_size() == old(self).pool_size(),
    {
        let len1 = s1.len();
        let len2 = s2.len();

        // Length difference
        let diff = if len1 >= len2 { len1 - len2 } else { len2 - len1 };
        if diff > 1 {
            return 2;
        }

        // Same length: check for single substitution or transposition
        if len1 == len2 {
            let mut diff_count: usize = 0;
            let mut swap_pos: Option<usize> = None;
            let mut i: usize = 0;
            while i < len1
                invariant
                    len1 == s1@.len(),
                    len2 == s2@.len(),
                    len1 == len2,
                    i <= len1,
                    diff_count as int == mismatches(s1@, s2@, i as int),
                    diff_count <= 2,
                    swap_pos.is_some() <==> exists|k: int|
                        0 <= k < i && k + 1 < s1@.len() && s1@[k] != s2@[k]
                            && #[trigger] s1@[k] == s2@[k + 1] && s1@[k + 1] == s2@[k],
                decreases len1 - i,
            {
                if s1[i] != s2[i] {
                    diff_count += 1;
                    if diff_count > 2 {
                        proof {
                            lemma_mismatches_monotone(s1@, s2@, i + 1, len1 as int);
                        }
                        return 2;
                    }
                    // Check if it's a transposition
                    if i + 1 < len1 && s1[i] == s2[i + 1] && s1[i + 1] == s2[i] && swap_pos.is_none() {
                        swap_pos = Some(i);
                    }
                }
                i = i + 1;
            }
            proof {
                if has_adjacent_swap(s1@, s2@) {
                    let k = choose|k: int|
                        0 <= k && k + 1 < s1@.len() && s1@[k] != s2@[k] && #[trigger] s1@[k] == s2@[k + 1]
                            && s1@[k + 1] == s2@[k];
                    assert(0 <= k < i);
                }
            }
            if diff_count == 0 {
                0
            } else if diff_count == 1 {
                1
            } else if diff_count == 2 && swap_pos.is_some() {
                1
            } else {
                2
            }
        } else if len1 < len2 {
            // s1 is shorter - check for single insertion
            self.is_single_insertion(s1, s2)
        } else {
            // s2 is shorter - check for single deletion
            self.is_single_deletion(s1, s2)
        }
    }

    /// Check if s2 can be made from s1 with one insertion
    fn is_single_insertion(&self, short: &Vec<char>, long: &Vec<char>) -> (d: usize)
        requires
            short@.len() + 1 == long@.len(),
        ensures
            d == (if is_one_deletion(long@, short@) { 1usize } else { 2usize }),
    {
        let mut i: usize = 0;
        let mut j: usize = 0;
        let ghost mut skip: int = 0;

        while i < short.len() && j < long.len()
            invariant
                short@.len() + 1 == long@.len(),
                i <= short@.len(),
                j <= long@.len(),
                j == i || j == i + 1,
                j == i ==> short@.subrange(0, i as int) == long@.subrange(0, i as int),
                j == i + 1 ==> {
                    &&& 0 <= skip <= i
                    &&& skip < short@.len()
                    &&& short@.subrange(0, skip) == long@.subrange(0, skip)
                    &&& short@[skip] != long@[skip]
                    &&& short@.subrange(skip, i as int) == long@.subrange(skip + 1, j as int)
                },
            decreases long@.len() - j,
        {
            if short[i] == long[j] {
                proof {
                    if j == i {
                        assert(short@.subrange(0, i + 1) =~= short@.subrange(0, i as int).push(short@[i as int]));
                        assert(long@.subrange(0, i + 1) =~= long@.subrange(0, i as int).push(long@[i as int]));
                    } else {
                        assert(short@.subrange(skip, i + 1) =~= short@.subrange(skip, i as int).push(short@[i as int]));
                        assert(long@.subrange(skip + 1, j + 1) =~= long@.subrange(skip + 1, j as int).push(long@[j as int]));
                    }
                }
                i += 1;
                j += 1;
            } else {
                // Skip character in long
                if j == i + 1 {
                    proof {
                        assert forall|k: int| 0 <= k < long@.len() implies #[trigger] long@.remove(k) != short@ by {
                            if k <= i {
                                assert(long@.remove(k)[i as int] == long@[i + 1]);
                            } else {
                                assert(short@[skip] == short@.subrange(0, i + 1)[skip]);
                                assert(long@.remove(k)[skip] == long@[skip]);
                            }
                        }
                    }
                    return 2;
                }
                proof {
                    skip = i as int;
                    assert(short@.subrange(skip, i as int) =~= long@.subrange(skip + 1, skip + 1));
                }
                j += 1;
            }
        }

        // One insertion
        proof {
            if j == i {
                let k = long@.len() - 1;
                assert(long@.remove(k) =~= short@);
            } else {
                assert(long@.remove(skip) =~= short@) by {
                    assert forall|p: int| 0 <= p < short@.len() implies long@.remove(skip)[p] == short@[p] by {
                        if p < skip {
                            assert(short@[p] == short@.subrange(0, skip)[p]);
                            assert(long@[p] == long@.subrange(0, skip)[p]);
                        } else {
                            assert(short@[p] == short@.subrange(skip, i as int)[p - skip]);
                            assert(long@[p + 1] == long@.subrange(skip + 1, j as int)[p - skip]);
                        }
                    }
                }
            }
        }
        1
    }

    /// Check if s1 can be made from s2 with one deletion
    fn is_single_deletion(&self, long: &Vec<char>, short: &Vec<char>) -> (d: usize)
        requires
            short@.len() + 1 == long@.len(),
        ensures
            d == (if is_one_deletion(long@, short@) { 1usize } else { 2usize }),
    {
        self.is_single_insertion(short, long)
    }

    /// General Damerau-Levenshtein with matrix
    fn distance_general(&mut self, s1: &Vec<char>, s2: &Vec<char>, max_dist: usize) -> (d: usize)
        requires
            max_dist < usize::MAX,
            s1@.len() <= isize::MAX,
            s2@.len() <= isize::MAX,
        ensures
            d as int == min2(dl_distance(s1@, s2@), max_dist + 1),
    {
        let len1 = s1.len();
        let len2 = s2.len();

        // Get or create matrix
        let mut matrix = self.get_matrix(len1 + 1, len2 + 1);
        fill_dl_table(s1, s2, &mut matrix);
        proof {
            lemma_dl_bounds(s1@, s2@, len1 as int, len2 as int);
        }
        let cell = matrix[len1][len2];
        let result = if cell <= max_dist + 1 { cell } else { max_dist + 1 };

        // Return matrix to pool for reuse (prevents allocations)
        self.return_matrix(matrix);

        result
    }

    /// Get or create matrix from pool
    fn get_matrix(&mut self, rows: usize, cols: usize) -> (m: Vec<Vec<usize>>)
        ensures
            matrix_holds(m@, rows as int, cols as int),
            final(self).pool_size() <= old(self).pool_size(),
    {
        // Try to reuse a matrix from pool
        let mut idx: usize = 0;
        while idx < self.matrix_pool.len()
            invariant
                idx <= self.matrix_pool@.len(),
                self.matrix_pool@ == old(self).matrix_pool@,
            decreases self.matrix_pool.len() - idx,
        {
            let fits = {
                let m = &self.matrix_pool[idx];
                m.len() > 0 && m[0].len() >= cols && m.len() >= rows
            };
            if fits {
                proof {
                    use_type_invariant(&*self);
                }
                let mut pool: Vec<Vec<Vec<usize>>> = Vec::new();
                std::mem::swap(&mut pool, &mut self.matrix_pool);
                let mut m = pool.remove(idx);
                self.matrix_pool = pool;
                let mut r: usize = 0;
                while r < rows
                    invariant
                        r <= rows,
                        m@.len() >= rows,
                        forall|q: int| 0 <= q < r ==> #[trigger] m@[q]@.len() >= cols,
                    decreases rows - r,
                {
                    m[r].resize(cols, 0);
                    r = r + 1;
                }
                return m;
            }
            idx = idx + 1;
        }

        // Create new matrix (will be returned to pool after use)
        let row = vec![0usize; cols];
        let m = vec![row; rows];
        assert forall|q: int| 0 <= q < rows implies #[trigger] m@[q]@.len() >= cols by {
            assert(cloned(row, m@[q]));
        }
        m
    }

    /// Return matrix to pool for reuse
    fn return_matrix(&mut self, matrix: Vec<Vec<usize>>)
        ensures
            old(self).pool_size() < 4 ==> final(self).pool_size() == old(self).pool_size() + 1,
            old(self).pool_size() >= 4 ==> final(self).pool_size() == old(self).pool_size(),
    {
        proof {
            use_type_invariant(&*self);
        }
        if self.matrix_pool.len() < 4 {
            // Pool max size: 4 matrices
            let mut m = matrix;
            let mut r: usize = 0;
            while r < m.len()
                invariant
                    r <= m@.len(),
                decreases m.len() - r,
            {
                m[r].clear();
                r = r + 1;
            }
            m.clear();
            let mut pool: Vec<Vec<Vec<usize>>> = Vec::new();
            std::mem::swap(&mut pool, &mut self.matrix_pool);
            pool.push(m);
            self.matrix_pool = pool;
        }
        // If pool full, matrix is dropped (no leak, just not reused)
    }
}

impl Clone for DamerauLevenshtein {
    /// A calculator with a copy of the kept matrices.
    fn clone(&self) -> (c: Self)
        ensures
            c.pool_size() == self.pool_size(),
    {
        proof {
            use_type_invariant(self);
        }
        DamerauLevenshtein { matrix_pool: self.matrix_pool.clone() }
    }
}

impl Default for DamerauLevenshtein {
    fn default() -> (calc: Self)
        ensures
            calc.pool_size() == 0,
    {
        Self::new()
    }
}

/// Calculate Damerau-Levenshtein distance in one shot
pub fn damerau_distance(s1: &str, s2: &str, max_dist: usize) -> (d: usize)
    requires
        max_dist < usize::MAX,
    ensures
        d as int == spec_distance(s1@, s2@, max_dist as int),
{
    let mut calc = DamerauLevenshtein::new();
    calc.distance(s1, s2, max_dist)
}

/// Check if two strings are within max distance
pub fn is_within_distance(s1: &str, s2: &str, max_dist: usize) -> (r: bool)
    requires
        max_dist < usize::MAX,
    ensures
        r == (spec_distance(s1@, s2@, max_dist as int) <= max_dist),
{
    damerau_distance(s1, s2, max_dist) <= max_dist
}

} // verus!
