//! The branches of the distance computation give the capped
//! Damerau-Levenshtein distance; in particular the threshold of one is
//! answered without a table, and this module proves that the single-edit
//! test gives exactly what the full table would.

use vstd::prelude::*;
use crate::correction::damerau::{
    branch_distance, has_adjacent_swap, is_one_deletion, lemma_mismatches_monotone, lemma_mismatches_zero, mismatches,
    one_edit_distance, spec_distance,
};
use crate::correction::distance_spec::{
    dl_distance, dl_table, last_before, lemma_dl_bounds, lemma_dl_lower, lemma_dl_zero, lemma_last_before, min2,
};

verus! {

/// Whether `t` is `s` itself, or one substitution, one exchange of two
/// adjacent characters, one deletion or one insertion away from it.
pub open spec fn one_edit_close(s: Seq<char>, t: Seq<char>) -> bool {
    ||| s == t
    ||| (s.len() == t.len() && mismatches(s, t, s.len() as int) == 1)
    ||| (s.len() == t.len() && mismatches(s, t, s.len() as int) == 2 && has_adjacent_swap(s, t))
    ||| (s.len() == t.len() + 1 && is_one_deletion(s, t))
    ||| (t.len() == s.len() + 1 && is_one_deletion(t, s))
}

proof fn lemma_mismatches_ext(a: Seq<char>, b: Seq<char>, c: Seq<char>, d: Seq<char>, n: int)
    requires
        0 <= n,
        forall|k: int| 0 <= k < n ==> a[k] == c[k] && b[k] == d[k],
    ensures
        mismatches(a, b, n) == mismatches(c, d, n),
    decreases n,
{
    if n > 0 {
        lemma_mismatches_ext(a, b, c, d, n - 1);
    }
}

proof fn lemma_mismatches_agree(a: Seq<char>, b: Seq<char>, n: int)
    requires
        0 <= n,
        forall|k: int| 0 <= k < n ==> a[k] == b[k],
    ensures
        mismatches(a, b, n) == 0,
    decreases n,
{
    if n > 0 {
        lemma_mismatches_agree(a, b, n - 1);
    }
}

/// One step of the table: a deletion, an insertion or a diagonal move.
proof fn lemma_dl_steps(a: Seq<char>, b: Seq<char>, i: int, j: int)
    requires
        i >= 1,
        j >= 1,
    ensures
        dl_table(a, b, i, j) <= dl_table(a, b, i - 1, j) + 1,
        dl_table(a, b, i, j) <= dl_table(a, b, i, j - 1) + 1,
        dl_table(a, b, i, j) <= dl_table(a, b, i - 1, j - 1) + (if a[i - 1] == b[j - 1] { 0int } else { 1int }),
{
}

/// Along the diagonal the table grows by at most the mismatches passed.
proof fn lemma_diag_bound(a: Seq<char>, b: Seq<char>, m: int, n: int)
    requires
        0 <= m <= n,
    ensures
        dl_table(a, b, n, n) <= dl_table(a, b, m, m) + mismatches(a, b, n) - mismatches(a, b, m),
    decreases n - m,
{
    if m < n {
        lemma_diag_bound(a, b, m, n - 1);
        lemma_dl_steps(a, b, n, n);
    }
}

/// Along the diagonal one below, matching characters cost nothing.
proof fn lemma_lower_diag_bound(a: Seq<char>, b: Seq<char>, m: int, n: int)
    requires
        0 <= m <= n,
        forall|t: int| m <= t < n ==> a[t + 1] == b[t],
    ensures
        dl_table(a, b, n + 1, n) <= dl_table(a, b, m + 1, m),
    decreases n - m,
{
    if m < n {
        lemma_lower_diag_bound(a, b, m, n - 1);
        lemma_dl_steps(a, b, n + 1, n);
    }
}

/// Along the diagonal one above, matching characters cost nothing.
proof fn lemma_upper_diag_bound(a: Seq<char>, b: Seq<char>, m: int, n: int)
    requires
        0 <= m <= n,
        forall|t: int| m <= t < n ==> a[t] == b[t + 1],
    ensures
        dl_table(a, b, n, n + 1) <= dl_table(a, b, m, m + 1),
    decreases n - m,
{
    if m < n {
        lemma_upper_diag_bound(a, b, m, n - 1);
        lemma_dl_steps(a, b, n, n + 1);
    }
}

/// Appending the same character to both keeps them one edit apart.
proof fn lemma_close_append(s: Seq<char>, t: Seq<char>, x: char)
    requires
        one_edit_close(s, t),
    ensures
        one_edit_close(s.push(x), t.push(x)),
{
    let s2 = s.push(x);
    let t2 = t.push(x);
    if s == t {
    } else if s.len() == t.len() && mismatches(s, t, s.len() as int) == 1 {
        lemma_mismatches_ext(s2, t2, s, t, s.len() as int);
    } else if s.len() == t.len() && mismatches(s, t, s.len() as int) == 2 && has_adjacent_swap(s, t) {
        lemma_mismatches_ext(s2, t2, s, t, s.len() as int);
        let k = choose|k: int| 0 <= k && k + 1 < s.len() && s[k] != t[k] && #[trigger] s[k] == t[k + 1] && s[k + 1] == t[k];
        assert(s2[k] == t2[k + 1]);
    } else if s.len() == t.len() + 1 && is_one_deletion(s, t) {
        let k = choose|k: int| 0 <= k < s.len() && #[trigger] s.remove(k) == t;
        assert(s2.remove(k) =~= t2);
    } else {
        let k = choose|k: int| 0 <= k < t.len() && #[trigger] t.remove(k) == s;
        assert(t2.remove(k) =~= s2);
    }
}

/// Prefixes whose table cell is at most one are one edit apart.
#[verifier::rlimit(40)]
proof fn lemma_close_when_within_one(a: Seq<char>, b: Seq<char>, i: int, j: int)
    requires
        0 <= i <= a.len(),
        0 <= j <= b.len(),
        dl_table(a, b, i, j) <= 1,
    ensures
        one_edit_close(a.subrange(0, i), b.subrange(0, j)),
    decreases i + j,
{
    let s = a.subrange(0, i);
    let t = b.subrange(0, j);
    if i == 0 {
        if j == 1 {
            assert(t.remove(0) =~= s);
            assert(is_one_deletion(t, s));
        } else {
            assert(s =~= t);
        }
    } else if j == 0 {
        if i == 1 {
            assert(s.remove(0) =~= t);
            assert(is_one_deletion(s, t));
        } else {
            assert(s =~= t);
        }
    } else {
        lemma_dl_bounds(a, b, i - 1, j);
        lemma_dl_bounds(a, b, i, j - 1);
        lemma_dl_bounds(a, b, i - 1, j - 1);
        lemma_last_before(a, i, b[j - 1]);
        lemma_last_before(b, j, a[i - 1]);
        let cost: int = if a[i - 1] == b[j - 1] { 0 } else { 1 };
        let k = last_before(a, i, b[j - 1]);
        let l = last_before(b, j, a[i - 1]);
        if dl_table(a, b, i - 1, j) == 0 {
            lemma_dl_zero(a, b, i - 1, j);
            assert(s.remove(i - 1) =~= t);
            assert(is_one_deletion(s, t));
        } else if dl_table(a, b, i, j - 1) == 0 {
            lemma_dl_zero(a, b, i, j - 1);
            assert(t.remove(j - 1) =~= s);
            assert(is_one_deletion(t, s));
        } else if dl_table(a, b, i - 1, j - 1) + cost <= 1 {
            if cost == 1 {
                lemma_dl_zero(a, b, i - 1, j - 1);
                assert forall|q: int| 0 <= q < i - 1 implies s[q] == t[q] by {
                    assert(s[q] == a.subrange(0, i - 1)[q] && t[q] == b.subrange(0, j - 1)[q]);
                }
                lemma_mismatches_agree(s, t, i - 1);
                assert(s[i - 1] != t[i - 1]);
                assert(mismatches(s, t, i) == mismatches(s, t, i - 1) + 1);
                assert(s.len() == t.len() && mismatches(s, t, s.len() as int) == 1);
            } else {
                lemma_close_when_within_one(a, b, i - 1, j - 1);
                lemma_close_append(a.subrange(0, i - 1), b.subrange(0, j - 1), a[i - 1]);
                assert(s =~= a.subrange(0, i - 1).push(a[i - 1]));
                assert(t =~= b.subrange(0, j - 1).push(a[i - 1]));
            }
        } else {
            // only the transposition can give at most one
            lemma_dl_bounds(a, b, k - 1, l - 1);
            assert(k != 0 && l != 0 && l < j);
            assert(k == i - 1 && l == j - 1);
            lemma_dl_zero(a, b, k - 1, l - 1);
            assert(i == j);
            assert forall|q: int| 0 <= q < i - 2 implies s[q] == t[q] by {
                assert(s[q] == a.subrange(0, k - 1)[q] && t[q] == b.subrange(0, l - 1)[q]);
            }
            if a[i - 2] == a[i - 1] {
                assert(s =~= t);
            } else {
                lemma_mismatches_agree(s, t, i - 2);
                assert(s[i - 2] == t[i - 1] && s[i - 1] == t[i - 2] && s[i - 2] != t[i - 2]);
                assert(s[i - 1] != t[i - 1]);
                assert(mismatches(s, t, i - 1) == mismatches(s, t, i - 2) + 1);
                assert(mismatches(s, t, i) == mismatches(s, t, i - 1) + 1);
                assert(has_adjacent_swap(s, t));
                assert(s.len() == t.len() && mismatches(s, t, s.len() as int) == 2);
            }
        }
    }
}

/// Sequences one edit apart have a table distance of at most one.
#[verifier::rlimit(40)]
proof fn lemma_within_one_when_close(a: Seq<char>, b: Seq<char>)
    requires
        one_edit_distance(a, b) == 1,
    ensures
        dl_distance(a, b) <= 1,
{
    let la = a.len() as int;
    let lb = b.len() as int;
    if la == lb {
        let d = mismatches(a, b, la);
        if d == 1 {
            lemma_diag_bound(a, b, 0, la);
        } else {
            let p = choose|p: int| 0 <= p && p + 1 < a.len() && a[p] != b[p] && #[trigger] a[p] == b[p + 1] && a[p + 1] == b[p];
            lemma_mismatches_monotone(a, b, p, la);
            lemma_mismatches_monotone(a, b, p + 2, la);
            lemma_mismatches_monotone(a, b, 0, p);
            assert(a[p + 1] != b[p + 1]);
            assert(mismatches(a, b, p + 1) == mismatches(a, b, p) + 1);
            assert(mismatches(a, b, p + 2) == mismatches(a, b, p) + 2);
            lemma_diag_bound(a, b, 0, p);
            lemma_dl_bounds(a, b, p, p);
            assert(last_before(a, p + 2, b[p + 1]) == p + 1);
            assert(last_before(b, p + 2, a[p + 1]) == p + 1);
            assert(dl_table(a, b, p + 2, p + 2) <= dl_table(a, b, p, p) + 1);
            lemma_diag_bound(a, b, p + 2, la);
        }
    } else if la + 1 == lb {
        let k = choose|k: int| 0 <= k < b.len() && #[trigger] b.remove(k) == a;
        assert forall|t: int| 0 <= t < k implies a[t] == b[t] by {
            assert(b.remove(k)[t] == b[t]);
        }
        assert forall|t: int| k <= t < la implies a[t] == b[t + 1] by {
            assert(b.remove(k)[t] == b[t + 1]);
        }
        lemma_mismatches_agree(a, b, k);
        lemma_diag_bound(a, b, 0, k);
        if k > 0 {
            lemma_dl_steps(a, b, k, k + 1);
        }
        lemma_upper_diag_bound(a, b, k, la);
    } else {
        let k = choose|k: int| 0 <= k < a.len() && #[trigger] a.remove(k) == b;
        assert forall|t: int| 0 <= t < k implies a[t] == b[t] by {
            assert(a.remove(k)[t] == a[t]);
        }
        assert forall|t: int| k <= t < lb implies a[t + 1] == b[t] by {
            assert(a.remove(k)[t] == a[t + 1]);
        }
        lemma_mismatches_agree(a, b, k);
        lemma_diag_bound(a, b, 0, k);
        if k > 0 {
            lemma_dl_steps(a, b, k + 1, k);
        }
        lemma_lower_diag_bound(a, b, k, lb);
    }
}

/// The single-edit test is the capped table distance: for two different,
/// non-empty sequences whose lengths differ by at most one,
/// `one_edit_distance` is the Damerau-Levenshtein distance capped at two.
proof fn lemma_one_edit_exact(a: Seq<char>, b: Seq<char>)
    requires
        a != b,
        a.len() > 0,
        b.len() > 0,
        a.len() <= b.len() + 1,
        b.len() <= a.len() + 1,
    ensures
        one_edit_distance(a, b) == min2(dl_distance(a, b), 2),
{
    let la = a.len() as int;
    let lb = b.len() as int;
    lemma_dl_bounds(a, b, la, lb);
    if dl_distance(a, b) == 0 {
        lemma_dl_zero(a, b, la, lb);
        assert(a =~= a.subrange(0, la));
        assert(b =~= b.subrange(0, lb));
    }
    if dl_distance(a, b) <= 1 {
        lemma_close_when_within_one(a, b, la, lb);
        assert(a.subrange(0, la) =~= a);
        assert(b.subrange(0, lb) =~= b);
    } else {
        if one_edit_distance(a, b) == 1 {
            lemma_within_one_when_close(a, b);
        }
        if la == lb && mismatches(a, b, la) == 0 {
            lemma_mismatches_zero_equal(a, b, la);
        }
    }
}

proof fn lemma_mismatches_zero_equal(a: Seq<char>, b: Seq<char>, n: int)
    requires
        0 <= n,
        a.len() == n,
        b.len() == n,
        mismatches(a, b, n) == 0,
    ensures
        a == b,
{
    lemma_mismatches_zero(a, b, n);
    assert(a =~= b);
}

/// A sequence is at distance 0 from itself.
pub(crate) proof fn lemma_dl_self_zero(a: Seq<char>)
    ensures
        dl_distance(a, a) == 0,
{
    let la = a.len() as int;
    lemma_dl_bounds(a, a, la, la);
    lemma_mismatches_agree(a, a, la);
    lemma_diag_bound(a, a, 0, la);
}

/// With a threshold of one the single-edit test answers what the table
/// would: the Damerau-Levenshtein distance capped at two.
pub proof fn law_fast_path_is_full_distance(a: Seq<char>, b: Seq<char>)
    ensures
        branch_distance(a, b, 1) == min2(dl_distance(a, b), 2),
{
    let la = a.len() as int;
    let lb = b.len() as int;
    lemma_dl_bounds(a, b, la, lb);
    lemma_dl_lower(a, b, la, lb);
    if a == b {
        lemma_dl_self_zero(a);
    } else if la > 0 && lb > 0 && la <= lb + 1 && lb <= la + 1 {
        lemma_one_edit_exact(a, b);
    }
}

/// The branches of the computation give the capped distance.
pub(crate) proof fn lemma_branches_give_distance(a: Seq<char>, b: Seq<char>, max: int)
    requires
        0 <= max,
    ensures
        branch_distance(a, b, max) == spec_distance(a, b, max),
{
    let la = a.len() as int;
    let lb = b.len() as int;
    lemma_dl_bounds(a, b, la, lb);
    lemma_dl_lower(a, b, la, lb);
    if max == 1 {
        law_fast_path_is_full_distance(a, b);
    } else if a == b {
        lemma_dl_self_zero(a);
    }
}

} // verus!
