//! The Damerau-Levenshtein recurrence that the distance tables of this crate
//! compute, stated over character sequences.

use vstd::prelude::*;

verus! {

/// 1-based position of the last occurrence of `c` among the first `n - 1`
/// elements of `s`, or 0 when `c` does not occur there.
pub open spec fn last_before(s: Seq<char>, n: int, c: char) -> int
    decreases n,
{
    if n <= 1 {
        0
    } else if s[n - 2] == c {
        n - 1
    } else {
        last_before(s, n - 1, c)
    }
}

pub proof fn lemma_last_before(s: Seq<char>, n: int, c: char)
    ensures
        0 <= last_before(s, n, c),
        n >= 1 ==> last_before(s, n, c) < n,
        last_before(s, n, c) != 0 ==> s[last_before(s, n, c) - 1] == c,
    decreases n,
{
    if n > 1 && s[n - 2] != c {
        lemma_last_before(s, n - 1, c);
    }
}

pub open spec fn min2(x: int, y: int) -> int {
    if x <= y { x } else { y }
}

/// Cell `(i, j)` of the Damerau-Levenshtein table of `a` against `b`
/// (unrestricted transpositions, Lowrance-Wagner): the distance between the
/// first `i` characters of `a` and the first `j` characters of `b`.
///
/// `k` is the last row before `i` whose character is `b[j-1]` and `l` the
/// last column before `j` whose character is `a[i-1]`; where either is
/// missing, no transposition ends at `(i, j)`.
pub open spec fn dl_table(a: Seq<char>, b: Seq<char>, i: int, j: int) -> int
    decreases i + j,
{
    if i <= 0 {
        if j <= 0 { 0 } else { j }
    } else if j <= 0 {
        i
    } else {
        let cost: int = if a[i - 1] == b[j - 1] { 0 } else { 1 };
        let base = min2(
            min2(dl_table(a, b, i - 1, j) + 1, dl_table(a, b, i, j - 1) + 1),
            dl_table(a, b, i - 1, j - 1) + cost,
        );
        let k = last_before(a, i, b[j - 1]);
        let l0 = last_before(b, j, a[i - 1]);
        let l = l0;
        proof {
            lemma_last_before(a, i, b[j - 1]);
            lemma_last_before(b, j, a[i - 1]);
        }
        if k != 0 && l != 0 && l < j {
            min2(base, dl_table(a, b, k - 1, l - 1) + (i - k - 1) + 1 + (j - l - 1))
        } else {
            base
        }
    }
}

/// Every cell is at least 0 and at most the larger of its two coordinates.
pub proof fn lemma_dl_bounds(a: Seq<char>, b: Seq<char>, i: int, j: int)
    requires
        0 <= i,
        0 <= j,
    ensures
        0 <= dl_table(a, b, i, j),
        dl_table(a, b, i, j) <= if i >= j { i } else { j },
    decreases i + j,
{
    if i > 0 && j > 0 {
        lemma_dl_bounds(a, b, i - 1, j);
        lemma_dl_bounds(a, b, i, j - 1);
        lemma_dl_bounds(a, b, i - 1, j - 1);
        lemma_last_before(a, i, b[j - 1]);
        lemma_last_before(b, j, a[i - 1]);
        let k = last_before(a, i, b[j - 1]);
        let l0 = last_before(b, j, a[i - 1]);
        let l = l0;
        if k != 0 && l != 0 && l < j {
            lemma_dl_bounds(a, b, k - 1, l - 1);
        }
    }
}

/// The distance of two sequences: the bottom-right cell of their table.
pub open spec fn dl_distance(a: Seq<char>, b: Seq<char>) -> int {
    dl_table(a, b, a.len() as int, b.len() as int)
}


/// A table cell is 0 only where both prefixes are the same sequence.
pub proof fn lemma_dl_zero(a: Seq<char>, b: Seq<char>, i: int, j: int)
    requires
        0 <= i <= a.len(),
        0 <= j <= b.len(),
        dl_table(a, b, i, j) == 0,
    ensures
        i == j,
        a.subrange(0, i) == b.subrange(0, j),
    decreases i + j,
{
    if i > 0 && j > 0 {
        lemma_dl_bounds(a, b, i - 1, j);
        lemma_dl_bounds(a, b, i, j - 1);
        lemma_dl_bounds(a, b, i - 1, j - 1);
        lemma_last_before(a, i, b[j - 1]);
        lemma_last_before(b, j, a[i - 1]);
        let k = last_before(a, i, b[j - 1]);
        let l0 = last_before(b, j, a[i - 1]);
        let l = l0;
        if k != 0 && l != 0 && l < j {
            lemma_dl_bounds(a, b, k - 1, l - 1);
        }
        lemma_dl_zero(a, b, i - 1, j - 1);
        assert(a.subrange(0, i) =~= a.subrange(0, i - 1).push(a[i - 1]));
        assert(b.subrange(0, j) =~= b.subrange(0, j - 1).push(b[j - 1]));
    }
}

/// A cell is never below the difference of its two coordinates.
pub proof fn lemma_dl_lower(a: Seq<char>, b: Seq<char>, i: int, j: int)
    requires
        0 <= i,
        0 <= j,
    ensures
        dl_table(a, b, i, j) >= if i >= j { i - j } else { j - i },
    decreases i + j,
{
    if i > 0 && j > 0 {
        lemma_dl_lower(a, b, i - 1, j);
        lemma_dl_lower(a, b, i, j - 1);
        lemma_dl_lower(a, b, i - 1, j - 1);
        lemma_last_before(a, i, b[j - 1]);
        lemma_last_before(b, j, a[i - 1]);
        let k = last_before(a, i, b[j - 1]);
        let l0 = last_before(b, j, a[i - 1]);
        let l = l0;
        if k != 0 && l != 0 && l < j {
            lemma_dl_lower(a, b, k - 1, l - 1);
        }
    }
}

/// The table read from the other side: cell `(i, j)` of `a` against `b` is
/// cell `(j, i)` of `b` against `a`.
pub proof fn lemma_dl_symmetric(a: Seq<char>, b: Seq<char>, i: int, j: int)
    requires
        0 <= i,
        0 <= j,
    ensures
        dl_table(a, b, i, j) == dl_table(b, a, j, i),
    decreases i + j,
{
    if i > 0 && j > 0 {
        lemma_dl_symmetric(a, b, i - 1, j);
        lemma_dl_symmetric(a, b, i, j - 1);
        lemma_dl_symmetric(a, b, i - 1, j - 1);
        lemma_last_before(a, i, b[j - 1]);
        lemma_last_before(b, j, a[i - 1]);
        let k = last_before(a, i, b[j - 1]);
        let l = last_before(b, j, a[i - 1]);
        if k != 0 && l != 0 {
            lemma_dl_symmetric(a, b, k - 1, l - 1);
        }
    }
}

} // verus!
