//! Ordered (word, frequency) lists: their views, and a stable sort by
//! frequency, highest first.

use vstd::prelude::*;

verus! {

/// A (word, frequency) list with the word as a character sequence.
pub open spec fn entries_view(e: Seq<(Vec<char>, u64)>) -> Seq<(Seq<char>, u64)> {
    e.map_values(|x: (Vec<char>, u64)| (x.0@, x.1))
}

/// No word occurs twice in the list.
pub open spec fn words_distinct(e: Seq<(Seq<char>, u64)>) -> bool {
    forall|a: int, b: int| 0 <= a < b < e.len() ==> e[a].0 != e[b].0
}

/// Frequencies never increase along the list.
pub open spec fn by_frequency_desc(e: Seq<(Seq<char>, u64)>) -> bool {
    forall|a: int, b: int| 0 <= a < b < e.len() ==> e[a].1 >= e[b].1
}

pub(crate) proof fn lemma_insert_index<T>(old_r: Seq<T>, pos: int, x: T)
    requires
        0 <= pos <= old_r.len(),
    ensures
        forall|k: int| 0 <= k < old_r.len() + 1 ==> (k < pos ==> #[trigger] old_r.insert(pos, x)[k] == old_r[k])
            && (k == pos ==> old_r.insert(pos, x)[k] == x) && (k > pos ==> old_r.insert(pos, x)[k] == old_r[k - 1]),
{
}

proof fn lemma_insert_sorted(old_r: Seq<(Seq<char>, u64)>, pos: int, x: (Seq<char>, u64))
    requires
        0 <= pos <= old_r.len(),
        by_frequency_desc(old_r),
        forall|k: int| 0 <= k < pos ==> old_r[k].1 >= x.1,
        pos < old_r.len() ==> old_r[pos].1 < x.1,
    ensures
        by_frequency_desc(old_r.insert(pos, x)),
{
    let nr = old_r.insert(pos, x);
    lemma_insert_index(old_r, pos, x);
    assert forall|a: int, b: int| 0 <= a < b < nr.len() implies nr[a].1 >= nr[b].1 by {
        if b == pos {
            assert(nr[a] == old_r[a]);
        } else if a == pos {
            assert(nr[b] == old_r[b - 1]);
            assert(old_r[pos].1 >= old_r[b - 1].1);
        } else if a < pos && b < pos {
            assert(nr[a] == old_r[a] && nr[b] == old_r[b]);
        } else if a < pos {
            assert(nr[a] == old_r[a] && nr[b] == old_r[b - 1]);
        } else {
            assert(nr[a] == old_r[a - 1] && nr[b] == old_r[b - 1]);
        }
    }
}

/// The first `i` entries of `orig`, in some order.
pub open spec fn holds_prefix_of<T>(r: Seq<T>, orig: Seq<T>, i: int) -> bool {
    &&& r.len() == i
    &&& forall|k: int| 0 <= k < i ==> exists|m: int| 0 <= m < i && #[trigger] r[k] == orig[m]
    &&& forall|m: int| 0 <= m < i ==> exists|k: int| 0 <= k < i && r[k] == #[trigger] orig[m]
}

/// Inserting the next entry of `orig` anywhere keeps a reordering of the
/// entries of `orig` taken so far.
pub proof fn lemma_insert_holds<T>(old_r: Seq<T>, pos: int, orig: Seq<T>, i: int)
    requires
        0 <= pos <= old_r.len(),
        0 <= i < orig.len(),
        holds_prefix_of(old_r, orig, i),
    ensures
        holds_prefix_of(old_r.insert(pos, orig[i]), orig, i + 1),
{
    let x = orig[i];
    let nr = old_r.insert(pos, x);
    lemma_insert_index(old_r, pos, x);
    assert forall|k: int| 0 <= k < i + 1 implies exists|m: int| 0 <= m < i + 1 && #[trigger] nr[k] == orig[m] by {
        if k == pos {
            assert(nr[k] == orig[i]);
        } else {
            let ki = if k < pos { k } else { k - 1 };
            assert(nr[k] == old_r[ki]);
            let m = choose|m: int| 0 <= m < i && #[trigger] old_r[ki] == orig[m];
            assert(nr[k] == orig[m]);
        }
    }
    assert forall|m: int| 0 <= m < i + 1 implies exists|k: int| 0 <= k < i + 1 && nr[k] == #[trigger] orig[m] by {
        if m == i {
            assert(nr[pos] == orig[m]);
        } else {
            let k = choose|k: int| 0 <= k < i && old_r[k] == #[trigger] orig[m];
            if k < pos {
                assert(nr[k] == orig[m]);
            } else {
                assert(nr[k + 1] == orig[m]);
            }
        }
    }
}

proof fn lemma_insert_distinct(
    old_r: Seq<(Seq<char>, u64)>,
    pos: int,
    orig: Seq<(Seq<char>, u64)>,
    i: int,
)
    requires
        0 <= pos <= old_r.len(),
        0 <= i < orig.len(),
        words_distinct(orig),
        words_distinct(old_r),
        holds_prefix_of(old_r, orig, i),
    ensures
        words_distinct(old_r.insert(pos, orig[i])),
        holds_prefix_of(old_r.insert(pos, orig[i]), orig, i + 1),
{
    let x = orig[i];
    let nr = old_r.insert(pos, x);
    lemma_insert_index(old_r, pos, x);
    assert forall|a: int, b: int| 0 <= a < b < nr.len() implies nr[a].0 != nr[b].0 by {
        if a == pos || b == pos {
            let o = if a == pos { b } else { a };
            let oi = if o < pos { o } else { o - 1 };
            assert(nr[o] == old_r[oi]);
            let m = choose|m: int| 0 <= m < i && #[trigger] old_r[oi] == orig[m];
            assert(orig[m].0 != orig[i].0);
        } else {
            let ai = if a < pos { a } else { a - 1 };
            let bi = if b < pos { b } else { b - 1 };
            assert(nr[a] == old_r[ai] && nr[b] == old_r[bi]);
        }
    }
    assert forall|k: int| 0 <= k < i + 1 implies exists|m: int| 0 <= m < i + 1 && #[trigger] nr[k] == orig[m] by {
        if k == pos {
            assert(nr[k] == orig[i]);
        } else {
            let ki = if k < pos { k } else { k - 1 };
            assert(nr[k] == old_r[ki]);
            let m = choose|m: int| 0 <= m < i && #[trigger] old_r[ki] == orig[m];
            assert(nr[k] == orig[m]);
        }
    }
    assert forall|m: int| 0 <= m < i + 1 implies exists|k: int| 0 <= k < i + 1 && nr[k] == #[trigger] orig[m] by {
        if m == i {
            assert(nr[pos] == orig[m]);
        } else {
            let k = choose|k: int| 0 <= k < i && old_r[k] == #[trigger] orig[m];
            if k < pos {
                assert(nr[k] == orig[m]);
            } else {
                assert(nr[k + 1] == orig[m]);
            }
        }
    }
}

proof fn lemma_entries_insert(s: Seq<(Vec<char>, u64)>, pos: int, x: (Vec<char>, u64))
    requires
        0 <= pos <= s.len(),
    ensures
        entries_view(s.insert(pos, x)) == entries_view(s).insert(pos, (x.0@, x.1)),
{
    assert(entries_view(s.insert(pos, x)) =~= entries_view(s).insert(pos, (x.0@, x.1)));
}

proof fn lemma_entries_drop_first(s: Seq<(Vec<char>, u64)>)
    requires
        s.len() > 0,
    ensures
        entries_view(s.subrange(1, s.len() as int)) == entries_view(s).subrange(1, s.len() as int),
        entries_view(s)[0] == (s[0].0@, s[0].1),
{
    assert(entries_view(s.subrange(1, s.len() as int)) =~= entries_view(s).subrange(1, s.len() as int));
}

/// The first entry of the unsorted rest is the next entry of `orig`.
proof fn lemma_entries_next(src: Seq<(Vec<char>, u64)>, orig: Seq<(Seq<char>, u64)>, i: int)
    requires
        0 <= i < orig.len(),
        src.len() == orig.len() - i,
        entries_view(src) == orig.subrange(i, orig.len() as int),
    ensures
        (src[0].0@, src[0].1) == orig[i],
        entries_view(src.subrange(1, src.len() as int)) == orig.subrange(i + 1, orig.len() as int),
{
    lemma_entries_drop_first(src);
    assert(orig.subrange(i, orig.len() as int)[0] == orig[i]);
    assert(orig.subrange(i, orig.len() as int).subrange(1, orig.len() - i) =~= orig.subrange(i + 1, orig.len() as int));
}

/// Inserting the next entry of `orig` at its place keeps the sorted prefix.
proof fn lemma_sort_step(old_rv: Seq<(Vec<char>, u64)>, pos: int, x: (Vec<char>, u64), orig: Seq<(Seq<char>, u64)>, i: int)
    requires
        0 <= pos <= old_rv.len(),
        0 <= i < orig.len(),
        words_distinct(orig),
        words_distinct(entries_view(old_rv)),
        by_frequency_desc(entries_view(old_rv)),
        holds_prefix_of(entries_view(old_rv), orig, i),
        (x.0@, x.1) == orig[i],
        forall|k: int| 0 <= k < pos ==> old_rv[k].1 >= x.1,
        pos < old_rv.len() ==> old_rv[pos].1 < x.1,
    ensures
        words_distinct(entries_view(old_rv.insert(pos, x))),
        by_frequency_desc(entries_view(old_rv.insert(pos, x))),
        holds_prefix_of(entries_view(old_rv.insert(pos, x)), orig, i + 1),
{
    let old_r = entries_view(old_rv);
    lemma_entries_insert(old_rv, pos, x);
    lemma_insert_sorted(old_r, pos, (x.0@, x.1));
    lemma_insert_distinct(old_r, pos, orig, i);
}

/// Orders entries by frequency, highest first; entries of equal frequency
/// keep their order.
#[verifier::rlimit(30)]
pub(crate) fn sort_by_frequency_desc(v: Vec<(Vec<char>, u64)>) -> (r: Vec<(Vec<char>, u64)>)
    requires
        words_distinct(entries_view(v@)),
    ensures
        holds_prefix_of(entries_view(r@), entries_view(v@), v@.len() as int),
        words_distinct(entries_view(r@)),
        by_frequency_desc(entries_view(r@)),
{
    let ghost orig = entries_view(v@);
    let n = v.len();
    let mut src = v;
    let mut r: Vec<(Vec<char>, u64)> = Vec::new();
    let mut i: usize = 0;
    while i < n
        invariant
            n == orig.len(),
            i <= n,
            words_distinct(orig),
            src@.len() == n - i,
            entries_view(src@) == orig.subrange(i as int, n as int),
            words_distinct(entries_view(r@)),
            by_frequency_desc(entries_view(r@)),
            holds_prefix_of(entries_view(r@), orig, i as int),
        decreases n - i,
    {
        let ghost old_src = src@;
        let x = src.remove(0);
        proof {
            assert(src@ =~= old_src.subrange(1, old_src.len() as int));
            lemma_entries_next(old_src, orig, i as int);
        }
        let mut pos: usize = 0;
        while pos < r.len() && r[pos].1 >= x.1
            invariant
                pos <= r@.len(),
                forall|k: int| 0 <= k < pos ==> r@[k].1 >= x.1,
            decreases r.len() - pos,
        {
            pos = pos + 1;
        }
        let ghost old_rv = r@;
        r.insert(pos, x);
        proof {
            lemma_sort_step(old_rv, pos as int, x, orig, i as int);
        }
        i = i + 1;
    }
    r
}

/// A (word, distance, frequency) list with the word as a character sequence.
pub open spec fn scored_view(e: Seq<(Vec<char>, usize, u64)>) -> Seq<(Seq<char>, usize, u64)> {
    e.map_values(|x: (Vec<char>, usize, u64)| (x.0@, x.1, x.2))
}

/// No word occurs twice in the scored list.
pub open spec fn scored_distinct(e: Seq<(Seq<char>, usize, u64)>) -> bool {
    forall|a: int, b: int| 0 <= a < b < e.len() ==> e[a].0 != e[b].0
}

/// `x` ranks no lower than `y`: a smaller distance, or the same distance
/// and a frequency at least as high.
pub open spec fn ranks_before(x: (Seq<char>, usize, u64), y: (Seq<char>, usize, u64)) -> bool {
    x.1 < y.1 || (x.1 == y.1 && x.2 >= y.2)
}

/// Entries never rank above an entry before them.
pub open spec fn by_rank(e: Seq<(Seq<char>, usize, u64)>) -> bool {
    forall|a: int, b: int| 0 <= a < b < e.len() ==> #[trigger] ranks_before(e[a], e[b])
}

proof fn lemma_insert_ranked(old_r: Seq<(Seq<char>, usize, u64)>, pos: int, x: (Seq<char>, usize, u64))
    requires
        0 <= pos <= old_r.len(),
        by_rank(old_r),
        forall|k: int| 0 <= k < pos ==> ranks_before(old_r[k], x),
        pos < old_r.len() ==> !ranks_before(old_r[pos], x),
    ensures
        by_rank(old_r.insert(pos, x)),
{
    let nr = old_r.insert(pos, x);
    lemma_insert_index(old_r, pos, x);
    assert forall|a: int, b: int| 0 <= a < b < nr.len() implies #[trigger] ranks_before(nr[a], nr[b]) by {
        if b == pos {
            assert(nr[a] == old_r[a]);
        } else if a == pos {
            assert(nr[b] == old_r[b - 1]);
            if b - 1 > pos {
                assert(ranks_before(old_r[pos], old_r[b - 1]));
            }
        } else if a < pos && b < pos {
            assert(nr[a] == old_r[a] && nr[b] == old_r[b]);
            assert(ranks_before(old_r[a], old_r[b]));
        } else if a < pos {
            assert(nr[a] == old_r[a] && nr[b] == old_r[b - 1]);
            assert(ranks_before(old_r[a], old_r[b - 1]));
        } else {
            assert(nr[a] == old_r[a - 1] && nr[b] == old_r[b - 1]);
            assert(ranks_before(old_r[a - 1], old_r[b - 1]));
        }
    }
}

pub(crate) proof fn lemma_insert_distinct_scored(
    old_r: Seq<(Seq<char>, usize, u64)>,
    pos: int,
    orig: Seq<(Seq<char>, usize, u64)>,
    i: int,
)
    requires
        0 <= pos <= old_r.len(),
        0 <= i < orig.len(),
        scored_distinct(orig),
        scored_distinct(old_r),
        holds_prefix_of(old_r, orig, i),
    ensures
        scored_distinct(old_r.insert(pos, orig[i])),
        holds_prefix_of(old_r.insert(pos, orig[i]), orig, i + 1),
{
    let x = orig[i];
    let nr = old_r.insert(pos, x);
    lemma_insert_index(old_r, pos, x);
    assert forall|a: int, b: int| 0 <= a < b < nr.len() implies nr[a].0 != nr[b].0 by {
        if a == pos || b == pos {
            let o = if a == pos { b } else { a };
            let oi = if o < pos { o } else { o - 1 };
            assert(nr[o] == old_r[oi]);
            let m = choose|m: int| 0 <= m < i && #[trigger] old_r[oi] == orig[m];
            assert(orig[m].0 != orig[i].0);
        } else {
            let ai = if a < pos { a } else { a - 1 };
            let bi = if b < pos { b } else { b - 1 };
            assert(nr[a] == old_r[ai] && nr[b] == old_r[bi]);
        }
    }
    assert forall|k: int| 0 <= k < i + 1 implies exists|m: int| 0 <= m < i + 1 && #[trigger] nr[k] == orig[m] by {
        if k == pos {
            assert(nr[k] == orig[i]);
        } else {
            let ki = if k < pos { k } else { k - 1 };
            assert(nr[k] == old_r[ki]);
            let m = choose|m: int| 0 <= m < i && #[trigger] old_r[ki] == orig[m];
            assert(nr[k] == orig[m]);
        }
    }
    assert forall|m: int| 0 <= m < i + 1 implies exists|k: int| 0 <= k < i + 1 && nr[k] == #[trigger] orig[m] by {
        if m == i {
            assert(nr[pos] == orig[m]);
        } else {
            let k = choose|k: int| 0 <= k < i && old_r[k] == #[trigger] orig[m];
            if k < pos {
                assert(nr[k] == orig[m]);
            } else {
                assert(nr[k + 1] == orig[m]);
            }
        }
    }
}

pub(crate) proof fn lemma_scored_insert(s: Seq<(Vec<char>, usize, u64)>, pos: int, x: (Vec<char>, usize, u64))
    requires
        0 <= pos <= s.len(),
    ensures
        scored_view(s.insert(pos, x)) == scored_view(s).insert(pos, (x.0@, x.1, x.2)),
{
    assert(scored_view(s.insert(pos, x)) =~= scored_view(s).insert(pos, (x.0@, x.1, x.2)));
}

proof fn lemma_scored_drop_first(s: Seq<(Vec<char>, usize, u64)>)
    requires
        s.len() > 0,
    ensures
        scored_view(s.subrange(1, s.len() as int)) == scored_view(s).subrange(1, s.len() as int),
        scored_view(s)[0] == (s[0].0@, s[0].1, s[0].2),
{
    assert(scored_view(s.subrange(1, s.len() as int)) =~= scored_view(s).subrange(1, s.len() as int));
}

/// The first entry of the unsorted rest is the next entry of `orig`.
pub(crate) proof fn lemma_scored_next(src: Seq<(Vec<char>, usize, u64)>, orig: Seq<(Seq<char>, usize, u64)>, i: int)
    requires
        0 <= i < orig.len(),
        src.len() == orig.len() - i,
        scored_view(src) == orig.subrange(i, orig.len() as int),
    ensures
        (src[0].0@, src[0].1, src[0].2) == orig[i],
        scored_view(src.subrange(1, src.len() as int)) == orig.subrange(i + 1, orig.len() as int),
{
    lemma_scored_drop_first(src);
    assert(orig.subrange(i, orig.len() as int)[0] == orig[i]);
    assert(orig.subrange(i, orig.len() as int).subrange(1, orig.len() - i) =~= orig.subrange(i + 1, orig.len() as int));
}

/// Inserting the next entry of `orig` at its place keeps the sorted prefix.
proof fn lemma_rank_step(old_rv: Seq<(Vec<char>, usize, u64)>, pos: int, x: (Vec<char>, usize, u64), orig: Seq<(Seq<char>, usize, u64)>, i: int)
    requires
        0 <= pos <= old_rv.len(),
        0 <= i < orig.len(),
        scored_distinct(orig) ==> scored_distinct(scored_view(old_rv)),
        by_rank(scored_view(old_rv)),
        holds_prefix_of(scored_view(old_rv), orig, i),
        (x.0@, x.1, x.2) == orig[i],
        forall|k: int| 0 <= k < pos ==> old_rv[k].1 < x.1 || (old_rv[k].1 == x.1 && old_rv[k].2 >= x.2),
        pos < old_rv.len() ==> !(old_rv[pos].1 < x.1 || (old_rv[pos].1 == x.1 && old_rv[pos].2 >= x.2)),
    ensures
        scored_distinct(orig) ==> scored_distinct(scored_view(old_rv.insert(pos, x))),
        by_rank(scored_view(old_rv.insert(pos, x))),
        holds_prefix_of(scored_view(old_rv.insert(pos, x)), orig, i + 1),
{
    let old_r = scored_view(old_rv);
    lemma_scored_insert(old_rv, pos, x);
    lemma_insert_ranked(old_r, pos, (x.0@, x.1, x.2));
    lemma_insert_holds(old_r, pos, orig, i);
    if scored_distinct(orig) {
        lemma_insert_distinct_scored(old_r, pos, orig, i);
    }
}

/// Orders scored entries by distance, lowest first, then by frequency,
/// highest first; entries that rank alike keep their order.
#[verifier::rlimit(30)]
pub(crate) fn sort_by_rank(v: Vec<(Vec<char>, usize, u64)>) -> (r: Vec<(Vec<char>, usize, u64)>)
    ensures
        holds_prefix_of(scored_view(r@), scored_view(v@), v@.len() as int),
        scored_distinct(scored_view(v@)) ==> scored_distinct(scored_view(r@)),
        by_rank(scored_view(r@)),
{
    let ghost orig = scored_view(v@);
    let n = v.len();
    let mut src = v;
    let mut r: Vec<(Vec<char>, usize, u64)> = Vec::new();
    let mut i: usize = 0;
    while i < n
        invariant
            n == orig.len(),
            i <= n,
            src@.len() == n - i,
            scored_view(src@) == orig.subrange(i as int, n as int),
            scored_distinct(orig) ==> scored_distinct(scored_view(r@)),
            by_rank(scored_view(r@)),
            holds_prefix_of(scored_view(r@), orig, i as int),
        decreases n - i,
    {
        let ghost old_src = src@;
        let x = src.remove(0);
        proof {
            assert(src@ =~= old_src.subrange(1, old_src.len() as int));
            lemma_scored_next(old_src, orig, i as int);
        }
        let mut pos: usize = 0;
        while pos < r.len() && (r[pos].1 < x.1 || (r[pos].1 == x.1 && r[pos].2 >= x.2))
            invariant
                pos <= r@.len(),
                forall|k: int| 0 <= k < pos ==> r@[k].1 < x.1 || (r@[k].1 == x.1 && r@[k].2 >= x.2),
            decreases r.len() - pos,
        {
            pos = pos + 1;
        }
        let ghost old_rv = r@;
        r.insert(pos, x);
        proof {
            lemma_rank_step(old_rv, pos as int, x, orig, i as int);
        }
        i = i + 1;
    }
    r
}

} // verus!
