//! Error map for O(1) typo lookups
//!
//! Stores the typos a user taught and their corrections, in a cache that
//! keeps the most recently used ones.

use lru::LruCache;
use std::collections::hash_map::RandomState;
use vstd::prelude::*;
use crate::base::json::JsonError;
use crate::base::ranking::{holds_prefix_of, lemma_insert_holds};
use crate::text::{lemma_lex_irreflexive, lemma_lex_trans, lex_lt, spec_to_lowercase, str_eq, str_lt, to_lowercase};

verus! {

#[verifier::external_type_specification]
#[verifier::external_body]
#[verifier::reject_recursive_types(K)]
#[verifier::reject_recursive_types(V)]
#[verifier::reject_recursive_types(S)]
pub struct ExLruCache<K, V, S>(lru::LruCache<K, V, S>);

/// The entries of a correction cache, most recently used first.
pub uninterp spec fn lru_entries(c: LruCache<String, String, RandomState>) -> Seq<(Seq<char>, Seq<char>)>;

/// The number of entries a correction cache was made to hold.
pub uninterp spec fn lru_capacity(c: LruCache<String, String, RandomState>) -> nat;

/// No key occurs twice.
pub open spec fn keys_unique(e: Seq<(Seq<char>, Seq<char>)>) -> bool {
    forall|a: int, b: int| 0 <= a < b < e.len() ==> e[a].0 != e[b].0
}

/// What a cache always keeps: distinct keys, and no more entries than it
/// was made to hold.
pub open spec fn cache_ok(c: LruCache<String, String, RandomState>) -> bool {
    &&& keys_unique(lru_entries(c))
    &&& lru_entries(c).len() <= lru_capacity(c)
    &&& lru_capacity(c) > 0
}

/// Whether some entry has key `k`.
pub open spec fn holds_key(e: Seq<(Seq<char>, Seq<char>)>, k: Seq<char>) -> bool {
    exists|p: int| 0 <= p < e.len() && e[p].0 == k
}

/// The position of the entry with key `k`.
pub open spec fn key_pos(e: Seq<(Seq<char>, Seq<char>)>, k: Seq<char>) -> int {
    choose|p: int| 0 <= p < e.len() && e[p].0 == k
}

/// The entries after the one with key `k`, if any, became the most
/// recently used.
pub open spec fn touched(e: Seq<(Seq<char>, Seq<char>)>, k: Seq<char>) -> Seq<(Seq<char>, Seq<char>)> {
    if holds_key(e, k) {
        seq![e[key_pos(e, k)]] + e.remove(key_pos(e, k))
    } else {
        e
    }
}

/// Touching an entry changes no answer: the same keys are held, with the
/// same values.
pub proof fn lemma_touched_answers(e: Seq<(Seq<char>, Seq<char>)>, k: Seq<char>, x: Seq<char>)
    requires
        keys_unique(e),
    ensures
        keys_unique(touched(e, k)),
        holds_key(touched(e, k), x) == holds_key(e, x),
        holds_key(e, x) ==> touched(e, k)[key_pos(touched(e, k), x)].1 == e[key_pos(e, x)].1,
{
    if holds_key(e, k) {
        let p = key_pos(e, k);
        let t = touched(e, k);
        let r = e.remove(p);
        assert(t.len() == e.len());
        assert forall|j: int| 0 <= j < t.len() implies #[trigger] t[j] == if j == 0 { e[p] } else if j <= p { e[j - 1] } else { e[j] } by {
            if j > 0 {
                assert(t[j] == r[j - 1]);
            }
        }
        assert forall|a: int, b: int| 0 <= a < b < t.len() implies t[a].0 != t[b].0 by {
            let ia = if a == 0 { p } else if a <= p { a - 1 } else { a };
            let ib = if b == 0 { p } else if b <= p { b - 1 } else { b };
            assert(t[a] == e[ia] && t[b] == e[ib]);
        }
        if holds_key(e, x) {
            let q = key_pos(e, x);
            let jt = if q == p { 0 } else if q < p { q + 1 } else { q };
            assert(t[jt] == e[q]);
            let qt = key_pos(t, x);
            assert(t[qt].0 == x);
            assert(qt == jt);
        }
        if holds_key(t, x) {
            let qt = key_pos(t, x);
            let ie = if qt == 0 { p } else if qt <= p { qt - 1 } else { qt };
            assert(t[qt] == e[ie]);
        }
    }
}

/// The entries after putting `v` under `k` into a cache that holds at most
/// `cap` entries: the entry goes first, replacing the old one under `k` or,
/// on a full cache, the least recently used one.
pub open spec fn put_entry(
    e: Seq<(Seq<char>, Seq<char>)>,
    k: Seq<char>,
    v: Seq<char>,
    cap: nat,
) -> Seq<(Seq<char>, Seq<char>)> {
    if holds_key(e, k) {
        seq![(k, v)] + e.remove(key_pos(e, k))
    } else if e.len() >= cap {
        seq![(k, v)] + e.drop_last()
    } else {
        seq![(k, v)] + e
    }
}

/// The entries without the one under `k`.
pub open spec fn without_key(e: Seq<(Seq<char>, Seq<char>)>, k: Seq<char>) -> Seq<(Seq<char>, Seq<char>)> {
    if holds_key(e, k) {
        e.remove(key_pos(e, k))
    } else {
        e
    }
}

/// Once put, a correction is found under its typo, with the value put.
pub proof fn law_put_then_found(e: Seq<(Seq<char>, Seq<char>)>, k: Seq<char>, v: Seq<char>, cap: nat)
    requires
        keys_unique(e),
        cap > 0,
    ensures
        holds_key(put_entry(e, k, v, cap), k),
        put_entry(e, k, v, cap)[key_pos(put_entry(e, k, v, cap), k)].1 == v,
{
    let t = put_entry(e, k, v, cap);
    assert(t[0].0 == k);
    let p = key_pos(t, k);
    if p != 0 {
        assert(t[p].0 == k);
        if holds_key(e, k) {
            let q = key_pos(e, k);
            let r = e.remove(q);
            assert(t[p] == r[p - 1]);
            let i = if p - 1 < q { p - 1 } else { p };
            assert(r[p - 1] == e[i]);
            assert(i != q);
        } else if e.len() >= cap {
            assert(t[p] == e[p - 1]);
        } else {
            assert(t[p] == e[p - 1]);
        }
    }
}

/// Once removed, a typo is no longer found.
pub proof fn law_removed_not_found(e: Seq<(Seq<char>, Seq<char>)>, k: Seq<char>)
    requires
        keys_unique(e),
    ensures
        !holds_key(without_key(e, k), k),
{
    if holds_key(e, k) {
        let q = key_pos(e, k);
        let r = e.remove(q);
        if holds_key(r, k) {
            let p = choose|p: int| 0 <= p < r.len() && r[p].0 == k;
            let i = if p < q { p } else { p + 1 };
            assert(r[p] == e[i]);
        }
    }
}

/// `LruCache::with_hasher`, with std's hasher.  Claimed: the cache starts empty, made to hold `cap`
/// entries.
#[verifier::external_body]
fn lru_new(cap: usize) -> (c: LruCache<String, String, RandomState>)
    requires
        cap > 0,
    ensures
        lru_entries(c) == Seq::<(Seq<char>, Seq<char>)>::empty(),
        lru_capacity(c) == cap,
{
    LruCache::with_hasher(std::num::NonZeroUsize::new(cap).unwrap(), RandomState::new())
}

/// `LruCache::put`.  Claimed, as its source does: an entry under `k` gets
/// the value `v` and moves to the front, its old value returned; a new key
/// goes to the front, and a full cache first drops its least recently used
/// entry.
#[verifier::external_body]
fn lru_put(c: &mut LruCache<String, String, RandomState>, k: String, v: String) -> (r: Option<String>)
    requires
        cache_ok(*old(c)),
    ensures
        cache_ok(*final(c)),
        lru_capacity(*final(c)) == lru_capacity(*old(c)),
        lru_entries(*final(c)) == put_entry(lru_entries(*old(c)), k@, v@, lru_capacity(*old(c))),
        match r {
            Some(old_v) => holds_key(lru_entries(*old(c)), k@)
                && old_v@ == lru_entries(*old(c))[key_pos(lru_entries(*old(c)), k@)].1,
            None => !holds_key(lru_entries(*old(c)), k@),
        },
{
    c.put(k, v)
}

/// `LruCache::get`, with the value cloned.  Claimed: the value under `k`,
/// if any, whose entry moves to the front.
#[verifier::external_body]
fn lru_get(c: &mut LruCache<String, String, RandomState>, k: &str) -> (r: Option<String>)
    requires
        cache_ok(*old(c)),
    ensures
        cache_ok(*final(c)),
        lru_capacity(*final(c)) == lru_capacity(*old(c)),
        lru_entries(*final(c)) == touched(lru_entries(*old(c)), k@),
        match r {
            Some(v) => holds_key(lru_entries(*old(c)), k@)
                && v@ == lru_entries(*old(c))[key_pos(lru_entries(*old(c)), k@)].1,
            None => !holds_key(lru_entries(*old(c)), k@),
        },
{
    c.get(k).cloned()
}

/// `LruCache::contains`.  Claimed: whether an entry has key `k`; the order
/// of the entries does not change.
#[verifier::external_body]
fn lru_contains(c: &LruCache<String, String, RandomState>, k: &str) -> (r: bool)
    ensures
        r == holds_key(lru_entries(*c), k@),
{
    c.contains(k)
}

/// `LruCache::pop`.  Claimed: removes the entry under `k`, if any, and
/// returns its value.
#[verifier::external_body]
fn lru_pop(c: &mut LruCache<String, String, RandomState>, k: &str) -> (r: Option<String>)
    requires
        cache_ok(*old(c)),
    ensures
        cache_ok(*final(c)),
        lru_capacity(*final(c)) == lru_capacity(*old(c)),
        lru_entries(*final(c)) == without_key(lru_entries(*old(c)), k@),
        match r {
            Some(v) => holds_key(lru_entries(*old(c)), k@)
                && v@ == lru_entries(*old(c))[key_pos(lru_entries(*old(c)), k@)].1,
            None => !holds_key(lru_entries(*old(c)), k@),
        },
{
    c.pop(k)
}

/// `LruCache::clear`.  Claimed: no entries are left.
#[verifier::external_body]
fn lru_clear(c: &mut LruCache<String, String, RandomState>)
    requires
        cache_ok(*old(c)),
    ensures
        cache_ok(*final(c)),
        lru_capacity(*final(c)) == lru_capacity(*old(c)),
        lru_entries(*final(c)) == Seq::<(Seq<char>, Seq<char>)>::empty(),
{
    c.clear()
}

/// `LruCache::len`.  Claimed: the number of entries.
#[verifier::external_body]
fn lru_len(c: &LruCache<String, String, RandomState>) -> (r: usize)
    ensures
        r == lru_entries(*c).len(),
{
    c.len()
}

/// `LruCache::iter`, with keys and values cloned.  Claimed: every entry,
/// most recently used first.
#[verifier::external_body]
fn lru_list(c: &LruCache<String, String, RandomState>) -> (r: Vec<(String, String)>)
    ensures
        r@.map_values(|p: (String, String)| (p.0@, p.1@)) == lru_entries(*c),
{
    let mut out = Vec::new();
    for (k, v) in c.iter() {
        out.push((k.clone(), v.clone()));
    }
    out
}

/// Corrections never increase along the list (code point order).
pub open spec fn by_correction_desc(e: Seq<(Seq<char>, Seq<char>)>) -> bool {
    forall|a: int, b: int| 0 <= a < b < e.len() ==> !lex_lt(#[trigger] e[a].1, #[trigger] e[b].1)
}

proof fn lemma_insert_by_correction(old_r: Seq<(Seq<char>, Seq<char>)>, pos: int, x: (Seq<char>, Seq<char>))
    requires
        0 <= pos <= old_r.len(),
        by_correction_desc(old_r),
        forall|k: int| 0 <= k < pos ==> !lex_lt(old_r[k].1, x.1),
        pos < old_r.len() ==> lex_lt(old_r[pos].1, x.1),
    ensures
        by_correction_desc(old_r.insert(pos, x)),
{
    let nr = old_r.insert(pos, x);
    assert forall|a: int, b: int| 0 <= a < b < nr.len() implies !lex_lt(#[trigger] nr[a].1, #[trigger] nr[b].1) by {
        let ai = if a < pos { a } else { a - 1 };
        let bi = if b < pos { b } else { b - 1 };
        if a == pos {
            assert(nr[b] == old_r[bi]);
            if bi > pos {
                assert(!lex_lt(old_r[pos].1, old_r[bi].1));
            }
            if lex_lt(x.1, old_r[bi].1) {
                lemma_lex_trans(old_r[pos].1, x.1, old_r[bi].1);
                lemma_lex_irreflexive(old_r[pos].1);
            }
        } else if b == pos {
            assert(nr[a] == old_r[a]);
        } else {
            assert(nr[a] == old_r[ai] && nr[b] == old_r[bi]);
            assert(!lex_lt(old_r[ai].1, old_r[bi].1));
        }
    }
}

/// The first pair of the unsorted rest is the next pair of `orig`.
proof fn lemma_pairs_next(src: Seq<(String, String)>, orig: Seq<(Seq<char>, Seq<char>)>, i: int)
    requires
        0 <= i < orig.len(),
        src.len() == orig.len() - i,
        pair_strings_view(src) == orig.subrange(i, orig.len() as int),
    ensures
        (src[0].0@, src[0].1@) == orig[i],
        pair_strings_view(src.subrange(1, src.len() as int)) == orig.subrange(i + 1, orig.len() as int),
{
    assert(pair_strings_view(src.subrange(1, src.len() as int)) =~= pair_strings_view(src).subrange(1, src.len() as int));
    assert(pair_strings_view(src)[0] == (src[0].0@, src[0].1@));
    assert(orig.subrange(i, orig.len() as int)[0] == orig[i]);
    assert(orig.subrange(i, orig.len() as int).subrange(1, orig.len() - i) =~= orig.subrange(i + 1, orig.len() as int));
}

/// Inserting the next pair of `orig` at its place keeps the sorted prefix.
proof fn lemma_typo_step(
    old_rv: Seq<(String, String)>,
    pos: int,
    x: (String, String),
    orig: Seq<(Seq<char>, Seq<char>)>,
    i: int,
)
    requires
        0 <= pos <= old_rv.len(),
        0 <= i < orig.len(),
        holds_prefix_of(pair_strings_view(old_rv), orig, i),
        by_correction_desc(pair_strings_view(old_rv)),
        (x.0@, x.1@) == orig[i],
        forall|k: int| 0 <= k < pos ==> !lex_lt(old_rv[k].1@, x.1@),
        pos < old_rv.len() ==> lex_lt(old_rv[pos].1@, x.1@),
    ensures
        holds_prefix_of(pair_strings_view(old_rv.insert(pos, x)), orig, i + 1),
        by_correction_desc(pair_strings_view(old_rv.insert(pos, x))),
{
    let old_r = pair_strings_view(old_rv);
    assert(pair_strings_view(old_rv.insert(pos, x)) =~= old_r.insert(pos, (x.0@, x.1@)));
    lemma_insert_by_correction(old_r, pos, (x.0@, x.1@));
    lemma_insert_holds(old_r, pos, orig, i);
}

/// How many entries a map keeps before it forgets the least recently used.
pub const USER_ERROR_CAPACITY: usize = 1000;

/// How often a known typo is taken to occur.
pub const KNOWN_TYPO_FREQUENCY: u64 = 1000;

/// Map of typos to their corrections
#[derive(Debug)]
pub struct StaticErrorMap {
    /// User-learned errors
    user_errors: LruCache<String, String, RandomState>,
    /// Language of this map
    language: String,
}

/// Statistics about an error map
#[derive(Debug, Clone)]
pub struct ErrorMapStats {
    /// Number of static (loaded) error entries
    pub static_errors: usize,
    /// Number of user-learned error entries
    pub user_errors: usize,
    /// Language code (ISO 639-1) this map applies to
    pub language: String,
}

/// The entries after putting each (typo, correction) pair of `s`, both
/// lower-cased when `lower` holds the correction too, in order.
pub open spec fn after_puts(
    e: Seq<(Seq<char>, Seq<char>)>,
    s: Seq<(Seq<char>, Seq<char>)>,
    cap: nat,
    lower_corrections: bool,
) -> Seq<(Seq<char>, Seq<char>)>
    decreases s.len(),
{
    if s.len() == 0 {
        e
    } else {
        let last = s.last();
        let v = if lower_corrections { spec_to_lowercase(last.1) } else { last.1 };
        put_entry(after_puts(e, s.drop_last(), cap, lower_corrections), spec_to_lowercase(last.0), v, cap)
    }
}

/// The entries after learning that `typo` should read `correction`: both
/// lower-cased, and nothing learned when they are the same.
pub open spec fn learned_entries(
    e: Seq<(Seq<char>, Seq<char>)>,
    typo: Seq<char>,
    correction: Seq<char>,
) -> Seq<(Seq<char>, Seq<char>)> {
    if spec_to_lowercase(typo) == spec_to_lowercase(correction) {
        e
    } else {
        put_entry(e, spec_to_lowercase(typo), spec_to_lowercase(correction), USER_ERROR_CAPACITY as nat)
    }
}

/// What `serde_json::from_str` reads from `text` as a `serde_json::Value`,
/// reduced to the member "errors": `None` when the text is not JSON,
/// `Some(None)` when it is but holds no "errors" object, and otherwise the
/// members of that object in the order of its map (by key), each with its
/// value when that value is a string.
pub uninterp spec fn json_error_entries(text: Seq<char>) -> Option<Option<Seq<(Seq<char>, Option<Seq<char>>)>>>;

/// A list of (key, optional text) entries with both read as character
/// sequences.
pub open spec fn json_entries_view(v: Seq<(String, Option<String>)>) -> Seq<(Seq<char>, Option<Seq<char>>)> {
    v.map_values(|e: (String, Option<String>)| (e.0@, match e.1 {
        Some(t) => Some(t@),
        None => None,
    }))
}

/// `serde_json::from_str::<serde_json::Value>` on `text`, then the members
/// of its "errors" object, each value kept when it is a string.  Claimed:
/// the result named by `json_error_entries`.
#[verifier::external_body]
fn parse_error_entries(text: &str) -> (r: Option<Option<Vec<(String, Option<String>)>>>)
    ensures
        match r {
            None => json_error_entries(text@) is None,
            Some(None) => json_error_entries(text@) == Some(None::<Seq<(Seq<char>, Option<Seq<char>>)>>),
            Some(Some(v)) => json_error_entries(text@) == Some(Some(json_entries_view(v@))),
        },
{
    match serde_json::from_str::<serde_json::Value>(text) {
        Err(_) => None,
        Ok(serde_json::Value::Object(mut top)) => match top.remove("errors") {
            Some(serde_json::Value::Object(errors)) => Some(Some(
                errors.into_iter().map(|(k, v)| (k, match v {
                    serde_json::Value::String(t) => Some(t),
                    _ => None,
                })).collect(),
            )),
            _ => Some(None),
        },
        Ok(_) => Some(None),
    }
}

/// The (typo, correction) pairs of JSON error entries: those whose value
/// is text, in order.
pub open spec fn text_pairs(e: Seq<(Seq<char>, Option<Seq<char>>)>) -> Seq<(Seq<char>, Seq<char>)>
    decreases e.len(),
{
    if e.len() == 0 {
        Seq::empty()
    } else {
        let rest = text_pairs(e.drop_last());
        match e.last().1 {
            Some(c) => rest.push((e.last().0, c)),
            None => rest,
        }
    }
}

/// The (typo, correction) pairs that a JSON error file holds: none when it
/// has no "errors" object.
pub open spec fn json_error_pairs(entries: Option<Seq<(Seq<char>, Option<Seq<char>>)>>) -> Seq<(Seq<char>, Seq<char>)> {
    match entries {
        Some(e) => text_pairs(e),
        None => Seq::empty(),
    }
}

/// What `serde_json::from_str::<BTreeMap<String, String>>` reads from
/// `text`: the members of a JSON object whose values are all strings, in
/// the key order of the map; `None` for any other text.
pub uninterp spec fn json_user_errors(text: Seq<char>) -> Option<Seq<(Seq<char>, Seq<char>)>>;

/// What `serde_json::to_string_pretty` writes for the `BTreeMap<String,
/// String>` collected from `pairs` (a later pair replacing an earlier one
/// with the same key).
pub uninterp spec fn json_object_text(pairs: Seq<(Seq<char>, Seq<char>)>) -> Seq<char>;

/// `serde_json::from_str` of `text` into a `BTreeMap<String, String>`, its
/// members then listed in key order.  Claimed: the result named by
/// `json_user_errors`.
#[verifier::external_body]
fn parse_user_errors(text: &str) -> (r: Option<Vec<(String, String)>>)
    ensures
        match r {
            None => json_user_errors(text@) is None,
            Some(v) => json_user_errors(text@) == Some(pair_strings_view(v@)),
        },
{
    serde_json::from_str::<std::collections::BTreeMap<String, String>>(text).ok().map(|m| m.into_iter().collect())
}

/// `serde_json::to_string_pretty` of the `BTreeMap<String, String>`
/// collected from `pairs`; a map with string keys always serializes.
/// Claimed: the text named by `json_object_text`.
#[verifier::external_body]
fn pretty_json_object(pairs: &Vec<(String, String)>) -> (r: String)
    ensures
        r@ == json_object_text(pair_strings_view(pairs@)),
{
    let m: std::collections::BTreeMap<&str, &str> = pairs.iter().map(|p| (p.0.as_str(), p.1.as_str())).collect();
    serde_json::to_string_pretty(&m).unwrap_or_default()
}

/// Errors of loading an error map
#[derive(Debug)]
pub enum ErrorMapError {
    /// The text is not JSON
    InvalidJson,
}

impl ErrorMapError {
    /// The message that describes the error
    pub fn message(&self) -> (r: String)
        ensures
            r@ == "Invalid JSON"@,
    {
        String::from_str("Invalid JSON")
    }
}

/// A (typo, correction) list with both as character sequences.
pub open spec fn pair_strings_view(v: Seq<(String, String)>) -> Seq<(Seq<char>, Seq<char>)> {
    v.map_values(|p: (String, String)| (p.0@, p.1@))
}

impl StaticErrorMap {
    /// The learned (typo, correction) entries, most recently used first.
    pub closed spec fn entries(&self) -> Seq<(Seq<char>, Seq<char>)> {
        lru_entries(self.user_errors)
    }

    /// The language the map is for.
    pub closed spec fn lang(&self) -> Seq<char> {
        self.language@
    }

    /// The cache is sound and holds up to `USER_ERROR_CAPACITY` entries.
    pub closed spec fn wf(&self) -> bool {
        &&& cache_ok(self.user_errors)
        &&& lru_capacity(self.user_errors) == USER_ERROR_CAPACITY
    }

    /// A sound map lists each typo once.
    pub proof fn lemma_keys_unique(&self)
        requires
            self.wf(),
        ensures
            keys_unique(self.entries()),
    {
    }

    /// Create a new empty error map
    pub fn new(language: &str) -> (m: Self)
        ensures
            m.wf(),
            m.entries() == Seq::<(Seq<char>, Seq<char>)>::empty(),
            m.lang() == language@,
    {
        StaticErrorMap { user_errors: lru_new(USER_ERROR_CAPACITY), language: String::from_str(language) }
    }

    /// Builds a map from (typo, correction) pairs, in order; typos are
    /// lower-cased, corrections kept as given.
    pub fn from_pairs(language: &str, pairs: &Vec<(String, String)>) -> (m: Self)
        ensures
            m.wf(),
            m.lang() == language@,
            m.entries() == after_puts(Seq::empty(), pair_strings_view(pairs@), USER_ERROR_CAPACITY as nat, false),
    {
        let mut map = Self::new(language);
        let mut i: usize = 0;
        while i < pairs.len()
            invariant
                i <= pairs@.len(),
                map.wf(),
                map.lang() == language@,
                map.entries() == after_puts(Seq::empty(), pair_strings_view(pairs@.subrange(0, i as int)), USER_ERROR_CAPACITY as nat, false),
            decreases pairs.len() - i,
        {
            proof {
                let s = pair_strings_view(pairs@.subrange(0, i + 1));
                assert(s.drop_last() =~= pair_strings_view(pairs@.subrange(0, i as int)));
                assert(s.last() == (pairs@[i as int].0@, pairs@[i as int].1@));
            }
            let typo = to_lowercase(pairs[i].0.as_str());
            let correction = pairs[i].1.clone();
            lru_put(&mut map.user_errors, typo, correction);
            i = i + 1;
        }
        proof {
            assert(pairs@.subrange(0, i as int) =~= pairs@);
        }
        map
    }

    /// Load from JSON string
    ///
    /// The members of the "errors" object whose value is text become the
    /// map's entries, as `from_pairs` puts them; text without such an
    /// object gives an empty map.
    pub fn from_json_str(language: &str, json_str: &str) -> (r: Result<Self, ErrorMapError>)
        ensures
            match r {
                Ok(m) => {
                    &&& json_error_entries(json_str@) matches Some(entries)
                    &&& m.wf()
                    &&& m.lang() == language@
                    &&& m.entries() == after_puts(
                        Seq::empty(),
                        json_error_pairs(entries),
                        USER_ERROR_CAPACITY as nat,
                        false,
                    )
                },
                Err(e) => json_error_entries(json_str@) is None,
            },
    {
        let parsed = match parse_error_entries(json_str) {
            Some(p) => p,
            None => return Err(ErrorMapError::InvalidJson),
        };
        let mut pairs: Vec<(String, String)> = Vec::new();
        match parsed {
            Some(entries) => {
                let ghost ev = json_entries_view(entries@);
                let mut i: usize = 0;
                while i < entries.len()
                    invariant
                        i <= entries@.len(),
                        ev == json_entries_view(entries@),
                        pair_strings_view(pairs@) == text_pairs(ev.subrange(0, i as int)),
                    decreases entries.len() - i,
                {
                    proof {
                        let s = ev.subrange(0, i + 1);
                        assert(s.drop_last() =~= ev.subrange(0, i as int));
                        assert(s.last() == ev[i as int]);
                    }
                    match &entries[i].1 {
                        Some(c) => {
                            let ghost before = pairs@;
                            pairs.push((entries[i].0.clone(), c.clone()));
                            proof {
                                assert(pair_strings_view(pairs@) =~= pair_strings_view(before).push(
                                    (entries@[i as int].0@, c@),
                                ));
                            }
                        },
                        None => {},
                    }
                    i = i + 1;
                }
                proof {
                    assert(ev.subrange(0, i as int) =~= ev);
                }
            },
            None => {
                proof {
                    assert(pair_strings_view(pairs@) =~= Seq::<(Seq<char>, Seq<char>)>::empty());
                }
            },
        }
        Ok(Self::from_pairs(language, &pairs))
    }

    /// Puts (typo, correction) pairs, both lower-cased, in order, as
    /// learned corrections.
    pub fn learn_pairs(&mut self, pairs: &Vec<(String, String)>)
        requires
            old(self).wf(),
        ensures
            final(self).wf(),
            final(self).lang() == old(self).lang(),
            final(self).entries() == after_puts(old(self).entries(), pair_strings_view(pairs@), USER_ERROR_CAPACITY as nat, true),
    {
        let ghost start = self.entries();
        let mut i: usize = 0;
        while i < pairs.len()
            invariant
                i <= pairs@.len(),
                self.wf(),
                self.lang() == old(self).lang(),
                self.entries() == after_puts(start, pair_strings_view(pairs@.subrange(0, i as int)), USER_ERROR_CAPACITY as nat, true),
            decreases pairs.len() - i,
        {
            proof {
                let s = pair_strings_view(pairs@.subrange(0, i + 1));
                assert(s.drop_last() =~= pair_strings_view(pairs@.subrange(0, i as int)));
                assert(s.last() == (pairs@[i as int].0@, pairs@[i as int].1@));
            }
            let typo = to_lowercase(pairs[i].0.as_str());
            let correction = to_lowercase(pairs[i].1.as_str());
            lru_put(&mut self.user_errors, typo, correction);
            i = i + 1;
        }
        proof {
            assert(pairs@.subrange(0, i as int) =~= pairs@);
        }
    }

    /// Look up a typo
    ///
    /// Checks user errors first (higher priority), then the compiled-in
    /// table of known typos, which holds no entries in this build.
    /// Returns the correction if found; a learned entry that is found
    /// becomes the most recently used.
    pub fn lookup(&mut self, typo: &str) -> (r: Option<String>)
        requires
            old(self).wf(),
        ensures
            final(self).wf(),
            final(self).lang() == old(self).lang(),
            final(self).entries() == touched(old(self).entries(), spec_to_lowercase(typo@)),
            match r {
                Some(c) => holds_key(old(self).entries(), spec_to_lowercase(typo@))
                    && c@ == old(self).entries()[key_pos(old(self).entries(), spec_to_lowercase(typo@))].1,
                None => !holds_key(old(self).entries(), spec_to_lowercase(typo@)),
            },
    {
        let typo_lower = to_lowercase(typo);
        lru_get(&mut self.user_errors, typo_lower.as_str())
    }

    /// Add a user correction
    ///
    /// Both are lower-cased; a typo equal to its correction is not learned.
    pub fn learn(&mut self, typo: &str, correction: &str)
        requires
            old(self).wf(),
        ensures
            final(self).wf(),
            final(self).lang() == old(self).lang(),
            final(self).entries() == learned_entries(old(self).entries(), typo@, correction@),
    {
        let typo_lower = to_lowercase(typo);
        let correction_lower = to_lowercase(correction);

        // Don't learn from itself
        if str_eq(typo_lower.as_str(), correction_lower.as_str()) {
            return;
        }
        lru_put(&mut self.user_errors, typo_lower, correction_lower);
    }

    /// Unlearn a correction (user marked it as wrong)
    pub fn unlearn(&mut self, typo: &str)
        requires
            old(self).wf(),
        ensures
            final(self).wf(),
            final(self).lang() == old(self).lang(),
            final(self).entries() == without_key(old(self).entries(), spec_to_lowercase(typo@)),
    {
        let typo_lower = to_lowercase(typo);
        lru_pop(&mut self.user_errors, typo_lower.as_str());
    }

    /// Insert a known typo with its correction, both lower-cased
    pub fn insert_static(&mut self, typo: &str, correction: &str)
        requires
            old(self).wf(),
        ensures
            final(self).wf(),
            final(self).lang() == old(self).lang(),
            final(self).entries() == put_entry(old(self).entries(), spec_to_lowercase(typo@), spec_to_lowercase(correction@), USER_ERROR_CAPACITY as nat),
    {
        let typo_lower = to_lowercase(typo);
        let correction_lower = to_lowercase(correction);
        lru_put(&mut self.user_errors, typo_lower, correction_lower);
    }

    /// Check if a word is a known typo
    pub fn is_known_typo(&self, word: &str) -> (r: bool)
        ensures
            r == holds_key(self.entries(), spec_to_lowercase(word@)),
    {
        let word_lower = to_lowercase(word);
        lru_contains(&self.user_errors, word_lower.as_str())
    }

    /// Get frequency of a typo
    pub fn get_frequency(&self, _typo: &str) -> (f: u64)
        ensures
            f == KNOWN_TYPO_FREQUENCY,
    {
        KNOWN_TYPO_FREQUENCY
    }

    /// Clear all learned corrections
    pub fn clear_user_errors(&mut self)
        requires
            old(self).wf(),
        ensures
            final(self).wf(),
            final(self).lang() == old(self).lang(),
            final(self).entries() == Seq::<(Seq<char>, Seq<char>)>::empty(),
    {
        lru_clear(&mut self.user_errors);
    }

    /// Learn the corrections saved as a JSON object (`{"typo":
    /// "correction"}`), each pair lower-cased, in the key order of the
    /// object; text that is not such an object is refused and nothing is
    /// learned.
    pub fn learn_from_json(&mut self, text: &str) -> (r: Result<(), JsonError>)
        requires
            old(self).wf(),
        ensures
            final(self).wf(),
            final(self).lang() == old(self).lang(),
            match json_user_errors(text@) {
                Some(ps) => r is Ok
                    && final(self).entries() == after_puts(old(self).entries(), ps, USER_ERROR_CAPACITY as nat, true),
                None => r is Err && final(self).entries() == old(self).entries(),
            },
    {
        match parse_user_errors(text) {
            Some(pairs) => {
                self.learn_pairs(&pairs);
                Ok(())
            },
            None => Err(JsonError::Invalid),
        }
    }

    /// The learned corrections as a JSON object, pretty-printed, keys in
    /// code point order.
    pub fn user_errors_json(&self) -> (r: String)
        ensures
            r@ == json_object_text(self.entries()),
    {
        let pairs = self.user_pairs();
        pretty_json_object(&pairs)
    }

    /// The learned (typo, correction) pairs, most recently used first.
    pub fn user_pairs(&self) -> (r: Vec<(String, String)>)
        ensures
            pair_strings_view(r@) == self.entries(),
    {
        lru_list(&self.user_errors)
    }

    /// Get all known typos with their corrections, ordered by correction,
    /// highest first (code point order); entries with equal corrections
    /// keep their most-recently-used order.
    pub fn all_typos(&self) -> (r: Vec<(String, String)>)
        ensures
            holds_prefix_of(pair_strings_view(r@), self.entries(), self.entries().len() as int),
            by_correction_desc(pair_strings_view(r@)),
    {
        let mut pairs = lru_list(&self.user_errors);
        let ghost orig = pair_strings_view(pairs@);
        let n = pairs.len();
        let mut r: Vec<(String, String)> = Vec::new();
        let mut i: usize = 0;
        while i < n
            invariant
                n == orig.len(),
                i <= n,
                pairs@.len() == n - i,
                pair_strings_view(pairs@) == orig.subrange(i as int, n as int),
                holds_prefix_of(pair_strings_view(r@), orig, i as int),
                by_correction_desc(pair_strings_view(r@)),
            decreases n - i,
        {
            let ghost before = pairs@;
            let x = pairs.remove(0);
            proof {
                assert(pairs@ =~= before.subrange(1, before.len() as int));
                lemma_pairs_next(before, orig, i as int);
            }
            let mut pos: usize = 0;
            while pos < r.len() && !str_lt(r[pos].1.as_str(), x.1.as_str())
                invariant
                    pos <= r@.len(),
                    forall|k: int| 0 <= k < pos ==> !lex_lt(r@[k].1@, x.1@),
                decreases r.len() - pos,
            {
                pos = pos + 1;
            }
            let ghost old_rv = r@;
            r.insert(pos, x);
            proof {
                lemma_typo_step(old_rv, pos as int, x, orig, i as int);
            }
            i = i + 1;
        }
        r
    }

    /// Get map statistics
    pub fn stats(&self) -> (s: ErrorMapStats)
        ensures
            s.static_errors == 0,
            s.user_errors == self.entries().len(),
            s.language@ == self.lang(),
    {
        ErrorMapStats {
            static_errors: 0,
            user_errors: lru_len(&self.user_errors),
            language: self.language.clone(),
        }
    }

    /// Get language
    pub fn language(&self) -> (l: String)
        ensures
            l@ == self.lang(),
    {
        self.language.clone()
    }
}

impl Default for StaticErrorMap {
    fn default() -> (m: Self)
        ensures
            m.wf(),
            m.entries() == Seq::<(Seq<char>, Seq<char>)>::empty(),
            m.lang() == "unknown"@,
    {
        Self::new("unknown")
    }
}

} // verus!
