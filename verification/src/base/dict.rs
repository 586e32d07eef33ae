//! Dictionary based on Finite State Transducers (FST) for high performance
//! and minimal memory footprint.
//!
//! Words are stored with their accented letters encoded (see `encoder`).

use fst::{IntoStreamer, Streamer};
use vstd::prelude::*;
use vstd::multiset::Multiset;
use crate::base::encoder::{decode_accents, decode_char, encode_accents, encode_char};
use crate::base::ranking::{
    holds_prefix_of, lemma_insert_distinct_scored, lemma_insert_index, lemma_scored_insert, lemma_scored_next,
    scored_distinct, scored_view,
};
use crate::base::trie::{capped_distance, pairs_view, triples_view};
use crate::correction::distance_spec::{dl_distance, min2};
use crate::text::{chars_of, lemma_lex_irreflexive, lemma_lex_total, lemma_lex_trans, lex_lt, str_eq, str_lt, string_of};

verus! {

#[verifier::external_type_specification]
#[verifier::external_body]
#[verifier::reject_recursive_types(D)]
pub struct ExFstMap<D>(fst::Map<D>);

#[verifier::external_type_specification]
#[verifier::external_body]
#[verifier::reject_recursive_types(W)]
pub struct ExFstMapBuilder<W>(fst::MapBuilder<W>);

#[verifier::external_type_specification]
#[verifier::external_body]
pub struct ExFstError(fst::Error);

/// The entries of an FST map read from bytes that an fst builder wrote
/// (see `fst_intact`) whose keys are UTF-8 text, each key read as text,
/// with their values.  Nothing is claimed of it for any other map.
pub uninterp spec fn fst_words(m: fst::Map<Vec<u8>>) -> Map<Seq<char>, u64>;

/// Whether every key of an FST map read from bytes that an fst builder
/// wrote is UTF-8 text.
pub uninterp spec fn fst_all_text(m: fst::Map<Vec<u8>>) -> bool;

/// The words given to an FST builder so far, in order, with their values.
pub uninterp spec fn fst_added(b: fst::MapBuilder<Vec<u8>>) -> Seq<(Seq<char>, u64)>;

/// What the bytes hold when they are an FST map as an fst builder writes
/// it (`fst::MapBuilder::into_inner`): the entries whose keys are text
/// (read as text), and whether every key is text.  `None` for any other
/// bytes, crafted or damaged ones among them.
pub uninterp spec fn fst_decoded(bytes: Seq<u8>) -> Option<(Map<Seq<char>, u64>, bool)>;

/// Whether `fst::Map::new` read the map from bytes that an fst builder
/// wrote (bytes for which `fst_decoded` is `Some`).
pub uninterp spec fn fst_intact(m: fst::Map<Vec<u8>>) -> bool;

/// Whether the checksum stored at the end of a map's bytes matches the
/// checksum of the bytes before it (`fst::raw::Fst::verify` succeeds).
pub uninterp spec fn fst_checked(m: fst::Map<Vec<u8>>) -> bool;

/// Whether `fst::automaton::Levenshtein::new` refuses to build the
/// automaton for the query and distance (it would have too many states).
pub uninterp spec fn lev_refused(query: Seq<char>, distance: u32) -> bool;

/// Cell `(i, j)` of the Levenshtein table of `a` against `b`: the fewest
/// insertions, deletions and substitutions of characters that turn the
/// first `i` characters of `a` into the first `j` of `b`.
pub open spec fn lev_table(a: Seq<char>, b: Seq<char>, i: int, j: int) -> int
    decreases i + j,
{
    if i <= 0 {
        if j <= 0 { 0 } else { j }
    } else if j <= 0 {
        i
    } else {
        let cost: int = if a[i - 1] == b[j - 1] { 0 } else { 1 };
        let del = lev_table(a, b, i - 1, j) + 1;
        let ins = lev_table(a, b, i, j - 1) + 1;
        let sub = lev_table(a, b, i - 1, j - 1) + cost;
        if del <= ins && del <= sub { del } else if ins <= sub { ins } else { sub }
    }
}

/// The Levenshtein distance of two character sequences.
pub open spec fn lev_distance(a: Seq<char>, b: Seq<char>) -> int {
    lev_table(a, b, a.len() as int, b.len() as int)
}

/// The map of a list of words with their values whose words are distinct.
pub open spec fn map_of_pairs(s: Seq<(Seq<char>, u64)>) -> Map<Seq<char>, u64> {
    Map::new(
        |w: Seq<char>| exists|k: int| 0 <= k < s.len() && s[k].0 == w,
        |w: Seq<char>| s[choose|k: int| 0 <= k < s.len() && s[k].0 == w].1,
    )
}

/// `fst::Map::new` on bytes, which checks the header and where the root
/// lies but not the integrity of the rest.  Claimed: bytes that an fst
/// builder wrote are accepted, and the map read from them holds the words
/// that `fst_decoded` names; a map is `fst_intact` exactly when it was read
/// from such bytes.  Nothing is claimed of a map read from other bytes:
/// reading one may panic, so the library never reads one.
#[verifier::external_body]
fn fst_from_bytes(bytes: Vec<u8>) -> (r: Result<fst::Map<Vec<u8>>, fst::Error>)
    ensures
        match r {
            Ok(m) => {
                &&& fst_intact(m) == (fst_decoded(bytes@) is Some)
                &&& fst_intact(m) ==> fst_decoded(bytes@) == Some((fst_words(m), fst_all_text(m)))
            },
            Err(_) => fst_decoded(bytes@) is None,
        },
{
    fst::Map::new(bytes)
}

/// `fst::raw::Fst::verify` on the map's transducer: it recomputes the
/// checksum of the bytes and compares it with the one stored at their end.
/// Claimed: whether it succeeds (named by `fst_checked`), and that it does
/// for a map read from bytes an fst builder wrote, since the builder writes
/// the checksum of what it wrote.
#[verifier::external_body]
fn fst_verify(m: &fst::Map<Vec<u8>>) -> (r: bool)
    ensures
        r == fst_checked(*m),
        fst_intact(*m) ==> r,
{
    m.as_fst().verify().is_ok()
}

/// `fst::Map::get` on the bytes of `key`.  Claimed: the value of the word,
/// if the map holds it.
#[verifier::external_body]
fn fst_get(m: &fst::Map<Vec<u8>>, key: &str) -> (r: Option<u64>)
    requires
        fst_intact(*m),
    ensures
        r == (if fst_words(*m).contains_key(key@) { Some(fst_words(*m)[key@]) } else { None }),
{
    m.get(key.as_bytes())
}

/// `fst::Map::contains_key` on the bytes of `key`.  Claimed: whether the
/// map holds the word.
#[verifier::external_body]
fn fst_contains(m: &fst::Map<Vec<u8>>, key: &str) -> (r: bool)
    requires
        fst_intact(*m),
    ensures
        r == fst_words(*m).contains_key(key@),
{
    m.contains_key(key.as_bytes())
}

/// `fst::Map::len`, the number of keys.  Claimed: the text keys are at
/// most that many, and exactly that many when every key is text.
#[verifier::external_body]
fn fst_len(m: &fst::Map<Vec<u8>>) -> (r: usize)
    requires
        fst_intact(*m),
    ensures
        r >= fst_words(*m).dom().len(),
        fst_all_text(*m) ==> r == fst_words(*m).dom().len(),
{
    m.len()
}

/// `fst::Map::search` with `fst::automaton::Levenshtein::new(query,
/// distance)`, collecting every key (read as text, which the automaton's
/// UTF-8 matching guarantees it is) with its value.  Claimed: `None`
/// exactly when the automaton is refused (named by `lev_refused`);
/// otherwise the words of the map within `distance` insertions, deletions
/// and substitutions of characters of `query`, each once, with their values.
#[verifier::external_body]
fn fst_search_within(m: &fst::Map<Vec<u8>>, query: &str, distance: u32) -> (r: Option<Vec<(String, u64)>>)
    requires
        fst_intact(*m),
    ensures
        match r {
            None => lev_refused(query@, distance),
            Some(v) => {
                &&& !lev_refused(query@, distance)
                &&& forall|j: int| 0 <= j < v@.len() ==> fst_words(*m).contains_key((#[trigger] v@[j]).0@)
                    && fst_words(*m)[v@[j].0@] == v@[j].1 && lev_distance(query@, v@[j].0@) <= distance
                &&& forall|a: int, b: int| 0 <= a < b < v@.len() ==> v@[a].0@ != v@[b].0@
                &&& forall|w: Seq<char>| #[trigger] fst_words(*m).contains_key(w) && lev_distance(query@, w) <= distance
                    ==> exists|j: int| 0 <= j < v@.len() && v@[j].0@ == w
            },
        },
{
    let lev = match fst::automaton::Levenshtein::new(query, distance) {
        Ok(lev) => lev,
        Err(_) => return None,
    };
    let mut stream = m.search(lev).into_stream();
    let mut out = Vec::new();
    while let Some((k, v)) = stream.next() {
        out.push((String::from_utf8_lossy(k).into_owned(), v));
    }
    Some(out)
}

/// `fst::MapBuilder::memory`.  Claimed: nothing added yet.
#[verifier::external_body]
fn fst_builder() -> (b: fst::MapBuilder<Vec<u8>>)
    ensures
        fst_added(b) == Seq::<(Seq<char>, u64)>::empty(),
{
    fst::MapBuilder::memory()
}

/// `fst::MapBuilder::insert` with the bytes of `key`.  Claimed, as the
/// source checks: a key after every key added so far (in byte order, which
/// for UTF-8 text is code point order) is added; any other key is refused
/// with an error and nothing is added.
#[verifier::external_body]
fn fst_builder_insert(b: &mut fst::MapBuilder<Vec<u8>>, key: &str, value: u64) -> (r: Result<(), fst::Error>)
    ensures
        (fst_added(*old(b)).len() == 0 || lex_lt(fst_added(*old(b)).last().0, key@)) ==> r is Ok
            && fst_added(*final(b)) == fst_added(*old(b)).push((key@, value)),
        !(fst_added(*old(b)).len() == 0 || lex_lt(fst_added(*old(b)).last().0, key@)) ==> r is Err
            && fst_added(*final(b)) == fst_added(*old(b)),
{
    b.insert(key.as_bytes(), value)
}

/// `fst::MapBuilder::into_inner`.  Claimed: it succeeds (it fails only when
/// the writer does, and writing to a `Vec` does not fail), and the bytes
/// written, checksum included, hold exactly the words added, every key
/// text.
#[verifier::external_body]
fn fst_builder_finish(b: fst::MapBuilder<Vec<u8>>) -> (r: Result<Vec<u8>, fst::Error>)
    ensures
        r is Ok,
        r matches Ok(bytes) ==> fst_decoded(bytes@) == Some((map_of_pairs(fst_added(b)), true)),
{
    b.into_inner()
}

/// Errors of the dictionary
#[derive(Debug)]
pub enum DictError {
    /// The bytes are not an FST map
    LoadFailed,
    /// The FST map could not be written
    BuildFailed,
}

impl DictError {
    /// The message that describes the error
    pub fn message(&self) -> (r: String)
        ensures
            r@ == match self {
                DictError::LoadFailed => "Failed to load FST map from bytes"@,
                DictError::BuildFailed => "Failed to build FST map"@,
            },
    {
        match self {
            DictError::LoadFailed => String::from_str("Failed to load FST map from bytes"),
            DictError::BuildFailed => String::from_str("Failed to build FST map"),
        }
    }
}

/// The encoded form of a word, as the dictionary stores it.
pub open spec fn encoded(w: Seq<char>) -> Seq<char> {
    w.map_values(|c: char| encode_char(c))
}

/// The decoded form of a stored word.
pub open spec fn decoded(w: Seq<char>) -> Seq<char> {
    w.map_values(|c: char| decode_char(c))
}

/// How many characters of `cand`, read from the front, can each be matched
/// with a character still unmatched in `pool`.
pub open spec fn matched_count(pool: Multiset<char>, cand: Seq<char>) -> nat
    decreases cand.len(),
{
    if cand.len() == 0 {
        0
    } else if pool.count(cand[0]) > 0 {
        1 + matched_count(pool.remove(cand[0]), cand.drop_first())
    } else {
        matched_count(pool, cand.drop_first())
    }
}

/// Whether `cand` shares at least 60% of the characters of the longer of
/// the two words with `word` (counting repeated characters as often as both
/// hold them); words of one or two characters need only share one.
pub open spec fn sufficient_overlap(word: Seq<char>, cand: Seq<char>) -> bool {
    let overlap = matched_count(word.to_multiset(), cand) as int;
    let max_len: int = if word.len() >= cand.len() { word.len() as int } else { cand.len() as int };
    if max_len == 0 {
        false
    } else if max_len <= 2 {
        overlap > 0
    } else {
        5 * overlap >= 3 * max_len
    }
}

/// Check if two words share at least 60% of their characters
pub(crate) fn has_sufficient_overlap(word: &str, candidate: &str) -> (b: bool)
    ensures
        b == sufficient_overlap(word@, candidate@),
{
    let w = chars_of(word);
    let c = chars_of(candidate);
    let mut pool = chars_of(word);
    let mut overlap: usize = 0;
    let mut i: usize = 0;
    assert(c@.skip(0) =~= c@);
    while i < c.len()
        invariant
            i <= c@.len(),
            c@ == candidate@,
            c@.len() <= isize::MAX,
            overlap <= i,
            overlap + matched_count(pool@.to_multiset(), c@.skip(i as int))
                == matched_count(word@.to_multiset(), c@),
        decreases c.len() - i,
    {
        let ch = c[i];
        let mut j: usize = 0;
        while j < pool.len() && pool[j] != ch
            invariant
                j <= pool@.len(),
                forall|t: int| 0 <= t < j ==> pool@[t] != ch,
            decreases pool.len() - j,
        {
            j = j + 1;
        }
        let ghost rest = c@.skip(i as int);
        proof {
            assert(rest[0] == ch);
            assert(rest.drop_first() =~= c@.skip(i + 1));
        }
        if j < pool.len() {
            proof {
                assert(pool@[j as int] == ch);
                assert(pool@.contains(ch));
                vstd::seq_lib::to_multiset_contains(pool@, ch);
                vstd::seq_lib::to_multiset_remove(pool@, j as int);
            }
            pool.remove(j);
            overlap = overlap + 1;
        } else {
            proof {
                assert(!pool@.contains(ch));
                vstd::seq_lib::to_multiset_contains(pool@, ch);
            }
        }
        i = i + 1;
    }
    proof {
        assert(c@.skip(i as int).len() == 0);
    }
    let wl = w.len();
    let cl = c.len();
    let max_len: usize = if wl >= cl { wl } else { cl };
    if max_len == 0 {
        false
    } else if max_len <= 2 {
        overlap > 0
    } else {
        (overlap as u128) * 5 >= (max_len as u128) * 3
    }
}

/// Dictionary based on Finite State Transducers (FST)
pub struct Dict {
    map: fst::Map<Vec<u8>>,
    word_count: usize,
}

impl Dict {
    /// The stored (encoded) words with their frequencies.
    pub closed spec fn words(&self) -> Map<Seq<char>, u64> {
        fst_words(self.map)
    }

    /// Whether every stored key is text.
    pub closed spec fn all_text(&self) -> bool {
        fst_all_text(self.map)
    }

    /// The map was read from bytes that an fst builder wrote, and the count
    /// is the number of keys: at least the number of words, and exactly that
    /// when every key is text.
    #[verifier::type_invariant]
    spec fn counted(&self) -> bool {
        &&& fst_intact(self.map)
        &&& fst_words(self.map).dom().len() <= self.word_count
        &&& fst_all_text(self.map) ==> self.word_count == fst_words(self.map).dom().len()
    }

    /// Load a dictionary from the bytes of an FST map
    ///
    /// The bytes must be an FST map as an fst builder writes it, such as
    /// those of `compile_entries` or of a file written from them: the fst
    /// crate does not check the integrity of other bytes, and reading a map
    /// made from crafted bytes can panic.  As a guard for callers that
    /// cannot tell, bytes that `fst::Map::new` refuses or whose checksum does
    /// not match are refused with `LoadFailed`.
    pub fn from_bytes(bytes: Vec<u8>) -> (r: Result<Self, DictError>)
        requires
            fst_decoded(bytes@) is Some,
        ensures
            r matches Ok(d) && fst_decoded(bytes@) == Some((d.words(), d.all_text())),
    {
        match fst_from_bytes(bytes) {
            Ok(map) => {
                if !fst_verify(&map) {
                    return Err(DictError::LoadFailed);
                }
                let word_count = fst_len(&map);
                Ok(Dict { map, word_count })
            },
            Err(_) => Err(DictError::LoadFailed),
        }
    }

    /// Search for an exact word match and return its frequency
    pub fn search(&self, word: &str) -> (r: Option<u64>)
        ensures
            r == (if self.words().contains_key(encoded(word@)) { Some(self.words()[encoded(word@)]) } else { None }),
    {
        proof {
            use_type_invariant(self);
        }
        let encoded_word = encode_accents(word);
        fst_get(&self.map, encoded_word.as_str())
    }

    /// Check if a word exists in the dictionary
    pub fn contains(&self, word: &str) -> (r: bool)
        ensures
            r == self.words().contains_key(encoded(word@)),
    {
        proof {
            use_type_invariant(self);
        }
        let encoded_word = encode_accents(word);
        fst_contains(&self.map, encoded_word.as_str())
    }

    /// Get the number of words in the dictionary
    ///
    /// This is the number of stored keys: every word counts, and so would
    /// a key that is not text.
    pub fn len(&self) -> (n: usize)
        ensures
            self.words().dom().len() <= n,
            self.all_text() ==> n == self.words().dom().len(),
    {
        proof {
            use_type_invariant(self);
        }
        self.word_count
    }

    /// Check if the dictionary is empty
    pub fn is_empty(&self) -> (b: bool)
        ensures
            b ==> self.words().dom().len() == 0,
            self.all_text() ==> (b == (self.words().dom().len() == 0)),
    {
        proof {
            use_type_invariant(self);
        }
        self.word_count == 0
    }
}

/// Calculate Damerau-Levenshtein distance between two strings, capped at
/// `max_dist + 1` (a transposition only of characters that both words hold
/// before the current position; see `dl_table`).
fn damerau_distance(s1: &str, s2: &str, max_dist: usize) -> (d: usize)
    requires
        max_dist < usize::MAX,
    ensures
        d as int == min2(dl_distance(s1@, s2@), max_dist + 1),
{
    let a = chars_of(s1);
    let b = chars_of(s2);
    capped_distance(&a, &b, max_dist)
}

/// The edit distance the automaton searches with: a transposition is two
/// Levenshtein edits, so a budget of one is searched with two.
pub open spec fn fst_distance(max: usize) -> u32 {
    if max == 1 { 2 } else { max as u32 }
}

/// The stored word `e` is a suggestion for `word` within `max`: the
/// automaton reaches it, its decoded form is within `max` of `word`, and
/// the two share enough characters.
pub open spec fn dict_match(m: Map<Seq<char>, u64>, word: Seq<char>, max: usize, e: Seq<char>) -> bool {
    &&& m.contains_key(e)
    &&& lev_distance(encoded(word), e) <= fst_distance(max)
    &&& dl_distance(word, decoded(e)) <= max
    &&& sufficient_overlap(word, decoded(e))
}

/// `ks` lists stored words that match `word` (see `dict_match`), each once
/// with the distance of its decoded form and its frequency, nearest first,
/// among equally near words most frequent first, and among those in code
/// point order of the stored word; every match is listed, but with a
/// positive `limit` only the first `limit` of them.
pub open spec fn dict_listing(
    m: Map<Seq<char>, u64>,
    word: Seq<char>,
    max: usize,
    limit: usize,
    ks: Seq<(Seq<char>, usize, u64)>,
) -> bool {
    &&& forall|k: int| 0 <= k < ks.len() ==> dict_match(m, word, max, (#[trigger] ks[k]).0)
            && m[ks[k].0] == ks[k].2 && ks[k].1 as int == dl_distance(word, decoded(ks[k].0))
    &&& scored_distinct(ks)
    &&& listing_ordered(ks)
    &&& limit > 0 ==> ks.len() <= limit
    &&& forall|e: Seq<char>| #[trigger] dict_match(m, word, max, e)
            && !(exists|k: int| 0 <= k < ks.len() && ks[k].0 == e)
            ==> limit > 0 && ks.len() == limit && forall|k: int| 0 <= k < ks.len()
                ==> ks[k].1 < dl_distance(word, decoded(e))
                    || (ks[k].1 == dl_distance(word, decoded(e)) && ks[k].2 >= m[e])
}

/// A listing of stored words with each word decoded.
pub open spec fn decoded_triples(ks: Seq<(Seq<char>, usize, u64)>) -> Seq<(Seq<char>, usize, u64)> {
    ks.map_values(|x: (Seq<char>, usize, u64)| (decoded(x.0), x.1, x.2))
}

/// `x` is listed before `y`: nearer, or as near and more frequent, or
/// alike in both and earlier in code point order.
pub open spec fn listed_before(x: (Seq<char>, usize, u64), y: (Seq<char>, usize, u64)) -> bool {
    x.1 < y.1 || (x.1 == y.1 && (x.2 > y.2 || (x.2 == y.2 && lex_lt(x.0, y.0))))
}

/// Every entry is listed before the entries after it.
pub open spec fn listing_ordered(e: Seq<(Seq<char>, usize, u64)>) -> bool {
    forall|a: int, b: int| 0 <= a < b < e.len() ==> #[trigger] listed_before(e[a], e[b])
}

proof fn lemma_listed_before_trans(x: (Seq<char>, usize, u64), y: (Seq<char>, usize, u64), z: (Seq<char>, usize, u64))
    requires
        listed_before(x, y),
        listed_before(y, z),
    ensures
        listed_before(x, z),
{
    if x.1 == y.1 && y.1 == z.1 && x.2 == y.2 && y.2 == z.2 {
        lemma_lex_trans(x.0, y.0, z.0);
    }
}

proof fn lemma_listed_before_total(x: (Seq<char>, usize, u64), y: (Seq<char>, usize, u64))
    requires
        x.0 != y.0,
    ensures
        listed_before(x, y) || listed_before(y, x),
{
    lemma_lex_total(x.0, y.0);
}

/// Whether `a` is listed before `b`.
fn listed_before_exec(a: &(Vec<char>, usize, u64), b: &(Vec<char>, usize, u64)) -> (r: bool)
    ensures
        r == listed_before((a.0@, a.1, a.2), (b.0@, b.1, b.2)),
{
    if a.1 != b.1 {
        a.1 < b.1
    } else if a.2 != b.2 {
        a.2 > b.2
    } else {
        let sa = string_of(&a.0);
        let sb = string_of(&b.0);
        str_lt(sa.as_str(), sb.as_str())
    }
}

/// Inserting an entry with a new word at its place keeps the order.
proof fn lemma_insert_listed(old_r: Seq<(Seq<char>, usize, u64)>, pos: int, x: (Seq<char>, usize, u64))
    requires
        0 <= pos <= old_r.len(),
        listing_ordered(old_r),
        forall|k: int| 0 <= k < old_r.len() ==> old_r[k].0 != x.0,
        forall|k: int| 0 <= k < pos ==> listed_before(old_r[k], x),
        pos < old_r.len() ==> !listed_before(old_r[pos], x),
    ensures
        listing_ordered(old_r.insert(pos, x)),
{
    let nr = old_r.insert(pos, x);
    lemma_insert_index(old_r, pos, x);
    if pos < old_r.len() {
        lemma_listed_before_total(old_r[pos], x);
    }
    assert forall|a: int, b: int| 0 <= a < b < nr.len() implies #[trigger] listed_before(nr[a], nr[b]) by {
        if b == pos {
            assert(nr[a] == old_r[a]);
        } else if a == pos {
            assert(nr[b] == old_r[b - 1]);
            if b - 1 > pos {
                lemma_listed_before_trans(x, old_r[pos], old_r[b - 1]);
            }
        } else if a < pos && b < pos {
            assert(nr[a] == old_r[a] && nr[b] == old_r[b]);
        } else if a < pos {
            assert(nr[a] == old_r[a] && nr[b] == old_r[b - 1]);
        } else {
            assert(nr[a] == old_r[a - 1] && nr[b] == old_r[b - 1]);
        }
    }
}

/// Inserting the next entry of `orig` at its place keeps the sorted prefix.
proof fn lemma_listing_step(
    old_rv: Seq<(Vec<char>, usize, u64)>,
    pos: int,
    x: (Vec<char>, usize, u64),
    orig: Seq<(Seq<char>, usize, u64)>,
    i: int,
)
    requires
        0 <= pos <= old_rv.len(),
        0 <= i < orig.len(),
        scored_distinct(orig),
        scored_distinct(scored_view(old_rv)),
        listing_ordered(scored_view(old_rv)),
        holds_prefix_of(scored_view(old_rv), orig, i),
        (x.0@, x.1, x.2) == orig[i],
        forall|k: int| 0 <= k < pos ==> listed_before((old_rv[k].0@, old_rv[k].1, old_rv[k].2), (x.0@, x.1, x.2)),
        pos < old_rv.len() ==> !listed_before((old_rv[pos].0@, old_rv[pos].1, old_rv[pos].2), (x.0@, x.1, x.2)),
    ensures
        scored_distinct(scored_view(old_rv.insert(pos, x))),
        listing_ordered(scored_view(old_rv.insert(pos, x))),
        holds_prefix_of(scored_view(old_rv.insert(pos, x)), orig, i + 1),
{
    let old_r = scored_view(old_rv);
    let xv = (x.0@, x.1, x.2);
    assert forall|k: int| 0 <= k < pos implies listed_before(#[trigger] old_r[k], xv) by {
        assert(old_r[k] == (old_rv[k].0@, old_rv[k].1, old_rv[k].2));
    }
    if pos < old_rv.len() {
        assert(old_r[pos] == (old_rv[pos].0@, old_rv[pos].1, old_rv[pos].2));
    }
    assert forall|k: int| 0 <= k < old_r.len() implies old_r[k].0 != xv.0 by {
        let m = choose|m: int| 0 <= m < i && #[trigger] old_r[k] == orig[m];
        assert(orig[m].0 != orig[i].0);
    }
    lemma_insert_listed(old_r, pos, xv);
    lemma_insert_distinct_scored(old_r, pos, orig, i);
    lemma_scored_insert(old_rv, pos, x);
}

/// Orders scored entries with distinct words as a listing: nearest first,
/// then most frequent, then in code point order.
#[verifier::rlimit(40)]
fn sort_listing(v: Vec<(Vec<char>, usize, u64)>) -> (r: Vec<(Vec<char>, usize, u64)>)
    requires
        scored_distinct(scored_view(v@)),
    ensures
        holds_prefix_of(scored_view(r@), scored_view(v@), v@.len() as int),
        scored_distinct(scored_view(r@)),
        listing_ordered(scored_view(r@)),
{
    let ghost orig = scored_view(v@);
    let n = v.len();
    let mut src = v;
    let mut r: Vec<(Vec<char>, usize, u64)> = Vec::new();
    let mut i: usize = 0;
    while i < n
        invariant
            n == orig.len(),
            i <= n,
            src@.len() == n - i,
            scored_view(src@) == orig.subrange(i as int, n as int),
            scored_distinct(orig),
            scored_distinct(scored_view(r@)),
            listing_ordered(scored_view(r@)),
            holds_prefix_of(scored_view(r@), orig, i as int),
        decreases n - i,
    {
        let ghost old_src = src@;
        let x = src.remove(0);
        proof {
            assert(src@ =~= old_src.subrange(1, old_src.len() as int));
            lemma_scored_next(old_src, orig, i as int);
        }
        let mut pos: usize = 0;
        while pos < r.len() && listed_before_exec(&r[pos], &x)
            invariant
                pos <= r@.len(),
                forall|k: int| 0 <= k < pos ==> listed_before((r@[k].0@, r@[k].1, r@[k].2), (x.0@, x.1, x.2)),
            decreases r.len() - pos,
        {
            pos = pos + 1;
        }
        let ghost old_rv = r@;
        proof {
            lemma_listing_step(old_rv, pos as int, x, orig, i as int);
        }
        r.insert(pos, x);
        i = i + 1;
    }
    r
}

/// What the candidate filter of `find_similar` has kept of the first `i`
/// words the automaton reached.
spec fn kept_from(
    m: Map<Seq<char>, u64>,
    word: Seq<char>,
    max: usize,
    found: Seq<(String, u64)>,
    i: int,
    cv: Seq<(Seq<char>, usize, u64)>,
) -> bool {
    &&& forall|k: int| 0 <= k < cv.len() ==> dict_match(m, word, max, (#[trigger] cv[k]).0)
            && m[cv[k].0] == cv[k].2 && cv[k].1 as int == dl_distance(word, decoded(cv[k].0))
    &&& scored_distinct(cv)
    &&& forall|k: int| 0 <= k < cv.len() ==> exists|j: int| 0 <= j < i && (#[trigger] cv[k]).0 == found[j].0@
    &&& forall|j: int| 0 <= j < i && dict_match(m, word, max, (#[trigger] found[j]).0@)
            ==> exists|k: int| 0 <= k < cv.len() && cv[k].0 == found[j].0@
}

/// Sorting what was kept of all the words reached gives the full listing.
#[verifier::rlimit(40)]
proof fn lemma_dict_full(
    m: Map<Seq<char>, u64>,
    word: Seq<char>,
    max: usize,
    found: Seq<(String, u64)>,
    cv: Seq<(Seq<char>, usize, u64)>,
    sv: Seq<(Seq<char>, usize, u64)>,
)
    requires
        kept_from(m, word, max, found, found.len() as int, cv),
        forall|e: Seq<char>| #[trigger] m.contains_key(e) && lev_distance(encoded(word), e) <= fst_distance(max)
            ==> exists|j: int| 0 <= j < found.len() && found[j].0@ == e,
        holds_prefix_of(sv, cv, cv.len() as int),
        scored_distinct(sv),
        listing_ordered(sv),
    ensures
        dict_listing(m, word, max, 0, sv),
{
    assert forall|k: int| 0 <= k < sv.len() implies dict_match(m, word, max, (#[trigger] sv[k]).0)
        && m[sv[k].0] == sv[k].2 && sv[k].1 as int == dl_distance(word, decoded(sv[k].0)) by {
        let j = choose|j: int| 0 <= j < cv.len() && #[trigger] sv[k] == cv[j];
        assert(dict_match(m, word, max, cv[j].0));
    }
    assert forall|e: Seq<char>| #[trigger] dict_match(m, word, max, e)
        implies exists|k: int| 0 <= k < sv.len() && sv[k].0 == e by {
        assert(m.contains_key(e) && lev_distance(encoded(word), e) <= fst_distance(max));
        let j = choose|j: int| 0 <= j < found.len() && found[j].0@ == e;
        assert(dict_match(m, word, max, found[j].0@));
        let c = choose|c: int| 0 <= c < cv.len() && cv[c].0 == found[j].0@;
        let k = choose|k: int| 0 <= k < cv.len() && sv[k] == #[trigger] cv[c];
        assert(sv[k].0 == e);
    }
}

/// Keeping the first `limit` entries of the full listing gives the listing
/// limited to `limit`.
#[verifier::rlimit(40)]
proof fn lemma_dict_truncate(
    m: Map<Seq<char>, u64>,
    word: Seq<char>,
    max: usize,
    limit: usize,
    sv: Seq<(Seq<char>, usize, u64)>,
)
    requires
        dict_listing(m, word, max, 0, sv),
        limit > 0,
        sv.len() > limit,
    ensures
        dict_listing(m, word, max, limit, sv.subrange(0, limit as int)),
{
    let r = sv.subrange(0, limit as int);
    assert forall|k: int| 0 <= k < r.len() implies dict_match(m, word, max, (#[trigger] r[k]).0)
        && m[r[k].0] == r[k].2 && r[k].1 as int == dl_distance(word, decoded(r[k].0)) by {
        assert(r[k] == sv[k]);
    }
    assert forall|a: int, b: int| 0 <= a < b < r.len() implies r[a].0 != r[b].0 by {
        assert(r[a] == sv[a] && r[b] == sv[b]);
    }
    assert forall|a: int, b: int| 0 <= a < b < r.len() implies #[trigger] listed_before(r[a], r[b]) by {
        assert(r[a] == sv[a] && r[b] == sv[b]);
        assert(listed_before(sv[a], sv[b]));
    }
    assert forall|e: Seq<char>| #[trigger] dict_match(m, word, max, e)
        && !(exists|k: int| 0 <= k < r.len() && r[k].0 == e)
        implies limit > 0 && r.len() == limit && forall|k: int| 0 <= k < r.len()
            ==> r[k].1 < dl_distance(word, decoded(e))
                || (r[k].1 == dl_distance(word, decoded(e)) && r[k].2 >= m[e]) by {
        let j = choose|j: int| 0 <= j < sv.len() && sv[j].0 == e;
        if j < limit {
            assert(r[j] == sv[j]);
        }
        assert(sv[j].2 == m[e]);
        assert forall|k: int| 0 <= k < r.len() implies r[k].1 < dl_distance(word, decoded(e))
            || (r[k].1 == dl_distance(word, decoded(e)) && r[k].2 >= m[e]) by {
            assert(r[k] == sv[k]);
            assert(listed_before(sv[k], sv[j]));
        }
    }
}

/// Keeps, of the words the automaton reached, those that match `word`,
/// each with the distance of its decoded form and its frequency.
#[verifier::rlimit(40)]
fn keep_matches(
    map: &fst::Map<Vec<u8>>,
    word: &str,
    max_distance: usize,
    found: &Vec<(String, u64)>,
) -> (cands: Vec<(Vec<char>, usize, u64)>)
    requires
        max_distance < usize::MAX,
        forall|j: int| 0 <= j < found@.len() ==> fst_words(*map).contains_key((#[trigger] found@[j]).0@)
            && fst_words(*map)[found@[j].0@] == found@[j].1
            && lev_distance(encoded(word@), found@[j].0@) <= fst_distance(max_distance),
        forall|a: int, b: int| 0 <= a < b < found@.len() ==> found@[a].0@ != found@[b].0@,
    ensures
        kept_from(fst_words(*map), word@, max_distance, found@, found@.len() as int, scored_view(cands@)),
{
    let ghost m = fst_words(*map);
    let mut cands: Vec<(Vec<char>, usize, u64)> = Vec::new();
    let mut i: usize = 0;
    while i < found.len()
        invariant
            max_distance < usize::MAX,
            m == fst_words(*map),
            i <= found@.len(),
            forall|j: int| 0 <= j < found@.len() ==> m.contains_key((#[trigger] found@[j]).0@)
                && m[found@[j].0@] == found@[j].1 && lev_distance(encoded(word@), found@[j].0@) <= fst_distance(max_distance),
            forall|a: int, b: int| 0 <= a < b < found@.len() ==> found@[a].0@ != found@[b].0@,
            kept_from(m, word@, max_distance, found@, i as int, scored_view(cands@)),
        decreases found.len() - i,
    {
        let ghost old_cv = scored_view(cands@);
        let ghost e = found@[i as int].0@;
        let key = chars_of(found[i].0.as_str());
        let matched = decode_accents(found[i].0.as_str());
        let dist = damerau_distance(word, matched.as_str(), max_distance);
        let keep = dist <= max_distance && has_sufficient_overlap(word, matched.as_str());
        proof {
            assert(found@[i as int] == found[i as int]);
            assert(matched@ == decoded(e));
            assert(keep == dict_match(m, word@, max_distance, e)) by {
                assert(m.contains_key(e) && lev_distance(encoded(word@), e) <= fst_distance(max_distance));
            }
        }
        if keep {
            cands.push((key, dist, found[i].1));
            proof {
                lemma_kept_step(m, word@, max_distance, found@, i as int, old_cv, (e, dist, found@[i as int].1));
                assert(scored_view(cands@) =~= old_cv.push((e, dist, found@[i as int].1)));
            }
        } else {
            proof {
                let cv = scored_view(cands@);
                assert forall|k: int| 0 <= k < cv.len() implies exists|j: int| 0 <= j < i + 1 && (#[trigger] cv[k]).0 == found@[j].0@ by {
                    let j = choose|j: int| 0 <= j < i && (#[trigger] cv[k]).0 == found@[j].0@;
                }
            }
        }
        i = i + 1;
    }
    cands
}

/// Keeping the next word reached, when it matches, keeps what was kept so far.
#[verifier::rlimit(40)]
proof fn lemma_kept_step(
    m: Map<Seq<char>, u64>,
    word: Seq<char>,
    max: usize,
    found: Seq<(String, u64)>,
    i: int,
    old_cv: Seq<(Seq<char>, usize, u64)>,
    x: (Seq<char>, usize, u64),
)
    requires
        0 <= i < found.len(),
        forall|a: int, b: int| 0 <= a < b < found.len() ==> found[a].0@ != found[b].0@,
        kept_from(m, word, max, found, i, old_cv),
        x.0 == found[i].0@,
        dict_match(m, word, max, x.0),
        m[x.0] == x.2,
        x.1 as int == dl_distance(word, decoded(x.0)),
    ensures
        kept_from(m, word, max, found, i + 1, old_cv.push(x)),
{
    let cv = old_cv.push(x);
    assert forall|a: int, b: int| 0 <= a < b < cv.len() implies cv[a].0 != cv[b].0 by {
        if b == old_cv.len() {
            assert(cv[a] == old_cv[a]);
            let j = choose|j: int| 0 <= j < i && (#[trigger] old_cv[a]).0 == found[j].0@;
            assert(found[j].0@ != found[i].0@);
        } else {
            assert(cv[a] == old_cv[a] && cv[b] == old_cv[b]);
        }
    }
    assert forall|k: int| 0 <= k < cv.len() implies exists|j: int| 0 <= j < i + 1 && (#[trigger] cv[k]).0 == found[j].0@ by {
        if k < old_cv.len() {
            assert(cv[k] == old_cv[k]);
            let j = choose|j: int| 0 <= j < i && (#[trigger] old_cv[k]).0 == found[j].0@;
            assert(cv[k].0 == found[j].0@);
        } else {
            assert(cv[k].0 == found[i].0@);
        }
    }
    assert forall|j: int| 0 <= j < i + 1 && dict_match(m, word, max, (#[trigger] found[j]).0@)
        implies exists|k: int| 0 <= k < cv.len() && cv[k].0 == found[j].0@ by {
        if j < i {
            let k = choose|k: int| 0 <= k < old_cv.len() && old_cv[k].0 == found[j].0@;
            assert(cv[k] == old_cv[k]);
        } else {
            assert(cv[old_cv.len() as int].0 == found[j].0@);
        }
    }
    assert forall|k: int| 0 <= k < cv.len() implies dict_match(m, word, max, (#[trigger] cv[k]).0)
        && m[cv[k].0] == cv[k].2 && cv[k].1 as int == dl_distance(word, decoded(cv[k].0)) by {
        if k < old_cv.len() {
            assert(cv[k] == old_cv[k]);
        }
    }
}

/// The listing with each stored word decoded back to text.
fn decode_listing(sorted: &Vec<(Vec<char>, usize, u64)>) -> (r: Vec<(String, usize, u64)>)
    ensures
        triples_view(r@) == decoded_triples(scored_view(sorted@)),
{
    let ghost ks = scored_view(sorted@);
    let mut r: Vec<(String, usize, u64)> = Vec::new();
    let mut k: usize = 0;
    while k < sorted.len()
        invariant
            k <= sorted@.len(),
            r@.len() == k,
            ks == scored_view(sorted@),
            triples_view(r@) == decoded_triples(ks.subrange(0, k as int)),
        decreases sorted.len() - k,
    {
        let stored = string_of(&sorted[k].0);
        let w = decode_accents(stored.as_str());
        let ghost old_r = r@;
        r.push((w, sorted[k].1, sorted[k].2));
        proof {
            assert(ks[k as int] == (sorted@[k as int].0@, sorted@[k as int].1, sorted@[k as int].2));
            assert(triples_view(r@) =~= decoded_triples(ks.subrange(0, k + 1))) by {
                assert forall|t: int| 0 <= t < k implies #[trigger] triples_view(r@)[t] == decoded_triples(ks.subrange(0, k + 1))[t] by {
                    assert(r@[t] == old_r[t]);
                    assert(triples_view(old_r)[t] == decoded_triples(ks.subrange(0, k as int))[t]);
                }
            }
        }
        k = k + 1;
    }
    proof {
        assert(ks.subrange(0, k as int) =~= ks);
    }
    r
}

impl Dict {
    /// Find words within maximum edit distance
    ///
    /// The automaton searches the stored (encoded) words by Levenshtein
    /// distance; the words it reaches are decoded, measured again by
    /// Damerau-Levenshtein distance and kept if within `max_distance` and
    /// sharing enough characters with `word`.  Returns (word, distance,
    /// frequency) tuples, nearest first, then most frequent first, then in
    /// code point order of the stored word; `limit` 0 means no limit.
    /// Nothing is found when the automaton cannot be built.
    pub fn find_similar(&self, word: &str, max_distance: usize, limit: usize) -> (r: Vec<(String, usize, u64)>)
        requires
            max_distance < usize::MAX,
        ensures
            lev_refused(encoded(word@), fst_distance(max_distance)) ==> r@.len() == 0,
            !lev_refused(encoded(word@), fst_distance(max_distance)) ==> exists|ks: Seq<(Seq<char>, usize, u64)>|
                #[trigger] dict_listing(self.words(), word@, max_distance, limit, ks)
                && triples_view(r@) == decoded_triples(ks),
    {
        proof {
            use_type_invariant(self);
        }
        let fst_dist: u32 = if max_distance == 1 { 2 } else { max_distance as u32 };
        let encoded_word = encode_accents(word);
        let found = match fst_search_within(&self.map, encoded_word.as_str(), fst_dist) {
            Some(found) => found,
            None => return Vec::new(),
        };
        let ghost m = self.words();
        let cands = keep_matches(&self.map, word, max_distance, &found);
        let ghost cv = scored_view(cands@);
        let mut sorted = sort_listing(cands);
        let ghost sv = scored_view(sorted@);
        proof {
            lemma_dict_full(m, word@, max_distance, found@, cv, sv);
        }
        if limit > 0 && sorted.len() > limit {
            sorted.truncate(limit);
            proof {
                lemma_dict_truncate(m, word@, max_distance, limit, sv);
                assert(scored_view(sorted@) =~= sv.subrange(0, limit as int));
            }
        }
        let r = decode_listing(&sorted);
        proof {
            assert(dict_listing(m, word@, max_distance, limit, scored_view(sorted@)));
        }
        r
    }
}

/// The frequency a word is stored with: 0 is read as 1.
pub open spec fn stored_frequency(f: u64) -> u64 {
    if f == 0 { 1 } else { f }
}

/// The stored words of a list of (word, frequency) entries: each word
/// encoded, with the frequency of its first entry.
pub open spec fn compiled_words(e: Seq<(Seq<char>, u64)>) -> Map<Seq<char>, u64>
    decreases e.len(),
{
    if e.len() == 0 {
        Map::empty()
    } else {
        let rest = compiled_words(e.drop_last());
        let w = encoded(e.last().0);
        if rest.contains_key(w) { rest } else { rest.insert(w, stored_frequency(e.last().1)) }
    }
}

/// The words of the list come in strictly increasing order.
pub open spec fn strictly_sorted(s: Seq<(Seq<char>, u64)>) -> bool {
    forall|a: int, b: int| 0 <= a < b < s.len() ==> lex_lt(s[a].0, s[b].0)
}

/// The list holds exactly the words of `m`, each with its value.
spec fn lists_exactly(s: Seq<(Seq<char>, u64)>, m: Map<Seq<char>, u64>) -> bool {
    &&& forall|k: int| 0 <= k < s.len() ==> m.contains_key((#[trigger] s[k]).0) && m[s[k].0] == s[k].1
    &&& forall|w: Seq<char>| #[trigger] m.contains_key(w) ==> exists|k: int| 0 <= k < s.len() && s[k].0 == w
}

/// Inserting a word that the sorted list does not hold, before the first
/// word that does not come before it, keeps the list sorted.
proof fn lemma_insert_sorted_word(s: Seq<(Seq<char>, u64)>, pos: int, x: (Seq<char>, u64))
    requires
        strictly_sorted(s),
        0 <= pos <= s.len(),
        forall|t: int| 0 <= t < pos ==> lex_lt(s[t].0, x.0),
        pos < s.len() ==> !lex_lt(s[pos].0, x.0) && s[pos].0 != x.0,
    ensures
        strictly_sorted(s.insert(pos, x)),
{
    let n = s.insert(pos, x);
    if pos < s.len() {
        lemma_lex_total(s[pos].0, x.0);
    }
    assert forall|t: int| pos < t < s.len() implies lex_lt(x.0, s[t].0) by {
        lemma_lex_trans(x.0, s[pos].0, s[t].0);
    }
    assert forall|a: int, b: int| 0 <= a < b < n.len() implies lex_lt(n[a].0, n[b].0) by {
        if b < pos {
            assert(n[a] == s[a] && n[b] == s[b]);
        } else if b == pos {
            assert(n[a] == s[a] && n[b] == x);
        } else if a < pos {
            assert(n[a] == s[a] && n[b] == s[b - 1]);
            if b - 1 == pos {
                lemma_lex_total(s[pos].0, x.0);
                lemma_lex_trans(s[a].0, x.0, s[pos].0);
            } else {
                lemma_lex_trans(s[a].0, x.0, s[b - 1].0);
            }
        } else if a == pos {
            assert(n[a] == x && n[b] == s[b - 1]);
            if b - 1 == pos {
                lemma_lex_total(s[pos].0, x.0);
            }
        } else {
            assert(n[a] == s[a - 1] && n[b] == s[b - 1]);
        }
    }
}

/// A sorted list that lists exactly the words of a map is a list from which
/// the map is read back.
proof fn lemma_map_of_sorted(s: Seq<(Seq<char>, u64)>, m: Map<Seq<char>, u64>)
    requires
        strictly_sorted(s),
        lists_exactly(s, m),
    ensures
        map_of_pairs(s) == m,
{
    assert forall|w: Seq<char>| #[trigger] map_of_pairs(s).contains_key(w) implies m.contains_key(w)
        && map_of_pairs(s)[w] == m[w] by {
        let k = choose|k: int| 0 <= k < s.len() && s[k].0 == w;
        assert(m.contains_key(s[k].0));
    }
    assert forall|w: Seq<char>| #[trigger] m.contains_key(w) implies map_of_pairs(s).contains_key(w) by {
        let k = choose|k: int| 0 <= k < s.len() && s[k].0 == w;
    }
    assert(map_of_pairs(s) =~= m);
}

impl Dict {
    /// Compiles (word, frequency) entries into the bytes of an FST map
    ///
    /// Words are stored encoded, in code point order; a word listed twice
    /// keeps the frequency of its first entry, and a frequency of 0 is
    /// stored as 1.
    pub fn compile_entries(entries: &Vec<(String, u64)>) -> (r: Result<Vec<u8>, DictError>)
        ensures
            r matches Ok(bytes) && fst_decoded(bytes@) == Some((compiled_words(pairs_view(entries@)), true)),
    {
        let ghost ev = pairs_view(entries@);
        let mut sorted: Vec<(String, u64)> = Vec::new();
        let mut i: usize = 0;
        while i < entries.len()
            invariant
                i <= entries@.len(),
                ev == pairs_view(entries@),
                strictly_sorted(pairs_view(sorted@)),
                lists_exactly(pairs_view(sorted@), compiled_words(ev.subrange(0, i as int))),
            decreases entries.len() - i,
        {
            let ghost sv = pairs_view(sorted@);
            let ghost before = compiled_words(ev.subrange(0, i as int));
            let w = encode_accents(entries[i].0.as_str());
            let f = if entries[i].1 == 0 { 1 } else { entries[i].1 };
            proof {
                assert(ev.subrange(0, i + 1).drop_last() =~= ev.subrange(0, i as int));
                assert(ev[i as int] == (entries@[i as int].0@, entries@[i as int].1));
            }
            let mut pos: usize = 0;
            while pos < sorted.len() && str_lt(sorted[pos].0.as_str(), w.as_str())
                invariant
                    pos <= sorted@.len(),
                    sv == pairs_view(sorted@),
                    forall|t: int| 0 <= t < pos ==> lex_lt(sv[t].0, w@),
                decreases sorted.len() - pos,
            {
                proof {
                    assert(sv[pos as int] == (sorted@[pos as int].0@, sorted@[pos as int].1));
                }
                pos = pos + 1;
            }
            proof {
                if pos < sorted@.len() {
                    assert(sv[pos as int] == (sorted@[pos as int].0@, sorted@[pos as int].1));
                }
            }
            if pos < sorted.len() && str_eq(sorted[pos].0.as_str(), w.as_str()) {
                proof {
                    assert(before.contains_key(w@));
                    assert(compiled_words(ev.subrange(0, i + 1)) == before);
                    assert forall|k: int| 0 <= k < sv.len() implies before.contains_key((#[trigger] sv[k]).0)
                        && before[sv[k].0] == sv[k].1 by {}
                }
            } else {
                proof {
                    assert(!before.contains_key(w@)) by {
                        if before.contains_key(w@) {
                            let k = choose|k: int| 0 <= k < sv.len() && sv[k].0 == w@;
                            if k < pos {
                                lemma_lex_irreflexive(w@);
                            } else if k > pos {
                                assert(lex_lt(sv[pos as int].0, sv[k].0));
                            }
                        }
                    }
                    lemma_insert_sorted_word(sv, pos as int, (w@, f));
                }
                sorted.insert(pos, (w, f));
                proof {
                    let nv = pairs_view(sorted@);
                    let after = compiled_words(ev.subrange(0, i + 1));
                    assert(after == before.insert(w@, f));
                    assert(nv =~= sv.insert(pos as int, (w@, f)));
                    assert forall|k: int| 0 <= k < nv.len() implies after.contains_key((#[trigger] nv[k]).0)
                        && after[nv[k].0] == nv[k].1 by {
                        if k < pos {
                            assert(nv[k] == sv[k]);
                        } else if k > pos {
                            assert(nv[k] == sv[k - 1]);
                        }
                    }
                    assert forall|x: Seq<char>| #[trigger] after.contains_key(x)
                        implies exists|k: int| 0 <= k < nv.len() && nv[k].0 == x by {
                        if x == w@ {
                            assert(nv[pos as int].0 == x);
                        } else {
                            let k = choose|k: int| 0 <= k < sv.len() && sv[k].0 == x;
                            if k < pos {
                                assert(nv[k] == sv[k]);
                            } else {
                                assert(nv[k + 1] == sv[k]);
                            }
                        }
                    }
                }
            }
            i = i + 1;
        }
        proof {
            assert(ev.subrange(0, i as int) =~= ev);
        }
        let ghost sv = pairs_view(sorted@);
        let mut builder = fst_builder();
        let mut k: usize = 0;
        while k < sorted.len()
            invariant
                k <= sorted@.len(),
                sv == pairs_view(sorted@),
                strictly_sorted(sv),
                fst_added(builder) == sv.subrange(0, k as int),
            decreases sorted.len() - k,
        {
            proof {
                assert(sv[k as int] == (sorted@[k as int].0@, sorted@[k as int].1));
                assert(fst_added(builder).len() == k);
                if k > 0 {
                    assert(fst_added(builder).last() == sv[k - 1]);
                    assert(lex_lt(sv[k - 1].0, sv[k as int].0));
                }
            }
            match fst_builder_insert(&mut builder, sorted[k].0.as_str(), sorted[k].1) {
                Ok(()) => {},
                Err(_) => {
                    return Err(DictError::BuildFailed);
                },
            }
            proof {
                assert(fst_added(builder) =~= sv.subrange(0, k + 1));
            }
            k = k + 1;
        }
        proof {
            assert(sv.subrange(0, k as int) =~= sv);
            lemma_map_of_sorted(sv, compiled_words(ev));
        }
        match fst_builder_finish(builder) {
            Ok(bytes) => Ok(bytes),
            Err(_) => Err(DictError::BuildFailed),
        }
    }
}

impl Dict {
    /// Builds a dictionary from (word, frequency) entries, as
    /// `compile_entries` compiles them
    pub fn from_entries(entries: &Vec<(String, u64)>) -> (r: Result<Dict, DictError>)
        ensures
            r matches Ok(d) && d.words() == compiled_words(pairs_view(entries@)) && d.all_text(),
    {
        let bytes = Dict::compile_entries(entries)?;
        Dict::from_bytes(bytes)
    }
}

/// Every stored word comes from an entry.
proof fn lemma_compiled_from_entries(e: Seq<(Seq<char>, u64)>, w: Seq<char>)
    requires
        compiled_words(e).contains_key(w),
    ensures
        exists|j: int| 0 <= j < e.len() && encoded(e[j].0) == w,
    decreases e.len(),
{
    if e.len() > 0 {
        let rest = compiled_words(e.drop_last());
        if rest.contains_key(w) {
            lemma_compiled_from_entries(e.drop_last(), w);
            let j = choose|j: int| 0 <= j < e.len() - 1 && encoded(e.drop_last()[j].0) == w;
            assert(e.drop_last()[j] == e[j]);
        } else {
            assert(encoded(e[e.len() - 1].0) == w);
        }
    }
}

/// A word compiled into a dictionary is found with the frequency of its
/// first entry (0 read as 1): when the entry at `k` is the first whose word
/// encodes to its encoding, the compiled map holds that encoding with that
/// frequency.
pub proof fn law_compiled_first_entry_found(e: Seq<(Seq<char>, u64)>, k: int)
    requires
        0 <= k < e.len(),
        forall|j: int| 0 <= j < k ==> encoded(e[j].0) != encoded(e[k].0),
    ensures
        compiled_words(e).contains_key(encoded(e[k].0)),
        compiled_words(e)[encoded(e[k].0)] == stored_frequency(e[k].1),
    decreases e.len(),
{
    let w = encoded(e[k].0);
    let rest = compiled_words(e.drop_last());
    if k == e.len() - 1 {
        if rest.contains_key(w) {
            lemma_compiled_from_entries(e.drop_last(), w);
            let j = choose|j: int| 0 <= j < e.len() - 1 && encoded(e.drop_last()[j].0) == w;
            assert(e.drop_last()[j] == e[j]);
        }
    } else {
        assert(e.drop_last()[k] == e[k]);
        assert forall|j: int| 0 <= j < k implies encoded(e.drop_last()[j].0) != encoded(e.drop_last()[k].0) by {
            assert(e.drop_last()[j] == e[j]);
        }
        law_compiled_first_entry_found(e.drop_last(), k);
    }
}

/// What is compiled is what is read back: a dictionary loaded from the
/// bytes that `compile_entries` wrote holds only text keys, finds every
/// word of the entries, with the frequency of its first entry (0 read as
/// 1), and nothing else.
pub proof fn law_search_compiled(d: Dict, bytes: Seq<u8>, entries: Seq<(Seq<char>, u64)>, k: int)
    requires
        fst_decoded(bytes) == Some((compiled_words(entries), true)),
        fst_decoded(bytes) == Some((d.words(), d.all_text())),
        0 <= k < entries.len(),
        forall|j: int| 0 <= j < k ==> encoded(entries[j].0) != encoded(entries[k].0),
    ensures
        d.all_text(),
        d.words().contains_key(encoded(entries[k].0)),
        d.words()[encoded(entries[k].0)] == stored_frequency(entries[k].1),
        forall|w: Seq<char>| #[trigger] d.words().contains_key(w)
            ==> exists|j: int| 0 <= j < entries.len() && encoded(entries[j].0) == w,
{
    law_compiled_first_entry_found(entries, k);
    assert forall|w: Seq<char>| #[trigger] d.words().contains_key(w)
        implies exists|j: int| 0 <= j < entries.len() && encoded(entries[j].0) == w by {
        lemma_compiled_from_entries(entries, w);
    }
}

} // verus!
