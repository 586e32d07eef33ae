//! Trie data structure for efficient word lookups and prefix searches.

use vstd::prelude::*;
use crate::base::ranking::{
    by_frequency_desc, by_rank, entries_view, holds_prefix_of, ranks_before, scored_distinct, scored_view,
    sort_by_frequency_desc, sort_by_rank, words_distinct,
};
use crate::base::json::{json_word_entries, word_entries_from_json, JsonError};
use crate::correction::damerau::fill_dl_table;
use crate::correction::distance_spec::{dl_distance, lemma_dl_bounds, lemma_dl_lower, min2};
use crate::text::{chars_of, string_of};

verus! {

/// Trie node - stores children and optional word metadata
#[derive(Debug)]
pub struct TrieNode {
    children: Vec<(char, TrieNode)>,
    is_end: bool,
    frequency: u64,
}

/// The child reached from `cs` by character `c`, if any.
spec fn child_at(cs: Seq<(char, TrieNode)>, c: char) -> Option<TrieNode> {
    if exists|i: int| 0 <= i < cs.len() && cs[i].0 == c {
        Some(cs[choose|i: int| 0 <= i < cs.len() && cs[i].0 == c].1)
    } else {
        None
    }
}

/// The frequency stored for the word `w` below node `n`, if `w` ends there.
spec fn node_get(n: TrieNode, w: Seq<char>) -> Option<u64>
    decreases w.len(),
{
    if w.len() == 0 {
        if n.is_end { Some(n.frequency) } else { None }
    } else {
        match child_at(n.children@, w[0]) {
            Some(ch) => node_get(ch, w.drop_first()),
            None => None,
        }
    }
}

/// The node reached from `n` by following the characters of `p`.
spec fn node_at(n: TrieNode, p: Seq<char>) -> Option<TrieNode>
    decreases p.len(),
{
    if p.len() == 0 {
        Some(n)
    } else {
        match child_at(n.children@, p[0]) {
            Some(ch) => node_at(ch, p.drop_first()),
            None => None,
        }
    }
}

spec fn chars_distinct(cs: Seq<(char, TrieNode)>) -> bool {
    forall|i: int, j: int| 0 <= i < j < cs.len() ==> cs[i].0 != cs[j].0
}

/// Children reached by distinct characters; below the top, a node ends a
/// word or has children.
spec fn local_ok(m: TrieNode, is_top: bool) -> bool {
    &&& chars_distinct(m.children@)
    &&& (is_top || m.is_end || m.children@.len() > 0)
}

/// Every node reachable from `n` is locally well formed.
spec fn node_wf(n: TrieNode, top: bool) -> bool {
    forall|p: Seq<char>|
        (#[trigger] node_at(n, p)) is Some ==> local_ok(node_at(n, p)->0, top && p.len() == 0)
}

proof fn lemma_wf_local(n: TrieNode, top: bool)
    requires
        node_wf(n, top),
    ensures
        local_ok(n, top),
{
    assert(node_at(n, Seq::<char>::empty()) == Some(n));
}

/// The nodes below child `i` are the nodes below `n` on paths starting with its character.
proof fn lemma_node_at_child(n: TrieNode, i: int, p: Seq<char>)
    requires
        chars_distinct(n.children@),
        0 <= i < n.children@.len(),
    ensures
        node_at(n.children@[i].1, p) == node_at(n, seq![n.children@[i].0] + p),
        node_get(n.children@[i].1, p) == node_get(n, seq![n.children@[i].0] + p),
{
    lemma_child_at_index(n.children@, i);
    let q = seq![n.children@[i].0] + p;
    assert(q.drop_first() =~= p);
}

proof fn lemma_wf_children(n: TrieNode, top: bool)
    requires
        node_wf(n, top),
    ensures
        chars_distinct(n.children@),
        forall|i: int| 0 <= i < n.children@.len() ==> #[trigger] node_wf(n.children@[i].1, false),
{
    lemma_wf_local(n, top);
    assert forall|i: int| 0 <= i < n.children@.len() implies #[trigger] node_wf(n.children@[i].1, false) by {
        assert forall|p: Seq<char>| (#[trigger] node_at(n.children@[i].1, p)) is Some implies local_ok(
            node_at(n.children@[i].1, p)->0,
            false,
        ) by {
            lemma_node_at_child(n, i, p);
            let q = seq![n.children@[i].0] + p;
            assert(node_at(n, q) is Some);
        }
    }
}

/// A node is well formed when it is locally and all its children are.
proof fn lemma_wf_from_children(n: TrieNode, top: bool)
    requires
        local_ok(n, top),
        forall|i: int| 0 <= i < n.children@.len() ==> #[trigger] node_wf(n.children@[i].1, false),
    ensures
        node_wf(n, top),
{
    assert forall|p: Seq<char>| (#[trigger] node_at(n, p)) is Some implies local_ok(node_at(n, p)->0, top && p.len() == 0) by {
        if p.len() == 0 {
        } else {
            let i = choose|i: int| 0 <= i < n.children@.len() && n.children@[i].0 == p[0];
            lemma_child_at_index(n.children@, i);
            assert(node_at(n, p) == node_at(n.children@[i].1, p.drop_first()));
            assert(node_wf(n.children@[i].1, false));
            assert(node_at(n.children@[i].1, p.drop_first()) is Some);
        }
    }
}

proof fn lemma_child_at_index(cs: Seq<(char, TrieNode)>, i: int)
    requires
        chars_distinct(cs),
        0 <= i < cs.len(),
    ensures
        child_at(cs, cs[i].0) == Some(cs[i].1),
{
    let c = cs[i].0;
    let j = choose|j: int| 0 <= j < cs.len() && cs[j].0 == c;
    if j < i {
        assert(cs[j].0 != cs[i].0);
    } else if i < j {
        assert(cs[i].0 != cs[j].0);
    }
}

/// Index of the child reached by `c`.
fn find_child(cs: &Vec<(char, TrieNode)>, c: char) -> (r: Option<usize>)
    requires
        chars_distinct(cs@),
    ensures
        r matches Some(i) ==> i < cs@.len() && cs@[i as int].0 == c && child_at(cs@, c) == Some(cs@[i as int].1),
        r is None ==> child_at(cs@, c) is None,
{
    let mut i: usize = 0;
    while i < cs.len()
        invariant
            i <= cs@.len(),
            chars_distinct(cs@),
            forall|k: int| 0 <= k < i ==> cs@[k].0 != c,
        decreases cs.len() - i,
    {
        if cs[i].0 == c {
            proof {
                lemma_child_at_index(cs@, i as int);
            }
            return Some(i);
        }
        i = i + 1;
    }
    None
}

/// A node holding exactly the word `w[pos..]`, built from its last character back.
fn build_chain(w: &Vec<char>, pos: usize, frequency: u64) -> (n: TrieNode)
    requires
        pos <= w@.len(),
    ensures
        node_wf(n, false),
        forall|s: Seq<char>|
            #[trigger] node_get(n, s) == if s == w@.subrange(pos as int, w@.len() as int) {
                Some(frequency)
            } else {
                None::<u64>
            },
    decreases w@.len() - pos,
{
    if pos == w.len() {
        let n = TrieNode { children: Vec::new(), is_end: true, frequency };
        proof {
            lemma_wf_from_children(n, false);
        }
        assert forall|s: Seq<char>|
            #[trigger] node_get(n, s) == if s == w@.subrange(pos as int, w@.len() as int) {
                Some(frequency)
            } else {
                None::<u64>
            } by {
            if s.len() == 0 {
                assert(s =~= w@.subrange(pos as int, w@.len() as int));
            }
        }
        n
    } else {
        let tail = build_chain(w, pos + 1, frequency);
        let mut children = Vec::new();
        children.push((w[pos], tail));
        let n = TrieNode { children, is_end: false, frequency: 0 };
        proof {
            lemma_child_at_index(n.children@, 0);
            lemma_wf_from_children(n, false);
            assert forall|s: Seq<char>|
                #[trigger] node_get(n, s) == if s == w@.subrange(pos as int, w@.len() as int) {
                    Some(frequency)
                } else {
                    None::<u64>
                } by {
                let rest = w@.subrange(pos + 1, w@.len() as int);
                let whole = w@.subrange(pos as int, w@.len() as int);
                assert(whole =~= seq![w@[pos as int]] + rest);
                if s.len() > 0 {
                    if s[0] == w@[pos as int] {
                        assert(child_at(n.children@, s[0]) == Some(tail));
                        assert(node_get(n, s) == node_get(tail, s.drop_first()));
                        assert(s == whole <==> s.drop_first() == rest) by {
                            if s.drop_first() == rest {
                                assert(s =~= seq![s[0]] + s.drop_first());
                            }
                            if s == whole {
                                assert(s.drop_first() =~= rest);
                            }
                        }
                    } else {
                        assert(s != whole);
                        assert(child_at(n.children@, s[0]) is None) by {
                            assert forall|i: int| 0 <= i < n.children@.len() implies n.children@[i].0 != s[0] by {
                                assert(i == 0);
                            }
                        }
                    }
                } else {
                    assert(s != whole);
                }
            }
        }
        n
    }
}

/// Sets the frequency of `w[pos..]` below `node`, creating nodes as needed.
/// Returns whether the word was new.
fn node_insert(node: &mut TrieNode, w: &Vec<char>, pos: usize, frequency: u64, top: bool) -> (was_new: bool)
    requires
        node_wf(*old(node), top),
        pos <= w@.len(),
    ensures
        node_wf(*final(node), top),
        was_new == node_get(*old(node), w@.subrange(pos as int, w@.len() as int)) is None,
        forall|s: Seq<char>|
            #[trigger] node_get(*final(node), s) == if s == w@.subrange(pos as int, w@.len() as int) {
                Some(frequency)
            } else {
                node_get(*old(node), s)
            },
    decreases w@.len() - pos,
{
    let ghost before = *node;
    let ghost whole = w@.subrange(pos as int, w@.len() as int);
    proof {
        lemma_wf_children(before, top);
    }
    if pos == w.len() {
        let was_new = !node.is_end;
        node.is_end = true;
        node.frequency = frequency;
        proof {
            assert(whole.len() == 0);
            assert forall|s: Seq<char>|
                #[trigger] node_get(*node, s) == if s == whole { Some(frequency) } else { node_get(before, s) } by {
                if s.len() == 0 {
                    assert(s =~= whole);
                } else {
                    assert(node.children@ == before.children@);
                }
            }
            assert(node.children@ == before.children@);
            lemma_wf_local(before, top);
            lemma_wf_from_children(*node, top);
        }
        return was_new;
    }
    let c = w[pos];
    proof {
        assert(whole =~= seq![c] + w@.subrange(pos + 1, w@.len() as int));
    }
    match find_child(&node.children, c) {
        Some(idx) => {
            let ghost old_child = node.children@[idx as int].1;
            assert(before == *old(node));
            assert(node.children@ == before.children@);
            assert(node_wf(old_child, false));
            let was_new = node_insert(&mut node.children[idx].1, w, pos + 1, frequency, false);
            proof {
                let cs = node.children@;
                assert(cs.len() == before.children@.len());
                assert forall|k: int| 0 <= k < cs.len() implies cs[k].0 == before.children@[k].0 by {}
                assert(chars_distinct(cs));
                lemma_child_at_index(cs, idx as int);
                {
                    assert forall|k: int| 0 <= k < cs.len() implies #[trigger] node_wf(cs[k].1, false) by {
                        if k != idx {
                            assert(cs[k] == before.children@[k]);
                            assert(node_wf(before.children@[k].1, false));
                        }
                    }
                }
                lemma_wf_from_children(*node, top);
                assert forall|s: Seq<char>|
                    #[trigger] node_get(*node, s) == if s == whole { Some(frequency) } else { node_get(before, s) } by {
                    if s.len() == 0 {
                        assert(s != whole);
                        assert(node.is_end == before.is_end && node.frequency == before.frequency);
                    } else if s[0] == c {
                        lemma_child_at_index(before.children@, idx as int);
                        assert(node_get(*node, s) == node_get(cs[idx as int].1, s.drop_first()));
                        assert(node_get(before, s) == node_get(old_child, s.drop_first()));
                        assert(s == whole <==> s.drop_first() == w@.subrange(pos + 1, w@.len() as int)) by {
                            if s.drop_first() == w@.subrange(pos + 1, w@.len() as int) {
                                assert(s =~= seq![s[0]] + s.drop_first());
                            }
                            if s == whole {
                                assert(s.drop_first() =~= w@.subrange(pos + 1, w@.len() as int));
                            }
                        }
                    } else {
                        assert(s != whole);
                        match child_at(before.children@, s[0]) {
                            Some(ch) => {
                                let k = choose|k: int| 0 <= k < before.children@.len() && before.children@[k].0 == s[0];
                                lemma_child_at_index(before.children@, k);
                                lemma_child_at_index(cs, k);
                                assert(k != idx);
                                assert(cs[k] == before.children@[k]);
                                assert(node_get(*node, s) == node_get(cs[k].1, s.drop_first()));
                                assert(node_get(before, s) == node_get(before.children@[k].1, s.drop_first()));
                            },
                            None => {
                                assert forall|k: int| 0 <= k < cs.len() implies cs[k].0 != s[0] by {
                                    assert(cs[k].0 == before.children@[k].0);
                                }
                                assert(child_at(cs, s[0]) is None);
                            },
                        }
                    }
                }
                assert(node_get(before, whole) == node_get(old_child, w@.subrange(pos + 1, w@.len() as int))) by {
                    lemma_child_at_index(before.children@, idx as int);
                    assert(whole.drop_first() =~= w@.subrange(pos + 1, w@.len() as int));
                }
            }
            was_new
        },
        None => {
            let chain = build_chain(w, pos + 1, frequency);
            node.children.push((c, chain));
            proof {
                let cs = node.children@;
                let n0 = before.children@.len() as int;
                assert(chars_distinct(cs)) by {
                    assert forall|i: int, j: int| 0 <= i < j < cs.len() implies cs[i].0 != cs[j].0 by {
                        if j < n0 {
                            assert(before.children@[i].0 != before.children@[j].0);
                        } else {
                            assert(cs[i] == before.children@[i]);
                        }
                    }
                }
                lemma_child_at_index(cs, n0);
                {
                    assert forall|k: int| 0 <= k < cs.len() implies #[trigger] node_wf(cs[k].1, false) by {
                        if k < n0 {
                            assert(cs[k] == before.children@[k]);
                            assert(node_wf(before.children@[k].1, false));
                        }
                    }
                }
                lemma_wf_from_children(*node, top);
                assert forall|s: Seq<char>|
                    #[trigger] node_get(*node, s) == if s == whole { Some(frequency) } else { node_get(before, s) } by {
                    if s.len() == 0 {
                        assert(s != whole);
                    } else if s[0] == c {
                        assert(node_get(*node, s) == node_get(chain, s.drop_first()));
                        assert(child_at(before.children@, c) is None);
                        assert(s == whole <==> s.drop_first() == w@.subrange(pos + 1, w@.len() as int)) by {
                            if s.drop_first() == w@.subrange(pos + 1, w@.len() as int) {
                                assert(s =~= seq![s[0]] + s.drop_first());
                            }
                            if s == whole {
                                assert(s.drop_first() =~= w@.subrange(pos + 1, w@.len() as int));
                            }
                        }
                    } else {
                        assert(s != whole);
                        match child_at(before.children@, s[0]) {
                            Some(ch) => {
                                let k = choose|k: int| 0 <= k < before.children@.len() && before.children@[k].0 == s[0];
                                lemma_child_at_index(before.children@, k);
                                lemma_child_at_index(cs, k);
                                assert(cs[k] == before.children@[k]);
                                assert(node_get(*node, s) == node_get(cs[k].1, s.drop_first()));
                            },
                            None => {
                                assert forall|k: int| 0 <= k < cs.len() implies cs[k].0 != s[0] by {
                                    if k < n0 {
                                        assert(cs[k] == before.children@[k]);
                                    }
                                }
                                assert(child_at(cs, s[0]) is None);
                            },
                        }
                    }
                }
            }
            true
        },
    }
}

/// Whether `w` begins with `p`.
pub open spec fn has_prefix(w: Seq<char>, p: Seq<char>) -> bool {
    p.len() <= w.len() && w.subrange(0, p.len() as int) == p
}

proof fn lemma_get_through(n: TrieNode, p: Seq<char>, s: Seq<char>)
    ensures
        node_get(n, p + s) == match node_at(n, p) {
            Some(m) => node_get(m, s),
            None => None,
        },
    decreases p.len(),
{
    if p.len() > 0 {
        assert((p + s)[0] == p[0]);
        assert((p + s).drop_first() =~= p.drop_first() + s);
        match child_at(n.children@, p[0]) {
            Some(ch) => {
                lemma_get_through(ch, p.drop_first(), s);
            },
            None => {},
        }
    } else {
        assert(p + s =~= s);
    }
}

proof fn lemma_has_word(n: TrieNode)
    requires
        node_wf(n, false),
    ensures
        exists|s: Seq<char>| (#[trigger] node_get(n, s)) is Some,
    decreases n,
{
    lemma_wf_local(n, false);
    if n.is_end {
        assert(node_get(n, Seq::<char>::empty()) is Some);
    } else {
        lemma_wf_children(n, false);
        let ch = n.children@[0].1;
        assert(decreases_to!(n => n.children));
        assert(decreases_to!(n.children => n.children@));
        assert(decreases_to!(n.children@ => n.children@[0]));
        assert(decreases_to!(n.children@[0] => n.children@[0].1));
        lemma_has_word(ch);
        let s = choose|s: Seq<char>| (#[trigger] node_get(ch, s)) is Some;
        lemma_node_at_child(n, 0, s);
        assert(node_get(n, seq![n.children@[0].0] + s) is Some);
    }
}

/// Trie structure for efficient prefix and exact-match lookups
///
/// # Guarantees
/// * O(m) lookup where m = word length
/// * O(m) prefix search where m = prefix length
pub struct Trie {
    root: TrieNode,
    word_count: usize,
    words: Ghost<Set<Seq<char>>>,
}

impl View for Trie {
    type V = Map<Seq<char>, u64>;

    /// The words of the trie, each with its frequency.
    closed spec fn view(&self) -> Map<Seq<char>, u64> {
        Map::new(|w: Seq<char>| node_get(self.root, w) is Some, |w: Seq<char>| node_get(self.root, w)->0)
    }
}

impl Trie {
    /// The internal structure agrees with the words it holds.
    pub closed spec fn wf(&self) -> bool {
        &&& node_wf(self.root, true)
        &&& self.words@ == self@.dom()
        &&& self.words@.finite()
        &&& self.word_count == self.words@.len()
        &&& forall|w: Seq<char>| #[trigger] self.words@.contains(w) ==> w.len() <= isize::MAX
    }

    /// Create a new empty Trie
    pub fn new() -> (t: Self)
        ensures
            t.wf(),
            t@ == Map::<Seq<char>, u64>::empty(),
    {
        let t = Trie {
            root: TrieNode { children: Vec::new(), is_end: false, frequency: 0 },
            word_count: 0,
            words: Ghost(Set::empty()),
        };
        proof {
            lemma_wf_from_children(t.root, true);
            assert(t@ =~= Map::<Seq<char>, u64>::empty()) by {
                assert forall|w: Seq<char>| !(#[trigger] node_get(t.root, w) is Some) by {
                    if w.len() > 0 {
                        assert(child_at(t.root.children@, w[0]) is None);
                    }
                }
            }
            assert(t.words@ =~= t@.dom());
        }
        t
    }

    /// Insert a word with associated frequency
    pub fn insert(&mut self, word: &str, frequency: u64)
        requires
            old(self).wf(),
            old(self)@.dom().len() < usize::MAX || old(self)@.contains_key(word@),
        ensures
            final(self).wf(),
            final(self)@ == old(self)@.insert(word@, frequency),
    {
        let w = chars_of(word);
        let ghost old_view = self@;
        let ghost old_root = self.root;
        let was_new = node_insert(&mut self.root, &w, 0, frequency, true);
        proof {
            assert(w@.subrange(0, w@.len() as int) =~= w@);
            assert(self@ =~= old_view.insert(word@, frequency));
            self.words = Ghost(self.words@.insert(word@));
            assert(self.words@ =~= self@.dom());
            assert(forall|v: Seq<char>| #[trigger] self.words@.contains(v) ==> v == word@ || old(self).words@.contains(v));
        }
        if was_new {
            self.word_count += 1;
        }
    }

    /// Insert a word with default frequency of 1
    pub fn insert_word(&mut self, word: &str)
        requires
            old(self).wf(),
            old(self)@.dom().len() < usize::MAX || old(self)@.contains_key(word@),
        ensures
            final(self).wf(),
            final(self)@ == old(self)@.insert(word@, 1),
    {
        self.insert(word, 1);
    }

    /// Search for an exact word match
    ///
    /// `Some(frequency)` if word exists, `None` otherwise
    pub fn search(&self, word: &str) -> (r: Option<u64>)
        requires
            self.wf(),
        ensures
            r == (if self@.contains_key(word@) { Some(self@[word@]) } else { None }),
    {
        let w = chars_of(word);
        let mut current = &self.root;
        let mut i: usize = 0;
        let ghost mut top = true;
        assert(w@.subrange(0, w@.len() as int) =~= w@);
        while i < w.len()
            invariant
                w@ == word@,
                i <= w@.len(),
                node_wf(*current, top),
                node_get(self.root, w@) == node_get(*current, w@.subrange(i as int, w@.len() as int)),
            decreases w.len() - i,
        {
            proof {
                lemma_wf_children(*current, top);
                let rest = w@.subrange(i as int, w@.len() as int);
                assert(rest[0] == w@[i as int]);
                assert(rest.drop_first() =~= w@.subrange(i + 1, w@.len() as int));
            }
            match find_child(&current.children, w[i]) {
                Some(idx) => {
                    current = &current.children[idx].1;
                    proof {
                        top = false;
                    }
                },
                None => {
                    return None;
                },
            }
            i = i + 1;
        }
        proof {
            assert(w@.subrange(i as int, w@.len() as int) =~= Seq::<char>::empty());
        }
        if current.is_end {
            Some(current.frequency)
        } else {
            None
        }
    }

    /// Check if a word exists in the Trie
    pub fn contains(&self, word: &str) -> (r: bool)
        requires
            self.wf(),
        ensures
            r == self@.contains_key(word@),
    {
        self.search(word).is_some()
    }

    /// Check if any words start with the given prefix
    pub fn starts_with(&self, prefix: &str) -> (r: bool)
        requires
            self.wf(),
        ensures
            r == exists|w: Seq<char>| #[trigger] self@.contains_key(w) && has_prefix(w, prefix@),
    {
        let p = chars_of(prefix);
        if p.len() == 0 {
            let n = self.len();
            proof {
                if n > 0 {
                    let w = self@.dom().choose();
                    assert(self@.contains_key(w));
                    assert(w.subrange(0, 0) =~= prefix@);
                } else {
                    self@.dom().lemma_len0_is_empty();
                    assert(!self@.dom().contains(self@.dom().choose()));
                }
            }
            return n > 0;
        }
        let mut current = &self.root;
        let mut i: usize = 0;
        let ghost mut top = true;
        while i < p.len()
            invariant
                p@ == prefix@,
                i <= p@.len(),
                node_wf(*current, top),
                top == (i == 0),
                node_at(self.root, p@.subrange(0, i as int)) == Some(*current),
            decreases p.len() - i,
        {
            proof {
                lemma_wf_children(*current, top);
            }
            match find_child(&current.children, p[i]) {
                Some(idx) => {
                    proof {
                        lemma_path_extend(self.root, p@.subrange(0, i as int), p@[i as int], *current);
                        assert(p@.subrange(0, i + 1) =~= p@.subrange(0, i as int).push(p@[i as int]));
                    }
                    current = &current.children[idx].1;
                    proof {
                        top = false;
                    }
                },
                None => {
                    proof {
                        lemma_path_extend(self.root, p@.subrange(0, i as int), p@[i as int], *current);
                        assert(p@.subrange(0, i + 1) =~= p@.subrange(0, i as int).push(p@[i as int]));
                        lemma_no_word_below(self.root, p@.subrange(0, i + 1));
                        assert forall|w: Seq<char>| #[trigger] self@.contains_key(w) implies !has_prefix(w, prefix@) by {
                            if has_prefix(w, prefix@) {
                                let q = p@.subrange(0, i + 1);
                                assert(w.subrange(0, q.len() as int) =~= q);
                                assert(has_prefix(w, q));
                            }
                        }
                    }
                    return false;
                },
            }
            i = i + 1;
        }
        proof {
            assert(p@.subrange(0, i as int) =~= p@);
            if p@.len() > 0 {
                lemma_has_word(*current);
                let s = choose|s: Seq<char>| (#[trigger] node_get(*current, s)) is Some;
                lemma_get_through(self.root, p@, s);
                let w = p@ + s;
                assert(w.subrange(0, p@.len() as int) =~= p@);
                assert(self@.contains_key(w));
            }
        }
        true
    }

    /// Get the number of words in the Trie
    pub fn len(&self) -> (n: usize)
        requires
            self.wf(),
        ensures
            self@.dom().finite(),
            n == self@.dom().len(),
    {
        self.word_count
    }

    /// Check if the Trie is empty
    pub fn is_empty(&self) -> (b: bool)
        requires
            self.wf(),
        ensures
            b == (self@.dom().len() == 0),
    {
        self.word_count == 0
    }
}

/// Following one more character from the node at `p`.
proof fn lemma_path_extend(n: TrieNode, p: Seq<char>, c: char, m: TrieNode)
    requires
        node_at(n, p) == Some(m),
    ensures
        node_at(n, p.push(c)) == child_at(m.children@, c),
    decreases p.len(),
{
    if p.len() > 0 {
        assert(p.push(c)[0] == p[0]);
        assert(p.push(c).drop_first() =~= p.drop_first().push(c));
        let ch = child_at(n.children@, p[0])->0;
        lemma_path_extend(ch, p.drop_first(), c, m);
    } else {
        assert(p.push(c) =~= seq![c]);
        assert(seq![c].drop_first() =~= Seq::<char>::empty());
        assert(m == n);
        match child_at(n.children@, c) {
            Some(ch) => {
                assert(node_at(ch, Seq::<char>::empty()) == Some(ch));
            },
            None => {},
        }
    }
}

/// No word goes through a missing path.
proof fn lemma_no_word_below(n: TrieNode, p: Seq<char>)
    requires
        node_at(n, p) is None,
    ensures
        forall|w: Seq<char>| has_prefix(w, p) ==> #[trigger] node_get(n, w) is None,
{
    assert forall|w: Seq<char>| has_prefix(w, p) implies #[trigger] node_get(n, w) is None by {
        let s = w.subrange(p.len() as int, w.len() as int);
        assert(w =~= p + s);
        lemma_get_through(n, p, s);
    }
}

impl Default for Trie {
    fn default() -> (t: Self)
        ensures
            t.wf(),
            t@ == Map::<Seq<char>, u64>::empty(),
    {
        Self::new()
    }
}

/// Entry `x` is a word below node `n`, reached from a node at path `p`, with its frequency.
spec fn entry_below(x: (Seq<char>, u64), n: TrieNode, p: Seq<char>) -> bool {
    has_prefix(x.0, p) && node_get(n, x.0.subrange(p.len() as int, x.0.len() as int)) == Some(x.1)
}

/// `e` lists every word below `n` exactly once, each prefixed by `p`.
spec fn lists_below(e: Seq<(Seq<char>, u64)>, n: TrieNode, p: Seq<char>) -> bool {
    &&& forall|k: int| 0 <= k < e.len() ==> #[trigger] entry_below(e[k], n, p)
    &&& words_distinct(e)
    &&& forall|s: Seq<char>| #[trigger] node_get(n, s) is Some ==> exists|k: int| 0 <= k < e.len() && e[k].0 == p + s
}

proof fn lemma_wf_top(n: TrieNode)
    requires
        node_wf(n, false),
    ensures
        node_wf(n, true),
{
    assert forall|p: Seq<char>| (#[trigger] node_at(n, p)) is Some implies local_ok(node_at(n, p)->0, true && p.len() == 0) by {
        assert(local_ok(node_at(n, p)->0, false && p.len() == 0));
    }
}

fn copy_chars(v: &Vec<char>) -> (r: Vec<char>)
    ensures
        r@ == v@,
{
    let mut r: Vec<char> = Vec::new();
    let mut i: usize = 0;
    while i < v.len()
        invariant
            i <= v@.len(),
            r@ == v@.subrange(0, i as int),
        decreases v.len() - i,
    {
        r.push(v[i]);
        assert(v@.subrange(0, i + 1) =~= v@.subrange(0, i as int).push(v@[i as int]));
        i = i + 1;
    }
    assert(v@.subrange(0, i as int) =~= v@);
    r
}

/// Recursive helper to collect all words from a node
#[verifier::rlimit(60)]
fn collect_words(node: &TrieNode, prefix: &mut Vec<char>, results: &mut Vec<(Vec<char>, u64)>)
    requires
        node_wf(*node, true),
    ensures
        final(prefix)@ == old(prefix)@,
        final(results)@.len() >= old(results)@.len(),
        final(results)@.subrange(0, old(results)@.len() as int) == old(results)@,
        lists_below(entries_view(final(results)@.subrange(old(results)@.len() as int, final(results)@.len() as int)), *node, old(prefix)@),
    decreases node,
{
    let ghost p = prefix@;
    let ghost start = results@.len() as int;
    let ghost before = results@;
    let ghost plen = p.len() as int;
    proof {
        lemma_wf_local(*node, true);
        lemma_wf_children(*node, true);
    }
    if node.is_end {
        let word = copy_chars(prefix);
        results.push((word, node.frequency));
    }
    proof {
        let e = entries_view(results@.subrange(start, results@.len() as int));
        assert(results@.subrange(0, start) =~= before);
        if node.is_end {
            assert(e.len() == 1);
            assert(e[0] == (p, node.frequency));
            assert(p.subrange(0, plen) =~= p);
            assert(p.subrange(plen, plen) =~= Seq::<char>::empty());
            assert(entry_below(e[0], *node, p));
            assert forall|s: Seq<char>| #[trigger] node_get(*node, s) is Some
                && (s.len() == 0 || exists|j: int| 0 <= j < 0 && node.children@[j].0 == s[0])
                implies exists|k: int| 0 <= k < e.len() && e[k].0 == p + s by {
                assert(p + s =~= p);
                assert(e[0].0 == p + s);
            }
        } else {
            assert(e.len() == 0);
            assert forall|s: Seq<char>| #[trigger] node_get(*node, s) is Some
                && (s.len() == 0 || exists|j: int| 0 <= j < 0 && node.children@[j].0 == s[0])
                implies exists|k: int| 0 <= k < e.len() && e[k].0 == p + s by {
            }
        }
    }
    let mut i: usize = 0;
    while i < node.children.len()
        invariant
            prefix@ == p,
            plen == p.len(),
            node_wf(*node, true),
            chars_distinct(node.children@),
            forall|j: int| 0 <= j < node.children@.len() ==> #[trigger] node_wf(node.children@[j].1, false),
            i <= node.children@.len(),
            0 <= start,
            start == before.len(),
            results@.len() >= start,
            results@.subrange(0, start) == before,
            ({
                let e = entries_view(results@.subrange(start, results@.len() as int));
                &&& forall|k: int| 0 <= k < e.len() ==> #[trigger] entry_below(e[k], *node, p)
                &&& words_distinct(e)
                &&& forall|k: int, j: int| 0 <= k < e.len() && i <= j < node.children@.len() ==>
                        (#[trigger] e[k].0).len() <= plen || e[k].0[plen] != (#[trigger] node.children@[j]).0
                &&& forall|s: Seq<char>| #[trigger] node_get(*node, s) is Some
                        && (s.len() == 0 || exists|j: int| 0 <= j < i && node.children@[j].0 == s[0])
                        ==> exists|k: int| 0 <= k < e.len() && e[k].0 == p + s
            }),
        decreases node.children@.len() - i,
    {
        let ghost mid = results@;
        let c = node.children[i].0;
        let child = &node.children[i].1;
        proof {
            lemma_wf_top(*child);
            assert(decreases_to!(*node => node.children));
            assert(decreases_to!(node.children => node.children@));
            assert(decreases_to!(node.children@ => node.children@[i as int]));
            assert(decreases_to!(node.children@[i as int] => node.children@[i as int].1));
        }
        prefix.push(c);
        collect_words(child, prefix, results);
        prefix.pop();
        proof {
            let pc = p.push(c);
            let e_old = entries_view(mid.subrange(start, mid.len() as int));
            let e_new = entries_view(results@.subrange(mid.len() as int, results@.len() as int));
            let e = entries_view(results@.subrange(start, results@.len() as int));
            let r = results@;
            let ml = mid.len() as int;
            assert forall|x: int| 0 <= x < ml implies r[x] == mid[x] by {
                assert(r.subrange(0, ml)[x] == r[x]);
            }
            assert(r.subrange(start, r.len() as int) =~= mid.subrange(start, ml) + r.subrange(ml, r.len() as int));
            assert(e =~= e_old + e_new);
            assert(results@.subrange(0, start) =~= mid.subrange(0, start));
            // entries of the child are entries of this node
            assert forall|k: int| 0 <= k < e_new.len() implies #[trigger] entry_below(e_new[k], *node, p) by {
                let w = e_new[k].0;
                assert(entry_below(e_new[k], *child, pc));
                let rest = w.subrange(pc.len() as int, w.len() as int);
                lemma_node_at_child(*node, i as int, rest);
                assert(w.subrange(0, pc.len() as int)[plen] == w[plen]);
                assert(w[plen] == c);
                assert(seq![c] + rest =~= w.subrange(plen, w.len() as int));
                assert(w.subrange(0, plen) =~= w.subrange(0, pc.len() as int).subrange(0, plen));
                assert(pc.subrange(0, plen) =~= p);
                assert(has_prefix(w, p));
                assert(node_get(*node, w.subrange(plen, w.len() as int)) == Some(e_new[k].1));
            }
            assert forall|k: int| 0 <= k < e.len() implies #[trigger] entry_below(e[k], *node, p) by {
                if k < e_old.len() {
                    assert(e[k] == e_old[k]);
                } else {
                    assert(e[k] == e_new[k - e_old.len()]);
                }
            }
            // entries of the child all continue with `c`
            assert forall|k: int| 0 <= k < e_new.len() implies (#[trigger] e_new[k].0).len() > plen && e_new[k].0[plen] == c by {
                assert(entry_below(e_new[k], *child, pc));
                assert(e_new[k].0.subrange(0, pc.len() as int)[plen] == pc[plen]);
            }
            assert(words_distinct(e)) by {
                assert forall|a: int, b: int| 0 <= a < b < e.len() implies e[a].0 != e[b].0 by {
                    if b < e_old.len() {
                        assert(e[a] == e_old[a] && e[b] == e_old[b]);
                    } else if a >= e_old.len() {
                        assert(e[a] == e_new[a - e_old.len()] && e[b] == e_new[b - e_old.len()]);
                    } else {
                        assert(e[a] == e_old[a]);
                        assert(e[b] == e_new[b - e_old.len()]);
                        let nb = e_new[b - e_old.len()].0;
                        assert(nb.len() > plen && nb[plen] == c);
                        assert(e_old[a].0.len() <= plen || e_old[a].0[plen] != node.children@[i as int].0);
                    }
                }
            }
            assert forall|k: int, j: int| 0 <= k < e.len() && i + 1 <= j < node.children@.len() implies
                (#[trigger] e[k].0).len() <= plen || e[k].0[plen] != (#[trigger] node.children@[j]).0 by {
                if k < e_old.len() {
                    assert(e[k] == e_old[k]);
                } else {
                    assert(e[k] == e_new[k - e_old.len()]);
                    assert(node.children@[i as int].0 != node.children@[j].0);
                }
            }
            assert forall|s: Seq<char>| #[trigger] node_get(*node, s) is Some
                && (s.len() == 0 || exists|j: int| 0 <= j < i + 1 && node.children@[j].0 == s[0])
                implies exists|k: int| 0 <= k < e.len() && e[k].0 == p + s by {
                if s.len() > 0 && s[0] == c {
                    let rest = s.drop_first();
                    assert(s =~= seq![c] + rest);
                    lemma_node_at_child(*node, i as int, rest);
                    assert(node_get(*child, rest) is Some);
                    let k = choose|k: int| 0 <= k < e_new.len() && e_new[k].0 == pc + rest;
                    assert(pc + rest =~= p + s);
                    assert(e[e_old.len() + k] == e_new[k]);
                } else {
                    if s.len() > 0 {
                        let j = choose|j: int| 0 <= j < i + 1 && node.children@[j].0 == s[0];
                        assert(j < i);
                    }
                    let k = choose|k: int| 0 <= k < e_old.len() && e_old[k].0 == p + s;
                    assert(e[k] == e_old[k]);
                }
            }
        }
        i = i + 1;
    }
    proof {
        let e = entries_view(results@.subrange(start, results@.len() as int));
        assert forall|s: Seq<char>| #[trigger] node_get(*node, s) is Some implies exists|k: int| 0 <= k < e.len() && e[k].0 == p + s by {
            if s.len() > 0 {
                let j = choose|j: int| 0 <= j < node.children@.len() && node.children@[j].0 == s[0];
                assert(0 <= j < i && node.children@[j].0 == s[0]);
            }
        }
    }
}

/// `r` lists the words of `m` that begin with `prefix`, each once with its
/// frequency, highest frequency first; with a positive `max`, only the
/// `max` most frequent of them.
pub open spec fn ranked_listing(m: Map<Seq<char>, u64>, prefix: Seq<char>, r: Seq<(Seq<char>, u64)>, max: int) -> bool {
    &&& forall|k: int| 0 <= k < r.len() ==> has_prefix((#[trigger] r[k]).0, prefix) && m.contains_key(r[k].0) && m[r[k].0] == r[k].1
    &&& words_distinct(r)
    &&& by_frequency_desc(r)
    &&& max > 0 ==> r.len() <= max
    &&& forall|w: Seq<char>| #[trigger] m.contains_key(w) && has_prefix(w, prefix) && !(exists|k: int| 0 <= k < r.len() && r[k].0 == w)
            ==> max > 0 && r.len() == max && forall|k: int| 0 <= k < r.len() ==> r[k].1 >= m[w]
}

/// A (word, frequency) list with the word as a character sequence.
pub open spec fn pairs_view(e: Seq<(String, u64)>) -> Seq<(Seq<char>, u64)> {
    e.map_values(|x: (String, u64)| (x.0@, x.1))
}

fn to_string_pairs(e: &Vec<(Vec<char>, u64)>) -> (r: Vec<(String, u64)>)
    ensures
        pairs_view(r@) == entries_view(e@),
{
    let mut r: Vec<(String, u64)> = Vec::new();
    let mut i: usize = 0;
    while i < e.len()
        invariant
            i <= e@.len(),
            r@.len() == i,
            pairs_view(r@) == entries_view(e@.subrange(0, i as int)),
        decreases e.len() - i,
    {
        let ghost old_r = r@;
        let s = string_of(&e[i].0);
        r.push((s, e[i].1));
        proof {
            assert forall|k: int| 0 <= k <= i implies #[trigger] pairs_view(r@)[k] == entries_view(e@.subrange(0, i + 1))[k] by {
                if k < i {
                    assert(r@[k] == old_r[k]);
                    assert(pairs_view(old_r)[k] == entries_view(e@.subrange(0, i as int))[k]);
                }
            }
            assert(pairs_view(r@) =~= entries_view(e@.subrange(0, i + 1)));
        }
        i = i + 1;
    }
    proof {
        assert(e@.subrange(0, i as int) =~= e@);
    }
    r
}

/// `full` lists, highest frequency first, exactly the words of the trie below
/// the node reached by `p`.
#[verifier::rlimit(40)]
proof fn lemma_full_listing(t: Trie, p: Seq<char>, current: TrieNode, fv: Seq<(Seq<char>, u64)>, full: Seq<(Seq<char>, u64)>)
    requires
        node_at(t.root, p) == Some(current),
        lists_below(fv, current, p),
        holds_prefix_of(full, fv, fv.len() as int),
        words_distinct(full),
        by_frequency_desc(full),
    ensures
        ranked_listing(t@, p, full, 0),
{
    assert forall|k: int| 0 <= k < full.len() implies has_prefix((#[trigger] full[k]).0, p)
        && t@.contains_key(full[k].0) && t@[full[k].0] == full[k].1 by {
        let m = choose|m: int| 0 <= m < fv.len() && #[trigger] full[k] == fv[m];
        assert(entry_below(fv[m], current, p));
        let w = fv[m].0;
        let s = w.subrange(p.len() as int, w.len() as int);
        assert(w =~= p + s);
        lemma_get_through(t.root, p, s);
    }
    assert forall|w: Seq<char>| #[trigger] t@.contains_key(w) && has_prefix(w, p)
        implies exists|k: int| 0 <= k < full.len() && full[k].0 == w by {
        let s = w.subrange(p.len() as int, w.len() as int);
        assert(w =~= p + s);
        lemma_get_through(t.root, p, s);
        assert(node_get(current, s) is Some);
        let m = choose|m: int| 0 <= m < fv.len() && fv[m].0 == p + s;
        let k = choose|k: int| 0 <= k < full.len() && full[k] == #[trigger] fv[m];
        assert(full[k].0 == w);
    }
}

/// Keeping the first `max` entries of a full ranked listing gives a ranked
/// listing limited to `max`.
proof fn lemma_truncate_listing(m: Map<Seq<char>, u64>, p: Seq<char>, full: Seq<(Seq<char>, u64)>, max: int)
    requires
        ranked_listing(m, p, full, 0),
        max > 0,
        full.len() > max,
    ensures
        ranked_listing(m, p, full.subrange(0, max), max),
{
    let r = full.subrange(0, max);
    assert forall|k: int| 0 <= k < r.len() implies r[k] == full[k] by {}
    assert forall|w: Seq<char>| #[trigger] m.contains_key(w) && has_prefix(w, p)
        && !(exists|k: int| 0 <= k < r.len() && r[k].0 == w)
        implies max > 0 && r.len() == max && forall|k: int| 0 <= k < r.len() ==> r[k].1 >= m[w] by {
        let j = choose|j: int| 0 <= j < full.len() && full[j].0 == w;
        if j < r.len() {
            assert(r[j] == full[j]);
        }
        assert(full[j].1 == m[w]);
        assert forall|k: int| 0 <= k < r.len() implies r[k].1 >= m[w] by {
            assert(r[k] == full[k]);
        }
    }
    assert forall|k: int| 0 <= k < r.len() implies has_prefix((#[trigger] r[k]).0, p)
        && m.contains_key(r[k].0) && m[r[k].0] == r[k].1 by {
        assert(r[k] == full[k]);
    }
    assert forall|a: int, b: int| 0 <= a < b < r.len() implies r[a].0 != r[b].0 && r[a].1 >= r[b].1 by {
        assert(r[a] == full[a] && r[b] == full[b]);
    }
}

impl Trie {
    /// The node reached by following `p` from the root, if any.
    fn node_for(&self, p: &Vec<char>) -> (r: Option<&TrieNode>)
        requires
            self.wf(),
        ensures
            match r {
                Some(n) => node_wf(*n, true) && node_at(self.root, p@) == Some(*n),
                None => forall|w: Seq<char>| #[trigger] self@.contains_key(w) ==> !has_prefix(w, p@),
            },
    {
        let mut current = &self.root;
        let mut i: usize = 0;
        let ghost mut top = true;
        while i < p.len()
            invariant
                i <= p@.len(),
                node_wf(*current, top),
                node_at(self.root, p@.subrange(0, i as int)) == Some(*current),
            decreases p.len() - i,
        {
            proof {
                lemma_wf_children(*current, top);
                lemma_path_extend(self.root, p@.subrange(0, i as int), p@[i as int], *current);
                assert(p@.subrange(0, i + 1) =~= p@.subrange(0, i as int).push(p@[i as int]));
            }
            match find_child(&current.children, p[i]) {
                Some(idx) => {
                    current = &current.children[idx].1;
                    proof {
                        top = false;
                    }
                },
                None => {
                    proof {
                        lemma_no_word_below(self.root, p@.subrange(0, i + 1));
                        assert forall|w: Seq<char>| #[trigger] self@.contains_key(w) implies !has_prefix(w, p@) by {
                            if has_prefix(w, p@) {
                                let q = p@.subrange(0, i + 1);
                                assert(w.subrange(0, q.len() as int) =~= q);
                                assert(has_prefix(w, q));
                            }
                        }
                    }
                    return None;
                },
            }
            i = i + 1;
        }
        proof {
            assert(p@.subrange(0, i as int) =~= p@);
            if !top {
                lemma_wf_top(*current);
            }
        }
        Some(current)
    }

    /// Entries (with character vectors) of all words starting with `p`, ranked.
    fn ranked_with_prefix(&self, p: &Vec<char>, max_results: usize) -> (r: Vec<(Vec<char>, u64)>)
        requires
            self.wf(),
        ensures
            ranked_listing(self@, p@, entries_view(r@), max_results as int),
    {
        match self.node_for(p) {
            None => {
                let none: Vec<(Vec<char>, u64)> = Vec::new();
                assert(entries_view(none@) =~= Seq::<(Seq<char>, u64)>::empty());
                none
            },
            Some(current) => {
                let mut prefix = copy_chars(p);
                let mut found: Vec<(Vec<char>, u64)> = Vec::new();
                collect_words(current, &mut prefix, &mut found);
                proof {
                    assert(found@.subrange(0, found@.len() as int) =~= found@);
                }
                let mut results = sort_by_frequency_desc(found);
                let ghost full = entries_view(results@);
                proof {
                    lemma_full_listing(*self, p@, *current, entries_view(found@), full);
                }
                if max_results > 0 && results.len() > max_results {
                    results.truncate(max_results);
                    proof {
                        lemma_truncate_listing(self@, p@, full, max_results as int);
                        assert(entries_view(results@) =~= full.subrange(0, max_results as int));
                    }
                }
                results
            },
        }
    }

    /// Get all words that start with the given prefix
    ///
    /// * `max_results` - Maximum number of results to return (0 = unlimited)
    ///
    /// Returns (word, frequency) tuples sorted by frequency descending
    pub fn get_all_with_prefix(&self, prefix: &str, max_results: usize) -> (r: Vec<(String, u64)>)
        requires
            self.wf(),
        ensures
            ranked_listing(self@, prefix@, pairs_view(r@), max_results as int),
    {
        let p = chars_of(prefix);
        let ranked = self.ranked_with_prefix(&p, max_results);
        to_string_pairs(&ranked)
    }

    /// Get all words in the Trie, most frequent first
    pub fn all_words(&self) -> (r: Vec<(String, u64)>)
        requires
            self.wf(),
        ensures
            ranked_listing(self@, Seq::<char>::empty(), pairs_view(r@), 0),
    {
        let p: Vec<char> = Vec::new();
        let ranked = self.ranked_with_prefix(&p, 0);
        to_string_pairs(&ranked)
    }
}

/// Damerau-Levenshtein distance of two character sequences (see
/// `dl_table`), capped at `max_dist + 1`.
pub(crate) fn capped_distance(a: &Vec<char>, b: &Vec<char>, max_dist: usize) -> (d: usize)
    requires
        max_dist < usize::MAX,
        a@.len() < usize::MAX,
        b@.len() < usize::MAX,
    ensures
        d as int == min2(dl_distance(a@, b@), max_dist + 1),
{
    let len1 = a.len();
    let len2 = b.len();
    proof {
        lemma_dl_lower(a@, b@, len1 as int, len2 as int);
        lemma_dl_bounds(a@, b@, len1 as int, len2 as int);
    }
    if len1 == 0 {
        return if len2 <= max_dist + 1 { len2 } else { max_dist + 1 };
    }
    if len2 == 0 {
        return if len1 <= max_dist + 1 { len1 } else { max_dist + 1 };
    }
    // Early exit if length difference exceeds max_dist
    let diff = if len1 >= len2 { len1 - len2 } else { len2 - len1 };
    if diff > max_dist {
        return max_dist + 1;
    }
    let row = vec![0usize; len2 + 1];
    let mut matrix = vec![row; len1 + 1];
    assert forall|q: int| 0 <= q < len1 + 1 implies #[trigger] matrix@[q]@.len() >= len2 + 1 by {
        assert(cloned(row, matrix@[q]));
    }
    fill_dl_table(a, b, &mut matrix);
    let cell = matrix[len1][len2];
    if cell <= max_dist + 1 { cell } else { max_dist + 1 }
}

/// Calculate Damerau-Levenshtein distance between two strings
///
/// This is the measure the trie ranks similar words by, capped at
/// `max_dist + 1`.
pub fn damerau_distance(s1: &str, s2: &str, max_dist: usize) -> (d: usize)
    requires
        max_dist < usize::MAX,
    ensures
        d as int == min2(dl_distance(s1@, s2@), max_dist + 1),
{
    let a = chars_of(s1);
    let b = chars_of(s2);
    capped_distance(&a, &b, max_dist)
}

/// `r` lists the words of `m` within distance `max` of `word` (the measure
/// of `damerau_distance`), each once with that distance and its frequency,
/// nearest first and, among equally near words, most frequent first; with a
/// positive `limit`, only the first `limit` of them.
pub open spec fn similar_listing(
    m: Map<Seq<char>, u64>,
    word: Seq<char>,
    r: Seq<(Seq<char>, usize, u64)>,
    max: int,
    limit: int,
) -> bool {
    &&& forall|k: int| 0 <= k < r.len() ==> m.contains_key((#[trigger] r[k]).0) && m[r[k].0] == r[k].2
            && r[k].1 as int == dl_distance(word, r[k].0) && r[k].1 <= max
    &&& scored_distinct(r)
    &&& by_rank(r)
    &&& limit > 0 ==> r.len() <= limit
    &&& forall|w: Seq<char>| #[trigger] m.contains_key(w) && dl_distance(word, w) <= max
            && !(exists|k: int| 0 <= k < r.len() && r[k].0 == w)
            ==> limit > 0 && r.len() == limit && forall|k: int| 0 <= k < r.len()
                ==> r[k].1 < dl_distance(word, w) || (r[k].1 == dl_distance(word, w) && r[k].2 >= m[w])
}

/// A (word, distance, frequency) list with the word as a character sequence.
pub open spec fn triples_view(e: Seq<(String, usize, u64)>) -> Seq<(Seq<char>, usize, u64)> {
    e.map_values(|x: (String, usize, u64)| (x.0@, x.1, x.2))
}

pub(crate) fn to_string_triples(e: &Vec<(Vec<char>, usize, u64)>) -> (r: Vec<(String, usize, u64)>)
    ensures
        triples_view(r@) == scored_view(e@),
{
    let mut r: Vec<(String, usize, u64)> = Vec::new();
    let mut i: usize = 0;
    while i < e.len()
        invariant
            i <= e@.len(),
            r@.len() == i,
            triples_view(r@) == scored_view(e@.subrange(0, i as int)),
        decreases e.len() - i,
    {
        let ghost old_r = r@;
        let s = string_of(&e[i].0);
        r.push((s, e[i].1, e[i].2));
        proof {
            assert forall|k: int| 0 <= k <= i implies #[trigger] triples_view(r@)[k] == scored_view(e@.subrange(0, i + 1))[k] by {
                if k < i {
                    assert(r@[k] == old_r[k]);
                    assert(triples_view(old_r)[k] == scored_view(e@.subrange(0, i as int))[k]);
                }
            }
            assert(triples_view(r@) =~= scored_view(e@.subrange(0, i + 1)));
        }
        i = i + 1;
    }
    proof {
        assert(e@.subrange(0, i as int) =~= e@);
    }
    r
}

/// What the candidate filter of `find_similar` has gathered from the first
/// `i` entries of the full listing `av`.
spec fn candidates_from(
    m: Map<Seq<char>, u64>,
    word: Seq<char>,
    max: int,
    av: Seq<(Seq<char>, u64)>,
    i: int,
    cv: Seq<(Seq<char>, usize, u64)>,
) -> bool {
    &&& forall|k: int| 0 <= k < cv.len() ==> m.contains_key((#[trigger] cv[k]).0) && m[cv[k].0] == cv[k].2
            && cv[k].1 as int == dl_distance(word, cv[k].0) && cv[k].1 <= max
    &&& scored_distinct(cv)
    &&& forall|k: int| 0 <= k < cv.len() ==> exists|j: int| 0 <= j < i && (#[trigger] cv[k]).0 == av[j].0
    &&& forall|j: int| 0 <= j < i && dl_distance(word, (#[trigger] av[j]).0) <= max
            ==> exists|k: int| 0 <= k < cv.len() && cv[k].0 == av[j].0
}

/// Sorting the gathered candidates gives the full listing that
/// `find_similar` promises.
#[verifier::rlimit(40)]
proof fn lemma_similar_full(
    m: Map<Seq<char>, u64>,
    word: Seq<char>,
    max: int,
    av: Seq<(Seq<char>, u64)>,
    cv: Seq<(Seq<char>, usize, u64)>,
    sv: Seq<(Seq<char>, usize, u64)>,
)
    requires
        ranked_listing(m, Seq::<char>::empty(), av, 0),
        candidates_from(m, word, max, av, av.len() as int, cv),
        holds_prefix_of(sv, cv, cv.len() as int),
        scored_distinct(sv),
        by_rank(sv),
    ensures
        similar_listing(m, word, sv, max, 0),
{
    assert forall|k: int| 0 <= k < sv.len() implies m.contains_key((#[trigger] sv[k]).0) && m[sv[k].0] == sv[k].2
        && sv[k].1 as int == dl_distance(word, sv[k].0) && sv[k].1 <= max by {
        let j = choose|j: int| 0 <= j < cv.len() && #[trigger] sv[k] == cv[j];
        assert(m.contains_key(cv[j].0));
    }
    assert forall|w: Seq<char>| #[trigger] m.contains_key(w) && dl_distance(word, w) <= max
        implies exists|k: int| 0 <= k < sv.len() && sv[k].0 == w by {
        assert(has_prefix(w, Seq::<char>::empty())) by {
            assert(w.subrange(0, 0) =~= Seq::<char>::empty());
        }
        let j = choose|j: int| 0 <= j < av.len() && av[j].0 == w;
        assert(dl_distance(word, av[j].0) <= max);
        let c = choose|c: int| 0 <= c < cv.len() && cv[c].0 == av[j].0;
        let k = choose|k: int| 0 <= k < cv.len() && sv[k] == #[trigger] cv[c];
        assert(sv[k].0 == w);
    }
}

/// Keeping the first `limit` entries of the full listing gives the listing
/// limited to `limit`.
#[verifier::rlimit(40)]
pub(crate) proof fn lemma_similar_truncate(
    m: Map<Seq<char>, u64>,
    word: Seq<char>,
    max: int,
    from_limit: int,
    limit: int,
    sv: Seq<(Seq<char>, usize, u64)>,
)
    requires
        similar_listing(m, word, sv, max, from_limit),
        limit > 0,
        sv.len() > limit,
    ensures
        similar_listing(m, word, sv.subrange(0, limit), max, limit),
{
    let r = sv.subrange(0, limit);
    assert forall|k: int| 0 <= k < r.len() implies r[k] == sv[k] by {}
    assert forall|k: int| 0 <= k < r.len() implies m.contains_key((#[trigger] r[k]).0) && m[r[k].0] == r[k].2
        && r[k].1 as int == dl_distance(word, r[k].0) && r[k].1 <= max by {
        assert(r[k] == sv[k]);
    }
    assert forall|a: int, b: int| 0 <= a < b < r.len() implies r[a].0 != r[b].0 by {
        assert(r[a] == sv[a] && r[b] == sv[b]);
    }
    assert forall|a: int, b: int| 0 <= a < b < r.len() implies #[trigger] ranks_before(r[a], r[b]) by {
        assert(r[a] == sv[a] && r[b] == sv[b]);
        assert(ranks_before(sv[a], sv[b]));
    }
    assert forall|w: Seq<char>| #[trigger] m.contains_key(w) && dl_distance(word, w) <= max
        && !(exists|k: int| 0 <= k < r.len() && r[k].0 == w)
        implies limit > 0 && r.len() == limit && forall|k: int| 0 <= k < r.len()
            ==> r[k].1 < dl_distance(word, w) || (r[k].1 == dl_distance(word, w) && r[k].2 >= m[w]) by {
        if exists|j: int| 0 <= j < sv.len() && sv[j].0 == w {
            let j = choose|j: int| 0 <= j < sv.len() && sv[j].0 == w;
            if j < limit {
                assert(r[j] == sv[j]);
            }
            assert forall|k: int| 0 <= k < r.len() implies r[k].1 < dl_distance(word, w)
                || (r[k].1 == dl_distance(word, w) && r[k].2 >= m[w]) by {
                assert(r[k] == sv[k]);
                assert(ranks_before(sv[k], sv[j]));
            }
        } else {
            assert forall|k: int| 0 <= k < r.len() implies r[k].1 < dl_distance(word, w)
                || (r[k].1 == dl_distance(word, w) && r[k].2 >= m[w]) by {
                assert(r[k] == sv[k]);
            }
        }
    }
}

impl Trie {
    /// Find words similar to the given word using Damerau-Levenshtein distance
    ///
    /// Returns (word, distance, frequency) tuples, nearest first, then most
    /// frequent first; `limit` 0 means no limit.
    pub fn find_similar(&self, word: &str, max_distance: usize, limit: usize) -> (r: Vec<(String, usize, u64)>)
        requires
            self.wf(),
            max_distance < usize::MAX,
        ensures
            similar_listing(self@, word@, triples_view(r@), max_distance as int, limit as int),
    {
        let w = chars_of(word);
        let empty: Vec<char> = Vec::new();
        let all = self.ranked_with_prefix(&empty, 0);
        let ghost av = entries_view(all@);
        let mut cands: Vec<(Vec<char>, usize, u64)> = Vec::new();
        let mut i: usize = 0;
        while i < all.len()
            invariant
                self.wf(),
                max_distance < usize::MAX,
                w@ == word@,
                w@.len() <= isize::MAX,
                av == entries_view(all@),
                i <= all@.len(),
                ranked_listing(self@, empty@, av, 0),
                candidates_from(self@, word@, max_distance as int, av, i as int, scored_view(cands@)),
            decreases all.len() - i,
        {
            let ghost old_cv = scored_view(cands@);
            proof {
                assert(av[i as int] == (all@[i as int].0@, all@[i as int].1));
                assert(self.words@.contains(av[i as int].0));
            }
            let d = capped_distance(&w, &all[i].0, max_distance);
            if d <= max_distance {
                let cw = copy_chars(&all[i].0);
                cands.push((cw, d, all[i].1));
                proof {
                    let x = (av[i as int].0, d, av[i as int].1);
                    assert(scored_view(cands@) =~= old_cv.push(x));
                    let cv = scored_view(cands@);
                    assert forall|a: int, b: int| 0 <= a < b < cv.len() implies cv[a].0 != cv[b].0 by {
                        if b == old_cv.len() {
                            assert(cv[a] == old_cv[a]);
                            let j = choose|j: int| 0 <= j < i && (#[trigger] old_cv[a]).0 == av[j].0;
                            assert(av[j].0 != av[i as int].0);
                        } else {
                            assert(cv[a] == old_cv[a] && cv[b] == old_cv[b]);
                        }
                    }
                    assert forall|k: int| 0 <= k < cv.len() implies exists|j: int| 0 <= j < i + 1 && (#[trigger] cv[k]).0 == av[j].0 by {
                        if k < old_cv.len() {
                            assert(cv[k] == old_cv[k]);
                            let j = choose|j: int| 0 <= j < i && (#[trigger] old_cv[k]).0 == av[j].0;
                            assert(cv[k].0 == av[j].0);
                        } else {
                            assert(cv[k].0 == av[i as int].0);
                        }
                    }
                    assert forall|j: int| 0 <= j < i + 1 && dl_distance(word@, (#[trigger] av[j]).0) <= max_distance
                        implies exists|k: int| 0 <= k < cv.len() && cv[k].0 == av[j].0 by {
                        if j < i {
                            let k = choose|k: int| 0 <= k < old_cv.len() && old_cv[k].0 == av[j].0;
                            assert(cv[k] == old_cv[k]);
                        } else {
                            assert(cv[old_cv.len() as int].0 == av[j].0);
                        }
                    }
                    assert forall|k: int| 0 <= k < cv.len() implies self@.contains_key((#[trigger] cv[k]).0) && self@[cv[k].0] == cv[k].2
                        && cv[k].1 as int == dl_distance(word@, cv[k].0) && cv[k].1 <= max_distance by {
                        if k < old_cv.len() {
                            assert(cv[k] == old_cv[k]);
                        }
                    }
                }
            } else {
                proof {
                    let cv = scored_view(cands@);
                    assert forall|k: int| 0 <= k < cv.len() implies exists|j: int| 0 <= j < i + 1 && (#[trigger] cv[k]).0 == av[j].0 by {
                        let j = choose|j: int| 0 <= j < i && (#[trigger] cv[k]).0 == av[j].0;
                    }
                }
            }
            i = i + 1;
        }
        let ghost cv = scored_view(cands@);
        let mut sorted = sort_by_rank(cands);
        let ghost sv = scored_view(sorted@);
        proof {
            lemma_similar_full(self@, word@, max_distance as int, av, cv, sv);
        }
        if limit > 0 && sorted.len() > limit {
            sorted.truncate(limit);
            proof {
                lemma_similar_truncate(self@, word@, max_distance as int, 0, limit as int, sv);
                assert(scored_view(sorted@) =~= sv.subrange(0, limit as int));
            }
        }
        to_string_triples(&sorted)
    }
}

/// The words of a list of (word, frequency) entries, each with the
/// frequency of its last entry.
pub open spec fn map_of_entries(e: Seq<(Seq<char>, u64)>) -> Map<Seq<char>, u64>
    decreases e.len(),
{
    if e.len() == 0 {
        Map::empty()
    } else {
        map_of_entries(e.drop_last()).insert(e.last().0, e.last().1)
    }
}

proof fn lemma_map_of_entries_len(e: Seq<(Seq<char>, u64)>)
    ensures
        map_of_entries(e).dom().finite(),
        map_of_entries(e).dom().len() <= e.len(),
    decreases e.len(),
{
    if e.len() > 0 {
        lemma_map_of_entries_len(e.drop_last());
    }
}

impl Trie {
    /// Builds a trie from (word, frequency) entries, inserted in order, so
    /// that a word listed twice keeps the frequency of its last entry.
    pub fn from_entries(entries: &Vec<(String, u64)>) -> (t: Trie)
        ensures
            t.wf(),
            t@ == map_of_entries(pairs_view(entries@)),
    {
        let mut trie = Trie::new();
        let mut i: usize = 0;
        while i < entries.len()
            invariant
                i <= entries@.len(),
                trie.wf(),
                trie@ == map_of_entries(pairs_view(entries@.subrange(0, i as int))),
            decreases entries.len() - i,
        {
            proof {
                lemma_map_of_entries_len(pairs_view(entries@.subrange(0, i as int)));
                let e = pairs_view(entries@.subrange(0, i + 1));
                assert(e.drop_last() =~= pairs_view(entries@.subrange(0, i as int)));
                assert(e.last() == (entries@[i as int].0@, entries@[i as int].1));
            }
            trie.insert(entries[i].0.as_str(), entries[i].1);
            i = i + 1;
        }
        proof {
            assert(entries@.subrange(0, i as int) =~= entries@);
        }
        trie
    }
}

impl Trie {
    /// Load Trie from JSON string (`{"words": [{"word", "frequency"}]}`,
    /// a missing frequency read as 1): the words inserted in order
    pub fn from_json(json: &str) -> (r: Result<Trie, JsonError>)
        ensures
            match r {
                Ok(t) => t.wf() && (json_word_entries(json@, 1) matches Some(es) && t@ == map_of_entries(es)),
                Err(_) => json_word_entries(json@, 1) is None,
            },
    {
        let entries = word_entries_from_json(json, 1)?;
        Ok(Trie::from_entries(&entries))
    }
}

/// After a word is inserted, searching finds it with the inserted
/// frequency, and every other word as before.
pub proof fn law_search_after_insert(m: Map<Seq<char>, u64>, w: Seq<char>, f: u64, v: Seq<char>)
    requires
        m.dom().finite(),
    ensures
        m.insert(w, f).contains_key(w) && m.insert(w, f)[w] == f,
        v != w ==> (m.insert(w, f).contains_key(v) == m.contains_key(v)),
        v != w && m.contains_key(v) ==> m.insert(w, f)[v] == m[v],
        m.insert(w, f).dom().len() == if m.contains_key(w) { m.dom().len() } else { m.dom().len() + 1 },
{
    assert(m.insert(w, f).dom() =~= m.dom().insert(w));
}

/// After a sequence of inserts into an empty trie, searching finds exactly
/// the words inserted, each with the frequency of its last insert, and the
/// trie holds at most as many words as there were inserts.
pub proof fn law_search_after_inserts(e: Seq<(Seq<char>, u64)>, w: Seq<char>)
    ensures
        map_of_entries(e).contains_key(w) <==> exists|k: int| 0 <= k < e.len() && e[k].0 == w,
        forall|k: int|
            #![trigger e[k]]
            0 <= k < e.len() && e[k].0 == w && (forall|j: int| k < j < e.len() ==> e[j].0 != w)
                ==> map_of_entries(e)[w] == e[k].1,
        map_of_entries(e).dom().finite(),
        map_of_entries(e).dom().len() <= e.len(),
    decreases e.len(),
{
    lemma_map_of_entries_len(e);
    if e.len() > 0 {
        let p = e.drop_last();
        law_search_after_inserts(p, w);
        let n = e.len() - 1;
        if e.last().0 != w {
            if map_of_entries(e).contains_key(w) {
                let k = choose|k: int| 0 <= k < p.len() && p[k].0 == w;
                assert(e[k] == p[k]);
            }
            if exists|k: int| 0 <= k < e.len() && e[k].0 == w {
                let k = choose|k: int| 0 <= k < e.len() && e[k].0 == w;
                assert(k != n);
                assert(p[k] == e[k]);
            }
            assert forall|k: int|
                #![trigger e[k]]
                0 <= k < e.len() && e[k].0 == w && (forall|j: int| k < j < e.len() ==> e[j].0 != w)
                implies map_of_entries(e)[w] == e[k].1 by {
                assert(k != n);
                assert(p[k] == e[k]);
                assert forall|j: int| k < j < p.len() implies p[j].0 != w by {
                    assert(p[j] == e[j]);
                }
            }
        } else {
            assert(e[n].0 == w);
        }
    }
}

} // verus!
