//! The trie: an arena of nodes reached through fixed 26-slot fan-out tables.

use vstd::prelude::*;
use crate::letters::{
    is_lower_word, is_word, lemma_normalize, lemma_slot_in_range, lemma_slot_injective, normalize,
    rejects, slot_of, word_slots, TrieError, ALPHABET_LEN,
};
use crate::render::{available_line, letter_at};

verus! {

/// One trie node: whether a word ends here, and one child slot per letter.
///
/// A child is an index into the arena of the trie that owns the node.
#[derive(Clone, Copy, Debug)]
pub struct AlphabetTrieNode {
    pub is_terminal: bool,
    pub children: [Option<usize>; 26],
}

impl AlphabetTrieNode {
    /// A node that ends no word and has no children.
    pub fn new() -> (r: AlphabetTrieNode)
        ensures
            r.is_fresh(),
    {
        AlphabetTrieNode { is_terminal: false, children: [None; 26] }
    }

    /// Not terminal, and every slot empty.
    pub open spec fn is_fresh(self) -> bool {
        &&& !self.is_terminal
        &&& forall|t: int| 0 <= t < ALPHABET_LEN ==> #[trigger] self.children@[t] is None
    }
}

/// The words held once `w` has been added to `words`: its normal form joins
/// them where `w` is a nonempty word of letters; otherwise nothing changes.
pub open spec fn inserted(words: Set<Seq<char>>, w: Seq<char>) -> Set<Seq<char>> {
    if is_word(w) && w.len() > 0 {
        words.insert(normalize(w))
    } else {
        words
    }
}

/// The prefixes of `w` of lengths 1 to `n`.
pub open spec fn prefixes_upto(w: Seq<char>, n: int) -> Set<Seq<char>> {
    Set::new(|p: Seq<char>| exists|k: int| 1 <= k <= n && p == w.take(k))
}

/// The nonempty prefixes of `w`, `w` itself included.
pub open spec fn prefixes(w: Seq<char>) -> Set<Seq<char>> {
    prefixes_upto(w, w.len() as int)
}

/// Taking one more letter of `w` adds one prefix.
proof fn lemma_prefixes_step(w: Seq<char>, n: int)
    requires
        0 <= n,
    ensures
        prefixes_upto(w, n + 1) == prefixes_upto(w, n).insert(w.take(n + 1)),
{
    assert forall|p: Seq<char>| #[trigger] prefixes_upto(w, n + 1).contains(p) implies prefixes_upto(
        w,
        n,
    ).insert(w.take(n + 1)).contains(p) by {
        let k = choose|k: int| 1 <= k <= n + 1 && p == w.take(k);
        if k <= n {
            assert(1 <= k <= n && p == w.take(k));
        }
    }
    assert forall|p: Seq<char>| #[trigger] prefixes_upto(w, n).insert(w.take(n + 1)).contains(p) implies prefixes_upto(
        w,
        n + 1,
    ).contains(p) by {
        if p == w.take(n + 1) {
            assert(1 <= n + 1 <= n + 1 && p == w.take(n + 1));
        } else {
            let k = choose|k: int| 1 <= k <= n && p == w.take(k);
            assert(1 <= k <= n + 1 && p == w.take(k));
        }
    }
    assert(prefixes_upto(w, n + 1) =~= prefixes_upto(w, n).insert(w.take(n + 1)));
}

/// A set of words over `a`..=`z`, held in a trie.
pub struct AlphabetTrie {
    starts: [Option<usize>; 26],
    nodes: Vec<AlphabetTrieNode>,
}

impl View for AlphabetTrie {
    type V = Set<Seq<char>>;

    /// The lowercase words that the trie holds.
    closed spec fn view(&self) -> Set<Seq<char>> {
        Set::new(|w: Seq<char>| self.holds(w))
    }
}

impl AlphabetTrie {
    /// The child in slot `t` of the table at `at`: the root table for `None`,
    /// else the table of node `at`.
    pub closed spec fn child(self, at: Option<usize>, t: int) -> Option<usize> {
        match at {
            None => self.starts@[t],
            Some(n) => if n < self.nodes@.len() {
                self.nodes@[n as int].children@[t]
            } else {
                None
            },
        }
    }

    /// The node that the walk along `w` ends on, if the walk gets that far.
    pub closed spec fn reach(self, w: Seq<char>) -> Option<usize>
        decreases w.len(),
    {
        if w.len() == 0 {
            None
        } else if w.len() == 1 {
            self.child(None, slot_of(w.last()))
        } else {
            match self.reach(w.drop_last()) {
                Some(n) => self.child(Some(n), slot_of(w.last())),
                None => None,
            }
        }
    }

    /// Node `n` exists and ends a word.
    pub closed spec fn ends_word(self, n: usize) -> bool {
        n < self.nodes@.len() && self.nodes@[n as int].is_terminal
    }

    /// The trie holds the lowercase word `w`.
    pub closed spec fn holds(self, w: Seq<char>) -> bool {
        &&& w.len() > 0
        &&& is_lower_word(w)
        &&& match self.reach(w) {
            Some(n) => self.ends_word(n),
            None => false,
        }
    }

    /// The nonempty lowercase words whose walk ends on a node: one per node
    /// of the trie.
    pub closed spec fn paths(self) -> Set<Seq<char>> {
        Set::new(|p: Seq<char>| p.len() > 0 && is_lower_word(p) && self.reach(p) is Some)
    }

    /// Every slot points into the arena, and no two lowercase words reach
    /// the same node (the nodes form a tree).
    pub closed spec fn wf(self) -> bool {
        &&& forall|at: Option<usize>, t: int|
            (at is None || at->0 < self.nodes@.len()) && 0 <= t < ALPHABET_LEN
                ==> (#[trigger] self.child(at, t) matches Some(n) ==> n < self.nodes@.len())
        &&& forall|w1: Seq<char>, w2: Seq<char>|
            is_lower_word(w1) && is_lower_word(w2) && #[trigger] self.reach(w1) is Some
                && self.reach(w1) == #[trigger] self.reach(w2) ==> w1 == w2
    }

    /// The walk along a lowercase word only ever ends on a node of the arena.
    proof fn lemma_reach_bounded(self, w: Seq<char>)
        requires
            self.wf(),
            is_lower_word(w),
        ensures
            self.reach(w) matches Some(n) ==> n < self.nodes@.len(),
        decreases w.len(),
    {
        if w.len() == 1 {
            lemma_slot_in_range(w.last());
            assert(self.child(None, slot_of(w.last())) matches Some(n) ==> n < self.nodes@.len());
        } else if w.len() > 1 {
            lemma_slot_in_range(w.last());
            if let Some(m) = self.reach(w.drop_last()) {
                assert(is_lower_word(w.drop_last()));
                self.lemma_reach_bounded(w.drop_last());
                assert(self.child(Some(m), slot_of(w.last())) matches Some(n) ==> n
                    < self.nodes@.len());
            }
        }
    }

    /// Two tries with the same tables reach the same nodes.
    proof fn lemma_reach_same_tables(self, other: AlphabetTrie, w: Seq<char>)
        requires
            forall|at: Option<usize>, t: int| #[trigger] self.child(at, t) == other.child(at, t),
        ensures
            self.reach(w) == other.reach(w),
        decreases w.len(),
    {
        if w.len() > 1 {
            self.lemma_reach_same_tables(other, w.drop_last());
        }
    }

    /// After a fresh node `N` is pushed and hung into the empty slot `slot_of(c)`
    /// of the table that `p` reaches, the walk along `p.push(c)` ends on `N`
    /// and every other walk is as before.
    proof fn lemma_reach_after_grow(
        self,
        grown: AlphabetTrie,
        p: Seq<char>,
        at: Option<usize>,
        c: char,
        len: usize,
        w: Seq<char>,
    )
        requires
            self.wf(),
            len == self.nodes@.len(),
            is_lower_word(p),
            is_lower_word(w),
            'a' <= c <= 'z',
            p.len() == 0 ==> at is None,
            p.len() > 0 ==> at is Some && self.reach(p) == at,
            self.child(at, slot_of(c)) is None,
            grown.nodes@.len() == self.nodes@.len() + 1,
            grown.nodes@[len as int].is_fresh(),
            forall|n: int| 0 <= n < self.nodes@.len() ==> #[trigger] grown.nodes@[n].is_terminal
                == self.nodes@[n].is_terminal,
            forall|a: Option<usize>, t: int|
                (a is None || a->0 < self.nodes@.len()) && 0 <= t < ALPHABET_LEN ==> #[trigger] grown.child(a, t) == if a
                    == at && t == slot_of(c) {
                    Some(len)
                } else {
                    self.child(a, t)
                },
        ensures
            grown.reach(w) == if w == p.push(c) {
                Some(len)
            } else {
                self.reach(w)
            },
        decreases w.len(),
    {
        lemma_slot_in_range(c);
        if w.len() == 0 {
        } else if w.len() == 1 {
            lemma_slot_in_range(w.last());
            lemma_slot_injective(w.last(), c);
            if p.len() == 0 && slot_of(w.last()) == slot_of(c) {
                assert(w =~= p.push(c));
            }
        } else {
            let y = w.drop_last();
            let d = w.last();
            assert(is_lower_word(y));
            lemma_slot_in_range(d);
            lemma_slot_injective(d, c);
            self.lemma_reach_after_grow(grown, p, at, c, len, y);
            self.lemma_reach_bounded(y);
            if y == p.push(c) {
                assert(p.push(c).drop_last() =~= p);
                if p.len() == 0 {
                    assert(self.reach(y) == self.child(None, slot_of(c)));
                }
                assert(self.reach(y) is None);
                assert(grown.child(Some(len), slot_of(d)) is None) by {
                    assert(grown.nodes@[len as int].children@[slot_of(d)] is None);
                }
            } else {
                match self.reach(y) {
                    Some(m) => {
                        if at == Some(m) && slot_of(d) == slot_of(c) {
                            assert(is_lower_word(p));
                            assert(y == p);
                            assert(w =~= p.push(c));
                        } else if w == p.push(c) {
                            assert(w.drop_last() =~= p);
                        }
                    },
                    None => {
                        if w == p.push(c) {
                            assert(w.drop_last() =~= p);
                        }
                    },
                }
            }
        }
    }

    /// Growing the trie as in `lemma_reach_after_grow` keeps it well formed,
    /// holding the same words, with `p.push(c)` reaching the new node.
    proof fn lemma_grow_keeps(
        self,
        grown: AlphabetTrie,
        p: Seq<char>,
        at: Option<usize>,
        c: char,
        len: usize,
    )
        requires
            self.wf(),
            len == self.nodes@.len(),
            is_lower_word(p),
            'a' <= c <= 'z',
            p.len() == 0 ==> at is None,
            p.len() > 0 ==> at is Some && self.reach(p) == at,
            self.child(at, slot_of(c)) is None,
            grown.nodes@.len() == self.nodes@.len() + 1,
            grown.nodes@[len as int].is_fresh(),
            forall|n: int| 0 <= n < self.nodes@.len() ==> #[trigger] grown.nodes@[n].is_terminal
                == self.nodes@[n].is_terminal,
            forall|a: Option<usize>, t: int|
                (a is None || a->0 < self.nodes@.len()) && 0 <= t < ALPHABET_LEN ==> #[trigger] grown.child(a, t) == if a
                    == at && t == slot_of(c) {
                    Some(len)
                } else {
                    self.child(a, t)
                },
        ensures
            grown.wf(),
            grown@ == self@,
            grown.paths() == self.paths().insert(p.push(c)),
            grown.reach(p.push(c)) == Some(len),
    {
        let pc = p.push(c);
        assert(is_lower_word(pc));
        self.lemma_reach_after_grow(grown, p, at, c, len, pc);
        assert(pc.drop_last() =~= p);
        assert(self.reach(pc) is None) by {
            if p.len() == 0 {
                assert(self.reach(pc) == self.child(None, slot_of(c)));
            }
        }
        assert forall|a: Option<usize>, t: int|
            (a is None || a->0 < grown.nodes@.len()) && 0 <= t < ALPHABET_LEN implies (
            #[trigger] grown.child(a, t) matches Some(n) ==> n < grown.nodes@.len()) by {
            if a == Some(len) {
                assert(grown.nodes@[len as int].children@[t] is None);
            }
        }
        assert forall|w1: Seq<char>, w2: Seq<char>|
            is_lower_word(w1) && is_lower_word(w2) && #[trigger] grown.reach(w1) is Some
                && grown.reach(w1) == #[trigger] grown.reach(w2) implies w1 == w2 by {
            self.lemma_reach_after_grow(grown, p, at, c, len, w1);
            self.lemma_reach_after_grow(grown, p, at, c, len, w2);
            self.lemma_reach_bounded(w1);
            self.lemma_reach_bounded(w2);
        }
        assert forall|w: Seq<char>| grown.holds(w) == self.holds(w) by {
            if is_lower_word(w) {
                self.lemma_reach_after_grow(grown, p, at, c, len, w);
                self.lemma_reach_bounded(w);
                if w != pc {
                    if let Some(n) = self.reach(w) {
                        assert(grown.nodes@[n as int].is_terminal == self.nodes@[n as int].is_terminal);
                    }
                } else {
                    assert(grown.nodes@[len as int].is_fresh());
                }
            }
        }
        assert(grown@ =~= self@);
        assert forall|x: Seq<char>| #[trigger] grown.paths().contains(x) == self.paths().insert(pc).contains(x) by {
            if is_lower_word(x) {
                self.lemma_reach_after_grow(grown, p, at, c, len, x);
            }
        }
        assert(grown.paths() =~= self.paths().insert(pc));
    }

    /// Marking the node that `w` reaches as an end adds `w`, and only `w`.
    proof fn lemma_mark_keeps(self, marked: AlphabetTrie, w: Seq<char>, n: usize)
        requires
            self.wf(),
            is_lower_word(w),
            w.len() > 0,
            self.reach(w) == Some(n),
            marked.nodes@.len() == self.nodes@.len(),
            forall|a: Option<usize>, t: int| #[trigger] marked.child(a, t) == self.child(a, t),
            forall|k: int|
                0 <= k < self.nodes@.len() && k != n ==> #[trigger] marked.nodes@[k].is_terminal
                    == self.nodes@[k].is_terminal,
            marked.nodes@[n as int].is_terminal,
        ensures
            marked.wf(),
            marked@ == self@.insert(w),
            marked.paths() == self.paths(),
    {
        self.lemma_reach_bounded(w);
        assert forall|x: Seq<char>| #[trigger] marked.reach(x) == self.reach(x) by {
            self.lemma_reach_same_tables(marked, x);
        }
        assert forall|x: Seq<char>| marked.holds(x) == (self.holds(x) || x == w) by {
            if is_lower_word(x) {
                if let Some(k) = self.reach(x) {
                    if k != n {
                        assert(marked.nodes@[k as int].is_terminal == self.nodes@[k as int].is_terminal);
                    }
                }
            }
        }
        assert(marked@ =~= self@.insert(w));
        assert(marked.paths() =~= self.paths());
    }

    /// Once the walk along a prefix of `w` stops, so does the walk along `w`.
    proof fn lemma_reach_stops(self, w: Seq<char>, k: int)
        requires
            1 <= k <= w.len(),
            self.reach(w.subrange(0, k)) is None,
        ensures
            self.reach(w) is None,
        decreases w.len(),
    {
        if w.len() == k {
            assert(w.subrange(0, k) =~= w);
        } else {
            assert(w.drop_last().subrange(0, k) =~= w.subrange(0, k));
            self.lemma_reach_stops(w.drop_last(), k);
        }
    }

    /// No word is held yet.
    pub fn new() -> (r: AlphabetTrie)
        ensures
            r.wf(),
            r@ == Set::<Seq<char>>::empty(),
            r.paths() == Set::<Seq<char>>::empty(),
    {
        let r = AlphabetTrie { starts: [None; 26], nodes: Vec::new() };
        assert forall|w: Seq<char>| is_lower_word(w) implies r.reach(w) is None by {
            if w.len() == 1 {
                lemma_slot_in_range(w.last());
            } else if w.len() > 1 {
                assert(r.reach(w.drop_last()) matches Some(n) ==> r.child(Some(n), slot_of(w.last())) is None);
            }
        }
        assert(r@ =~= Set::<Seq<char>>::empty());
        assert(r.paths() =~= Set::<Seq<char>>::empty());
        r
    }

    /// The child in slot `t` of the table at `at`.
    fn child_at(&self, at: Option<usize>, t: usize) -> (r: Option<usize>)
        requires
            at matches Some(n) ==> n < self.nodes@.len(),
            t < ALPHABET_LEN,
        ensures
            r == self.child(at, t as int),
    {
        match at {
            None => self.starts[t],
            Some(n) => self.nodes[n].children[t],
        }
    }

    /// Adds `word`, compared without regard to case, to the words held.
    ///
    /// The empty word is never held, so adding it changes nothing. A word with
    /// a char that is not an ASCII letter is refused whole, with the trie
    /// left as it was.
    pub fn add_word(&mut self, word: &str) -> (r: Result<(), TrieError>)
        requires
            old(self).wf(),
        ensures
            final(self).wf(),
            match r {
                Ok(()) => {
                    &&& is_word(word@)
                    &&& final(self)@ == inserted(old(self)@, word@)
                    &&& final(self).paths() == old(self).paths().union(prefixes(normalize(word@)))
                },
                Err(e) => !is_word(word@) && rejects(word@, e) && *final(self) == *old(self),
            },
    {
        let slots = match word_slots(word) {
            Ok(v) => v,
            Err(e) => {
                return Err(e);
            },
        };
        let ghost w = normalize(word@);
        proof {
            lemma_normalize(word@);
        }
        let ghost start = *self;
        if slots.len() == 0 {
            assert(self.paths().union(prefixes(w)) =~= self.paths()) by {
                assert forall|x: Seq<char>| !prefixes(w).contains(x) by {}
            }
            return Ok(());
        }
        assert(prefixes_upto(w, 0) =~= Set::<Seq<char>>::empty());
        assert(start.paths().union(prefixes_upto(w, 0)) =~= start.paths());
        let mut at: Option<usize> = None;
        let mut i: usize = 0;
        while i < slots.len()
            invariant
                self.wf(),
                i <= slots@.len(),
                slots@.len() == w.len(),
                is_word(word@),
                w == normalize(word@),
                is_lower_word(w),
                forall|j: int|
                    0 <= j < slots@.len() ==> #[trigger] slots@[j] == slot_of(w[j]) && slots@[j]
                        < ALPHABET_LEN,
                i == 0 ==> at is None,
                i > 0 ==> at is Some && self.reach(w.subrange(0, i as int)) == at,
                at matches Some(n) ==> n < self.nodes@.len(),
                self@ == start@,
                self.paths() == start.paths().union(prefixes_upto(w, i as int)),
            decreases slots@.len() - i,
        {
            let t = slots[i];
            let ghost p = w.subrange(0, i as int);
            assert(slots@[i as int] == slot_of(w[i as int]));
            assert(is_lower_word(p));
            let n = match self.child_at(at, t) {
                Some(n) => n,
                None => {
                    let ghost before = *self;
                    let len = self.nodes.len();
                    self.nodes.push(AlphabetTrieNode::new());
                    match at {
                        None => {
                            self.starts[t] = Some(len);
                        },
                        Some(m) => {
                            let mut node = self.nodes[m];
                            node.children[t] = Some(len);
                            self.nodes.set(m, node);
                        },
                    }
                    proof {
                        assert forall|k: int|
                            0 <= k < before.nodes@.len() && Some(k as usize) != at implies #[trigger] self.nodes@[k]
                            == before.nodes@[k] by {}
                        assert forall|a: Option<usize>, u: int|
                            (a is None || a->0 < before.nodes@.len()) && 0 <= u < ALPHABET_LEN implies #[trigger] self.child(
                            a,
                            u,
                        ) == if a == at && u == slot_of(w[i as int]) {
                            Some(len)
                        } else {
                            before.child(a, u)
                        } by {
                            match a {
                                None => {
                                    if at is None {
                                        assert(self.starts@ == before.starts@.update(t as int, Some(len)));
                                    } else {
                                        assert(self.starts@ == before.starts@);
                                    }
                                },
                                Some(k) => {
                                    if Some(k) != at {
                                        assert(self.nodes@[k as int] == before.nodes@[k as int]);
                                    } else {
                                        assert(self.nodes@[k as int].children@ == before.nodes@[k as int].children@.update(t as int, Some(len)));
                                    }
                                },
                            }
                        }
                        before.lemma_grow_keeps(*self, p, at, w[i as int], len);
                        before.lemma_reach_after_grow(*self, p, at, w[i as int], len, p);
                        assert(p.push(w[i as int]) =~= w.take(i + 1));
                        assert(self.paths() =~= start.paths().union(prefixes_upto(w, i as int)).insert(w.take(i + 1)));
                    }
                    len
                },
            };
            proof {
                let q = w.subrange(0, i + 1);
                assert(q.drop_last() =~= p);
                assert(q.last() == w[i as int]);
                if i == 0 {
                    assert(self.reach(q) == self.child(None, slot_of(q.last())));
                } else {
                    assert(self.reach(q.drop_last()) == at);
                    assert(self.reach(q) == self.child(at, slot_of(q.last())));
                }
                self.lemma_reach_bounded(q);
                assert(q == w.take(i + 1));
                assert(is_lower_word(q));
                assert(self.paths().contains(q));
                lemma_prefixes_step(w, i as int);
                assert(start.paths().union(prefixes_upto(w, i + 1)) =~= self.paths());
            }
            at = Some(n);
            i = i + 1;
        }
        assert(w.subrange(0, i as int) =~= w);
        let ghost before = *self;
        let n = match at {
            Some(n) => n,
            None => {
                return Ok(());
            },
        };
        let mut node = self.nodes[n];
        node.is_terminal = true;
        self.nodes.set(n, node);
        proof {
            assert forall|a: Option<usize>, u: int| #[trigger] self.child(a, u) == before.child(a, u) by {}
            before.lemma_mark_keeps(*self, w, n);
        }
        Ok(())
    }

    /// Whether `word`, compared without regard to case, is held.
    ///
    /// The empty word never is. A word with a char that is not an ASCII letter
    /// is refused.
    pub fn contains_word(&self, word: &str) -> (r: Result<bool, TrieError>)
        requires
            self.wf(),
        ensures
            match r {
                Ok(b) => is_word(word@) && b == self@.contains(normalize(word@)),
                Err(e) => !is_word(word@) && rejects(word@, e),
            },
    {
        let slots = match word_slots(word) {
            Ok(v) => v,
            Err(e) => {
                return Err(e);
            },
        };
        let ghost w = normalize(word@);
        proof {
            lemma_normalize(word@);
        }
        let mut at: Option<usize> = None;
        let mut i: usize = 0;
        while i < slots.len()
            invariant
                self.wf(),
                i <= slots@.len(),
                slots@.len() == w.len(),
                is_word(word@),
                w == normalize(word@),
                is_lower_word(w),
                forall|j: int|
                    0 <= j < slots@.len() ==> #[trigger] slots@[j] == slot_of(w[j]) && slots@[j]
                        < ALPHABET_LEN,
                i == 0 ==> at is None,
                i > 0 ==> at is Some && self.reach(w.subrange(0, i as int)) == at,
                at matches Some(n) ==> n < self.nodes@.len(),
            decreases slots@.len() - i,
        {
            let t = slots[i];
            let ghost p = w.subrange(0, i as int);
            assert(slots@[i as int] == slot_of(w[i as int]));
            let found = self.child_at(at, t);
            proof {
                let q = w.subrange(0, i + 1);
                assert(q.drop_last() =~= p);
                assert(q.last() == w[i as int]);
                assert(found == self.child(at, slot_of(q.last())));
                if i == 0 {
                    assert(q.len() == 1);
                    assert(self.reach(q) == self.child(None, slot_of(q.last())));
                } else {
                    assert(self.reach(q.drop_last()) == at);
                    assert(self.reach(q) == self.child(at, slot_of(q.last())));
                }
                assert(self.reach(q) == found);
                self.lemma_reach_bounded(q);
                if found is None {
                    self.lemma_reach_stops(w, i + 1);
                }
            }
            match found {
                Some(n) => {
                    at = Some(n);
                },
                None => {
                    assert(!self.holds(w));
                    assert(!self@.contains(w));
                    return Ok(false);
                },
            }
            i = i + 1;
        }
        assert(w.subrange(0, i as int) =~= w);
        match at {
            Some(n) => Ok(self.nodes[n].is_terminal),
            None => Ok(false),
        }
    }

    /// The shape of a trie: its paths are nonempty lowercase words, closed
    /// under taking prefixes; every word held is a path; and distinct paths
    /// end on distinct nodes, so the nodes form a tree.
    pub proof fn lemma_paths_shape(&self)
        requires
            self.wf(),
        ensures
            self@.subset_of(self.paths()),
            !self.paths().contains(Seq::<char>::empty()),
            forall|p: Seq<char>| #[trigger] self.paths().contains(p) ==> is_lower_word(p),
            forall|p: Seq<char>, k: int|
                self.paths().contains(p) && 1 <= k < p.len() ==> #[trigger] self.paths().contains(
                    p.take(k),
                ),
            forall|p1: Seq<char>, p2: Seq<char>|
                #[trigger] self.paths().contains(p1) && #[trigger] self.paths().contains(p2) && p1
                    != p2 ==> self.reach(p1) != self.reach(p2),
    {
        assert forall|p: Seq<char>, k: int|
            self.paths().contains(p) && 1 <= k < p.len() implies #[trigger] self.paths().contains(
            p.take(k),
        ) by {
            if self.reach(p.take(k)) is None {
                self.lemma_reach_stops(p, k);
            }
            assert(is_lower_word(p.take(k)));
        }
    }

    /// The empty word is never held.
    pub proof fn lemma_empty_word_never_held(&self)
        ensures
            !self@.contains(Seq::<char>::empty()),
            normalize(Seq::<char>::empty()) == Seq::<char>::empty(),
    {
        assert(normalize(Seq::<char>::empty()) =~= Seq::<char>::empty());
    }

    /// The root table rendered as by `available_line`: slot `t` shows its
    /// letter exactly when the one-letter word of that letter has a node.
    pub fn root_line(&self) -> (r: String)
        ensures
            r@ == Seq::new(
                ALPHABET_LEN as nat,
                |t: int|
                    if self.paths().contains(seq![letter_at(t)]) {
                        letter_at(t)
                    } else {
                        'N'
                    },
            ),
    {
        let r = available_line(&self.starts);
        assert forall|t: int| 0 <= t < ALPHABET_LEN implies #[trigger] r@[t] == (if self.paths().contains(
            seq![letter_at(t)],
        ) {
            letter_at(t)
        } else {
            'N'
        }) by {
            let one = seq![letter_at(t)];
            assert(slot_of(one.last()) == t);
            assert(is_lower_word(one));
            assert(self.reach(one) == self.starts@[t]);
        }
        assert(r@ =~= Seq::new(
            ALPHABET_LEN as nat,
            |t: int|
                if self.paths().contains(seq![letter_at(t)]) {
                    letter_at(t)
                } else {
                    'N'
                },
        ));
        r
    }
}

} // verus!
