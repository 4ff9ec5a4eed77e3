//! Laws of adding and looking up words, stated over the set of words held.

use vstd::prelude::*;
use crate::letters::{is_word, lower, normalize};
use crate::trie::{inserted, prefixes};

verus! {

/// The words held after each word of `ws` is added, in order, to an empty trie.
pub open spec fn built(ws: Seq<Seq<char>>) -> Set<Seq<char>>
    decreases ws.len(),
{
    if ws.len() == 0 {
        Set::empty()
    } else {
        inserted(built(ws.drop_last()), ws.last())
    }
}

/// A nonempty word of letters, once added, is found.
pub proof fn lemma_added_word_found(words: Set<Seq<char>>, w: Seq<char>)
    requires
        is_word(w),
        w.len() > 0,
    ensures
        inserted(words, w).contains(normalize(w)),
{
}

/// Case does not matter: once a word is added, every spelling of it that
/// differs only in case is found.
pub proof fn lemma_case_ignored(words: Set<Seq<char>>, w: Seq<char>, v: Seq<char>)
    requires
        is_word(w),
        w.len() > 0,
        v.len() == w.len(),
        forall|i: int| 0 <= i < w.len() ==> lower(#[trigger] v[i]) == lower(w[i]),
    ensures
        inserted(words, w).contains(normalize(v)),
{
    assert(normalize(v) =~= normalize(w));
}

/// A word that differs from every word added, up to case, is not found.
pub proof fn lemma_never_added_not_found(ws: Seq<Seq<char>>, x: Seq<char>)
    requires
        forall|i: int| 0 <= i < ws.len() ==> normalize(#[trigger] ws[i]) != normalize(x),
    ensures
        !built(ws).contains(normalize(x)),
    decreases ws.len(),
{
    if ws.len() > 0 {
        lemma_never_added_not_found(ws.drop_last(), x);
    }
}

/// Adding a word leaves every other word as it was: in particular a prefix
/// of it is found only if it was found before.
pub proof fn lemma_other_words_kept(words: Set<Seq<char>>, w: Seq<char>, x: Seq<char>)
    requires
        normalize(x) != normalize(w),
    ensures
        inserted(words, w).contains(normalize(x)) == words.contains(normalize(x)),
{
}

/// Adding a word a second time changes nothing.
pub proof fn lemma_add_idempotent(words: Set<Seq<char>>, w: Seq<char>)
    ensures
        inserted(inserted(words, w), w) == inserted(words, w),
{
    assert(inserted(inserted(words, w), w) =~= inserted(words, w));
}

/// The empty word is never held, whatever words were added.
pub proof fn lemma_empty_never_built(ws: Seq<Seq<char>>)
    ensures
        !built(ws).contains(Seq::<char>::empty()),
        normalize(Seq::<char>::empty()) == Seq::<char>::empty(),
    decreases ws.len(),
{
    assert(normalize(Seq::<char>::empty()) =~= Seq::<char>::empty());
    if ws.len() > 0 {
        lemma_empty_never_built(ws.drop_last());
        assert(normalize(ws.last()).len() == ws.last().len());
    }
}

/// The nodes of a trie, as its set of paths, after adding `w` to a trie
/// with paths `paths`: every old path stays, every prefix of the normal form
/// of `w` is a path, and adding `w` once more changes nothing.
pub proof fn lemma_added_paths(paths: Set<Seq<char>>, w: Seq<char>)
    ensures
        paths.subset_of(paths.union(prefixes(normalize(w)))),
        forall|k: int|
            1 <= k <= w.len() ==> paths.union(prefixes(normalize(w))).contains(
                #[trigger] normalize(w).take(k),
            ),
        paths.union(prefixes(normalize(w))).union(prefixes(normalize(w))) == paths.union(
            prefixes(normalize(w)),
        ),
{
    assert forall|k: int| 1 <= k <= w.len() implies paths.union(prefixes(normalize(w))).contains(
        #[trigger] normalize(w).take(k),
    ) by {
        assert(prefixes(normalize(w)).contains(normalize(w).take(k)));
    }
    assert(paths.union(prefixes(normalize(w))).union(prefixes(normalize(w))) =~= paths.union(
        prefixes(normalize(w)),
    ));
}

/// Adding the empty word adds no path: no node is touched.
pub proof fn lemma_empty_word_adds_no_path(paths: Set<Seq<char>>)
    ensures
        paths.union(prefixes(normalize(Seq::<char>::empty()))) == paths,
{
    assert forall|x: Seq<char>| !prefixes(normalize(Seq::<char>::empty())).contains(x) by {}
    assert(paths.union(prefixes(normalize(Seq::<char>::empty()))) =~= paths);
}

} // verus!
