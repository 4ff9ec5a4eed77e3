//! Letters, their slots in a fan-out table, and word normalisation.

use vstd::prelude::*;
use vstd::std_specs::iter::IteratorSpec;

verus! {

broadcast use vstd::string::axiom_spec_iter, vstd::string::next_postcondition;

/// Number of slots in every fan-out table: one per letter `a`..=`z`.
pub const ALPHABET_LEN: usize = 26;

/// Why a word was refused.
#[derive(Debug, Clone, Copy, PartialEq, Eq, Structural)]
pub enum TrieError {
    /// The char at `position` (counted in chars, from 0) is not an ASCII letter.
    InvalidCharacter { character: char, position: usize },
}

/// An ASCII letter, of either case.
pub open spec fn is_letter(c: char) -> bool {
    ('a' <= c && c <= 'z') || ('A' <= c && c <= 'Z')
}

/// The lowercase form of an ASCII letter; any other char is left as it is.
pub open spec fn lower(c: char) -> char {
    if 'A' <= c && c <= 'Z' {
        ((c as u32) + 32) as char
    } else {
        c
    }
}

/// The slot of a letter in a fan-out table: its position in the alphabet.
pub open spec fn slot_of(c: char) -> int {
    (lower(c) as u32) as int - ('a' as u32) as int
}

/// Every char of `w` is an ASCII letter.
pub open spec fn is_word(w: Seq<char>) -> bool {
    forall|i: int| 0 <= i < w.len() ==> is_letter(#[trigger] w[i])
}

/// Every char of `w` is a lowercase ASCII letter.
pub open spec fn is_lower_word(w: Seq<char>) -> bool {
    forall|i: int| 0 <= i < w.len() ==> 'a' <= #[trigger] w[i] && w[i] <= 'z'
}

/// The canonical form of a word: each letter in lowercase.
pub open spec fn normalize(w: Seq<char>) -> Seq<char> {
    w.map_values(|c: char| lower(c))
}

/// `p` is the position of the first char of `w` that is not a letter.
pub open spec fn is_first_invalid(w: Seq<char>, p: int) -> bool {
    &&& 0 <= p < w.len()
    &&& !is_letter(w[p])
    &&& forall|j: int| 0 <= j < p ==> is_letter(#[trigger] w[j])
}

/// `e` is the error owed for `w`: it names the first char that is not a letter.
pub open spec fn rejects(w: Seq<char>, e: TrieError) -> bool {
    match e {
        TrieError::InvalidCharacter { character, position } => {
            is_first_invalid(w, position as int) && character == w[position as int]
        },
    }
}

/// A letter's slot lies inside a fan-out table, and lowercasing keeps it.
pub proof fn lemma_slot_in_range(c: char)
    requires
        is_letter(c),
    ensures
        0 <= slot_of(c) < ALPHABET_LEN,
        slot_of(lower(c)) == slot_of(c),
        'a' <= lower(c) <= 'z',
        lower(lower(c)) == lower(c),
{
}

/// Two letters share a slot exactly when their lowercase forms are equal.
pub proof fn lemma_slot_injective(a: char, b: char)
    requires
        is_letter(a),
        is_letter(b),
    ensures
        (slot_of(a) == slot_of(b)) == (lower(a) == lower(b)),
{
    if slot_of(a) == slot_of(b) {
        assert((lower(a) as u32) == (lower(b) as u32));
        vstd::utf8::char_u32_cast(lower(a), lower(a) as u32);
        vstd::utf8::char_u32_cast(lower(b), lower(b) as u32);
    }
}

/// The normal form of a word of letters is lowercase, of the same length,
/// and puts each letter in the slot of the original one.
pub proof fn lemma_normalize(w: Seq<char>)
    requires
        is_word(w),
    ensures
        is_lower_word(normalize(w)),
        normalize(w).len() == w.len(),
        forall|i: int|
            0 <= i < w.len() ==> #[trigger] slot_of(normalize(w)[i]) == slot_of(w[i]) && 0
                <= slot_of(w[i]) < ALPHABET_LEN,
{
    assert forall|i: int| 0 <= i < w.len() implies 'a' <= #[trigger] normalize(w)[i]
        && normalize(w)[i] <= 'z' && slot_of(normalize(w)[i]) == slot_of(w[i]) && 0 <= slot_of(
        w[i],
    ) < ALPHABET_LEN by {
        lemma_slot_in_range(w[i]);
    }
}

/// The slot of `c`, or `None` where `c` is not an ASCII letter.
pub fn letter_slot(c: char) -> (r: Option<usize>)
    ensures
        match r {
            Some(i) => is_letter(c) && i == slot_of(c) && i < ALPHABET_LEN,
            None => !is_letter(c),
        },
{
    if 'a' <= c && c <= 'z' {
        Some((c as u32 - 'a' as u32) as usize)
    } else if 'A' <= c && c <= 'Z' {
        Some((c as u32 - 'A' as u32) as usize)
    } else {
        None
    }
}

/// The slots of the chars of `word`, in order, or the error naming its first
/// char that is not an ASCII letter.
pub fn word_slots(word: &str) -> (r: Result<Vec<usize>, TrieError>)
    ensures
        match r {
            Ok(v) => {
                &&& is_word(word@)
                &&& v@.len() == word@.len()
                &&& forall|i: int| 0 <= i < v@.len() ==> #[trigger] v@[i] == slot_of(word@[i])
            },
            Err(e) => !is_word(word@) && rejects(word@, e),
        },
{
    let mut slots: Vec<usize> = Vec::new();
    let mut it = word.chars();
    let mut pos: usize = 0;
    loop
        invariant
            pos == slots@.len(),
            pos <= word@.len(),
            it.obeys_prophetic_iter_laws(),
            it.remaining() == word@.subrange(pos as int, word@.len() as int),
            forall|j: int| 0 <= j < pos ==> is_letter(#[trigger] word@[j]),
            forall|j: int| 0 <= j < pos ==> #[trigger] slots@[j] == slot_of(word@[j]),
        decreases word@.len() - pos,
    {
        let next = it.next();
        match next {
            None => {
                return Ok(slots);
            },
            Some(c) => {
                assert(c == word@[pos as int]);
                match letter_slot(c) {
                    None => {
                        return Err(TrieError::InvalidCharacter { character: c, position: pos });
                    },
                    Some(i) => {
                        slots.push(i);
                        pos = slots.len();
                    },
                }
            },
        }
    }
}

} // verus!
