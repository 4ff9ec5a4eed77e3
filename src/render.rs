//! A one-line picture of a fan-out table, for inspecting a trie.

use vstd::prelude::*;
use crate::letters::ALPHABET_LEN;

verus! {

/// The letter whose slot is `t`.
pub open spec fn letter_at(t: int) -> char {
    (('a' as u32) + (t as u32)) as char
}

/// Slot `t` shown as its letter when it holds a child, else as `N`.
pub open spec fn slot_mark(slot: Option<usize>, t: int) -> char {
    if slot is Some {
        letter_at(t)
    } else {
        'N'
    }
}

/// The line for a table: one mark per slot, in slot order.
pub open spec fn line_of(table: Seq<Option<usize>>) -> Seq<char> {
    Seq::new(table.len(), |t: int| slot_mark(table[t], t))
}

/// Relies on `String::push`: appends one char to the string.
#[verifier::external_body]
fn push_char(s: &mut String, c: char)
    ensures
        final(s)@ == old(s)@.push(c),
{
    s.push(c)
}

/// Renders a fan-out table as 26 chars: the slot's letter where the slot
/// holds a child, `N` where it is empty.
pub fn available_line(table: &[Option<usize>; 26]) -> (r: String)
    ensures
        r@ == line_of(table@),
        r@.len() == ALPHABET_LEN,
{
    let mut line = String::new();
    let mut t: usize = 0;
    while t < ALPHABET_LEN
        invariant
            t <= ALPHABET_LEN,
            table@.len() == ALPHABET_LEN,
            line@ =~= line_of(table@).subrange(0, t as int),
        decreases ALPHABET_LEN - t,
    {
        let mark = match table[t] {
            Some(_) => (('a' as u8) + (t as u8)) as char,
            None => 'N',
        };
        push_char(&mut line, mark);
        t = t + 1;
    }
    assert(line_of(table@).subrange(0, ALPHABET_LEN as int) =~= line_of(table@));
    line
}

} // verus!
