//! A trie over the letters `a`..=`z`, holding words case-insensitively.
//!
//! Nodes live in one arena owned by the trie; every fan-out table is an
//! array of 26 optional arena indices, one slot per letter.

pub mod laws;
pub mod letters;
pub mod render;
pub mod trie;

pub use letters::{TrieError, ALPHABET_LEN};
pub use trie::{AlphabetTrie, AlphabetTrieNode};
