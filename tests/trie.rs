use alphabet_trie::letters::{letter_slot, word_slots};
use alphabet_trie::render::available_line;
use alphabet_trie::{AlphabetTrie, AlphabetTrieNode, TrieError, ALPHABET_LEN};

#[test]
pub fn test_idx_res() {
    let mut t = AlphabetTrie::new();
    t.add_word("hello").unwrap();
    t.add_word("hellow").unwrap();
    t.add_word("helloworld").unwrap();

    assert!(t.contains_word("hello").unwrap(), "doesn't contain word: hello");
    assert!(t.contains_word("hellow").unwrap(), "doesn't contain word: hellow");
    assert!(
        t.contains_word("helloworld").unwrap(),
        "doesn't contain word: helloworld"
    );

    assert!(!t.contains_word("h").unwrap(), "contains word: h");
    assert!(
        !t.contains_word("helloworldadsf").unwrap(),
        "contains word: helloworldadsf"
    );
}

#[test]
pub fn test_ascii_struture() {
    for c in "abcdefghijklmnopqrstuvwxyz".chars() {
        let idx = letter_slot(c).unwrap();
        println!("{}: {}", c, idx);
        assert_eq!(idx, c as usize - 'a' as usize);
    }
}

#[test]
fn round_trip_mixed_case_words() {
    let words = ["a", "z", "Zebra", "abcdefghijklmnopqrstuvwxyz", "QUICK", "mIxEd"];
    for w in words.iter() {
        let mut t = AlphabetTrie::new();
        t.add_word(w).unwrap();
        assert_eq!(t.contains_word(w), Ok(true));
    }
}

#[test]
fn case_is_ignored() {
    let mut t = AlphabetTrie::new();
    t.add_word("Hello").unwrap();
    assert_eq!(t.contains_word("hello"), Ok(true));
    assert_eq!(t.contains_word("HELLO"), Ok(true));
    assert_eq!(t.contains_word("hElLo"), Ok(true));
}

#[test]
fn words_never_added_are_absent() {
    let mut t = AlphabetTrie::new();
    assert_eq!(t.contains_word("cat"), Ok(false));
    t.add_word("cat").unwrap();
    t.add_word("dog").unwrap();
    assert_eq!(t.contains_word("cow"), Ok(false));
    assert_eq!(t.contains_word("do"), Ok(false));
    assert_eq!(t.contains_word("cats"), Ok(false));
    assert_eq!(t.contains_word("x"), Ok(false));
}

#[test]
fn prefix_is_not_added_with_longer_word() {
    let mut t = AlphabetTrie::new();
    t.add_word("helloworld").unwrap();
    assert_eq!(t.contains_word("hello"), Ok(false));
    assert_eq!(t.contains_word("helloworld"), Ok(true));
    t.add_word("hello").unwrap();
    assert_eq!(t.contains_word("hello"), Ok(true));
}

#[test]
fn adding_twice_changes_nothing() {
    let probes = ["ab", "abc", "a", "abd", "b"];
    let mut once = AlphabetTrie::new();
    once.add_word("abc").unwrap();
    let mut twice = AlphabetTrie::new();
    twice.add_word("abc").unwrap();
    twice.add_word("ABC").unwrap();
    for p in probes.iter() {
        assert_eq!(once.contains_word(p), twice.contains_word(p));
    }
    assert_eq!(once.root_line(), twice.root_line());
}

#[test]
fn empty_word_is_never_held() {
    let mut t = AlphabetTrie::new();
    assert_eq!(t.contains_word(""), Ok(false));
    assert_eq!(t.add_word(""), Ok(()));
    assert_eq!(t.contains_word(""), Ok(false));
    t.add_word("a").unwrap();
    t.add_word("ab").unwrap();
    assert_eq!(t.contains_word(""), Ok(false));
}

#[test]
fn invalid_insert_is_refused_whole() {
    let mut t = AlphabetTrie::new();
    t.add_word("hat").unwrap();
    let before = t.root_line();
    assert_eq!(
        t.add_word("he1lo"),
        Err(TrieError::InvalidCharacter { character: '1', position: 2 })
    );
    assert_eq!(t.root_line(), before);
    assert_eq!(t.contains_word("he"), Ok(false));
    assert_eq!(t.contains_word("hat"), Ok(true));
}

#[test]
fn invalid_lookup_is_refused() {
    let t = AlphabetTrie::new();
    assert_eq!(
        t.contains_word("a!b"),
        Err(TrieError::InvalidCharacter { character: '!', position: 1 })
    );
}

#[test]
fn first_invalid_char_is_named() {
    let t = AlphabetTrie::new();
    assert_eq!(
        t.contains_word(" ab9"),
        Err(TrieError::InvalidCharacter { character: ' ', position: 0 })
    );
    assert_eq!(
        t.contains_word("ab-c_"),
        Err(TrieError::InvalidCharacter { character: '-', position: 2 })
    );
}

#[test]
fn non_ascii_letter_is_refused_at_its_char_position() {
    let mut t = AlphabetTrie::new();
    assert_eq!(
        t.add_word("caf\u{e9}s"),
        Err(TrieError::InvalidCharacter { character: '\u{e9}', position: 3 })
    );
    assert_eq!(
        t.contains_word("\u{df}x"),
        Err(TrieError::InvalidCharacter { character: '\u{df}', position: 0 })
    );
}

#[test]
fn letter_slots_of_both_cases() {
    assert_eq!(letter_slot('a'), Some(0));
    assert_eq!(letter_slot('z'), Some(25));
    assert_eq!(letter_slot('A'), Some(0));
    assert_eq!(letter_slot('Q'), Some(16));
    assert_eq!(letter_slot('@'), None);
    assert_eq!(letter_slot('['), None);
    assert_eq!(letter_slot('`'), None);
    assert_eq!(letter_slot('{'), None);
    assert_eq!(word_slots("HeY"), Ok(vec![7, 4, 24]));
    assert_eq!(word_slots(""), Ok(vec![]));
}

#[test]
fn empty_table_renders_as_all_n() {
    let table: [Option<usize>; 26] = [None; 26];
    let line = available_line(&table);
    assert_eq!(line, "N".repeat(26));
    assert_eq!(line.chars().count(), ALPHABET_LEN);
}

#[test]
fn table_renders_letters_of_taken_slots() {
    let mut table: [Option<usize>; 26] = [None; 26];
    table[0] = Some(3);
    table[2] = Some(0);
    table[25] = Some(9);
    assert_eq!(available_line(&table), "aNcNNNNNNNNNNNNNNNNNNNNNNz");
}

#[test]
fn root_line_shows_first_letters() {
    let mut t = AlphabetTrie::new();
    assert_eq!(t.root_line(), "NNNNNNNNNNNNNNNNNNNNNNNNNN");
    t.add_word("Bee").unwrap();
    t.add_word("dog").unwrap();
    t.add_word("dig").unwrap();
    assert_eq!(t.root_line(), "NbNdNNNNNNNNNNNNNNNNNNNNNN");
}

#[test]
fn new_node_is_empty() {
    let n = AlphabetTrieNode::new();
    assert!(!n.is_terminal);
    assert!(n.children.iter().all(|c| c.is_none()));
}

#[test]
fn failed_insert_on_new_trie_creates_no_node() {
    let mut t = AlphabetTrie::new();
    assert!(t.add_word("he1lo").is_err());
    assert_eq!(t.root_line(), "NNNNNNNNNNNNNNNNNNNNNNNNNN");
    assert_eq!(t.contains_word("h"), Ok(false));
    assert_eq!(t.contains_word("he"), Ok(false));
}

#[test]
fn empty_insert_creates_no_node() {
    let mut t = AlphabetTrie::new();
    t.add_word("").unwrap();
    assert_eq!(t.root_line(), "NNNNNNNNNNNNNNNNNNNNNNNNNN");
}

#[test]
fn reinsert_keeps_structure_and_nodes_persist() {
    let mut t = AlphabetTrie::new();
    t.add_word("Mat").unwrap();
    let once = t.root_line();
    assert_eq!(once, "NNNNNNNNNNNNmNNNNNNNNNNNNN");
    t.add_word("mat").unwrap();
    assert_eq!(t.root_line(), once);
    t.add_word("kit").unwrap();
    assert_eq!(t.root_line(), "NNNNNNNNNNkNmNNNNNNNNNNNNN");
    assert_eq!(t.contains_word("mat"), Ok(true));
}
