use libdawg::dawg::builder::build_dawg;
use typed_arena::Arena;
use wfeusk::dawg::{DictArena, DictNode};
use wfeusk::letters::Letters;
use wfeusk::wordlist::{build_wordlist, dictionary_entry, Wordlist};

fn pattern(s: &str) -> Vec<Option<char>> {
    s.chars().map(|ch| if ch == ' ' { None } else { Some(ch) }).collect()
}

fn lines(text: &str) -> Vec<String> {
    text.lines().map(String::from).collect()
}

#[test]
fn valid_chars() {
    let words = ["BESTSTRING", "TESTSPRING", "TESTSTRING"];
    let arena = Arena::new();
    let root = build_dawg(&arena, words).unwrap();
    let wordlist = Wordlist::new(DictNode { raw: root });

    let valid_chars = |word: &str| wordlist.valid_letters(&pattern(word));

    assert_eq!(valid_chars("TESTS RING"), Letters::from_str("PT"));
    assert_eq!(valid_chars("TEST TRING"), Letters::from_str("S"));
    assert_eq!(valid_chars(" ESTSTRING"), Letters::from_str("BT"));
    assert_eq!(valid_chars("TESTSTRIN "), Letters::from_str("G"));
    assert_eq!(valid_chars("TESTSTRING "), Letters::from_str(""));
    assert_eq!(valid_chars(" TESTSTRING"), Letters::from_str(""));
}

#[test]
fn build_wordlist_skips_comments() {
    let arena = DictArena { raw: Arena::new() };
    let wl = build_wordlist(&arena, &lines("# comment\nAB\nCD\n")).unwrap();
    assert!(wl.is_word("AB"));
    assert!(wl.is_word("CD"));
}

#[test]
fn build_wordlist_filters_by_length() {
    let arena = DictArena { raw: Arena::new() };
    let wl = build_wordlist(&arena, &lines("A\nAB\nABCDEFGHIJKLMNOP\n")).unwrap();
    assert!(!wl.is_word("A"));
    assert!(wl.is_word("AB"));
    assert!(!wl.is_word("ABCDEFGHIJKLMNOP"));
}

// Further cases.

#[test]
fn build_wordlist_trims_and_keeps_fifteen_letters() {
    let arena = DictArena { raw: Arena::new() };
    let wl = build_wordlist(&arena, &lines("  # indented comment\nAB  \nABCDEFGHIJKLMNO\t\n")).unwrap();
    assert!(wl.is_word("AB"));
    assert!(wl.is_word("ABCDEFGHIJKLMNO"));
    assert!(!wl.is_word("ABC"));
    assert!(!wl.is_word(""));
}

#[test]
fn build_wordlist_rejects_words_out_of_order() {
    let arena = DictArena { raw: Arena::new() };
    let err = build_wordlist(&arena, &lines("AB\nCD\nBC\n")).err().unwrap();
    assert_eq!(err.previous, vec!['C', 'D']);
    assert_eq!(err.word, vec!['B', 'C']);

    let arena = DictArena { raw: Arena::new() };
    let err = build_wordlist(&arena, &lines("AB\nAB\n")).err().unwrap();
    assert_eq!(err.previous, vec!['A', 'B']);
    assert_eq!(err.word, vec!['A', 'B']);
}

#[test]
fn dictionary_entries() {
    assert_eq!(dictionary_entry("HEJ  "), Some("HEJ"));
    assert_eq!(dictionary_entry("  HEJ"), Some("  HEJ"));
    assert_eq!(dictionary_entry("# HEJ"), None);
    assert_eq!(dictionary_entry("   #HEJ"), None);
    assert_eq!(dictionary_entry("A"), None);
    assert_eq!(dictionary_entry(""), None);
}

#[test]
fn words_and_paths() {
    let arena = DictArena { raw: Arena::new() };
    let wl = build_wordlist(&arena, &lines("KLAS\nKLASAR\nKNASAR\n")).unwrap();
    assert!(wl.is_word("KLAS"));
    assert!(wl.contains_word(&['K', 'L', 'A', 'S', 'A', 'R']));
    assert!(!wl.contains_word(&['K', 'L', 'A']));
    assert!(!wl.is_word("KLASA"));
    let node = wl.get_root();
    assert!(wfeusk::wordlist::walk_path(node, &['K', 'N']).is_some());
    assert!(wfeusk::wordlist::walk_path(node, &['K', 'X']).is_none());
}

#[test]
fn gap_letters_come_sorted() {
    let arena = DictArena { raw: Arena::new() };
    let wl = build_wordlist(&arena, &lines("BAR\nBOR\nBYR\nKAR\n")).unwrap();
    assert_eq!(wl.valid_letters_iter(&pattern("B R")), Some(vec!['A', 'O', 'Y']));
    assert_eq!(wl.valid_letters_iter(&pattern(" AR")), Some(vec!['B', 'K']));
    assert_eq!(wl.valid_letters_iter(&pattern("X R")), None);
    assert_eq!(wl.valid_letters_iter(&pattern("BAR")), None);
    assert_eq!(wl.valid_letters(&pattern("X R")), Letters::empty());
}
