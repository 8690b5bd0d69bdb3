use std::collections::BTreeSet;

use libdawg::dawg::builder::build_dawg;
use typed_arena::Arena;
use wfeusk::board::{horizontal, vertical, Board, Pos};
use wfeusk::dawg::DictNode;
use wfeusk::letters::{Letters, Rack};
use wfeusk::matcher::state::RowMatcher;
use wfeusk::matcher::{find_all_words, find_row_words, get_valid_chars, match_words, PosData};
use wfeusk::tile::Tile;
use wfeusk::wordlist::Wordlist;

const WORDS: [&str; 34] = [
    "AL", "ALE", "ALES", "BAS", "BE", "BES", "BLOMKÅLS", "EK", "EL", "ESS", "KÅLS", "LE", "LES", "LESS",
    "OS", "OSS", "PASS", "PASSA", "PASSAR", "PASSARE", "PÅ", "SAL", "SM", "SO", "SOS", "SPA", "SPASM",
    "SPEL", "SPÅ", "SPÅS", "SÅ", "SÅS", "ÅLS", "ÅS",
];

/// The words of the word list that the rows next to a word below need: every word
/// that such a row can give with the racks used, and a few that no rack here gives.
const ROW_WORDS: [&str; 16] = [
    "ARBETE", "BE", "ER", "LE", "LER", "LES", "OR", "OS", "REA", "RES", "SE", "SER", "SES", "TJO", "ÅSE",
    "ÖRA",
];

const KLASAR: [&str; 6] = ["ASAR", "KLASAR", "KLASARNA", "KLASARNAS", "KLASARS", "KNASAR"];

const KLAS: [&str; 7] = ["ASAR", "KLAS", "KLASAR", "KLASARNA", "KLASARNAS", "KLASARS", "KNASAR"];

fn sorted_words(words: &[&str]) -> Vec<String> {
    let mut v: Vec<String> = words.iter().map(|w| w.to_string()).collect();
    v.sort();
    v
}

fn make_row(s: &str) -> Vec<(char, &str)> {
    s.chars().map(|ch| (ch, if ch == ' ' { "*" } else { "" })).collect()
}

fn test_row_matches(row: &[(char, &str)], rack: &str, wordlist: &[&str]) -> BTreeSet<(String, usize)> {
    let rack = Rack::from_str(rack);
    let arena = Arena::new();
    let words = sorted_words(wordlist);
    let root = DictNode { raw: build_dawg(&arena, words.iter().map(|w| w.as_str())).unwrap() };
    let rowdata: Vec<PosData> = row
        .iter()
        .map(|(ch, allowed)| {
            let valid = Letters::from_str(allowed);
            PosData {
                letter: if *ch != ' ' { Some(Tile::from(*ch)) } else { None },
                connected: valid != Letters::any(),
                valid_chars: valid,
            }
        })
        .collect();
    RowMatcher::new(&rowdata, rack, root).collect().into_iter().collect()
}

fn test_row(row: &[(char, &str)], rack: &str, wordlist: &[&str], expected: &[&str]) {
    let results: BTreeSet<String> = test_row_matches(row, rack, wordlist).into_iter().map(|(s, _)| s).collect();
    assert_eq!(results, expected.iter().map(|s| s.to_string()).collect::<BTreeSet<String>>());
}

#[test]
fn matches() {
    test_row(&make_row("K ASAR   "), "ALNS", &KLASAR, &["KLASAR", "KLASARNA", "KLASARNAS", "KLASARS", "KNASAR"]);
}

#[test]
fn matches_with_start_pos() {
    test_row(&make_row(" K ASAR   "), "ALNS", &KLASAR, &["KLASAR", "KLASARNA", "KLASARNAS", "KLASARS", "KNASAR"]);
}

#[test]
fn matches_after_blocker_and_one_space() {
    test_row(&make_row("X K ASAR   "), "ALNS", &KLASAR, &["KLASAR", "KLASARNA", "KLASARNAS", "KLASARS", "KNASAR"]);
}

#[test]
fn matches_between_blockers() {
    test_row(&make_row("X K ASAR X "), "ALNS", &KLASAR, &["KLASAR", "KNASAR"]);
}

#[test]
fn matches_with_high_start_pos() {
    test_row(
        &make_row("      K ASAR   "),
        "ALNS",
        &KLASAR,
        &["KLASAR", "KLASARNA", "KLASARNAS", "KLASARS", "KNASAR"],
    );
}

#[test]
fn does_not_match_multiple_as_when_only_one_a_in_rack() {
    test_row(&make_row("      KL S R   "), "ALNS", &KLAS, &["KLAS"]);
}

#[test]
fn matches_multiple_as_when_multiple_as_in_rack() {
    test_row(
        &make_row("      KL S R   "),
        "AAALNS",
        &KLAS,
        &["KLAS", "KLASAR", "KLASARNA", "KLASARNAS", "KLASARS"],
    );
}

#[test]
fn matches_with_valid_chars() {
    let row = [
        (' ', "*"),
        ('K', ""),
        (' ', "L"),
        ('A', ""),
        ('S', ""),
        ('A', ""),
        ('R', ""),
        (' ', "*"),
        (' ', "*"),
        (' ', "*"),
    ];
    test_row(&row, "ALNS", &KLASAR, &["KLASAR", "KLASARNA", "KLASARNAS", "KLASARS"]);
}

#[test]
fn matches_short() {
    test_row(&make_row("K ASAR  "), "ALNS", &KLASAR, &["KLASAR", "KLASARNA", "KLASARS", "KNASAR"]);
}

#[test]
fn word_end() {
    test_row(&make_row("K ASAR A "), "ALNS", &KLASAR, &["KLASAR", "KLASARNA", "KLASARNAS", "KNASAR"]);
}

fn adjacent_row() -> [(char, &'static str); 15] {
    [
        (' ', "*"),
        (' ', "*"),
        (' ', "*"),
        (' ', "*"),
        (' ', "*"),
        (' ', "*"),
        (' ', "*"),
        (' ', "EHIOUYÄ"),
        (' ', "EOYÄ"),
        (' ', "JKMRS"),
        (' ', "OUÅÖ"),
        (' ', "OÖ"),
        (' ', "HKLNRST"),
        (' ', "EOYÄ"),
        (' ', "*"),
    ]
}

#[test]
fn empty_row_adjacent_to_word() {
    test_row(&adjacent_row(), "ABEERST", &ROW_WORDS, &["ARBETE", "BE", "ER", "REA", "RES", "SE", "SER"]);
}

#[test]
fn matches_with_valid_chars_blocked_at_end() {
    let row = [
        (' ', "*"),
        ('K', ""),
        (' ', "L"),
        ('A', ""),
        ('S', ""),
        ('A', ""),
        ('R', ""),
        (' ', "*"),
        (' ', "*"),
        ('K', ""),
    ];
    test_row(&row, "ALNS", &KLASAR, &["KLASAR", "KLASARS"]);
}

#[test]
fn empty_row_adjacent_to_word_wildcard() {
    let row = adjacent_row();
    let result = test_row_matches(&row, "ABERST", &ROW_WORDS);
    let expected = [("BE", 6), ("ER", 8), ("ER", 13), ("REA", 12), ("RES", 12), ("SE", 6), ("SE", 12), ("SER", 12)];
    assert_eq!(result, expected.into_iter().map(|(s, p)| (s.to_owned(), p)).collect());

    let result = test_row_matches(&row, "*ABERST", &ROW_WORDS);
    // The plays that use the blank on their first empty square.
    let expected_wildcard = [
        ("BE", 6),
        ("ER", 8),
        ("ER", 13),
        ("LE", 6),
        ("LE", 12),
        ("LER", 12),
        ("LES", 12),
        ("OR", 8),
        ("OR", 11),
        ("OR", 13),
        ("OS", 8),
        ("OS", 11),
        ("OS", 13),
        ("REA", 12),
        ("RES", 12),
        ("SE", 6),
        ("SE", 12),
        ("SER", 12),
        ("SES", 12),
        ("ÅSE", 5),
    ];
    let mut expected: BTreeSet<(String, usize)> = expected_wildcard.into_iter().map(|(s, p)| (s.to_owned(), p)).collect();
    // A rack sorted by character would hold the blank first, and a search walking the
    // candidates in tile order would then never come back to the letters: it would
    // find only the plays above. The rack holds its blank after its letters (the order
    // of tiles that `Rack::is_sorted` checks), so the search also finds the play whose
    // first empty square takes a letter and a later one the blank: ARBETE, its second
    // E a blank.
    expected.insert(("ARBETE".to_owned(), 2));
    assert_eq!(result, expected);
}

#[test]
fn board_matches() {
    let letters = "PASSARE";
    let mut board = Board::default();
    board.play_word(&Pos::new(7, 7), vertical(), "BLOMKÅL");
    let arena = Arena::new();
    let wordlist = Wordlist::new(DictNode { raw: build_dawg(&arena, WORDS).unwrap() });
    let matches = find_all_words(&board, &wordlist, letters);
    assert!(matches.len() >= WORDS.len());
}

#[test]
fn letters_are_not_modified() {
    let letters = Rack::from_str("PASSARE");
    let original = letters.clone();
    let mut board = Board::default();
    board.play_word(&Pos::new(7, 7), vertical(), "BLOMKÅL");
    let arena = Arena::new();
    let wordlist = Wordlist::new(DictNode { raw: build_dawg(&arena, WORDS).unwrap() });
    for i in 0..15 {
        find_row_words(&board, &wordlist, &letters, Pos::new(0, i), horizontal());
        find_row_words(&board, &wordlist, &letters, Pos::new(i, 0), vertical());
        assert_eq!(letters, original);
    }
}

// Further cases.

fn words_root<'a>(arena: &'a Arena<libdawg::dawg::DawgNode<'a, char>>, words: &[&str]) -> DictNode<'a> {
    DictNode { raw: build_dawg(arena, words.iter().copied()).unwrap() }
}

#[test]
fn valid_chars_of_squares() {
    let mut board = Board::default();
    board.play_word(&Pos::new(7, 7), vertical(), "BLOMKÅL");
    let arena = Arena::new();
    let wordlist = Wordlist::new(words_root(&arena, &WORDS));
    // An occupied square allows its own letter only.
    assert_eq!(get_valid_chars(&board, &wordlist, &Pos::new(7, 8), horizontal()), Letters::one('L'));
    // Below the word, the letters that extend BLOMKÅL to a word.
    assert_eq!(get_valid_chars(&board, &wordlist, &Pos::new(7, 14), vertical()), Letters::one('S'));
    // Above it, none.
    assert_eq!(get_valid_chars(&board, &wordlist, &Pos::new(7, 6), vertical()), Letters::empty());
    // Far from any tile, any letter.
    assert_eq!(get_valid_chars(&board, &wordlist, &Pos::new(0, 0), vertical()), Letters::any());
    // Left of the B, a letter X would need "XB" to be a word: none is.
    assert_eq!(get_valid_chars(&board, &wordlist, &Pos::new(6, 7), horizontal()), Letters::empty());
    // A blank wildcard on the board allows any letter.
    board.set(&Pos::new(0, 0), Tile::Wildcard(None));
    assert_eq!(get_valid_chars(&board, &wordlist, &Pos::new(0, 0), horizontal()), Letters::any());
}

#[test]
fn found_words_are_dictionary_words_touching_tiles() {
    let mut board = Board::default();
    board.play_word(&Pos::new(7, 7), vertical(), "BLOMKÅL");
    let arena = Arena::new();
    let wordlist = Wordlist::new(words_root(&arena, &WORDS));
    let matches = find_all_words(&board, &wordlist, "PASSARE");
    assert!(!matches.is_empty());
    for (word, pos, dir) in &matches {
        assert!(wordlist.is_word(word), "{}", word);
        let n = word.chars().count() as i32;
        let touches = (0..n).any(|j| {
            let p = pos.clone() + dir.clone() * j;
            board.is_connected(&p) || board.get(&p).connected
        });
        assert!(touches, "{} at {:?}", word, pos);
    }
    assert!(matches.iter().any(|(w, p, d)| w == "BLOMKÅLS" && *p == Pos::new(7, 7) && *d == vertical()));
}

#[test]
fn first_word_goes_through_the_centre() {
    let board = Board::default();
    let arena = Arena::new();
    let wordlist = Wordlist::new(words_root(&arena, &["AB"]));
    let found = find_all_words(&board, &wordlist, "AB");
    assert!(found.contains(&("AB".to_string(), Pos::new(7, 7), horizontal())));
    assert!(found.contains(&("AB".to_string(), Pos::new(6, 7), horizontal())));
    assert!(found.contains(&("AB".to_string(), Pos::new(7, 6), vertical())));
    // Every placement covers the centre.
    for (w, p, d) in &found {
        let n = w.chars().count() as i32;
        assert!((0..n).any(|j| *p + *d * j == Pos::new(7, 7)), "{} at {:?}", w, p);
    }
    assert_eq!(found.len(), 4);
}

#[test]
fn match_words_reports_start_squares() {
    let arena = Arena::new();
    let wordlist = Wordlist::new(words_root(&arena, &KLASAR));
    let rowdata: Vec<PosData> = "K ASAR"
        .chars()
        .map(|ch| PosData {
            letter: if ch == ' ' { None } else { Some(Tile::from(ch)) },
            valid_chars: if ch == ' ' { Letters::any() } else { Letters::empty() },
            connected: true,
        })
        .collect();
    let found = match_words(&wordlist, &rowdata, Rack::from_str("LN"));
    assert_eq!(found, vec![("KLASAR".to_string(), 0), ("KNASAR".to_string(), 0)]);
}

fn board_with_blomkal() -> Board {
    let mut board = Board::default();
    board.play_word(&Pos::new(7, 7), vertical(), "BLOMKÅL");
    board
}

/// Checks that every placement found with `rack_text` is a legal play: a dictionary
/// word between empty squares, agreeing with the tiles it crosses, whose letters put
/// down come from the rack (a blank standing for any letter) and each make a
/// dictionary word with the tiles across.
fn check_found_placements_are_legal(rack_text: &str) -> usize {
    let arena = Arena::new();
    let wordlist = Wordlist::new(words_root(&arena, &WORDS));
    let board = board_with_blomkal();
    let rack: Vec<char> = rack_text.chars().collect();
    let matches = find_all_words(&board, &wordlist, rack_text);
    for (word, pos, dir) in &matches {
        assert!(wordlist.is_word(word), "{}", word);
        let chars: Vec<char> = word.chars().collect();
        let n = chars.len() as i32;
        // The squares right before and right after the word are empty.
        assert!(!board.is_occupied(&(*pos + *dir * -1)), "{} at {:?}", word, pos);
        assert!(!board.is_occupied(&(*pos + *dir * n)), "{} at {:?}", word, pos);
        // The word agrees with the tiles it crosses, and the letters it puts down come
        // from the rack.
        let mut left = rack.clone();
        let mut placed = Vec::new();
        for (j, ch) in chars.iter().enumerate() {
            let p = *pos + *dir * (j as i32);
            assert!(Board::within_bounds(&p));
            match board.get(&p).tile {
                Some(t) => assert_eq!(char::from(t), *ch),
                None => {
                    let k = left
                        .iter()
                        .position(|c| c == ch)
                        .or_else(|| left.iter().position(|c| *c == '*'))
                        .expect("letter not on the rack");
                    left.remove(k);
                    placed.push(p);
                }
            }
        }
        assert!(!placed.is_empty());
        // Each letter put down makes a dictionary word with the tiles across it.
        let mut played = board_with_blomkal();
        played.play_word(pos, *dir, word);
        for p in &placed {
            if let Some(across) = played.get_surrounding_letters(p, dir.flip()) {
                let cross: String = across.squares().iter().map(|sq| char::from(sq.tile.unwrap())).collect();
                assert!(wordlist.is_word(&cross), "{} crossing {} at {:?}", cross, word, p);
            }
        }
    }
    matches.len()
}

#[test]
fn found_placements_are_legal_plays() {
    assert!(check_found_placements_are_legal("PASSARE") > 0);
}

#[test]
fn found_placements_with_a_blank_are_legal_plays() {
    assert!(check_found_placements_are_legal("PA*SE") > 0);
}

/// Every legal play on `board` with the tiles of `rack_text` (`'*'` a blank), found by
/// trying every dictionary word at every square in both directions.
fn legal_plays_by_hand(board: &Board, wordlist: &Wordlist, rack_text: &str) -> BTreeSet<(String, i32, i32, bool)> {
    let mut out = BTreeSet::new();
    for across in [true, false] {
        let dir = if across { horizontal() } else { vertical() };
        for lane in 0..15 {
            for s in 0..15 {
                'words: for word in WORDS.iter() {
                    let chars: Vec<char> = word.chars().collect();
                    let n = chars.len() as i32;
                    if s + n > 15 {
                        continue;
                    }
                    let at = |c: i32| if across { Pos::new(c, lane) } else { Pos::new(lane, c) };
                    if board.is_occupied(&at(s - 1)) || board.is_occupied(&at(s + n)) {
                        continue;
                    }
                    let mut left: Vec<char> = rack_text.chars().collect();
                    let mut played = Board::default();
                    played.play_word(&Pos::new(7, 7), vertical(), "BLOMKÅL");
                    let mut placed = Vec::new();
                    let mut touches = false;
                    for (j, ch) in chars.iter().enumerate() {
                        let p = at(s + j as i32);
                        touches = touches || board.is_connected(&p) || board.get(&p).connected;
                        match board.get(&p).tile {
                            Some(t) => {
                                if char::from(t) != *ch {
                                    continue 'words;
                                }
                            }
                            None => match left.iter().position(|c| c == ch).or_else(|| left.iter().position(|c| *c == '*')) {
                                Some(k) => {
                                    left.remove(k);
                                    placed.push(p);
                                }
                                None => continue 'words,
                            },
                        }
                    }
                    if placed.is_empty() || !touches {
                        continue;
                    }
                    played.play_word(&at(s), dir, word);
                    for p in &placed {
                        if let Some(cross) = played.get_surrounding_letters(p, dir.flip()) {
                            let cross: String = cross.squares().iter().map(|sq| char::from(sq.tile.unwrap())).collect();
                            if !wordlist.is_word(&cross) {
                                continue 'words;
                            }
                        }
                    }
                    let start = at(s);
                    out.insert((word.to_string(), start.x, start.y, across));
                }
            }
        }
    }
    out
}

#[test]
fn finds_exactly_the_legal_plays() {
    let arena = Arena::new();
    let wordlist = Wordlist::new(words_root(&arena, &WORDS));
    let board = board_with_blomkal();
    for rack in ["PASSARE", "SALE", "OSS", "Å", "PA*SE", "*", "S*", "**"] {
        let found: BTreeSet<(String, i32, i32, bool)> = find_all_words(&board, &wordlist, rack)
            .into_iter()
            .map(|(w, p, d)| (w, p.x, p.y, d == horizontal()))
            .collect();
        assert_eq!(found, legal_plays_by_hand(&board, &wordlist, rack), "rack {}", rack);
    }
}

#[test]
fn blank_does_not_hide_the_letter() {
    let row = [(' ', "AX"), (' ', "AX")];
    let found = test_row_matches(&row, "*A", &["AX"]);
    assert!(found.contains(&("AX".to_string(), 0)));
}
