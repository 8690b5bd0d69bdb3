use wfeusk::letters::{Letters, Rack};
use wfeusk::tile::Tile;

fn letter_rack(chars: &[char]) -> Rack {
    Rack::new(chars.iter().map(|ch| Tile::Letter(*ch)).collect())
}

fn intersection(rack: &Rack, valid: &Letters) -> String {
    rack.intersect(valid).into_iter().map(char::from).collect()
}

fn chars(s: &str) -> Vec<char> {
    s.chars().collect()
}

#[test]
fn rack_is_sorted() {
    let rack = Rack::from_str("PQABC");
    assert!(rack.is_sorted());
    assert_eq!(rack, letter_rack(&['A', 'B', 'C', 'P', 'Q']));
}

#[test]
fn rack_is_not_sorted() {
    // Slots A, C, B: built from A, B, C by swapping the last two tiles.
    let mut rack = letter_rack(&['A', 'B', 'C']);
    let b = rack.remove(Tile::Letter('B'));
    let c = rack.remove(Tile::Letter('C'));
    rack.set(Tile::Letter('C'), b);
    rack.set(Tile::Letter('B'), c);
    assert!(!rack.is_sorted());
}

#[test]
fn rack_is_sorted_none_between() {
    // Slots A, B, -, B, -, -, C, D, D, -.
    let mut rack = letter_rack(&['A', 'B', 'B', 'B', 'C', 'C', 'C', 'D', 'D', 'E']);
    let first = rack.remove(Tile::Letter('B'));
    rack.remove(Tile::Letter('B'));
    rack.set(Tile::Letter('B'), first);
    rack.remove(Tile::Letter('C'));
    rack.remove(Tile::Letter('C'));
    rack.remove(Tile::Letter('E'));
    assert_eq!(rack.iter(), vec![
        Tile::Letter('A'),
        Tile::Letter('B'),
        Tile::Letter('B'),
        Tile::Letter('C'),
        Tile::Letter('D'),
        Tile::Letter('D'),
    ]);
    assert!(rack.is_sorted());
}

#[test]
fn rack_is_not_sorted_none_between() {
    // Slots A, B, -, A, -, -, C, D, D, -.
    let mut rack = letter_rack(&['A', 'B', 'B', 'B', 'C', 'C', 'C', 'D', 'D', 'E']);
    let first = rack.remove(Tile::Letter('B'));
    rack.remove(Tile::Letter('B'));
    let third = rack.remove(Tile::Letter('B'));
    rack.set(Tile::Letter('B'), first);
    rack.set(Tile::Letter('A'), third);
    rack.remove(Tile::Letter('C'));
    rack.remove(Tile::Letter('C'));
    rack.remove(Tile::Letter('E'));
    assert_eq!(rack.iter(), vec![
        Tile::Letter('A'),
        Tile::Letter('B'),
        Tile::Letter('A'),
        Tile::Letter('C'),
        Tile::Letter('D'),
        Tile::Letter('D'),
    ]);
    assert!(!rack.is_sorted());
}

#[test]
fn rack_is_sorted_double_char() {
    let rack = Rack::from_str("PQCABC");
    assert!(rack.is_sorted());
    assert_eq!(rack, letter_rack(&['A', 'B', 'C', 'C', 'P', 'Q']));
}

#[test]
fn rack_is_sorted_multiple_chars() {
    let rack = Rack::from_str("PQCAPPCCBC");
    assert!(rack.is_sorted());
    assert_eq!(rack, letter_rack(&['A', 'B', 'C', 'C', 'C', 'C', 'P', 'P', 'P', 'Q']));
}

#[test]
fn letters_sorted() {
    let letters = Letters::new(&chars("PQABC"));
    assert_eq!(letters.to_string(), "ABCPQ");
}

#[test]
fn intersect_one() {
    let valid = Letters::from_str("L");
    let rack = Rack::from_str("ABCLMNO");
    assert_eq!(intersection(&rack, &valid), "L");
}

#[test]
fn intersect_several() {
    let valid = Letters::new(&chars("ALOPQRSTUVWXYZ"));
    let rack = Rack::from_str("ABCLMNO");
    assert_eq!(intersection(&rack, &valid), "ALO");
}

#[test]
fn intersect_several_unsorted_rack() {
    let valid = Letters::new(&chars("ALOPQRSTUVWXYZ"));
    let rack = Rack::from_str("COALMNB");
    assert_eq!(intersection(&rack, &valid), "ALO");
}

#[test]
fn intersect_several_nonascii() {
    let valid = Letters::new(&chars("ALOPQRSTUVWXYZÅÄÖ金"));
    let rack = Rack::from_str("ABCLMNOÅÖ金");
    assert_eq!(intersection(&rack, &valid), "ALOÅÖ金");
}

#[test]
fn intersect_wildcard() {
    let valid = Letters::any();
    let rack = Rack::from_str("ABCLMNO");
    assert_eq!(intersection(&rack, &valid), "ABCLMNO");
}

#[test]
fn intersect_empty() {
    let valid = Letters::empty();
    let rack = Rack::from_str("ABCLMNO");
    assert_eq!(intersection(&rack, &valid), "");
}

#[test]
fn unique_letters() {
    let rack = Rack::from_str("ABCLMNO");
    let unique = rack.unique_letters();
    assert_eq!(
        unique,
        vec![
            (Tile::Letter('A'), Rack::from_str("BCLMNO")),
            (Tile::Letter('B'), Rack::from_str("ACLMNO")),
            (Tile::Letter('C'), Rack::from_str("ABLMNO")),
            (Tile::Letter('L'), Rack::from_str("ABCMNO")),
            (Tile::Letter('M'), Rack::from_str("ABCLNO")),
            (Tile::Letter('N'), Rack::from_str("ABCLMO")),
            (Tile::Letter('O'), Rack::from_str("ABCLMN")),
        ]
    )
}

#[test]
fn unique_letters_double_should_remain() {
    let rack = Rack::from_str("ABCCMNO");
    let unique = rack.unique_letters();
    assert_eq!(
        unique,
        vec![
            (Tile::Letter('A'), Rack::from_str("BCCMNO")),
            (Tile::Letter('B'), Rack::from_str("ACCMNO")),
            (Tile::Letter('C'), Rack::from_str("ABCMNO")),
            (Tile::Letter('M'), Rack::from_str("ABCCNO")),
            (Tile::Letter('N'), Rack::from_str("ABCCMO")),
            (Tile::Letter('O'), Rack::from_str("ABCCMN")),
        ]
    )
}

#[test]
fn unique_letters_several() {
    let rack = Rack::from_str("AAAAAAA");
    let unique: Vec<(Tile, Rack)> = rack.unique_letters();
    assert_eq!(unique, vec![(Tile::Letter('A'), Rack::from_str("AAAAAA"))])
}

#[test]
fn collect_rack_with_wildcard() {
    let rack = Rack::from_str("*");
    assert_eq!(rack, Rack::new(vec![Tile::Wildcard(None)]))
}

#[test]
fn rack_contains() {
    let rack = Rack::from_str("ABC");
    assert!(rack.contains(Tile::Letter('A')));
    assert!(!rack.contains(Tile::Letter('D')));
}

#[test]
fn expand_wildcards_letter() {
    let rack = Rack::from_str("CQ");
    let expanded = rack.expand_wildcards(&chars("CDQ"));
    assert_eq!(expanded, vec![Tile::Letter('C'), Tile::Letter('Q')]);
}

#[test]
fn expand_wildcards_any_letters() {
    let rack = Rack::from_str("CDEQ");
    let expanded = rack.expand_wildcards(&chars("ACDP"));
    assert_eq!(expanded, vec![Tile::Letter('C'), Tile::Letter('D')]);
}

#[test]
fn expand_wildcards_wildcard() {
    let rack = Rack::from_str("AQ*");
    let expanded = rack.expand_wildcards(&chars("ACFH"));
    assert_eq!(
        expanded,
        vec![
            Tile::Letter('A'),
            Tile::Wildcard(Some('A')),
            Tile::Wildcard(Some('C')),
            Tile::Wildcard(Some('F')),
            Tile::Wildcard(Some('H')),
        ]
    );
}

// Further cases.

#[test]
fn letters_contain_their_chars() {
    let letters = Letters::new(&chars("QAZ"));
    for ch in "QAZ".chars() {
        assert!(letters.contains(ch));
    }
    assert!(!letters.contains('B'));
    assert!(Letters::one('K').contains('K'));
    assert!(!Letters::one('K').contains('L'));
    assert!(Letters::any().contains('X'));
    assert!(!Letters::empty().contains('X'));
    assert!(Letters::from_str("*").contains('X'));
}

#[test]
fn letters_emptiness() {
    assert!(Letters::empty().is_empty());
    assert!(!Letters::empty().is_not_empty());
    assert!(Letters::new(&[]).is_empty());
    assert!(Letters::one('A').is_not_empty());
    assert!(Letters::any().is_not_empty());
}

#[test]
fn letters_text() {
    assert_eq!(Letters::empty().to_string(), "");
    assert_eq!(Letters::one('R').to_string(), "R");
    assert_eq!(Letters::any().to_string(), "*");
    assert_eq!(Letters::from_str("QAAQ").to_string(), "AQ");
}

#[test]
fn letters_match_tiles() {
    let letters = Letters::from_str("AB");
    assert!(letters.matches_tile(Tile::Letter('A')));
    assert!(!letters.matches_tile(Tile::Letter('C')));
    assert!(letters.matches_tile(Tile::Wildcard(Some('B'))));
    assert!(!letters.matches_tile(Tile::Wildcard(Some('C'))));
    assert!(letters.matches_tile(Tile::Wildcard(None)));
}

#[test]
fn letters_intersects() {
    let letters = Letters::from_str("BDF");
    assert_eq!(letters.intersects(&chars("ABCDEF")), chars("BDF"));
    assert_eq!(Letters::any().intersects(&chars("XY")), chars("XY"));
}

#[test]
fn remove_then_set_restores_rack() {
    let original = Rack::from_str("*ABB");
    let mut rack = original.clone();
    let pos = rack.remove(Tile::Letter('B'));
    assert_eq!(pos, 1);
    assert!(rack.contains(Tile::Letter('B')));
    rack.set(Tile::Letter('B'), pos);
    assert_eq!(rack, original);

    let pos = rack.remove(Tile::Wildcard(Some('Q')));
    assert_eq!(pos, 3);
    assert!(!rack.contains(Tile::Wildcard(None)));
    rack.set(Tile::Wildcard(Some('Q')), pos);
    assert_eq!(rack, original);
}

#[test]
fn rack_with_wildcard_sorts_it_last() {
    let rack = Rack::from_str("B*A");
    assert_eq!(rack.iter(), vec![Tile::Letter('A'), Tile::Letter('B'), Tile::Wildcard(None)]);
    assert_eq!(rack.max_tiles(), 3);
    assert!(rack.is_sorted());
}

#[test]
fn racks_stay_sorted() {
    for text in ["A*", "*A", "Z**BA", "PQCAPPCCBC*", "*"] {
        let mut rack = Rack::from_str(text);
        assert!(rack.is_sorted(), "{}", text);
        for (_, rest) in rack.unique_letters() {
            assert!(rest.is_sorted(), "{}", text);
        }
        let tiles = rack.iter();
        for t in tiles {
            let pos = rack.remove(t);
            assert!(rack.is_sorted(), "{}", text);
            rack.set(t, pos);
            assert!(rack.is_sorted(), "{}", text);
        }
    }
}
