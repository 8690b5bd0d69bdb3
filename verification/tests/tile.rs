use wfeusk::tile::Tile;
use wfeusk::small_vec::TileBuffer;

#[test]
fn is_wildcard() {
    let tile: Tile = '*'.into();
    assert!(tile.is_wildcard())
}

#[test]
fn is_not_wildcard() {
    for ch in "ABCDEFGHILJKLMNOPQRSTUVWXYZÅÄÖ".chars() {
        let tile: Tile = ch.into();
        assert!(!tile.is_wildcard())
    }
}

#[test]
fn letter_into_char() {
    let expected = [('A', Tile::Letter('A')), ('Ö', Tile::Letter('Ö')), ('鱼', Tile::Letter('鱼'))];
    for (ch, tile) in expected {
        let tile_ch: char = tile.into();
        assert_eq!(tile_ch, ch)
    }
}

#[test]
fn wildcard_into_char() {
    let ch: char = Tile::Wildcard(None).into();
    assert_eq!(ch, '*')
}

#[test]
fn letter_from_char() {
    let expected = [('A', Tile::Letter('A')), ('Ö', Tile::Letter('Ö')), ('鱼', Tile::Letter('鱼'))];
    for (ch, tile) in expected {
        let ch_tile: Tile = ch.into();
        assert_eq!(ch_tile, tile)
    }
}

#[test]
fn wildcard_from_char() {
    let ch_tile: Tile = '*'.into();
    assert_eq!(ch_tile, Tile::Wildcard(None))
}

fn chars(s: &str) -> Vec<char> {
    s.chars().collect()
}

#[test]
fn expand_wildcard_tile() {
    let expanded = Tile::Wildcard(None).expand(&chars("ABCD"));
    assert_eq!(
        expanded,
        vec![
            Tile::Wildcard(Some('A')),
            Tile::Wildcard(Some('B')),
            Tile::Wildcard(Some('C')),
            Tile::Wildcard(Some('D')),
        ]
    )
}

#[test]
fn expand_letter_tile() {
    let expanded = Tile::Letter('B').expand(&chars("ABCD"));
    assert_eq!(expanded, vec![Tile::Letter('B')])
}

#[test]
fn expand_letter_tile_not_matching() {
    let expanded = Tile::Letter('B').expand(&chars("ACDEFG"));
    assert_eq!(expanded, vec![])
}

// Further cases.

#[test]
fn placed_wildcard_into_char() {
    let ch: char = Tile::Wildcard(Some('Q')).into();
    assert_eq!(ch, 'Q');
}

#[test]
fn char_round_trip() {
    for ch in "AZÅ*鱼 ".chars() {
        let tile: Tile = ch.into();
        let back: char = tile.into();
        assert_eq!(back, ch);
    }
}

#[test]
fn tile_round_trip() {
    for tile in [Tile::Letter('A'), Tile::Letter('Ö'), Tile::Wildcard(None)] {
        let ch: char = tile.into();
        assert_eq!(Tile::from(ch), tile);
    }
    let ch: char = Tile::Wildcard(Some('E')).into();
    assert_eq!(Tile::from(ch), Tile::Letter('E'));
}

#[test]
fn size_of_match_vec_type() {
    assert!(std::mem::size_of::<TileBuffer>() <= 40);
}
