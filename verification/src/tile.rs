use vstd::prelude::*;
use crate::small_vec::{buffer_tiles, TileBuffer};

verus! {

/// A playing tile.
#[derive(Clone, Copy, Debug, PartialEq, Eq, PartialOrd, Ord, Structural)]
pub enum Tile {
    /// A tile with a given letter.
    Letter(char),
    /// A wildcard tile. Once it has been put down it carries the letter it stands for,
    /// before that it carries `None`.
    Wildcard(Option<char>),
}

/// The character a tile shows: its letter, the letter a placed wildcard stands for,
/// or `'*'` for a blank wildcard.
pub open spec fn tile_char(t: Tile) -> char {
    match t {
        Tile::Letter(ch) => ch,
        Tile::Wildcard(None) => '*',
        Tile::Wildcard(Some(ch)) => ch,
    }
}

/// The tile a character denotes: `'*'` is a blank wildcard, every other character a letter.
pub open spec fn char_tile(ch: char) -> Tile {
    if ch == '*' {
        Tile::Wildcard(None)
    } else {
        Tile::Letter(ch)
    }
}

impl Tile {
    /// Returns true if this tile is a wildcard.
    pub fn is_wildcard(&self) -> (r: bool)
        ensures
            r == (*self is Wildcard),
    {
        match self {
            Tile::Wildcard(_) => true,
            Tile::Letter(_) => false,
        }
    }
}

/// The tiles a tile expands to in a square where the characters `valid` may go.
pub open spec fn expansion(t: Tile, valid: Seq<char>) -> Seq<Tile> {
    match t {
        Tile::Letter(ch) => if valid.contains(ch) {
            seq![t]
        } else {
            Seq::empty()
        },
        Tile::Wildcard(_) => valid.map_values(|c: char| Tile::Wildcard(Some(c))),
    }
}

impl Tile {
    /// Expands the tile according to the characters that may go in a square:
    /// a letter expands to itself if it is among `valid_chars` and to nothing otherwise;
    /// a blank wildcard expands to a wildcard for each valid character, in order.
    pub fn expand(&self, valid_chars: &[char]) -> (r: Vec<Tile>)
        requires
            !(*self matches Tile::Wildcard(Some(_))),
        ensures
            r@ == expansion(*self, valid_chars@),
    {
        match self {
            Tile::Letter(ch) => {
                let mut found = false;
                let mut i: usize = 0;
                while i < valid_chars.len()
                    invariant
                        i <= valid_chars.len(),
                        found == valid_chars@.subrange(0, i as int).contains(*ch),
                    decreases valid_chars.len() - i,
                {
                    if valid_chars[i] == *ch {
                        found = true;
                    }
                    proof {
                        let s = valid_chars@.subrange(0, i as int);
                        let s1 = valid_chars@.subrange(0, i + 1);
                        assert(s1 == s.push(valid_chars@[i as int]));
                        assert(s1[i as int] == valid_chars@[i as int]);
                        if s1.contains(*ch) && !s.contains(*ch) {
                            let k = choose|k: int| 0 <= k < s1.len() && s1[k] == *ch;
                            assert(k == i);
                        }
                        if s.contains(*ch) {
                            let k = choose|k: int| 0 <= k < s.len() && s[k] == *ch;
                            assert(s1[k] == *ch);
                        }
                    }
                    i = i + 1;
                }
                assert(valid_chars@.subrange(0, valid_chars.len() as int) == valid_chars@);
                let mut out = TileBuffer::new();
                if found {
                    out.push(*self);
                }
                out.into_vec()
            },
            Tile::Wildcard(_) => {
                let mut out = TileBuffer::new();
                let mut i: usize = 0;
                while i < valid_chars.len()
                    invariant
                        i <= valid_chars.len(),
                        buffer_tiles(out) == valid_chars@.subrange(0, i as int).map_values(
                            |c: char| Tile::Wildcard(Some(c)),
                        ),
                    decreases valid_chars.len() - i,
                {
                    out.push(Tile::Wildcard(Some(valid_chars[i])));
                    i = i + 1;
                    assert(valid_chars@.subrange(0, i as int) == valid_chars@.subrange(
                        0,
                        i - 1,
                    ).push(valid_chars@[i - 1]));
                }
                assert(valid_chars@.subrange(0, valid_chars.len() as int) == valid_chars@);
                out.into_vec()
            },
        }
    }
}

impl From<char> for Tile {
    /// `'*'` becomes a blank wildcard, every other character a letter.
    fn from(ch: char) -> (r: Tile) {
        if ch == '*' {
            Tile::Wildcard(None)
        } else {
            Tile::Letter(ch)
        }
    }
}

impl vstd::std_specs::convert::FromSpecImpl<char> for Tile {
    open spec fn obeys_from_spec() -> bool {
        true
    }

    open spec fn from_spec(ch: char) -> Tile {
        char_tile(ch)
    }
}

impl From<Tile> for char {
    /// The character the tile shows.
    fn from(value: Tile) -> (r: char) {
        match value {
            Tile::Letter(ch) => ch,
            Tile::Wildcard(None) => '*',
            Tile::Wildcard(Some(ch)) => ch,
        }
    }
}

impl vstd::std_specs::convert::FromSpecImpl<Tile> for char {
    open spec fn obeys_from_spec() -> bool {
        true
    }

    open spec fn from_spec(t: Tile) -> char {
        tile_char(t)
    }
}

/// Exec form of `char_tile`.
pub fn tile_of(ch: char) -> (r: Tile)
    ensures
        r == char_tile(ch),
{
    Tile::from(ch)
}

/// Exec form of `tile_char`.
pub fn char_of(t: Tile) -> (r: char)
    ensures
        r == tile_char(t),
{
    char::from(t)
}


/// A character turned into a tile and back is the same character.
pub proof fn lemma_char_round_trip(c: char)
    ensures
        tile_char(char_tile(c)) == c,
{
}

/// A tile turned into a character and back is the same tile, except that a placed
/// wildcard comes back as the letter it stands for (tiles showing `'*'` aside).
pub proof fn lemma_tile_round_trip(t: Tile)
    requires
        tile_char(t) != '*' || t == Tile::Wildcard(None),
    ensures
        char_tile(tile_char(t)) == match t {
            Tile::Wildcard(Some(c)) => Tile::Letter(c),
            _ => t,
        },
{
}

} // verus!
