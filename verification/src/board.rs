//! A 15×15 board for Scrabble-like word games: bonus squares, tiles, connectivity and
//! scoring.

use vstd::prelude::*;

use crate::letters::points::{letter_points, letter_value};
use crate::tile::{Tile, char_tile, tile_char, tile_of};
use crate::util::{chars_of, mirror, mirrored, push_char, push_text, string_of};

verus! {

/// A position on the board: column `x` and row `y`, counted from 0 at the top left.
#[derive(Clone, Copy, Debug, PartialEq, Eq, Structural)]
pub struct Pos {
    /// Column coordinate (0-14 on the board).
    pub x: i32,
    /// Row coordinate (0-14 on the board).
    pub y: i32,
}

impl Pos {
    /// Creates a new Pos.
    pub fn new(x: i32, y: i32) -> (r: Self)
        ensures
            r == (Pos { x, y }),
    {
        Pos { x, y }
    }

    /// The x- and y-coordinates as a pair.
    pub fn xy(&self) -> (r: (i32, i32))
        ensures
            r == (self.x, self.y),
    {
        (self.x, self.y)
    }
}

/// A direction on the board: a step of `dx` columns and `dy` rows.
#[derive(Clone, Copy, Debug, PartialEq, Eq, Structural)]
pub struct Direction {
    /// Step in columns.
    pub dx: i32,
    /// Step in rows.
    pub dy: i32,
}

/// The direction left to right.
pub open spec fn spec_horizontal() -> Direction {
    Direction { dx: 1, dy: 0 }
}

/// The direction top to bottom.
pub open spec fn spec_vertical() -> Direction {
    Direction { dx: 0, dy: 1 }
}

/// The direction left to right.
#[verifier::when_used_as_spec(spec_horizontal)]
pub fn horizontal() -> (r: Direction)
    ensures
        r == spec_horizontal(),
{
    Direction { dx: 1, dy: 0 }
}

/// The direction top to bottom.
#[verifier::when_used_as_spec(spec_vertical)]
pub fn vertical() -> (r: Direction)
    ensures
        r == spec_vertical(),
{
    Direction { dx: 0, dy: 1 }
}

/// The direction across `d`: its two steps swapped.
pub open spec fn across(d: Direction) -> Direction {
    Direction { dx: d.dy, dy: d.dx }
}

/// Flipping twice gives the direction back, and flipping turns horizontal into
/// vertical and vertical into horizontal.
pub proof fn lemma_flip_involution(d: Direction)
    ensures
        across(across(d)) == d,
        across(spec_horizontal()) == spec_vertical(),
        across(spec_vertical()) == spec_horizontal(),
{
}

impl Direction {
    /// Flips the direction from horizontal to vertical or vice versa.
    pub fn flip(self) -> (r: Direction)
        ensures
            r == across(self),
    {
        Direction { dx: self.dy, dy: self.dx }
    }
}

/// True iff `v` fits in an `i32`.
pub open spec fn fits_i32(v: int) -> bool {
    i32::MIN <= v <= i32::MAX
}

impl std::ops::Add<Direction> for Pos {
    type Output = Pos;

    fn add(self, rhs: Direction) -> (r: Pos) {
        Pos::new(self.x + rhs.dx, self.y + rhs.dy)
    }
}

impl vstd::std_specs::ops::AddSpecImpl<Direction> for Pos {
    open spec fn obeys_add_spec() -> bool {
        true
    }

    open spec fn add_req(self, rhs: Direction) -> bool {
        fits_i32(self.x + rhs.dx) && fits_i32(self.y + rhs.dy)
    }

    open spec fn add_spec(self, rhs: Direction) -> Pos {
        Pos { x: (self.x + rhs.dx) as i32, y: (self.y + rhs.dy) as i32 }
    }
}

impl std::ops::Neg for Direction {
    type Output = Direction;

    fn neg(self) -> (r: Direction) {
        Direction { dx: -self.dx, dy: -self.dy }
    }
}

impl vstd::std_specs::ops::NegSpecImpl for Direction {
    open spec fn obeys_neg_spec() -> bool {
        true
    }

    open spec fn neg_req(self) -> bool {
        fits_i32(-self.dx) && fits_i32(-self.dy)
    }

    open spec fn neg_spec(self) -> Direction {
        Direction { dx: (-self.dx) as i32, dy: (-self.dy) as i32 }
    }
}

impl std::ops::Mul<i32> for Direction {
    type Output = Direction;

    fn mul(self, rhs: i32) -> (r: Direction) {
        Direction { dx: rhs * self.dx, dy: rhs * self.dy }
    }
}

impl vstd::std_specs::ops::MulSpecImpl<i32> for Direction {
    open spec fn obeys_mul_spec() -> bool {
        true
    }

    open spec fn mul_req(self, rhs: i32) -> bool {
        fits_i32(rhs * self.dx) && fits_i32(rhs * self.dy)
    }

    open spec fn mul_spec(self, rhs: i32) -> Direction {
        Direction { dx: (rhs * self.dx) as i32, dy: (rhs * self.dy) as i32 }
    }
}

impl std::ops::Mul<usize> for Direction {
    type Output = Direction;

    fn mul(self, rhs: usize) -> (r: Direction) {
        let rhs: i32 = rhs as i32;
        self * rhs
    }
}

impl vstd::std_specs::ops::MulSpecImpl<usize> for Direction {
    open spec fn obeys_mul_spec() -> bool {
        true
    }

    open spec fn mul_req(self, rhs: usize) -> bool {
        rhs <= i32::MAX && fits_i32(rhs * self.dx) && fits_i32(rhs * self.dy)
    }

    open spec fn mul_spec(self, rhs: usize) -> Direction {
        Direction { dx: (rhs * self.dx) as i32, dy: (rhs * self.dy) as i32 }
    }
}


/// A square of the board: its tile, if any, its bonus multipliers, and whether it is
/// marked connected (the default board marks its centre, where the first word goes).
#[derive(Clone, Copy, Debug, PartialEq, Eq, Structural)]
pub struct BoardSquare {
    /// The tile placed on this square, if any.
    pub tile: Option<Tile>,
    /// Multiplier for the letter placed here (2 = double letter, 3 = triple letter).
    pub letter_bonus: i32,
    /// Multiplier for a word through here (2 = double word, 3 = triple word).
    pub word_bonus: i32,
    /// Whether this square is next to an occupied square.
    pub connected: bool,
}

/// The decimal digit for `v`, 0 to 9.
pub open spec fn digit_char(v: int) -> char {
    (v + 48) as char
}

/// The superscript digit for `d`.
pub open spec fn superscript_digit(d: int) -> char {
    if d == 0 { '⁰' } else if d == 1 { '¹' } else if d == 2 { '²' } else if d == 3 { '³' }
    else if d == 4 { '⁴' } else if d == 5 { '⁵' } else if d == 6 { '⁶' } else if d == 7 { '⁷' }
    else if d == 8 { '⁸' } else { '⁹' }
}

/// The subscript digit for `d`.
pub open spec fn subscript_digit(d: int) -> char {
    if d == 0 { '₀' } else if d == 1 { '₁' } else if d == 2 { '₂' } else if d == 3 { '₃' }
    else if d == 4 { '₄' } else if d == 5 { '₅' } else if d == 6 { '₆' } else if d == 7 { '₇' }
    else if d == 8 { '₈' } else { '₉' }
}

/// True iff the bonuses that `sq` would show are digits: a square without a tile
/// shows its letter bonus if it is not 1, else its word bonus if that is not 1.
pub open spec fn shows_digits(sq: BoardSquare) -> bool {
    sq.tile is None ==> (if sq.letter_bonus != 1 {
        0 <= sq.letter_bonus <= 9
    } else {
        sq.word_bonus != 1 ==> 0 <= sq.word_bonus <= 9
    })
}

/// The one character that stands for `sq`: its tile's character, else its letter
/// bonus in superscript if not 1, else its word bonus in subscript if not 1, else `'·'`.
pub open spec fn square_char(sq: BoardSquare) -> char {
    match sq.tile {
        Some(t) => tile_char(t),
        None => if sq.letter_bonus != 1 {
            superscript_digit(sq.letter_bonus as int)
        } else if sq.word_bonus != 1 {
            subscript_digit(sq.word_bonus as int)
        } else {
            '·'
        },
    }
}

/// The two characters that `sq` is written as: its tile's character and a space,
/// else its letter bonus and `'l'` if that is not 1, else its word bonus and `'w'`
/// if that is not 1, else `"--"`.
pub open spec fn square_text(sq: BoardSquare) -> Seq<char> {
    match sq.tile {
        Some(t) => seq![tile_char(t), ' '],
        None => if sq.letter_bonus != 1 {
            seq![digit_char(sq.letter_bonus as int), 'l']
        } else if sq.word_bonus != 1 {
            seq![digit_char(sq.word_bonus as int), 'w']
        } else {
            seq!['-', '-']
        },
    }
}

impl BoardSquare {
    /// The digit for `val`, which must be 0 to 9.
    pub fn i32_to_char(val: i32) -> (r: char)
        requires
            0 <= val <= 9,
        ensures
            r == digit_char(val as int),
    {
        let d: u8 = val as u8;
        (48u8 + d) as char
    }

    /// The letter bonus as a digit.
    pub fn letter_bonus_char(&self) -> (r: char)
        requires
            0 <= self.letter_bonus <= 9,
        ensures
            r == digit_char(self.letter_bonus as int),
    {
        Self::i32_to_char(self.letter_bonus)
    }

    /// The word bonus as a digit.
    pub fn word_bonus_char(&self) -> (r: char)
        requires
            0 <= self.word_bonus <= 9,
        ensures
            r == digit_char(self.word_bonus as int),
    {
        Self::i32_to_char(self.word_bonus)
    }

    /// The one character that stands for the square, see `square_char`.
    pub fn to_char(self) -> (r: char)
        requires
            shows_digits(self),
        ensures
            r == square_char(self),
    {
        let lb = self.letter_bonus;
        let wb = self.word_bonus;
        if let Some(tile) = self.tile {
            match tile {
                Tile::Letter(ch) => ch,
                Tile::Wildcard(None) => '*',
                Tile::Wildcard(Some(ch)) => ch,
            }
        } else if lb != 1 {
            let digits = ['⁰', '¹', '²', '³', '⁴', '⁵', '⁶', '⁷', '⁸', '⁹'];
            digits[lb as usize]
        } else if wb != 1 {
            let digits = ['₀', '₁', '₂', '₃', '₄', '₅', '₆', '₇', '₈', '₉'];
            digits[wb as usize]
        } else {
            '·'
        }
    }

    /// The square written out, see `square_text`.
    pub fn to_string(&self) -> (r: String)
        requires
            shows_digits(*self),
        ensures
            r@ == square_text(*self),
    {
        let (l, r) = if let Some(tile) = self.tile {
            (crate::tile::char_of(tile), ' ')
        } else if self.letter_bonus != 1 {
            (self.letter_bonus_char(), 'l')
        } else if self.word_bonus != 1 {
            (self.word_bonus_char(), 'w')
        } else {
            ('-', '-')
        };
        let mut s = String::new();
        push_char(&mut s, l);
        push_char(&mut s, r);
        s
    }
}

/// Why a square description could not be read.
#[derive(Debug, PartialEq)]
pub enum ParseError {
    /// The description does not have two characters.
    Length { pattern: String },
    /// Its first character is not a digit.
    BonusDigit { digit: char, pattern: String },
    /// Its second character is neither `'w'` nor `'l'`.
    BonusType { bonus: char, pattern: String },
}

/// True iff `c` is a decimal digit.
pub open spec fn is_digit(c: char) -> bool {
    '0' <= c <= '9'
}

/// A square without tile, not touching any tile, with the given bonuses.
pub open spec fn bonus_square(letter_bonus: i32, word_bonus: i32) -> BoardSquare {
    BoardSquare { tile: None, letter_bonus, word_bonus, connected: false }
}

/// The square that the description `c` stands for: `"--"` is a plain square, a digit
/// and `'w'` a word bonus, a digit and `'l'` a letter bonus; `None` for anything else.
pub open spec fn square_of(c: Seq<char>) -> Option<BoardSquare> {
    if c.len() == 2 && c[0] == '-' && c[1] == '-' {
        Some(bonus_square(1, 1))
    } else if c.len() == 2 && is_digit(c[0]) && c[1] == 'w' {
        Some(bonus_square(1, (c[0] as int - 48) as i32))
    } else if c.len() == 2 && is_digit(c[0]) && c[1] == 'l' {
        Some(bonus_square((c[0] as int - 48) as i32, 1))
    } else {
        None
    }
}

/// True iff `e` is the error for the description `c`: a wrong length if `c` is not
/// two characters, else a non-digit first character, else a wrong bonus type.
pub open spec fn square_error(e: ParseError, c: Seq<char>) -> bool {
    match e {
        ParseError::Length { pattern } => pattern@ == c && c.len() != 2,
        ParseError::BonusDigit { digit, pattern } => pattern@ == c && c.len() == 2 && !is_digit(c[0])
            && !(c[0] == '-' && c[1] == '-') && digit == c[0],
        ParseError::BonusType { bonus, pattern } => pattern@ == c && c.len() == 2 && is_digit(c[0])
            && c[1] != 'w' && c[1] != 'l' && bonus == c[1],
    }
}

/// Reads the square that `chars` describes, see `square_of` and `square_error`.
fn parse_square_chars(chars: &[char]) -> (r: Result<BoardSquare, ParseError>)
    ensures
        match r {
            Ok(sq) => square_of(chars@) == Some(sq),
            Err(e) => square_of(chars@) is None && square_error(e, chars@),
        },
{
    if chars.len() == 2 && chars[0] == '-' && chars[1] == '-' {
        return Ok(BoardSquare { letter_bonus: 1, word_bonus: 1, tile: None, connected: false });
    }
    if chars.len() != 2 {
        return Err(ParseError::Length { pattern: string_of(chars) });
    }
    let count_ch = chars[0];
    let bonus = chars[1];
    if !('0' <= count_ch && count_ch <= '9') {
        return Err(ParseError::BonusDigit { digit: count_ch, pattern: string_of(chars) });
    }
    let count: i32 = (count_ch as u32 - 48) as i32;
    match bonus {
        'w' => Ok(BoardSquare { letter_bonus: 1, word_bonus: count, tile: None, connected: false }),
        'l' => Ok(BoardSquare { letter_bonus: count, word_bonus: 1, tile: None, connected: false }),
        _ => Err(ParseError::BonusType { bonus, pattern: string_of(chars) }),
    }
}

/// Reads a square description such as `"--"`, `"3l"` or `"2w"`, see `square_of` and
/// `square_error`.
pub fn parse_board_square(s: &str) -> (r: Result<BoardSquare, ParseError>)
    ensures
        match r {
            Ok(sq) => square_of(s@) == Some(sq),
            Err(e) => square_of(s@) is None && square_error(e, s@),
        },
{
    let chars = chars_of(s);
    parse_square_chars(chars.as_slice())
}


/// The pieces of `c` between single spaces, as `str::split(' ')` gives them.
pub open spec fn split_spaces(c: Seq<char>) -> Seq<Seq<char>>
    decreases c.len(),
{
    if c.len() == 0 {
        seq![Seq::empty()]
    } else {
        let s = split_spaces(c.drop_last());
        if c.last() == ' ' {
            s.push(Seq::empty())
        } else {
            s.update(s.len() - 1, s.last().push(c.last()))
        }
    }
}

/// Splitting always gives at least one piece.
proof fn lemma_split_nonempty(c: Seq<char>)
    ensures
        split_spaces(c).len() >= 1,
    decreases c.len(),
{
    if c.len() > 0 {
        lemma_split_nonempty(c.drop_last());
    }
}

/// The two characters of the `c`-th piece of a line of two-character pieces.
pub open spec fn pair_at(line: Seq<char>, c: int) -> Seq<char> {
    line.subrange(3 * c, 3 * c + 2)
}

/// The character after the `c`-th piece of a line of two-character pieces.
pub open spec fn sep_at(line: Seq<char>, c: int) -> char {
    line[3 * c + 2]
}

/// A line of `k` two-character pieces separated by single spaces splits into those
/// pieces.
proof fn lemma_split_pieces(line: Seq<char>, k: int)
    requires
        k >= 1,
        line.len() == 3 * k - 1,
        forall|c: int| 0 <= c < k ==> (#[trigger] pair_at(line, c))[0] != ' ' && pair_at(line, c)[1] != ' ',
        forall|c: int| 0 <= c < k - 1 ==> #[trigger] sep_at(line, c) == ' ',
    ensures
        split_spaces(line) == Seq::new(k as nat, |c: int| pair_at(line, c)),
    decreases k,
{
    let l1 = line.drop_last();
    let l2 = l1.drop_last();
    let last = pair_at(line, k - 1);
    assert(last[0] == line[3 * k - 3] && last[1] == line[3 * k - 2]);
    assert(line.drop_last() == l1);
    assert(l1.drop_last() == l2);
    if k == 1 {
        assert(l2.len() == 0);
        assert(split_spaces(l1) == seq![seq![line[0]]]) by {
            assert(l2 == Seq::<char>::empty());
            assert(split_spaces(l2) == seq![Seq::<char>::empty()]);
            assert(Seq::<char>::empty().push(line[0]) == seq![line[0]]);
        }
        assert(split_spaces(line) =~= Seq::new(k as nat, |c: int| pair_at(line, c))) by {
            assert(seq![line[0]].push(line[1]) =~= pair_at(line, 0));
        }
    } else {
        let l3 = l2.drop_last();
        assert(l2.drop_last() == l3);
        assert(l3.len() == 3 * (k - 1) - 1);
        assert forall|c: int| 0 <= c < k - 1 implies (#[trigger] pair_at(l3, c))[0] != ' ' && pair_at(l3, c)[1] != ' ' by {
            assert(pair_at(l3, c) =~= pair_at(line, c));
        }
        assert forall|c: int| 0 <= c < k - 2 implies #[trigger] sep_at(l3, c) == ' ' by {
            assert(sep_at(l3, c) == sep_at(line, c));
        }
        lemma_split_pieces(l3, k - 1);
        let prev = Seq::new((k - 1) as nat, |c: int| pair_at(l3, c));
        assert(sep_at(line, k - 2) == ' ');
        assert(l2.last() == sep_at(line, k - 2));
        assert(split_spaces(l2) == prev.push(Seq::empty()));
        assert(split_spaces(l1) == prev.push(seq![line[3 * k - 3]])) by {
            assert(Seq::<char>::empty().push(line[3 * k - 3]) == seq![line[3 * k - 3]]);
        }
        assert(split_spaces(line) =~= Seq::new(k as nat, |c: int| pair_at(line, c))) by {
            assert(seq![line[3 * k - 3]].push(line[3 * k - 2]) =~= pair_at(line, k - 1));
            assert forall|c: int| 0 <= c < k - 1 implies prev[c] == pair_at(line, c) by {
                assert(pair_at(l3, c) =~= pair_at(line, c));
            }
        }
    }
}

/// Reads a line of square descriptions separated by single spaces. Fails with the
/// error of the first piece that is not a square description.
pub fn parse_board_line(s: &str) -> (r: Result<Vec<BoardSquare>, ParseError>)
    ensures
        match r {
            Ok(v) => {
                &&& v@.len() == split_spaces(s@).len()
                &&& forall|i: int| 0 <= i < v@.len() ==> square_of(split_spaces(s@)[i]) == Some(#[trigger] v@[i])
            },
            Err(e) => exists|i: int|
                0 <= i < split_spaces(s@).len() && square_of(#[trigger] split_spaces(s@)[i]) is None
                    && square_error(e, split_spaces(s@)[i]) && forall|j: int|
                    0 <= j < i ==> square_of(split_spaces(s@)[j]) is Some,
        },
{
    let chars = chars_of(s);
    let mut out: Vec<BoardSquare> = Vec::new();
    let mut piece: Vec<char> = Vec::new();
    let mut i: usize = 0;
    while i < chars.len()
        invariant
            i <= chars.len(),
            chars@ == s@,
            split_spaces(chars@.take(i as int)).len() == out@.len() + 1,
            split_spaces(chars@.take(i as int)).last() == piece@,
            forall|k: int| 0 <= k < out@.len() ==> square_of(split_spaces(chars@.take(i as int))[k]) == Some(#[trigger] out@[k]),
        decreases chars.len() - i,
    {
        let c = chars[i];
        let ghost t = chars@.take(i as int);
        proof {
            assert(chars@.take(i + 1).drop_last() == t);
            assert(chars@.take(i + 1).last() == c);
            lemma_split_nonempty(t);
        }
        if c == ' ' {
            match parse_square_chars(piece.as_slice()) {
                Ok(sq) => {
                    out.push(sq);
                    piece = Vec::new();
                    proof {
                        let s1 = split_spaces(chars@.take(i + 1));
                        assert(s1 == split_spaces(t).push(Seq::empty()));
                        assert forall|k: int| 0 <= k < out@.len() implies square_of(s1[k]) == Some(#[trigger] out@[k]) by {
                            if k < out@.len() - 1 {
                                assert(s1[k] == split_spaces(t)[k]);
                            }
                        }
                    }
                },
                Err(e) => {
                    proof {
                        let segs = split_spaces(s@);
                        lemma_split_prefix(chars@, i as int);
                        let k = out@.len() as int;
                        assert(segs[k] == piece@);
                        assert forall|j: int| 0 <= j < k implies square_of(segs[j]) is Some by {
                            assert(segs[j] == split_spaces(t)[j]);
                            assert(square_of(split_spaces(t)[j]) == Some(out@[j]));
                        }
                        assert(square_of(segs[k]) is None);
                    }
                    return Err(e);
                },
            }
        } else {
            piece.push(c);
            proof {
                let s1 = split_spaces(chars@.take(i + 1));
                assert(s1 == split_spaces(t).update(split_spaces(t).len() - 1, piece@));
                assert forall|k: int| 0 <= k < out@.len() implies square_of(s1[k]) == Some(#[trigger] out@[k]) by {
                    assert(s1[k] == split_spaces(t)[k]);
                }
            }
        }
        i = i + 1;
    }
    proof {
        assert(chars@.take(chars.len() as int) == chars@);
    }
    match parse_square_chars(piece.as_slice()) {
        Ok(sq) => {
            out.push(sq);
            proof {
                let segs = split_spaces(s@);
                assert forall|k: int| 0 <= k < out@.len() implies square_of(segs[k]) == Some(#[trigger] out@[k]) by {
                    if k < out@.len() - 1 {
                    }
                }
            }
            Ok(out)
        },
        Err(e) => {
            proof {
                let segs = split_spaces(s@);
                let k = out@.len() as int;
                assert(segs[k] == piece@);
                assert forall|j: int| 0 <= j < k implies square_of(segs[j]) is Some by {
                    assert(square_of(segs[j]) == Some(out@[j]));
                }
            }
            Err(e)
        },
    }
}

/// The pieces of a prefix ending before a space are, but for the last, pieces of
/// the whole.
proof fn lemma_split_prefix(c: Seq<char>, i: int)
    requires
        0 <= i < c.len(),
        c[i] == ' ',
    ensures
        forall|k: int| 0 <= k < split_spaces(c.take(i)).len() ==> split_spaces(c)[k] == #[trigger] split_spaces(c.take(i))[k],
        split_spaces(c.take(i)).len() < split_spaces(c).len(),
{
    lemma_split_nonempty(c.take(i));
    let t = c.take(i);
    let t1 = c.take(i + 1);
    assert(t1.drop_last() == t);
    assert(t1.last() == ' ');
    assert(split_spaces(t1) == split_spaces(t).push(Seq::empty()));
    lemma_split_grows(c, i + 1);
    assert forall|k: int| 0 <= k < split_spaces(t).len() implies split_spaces(c)[k] == #[trigger] split_spaces(t)[k] by {
        assert(split_spaces(t1)[k] == split_spaces(t)[k]);
    }
}

/// Splitting a longer prefix keeps all but the last piece of a shorter one.
proof fn lemma_split_grows(c: Seq<char>, n: int)
    requires
        0 <= n <= c.len(),
    ensures
        split_spaces(c.take(n)).len() <= split_spaces(c).len(),
        forall|k: int| 0 <= k < split_spaces(c.take(n)).len() - 1 ==> split_spaces(c)[k] == #[trigger] split_spaces(c.take(n))[k],
    decreases c.len() - n,
{
    let t = c.take(n);
    lemma_split_nonempty(t);
    if n == c.len() {
        assert(t == c);
    } else {
        let t1 = c.take(n + 1);
        lemma_split_grows(c, n + 1);
        assert(t1.drop_last() == t);
        assert(t1.last() == c[n]);
        assert forall|k: int| 0 <= k < split_spaces(t).len() - 1 implies split_spaces(c)[k] == #[trigger] split_spaces(t)[k] by {
            assert(split_spaces(t1)[k] == split_spaces(t)[k]);
        }
    }
}


/// True iff `(x, y)` is a square of the 15×15 board.
pub open spec fn on_board(x: int, y: int) -> bool {
    0 <= x < 15 && 0 <= y < 15
}

/// True iff `d` is one of the two directions that words are laid in.
pub open spec fn is_hv(d: Direction) -> bool {
    d == spec_horizontal() || d == spec_vertical()
}

/// The line that `p` lies on in direction `d`: its row for a horizontal line, its
/// column for a vertical one.
pub open spec fn lane_of(p: Pos, d: Direction) -> int {
    if d == spec_horizontal() { p.y as int } else { p.x as int }
}

/// How far along its line in direction `d` the position `p` lies: its column for a
/// horizontal line, its row for a vertical one.
pub open spec fn coord_of(p: Pos, d: Direction) -> int {
    if d == spec_horizontal() { p.x as int } else { p.y as int }
}

/// True iff the bonuses of `sq` are among those of the board: 1, 2 or 3.
pub open spec fn bonus_ok(sq: BoardSquare) -> bool {
    1 <= sq.letter_bonus <= 3 && 1 <= sq.word_bonus <= 3
}

/// `sq` with the tile `t` placed on it.
pub open spec fn with_tile(sq: BoardSquare, t: Tile) -> BoardSquare {
    BoardSquare { tile: Some(t), letter_bonus: sq.letter_bonus, word_bonus: sq.word_bonus, connected: sq.connected }
}

/// The rows of the top left quarter of the default board, the centre row and column
/// included; the rest is its mirror image.
pub open spec fn quarter_line(i: int) -> Seq<char> {
    if i == 0 {
        "3l -- -- -- 3w -- -- 2l"@
    } else if i == 1 {
        "-- 2l -- -- -- 3l -- --"@
    } else if i == 2 {
        "-- -- 2w -- -- -- 2l --"@
    } else if i == 3 {
        "-- -- -- 3l -- -- -- 2w"@
    } else if i == 4 {
        "3w -- -- -- 2w -- 2l --"@
    } else if i == 5 {
        "-- 3l -- -- -- 3l -- --"@
    } else if i == 6 {
        "-- -- 2l -- 2l -- -- --"@
    } else {
        "2l -- -- 2w -- -- -- --"@
    }
}

/// The quarter row or column that row or column `i` of the board mirrors.
pub open spec fn fold(i: int) -> int {
    if i <= 7 { i } else { 14 - i }
}

/// The letter bonus of square `(x, y)` of the standard board: three on the corners,
/// on (3, 3), (5, 5), (1, 5) and (5, 1) of each quarter; two on (1, 1), (0, 7),
/// (7, 0), (2, 6), (6, 2), (4, 6) and (6, 4) of each quarter; one elsewhere. Each
/// quarter mirrors the top left one across the centre row and column.
pub open spec fn standard_letter_bonus(x: int, y: int) -> int {
    let a = fold(x);
    let b = fold(y);
    if (a == b && (a == 0 || a == 3 || a == 5)) || (a == 1 && b == 5) || (a == 5 && b == 1) {
        3
    } else if (a == 1 && b == 1) || (a == 0 && b == 7) || (a == 7 && b == 0) || (a == 2 && b == 6) || (a == 6
        && b == 2) || (a == 4 && b == 6) || (a == 6 && b == 4) {
        2
    } else {
        1
    }
}

/// The word bonus of square `(x, y)` of the standard board: three on (0, 4) and
/// (4, 0) of each quarter; two on (2, 2), (4, 4), (3, 7) and (7, 3) of each quarter;
/// one elsewhere, the centre square included.
pub open spec fn standard_word_bonus(x: int, y: int) -> int {
    let a = fold(x);
    let b = fold(y);
    if (a == 0 && b == 4) || (a == 4 && b == 0) {
        3
    } else if (a == b && (a == 2 || a == 4)) || (a == 3 && b == 7) || (a == 7 && b == 3) {
        2
    } else {
        1
    }
}

/// Each description in row `i` of the quarter layout gives the standard bonuses.
proof fn lemma_quarter_row(i: int)
    requires
        0 <= i < 8,
    ensures
        forall|c: int| 0 <= c < 8 ==> {
            let sq = square_of(#[trigger] pair_at(quarter_line(i), c));
            &&& sq is Some
            &&& sq->0.letter_bonus == standard_letter_bonus(c, i)
            &&& sq->0.word_bonus == standard_word_bonus(c, i)
        },
{
    let line = quarter_line(i);
    if i == 0 {
        reveal_strlit("3l -- -- -- 3w -- -- 2l");
    } else if i == 1 {
        reveal_strlit("-- 2l -- -- -- 3l -- --");
    } else if i == 2 {
        reveal_strlit("-- -- 2w -- -- -- 2l --");
    } else if i == 3 {
        reveal_strlit("-- -- -- 3l -- -- -- 2w");
    } else if i == 4 {
        reveal_strlit("3w -- -- -- 2w -- 2l --");
    } else if i == 5 {
        reveal_strlit("-- 3l -- -- -- 3l -- --");
    } else if i == 6 {
        reveal_strlit("-- -- 2l -- 2l -- -- --");
    } else {
        reveal_strlit("2l -- -- 2w -- -- -- --");
    }
    assert forall|c: int| 0 <= c < 8 implies {
        let sq = square_of(#[trigger] pair_at(line, c));
        &&& sq is Some
        &&& sq->0.letter_bonus == standard_letter_bonus(c, i)
        &&& sq->0.word_bonus == standard_word_bonus(c, i)
    } by {
        if c == 0 {
        } else if c == 1 {
        } else if c == 2 {
        } else if c == 3 {
        } else if c == 4 {
        } else if c == 5 {
        } else if c == 6 {
        } else {
        }
    }
}

/// The square that the quarter layout gives for column `x`, row `y`.
pub open spec fn layout_square(x: int, y: int) -> BoardSquare {
    match square_of(split_spaces(quarter_line(fold(y)))[fold(x)]) {
        Some(sq) => sq,
        None => bonus_square(1, 1),
    }
}

/// The square at column `x`, row `y` of the default board: the quarter layout,
/// mirrored, with no tiles, and with only the centre square marked as connected.
pub open spec fn default_square(x: int, y: int) -> BoardSquare {
    let sq = layout_square(x, y);
    BoardSquare { tile: None, letter_bonus: sq.letter_bonus, word_bonus: sq.word_bonus, connected: x == 7 && y == 7 }
}

/// Every square of the default board carries the standard bonuses, see
/// `standard_letter_bonus` and `standard_word_bonus`, and holds no tile.
pub proof fn lemma_default_bonuses(x: int, y: int)
    requires
        on_board(x, y),
    ensures
        default_square(x, y).letter_bonus == standard_letter_bonus(x, y),
        default_square(x, y).word_bonus == standard_word_bonus(x, y),
        default_square(x, y).tile is None,
{
    lemma_quarter_line(fold(y));
    assert(0 <= fold(x) < 8);
    assert(fold(fold(x)) == fold(x) && fold(fold(y)) == fold(y));
}

/// True iff the quarter layout piece `p` describes a square without tile and with
/// bonuses of the board.
pub open spec fn quarter_piece_ok(p: Seq<char>) -> bool {
    &&& square_of(p) is Some
    &&& bonus_ok(square_of(p)->0)
}

/// Each row of the quarter layout has eight square descriptions, and each of them
/// reads.
proof fn lemma_quarter_line(i: int)
    requires
        0 <= i < 8,
    ensures
        split_spaces(quarter_line(i)).len() == 8,
        forall|c: int| 0 <= c < 8 ==> quarter_piece_ok(#[trigger] split_spaces(quarter_line(i))[c]),
        forall|c: int| 0 <= c < 8 ==> (square_of(#[trigger] split_spaces(quarter_line(i))[c])->0).letter_bonus
            == standard_letter_bonus(c, i) && (square_of(split_spaces(quarter_line(i))[c])->0).word_bonus
            == standard_word_bonus(c, i),
{
    lemma_quarter_row(i);
    let line = quarter_line(i);
    if i == 0 {
        reveal_strlit("3l -- -- -- 3w -- -- 2l");
    } else if i == 1 {
        reveal_strlit("-- 2l -- -- -- 3l -- --");
    } else if i == 2 {
        reveal_strlit("-- -- 2w -- -- -- 2l --");
    } else if i == 3 {
        reveal_strlit("-- -- -- 3l -- -- -- 2w");
    } else if i == 4 {
        reveal_strlit("3w -- -- -- 2w -- 2l --");
    } else if i == 5 {
        reveal_strlit("-- 3l -- -- -- 3l -- --");
    } else if i == 6 {
        reveal_strlit("-- -- 2l -- 2l -- -- --");
    } else {
        reveal_strlit("2l -- -- 2w -- -- -- --");
    }
    assert(line.len() == 23);
    assert forall|c: int| 0 <= c < 8 implies (#[trigger] pair_at(line, c))[0] != ' ' && pair_at(line, c)[1] != ' '
        && quarter_piece_ok(pair_at(line, c)) by {
        if c == 0 {
        } else if c == 1 {
        } else if c == 2 {
        } else if c == 3 {
        } else if c == 4 {
        } else if c == 5 {
        } else if c == 6 {
        } else {
        }
    }
    assert forall|c: int| 0 <= c < 7 implies #[trigger] sep_at(line, c) == ' ' by {
        if c == 0 {
        } else if c == 1 {
        } else if c == 2 {
        } else if c == 3 {
        } else if c == 4 {
        } else if c == 5 {
        } else {
        }
    }
    lemma_split_pieces(line, 8);
    assert forall|c: int| 0 <= c < 8 implies quarter_piece_ok(#[trigger] split_spaces(quarter_line(i))[c]) by {
        assert(split_spaces(line)[c] == pair_at(line, c));
    }
    assert forall|c: int| 0 <= c < 8 implies (square_of(#[trigger] split_spaces(quarter_line(i))[c])->0).letter_bonus
        == standard_letter_bonus(c, i) && (square_of(split_spaces(quarter_line(i))[c])->0).word_bonus
        == standard_word_bonus(c, i) by {
        assert(split_spaces(line)[c] == pair_at(line, c));
    }
}

/// Mirroring eight elements puts element `fold(i)` at place `i`.
proof fn lemma_mirrored_fold<T>(s: Seq<T>)
    requires
        s.len() == 8,
    ensures
        mirrored(s).len() == 15,
        forall|i: int| 0 <= i < 15 ==> #[trigger] mirrored(s)[i] == s[fold(i)],
{
    assert forall|i: int| 0 <= i < 15 implies #[trigger] mirrored(s)[i] == s[fold(i)] by {
        if i >= 8 {
            assert(s.drop_last().reverse()[i - 8] == s.drop_last()[6 - (i - 8)]);
        }
    }
}

/// The rows of the top left quarter of the default board.
fn quarter_board() -> (r: Vec<&'static str>)
    ensures
        r@.len() == 8,
        forall|i: int| 0 <= i < 8 ==> (#[trigger] r@[i])@ == quarter_line(i),
{
    let mut r: Vec<&'static str> = Vec::new();
    r.push("3l -- -- -- 3w -- -- 2l");
    r.push("-- 2l -- -- -- 3l -- --");
    r.push("-- -- 2w -- -- -- 2l --");
    r.push("-- -- -- 3l -- -- -- 2w");
    r.push("3w -- -- -- 2w -- 2l --");
    r.push("-- 3l -- -- -- 3l -- --");
    r.push("-- -- 2l -- 2l -- -- --");
    r.push("2l -- -- 2w -- -- -- --");
    r
}

/// A 15×15 board: tiles, bonus squares and which squares touch a tile.
pub struct Board {
    /// The squares, row after row.
    squares: Vec<BoardSquare>,
}

impl Board {
    #[verifier::type_invariant]
    spec fn inv(self) -> bool {
        &&& self.squares@.len() == 225
        &&& forall|i: int| 0 <= i < 225 ==> bonus_ok(#[trigger] self.squares@[i])
    }

    /// The square at column `x`, row `y`.
    pub closed spec fn square(self, x: int, y: int) -> BoardSquare {
        self.squares@[y * 15 + x]
    }

    /// True iff `(x, y)` is on the board and holds a tile.
    pub open spec fn occupied_at(self, x: int, y: int) -> bool {
        on_board(x, y) && self.square(x, y).tile is Some
    }

    /// True iff `(x, y)` is on the board and holds no tile.
    pub open spec fn free_at(self, x: int, y: int) -> bool {
        on_board(x, y) && self.square(x, y).tile is None
    }

    /// Every square of a well-formed board has bonuses 1, 2 or 3.
    proof fn lemma_bonuses(self)
        requires
            self.inv(),
        ensures
            forall|x: int, y: int| on_board(x, y) ==> bonus_ok(#[trigger] self.square(x, y)),
    {
        assert forall|x: int, y: int| on_board(x, y) implies bonus_ok(#[trigger] self.square(x, y)) by {
            assert(0 <= y * 15 + x < 225);
        }
    }

    /// The content of the square at `pos`.
    pub fn get(&self, pos: &Pos) -> (r: BoardSquare)
        requires
            on_board(pos.x as int, pos.y as int),
        ensures
            r == self.square(pos.x as int, pos.y as int),
    {
        proof {
            use_type_invariant(self);
        }
        let i: i32 = pos.y * 15 + pos.x;
        self.squares[i as usize]
    }

    /// True iff `pos` is on the board.
    pub fn within_bounds(pos: &Pos) -> (r: bool)
        ensures
            r == on_board(pos.x as int, pos.y as int),
    {
        0 <= pos.x && pos.x < 15 && 0 <= pos.y && pos.y < 15
    }

    /// True iff the square at `pos` is on the board and holds a tile.
    pub fn is_occupied(&self, pos: &Pos) -> (r: bool)
        ensures
            r == self.occupied_at(pos.x as int, pos.y as int),
    {
        Self::within_bounds(pos) && self.get(pos).tile.is_some()
    }

    /// True iff the square at `pos` is on the board and holds no tile.
    pub fn is_free(&self, pos: &Pos) -> (r: bool)
        ensures
            r == self.free_at(pos.x as int, pos.y as int),
    {
        Self::within_bounds(pos) && self.get(pos).tile.is_none()
    }

    /// True iff one of the four squares next to `pos` (left, right, above, below)
    /// holds a tile.
    pub fn is_connected(&self, pos: &Pos) -> (r: bool)
        requires
            i32::MIN < pos.x < i32::MAX,
            i32::MIN < pos.y < i32::MAX,
        ensures
            r == (self.occupied_at(pos.x - 1, pos.y as int) || self.occupied_at(pos.x + 1, pos.y as int)
                || self.occupied_at(pos.x as int, pos.y - 1) || self.occupied_at(pos.x as int, pos.y + 1)),
    {
        let (x, y) = pos.xy();
        self.is_occupied(&Pos::new(x - 1, y)) || self.is_occupied(&Pos::new(x + 1, y))
            || self.is_occupied(&Pos::new(x, y - 1)) || self.is_occupied(&Pos::new(x, y + 1))
    }

    /// Places `tile` on the free square at `pos`.
    pub fn set(&mut self, pos: &Pos, tile: Tile)
        requires
            old(self).free_at(pos.x as int, pos.y as int),
        ensures
            forall|x: int, y: int| on_board(x, y) ==> #[trigger] final(self).square(x, y) == if x == pos.x && y == pos.y {
                with_tile(old(self).square(x, y), tile)
            } else {
                old(self).square(x, y)
            },
    {
        proof {
            use_type_invariant(&*self);
        }
        let i: usize = (pos.y * 15 + pos.x) as usize;
        let mut sq = self.squares[i];
        sq.tile = Some(tile);
        let mut squares = self.squares.clone();
        assert(squares@ == old(self).squares@);
        squares.set(i, sq);
        *self = Board { squares };
        proof {
            assert forall|x: int, y: int| on_board(x, y) implies #[trigger] self.square(x, y) == if x == pos.x && y == pos.y {
                with_tile(old(self).square(x, y), tile)
            } else {
                old(self).square(x, y)
            } by {
                if x != pos.x || y != pos.y {
                    assert(y * 15 + x != i);
                }
            }
        }
    }
}

impl Default for Board {
    /// The standard board: the quarter layout mirrored both ways, no tiles, and only
    /// the centre square marked as connected.
    fn default() -> (r: Board)
        ensures
            forall|x: int, y: int| on_board(x, y) ==> #[trigger] r.square(x, y) == default_square(x, y),
            forall|x: int, y: int| on_board(x, y) ==> (#[trigger] r.square(x, y)).letter_bonus == standard_letter_bonus(x, y)
                && r.square(x, y).word_bonus == standard_word_bonus(x, y) && r.square(x, y).tile is None,
    {
        let quarter = quarter_board();
        let lines = mirror(quarter.as_slice());
        proof {
            lemma_mirrored_fold(quarter@);
        }
        let mut squares: Vec<BoardSquare> = Vec::new();
        let mut y: usize = 0;
        while y < 15
            invariant
                y <= 15,
                lines@ == mirrored(quarter@),
                lines@.len() == 15,
                forall|i: int| 0 <= i < 15 ==> #[trigger] lines@[i] == quarter@[fold(i)],
                forall|i: int| 0 <= i < 8 ==> (#[trigger] quarter@[i])@ == quarter_line(i),
                squares@.len() == 15 * y,
                forall|yy: int, xx: int| 0 <= yy < y && 0 <= xx < 15 ==> #[trigger] squares@[yy * 15 + xx] == layout_square(xx, yy),
                forall|i: int| 0 <= i < squares@.len() ==> bonus_ok(#[trigger] squares@[i]),
            decreases 15 - y,
        {
            let line = lines[y];
            proof {
                lemma_quarter_line(fold(y as int));
                assert(line@ == quarter_line(fold(y as int)));
            }
            match parse_board_line(line) {
                Ok(row) => {
                    let full = mirror(row.as_slice());
                    proof {
                        lemma_mirrored_fold(row@);
                    }
                    let mut x: usize = 0;
                    while x < 15
                        invariant
                            y < 15,
                            x <= 15,
                            line@ == quarter_line(fold(y as int)),
                            split_spaces(line@).len() == 8,
                            forall|c: int| 0 <= c < 8 ==> quarter_piece_ok(#[trigger] split_spaces(line@)[c]),
                            row@.len() == 8,
                            forall|i: int| 0 <= i < 8 ==> square_of(split_spaces(line@)[i]) == Some(#[trigger] row@[i]),
                            full@.len() == 15,
                            forall|i: int| 0 <= i < 15 ==> #[trigger] full@[i] == row@[fold(i)],
                            squares@.len() == 15 * y + x,
                            forall|yy: int, xx: int| 0 <= yy < y && 0 <= xx < 15 ==> #[trigger] squares@[yy * 15 + xx] == layout_square(xx, yy),
                            forall|xx: int| 0 <= xx < x ==> #[trigger] squares@[y * 15 + xx] == layout_square(xx, y as int),
                            forall|i: int| 0 <= i < squares@.len() ==> bonus_ok(#[trigger] squares@[i]),
                        decreases 15 - x,
                    {
                        proof {
                            let c = fold(x as int);
                            assert(quarter_piece_ok(split_spaces(line@)[c]));
                            assert(square_of(split_spaces(line@)[c]) == Some(row@[c]));
                            assert(full@[x as int] == row@[c]);
                        }
                        squares.push(full[x]);
                        x = x + 1;
                    }
                },
                Err(e) => {
                    proof {
                        let k = choose|k: int| 0 <= k < split_spaces(line@).len() && square_of(#[trigger] split_spaces(line@)[k]) is None
                            && square_error(e, split_spaces(line@)[k]) && forall|j: int|
                            0 <= j < k ==> square_of(split_spaces(line@)[j]) is Some;
                        assert(quarter_piece_ok(split_spaces(line@)[k]));
                    }
                    return Board { squares: Vec::new() };
                },
            }
            y = y + 1;
        }
        let mut centre = squares[112];
        centre.connected = true;
        squares.set(112, centre);
        let r = Board { squares };
        proof {
            assert forall|x: int, y: int| on_board(x, y) implies #[trigger] r.square(x, y) == default_square(x, y) by {
                assert(r.square(x, y) == r.squares@[y * 15 + x]);
                if x == 7 && y == 7 {
                } else {
                    assert(y * 15 + x != 112);
                }
            }
            assert forall|x: int, y: int| on_board(x, y) implies (#[trigger] r.square(x, y)).letter_bonus
                == standard_letter_bonus(x, y) && r.square(x, y).word_bonus == standard_word_bonus(x, y)
                && r.square(x, y).tile is None by {
                lemma_default_bonuses(x, y);
            }
        }
        r
    }
}


/// True iff `d` is one step along a row or a column, either way.
pub open spec fn is_step(d: Direction) -> bool {
    is_hv(d) || (d.dx == -1 && d.dy == 0) || (d.dx == 0 && d.dy == -1)
}

impl Board {
    /// The square at place `c` of line `lane` in direction `d`: column `c` of row
    /// `lane` for a horizontal line, row `c` of column `lane` for a vertical one.
    pub open spec fn line_square(self, d: Direction, lane: int, c: int) -> BoardSquare {
        if d == spec_horizontal() { self.square(c, lane) } else { self.square(lane, c) }
    }

    /// True iff place `c` of line `lane` in direction `d` is on the board and holds a tile.
    pub open spec fn line_occupied(self, d: Direction, lane: int, c: int) -> bool {
        if d == spec_horizontal() { self.occupied_at(c, lane) } else { self.occupied_at(lane, c) }
    }

    /// True iff place `c` of line `lane` in direction `d` is on the board and holds no tile.
    pub open spec fn line_free(self, d: Direction, lane: int, c: int) -> bool {
        if d == spec_horizontal() { self.free_at(c, lane) } else { self.free_at(lane, c) }
    }

    /// How many places right after `c` on line `lane` hold tiles, one after another.
    pub open spec fn run_after(self, d: Direction, lane: int, c: int) -> nat
        decreases 15 - c,
    {
        if self.line_occupied(d, lane, c + 1) {
            1 + self.run_after(d, lane, c + 1)
        } else {
            0
        }
    }

    /// How many places right before `c` on line `lane` hold tiles, one after another.
    pub open spec fn run_before(self, d: Direction, lane: int, c: int) -> nat
        decreases c,
    {
        if self.line_occupied(d, lane, c - 1) {
            1 + self.run_before(d, lane, c - 1)
        } else {
            0
        }
    }

    /// The squares at places `start` to `start + len - 1` of line `lane` in direction `d`.
    pub open spec fn segment(self, d: Direction, lane: int, start: int, len: int) -> Seq<BoardSquare> {
        Seq::new(len as nat, |i: int| self.line_square(d, lane, start + i))
    }

    /// True iff every square of the board has bonuses 1, 2 or 3.
    pub open spec fn bonuses_ok(self) -> bool {
        forall|x: int, y: int| on_board(x, y) ==> bonus_ok(#[trigger] self.square(x, y))
    }
}

/// The places after `c` that the run counts hold tiles, the one after them does not,
/// and the run stays on the board.
pub proof fn lemma_run_after(b: Board, d: Direction, lane: int, c: int)
    ensures
        forall|j: int| 1 <= j <= b.run_after(d, lane, c) ==> #[trigger] b.line_occupied(d, lane, c + j),
        !b.line_occupied(d, lane, c + b.run_after(d, lane, c) + 1),
        b.run_after(d, lane, c) > 0 ==> c + b.run_after(d, lane, c) <= 14,
    decreases 15 - c,
{
    if b.line_occupied(d, lane, c + 1) {
        lemma_run_after(b, d, lane, c + 1);
        assert forall|j: int| 1 <= j <= b.run_after(d, lane, c) implies #[trigger] b.line_occupied(d, lane, c + j) by {
            if j > 1 {
                assert(b.line_occupied(d, lane, (c + 1) + (j - 1)));
            }
        }
    }
}

/// The places before `c` that the run counts hold tiles, the one before them does
/// not, and the run stays on the board.
pub proof fn lemma_run_before(b: Board, d: Direction, lane: int, c: int)
    ensures
        forall|j: int| 1 <= j <= b.run_before(d, lane, c) ==> #[trigger] b.line_occupied(d, lane, c - j),
        !b.line_occupied(d, lane, c - b.run_before(d, lane, c) - 1),
        b.run_before(d, lane, c) > 0 ==> c - b.run_before(d, lane, c) >= 0,
    decreases c,
{
    if b.line_occupied(d, lane, c - 1) {
        lemma_run_before(b, d, lane, c - 1);
        assert forall|j: int| 1 <= j <= b.run_before(d, lane, c) implies #[trigger] b.line_occupied(d, lane, c - j) by {
            if j > 1 {
                assert(b.line_occupied(d, lane, (c - 1) - (j - 1)));
            }
        }
    }
}

/// Walks the squares of a line of the board, from a position on in a direction, for
/// a number of squares.
pub struct BoardIter<'b> {
    board: &'b Board,
    pos: Pos,
    dir: Direction,
    length: i32,
}

impl<'b> BoardIter<'b> {
    #[verifier::type_invariant]
    spec fn inv(self) -> bool {
        &&& is_hv(self.dir)
        &&& self.length >= 0
        &&& self.length > 0 ==> on_board(self.pos.x as int, self.pos.y as int)
            && coord_of(self.pos, self.dir) + self.length <= 15
    }

    /// The squares that are still to come.
    pub closed spec fn remaining(self) -> Seq<BoardSquare> {
        self.board.segment(self.dir, lane_of(self.pos, self.dir), coord_of(self.pos, self.dir), self.length as int)
    }

    /// The next square, if any is left.
    pub fn next(&mut self) -> (r: Option<BoardSquare>)
        ensures
            old(self).remaining().len() == 0 ==> r is None && final(self).remaining() == old(self).remaining(),
            old(self).remaining().len() > 0 ==> r == Some(old(self).remaining()[0])
                && final(self).remaining() == old(self).remaining().drop_first(),
    {
        proof {
            use_type_invariant(&*self);
        }
        if self.length == 0 {
            None
        } else {
            let ch = self.board.get(&self.pos);
            let pos = Pos::new(self.pos.x + self.dir.dx, self.pos.y + self.dir.dy);
            *self = BoardIter { board: self.board, pos, dir: self.dir, length: self.length - 1 };
            proof {
                assert(self.remaining() =~= old(self).remaining().drop_first());
            }
            Some(ch)
        }
    }

    /// All the squares that are still to come.
    pub fn squares(self) -> (r: Vec<BoardSquare>)
        ensures
            r@ == self.remaining(),
    {
        let ghost all = self.remaining();
        let mut it = self;
        let mut out: Vec<BoardSquare> = Vec::new();
        loop
            invariant
                out@ + it.remaining() == all,
            ensures
                out@ == all,
            decreases it.remaining().len(),
        {
            let n = it.next();
            match n {
                Some(sq) => {
                    out.push(sq);
                },
                None => {
                    assert(it.remaining().len() == 0);
                    assert(out@ + it.remaining() == out@);
                    break;
                },
            }
        }
        out
    }
}

impl Board {
    /// Where the run of tiles from `pos` on in direction `dir` ends: the column (for
    /// a step along a row) or row (along a column) of its last tile, or of `pos` if
    /// the next square holds none.
    fn find_next_empty_index(&self, pos: &Pos, dir: Direction) -> (r: i32)
        requires
            on_board(pos.x as int, pos.y as int),
            is_step(dir),
        ensures
            dir == spec_horizontal() ==> r == pos.x + self.run_after(dir, pos.y as int, pos.x as int),
            dir == spec_vertical() ==> r == pos.y + self.run_after(dir, pos.x as int, pos.y as int),
            dir.dx == -1 && dir.dy == 0 ==> r == pos.x - self.run_before(spec_horizontal(), pos.y as int, pos.x as int),
            dir.dx == 0 && dir.dy == -1 ==> r == pos.y - self.run_before(spec_vertical(), pos.x as int, pos.y as int),
    {
        let ghost h = spec_horizontal();
        let ghost v = spec_vertical();
        let mut p = Pos::new(pos.x + dir.dx, pos.y + dir.dy);
        let ghost mut k: int = 0;
        while self.is_occupied(&p)
            invariant
                on_board(pos.x as int, pos.y as int),
                is_step(dir),
                h == spec_horizontal(),
                v == spec_vertical(),
                0 <= k <= 14,
                dir == h ==> p.y == pos.y && p.x == pos.x + k + 1
                    && self.run_after(h, pos.y as int, pos.x as int) == k + self.run_after(h, pos.y as int, p.x - 1),
                dir == v ==> p.x == pos.x && p.y == pos.y + k + 1
                    && self.run_after(v, pos.x as int, pos.y as int) == k + self.run_after(v, pos.x as int, p.y - 1),
                dir.dx == -1 && dir.dy == 0 ==> p.y == pos.y && p.x == pos.x - k - 1
                    && self.run_before(h, pos.y as int, pos.x as int) == k + self.run_before(h, pos.y as int, p.x + 1),
                dir.dx == 0 && dir.dy == -1 ==> p.x == pos.x && p.y == pos.y - k - 1
                    && self.run_before(v, pos.x as int, pos.y as int) == k + self.run_before(v, pos.x as int, p.y + 1),
            decreases 14 - k,
        {
            p = Pos::new(p.x + dir.dx, p.y + dir.dy);
            proof {
                k = k + 1;
            }
        }
        if dir.dx != 0 {
            p.x - dir.dx
        } else {
            p.y - dir.dy
        }
    }

    /// The first and last place of the run of tiles through `pos` along `dir`,
    /// counting `pos` itself.
    fn start_end(&self, pos: &Pos, dir: Direction) -> (r: (i32, i32))
        requires
            on_board(pos.x as int, pos.y as int),
            is_hv(dir),
        ensures
            r.0 == coord_of(*pos, dir) - self.run_before(dir, lane_of(*pos, dir), coord_of(*pos, dir)),
            r.1 == coord_of(*pos, dir) + self.run_after(dir, lane_of(*pos, dir), coord_of(*pos, dir)),
    {
        let e = self.find_next_empty_index(pos, dir);
        let back = Direction { dx: -dir.dx, dy: -dir.dy };
        let s = self.find_next_empty_index(pos, back);
        (s, e)
    }

    /// The squares of a line: from `pos` on, `length` of them, in direction `dir`.
    pub fn get_board_iter(&self, pos: Pos, length: i32, dir: Direction) -> (r: BoardIter<'_>)
        requires
            is_hv(dir),
            length >= 0,
            length > 0 ==> on_board(pos.x as int, pos.y as int) && coord_of(pos, dir) + length <= 15,
        ensures
            r.remaining() == self.segment(dir, lane_of(pos, dir), coord_of(pos, dir), length as int),
    {
        BoardIter { board: self, pos, length, dir }
    }

    /// The run of tiles through `pos` along `dir`, `pos` itself included: where it
    /// starts (column and row) and its squares. `None` when `pos` has no tile next to
    /// it along `dir`.
    pub fn get_surrounding_letters_pos(&self, pos: &Pos, dir: Direction) -> (r: Option<(i32, i32, BoardIter<'_>)>)
        requires
            on_board(pos.x as int, pos.y as int),
            is_hv(dir),
        ensures
            ({
                let lane = lane_of(*pos, dir);
                let c = coord_of(*pos, dir);
                let before = self.run_before(dir, lane, c);
                let after = self.run_after(dir, lane, c);
                &&& r is None <==> before + after == 0
                &&& r matches Some((cx, cy, it)) ==> {
                    &&& (if dir == spec_horizontal() { cx == c - before && cy == pos.y } else { cx == pos.x && cy == c - before })
                    &&& it.remaining() == self.segment(dir, lane, c - before, (before + after + 1) as int)
                }
            }),
    {
        let ghost lane = lane_of(*pos, dir);
        let ghost c = coord_of(*pos, dir);
        proof {
            lemma_run_after(*self, dir, lane, c);
            lemma_run_before(*self, dir, lane, c);
        }
        let (s, e) = self.start_end(pos, dir);
        let length = e - s + 1;
        if length <= 1 {
            None
        } else {
            let (cx, cy) = if dir.dx == 1 && dir.dy == 0 {
                (s, pos.y)
            } else {
                (pos.x, s)
            };
            let start = Pos::new(cx, cy);
            Some((cx, cy, self.get_board_iter(start, length, dir)))
        }
    }

    /// The squares of the run of tiles through `pos` along `dir`, `pos` itself
    /// included, see `get_surrounding_letters_pos`.
    pub fn get_surrounding_letters(&self, pos: &Pos, dir: Direction) -> (r: Option<BoardIter<'_>>)
        requires
            on_board(pos.x as int, pos.y as int),
            is_hv(dir),
        ensures
            ({
                let lane = lane_of(*pos, dir);
                let c = coord_of(*pos, dir);
                let before = self.run_before(dir, lane, c);
                let after = self.run_after(dir, lane, c);
                &&& r is None <==> before + after == 0
                &&& r matches Some(it) ==> it.remaining() == self.segment(dir, lane, c - before, (before + after + 1) as int)
            }),
    {
        match self.get_surrounding_letters_pos(pos, dir) {
            Some((_, _, word)) => Some(word),
            None => None,
        }
    }
}


/// The tiles that the characters of `w` denote.
pub open spec fn word_tiles(w: Seq<char>) -> Seq<Tile> {
    w.map_values(|ch: char| char_tile(ch))
}

/// The square at column `x`, row `y` of `b` once `tiles` are laid from place `start`
/// of line `lane` in direction `d`.
pub open spec fn laid_square(b: Board, d: Direction, lane: int, start: int, tiles: Seq<Tile>, x: int, y: int) -> BoardSquare {
    let l = if d == spec_horizontal() { y } else { x };
    let c = if d == spec_horizontal() { x } else { y };
    if l == lane && start <= c < start + tiles.len() {
        with_tile(b.square(x, y), tiles[c - start])
    } else {
        b.square(x, y)
    }
}

/// True iff `n` squares from `pos` on along `d` are all on the board.
pub open spec fn fits_line(pos: Pos, d: Direction, n: int) -> bool {
    n == 0 || (on_board(pos.x as int, pos.y as int) && coord_of(pos, d) + n <= 15)
}

/// The points a tile is worth: its letter's value, nothing for a wildcard.
pub open spec fn tile_value(t: Tile) -> int {
    match t {
        Tile::Letter(ch) => letter_value(ch) as int,
        Tile::Wildcard(_) => 0,
    }
}

/// Three to the power `n`.
pub open spec fn pow3(n: nat) -> int
    decreases n,
{
    if n == 0 { 1 } else { 3 * pow3((n - 1) as nat) }
}

/// The parts of the score of `tiles` laid from place `start` of line `lane` in
/// direction `d` on `b`: the sum of the tiles' points, each placed tile's multiplied
/// by its square's letter bonus; the product of the word bonuses of the squares
/// that receive a tile; and how many tiles are placed. Squares that hold a tile
/// already count the tile's points as they are.
pub open spec fn word_parts(b: Board, tiles: Seq<Tile>, d: Direction, lane: int, start: int) -> (int, int, int)
    decreases tiles.len(),
{
    if tiles.len() == 0 {
        (0, 1, 0)
    } else {
        let (wp, wm, n) = word_parts(b, tiles.drop_last(), d, lane, start);
        let c = start + tiles.len() - 1;
        let sq = b.line_square(d, lane, c);
        let v = tile_value(tiles.last());
        if b.line_free(d, lane, c) {
            (wp + v * sq.letter_bonus, wm * sq.word_bonus, n + 1)
        } else {
            (wp + v, wm, n)
        }
    }
}

/// The score of laying `tiles` from place `start` of line `lane` in direction `d`:
/// the points times the word bonuses, and 40 more when seven or more tiles are
/// placed, see `word_parts`.
pub open spec fn straight_score(b: Board, tiles: Seq<Tile>, d: Direction, lane: int, start: int) -> int {
    let (wp, wm, n) = word_parts(b, tiles, d, lane, start);
    wp * wm + if n >= 7 { 40int } else { 0int }
}

/// The tiles of the run of `len` squares from place `start` of line `lane` in
/// direction `d`, with `t` in the square that holds none.
pub open spec fn cross_tiles(b: Board, d: Direction, lane: int, start: int, len: int, t: Tile) -> Seq<Tile> {
    Seq::new(len as nat, |j: int| match b.line_square(d, lane, start + j).tile {
        Some(u) => u,
        None => t,
    })
}

/// The score of the word that laying `t` at place `c` of line `lane` in direction
/// `d` forms across: nothing when the square holds a tile already or has no tile
/// next to it across.
pub open spec fn cross_score(b: Board, t: Tile, d: Direction, lane: int, c: int) -> int {
    let fd = across(d);
    let before = b.run_before(fd, c, lane);
    let after = b.run_after(fd, c, lane);
    if b.line_free(d, lane, c) && before + after > 0 {
        straight_score(b, cross_tiles(b, fd, c, lane - before, (before + after + 1) as int, t), fd, c, lane - before)
    } else {
        0
    }
}

/// The scores of the crossing words of the first `k` of `tiles`, added up.
pub open spec fn cross_total(b: Board, tiles: Seq<Tile>, d: Direction, lane: int, start: int, k: int) -> int
    decreases k,
{
    if k <= 0 {
        0
    } else {
        cross_total(b, tiles, d, lane, start, k - 1) + cross_score(b, tiles[k - 1], d, lane, start + k - 1)
    }
}

/// The score of laying `tiles` from place `start` of line `lane` in direction `d`:
/// the word itself and every word formed across it.
pub open spec fn total_score(b: Board, tiles: Seq<Tile>, d: Direction, lane: int, start: int) -> int {
    straight_score(b, tiles, d, lane, start) + cross_total(b, tiles, d, lane, start, tiles.len() as int)
}

/// Powers of three up to the fifteenth stay below 14348908.
proof fn lemma_pow3(n: nat)
    requires
        n <= 15,
    ensures
        1 <= pow3(n) <= 14348907,
        pow3(n) * 3 <= 14348907 * 3,
    decreases 15 - n,
{
    if n == 15 {
        reveal_with_fuel(pow3, 16);
    } else {
        lemma_pow3(n + 1);
        assert(pow3(n + 1) == 3 * pow3(n));
    }
}

/// A letter is worth at most 8 points.
proof fn lemma_tile_value(t: Tile)
    ensures
        0 <= tile_value(t) <= 8,
{
}

/// The parts of a score are bounded by the number of tiles.
proof fn lemma_word_parts(b: Board, tiles: Seq<Tile>, d: Direction, lane: int, start: int)
    requires
        b.bonuses_ok(),
        tiles.len() <= 15,
    ensures
        0 <= word_parts(b, tiles, d, lane, start).0 <= 24 * tiles.len(),
        1 <= word_parts(b, tiles, d, lane, start).1 <= pow3(tiles.len()),
        0 <= word_parts(b, tiles, d, lane, start).2 <= tiles.len(),
        straight_score(b, tiles, d, lane, start) >= 0,
    decreases tiles.len(),
{
    if tiles.len() > 0 {
        let pre = tiles.drop_last();
        lemma_word_parts(b, pre, d, lane, start);
        let (wp, wm, n) = word_parts(b, pre, d, lane, start);
        let c = start + tiles.len() - 1;
        let sq = b.line_square(d, lane, c);
        let v = tile_value(tiles.last());
        lemma_tile_value(tiles.last());
        lemma_pow3(pre.len());
        if b.line_free(d, lane, c) {
            assert(bonus_ok(sq));
            assert(0 <= v * sq.letter_bonus <= 24) by (nonlinear_arith)
                requires
                    0 <= v <= 8,
                    1 <= sq.letter_bonus <= 3,
            ;
            assert(1 <= wm * sq.word_bonus <= pow3(pre.len()) * 3) by (nonlinear_arith)
                requires
                    1 <= wm <= pow3(pre.len()),
                    1 <= sq.word_bonus <= 3,
            ;
        }
    }
    let (wp, wm, n) = word_parts(b, tiles, d, lane, start);
    assert(wp * wm >= 0) by (nonlinear_arith)
        requires
            wp >= 0,
            wm >= 1,
    ;
}

/// Scores of crossing words are never negative.
proof fn lemma_cross_total(b: Board, tiles: Seq<Tile>, d: Direction, lane: int, start: int, k: int)
    requires
        b.bonuses_ok(),
        is_hv(d),
    ensures
        cross_total(b, tiles, d, lane, start, k) >= 0,
        forall|j: int| 0 <= j <= k ==> #[trigger] cross_total(b, tiles, d, lane, start, j) <= cross_total(b, tiles, d, lane, start, k),
    decreases k,
{
    if k > 0 {
        lemma_cross_total(b, tiles, d, lane, start, k - 1);
        lemma_cross_score(b, tiles[k - 1], d, lane, start + k - 1);
    }
}

/// The score of a crossing word is never negative.
proof fn lemma_cross_score(b: Board, t: Tile, d: Direction, lane: int, c: int)
    requires
        b.bonuses_ok(),
        is_hv(d),
    ensures
        cross_score(b, t, d, lane, c) >= 0,
{
    let fd = across(d);
    let before = b.run_before(fd, c, lane);
    let after = b.run_after(fd, c, lane);
    if b.line_free(d, lane, c) && before + after > 0 {
        lemma_run_after(b, fd, c, lane);
        lemma_run_before(b, fd, c, lane);
        lemma_word_parts(b, cross_tiles(b, fd, c, lane - before, (before + after + 1) as int, t), fd, c, lane - before);
    }
}

/// The score of the word that laying `t` on the square at place `c` of line `lane`
/// along `d` forms across it: the tiles next to the square across, one after another
/// on both sides, with `t` in its place, scored as a word laid across.
pub open spec fn crossing_word_score(b: Board, t: Tile, d: Direction, lane: int, c: int) -> int {
    let fd = across(d);
    let before = b.run_before(fd, c, lane);
    let after = b.run_after(fd, c, lane);
    straight_score(b, cross_tiles(b, fd, c, lane - before, (before + after + 1) as int, t), fd, c, lane - before)
}

/// True iff the square at place `c` of line `lane` along `d` receives a new tile and
/// has a tile next to it across, so that a new word is formed across it.
pub open spec fn forms_crossing(b: Board, d: Direction, lane: int, c: int) -> bool {
    !b.line_occupied(d, lane, c) && b.run_before(across(d), c, lane) + b.run_after(across(d), c, lane) > 0
}

/// The scores of the new words formed across the first `k` squares of a play.
pub open spec fn new_crossings(b: Board, tiles: Seq<Tile>, d: Direction, lane: int, start: int, k: int) -> int
    decreases k,
{
    if k <= 0 {
        0
    } else {
        new_crossings(b, tiles, d, lane, start, k - 1) + if forms_crossing(b, d, lane, start + k - 1) {
            crossing_word_score(b, tiles[k - 1], d, lane, start + k - 1)
        } else {
            0
        }
    }
}

/// The score of a play on the board is the score of the word itself plus, for each
/// square of the word that was empty before the play and has tiles next to it across,
/// the score of the word formed across it. A square that holds a tile already adds
/// no crossing word: its word across was scored when it was played.
pub proof fn lemma_play_score(b: Board, tiles: Seq<Tile>, d: Direction, lane: int, start: int)
    requires
        is_hv(d),
        tiles.len() == 0 || (0 <= lane < 15 && 0 <= start && start + tiles.len() <= 15),
    ensures
        total_score(b, tiles, d, lane, start) == straight_score(b, tiles, d, lane, start) + new_crossings(
            b, tiles, d, lane, start, tiles.len() as int),
{
    lemma_cross_total_new(b, tiles, d, lane, start, tiles.len() as int);
}

/// The crossing scores counted so far are those of the new crossing words.
proof fn lemma_cross_total_new(b: Board, tiles: Seq<Tile>, d: Direction, lane: int, start: int, k: int)
    requires
        is_hv(d),
        k <= tiles.len(),
        tiles.len() == 0 || (0 <= lane < 15 && 0 <= start && start + tiles.len() <= 15),
    ensures
        cross_total(b, tiles, d, lane, start, k) == new_crossings(b, tiles, d, lane, start, k),
    decreases k,
{
    if k > 0 {
        lemma_cross_total_new(b, tiles, d, lane, start, k - 1);
        let c = start + k - 1;
        assert(b.line_free(d, lane, c) <==> !b.line_occupied(d, lane, c));
    }
}

/// A play that puts no new tile on the board, laying its word over tiles that are
/// there already, forms no new word across: it scores just its own word.
pub proof fn lemma_no_new_tile_no_crossing(b: Board, tiles: Seq<Tile>, d: Direction, lane: int, start: int)
    requires
        is_hv(d),
        tiles.len() == 0 || (0 <= lane < 15 && 0 <= start && start + tiles.len() <= 15),
        forall|j: int| 0 <= j < tiles.len() ==> #[trigger] b.line_occupied(d, lane, start + j),
    ensures
        total_score(b, tiles, d, lane, start) == straight_score(b, tiles, d, lane, start),
{
    lemma_play_score(b, tiles, d, lane, start);
    lemma_new_crossings_none(b, tiles, d, lane, start, tiles.len() as int);
}

/// Over squares that all hold tiles, no new crossing word is counted.
proof fn lemma_new_crossings_none(b: Board, tiles: Seq<Tile>, d: Direction, lane: int, start: int, k: int)
    requires
        k <= tiles.len(),
        forall|j: int| 0 <= j < tiles.len() ==> #[trigger] b.line_occupied(d, lane, start + j),
    ensures
        new_crossings(b, tiles, d, lane, start, k) == 0,
    decreases k,
{
    if k > 0 {
        lemma_new_crossings_none(b, tiles, d, lane, start, k - 1);
        assert(b.line_occupied(d, lane, start + (k - 1)));
    }
}

impl Board {
    /// Lays `word` from `pos` on along `dir`: each character's tile goes on its
    /// square unless that square holds the same tile already.
    pub fn play_word(&mut self, pos: &Pos, dir: Direction, word: &str)
        requires
            is_hv(dir),
            fits_line(*pos, dir, word@.len() as int),
            forall|i: int| 0 <= i < word@.len() ==> (old(self).line_square(dir, lane_of(*pos, dir), coord_of(*pos, dir) + i).tile
                matches Some(t) ==> t == char_tile(#[trigger] word@[i])),
        ensures
            forall|x: int, y: int| on_board(x, y) ==> #[trigger] final(self).square(x, y) == laid_square(
                *old(self), dir, lane_of(*pos, dir), coord_of(*pos, dir), word_tiles(word@), x, y),
    {
        let ghost lane = lane_of(*pos, dir);
        let ghost start = coord_of(*pos, dir);
        let ghost tiles = word_tiles(word@);
        let chars = chars_of(word);
        let mut p = *pos;
        let mut i: usize = 0;
        while i < chars.len()
            invariant
                is_hv(dir),
                chars@ == word@,
                tiles == word_tiles(word@),
                lane == lane_of(*pos, dir),
                start == coord_of(*pos, dir),
                fits_line(*pos, dir, word@.len() as int),
                i <= chars.len(),
                lane_of(p, dir) == lane,
                coord_of(p, dir) == start + i,
                dir == spec_horizontal() ==> p.y == pos.y,
                dir == spec_vertical() ==> p.x == pos.x,
                forall|j: int| 0 <= j < word@.len() ==> (old(self).line_square(dir, lane, start + j).tile
                    matches Some(t) ==> t == char_tile(#[trigger] word@[j])),
                forall|x: int, y: int| on_board(x, y) ==> #[trigger] self.square(x, y) == laid_square(
                    *old(self), dir, lane, start, tiles.take(i as int), x, y),
            decreases chars.len() - i,
        {
            let tile = tile_of(chars[i]);
            let prev = self.get(&p).tile;
            let ghost before_set = *self;
            proof {
                assert(self.square(p.x as int, p.y as int) == old(self).square(p.x as int, p.y as int));
            }
            if prev.is_none() {
                self.set(&p, tile);
            }
            proof {
                let t2 = tiles.take(i + 1);
                assert(t2[i as int] == tile);
                assert forall|x: int, y: int| on_board(x, y) implies #[trigger] self.square(x, y) == laid_square(
                    *old(self), dir, lane, start, t2, x, y) by {
                    assert(before_set.square(x, y) == laid_square(*old(self), dir, lane, start, tiles.take(i as int), x, y));
                    if x == p.x && y == p.y {
                    } else {
                        let l = if dir == spec_horizontal() { y } else { x };
                        let c = if dir == spec_horizontal() { x } else { y };
                        if l == lane && start <= c < start + i {
                            assert(t2[c - start] == tiles.take(i as int)[c - start]);
                        }
                    }
                }
            }
            p = Pos::new(p.x + dir.dx, p.y + dir.dy);
            i = i + 1;
        }
        proof {
            assert(tiles.take(word@.len() as int) == tiles);
        }
    }

    /// The points of a tile: its letter's value, nothing for a wildcard.
    pub fn get_letter_points(&self, tile: Tile) -> (r: i32)
        ensures
            r == tile_value(tile),
    {
        match tile {
            Tile::Letter(ch) => letter_points(ch),
            Tile::Wildcard(_) => 0,
        }
    }

    /// The score of laying `word` from `pos` on along `dir`, not counting the words
    /// formed across it, see `straight_score`.
    pub fn calc_word_points_straight(&self, word: &[Tile], pos: &Pos, dir: Direction) -> (r: i32)
        requires
            is_hv(dir),
            fits_line(*pos, dir, word@.len() as int),
            fits_i32(straight_score(*self, word@, dir, lane_of(*pos, dir), coord_of(*pos, dir))),
        ensures
            r == straight_score(*self, word@, dir, lane_of(*pos, dir), coord_of(*pos, dir)),
    {
        proof {
            use_type_invariant(self);
            self.lemma_bonuses();
        }
        let ghost lane = lane_of(*pos, dir);
        let ghost start = coord_of(*pos, dir);
        let mut p = *pos;
        let mut word_mult: i32 = 1;
        let mut word_points: i32 = 0;
        let mut num_tiles: i32 = 0;
        let mut i: usize = 0;
        while i < word.len()
            invariant
                is_hv(dir),
                self.bonuses_ok(),
                lane == lane_of(*pos, dir),
                start == coord_of(*pos, dir),
                fits_line(*pos, dir, word@.len() as int),
                i <= word.len(),
                lane_of(p, dir) == lane,
                coord_of(p, dir) == start + i,
                dir == spec_horizontal() ==> p.y == pos.y,
                dir == spec_vertical() ==> p.x == pos.x,
                (word_points as int, word_mult as int, num_tiles as int) == word_parts(*self, word@.take(i as int), dir, lane, start),
            decreases word.len() - i,
        {
            let ch = word[i];
            let ghost pre = word@.take(i as int);
            let ghost next = word@.take(i + 1);
            proof {
                assert(next.drop_last() == pre);
                assert(next.last() == ch);
                lemma_word_parts(*self, next, dir, lane, start);
                lemma_pow3(next.len());
            }
            let mut ch_points = self.get_letter_points(ch);
            if self.is_free(&p) {
                let square = self.get(&p);
                proof {
                    assert(square == self.line_square(dir, lane, start + i));
                }
                ch_points = ch_points * square.letter_bonus;
                word_mult = word_mult * square.word_bonus;
                num_tiles = num_tiles + 1;
            }
            word_points = word_points + ch_points;
            p = Pos::new(p.x + dir.dx, p.y + dir.dy);
            i = i + 1;
        }
        proof {
            assert(word@.take(word.len() as int) == word@);
            lemma_word_parts(*self, word@, dir, lane, start);
            assert(0 <= word_points * word_mult <= straight_score(*self, word@, dir, lane, start)) by (nonlinear_arith)
                requires
                    word_points >= 0,
                    word_mult >= 1,
                    straight_score(*self, word@, dir, lane, start) == word_points * word_mult + if num_tiles >= 7 { 40int } else { 0int },
            ;
        }
        let mut points: i32 = word_points * word_mult;
        if num_tiles >= 7 {
            points = points + 40;
        }
        points
    }
}


/// The tiles of `squares`, with `t` in those that hold none.
fn fill_gaps(squares: &[BoardSquare], t: Tile) -> (r: Vec<Tile>)
    ensures
        r@ == Seq::new(squares@.len(), |j: int| match squares@[j].tile {
            Some(u) => u,
            None => t,
        }),
{
    let mut out: Vec<Tile> = Vec::new();
    let mut i: usize = 0;
    while i < squares.len()
        invariant
            i <= squares.len(),
            out@ == Seq::new(i as nat, |j: int| match squares@[j].tile {
                Some(u) => u,
                None => t,
            }),
        decreases squares.len() - i,
    {
        let tile = match squares[i].tile {
            Some(u) => u,
            None => t,
        };
        out.push(tile);
        i = i + 1;
    }
    out
}

/// The characters of the first `n` squares of row `y`, separated by spaces.
pub open spec fn row_text(b: Board, y: int, n: int) -> Seq<char>
    decreases n,
{
    if n <= 0 {
        Seq::empty()
    } else if n == 1 {
        seq![square_char(b.square(0, y))]
    } else {
        row_text(b, y, n - 1) + seq![' ', square_char(b.square(n - 1, y))]
    }
}

/// The first `m` rows of the board, each as `row_text` followed by a line break.
pub open spec fn board_text(b: Board, m: int) -> Seq<char>
    decreases m,
{
    if m <= 0 {
        Seq::empty()
    } else {
        board_text(b, m - 1) + row_text(b, m - 1, 15) + seq!['\n']
    }
}

impl Board {
    /// The score of laying `word` from `pos` on along `dir`: the word itself and
    /// every new word formed across it, see `total_score` and `lemma_play_score`.
    pub fn calc_word_points(&self, word: &[Tile], pos: &Pos, dir: Direction) -> (r: i32)
        requires
            is_hv(dir),
            fits_line(*pos, dir, word@.len() as int),
            fits_i32(total_score(*self, word@, dir, lane_of(*pos, dir), coord_of(*pos, dir))),
        ensures
            r == total_score(*self, word@, dir, lane_of(*pos, dir), coord_of(*pos, dir)),
            r == straight_score(*self, word@, dir, lane_of(*pos, dir), coord_of(*pos, dir)) + new_crossings(
                *self, word@, dir, lane_of(*pos, dir), coord_of(*pos, dir), word@.len() as int),
    {
        proof {
            use_type_invariant(self);
            self.lemma_bonuses();
            lemma_play_score(*self, word@, dir, lane_of(*pos, dir), coord_of(*pos, dir));
        }
        let ghost lane = lane_of(*pos, dir);
        let ghost start = coord_of(*pos, dir);
        let ghost n = word@.len() as int;
        proof {
            lemma_word_parts(*self, word@, dir, lane, start);
            lemma_cross_total(*self, word@, dir, lane, start, n);
        }
        let mut points = self.calc_word_points_straight(word, pos, dir);
        let fd = dir.flip();
        let mut p = *pos;
        let mut i: usize = 0;
        while i < word.len()
            invariant
                is_hv(dir),
                fd == across(dir),
                self.bonuses_ok(),
                lane == lane_of(*pos, dir),
                start == coord_of(*pos, dir),
                n == word@.len(),
                fits_line(*pos, dir, n),
                fits_i32(total_score(*self, word@, dir, lane, start)),
                forall|j: int| 0 <= j <= n ==> #[trigger] cross_total(*self, word@, dir, lane, start, j)
                    <= cross_total(*self, word@, dir, lane, start, n),
                straight_score(*self, word@, dir, lane, start) >= 0,
                i <= word.len(),
                lane_of(p, dir) == lane,
                coord_of(p, dir) == start + i,
                dir == spec_horizontal() ==> p.y == pos.y,
                dir == spec_vertical() ==> p.x == pos.x,
                points == straight_score(*self, word@, dir, lane, start) + cross_total(*self, word@, dir, lane, start, i as int),
            decreases word.len() - i,
        {
            let ch = word[i];
            let ghost c = start + i;
            proof {
                lemma_cross_score(*self, ch, dir, lane, c);
                lemma_cross_total(*self, word@, dir, lane, start, i as int);
                assert(cross_total(*self, word@, dir, lane, start, i + 1) == cross_total(*self, word@, dir, lane, start, i as int)
                    + cross_score(*self, ch, dir, lane, c));
                assert(cross_total(*self, word@, dir, lane, start, i + 1) <= cross_total(*self, word@, dir, lane, start, n));
            }
            if self.is_free(&p) {
                proof {
                    assert(self.line_free(dir, lane, c));
                    assert(lane_of(p, fd) == c);
                    assert(coord_of(p, fd) == lane);
                }
                match self.get_surrounding_letters_pos(&p, fd) {
                    Some((cx, cy, crossing)) => {
                        let ghost before = self.run_before(fd, c, lane);
                        let ghost after = self.run_after(fd, c, lane);
                        proof {
                            lemma_run_after(*self, fd, c, lane);
                            lemma_run_before(*self, fd, c, lane);
                        }
                        let squares = crossing.squares();
                        let tiles = fill_gaps(squares.as_slice(), ch);
                        let cpos = Pos::new(cx, cy);
                        proof {
                            assert(lane_of(cpos, fd) == c);
                            assert(coord_of(cpos, fd) == lane - before);
                            assert(tiles@ == cross_tiles(*self, fd, c, lane - before, (before + after + 1) as int, ch));
                        }
                        let cp = self.calc_word_points_straight(tiles.as_slice(), &cpos, fd);
                        points = points + cp;
                    },
                    None => {},
                }
            }
            p = Pos::new(p.x + dir.dx, p.y + dir.dy);
            i = i + 1;
        }
        points
    }

    /// The board written out: one line per row, each square as its character (see
    /// `square_char`), separated by spaces.
    pub fn to_string(&self) -> (r: String)
        ensures
            r@ == board_text(*self, 15),
    {
        proof {
            use_type_invariant(self);
            self.lemma_bonuses();
        }
        let mut s = String::new();
        let mut y: i32 = 0;
        while y < 15
            invariant
                0 <= y <= 15,
                self.bonuses_ok(),
                s@ == board_text(*self, y as int),
            decreases 15 - y,
        {
            let mut x: i32 = 0;
            while x < 15
                invariant
                    0 <= y < 15,
                    0 <= x <= 15,
                    self.bonuses_ok(),
                    s@ == board_text(*self, y as int) + row_text(*self, y as int, x as int),
                decreases 15 - x,
            {
                if x > 0 {
                    push_char(&mut s, ' ');
                }
                let sq = self.get(&Pos::new(x, y));
                assert(bonus_ok(sq));
                push_char(&mut s, sq.to_char());
                x = x + 1;
            }
            push_char(&mut s, '\n');
            y = y + 1;
        }
        s
    }
}


/// The default board looks the same mirrored left to right and mirrored top to
/// bottom.
pub proof fn lemma_default_symmetric(x: int, y: int)
    requires
        on_board(x, y),
    ensures
        default_square(x, y) == default_square(14 - x, y),
        default_square(x, y) == default_square(x, 14 - y),
{
    assert(fold(14 - x) == fold(x));
    assert(fold(14 - y) == fold(y));
}

/// A square description that reads is written back the same, unless its digit is 1
/// (a bonus of 1 is no bonus, and is written `"--"`).
pub proof fn lemma_square_text_round_trip(c: Seq<char>)
    requires
        square_of(c) is Some,
        c[0] != '1',
    ensures
        square_text(square_of(c)->0) == c,
{
    if c.len() == 2 && c[0] == '-' && c[1] == '-' {
        assert(square_text(square_of(c)->0) =~= c);
    } else {
        let v = c[0] as int - 48;
        assert(0 <= v <= 9);
        assert(v != 1);
        assert(digit_char(v) == c[0]);
        assert(square_text(square_of(c)->0) =~= c);
    }
}

/// The crossing words never lower a score: the score of a word alone is never
/// negative, and the full score is at least that.
pub proof fn lemma_total_at_least_straight(b: Board, tiles: Seq<Tile>, d: Direction, lane: int, start: int)
    requires
        b.bonuses_ok(),
        is_hv(d),
        tiles.len() <= 15,
    ensures
        0 <= straight_score(b, tiles, d, lane, start) <= total_score(b, tiles, d, lane, start),
{
    lemma_word_parts(b, tiles, d, lane, start);
    lemma_cross_total(b, tiles, d, lane, start, tiles.len() as int);
}

/// A run of exactly `k` tiles after `c` is counted as `k`.
proof fn lemma_run_after_exact(b: Board, d: Direction, lane: int, c: int, k: int)
    requires
        k >= 0,
        forall|j: int| 1 <= j <= k ==> #[trigger] b.line_occupied(d, lane, c + j),
        !b.line_occupied(d, lane, c + k + 1),
    ensures
        b.run_after(d, lane, c) == k,
    decreases k,
{
    if k > 0 {
        assert(b.line_occupied(d, lane, c + 1));
        assert forall|j: int| 1 <= j <= k - 1 implies #[trigger] b.line_occupied(d, lane, (c + 1) + j) by {
            assert(b.line_occupied(d, lane, c + (j + 1)));
        }
        lemma_run_after_exact(b, d, lane, c + 1, k - 1);
    }
}

/// A run of exactly `k` tiles before `c` is counted as `k`.
proof fn lemma_run_before_exact(b: Board, d: Direction, lane: int, c: int, k: int)
    requires
        k >= 0,
        forall|j: int| 1 <= j <= k ==> #[trigger] b.line_occupied(d, lane, c - j),
        !b.line_occupied(d, lane, c - k - 1),
    ensures
        b.run_before(d, lane, c) == k,
    decreases k,
{
    if k > 0 {
        assert(b.line_occupied(d, lane, c - 1));
        assert forall|j: int| 1 <= j <= k - 1 implies #[trigger] b.line_occupied(d, lane, (c - 1) - j) by {
            assert(b.line_occupied(d, lane, c - (j + 1)));
        }
        lemma_run_before_exact(b, d, lane, c - 1, k - 1);
    }
}

/// A word laid on a line with no tile right before or right after it reads back
/// whole: from any of its squares, the run of tiles along the line is exactly the
/// word's tiles.
pub proof fn lemma_laid_word_reads_back(
    b: Board,
    after: Board,
    d: Direction,
    lane: int,
    start: int,
    tiles: Seq<Tile>,
    i: int,
)
    requires
        is_hv(d),
        0 <= lane < 15,
        0 <= start,
        start + tiles.len() <= 15,
        0 <= i < tiles.len(),
        forall|x: int, y: int| on_board(x, y) ==> #[trigger] after.square(x, y) == laid_square(b, d, lane, start, tiles, x, y),
        !b.line_occupied(d, lane, start - 1),
        !b.line_occupied(d, lane, start + tiles.len()),
    ensures
        after.run_before(d, lane, start + i) == i,
        after.run_after(d, lane, start + i) == tiles.len() - 1 - i,
        after.segment(d, lane, start, tiles.len() as int).map_values(|sq: BoardSquare| sq.tile)
            == tiles.map_values(|t: Tile| Some(t)),
{
    let n = tiles.len() as int;
    assert forall|c: int| start <= c < start + n implies #[trigger] after.line_square(d, lane, c) == with_tile(
        b.line_square(d, lane, c), tiles[c - start]) by {
        if d == spec_horizontal() {
            assert(after.square(c, lane) == laid_square(b, d, lane, start, tiles, c, lane));
        } else {
            assert(after.square(lane, c) == laid_square(b, d, lane, start, tiles, lane, c));
        }
    }
    assert forall|c: int| start <= c < start + n implies #[trigger] after.line_occupied(d, lane, c) by {
        assert(after.line_square(d, lane, c).tile is Some);
    }
    assert(!after.line_occupied(d, lane, start - 1)) by {
        if on_board(if d == spec_horizontal() { start - 1 } else { lane }, if d == spec_horizontal() { lane } else { start - 1 }) {
            if d == spec_horizontal() {
                assert(after.square(start - 1, lane) == laid_square(b, d, lane, start, tiles, start - 1, lane));
            } else {
                assert(after.square(lane, start - 1) == laid_square(b, d, lane, start, tiles, lane, start - 1));
            }
        }
    }
    assert(!after.line_occupied(d, lane, start + n)) by {
        if on_board(if d == spec_horizontal() { start + n } else { lane }, if d == spec_horizontal() { lane } else { start + n }) {
            if d == spec_horizontal() {
                assert(after.square(start + n, lane) == laid_square(b, d, lane, start, tiles, start + n, lane));
            } else {
                assert(after.square(lane, start + n) == laid_square(b, d, lane, start, tiles, lane, start + n));
            }
        }
    }
    let c = start + i;
    assert forall|j: int| 1 <= j <= i implies #[trigger] after.line_occupied(d, lane, c - j) by {
        assert(after.line_occupied(d, lane, start + (i - j)));
    }
    lemma_run_before_exact(after, d, lane, c, i);
    assert forall|j: int| 1 <= j <= n - 1 - i implies #[trigger] after.line_occupied(d, lane, c + j) by {
        assert(after.line_occupied(d, lane, start + (i + j)));
    }
    lemma_run_after_exact(after, d, lane, c, n - 1 - i);
    assert(after.segment(d, lane, start, n).map_values(|sq: BoardSquare| sq.tile) =~= tiles.map_values(|t: Tile| Some(t)));
}


/// How a parse error is described.
pub open spec fn error_text(e: ParseError) -> Seq<char> {
    match e {
        ParseError::Length { pattern } => "Expected pattern with length 2, found '"@ + pattern@ + "'"@,
        ParseError::BonusDigit { digit, pattern } => "Expected first character of pattern '"@ + pattern@
            + "' to be a digit but found '"@ + seq![digit] + "'"@,
        ParseError::BonusType { bonus, pattern } => "Expected bonus type of pattern '"@ + pattern@
            + "' to be either 'w' or 'l' but found '"@ + seq![bonus] + "'"@,
    }
}

impl ParseError {
    /// The error described in words, see `error_text`.
    pub fn to_string(&self) -> (r: String)
        ensures
            r@ == error_text(*self),
    {
        let mut s = String::new();
        match self {
            ParseError::Length { pattern } => {
                push_text(&mut s, "Expected pattern with length 2, found '");
                push_text(&mut s, pattern.as_str());
                push_text(&mut s, "'");
            },
            ParseError::BonusDigit { digit, pattern } => {
                push_text(&mut s, "Expected first character of pattern '");
                push_text(&mut s, pattern.as_str());
                push_text(&mut s, "' to be a digit but found '");
                push_char(&mut s, *digit);
                push_text(&mut s, "'");
            },
            ParseError::BonusType { bonus, pattern } => {
                push_text(&mut s, "Expected bonus type of pattern '");
                push_text(&mut s, pattern.as_str());
                push_text(&mut s, "' to be either 'w' or 'l' but found '");
                push_char(&mut s, *bonus);
                push_text(&mut s, "'");
            },
        }
        s
    }
}


/// The decimal digits of `n`.
pub open spec fn nat_text(n: nat) -> Seq<char>
    decreases n,
{
    if n < 10 {
        seq![digit_char(n as int)]
    } else {
        nat_text(n / 10).push(digit_char((n % 10) as int))
    }
}

/// `v` in decimal, with a leading `'-'` when negative.
pub open spec fn int_text(v: int) -> Seq<char> {
    if v < 0 {
        seq!['-'] + nat_text((-v) as nat)
    } else {
        nat_text(v as nat)
    }
}

/// How a position is written: `"[x,y]"`.
pub open spec fn pos_text(p: Pos) -> Seq<char> {
    seq!['['] + int_text(p.x as int) + seq![','] + int_text(p.y as int) + seq![']']
}

/// Appends the decimal digits of `n` to `s`.
fn push_digits(s: &mut String, n: u64)
    ensures
        final(s)@ == old(s)@ + nat_text(n as nat),
    decreases n,
{
    if n >= 10 {
        push_digits(s, n / 10);
    }
    let d: u8 = (n % 10) as u8;
    push_char(s, (48u8 + d) as char);
    proof {
        if n < 10 {
            assert(old(s)@ + nat_text(n as nat) == old(s)@.push(digit_char(n as int)));
        } else {
            assert(nat_text(n as nat) == nat_text((n / 10) as nat).push(digit_char((n % 10) as int)));
        }
    }
}

/// Appends `v` in decimal to `s`, see `int_text`.
fn push_int(s: &mut String, v: i32)
    ensures
        final(s)@ == old(s)@ + int_text(v as int),
{
    if v < 0 {
        push_char(s, '-');
        let m: i64 = -(v as i64);
        push_digits(s, m as u64);
        assert(old(s)@.push('-') + nat_text((-v) as nat) == old(s)@ + (seq!['-'] + nat_text((-v) as nat)));
    } else {
        push_digits(s, v as u64);
    }
}

impl Pos {
    /// The position written out, see `pos_text`.
    pub fn to_string(&self) -> (r: String)
        ensures
            r@ == pos_text(*self),
    {
        let mut s = String::new();
        push_char(&mut s, '[');
        push_int(&mut s, self.x);
        push_char(&mut s, ',');
        push_int(&mut s, self.y);
        push_char(&mut s, ']');
        proof {
            assert(s@ =~= pos_text(*self));
        }
        s
    }
}

} // verus!
