//! Finding every word that can be played on a board with a rack of tiles.

pub mod legal;
pub mod state;

use vstd::prelude::*;

use crate::board::{
    across, coord_of, is_hv, lane_of, lemma_run_after, lemma_run_before, on_board, spec_horizontal, Board, BoardSquare, Direction, Pos,
};
use crate::dawg::{dawg_words, DictNode};
use crate::letters::{lemma_rack_of, rack_of, letter_set_contains, lemma_sorted_seq, nondecreasing, present_tiles, sorted_seq, tiles_sorted, LetterSet, Letters, Rack};
use crate::matcher::legal::{row_play, legal_in_row, lemma_row_words_legal};
use crate::matcher::state::{
    all_letters, found_view, lemma_row_words_complete,
    labels_increasing, lemma_row_words_start, no_wildcard_labels, rack_blank_wildcards, row_words_from, tiles_in_order,
    words_on_path, RowMatcher,
};
use crate::tile::{char_of, char_tile, tile_char, Tile};
use crate::wordlist::{gap_filled, gap_letter_set, lemma_gap_letter_set_word, Wordlist};

verus! {

/// What the matcher knows of one square of a row: the letters that may go there
/// (given the crossing word), the tile on it, and whether a word may be anchored on it.
#[derive(Debug)]
pub struct PosData {
    /// Letters that can legally be placed here, considering the crossing word.
    pub valid_chars: Letters,
    /// The tile on this square, if any.
    pub letter: Option<Tile>,
    /// Whether this square is next to a tile on the board.
    pub connected: bool,
}

impl Clone for PosData {
    fn clone(&self) -> (r: Self)
        ensures
            r.valid_chars@ == self.valid_chars@,
            r.letter == self.letter,
            r.connected == self.connected,
    {
        PosData {
            valid_chars: self.valid_chars.clone(),
            letter: self.letter,
            connected: self.connected,
        }
    }
}

/// The characters of a run of squares: each tile's character, `None` for a square
/// without tile.
pub open spec fn square_pattern(sqs: Seq<BoardSquare>) -> Seq<Option<char>> {
    sqs.map_values(
        |sq: BoardSquare|
            match sq.tile {
                Some(t) => Some(tile_char(t)),
                None => None,
            },
    )
}

/// The letters that may go on the square at `p`, given the word across it in
/// direction `d`: the letter of its tile (any letter for a blank wildcard); for an
/// empty square, those that complete the run of tiles through it along `d` to a
/// dictionary word, or any letter when no tile is next to it along `d`.
pub open spec fn square_letters(b: Board, root: DictNode, p: Pos, d: Direction) -> LetterSet {
    match b.square(p.x as int, p.y as int).tile {
        Some(Tile::Letter(ch)) => LetterSet::One(ch),
        Some(Tile::Wildcard(None)) => LetterSet::Any,
        Some(Tile::Wildcard(Some(ch))) => LetterSet::One(ch),
        None => {
            let lane = lane_of(p, d);
            let c = coord_of(p, d);
            let before = b.run_before(d, lane, c);
            let after = b.run_after(d, lane, c);
            if before + after == 0 {
                LetterSet::Any
            } else {
                gap_letter_set(
                    root,
                    square_pattern(b.segment(d, lane, c - before, (before + after + 1) as int)),
                )
            }
        },
    }
}

/// The word across the empty square `p` in direction `d` with `ch` on `p`: the run of
/// tiles through `p` along `d`, with `ch` in its place.
pub open spec fn cross_word(b: Board, p: Pos, d: Direction, ch: char) -> Seq<char> {
    let lane = lane_of(p, d);
    let c = coord_of(p, d);
    let before = b.run_before(d, lane, c);
    let after = b.run_after(d, lane, c);
    gap_filled(square_pattern(b.segment(d, lane, c - before, (before + after + 1) as int)), ch)
}

/// With a dictionary whose words can be followed edge by edge and whose labels are
/// never `'*'`, a character may go on an empty square iff no tile lies next to it along
/// `d`, or the word across it along `d` with that character is a dictionary word.
pub proof fn lemma_square_letters_cross(b: Board, root: DictNode, p: Pos, d: Direction, ch: char)
    requires
        words_on_path(root),
        no_wildcard_labels(root),
        on_board(p.x as int, p.y as int),
        is_hv(d),
        b.square(p.x as int, p.y as int).tile is None,
    ensures
        letter_set_contains(square_letters(b, root, p, d), ch) <==> (b.run_before(d, lane_of(p, d), coord_of(p, d))
            + b.run_after(d, lane_of(p, d), coord_of(p, d)) == 0 || dawg_words(root).contains(cross_word(b, p, d, ch))),
{
    let lane = lane_of(p, d);
    let c = coord_of(p, d);
    let before = b.run_before(d, lane, c);
    let after = b.run_after(d, lane, c);
    if before + after > 0 {
        lemma_run_before(b, d, lane, c);
        lemma_run_after(b, d, lane, c);
        let seg = b.segment(d, lane, c - before, (before + after + 1) as int);
        let pattern = square_pattern(seg);
        assert(b.line_square(d, lane, c) == b.square(p.x as int, p.y as int));
        assert(pattern[before as int] is None) by {
            assert(seg[before as int] == b.line_square(d, lane, c));
        }
        assert forall|j: int| 0 <= j < pattern.len() && j != before implies #[trigger] pattern[j] is Some by {
            assert(seg[j] == b.line_square(d, lane, c - before + j));
            if j < before {
                assert(b.line_occupied(d, lane, c - (before - j)));
            } else {
                assert(b.line_occupied(d, lane, c + (j - before)));
            }
        }
        lemma_gap_letter_set_word(root, pattern, before as int, ch);
    }
}

/// Works out which letters may be placed at `pos`, given the word across it in
/// direction `dir`, see `square_letters`. On an occupied square only the letter its
/// tile shows is allowed (any letter for a blank wildcard). With a dictionary none of whose labels is
/// `'*'`, a letter may go on an empty square
/// exactly when no tile lies next to it along `dir`, or the word across it along `dir`
/// with that letter is a dictionary word.
pub fn get_valid_chars(board: &Board, wordlist: &Wordlist<'_>, pos: &Pos, dir: Direction) -> (r:
    Letters)
    requires
        on_board(pos.x as int, pos.y as int),
        is_hv(dir),
    ensures
        r@ == square_letters(*board, wordlist.root_node(), *pos, dir),
        board.square(pos.x as int, pos.y as int).tile is Some && board.square(pos.x as int, pos.y as int).tile->0
            != Tile::Wildcard(None) ==> forall|ch: char|
            letter_set_contains(r@, ch) <==> ch == tile_char(board.square(pos.x as int, pos.y as int).tile->0),
        board.square(pos.x as int, pos.y as int).tile == Some(Tile::Wildcard(None)) ==> forall|ch: char|
            letter_set_contains(r@, ch),
        no_wildcard_labels(wordlist.root_node()) && board.square(pos.x as int, pos.y as int).tile is None ==> forall|ch: char|
            letter_set_contains(r@, ch) <==> (board.run_before(dir, lane_of(*pos, dir), coord_of(*pos, dir))
                + board.run_after(dir, lane_of(*pos, dir), coord_of(*pos, dir)) == 0 || dawg_words(
                wordlist.root_node(),
            ).contains(cross_word(*board, *pos, dir, ch))),
{
    let root = wordlist.get_root();
    let r = square_chars(board, wordlist, pos, dir);
    proof {
        if no_wildcard_labels(root) && board.square(pos.x as int, pos.y as int).tile is None {
            assert forall|ch: char| letter_set_contains(r@, ch) <==> (board.run_before(dir, lane_of(*pos, dir), coord_of(*pos, dir))
                + board.run_after(dir, lane_of(*pos, dir), coord_of(*pos, dir)) == 0 || dawg_words(root).contains(
                cross_word(*board, *pos, dir, ch),
            )) by {
                lemma_square_letters_cross(*board, root, *pos, dir, ch);
            }
        }
    }
    r
}

/// The letters that may go on the square at `pos`, see `square_letters`.
fn square_chars(board: &Board, wordlist: &Wordlist<'_>, pos: &Pos, dir: Direction) -> (r: Letters)
    requires
        on_board(pos.x as int, pos.y as int),
        is_hv(dir),
    ensures
        r@ == square_letters(*board, wordlist.root_node(), *pos, dir),
{
    match board.get(pos).tile {
        Some(tile) => match tile {
            Tile::Letter(ch) => Letters::one(ch),
            Tile::Wildcard(None) => Letters::any(),
            Tile::Wildcard(Some(ch)) => Letters::one(ch),
        },
        None => {
            let ghost lane = lane_of(*pos, dir);
            let ghost c = coord_of(*pos, dir);
            let ghost before = board.run_before(dir, lane, c);
            let ghost after = board.run_after(dir, lane, c);
            proof {
                crate::board::lemma_run_after(*board, dir, lane, c);
                crate::board::lemma_run_before(*board, dir, lane, c);
            }
            match board.get_surrounding_letters(pos, dir) {
                Some(bi) => {
                    let squares = bi.squares();
                    let mut pattern: Vec<Option<char>> = Vec::new();
                    let mut i: usize = 0;
                    while i < squares.len()
                        invariant
                            i <= squares.len(),
                            pattern@ == square_pattern(squares@.subrange(0, i as int)),
                        decreases squares.len() - i,
                    {
                        let o = match squares[i].tile {
                            Some(t) => Some(char_of(t)),
                            None => None,
                        };
                        pattern.push(o);
                        i = i + 1;
                        proof {
                            assert(squares@.subrange(0, i as int) == squares@.subrange(0, i - 1).push(
                                squares@[i - 1],
                            ));
                        }
                    }
                    proof {
                        assert(squares@.subrange(0, squares.len() as int) == squares@);
                        let seg = board.segment(dir, lane, c - before, (before + after + 1) as int);
                        assert(squares@ == seg);
                        assert forall|k: int, j: int|
                            0 <= k < j < pattern@.len() && pattern@[k] is None implies pattern@[j] is Some by {
                            if k != before {
                                if k < before {
                                    assert(board.line_occupied(dir, lane, c - (before - k)));
                                } else {
                                    assert(board.line_occupied(dir, lane, c + (k - before)));
                                }
                            }
                            assert(board.line_occupied(dir, lane, c + (j - before)));
                        }
                    }
                    wordlist.valid_letters(pattern.as_slice())
                },
                None => Letters::any(),
            }
        },
    }
}

/// The position of place `c` of line `lane` in direction `d`.
pub open spec fn pos_on(d: Direction, lane: int, c: int) -> Pos {
    if d == spec_horizontal() {
        Pos { x: c as i32, y: lane as i32 }
    } else {
        Pos { x: lane as i32, y: c as i32 }
    }
}

/// True iff a square next to `p` (left, right, above or below) holds a tile.
pub open spec fn touches(b: Board, p: Pos) -> bool {
    b.occupied_at(p.x - 1, p.y as int) || b.occupied_at(p.x + 1, p.y as int) || b.occupied_at(
        p.x as int,
        p.y - 1,
    ) || b.occupied_at(p.x as int, p.y + 1)
}

/// The tiles of line `lane` in direction `d`.
pub open spec fn row_letters(b: Board, d: Direction, lane: int) -> Seq<Option<Tile>> {
    Seq::new(15, |c: int| b.line_square(d, lane, c).tile)
}

/// The letters allowed on each square of line `lane` in direction `d`.
pub open spec fn row_valid(b: Board, root: DictNode, d: Direction, lane: int) -> Seq<LetterSet> {
    Seq::new(15, |c: int| square_letters(b, root, pos_on(d, lane, c), across(d)))
}

/// True iff a word may be anchored on the square at `p`: it touches a tile, or the
/// board marks it connected (as the default board marks its centre, for the first
/// word).
pub open spec fn anchors(b: Board, p: Pos) -> bool {
    touches(b, p) || b.square(p.x as int, p.y as int).connected
}

/// Whether a word may be anchored on each square of line `lane` in direction `d`.
pub open spec fn row_conn(b: Board, d: Direction, lane: int) -> Seq<bool> {
    Seq::new(15, |c: int| anchors(b, pos_on(d, lane, c)))
}

/// The words that can be played on line `lane` in direction `d` with `rack`, each with
/// the position it starts at and the direction, see `row_words_from`.
pub open spec fn line_words(b: Board, root: DictNode, rack: Seq<Option<Tile>>, d: Direction, lane: int) -> Seq<
    (Seq<char>, Pos, Direction),
> {
    row_words_from(root, row_letters(b, d, lane), row_valid(b, root, d, lane), row_conn(b, d, lane), rack, 0).map_values(
        |f: (Seq<char>, int)| (f.0, pos_on(d, lane, f.1), d),
    )
}

/// The words that can be played on the first `n` rows and columns: for each line
/// number, the row's words, then the column's.
pub open spec fn board_words(b: Board, root: DictNode, rack: Seq<Option<Tile>>, n: int) -> Seq<
    (Seq<char>, Pos, Direction),
>
    decreases n,
{
    if n <= 0 {
        Seq::empty()
    } else {
        board_words(b, root, rack, n - 1) + line_words(b, root, rack, spec_horizontal(), n - 1)
            + line_words(b, root, rack, crate::board::spec_vertical(), n - 1)
    }
}

/// A list of placements, with the words as character sequences.
pub open spec fn placement_view(v: Seq<(String, Pos, Direction)>) -> Seq<(Seq<char>, Pos, Direction)> {
    v.map_values(|t: (String, Pos, Direction)| (t.0@, t.1, t.2))
}

/// A rack made of characters holds no wildcard that stands for a letter.
proof fn lemma_rack_of_blank(cs: Seq<char>)
    ensures
        rack_blank_wildcards(rack_of(cs)),
{
    lemma_rack_of(cs);
}

/// All the words of one row, with the square each starts at, found with `rack`; for a
/// rack in the order of tiles, exactly the legal plays of the row, see `row_play`.
pub fn match_words(wordlist: &Wordlist<'_>, rowdata: &[PosData], rack: Rack) -> (r: Vec<(String, usize)>)
    requires
        rack_blank_wildcards(rack@),
        no_wildcard_labels(wordlist.root_node()),
    ensures
        found_view(r@) == row_words_from(
            wordlist.root_node(),
            rowdata@.map_values(|d: PosData| d.letter),
            rowdata@.map_values(|d: PosData| d.valid_chars@),
            rowdata@.map_values(|d: PosData| d.connected),
            rack@,
            0,
        ),
        tiles_in_order(present_tiles(rack@)) ==> forall|f: (Seq<char>, int)| found_view(r@).contains(f) <==> row_play(
            wordlist.root_node(),
            rowdata@.map_values(|d: PosData| d.letter),
            rowdata@.map_values(|d: PosData| d.valid_chars@),
            rowdata@.map_values(|d: PosData| d.connected),
            rack@,
            f.1,
            f.0,
        ),
{
    let root = wordlist.get_root();
    proof {
        let letters = rowdata@.map_values(|d: PosData| d.letter);
        let valid = rowdata@.map_values(|d: PosData| d.valid_chars@);
        let conn = rowdata@.map_values(|d: PosData| d.connected);
        let rw = row_words_from(root, letters, valid, conn, rack@, 0);
        if tiles_in_order(present_tiles(rack@)) {
            lemma_row_words_legal(root, letters, valid, conn, rack@, 0);
            assert forall|f: (Seq<char>, int)| rw.contains(f) <==> row_play(root, letters, valid, conn, rack@, f.1, f.0) by {
                if rw.contains(f) {
                    let k = choose|k: int| 0 <= k < rw.len() && rw[k] == f;
                    assert(rw[k] == f);
                }
                if row_play(root, letters, valid, conn, rack@, f.1, f.0) {
                    lemma_row_words_complete(root, letters, valid, conn, rack@, f.1, f.0);
                }
            }
        }
    }
    let mut matcher = RowMatcher::new(rowdata, rack, wordlist.get_root());
    matcher.collect()
}

/// The words that can be played on the line that starts at `start_pos` and runs along
/// `dir`, see `line_words`.
pub fn find_row_words(
    board: &Board,
    wordlist: &Wordlist<'_>,
    letters: &Rack,
    start_pos: Pos,
    dir: Direction,
) -> (r: Vec<(String, Pos, Direction)>)
    requires
        is_hv(dir),
        coord_of(start_pos, dir) == 0,
        0 <= lane_of(start_pos, dir) < 15,
        rack_blank_wildcards(letters@),
        no_wildcard_labels(wordlist.root_node()),
    ensures
        placement_view(r@) == line_words(*board, wordlist.root_node(), letters@, dir, lane_of(start_pos, dir)),
{
    let ghost root = wordlist.root_node();
    let lane: i32 = if dir.dx == 1 { start_pos.y } else { start_pos.x };
    let fd = dir.flip();
    let mut rowdata: Vec<PosData> = Vec::new();
    let mut i: i32 = 0;
    while i < 15
        invariant
            0 <= i <= 15,
            is_hv(dir),
            fd == across(dir),
            root == wordlist.root_node(),
            lane == lane_of(start_pos, dir),
            0 <= lane < 15,
            rowdata@.len() == i,
            forall|c: int| 0 <= c < i ==> (#[trigger] rowdata@[c]).letter == row_letters(*board, dir, lane as int)[c]
                && rowdata@[c].valid_chars@ == row_valid(*board, root, dir, lane as int)[c]
                && rowdata@[c].connected == row_conn(*board, dir, lane as int)[c],
        decreases 15 - i,
    {
        let pos = if dir.dx == 1 {
            Pos::new(i, lane)
        } else {
            Pos::new(lane, i)
        };
        proof {
            assert(pos == pos_on(dir, lane as int, i as int));
            assert(is_hv(fd));
        }
        let letter = board.get(&pos).tile;
        let valid_chars = get_valid_chars(board, wordlist, &pos, fd);
        let connected = board.is_connected(&pos) || board.get(&pos).connected;
        let ghost old_rows = rowdata@;
        rowdata.push(PosData { valid_chars, letter, connected });
        proof {
            let c = i as int;
            assert(rowdata@[c].letter == row_letters(*board, dir, lane as int)[c]);
            assert(rowdata@[c].valid_chars@ == row_valid(*board, root, dir, lane as int)[c]);
            assert(rowdata@[c].connected == row_conn(*board, dir, lane as int)[c]);
            assert forall|c2: int| 0 <= c2 < c implies #[trigger] rowdata@[c2] == old_rows[c2] by {}
        }
        i = i + 1;
    }
    proof {
        assert(rowdata@.map_values(|d: PosData| d.letter) == row_letters(*board, dir, lane as int));
        assert(rowdata@.map_values(|d: PosData| d.valid_chars@) == row_valid(*board, root, dir, lane as int));
        assert(rowdata@.map_values(|d: PosData| d.connected) == row_conn(*board, dir, lane as int));
    }
    let found = match_words(wordlist, rowdata.as_slice(), letters.clone());
    let ghost fv = found_view(found@);
    proof {
        lemma_row_words_start(
            root,
            row_letters(*board, dir, lane as int),
            row_valid(*board, root, dir, lane as int),
            row_conn(*board, dir, lane as int),
            letters@,
            0,
        );
    }
    let mut out: Vec<(String, Pos, Direction)> = Vec::new();
    let mut k: usize = 0;
    while k < found.len()
        invariant
            k <= found.len(),
            fv == found_view(found@),
            is_hv(dir),
            lane == lane_of(start_pos, dir),
            fv.len() == found@.len(),
            forall|j: int| 0 <= j < fv.len() ==> 0 <= (#[trigger] fv[j]).1 < 15,
            placement_view(out@) == fv.subrange(0, k as int).map_values(
                |f: (Seq<char>, int)| (f.0, pos_on(dir, lane as int, f.1), dir),
            ),
        decreases found.len() - k,
    {
        let word = found[k].0.clone();
        let offset = found[k].1;
        proof {
            assert(fv[k as int].1 == offset);
        }
        let c: i32 = offset as i32;
        let pos = if dir.dx == 1 {
            Pos::new(c, lane)
        } else {
            Pos::new(lane, c)
        };
        proof {
            assert(word@ == fv[k as int].0);
            assert(pos == pos_on(dir, lane as int, fv[k as int].1));
        }
        let ghost old_out = out@;
        let ghost w = word@;
        out.push((word, pos, dir));
        k = k + 1;
        proof {
            let g = |f: (Seq<char>, int)| (f.0, pos_on(dir, lane as int, f.1), dir);
            assert(fv.subrange(0, k as int) == fv.subrange(0, k - 1).push(fv[k - 1]));
            assert(fv.subrange(0, k as int).map_values(g) =~= fv.subrange(0, k - 1).map_values(g).push(g(fv[k - 1])));
            assert(placement_view(out@) =~= placement_view(old_out).push((w, pos, dir)));
        }
    }
    proof {
        assert(fv.subrange(0, found.len() as int) == fv);
    }
    out
}

/// Every word that can be played on the board with the tiles that `letters` denote:
/// for each line number, the row's words, then the column's, each with the position
/// it starts at and its direction, see `board_words`. These are exactly the legal
/// plays, see `placement_legal`.
pub fn find_all_words(board: &Board, wordlist: &Wordlist<'_>, letters: &str) -> (r: Vec<
    (String, Pos, Direction),
>)
    requires
        no_wildcard_labels(wordlist.root_node()),
    ensures
        placement_view(r@) == board_words(*board, wordlist.root_node(), rack_of(letters@), 15),
        forall|f: (Seq<char>, Pos, Direction)|
            placement_view(r@).contains(f) <==> placement_legal(*board, wordlist.root_node(), rack_of(letters@), f),
{
    let root = wordlist.get_root();
    proof {
        assert forall|f: (Seq<char>, Pos, Direction)|
            board_words(*board, root, rack_of(letters@), 15).contains(f) <==> placement_legal(
                *board,
                root,
                rack_of(letters@),
                f,
            ) by {
            lemma_board_words_exact(*board, root, letters@, f);
        }
    }
    let rack = Rack::from_str(letters);
    proof {
        lemma_rack_of_blank(letters@);
    }
    let mut out: Vec<(String, Pos, Direction)> = Vec::new();
    let mut i: i32 = 0;
    while i < 15
        invariant
            0 <= i <= 15,
            rack@ == rack_of(letters@),
            rack_blank_wildcards(rack@),
            no_wildcard_labels(wordlist.root_node()),
            placement_view(out@) == board_words(*board, wordlist.root_node(), rack@, i as int),
        decreases 15 - i,
    {
        let mut rows = find_row_words(board, wordlist, &rack, Pos::new(0, i), crate::board::horizontal());
        let mut cols = find_row_words(board, wordlist, &rack, Pos::new(i, 0), crate::board::vertical());
        let ghost before = placement_view(out@);
        let ghost rv = placement_view(rows@);
        let ghost cv = placement_view(cols@);
        out.append(&mut rows);
        out.append(&mut cols);
        proof {
            assert(placement_view(out@) == before + rv + cv);
        }
        i = i + 1;
    }
    out
}


/// True iff playing `w` from place `s` of line `lane` in direction `d` of `b` with
/// `rack` is legal: it is a legal play in that line as the board gives it (see
/// `legal_in_row`: a dictionary word that agrees with the tiles on the line, whose
/// letters on empty squares each are allowed there by the word across, see
/// `lemma_square_letters_cross`, and that has a square where a word may be anchored,
/// see `anchors`), it starts the line or follows an empty square, and it puts a letter
/// on at least one empty square.
pub open spec fn legal_in_line(
    b: Board,
    root: DictNode,
    rack: Seq<Option<Tile>>,
    d: Direction,
    lane: int,
    s: int,
    w: Seq<char>,
) -> bool {
    &&& legal_in_row(root, row_letters(b, d, lane), row_valid(b, root, d, lane), row_conn(b, d, lane), rack, s, w)
    &&& s == 0 || row_letters(b, d, lane)[s - 1] is None
    &&& exists|i: int| 0 <= i < w.len() && (#[trigger] row_letters(b, d, lane)[s + i]) is None
}

/// True iff the placement `f` (a word, the square of its first letter and its
/// direction) is a legal play on `b` with `rack`, see `legal_in_line`.
pub open spec fn placement_legal(b: Board, root: DictNode, rack: Seq<Option<Tile>>, f: (Seq<char>, Pos, Direction)) -> bool {
    &&& is_hv(f.2)
    &&& on_board(f.1.x as int, f.1.y as int)
    &&& legal_in_line(b, root, rack, f.2, lane_of(f.1, f.2), coord_of(f.1, f.2), f.0)
}

/// With a dictionary none of whose labels is `'*'`, every word found on a line of a
/// board is a legal play there.
pub proof fn lemma_line_words_sound(b: Board, root: DictNode, rack: Seq<Option<Tile>>, d: Direction, lane: int)
    requires
        no_wildcard_labels(root),
        is_hv(d),
        0 <= lane < 15,
    ensures
        forall|k: int| 0 <= k < line_words(b, root, rack, d, lane).len() ==> placement_legal(
            b,
            root,
            rack,
            #[trigger] line_words(b, root, rack, d, lane)[k],
        ),
{
    let letters = row_letters(b, d, lane);
    let valid = row_valid(b, root, d, lane);
    let conn = row_conn(b, d, lane);
    lemma_row_words_legal(root, letters, valid, conn, rack, 0);
    lemma_row_words_start(root, letters, valid, conn, rack, 0);
    let rw = row_words_from(root, letters, valid, conn, rack, 0);
    assert forall|k: int| 0 <= k < line_words(b, root, rack, d, lane).len() implies placement_legal(
        b,
        root,
        rack,
        #[trigger] line_words(b, root, rack, d, lane)[k],
    ) by {
        let f = rw[k];
        let g = line_words(b, root, rack, d, lane)[k];
        assert(g == (f.0, pos_on(d, lane, f.1), d));
        assert(0 <= f.1 < 15);
        assert(lane_of(g.1, d) == lane);
        assert(coord_of(g.1, d) == f.1);
    }
}

/// With a dictionary none of whose labels is `'*'`, every placement that
/// `find_all_words` finds on a board is a legal play there (see `placement_legal`).
pub proof fn lemma_board_words_sound(b: Board, root: DictNode, rack: Seq<Option<Tile>>, n: int)
    requires
        no_wildcard_labels(root),
        0 <= n <= 15,
    ensures
        forall|k: int| 0 <= k < board_words(b, root, rack, n).len() ==> placement_legal(
            b,
            root,
            rack,
            #[trigger] board_words(b, root, rack, n)[k],
        ),
    decreases n,
{
    if n > 0 {
        lemma_board_words_sound(b, root, rack, n - 1);
        lemma_line_words_sound(b, root, rack, spec_horizontal(), n - 1);
        lemma_line_words_sound(b, root, rack, crate::board::spec_vertical(), n - 1);
        let a = board_words(b, root, rack, n - 1);
        let h = line_words(b, root, rack, spec_horizontal(), n - 1);
        let v = line_words(b, root, rack, crate::board::spec_vertical(), n - 1);
        assert forall|k: int| 0 <= k < (a + h + v).len() implies placement_legal(b, root, rack, #[trigger] (a + h + v)[k]) by {
            if k < a.len() {
                assert((a + h + v)[k] == a[k]);
            } else if k < a.len() + h.len() {
                assert((a + h + v)[k] == h[k - a.len()]);
            } else {
                assert((a + h + v)[k] == v[k - a.len() - h.len()]);
            }
        }
    }
}


/// With a dictionary none of whose labels is `'*'`, whose words can be followed edge
/// by edge and whose labels come in increasing order, every legal play on a line of a
/// board, with a rack in the order of tiles (letters, then blank wildcards), is among
/// the line's words.
pub proof fn lemma_line_words_complete(
    b: Board,
    root: DictNode,
    rack: Seq<Option<Tile>>,
    d: Direction,
    lane: int,
    s: int,
    w: Seq<char>,
)
    requires
        words_on_path(root),
        no_wildcard_labels(root),
        labels_increasing(root),
        tiles_in_order(present_tiles(rack)),
        rack_blank_wildcards(rack),
        is_hv(d),
        0 <= lane < 15,
        legal_in_line(b, root, rack, d, lane, s, w),
    ensures
        line_words(b, root, rack, d, lane).contains((w, pos_on(d, lane, s), d)),
{
    let letters = row_letters(b, d, lane);
    let valid = row_valid(b, root, d, lane);
    let conn = row_conn(b, d, lane);
    lemma_row_words_complete(root, letters, valid, conn, rack, s, w);
    let rw = row_words_from(root, letters, valid, conn, rack, 0);
    let k = choose|k: int| 0 <= k < rw.len() && rw[k] == (w, s);
    let lw = line_words(b, root, rack, d, lane);
    assert(lw[k] == (w, pos_on(d, lane, s), d));
}

/// The words of the first `n` lines include those of each row and column numbered
/// below `n`.
proof fn lemma_board_words_include(b: Board, root: DictNode, rack: Seq<Option<Tile>>, n: int, lane: int)
    requires
        0 <= lane < n,
    ensures
        forall|f: (Seq<char>, Pos, Direction)|
            line_words(b, root, rack, spec_horizontal(), lane).contains(f) || line_words(
                b,
                root,
                rack,
                crate::board::spec_vertical(),
                lane,
            ).contains(f) ==> #[trigger] board_words(b, root, rack, n).contains(f),
    decreases n,
{
    let a = board_words(b, root, rack, n - 1);
    let h = line_words(b, root, rack, spec_horizontal(), n - 1);
    let v = line_words(b, root, rack, crate::board::spec_vertical(), n - 1);
    assert(board_words(b, root, rack, n) == a + h + v);
    if lane < n - 1 {
        lemma_board_words_include(b, root, rack, n - 1, lane);
        assert forall|f: (Seq<char>, Pos, Direction)| a.contains(f) implies #[trigger] (a + h + v).contains(f) by {
            let k = choose|k: int| 0 <= k < a.len() && a[k] == f;
            assert((a + h + v)[k] == f);
        }
    } else {
        assert forall|f: (Seq<char>, Pos, Direction)| h.contains(f) || v.contains(f) implies #[trigger] (a + h + v).contains(f) by {
            if h.contains(f) {
                let k = choose|k: int| 0 <= k < h.len() && h[k] == f;
                assert((a + h + v)[a.len() + k] == f);
            } else {
                let k = choose|k: int| 0 <= k < v.len() && v[k] == f;
                assert((a + h + v)[a.len() + h.len() + k] == f);
            }
        }
    }
}

/// With a dictionary none of whose labels is `'*'`, whose words can be followed edge
/// by edge and whose labels come in increasing order, every legal play on a board (see
/// `placement_legal`), with a rack in the order of tiles (letters, then blank
/// wildcards), is found by `find_all_words` (see `board_words`).
pub proof fn lemma_board_words_complete(
    b: Board,
    root: DictNode,
    rack: Seq<Option<Tile>>,
    f: (Seq<char>, Pos, Direction),
)
    requires
        words_on_path(root),
        no_wildcard_labels(root),
        labels_increasing(root),
        tiles_in_order(present_tiles(rack)),
        rack_blank_wildcards(rack),
        placement_legal(b, root, rack, f),
    ensures
        board_words(b, root, rack, 15).contains(f),
{
    let d = f.2;
    let lane = lane_of(f.1, d);
    let s = coord_of(f.1, d);
    lemma_line_words_complete(b, root, rack, d, lane, s, f.0);
    assert(pos_on(d, lane, s) == f.1);
    lemma_board_words_include(b, root, rack, 15, lane);
}

/// The rack made of characters holds its tiles in order (letters, then blank
/// wildcards): it is sorted as `Rack::is_sorted` checks; without `'*'` it holds letters
/// only.
pub proof fn lemma_rack_of_letters(cs: Seq<char>)
    ensures
        tiles_in_order(present_tiles(rack_of(cs))),
        tiles_sorted(present_tiles(rack_of(cs))),
        !cs.contains('*') ==> all_letters(present_tiles(rack_of(cs))),
{
    lemma_rack_of(cs);
}

/// With a dictionary none of whose labels is `'*'`, whose words can be followed edge
/// by edge and whose labels come in increasing order, and the rack that any
/// characters make, the placements that `find_all_words` finds on a board are exactly
/// the legal plays.
pub proof fn lemma_board_words_exact(b: Board, root: DictNode, cs: Seq<char>, f: (Seq<char>, Pos, Direction))
    requires
        words_on_path(root),
        no_wildcard_labels(root),
        labels_increasing(root),
    ensures
        board_words(b, root, rack_of(cs), 15).contains(f) <==> placement_legal(b, root, rack_of(cs), f),
{
    let rack = rack_of(cs);
    lemma_rack_of_letters(cs);
    lemma_rack_of_blank(cs);
    lemma_board_words_sound(b, root, rack, 15);
    if board_words(b, root, rack, 15).contains(f) {
        let k = choose|k: int| 0 <= k < board_words(b, root, rack, 15).len() && board_words(b, root, rack, 15)[k] == f;
        assert(placement_legal(b, root, rack, board_words(b, root, rack, 15)[k]));
    }
    if placement_legal(b, root, rack, f) {
        lemma_board_words_complete(b, root, rack, f);
    }
}

} // verus!
