//! The search for the words of one row.

use vstd::prelude::*;

use super::PosData;
use crate::dawg::{DictNode, dawg_labels, dawg_words, on_path};
use crate::letters::{
    LetterSet, Letters, Rack, expand_all, letter_set_contains, present_tiles, rack_form,
};
use crate::tile::{Tile, expansion, tile_char};
use crate::matcher::legal::{lies_in_row, rack_supplies, stand_for};
use crate::util::push_char;

verus! {

// ------------------------------------------------------------------------------------------
// The tile order used to step through candidates
// ------------------------------------------------------------------------------------------

/// `a` comes strictly before `b` in the order of tiles.
pub open spec fn tile_lt(a: Tile, b: Tile) -> bool {
    crate::letters::tile_le(a, b) && a != b
}

/// Exec form of `tile_lt`.
fn tile_lt_exec(a: Tile, b: Tile) -> (r: bool)
    ensures
        r == tile_lt(a, b),
{
    crate::letters::tile_le_exec(a, b) && a != b
}

/// The order of tiles is transitive.
proof fn lemma_tile_lt_transitive(a: Tile, b: Tile, c: Tile)
    requires
        tile_lt(a, b),
        tile_lt(b, c),
    ensures
        tile_lt(a, c),
{
}

/// The number of candidates in `cands` that come after `t`.
pub open spec fn count_after(cands: Seq<Tile>, t: Tile) -> nat
    decreases cands.len(),
{
    if cands.len() == 0 {
        0
    } else {
        count_after(cands.drop_last(), t) + if tile_lt(t, cands.last()) {
            1nat
        } else {
            0nat
        }
    }
}

/// The first candidate in `cands` that comes after `t`.
pub open spec fn first_after(cands: Seq<Tile>, t: Tile) -> Option<Tile>
    decreases cands.len(),
{
    if cands.len() == 0 {
        None
    } else if tile_lt(t, cands[0]) {
        Some(cands[0])
    } else {
        first_after(cands.drop_first(), t)
    }
}

/// The first candidate after `t` is a candidate, and comes after `t`.
pub proof fn lemma_first_after(cands: Seq<Tile>, t: Tile)
    ensures
        first_after(cands, t) matches Some(n) ==> cands.contains(n) && tile_lt(t, n),
    decreases cands.len(),
{
    if cands.len() > 0 && !tile_lt(t, cands[0]) {
        lemma_first_after(cands.drop_first(), t);
        if let Some(n) = first_after(cands.drop_first(), t) {
            let k = choose|k: int| 0 <= k < cands.drop_first().len() && cands.drop_first()[k] == n;
            assert(cands[k + 1] == n);
        }
    } else if cands.len() > 0 {
        assert(cands[0] == cands[0]);
    }
}

/// Fewer candidates come after a later tile, strictly fewer when that tile is a candidate.
pub proof fn lemma_count_after_decreases(cands: Seq<Tile>, a: Tile, b: Tile)
    requires
        tile_lt(a, b),
    ensures
        count_after(cands, b) <= count_after(cands, a),
        cands.contains(b) ==> count_after(cands, b) < count_after(cands, a),
    decreases cands.len(),
{
    if cands.len() > 0 {
        let d = cands.drop_last();
        lemma_count_after_decreases(d, a, b);
        if tile_lt(b, cands.last()) {
            lemma_tile_lt_transitive(a, b, cands.last());
        }
        if cands.contains(b) && !d.contains(b) {
            let k = choose|k: int| 0 <= k < cands.len() && cands[k] == b;
            if k < cands.len() - 1 {
                assert(d[k] == b);
            }
            assert(cands.last() == b);
        }
        if d.contains(b) {
            let k = choose|k: int| 0 <= k < d.len() && d[k] == b;
            assert(cands[k] == b);
        }
    }
}

/// Exec form of `first_after`.
fn next_after(cands: &Vec<Tile>, t: Tile) -> (r: Option<Tile>)
    ensures
        r == first_after(cands@, t),
{
    let mut i: usize = 0;
    assert(cands@.subrange(0, cands@.len() as int) == cands@);
    while i < cands.len()
        invariant
            i <= cands.len(),
            first_after(cands@, t) == first_after(cands@.subrange(i as int, cands@.len() as int), t),
        decreases cands.len() - i,
    {
        let ghost s = cands@.subrange(i as int, cands@.len() as int);
        assert(s.drop_first() == cands@.subrange(i + 1, cands@.len() as int));
        assert(s[0] == cands@[i as int]);
        if tile_lt_exec(t, cands[i]) {
            return Some(cands[i]);
        }
        i = i + 1;
    }
    None
}

// ------------------------------------------------------------------------------------------
// The rack while tiles are being placed
// ------------------------------------------------------------------------------------------

/// The first slot of `rack` holding `x`.
pub open spec fn first_slot(rack: Seq<Option<Tile>>, x: Option<Tile>) -> int {
    choose|i: int| 0 <= i < rack.len() && rack[i] == x && forall|k: int| 0 <= k < i ==> rack[k] != x
}

/// The rack once `t` has been played from it: the first slot holding it (blank, for a
/// wildcard) is emptied.
pub open spec fn rack_without(rack: Seq<Option<Tile>>, t: Tile) -> Seq<Option<Tile>> {
    rack.update(first_slot(rack, Some(rack_form(t))), None)
}

/// The number of tiles in the slots `s`.
pub open spec fn tile_count(s: Seq<Option<Tile>>) -> nat {
    present_tiles(s).len()
}

/// Emptying a full slot takes one tile out, and adds none.
pub proof fn lemma_present_update_none(s: Seq<Option<Tile>>, i: int)
    requires
        0 <= i < s.len(),
        s[i] is Some,
    ensures
        tile_count(s.update(i, None)) + 1 == tile_count(s),
        forall|t: Tile| present_tiles(s.update(i, None)).contains(t) ==> present_tiles(s).contains(t),
    decreases s.len(),
{
    let u = s.update(i, None);
    assert(u.drop_last() == if i == s.len() - 1 { s.drop_last() } else { s.drop_last().update(i, None) });
    if i == s.len() - 1 {
        assert(u.last() == None::<Tile>);
        lemma_present_subset_push(s.drop_last(), s.last());
    } else {
        lemma_present_update_none(s.drop_last(), i);
        lemma_present_subset_push(s.drop_last(), s.last());
        lemma_present_subset_push(u.drop_last(), u.last());
        assert(u.last() == s.last());
        assert(u.drop_last().push(u.last()) == u);
        assert(s.drop_last().push(s.last()) == s);
        assert forall|t: Tile| present_tiles(u).contains(t) implies present_tiles(s).contains(t) by {
            if present_tiles(u.drop_last()).contains(t) {
                assert(present_tiles(s.drop_last()).contains(t));
            } else {
                let k = choose|k: int| 0 <= k < present_tiles(u).len() && present_tiles(u)[k] == t;
                assert(u.last() == Some(t));
                assert(present_tiles(s) == present_tiles(s.drop_last()).push(t));
                assert(present_tiles(s)[present_tiles(s).len() - 1] == t);
            }
        }
    }
}

/// The present tiles after adding a slot keep those before.
proof fn lemma_present_subset_push(s: Seq<Option<Tile>>, o: Option<Tile>)
    ensures
        forall|t: Tile| present_tiles(s).contains(t) ==> present_tiles(s.push(o)).contains(t),
        present_tiles(s.push(o)) == match o {
            Some(t) => present_tiles(s).push(t),
            None => present_tiles(s),
        },
{
    assert(s.push(o).drop_last() == s);
    assert forall|t: Tile| present_tiles(s).contains(t) implies present_tiles(s.push(o)).contains(t) by {
        let k = choose|k: int| 0 <= k < present_tiles(s).len() && present_tiles(s)[k] == t;
        assert(present_tiles(s.push(o))[k] == t);
    }
}

/// A present tile lies in some slot.
proof fn lemma_present_contains(s: Seq<Option<Tile>>, t: Tile)
    requires
        present_tiles(s).contains(t),
    ensures
        s.contains(Some(t)),
    decreases s.len(),
{
    lemma_present_subset_push(s.drop_last(), s.last());
    assert(s.drop_last().push(s.last()) == s);
    if present_tiles(s.drop_last()).contains(t) {
        lemma_present_contains(s.drop_last(), t);
        let k = choose|k: int| 0 <= k < s.drop_last().len() && s.drop_last()[k] == Some(t);
        assert(s[k] == Some(t));
    } else {
        let k = choose|k: int| 0 <= k < present_tiles(s).len() && present_tiles(s)[k] == t;
        assert(s.last() == Some(t));
        assert(s[s.len() - 1] == Some(t));
    }
}

/// Each expansion comes from a rack tile, and an expanded wildcard stands for a letter.
pub(crate) proof fn lemma_expand_all_from_rack(ts: Seq<Tile>, valid: Seq<char>, x: Tile)
    requires
        expand_all(ts, valid).contains(x),
        forall|ch: char| !ts.contains(Tile::Wildcard(Some(ch))),
    ensures
        ts.contains(rack_form(x)),
        x is Wildcard ==> x->Wildcard_0 is Some,
    decreases ts.len(),
{
    let d = ts.drop_last();
    assert(ts.drop_last().push(ts.last()) == ts);
    assert(ts[ts.len() - 1] == ts.last());
    let e = crate::tile::expansion(ts.last(), valid);
    assert(expand_all(ts, valid) == expand_all(d, valid) + e);
    if expand_all(d, valid).contains(x) {
        assert forall|ch: char| !d.contains(Tile::Wildcard(Some(ch))) by {
            if d.contains(Tile::Wildcard(Some(ch))) {
                let k = choose|k: int| 0 <= k < d.len() && d[k] == Tile::Wildcard(Some(ch));
                assert(ts[k] == d[k]);
                assert(ts.contains(Tile::Wildcard(Some(ch))));
            }
        }
        lemma_expand_all_from_rack(d, valid, x);
        let k = choose|k: int| 0 <= k < d.len() && d[k] == rack_form(x);
        assert(ts[k] == rack_form(x));
    } else {
        let k = choose|k: int| 0 <= k < expand_all(ts, valid).len() && expand_all(ts, valid)[k] == x;
        let j = k - expand_all(d, valid).len();
        assert(e[j] == x);
        match ts.last() {
            Tile::Letter(_) => {},
            Tile::Wildcard(o) => {
                assert(x == Tile::Wildcard(Some(valid[j])));
                if let Some(ch) = o {
                    assert(ts.contains(Tile::Wildcard(Some(ch))));
                }
            },
        }
    }
}

// ------------------------------------------------------------------------------------------
// The search, as a specification
// ------------------------------------------------------------------------------------------

/// The number of squares from `i` on that hold a tile, up to the first empty one.
pub open spec fn run_len(letters: Seq<Option<Tile>>, i: int) -> nat
    decreases letters.len() - i,
{
    if 0 <= i < letters.len() && letters[i] is Some {
        1 + run_len(letters, i + 1)
    } else {
        0
    }
}

/// The run of tiles from `i` stays in the row, holds tiles, and ends at an empty square
/// or the row's end.
pub proof fn lemma_run_len_bound(letters: Seq<Option<Tile>>, i: int)
    requires
        0 <= i,
    ensures
        i + run_len(letters, i) <= if i <= letters.len() { letters.len() as int } else { i },
        forall|k: int| i <= k < i + run_len(letters, i) ==> #[trigger] letters[k] is Some,
        i + run_len(letters, i) < letters.len() ==> letters[i + run_len(letters, i)] is None,
    decreases letters.len() - i,
{
    if 0 <= i < letters.len() && letters[i] is Some {
        lemma_run_len_bound(letters, i + 1);
    }
}

/// The characters on the `n` squares from `i` on.
pub open spec fn chars_from(letters: Seq<Option<Tile>>, i: int, n: nat) -> Seq<char> {
    Seq::new(n, |k: int| tile_char(letters[i + k]->Some_0))
}

/// The letter a tile on the board contributes to a word: a blank wildcard none.
pub open spec fn shown_letter(t: Tile) -> Option<char> {
    match t {
        Tile::Letter(ch) => Some(ch),
        Tile::Wildcard(o) => o,
    }
}

/// The number of squares from `i` on that hold a tile showing a letter.
pub open spec fn word_len(letters: Seq<Option<Tile>>, i: int) -> nat
    decreases letters.len() - i,
{
    if 0 <= i < letters.len() && letters[i] is Some && shown_letter(letters[i]->Some_0) is Some {
        1 + word_len(letters, i + 1)
    } else {
        0
    }
}

/// True iff some square among the `n` from `i` on may anchor a word (`conn`).
pub open spec fn any_connected(conn: Seq<bool>, i: int, n: nat) -> bool {
    exists|k: int| i <= k < i + n && conn[k]
}

/// The tiles to try in the empty square `pos` after the path `p`: the rack's tiles
/// expanded for the labels following `p` that the square allows.
pub open spec fn candidates(root: DictNode, p: Seq<char>, valid: LetterSet, rack: Seq<Option<Tile>>) -> Seq<Tile> {
    expand_all(
        present_tiles(rack),
        dawg_labels(root, p).filter(|c: char| letter_set_contains(valid, c)),
    )
}

/// The words found from the state where the tiles `letters` lie in the row and `rack`
/// remains, starting at `start`: the word there, if `report` holds and it is a
/// dictionary word touching a tile, and then, at the first empty square, each
/// candidate tile in turn, from the first and then always the first one after it.
#[verifier::opaque]
pub open spec fn row_search(
    root: DictNode,
    letters: Seq<Option<Tile>>,
    valid: Seq<LetterSet>,
    conn: Seq<bool>,
    rack: Seq<Option<Tile>>,
    start: int,
    report: bool,
) -> Seq<(Seq<char>, int)>
    decreases tile_count(rack), 1nat, 0nat,
{
    let n = run_len(letters, start);
    let p = chars_from(letters, start, n);
    if !on_path(root, p) {
        Seq::empty()
    } else {
        let found = if report && dawg_words(root).contains(p) && any_connected(conn, start, n) {
            seq![(chars_from(letters, start, word_len(letters, start)), start)]
        } else {
            Seq::empty()
        };
        let pos = start + n;
        if 0 <= pos < letters.len() {
            let cands = candidates(root, p, valid[pos], rack);
            if cands.len() > 0 {
                found + try_candidates(root, letters, valid, conn, rack, start, pos, cands, cands[0])
            } else {
                found
            }
        } else {
            found
        }
    }
}

/// The words found by placing `t` in the square `pos`, then each later candidate.
#[verifier::opaque]
pub open spec fn try_candidates(
    root: DictNode,
    letters: Seq<Option<Tile>>,
    valid: Seq<LetterSet>,
    conn: Seq<bool>,
    rack: Seq<Option<Tile>>,
    start: int,
    pos: int,
    cands: Seq<Tile>,
    t: Tile,
) -> Seq<(Seq<char>, int)>
    decreases tile_count(rack), 0nat, count_after(cands, t),
{
    if rack.contains(Some(rack_form(t))) {
        let i = first_slot(rack, Some(rack_form(t)));
        proof {
            assert(0 <= i < rack.len() && rack[i] == Some(rack_form(t))) by {
                let j = choose|j: int| 0 <= j < rack.len() && rack[j] == Some(rack_form(t));
                lemma_first_slot_exists(rack, Some(rack_form(t)), j);
            }
            lemma_present_update_none(rack, i);
        }
        let placed = row_search(
            root,
            letters.update(pos, Some(t)),
            valid,
            conn,
            rack_without(rack, t),
            start,
            true,
        );
        match first_after(cands, t) {
            Some(next) => {
                proof {
                    lemma_first_after(cands, t);
                    lemma_count_after_decreases(cands, t, next);
                }
                placed + try_candidates(root, letters, valid, conn, rack, start, pos, cands, next)
            },
            None => placed,
        }
    } else {
        Seq::empty()
    }
}

/// A slot holding `x` makes the first such slot exist.
pub proof fn lemma_first_slot_exists(rack: Seq<Option<Tile>>, x: Option<Tile>, j: int)
    requires
        0 <= j < rack.len(),
        rack[j] == x,
    ensures
        0 <= first_slot(rack, x) < rack.len(),
        rack[first_slot(rack, x)] == x,
        forall|k: int| 0 <= k < first_slot(rack, x) ==> rack[k] != x,
    decreases j,
{
    if exists|k: int| 0 <= k < j && rack[k] == x {
        let k = choose|k: int| 0 <= k < j && rack[k] == x;
        lemma_first_slot_exists(rack, x, k);
    } else {
        assert(0 <= j < rack.len() && rack[j] == x && forall|k: int| 0 <= k < j ==> rack[k] != x);
    }
}

/// The words found in the whole row: the search from each square that starts the row
/// or follows an empty square, one after another.
pub open spec fn row_words_from(
    root: DictNode,
    letters: Seq<Option<Tile>>,
    valid: Seq<LetterSet>,
    conn: Seq<bool>,
    rack: Seq<Option<Tile>>,
    start: int,
) -> Seq<(Seq<char>, int)>
    decreases letters.len() + 1 - start,
{
    if 0 <= start < letters.len() {
        proof {
            lemma_run_len_bound(letters, start);
        }
        row_search(root, letters, valid, conn, rack, start, false) + row_words_from(
            root,
            letters,
            valid,
            conn,
            rack,
            start + run_len(letters, start) + 1,
        )
    } else {
        Seq::empty()
    }
}

/// A list of found words, as character sequences with their starting squares.
pub open spec fn found_view(v: Seq<(String, usize)>) -> Seq<(Seq<char>, int)> {
    v.map_values(|r: (String, usize)| (r.0@, r.1 as int))
}

/// True iff no label of the dictionary graph below `root` is the wildcard character.
pub open spec fn no_wildcard_labels(root: DictNode) -> bool {
    forall|p: Seq<char>| !(#[trigger] dawg_labels(root, p)).contains('*')
}

/// True iff no slot of `rack` holds a wildcard that stands for a letter.
pub open spec fn rack_blank_wildcards(rack: Seq<Option<Tile>>) -> bool {
    forall|ch: char| !present_tiles(rack).contains(Tile::Wildcard(Some(ch)))
}

// ------------------------------------------------------------------------------------------
// The search
// ------------------------------------------------------------------------------------------

/// Finds the words of one row, given what is known of each square and the rack.
pub struct RowMatcher<'d> {
    start_pos: usize,
    letters: Vec<Option<Tile>>,
    valid: Vec<Letters>,
    connected: Vec<bool>,
    rack: Rack,
    root: DictNode<'d>,
}

impl<'d> RowMatcher<'d> {
    /// The tiles of the row.
    pub closed spec fn letters_view(&self) -> Seq<Option<Tile>> {
        self.letters@
    }

    /// The letters allowed in each square of the row.
    pub closed spec fn valid_view(&self) -> Seq<LetterSet> {
        self.valid@.map_values(|l: Letters| l@)
    }

    /// Whether each square of the row may anchor a word.
    pub closed spec fn connected_view(&self) -> Seq<bool> {
        self.connected@
    }

    /// The rack.
    pub closed spec fn rack_view(&self) -> Seq<Option<Tile>> {
        self.rack@
    }

    /// The root of the dictionary graph.
    pub closed spec fn root_view(&self) -> DictNode<'d> {
        self.root
    }

    /// The square the next search starts from.
    pub closed spec fn start_view(&self) -> int {
        self.start_pos as int
    }

    /// The three row sequences have one entry per square, the start lies within the
    /// row or just after it, the rack holds no placed wildcard, and no label of the
    /// dictionary is `'*'`.
    pub closed spec fn wf(&self) -> bool {
        &&& self.valid@.len() == self.letters@.len()
        &&& self.connected@.len() == self.letters@.len()
        &&& self.start_pos <= self.letters@.len()
        &&& rack_blank_wildcards(self.rack@)
        &&& no_wildcard_labels(self.root)
    }

    /// A matcher for a row described by `rowdata`, with the tiles of `rack`, looking
    /// words up in the dictionary graph below `root`.
    pub fn new(rowdata: &[PosData], rack: Rack, root: DictNode<'d>) -> (r: Self)
        requires
            rack_blank_wildcards(rack@),
            no_wildcard_labels(root),
        ensures
            r.wf(),
            r.letters_view() == rowdata@.map_values(|d: PosData| d.letter),
            r.valid_view() == rowdata@.map_values(|d: PosData| d.valid_chars@),
            r.connected_view() == rowdata@.map_values(|d: PosData| d.connected),
            r.rack_view() == rack@,
            r.root_view() == root,
            r.start_view() == 0,
    {
        let mut letters: Vec<Option<Tile>> = Vec::new();
        let mut valid: Vec<Letters> = Vec::new();
        let mut connected: Vec<bool> = Vec::new();
        let mut i: usize = 0;
        while i < rowdata.len()
            invariant
                i <= rowdata.len(),
                letters@ == rowdata@.subrange(0, i as int).map_values(|d: PosData| d.letter),
                valid@.len() == i,
                forall|k: int| 0 <= k < i ==> (#[trigger] valid@[k])@ == rowdata@[k].valid_chars@,
                connected@ == rowdata@.subrange(0, i as int).map_values(|d: PosData| d.connected),
            decreases rowdata.len() - i,
        {
            let d = &rowdata[i];
            letters.push(d.letter);
            valid.push(d.valid_chars.clone());
            connected.push(d.connected);
            i = i + 1;
            proof {
                let s = rowdata@.subrange(0, i as int);
                assert(s == rowdata@.subrange(0, i - 1).push(rowdata@[i - 1]));
            }
        }
        assert(rowdata@.subrange(0, rowdata.len() as int) == rowdata@);
        assert(valid@.map_values(|l: Letters| l@) == rowdata@.map_values(|d: PosData| d.valid_chars@));
        RowMatcher { start_pos: 0, letters, valid, connected, rack, root }
    }
}


/// The word from `i` stays in the row and its squares hold tiles showing letters.
proof fn lemma_word_len_bound(letters: Seq<Option<Tile>>, i: int)
    requires
        0 <= i,
    ensures
        i + word_len(letters, i) <= if i <= letters.len() { letters.len() as int } else { i },
        forall|k: int|
            i <= k < i + word_len(letters, i) ==> #[trigger] letters[k] is Some && shown_letter(
                letters[k]->Some_0,
            ) is Some,
        i + word_len(letters, i) < letters.len() ==> (letters[i + word_len(letters, i)] is None
            || shown_letter(letters[i + word_len(letters, i)]->Some_0) is None),
    decreases letters.len() - i,
{
    if 0 <= i < letters.len() && letters[i] is Some && shown_letter(letters[i]->Some_0) is Some {
        lemma_word_len_bound(letters, i + 1);
    }
}

/// Exec form of `shown_letter`.
fn shown_letter_exec(t: Tile) -> (r: Option<char>)
    ensures
        r == shown_letter(t),
        r matches Some(c) ==> c == tile_char(t),
{
    match t {
        Tile::Letter(ch) => Some(ch),
        Tile::Wildcard(o) => o,
    }
}

impl<'d> RowMatcher<'d> {
    /// Follows the dictionary graph along the tiles from `start` up to the first empty
    /// square. Returns the node reached, if the walk stays in the graph, and that square.
    fn walk(&self, start: usize) -> (r: (Option<DictNode<'d>>, usize))
        requires
            start < self.letters@.len(),
        ensures
            r.1 == start + run_len(self.letters@, start as int),
            r.0 is Some <==> on_path(
                self.root,
                chars_from(self.letters@, start as int, run_len(self.letters@, start as int)),
            ),
            r.0 matches Some(n) ==> {
                let p = chars_from(self.letters@, start as int, run_len(self.letters@, start as int));
                &&& forall|w: Seq<char>| #![trigger dawg_words(n).contains(w)]
                    dawg_words(n).contains(w) <==> dawg_words(self.root).contains(p + w)
                &&& forall|q: Seq<char>| #![trigger dawg_labels(n, q)]
                    dawg_labels(n, q) == dawg_labels(self.root, p + q)
            },
    {
        let ghost letters = self.letters@;
        let ghost n = run_len(letters, start as int);
        let ghost p = chars_from(letters, start as int, n);
        proof {
            lemma_run_len_bound(letters, start as int);
        }
        let mut node = self.root;
        let mut i: usize = start;
        while i < self.letters.len() && self.letters[i].is_some()
            invariant
                letters == self.letters@,
                n == run_len(letters, start as int),
                p == chars_from(letters, start as int, n),
                start + n <= letters.len(),
                forall|k: int| start <= k < start + n ==> #[trigger] letters[k] is Some,
                start + n < letters.len() ==> letters[start + n] is None,
                start <= i <= start + n,
                on_path(self.root, p.take(i - start)),
                forall|w: Seq<char>| #![trigger dawg_words(node).contains(w)]
                    dawg_words(node).contains(w) <==> dawg_words(self.root).contains(p.take(i - start) + w),
                forall|q: Seq<char>| #![trigger dawg_labels(node, q)]
                    dawg_labels(node, q) == dawg_labels(self.root, p.take(i - start) + q),
            decreases letters.len() - i,
        {
            let t = self.letters[i].unwrap();
            let c = crate::tile::char_of(t);
            let ghost pi = p.take(i - start);
            proof {
                assert(i < start + n);
                assert(p[i - start] == c);
                assert(p.take(i - start + 1) == pi.push(c));
                assert(dawg_labels(node, Seq::empty()) == dawg_labels(self.root, pi + Seq::empty()));
                assert(pi + Seq::<char>::empty() == pi);
            }
            match node.get(c) {
                Some(child) => {
                    proof {
                        let pn = pi.push(c);
                        assert forall|k: int| 0 <= k < pn.len() implies #[trigger] dawg_labels(
                            self.root,
                            pn.take(k),
                        ).contains(pn[k]) by {
                            if k < pi.len() {
                                assert(pn.take(k) == pi.take(k));
                                assert(pn[k] == pi[k]);
                            } else {
                                assert(pn.take(k) == pi);
                            }
                        }
                        assert forall|w: Seq<char>| #![trigger dawg_words(child).contains(w)]
                            dawg_words(child).contains(w) <==> dawg_words(self.root).contains(pn + w) by {
                            assert(seq![c] + w == seq![c] + w);
                            assert(dawg_words(child).contains(w) <==> dawg_words(node).contains(seq![c] + w));
                            assert(pi + (seq![c] + w) == pn + w);
                        }
                        assert forall|q: Seq<char>| #![trigger dawg_labels(child, q)]
                            dawg_labels(child, q) == dawg_labels(self.root, pn + q) by {
                            assert(dawg_labels(child, q) == dawg_labels(node, seq![c] + q));
                            assert(pi + (seq![c] + q) == pn + q);
                        }
                    }
                    node = child;
                },
                None => {
                    proof {
                        assert(!dawg_labels(self.root, pi).contains(c));
                        assert(p.take(i - start) == pi);
                        assert(!dawg_labels(self.root, p.take(i - start)).contains(p[i - start]));
                    }
                    return (None, start + run_len_exec(self, start));
                },
            }
            i = i + 1;
        }
        proof {
            assert(i == start + n);
            assert(p.take(n as int) == p);
        }
        (Some(node), i)
    }
}

/// Exec form of `run_len`.
fn run_len_exec(m: &RowMatcher, start: usize) -> (r: usize)
    requires
        start < m.letters@.len(),
    ensures
        r == run_len(m.letters@, start as int),
{
    proof {
        lemma_run_len_bound(m.letters@, start as int);
    }
    let mut i: usize = start;
    while i < m.letters.len() && m.letters[i].is_some()
        invariant
            start <= i <= start + run_len(m.letters@, start as int),
            start + run_len(m.letters@, start as int) <= m.letters@.len(),
            forall|k: int| start <= k < start + run_len(m.letters@, start as int) ==> #[trigger] m.letters@[k] is Some,
            start + run_len(m.letters@, start as int) < m.letters@.len() ==> m.letters@[start + run_len(m.letters@, start as int)] is None,
        decreases m.letters@.len() - i,
    {
        i = i + 1;
    }
    i - start
}


impl<'d> RowMatcher<'d> {
    /// The word shown on the squares from `start` on, up to the first square that
    /// shows no letter.
    fn word_at(&self, start: usize) -> (r: String)
        ensures
            r@ == chars_from(self.letters@, start as int, word_len(self.letters@, start as int)),
    {
        let ghost letters = self.letters@;
        let ghost n = word_len(letters, start as int);
        proof {
            lemma_word_len_bound(letters, start as int);
        }
        let mut s = String::new();
        let mut i: usize = start;
        loop
            invariant
                letters == self.letters@,
                n == word_len(letters, start as int),
                start + n <= letters.len() || n == 0,
                forall|k: int|
                    start <= k < start + n ==> #[trigger] letters[k] is Some && shown_letter(
                        letters[k]->Some_0,
                    ) is Some,
                start + n < letters.len() ==> (letters[start + n] is None || shown_letter(
                    letters[start + n]->Some_0,
                ) is None),
                start <= i <= start + n || (n == 0 && i == start),
                s@ == chars_from(letters, start as int, (i - start) as nat),
            ensures
                i == start + n,
                s@ == chars_from(letters, start as int, (i - start) as nat),
            decreases letters.len() + 1 - i,
        {
            if i >= self.letters.len() {
                break;
            }
            let shown = match self.letters[i] {
                Some(t) => shown_letter_exec(t),
                None => None,
            };
            match shown {
                Some(c) => {
                    proof {
                        assert(i < start + n) by {
                            if i == start + n {
                            }
                        }
                    }
                    push_char(&mut s, c);
                    i = i + 1;
                    assert(s@ == chars_from(letters, start as int, (i - start) as nat));
                },
                None => {
                    break;
                },
            }
        }
        s
    }

    /// True iff some square from `start` to before `end` may anchor a word.
    fn touches(&self, start: usize, end: usize) -> (r: bool)
        requires
            start <= end <= self.connected@.len(),
        ensures
            r == any_connected(self.connected@, start as int, (end - start) as nat),
    {
        let mut k: usize = start;
        while k < end
            invariant
                start <= k <= end,
                end <= self.connected@.len(),
                forall|j: int| start <= j < k ==> !self.connected@[j],
            decreases end - k,
        {
            if self.connected[k] {
                return true;
            }
            k = k + 1;
        }
        false
    }

    /// The tiles to try in the empty square `pos`, after the node `node`.
    fn expanded_tiles(&self, node: DictNode<'d>, pos: usize, Ghost(p): Ghost<Seq<char>>) -> (r: Vec<Tile>)
        requires
            self.wf(),
            pos < self.letters@.len(),
            forall|q: Seq<char>| #![trigger dawg_labels(node, q)] dawg_labels(node, q) == dawg_labels(self.root, p + q),
        ensures
            r@ == candidates(self.root, p, self.valid_view()[pos as int], self.rack@),
    {
        let labels = node.child_letters();
        proof {
            assert(p + Seq::<char>::empty() == p);
            assert(labels@ == dawg_labels(self.root, p));
            assert(!dawg_labels(self.root, p).contains('*'));
        }
        let valid = self.valid[pos].intersects(labels.as_slice());
        proof {
            let v = self.valid_view()[pos as int];
            assert(v == self.valid@[pos as int]@);
            assert((|c: char| letter_set_contains(self.valid@[pos as int]@, c)) =~= (|c: char|
                letter_set_contains(v, c)));
        }
        self.rack.expand_wildcards(valid.as_slice())
    }

    /// Places `tile` in the empty square `pos`, taking it from the rack; returns the
    /// rack slot it came from.
    fn place_tile(&mut self, pos: usize, tile: Tile) -> (rack_pos: usize)
        requires
            pos < old(self).letters@.len(),
            old(self).rack@.contains(Some(rack_form(tile))),
        ensures
            final(self).letters@ == old(self).letters@.update(pos as int, Some(tile)),
            final(self).rack@ == rack_without(old(self).rack@, tile),
            rack_pos == first_slot(old(self).rack@, Some(rack_form(tile))),
            final(self).valid == old(self).valid,
            final(self).connected == old(self).connected,
            final(self).root == old(self).root,
            final(self).start_pos == old(self).start_pos,
    {
        let ghost old_rack = self.rack@;
        let rack_pos = self.rack.remove(tile);
        proof {
            let x = Some(rack_form(tile));
            lemma_first_slot_exists(old_rack, x, rack_pos as int);
            let f = first_slot(old_rack, x);
            if f < rack_pos {
                assert(old_rack[f] != x);
            }
            if rack_pos < f {
                assert(old_rack[rack_pos as int] != x);
            }
        }
        self.letters.set(pos, Some(tile));
        rack_pos
    }

    /// Takes `tile` back from the square `pos` and returns it to the slot `rack_pos`.
    fn remove_tile(&mut self, pos: usize, tile: Tile, rack_pos: usize)
        requires
            pos < old(self).letters@.len(),
            rack_pos < old(self).rack@.len(),
            old(self).rack@[rack_pos as int] is None,
        ensures
            final(self).letters@ == old(self).letters@.update(pos as int, None),
            final(self).rack@ == old(self).rack@.update(rack_pos as int, Some(rack_form(tile))),
            final(self).valid == old(self).valid,
            final(self).connected == old(self).connected,
            final(self).root == old(self).root,
            final(self).start_pos == old(self).start_pos,
    {
        self.rack.set(tile, rack_pos);
        self.letters.set(pos, None);
    }

    /// Places `t` in the empty square `pos`, taking it from the rack, reports into `out`
    /// the words that the search from `start` then finds, and takes `t` back.
    fn try_tile(&mut self, start: usize, pos: usize, t: Tile, out: &mut Vec<(String, usize)>)
        requires
            old(self).wf(),
            start < old(self).letters@.len(),
            pos < old(self).letters@.len(),
            old(self).letters@[pos as int] is None,
            old(self).rack@.contains(Some(rack_form(t))),
            rack_blank_wildcards(rack_without(old(self).rack@, t)),
            tile_count(rack_without(old(self).rack@, t)) < tile_count(old(self).rack@),
        ensures
            final(self).letters@ == old(self).letters@,
            final(self).valid == old(self).valid,
            final(self).connected == old(self).connected,
            final(self).rack@ == old(self).rack@,
            final(self).root == old(self).root,
            final(self).start_pos == old(self).start_pos,
            found_view(final(out)@) == found_view(old(out)@) + row_search(
                old(self).root,
                old(self).letters@.update(pos as int, Some(t)),
                old(self).valid_view(),
                old(self).connected@,
                rack_without(old(self).rack@, t),
                start as int,
                true,
            ),
        decreases tile_count(old(self).rack@), 0nat,
    {
        let ghost letters = self.letters@;
        let ghost rack = self.rack@;
        proof {
            let j = choose|j: int| 0 <= j < rack.len() && rack[j] == Some(rack_form(t));
            lemma_first_slot_exists(rack, Some(rack_form(t)), j);
        }
        let rack_pos = self.place_tile(pos, t);
        self.extend(start, true, out);
        self.remove_tile(pos, t, rack_pos);
        proof {
            assert(self.letters@ =~= letters);
            assert(self.rack@ =~= rack);
        }
    }

    /// Reports, into `out`, the words found from the current state starting at `start`
    /// (see `row_search`); the row and rack are left as they were.
    #[verifier::rlimit(60)]
    fn extend(&mut self, start: usize, report: bool, out: &mut Vec<(String, usize)>)
        requires
            old(self).wf(),
            start < old(self).letters@.len(),
        ensures
            final(self).letters@ == old(self).letters@,
            final(self).valid == old(self).valid,
            final(self).connected == old(self).connected,
            final(self).rack@ == old(self).rack@,
            final(self).root == old(self).root,
            final(self).start_pos == old(self).start_pos,
            found_view(final(out)@) == found_view(old(out)@) + row_search(
                old(self).root,
                old(self).letters@,
                old(self).valid_view(),
                old(self).connected@,
                old(self).rack@,
                start as int,
                report,
            ),
        decreases tile_count(old(self).rack@), 1nat,
    {
        let ghost letters = self.letters@;
        let ghost valid = self.valid_view();
        let ghost conn = self.connected@;
        let ghost rack = self.rack@;
        let ghost root = self.root;
        let ghost out0 = found_view(out@);
        let ghost n = run_len(letters, start as int);
        let ghost p = chars_from(letters, start as int, n);
        let ghost target = out0 + row_search(root, letters, valid, conn, rack, start as int, report);
        proof {
            lemma_run_len_bound(letters, start as int);
            lemma_search_unfold(root, letters, valid, conn, rack, start as int, report);
        }
        let (walked, pos) = self.walk(start);
        let node = match walked {
            Some(node) => node,
            None => {
                assert(target == out0);
                return;
            },
        };
        if report && node.is_word() && self.touches(start, pos) {
            proof {
                assert(p + Seq::<char>::empty() == p);
            }
            let word = self.word_at(start);
            out.push((word, start));
            proof {
                assert(found_view(out@) == out0.push((word@, start as int)));
            }
        } else {
            proof {
                assert(p + Seq::<char>::empty() == p);
            }
        }
        let ghost found = if report && dawg_words(root).contains(p) && any_connected(conn, start as int, n) {
            seq![(chars_from(letters, start as int, word_len(letters, start as int)), start as int)]
        } else {
            Seq::empty()
        };
        assert(found_view(out@) == out0 + found);
        if pos < self.letters.len() {
            let cands = self.expanded_tiles(node, pos, Ghost(p));
            if cands.len() > 0 {
                let mut cur = cands[0];
                assert(cands@.contains(cur)) by {
                    assert(cands@[0] == cur);
                }

                loop
                    invariant_except_break
                        cands@.contains(cur),
                        found_view(out@) + try_candidates(root, letters, valid, conn, rack,
                            start as int, pos as int, cands@, cur) == target,
                    invariant
                        self.letters@ == letters,
                        letters == old(self).letters@,
                        self.valid == old(self).valid,
                        self.connected == old(self).connected,
                        self.start_pos == old(self).start_pos,
                        rack == old(self).rack@,
                        root == old(self).root,
                        self.valid_view() == valid,
                        self.connected@ == conn,
                        self.rack@ == rack,
                        self.root == root,
                        self.wf(),
                        start < letters.len(),
                        pos == start + n,
                        pos < letters.len(),
                        letters[pos as int] is None,
                        p == chars_from(letters, start as int, n),
                        on_path(root, p),
                        cands@ == candidates(root, p, valid[pos as int], rack),
                        target == out0 + found + try_candidates(root, letters, valid, conn, rack,
                            start as int, pos as int, cands@, cands@[0]),
                    ensures
                        found_view(out@) == target,
                    decreases count_after(cands@, cur),
                {
                    proof {
                        lemma_try_step(root, letters, valid, conn, rack, start as int, pos as int, p, cands@, cur);
                    }
                    let ghost before = found_view(out@);
                    self.try_tile(start, pos, cur, out);
                    let next = next_after(&cands, cur);
                    match next {
                        Some(t) => {
                            proof {
                                lemma_first_after(cands@, cur);
                                lemma_count_after_decreases(cands@, cur, t);
                            }
                            cur = t;
                        },
                        None => {
                            break;
                        },
                    }
                }
            }
        }
    }
}


/// One step of `try_candidates`: the candidate `t` can be taken from the rack, doing so
/// leaves fewer tiles and no placed wildcard, and the words found are those of the
/// state with `t` placed followed by those of the next candidate.
proof fn lemma_try_step(
    root: DictNode,
    letters: Seq<Option<Tile>>,
    valid: Seq<LetterSet>,
    conn: Seq<bool>,
    rack: Seq<Option<Tile>>,
    start: int,
    pos: int,
    p: Seq<char>,
    cands: Seq<Tile>,
    t: Tile,
)
    requires
        0 <= pos < valid.len(),
        cands == candidates(root, p, valid[pos], rack),
        cands.contains(t),
        rack_blank_wildcards(rack),
    ensures
        rack.contains(Some(rack_form(t))),
        0 <= first_slot(rack, Some(rack_form(t))) < rack.len(),
        rack[first_slot(rack, Some(rack_form(t)))] == Some(rack_form(t)),
        tile_count(rack_without(rack, t)) < tile_count(rack),
        rack_blank_wildcards(rack_without(rack, t)),
        try_candidates(root, letters, valid, conn, rack, start, pos, cands, t) == row_search(
            root,
            letters.update(pos, Some(t)),
            valid,
            conn,
            rack_without(rack, t),
            start,
            true,
        ) + match first_after(cands, t) {
            Some(next) => try_candidates(root, letters, valid, conn, rack, start, pos, cands, next),
            None => Seq::empty(),
        },
{
    reveal(try_candidates);
    reveal(row_search);
    lemma_expand_all_from_rack(
        present_tiles(rack),
        dawg_labels(root, p).filter(|c: char| letter_set_contains(valid[pos], c)),
        t,
    );
    lemma_present_contains(rack, rack_form(t));
    let j = choose|j: int| 0 <= j < rack.len() && rack[j] == Some(rack_form(t));
    lemma_first_slot_exists(rack, Some(rack_form(t)), j);
    let i = first_slot(rack, Some(rack_form(t)));
    lemma_present_update_none(rack, i);
    assert forall|ch: char| !present_tiles(rack_without(rack, t)).contains(Tile::Wildcard(Some(ch))) by {
        if present_tiles(rack_without(rack, t)).contains(Tile::Wildcard(Some(ch))) {
            assert(present_tiles(rack).contains(Tile::Wildcard(Some(ch))));
        }
    }
}


/// `row_search` unfolded once.
pub(crate) proof fn lemma_search_unfold(
    root: DictNode,
    letters: Seq<Option<Tile>>,
    valid: Seq<LetterSet>,
    conn: Seq<bool>,
    rack: Seq<Option<Tile>>,
    start: int,
    report: bool,
)
    ensures
        ({
            let n = run_len(letters, start);
            let p = chars_from(letters, start, n);
            let found = if report && dawg_words(root).contains(p) && any_connected(conn, start, n) {
                seq![(chars_from(letters, start, word_len(letters, start)), start)]
            } else {
                Seq::empty()
            };
            let pos = start + n;
            row_search(root, letters, valid, conn, rack, start, report) == if !on_path(root, p) {
                Seq::empty()
            } else if 0 <= pos < letters.len() && candidates(root, p, valid[pos], rack).len() > 0 {
                found + try_candidates(root, letters, valid, conn, rack, start, pos,
                    candidates(root, p, valid[pos], rack), candidates(root, p, valid[pos], rack)[0])
            } else {
                found
            }
        }),
{
    reveal(row_search);
    reveal(try_candidates);
}


impl<'d> RowMatcher<'d> {
    /// All the words of the row from the start square on, see `row_words_from`. Every
    /// tile placed during the search is taken back: the row, the rack and the dictionary
    /// are left as they were, and only the start has moved to the end of the row.
    pub fn collect(&mut self) -> (r: Vec<(String, usize)>)
        requires
            old(self).wf(),
        ensures
            found_view(r@) == row_words_from(
                old(self).root_view(),
                old(self).letters_view(),
                old(self).valid_view(),
                old(self).connected_view(),
                old(self).rack_view(),
                old(self).start_view(),
            ),
            final(self).wf(),
            final(self).letters_view() == old(self).letters_view(),
            final(self).valid_view() == old(self).valid_view(),
            final(self).connected_view() == old(self).connected_view(),
            final(self).rack_view() == old(self).rack_view(),
            final(self).root_view() == old(self).root_view(),
            final(self).start_view() == old(self).letters_view().len(),
    {
        let m = self;
        let mut out: Vec<(String, usize)> = Vec::new();
        let ghost root = m.root;
        let ghost letters = m.letters@;
        let ghost valid = m.valid_view();
        let ghost conn = m.connected@;
        let ghost rack = m.rack@;
        let ghost target = row_words_from(root, letters, valid, conn, rack, m.start_pos as int);
        while m.start_pos < m.letters.len()
            invariant
                m.wf(),
                m.root == root,
                m.letters@ == letters,
                m.valid_view() == valid,
                m.connected@ == conn,
                m.rack@ == rack,
                m.start_pos <= letters.len(),
                found_view(out@) + row_words_from(root, letters, valid, conn, rack, m.start_pos as int) == target,
            decreases letters.len() - m.start_pos,
        {
            let start = m.start_pos;
            let ghost before = found_view(out@);
            m.extend(start, false, &mut out);
            let run = run_len_exec(&m, start);
            proof {
                lemma_run_len_bound(letters, start as int);
                assert(row_words_from(root, letters, valid, conn, rack, start as int) == row_search(
                    root, letters, valid, conn, rack, start as int, false) + row_words_from(
                    root, letters, valid, conn, rack, start + run + 1));
            }
            if start + run < m.letters.len() {
                m.start_pos = start + run + 1;
            } else {
                m.start_pos = m.letters.len();
                proof {
                    assert(row_words_from(root, letters, valid, conn, rack, start + run + 1) == Seq::<(Seq<char>, int)>::empty());
                    assert(row_words_from(root, letters, valid, conn, rack, letters.len() as int) == Seq::<(Seq<char>, int)>::empty());
                }
            }
        }
        proof {
            assert(row_words_from(root, letters, valid, conn, rack, m.start_pos as int) == Seq::<(Seq<char>, int)>::empty());
        }
        out
    }
}


/// Every word that a search from `start` finds starts at `start`.
pub proof fn lemma_search_start(
    root: DictNode,
    letters: Seq<Option<Tile>>,
    valid: Seq<LetterSet>,
    conn: Seq<bool>,
    rack: Seq<Option<Tile>>,
    start: int,
    report: bool,
)
    ensures
        forall|k: int| 0 <= k < row_search(root, letters, valid, conn, rack, start, report).len()
            ==> (#[trigger] row_search(root, letters, valid, conn, rack, start, report)[k]).1 == start,
    decreases tile_count(rack), 1nat, 0nat,
{
    lemma_search_unfold(root, letters, valid, conn, rack, start, report);
    let n = run_len(letters, start);
    let p = chars_from(letters, start, n);
    let pos = start + n;
    let r = row_search(root, letters, valid, conn, rack, start, report);
    let found: Seq<(Seq<char>, int)> = if report && dawg_words(root).contains(p) && any_connected(conn, start, n) {
        seq![(chars_from(letters, start, word_len(letters, start)), start)]
    } else {
        Seq::empty()
    };
    if on_path(root, p) {
        if 0 <= pos < letters.len() && candidates(root, p, valid[pos], rack).len() > 0 {
            let cands = candidates(root, p, valid[pos], rack);
            let tc = try_candidates(root, letters, valid, conn, rack, start, pos, cands, cands[0]);
            lemma_try_start(root, letters, valid, conn, rack, start, pos, cands, cands[0]);
            assert(r == found + tc);
            assert forall|k: int| 0 <= k < r.len() implies (#[trigger] r[k]).1 == start by {
                if k >= found.len() {
                    assert(r[k] == tc[k - found.len()]);
                }
            }
        } else {
            assert(r == found);
        }
    }
}

/// Every word that trying the candidates from `t` on finds starts at `start`.
proof fn lemma_try_start(
    root: DictNode,
    letters: Seq<Option<Tile>>,
    valid: Seq<LetterSet>,
    conn: Seq<bool>,
    rack: Seq<Option<Tile>>,
    start: int,
    pos: int,
    cands: Seq<Tile>,
    t: Tile,
)
    ensures
        forall|k: int| 0 <= k < try_candidates(root, letters, valid, conn, rack, start, pos, cands, t).len()
            ==> (#[trigger] try_candidates(root, letters, valid, conn, rack, start, pos, cands, t)[k]).1 == start,
    decreases tile_count(rack), 0nat, count_after(cands, t),
{
    reveal(try_candidates);
    reveal(row_search);
    if rack.contains(Some(rack_form(t))) {
        let j = choose|j: int| 0 <= j < rack.len() && rack[j] == Some(rack_form(t));
        lemma_first_slot_exists(rack, Some(rack_form(t)), j);
        let i = first_slot(rack, Some(rack_form(t)));
        lemma_present_update_none(rack, i);
        let placed = row_search(root, letters.update(pos, Some(t)), valid, conn, rack_without(rack, t), start, true);
        lemma_search_start(root, letters.update(pos, Some(t)), valid, conn, rack_without(rack, t), start, true);
        let r = try_candidates(root, letters, valid, conn, rack, start, pos, cands, t);
        match first_after(cands, t) {
            Some(next) => {
                lemma_first_after(cands, t);
                lemma_count_after_decreases(cands, t, next);
                lemma_try_start(root, letters, valid, conn, rack, start, pos, cands, next);
                let rest = try_candidates(root, letters, valid, conn, rack, start, pos, cands, next);
                assert(r == placed + rest);
                assert forall|k: int| 0 <= k < r.len() implies (#[trigger] r[k]).1 == start by {
                    if k >= placed.len() {
                        assert(r[k] == rest[k - placed.len()]);
                    } else {
                        assert(r[k] == placed[k]);
                    }
                }
            },
            None => {
                assert(r == placed);
            },
        }
    }
}

/// Every word found in a row starts on a square of the row, at `start` or later.
pub proof fn lemma_row_words_start(
    root: DictNode,
    letters: Seq<Option<Tile>>,
    valid: Seq<LetterSet>,
    conn: Seq<bool>,
    rack: Seq<Option<Tile>>,
    start: int,
)
    requires
        0 <= start,
    ensures
        forall|k: int| 0 <= k < row_words_from(root, letters, valid, conn, rack, start).len()
            ==> start <= (#[trigger] row_words_from(root, letters, valid, conn, rack, start)[k]).1 < letters.len(),
    decreases letters.len() + 1 - start,
{
    if 0 <= start < letters.len() {
        lemma_run_len_bound(letters, start);
        let next = start + run_len(letters, start) + 1;
        lemma_search_start(root, letters, valid, conn, rack, start, false);
        lemma_row_words_start(root, letters, valid, conn, rack, next);
        let a = row_search(root, letters, valid, conn, rack, start, false);
        let b = row_words_from(root, letters, valid, conn, rack, next);
        assert forall|k: int| 0 <= k < (a + b).len() implies start <= (#[trigger] (a + b)[k]).1 < letters.len() by {
            if k >= a.len() {
                assert((a + b)[k] == b[k - a.len()]);
            } else {
                assert((a + b)[k] == a[k]);
            }
        }
    }
}


/// The word from `i` is the whole run of tiles from `i` when they all show letters.
proof fn lemma_word_len_shown(letters: Seq<Option<Tile>>, i: int)
    requires
        forall|k: int| i <= k < i + run_len(letters, i) ==> #[trigger] shown_letter(letters[k]->Some_0) is Some,
    ensures
        word_len(letters, i) == run_len(letters, i),
    decreases letters.len() - i,
{
    if 0 <= i < letters.len() && letters[i] is Some {
        assert(shown_letter(letters[i]->Some_0) is Some);
        lemma_word_len_shown(letters, i + 1);
    }
}

/// When the tiles of the run from `i` spell a path of a graph with no `'*'` label, they
/// all show letters, so the word from `i` is the whole run.
pub proof fn lemma_word_len_on_path(root: DictNode, letters: Seq<Option<Tile>>, i: int)
    requires
        no_wildcard_labels(root),
        0 <= i,
        on_path(root, chars_from(letters, i, run_len(letters, i))),
    ensures
        word_len(letters, i) == run_len(letters, i),
{
    let n = run_len(letters, i);
    let p = chars_from(letters, i, n);
    lemma_run_len_bound(letters, i);
    assert forall|k: int| i <= k < i + n implies #[trigger] shown_letter(letters[k]->Some_0) is Some by {
        let j = k - i;
        assert(letters[i + j] is Some);
        assert(p[j] == tile_char(letters[i + j]->Some_0));
        assert(dawg_labels(root, p.take(j)).contains(p[j]));
        assert(!dawg_labels(root, p.take(j)).contains('*'));
    }
    lemma_word_len_shown(letters, i);
}

/// Every expansion of rack tiles shows a letter.
pub(crate) proof fn lemma_expansions_shown(ts: Seq<Tile>, valid: Seq<char>)
    ensures
        forall|k: int| 0 <= k < expand_all(ts, valid).len() ==> #[trigger] shown_letter(expand_all(ts, valid)[k]) is Some,
    decreases ts.len(),
{
    if ts.len() > 0 {
        lemma_expansions_shown(ts.drop_last(), valid);
        let a = expand_all(ts.drop_last(), valid);
        let e = expansion(ts.last(), valid);
        assert(expand_all(ts, valid) == a + e);
        assert forall|k: int| 0 <= k < (a + e).len() implies #[trigger] shown_letter((a + e)[k]) is Some by {
            if k >= a.len() {
                assert((a + e)[k] == e[k - a.len()]);
            } else {
                assert((a + e)[k] == a[k]);
            }
        }
    }
}

// ------------------------------------------------------------------------------------------
// Every legal word is found
// ------------------------------------------------------------------------------------------

/// True iff each tile of `s` is `tile_le` every later one.
pub open spec fn tiles_in_order(s: Seq<Tile>) -> bool {
    forall|i: int, j: int| 0 <= i < j < s.len() ==> crate::letters::tile_le(#[trigger] s[i], #[trigger] s[j])
}

/// True iff every tile of `s` is a letter tile.
pub open spec fn all_letters(s: Seq<Tile>) -> bool {
    forall|i: int| 0 <= i < s.len() ==> (#[trigger] s[i]) is Letter
}

/// True iff every word accepted below `root` can be followed edge by edge.
pub open spec fn words_on_path(root: DictNode) -> bool {
    forall|w: Seq<char>| #[trigger] dawg_words(root).contains(w) ==> on_path(root, w)
}

/// The tiles that laying `w` from square `s` takes from the rack: the letter for each
/// of its first `m` squares that is empty, in order.
pub open spec fn needed(letters: Seq<Option<Tile>>, s: int, w: Seq<char>, m: int) -> Seq<Tile>
    decreases m,
{
    if m <= 0 {
        Seq::empty()
    } else {
        let pre = needed(letters, s, w, m - 1);
        if letters[s + m - 1] is None {
            pre.push(Tile::Letter(w[m - 1]))
        } else {
            pre
        }
    }
}

/// The present tiles of slots joined are those of each part, joined.
pub(crate) proof fn lemma_present_concat(a: Seq<Option<Tile>>, b: Seq<Option<Tile>>)
    ensures
        present_tiles(a + b) == present_tiles(a) + present_tiles(b),
    decreases b.len(),
{
    if b.len() == 0 {
        assert(a + b == a);
        assert(present_tiles(b) == Seq::<Tile>::empty());
        assert(present_tiles(a) + present_tiles(b) == present_tiles(a));
    } else {
        lemma_present_concat(a, b.drop_last());
        assert((a + b).drop_last() == a + b.drop_last());
        assert((a + b).last() == b.last());
    }
}

/// Emptying the slot `i` removes its tile from the present tiles: they are those
/// before it, its tile, and those after it.
pub(crate) proof fn lemma_present_split(s: Seq<Option<Tile>>, i: int)
    requires
        0 <= i < s.len(),
        s[i] is Some,
    ensures
        present_tiles(s) == present_tiles(s.take(i)).push(s[i]->Some_0) + present_tiles(s.skip(i + 1)),
        present_tiles(s.update(i, None)) == present_tiles(s.take(i)) + present_tiles(s.skip(i + 1)),
{
    let t = s[i]->Some_0;
    assert(s == s.take(i).push(s[i]) + s.skip(i + 1));
    lemma_present_concat(s.take(i).push(s[i]), s.skip(i + 1));
    assert(s.take(i).push(s[i]).drop_last() == s.take(i));
    let u = s.update(i, None);
    assert(u == s.take(i).push(None) + s.skip(i + 1));
    lemma_present_concat(s.take(i).push(None), s.skip(i + 1));
    assert(s.take(i).push(None::<Tile>).drop_last() == s.take(i));
}

/// Emptying a slot takes its tile out of the present tiles, and keeps a rack of letters,
/// or of tiles in order, so.
pub(crate) proof fn lemma_rack_take_out(s: Seq<Option<Tile>>, i: int)
    requires
        0 <= i < s.len(),
        s[i] is Some,
    ensures
        tiles_in_order(present_tiles(s)) ==> tiles_in_order(present_tiles(s.update(i, None))),
        all_letters(present_tiles(s)) ==> all_letters(present_tiles(s.update(i, None))),
        present_tiles(s.update(i, None)).to_multiset() == present_tiles(s).to_multiset().remove(s[i]->Some_0),
{
    lemma_present_split(s, i);
    let a = present_tiles(s.take(i));
    let b = present_tiles(s.skip(i + 1));
    let t = s[i]->Some_0;
    let full = a.push(t) + b;
    let k = a.len() as int;
    assert(full.remove(k) == a + b);
    vstd::seq_lib::to_multiset_remove(full, k);
    assert(full[k] == t);
    let r = a + b;
    if tiles_in_order(present_tiles(s)) {
        assert forall|x: int, y: int| 0 <= x < y < r.len() implies crate::letters::tile_le(#[trigger] r[x], #[trigger] r[y]) by {
            let fx = if x < k { x } else { x + 1 };
            let fy = if y < k { y } else { y + 1 };
            assert(r[x] == full[fx]);
            assert(r[y] == full[fy]);
        }
    }
    if all_letters(present_tiles(s)) {
        assert forall|x: int| 0 <= x < r.len() implies (#[trigger] r[x]) is Letter by {
            let fx = if x < k { x } else { x + 1 };
            assert(r[x] == full[fx]);
        }
    }
}

/// True iff each candidate that some earlier candidate comes after already occurs
/// before that earlier one: walking the candidates in order, the first one after any
/// tile is the least of those after it.
pub open spec fn repeats_before(cands: Seq<Tile>) -> bool {
    forall|i: int, j: int|
        #![trigger cands[i], cands[j]]
        0 <= i < j < cands.len() && tile_lt(cands[j], cands[i]) ==> exists|k: int| 0 <= k < i && cands[k] == cands[j]
}

/// Any two tiles are ordered one way or the other.
proof fn lemma_tile_le_total(a: Tile, b: Tile)
    ensures
        crate::letters::tile_le(a, b) || crate::letters::tile_le(b, a),
{
}

/// The first candidate after `t` at or before place `i`.
proof fn lemma_min_index(cands: Seq<Tile>, t: Tile, i: int) -> (j: int)
    requires
        0 <= i < cands.len(),
        tile_lt(t, cands[i]),
    ensures
        0 <= j <= i,
        tile_lt(t, cands[j]),
        forall|k: int| 0 <= k < j ==> !tile_lt(t, #[trigger] cands[k]),
    decreases i,
{
    if exists|k: int| 0 <= k < i && tile_lt(t, #[trigger] cands[k]) {
        let k = choose|k: int| 0 <= k < i && tile_lt(t, #[trigger] cands[k]);
        lemma_min_index(cands, t, k)
    } else {
        i
    }
}

/// `first_after` gives the first candidate after `t`.
proof fn lemma_first_after_index(cands: Seq<Tile>, t: Tile, j: int)
    requires
        0 <= j < cands.len(),
        tile_lt(t, cands[j]),
        forall|k: int| 0 <= k < j ==> !tile_lt(t, #[trigger] cands[k]),
    ensures
        first_after(cands, t) == Some(cands[j]),
    decreases j,
{
    if j > 0 {
        assert(!tile_lt(t, cands[0]));
        let rest = cands.drop_first();
        assert forall|k: int| 0 <= k < j - 1 implies !tile_lt(t, #[trigger] rest[k]) by {
            assert(rest[k] == cands[k + 1]);
        }
        lemma_first_after_index(rest, t, j - 1);
    }
}

/// In candidates whose repeats come first, the first one after `t` comes no later
/// than any candidate after `t`.
proof fn lemma_first_after_le(cands: Seq<Tile>, t: Tile, c: Tile)
    requires
        repeats_before(cands),
        cands.contains(c),
        tile_lt(t, c),
    ensures
        first_after(cands, t) matches Some(n) && crate::letters::tile_le(n, c),
{
    let ic = choose|ic: int| 0 <= ic < cands.len() && cands[ic] == c;
    let j = lemma_min_index(cands, t, ic);
    lemma_first_after_index(cands, t, j);
    lemma_tile_le_total(cands[j], c);
    if !crate::letters::tile_le(cands[j], c) {
        assert(tile_lt(c, cands[j]));
        if ic > j {
            assert(tile_lt(cands[ic], cands[j]));
            let k = choose|k: int| 0 <= k < j && cands[k] == cands[ic];
            assert(!tile_lt(t, cands[k]));
        }
    }
}

/// In candidates whose repeats come first, the first candidate comes no later than
/// any other.
proof fn lemma_first_least(cands: Seq<Tile>, c: Tile)
    requires
        repeats_before(cands),
        cands.contains(c),
    ensures
        crate::letters::tile_le(cands[0], c),
{
    let ic = choose|ic: int| 0 <= ic < cands.len() && cands[ic] == c;
    lemma_tile_le_total(cands[0], c);
    if ic > 0 && !crate::letters::tile_le(cands[0], c) {
        assert(tile_lt(cands[ic], cands[0]));
    }
}

/// True iff each placed wildcard of `s` standing for `y` comes after one standing for
/// each character of `valid` below `y`.
pub open spec fn blocks_before(s: Seq<Tile>, valid: Seq<char>) -> bool {
    forall|i: int, z: char|
        #![trigger s[i], valid.contains(z)]
        0 <= i < s.len() && s[i] is Wildcard && s[i]->Wildcard_0 is Some && valid.contains(z) && z < s[i]->Wildcard_0->Some_0
            ==> exists|k: int| 0 <= k < i && s[k] == Tile::Wildcard(Some(z))
}

/// The candidates drawn from a rack in the order of tiles (letters, then blank
/// wildcards), for characters in increasing order, have their repeats first.
pub proof fn lemma_candidates_order(ts: Seq<Tile>, valid: Seq<char>)
    requires
        tiles_in_order(ts),
        forall|ch: char| !ts.contains(Tile::Wildcard(Some(ch))),
        crate::letters::strictly_increasing(valid),
    ensures
        repeats_before(expand_all(ts, valid)),
        blocks_before(expand_all(ts, valid), valid),
        ts.len() > 0 && ts.last() is Letter ==> forall|k: int| 0 <= k < expand_all(ts, valid).len() ==> {
            &&& (#[trigger] expand_all(ts, valid)[k]) is Letter
            &&& crate::letters::tile_le(expand_all(ts, valid)[k], ts.last())
        },
    decreases ts.len(),
{
    if ts.len() > 0 {
        let d = ts.drop_last();
        let last = ts.last();
        assert(ts[ts.len() - 1] == last);
        assert(tiles_in_order(d)) by {
            assert forall|i: int, j: int| 0 <= i < j < d.len() implies crate::letters::tile_le(#[trigger] d[i], #[trigger] d[j]) by {
                assert(d[i] == ts[i] && d[j] == ts[j]);
            }
        }
        assert forall|ch: char| !d.contains(Tile::Wildcard(Some(ch))) by {
            if d.contains(Tile::Wildcard(Some(ch))) {
                let k = choose|k: int| 0 <= k < d.len() && d[k] == Tile::Wildcard(Some(ch));
                assert(ts[k] == d[k]);
                assert(ts.contains(Tile::Wildcard(Some(ch))));
            }
        }
        lemma_candidates_order(d, valid);
        let a = expand_all(d, valid);
        let e = expansion(last, valid);
        let r = a + e;
        assert(expand_all(ts, valid) == r);
        match last {
            Tile::Letter(x) => {
                // Every earlier rack tile is a letter no later than `last`.
                if d.len() > 0 {
                    assert(d.last() == ts[ts.len() - 2]);
                    assert(crate::letters::tile_le(ts[ts.len() - 2], ts[ts.len() - 1]));
                    assert(d.last() is Letter);
                }
                assert forall|k: int| 0 <= k < a.len() implies (#[trigger] a[k]) is Letter && crate::letters::tile_le(a[k], last) by {
                    assert(d.len() > 0) by {
                        if d.len() == 0 {
                            assert(a.len() == 0);
                        }
                    }
                    assert(crate::letters::tile_le(a[k], d.last()));
                }
                assert forall|k: int| 0 <= k < r.len() implies (#[trigger] r[k]) is Letter && crate::letters::tile_le(r[k], last) by {
                    if k < a.len() {
                        assert(r[k] == a[k]);
                    } else {
                        assert(r[k] == last);
                    }
                }
                assert forall|i: int, j: int| 0 <= i < j < r.len() && tile_lt(#[trigger] r[j], #[trigger] r[i]) implies exists|k: int| 0 <= k < i && r[k] == r[j] by {
                    if j < a.len() {
                        assert(r[i] == a[i] && r[j] == a[j]);
                        let k = choose|k: int| 0 <= k < i && a[k] == a[j];
                        assert(r[k] == a[k]);
                    } else {
                        assert(r[j] == last);
                        assert(r[i] == a[i]);
                    }
                }
            },
            Tile::Wildcard(o) => {
                assert(o is None) by {
                    if let Some(ch) = o {
                        assert(ts.contains(Tile::Wildcard(Some(ch))));
                    }
                }
                assert(e == valid.map_values(|c: char| Tile::Wildcard(Some(c))));
                assert forall|i: int, j: int| 0 <= i < j < r.len() && tile_lt(#[trigger] r[j], #[trigger] r[i]) implies exists|k: int| 0 <= k < i && r[k] == r[j] by {
                    if j < a.len() {
                        assert(r[i] == a[i] && r[j] == a[j]);
                        let k = choose|k: int| 0 <= k < i && a[k] == a[j];
                        assert(r[k] == a[k]);
                    } else if i >= a.len() {
                        assert(r[i] == e[i - a.len()] && r[j] == e[j - a.len()]);
                        assert(valid[i - a.len()] < valid[j - a.len()]);
                    } else {
                        let z = valid[j - a.len()];
                        assert(r[j] == Tile::Wildcard(Some(z)));
                        assert(r[i] == a[i]);
                        assert(a[i] is Wildcard && a[i]->Wildcard_0 is Some);
                        assert(valid.contains(z));
                        let k = choose|k: int| 0 <= k < i && a[k] == Tile::Wildcard(Some(z));
                        assert(r[k] == a[k]);
                    }
                }
                assert forall|i: int, z: char|
                    0 <= i < r.len() && (#[trigger] r[i]) is Wildcard && r[i]->Wildcard_0 is Some && #[trigger] valid.contains(z)
                        && z < r[i]->Wildcard_0->Some_0 implies exists|k: int| 0 <= k < i && r[k] == Tile::Wildcard(Some(z)) by {
                    if i < a.len() {
                        assert(r[i] == a[i]);
                        let k = choose|k: int| 0 <= k < i && a[k] == Tile::Wildcard(Some(z));
                        assert(r[k] == a[k]);
                    } else {
                        let y = valid[i - a.len()];
                        assert(r[i] == Tile::Wildcard(Some(y)));
                        let m = choose|m: int| 0 <= m < valid.len() && valid[m] == z;
                        if m >= i - a.len() {
                            if m > i - a.len() {
                                assert(valid[i - a.len()] < valid[m]);
                            }
                        }
                        assert(m < i - a.len());
                        assert(r[a.len() + m] == e[m]);
                    }
                }
            },
        }
    }
}

/// Trying the candidate `t`, when the rack holds it, gives the words found with it
/// placed, then those of the next candidate, if any.
proof fn lemma_try_unfold(
    root: DictNode,
    letters: Seq<Option<Tile>>,
    valid: Seq<LetterSet>,
    conn: Seq<bool>,
    rack: Seq<Option<Tile>>,
    start: int,
    pos: int,
    cands: Seq<Tile>,
    t: Tile,
)
    requires
        rack.contains(Some(rack_form(t))),
    ensures
        try_candidates(root, letters, valid, conn, rack, start, pos, cands, t) == row_search(
            root,
            letters.update(pos, Some(t)),
            valid,
            conn,
            rack_without(rack, t),
            start,
            true,
        ) + match first_after(cands, t) {
            Some(next) => try_candidates(root, letters, valid, conn, rack, start, pos, cands, next),
            None => Seq::empty(),
        },
{
    reveal(try_candidates);
    reveal(row_search);
    let j = choose|j: int| 0 <= j < rack.len() && rack[j] == Some(rack_form(t));
    lemma_first_slot_exists(rack, Some(rack_form(t)), j);
    lemma_present_update_none(rack, first_slot(rack, Some(rack_form(t))));
    match first_after(cands, t) {
        Some(next) => {
            lemma_first_after(cands, t);
            lemma_count_after_decreases(cands, t, next);
        },
        None => {
            let placed = row_search(root, letters.update(pos, Some(t)), valid, conn, rack_without(rack, t), start, true);
            assert(placed + Seq::<(Seq<char>, int)>::empty() == placed);
        },
    }
}

/// Trying the candidates in order from `t` on finds every word that placing a later
/// candidate `c` finds.
#[verifier::spinoff_prover]
#[verifier::rlimit(40)]
proof fn lemma_try_reaches(
    root: DictNode,
    letters: Seq<Option<Tile>>,
    valid: Seq<LetterSet>,
    conn: Seq<bool>,
    rack: Seq<Option<Tile>>,
    start: int,
    pos: int,
    cands: Seq<Tile>,
    t: Tile,
    c: Tile,
)
    requires
        repeats_before(cands),
        cands.contains(t),
        cands.contains(c),
        crate::letters::tile_le(t, c),
        forall|x: Tile| cands.contains(x) ==> rack.contains(Some(rack_form(x))),
    ensures
        forall|f: (Seq<char>, int)|
            row_search(root, letters.update(pos, Some(c)), valid, conn, rack_without(rack, c), start, true).contains(f)
                ==> #[trigger] try_candidates(root, letters, valid, conn, rack, start, pos, cands, t).contains(f),
    decreases count_after(cands, t),
{
    let placed = row_search(root, letters.update(pos, Some(t)), valid, conn, rack_without(rack, t), start, true);
    let r = try_candidates(root, letters, valid, conn, rack, start, pos, cands, t);
    assert(rack.contains(Some(rack_form(t))));
    lemma_try_unfold(root, letters, valid, conn, rack, start, pos, cands, t);
    if t == c {
        match first_after(cands, t) {
            Some(next) => {
                let rest = try_candidates(root, letters, valid, conn, rack, start, pos, cands, next);
                assert(r == placed + rest);
                assert forall|f: (Seq<char>, int)| placed.contains(f) implies #[trigger] r.contains(f) by {
                    let k = choose|k: int| 0 <= k < placed.len() && placed[k] == f;
                    assert(r[k] == f);
                }
            },
            None => {
                assert(r == placed);
            },
        }
    } else {
        assert(tile_lt(t, c));
        lemma_first_after_le(cands, t, c);
        lemma_first_after(cands, t);
        let next = first_after(cands, t)->Some_0;
        lemma_count_after_decreases(cands, t, next);
        lemma_try_reaches(root, letters, valid, conn, rack, start, pos, cands, next, c);
        let rest = try_candidates(root, letters, valid, conn, rack, start, pos, cands, next);
        assert(r == placed + rest);
        let pc = row_search(root, letters.update(pos, Some(c)), valid, conn, rack_without(rack, c), start, true);
        assert forall|f: (Seq<char>, int)| pc.contains(f) implies #[trigger] r.contains(f) by {
            assert(rest.contains(f));
            let k = choose|k: int| 0 <= k < rest.len() && rest[k] == f;
            assert(r[placed.len() + k] == f);
        }
    }
}

/// The character at place `n` of `w`.
proof fn char_at(w: Seq<char>, n: int) -> (c: char)
    requires
        0 <= n < w.len(),
    ensures
        c == w[n],
{
    w[n]
}

/// Filling the first empty square of `w` (its `n`-th, which shows `c`) takes its
/// letter first from the tiles it needs.
pub(crate) proof fn lemma_needed_fill(letters: Seq<Option<Tile>>, s: int, w: Seq<char>, n: int, m: int, c: char)
    requires
        0 <= s,
        0 <= n < m,
        s + m <= letters.len(),
        m <= w.len(),
        c == w[n],
        forall|j: int| 0 <= j < n ==> (#[trigger] letters[s + j]) is Some,
        letters[s + n] is None,
    ensures
        needed(letters, s, w, m) == seq![Tile::Letter(c)] + needed(
            letters.update(s + n, Some(Tile::Letter(c))),
            s,
            w,
            m,
        ),
    decreases m,
{
    let l2 = letters.update(s + n, Some(Tile::Letter(c)));
    assert forall|j: int| 0 <= j < n implies (#[trigger] l2[s + j]) is Some by {
        assert(l2[s + j] == letters[s + j]);
    }
    if m == n + 1 {
        lemma_needed_none(letters, s, w, n);
        lemma_needed_none(l2, s, w, n);
        assert(l2[s + n] is Some);
        assert(needed(l2, s, w, m) == needed(l2, s, w, n));
        assert(needed(letters, s, w, m) == Seq::<Tile>::empty().push(Tile::Letter(c)));
        assert(seq![Tile::Letter(c)] + Seq::<Tile>::empty() == Seq::<Tile>::empty().push(Tile::Letter(c)));
    } else {
        lemma_needed_fill(letters, s, w, n, m - 1, c);
        assert(l2[s + m - 1] == letters[s + m - 1]);
        if letters[s + m - 1] is None {
            let d = char_at(w, m - 1);
            assert((seq![Tile::Letter(c)] + needed(l2, s, w, m - 1)).push(Tile::Letter(d))
                == seq![Tile::Letter(c)] + needed(l2, s, w, m - 1).push(Tile::Letter(d)));
        }
    }
}

/// No tile is needed for squares that all hold tiles.
pub(crate) proof fn lemma_needed_none(letters: Seq<Option<Tile>>, s: int, w: Seq<char>, n: int)
    requires
        0 <= n,
        forall|j: int| 0 <= j < n ==> (#[trigger] letters[s + j]) is Some,
    ensures
        needed(letters, s, w, n) == Seq::<Tile>::empty(),
    decreases n,
{
    if n > 0 {
        assert(letters[s + (n - 1)] is Some);
        lemma_needed_none(letters, s, w, n - 1);
    }
}

/// On a path, the labels after each prefix of a word hold its next letter, and each
/// prefix is on the path too.
proof fn lemma_on_path_prefix(root: DictNode, w: Seq<char>, n: int)
    requires
        on_path(root, w),
        0 <= n <= w.len(),
    ensures
        on_path(root, w.take(n)),
        n < w.len() ==> dawg_labels(root, w.take(n)).contains(w[n]),
{
    assert forall|i: int| 0 <= i < w.take(n).len() implies #[trigger] dawg_labels(root, w.take(n).take(i)).contains(w.take(n)[i]) by {
        assert(w.take(n).take(i) == w.take(i));
        assert(dawg_labels(root, w.take(i)).contains(w[i]));
    }
    if n < w.len() {
        assert(dawg_labels(root, w.take(n)).contains(w[n]));
    }
}

/// True iff the labels at every node of the graph below `root` come in increasing
/// order, as they do in every graph that `build_wordlist` makes.
pub open spec fn labels_increasing(root: DictNode) -> bool {
    forall|p: Seq<char>| #[trigger] crate::letters::strictly_increasing(dawg_labels(root, p))
}

/// A rack tile that stands for `ch` expands, for characters among which is `ch`, to
/// that letter or to a wildcard standing for it.
proof fn lemma_expand_has(ts: Seq<Tile>, valid: Seq<char>, x: Tile, ch: char)
    requires
        ts.contains(x),
        valid.contains(ch),
        x == Tile::Letter(ch) || x == Tile::Wildcard(None),
    ensures
        expand_all(ts, valid).contains(if x is Letter { x } else { Tile::Wildcard(Some(ch)) }),
    decreases ts.len(),
{
    let y = if x is Letter { x } else { Tile::Wildcard(Some(ch)) };
    let d = ts.drop_last();
    assert(ts.drop_last().push(ts.last()) == ts);
    let a = expand_all(d, valid);
    let e = expansion(ts.last(), valid);
    assert(expand_all(ts, valid) == a + e);
    if d.contains(x) {
        lemma_expand_has(d, valid, x, ch);
        let k = choose|k: int| 0 <= k < a.len() && a[k] == y;
        assert((a + e)[k] == y);
    } else {
        assert(ts[ts.len() - 1] == x) by {
            let k = choose|k: int| 0 <= k < ts.len() && ts[k] == x;
            if k < ts.len() - 1 {
                assert(d[k] == x);
            }
        }
        let m = choose|m: int| 0 <= m < valid.len() && valid[m] == ch;
        if x is Letter {
            assert(e == seq![x]);
            assert((a + e)[a.len() as int] == y);
        } else {
            assert(e[m] == y);
            assert((a + e)[a.len() + m] == y);
        }
    }
}

/// From a state where the squares of `w` before its first empty one hold tiles, the
/// search from `s` finds `w` at `s` when the dictionary accepts it and it can be laid
/// there with the rack left (a blank wildcard standing for any letter), if the search
/// reports words or a square of `w` is empty.
pub proof fn lemma_search_complete(
    root: DictNode,
    letters: Seq<Option<Tile>>,
    valid: Seq<LetterSet>,
    conn: Seq<bool>,
    rack: Seq<Option<Tile>>,
    s: int,
    w: Seq<char>,
    report: bool,
)
    requires
        words_on_path(root),
        no_wildcard_labels(root),
        labels_increasing(root),
        dawg_words(root).contains(w),
        tiles_in_order(present_tiles(rack)),
        rack_blank_wildcards(rack),
        lies_in_row(letters, valid, conn, s, w),
        rack_supplies(letters, rack, s, w),
        report || exists|i: int| 0 <= i < w.len() && (#[trigger] letters[s + i]) is None,
    ensures
        row_search(root, letters, valid, conn, rack, s, report).contains((w, s)),
    decreases tile_count(rack),
{
    broadcast use vstd::seq_lib::group_to_multiset_ensures;
    broadcast use vstd::multiset::group_multiset_axioms;

    lemma_search_unfold(root, letters, valid, conn, rack, s, report);
    lemma_run_len_bound(letters, s);
    let n = run_len(letters, s) as int;
    let p = chars_from(letters, s, n as nat);
    let r = row_search(root, letters, valid, conn, rack, s, report);
    assert(on_path(root, w));
    let found: Seq<(Seq<char>, int)> = if report && dawg_words(root).contains(p) && any_connected(conn, s, n as nat) {
        seq![(chars_from(letters, s, word_len(letters, s)), s)]
    } else {
        Seq::empty()
    };
    if exists|i: int| 0 <= i < w.len() && (#[trigger] letters[s + i]) is None {
        let i0 = choose|i: int| 0 <= i < w.len() && (#[trigger] letters[s + i]) is None;
        assert(n <= i0) by {
            if n > i0 {
                assert(letters[s + i0] is Some);
            }
        }
        let pos = s + n;
        assert(letters[pos] is None);
        assert(p == w.take(n)) by {
            assert forall|k: int| 0 <= k < n implies #[trigger] p[k] == w.take(n)[k] by {
                assert(letters[s + k] is Some);
            }
        }
        lemma_on_path_prefix(root, w, n);
        let ch = char_at(w, n);
        let pred = |ch: char| letter_set_contains(valid[pos], ch);
        let lv = dawg_labels(root, p).filter(pred);
        assert(lv.contains(w[n])) by {
            let q = choose|q: int| 0 <= q < dawg_labels(root, p).len() && dawg_labels(root, p)[q] == w[n];
            assert(letter_set_contains(valid[s + n], w[n]));
            dawg_labels(root, p).lemma_filter_contains(pred, q);
        }
        assert(crate::letters::strictly_increasing(dawg_labels(root, p)));
        crate::wordlist::lemma_filter_increasing(dawg_labels(root, p), pred);
        // The tiles the rack supplies, the first of them for this square.
        assert forall|j: int| 0 <= j < n implies (#[trigger] letters[s + j]) is Some by {}
        lemma_needed_fill(letters, s, w, n, w.len() as int, ch);
        let need = needed(letters, s, w, w.len() as int);
        let pt = present_tiles(rack);
        let ts = choose|ts: Seq<Tile>| stand_for(ts, need) && #[trigger] ts.to_multiset().subset_of(pt.to_multiset());
        let x = ts[0];
        assert(need[0] == Tile::Letter(ch));
        assert(x == Tile::Letter(ch) || x == Tile::Wildcard(None));
        let c = if x is Letter { x } else { Tile::Wildcard(Some(ch)) };
        assert(rack_form(c) == x);
        assert(ts.to_multiset().count(x) > 0);
        assert(pt.to_multiset().count(x) > 0);
        assert(pt.contains(x));
        let l2 = letters.update(pos, Some(c));
        let l3 = letters.update(pos, Some(Tile::Letter(ch)));
        assert forall|q: int| 0 <= q < w.len() implies (#[trigger] l3[s + q] is None) == (l2[s + q] is None) by {
            if q != n {
                assert(l3[s + q] == letters[s + q]);
                assert(l2[s + q] == letters[s + q]);
            }
        }
        crate::matcher::legal::lemma_needed_same(l3, l2, s, w, w.len() as int);
        let need2 = needed(l2, s, w, w.len() as int);
        assert(need == seq![Tile::Letter(ch)] + need2);
        let cands = candidates(root, p, valid[pos], rack);
        lemma_expand_has(pt, lv, x, ch);
        assert(cands.contains(c));
        assert(cands.len() > 0);
        lemma_candidates_order(pt, lv);
        lemma_first_least(cands, c);
        assert(cands.contains(cands[0]));
        assert forall|y: Tile| cands.contains(y) implies rack.contains(Some(rack_form(y))) by {
            lemma_expand_all_from_rack(pt, lv, y);
            lemma_present_contains(rack, rack_form(y));
        }
        lemma_try_reaches(root, letters, valid, conn, rack, s, pos, cands, cands[0], c);
        // The state with the tile placed.
        lemma_present_contains(rack, x);
        let j = choose|j: int| 0 <= j < rack.len() && rack[j] == Some(x);
        lemma_first_slot_exists(rack, Some(x), j);
        let i1 = first_slot(rack, Some(x));
        lemma_present_update_none(rack, i1);
        lemma_rack_take_out(rack, i1);
        let rack2 = rack_without(rack, c);
        assert(rack2 == rack.update(i1, None));
        let pt2 = present_tiles(rack2);
        assert(pt2.to_multiset() == pt.to_multiset().remove(x));
        let ts2 = ts.drop_first();
        assert(ts =~= ts2.insert(0, x));
        vstd::seq_lib::to_multiset_insert(ts2, 0, x);
        assert(stand_for(ts2, need2)) by {
            assert forall|q: int| 0 <= q < ts2.len() implies #[trigger] ts2[q] == need2[q] || ts2[q] == Tile::Wildcard(None) by {
                assert(ts2[q] == ts[q + 1]);
                assert(need2[q] == need[q + 1]);
            }
        }
        assert(ts2.to_multiset().subset_of(pt2.to_multiset())) by {
            assert forall|y: Tile| ts2.to_multiset().count(y) <= pt2.to_multiset().count(y) by {
                assert(ts.to_multiset().count(y) <= pt.to_multiset().count(y));
            }
        }
        assert(rack_blank_wildcards(rack2)) by {
            assert forall|chr: char| !present_tiles(rack2).contains(Tile::Wildcard(Some(chr))) by {
                if present_tiles(rack2).contains(Tile::Wildcard(Some(chr))) {
                    assert(present_tiles(rack).contains(Tile::Wildcard(Some(chr))));
                }
            }
        }
        assert(lies_in_row(l2, valid, conn, s, w)) by {
            assert forall|i: int| 0 <= i < w.len() implies (#[trigger] l2[s + i] matches Some(t) ==> tile_char(t) == w[i]) by {
                if i != n {
                    assert(l2[s + i] == letters[s + i]);
                }
            }
            assert forall|i: int| 0 <= i < w.len() && l2[s + i] is None implies letter_set_contains(#[trigger] valid[s + i], w[i]) by {
                if i != n {
                    assert(l2[s + i] == letters[s + i]);
                }
            }
            if s + w.len() < l2.len() {
                assert(l2[s + w.len()] == letters[s + w.len()]);
            }
        }
        lemma_search_complete(root, l2, valid, conn, rack2, s, w, true);
        let tc = try_candidates(root, letters, valid, conn, rack, s, pos, cands, cands[0]);
        assert(tc.contains((w, s)));
        assert(r == found + tc);
        let k = choose|k: int| 0 <= k < tc.len() && tc[k] == (w, s);
        assert(r[found.len() + k] == (w, s));
    } else {
        assert(report);
        assert(n == w.len()) by {
            if n < w.len() {
                assert(letters[s + n] is None);
            }
            if n > w.len() {
                assert(letters[s + w.len()] is Some);
            }
        }
        assert(p == w) by {
            assert forall|k: int| 0 <= k < n implies #[trigger] p[k] == w[k] by {
                assert(letters[s + k] is Some);
            }
        }
        assert(w.take(w.len() as int) == w);
        lemma_word_len_on_path(root, letters, s);
        assert(found == seq![(w, s)]);
        assert(r[0] == (w, s));
    }
}

/// A search from a square that starts the row or follows an empty square is part of
/// the search of the whole row.
proof fn lemma_row_words_reach(
    root: DictNode,
    letters: Seq<Option<Tile>>,
    valid: Seq<LetterSet>,
    conn: Seq<bool>,
    rack: Seq<Option<Tile>>,
    start: int,
    s: int,
)
    requires
        0 <= start <= s < letters.len(),
        s == start || letters[s - 1] is None,
    ensures
        forall|f: (Seq<char>, int)|
            row_search(root, letters, valid, conn, rack, s, false).contains(f) ==> #[trigger] row_words_from(
                root,
                letters,
                valid,
                conn,
                rack,
                start,
            ).contains(f),
    decreases letters.len() - start,
{
    lemma_run_len_bound(letters, start);
    let next = start + run_len(letters, start) + 1;
    let a = row_search(root, letters, valid, conn, rack, start, false);
    let b = row_words_from(root, letters, valid, conn, rack, next);
    assert(row_words_from(root, letters, valid, conn, rack, start) == a + b);
    if s == start {
        assert forall|f: (Seq<char>, int)| a.contains(f) implies #[trigger] (a + b).contains(f) by {
            let k = choose|k: int| 0 <= k < a.len() && a[k] == f;
            assert((a + b)[k] == f);
        }
    } else {
        assert(next <= s) by {
            if next > s {
                assert(letters[s - 1] is Some);
            }
        }
        lemma_row_words_reach(root, letters, valid, conn, rack, next, s);
        let x = row_search(root, letters, valid, conn, rack, s, false);
        assert forall|f: (Seq<char>, int)| x.contains(f) implies #[trigger] (a + b).contains(f) by {
            assert(b.contains(f));
            let k = choose|k: int| 0 <= k < b.len() && b[k] == f;
            assert((a + b)[a.len() + k] == f);
        }
    }
}

/// Every word that the dictionary accepts and that can be laid in a row with the
/// rack, from a square that starts the row or follows an empty square and filling at
/// least one empty square, is found, for a rack in the order of tiles (letters, then
/// blank wildcards) and a dictionary whose labels come in increasing order.
pub proof fn lemma_row_words_complete(
    root: DictNode,
    letters: Seq<Option<Tile>>,
    valid: Seq<LetterSet>,
    conn: Seq<bool>,
    rack: Seq<Option<Tile>>,
    s: int,
    w: Seq<char>,
)
    requires
        words_on_path(root),
        no_wildcard_labels(root),
        labels_increasing(root),
        dawg_words(root).contains(w),
        tiles_in_order(present_tiles(rack)),
        rack_blank_wildcards(rack),
        lies_in_row(letters, valid, conn, s, w),
        rack_supplies(letters, rack, s, w),
        s == 0 || letters[s - 1] is None,
        exists|i: int| 0 <= i < w.len() && (#[trigger] letters[s + i]) is None,
    ensures
        row_words_from(root, letters, valid, conn, rack, 0).contains((w, s)),
{
    lemma_search_complete(root, letters, valid, conn, rack, s, w, false);
    lemma_row_words_reach(root, letters, valid, conn, rack, 0, s);
}

} // verus!
