//! What the search of a row finds is a legal play there.

use vstd::prelude::*;

use crate::dawg::{dawg_labels, dawg_words, on_path, DictNode};
use crate::letters::{expand_all, letter_set_contains, present_tiles, rack_form, LetterSet};
use crate::matcher::state::{
    all_letters, any_connected, candidates, chars_from, first_after, first_slot, lemma_count_after_decreases,
    lemma_expand_all_from_rack, lemma_first_after, lemma_first_slot_exists,
    lemma_needed_fill, lemma_needed_none, lemma_present_split, lemma_present_update_none, lemma_rack_take_out, lemma_run_len_bound,
    lemma_search_start, lemma_search_unfold, lemma_word_len_on_path, needed, no_wildcard_labels, rack_without, row_search,
    row_words_from, run_len, tile_count, try_candidates, count_after,
};
use crate::tile::{expansion, tile_char, Tile};

verus! {

/// True iff `w` lies legally in the row from square `s`: it fits in the row and ends
/// at its end or before an empty square; each of its squares holds a tile showing its
/// letter, or is empty and allows its letter; and one of its squares may anchor a
/// word (`conn`).
pub open spec fn lies_in_row(
    letters: Seq<Option<Tile>>,
    valid: Seq<LetterSet>,
    conn: Seq<bool>,
    s: int,
    w: Seq<char>,
) -> bool {
    &&& 0 <= s
    &&& s + w.len() <= letters.len()
    &&& s + w.len() < letters.len() ==> letters[s + w.len()] is None
    &&& forall|i: int| 0 <= i < w.len() ==> (#[trigger] letters[s + i] matches Some(t) ==> tile_char(t) == w[i])
    &&& forall|i: int| 0 <= i < w.len() && letters[s + i] is None ==> letter_set_contains(#[trigger] valid[s + i], w[i])
    &&& any_connected(conn, s, w.len())
}

/// True iff the tiles `ts` can be put down for the letters `need`: each is that letter
/// or a blank wildcard.
pub open spec fn stand_for(ts: Seq<Tile>, need: Seq<Tile>) -> bool {
    &&& ts.len() == need.len()
    &&& forall|j: int| 0 <= j < ts.len() ==> #[trigger] ts[j] == need[j] || ts[j] == Tile::Wildcard(None)
}

/// True iff the rack holds tiles for the letters that laying `w` from square `s` puts
/// on the empty squares: for each, that letter or a blank wildcard.
pub open spec fn rack_supplies(letters: Seq<Option<Tile>>, rack: Seq<Option<Tile>>, s: int, w: Seq<char>) -> bool {
    exists|ts: Seq<Tile>|
        stand_for(ts, needed(letters, s, w, w.len() as int)) && #[trigger] ts.to_multiset().subset_of(
            present_tiles(rack).to_multiset(),
        )
}

/// True iff `w`, laid from square `s` of the row, is a legal play: the dictionary
/// below `root` accepts it, it lies legally in the row, and the rack holds tiles for
/// the letters it puts down.
pub open spec fn legal_in_row(
    root: DictNode,
    letters: Seq<Option<Tile>>,
    valid: Seq<LetterSet>,
    conn: Seq<bool>,
    rack: Seq<Option<Tile>>,
    s: int,
    w: Seq<char>,
) -> bool {
    &&& dawg_words(root).contains(w)
    &&& lies_in_row(letters, valid, conn, s, w)
    &&& rack_supplies(letters, rack, s, w)
}

/// True iff laying `w` from square `s` of the row is a legal play there (see
/// `legal_in_row`) that starts the row or follows an empty square and puts a letter
/// on at least one empty square.
pub open spec fn row_play(
    root: DictNode,
    letters: Seq<Option<Tile>>,
    valid: Seq<LetterSet>,
    conn: Seq<bool>,
    rack: Seq<Option<Tile>>,
    s: int,
    w: Seq<char>,
) -> bool {
    &&& legal_in_row(root, letters, valid, conn, rack, s, w)
    &&& s == 0 || letters[s - 1] is None
    &&& exists|i: int| 0 <= i < w.len() && (#[trigger] letters[s + i]) is None
}

/// Laying a word takes tiles for the same squares whatever tiles lie on the squares
/// that hold one.
pub(crate) proof fn lemma_needed_same(a: Seq<Option<Tile>>, b: Seq<Option<Tile>>, s: int, w: Seq<char>, m: int)
    requires
        forall|i: int| 0 <= i < m ==> (#[trigger] a[s + i] is None) == (b[s + i] is None),
    ensures
        needed(a, s, w, m) == needed(b, s, w, m),
    decreases m,
{
    if m > 0 {
        assert((a[s + (m - 1)] is None) == (b[s + (m - 1)] is None));
        lemma_needed_same(a, b, s, w, m - 1);
    }
}

/// The squares from `i` on, `m` of them, all hold tiles: the run from `i` is at least
/// that long.
proof fn lemma_run_len_at_least(letters: Seq<Option<Tile>>, i: int, m: int)
    requires
        0 <= i,
        0 <= m,
        i + m <= letters.len(),
        forall|j: int| i <= j < i + m ==> #[trigger] letters[j] is Some,
    ensures
        run_len(letters, i) >= m,
    decreases m,
{
    if m > 0 {
        assert(letters[i] is Some);
        lemma_run_len_at_least(letters, i + 1, m - 1);
    }
}

/// Each expansion of tiles for the characters `valid` shows one of them.
proof fn lemma_expand_all_chars(ts: Seq<Tile>, valid: Seq<char>)
    ensures
        forall|k: int| 0 <= k < expand_all(ts, valid).len() ==> valid.contains(tile_char(#[trigger] expand_all(ts, valid)[k])),
    decreases ts.len(),
{
    if ts.len() > 0 {
        lemma_expand_all_chars(ts.drop_last(), valid);
        let a = expand_all(ts.drop_last(), valid);
        let e = expansion(ts.last(), valid);
        assert(expand_all(ts, valid) == a + e);
        assert forall|k: int| 0 <= k < (a + e).len() implies valid.contains(tile_char(#[trigger] (a + e)[k])) by {
            if k >= a.len() {
                let j = k - a.len();
                assert((a + e)[k] == e[j]);
                match ts.last() {
                    Tile::Letter(ch) => {},
                    Tile::Wildcard(_) => {
                        assert(e[j] == Tile::Wildcard(Some(valid[j])));
                    },
                }
            } else {
                assert((a + e)[k] == a[k]);
            }
        }
    }
}

/// A candidate for a square shows a letter that the square allows; drawn from a rack
/// of letters, it is a letter tile of the rack.
proof fn lemma_candidate(root: DictNode, p: Seq<char>, v: LetterSet, rack: Seq<Option<Tile>>, t: Tile)
    requires
        candidates(root, p, v, rack).contains(t),
    ensures
        letter_set_contains(v, tile_char(t)),
        all_letters(present_tiles(rack)) ==> t is Letter && present_tiles(rack).contains(t),
{
    let pred = |c: char| letter_set_contains(v, c);
    let cs = dawg_labels(root, p).filter(pred);
    let ts = present_tiles(rack);
    let cands = expand_all(ts, cs);
    let k = choose|k: int| 0 <= k < cands.len() && cands[k] == t;
    lemma_expand_all_chars(ts, cs);
    assert(cs.contains(tile_char(cands[k])));
    let i = choose|i: int| 0 <= i < cs.len() && cs[i] == tile_char(t);
    dawg_labels(root, p).lemma_filter_pred(pred, i);
    if all_letters(ts) {
        assert forall|ch: char| !ts.contains(Tile::Wildcard(Some(ch))) by {
            if ts.contains(Tile::Wildcard(Some(ch))) {
                let q = choose|q: int| 0 <= q < ts.len() && ts[q] == Tile::Wildcard(Some(ch));
                assert(ts[q] is Letter);
            }
        }
        lemma_expand_all_from_rack(ts, cs, t);
        let q = choose|q: int| 0 <= q < ts.len() && ts[q] == rack_form(t);
        assert(ts[q] is Letter);
    }
}

/// With a dictionary none of whose labels is `'*'`, each word that a search from
/// `start` finds is a legal play from `start` in the row as it stands, at least as long as the run of tiles there, and, unless the search
/// reports the word already lying there, it covers an empty square.
pub proof fn lemma_search_legal(
    root: DictNode,
    letters: Seq<Option<Tile>>,
    valid: Seq<LetterSet>,
    conn: Seq<bool>,
    rack: Seq<Option<Tile>>,
    start: int,
    report: bool,
)
    requires
        no_wildcard_labels(root),
        0 <= start,
    ensures
        forall|k: int| 0 <= k < row_search(root, letters, valid, conn, rack, start, report).len() ==> {
            let w = (#[trigger] row_search(root, letters, valid, conn, rack, start, report)[k]).0;
            &&& legal_in_row(root, letters, valid, conn, rack, start, w)
            &&& run_len(letters, start) <= w.len()
            &&& report || exists|i: int| 0 <= i < w.len() && (#[trigger] letters[start + i]) is None
        },
    decreases tile_count(rack), 1nat, 0nat,
{
    broadcast use vstd::seq_lib::group_to_multiset_ensures;

    lemma_search_unfold(root, letters, valid, conn, rack, start, report);
    let n = run_len(letters, start);
    let p = chars_from(letters, start, n);
    let pos = start + n;
    let r = row_search(root, letters, valid, conn, rack, start, report);
    lemma_run_len_bound(letters, start);
    if on_path(root, p) {
        lemma_word_len_on_path(root, letters, start);
    }
    let found: Seq<(Seq<char>, int)> = if report && dawg_words(root).contains(p) && any_connected(conn, start, n) {
        seq![(chars_from(letters, start, n), start)]
    } else {
        Seq::empty()
    };
    assert forall|k: int| 0 <= k < found.len() implies {
        let w = (#[trigger] found[k]).0;
        &&& legal_in_row(root, letters, valid, conn, rack, start, w)
        &&& run_len(letters, start) <= w.len()
        &&& report
    } by {
        let w = found[k].0;
        assert(w == p);
        assert(n > 0);
        assert(start < letters.len());
        assert forall|i: int| 0 <= i < w.len() implies (#[trigger] letters[start + i] matches Some(t) ==> tile_char(t) == w[i]) by {
            assert(letters[start + i] is Some);
        }
        assert forall|j: int| 0 <= j < n implies (#[trigger] letters[start + j]) is Some by {}
        lemma_needed_none(letters, start, w, n as int);
        let none = Seq::<Tile>::empty();
        assert(stand_for(none, needed(letters, start, w, w.len() as int)));
        assert(none.to_multiset() =~= vstd::multiset::Multiset::empty());
        assert(none.to_multiset().subset_of(present_tiles(rack).to_multiset()));
    }
    if on_path(root, p) {
        if 0 <= pos < letters.len() && candidates(root, p, valid[pos], rack).len() > 0 {
            let cands = candidates(root, p, valid[pos], rack);
            assert forall|x: Tile| cands.contains(x) implies {
                &&& letter_set_contains(valid[pos], tile_char(x))
                &&& all_letters(present_tiles(rack)) ==> x is Letter && present_tiles(rack).contains(x)
            } by {
                lemma_candidate(root, p, valid[pos], rack, x);
            }
            assert(cands.contains(cands[0]));
            let tc = try_candidates(root, letters, valid, conn, rack, start, pos, cands, cands[0]);
            lemma_try_legal(root, letters, valid, conn, rack, start, pos, cands, cands[0]);
            assert(r == found + tc);
            assert forall|k: int| 0 <= k < r.len() implies {
                let w = (#[trigger] r[k]).0;
                &&& legal_in_row(root, letters, valid, conn, rack, start, w)
                &&& run_len(letters, start) <= w.len()
                &&& report || exists|i: int| 0 <= i < w.len() && (#[trigger] letters[start + i]) is None
            } by {
                if k >= found.len() {
                    assert(r[k] == tc[k - found.len()]);
                } else {
                    assert(r[k] == found[k]);
                }
            }
        } else {
            assert(r == found);
        }
    }
}

/// Each word found by trying the candidates from `t` on, in the empty square `pos`
/// that ends the run from `start`, is a legal play from `start` that reaches past that
/// square.
proof fn lemma_try_legal(
    root: DictNode,
    letters: Seq<Option<Tile>>,
    valid: Seq<LetterSet>,
    conn: Seq<bool>,
    rack: Seq<Option<Tile>>,
    start: int,
    pos: int,
    cands: Seq<Tile>,
    t: Tile,
)
    requires
        no_wildcard_labels(root),
        0 <= start,
        pos == start + run_len(letters, start),
        pos < letters.len(),
        forall|x: Tile| #[trigger] cands.contains(x) ==> {
            &&& letter_set_contains(valid[pos], tile_char(x))
            &&& all_letters(present_tiles(rack)) ==> x is Letter && present_tiles(rack).contains(x)
        },
        cands.contains(t),
    ensures
        forall|k: int| 0 <= k < try_candidates(root, letters, valid, conn, rack, start, pos, cands, t).len() ==> {
            let w = (#[trigger] try_candidates(root, letters, valid, conn, rack, start, pos, cands, t)[k]).0;
            &&& legal_in_row(root, letters, valid, conn, rack, start, w)
            &&& run_len(letters, start) < w.len()
            &&& exists|i: int| 0 <= i < w.len() && (#[trigger] letters[start + i]) is None
        },
    decreases tile_count(rack), 0nat, count_after(cands, t),
{
    broadcast use vstd::seq_lib::group_to_multiset_ensures;
    broadcast use vstd::multiset::group_multiset_axioms;

    reveal(try_candidates);
    reveal(row_search);
    if rack.contains(Some(rack_form(t))) {
        let j = choose|j: int| 0 <= j < rack.len() && rack[j] == Some(rack_form(t));
        lemma_first_slot_exists(rack, Some(rack_form(t)), j);
        let i = first_slot(rack, Some(rack_form(t)));
        lemma_present_update_none(rack, i);
        lemma_rack_take_out(rack, i);
        let n = run_len(letters, start) as int;
        lemma_run_len_bound(letters, start);
        let l2 = letters.update(pos, Some(t));
        let rack2 = rack_without(rack, t);
        assert(rack2 == rack.update(i, None));
        assert forall|q: int| start <= q < start + n + 1 implies #[trigger] l2[q] is Some by {
            if q != pos {
                assert(l2[q] == letters[q]);
            }
        }
        lemma_run_len_at_least(l2, start, n + 1);
        let placed = row_search(root, l2, valid, conn, rack2, start, true);
        lemma_search_legal(root, l2, valid, conn, rack2, start, true);
        assert forall|k: int| 0 <= k < placed.len() implies {
            let w = (#[trigger] placed[k]).0;
            &&& legal_in_row(root, letters, valid, conn, rack, start, w)
            &&& run_len(letters, start) < w.len()
            &&& exists|i: int| 0 <= i < w.len() && (#[trigger] letters[start + i]) is None
        } by {
            let w = placed[k].0;
            assert(legal_in_row(root, l2, valid, conn, rack2, start, w));
            assert(n < w.len());
            assert(letters[start + n] is None);
            assert(l2[start + n] == Some(t));
            assert(tile_char(t) == w[n]);
            if start + w.len() < letters.len() {
                assert(l2[start + w.len()] == letters[start + w.len()]);
            }
            assert forall|q: int| 0 <= q < w.len() implies (#[trigger] letters[start + q] matches Some(x) ==> tile_char(x) == w[q]) by {
                if q != n {
                    assert(l2[start + q] == letters[start + q]);
                }
            }
            assert forall|q: int| 0 <= q < w.len() && letters[start + q] is None implies letter_set_contains(#[trigger] valid[start + q], w[q]) by {
                if q != n {
                    assert(l2[start + q] == letters[start + q]);
                }
            }
            // The rack supplies the letter put on `pos` with the tile taken from it.
            let c = w[n];
            let x = rack_form(t);
            assert(x == Tile::Letter(c) || x == Tile::Wildcard(None)) by {
                match t {
                    Tile::Letter(_) => {},
                    Tile::Wildcard(o) => {},
                }
            }
            assert forall|q: int| 0 <= q < n implies (#[trigger] letters[start + q]) is Some by {}
            lemma_needed_fill(letters, start, w, n, w.len() as int, c);
            let l3 = letters.update(start + n, Some(Tile::Letter(c)));
            assert forall|q: int| 0 <= q < w.len() implies (#[trigger] l3[start + q] is None) == (l2[start + q] is None) by {
                if q != n {
                    assert(l3[start + q] == letters[start + q]);
                    assert(l2[start + q] == letters[start + q]);
                }
            }
            lemma_needed_same(l3, l2, start, w, w.len() as int);
            let need = needed(letters, start, w, w.len() as int);
            let need2 = needed(l2, start, w, w.len() as int);
            assert(need == seq![Tile::Letter(c)] + need2);
            let pt = present_tiles(rack);
            let pt2 = present_tiles(rack2);
            let ts2 = choose|ts: Seq<Tile>| stand_for(ts, need2) && #[trigger] ts.to_multiset().subset_of(pt2.to_multiset());
            let ts = seq![x] + ts2;
            assert(seq![x] + ts2 =~= ts2.insert(0, x));
            vstd::seq_lib::to_multiset_insert(ts2, 0, x);
            assert(stand_for(ts, need)) by {
                assert forall|q: int| 0 <= q < ts.len() implies #[trigger] ts[q] == need[q] || ts[q] == Tile::Wildcard(None) by {
                    if q > 0 {
                        assert(ts[q] == ts2[q - 1]);
                        assert(need[q] == need2[q - 1]);
                    }
                }
            }
            lemma_present_split(rack, i);
            assert(rack[i]->Some_0 == x);
            assert(pt[present_tiles(rack.take(i)).len() as int] == x);
            assert(pt.to_multiset().count(x) > 0);
            assert(pt2.to_multiset() == pt.to_multiset().remove(x));
            assert(ts.to_multiset().subset_of(pt.to_multiset())) by {
                assert forall|y: Tile| ts.to_multiset().count(y) <= pt.to_multiset().count(y) by {
                    assert(ts2.to_multiset().count(y) <= pt2.to_multiset().count(y));
                }
            }
        }
        let r = try_candidates(root, letters, valid, conn, rack, start, pos, cands, t);
        match first_after(cands, t) {
            Some(next) => {
                lemma_first_after(cands, t);
                lemma_count_after_decreases(cands, t, next);
                lemma_try_legal(root, letters, valid, conn, rack, start, pos, cands, next);
                let rest = try_candidates(root, letters, valid, conn, rack, start, pos, cands, next);
                assert(r == placed + rest);
                assert forall|k: int| 0 <= k < r.len() implies {
                    let w = (#[trigger] r[k]).0;
                    &&& legal_in_row(root, letters, valid, conn, rack, start, w)
                    &&& run_len(letters, start) < w.len()
                    &&& exists|i: int| 0 <= i < w.len() && (#[trigger] letters[start + i]) is None
                } by {
                    if k >= placed.len() {
                        assert(r[k] == rest[k - placed.len()]);
                    } else {
                        assert(r[k] == placed[k]);
                    }
                }
            },
            None => {
                assert(r == placed);
            },
        }
    }
}

/// With a dictionary none of whose labels is `'*'`, each word found in a row is a legal
/// play from where it starts, which is the start of the row or follows an empty
/// square, and covers an empty square.
pub proof fn lemma_row_words_legal(
    root: DictNode,
    letters: Seq<Option<Tile>>,
    valid: Seq<LetterSet>,
    conn: Seq<bool>,
    rack: Seq<Option<Tile>>,
    start: int,
)
    requires
        no_wildcard_labels(root),
        0 <= start,
        start == 0 || start > letters.len() || letters[start - 1] is None,
    ensures
        forall|k: int| 0 <= k < row_words_from(root, letters, valid, conn, rack, start).len() ==> {
            let f = #[trigger] row_words_from(root, letters, valid, conn, rack, start)[k];
            &&& legal_in_row(root, letters, valid, conn, rack, f.1, f.0)
            &&& f.1 == 0 || letters[f.1 - 1] is None
            &&& exists|i: int| 0 <= i < f.0.len() && (#[trigger] letters[f.1 + i]) is None
        },
    decreases letters.len() + 1 - start,
{
    if 0 <= start < letters.len() {
        lemma_run_len_bound(letters, start);
        let next = start + run_len(letters, start) + 1;
        lemma_search_legal(root, letters, valid, conn, rack, start, false);
        lemma_search_start(root, letters, valid, conn, rack, start, false);
        lemma_row_words_legal(root, letters, valid, conn, rack, next);
        let a = row_search(root, letters, valid, conn, rack, start, false);
        let b = row_words_from(root, letters, valid, conn, rack, next);
        assert(row_words_from(root, letters, valid, conn, rack, start) == a + b);
        assert forall|k: int| 0 <= k < (a + b).len() implies {
            let f = #[trigger] (a + b)[k];
            &&& legal_in_row(root, letters, valid, conn, rack, f.1, f.0)
            &&& f.1 == 0 || letters[f.1 - 1] is None
            &&& exists|i: int| 0 <= i < f.0.len() && (#[trigger] letters[f.1 + i]) is None
        } by {
            if k >= a.len() {
                assert((a + b)[k] == b[k - a.len()]);
            } else {
                assert((a + b)[k] == a[k]);
                assert(a[k].1 == start);
            }
        }
    }
}

} // verus!
