pub mod points;

use vstd::prelude::*;

use crate::tile::{Tile, char_tile, expansion, tile_of};
use crate::util::push_char;

verus! {

/// True iff the characters of `s` strictly increase.
pub open spec fn strictly_increasing(s: Seq<char>) -> bool {
    forall|i: int, j: int| 0 <= i < j < s.len() ==> s[i] < s[j]
}

/// What a `Letters` holds.
pub enum LetterSet {
    /// No letter.
    Empty,
    /// Exactly the one letter.
    One(char),
    /// The letters of the set.
    Many(Set<char>),
    /// Every letter.
    Any,
}

/// True iff `ch` belongs to `m`.
pub open spec fn letter_set_contains(m: LetterSet, ch: char) -> bool {
    match m {
        LetterSet::Empty => false,
        LetterSet::One(c) => c == ch,
        LetterSet::Many(s) => s.contains(ch),
        LetterSet::Any => true,
    }
}

/// The letters collected from the characters `s`: none gives the empty set, a single
/// `'*'` gives every letter, a single other character gives that letter, and two or
/// more give the set of them.
pub open spec fn letters_from_seq(s: Seq<char>) -> LetterSet {
    if s.len() == 0 {
        LetterSet::Empty
    } else if s.len() == 1 {
        if s[0] == '*' {
            LetterSet::Any
        } else {
            LetterSet::One(s[0])
        }
    } else {
        LetterSet::Many(s.to_set())
    }
}

/// The strictly increasing sequence holding exactly the characters of `s`.
pub open spec fn sorted_chars(s: Set<char>) -> Seq<char> {
    choose|q: Seq<char>| strictly_increasing(q) && q.to_set() == s
}

/// How `m` is written: its letters in increasing order, `'*'` for every letter.
pub open spec fn letters_shown(m: LetterSet) -> Seq<char> {
    match m {
        LetterSet::Empty => Seq::empty(),
        LetterSet::One(c) => seq![c],
        LetterSet::Many(s) => sorted_chars(s),
        LetterSet::Any => seq!['*'],
    }
}

/// Two strictly increasing sequences with the same characters are equal.
proof fn lemma_strictly_increasing_unique(a: Seq<char>, b: Seq<char>)
    requires
        strictly_increasing(a),
        strictly_increasing(b),
        a.to_set() == b.to_set(),
    ensures
        a == b,
    decreases a.len(),
{
    if a.len() == 0 {
        if b.len() > 0 {
            assert(b.to_set().contains(b[0]));
        }
    } else if b.len() == 0 {
        assert(a.to_set().contains(a[0]));
    } else {
        // The last elements are the maxima of the same set.
        let la = a.last();
        let lb = b.last();
        assert(a.to_set().contains(la));
        assert(b.to_set().contains(lb));
        assert(b.contains(la));
        assert(a.contains(lb));
        let i = choose|i: int| 0 <= i < b.len() && b[i] == la;
        let j = choose|j: int| 0 <= j < a.len() && a[j] == lb;
        assert(la == lb) by {
            if i < b.len() - 1 {
                assert(la < lb);
                if j < a.len() - 1 {
                    assert(lb < la);
                }
            }
            if j < a.len() - 1 {
                assert(lb < la);
            }
        }
        let a1 = a.drop_last();
        let b1 = b.drop_last();
        assert(a1.to_set() == b1.to_set()) by {
            assert forall|c: char| a1.to_set().contains(c) implies b1.to_set().contains(c) by {
                let k = choose|k: int| 0 <= k < a1.len() && a1[k] == c;
                assert(a.to_set().contains(c));
                assert(b.contains(c));
                let m = choose|m: int| 0 <= m < b.len() && b[m] == c;
                assert(c < la);
                if m == b.len() - 1 {
                    assert(false);
                }
                assert(b1[m] == c);
            }
            assert forall|c: char| b1.to_set().contains(c) implies a1.to_set().contains(c) by {
                let k = choose|k: int| 0 <= k < b1.len() && b1[k] == c;
                assert(b.to_set().contains(c));
                assert(a.contains(c));
                let m = choose|m: int| 0 <= m < a.len() && a[m] == c;
                assert(c < lb);
                if m == a.len() - 1 {
                    assert(false);
                }
                assert(a1[m] == c);
            }
        }
        lemma_strictly_increasing_unique(a1, b1);
        assert(a == a1.push(la));
        assert(b == b1.push(lb));
    }
}

/// Inserts `ch` into the strictly increasing `v`, unless it is already there.
fn insert_sorted_unique(v: &mut Vec<char>, ch: char)
    requires
        strictly_increasing(old(v)@),
    ensures
        strictly_increasing(final(v)@),
        final(v)@.to_set() == old(v)@.to_set().insert(ch),
        final(v)@.len() >= 1,
{
    let mut i: usize = 0;
    while i < v.len() && v[i] < ch
        invariant
            i <= v.len(),
            forall|k: int| 0 <= k < i ==> v@[k] < ch,
        decreases v.len() - i,
    {
        i = i + 1;
    }
    if i < v.len() && v[i] == ch {
        assert(v@.to_set().insert(ch) == v@.to_set()) by {
            assert(v@.to_set().contains(ch)) by {
                assert(v@[i as int] == ch);
            }
        }
        return;
    }
    let ghost old_v = v@;
    v.insert(i, ch);
    assert(v@ == old_v.insert(i as int, ch));
    assert(v@.to_set() == old_v.to_set().insert(ch)) by {
        assert forall|c: char| v@.to_set().contains(c) implies old_v.to_set().insert(ch).contains(c) by {
            let k = choose|k: int| 0 <= k < v@.len() && v@[k] == c;
            if k < i {
                assert(old_v[k] == c);
            } else if k > i {
                assert(old_v[k - 1] == c);
            }
        }
        assert forall|c: char| old_v.to_set().insert(ch).contains(c) implies v@.to_set().contains(c) by {
            if c == ch {
                assert(v@[i as int] == ch);
            } else {
                let k = choose|k: int| 0 <= k < old_v.len() && old_v[k] == c;
                if k < i {
                    assert(v@[k] == c);
                } else {
                    assert(v@[k + 1] == c);
                }
            }
        }
    }
}

/// A set of letters, used for the letters that may go in a square.
#[derive(Debug, PartialEq, Eq)]
pub struct Letters {
    container: LettersContainer,
}

#[derive(Debug, PartialEq, Eq)]
enum LettersContainer {
    Empty,
    One(char),
    Many(Vec<char>),
    Any,
}

impl View for Letters {
    type V = LetterSet;

    closed spec fn view(&self) -> LetterSet {
        match self.container {
            LettersContainer::Empty => LetterSet::Empty,
            LettersContainer::One(c) => LetterSet::One(c),
            LettersContainer::Many(v) => LetterSet::Many(v@.to_set()),
            LettersContainer::Any => LetterSet::Any,
        }
    }
}

impl Clone for Letters {
    fn clone(&self) -> (r: Self)
        ensures
            r@ == self@,
    {
        proof {
            use_type_invariant(self);
        }
        match &self.container {
            LettersContainer::Empty => Letters::empty(),
            LettersContainer::One(c) => Letters::one(*c),
            LettersContainer::Many(v) => {
                let w = v.clone();
                assert(w@ == v@);
                Letters { container: LettersContainer::Many(w) }
            },
            LettersContainer::Any => Letters::any(),
        }
    }
}

impl Letters {
    /// The letters of a set are held in increasing order.
    #[verifier::type_invariant]
    closed spec fn inv(self) -> bool {
        match self.container {
            LettersContainer::Many(v) => strictly_increasing(v@) && v@.len() >= 1,
            _ => true,
        }
    }

    /// Creates an empty Letters.
    pub fn empty() -> (r: Self)
        ensures
            r@ == LetterSet::Empty,
    {
        Letters { container: LettersContainer::Empty }
    }

    /// Creates a Letters holding the characters of `chars`, see `letters_from_seq`.
    pub fn new(chars: &[char]) -> (r: Self)
        ensures
            r@ == letters_from_seq(chars@),
    {
        if chars.len() == 0 {
            Letters::empty()
        } else if chars.len() == 1 {
            if chars[0] == '*' {
                Letters::any()
            } else {
                Letters::one(chars[0])
            }
        } else {
            let mut v: Vec<char> = Vec::new();
            let mut i: usize = 0;
            while i < chars.len()
                invariant
                    i <= chars.len(),
                    strictly_increasing(v@),
                    v@.to_set() == chars@.subrange(0, i as int).to_set(),
                    i >= 1 ==> v@.len() >= 1,
                decreases chars.len() - i,
            {
                insert_sorted_unique(&mut v, chars[i]);
                proof {
                    let s = chars@.subrange(0, i as int);
                    assert(chars@.subrange(0, i + 1) == s.push(chars@[i as int]));
                    s.lemma_push_to_set_commute(chars@[i as int]);
                }
                i = i + 1;
            }
            assert(chars@.subrange(0, chars.len() as int) == chars@);
            Letters { container: LettersContainer::Many(v) }
        }
    }

    /// Creates a Letters holding the characters of `s`, see `letters_from_seq`.
    pub fn from_str(s: &str) -> (r: Self)
        ensures
            r@ == letters_from_seq(s@),
    {
        let chars = crate::util::chars_of(s);
        Letters::new(chars.as_slice())
    }

    /// Creates a Letters containing only `ch`.
    pub fn one(ch: char) -> (r: Self)
        ensures
            r@ == LetterSet::One(ch),
    {
        Letters { container: LettersContainer::One(ch) }
    }

    /// Creates a Letters containing every letter.
    pub fn any() -> (r: Self)
        ensures
            r@ == LetterSet::Any,
    {
        Letters { container: LettersContainer::Any }
    }

    /// Returns true if this Letters is empty.
    pub fn is_empty(&self) -> (r: bool)
        ensures
            r == (self@ is Empty),
    {
        match self.container {
            LettersContainer::Empty => true,
            _ => false,
        }
    }

    /// Returns true if this Letters is not empty.
    pub fn is_not_empty(&self) -> (r: bool)
        ensures
            r == !(self@ is Empty),
    {
        !self.is_empty()
    }

    /// Returns true if this Letters contains `ch`; `'*'` is no letter to ask about.
    pub fn contains(&self, ch: char) -> (r: bool)
        requires
            ch != '*',
        ensures
            r == letter_set_contains(self@, ch),
    {
        proof {
            use_type_invariant(self);
        }
        match &self.container {
            LettersContainer::Empty => false,
            LettersContainer::One(letter) => *letter == ch,
            LettersContainer::Many(letters) => {
                let mut i: usize = 0;
                while i < letters.len()
                    invariant
                        i <= letters.len(),
                        self@ == LetterSet::Many(letters@.to_set()),
                        forall|k: int| 0 <= k < i ==> letters@[k] != ch,
                    decreases letters.len() - i,
                {
                    if letters[i] == ch {
                        assert(letters@.contains(ch)) by {
                            assert(letters@[i as int] == ch);
                        }
                        return true;
                    }
                    i = i + 1;
                }
                false
            },
            LettersContainer::Any => true,
        }
    }

    /// The characters of `chars` that are in this Letters, in order.
    pub fn intersects(&self, chars: &[char]) -> (r: Vec<char>)
        requires
            !chars@.contains('*'),
        ensures
            r@ == chars@.filter(|c: char| letter_set_contains(self@, c)),
    {
        let ghost pred = |c: char| letter_set_contains(self@, c);
        let mut out: Vec<char> = Vec::new();
        let mut i: usize = 0;
        while i < chars.len()
            invariant
                i <= chars.len(),
                !chars@.contains('*'),
                pred == (|c: char| letter_set_contains(self@, c)),
                out@ == chars@.subrange(0, i as int).filter(pred),
            decreases chars.len() - i,
        {
            let ch = chars[i];
            assert(chars@[i as int] == ch);
            if self.contains(ch) {
                out.push(ch);
            }
            proof {
                let s = chars@.subrange(0, i as int);
                assert(chars@.subrange(0, i + 1) == s.push(ch));
                s.lemma_filter_push(ch, pred);
            }
            i = i + 1;
        }
        assert(chars@.subrange(0, chars.len() as int) == chars@);
        out
    }

    /// Returns true if `tile` may go where these letters may: a blank wildcard always,
    /// otherwise if the character it shows is among them.
    pub fn matches_tile(&self, tile: Tile) -> (r: bool)
        requires
            tile != Tile::Letter('*'),
            tile != Tile::Wildcard(Some('*')),
        ensures
            r == match tile {
                Tile::Letter(ch) => letter_set_contains(self@, ch),
                Tile::Wildcard(Some(ch)) => letter_set_contains(self@, ch),
                Tile::Wildcard(None) => true,
            },
    {
        match tile {
            Tile::Letter(ch) => self.contains(ch),
            Tile::Wildcard(Some(ch)) => self.contains(ch),
            Tile::Wildcard(None) => true,
        }
    }

    /// The letters written out: in increasing order, or `"*"` for every letter.
    pub fn to_string(&self) -> (r: String)
        ensures
            r@ == letters_shown(self@),
    {
        proof {
            use_type_invariant(self);
        }
        let mut s = String::new();
        match &self.container {
            LettersContainer::Empty => {},
            LettersContainer::One(letter) => {
                push_char(&mut s, *letter);
            },
            LettersContainer::Many(letters) => {
                let mut i: usize = 0;
                while i < letters.len()
                    invariant
                        i <= letters.len(),
                        s@ == letters@.subrange(0, i as int),
                    decreases letters.len() - i,
                {
                    push_char(&mut s, letters[i]);
                    i = i + 1;
                    assert(letters@.subrange(0, i as int) == letters@.subrange(0, i - 1).push(
                        letters@[i - 1],
                    ));
                }
                proof {
                    assert(letters@.subrange(0, letters.len() as int) == letters@);
                    let q = sorted_chars(letters@.to_set());
                    assert(strictly_increasing(q) && q.to_set() == letters@.to_set());
                    lemma_strictly_increasing_unique(q, letters@);
                }
            },
            LettersContainer::Any => {
                push_char(&mut s, '*');
            },
        }
        s
    }
}


/// True iff the characters of `s` never decrease.
pub open spec fn nondecreasing(s: Seq<char>) -> bool {
    forall|i: int, j: int| 0 <= i < j < s.len() ==> s[i] <= s[j]
}

/// The characters of `s` in nondecreasing order.
pub open spec fn sorted_seq(s: Seq<char>) -> Seq<char> {
    choose|q: Seq<char>| nondecreasing(q) && q.to_multiset() == s.to_multiset()
}

/// Two nondecreasing sequences holding the same characters are equal.
proof fn lemma_nondecreasing_unique(a: Seq<char>, b: Seq<char>)
    requires
        nondecreasing(a),
        nondecreasing(b),
        a.to_multiset() == b.to_multiset(),
    ensures
        a == b,
    decreases a.len(),
{
    broadcast use vstd::seq_lib::group_to_multiset_ensures;

    if a.len() == 0 {
        if b.len() > 0 {
            assert(b.to_multiset().count(b[0]) > 0);
        }
    } else if b.len() == 0 {
        assert(a.to_multiset().count(a[0]) > 0);
    } else {
        assert(a.to_multiset().count(b[0]) > 0);
        assert(b.to_multiset().count(a[0]) > 0);
        assert(a.contains(b[0]));
        assert(b.contains(a[0]));
        assert(a[0] == b[0]);
        vstd::seq_lib::to_multiset_remove(a, 0);
        vstd::seq_lib::to_multiset_remove(b, 0);
        assert(a.remove(0) == a.drop_first());
        assert(b.remove(0) == b.drop_first());
        lemma_nondecreasing_unique(a.drop_first(), b.drop_first());
        assert(a == seq![a[0]] + a.drop_first());
        assert(b == seq![b[0]] + b.drop_first());
    }
}

/// The characters of `s`, sorted.
pub fn sort_chars(s: &[char]) -> (r: Vec<char>)
    ensures
        r@ == sorted_seq(s@),
{
    broadcast use vstd::seq_lib::group_to_multiset_ensures;

    let mut out: Vec<char> = Vec::new();
    let mut i: usize = 0;
    while i < s.len()
        invariant
            i <= s.len(),
            nondecreasing(out@),
            out@.to_multiset() == s@.subrange(0, i as int).to_multiset(),
        decreases s.len() - i,
    {
        let ch = s[i];
        let mut j: usize = 0;
        while j < out.len() && out[j] <= ch
            invariant
                j <= out.len(),
                forall|k: int| 0 <= k < j ==> out@[k] <= ch,
            decreases out.len() - j,
        {
            j = j + 1;
        }
        let ghost old_out = out@;
        out.insert(j, ch);
        proof {
            assert(out@ == old_out.insert(j as int, ch));
            vstd::seq_lib::to_multiset_insert(old_out, j as int, ch);
            assert(s@.subrange(0, i + 1) == s@.subrange(0, i as int).push(ch));
            vstd::seq_lib::to_multiset_build(s@.subrange(0, i as int), ch);
            assert forall|a: int, b: int| 0 <= a < b < out@.len() implies out@[a] <= out@[b] by {
                if b < j {
                } else if b == j {
                    assert(out@[a] == old_out[a]);
                } else if a < j {
                    assert(out@[b] == old_out[b - 1]);
                } else if a == j {
                    assert(out@[b] == old_out[b - 1]);
                    assert(j < old_out.len());
                    assert(old_out[j as int] >= ch);
                } else {
                    assert(out@[a] == old_out[a - 1]);
                    assert(out@[b] == old_out[b - 1]);
                }
            }
        }
        i = i + 1;
    }
    proof {
        assert(s@.subrange(0, s.len() as int) == s@);
        let q = sorted_seq(s@);
        assert(nondecreasing(q) && q.to_multiset() == s@.to_multiset());
        lemma_nondecreasing_unique(q, out@);
    }
    out
}

/// The tiles still held in the slots `s`, in order.
pub open spec fn present_tiles(s: Seq<Option<Tile>>) -> Seq<Tile>
    decreases s.len(),
{
    if s.len() == 0 {
        Seq::empty()
    } else {
        let p = present_tiles(s.drop_last());
        match s.last() {
            Some(t) => p.push(t),
            None => p,
        }
    }
}

/// `s` without consecutive repetitions.
pub open spec fn dedup_tiles(s: Seq<Tile>) -> Seq<Tile>
    decreases s.len(),
{
    if s.len() <= 1 {
        s
    } else {
        let d = dedup_tiles(s.drop_last());
        if s.last() == s[s.len() - 2] {
            d
        } else {
            d.push(s.last())
        }
    }
}

/// The tile a placed tile goes back into the rack as: a wildcard returns blank.
pub open spec fn rack_form(t: Tile) -> Tile {
    match t {
        Tile::Wildcard(_) => Tile::Wildcard(None),
        _ => t,
    }
}

/// The order of tiles: letters by character, before wildcards; a blank wildcard
/// before the placed ones, which go by character.
pub open spec fn tile_le(a: Tile, b: Tile) -> bool {
    match (a, b) {
        (Tile::Letter(x), Tile::Letter(y)) => x <= y,
        (Tile::Letter(_), Tile::Wildcard(_)) => true,
        (Tile::Wildcard(_), Tile::Letter(_)) => false,
        (Tile::Wildcard(None), Tile::Wildcard(_)) => true,
        (Tile::Wildcard(Some(_)), Tile::Wildcard(None)) => false,
        (Tile::Wildcard(Some(x)), Tile::Wildcard(Some(y))) => x <= y,
    }
}

/// Exec form of `tile_le`.
pub fn tile_le_exec(a: Tile, b: Tile) -> (r: bool)
    ensures
        r == tile_le(a, b),
{
    match (a, b) {
        (Tile::Letter(x), Tile::Letter(y)) => x <= y,
        (Tile::Letter(_), Tile::Wildcard(_)) => true,
        (Tile::Wildcard(_), Tile::Letter(_)) => false,
        (Tile::Wildcard(None), Tile::Wildcard(_)) => true,
        (Tile::Wildcard(Some(_)), Tile::Wildcard(None)) => false,
        (Tile::Wildcard(Some(x)), Tile::Wildcard(Some(y))) => x <= y,
    }
}

/// True iff each tile of `s` is `tile_le` the next.
pub open spec fn tiles_sorted(s: Seq<Tile>) -> bool {
    forall|i: int| 0 <= i < s.len() - 1 ==> tile_le(#[trigger] s[i], s[i + 1])
}

/// The letter tiles that the characters of `q` other than `'*'` denote, in order.
pub open spec fn letter_tiles(q: Seq<char>) -> Seq<Tile>
    decreases q.len(),
{
    if q.len() == 0 {
        Seq::<Tile>::empty()
    } else {
        let rest = letter_tiles(q.drop_last());
        match char_tile(q.last()) {
            Tile::Letter(c) => rest.push(Tile::Letter(c)),
            _ => rest,
        }
    }
}

/// How many of the characters of `q` are `'*'`.
pub open spec fn blank_count(q: Seq<char>) -> nat
    decreases q.len(),
{
    if q.len() == 0 {
        0
    } else if char_tile(q.last()) is Wildcard {
        blank_count(q.drop_last()) + 1
    } else {
        blank_count(q.drop_last())
    }
}

/// The tiles of the rack that the characters `s` make, in the order of tiles: the
/// letters by character, then a blank wildcard for each `'*'`.
pub open spec fn rack_tiles(s: Seq<char>) -> Seq<Tile> {
    letter_tiles(sorted_seq(s)) + Seq::new(blank_count(sorted_seq(s)), |j: int| Tile::Wildcard(None))
}

/// The rack that the characters `s` make, see `Rack::from_str`.
pub open spec fn rack_of(s: Seq<char>) -> Seq<Option<Tile>> {
    rack_tiles(s).map_values(|t: Tile| Some(t))
}

/// True iff each tile of `s` is `tile_le` every later one.
pub open spec fn tiles_ordered(s: Seq<Tile>) -> bool {
    forall|i: int, j: int| 0 <= i < j < s.len() ==> tile_le(#[trigger] s[i], #[trigger] s[j])
}

/// The letter tiles of nondecreasing characters are letters in order, none above the
/// last character.
proof fn lemma_letter_tiles(q: Seq<char>)
    requires
        nondecreasing(q),
    ensures
        tiles_ordered(letter_tiles(q)),
        forall|k: int| 0 <= k < letter_tiles(q).len() ==> (#[trigger] letter_tiles(q)[k]) is Letter,
        q.len() > 0 ==> forall|k: int| 0 <= k < letter_tiles(q).len() ==> tile_le(#[trigger] letter_tiles(q)[k], Tile::Letter(q.last())),
    decreases q.len(),
{
    if q.len() > 0 {
        let d = q.drop_last();
        assert(nondecreasing(d)) by {
            assert forall|i: int, j: int| 0 <= i < j < d.len() implies d[i] <= d[j] by {
                assert(d[i] == q[i] && d[j] == q[j]);
            }
        }
        lemma_letter_tiles(d);
        if d.len() > 0 {
            assert(d.last() <= q.last()) by {
                assert(q[d.len() - 1] <= q[q.len() - 1]);
            }
        }
        let a = letter_tiles(d);
        let r = letter_tiles(q);
        reveal_with_fuel(letter_tiles, 2);
        if char_tile(q.last()) is Letter {
            assert(q.len() != 0);
            assert(!(q.last() == '*'));
            assert(r == a.push(Tile::Letter(q.last())));
            assert forall|i: int, j: int| 0 <= i < j < r.len() implies tile_le(#[trigger] r[i], #[trigger] r[j]) by {
                assert(r[i] == a[i]);
                if j < a.len() {
                    assert(r[j] == a[j]);
                }
            }
            assert forall|k: int| 0 <= k < r.len() implies (#[trigger] r[k]) is Letter && tile_le(r[k], Tile::Letter(q.last())) by {
                if k < a.len() {
                    assert(r[k] == a[k]);
                }
            }
        } else {
            assert(r == a);
        }
    }
}

/// The present tiles of full slots are their tiles.
pub proof fn lemma_present_full(ts: Seq<Tile>)
    ensures
        present_tiles(ts.map_values(|t: Tile| Some(t))) == ts,
    decreases ts.len(),
{
    if ts.len() > 0 {
        lemma_present_full(ts.drop_last());
        assert(ts.map_values(|t: Tile| Some(t)).drop_last() == ts.drop_last().map_values(|t: Tile| Some(t)));
        assert(ts.drop_last().push(ts.last()) == ts);
    } else {
        assert(present_tiles(ts.map_values(|t: Tile| Some(t))) == Seq::<Tile>::empty());
    }
}

/// The rack that characters make holds its letters in order, then its blank
/// wildcards; it is sorted as `Rack::is_sorted` checks, and without `'*'` it holds
/// letters only.
pub proof fn lemma_rack_of(s: Seq<char>)
    ensures
        present_tiles(rack_of(s)) == rack_tiles(s),
        tiles_ordered(rack_tiles(s)),
        tiles_sorted(rack_tiles(s)),
        forall|ch: char| !rack_tiles(s).contains(Tile::Wildcard(Some(ch))),
        !s.contains('*') ==> forall|k: int| 0 <= k < rack_tiles(s).len() ==> (#[trigger] rack_tiles(s)[k]) is Letter,
{
    broadcast use vstd::seq_lib::group_to_multiset_ensures;

    let q = sorted_seq(s);
    lemma_sorted_seq(s);
    lemma_letter_tiles(q);
    lemma_present_full(rack_tiles(s));
    let lt = letter_tiles(q);
    let r = rack_tiles(s);
    assert forall|i: int, j: int| 0 <= i < j < r.len() implies tile_le(#[trigger] r[i], #[trigger] r[j]) by {
        if j < lt.len() {
            assert(r[i] == lt[i] && r[j] == lt[j]);
        } else if i < lt.len() {
            assert(r[i] == lt[i]);
        }
    }
    assert forall|ch: char| !r.contains(Tile::Wildcard(Some(ch))) by {
        if r.contains(Tile::Wildcard(Some(ch))) {
            let k = choose|k: int| 0 <= k < r.len() && r[k] == Tile::Wildcard(Some(ch));
            if k < lt.len() {
                assert(lt[k] is Letter);
            }
        }
    }
    if !s.contains('*') {
        assert(q.to_multiset().count('*') == 0);
        lemma_no_blanks(q);
    }
}

/// Tiles each `tile_le` the next are each `tile_le` every later one.
proof fn lemma_sorted_ordered(s: Seq<Tile>)
    requires
        tiles_sorted(s),
    ensures
        tiles_ordered(s),
    decreases s.len(),
{
    if s.len() > 1 {
        let d = s.drop_last();
        assert(tiles_sorted(d)) by {
            assert forall|i: int| 0 <= i < d.len() - 1 implies tile_le(#[trigger] d[i], d[i + 1]) by {
                assert(d[i] == s[i] && d[i + 1] == s[i + 1]);
            }
        }
        lemma_sorted_ordered(d);
        assert forall|i: int, j: int| 0 <= i < j < s.len() implies tile_le(#[trigger] s[i], #[trigger] s[j]) by {
            if j < s.len() - 1 {
                assert(d[i] == s[i] && d[j] == s[j]);
            } else if i < j - 1 {
                assert(d[i] == s[i] && d[j - 1] == s[j - 1]);
                assert(tile_le(s[i], s[j - 1]));
                assert(tile_le(s[j - 1], s[j]));
            }
        }
    }
}

/// A sorted rack stays sorted (as `Rack::is_sorted` checks) when a tile is taken out
/// of a slot, or a slot is dropped.
pub proof fn lemma_sorted_rack_stays_sorted(rack: Seq<Option<Tile>>, i: int)
    requires
        0 <= i < rack.len(),
        tiles_sorted(present_tiles(rack)),
    ensures
        tiles_sorted(present_tiles(rack.update(i, None))),
        tiles_sorted(present_tiles(rack.remove(i))),
{
    let a = rack.take(i);
    let b = rack.skip(i + 1);
    assert(rack.remove(i) == a + b);
    crate::matcher::state::lemma_present_concat(a, b);
    assert(rack == a.push(rack[i]) + b);
    crate::matcher::state::lemma_present_concat(a.push(rack[i]), b);
    assert(rack.update(i, None) == a.push(None) + b);
    crate::matcher::state::lemma_present_concat(a.push(None), b);
    assert(a.push(None::<Tile>).drop_last() == a);
    assert(a.push(rack[i]).drop_last() == a);
    let pa = present_tiles(a);
    let pb = present_tiles(b);
    let full = present_tiles(rack);
    lemma_sorted_ordered(full);
    let r = pa + pb;
    let k = pa.len() as int;
    let gap: int = if rack[i] is Some { 1 } else { 0 };
    assert(full == if rack[i] is Some { pa.push(rack[i]->Some_0) + pb } else { pa + pb });
    assert forall|x: int| 0 <= x < r.len() - 1 implies tile_le(#[trigger] r[x], r[x + 1]) by {
        let fx = if x < k { x } else { x + gap };
        let fy = if x + 1 < k { x + 1 } else { x + 1 + gap };
        assert(r[x] == full[fx]);
        assert(r[x + 1] == full[fy]);
        assert(fx < fy);
    }
}

/// Characters without `'*'` make no blank.
proof fn lemma_no_blanks(q: Seq<char>)
    requires
        !q.contains('*'),
    ensures
        blank_count(q) == 0,
    decreases q.len(),
{
    if q.len() > 0 {
        assert(q.last() != '*') by {
            assert(q[q.len() - 1] == q.last());
        }
        assert forall|c: char| q.drop_last().contains(c) implies q.contains(c) by {
            let k = choose|k: int| 0 <= k < q.drop_last().len() && q.drop_last()[k] == c;
            assert(q[k] == c);
        }
        lemma_no_blanks(q.drop_last());
    }
}

/// Whether `intersect` keeps the tile `t` for the letters `m`: a wildcard always,
/// a letter if it is among them.
pub open spec fn rack_keeps(m: LetterSet, t: Tile) -> bool {
    match t {
        Tile::Letter(ch) => letter_set_contains(m, ch),
        Tile::Wildcard(_) => true,
    }
}

/// The slots of `s` whose tile differs from the tile held before it: the first
/// slot of each run of equal tiles.
pub open spec fn unique_slots(s: Seq<Option<Tile>>) -> Seq<int>
    decreases s.len(),
{
    if s.len() == 0 {
        Seq::empty()
    } else {
        let u = unique_slots(s.drop_last());
        let p = present_tiles(s.drop_last());
        match s.last() {
            Some(t) => if p.len() == 0 || p.last() != t {
                u.push(s.len() - 1)
            } else {
                u
            },
            None => u,
        }
    }
}

/// All the expansions of the tiles `ts` for the valid characters `valid`, in order.
pub open spec fn expand_all(ts: Seq<Tile>, valid: Seq<char>) -> Seq<Tile>
    decreases ts.len(),
{
    if ts.len() == 0 {
        Seq::empty()
    } else {
        expand_all(ts.drop_last(), valid) + expansion(ts.last(), valid)
    }
}

/// A rack of tiles. Slots emptied by playing a tile stay in place, so that the tile
/// can be put back where it was.
#[derive(Debug, PartialEq, Eq)]
pub struct Rack {
    letters: Vec<Option<Tile>>,
}

impl View for Rack {
    type V = Seq<Option<Tile>>;

    closed spec fn view(&self) -> Seq<Option<Tile>> {
        self.letters@
    }
}

impl Clone for Rack {
    fn clone(&self) -> (r: Self)
        ensures
            r@ == self@,
    {
        let mut letters: Vec<Option<Tile>> = Vec::new();
        let mut i: usize = 0;
        while i < self.letters.len()
            invariant
                i <= self.letters.len(),
                letters@ == self.letters@.subrange(0, i as int),
            decreases self.letters.len() - i,
        {
            letters.push(self.letters[i]);
            i = i + 1;
            assert(self.letters@.subrange(0, i as int) == self.letters@.subrange(0, i - 1).push(
                self.letters@[i - 1],
            ));
        }
        assert(self.letters@.subrange(0, self.letters.len() as int) == self.letters@);
        Rack { letters }
    }
}

/// The present tiles after adding a slot.
proof fn lemma_present_push(s: Seq<Option<Tile>>, o: Option<Tile>)
    ensures
        present_tiles(s.push(o)) == match o {
            Some(t) => present_tiles(s).push(t),
            None => present_tiles(s),
        },
{
    assert(s.push(o).drop_last() == s);
}

/// Removing repetitions after adding a tile.
proof fn lemma_dedup_push(s: Seq<Tile>, t: Tile)
    ensures
        dedup_tiles(s.push(t)) == if s.len() > 0 && s.last() == t {
            dedup_tiles(s)
        } else {
            dedup_tiles(s).push(t)
        },
{
    assert(s.push(t).drop_last() == s);
    if s.len() == 0 {
        assert(s.push(t) == seq![t]);
    }
}

/// The expansions after adding a tile.
proof fn lemma_expand_all_push(ts: Seq<Tile>, t: Tile, valid: Seq<char>)
    ensures
        expand_all(ts.push(t), valid) == expand_all(ts, valid) + expansion(t, valid),
{
    assert(ts.push(t).drop_last() == ts);
}

impl Rack {
    /// A rack holding `letters`, which must be in order.
    pub fn new(letters: Vec<Tile>) -> (r: Self)
        requires
            tiles_sorted(letters@),
        ensures
            r@ == letters@.map_values(|t: Tile| Some(t)),
    {
        let mut tiles: Vec<Option<Tile>> = Vec::new();
        let mut i: usize = 0;
        while i < letters.len()
            invariant
                i <= letters.len(),
                tiles@ == letters@.subrange(0, i as int).map_values(|t: Tile| Some(t)),
            decreases letters.len() - i,
        {
            tiles.push(Some(letters[i]));
            i = i + 1;
            assert(letters@.subrange(0, i as int) == letters@.subrange(0, i - 1).push(
                letters@[i - 1],
            ));
        }
        assert(letters@.subrange(0, letters.len() as int) == letters@);
        Rack { letters: tiles }
    }

    /// A rack holding the tiles that the characters of `s` denote, in the order of
    /// tiles: the letters by character, then the blank wildcards (one for each `'*'`).
    pub fn from_str(s: &str) -> (r: Self)
        ensures
            r@ == rack_of(s@),
            tiles_sorted(present_tiles(r@)),
    {
        let chars = crate::util::chars_of(s);
        let sorted = sort_chars(chars.as_slice());
        let ghost q = sorted@;
        let mut tiles: Vec<Option<Tile>> = Vec::new();
        let mut blanks: usize = 0;
        let mut i: usize = 0;
        while i < sorted.len()
            invariant
                i <= sorted.len(),
                q == sorted@,
                tiles@ == letter_tiles(q.take(i as int)).map_values(|t: Tile| Some(t)),
                blanks == blank_count(q.take(i as int)),
                blanks <= i,
            decreases sorted.len() - i,
        {
            let c = sorted[i];
            assert(q.take(i + 1).drop_last() == q.take(i as int));
            assert(q.take(i + 1).last() == c);
            if c == '*' {
                blanks = blanks + 1;
            } else {
                tiles.push(Some(Tile::Letter(c)));
                assert(letter_tiles(q.take(i + 1)).map_values(|t: Tile| Some(t)) == letter_tiles(
                    q.take(i as int),
                ).map_values(|t: Tile| Some(t)).push(Some(Tile::Letter(c))));
            }
            i = i + 1;
        }
        assert(q.take(q.len() as int) == q);
        let ghost lt = letter_tiles(q);
        let mut k: usize = 0;
        while k < blanks
            invariant
                k <= blanks,
                blanks == blank_count(q),
                tiles@ == (lt + Seq::new(k as nat, |j: int| Tile::Wildcard(None))).map_values(|t: Tile| Some(t)),
            decreases blanks - k,
        {
            tiles.push(Some(Tile::Wildcard(None)));
            k = k + 1;
            assert((lt + Seq::new(k as nat, |j: int| Tile::Wildcard(None))) == (lt + Seq::new((k - 1) as nat, |j: int| Tile::Wildcard(None))).push(Tile::Wildcard(None)));
        }
        proof {
            lemma_sorted_seq(s@);
            lemma_rack_of(s@);
        }
        Rack { letters: tiles }
    }

    /// The tiles in the rack, in order.
    pub fn iter(&self) -> (r: Vec<Tile>)
        ensures
            r@ == present_tiles(self@),
    {
        let mut out: Vec<Tile> = Vec::new();
        let mut i: usize = 0;
        while i < self.letters.len()
            invariant
                i <= self.letters.len(),
                out@ == present_tiles(self.letters@.subrange(0, i as int)),
            decreases self.letters.len() - i,
        {
            proof {
                assert(self.letters@.subrange(0, i + 1) == self.letters@.subrange(0, i as int).push(
                    self.letters@[i as int],
                ));
                lemma_present_push(self.letters@.subrange(0, i as int), self.letters@[i as int]);
            }
            match self.letters[i] {
                Some(t) => out.push(t),
                None => {},
            }
            i = i + 1;
        }
        assert(self.letters@.subrange(0, self.letters.len() as int) == self.letters@);
        out
    }

    /// The different tiles of the rack, once each, that may go where `valid_letters`
    /// may: wildcards always, letters if they are among them.
    pub fn intersect(&self, valid_letters: &Letters) -> (r: Vec<Tile>)
        requires
            !present_tiles(self@).contains(Tile::Letter('*')),
        ensures
            r@ == dedup_tiles(present_tiles(self@)).filter(|t: Tile| rack_keeps(valid_letters@, t)),
    {
        let tiles = self.iter();
        let ghost pred = |t: Tile| rack_keeps(valid_letters@, t);
        let mut out: Vec<Tile> = Vec::new();
        let mut i: usize = 0;
        while i < tiles.len()
            invariant
                i <= tiles.len(),
                tiles@ == present_tiles(self@),
                !tiles@.contains(Tile::Letter('*')),
                pred == (|t: Tile| rack_keeps(valid_letters@, t)),
                out@ == dedup_tiles(tiles@.subrange(0, i as int)).filter(pred),
            decreases tiles.len() - i,
        {
            let t = tiles[i];
            let repeated = i > 0 && tiles[i - 1] == t;
            proof {
                let s = tiles@.subrange(0, i as int);
                assert(tiles@.subrange(0, i + 1) == s.push(t));
                lemma_dedup_push(s, t);
                if i > 0 {
                    assert(s.last() == tiles@[i - 1]);
                }
            }
            if !repeated {
                let keep = match t {
                    Tile::Letter(ch) => {
                        assert(tiles@[i as int] == t);
                        valid_letters.contains(ch)
                    },
                    Tile::Wildcard(_) => true,
                };
                if keep {
                    out.push(t);
                }
                proof {
                    dedup_tiles(tiles@.subrange(0, i as int)).lemma_filter_push(t, pred);
                }
            }
            i = i + 1;
        }
        assert(tiles@.subrange(0, tiles.len() as int) == tiles@);
        out
    }

    /// Removes a tile from the rack, leaving its slot empty, and returns the slot.
    /// A wildcard is taken from the first blank wildcard slot, any other tile from the
    /// first slot holding it.
    pub fn remove(&mut self, tile: Tile) -> (pos: usize)
        requires
            old(self)@.contains(Some(rack_form(tile))),
        ensures
            pos < old(self)@.len(),
            old(self)@[pos as int] == Some(rack_form(tile)),
            forall|k: int| 0 <= k < pos ==> old(self)@[k] != Some(rack_form(tile)),
            final(self)@ == old(self)@.update(pos as int, None),
            tiles_sorted(present_tiles(old(self)@)) ==> tiles_sorted(present_tiles(final(self)@)),
    {
        let matching = if tile.is_wildcard() {
            Some(Tile::Wildcard(None))
        } else {
            Some(tile)
        };
        let mut i: usize = 0;
        while i < self.letters.len() && self.letters[i] != matching
            invariant
                i <= self.letters.len(),
                self.letters@ == old(self)@,
                matching == Some(rack_form(tile)),
                forall|k: int| 0 <= k < i ==> self.letters@[k] != matching,
            decreases self.letters.len() - i,
        {
            i = i + 1;
        }
        if i == self.letters.len() {
            proof {
                let k = choose|k: int| 0 <= k < old(self)@.len() && old(self)@[k] == matching;
                assert(false);
            }
        }
        proof {
            if tiles_sorted(present_tiles(old(self)@)) {
                lemma_sorted_rack_stays_sorted(old(self)@, i as int);
            }
        }
        self.letters.set(i, None);
        i
    }

    /// Puts a tile back in the empty slot `pos`; a wildcard goes back blank.
    pub fn set(&mut self, tile: Tile, pos: usize)
        requires
            pos < old(self)@.len(),
            old(self)@[pos as int] is None,
        ensures
            final(self)@ == old(self)@.update(pos as int, Some(rack_form(tile))),
    {
        let tile = if tile.is_wildcard() {
            Tile::Wildcard(None)
        } else {
            tile
        };
        self.letters.set(pos, Some(tile));
    }

    /// Returns true if the tiles in the rack are in order.
    pub fn is_sorted(&self) -> (r: bool)
        ensures
            r == tiles_sorted(present_tiles(self@)),
    {
        let tiles = self.iter();
        let mut i: usize = 1;
        while i < tiles.len()
            invariant
                1 <= i,
                tiles@ == present_tiles(self@),
                forall|k: int| 0 <= k < i - 1 && k < tiles@.len() - 1 ==> tile_le(#[trigger] tiles@[k], tiles@[k + 1]),
            decreases tiles.len() - i,
        {
            if !tile_le_exec(tiles[i - 1], tiles[i]) {
                assert(!tile_le(tiles@[i - 1], tiles@[(i - 1) + 1]));
                return false;
            }
            i = i + 1;
        }
        true
    }

    /// For each different tile of the rack (the first of each run of equal tiles), the
    /// tile and the rack that remains once its slot is taken out.
    pub fn unique_letters(&self) -> (r: Vec<(Tile, Rack)>)
        ensures
            r@.len() == unique_slots(self@).len(),
            forall|k: int|
                0 <= k < r@.len() ==> {
                    &&& self@[unique_slots(self@)[k]] == Some((#[trigger] r@[k]).0)
                    &&& r@[k].1@ == self@.remove(unique_slots(self@)[k])
                },
            tiles_sorted(present_tiles(self@)) ==> forall|k: int|
                0 <= k < r@.len() ==> tiles_sorted(present_tiles((#[trigger] r@[k]).1@)),
    {
        let mut out: Vec<(Tile, Rack)> = Vec::new();
        let mut prev: Option<Tile> = None;
        let mut i: usize = 0;
        while i < self.letters.len()
            invariant
                i <= self.letters.len(),
                prev == (if present_tiles(self@.subrange(0, i as int)).len() == 0 {
                    None
                } else {
                    Some(present_tiles(self@.subrange(0, i as int)).last())
                }),
                out@.len() == unique_slots(self@.subrange(0, i as int)).len(),
                forall|j: int| #![trigger unique_slots(self@.subrange(0, i as int))[j]]
                    0 <= j < unique_slots(self@.subrange(0, i as int)).len() ==>
                        0 <= unique_slots(self@.subrange(0, i as int))[j] < i,
                forall|k: int|
                    0 <= k < out@.len() ==> {
                        &&& self@[unique_slots(self@.subrange(0, i as int))[k]] == Some((#[trigger] out@[k]).0)
                        &&& out@[k].1@ == self@.remove(unique_slots(self@.subrange(0, i as int))[k])
                    },
            decreases self.letters.len() - i,
        {
            let ghost s = self@.subrange(0, i as int);
            let ghost s1 = self@.subrange(0, i + 1);
            proof {
                assert(s1.drop_last() == s);
                assert(s1.last() == self@[i as int]);
                lemma_present_push(s, self@[i as int]);
                assert(s1 == s.push(self@[i as int]));
            }
            match self.letters[i] {
                Some(t) => {
                    if prev != Some(t) {
                        let mut next_letters = self.clone();
                        next_letters.letters.remove(i);
                        out.push((t, next_letters));
                    }
                    prev = Some(t);
                },
                None => {},
            }
            i = i + 1;
        }
        assert(self@.subrange(0, self.letters.len() as int) == self@);
        proof {
            if tiles_sorted(present_tiles(self@)) {
                assert forall|k: int| 0 <= k < out@.len() implies tiles_sorted(present_tiles((#[trigger] out@[k]).1@)) by {
                    lemma_sorted_rack_stays_sorted(self@, unique_slots(self@)[k]);
                }
            }
        }
        out
    }

    /// The number of slots of the rack, emptied ones included.
    pub fn max_tiles(&self) -> (r: usize)
        ensures
            r == self@.len(),
    {
        self.letters.len()
    }

    /// Returns true if the rack holds `tile`.
    pub fn contains(&self, tile: Tile) -> (r: bool)
        ensures
            r == present_tiles(self@).contains(tile),
    {
        let tiles = self.iter();
        let mut i: usize = 0;
        while i < tiles.len()
            invariant
                i <= tiles.len(),
                tiles@ == present_tiles(self@),
                forall|k: int| 0 <= k < i ==> tiles@[k] != tile,
            decreases tiles.len() - i,
        {
            if tiles[i] == tile {
                assert(tiles@[i as int] == tile);
                return true;
            }
            i = i + 1;
        }
        false
    }

    /// Expands every tile of the rack for the valid characters of a square: letters
    /// that may go there stand for themselves, blank wildcards become a wildcard for
    /// each valid character.
    pub fn expand_wildcards(&self, valid_chars: &[char]) -> (r: Vec<Tile>)
        requires
            forall|ch: char| !present_tiles(self@).contains(Tile::Wildcard(Some(ch))),
        ensures
            r@ == expand_all(present_tiles(self@), valid_chars@),
    {
        let tiles = self.iter();
        let mut out: Vec<Tile> = Vec::new();
        let mut i: usize = 0;
        while i < tiles.len()
            invariant
                i <= tiles.len(),
                tiles@ == present_tiles(self@),
                forall|ch: char| !tiles@.contains(Tile::Wildcard(Some(ch))),
                out@ == expand_all(tiles@.subrange(0, i as int), valid_chars@),
            decreases tiles.len() - i,
        {
            let t = tiles[i];
            assert(tiles@[i as int] == t);
            proof {
                if let Tile::Wildcard(Some(c)) = t {
                    assert(tiles@.contains(Tile::Wildcard(Some(c))));
                }
            }
            let mut e = t.expand(valid_chars);
            out.append(&mut e);
            proof {
                assert(tiles@.subrange(0, i + 1) == tiles@.subrange(0, i as int).push(t));
                lemma_expand_all_push(tiles@.subrange(0, i as int), t, valid_chars@);
            }
            i = i + 1;
        }
        assert(tiles@.subrange(0, tiles.len() as int) == tiles@);
        out
    }
}


/// Putting a removed tile back into the slot it came from gives the rack back.
pub proof fn lemma_remove_then_set(rack: Seq<Option<Tile>>, pos: int, t: Tile)
    requires
        0 <= pos < rack.len(),
        rack[pos] == Some(rack_form(t)),
    ensures
        rack.update(pos, None).update(pos, Some(rack_form(t))) == rack,
{
    assert(rack.update(pos, None).update(pos, Some(rack_form(t))) =~= rack);
}

/// Racks stay sorted (as `Rack::is_sorted` checks): taking a tile out of a sorted
/// rack leaves it sorted, and putting the tile back in its slot gives the rack back.
pub proof fn lemma_rack_stays_sorted(rack: Seq<Option<Tile>>, pos: int, t: Tile)
    requires
        tiles_sorted(present_tiles(rack)),
        0 <= pos < rack.len(),
        rack[pos] == Some(rack_form(t)),
    ensures
        tiles_sorted(present_tiles(rack.update(pos, None))),
        rack.update(pos, None).update(pos, Some(rack_form(t))) == rack,
        tiles_sorted(present_tiles(rack.update(pos, None).update(pos, Some(rack_form(t))))),
{
    lemma_sorted_rack_stays_sorted(rack, pos);
    lemma_remove_then_set(rack, pos, t);
}

/// Letters made of characters hold exactly those characters, unless they were made of
/// the single wildcard `'*'` (which stands for every letter).
pub proof fn lemma_letters_hold_their_chars(s: Seq<char>, ch: char)
    requires
        !(s.len() == 1 && s[0] == '*'),
    ensures
        letter_set_contains(letters_from_seq(s), ch) <==> s.contains(ch),
{
    if s.len() == 1 {
        if s.contains(ch) {
            let k = choose|k: int| 0 <= k < s.len() && s[k] == ch;
            assert(k == 0);
        }
        if letter_set_contains(letters_from_seq(s), ch) {
            assert(s[0] == ch);
        }
    }
}


/// `c` put into the nondecreasing `q` before the first character not below it.
pub open spec fn insert_in_order(q: Seq<char>, c: char) -> Seq<char>
    decreases q.len(),
{
    if q.len() == 0 || c <= q[0] {
        seq![c] + q
    } else {
        seq![q[0]] + insert_in_order(q.drop_first(), c)
    }
}

/// The characters of `s` sorted by inserting them one after another.
pub open spec fn sort_in_order(s: Seq<char>) -> Seq<char>
    decreases s.len(),
{
    if s.len() == 0 {
        s
    } else {
        insert_in_order(sort_in_order(s.drop_last()), s.last())
    }
}

/// Inserting into a nondecreasing sequence keeps it nondecreasing and adds the character.
proof fn lemma_insert_in_order(q: Seq<char>, c: char)
    requires
        nondecreasing(q),
    ensures
        nondecreasing(insert_in_order(q, c)),
        insert_in_order(q, c).to_multiset() == q.to_multiset().insert(c),
        forall|k: int| 0 <= k < insert_in_order(q, c).len() ==> #[trigger] insert_in_order(q, c)[k] == c
            || q.contains(insert_in_order(q, c)[k]),
    decreases q.len(),
{
    broadcast use vstd::seq_lib::group_to_multiset_ensures;
    broadcast use vstd::multiset::group_multiset_axioms;

    let r = insert_in_order(q, c);
    if q.len() == 0 || c <= q[0] {
        assert(seq![c] + q =~= q.insert(0, c));
        vstd::seq_lib::to_multiset_insert(q, 0, c);
        assert forall|k: int| 0 <= k < r.len() implies #[trigger] r[k] == c || q.contains(r[k]) by {
            if k > 0 {
                assert(r[k] == q[k - 1]);
            }
        }
    } else {
        let q1 = q.drop_first();
        assert(nondecreasing(q1)) by {
            assert forall|i: int, j: int| 0 <= i < j < q1.len() implies q1[i] <= q1[j] by {
                assert(q1[i] == q[i + 1] && q1[j] == q[j + 1]);
            }
        }
        lemma_insert_in_order(q1, c);
        let r1 = insert_in_order(q1, c);
        assert(r == seq![q[0]] + r1);
        assert forall|k: int| 0 <= k < r1.len() implies q[0] <= #[trigger] r1[k] by {
            if r1[k] != c {
                let j = choose|j: int| 0 <= j < q1.len() && q1[j] == r1[k];
                assert(q[j + 1] == q1[j]);
            }
        }
        assert forall|i: int, j: int| 0 <= i < j < r.len() implies r[i] <= r[j] by {
            if i == 0 {
                assert(r[j] == r1[j - 1]);
            } else {
                assert(r[i] == r1[i - 1] && r[j] == r1[j - 1]);
            }
        }
        assert(seq![q[0]] + r1 =~= r1.insert(0, q[0]));
        vstd::seq_lib::to_multiset_insert(r1, 0, q[0]);
        assert(seq![q[0]] + q1 =~= q1.insert(0, q[0]));
        assert(q == seq![q[0]] + q1);
        vstd::seq_lib::to_multiset_insert(q1, 0, q[0]);
        assert(r.to_multiset() =~= q.to_multiset().insert(c));
        assert forall|k: int| 0 <= k < r.len() implies #[trigger] r[k] == c || q.contains(r[k]) by {
            if k == 0 {
                assert(q.contains(q[0]));
            } else {
                assert(r[k] == r1[k - 1]);
                if r1[k - 1] != c {
                    let j = choose|j: int| 0 <= j < q1.len() && q1[j] == r1[k - 1];
                    assert(q[j + 1] == q1[j]);
                }
            }
        }
    }
}

/// Sorting by insertion gives a nondecreasing sequence of the same characters.
proof fn lemma_sort_in_order(s: Seq<char>)
    ensures
        nondecreasing(sort_in_order(s)),
        sort_in_order(s).to_multiset() == s.to_multiset(),
    decreases s.len(),
{
    broadcast use vstd::seq_lib::group_to_multiset_ensures;

    if s.len() > 0 {
        lemma_sort_in_order(s.drop_last());
        lemma_insert_in_order(sort_in_order(s.drop_last()), s.last());
        assert(s.drop_last().push(s.last()) == s);
    }
}

/// The sorted characters of `s` exist: they never decrease and are those of `s`.
pub proof fn lemma_sorted_seq(s: Seq<char>)
    ensures
        nondecreasing(sorted_seq(s)),
        sorted_seq(s).to_multiset() == s.to_multiset(),
{
    lemma_sort_in_order(s);
    let q = sort_in_order(s);
    assert(nondecreasing(q) && q.to_multiset() == s.to_multiset());
}

} // verus!
