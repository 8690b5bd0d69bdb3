//! The dictionary: which words exist, and which letters fit a gap in a word.

use vstd::prelude::*;

use crate::dawg::{
    DictArena, DictBuilder, DictNode, WordOrderError, builder_words, dawg_labels, dawg_words,
    on_path, word_before,
};
use crate::small_vec::{CharBuffer, buffer_chars};
use crate::letters::{LetterSet, Letters, letter_set_contains, letters_from_seq, strictly_increasing};

verus! {

/// Words shorter than this are left out of the dictionary.
pub const MIN_WORD_LEN: usize = 2;

/// Words longer than this (the width of the board) are left out of the dictionary.
pub const MAX_WORD_LEN: usize = 15;

/// True iff `c` has the Unicode `White_Space` property.
pub open spec fn is_white_space(c: char) -> bool {
    let u = c as u32;
    (0x9 <= u <= 0xD) || u == 0x20 || u == 0x85 || u == 0xA0 || u == 0x1680 || (0x2000 <= u
        <= 0x200A) || u == 0x2028 || u == 0x2029 || u == 0x202F || u == 0x205F || u == 0x3000
}

/// `s` without its trailing white space.
pub open spec fn trimmed_end(s: Seq<char>) -> Seq<char>
    decreases s.len(),
{
    if s.len() > 0 && is_white_space(s.last()) {
        trimmed_end(s.drop_last())
    } else {
        s
    }
}

/// `s` without its leading white space.
pub open spec fn trimmed_start(s: Seq<char>) -> Seq<char>
    decreases s.len(),
{
    if s.len() > 0 && is_white_space(s[0]) {
        trimmed_start(s.drop_first())
    } else {
        s
    }
}

/// Calls `str::trim_end`: `s` without trailing white space.
#[verifier::external_body]
fn trim_end_str(s: &str) -> (r: &str)
    ensures
        r@ == trimmed_end(s@),
{
    s.trim_end()
}

/// Calls `str::trim_start`: `s` without leading white space.
#[verifier::external_body]
fn trim_start_str(s: &str) -> (r: &str)
    ensures
        r@ == trimmed_start(s@),
{
    s.trim_start()
}

/// The word a line of a word list holds, if any: the line without trailing white
/// space, when it has 2 to 15 characters and is not a comment (its first character
/// after leading white space is `'#'`).
pub open spec fn line_entry(line: Seq<char>) -> Option<Seq<char>> {
    let word = trimmed_end(line);
    if MIN_WORD_LEN <= word.len() <= MAX_WORD_LEN && !(trimmed_start(word).len() > 0
        && trimmed_start(word)[0] == '#') {
        Some(word)
    } else {
        None
    }
}

/// The words that the lines `lines` hold, in order.
pub open spec fn list_entries(lines: Seq<Seq<char>>) -> Seq<Seq<char>>
    decreases lines.len(),
{
    if lines.len() == 0 {
        Seq::empty()
    } else {
        let e = list_entries(lines.drop_last());
        match line_entry(lines.last()) {
            Some(w) => e.push(w),
            None => e,
        }
    }
}

/// The characters of each line.
pub open spec fn lines_view(lines: Seq<String>) -> Seq<Seq<char>> {
    lines.map_values(|l: String| l@)
}

/// True iff each word of `ws` comes after the one before it.
pub open spec fn in_order(ws: Seq<Seq<char>>) -> bool {
    forall|i: int| 0 < i < ws.len() ==> word_before(ws[i - 1], #[trigger] ws[i])
}

/// The words `ws` are in order up to position `i`, where `word` does not come after
/// `previous`, the word before it.
pub open spec fn first_out_of_order(ws: Seq<Seq<char>>, i: int, previous: Seq<char>, word: Seq<char>) -> bool {
    &&& 0 < i < ws.len()
    &&& in_order(ws.take(i))
    &&& !word_before(ws[i - 1], ws[i])
    &&& previous == ws[i - 1]
    &&& word == ws[i]
}

/// The word the line `line` holds, if any, see `line_entry`.
pub fn dictionary_entry(line: &str) -> (r: Option<&str>)
    ensures
        match r {
            Some(w) => line_entry(line@) == Some(w@),
            None => line_entry(line@) is None,
        },
{
    let word = trim_end_str(line);
    let chars = crate::util::chars_of(word);
    let len = chars.len();
    if MIN_WORD_LEN <= len && len <= MAX_WORD_LEN {
        let start = crate::util::chars_of(trim_start_str(word));
        if start.len() > 0 && start[0] == '#' {
            None
        } else {
            Some(word)
        }
    } else {
        None
    }
}

/// A dictionary, held as a graph of words.
pub struct Wordlist<'w> {
    root: DictNode<'w>,
}

/// True iff every label at a node below `root` continues some word of the graph.
pub open spec fn labels_continue_words(root: DictNode) -> bool {
    forall|p: Seq<char>, c: char|
        #[trigger] dawg_labels(root, p).contains(c) ==> exists|w: Seq<char>|
            #[trigger] dawg_words(root).contains(w) && p.push(c).is_prefix_of(w)
}

/// True iff the graph below `root` is one that `build_wordlist` makes: each of its
/// words can be followed edge by edge, the labels at each node come in increasing
/// order, and each label continues a word.
pub open spec fn dict_well_formed(root: DictNode) -> bool {
    &&& crate::matcher::state::words_on_path(root)
    &&& crate::matcher::state::labels_increasing(root)
    &&& labels_continue_words(root)
}

/// The words accepted by the dictionary `wl`.
pub open spec fn words_of(wl: &Wordlist<'_>) -> Set<Seq<char>> {
    dawg_words(wl.root_node())
}

/// The characters that fill the gap of `pattern`, in the order the graph hands them
/// out, if the characters before the gap lead somewhere in the graph below `root`.
/// `None` when `pattern` has no gap.
pub open spec fn gap_letters(root: DictNode, pattern: Seq<Option<char>>) -> Option<Seq<char>> {
    if pattern.contains(None) {
        let k = pattern.index_of(None);
        let prefix = pattern.take(k).map_values(|o: Option<char>| o->Some_0);
        let suffix = pattern.skip(k + 1).map_values(|o: Option<char>| o->Some_0);
        if on_path(root, prefix) {
            Some(
                dawg_labels(root, prefix).filter(
                    |c: char| dawg_words(root).contains(prefix.push(c) + suffix),
                ),
            )
        } else {
            None
        }
    } else {
        None
    }
}

/// The letters that fill the gap of `pattern`, as a set, see `gap_letters`.
pub open spec fn gap_letter_set(root: DictNode, pattern: Seq<Option<char>>) -> LetterSet {
    match gap_letters(root, pattern) {
        Some(cs) => letters_from_seq(cs),
        None => LetterSet::Empty,
    }
}

/// The characters of `pattern` before its first gap.
pub open spec fn gap_prefix(pattern: Seq<Option<char>>) -> Seq<char> {
    pattern.take(pattern.index_of(None)).map_values(|o: Option<char>| o->Some_0)
}

/// The characters of `pattern` after its first gap.
pub open spec fn gap_suffix(pattern: Seq<Option<char>>) -> Seq<char> {
    pattern.skip(pattern.index_of(None) + 1).map_values(|o: Option<char>| o->Some_0)
}

/// In a well formed graph, the characters before a gap lead nowhere exactly when there
/// is at least one and no word begins with them; what fills the gap comes in
/// increasing order and is exactly what, with the characters around the gap, forms a
/// word.
pub proof fn lemma_gap_meaning(root: DictNode, pattern: Seq<Option<char>>)
    requires
        dict_well_formed(root),
        pattern.contains(None),
    ensures
        gap_letters(root, pattern) is None <==> (gap_prefix(pattern).len() > 0 && forall|w: Seq<char>|
            !dawg_words(root).contains(gap_prefix(pattern) + w)),
        gap_letters(root, pattern) matches Some(v) ==> forall|c: char|
            v.contains(c) <==> dawg_words(root).contains(gap_prefix(pattern).push(c) + gap_suffix(pattern)),
{
    let pre = gap_prefix(pattern);
    let suf = gap_suffix(pattern);
    if on_path(root, pre) {
        if pre.len() > 0 {
            let m = pre.len() - 1;
            assert(dawg_labels(root, pre.take(m)).contains(pre[m]));
            let w = choose|w: Seq<char>| #[trigger] dawg_words(root).contains(w) && pre.take(m).push(pre[m]).is_prefix_of(w);
            assert(pre.take(m).push(pre[m]) == pre);
            assert(w == pre + w.skip(pre.len() as int));
        }
        let labels = dawg_labels(root, pre);
        let pred = |c: char| dawg_words(root).contains(pre.push(c) + suf);
        let v = labels.filter(pred);
        assert forall|c: char| v.contains(c) <==> dawg_words(root).contains(pre.push(c) + suf) by {
            if v.contains(c) {
                let i = choose|i: int| 0 <= i < v.len() && v[i] == c;
                labels.lemma_filter_pred(pred, i);
            }
            if dawg_words(root).contains(pre.push(c) + suf) {
                let x = pre.push(c) + suf;
                assert(on_path(root, x));
                assert(x.take(pre.len() as int) == pre);
                assert(x[pre.len() as int] == c);
                assert(labels.contains(c));
                let i = choose|i: int| 0 <= i < labels.len() && labels[i] == c;
                labels.lemma_filter_contains(pred, i);
            }
        }
    } else {
        assert forall|w: Seq<char>| !dawg_words(root).contains(pre + w) by {
            if dawg_words(root).contains(pre + w) {
                let x = pre + w;
                assert(on_path(root, x));
                assert forall|i: int| 0 <= i < pre.len() implies #[trigger] dawg_labels(root, pre.take(i)).contains(pre[i]) by {
                    assert(x.take(i) == pre.take(i));
                    assert(x[i] == pre[i]);
                    assert(dawg_labels(root, x.take(i)).contains(x[i]));
                }
            }
        }
        assert(pre.len() > 0) by {
            if pre.len() == 0 {
                assert(on_path(root, pre));
            }
        }
    }
}

/// Follows the graph from `node` along `path`; returns the node reached, if any.
pub fn walk_path<'w>(node: DictNode<'w>, path: &[char]) -> (r: Option<DictNode<'w>>)
    ensures
        r is Some <==> on_path(node, path@),
        r matches Some(n) ==> {
            &&& forall|w: Seq<char>| #![trigger dawg_words(n).contains(w)]
                dawg_words(n).contains(w) <==> dawg_words(node).contains(path@ + w)
            &&& forall|q: Seq<char>| #![trigger dawg_labels(n, q)]
                dawg_labels(n, q) == dawg_labels(node, path@ + q)
        },
        r is None ==> forall|w: Seq<char>| !dawg_words(node).contains(path@ + w),
{
    let mut cur = node;
    let mut i: usize = 0;
    while i < path.len()
        invariant
            i <= path.len(),
            on_path(node, path@.take(i as int)),
            forall|w: Seq<char>| #![trigger dawg_words(cur).contains(w)]
                dawg_words(cur).contains(w) <==> dawg_words(node).contains(path@.take(i as int) + w),
            forall|q: Seq<char>| #![trigger dawg_labels(cur, q)]
                dawg_labels(cur, q) == dawg_labels(node, path@.take(i as int) + q),
        decreases path.len() - i,
    {
        let c = path[i];
        let ghost pi = path@.take(i as int);
        proof {
            assert(path@.take(i + 1) == pi.push(c));
            assert(dawg_labels(cur, Seq::empty()) == dawg_labels(node, pi + Seq::empty()));
            assert(pi + Seq::<char>::empty() == pi);
        }
        match cur.get(c) {
            Some(child) => {
                proof {
                    let pn = pi.push(c);
                    assert forall|k: int| 0 <= k < pn.len() implies #[trigger] dawg_labels(
                        node,
                        pn.take(k),
                    ).contains(pn[k]) by {
                        if k < pi.len() {
                            assert(pn.take(k) == pi.take(k));
                            assert(pn[k] == pi[k]);
                        } else {
                            assert(pn.take(k) == pi);
                        }
                    }
                    assert forall|w: Seq<char>| #![trigger dawg_words(child).contains(w)]
                        dawg_words(child).contains(w) <==> dawg_words(node).contains(pn + w) by {
                        assert(dawg_words(child).contains(w) <==> dawg_words(cur).contains(seq![c] + w));
                        assert(pi + (seq![c] + w) == pn + w);
                    }
                    assert forall|q: Seq<char>| #![trigger dawg_labels(child, q)]
                        dawg_labels(child, q) == dawg_labels(node, pn + q) by {
                        assert(dawg_labels(child, q) == dawg_labels(cur, seq![c] + q));
                        assert(pi + (seq![c] + q) == pn + q);
                    }
                }
                cur = child;
            },
            None => {
                proof {
                    assert(!on_path(node, path@)) by {
                        assert(path@.take(i as int) == pi);
                        assert(!dawg_labels(node, path@.take(i as int)).contains(path@[i as int]));
                    }
                    assert forall|w: Seq<char>| !dawg_words(node).contains(path@ + w) by {
                        let rest = path@.skip(i + 1) + w;
                        assert(path@ + w == pi + (seq![c] + rest));
                        assert(!dawg_words(cur).contains(seq![c] + rest));
                    }
                }
                return None;
            },
        }
        i = i + 1;
    }
    proof {
        assert(path@.take(path.len() as int) == path@);
    }
    Some(cur)
}

impl<'w> Wordlist<'w> {
    /// The root of the dictionary graph.
    pub closed spec fn root_node(&self) -> DictNode<'w> {
        self.root
    }

    /// The graph of a dictionary is well formed, see `dict_well_formed`.
    #[verifier::type_invariant]
    closed spec fn inv(self) -> bool {
        dict_well_formed(self.root)
    }

    /// A dictionary holding the graph below `root`, a graph as `build_wordlist` (or
    /// `libdawg`'s builder) makes them.
    pub fn new(root: DictNode<'w>) -> (r: Self)
        requires
            dict_well_formed(root),
        ensures
            r.root_node() == root,
    {
        Wordlist { root }
    }

    /// The root of the dictionary graph, which is well formed.
    pub fn get_root(&self) -> (r: DictNode<'w>)
        ensures
            r == self.root_node(),
            dict_well_formed(r),
    {
        proof {
            use_type_invariant(self);
        }
        self.root
    }

    /// Returns true iff `word` is a word of the dictionary.
    pub fn is_word(&self, word: &str) -> (r: bool)
        ensures
            r == words_of(self).contains(word@),
    {
        let chars = crate::util::chars_of(word);
        self.contains_word(chars.as_slice())
    }

    /// Returns true iff the characters `word` form a word of the dictionary.
    pub fn contains_word(&self, word: &[char]) -> (r: bool)
        ensures
            r == words_of(self).contains(word@),
    {
        match walk_path(self.root, word) {
            Some(n) => {
                let r = n.is_word();
                assert(word@ + Seq::<char>::empty() == word@);
                r
            },
            None => {
                assert(word@ + Seq::<char>::empty() == word@);
                false
            },
        }
    }

    /// The characters that can fill the single gap (`None`) of `pattern` so that the
    /// whole forms a word: `None` when `pattern` has no gap, or when the characters
    /// before the gap (at least one) begin no word; otherwise, in increasing order,
    /// exactly the characters that with the characters around the gap form a word.
    /// See `gap_letters`.
    pub fn valid_letters_iter(&self, pattern: &[Option<char>]) -> (r: Option<Vec<char>>)
        requires
            forall|i: int, j: int| 0 <= i < j < pattern@.len() && pattern@[i] is None ==> pattern@[j] is Some,
        ensures
            match r {
                Some(v) => gap_letters(self.root_node(), pattern@) == Some(v@),
                None => gap_letters(self.root_node(), pattern@) is None,
            },
            !pattern@.contains(None) ==> r is None,
            pattern@.contains(None) ==> (r is None <==> (gap_prefix(pattern@).len() > 0 && forall|w: Seq<char>|
                !words_of(self).contains(gap_prefix(pattern@) + w))),
            r matches Some(v) ==> strictly_increasing(v@) && forall|c: char|
                v@.contains(c) <==> words_of(self).contains(gap_prefix(pattern@).push(c) + gap_suffix(pattern@)),
    {
        proof {
            use_type_invariant(self);
            if pattern@.contains(None) {
                lemma_gap_meaning(self.root, pattern@);
            }
            lemma_gap_letters_sorted(self.root, pattern@);
        }
        self.gap_chars(pattern)
    }

    /// The characters that fill the single gap of `pattern`, see `gap_letters`.
    fn gap_chars(&self, pattern: &[Option<char>]) -> (r: Option<Vec<char>>)
        requires
            forall|i: int, j: int| 0 <= i < j < pattern@.len() && pattern@[i] is None ==> pattern@[j] is Some,
        ensures
            match r {
                Some(v) => gap_letters(self.root_node(), pattern@) == Some(v@),
                None => gap_letters(self.root_node(), pattern@) is None,
            },
    {
        let mut prefix = CharBuffer::new();
        let mut i: usize = 0;
        loop
            invariant
                i <= pattern.len(),
                forall|k: int| 0 <= k < i ==> pattern@[k] is Some,
                buffer_chars(prefix) == pattern@.take(i as int).map_values(|o: Option<char>| o->Some_0),
            ensures
                i < pattern.len(),
                pattern@[i as int] is None,
                forall|k: int| 0 <= k < i ==> pattern@[k] is Some,
                buffer_chars(prefix) == pattern@.take(i as int).map_values(|o: Option<char>| o->Some_0),
            decreases pattern.len() - i,
        {
            if i == pattern.len() {
                proof {
                    if pattern@.contains(None) {
                        let k = choose|k: int| 0 <= k < pattern@.len() && pattern@[k] == None::<char>;
                        assert(pattern@[k] is Some);
                    }
                }
                return None;
            }
            match pattern[i] {
                Some(c) => {
                    prefix.push(c);
                    proof {
                        assert(pattern@.take(i + 1) == pattern@.take(i as int).push(pattern@[i as int]));
                    }
                    i = i + 1;
                },
                None => {
                    break;
                },
            }
        }
        let ghost k = i as int;
        proof {
            assert(pattern@.contains(None)) by {
                assert(pattern@[k] == None::<char>);
            }
            assert(pattern@.index_of(None) == k) by {
                let j = pattern@.index_of(None);
                if j < k {
                    assert(pattern@[j] is Some);
                }
                if j > k {
                    assert(pattern@[k] == None::<char>);
                }
            }
        }
        let mut suffix: Vec<char> = Vec::new();
        let mut j: usize = i + 1;
        while j < pattern.len()
            invariant
                0 <= k < pattern@.len(),
                k + 1 <= j <= pattern.len(),
                pattern@[k] is None,
                forall|a: int, b: int| 0 <= a < b < pattern@.len() && pattern@[a] is None ==> pattern@[b] is Some,
                suffix@ == pattern@.subrange(k + 1, j as int).map_values(|o: Option<char>| o->Some_0),
            decreases pattern.len() - j,
        {
            assert(pattern@[j as int] is Some);
            let c = pattern[j].unwrap();
            suffix.push(c);
            proof {
                assert(pattern@.subrange(k + 1, j + 1) == pattern@.subrange(k + 1, j as int).push(pattern@[j as int]));
            }
            j = j + 1;
        }
        proof {
            assert(pattern@.subrange(k + 1, pattern@.len() as int) == pattern@.skip(k + 1));
        }
        let ghost pre = buffer_chars(prefix);
        let ghost suf = suffix@;
        let node = match walk_path(self.root, prefix.as_slice()) {
            Some(n) => n,
            None => {
                return None;
            },
        };
        let labels = node.child_letters();
        proof {
            assert(pre + Seq::<char>::empty() == pre);
        }
        let ghost pred = |c: char| dawg_words(self.root).contains(pre.push(c) + suf);
        let mut out: Vec<char> = Vec::new();
        let mut m: usize = 0;
        while m < labels.len()
            invariant
                m <= labels.len(),
                labels@ == dawg_labels(self.root, pre),
                forall|w: Seq<char>| #![trigger dawg_words(node).contains(w)]
                    dawg_words(node).contains(w) <==> dawg_words(self.root).contains(pre + w),
                suffix@ == suf,
                pred == (|c: char| dawg_words(self.root).contains(pre.push(c) + suf)),
                out@ == labels@.take(m as int).filter(pred),
            decreases labels.len() - m,
        {
            let c = labels[m];
            let mut word: Vec<char> = Vec::new();
            word.push(c);
            let mut rest = suffix.clone();
            word.append(&mut rest);
            proof {
                assert(word@ == seq![c] + suf);
                assert(pre + (seq![c] + suf) == pre.push(c) + suf);
            }
            if node.has_suffix(word.as_slice()) {
                out.push(c);
            }
            proof {
                assert(labels@.take(m + 1) == labels@.take(m as int).push(c));
                labels@.take(m as int).lemma_filter_push(c, pred);
            }
            m = m + 1;
        }
        proof {
            assert(labels@.take(labels.len() as int) == labels@);
        }
        Some(out)
    }

    /// The letters that can fill the single gap of `pattern`, see `gap_letter_set`.
    pub fn valid_letters(&self, pattern: &[Option<char>]) -> (r: Letters)
        requires
            forall|i: int, j: int| 0 <= i < j < pattern@.len() && pattern@[i] is None ==> pattern@[j] is Some,
        ensures
            r@ == gap_letter_set(self.root_node(), pattern@),
    {
        match self.valid_letters_iter(pattern) {
            Some(chars) => Letters::new(chars.as_slice()),
            None => Letters::empty(),
        }
    }
}

/// Builds a dictionary from the lines of a word list, see `line_entry`; the words
/// must come in dictionary order.
pub fn build_wordlist<'a>(arena: &'a DictArena<'a>, lines: &[String]) -> (r: Result<Wordlist<'a>, WordOrderError>)
    ensures
        r is Ok <==> in_order(list_entries(lines_view(lines@))),
        r matches Ok(wl) ==> words_of(&wl) == list_entries(lines_view(lines@)).to_set(),
        r matches Ok(wl) ==> forall|p: Seq<char>| #[trigger] strictly_increasing(dawg_labels(wl.root_node(), p)),
        r matches Ok(wl) ==> crate::matcher::state::words_on_path(wl.root_node()),
        r matches Ok(wl) ==> dict_well_formed(wl.root_node()),
        r matches Ok(wl) ==> ((forall|w: Seq<char>| list_entries(lines_view(lines@)).contains(w) ==> !w.contains('*'))
            ==> crate::matcher::state::no_wildcard_labels(wl.root_node())),
        r is Err ==> exists|i: int| #[trigger] first_out_of_order(
            list_entries(lines_view(lines@)),
            i,
            r->Err_0.previous@,
            r->Err_0.word@,
        ),
{
    let ghost ls = lines_view(lines@);
    let mut builder = DictBuilder::new(arena);
    let mut i: usize = 0;
    while i < lines.len()
        invariant
            i <= lines.len(),
            ls == lines_view(lines@),
            builder_words(builder) == list_entries(ls.take(i as int)),
            in_order(builder_words(builder)),
        decreases lines.len() - i,
    {
        proof {
            assert(ls.take(i + 1).drop_last() == ls.take(i as int));
            assert(ls.take(i + 1).last() == lines@[i as int]@);
        }
        match dictionary_entry(lines[i].as_str()) {
            Some(word) => {
                let ghost before = builder_words(builder);
                match builder.add_word(word) {
                    Ok(()) => {
                        proof {
                            assert forall|k: int| 0 < k < builder_words(builder).len() implies word_before(
                                builder_words(builder)[k - 1],
                                #[trigger] builder_words(builder)[k],
                            ) by {
                                if k < before.len() {
                                    assert(builder_words(builder)[k] == before[k]);
                                    assert(builder_words(builder)[k - 1] == before[k - 1]);
                                }
                            }
                        }
                    },
                    Err(e) => {
                        proof {
                            let es = list_entries(ls);
                            lemma_entries_prefix(ls, i as int + 1);
                            let i2 = before.len() as int;
                            assert(list_entries(ls.take(i + 1)) == before.push(word@));
                            assert(es.take(i2 + 1) == before.push(word@));
                            assert(es[i2] == es.take(i2 + 1)[i2]);
                            assert(es[i2 - 1] == es.take(i2 + 1)[i2 - 1]);
                            assert(es[i2] == word@);
                            assert(es[i2 - 1] == before[i2 - 1]);
                            assert(es.take(i2) == before);
                            assert(!in_order(es)) by {
                                assert(!word_before(es[i2 - 1], es[i2]));
                            }
                            assert(before.len() > 0);
                            assert(0 < i2 < es.len());
                            assert(in_order(es.take(i2)));
                            assert(e.previous@ == es[i2 - 1]);
                            assert(e.word@ == es[i2]);
                            assert(first_out_of_order(es, i2, e.previous@, e.word@));
                            assert(es == list_entries(lines_view(lines@)));
                        }
                        let r: Result<Wordlist<'a>, WordOrderError> = Err(e);
                        assert(r->Err_0.previous@ == e.previous@ && r->Err_0.word@ == e.word@);
                        return r;
                    },
                }
            },
            None => {},
        }
        i = i + 1;
    }
    proof {
        assert(ls.take(lines.len() as int) == ls);
    }
    let ghost ws = builder_words(builder);
    let root = builder.build();
    proof {
        assert forall|p: Seq<char>, c: char| #[trigger] dawg_labels(root, p).contains(c) implies exists|w: Seq<char>|
            #[trigger] dawg_words(root).contains(w) && p.push(c).is_prefix_of(w) by {
            let w = choose|w: Seq<char>| ws.contains(w) && (p.push(c)).is_prefix_of(w);
            assert(dawg_words(root).contains(w));
        }
        assert forall|p: Seq<char>| !(#[trigger] dawg_labels(root, p)).contains('*') implies true by {}
        if forall|w: Seq<char>| list_entries(ls).contains(w) ==> !w.contains('*') {
            assert forall|p: Seq<char>| !(#[trigger] dawg_labels(root, p)).contains('*') by {
                if dawg_labels(root, p).contains('*') {
                    let w = choose|w: Seq<char>| ws.contains(w) && (p.push('*')).is_prefix_of(w);
                    assert(w.take(p.len() as int + 1) == p.push('*'));
                    assert(w[p.len() as int] == w.take(p.len() as int + 1)[p.len() as int]);
                    assert(w[p.len() as int] == '*');
                    assert(w.contains('*'));
                }
            }
        }
    }
    Ok(Wordlist::new(root))
}

/// The words of a prefix of the lines are a prefix of the words of all lines.
proof fn lemma_entries_prefix(ls: Seq<Seq<char>>, n: int)
    requires
        0 <= n <= ls.len(),
    ensures
        list_entries(ls.take(n)).is_prefix_of(list_entries(ls)),
    decreases ls.len() - n,
{
    if n < ls.len() {
        lemma_entries_prefix(ls, n + 1);
        assert(ls.take(n + 1).drop_last() == ls.take(n));
    } else {
        assert(ls.take(n) == ls);
    }
}


/// Keeping some characters of an increasing sequence leaves it increasing, and every
/// character kept comes from it.
pub(crate) proof fn lemma_filter_increasing(s: Seq<char>, pred: spec_fn(char) -> bool)
    requires
        strictly_increasing(s),
    ensures
        strictly_increasing(s.filter(pred)),
        forall|k: int| 0 <= k < s.filter(pred).len() ==> exists|i: int| 0 <= i < s.len() && s[i] == #[trigger] s.filter(pred)[k],
    decreases s.len(),
{
    reveal(Seq::filter);
    if s.len() > 0 {
        let d = s.drop_last();
        lemma_filter_increasing(d, pred);
        let sub = d.filter(pred);
        if pred(s.last()) {
            let f = sub.push(s.last());
            assert(s.filter(pred) == f);
            assert forall|k: int| 0 <= k < sub.len() implies #[trigger] sub[k] < s.last() by {
                let i = choose|i: int| 0 <= i < d.len() && d[i] == sub[k];
                assert(s[i] == d[i]);
            }
            assert forall|a: int, b: int| 0 <= a < b < f.len() implies f[a] < f[b] by {
                if b == f.len() - 1 {
                    assert(f[a] == sub[a]);
                } else {
                    assert(f[a] == sub[a] && f[b] == sub[b]);
                }
            }
            assert forall|k: int| 0 <= k < f.len() implies exists|i: int| 0 <= i < s.len() && s[i] == #[trigger] f[k] by {
                if k == f.len() - 1 {
                    assert(s[s.len() - 1] == f[k]);
                } else {
                    let i = choose|i: int| 0 <= i < d.len() && d[i] == sub[k];
                    assert(s[i] == f[k]);
                }
            }
        } else {
            assert(s.filter(pred) == sub);
            assert forall|k: int| 0 <= k < sub.len() implies exists|i: int| 0 <= i < s.len() && s[i] == #[trigger] sub[k] by {
                let i = choose|i: int| 0 <= i < d.len() && d[i] == sub[k];
                assert(s[i] == sub[k]);
            }
        }
    }
}

/// The letters that fill a gap come in increasing order when the labels of every
/// node of the graph do, as they do in a graph that `build_wordlist` makes.
pub proof fn lemma_gap_letters_sorted(root: DictNode, pattern: Seq<Option<char>>)
    requires
        forall|p: Seq<char>| #[trigger] strictly_increasing(dawg_labels(root, p)),
    ensures
        gap_letters(root, pattern) matches Some(cs) ==> strictly_increasing(cs),
{
    if pattern.contains(None) {
        let k = pattern.index_of(None);
        let prefix = pattern.take(k).map_values(|o: Option<char>| o->Some_0);
        let suffix = pattern.skip(k + 1).map_values(|o: Option<char>| o->Some_0);
        assert(strictly_increasing(dawg_labels(root, prefix)));
        lemma_filter_increasing(
            dawg_labels(root, prefix),
            |c: char| dawg_words(root).contains(prefix.push(c) + suffix),
        );
    }
}

/// `pattern` with each gap filled with `ch`.
pub open spec fn gap_filled(pattern: Seq<Option<char>>, ch: char) -> Seq<char> {
    pattern.map_values(|o: Option<char>| match o {
        Some(c) => c,
        None => ch,
    })
}

/// In a dictionary whose words can be followed edge by edge from the root and none of
/// whose labels is `'*'`, a character fills the single gap of a pattern iff the
/// pattern with it there is a word.
pub proof fn lemma_gap_letter_set_word(root: DictNode, pattern: Seq<Option<char>>, k: int, ch: char)
    requires
        crate::matcher::state::words_on_path(root),
        crate::matcher::state::no_wildcard_labels(root),
        0 <= k < pattern.len(),
        pattern[k] is None,
        forall|j: int| 0 <= j < pattern.len() && j != k ==> #[trigger] pattern[j] is Some,
    ensures
        letter_set_contains(gap_letter_set(root, pattern), ch) <==> dawg_words(root).contains(gap_filled(pattern, ch)),
{
    assert(pattern.contains(None)) by {
        assert(pattern[k] == None::<char>);
    }
    assert(pattern.index_of(None) == k) by {
        let j = pattern.index_of(None);
        if j < k {
            assert(pattern[j] is Some);
        }
        if j > k {
            assert(pattern[k] == None::<char>);
        }
    }
    let prefix = pattern.take(k).map_values(|o: Option<char>| o->Some_0);
    let suffix = pattern.skip(k + 1).map_values(|o: Option<char>| o->Some_0);
    let w = gap_filled(pattern, ch);
    assert(w =~= prefix.push(ch) + suffix) by {
        assert forall|i: int| 0 <= i < w.len() implies w[i] == (prefix.push(ch) + suffix)[i] by {
            if i < k {
                assert(pattern[i] is Some);
            } else if i > k {
                assert(pattern[i] is Some);
                assert(suffix[i - k - 1] == pattern[i]->Some_0);
            }
        }
    }
    assert(w.take(k) == prefix);
    assert(w[k] == ch);
    if dawg_words(root).contains(w) {
        assert(on_path(root, w));
        assert(dawg_labels(root, w.take(k)).contains(w[k]));
        assert(on_path(root, prefix)) by {
            assert forall|i: int| 0 <= i < prefix.len() implies #[trigger] dawg_labels(root, prefix.take(i)).contains(prefix[i]) by {
                assert(prefix.take(i) == w.take(i));
                assert(dawg_labels(root, w.take(i)).contains(w[i]));
            }
        }
    }
    if on_path(root, prefix) {
        let labels = dawg_labels(root, prefix);
        let pred = |c: char| dawg_words(root).contains(prefix.push(c) + suffix);
        let f = labels.filter(pred);
        assert(gap_letters(root, pattern) == Some(f));
        assert(!labels.contains('*'));
        assert(!(f.len() == 1 && f[0] == '*')) by {
            if f.len() == 1 && f[0] == '*' {
                assert(f.contains('*'));
                labels.lemma_filter_contains_rev(pred, '*');
            }
        }
        crate::letters::lemma_letters_hold_their_chars(f, ch);
        if f.contains(ch) {
            let i = choose|i: int| 0 <= i < f.len() && f[i] == ch;
            labels.lemma_filter_pred(pred, i);
        }
        if dawg_words(root).contains(w) {
            let i = choose|i: int| 0 <= i < labels.len() && labels[i] == ch;
            labels.lemma_filter_contains(pred, i);
        }
    }
}

} // verus!
