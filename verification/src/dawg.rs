use libdawg::dawg::DawgNode;
use libdawg::dawg::builder::{Builder, BuilderError};
use typed_arena::Arena;

use crate::letters::strictly_increasing;
use vstd::prelude::*;

verus! {

/// A node of a dictionary graph: a shared reference to a `libdawg` node.
#[verifier::external_body]
#[derive(Copy)]
pub struct DictNode<'w> {
    pub raw: &'w DawgNode<'w, char>,
}

impl<'w> Clone for DictNode<'w> {
    /// A node is a shared reference: cloning copies it.
    #[verifier::external_body]
    fn clone(&self) -> (r: Self)
        ensures
            r == *self,
    {
        *self
    }
}

/// The words accepted from `node`: the label sequences along which `DawgNode::get`
/// leads from `node` to a node whose `is_word` holds.
pub uninterp spec fn dawg_words(node: DictNode<'_>) -> Set<Seq<char>>;

/// The labels that `DawgNode::children` hands out, in its order, at the node that
/// `DawgNode::get` reaches from `node` along `path`; empty where that walk fails.
pub uninterp spec fn dawg_labels(node: DictNode<'_>, path: Seq<char>) -> Seq<char>;

/// True iff the dictionary graph below `root` has an edge for each character of `p`
/// in turn, so that following `p` from `root` reaches a node.
pub open spec fn on_path(root: DictNode, p: Seq<char>) -> bool {
    forall|i: int| 0 <= i < p.len() ==> #[trigger] dawg_labels(root, p.take(i)).contains(p[i])
}

impl<'w> DictNode<'w> {
    /// Calls `DawgNode::is_word`: true iff the empty word is accepted here.
    #[verifier::external_body]
    pub(crate) fn is_word(&self) -> (r: bool)
        ensures
            r == dawg_words(*self).contains(Seq::empty()),
    {
        self.raw.is_word()
    }

    /// Calls `DawgNode::get`: the child along the edge labelled `ch`, present iff
    /// `ch` is among the labels of this node; its words and labels are those of this
    /// node after `ch`.
    #[verifier::external_body]
    pub(crate) fn get(&self, ch: char) -> (r: Option<DictNode<'w>>)
        ensures
            r is Some <==> dawg_labels(*self, Seq::empty()).contains(ch),
            match r {
                Some(child) => {
                    &&& forall|w: Seq<char>|
                        #![trigger dawg_words(child).contains(w)]
                        dawg_words(child).contains(w) <==> dawg_words(*self).contains(seq![ch] + w)
                    &&& forall|p: Seq<char>|
                        #![trigger dawg_labels(child, p)]
                        dawg_labels(child, p) == dawg_labels(*self, seq![ch] + p)
                },
                None => {
                    &&& forall|w: Seq<char>| !dawg_words(*self).contains(seq![ch] + w)
                    &&& forall|p: Seq<char>| dawg_labels(*self, seq![ch] + p) == Seq::<char>::empty()
                },
            },
    {
        match self.raw.get(ch) {
            Some(child) => Some(DictNode { raw: child }),
            None => None,
        }
    }

    /// Calls `DawgNode::children`, keeping the label of each child.
    #[verifier::external_body]
    pub(crate) fn child_letters(&self) -> (r: Vec<char>)
        ensures
            r@ == dawg_labels(*self, Seq::empty()),
    {
        self.raw.children().map(|(ch, _)| ch).collect()
    }

    /// Calls `DawgNode::has_suffix`: true iff `suffix` is accepted from this node.
    #[verifier::external_body]
    pub(crate) fn has_suffix(&self, suffix: &[char]) -> (r: bool)
        ensures
            r == dawg_words(*self).contains(suffix@),
    {
        self.raw.has_suffix(&mut suffix.iter().copied())
    }
}


/// The arena that the nodes of a dictionary graph are allocated in.
#[verifier::external_body]
pub struct DictArena<'a> {
    pub raw: Arena<DawgNode<'a, char>>,
}


/// A dictionary graph under construction.
#[verifier::external_body]
pub struct DictBuilder<'a> {
    raw: Builder<'a, char>,
}

/// The words added to `b` so far, in order.
pub uninterp spec fn builder_words(b: DictBuilder<'_>) -> Seq<Seq<char>>;

/// `a` comes strictly before `b` in dictionary order: either `a` is a proper prefix of
/// `b`, or at the first position where they differ `a` has the smaller character.
pub open spec fn word_before(a: Seq<char>, b: Seq<char>) -> bool {
    exists|i: int|
        0 <= i <= a.len() && i <= b.len() && #[trigger] a.take(i) == b.take(i) && ((i == a.len()
            && i < b.len()) || (i < a.len() && i < b.len() && a[i] < b[i]))
}

/// A word was added out of dictionary order.
#[derive(Debug, PartialEq, Eq)]
pub struct WordOrderError {
    /// The word added before.
    pub previous: Vec<char>,
    /// The word that does not come after it.
    pub word: Vec<char>,
}

impl<'a> DictBuilder<'a> {
    /// Calls `Builder::new`: a builder with no words yet.
    #[verifier::external_body]
    pub(crate) fn new(arena: &'a DictArena<'a>) -> (r: DictBuilder<'a>)
        ensures
            builder_words(r) == Seq::<Seq<char>>::empty(),
    {
        DictBuilder { raw: Builder::new(&arena.raw) }
    }

    /// Calls `Builder::add_word`. The word is added iff it comes after the word added
    /// before (any word may come first); otherwise nothing changes and the error holds
    /// both words.
    #[verifier::external_body]
    pub(crate) fn add_word(&mut self, word: &str) -> (r: Result<(), WordOrderError>)
        requires
            word@.len() > 0,
        ensures
            r is Ok <==> (builder_words(*old(self)).len() == 0 || word_before(
                builder_words(*old(self)).last(),
                word@,
            )),
            r is Ok ==> builder_words(*final(self)) == builder_words(*old(self)).push(word@),
            r matches Err(e) ==> {
                &&& builder_words(*final(self)) == builder_words(*old(self))
                &&& e.previous@ == builder_words(*old(self)).last()
                &&& e.word@ == word@
            },
    {
        match self.raw.add_word(word) {
            Ok(()) => Ok(()),
            Err(BuilderError::Order(previous, word)) => Err(WordOrderError { previous, word }),
        }
    }

    /// Calls `Builder::build`: the graph accepts exactly the words added, each label in
    /// it continues some added word, each accepted word can be followed edge by edge
    /// from the root, and the labels of each node come in increasing order (children
    /// are appended as the words, which come in order, are added).
    #[verifier::external_body]
    pub(crate) fn build(self) -> (r: DictNode<'a>)
        ensures
            dawg_words(r) == builder_words(self).to_set(),
            forall|w: Seq<char>| #[trigger] dawg_words(r).contains(w) ==> on_path(r, w),
            forall|p: Seq<char>| #[trigger] strictly_increasing(dawg_labels(r, p)),
            forall|p: Seq<char>, c: char|
                #[trigger] dawg_labels(r, p).contains(c) ==> exists|w: Seq<char>|
                    builder_words(self).contains(w) && (p.push(c)).is_prefix_of(w),
    {
        DictNode { raw: self.raw.build() }
    }
}

} // verus!
