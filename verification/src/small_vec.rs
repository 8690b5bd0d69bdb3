//! Small vectors kept inline, from the `smallvec` crate.

use smallvec::SmallVec;
use vstd::prelude::*;

use crate::tile::Tile;

verus! {

/// A vector of characters that keeps up to 15 of them inline: a
/// `SmallVec<[char; 15]>`.
#[verifier::external_body]
pub struct CharBuffer {
    raw: SmallVec<[char; 15]>,
}

/// The characters a `CharBuffer` holds, in order.
pub uninterp spec fn buffer_chars(b: CharBuffer) -> Seq<char>;

impl CharBuffer {
    /// Calls `SmallVec::new`: no characters.
    #[verifier::external_body]
    pub(crate) fn new() -> (r: CharBuffer)
        ensures
            buffer_chars(r) == Seq::<char>::empty(),
    {
        CharBuffer { raw: SmallVec::new() }
    }

    /// Calls `SmallVec::push`: `c` is added after the characters held.
    #[verifier::external_body]
    pub(crate) fn push(&mut self, c: char)
        ensures
            buffer_chars(*final(self)) == buffer_chars(*old(self)).push(c),
    {
        self.raw.push(c)
    }

    /// Calls `SmallVec::as_slice`: the characters held, in order.
    #[verifier::external_body]
    pub(crate) fn as_slice(&self) -> (r: &[char])
        ensures
            r@ == buffer_chars(*self),
    {
        self.raw.as_slice()
    }
}

/// A vector of tiles that keeps up to 4 of them inline: a `SmallVec<[Tile; 4]>`.
#[verifier::external_body]
pub struct TileBuffer {
    raw: SmallVec<[Tile; 4]>,
}

/// The tiles a `TileBuffer` holds, in order.
pub uninterp spec fn buffer_tiles(b: TileBuffer) -> Seq<Tile>;

impl TileBuffer {
    /// Calls `SmallVec::new`: no tiles.
    #[verifier::external_body]
    pub(crate) fn new() -> (r: TileBuffer)
        ensures
            buffer_tiles(r) == Seq::<Tile>::empty(),
    {
        TileBuffer { raw: SmallVec::new() }
    }

    /// Calls `SmallVec::push`: `t` is added after the tiles held.
    #[verifier::external_body]
    pub(crate) fn push(&mut self, t: Tile)
        ensures
            buffer_tiles(*final(self)) == buffer_tiles(*old(self)).push(t),
    {
        self.raw.push(t)
    }

    /// Calls `SmallVec::into_vec`: the tiles held, in order.
    #[verifier::external_body]
    pub(crate) fn into_vec(self) -> (r: Vec<Tile>)
        ensures
            r@ == buffer_tiles(self),
    {
        self.raw.into_vec()
    }
}

} // verus!
