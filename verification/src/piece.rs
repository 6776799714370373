//! Pieces: references to a run of characters in one of the two buffers.

use vstd::prelude::*;

verus! {

/// The buffer that a piece refers to.
#[derive(Debug, Copy, Clone, PartialEq, Eq, PartialOrd, Ord, Structural)]
pub enum Buffer {
    /// The text the table was created from.
    Original,
    /// Everything inserted since, in the order of insertion.
    Add,
}

/// A run of `length` characters that starts at `offset` in `buffer`.
#[derive(Debug, Copy, Clone, PartialEq, Eq, PartialOrd, Ord, Structural)]
pub struct Piece {
    pub buffer: Buffer,
    pub length: usize,
    pub offset: usize,
}

impl Piece {
    /// The first `n` characters of this piece.
    pub open spec fn front(self, n: int) -> Piece {
        Piece { buffer: self.buffer, length: n as usize, offset: self.offset }
    }

    /// This piece without its first `n` characters.
    pub open spec fn back(self, n: int) -> Piece {
        Piece {
            buffer: self.buffer,
            length: (self.length - n) as usize,
            offset: (self.offset + n) as usize,
        }
    }

    pub fn new(buffer: Buffer, length: usize, offset: usize) -> (piece: Self)
        ensures
            piece == (Piece { buffer, length, offset }),
    {
        Piece { buffer, length, offset }
    }
}

} // verus!
