//! A piece table: an editable text held as a short sequence of references
//! into two buffers that are never rewritten.
//!
//! - [`piece`]: a piece, the reference to a run of characters in a buffer;
//! - [`layout`]: how a sequence of pieces lays out a document;
//! - [`edit`]: what inserting and deleting do to the pieces, and to the text;
//! - [`table`]: the table itself, with its operations.
//!
//! Offsets and lengths count characters throughout.

pub mod edit;
pub mod layout;
pub mod piece;
pub mod table;

pub use piece::{Buffer, Piece};
pub use table::PieceTable;
