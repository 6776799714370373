//! The piece table itself: the two buffers, the pieces, and the operations
//! that edit and read the document.

use vstd::prelude::*;
use crate::edit::{
    lemma_delete, lemma_delete_nothing, lemma_delete_past_end, lemma_insert, lemma_insert_nothing,
    pieces_after_delete, pieces_after_insert, split_around, text_after, text_after_all,
    text_after_delete, text_after_insert, trim, trim_all, Edit,
};
use crate::layout::{
    all_fit, covering_index, covers, document, fits, lemma_covering_index,
    lemma_document_ignores_appended, lemma_document_len, lemma_piece_in_document, lemma_single,
    lemma_starts, piece_text, start_of, total_len,
};
use crate::piece::{Buffer, Piece};

verus! {

/// An editable text. The original text and everything inserted since are
/// kept as they came; the pieces say which runs of them make up the document,
/// and in which order.
///
/// Both buffers share one vector, the original text first and the add buffer
/// after it, so that the document can never outgrow what a vector holds.
#[derive(Debug, Clone, PartialEq, Eq, PartialOrd, Ord)]
pub struct PieceTable {
    text: Vec<char>,
    original_len: usize,
    pieces: Vec<Piece>,
}

/// The pieces of a table made from a text of `len` characters: one piece for
/// the whole text, or none if the text is empty.
pub open spec fn initial_pieces(len: nat) -> Seq<Piece> {
    if len == 0 {
        Seq::empty()
    } else {
        seq![Piece { buffer: Buffer::Original, length: len as usize, offset: 0 }]
    }
}

/// Appends the characters of `content` to `text` and returns how many there
/// were.
fn append_chars(text: &mut Vec<char>, content: &str) -> (count: usize)
    ensures
        final(text)@ == old(text)@ + content@,
        count == content@.len(),
{
    let mut count: usize = 0;
    for c in chars: content.chars()
        invariant
            chars.seq() == content@,
            count == chars.index(),
            count <= content@.len(),
            text@ == old(text)@ + content@.take(count as int),
            text@.len() == old(text)@.len() + count,
    {
        text.push(c);
        // the vector holds them all, so their number is a `usize`
        assert(text@.len() == text.len());
        count = count + 1;
    }
    count
}

/// Puts `new` after the first `left` characters of the piece at `index`:
/// before the piece where `left` is 0, else between its two parts.
fn split_at(pieces: &mut Vec<Piece>, index: usize, left: usize, new: Piece)
    requires
        index < old(pieces)@.len(),
        left < old(pieces)@[index as int].length,
        old(pieces)@[index as int].offset + old(pieces)@[index as int].length <= usize::MAX,
    ensures
        final(pieces)@ == old(pieces)@.take(index as int) + split_around(
            old(pieces)@[index as int],
            left as int,
            new,
        ) + old(pieces)@.skip(index + 1),
{
    let piece = pieces[index];
    assert(pieces@.len() == pieces.len());
    if left == 0 {
        pieces.insert(index, new);
    } else {
        pieces.set(index, Piece::new(piece.buffer, left, piece.offset));
        pieces.insert(index + 1, new);
        assert(pieces@.len() == pieces.len());
        pieces.insert(
            index + 2,
            Piece::new(piece.buffer, piece.length - left, piece.offset + left),
        );
    }
}

/// Appends to `kept` what is left of `piece`, which starts at `start`, when
/// the characters from `from` up to `stop` of the document are removed.
fn keep_trimmed(kept: &mut Vec<Piece>, piece: Piece, start: usize, from: usize, stop: usize)
    requires
        from < stop,
        piece.length > 0,
        start + piece.length <= usize::MAX,
        piece.offset + piece.length <= usize::MAX,
    ensures
        final(kept)@ == old(kept)@ + trim(piece, from - start, stop - start),
{
    let end = start + piece.length;
    if end <= from || stop <= start {
        kept.push(piece);
    } else {
        if start < from {
            kept.push(Piece::new(piece.buffer, from - start, piece.offset));
        }
        if stop < end {
            kept.push(Piece::new(piece.buffer, end - stop, piece.offset + (stop - start)));
        }
    }
}

impl View for PieceTable {
    type V = Seq<char>;

    /// The document.
    open spec fn view(&self) -> Seq<char> {
        document(self.original(), self.added(), self.pieces())
    }
}

impl PieceTable {
    /// The original buffer: the text the table was made from.
    pub closed spec fn original(self) -> Seq<char> {
        self.text@.take(self.original_len as int)
    }

    /// The add buffer: every inserted text, in the order of insertion.
    pub closed spec fn added(self) -> Seq<char> {
        self.text@.skip(self.original_len as int)
    }

    /// The pieces, in document order.
    pub closed spec fn pieces(self) -> Seq<Piece> {
        self.pieces@
    }

    /// Whether the buffers are laid out as the table keeps them, and hold at
    /// least as many characters as the document.
    pub closed spec fn stored(self) -> bool {
        &&& self.original_len <= self.text@.len()
        &&& total_len(self.pieces@) <= self.text@.len()
    }

    /// The invariant of a table: no piece is empty, and each lies within the
    /// buffer it names.
    pub open spec fn wf(self) -> bool {
        &&& self.stored()
        &&& all_fit(self.pieces(), self.original().len(), self.added().len())
    }

    /// Whether `self` is `before` after `edit`: the original buffer is the
    /// same, the add buffer has grown by what was inserted, and the pieces
    /// are those that the edit makes of the pieces of `before`.
    pub open spec fn is_edit_of(self, before: PieceTable, edit: Edit) -> bool {
        &&& self.original() == before.original()
        &&& match edit {
            Edit::Insert { offset, content } => {
                &&& self.added() == before.added() + content
                &&& self.pieces() == pieces_after_insert(
                    before.pieces(),
                    offset,
                    Piece {
                        buffer: Buffer::Add,
                        length: content.len() as usize,
                        offset: before.added().len() as usize,
                    },
                )
            },
            Edit::Delete { offset, count } => {
                &&& self.added() == before.added()
                &&& self.pieces() == pieces_after_delete(before.pieces(), offset, count)
            },
        }
    }

    /// What holds of every table, whatever edits made it: the document is as
    /// long as the lengths of the pieces added up, no piece is empty, and each
    /// piece lies within the buffer it names.
    pub proof fn lemma_invariants(self, i: int)
        requires
            self.wf(),
        ensures
            self@.len() == total_len(self.pieces()),
            0 <= i < self.pieces().len() ==> self.pieces()[i].length > 0,
            0 <= i < self.pieces().len() ==> self.pieces()[i].offset + self.pieces()[i].length
                <= match self.pieces()[i].buffer {
                Buffer::Original => self.original().len(),
                Buffer::Add => self.added().len(),
            },
    {
        lemma_document_len(self.original(), self.added(), self.pieces());
        if 0 <= i < self.pieces().len() {
        }
    }

    /// How the two buffers lie in the shared vector.
    proof fn lemma_buffers(self)
        requires
            self.stored(),
        ensures
            self.text@.len() <= usize::MAX,
            self.original().len() == self.original_len,
            self.original().len() + self.added().len() == self.text@.len(),
            forall|j: int|
                0 <= j < self.original().len() ==> self.original()[j] == self.text@[j],
            forall|j: int|
                0 <= j < self.added().len() ==> self.added()[j] == self.text@[self.original_len
                    + j],
    {
        assert(self.text@.len() == self.text.len());
    }

    /// A table whose document is `original`.
    pub fn new(original: String) -> (table: Self)
        ensures
            table.wf(),
            table.original() == original@,
            table.added() == Seq::<char>::empty(),
            table.pieces() == initial_pieces(original@.len()),
            table@ == original@,
    {
        let mut text: Vec<char> = Vec::new();
        let original_len = append_chars(&mut text, original.as_str());
        let mut pieces: Vec<Piece> = Vec::new();
        if original_len > 0 {
            pieces.push(Piece::new(Buffer::Original, original_len, 0));
        }
        let table = PieceTable { text, original_len, pieces };
        proof {
            if original_len > 0 {
                let piece = table.pieces()[0];
                lemma_single(table.original(), table.added(), piece);
            }
        }
        table
    }

    /// The number of characters in the document.
    pub fn length(&self) -> (len: usize)
        requires
            self.wf(),
        ensures
            len == self@.len(),
            len == total_len(self.pieces()),
    {
        let mut len: usize = 0;
        let mut i: usize = 0;
        proof {
            lemma_document_len(self.original(), self.added(), self.pieces());
            assert(self.text@.len() == self.text.len());
        }
        while i < self.pieces.len()
            invariant
                i <= self.pieces.len(),
                len == start_of(self.pieces@, i as int),
                total_len(self.pieces@) <= usize::MAX,
            decreases self.pieces.len() - i,
        {
            proof {
                lemma_starts(self.pieces@, i as int);
            }
            len = len + self.pieces[i].length;
            i = i + 1;
        }
        proof {
            assert(self.pieces@.take(i as int) =~= self.pieces@);
        }
        len
    }

    /// The piece that covers `offset`, with its index among the pieces and
    /// the offset at which it starts; `None` at and past the end of the
    /// document, where no piece covers anything.
    pub fn piece_at(&self, offset: usize) -> (found: Option<(Piece, usize, usize)>)
        requires
            self.wf(),
        ensures
            match found {
                Some((piece, index, start)) => {
                    &&& offset < self@.len()
                    &&& index == covering_index(self.pieces(), offset as int)
                    &&& covers(self.pieces(), index as int, offset as int)
                    &&& piece == self.pieces()[index as int]
                    &&& start == start_of(self.pieces(), index as int)
                },
                None => offset >= self@.len(),
            },
    {
        let mut start: usize = 0;
        let mut index: usize = 0;
        proof {
            lemma_document_len(self.original(), self.added(), self.pieces());
            assert(self.text@.len() == self.text.len());
        }
        while index < self.pieces.len()
            invariant
                index <= self.pieces.len(),
                start == start_of(self.pieces@, index as int),
                start <= offset,
                total_len(self.pieces@) <= usize::MAX,
                self@.len() == total_len(self.pieces@),
            decreases self.pieces.len() - index,
        {
            let piece = self.pieces[index];
            proof {
                lemma_starts(self.pieces@, index as int);
            }
            if offset - start < piece.length {
                proof {
                    lemma_covering_index(self.pieces@, offset as int);
                    assert(covers(self.pieces@, index as int, offset as int));
                }
                return Some((piece, index, start));
            }
            start = start + piece.length;
            index = index + 1;
        }
        proof {
            assert(self.pieces@.take(index as int) =~= self.pieces@);
        }
        None
    }

    /// Inserts `content` so that it starts at `offset`, or at the end of the
    /// document where `offset` lies past it. An empty `content` changes
    /// nothing. The text goes to the end of the add buffer, and one new piece
    /// stands for it; the piece that covered `offset` is split around it.
    pub fn insert(&mut self, offset: usize, content: &str)
        requires
            old(self).wf(),
        ensures
            final(self).wf(),
            final(self).original() == old(self).original(),
            final(self).added() == old(self).added() + content@,
            final(self).pieces() == pieces_after_insert(
                old(self).pieces(),
                offset as nat,
                Piece {
                    buffer: Buffer::Add,
                    length: content@.len() as usize,
                    offset: old(self).added().len() as usize,
                },
            ),
            final(self)@ == text_after_insert(old(self)@, offset as nat, content@),
            content@.len() == 0 ==> *final(self) == *old(self),
    {
        if content.is_empty() {
            proof {
                lemma_insert_nothing(
                    self.pieces(),
                    self@,
                    offset as nat,
                    Piece { buffer: Buffer::Add, length: 0, offset: self.added().len() as usize },
                );
            }
            return ;
        }
        let found = self.piece_at(offset);
        let added_len = self.text.len() - self.original_len;
        let length = append_chars(&mut self.text, content);
        let new = Piece::new(Buffer::Add, length, added_len);
        let ghost original = old(self).original();
        let ghost added = old(self).added();
        let ghost pieces = old(self).pieces();
        proof {
            old(self).lemma_buffers();
            assert(self.text@.len() == self.text.len());
            assert(self.original() =~= original);
            assert(self.added() =~= added + content@);
            lemma_document_len(original, added, pieces);
            lemma_document_ignores_appended(original, added, content@, pieces);
            assert(piece_text(original, added + content@, new) =~= content@);
            lemma_insert(original, added + content@, pieces, offset as nat, new);
        }
        match found {
            None => {
                self.pieces.push(new);
            },
            Some((_, index, start)) => {
                split_at(&mut self.pieces, index, offset - start, new);
            },
        }
    }

    /// Removes the `count` characters from `offset` on; what of that range
    /// lies past the end of the document is ignored. Pieces within the range
    /// go, pieces at its edges are shortened, and a piece that holds the
    /// whole range with room on both sides becomes two.
    pub fn delete(&mut self, offset: usize, count: usize)
        requires
            old(self).wf(),
        ensures
            final(self).wf(),
            final(self).original() == old(self).original(),
            final(self).added() == old(self).added(),
            final(self).pieces() == pieces_after_delete(
                old(self).pieces(),
                offset as nat,
                count as nat,
            ),
            final(self)@ == text_after_delete(old(self)@, offset as nat, count as nat),
            count == 0 || offset >= old(self)@.len() ==> *final(self) == *old(self),
    {
        let len = self.length();
        if count == 0 || offset >= len {
            proof {
                lemma_delete_nothing(self.pieces(), self@, offset as nat);
                if offset >= len {
                    lemma_delete_past_end(self.pieces(), self@, offset as nat, count as nat);
                }
            }
            return ;
        }
        let stop = if count >= len - offset {
            len
        } else {
            offset + count
        };
        let ghost to = offset + count;
        let mut kept: Vec<Piece> = Vec::new();
        let mut start: usize = 0;
        let mut i: usize = 0;
        while i < self.pieces.len()
            invariant
                *self == *old(self),
                self.wf(),
                i <= self.pieces.len(),
                start == start_of(self.pieces@, i as int),
                len == total_len(self.pieces@),
                offset < stop <= len,
                stop == if to < len {
                    to
                } else {
                    len as int
                },
                to == offset + count,
                kept@ == trim_all(self.pieces@.take(i as int), offset as int, to),
            decreases self.pieces.len() - i,
        {
            let piece = self.pieces[i];
            proof {
                lemma_starts(self.pieces@, i as int);
                assert(self.pieces@.take(i + 1).drop_last() =~= self.pieces@.take(i as int));
                // past the end of the document the range holds nothing
                assert(trim(piece, offset - start, stop - start) == trim(
                    piece,
                    offset - start,
                    to - start,
                ));
            }
            keep_trimmed(&mut kept, piece, start, offset, stop);
            start = start + piece.length;
            i = i + 1;
        }
        proof {
            assert(self.pieces@.take(i as int) =~= self.pieces@);
            lemma_delete(
                self.original(),
                self.added(),
                self.pieces(),
                offset as nat,
                count as nat,
            );
        }
        self.pieces = kept;
    }

    /// The index in the shared vector of the first character of `piece`.
    spec fn first_of(self, piece: Piece) -> int {
        piece.offset + match piece.buffer {
            Buffer::Original => 0,
            Buffer::Add => self.original_len as int,
        }
    }

    /// The index in the shared vector of the first character of piece
    /// `index`.
    fn first(&self, index: usize) -> (first: usize)
        requires
            self.wf(),
            index < self.pieces().len(),
        ensures
            first == self.first_of(self.pieces()[index as int]),
            first + self.pieces()[index as int].length <= self.text@.len(),
    {
        proof {
            self.lemma_buffers();
            assert(fits(
                self.pieces()[index as int],
                self.original().len(),
                self.added().len(),
            ));
        }
        let piece = self.pieces[index];
        match piece.buffer {
            Buffer::Original => piece.offset,
            Buffer::Add => piece.offset + self.original_len,
        }
    }

    /// Where the characters of piece `index` stand in the shared vector, and
    /// that they are the characters of the document at the piece's span.
    proof fn lemma_piece_stored(self, index: int, k: int)
        requires
            self.wf(),
            0 <= index < self.pieces().len(),
            0 <= k < self.pieces()[index].length,
        ensures
            self.first_of(self.pieces()[index]) + self.pieces()[index].length <= self.text@.len(),
            self.text@.len() <= usize::MAX,
            start_of(self.pieces(), index) + k < self@.len(),
            piece_text(self.original(), self.added(), self.pieces()[index]).len()
                == self.pieces()[index].length,
            piece_text(self.original(), self.added(), self.pieces()[index])[k]
                == self.text@[self.first_of(self.pieces()[index]) + k],
            self@[start_of(self.pieces(), index) + k] == self.text@[self.first_of(
                self.pieces()[index],
            ) + k],
    {
        let piece = self.pieces()[index];
        let run = piece_text(self.original(), self.added(), piece);
        self.lemma_buffers();
        lemma_piece_in_document(self.original(), self.added(), self.pieces(), index);
        assert(run[k] == self.text@[self.first_of(piece) + k]);
    }

    /// The character at `offset`, or `None` at and past the end of the
    /// document.
    pub fn char_at(&self, offset: usize) -> (found: Option<char>)
        requires
            self.wf(),
        ensures
            found == if offset < self@.len() {
                Some(self@[offset as int])
            } else {
                None
            },
    {
        match self.piece_at(offset) {
            None => None,
            Some((piece, index, start)) => {
                proof {
                    self.lemma_piece_stored(index as int, offset - start);
                }
                Some(self.text[self.first(index) + (offset - start)])
            },
        }
    }

    /// The document as a string.
    pub fn display(&self) -> (text: String)
        requires
            self.wf(),
        ensures
            text@ == self@,
    {
        let mut text = String::new();
        let mut i: usize = 0;
        while i < self.pieces.len()
            invariant
                self.wf(),
                i <= self.pieces.len(),
                text@ == document(self.original(), self.added(), self.pieces@.take(i as int)),
            decreases self.pieces.len() - i,
        {
            let piece = self.pieces[i];
            let first = self.first(i);
            let ghost before = text@;
            let ghost run = piece_text(self.original(), self.added(), piece);
            let mut k: usize = 0;
            while k < piece.length
                invariant
                    self.wf(),
                    i < self.pieces.len(),
                    piece == self.pieces()[i as int],
                    first == self.first_of(piece),
                    run == piece_text(self.original(), self.added(), piece),
                    k <= piece.length,
                    text@ == before + run.take(k as int),
                decreases piece.length - k,
            {
                proof {
                    self.lemma_piece_stored(i as int, k as int);
                }
                text.push(self.text[first + k]);
                k = k + 1;
            }
            proof {
                if piece.length > 0 {
                    self.lemma_piece_stored(i as int, 0);
                }
                assert(self.pieces@.take(i + 1).drop_last() =~= self.pieces@.take(i as int));
            }
            i = i + 1;
        }
        proof {
            assert(self.pieces@.take(i as int) =~= self.pieces@);
        }
        text
    }
}

/// One step of the round trip: a table that is `before` after `edit` shows
/// the text that `edit` makes of the document of `before`.
pub proof fn lemma_edit_round_trip(before: PieceTable, after: PieceTable, edit: Edit)
    requires
        before.wf(),
        after.wf(),
        after.is_edit_of(before, edit),
    ensures
        after@ == text_after(before@, edit),
{
    let original = before.original();
    let added = before.added();
    let pieces = before.pieces();
    before.lemma_buffers();
    after.lemma_buffers();
    match edit {
        Edit::Insert { offset, content } => {
            let new = Piece {
                buffer: Buffer::Add,
                length: content.len() as usize,
                offset: added.len() as usize,
            };
            lemma_document_ignores_appended(original, added, content, pieces);
            if content.len() == 0 {
                lemma_insert_nothing(pieces, before@, offset, new);
            } else {
                lemma_insert(original, added + content, pieces, offset, new);
            }
        },
        Edit::Delete { offset, count } => {
            lemma_delete(original, added, pieces, offset, count);
        },
    }
}

/// The round trip: where each table of a run is the one before it after the
/// edit of the same place in `edits`, the table after any number of steps
/// shows the text that the same edits, made one after another, make of the
/// first document.
pub proof fn lemma_round_trip(tables: Seq<PieceTable>, edits: Seq<Edit>, steps: int)
    requires
        tables.len() == edits.len() + 1,
        forall|i: int| 0 <= i < tables.len() ==> (#[trigger] tables[i]).wf(),
        forall|i: int|
            0 <= i < edits.len() ==> tables[i + 1].is_edit_of(tables[i], #[trigger] edits[i]),
        0 <= steps <= edits.len(),
    ensures
        tables[steps]@ == text_after_all(tables[0]@, edits.take(steps)),
    decreases steps,
{
    if steps > 0 {
        lemma_round_trip(tables, edits, steps - 1);
        lemma_edit_round_trip(tables[steps - 1], tables[steps], edits[steps - 1]);
        assert(edits.take(steps).drop_last() =~= edits.take(steps - 1));
    }
}

/// `String::push` appends one character to the string and changes nothing
/// else of it. As for `Vec::push`, running out of memory is left out of
/// account.
pub assume_specification[ String::push ](text: &mut String, ch: char)
    ensures
        final(text)@ == old(text)@.push(ch),
;

} // verus!
