//! How a sequence of pieces lays out a document: where each piece starts,
//! which characters it stands for, and which piece covers a given offset.

use vstd::prelude::*;
use crate::piece::{Buffer, Piece};

verus! {

/// The number of characters that `pieces` stand for together.
pub open spec fn total_len(pieces: Seq<Piece>) -> nat
    decreases pieces.len(),
{
    if pieces.len() == 0 {
        0
    } else {
        total_len(pieces.drop_last()) + pieces.last().length as nat
    }
}

/// The document offset at which piece `i` starts: the lengths of the pieces
/// before it, added up.
pub open spec fn start_of(pieces: Seq<Piece>, i: int) -> nat {
    total_len(pieces.take(i))
}

/// Whether `piece` is not empty and lies within the buffer it names, with an
/// end that is itself a `usize`.
pub open spec fn fits(piece: Piece, original_len: nat, added_len: nat) -> bool {
    &&& piece.length > 0
    &&& piece.offset + piece.length <= usize::MAX
    &&& piece.offset + piece.length <= match piece.buffer {
        Buffer::Original => original_len,
        Buffer::Add => added_len,
    }
}

/// Whether every piece is not empty and lies within the buffer it names.
pub open spec fn all_fit(pieces: Seq<Piece>, original_len: nat, added_len: nat) -> bool {
    forall|i: int| 0 <= i < pieces.len() ==> fits(#[trigger] pieces[i], original_len, added_len)
}

/// The characters that `piece` stands for.
pub open spec fn piece_text(original: Seq<char>, added: Seq<char>, piece: Piece) -> Seq<char> {
    match piece.buffer {
        Buffer::Original => original.subrange(piece.offset as int, piece.offset + piece.length),
        Buffer::Add => added.subrange(piece.offset as int, piece.offset + piece.length),
    }
}

/// The document: the text of each piece, in the order of the pieces.
pub open spec fn document(original: Seq<char>, added: Seq<char>, pieces: Seq<Piece>) -> Seq<char>
    decreases pieces.len(),
{
    if pieces.len() == 0 {
        Seq::empty()
    } else {
        document(original, added, pieces.drop_last()) + piece_text(original, added, pieces.last())
    }
}

/// The index of the piece that covers `offset`, for an offset within the
/// document; the last piece that starts at or before `offset`.
pub open spec fn covering_index(pieces: Seq<Piece>, offset: int) -> int
    decreases pieces.len(),
{
    if pieces.len() <= 1 || total_len(pieces.drop_last()) <= offset {
        pieces.len() - 1
    } else {
        covering_index(pieces.drop_last(), offset)
    }
}

/// Whether the span of piece `i` holds `offset`.
pub open spec fn covers(pieces: Seq<Piece>, i: int, offset: int) -> bool {
    &&& 0 <= i < pieces.len()
    &&& start_of(pieces, i) <= offset < start_of(pieces, i) + pieces[i].length
}

/// Lengths add up over concatenation.
pub proof fn lemma_total_len_concat(a: Seq<Piece>, b: Seq<Piece>)
    ensures
        total_len(a + b) == total_len(a) + total_len(b),
    decreases b.len(),
{
    if b.len() > 0 {
        lemma_total_len_concat(a, b.drop_last());
        assert((a + b).drop_last() =~= a + b.drop_last());
    }
}

/// The document of a concatenation is the concatenation of the documents.
pub proof fn lemma_document_concat(
    original: Seq<char>,
    added: Seq<char>,
    a: Seq<Piece>,
    b: Seq<Piece>,
)
    ensures
        document(original, added, a + b) == document(original, added, a) + document(
            original,
            added,
            b,
        ),
    decreases b.len(),
{
    if b.len() > 0 {
        lemma_document_concat(original, added, a, b.drop_last());
        assert((a + b).drop_last() =~= a + b.drop_last());
    }
}

/// A single piece stands for its own text and length.
pub proof fn lemma_single(original: Seq<char>, added: Seq<char>, piece: Piece)
    ensures
        total_len(seq![piece]) == piece.length,
        document(original, added, seq![piece]) == piece_text(original, added, piece),
{
    let one = seq![piece];
    assert(total_len(one.drop_last()) == 0);
    assert(document(original, added, one.drop_last()) =~= Seq::<char>::empty());
}

/// Each piece starts where the one before it ends; the first starts at 0 and
/// the last ends at the document's end.
pub proof fn lemma_starts(pieces: Seq<Piece>, i: int)
    requires
        0 <= i < pieces.len(),
    ensures
        start_of(pieces, 0) == 0,
        start_of(pieces, i + 1) == start_of(pieces, i) + pieces[i].length,
        start_of(pieces, pieces.len() as int) == total_len(pieces),
        start_of(pieces, i) + pieces[i].length <= total_len(pieces),
{
    assert(pieces.take(i + 1).drop_last() =~= pieces.take(i));
    assert(pieces.take(pieces.len() as int) =~= pieces);
    assert(pieces =~= pieces.take(i + 1) + pieces.skip(i + 1));
    lemma_total_len_concat(pieces.take(i + 1), pieces.skip(i + 1));
}

/// Pieces start in the order in which they stand.
pub proof fn lemma_starts_ordered(pieces: Seq<Piece>, i: int, j: int)
    requires
        0 <= i <= j <= pieces.len(),
    ensures
        start_of(pieces, i) <= start_of(pieces, j),
{
    assert(pieces.take(j) =~= pieces.take(i) + pieces.take(j).skip(i));
    lemma_total_len_concat(pieces.take(i), pieces.take(j).skip(i));
}

/// Where every piece lies within its buffer, the document is as long as the
/// pieces' lengths added up.
pub proof fn lemma_document_len(original: Seq<char>, added: Seq<char>, pieces: Seq<Piece>)
    requires
        all_fit(pieces, original.len(), added.len()),
    ensures
        document(original, added, pieces).len() == total_len(pieces),
    decreases pieces.len(),
{
    if pieces.len() > 0 {
        lemma_document_len(original, added, pieces.drop_last());
    }
}

/// Text appended to the add buffer changes no piece that was within bounds
/// before, and so leaves the document as it was.
pub proof fn lemma_document_ignores_appended(
    original: Seq<char>,
    added: Seq<char>,
    more: Seq<char>,
    pieces: Seq<Piece>,
)
    requires
        all_fit(pieces, original.len(), added.len()),
    ensures
        all_fit(pieces, original.len(), (added + more).len()),
        document(original, added + more, pieces) == document(original, added, pieces),
    decreases pieces.len(),
{
    if pieces.len() > 0 {
        lemma_document_ignores_appended(original, added, more, pieces.drop_last());
    }
}

/// The partition of the document: piece `i` occupies exactly the offsets from
/// its start to its start plus its length, and holds its own text there.
pub proof fn lemma_piece_in_document(
    original: Seq<char>,
    added: Seq<char>,
    pieces: Seq<Piece>,
    i: int,
)
    requires
        all_fit(pieces, original.len(), added.len()),
        0 <= i < pieces.len(),
    ensures
        start_of(pieces, i) + pieces[i].length <= document(original, added, pieces).len(),
        document(original, added, pieces).subrange(
            start_of(pieces, i) as int,
            start_of(pieces, i) + pieces[i].length,
        ) == piece_text(original, added, pieces[i]),
{
    let before = pieces.take(i);
    let after = pieces.skip(i + 1);
    let one = seq![pieces[i]];
    assert(pieces =~= before + one + after);
    lemma_document_concat(original, added, before + one, after);
    lemma_document_concat(original, added, before, one);
    lemma_single(original, added, pieces[i]);
    lemma_document_len(original, added, before);
    lemma_document_len(original, added, pieces);
    lemma_starts(pieces, i);
}

/// Within the document exactly one piece covers each offset, and
/// `covering_index` names it: spans neither overlap nor leave a gap.
pub proof fn lemma_covering_index(pieces: Seq<Piece>, offset: int)
    requires
        0 <= offset < total_len(pieces),
    ensures
        covers(pieces, covering_index(pieces, offset), offset),
        forall|j: int| covers(pieces, j, offset) ==> j == covering_index(pieces, offset),
    decreases pieces.len(),
{
    let n = pieces.len() as int;
    let init = pieces.drop_last();
    if total_len(init) <= offset {
        assert forall|j: int| covers(pieces, j, offset) implies j == n - 1 by {
            if j < n - 1 {
                lemma_starts(pieces, j);
                lemma_starts_ordered(pieces, j + 1, n - 1);
            }
        }
    } else {
        lemma_covering_index(init, offset);
        let i = covering_index(init, offset);
        assert(init.take(i) =~= pieces.take(i));
        assert forall|j: int| covers(pieces, j, offset) implies j == i by {
            if j < n - 1 {
                assert(init.take(j) =~= pieces.take(j));
                assert(covers(init, j, offset));
            }
        }
    }
}

/// The spans of the pieces partition the document: they follow one another
/// from 0 to the document's length without a gap, every offset of the
/// document lies in the span that `covering_index` names, and no offset lies
/// in two spans.
pub proof fn lemma_partition(pieces: Seq<Piece>, i: int, j: int, offset: int)
    ensures
        start_of(pieces, 0) == 0,
        start_of(pieces, pieces.len() as int) == total_len(pieces),
        0 <= i < pieces.len() ==> start_of(pieces, i + 1) == start_of(pieces, i)
            + pieces[i].length,
        0 <= offset < total_len(pieces) ==> covers(
            pieces,
            covering_index(pieces, offset),
            offset,
        ),
        covers(pieces, i, offset) && covers(pieces, j, offset) ==> i == j,
{
    assert(pieces.take(pieces.len() as int) =~= pieces);
    if 0 <= i < pieces.len() {
        lemma_starts(pieces, i);
    }
    if 0 <= offset < total_len(pieces) {
        lemma_covering_index(pieces, offset);
    }
}

} // verus!
