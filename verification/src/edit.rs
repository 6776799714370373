//! What an insertion and a deletion do to a sequence of pieces, and that this
//! is what they do to the text.

use vstd::prelude::*;
use crate::layout::{
    all_fit, covering_index, document, fits, lemma_covering_index, lemma_document_concat,
    lemma_document_len, lemma_single, lemma_total_len_concat, piece_text, start_of, total_len,
};
use crate::piece::Piece;

verus! {

/// The position in a text of `len` characters that is nearest to `at`.
pub open spec fn within(at: int, len: nat) -> int {
    if at < 0 {
        0
    } else if at < len {
        at
    } else {
        len as int
    }
}

/// A text after `content` is inserted at `offset`. An offset past the end
/// stands for the end.
pub open spec fn text_after_insert(text: Seq<char>, offset: nat, content: Seq<char>) -> Seq<char> {
    let at = within(offset as int, text.len());
    text.take(at) + content + text.skip(at)
}

/// A text after the `count` characters from `offset` on are removed. What of
/// that range lies past the end is ignored.
pub open spec fn text_after_delete(text: Seq<char>, offset: nat, count: nat) -> Seq<char> {
    text.take(within(offset as int, text.len())) + text.skip(
        within((offset + count) as int, text.len()),
    )
}

/// One edit of a document.
pub enum Edit {
    /// `content` goes in at `offset`.
    Insert { offset: nat, content: Seq<char> },
    /// The `count` characters from `offset` on go.
    Delete { offset: nat, count: nat },
}

/// A text after one edit.
pub open spec fn text_after(text: Seq<char>, edit: Edit) -> Seq<char> {
    match edit {
        Edit::Insert { offset, content } => text_after_insert(text, offset, content),
        Edit::Delete { offset, count } => text_after_delete(text, offset, count),
    }
}

/// A text after each of `edits`, one after another.
pub open spec fn text_after_all(text: Seq<char>, edits: Seq<Edit>) -> Seq<char>
    decreases edits.len(),
{
    if edits.len() == 0 {
        text
    } else {
        text_after(text_after_all(text, edits.drop_last()), edits.last())
    }
}

/// What replaces `piece` when `new` goes in after its first `left`
/// characters: nothing of `piece` is lost, and no empty piece is made.
pub open spec fn split_around(piece: Piece, left: int, new: Piece) -> Seq<Piece> {
    if left == 0 {
        seq![new, piece]
    } else {
        seq![piece.front(left), new, piece.back(left)]
    }
}

/// The pieces after `new` is inserted at `offset`. An empty `new` changes
/// nothing; at or past the end `new` is appended; elsewhere the piece that
/// covers `offset` is split around it.
pub open spec fn pieces_after_insert(pieces: Seq<Piece>, offset: nat, new: Piece) -> Seq<Piece> {
    if new.length == 0 {
        pieces
    } else if offset >= total_len(pieces) {
        pieces.push(new)
    } else {
        let i = covering_index(pieces, offset as int);
        pieces.take(i) + split_around(pieces[i], offset - start_of(pieces, i), new) + pieces.skip(
            i + 1,
        )
    }
}

/// What is left of `piece` when the characters from `from` up to `to`,
/// counted from the start of the piece, are removed. Either end of the range
/// may lie outside the piece.
pub open spec fn trim(piece: Piece, from: int, to: int) -> Seq<Piece>
    recommends
        from < to,
{
    let len = piece.length as int;
    if to <= 0 || len <= from {
        // the range misses the piece
        seq![piece]
    } else if from <= 0 && len <= to {
        // the range holds the whole piece
        Seq::empty()
    } else if from <= 0 {
        // the range holds the start of the piece
        seq![piece.back(to)]
    } else if len <= to {
        // the range holds the end of the piece
        seq![piece.front(from)]
    } else {
        // the range lies inside the piece
        seq![piece.front(from), piece.back(to)]
    }
}

/// What is left of each piece, in order, when the characters from `from` up
/// to `to` of the document are removed.
pub open spec fn trim_all(pieces: Seq<Piece>, from: int, to: int) -> Seq<Piece>
    recommends
        from < to,
    decreases pieces.len(),
{
    if pieces.len() == 0 {
        Seq::empty()
    } else {
        let start = total_len(pieces.drop_last());
        trim_all(pieces.drop_last(), from, to) + trim(pieces.last(), from - start, to - start)
    }
}

/// The pieces after the `count` characters from `offset` on are removed.
/// Removing nothing changes nothing.
pub open spec fn pieces_after_delete(pieces: Seq<Piece>, offset: nat, count: nat) -> Seq<Piece> {
    if count == 0 {
        pieces
    } else {
        trim_all(pieces, offset as int, (offset + count) as int)
    }
}

/// Inserting into the middle part of a text of three parts inserts into the
/// text.
proof fn lemma_insert_in_part(
    head: Seq<char>,
    here: Seq<char>,
    tail: Seq<char>,
    left: int,
    content: Seq<char>,
)
    requires
        0 <= left < here.len(),
    ensures
        text_after_insert(head + here + tail, (head.len() + left) as nat, content) == head + (
        here.take(left) + content + here.skip(left)) + tail,
{
    let text = head + here + tail;
    let at = head.len() + left;
    assert(text.take(at) + content + text.skip(at) =~= head + (here.take(left) + content
        + here.skip(left)) + tail);
}

/// Deleting from a text of two parts deletes from each part what of the
/// range lies in it.
proof fn lemma_delete_in_parts(head: Seq<char>, here: Seq<char>, from: int, to: int)
    requires
        0 <= from < to,
    ensures
        text_after_delete(head + here, from as nat, (to - from) as nat) == text_after_delete(
            head,
            from as nat,
            (to - from) as nat,
        ) + (here.take(within(from - head.len(), here.len())) + here.skip(
            within(to - head.len(), here.len()),
        )),
{
    let text = head + here;
    let start = head.len() as int;
    let a = within(from, text.len());
    let b = within(to, text.len());
    assert(text_after_delete(head, from as nat, (to - from) as nat) == head.take(
        within(from, head.len()),
    ) + head.skip(within(to, head.len())));
    assert(text.take(a) + text.skip(b) =~= head.take(within(from, head.len())) + head.skip(
        within(to, head.len()),
    ) + (here.take(within(from - start, here.len())) + here.skip(
        within(to - start, here.len()),
    )));
}

/// Splitting a piece keeps its parts within the buffer and loses no
/// character of it.
proof fn lemma_split_around(
    original: Seq<char>,
    added: Seq<char>,
    piece: Piece,
    left: int,
    new: Piece,
)
    requires
        fits(piece, original.len(), added.len()),
        fits(new, original.len(), added.len()),
        0 <= left < piece.length,
    ensures
        all_fit(split_around(piece, left, new), original.len(), added.len()),
        total_len(split_around(piece, left, new)) == piece.length + new.length,
        document(original, added, split_around(piece, left, new)) == piece_text(
            original,
            added,
            piece,
        ).take(left) + piece_text(original, added, new) + piece_text(original, added, piece).skip(
            left,
        ),
{
    let text = piece_text(original, added, piece);
    let content = piece_text(original, added, new);
    lemma_single(original, added, new);
    if left == 0 {
        lemma_single(original, added, piece);
        assert(split_around(piece, left, new) =~= seq![new] + seq![piece]);
        lemma_total_len_concat(seq![new], seq![piece]);
        lemma_document_concat(original, added, seq![new], seq![piece]);
        assert(content + text =~= text.take(left) + content + text.skip(left));
    } else {
        let front = piece.front(left);
        let back = piece.back(left);
        lemma_single(original, added, front);
        lemma_single(original, added, back);
        assert(split_around(piece, left, new) =~= seq![front] + seq![new] + seq![back]);
        lemma_total_len_concat(seq![front], seq![new]);
        lemma_total_len_concat(seq![front] + seq![new], seq![back]);
        lemma_document_concat(original, added, seq![front], seq![new]);
        lemma_document_concat(original, added, seq![front] + seq![new], seq![back]);
        assert(piece_text(original, added, front) =~= text.take(left));
        assert(piece_text(original, added, back) =~= text.skip(left));
    }
}

/// Replacing piece `i` by the pieces `middle` replaces its length and its
/// text by theirs, and touches nothing else.
proof fn lemma_replace(
    original: Seq<char>,
    added: Seq<char>,
    pieces: Seq<Piece>,
    i: int,
    middle: Seq<Piece>,
)
    requires
        0 <= i < pieces.len(),
        all_fit(pieces, original.len(), added.len()),
        all_fit(middle, original.len(), added.len()),
    ensures
        all_fit(pieces.take(i) + middle + pieces.skip(i + 1), original.len(), added.len()),
        total_len(pieces.take(i) + middle + pieces.skip(i + 1)) == total_len(pieces)
            - pieces[i].length + total_len(middle),
        document(original, added, pieces) == document(original, added, pieces.take(i))
            + piece_text(original, added, pieces[i]) + document(
            original,
            added,
            pieces.skip(i + 1),
        ),
        document(original, added, pieces.take(i) + middle + pieces.skip(i + 1)) == document(
            original,
            added,
            pieces.take(i),
        ) + document(original, added, middle) + document(original, added, pieces.skip(i + 1)),
        document(original, added, pieces.take(i)).len() == start_of(pieces, i),
{
    let before = pieces.take(i);
    let rest = pieces.skip(i + 1);
    assert(pieces =~= before + seq![pieces[i]] + rest);
    lemma_single(original, added, pieces[i]);
    lemma_total_len_concat(before, seq![pieces[i]]);
    lemma_total_len_concat(before + seq![pieces[i]], rest);
    lemma_document_concat(original, added, before, seq![pieces[i]]);
    lemma_document_concat(original, added, before + seq![pieces[i]], rest);
    lemma_total_len_concat(before, middle);
    lemma_total_len_concat(before + middle, rest);
    lemma_document_concat(original, added, before, middle);
    lemma_document_concat(original, added, before + middle, rest);
    lemma_document_len(original, added, before);
}

/// What `lemma_insert` says, for an offset at or past the end.
proof fn lemma_insert_at_end(
    original: Seq<char>,
    added: Seq<char>,
    pieces: Seq<Piece>,
    offset: nat,
    new: Piece,
)
    requires
        all_fit(pieces, original.len(), added.len()),
        fits(new, original.len(), added.len()),
        offset >= total_len(pieces),
    ensures
        all_fit(pieces.push(new), original.len(), added.len()),
        total_len(pieces.push(new)) == total_len(pieces) + new.length,
        document(original, added, pieces.push(new)) == text_after_insert(
            document(original, added, pieces),
            offset,
            piece_text(original, added, new),
        ),
{
    lemma_document_len(original, added, pieces);
    assert(pieces.push(new).drop_last() =~= pieces);
}

/// What `lemma_insert` says, for an offset that piece `i` covers.
proof fn lemma_insert_inside(
    original: Seq<char>,
    added: Seq<char>,
    pieces: Seq<Piece>,
    offset: nat,
    new: Piece,
    i: int,
)
    requires
        all_fit(pieces, original.len(), added.len()),
        fits(new, original.len(), added.len()),
        0 <= i < pieces.len(),
        start_of(pieces, i) <= offset < start_of(pieces, i) + pieces[i].length,
    ensures
        ({
            let left = offset - start_of(pieces, i);
            let after = pieces.take(i) + split_around(pieces[i], left, new) + pieces.skip(i + 1);
            &&& all_fit(after, original.len(), added.len())
            &&& total_len(after) == total_len(pieces) + new.length
            &&& document(original, added, after) == text_after_insert(
                document(original, added, pieces),
                offset,
                piece_text(original, added, new),
            )
        }),
{
    let left = offset - start_of(pieces, i);
    let middle = split_around(pieces[i], left, new);
    lemma_split_around(original, added, pieces[i], left, new);
    lemma_replace(original, added, pieces, i, middle);
    lemma_insert_in_part(
        document(original, added, pieces.take(i)),
        piece_text(original, added, pieces[i]),
        document(original, added, pieces.skip(i + 1)),
        left,
        piece_text(original, added, new),
    );
}

/// Inserting a piece keeps every piece within its buffer and not empty,
/// lengthens the document by the new piece, and puts the new piece's text at
/// the offset asked for: the pieces change as the text does.
pub proof fn lemma_insert(
    original: Seq<char>,
    added: Seq<char>,
    pieces: Seq<Piece>,
    offset: nat,
    new: Piece,
)
    requires
        all_fit(pieces, original.len(), added.len()),
        fits(new, original.len(), added.len()),
    ensures
        all_fit(pieces_after_insert(pieces, offset, new), original.len(), added.len()),
        total_len(pieces_after_insert(pieces, offset, new)) == total_len(pieces) + new.length,
        document(original, added, pieces_after_insert(pieces, offset, new)) == text_after_insert(
            document(original, added, pieces),
            offset,
            piece_text(original, added, new),
        ),
{
    if offset >= total_len(pieces) {
        lemma_insert_at_end(original, added, pieces, offset, new);
    } else {
        lemma_covering_index(pieces, offset as int);
        lemma_insert_inside(
            original,
            added,
            pieces,
            offset,
            new,
            covering_index(pieces, offset as int),
        );
    }
}

/// Trimming a piece keeps what is left within the buffer and not empty, and
/// leaves the piece's text without the characters of the range.
proof fn lemma_trim(original: Seq<char>, added: Seq<char>, piece: Piece, from: int, to: int)
    requires
        fits(piece, original.len(), added.len()),
        from < to,
    ensures
        all_fit(trim(piece, from, to), original.len(), added.len()),
        document(original, added, trim(piece, from, to)) == piece_text(original, added, piece).take(
            within(from, piece.length as nat),
        ) + piece_text(original, added, piece).skip(within(to, piece.length as nat)),
{
    let front = piece.front(from);
    let back = piece.back(to);
    lemma_single(original, added, piece);
    lemma_single(original, added, front);
    lemma_single(original, added, back);
    assert(seq![front, back] =~= seq![front] + seq![back]);
    lemma_document_concat(original, added, seq![front], seq![back]);
}

/// Trimming every piece keeps the pieces within their buffers and not empty,
/// and leaves the document without the characters of the range.
proof fn lemma_trim_all(
    original: Seq<char>,
    added: Seq<char>,
    pieces: Seq<Piece>,
    from: int,
    to: int,
)
    requires
        all_fit(pieces, original.len(), added.len()),
        0 <= from < to,
    ensures
        all_fit(trim_all(pieces, from, to), original.len(), added.len()),
        document(original, added, trim_all(pieces, from, to)) == text_after_delete(
            document(original, added, pieces),
            from as nat,
            (to - from) as nat,
        ),
    decreases pieces.len(),
{
    if pieces.len() > 0 {
        let init = pieces.drop_last();
        let last = pieces.last();
        let start = total_len(init) as int;
        let kept = trim_all(init, from, to);
        let cut = trim(last, from - start, to - start);
        lemma_trim_all(original, added, init, from, to);
        lemma_trim(original, added, last, from - start, to - start);
        lemma_document_concat(original, added, kept, cut);
        lemma_document_len(original, added, init);
        let head = document(original, added, init);
        let here = piece_text(original, added, last);
        lemma_delete_in_parts(head, here, from, to);
    }
}

/// Deleting a range keeps every piece within its buffer and not empty,
/// shortens the document by the part of the range that lies in it, and
/// removes the characters of the range: the pieces change as the text does.
pub proof fn lemma_delete(
    original: Seq<char>,
    added: Seq<char>,
    pieces: Seq<Piece>,
    offset: nat,
    count: nat,
)
    requires
        all_fit(pieces, original.len(), added.len()),
    ensures
        all_fit(pieces_after_delete(pieces, offset, count), original.len(), added.len()),
        total_len(pieces_after_delete(pieces, offset, count)) == total_len(pieces) - (within(
            (offset + count) as int,
            total_len(pieces),
        ) - within(offset as int, total_len(pieces))),
        document(original, added, pieces_after_delete(pieces, offset, count)) == text_after_delete(
            document(original, added, pieces),
            offset,
            count,
        ),
{
    lemma_document_len(original, added, pieces);
    if count > 0 {
        lemma_trim_all(original, added, pieces, offset as int, (offset + count) as int);
        lemma_document_len(original, added, pieces_after_delete(pieces, offset, count));
    }
}

/// Inserting nothing changes nothing: an empty piece leaves the pieces as
/// they were, an empty text the text.
pub proof fn lemma_insert_nothing(pieces: Seq<Piece>, text: Seq<char>, offset: nat, new: Piece)
    requires
        new.length == 0,
    ensures
        pieces_after_insert(pieces, offset, new) == pieces,
        text_after_insert(text, offset, Seq::empty()) == text,
{
}

/// Deleting no characters changes nothing, neither the pieces nor the text.
pub proof fn lemma_delete_nothing(pieces: Seq<Piece>, text: Seq<char>, offset: nat)
    ensures
        pieces_after_delete(pieces, offset, 0) == pieces,
        text_after_delete(text, offset, 0) == text,
{
}

/// Deleting from the end of the document on, or from past it, changes
/// nothing, however many characters are asked for.
pub proof fn lemma_delete_past_end(pieces: Seq<Piece>, text: Seq<char>, offset: nat, count: nat)
    requires
        offset >= total_len(pieces),
        offset >= text.len(),
    ensures
        pieces_after_delete(pieces, offset, count) == pieces,
        text_after_delete(text, offset, count) == text,
    decreases pieces.len(),
{
    if count > 0 && pieces.len() > 0 {
        lemma_delete_past_end(pieces.drop_last(), text, offset, count);
    }
}

} // verus!
