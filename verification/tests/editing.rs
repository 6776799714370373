use piece_table::{Buffer, Piece, PieceTable};

/// The pieces of a table in document order, found by walking `piece_at`.
fn pieces_of(table: &PieceTable) -> Vec<Piece> {
    let mut pieces = Vec::new();
    let mut offset = 0;
    while let Some((piece, index, start)) = table.piece_at(offset) {
        assert_eq!(index, pieces.len());
        assert_eq!(start, offset);
        pieces.push(piece);
        offset = start + piece.length;
    }
    assert_eq!(offset, table.length());
    pieces
}

fn piece(buffer: Buffer, offset: usize, length: usize) -> Piece {
    Piece::new(buffer, length, offset)
}

/// A plain string edited the way the table is to be.
fn insert_into(text: &mut Vec<char>, offset: usize, content: &str) {
    let at = offset.min(text.len());
    let tail = text.split_off(at);
    text.extend(content.chars());
    text.extend(tail);
}

fn delete_from(text: &mut Vec<char>, offset: usize, count: usize) {
    let from = offset.min(text.len());
    let to = offset.saturating_add(count).min(text.len());
    text.drain(from..to);
}

fn check_against(table: &PieceTable, text: &[char]) {
    let expected: String = text.iter().collect();
    assert_eq!(table.display(), expected);
    assert_eq!(table.length(), text.len());
    for (offset, ch) in text.iter().enumerate() {
        assert_eq!(table.char_at(offset), Some(*ch));
    }
    assert_eq!(table.char_at(text.len()), None);
    for piece in pieces_of(table) {
        assert!(piece.length > 0);
    }
}

#[test]
fn test_it() {
    let mut piece_table = PieceTable::new("ipsum sit amet".to_string());

    piece_table.insert(0, "Lorem ");
    piece_table.insert(6, "deletedtext");
    piece_table.delete(6, "deletedtext".len());
    piece_table.insert(11, " dolor");

    assert_eq!("Lorem ipsum dolor sit amet", piece_table.display());
    assert_eq!('o', piece_table.char_at(15).unwrap());
}

#[test]
fn lorem_ipsum_step_by_step() {
    let mut table = PieceTable::new("ipsum sit amet".to_string());
    assert_eq!(table.display(), "ipsum sit amet");
    table.insert(0, "Lorem ");
    assert_eq!(table.display(), "Lorem ipsum sit amet");
    table.insert(6, "deletedtext");
    assert_eq!(table.display(), "Lorem deletedtextipsum sit amet");
    table.delete(6, 11);
    assert_eq!(table.display(), "Lorem ipsum sit amet");
    table.insert(11, " dolor");
    assert_eq!(table.display(), "Lorem ipsum dolor sit amet");
    assert_eq!(table.char_at(15), Some('o'));
    assert_eq!(table.length(), 26);
    assert_eq!(
        pieces_of(&table),
        vec![
            piece(Buffer::Add, 0, 6),
            piece(Buffer::Original, 0, 5),
            piece(Buffer::Add, 17, 6),
            piece(Buffer::Original, 5, 9),
        ]
    );
}

#[test]
fn new_table_has_one_piece() {
    let table = PieceTable::new("hello".to_string());
    assert_eq!(pieces_of(&table), vec![piece(Buffer::Original, 0, 5)]);
    assert_eq!(table.length(), 5);
    assert_eq!(table.display(), "hello");
}

#[test]
fn empty_table_has_no_piece() {
    let table = PieceTable::new(String::new());
    assert_eq!(pieces_of(&table), vec![]);
    assert_eq!(table.length(), 0);
    assert_eq!(table.display(), "");
    assert_eq!(table.char_at(0), None);
    assert_eq!(table.piece_at(0), None);
}

#[test]
fn insert_into_empty_table() {
    let mut table = PieceTable::new(String::new());
    table.insert(0, "abc");
    assert_eq!(table.display(), "abc");
    assert_eq!(pieces_of(&table), vec![piece(Buffer::Add, 0, 3)]);
}

#[test]
fn piece_at_gives_piece_index_and_start() {
    let mut table = PieceTable::new("abcdef".to_string());
    table.insert(3, "XY");
    assert_eq!(table.piece_at(0), Some((piece(Buffer::Original, 0, 3), 0, 0)));
    assert_eq!(table.piece_at(2), Some((piece(Buffer::Original, 0, 3), 0, 0)));
    assert_eq!(table.piece_at(3), Some((piece(Buffer::Add, 0, 2), 1, 3)));
    assert_eq!(table.piece_at(4), Some((piece(Buffer::Add, 0, 2), 1, 3)));
    assert_eq!(table.piece_at(5), Some((piece(Buffer::Original, 3, 3), 2, 5)));
    assert_eq!(table.piece_at(7), Some((piece(Buffer::Original, 3, 3), 2, 5)));
    assert_eq!(table.piece_at(8), None);
    assert_eq!(table.piece_at(usize::MAX), None);
}

#[test]
fn char_at_reads_both_buffers() {
    let mut table = PieceTable::new("abcdef".to_string());
    table.insert(3, "XY");
    let read: Vec<Option<char>> = (0..9).map(|offset| table.char_at(offset)).collect();
    assert_eq!(
        read,
        vec![
            Some('a'),
            Some('b'),
            Some('c'),
            Some('X'),
            Some('Y'),
            Some('d'),
            Some('e'),
            Some('f'),
            None
        ]
    );
    assert_eq!(table.char_at(usize::MAX), None);
}

#[test]
fn insert_at_start_prepends() {
    let mut table = PieceTable::new("world".to_string());
    table.insert(0, "hello ");
    assert_eq!(table.display(), "hello world");
    assert_eq!(
        pieces_of(&table),
        vec![piece(Buffer::Add, 0, 6), piece(Buffer::Original, 0, 5)]
    );
}

#[test]
fn insert_at_end_appends_without_splitting() {
    let mut table = PieceTable::new("hello".to_string());
    table.insert(2, "--");
    let before = pieces_of(&table);
    table.insert(table.length(), " world");
    assert_eq!(table.display(), "he--llo world");
    let mut expected = before.clone();
    expected.push(piece(Buffer::Add, 2, 6));
    assert_eq!(pieces_of(&table), expected);
}

#[test]
fn insert_past_end_appends() {
    let mut table = PieceTable::new("hello".to_string());
    table.insert(100, "!");
    assert_eq!(table.display(), "hello!");
    assert_eq!(
        pieces_of(&table),
        vec![piece(Buffer::Original, 0, 5), piece(Buffer::Add, 0, 1)]
    );
    table.insert(usize::MAX, "?");
    assert_eq!(table.display(), "hello!?");
}

#[test]
fn insert_inside_a_piece_splits_it() {
    let mut table = PieceTable::new("abcdef".to_string());
    table.insert(2, "XY");
    assert_eq!(table.display(), "abXYcdef");
    assert_eq!(
        pieces_of(&table),
        vec![
            piece(Buffer::Original, 0, 2),
            piece(Buffer::Add, 0, 2),
            piece(Buffer::Original, 2, 4),
        ]
    );
}

#[test]
fn insert_between_two_pieces_makes_no_empty_piece() {
    let mut table = PieceTable::new("abc".to_string());
    table.insert(3, "def");
    table.insert(3, "-");
    assert_eq!(table.display(), "abc-def");
    assert_eq!(
        pieces_of(&table),
        vec![
            piece(Buffer::Original, 0, 3),
            piece(Buffer::Add, 3, 1),
            piece(Buffer::Add, 0, 3),
        ]
    );
}

#[test]
fn insert_before_last_character_keeps_both_parts() {
    let mut table = PieceTable::new("abc".to_string());
    table.insert(2, "-");
    assert_eq!(table.display(), "ab-c");
    assert_eq!(
        pieces_of(&table),
        vec![
            piece(Buffer::Original, 0, 2),
            piece(Buffer::Add, 0, 1),
            piece(Buffer::Original, 2, 1),
        ]
    );
}

#[test]
fn inserted_text_is_kept_in_order_of_insertion() {
    let mut table = PieceTable::new("0".to_string());
    table.insert(1, "bb");
    table.insert(0, "a");
    table.insert(4, "ccc");
    assert_eq!(table.display(), "a0bbccc");
    assert_eq!(
        pieces_of(&table),
        vec![
            piece(Buffer::Add, 2, 1),
            piece(Buffer::Original, 0, 1),
            piece(Buffer::Add, 0, 2),
            piece(Buffer::Add, 3, 3),
        ]
    );
}

#[test]
fn empty_insert_changes_nothing() {
    let mut table = PieceTable::new("abcdef".to_string());
    table.insert(3, "XY");
    let before = table.clone();
    for offset in [0, 1, 3, 4, 5, 8, 9, usize::MAX] {
        table.insert(offset, "");
        assert_eq!(table, before);
        assert_eq!(table.display(), "abcXYdef");
        assert_eq!(pieces_of(&table), pieces_of(&before));
    }
}

#[test]
fn empty_delete_changes_nothing() {
    let mut table = PieceTable::new("abcdef".to_string());
    table.insert(3, "XY");
    let before = table.clone();
    for offset in [0, 1, 3, 4, 5, 8, 9, usize::MAX] {
        table.delete(offset, 0);
        assert_eq!(table, before);
        assert_eq!(table.display(), "abcXYdef");
        assert_eq!(pieces_of(&table), pieces_of(&before));
    }
}

#[test]
fn delete_at_or_past_end_changes_nothing() {
    let mut table = PieceTable::new("abcdef".to_string());
    table.insert(3, "XY");
    let before = table.clone();
    table.delete(8, 1);
    assert_eq!(table, before);
    table.delete(9, usize::MAX);
    assert_eq!(table, before);
    table.delete(usize::MAX, usize::MAX);
    assert_eq!(table, before);
    assert_eq!(table.display(), "abcXYdef");
}

#[test]
fn delete_of_one_whole_piece_leaves_no_residue() {
    let mut table = PieceTable::new("abcdef".to_string());
    table.insert(3, "XY");
    table.delete(3, 2);
    assert_eq!(table.display(), "abcdef");
    assert_eq!(
        pieces_of(&table),
        vec![piece(Buffer::Original, 0, 3), piece(Buffer::Original, 3, 3)]
    );
}

#[test]
fn delete_across_two_pieces_shrinks_both() {
    let mut table = PieceTable::new("abcdef".to_string());
    table.insert(6, "uvwxyz");
    table.delete(4, 5);
    assert_eq!(table.display(), "abcdxyz");
    assert_eq!(
        pieces_of(&table),
        vec![piece(Buffer::Original, 0, 4), piece(Buffer::Add, 3, 3)]
    );
}

#[test]
fn delete_across_three_pieces_drops_the_middle_one() {
    let mut table = PieceTable::new("abcdef".to_string());
    table.insert(3, "XY");
    table.delete(2, 5);
    assert_eq!(table.display(), "abf");
    assert_eq!(
        pieces_of(&table),
        vec![piece(Buffer::Original, 0, 2), piece(Buffer::Original, 5, 1)]
    );
}

#[test]
fn delete_inside_a_piece_splits_it_in_two() {
    let mut table = PieceTable::new("abcdefgh".to_string());
    table.delete(2, 3);
    assert_eq!(table.display(), "abfgh");
    let pieces = pieces_of(&table);
    assert_eq!(
        pieces,
        vec![piece(Buffer::Original, 0, 2), piece(Buffer::Original, 5, 3)]
    );
    assert_eq!(pieces[0].buffer, pieces[1].buffer);
    assert_eq!(pieces[1].offset - (pieces[0].offset + pieces[0].length), 3);
}

#[test]
fn delete_of_the_start_of_a_piece_moves_its_offset() {
    let mut table = PieceTable::new("abcdef".to_string());
    table.delete(0, 2);
    assert_eq!(table.display(), "cdef");
    assert_eq!(pieces_of(&table), vec![piece(Buffer::Original, 2, 4)]);
}

#[test]
fn delete_of_the_end_of_a_piece_shortens_it() {
    let mut table = PieceTable::new("abcdef".to_string());
    table.delete(4, 2);
    assert_eq!(table.display(), "abcd");
    assert_eq!(pieces_of(&table), vec![piece(Buffer::Original, 0, 4)]);
}

#[test]
fn delete_past_end_stops_at_end() {
    let mut table = PieceTable::new("abcdef".to_string());
    table.insert(3, "XY");
    table.delete(4, 100);
    assert_eq!(table.display(), "abcX");
    assert_eq!(
        pieces_of(&table),
        vec![piece(Buffer::Original, 0, 3), piece(Buffer::Add, 0, 1)]
    );
    table.delete(1, usize::MAX);
    assert_eq!(table.display(), "a");
    assert_eq!(pieces_of(&table), vec![piece(Buffer::Original, 0, 1)]);
}

#[test]
fn delete_of_more_than_everything_from_the_start_clears() {
    let mut table = PieceTable::new("abcdef".to_string());
    table.insert(3, "XY");
    table.delete(0, 9);
    assert_eq!(table.display(), "");
    assert_eq!(table.length(), 0);
    assert_eq!(pieces_of(&table), vec![]);
}

#[test]
fn delete_of_exactly_everything_clears() {
    let mut table = PieceTable::new("abcdef".to_string());
    table.insert(3, "XY");
    table.delete(0, 8);
    assert_eq!(table.display(), "");
    assert_eq!(pieces_of(&table), vec![]);
    table.insert(0, "new");
    assert_eq!(table.display(), "new");
    assert_eq!(pieces_of(&table), vec![piece(Buffer::Add, 2, 3)]);
}

#[test]
fn oversized_delete_is_the_same_from_any_offset() {
    for offset in 0..8 {
        let mut table = PieceTable::new("abcdef".to_string());
        table.insert(3, "XY");
        table.delete(offset, 100);
        assert_eq!(table.display(), "abcXYdef"[..offset]);
        assert_eq!(table.length(), offset);
    }
}

#[test]
fn offsets_count_characters_not_bytes() {
    let mut table = PieceTable::new("héllo wörld".to_string());
    assert_eq!(table.length(), 11);
    assert_eq!(table.char_at(1), Some('é'));
    assert_eq!(table.char_at(7), Some('ö'));
    table.insert(2, "→←");
    assert_eq!(table.display(), "hé→←llo wörld");
    assert_eq!(table.length(), 13);
    assert_eq!(table.char_at(3), Some('←'));
    table.delete(1, 2);
    assert_eq!(table.display(), "h←llo wörld");
    assert_eq!(
        pieces_of(&table),
        vec![
            piece(Buffer::Original, 0, 1),
            piece(Buffer::Add, 1, 1),
            piece(Buffer::Original, 2, 9),
        ]
    );
}

#[test]
fn length_is_the_length_of_the_text() {
    let mut table = PieceTable::new("abc".to_string());
    assert_eq!(table.length(), table.display().chars().count());
    table.insert(1, "xyz");
    assert_eq!(table.length(), 6);
    assert_eq!(table.length(), table.display().chars().count());
    table.delete(2, 3);
    assert_eq!(table.length(), 3);
    assert_eq!(table.length(), table.display().chars().count());
}

#[test]
fn spans_cover_the_document_without_gap_or_overlap() {
    let mut table = PieceTable::new("0123456789".to_string());
    table.insert(4, "abcd");
    table.delete(2, 4);
    table.insert(7, "XY");
    let pieces = pieces_of(&table);
    let mut start = 0;
    for (index, piece) in pieces.iter().enumerate() {
        for offset in start..start + piece.length {
            assert_eq!(table.piece_at(offset), Some((*piece, index, start)));
        }
        start += piece.length;
    }
    assert_eq!(start, table.length());
    assert_eq!(table.piece_at(start), None);
}

#[test]
fn edits_agree_with_a_plain_string() {
    let mut table = PieceTable::new("The quick brown fox".to_string());
    let mut text: Vec<char> = "The quick brown fox".chars().collect();
    check_against(&table, &text);

    let mut state: u64 = 0x2545_f491_4f6c_dd1d;
    let words = ["", "a", "bc", "def", " jumps", "über", "0123456789"];
    for _ in 0..400 {
        state ^= state << 13;
        state ^= state >> 7;
        state ^= state << 17;
        let offset = (state >> 8) as usize % (text.len() + 3);
        if state % 3 == 0 {
            let count = (state >> 32) as usize % 7;
            table.delete(offset, count);
            delete_from(&mut text, offset, count);
        } else {
            let word = words[(state >> 32) as usize % words.len()];
            table.insert(offset, word);
            insert_into(&mut text, offset, word);
        }
        check_against(&table, &text);
    }
}

#[test]
fn every_short_delete_agrees_with_a_plain_string() {
    for offset in 0..10 {
        for count in 0..10 {
            let mut table = PieceTable::new("abcd".to_string());
            table.insert(2, "XY");
            table.insert(6, "uv");
            let mut text: Vec<char> = "abXYcduv".chars().collect();
            table.delete(offset, count);
            delete_from(&mut text, offset, count);
            check_against(&table, &text);
        }
    }
}

#[test]
fn every_short_insert_agrees_with_a_plain_string() {
    for offset in 0..11 {
        let mut table = PieceTable::new("abcd".to_string());
        table.insert(2, "XY");
        table.insert(6, "uv");
        let mut text: Vec<char> = "abXYcduv".chars().collect();
        table.insert(offset, "++");
        insert_into(&mut text, offset, "++");
        check_against(&table, &text);
    }
}

#[test]
fn piece_new_takes_length_before_offset() {
    let made = Piece::new(Buffer::Add, 3, 7);
    assert_eq!(made.buffer, Buffer::Add);
    assert_eq!(made.length, 3);
    assert_eq!(made.offset, 7);
}

#[test]
fn no_piece_is_empty_after_edits_at_piece_borders() {
    let mut table = PieceTable::new("abcdef".to_string());
    table.insert(3, "XY");
    // at every border of a piece: insert, then delete up to the next border
    for offset in [0, 3, 5, 8] {
        table.insert(offset, "-");
        assert!(pieces_of(&table).iter().all(|piece| piece.length > 0));
        table.delete(offset, 1);
        assert!(pieces_of(&table).iter().all(|piece| piece.length > 0));
        assert_eq!(table.display(), "abcXYdef");
    }
    table.delete(3, 2);
    assert!(pieces_of(&table).iter().all(|piece| piece.length > 0));
    table.delete(0, 3);
    assert!(pieces_of(&table).iter().all(|piece| piece.length > 0));
    assert_eq!(pieces_of(&table), vec![piece(Buffer::Original, 3, 3)]);
    table.delete(0, 3);
    assert_eq!(pieces_of(&table), vec![]);
}
