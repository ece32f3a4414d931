use csslsrs::line_index::{LineIndex, Position, PositionEncoding, Range};

#[test]
fn line_starts_follow_line_feeds() {
    let text = "a\nbc\n";
    let index = LineIndex::new(text);
    assert_eq!(index.line_count(), 3);
    assert_eq!(index.line_start(0), Some(0));
    assert_eq!(index.line_start(1), Some(2));
    assert_eq!(index.line_start(2), Some(5));
    assert_eq!(index.line_start(3), None);
}

#[test]
fn offsets_map_to_lines_and_columns() {
    let text = "a\nbc\n";
    let index = LineIndex::new(text);
    let at = |offset| index.position(text, offset, PositionEncoding::Utf16);
    assert_eq!(at(0), Some(Position { line: 0, character: 0 }));
    assert_eq!(at(1), Some(Position { line: 0, character: 1 }));
    assert_eq!(at(2), Some(Position { line: 1, character: 0 }));
    assert_eq!(at(4), Some(Position { line: 1, character: 2 }));
    assert_eq!(at(5), Some(Position { line: 2, character: 0 }));
    assert_eq!(at(6), None);
}

#[test]
fn columns_count_in_the_chosen_encoding() {
    let text = "x\né😀y";
    let index = LineIndex::new(text);
    let end_of_emoji = 2 + 2 + 4;
    assert_eq!(
        index.position(text, end_of_emoji, PositionEncoding::Utf8),
        Some(Position { line: 1, character: 6 })
    );
    assert_eq!(
        index.position(text, end_of_emoji, PositionEncoding::Utf16),
        Some(Position { line: 1, character: 3 })
    );
    assert_eq!(
        index.position(text, end_of_emoji, PositionEncoding::Utf32),
        Some(Position { line: 1, character: 2 })
    );
}

#[test]
fn ranges_need_both_ends() {
    let text = "ab";
    let index = LineIndex::new(text);
    assert_eq!(
        index.range(text, 0, 2, PositionEncoding::Utf8),
        Some(Range {
            start: Position { line: 0, character: 0 },
            end: Position { line: 0, character: 2 },
        })
    );
    assert_eq!(index.range(text, 0, 3, PositionEncoding::Utf8), None);
}

#[test]
fn empty_lines_each_get_a_line() {
    let text = "\n\nab\n";
    let index = LineIndex::new(text);
    assert_eq!(index.line_count(), 4);
    let at = |offset| index.position(text, offset, PositionEncoding::Utf8);
    assert_eq!(at(0), Some(Position { line: 0, character: 0 }));
    assert_eq!(at(1), Some(Position { line: 1, character: 0 }));
    assert_eq!(at(3), Some(Position { line: 2, character: 1 }));
    assert_eq!(at(5), Some(Position { line: 3, character: 0 }));
}
