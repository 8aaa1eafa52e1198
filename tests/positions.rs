use freeout::position::{BlockRange, Position, PositionUtils, TextUtils};

#[test]
fn test_get_text_by_range() {
    let text = "# Header 1\n\nContent\n# Header 2";
    let block_range = BlockRange {
        start: Position { line: 0, column: 0, offset: 0 },
        end: Position { line: 1, column: 1, offset: 1 },
    };
    let text_by_range = PositionUtils::get_text_by_range(text, &block_range);

    assert_eq!(text_by_range, "#");

    let block_range = BlockRange {
        start: Position { line: 1, column: 9, offset: 9 },
        end: Position { line: 3, column: 1, offset: 13 },
    };
    let text_by_range = PositionUtils::get_text_by_range(text, &block_range);

    assert_eq!(text_by_range, "1\n\nC");
    assert_eq!(text_by_range.len(), 4);
}

#[test]
fn test_get_immediate_prior_position_eng() {
    let text = "1\n2";
    let block_range = BlockRange {
        start: Position { line: 0, column: 0, offset: 0 },
        end: Position { line: 1, column: 1, offset: 3 },
    };

    let prior_position = PositionUtils::get_immediate_prior_position(text, &block_range.start);

    assert_eq!(prior_position.line, 0);
    assert_eq!(prior_position.column, 0);
    assert_eq!(prior_position.offset, 0);

    let prior_position = PositionUtils::get_immediate_prior_position(text, &block_range.end);

    assert_eq!(prior_position.line, 1);
    assert_eq!(prior_position.column, 0);
    assert_eq!(prior_position.offset, 2);
}

#[test]
fn prior_position_rolls_to_end_of_previous_line() {
    let text = "ab\ncd";
    let start_of_second_line = Position { line: 1, column: 0, offset: 3 };
    let prior = PositionUtils::get_immediate_prior_position(text, &start_of_second_line);
    assert_eq!(prior, Position { line: 0, column: 2, offset: 2 });
}

#[test]
fn prior_position_steps_over_a_whole_grapheme() {
    // "e" followed by a combining acute accent: one grapheme of three bytes.
    let text = "xe\u{301}";
    let end = Position { line: 0, column: 2, offset: 4 };
    let prior = PositionUtils::get_immediate_prior_position(text, &end);
    assert_eq!(prior, Position { line: 0, column: 1, offset: 1 });
}

#[test]
fn end_position_counts_lines_and_bytes() {
    assert_eq!(TextUtils::get_end_position("1\n2"), Position { line: 1, column: 1, offset: 3 });
    assert_eq!(TextUtils::get_end_position(""), Position { line: 0, column: 0, offset: 0 });
    assert_eq!(TextUtils::get_end_position("ab\n"), Position { line: 1, column: 0, offset: 3 });
    assert_eq!(TextUtils::get_end_position("a\n\u{e9}"), Position { line: 1, column: 2, offset: 4 });
}

#[test]
fn merge_range_takes_start_and_end() {
    let a = BlockRange { start: Position { line: 0, column: 0, offset: 0 }, end: Position { line: 0, column: 3, offset: 3 } };
    let b = BlockRange { start: Position { line: 2, column: 0, offset: 9 }, end: Position { line: 2, column: 4, offset: 13 } };
    let merged = PositionUtils::merge_range(&a, &b);
    assert_eq!(merged.start, a.start);
    assert_eq!(merged.end, b.end);
}
