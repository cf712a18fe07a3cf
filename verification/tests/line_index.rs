use radiant::tooling::line_index::{LineIndex, Position};

#[test]
fn converts_ascii_and_multiline_positions() {
    let lines = LineIndex::new("abc\ndef");

    assert_eq!(lines.byte_to_position(2), Position::new(0, 2));
    assert_eq!(lines.byte_to_position(5), Position::new(1, 1));
    assert_eq!(lines.position_to_byte(Position::new(0, 2)), 2);
    assert_eq!(lines.position_to_byte(Position::new(1, 1)), 5);
}

#[test]
fn converts_multibyte_and_astral_characters_as_utf16() {
    let lines = LineIndex::new("é😀x");

    assert_eq!(lines.byte_to_position("é😀".len()), Position::new(0, 3));
    assert_eq!(lines.position_to_byte(Position::new(0, 1)), "é".len());
    assert_eq!(lines.position_to_byte(Position::new(0, 3)), "é😀".len());
}

#[test]
fn clamps_offsets_inside_utf8_and_utf16_characters() {
    let lines = LineIndex::new("é😀x");

    assert_eq!(lines.byte_to_position(1), Position::new(0, 0));
    assert_eq!(lines.byte_to_position(4), Position::new(0, 1));
    assert_eq!(lines.position_to_byte(Position::new(0, 2)), "é".len());
}

#[test]
fn excludes_crlf_from_line_contents() {
    let lines = LineIndex::new("ab\r\ncd");

    assert_eq!(lines.byte_to_position(2), Position::new(0, 2));
    assert_eq!(lines.byte_to_position(3), Position::new(0, 2));
    assert_eq!(lines.byte_to_position(4), Position::new(1, 0));
    assert_eq!(lines.position_to_byte(Position::new(0, 99)), 2);
}

#[test]
fn clamps_out_of_range_positions_and_offsets() {
    let lines = LineIndex::new("a\nb");

    assert_eq!(lines.byte_to_position(99), Position::new(1, 1));
    assert_eq!(lines.position_to_byte(Position::new(0, 99)), 1);
    assert_eq!(lines.position_to_byte(Position::new(99, 0)), 3);
}

#[test]
fn handles_empty_and_trailing_empty_lines() {
    let empty = LineIndex::new("");
    assert_eq!(empty.byte_to_position(0), Position::new(0, 0));
    assert_eq!(empty.position_to_byte(Position::new(0, 0)), 0);

    let trailing = LineIndex::new("a\n");
    assert_eq!(trailing.byte_to_position(2), Position::new(1, 0));
    assert_eq!(trailing.position_to_byte(Position::new(1, 4)), 2);
}
