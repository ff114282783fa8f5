use typst_languagetool::cursor::{Position, StringCursor, TextPosition};

#[test]
fn test_variable_width() {
    let text = "ÖÖ";
    let mut cursor = StringCursor::new(text);
    assert_eq!(cursor.utf_8_offset(2, false), Some(4));
    assert_eq!(cursor.utf_8_offset(3, false), None);
    assert_eq!(cursor.utf_8_offset(0, false), Some(0));
    assert_eq!(cursor.utf_8_offset(1, false), Some(2));
    assert_eq!(cursor.utf_8_offset(2, false), Some(4));
    assert_eq!(cursor.utf_8_offset(3, false), None);
}

#[test]
fn test_newline_stop() {
    let text = "abc\ndef\nghi";
    let mut cursor = StringCursor::new(text);
    assert_eq!(cursor.utf_8_offset(4, false), Some(4));
    assert_eq!(cursor.utf_8_offset(1, true), Some(4));
    assert_eq!(cursor.utf_8_offset(20, true), Some(7));
    assert_eq!(cursor.utf_8_offset(0, false), Some(0));
    assert_eq!(cursor.utf_8_offset(20, true), Some(3));
}

#[test]
fn seek_counts_lines_and_columns() {
    let mut position = Position::new("ab\ncdé\nf");
    assert_eq!(position.seek(1, false), TextPosition { utf_8: 1, line: 0, column: 1 });
    assert_eq!(position.seek(4, false), TextPosition { utf_8: 4, line: 1, column: 1 });
    assert_eq!(position.seek(8, false), TextPosition { utf_8: 9, line: 2, column: 1 });
    // Moving back keeps the count of lines and columns.
    assert_eq!(position.seek(0, false), TextPosition { utf_8: 0, line: 2, column: 1 });
}

#[test]
fn seek_beyond_the_end_stops_at_the_end() {
    let mut position = Position::new("ab");
    assert_eq!(position.seek(10, false), TextPosition { utf_8: 2, line: 0, column: 2 });
}

#[test]
fn substring_by_bytes() {
    let position = Position::new("aÖb");
    assert_eq!(position.substring(1, 3), "Ö");
    assert_eq!(position.substring(0, 4), "aÖb");
    assert_eq!(position.substring(3, 3), "");
}
