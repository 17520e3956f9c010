//! Tests of the rope-backed buffer: character-offset edits, movement, the
//! offset/position mapping, display lines and statistics.

use iota_editor::{Buffer, BufferError, Position};

#[test]
fn test_buffer_error_messages() {
    assert_eq!(BufferError::NoPathSet.message(), "No buffer path set");
    assert_eq!(
        BufferError::IoFailure("permission denied".to_string()).message(),
        "permission denied"
    );
}

#[test]
fn buffer_test_new_buffer() {
    let buffer = Buffer::new();
    assert!(!buffer.is_modified());
    assert_eq!(buffer.to_string(), "");
    let (lines, chars) = buffer.stats();
    assert_eq!(lines, 1); // An empty text still has one line
    assert_eq!(chars, 0);
}

#[test]
fn test_insert_char() {
    let mut buffer = Buffer::new();
    let new_pos = buffer.insert_char(0, 'H');
    assert_eq!(buffer.to_string(), "H");
    assert_eq!(buffer.cursor_to_position(new_pos).line, 0);
    assert_eq!(buffer.cursor_to_position(new_pos).column, 1);
    assert!(buffer.is_modified());

    let new_pos_i = buffer.insert_char(new_pos, 'i');
    assert_eq!(buffer.to_string(), "Hi");
    assert_eq!(new_pos_i, 2);
}

#[test]
fn test_insert_string() {
    let mut buffer = Buffer::new();
    let pos = buffer.insert_string(0, "Hello");
    assert_eq!(buffer.to_string(), "Hello");
    assert_eq!(pos, 5);
    assert!(buffer.is_modified());

    let new_pos = buffer.insert_string(pos, " World");
    assert_eq!(buffer.to_string(), "Hello World");
    assert_eq!(new_pos, 11);
}

#[test]
fn test_insert_multiline() {
    let mut buffer = Buffer::new();
    let _pos = buffer.insert_string(0, "Line 1\nLine 2\nLine 3");
    assert_eq!(buffer.to_string(), "Line 1\nLine 2\nLine 3");
    let (lines, _) = buffer.stats();
    assert_eq!(lines, 3);
}

#[test]
fn test_backspace() {
    let mut buffer = Buffer::new();
    let mut cursor = buffer.insert_string(0, "Hello");

    let (success, new_cursor) = buffer.backspace(cursor);

    // Backspace at end
    assert!(success);
    assert_eq!(buffer.to_string(), "Hell");
    assert_eq!(new_cursor, 4);
    cursor = new_cursor;

    // Multiple backspaces
    let (success2, cursor2) = buffer.backspace(cursor);
    assert!(success2);
    cursor = cursor2;

    let (success3, cursor3) = buffer.backspace(cursor);
    assert!(success3);
    assert_eq!(buffer.to_string(), "He");
    assert_eq!(cursor3, 2);

    // Backspace at beginning
    cursor = buffer.move_to_start();
    let (success_start, cursor_start) = buffer.backspace(cursor);
    assert!(!success_start); // Can't backspace at start
    assert_eq!(buffer.to_string(), "He");
    assert_eq!(cursor_start, 0);
}

#[test]
fn test_delete_char() {
    let mut buffer = Buffer::new();
    buffer.insert_string(0, "Hello");
    let mut cursor = buffer.move_to_start();

    // Delete at start
    let (success, new_cursor) = buffer.delete_char(cursor);
    assert!(success);
    assert_eq!(buffer.to_string(), "ello");
    assert_eq!(new_cursor, 0);
    cursor = new_cursor;

    // Delete in middle
    cursor = buffer.move_right(cursor).unwrap();
    let (success2, new_cursor2) = buffer.delete_char(cursor);
    assert!(success2);
    assert_eq!(buffer.to_string(), "elo");
    assert_eq!(new_cursor2, 1);

    // Move to end and try to delete (should fail)
    cursor = buffer.move_to_end();
    let (success3, _new_cursor3) = buffer.delete_char(cursor);
    assert!(!success3);
    assert_eq!(buffer.to_string(), "elo");
}

#[test]
fn test_move_left_right() {
    let mut buffer = Buffer::new();
    let mut cursor = buffer.insert_string(0, "Hello");

    assert_eq!(cursor, 5);
    cursor = buffer.move_left(cursor).unwrap();
    assert_eq!(cursor, 4);
    cursor = buffer.move_left(cursor).unwrap();
    assert_eq!(cursor, 3);

    cursor = buffer.move_right(cursor).unwrap();
    assert_eq!(cursor, 4);
    cursor = buffer.move_right(cursor).unwrap();
    assert_eq!(cursor, 5);

    // Can't move right beyond end
    assert!(buffer.move_right(cursor).is_none());
    assert_eq!(cursor, 5);

    // Move to start
    cursor = buffer.move_to_start();
    assert_eq!(cursor, 0);

    // Can't move left beyond start
    assert!(buffer.move_left(cursor).is_none());
    assert_eq!(cursor, 0);
}

#[test]
fn test_move_up_down() {
    let mut buffer = Buffer::new();
    let mut cursor = buffer.insert_string(0, "Line 1\nLine 2\nLine 3");

    // Cursor is at end of "Line 3"
    let pos = buffer.cursor_to_position(cursor);
    assert_eq!(pos.line, 2);
    assert_eq!(pos.column, 6);

    // Move up to line 2
    cursor = buffer.move_up(cursor).unwrap();
    let pos = buffer.cursor_to_position(cursor);
    assert_eq!(pos.line, 1);
    assert_eq!(pos.column, 6);

    // Move up to line 1
    cursor = buffer.move_up(cursor).unwrap();
    let pos = buffer.cursor_to_position(cursor);
    assert_eq!(pos.line, 0);
    assert_eq!(pos.column, 6);

    // Can't move up beyond first line
    assert!(buffer.move_up(cursor).is_none());

    // Move down to line 2
    cursor = buffer.move_down(cursor).unwrap();
    let pos = buffer.cursor_to_position(cursor);
    assert_eq!(pos.line, 1);

    // Move down to line 3
    cursor = buffer.move_down(cursor).unwrap();
    let pos = buffer.cursor_to_position(cursor);
    assert_eq!(pos.line, 2);

    // Can't move down beyond last line
    assert!(buffer.move_down(cursor).is_none());
}

#[test]
fn test_move_up_down_with_varying_line_lengths() {
    let mut buffer = Buffer::new();
    buffer.insert_string(0, "Short\nThis is a longer line\nMed");
    let mut cursor = buffer.move_to_start();

    // Start at beginning of first line (column 0)
    // Move to end of first line
    cursor = buffer.move_to_line_end(cursor);
    let pos = buffer.cursor_to_position(cursor);
    assert_eq!(pos.line, 0);
    assert_eq!(pos.column, 5); // "Short" has 5 chars

    // Move down - column should be capped to line length
    cursor = buffer.move_down(cursor).unwrap();
    let pos = buffer.cursor_to_position(cursor);
    assert_eq!(pos.line, 1);
    assert_eq!(pos.column, 5); // Column preserved

    // Move to end of long line
    cursor = buffer.move_to_line_end(cursor);
    let pos = buffer.cursor_to_position(cursor);
    assert_eq!(pos.column, 21); // "This is a longer line" has 21 chars

    // Move down to shorter line - column should be capped
    cursor = buffer.move_down(cursor).unwrap();
    let pos = buffer.cursor_to_position(cursor);
    assert_eq!(pos.line, 2);
    assert_eq!(pos.column, 2); // "Med" has 3 chars, so max column is 2 (0-indexed)
}

#[test]
fn test_move_to_line_start_end() {
    let mut buffer = Buffer::new();
    buffer.insert_string(0, "Hello World");

    // Move to middle
    let mut cursor = buffer.move_to_start();
    cursor = buffer.move_right(cursor).unwrap();
    cursor = buffer.move_right(cursor).unwrap();
    assert_eq!(cursor, 2);

    // Move to line end
    cursor = buffer.move_to_line_end(cursor);
    assert_eq!(cursor, 11);

    // Move to line start
    cursor = buffer.move_to_line_start(cursor);
    assert_eq!(cursor, 0);
}

#[test]
fn test_move_to_line_end_with_newline() {
    let mut buffer = Buffer::new();
    buffer.insert_string(0, "Line 1\nLine 2");
    let mut cursor = buffer.move_to_start();

    // Move to end of first line (should not include newline)
    cursor = buffer.move_to_line_end(cursor);
    let pos = buffer.cursor_to_position(cursor);
    assert_eq!(pos.line, 0);
    assert_eq!(pos.column, 6); // After "Line 1", before newline
}

#[test]
fn test_move_to_start_end() {
    let mut buffer = Buffer::new();
    let cursor = buffer.insert_string(0, "Line 1\nLine 2\nLine 3");

    // Cursor starts at end
    let end_cursor = cursor;

    let cursor_at_start = buffer.move_to_start();
    assert_eq!(cursor_at_start, 0);

    let cursor_at_end = buffer.move_to_end();
    assert_eq!(cursor_at_end, end_cursor);
}

#[test]
fn test_cursor_to_position() {
    let mut buffer = Buffer::new();
    buffer.insert_string(0, "Line 1\nLine 2\nLine 3");

    let mut cursor = buffer.move_to_start();
    let pos = buffer.cursor_to_position(cursor);
    assert_eq!(pos.line, 0);
    assert_eq!(pos.column, 0);

    // Move to middle of first line
    cursor = buffer.move_right(cursor).unwrap();
    cursor = buffer.move_right(cursor).unwrap();
    cursor = buffer.move_right(cursor).unwrap();
    let pos = buffer.cursor_to_position(cursor);
    assert_eq!(pos.line, 0);
    assert_eq!(pos.column, 3);

    // Move to start of second line
    cursor = buffer.move_to_start();
    cursor = buffer.move_down(cursor).unwrap();
    cursor = buffer.move_to_line_start(cursor);
    let pos = buffer.cursor_to_position(cursor);
    assert_eq!(pos.line, 1);
    assert_eq!(pos.column, 0);
}

#[test]
fn test_position_to_cursor() {
    let mut buffer = Buffer::new();
    buffer.insert_string(0, "Line 1\nLine 2\nLine 3");

    let cursor = buffer.position_to_cursor(Position::new(0, 0));
    assert_eq!(cursor, 0);

    let cursor = buffer.position_to_cursor(Position::new(0, 3));
    assert_eq!(cursor, 3);

    let cursor = buffer.position_to_cursor(Position::new(1, 0));
    assert_eq!(cursor, 7); // After "Line 1\n"

    let cursor = buffer.position_to_cursor(Position::new(2, 2));
    assert_eq!(cursor, 16); // "Line 1\n" (7) + "Line 2\n" (7) + "Li" (2)
}

#[test]
fn test_position_to_cursor_beyond_line_length() {
    let mut buffer = Buffer::new();
    buffer.insert_string(0, "Hi\nLonger line");

    // Try to position beyond line length - should clamp
    let cursor = buffer.position_to_cursor(Position::new(0, 100));
    let pos = buffer.cursor_to_position(cursor);
    assert_eq!(pos.line, 0);
    assert!(pos.column <= 2); // "Hi" is only 2 chars
}

#[test]
fn test_get_lines() {
    let mut buffer = Buffer::new();
    buffer.insert_string(0, "Line 1\nLine 2\nLine 3\nLine 4");

    let lines = buffer.get_lines(0, 2);
    assert_eq!(lines.len(), 2);
    assert_eq!(lines[0], "Line 1");
    assert_eq!(lines[1], "Line 2");

    let lines = buffer.get_lines(1, 2);
    assert_eq!(lines.len(), 2);
    assert_eq!(lines[0], "Line 2");
    assert_eq!(lines[1], "Line 3");

    // Request beyond available lines
    let lines = buffer.get_lines(2, 10);
    assert_eq!(lines.len(), 2); // Only lines 3 and 4 exist
    assert_eq!(lines[0], "Line 3");
    assert_eq!(lines[1], "Line 4");
}

#[test]
fn test_stats() {
    let buffer = Buffer::new();
    let (lines, chars) = buffer.stats();
    assert_eq!(lines, 1);
    assert_eq!(chars, 0);

    let mut buffer = Buffer::new();
    buffer.insert_string(0, "Hello");
    let (lines, chars) = buffer.stats();
    assert_eq!(lines, 1);
    assert_eq!(chars, 5);

    let mut buffer = Buffer::new();
    buffer.insert_string(0, "Line 1\nLine 2\nLine 3");
    let (lines, chars) = buffer.stats();
    assert_eq!(lines, 3);
    assert_eq!(chars, 20); // Including newlines
}

#[test]
fn test_modified_flag() {
    let mut buffer = Buffer::new();
    assert!(!buffer.is_modified());

    buffer.insert_char(0, 'a');
    assert!(buffer.is_modified());

    // Note: the modified flag is not cleared by edits, only by marking the
    // buffer saved.
}

#[test]
fn test_unicode_characters() {
    let mut buffer = Buffer::new();

    // Test inserting unicode characters
    let mut cursor = buffer.insert_string(0, "Hello 世界");
    assert_eq!(buffer.to_string(), "Hello 世界");
    assert_eq!(cursor, 8); // 6 ASCII + 2 CJK = 8 chars

    // Test moving through unicode text
    cursor = buffer.move_left(cursor).unwrap();
    assert_eq!(cursor, 7);
    cursor = buffer.move_left(cursor).unwrap();
    assert_eq!(cursor, 6);

    // Test backspace with unicode
    let (success, new_cursor) = buffer.backspace(cursor);
    assert!(success);
    assert_eq!(buffer.to_string(), "Hello世界");
    assert_eq!(new_cursor, 5);

    // Test inserting emoji at start of buffer
    cursor = buffer.move_to_start();
    cursor = buffer.insert_char(cursor, '🦀');
    assert!(cursor == 1);
    assert_eq!(buffer.to_string(), "🦀Hello世界");

    // Test character count is correct
    let (_, chars) = buffer.stats();
    assert_eq!(chars, 8); // emoji + "Hello" (5 chars) + 2 CJK
}

#[test]
fn test_empty_buffer_operations() {
    let buffer = Buffer::new();
    let cursor = 0;

    // Movement on empty buffer
    assert!(buffer.move_left(cursor).is_none());
    assert!(buffer.move_right(cursor).is_none());
    assert!(buffer.move_up(cursor).is_none());
    assert!(buffer.move_down(cursor).is_none());

    // Deletion on empty buffer
    let mut buffer = Buffer::new();
    let (backspace_success, _) = buffer.backspace(cursor);
    assert!(!backspace_success);
    let (delete_success, _) = buffer.delete_char(cursor);
    assert!(!delete_success);

    // Position at start
    let pos = buffer.cursor_to_position(cursor);
    assert_eq!(pos.line, 0);
    assert_eq!(pos.column, 0);
}
