//! Tests of the editor: command execution, buffer and view lifecycle, view
//! cycling, snapshots, scrolling, and the save/open handoff.

use iota_editor::{Editor, EditorEvent, EditorInput, EditorKey, IoRequest, KeyCode, KeyModifiers};

#[test]
fn test_new_editor() {
    let editor = Editor::new();
    let info = editor.get_info();

    assert_eq!(info.line_count, 1);
    assert_eq!(info.char_count, 0);
    assert_eq!(info.cursor.line, 0);
    assert_eq!(info.cursor.column, 0);
    assert!(!info.modified);
    assert_eq!(info.filepath, None);
}

#[test]
fn editor_test_new_buffer() {
    let mut editor = Editor::new();

    // Start with one buffer
    assert_eq!(editor.buffer_count(), 1);

    // Create a new buffer
    let out = editor.execute_command(EditorInput::NewBuffer);
    assert!(out.events.iter().any(|e| matches!(e, EditorEvent::Redraw)));
    assert_eq!(editor.buffer_count(), 2);

    // Create another buffer
    editor.execute_command(EditorInput::NewBuffer);
    assert_eq!(editor.buffer_count(), 3);
}

#[test]
fn test_delete_buffer() {
    let mut editor = Editor::new();

    // Can't delete the last buffer
    editor.execute_command(EditorInput::DeleteBuffer);
    assert_eq!(editor.buffer_count(), 1);

    // Create multiple buffers
    editor.execute_command(EditorInput::NewBuffer);
    editor.execute_command(EditorInput::NewBuffer);
    assert_eq!(editor.buffer_count(), 3);

    // Delete current buffer
    editor.execute_command(EditorInput::DeleteBuffer);
    assert_eq!(editor.buffer_count(), 2);

    // Delete another buffer
    editor.execute_command(EditorInput::DeleteBuffer);
    assert_eq!(editor.buffer_count(), 1);

    // Can't delete the last buffer
    editor.execute_command(EditorInput::DeleteBuffer);
    assert_eq!(editor.buffer_count(), 1);
}

#[test]
fn test_next_previous_buffer() {
    let mut editor = Editor::new();

    // Add unique content to first buffer
    editor.execute_command(EditorInput::InsertString("Buffer 0".to_string()));

    // Create 2 more buffers with unique content
    editor.execute_command(EditorInput::NewBuffer);
    editor.execute_command(EditorInput::InsertString("Buffer 1".to_string()));

    editor.execute_command(EditorInput::NewBuffer);
    editor.execute_command(EditorInput::InsertString("Buffer 2".to_string()));

    assert_eq!(editor.buffer_count(), 3);

    // Go to next buffer (wraps around to first)
    editor.execute_command(EditorInput::NextBuffer);
    let view = editor.get_render_data(0, 10);
    assert_eq!(view.lines[0], "Buffer 0");

    // Go to next buffer
    editor.execute_command(EditorInput::NextBuffer);
    let view = editor.get_render_data(0, 10);
    assert_eq!(view.lines[0], "Buffer 1");

    // Go to previous buffer
    editor.execute_command(EditorInput::PreviousBuffer);
    let view = editor.get_render_data(0, 10);
    assert_eq!(view.lines[0], "Buffer 0");

    // Wrap around to last buffer
    editor.execute_command(EditorInput::PreviousBuffer);
    let view = editor.get_render_data(0, 10);
    assert_eq!(view.lines[0], "Buffer 2");
}

#[test]
fn test_insert_char_command() {
    let mut editor = Editor::new();

    editor.execute_command(EditorInput::InsertChar('H'));
    editor.execute_command(EditorInput::InsertChar('i'));

    let info = editor.get_info();
    assert!(info.modified);
    assert_eq!(info.char_count, 2);

    // Verify buffer content
    let view = editor.get_render_data(0, 10);
    assert_eq!(view.lines[0], "Hi");
}

#[test]
fn test_insert_string_command() {
    let mut editor = Editor::new();

    editor.execute_command(EditorInput::InsertString("Hello World".to_string()));

    let info = editor.get_info();
    assert!(info.modified);
    assert_eq!(info.char_count, 11);

    let view = editor.get_render_data(0, 10);
    assert_eq!(view.lines[0], "Hello World");
}

#[test]
fn test_insert_newline() {
    let mut editor = Editor::new();

    editor.execute_command(EditorInput::InsertString("Line 1".to_string()));
    editor.execute_command(EditorInput::InsertNewLine);
    editor.execute_command(EditorInput::InsertString("Line 2".to_string()));

    let info = editor.get_info();
    assert_eq!(info.line_count, 2);

    let view = editor.get_render_data(0, 10);
    assert_eq!(view.lines[0], "Line 1");
    assert_eq!(view.lines[1], "Line 2");
}

#[test]
fn test_delete_and_backspace() {
    let mut editor = Editor::new();

    editor.execute_command(EditorInput::InsertString("Hello".to_string()));

    // Backspace removes the character before the cursor
    editor.execute_command(EditorInput::Backspace);

    let view = editor.get_render_data(0, 10);
    assert_eq!(view.lines[0], "Hell");
    assert_eq!(view.cursor.column, 4);

    // DeleteChar deletes at cursor without moving left
    editor.execute_command(EditorInput::MoveLeft(1));
    editor.execute_command(EditorInput::MoveLeft(1));
    editor.execute_command(EditorInput::DeleteChar);

    let view = editor.get_render_data(0, 10);
    assert_eq!(view.lines[0], "Hel");
    assert_eq!(view.cursor.column, 2);
}

#[test]
fn test_movement_commands() {
    let mut editor = Editor::new();

    editor.execute_command(EditorInput::InsertString("Line 1\nLine 2\nLine 3".to_string()));

    // Cursor starts at end of "Line 3"
    let info = editor.get_info();
    assert_eq!(info.cursor.line, 2);
    assert_eq!(info.cursor.column, 6);

    // Move up to Line 2 (column preserved at 6)
    editor.execute_command(EditorInput::MoveUp(1));
    let info = editor.get_info();
    assert_eq!(info.cursor.line, 1);
    assert_eq!(info.cursor.column, 6);

    // Move down to Line 3
    // Vertical movement caps the column to the last valid column of the
    // target line: "Line 3" has 6 chars, so the last column is 5.
    editor.execute_command(EditorInput::MoveDown(1));
    let info = editor.get_info();
    assert_eq!(info.cursor.line, 2);
    assert_eq!(info.cursor.column, 5);

    // Move left from column 5
    editor.execute_command(EditorInput::MoveLeft(1));
    let info = editor.get_info();
    assert_eq!(info.cursor.column, 4);

    // Move right back to column 5
    editor.execute_command(EditorInput::MoveRight(1));
    let info = editor.get_info();
    assert_eq!(info.cursor.column, 5);
}

#[test]
fn test_get_buffer_view() {
    let mut editor = Editor::new();

    editor.execute_command(EditorInput::InsertString(
        "Line 1\nLine 2\nLine 3\nLine 4\nLine 5".to_string(),
    ));

    // Get first 2 lines
    let view = editor.get_render_data(0, 2);
    assert_eq!(view.lines.len(), 2);
    assert_eq!(view.lines[0], "Line 1");
    assert_eq!(view.lines[1], "Line 2");
    assert_eq!(view.viewport_start, 0);
    assert_eq!(view.viewport_height, 2);

    // Get lines starting from line 2
    let view = editor.get_render_data(2, 3);
    assert_eq!(view.lines.len(), 3);
    assert_eq!(view.lines[0], "Line 3");
    assert_eq!(view.lines[1], "Line 4");
    assert_eq!(view.lines[2], "Line 5");
}

#[test]
fn test_buffer_isolation() {
    let mut editor = Editor::new();

    // Modify first buffer
    editor.execute_command(EditorInput::InsertString("Buffer 1".to_string()));

    // Create and switch to second buffer
    editor.execute_command(EditorInput::NewBuffer);
    editor.execute_command(EditorInput::InsertString("Buffer 2".to_string()));

    // Verify second buffer content
    let view = editor.get_render_data(0, 10);
    assert_eq!(view.lines[0], "Buffer 2");

    // Switch back to first buffer
    editor.execute_command(EditorInput::PreviousBuffer);

    // Verify first buffer content is unchanged
    let view = editor.get_render_data(0, 10);
    assert_eq!(view.lines[0], "Buffer 1");
}

#[test]
fn test_save_without_filepath() {
    let mut editor = Editor::new();

    editor.execute_command(EditorInput::InsertString("Test".to_string()));

    // Try to save without a filepath set
    let out = editor.execute_command(EditorInput::Save);

    // Should generate an error event
    assert!(out.events.iter().any(|e| matches!(e, EditorEvent::Error(_))));
    assert!(out.io.is_none());
}

#[test]
fn test_open_nonexistent_file() {
    let mut editor = Editor::new();

    // Opening asks the caller to read the file; the read fails.
    let out = editor.execute_command(EditorInput::OpenFile("/nonexistent/file.txt".to_string()));
    let path = match out.io {
        Some(IoRequest::ReadFile { path }) => path,
        _ => panic!("expected a read request"),
    };
    let events = editor.finish_read(path, Err("No such file or directory".to_string()));

    // Should generate an error event
    assert!(events.iter().any(|e| matches!(e, EditorEvent::Error(_))));

    // Should still have only one buffer
    assert_eq!(editor.buffer_count(), 1);
}

#[test]
fn test_open_file_loads_content() {
    let mut editor = Editor::new();

    let out = editor.execute_command(EditorInput::OpenFile("/tmp/notes.txt".to_string()));
    assert!(out.events.is_empty());
    let path = match out.io {
        Some(IoRequest::ReadFile { path }) => path,
        _ => panic!("expected a read request"),
    };
    assert_eq!(path, "/tmp/notes.txt");

    let events = editor.finish_read(path, Ok("File content\nLine 2".to_string()));
    assert!(events.iter().any(|e| matches!(e, EditorEvent::Info(_))));
    assert!(events.iter().any(|e| matches!(e, EditorEvent::Redraw)));
    assert_eq!(editor.buffer_count(), 2);

    let view = editor.get_render_data(0, 10);
    assert_eq!(view.lines[0], "File content");
    assert_eq!(view.lines[1], "Line 2");

    let info = editor.get_info();
    assert_eq!(info.filepath, Some("/tmp/notes.txt".to_string()));
    assert_eq!(info.name, Some("notes.txt".to_string()));
    assert!(!info.modified);
}

#[test]
fn test_with_file() {
    let editor = Editor::with_file("/tmp/given.txt".to_string(), "Initial content");

    assert_eq!(editor.buffer_count(), 1);
    let info = editor.get_info();
    assert_eq!(info.filepath, Some("/tmp/given.txt".to_string()));
    assert_eq!(info.name, Some("given.txt".to_string()));
    assert!(!info.modified);
    assert_eq!(info.char_count, 15);
}

#[test]
fn test_display_name_from_path() {
    // The display name is the piece after the last slash, the whole path
    // when there is no slash, and a placeholder when nothing follows.
    let editor = Editor::with_file("notes".to_string(), "");
    assert_eq!(editor.get_info().name, Some("notes".to_string()));

    let editor = Editor::with_file("/var/tmp/".to_string(), "");
    assert_eq!(editor.get_info().name, Some("*new*".to_string()));

    let editor = Editor::with_file("a/b/c.txt".to_string(), "");
    assert_eq!(editor.get_info().name, Some("c.txt".to_string()));
}

#[test]
fn test_modified_flag_across_buffers() {
    let mut editor = Editor::new();

    // Modify first buffer
    editor.execute_command(EditorInput::InsertChar('a'));
    assert!(editor.get_info().modified);

    // Create new buffer (unmodified)
    editor.execute_command(EditorInput::NewBuffer);
    assert!(!editor.get_info().modified);

    // Modify second buffer
    editor.execute_command(EditorInput::InsertChar('b'));
    assert!(editor.get_info().modified);

    // Switch back to first buffer (should still be modified)
    editor.execute_command(EditorInput::PreviousBuffer);
    assert!(editor.get_info().modified);
}

#[test]
fn test_unsupported_commands_report() {
    let mut editor = Editor::new();
    editor.execute_command(EditorInput::InsertString("keep".to_string()));

    let out = editor.execute_command(EditorInput::Undo);
    assert!(out.events.iter().any(
        |e| matches!(e, EditorEvent::Error(m) if m.contains("not supported")),
    ));
    let out = editor.execute_command(EditorInput::Redo);
    assert!(out.events.iter().any(
        |e| matches!(e, EditorEvent::Error(m) if m.contains("not supported")),
    ));

    // The buffer is untouched
    let view = editor.get_render_data(0, 10);
    assert_eq!(view.lines[0], "keep");
}

#[test]
fn test_delete_only_view_is_noop() {
    // Deleting the only view changes nothing: the view and buffer counts
    // stay, and no event comes back.
    let mut editor = Editor::new();
    editor.execute_command(EditorInput::InsertString("content".to_string()));

    let views_before = editor.view_count();
    let buffers_before = editor.buffer_count();
    let out = editor.execute_command(EditorInput::DeleteBuffer);

    assert_eq!(editor.view_count(), views_before);
    assert_eq!(editor.buffer_count(), buffers_before);
    assert!(out.events.is_empty());
}

#[test]
fn test_shared_views_see_edits() {
    // Two views of one buffer: an edit through the new view is visible
    // through the old one, while the cursors stay independent.
    let mut editor = Editor::new();
    editor.execute_command(EditorInput::InsertString("shared".to_string()));
    editor.execute_command(EditorInput::MoveLeft(6)); // old view cursor at 0... then move back
    editor.execute_command(EditorInput::MoveRight(2)); // old view cursor at 2

    editor.share_view();
    assert_eq!(editor.view_count(), 2);
    assert_eq!(editor.buffer_count(), 1);

    // Edit through the new (current) view: its cursor starts where the old
    // view's stood.
    editor.execute_command(EditorInput::InsertChar('X'));
    let view = editor.get_render_data(0, 10);
    assert_eq!(view.lines[0], "shXared");
    assert_eq!(view.cursor.column, 3);

    // Switch to the old view: same content, its own cursor untouched.
    editor.execute_command(EditorInput::NextBuffer);
    let view = editor.get_render_data(0, 10);
    assert_eq!(view.lines[0], "shXared");
    assert_eq!(view.cursor.column, 2);
}

#[test]
fn test_insert_then_positions_example() {
    // Start empty, insert three lines: the cursor lands at offset 20,
    // position (2, 6); one line up keeps column 6; one line down returns to
    // the last line with the column clamped to its last valid column, 5.
    let mut editor = Editor::new();
    editor.execute_command(EditorInput::InsertString("Line 1\nLine 2\nLine 3".to_string()));

    let buffer = editor.get_current_buffer().unwrap();
    let cursor = buffer.move_to_end();
    assert_eq!(cursor, 20);
    let info = editor.get_info();
    assert_eq!(info.cursor.line, 2);
    assert_eq!(info.cursor.column, 6);

    editor.execute_command(EditorInput::MoveUp(1));
    let info = editor.get_info();
    assert_eq!(info.cursor.line, 1);
    assert_eq!(info.cursor.column, 6);

    editor.execute_command(EditorInput::MoveDown(1));
    let info = editor.get_info();
    assert_eq!(info.cursor.line, 2);
    assert_eq!(info.cursor.column, 5);
}

#[test]
fn test_save_as_then_save_writes_same_content() {
    // A save with no path reports an error naming the missing path; after a
    // save-as, both writes carry identical content, and each completed
    // write clears the modified flag.
    let mut editor = Editor::new();
    editor.execute_command(EditorInput::InsertString("Test content".to_string()));

    let out = editor.execute_command(EditorInput::Save);
    assert!(out.events.iter().any(
        |e| matches!(e, EditorEvent::Error(m) if m.contains("No buffer path set")),
    ));

    let out = editor.execute_command(EditorInput::SaveAs("/tmp/x".to_string()));
    let (path1, content1, set_path1) = match out.io {
        Some(IoRequest::WriteFile { path, content, set_path }) => (path, content, set_path),
        _ => panic!("expected a write request"),
    };
    assert_eq!(path1, "/tmp/x");
    assert_eq!(content1, "Test content");
    assert!(set_path1);
    assert!(editor.get_info().modified);

    let events = editor.finish_write(path1, true, Ok(()));
    assert!(events.iter().any(
        |e| matches!(e, EditorEvent::Info(m) if m.contains("Saved as /tmp/x")),
    ));
    assert!(!editor.get_info().modified);
    assert_eq!(editor.get_info().filepath, Some("/tmp/x".to_string()));

    // Mark the buffer dirty again, then plain save: same path, identical
    // content.
    editor.execute_command(EditorInput::InsertString("".to_string()));
    let out = editor.execute_command(EditorInput::Save);
    let (path2, content2, set_path2) = match out.io {
        Some(IoRequest::WriteFile { path, content, set_path }) => (path, content, set_path),
        _ => panic!("expected a write request"),
    };
    assert_eq!(path2, "/tmp/x");
    assert_eq!(content2, content1);
    assert!(!set_path2);

    let events = editor.finish_write(path2, false, Ok(()));
    assert!(events.iter().any(|e| matches!(e, EditorEvent::Info(m) if m == "Saved")));
    assert!(!editor.get_info().modified);
}

#[test]
fn test_failed_write_keeps_state() {
    let mut editor = Editor::new();
    editor.execute_command(EditorInput::InsertString("data".to_string()));
    let out = editor.execute_command(EditorInput::SaveAs("/tmp/y".to_string()));
    let path = match out.io {
        Some(IoRequest::WriteFile { path, .. }) => path,
        _ => panic!("expected a write request"),
    };
    let events = editor.finish_write(path, true, Err("disk full".to_string()));
    assert!(events.iter().any(
        |e| matches!(e, EditorEvent::Error(m) if m.contains("disk full")),
    ));
    assert!(editor.get_info().modified);
    assert_eq!(editor.get_info().filepath, None);
}

#[test]
fn test_adjust_scroll_follows_cursor() {
    let mut editor = Editor::new();
    let mut text = String::new();
    for i in 0..40 {
        text.push_str(&format!("row {}\n", i));
    }
    editor.execute_command(EditorInput::InsertString(text));
    // The cursor sits on the last line (line 40, the empty one).
    editor.adjust_scroll(80, 10);
    let view = editor.get_render_data(0, 1);
    // Minimal downward scroll keeps the cursor on the last visible row.
    assert_eq!(view.viewport_start, 40 - 9);

    // A second adjustment with the same viewport changes nothing.
    editor.adjust_scroll(80, 10);
    let view = editor.get_render_data(0, 1);
    assert_eq!(view.viewport_start, 40 - 9);

    // Moving to the start reveals upward.
    for _ in 0..40 {
        editor.execute_command(EditorInput::MoveUp(1));
    }
    editor.adjust_scroll(80, 10);
    let view = editor.get_render_data(0, 1);
    assert_eq!(view.viewport_start, 0);
}

#[test]
fn test_process_key_maps_keys() {
    let mut editor = Editor::new();

    // Plain characters insert themselves.
    editor.process_key(EditorKey::new(KeyCode::Char('h')));
    editor.process_key(EditorKey::new(KeyCode::Char('i')));
    // Tab inserts four spaces; Enter a line break.
    editor.process_key(EditorKey::new(KeyCode::Tab));
    editor.process_key(EditorKey::new(KeyCode::Enter));
    editor.process_key(EditorKey::new(KeyCode::Char('x')));

    let view = editor.get_render_data(0, 10);
    assert_eq!(view.lines[0], "hi    ");
    assert_eq!(view.lines[1], "x");

    // Ctrl-c asks for shutdown without touching the buffer.
    let out = editor.process_key(EditorKey::with_modifiers(
        KeyCode::Char('c'),
        KeyModifiers::control(),
    ));
    assert!(matches!(out.events[..], [EditorEvent::Shutdown]));
    let view = editor.get_render_data(0, 10);
    assert_eq!(view.lines[0], "hi    ");

    // An unknown chord is silently ignored.
    let out = editor.process_key(EditorKey::with_modifiers(
        KeyCode::Char('z'),
        KeyModifiers::control(),
    ));
    assert!(out.events.is_empty());

    // Ctrl-n opens a new buffer.
    editor.process_key(EditorKey::with_modifiers(KeyCode::Char('n'), KeyModifiers::control()));
    assert_eq!(editor.buffer_count(), 2);
}
