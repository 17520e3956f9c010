//! Tests of the wire protocol: framing, the codec round trip, and the
//! per-frame server step.

use iota_editor::protocol::{
    classify_prefix_read, process_frame, FrameRead, FrameStep, ProtocolError,
};
use iota_editor::{
    Buffer, DecodeError, Editor, EditorKey, KeyCode, KeyModifiers, Message, Position,
};

#[test]
fn test_position_clamp_example() {
    // Requesting a column past the end of "Hi" clamps to its last valid
    // column: position (0, 100) maps to offset 2, which reads back as
    // (0, 2).
    let mut buffer = Buffer::new();
    buffer.insert_string(0, "Hi\nLonger line");
    let cursor = buffer.position_to_cursor(Position::new(0, 100));
    assert_eq!(cursor, 2);
    let pos = buffer.cursor_to_position(cursor);
    assert_eq!(pos.line, 0);
    assert_eq!(pos.column, 2);
}

#[test]
fn test_prefix_read_classification() {
    // Zero bytes read at the length prefix is a clean disconnect, not an
    // error.
    assert_eq!(classify_prefix_read(&[]), FrameRead::Disconnected);
    // A prefix that stops mid-value is fatal.
    assert_eq!(classify_prefix_read(&[0, 0]), FrameRead::Truncated);
    // A full prefix names the body length, big-endian.
    assert_eq!(classify_prefix_read(&[0, 0, 1, 2]), FrameRead::Body(258));
}

#[test]
fn test_truncated_body_is_decode_failure() {
    // A frame with a valid length but a truncated body must fail to
    // decode.
    let key = EditorKey::with_modifiers(KeyCode::Char('s'), KeyModifiers::control());
    let framed = Message::KeyPress { key }.encode().unwrap();
    let body = &framed[4..];
    assert!(Message::decode(body).is_ok());
    let truncated = &body[..body.len() - 1];
    assert_eq!(Message::decode(truncated).unwrap_err(), DecodeError::Malformed);
}

#[test]
fn test_key_press_round_trip() {
    let key = EditorKey::with_modifiers(KeyCode::F(7), KeyModifiers::alt());
    let framed = Message::KeyPress { key }.encode().unwrap();
    // The prefix names the body length.
    let body = &framed[4..];
    assert_eq!(
        classify_prefix_read(&framed[..4]),
        FrameRead::Body(body.len() as u32)
    );
    match Message::decode(body).unwrap() {
        Message::KeyPress { key: k2 } => assert_eq!(k2, key),
        _ => panic!("wrong variant"),
    }
}

#[test]
fn test_unicode_key_round_trip() {
    let key = EditorKey::new(KeyCode::Char('\u{4e16}'));
    let framed = Message::KeyPress { key }.encode().unwrap();
    match Message::decode(&framed[4..]).unwrap() {
        Message::KeyPress { key: k2 } => assert_eq!(k2, key),
        _ => panic!("wrong variant"),
    }
}

#[test]
fn test_simple_messages_round_trip() {
    for m in [
        Message::ClientStart,
        Message::ServerStatusCheck,
        Message::ServerStatusOk,
    ] {
        let tag = std::mem::discriminant(&m);
        let framed = m.encode().unwrap();
        let back = Message::decode(&framed[4..]).unwrap();
        assert_eq!(std::mem::discriminant(&back), tag);
    }
}

#[test]
fn test_garbage_fails_to_decode() {
    assert!(Message::decode(&[]).is_err());
    assert!(Message::decode(&[99]).is_err());
    // A key press whose modifier byte carries unknown flags is malformed.
    assert!(Message::decode(&[0, 1, 0xFF]).is_err());
}

#[test]
fn test_state_update_round_trip() {
    // Drive an editor, answer a handshake, and decode the response: the
    // snapshot survives the wire byte for byte.
    let mut editor = Editor::new();
    for c in "Line 1\nLine 2".chars() {
        editor.process_key(EditorKey::new(
            if c == '\n' { KeyCode::Enter } else { KeyCode::Char(c) },
        ));
    }

    let handshake = Message::ClientStart.encode().unwrap();
    let step = process_frame(&mut editor, &handshake[4..]).unwrap();
    let response = match step {
        FrameStep::Respond(bytes) => bytes,
        _ => panic!("expected a response"),
    };
    match Message::decode(&response[4..]).unwrap() {
        Message::StateUpdate { events, render_data, info } => {
            assert!(events.is_empty());
            assert_eq!(render_data.lines[0], "Line 1");
            assert_eq!(render_data.lines[1], "Line 2");
            assert_eq!(render_data.viewport_height, 24);
            assert_eq!(info.line_count, 2);
            assert_eq!(info.char_count, 13);
            assert_eq!(info.cursor.line, 1);
            assert_eq!(info.cursor.column, 6);
            assert!(info.modified);
            assert_eq!(info.filepath, None);
        },
        _ => panic!("wrong variant"),
    }
}

#[test]
fn test_key_press_frame_edits_editor() {
    let mut editor = Editor::new();
    let framed = Message::KeyPress { key: EditorKey::new(KeyCode::Char('q')) }
        .encode()
        .unwrap();
    let step = process_frame(&mut editor, &framed[4..]).unwrap();
    let response = match step {
        FrameStep::Respond(bytes) => bytes,
        _ => panic!("expected a response"),
    };
    match Message::decode(&response[4..]).unwrap() {
        Message::StateUpdate { render_data, .. } => {
            assert_eq!(render_data.lines[0], "q");
        },
        _ => panic!("wrong variant"),
    }
}

#[test]
fn test_malformed_frame_leaves_editor_alone() {
    let mut editor = Editor::new();
    editor.process_key(EditorKey::new(KeyCode::Char('a')));
    // A payload no message serializes to must come back as a decode
    // failure, with the shared editor untouched.
    assert!(matches!(
        process_frame(&mut editor, &[200, 1, 2]),
        Err(ProtocolError::Malformed)
    ));
    let view = editor.get_render_data(0, 1);
    assert_eq!(view.lines[0], "a");
}

#[test]
fn test_state_update_frame_gets_no_response() {
    // A server-to-client message arriving at the server is ignored and
    // leaves the editor untouched.
    let mut editor = Editor::new();
    editor.process_key(EditorKey::new(KeyCode::Char('b')));
    let handshake = Message::ClientStart.encode().unwrap();
    let update = match process_frame(&mut editor, &handshake[4..]).unwrap() {
        FrameStep::Respond(bytes) => bytes,
        _ => panic!("expected a response"),
    };
    assert!(matches!(
        process_frame(&mut editor, &update[4..]).unwrap(),
        FrameStep::NoResponse
    ));
    let view = editor.get_render_data(0, 1);
    assert_eq!(view.lines[0], "b");
}

#[test]
fn test_status_check_frame() {
    let mut editor = Editor::new();
    let framed = Message::ServerStatusCheck.encode().unwrap();
    let step = process_frame(&mut editor, &framed[4..]).unwrap();
    let response = match step {
        FrameStep::Respond(bytes) => bytes,
        _ => panic!("expected a response"),
    };
    assert!(matches!(
        Message::decode(&response[4..]).unwrap(),
        Message::ServerStatusOk
    ));

    // Server-to-client messages arriving at the server are ignored.
    let ok_frame = Message::ServerStatusOk.encode().unwrap();
    assert!(matches!(
        process_frame(&mut editor, &ok_frame[4..]).unwrap(),
        FrameStep::NoResponse
    ));
}
