//! Tests of the key model and the key-specification grammar.

use iota_editor::{EditorKey, KeyCode, KeyModifiers, KeySequence, ParseKeyError};

#[test]
fn test_modifier_combinations() {
    // Ctrl+C
    let key = EditorKey::with_modifiers(KeyCode::Char('c'), KeyModifiers::control());
    assert_eq!(key.code, KeyCode::Char('c'));
    assert!(key.modifiers.ctrl);
    assert!(!key.modifiers.alt);
    assert!(!key.is_plain_char());

    // Alt+X (Meta in Emacs)
    let key = EditorKey::with_modifiers(KeyCode::Char('x'), KeyModifiers::alt());
    assert_eq!(key.code, KeyCode::Char('x'));
    assert!(!key.modifiers.ctrl);
    assert!(key.modifiers.alt);
    assert!(!key.is_plain_char());

    // Ctrl+Alt+C
    let mods = KeyModifiers {
        ctrl: true,
        alt: true,
        ..Default::default()
    };
    let key = EditorKey::with_modifiers(KeyCode::Char('c'), mods);
    assert_eq!(key.code, KeyCode::Char('c'));
    assert!(key.modifiers.ctrl);
    assert!(key.modifiers.alt);
    assert!(!key.is_plain_char());

    // Plain character (should be printable)
    let key = EditorKey::new(KeyCode::Char('a'));
    assert_eq!(key.code, KeyCode::Char('a'));
    assert!(!key.modifiers.ctrl);
    assert!(!key.modifiers.alt);
    assert!(key.modifiers.is_empty());
    assert!(key.is_plain_char());
}

#[test]
fn test_modifier_equality() {
    // Same modifiers should be equal
    let key1 = EditorKey::with_modifiers(KeyCode::Char('s'), KeyModifiers::control());
    let key2 = EditorKey::with_modifiers(KeyCode::Char('s'), KeyModifiers::control());
    assert_eq!(key1, key2);

    // Different modifiers should not be equal
    let key1 = EditorKey::with_modifiers(KeyCode::Char('s'), KeyModifiers::control());
    let key2 = EditorKey::with_modifiers(KeyCode::Char('s'), KeyModifiers::alt());
    assert_ne!(key1, key2);
}

#[test]
fn test_arrow_keys() {
    // Plain arrow key
    let key = EditorKey::new(KeyCode::Left);
    assert_eq!(key.code, KeyCode::Left);
    assert!(key.modifiers.is_empty());

    // Ctrl+Arrow
    let key = EditorKey::with_modifiers(KeyCode::Right, KeyModifiers::control());
    assert_eq!(key.code, KeyCode::Right);
    assert!(key.modifiers.ctrl);
}

#[test]
fn test_special_keys() {
    let key = EditorKey::new(KeyCode::Enter);
    assert_eq!(key.code, KeyCode::Enter);
    assert!(key.modifiers.is_empty());

    let key = EditorKey::new(KeyCode::Backspace);
    assert_eq!(key.code, KeyCode::Backspace);
}

#[test]
fn test_parse_simple_char() {
    let key: EditorKey = "a".parse().unwrap();
    assert_eq!(key.code, KeyCode::Char('a'));
    assert!(key.modifiers.is_empty());

    let key: EditorKey = "Z".parse().unwrap();
    assert_eq!(key.code, KeyCode::Char('Z'));
    assert!(key.modifiers.is_empty());
}

#[test]
fn test_parse_ctrl_key() {
    // Long form
    let key: EditorKey = "Ctrl-c".parse().unwrap();
    assert_eq!(key.code, KeyCode::Char('c'));
    assert!(key.modifiers.ctrl);
    assert!(!key.modifiers.alt);
    assert!(!key.modifiers.shift);

    // Emacs style
    let key: EditorKey = "C-c".parse().unwrap();
    assert_eq!(key.code, KeyCode::Char('c'));
    assert!(key.modifiers.ctrl);
    assert!(!key.modifiers.alt);

    // Case sensitive - uppercase C
    let key: EditorKey = "Ctrl-C".parse().unwrap();
    assert_eq!(key.code, KeyCode::Char('C'));
    assert!(key.modifiers.ctrl);
}

#[test]
fn test_parse_alt_key() {
    // Long form
    let key: EditorKey = "Alt-x".parse().unwrap();
    assert_eq!(key.code, KeyCode::Char('x'));
    assert!(key.modifiers.alt);
    assert!(!key.modifiers.ctrl);

    // Emacs style (Meta)
    let key: EditorKey = "M-x".parse().unwrap();
    assert_eq!(key.code, KeyCode::Char('x'));
    assert!(key.modifiers.alt);
}

#[test]
fn test_parse_shift_key() {
    let key: EditorKey = "Shift-Left".parse().unwrap();
    assert_eq!(key.code, KeyCode::Left);
    assert!(key.modifiers.shift);

    let key: EditorKey = "S-a".parse().unwrap();
    assert_eq!(key.code, KeyCode::Char('a'));
    assert!(key.modifiers.shift);
}

#[test]
fn test_parse_super_key() {
    let key: EditorKey = "Super-s".parse().unwrap();
    assert_eq!(key.code, KeyCode::Char('s'));
    assert!(key.modifiers.meta);

    // Emacs style (lowercase s for super)
    let key: EditorKey = "s-s".parse().unwrap();
    assert_eq!(key.code, KeyCode::Char('s'));
    assert!(key.modifiers.meta);
}

#[test]
fn test_parse_multiple_modifiers() {
    // Ctrl+Alt
    let key: EditorKey = "C-M-s".parse().unwrap();
    assert_eq!(key.code, KeyCode::Char('s'));
    assert!(key.modifiers.ctrl);
    assert!(key.modifiers.alt);
    assert!(!key.modifiers.shift);

    // Ctrl+Shift
    let key: EditorKey = "Ctrl-Shift-a".parse().unwrap();
    assert_eq!(key.code, KeyCode::Char('a'));
    assert!(key.modifiers.ctrl);
    assert!(key.modifiers.shift);

    // All modifiers
    let key: EditorKey = "C-M-S-s-x".parse().unwrap();
    assert_eq!(key.code, KeyCode::Char('x'));
    assert!(key.modifiers.ctrl);
    assert!(key.modifiers.alt);
    assert!(key.modifiers.shift);
    assert!(key.modifiers.meta);
}

#[test]
fn test_parse_special_keys() {
    let key: EditorKey = "Enter".parse().unwrap();
    assert_eq!(key.code, KeyCode::Enter);

    let key: EditorKey = "Backspace".parse().unwrap();
    assert_eq!(key.code, KeyCode::Backspace);

    let key: EditorKey = "Delete".parse().unwrap();
    assert_eq!(key.code, KeyCode::Delete);

    let key: EditorKey = "Escape".parse().unwrap();
    assert_eq!(key.code, KeyCode::Escape);

    let key: EditorKey = "Esc".parse().unwrap();
    assert_eq!(key.code, KeyCode::Escape);

    let key: EditorKey = "Tab".parse().unwrap();
    assert_eq!(key.code, KeyCode::Tab);
}

#[test]
fn test_parse_arrow_keys() {
    let key: EditorKey = "Left".parse().unwrap();
    assert_eq!(key.code, KeyCode::Left);

    let key: EditorKey = "Right".parse().unwrap();
    assert_eq!(key.code, KeyCode::Right);

    let key: EditorKey = "Up".parse().unwrap();
    assert_eq!(key.code, KeyCode::Up);

    let key: EditorKey = "Down".parse().unwrap();
    assert_eq!(key.code, KeyCode::Down);

    // With modifiers
    let key: EditorKey = "C-Left".parse().unwrap();
    assert_eq!(key.code, KeyCode::Left);
    assert!(key.modifiers.ctrl);
}

#[test]
fn test_parse_function_keys() {
    let key: EditorKey = "F1".parse().unwrap();
    assert_eq!(key.code, KeyCode::F(1));

    let key: EditorKey = "F12".parse().unwrap();
    assert_eq!(key.code, KeyCode::F(12));

    // With modifiers
    let key: EditorKey = "C-F5".parse().unwrap();
    assert_eq!(key.code, KeyCode::F(5));
    assert!(key.modifiers.ctrl);
}

#[test]
fn test_parse_errors() {
    // Empty string
    assert_eq!("".parse::<EditorKey>().unwrap_err(), ParseKeyError::Empty);

    // Unknown modifier
    assert!(matches!(
        "Foo-c".parse::<EditorKey>().unwrap_err(),
        ParseKeyError::UnknownModifier(_)
    ));

    // Unknown key
    assert!(matches!(
        "Unknown".parse::<EditorKey>().unwrap_err(),
        ParseKeyError::UnknownKey(_)
    ));

    // Invalid function key
    assert!(matches!(
        "F13".parse::<EditorKey>().unwrap_err(),
        ParseKeyError::InvalidFunctionKey(_)
    ));

    assert!(matches!(
        "F0".parse::<EditorKey>().unwrap_err(),
        ParseKeyError::InvalidFunctionKey(_)
    ));

    // "Fabc" doesn't match the function-key pattern (not all digits after F)
    assert!(matches!(
        "Fabc".parse::<EditorKey>().unwrap_err(),
        ParseKeyError::UnknownKey(_)
    ));
}

#[test]
fn test_parse_key_sequence() {
    // Single key
    let seq: KeySequence = "C-x".parse().unwrap();
    assert_eq!(seq.keys.len(), 1);
    assert_eq!(seq.keys[0].code, KeyCode::Char('x'));
    assert!(seq.keys[0].modifiers.ctrl);

    // Two keys
    let seq: KeySequence = "C-x C-s".parse().unwrap();
    assert_eq!(seq.keys.len(), 2);
    assert_eq!(seq.keys[0].code, KeyCode::Char('x'));
    assert!(seq.keys[0].modifiers.ctrl);
    assert_eq!(seq.keys[1].code, KeyCode::Char('s'));
    assert!(seq.keys[1].modifiers.ctrl);

    // Multiple keys with different modifiers
    let seq: KeySequence = "C-c C-c M-x".parse().unwrap();
    assert_eq!(seq.keys.len(), 3);
    assert_eq!(seq.keys[0].code, KeyCode::Char('c'));
    assert!(seq.keys[0].modifiers.ctrl);
    assert_eq!(seq.keys[1].code, KeyCode::Char('c'));
    assert!(seq.keys[1].modifiers.ctrl);
    assert_eq!(seq.keys[2].code, KeyCode::Char('x'));
    assert!(seq.keys[2].modifiers.alt);
}

#[test]
fn test_parse_key_sequence_with_special_keys() {
    let seq: KeySequence = "C-x Enter".parse().unwrap();
    assert_eq!(seq.keys.len(), 2);
    assert_eq!(seq.keys[0].code, KeyCode::Char('x'));
    assert!(seq.keys[0].modifiers.ctrl);
    assert_eq!(seq.keys[1].code, KeyCode::Enter);
    assert!(seq.keys[1].modifiers.is_empty());
}

#[test]
fn test_parse_key_sequence_errors() {
    // Empty string
    assert_eq!("".parse::<KeySequence>().unwrap_err(), ParseKeyError::Empty);

    // Invalid key in sequence
    assert!(matches!(
        "C-x Foo".parse::<KeySequence>().unwrap_err(),
        ParseKeyError::UnknownKey(_)
    ));
}

#[test]
fn test_parse_error_messages() {
    let e = "Foo-c".parse::<EditorKey>().unwrap_err();
    assert_eq!(e.message(), "unknown modifier: Foo");
    let e = "Unknown".parse::<EditorKey>().unwrap_err();
    assert_eq!(e.message(), "unknown key: Unknown");
    let e = "F99".parse::<EditorKey>().unwrap_err();
    assert_eq!(e.message(), "invalid function key: F99");
    assert_eq!(ParseKeyError::Empty.message(), "empty key specification");
}

#[test]
fn test_sequence_constructors() {
    let key = EditorKey::new(KeyCode::Enter);
    let seq = KeySequence::single(key);
    assert_eq!(seq.keys.len(), 1);
    assert_eq!(seq.keys[0].code, KeyCode::Enter);

    let seq2 = KeySequence::new(vec![key, EditorKey::new(KeyCode::Tab)]);
    assert_eq!(seq2.keys.len(), 2);
    assert_eq!(seq2.keys[1].code, KeyCode::Tab);
}

#[test]
fn test_case_sensitivity() {
    // lowercase c
    let key1: EditorKey = "C-c".parse().unwrap();
    assert_eq!(key1.code, KeyCode::Char('c'));

    // uppercase C
    let key2: EditorKey = "C-C".parse().unwrap();
    assert_eq!(key2.code, KeyCode::Char('C'));

    // They should be different
    assert_ne!(key1, key2);
}
