//! Keys and the commands they stand for.
use yu_editor::command::EditorCommand;
use yu_editor::keymap::{command_for_key, EditorKey, KeyEvent, KeyModifiers};

fn event(key: EditorKey, modifiers: KeyModifiers) -> KeyEvent {
    KeyEvent::new(key, modifiers)
}

#[test]
fn macos_undo_and_redo_shortcuts_are_distinct() {
    assert_eq!(
        command_for_key(event(EditorKey::Character('z'), KeyModifiers::command())),
        Some(EditorCommand::undo())
    );
    assert_eq!(
        command_for_key(event(
            EditorKey::Character('Z'),
            KeyModifiers::command() | KeyModifiers::shift(),
        )),
        Some(EditorCommand::redo())
    );
    assert_eq!(
        command_for_key(event(
            EditorKey::Character('z'),
            KeyModifiers::command() | KeyModifiers::option(),
        )),
        None
    );
}

#[test]
fn structural_keys_map_to_editor_commands() {
    assert_eq!(
        command_for_key(event(EditorKey::Enter, KeyModifiers::none())),
        Some(EditorCommand::insert_newline())
    );
    assert_eq!(
        command_for_key(event(EditorKey::Enter, KeyModifiers::shift())),
        Some(EditorCommand::insert_newline())
    );
    assert_eq!(
        command_for_key(event(EditorKey::Tab, KeyModifiers::none())),
        Some(EditorCommand::indent_list())
    );
    assert_eq!(
        command_for_key(event(EditorKey::Tab, KeyModifiers::shift())),
        Some(EditorCommand::outdent_list())
    );
    assert_eq!(
        command_for_key(event(EditorKey::Backspace, KeyModifiers::none())),
        Some(EditorCommand::DeleteBackward)
    );
    assert_eq!(
        command_for_key(event(EditorKey::Delete, KeyModifiers::none())),
        Some(EditorCommand::DeleteForward)
    );
    assert_eq!(
        command_for_key(event(EditorKey::Left, KeyModifiers::none())),
        Some(EditorCommand::MoveLeft)
    );
    assert_eq!(
        command_for_key(event(EditorKey::Right, KeyModifiers::none())),
        Some(EditorCommand::MoveRight)
    );
    assert_eq!(
        command_for_key(event(EditorKey::Left, KeyModifiers::option())),
        Some(EditorCommand::move_word_left())
    );
    assert_eq!(
        command_for_key(event(EditorKey::Right, KeyModifiers::control())),
        Some(EditorCommand::move_word_right())
    );
}

#[test]
fn printable_text_and_unowned_shortcuts_stay_on_native_input_path() {
    assert_eq!(
        command_for_key(event(EditorKey::Character('a'), KeyModifiers::none())),
        None
    );
    assert_eq!(
        command_for_key(event(EditorKey::Character('a'), KeyModifiers::command())),
        None
    );
    assert_eq!(
        command_for_key(event(EditorKey::Escape, KeyModifiers::none())),
        None
    );
}

#[test]
fn unknown_native_modifier_bits_are_ignored() {
    let modifiers = KeyModifiers::from_bits(KeyModifiers::command().bits() | (1 << 7));
    assert_eq!(
        command_for_key(event(EditorKey::Character('z'), modifiers)),
        Some(EditorCommand::undo())
    );
}

#[test]
fn a_union_holds_both_sides_and_nothing_else() {
    let both = KeyModifiers::command() | KeyModifiers::shift();
    assert_eq!(both.bits(), 3);
    assert!(both.contains(KeyModifiers::command()));
    assert!(both.contains(KeyModifiers::shift()));
    assert!(!both.contains(KeyModifiers::option()));
    assert!(both.contains(KeyModifiers::none()));
    assert_eq!((both | both).bits(), 3);
    assert_eq!(KeyModifiers::from_bits(0xFF).bits(), 15);
}

#[test]
fn a_shortcut_needs_exactly_its_modifiers() {
    for key in [EditorKey::Tab, EditorKey::Backspace, EditorKey::Up, EditorKey::Down] {
        assert_eq!(command_for_key(event(key, KeyModifiers::command())), None);
    }
    assert_eq!(
        command_for_key(event(EditorKey::Enter, KeyModifiers::shift() | KeyModifiers::option())),
        None
    );
    let made = event(EditorKey::Left, KeyModifiers::control());
    assert_eq!(made.key(), EditorKey::Left);
    assert_eq!(made.modifiers(), KeyModifiers::control());
}
