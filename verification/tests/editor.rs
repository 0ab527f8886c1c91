use lineeditor::lineeditor::{EditorEvent, EditorState};

#[test]
pub fn test_lineeditor_ascii() {
    let mut le = EditorState::new();
    assert_eq!(le.content_str(), "");

    le.apply_event(EditorEvent::NewCharacter('a'));
    assert_eq!(le.content_str(), "a");

    le.apply_event(EditorEvent::NewCharacter('a'));
    assert_eq!(le.content_str(), "aa");
    assert_eq!(le.displayed_cursor_column(), 2);

    le.apply_event(EditorEvent::Backspace);
    assert_eq!(le.content_str(), "a");
    assert_eq!(le.displayed_cursor_column(), 1);

    le.apply_event(EditorEvent::Backspace);
    assert_eq!(le.content_str(), "");
    assert_eq!(le.displayed_cursor_column(), 0);

    le.apply_event(EditorEvent::Backspace);
    assert_eq!(le.content_str(), "");
    assert_eq!(le.displayed_cursor_column(), 0);

    le.apply_event(EditorEvent::NewCharacter('a'));
    assert_eq!(le.content_str(), "a");
    assert_eq!(le.displayed_cursor_column(), 1);

    le.apply_event(EditorEvent::GoLeft);
    assert_eq!(le.displayed_cursor_column(), 0);

    le.apply_event(EditorEvent::Delete);
    assert_eq!(le.content_str(), "");
    assert_eq!(le.displayed_cursor_column(), 0);

    le.apply_event(EditorEvent::Delete);
    assert_eq!(le.content_str(), "");
    assert_eq!(le.displayed_cursor_column(), 0);
}

#[test]
pub fn test_advanced() {
    let mut le = EditorState::new();
    le.set_content(&vec!["as".to_string()]);
    assert_eq!(le.content_str(), "as");
    assert_eq!(le.displayed_cursor_column(), 2 as usize);

    le.apply_event(EditorEvent::KillWordBack);
    assert_eq!(le.content_str(), "");
    assert_eq!(le.displayed_cursor_column(), 0 as usize);

    le.set_content(&vec!["as as as".to_string()]);
    assert_eq!(le.content_str(), "as as as");
    assert_eq!(le.displayed_cursor_column(), 8 as usize);

    le.apply_event(EditorEvent::KillWordBack);
    assert_eq!(le.content_str(), "as as");
    assert_eq!(le.displayed_cursor_column(), 5 as usize);
}

#[test]
pub fn test_lineeditor_umlaut() {
    let mut le = EditorState::new();
    assert_eq!(le.content_str(), "");

    le.apply_event(EditorEvent::NewCharacter('ä'));
    assert_eq!(le.content_str(), "ä");
    assert_eq!(le.displayed_cursor_column(), 1);
    le.apply_event(EditorEvent::NewCharacter('ä'));
    assert_eq!(le.content_str(), "ää");
    assert_eq!(le.displayed_cursor_column(), 2);

    le.apply_event(EditorEvent::GoLeft);
    assert_eq!(le.displayed_cursor_column(), 1);
}

#[test]
pub fn test_multiline() {
    let mut le = EditorState::new();

    le.apply_event(EditorEvent::NewLine);
    assert_eq!(le.content_lines(), vec!["", ""]);
    assert_eq!(le.cursor_line, 1);

    le.apply_event(EditorEvent::NewCharacter('a'));
    assert_eq!(le.content_lines(), vec!["", "a"]);
    assert_eq!(le.cursor_line, 1);

    le.apply_event(EditorEvent::GoUp);
    assert_eq!(le.content_lines(), vec!["", "a"]);
    assert_eq!(le.cursor_line, 0);

    le.apply_event(EditorEvent::GoDown);
    assert_eq!(le.content_lines(), vec!["", "a"]);
    assert_eq!(le.cursor_line, 1);

    le.set_content(&vec!["a".into(), "b".into()]);
    assert_eq!(le.content_lines(), vec!["a", "b"]);
    assert_eq!(le.cursor_line, 1);
    le.apply_event(EditorEvent::Home);
    le.apply_event(EditorEvent::Backspace);
    assert_eq!(le.cursor_line, 0);
    assert_eq!(le.content_lines(), vec!["ab"]);

    le.set_content(&vec!["abc".into(), "a".into()]);
    assert_eq!(le.cursor_line, 1);
    assert_eq!(le.cursor_col, 1);

    le.apply_event(EditorEvent::GoUp);
    assert_eq!(le.cursor_col, 1);
    assert_eq!(le.cursor_line, 0);
    le.apply_event(EditorEvent::End);
    assert_eq!(le.cursor_col, 3);
    le.apply_event(EditorEvent::GoDown);
    assert_eq!(le.cursor_line, 1);
    assert_eq!(le.cursor_col, 1);
}
