use lineeditor::lineeditor::{EditorEvent, EditorState};

#[test]
fn test_clear_always_resets() {
    let mut le = EditorState::new();
    le.set_content(&vec!["abc".to_string(), "def".to_string()]);
    le.apply_event(EditorEvent::Clear);
    assert_eq!(le.content_lines(), vec![""]);
    assert_eq!(le.cursor_line, 0);
    assert_eq!(le.cursor_col, 0);

    le.apply_event(EditorEvent::Clear);
    assert_eq!(le.content_lines(), vec![""]);
    assert_eq!(le.cursor_line, 0);
    assert_eq!(le.cursor_col, 0);
}

#[test]
fn test_snapshot_roundtrip() {
    let mut le = EditorState::new();
    le.set_content(&vec!["ab".to_string(), "cd".to_string()]);
    le.apply_event(EditorEvent::Home);
    le.apply_event(EditorEvent::GoUp);
    let entry = le.content_to_commandentry();
    le.load_commandentry(&entry);
    assert_eq!(le.content_lines(), vec!["ab", "cd"]);
    assert_eq!(le.cursor_line, 1);
    assert_eq!(le.cursor_col, 2);
}

#[test]
fn test_edge_noops() {
    let mut le = EditorState::new();
    le.set_content(&vec!["xy".to_string()]);
    le.apply_event(EditorEvent::Home);
    le.apply_event(EditorEvent::Backspace);
    assert_eq!(le.content_lines(), vec!["xy"]);
    assert_eq!(le.cursor_line, 0);
    assert_eq!(le.cursor_col, 0);

    le.apply_event(EditorEvent::End);
    le.apply_event(EditorEvent::Delete);
    assert_eq!(le.content_lines(), vec!["xy"]);
    assert_eq!(le.cursor_line, 0);
    assert_eq!(le.cursor_col, 2);

    le.apply_event(EditorEvent::GoUp);
    assert_eq!(le.cursor_line, 0);
    le.apply_event(EditorEvent::GoDown);
    assert_eq!(le.cursor_line, 0);
    le.apply_event(EditorEvent::GoRight);
    assert_eq!(le.cursor_col, 2);
    le.apply_event(EditorEvent::Home);
    le.apply_event(EditorEvent::GoLeft);
    assert_eq!(le.cursor_col, 0);
}

#[test]
fn test_wide_and_zero_width_characters() {
    let mut le = EditorState::new();
    le.apply_event(EditorEvent::NewCharacter('字'));
    assert_eq!(le.displayed_cursor_column(), 2);
    assert_eq!(le.cursor_col, 3);

    le.apply_event(EditorEvent::NewCharacter('\u{0301}'));
    assert_eq!(le.displayed_cursor_column(), 2);
    assert_eq!(le.cursor_col, 5);

    le.apply_event(EditorEvent::NewCharacter('a'));
    assert_eq!(le.displayed_cursor_column(), 3);
}

#[test]
fn test_kill_word_stops_after_delimiter() {
    let mut le = EditorState::new();
    le.set_content(&vec!["a/b".to_string()]);
    le.apply_event(EditorEvent::KillWordBack);
    assert_eq!(le.content_str(), "a");
    assert_eq!(le.cursor_col, 1);
}

#[test]
fn test_kill_word_at_line_start_is_noop() {
    let mut le = EditorState::new();
    le.set_content(&vec!["abc".to_string()]);
    le.apply_event(EditorEvent::Home);
    le.apply_event(EditorEvent::KillWordBack);
    assert_eq!(le.content_str(), "abc");
    assert_eq!(le.cursor_col, 0);
}

#[test]
fn test_set_content_empty_is_normalized() {
    let mut le = EditorState::new();
    le.set_content(&vec!["abc".to_string()]);
    le.set_content(&vec![]);
    assert_eq!(le.content_lines(), vec![""]);
    assert_eq!(le.cursor_line, 0);
    assert_eq!(le.cursor_col, 0);
}

#[test]
fn test_vertical_move_snaps_inside_multibyte() {
    let mut le = EditorState::new();
    le.set_content(&vec!["ää".to_string(), "aaaa".to_string()]);
    le.apply_event(EditorEvent::Home);
    le.apply_event(EditorEvent::GoRight);
    le.apply_event(EditorEvent::GoRight);
    le.apply_event(EditorEvent::GoRight);
    assert_eq!(le.cursor_line, 1);
    assert_eq!(le.cursor_col, 3);
    le.apply_event(EditorEvent::GoUp);
    assert_eq!(le.cursor_line, 0);
    assert_eq!(le.cursor_col, 2);
}

#[test]
fn test_split_and_merge_multibyte() {
    let mut le = EditorState::new();
    le.set_content(&vec!["äb".to_string()]);
    le.apply_event(EditorEvent::GoLeft);
    le.apply_event(EditorEvent::NewLine);
    assert_eq!(le.content_lines(), vec!["ä", "b"]);
    assert_eq!(le.cursor_line, 1);
    assert_eq!(le.cursor_col, 0);
    le.apply_event(EditorEvent::Backspace);
    assert_eq!(le.content_lines(), vec!["äb"]);
    assert_eq!(le.cursor_line, 0);
    assert_eq!(le.cursor_col, 2);
    le.apply_event(EditorEvent::Delete);
    assert_eq!(le.content_lines(), vec!["ä"]);
}

#[test]
fn test_current_line_and_entry_lines() {
    let mut le = EditorState::new();
    le.set_content(&vec!["ab".to_string(), "cd".to_string()]);
    assert_eq!(le.current_line(), "cd");
    le.apply_event(EditorEvent::GoUp);
    assert_eq!(le.current_line(), "ab");
    let entry = le.content_to_commandentry();
    assert_eq!(entry.lines(), vec!["ab", "cd"]);
}
