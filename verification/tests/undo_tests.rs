use cognate::undo_manager::UndoManager;

#[test]
fn undo_walks_back_in_reverse_order() {
    let mut um = UndoManager::new();
    um.add_to_history("note", "v1".to_string());
    um.add_to_history("note", "v2".to_string());
    // The content recorded last comes back first, then the earlier one,
    // then nothing: the history is linear and last-in-first-out.
    assert_eq!(um.get_previous_content("note"), Some("v2".to_string()));
    assert_eq!(um.get_previous_content("note"), Some("v1".to_string()));
    assert_eq!(um.get_previous_content("note"), None);
}

#[test]
fn undo_on_unknown_note_yields_nothing() {
    let mut um = UndoManager::new();
    assert_eq!(um.get_previous_content("missing"), None);
}

#[test]
fn recording_after_undo_discards_the_redo_branch() {
    let mut um = UndoManager::new();
    um.add_to_history("note", "v1".to_string());
    um.add_to_history("note", "v2".to_string());
    assert_eq!(um.get_previous_content("note"), Some("v2".to_string()));
    // A new recording truncates the branch beyond the cursor: "v2" is
    // gone for good, however often undo is pressed afterwards.
    um.add_to_history("note", "v3".to_string());
    assert_eq!(um.get_previous_content("note"), Some("v3".to_string()));
    assert_eq!(um.get_previous_content("note"), Some("v1".to_string()));
    assert_eq!(um.get_previous_content("note"), None);
}

#[test]
fn initial_content_becomes_the_first_snapshot() {
    let mut um = UndoManager::new();
    um.initialize_history("note");
    um.handle_initial_content("note", "loaded");
    assert_eq!(um.get_previous_content("note"), Some("loaded".to_string()));
    assert_eq!(um.get_previous_content("note"), None);
}

#[test]
fn empty_initial_content_leaves_no_snapshot() {
    let mut um = UndoManager::new();
    um.initialize_history("note");
    um.handle_initial_content("note", "");
    assert_eq!(um.get_previous_content("note"), None);
}

#[test]
fn externally_changed_content_is_snapshotted_on_reload() {
    let mut um = UndoManager::new();
    um.handle_initial_content("note", "first");
    // The same content again: nothing new is recorded.
    um.handle_initial_content("note", "first");
    // Changed outside the editor: the fresh content joins the history.
    um.handle_initial_content("note", "changed");
    assert_eq!(um.get_previous_content("note"), Some("changed".to_string()));
    assert_eq!(um.get_previous_content("note"), Some("first".to_string()));
    assert_eq!(um.get_previous_content("note"), None);
}

#[test]
fn initialize_parks_the_cursor_at_the_top() {
    let mut um = UndoManager::new();
    um.add_to_history("note", "v1".to_string());
    assert_eq!(um.get_previous_content("note"), Some("v1".to_string()));
    // Re-selecting the note parks the cursor back at the end of the
    // existing snapshots.
    um.initialize_history("note");
    assert_eq!(um.get_previous_content("note"), Some("v1".to_string()));
}

#[test]
fn rename_moves_the_history() {
    let mut um = UndoManager::new();
    um.add_to_history("old", "v1".to_string());
    um.handle_path_change("old", "new");
    assert_eq!(um.get_previous_content("old"), None);
    assert_eq!(um.get_previous_content("new"), Some("v1".to_string()));
}

#[test]
fn rename_of_unknown_key_changes_nothing() {
    let mut um = UndoManager::new();
    um.add_to_history("kept", "v1".to_string());
    um.handle_path_change("missing", "kept");
    assert_eq!(um.get_previous_content("kept"), Some("v1".to_string()));
}

#[test]
fn remove_discards_the_history() {
    let mut um = UndoManager::new();
    um.add_to_history("note", "v1".to_string());
    um.remove_history("note");
    assert_eq!(um.get_previous_content("note"), None);
}
