use cognate::configuration::ConfigError;
use cognate::configuration::configuration_from_parts;
use cognate::counter::Counter;
use cognate::counter::Message;
use cognate::editor_state::EditorState;
use cognate::label_actions::handle_label_input_changed;
use cognate::notebook::NoteMetadata;
use cognate::visualizer::Visualizer;

fn note_with_labels(path: &str, labels: &[&str]) -> NoteMetadata {
    NoteMetadata {
        rel_path: path.to_string(),
        labels: labels.iter().map(|l| l.to_string()).collect(),
    }
}

#[test]
fn fresh_state_has_everything_closed() {
    let state = EditorState::new();
    assert_eq!(state.notebook_path(), "");
    assert!(state.selected_note_path().is_none());
    assert!(!state.is_any_dialog_open());
    assert!(!state.show_visualizer());
    assert!(!state.is_loading_note());
}

#[test]
fn opening_the_visualizer_closes_the_dialogs() {
    let mut state = EditorState::new();
    state.set_notebook_path("book".to_string());
    state.show_new_note_dialog();
    assert!(state.show_new_note_input());
    state.toggle_visualizer();
    assert!(state.show_visualizer());
    assert!(!state.show_new_note_input());
    state.toggle_visualizer();
    assert!(!state.show_visualizer());
}

#[test]
fn new_note_dialog_needs_an_open_notebook() {
    let mut state = EditorState::new();
    state.show_new_note_dialog();
    assert!(!state.show_new_note_input());
    state.set_notebook_path("book".to_string());
    state.show_new_note_dialog();
    assert!(state.show_new_note_input());
}

#[test]
fn inputs_only_change_while_their_dialog_is_open() {
    let mut state = EditorState::new();
    state.update_new_note_path("ignored".to_string());
    assert_eq!(state.new_note_path_input(), "");
    state.set_notebook_path("book".to_string());
    state.show_new_note_dialog();
    state.update_new_note_path("docs/x".to_string());
    assert_eq!(state.new_note_path_input(), "docs/x");
    state.hide_new_note_dialog();
    assert_eq!(state.new_note_path_input(), "");
}

#[test]
fn move_dialog_seeds_its_input_with_the_current_path() {
    let mut state = EditorState::new();
    state.show_move_note_dialog("docs/a".to_string());
    assert!(state.show_move_note_input());
    assert_eq!(state.move_note_current_path().map(String::as_str), Some("docs/a"));
    assert_eq!(state.move_note_new_path_input(), "docs/a");
    let taken = state.take_move_note_current_path();
    assert_eq!(taken.as_deref(), Some("docs/a"));
    assert!(state.move_note_current_path().is_none());
}

#[test]
fn rename_folder_dialog_drops_the_selection() {
    let mut state = EditorState::new();
    state.set_notebook_path("book".to_string());
    state.set_selected_note_path(Some("docs/a".to_string()));
    state.show_rename_folder_dialog("docs".to_string());
    assert!(state.selected_note_path().is_none());
    assert!(state.show_move_note_input());
}

#[test]
fn label_input_is_frozen_behind_the_about_panel() {
    let mut state = EditorState::new();
    handle_label_input_changed(&mut state, "typing".to_string());
    assert_eq!(state.new_label_text(), "typing");
    state.toggle_about_info();
    handle_label_input_changed(&mut state, "blocked".to_string());
    assert_eq!(state.new_label_text(), "typing");
}

#[test]
fn is_folder_path_looks_at_immediate_parents() {
    let state = EditorState::new();
    let notes = vec![note_with_labels("a/b", &[]), note_with_labels("c", &[])];
    assert!(state.is_folder_path("a", &notes));
    assert!(!state.is_folder_path("a/b", &notes));
    assert!(!state.is_folder_path("c", &notes));
    assert!(!state.is_folder_path("", &notes));
}

#[test]
fn visualizer_keeps_label_flags_for_surviving_labels() {
    let mut vis = Visualizer::new();
    vis.update_notes(vec![note_with_labels("a", &["work", "home"])]);
    assert!(!vis.expanded_labels.get("work"));
    vis.toggle_label("work");
    assert!(vis.expanded_labels.get("work"));
    vis.update_notes(vec![note_with_labels("a", &["work", "new"])]);
    assert!(vis.expanded_labels.get("work"));
    assert!(!vis.expanded_labels.get("new"));
    assert!(!vis.expanded_labels.contains("home"));
}

#[test]
fn counter_steps_by_one() {
    let mut counter = Counter::default();
    assert_eq!(counter.value(), 0);
    counter.update(Message::Increment);
    counter.update(Message::Increment);
    counter.update(Message::Decrement);
    assert_eq!(counter.value(), 1);
}

#[test]
fn configuration_defaults_when_the_file_is_unreadable() {
    let config = configuration_from_parts(false, None, None, "1.2.3".to_string()).unwrap();
    assert_eq!(config.theme, "Dark");
    assert_eq!(config.notebook_path, "");
    assert_eq!(config.version, "1.2.3");
}

#[test]
fn configuration_requires_a_theme_from_a_readable_file() {
    let err = configuration_from_parts(true, None, None, "1.2.3".to_string());
    assert!(matches!(err, Err(ConfigError::MissingTheme)));
}

#[test]
fn configuration_takes_what_the_file_names() {
    let config = configuration_from_parts(
        true,
        Some("Light".to_string()),
        Some("/books/main".to_string()),
        "1.2.3".to_string(),
    )
    .unwrap();
    assert_eq!(config.theme, "Light");
    assert_eq!(config.notebook_path, "/books/main");
    let config = configuration_from_parts(true, Some("Light".to_string()), None, "9".to_string())
        .unwrap();
    assert_eq!(config.notebook_path, "");
}
