use cognate::label_actions::add_label_to_note;
use cognate::label_actions::remove_label_from_note;
use cognate::notebook::NoteError;
use cognate::notebook::NoteMetadata;
use cognate::notebook::apply_create_note;
use cognate::notebook::apply_folder_move;
use cognate::notebook::apply_note_move;
use cognate::notebook::plan_create_note;
use cognate::notebook::plan_move_note;
use cognate::notebook::remove_record;
use cognate::notebook::rollback_create_note;
use cognate::notebook::select_note_path;

fn note(path: &str) -> NoteMetadata {
    NoteMetadata { rel_path: path.to_string(), labels: Vec::new() }
}

fn paths(notes: &[NoteMetadata]) -> Vec<String> {
    notes.iter().map(|n| n.rel_path.clone()).collect()
}

#[test]
fn create_twice_leaves_one_record() {
    let mut records: Vec<NoteMetadata> = Vec::new();
    assert_eq!(plan_create_note(&records, "docs/a", false), Ok(()));
    let created = apply_create_note(&mut records, "docs/a");
    assert_eq!(created.rel_path, "docs/a");
    assert!(created.labels.is_empty());
    assert_eq!(records.len(), 1);
    // The second attempt conflicts whatever the filesystem says, and the
    // record list is untouched.
    assert_eq!(plan_create_note(&records, "docs/a", false), Err(NoteError::Conflict));
    assert_eq!(plan_create_note(&records, "docs/a", true), Err(NoteError::Conflict));
    assert_eq!(records.len(), 1);
}

#[test]
fn create_rejects_invalid_path_before_conflicts() {
    let records = vec![note("../x")];
    assert_eq!(plan_create_note(&records, "../x", true), Err(NoteError::Validation));
}

#[test]
fn create_rejects_occupied_target() {
    let records: Vec<NoteMetadata> = Vec::new();
    assert_eq!(plan_create_note(&records, "a", true), Err(NoteError::Conflict));
}

#[test]
fn rollback_drops_the_new_record() {
    let mut records = vec![note("keep")];
    let _ = apply_create_note(&mut records, "fresh");
    assert_eq!(records.len(), 2);
    rollback_create_note(&mut records);
    assert_eq!(paths(&records), vec!["keep".to_string()]);
}

#[test]
fn folder_move_rewrites_prefixes() {
    let mut records = vec![note("docs/a"), note("docs/b"), note("other")];
    let updated = apply_folder_move(&mut records, "docs", "notes");
    assert!(updated);
    assert_eq!(
        paths(&records),
        vec!["notes/a".to_string(), "notes/b".to_string(), "other".to_string()]
    );
}

#[test]
fn single_note_move_leaves_other_records_alone() {
    let mut records = vec![note("docs/a"), note("docs/b"), note("other")];
    let updated = apply_note_move(&mut records, "other", "misc");
    assert!(updated);
    assert_eq!(
        paths(&records),
        vec!["docs/a".to_string(), "docs/b".to_string(), "misc".to_string()]
    );
}

#[test]
fn folder_move_keeps_labels() {
    let mut records = vec![NoteMetadata {
        rel_path: "docs/a".to_string(),
        labels: vec!["work".to_string()],
    }];
    let updated = apply_folder_move(&mut records, "docs", "archive");
    assert!(updated);
    assert_eq!(records[0].rel_path, "archive/a");
    assert_eq!(records[0].labels, vec!["work".to_string()]);
}

#[test]
fn folder_move_touches_exact_match_too() {
    let mut records = vec![note("docs")];
    let updated = apply_folder_move(&mut records, "docs", "notes");
    assert!(updated);
    assert_eq!(paths(&records), vec!["notes".to_string()]);
}

#[test]
fn folder_move_without_members_reports_no_update() {
    let mut records = vec![note("other")];
    let updated = apply_folder_move(&mut records, "docs", "notes");
    assert!(!updated);
    assert_eq!(paths(&records), vec!["other".to_string()]);
}

#[test]
fn move_plan_error_order() {
    assert_eq!(plan_move_note("../x", true, false), Err(NoteError::Validation));
    assert_eq!(plan_move_note("ok", false, false), Err(NoteError::NotFound));
    assert_eq!(plan_move_note("ok", true, true), Err(NoteError::Conflict));
    assert_eq!(plan_move_note("ok", true, false), Ok(()));
}

#[test]
fn delete_tolerates_missing_index_entry() {
    let mut records = vec![note("a")];
    // Removing a path that is not in the index changes nothing and is no
    // error: the caller still attempts the filesystem removal.
    let removed = remove_record(&mut records, "b");
    assert!(!removed);
    assert_eq!(paths(&records), vec!["a".to_string()]);
}

#[test]
fn delete_removes_the_first_matching_record() {
    let mut records = vec![note("a"), note("b"), note("a")];
    let removed = remove_record(&mut records, "a");
    assert!(removed);
    assert_eq!(paths(&records), vec!["b".to_string(), "a".to_string()]);
}

#[test]
fn folder_move_matches_whole_segments_only() {
    // "docs2/x" does not live under "docs": the rewritten prefix is
    // "docs/" with its separator, never a bare text prefix.
    let mut records = vec![note("docs/a"), note("docs2/x")];
    let updated = apply_folder_move(&mut records, "docs", "notes");
    assert!(updated);
    assert_eq!(paths(&records), vec!["notes/a".to_string(), "docs2/x".to_string()]);
}

#[test]
fn selection_falls_back_to_the_first_note() {
    let records = vec![note("b"), note("a")];
    let kept = "b".to_string();
    assert_eq!(select_note_path(Some(&kept), &records), Some("b".to_string()));
    assert_eq!(select_note_path(None, &records), Some("b".to_string()));
    let empty: Vec<NoteMetadata> = Vec::new();
    assert_eq!(select_note_path(None, &empty), None);
}

#[test]
fn add_label_checks_duplicates_and_empties() {
    let mut records = vec![note("a")];
    assert!(add_label_to_note(&mut records, "a", "work"));
    assert_eq!(records[0].labels, vec!["work".to_string()]);
    assert!(!add_label_to_note(&mut records, "a", "work"));
    assert!(!add_label_to_note(&mut records, "a", ""));
    assert!(!add_label_to_note(&mut records, "missing", "x"));
    assert_eq!(records[0].labels, vec!["work".to_string()]);
}

#[test]
fn remove_label_drops_every_copy() {
    let mut records = vec![NoteMetadata {
        rel_path: "a".to_string(),
        labels: vec!["x".to_string(), "y".to_string(), "x".to_string()],
    }];
    assert!(remove_label_from_note(&mut records, "a", "x"));
    assert_eq!(records[0].labels, vec!["y".to_string()]);
    assert!(!remove_label_from_note(&mut records, "b", "x"));
}
