use cognate::flag_map::FlagMap;
use cognate::note_explorer::NodeOwned;
use cognate::note_explorer::NoteExplorer;
use cognate::notebook::NoteMetadata;

fn note(path: &str) -> NoteMetadata {
    NoteMetadata { rel_path: path.to_string(), labels: Vec::new() }
}

fn node_name(n: &NodeOwned) -> &str {
    match n {
        NodeOwned::Folder { name, .. } => name,
        NodeOwned::NoteDir { name, .. } => name,
    }
}

#[test]
fn groups_notes_under_their_folder() {
    let notes = vec![note("a/x"), note("a/y"), note("b")];
    let tree = NoteExplorer::build_owned_tree(&notes, &FlagMap::new());
    assert_eq!(tree.len(), 2);
    match &tree[0] {
        NodeOwned::Folder { name, children, is_expanded, path } => {
            assert_eq!(name, "a");
            assert_eq!(path, "a");
            assert!(!is_expanded);
            assert_eq!(children.len(), 2);
            assert_eq!(node_name(&children[0]), "x");
            assert_eq!(node_name(&children[1]), "y");
            match &children[0] {
                NodeOwned::NoteDir { path, metadata, .. } => {
                    assert_eq!(path, "a/x");
                    assert_eq!(metadata.rel_path, "a/x");
                },
                _ => panic!("expected a note under the folder"),
            }
        },
        _ => panic!("expected the folder first"),
    }
    match &tree[1] {
        NodeOwned::NoteDir { name, path, .. } => {
            assert_eq!(name, "b");
            assert_eq!(path, "b");
        },
        _ => panic!("expected the loose note last"),
    }
}

#[test]
fn folders_come_before_notes_and_both_are_sorted() {
    let notes = vec![note("zebra"), note("beta/inner"), note("apple"), note("m/inner")];
    let tree = NoteExplorer::build_owned_tree(&notes, &FlagMap::new());
    let names: Vec<&str> = tree.iter().map(node_name).collect();
    assert_eq!(names, vec!["beta", "m", "apple", "zebra"]);
    assert!(matches!(tree[0], NodeOwned::Folder { .. }));
    assert!(matches!(tree[1], NodeOwned::Folder { .. }));
    assert!(matches!(tree[2], NodeOwned::NoteDir { .. }));
    assert!(matches!(tree[3], NodeOwned::NoteDir { .. }));
}

#[test]
fn nested_folders_carry_their_full_path() {
    let notes = vec![note("a/b/c")];
    let tree = NoteExplorer::build_owned_tree(&notes, &FlagMap::new());
    match &tree[0] {
        NodeOwned::Folder { name, path, children, .. } => {
            assert_eq!(name, "a");
            assert_eq!(path, "a");
            match &children[0] {
                NodeOwned::Folder { name, path, children, .. } => {
                    assert_eq!(name, "b");
                    assert_eq!(path, "a/b");
                    assert_eq!(node_name(&children[0]), "c");
                },
                _ => panic!("expected the inner folder"),
            }
        },
        _ => panic!("expected the outer folder"),
    }
}

#[test]
fn expanded_folder_stays_expanded_and_new_ones_start_collapsed() {
    let mut explorer = NoteExplorer::new("book".to_string());
    explorer.notes_loaded(vec![note("a/x")]);
    assert!(!explorer.expanded_folders.get("a"));
    explorer.toggle_folder("a");
    assert!(explorer.expanded_folders.get("a"));
    // A note under a new folder arrives; the rebuild keeps "a" expanded
    // and starts "c" collapsed.
    explorer.notes_loaded(vec![note("a/x"), note("c/y")]);
    assert!(explorer.expanded_folders.get("a"));
    assert!(!explorer.expanded_folders.get("c"));
    let tree = NoteExplorer::build_owned_tree(&explorer.notes, &explorer.expanded_folders);
    match (&tree[0], &tree[1]) {
        (
            NodeOwned::Folder { name: na, is_expanded: ea, .. },
            NodeOwned::Folder { name: nc, is_expanded: ec, .. },
        ) => {
            assert_eq!(na, "a");
            assert!(*ea);
            assert_eq!(nc, "c");
            assert!(!*ec);
        },
        _ => panic!("expected two folders"),
    }
}

#[test]
fn flags_of_vanished_folders_are_dropped() {
    let mut explorer = NoteExplorer::new("book".to_string());
    explorer.notes_loaded(vec![note("gone/x")]);
    explorer.toggle_folder("gone");
    assert!(explorer.expanded_folders.get("gone"));
    explorer.notes_loaded(vec![note("other/y")]);
    assert!(!explorer.expanded_folders.contains("gone"));
}

#[test]
fn toggling_an_unknown_folder_changes_nothing() {
    let mut explorer = NoteExplorer::new("book".to_string());
    explorer.notes_loaded(vec![note("a/x")]);
    explorer.toggle_folder("missing");
    assert!(!explorer.expanded_folders.contains("missing"));
}

#[test]
fn notes_are_stored_sorted_by_path() {
    let mut explorer = NoteExplorer::new("book".to_string());
    explorer.notes_loaded(vec![note("c"), note("a/z"), note("b"), note("a/k")]);
    let paths: Vec<&str> = explorer.notes.iter().map(|n| n.rel_path.as_str()).collect();
    assert_eq!(paths, vec!["a/k", "a/z", "b", "c"]);
}

#[test]
fn collapse_all_then_expand_to_the_selected_note() {
    let mut explorer = NoteExplorer::new("book".to_string());
    explorer.notes_loaded(vec![note("a/b/c"), note("d/e")]);
    explorer.toggle_folder("d");
    assert!(explorer.expanded_folders.get("d"));
    explorer.collapse_all_and_expand_to("a/b/c");
    assert!(explorer.expanded_folders.get("a"));
    assert!(explorer.expanded_folders.get("a/b"));
    assert!(!explorer.expanded_folders.get("d"));
}
