use cognate::notebook::NoteError;
use cognate::notebook::validate;
use cognate::paths::validate_rel_path;

#[test]
fn rejects_traversal_prefix() {
    assert_eq!(validate("../x"), Err(NoteError::Validation));
}

#[test]
fn rejects_absolute_path() {
    assert_eq!(validate("/x"), Err(NoteError::Validation));
}

#[test]
fn rejects_empty_path() {
    assert_eq!(validate(""), Err(NoteError::Validation));
}

#[test]
fn rejects_single_dot() {
    assert_eq!(validate("."), Err(NoteError::Validation));
}

#[test]
fn rejects_double_dot() {
    assert_eq!(validate(".."), Err(NoteError::Validation));
}

#[test]
fn accepts_nested_path() {
    assert_eq!(validate("a/b/c"), Ok(()));
}

#[test]
fn rejects_inner_traversal_segment() {
    assert!(!validate_rel_path("a/../b"));
    assert!(!validate_rel_path("a/.."));
    assert!(!validate_rel_path("../a"));
}

#[test]
fn accepts_dots_inside_names() {
    assert!(validate_rel_path("a..b"));
    assert!(validate_rel_path("notes/draft..old"));
    assert!(validate_rel_path("a.b/c"));
}
