use cognate::index_codec::encode_index_document;
use cognate::index_codec::notes_from_index;
use cognate::index_codec::parse_index_document;
use cognate::notebook::NoteMetadata;

fn note(path: &str, labels: &[&str]) -> NoteMetadata {
    NoteMetadata {
        rel_path: path.to_string(),
        labels: labels.iter().map(|l| l.to_string()).collect(),
    }
}

#[test]
fn encodes_empty_index() {
    let notes: Vec<NoteMetadata> = Vec::new();
    assert_eq!(encode_index_document(&notes), "{\n  \"notes\": []\n}");
}

#[test]
fn encodes_one_note_exactly() {
    let notes = vec![note("docs/a", &["work", "todo"])];
    let expected = "{\n  \"notes\": [\n    {\n      \"rel_path\": \"docs/a\",\n      \"labels\": [\n        \"work\",\n        \"todo\"\n      ]\n    }\n  ]\n}";
    assert_eq!(encode_index_document(&notes), expected);
}

#[test]
fn encodes_empty_labels_inline() {
    let notes = vec![note("b", &[])];
    let expected = "{\n  \"notes\": [\n    {\n      \"rel_path\": \"b\",\n      \"labels\": []\n    }\n  ]\n}";
    assert_eq!(encode_index_document(&notes), expected);
}

#[test]
fn round_trip_preserves_records() {
    let notes = vec![
        note("docs/a", &["work"]),
        note("docs/b", &[]),
        note("other", &["home", "later"]),
    ];
    let text = encode_index_document(&notes);
    let back = parse_index_document(&text).expect("the encoder's output must parse");
    assert_eq!(back.len(), notes.len());
    for (orig, parsed) in notes.iter().zip(back.iter()) {
        assert_eq!(orig.rel_path, parsed.rel_path);
        assert_eq!(orig.labels, parsed.labels);
    }
}

#[test]
fn round_trip_preserves_awkward_characters() {
    let notes = vec![note("a\"b\\c", &["line\nbreak", "tab\there", "cr\rhere"])];
    let text = encode_index_document(&notes);
    let back = parse_index_document(&text).expect("escapes must parse back");
    assert_eq!(back[0].rel_path, "a\"b\\c");
    assert_eq!(back[0].labels, vec!["line\nbreak", "tab\there", "cr\rhere"]);
}

#[test]
fn control_characters_are_escaped_and_read_back() {
    let notes = vec![note("bell\u{0007}path", &["back\u{0008}", "feed\u{000C}"])];
    let text = encode_index_document(&notes);
    // The bell becomes a four-digit escape, backspace and form feed their
    // named escapes; nothing is written raw below the space character.
    assert!(text.contains("bell\\u0007path"));
    assert!(text.contains("back\\b"));
    assert!(text.contains("feed\\f"));
    assert!(!text.contains('\u{0007}'));
    let back = parse_index_document(&text).expect("control escapes parse back");
    assert_eq!(back[0].rel_path, "bell\u{0007}path");
    assert_eq!(back[0].labels, vec!["back\u{0008}", "feed\u{000C}"]);
}

#[test]
fn foreign_hex_and_solidus_escapes_are_understood() {
    let back = parse_index_document(
        "{\"notes\":[{\"rel_path\":\"a\\u0041\\u00e9\\/b\",\"labels\":[\"x\\u001Fy\"]}]}",
    )
    .expect("hex and solidus escapes parse");
    assert_eq!(back[0].rel_path, "aA\u{00e9}/b");
    assert_eq!(back[0].labels, vec!["x\u{001F}y"]);
}

#[test]
fn surrogate_and_malformed_hex_escapes_are_rejected() {
    assert!(parse_index_document("{\"notes\":[{\"rel_path\":\"\\uD800\"}]}").is_none());
    assert!(parse_index_document("{\"notes\":[{\"rel_path\":\"\\u12\"}]}").is_none());
    assert!(parse_index_document("{\"notes\":[{\"rel_path\":\"\\uZZZZ\"}]}").is_none());
}

#[test]
fn serde_written_control_escapes_round_trip() {
    // A stock JSON writer escapes control characters as four-digit
    // escapes; this crate's parser reads them back.
    let mut obj = serde_json::Map::new();
    let mut rec = serde_json::Map::new();
    rec.insert(
        "rel_path".to_string(),
        serde_json::Value::String("ctl\u{001F}end".to_string()),
    );
    obj.insert(
        "notes".to_string(),
        serde_json::Value::Array(vec![serde_json::Value::Object(rec)]),
    );
    let text = serde_json::to_string(&serde_json::Value::Object(obj)).unwrap();
    let back = parse_index_document(&text).expect("stock control escapes parse");
    assert_eq!(back[0].rel_path, "ctl\u{001F}end");
}

#[test]
fn parses_pretty_printed_input() {
    let text = "{\n  \"notes\": [\n    {\n      \"rel_path\": \"docs/a\",\n      \"labels\": [\n        \"work\"\n      ]\n    }\n  ]\n}\n";
    let back = parse_index_document(text).expect("whitespace between tokens is fine");
    assert_eq!(back.len(), 1);
    assert_eq!(back[0].rel_path, "docs/a");
    assert_eq!(back[0].labels, vec!["work".to_string()]);
}

#[test]
fn labels_default_to_empty_when_absent() {
    let back = parse_index_document("{\"notes\":[{\"rel_path\":\"x\"}]}").expect("parses");
    assert_eq!(back[0].rel_path, "x");
    assert!(back[0].labels.is_empty());
}

#[test]
fn rejects_malformed_documents() {
    assert!(parse_index_document("").is_none());
    assert!(parse_index_document("{\"notes\":[").is_none());
    assert!(parse_index_document("{\"notes\":[{\"rel_path\":\"x\"}]").is_none());
    assert!(parse_index_document("{\"other\":[]}").is_none());
    assert!(parse_index_document("{\"notes\":[]}trailing").is_none());
}

#[test]
fn load_is_fail_soft() {
    assert!(notes_from_index(None).is_empty());
    assert!(notes_from_index(Some("not json at all")).is_empty());
    let loaded = notes_from_index(Some("{\"notes\":[{\"rel_path\":\"a\",\"labels\":[]}]}"));
    assert_eq!(loaded.len(), 1);
    assert_eq!(loaded[0].rel_path, "a");
}

#[test]
fn encoded_document_is_real_json() {
    let notes = vec![note("docs/a\"quote", &["l1\nl2"])];
    let text = encode_index_document(&notes);
    let value: serde_json::Value = serde_json::from_str(&text).expect("valid JSON");
    assert_eq!(value["notes"][0]["rel_path"], "docs/a\"quote");
    assert_eq!(value["notes"][0]["labels"][0], "l1\nl2");
}

#[test]
fn parses_what_other_writers_produce() {
    // Build the same document with another JSON writer, pretty-printed,
    // and read it back with this crate's parser.
    let mut obj = serde_json::Map::new();
    let mut rec = serde_json::Map::new();
    rec.insert(
        "rel_path".to_string(),
        serde_json::Value::String("docs/a".to_string()),
    );
    obj.insert(
        "notes".to_string(),
        serde_json::Value::Array(vec![serde_json::Value::Object(rec)]),
    );
    let text = serde_json::to_string_pretty(&serde_json::Value::Object(obj)).unwrap();
    let back = parse_index_document(&text).expect("foreign pretty output parses");
    assert_eq!(back.len(), 1);
    assert_eq!(back[0].rel_path, "docs/a");
    assert!(back[0].labels.is_empty());
}
