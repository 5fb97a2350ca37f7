use rust_nv::storage::{meta_path, sanitize_filename};

#[test]
fn test_sanitize_filename_basic() {
    assert_eq!(sanitize_filename("Hello World"), "Hello World");
}

#[test]
fn test_sanitize_filename_strips_invalid() {
    assert_eq!(sanitize_filename("a/b\\c:d*e?f\"g<h>i|j"), "abcdefghij");
}

#[test]
fn test_sanitize_filename_trims() {
    assert_eq!(sanitize_filename("  spaces  "), "spaces");
}

#[test]
fn test_sanitize_filename_all_invalid() {
    assert_eq!(sanitize_filename("***"), "");
}

#[test]
fn test_meta_path() {
    let note_path = String::from("/tmp/test.txt");
    let meta = meta_path(&note_path);
    assert_eq!(meta, String::from("/tmp/test.txt.meta.json"));
}

