use rust_nv::storage::sanitize_filename;

#[test]
fn test_sanitize_filename() {
    assert_eq!(sanitize_filename("hello world"), "hello world");
    assert_eq!(sanitize_filename("a/b\\c:d"), "abcd");
    assert_eq!(sanitize_filename("  spaces  "), "spaces");
    assert_eq!(sanitize_filename("***"), "");
}

