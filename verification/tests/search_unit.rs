use rust_nv::note::{Note, NoteStore, Timestamp};
use rust_nv::search::{parse_query, score_note, search_notes};

#[test]
fn test_score_note_no_match() {
    assert_eq!(score_note("hello", "world", &[], "xyz"), None);
}

#[test]
fn test_score_note_title_match() {
    let score = score_note("hello world", "some content", &[], "hello");
    assert!(score.is_some());
    assert!(score.unwrap() >= 100);
}

#[test]
fn test_score_note_exact_title() {
    let score = score_note("hello", "content", &[], "hello");
    assert!(score.is_some());
    assert!(score.unwrap() >= 1000);
}

#[test]
fn test_score_note_content_only() {
    let score = score_note("title", "hello world", &[], "hello");
    assert!(score.is_some());
    assert!(score.unwrap() >= 10);
    assert!(score.unwrap() < 100);
}

#[test]
fn test_score_note_tag_exact_match() {
    let tags = vec!["rust".to_string()];
    let score = score_note("unrelated", "unrelated", &tags, "rust");
    assert!(score.is_some());
    assert!(score.unwrap() >= 200);
}

#[test]
fn test_score_note_tag_substring_match() {
    let tags = vec!["rustlang".to_string()];
    let score = score_note("unrelated", "unrelated", &tags, "rust");
    assert!(score.is_some());
    assert!(score.unwrap() >= 50);
    // Should be less than exact tag match
    let exact_tags = vec!["rust".to_string()];
    let exact_score = score_note("unrelated", "unrelated", &exact_tags, "rust").unwrap();
    assert!(exact_score > score.unwrap());
}

#[test]
fn test_search_notes_empty_query_returns_all() {
    let mut store = NoteStore::new();
    store.add(Note::new(
        "A".into(),
        "a".into(),
        "a.txt".into(),
        local_now(),
    ));
    store.add(Note::new(
        "B".into(),
        "b".into(),
        "b.txt".into(),
        local_now(),
    ));
    let results = search_notes(&store, "");
    assert_eq!(results.len(), 2);
}

#[test]
fn test_search_notes_filters() {
    let mut store = NoteStore::new();
    store.add(Note::new(
        "Rust notes".into(),
        "learning rust".into(),
        "rust.txt".into(),
        local_now(),
    ));
    store.add(Note::new(
        "Python notes".into(),
        "learning python".into(),
        "python.txt".into(),
        local_now(),
    ));
    let results = search_notes(&store, "rust");
    assert_eq!(results.len(), 1);
    assert_eq!(results[0], 0);
}

#[test]
fn test_search_notes_relevance_order() {
    let mut store = NoteStore::new();
    store.add(Note::new(
        "Other".into(),
        "contains rust in body".into(),
        "other.txt".into(),
        local_now(),
    ));
    store.add(Note::new(
        "Rust".into(),
        "exact title".into(),
        "rust.txt".into(),
        local_now(),
    ));
    let results = search_notes(&store, "rust");
    assert_eq!(results.len(), 2);
    // Exact title match should come first
    assert_eq!(results[0], 1);
}

#[test]
fn search_test_parse_query_no_tags() {
    let parsed = parse_query("hello world");
    assert!(parsed.tag_filters.is_empty());
    assert_eq!(parsed.text_query, "hello world");
}

#[test]
fn search_test_parse_query_with_tags() {
    let parsed = parse_query("tag:rust tag:tutorial some text");
    assert_eq!(parsed.tag_filters, vec!["rust", "tutorial"]);
    assert_eq!(parsed.text_query, "some text");
}

#[test]
fn search_test_parse_query_only_tags() {
    let parsed = parse_query("tag:rust tag:guide");
    assert_eq!(parsed.tag_filters, vec!["rust", "guide"]);
    assert_eq!(parsed.text_query, "");
}

#[test]
fn search_test_parse_query_empty_tag_ignored() {
    let parsed = parse_query("tag: hello");
    assert!(parsed.tag_filters.is_empty());
    assert_eq!(parsed.text_query, "hello");
}

#[test]
fn test_search_notes_tag_prefix_filter() {
    let mut store = NoteStore::new();
    let mut note1 = Note::new(
        "Rust Guide".into(),
        "learning rust".into(),
        "rust.txt".into(),
        local_now(),
    );
    note1.add_tag("rust");
    note1.add_tag("tutorial");
    store.add(note1);

    let mut note2 = Note::new(
        "Python Guide".into(),
        "learning python".into(),
        "python.txt".into(),
        local_now(),
    );
    note2.add_tag("python");
    store.add(note2);

    // Filter by tag:rust should only return note1
    let results = search_notes(&store, "tag:rust");
    assert_eq!(results.len(), 1);
    assert_eq!(results[0], 0);

    // Filter by tag:rust with text query
    let results = search_notes(&store, "tag:rust guide");
    assert_eq!(results.len(), 1);
    assert_eq!(results[0], 0);

    // Filter by tag that no note has
    let results = search_notes(&store, "tag:javascript");
    assert!(results.is_empty());
}

fn local_now() -> Timestamp {
    let t = chrono::Local::now();
    Timestamp {
        secs: t.timestamp(),
        nanos: t.timestamp_subsec_nanos(),
    }
}
