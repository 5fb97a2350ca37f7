use rust_nv::export::ExportFormat;
use rust_nv::note::{Note, NoteStore, SortField, Timestamp};
use rust_nv::session::{
    apply_sort, bookmark_position, cursor_for_match, export_format_for, find_next_index,
    find_prev_index, free_bookmark_slot, keep_selection, navigate_list, print_file_stem,
    range_selection, rename_title, search_enter_action, split_paste, tab_autocomplete_match,
    tag_suggestions, toggle_bookmark, toggle_sort, SearchEnterAction,
};

fn note_at(title: &str, secs: i64) -> Note {
    Note::new(
        title.to_string(),
        String::new(),
        format!("{}.txt", title),
        Timestamp { secs, nanos: 0 },
    )
}

fn store_of(titles: &[&str]) -> NoteStore {
    let mut store = NoteStore::new();
    for (i, t) in titles.iter().enumerate() {
        store.add(note_at(t, i as i64));
    }
    store
}

#[test]
fn session_navigate_moves_and_clamps() {
    let filtered = vec![4, 2, 7];
    assert_eq!(navigate_list(&filtered, Some(2), 1), Some(7));
    assert_eq!(navigate_list(&filtered, Some(7), 1), Some(7));
    assert_eq!(navigate_list(&filtered, Some(4), -1), Some(4));
    assert_eq!(navigate_list(&filtered, None, 1), Some(2));
    assert_eq!(navigate_list(&filtered, Some(9), -1), Some(4));
}

#[test]
fn session_navigate_empty_list_keeps_selection() {
    assert_eq!(navigate_list(&[], Some(3), 1), Some(3));
    assert_eq!(navigate_list(&[], None, -1), None);
}

#[test]
fn session_keep_selection() {
    assert_eq!(keep_selection(&[3, 1], Some(1)), Some(1));
    assert_eq!(keep_selection(&[3, 1], Some(5)), Some(3));
    assert_eq!(keep_selection(&[3, 1], None), Some(3));
    assert_eq!(keep_selection(&[], Some(5)), None);
}

#[test]
fn session_range_selection() {
    let filtered = vec![10, 11, 12, 13, 14];
    assert_eq!(range_selection(&filtered, Some(11), 3), vec![11, 12, 13]);
    assert_eq!(range_selection(&filtered, Some(13), 0), vec![10, 11, 12, 13]);
    assert_eq!(range_selection(&filtered, None, 9), vec![10, 11, 12, 13, 14]);
}

#[test]
fn session_apply_sort_by_title_both_ways() {
    let store = store_of(&["Zebra", "apple", "Mango"]);
    let mut idx = vec![0, 1, 2];
    apply_sort(&store, &mut idx, SortField::Title, true);
    assert_eq!(idx, vec![1, 2, 0]);
    apply_sort(&store, &mut idx, SortField::Title, false);
    assert_eq!(idx, vec![0, 2, 1]);
}

#[test]
fn session_apply_sort_is_stable_for_equal_keys() {
    let mut store = NoteStore::new();
    store.add(note_at("B", 5));
    store.add(note_at("A", 5));
    store.add(note_at("C", 1));
    let mut idx = vec![0, 1, 2];
    apply_sort(&store, &mut idx, SortField::DateModified, false);
    assert_eq!(idx, vec![0, 1, 2]);
    apply_sort(&store, &mut idx, SortField::DateModified, true);
    assert_eq!(idx, vec![2, 0, 1]);
}

#[test]
fn session_toggle_sort() {
    assert_eq!(toggle_sort(SortField::Title, true, SortField::Title), (SortField::Title, false));
    assert_eq!(
        toggle_sort(SortField::Title, true, SortField::DateCreated),
        (SortField::DateCreated, false)
    );
    assert_eq!(toggle_sort(SortField::DateModified, false, SortField::Title), (SortField::Title, true));
}

#[test]
fn session_find_next_and_prev_wrap() {
    assert_eq!(find_next_index(3, None, false), Some(0));
    assert_eq!(find_next_index(3, Some(2), false), Some(0));
    assert_eq!(find_next_index(3, Some(0), false), Some(1));
    assert_eq!(find_next_index(0, None, false), None);
    assert_eq!(find_next_index(3, None, true), None);
    assert_eq!(find_prev_index(3, None, false), Some(2));
    assert_eq!(find_prev_index(3, Some(0), false), Some(2));
    assert_eq!(find_prev_index(3, Some(2), false), Some(1));
    assert_eq!(find_prev_index(0, Some(1), false), None);
}

#[test]
fn session_cursor_for_match_is_a_char_offset() {
    let content = "caf\u{e9} caf\u{e9}";
    assert_eq!(cursor_for_match(content, "CAF", 0), Some(0));
    assert_eq!(cursor_for_match(content, "caf", 1), Some(5));
    assert_eq!(cursor_for_match(content, "caf", 2), None);
}

#[test]
fn session_bookmarks() {
    let mut store = store_of(&["A", "B", "C"]);
    assert_eq!(free_bookmark_slot(&store), Some(1));
    toggle_bookmark(&mut store, Some(1));
    assert!(store.get(1).unwrap().bookmarked);
    assert_eq!(store.get(1).unwrap().bookmark_slot, Some(1));
    toggle_bookmark(&mut store, Some(2));
    assert_eq!(store.get(2).unwrap().bookmark_slot, Some(2));
    assert_eq!(bookmark_position(&store, 2), Some(2));
    assert_eq!(bookmark_position(&store, 3), None);
    toggle_bookmark(&mut store, Some(1));
    assert!(!store.get(1).unwrap().bookmarked);
    assert_eq!(store.get(1).unwrap().bookmark_slot, None);
    assert_eq!(free_bookmark_slot(&store), Some(1));
    toggle_bookmark(&mut store, None);
    toggle_bookmark(&mut store, Some(9));
    assert_eq!(store.len(), 3);
}

#[test]
fn session_bookmarks_full() {
    let mut store = NoteStore::new();
    for i in 1u8..=9 {
        let mut n = note_at(&format!("N{}", i), 0);
        n.bookmarked = true;
        n.bookmark_slot = Some(i);
        store.add(n);
    }
    store.add(note_at("Extra", 0));
    assert_eq!(free_bookmark_slot(&store), None);
    toggle_bookmark(&mut store, Some(9));
    assert!(store.get(9).unwrap().bookmarked);
    assert_eq!(store.get(9).unwrap().bookmark_slot, None);
}

#[test]
fn session_tab_autocomplete() {
    let store = store_of(&["Rust Guide", "Python Guide", "Rust Tutorial"]);
    assert_eq!(tab_autocomplete_match(&store, &[1, 2, 0], "RUST"), Some(2));
    assert_eq!(tab_autocomplete_match(&store, &[0, 1, 2], "rust"), Some(0));
    assert_eq!(tab_autocomplete_match(&store, &[0, 1, 2], "xyz"), None);
    assert_eq!(tab_autocomplete_match(&store, &[0, 1, 2], ""), None);
}

#[test]
fn session_search_enter_actions() {
    let store = store_of(&["Alpha", "Beta note"]);
    assert_eq!(search_enter_action(&store, &[0, 1], "   "), SearchEnterAction::Nothing);
    assert_eq!(search_enter_action(&store, &[1, 0], " alpha "), SearchEnterAction::Select(0));
    assert_eq!(search_enter_action(&store, &[1], "beta"), SearchEnterAction::Select(1));
    assert_eq!(
        search_enter_action(&store, &[1], "note"),
        SearchEnterAction::Create("note".to_string())
    );
    assert_eq!(
        search_enter_action(&store, &[], "New one"),
        SearchEnterAction::Create("New one".to_string())
    );
}

#[test]
fn session_rename_title() {
    assert_eq!(rename_title("  New  "), Ok("New".to_string()));
    assert_eq!(rename_title("   "), Err("Title cannot be empty".to_string()));
}

#[test]
fn session_tag_suggestions() {
    let mut store = NoteStore::new();
    let mut a = note_at("A", 0);
    a.add_tag("Rust");
    a.add_tag("trust");
    a.add_tag("python");
    store.add(a);
    let mut b = note_at("B", 0);
    b.add_tag("rust");
    store.add(b);
    assert_eq!(tag_suggestions(&store, None, " RU "), vec!["Rust", "trust"]);
    assert_eq!(tag_suggestions(&store, Some(1), "ru"), vec!["trust"]);
    assert!(tag_suggestions(&store, None, "   ").is_empty());
}

#[test]
fn session_tag_suggestions_at_most_eight() {
    let mut store = NoteStore::new();
    let mut a = note_at("A", 0);
    for i in 0..12 {
        a.add_tag(&format!("tag{:02}", i));
    }
    store.add(a);
    let s = tag_suggestions(&store, None, "tag");
    assert_eq!(s.len(), 8);
    assert_eq!(s[0], "tag00");
    assert_eq!(s[7], "tag07");
}

#[test]
fn session_split_paste() {
    assert_eq!(split_paste("  \n "), None);
    assert_eq!(
        split_paste("Title line\nbody one\r\nbody two"),
        Some(("Title line".to_string(), "body one\nbody two".to_string()))
    );
    let long = "x".repeat(60);
    let (t, c) = split_paste(&long).unwrap();
    assert_eq!(t.chars().count(), 50);
    assert_eq!(c, "");
}

#[test]
fn session_print_file_stem() {
    assert_eq!(print_file_stem("a/b: \"c\"?"), "ab c");
}

#[test]
fn session_export_format_for() {
    assert_eq!(export_format_for(Some("html")), ExportFormat::Html);
    assert_eq!(export_format_for(Some("htm")), ExportFormat::Html);
    assert_eq!(export_format_for(Some("md")), ExportFormat::Markdown);
    assert_eq!(export_format_for(Some("txt")), ExportFormat::PlainText);
    assert_eq!(export_format_for(None), ExportFormat::PlainText);
}
