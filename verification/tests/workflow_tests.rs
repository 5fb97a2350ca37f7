use rust_nv::ui::formatting::indent_lines;
use rust_nv::ui::formatting::outdent_lines;
use rust_nv::highlight::matches_in_lowered;
use rust_nv::search::{rank_candidates, tag_filtered};
use rust_nv::export::html_document;
use rust_nv::import::body_from_lowered;
use rust_nv::highlight::find_spans;
use rust_nv::layout::{brighten, combine_sections, combined_look, Background, ColorRole};
use rust_nv::markup::{parse, Style};
use rust_nv::note::{Note, NoteStore, SortField, Timestamp};
use rust_nv::highlight::SpanKind;
use rust_nv::session::{
    apply_external_modify, deletion_order, link_action, link_suggestions, note_index_by_path,
    list_title, refresh_listing, row_label, selection_after_removal, splice_completion,
    url_at_char, SearchEnterAction,
};
use rust_nv::theme::Rgba;
use rust_nv::ui::formatting::{auto_indent, auto_indent_allowed};

fn note_at(title: &str, secs: i64) -> Note {
    Note::new(
        title.to_string(),
        String::new(),
        format!("{}.txt", title),
        Timestamp { secs, nanos: 0 },
    )
}

fn store_of(titles: &[&str]) -> NoteStore {
    let mut store = NoteStore::new();
    for (i, t) in titles.iter().enumerate() {
        store.add(note_at(t, i as i64));
    }
    store
}

#[test]
fn workflow_refresh_listing_sorts_without_query() {
    let store = store_of(&["beta", "Alpha", "gamma"]);
    assert_eq!(refresh_listing(&store, "", SortField::Title, true), vec![1, 0, 2]);
    assert_eq!(refresh_listing(&store, "", SortField::Title, false), vec![2, 0, 1]);
    assert_eq!(refresh_listing(&store, "", SortField::DateModified, false), vec![2, 1, 0]);
}

#[test]
fn workflow_refresh_listing_searches_with_query() {
    let store = store_of(&["beta", "Alpha", "gamma"]);
    assert_eq!(refresh_listing(&store, "alp", SortField::Title, false), vec![1]);
    assert!(refresh_listing(&store, "zzz", SortField::Title, true).is_empty());
}

#[test]
fn workflow_note_index_by_path() {
    let store = store_of(&["one", "two"]);
    assert_eq!(note_index_by_path(&store, "two.txt"), Some(1));
    assert_eq!(note_index_by_path(&store, "one.txt"), Some(0));
    assert_eq!(note_index_by_path(&store, "three.txt"), None);
}

#[test]
fn workflow_external_modify_updates_clean_note() {
    let mut store = store_of(&["one"]);
    let loaded = Note::new(
        "one".to_string(),
        "New Body".to_string(),
        "one.txt".to_string(),
        Timestamp { secs: 99, nanos: 5 },
    );
    assert!(apply_external_modify(&mut store, 0, loaded));
    let n = store.get(0).unwrap();
    assert_eq!(n.content, "New Body");
    assert_eq!(n.content_lower, "new body");
    assert_eq!(n.modified, Timestamp { secs: 99, nanos: 5 });
    assert!(!n.dirty);
}

#[test]
fn workflow_external_modify_keeps_dirty_note() {
    let mut store = store_of(&["one"]);
    store.get_mut(0).unwrap().update_content("mine".to_string());
    let loaded = Note::new(
        "one".to_string(),
        "theirs".to_string(),
        "one.txt".to_string(),
        Timestamp { secs: 99, nanos: 0 },
    );
    assert!(!apply_external_modify(&mut store, 0, loaded));
    assert_eq!(store.get(0).unwrap().content, "mine");
}

#[test]
fn workflow_selection_after_removal() {
    assert_eq!(selection_after_removal(Some(2), 2), None);
    assert_eq!(selection_after_removal(Some(3), 2), Some(3));
    assert_eq!(selection_after_removal(None, 2), None);
}

#[test]
fn workflow_deletion_order_is_descending() {
    assert_eq!(deletion_order(&[3, 9, 1, 4]), vec![9, 4, 3, 1]);
    assert_eq!(deletion_order(&[]), Vec::<usize>::new());
    assert_eq!(deletion_order(&[5]), vec![5]);
}

#[test]
fn workflow_link_suggestions() {
    let store = store_of(&["Rust Notes", "rusty", "Other", "Trust"]);
    assert_eq!(
        link_suggestions(&store, "RUST", "Other"),
        vec!["Rust Notes".to_string(), "rusty".to_string(), "Trust".to_string()]
    );
    assert_eq!(
        link_suggestions(&store, "rust", "rusty"),
        vec!["Rust Notes".to_string(), "Trust".to_string()]
    );
    assert!(link_suggestions(&store, "xyz", "").is_empty());
}

#[test]
fn workflow_link_suggestions_at_most_eight() {
    let titles: Vec<String> = (0..12).map(|i| format!("note {}", i)).collect();
    let refs: Vec<&str> = titles.iter().map(|s| s.as_str()).collect();
    let store = store_of(&refs);
    assert_eq!(link_suggestions(&store, "note", "").len(), 8);
}

#[test]
fn workflow_splice_completion() {
    let (s, c) = splice_completion("see [[wo and", 6, 8, "World]]");
    assert_eq!(s, "see [[World]] and");
    assert_eq!(c, 13);
    let (s, c) = splice_completion("é[[x", 3, 10, "Yé]]");
    assert_eq!(s, "é[[Yé]]");
    assert_eq!(c, 7);
}

#[test]
fn workflow_try_remove_tag() {
    let mut n = note_at("n", 0);
    n.add_tag("Work");
    n.mark_tags_saved();
    assert!(n.try_remove_tag("work"));
    assert!(n.tags.is_empty());
    assert!(n.tags_dirty);
    assert!(n.try_remove_tag("absent"));

    let mut odd = note_at("odd", 0);
    odd.tags_lower.push("ghost".to_string());
    assert!(!odd.try_remove_tag("Ghost"));
    assert_eq!(odd.tags_lower, vec!["ghost".to_string()]);
    assert!(odd.tags.is_empty());
}

#[test]
fn workflow_auto_indent_allowed() {
    assert!(auto_indent_allowed("- item\n", 7));
    assert!(auto_indent_allowed("plain", 2));
    assert!(!auto_indent_allowed("18446744073709551615. x\n", 24));
    assert!(auto_indent_allowed("18446744073709551614. x\n", 24));
    assert_eq!(
        auto_indent("18446744073709551614. x\n", 24),
        Some(("18446744073709551614. x\n18446744073709551615. ".to_string(), 46))
    );
}

#[test]
fn workflow_combine_sections_tiles_text() {
    let text = "**bold** and [[Link]] word";
    let markup = parse(text);
    let spans = find_spans(text, "word", None);
    let sections = combine_sections(&markup, &spans, text.len());
    assert!(!sections.is_empty());
    assert_eq!(sections[0].0.start, 0);
    assert_eq!(sections.last().unwrap().0.end, text.len());
    for w in sections.windows(2) {
        assert_eq!(w[0].0.end, w[1].0.start);
    }
    assert!(sections.iter().all(|s| s.0.start < s.0.end));
    assert!(sections.iter().any(|s| s.2 == SpanKind::WikiLink));
    assert!(sections.iter().any(|s| s.2 == SpanKind::SearchMatch));
    assert!(sections.iter().any(|s| s.1.bold));
}

#[test]
fn workflow_combine_sections_empty_inputs() {
    assert!(combine_sections(&[], &[], 0).is_empty());
    assert!(combine_sections(&[], &[], 5).is_empty());
}

#[test]
fn workflow_combined_look() {
    let mut s = Style::plain_style();
    let plain = combined_look(&s, SpanKind::Normal);
    assert_eq!(plain.color, ColorRole::Text);
    assert_eq!(plain.background, Background::Transparent);
    assert_eq!(plain.heading, 0);

    s.bold = true;
    s.heading = 2;
    let l = combined_look(&s, SpanKind::SearchMatch);
    assert_eq!(l.color, ColorRole::Brightened);
    assert!(l.bold_scaled);
    assert_eq!(l.heading, 2);
    assert_eq!(l.background, Background::Search);

    s.code = true;
    let l = combined_look(&s, SpanKind::WikiLink);
    assert_eq!(l.heading, 0);
    assert!(l.monospace);
    assert!(!l.bold_scaled);
    assert_eq!(l.color, ColorRole::Link);
    assert!(l.underline);
    assert_eq!(l.background, Background::Code);

    let mut q = Style::plain_style();
    q.quote = true;
    let l = combined_look(&q, SpanKind::ActiveSearchMatch);
    assert_eq!(l.color, ColorRole::Dimmed);
    assert!(l.italics);
    assert_eq!(l.background, Background::ActiveSearch);
}

#[test]
fn workflow_brighten_saturates() {
    let c = brighten(Rgba { r: 10, g: 240, b: 235, a: 7 });
    assert_eq!((c.r, c.g, c.b, c.a), (30, 255, 255, 7));
}

#[test]
fn workflow_link_action_selects_existing_note() {
    let store = store_of(&["My Note", "Rust Guide", "Other"]);
    assert_eq!(link_action(&store, "My Note"), SearchEnterAction::Select(0));
    assert_eq!(link_action(&store, "rust guide"), SearchEnterAction::Select(1));
    assert_eq!(link_action(&store, "  Other  "), SearchEnterAction::Select(2));
}

#[test]
fn workflow_link_action_blank_target_does_nothing() {
    let store = store_of(&["My Note"]);
    assert_eq!(link_action(&store, ""), SearchEnterAction::Nothing);
    assert_eq!(link_action(&store, "   "), SearchEnterAction::Nothing);
}

#[test]
fn workflow_link_action_creates_missing_note() {
    let store = store_of(&["My Note"]);
    assert_eq!(
        link_action(&store, "  New Page "),
        SearchEnterAction::Create("New Page".to_string())
    );
}

#[test]
fn workflow_list_title_marks_unsaved() {
    let mut n = note_at("Plan", 0);
    assert_eq!(list_title(&n), "Plan");
    n.update_content("x".to_string());
    assert_eq!(list_title(&n), "● Plan");
}

#[test]
fn workflow_row_label() {
    let mut n = note_at("Plan", 0);
    assert_eq!(row_label(&n, true), "Plan");
    n.add_tag("work");
    n.add_tag("Urgent");
    assert_eq!(row_label(&n, true), "Plan [work, Urgent]");
    assert_eq!(row_label(&n, false), "Plan");
    n.bookmarked = true;
    n.bookmark_slot = Some(3);
    assert_eq!(row_label(&n, true), "[3] Plan [work, Urgent]");
    n.bookmark_slot = None;
    n.update_content("changed".to_string());
    assert_eq!(row_label(&n, false), "* ● Plan");
    n.bookmark_slot = Some(200);
    assert_eq!(row_label(&n, false), "[200] ● Plan");
}

#[test]
fn workflow_url_at_char() {
    let text = "see https://a.io/x and é http://b.org end";
    let r = url_at_char(text, 6).unwrap();
    assert_eq!(&text[r], "https://a.io/x");
    let r = url_at_char(text, 27).unwrap();
    assert_eq!(&text[r], "http://b.org");
    assert!(url_at_char(text, 1).is_none());
    assert!(url_at_char(text, 500).is_none());
}

#[test]
fn workflow_indent_caret_after_newline_indents_its_line_only() {
    assert_eq!(indent_lines("a\nb", 2, 2), ("a\n    b".to_string(), 6, 6));
    assert_eq!(indent_lines("a\nb", 1, 1), ("    a\nb".to_string(), 5, 5));
    assert_eq!(indent_lines("a\n", 2, 2), ("a\n    ".to_string(), 6, 6));
}

#[test]
fn workflow_outdent_caret_at_line_end() {
    assert_eq!(outdent_lines("    hello", 9, 9), ("hello".to_string(), 5, 5));
    assert_eq!(outdent_lines("    a\n    b", 5, 5), ("a\n    b".to_string(), 1, 1));
    let (r, s, e) = outdent_lines("  x\n    y\nz", 3, 9);
    assert_eq!(r, "x\ny\nz");
    assert!(s <= e && e <= r.chars().count());
}

#[test]
fn workflow_matches_in_lowered() {
    let m = matches_in_lowered("Héllo HÉLLO", "héllo héllo", "él");
    assert_eq!(m, vec![1..4, 8..11]);
    assert!(matches_in_lowered("abc", "abc", "zz").is_empty());
}

#[test]
fn workflow_rank_and_filter_lowered() {
    let mut store = NoteStore::new();
    let mut a = note_at("Alpha", 0);
    a.add_tag("Work");
    store.add(a);
    store.add(note_at("beta alpha", 1));
    store.add(note_at("alpha", 2));
    assert_eq!(tag_filtered(&store, &["work".to_string()]), vec![0]);
    assert_eq!(tag_filtered(&store, &[]), vec![0, 1, 2]);
    assert_eq!(rank_candidates(&store, &[0, 1, 2], "alpha"), vec![0, 2, 1]);
    assert_eq!(rank_candidates(&store, &[1], "zzz"), Vec::<usize>::new());
}

#[test]
fn workflow_html_document_and_body() {
    let doc = html_document("A & B", "<p>x</p>");
    assert!(doc.contains("<title>A &amp; B</title>"));
    assert!(doc.contains("<h1>A &amp; B</h1>\n    <p>x</p>\n</body>"));
    assert_eq!(
        body_from_lowered("<HTML><BODY class=x>Hi</BODY></HTML>", "<html><body class=x>hi</body></html>"),
        Some("Hi".to_string())
    );
    assert_eq!(body_from_lowered("plain", "plain"), Some("plain".to_string()));
}
