use rust_nv::export::{export_output, html_escape, ExportFormat};
use rust_nv::highlight::{byte_offset_to_char_offset, char_offset_to_byte_offset};
use rust_nv::import::{
    csv_to_markdown_table, html_to_markdown, import_file, import_format, parse_csv_line,
    try_html_to_markdown, try_import_file, ImportFormat,
};
use rust_nv::markup::parse;
use rust_nv::note::{Note, NoteStore, SortField, Timestamp};
use rust_nv::search::{score_note, search_notes};
use rust_nv::storage::{
    change_for_event, duplicate_note_error, is_txt_path, meta_path, note_file_name, note_from_file,
    validate_title, FsChange, NoteMeta, WatchKind,
};
use rust_nv::theme::{highlight_colors, ThemeChoice};
use rust_nv::ui::formatting::{indent_lines, outdent_lines, toggle_surrounding};

fn note(title: &str, content: &str, secs: i64) -> Note {
    Note::new(title.to_string(), content.to_string(), format!("{}.txt", title), Timestamp { secs, nanos: 0 })
}

// ─── Laws on concrete values ────────────────────────────────────────────────

#[test]
fn law_toggle_twice_restores_text() {
    let (wrapped, s, e) = toggle_surrounding("hello world", 6, 11, "**");
    let (back, s2, e2) = toggle_surrounding(&wrapped, s, e, "**");
    assert_eq!(back, "hello world");
    assert_eq!((s2, e2), (6, 11));
}

#[test]
fn law_indent_then_outdent_restores_text() {
    let original = "  a\n\nb\nc\n";
    let n = original.chars().count();
    let (indented, _, _) = indent_lines(original, 0, n);
    let (back, _, _) = outdent_lines(&indented, 0, indented.chars().count());
    assert_eq!(back, original);
}

#[test]
fn law_offsets_roundtrip_on_every_boundary() {
    let text = "a\u{e9}\u{1f600}z";
    for c in 0..=text.chars().count() {
        let b = char_offset_to_byte_offset(text, c);
        assert_eq!(byte_offset_to_char_offset(text, b), c);
    }
}

#[test]
fn law_markup_spans_tile_the_text() {
    let text = "# Head **bold** `code`\n> quote https://x.y/z\n";
    let spans = parse(text);
    let mut pos = 0;
    for (r, _) in &spans {
        assert_eq!(r.start, pos);
        assert!(r.start < r.end);
        pos = r.end;
    }
    assert_eq!(pos, text.len());
}

#[test]
fn law_search_empty_query_lists_all_in_order() {
    let mut store = NoteStore::new();
    store.add(note("b", "", 0));
    store.add(note("a", "", 0));
    assert_eq!(search_notes(&store, ""), vec![0, 1]);
}

#[test]
fn law_search_results_best_score_first() {
    let mut store = NoteStore::new();
    store.add(note("Other", "rust in body", 0));
    store.add(note("rust tips", "", 0));
    store.add(note("Rust", "", 0));
    store.add(note("nothing", "here", 0));
    let r = search_notes(&store, "rust");
    assert_eq!(r, vec![2, 1, 0]);
    let scores: Vec<i32> = r
        .iter()
        .map(|&i| {
            let n = store.get(i).unwrap();
            score_note(&n.title_lower, &n.content_lower, &n.tags_lower, "rust").unwrap()
        })
        .collect();
    assert!(scores.windows(2).all(|w| w[0] >= w[1]));
}

#[test]
fn law_add_tag_twice_is_add_tag_once() {
    let mut a = note("t", "", 0);
    a.add_tag(" Rust ");
    let tags = a.tags.clone();
    a.add_tag("RUST");
    assert_eq!(a.tags, tags);
    assert_eq!(a.tags_lower, vec!["rust"]);
}

#[test]
fn law_find_by_title_after_add() {
    let mut store = NoteStore::new();
    store.add(note("Same", "", 0));
    store.add(note("SAME", "", 0));
    assert_eq!(store.find_by_title("same"), Some(1));
    store.rebuild_index();
    assert_eq!(store.find_by_title("same"), Some(1));
}

#[test]
fn law_sort_by_modified_newest_first() {
    let mut store = NoteStore::new();
    store.add(note("a", "", 1));
    store.add(note("b", "", 3));
    store.add(note("c", "", 2));
    store.add(note("d", "", 3));
    store.sort_by_modified();
    let titles: Vec<&str> = store.notes.iter().map(|n| n.title.as_str()).collect();
    assert_eq!(titles, vec!["b", "d", "c", "a"]);
    assert_eq!(store.find_by_title("c"), Some(2));
}

#[test]
fn law_html_escape_removes_specials() {
    let e = html_escape("<a href=\"x\">&</a>");
    assert_eq!(e, "&lt;a href=&quot;x&quot;&gt;&amp;&lt;/a&gt;");
    assert!(!e.contains('<') && !e.contains('>') && !e.contains('"'));
}

#[test]
fn law_theme_toggle_twice() {
    for t in ThemeChoice::all() {
        assert_eq!(t.toggle().toggle(), t);
    }
    assert_eq!(ThemeChoice::Latte.toggle(), ThemeChoice::Mocha);
    assert!(!ThemeChoice::Latte.is_dark());
    assert!(ThemeChoice::Frappe.is_dark());
    assert_eq!(ThemeChoice::Macchiato.label(), "Macchiato");
    assert_eq!(ThemeChoice::default(), ThemeChoice::Mocha);
}

// ─── Outside calls ──────────────────────────────────────────────────────────

#[test]
fn wrapper_markdown_renders() {
    let out = export_output("T", "# Head", ExportFormat::Html);
    assert!(out.contains("<h1>Head</h1>"));
    assert!(!out.contains("# Head"));
}

#[test]
fn wrapper_highlight_colors_alpha() {
    let c = highlight_colors(ThemeChoice::Mocha);
    assert_eq!(c.search_bg.a, 102);
    assert_eq!(c.active_search_bg.a, 153);
    assert_eq!(c.default_text.a, 255);
    assert_eq!(c.link_color.a, 255);
    let l = highlight_colors(ThemeChoice::Latte);
    assert_ne!(c.default_text, l.default_text);
}

#[test]
fn wrapper_palette_values() {
    let m = highlight_colors(ThemeChoice::Mocha);
    assert_eq!((m.default_text.r, m.default_text.g, m.default_text.b), (205, 214, 244));
    assert_eq!((m.search_bg.r, m.search_bg.g, m.search_bg.b), (249, 226, 175));
    assert_eq!((m.active_search_bg.r, m.active_search_bg.g, m.active_search_bg.b), (250, 179, 135));
    assert_eq!((m.link_color.r, m.link_color.g, m.link_color.b), (116, 199, 236));
    let l = highlight_colors(ThemeChoice::Latte);
    assert_eq!((l.default_text.r, l.default_text.g, l.default_text.b), (76, 79, 105));
    assert_eq!((l.link_color.r, l.link_color.g, l.link_color.b), (32, 159, 181));
    let f = highlight_colors(ThemeChoice::Frappe);
    assert_eq!((f.search_bg.r, f.search_bg.g, f.search_bg.b), (229, 200, 144));
    let a = highlight_colors(ThemeChoice::Macchiato);
    assert_eq!((a.active_search_bg.r, a.active_search_bg.g, a.active_search_bg.b), (245, 169, 127));
}

#[test]
fn wrapper_file_stem_and_extension() {
    assert_eq!(import_format("dir/Page.HTM"), Ok(ImportFormat::Html));
    assert_eq!(import_format("a.md"), Ok(ImportFormat::Text));
    assert_eq!(import_format("a.CSV"), Ok(ImportFormat::Csv));
    assert_eq!(
        import_format("a.docx"),
        Err("Unsupported file format: .docx. Supported: .txt, .md, .html, .htm, .csv".to_string())
    );
    assert_eq!(
        import_format("noext"),
        Err("Unsupported file format: .. Supported: .txt, .md, .html, .htm, .csv".to_string())
    );
    assert!(is_txt_path("x/y.txt"));
    assert!(!is_txt_path("x/y.TXT"));
    assert!(!is_txt_path("x/y.txt.meta.json"));
}

// ─── Import ─────────────────────────────────────────────────────────────────

#[test]
fn import_read_error_passes_through() {
    let r = import_file("a.txt", Err("Failed to read".to_string()));
    assert_eq!(r.unwrap_err(), "Failed to read");
    let r = import_file("a.docx", Err("Failed to read".to_string()));
    assert!(r.unwrap_err().starts_with("Unsupported"));
}

#[test]
fn import_title_defaults() {
    let n = import_file("", Ok("x".to_string())).unwrap_err();
    assert!(n.contains("Unsupported"));
    let n = import_file("dir/.txt", Ok("x".to_string())).unwrap_err();
    assert!(n.contains("Unsupported"));
}

#[test]
fn import_html_exact_output() {
    let md = html_to_markdown("<h2>T</h2><ul><li>a</li><li>b</li></ul><p>x &amp; y<br>z</p>");
    assert_eq!(md, "## T\n- a\n- b\n\nx & y\nz");
}

#[test]
fn import_html_link_and_unknown_entity() {
    let md = html_to_markdown("<A HREF='u'>t<b>x</b></a> &copy; <a>plain</a>");
    assert_eq!(md, "[tx](u) &copy; plain");
}

#[test]
fn import_html_style_skipped() {
    let md = html_to_markdown("<STYLE>p{}</style>ok");
    assert_eq!(md, "ok");
}

#[test]
fn import_html_collapses_blank_lines() {
    let md = html_to_markdown("a<br><br><br><br><br>b  ");
    assert_eq!(md, "a\n\n\nb");
}

#[test]
fn import_html_panicking_slice_detected() {
    // The lowercase form of U+0130 is one byte longer, so the position of
    // `</body>` found in the lowercased text falls inside a two-byte char here.
    let html = "<body>\u{130}\u{130}\u{130}\u{130}\u{130}\u{130}\u{130}\u{130}\u{130}\u{130}</body>\u{e9}\u{e9}\u{e9}\u{e9}\u{e9}";
    assert_eq!(try_html_to_markdown(html), None);
    assert_eq!(try_import_file("p.html", Ok(html.to_string())), None);
    assert_eq!(try_html_to_markdown("<p>ok</p>"), Some("ok".to_string()));
}

#[test]
fn import_csv_exact_output() {
    let md = csv_to_markdown_table("a,b\n\n1\n x , \"y,z\" ,w\n");
    assert_eq!(md, "| a | b |  |\n| --- | --- | --- |\n| 1 |  |  |\n| x | y,z | w |");
    assert_eq!(csv_to_markdown_table("  \n\t\n"), "");
    assert_eq!(parse_csv_line(""), vec![""]);
    assert_eq!(parse_csv_line("\"a\"\"b\",c"), vec!["a\"b", "c"]);
}

// ─── Storage ────────────────────────────────────────────────────────────────

#[test]
fn storage_title_rules() {
    assert_eq!(validate_title(" My: Note "), Ok("My Note".to_string()));
    assert_eq!(validate_title(" ?*/ "), Err("Invalid note title".to_string()));
    assert_eq!(note_file_name("My Note"), "My Note.txt");
    assert_eq!(duplicate_note_error("X"), "Note 'X' already exists");
    assert_eq!(meta_path("n/a.txt"), "n/a.txt.meta.json");
}

#[test]
fn storage_watch_events() {
    match change_for_event(WatchKind::Modify, "a.txt".to_string()) {
        Some(FsChange::Modified(p)) => assert_eq!(p, "a.txt"),
        other => panic!("unexpected {:?}", other),
    }
    assert!(change_for_event(WatchKind::Other, "a.txt".to_string()).is_none());
}

#[test]
fn storage_note_from_file() {
    let t = Timestamp { secs: 10, nanos: 0 };
    let c = Timestamp { secs: 5, nanos: 0 };
    let meta = NoteMeta { tags: vec!["Rust".to_string()] };
    let n = note_from_file("dir/Hello.txt", "Body".to_string(), t, c, meta).unwrap();
    assert_eq!(n.title, "Hello");
    assert_eq!(n.content_lower, "body");
    assert_eq!(n.tags_lower, vec!["rust"]);
    assert!(!n.tags_dirty && !n.dirty);
    assert_eq!((n.modified, n.created), (t, c));
    assert!(note_from_file("", String::new(), t, c, NoteMeta::default()).is_none());
    let plain = note_from_file("x.txt", String::new(), t, c, NoteMeta::default()).unwrap();
    assert!(plain.tags.is_empty());
}

// ─── Notes ──────────────────────────────────────────────────────────────────

#[test]
fn note_get_mut_and_index_staleness() {
    let mut store = NoteStore::new();
    store.add(note("Old", "", 0));
    store.get_mut(0).unwrap().update_title("New".to_string());
    assert_eq!(store.find_by_title("old"), Some(0));
    assert_eq!(store.find_by_title("new"), None);
    store.rebuild_index();
    assert_eq!(store.find_by_title("new"), Some(0));
    assert!(store.get_mut(3).is_none());
    assert!(store.get(3).is_none());
}

#[test]
fn note_update_content_changes_time_and_flags() {
    let mut n = note("t", "same", 0);
    n.update_content("same".to_string());
    assert!(!n.dirty);
    assert_eq!(n.modified, Timestamp { secs: 0, nanos: 0 });
    n.update_content("New".to_string());
    assert!(n.dirty);
    assert_eq!(n.content_lower, "new");
    assert!(n.modified > Timestamp { secs: 0, nanos: 0 });
}

#[test]
fn note_timestamp_order() {
    let a = Timestamp { secs: 1, nanos: 5 };
    let b = Timestamp { secs: 1, nanos: 6 };
    let c = Timestamp { secs: 2, nanos: 0 };
    assert!(a.before(&b) && b.before(&c) && !c.before(&a) && !a.before(&a));
    assert_eq!(SortField::default(), SortField::DateModified);
}
