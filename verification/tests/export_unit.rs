use rust_nv::export::{export_output, export_to_html, ExportFormat};

#[test]
fn test_export_format_extension() {
    assert_eq!(ExportFormat::PlainText.extension(), "txt");
    assert_eq!(ExportFormat::Html.extension(), "html");
    assert_eq!(ExportFormat::Markdown.extension(), "md");
}

#[test]
fn test_export_to_html_contains_title() {
    let html = export_to_html("My Note", "Hello world");
    assert!(html.contains("<title>My Note</title>"));
    assert!(html.contains("<h1>My Note</h1>"));
}

#[test]
fn test_export_to_html_contains_content() {
    let html = export_to_html("Test", "**bold** and *italic*");
    assert!(html.contains("<strong>bold</strong>"));
    assert!(html.contains("<em>italic</em>"));
}

#[test]
fn test_export_to_html_has_print_css() {
    let html = export_to_html("Test", "content");
    assert!(html.contains("@media print"));
}

#[test]
fn test_export_to_html_is_self_contained() {
    let html = export_to_html("Test", "content");
    assert!(html.contains("<!DOCTYPE html>"));
    assert!(html.contains("<html"));
    assert!(html.contains("</html>"));
    assert!(html.contains("<style>"));
}

#[test]
fn test_export_to_html_escapes_title() {
    let html = export_to_html("Test <script>", "content");
    assert!(html.contains("Test &lt;script&gt;"));
    assert!(!html.contains("<title>Test <script>"));
}

#[test]
fn test_export_to_html_tables() {
    let md = "| A | B |\n| --- | --- |\n| 1 | 2 |";
    let html = export_to_html("Test", md);
    assert!(html.contains("<table>"));
    assert!(html.contains("<th>"));
}

#[test]
fn test_export_note_plain_text() {
    let content = export_output("Title", "Hello world", ExportFormat::PlainText);
    assert_eq!(content, "Hello world");
}

#[test]
fn test_export_note_markdown() {
    let content = export_output("Title", "# Hello\n\n**bold**", ExportFormat::Markdown);
    assert_eq!(content, "# Hello\n\n**bold**");
}

#[test]
fn test_export_note_html() {
    let content = export_output("My Note", "Hello", ExportFormat::Html);
    assert!(content.contains("<!DOCTYPE html>"));
    assert!(content.contains("My Note"));
}
