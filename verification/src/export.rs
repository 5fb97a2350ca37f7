//! Export of notes as plain text, markdown or a self-contained HTML document.
use vstd::prelude::*;
use crate::text::{chars_of, push_str, string_from_chars, to_string};

verus! {

/// Supported export formats.
#[derive(Debug, Clone, Copy, PartialEq, Eq, Structural)]
pub enum ExportFormat {
    PlainText,
    Html,
    Markdown,
}

impl ExportFormat {
    /// File extension for this format.
    pub fn extension(&self) -> (r: &'static str)
        ensures
            r@ == match *self {
                ExportFormat::PlainText => "txt"@,
                ExportFormat::Html => "html"@,
                ExportFormat::Markdown => "md"@,
            },
    {
        match self {
            ExportFormat::PlainText => "txt",
            ExportFormat::Html => "html",
            ExportFormat::Markdown => "md",
        }
    }

    /// Display label for this format.
    pub fn label(&self) -> (r: &'static str)
        ensures
            r@ == match *self {
                ExportFormat::PlainText => "Plain Text (.txt)"@,
                ExportFormat::Html => "HTML (.html)"@,
                ExportFormat::Markdown => "Markdown (.md)"@,
            },
    {
        match self {
            ExportFormat::PlainText => "Plain Text (.txt)",
            ExportFormat::Html => "HTML (.html)",
            ExportFormat::Markdown => "Markdown (.md)",
        }
    }
}

/// The HTML that pulldown-cmark renders for markdown `content` (with
/// strikethrough, tables and task lists enabled).
pub uninterp spec fn cmark_html(content: Seq<char>) -> Seq<char>;

/// Render markdown to HTML with pulldown-cmark (strikethrough, tables and task
/// lists enabled); the result is named `cmark_html` of the content.
#[verifier::external_body]
fn markdown_to_html(content: &str) -> (r: String)
    ensures
        r@ == cmark_html(content@),
{
    let options = pulldown_cmark::Options::ENABLE_STRIKETHROUGH
        | pulldown_cmark::Options::ENABLE_TABLES | pulldown_cmark::Options::ENABLE_TASKLISTS;
    let parser = pulldown_cmark::Parser::new_ext(content, options);
    let mut body_html = String::new();
    pulldown_cmark::html::push_html(&mut body_html, parser);
    body_html
}

/// The escaped form of one char.
pub open spec fn escape_char(c: char) -> Seq<char> {
    if c == '&' {
        seq!['&', 'a', 'm', 'p', ';']
    } else if c == '<' {
        seq!['&', 'l', 't', ';']
    } else if c == '>' {
        seq!['&', 'g', 't', ';']
    } else if c == '"' {
        seq!['&', 'q', 'u', 'o', 't', ';']
    } else {
        seq![c]
    }
}

/// `s` with `&`, `<`, `>` and `"` replaced by their entities.
pub open spec fn escape_spec(s: Seq<char>) -> Seq<char>
    decreases s.len(),
{
    if s.len() == 0 {
        Seq::empty()
    } else {
        escape_spec(s.drop_last()) + escape_char(s.last())
    }
}

/// The escaped text holds no `<`, `>` or `"`.
pub proof fn lemma_escape_removes_specials(s: Seq<char>)
    ensures
        forall|i: int|
            0 <= i < escape_spec(s).len() ==> #[trigger] escape_spec(s)[i] != '<' && escape_spec(
                s,
            )[i] != '>' && escape_spec(s)[i] != '"',
    decreases s.len(),
{
    if s.len() > 0 {
        lemma_escape_removes_specials(s.drop_last());
        let a = escape_spec(s.drop_last());
        let b = escape_char(s.last());
        assert forall|i: int| 0 <= i < escape_spec(s).len() implies #[trigger] escape_spec(s)[i]
            != '<' && escape_spec(s)[i] != '>' && escape_spec(s)[i] != '"' by {
            if i >= a.len() {
                assert(escape_spec(s)[i] == b[i - a.len()]);
            } else {
                assert(escape_spec(s)[i] == a[i]);
            }
        }
    }
}

/// Escape special characters for HTML attribute/text contexts.
pub fn html_escape(s: &str) -> (r: String)
    ensures
        r@ == escape_spec(s@),
{
    let v = chars_of(s);
    let mut out: Vec<char> = Vec::new();
    let mut i: usize = 0;
    while i < v.len()
        invariant
            i <= v@.len(),
            out@ == escape_spec(v@.take(i as int)),
        decreases v@.len() - i,
    {
        let c = v[i];
        let ghost before = out@;
        if c == '&' {
            out.push('&');
            out.push('a');
            out.push('m');
            out.push('p');
            out.push(';');
        } else if c == '<' {
            out.push('&');
            out.push('l');
            out.push('t');
            out.push(';');
        } else if c == '>' {
            out.push('&');
            out.push('g');
            out.push('t');
            out.push(';');
        } else if c == '"' {
            out.push('&');
            out.push('q');
            out.push('u');
            out.push('o');
            out.push('t');
            out.push(';');
        } else {
            out.push(c);
        }
        proof {
            assert(v@.take(i + 1).drop_last() =~= v@.take(i as int));
            assert(v@.take(i + 1).last() == c);
            assert(out@ =~= before + escape_char(c));
        }
        i = i + 1;
    }
    proof {
        assert(v@.take(i as int) =~= v@);
    }
    string_from_chars(out.as_slice())
}

/// The document text before the title.
pub open spec fn doc_head() -> Seq<char> {
    "<!DOCTYPE html>\n<html lang=\"en\">\n<head>\n    <meta charset=\"UTF-8\">\n    <meta name=\"viewport\" content=\"width=device-width, initial-scale=1.0\">\n    <title>"@
}

/// The document text between the title and the heading's text.
pub open spec fn doc_style() -> Seq<char> {
    "</title>\n    <style>\n        body {\n            font-family: -apple-system, BlinkMacSystemFont, \"Segoe UI\", Roboto, \"Helvetica Neue\", Arial, sans-serif;\n            max-width: 800px;\n            margin: 0 auto;\n            padding: 40px 20px;\n            line-height: 1.6;\n            color: #333;\n        }\n        h1 {\n            border-bottom: 2px solid #eee;\n            padding-bottom: 10px;\n        }\n        h2 {\n            border-bottom: 1px solid #eee;\n            padding-bottom: 8px;\n        }\n        code {\n            background: #f4f4f4;\n            padding: 2px 6px;\n            border-radius: 3px;\n            font-family: \"Fira Code\", \"Consolas\", monospace;\n        }\n        pre {\n            background: #f4f4f4;\n            padding: 16px;\n            border-radius: 6px;\n            overflow-x: auto;\n        }\n        pre code {\n            background: none;\n            padding: 0;\n        }\n        blockquote {\n            border-left: 4px solid #ddd;\n            margin-left: 0;\n            padding-left: 16px;\n            color: #666;\n        }\n        table {\n            border-collapse: collapse;\n            width: 100%;\n            margin: 16px 0;\n        }\n        th, td {\n            border: 1px solid #ddd;\n            padding: 8px 12px;\n            text-align: left;\n        }\n        th {\n            background: #f4f4f4;\n        }\n        a {\n            color: #0366d6;\n        }\n        img {\n            max-width: 100%;\n        }\n        @media print {\n            body {\n                max-width: none;\n                padding: 20px;\n            }\n            a {\n                color: #333;\n                text-decoration: underline;\n            }\n        }\n    </style>\n</head>\n<body>\n    <h1>"@
}

/// The document text between the heading and the body.
pub open spec fn doc_mid() -> Seq<char> {
    "</h1>\n    "@
}

/// The document text after the body.
pub open spec fn doc_tail() -> Seq<char> {
    "\n</body>\n</html>"@
}

/// The exported HTML document for an escaped title and rendered body.
pub open spec fn html_doc(title: Seq<char>, body: Seq<char>) -> Seq<char> {
    doc_head() + title + doc_style() + title + doc_mid() + body + doc_tail()
}

/// Convert markdown content to a full self-contained HTML document with print-friendly CSS.
pub fn export_to_html(title: &str, content: &str) -> (r: String)
    ensures
        r@ == html_doc(escape_spec(title@), cmark_html(content@)),
{
    let body_html = markdown_to_html(content);
    html_document(title, body_html.as_str())
}

/// The HTML document for a note titled `title` whose body renders as
/// `body_html`: the escaped title in `<title>` and in the heading, then the body.
pub fn html_document(title: &str, body_html: &str) -> (r: String)
    ensures
        r@ == html_doc(escape_spec(title@), body_html@),
{
    let t = html_escape(title);
    let mut out = to_string("<!DOCTYPE html>\n<html lang=\"en\">\n<head>\n    <meta charset=\"UTF-8\">\n    <meta name=\"viewport\" content=\"width=device-width, initial-scale=1.0\">\n    <title>");
    push_str(&mut out, t.as_str());
    push_str(&mut out, "</title>\n    <style>\n        body {\n            font-family: -apple-system, BlinkMacSystemFont, \"Segoe UI\", Roboto, \"Helvetica Neue\", Arial, sans-serif;\n            max-width: 800px;\n            margin: 0 auto;\n            padding: 40px 20px;\n            line-height: 1.6;\n            color: #333;\n        }\n        h1 {\n            border-bottom: 2px solid #eee;\n            padding-bottom: 10px;\n        }\n        h2 {\n            border-bottom: 1px solid #eee;\n            padding-bottom: 8px;\n        }\n        code {\n            background: #f4f4f4;\n            padding: 2px 6px;\n            border-radius: 3px;\n            font-family: \"Fira Code\", \"Consolas\", monospace;\n        }\n        pre {\n            background: #f4f4f4;\n            padding: 16px;\n            border-radius: 6px;\n            overflow-x: auto;\n        }\n        pre code {\n            background: none;\n            padding: 0;\n        }\n        blockquote {\n            border-left: 4px solid #ddd;\n            margin-left: 0;\n            padding-left: 16px;\n            color: #666;\n        }\n        table {\n            border-collapse: collapse;\n            width: 100%;\n            margin: 16px 0;\n        }\n        th, td {\n            border: 1px solid #ddd;\n            padding: 8px 12px;\n            text-align: left;\n        }\n        th {\n            background: #f4f4f4;\n        }\n        a {\n            color: #0366d6;\n        }\n        img {\n            max-width: 100%;\n        }\n        @media print {\n            body {\n                max-width: none;\n                padding: 20px;\n            }\n            a {\n                color: #333;\n                text-decoration: underline;\n            }\n        }\n    </style>\n</head>\n<body>\n    <h1>");
    push_str(&mut out, t.as_str());
    push_str(&mut out, "</h1>\n    ");
    push_str(&mut out, body_html);
    push_str(&mut out, "\n</body>\n</html>");
    out
}

/// The text an export in `format` writes: the content itself for plain text and
/// markdown, the HTML document for HTML.
pub open spec fn export_spec(title: Seq<char>, content: Seq<char>, format: ExportFormat) -> Seq<
    char,
> {
    match format {
        ExportFormat::PlainText => content,
        ExportFormat::Markdown => content,
        ExportFormat::Html => html_doc(escape_spec(title), cmark_html(content)),
    }
}

/// The text to write when exporting a note in the given format.
pub fn export_output(title: &str, content: &str, format: ExportFormat) -> (r: String)
    ensures
        r@ == export_spec(title@, content@, format),
{
    match format {
        ExportFormat::PlainText => to_string(content),
        ExportFormat::Markdown => to_string(content),
        ExportFormat::Html => export_to_html(title, content),
    }
}

} // verus!
