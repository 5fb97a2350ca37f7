use rust_nv::markup::{parse, Style};
use std::ops::Range;

fn assert_full_coverage(spans: &[(Range<usize>, Style)], text_len: usize) {
    if text_len == 0 {
        assert!(spans.is_empty(), "Empty text should have no spans");
        return;
    }
    let mut covered = vec![false; text_len];
    for (range, _) in spans {
        assert!(range.start < range.end, "Empty range found: {:?}", range);
        assert!(
            range.end <= text_len,
            "Range {:?} exceeds text length {}",
            range,
            text_len
        );
        for i in range.start..range.end {
            assert!(!covered[i], "Byte {} covered more than once", i);
            covered[i] = true;
        }
    }
    for (i, c) in covered.iter().enumerate() {
        assert!(*c, "Byte {} not covered", i);
    }
}

fn assert_sorted(spans: &[(Range<usize>, Style)]) {
    for w in spans.windows(2) {
        assert!(
            w[0].0.end <= w[1].0.start,
            "Spans overlap or out of order: {:?} and {:?}",
            w[0].0,
            w[1].0
        );
    }
}

#[test]
fn test_empty_text() {
    let spans = parse("");
    assert!(spans.is_empty());
}

#[test]
fn test_plain_text() {
    let text = "Hello, world!";
    let spans = parse(text);
    assert_full_coverage(&spans, text.len());
    for (_, style) in &spans {
        assert_eq!(*style, Style::default());
    }
}

#[test]
fn test_bold() {
    let text = "before **bold** after";
    let spans = parse(text);
    assert_full_coverage(&spans, text.len());
    assert_sorted(&spans);

    let bold_spans: Vec<_> = spans.iter().filter(|(_, s)| s.bold).collect();
    assert_eq!(bold_spans.len(), 1);
    assert_eq!(&text[bold_spans[0].0.clone()], "**bold**");
}

#[test]
fn markup_test_italic_asterisk() {
    let text = "before *italic* after";
    let spans = parse(text);
    assert_full_coverage(&spans, text.len());
    assert_sorted(&spans);

    let italic_spans: Vec<_> = spans.iter().filter(|(_, s)| s.italic).collect();
    assert_eq!(italic_spans.len(), 1);
    assert_eq!(&text[italic_spans[0].0.clone()], "*italic*");
}

#[test]
fn markup_test_italic_underscore() {
    let text = "before _italic_ after";
    let spans = parse(text);
    assert_full_coverage(&spans, text.len());
    assert_sorted(&spans);

    let italic_spans: Vec<_> = spans.iter().filter(|(_, s)| s.italic).collect();
    assert_eq!(italic_spans.len(), 1);
    assert_eq!(&text[italic_spans[0].0.clone()], "_italic_");
}

#[test]
fn markup_test_strikethrough() {
    let text = "before ~~struck~~ after";
    let spans = parse(text);
    assert_full_coverage(&spans, text.len());
    assert_sorted(&spans);

    let strike_spans: Vec<_> = spans.iter().filter(|(_, s)| s.strikethrough).collect();
    assert_eq!(strike_spans.len(), 1);
    assert_eq!(&text[strike_spans[0].0.clone()], "~~struck~~");
}

#[test]
fn markup_test_inline_code() {
    let text = "before `code` after";
    let spans = parse(text);
    assert_full_coverage(&spans, text.len());
    assert_sorted(&spans);

    let code_spans: Vec<_> = spans.iter().filter(|(_, s)| s.code).collect();
    assert_eq!(code_spans.len(), 1);
    assert_eq!(&text[code_spans[0].0.clone()], "`code`");
}

#[test]
fn test_heading_levels() {
    for level in 1u8..=6 {
        let prefix = "#".repeat(level as usize);
        let text = format!("{} Heading text", prefix);
        let spans = parse(&text);
        assert_full_coverage(&spans, text.len());
        for (_, style) in &spans {
            assert_eq!(style.heading, level, "Expected heading level {}", level);
        }
    }
}

#[test]
fn test_heading_without_space_is_not_heading() {
    let text = "#NotAHeading";
    let spans = parse(text);
    assert_full_coverage(&spans, text.len());
    for (_, style) in &spans {
        assert_eq!(style.heading, 0);
    }
}

#[test]
fn test_heading_level_7_not_recognized() {
    let text = "####### Not a heading";
    let spans = parse(text);
    assert_full_coverage(&spans, text.len());
    for (_, style) in &spans {
        assert_eq!(style.heading, 0);
    }
}

#[test]
fn test_quote() {
    let text = "> This is a quote";
    let spans = parse(text);
    assert_full_coverage(&spans, text.len());
    for (_, style) in &spans {
        assert!(style.quote);
    }
}

#[test]
fn test_quote_without_space() {
    let text = ">not a quote";
    let spans = parse(text);
    assert_full_coverage(&spans, text.len());
    for (_, style) in &spans {
        assert!(!style.quote);
    }
}

#[test]
fn markup_test_url_https() {
    let text = "Visit https://example.com for more";
    let spans = parse(text);
    assert_full_coverage(&spans, text.len());
    assert_sorted(&spans);

    let url_spans: Vec<_> = spans.iter().filter(|(_, s)| s.url).collect();
    assert_eq!(url_spans.len(), 1);
    let (range, _) = url_spans[0];
    assert_eq!(&text[range.clone()], "https://example.com");
}

#[test]
fn markup_test_url_http() {
    let text = "Visit http://example.com here";
    let spans = parse(text);
    assert_full_coverage(&spans, text.len());

    let url_spans: Vec<_> = spans.iter().filter(|(_, s)| s.url).collect();
    assert_eq!(url_spans.len(), 1);
    let (range, _) = url_spans[0];
    assert_eq!(&text[range.clone()], "http://example.com");
}

#[test]
fn markup_test_url_mailto() {
    let text = "Email mailto:user@example.com please";
    let spans = parse(text);
    assert_full_coverage(&spans, text.len());

    let url_spans: Vec<_> = spans.iter().filter(|(_, s)| s.url).collect();
    assert_eq!(url_spans.len(), 1);
    let (range, _) = url_spans[0];
    assert_eq!(&text[range.clone()], "mailto:user@example.com");
}

#[test]
fn test_url_stops_at_bracket() {
    let text = "See [https://example.com] for info";
    let spans = parse(text);
    assert_full_coverage(&spans, text.len());

    let url_spans: Vec<_> = spans.iter().filter(|(_, s)| s.url).collect();
    assert_eq!(url_spans.len(), 1);
    let (range, _) = url_spans[0];
    assert_eq!(&text[range.clone()], "https://example.com");
}

#[test]
fn test_url_stops_at_paren() {
    let text = "(https://example.com)";
    let spans = parse(text);
    assert_full_coverage(&spans, text.len());

    let url_spans: Vec<_> = spans.iter().filter(|(_, s)| s.url).collect();
    assert_eq!(url_spans.len(), 1);
    let (range, _) = url_spans[0];
    assert_eq!(&text[range.clone()], "https://example.com");
}

#[test]
fn test_code_span_preserves_delimiters() {
    // Delimiters inside code spans should not be interpreted
    let text = "`**not bold**`";
    let spans = parse(text);
    assert_full_coverage(&spans, text.len());

    let code_spans: Vec<_> = spans.iter().filter(|(_, s)| s.code).collect();
    assert_eq!(code_spans.len(), 1);
    let bold_spans: Vec<_> = spans.iter().filter(|(_, s)| s.bold).collect();
    assert_eq!(bold_spans.len(), 0);
}

#[test]
fn test_unmatched_bold_delimiter() {
    let text = "before **unmatched after";
    let spans = parse(text);
    assert_full_coverage(&spans, text.len());
    // Should not have any bold spans
    let bold_spans: Vec<_> = spans.iter().filter(|(_, s)| s.bold).collect();
    assert_eq!(bold_spans.len(), 0);
}

#[test]
fn test_unmatched_italic_delimiter() {
    let text = "before *unmatched after";
    let spans = parse(text);
    assert_full_coverage(&spans, text.len());
    let italic_spans: Vec<_> = spans.iter().filter(|(_, s)| s.italic).collect();
    assert_eq!(italic_spans.len(), 0);
}

#[test]
fn test_unmatched_code_backtick() {
    let text = "before `unmatched after";
    let spans = parse(text);
    assert_full_coverage(&spans, text.len());
    let code_spans: Vec<_> = spans.iter().filter(|(_, s)| s.code).collect();
    assert_eq!(code_spans.len(), 0);
}

#[test]
fn markup_test_unmatched_strikethrough() {
    let text = "before ~~unmatched after";
    let spans = parse(text);
    assert_full_coverage(&spans, text.len());
    let strike_spans: Vec<_> = spans.iter().filter(|(_, s)| s.strikethrough).collect();
    assert_eq!(strike_spans.len(), 0);
}

#[test]
fn test_empty_bold_not_matched() {
    // **** should not be matched as bold with empty content
    let text = "before **** after";
    let spans = parse(text);
    assert_full_coverage(&spans, text.len());
}

#[test]
fn test_empty_italic_not_matched() {
    let text = "before ** after";
    let spans = parse(text);
    assert_full_coverage(&spans, text.len());
}

#[test]
fn test_multiline_text() {
    let text = "# Heading\nNormal text\n> Quote line\n";
    let spans = parse(text);
    assert_full_coverage(&spans, text.len());
    assert_sorted(&spans);

    // First line should be heading
    let heading_spans: Vec<_> = spans.iter().filter(|(_, s)| s.heading > 0).collect();
    assert!(!heading_spans.is_empty());

    // Third line should be quote
    let quote_spans: Vec<_> = spans.iter().filter(|(_, s)| s.quote).collect();
    assert!(!quote_spans.is_empty());
}

#[test]
fn test_bold_does_not_cross_lines() {
    let text = "**bold\nstill bold**";
    let spans = parse(text);
    assert_full_coverage(&spans, text.len());
    let bold_spans: Vec<_> = spans.iter().filter(|(_, s)| s.bold).collect();
    assert_eq!(bold_spans.len(), 0, "Bold should not cross line boundaries");
}

#[test]
fn test_code_does_not_cross_lines() {
    let text = "`code\nstill code`";
    let spans = parse(text);
    assert_full_coverage(&spans, text.len());
    let code_spans: Vec<_> = spans.iter().filter(|(_, s)| s.code).collect();
    assert_eq!(code_spans.len(), 0, "Code should not cross line boundaries");
}

#[test]
fn test_unicode_text() {
    let text = "Hello, \u{4e16}\u{754c}! **\u{0431}\u{043e}\u{043b}\u{0434}** end";
    let spans = parse(text);
    assert_full_coverage(&spans, text.len());
    assert_sorted(&spans);

    let bold_spans: Vec<_> = spans.iter().filter(|(_, s)| s.bold).collect();
    assert_eq!(bold_spans.len(), 1);
}

#[test]
fn test_multiple_formatting_on_one_line() {
    let text = "**bold** and *italic* and `code`";
    let spans = parse(text);
    assert_full_coverage(&spans, text.len());
    assert_sorted(&spans);

    assert_eq!(spans.iter().filter(|(_, s)| s.bold).count(), 1);
    assert_eq!(spans.iter().filter(|(_, s)| s.italic).count(), 1);
    assert_eq!(spans.iter().filter(|(_, s)| s.code).count(), 1);
}

#[test]
fn test_heading_with_inline_formatting() {
    let text = "## **Bold heading**";
    let spans = parse(text);
    assert_full_coverage(&spans, text.len());

    let heading_bold: Vec<_> = spans
        .iter()
        .filter(|(_, s)| s.heading == 2 && s.bold)
        .collect();
    assert!(!heading_bold.is_empty());
}

#[test]
fn test_quote_with_inline_formatting() {
    let text = "> *italic in quote*";
    let spans = parse(text);
    assert_full_coverage(&spans, text.len());

    let quote_italic: Vec<_> = spans.iter().filter(|(_, s)| s.quote && s.italic).collect();
    assert!(!quote_italic.is_empty());
}

#[test]
fn test_url_in_heading() {
    let text = "# Visit https://example.com";
    let spans = parse(text);
    assert_full_coverage(&spans, text.len());

    let heading_url: Vec<_> = spans
        .iter()
        .filter(|(_, s)| s.heading == 1 && s.url)
        .collect();
    assert!(!heading_url.is_empty());
}

#[test]
fn markup_test_only_newlines() {
    let text = "\n\n\n";
    let spans = parse(text);
    assert_full_coverage(&spans, text.len());
}

#[test]
fn test_single_character() {
    let text = "a";
    let spans = parse(text);
    assert_full_coverage(&spans, text.len());
    assert_eq!(spans.len(), 1);
}

#[test]
fn test_adjacent_formatting() {
    let text = "**bold***italic*";
    let spans = parse(text);
    assert_full_coverage(&spans, text.len());
    assert_sorted(&spans);

    let bold_spans: Vec<_> = spans.iter().filter(|(_, s)| s.bold).collect();
    assert_eq!(bold_spans.len(), 1);
    assert_eq!(&text[bold_spans[0].0.clone()], "**bold**");

    let italic_spans: Vec<_> = spans.iter().filter(|(_, s)| s.italic).collect();
    assert_eq!(italic_spans.len(), 1);
    assert_eq!(&text[italic_spans[0].0.clone()], "*italic*");
}

#[test]
fn test_url_with_path_and_query() {
    let text = "Check https://example.com/path?query=1&foo=bar end";
    let spans = parse(text);
    assert_full_coverage(&spans, text.len());

    let url_spans: Vec<_> = spans.iter().filter(|(_, s)| s.url).collect();
    assert_eq!(url_spans.len(), 1);
    assert_eq!(
        &text[url_spans[0].0.clone()],
        "https://example.com/path?query=1&foo=bar"
    );
}

#[test]
fn test_url_at_end_of_text() {
    let text = "Visit https://example.com";
    let spans = parse(text);
    assert_full_coverage(&spans, text.len());

    let url_spans: Vec<_> = spans.iter().filter(|(_, s)| s.url).collect();
    assert_eq!(url_spans.len(), 1);
    assert_eq!(&text[url_spans[0].0.clone()], "https://example.com");
}

#[test]
fn test_consecutive_urls() {
    let text = "https://a.com https://b.com";
    let spans = parse(text);
    assert_full_coverage(&spans, text.len());

    let url_spans: Vec<_> = spans.iter().filter(|(_, s)| s.url).collect();
    assert_eq!(url_spans.len(), 2);
}

#[test]
fn test_url_prefix_only_not_matched() {
    // Just "https://" with nothing after shouldn't match
    let text = "Check https:// end";
    let spans = parse(text);
    assert_full_coverage(&spans, text.len());
    // The URL needs at least one char after the protocol prefix
    // "https://" has length 8, and "https:// " would stop at whitespace immediately
    // so it should not be detected as URL
}

#[test]
fn test_strikethrough_with_spaces() {
    let text = "~~some struck text~~";
    let spans = parse(text);
    assert_full_coverage(&spans, text.len());

    let strike_spans: Vec<_> = spans.iter().filter(|(_, s)| s.strikethrough).collect();
    assert_eq!(strike_spans.len(), 1);
    assert_eq!(&text[strike_spans[0].0.clone()], "~~some struck text~~");
}

#[test]
fn test_delimiter_inside_code() {
    let text = "`*not italic*` and `**not bold**`";
    let spans = parse(text);
    assert_full_coverage(&spans, text.len());

    let code_spans: Vec<_> = spans.iter().filter(|(_, s)| s.code).collect();
    assert_eq!(code_spans.len(), 2);
    let italic_spans: Vec<_> = spans.iter().filter(|(_, s)| s.italic).collect();
    assert_eq!(italic_spans.len(), 0);
    let bold_spans: Vec<_> = spans.iter().filter(|(_, s)| s.bold).collect();
    assert_eq!(bold_spans.len(), 0);
}

#[test]
fn test_heading_empty_after_hash() {
    let text = "#\n";
    let spans = parse(text);
    assert_full_coverage(&spans, text.len());
    let heading_spans: Vec<_> = spans.iter().filter(|(_, s)| s.heading == 1).collect();
    assert!(!heading_spans.is_empty());
}

#[test]
fn test_tilde_single_not_strikethrough() {
    let text = "~not strike~";
    let spans = parse(text);
    assert_full_coverage(&spans, text.len());
    let strike_spans: Vec<_> = spans.iter().filter(|(_, s)| s.strikethrough).collect();
    assert_eq!(strike_spans.len(), 0);
}

#[test]
fn markup_test_windows_line_endings() {
    let text = "# Heading\r\nNormal text\r\n> Quote\r\n";
    let spans = parse(text);
    assert_full_coverage(&spans, text.len());
    assert_sorted(&spans);
}

#[test]
fn test_many_hashes_beyond_six() {
    let text = "######## Not a heading";
    let spans = parse(text);
    assert_full_coverage(&spans, text.len());
    for (_, style) in &spans {
        assert_eq!(style.heading, 0);
    }
}
