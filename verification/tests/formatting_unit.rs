use rust_nv::ui::formatting::{
    auto_indent, detect_list_prefix, find_urls, indent_lines, outdent_lines, toggle_surrounding,
};

#[test]
fn test_toggle_wrap_selection() {
    let (result, start, end) = toggle_surrounding("hello world", 0, 5, "**");
    assert_eq!(result, "**hello** world");
    assert_eq!(start, 2);
    assert_eq!(end, 7);
}

#[test]
fn test_toggle_unwrap_selection() {
    let (result, start, end) = toggle_surrounding("**hello** world", 2, 7, "**");
    assert_eq!(result, "hello world");
    assert_eq!(start, 0);
    assert_eq!(end, 5);
}

#[test]
fn test_toggle_no_selection_inserts_delimiters() {
    let (result, start, end) = toggle_surrounding("hello world", 5, 5, "**");
    assert_eq!(result, "hello**** world");
    assert_eq!(start, 7);
    assert_eq!(end, 7);
}

#[test]
fn test_toggle_single_char_delimiter() {
    let (result, start, end) = toggle_surrounding("hello world", 0, 5, "*");
    assert_eq!(result, "*hello* world");
    assert_eq!(start, 1);
    assert_eq!(end, 6);
}

#[test]
fn test_toggle_unwrap_single_char_delimiter() {
    let (result, start, end) = toggle_surrounding("*hello* world", 1, 6, "*");
    assert_eq!(result, "hello world");
    assert_eq!(start, 0);
    assert_eq!(end, 5);
}

#[test]
fn test_toggle_backtick() {
    let (result, start, end) = toggle_surrounding("some code here", 5, 9, "`");
    assert_eq!(result, "some `code` here");
    assert_eq!(start, 6);
    assert_eq!(end, 10);
}

#[test]
fn test_toggle_strikethrough() {
    let (result, start, end) = toggle_surrounding("remove this text", 7, 11, "~~");
    assert_eq!(result, "remove ~~this~~ text");
    assert_eq!(start, 9);
    assert_eq!(end, 13);
}

#[test]
fn test_toggle_at_start() {
    let (result, _, _) = toggle_surrounding("hello", 0, 5, "**");
    assert_eq!(result, "**hello**");
}

#[test]
fn test_toggle_at_end() {
    let (result, _, _) = toggle_surrounding("hello", 5, 5, "**");
    assert_eq!(result, "hello****");
}

#[test]
fn test_toggle_empty_string() {
    let (result, start, end) = toggle_surrounding("", 0, 0, "**");
    assert_eq!(result, "****");
    assert_eq!(start, 2);
    assert_eq!(end, 2);
}

#[test]
fn test_toggle_unicode() {
    let text = "\u{4e16}\u{754c}hello";
    let (result, start, end) = toggle_surrounding(text, 0, 2, "**");
    assert_eq!(result, "**\u{4e16}\u{754c}**hello");
    assert_eq!(start, 2);
    assert_eq!(end, 4);
}

#[test]
fn test_indent_single_line() {
    let (result, _, _) = indent_lines("hello", 0, 5);
    assert_eq!(result, "    hello");
}

#[test]
fn test_indent_multiple_lines() {
    let (result, _, _) = indent_lines("line1\nline2\nline3", 0, 17);
    assert_eq!(result, "    line1\n    line2\n    line3");
}

#[test]
fn test_indent_partial_selection() {
    // Select only "line2"
    let (result, _, _) = indent_lines("line1\nline2\nline3", 6, 11);
    assert_eq!(result, "line1\n    line2\nline3");
}

#[test]
fn test_outdent_single_line() {
    let (result, _, _) = outdent_lines("    hello", 0, 9);
    assert_eq!(result, "hello");
}

#[test]
fn test_outdent_partial_spaces() {
    let (result, _, _) = outdent_lines("  hello", 0, 7);
    assert_eq!(result, "hello");
}

#[test]
fn test_outdent_no_spaces() {
    let (result, _, _) = outdent_lines("hello", 0, 5);
    assert_eq!(result, "hello");
}

#[test]
fn test_outdent_more_than_four_spaces() {
    let (result, _, _) = outdent_lines("      hello", 0, 11);
    assert_eq!(result, "  hello");
}

#[test]
fn test_outdent_multiple_lines() {
    let (result, _, _) = outdent_lines("    line1\n    line2", 0, 19);
    assert_eq!(result, "line1\nline2");
}

#[test]
fn test_auto_indent_basic() {
    let content = "    hello\n";
    let cursor = content.len(); // right after the newline
    let result = auto_indent(content, cursor);
    assert!(result.is_some());
    let (new_content, new_cursor) = result.unwrap();
    assert_eq!(new_content, "    hello\n    ");
    assert_eq!(new_cursor, 14);
}

#[test]
fn test_auto_indent_list_dash() {
    let content = "  - item\n";
    let cursor = content.len();
    let result = auto_indent(content, cursor);
    assert!(result.is_some());
    let (new_content, _) = result.unwrap();
    assert_eq!(new_content, "  - item\n  - ");
}

#[test]
fn test_auto_indent_list_asterisk() {
    let content = "* item\n";
    let cursor = content.len();
    let result = auto_indent(content, cursor);
    assert!(result.is_some());
    let (new_content, _) = result.unwrap();
    assert_eq!(new_content, "* item\n* ");
}

#[test]
fn test_auto_indent_ordered_list() {
    let content = "1. first\n";
    let cursor = content.len();
    let result = auto_indent(content, cursor);
    assert!(result.is_some());
    let (new_content, _) = result.unwrap();
    assert_eq!(new_content, "1. first\n2. ");
}

#[test]
fn formatting_test_auto_indent_ordered_list_increment() {
    let content = "5. fifth\n";
    let cursor = content.len();
    let result = auto_indent(content, cursor);
    assert!(result.is_some());
    let (new_content, _) = result.unwrap();
    assert_eq!(new_content, "5. fifth\n6. ");
}

#[test]
fn test_auto_indent_no_indent() {
    let content = "hello\n";
    let cursor = content.len();
    let result = auto_indent(content, cursor);
    assert!(result.is_none());
}

#[test]
fn formatting_test_auto_indent_cursor_not_after_newline() {
    let content = "hello\nworld";
    let cursor = 3; // middle of "hello"
    let result = auto_indent(content, cursor);
    assert!(result.is_none());
}

#[test]
fn test_auto_indent_empty_string() {
    let result = auto_indent("", 0);
    assert!(result.is_none());
}

#[test]
fn test_auto_indent_tab_indent() {
    let content = "\thello\n";
    let cursor = content.len();
    let result = auto_indent(content, cursor);
    assert!(result.is_some());
    let (new_content, _) = result.unwrap();
    assert_eq!(new_content, "\thello\n\t");
}

#[test]
fn test_find_urls_https() {
    let urls = find_urls("Visit https://example.com today");
    assert_eq!(urls.len(), 1);
    assert_eq!(
        &"Visit https://example.com today"[urls[0].clone()],
        "https://example.com"
    );
}

#[test]
fn test_find_urls_http() {
    let urls = find_urls("Check http://test.org here");
    assert_eq!(urls.len(), 1);
    assert_eq!(
        &"Check http://test.org here"[urls[0].clone()],
        "http://test.org"
    );
}

#[test]
fn test_find_urls_mailto() {
    let urls = find_urls("Email mailto:user@example.com");
    assert_eq!(urls.len(), 1);
    assert_eq!(
        &"Email mailto:user@example.com"[urls[0].clone()],
        "mailto:user@example.com"
    );
}

#[test]
fn test_find_urls_multiple() {
    let text = "https://a.com and http://b.org end";
    let urls = find_urls(text);
    assert_eq!(urls.len(), 2);
    assert_eq!(&text[urls[0].clone()], "https://a.com");
    assert_eq!(&text[urls[1].clone()], "http://b.org");
}

#[test]
fn formatting_test_find_urls_none() {
    let urls = find_urls("No URLs here");
    assert!(urls.is_empty());
}

#[test]
fn test_find_urls_with_path() {
    let text = "https://example.com/path/to/page?q=1&r=2";
    let urls = find_urls(text);
    assert_eq!(urls.len(), 1);
    assert_eq!(&text[urls[0].clone()], text);
}

#[test]
fn test_find_urls_stops_at_bracket() {
    let text = "[https://example.com]";
    let urls = find_urls(text);
    assert_eq!(urls.len(), 1);
    assert_eq!(&text[urls[0].clone()], "https://example.com");
}

#[test]
fn test_find_urls_stops_at_paren() {
    let text = "(https://example.com)";
    let urls = find_urls(text);
    assert_eq!(urls.len(), 1);
    assert_eq!(&text[urls[0].clone()], "https://example.com");
}

#[test]
fn test_find_urls_at_end() {
    let text = "Visit https://example.com";
    let urls = find_urls(text);
    assert_eq!(urls.len(), 1);
    assert_eq!(&text[urls[0].clone()], "https://example.com");
}

#[test]
fn test_find_urls_empty_string() {
    let urls = find_urls("");
    assert!(urls.is_empty());
}

#[test]
fn test_detect_list_dash() {
    assert_eq!(detect_list_prefix("- item"), "- ");
}

#[test]
fn test_detect_list_asterisk() {
    assert_eq!(detect_list_prefix("* item"), "* ");
}

#[test]
fn test_detect_list_ordered() {
    assert_eq!(detect_list_prefix("1. item"), "2. ");
}

#[test]
fn test_detect_list_ordered_large() {
    assert_eq!(detect_list_prefix("99. item"), "100. ");
}

#[test]
fn test_detect_no_list() {
    assert_eq!(detect_list_prefix("plain text"), "");
}

#[test]
fn test_detect_list_no_space_after_dash() {
    assert_eq!(detect_list_prefix("-no space"), "");
}
