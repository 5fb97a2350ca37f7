use rust_nv::ui::editor::{detect_link_autocomplete_context, find_wiki_links, wiki_link_at_char};

#[test]
fn test_find_wiki_links_basic() {
    let links = find_wiki_links("Hello [[World]] there");
    assert_eq!(links.len(), 1);
    assert_eq!(links[0].target, "World");
    assert_eq!(links[0].full_range, 6..15);
}

#[test]
fn test_find_wiki_links_multiple() {
    let links = find_wiki_links("See [[Alpha]] and [[Beta]]");
    assert_eq!(links.len(), 2);
    assert_eq!(links[0].target, "Alpha");
    assert_eq!(links[1].target, "Beta");
}

#[test]
fn test_find_wiki_links_empty_brackets() {
    let links = find_wiki_links("Empty [[]] link");
    assert_eq!(links.len(), 0);
}

#[test]
fn test_find_wiki_links_unclosed() {
    let links = find_wiki_links("Unclosed [[ link here");
    assert_eq!(links.len(), 0);
}

#[test]
fn test_find_wiki_links_no_nesting() {
    // Nested [[inner]] should not match the outer
    let links = find_wiki_links("[[outer [[inner]]]]");
    // The parser should find "inner" since it encounters [[ inside and restarts
    assert_eq!(links.len(), 1);
    assert_eq!(links[0].target, "inner");
}

#[test]
fn test_find_wiki_links_close_without_open() {
    let links = find_wiki_links("Just ]] without open");
    assert_eq!(links.len(), 0);
}

#[test]
fn test_find_wiki_links_newline_breaks_link() {
    let links = find_wiki_links("[[broken\nlink]]");
    assert_eq!(links.len(), 0);
}

#[test]
fn test_find_wiki_links_adjacent() {
    let links = find_wiki_links("[[A]][[B]]");
    assert_eq!(links.len(), 2);
    assert_eq!(links[0].target, "A");
    assert_eq!(links[1].target, "B");
}

#[test]
fn test_find_wiki_links_unicode() {
    let links = find_wiki_links("Link to [[cafe\u{0301}]]");
    assert_eq!(links.len(), 1);
    assert_eq!(links[0].target, "cafe\u{0301}");
}

#[test]
fn test_find_wiki_links_spaces_in_target() {
    let links = find_wiki_links("[[My Note Title]]");
    assert_eq!(links.len(), 1);
    assert_eq!(links[0].target, "My Note Title");
}

#[test]
fn test_autocomplete_inside_unclosed_link() {
    let text = "Hello [[wor";
    let cursor = 11; // after 'r'
    let result = detect_link_autocomplete_context(text, cursor);
    assert!(result.is_some());
    let (partial, start) = result.unwrap();
    assert_eq!(partial, "wor");
    assert_eq!(start, 8); // char position after `[[`
}

#[test]
fn test_autocomplete_not_inside_link() {
    let text = "Hello world";
    let result = detect_link_autocomplete_context(text, 5);
    assert!(result.is_none());
}

#[test]
fn test_autocomplete_after_closed_link() {
    let text = "Hello [[World]] more";
    // Cursor at position 18, after the closed link
    let result = detect_link_autocomplete_context(text, 18);
    assert!(result.is_none());
}

#[test]
fn editor_test_autocomplete_empty_partial() {
    let text = "Hello [[";
    let cursor = 8; // right after `[[`
    let result = detect_link_autocomplete_context(text, cursor);
    assert!(result.is_some());
    let (partial, _start) = result.unwrap();
    assert_eq!(partial, "");
}

#[test]
fn test_autocomplete_cursor_at_start() {
    let text = "[[test";
    let result = detect_link_autocomplete_context(text, 0);
    assert!(result.is_none());
}

#[test]
fn test_wiki_link_at_char_inside() {
    let links = find_wiki_links("Hello [[World]] there");
    // Char 8 is 'o' in World, inside the link
    assert!(wiki_link_at_char(&links, 8).is_some());
    assert_eq!(wiki_link_at_char(&links, 8).unwrap().target, "World");
}

#[test]
fn test_wiki_link_at_char_on_bracket() {
    let links = find_wiki_links("Hello [[World]] there");
    // Char 6 is first `[` — should be inside the full_range
    assert!(wiki_link_at_char(&links, 6).is_some());
}

#[test]
fn test_wiki_link_at_char_outside() {
    let links = find_wiki_links("Hello [[World]] there");
    // Char 0 is 'H', outside
    assert!(wiki_link_at_char(&links, 0).is_none());
    // Char 15 is ' ', right after the link
    assert!(wiki_link_at_char(&links, 15).is_none());
}
