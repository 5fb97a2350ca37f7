//! Char-offset wiki-link helpers used by the note editor.
use std::ops::Range;
use vstd::prelude::*;
use crate::highlight::{autocomplete_spec, close_pat, last_open};
use crate::text::{chars_of, contains_chars, contains_seq, occurs_at, string_from_range};

verus! {

/// A wiki link span: character-offset range covering `[[target]]` and the inner target text.
#[derive(Debug, PartialEq, Eq)]
pub struct WikiLink {
    /// Character-offset range of the full `[[...]]` (inclusive of brackets).
    pub full_range: Range<usize>,
    /// The inner target text (between the brackets).
    pub target: String,
}

impl Clone for WikiLink {
    fn clone(&self) -> (r: Self)
        ensures
            r.full_range == self.full_range,
            r.target@ == self.target@,
    {
        WikiLink {
            full_range: Range { start: self.full_range.start, end: self.full_range.end },
            target: self.target.clone(),
        }
    }
}

/// Start of the `]]` that closes a link whose target starts at `j`; `None` when a
/// `[[`, a newline or the end of the text comes first.
pub open spec fn editor_close_from(s: Seq<char>, j: int) -> Option<int>
    decreases s.len() - j,
{
    if j < 0 || j + 1 >= s.len() {
        None
    } else if s[j] == '[' && s[j + 1] == '[' {
        None
    } else if s[j] == ']' && s[j + 1] == ']' {
        Some(j)
    } else if s[j] == '\n' {
        None
    } else {
        editor_close_from(s, j + 1)
    }
}

pub proof fn lemma_editor_close_from(s: Seq<char>, j: int)
    ensures
        editor_close_from(s, j) matches Some(e) ==> j <= e && e + 2 <= s.len() && s[e] == ']'
            && s[e + 1] == ']',
    decreases s.len() - j,
{
    if 0 <= j && j + 1 < s.len() && !(s[j] == '[' && s[j + 1] == '[') && !(s[j] == ']' && s[j
        + 1] == ']') && s[j] != '\n' {
        lemma_editor_close_from(s, j + 1);
    }
}

/// The wiki links found scanning from char `i`: each is the char range of a
/// non-empty `[[target]]`, brackets included.
pub open spec fn editor_links_from(s: Seq<char>, i: int) -> Seq<(int, int)>
    decreases s.len() - i,
{
    if i < 0 || i + 1 >= s.len() {
        Seq::empty()
    } else if s[i] == '[' && s[i + 1] == '[' {
        match editor_close_from(s, i + 2) {
            Some(j) => {
                proof {
                    lemma_editor_close_from(s, i + 2);
                }
                (if j > i + 2 {
                    seq![(i, j + 2)]
                } else {
                    Seq::empty()
                }) + editor_links_from(s, j + 2)
            },
            None => editor_links_from(s, i + 1),
        }
    } else {
        editor_links_from(s, i + 1)
    }
}

/// `w` is the link over chars `range` of `s`.
pub open spec fn link_matches(w: WikiLink, s: Seq<char>, range: (int, int)) -> bool {
    &&& w.full_range.start == range.0
    &&& w.full_range.end == range.1
    &&& w.target@ == s.subrange(range.0 + 2, range.1 - 2)
}

pub proof fn lemma_editor_links_bounds(s: Seq<char>, i: int)
    requires
        0 <= i,
    ensures
        forall|k: int|
            0 <= k < editor_links_from(s, i).len() ==> i <= (#[trigger] editor_links_from(
                s,
                i,
            )[k]).0 && editor_links_from(s, i)[k].0 + 4 < editor_links_from(s, i)[k].1 <= s.len(),
    decreases s.len() - i,
{
    if i + 1 < s.len() {
        if s[i] == '[' && s[i + 1] == '[' {
            lemma_editor_close_from(s, i + 2);
            match editor_close_from(s, i + 2) {
                Some(j) => {
                    lemma_editor_links_bounds(s, j + 2);
                    let head: Seq<(int, int)> = if j > i + 2 {
                        seq![(i, j + 2)]
                    } else {
                        Seq::empty()
                    };
                    let all = editor_links_from(s, i);
                    assert(all == head + editor_links_from(s, j + 2));
                    assert forall|k: int| 0 <= k < all.len() implies i <= (#[trigger] all[k]).0
                        && all[k].0 + 4 < all[k].1 <= s.len() by {
                        if k < head.len() {
                        } else {
                            assert(all[k] == editor_links_from(s, j + 2)[k - head.len()]);
                        }
                    }
                },
                None => {
                    lemma_editor_links_bounds(s, i + 1);
                    assert(editor_links_from(s, i) == editor_links_from(s, i + 1));
                },
            }
        } else {
            lemma_editor_links_bounds(s, i + 1);
            assert(editor_links_from(s, i) == editor_links_from(s, i + 1));
        }
    }
}

/// Scan `text` for `[[...]]` wiki links. Returns spans with **character** offsets.
/// Handles edge cases: ignores empty `[[]]`, doesn't nest, and requires closing `]]`.
pub fn find_wiki_links(text: &str) -> (r: Vec<WikiLink>)
    ensures
        r@.len() == editor_links_from(text@, 0).len(),
        forall|k: int|
            0 <= k < r@.len() ==> link_matches(
                #[trigger] r@[k],
                text@,
                editor_links_from(text@, 0)[k],
            ),
{
    let chars = chars_of(text);
    let ghost s = text@;
    let len: usize = chars.len();
    let mut links: Vec<WikiLink> = Vec::new();
    let mut i: usize = 0;
    proof {
        lemma_editor_links_bounds(s, 0);
    }
    while len >= 1 && i < len - 1
        invariant
            chars@ == s,
            len == s.len(),
            i <= len,
            links@.len() + editor_links_from(s, i as int).len() == editor_links_from(s, 0).len(),
            forall|k: int|
                0 <= k < links@.len() ==> link_matches(
                    #[trigger] links@[k],
                    s,
                    editor_links_from(s, 0)[k],
                ),
            forall|k: int|
                0 <= k < editor_links_from(s, i as int).len() ==> editor_links_from(s, 0)[links@.len()
                    + k] == #[trigger] editor_links_from(s, i as int)[k],
        decreases len - i,
    {
        if chars[i] == '[' && chars[i + 1] == '[' {
            let open: usize = i;
            let mut j: usize = i + 2;
            let mut found_close = false;
            proof {
                lemma_editor_close_from(s, open + 2);
            }
            while len >= 1 && j < len - 1
                invariant_except_break
                    chars@ == s,
                    len == s.len(),
                    open + 2 <= j <= len,
                    !found_close,
                    editor_close_from(s, open + 2) == editor_close_from(s, j as int),
                ensures
                    !found_close ==> editor_close_from(s, open + 2) is None,
                    found_close ==> editor_close_from(s, open + 2) == Some(j as int),
                    j + 1 < len || !found_close,
                decreases len - j,
            {
                // If we encounter another `[[` before closing, break (no nesting).
                if chars[j] == '[' && chars[j + 1] == '[' {
                    break;
                }
                if chars[j] == ']' && chars[j + 1] == ']' {
                    found_close = true;
                    break;
                }
                // Don't allow newlines inside wiki links
                if chars[j] == '\n' {
                    break;
                }
                j += 1;
            }
            if found_close {
                let ghost before = links@;
                let ghost rest = editor_links_from(s, (j + 2) as int);
                proof {
                    lemma_editor_links_bounds(s, (j + 2) as int);
                }
                if j > open + 2 {
                    let target = string_from_range(chars.as_slice(), open + 2, j);
                    links.push(WikiLink { full_range: Range { start: open, end: j + 2 }, target });
                    proof {
                        assert(editor_links_from(s, i as int) == seq![(open as int, j + 2)] + rest);
                        assert(editor_links_from(s, i as int)[0] == (open as int, j + 2));
                        assert(editor_links_from(s, 0)[before.len() as int] == (
                            open as int,
                            j + 2,
                        ));
                        assert forall|k: int| 0 <= k < rest.len() implies editor_links_from(
                            s,
                            0,
                        )[links@.len() + k] == #[trigger] rest[k] by {
                            assert(editor_links_from(s, i as int)[k + 1] == rest[k]);
                        }
                        assert forall|k: int| 0 <= k < links@.len() implies link_matches(
                            #[trigger] links@[k],
                            s,
                            editor_links_from(s, 0)[k],
                        ) by {
                            if k < before.len() {
                                assert(links@[k] == before[k]);
                            }
                        }
                    }
                } else {
                    proof {
                        assert(editor_links_from(s, i as int) =~= rest);
                    }
                }
                i = j + 2;
            } else {
                proof {
                    assert(editor_links_from(s, i as int) == editor_links_from(s, i + 1));
                }
                i += 1;
            }
        } else {
            i += 1;
        }
    }
    proof {
        assert(editor_links_from(s, i as int).len() == 0);
    }
    links
}

/// Text from `[[`-end `k` to the cursor holds a `]]` when one ends in `(k, cursor]`.
proof fn lemma_close_inside(s: Seq<char>, k: int, e: int, cursor: int)
    requires
        0 <= k <= e - 2,
        e <= cursor <= s.len(),
        s[e - 2] == ']',
        s[e - 1] == ']',
    ensures
        contains_seq(s.subrange(k, cursor), close_pat()),
{
    let after = s.subrange(k, cursor);
    assert(after.subrange(e - 2 - k, e - k) =~= close_pat());
    assert(occurs_at(after, close_pat(), e - 2 - k));
}

/// Detect if the cursor is inside an unclosed `[[` (for autocomplete).
/// Returns `Some((partial_text, start_char_of_partial))` if cursor is inside `[[...`
/// where there is no matching `]]` yet.
/// `cursor_char` is the character offset of the cursor position.
pub fn detect_link_autocomplete_context(text: &str, cursor_char: usize) -> (r: Option<
    (String, usize),
>)
    ensures
        cursor_char > text@.len() ==> r is None,
        cursor_char <= text@.len() ==> (r matches Some(p) ==> autocomplete_spec(
            text@,
            cursor_char as int,
        ) == Some((p.0@, p.1 as int))),
        cursor_char <= text@.len() ==> (r is None ==> autocomplete_spec(
            text@,
            cursor_char as int,
        ) is None),
{
    let chars = chars_of(text);
    let ghost s = text@;
    let len: usize = chars.len();
    // Search backwards from cursor to find `[[`
    if cursor_char < 2 || cursor_char > len {
        return None;
    }
    let cursor: usize = cursor_char;
    let ghost nl: Seq<char> = seq!['\n'];
    // Walk backwards from cursor looking for `[[`
    let mut i: usize = cursor;
    while i >= 2
        invariant
            chars@ == s,
            s == text@,
            nl == seq!['\n'],
            cursor == cursor_char,
            len == s.len(),
            2 <= cursor <= len,
            i <= cursor,
            last_open(s, cursor as int) == last_open(s, i as int),
            forall|k: int| i < k < cursor ==> s[k] != '\n',
            forall|e: int|
                i < e <= cursor ==> !(#[trigger] s[e - 2] == ']' && s[e - 1] == ']'),
        decreases i,
    {
        // Check if we hit a `]]` before finding `[[` -- means we're not inside a link
        if i <= cursor && i >= 2 && chars[i - 1] == ']' && chars[i - 2] == ']' {
            proof {
                assert(last_open(s, i as int) == last_open(s, i - 1));
                assert(last_open(s, i - 1) == last_open(s, i - 2));
                lemma_last_open_le(s, (i - 2) as int);
                match last_open(s, cursor as int) {
                    Some(k) => {
                        assert(k <= i - 2);
                        lemma_close_inside(s, k, i as int, cursor as int);
                        assert(contains_seq(s.subrange(k, cursor as int), close_pat()));
                    },
                    None => {},
                }
                assert(autocomplete_spec(s, cursor as int) is None);
            }
            return None;
        }
        // Don't cross newlines
        if i < cursor && chars[i] == '\n' {
            proof {
                lemma_last_open_le(s, i as int);
                match last_open(s, cursor as int) {
                    Some(k) => {
                        let after = s.subrange(k, cursor as int);
                        assert(after[i - k] == s[i as int]);
                        assert(after.subrange(i - k, i - k + 1) =~= nl);
                        assert(occurs_at(after, nl, i - k));
                    },
                    None => {},
                }
            }
            return None;
        }
        if chars[i - 2] == '[' && chars[i - 1] == '[' {
            // Found opening `[[` at char position i-2
            // Check there is no `]]` between i and cursor
            let partial = string_from_range(chars.as_slice(), i, cursor);
            let pv = chars_of(partial.as_str());
            let closers: [char; 2] = [']', ']'];
            proof {
                assert(closers@ =~= close_pat());
            }
            // Verify no `]]` in the partial
            if contains_chars(pv.as_slice(), closers.as_slice()) {
                return None;
            }
            proof {
                let after = s.subrange(i as int, cursor as int);
                assert(after == partial@);
                assert(!contains_seq(after, nl)) by {
                    assert forall|p: int| !occurs_at(after, nl, p) by {
                        if occurs_at(after, nl, p) {
                            assert(0 <= p < after.len());
                            assert(after.subrange(p, p + 1)[0] == after[p]);
                            assert(after[p] == s[i + p]);
                        }
                    }
                }
            }
            return Some((partial, i));
        }
        i -= 1;
    }
    None
}

/// `last_open(s, c)` lies in `[2, c]` when it exists.
proof fn lemma_last_open_le(s: Seq<char>, c: int)
    ensures
        last_open(s, c) matches Some(k) ==> 2 <= k <= c && s[k - 2] == '[' && s[k - 1] == '[',
    decreases c,
{
    if c >= 2 && !(s[c - 2] == '[' && s[c - 1] == '[') {
        lemma_last_open_le(s, c - 1);
    }
}

/// `link` covers char `c`.
pub open spec fn link_hit(link: WikiLink, c: int) -> bool {
    link.full_range.start <= c < link.full_range.end
}

/// Find which wiki link (if any) contains the given character offset.
pub fn wiki_link_at_char(links: &[WikiLink], char_offset: usize) -> (r: Option<&WikiLink>)
    ensures
        r matches Some(l) ==> exists|k: int|
            0 <= k < links@.len() && *l == links@[k] && link_hit(links@[k], char_offset as int)
                && forall|j: int| 0 <= j < k ==> !link_hit(#[trigger] links@[j], char_offset as int),
        r is None ==> forall|k: int|
            0 <= k < links@.len() ==> !link_hit(#[trigger] links@[k], char_offset as int),
{
    let mut k: usize = 0;
    while k < links.len()
        invariant
            k <= links@.len(),
            forall|j: int| 0 <= j < k ==> !link_hit(#[trigger] links@[j], char_offset as int),
        decreases links@.len() - k,
    {
        let link = &links[k];
        if char_offset >= link.full_range.start && char_offset < link.full_range.end {
            return Some(link);
        }
        k += 1;
    }
    None
}

} // verus!
