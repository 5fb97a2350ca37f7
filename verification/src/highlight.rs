//! Search-match and wiki-link highlighting spans, and byte/char offset conversion.
use std::ops::Range;
use vstd::prelude::*;
use vstd::string::StringSliceAdditionalSpecFns;
use vstd::utf8::encode_utf8;
use crate::text::{
    byte_offset, char_table, chars_of, contains_seq, lemma_byte_offset_ends,
    lemma_byte_offset_mono, lowercase, matches_at, occurs_at, string_from_range, to_lowercase, contains_chars,
};

verus! {

/// The kind of a text span for highlighting purposes.
#[derive(Debug, Clone, Copy, PartialEq, Eq, Structural)]
pub enum SpanKind {
    Normal,
    SearchMatch,
    ActiveSearchMatch,
    WikiLink,
}

/// A span of text with a classification for highlighting.
#[derive(Debug, PartialEq, Eq)]
pub struct HighlightSpan {
    /// Byte range into the source text.
    pub byte_range: Range<usize>,
    /// What kind of highlighting to apply.
    pub kind: SpanKind,
}

impl Clone for HighlightSpan {
    fn clone(&self) -> (r: Self)
        ensures
            r == *self,
    {
        HighlightSpan {
            byte_range: Range { start: self.byte_range.start, end: self.byte_range.end },
            kind: self.kind,
        }
    }
}

/// The pattern `]]`.
pub open spec fn close_pat() -> Seq<char> {
    seq![']', ']']
}

/// Index just after the last `[[` that ends at or before `c`.
pub open spec fn last_open(s: Seq<char>, c: int) -> Option<int>
    decreases c,
{
    if c < 2 {
        None
    } else if s[c - 2] == '[' && s[c - 1] == '[' {
        Some(c)
    } else {
        last_open(s, c - 1)
    }
}

/// What `detect_link_autocomplete_context` returns: the text after the last `[[`
/// before the cursor and its char offset, when that text holds no `]]` and no newline.
pub open spec fn autocomplete_spec(s: Seq<char>, cursor: int) -> Option<(Seq<char>, int)> {
    let c = if cursor < s.len() {
        cursor
    } else {
        s.len() as int
    };
    match last_open(s, c) {
        Some(k) => {
            let after = s.subrange(k, c);
            if contains_seq(after, close_pat()) || contains_seq(after, seq!['\n']) {
                None
            } else {
                Some((after, k))
            }
        },
        None => None,
    }
}

/// Typing inside an unclosed wiki link: when `[[` ends at `i`, the cursor `c`
/// follows it, and the text between them holds no newline, no `]]` and no
/// further `[[`, the completion context is that text (whatever else it holds,
/// spaces included) with its start `i`.
pub proof fn lemma_autocomplete_inside_link(s: Seq<char>, i: int, c: int)
    requires
        2 <= i <= c <= s.len(),
        s[i - 2] == '[' && s[i - 1] == '[',
        forall|k: int| i <= k < c ==> s[k] != '\n',
        forall|k: int| i <= k < c - 1 ==> !(#[trigger] s[k] == ']' && s[k + 1] == ']'),
        forall|k: int| i - 1 <= k < c - 1 ==> !(#[trigger] s[k] == '[' && s[k + 1] == '['),
    ensures
        autocomplete_spec(s, c) == Some((s.subrange(i, c), i)),
{
    lemma_last_open_at(s, i, c);
    let after = s.subrange(i, c);
    assert(!contains_seq(after, close_pat())) by {
        if contains_seq(after, close_pat()) {
            let k = choose|k: int| occurs_at(after, close_pat(), k);
            assert(after.subrange(k, k + 2)[0] == after[k]);
            assert(after.subrange(k, k + 2)[1] == after[k + 1]);
            assert(s[i + k] == ']' && s[i + k + 1] == ']');
        }
    }
    assert(!contains_seq(after, seq!['\n'])) by {
        if contains_seq(after, seq!['\n']) {
            let k = choose|k: int| occurs_at(after, seq!['\n'], k);
            assert(after.subrange(k, k + 1)[0] == after[k]);
            assert(s[i + k] == '\n');
        }
    }
}

proof fn lemma_last_open_at(s: Seq<char>, i: int, c: int)
    requires
        2 <= i <= c <= s.len(),
        s[i - 2] == '[' && s[i - 1] == '[',
        forall|k: int| i - 1 <= k < c - 1 ==> !(#[trigger] s[k] == '[' && s[k + 1] == '['),
    ensures
        last_open(s, c) == Some(i),
    decreases c - i,
{
    if c > i {
        assert(!(s[c - 2] == '[' && s[c - 1] == '['));
        lemma_last_open_at(s, i, c - 1);
    }
}

/// Range `r` satisfies `start <= end <= bound`.
pub open spec fn range_within(r: Range<usize>, bound: int) -> bool {
    r.start <= r.end && r.end <= bound
}

/// Range `r` satisfies `start < end <= bound`.
pub open spec fn link_within(r: Range<usize>, bound: int) -> bool {
    r.start < r.end && r.end <= bound
}

/// Span `x` satisfies `start <= end <= bound`.
pub open spec fn span_within(x: HighlightSpan, bound: int) -> bool {
    range_within(x.byte_range, bound)
}

// ─── Offsets ────────────────────────────────────────────────────────────────

/// Byte offset of char `c` in `s`, or the byte length of `s` when `c` is past its end.
pub open spec fn clamped_byte_offset(s: Seq<char>, c: int) -> int {
    if c < s.len() {
        byte_offset(s, c)
    } else {
        byte_offset(s, s.len() as int)
    }
}

/// Byte to char and back: a char boundary `b`, converted to the char offset `c`
/// that `byte_offset_to_char_offset` returns, converts back to `b`.
pub proof fn lemma_byte_char_roundtrip(text: Seq<char>, b: int, c: int)
    requires
        0 <= c <= text.len(),
        byte_offset(text, c) == b,
    ensures
        clamped_byte_offset(text, c) == b,
{
}

/// Char to byte and back: for a char offset `c` within the text, the char
/// offset whose byte offset is `char_offset_to_byte_offset(c)` is `c` itself.
pub proof fn lemma_char_byte_roundtrip(text: Seq<char>, c: int, r: int)
    requires
        0 <= c <= text.len(),
        0 <= r <= text.len(),
        byte_offset(text, r) == clamped_byte_offset(text, c),
    ensures
        r == c,
{
    crate::text::lemma_byte_offset_injective(text, r, c);
}

/// Convert a byte offset in `text` to a char (grapheme-unaware) offset.
/// The byte offset must be on a char boundary.
pub fn byte_offset_to_char_offset(text: &str, byte_offset_in: usize) -> (r: usize)
    requires
        exists|i: int| 0 <= i <= text@.len() && byte_offset(text@, i) == byte_offset_in,
    ensures
        r <= text@.len(),
        byte_offset(text@, r as int) == byte_offset_in,
{
    let (chars, offs) = char_table(text);
    let ghost s = text@;
    let mut i: usize = 0;
    while i < chars.len() && offs[i] < byte_offset_in
        invariant
            i <= chars@.len(),
            chars@ == s,
            offs@.len() == s.len() + 1,
            forall|k: int| 0 <= k <= s.len() ==> #[trigger] offs@[k] == byte_offset(s, k),
            forall|k: int| 0 <= k < i ==> #[trigger] byte_offset(s, k) < byte_offset_in,
        decreases chars@.len() - i,
    {
        i = i + 1;
    }
    proof {
        let w = choose|w: int| 0 <= w <= s.len() && byte_offset(s, w) == byte_offset_in;
        if w < i {
            assert(byte_offset(s, w) < byte_offset_in);
        } else if w > i {
            lemma_byte_offset_mono(s, i as int, w);
            if i < s.len() {
                assert(offs@[i as int] >= byte_offset_in);
            }
        }
    }
    i
}

/// Convert a char offset to a byte offset.
/// If `char_offset` is beyond the end of the string, returns `text.len()`.
pub fn char_offset_to_byte_offset(text: &str, char_offset: usize) -> (r: usize)
    ensures
        r == clamped_byte_offset(text@, char_offset as int),
        r <= text.spec_bytes().len(),
{
    let (chars, offs) = char_table(text);
    proof {
        lemma_byte_offset_ends(text@);
        if char_offset < text@.len() {
            lemma_byte_offset_mono(text@, char_offset as int, text@.len() as int);
        }
    }
    if char_offset < chars.len() {
        offs[char_offset]
    } else {
        offs[chars.len()]
    }
}

// ─── Search matches ─────────────────────────────────────────────────────────

/// Char positions (in increasing order, from `k` on) where `pat` occurs in `t`.
pub open spec fn match_positions_from(t: Seq<char>, pat: Seq<char>, k: int) -> Seq<int>
    decreases t.len() + 1 - k,
{
    if k < 0 || k + pat.len() > t.len() {
        Seq::empty()
    } else if occurs_at(t, pat, k) {
        seq![k] + match_positions_from(t, pat, k + 1)
    } else {
        match_positions_from(t, pat, k + 1)
    }
}

pub proof fn lemma_positions_from_ge(t: Seq<char>, pat: Seq<char>, k: int)
    ensures
        forall|j: int|
            0 <= j < match_positions_from(t, pat, k).len() ==> k <= #[trigger] match_positions_from(
                t,
                pat,
                k,
            )[j],
    decreases t.len() + 1 - k,
{
    if !(k < 0 || k + pat.len() > t.len()) {
        lemma_positions_from_ge(t, pat, k + 1);
        let rest = match_positions_from(t, pat, k + 1);
        if occurs_at(t, pat, k) {
            assert forall|j: int| 0 <= j < match_positions_from(t, pat, k).len() implies k
                <= #[trigger] match_positions_from(t, pat, k)[j] by {
                if j > 0 {
                    assert(match_positions_from(t, pat, k)[j] == rest[j - 1]);
                }
            }
        }
    }
}

/// Each search match starts at a char boundary of the text.
pub proof fn lemma_search_match_starts(text: Seq<char>, query: Seq<char>, m: int)
    requires
        0 <= m < search_matches_spec(text, query).len(),
        crate::text::bytes_len(text) <= usize::MAX,
    ensures
        exists|i: int|
            0 <= i <= text.len() && byte_offset(text, i) == search_matches_spec(text, query)[m].start,
{
    let ql = lowercase(query);
    let ps = match_positions_from(lowercase(text), ql, 0);
    lemma_positions_from_ge(lowercase(text), ql, 0);
    let k = ps[m];
    assert(search_matches_spec(text, query)[m] == match_range(text, k, ql.len() as int));
    let w = if k < text.len() {
        k
    } else {
        text.len() as int
    };
    lemma_byte_offset_mono(text, w, text.len() as int);
    assert(byte_offset(text, w) == search_matches_spec(text, query)[m].start);
}

/// Byte range of a match at char `k` of length `qlen` (in the lowered text).
pub open spec fn match_range(text: Seq<char>, k: int, qlen: int) -> Range<usize> {
    Range {
        start: clamped_byte_offset(text, k) as usize,
        end: clamped_byte_offset(text, k + qlen) as usize,
    }
}

/// The byte ranges (in `text`) of the occurrences of `query_lower` in
/// `text_lower`, char by char.
pub open spec fn lowered_matches_spec(text: Seq<char>, text_lower: Seq<char>, query_lower: Seq<char>) -> Seq<
    Range<usize>,
> {
    match_positions_from(text_lower, query_lower, 0).map_values(
        |k: int| match_range(text, k, query_lower.len() as int),
    )
}

/// The byte ranges `find_search_matches` returns.
pub open spec fn search_matches_spec(text: Seq<char>, query: Seq<char>) -> Seq<Range<usize>> {
    if query.len() == 0 {
        Seq::empty()
    } else {
        lowered_matches_spec(text, lowercase(text), lowercase(query))
    }
}

/// Find all case-insensitive occurrences of `query` in `text`.
/// Returns byte-offset ranges. Returns empty vec if query is empty.
pub fn find_search_matches(text: &str, query: &str) -> (r: Vec<Range<usize>>)
    ensures
        r@ == search_matches_spec(text@, query@),
        forall|k: int|
            0 <= k < r@.len() ==> range_within(#[trigger] r@[k], text.spec_bytes().len() as int),
{
    let qv = chars_of(query);
    if qv.len() == 0 {
        return Vec::new();
    }
    let text_lower = to_lowercase(text);
    let query_lower = to_lowercase(query);
    matches_in_lowered(text, text_lower.as_str(), query_lower.as_str())
}

/// The occurrences of `query_lower` in `text_lower`, as byte ranges of
/// `text` (the chars of the two texts matched up by position, a position
/// past the end of `text` taken as its end).
pub fn matches_in_lowered(text: &str, text_lower: &str, query_lower: &str) -> (r: Vec<Range<usize>>)
    ensures
        r@ == lowered_matches_spec(text@, text_lower@, query_lower@),
        forall|k: int|
            0 <= k < r@.len() ==> range_within(#[trigger] r@[k], text.spec_bytes().len() as int),
{
    let (chars, offs) = char_table(text);
    let n: usize = chars.len();
    let ghost s = text@;
    let tl = chars_of(text_lower);
    let ql = chars_of(query_lower);
    let ghost qn = ql@.len() as int;
    let mut matches: Vec<Range<usize>> = Vec::new();
    proof {
        lemma_byte_offset_ends(s);
    }
    if ql.len() > tl.len() {
        proof {
            assert(match_positions_from(tl@, ql@, 0) =~= Seq::<int>::empty());
            assert(lowered_matches_spec(s, text_lower@, query_lower@) =~= Seq::<Range<usize>>::empty());
        }
        return matches;
    }
    let tn: usize = tl.len();
    let last: usize = tn - ql.len();
    let mut k: usize = 0;
    let ghost mut done: Seq<int> = Seq::empty();
    proof {
        assert(matches@ =~= done.map_values(|k: int| match_range(s, k, qn)));
        assert(done + match_positions_from(tl@, ql@, 0) =~= match_positions_from(tl@, ql@, 0));
    }
    loop
        invariant_except_break
            done + match_positions_from(tl@, ql@, k as int) == match_positions_from(
                tl@,
                ql@,
                0,
            ),
        invariant
            k <= last,
            ql@.len() <= tl@.len(),
            qn == ql@.len(),
            tn == tl@.len(),
            last == tl@.len() - ql@.len(),
            n == s.len(),
            chars@ == s,
            offs@.len() == s.len() + 1,
            forall|i: int| 0 <= i <= s.len() ==> #[trigger] offs@[i] == byte_offset(s, i),
            byte_offset(s, s.len() as int) == text.spec_bytes().len(),
            tl@ == text_lower@,
            ql@ == query_lower@,
            matches@ == done.map_values(|k: int| match_range(s, k, qn)),
            forall|i: int|
                0 <= i < matches@.len() ==> range_within(
                    #[trigger] matches@[i],
                    text.spec_bytes().len() as int,
                ),
        ensures
            done == match_positions_from(tl@, ql@, 0),
            matches@ == done.map_values(|k: int| match_range(s, k, qn)),
            forall|i: int|
                0 <= i < matches@.len() ==> range_within(
                    #[trigger] matches@[i],
                    text.spec_bytes().len() as int,
                ),
        decreases last - k,
    {
        let ghost before = matches@;
        if matches_at(tl.as_slice(), ql.as_slice(), k) {
            let a: usize = if k < n {
                offs[k]
            } else {
                offs[n]
            };
            let b: usize = if k + ql.len() < n {
                offs[k + ql.len()]
            } else {
                offs[n]
            };
            proof {
                if k < n {
                    lemma_byte_offset_mono(s, k as int, s.len() as int);
                }
                if k + ql@.len() < n {
                    lemma_byte_offset_mono(s, k + ql@.len(), s.len() as int);
                    lemma_byte_offset_mono(s, k as int, k + ql@.len());
                }
            }
            matches.push(a..b);
            proof {
                assert(matches@.last() == match_range(s, k as int, qn));
                assert(match_positions_from(tl@, ql@, k as int) =~= seq![k as int]
                    + match_positions_from(tl@, ql@, k + 1));
                done = done.push(k as int);
                assert(matches@ =~= done.map_values(|k: int| match_range(s, k, qn)));
                assert(done + match_positions_from(tl@, ql@, k + 1) =~= match_positions_from(
                    tl@,
                    ql@,
                    0,
                ));
            }
        } else {
            proof {
                assert(match_positions_from(tl@, ql@, k as int) == match_positions_from(
                    tl@,
                    ql@,
                    k + 1,
                ));
            }
        }
        if k == last {
            proof {
                assert(match_positions_from(tl@, ql@, k + 1) =~= Seq::<int>::empty());
                assert(done =~= match_positions_from(tl@, ql@, 0));
            }
            break;
        }
        k = k + 1;
    }
    matches
}

// ─── Wiki links ─────────────────────────────────────────────────────────────

/// End (after `]]`) of a wiki link whose body starts at `i`, if closed on the line.
pub open spec fn wiki_close_from(s: Seq<char>, i: int) -> Option<int>
    decreases s.len() - i,
{
    if i < 0 || i + 1 >= s.len() {
        None
    } else if s[i] == ']' && s[i + 1] == ']' {
        Some(i + 2)
    } else if s[i] == '\n' {
        None
    } else {
        wiki_close_from(s, i + 1)
    }
}

pub proof fn lemma_wiki_close_from(s: Seq<char>, i: int)
    ensures
        wiki_close_from(s, i) matches Some(e) ==> i + 2 <= e <= s.len(),
    decreases s.len() - i,
{
    if 0 <= i && i + 1 < s.len() && !(s[i] == ']' && s[i + 1] == ']') && s[i] != '\n' {
        lemma_wiki_close_from(s, i + 1);
    }
}

/// Wiki links `[[...]]` (char ranges, brackets included) found scanning from `i`.
pub open spec fn wiki_links_from(s: Seq<char>, i: int) -> Seq<(int, int)>
    decreases s.len() - i,
{
    if i < 0 || i >= s.len() {
        Seq::empty()
    } else if i + 1 < s.len() && s[i] == '[' && s[i + 1] == '[' {
        match wiki_close_from(s, i + 2) {
            Some(e) => {
                proof {
                    lemma_wiki_close_from(s, i + 2);
                }
                (if e - i > 4 {
                    seq![(i, e)]
                } else {
                    Seq::empty()
                }) + wiki_links_from(s, e)
            },
            None => wiki_links_from(s, i + 2),
        }
    } else {
        wiki_links_from(s, i + 1)
    }
}

/// Char ranges mapped to byte ranges.
pub open spec fn ranges_to_bytes(s: Seq<char>, rs: Seq<(int, int)>) -> Seq<Range<usize>> {
    rs.map_values(
        |t: (int, int)|
            Range { start: byte_offset(s, t.0) as usize, end: byte_offset(s, t.1) as usize },
    )
}

pub proof fn lemma_wiki_links_bounds(s: Seq<char>, i: int)
    requires
        0 <= i,
    ensures
        forall|k: int|
            0 <= k < wiki_links_from(s, i).len() ==> i <= (#[trigger] wiki_links_from(s, i)[k]).0
                && wiki_links_from(s, i)[k].0 + 4 < wiki_links_from(s, i)[k].1 <= s.len(),
    decreases s.len() - i,
{
    if i < s.len() {
        if i + 1 < s.len() && s[i] == '[' && s[i + 1] == '[' {
            lemma_wiki_close_from(s, i + 2);
            match wiki_close_from(s, i + 2) {
                Some(e) => {
                    lemma_wiki_links_bounds(s, e);
                    let head: Seq<(int, int)> = if e - i > 4 {
                        seq![(i, e)]
                    } else {
                        Seq::empty()
                    };
                    let all = wiki_links_from(s, i);
                    assert(all == head + wiki_links_from(s, e));
                    assert forall|k: int| 0 <= k < all.len() implies i <= (#[trigger] all[k]).0
                        && all[k].0 + 4 < all[k].1 <= s.len() by {
                        if k >= head.len() {
                            assert(all[k] == wiki_links_from(s, e)[k - head.len()]);
                        } else {
                            assert(all[k] == (i, e));
                        }
                    }
                },
                None => {
                    lemma_wiki_links_bounds(s, i + 2);
                    assert(wiki_links_from(s, i) == wiki_links_from(s, i + 2));
                },
            }
        } else {
            lemma_wiki_links_bounds(s, i + 1);
            assert(wiki_links_from(s, i) == wiki_links_from(s, i + 1));
        }
    }
}

/// Find all `[[...]]` wiki link byte ranges using a state machine.
/// Returns the full range including the brackets.
pub fn find_wiki_links(text: &str) -> (r: Vec<Range<usize>>)
    ensures
        r@ == ranges_to_bytes(text@, wiki_links_from(text@, 0)),
        forall|k: int|
            0 <= k < r@.len() ==> link_within(#[trigger] r@[k], text.spec_bytes().len() as int),
{
    let (chars, offs) = char_table(text);
    let ghost s = text@;
    let len: usize = chars.len();
    let mut links: Vec<Range<usize>> = Vec::new();
    let ghost mut done: Seq<(int, int)> = Seq::empty();
    let mut i: usize = 0;
    proof {
        lemma_byte_offset_ends(s);
    }
    while i < len
        invariant
            i <= len,
            len == s.len(),
            chars@ == s,
            offs@.len() == s.len() + 1,
            forall|k: int| 0 <= k <= s.len() ==> #[trigger] offs@[k] == byte_offset(s, k),
            byte_offset(s, s.len() as int) == text.spec_bytes().len(),
            done + wiki_links_from(s, i as int) == wiki_links_from(s, 0),
            links@ == ranges_to_bytes(s, done),
            forall|k: int|
                0 <= k < links@.len() ==> link_within(#[trigger] links@[k], text.spec_bytes().len() as int),
        decreases len - i,
    {
        // Look for opening [[
        if i + 1 < len && chars[i] == '[' && chars[i + 1] == '[' {
            let start: usize = i;
            let mut j: usize = i + 2;
            let mut close: Option<usize> = None;
            // Scan for closing ]]
            while j < len - 1
                invariant_except_break
                    close is None,
                invariant
                    start + 2 <= j <= len,
                    start + 1 < len,
                    len == s.len(),
                    chars@ == s,
                    wiki_close_from(s, start + 2) == wiki_close_from(s, j as int),
                ensures
                    close matches Some(e) ==> wiki_close_from(s, start + 2) == Some(e as int),
                    close is None ==> wiki_close_from(s, start + 2) is None,
                decreases len - j,
            {
                if chars[j] == ']' && chars[j + 1] == ']' {
                    close = Some(j + 2);
                    break;
                }
                if chars[j] == '\n' {
                    // Don't allow wiki links to span lines
                    break;
                }
                j = j + 1;
            }
            proof {
                lemma_wiki_close_from(s, start + 2);
            }
            match close {
                Some(end) => {
                    // Only include non-empty links (i.e., not [[]])
                    if end - start > 4 {
                        proof {
                            lemma_byte_offset_mono(s, start as int, end as int);
                            lemma_byte_offset_mono(s, end as int, s.len() as int);
                        }
                        links.push(offs[start]..offs[end]);
                        proof {
                            done = done.push((start as int, end as int));
                        }
                    }
                    proof {
                        assert(links@ =~= ranges_to_bytes(s, done));
                        assert(done + wiki_links_from(s, end as int) =~= wiki_links_from(s, 0));
                    }
                    i = end;
                },
                None => {
                    // No closing found, move past the opening [[
                    i = start + 2;
                },
            }
        } else {
            i = i + 1;
        }
    }
    proof {
        assert(wiki_links_from(s, i as int) =~= Seq::<(int, int)>::empty());
        assert(done =~= wiki_links_from(s, 0));
    }
    links
}

// ─── Combined spans ─────────────────────────────────────────────────────────

/// Whether range `r` overlaps any of the ranges `ws`.
pub open spec fn overlaps_any(r: Range<usize>, ws: Seq<Range<usize>>) -> bool {
    exists|k: int| 0 <= k < ws.len() && r.start < (#[trigger] ws[k]).end && r.end > ws[k].start
}

/// Search matches (with their index) that do not overlap a wiki link, tagged.
pub open spec fn kept_matches(
    ms: Seq<Range<usize>>,
    ws: Seq<Range<usize>>,
    active: Option<usize>,
    i: int,
) -> Seq<HighlightSpan>
    decreases ms.len() - i,
{
    if i < 0 || i >= ms.len() {
        Seq::empty()
    } else {
        let kind = if active == Some(i as usize) {
            SpanKind::ActiveSearchMatch
        } else {
            SpanKind::SearchMatch
        };
        (if overlaps_any(ms[i], ws) {
            Seq::empty()
        } else {
            seq![HighlightSpan { byte_range: ms[i], kind }]
        }) + kept_matches(ms, ws, active, i + 1)
    }
}

/// Stable merge by start position (`a` first on ties).
pub open spec fn merge_by_start(a: Seq<HighlightSpan>, b: Seq<HighlightSpan>) -> Seq<HighlightSpan>
    decreases a.len() + b.len(),
{
    if a.len() == 0 {
        b
    } else if b.len() == 0 {
        a
    } else if b[0].byte_range.start < a[0].byte_range.start {
        seq![b[0]] + merge_by_start(a, b.drop_first())
    } else {
        seq![a[0]] + merge_by_start(a.drop_first(), b)
    }
}

/// Wiki links tagged as such.
pub open spec fn tag_links(ws: Seq<Range<usize>>) -> Seq<HighlightSpan> {
    ws.map_values(|r: Range<usize>| HighlightSpan { byte_range: r, kind: SpanKind::WikiLink })
}

/// Covering spans built from tagged ranges, from byte `pos` on.
pub open spec fn cover_from(tagged: Seq<HighlightSpan>, pos: int, total: int) -> Seq<HighlightSpan>
    decreases tagged.len(),
{
    if tagged.len() == 0 {
        if pos < total {
            seq![
                HighlightSpan {
                    byte_range: Range { start: pos as usize, end: total as usize },
                    kind: SpanKind::Normal,
                },
            ]
        } else {
            Seq::empty()
        }
    } else {
        let t = tagged[0];
        let gap: Seq<HighlightSpan> = if t.byte_range.start > pos {
            seq![
                HighlightSpan {
                    byte_range: Range { start: pos as usize, end: t.byte_range.start },
                    kind: SpanKind::Normal,
                },
            ]
        } else {
            Seq::empty()
        };
        if t.byte_range.start >= pos {
            gap + seq![t] + cover_from(tagged.drop_first(), t.byte_range.end as int, total)
        } else {
            cover_from(tagged.drop_first(), pos, total)
        }
    }
}

/// What `find_spans` returns.
pub open spec fn spans_spec(text: Seq<char>, query: Seq<char>, active: Option<usize>) -> Seq<
    HighlightSpan,
> {
    if text.len() == 0 {
        Seq::empty()
    } else {
        let ws = ranges_to_bytes(text, wiki_links_from(text, 0));
        let ms = search_matches_spec(text, query);
        let tagged = merge_by_start(tag_links(ws), kept_matches(ms, ws, active, 0));
        cover_from(tagged, 0, encode_utf8(text).len() as int)
    }
}

/// Spans tile `[a, b)`: contiguous, ordered, each with start <= end.
pub open spec fn covers(sp: Seq<HighlightSpan>, a: int, b: int) -> bool {
    if sp.len() == 0 {
        a == b
    } else {
        &&& sp[0].byte_range.start == a
        &&& sp.last().byte_range.end == b
        &&& forall|k: int|
            0 <= k < sp.len() ==> #[trigger] sp[k].byte_range.start <= sp[k].byte_range.end
        &&& forall|k: int|
            0 <= k < sp.len() - 1 ==> #[trigger] sp[k].byte_range.end
                == sp[k + 1].byte_range.start
    }
}

/// Whether `a` overlaps some range of `ws`.
fn overlaps_wiki(a: &Range<usize>, ws: &Vec<Range<usize>>) -> (b: bool)
    ensures
        b == overlaps_any(*a, ws@),
{
    let mut k: usize = 0;
    while k < ws.len()
        invariant
            k <= ws@.len(),
            forall|j: int|
                0 <= j < k ==> !(a.start < (#[trigger] ws@[j]).end && a.end > ws@[j].start),
        decreases ws@.len() - k,
    {
        if a.start < ws[k].end && a.end > ws[k].start {
            return true;
        }
        k = k + 1;
    }
    false
}

/// Build a merged list of `HighlightSpan`s covering the entire text, without gaps.
///
/// Wiki links take precedence over search matches. `active_match_index` (0-based)
/// specifies which search match (in order) should be marked as `ActiveSearchMatch`.
pub fn find_spans(text: &str, query: &str, active_match_index: Option<usize>) -> (r: Vec<
    HighlightSpan,
>)
    ensures
        r@ == spans_spec(text@, query@, active_match_index),
        text@.len() > 0 ==> covers(r@, 0, text.spec_bytes().len() as int),
        text@.len() == 0 ==> r@.len() == 0,
{
    let text_len: usize = text.as_bytes().len();
    let tv = chars_of(text);
    if tv.len() == 0 {
        return Vec::new();
    }
    let search_matches = find_search_matches(text, query);
    let wiki_links = find_wiki_links(text);
    let ghost ws = wiki_links@;
    let ghost ms = search_matches@;
    // Wiki links, tagged
    let mut links: Vec<HighlightSpan> = Vec::new();
    let mut k: usize = 0;
    while k < wiki_links.len()
        invariant
            k <= ws.len(),
            ws == wiki_links@,
            links@ == tag_links(ws.take(k as int)),
        decreases ws.len() - k,
    {
        let r = Range { start: wiki_links[k].start, end: wiki_links[k].end };
        links.push(HighlightSpan { byte_range: r, kind: SpanKind::WikiLink });
        k = k + 1;
        proof {
            assert(links@ =~= tag_links(ws.take(k as int)));
        }
    }
    proof {
        assert(ws.take(k as int) =~= ws);
    }
    // Search matches, but skip any that overlap with wiki links
    let mut kept: Vec<HighlightSpan> = Vec::new();
    let mut i: usize = 0;
    proof {
        assert(kept@ + kept_matches(ms, ws, active_match_index, 0) =~= kept_matches(
            ms,
            ws,
            active_match_index,
            0,
        ));
    }
    while i < search_matches.len()
        invariant
            i <= ms.len(),
            ms == search_matches@,
            ws == wiki_links@,
            kept@ + kept_matches(ms, ws, active_match_index, i as int) == kept_matches(
                ms,
                ws,
                active_match_index,
                0,
            ),
            forall|j: int|
                0 <= j < kept@.len() ==> span_within(#[trigger] kept@[j], text_len as int),
            forall|j: int|
                0 <= j < ms.len() ==> range_within(#[trigger] ms[j], text_len as int),
        decreases ms.len() - i,
    {
        let ghost before = kept@;
        let r = Range { start: search_matches[i].start, end: search_matches[i].end };
        let overlap = overlaps_wiki(&r, &wiki_links);
        let kind = match active_match_index {
            Some(a) => if a == i {
                SpanKind::ActiveSearchMatch
            } else {
                SpanKind::SearchMatch
            },
            None => SpanKind::SearchMatch,
        };
        if !overlap {
            kept.push(HighlightSpan { byte_range: r, kind });
        }
        proof {
            let tail = kept_matches(ms, ws, active_match_index, i as int);
            assert(r == ms[i as int]);
            assert(tail =~= (if overlaps_any(ms[i as int], ws) {
                Seq::empty()
            } else {
                seq![HighlightSpan { byte_range: ms[i as int], kind }]
            }) + kept_matches(ms, ws, active_match_index, i + 1));
            assert(kept@ + kept_matches(ms, ws, active_match_index, i + 1) =~= before + tail);
        }
        i = i + 1;
    }
    proof {
        assert(kept_matches(ms, ws, active_match_index, i as int) =~= Seq::<HighlightSpan>::empty());
        assert(kept@ =~= kept_matches(ms, ws, active_match_index, 0));
    }
    proof {
        assert forall|j: int| 0 <= j < links@.len() implies span_within(#[trigger] links@[j], text_len as int) by {
            assert(links@[j].byte_range == ws[j]);
        }
    }
    // Merge by start position (wiki links first on equal starts)
    let tagged = merge_spans(&links, &kept, text_len);
    // Build spans covering the entire text
    let mut spans: Vec<HighlightSpan> = Vec::new();
    let mut pos: usize = 0;
    let mut t: usize = 0;
    let ghost total = text_len as int;
    let ghost target = cover_from(tagged@, 0, total);
    proof {
        assert(tagged@.skip(0) =~= tagged@);
        assert(spans@ + cover_from(tagged@.skip(0), 0, total) =~= target);
    }
    while t < tagged.len()
        invariant
            t <= tagged@.len(),
            pos <= text_len,
            total == text_len,
            spans@ + cover_from(tagged@.skip(t as int), pos as int, total) == target,
            forall|j: int|
                0 <= j < tagged@.len() ==> span_within(#[trigger] tagged@[j], text_len as int),
            covers(spans@, 0, pos as int),
        decreases tagged@.len() - t,
    {
        let ghost before = spans@;
        let ghost p0 = pos as int;
        let ghost rest = tagged@.skip(t as int);
        proof {
            assert(rest[0] == tagged@[t as int]);
            assert(rest.drop_first() =~= tagged@.skip(t + 1));
        }
        let s0: usize = tagged[t].byte_range.start;
        let e0: usize = tagged[t].byte_range.end;
        let kind = tagged[t].kind;
        if s0 > pos {
            // Normal gap before this special range
            let gap = HighlightSpan { byte_range: pos..s0, kind: SpanKind::Normal };
            proof {
                lemma_covers_push(spans@, 0, pos as int, gap);
            }
            spans.push(gap);
        }
        if s0 >= pos {
            let sp = HighlightSpan { byte_range: s0..e0, kind };
            proof {
                lemma_covers_push(spans@, 0, s0 as int, sp);
            }
            spans.push(sp);
            pos = e0;
        }
        proof {
            assert(HighlightSpan { byte_range: Range { start: s0, end: e0 }, kind } == rest[0]);
            if s0 >= p0 {
                let gap: Seq<HighlightSpan> = if s0 > p0 {
                    seq![
                        HighlightSpan {
                            byte_range: Range { start: p0 as usize, end: s0 },
                            kind: SpanKind::Normal,
                        },
                    ]
                } else {
                    Seq::empty()
                };
                assert(cover_from(rest, p0, total) == gap + seq![rest[0]] + cover_from(
                    rest.drop_first(),
                    e0 as int,
                    total,
                ));
                assert(spans@ =~= before + gap + seq![rest[0]]);
            } else {
                assert(cover_from(rest, p0, total) == cover_from(rest.drop_first(), p0, total));
            }
            assert(spans@ + cover_from(tagged@.skip(t + 1), pos as int, total) =~= before
                + cover_from(rest, p0, total));
        }
        t = t + 1;
    }
    // Trailing normal text
    if pos < text_len {
        let last = HighlightSpan { byte_range: pos..text_len, kind: SpanKind::Normal };
        proof {
            lemma_covers_push(spans@, 0, pos as int, last);
        }
        spans.push(last);
    }
    proof {
        assert(tagged@.skip(t as int) =~= Seq::<HighlightSpan>::empty());
        assert(spans@ =~= target);
        if spans@.len() == 0 {
            assert(target.len() > 0) by {
                lemma_cover_nonempty(tagged@, 0, total);
            }
        }
    }
    spans
}

pub proof fn lemma_covers_push(sp: Seq<HighlightSpan>, a: int, b: int, x: HighlightSpan)
    requires
        covers(sp, a, b),
        x.byte_range.start == b,
        x.byte_range.start <= x.byte_range.end,
    ensures
        covers(sp.push(x), a, x.byte_range.end as int),
{
    let q = sp.push(x);
    assert(q.last() == x);
    assert forall|k: int| 0 <= k < q.len() implies #[trigger] q[k].byte_range.start
        <= q[k].byte_range.end by {
        if k < sp.len() {
            assert(q[k] == sp[k]);
        }
    }
    assert forall|k: int| 0 <= k < q.len() - 1 implies #[trigger] q[k].byte_range.end
        == q[k + 1].byte_range.start by {
        assert(q[k] == sp[k]);
        if k < sp.len() - 1 {
            assert(q[k + 1] == sp[k + 1]);
        } else {
            assert(sp.last() == sp[k]);
        }
    }
    if sp.len() > 0 {
        assert(q[0] == sp[0]);
    }
}

pub proof fn lemma_cover_nonempty(tagged: Seq<HighlightSpan>, pos: int, total: int)
    requires
        0 <= pos < total,
    ensures
        cover_from(tagged, pos, total).len() > 0,
    decreases tagged.len(),
{
    if tagged.len() > 0 {
        let t = tagged[0];
        if t.byte_range.start < pos {
            lemma_cover_nonempty(tagged.drop_first(), pos, total);
        }
    }
}

/// Stable merge of two span lists by start position.
fn merge_spans(a: &Vec<HighlightSpan>, b: &Vec<HighlightSpan>, bound: usize) -> (r: Vec<
    HighlightSpan,
>)
    requires
        forall|j: int|
            0 <= j < a@.len() ==> span_within(#[trigger] a@[j], bound as int),
        forall|j: int|
            0 <= j < b@.len() ==> span_within(#[trigger] b@[j], bound as int),
    ensures
        r@ == merge_by_start(a@, b@),
        forall|j: int|
            0 <= j < r@.len() ==> span_within(#[trigger] r@[j], bound as int),
{
    let mut out: Vec<HighlightSpan> = Vec::new();
    let mut i: usize = 0;
    let mut j: usize = 0;
    proof {
        assert(a@.skip(0) =~= a@);
        assert(b@.skip(0) =~= b@);
    }
    while i < a.len() || j < b.len()
        invariant
            i <= a@.len(),
            j <= b@.len(),
            out@ + merge_by_start(a@.skip(i as int), b@.skip(j as int)) == merge_by_start(a@, b@),
            forall|k: int|
                0 <= k < a@.len() ==> span_within(#[trigger] a@[k], bound as int),
            forall|k: int|
                0 <= k < b@.len() ==> span_within(#[trigger] b@[k], bound as int),
            forall|k: int|
                0 <= k < out@.len() ==> span_within(#[trigger] out@[k], bound as int),
        decreases a@.len() - i + b@.len() - j,
    {
        let ghost before = out@;
        let ghost ra = a@.skip(i as int);
        let ghost rb = b@.skip(j as int);
        let take_b: bool = if i == a.len() {
            true
        } else if j == b.len() {
            false
        } else {
            b[j].byte_range.start < a[i].byte_range.start
        };
        if take_b {
            let x = HighlightSpan {
                byte_range: Range { start: b[j].byte_range.start, end: b[j].byte_range.end },
                kind: b[j].kind,
            };
            proof {
                assert(x == b@[j as int]);
                assert(rb[0] == b@[j as int]);
                assert(rb.drop_first() =~= b@.skip(j + 1));
                if ra.len() == 0 {
                    assert(merge_by_start(ra, rb) == rb);
                    assert(merge_by_start(ra, rb.drop_first()) == rb.drop_first());
                    assert(rb =~= seq![rb[0]] + rb.drop_first());
                } else {
                    assert(ra[0] == a@[i as int]);
                }
            }
            out.push(x);
            j = j + 1;
            proof {
                assert(out@ + merge_by_start(a@.skip(i as int), b@.skip(j as int)) =~= before
                    + merge_by_start(ra, rb));
            }
        } else {
            let x = HighlightSpan {
                byte_range: Range { start: a[i].byte_range.start, end: a[i].byte_range.end },
                kind: a[i].kind,
            };
            proof {
                assert(x == a@[i as int]);
                assert(ra[0] == a@[i as int]);
                assert(ra.drop_first() =~= a@.skip(i + 1));
                if rb.len() == 0 {
                    assert(merge_by_start(ra, rb) == ra);
                    assert(merge_by_start(ra.drop_first(), rb) == ra.drop_first());
                    assert(ra =~= seq![ra[0]] + ra.drop_first());
                } else {
                    assert(rb[0] == b@[j as int]);
                }
            }
            out.push(x);
            i = i + 1;
            proof {
                assert(out@ + merge_by_start(a@.skip(i as int), b@.skip(j as int)) =~= before
                    + merge_by_start(ra, rb));
            }
        }
    }
    proof {
        assert(a@.skip(i as int) =~= Seq::<HighlightSpan>::empty());
        assert(b@.skip(j as int) =~= Seq::<HighlightSpan>::empty());
        assert(out@ =~= merge_by_start(a@, b@));
        assert(forall|k: int|
            0 <= k < out@.len() ==> span_within(#[trigger] out@[k], bound as int));
    }
    out
}

/// Detect if the cursor is inside an unclosed `[[` wiki link context.
///
/// Returns `Some((partial_text, start_char_offset))` where `partial_text` is the
/// text typed so far after `[[`, and `start_char_offset` is the char position
/// right after `[[`.
///
/// `cursor_char` is the cursor position in **char** offsets.
pub fn detect_link_autocomplete_context(text: &str, cursor_char: usize) -> (r: Option<
    (String, usize),
>)
    ensures
        r matches Some(p) ==> autocomplete_spec(text@, cursor_char as int) == Some(
            (p.0@, p.1 as int),
        ),
        r is None ==> autocomplete_spec(text@, cursor_char as int) is None,
{
    let chars = chars_of(text);
    let c: usize = if cursor_char < chars.len() {
        cursor_char
    } else {
        chars.len()
    };
    // Search backwards for [[ without a closing ]]
    let mut k: usize = c;
    while k >= 2 && !(chars[k - 2] == '[' && chars[k - 1] == '[')
        invariant
            k <= c <= chars@.len(),
            last_open(chars@, c as int) == last_open(chars@, k as int),
        decreases k,
    {
        k = k - 1;
    }
    if k < 2 {
        return None;
    }
    let start: usize = k;
    // Make sure there's no ]] or newline between [[ and cursor
    let closers: [char; 2] = [']', ']'];
    let newline: [char; 1] = ['\n'];
    proof {
        assert(closers@ =~= close_pat());
        assert(newline@ =~= seq!['\n']);
    }
    let after = string_from_range(chars.as_slice(), start, c);
    let av = chars_of(after.as_str());
    if contains_chars(av.as_slice(), closers.as_slice()) || contains_chars(
        av.as_slice(),
        newline.as_slice(),
    ) {
        return None;
    }
    Some((after, start))
}

} // verus!
