//! Lightweight inline markdown parser.
//!
//! Produces `(Range<usize>, Style)` spans covering every byte of the input.
//! Supported syntax:
//! - `**bold**`
//! - `*italic*` / `_italic_`
//! - `~~strikethrough~~`
//! - `` `inline code` ``
//! - `# Heading` through `###### Heading` (line prefixes)
//! - `> Quote` (line prefix)
//! - URL auto-detection: `http://`, `https://`, `mailto:`
use std::ops::Range;
use vstd::prelude::*;
use vstd::string::StringSliceAdditionalSpecFns;
use crate::text::{byte_offset, char_table, is_whitespace, is_ws, lemma_byte_offset_ends, lemma_byte_offset_mono, skip_ws_forward, trim_start};
use vstd::utf8::encode_utf8;

verus! {

/// Inline style flags for a span of text.
#[derive(Debug, Clone, Copy, PartialEq, Eq, Structural)]
pub struct Style {
    pub bold: bool,
    pub italic: bool,
    pub strikethrough: bool,
    pub code: bool,
    /// 0 = none, 1-6 = heading level
    pub heading: u8,
    pub quote: bool,
    pub url: bool,
}

/// The style with no flag set.
pub open spec fn plain() -> Style {
    Style {
        bold: false,
        italic: false,
        strikethrough: false,
        code: false,
        heading: 0,
        quote: false,
        url: false,
    }
}

impl Style {
    /// The style with no flag set.
    pub fn plain_style() -> (s: Style)
        ensures
            s == plain(),
    {
        Style {
            bold: false,
            italic: false,
            strikethrough: false,
            code: false,
            heading: 0,
            quote: false,
            url: false,
        }
    }
}

impl Default for Style {
    fn default() -> (s: Style)
        ensures
            s == plain(),
    {
        Style::plain_style()
    }
}

/// A span in char indices: `(start, end, style)`.
pub type CharSpan = (int, int, Style);

// ─── Line structure ─────────────────────────────────────────────────────────

/// Index just after the first `'\n'` at or after `i` (or the length of `s`).
pub open spec fn next_line_end(s: Seq<char>, i: int) -> int
    decreases s.len() - i,
{
    if i >= s.len() {
        s.len() as int
    } else if s[i] == '\n' {
        i + 1
    } else {
        next_line_end(s, i + 1)
    }
}

/// Number of leading `'#'` chars.
pub open spec fn hash_run(t: Seq<char>) -> int
    decreases t.len(),
{
    if t.len() > 0 && t[0] == '#' {
        1 + hash_run(t.drop_first())
    } else {
        0
    }
}

/// Whether `t[i..]` is empty or starts with a space or newline.
pub open spec fn ends_prefix(t: Seq<char>, i: int) -> bool {
    i >= t.len() || t[i] == ' ' || t[i] == '\n'
}

/// Line-level style from a line prefix (heading or quote).
pub open spec fn line_style(line: Seq<char>) -> Style {
    let t = trim_start(line);
    let lv = hash_run(t);
    if t.len() > 0 && t[0] == '#' && lv <= 6 && ends_prefix(t, lv) {
        Style { heading: lv as u8, ..plain() }
    } else if t.len() > 0 && t[0] == '>' && ends_prefix(t, 1) {
        Style { quote: true, ..plain() }
    } else {
        plain()
    }
}

// ─── Inline scanners ────────────────────────────────────────────────────────

/// Whether `pat` stands at `pos` within `s[..end]`.
pub open spec fn prefix_within(s: Seq<char>, pos: int, end: int, pat: Seq<char>) -> bool {
    0 <= pos && pos + pat.len() <= end && end <= s.len() && s.subrange(pos, pos + pat.len()) == pat
}

pub open spec fn https_pat() -> Seq<char> {
    seq!['h', 't', 't', 'p', 's', ':', '/', '/']
}

pub open spec fn http_pat() -> Seq<char> {
    seq!['h', 't', 't', 'p', ':', '/', '/']
}

pub open spec fn mailto_pat() -> Seq<char> {
    seq!['m', 'a', 'i', 'l', 't', 'o', ':']
}

/// Length of the URL scheme at `pos`, or 0.
pub open spec fn url_prefix_len(s: Seq<char>, pos: int, end: int) -> int {
    if prefix_within(s, pos, end, https_pat()) {
        8
    } else if prefix_within(s, pos, end, http_pat()) {
        7
    } else if prefix_within(s, pos, end, mailto_pat()) {
        7
    } else {
        0
    }
}

/// Chars that end a URL.
pub open spec fn is_url_stop(c: char) -> bool {
    is_ws(c) || c == '<' || c == '>' || c == '[' || c == ']' || c == '(' || c == ')'
}

/// First index in `i..end` holding a URL stop char (or `end`).
pub open spec fn url_stop(s: Seq<char>, i: int, end: int) -> int
    decreases end - i,
{
    if i >= end {
        end
    } else if is_url_stop(s[i]) {
        i
    } else {
        url_stop(s, i + 1, end)
    }
}

/// End of the URL starting at `pos`, if one starts there.
pub open spec fn url_at(s: Seq<char>, pos: int, end: int) -> Option<int> {
    let p = url_prefix_len(s, pos, end);
    if p == 0 || end - pos <= p {
        None
    } else {
        let e = url_stop(s, pos + p, end);
        if e <= pos + p {
            None
        } else {
            Some(e)
        }
    }
}

/// End (after the closing backtick) of a code span whose body starts at `i`.
pub open spec fn backtick_close(s: Seq<char>, i: int, end: int) -> Option<int>
    decreases end - i,
{
    if i >= end {
        None
    } else if s[i] == '`' {
        Some(i + 1)
    } else if s[i] == '\n' {
        None
    } else {
        backtick_close(s, i + 1, end)
    }
}

/// Scan for a closing double delimiter from `i`.
pub open spec fn double_close_from(s: Seq<char>, i: int, end: int, d: char) -> Option<int>
    decreases end - i,
{
    if i + 1 >= end {
        None
    } else if s[i] == d && s[i + 1] == d {
        Some(i + 2)
    } else if s[i] == '\n' {
        None
    } else {
        double_close_from(s, i + 1, end, d)
    }
}

/// End (after the closing pair) of a double-delimited span opened at `open`.
pub open spec fn double_close(s: Seq<char>, open: int, end: int, d: char) -> Option<int> {
    let p = open + 2;
    if p >= end || s[p] == d {
        None
    } else {
        double_close_from(s, p, end, d)
    }
}

/// Scan for a closing single delimiter from `i`; for `*` a `**` pair is skipped.
pub open spec fn single_close_from(s: Seq<char>, i: int, end: int, d: char) -> Option<int>
    decreases end - i,
{
    if i >= end {
        None
    } else if s[i] == d {
        if d == '*' && i + 1 < end && s[i + 1] == '*' {
            single_close_from(s, i + 2, end, d)
        } else {
            Some(i + 1)
        }
    } else if s[i] == '\n' {
        None
    } else {
        single_close_from(s, i + 1, end, d)
    }
}

/// End (after the closing delimiter) of a single-delimited span opened at `open`.
pub open spec fn single_close(s: Seq<char>, open: int, end: int, d: char) -> Option<int> {
    let p = open + 1;
    if p >= end || s[p] == d {
        None
    } else {
        single_close_from(s, p, end, d)
    }
}

pub proof fn lemma_url_stop(s: Seq<char>, i: int, end: int)
    requires
        i <= end,
    ensures
        i <= url_stop(s, i, end) <= end,
    decreases end - i,
{
    if i < end && !is_url_stop(s[i]) {
        lemma_url_stop(s, i + 1, end);
    }
}

pub proof fn lemma_backtick_close(s: Seq<char>, i: int, end: int)
    ensures
        backtick_close(s, i, end) matches Some(e) ==> i < e <= end,
    decreases end - i,
{
    if i < end && s[i] != '`' && s[i] != '\n' {
        lemma_backtick_close(s, i + 1, end);
    }
}

pub proof fn lemma_double_close_from(s: Seq<char>, i: int, end: int, d: char)
    ensures
        double_close_from(s, i, end, d) matches Some(e) ==> i < e <= end,
    decreases end - i,
{
    if i + 1 < end && !(s[i] == d && s[i + 1] == d) && s[i] != '\n' {
        lemma_double_close_from(s, i + 1, end, d);
    }
}

pub proof fn lemma_single_close_from(s: Seq<char>, i: int, end: int, d: char)
    ensures
        single_close_from(s, i, end, d) matches Some(e) ==> i < e <= end,
    decreases end - i,
{
    if i < end {
        if s[i] == d {
            if d == '*' && i + 1 < end && s[i + 1] == '*' {
                lemma_single_close_from(s, i + 2, end, d);
            }
        } else if s[i] != '\n' {
            lemma_single_close_from(s, i + 1, end, d);
        }
    }
}

/// One inline token at `pos` (within a line ending at `end`): its end and style.
pub open spec fn inline_step(s: Seq<char>, pos: int, end: int, st: Style) -> (int, Style) {
    if url_at(s, pos, end) is Some {
        (url_at(s, pos, end)->0, Style { url: true, ..st })
    } else if s[pos] == '`' && backtick_close(s, pos + 1, end) is Some {
        (backtick_close(s, pos + 1, end)->0, Style { code: true, ..st })
    } else if pos + 1 < end && s[pos] == '~' && s[pos + 1] == '~' && double_close(
        s,
        pos,
        end,
        '~',
    ) is Some {
        (double_close(s, pos, end, '~')->0, Style { strikethrough: true, ..st })
    } else if pos + 1 < end && s[pos] == '*' && s[pos + 1] == '*' && double_close(
        s,
        pos,
        end,
        '*',
    ) is Some {
        (double_close(s, pos, end, '*')->0, Style { bold: true, ..st })
    } else if s[pos] == '*' && !(pos + 1 < end && s[pos + 1] == '*') && single_close(
        s,
        pos,
        end,
        '*',
    ) is Some {
        (single_close(s, pos, end, '*')->0, Style { italic: true, ..st })
    } else if s[pos] == '_' && single_close(s, pos, end, '_') is Some {
        (single_close(s, pos, end, '_')->0, Style { italic: true, ..st })
    } else {
        (pos + 1, st)
    }
}

pub proof fn lemma_inline_step(s: Seq<char>, pos: int, end: int, st: Style)
    requires
        0 <= pos < end,
    ensures
        pos < inline_step(s, pos, end, st).0 <= end,
{
    lemma_url_stop(s, pos + url_prefix_len(s, pos, end), end);
    lemma_backtick_close(s, pos + 1, end);
    lemma_double_close_from(s, pos + 2, end, '~');
    lemma_double_close_from(s, pos + 2, end, '*');
    lemma_single_close_from(s, pos + 1, end, '*');
    lemma_single_close_from(s, pos + 1, end, '_');
}

/// Inline spans of `s[pos..end]` under the line style `st`.
pub open spec fn inline_spans(s: Seq<char>, pos: int, end: int, st: Style) -> Seq<CharSpan>
    decreases end - pos,
{
    if pos < 0 || pos >= end {
        Seq::empty()
    } else {
        let (e, sty) = inline_step(s, pos, end, st);
        proof {
            lemma_inline_step(s, pos, end, st);
        }
        seq![(pos, e, sty)] + inline_spans(s, e, end, st)
    }
}

pub proof fn lemma_next_line_end(s: Seq<char>, i: int)
    requires
        0 <= i < s.len(),
    ensures
        i < next_line_end(s, i) <= s.len(),
        forall|k: int| i <= k < next_line_end(s, i) - 1 ==> s[k] != '\n',
        next_line_end(s, i) < s.len() ==> s[next_line_end(s, i) - 1] == '\n',
        next_line_end(s, i) == s.len() ==> s[s.len() - 1] == '\n' || forall|k: int|
            i <= k < s.len() ==> s[k] != '\n',
    decreases s.len() - i,
{
    if s[i] != '\n' {
        if i + 1 < s.len() {
            lemma_next_line_end(s, i + 1);
        } else {
            assert(next_line_end(s, i + 1) == s.len());
        }
    }
}

/// Spans of every line from char `i` on.
pub open spec fn line_spans(s: Seq<char>, i: int) -> Seq<CharSpan>
    decreases s.len() - i,
{
    if i < 0 || i >= s.len() {
        Seq::empty()
    } else {
        let e = next_line_end(s, i);
        proof {
            lemma_next_line_end(s, i);
        }
        inline_spans(s, i, e, line_style(s.subrange(i, e))) + line_spans(s, e)
    }
}

/// The parse of a char sequence, as char spans.
pub open spec fn parse_spec(s: Seq<char>) -> Seq<CharSpan> {
    line_spans(s, 0)
}

/// Char spans mapped to byte ranges of the UTF-8 encoding of `s`.
pub open spec fn to_bytes(s: Seq<char>, sp: Seq<CharSpan>) -> Seq<(Range<usize>, Style)> {
    sp.map_values(
        |t: CharSpan|
            (Range { start: byte_offset(s, t.0) as usize, end: byte_offset(s, t.1) as usize }, t.2),
    )
}

// ─── Tiling ─────────────────────────────────────────────────────────────────

/// `sp` covers `[a, b)` with non-empty, contiguous, ordered spans.
pub open spec fn tiles(sp: Seq<CharSpan>, a: int, b: int) -> bool {
    if sp.len() == 0 {
        a == b
    } else {
        &&& sp[0].0 == a
        &&& sp.last().1 == b
        &&& forall|k: int| 0 <= k < sp.len() ==> #[trigger] sp[k].0 < sp[k].1
        &&& forall|k: int| 0 <= k < sp.len() - 1 ==> #[trigger] sp[k].1 == sp[k + 1].0
    }
}

/// Byte spans cover `[a, b)` with non-empty, contiguous, ordered ranges.
pub open spec fn tiles_bytes(sp: Seq<(Range<usize>, Style)>, a: int, b: int) -> bool {
    if sp.len() == 0 {
        a == b
    } else {
        &&& sp[0].0.start == a
        &&& sp.last().0.end == b
        &&& forall|k: int| 0 <= k < sp.len() ==> #[trigger] sp[k].0.start < sp[k].0.end
        &&& forall|k: int| 0 <= k < sp.len() - 1 ==> #[trigger] sp[k].0.end == sp[k + 1].0.start
    }
}

pub proof fn lemma_tiles_concat(x: Seq<CharSpan>, y: Seq<CharSpan>, a: int, b: int, c: int)
    requires
        tiles(x, a, b),
        tiles(y, b, c),
    ensures
        tiles(x + y, a, c),
{
    let z = x + y;
    if x.len() == 0 {
        assert(z =~= y);
    } else if y.len() == 0 {
        assert(z =~= x);
    } else {
        assert(z[0] == x[0]);
        assert(z.last() == y.last());
        assert forall|k: int| 0 <= k < z.len() implies #[trigger] z[k].0 < z[k].1 by {
            if k < x.len() {
                assert(z[k] == x[k]);
            } else {
                assert(z[k] == y[k - x.len()]);
            }
        }
        assert forall|k: int| 0 <= k < z.len() - 1 implies #[trigger] z[k].1 == z[k + 1].0 by {
            if k < x.len() - 1 {
                assert(z[k] == x[k]);
                assert(z[k + 1] == x[k + 1]);
            } else if k == x.len() - 1 {
                assert(z[k] == x[k]);
                assert(z[k + 1] == y[0]);
            } else {
                assert(z[k] == y[k - x.len()]);
                assert(z[k + 1] == y[k + 1 - x.len()]);
            }
        }
    }
}

pub proof fn lemma_inline_tiles(s: Seq<char>, pos: int, end: int, st: Style)
    requires
        0 <= pos <= end,
    ensures
        tiles(inline_spans(s, pos, end, st), pos, end),
    decreases end - pos,
{
    if pos < end {
        let (e, sty) = inline_step(s, pos, end, st);
        lemma_inline_step(s, pos, end, st);
        lemma_inline_tiles(s, e, end, st);
        let one: Seq<CharSpan> = seq![(pos, e, sty)];
        assert(tiles(one, pos, e));
        lemma_tiles_concat(one, inline_spans(s, e, end, st), pos, e, end);
    }
}

pub proof fn lemma_line_tiles(s: Seq<char>, i: int)
    requires
        0 <= i <= s.len(),
    ensures
        tiles(line_spans(s, i), i, s.len() as int),
    decreases s.len() - i,
{
    if i < s.len() {
        let e = next_line_end(s, i);
        lemma_next_line_end(s, i);
        lemma_inline_tiles(s, i, e, line_style(s.subrange(i, e)));
        lemma_line_tiles(s, e);
        lemma_tiles_concat(
            inline_spans(s, i, e, line_style(s.subrange(i, e))),
            line_spans(s, e),
            i,
            e,
            s.len() as int,
        );
    }
}

/// Char tiles of `s` map to byte tiles of its encoding.
pub proof fn lemma_to_bytes_tiles(s: Seq<char>, sp: Seq<CharSpan>, a: int, b: int)
    requires
        tiles(sp, a, b),
        0 <= a <= b <= s.len(),
        encode_utf8_len_fits(s),
    ensures
        tiles_bytes(to_bytes(s, sp), byte_offset(s, a), byte_offset(s, b)),
{
    let bs = to_bytes(s, sp);
    if sp.len() > 0 {
        lemma_tiles_bounds(sp, a, b);
        assert forall|k: int| 0 <= k < sp.len() implies byte_offset(s, sp[k].0) as usize
            == byte_offset(s, sp[k].0) && byte_offset(s, sp[k].1) as usize == byte_offset(
            s,
            sp[k].1,
        ) by {
            lemma_byte_offset_mono(s, 0, sp[k].0);
            lemma_byte_offset_mono(s, sp[k].0, sp[k].1);
            lemma_byte_offset_mono(s, sp[k].1, s.len() as int);
            lemma_byte_offset_ends(s);
        }
        assert forall|k: int| 0 <= k < bs.len() implies #[trigger] bs[k].0.start < bs[k].0.end by {
            lemma_byte_offset_mono(s, sp[k].0, sp[k].1);
        }
        assert forall|k: int| 0 <= k < bs.len() - 1 implies #[trigger] bs[k].0.end == bs[k
            + 1].0.start by {
            assert(sp[k].1 == sp[k + 1].0);
        }
        assert(bs[0].0.start == byte_offset(s, a));
        assert(bs.last() == bs[bs.len() - 1]);
        assert(bs.last().0.end == byte_offset(s, b));
    }
}

/// The encoding of `s` fits in memory.
pub open spec fn encode_utf8_len_fits(s: Seq<char>) -> bool {
    encode_utf8(s).len() <= usize::MAX
}

pub proof fn lemma_tiles_bounds(sp: Seq<CharSpan>, a: int, b: int)
    requires
        tiles(sp, a, b),
    ensures
        forall|k: int| 0 <= k < sp.len() ==> a <= #[trigger] sp[k].0 && sp[k].1 <= b,
{
    assert forall|k: int| 0 <= k < sp.len() implies a <= #[trigger] sp[k].0 && sp[k].1 <= b by {
        lemma_tiles_bounds_at(sp, a, b, k);
    }
}

proof fn lemma_tiles_bounds_at(sp: Seq<CharSpan>, a: int, b: int, k: int)
    requires
        tiles(sp, a, b),
        0 <= k < sp.len(),
    ensures
        a <= sp[k].0,
        sp[k].1 <= b,
{
    lemma_tiles_lower(sp, a, b, k);
    lemma_tiles_upper(sp, a, b, k);
}

proof fn lemma_tiles_lower(sp: Seq<CharSpan>, a: int, b: int, k: int)
    requires
        tiles(sp, a, b),
        0 <= k < sp.len(),
    ensures
        a <= sp[k].0,
    decreases k,
{
    if k > 0 {
        lemma_tiles_lower(sp, a, b, k - 1);
        assert(sp[k - 1].1 == sp[k].0);
        assert(sp[k - 1].0 < sp[k - 1].1);
    }
}

proof fn lemma_tiles_upper(sp: Seq<CharSpan>, a: int, b: int, k: int)
    requires
        tiles(sp, a, b),
        0 <= k < sp.len(),
    ensures
        sp[k].1 <= b,
    decreases sp.len() - k,
{
    if k < sp.len() - 1 {
        lemma_tiles_upper(sp, a, b, k + 1);
        assert(sp[k].1 == sp[k + 1].0);
        assert(sp[k + 1].0 < sp[k + 1].1);
    }
}

// ─── Gap filling ────────────────────────────────────────────────────────────

/// Gap filling from byte `cursor` on.
pub open spec fn gaps_from(sp: Seq<(Range<usize>, Style)>, cursor: int, total: int) -> Seq<
    (Range<usize>, Style),
>
    decreases sp.len(),
{
    if sp.len() == 0 {
        if cursor < total {
            seq![(Range { start: cursor as usize, end: total as usize }, plain())]
        } else {
            Seq::empty()
        }
    } else {
        let r = sp[0].0;
        let pre: Seq<(Range<usize>, Style)> = if r.start > cursor {
            seq![(Range { start: cursor as usize, end: r.start }, plain())]
        } else {
            Seq::empty()
        };
        let eff = if r.start > cursor {
            r.start as int
        } else {
            cursor
        };
        let mid: Seq<(Range<usize>, Style)> = if eff < r.end {
            seq![(Range { start: eff as usize, end: r.end }, sp[0].1)]
        } else {
            Seq::empty()
        };
        let next = if cursor > r.end {
            cursor
        } else {
            r.end as int
        };
        pre + mid + gaps_from(sp.drop_first(), next, total)
    }
}

/// What `fill_gaps` returns.
pub open spec fn fill_gaps_spec(sp: Seq<(Range<usize>, Style)>, total: int) -> Seq<
    (Range<usize>, Style),
> {
    gaps_from(sp, 0, total)
}

pub proof fn lemma_gaps_identity(sp: Seq<(Range<usize>, Style)>, cursor: int, total: int)
    requires
        tiles_bytes(sp, cursor, total),
    ensures
        gaps_from(sp, cursor, total) == sp,
    decreases sp.len(),
{
    if sp.len() > 0 {
        let rest = sp.drop_first();
        if rest.len() > 0 {
            assert(rest[0] == sp[1]);
            assert(sp[0].0.end == sp[1].0.start);
            assert(rest.last() == sp.last());
            assert forall|k: int| 0 <= k < rest.len() implies #[trigger] rest[k].0.start
                < rest[k].0.end by {
                assert(rest[k] == sp[k + 1]);
            }
            assert forall|k: int| 0 <= k < rest.len() - 1 implies #[trigger] rest[k].0.end
                == rest[k + 1].0.start by {
                assert(rest[k] == sp[k + 1]);
                assert(rest[k + 1] == sp[k + 2]);
            }
            assert(tiles_bytes(rest, sp[0].0.end as int, total));
        } else {
            assert(sp.last() == sp[0]);
        }
        lemma_gaps_identity(rest, sp[0].0.end as int, total);
        assert(sp[0].0.start < sp[0].0.end);
        assert(seq![(Range { start: cursor as usize, end: sp[0].0.end }, sp[0].1)] =~= seq![
            sp[0],
        ]);
        assert(sp =~= seq![sp[0]] + rest);
    }
}

/// Fill gaps between spans with default-styled spans, ensuring every byte is covered.
fn fill_gaps(spans: Vec<(Range<usize>, Style)>, total_len: usize) -> (r: Vec<
    (Range<usize>, Style),
>)
    ensures
        r@ == fill_gaps_spec(spans@, total_len as int),
{
    if spans.len() == 0 {
        if total_len > 0 {
            let mut v: Vec<(Range<usize>, Style)> = Vec::new();
            v.push((0..total_len, Style::plain_style()));
            return v;
        }
        return Vec::new();
    }
    let mut result: Vec<(Range<usize>, Style)> = Vec::new();
    let mut cursor: usize = 0;
    let mut i: usize = 0;
    proof {
        assert(spans@.skip(0) =~= spans@);
    }
    while i < spans.len()
        invariant
            i <= spans@.len(),
            result@ + gaps_from(spans@.skip(i as int), cursor as int, total_len as int)
                == fill_gaps_spec(spans@, total_len as int),
        decreases spans@.len() - i,
    {
        let ghost before = result@;
        let ghost rest = spans@.skip(i as int);
        proof {
            assert(rest[0] == spans@[i as int]);
            assert(rest.drop_first() =~= spans@.skip(i as int + 1));
        }
        let range_start: usize = spans[i].0.start;
        let range_end: usize = spans[i].0.end;
        let style = spans[i].1;
        if range_start > cursor {
            result.push((cursor..range_start, Style::plain_style()));
        }
        let effective_start: usize = if range_start > cursor {
            range_start
        } else {
            cursor
        };
        if effective_start < range_end {
            result.push((effective_start..range_end, style));
        }
        let next: usize = if cursor > range_end {
            cursor
        } else {
            range_end
        };
        proof {
            let r = rest[0].0;
            let pre: Seq<(Range<usize>, Style)> = if r.start > cursor {
                seq![(Range { start: cursor as usize, end: r.start }, plain())]
            } else {
                Seq::empty()
            };
            let mid: Seq<(Range<usize>, Style)> = if effective_start < r.end {
                seq![(Range { start: effective_start as usize, end: r.end }, rest[0].1)]
            } else {
                Seq::empty()
            };
            assert(result@ =~= before + pre + mid);
            assert(gaps_from(rest, cursor as int, total_len as int) =~= pre + mid + gaps_from(
                rest.drop_first(),
                next as int,
                total_len as int,
            ));
            assert(result@ + gaps_from(rest.drop_first(), next as int, total_len as int)
                =~= before + gaps_from(rest, cursor as int, total_len as int));
        }
        cursor = next;
        i = i + 1;
    }
    proof {
        assert(spans@.skip(i as int) =~= Seq::<(Range<usize>, Style)>::empty());
    }
    if cursor < total_len {
        result.push((cursor..total_len, Style::plain_style()));
    }
    proof {
        assert(result@ =~= fill_gaps_spec(spans@, total_len as int));
    }
    result
}

// ─── Executable scanners ────────────────────────────────────────────────────

/// Whether `pat` stands at `pos` within `v[..end]`.
fn has_prefix_within(v: &[char], pos: usize, end: usize, pat: &[char]) -> (r: bool)
    requires
        end <= v@.len(),
    ensures
        r == prefix_within(v@, pos as int, end as int, pat@),
{
    if pos > end || pat.len() > end - pos {
        return false;
    }
    let mut i: usize = 0;
    while i < pat.len()
        invariant
            pos + pat@.len() <= end <= v@.len(),
            i <= pat@.len(),
            forall|k: int| 0 <= k < i ==> v@[pos + k] == pat@[k],
        decreases pat@.len() - i,
    {
        if v[pos + i] != pat[i] {
            proof {
                assert(v@.subrange(pos as int, pos + pat@.len())[i as int] != pat@[i as int]);
            }
            return false;
        }
        i = i + 1;
    }
    proof {
        assert(v@.subrange(pos as int, pos + pat@.len()) =~= pat@);
    }
    true
}

/// Whether `c` ends a URL.
fn is_url_stop_char(c: char) -> (b: bool)
    ensures
        b == is_url_stop(c),
{
    is_whitespace(c) || c == '<' || c == '>' || c == '[' || c == ']' || c == '(' || c == ')'
}

/// Try to parse a URL starting at `pos`. Returns the end position if found.
fn try_parse_url(v: &[char], pos: usize, end: usize) -> (r: Option<usize>)
    requires
        pos < end <= v@.len(),
    ensures
        r matches Some(e) ==> url_at(v@, pos as int, end as int) == Some(e as int),
        r is None ==> url_at(v@, pos as int, end as int) is None,
{
    let https: [char; 8] = ['h', 't', 't', 'p', 's', ':', '/', '/'];
    let http: [char; 7] = ['h', 't', 't', 'p', ':', '/', '/'];
    let mailto: [char; 7] = ['m', 'a', 'i', 'l', 't', 'o', ':'];
    proof {
        assert(https@ =~= https_pat());
        assert(http@ =~= http_pat());
        assert(mailto@ =~= mailto_pat());
    }
    let prefix_len: usize = if has_prefix_within(v, pos, end, https.as_slice()) {
        8
    } else if has_prefix_within(v, pos, end, http.as_slice()) {
        7
    } else if has_prefix_within(v, pos, end, mailto.as_slice()) {
        7
    } else {
        return None;
    };
    // Must have at least one character after the prefix
    if end - pos <= prefix_len {
        return None;
    }
    // Consume until whitespace, bracket, or paren
    let start: usize = pos + prefix_len;
    let mut i: usize = start;
    while i < end && !is_url_stop_char(v[i])
        invariant
            start <= i <= end <= v@.len(),
            url_stop(v@, start as int, end as int) == url_stop(v@, i as int, end as int),
        decreases end - i,
    {
        i = i + 1;
    }
    if i <= start {
        return None;
    }
    Some(i)
}

/// Find closing backtick for inline code. Returns end position (after closing backtick).
fn find_closing_backtick(v: &[char], open: usize, end: usize) -> (r: Option<usize>)
    requires
        open < end <= v@.len(),
    ensures
        r matches Some(e) ==> backtick_close(v@, open + 1, end as int) == Some(e as int),
        r is None ==> backtick_close(v@, open + 1, end as int) is None,
{
    let mut pos: usize = open + 1;
    while pos < end
        invariant
            open < pos <= end <= v@.len(),
            backtick_close(v@, open + 1, end as int) == backtick_close(v@, pos as int, end as int),
        decreases end - pos,
    {
        if v[pos] == '`' {
            return Some(pos + 1);
        }
        if v[pos] == '\n' {
            // Code spans don't cross lines
            return None;
        }
        pos = pos + 1;
    }
    None
}

/// Find closing double delimiter (e.g., `**` or `~~`). Returns end position (after closing).
fn find_closing_double(v: &[char], open: usize, end: usize, delim: char) -> (r: Option<usize>)
    requires
        open + 1 < end <= v@.len(),
    ensures
        r matches Some(e) ==> double_close(v@, open as int, end as int, delim) == Some(e as int),
        r is None ==> double_close(v@, open as int, end as int, delim) is None,
{
    let mut pos: usize = open + 2;
    // Must have at least one character between delimiters
    if pos >= end || v[pos] == delim {
        return None;
    }
    while pos + 1 < end
        invariant
            open + 2 <= pos < end <= v@.len(),
            double_close(v@, open as int, end as int, delim) == double_close_from(
                v@,
                pos as int,
                end as int,
                delim,
            ),
        decreases end - pos,
    {
        if v[pos] == delim && v[pos + 1] == delim {
            return Some(pos + 2);
        }
        if v[pos] == '\n' {
            // Don't cross line boundaries
            return None;
        }
        pos = pos + 1;
    }
    None
}

/// Find closing single delimiter (e.g., `*` or `_`). Returns end position (after closing).
fn find_closing_single(v: &[char], open: usize, end: usize, delim: char) -> (r: Option<usize>)
    requires
        open < end <= v@.len(),
    ensures
        r matches Some(e) ==> single_close(v@, open as int, end as int, delim) == Some(e as int),
        r is None ==> single_close(v@, open as int, end as int, delim) is None,
{
    let mut pos: usize = open + 1;
    // Must have at least one character between delimiters
    if pos >= end || v[pos] == delim {
        return None;
    }
    while pos < end
        invariant
            open < pos <= end + 1,
            end <= v@.len(),
            single_close(v@, open as int, end as int, delim) == single_close_from(
                v@,
                pos as int,
                end as int,
                delim,
            ),
        decreases end + 1 - pos,
    {
        // For `*`, if we see `**` that's a bold delimiter, not two singles
        if v[pos] == delim {
            if delim == '*' && pos + 1 < end && v[pos + 1] == '*' {
                pos = pos + 2;
                continue;
            }
            return Some(pos + 1);
        }
        if v[pos] == '\n' {
            return None;
        }
        pos = pos + 1;
    }
    None
}

/// Detect line-level style from the line `v[start..end]`.
fn detect_line_style(v: &[char], start: usize, end: usize) -> (st: Style)
    requires
        start <= end <= v@.len(),
    ensures
        st == line_style(v@.subrange(start as int, end as int)),
{
    let ghost line = v@.subrange(start as int, end as int);
    let b: usize = skip_ws_forward(v, start, end);
    let ghost t = trim_start(line);
    proof {
        assert(t =~= v@.subrange(b as int, end as int));
    }
    // Heading: # through ######
    if b < end && v[b] == '#' {
        let mut k: usize = b;
        while k < end && v[k] == '#'
            invariant
                b <= k <= end <= v@.len(),
                t == v@.subrange(b as int, end as int),
                hash_run(t) == (k - b) + hash_run(v@.subrange(k as int, end as int)),
            decreases end - k,
        {
            proof {
                assert(v@.subrange(k as int, end as int).drop_first() =~= v@.subrange(
                    k + 1,
                    end as int,
                ));
            }
            k = k + 1;
        }
        let level: usize = k - b;
        if level <= 6 {
            // Must be followed by a space or end of line
            if k >= end || v[k] == ' ' || v[k] == '\n' {
                return Style { heading: level as u8, ..Style::plain_style() };
            }
        }
    }
    // Quote: > at start of line
    if b < end && v[b] == '>' {
        if b + 1 >= end || v[b + 1] == ' ' || v[b + 1] == '\n' {
            return Style { quote: true, ..Style::plain_style() };
        }
    }
    Style::plain_style()
}

/// Parse inline formatting within the line `v[start..end]`, appending byte spans.
fn parse_inline(
    v: &[char],
    offs: &[usize],
    start: usize,
    end: usize,
    line_style: &Style,
    spans: &mut Vec<(Range<usize>, Style)>,
    Ghost(done): Ghost<Seq<CharSpan>>,
)
    requires
        start <= end <= v@.len(),
        offs@.len() == v@.len() + 1,
        forall|i: int| 0 <= i <= v@.len() ==> #[trigger] offs@[i] == byte_offset(v@, i),
        old(spans)@ == to_bytes(v@, done),
    ensures
        final(spans)@ == to_bytes(v@, done + inline_spans(v@, start as int, end as int, *line_style)),
{
    let ghost s = v@;
    let ghost target = done + inline_spans(s, start as int, end as int, *line_style);
    let ghost mut cs = done;
    let mut pos: usize = start;
    while pos < end
        invariant
            start <= pos <= end <= v@.len(),
            s == v@,
            offs@.len() == v@.len() + 1,
            forall|i: int| 0 <= i <= v@.len() ==> #[trigger] offs@[i] == byte_offset(v@, i),
            spans@ == to_bytes(s, cs),
            cs + inline_spans(s, pos as int, end as int, *line_style) == target,
        decreases end - pos,
    {
        let ghost (ge, gsty) = inline_step(s, pos as int, end as int, *line_style);
        proof {
            lemma_inline_step(s, pos as int, end as int, *line_style);
        }
        let mut next: usize = pos + 1;
        let mut style: Style = *line_style;
        let mut found: bool = false;
        // Try to detect a URL
        match try_parse_url(v, pos, end) {
            Some(url_end) => {
                style.url = true;
                next = url_end;
                found = true;
            },
            None => {},
        }
        // Try to detect inline code (backtick)
        if !found && v[pos] == '`' {
            match find_closing_backtick(v, pos, end) {
                Some(code_end) => {
                    style.code = true;
                    next = code_end;
                    found = true;
                },
                None => {},
            }
        }
        // Try to detect ~~strikethrough~~
        if !found && pos + 1 < end && v[pos] == '~' && v[pos + 1] == '~' {
            match find_closing_double(v, pos, end, '~') {
                Some(close) => {
                    style.strikethrough = true;
                    next = close;
                    found = true;
                },
                None => {},
            }
        }
        // Try to detect **bold**
        if !found && pos + 1 < end && v[pos] == '*' && v[pos + 1] == '*' {
            match find_closing_double(v, pos, end, '*') {
                Some(close) => {
                    style.bold = true;
                    next = close;
                    found = true;
                },
                None => {},
            }
        }
        // Try to detect *italic* (single asterisk, not double)
        if !found && v[pos] == '*' && !(pos + 1 < end && v[pos + 1] == '*') {
            match find_closing_single(v, pos, end, '*') {
                Some(close) => {
                    style.italic = true;
                    next = close;
                    found = true;
                },
                None => {},
            }
        }
        // Try to detect _italic_ (underscore)
        if !found && v[pos] == '_' {
            match find_closing_single(v, pos, end, '_') {
                Some(close) => {
                    style.italic = true;
                    next = close;
                    found = true;
                },
                None => {},
            }
        }
        proof {
            assert(next == ge && style == gsty);
        }
        // Plain character otherwise: advance by one char
        spans.push((offs[pos]..offs[next], style));
        proof {
            let step = inline_spans(s, pos as int, end as int, *line_style);
            assert(step =~= seq![(pos as int, ge, gsty)] + inline_spans(
                s,
                ge,
                end as int,
                *line_style,
            ));
            cs = cs.push((pos as int, ge, gsty));
            assert(spans@ =~= to_bytes(s, cs));
            assert(cs + inline_spans(s, ge, end as int, *line_style) =~= target);
        }
        pos = next;
    }
    proof {
        assert(cs =~= target);
    }
}

/// Parse markdown text into a list of non-overlapping spans covering every byte.
///
/// Returns `Vec<(Range<usize>, Style)>` where ranges are byte offsets.
pub fn parse(text: &str) -> (r: Vec<(Range<usize>, Style)>)
    ensures
        r@ == to_bytes(text@, parse_spec(text@)),
        tiles_bytes(r@, 0, text.spec_bytes().len() as int),
{
    let (chars, offs) = char_table(text);
    let n: usize = chars.len();
    let ghost s = text@;
    proof {
        lemma_byte_offset_ends(s);
        lemma_line_tiles(s, 0);
        assert(encode_utf8_len_fits(s));
        lemma_to_bytes_tiles(s, parse_spec(s), 0, s.len() as int);
    }
    if n == 0 {
        proof {
            assert(parse_spec(s) =~= Seq::<CharSpan>::empty());
            assert(to_bytes(s, parse_spec(s)) =~= Seq::<(Range<usize>, Style)>::empty());
        }
        return Vec::new();
    }
    let mut spans: Vec<(Range<usize>, Style)> = Vec::new();
    let ghost mut cs: Seq<CharSpan> = Seq::empty();
    // Process line by line to detect line-level prefixes (headings, quotes)
    let mut line_start: usize = 0;
    proof {
        assert(spans@ =~= to_bytes(s, cs));
        assert(cs + line_spans(s, 0) =~= parse_spec(s));
    }
    while line_start < n
        invariant
            line_start <= n,
            n == chars@.len(),
            s == chars@,
            offs@.len() == s.len() + 1,
            forall|i: int| 0 <= i <= s.len() ==> #[trigger] offs@[i] == byte_offset(s, i),
            spans@ == to_bytes(s, cs),
            cs + line_spans(s, line_start as int) == parse_spec(s),
        decreases n - line_start,
    {
        let mut line_end: usize = line_start;
        while line_end < n && chars[line_end] != '\n'
            invariant
                line_start <= line_end <= n,
                n == chars@.len(),
                next_line_end(s, line_start as int) == next_line_end(s, line_end as int),
                s == chars@,
            decreases n - line_end,
        {
            line_end = line_end + 1;
        }
        if line_end < n {
            line_end = line_end + 1;
        }
        proof {
            assert(line_end == next_line_end(s, line_start as int));
            lemma_next_line_end(s, line_start as int);
        }
        let line_style = detect_line_style(chars.as_slice(), line_start, line_end);
        parse_inline(
            chars.as_slice(),
            offs.as_slice(),
            line_start,
            line_end,
            &line_style,
            &mut spans,
            Ghost(cs),
        );
        proof {
            let inl = inline_spans(s, line_start as int, line_end as int, line_style);
            assert(line_spans(s, line_start as int) == inl + line_spans(s, line_end as int));
            cs = cs + inl;
            assert(cs + line_spans(s, line_end as int) =~= parse_spec(s));
        }
        line_start = line_end;
    }
    proof {
        assert(line_spans(s, line_start as int) =~= Seq::<CharSpan>::empty());
        assert(cs =~= parse_spec(s));
        lemma_gaps_identity(spans@, 0, text.spec_bytes().len() as int);
    }
    // Spans come out sorted and contiguous; fill any gaps with the default style
    let total: usize = offs[n];
    fill_gaps(spans, total)
}

} // verus!
