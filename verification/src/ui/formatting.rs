//! Text manipulation helpers for markdown formatting shortcuts.
//!
//! All functions work with **char offsets** for cursor positions and return
//! content as `String`.
use std::ops::Range;
use vstd::prelude::*;
use vstd::string::StringSliceAdditionalSpecFns;
use crate::highlight::{link_within, ranges_to_bytes};
use crate::markup::{lemma_url_stop, url_at, url_prefix_len, url_stop, https_pat, http_pat, mailto_pat, prefix_within};
use crate::text::{
    byte_offset, char_table, chars_of, is_ws, lemma_byte_offset_ends, lemma_byte_offset_mono,
    lemma_ws_prefix_len, push_char, skip_ws_forward, string_from_chars, trim_start,
    ws_prefix_len,
};

verus! {

// ─── toggle_surrounding ─────────────────────────────────────────────────────

/// Selection bounds clamped to `n` and put in order.
pub open spec fn sel_bounds(n: int, start: int, end: int) -> (int, int) {
    let s0 = if start < n {
        start
    } else {
        n
    };
    let e0 = if end < n {
        end
    } else {
        n
    };
    if s0 <= e0 {
        (s0, e0)
    } else {
        (e0, s0)
    }
}

/// Whether `c[a..b]` is already surrounded by `d` on both sides.
pub open spec fn is_wrapped(c: Seq<char>, a: int, b: int, d: Seq<char>) -> bool {
    a >= d.len() && b + d.len() <= c.len() && c.subrange(a - d.len(), a) == d && c.subrange(
        b,
        b + d.len(),
    ) == d
}

/// What `toggle_surrounding` returns, for an ordered selection `a <= b <= c.len()`.
pub open spec fn toggle_ordered(c: Seq<char>, a: int, b: int, d: Seq<char>) -> (Seq<char>, int, int) {
    let k = d.len() as int;
    if is_wrapped(c, a, b, d) {
        (c.subrange(0, a - k) + c.subrange(a, b) + c.subrange(b + k, c.len() as int), a - k, b - k)
    } else {
        (c.subrange(0, a) + d + c.subrange(a, b) + d + c.subrange(b, c.len() as int), a + k, b + k)
    }
}

/// What `toggle_surrounding` returns.
pub open spec fn toggle_spec(c: Seq<char>, start: int, end: int, d: Seq<char>) -> (
    Seq<char>,
    int,
    int,
) {
    let (a, b) = sel_bounds(c.len() as int, start, end);
    toggle_ordered(c, a, b, d)
}

/// Wrapping a selection that is not yet wrapped, then toggling again at the
/// returned selection, gives back the text and the (clamped, ordered)
/// selection, whatever order and range `start` and `end` came in.
pub proof fn lemma_toggle_roundtrip(c: Seq<char>, start: int, end: int, d: Seq<char>)
    requires
        0 <= start,
        0 <= end,
        !is_wrapped(c, sel_bounds(c.len() as int, start, end).0, sel_bounds(c.len() as int, start, end).1, d),
    ensures
        ({
            let (c2, a2, b2) = toggle_spec(c, start, end, d);
            toggle_spec(c2, a2, b2, d) == (c, sel_bounds(c.len() as int, start, end).0, sel_bounds(
                c.len() as int,
                start,
                end,
            ).1)
        }),
{
    let (a, b) = sel_bounds(c.len() as int, start, end);
    lemma_toggle_ordered_roundtrip(c, a, b, d);
}

/// `lemma_toggle_roundtrip` for an ordered selection within the text.
proof fn lemma_toggle_ordered_roundtrip(c: Seq<char>, a: int, b: int, d: Seq<char>)
    requires
        0 <= a <= b <= c.len(),
        !is_wrapped(c, a, b, d),
    ensures
        ({
            let (c2, a2, b2) = toggle_ordered(c, a, b, d);
            toggle_ordered(c2, a2, b2, d) == (c, a, b)
        }),
{
    let k = d.len() as int;
    let c2 = c.subrange(0, a) + d + c.subrange(a, b) + d + c.subrange(b, c.len() as int);
    let a2 = a + k;
    let b2 = b + k;
    assert(c2.len() == c.len() + 2 * k);
    assert(c2.subrange(a2 - k, a2) =~= d);
    assert(c2.subrange(b2, b2 + k) =~= d);
    assert(is_wrapped(c2, a2, b2, d));
    assert(c2.subrange(0, a2 - k) + c2.subrange(a2, b2) + c2.subrange(b2 + k, c2.len() as int)
        =~= c);
}

/// Toggle a delimiter around the selected text.
///
/// If the selection is already wrapped with `delimiter`, remove it (unwrap).
/// Otherwise, wrap the selection with `delimiter` on both sides. Positions are
/// char offsets; returns `(new_content, new_start, new_end)`.
pub fn toggle_surrounding(content: &str, start: usize, end: usize, delimiter: &str) -> (r: (
    String,
    usize,
    usize,
))
    requires
        content@.len() + 2 * delimiter@.len() <= usize::MAX,
    ensures
        (r.0@, r.1 as int, r.2 as int) == toggle_spec(
            content@,
            start as int,
            end as int,
            delimiter@,
        ),
{
    let chars = chars_of(content);
    let delim = chars_of(delimiter);
    let total: usize = chars.len();
    let dlen: usize = delim.len();
    let start: usize = if start < total {
        start
    } else {
        total
    };
    let end: usize = if end < total {
        end
    } else {
        total
    };
    let (start, end) = if start <= end {
        (start, end)
    } else {
        (end, start)
    };
    let ghost c = chars@;
    let ghost d = delim@;
    // Check if the selection is already wrapped with the delimiter
    if start >= dlen && dlen <= total - end {
        if slice_eq_at(chars.as_slice(), start - dlen, delim.as_slice()) && slice_eq_at(
            chars.as_slice(),
            end,
            delim.as_slice(),
        ) {
            // Unwrap: remove the delimiter on both sides
            let mut out: Vec<char> = Vec::new();
            append_range(&mut out, chars.as_slice(), 0, start - dlen);
            append_range(&mut out, chars.as_slice(), start, end);
            append_range(&mut out, chars.as_slice(), end + dlen, total);
            proof {
                assert(out@ =~= c.subrange(0, start - dlen) + c.subrange(start as int, end as int)
                    + c.subrange(end + dlen, total as int));
            }
            return (string_from_chars(out.as_slice()), start - dlen, end - dlen);
        }
    }
    // Wrap: insert delimiter around selection
    let mut out: Vec<char> = Vec::new();
    append_range(&mut out, chars.as_slice(), 0, start);
    append_range(&mut out, delim.as_slice(), 0, dlen);
    append_range(&mut out, chars.as_slice(), start, end);
    append_range(&mut out, delim.as_slice(), 0, dlen);
    append_range(&mut out, chars.as_slice(), end, total);
    proof {
        assert(d.subrange(0, dlen as int) =~= d);
        assert(out@ =~= c.subrange(0, start as int) + d + c.subrange(start as int, end as int) + d
            + c.subrange(end as int, total as int));
    }
    (string_from_chars(out.as_slice()), start + dlen, end + dlen)
}

/// Whether `pat` stands in `v` at `at`.
fn slice_eq_at(v: &[char], at: usize, pat: &[char]) -> (r: bool)
    requires
        at + pat@.len() <= v@.len(),
    ensures
        r == (v@.subrange(at as int, at + pat@.len()) == pat@),
{
    let mut i: usize = 0;
    while i < pat.len()
        invariant
            at + pat@.len() <= v@.len(),
            v@.len() == v.len(),
            i <= pat@.len(),
            forall|k: int| 0 <= k < i ==> v@[at + k] == pat@[k],
        decreases pat@.len() - i,
    {
        if v[at + i] != pat[i] {
            proof {
                assert(v@.subrange(at as int, at + pat@.len())[i as int] != pat@[i as int]);
            }
            return false;
        }
        i = i + 1;
    }
    proof {
        assert(v@.subrange(at as int, at + pat@.len()) =~= pat@);
    }
    true
}

/// Append `v[from..to]` to `out`.
fn append_range(out: &mut Vec<char>, v: &[char], from: usize, to: usize)
    requires
        from <= to <= v@.len(),
    ensures
        final(out)@ == old(out)@ + v@.subrange(from as int, to as int),
{
    let ghost o = out@;
    let mut i: usize = from;
    while i < to
        invariant
            from <= i <= to <= v@.len(),
            out@ == o + v@.subrange(from as int, i as int),
        decreases to - i,
    {
        out.push(v[i]);
        i = i + 1;
        proof {
            assert(out@ =~= o + v@.subrange(from as int, i as int));
        }
    }
}

// ─── Lines ──────────────────────────────────────────────────────────────────

/// Index of the first `'\n'` at or after `i`.
pub open spec fn newline_from(c: Seq<char>, i: int) -> Option<int>
    decreases c.len() - i,
{
    if i < 0 || i >= c.len() {
        None
    } else if c[i] == '\n' {
        Some(i)
    } else {
        newline_from(c, i + 1)
    }
}

pub proof fn lemma_newline_from(c: Seq<char>, i: int)
    requires
        0 <= i,
    ensures
        newline_from(c, i) matches Some(k) ==> i <= k < c.len() && c[k] == '\n' && forall|j: int|
            i <= j < k ==> c[j] != '\n',
        newline_from(c, i) is None ==> forall|j: int| i <= j < c.len() ==> c[j] != '\n',
    decreases c.len() - i,
{
    if i < c.len() && c[i] != '\n' {
        lemma_newline_from(c, i + 1);
    }
}

/// Lines of `c` from char `i` on, as `(start, end)` with the newline kept at the
/// end of each line; the last line runs to the end of `c` (and may be empty).
pub open spec fn seg_lines(c: Seq<char>, i: int) -> Seq<(int, int)>
    decreases c.len() + 1 - i,
{
    if i < 0 || i > c.len() {
        Seq::empty()
    } else {
        match newline_from(c, i) {
            Some(k) => {
                proof {
                    lemma_newline_from(c, i);
                }
                seq![(i, k + 1)] + seg_lines(c, k + 1)
            },
            None => seq![(i, c.len() as int)],
        }
    }
}

pub proof fn lemma_seg_lines(c: Seq<char>, i: int)
    requires
        0 <= i <= c.len(),
    ensures
        seg_lines(c, i).len() >= 1,
        seg_lines(c, i)[0].0 == i,
        seg_lines(c, i).last().1 == c.len(),
        seg_lines(c, i).len() <= c.len() + 1 - i,
        forall|j: int|
            0 <= j < seg_lines(c, i).len() ==> i <= (#[trigger] seg_lines(c, i)[j]).0 <= seg_lines(
                c,
                i,
            )[j].1 <= c.len(),
        forall|j: int|
            0 <= j < seg_lines(c, i).len() - 1 ==> (#[trigger] seg_lines(c, i)[j]).1 == seg_lines(
                c,
                i,
            )[j + 1].0,
    decreases c.len() + 1 - i,
{
    lemma_newline_from(c, i);
    match newline_from(c, i) {
        Some(k) => {
            lemma_seg_lines(c, k + 1);
            let rest = seg_lines(c, k + 1);
            let all = seg_lines(c, i);
            assert(all == seq![(i, k + 1)] + rest);
            assert(all.last() == rest.last());
            assert forall|j: int| 0 <= j < all.len() implies i <= (#[trigger] all[j]).0 <= all[j].1
                <= c.len() by {
                if j > 0 {
                    assert(all[j] == rest[j - 1]);
                }
            }
            assert forall|j: int| 0 <= j < all.len() - 1 implies (#[trigger] all[j]).1 == all[j
                + 1].0 by {
                if j > 0 {
                    assert(all[j] == rest[j - 1]);
                }
                assert(all[j + 1] == rest[j]);
            }
        },
        None => {},
    }
}

/// Split chars into lines, preserving newline characters at the end of each line.
/// Returns `(line_start_char, line_end_char, chars_including_newline)`.
fn split_lines_with_offsets(chars: &[char]) -> (r: Vec<(usize, usize, Vec<char>)>)
    ensures
        r@.len() == seg_lines(chars@, 0).len(),
        forall|j: int|
            0 <= j < r@.len() ==> {
                &&& (#[trigger] r@[j]).0 == seg_lines(chars@, 0)[j].0
                &&& r@[j].1 == seg_lines(chars@, 0)[j].1
                &&& r@[j].2@ == chars@.subrange(r@[j].0 as int, r@[j].1 as int)
            },
{
    let ghost c = chars@;
    let mut lines: Vec<(usize, usize, Vec<char>)> = Vec::new();
    let mut start: usize = 0;
    let mut i: usize = 0;
    let ghost mut done: Seq<(int, int)> = Seq::empty();
    proof {
        lemma_seg_lines(c, 0);
    }
    while i < chars.len()
        invariant
            start <= i <= c.len(),
            c == chars@,
            done + seg_lines(c, start as int) == seg_lines(c, 0),
            newline_from(c, start as int) == newline_from(c, i as int),
            lines@.len() == done.len(),
            forall|j: int|
                0 <= j < lines@.len() ==> {
                    &&& (#[trigger] lines@[j]).0 == done[j].0
                    &&& lines@[j].1 == done[j].1
                    &&& lines@[j].2@ == c.subrange(lines@[j].0 as int, lines@[j].1 as int)
                },
        decreases c.len() - i,
    {
        if chars[i] == '\n' {
            let mut seg: Vec<char> = Vec::new();
            append_range(&mut seg, chars, start, i + 1);
            proof {
                assert(seg@ =~= c.subrange(start as int, i + 1));
                assert(seg_lines(c, start as int) == seq![(start as int, i + 1)] + seg_lines(
                    c,
                    i + 1,
                ));
                done = done.push((start as int, i + 1));
                assert(done + seg_lines(c, i + 1) =~= seg_lines(c, 0));
            }
            lines.push((start, i + 1, seg));
            start = i + 1;
        }
        i = i + 1;
    }
    // Last line (may not end with newline)
    let mut seg: Vec<char> = Vec::new();
    append_range(&mut seg, chars, start, chars.len());
    proof {
        assert(seg@ =~= c.subrange(start as int, c.len() as int));
        assert(seg_lines(c, start as int) == seq![(start as int, c.len() as int)]);
        done = done.push((start as int, c.len() as int));
        assert(done =~= seg_lines(c, 0));
    }
    lines.push((start, chars.len(), seg));
    lines
}

/// Whether line `[l0, l1)` intersects the selection `[a, b]`: it shares a
/// char with it, it is exactly the selection, or the caret `a == b` stands on
/// it (before its end, or at the end of the last line).
pub open spec fn line_hit(l0: int, l1: int, a: int, b: int, last: bool) -> bool {
    (l0 < b && l1 > a) || (l0 == a && l1 == b) || (a == b && l0 <= a && (a < l1 || (last && a
        == l1)))
}

/// Four spaces.
pub open spec fn indent4() -> Seq<char> {
    seq![' ', ' ', ' ', ' ']
}

/// Result of indenting from line `j` on: text and the final selection.
pub open spec fn indent_from(
    c: Seq<char>,
    ls: Seq<(int, int)>,
    j: int,
    a: int,
    b: int,
    cum: int,
    ns: int,
    ne: int,
) -> (Seq<char>, int, int)
    decreases ls.len() - j,
{
    if j < 0 || j >= ls.len() {
        (Seq::empty(), ns, ne)
    } else {
        let (l0, l1) = ls[j];
        let line = c.subrange(l0, l1);
        if line_hit(l0, l1, a, b, j == ls.len() - 1) {
            let ns2 = if l0 <= a {
                a + cum + 4
            } else {
                ns
            };
            let ne2 = if l0 <= b {
                b + cum + 4
            } else {
                ne
            };
            let rest = indent_from(c, ls, j + 1, a, b, cum + 4, ns2, ne2);
            (indent4() + line + rest.0, rest.1, rest.2)
        } else {
            let rest = indent_from(c, ls, j + 1, a, b, cum, ns, ne);
            (line + rest.0, rest.1, rest.2)
        }
    }
}

/// What `indent_lines` returns.
pub open spec fn indent_spec(c: Seq<char>, start: int, end: int) -> (Seq<char>, int, int) {
    let (a, b) = sel_bounds(c.len() as int, start, end);
    indent_from(c, seg_lines(c, 0), 0, a, b, 0, a, b)
}

/// Add 4 spaces at the start of each line that intersects the selection.
/// Positions are char offsets; returns `(new_content, new_start, new_end)`.
#[verifier::spinoff_prover]
#[verifier::rlimit(40)]
pub fn indent_lines(content: &str, start: usize, end: usize) -> (r: (String, usize, usize))
    requires
        5 * content@.len() + 4 <= usize::MAX,
    ensures
        (r.0@, r.1 as int, r.2 as int) == indent_spec(content@, start as int, end as int),
{
    let chars = chars_of(content);
    let total: usize = chars.len();
    let start: usize = if start < total {
        start
    } else {
        total
    };
    let end: usize = if end < total {
        end
    } else {
        total
    };
    let (start, end) = if start <= end {
        (start, end)
    } else {
        (end, start)
    };
    let ghost c = chars@;
    let lines = split_lines_with_offsets(chars.as_slice());
    let ghost ls = seg_lines(c, 0);
    proof {
        lemma_seg_lines(c, 0);
    }
    let mut result: Vec<char> = Vec::new();
    let mut new_start: usize = start;
    let mut new_end: usize = end;
    let mut cumulative_shift: usize = 0;
    let mut j: usize = 0;
    while j < lines.len()
        invariant
            j <= lines@.len(),
            lines@.len() == ls.len(),
            ls == seg_lines(c, 0),
            c == chars@,
            total == c.len(),
            start <= end <= total,
            5 * total + 4 <= usize::MAX,
            ls.len() <= c.len() + 1,
            cumulative_shift <= 4 * j,
            result@.len() <= (if j == 0 {
                0
            } else {
                ls[j - 1].1
            }) + cumulative_shift,
            j < ls.len() ==> ls[j as int].0 == (if j == 0 {
                0
            } else {
                ls[j - 1].1
            }),
            forall|k: int| 0 <= k < ls.len() ==> 0 <= (#[trigger] ls[k]).0 <= ls[k].1 <= c.len(),
            forall|k: int| 0 <= k < ls.len() - 1 ==> (#[trigger] ls[k]).1 == ls[k + 1].0,
            ls[0].0 == 0,
            forall|k: int|
                0 <= k < lines@.len() ==> {
                    &&& (#[trigger] lines@[k]).0 == ls[k].0
                    &&& lines@[k].1 == ls[k].1
                    &&& lines@[k].2@ == c.subrange(lines@[k].0 as int, lines@[k].1 as int)
                },
            indent_spec(c, start as int, end as int) == ({
                let rest = indent_from(
                    c,
                    ls,
                    j as int,
                    start as int,
                    end as int,
                    cumulative_shift as int,
                    new_start as int,
                    new_end as int,
                );
                (result@ + rest.0, rest.1, rest.2)
            }),
        decreases lines@.len() - j,
    {
        let line_start: usize = lines[j].0;
        let line_end: usize = lines[j].1;
        let ghost before = result@;
        let line_intersects = (line_start < end && line_end > start) || (line_start == start
            && line_end == end);
        let cursor_on_line = start == end && line_start <= start && (start < line_end || (j + 1
            == lines.len() && start == line_end));
        proof {
            if j + 1 < ls.len() {
                assert(ls[j as int].1 == ls[j + 1].0);
            }
        }
        if line_intersects || cursor_on_line {
            result.push(' ');
            result.push(' ');
            result.push(' ');
            result.push(' ');
            append_range(&mut result, lines[j].2.as_slice(), 0, lines[j].2.len());
            // Adjust start if it's on or after this line
            if line_start <= start {
                new_start = start + cumulative_shift + 4;
            }
            // Adjust end similarly
            if line_start <= end {
                new_end = end + cumulative_shift + 4;
            }
            proof {
                assert(lines@[j as int].2@.subrange(0, lines@[j as int].2@.len() as int)
                    =~= lines@[j as int].2@);
                assert(result@ =~= before + indent4() + c.subrange(
                    line_start as int,
                    line_end as int,
                ));
            }
            cumulative_shift = cumulative_shift + 4;
        } else {
            append_range(&mut result, lines[j].2.as_slice(), 0, lines[j].2.len());
            proof {
                assert(lines@[j as int].2@.subrange(0, lines@[j as int].2@.len() as int)
                    =~= lines@[j as int].2@);
                assert(result@ =~= before + c.subrange(line_start as int, line_end as int));
            }
        }
        j = j + 1;
    }
    proof {
        let rest = indent_from(
            c,
            ls,
            j as int,
            start as int,
            end as int,
            cumulative_shift as int,
            new_start as int,
            new_end as int,
        );
        assert(rest.0 =~= Seq::<char>::empty());
        assert(result@ + rest.0 =~= result@);
    }
    (string_from_chars(result.as_slice()), new_start, new_end)
}

/// Number of leading spaces of `line`, at most 4.
pub open spec fn lead_spaces(line: Seq<char>) -> int {
    if line.len() > 0 && line[0] == ' ' {
        if line.len() > 1 && line[1] == ' ' {
            if line.len() > 2 && line[2] == ' ' {
                if line.len() > 3 && line[3] == ' ' {
                    4
                } else {
                    3
                }
            } else {
                2
            }
        } else {
            1
        }
    } else {
        0
    }
}

/// Result of outdenting from line `j` on: text and the final selection.
pub open spec fn outdent_from(
    c: Seq<char>,
    ls: Seq<(int, int)>,
    j: int,
    a: int,
    b: int,
    cum: int,
    ns: int,
    ne: int,
) -> (Seq<char>, int, int)
    decreases ls.len() - j,
{
    if j < 0 || j >= ls.len() {
        (Seq::empty(), ns, ne)
    } else {
        let (l0, l1) = ls[j];
        let line = c.subrange(l0, l1);
        if line_hit(l0, l1, a, b, j == ls.len() - 1) {
            let sp = lead_spaces(line);
            let ns2 = if l0 <= a && a <= l1 {
                a - cum - (if sp < a - l0 {
                    sp
                } else {
                    a - l0
                })
            } else {
                ns
            };
            let ne2 = if l0 <= b && b <= l1 {
                b - cum - (if sp < b - l0 {
                    sp
                } else {
                    b - l0
                })
            } else if l1 <= b {
                b - cum - sp
            } else {
                ne
            };
            let rest = outdent_from(c, ls, j + 1, a, b, cum + sp, ns2, ne2);
            (line.skip(sp) + rest.0, rest.1, rest.2)
        } else {
            let rest = outdent_from(c, ls, j + 1, a, b, cum, ns, ne);
            (line + rest.0, rest.1, rest.2)
        }
    }
}

/// What `outdent_lines` returns.
pub open spec fn outdent_spec(c: Seq<char>, start: int, end: int) -> (Seq<char>, int, int) {
    let (a, b) = sel_bounds(c.len() as int, start, end);
    outdent_from(c, seg_lines(c, 0), 0, a, b, 0, a, b)
}

/// Remove up to 4 leading spaces from each line that intersects the selection.
/// Positions are char offsets; returns `(new_content, new_start, new_end)`.
#[verifier::spinoff_prover]
#[verifier::rlimit(40)]
pub fn outdent_lines(content: &str, start: usize, end: usize) -> (r: (String, usize, usize))
    ensures
        (r.0@, r.1 as int, r.2 as int) == outdent_spec(content@, start as int, end as int),
{
    let chars = chars_of(content);
    let total: usize = chars.len();
    let start: usize = if start < total {
        start
    } else {
        total
    };
    let end: usize = if end < total {
        end
    } else {
        total
    };
    let (start, end) = if start <= end {
        (start, end)
    } else {
        (end, start)
    };
    let ghost c = chars@;
    let lines = split_lines_with_offsets(chars.as_slice());
    let ghost ls = seg_lines(c, 0);
    proof {
        lemma_seg_lines(c, 0);
    }
    let mut result: Vec<char> = Vec::new();
    let mut new_start: usize = start;
    let mut new_end: usize = end;
    let mut cumulative_removed: usize = 0;
    let mut j: usize = 0;
    while j < lines.len()
        invariant
            j <= lines@.len(),
            lines@.len() == ls.len(),
            ls == seg_lines(c, 0),
            c == chars@,
            total == c.len(),
            start <= end <= total,
            cumulative_removed <= (if j == 0 {
                0
            } else {
                ls[j - 1].1
            }),
            j < ls.len() ==> ls[j as int].0 == (if j == 0 {
                0
            } else {
                ls[j - 1].1
            }),
            forall|k: int| 0 <= k < ls.len() ==> 0 <= (#[trigger] ls[k]).0 <= ls[k].1 <= c.len(),
            forall|k: int| 0 <= k < ls.len() - 1 ==> (#[trigger] ls[k]).1 == ls[k + 1].0,
            ls[0].0 == 0,
            forall|k: int|
                0 <= k < lines@.len() ==> {
                    &&& (#[trigger] lines@[k]).0 == ls[k].0
                    &&& lines@[k].1 == ls[k].1
                    &&& lines@[k].2@ == c.subrange(lines@[k].0 as int, lines@[k].1 as int)
                },
            outdent_spec(c, start as int, end as int) == ({
                let rest = outdent_from(
                    c,
                    ls,
                    j as int,
                    start as int,
                    end as int,
                    cumulative_removed as int,
                    new_start as int,
                    new_end as int,
                );
                (result@ + rest.0, rest.1, rest.2)
            }),
        decreases lines@.len() - j,
    {
        let line_start: usize = lines[j].0;
        let line_end: usize = lines[j].1;
        let ghost before = result@;
        let ghost line = c.subrange(line_start as int, line_end as int);
        let line_intersects = (line_start < end && line_end > start) || (line_start == start
            && line_end == end);
        let cursor_on_line = start == end && line_start <= start && (start < line_end || (j + 1
            == lines.len() && start == line_end));
        proof {
            if j + 1 < ls.len() {
                assert(ls[j as int].1 == ls[j + 1].0);
            }
        }
        if line_intersects || cursor_on_line {
            // Count leading spaces (up to 4)
            let lc = &lines[j].2;
            let mut spaces: usize = 0;
            while spaces < 4 && spaces < lc.len() && lc[spaces] == ' '
                invariant
                    spaces <= 4,
                    spaces <= lc@.len(),
                    lc@ == line,
                    forall|k: int| 0 <= k < spaces ==> line[k] == ' ',
                decreases 4 - spaces,
            {
                spaces = spaces + 1;
            }
            proof {
                assert(spaces == lead_spaces(line));
            }
            append_range(&mut result, lc.as_slice(), spaces, lc.len());
            // Adjust start: if start is on this line, it moves back by
            // min(spaces, start - line_start) to avoid going before line start
            if line_start <= start && start <= line_end {
                let offset_in_line: usize = start - line_start;
                let actual_shift: usize = if spaces < offset_in_line {
                    spaces
                } else {
                    offset_in_line
                };
                new_start = start - cumulative_removed - actual_shift;
            }
            // Adjust end similarly
            if line_start <= end && end <= line_end {
                let offset_in_line: usize = end - line_start;
                let actual_shift: usize = if spaces < offset_in_line {
                    spaces
                } else {
                    offset_in_line
                };
                new_end = end - cumulative_removed - actual_shift;
            } else if line_end <= end {
                new_end = end - cumulative_removed - spaces;
            }
            proof {
                assert(result@ =~= before + line.skip(spaces as int));
            }
            cumulative_removed = cumulative_removed + spaces;
        } else {
            append_range(&mut result, lines[j].2.as_slice(), 0, lines[j].2.len());
            proof {
                assert(lines@[j as int].2@.subrange(0, lines@[j as int].2@.len() as int)
                    =~= lines@[j as int].2@);
                assert(result@ =~= before + line);
            }
        }
        j = j + 1;
    }
    proof {
        let rest = outdent_from(
            c,
            ls,
            j as int,
            start as int,
            end as int,
            cumulative_removed as int,
            new_start as int,
            new_end as int,
        );
        assert(rest.0 =~= Seq::<char>::empty());
        assert(result@ + rest.0 =~= result@);
    }
    (string_from_chars(result.as_slice()), new_start, new_end)
}

// ─── List prefixes and auto-indent ──────────────────────────────────────────

/// Number of leading ASCII digits.
pub open spec fn digit_run(t: Seq<char>) -> int
    decreases t.len(),
{
    if t.len() > 0 && '0' <= t[0] && t[0] <= '9' {
        1 + digit_run(t.drop_first())
    } else {
        0
    }
}

/// Decimal value of a string of ASCII digits.
pub open spec fn digits_value(d: Seq<char>) -> nat
    decreases d.len(),
{
    if d.len() == 0 {
        0
    } else {
        digits_value(d.drop_last()) * 10 + ((d.last() as int - '0' as int) as nat)
    }
}

/// The ASCII digit for `v < 10`.
pub open spec fn digit_char(v: int) -> char {
    (v + '0' as int) as char
}

/// Decimal representation of `v`.
pub open spec fn decimal(v: nat) -> Seq<char>
    decreases v,
{
    if v < 10 {
        seq![digit_char(v as int)]
    } else {
        decimal(v / 10).push(digit_char((v % 10) as int))
    }
}

pub open spec fn dash_item() -> Seq<char> {
    seq!['-', ' ']
}

pub open spec fn star_item() -> Seq<char> {
    seq!['*', ' ']
}

pub open spec fn dot_space() -> Seq<char> {
    seq!['.', ' ']
}

/// Whether `t` starts with an ordered-list number followed by `". "`.
pub open spec fn ordered_item(t: Seq<char>) -> bool {
    let d = digit_run(t);
    d > 0 && t.skip(d).len() >= 2 && t.skip(d).take(2) == dot_space()
}

/// The list number of `t` (when `ordered_item(t)`).
pub open spec fn item_number(t: Seq<char>) -> nat {
    digits_value(t.take(digit_run(t)))
}

/// What `detect_list_prefix` returns.
pub open spec fn list_prefix_spec(line: Seq<char>) -> Seq<char> {
    let t = trim_start(line);
    if t.len() >= 2 && t.take(2) == dash_item() {
        dash_item()
    } else if t.len() >= 2 && t.take(2) == star_item() {
        star_item()
    } else if ordered_item(t) && item_number(t) <= u64::MAX {
        decimal(item_number(t) + 1) + dot_space()
    } else {
        Seq::empty()
    }
}

/// The line's list number is the largest `u64`, which has no successor.
pub open spec fn list_number_at_max(line: Seq<char>) -> bool {
    let t = trim_start(line);
    !(t.len() >= 2 && t.take(2) == dash_item()) && !(t.len() >= 2 && t.take(2) == star_item())
        && ordered_item(t) && item_number(t) == u64::MAX
}

pub proof fn lemma_decimal_len(v: nat)
    ensures
        1 <= decimal(v).len() <= 20 || v > u64::MAX,
        v <= u64::MAX + 1 ==> decimal(v).len() <= 20,
    decreases v,
{
    if v >= 10 {
        lemma_decimal_len(v / 10);
        if v <= u64::MAX + 1 {
            assert(decimal(v / 10).len() <= 19) by {
                reveal_with_fuel(pow10, 20);
                assert(pow10(19) == 10000000000000000000nat);
                lemma_decimal_len_bound(v / 10, 19);
            }
        }
    }
}

proof fn lemma_decimal_len_bound(v: nat, k: nat)
    requires
        k >= 1,
        v < pow10(k),
    ensures
        decimal(v).len() <= k,
    decreases v,
{
    if v >= 10 {
        assert(k >= 2) by {
            if k == 1 {
                assert(pow10(1) == 10 * pow10(0));
            }
        }
        assert(pow10(k) == 10 * pow10((k - 1) as nat));
        assert(v / 10 < pow10((k - 1) as nat)) by (nonlinear_arith)
            requires
                v < 10 * pow10((k - 1) as nat),
        ;
        lemma_decimal_len_bound(v / 10, (k - 1) as nat);
    }
}

/// `10^k`.
pub open spec fn pow10(k: nat) -> nat
    decreases k,
{
    if k == 0 {
        1
    } else {
        10 * pow10((k - 1) as nat)
    }
}

/// Decimal digits of `v`.
pub(crate) fn u64_decimal(v: u64) -> (r: Vec<char>)
    ensures
        r@ == decimal(v as nat),
    decreases v,
{
    if v < 10 {
        let mut r: Vec<char> = Vec::new();
        r.push(((v as u8) + 48u8) as char);
        proof {
            assert(r@ =~= decimal(v as nat));
        }
        r
    } else {
        let mut r = u64_decimal(v / 10);
        let d: u8 = (v % 10) as u8;
        r.push((d + 48u8) as char);
        proof {
            assert(r@ =~= decimal(v as nat));
        }
        r
    }
}

/// Detect a list prefix at the start of a line (after indentation).
/// Returns the prefix to repeat (e.g., "- ", "* ", "1. ", "2. ", etc.)
pub fn detect_list_prefix(line: &str) -> (r: String)
    requires
        !list_number_at_max(line@),
    ensures
        r@ == list_prefix_spec(line@),
{
    let v = chars_of(line);
    proof {
        assert(v@.subrange(0, v@.len() as int) =~= line@);
    }
    prefix_for(v.as_slice(), 0, v.len())
}

/// `detect_list_prefix` of `v[from..to]`.
fn prefix_for(v: &[char], from: usize, to: usize) -> (r: String)
    requires
        from <= to <= v@.len(),
        !list_number_at_max(v@.subrange(from as int, to as int)),
    ensures
        r@ == list_prefix_spec(v@.subrange(from as int, to as int)),
{
    let ghost line = v@.subrange(from as int, to as int);
    let b: usize = skip_ws_forward(v, from, to);
    let ghost t = trim_start(line);
    proof {
        assert(t =~= v@.subrange(b as int, to as int));
    }
    // Unordered list: - or *
    if to - b >= 2 && v[b] == '-' && v[b + 1] == ' ' {
        proof {
            assert(t.take(2) =~= dash_item());
        }
        return chars_to_string(&['-', ' ']);
    }
    if to - b >= 2 && v[b] == '*' && v[b + 1] == ' ' {
        proof {
            assert(t.take(2) =~= star_item());
            assert(t.take(2) != dash_item());
        }
        return chars_to_string(&['*', ' ']);
    }
    proof {
        if t.len() >= 2 {
            if t.take(2) == dash_item() {
                assert(t.take(2)[0] == '-');
            }
            if t.take(2) == star_item() {
                assert(t.take(2)[0] == '*');
            }
        }
    }
    // Ordered list: digits followed by . and space
    let mut k: usize = b;
    let mut num: u64 = 0;
    let mut overflow: bool = false;
    while k < to && '0' <= v[k] && v[k] <= '9'
        invariant
            b <= k <= to <= v@.len(),
            t == v@.subrange(b as int, to as int),
            digit_run(t) == (k - b) + digit_run(v@.subrange(k as int, to as int)),
            !overflow ==> num == digits_value(v@.subrange(b as int, k as int)),
            overflow ==> digits_value(v@.subrange(b as int, k as int)) > u64::MAX,
            forall|i: int| b <= i < k ==> '0' <= #[trigger] v@[i] && v@[i] <= '9',
        decreases to - k,
    {
        proof {
            assert(v@.subrange(k as int, to as int).drop_first() =~= v@.subrange(
                k + 1,
                to as int,
            ));
            let ds = v@.subrange(b as int, k + 1);
            assert(ds.drop_last() =~= v@.subrange(b as int, k as int));
            assert(ds.last() == v@[k as int]);
        }
        let dv: u64 = ((v[k] as u32) - ('0' as u32)) as u64;
        if !overflow {
            match num.checked_mul(10) {
                Some(m) => match m.checked_add(dv) {
                    Some(x) => {
                        num = x;
                    },
                    None => {
                        overflow = true;
                    },
                },
                None => {
                    overflow = true;
                    proof {
                        assert(digits_value(v@.subrange(b as int, k + 1)) >= num * 10);
                    }
                },
            }
        } else {
            proof {
                assert(digits_value(v@.subrange(b as int, k + 1)) >= digits_value(
                    v@.subrange(b as int, k as int),
                ) * 10);
            }
        }
        k = k + 1;
    }
    proof {
        if k < to {
            assert(v@.subrange(k as int, to as int)[0] == v@[k as int]);
        }
        assert(t.take(digit_run(t)) =~= v@.subrange(b as int, k as int));
    }
    let digits: usize = k - b;
    if digits > 0 && to - k >= 2 && v[k] == '.' && v[k + 1] == ' ' {
        proof {
            assert(t.skip(digit_run(t)).take(2) =~= dot_space());
        }
        if !overflow {
            proof {
                assert(num < u64::MAX);
            }
            let mut out = u64_decimal(num + 1);
            out.push('.');
            out.push(' ');
            proof {
                assert(out@ =~= decimal((num + 1) as nat) + dot_space());
            }
            return string_from_chars(out.as_slice());
        }
        return String::new();
    }
    proof {
        if ordered_item(t) {
            assert(t.skip(digit_run(t)).take(2)[0] == '.');
            assert(t.skip(digit_run(t))[0] == v@[k as int]);
        }
    }
    String::new()
}

/// Whether the list number of `v[from..to]` is the largest `u64`.
fn number_at_max(v: &[char], from: usize, to: usize) -> (r: bool)
    requires
        from <= to <= v@.len(),
    ensures
        r == list_number_at_max(v@.subrange(from as int, to as int)),
{
    let ghost line = v@.subrange(from as int, to as int);
    let b: usize = skip_ws_forward(v, from, to);
    let ghost t = trim_start(line);
    proof {
        assert(t =~= v@.subrange(b as int, to as int));
    }
    // Unordered list: - or *
    if to - b >= 2 && v[b] == '-' && v[b + 1] == ' ' {
        proof {
            assert(t.take(2) =~= dash_item());
        }
        return false;
    }
    if to - b >= 2 && v[b] == '*' && v[b + 1] == ' ' {
        proof {
            assert(t.take(2) =~= star_item());
            assert(t.take(2) != dash_item());
        }
        return false;
    }
    proof {
        if t.len() >= 2 {
            if t.take(2) == dash_item() {
                assert(t.take(2)[0] == '-');
            }
            if t.take(2) == star_item() {
                assert(t.take(2)[0] == '*');
            }
        }
    }
    // Ordered list: digits followed by . and space
    let mut k: usize = b;
    let mut num: u64 = 0;
    let mut overflow: bool = false;
    while k < to && '0' <= v[k] && v[k] <= '9'
        invariant
            b <= k <= to <= v@.len(),
            t == v@.subrange(b as int, to as int),
            digit_run(t) == (k - b) + digit_run(v@.subrange(k as int, to as int)),
            !overflow ==> num == digits_value(v@.subrange(b as int, k as int)),
            overflow ==> digits_value(v@.subrange(b as int, k as int)) > u64::MAX,
            forall|i: int| b <= i < k ==> '0' <= #[trigger] v@[i] && v@[i] <= '9',
        decreases to - k,
    {
        proof {
            assert(v@.subrange(k as int, to as int).drop_first() =~= v@.subrange(
                k + 1,
                to as int,
            ));
            let ds = v@.subrange(b as int, k + 1);
            assert(ds.drop_last() =~= v@.subrange(b as int, k as int));
            assert(ds.last() == v@[k as int]);
        }
        let dv: u64 = ((v[k] as u32) - ('0' as u32)) as u64;
        if !overflow {
            match num.checked_mul(10) {
                Some(m) => match m.checked_add(dv) {
                    Some(x) => {
                        num = x;
                    },
                    None => {
                        overflow = true;
                    },
                },
                None => {
                    overflow = true;
                    proof {
                        assert(digits_value(v@.subrange(b as int, k + 1)) >= num * 10);
                    }
                },
            }
        } else {
            proof {
                assert(digits_value(v@.subrange(b as int, k + 1)) >= digits_value(
                    v@.subrange(b as int, k as int),
                ) * 10);
            }
        }
        k = k + 1;
    }
    proof {
        if k < to {
            assert(v@.subrange(k as int, to as int)[0] == v@[k as int]);
        }
        assert(t.take(digit_run(t)) =~= v@.subrange(b as int, k as int));
    }
    let digits: usize = k - b;
    if digits > 0 && to - k >= 2 && v[k] == '.' && v[k + 1] == ' ' {
        proof {
            assert(t.skip(digit_run(t)).take(2) =~= dot_space());
        }
        return !overflow && num == u64::MAX;
    }
    proof {
        if ordered_item(t) {
            assert(t.skip(digit_run(t)).take(2)[0] == '.');
            assert(t.skip(digit_run(t))[0] == v@[k as int]);
        }
    }
    false
}

/// Whether `auto_indent` can run on these arguments: the previous line's list
/// number has a successor and the text is small enough to extend.
pub fn auto_indent_allowed(content: &str, cursor: usize) -> (r: bool)
    ensures
        r == (!auto_indent_overflows(content@, cursor as int) && 2 * content@.len() + 24
            <= usize::MAX),
{
    let chars = chars_of(content);
    let ghost c = chars@;
    let len: usize = chars.len();
    if len > (usize::MAX - 24) / 2 {
        return false;
    }
    if cursor == 0 || cursor > len || chars[cursor - 1] != '\n' {
        return true;
    }
    let prev_line_end: usize = cursor - 1;
    let mut prev_line_start: usize = prev_line_end;
    while prev_line_start > 0 && chars[prev_line_start - 1] != '\n'
        invariant
            prev_line_start <= prev_line_end < c.len(),
            c == chars@,
            line_start_before(c, prev_line_end as int) == line_start_before(
                c,
                prev_line_start as int,
            ),
        decreases prev_line_start,
    {
        prev_line_start = prev_line_start - 1;
    }
    let ghost line = c.subrange(prev_line_start as int, prev_line_end as int);
    proof {
        assert(line =~= prev_line(c, cursor as int));
    }
    let mut ind: usize = prev_line_start;
    while ind < prev_line_end && (chars[ind] == ' ' || chars[ind] == '\t')
        invariant
            prev_line_start <= ind <= prev_line_end < c.len(),
            c == chars@,
            indent_run(line) == (ind - prev_line_start) + indent_run(
                c.subrange(ind as int, prev_line_end as int),
            ),
        decreases prev_line_end - ind,
    {
        proof {
            assert(c.subrange(ind as int, prev_line_end as int).drop_first() =~= c.subrange(
                ind + 1,
                prev_line_end as int,
            ));
        }
        ind = ind + 1;
    }
    proof {
        if ind < prev_line_end {
            assert(c.subrange(ind as int, prev_line_end as int)[0] == c[ind as int]);
        }
        let k = ind - prev_line_start;
        assert(line.skip(k) =~= c.subrange(ind as int, prev_line_end as int));
    }
    !number_at_max(chars.as_slice(), ind, prev_line_end)
}

/// A `String` of the given chars.
fn chars_to_string(v: &[char]) -> (r: String)
    ensures
        r@ == v@,
{
    string_from_chars(v)
}

/// Start of the line that ends at `e` (just after the previous `'\n'`, or 0).
pub open spec fn line_start_before(c: Seq<char>, e: int) -> int
    decreases e,
{
    if e <= 0 {
        0
    } else if c[e - 1] == '\n' {
        e
    } else {
        line_start_before(c, e - 1)
    }
}

/// Number of leading spaces and tabs.
pub open spec fn indent_run(t: Seq<char>) -> int
    decreases t.len(),
{
    if t.len() > 0 && (t[0] == ' ' || t[0] == '\t') {
        1 + indent_run(t.drop_first())
    } else {
        0
    }
}

/// The line before `cursor` (which follows a newline), without that newline.
pub open spec fn prev_line(c: Seq<char>, cursor: int) -> Seq<char> {
    c.subrange(line_start_before(c, cursor - 1), cursor - 1)
}

/// What `auto_indent` inserts after the newline: indentation and list prefix.
pub open spec fn auto_insertion(c: Seq<char>, cursor: int) -> Seq<char> {
    let line = prev_line(c, cursor);
    let ind = indent_run(line);
    line.take(ind) + list_prefix_spec(line.skip(ind))
}

/// What `auto_indent` returns.
pub open spec fn auto_indent_spec(c: Seq<char>, cursor: int) -> Option<(Seq<char>, int)> {
    if cursor == 0 || cursor > c.len() || c[cursor - 1] != '\n' {
        None
    } else {
        let ins = auto_insertion(c, cursor);
        if ins.len() == 0 {
            None
        } else {
            Some((c.take(cursor) + ins + c.skip(cursor), cursor + ins.len()))
        }
    }
}

/// The previous line's list number has no successor in `u64`.
pub open spec fn auto_indent_overflows(c: Seq<char>, cursor: int) -> bool {
    0 < cursor <= c.len() && c[cursor - 1] == '\n' && list_number_at_max(
        prev_line(c, cursor).skip(indent_run(prev_line(c, cursor))),
    )
}

pub proof fn lemma_line_start_before(c: Seq<char>, e: int)
    requires
        0 <= e <= c.len(),
    ensures
        0 <= line_start_before(c, e) <= e,
    decreases e,
{
    if e > 0 && c[e - 1] != '\n' {
        lemma_line_start_before(c, e - 1);
    }
}

/// Auto-indent: if a newline was just inserted, detect previous line's
/// indentation and list prefix, then insert matching whitespace.
///
/// `cursor` is the char offset just after the newline. Returns
/// `Some((new_content, new_cursor))` if indentation was inserted, `None` otherwise.
pub fn auto_indent(content: &str, cursor: usize) -> (r: Option<(String, usize)>)
    requires
        !auto_indent_overflows(content@, cursor as int),
        2 * content@.len() + 24 <= usize::MAX,
    ensures
        r matches Some(p) ==> auto_indent_spec(content@, cursor as int) == Some(
            (p.0@, p.1 as int),
        ),
        r is None ==> auto_indent_spec(content@, cursor as int) is None,
{
    let chars = chars_of(content);
    let ghost c = chars@;
    // The cursor should be right after a newline
    if cursor == 0 || cursor > chars.len() {
        return None;
    }
    if chars[cursor - 1] != '\n' {
        return None;
    }
    // Find the previous line
    let prev_line_end: usize = cursor - 1;
    let mut prev_line_start: usize = prev_line_end;
    while prev_line_start > 0 && chars[prev_line_start - 1] != '\n'
        invariant
            prev_line_start <= prev_line_end < c.len(),
            c == chars@,
            line_start_before(c, prev_line_end as int) == line_start_before(
                c,
                prev_line_start as int,
            ),
        decreases prev_line_start,
    {
        prev_line_start = prev_line_start - 1;
    }
    let ghost line = c.subrange(prev_line_start as int, prev_line_end as int);
    proof {
        assert(line =~= prev_line(c, cursor as int));
    }
    // Detect indentation
    let mut ind: usize = prev_line_start;
    while ind < prev_line_end && (chars[ind] == ' ' || chars[ind] == '\t')
        invariant
            prev_line_start <= ind <= prev_line_end < c.len(),
            c == chars@,
            indent_run(line) == (ind - prev_line_start) + indent_run(
                c.subrange(ind as int, prev_line_end as int),
            ),
        decreases prev_line_end - ind,
    {
        proof {
            assert(c.subrange(ind as int, prev_line_end as int).drop_first() =~= c.subrange(
                ind + 1,
                prev_line_end as int,
            ));
        }
        ind = ind + 1;
    }
    proof {
        if ind < prev_line_end {
            assert(c.subrange(ind as int, prev_line_end as int)[0] == c[ind as int]);
        }
        let k = ind - prev_line_start;
        assert(line.take(k) =~= c.subrange(prev_line_start as int, ind as int));
        assert(line.skip(k) =~= c.subrange(ind as int, prev_line_end as int));
    }
    // Detect list prefix after indentation
    let list_prefix = prefix_for(chars.as_slice(), ind, prev_line_end);
    let lp = chars_of(list_prefix.as_str());
    let mut insertion: Vec<char> = Vec::new();
    append_range(&mut insertion, chars.as_slice(), prev_line_start, ind);
    append_range(&mut insertion, lp.as_slice(), 0, lp.len());
    proof {
        assert(lp@.subrange(0, lp@.len() as int) =~= lp@);
        assert(insertion@ =~= auto_insertion(c, cursor as int));
        lemma_list_prefix_len(c.subrange(ind as int, prev_line_end as int));
    }
    if insertion.len() == 0 {
        return None;
    }
    // Insert the indentation at cursor position
    let mut out: Vec<char> = Vec::new();
    append_range(&mut out, chars.as_slice(), 0, cursor);
    append_range(&mut out, insertion.as_slice(), 0, insertion.len());
    append_range(&mut out, chars.as_slice(), cursor, chars.len());
    proof {
        assert(insertion@.subrange(0, insertion@.len() as int) =~= insertion@);
        assert(out@ =~= c.take(cursor as int) + insertion@ + c.skip(cursor as int));
    }
    let new_cursor: usize = cursor + insertion.len();
    Some((string_from_chars(out.as_slice()), new_cursor))
}

pub proof fn lemma_list_prefix_len(line: Seq<char>)
    ensures
        list_prefix_spec(line).len() <= 22,
{
    let t = trim_start(line);
    if !(t.len() >= 2 && t.take(2) == dash_item()) && !(t.len() >= 2 && t.take(2) == star_item())
        && ordered_item(t) && item_number(t) <= u64::MAX {
        lemma_decimal_len(item_number(t) + 1);
    }
}

// ─── URLs ───────────────────────────────────────────────────────────────────

/// URLs (char ranges) found scanning from `pos`.
pub open spec fn urls_from(s: Seq<char>, pos: int) -> Seq<(int, int)>
    decreases s.len() - pos,
{
    if pos < 0 || pos >= s.len() {
        Seq::empty()
    } else {
        let p = url_prefix_len(s, pos, s.len() as int);
        if p == 0 {
            urls_from(s, pos + 1)
        } else {
            match url_at(s, pos, s.len() as int) {
                Some(e) => {
                    proof {
                        lemma_url_stop(s, pos + p, s.len() as int);
                    }
                    seq![(pos, e)] + urls_from(s, e)
                },
                None => urls_from(s, pos + p),
            }
        }
    }
}

pub proof fn lemma_urls_bounds(s: Seq<char>, pos: int)
    requires
        0 <= pos,
    ensures
        forall|k: int|
            0 <= k < urls_from(s, pos).len() ==> pos <= (#[trigger] urls_from(s, pos)[k]).0
                < urls_from(s, pos)[k].1 <= s.len(),
    decreases s.len() - pos,
{
    if pos < s.len() {
        let p = url_prefix_len(s, pos, s.len() as int);
        if p == 0 {
            lemma_urls_bounds(s, pos + 1);
            assert(urls_from(s, pos) == urls_from(s, pos + 1));
        } else {
            lemma_url_stop(s, pos + p, s.len() as int);
            match url_at(s, pos, s.len() as int) {
                Some(e) => {
                    lemma_urls_bounds(s, e);
                    let all = urls_from(s, pos);
                    assert(all == seq![(pos, e)] + urls_from(s, e));
                    assert forall|k: int| 0 <= k < all.len() implies pos <= (#[trigger] all[k]).0
                        < all[k].1 <= s.len() by {
                        if k > 0 {
                            assert(all[k] == urls_from(s, e)[k - 1]);
                        }
                    }
                },
                None => {
                    lemma_urls_bounds(s, pos + p);
                    assert(urls_from(s, pos) == urls_from(s, pos + p));
                },
            }
        }
    }
}

/// Whether `c` ends a URL.
fn url_stop_char(c: char) -> (b: bool)
    ensures
        b == crate::markup::is_url_stop(c),
{
    crate::text::is_whitespace(c) || c == '<' || c == '>' || c == '[' || c == ']' || c == '('
        || c == ')'
}

/// Whether `pat` stands at `pos` within `v[..end]`.
fn prefix_at(v: &[char], pos: usize, end: usize, pat: &[char]) -> (r: bool)
    requires
        end <= v@.len(),
    ensures
        r == prefix_within(v@, pos as int, end as int, pat@),
{
    if pos > end || pat.len() > end - pos {
        return false;
    }
    slice_eq_at(v, pos, pat)
}

/// Find all URLs in text, returning byte-offset ranges.
pub fn find_urls(text: &str) -> (r: Vec<Range<usize>>)
    ensures
        r@ == ranges_to_bytes(text@, urls_from(text@, 0)),
        forall|k: int|
            0 <= k < r@.len() ==> link_within(#[trigger] r@[k], text.spec_bytes().len() as int),
{
    let (chars, offs) = char_table(text);
    let ghost s = text@;
    let len: usize = chars.len();
    let https: [char; 8] = ['h', 't', 't', 'p', 's', ':', '/', '/'];
    let http: [char; 7] = ['h', 't', 't', 'p', ':', '/', '/'];
    let mailto: [char; 7] = ['m', 'a', 'i', 'l', 't', 'o', ':'];
    proof {
        assert(https@ =~= https_pat());
        assert(http@ =~= http_pat());
        assert(mailto@ =~= mailto_pat());
        lemma_byte_offset_ends(s);
    }
    let mut urls: Vec<Range<usize>> = Vec::new();
    let ghost mut done: Seq<(int, int)> = Seq::empty();
    let mut pos: usize = 0;
    while pos < len
        invariant
            pos <= len,
            len == s.len(),
            chars@ == s,
            offs@.len() == s.len() + 1,
            forall|k: int| 0 <= k <= s.len() ==> #[trigger] offs@[k] == byte_offset(s, k),
            byte_offset(s, s.len() as int) == text.spec_bytes().len(),
            https@ == https_pat(),
            http@ == http_pat(),
            mailto@ == mailto_pat(),
            done + urls_from(s, pos as int) == urls_from(s, 0),
            urls@ == ranges_to_bytes(s, done),
            forall|k: int|
                0 <= k < urls@.len() ==> link_within(
                    #[trigger] urls@[k],
                    text.spec_bytes().len() as int,
                ),
        decreases len - pos,
    {
        let prefix_len: usize = if prefix_at(chars.as_slice(), pos, len, https.as_slice()) {
            8
        } else if prefix_at(chars.as_slice(), pos, len, http.as_slice()) {
            7
        } else if prefix_at(chars.as_slice(), pos, len, mailto.as_slice()) {
            7
        } else {
            0
        };
        if prefix_len == 0 {
            pos = pos + 1;
            continue;
        }
        if len - pos <= prefix_len {
            pos = pos + prefix_len;
            continue;
        }
        // Consume until whitespace/bracket/paren
        let first: usize = pos + prefix_len;
        let mut i: usize = first;
        while i < len && !url_stop_char(chars[i])
            invariant
                first <= i <= len,
                len == s.len(),
                chars@ == s,
                url_stop(s, first as int, len as int) == url_stop(s, i as int, len as int),
            decreases len - i,
        {
            i = i + 1;
        }
        if i > first {
            proof {
                lemma_byte_offset_mono(s, pos as int, i as int);
                lemma_byte_offset_mono(s, i as int, s.len() as int);
            }
            urls.push(offs[pos]..offs[i]);
            proof {
                done = done.push((pos as int, i as int));
                assert(urls@ =~= ranges_to_bytes(s, done));
                assert(done + urls_from(s, i as int) =~= urls_from(s, 0));
            }
            pos = i;
        } else {
            pos = pos + prefix_len;
        }
    }
    proof {
        assert(urls_from(s, pos as int) =~= Seq::<(int, int)>::empty());
        assert(done =~= urls_from(s, 0));
    }
    urls
}

} // verus!
