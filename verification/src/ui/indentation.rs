//! The lines of a text as `seg_lines` splits it, and what indenting and then
//! outdenting the whole text does to them.
use vstd::prelude::*;
use crate::ui::formatting::{
    indent4, indent_from, indent_spec, lead_spaces, lemma_newline_from, lemma_seg_lines,
    line_hit, newline_from, outdent_from, outdent_spec, seg_lines,
};

verus! {

/// The texts of the segments `ls` of `c`.
pub open spec fn line_texts(c: Seq<char>, ls: Seq<(int, int)>) -> Seq<Seq<char>> {
    Seq::new(ls.len(), |k: int| c.subrange(ls[k].0, ls[k].1))
}

/// The lines `ls[j..]` written one after the other.
pub open spec fn join_from(ls: Seq<Seq<char>>, j: int) -> Seq<char>
    decreases ls.len() - j,
{
    if j < 0 || j >= ls.len() {
        Seq::empty()
    } else {
        ls[j] + join_from(ls, j + 1)
    }
}

/// A list of lines as a text splits into: at least one line, every line but
/// the last ending in its only newline, the last holding none.
pub open spec fn lines_wf(ls: Seq<Seq<char>>) -> bool {
    &&& ls.len() >= 1
    &&& forall|k: int|
        0 <= k < ls.len() - 1 ==> (#[trigger] ls[k]).len() > 0 && ls[k].last() == '\n'
            && forall|i: int| 0 <= i < ls[k].len() - 1 ==> ls[k][i] != '\n'
    &&& forall|i: int| 0 <= i < ls.last().len() ==> ls.last()[i] != '\n'
}

/// The text that indenting the lines `ls[j..]` of `c` within `[a, b]` writes.
pub open spec fn indent_text_from(c: Seq<char>, ls: Seq<(int, int)>, j: int, a: int, b: int) -> Seq<
    char,
>
    decreases ls.len() - j,
{
    if j < 0 || j >= ls.len() {
        Seq::empty()
    } else {
        let line = c.subrange(ls[j].0, ls[j].1);
        (if line_hit(ls[j].0, ls[j].1, a, b, j == ls.len() - 1) {
            indent4() + line
        } else {
            line
        }) + indent_text_from(c, ls, j + 1, a, b)
    }
}

/// The text that outdenting the lines `ls[j..]` of `c` within `[a, b]` writes.
pub open spec fn outdent_text_from(c: Seq<char>, ls: Seq<(int, int)>, j: int, a: int, b: int) -> Seq<
    char,
>
    decreases ls.len() - j,
{
    if j < 0 || j >= ls.len() {
        Seq::empty()
    } else {
        let line = c.subrange(ls[j].0, ls[j].1);
        (if line_hit(ls[j].0, ls[j].1, a, b, j == ls.len() - 1) {
            line.skip(lead_spaces(line))
        } else {
            line
        }) + outdent_text_from(c, ls, j + 1, a, b)
    }
}

proof fn lemma_indent_text(
    c: Seq<char>,
    ls: Seq<(int, int)>,
    j: int,
    a: int,
    b: int,
    cum: int,
    ns: int,
    ne: int,
)
    requires
        0 <= j,
    ensures
        indent_from(c, ls, j, a, b, cum, ns, ne).0 == indent_text_from(c, ls, j, a, b),
    decreases ls.len() - j,
{
    if j < ls.len() {
        let (l0, l1) = ls[j];
        if line_hit(l0, l1, a, b, j == ls.len() - 1) {
            let ns2 = if l0 <= a {
                a + cum + 4
            } else {
                ns
            };
            let ne2 = if l0 <= b {
                b + cum + 4
            } else {
                ne
            };
            lemma_indent_text(c, ls, j + 1, a, b, cum + 4, ns2, ne2);
        } else {
            lemma_indent_text(c, ls, j + 1, a, b, cum, ns, ne);
        }
    }
}

proof fn lemma_outdent_text(
    c: Seq<char>,
    ls: Seq<(int, int)>,
    j: int,
    a: int,
    b: int,
    cum: int,
    ns: int,
    ne: int,
)
    requires
        0 <= j,
    ensures
        outdent_from(c, ls, j, a, b, cum, ns, ne).0 == outdent_text_from(c, ls, j, a, b),
    decreases ls.len() - j,
{
    if j < ls.len() {
        let (l0, l1) = ls[j];
        let line = c.subrange(l0, l1);
        if line_hit(l0, l1, a, b, j == ls.len() - 1) {
            let sp = lead_spaces(line);
            let ns2 = if l0 <= a && a <= l1 {
                a - cum - (if sp < a - l0 {
                    sp
                } else {
                    a - l0
                })
            } else {
                ns
            };
            let ne2 = if l0 <= b && b <= l1 {
                b - cum - (if sp < b - l0 {
                    sp
                } else {
                    b - l0
                })
            } else if l1 <= b {
                b - cum - sp
            } else {
                ne
            };
            lemma_outdent_text(c, ls, j + 1, a, b, cum + sp, ns2, ne2);
        } else {
            lemma_outdent_text(c, ls, j + 1, a, b, cum, ns, ne);
        }
    }
}

/// The segments of `c` from `i` on are well-formed lines that join to the
/// rest of `c`.
pub proof fn lemma_lines_of(c: Seq<char>, i: int)
    requires
        0 <= i <= c.len(),
    ensures
        lines_wf(line_texts(c, seg_lines(c, i))),
        join_from(line_texts(c, seg_lines(c, i)), 0) == c.skip(i),
    decreases c.len() + 1 - i,
{
    lemma_newline_from(c, i);
    lemma_seg_lines(c, i);
    let ls = seg_lines(c, i);
    let t = line_texts(c, ls);
    match newline_from(c, i) {
        Some(k) => {
            lemma_lines_of(c, k + 1);
            lemma_seg_lines(c, k + 1);
            let rest = seg_lines(c, k + 1);
            let tr = line_texts(c, rest);
            assert(ls == seq![(i, k + 1)] + rest);
            assert forall|m: int| 0 <= m < tr.len() implies t[m + 1] == tr[m] by {
                assert(ls[m + 1] == rest[m]);
            }
            lemma_join_shift(t, tr, 0);
            assert(t[0] == c.subrange(i, k + 1));
            assert(c.skip(i) =~= c.subrange(i, k + 1) + c.skip(k + 1));
            assert(t[0].last() == '\n');
            assert forall|m: int| 0 <= m < t.len() - 1 implies (#[trigger] t[m]).len() > 0 && t[m].last()
                == '\n' && forall|q: int| 0 <= q < t[m].len() - 1 ==> t[m][q] != '\n' by {
                if m > 0 {
                    assert(t[m] == tr[m - 1]);
                }
            }
            assert(t.last() == tr.last());
        },
        None => {
            assert(ls == seq![(i, c.len() as int)]);
            assert(t[0] =~= c.skip(i));
            assert(join_from(t, 1) == Seq::<char>::empty());
            assert(join_from(t, 0) =~= c.skip(i));
        },
    }
}

/// Joining `t` from `m + 1` is joining `tr` from `m` when `t` is one line
/// followed by `tr`.
proof fn lemma_join_shift(t: Seq<Seq<char>>, tr: Seq<Seq<char>>, m: int)
    requires
        t.len() == tr.len() + 1,
        forall|q: int| 0 <= q < tr.len() ==> t[q + 1] == tr[q],
        0 <= m,
    ensures
        join_from(t, m + 1) == join_from(tr, m),
    decreases tr.len() - m,
{
    if m < tr.len() {
        lemma_join_shift(t, tr, m + 1);
    }
}

/// Well-formed lines joined after a prefix `p` split back into the same lines.
pub proof fn lemma_split_joined(p: Seq<char>, t: Seq<Seq<char>>, j: int)
    requires
        lines_wf(t),
        0 <= j < t.len(),
    ensures
        seg_lines(p + join_from(t, j), p.len() as int).len() == t.len() - j,
        forall|m: int|
            0 <= m < t.len() - j ==> (p + join_from(t, j)).subrange(
                (#[trigger] seg_lines(p + join_from(t, j), p.len() as int)[m]).0,
                seg_lines(p + join_from(t, j), p.len() as int)[m].1,
            ) == t[j + m],
    decreases t.len() - j,
{
    let x = p + join_from(t, j);
    let i = p.len() as int;
    let line = t[j];
    assert(join_from(t, j) == line + join_from(t, j + 1));
    assert(x.subrange(i, i + line.len()) =~= line);
    lemma_newline_from(x, i);
    if j == t.len() - 1 {
        assert(join_from(t, j + 1) == Seq::<char>::empty());
        assert(x =~= p + line);
        assert(newline_from(x, i) is None) by {
            if newline_from(x, i) is Some {
                let k = newline_from(x, i)->0;
                assert(line == t.last());
                assert(x[k] == line[k - i]);
                assert(line[k - i] != '\n');
            }
        }
        assert(seg_lines(x, i) == seq![(i, x.len() as int)]);
    } else {
        let k = i + line.len() - 1;
        assert(x[k] == line[line.len() - 1]);
        assert(newline_from(x, i) == Some(k)) by {
            match newline_from(x, i) {
                Some(k2) => {
                    if k2 < k {
                        assert(x[k2] == line[k2 - i]);
                    } else if k2 > k {
                        assert(x[k] != '\n');
                    }
                },
                None => {
                    assert(x[k] != '\n');
                },
            }
        }
        let p2 = p + line;
        assert(x =~= p2 + join_from(t, j + 1));
        lemma_split_joined(p2, t, j + 1);
        let rest = seg_lines(x, k + 1);
        assert(seg_lines(x, i) == seq![(i, k + 1)] + rest);
        assert forall|m: int| 0 <= m < t.len() - j implies x.subrange(
            (#[trigger] seg_lines(x, i)[m]).0,
            seg_lines(x, i)[m].1,
        ) == t[j + m] by {
            if m > 0 {
                assert(seg_lines(x, i)[m] == rest[m - 1]);
            }
        }
    }
}

/// Each line of `t` written with four spaces in front, except an empty line,
/// which keeps none unless `all` is set.
pub open spec fn indented_lines(t: Seq<Seq<char>>, all: bool) -> Seq<Seq<char>> {
    Seq::new(
        t.len(),
        |k: int|
            if t[k].len() > 0 || all {
                indent4() + t[k]
            } else {
                t[k]
            },
    )
}

/// Indenting all of `c` writes the indented lines of `c`.
proof fn lemma_indent_all_text(c: Seq<char>, j: int)
    requires
        0 <= j <= seg_lines(c, 0).len(),
    ensures
        indent_text_from(c, seg_lines(c, 0), j, 0, c.len() as int) == join_from(
            indented_lines(line_texts(c, seg_lines(c, 0)), c.len() == 0),
            j,
        ),
    decreases seg_lines(c, 0).len() - j,
{
    let ls = seg_lines(c, 0);
    let t = line_texts(c, ls);
    let it = indented_lines(t, c.len() == 0);
    lemma_seg_lines(c, 0);
    lemma_lines_of(c, 0);
    if j < ls.len() {
        lemma_indent_all_text(c, j + 1);
        let (l0, l1) = ls[j];
        assert(t[j] == c.subrange(l0, l1));
        if t[j].len() == 0 {
            assert(j == ls.len() - 1);
            assert(l1 == c.len());
        }
    }
}

/// Outdenting all of the indented text of `c` writes the lines of `c`.
proof fn lemma_outdent_all_text(c: Seq<char>, x: Seq<char>, j: int)
    requires
        x == join_from(indented_lines(line_texts(c, seg_lines(c, 0)), c.len() == 0), 0),
        lines_wf(indented_lines(line_texts(c, seg_lines(c, 0)), c.len() == 0)),
        0 <= j <= seg_lines(x, 0).len(),
        seg_lines(x, 0).len() == seg_lines(c, 0).len(),
        forall|m: int|
            0 <= m < seg_lines(x, 0).len() ==> x.subrange(
                (#[trigger] seg_lines(x, 0)[m]).0,
                seg_lines(x, 0)[m].1,
            ) == indented_lines(line_texts(c, seg_lines(c, 0)), c.len() == 0)[m],
    ensures
        outdent_text_from(x, seg_lines(x, 0), j, 0, x.len() as int) == join_from(
            line_texts(c, seg_lines(c, 0)),
            j,
        ),
    decreases seg_lines(x, 0).len() - j,
{
    let lx = seg_lines(x, 0);
    let t = line_texts(c, seg_lines(c, 0));
    let it = indented_lines(t, c.len() == 0);
    lemma_seg_lines(x, 0);
    if j < lx.len() {
        lemma_outdent_all_text(c, x, j + 1);
        let (l0, l1) = lx[j];
        let line = x.subrange(l0, l1);
        assert(line == it[j]);
        if line.len() > 0 {
            assert(line_hit(l0, l1, 0, x.len() as int, j == lx.len() - 1));
            assert(line == indent4() + t[j]);
            assert(lead_spaces(line) == 4);
            assert(line.skip(4) =~= t[j]);
        } else {
            assert(line.skip(lead_spaces(line)) =~= line);
        }
    }
}

/// Indenting every line of a text and then outdenting every line of the
/// result gives the text back (a selection from 0 to the end or beyond
/// covers all lines).
pub proof fn lemma_indent_outdent_roundtrip(c: Seq<char>, end1: int, end2: int)
    requires
        end1 >= c.len(),
        end2 >= indent_spec(c, 0, end1).0.len(),
    ensures
        outdent_spec(indent_spec(c, 0, end1).0, 0, end2).0 == c,
{
    let ls = seg_lines(c, 0);
    let t = line_texts(c, ls);
    let n = c.len() as int;
    let it = indented_lines(t, n == 0);
    lemma_seg_lines(c, 0);
    lemma_lines_of(c, 0);
    lemma_indent_text(c, ls, 0, 0, n, 0, 0, n);
    lemma_indent_all_text(c, 0);
    let x = indent_spec(c, 0, end1).0;
    assert(x == join_from(it, 0));
    assert(lines_wf(it)) by {
        assert forall|k: int| 0 <= k < it.len() - 1 implies (#[trigger] it[k]).len() > 0 && it[k].last()
            == '\n' && forall|q: int| 0 <= q < it[k].len() - 1 ==> it[k][q] != '\n' by {
            assert(t[k].len() > 0);
            assert(it[k] == indent4() + t[k]);
            assert forall|q: int| 0 <= q < it[k].len() - 1 implies it[k][q] != '\n' by {
                if q >= 4 {
                    assert(it[k][q] == t[k][q - 4]);
                }
            }
        }
        assert forall|q: int| 0 <= q < it.last().len() implies it.last()[q] != '\n' by {
            if t.last().len() > 0 || n == 0 {
                assert(it.last() == indent4() + t.last());
                if q >= 4 {
                    assert(it.last()[q] == t.last()[q - 4]);
                }
            }
        }
    }
    lemma_split_joined(Seq::empty(), it, 0);
    assert(Seq::<char>::empty() + join_from(it, 0) =~= x);
    let lx = seg_lines(x, 0);
    lemma_outdent_all_text(c, x, 0);
    lemma_outdent_text(x, lx, 0, 0, x.len() as int, 0, 0, x.len() as int);
    assert(c.skip(0) =~= c);
}

/// `p` clamped to `[lo, hi]`.
pub open spec fn clamp(p: int, lo: int, hi: int) -> int {
    if p < lo {
        lo
    } else if p > hi {
        hi
    } else {
        p
    }
}

/// The chars outdenting removes, among the lines `ls[..j]` of `c` touched by
/// the selection `[a, b]`, before position `p`.
pub open spec fn removed_before(c: Seq<char>, ls: Seq<(int, int)>, a: int, b: int, j: int, p: int) -> int
    decreases j,
{
    if j <= 0 || j > ls.len() {
        0
    } else {
        let k = j - 1;
        let (l0, l1) = ls[k];
        let sp = lead_spaces(c.subrange(l0, l1));
        removed_before(c, ls, a, b, k, p) + (if line_hit(l0, l1, a, b, k == ls.len() - 1) {
            clamp(p - l0, 0, sp)
        } else {
            0
        })
    }
}

/// Where position `p` of `c` lands after outdenting.
pub open spec fn outdent_pos(c: Seq<char>, ls: Seq<(int, int)>, a: int, b: int, p: int) -> int {
    p - removed_before(c, ls, a, b, ls.len() as int, p)
}

proof fn lemma_lead_spaces_bound(line: Seq<char>)
    ensures
        0 <= lead_spaces(line) <= line.len(),
        lead_spaces(line) <= 4,
{
}

/// Lines of `c` from `seg_lines`: in order, touching, from 0 to the end.
pub open spec fn lines_tile(c: Seq<char>, ls: Seq<(int, int)>) -> bool {
    &&& ls.len() >= 1
    &&& ls[0].0 == 0
    &&& ls.last().1 == c.len()
    &&& forall|k: int| 0 <= k < ls.len() ==> 0 <= (#[trigger] ls[k]).0 <= ls[k].1 <= c.len()
    &&& forall|k: int| 0 <= k < ls.len() - 1 ==> (#[trigger] ls[k]).1 == ls[k + 1].0
}

/// Moving `p` to `q` changes what is removed before it by at most what lies
/// between them in the lines `ls[..j]`.
proof fn lemma_removed_lipschitz(c: Seq<char>, ls: Seq<(int, int)>, a: int, b: int, j: int, p: int, q: int)
    requires
        lines_tile(c, ls),
        0 <= j <= ls.len(),
        p <= q,
    ensures
        0 <= removed_before(c, ls, a, b, j, q) - removed_before(c, ls, a, b, j, p) <= clamp(q, 0, if j == 0 {
            0
        } else {
            ls[j - 1].1
        }) - clamp(p, 0, if j == 0 {
            0
        } else {
            ls[j - 1].1
        }),
        p <= 0 ==> removed_before(c, ls, a, b, j, p) == 0,
    decreases j,
{
    if j > 0 {
        let k = j - 1;
        lemma_removed_lipschitz(c, ls, a, b, k, p, q);
        let (l0, l1) = ls[k];
        lemma_lead_spaces_bound(c.subrange(l0, l1));
        if k > 0 {
            assert(ls[k - 1].1 == ls[k].0);
        }
    }
}

/// Outdenting from line `j` on, from the state that `removed_before` gives
/// for the lines before `j`, ends with the positions `outdent_pos` gives and
/// a text as long as what is left less what the later lines lose.
proof fn lemma_outdent_steps(
    c: Seq<char>,
    ls: Seq<(int, int)>,
    j: int,
    a: int,
    b: int,
    cum: int,
    ns: int,
    ne: int,
)
    requires
        lines_tile(c, ls),
        0 <= j <= ls.len(),
        0 <= a <= b <= c.len(),
        cum == removed_before(c, ls, a, b, j, c.len() as int),
        ns == a - removed_before(c, ls, a, b, j, a),
        ne == b - removed_before(c, ls, a, b, j, b),
    ensures
        outdent_from(c, ls, j, a, b, cum, ns, ne).1 == outdent_pos(c, ls, a, b, a),
        outdent_from(c, ls, j, a, b, cum, ns, ne).2 == outdent_pos(c, ls, a, b, b),
        outdent_from(c, ls, j, a, b, cum, ns, ne).0.len() == (if j < ls.len() {
            c.len() - ls[j].0
        } else {
            0
        }) - (removed_before(c, ls, a, b, ls.len() as int, c.len() as int) - cum),
    decreases ls.len() - j,
{
    if j < ls.len() {
        let (l0, l1) = ls[j];
        let line = c.subrange(l0, l1);
        let sp = lead_spaces(line);
        lemma_lead_spaces_bound(line);
        let hit = line_hit(l0, l1, a, b, j == ls.len() - 1);
        // every earlier line ends by `l0`
        lemma_removed_lipschitz(c, ls, a, b, j, l0, c.len() as int);
        if j > 0 {
            assert(ls[j - 1].1 == l0);
        }
        assert(removed_before(c, ls, a, b, j + 1, c.len() as int) == cum + (if hit {
            sp
        } else {
            0
        }));
        if hit {
            // a touched line ends after `a` or holds it, and starts by `b`
            assert(l1 >= a);
            assert(l0 <= b);
            let ns2 = if l0 <= a && a <= l1 {
                a - cum - (if sp < a - l0 {
                    sp
                } else {
                    a - l0
                })
            } else {
                ns
            };
            let ne2 = if l0 <= b && b <= l1 {
                b - cum - (if sp < b - l0 {
                    sp
                } else {
                    b - l0
                })
            } else if l1 <= b {
                b - cum - sp
            } else {
                ne
            };
            if l0 <= a {
                lemma_removed_lipschitz(c, ls, a, b, j, a, c.len() as int);
                assert(removed_before(c, ls, a, b, j, a) == cum);
            }
            if l0 <= b {
                lemma_removed_lipschitz(c, ls, a, b, j, b, c.len() as int);
                assert(removed_before(c, ls, a, b, j, b) == cum);
            }
            assert(ns2 == a - removed_before(c, ls, a, b, j + 1, a));
            assert(ne2 == b - removed_before(c, ls, a, b, j + 1, b));
            lemma_outdent_steps(c, ls, j + 1, a, b, cum + sp, ns2, ne2);
            assert(line.skip(sp).len() == l1 - l0 - sp);
            if j + 1 < ls.len() {
                assert(ls[j + 1].0 == l1);
            } else {
                assert(l1 == c.len());
            }
        } else {
            assert(ns == a - removed_before(c, ls, a, b, j + 1, a));
            assert(ne == b - removed_before(c, ls, a, b, j + 1, b));
            lemma_outdent_steps(c, ls, j + 1, a, b, cum, ns, ne);
            if j + 1 < ls.len() {
                assert(ls[j + 1].0 == l1);
            } else {
                assert(l1 == c.len());
            }
        }
    }
}

/// Outdenting keeps the selection in order and inside the new text:
/// `0 <= new_start <= new_end <= new length`.
pub proof fn lemma_outdent_positions(c: Seq<char>, start: int, end: int)
    requires
        0 <= start,
        0 <= end,
    ensures
        ({
            let r = outdent_spec(c, start, end);
            0 <= r.1 <= r.2 <= r.0.len()
        }),
{
    let n = c.len() as int;
    let ls = seg_lines(c, 0);
    lemma_seg_lines(c, 0);
    let s0 = if start < n {
        start
    } else {
        n
    };
    let e0 = if end < n {
        end
    } else {
        n
    };
    let (a, b) = if s0 <= e0 {
        (s0, e0)
    } else {
        (e0, s0)
    };
    assert(lines_tile(c, ls));
    lemma_removed_lipschitz(c, ls, a, b, 0, a, b);
    lemma_removed_lipschitz(c, ls, a, b, 0, b, n);
    lemma_outdent_steps(c, ls, 0, a, b, 0, a, b);
    let m = ls.len() as int;
    lemma_removed_lipschitz(c, ls, a, b, m, 0, a);
    lemma_removed_lipschitz(c, ls, a, b, m, a, b);
    lemma_removed_lipschitz(c, ls, a, b, m, b, n);
}

} // verus!
