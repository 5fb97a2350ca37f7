//! How the editor combines markdown styling with search and wiki-link
//! highlighting: the byte sections to draw and the look of each.
use std::ops::Range;
use vstd::prelude::*;
use crate::highlight::{covers, HighlightSpan, SpanKind};
use crate::markup::{tiles_bytes, Style};
use crate::theme::Rgba;

verus! {

/// The smaller of two integers.
pub open spec fn min_int(a: int, b: int) -> int {
    if a < b {
        a
    } else {
        b
    }
}

/// A drawn section: byte range, markdown style and highlight kind.
pub type Section = (Range<usize>, Style, SpanKind);

/// The sections from position `pos` on, walking markup span `mi` and
/// highlight span `hi`: each step cuts at the nearer of the two span ends
/// (capped at `len`), keeps the piece when it is not empty, and moves past
/// every span that ends there.
pub open spec fn merge_from(
    m: Seq<(Range<usize>, Style)>,
    h: Seq<HighlightSpan>,
    len: int,
    pos: int,
    mi: int,
    hi: int,
) -> Seq<Section>
    decreases (m.len() - mi) + (h.len() - hi),
{
    if !(pos < len && 0 <= mi < m.len() && 0 <= hi < h.len()) {
        Seq::empty()
    } else {
        let m_end = min_int(m[mi].0.end as int, len);
        let h_end = min_int(h[hi].byte_range.end as int, len);
        let end = min_int(m_end, h_end);
        let sec: Seq<Section> = if end > pos {
            seq![(Range { start: pos as usize, end: end as usize }, m[mi].1, h[hi].kind)]
        } else {
            Seq::empty()
        };
        sec + merge_from(
            m,
            h,
            len,
            end,
            if end >= m_end {
                mi + 1
            } else {
                mi
            },
            if end >= h_end {
                hi + 1
            } else {
                hi
            },
        )
    }
}

/// Sections cover `[a, b)` with non-empty, contiguous, ordered ranges.
pub open spec fn sections_tile(sp: Seq<Section>, a: int, b: int) -> bool {
    if sp.len() == 0 {
        a == b
    } else {
        &&& sp[0].0.start == a
        &&& sp.last().0.end == b
        &&& forall|k: int| 0 <= k < sp.len() ==> #[trigger] sp[k].0.start < sp[k].0.end
        &&& forall|k: int| 0 <= k < sp.len() - 1 ==> #[trigger] sp[k].0.end == sp[k + 1].0.start
    }
}

/// Split the text into sections where both the markdown style and the
/// highlight kind are constant: a merge of the two span lists.
pub fn combine_sections(
    markup: &[(Range<usize>, Style)],
    highlight: &[HighlightSpan],
    text_len: usize,
) -> (r: Vec<Section>)
    ensures
        r@ == merge_from(markup@, highlight@, text_len as int, 0, 0, 0),
        tiles_bytes(markup@, 0, text_len as int) && covers(highlight@, 0, text_len as int)
            ==> sections_tile(r@, 0, text_len as int),
{
    let mut sections: Vec<Section> = Vec::new();
    let mut mi: usize = 0;
    let mut hi: usize = 0;
    let mut pos: usize = 0;
    while pos < text_len && mi < markup.len() && hi < highlight.len()
        invariant
            mi <= markup@.len(),
            hi <= highlight@.len(),
            merge_from(markup@, highlight@, text_len as int, 0, 0, 0) == sections@ + merge_from(
                markup@,
                highlight@,
                text_len as int,
                pos as int,
                mi as int,
                hi as int,
            ),
        decreases (markup@.len() - mi) + (highlight@.len() - hi),
    {
        let m_end: usize = if markup[mi].0.end < text_len {
            markup[mi].0.end
        } else {
            text_len
        };
        let h_end: usize = if highlight[hi].byte_range.end < text_len {
            highlight[hi].byte_range.end
        } else {
            text_len
        };
        let end: usize = if m_end < h_end {
            m_end
        } else {
            h_end
        };
        let ghost before = sections@;
        if end > pos {
            let mstyle = markup[mi].1;
            let hkind = highlight[hi].kind;
            sections.push((Range { start: pos, end }, mstyle, hkind));
        }
        proof {
            let rest = merge_from(
                markup@,
                highlight@,
                text_len as int,
                end as int,
                if end >= m_end {
                    mi + 1
                } else {
                    mi as int
                },
                if end >= h_end {
                    hi + 1
                } else {
                    hi as int
                },
            );
            if end > pos {
                assert(sections@ + rest =~= before + (seq![
                    (Range { start: pos, end }, markup@[mi as int].1, highlight@[hi as int].kind),
                ] + rest));
            } else {
                assert(before + (Seq::<Section>::empty() + rest) =~= sections@ + rest);
            }
        }
        pos = end;
        if pos >= m_end {
            mi += 1;
        }
        if pos >= h_end {
            hi += 1;
        }
    }
    proof {
        assert(sections@ + Seq::<Section>::empty() =~= sections@);
        if tiles_bytes(markup@, 0, text_len as int) && covers(highlight@, 0, text_len as int) {
            lemma_merge_tiles(markup@, highlight@, text_len as int, 0, 0, 0);
        }
    }
    sections
}

/// Every span of a tiling lies inside the tiled range.
proof fn lemma_tiles_bytes_inside(sp: Seq<(Range<usize>, Style)>, a: int, b: int, k: int)
    requires
        tiles_bytes(sp, a, b),
        0 <= k < sp.len(),
    ensures
        a <= sp[k].0.start < sp[k].0.end <= b,
    decreases sp.len() - k,
{
    lemma_tiles_bytes_lower(sp, a, b, k);
    if k < sp.len() - 1 {
        lemma_tiles_bytes_inside(sp, a, b, k + 1);
    }
}

proof fn lemma_tiles_bytes_lower(sp: Seq<(Range<usize>, Style)>, a: int, b: int, k: int)
    requires
        tiles_bytes(sp, a, b),
        0 <= k < sp.len(),
    ensures
        a <= sp[k].0.start,
    decreases k,
{
    if k > 0 {
        lemma_tiles_bytes_lower(sp, a, b, k - 1);
    }
}

/// Every span of a cover lies inside the covered range.
proof fn lemma_covers_inside(sp: Seq<HighlightSpan>, a: int, b: int, k: int)
    requires
        covers(sp, a, b),
        0 <= k < sp.len(),
    ensures
        a <= sp[k].byte_range.start <= sp[k].byte_range.end <= b,
    decreases sp.len() - k,
{
    lemma_covers_lower(sp, a, b, k);
    if k < sp.len() - 1 {
        lemma_covers_inside(sp, a, b, k + 1);
    }
}

proof fn lemma_covers_lower(sp: Seq<HighlightSpan>, a: int, b: int, k: int)
    requires
        covers(sp, a, b),
        0 <= k < sp.len(),
    ensures
        a <= sp[k].byte_range.start,
    decreases k,
{
    if k > 0 {
        lemma_covers_lower(sp, a, b, k - 1);
    }
}

/// Merging a markdown tiling with a highlight cover of the same text tiles the
/// text: the drawn sections cover every byte once, in order.
pub proof fn lemma_merge_tiles(
    m: Seq<(Range<usize>, Style)>,
    h: Seq<HighlightSpan>,
    len: int,
    pos: int,
    mi: int,
    hi: int,
)
    requires
        tiles_bytes(m, 0, len),
        covers(h, 0, len),
        0 <= pos <= len,
        0 <= mi <= m.len(),
        0 <= hi <= h.len(),
        mi < m.len() ==> m[mi].0.start <= pos < m[mi].0.end,
        mi == m.len() ==> pos == len,
        hi < h.len() ==> h[hi].byte_range.start <= pos <= h[hi].byte_range.end,
        hi == h.len() ==> pos == len,
    ensures
        sections_tile(merge_from(m, h, len, pos, mi, hi), pos, len),
    decreases (m.len() - mi) + (h.len() - hi),
{
    if pos < len && mi < m.len() && hi < h.len() {
        lemma_tiles_bytes_inside(m, 0, len, mi);
        lemma_covers_inside(h, 0, len, hi);
        let m_end = min_int(m[mi].0.end as int, len);
        let h_end = min_int(h[hi].byte_range.end as int, len);
        let end = min_int(m_end, h_end);
        let mi2 = if end >= m_end {
            mi + 1
        } else {
            mi
        };
        let hi2 = if end >= h_end {
            hi + 1
        } else {
            hi
        };
        if mi2 < m.len() && mi2 == mi + 1 {
            lemma_tiles_bytes_inside(m, 0, len, mi2);
        }
        if hi2 < h.len() && hi2 == hi + 1 {
            lemma_covers_inside(h, 0, len, hi2);
        }
        if mi2 == m.len() {
            assert(m.last() == m[mi]);
        }
        if hi2 == h.len() {
            assert(h.last() == h[hi]);
        }
        lemma_merge_tiles(m, h, len, end, mi2, hi2);
        let rest = merge_from(m, h, len, end, mi2, hi2);
        let all = merge_from(m, h, len, pos, mi, hi);
        if end > pos {
            let sec = (Range { start: pos as usize, end: end as usize }, m[mi].1, h[hi].kind);
            assert(all == seq![sec] + rest);
            assert forall|k: int| 0 <= k < all.len() implies #[trigger] all[k].0.start < all[k].0.end by {
                if k > 0 {
                    assert(all[k] == rest[k - 1]);
                }
            }
            assert forall|k: int| 0 <= k < all.len() - 1 implies #[trigger] all[k].0.end == all[k
                + 1].0.start by {
                assert(all[k + 1] == rest[k]);
                if k > 0 {
                    assert(all[k] == rest[k - 1]);
                }
            }
            if rest.len() > 0 {
                assert(all.last() == rest.last());
            }
        } else {
            assert(all =~= rest);
        }
    }
}

/// The color role of a section.
#[derive(Debug, Clone, Copy, PartialEq, Eq, Structural)]
pub enum ColorRole {
    /// The text color.
    Text,
    /// The text color brightened (bold).
    Brightened,
    /// The dimmed color (quotes).
    Dimmed,
    /// The link color (URLs and wiki links).
    Link,
}

/// The background of a section.
#[derive(Debug, Clone, Copy, PartialEq, Eq, Structural)]
pub enum Background {
    Transparent,
    Code,
    Search,
    ActiveSearch,
}

/// How a section is drawn, apart from the concrete font sizes and colors.
#[derive(Debug, Clone, Copy, PartialEq, Eq, Structural)]
pub struct Look {
    /// Proportional heading font of this level (1-6), 0 for the base font.
    pub heading: u8,
    /// Whether the monospace base font is used (code).
    pub monospace: bool,
    /// Whether the font size is scaled up slightly (bold outside code).
    pub bold_scaled: bool,
    pub color: ColorRole,
    pub background: Background,
    pub italics: bool,
    pub strikethrough: bool,
    /// Underlined in the link color.
    pub underline: bool,
}

/// The look of text with markdown style `s` and highlight kind `k`: the
/// markdown style first (heading font, bold, italic, strikethrough, code,
/// quote, URL, each overriding the ones before it), then the highlight on top.
pub open spec fn look_spec(s: Style, k: SpanKind) -> Look {
    let color0 = if s.bold {
        ColorRole::Brightened
    } else {
        ColorRole::Text
    };
    let color1 = if s.quote {
        ColorRole::Dimmed
    } else {
        color0
    };
    let color2 = if s.url {
        ColorRole::Link
    } else {
        color1
    };
    let bg0 = if s.code {
        Background::Code
    } else {
        Background::Transparent
    };
    Look {
        heading: if s.code {
            0
        } else {
            s.heading
        },
        monospace: s.code,
        bold_scaled: s.bold && !s.code,
        color: if k == SpanKind::WikiLink {
            ColorRole::Link
        } else {
            color2
        },
        background: match k {
            SpanKind::SearchMatch => Background::Search,
            SpanKind::ActiveSearchMatch => Background::ActiveSearch,
            _ => bg0,
        },
        italics: s.italic || s.quote,
        strikethrough: s.strikethrough,
        underline: s.url || k == SpanKind::WikiLink,
    }
}

/// Combine a markup style and a highlight kind into one look.
pub fn combined_look(s: &Style, k: SpanKind) -> (r: Look)
    ensures
        r == look_spec(*s, k),
{
    let mut color = ColorRole::Text;
    let mut background = Background::Transparent;
    let mut heading: u8 = 0;
    let mut monospace = false;
    let mut bold_scaled = false;
    let mut italics = false;
    let mut underline = false;
    if s.heading > 0 {
        heading = s.heading;
    }
    if s.bold {
        color = ColorRole::Brightened;
        bold_scaled = true;
    }
    if s.italic {
        italics = true;
    }
    if s.code {
        heading = 0;
        monospace = true;
        bold_scaled = false;
        background = Background::Code;
    }
    if s.quote {
        color = ColorRole::Dimmed;
        italics = true;
    }
    if s.url {
        color = ColorRole::Link;
        underline = true;
    }
    match k {
        SpanKind::Normal => {},
        SpanKind::SearchMatch => {
            background = Background::Search;
        },
        SpanKind::ActiveSearchMatch => {
            background = Background::ActiveSearch;
        },
        SpanKind::WikiLink => {
            color = ColorRole::Link;
            underline = true;
        },
    }
    Look {
        heading,
        monospace,
        bold_scaled,
        color,
        background,
        italics,
        strikethrough: s.strikethrough,
        underline,
    }
}

/// Each channel raised by 20, capped at 255.
pub open spec fn brighten_spec(c: Rgba) -> Rgba {
    Rgba {
        r: if c.r + 20 > 255 { 255 } else { (c.r + 20) as u8 },
        g: if c.g + 20 > 255 { 255 } else { (c.g + 20) as u8 },
        b: if c.b + 20 > 255 { 255 } else { (c.b + 20) as u8 },
        a: c.a,
    }
}

/// The brightened text color of bold text.
pub fn brighten(c: Rgba) -> (r: Rgba)
    ensures
        r == brighten_spec(c),
{
    Rgba { r: c.r.saturating_add(20), g: c.g.saturating_add(20), b: c.b.saturating_add(20), a: c.a }
}

} // verus!
