//! The decisions of the note-taking session: list navigation, selection,
//! sorting, bookmarks, find-in-note, search-field actions and tag suggestions.
use std::ops::Range;
use vstd::prelude::*;
use crate::export::ExportFormat;
use crate::highlight::{
    byte_offset_to_char_offset, char_offset_to_byte_offset, clamped_byte_offset,
    find_search_matches, ranges_to_bytes, search_matches_spec,
};
use crate::search::{all_indices, search_notes, search_spec};
use crate::note::{
    first_index, lemma_insert_contains, lemma_seq_lt_asym, lemma_seq_lt_trans, seq_lt,
    sort_by_lower, strs, ts_lt, unique_tags, Note, NoteStore, SortField,
};
use crate::storage::valid_chars;
use crate::ui::formatting::{decimal, find_urls, u64_decimal, urls_from};
use crate::text::{
    push_char, push_str, byte_offset, chars_of, contains_chars, contains_seq, lines_from, line_bounds, lowercase,
    matches_at, starts_with, str_eq, string_from_chars, string_from_range, to_lowercase, trim,
    trim_bounds, trim_string,
};

verus! {

/// Which widget has keyboard focus.
#[derive(Debug, Clone, Copy, PartialEq, Eq, Structural)]
pub enum FocusTarget {
    /// No widget has focus.
    Unfocused,
    Search,
    Editor,
    Tags,
}

/// First position of `x` in `v`.
pub open spec fn position_in(v: Seq<usize>, x: usize) -> Option<int>
    decreases v.len(),
{
    if v.len() == 0 {
        None
    } else if v.last() == x && position_in(v.drop_last(), x) is None {
        Some(v.len() - 1)
    } else {
        position_in(v.drop_last(), x)
    }
}

pub proof fn lemma_position_in(v: Seq<usize>, x: usize)
    ensures
        position_in(v, x) matches Some(p) ==> 0 <= p < v.len() && v[p] == x && forall|j: int|
            0 <= j < p ==> v[j] != x,
        position_in(v, x) is None ==> forall|j: int| 0 <= j < v.len() ==> v[j] != x,
    decreases v.len(),
{
    if v.len() > 0 {
        lemma_position_in(v.drop_last(), x);
        assert forall|j: int| 0 <= j < v.len() - 1 implies v.drop_last()[j] == v[j] by {}
    }
}

/// First position of `x` in `v`.
pub fn find_position(v: &[usize], x: usize) -> (r: Option<usize>)
    ensures
        r matches Some(p) ==> position_in(v@, x) == Some(p as int),
        r is None ==> position_in(v@, x) is None,
{
    proof {
        lemma_position_in(v@, x);
    }
    let mut i: usize = 0;
    while i < v.len()
        invariant
            i <= v@.len(),
            forall|j: int| 0 <= j < i ==> v@[j] != x,
            position_in(v@, x) matches Some(p) ==> 0 <= p < v@.len() && v@[p] == x && forall|j: int|
                0 <= j < p ==> v@[j] != x,
            position_in(v@, x) is None ==> forall|j: int| 0 <= j < v@.len() ==> v@[j] != x,
        decreases v@.len() - i,
    {
        if v[i] == x {
            proof {
                match position_in(v@, x) {
                    Some(p) => {
                        if p < i {
                        } else if p > i {
                        }
                    },
                    None => {},
                }
            }
            return Some(i);
        }
        i = i + 1;
    }
    None
}

// ─── List navigation and selection ──────────────────────────────────────────

/// The list position of the selection, or 0.
pub open spec fn current_pos(filtered: Seq<usize>, selected: Option<usize>) -> int {
    match selected {
        Some(s) => match position_in(filtered, s) {
            Some(p) => p,
            None => 0,
        },
        None => 0,
    }
}

/// Moving the selection by `offset` computes `current position + offset`
/// within `i32`.
pub open spec fn navigate_fits(filtered: Seq<usize>, selected: Option<usize>, offset: i32) -> bool {
    &&& filtered.len() <= i32::MAX
    &&& i32::MIN <= current_pos(filtered, selected) + offset <= i32::MAX
}

/// The selection after moving `offset` rows, clamped to the list; unchanged
/// for an empty list.
pub open spec fn navigate_spec(filtered: Seq<usize>, selected: Option<usize>, offset: i32) -> Option<
    usize,
> {
    if filtered.len() == 0 {
        selected
    } else {
        let p = current_pos(filtered, selected) + offset;
        let q = if p < 0 {
            0
        } else if p > filtered.len() - 1 {
            filtered.len() - 1
        } else {
            p
        };
        Some(filtered[q])
    }
}

/// Navigate the note list by offset (+1 = down, -1 = up).
pub fn navigate_list(filtered: &[usize], selected: Option<usize>, offset: i32) -> (r: Option<usize>)
    requires
        navigate_fits(filtered@, selected, offset),
    ensures
        r == navigate_spec(filtered@, selected, offset),
{
    if filtered.len() == 0 {
        return selected;
    }
    let current: usize = match selected {
        Some(sel) => match find_position(filtered, sel) {
            Some(p) => p,
            None => 0,
        },
        None => 0,
    };
    proof {
        lemma_position_in(filtered@, selected.unwrap_or(0));
    }
    let p: i32 = current as i32 + offset;
    let last: i32 = filtered.len() as i32 - 1;
    let q: i32 = if p < 0 {
        0
    } else if p > last {
        last
    } else {
        p
    };
    Some(filtered[q as usize])
}

/// The selection kept after the list changed: the same note if still listed,
/// else the first listed note.
pub open spec fn keep_selection_spec(filtered: Seq<usize>, selected: Option<usize>) -> Option<usize> {
    match selected {
        Some(s) if position_in(filtered, s) is Some => Some(s),
        _ => if filtered.len() > 0 {
            Some(filtered[0])
        } else {
            None
        },
    }
}

/// Keep selection if still in filtered results, otherwise select first.
pub fn keep_selection(filtered: &[usize], selected: Option<usize>) -> (r: Option<usize>)
    ensures
        r == keep_selection_spec(filtered@, selected),
{
    if let Some(sel) = selected {
        if find_position(filtered, sel).is_some() {
            return Some(sel);
        }
    }
    if filtered.len() > 0 {
        Some(filtered[0])
    } else {
        None
    }
}

/// Shift+click: the notes listed between the selection (or the top) and
/// position `click_pos`, both included.
pub open spec fn range_selection_spec(filtered: Seq<usize>, selected: Option<usize>, click_pos: int) -> Seq<usize> {
    let anchor = current_pos(filtered, selected);
    let start = if anchor < click_pos { anchor } else { click_pos };
    let end = if anchor < click_pos { click_pos } else { anchor };
    let stop = if end + 1 < filtered.len() { end + 1 } else { filtered.len() as int };
    if start < stop {
        filtered.subrange(start, stop)
    } else {
        Seq::empty()
    }
}

/// The notes a Shift+click at list position `click_pos` selects.
pub fn range_selection(filtered: &[usize], selected: Option<usize>, click_pos: usize) -> (r: Vec<usize>)
    ensures
        r@ == range_selection_spec(filtered@, selected, click_pos as int),
{
    let anchor: usize = match selected {
        Some(sel) => match find_position(filtered, sel) {
            Some(p) => p,
            None => 0,
        },
        None => 0,
    };
    let start: usize = if anchor < click_pos { anchor } else { click_pos };
    let end: usize = if anchor < click_pos { click_pos } else { anchor };
    let stop: usize = if end < filtered.len() && end + 1 < filtered.len() {
        end + 1
    } else {
        filtered.len()
    };
    let mut r: Vec<usize> = Vec::new();
    if start < stop {
        let mut pos: usize = start;
        while pos < stop
            invariant
                start <= pos <= stop <= filtered@.len(),
                r@ == filtered@.subrange(start as int, pos as int),
            decreases stop - pos,
        {
            r.push(filtered[pos]);
            pos = pos + 1;
            proof {
                assert(r@ =~= filtered@.subrange(start as int, pos as int));
            }
        }
    }
    r
}

// ─── Sorting ────────────────────────────────────────────────────────────────

/// Note `a` sorts strictly before note `b` by `field`, ascending.
pub open spec fn note_lt(a: Note, b: Note, field: SortField) -> bool {
    match field {
        SortField::Title => seq_lt(a.title_lower@, b.title_lower@),
        SortField::DateModified => ts_lt(a.modified, b.modified),
        SortField::DateCreated => ts_lt(a.created, b.created),
    }
}

/// Index `x` goes strictly before index `y` in the chosen order.
pub open spec fn index_before(notes: Seq<Note>, x: usize, y: usize, field: SortField, ascending: bool) -> bool {
    if ascending {
        note_lt(notes[x as int], notes[y as int], field)
    } else {
        note_lt(notes[y as int], notes[x as int], field)
    }
}

/// First position in `sorted` that `x` goes strictly before.
pub open spec fn ins_pos_index(
    notes: Seq<Note>,
    sorted: Seq<usize>,
    x: usize,
    field: SortField,
    ascending: bool,
    j: int,
) -> int
    decreases sorted.len() - j,
{
    if j < 0 || j >= sorted.len() {
        sorted.len() as int
    } else if index_before(notes, x, sorted[j], field, ascending) {
        j
    } else {
        ins_pos_index(notes, sorted, x, field, ascending, j + 1)
    }
}

pub proof fn lemma_ins_pos_index(
    notes: Seq<Note>,
    sorted: Seq<usize>,
    x: usize,
    field: SortField,
    ascending: bool,
    j: int,
)
    requires
        0 <= j <= sorted.len(),
    ensures
        j <= ins_pos_index(notes, sorted, x, field, ascending, j) <= sorted.len(),
    decreases sorted.len() - j,
{
    if j < sorted.len() && !index_before(notes, x, sorted[j], field, ascending) {
        lemma_ins_pos_index(notes, sorted, x, field, ascending, j + 1);
    }
}

/// Stable sort of note indices by `field`, ascending or descending.
pub open spec fn sort_indices_spec(notes: Seq<Note>, s: Seq<usize>, field: SortField, ascending: bool) -> Seq<usize>
    decreases s.len(),
{
    if s.len() == 0 {
        s
    } else {
        let sorted = sort_indices_spec(notes, s.drop_last(), field, ascending);
        sorted.insert(ins_pos_index(notes, sorted, s.last(), field, ascending, 0), s.last())
    }
}

/// `index_before` is asymmetric and transitive.
proof fn lemma_index_before_order(
    notes: Seq<Note>,
    x: usize,
    y: usize,
    z: usize,
    field: SortField,
    ascending: bool,
)
    ensures
        index_before(notes, x, y, field, ascending) ==> !index_before(notes, y, x, field, ascending),
        index_before(notes, x, y, field, ascending) && index_before(notes, y, z, field, ascending)
            ==> index_before(notes, x, z, field, ascending),
{
    let (a, b, c) = (notes[x as int], notes[y as int], notes[z as int]);
    match field {
        SortField::Title => {
            lemma_seq_lt_asym(a.title_lower@, b.title_lower@);
            if seq_lt(a.title_lower@, b.title_lower@) && seq_lt(b.title_lower@, c.title_lower@) {
                lemma_seq_lt_trans(a.title_lower@, b.title_lower@, c.title_lower@);
            }
            if seq_lt(c.title_lower@, b.title_lower@) && seq_lt(b.title_lower@, a.title_lower@) {
                lemma_seq_lt_trans(c.title_lower@, b.title_lower@, a.title_lower@);
            }
        },
        _ => {},
    }
}

proof fn lemma_ins_pos_index_facts(
    notes: Seq<Note>,
    sorted: Seq<usize>,
    x: usize,
    field: SortField,
    ascending: bool,
    j: int,
)
    requires
        0 <= j <= sorted.len(),
    ensures
        forall|m: int|
            j <= m < ins_pos_index(notes, sorted, x, field, ascending, j) ==> !index_before(
                notes,
                x,
                #[trigger] sorted[m],
                field,
                ascending,
            ),
        ins_pos_index(notes, sorted, x, field, ascending, j) < sorted.len() ==> index_before(
            notes,
            x,
            sorted[ins_pos_index(notes, sorted, x, field, ascending, j)],
            field,
            ascending,
        ),
    decreases sorted.len() - j,
{
    if j < sorted.len() && !index_before(notes, x, sorted[j], field, ascending) {
        lemma_ins_pos_index_facts(notes, sorted, x, field, ascending, j + 1);
    }
}

/// Sorting note indices keeps the same indices and orders them: no index
/// goes strictly before one listed earlier.
pub proof fn lemma_sort_indices_ordered(notes: Seq<Note>, s: Seq<usize>, field: SortField, ascending: bool)
    ensures
        sort_indices_spec(notes, s, field, ascending).len() == s.len(),
        forall|x: usize| #[trigger] sort_indices_spec(notes, s, field, ascending).contains(x) <==> s.contains(x),
        forall|i: int, j: int|
            0 <= i < j < sort_indices_spec(notes, s, field, ascending).len() ==> !index_before(
                notes,
                #[trigger] sort_indices_spec(notes, s, field, ascending)[j],
                #[trigger] sort_indices_spec(notes, s, field, ascending)[i],
                field,
                ascending,
            ),
    decreases s.len(),
{
    if s.len() > 0 {
        let prev = s.drop_last();
        lemma_sort_indices_ordered(notes, prev, field, ascending);
        let sorted = sort_indices_spec(notes, prev, field, ascending);
        let x = s.last();
        lemma_ins_pos_index(notes, sorted, x, field, ascending, 0);
        lemma_ins_pos_index_facts(notes, sorted, x, field, ascending, 0);
        let p = ins_pos_index(notes, sorted, x, field, ascending, 0);
        let r = sorted.insert(p, x);
        assert(sort_indices_spec(notes, s, field, ascending) == r);
        lemma_insert_contains(sorted, p, x);
        lemma_insert_contains(prev, prev.len() as int, x);
        assert(prev.insert(prev.len() as int, x) =~= s);
        assert forall|y: usize| #[trigger] r.contains(y) <==> s.contains(y) by {
            assert(r.contains(y) <==> (y == x || sorted.contains(y)));
            assert(sorted.contains(y) <==> prev.contains(y));
            assert(prev.insert(prev.len() as int, x).contains(y) <==> (y == x || prev.contains(y)));
        }
        assert forall|i: int, j: int| 0 <= i < j < r.len() implies !index_before(
            notes,
            #[trigger] r[j],
            #[trigger] r[i],
            field,
            ascending,
        ) by {
            if i < p && j < p {
                assert(r[i] == sorted[i] && r[j] == sorted[j]);
            } else if i < p && j == p {
                assert(r[i] == sorted[i]);
            } else if i < p {
                assert(r[i] == sorted[i] && r[j] == sorted[j - 1]);
            } else if i == p {
                assert(r[j] == sorted[j - 1]);
                lemma_index_before_order(notes, x, sorted[p], sorted[p], field, ascending);
                if j - 1 > p {
                    assert(!index_before(notes, sorted[j - 1], sorted[p], field, ascending));
                    lemma_index_before_order(notes, sorted[j - 1], x, sorted[p], field, ascending);
                }
            } else {
                assert(r[i] == sorted[i - 1] && r[j] == sorted[j - 1]);
            }
        }
    }
}

/// Sorting the note list orders it by the chosen field's own key: by
/// lowercase title, by modification time or by creation time, ascending or
/// descending (each comparison on that field alone).
pub proof fn lemma_sort_by_field_keys(notes: Seq<Note>, s: Seq<usize>, ascending: bool)
    ensures
        ({
            let r = sort_indices_spec(notes, s, SortField::Title, ascending);
            forall|i: int, j: int|
                0 <= i < j < r.len() ==> if ascending {
                    !seq_lt(notes[r[j] as int].title_lower@, notes[r[i] as int].title_lower@)
                } else {
                    !seq_lt(notes[r[i] as int].title_lower@, notes[r[j] as int].title_lower@)
                }
        }),
        ({
            let r = sort_indices_spec(notes, s, SortField::DateModified, ascending);
            forall|i: int, j: int|
                0 <= i < j < r.len() ==> if ascending {
                    !ts_lt(notes[r[j] as int].modified, notes[r[i] as int].modified)
                } else {
                    !ts_lt(notes[r[i] as int].modified, notes[r[j] as int].modified)
                }
        }),
        ({
            let r = sort_indices_spec(notes, s, SortField::DateCreated, ascending);
            forall|i: int, j: int|
                0 <= i < j < r.len() ==> if ascending {
                    !ts_lt(notes[r[j] as int].created, notes[r[i] as int].created)
                } else {
                    !ts_lt(notes[r[i] as int].created, notes[r[j] as int].created)
                }
        }),
{
    lemma_sort_indices_ordered(notes, s, SortField::Title, ascending);
    lemma_sort_indices_ordered(notes, s, SortField::DateModified, ascending);
    lemma_sort_indices_ordered(notes, s, SortField::DateCreated, ascending);
    let rt = sort_indices_spec(notes, s, SortField::Title, ascending);
    let rm = sort_indices_spec(notes, s, SortField::DateModified, ascending);
    let rc = sort_indices_spec(notes, s, SortField::DateCreated, ascending);
    assert forall|i: int, j: int| 0 <= i < j < rt.len() implies (if ascending {
        !seq_lt(notes[rt[j] as int].title_lower@, notes[rt[i] as int].title_lower@)
    } else {
        !seq_lt(notes[rt[i] as int].title_lower@, notes[rt[j] as int].title_lower@)
    }) by {
        assert(!index_before(notes, rt[j], rt[i], SortField::Title, ascending));
    }
    assert forall|i: int, j: int| 0 <= i < j < rm.len() implies (if ascending {
        !ts_lt(notes[rm[j] as int].modified, notes[rm[i] as int].modified)
    } else {
        !ts_lt(notes[rm[i] as int].modified, notes[rm[j] as int].modified)
    }) by {
        assert(!index_before(notes, rm[j], rm[i], SortField::DateModified, ascending));
    }
    assert forall|i: int, j: int| 0 <= i < j < rc.len() implies (if ascending {
        !ts_lt(notes[rc[j] as int].created, notes[rc[i] as int].created)
    } else {
        !ts_lt(notes[rc[i] as int].created, notes[rc[j] as int].created)
    }) by {
        assert(!index_before(notes, rc[j], rc[i], SortField::DateCreated, ascending));
    }
}

/// Whether note `a` goes strictly before note `b`.
fn note_before(a: &Note, b: &Note, field: SortField, ascending: bool) -> (r: bool)
    ensures
        r == (if ascending {
            note_lt(*a, *b, field)
        } else {
            note_lt(*b, *a, field)
        }),
{
    let (x, y) = if ascending {
        (a, b)
    } else {
        (b, a)
    };
    match field {
        SortField::Title => {
            let xt = chars_of(x.title_lower.as_str());
            let yt = chars_of(y.title_lower.as_str());
            crate::note::chars_lt(xt.as_slice(), yt.as_slice())
        },
        SortField::DateModified => x.modified.before(&y.modified),
        SortField::DateCreated => x.created.before(&y.created),
    }
}

/// Sort note indices by the current sort field and direction (stable).
pub fn apply_sort(store: &NoteStore, indices: &mut Vec<usize>, field: SortField, ascending: bool)
    requires
        forall|j: int| 0 <= j < old(indices)@.len() ==> (#[trigger] old(indices)@[j]) < store.notes_view().len(),
    ensures
        final(indices)@ == sort_indices_spec(store.notes_view(), old(indices)@, field, ascending),
{
    let ghost notes = store.notes_view();
    let ghost all = indices@;
    let mut sorted: Vec<usize> = Vec::new();
    let mut k: usize = 0;
    while k < indices.len()
        invariant
            k <= all.len(),
            indices@ == all,
            notes == store.notes_view(),
            forall|j: int| 0 <= j < all.len() ==> (#[trigger] all[j]) < notes.len(),
            sorted@ == sort_indices_spec(notes, all.take(k as int), field, ascending),
            forall|j: int| 0 <= j < sorted@.len() ==> (#[trigger] sorted@[j]) < notes.len(),
        decreases all.len() - k,
    {
        let x = indices[k];
        let ghost s0 = sorted@;
        proof {
            assert(all.take(k + 1).drop_last() =~= all.take(k as int));
            assert(all.take(k + 1).last() == x);
            lemma_ins_pos_index(notes, s0, x, field, ascending, 0);
        }
        let nx = store.get(x).unwrap();
        let mut j: usize = 0;
        while j < sorted.len()
            invariant_except_break
                ins_pos_index(notes, s0, x, field, ascending, 0) == ins_pos_index(
                    notes,
                    s0,
                    x,
                    field,
                    ascending,
                    j as int,
                ),
            invariant
                j <= sorted@.len(),
                s0 == sorted@,
                notes == store.notes_view(),
                *nx == notes[x as int],
                forall|m: int| 0 <= m < sorted@.len() ==> (#[trigger] sorted@[m]) < notes.len(),
            ensures
                ins_pos_index(notes, s0, x, field, ascending, 0) == j,
            decreases sorted@.len() - j,
        {
            let ny = store.get(sorted[j]).unwrap();
            if note_before(nx, ny, field, ascending) {
                break;
            }
            j = j + 1;
        }
        sorted.insert(j, x);
        proof {
            assert(sorted@ == sort_indices_spec(notes, all.take(k + 1), field, ascending));
            assert forall|m: int| 0 <= m < sorted@.len() implies (#[trigger] sorted@[m]) < notes.len() by {
                if m < j {
                    assert(sorted@[m] == s0[m]);
                } else if m > j {
                    assert(sorted@[m] == s0[m - 1]);
                }
            }
        }
        k = k + 1;
    }
    proof {
        assert(all.take(k as int) =~= all);
    }
    *indices = sorted;
}

/// Clicking a column header: the same field flips the direction; another
/// field is chosen ascending for the title and descending for dates.
pub fn toggle_sort(current: SortField, ascending: bool, field: SortField) -> (r: (SortField, bool))
    ensures
        current == field ==> r == (current, !ascending),
        current != field ==> r == (field, field == SortField::Title),
{
    if current == field {
        (current, !ascending)
    } else {
        (field, matches!(field, SortField::Title))
    }
}

// ─── Find in note ───────────────────────────────────────────────────────────

/// What `find_next_index` returns.
pub open spec fn next_match_spec(count: usize, current: Option<usize>, query_empty: bool) -> Option<usize> {
    if count == 0 || query_empty {
        None
    } else {
        Some(match current {
            Some(i) => ((i + 1) % (count as int)) as usize,
            None => 0usize,
        })
    }
}

/// What `find_prev_index` returns.
pub open spec fn prev_match_spec(count: usize, current: Option<usize>, query_empty: bool) -> Option<usize> {
    if count == 0 || query_empty {
        None
    } else {
        Some(match current {
            Some(i) => if i == 0 {
                (count - 1) as usize
            } else {
                (i - 1) as usize
            },
            None => (count - 1) as usize,
        })
    }
}

/// Find-previous undoes find-next and find-next undoes find-previous on any
/// active match.
pub proof fn lemma_find_next_prev_inverse(count: usize, i: usize)
    requires
        i < count,
    ensures
        prev_match_spec(count, next_match_spec(count, Some(i), false), false) == Some(i),
        next_match_spec(count, prev_match_spec(count, Some(i), false), false) == Some(i),
{
    if i + 1 < count {
        assert((i + 1) % (count as int) == i + 1) by (nonlinear_arith)
            requires
                0 <= i + 1 < count,
        ;
    } else {
        assert((i + 1) % (count as int) == 0) by (nonlinear_arith)
            requires
                i + 1 == count,
                count > 0,
        ;
    }
    if i == 0 {
        assert(((count - 1) + 1) % (count as int) == 0) by (nonlinear_arith)
            requires
                count > 0,
        ;
    } else {
        assert(((i - 1) + 1) % (count as int) == i) by (nonlinear_arith)
            requires
                0 < i < count,
        ;
    }
}

/// The next match index, wrapping around; `None` (nothing to do) without
/// matches or without a query.
pub fn find_next_index(count: usize, current: Option<usize>, query_empty: bool) -> (r: Option<usize>)
    requires
        current != Some(usize::MAX),
    ensures
        r == next_match_spec(count, current, query_empty),
{
    if count == 0 || query_empty {
        return None;
    }
    match current {
        Some(idx) => Some((idx + 1) % count),
        None => Some(0),
    }
}

/// The previous match index, wrapping around; `None` (nothing to do) without
/// matches or without a query.
pub fn find_prev_index(count: usize, current: Option<usize>, query_empty: bool) -> (r: Option<usize>)
    ensures
        r == prev_match_spec(count, current, query_empty),
{
    if count == 0 || query_empty {
        return None;
    }
    match current {
        Some(idx) => {
            if idx == 0 {
                Some(count - 1)
            } else {
                Some(idx - 1)
            }
        },
        None => Some(count - 1),
    }
}

/// The char offset of search match number `match_index` in `content`.
pub fn cursor_for_match(content: &str, query: &str, match_index: usize) -> (r: Option<usize>)
    ensures
        match_index < search_matches_spec(content@, query@).len() ==> (r matches Some(c) && byte_offset(
            content@,
            c as int,
        ) == search_matches_spec(content@, query@)[match_index as int].start && c <= content@.len()),
        match_index >= search_matches_spec(content@, query@).len() ==> r is None,
{
    let bytes = content.as_bytes();
    let _nb: usize = bytes.len();
    proof {
        crate::text::lemma_byte_offset_ends(content@);
    }
    let matches = find_search_matches(content, query);
    if match_index < matches.len() {
        let start = matches[match_index].start;
        proof {
            crate::highlight::lemma_search_match_starts(content@, query@, match_index as int);
        }
        Some(byte_offset_to_char_offset(content, start))
    } else {
        None
    }
}

// ─── Bookmarks ──────────────────────────────────────────────────────────────

/// Some note holds bookmark slot `s`.
pub open spec fn slot_used(notes: Seq<Note>, s: u8) -> bool {
    exists|i: int| 0 <= i < notes.len() && notes[i].bookmark_slot == Some(s)
}

/// The lowest slot in `1..=9` no note holds.
pub open spec fn free_slot_spec(notes: Seq<Note>, s: int) -> Option<u8>
    decreases 10 - s,
{
    if s < 1 || s > 9 {
        None
    } else if !slot_used(notes, s as u8) {
        Some(s as u8)
    } else {
        free_slot_spec(notes, s + 1)
    }
}

/// Whether some note holds bookmark slot `s`.
fn slot_in_use(store: &NoteStore, s: u8) -> (r: bool)
    ensures
        r == slot_used(store.notes_view(), s),
{
    let n = store.len();
    let mut i: usize = 0;
    while i < n
        invariant
            i <= n == store.notes_view().len(),
            forall|j: int| 0 <= j < i ==> store.notes_view()[j].bookmark_slot != Some(s),
        decreases n - i,
    {
        let note = store.get(i).unwrap();
        if note.bookmark_slot == Some(s) {
            return true;
        }
        i = i + 1;
    }
    false
}

/// The next free bookmark slot (1-9).
pub fn free_bookmark_slot(store: &NoteStore) -> (r: Option<u8>)
    ensures
        r == free_slot_spec(store.notes_view(), 1),
{
    let mut s: u8 = 1;
    while s <= 9
        invariant
            1 <= s <= 10,
            free_slot_spec(store.notes_view(), 1) == free_slot_spec(store.notes_view(), s as int),
        decreases 10 - s,
    {
        if !slot_in_use(store, s) {
            return Some(s);
        }
        s = s + 1;
    }
    None
}

/// Note `i` with its bookmark toggled: a bookmarked note loses its mark and
/// slot; another one is marked and given the lowest free slot.
pub open spec fn toggled_note(notes: Seq<Note>, i: int) -> Note {
    let n = notes[i];
    if n.bookmarked {
        Note { bookmarked: false, bookmark_slot: None, ..n }
    } else {
        Note { bookmarked: true, bookmark_slot: free_slot_spec(notes, 1), ..n }
    }
}

proof fn lemma_free_slot(notes: Seq<Note>, s: int)
    requires
        1 <= s <= 10,
    ensures
        free_slot_spec(notes, s) matches Some(f) ==> s <= f <= 9 && !slot_used(notes, f) && forall|t: u8|
            s <= t < f ==> slot_used(notes, t),
        free_slot_spec(notes, s) is None ==> forall|t: u8| s <= t <= 9 ==> slot_used(notes, t),
    decreases 10 - s,
{
    if s <= 9 && slot_used(notes, s as u8) {
        lemma_free_slot(notes, s + 1);
        assert forall|t: u8| s <= t < s + 1 implies slot_used(notes, t) by {
            assert(t == s as u8);
        }
    }
}

/// Bookmarking a note and toggling again gives the notes back. The new
/// bookmark's slot lies in 1..=9, no other note holds it and every lower slot
/// is taken; it gets no slot only when all nine are taken.
pub proof fn lemma_bookmark_toggle(notes: Seq<Note>, i: int)
    requires
        0 <= i < notes.len(),
        !notes[i].bookmarked,
        notes[i].bookmark_slot is None,
    ensures
        ({
            let once = notes.update(i, toggled_note(notes, i));
            &&& once.update(i, toggled_note(once, i)) == notes
            &&& once[i].bookmarked
            &&& once[i].bookmark_slot matches Some(f) ==> {
                &&& 1 <= f <= 9
                &&& forall|j: int| 0 <= j < notes.len() ==> notes[j].bookmark_slot != Some(f)
                &&& forall|t: u8| 1 <= t < f ==> slot_used(notes, t)
            }
            &&& once[i].bookmark_slot is None ==> forall|t: u8| 1 <= t <= 9 ==> slot_used(notes, t)
        }),
{
    lemma_free_slot(notes, 1);
    let once = notes.update(i, toggled_note(notes, i));
    assert(toggled_note(once, i) == notes[i]);
    assert(once.update(i, toggled_note(once, i)) =~= notes);
}

/// Toggle bookmark on the selected note: a bookmarked note loses its mark and
/// slot; another one is marked and given the lowest free slot (none when all
/// nine are taken).
pub fn toggle_bookmark(store: &mut NoteStore, selected: Option<usize>)
    ensures
        match selected {
            Some(i) if i < old(store).notes_view().len() => {
                &&& final(store).notes_view() == old(store).notes_view().update(
                    i as int,
                    toggled_note(old(store).notes_view(), i as int),
                )
                &&& forall|k: Seq<char>| #[trigger]
                    final(store).title_lookup(k) == old(store).title_lookup(k)
                &&& forall|k: Seq<char>| #[trigger]
                    final(store).tag_lookup(k) == old(store).tag_lookup(k)
            },
            _ => *final(store) == *old(store),
        },
{
    if let Some(idx) = selected {
        if idx < store.len() {
            let slot = free_bookmark_slot(store);
            let note = store.get_mut(idx).unwrap();
            if note.bookmarked {
                note.bookmarked = false;
                note.bookmark_slot = None;
            } else {
                note.bookmarked = true;
                note.bookmark_slot = slot;
            }
        }
    }
}

/// The first note holding bookmark slot `slot`.
pub fn bookmark_position(store: &NoteStore, slot: u8) -> (r: Option<usize>)
    ensures
        r matches Some(i) ==> i < store.notes_view().len() && store.notes_view()[i as int].bookmark_slot
            == Some(slot) && forall|j: int| 0 <= j < i ==> store.notes_view()[j].bookmark_slot != Some(slot),
        r is None ==> !slot_used(store.notes_view(), slot),
{
    let n = store.len();
    let mut i: usize = 0;
    while i < n
        invariant
            i <= n == store.notes_view().len(),
            forall|j: int| 0 <= j < i ==> store.notes_view()[j].bookmark_slot != Some(slot),
        decreases n - i,
    {
        let note = store.get(i).unwrap();
        if note.bookmark_slot == Some(slot) {
            return Some(i);
        }
        i = i + 1;
    }
    None
}

// ─── Search field ───────────────────────────────────────────────────────────

/// The first listed note whose lowercase title starts with the lowercase query.
pub open spec fn autocomplete_spec(notes: Seq<Note>, filtered: Seq<usize>, q: Seq<char>) -> Option<usize>
    decreases filtered.len(),
{
    if filtered.len() == 0 {
        None
    } else {
        match autocomplete_spec(notes, filtered.drop_last(), q) {
            Some(i) => Some(i),
            None => {
                let i = filtered.last();
                if i < notes.len() && starts_with(notes[i as int].title_lower@, q) {
                    Some(i)
                } else {
                    None
                }
            },
        }
    }
}

/// Tab auto-complete: the first listed note whose title starts with the query
/// (case-insensitive); `None` for an empty query.
pub fn tab_autocomplete_match(store: &NoteStore, filtered: &[usize], query: &str) -> (r: Option<usize>)
    ensures
        lowercase(query@).len() == 0 ==> r is None,
        lowercase(query@).len() > 0 ==> r == autocomplete_spec(store.notes_view(), filtered@, lowercase(query@)),
{
    let ql = to_lowercase(query);
    if ql.as_str().is_empty() {
        return None;
    }
    let qv = chars_of(ql.as_str());
    let ghost notes = store.notes_view();
    let mut k: usize = 0;
    while k < filtered.len()
        invariant
            k <= filtered@.len(),
            notes == store.notes_view(),
            qv@ == lowercase(query@),
            qv@.len() > 0,
            autocomplete_spec(notes, filtered@.take(k as int), qv@) is None,
        decreases filtered@.len() - k,
    {
        let idx = filtered[k];
        proof {
            assert(filtered@.take(k + 1).drop_last() =~= filtered@.take(k as int));
            assert(filtered@.take(k + 1).last() == idx);
        }
        match store.get(idx) {
            Some(note) => {
                let tv = chars_of(note.title_lower.as_str());
                if matches_at(tv.as_slice(), qv.as_slice(), 0) {
                    proof {
                        lemma_autocomplete_prefix(notes, filtered@, qv@, k + 1);
                    }
                    return Some(idx);
                }
            },
            None => {},
        }
        k = k + 1;
    }
    proof {
        assert(filtered@.take(k as int) =~= filtered@);
    }
    None
}

/// A match found in a prefix of the list is the answer for the whole list.
proof fn lemma_autocomplete_prefix(notes: Seq<Note>, filtered: Seq<usize>, q: Seq<char>, k: int)
    requires
        0 <= k <= filtered.len(),
        autocomplete_spec(notes, filtered.take(k), q) is Some,
    ensures
        autocomplete_spec(notes, filtered, q) == autocomplete_spec(notes, filtered.take(k), q),
    decreases filtered.len() - k,
{
    if k < filtered.len() {
        assert(filtered.take(k + 1).drop_last() =~= filtered.take(k));
        lemma_autocomplete_prefix(notes, filtered, q, k + 1);
    } else {
        assert(filtered.take(k) =~= filtered);
    }
}

/// What Enter in the search field does.
#[derive(Debug, PartialEq, Eq)]
pub enum SearchEnterAction {
    /// Nothing (empty query).
    Nothing,
    /// Select the note with this store index.
    Select(usize),
    /// Create a note with this title.
    Create(String),
}

/// Handle Enter in search field: select the note whose title is the query
/// (case-insensitive), else the top result when its title starts with the
/// query, else create a note titled by the query.
pub fn search_enter_action(store: &NoteStore, filtered: &[usize], query: &str) -> (r: SearchEnterAction)
    ensures
        ({
            let q = trim(query@);
            if q.len() == 0 {
                r == SearchEnterAction::Nothing
            } else if store.title_lookup(lowercase(q)) is Some {
                r == SearchEnterAction::Select(store.title_lookup(lowercase(q)).unwrap())
            } else if filtered@.len() > 0 && filtered@[0] < store.notes_view().len() && starts_with(
                store.notes_view()[filtered@[0] as int].title_lower@,
                lowercase(q),
            ) {
                r == SearchEnterAction::Select(filtered@[0])
            } else if filtered@.len() > 0 && filtered@[0] >= store.notes_view().len() && lowercase(q).len() == 0 {
                r == SearchEnterAction::Select(filtered@[0])
            } else {
                r matches SearchEnterAction::Create(t) && t@ == q
            }
        }),
{
    let query_t = trim_string(query);
    if query_t.as_str().is_empty() {
        return SearchEnterAction::Nothing;
    }
    // If there's an exact title match, select it
    if let Some(idx) = store.find_by_title(query_t.as_str()) {
        return SearchEnterAction::Select(idx);
    }
    // If there are results, select the top match
    if filtered.len() > 0 {
        let first = filtered[0];
        let top_title: Vec<char> = match store.get(first) {
            Some(n) => chars_of(n.title_lower.as_str()),
            None => Vec::new(),
        };
        let ql = to_lowercase(query_t.as_str());
        let qv = chars_of(ql.as_str());
        if matches_at(top_title.as_slice(), qv.as_slice(), 0) {
            proof {
                if first >= store.notes_view().len() {
                    assert(qv@.len() == 0);
                }
            }
            return SearchEnterAction::Select(first);
        }
        proof {
            if qv@.len() == 0 {
                assert(top_title@.subrange(0, 0) =~= qv@);
            }
        }
    }
    // Create new note with query as title
    SearchEnterAction::Create(query_t)
}

/// Following a wiki link to `target`: nothing for a blank target; select the
/// note of that title (case-insensitive); else create a note titled by the
/// trimmed target.
pub fn link_action(store: &NoteStore, target: &str) -> (r: SearchEnterAction)
    ensures
        ({
            let t = trim(target@);
            if t.len() == 0 {
                r == SearchEnterAction::Nothing
            } else if store.title_lookup(lowercase(t)) is Some {
                r == SearchEnterAction::Select(store.title_lookup(lowercase(t)).unwrap())
            } else {
                r matches SearchEnterAction::Create(c) && c@ == t
            }
        }),
{
    let t = trim_string(target);
    if t.as_str().is_empty() {
        return SearchEnterAction::Nothing;
    }
    match store.find_by_title(t.as_str()) {
        Some(idx) => SearchEnterAction::Select(idx),
        None => SearchEnterAction::Create(t),
    }
}

/// The title a rename produces: the trimmed buffer, or an error when empty.
pub fn rename_title(buffer: &str) -> (r: Result<String, String>)
    ensures
        trim(buffer@).len() > 0 ==> (r matches Ok(t) && t@ == trim(buffer@)),
        trim(buffer@).len() == 0 ==> (r matches Err(e) && e@ == "Title cannot be empty"@),
{
    let t = trim_string(buffer);
    if t.as_str().is_empty() {
        Err(crate::text::to_string("Title cannot be empty"))
    } else {
        Ok(t)
    }
}

// ─── Tag suggestions ────────────────────────────────────────────────────────

/// The tags of `all` whose lowercase form holds `input_lower` and is not among
/// `existing`, at most `limit` of them, in order.
pub open spec fn suggestions_spec(
    all: Seq<Seq<char>>,
    existing: Seq<Seq<char>>,
    input_lower: Seq<char>,
    limit: nat,
) -> Seq<Seq<char>>
    decreases all.len(),
{
    if all.len() == 0 || limit == 0 {
        Seq::empty()
    } else {
        let t = all[0];
        let tl = lowercase(t);
        if contains_seq(tl, input_lower) && first_index(existing, tl, 0) is None {
            seq![t] + suggestions_spec(all.drop_first(), existing, input_lower, (limit - 1) as nat)
        } else {
            suggestions_spec(all.drop_first(), existing, input_lower, limit)
        }
    }
}

/// The lowercase tags of the selected note, none without a selection.
pub open spec fn existing_tags(notes: Seq<Note>, selected: Option<usize>) -> Seq<Seq<char>> {
    match selected {
        Some(i) if i < notes.len() => strs(notes[i as int].tags_lower@),
        _ => Seq::empty(),
    }
}

/// Update tag autocomplete suggestions based on current tag input: up to 8
/// known tags holding the input (case-insensitive) that the selected note
/// lacks; none for blank input.
pub fn tag_suggestions(store: &NoteStore, selected: Option<usize>, tag_input: &str) -> (r: Vec<String>)
    ensures
        trim(tag_input@).len() == 0 ==> r@.len() == 0,
        trim(tag_input@).len() > 0 ==> strs(r@) == suggestions_spec(
            sort_by_lower(unique_tags(store.notes_view(), store.notes_view().len() as int)),
            existing_tags(store.notes_view(), selected),
            lowercase(trim(tag_input@)),
            8,
        ),
{
    let input_t = trim_string(tag_input);
    if input_t.as_str().is_empty() {
        return Vec::new();
    }
    let input_lower = to_lowercase(input_t.as_str());
    let iv = chars_of(input_lower.as_str());
    let all_tags = store.all_tags();
    let empty: Vec<String> = Vec::new();
    let existing: &Vec<String> = match selected {
        Some(i) => match store.get(i) {
            Some(n) => &n.tags_lower,
            None => &empty,
        },
        None => &empty,
    };
    proof {
        assert(strs(empty@) =~= Seq::<Seq<char>>::empty());
    }
    let ghost all = strs(all_tags@);
    let ghost ex = strs(existing@);
    let mut out: Vec<String> = Vec::new();
    let mut k: usize = 0;
    let mut left: usize = 8;
    proof {
        assert(all.skip(0) =~= all);
        assert(strs(out@) =~= Seq::<Seq<char>>::empty());
        assert(Seq::<Seq<char>>::empty() + suggestions_spec(all, ex, iv@, 8) =~= suggestions_spec(all, ex, iv@, 8));
    }
    while k < all_tags.len() && left > 0
        invariant
            k <= all_tags@.len(),
            all == strs(all_tags@),
            ex == strs(existing@),
            iv@ == input_lower@,
            left <= 8,
            strs(out@) + suggestions_spec(all.skip(k as int), ex, iv@, left as nat) == suggestions_spec(
                all,
                ex,
                iv@,
                8,
            ),
        decreases all_tags@.len() - k,
    {
        let tl = to_lowercase(all_tags[k].as_str());
        let tv = chars_of(tl.as_str());
        proof {
            assert(all.skip(k as int)[0] == all_tags@[k as int]@);
            assert(all.skip(k as int).drop_first() =~= all.skip(k + 1));
        }
        let ghost before = out@;
        if contains_chars(tv.as_slice(), iv.as_slice()) && crate::note::position_of(existing, &tl).is_none() {
            out.push(all_tags[k].clone());
            left = left - 1;
            proof {
                assert(strs(out@) =~= strs(before).push(all_tags@[k as int]@));
                assert(strs(out@) + suggestions_spec(all.skip(k + 1), ex, iv@, left as nat) =~= strs(before)
                    + suggestions_spec(all.skip(k as int), ex, iv@, (left + 1) as nat));
            }
        }
        k = k + 1;
    }
    proof {
        if k < all_tags@.len() {
            assert(left == 0);
        } else {
            assert(all.skip(k as int) =~= Seq::<Seq<char>>::empty());
        }
        assert(strs(out@) + Seq::<Seq<char>>::empty() =~= strs(out@));
    }
    out
}

// ─── Listing refresh ────────────────────────────────────────────────────────

/// What the note list shows for a query: the search results, and, for an
/// empty query, all notes in the chosen sort order.
pub open spec fn listing_spec(notes: Seq<Note>, query: Seq<char>, field: SortField, ascending: bool) -> Seq<usize> {
    if query.len() == 0 {
        sort_indices_spec(notes, all_indices(notes.len() as int), field, ascending)
    } else {
        search_spec(notes, query)
    }
}

/// Re-run the search for the note list; with no active query, apply the
/// user-chosen sort (a search keeps its relevance order).
pub fn refresh_listing(store: &NoteStore, query: &str, field: SortField, ascending: bool) -> (r: Vec<usize>)
    ensures
        r@ == listing_spec(store.notes_view(), query@, field, ascending),
{
    let mut filtered = search_notes(store, query);
    if query.is_empty() {
        proof {
            assert forall|j: int| 0 <= j < filtered@.len() implies (#[trigger] filtered@[j]) < store.notes_view().len() by {
                assert(filtered@[j] == all_indices(store.notes_view().len() as int)[j]);
            }
        }
        apply_sort(store, &mut filtered, field, ascending);
    }
    filtered
}

// ─── File watcher events ────────────────────────────────────────────────────

/// Index of the first note stored at `path`.
pub fn note_index_by_path(store: &NoteStore, path: &str) -> (r: Option<usize>)
    ensures
        r matches Some(i) ==> i < store.notes_view().len() && store.notes_view()[i as int].path@
            == path@ && forall|j: int| 0 <= j < i ==> store.notes_view()[j].path@ != path@,
        r is None ==> forall|j: int| 0 <= j < store.notes_view().len() ==> store.notes_view()[j].path@ != path@,
{
    let n = store.len();
    let mut i: usize = 0;
    while i < n
        invariant
            i <= n == store.notes_view().len(),
            forall|j: int| 0 <= j < i ==> store.notes_view()[j].path@ != path@,
        decreases n - i,
    {
        let note = store.get(i).unwrap();
        if str_eq(note.path.as_str(), path) {
            return Some(i);
        }
        i = i + 1;
    }
    None
}

/// An external edit of note `idx`, reloaded from its file as `loaded`: taken
/// over (content, its lowercase form and the modification time) unless the
/// note has unsaved changes. Returns whether it was taken over.
pub fn apply_external_modify(store: &mut NoteStore, idx: usize, loaded: Note) -> (r: bool)
    requires
        idx < old(store).notes_view().len(),
    ensures
        r == !old(store).notes_view()[idx as int].dirty,
        !r ==> *final(store) == *old(store),
        r ==> final(store).notes_view() == old(store).notes_view().update(
            idx as int,
            Note {
                content: loaded.content,
                content_lower: loaded.content_lower,
                modified: loaded.modified,
                ..old(store).notes_view()[idx as int]
            },
        ),
        forall|k: Seq<char>| #[trigger] final(store).title_lookup(k) == old(store).title_lookup(k),
        forall|k: Seq<char>| #[trigger] final(store).tag_lookup(k) == old(store).tag_lookup(k),
{
    if store.get(idx).unwrap().dirty {
        return false;
    }
    let note = store.get_mut(idx).unwrap();
    note.content = loaded.content;
    note.content_lower = loaded.content_lower;
    note.modified = loaded.modified;
    true
}

/// The selection after note `removed` left the store: cleared when it was
/// that note, kept otherwise.
pub fn selection_after_removal(selected: Option<usize>, removed: usize) -> (r: Option<usize>)
    ensures
        r == (if selected == Some(removed) {
            None
        } else {
            selected
        }),
{
    if selected == Some(removed) {
        None
    } else {
        selected
    }
}

/// First position in `sorted` holding a smaller value than `x`.
pub open spec fn ins_pos_desc(sorted: Seq<usize>, x: usize, j: int) -> int
    decreases sorted.len() - j,
{
    if j < 0 || j >= sorted.len() {
        sorted.len() as int
    } else if sorted[j] < x {
        j
    } else {
        ins_pos_desc(sorted, x, j + 1)
    }
}

pub proof fn lemma_ins_pos_desc(sorted: Seq<usize>, x: usize, j: int)
    requires
        0 <= j <= sorted.len(),
    ensures
        j <= ins_pos_desc(sorted, x, j) <= sorted.len(),
        forall|m: int| j <= m < ins_pos_desc(sorted, x, j) ==> sorted[m] >= x,
        ins_pos_desc(sorted, x, j) < sorted.len() ==> sorted[ins_pos_desc(sorted, x, j)] < x,
    decreases sorted.len() - j,
{
    if j < sorted.len() && sorted[j] >= x {
        lemma_ins_pos_desc(sorted, x, j + 1);
    }
}

/// The values sorted from highest to lowest.
pub open spec fn sort_desc(s: Seq<usize>) -> Seq<usize>
    decreases s.len(),
{
    if s.len() == 0 {
        s
    } else {
        let sorted = sort_desc(s.drop_last());
        sorted.insert(ins_pos_desc(sorted, s.last(), 0), s.last())
    }
}

/// Removing notes highest index first keeps the other indices valid: the
/// order is from highest to lowest.
pub proof fn lemma_sort_desc_ordered(s: Seq<usize>)
    ensures
        sort_desc(s).len() == s.len(),
        forall|i: int, j: int| 0 <= i < j < sort_desc(s).len() ==> (#[trigger] sort_desc(s)[i]) >= (
        #[trigger] sort_desc(s)[j]),
    decreases s.len(),
{
    if s.len() > 0 {
        lemma_sort_desc_ordered(s.drop_last());
        let sorted = sort_desc(s.drop_last());
        let x = s.last();
        lemma_ins_pos_desc(sorted, x, 0);
        let p = ins_pos_desc(sorted, x, 0);
        let r = sorted.insert(p, x);
        assert forall|i: int, j: int| 0 <= i < j < r.len() implies (#[trigger] r[i]) >= (#[trigger] r[j]) by {
            if i < p && j < p {
                assert(r[i] == sorted[i] && r[j] == sorted[j]);
            } else if i < p && j == p {
                assert(r[i] == sorted[i]);
            } else if i < p {
                assert(r[i] == sorted[i] && r[j] == sorted[j - 1]);
            } else if i == p {
                assert(r[j] == sorted[j - 1]);
                if j - 1 > p {
                    assert(sorted[p] >= sorted[j - 1]);
                }
            } else {
                assert(r[i] == sorted[i - 1] && r[j] == sorted[j - 1]);
            }
        }
    }
}

/// The order in which to delete the selected notes: highest index first.
pub fn deletion_order(indices: &[usize]) -> (r: Vec<usize>)
    ensures
        r@ == sort_desc(indices@),
{
    let mut sorted: Vec<usize> = Vec::new();
    let mut k: usize = 0;
    while k < indices.len()
        invariant
            k <= indices@.len(),
            sorted@ == sort_desc(indices@.take(k as int)),
        decreases indices@.len() - k,
    {
        let x = indices[k];
        let ghost s0 = sorted@;
        proof {
            assert(indices@.take(k + 1).drop_last() =~= indices@.take(k as int));
            assert(indices@.take(k + 1).last() == x);
            lemma_ins_pos_desc(s0, x, 0);
        }
        let mut j: usize = 0;
        while j < sorted.len() && !(sorted[j] < x)
            invariant
                j <= sorted@.len(),
                s0 == sorted@,
                ins_pos_desc(s0, x, 0) == ins_pos_desc(s0, x, j as int),
            decreases sorted@.len() - j,
        {
            j = j + 1;
        }
        sorted.insert(j, x);
        k = k + 1;
    }
    proof {
        assert(indices@.take(k as int) =~= indices@);
    }
    sorted
}

// ─── Wiki-link completion ───────────────────────────────────────────────────

/// Titles of the notes whose lowercase title holds `partial_lower` and that
/// are not titled `current`, at most `limit` of them, in store order.
pub open spec fn link_suggestions_spec(
    notes: Seq<Note>,
    partial_lower: Seq<char>,
    current: Seq<char>,
    limit: nat,
) -> Seq<Seq<char>>
    decreases notes.len(),
{
    if notes.len() == 0 || limit == 0 {
        Seq::empty()
    } else {
        let n = notes[0];
        if contains_seq(n.title_lower@, partial_lower) && n.title@ != current {
            seq![n.title@] + link_suggestions_spec(notes.drop_first(), partial_lower, current, (limit - 1) as nat)
        } else {
            link_suggestions_spec(notes.drop_first(), partial_lower, current, limit)
        }
    }
}

/// Note titles offered to complete a wiki link whose typed part is
/// `partial`: up to 8 titles holding it (case-insensitive), other than the
/// current note's title.
pub fn link_suggestions(store: &NoteStore, partial: &str, current_title: &str) -> (r: Vec<String>)
    ensures
        strs(r@) == link_suggestions_spec(store.notes_view(), lowercase(partial@), current_title@, 8),
{
    let pl = to_lowercase(partial);
    let pv = chars_of(pl.as_str());
    let ghost notes = store.notes_view();
    let n = store.len();
    let mut out: Vec<String> = Vec::new();
    let mut k: usize = 0;
    let mut left: usize = 8;
    proof {
        assert(notes.skip(0) =~= notes);
        assert(strs(out@) =~= Seq::<Seq<char>>::empty());
        assert(Seq::<Seq<char>>::empty() + link_suggestions_spec(notes, pv@, current_title@, 8) =~= link_suggestions_spec(notes, pv@, current_title@, 8));
    }
    while k < n && left > 0
        invariant
            k <= n == notes.len(),
            notes == store.notes_view(),
            pv@ == lowercase(partial@),
            left <= 8,
            strs(out@) + link_suggestions_spec(notes.skip(k as int), pv@, current_title@, left as nat)
                == link_suggestions_spec(notes, pv@, current_title@, 8),
        decreases n - k,
    {
        let note = store.get(k).unwrap();
        proof {
            assert(notes.skip(k as int)[0] == notes[k as int]);
            assert(notes.skip(k as int).drop_first() =~= notes.skip(k + 1));
        }
        let tv = chars_of(note.title_lower.as_str());
        let ghost before = out@;
        if contains_chars(tv.as_slice(), pv.as_slice()) && !str_eq(note.title.as_str(), current_title) {
            out.push(note.title.clone());
            left = left - 1;
            proof {
                assert(strs(out@) =~= strs(before).push(notes[k as int].title@));
                assert(strs(out@) + link_suggestions_spec(notes.skip(k + 1), pv@, current_title@, left as nat)
                    =~= strs(before) + link_suggestions_spec(notes.skip(k as int), pv@, current_title@, (left + 1) as nat));
            }
        }
        k = k + 1;
    }
    proof {
        if k < n {
            assert(left == 0);
        } else {
            assert(notes.skip(k as int) =~= Seq::<Note>::empty());
        }
        assert(strs(out@) + Seq::<Seq<char>>::empty() =~= strs(out@));
    }
    out
}

/// `content` with chars `start..end` replaced by `replacement` (an `end`
/// past the text means up to its end), and the char offset just after the
/// replacement.
pub fn splice_completion(content: &str, start: usize, end: usize, replacement: &str) -> (r: (String, usize))
    requires
        start <= content@.len(),
    ensures
        r.0@ == content@.take(start as int) + replacement@ + (if end <= content@.len() {
            content@.skip(end as int)
        } else {
            Seq::empty()
        }),
        r.1 == start + replacement@.len(),
{
    let v = chars_of(content);
    let rv = chars_of(replacement);
    let mut out: Vec<char> = Vec::new();
    let mut i: usize = 0;
    while i < start
        invariant
            i <= start <= v@.len(),
            out@ == v@.take(i as int),
        decreases start - i,
    {
        out.push(v[i]);
        i = i + 1;
        proof {
            assert(out@ =~= v@.take(i as int));
        }
    }
    let mut j: usize = 0;
    let ghost mid = out@;
    while j < rv.len()
        invariant
            j <= rv@.len(),
            out@ == mid + rv@.take(j as int),
        decreases rv@.len() - j,
    {
        out.push(rv[j]);
        j = j + 1;
        proof {
            assert(out@ =~= mid + rv@.take(j as int));
        }
    }
    proof {
        assert(rv@.take(j as int) =~= rv@);
    }
    let ghost mid2 = out@;
    let after: usize = out.len();
    if end <= v.len() {
        let mut k: usize = end;
        while k < v.len()
            invariant
                end <= k <= v@.len(),
                out@ == mid2 + v@.subrange(end as int, k as int),
            decreases v@.len() - k,
        {
            out.push(v[k]);
            k = k + 1;
            proof {
                assert(out@ =~= mid2 + v@.subrange(end as int, k as int));
            }
        }
        proof {
            assert(v@.subrange(end as int, v@.len() as int) =~= v@.skip(end as int));
        }
    } else {
        proof {
            assert(out@ =~= mid2 + Seq::<char>::empty());
        }
    }
    (string_from_chars(out.as_slice()), after)
}

// ─── Paste, print and export helpers ────────────────────────────────────────

/// The parts joined with newlines.
pub open spec fn join_lines(parts: Seq<Seq<char>>) -> Seq<char>
    decreases parts.len(),
{
    if parts.len() == 0 {
        Seq::empty()
    } else if parts.len() == 1 {
        parts[0]
    } else {
        join_lines(parts.drop_last()) + seq!['\n'] + parts.last()
    }
}

/// Paste clipboard text as a note: the first line (at most 50 chars) is the
/// title and the other lines the content; `None` for blank text.
pub fn split_paste(text: &str) -> (r: Option<(String, String)>)
    ensures
        trim(text@).len() == 0 ==> r is None,
        trim(text@).len() > 0 ==> (r matches Some(p) && {
            let ls = lines_from(text@, 0);
            &&& ls.len() > 0
            &&& p.0@ == ls[0].take(if ls[0].len() < 50 { ls[0].len() as int } else { 50 })
            &&& p.1@ == join_lines(ls.skip(1))
        }),
{
    let v = chars_of(text);
    let (a, b) = trim_bounds(v.as_slice(), 0, v.len());
    proof {
        assert(v@.subrange(0, v@.len() as int) =~= v@);
    }
    if a == b {
        return None;
    }
    let bounds = line_bounds(v.as_slice());
    let ghost ls = lines_from(v@, 0);
    proof {
        crate::text::lemma_lines_nonempty(v@);
        assert(bounds@.len() > 0);
    }
    let (s0, e0) = bounds[0];
    let t_end: usize = if e0 - s0 < 50 { e0 } else { s0 + 50 };
    let title = string_from_range(v.as_slice(), s0, t_end);
    proof {
        assert(v@.subrange(s0 as int, t_end as int) =~= ls[0].take(t_end - s0));
    }
    let mut content: Vec<char> = Vec::new();
    let mut k: usize = 1;
    while k < bounds.len()
        invariant
            1 <= k <= bounds@.len(),
            bounds@.len() == ls.len(),
            ls == lines_from(v@, 0),
            forall|j: int|
                0 <= j < bounds@.len() ==> (#[trigger] bounds@[j]).0 <= bounds@[j].1 <= v@.len()
                    && v@.subrange(bounds@[j].0 as int, bounds@[j].1 as int) == ls[j],
            content@ == join_lines(ls.subrange(1, k as int)),
        decreases bounds@.len() - k,
    {
        let (s, e) = bounds[k];
        let ghost before = content@;
        if k > 1 {
            content.push('\n');
        }
        let mut i: usize = s;
        let ghost mid = content@;
        while i < e
            invariant
                s <= i <= e <= v@.len(),
                content@ == mid + v@.subrange(s as int, i as int),
            decreases e - i,
        {
            content.push(v[i]);
            i = i + 1;
            proof {
                assert(content@ =~= mid + v@.subrange(s as int, i as int));
            }
        }
        proof {
            let parts = ls.subrange(1, k + 1);
            assert(parts.drop_last() =~= ls.subrange(1, k as int));
            assert(parts.last() == ls[k as int]);
            assert(bounds@[k as int] == (s, e));
            if k == 1 {
                assert(content@ =~= ls[1]);
            } else {
                assert(content@ =~= join_lines(ls.subrange(1, k as int)) + seq!['\n'] + ls[k as int]);
            }
        }
        k = k + 1;
    }
    proof {
        assert(ls.subrange(1, k as int) =~= ls.skip(1));
    }
    Some((title, string_from_chars(content.as_slice())))
}

// ─── Links in the editor ────────────────────────────────────────────────────

/// Byte `b` lies in `r`.
pub open spec fn range_holds(r: Range<usize>, b: int) -> bool {
    r.start <= b < r.end
}

/// The byte range of the first URL in `text` that holds the char at
/// `click_char` (a click past the end counts as the end of the text).
pub fn url_at_char(text: &str, click_char: usize) -> (r: Option<Range<usize>>)
    ensures
        ({
            let urls = ranges_to_bytes(text@, urls_from(text@, 0));
            let b = clamped_byte_offset(text@, click_char as int);
            &&& r matches Some(rg) ==> exists|k: int|
                0 <= k < urls.len() && urls[k] == rg && range_holds(rg, b) && forall|j: int|
                    0 <= j < k ==> !range_holds(#[trigger] urls[j], b)
            &&& r is None ==> forall|k: int| 0 <= k < urls.len() ==> !range_holds(#[trigger] urls[k], b)
        }),
{
    let b = char_offset_to_byte_offset(text, click_char);
    let urls = find_urls(text);
    let mut k: usize = 0;
    while k < urls.len()
        invariant
            k <= urls@.len(),
            urls@ == ranges_to_bytes(text@, urls_from(text@, 0)),
            b == clamped_byte_offset(text@, click_char as int),
            forall|j: int| 0 <= j < k ==> !range_holds(#[trigger] urls@[j], b as int),
        decreases urls@.len() - k,
    {
        let start = urls[k].start;
        let end = urls[k].end;
        if start <= b && b < end {
            return Some(Range { start, end });
        }
        k = k + 1;
    }
    None
}

// ─── Note list rows ─────────────────────────────────────────────────────────

/// Strings joined by ", ".
pub open spec fn join_comma(ts: Seq<Seq<char>>) -> Seq<char>
    decreases ts.len(),
{
    if ts.len() == 0 {
        Seq::empty()
    } else if ts.len() == 1 {
        ts[0]
    } else {
        join_comma(ts.drop_last()) + seq![',', ' '] + ts.last()
    }
}

/// The title shown in the note list: marked with "● " while unsaved.
pub open spec fn list_title_spec(n: Note) -> Seq<char> {
    if n.dirty {
        seq!['●', ' '] + n.title@
    } else {
        n.title@
    }
}

/// The bookmark mark of a row: "[slot] ", "* " for a bookmark without a slot,
/// nothing without a bookmark.
pub open spec fn bookmark_mark(n: Note) -> Seq<char> {
    if n.bookmarked {
        match n.bookmark_slot {
            Some(s) => seq!['['] + decimal(s as nat) + seq![']', ' '],
            None => seq!['*', ' '],
        }
    } else {
        Seq::empty()
    }
}

/// The label of a note's row: its bookmark mark, its list title and, with
/// `show_tags`, its tags in brackets.
pub open spec fn row_label_spec(n: Note, show_tags: bool) -> Seq<char> {
    let tags = if show_tags && n.tags@.len() > 0 {
        seq![' ', '['] + join_comma(strs(n.tags@)) + seq![']']
    } else {
        Seq::empty()
    };
    bookmark_mark(n) + list_title_spec(n) + tags
}

/// The title shown in the note list.
pub fn list_title(n: &Note) -> (r: String)
    ensures
        r@ == list_title_spec(*n),
{
    let mut r = String::new();
    if n.dirty {
        push_char(&mut r, '●');
        push_char(&mut r, ' ');
    }
    push_str(&mut r, n.title.as_str());
    proof {
        if n.dirty {
            assert(r@ =~= list_title_spec(*n));
        } else {
            assert(r@ =~= list_title_spec(*n));
        }
    }
    r
}

/// The label of a note's row in the list.
pub fn row_label(n: &Note, show_tags: bool) -> (r: String)
    ensures
        r@ == row_label_spec(*n, show_tags),
{
    let mut r = String::new();
    if n.bookmarked {
        match n.bookmark_slot {
            Some(s) => {
                push_char(&mut r, '[');
                let digits = u64_decimal(s as u64);
                let mut k: usize = 0;
                while k < digits.len()
                    invariant
                        k <= digits@.len(),
                        r@ == seq!['['] + digits@.take(k as int),
                    decreases digits@.len() - k,
                {
                    push_char(&mut r, digits[k]);
                    proof {
                        assert(digits@.take(k + 1) =~= digits@.take(k as int).push(digits@[k as int]));
                    }
                    k = k + 1;
                }
                push_char(&mut r, ']');
                push_char(&mut r, ' ');
                proof {
                    assert(digits@.take(k as int) =~= digits@);
                    assert(r@ =~= bookmark_mark(*n));
                }
            },
            None => {
                push_char(&mut r, '*');
                push_char(&mut r, ' ');
                proof {
                    assert(r@ =~= bookmark_mark(*n));
                }
            },
        }
    } else {
        proof {
            assert(r@ =~= bookmark_mark(*n));
        }
    }
    let t = list_title(n);
    push_str(&mut r, t.as_str());
    let ghost head = r@;
    assert(head == bookmark_mark(*n) + list_title_spec(*n));
    if show_tags && n.tags.len() > 0 {
        push_char(&mut r, ' ');
        push_char(&mut r, '[');
        let ghost ts = strs(n.tags@);
        let mut k: usize = 0;
        while k < n.tags.len()
            invariant
                k <= n.tags@.len(),
                ts == strs(n.tags@),
                n.tags@.len() > 0,
                r@ == head + seq![' ', '['] + join_comma(ts.take(k as int)),
            decreases n.tags@.len() - k,
        {
            let ghost before = r@;
            if k > 0 {
                push_char(&mut r, ',');
                push_char(&mut r, ' ');
            }
            push_str(&mut r, n.tags[k].as_str());
            proof {
                let tk = ts.take(k + 1);
                assert(tk.drop_last() =~= ts.take(k as int));
                assert(tk.last() == ts[k as int]);
                assert(ts[k as int] == n.tags@[k as int]@);
                if k == 0 {
                    assert(tk.len() == 1);
                    assert(join_comma(tk) == tk[0]);
                    assert(ts.take(0) =~= Seq::<Seq<char>>::empty());
                    assert(r@ =~= head + seq![' ', '['] + join_comma(tk));
                } else {
                    assert(r@ =~= head + seq![' ', '['] + join_comma(tk));
                }
            }
            k = k + 1;
        }
        push_char(&mut r, ']');
        proof {
            assert(ts.take(k as int) =~= ts);
            assert(r@ =~= row_label_spec(*n, show_tags));
        }
    } else {
        proof {
            assert(r@ =~= row_label_spec(*n, show_tags));
        }
    }
    r
}

/// The file stem for a print preview: the title without characters that
/// cannot stand in a file name.
pub fn print_file_stem(title: &str) -> (r: String)
    ensures
        r@ == valid_chars(title@),
{
    let v = chars_of(title);
    let mut kept: Vec<char> = Vec::new();
    let mut i: usize = 0;
    while i < v.len()
        invariant
            i <= v@.len(),
            kept@ == valid_chars(v@.take(i as int)),
        decreases v@.len() - i,
    {
        let c = v[i];
        proof {
            assert(v@.take(i + 1).drop_last() =~= v@.take(i as int));
            assert(v@.take(i + 1).last() == c);
        }
        if !(c == '/' || c == '\\' || c == ':' || c == '*' || c == '?' || c == '"' || c == '<'
            || c == '>' || c == '|') {
            kept.push(c);
        }
        i = i + 1;
    }
    proof {
        assert(v@.take(i as int) =~= v@);
    }
    string_from_chars(kept.as_slice())
}

/// The export format a destination file extension selects.
pub fn export_format_for(ext: Option<&str>) -> (r: ExportFormat)
    ensures
        r == match ext {
            Some(e) => if e@ == "html"@ || e@ == "htm"@ {
                ExportFormat::Html
            } else if e@ == "md"@ {
                ExportFormat::Markdown
            } else {
                ExportFormat::PlainText
            },
            None => ExportFormat::PlainText,
        },
{
    match ext {
        Some(e) => {
            if str_eq(e, "html") || str_eq(e, "htm") {
                ExportFormat::Html
            } else if str_eq(e, "md") {
                ExportFormat::Markdown
            } else {
                ExportFormat::PlainText
            }
        },
        None => ExportFormat::PlainText,
    }
}

} // verus!
