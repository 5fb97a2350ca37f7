//! Note search: query parsing, scoring and ranking.
use vstd::prelude::*;
use crate::note::{
    first_index, lemma_first_index, lemma_insert_contains, lemma_insert_no_dup, position_of, strs,
    Note, NoteStore,
};
use crate::text::{
    chars_of, contains_chars, contains_seq, is_whitespace, is_ws, lowercase, matches_at,
    occurs_at, starts_with, string_from_chars, string_from_range, to_lowercase,
};

verus! {

/// Parsed search query with optional tag filters and text query.
pub struct ParsedQuery {
    pub tag_filters: Vec<String>,
    pub text_query: String,
}

/// End of the run of non-white-space chars starting at `k`.
pub open spec fn token_end(s: Seq<char>, k: int) -> int
    decreases s.len() - k,
{
    if k < 0 || k >= s.len() || is_ws(s[k]) {
        if k < 0 {
            0
        } else if k > s.len() {
            s.len() as int
        } else {
            k
        }
    } else {
        token_end(s, k + 1)
    }
}

pub proof fn lemma_token_end(s: Seq<char>, k: int)
    requires
        0 <= k <= s.len(),
    ensures
        k <= token_end(s, k) <= s.len(),
        forall|j: int| k <= j < token_end(s, k) ==> !is_ws(#[trigger] s[j]),
        token_end(s, k) < s.len() ==> is_ws(s[token_end(s, k)]),
    decreases s.len() - k,
{
    if k < s.len() && !is_ws(s[k]) {
        lemma_token_end(s, k + 1);
    }
}

/// The white-space separated tokens of `s[i..]` (`str::split_whitespace`).
pub open spec fn tokens_from(s: Seq<char>, i: int) -> Seq<Seq<char>>
    decreases s.len() - i,
{
    if i < 0 || i >= s.len() {
        Seq::empty()
    } else if is_ws(s[i]) {
        tokens_from(s, i + 1)
    } else {
        let e = token_end(s, i);
        proof {
            lemma_token_end(s, i);
        }
        seq![s.subrange(i, e)] + tokens_from(s, e)
    }
}

/// The prefix `tag:`.
pub open spec fn tag_prefix() -> Seq<char> {
    seq!['t', 'a', 'g', ':']
}

/// Lowercased tag filters of the tokens: each `tag:name` with a non-empty name.
pub open spec fn query_tags(tokens: Seq<Seq<char>>) -> Seq<Seq<char>>
    decreases tokens.len(),
{
    if tokens.len() == 0 {
        Seq::empty()
    } else {
        let t = tokens.last();
        let prev = query_tags(tokens.drop_last());
        if starts_with(t, tag_prefix()) && t.len() > 4 {
            prev.push(lowercase(t.skip(4)))
        } else {
            prev
        }
    }
}

/// The tokens that are not `tag:` filters.
pub open spec fn query_text(tokens: Seq<Seq<char>>) -> Seq<Seq<char>>
    decreases tokens.len(),
{
    if tokens.len() == 0 {
        Seq::empty()
    } else {
        let t = tokens.last();
        let prev = query_text(tokens.drop_last());
        if starts_with(t, tag_prefix()) {
            prev
        } else {
            prev.push(t)
        }
    }
}

/// The parts joined with single spaces.
pub open spec fn join_spaces(parts: Seq<Seq<char>>) -> Seq<char>
    decreases parts.len(),
{
    if parts.len() == 0 {
        Seq::empty()
    } else if parts.len() == 1 {
        parts[0]
    } else {
        join_spaces(parts.drop_last()) + seq![' '] + parts.last()
    }
}

/// Parse a query string, extracting `tag:name` prefixes.
/// e.g. "tag:rust tag:tutorial some text" -> tags=["rust","tutorial"], text="some text"
pub fn parse_query(query: &str) -> (r: ParsedQuery)
    ensures
        strs(r.tag_filters@) == query_tags(tokens_from(query@, 0)),
        r.text_query@ == join_spaces(query_text(tokens_from(query@, 0))),
{
    let v = chars_of(query);
    let ghost s = query@;
    let ghost all = tokens_from(s, 0);
    let len: usize = v.len();
    let prefix: [char; 4] = ['t', 'a', 'g', ':'];
    proof {
        assert(prefix@ =~= tag_prefix());
    }
    let mut tag_filters: Vec<String> = Vec::new();
    let mut text: Vec<char> = Vec::new();
    let mut n_text: usize = 0;
    let ghost mut done: Seq<Seq<char>> = Seq::empty();
    let mut i: usize = 0;
    while i < len
        invariant
            v@ == s,
            len == s.len(),
            i <= len,
            prefix@ == tag_prefix(),
            all == tokens_from(s, 0),
            all == done + tokens_from(s, i as int),
            strs(tag_filters@) == query_tags(done),
            text@ == join_spaces(query_text(done)),
            n_text == query_text(done).len(),
            n_text <= i,
        decreases len - i,
    {
        if is_whitespace(v[i]) {
            i = i + 1;
            continue;
        }
        proof {
            lemma_token_end(s, i as int);
        }
        let mut e: usize = i;
        while e < len && !is_whitespace(v[e])
            invariant
                i <= e <= len,
                len == s.len(),
                v@ == s,
                token_end(s, i as int) == token_end(s, e as int),
            decreases len - e,
        {
            e = e + 1;
        }
        let ghost tok = s.subrange(i as int, e as int);
        proof {
            assert(tokens_from(s, i as int) == seq![tok] + tokens_from(s, e as int));
            assert(done + tokens_from(s, i as int) =~= done.push(tok) + tokens_from(s, e as int));
            assert(done.push(tok).drop_last() =~= done);
            assert(done.push(tok).last() == tok);
        }
        if e - i >= 4 && matches_at(v.as_slice(), prefix.as_slice(), i) {
            proof {
                assert(starts_with(tok, tag_prefix())) by {
                    assert(tok.subrange(0, 4) =~= v@.subrange(i as int, i + 4));
                }
            }
            if e - i > 4 {
                let name = string_from_range(v.as_slice(), i + 4, e);
                let lower = to_lowercase(name.as_str());
                let ghost before = tag_filters@;
                tag_filters.push(lower);
                proof {
                    assert(tok.skip(4) =~= v@.subrange(i + 4, e as int));
                    assert(strs(tag_filters@) =~= strs(before).push(lowercase(tok.skip(4))));
                }
            }
        } else {
            proof {
                if starts_with(tok, tag_prefix()) {
                    assert(v@.subrange(i as int, i + 4) =~= tok.subrange(0, 4));
                    assert(occurs_at(v@, prefix@, i as int));
                }
            }
            let ghost before = text@;
            if n_text > 0 {
                text.push(' ');
            }
            let mut k: usize = i;
            let ghost mid = text@;
            while k < e
                invariant
                    i <= k <= e <= len,
                    len == s.len(),
                    v@ == s,
                    text@ == mid + s.subrange(i as int, k as int),
                decreases e - k,
            {
                text.push(v[k]);
                k = k + 1;
                proof {
                    assert(text@ =~= mid + s.subrange(i as int, k as int));
                }
            }
            proof {
                let qt = query_text(done.push(tok));
                assert(qt == query_text(done).push(tok));
                assert(qt.drop_last() =~= query_text(done));
                if n_text == 0 {
                    assert(query_text(done).len() == 0);
                    assert(before =~= Seq::<char>::empty());
                    assert(text@ =~= tok);
                } else {
                    assert(text@ =~= join_spaces(query_text(done)) + seq![' '] + tok);
                }
            }
            n_text = n_text + 1;
        }
        proof {
            done = done.push(tok);
        }
        i = e;
    }
    proof {
        assert(tokens_from(s, i as int) =~= Seq::<Seq<char>>::empty());
        assert(done + Seq::<Seq<char>>::empty() =~= done);
    }
    ParsedQuery { tag_filters, text_query: string_from_chars(text.as_slice()) }
}

/// Some tag of `tags` holds `q`.
pub open spec fn any_contains(tags: Seq<Seq<char>>, q: Seq<char>) -> bool {
    exists|i: int| 0 <= i < tags.len() && contains_seq(#[trigger] tags[i], q)
}

/// The relevance score of a note for a lowercase query, `None` when nothing matches:
/// 100 for a title holding the query, plus 1000 for a title equal to it and 50
/// for a title starting with it; 10 for content holding it; 200 for a tag equal
/// to it, else 50 for a tag holding it.
pub open spec fn score_spec(
    title: Seq<char>,
    content: Seq<char>,
    tags: Seq<Seq<char>>,
    q: Seq<char>,
) -> Option<i32> {
    let title_match = contains_seq(title, q);
    let content_match = contains_seq(content, q);
    let tag_exact = first_index(tags, q, 0) is Some;
    let tag_substring = any_contains(tags, q);
    if !title_match && !content_match && !tag_exact && !tag_substring {
        None
    } else {
        let t: int = if title_match {
            100 + (if title == q {
                1000int
            } else {
                0int
            }) + (if starts_with(title, q) {
                50int
            } else {
                0int
            })
        } else {
            0
        };
        let c: int = if content_match {
            10
        } else {
            0
        };
        let g: int = if tag_exact {
            200
        } else if tag_substring {
            50
        } else {
            0
        };
        Some((t + c + g) as i32)
    }
}

/// Score a note against a query. Higher = better match.
/// Returns None if the note doesn't match at all.
/// `tags_lower` is the lowercase tags list for the note.
pub fn score_note(
    title_lower: &str,
    content_lower: &str,
    tags_lower: &[String],
    query_lower: &str,
) -> (r: Option<i32>)
    ensures
        r == score_spec(title_lower@, content_lower@, strs(tags_lower@), query_lower@),
{
    let tv = chars_of(title_lower);
    let cv = chars_of(content_lower);
    let qv = chars_of(query_lower);
    let title_match = contains_chars(tv.as_slice(), qv.as_slice());
    let content_match = contains_chars(cv.as_slice(), qv.as_slice());
    let ghost tags = strs(tags_lower@);
    let mut tag_exact = false;
    let mut tag_substring = false;
    let mut k: usize = 0;
    while k < tags_lower.len()
        invariant
            k <= tags_lower@.len(),
            tags == strs(tags_lower@),
            qv@ == query_lower@,
            tag_exact == exists|j: int| 0 <= j < k && tags[j] == qv@,
            tag_substring == exists|j: int| 0 <= j < k && contains_seq(#[trigger] tags[j], qv@),
        decreases tags_lower@.len() - k,
    {
        let t = chars_of(tags_lower[k].as_str());
        proof {
            assert(tags[k as int] == tags_lower@[k as int]@);
        }
        if crate::text::chars_eq(t.as_slice(), qv.as_slice()) {
            tag_exact = true;
        }
        if contains_chars(t.as_slice(), qv.as_slice()) {
            tag_substring = true;
        }
        k = k + 1;
    }
    proof {
        lemma_first_index(tags, qv@, 0);
        if tag_exact {
            let j = choose|j: int| 0 <= j < k && tags[j] == qv@;
            assert(first_index(tags, qv@, 0) is Some);
        }
    }
    if !title_match && !content_match && !tag_exact && !tag_substring {
        return None;
    }
    let mut score: i32 = 0;
    if title_match {
        score += 100;
        // Exact title match is best
        if crate::text::chars_eq(tv.as_slice(), qv.as_slice()) {
            score += 1000;
        }
        // Title starts with query
        if matches_at(tv.as_slice(), qv.as_slice(), 0) {
            score += 50;
        }
    }
    if content_match {
        score += 10;
    }
    // Exact tag match is very relevant
    if tag_exact {
        score += 200;
    } else if tag_substring {
        score += 50;
    }
    Some(score)
}

/// Note `n` carries every tag filter.
pub open spec fn has_all_tags(n: Note, filters: Seq<Seq<char>>) -> bool {
    forall|j: int| 0 <= j < filters.len() ==> first_index(strs(n.tags_lower@), #[trigger] filters[j], 0) is Some
}

/// Indices `< k` of the notes that carry every tag filter.
pub open spec fn tag_candidates(notes: Seq<Note>, filters: Seq<Seq<char>>, k: int) -> Seq<usize>
    decreases k,
{
    if k <= 0 {
        Seq::empty()
    } else if has_all_tags(notes[k - 1], filters) {
        tag_candidates(notes, filters, k - 1).push((k - 1) as usize)
    } else {
        tag_candidates(notes, filters, k - 1)
    }
}

pub proof fn lemma_tag_candidates_bound(notes: Seq<Note>, filters: Seq<Seq<char>>, k: int)
    requires
        k <= notes.len(),
    ensures
        forall|j: int|
            0 <= j < tag_candidates(notes, filters, k).len() ==> (#[trigger] tag_candidates(
                notes,
                filters,
                k,
            )[j]) < k,
    decreases k,
{
    if k > 0 {
        lemma_tag_candidates_bound(notes, filters, k - 1);
        let prev = tag_candidates(notes, filters, k - 1);
        assert forall|j: int|
            0 <= j < tag_candidates(notes, filters, k).len() implies (#[trigger] tag_candidates(
            notes,
            filters,
            k,
        )[j]) < k by {
            if j < prev.len() {
                assert(tag_candidates(notes, filters, k)[j] == prev[j]);
            }
        }
    }
}

/// `0, 1, .., n - 1`.
pub open spec fn all_indices(n: int) -> Seq<usize> {
    Seq::new(n as nat, |i: int| i as usize)
}

/// The candidates with a score, paired with it, in candidate order.
pub open spec fn scored(notes: Seq<Note>, cands: Seq<usize>, q: Seq<char>) -> Seq<(usize, i32)>
    decreases cands.len(),
{
    if cands.len() == 0 {
        Seq::empty()
    } else {
        let prev = scored(notes, cands.drop_last(), q);
        let i = cands.last();
        let n = notes[i as int];
        match score_spec(n.title_lower@, n.content_lower@, strs(n.tags_lower@), q) {
            Some(s) => prev.push((i, s)),
            None => prev,
        }
    }
}

/// First position in `sorted` with a lower score than `x`.
pub open spec fn ins_pos_score(sorted: Seq<(usize, i32)>, x: (usize, i32), j: int) -> int
    decreases sorted.len() - j,
{
    if j < 0 || j >= sorted.len() {
        sorted.len() as int
    } else if sorted[j].1 < x.1 {
        j
    } else {
        ins_pos_score(sorted, x, j + 1)
    }
}

pub proof fn lemma_ins_pos_score(sorted: Seq<(usize, i32)>, x: (usize, i32), j: int)
    requires
        0 <= j <= sorted.len(),
    ensures
        j <= ins_pos_score(sorted, x, j) <= sorted.len(),
    decreases sorted.len() - j,
{
    if j < sorted.len() && !(sorted[j].1 < x.1) {
        lemma_ins_pos_score(sorted, x, j + 1);
    }
}

/// Stable sort by score, best first.
pub open spec fn sort_by_score(s: Seq<(usize, i32)>) -> Seq<(usize, i32)>
    decreases s.len(),
{
    if s.len() == 0 {
        s
    } else {
        let sorted = sort_by_score(s.drop_last());
        sorted.insert(ins_pos_score(sorted, s.last(), 0), s.last())
    }
}

/// What `search_notes` returns for the notes and a query.
pub open spec fn search_spec(notes: Seq<Note>, query: Seq<char>) -> Seq<usize> {
    if query.len() == 0 {
        all_indices(notes.len() as int)
    } else {
        let tokens = tokens_from(query, 0);
        let filters = query_tags(tokens);
        let text = join_spaces(query_text(tokens));
        let cands = if filters.len() == 0 {
            all_indices(notes.len() as int)
        } else {
            tag_candidates(notes, filters, notes.len() as int)
        };
        if text.len() == 0 {
            cands
        } else {
            sort_by_score(scored(notes, cands, lowercase(text))).map_values(|p: (usize, i32)| p.0)
        }
    }
}

/// An empty query lists every note, in store order.
pub proof fn lemma_empty_query_lists_all(notes: Seq<Note>)
    ensures
        search_spec(notes, Seq::empty()) == all_indices(notes.len() as int),
{
}

/// The stable sort by score orders scores from best to worst.
pub proof fn lemma_sort_by_score_ordered(s: Seq<(usize, i32)>)
    ensures
        sort_by_score(s).len() == s.len(),
        forall|i: int, j: int|
            0 <= i < j < sort_by_score(s).len() ==> (#[trigger] sort_by_score(s)[i]).1 >= (
            #[trigger] sort_by_score(s)[j]).1,
    decreases s.len(),
{
    if s.len() > 0 {
        lemma_sort_by_score_ordered(s.drop_last());
        let sorted = sort_by_score(s.drop_last());
        let x = s.last();
        lemma_ins_pos_score(sorted, x, 0);
        lemma_ins_pos_score_facts(sorted, x, 0);
        let p = ins_pos_score(sorted, x, 0);
        let r = sorted.insert(p, x);
        assert forall|i: int, j: int| 0 <= i < j < r.len() implies (#[trigger] r[i]).1 >= (
        #[trigger] r[j]).1 by {
            if i < p && j < p {
                assert(r[i] == sorted[i] && r[j] == sorted[j]);
            } else if i < p && j == p {
                assert(r[i] == sorted[i]);
            } else if i < p {
                assert(r[i] == sorted[i] && r[j] == sorted[j - 1]);
            } else if i == p {
                assert(r[j] == sorted[j - 1]);
                assert(sorted[p].1 < x.1);
                if j - 1 > p {
                    assert(sorted[p].1 >= sorted[j - 1].1);
                }
            } else {
                assert(r[i] == sorted[i - 1] && r[j] == sorted[j - 1]);
            }
        }
    }
}

proof fn lemma_ins_pos_score_facts(sorted: Seq<(usize, i32)>, x: (usize, i32), j: int)
    requires
        0 <= j <= sorted.len(),
    ensures
        forall|m: int| j <= m < ins_pos_score(sorted, x, j) ==> !(sorted[m].1 < x.1),
        ins_pos_score(sorted, x, j) < sorted.len() ==> sorted[ins_pos_score(sorted, x, j)].1 < x.1,
    decreases sorted.len() - j,
{
    if j < sorted.len() && !(sorted[j].1 < x.1) {
        lemma_ins_pos_score_facts(sorted, x, j + 1);
    }
}

/// The tag filters of a query: its `tag:` words, lowercased.
pub open spec fn filters_of(query: Seq<char>) -> Seq<Seq<char>> {
    query_tags(tokens_from(query, 0))
}

/// The text part of a query: its other words, joined by single spaces.
pub open spec fn text_of(query: Seq<char>) -> Seq<char> {
    join_spaces(query_text(tokens_from(query, 0)))
}

/// Whether the lowercase title, content or one of the lowercase tags of
/// note `n` holds `q`.
pub open spec fn holds_text(n: Note, q: Seq<char>) -> bool {
    contains_seq(n.title_lower@, q) || contains_seq(n.content_lower@, q) || any_contains(
        strs(n.tags_lower@),
        q,
    )
}

/// Whether a search for `query` finds note `n`: any note for an empty query;
/// otherwise a note carrying every tag filter whose title, content or a tag
/// holds the lowercased text part, if the query has one.
pub open spec fn answers(n: Note, query: Seq<char>) -> bool {
    query.len() == 0 || (has_all_tags(n, filters_of(query)) && (text_of(query).len() == 0
        || holds_text(n, lowercase(text_of(query)))))
}

/// The note indices of scored pairs.
pub open spec fn ids(s: Seq<(usize, i32)>) -> Seq<usize> {
    s.map_values(|p: (usize, i32)| p.0)
}

/// Sorting by score keeps the same notes.
proof fn lemma_sort_by_score_ids(s: Seq<(usize, i32)>)
    ensures
        forall|y: usize| ids(sort_by_score(s)).contains(y) <==> ids(s).contains(y),
        ids(s).no_duplicates() ==> ids(sort_by_score(s)).no_duplicates(),
    decreases s.len(),
{
    if s.len() > 0 {
        let prev = s.drop_last();
        lemma_sort_by_score_ids(prev);
        let sorted = sort_by_score(prev);
        let x = s.last();
        lemma_ins_pos_score(sorted, x, 0);
        let p = ins_pos_score(sorted, x, 0);
        assert(ids(sorted.insert(p, x)) =~= ids(sorted).insert(p, x.0));
        assert(ids(s) =~= ids(prev).push(x.0));
        assert(sort_by_score(s) == sorted.insert(p, x));
        lemma_insert_contains(ids(sorted), p, x.0);
        lemma_insert_contains(ids(prev), ids(prev).len() as int, x.0);
        assert(ids(prev).insert(ids(prev).len() as int, x.0) =~= ids(s));
        assert(ids(sort_by_score(s)) == ids(sorted).insert(p, x.0));
        assert forall|y: usize| ids(sort_by_score(s)).contains(y) <==> ids(s).contains(y) by {
            assert(ids(sorted).insert(p, x.0).contains(y) <==> (y == x.0 || ids(sorted).contains(y)));
            assert(ids(sorted).contains(y) <==> ids(prev).contains(y));
            assert(ids(prev).insert(ids(prev).len() as int, x.0).contains(y) <==> (y == x.0 || ids(prev).contains(y)));
        }
        if ids(s).no_duplicates() {
            assert(ids(prev).no_duplicates()) by {
                assert forall|i: int, j: int| 0 <= i < ids(prev).len() && 0 <= j < ids(prev).len() && i != j implies ids(prev)[i] != ids(prev)[j] by {
                    assert(ids(prev)[i] == ids(s)[i] && ids(prev)[j] == ids(s)[j]);
                }
            }
            assert(!ids(sorted).contains(x.0)) by {
                if ids(sorted).contains(x.0) {
                    assert(ids(prev).contains(x.0));
                    let k = choose|k: int| 0 <= k < ids(prev).len() && ids(prev)[k] == x.0;
                    assert(ids(s)[k] == ids(s)[prev.len() as int]);
                }
            }
            lemma_insert_no_dup(ids(sorted), p, x.0);
        }
    }
}

/// The scored candidates are the candidates that match, each once if the
/// candidates are.
proof fn lemma_scored_ids(notes: Seq<Note>, cands: Seq<usize>, q: Seq<char>)
    ensures
        forall|y: usize| #[trigger] ids(scored(notes, cands, q)).contains(y) <==> (cands.contains(y) && score_spec(
            notes[y as int].title_lower@,
            notes[y as int].content_lower@,
            strs(notes[y as int].tags_lower@),
            q,
        ) is Some),
        cands.no_duplicates() ==> ids(scored(notes, cands, q)).no_duplicates(),
    decreases cands.len(),
{
    if cands.len() > 0 {
        let prev = cands.drop_last();
        lemma_scored_ids(notes, prev, q);
        let i = cands.last();
        let ps = scored(notes, prev, q);
        assert(cands =~= prev.push(i));
        assert forall|y: usize| #[trigger] ids(scored(notes, cands, q)).contains(y) <==> (cands.contains(y) && score_spec(
            notes[y as int].title_lower@,
            notes[y as int].content_lower@,
            strs(notes[y as int].tags_lower@),
            q,
        ) is Some) by {
            if cands.contains(y) {
                let k = choose|k: int| 0 <= k < cands.len() && cands[k] == y;
                if k < prev.len() {
                    assert(prev[k] == y);
                }
            }
            if prev.contains(y) {
                let k = choose|k: int| 0 <= k < prev.len() && prev[k] == y;
                assert(cands[k] == y);
            }
            match score_spec(
                notes[i as int].title_lower@,
                notes[i as int].content_lower@,
                strs(notes[i as int].tags_lower@),
                q,
            ) {
                Some(sc) => {
                    assert(ids(ps.push((i, sc))) =~= ids(ps).push(i));
                    if ids(ps).contains(y) {
                        let k = choose|k: int| 0 <= k < ids(ps).len() && ids(ps)[k] == y;
                        assert(ids(ps).push(i)[k] == y);
                    }
                    if ids(ps).push(i).contains(y) && y != i {
                        let k = choose|k: int| 0 <= k < ids(ps).push(i).len() && ids(ps).push(i)[k] == y;
                        assert(ids(ps)[k] == y);
                    }
                    assert(ids(ps).push(i)[ids(ps).len() as int] == i);
                },
                None => {},
            }
        }
        if cands.no_duplicates() {
            assert(prev.no_duplicates()) by {
                assert forall|a: int, b: int| 0 <= a < prev.len() && 0 <= b < prev.len() && a != b implies prev[a] != prev[b] by {
                    assert(prev[a] == cands[a] && prev[b] == cands[b]);
                }
            }
            match score_spec(
                notes[i as int].title_lower@,
                notes[i as int].content_lower@,
                strs(notes[i as int].tags_lower@),
                q,
            ) {
                Some(sc) => {
                    assert(ids(ps.push((i, sc))) =~= ids(ps).push(i));
                    assert(!ids(ps).contains(i)) by {
                        if ids(ps).contains(i) {
                            assert(prev.contains(i));
                            let k = choose|k: int| 0 <= k < prev.len() && prev[k] == i;
                            assert(cands[k] == cands[prev.len() as int]);
                        }
                    }
                    lemma_insert_no_dup(ids(ps), ids(ps).len() as int, i);
                    assert(ids(ps).insert(ids(ps).len() as int, i) =~= ids(ps).push(i));
                },
                None => {},
            }
        }
    }
}

/// The notes with every tag filter, in order, each once.
proof fn lemma_tag_candidates_ids(notes: Seq<Note>, filters: Seq<Seq<char>>, k: int)
    requires
        0 <= k <= notes.len() <= usize::MAX,
    ensures
        forall|y: usize| #[trigger] tag_candidates(notes, filters, k).contains(y) <==> (y < k && has_all_tags(
            notes[y as int],
            filters,
        )),
        tag_candidates(notes, filters, k).no_duplicates(),
    decreases k,
{
    if k > 0 {
        lemma_tag_candidates_ids(notes, filters, k - 1);
        lemma_tag_candidates_bound(notes, filters, k - 1);
        let prev = tag_candidates(notes, filters, k - 1);
        let x = (k - 1) as usize;
        if has_all_tags(notes[k - 1], filters) {
            assert(!prev.contains(x));
            lemma_insert_no_dup(prev, prev.len() as int, x);
            assert(prev.insert(prev.len() as int, x) =~= prev.push(x));
            assert(tag_candidates(notes, filters, k) == prev.push(x));
            assert forall|y: usize| #[trigger] tag_candidates(notes, filters, k).contains(y) <==> (y < k
                && has_all_tags(notes[y as int], filters)) by {
                assert(prev.insert(prev.len() as int, x).contains(y) <==> (y == x || prev.contains(y)));
            }
        } else {
            assert(tag_candidates(notes, filters, k) == prev);
            assert forall|y: usize| #[trigger] tag_candidates(notes, filters, k).contains(y) <==> (y < k
                && has_all_tags(notes[y as int], filters)) by {
                assert(prev.contains(y) <==> (y < k - 1 && has_all_tags(notes[y as int], filters)));
            }
        }
    }
}

/// A search finds exactly the notes that answer the query (see `answers`),
/// each of them once.
pub proof fn lemma_search_finds_answers(notes: Seq<Note>, query: Seq<char>)
    requires
        notes.len() <= usize::MAX,
    ensures
        forall|y: usize| #[trigger] search_spec(notes, query).contains(y) <==> (y < notes.len() && answers(
            notes[y as int],
            query,
        )),
        search_spec(notes, query).no_duplicates(),
{
    let n = notes.len() as int;
    let all = all_indices(n);
    assert forall|y: usize| #[trigger] all.contains(y) <==> y < n by {
        if y < n {
            assert(all[y as int] == y);
        }
    }
    if query.len() > 0 {
        let filters = filters_of(query);
        let text = text_of(query);
        let cands = if filters.len() == 0 {
            all
        } else {
            tag_candidates(notes, filters, n)
        };
        lemma_tag_candidates_ids(notes, filters, n);
        assert forall|y: usize| #[trigger] cands.contains(y) <==> (y < n && has_all_tags(
            notes[y as int],
            filters,
        )) by {
            if filters.len() == 0 {
                assert(all.contains(y) <==> y < n);
            } else {
                assert(tag_candidates(notes, filters, n).contains(y) <==> (y < n && has_all_tags(
                    notes[y as int],
                    filters,
                )));
            }
        }
        assert(cands.no_duplicates()) by {
            if filters.len() == 0 {
                assert forall|a: int, b: int| 0 <= a < all.len() && 0 <= b < all.len() && a != b implies all[a] != all[b] by {}
            }
        }
        if text.len() == 0 {
            assert(search_spec(notes, query) == cands);
        } else {
            let q = lowercase(text);
            lemma_scored_ids(notes, cands, q);
            lemma_sort_by_score_ids(scored(notes, cands, q));
            let r = ids(sort_by_score(scored(notes, cands, q)));
            assert(search_spec(notes, query) =~= r);
            assert forall|y: usize| #[trigger] search_spec(notes, query).contains(y) <==> (y < n && answers(
                notes[y as int],
                query,
            )) by {
                assert(r.contains(y) <==> ids(scored(notes, cands, q)).contains(y));
                if y < n {
                    let tags = strs(notes[y as int].tags_lower@);
                    lemma_first_index(tags, q, 0);
                    if first_index(tags, q, 0) is Some {
                        let j = first_index(tags, q, 0)->0;
                        assert(tags[j].subrange(0, q.len() as int) =~= q);
                        assert(occurs_at(tags[j], q, 0));
                        assert(contains_seq(tags[j], q));
                    }
                }
            }
        }
    } else {
        assert(search_spec(notes, query) == all);
        assert forall|a: int, b: int| 0 <= a < all.len() && 0 <= b < all.len() && a != b implies all[a] != all[b] by {}
    }
}

/// A title equal to the query scores at least 1150; any other title leaves
/// the score at most 360.
proof fn lemma_score_exact_title(title: Seq<char>, content: Seq<char>, tags: Seq<Seq<char>>, q: Seq<char>)
    ensures
        title == q ==> (score_spec(title, content, tags, q) matches Some(v) && v >= 1150),
        title != q ==> (score_spec(title, content, tags, q) matches Some(v) ==> v <= 360),
{
    if title == q {
        assert(q.subrange(0, q.len() as int) =~= q);
        assert(occurs_at(title, q, 0));
    }
}

/// Sorting by score keeps the same scored pairs.
proof fn lemma_sort_by_score_pairs(s: Seq<(usize, i32)>)
    ensures
        forall|x: (usize, i32)| #[trigger] sort_by_score(s).contains(x) <==> s.contains(x),
    decreases s.len(),
{
    if s.len() > 0 {
        let prev = s.drop_last();
        lemma_sort_by_score_pairs(prev);
        let sorted = sort_by_score(prev);
        let x = s.last();
        lemma_ins_pos_score(sorted, x, 0);
        let p = ins_pos_score(sorted, x, 0);
        assert(sort_by_score(s) == sorted.insert(p, x));
        lemma_insert_contains(sorted, p, x);
        lemma_insert_contains(prev, prev.len() as int, x);
        assert(prev.insert(prev.len() as int, x) =~= s);
        assert forall|y: (usize, i32)| #[trigger] sort_by_score(s).contains(y) <==> s.contains(y) by {
            assert(sorted.insert(p, x).contains(y) <==> (y == x || sorted.contains(y)));
            assert(sorted.contains(y) <==> prev.contains(y));
            assert(prev.insert(prev.len() as int, x).contains(y) <==> (y == x || prev.contains(y)));
        }
    }
}

/// Each scored pair carries its note's score.
proof fn lemma_scored_pairs(notes: Seq<Note>, cands: Seq<usize>, q: Seq<char>)
    ensures
        forall|x: (usize, i32)| #[trigger] scored(notes, cands, q).contains(x) ==> score_spec(
            notes[x.0 as int].title_lower@,
            notes[x.0 as int].content_lower@,
            strs(notes[x.0 as int].tags_lower@),
            q,
        ) == Some(x.1),
    decreases cands.len(),
{
    if cands.len() > 0 {
        let prev = cands.drop_last();
        lemma_scored_pairs(notes, prev, q);
        let ps = scored(notes, prev, q);
        let i = cands.last();
        match score_spec(
            notes[i as int].title_lower@,
            notes[i as int].content_lower@,
            strs(notes[i as int].tags_lower@),
            q,
        ) {
            Some(sc) => {
                assert forall|x: (usize, i32)| #[trigger] ps.push((i, sc)).contains(x) implies score_spec(
                    notes[x.0 as int].title_lower@,
                    notes[x.0 as int].content_lower@,
                    strs(notes[x.0 as int].tags_lower@),
                    q,
                ) == Some(x.1) by {
                    let k = choose|k: int| 0 <= k < ps.push((i, sc)).len() && ps.push((i, sc))[k] == x;
                    if k < ps.len() {
                        assert(ps[k] == x);
                        assert(ps.contains(x));
                    }
                }
            },
            None => {},
        }
    }
}

/// Notes whose title equals the text of the query come first in the
/// results: no other note is listed before one of them.
pub proof fn lemma_exact_title_first(notes: Seq<Note>, query: Seq<char>)
    requires
        text_of(query).len() > 0,
    ensures
        forall|i: int, j: int|
            0 <= i < j < search_spec(notes, query).len() && notes[search_spec(notes, query)[j] as int].title_lower@
                == lowercase(text_of(query)) ==> notes[search_spec(
                notes,
                query,
            )[i] as int].title_lower@ == lowercase(text_of(query)),
{
    let tokens = tokens_from(query, 0);
    let filters = query_tags(tokens);
    let q = lowercase(text_of(query));
    let n = notes.len() as int;
    assert(query.len() > 0) by {
        if query.len() == 0 {
            assert(tokens_from(query, 0) =~= Seq::<Seq<char>>::empty());
            assert(query_text(tokens) =~= Seq::<Seq<char>>::empty());
        }
    }
    let cands = if filters.len() == 0 {
        all_indices(n)
    } else {
        tag_candidates(notes, filters, n)
    };
    let sc = scored(notes, cands, q);
    let sorted = sort_by_score(sc);
    let r = search_spec(notes, query);
    assert(r == ids(sorted));
    lemma_sort_by_score_ordered(sc);
    lemma_sort_by_score_pairs(sc);
    lemma_scored_pairs(notes, cands, q);
    assert forall|i: int, j: int|
        0 <= i < j < r.len() && notes[r[j] as int].title_lower@ == q implies notes[r[i] as int].title_lower@
        == q by {
        let a = sorted[i];
        let b = sorted[j];
        assert(sc.contains(a)) by {
            assert(sorted.contains(a));
        }
        assert(sc.contains(b)) by {
            assert(sorted.contains(b));
        }
        let na = notes[a.0 as int];
        let nb = notes[b.0 as int];
        lemma_score_exact_title(na.title_lower@, na.content_lower@, strs(na.tags_lower@), q);
        lemma_score_exact_title(nb.title_lower@, nb.content_lower@, strs(nb.tags_lower@), q);
        assert(a.1 >= b.1);
    }
}

/// The score of note `n` for the lowercase query `q` (0 when nothing matches).
pub open spec fn note_score(n: Note, q: Seq<char>) -> int {
    match score_spec(n.title_lower@, n.content_lower@, strs(n.tags_lower@), q) {
        Some(v) => v as int,
        None => 0,
    }
}

/// Search results for a query with a text part come best score first.
pub proof fn lemma_results_by_relevance(notes: Seq<Note>, query: Seq<char>)
    requires
        text_of(query).len() > 0,
    ensures
        forall|i: int, j: int|
            0 <= i < j < search_spec(notes, query).len() ==> note_score(
                notes[search_spec(notes, query)[i] as int],
                lowercase(text_of(query)),
            ) >= note_score(notes[search_spec(notes, query)[j] as int], lowercase(text_of(query))),
{
    let tokens = tokens_from(query, 0);
    let filters = query_tags(tokens);
    let q = lowercase(text_of(query));
    let n = notes.len() as int;
    assert(query.len() > 0) by {
        if query.len() == 0 {
            assert(tokens_from(query, 0) =~= Seq::<Seq<char>>::empty());
            assert(query_text(tokens) =~= Seq::<Seq<char>>::empty());
        }
    }
    let cands = if filters.len() == 0 {
        all_indices(n)
    } else {
        tag_candidates(notes, filters, n)
    };
    let sc = scored(notes, cands, q);
    let sorted = sort_by_score(sc);
    let r = search_spec(notes, query);
    assert(r == ids(sorted));
    lemma_sort_by_score_ordered(sc);
    lemma_sort_by_score_pairs(sc);
    lemma_scored_pairs(notes, cands, q);
    assert forall|i: int, j: int| 0 <= i < j < r.len() implies note_score(notes[r[i] as int], q)
        >= note_score(notes[r[j] as int], q) by {
        let a = sorted[i];
        let b = sorted[j];
        assert(sc.contains(a)) by {
            assert(sorted.contains(a));
        }
        assert(sc.contains(b)) by {
            assert(sorted.contains(b));
        }
        assert(a.1 >= b.1);
    }
}

/// A query that is one word `tag:name` filters by the lowercase form of
/// `name`: its only tag filter is `lowercase(name)` and it has no text part.
/// So tag filtering ignores case: a search for `tag:name` finds exactly the
/// notes among whose lowercase tags is `lowercase(name)`.
pub proof fn lemma_tag_query_lowercases(notes: Seq<Note>, name: Seq<char>)
    requires
        name.len() > 0,
        forall|i: int| 0 <= i < name.len() ==> !is_ws(#[trigger] name[i]),
        notes.len() <= usize::MAX,
    ensures
        filters_of(tag_prefix() + name) == seq![lowercase(name)],
        text_of(tag_prefix() + name).len() == 0,
        forall|y: usize| #[trigger] search_spec(notes, tag_prefix() + name).contains(y) <==> (y
            < notes.len() && strs(notes[y as int].tags_lower@).contains(lowercase(name))),
{
    let q = tag_prefix() + name;
    assert forall|k: int| 0 <= k < q.len() implies !is_ws(#[trigger] q[k]) by {
        if k >= 4 {
            assert(q[k] == name[k - 4]);
        }
    }
    lemma_token_end_all(q, 0);
    assert(tokens_from(q, q.len() as int) =~= Seq::<Seq<char>>::empty());
    assert(q.subrange(0, q.len() as int) =~= q);
    let toks = tokens_from(q, 0);
    assert(toks =~= seq![q]);
    assert(q.subrange(0, 4) =~= tag_prefix());
    assert(starts_with(q, tag_prefix()));
    assert(q.skip(4) =~= name);
    assert(toks.drop_last() =~= Seq::<Seq<char>>::empty());
    assert(toks.last() == q);
    assert(q.len() > 4);
    assert(query_tags(toks.drop_last()) =~= Seq::<Seq<char>>::empty());
    assert(query_text(toks.drop_last()) =~= Seq::<Seq<char>>::empty());
    assert(query_tags(toks) =~= seq![lowercase(name)]);
    assert(query_text(toks) =~= Seq::<Seq<char>>::empty());
    lemma_search_finds_answers(notes, q);
    assert forall|y: usize| #[trigger] search_spec(notes, q).contains(y) <==> (y < notes.len()
        && strs(notes[y as int].tags_lower@).contains(lowercase(name))) by {
        if y < notes.len() {
            let tl = strs(notes[y as int].tags_lower@);
            lemma_first_index(tl, lowercase(name), 0);
            let f = filters_of(q);
            assert(f[0] == lowercase(name));
            if tl.contains(lowercase(name)) {
                let k = choose|k: int| 0 <= k < tl.len() && tl[k] == lowercase(name);
                assert(first_index(tl, f[0], 0) is Some);
            }
            if has_all_tags(notes[y as int], f) {
                assert(first_index(tl, f[0], 0) is Some);
                let k = first_index(tl, f[0], 0)->0;
                assert(tl[k] == lowercase(name));
            }
        }
    }
}

/// A run of non-white-space chars reaches the end of the text.
proof fn lemma_token_end_all(s: Seq<char>, k: int)
    requires
        0 <= k <= s.len(),
        forall|i: int| 0 <= i < s.len() ==> !is_ws(#[trigger] s[i]),
    ensures
        token_end(s, k) == s.len(),
    decreases s.len() - k,
{
    if k < s.len() {
        lemma_token_end_all(s, k + 1);
    }
}

/// `0, 1, .., n - 1` as a vector.
fn index_range(n: usize) -> (r: Vec<usize>)
    ensures
        r@ == all_indices(n as int),
{
    let mut r: Vec<usize> = Vec::new();
    let mut i: usize = 0;
    while i < n
        invariant
            i <= n,
            r@ == all_indices(i as int),
        decreases n - i,
    {
        r.push(i);
        i = i + 1;
        proof {
            assert(r@ =~= all_indices(i as int));
        }
    }
    r
}

/// Search notes and return indices sorted by relevance (best first).
/// Supports `tag:name` prefix syntax for tag filtering.
pub fn search_notes(store: &NoteStore, query: &str) -> (r: Vec<usize>)
    ensures
        r@ == search_spec(store.notes_view(), query@),
{
    let ghost notes = store.notes_view();
    let n: usize = store.len();
    if query.is_empty() {
        return index_range(n);
    }
    let parsed = parse_query(query);
    let ghost filters = strs(parsed.tag_filters@);
    // If there are tag filters, pre-filter notes that have ALL specified tags
    let candidates: Vec<usize> = tag_filtered(store, parsed.tag_filters.as_slice());
    proof {
        assert(parsed.tag_filters@.len() == filters.len());
    }
    // If no text query remains, return tag-filtered candidates (all match)
    if parsed.text_query.as_str().is_empty() {
        return candidates;
    }
    let query_lower = to_lowercase(parsed.text_query.as_str());
    let ghost ql = query_lower@;
    let ghost cands = candidates@;
    proof {
        if filters.len() == 0 {
            assert forall|j: int| 0 <= j < cands.len() implies (#[trigger] cands[j]) < notes.len() by {
                assert(cands[j] == all_indices(notes.len() as int)[j]);
            }
        } else {
            lemma_tag_candidates_bound(notes, filters, notes.len() as int);
        }
    }
    let out = rank_candidates(store, candidates.as_slice(), query_lower.as_str());
    proof {
        assert(out@ =~= ids(sort_by_score(scored(notes, cands, ql))));
    }
    out
}

/// The candidates that match the lowercase query `query_lower`, best score
/// first (a stable sort: equal scores keep the candidates' order).
pub fn rank_candidates(store: &NoteStore, candidates: &[usize], query_lower: &str) -> (r: Vec<usize>)
    requires
        forall|j: int| 0 <= j < candidates@.len() ==> (#[trigger] candidates@[j]) < store.notes_view().len(),
    ensures
        r@ == ids(sort_by_score(scored(store.notes_view(), candidates@, query_lower@))),
{
    let ghost notes = store.notes_view();
    let ghost ql = query_lower@;
    let ghost cands = candidates@;
    // Score the candidates, then sort them stably by score, best first
    let mut sorted: Vec<(usize, i32)> = Vec::new();
    let mut k: usize = 0;
    while k < candidates.len()
        invariant
            k <= cands.len(),
            cands == candidates@,
            notes == store.notes_view(),
            ql == query_lower@,
            forall|j: int| 0 <= j < cands.len() ==> (#[trigger] cands[j]) < notes.len(),
            sorted@ == sort_by_score(scored(notes, cands.take(k as int), ql)),
        decreases cands.len() - k,
    {
        let idx = candidates[k];
        let note = store.get(idx).unwrap();
        proof {
            assert(cands.take(k + 1).drop_last() =~= cands.take(k as int));
            assert(cands.take(k + 1).last() == idx);
        }
        match score_note(
            note.title_lower.as_str(),
            note.content_lower.as_str(),
            note.tags_lower.as_slice(),
            query_lower,
        ) {
            Some(s) => {
                let x = (idx, s);
                let ghost s0 = sorted@;
                proof {
                    lemma_ins_pos_score(s0, x, 0);
                }
                let mut j: usize = 0;
                while j < sorted.len() && !(sorted[j].1 < s)
                    invariant
                        j <= sorted@.len(),
                        s0 == sorted@,
                        x.1 == s,
                        ins_pos_score(s0, x, 0) == ins_pos_score(s0, x, j as int),
                    decreases sorted@.len() - j,
                {
                    j = j + 1;
                }
                proof {
                    let sc = scored(notes, cands.take(k + 1), ql);
                    assert(sc == scored(notes, cands.take(k as int), ql).push(x));
                    assert(sc.drop_last() =~= scored(notes, cands.take(k as int), ql));
                    assert(sc.last() == x);
                }
                sorted.insert(j, x);
            },
            None => {
                proof {
                    assert(scored(notes, cands.take(k + 1), ql) == scored(notes, cands.take(k as int), ql));
                }
            },
        }
        k = k + 1;
    }
    proof {
        assert(cands.take(k as int) =~= cands);
    }
    let mut out: Vec<usize> = Vec::new();
    let mut m: usize = 0;
    while m < sorted.len()
        invariant
            m <= sorted@.len(),
            out@ == sorted@.take(m as int).map_values(|p: (usize, i32)| p.0),
        decreases sorted@.len() - m,
    {
        out.push(sorted[m].0);
        m = m + 1;
        proof {
            assert(out@ =~= sorted@.take(m as int).map_values(|p: (usize, i32)| p.0));
        }
    }
    proof {
        assert(sorted@.take(m as int) =~= sorted@);
        assert(out@ =~= ids(sorted@));
    }
    out
}

/// The notes that carry every tag filter of `filters_in` (lowercase tags
/// compared as they stand), all notes when there is none, in store order.
pub fn tag_filtered(store: &NoteStore, filters_in: &[String]) -> (r: Vec<usize>)
    ensures
        filters_in@.len() == 0 ==> r@ == all_indices(store.notes_view().len() as int),
        filters_in@.len() > 0 ==> r@ == tag_candidates(
            store.notes_view(),
            strs(filters_in@),
            store.notes_view().len() as int,
        ),
{
    let ghost notes = store.notes_view();
    let n: usize = store.len();
    let ghost filters = strs(filters_in@);
    if filters_in.len() == 0 {
        index_range(n)
    } else {
        let mut c: Vec<usize> = Vec::new();
        let mut i: usize = 0;
        while i < n
            invariant
                i <= n == notes.len(),
                notes == store.notes_view(),
                filters == strs(filters_in@),
                c@ == tag_candidates(notes, filters, i as int),
            decreases n - i,
        {
            let note = store.get(i).unwrap();
            let mut all = true;
            let mut f: usize = 0;
            while f < filters_in.len()
                invariant
                    f <= filters_in@.len(),
                    filters == strs(filters_in@),
                    *note == notes[i as int],
                    all == forall|j: int| 0 <= j < f ==> first_index(strs(note.tags_lower@), #[trigger] filters[j], 0) is Some,
                decreases filters_in@.len() - f,
            {
                proof {
                    assert(filters[f as int] == filters_in@[f as int]@);
                }
                if position_of(&note.tags_lower, &filters_in[f]).is_none() {
                    all = false;
                }
                f = f + 1;
            }
            if all {
                c.push(i);
            }
            i = i + 1;
        }
        c
    }
}

} // verus!
