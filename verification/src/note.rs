//! Notes and the in-memory note store.
use vstd::prelude::*;
use crate::text::{chars_of, lowercase, str_eq, to_lowercase, trim, trim_string};

verus! {

/// Sort field for the note list columns.
#[derive(Debug, Clone, Copy, PartialEq, Eq, Structural)]
pub enum SortField {
    Title,
    DateModified,
    DateCreated,
}

impl Default for SortField {
    fn default() -> (r: Self)
        ensures
            r == SortField::DateModified,
    {
        SortField::DateModified
    }
}

/// A point in time: whole seconds since the Unix epoch and the nanoseconds
/// past that second. Timestamps are ordered by `secs`, then `nanos`.
#[derive(Debug, Clone, Copy, PartialEq, Eq, Structural, PartialOrd, Ord)]
pub struct Timestamp {
    pub secs: i64,
    pub nanos: u32,
}

/// `a` is strictly before `b`.
pub open spec fn ts_lt(a: Timestamp, b: Timestamp) -> bool {
    a.secs < b.secs || (a.secs == b.secs && a.nanos < b.nanos)
}

impl Timestamp {
    /// The current local time, from `chrono::Local::now`; nothing is stated of
    /// its value.
    #[verifier::external_body]
    pub(crate) fn now() -> (r: Timestamp) {
        let t = chrono::Local::now();
        Timestamp { secs: t.timestamp(), nanos: t.timestamp_subsec_nanos() }
    }

    /// Whether `self` is strictly before `other`.
    pub fn before(&self, other: &Timestamp) -> (r: bool)
        ensures
            r == ts_lt(*self, *other),
    {
        self.secs < other.secs || (self.secs == other.secs && self.nanos < other.nanos)
    }
}

/// The chars of each string.
pub open spec fn strs(v: Seq<String>) -> Seq<Seq<char>> {
    v.map_values(|s: String| s@)
}

/// Each string lowercased.
pub open spec fn lowered(v: Seq<Seq<char>>) -> Seq<Seq<char>> {
    v.map_values(|s: Seq<char>| lowercase(s))
}

/// First index of `key` in `v`.
pub open spec fn first_index(v: Seq<Seq<char>>, key: Seq<char>, k: int) -> Option<int>
    decreases v.len() - k,
{
    if k < 0 || k >= v.len() {
        None
    } else if v[k] == key {
        Some(k)
    } else {
        first_index(v, key, k + 1)
    }
}

pub proof fn lemma_first_index(v: Seq<Seq<char>>, key: Seq<char>, k: int)
    requires
        0 <= k,
    ensures
        first_index(v, key, k) matches Some(i) ==> k <= i < v.len() && v[i] == key && forall|j: int|
            k <= j < i ==> v[j] != key,
        first_index(v, key, k) is None ==> forall|j: int| k <= j < v.len() ==> v[j] != key,
    decreases v.len() - k,
{
    if k < v.len() && v[k] != key {
        lemma_first_index(v, key, k + 1);
    }
}

/// Index of the first string of `v` equal to `key`.
pub fn position_of(v: &Vec<String>, key: &String) -> (r: Option<usize>)
    ensures
        r matches Some(i) ==> first_index(strs(v@), key@, 0) == Some(i as int),
        r is None ==> first_index(strs(v@), key@, 0) is None,
{
    let mut k: usize = 0;
    while k < v.len()
        invariant
            k <= v@.len(),
            first_index(strs(v@), key@, 0) == first_index(strs(v@), key@, k as int),
        decreases v@.len() - k,
    {
        if v[k] == *key {
            return Some(k);
        }
        k = k + 1;
    }
    None
}

/// A note: its text, where it is stored and its metadata.
#[derive(Debug, Clone)]
pub struct Note {
    pub title: String,
    pub content: String,
    pub path: String,
    pub modified: Timestamp,
    pub created: Timestamp,
    pub dirty: bool,
    pub title_lower: String,
    pub content_lower: String,
    pub tags: Vec<String>,
    pub tags_lower: Vec<String>,
    pub tags_dirty: bool,
    pub bookmarked: bool,
    pub bookmark_slot: Option<u8>,
}

/// `n` is `o` after adding tag `tag`: the trimmed tag is appended (and its
/// lowercase form) unless it is blank or already present case-insensitively.
pub open spec fn tag_added(o: Note, n: Note, tag: Seq<char>) -> bool {
    let t = trim(tag);
    if t.len() == 0 || first_index(strs(o.tags_lower@), lowercase(t), 0) is Some {
        n == o
    } else {
        &&& strs(n.tags@) == strs(o.tags@).push(t)
        &&& strs(n.tags_lower@) == strs(o.tags_lower@).push(lowercase(t))
        &&& n == (Note { tags: n.tags, tags_lower: n.tags_lower, tags_dirty: true, ..o })
    }
}

/// Adding the same tag twice is the same as adding it once.
pub proof fn lemma_add_tag_idempotent(a: Note, b: Note, c: Note, tag: Seq<char>)
    requires
        tag_added(a, b, tag),
        tag_added(b, c, tag),
    ensures
        c == b,
{
    let t = trim(tag);
    if !(t.len() == 0 || first_index(strs(a.tags_lower@), lowercase(t), 0) is Some) {
        let l = strs(b.tags_lower@);
        lemma_first_index(l, lowercase(t), 0);
        assert(l[l.len() - 1] == lowercase(t));
    }
}

/// Adding a tag keeps the lowercase fields in agreement.
pub proof fn lemma_add_tag_keeps_wf(a: Note, b: Note, tag: Seq<char>)
    requires
        a.wf(),
        tag_added(a, b, tag),
    ensures
        b.wf(),
{
    let t = trim(tag);
    if !(t.len() == 0 || first_index(strs(a.tags_lower@), lowercase(t), 0) is Some) {
        assert(lowered(strs(b.tags@)) =~= lowered(strs(a.tags@)).push(lowercase(t)));
    }
}

impl Note {
    /// The lowercase fields agree with the fields they mirror.
    pub open spec fn wf(&self) -> bool {
        &&& self.title_lower@ == lowercase(self.title@)
        &&& self.content_lower@ == lowercase(self.content@)
        &&& strs(self.tags_lower@) == lowered(strs(self.tags@))
    }

    /// Tags and bookmark fields of a fresh note.
    pub open spec fn fresh_meta(&self) -> bool {
        &&& !self.dirty
        &&& self.tags@.len() == 0
        &&& self.tags_lower@.len() == 0
        &&& !self.tags_dirty
        &&& !self.bookmarked
        &&& self.bookmark_slot is None
    }

    pub fn new(title: String, content: String, path: String, modified: Timestamp) -> (r: Self)
        ensures
            r.title@ == title@,
            r.content@ == content@,
            r.path@ == path@,
            r.modified == modified,
            r.created == modified,
            r.wf(),
            r.fresh_meta(),
    {
        Self::with_created(title, content, path, modified, modified)
    }

    pub fn with_created(
        title: String,
        content: String,
        path: String,
        modified: Timestamp,
        created: Timestamp,
    ) -> (r: Self)
        ensures
            r.title@ == title@,
            r.content@ == content@,
            r.path@ == path@,
            r.modified == modified,
            r.created == created,
            r.wf(),
            r.fresh_meta(),
    {
        let title_lower = to_lowercase(title.as_str());
        let content_lower = to_lowercase(content.as_str());
        let r = Self {
            title,
            content,
            path,
            modified,
            created,
            dirty: false,
            title_lower,
            content_lower,
            tags: Vec::new(),
            tags_lower: Vec::new(),
            tags_dirty: false,
            bookmarked: false,
            bookmark_slot: None,
        };
        proof {
            assert(strs(r.tags_lower@) =~= lowered(strs(r.tags@)));
        }
        r
    }

    /// Replace the content; a change marks the note dirty and sets its
    /// modification time to the current time.
    pub fn update_content(&mut self, new_content: String)
        ensures
            old(self).content@ == new_content@ ==> *final(self) == *old(self),
            old(self).content@ != new_content@ ==> {
                &&& final(self).content@ == new_content@
                &&& final(self).content_lower@ == lowercase(new_content@)
                &&& final(self).dirty
                &&& final(self).title == old(self).title
                &&& final(self).title_lower == old(self).title_lower
                &&& final(self).path == old(self).path
                &&& final(self).created == old(self).created
                &&& final(self).tags == old(self).tags
                &&& final(self).tags_lower == old(self).tags_lower
                &&& final(self).tags_dirty == old(self).tags_dirty
                &&& final(self).bookmarked == old(self).bookmarked
                &&& final(self).bookmark_slot == old(self).bookmark_slot
            },
    {
        if !str_eq(self.content.as_str(), new_content.as_str()) {
            self.content_lower = to_lowercase(new_content.as_str());
            self.content = new_content;
            self.dirty = true;
            self.modified = Timestamp::now();
        }
    }

    pub fn update_title(&mut self, new_title: String)
        ensures
            final(self).title@ == new_title@,
            final(self).title_lower@ == lowercase(new_title@),
            final(self).content == old(self).content,
            final(self).content_lower == old(self).content_lower,
            final(self).path == old(self).path,
            final(self).modified == old(self).modified,
            final(self).created == old(self).created,
            final(self).dirty == old(self).dirty,
            final(self).tags == old(self).tags,
            final(self).tags_lower == old(self).tags_lower,
            final(self).tags_dirty == old(self).tags_dirty,
            final(self).bookmarked == old(self).bookmarked,
            final(self).bookmark_slot == old(self).bookmark_slot,
    {
        self.title_lower = to_lowercase(new_title.as_str());
        self.title = new_title;
    }

    pub fn mark_saved(&mut self)
        ensures
            *final(self) == (Note { dirty: false, ..*old(self) }),
    {
        self.dirty = false;
    }

    /// Set the full tags list, replacing any existing tags.
    pub fn set_tags(&mut self, tags: Vec<String>)
        ensures
            *final(self) == (Note { tags: tags, tags_lower: final(self).tags_lower, tags_dirty: true, ..*old(self) }),
            strs(final(self).tags_lower@) == lowered(strs(tags@)),
    {
        let mut lower: Vec<String> = Vec::new();
        let mut k: usize = 0;
        while k < tags.len()
            invariant
                k <= tags@.len(),
                strs(lower@) == lowered(strs(tags@)).take(k as int),
            decreases tags@.len() - k,
        {
            let ghost prev = lower@;
            let l = to_lowercase(tags[k].as_str());
            lower.push(l);
            proof {
                assert(strs(tags@)[k as int] == tags@[k as int]@);
                assert(lowered(strs(tags@))[k as int] == lowercase(tags@[k as int]@));
                assert(strs(lower@) =~= strs(prev).push(lowercase(tags@[k as int]@)));
                assert(lowered(strs(tags@)).take(k + 1) =~= lowered(strs(tags@)).take(k as int).push(
                    lowercase(tags@[k as int]@),
                ));
            }
            k = k + 1;
        }
        proof {
            assert(lowered(strs(tags@)).take(k as int) =~= lowered(strs(tags@)));
        }
        self.tags = tags;
        self.tags_lower = lower;
        self.tags_dirty = true;
    }

    /// Add a tag if it doesn't already exist (case-insensitive dedup).
    pub fn add_tag(&mut self, tag: &str)
        ensures
            tag_added(*old(self), *final(self), tag@),
    {
        let tag_trimmed = trim_string(tag);
        if tag_trimmed.as_str().is_empty() {
            proof {
                assert(tag_trimmed@.len() == 0);
            }
            return;
        }
        proof {
            assert(tag_trimmed@.len() > 0);
        }
        let tag_lower = to_lowercase(tag_trimmed.as_str());
        if position_of(&self.tags_lower, &tag_lower).is_some() {
            return;
        }
        let ghost t0 = self.tags@;
        let ghost l0 = self.tags_lower@;
        self.tags.push(tag_trimmed);
        self.tags_lower.push(tag_lower);
        self.tags_dirty = true;
        proof {
            assert(strs(self.tags@) =~= strs(t0).push(trim(tag@)));
            assert(strs(self.tags_lower@) =~= strs(l0).push(lowercase(trim(tag@))));
        }
    }

    /// Remove a tag by exact name (case-insensitive match).
    pub fn remove_tag(&mut self, tag: &str)
        requires
            old(self).can_remove_tag(tag@),
        ensures
            match first_index(strs(old(self).tags_lower@), lowercase(tag@), 0) {
                None => *final(self) == *old(self),
                Some(p) => {
                    &&& final(self).tags@ == old(self).tags@.remove(p)
                    &&& final(self).tags_lower@ == old(self).tags_lower@.remove(p)
                    &&& *final(self) == (Note {
                        tags: final(self).tags,
                        tags_lower: final(self).tags_lower,
                        tags_dirty: true,
                        ..*old(self)
                    })
                },
            },
    {
        let tag_lower = to_lowercase(tag);
        proof {
            lemma_first_index(strs(self.tags_lower@), lowercase(tag@), 0);
        }
        match position_of(&self.tags_lower, &tag_lower) {
            Some(pos) => {
                self.tags.remove(pos);
                self.tags_lower.remove(pos);
                self.tags_dirty = true;
            },
            None => {},
        }
    }

    /// Whether `remove_tag(tag)` can run: the first lowercase tag equal to the
    /// lowercased `tag`, if any, has a tag at its position.
    pub open spec fn can_remove_tag(&self, tag: Seq<char>) -> bool {
        first_index(strs(self.tags_lower@), lowercase(tag), 0) matches Some(p) ==> p
            < self.tags@.len()
    }

    /// `remove_tag` where it can run (`true`); the note is left unchanged
    /// where removing would index past the tags (`false`).
    pub fn try_remove_tag(&mut self, tag: &str) -> (r: bool)
        ensures
            r == old(self).can_remove_tag(tag@),
            !r ==> *final(self) == *old(self),
            r ==> match first_index(strs(old(self).tags_lower@), lowercase(tag@), 0) {
                None => *final(self) == *old(self),
                Some(p) => {
                    &&& final(self).tags@ == old(self).tags@.remove(p)
                    &&& final(self).tags_lower@ == old(self).tags_lower@.remove(p)
                    &&& *final(self) == (Note {
                        tags: final(self).tags,
                        tags_lower: final(self).tags_lower,
                        tags_dirty: true,
                        ..*old(self)
                    })
                },
            },
    {
        let tag_lower = to_lowercase(tag);
        match position_of(&self.tags_lower, &tag_lower) {
            Some(pos) => {
                if pos >= self.tags.len() {
                    return false;
                }
            },
            None => {},
        }
        self.remove_tag(tag);
        true
    }

    /// Mark tags as saved (reset the tags_dirty flag).
    pub fn mark_tags_saved(&mut self)
        ensures
            *final(self) == (Note { tags_dirty: false, ..*old(self) }),
    {
        self.tags_dirty = false;
    }
}


/// Value of the first entry for `key` in an association list.
pub open spec fn assoc_get(idx: Seq<(String, usize)>, key: Seq<char>) -> Option<usize>
    decreases idx.len(),
{
    if idx.len() == 0 {
        None
    } else if idx[0].0@ == key {
        Some(idx[0].1)
    } else {
        assoc_get(idx.drop_first(), key)
    }
}

/// Values of all entries for `key` in a multimap list, in order.
pub open spec fn multi_get(idx: Seq<(String, usize)>, key: Seq<char>) -> Seq<usize>
    decreases idx.len(),
{
    if idx.len() == 0 {
        Seq::empty()
    } else if idx.last().0@ == key {
        multi_get(idx.drop_last(), key).push(idx.last().1)
    } else {
        multi_get(idx.drop_last(), key)
    }
}

/// Index of the last note of `notes[..n]` whose lowercase title is `key`.
pub open spec fn last_title(notes: Seq<Note>, n: int, key: Seq<char>) -> Option<usize>
    decreases n,
{
    if n <= 0 {
        None
    } else if notes[n - 1].title_lower@ == key {
        Some((n - 1) as usize)
    } else {
        last_title(notes, n - 1, key)
    }
}

/// Number of times `key` occurs in `v`.
pub open spec fn count_of(v: Seq<Seq<char>>, key: Seq<char>) -> nat
    decreases v.len(),
{
    if v.len() == 0 {
        0
    } else {
        count_of(v.drop_last(), key) + if v.last() == key {
            1nat
        } else {
            0nat
        }
    }
}

/// `n` copies of `i`.
pub open spec fn repeat(i: usize, n: nat) -> Seq<usize> {
    Seq::new(n, |j: int| i)
}

/// The note indices under tag `key` for `notes[..n]`: each note's index once
/// per occurrence of `key` among its lowercase tags, in note order.
pub open spec fn tag_positions(notes: Seq<Note>, n: int, key: Seq<char>) -> Seq<usize>
    decreases n,
{
    if n <= 0 {
        Seq::empty()
    } else {
        tag_positions(notes, n - 1, key) + repeat(
            (n - 1) as usize,
            count_of(strs(notes[n - 1].tags_lower@), key),
        )
    }
}

/// Case-insensitively distinct tags of `notes[..n]`, each the first spelling met.
pub open spec fn unique_tags(notes: Seq<Note>, n: int) -> Seq<Seq<char>>
    decreases n,
{
    if n <= 0 {
        Seq::empty()
    } else {
        add_unique(unique_tags(notes, n - 1), strs(notes[n - 1].tags@))
    }
}

/// `acc` extended by the tags of `ts` whose lowercase form is new.
pub open spec fn add_unique(acc: Seq<Seq<char>>, ts: Seq<Seq<char>>) -> Seq<Seq<char>>
    decreases ts.len(),
{
    if ts.len() == 0 {
        acc
    } else {
        let prev = add_unique(acc, ts.drop_last());
        if first_index(lowered(prev), lowercase(ts.last()), 0) is Some {
            prev
        } else {
            prev.push(ts.last())
        }
    }
}

/// Lexicographic order of char sequences (`String`'s order).
pub open spec fn seq_lt(a: Seq<char>, b: Seq<char>) -> bool
    decreases a.len(),
{
    if b.len() == 0 {
        false
    } else if a.len() == 0 {
        true
    } else if a[0] != b[0] {
        a[0] < b[0]
    } else {
        seq_lt(a.drop_first(), b.drop_first())
    }
}

/// First position in `sorted` whose key is greater than `x`'s.
pub open spec fn ins_pos_lower(sorted: Seq<Seq<char>>, x: Seq<char>, j: int) -> int
    decreases sorted.len() - j,
{
    if j < 0 || j >= sorted.len() {
        sorted.len() as int
    } else if seq_lt(lowercase(x), lowercase(sorted[j])) {
        j
    } else {
        ins_pos_lower(sorted, x, j + 1)
    }
}

/// Stable sort by lowercase form (insertion of each element after all
/// elements whose key is not greater).
pub open spec fn sort_by_lower(s: Seq<Seq<char>>) -> Seq<Seq<char>>
    decreases s.len(),
{
    if s.len() == 0 {
        s
    } else {
        let sorted = sort_by_lower(s.drop_last());
        sorted.insert(ins_pos_lower(sorted, s.last(), 0), s.last())
    }
}

/// First position in `sorted` whose modification time is before `x`'s.
pub open spec fn ins_pos_modified(sorted: Seq<Note>, x: Note, j: int) -> int
    decreases sorted.len() - j,
{
    if j < 0 || j >= sorted.len() {
        sorted.len() as int
    } else if ts_lt(sorted[j].modified, x.modified) {
        j
    } else {
        ins_pos_modified(sorted, x, j + 1)
    }
}

/// Stable sort by modification time, newest first.
pub open spec fn sort_by_modified_spec(s: Seq<Note>) -> Seq<Note>
    decreases s.len(),
{
    if s.len() == 0 {
        s
    } else {
        let sorted = sort_by_modified_spec(s.drop_last());
        sorted.insert(ins_pos_modified(sorted, s.last(), 0), s.last())
    }
}

pub proof fn lemma_ins_pos_lower(sorted: Seq<Seq<char>>, x: Seq<char>, j: int)
    requires
        0 <= j <= sorted.len(),
    ensures
        j <= ins_pos_lower(sorted, x, j) <= sorted.len(),
    decreases sorted.len() - j,
{
    if j < sorted.len() && !seq_lt(lowercase(x), lowercase(sorted[j])) {
        lemma_ins_pos_lower(sorted, x, j + 1);
    }
}

pub proof fn lemma_ins_pos_modified(sorted: Seq<Note>, x: Note, j: int)
    requires
        0 <= j <= sorted.len(),
    ensures
        j <= ins_pos_modified(sorted, x, j) <= sorted.len(),
    decreases sorted.len() - j,
{
    if j < sorted.len() && !ts_lt(sorted[j].modified, x.modified) {
        lemma_ins_pos_modified(sorted, x, j + 1);
    }
}

pub proof fn lemma_sort_by_lower_len(s: Seq<Seq<char>>)
    ensures
        sort_by_lower(s).len() == s.len(),
    decreases s.len(),
{
    if s.len() > 0 {
        lemma_sort_by_lower_len(s.drop_last());
        lemma_ins_pos_lower(sort_by_lower(s.drop_last()), s.last(), 0);
    }
}

pub proof fn lemma_sort_by_modified_len(s: Seq<Note>)
    ensures
        sort_by_modified_spec(s).len() == s.len(),
    decreases s.len(),
{
    if s.len() > 0 {
        lemma_sort_by_modified_len(s.drop_last());
        lemma_ins_pos_modified(sort_by_modified_spec(s.drop_last()), s.last(), 0);
    }
}

/// Whether `a` sorts before `b` (`String`'s order).
pub fn chars_lt(a: &[char], b: &[char]) -> (r: bool)
    ensures
        r == seq_lt(a@, b@),
{
    let mut i: usize = 0;
    proof {
        assert(a@.skip(0) =~= a@);
        assert(b@.skip(0) =~= b@);
    }
    while i < a.len() && i < b.len() && a[i] == b[i]
        invariant
            i <= a@.len(),
            i <= b@.len(),
            seq_lt(a@, b@) == seq_lt(a@.skip(i as int), b@.skip(i as int)),
        decreases a@.len() - i,
    {
        proof {
            assert(a@.skip(i as int).drop_first() =~= a@.skip(i + 1));
            assert(b@.skip(i as int).drop_first() =~= b@.skip(i + 1));
            assert(a@.skip(i as int)[0] == a@[i as int]);
            assert(b@.skip(i as int)[0] == b@[i as int]);
        }
        i = i + 1;
    }
    proof {
        if i < a@.len() {
            assert(a@.skip(i as int)[0] == a@[i as int]);
        }
        if i < b@.len() {
            assert(b@.skip(i as int)[0] == b@[i as int]);
        }
    }
    if i == b.len() {
        false
    } else if i == a.len() {
        true
    } else {
        a[i] < b[i]
    }
}

/// The notes, with an index from lowercase title to note and one from
/// lowercase tag to the notes that carry it.
pub struct NoteStore {
    pub notes: Vec<Note>,
    title_index: Vec<(String, usize)>,
    tag_index: Vec<(String, usize)>,
}

impl NoteStore {
    /// The note index the title index holds for lowercase title `key`.
    pub closed spec fn title_lookup(&self, key: Seq<char>) -> Option<usize> {
        assoc_get(self.title_index@, key)
    }

    /// The note indices the tag index holds for lowercase tag `key`.
    pub closed spec fn tag_lookup(&self, key: Seq<char>) -> Seq<usize> {
        multi_get(self.tag_index@, key)
    }

    /// The notes in store order.
    pub closed spec fn notes_view(&self) -> Seq<Note> {
        self.notes@
    }

    /// Both indices describe the current notes.
    pub closed spec fn indexed(&self) -> bool {
        &&& forall|k: Seq<char>| #[trigger]
            self.title_lookup(k) == last_title(self.notes@, self.notes@.len() as int, k)
        &&& forall|k: Seq<char>| #[trigger]
            self.tag_lookup(k) == tag_positions(self.notes@, self.notes@.len() as int, k)
    }

    pub fn new() -> (r: Self)
        ensures
            r.notes_view().len() == 0,
            r.indexed(),
    {
        let r = Self { notes: Vec::new(), title_index: Vec::new(), tag_index: Vec::new() };
        proof {
            assert forall|k: Seq<char>| #[trigger] r.tag_lookup(k) == tag_positions(
                r.notes@,
                0,
                k,
            ) by {
                assert(r.tag_lookup(k) =~= Seq::<usize>::empty());
            }
        }
        r
    }

    /// Point `key` at `i` in the title index.
    fn title_insert(&mut self, key: String, i: usize)
        ensures
            final(self).notes == old(self).notes,
            final(self).tag_index == old(self).tag_index,
            forall|k: Seq<char>| #[trigger]
                final(self).title_lookup(k) == if k == key@ {
                    Some(i)
                } else {
                    old(self).title_lookup(k)
                },
    {
        let mut j: usize = 0;
        while j < self.title_index.len()
            invariant
                j <= self.title_index@.len(),
                self.notes == old(self).notes,
                self.tag_index == old(self).tag_index,
                self.title_index == old(self).title_index,
                forall|m: int| 0 <= m < j ==> (#[trigger] self.title_index@[m]).0@ != key@,
            decreases self.title_index@.len() - j,
        {
            if self.title_index[j].0 == key {
                let ghost old_idx = self.title_index@;
                self.title_index.set(j, (key, i));
                proof {
                    assert forall|k: Seq<char>| #[trigger]
                        assoc_get(self.title_index@, k) == if k == key@ {
                            Some(i)
                        } else {
                            assoc_get(old_idx, k)
                        } by {
                        lemma_assoc_update(old_idx, j as int, key, i, k);
                    }
                }
                return;
            }
            j = j + 1;
        }
        let ghost old_idx = self.title_index@;
        self.title_index.push((key, i));
        proof {
            assert forall|k: Seq<char>| #[trigger]
                assoc_get(self.title_index@, k) == if k == key@ {
                    Some(i)
                } else {
                    assoc_get(old_idx, k)
                } by {
                lemma_assoc_push(old_idx, key, i, k);
            }
        }
    }

    /// Add note `i`'s entries for `tags` to the tag index.
    fn tag_insert_all(&mut self, tags: &Vec<String>, i: usize)
        ensures
            final(self).notes == old(self).notes,
            final(self).title_index == old(self).title_index,
            forall|k: Seq<char>| #[trigger]
                final(self).tag_lookup(k) == old(self).tag_lookup(k) + repeat(
                    i,
                    count_of(strs(tags@), k),
                ),
    {
        let ghost start = self.tag_index@;
        let mut t: usize = 0;
        while t < tags.len()
            invariant
                t <= tags@.len(),
                self.notes == old(self).notes,
                self.title_index == old(self).title_index,
                start == old(self).tag_index@,
                forall|k: Seq<char>| #[trigger]
                    multi_get(self.tag_index@, k) == multi_get(start, k) + repeat(
                        i,
                        count_of(strs(tags@).take(t as int), k),
                    ),
            decreases tags@.len() - t,
        {
            let ghost before = self.tag_index@;
            self.tag_index.push((tags[t].clone(), i));
            proof {
                assert forall|k: Seq<char>| #[trigger]
                    multi_get(self.tag_index@, k) == multi_get(start, k) + repeat(
                        i,
                        count_of(strs(tags@).take(t + 1), k),
                    ) by {
                    assert(self.tag_index@.drop_last() =~= before);
                    assert(self.tag_index@.last() == (tags@[t as int], i));
                    assert(strs(tags@).take(t + 1).drop_last() =~= strs(tags@).take(t as int));
                    assert(strs(tags@).take(t + 1).last() == tags@[t as int]@);
                    if tags@[t as int]@ == k {
                        assert(multi_get(self.tag_index@, k) == multi_get(before, k).push(i));
                        assert(repeat(i, count_of(strs(tags@).take(t + 1), k)) =~= repeat(
                            i,
                            count_of(strs(tags@).take(t as int), k),
                        ).push(i));
                        assert(multi_get(self.tag_index@, k) =~= multi_get(start, k) + repeat(
                            i,
                            count_of(strs(tags@).take(t + 1), k),
                        ));
                    } else {
                        assert(multi_get(self.tag_index@, k) == multi_get(before, k));
                        assert(count_of(strs(tags@).take(t + 1), k) == count_of(strs(tags@).take(t as int), k));
                    }
                }
            }
            t = t + 1;
        }
        proof {
            assert(strs(tags@).take(t as int) =~= strs(tags@));
        }
    }

    pub fn rebuild_index(&mut self)
        ensures
            final(self).notes_view() == old(self).notes_view(),
            final(self).indexed(),
    {
        self.title_index = Vec::new();
        let mut i: usize = 0;
        while i < self.notes.len()
            invariant
                i <= self.notes@.len(),
                self.notes == old(self).notes,
                forall|k: Seq<char>| #[trigger]
                    self.title_lookup(k) == last_title(self.notes@, i as int, k),
            decreases self.notes@.len() - i,
        {
            let key = self.notes[i].title_lower.clone();
            self.title_insert(key, i);
            i = i + 1;
        }
        self.rebuild_tag_index();
    }

    /// Rebuild the tag index from all notes.
    pub fn rebuild_tag_index(&mut self)
        ensures
            final(self).notes_view() == old(self).notes_view(),
            forall|k: Seq<char>| #[trigger]
                final(self).title_lookup(k) == old(self).title_lookup(k),
            forall|k: Seq<char>| #[trigger]
                final(self).tag_lookup(k) == tag_positions(
                    final(self).notes_view(),
                    final(self).notes_view().len() as int,
                    k,
                ),
    {
        self.tag_index = Vec::new();
        let mut i: usize = 0;
        proof {
            assert forall|k: Seq<char>| #[trigger] self.tag_lookup(k) == tag_positions(
                self.notes@,
                0,
                k,
            ) by {
                assert(self.tag_lookup(k) =~= Seq::<usize>::empty());
            }
        }
        while i < self.notes.len()
            invariant
                i <= self.notes@.len(),
                self.notes == old(self).notes,
                self.title_index == old(self).title_index,
                forall|k: Seq<char>| #[trigger]
                    self.tag_lookup(k) == tag_positions(self.notes@, i as int, k),
            decreases self.notes@.len() - i,
        {
            let tags = self.notes[i].tags_lower.clone();
            proof {
                assert(tags@ == self.notes@[i as int].tags_lower@);
            }
            self.tag_insert_all(&tags, i);
            i = i + 1;
        }
    }
}

proof fn lemma_assoc_update(idx: Seq<(String, usize)>, j: int, key: String, i: usize, k: Seq<char>)
    requires
        0 <= j < idx.len(),
        idx[j].0@ == key@,
        forall|m: int| 0 <= m < j ==> (#[trigger] idx[m]).0@ != key@,
    ensures
        assoc_get(idx.update(j, (key, i)), k) == if k == key@ {
            Some(i)
        } else {
            assoc_get(idx, k)
        },
    decreases j,
{
    let u = idx.update(j, (key, i));
    if j > 0 {
        assert(u.drop_first() =~= idx.drop_first().update(j - 1, (key, i)));
        assert(u[0] == idx[0]);
        assert(idx[0].0@ != key@);
        lemma_assoc_update(idx.drop_first(), j - 1, key, i, k);
    } else {
        assert(u.drop_first() =~= idx.drop_first());
        assert(u[0] == (key, i));
    }
}

proof fn lemma_assoc_push(idx: Seq<(String, usize)>, key: String, i: usize, k: Seq<char>)
    requires
        forall|m: int| 0 <= m < idx.len() ==> (#[trigger] idx[m]).0@ != key@,
    ensures
        assoc_get(idx.push((key, i)), k) == if k == key@ {
            Some(i)
        } else {
            assoc_get(idx, k)
        },
    decreases idx.len(),
{
    let u = idx.push((key, i));
    if idx.len() > 0 {
        assert(u.drop_first() =~= idx.drop_first().push((key, i)));
        assert(u[0] == idx[0]);
        assert(idx[0].0@ != key@);
        lemma_assoc_push(idx.drop_first(), key, i, k);
    } else {
        assert(u.drop_first() =~= Seq::<(String, usize)>::empty());
        assert(assoc_get(u.drop_first(), k) is None);
        assert(u[0] == (key, i));
    }
}


impl NoteStore {
    /// When the store is indexed, the title index gives the last note with
    /// each lowercase title and the tag index the notes under each tag.
    pub proof fn lemma_indexed(&self, k: Seq<char>)
        requires
            self.indexed(),
        ensures
            self.title_lookup(k) == last_title(self.notes_view(), self.notes_view().len() as int, k),
            self.tag_lookup(k) == tag_positions(self.notes_view(), self.notes_view().len() as int, k),
    {
    }

    /// Return all unique tag names sorted alphabetically (for autocomplete).
    pub fn all_tags(&self) -> (r: Vec<String>)
        ensures
            strs(r@) == sort_by_lower(unique_tags(self.notes_view(), self.notes_view().len() as int)),
    {
        let mut tags: Vec<String> = Vec::new();
        let mut lows: Vec<String> = Vec::new();
        let mut i: usize = 0;
        while i < self.notes.len()
            invariant
                i <= self.notes@.len(),
                strs(tags@) == unique_tags(self.notes@, i as int),
                strs(lows@) == lowered(strs(tags@)),
            decreases self.notes@.len() - i,
        {
            let note = &self.notes[i];
            let ghost acc0 = strs(tags@);
            let mut t: usize = 0;
            while t < note.tags.len()
                invariant
                    t <= note.tags@.len(),
                    strs(tags@) == add_unique(acc0, strs(note.tags@).take(t as int)),
                    strs(lows@) == lowered(strs(tags@)),
                decreases note.tags@.len() - t,
            {
                let tl = to_lowercase(note.tags[t].as_str());
                proof {
                    let ts = strs(note.tags@).take(t + 1);
                    assert(ts.drop_last() =~= strs(note.tags@).take(t as int));
                    assert(ts.last() == note.tags@[t as int]@);
                }
                if position_of(&lows, &tl).is_none() {
                    let ghost b0 = tags@;
                    let ghost b1 = lows@;
                    let ghost x = note.tags@[t as int]@;
                    tags.push(note.tags[t].clone());
                    lows.push(tl);
                    proof {
                        assert(strs(tags@) =~= strs(b0).push(x));
                        assert(strs(lows@) =~= strs(b1).push(lowercase(x)));
                        assert(lowered(strs(b0).push(x)) =~= lowered(strs(b0)).push(lowercase(x)));
                    }
                }
                t = t + 1;
            }
            proof {
                assert(strs(note.tags@).take(t as int) =~= strs(note.tags@));
            }
            i = i + 1;
        }
        // Stable insertion sort by lowercase form
        let mut sorted: Vec<String> = Vec::new();
        let mut skeys: Vec<Vec<char>> = Vec::new();
        let mut k: usize = 0;
        while k < tags.len()
            invariant
                k <= tags@.len(),
                lows@.len() == tags@.len(),
                strs(lows@) == lowered(strs(tags@)),
                strs(sorted@) == sort_by_lower(strs(tags@).take(k as int)),
                skeys@.len() == sorted@.len(),
                forall|j: int| 0 <= j < skeys@.len() ==> (#[trigger] skeys@[j])@ == lowercase(sorted@[j]@),
            decreases tags@.len() - k,
        {
            let ghost s0 = strs(sorted@);
            let ghost x = tags@[k as int]@;
            proof {
                let ts = strs(tags@).take(k + 1);
                assert(ts.drop_last() =~= strs(tags@).take(k as int));
                assert(ts.last() == x);
                assert(strs(lows@)[k as int] == lows@[k as int]@);
                assert(strs(tags@)[k as int] == x);
                assert(lowered(strs(tags@))[k as int] == lowercase(strs(tags@)[k as int]));
                assert(lows@[k as int]@ == lowercase(x));
            }
            let key = chars_of(lows[k].as_str());
            let mut j: usize = 0;
            proof {
                lemma_ins_pos_lower(s0, x, 0);
            }
            while j < sorted.len() && !chars_lt(key.as_slice(), skeys[j].as_slice())
                invariant
                    j <= sorted@.len(),
                    s0 == strs(sorted@),
                    key@ == lowercase(x),
                    skeys@.len() == sorted@.len(),
                    forall|m: int| 0 <= m < skeys@.len() ==> (#[trigger] skeys@[m])@ == lowercase(sorted@[m]@),
                    ins_pos_lower(s0, x, 0) == ins_pos_lower(s0, x, j as int),
                decreases sorted@.len() - j,
            {
                proof {
                    assert(s0[j as int] == sorted@[j as int]@);
                }
                j = j + 1;
            }
            proof {
                if j < sorted@.len() {
                    assert(s0[j as int] == sorted@[j as int]@);
                }
                assert(ins_pos_lower(s0, x, 0) == j);
            }
            let ghost sk0 = skeys@;
            let ghost so0 = sorted@;
            sorted.insert(j, tags[k].clone());
            skeys.insert(j, key);
            proof {
                assert(strs(sorted@) =~= s0.insert(j as int, x));
                assert forall|m: int| 0 <= m < skeys@.len() implies (#[trigger] skeys@[m])@
                    == lowercase(sorted@[m]@) by {
                    if m < j {
                        assert(skeys@[m] == sk0[m]);
                        assert(sorted@[m] == so0[m]);
                    } else if m > j {
                        assert(skeys@[m] == sk0[m - 1]);
                        assert(sorted@[m] == so0[m - 1]);
                    }
                }
            }
            k = k + 1;
        }
        proof {
            assert(strs(tags@).take(k as int) =~= strs(tags@));
        }
        sorted
    }

    pub fn add(&mut self, note: Note)
        ensures
            final(self).notes_view() == old(self).notes_view().push(note),
            forall|k: Seq<char>| #[trigger]
                final(self).title_lookup(k) == if k == note.title_lower@ {
                    Some(old(self).notes_view().len() as usize)
                } else {
                    old(self).title_lookup(k)
                },
            forall|k: Seq<char>| #[trigger]
                final(self).tag_lookup(k) == old(self).tag_lookup(k) + repeat(
                    old(self).notes_view().len() as usize,
                    count_of(strs(note.tags_lower@), k),
                ),
            old(self).indexed() ==> final(self).indexed(),
    {
        let key = note.title_lower.clone();
        let idx = self.notes.len();
        // Update tag index for the new note
        self.tag_insert_all(&note.tags_lower, idx);
        let ghost mid_self: NoteStore = *self;
        let ghost before = self.notes@;
        let ghost gnote = note;
        let ghost mid_tags = self.tag_index@;
        self.notes.push(note);
        self.title_insert(key, idx);
        proof {
            assert(self.notes@ =~= before.push(gnote));
            assert(self.tag_index@ == mid_tags);
            assert(key@ == gnote.title_lower@);
            assert forall|k: Seq<char>| #[trigger] self.tag_lookup(k) == old(self).tag_lookup(k)
                + repeat(idx, count_of(strs(gnote.tags_lower@), k)) by {
                assert(mid_self.tag_lookup(k) == old(self).tag_lookup(k) + repeat(
                    idx,
                    count_of(strs(gnote.tags_lower@), k),
                ));
                assert(multi_get(self.tag_index@, k) == multi_get(mid_tags, k));
            }
            assert forall|k: Seq<char>| #[trigger] self.title_lookup(k) == if k == gnote.title_lower@ {
                Some(idx)
            } else {
                old(self).title_lookup(k)
            } by {
                assert(mid_self.title_index == old(self).title_index);
                assert(mid_self.title_lookup(k) == old(self).title_lookup(k));
            }
            if old(self).indexed() {
                assert forall|k: Seq<char>| #[trigger]
                    self.title_lookup(k) == last_title(self.notes@, self.notes@.len() as int, k) by {
                    assert(old(self).title_lookup(k) == last_title(before, before.len() as int, k));
                    lemma_last_title_prefix(before, self.notes@, before.len() as int, k);
                }
                assert forall|k: Seq<char>| #[trigger]
                    self.tag_lookup(k) == tag_positions(self.notes@, self.notes@.len() as int, k) by {
                    assert(old(self).tag_lookup(k) == tag_positions(before, before.len() as int, k));
                    lemma_tag_positions_prefix(before, self.notes@, before.len() as int, k);
                }
            }
        }
    }

    pub fn remove(&mut self, index: usize) -> (r: Note)
        requires
            index < old(self).notes_view().len(),
        ensures
            r == old(self).notes_view()[index as int],
            final(self).notes_view() == old(self).notes_view().remove(index as int),
            final(self).indexed(),
    {
        let note = self.notes.remove(index);
        self.rebuild_index();
        note
    }

    pub fn find_by_title(&self, title: &str) -> (r: Option<usize>)
        ensures
            r == self.title_lookup(lowercase(title@)),
    {
        let key = to_lowercase(title);
        let mut j: usize = 0;
        proof {
            assert(self.title_index@.skip(0) =~= self.title_index@);
        }
        while j < self.title_index.len()
            invariant
                j <= self.title_index@.len(),
                key@ == lowercase(title@),
                assoc_get(self.title_index@, key@) == assoc_get(self.title_index@.skip(j as int), key@),
            decreases self.title_index@.len() - j,
        {
            proof {
                assert(self.title_index@.skip(j as int)[0] == self.title_index@[j as int]);
                assert(self.title_index@.skip(j as int).drop_first() =~= self.title_index@.skip(j + 1));
            }
            if self.title_index[j].0 == key {
                return Some(self.title_index[j].1);
            }
            j = j + 1;
        }
        proof {
            assert(self.title_index@.skip(j as int) =~= Seq::<(String, usize)>::empty());
        }
        None
    }

    pub fn get(&self, index: usize) -> (r: Option<&Note>)
        ensures
            index < self.notes_view().len() ==> r == Some(&self.notes_view()[index as int]),
            index >= self.notes_view().len() ==> r is None,
    {
        if index < self.notes.len() {
            Some(&self.notes[index])
        } else {
            None
        }
    }

    pub fn len(&self) -> (r: usize)
        ensures
            r == self.notes_view().len(),
    {
        self.notes.len()
    }

    pub fn is_empty(&self) -> (r: bool)
        ensures
            r == (self.notes_view().len() == 0),
    {
        self.notes.len() == 0
    }

    pub fn sort_by_modified(&mut self)
        ensures
            final(self).notes_view() == sort_by_modified_spec(old(self).notes_view()),
            final(self).indexed(),
    {
        let mut rest: Vec<Note> = Vec::new();
        std::mem::swap(&mut rest, &mut self.notes);
        let n: usize = rest.len();
        let ghost all = rest@;
        proof {
            assert(all.skip(0) =~= all);
            assert(all.take(0) =~= Seq::<Note>::empty());
        }
        let mut sorted: Vec<Note> = Vec::new();
        let mut k: usize = 0;
        while rest.len() > 0
            invariant
                k <= all.len(),
                all.len() <= usize::MAX,
                rest@ == all.skip(k as int),
                sorted@ == sort_by_modified_spec(all.take(k as int)),
            decreases rest@.len(),
        {
            let x = rest.remove(0);
            proof {
                assert(x == all[k as int]);
                let ts = all.take(k + 1);
                assert(ts.drop_last() =~= all.take(k as int));
                assert(ts.last() == all[k as int]);
                assert(rest@ =~= all.skip(k + 1));
                lemma_ins_pos_modified(sorted@, x, 0);
            }
            let mut j: usize = 0;
            while j < sorted.len() && !sorted[j].modified.before(&x.modified)
                invariant
                    j <= sorted@.len(),
                    ins_pos_modified(sorted@, x, 0) == ins_pos_modified(sorted@, x, j as int),
                decreases sorted@.len() - j,
            {
                j = j + 1;
            }
            sorted.insert(j, x);
            k = k + 1;
        }
        proof {
            assert(all.take(k as int) =~= all);
        }
        self.notes = sorted;
        self.rebuild_index();
    }
}

/// After `add`, looking the note's title up finds the new note.
pub proof fn lemma_find_added(before: NoteStore, after: NoteStore, note: Note)
    requires
        note.wf(),
        forall|k: Seq<char>| #[trigger]
            after.title_lookup(k) == if k == note.title_lower@ {
                Some(before.notes_view().len() as usize)
            } else {
                before.title_lookup(k)
            },
    ensures
        after.title_lookup(lowercase(note.title@)) == Some(before.notes_view().len() as usize),
{
    assert(after.title_lookup(lowercase(note.title@)) == after.title_lookup(note.title_lower@));
}

pub proof fn lemma_ins_pos_modified_facts(sorted: Seq<Note>, x: Note, j: int)
    requires
        0 <= j <= sorted.len(),
    ensures
        forall|m: int| j <= m < ins_pos_modified(sorted, x, j) ==> !ts_lt(sorted[m].modified, x.modified),
        ins_pos_modified(sorted, x, j) < sorted.len() ==> ts_lt(
            sorted[ins_pos_modified(sorted, x, j)].modified,
            x.modified,
        ),
    decreases sorted.len() - j,
{
    if j < sorted.len() && !ts_lt(sorted[j].modified, x.modified) {
        lemma_ins_pos_modified_facts(sorted, x, j + 1);
    }
}

/// `sort_by_modified` puts newer notes first: no note is older than a later one.
pub proof fn lemma_sort_by_modified_ordered(s: Seq<Note>)
    ensures
        sort_by_modified_spec(s).len() == s.len(),
        forall|i: int, j: int|
            0 <= i < j < sort_by_modified_spec(s).len() ==> !ts_lt(
                (#[trigger] sort_by_modified_spec(s)[i]).modified,
                (#[trigger] sort_by_modified_spec(s)[j]).modified,
            ),
    decreases s.len(),
{
    if s.len() > 0 {
        lemma_sort_by_modified_ordered(s.drop_last());
        let sorted = sort_by_modified_spec(s.drop_last());
        let x = s.last();
        lemma_ins_pos_modified(sorted, x, 0);
        lemma_ins_pos_modified_facts(sorted, x, 0);
        let p = ins_pos_modified(sorted, x, 0);
        let r = sorted.insert(p, x);
        assert forall|i: int, j: int| 0 <= i < j < r.len() implies !ts_lt(
            (#[trigger] r[i]).modified,
            (#[trigger] r[j]).modified,
        ) by {
            if i < p && j < p {
                assert(r[i] == sorted[i] && r[j] == sorted[j]);
            } else if i < p && j == p {
                assert(r[i] == sorted[i]);
            } else if i < p {
                assert(r[i] == sorted[i] && r[j] == sorted[j - 1]);
            } else if i == p {
                assert(r[j] == sorted[j - 1]);
                if j - 1 > p {
                    assert(!ts_lt(sorted[p].modified, sorted[j - 1].modified));
                }
            } else {
                assert(r[i] == sorted[i - 1] && r[j] == sorted[j - 1]);
            }
        }
    }
}

/// `seq_lt` is asymmetric (so irreflexive).
pub proof fn lemma_seq_lt_asym(a: Seq<char>, b: Seq<char>)
    ensures
        seq_lt(a, b) ==> !seq_lt(b, a),
    decreases a.len(),
{
    if a.len() > 0 && b.len() > 0 && a[0] == b[0] {
        lemma_seq_lt_asym(a.drop_first(), b.drop_first());
    }
}

/// `seq_lt` is transitive.
pub proof fn lemma_seq_lt_trans(a: Seq<char>, b: Seq<char>, c: Seq<char>)
    requires
        seq_lt(a, b),
        seq_lt(b, c),
    ensures
        seq_lt(a, c),
    decreases a.len(),
{
    if a.len() > 0 && a[0] == b[0] && b[0] == c[0] {
        lemma_seq_lt_trans(a.drop_first(), b.drop_first(), c.drop_first());
    }
}

/// Inserting `x` into `s` adds exactly `x` to what `s` contains.
pub proof fn lemma_insert_contains<A>(s: Seq<A>, p: int, x: A)
    requires
        0 <= p <= s.len(),
    ensures
        forall|y: A| #[trigger] s.insert(p, x).contains(y) <==> (y == x || s.contains(y)),
{
    let r = s.insert(p, x);
    assert forall|y: A| r.contains(y) <==> (y == x || s.contains(y)) by {
        if r.contains(y) {
            let i = choose|i: int| 0 <= i < r.len() && r[i] == y;
            if i < p {
                assert(r[i] == s[i]);
            } else if i > p {
                assert(r[i] == s[i - 1]);
            }
        }
        if y == x {
            assert(r[p] == x);
        }
        if s.contains(y) {
            let i = choose|i: int| 0 <= i < s.len() && s[i] == y;
            if i < p {
                assert(r[i] == y);
            } else {
                assert(r[i + 1] == y);
            }
        }
    }
}

/// Inserting a new element into a sequence without duplicates keeps it so.
pub proof fn lemma_insert_no_dup<A>(s: Seq<A>, p: int, x: A)
    requires
        s.no_duplicates(),
        !s.contains(x),
        0 <= p <= s.len(),
    ensures
        s.insert(p, x).no_duplicates(),
        forall|y: A| #[trigger] s.insert(p, x).contains(y) <==> (y == x || s.contains(y)),
{
    let r = s.insert(p, x);
    assert forall|i: int, j: int| 0 <= i < r.len() && 0 <= j < r.len() && i != j implies r[i] != r[j] by {
        if i != p && j != p {
            let si = if i < p {
                i
            } else {
                i - 1
            };
            let sj = if j < p {
                j
            } else {
                j - 1
            };
            assert(r[i] == s[si] && r[j] == s[sj]);
        } else if i == p {
            let sj = if j < p {
                j
            } else {
                j - 1
            };
            assert(r[j] == s[sj]);
        } else {
            let si = if i < p {
                i
            } else {
                i - 1
            };
            assert(r[i] == s[si]);
        }
    }
    lemma_insert_contains(s, p, x);
}

pub proof fn lemma_ins_pos_lower_facts(sorted: Seq<Seq<char>>, x: Seq<char>, j: int)
    requires
        0 <= j <= sorted.len(),
    ensures
        forall|m: int|
            j <= m < ins_pos_lower(sorted, x, j) ==> !seq_lt(lowercase(x), lowercase(#[trigger] sorted[m])),
        ins_pos_lower(sorted, x, j) < sorted.len() ==> seq_lt(
            lowercase(x),
            lowercase(sorted[ins_pos_lower(sorted, x, j)]),
        ),
    decreases sorted.len() - j,
{
    if j < sorted.len() && !seq_lt(lowercase(x), lowercase(sorted[j])) {
        lemma_ins_pos_lower_facts(sorted, x, j + 1);
    }
}

/// `sort_by_lower` orders by lowercase form and keeps the same strings, and
/// distinct lowercase forms stay distinct.
pub proof fn lemma_sort_by_lower_ordered(s: Seq<Seq<char>>)
    ensures
        sort_by_lower(s).len() == s.len(),
        forall|i: int, j: int|
            0 <= i < j < sort_by_lower(s).len() ==> !seq_lt(
                lowercase(#[trigger] sort_by_lower(s)[j]),
                lowercase(#[trigger] sort_by_lower(s)[i]),
            ),
        forall|k: Seq<char>| #[trigger] lowered(sort_by_lower(s)).contains(k) <==> lowered(s).contains(k),
        lowered(s).no_duplicates() ==> lowered(sort_by_lower(s)).no_duplicates(),
    decreases s.len(),
{
    if s.len() > 0 {
        let prev = s.drop_last();
        lemma_sort_by_lower_ordered(prev);
        let sorted = sort_by_lower(prev);
        let x = s.last();
        lemma_ins_pos_lower(sorted, x, 0);
        lemma_ins_pos_lower_facts(sorted, x, 0);
        let p = ins_pos_lower(sorted, x, 0);
        let r = sorted.insert(p, x);
        assert(sort_by_lower(s) == r);
        assert forall|i: int, j: int| 0 <= i < j < r.len() implies !seq_lt(
            lowercase(#[trigger] r[j]),
            lowercase(#[trigger] r[i]),
        ) by {
            if i < p && j < p {
                assert(r[i] == sorted[i] && r[j] == sorted[j]);
            } else if i < p && j == p {
                assert(r[i] == sorted[i]);
            } else if i < p {
                assert(r[i] == sorted[i] && r[j] == sorted[j - 1]);
            } else if i == p {
                assert(r[j] == sorted[j - 1]);
                lemma_seq_lt_asym(lowercase(x), lowercase(sorted[p]));
                if j - 1 > p {
                    assert(!seq_lt(lowercase(sorted[j - 1]), lowercase(sorted[p])));
                    if seq_lt(lowercase(sorted[j - 1]), lowercase(x)) {
                        lemma_seq_lt_trans(
                            lowercase(sorted[j - 1]),
                            lowercase(x),
                            lowercase(sorted[p]),
                        );
                    }
                }
            } else {
                assert(r[i] == sorted[i - 1] && r[j] == sorted[j - 1]);
            }
        }
        let ls = lowered(sorted);
        assert(lowered(r) =~= ls.insert(p, lowercase(x)));
        assert(lowered(s) =~= lowered(prev).insert(lowered(prev).len() as int, lowercase(x)));
        lemma_insert_contains(ls, p, lowercase(x));
        lemma_insert_contains(lowered(prev), lowered(prev).len() as int, lowercase(x));
        if lowered(s).no_duplicates() {
            assert(lowered(prev).no_duplicates()) by {
                assert forall|a: int, b: int|
                    0 <= a < lowered(prev).len() && 0 <= b < lowered(prev).len() && a != b implies lowered(
                    prev,
                )[a] != lowered(prev)[b] by {
                    assert(lowered(prev)[a] == lowered(s)[a] && lowered(prev)[b] == lowered(s)[b]);
                }
            }
            assert(!ls.contains(lowercase(x))) by {
                if ls.contains(lowercase(x)) {
                    assert(lowered(prev).contains(lowercase(x)));
                    let k = choose|k: int| 0 <= k < lowered(prev).len() && lowered(prev)[k] == lowercase(x);
                    assert(lowered(s)[k] == lowered(s)[prev.len() as int]);
                }
            }
            lemma_insert_no_dup(ls, p, lowercase(x));
        }
    }
}

/// `add_unique` keeps the lowercase forms distinct and ends up holding the
/// lowercase form of every string it was given.
pub proof fn lemma_add_unique(acc: Seq<Seq<char>>, ts: Seq<Seq<char>>)
    ensures
        lowered(acc).no_duplicates() ==> lowered(add_unique(acc, ts)).no_duplicates(),
        forall|k: Seq<char>| #[trigger] lowered(acc).contains(k) ==> lowered(add_unique(acc, ts)).contains(k),
        forall|t: int| 0 <= t < ts.len() ==> lowered(add_unique(acc, ts)).contains(lowercase(#[trigger] ts[t])),
    decreases ts.len(),
{
    if ts.len() > 0 {
        let prev = add_unique(acc, ts.drop_last());
        lemma_add_unique(acc, ts.drop_last());
        let x = ts.last();
        let lp = lowered(prev);
        lemma_first_index(lp, lowercase(x), 0);
        if first_index(lp, lowercase(x), 0) is None {
            assert(lowered(prev.push(x)) =~= lp.insert(lp.len() as int, lowercase(x)));
            lemma_insert_contains(lp, lp.len() as int, lowercase(x));
            if lowered(acc).no_duplicates() {
                assert(!lp.contains(lowercase(x)));
                lemma_insert_no_dup(lp, lp.len() as int, lowercase(x));
            }
        } else {
            let i = first_index(lp, lowercase(x), 0)->0;
            assert(lp.contains(lowercase(x))) by {
                assert(lp[i] == lowercase(x));
            }
        }
        assert forall|t: int| 0 <= t < ts.len() implies lowered(add_unique(acc, ts)).contains(
            lowercase(#[trigger] ts[t]),
        ) by {
            if t < ts.len() - 1 {
                assert(ts[t] == ts.drop_last()[t]);
            }
        }
    }
}

/// The tags that `all_tags` lists for `notes` are in alphabetical order
/// ignoring case, no two of them are equal ignoring case, and every tag of
/// every note is listed in some casing.
pub proof fn lemma_all_tags_sorted_unique(notes: Seq<Note>)
    ensures
        ({
            let r = sort_by_lower(unique_tags(notes, notes.len() as int));
            &&& forall|i: int, j: int|
                0 <= i < j < r.len() ==> !seq_lt(lowercase(#[trigger] r[j]), lowercase(#[trigger] r[i]))
            &&& lowered(r).no_duplicates()
            &&& forall|n: int, t: int|
                0 <= n < notes.len() && 0 <= t < notes[n].tags@.len() ==> lowered(r).contains(
                    lowercase(#[trigger] notes[n].tags@[t]@),
                )
        }),
{
    lemma_unique_tags(notes, notes.len() as int);
    lemma_sort_by_lower_ordered(unique_tags(notes, notes.len() as int));
}

proof fn lemma_unique_tags(notes: Seq<Note>, k: int)
    requires
        k <= notes.len(),
    ensures
        lowered(unique_tags(notes, k)).no_duplicates(),
        forall|n: int, t: int|
            0 <= n < k && 0 <= t < notes[n].tags@.len() ==> lowered(unique_tags(notes, k)).contains(
                lowercase(#[trigger] notes[n].tags@[t]@),
            ),
    decreases k,
{
    if k > 0 {
        lemma_unique_tags(notes, k - 1);
        let prev = unique_tags(notes, k - 1);
        let ts = strs(notes[k - 1].tags@);
        lemma_add_unique(prev, ts);
        assert forall|n: int, t: int|
            0 <= n < k && 0 <= t < notes[n].tags@.len() implies lowered(unique_tags(notes, k)).contains(
            lowercase(#[trigger] notes[n].tags@[t]@),
        ) by {
            if n == k - 1 {
                assert(ts[t] == notes[n].tags@[t]@);
            } else {
                assert(lowered(prev).contains(lowercase(notes[n].tags@[t]@)));
            }
        }
    } else {
        assert(lowered(unique_tags(notes, k)) =~= Seq::<Seq<char>>::empty());
    }
}

/// `last_title` over a prefix shared by two note sequences.
proof fn lemma_last_title_prefix(a: Seq<Note>, b: Seq<Note>, n: int, k: Seq<char>)
    requires
        0 <= n <= a.len(),
        n <= b.len(),
        forall|j: int| 0 <= j < n ==> a[j] == b[j],
    ensures
        last_title(a, n, k) == last_title(b, n, k),
    decreases n,
{
    if n > 0 {
        lemma_last_title_prefix(a, b, n - 1, k);
    }
}

/// `tag_positions` over a prefix shared by two note sequences.
proof fn lemma_tag_positions_prefix(a: Seq<Note>, b: Seq<Note>, n: int, k: Seq<char>)
    requires
        0 <= n <= a.len(),
        n <= b.len(),
        forall|j: int| 0 <= j < n ==> a[j] == b[j],
    ensures
        tag_positions(a, n, k) == tag_positions(b, n, k),
    decreases n,
{
    if n > 0 {
        lemma_tag_positions_prefix(a, b, n - 1, k);
    }
}


impl NoteStore {
    pub fn get_mut(&mut self, index: usize) -> (r: Option<&mut Note>)
        ensures
            index >= old(self).notes_view().len() ==> r is None && *final(self) == *old(self),
            index < old(self).notes_view().len() ==> {
                &&& r is Some
                &&& *r.unwrap() == old(self).notes_view()[index as int]
                &&& final(self).notes_view() == old(self).notes_view().update(
                    index as int,
                    *final(r.unwrap()),
                )
                &&& forall|k: Seq<char>| #[trigger]
                    final(self).title_lookup(k) == old(self).title_lookup(k)
                &&& forall|k: Seq<char>| #[trigger]
                    final(self).tag_lookup(k) == old(self).tag_lookup(k)
            },
    {
        if index < self.notes.len() {
            Some(&mut self.notes[index])
        } else {
            None
        }
    }
}

} // verus!
