//! Naming rules for note files and their sidecar metadata, and the note
//! built from a file's parts.
use vstd::prelude::*;
use crate::import::{extension_of, file_stem_of, opt_str, path_extension, path_file_stem};
use crate::note::{strs, Note, Timestamp};
use crate::text::{
    chars_of, is_ws, lemma_ws_prefix_len, lemma_ws_suffix_start, push_str, string_from_chars,
    string_from_range, to_string, trim, trim_bounds, trim_start, ws_prefix_len, ws_suffix_start,
};

verus! {

/// Sidecar metadata stored alongside each note as `<filename>.meta.json`.
#[derive(Debug)]
pub struct NoteMeta {
    pub tags: Vec<String>,
}

impl Default for NoteMeta {
    fn default() -> (r: Self)
        ensures
            r.tags@.len() == 0,
    {
        NoteMeta { tags: Vec::new() }
    }
}

/// A change to a note file seen by the file watcher.
#[derive(Debug)]
pub enum FsChange {
    Created(String),
    Modified(String),
    Removed(String),
}

/// The kind of a file-watcher event.
#[derive(Debug, Clone, Copy, PartialEq, Eq, Structural)]
pub enum WatchKind {
    Create,
    Modify,
    Remove,
    Other,
}

/// Get the sidecar metadata path for a note file.
/// e.g. `foo.txt` -> `foo.txt.meta.json`
pub fn meta_path(note_path: &str) -> (r: String)
    ensures
        r@ == note_path@ + ".meta.json"@,
{
    let mut p = to_string(note_path);
    push_str(&mut p, ".meta.json");
    p
}

/// Characters that cannot stand in a file name.
pub open spec fn invalid_in_filename(c: char) -> bool {
    c == '/' || c == '\\' || c == ':' || c == '*' || c == '?' || c == '"' || c == '<' || c == '>'
        || c == '|'
}

/// `s` without the characters that cannot stand in a file name.
pub open spec fn valid_chars(s: Seq<char>) -> Seq<char>
    decreases s.len(),
{
    if s.len() == 0 {
        Seq::empty()
    } else if invalid_in_filename(s.last()) {
        valid_chars(s.drop_last())
    } else {
        valid_chars(s.drop_last()).push(s.last())
    }
}

/// Whether `s` holds no character that cannot stand in a file name.
pub open spec fn filename_safe(s: Seq<char>) -> bool {
    forall|i: int| 0 <= i < s.len() ==> !invalid_in_filename(#[trigger] s[i])
}

proof fn lemma_valid_chars_safe(s: Seq<char>)
    ensures
        filename_safe(valid_chars(s)),
        filename_safe(s) ==> valid_chars(s) == s,
    decreases s.len(),
{
    if s.len() > 0 {
        let prev = s.drop_last();
        lemma_valid_chars_safe(prev);
        if filename_safe(s) {
            assert(filename_safe(prev)) by {
                assert forall|i: int| 0 <= i < prev.len() implies !invalid_in_filename(#[trigger] prev[i]) by {
                    assert(prev[i] == s[i]);
                }
            }
            assert(!invalid_in_filename(s[s.len() - 1]));
            assert(prev.push(s.last()) =~= s);
        }
    }
}

proof fn lemma_trim_facts(t: Seq<char>)
    ensures
        trim(trim(t)) == trim(t),
        filename_safe(t) ==> filename_safe(trim(t)),
{
    let w = trim_start(t);
    lemma_ws_prefix_len(t);
    lemma_ws_suffix_start(w);
    let u = trim(t);
    assert(u == w.take(ws_suffix_start(w)));
    if u.len() > 0 {
        assert(u[0] == w[0]);
        assert(!is_ws(u[0]));
        assert(u.last() == w[ws_suffix_start(w) - 1]);
    }
    assert(ws_prefix_len(u) == 0);
    assert(trim_start(u) =~= u);
    assert(ws_suffix_start(u) == u.len()) by {
        if u.len() > 0 {
            assert(!is_ws(u.last()));
        }
    }
    assert(trim(u) =~= u);
    if filename_safe(t) {
        assert forall|i: int| 0 <= i < u.len() implies !invalid_in_filename(#[trigger] u[i]) by {
            assert(u[i] == t[i + ws_prefix_len(t)]);
        }
    }
}

/// A sanitized file name holds no character that cannot stand in a file
/// name, and sanitizing it again gives it back.
pub proof fn lemma_sanitize_clean(name: Seq<char>)
    ensures
        filename_safe(trim(valid_chars(name))),
        trim(valid_chars(trim(valid_chars(name)))) == trim(valid_chars(name)),
{
    let v = valid_chars(name);
    lemma_valid_chars_safe(name);
    lemma_trim_facts(v);
    lemma_valid_chars_safe(trim(v));
}

/// One of the nine characters a file name cannot hold: `/ \ : * ? " < > |`.
pub open spec fn forbidden_in_name(c: char) -> bool {
    seq!['/', '\\', ':', '*', '?', '"', '<', '>', '|'].contains(c)
}

/// Sanitizing a title removes exactly the nine characters `/ \ : * ? " < > |`
/// and keeps every other one in order, then trims the outer white space; so
/// a title without those characters and without outer white space comes back
/// unchanged.
pub proof fn lemma_sanitize_keeps_other_chars(name: Seq<char>)
    ensures
        valid_chars(name) == name.filter(|c: char| !forbidden_in_name(c)),
        trim(valid_chars(name)) == trim(name.filter(|c: char| !forbidden_in_name(c))),
        (forall|i: int| 0 <= i < name.len() ==> !forbidden_in_name(#[trigger] name[i])) && trim(name)
            == name ==> trim(valid_chars(name)) == name,
    decreases name.len(),
{
    reveal(Seq::filter);
    let pred = |c: char| !forbidden_in_name(c);
    if name.len() > 0 {
        lemma_sanitize_keeps_other_chars(name.drop_last());
        assert(valid_chars(name) == name.filter(pred));
    } else {
        assert(valid_chars(name) == name.filter(pred));
    }
    if forall|i: int| 0 <= i < name.len() ==> !forbidden_in_name(#[trigger] name[i]) {
        lemma_filter_all(name, pred);
    }
}

proof fn lemma_filter_all(s: Seq<char>, pred: spec_fn(char) -> bool)
    requires
        forall|i: int| 0 <= i < s.len() ==> pred(#[trigger] s[i]),
    ensures
        s.filter(pred) == s,
    decreases s.len(),
{
    reveal(Seq::filter);
    if s.len() > 0 {
        let p = s.drop_last();
        assert forall|i: int| 0 <= i < p.len() implies pred(#[trigger] p[i]) by {
            assert(p[i] == s[i]);
        }
        lemma_filter_all(p, pred);
        assert(pred(s[s.len() - 1]));
        assert(p.push(s.last()) =~= s);
    }
}

/// Remove characters that are invalid in filenames.
pub fn sanitize_filename(name: &str) -> (r: String)
    ensures
        r@ == trim(valid_chars(name@)),
{
    let v = chars_of(name);
    let mut kept: Vec<char> = Vec::new();
    let mut i: usize = 0;
    while i < v.len()
        invariant
            i <= v@.len(),
            kept@ == valid_chars(v@.take(i as int)),
        decreases v@.len() - i,
    {
        let c = v[i];
        proof {
            assert(v@.take(i + 1).drop_last() =~= v@.take(i as int));
            assert(v@.take(i + 1).last() == c);
        }
        if !(c == '/' || c == '\\' || c == ':' || c == '*' || c == '?' || c == '"' || c == '<'
            || c == '>' || c == '|') {
            kept.push(c);
        }
        i = i + 1;
    }
    proof {
        assert(v@.take(i as int) =~= v@);
    }
    let (a, b) = trim_bounds(kept.as_slice(), 0, kept.len());
    proof {
        assert(kept@.subrange(0, kept@.len() as int) =~= kept@);
    }
    string_from_range(kept.as_slice(), a, b)
}

/// The title a new or renamed note gets: the sanitized title, or an error
/// when nothing of it is left.
pub fn validate_title(title: &str) -> (r: Result<String, String>)
    ensures
        trim(valid_chars(title@)).len() > 0 ==> (r matches Ok(s) && s@ == trim(valid_chars(title@))),
        trim(valid_chars(title@)).len() == 0 ==> (r matches Err(e) && e@ == "Invalid note title"@),
{
    let sanitized = sanitize_filename(title);
    if sanitized.as_str().is_empty() {
        Err(to_string("Invalid note title"))
    } else {
        Ok(sanitized)
    }
}

/// The file name of a note with a sanitized title.
pub fn note_file_name(sanitized: &str) -> (r: String)
    ensures
        r@ == sanitized@ + ".txt"@,
{
    let mut p = to_string(sanitized);
    push_str(&mut p, ".txt");
    p
}

/// The error for a note file that already exists.
pub fn duplicate_note_error(sanitized: &str) -> (r: String)
    ensures
        r@ == "Note '"@ + sanitized@ + "' already exists"@,
{
    let mut p = to_string("Note '");
    push_str(&mut p, sanitized);
    push_str(&mut p, "' already exists");
    p
}

/// Whether `path` names a `.txt` file (the watcher and the loader only look
/// at those).
pub fn is_txt_path(path: &str) -> (r: bool)
    ensures
        r == (path_extension(path@) == Some("txt"@)),
{
    match extension_of(path) {
        Some(e) => crate::text::str_eq(e.as_str(), "txt"),
        None => false,
    }
}

/// The change a watcher event of `kind` on `path` reports.
pub fn change_for_event(kind: WatchKind, path: String) -> (r: Option<FsChange>)
    ensures
        match kind {
            WatchKind::Create => r matches Some(FsChange::Created(p)) && p@ == path@,
            WatchKind::Modify => r matches Some(FsChange::Modified(p)) && p@ == path@,
            WatchKind::Remove => r matches Some(FsChange::Removed(p)) && p@ == path@,
            WatchKind::Other => r is None,
        },
{
    match kind {
        WatchKind::Create => Some(FsChange::Created(path)),
        WatchKind::Modify => Some(FsChange::Modified(path)),
        WatchKind::Remove => Some(FsChange::Removed(path)),
        WatchKind::Other => None,
    }
}

/// The note loaded from a file: titled by the file name without extension
/// (`None` when the path has none), with the given content and times, and the
/// sidecar's tags (then not dirty).
pub fn note_from_file(
    path: &str,
    content: String,
    modified: Timestamp,
    created: Timestamp,
    meta: NoteMeta,
) -> (r: Option<Note>)
    ensures
        path_file_stem(path@) is None ==> r is None,
        path_file_stem(path@) matches Some(t) ==> (r matches Some(n) && {
            &&& n.title@ == t
            &&& n.content@ == content@
            &&& n.path@ == path@
            &&& n.modified == modified
            &&& n.created == created
            &&& n.wf()
            &&& !n.dirty
            &&& strs(n.tags@) == strs(meta.tags@)
            &&& !n.tags_dirty
            &&& !n.bookmarked
            &&& n.bookmark_slot is None
        }),
{
    let title = match file_stem_of(path) {
        Some(t) => t,
        None => {
            return None;
        },
    };
    let mut note = Note::with_created(title, content, to_string(path), modified, created);
    // Load tags from sidecar metadata
    if meta.tags.len() > 0 {
        note.set_tags(meta.tags);
        note.mark_tags_saved();
    } else {
        proof {
            assert(strs(note.tags@) =~= strs(meta.tags@));
        }
    }
    Some(note)
}

} // verus!
