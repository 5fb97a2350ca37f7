//! Text model shared by the whole library.
//!
//! A `&str` is seen as the sequence of its chars (`s@`); byte offsets into the
//! UTF-8 encoding are described by `byte_offset`.
use vstd::prelude::*;
use vstd::string::StringSliceAdditionalSpecFns;
use vstd::utf8::*;

verus! {

/// Number of bytes in the UTF-8 encoding of `c`.
pub open spec fn char_width(c: char) -> nat {
    encode_scalar(c as u32).len()
}

/// Byte offset of the char at index `i` in the UTF-8 encoding of `s`.
pub open spec fn byte_offset(s: Seq<char>, i: int) -> int {
    encode_utf8(s.take(i)).len() as int
}

/// Encoding a concatenation is the concatenation of the encodings.
pub proof fn lemma_encode_utf8_concat(a: Seq<char>, b: Seq<char>)
    ensures
        encode_utf8(a + b) == encode_utf8(a) + encode_utf8(b),
    decreases a.len(),
{
    if a.len() == 0 {
        assert(a + b =~= b);
        assert(encode_utf8(a) =~= Seq::<u8>::empty());
        assert(encode_utf8(a) + encode_utf8(b) =~= encode_utf8(b));
    } else {
        lemma_encode_utf8_concat(a.drop_first(), b);
        assert((a + b).drop_first() =~= a.drop_first() + b);
        assert((a + b)[0] == a[0]);
        assert(encode_utf8(a + b) =~= encode_scalar(a[0] as u32) + encode_utf8(a.drop_first() + b));
        assert(encode_utf8(a) + encode_utf8(b) =~= encode_scalar(a[0] as u32) + (encode_utf8(
            a.drop_first(),
        ) + encode_utf8(b)));
    }
}

/// The encoding of a single char has its width as length.
pub proof fn lemma_encode_single(c: char)
    ensures
        encode_utf8(seq![c]) =~= encode_scalar(c as u32),
        1 <= char_width(c) <= 4,
{
    assert(seq![c].drop_first() =~= Seq::<char>::empty());
    assert(encode_utf8(Seq::<char>::empty()) =~= Seq::<u8>::empty());
}

/// One more char moves the byte offset by the width of that char.
pub proof fn lemma_byte_offset_step(s: Seq<char>, i: int)
    requires
        0 <= i < s.len(),
    ensures
        byte_offset(s, i + 1) == byte_offset(s, i) + char_width(s[i]),
{
    assert(s.take(i + 1) =~= s.take(i) + seq![s[i]]);
    lemma_encode_utf8_concat(s.take(i), seq![s[i]]);
    lemma_encode_single(s[i]);
}

/// Byte offsets grow strictly with the char index.
pub proof fn lemma_byte_offset_mono(s: Seq<char>, i: int, j: int)
    requires
        0 <= i <= j <= s.len(),
    ensures
        byte_offset(s, i) + (j - i) <= byte_offset(s, j),
        byte_offset(s, j) <= byte_offset(s, i) + 4 * (j - i),
    decreases j - i,
{
    if i < j {
        lemma_byte_offset_mono(s, i, j - 1);
        lemma_byte_offset_step(s, j - 1);
        lemma_encode_single(s[j - 1]);
    }
}

/// The first offset is zero and the last is the length of the encoding.
pub proof fn lemma_byte_offset_ends(s: Seq<char>)
    ensures
        byte_offset(s, 0) == 0,
        byte_offset(s, s.len() as int) == encode_utf8(s).len(),
{
    assert(s.take(0) =~= Seq::<char>::empty());
    assert(s.take(s.len() as int) =~= s);
}

/// Width of the UTF-8 encoding of a char.
pub fn utf8_width(c: char) -> (n: usize)
    ensures
        n == char_width(c),
        1 <= n <= 4,
{
    proof {
        lemma_encode_single(c);
        vstd::utf8::char_is_scalar(c);
    }
    let u: u32 = c as u32;
    if u <= 0x7f {
        1
    } else if u <= 0x7ff {
        2
    } else if u <= 0xffff {
        3
    } else {
        4
    }
}

/// The chars of `text` together with the byte offset of each char; the last
/// offset is the byte length of `text`.
pub fn char_table(text: &str) -> (r: (Vec<char>, Vec<usize>))
    ensures
        r.0@ == text@,
        r.1@.len() == text@.len() + 1,
        forall|i: int| 0 <= i <= text@.len() ==> #[trigger] r.1@[i] == byte_offset(text@, i),
        r.1@[text@.len() as int] == text.spec_bytes().len(),
{
    let total: usize = text.as_bytes().len();
    let ghost s = text@;
    proof {
        lemma_byte_offset_ends(s);
    }
    let mut chars: Vec<char> = Vec::new();
    let mut offs: Vec<usize> = Vec::new();
    offs.push(0);
    let mut pos: usize = 0;
    for c in it: text.chars()
        invariant
            it.seq() == s,
            chars@ == s.take(it.index() as int),
            offs@.len() == chars@.len() + 1,
            pos == byte_offset(s, chars@.len() as int),
            forall|i: int| 0 <= i <= chars@.len() ==> #[trigger] offs@[i] == byte_offset(s, i),
            total == encode_utf8(s).len(),
            byte_offset(s, s.len() as int) == encode_utf8(s).len(),
    {
        let k: usize = chars.len();
        proof {
            lemma_byte_offset_step(s, k as int);
            lemma_byte_offset_mono(s, k as int + 1, s.len() as int);
            assert(s[k as int] == c);
        }
        let w: usize = utf8_width(c);
        pos = pos + w;
        chars.push(c);
        offs.push(pos);
        proof {
            assert(chars@ =~= s.take(it.index() as int + 1));
        }
    }
    proof {
        assert(chars@ =~= s);
    }
    (chars, offs)
}

/// `push` of one char onto a `String`.
#[verifier::external_body]
pub(crate) fn push_char(s: &mut String, c: char)
    ensures
        final(s)@ == old(s)@.push(c),
{
    s.push(c);
}

/// Append a `&str` onto a `String`.
#[verifier::external_body]
pub(crate) fn push_str(s: &mut String, t: &str)
    ensures
        final(s)@ == old(s)@ + t@,
{
    s.push_str(t);
}

/// A `String` holding exactly the given chars.
pub fn string_from_chars(v: &[char]) -> (r: String)
    ensures
        r@ == v@,
{
    let mut r = String::new();
    let mut i: usize = 0;
    while i < v.len()
        invariant
            i <= v@.len(),
            r@ == v@.take(i as int),
        decreases v@.len() - i,
    {
        push_char(&mut r, v[i]);
        i = i + 1;
        proof {
            assert(r@ =~= v@.take(i as int));
        }
    }
    proof {
        assert(v@.take(i as int) =~= v@);
    }
    r
}

/// A `String` holding the chars `v[from..to]`.
pub fn string_from_range(v: &[char], from: usize, to: usize) -> (r: String)
    requires
        from <= to <= v@.len(),
    ensures
        r@ == v@.subrange(from as int, to as int),
{
    let mut r = String::new();
    let mut i: usize = from;
    while i < to
        invariant
            from <= i <= to <= v@.len(),
            r@ == v@.subrange(from as int, i as int),
        decreases to - i,
    {
        push_char(&mut r, v[i]);
        i = i + 1;
        proof {
            assert(r@ =~= v@.subrange(from as int, i as int));
        }
    }
    r
}

/// The chars of a `&str`.
pub fn chars_of(text: &str) -> (r: Vec<char>)
    ensures
        r@ == text@,
{
    let mut v: Vec<char> = Vec::new();
    for c in it: text.chars()
        invariant
            v@ == it.seq().take(it.index() as int),
    {
        v.push(c);
        proof {
            assert(v@ =~= it.seq().take(it.index() as int + 1));
        }
    }
    proof {
        assert(v@ =~= text@);
    }
    v
}

/// The chars of a `String`.
pub fn string_chars(text: &String) -> (r: Vec<char>)
    ensures
        r@ == text@,
{
    chars_of(text.as_str())
}

/// Lowercase mapping of a char sequence, as `str::to_lowercase` computes it.
pub uninterp spec fn lowercase(s: Seq<char>) -> Seq<char>;

/// `str::to_lowercase`: the result is named `lowercase` of the input chars;
/// nothing more about the Unicode case mapping is stated.
#[verifier::external_body]
pub(crate) fn to_lowercase(s: &str) -> (r: String)
    ensures
        r@ == lowercase(s@),
{
    s.to_lowercase()
}

/// Unicode `White_Space` property, as `char::is_whitespace` decides it.
pub open spec fn is_ws(c: char) -> bool {
    ||| c == ' '
    ||| ('\x09' <= c && c <= '\x0d')
    ||| c == '\u{85}'
    ||| c == '\u{a0}'
    ||| c == '\u{1680}'
    ||| ('\u{2000}' <= c && c <= '\u{200a}')
    ||| c == '\u{2028}'
    ||| c == '\u{2029}'
    ||| c == '\u{202f}'
    ||| c == '\u{205f}'
    ||| c == '\u{3000}'
}

/// Whether `c` is Unicode white space.
pub fn is_whitespace(c: char) -> (b: bool)
    ensures
        b == is_ws(c),
{
    c == ' ' || ('\x09' <= c && c <= '\x0d') || c == '\u{85}' || c == '\u{a0}' || c == '\u{1680}'
        || ('\u{2000}' <= c && c <= '\u{200a}') || c == '\u{2028}' || c == '\u{2029}' || c
        == '\u{202f}' || c == '\u{205f}' || c == '\u{3000}'
}

/// Index of the first non-white-space char of `s` (or its length).
pub open spec fn ws_prefix_len(s: Seq<char>) -> int
    decreases s.len(),
{
    if s.len() == 0 {
        0
    } else if is_ws(s[0]) {
        1 + ws_prefix_len(s.drop_first())
    } else {
        0
    }
}

/// Index just after the last non-white-space char of `s` (or 0).
pub open spec fn ws_suffix_start(s: Seq<char>) -> int
    decreases s.len(),
{
    if s.len() == 0 {
        0
    } else if is_ws(s.last()) {
        ws_suffix_start(s.drop_last())
    } else {
        s.len() as int
    }
}

/// `str::trim_start`.
pub open spec fn trim_start(s: Seq<char>) -> Seq<char> {
    s.skip(ws_prefix_len(s))
}

/// `str::trim_end`.
pub open spec fn trim_end(s: Seq<char>) -> Seq<char> {
    s.take(ws_suffix_start(s))
}

/// `str::trim`.
pub open spec fn trim(s: Seq<char>) -> Seq<char> {
    trim_end(trim_start(s))
}

pub proof fn lemma_ws_prefix_len(s: Seq<char>)
    ensures
        0 <= ws_prefix_len(s) <= s.len(),
        forall|i: int| 0 <= i < ws_prefix_len(s) ==> is_ws(#[trigger] s[i]),
        ws_prefix_len(s) < s.len() ==> !is_ws(s[ws_prefix_len(s)]),
    decreases s.len(),
{
    if s.len() > 0 && is_ws(s[0]) {
        lemma_ws_prefix_len(s.drop_first());
        assert forall|i: int| 0 <= i < ws_prefix_len(s) implies is_ws(#[trigger] s[i]) by {
            if i > 0 {
                assert(s[i] == s.drop_first()[i - 1]);
            }
        }
    }
}

pub proof fn lemma_ws_suffix_start(s: Seq<char>)
    ensures
        0 <= ws_suffix_start(s) <= s.len(),
        forall|i: int| ws_suffix_start(s) <= i < s.len() ==> is_ws(#[trigger] s[i]),
        ws_suffix_start(s) > 0 ==> !is_ws(s[ws_suffix_start(s) - 1]),
    decreases s.len(),
{
    if s.len() > 0 && is_ws(s.last()) {
        lemma_ws_suffix_start(s.drop_last());
        assert forall|i: int| ws_suffix_start(s) <= i < s.len() implies is_ws(#[trigger] s[i]) by {
            if i < s.len() - 1 {
                assert(s[i] == s.drop_last()[i]);
            }
        }
    }
}

/// Index of the first non-white-space char in `v[from..to]`.
pub fn skip_ws_forward(v: &[char], from: usize, to: usize) -> (r: usize)
    requires
        from <= to <= v@.len(),
    ensures
        from <= r <= to,
        r - from == ws_prefix_len(v@.subrange(from as int, to as int)),
{
    let ghost sub = v@.subrange(from as int, to as int);
    let mut i: usize = from;
    while i < to && is_whitespace(v[i])
        invariant
            from <= i <= to <= v@.len(),
            sub == v@.subrange(from as int, to as int),
            ws_prefix_len(sub) == (i - from) + ws_prefix_len(v@.subrange(i as int, to as int)),
        decreases to - i,
    {
        proof {
            let t = v@.subrange(i as int, to as int);
            assert(t.drop_first() =~= v@.subrange(i as int + 1, to as int));
        }
        i = i + 1;
    }
    proof {
        let t = v@.subrange(i as int, to as int);
        if i < to {
            assert(t[0] == v@[i as int]);
        }
    }
    i
}

/// Index just after the last non-white-space char in `v[from..to]`.
pub fn skip_ws_backward(v: &[char], from: usize, to: usize) -> (r: usize)
    requires
        from <= to <= v@.len(),
    ensures
        from <= r <= to,
        r - from == ws_suffix_start(v@.subrange(from as int, to as int)),
{
    let mut j: usize = to;
    while j > from && is_whitespace(v[j - 1])
        invariant
            from <= j <= to <= v@.len(),
            ws_suffix_start(v@.subrange(from as int, to as int)) == ws_suffix_start(
                v@.subrange(from as int, j as int),
            ),
        decreases j - from,
    {
        proof {
            let t = v@.subrange(from as int, j as int);
            assert(t.last() == v@[j - 1]);
            assert(t.drop_last() =~= v@.subrange(from as int, j - 1));
        }
        j = j - 1;
    }
    proof {
        let t = v@.subrange(from as int, j as int);
        if j > from {
            assert(t.last() == v@[j - 1]);
        }
    }
    j
}

/// `str::trim` of `v[from..to]`, as char bounds.
pub fn trim_bounds(v: &[char], from: usize, to: usize) -> (r: (usize, usize))
    requires
        from <= to <= v@.len(),
    ensures
        from <= r.0 <= r.1 <= to,
        v@.subrange(r.0 as int, r.1 as int) == trim(v@.subrange(from as int, to as int)),
{
    let a: usize = skip_ws_forward(v, from, to);
    let b: usize = skip_ws_backward(v, a, to);
    proof {
        let s = v@.subrange(from as int, to as int);
        assert(s.skip(a - from) =~= v@.subrange(a as int, to as int));
        assert(trim_start(s) =~= v@.subrange(a as int, to as int));
        assert(trim_end(trim_start(s)) =~= v@.subrange(a as int, b as int));
    }
    (a, b)
}

/// `str::trim` as a `String`.
pub fn trim_string(t: &str) -> (r: String)
    ensures
        r@ == trim(t@),
{
    let v = chars_of(t);
    let (a, b) = trim_bounds(v.as_slice(), 0, v.len());
    proof {
        assert(v@.subrange(0, v@.len() as int) =~= v@);
    }
    string_from_range(v.as_slice(), a, b)
}

/// Whether two char sequences are equal.
pub fn chars_eq(a: &[char], b: &[char]) -> (r: bool)
    ensures
        r == (a@ == b@),
{
    if a.len() != b.len() {
        return false;
    }
    let mut i: usize = 0;
    while i < a.len()
        invariant
            a@.len() == b@.len(),
            i <= a@.len(),
            a@.take(i as int) == b@.take(i as int),
        decreases a@.len() - i,
    {
        if a[i] != b[i] {
            assert(a@.take(i as int + 1)[i as int] != b@.take(i as int + 1)[i as int]);
            proof {
                assert(a@[i as int] != b@[i as int]);
            }
            return false;
        }
        i = i + 1;
        proof {
            assert(a@.take(i as int) =~= b@.take(i as int));
        }
    }
    proof {
        assert(a@.take(i as int) =~= a@);
        assert(b@.take(i as int) =~= b@);
    }
    true
}

/// Whether two strings hold the same chars.
pub fn str_eq(a: &str, b: &str) -> (r: bool)
    ensures
        r == (a@ == b@),
{
    let va = chars_of(a);
    let vb = chars_of(b);
    chars_eq(va.as_slice(), vb.as_slice())
}

/// Whether `pat` occurs in `v` at index `at`.
pub open spec fn occurs_at(v: Seq<char>, pat: Seq<char>, at: int) -> bool {
    0 <= at && at + pat.len() <= v.len() && v.subrange(at, at + pat.len() as int) == pat
}

/// Whether `pat` occurs in `v[at..]` at index `at` (checked).
pub fn matches_at(v: &[char], pat: &[char], at: usize) -> (r: bool)
    ensures
        r == occurs_at(v@, pat@, at as int),
{
    if at > v.len() || pat.len() > v.len() - at {
        return false;
    }
    let mut i: usize = 0;
    while i < pat.len()
        invariant
            at + pat@.len() <= v@.len(),
            v@.len() == v.len(),
            i <= pat@.len(),
            forall|k: int| 0 <= k < i ==> v@[at + k] == pat@[k],
        decreases pat@.len() - i,
    {
        if v[at + i] != pat[i] {
            proof {
                assert(v@.subrange(at as int, at + pat@.len())[i as int] != pat@[i as int]);
            }
            return false;
        }
        i = i + 1;
    }
    proof {
        assert(v@.subrange(at as int, at + pat@.len()) =~= pat@);
    }
    true
}

/// `str::contains` on char sequences.
pub open spec fn contains_seq(v: Seq<char>, pat: Seq<char>) -> bool {
    exists|k: int| occurs_at(v, pat, k)
}

/// `str::starts_with` on char sequences.
pub open spec fn starts_with(v: Seq<char>, pat: Seq<char>) -> bool {
    occurs_at(v, pat, 0)
}

/// Whether `pat` occurs anywhere in `v`.
pub fn contains_chars(v: &[char], pat: &[char]) -> (r: bool)
    ensures
        r == contains_seq(v@, pat@),
{
    if pat.len() > v.len() {
        proof {
            assert forall|k: int| !occurs_at(v@, pat@, k) by {}
        }
        return false;
    }
    let last: usize = v.len() - pat.len();
    let mut k: usize = 0;
    loop
        invariant
            pat@.len() <= v@.len(),
            last == v@.len() - pat@.len(),
            k <= last,
            forall|j: int| 0 <= j < k ==> !occurs_at(v@, pat@, j),
        ensures
            forall|j: int| 0 <= j <= last ==> !occurs_at(v@, pat@, j),
        decreases last - k,
    {
        if matches_at(v, pat, k) {
            return true;
        }
        if k == last {
            break;
        }
        k = k + 1;
    }
    proof {
        assert forall|j: int| !occurs_at(v@, pat@, j) by {
            if 0 <= j <= last {
            }
        }
    }
    false
}

/// First index `>= k` where `pat` occurs in `v` (`str::find` from `k`).
pub open spec fn find_from(v: Seq<char>, pat: Seq<char>, k: int) -> Option<int>
    decreases v.len() + 1 - k,
{
    if k < 0 || k + pat.len() > v.len() {
        None
    } else if occurs_at(v, pat, k) {
        Some(k)
    } else {
        find_from(v, pat, k + 1)
    }
}

pub proof fn lemma_find_from(v: Seq<char>, pat: Seq<char>, k: int)
    requires
        0 <= k,
    ensures
        find_from(v, pat, k) matches Some(i) ==> k <= i && occurs_at(v, pat, i) && forall|j: int|
            k <= j < i ==> !occurs_at(v, pat, j),
        find_from(v, pat, k) is None ==> forall|j: int| k <= j ==> !occurs_at(v, pat, j),
    decreases v.len() + 1 - k,
{
    if k + pat.len() <= v.len() && !occurs_at(v, pat, k) {
        lemma_find_from(v, pat, k + 1);
        assert forall|j: int| k <= j && !(j >= k + 1) implies !occurs_at(v, pat, j) by {}
    }
}

/// `str::find` of `pat` in `v`, starting at char `from`.
pub fn find_chars(v: &[char], pat: &[char], from: usize) -> (r: Option<usize>)
    ensures
        r matches Some(i) ==> find_from(v@, pat@, from as int) == Some(i as int),
        r is None ==> find_from(v@, pat@, from as int) is None,
{
    if from > v.len() || pat.len() > v.len() - from {
        return None;
    }
    let last: usize = v.len() - pat.len();
    let mut k: usize = from;
    loop
        invariant
            from <= k <= last,
            last + pat@.len() == v@.len(),
            find_from(v@, pat@, from as int) == find_from(v@, pat@, k as int),
        decreases last - k,
    {
        if matches_at(v, pat, k) {
            return Some(k);
        }
        if k == last {
            proof {
                assert(find_from(v@, pat@, k + 1) is None);
            }
            return None;
        }
        k = k + 1;
    }
}

/// Number of bytes in the UTF-8 encoding of `s`.
pub open spec fn bytes_len(s: Seq<char>) -> int {
    byte_offset(s, s.len() as int)
}

/// The char index of `s` whose byte offset is `b`, when `b` is a char boundary.
pub open spec fn char_at_byte(s: Seq<char>, b: int) -> Option<int> {
    if exists|i: int| 0 <= i <= s.len() && byte_offset(s, i) == b {
        Some(choose|i: int| 0 <= i <= s.len() && byte_offset(s, i) == b)
    } else {
        None
    }
}

/// Two char indices with the same byte offset are equal.
pub proof fn lemma_byte_offset_injective(s: Seq<char>, i: int, j: int)
    requires
        0 <= i <= s.len(),
        0 <= j <= s.len(),
        byte_offset(s, i) == byte_offset(s, j),
    ensures
        i == j,
{
    if i < j {
        lemma_byte_offset_mono(s, i, j);
    } else if j < i {
        lemma_byte_offset_mono(s, j, i);
    }
}

/// The char index at byte `b`, given the byte-offset table of `s` from `char_table`.
pub(crate) fn char_index_at_byte(offs: &[usize], b: usize, Ghost(s): Ghost<Seq<char>>) -> (r: Option<
    usize,
>)
    requires
        offs@.len() == s.len() + 1,
        forall|i: int| 0 <= i <= s.len() ==> #[trigger] offs@[i] == byte_offset(s, i),
    ensures
        r matches Some(i) ==> char_at_byte(s, b as int) == Some(i as int),
        r is None ==> char_at_byte(s, b as int) is None,
{
    let mut i: usize = 0;
    while i < offs.len()
        invariant
            offs@.len() == s.len() + 1,
            forall|k: int| 0 <= k <= s.len() ==> #[trigger] offs@[k] == byte_offset(s, k),
            i <= offs@.len(),
            forall|k: int| 0 <= k < i ==> byte_offset(s, k) != b,
        decreases offs@.len() - i,
    {
        if offs[i] == b {
            proof {
                let w = choose|w: int| 0 <= w <= s.len() && byte_offset(s, w) == b;
                lemma_byte_offset_injective(s, w, i as int);
            }
            return Some(i);
        }
        i = i + 1;
    }
    proof {
        assert forall|k: int| 0 <= k <= s.len() implies byte_offset(s, k) != b by {
            assert(k < i);
        }
    }
    None
}

/// The lines of `s[i..]` as `str::lines` yields them: split at `\n`, a `\r` right
/// before a `\n` dropped, no empty line after a final `\n`.
pub open spec fn lines_from(s: Seq<char>, i: int) -> Seq<Seq<char>>
    decreases s.len() - i,
{
    if i < 0 || i >= s.len() {
        Seq::empty()
    } else {
        match find_from(s, seq!['\n'], i) {
            Some(e) => {
                proof {
                    lemma_find_from(s, seq!['\n'], i);
                }
                let line = s.subrange(i, e);
                let line = if line.len() > 0 && line.last() == '\r' {
                    line.drop_last()
                } else {
                    line
                };
                seq![line] + lines_from(s, e + 1)
            },
            None => seq![s.subrange(i, s.len() as int)],
        }
    }
}

/// A non-empty text has at least one line.
pub proof fn lemma_lines_nonempty(s: Seq<char>)
    requires
        s.len() > 0,
    ensures
        lines_from(s, 0).len() > 0,
{
}

/// `str::lines`: the char bounds `(start, end)` of each line of `v`.
pub fn line_bounds(v: &[char]) -> (r: Vec<(usize, usize)>)
    ensures
        r@.len() == lines_from(v@, 0).len(),
        forall|k: int|
            0 <= k < r@.len() ==> (#[trigger] r@[k]).0 <= r@[k].1 <= v@.len() && v@.subrange(
                r@[k].0 as int,
                r@[k].1 as int,
            ) == lines_from(v@, 0)[k],
{
    let mut out: Vec<(usize, usize)> = Vec::new();
    let mut i: usize = 0;
    let nl: [char; 1] = ['\n'];
    proof {
        assert(nl@ =~= seq!['\n']);
    }
    while i < v.len()
        invariant
            nl@ == seq!['\n'],
            i <= v@.len(),
            out@.len() + lines_from(v@, i as int).len() == lines_from(v@, 0).len(),
            forall|k: int|
                0 <= k < lines_from(v@, i as int).len() ==> lines_from(v@, 0)[out@.len() + k]
                    == #[trigger] lines_from(v@, i as int)[k],
            forall|k: int|
                0 <= k < out@.len() ==> (#[trigger] out@[k]).0 <= out@[k].1 <= v@.len()
                    && v@.subrange(out@[k].0 as int, out@[k].1 as int) == lines_from(v@, 0)[k],
        decreases v@.len() - i,
    {
        let ghost before = out@;
        let ghost rest = lines_from(v@, i as int);
        proof {
            lemma_find_from(v@, seq!['\n'], i as int);
        }
        match find_chars(v, nl.as_slice(), i) {
            Some(e) => {
                let mut end: usize = e;
                if e > i && v[e - 1] == '\r' {
                    end = e - 1;
                }
                proof {
                    assert(v@.subrange(e as int, e + 1)[0] == v@[e as int]);
                    let line = v@.subrange(i as int, e as int);
                    if line.len() > 0 {
                        assert(line.last() == v@[e - 1]);
                        assert(line.drop_last() =~= v@.subrange(i as int, e - 1));
                    }
                    assert(v@.subrange(i as int, end as int) == rest[0]);
                }
                out.push((i, end));
                proof {
                    assert forall|k: int| 0 <= k < lines_from(v@, e + 1).len() implies lines_from(
                        v@,
                        0,
                    )[out@.len() + k] == #[trigger] lines_from(v@, e + 1)[k] by {
                        assert(rest[k + 1] == lines_from(v@, e + 1)[k]);
                    }
                    assert forall|k: int| 0 <= k < out@.len() implies (#[trigger] out@[k]).0
                        <= out@[k].1 <= v@.len() && v@.subrange(out@[k].0 as int, out@[k].1 as int)
                        == lines_from(v@, 0)[k] by {
                        if k < before.len() {
                            assert(out@[k] == before[k]);
                        }
                    }
                }
                i = e + 1;
            },
            None => {
                proof {
                    assert(rest[0] == v@.subrange(i as int, v@.len() as int));
                    assert(lines_from(v@, 0)[before.len() as int] == rest[0]);
                }
                out.push((i, v.len()));
                proof {
                    assert(rest.len() == 1);
                    assert forall|k: int| 0 <= k < out@.len() implies (#[trigger] out@[k]).0
                        <= out@[k].1 <= v@.len() && v@.subrange(out@[k].0 as int, out@[k].1 as int)
                        == lines_from(v@, 0)[k] by {
                        if k < before.len() {
                            assert(out@[k] == before[k]);
                        }
                    }
                }
                i = v.len();
            },
        }
    }
    out
}

/// `str::contains` for strings.
pub fn str_contains(v: &str, pat: &str) -> (r: bool)
    ensures
        r == contains_seq(v@, pat@),
{
    let a = chars_of(v);
    let b = chars_of(pat);
    contains_chars(a.as_slice(), b.as_slice())
}

/// `str::starts_with` for strings.
pub fn str_starts_with(v: &str, pat: &str) -> (r: bool)
    ensures
        r == starts_with(v@, pat@),
{
    let a = chars_of(v);
    let b = chars_of(pat);
    matches_at(a.as_slice(), b.as_slice(), 0)
}

/// A `String` copy of a `&str`.
pub fn to_string(t: &str) -> (r: String)
    ensures
        r@ == t@,
{
    let mut r = String::new();
    push_str(&mut r, t);
    proof {
        assert(r@ =~= t@);
    }
    r
}

} // verus!
