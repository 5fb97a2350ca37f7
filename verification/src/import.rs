//! Import of text, markdown, HTML and CSV content as notes.
use vstd::prelude::*;
use crate::text::{
    byte_offset, bytes_len, char_at_byte, char_index_at_byte, char_table, chars_eq, chars_of,
    find_chars, find_from, is_whitespace, occurs_at, is_ws, lemma_byte_offset_step, lemma_find_from,
    line_bounds, lines_from, lowercase, skip_ws_backward, skip_ws_forward, string_from_chars,
    string_from_range, to_lowercase, trim, trim_bounds, trim_end, trim_start, ws_prefix_len,
};

verus! {

/// The result of importing a file: a title and markdown-formatted content.
#[derive(Debug, PartialEq, Eq)]
pub struct ImportedNote {
    pub title: String,
    pub content: String,
}

impl Clone for ImportedNote {
    fn clone(&self) -> (r: Self)
        ensures
            r.title@ == self.title@,
            r.content@ == self.content@,
    {
        ImportedNote { title: self.title.clone(), content: self.content.clone() }
    }
}

/// The chars of each string.
pub open spec fn strings_view(v: Seq<String>) -> Seq<Seq<char>> {
    v.map_values(|s: String| s@)
}

// ─── CSV ────────────────────────────────────────────────────────────────────

/// Fields of a CSV line, scanning from char `i` with the quoting state `in_q`,
/// the field being read `cur` and the fields finished so far.
pub open spec fn csv_scan(
    line: Seq<char>,
    i: int,
    in_q: bool,
    cur: Seq<char>,
    fields: Seq<Seq<char>>,
) -> Seq<Seq<char>>
    decreases line.len() - i,
{
    if i < 0 || i >= line.len() {
        fields.push(cur)
    } else if in_q {
        if line[i] == '"' {
            if i + 1 < line.len() && line[i + 1] == '"' {
                csv_scan(line, i + 2, true, cur.push('"'), fields)
            } else {
                csv_scan(line, i + 1, false, cur, fields)
            }
        } else {
            csv_scan(line, i + 1, true, cur.push(line[i]), fields)
        }
    } else if line[i] == '"' {
        csv_scan(line, i + 1, true, cur, fields)
    } else if line[i] == ',' {
        csv_scan(line, i + 1, false, Seq::empty(), fields.push(cur))
    } else {
        csv_scan(line, i + 1, false, cur.push(line[i]), fields)
    }
}

/// The fields of a CSV line: split at commas outside double quotes; quotes
/// are dropped and `""` inside quotes stands for one `"`.
pub open spec fn csv_fields(line: Seq<char>) -> Seq<Seq<char>> {
    csv_scan(line, 0, false, Seq::empty(), Seq::empty())
}

/// Parse a single CSV line, handling quoted fields.
pub fn parse_csv_line(line: &str) -> (r: Vec<String>)
    ensures
        strings_view(r@) == csv_fields(line@),
{
    let v = chars_of(line);
    proof {
        assert(v@.subrange(0, v@.len() as int) =~= line@);
    }
    parse_csv_chars(v.as_slice(), 0, v.len())
}

/// `parse_csv_line` of `v[from..to]`.
fn parse_csv_chars(v: &[char], from: usize, to: usize) -> (r: Vec<String>)
    requires
        from <= to <= v@.len(),
    ensures
        strings_view(r@) == csv_fields(v@.subrange(from as int, to as int)),
{
    let ghost line = v@.subrange(from as int, to as int);
    let mut fields: Vec<String> = Vec::new();
    let mut current: Vec<char> = Vec::new();
    let mut in_quotes = false;
    let mut i: usize = from;
    proof {
        assert(strings_view(fields@) =~= Seq::<Seq<char>>::empty());
    }
    while i < to
        invariant
            from <= i <= to <= v@.len(),
            line == v@.subrange(from as int, to as int),
            csv_fields(line) == csv_scan(
                line,
                i - from,
                in_quotes,
                current@,
                strings_view(fields@),
            ),
        decreases to - i,
    {
        let ch = v[i];
        assert(line[i - from] == ch);
        if in_quotes {
            if ch == '"' {
                // Check for escaped quote ""
                if i + 1 < to && v[i + 1] == '"' {
                    assert(line[i + 1 - from] == v@[i + 1]);
                    current.push('"');
                    i = i + 2;
                } else {
                    proof {
                        if i + 1 < to {
                            assert(line[i + 1 - from] == v@[i + 1]);
                        }
                    }
                    in_quotes = false;
                    i = i + 1;
                }
            } else {
                current.push(ch);
                i = i + 1;
            }
        } else if ch == '"' {
            in_quotes = true;
            i = i + 1;
        } else if ch == ',' {
            let ghost before = fields@;
            fields.push(string_from_chars(current.as_slice()));
            proof {
                assert(strings_view(fields@) =~= strings_view(before).push(current@));
            }
            current = Vec::new();
            i = i + 1;
        } else {
            current.push(ch);
            i = i + 1;
        }
    }
    let ghost before = fields@;
    fields.push(string_from_chars(current.as_slice()));
    proof {
        assert(strings_view(fields@) =~= strings_view(before).push(current@));
    }
    fields
}

/// The parsed rows of the non-blank lines among `ls`.
pub open spec fn csv_rows(ls: Seq<Seq<char>>) -> Seq<Seq<Seq<char>>>
    decreases ls.len(),
{
    if ls.len() == 0 {
        Seq::empty()
    } else if trim(ls.last()).len() > 0 {
        csv_rows(ls.drop_last()).push(csv_fields(ls.last()))
    } else {
        csv_rows(ls.drop_last())
    }
}

/// The largest row length (0 for no rows).
pub open spec fn max_cols(rows: Seq<Seq<Seq<char>>>) -> nat
    decreases rows.len(),
{
    if rows.len() == 0 {
        0
    } else {
        let m = max_cols(rows.drop_last());
        if rows.last().len() > m {
            rows.last().len()
        } else {
            m
        }
    }
}

/// Cell `c` of a row, empty past its end.
pub open spec fn cell(row: Seq<Seq<char>>, c: int) -> Seq<char> {
    if 0 <= c < row.len() {
        row[c]
    } else {
        Seq::empty()
    }
}

/// The first `n` cells of a row as ` cell |` pieces.
pub open spec fn cells_text(row: Seq<Seq<char>>, n: nat) -> Seq<char>
    decreases n,
{
    if n == 0 {
        Seq::empty()
    } else {
        cells_text(row, (n - 1) as nat) + seq![' '] + trim(cell(row, n - 1)) + seq![' ', '|']
    }
}

/// One table line for a row of `n` columns.
pub open spec fn row_line(row: Seq<Seq<char>>, n: nat) -> Seq<char> {
    seq!['|'] + cells_text(row, n) + seq!['\n']
}

/// The header separator line for `n` columns.
pub open spec fn sep_cells(n: nat) -> Seq<char>
    decreases n,
{
    if n == 0 {
        Seq::empty()
    } else {
        sep_cells((n - 1) as nat) + seq![' ', '-', '-', '-', ' ', '|']
    }
}

pub open spec fn sep_line(n: nat) -> Seq<char> {
    seq!['|'] + sep_cells(n) + seq!['\n']
}

/// The table lines of `rows[1..m]`.
pub open spec fn data_lines(rows: Seq<Seq<Seq<char>>>, m: int, n: nat) -> Seq<char>
    decreases m,
{
    if m <= 1 {
        Seq::empty()
    } else {
        data_lines(rows, m - 1, n) + row_line(rows[m - 1], n)
    }
}

/// What `csv_to_markdown_table` returns: a markdown table whose header is the
/// first non-blank line, with as many columns as the longest row.
pub open spec fn csv_table_spec(csv: Seq<char>) -> Seq<char> {
    let rows = csv_rows(lines_from(csv, 0));
    let n = max_cols(rows);
    if rows.len() == 0 || n == 0 {
        Seq::empty()
    } else {
        trim_end(row_line(rows[0], n) + sep_line(n) + data_lines(rows, rows.len() as int, n))
    }
}

/// Append `v[from..to]` to `out`.
fn push_range(out: &mut Vec<char>, v: &[char], from: usize, to: usize)
    requires
        from <= to <= v@.len(),
    ensures
        final(out)@ == old(out)@ + v@.subrange(from as int, to as int),
{
    let ghost start = out@;
    let mut i: usize = from;
    while i < to
        invariant
            from <= i <= to <= v@.len(),
            out@ == start + v@.subrange(from as int, i as int),
        decreases to - i,
    {
        out.push(v[i]);
        i = i + 1;
        proof {
            assert(out@ =~= start + v@.subrange(from as int, i as int));
        }
    }
}

/// Append all of `v` to `out`.
fn push_all(out: &mut Vec<char>, v: &[char])
    ensures
        final(out)@ == old(out)@ + v@,
{
    push_range(out, v, 0, v.len());
    proof {
        assert(v@.subrange(0, v@.len() as int) =~= v@);
    }
}

/// Append the table line of `row` with `n` columns.
fn push_row_line(out: &mut Vec<char>, row: &Vec<String>, n: usize)
    ensures
        final(out)@ == old(out)@ + row_line(strings_view(row@), n as nat),
{
    let ghost start = out@;
    let ghost r = strings_view(row@);
    out.push('|');
    let mut c: usize = 0;
    while c < n
        invariant
            c <= n,
            r == strings_view(row@),
            out@ == start + seq!['|'] + cells_text(r, c as nat),
        decreases n - c,
    {
        out.push(' ');
        if c < row.len() {
            let cv = chars_of(row[c].as_str());
            let (a, b) = trim_bounds(cv.as_slice(), 0, cv.len());
            proof {
                assert(cv@.subrange(0, cv@.len() as int) =~= cv@);
                assert(cell(r, c as int) == row@[c as int]@);
            }
            push_range(out, cv.as_slice(), a, b);
        } else {
            proof {
                assert(cell(r, c as int) =~= Seq::<char>::empty());
                assert(trim(Seq::<char>::empty()) =~= Seq::<char>::empty());
            }
        }
        out.push(' ');
        out.push('|');
        c = c + 1;
        proof {
            assert(out@ =~= start + seq!['|'] + cells_text(r, c as nat));
        }
    }
    out.push('\n');
    proof {
        assert(out@ =~= start + row_line(r, n as nat));
    }
}

/// Convert CSV content to a markdown table.
pub fn csv_to_markdown_table(csv: &str) -> (r: String)
    ensures
        r@ == csv_table_spec(csv@),
{
    let v = chars_of(csv);
    let ghost s = csv@;
    let bounds = line_bounds(v.as_slice());
    let ghost ls = lines_from(s, 0);
    // Non-blank lines, parsed
    let mut rows: Vec<Vec<String>> = Vec::new();
    let mut col_count: usize = 0;
    let mut k: usize = 0;
    while k < bounds.len()
        invariant
            v@ == s,
            ls == lines_from(s, 0),
            bounds@.len() == ls.len(),
            forall|j: int|
                0 <= j < bounds@.len() ==> (#[trigger] bounds@[j]).0 <= bounds@[j].1 <= v@.len()
                    && v@.subrange(bounds@[j].0 as int, bounds@[j].1 as int) == ls[j],
            k <= bounds@.len(),
            rows@.len() == csv_rows(ls.take(k as int)).len(),
            forall|j: int|
                0 <= j < rows@.len() ==> strings_view((#[trigger] rows@[j])@) == csv_rows(
                    ls.take(k as int),
                )[j],
            col_count == max_cols(csv_rows(ls.take(k as int))),
        decreases bounds@.len() - k,
    {
        let (a, b) = bounds[k];
        let (ta, tb) = trim_bounds(v.as_slice(), a, b);
        proof {
            assert(ls.take(k + 1).drop_last() =~= ls.take(k as int));
            assert(ls.take(k + 1).last() == ls[k as int]);
            assert(bounds@[k as int] == (a, b));
            assert(trim(ls[k as int]).len() == tb - ta);
        }
        if ta < tb {
            let row = parse_csv_chars(v.as_slice(), a, b);
            let ghost before = rows@;
            let rl: usize = row.len();
            proof {
                assert(strings_view(row@).len() == rl);
                assert(csv_rows(ls.take(k + 1)) == csv_rows(ls.take(k as int)).push(strings_view(row@)));
                assert(csv_rows(ls.take(k + 1)).drop_last() =~= csv_rows(ls.take(k as int)));
                assert(csv_rows(ls.take(k + 1)).last() == strings_view(row@));
            }
            if rl > col_count {
                col_count = rl;
            }
            rows.push(row);
            proof {
                assert forall|j: int| 0 <= j < rows@.len() implies strings_view(
                    (#[trigger] rows@[j])@,
                ) == csv_rows(ls.take(k + 1))[j] by {
                    if j < before.len() {
                        assert(rows@[j] == before[j]);
                    }
                }
            }
        }
        k = k + 1;
    }
    proof {
        assert(ls.take(k as int) =~= ls);
    }
    let ghost rs = csv_rows(ls);
    if rows.len() == 0 || col_count == 0 {
        return String::new();
    }
    let mut out: Vec<char> = Vec::new();
    // Header row
    push_row_line(&mut out, &rows[0], col_count);
    // Separator row
    out.push('|');
    let mut c: usize = 0;
    while c < col_count
        invariant
            c <= col_count,
            out@ == row_line(rs[0], col_count as nat) + seq!['|'] + sep_cells(c as nat),
        decreases col_count - c,
    {
        out.push(' ');
        out.push('-');
        out.push('-');
        out.push('-');
        out.push(' ');
        out.push('|');
        c = c + 1;
        proof {
            assert(out@ =~= row_line(rs[0], col_count as nat) + seq!['|'] + sep_cells(c as nat));
        }
    }
    out.push('\n');
    proof {
        assert(out@ =~= row_line(rs[0], col_count as nat) + sep_line(col_count as nat));
    }
    // Data rows
    let mut m: usize = 1;
    while m < rows.len()
        invariant
            1 <= m <= rows@.len(),
            rows@.len() == rs.len(),
            forall|j: int| 0 <= j < rows@.len() ==> strings_view((#[trigger] rows@[j])@) == rs[j],
            out@ == row_line(rs[0], col_count as nat) + sep_line(col_count as nat) + data_lines(
                rs,
                m as int,
                col_count as nat,
            ),
        decreases rows@.len() - m,
    {
        push_row_line(&mut out, &rows[m], col_count);
        m = m + 1;
        proof {
            assert(out@ =~= row_line(rs[0], col_count as nat) + sep_line(col_count as nat)
                + data_lines(rs, m as int, col_count as nat));
        }
    }
    let e: usize = skip_ws_backward(out.as_slice(), 0, out.len());
    proof {
        assert(out@.subrange(0, out@.len() as int) =~= out@);
    }
    string_from_range(out.as_slice(), 0, e)
}

// ─── HTML tags, attributes and entities ─────────────────────────────────────

/// Index of the first `>` at or after `k`, or the end of `body`.
pub open spec fn tag_close(body: Seq<char>, k: int) -> int {
    match find_from(body, seq!['>'], k) {
        Some(q) => q,
        None => body.len() as int,
    }
}

/// Where scanning resumes after a tag whose `>` search stopped at `q`.
pub open spec fn after_close(body: Seq<char>, q: int) -> int {
    if q < body.len() {
        q + 1
    } else {
        q
    }
}

pub proof fn lemma_tag_close(body: Seq<char>, k: int)
    requires
        0 <= k <= body.len(),
    ensures
        k <= tag_close(body, k) <= body.len(),
        tag_close(body, k) < body.len() ==> body[tag_close(body, k)] == '>',
        forall|j: int| k <= j < tag_close(body, k) ==> body[j] != '>',
{
    lemma_find_from(body, seq!['>'], k);
    assert forall|j: int| k <= j < tag_close(body, k) implies body[j] != '>' by {
        if body[j] == '>' {
            assert(body.subrange(j, j + 1) =~= seq!['>']);
            assert(occurs_at(body, seq!['>'], j));
        }
    }
    if tag_close(body, k) < body.len() {
        assert(body.subrange(tag_close(body, k), tag_close(body, k) + 1)[0] == body[tag_close(
            body,
            k,
        )]);
    }
}

/// `t` without its leading `/` chars.
pub open spec fn strip_slashes(t: Seq<char>) -> Seq<char>
    decreases t.len(),
{
    if t.len() > 0 && t[0] == '/' {
        strip_slashes(t.drop_first())
    } else {
        t
    }
}

/// Chars that end a tag name.
pub open spec fn name_stop(c: char) -> bool {
    is_ws(c) || c == '/' || c == '>'
}

/// Index of the first char at or after `k` satisfying `name_stop`, or the end.
pub open spec fn name_end(s: Seq<char>, k: int) -> int
    decreases s.len() - k,
{
    if k < 0 || k >= s.len() {
        s.len() as int
    } else if name_stop(s[k]) {
        k
    } else {
        name_end(s, k + 1)
    }
}

/// The tag name of a tag's inner text, e.g. `a` of `a href='...'` and `p` of `/p`.
pub open spec fn tag_name(tag: Seq<char>) -> Seq<char> {
    let s = trim(strip_slashes(tag));
    s.take(name_end(s, 0))
}

/// Chars that end an unquoted attribute value.
pub open spec fn value_stop(c: char) -> bool {
    is_ws(c) || c == '>'
}

/// Index of the first char at or after `k` satisfying `value_stop`, or the end.
pub open spec fn value_end(s: Seq<char>, k: int) -> int
    decreases s.len() - k,
{
    if k < 0 || k >= s.len() {
        s.len() as int
    } else if value_stop(s[k]) {
        k
    } else {
        value_end(s, k + 1)
    }
}

/// The attribute value at the start of `a` (the text after `name=`, leading
/// white space removed): quoted with `"` or `'`, or unquoted.
pub open spec fn attr_value(a: Seq<char>) -> Option<Seq<char>> {
    if a.len() > 0 && a[0] == '"' {
        match find_from(a, seq!['"'], 1) {
            Some(e) => Some(a.subrange(1, e)),
            None => None,
        }
    } else if a.len() > 0 && a[0] == '\'' {
        match find_from(a, seq!['\''], 1) {
            Some(e) => Some(a.subrange(1, e)),
            None => None,
        }
    } else {
        Some(a.take(value_end(a, 0)))
    }
}

/// Value of attribute `attr` in a tag's inner text. The name is searched in the
/// lowercased tag and its byte position is used in the tag itself; `None` is the
/// case where that position is not a char boundary of the tag (slicing it there
/// panics), `Some(None)` the case of no such attribute.
pub open spec fn attr_spec(tag: Seq<char>, attr: Seq<char>) -> Option<Option<Seq<char>>> {
    let lower = lowercase(tag);
    let search = lowercase(attr).push('=');
    match find_from(lower, search, 0) {
        None => Some(None),
        Some(c) => match char_at_byte(tag, byte_offset(lower, c) + bytes_len(search)) {
            None => None,
            Some(i) => Some(attr_value(trim_start(tag.skip(i)))),
        },
    }
}

/// The chars of an optional vector.
pub open spec fn opt_chars(o: Option<Vec<char>>) -> Option<Seq<char>> {
    match o {
        Some(v) => Some(v@),
        None => None,
    }
}

/// Index of the first char of `v[from..to]` that ends a tag name.
fn name_end_exec(v: &[char], from: usize, to: usize) -> (r: usize)
    requires
        from <= to <= v@.len(),
    ensures
        from <= r <= to,
        r - from == name_end(v@.subrange(from as int, to as int), 0),
{
    let ghost s = v@.subrange(from as int, to as int);
    let mut k: usize = from;
    while k < to && !(is_whitespace(v[k]) || v[k] == '/' || v[k] == '>')
        invariant
            from <= k <= to <= v@.len(),
            s == v@.subrange(from as int, to as int),
            name_end(s, 0) == name_end(s, k - from),
        decreases to - k,
    {
        assert(s[k - from] == v@[k as int]);
        k = k + 1;
    }
    proof {
        if k < to {
            assert(s[k - from] == v@[k as int]);
        }
    }
    k
}

/// `tag_name` of `t`.
fn tag_name_exec(t: &[char]) -> (r: Vec<char>)
    ensures
        r@ == tag_name(t@),
{
    let mut i: usize = 0;
    proof {
        assert(t@.skip(0) =~= t@);
    }
    while i < t.len() && t[i] == '/'
        invariant
            i <= t@.len(),
            strip_slashes(t@) == strip_slashes(t@.skip(i as int)),
        decreases t@.len() - i,
    {
        proof {
            assert(t@.skip(i as int)[0] == t@[i as int]);
            assert(t@.skip(i as int).drop_first() =~= t@.skip(i + 1));
        }
        i = i + 1;
    }
    proof {
        if i < t@.len() {
            assert(t@.skip(i as int)[0] == t@[i as int]);
        }
        assert(strip_slashes(t@) == t@.skip(i as int));
        assert(t@.skip(i as int) =~= t@.subrange(i as int, t@.len() as int));
    }
    let (a, b) = trim_bounds(t, i, t.len());
    let e = name_end_exec(t, a, b);
    proof {
        let s = t@.subrange(a as int, b as int);
        assert(s.take(e - a) =~= t@.subrange(a as int, e as int));
    }
    let mut r: Vec<char> = Vec::new();
    let mut k: usize = a;
    while k < e
        invariant
            a <= k <= e <= t@.len(),
            r@ == t@.subrange(a as int, k as int),
        decreases e - k,
    {
        r.push(t[k]);
        k = k + 1;
        proof {
            assert(r@ =~= t@.subrange(a as int, k as int));
        }
    }
    r
}

/// The chars of `lowercase(v)`.
fn lower_chars(v: &[char]) -> (r: Vec<char>)
    ensures
        r@ == lowercase(v@),
{
    let s = string_from_chars(v);
    let l = to_lowercase(s.as_str());
    chars_of(l.as_str())
}

/// A copy of `v[from..to]`.
fn copy_range(v: &[char], from: usize, to: usize) -> (r: Vec<char>)
    requires
        from <= to <= v@.len(),
    ensures
        r@ == v@.subrange(from as int, to as int),
{
    let mut r: Vec<char> = Vec::new();
    let mut k: usize = from;
    while k < to
        invariant
            from <= k <= to <= v@.len(),
            r@ == v@.subrange(from as int, k as int),
        decreases to - k,
    {
        r.push(v[k]);
        k = k + 1;
        proof {
            assert(r@ =~= v@.subrange(from as int, k as int));
        }
    }
    r
}

/// `attr_value` of `v[from..]`, with leading white space skipped first.
fn attr_value_exec(v: &[char], from: usize) -> (r: Option<Vec<char>>)
    requires
        from <= v@.len(),
    ensures
        opt_chars(r) == attr_value(trim_start(v@.skip(from as int))),
{
    let len: usize = v.len();
    let a0: usize = skip_ws_forward(v, from, len);
    let ghost a = v@.subrange(a0 as int, len as int);
    proof {
        assert(v@.skip(from as int) =~= v@.subrange(from as int, len as int));
        assert(trim_start(v@.skip(from as int)) =~= a);
    }
    if a0 < len && v[a0] == '"' {
        let q: [char; 1] = ['"'];
        proof {
            assert(q@ =~= seq!['"']);
            assert(a[0] == v@[a0 as int]);
        }
        let inner = copy_range(v, a0, len);
        proof {
            assert(inner@ == a);
        }
        match find_chars(inner.as_slice(), q.as_slice(), 1) {
            Some(e) => {
                proof {
                    lemma_find_from(a, seq!['"'], 1);
                }
                Some(copy_range(inner.as_slice(), 1, e))
            },
            None => None,
        }
    } else if a0 < len && v[a0] == '\'' {
        let q: [char; 1] = ['\''];
        proof {
            assert(q@ =~= seq!['\'']);
            assert(a[0] == v@[a0 as int]);
        }
        let inner = copy_range(v, a0, len);
        match find_chars(inner.as_slice(), q.as_slice(), 1) {
            Some(e) => {
                proof {
                    lemma_find_from(a, seq!['\''], 1);
                }
                Some(copy_range(inner.as_slice(), 1, e))
            },
            None => None,
        }
    } else {
        proof {
            if a0 < len {
                assert(a[0] == v@[a0 as int]);
            }
        }
        let mut k: usize = a0;
        while k < len && !(is_whitespace(v[k]) || v[k] == '>')
            invariant
                a0 <= k <= len == v@.len(),
                a == v@.subrange(a0 as int, len as int),
                value_end(a, 0) == value_end(a, k - a0),
            decreases len - k,
        {
            assert(a[k - a0] == v@[k as int]);
            k = k + 1;
        }
        proof {
            if k < len {
                assert(a[k - a0] == v@[k as int]);
            }
            assert(a.take(k - a0) =~= v@.subrange(a0 as int, k as int));
        }
        Some(copy_range(v, a0, k))
    }
}

/// Extract an attribute value from a tag's inner text; `None` where slicing the
/// tag at the position found in its lowercased form would panic.
fn extract_attribute(tag: &[char], attr_name: &[char]) -> (r: Option<Option<Vec<char>>>)
    ensures
        r matches Some(o) ==> attr_spec(tag@, attr_name@) == Some(opt_chars(o)),
        r is None ==> attr_spec(tag@, attr_name@) is None,
{
    let tag_s = string_from_chars(tag);
    let (tc, toffs) = char_table(tag_s.as_str());
    let lower = to_lowercase(tag_s.as_str());
    let (lc, loffs) = char_table(lower.as_str());
    let mut search = lower_chars(attr_name);
    search.push('=');
    let search_s = string_from_chars(search.as_slice());
    let (sc, soffs) = char_table(search_s.as_str());
    let slen: usize = soffs[sc.len()];
    match find_chars(lc.as_slice(), search.as_slice(), 0) {
        None => Some(None),
        Some(c) => {
            proof {
                lemma_find_from(lc@, search@, 0);
            }
            let pos: usize = loffs[c];
            match pos.checked_add(slen) {
                None => {
                    proof {
                        assert forall|i: int| 0 <= i <= tag@.len() implies byte_offset(tag@, i)
                            != pos + slen by {
                            assert(toffs@[i] == byte_offset(tag@, i));
                        }
                    }
                    None
                },
                Some(b) => match char_index_at_byte(toffs.as_slice(), b, Ghost(tag@)) {
                    None => None,
                    Some(i) => Some(attr_value_exec(tag, i)),
                },
            }
        },
    }
}

/// How far an entity starting with `&` at `p` extends, checking from `k`: up
/// to and including `;`, or until it holds more than 10 bytes, or to the end.
pub open spec fn entity_end(body: Seq<char>, p: int, k: int) -> int
    decreases body.len() - k,
{
    if k < 0 || k >= body.len() {
        body.len() as int
    } else if body[k] == ';' || bytes_len(body.subrange(p, k + 1)) > 10 {
        k + 1
    } else {
        entity_end(body, p, k + 1)
    }
}

pub proof fn lemma_entity_end(body: Seq<char>, p: int, k: int)
    requires
        0 <= k <= body.len(),
    ensures
        k <= entity_end(body, p, k) <= body.len(),
        k < body.len() ==> k < entity_end(body, p, k),
    decreases body.len() - k,
{
    if k < body.len() && !(body[k] == ';' || bytes_len(body.subrange(p, k + 1)) > 10) {
        lemma_entity_end(body, p, k + 1);
    }
}

/// Common HTML entities decoded; others kept as they are.
pub open spec fn decode_entity(e: Seq<char>) -> Seq<char> {
    if e == seq!['&', 'a', 'm', 'p', ';'] {
        seq!['&']
    } else if e == seq!['&', 'l', 't', ';'] {
        seq!['<']
    } else if e == seq!['&', 'g', 't', ';'] {
        seq!['>']
    } else if e == seq!['&', 'q', 'u', 'o', 't', ';'] {
        seq!['"']
    } else if e == seq!['&', 'a', 'p', 'o', 's', ';'] {
        seq!['\'']
    } else if e == seq!['&', 'n', 'b', 's', 'p', ';'] {
        seq![' ']
    } else if e == seq!['&', 'm', 'd', 'a', 's', 'h', ';'] {
        seq!['\u{2014}']
    } else if e == seq!['&', 'n', 'd', 'a', 's', 'h', ';'] {
        seq!['\u{2013}']
    } else if e == seq!['&', 'h', 'e', 'l', 'l', 'i', 'p', ';'] {
        seq!['\u{2026}']
    } else {
        e
    }
}

/// An ASCII char takes one byte.
proof fn lemma_ascii_width(c: char)
    requires
        (c as u32) < 128,
    ensures
        crate::text::char_width(c) == 1,
{
    assert(vstd::utf8::has_width_1_encoding(c as u32));
}

/// An ASCII text takes one byte per char.
proof fn lemma_ascii_bytes(t: Seq<char>, i: int)
    requires
        0 <= i <= t.len(),
        forall|k: int| 0 <= k < t.len() ==> (#[trigger] t[k] as u32) < 128,
    ensures
        byte_offset(t, i) == i,
    decreases i,
{
    if i == 0 {
        assert(t.take(0) =~= Seq::<char>::empty());
        assert(vstd::utf8::encode_utf8(Seq::<char>::empty()) =~= Seq::<u8>::empty());
    } else {
        lemma_ascii_bytes(t, i - 1);
        lemma_byte_offset_step(t, i - 1);
        lemma_ascii_width(t[i - 1]);
    }
}

/// Scanning an entity `e` (ASCII, `&` first, `;` last and nowhere else, at
/// most 10 chars) that stands at `p`: the entity ends right after its `;`.
proof fn lemma_entity_span(body: Seq<char>, p: int, e: Seq<char>, k: int)
    requires
        0 <= p,
        2 <= e.len() <= 10,
        p + e.len() <= body.len(),
        body.subrange(p, p + e.len()) == e,
        e.last() == ';',
        forall|i: int| 0 <= i < e.len() - 1 ==> #[trigger] e[i] != ';',
        forall|i: int| 0 <= i < e.len() ==> (#[trigger] e[i] as u32) < 128,
        p + 1 <= k <= p + e.len() - 1,
    ensures
        entity_end(body, p, k) == p + e.len(),
    decreases p + e.len() - k,
{
    assert(body[k] == e[k - p]);
    if k < p + e.len() - 1 {
        let t = body.subrange(p, k + 1);
        assert forall|i: int| 0 <= i < t.len() implies (#[trigger] t[i] as u32) < 128 by {
            assert(t[i] == e[i]);
        }
        lemma_ascii_bytes(t, t.len() as int);
        lemma_entity_span(body, p, e, k + 1);
    }
}

/// The markdown written for an HTML entity: `&amp;`, `&lt;`, `&gt;`,
/// `&quot;`, `&apos;` and `&nbsp;` standing in the text turn into the one char
/// they name (`&`, `<`, `>`, `"`, `'` and a space), and scanning goes on
/// right after the entity; no entity is kept as it stands.
pub proof fn lemma_entities_decoded(body: Seq<char>, p: int, out: Seq<char>)
    requires
        0 <= p,
    ensures
        p + 5 <= body.len() && body.subrange(p, p + 5) == seq!['&', 'a', 'm', 'p', ';'] ==> md_scan(
            body,
            p,
            out,
        ) == md_scan(body, p + 5, out.push('&')),
        p + 4 <= body.len() && body.subrange(p, p + 4) == seq!['&', 'l', 't', ';'] ==> md_scan(
            body,
            p,
            out,
        ) == md_scan(body, p + 4, out.push('<')),
        p + 4 <= body.len() && body.subrange(p, p + 4) == seq!['&', 'g', 't', ';'] ==> md_scan(
            body,
            p,
            out,
        ) == md_scan(body, p + 4, out.push('>')),
        p + 6 <= body.len() && body.subrange(p, p + 6) == seq!['&', 'q', 'u', 'o', 't', ';'] ==> md_scan(
            body,
            p,
            out,
        ) == md_scan(body, p + 6, out.push('"')),
        p + 6 <= body.len() && body.subrange(p, p + 6) == seq!['&', 'a', 'p', 'o', 's', ';'] ==> md_scan(
            body,
            p,
            out,
        ) == md_scan(body, p + 6, out.push('\'')),
        p + 6 <= body.len() && body.subrange(p, p + 6) == seq!['&', 'n', 'b', 's', 'p', ';'] ==> md_scan(
            body,
            p,
            out,
        ) == md_scan(body, p + 6, out.push(' ')),
{
    let es: Seq<Seq<char>> = seq![
        seq!['&', 'a', 'm', 'p', ';'],
        seq!['&', 'l', 't', ';'],
        seq!['&', 'g', 't', ';'],
        seq!['&', 'q', 'u', 'o', 't', ';'],
        seq!['&', 'a', 'p', 'o', 's', ';'],
        seq!['&', 'n', 'b', 's', 'p', ';'],
    ];
    let cs: Seq<char> = seq!['&', '<', '>', '"', '\'', ' '];
    assert forall|j: int| 0 <= j < 6 && p + es[j].len() <= body.len() && body.subrange(
        p,
        p + es[j].len(),
    ) == es[j] implies md_scan(body, p, out) == md_scan(body, p + es[j].len(), out.push(cs[j])) by {
        let e = es[j];
        assert(body[p] == e[0]);
        lemma_entity_span(body, p, e, p + 1);
        assert(out + decode_entity(e) =~= out.push(cs[j]));
    }
    assert(es[0] == seq!['&', 'a', 'm', 'p', ';']);
    assert(es[1] == seq!['&', 'l', 't', ';']);
    assert(es[2] == seq!['&', 'g', 't', ';']);
    assert(es[3] == seq!['&', 'q', 'u', 'o', 't', ';']);
    assert(es[4] == seq!['&', 'a', 'p', 'o', 's', ';']);
    assert(es[5] == seq!['&', 'n', 'b', 's', 'p', ';']);
}

/// The byte length grows by the width of an appended char.
proof fn lemma_bytes_len_push(s: Seq<char>, c: char)
    ensures
        bytes_len(s.push(c)) == bytes_len(s) + crate::text::char_width(c),
{
    let t = s.push(c);
    lemma_byte_offset_step(t, s.len() as int);
    assert(t.take(s.len() as int) =~= s.take(s.len() as int));
}

/// End of the entity that starts with `&` at `p`.
fn entity_end_exec(v: &[char], p: usize) -> (r: usize)
    requires
        p < v@.len(),
        v@[p as int] == '&',
    ensures
        r == entity_end(v@, p as int, p + 1),
{
    let n: usize = v.len();
    let mut k: usize = p + 1;
    let mut bl: usize = 1;
    proof {
        lemma_bytes_len_push(Seq::<char>::empty(), '&');
        assert(v@.subrange(p as int, p + 1) =~= Seq::<char>::empty().push('&'));
        assert(bytes_len(Seq::<char>::empty()) == 0) by {
            crate::text::lemma_byte_offset_ends(Seq::<char>::empty());
            assert(vstd::utf8::encode_utf8(Seq::<char>::empty()) =~= Seq::<u8>::empty());
        }
    }
    while k < v.len()
        invariant
            p < k <= v@.len(),
            bl == bytes_len(v@.subrange(p as int, k as int)),
            bl <= 10,
            entity_end(v@, p as int, p + 1) == entity_end(v@, p as int, k as int),
        decreases v@.len() - k,
    {
        let w = crate::text::utf8_width(v[k]);
        proof {
            assert(v@.subrange(p as int, k + 1) =~= v@.subrange(p as int, k as int).push(v@[k as int]));
            lemma_bytes_len_push(v@.subrange(p as int, k as int), v@[k as int]);
        }
        bl = bl + w;
        if v[k] == ';' || bl > 10 {
            return k + 1;
        }
        k = k + 1;
    }
    v.len()
}

/// `decode_entity` of `v[from..to]`.
fn decode_entity_exec(v: &[char], from: usize, to: usize) -> (r: Vec<char>)
    requires
        from <= to <= v@.len(),
    ensures
        r@ == decode_entity(v@.subrange(from as int, to as int)),
{
    let e = copy_range(v, from, to);
    let amp: [char; 5] = ['&', 'a', 'm', 'p', ';'];
    let lt: [char; 4] = ['&', 'l', 't', ';'];
    let gt: [char; 4] = ['&', 'g', 't', ';'];
    let quot: [char; 6] = ['&', 'q', 'u', 'o', 't', ';'];
    let apos: [char; 6] = ['&', 'a', 'p', 'o', 's', ';'];
    let nbsp: [char; 6] = ['&', 'n', 'b', 's', 'p', ';'];
    let mdash: [char; 7] = ['&', 'm', 'd', 'a', 's', 'h', ';'];
    let ndash: [char; 7] = ['&', 'n', 'd', 'a', 's', 'h', ';'];
    let hellip: [char; 8] = ['&', 'h', 'e', 'l', 'l', 'i', 'p', ';'];
    proof {
        assert(amp@ =~= seq!['&', 'a', 'm', 'p', ';']);
        assert(lt@ =~= seq!['&', 'l', 't', ';']);
        assert(gt@ =~= seq!['&', 'g', 't', ';']);
        assert(quot@ =~= seq!['&', 'q', 'u', 'o', 't', ';']);
        assert(apos@ =~= seq!['&', 'a', 'p', 'o', 's', ';']);
        assert(nbsp@ =~= seq!['&', 'n', 'b', 's', 'p', ';']);
        assert(mdash@ =~= seq!['&', 'm', 'd', 'a', 's', 'h', ';']);
        assert(ndash@ =~= seq!['&', 'n', 'd', 'a', 's', 'h', ';']);
        assert(hellip@ =~= seq!['&', 'h', 'e', 'l', 'l', 'i', 'p', ';']);
    }
    let mut r: Vec<char> = Vec::new();
    if chars_eq(e.as_slice(), amp.as_slice()) {
        r.push('&');
    } else if chars_eq(e.as_slice(), lt.as_slice()) {
        r.push('<');
    } else if chars_eq(e.as_slice(), gt.as_slice()) {
        r.push('>');
    } else if chars_eq(e.as_slice(), quot.as_slice()) {
        r.push('"');
    } else if chars_eq(e.as_slice(), apos.as_slice()) {
        r.push('\'');
    } else if chars_eq(e.as_slice(), nbsp.as_slice()) {
        r.push(' ');
    } else if chars_eq(e.as_slice(), mdash.as_slice()) {
        r.push('\u{2014}');
    } else if chars_eq(e.as_slice(), ndash.as_slice()) {
        r.push('\u{2013}');
    } else if chars_eq(e.as_slice(), hellip.as_slice()) {
        r.push('\u{2026}');
    } else {
        return e;
    }
    proof {
        assert(r@ =~= decode_entity(e@));
    }
    r
}

// ─── HTML to markdown ───────────────────────────────────────────────────────

/// Whether the trimmed inner text `t` of a tag closes the tag named `tname`
/// (both compared lowercased).
pub open spec fn closes_tag(t: Seq<char>, tname: Seq<char>) -> bool {
    let lt = lowercase(t);
    &&& lt.len() > 0
    &&& lt[0] == '/'
    &&& lowercase(tag_name(t)) == lowercase(tname)
}

/// The text from `p` up to the tag closing `tname`, and where scanning resumes
/// after that tag (other tags in between are dropped).
pub open spec fn until_close(body: Seq<char>, p: int, tname: Seq<char>) -> (Seq<char>, int)
    decreases body.len() - p,
{
    if p < 0 || p >= body.len() {
        (Seq::empty(), body.len() as int)
    } else if body[p] == '<' {
        let q = tag_close(body, p + 1);
        proof {
            lemma_tag_close(body, p + 1);
        }
        let next = after_close(body, q);
        if closes_tag(trim(body.subrange(p + 1, q)), tname) {
            (Seq::empty(), next)
        } else {
            until_close(body, next, tname)
        }
    } else {
        let r = until_close(body, p + 1, tname);
        (seq![body[p]] + r.0, r.1)
    }
}

pub proof fn lemma_until_close(body: Seq<char>, p: int, tname: Seq<char>)
    requires
        0 <= p <= body.len(),
    ensures
        p <= until_close(body, p, tname).1 <= body.len(),
        p < body.len() ==> p < until_close(body, p, tname).1,
    decreases body.len() - p,
{
    if p < body.len() {
        if body[p] == '<' {
            lemma_tag_close(body, p + 1);
            let q = tag_close(body, p + 1);
            let next = after_close(body, q);
            if !closes_tag(trim(body.subrange(p + 1, q)), tname) {
                lemma_until_close(body, next, tname);
            }
        } else {
            lemma_until_close(body, p + 1, tname);
        }
    }
}

/// `out` with a newline added unless it is empty or already ends with one.
pub open spec fn ensure_nl(out: Seq<char>) -> Seq<char> {
    if out.len() > 0 && out.last() != '\n' {
        out.push('\n')
    } else {
        out
    }
}

/// The level of a heading tag name `h1`..`h6`, or 0.
pub open spec fn heading_level(name: Seq<char>) -> int {
    if name.len() == 2 && name[0] == 'h' && '1' <= name[1] && name[1] <= '6' {
        name[1] as int - '0' as int
    } else {
        0
    }
}

/// `n` `#` chars.
pub open spec fn hashes(n: nat) -> Seq<char> {
    Seq::new(n, |i: int| '#')
}

/// The output after a tag that produces fixed text, given its lowercased name.
pub open spec fn tag_output(name: Seq<char>, closing: bool, out: Seq<char>) -> Seq<char> {
    if name == seq!['b'] || name == seq!['s', 't', 'r', 'o', 'n', 'g'] {
        out + seq!['*', '*']
    } else if name == seq!['i'] || name == seq!['e', 'm'] {
        out.push('*')
    } else if name == seq!['b', 'r'] {
        out.push('\n')
    } else if name == seq!['p'] {
        if closing {
            out + seq!['\n', '\n']
        } else {
            out
        }
    } else if heading_level(name) > 0 {
        if closing {
            out.push('\n')
        } else {
            ensure_nl(out) + hashes(heading_level(name) as nat) + seq![' ']
        }
    } else if name == seq!['u', 'l'] || name == seq!['o', 'l'] {
        if closing {
            out.push('\n')
        } else {
            ensure_nl(out)
        }
    } else if name == seq!['l', 'i'] {
        if closing {
            out.push('\n')
        } else {
            ensure_nl(out) + seq!['-', ' ']
        }
    } else {
        out
    }
}

/// A markdown link `[text](url)`.
pub open spec fn md_link(text: Seq<char>, url: Seq<char>) -> Seq<char> {
    seq!['['] + text + seq![']', '('] + url + seq![')']
}

/// The markdown for `body[p..]`, appended to `out`; `None` where the conversion
/// would slice at a position that is no char boundary (an `href` found in the
/// lowercased tag).
pub open spec fn md_scan(body: Seq<char>, p: int, out: Seq<char>) -> Option<Seq<char>>
    decreases body.len() - p,
{
    if p < 0 || p >= body.len() {
        Some(out)
    } else if body[p] == '<' {
        let q = tag_close(body, p + 1);
        proof {
            lemma_tag_close(body, p + 1);
        }
        let next = after_close(body, q);
        let t = trim(body.subrange(p + 1, q));
        if t.len() == 0 {
            md_scan(body, next, out)
        } else {
            let closing = t[0] == '/';
            let name = lowercase(tag_name(t));
            if name == seq!['a'] && !closing {
                match attr_spec(t, seq!['h', 'r', 'e', 'f']) {
                    None => None,
                    Some(None) => md_scan(body, next, out),
                    Some(Some(url)) => {
                        let u = until_close(body, next, seq!['a']);
                        proof {
                            lemma_until_close(body, next, seq!['a']);
                        }
                        md_scan(body, u.1, out + md_link(u.0, url))
                    },
                }
            } else if (name == seq!['s', 'c', 'r', 'i', 'p', 't'] || name == seq![
                's',
                't',
                'y',
                'l',
                'e',
            ]) && !closing {
                let u = until_close(body, next, name);
                proof {
                    lemma_until_close(body, next, name);
                }
                md_scan(body, u.1, out)
            } else {
                md_scan(body, next, tag_output(name, closing, out))
            }
        }
    } else if body[p] == '&' {
        let e = entity_end(body, p, p + 1);
        proof {
            lemma_entity_end(body, p, p + 1);
        }
        md_scan(body, e, out + decode_entity(body.subrange(p, e)))
    } else {
        md_scan(body, p + 1, out.push(body[p]))
    }
}

/// The part of `html` between `<body ...>` and `</body>` (the tags found in the
/// lowercased text, their byte positions used in `html` itself), or all of
/// `html` when it has no complete `<body` tag. `None` where slicing `html` at
/// those positions panics.
pub open spec fn body_spec(html: Seq<char>) -> Option<Seq<char>> {
    body_spec_lowered(html, lowercase(html))
}

/// The body of `html` as `body_spec` finds it, with `lower` standing for the
/// lowercased text in which the body tags are searched.
pub open spec fn body_spec_lowered(html: Seq<char>, lower: Seq<char>) -> Option<Seq<char>> {
    match find_from(lower, seq!['<', 'b', 'o', 'd', 'y'], 0) {
        None => Some(html),
        Some(bc) => match char_at_byte(html, byte_offset(lower, bc)) {
            None => None,
            Some(hb) => match find_from(html, seq!['>'], hb) {
                None => Some(html),
                Some(g) => {
                    let be = match find_from(lower, seq!['<', '/', 'b', 'o', 'd', 'y', '>'], 0) {
                        Some(e) => byte_offset(lower, e),
                        None => bytes_len(html),
                    };
                    match char_at_byte(html, be) {
                        Some(he) => if g < he {
                            Some(html.subrange(g + 1, he))
                        } else {
                            None
                        },
                        None => None,
                    }
                },
            },
        },
    }
}

/// Lines after blank-line collapsing, with the count of blank lines in a row.
pub open spec fn clean_fold(ls: Seq<Seq<char>>) -> (Seq<char>, nat)
    decreases ls.len(),
{
    if ls.len() == 0 {
        (Seq::empty(), 0)
    } else {
        let prev = clean_fold(ls.drop_last());
        let t = trim_end(ls.last());
        if t.len() == 0 {
            (
                if prev.1 + 1 <= 2 {
                    prev.0.push('\n')
                } else {
                    prev.0
                },
                prev.1 + 1,
            )
        } else {
            let r = if prev.0.len() > 0 && prev.0.last() != '\n' {
                prev.0.push('\n')
            } else {
                prev.0
            };
            (r + t + seq!['\n'], 0)
        }
    }
}

/// Markdown clean-up: trailing white space of each line removed, at most two
/// blank lines in a row kept, white space around the whole trimmed.
pub open spec fn clean_spec(s: Seq<char>) -> Seq<char> {
    trim(clean_fold(lines_from(s, 0)).0)
}

/// What `html_to_markdown` returns, or `None` where the conversion would slice
/// the text at a position that is no char boundary.
pub open spec fn html_md_spec(html: Seq<char>) -> Option<Seq<char>> {
    match body_spec(html) {
        None => None,
        Some(b) => match md_scan(b, 0, Seq::empty()) {
            None => None,
            Some(o) => Some(clean_spec(o)),
        },
    }
}

/// `until_close(v, p, tname)` where `tl` holds `lowercase(tname)`.
fn until_close_exec(v: &[char], p: usize, tl: &[char], Ghost(tname): Ghost<Seq<char>>) -> (r: (
    Vec<char>,
    usize,
))
    requires
        p <= v@.len(),
        tl@ == lowercase(tname),
    ensures
        r.0@ == until_close(v@, p as int, tname).0,
        r.1 == until_close(v@, p as int, tname).1,
{
    let len: usize = v.len();
    let mut content: Vec<char> = Vec::new();
    let mut k: usize = p;
    let gt: [char; 1] = ['>'];
    proof {
        assert(gt@ =~= seq!['>']);
    }
    while k < len
        invariant
            p <= k <= len == v@.len(),
            gt@ == seq!['>'],
            tl@ == lowercase(tname),
            until_close(v@, p as int, tname) == (
                content@ + until_close(v@, k as int, tname).0,
                until_close(v@, k as int, tname).1,
            ),
        decreases len - k,
    {
        if v[k] == '<' {
            proof {
                lemma_tag_close(v@, k + 1);
            }
            let q: usize = match find_chars(v, gt.as_slice(), k + 1) {
                Some(q) => q,
                None => len,
            };
            let next: usize = if q < len {
                q + 1
            } else {
                q
            };
            let (a, b) = trim_bounds(v, k + 1, q);
            let t = copy_range(v, a, b);
            let lt = lower_chars(t.as_slice());
            let name = tag_name_exec(t.as_slice());
            let ln = lower_chars(name.as_slice());
            if lt.len() > 0 && lt[0] == '/' && chars_eq(ln.as_slice(), tl) {
                proof {
                    assert(content@ + Seq::<char>::empty() =~= content@);
                }
                return (content, next);
            }
            k = next;
        } else {
            let ghost old_content = content@;
            content.push(v[k]);
            proof {
                let r = until_close(v@, k + 1, tname);
                assert(content@ + r.0 =~= old_content + (seq![v@[k as int]] + r.0));
            }
            k = k + 1;
        }
    }
    proof {
        assert(content@ + Seq::<char>::empty() =~= content@);
    }
    (content, len)
}

/// Add a newline unless `out` is empty or already ends with one.
fn ensure_newline(out: &mut Vec<char>)
    ensures
        final(out)@ == ensure_nl(old(out)@),
{
    if out.len() > 0 && out[out.len() - 1] != '\n' {
        out.push('\n');
    }
}

/// Whether `v` is the word `w`.
fn is_word(v: &[char], w: &[char]) -> (r: bool)
    ensures
        r == (v@ == w@),
{
    chars_eq(v, w)
}

/// Append the fixed text of a tag with lowercased name `name`.
fn push_tag_output(out: &mut Vec<char>, name: &[char], closing: bool)
    ensures
        final(out)@ == tag_output(name@, closing, old(out)@),
{
    let ghost start = out@;
    let w_b: [char; 1] = ['b'];
    let w_strong: [char; 6] = ['s', 't', 'r', 'o', 'n', 'g'];
    let w_i: [char; 1] = ['i'];
    let w_em: [char; 2] = ['e', 'm'];
    let w_br: [char; 2] = ['b', 'r'];
    let w_p: [char; 1] = ['p'];
    let w_ul: [char; 2] = ['u', 'l'];
    let w_ol: [char; 2] = ['o', 'l'];
    let w_li: [char; 2] = ['l', 'i'];
    proof {
        assert(w_b@ =~= seq!['b']);
        assert(w_strong@ =~= seq!['s', 't', 'r', 'o', 'n', 'g']);
        assert(w_i@ =~= seq!['i']);
        assert(w_em@ =~= seq!['e', 'm']);
        assert(w_br@ =~= seq!['b', 'r']);
        assert(w_p@ =~= seq!['p']);
        assert(w_ul@ =~= seq!['u', 'l']);
        assert(w_ol@ =~= seq!['o', 'l']);
        assert(w_li@ =~= seq!['l', 'i']);
    }
    let heading: bool = name.len() == 2 && name[0] == 'h' && '1' <= name[1] && name[1] <= '6';
    if is_word(name, w_b.as_slice()) || is_word(name, w_strong.as_slice()) {
        out.push('*');
        out.push('*');
        proof {
            assert(out@ =~= start + seq!['*', '*']);
        }
    } else if is_word(name, w_i.as_slice()) || is_word(name, w_em.as_slice()) {
        out.push('*');
    } else if is_word(name, w_br.as_slice()) {
        out.push('\n');
    } else if is_word(name, w_p.as_slice()) {
        if closing {
            out.push('\n');
            out.push('\n');
            proof {
                assert(out@ =~= start + seq!['\n', '\n']);
            }
        }
    } else if heading {
        proof {
            assert(heading_level(name@) > 0);
        }
        if closing {
            out.push('\n');
        } else {
            ensure_newline(out);
            let level: u32 = (name[1] as u32) - ('0' as u32);
            let ghost mid = out@;
            let mut n: u32 = 0;
            while n < level
                invariant
                    n <= level,
                    out@ == mid + hashes(n as nat),
                decreases level - n,
            {
                out.push('#');
                n = n + 1;
                proof {
                    assert(out@ =~= mid + hashes(n as nat));
                }
            }
            out.push(' ');
            proof {
                assert(level == heading_level(name@));
                assert(out@ =~= ensure_nl(start) + hashes(heading_level(name@) as nat) + seq![
                    ' ',
                ]);
            }
        }
    } else if is_word(name, w_ul.as_slice()) || is_word(name, w_ol.as_slice()) {
        proof {
            assert(heading_level(name@) == 0);
        }
        if closing {
            out.push('\n');
        } else {
            ensure_newline(out);
        }
    } else if is_word(name, w_li.as_slice()) {
        proof {
            assert(heading_level(name@) == 0);
        }
        if closing {
            out.push('\n');
        } else {
            ensure_newline(out);
            out.push('-');
            out.push(' ');
            proof {
                assert(out@ =~= ensure_nl(start) + seq!['-', ' ']);
            }
        }
    } else {
        proof {
            assert(heading_level(name@) == 0);
        }
    }
}

/// Extract the body content from HTML, or the whole text if it has no body
/// tag; `None` where a body tag found in the lowercased text does not fall on
/// a char boundary of `html`, so that cutting `html` there would panic.
fn extract_body(html: &str) -> (r: Option<Vec<char>>)
    ensures
        r matches Some(v) ==> body_spec(html@) == Some(v@),
        r is None ==> body_spec(html@) is None,
{
    let lower = to_lowercase(html);
    extract_body_lowered(html, lower.as_str())
}

/// `extract_body` with the lowercased text given.
fn extract_body_lowered(html: &str, html_lower: &str) -> (r: Option<Vec<char>>)
    ensures
        r matches Some(v) ==> body_spec_lowered(html@, html_lower@) == Some(v@),
        r is None ==> body_spec_lowered(html@, html_lower@) is None,
{
    let (hc, hoffs) = char_table(html);
    let (lc, loffs) = char_table(html_lower);
    let open_pat: [char; 5] = ['<', 'b', 'o', 'd', 'y'];
    let close_pat: [char; 7] = ['<', '/', 'b', 'o', 'd', 'y', '>'];
    let gt: [char; 1] = ['>'];
    proof {
        assert(open_pat@ =~= seq!['<', 'b', 'o', 'd', 'y']);
        assert(close_pat@ =~= seq!['<', '/', 'b', 'o', 'd', 'y', '>']);
        assert(gt@ =~= seq!['>']);
    }
    match find_chars(lc.as_slice(), open_pat.as_slice(), 0) {
        None => Some(hc),
        Some(bc) => {
            proof {
                lemma_find_from(lc@, open_pat@, 0);
            }
            match char_index_at_byte(hoffs.as_slice(), loffs[bc], Ghost(html@)) {
                None => None,
                Some(hb) => match find_chars(hc.as_slice(), gt.as_slice(), hb) {
                    None => Some(hc),
                    Some(g) => {
                        proof {
                            lemma_find_from(hc@, gt@, hb as int);
                        }
                        let be: usize = match find_chars(lc.as_slice(), close_pat.as_slice(), 0) {
                            Some(e) => {
                                proof {
                                    lemma_find_from(lc@, close_pat@, 0);
                                }
                                loffs[e]
                            },
                            None => hoffs[hc.len()],
                        };
                        match char_index_at_byte(hoffs.as_slice(), be, Ghost(html@)) {
                            Some(he) => {
                                if g < he {
                                    Some(copy_range(hc.as_slice(), g + 1, he))
                                } else {
                                    None
                                }
                            },
                            None => None,
                        }
                    },
                },
            }
        },
    }
}

/// The body of `html` (see `body_spec`), its body tags searched in
/// `html_lower`, which stands for the lowercased text; `None` where a tag found
/// there is no char boundary of `html` or the body would end before it starts.
pub fn body_from_lowered(html: &str, html_lower: &str) -> (r: Option<String>)
    ensures
        r matches Some(t) ==> body_spec_lowered(html@, html_lower@) == Some(t@),
        r is None ==> body_spec_lowered(html@, html_lower@) is None,
{
    match extract_body_lowered(html, html_lower) {
        Some(v) => Some(string_from_chars(v.as_slice())),
        None => None,
    }
}

/// Clean up markdown: collapse multiple blank lines, trim trailing whitespace.
fn clean_markdown(s: &[char]) -> (r: Vec<char>)
    ensures
        r@ == clean_spec(s@),
{
    let bounds = line_bounds(s);
    let ghost ls = lines_from(s@, 0);
    let mut result: Vec<char> = Vec::new();
    let mut blank_count: usize = 0;
    let mut k: usize = 0;
    while k < bounds.len()
        invariant
            bounds@.len() == ls.len(),
            ls == lines_from(s@, 0),
            forall|j: int|
                0 <= j < bounds@.len() ==> (#[trigger] bounds@[j]).0 <= bounds@[j].1 <= s@.len()
                    && s@.subrange(bounds@[j].0 as int, bounds@[j].1 as int) == ls[j],
            k <= bounds@.len(),
            blank_count <= k,
            (result@, blank_count as nat) == clean_fold(ls.take(k as int)),
        decreases bounds@.len() - k,
    {
        let (a, b) = bounds[k];
        let e: usize = skip_ws_backward(s, a, b);
        proof {
            assert(ls.take(k + 1).drop_last() =~= ls.take(k as int));
            assert(ls.take(k + 1).last() == ls[k as int]);
            assert(bounds@[k as int] == (a, b));
            assert(trim_end(ls[k as int]) =~= s@.subrange(a as int, e as int));
        }
        if e == a {
            blank_count = blank_count + 1;
            if blank_count <= 2 {
                result.push('\n');
            }
        } else {
            blank_count = 0;
            if result.len() > 0 && result[result.len() - 1] != '\n' {
                result.push('\n');
            }
            let ghost before = result@;
            push_range(&mut result, s, a, e);
            result.push('\n');
            proof {
                assert(result@ =~= before + s@.subrange(a as int, e as int) + seq!['\n']);
            }
        }
        k = k + 1;
    }
    proof {
        assert(ls.take(k as int) =~= ls);
    }
    let (a, b) = trim_bounds(result.as_slice(), 0, result.len());
    proof {
        assert(result@.subrange(0, result@.len() as int) =~= result@);
    }
    copy_range(result.as_slice(), a, b)
}

/// The conversion behind `html_to_markdown`, with `None` where it would slice
/// at a position that is no char boundary.
fn md_core(html: &str) -> (r: Option<String>)
    ensures
        r matches Some(s) ==> html_md_spec(html@) == Some(s@),
        r is None ==> html_md_spec(html@) is None,
{
    let body = match extract_body(html) {
        Some(b) => b,
        None => {
            return None;
        },
    };
    let ghost bs = body@;
    let len: usize = body.len();
    let gt: [char; 1] = ['>'];
    let w_a: [char; 1] = ['a'];
    let w_href: [char; 4] = ['h', 'r', 'e', 'f'];
    let w_script: [char; 6] = ['s', 'c', 'r', 'i', 'p', 't'];
    let w_style: [char; 5] = ['s', 't', 'y', 'l', 'e'];
    proof {
        assert(gt@ =~= seq!['>']);
        assert(w_a@ =~= seq!['a']);
        assert(w_href@ =~= seq!['h', 'r', 'e', 'f']);
        assert(w_script@ =~= seq!['s', 'c', 'r', 'i', 'p', 't']);
        assert(w_style@ =~= seq!['s', 't', 'y', 'l', 'e']);
    }
    let lower_a = lower_chars(w_a.as_slice());
    let ghost a_word: Seq<char> = seq!['a'];
    let mut out: Vec<char> = Vec::new();
    let mut p: usize = 0;
    while p < len
        invariant
            body@ == bs,
            body_spec(html@) == Some(bs),
            len == bs.len(),
            p <= len,
            gt@ == seq!['>'],
            w_a@ == seq!['a'],
            w_href@ == seq!['h', 'r', 'e', 'f'],
            w_script@ == seq!['s', 'c', 'r', 'i', 'p', 't'],
            w_style@ == seq!['s', 't', 'y', 'l', 'e'],
            a_word == seq!['a'],
            lower_a@ == lowercase(a_word),
            md_scan(bs, 0, Seq::empty()) == md_scan(bs, p as int, out@),
        decreases len - p,
    {
        if body[p] == '<' {
            proof {
                lemma_tag_close(bs, p + 1);
            }
            let q: usize = match find_chars(body.as_slice(), gt.as_slice(), p + 1) {
                Some(q) => q,
                None => len,
            };
            let next: usize = if q < len {
                q + 1
            } else {
                q
            };
            let (a, b) = trim_bounds(body.as_slice(), p + 1, q);
            if a == b {
                p = next;
                continue;
            }
            let t = copy_range(body.as_slice(), a, b);
            let closing: bool = t[0] == '/';
            let tn = tag_name_exec(t.as_slice());
            let name = lower_chars(tn.as_slice());
            if is_word(name.as_slice(), w_a.as_slice()) && !closing {
                match extract_attribute(t.as_slice(), w_href.as_slice()) {
                    None => {
                        return None;
                    },
                    Some(None) => {
                        p = next;
                    },
                    Some(Some(url)) => {
                        proof {
                            lemma_until_close(bs, next as int, seq!['a']);
                        }
                        let (text, after) = until_close_exec(
                            body.as_slice(),
                            next,
                            lower_a.as_slice(),
                            Ghost(a_word),
                        );
                        let ghost before = out@;
                        out.push('[');
                        push_all(&mut out, text.as_slice());
                        out.push(']');
                        out.push('(');
                        push_all(&mut out, url.as_slice());
                        out.push(')');
                        proof {
                            assert(out@ =~= before + md_link(text@, url@));
                        }
                        p = after;
                    },
                }
            } else if (is_word(name.as_slice(), w_script.as_slice()) || is_word(
                name.as_slice(),
                w_style.as_slice(),
            )) && !closing {
                let ln = lower_chars(name.as_slice());
                proof {
                    lemma_until_close(bs, next as int, name@);
                }
                let (_skipped, after) = until_close_exec(
                    body.as_slice(),
                    next,
                    ln.as_slice(),
                    Ghost(name@),
                );
                p = after;
            } else {
                push_tag_output(&mut out, name.as_slice(), closing);
                p = next;
            }
        } else if body[p] == '&' {
            let e: usize = entity_end_exec(body.as_slice(), p);
            proof {
                lemma_entity_end(bs, p as int, p + 1);
            }
            let d = decode_entity_exec(body.as_slice(), p, e);
            push_all(&mut out, d.as_slice());
            p = e;
        } else {
            out.push(body[p]);
            p = p + 1;
        }
    }
    let cleaned = clean_markdown(out.as_slice());
    Some(string_from_chars(cleaned.as_slice()))
}

/// Convert basic HTML to markdown. Handles:
/// b, strong, i, em, p, br, h1-h6, a, ul, ol, li, and strips other tags.
pub fn html_to_markdown(html: &str) -> (r: String)
    requires
        html_md_spec(html@) is Some,
    ensures
        html_md_spec(html@) == Some(r@),
{
    match md_core(html) {
        Some(s) => s,
        None => String::new(),
    }
}

/// `html_to_markdown` where it does not panic, `None` elsewhere.
pub fn try_html_to_markdown(html: &str) -> (r: Option<String>)
    ensures
        r is Some <==> html_md_spec(html@) is Some,
        r matches Some(s) ==> html_md_spec(html@) == Some(s@),
{
    if md_core(html).is_some() {
        Some(html_to_markdown(html))
    } else {
        None
    }
}

// ─── Import dispatch ────────────────────────────────────────────────────────

/// The chars of an optional string.
pub open spec fn opt_str(o: Option<String>) -> Option<Seq<char>> {
    match o {
        Some(s) => Some(s@),
        None => None,
    }
}

/// What `Path::file_stem` gives for a path written as `path`.
pub uninterp spec fn path_file_stem(path: Seq<char>) -> Option<Seq<char>>;

/// What `Path::extension` gives for a path written as `path`.
pub uninterp spec fn path_extension(path: Seq<char>) -> Option<Seq<char>>;

/// `Path::file_stem` of `path`, as a string; its result is named
/// `path_file_stem` of the path's chars, nothing more is stated.
#[verifier::external_body]
pub(crate) fn file_stem_of(path: &str) -> (r: Option<String>)
    ensures
        opt_str(r) == path_file_stem(path@),
{
    match std::path::Path::new(path).file_stem() {
        Some(s) => match s.to_str() {
            Some(t) => Some(t.to_string()),
            None => None,
        },
        None => None,
    }
}

/// `Path::extension` of `path`, as a string; its result is named
/// `path_extension` of the path's chars, nothing more is stated.
#[verifier::external_body]
pub(crate) fn extension_of(path: &str) -> (r: Option<String>)
    ensures
        opt_str(r) == path_extension(path@),
{
    match std::path::Path::new(path).extension() {
        Some(s) => match s.to_str() {
            Some(t) => Some(t.to_string()),
            None => None,
        },
        None => None,
    }
}

/// The title of a note imported from `path`: the file name without its
/// extension, or `Imported Note`.
pub open spec fn title_spec(path: Seq<char>) -> Seq<char> {
    match path_file_stem(path) {
        Some(s) => s,
        None => "Imported Note"@,
    }
}

/// Extract a title from a file path (filename without extension).
pub fn title_from_path(path: &str) -> (r: String)
    ensures
        r@ == title_spec(path@),
{
    match file_stem_of(path) {
        Some(s) => s,
        None => crate::text::to_string("Imported Note"),
    }
}

/// The supported import formats.
#[derive(Debug, Clone, Copy, PartialEq, Eq, Structural)]
pub enum ImportFormat {
    /// `.txt` and `.md`: imported as they are.
    Text,
    /// `.html` and `.htm`: converted to markdown.
    Html,
    /// `.csv`: converted to a markdown table.
    Csv,
}

/// The lowercased extension of `path`, empty when it has none.
pub open spec fn ext_spec(path: Seq<char>) -> Seq<char> {
    match path_extension(path) {
        Some(e) => lowercase(e),
        None => Seq::empty(),
    }
}

/// The format an extension selects.
pub open spec fn format_of_ext(ext: Seq<char>) -> Option<ImportFormat> {
    if ext == seq!['t', 'x', 't'] || ext == seq!['m', 'd'] {
        Some(ImportFormat::Text)
    } else if ext == seq!['h', 't', 'm', 'l'] || ext == seq!['h', 't', 'm'] {
        Some(ImportFormat::Html)
    } else if ext == seq!['c', 's', 'v'] {
        Some(ImportFormat::Csv)
    } else {
        None
    }
}

/// The error for an unsupported extension.
pub open spec fn unsupported_message(ext: Seq<char>) -> Seq<char> {
    "Unsupported file format: ."@ + ext + ". Supported: .txt, .md, .html, .htm, .csv"@
}

/// The import format of `path`, chosen by its extension (case-insensitive).
pub fn import_format(path: &str) -> (r: Result<ImportFormat, String>)
    ensures
        r matches Ok(f) ==> format_of_ext(ext_spec(path@)) == Some(f),
        r matches Err(e) ==> format_of_ext(ext_spec(path@)) is None && e@ == unsupported_message(
            ext_spec(path@),
        ),
{
    let ext: String = match extension_of(path) {
        Some(e) => to_lowercase(e.as_str()),
        None => String::new(),
    };
    let ev = chars_of(ext.as_str());
    let w_txt: [char; 3] = ['t', 'x', 't'];
    let w_md: [char; 2] = ['m', 'd'];
    let w_html: [char; 4] = ['h', 't', 'm', 'l'];
    let w_htm: [char; 3] = ['h', 't', 'm'];
    let w_csv: [char; 3] = ['c', 's', 'v'];
    proof {
        assert(w_txt@ =~= seq!['t', 'x', 't']);
        assert(w_md@ =~= seq!['m', 'd']);
        assert(w_html@ =~= seq!['h', 't', 'm', 'l']);
        assert(w_htm@ =~= seq!['h', 't', 'm']);
        assert(w_csv@ =~= seq!['c', 's', 'v']);
        assert(ev@ == ext_spec(path@));
    }
    if is_word(ev.as_slice(), w_txt.as_slice()) || is_word(ev.as_slice(), w_md.as_slice()) {
        Ok(ImportFormat::Text)
    } else if is_word(ev.as_slice(), w_html.as_slice()) || is_word(ev.as_slice(), w_htm.as_slice()) {
        Ok(ImportFormat::Html)
    } else if is_word(ev.as_slice(), w_csv.as_slice()) {
        Ok(ImportFormat::Csv)
    } else {
        let mut msg = crate::text::to_string("Unsupported file format: .");
        crate::text::push_str(&mut msg, ext.as_str());
        crate::text::push_str(&mut msg, ". Supported: .txt, .md, .html, .htm, .csv");
        Err(msg)
    }
}

/// Import plain text or markdown content as it is.
pub fn import_text(path: &str, raw: String) -> (r: ImportedNote)
    ensures
        r.title@ == title_spec(path@),
        r.content@ == raw@,
{
    let title = title_from_path(path);
    ImportedNote { title, content: raw }
}

/// Import HTML content by converting basic tags to markdown.
pub fn import_html(path: &str, raw: &str) -> (r: ImportedNote)
    requires
        html_md_spec(raw@) is Some,
    ensures
        r.title@ == title_spec(path@),
        html_md_spec(raw@) == Some(r.content@),
{
    let title = title_from_path(path);
    let content = html_to_markdown(raw);
    ImportedNote { title, content }
}

/// Import CSV content by converting it to a markdown table.
pub fn import_csv(path: &str, raw: &str) -> (r: ImportedNote)
    ensures
        r.title@ == title_spec(path@),
        r.content@ == csv_table_spec(raw@),
{
    let title = title_from_path(path);
    let content = csv_to_markdown_table(raw);
    ImportedNote { title, content }
}

/// The content a file of format `f` with text `raw` is imported as (`None`
/// where the HTML conversion would slice at a position that is no char boundary).
pub open spec fn imported_content(f: ImportFormat, raw: Seq<char>) -> Option<Seq<char>> {
    match f {
        ImportFormat::Text => Some(raw),
        ImportFormat::Html => html_md_spec(raw),
        ImportFormat::Csv => Some(csv_table_spec(raw)),
    }
}

/// Whether importing `path` with the read outcome `read` would slice an HTML
/// text at a position that is no char boundary (a panic in `str` slicing).
pub open spec fn import_panics(path: Seq<char>, read: Result<String, String>) -> bool {
    match (format_of_ext(ext_spec(path)), read) {
        (Some(f), Ok(raw)) => imported_content(f, raw@) is None,
        _ => false,
    }
}

/// What importing `path` with the read outcome `read` gives: the
/// unsupported-format error for an unknown extension; else the read error
/// handed on; else the note titled after the file with the content of its
/// format.
pub open spec fn import_outcome(
    path: Seq<char>,
    read: Result<String, String>,
    r: Result<ImportedNote, String>,
) -> bool {
    &&& format_of_ext(ext_spec(path)) is None ==> (r matches Err(e) && e@ == unsupported_message(
        ext_spec(path),
    ))
    &&& format_of_ext(ext_spec(path)) is Some ==> match read {
        Err(m) => (r matches Err(e) && e@ == m@),
        Ok(raw) => (r matches Ok(n) && n.title@ == title_spec(path) && imported_content(
            format_of_ext(ext_spec(path)).unwrap(),
            raw@,
        ) == Some(n.content@)),
    }
}

/// Import a file, dispatching by extension; `read` is the outcome of reading
/// the file (its text, or the message for a read failure).
/// Supported: .txt, .md, .html, .htm, .csv
pub fn import_file(path: &str, read: Result<String, String>) -> (r: Result<ImportedNote, String>)
    requires
        !import_panics(path@, read),
    ensures
        import_outcome(path@, read, r),
{
    let format = match import_format(path) {
        Ok(f) => f,
        Err(e) => {
            return Err(e);
        },
    };
    let raw = match read {
        Ok(raw) => raw,
        Err(m) => {
            return Err(m);
        },
    };
    match format {
        ImportFormat::Text => Ok(import_text(path, raw)),
        ImportFormat::Html => Ok(import_html(path, raw.as_str())),
        ImportFormat::Csv => Ok(import_csv(path, raw.as_str())),
    }
}

/// `import_file` where it does not panic, `None` elsewhere.
pub fn try_import_file(path: &str, read: Result<String, String>) -> (r: Option<
    Result<ImportedNote, String>,
>)
    ensures
        r is Some <==> !import_panics(path@, read),
        r matches Some(x) ==> import_outcome(path@, read, x),
{
    let fmt = import_format(path);
    let ok: bool = match (&fmt, &read) {
        (Ok(ImportFormat::Html), Ok(raw)) => md_core(raw.as_str()).is_some(),
        _ => true,
    };
    if ok {
        Some(import_file(path, read))
    } else {
        None
    }
}

} // verus!
