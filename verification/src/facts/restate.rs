//! `restate:` — a prose number bound to a cell of a table in the SAME
//! document. The id names the table by one of its header cells (any
//! that no other table of the document shares), the row by its first
//! non-empty cell, the column by its header, each as a slug (lowercase,
//! runs of non-alphanumerics → `-`):
//!
//!   restate:survival:zod-912f0f5:declared-exported#paren                  → 1127
//!   restate:survival:zod-912f0f5:unmentioned-exported/declared-exported#paren-pct1 → 17.5
//!
//! `#lead` is the integer a cell opens with, `#paren` the one inside its
//! parentheses; a `-pct1` form divides two such cells, ×100, to one
//! decimal (half up, in integers). Every lookup that is not unique is a
//! refusal naming what it saw.

use crate::text::{
    all_digits, dec_chars, dec_value, decimal, digit, ends, ends_with, find_char, index_from,
    is_digit, lemma_index_from, lemma_rindex_to, rfind_char, rindex, slice_vec, starts,
    starts_with, same, alnum, chars_of, class_pred, front_of, is_alnum, lines, lines_of, lower, push_range,
    skip_while, split, split_char, string_of, to_lower, trim_by, trim_class, ws, Chars, Class,
    back_end, front_end, is_lower, is_upper, lemma_drop_while_end, lemma_skip_while,
};
use vstd::prelude::*;

verus! {

/// One Markdown table: its header slugs and its rows, each with its key.
pub struct Table {
    pub headers: Vec<String>,
    /// (row key, cells)
    pub rows: Vec<(String, Vec<String>)>,
}

/// A table as its header slugs and its keyed rows.
pub type TableModel = (Seq<Chars>, Seq<(Chars, Seq<Chars>)>);

pub open spec fn strings(v: Seq<String>) -> Seq<Chars> {
    v.map_values(|s: String| s@)
}

pub open spec fn table_view(t: Table) -> TableModel {
    (
        strings(t.headers@),
        t.rows@.map_values(|r: (String, Vec<String>)| (r.0@, strings(r.1@))),
    )
}

/// The slug of the first `n` characters before its ends are trimmed:
/// each alphanumeric lowered, each run of the others one `-`.
pub open spec fn slug_raw(s: Chars, n: int) -> Chars
    decreases n,
{
    if n <= 0 {
        Seq::empty()
    } else {
        let o = slug_raw(s, n - 1);
        let c = s[n - 1];
        if is_alnum(c) {
            o.push(lower(c))
        } else if o.len() > 0 && o.last() == '-' {
            o
        } else {
            o.push('-')
        }
    }
}

pub open spec fn slug_spec(s: Chars) -> Chars {
    trim_by(slug_raw(s, s.len() as int), class_pred(Class::Dash))
}

/// A character a slug may hold: a lowercase letter, a digit, or `-`.
pub open spec fn slug_char(c: char) -> bool {
    is_lower(c) || is_digit(c) || c == '-'
}

/// Two dashes side by side at `k - 1` and `k`.
pub open spec fn dashes_at(x: Chars, k: int) -> bool {
    x[k - 1] == '-' && x[k] == '-'
}

/// The shape of a slug: lowercase alphanumerics and single dashes, with
/// no dash at either end.
pub open spec fn slug_shaped(x: Chars) -> bool {
    &&& forall|k: int| 0 <= k < x.len() ==> slug_char(#[trigger] x[k])
    &&& forall|k: int| 0 < k < x.len() ==> !#[trigger] dashes_at(x, k)
    &&& x.len() > 0 ==> x[0] != '-' && x[x.len() - 1] != '-'
}

proof fn lemma_slug_raw_shape(s: Chars, n: int)
    requires
        0 <= n <= s.len(),
    ensures
        forall|k: int| 0 <= k < slug_raw(s, n).len() ==> slug_char(#[trigger] slug_raw(s, n)[k]),
        forall|k: int| 0 < k < slug_raw(s, n).len() ==> !#[trigger] dashes_at(slug_raw(s, n), k),
    decreases n,
{
    if n > 0 {
        lemma_slug_raw_shape(s, n - 1);
        let o = slug_raw(s, n - 1);
        let r = slug_raw(s, n);
        let c = s[n - 1];
        assert forall|k: int| 0 <= k < r.len() implies slug_char(#[trigger] r[k]) by {
            if k < o.len() {
                assert(r[k] == o[k]);
            } else if is_alnum(c) {
                assert(r[k] == lower(c));
                if is_upper(c) {
                    assert('a' <= lower(c) <= 'z');
                }
            }
        }
        assert forall|k: int| 0 < k < r.len() implies !#[trigger] dashes_at(r, k) by {
            if k < o.len() {
                assert(r[k] == o[k] && r[k - 1] == o[k - 1]);
                assert(!dashes_at(o, k));
            } else {
                assert(r[k - 1] == o[k - 1]);
                assert(o.last() == o[k - 1]);
            }
        }
    }
}

proof fn lemma_front_end_stops(s: Chars, pred: spec_fn(char) -> bool, from: int)
    requires
        0 <= from <= s.len(),
    ensures
        front_end(s, pred, from) < s.len() ==> !pred(s[front_end(s, pred, from)]),
    decreases s.len() - from,
{
    if from < s.len() && pred(s[from]) {
        lemma_front_end_stops(s, pred, from + 1);
    }
}

proof fn lemma_back_end_stops(s: Chars, pred: spec_fn(char) -> bool, to: int)
    requires
        0 <= to <= s.len(),
    ensures
        back_end(s, pred, to) > 0 ==> !pred(s[back_end(s, pred, to) - 1]),
    decreases to,
{
    if 0 < to && pred(s[to - 1]) {
        lemma_back_end_stops(s, pred, to - 1);
    }
}

/// The trimmed form of a run: the part between its first and its last
/// character outside the class.
proof fn lemma_trim_by(s: Chars, pred: spec_fn(char) -> bool)
    ensures
        exists|f: int, e: int|
            0 <= f <= e <= s.len() && trim_by(s, pred) == s.subrange(f, e) && (f < e ==> !pred(s[f])
                && !pred(s[e - 1])),
{
    lemma_skip_while(s, pred, 0);
    lemma_front_end_stops(s, pred, 0);
    assert(s.skip(0) =~= s);
    let f = front_end(s, pred, 0);
    let t = s.skip(f);
    lemma_drop_while_end(t, pred, t.len() as int);
    lemma_back_end_stops(t, pred, t.len() as int);
    assert(t.take(t.len() as int) =~= t);
    let b = back_end(t, pred, t.len() as int);
    assert(t.take(b) =~= s.subrange(f, f + b));
    if b > 0 {
        assert(t[b - 1] == s[f + b - 1]);
        assert(t[0] == s[f]);
    }
}

/// A slug has the shape of a slug.
pub proof fn lemma_slug_shaped(s: Chars)
    ensures
        slug_shaped(slug_spec(s)),
{
    let raw = slug_raw(s, s.len() as int);
    lemma_slug_raw_shape(s, s.len() as int);
    lemma_trim_by(raw, class_pred(Class::Dash));
    let (f, e) = choose|f: int, e: int|
        0 <= f <= e <= raw.len() && trim_by(raw, class_pred(Class::Dash)) == raw.subrange(f, e) && (f
            < e ==> !class_pred(Class::Dash)(raw[f]) && !class_pred(Class::Dash)(raw[e - 1]));
    let x = slug_spec(s);
    assert forall|k: int| 0 <= k < x.len() implies slug_char(#[trigger] x[k]) by {
        assert(x[k] == raw[f + k]);
    }
    assert forall|k: int| 0 < k < x.len() implies !#[trigger] dashes_at(x, k) by {
        assert(x[k] == raw[f + k] && x[k - 1] == raw[f + k - 1]);
        assert(!dashes_at(raw, f + k));
    }
}

/// Text already shaped like a slug is its own slug.
pub proof fn lemma_slug_fixed(x: Chars)
    requires
        slug_shaped(x),
    ensures
        slug_spec(x) == x,
{
    assert forall|n: int| 0 <= n <= x.len() implies #[trigger] slug_raw(x, n) == x.take(n) by {
        lemma_slug_raw_prefix(x, n);
    }
    assert(x.take(x.len() as int) =~= x);
    let pred = class_pred(Class::Dash);
    lemma_skip_while(x, pred, 0);
    assert(x.skip(0) =~= x);
    assert(front_end(x, pred, 0) == 0);
    assert(x.skip(0) =~= x);
    lemma_drop_while_end(x, pred, x.len() as int);
    assert(back_end(x, pred, x.len() as int) == x.len());
}

proof fn lemma_slug_raw_prefix(x: Chars, n: int)
    requires
        slug_shaped(x),
        0 <= n <= x.len(),
    ensures
        slug_raw(x, n) == x.take(n),
    decreases n,
{
    if n > 0 {
        lemma_slug_raw_prefix(x, n - 1);
        let c = x[n - 1];
        assert(slug_char(c));
        if c == '-' {
            assert(n - 1 > 0);
            assert(!dashes_at(x, n - 1));
            assert(x.take(n - 1).last() == x[n - 2]);
        }
        assert(x.take(n - 1).push(c) =~= x.take(n));
    }
}

/// Taking the slug twice gives the slug once.
pub proof fn lemma_slug_idempotent(s: Chars)
    ensures
        slug_spec(slug_spec(s)) == slug_spec(s),
{
    lemma_slug_shaped(s);
    lemma_slug_fixed(slug_spec(s));
}

/// Lowercase; every run of non-alphanumerics one `-`; trimmed.
pub fn slug(s: &str) -> (out: String)
    ensures
        out@ == slug_spec(s@),
        slug_shaped(out@),
{
    proof {
        lemma_slug_shaped(s@);
    }
    let v = chars_of(s);
    string_of(&slug_of(&v))
}

pub fn slug_of(v: &[char]) -> (out: Vec<char>)
    ensures
        out@ == slug_spec(v@),
{
    let mut raw: Vec<char> = Vec::new();
    let mut i: usize = 0;
    while i < v.len()
        invariant
            i <= v@.len(),
            raw@ == slug_raw(v@, i as int),
        decreases v.len() - i,
    {
        let c = v[i];
        if alnum(c) {
            raw.push(to_lower(c));
        } else if !(raw.len() > 0 && raw[raw.len() - 1] == '-') {
            raw.push('-');
        }
        i += 1;
    }
    trim_class(&raw, Class::Dash)
}

/// The cells of one `| a | b |` line: the line trimmed, stripped of its
/// outer bars, split at the others, each piece trimmed.
pub open spec fn cells_spec(line: Chars) -> Seq<Chars> {
    let inner = trim_by(trim_by(line, ws()), class_pred(Class::Bar));
    split(inner, '|').map_values(|c: Chars| trim_by(c, ws()))
}

/// The cells of one `| a | b |` line.
pub fn cells(line: &[char]) -> (out: Vec<Vec<char>>)
    ensures
        out@.map_values(|c: Vec<char>| c@) == cells_spec(line@),
{
    let t = trim_class(line, Class::Space);
    assert(class_pred(Class::Space) =~= ws());
    let inner = trim_class(&t, Class::Bar);
    let parts = split_char(&inner, '|');
    let ghost ps = parts@.map_values(|p: Vec<char>| p@);
    let mut out: Vec<Vec<char>> = Vec::new();
    let mut i: usize = 0;
    while i < parts.len()
        invariant
            i <= parts@.len(),
            ps == parts@.map_values(|p: Vec<char>| p@),
            ps == split(inner@, '|'),
            class_pred(Class::Space) == ws(),
            out@.map_values(|c: Vec<char>| c@) == ps.take(i as int).map_values(
                |c: Chars| trim_by(c, ws()),
            ),
        decreases parts.len() - i,
    {
        let ghost before = out@.map_values(|c: Vec<char>| c@);
        let c = trim_class(&parts[i], Class::Space);
        out.push(c);
        proof {
            assert(parts@[i as int]@ == ps[i as int]);
            assert(out@.map_values(|c: Vec<char>| c@) =~= before.push(trim_by(ps[i as int], ws())));
            assert(ps.take(i + 1).map_values(|c: Chars| trim_by(c, ws())) =~= ps.take(
                i as int,
            ).map_values(|c: Chars| trim_by(c, ws())).push(trim_by(ps[i as int], ws())));
        }
        i += 1;
    }
    assert(ps.take(parts@.len() as int) =~= ps);
    out
}

/// A character a separator line is made of.
pub open spec fn rule_char(c: char) -> bool {
    c == '|' || c == '-' || c == ':' || c == ' '
}

/// `|---|:--:|`: the trimmed line opens with a bar and holds nothing but
/// bars, dashes, colons and spaces.
pub open spec fn is_separator_spec(line: Chars) -> bool {
    let t = trim_by(line, ws());
    t.len() > 0 && t[0] == '|' && forall|i: int| 0 <= i < t.len() ==> rule_char(#[trigger] t[i])
}

pub fn is_separator(line: &[char]) -> (b: bool)
    ensures
        b == is_separator_spec(line@),
{
    let t = trim_class(line, Class::Space);
    assert(class_pred(Class::Space) =~= ws());
    if t.len() == 0 || t[0] != '|' {
        return false;
    }
    let mut i: usize = 0;
    while i < t.len()
        invariant
            t@ == trim_by(line@, ws()),
            i <= t@.len(),
            forall|j: int| 0 <= j < i ==> rule_char(#[trigger] t@[j]),
        decreases t.len() - i,
    {
        let c = t[i];
        if !(c == '|' || c == '-' || c == ':' || c == ' ') {
            assert(!rule_char(t@[i as int]));
            return false;
        }
        i += 1;
    }
    true
}

/// A table line: its first non-space character is a bar.
pub open spec fn is_row(line: Chars) -> bool {
    let t = skip_while(line, ws());
    t.len() > 0 && t[0] == '|'
}

pub fn row_line(line: &[char]) -> (b: bool)
    ensures
        b == is_row(line@),
{
    let a = front_of(line, Class::Space);
    assert(class_pred(Class::Space) =~= ws());
    a < line.len() && line[a] == '|'
}

/// The first line at or after `k` that is not a table line.
pub open spec fn row_end(ls: Seq<Chars>, k: int) -> int
    decreases ls.len() - k,
{
    if 0 <= k < ls.len() && is_row(ls[k]) {
        row_end(ls, k + 1)
    } else {
        k
    }
}

pub proof fn lemma_row_end(ls: Seq<Chars>, k: int)
    requires
        0 <= k,
    ensures
        k <= row_end(ls, k),
        k <= ls.len() ==> row_end(ls, k) <= ls.len(),
        forall|r: int| k <= r < row_end(ls, k) ==> is_row(#[trigger] ls[r]),
    decreases ls.len() - k,
{
    if 0 <= k < ls.len() && is_row(ls[k]) {
        lemma_row_end(ls, k + 1);
    }
}

/// A row's key: the slug of its first non-empty cell, from cell `j` on;
/// empty when every cell is.
pub open spec fn key_from(cs: Seq<Chars>, j: int) -> Chars
    decreases cs.len() - j,
{
    if j < 0 || j >= cs.len() {
        Seq::empty()
    } else if cs[j].len() > 0 {
        slug_spec(cs[j])
    } else {
        key_from(cs, j + 1)
    }
}

pub open spec fn row_model(line: Chars) -> (Chars, Seq<Chars>) {
    (key_from(cells_spec(line), 0), cells_spec(line))
}

/// The table whose header is line `i` and whose rows run to line `j`.
pub open spec fn table_at(ls: Seq<Chars>, i: int, j: int) -> TableModel {
    (
        cells_spec(ls[i]).map_values(|h: Chars| slug_spec(h)),
        ls.subrange(i + 2, j).map_values(|l: Chars| row_model(l)),
    )
}

/// Every table from line `i` on: a table line followed by a separator
/// opens one; its rows run to the first line that is not a table line.
pub open spec fn tables_from(ls: Seq<Chars>, i: int) -> Seq<TableModel>
    decreases ls.len() - i,
{
    if i < 0 || i + 1 >= ls.len() {
        Seq::empty()
    } else if !(is_row(ls[i]) && is_separator_spec(ls[i + 1])) {
        tables_from(ls, i + 1)
    } else {
        let j = row_end(ls, i + 2);
        proof {
            lemma_row_end(ls, i + 2);
        }
        seq![table_at(ls, i, j)] + tables_from(ls, j)
    }
}

pub open spec fn tables_spec(doc: Chars) -> Seq<TableModel> {
    tables_from(lines(doc), 0)
}

/// The key of a row's cells.
fn row_key(cs: &Vec<Vec<char>>) -> (key: Vec<char>)
    ensures
        key@ == key_from(cs@.map_values(|c: Vec<char>| c@), 0),
{
    let ghost m = cs@.map_values(|c: Vec<char>| c@);
    let mut j: usize = 0;
    while j < cs.len()
        invariant
            j <= cs@.len(),
            m == cs@.map_values(|c: Vec<char>| c@),
            key_from(m, 0) == key_from(m, j as int),
        decreases cs.len() - j,
    {
        if cs[j].len() > 0 {
            assert(m[j as int] == cs@[j as int]@);
            return slug_of(&cs[j]);
        }
        j += 1;
    }
    Vec::new()
}

/// The owned strings of character runs.
fn strings_of(v: &Vec<Vec<char>>) -> (out: Vec<String>)
    ensures
        strings(out@) == v@.map_values(|c: Vec<char>| c@),
{
    let mut out: Vec<String> = Vec::new();
    let mut i: usize = 0;
    while i < v.len()
        invariant
            i <= v@.len(),
            strings(out@) == v@.take(i as int).map_values(|c: Vec<char>| c@),
        decreases v.len() - i,
    {
        let ghost before = strings(out@);
        out.push(string_of(&v[i]));
        proof {
            assert(strings(out@) =~= before.push(v@[i as int]@));
            assert(v@.take(i + 1).map_values(|c: Vec<char>| c@) =~= v@.take(i as int).map_values(
                |c: Vec<char>| c@,
            ).push(v@[i as int]@));
        }
        i += 1;
    }
    assert(v@.take(v@.len() as int) =~= v@);
    out
}

/// Every Markdown table of `doc`: a header line, its separator, then
/// rows until the first line that is not a row.
pub fn tables(doc: &str) -> (out: Vec<Table>)
    ensures
        out@.map_values(|t: Table| table_view(t)) == tables_spec(doc@),
{
    let d = chars_of(doc);
    let ls = lines_of(&d);
    let ghost lm = ls@.map_values(|l: Vec<char>| l@);
    let mut out: Vec<Table> = Vec::new();
    let mut i: usize = 0;
    assert(out@.map_values(|t: Table| table_view(t)) + tables_from(lm, 0) =~= tables_from(lm, 0));
    while i < ls.len() && i + 1 < ls.len()
        invariant
            lm == ls@.map_values(|l: Vec<char>| l@),
            lm == lines(doc@),
            i <= ls@.len(),
            tables_spec(doc@) == out@.map_values(|t: Table| table_view(t)) + tables_from(
                lm,
                i as int,
            ),
        decreases ls.len() - i,
    {
        assert(lm[i as int] == ls@[i as int]@);
        assert(lm[i + 1] == ls@[i + 1]@);
        if !(row_line(&ls[i]) && is_separator(&ls[i + 1])) {
            i += 1;
            continue;
        }
        let hc = cells(&ls[i]);
        let mut headers: Vec<String> = Vec::new();
        let mut h: usize = 0;
        while h < hc.len()
            invariant
                h <= hc@.len(),
                strings(headers@) == hc@.take(h as int).map_values(|c: Vec<char>| slug_spec(c@)),
            decreases hc.len() - h,
        {
            let ghost before = strings(headers@);
            headers.push(string_of(&slug_of(&hc[h])));
            proof {
                assert(strings(headers@) =~= before.push(slug_spec(hc@[h as int]@)));
                assert(hc@.take(h + 1).map_values(|c: Vec<char>| slug_spec(c@)) =~= hc@.take(
                    h as int,
                ).map_values(|c: Vec<char>| slug_spec(c@)).push(slug_spec(hc@[h as int]@)));
            }
            h += 1;
        }
        proof {
            assert(hc@.take(hc@.len() as int) =~= hc@);
            assert(strings(headers@) =~= cells_spec(lm[i as int]).map_values(|h: Chars| slug_spec(h)));
            lemma_row_end(lm, i + 2);
        }
        let start = i + 2;
        let mut rows: Vec<(String, Vec<String>)> = Vec::new();
        i = start;
        while i < ls.len() && row_line(&ls[i])
            invariant
                lm == ls@.map_values(|l: Vec<char>| l@),
                start <= i <= ls@.len(),
                row_end(lm, start as int) == row_end(lm, i as int),
                rows@.map_values(|r: (String, Vec<String>)| (r.0@, strings(r.1@))) == lm.subrange(
                    start as int,
                    i as int,
                ).map_values(|l: Chars| row_model(l)),
            decreases ls.len() - i,
        {
            let ghost before = rows@.map_values(|r: (String, Vec<String>)| (r.0@, strings(r.1@)));
            assert(lm[i as int] == ls@[i as int]@);
            let rc = cells(&ls[i]);
            let key = row_key(&rc);
            rows.push((string_of(&key), strings_of(&rc)));
            proof {
                assert(rows@.map_values(|r: (String, Vec<String>)| (r.0@, strings(r.1@))) =~= before.push(
                    row_model(lm[i as int]),
                ));
                assert(lm.subrange(start as int, i + 1).map_values(|l: Chars| row_model(l))
                    =~= lm.subrange(start as int, i as int).map_values(|l: Chars| row_model(l)).push(
                    row_model(lm[i as int]),
                ));
            }
            i += 1;
        }
        let ghost before = out@.map_values(|t: Table| table_view(t));
        let table = Table { headers, rows };
        assert(table_view(table) == table_at(lm, (start - 2) as int, i as int));
        out.push(table);
        proof {
            assert(out@.map_values(|t: Table| table_view(t)) =~= before.push(
                table_at(lm, (start - 2) as int, i as int),
            ));
            assert(before + tables_from(lm, (start - 2) as int) =~= before.push(
                table_at(lm, (start - 2) as int, i as int),
            ) + tables_from(lm, i as int));
        }
    }
    assert(tables_from(lm, i as int) =~= Seq::<TableModel>::empty());
    assert(out@.map_values(|t: Table| table_view(t)) + Seq::<TableModel>::empty() =~= out@.map_values(
        |t: Table| table_view(t),
    ));
    out
}

/// What a lookup was after.
pub enum Lookup {
    /// A table with this header.
    Table { header: String },
    /// A row of a table.
    Row { row: String, table: String },
    /// A column of a table.
    Column { col: String, table: String },
}

/// Why a `restate:` id cannot be read back from its document.
pub enum RestateError {
    /// Nothing matched; what the document has instead.
    Absent { what: Lookup, seen: Vec<String> },
    /// More than one thing matched.
    Ambiguous { what: Lookup, count: usize },
    /// A cell with no digit run where a number was asked.
    NoNumber { cell: String },
    /// `#paren` of a cell without a parenthesis.
    NoParen { cell: String },
    /// A part other than `lead` or `paren`.
    UnknownPart { part: String },
    /// A digit run past `u64`.
    TooLarge { cell: String },
    /// A ratio whose scaled numerator passes `u64`.
    Overflow,
    /// A ratio over zero.
    ZeroRatio,
    /// An id not shaped `restate:<table>:<row>:<col>[/<col>]#<form>`.
    BadId { id: String },
    /// A `-pct1` form that names one column.
    OneColumn { id: String },
}

/// The model of a lookup.
pub enum Sought {
    Table(Chars),
    Row(Chars, Chars),
    Column(Chars, Chars),
}

/// The model of a refusal.
pub enum Refusal {
    Absent(Sought, Seq<Chars>),
    Ambiguous(Sought, nat),
    NoNumber(Chars),
    NoParen(Chars),
    UnknownPart(Chars),
    TooLarge(Chars),
    Overflow,
    ZeroRatio,
    BadId(Chars),
    OneColumn(Chars),
}

pub open spec fn lookup_view(l: Lookup) -> Sought {
    match l {
        Lookup::Table { header } => Sought::Table(header@),
        Lookup::Row { row, table } => Sought::Row(row@, table@),
        Lookup::Column { col, table } => Sought::Column(col@, table@),
    }
}

pub open spec fn refusal_view(e: RestateError) -> Refusal {
    match e {
        RestateError::Absent { what, seen } => Refusal::Absent(lookup_view(what), strings(seen@)),
        RestateError::Ambiguous { what, count } => Refusal::Ambiguous(lookup_view(what), count as nat),
        RestateError::NoNumber { cell } => Refusal::NoNumber(cell@),
        RestateError::NoParen { cell } => Refusal::NoParen(cell@),
        RestateError::UnknownPart { part } => Refusal::UnknownPart(part@),
        RestateError::TooLarge { cell } => Refusal::TooLarge(cell@),
        RestateError::Overflow => Refusal::Overflow,
        RestateError::ZeroRatio => Refusal::ZeroRatio,
        RestateError::BadId { id } => Refusal::BadId(id@),
        RestateError::OneColumn { id } => Refusal::OneColumn(id@),
    }
}

/// How many of the first `n` items satisfy `p`.
pub open spec fn count_where<A>(s: Seq<A>, p: spec_fn(A) -> bool, n: int) -> nat
    decreases n,
{
    if n <= 0 {
        0
    } else {
        count_where(s, p, n - 1) + if p(s[n - 1]) {
            1nat
        } else {
            0nat
        }
    }
}

/// The first index at or after `i` whose item satisfies `p`.
pub open spec fn first_where<A>(s: Seq<A>, p: spec_fn(A) -> bool, i: int) -> int
    decreases s.len() - i,
{
    if i < 0 || i >= s.len() {
        s.len() as int
    } else if p(s[i]) {
        i
    } else {
        first_where(s, p, i + 1)
    }
}

pub open spec fn has_header(h: Chars) -> spec_fn(TableModel) -> bool {
    |t: TableModel| t.0.contains(h)
}

pub open spec fn keyed(row: Chars) -> spec_fn((Chars, Seq<Chars>)) -> bool {
    |r: (Chars, Seq<Chars>)| r.0 == row
}

pub open spec fn named(col: Chars) -> spec_fn(Chars) -> bool {
    |h: Chars| h == col
}

/// `hs` joined by bars.
pub open spec fn join_bar(hs: Seq<Chars>) -> Chars
    decreases hs.len(),
{
    if hs.len() == 0 {
        Seq::empty()
    } else if hs.len() == 1 {
        hs[0]
    } else {
        join_bar(hs.drop_last()) + seq!['|'] + hs.last()
    }
}

/// The cell at (table, row, column) of the tables `ts`.
pub open spec fn cell_spec(ts: Seq<TableModel>, table: Chars, row: Chars, col: Chars) -> Result<
    Chars,
    Refusal,
> {
    let nt = count_where(ts, has_header(table), ts.len() as int);
    if nt == 0 {
        Err(Refusal::Absent(Sought::Table(table), ts.map_values(|t: TableModel| join_bar(t.0))))
    } else if nt > 1 {
        Err(Refusal::Ambiguous(Sought::Table(table), nt))
    } else {
        let t = ts[first_where(ts, has_header(table), 0)];
        let nr = count_where(t.1, keyed(row), t.1.len() as int);
        if nr == 0 {
            Err(
                Refusal::Absent(
                    Sought::Row(row, table),
                    t.1.map_values(|r: (Chars, Seq<Chars>)| r.0),
                ),
            )
        } else if nr > 1 {
            Err(Refusal::Ambiguous(Sought::Row(row, table), nr))
        } else {
            let cs = t.1[first_where(t.1, keyed(row), 0)].1;
            let nc = count_where(t.0, named(col), t.0.len() as int);
            if nc == 0 {
                Err(Refusal::Absent(Sought::Column(col, table), t.0))
            } else if nc > 1 {
                Err(Refusal::Ambiguous(Sought::Column(col, table), nc))
            } else {
                let i = first_where(t.0, named(col), 0);
                Ok(
                    if i < cs.len() {
                        cs[i]
                    } else {
                        Seq::empty()
                    },
                )
            }
        }
    }
}

/// Whether a string holds exactly these characters.
fn is_str(a: &String, b: &[char]) -> (r: bool)
    ensures
        r == (a@ == b@),
{
    same(&chars_of(a.as_str()), b)
}

/// How many tables carry the header, and the first that does.
fn pick_table(ts: &Vec<Table>, h: &[char]) -> (r: (usize, usize))
    ensures
        r.0 == count_where(ts@.map_values(|t: Table| table_view(t)), has_header(h@), ts@.len() as int),
        r.0 > 0 ==> r.1 == first_where(ts@.map_values(|t: Table| table_view(t)), has_header(h@), 0)
            && r.1 < ts@.len(),
{
    let ghost m = ts@.map_values(|t: Table| table_view(t));
    let mut n: usize = 0;
    let mut first: usize = 0;
    let mut i: usize = 0;
    while i < ts.len()
        invariant
            m == ts@.map_values(|t: Table| table_view(t)),
            i <= ts@.len(),
            n == count_where(m, has_header(h@), i as int),
            n <= i,
            n == 0 ==> first_where(m, has_header(h@), 0) == first_where(m, has_header(h@), i as int),
            n > 0 ==> first == first_where(m, has_header(h@), 0) && first < i,
        decreases ts.len() - i,
    {
        let hs = &ts[i].headers;
        let mut found = false;
        let mut j: usize = 0;
        while j < hs.len() && !found
            invariant
                j <= hs@.len(),
                found ==> j > 0 && hs@[j - 1]@ == h@,
                !found ==> forall|k: int| 0 <= k < j ==> hs@[k]@ != h@,
            decreases hs.len() - j,
        {
            if is_str(&hs[j], h) {
                found = true;
            }
            j += 1;
        }
        proof {
            let hm = m[i as int].0;
            assert(hm == strings(hs@));
            if found {
                assert(hm[j - 1] == h@);
            } else {
                assert forall|k: int| 0 <= k < hm.len() implies hm[k] != h@ by {
                    assert(hm[k] == hs@[k]@);
                }
            }
            assert(has_header(h@)(m[i as int]) == found);
        }
        if found {
            if n == 0 {
                first = i;
            }
            n += 1;
        }
        i += 1;
    }
    (n, first)
}

/// How many rows carry the key, and the first that does.
fn pick_row(rows: &Vec<(String, Vec<String>)>, row: &[char]) -> (r: (usize, usize))
    ensures
        ({
            let m = rows@.map_values(|r: (String, Vec<String>)| (r.0@, strings(r.1@)));
            &&& r.0 == count_where(m, keyed(row@), m.len() as int)
            &&& r.0 > 0 ==> r.1 == first_where(m, keyed(row@), 0) && r.1 < m.len()
        }),
{
    let ghost m = rows@.map_values(|r: (String, Vec<String>)| (r.0@, strings(r.1@)));
    let mut n: usize = 0;
    let mut first: usize = 0;
    let mut i: usize = 0;
    while i < rows.len()
        invariant
            m == rows@.map_values(|r: (String, Vec<String>)| (r.0@, strings(r.1@))),
            i <= rows@.len(),
            n == count_where(m, keyed(row@), i as int),
            n <= i,
            n == 0 ==> first_where(m, keyed(row@), 0) == first_where(m, keyed(row@), i as int),
            n > 0 ==> first == first_where(m, keyed(row@), 0) && first < i,
        decreases rows.len() - i,
    {
        let found = is_str(&rows[i].0, row);
        assert(keyed(row@)(m[i as int]) == found);
        if found {
            if n == 0 {
                first = i;
            }
            n += 1;
        }
        i += 1;
    }
    (n, first)
}

/// How many headers are the column, and the first that is.
fn pick_col(hs: &Vec<String>, col: &[char]) -> (r: (usize, usize))
    ensures
        r.0 == count_where(strings(hs@), named(col@), hs@.len() as int),
        r.0 > 0 ==> r.1 == first_where(strings(hs@), named(col@), 0) && r.1 < hs@.len(),
{
    let ghost m = strings(hs@);
    let mut n: usize = 0;
    let mut first: usize = 0;
    let mut i: usize = 0;
    while i < hs.len()
        invariant
            m == strings(hs@),
            i <= hs@.len(),
            n == count_where(m, named(col@), i as int),
            n <= i,
            n == 0 ==> first_where(m, named(col@), 0) == first_where(m, named(col@), i as int),
            n > 0 ==> first == first_where(m, named(col@), 0) && first < i,
        decreases hs.len() - i,
    {
        let found = is_str(&hs[i], col);
        assert(named(col@)(m[i as int]) == found);
        if found {
            if n == 0 {
                first = i;
            }
            n += 1;
        }
        i += 1;
    }
    (n, first)
}

/// Header slugs joined by bars: how a table is named to a reader.
fn joined(hs: &Vec<String>) -> (out: String)
    ensures
        out@ == join_bar(strings(hs@)),
{
    let ghost m = strings(hs@);
    let mut v: Vec<char> = Vec::new();
    let mut i: usize = 0;
    while i < hs.len()
        invariant
            m == strings(hs@),
            i <= hs@.len(),
            v@ == join_bar(m.take(i as int)),
        decreases hs.len() - i,
    {
        let h = chars_of(hs[i].as_str());
        if i > 0 {
            v.push('|');
        }
        push_range(&mut v, &h, 0, h.len());
        proof {
            assert(h@.subrange(0, h@.len() as int) =~= h@);
            assert(m.take(i + 1).drop_last() =~= m.take(i as int));
            if i == 0 {
                assert(v@ =~= m.take(1)[0]);
            }
        }
        i += 1;
    }
    assert(m.take(hs@.len() as int) =~= m);
    string_of(&v)
}

fn clone_strings(v: &Vec<String>) -> (out: Vec<String>)
    ensures
        strings(out@) == strings(v@),
{
    let mut out: Vec<String> = Vec::new();
    let mut i: usize = 0;
    while i < v.len()
        invariant
            i <= v@.len(),
            strings(out@) == strings(v@.take(i as int)),
        decreases v.len() - i,
    {
        let ghost before = strings(out@);
        out.push(string_of(&chars_of(v[i].as_str())));
        proof {
            assert(strings(out@) =~= before.push(v@[i as int]@));
            assert(strings(v@.take(i + 1)) =~= strings(v@.take(i as int)).push(v@[i as int]@));
        }
        i += 1;
    }
    assert(v@.take(v@.len() as int) =~= v@);
    out
}

/// The cell at (table, row, column) of the tables `ts`.
fn cell_in(ts: &Vec<Table>, table: &[char], row: &[char], col: &[char]) -> (r: Result<
    String,
    RestateError,
>)
    ensures
        match (r, cell_spec(ts@.map_values(|t: Table| table_view(t)), table@, row@, col@)) {
            (Ok(c), Ok(m)) => c@ == m,
            (Err(e), Err(f)) => refusal_view(e) == f,
            _ => false,
        },
{
    let ghost m = ts@.map_values(|t: Table| table_view(t));
    let (nt, ti) = pick_table(ts, table);
    if nt != 1 {
        if nt == 0 {
            let mut seen: Vec<String> = Vec::new();
            let mut i: usize = 0;
            while i < ts.len()
                invariant
                    m == ts@.map_values(|t: Table| table_view(t)),
                    i <= ts@.len(),
                    strings(seen@) == m.take(i as int).map_values(|t: TableModel| join_bar(t.0)),
                decreases ts.len() - i,
            {
                let ghost before = strings(seen@);
                seen.push(joined(&ts[i].headers));
                proof {
                    assert(strings(seen@) =~= before.push(join_bar(m[i as int].0)));
                    assert(m.take(i + 1).map_values(|t: TableModel| join_bar(t.0)) =~= m.take(
                        i as int,
                    ).map_values(|t: TableModel| join_bar(t.0)).push(join_bar(m[i as int].0)));
                }
                i += 1;
            }
            assert(m.take(ts@.len() as int) =~= m);
            return Err(RestateError::Absent { what: Lookup::Table { header: string_of(table) }, seen });
        }
        return Err(RestateError::Ambiguous { what: Lookup::Table { header: string_of(table) }, count: nt });
    }
    let t = &ts[ti];
    assert(table_view(*t) == m[ti as int]);
    let ghost rm = t.rows@.map_values(|r: (String, Vec<String>)| (r.0@, strings(r.1@)));
    let (nr, ri) = pick_row(&t.rows, row);
    if nr != 1 {
        if nr == 0 {
            let mut seen: Vec<String> = Vec::new();
            let mut i: usize = 0;
            while i < t.rows.len()
                invariant
                    rm == t.rows@.map_values(|r: (String, Vec<String>)| (r.0@, strings(r.1@))),
                    i <= t.rows@.len(),
                    strings(seen@) == rm.take(i as int).map_values(|r: (Chars, Seq<Chars>)| r.0),
                decreases t.rows.len() - i,
            {
                let ghost before = strings(seen@);
                seen.push(string_of(&chars_of(t.rows[i].0.as_str())));
                proof {
                    assert(strings(seen@) =~= before.push(rm[i as int].0));
                    assert(rm.take(i + 1).map_values(|r: (Chars, Seq<Chars>)| r.0) =~= rm.take(
                        i as int,
                    ).map_values(|r: (Chars, Seq<Chars>)| r.0).push(rm[i as int].0));
                }
                i += 1;
            }
            assert(rm.take(t.rows@.len() as int) =~= rm);
            return Err(RestateError::Absent {
                what: Lookup::Row { row: string_of(row), table: string_of(table) },
                seen,
            });
        }
        return Err(RestateError::Ambiguous {
            what: Lookup::Row { row: string_of(row), table: string_of(table) },
            count: nr,
        });
    }
    let cs = &t.rows[ri].1;
    assert(strings(cs@) == rm[ri as int].1);
    let (nc, ci) = pick_col(&t.headers, col);
    if nc != 1 {
        if nc == 0 {
            return Err(RestateError::Absent {
                what: Lookup::Column { col: string_of(col), table: string_of(table) },
                seen: clone_strings(&t.headers),
            });
        }
        return Err(RestateError::Ambiguous {
            what: Lookup::Column { col: string_of(col), table: string_of(table) },
            count: nc,
        });
    }
    if ci < cs.len() {
        Ok(string_of(&chars_of(cs[ci].as_str())))
    } else {
        Ok(String::new())
    }
}

/// The cell at (table, row, column) of `doc`.
pub fn cell(doc: &str, table: &str, row: &str, col: &str) -> (r: Result<String, RestateError>)
    ensures
        match (r, cell_spec(tables_spec(doc@), table@, row@, col@)) {
            (Ok(c), Ok(m)) => c@ == m,
            (Err(e), Err(f)) => refusal_view(e) == f,
            _ => false,
        },
{
    let ts = tables(doc);
    cell_in(&ts, &chars_of(table), &chars_of(row), &chars_of(col))
}

/// The first digit at or after `i`.
pub open spec fn digit_from(c: Chars, i: int) -> Option<int>
    decreases c.len() - i,
{
    if i < 0 || i >= c.len() {
        None
    } else if is_digit(c[i]) {
        Some(i)
    } else {
        digit_from(c, i + 1)
    }
}

/// Where the digit run that starts at `i` ends.
pub open spec fn run_end(c: Chars, i: int) -> int
    decreases c.len() - i,
{
    if 0 <= i < c.len() && is_digit(c[i]) {
        run_end(c, i + 1)
    } else {
        i
    }
}

pub proof fn lemma_run_end(c: Chars, i: int)
    requires
        0 <= i <= c.len(),
    ensures
        i <= run_end(c, i) <= c.len(),
        all_digits(c.subrange(i, run_end(c, i))),
    decreases c.len() - i,
{
    if i < c.len() && is_digit(c[i]) {
        lemma_run_end(c, i + 1);
        assert(c.subrange(i, run_end(c, i)) =~= seq![c[i]] + c.subrange(i + 1, run_end(c, i)));
    }
}

/// A longer run of digits is worth at least as much.
pub proof fn lemma_dec_prefix(s: Chars, k: int)
    requires
        0 <= k <= s.len(),
    ensures
        dec_value(s.take(k)) <= dec_value(s),
    decreases s.len() - k,
{
    if k < s.len() {
        lemma_dec_prefix(s, k + 1);
        assert(s.take(k + 1).drop_last() =~= s.take(k));
    } else {
        assert(s.take(k) =~= s);
    }
}

/// The first digit run at or after `from` in a cell, read as a number.
pub open spec fn digits_spec(cell: Chars, from: int) -> Result<nat, Refusal> {
    match digit_from(cell, from) {
        None => Err(Refusal::NoNumber(cell)),
        Some(a) => {
            let v = dec_value(cell.subrange(a, run_end(cell, a)));
            if v > u64::MAX {
                Err(Refusal::TooLarge(cell))
            } else {
                Ok(v)
            }
        },
    }
}

/// The first digit run at or after `from` in `cell`.
fn digits(cell: &[char], from: usize) -> (r: Result<u64, RestateError>)
    requires
        from <= cell@.len(),
    ensures
        match (r, digits_spec(cell@, from as int)) {
            (Ok(n), Ok(v)) => n == v,
            (Err(e), Err(f)) => refusal_view(e) == f,
            _ => false,
        },
{
    let mut a = from;
    while a < cell.len() && !digit(cell[a])
        invariant
            from <= a <= cell@.len(),
            digit_from(cell@, from as int) == digit_from(cell@, a as int),
        decreases cell.len() - a,
    {
        a += 1;
    }
    if a == cell.len() {
        return Err(RestateError::NoNumber { cell: string_of(cell) });
    }
    let mut b = a;
    while b < cell.len() && digit(cell[b])
        invariant
            a <= b <= cell@.len(),
            run_end(cell@, a as int) == run_end(cell@, b as int),
        decreases cell.len() - b,
    {
        b += 1;
    }
    let ghost run = cell@.subrange(a as int, b as int);
    proof {
        lemma_run_end(cell@, a as int);
    }
    assert(digit_from(cell@, from as int) == Some(a as int));
    assert(run_end(cell@, a as int) == b);
    let mut x: u64 = 0;
    let mut k = a;
    while k < b
        invariant
            digit_from(cell@, from as int) == Some(a as int),
            run_end(cell@, a as int) == b,
            a <= k <= b <= cell@.len(),
            run == cell@.subrange(a as int, b as int),
            all_digits(run),
            x == dec_value(run.take(k - a)),
        decreases b - k,
    {
        assert(is_digit(run[k - a]));
        let d = (cell[k] as u32 - '0' as u32) as u64;
        assert(run.take(k - a + 1).drop_last() =~= run.take(k - a));
        assert(dec_value(run.take(k - a + 1)) == x * 10 + d);
        let next = match x.checked_mul(10) {
            Some(y) => y.checked_add(d),
            None => None,
        };
        match next {
            Some(y) => {
                x = y;
            },
            None => {
                proof {
                    lemma_dec_prefix(run, k - a + 1);
                }
                return Err(RestateError::TooLarge { cell: string_of(cell) });
            },
        }
        k += 1;
    }
    assert(run.take(b - a) =~= run);
    Ok(x)
}

/// `#lead` / `#paren` of one cell.
pub open spec fn number_spec(cell: Chars, part: Chars) -> Result<nat, Refusal> {
    if part == "lead"@ {
        digits_spec(cell, 0)
    } else if part == "paren"@ {
        match index_from(cell, '(', 0) {
            None => Err(Refusal::NoParen(cell)),
            Some(p) => digits_spec(cell, p),
        }
    } else {
        Err(Refusal::UnknownPart(part))
    }
}

/// `#lead` / `#paren` of one cell.
fn number(cell: &[char], part: &[char]) -> (r: Result<u64, RestateError>)
    ensures
        match (r, number_spec(cell@, part@)) {
            (Ok(n), Ok(v)) => n == v,
            (Err(e), Err(f)) => refusal_view(e) == f,
            _ => false,
        },
{
    if same(part, &chars_of("lead")) {
        assert(part@ == "lead"@);
        let r = digits(cell, 0);
        assert(number_spec(cell@, part@) == digits_spec(cell@, 0));
        r
    } else if same(part, &chars_of("paren")) {
        assert(part@ != "lead"@);
        assert(part@ == "paren"@);
        let n = cell.len();
        proof {
            lemma_index_from(cell@, '(', 0);
        }
        match find_char(cell, '(') {
            None => {
                assert(number_spec(cell@, part@) == Err::<nat, Refusal>(Refusal::NoParen(cell@)));
                Err(RestateError::NoParen { cell: string_of(cell) })
            },
            Some(p) => {
                assert(number_spec(cell@, part@) == digits_spec(cell@, p as int));
                digits(cell, p)
            },
        }
    } else {
        assert(number_spec(cell@, part@) == Err::<nat, Refusal>(Refusal::UnknownPart(part@)));
        Err(RestateError::UnknownPart { part: string_of(part) })
    }
}

/// 100·a/b in tenths, half up.
pub open spec fn tenths(a: nat, b: nat) -> nat {
    ((1000 * a + b / 2) / b) as nat
}

/// 100·a/b to one decimal, half up, in integers.
pub open spec fn pct1_spec(a: nat, b: nat) -> Chars {
    let t = tenths(a, b);
    dec_chars(t / 10) + seq!['.'] + dec_chars(t % 10)
}

/// 100·a/b to one decimal, half up, in integers.
pub fn pct1(a: u64, b: u64) -> (out: String)
    requires
        b > 0,
        1000 * a + b / 2 <= u64::MAX,
    ensures
        out@ == pct1_spec(a as nat, b as nat),
{
    let t = (1000 * a + b / 2) / b;
    let mut v = decimal(t / 10);
    v.push('.');
    let r = decimal(t % 10);
    push_range(&mut v, &r, 0, r.len());
    assert(r@.subrange(0, r@.len() as int) =~= r@);
    string_of(&v)
}

/// The value a `restate:` id names in `doc`.
pub open spec fn resolve_spec(doc: Chars, id: Chars) -> Result<Chars, Refusal> {
    match rindex(id, '#') {
        None => Err(Refusal::BadId(id)),
        Some(h) => {
            let path = id.take(h);
            let form = id.skip(h + 1);
            if !starts(path, "restate:"@) {
                Err(Refusal::BadId(id))
            } else {
                let parts = split(path.skip(8), ':');
                if parts.len() != 3 {
                    Err(Refusal::BadId(id))
                } else {
                    let ts = tables_spec(doc);
                    let ratio = ends(form, "-pct1"@);
                    let part = if ratio {
                        form.take(form.len() - 5)
                    } else {
                        form
                    };
                    if !ratio {
                        match cell_spec(ts, parts[0], parts[1], parts[2]) {
                            Err(f) => Err(f),
                            Ok(c) => match number_spec(c, part) {
                                Err(f) => Err(f),
                                Ok(n) => Ok(dec_chars(n)),
                            },
                        }
                    } else {
                        match index_from(parts[2], '/', 0) {
                            None => Err(Refusal::OneColumn(id)),
                            Some(k) => match cell_spec(ts, parts[0], parts[1], parts[2].take(k)) {
                                Err(f) => Err(f),
                                Ok(ca) => match number_spec(ca, part) {
                                    Err(f) => Err(f),
                                    Ok(na) => match cell_spec(
                                        ts,
                                        parts[0],
                                        parts[1],
                                        parts[2].skip(k + 1),
                                    ) {
                                        Err(f) => Err(f),
                                        Ok(cb) => match number_spec(cb, part) {
                                            Err(f) => Err(f),
                                            Ok(nb) => if nb == 0 {
                                                Err(Refusal::ZeroRatio)
                                            } else if 1000 * na + nb / 2 > u64::MAX {
                                                Err(Refusal::Overflow)
                                            } else {
                                                Ok(pct1_spec(na, nb))
                                            },
                                        },
                                    },
                                },
                            },
                        }
                    }
                }
            }
        },
    }
}

/// The value a `restate:` id names in `doc`. An id that does not
/// resolve (a malformed id, a lookup that finds no cell or several, a
/// cell without its number) is refused with the `RestateError` that
/// says why; the refusal is a value for the caller to report, never a
/// panic.
pub fn resolve(doc: &str, id: &str) -> (r: Result<String, RestateError>)
    ensures
        match (r, resolve_spec(doc@, id@)) {
            (Ok(v), Ok(m)) => v@ == m,
            (Err(e), Err(f)) => refusal_view(e) == f,
            _ => false,
        },
{
    let idc = chars_of(id);
    proof {
        lemma_rindex_to(idc@, '#', idc@.len() as int);
    }
    let h = match rfind_char(&idc, '#') {
        None => return Err(RestateError::BadId { id: id.to_owned() }),
        Some(h) => h,
    };
    assert(h < idc@.len());
    assert(h < idc.len());
    let path = slice_vec(&idc, 0, h);
    let form = slice_vec(&idc, h + 1, idc.len());
    assert(path@ =~= idc@.take(h as int));
    assert(form@ =~= idc@.skip(h + 1));
    let prefix = chars_of("restate:");
    proof {
        reveal_strlit("restate:");
    }
    if !starts_with(&path, &prefix) {
        return Err(RestateError::BadId { id: id.to_owned() });
    }
    let rest = slice_vec(&path, 8, path.len());
    assert(rest@ =~= path@.skip(8));
    let parts = split_char(&rest, ':');
    if parts.len() != 3 {
        return Err(RestateError::BadId { id: id.to_owned() });
    }
    let ghost pm = parts@.map_values(|p: Vec<char>| p@);
    assert(pm[0] == parts@[0]@ && pm[1] == parts@[1]@ && pm[2] == parts@[2]@);
    let suffix = chars_of("-pct1");
    proof {
        reveal_strlit("-pct1");
    }
    let ratio = ends_with(&form, &suffix);
    let part = if ratio {
        slice_vec(&form, 0, form.len() - 5)
    } else {
        slice_vec(&form, 0, form.len())
    };
    assert(ratio ==> part@ =~= form@.take(form@.len() - 5));
    assert(!ratio ==> part@ =~= form@);
    let ts = tables(doc);
    if !ratio {
        let c = cell_in(&ts, &parts[0], &parts[1], &parts[2])?;
        let n = number(&chars_of(c.as_str()), &part)?;
        return Ok(string_of(&decimal(n)));
    }
    proof {
        lemma_index_from(parts@[2]@, '/', 0);
    }
    let k = match find_char(&parts[2], '/') {
        None => return Err(RestateError::OneColumn { id: id.to_owned() }),
        Some(k) => k,
    };
    assert(k < parts@[2]@.len());
    assert(k < parts[2].len());
    let ca_col = slice_vec(&parts[2], 0, k);
    let cb_col = slice_vec(&parts[2], k + 1, parts[2].len());
    assert(ca_col@ =~= parts@[2]@.take(k as int));
    assert(cb_col@ =~= parts@[2]@.skip(k + 1));
    let ca = cell_in(&ts, &parts[0], &parts[1], &ca_col)?;
    let na = number(&chars_of(ca.as_str()), &part)?;
    let cb = cell_in(&ts, &parts[0], &parts[1], &cb_col)?;
    let nb = number(&chars_of(cb.as_str()), &part)?;
    if nb == 0 {
        return Err(RestateError::ZeroRatio);
    }
    if na > (u64::MAX - nb / 2) / 1000 {
        return Err(RestateError::Overflow);
    }
    Ok(pct1(na, nb))
}

} // verus!
