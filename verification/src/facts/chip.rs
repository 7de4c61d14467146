//! The inline chip channel: `<!--ce:ID-->…<!--/ce-->` around a value in
//! prose or a code span. Markdown and HTML both hide the comment, so a
//! chip is invisible to a reader. A span is read as maximal runs of the
//! id's form characters (in the surface's language) and must hold
//! exactly ONE such run — that rule is what makes a bless safe: the run
//! is replaced, the surrounding text is untouched.
//!
//! Positions here count characters of the text.

use super::form::{form_of, token_char_spec, Form};
use super::form::form_named;
use crate::text::{value_for, value_in, value_from, pairs_view,
    at, chars_of, concat, find_at, find_from, lemma_find_from, push_range, same, slice_vec,
    string_of, Chars,
};
use std::ops::Range;
use vstd::prelude::*;

verus! {

pub const OPEN: &'static str = "<!--ce:";
pub const CLOSE: &'static str = "<!--/ce-->";

/// One chip: its id and what lies between its two tags — as bytes of
/// the text (`chips`), or as characters of it (`chips_of`).
pub struct Chip {
    pub id: String,
    /// The span between the two tags.
    pub span: Range<usize>,
}

/// Why a surface's chips cannot be read or rendered.
#[derive(Debug)]
pub enum ChipFault {
    /// An open tag whose id never closes (at this byte).
    Unclosed { at: usize },
    /// A chip with no closing tag.
    NoClose { id: String },
    /// A chip holding another chip.
    Nested { id: String },
    /// A chip whose id names no known form.
    NoForm { id: String },
    /// A span holding zero or several tokens of its form.
    TokenCount { id: String, count: usize },
    /// A token that starts or ends on a separator.
    Malformed { id: String },
    /// A chip whose id has no rendered value.
    Unknown { id: String },
}

/// A refusal naming the surface.
#[derive(Debug)]
pub struct ChipError {
    pub label: String,
    pub fault: ChipFault,
}

/// The model of a fault: its kind and what it names.
pub enum Fault {
    Unclosed(int),
    NoClose(Chars),
    Nested(Chars),
    NoForm(Chars),
    TokenCount(Chars, int),
    Malformed(Chars),
    Unknown(Chars),
}

pub open spec fn fault_view(f: ChipFault) -> Fault {
    match f {
        ChipFault::Unclosed { at } => Fault::Unclosed(at as int),
        ChipFault::NoClose { id } => Fault::NoClose(id@),
        ChipFault::Nested { id } => Fault::Nested(id@),
        ChipFault::NoForm { id } => Fault::NoForm(id@),
        ChipFault::TokenCount { id, count } => Fault::TokenCount(id@, count as int),
        ChipFault::Malformed { id } => Fault::Malformed(id@),
        ChipFault::Unknown { id } => Fault::Unknown(id@),
    }
}

/// A chip as its id and span bounds.
pub type ChipModel = (Chars, int, int);

pub open spec fn arrow() -> Chars {
    "-->"@
}

/// Every chip of `t` from character `from` on, in order.
pub open spec fn chips_from(t: Chars, from: int) -> Result<Seq<ChipModel>, Fault>
    decreases t.len() + 1 - from,
{
    if from < 0 || from > t.len() {
        Ok(Seq::empty())
    } else {
        match find_from(t, OPEN@, from) {
            None => Ok(Seq::empty()),
            Some(o) => {
                let id_start = o + OPEN@.len();
                match find_from(t, arrow(), id_start) {
                    None => Err(Fault::Unclosed(id_start)),
                    Some(e) => {
                        let id = t.subrange(id_start, e);
                        let body_start = e + arrow().len();
                        match find_from(t, CLOSE@, body_start) {
                            None => Err(Fault::NoClose(id)),
                            Some(b) => if find_from(t.subrange(body_start, b), OPEN@, 0) is Some {
                                Err(Fault::Nested(id))
                            } else if !(from < b + CLOSE@.len() <= t.len()) {
                                // never taken (the matches lie ahead of `from`);
                                // it keeps the recursion visibly finite
                                Ok(Seq::empty())
                            } else {
                                match chips_from(t, b + CLOSE@.len()) {
                                    Ok(rest) => Ok(seq![(id, body_start, b)] + rest),
                                    Err(f) => Err(f),
                                }
                            },
                        }
                    },
                }
            },
        }
    }
}

pub open spec fn chips_spec(t: Chars) -> Result<Seq<ChipModel>, Fault> {
    chips_from(t, 0)
}

pub open spec fn chip_view(c: Chip) -> ChipModel {
    (c.id@, c.span.start as int, c.span.end as int)
}

pub open spec fn prepend_ok<A, E>(p: Seq<A>, r: Result<Seq<A>, E>) -> Result<Seq<A>, E> {
    match r {
        Ok(v) => Ok(p + v),
        Err(e) => Err(e),
    }
}

/// How many bytes a character takes in UTF-8.
pub open spec fn char_width(c: char) -> nat {
    if (c as u32) < 0x80 {
        1
    } else if (c as u32) < 0x800 {
        2
    } else if (c as u32) < 0x10000 {
        3
    } else {
        4
    }
}

/// How many bytes the characters take in UTF-8.
pub open spec fn utf8_width(s: Chars) -> nat
    decreases s.len(),
{
    if s.len() == 0 {
        0
    } else {
        utf8_width(s.drop_last()) + char_width(s.last())
    }
}

/// The byte of `t` where its `n`th character starts.
pub open spec fn byte_of(t: Chars, n: int) -> int {
    utf8_width(t.take(n)) as int
}

/// A chip model with its bounds counted in bytes of `t`.
pub open spec fn in_bytes(t: Chars, m: Seq<ChipModel>) -> Seq<ChipModel> {
    m.map_values(|c: ChipModel| (c.0, byte_of(t, c.1), byte_of(t, c.2)))
}

/// A fault with its position counted in bytes of `t`.
pub open spec fn fault_in_bytes(t: Chars, f: Fault) -> Fault {
    match f {
        Fault::Unclosed(a) => Fault::Unclosed(byte_of(t, a)),
        other => other,
    }
}

proof fn lemma_width_prefix(t: Chars, n: int)
    requires
        0 <= n <= t.len(),
    ensures
        utf8_width(t.take(n)) <= utf8_width(t),
    decreases t.len() - n,
{
    if n < t.len() {
        lemma_width_prefix(t, n + 1);
        assert(t.take(n + 1).drop_last() =~= t.take(n));
    } else {
        assert(t.take(n) =~= t);
    }
}

fn width_of(c: char) -> (w: usize)
    ensures
        w == char_width(c),
{
    let u = c as u32;
    if u < 0x80 {
        1
    } else if u < 0x800 {
        2
    } else if u < 0x10000 {
        3
    } else {
        4
    }
}

/// The byte where character `n` of `t` starts.
fn byte_at(t: &Vec<char>, n: usize) -> (b: usize)
    requires
        n <= t@.len(),
        utf8_width(t@) <= usize::MAX,
    ensures
        b == byte_of(t@, n as int),
{
    let mut b: usize = 0;
    let mut i: usize = 0;
    while i < n
        invariant
            n <= t@.len(),
            utf8_width(t@) <= usize::MAX,
            i <= n,
            b == utf8_width(t@.take(i as int)),
        decreases n - i,
    {
        proof {
            assert(t@.take(i + 1).drop_last() =~= t@.take(i as int));
            assert(t@.take(i + 1).last() == t@[i as int]);
            lemma_width_prefix(t@, i + 1);
        }
        b = b + width_of(t[i]);
        i += 1;
    }
    b
}

/// A refusal with its position counted in bytes of `t`.
fn error_in_bytes(t: &Vec<char>, e: ChipError) -> (r: ChipError)
    requires
        utf8_width(t@) <= usize::MAX,
        e.fault matches ChipFault::Unclosed { at } ==> at <= t@.len(),
    ensures
        r.label@ == e.label@,
        fault_view(r.fault) == fault_in_bytes(t@, fault_view(e.fault)),
{
    match e.fault {
        ChipFault::Unclosed { at } => ChipError { label: e.label, fault: ChipFault::Unclosed { at: byte_at(t, at) } },
        other => ChipError { label: e.label, fault: other },
    }
}

/// Every chip in `text`, in order, its span counted in bytes of the
/// text; an open tag that never closes or a chip nested in another is a
/// refusal naming the surface. Malformed markup is refused by value, a
/// `ChipError` for the caller to report, never by a panic.
pub fn chips(text: &str, label: &str) -> (r: Result<Vec<Chip>, ChipError>)
    requires
        utf8_width(text@) <= usize::MAX,
    ensures
        match (r, chips_spec(text@)) {
            (Ok(v), Ok(m)) => v@.map_values(|c: Chip| chip_view(c)) == in_bytes(text@, m),
            (Err(e), Err(f)) => e.label@ == label@ && fault_view(e.fault) == fault_in_bytes(text@, f),
            _ => false,
        },
{
    let t = chars_of(text);
    match chips_of(&t, label) {
        Err(e) => {
            proof {
                lemma_unclosed_in_text(t@, 0);
            }
            Err(error_in_bytes(&t, e))
        },
        Ok(cs) => {
            let ghost m = cs@.map_values(|c: Chip| chip_view(c));
            proof {
                lemma_chips_from(t@, 0);
            }
            let mut out: Vec<Chip> = Vec::new();
            let mut k: usize = 0;
            while k < cs.len()
                invariant
                    t@ == text@,
                    utf8_width(t@) <= usize::MAX,
                    m == cs@.map_values(|c: Chip| chip_view(c)),
                    chips_ordered(t@, m, 0),
                    k <= cs@.len(),
                    out@.map_values(|c: Chip| chip_view(c)) == in_bytes(t@, m).take(k as int),
                decreases cs.len() - k,
            {
                let c = &cs[k];
                assert(chip_view(*c) == m[k as int]);
                let ghost before = out@.map_values(|c: Chip| chip_view(c));
                let a = byte_at(&t, c.span.start);
                let b = byte_at(&t, c.span.end);
                out.push(Chip { id: c.id.clone(), span: Range { start: a, end: b } });
                assert(out@.map_values(|c: Chip| chip_view(c)) =~= before.push(in_bytes(t@, m)[k as int]));
                assert(in_bytes(t@, m).take(k + 1) =~= in_bytes(t@, m).take(k as int).push(in_bytes(t@, m)[k as int]));
                k += 1;
            }
            assert(in_bytes(t@, m).take(cs@.len() as int) =~= in_bytes(t@, m));
            Ok(out)
        },
    }
}

/// `chips` over the characters of a text.
pub fn chips_of(t: &Vec<char>, label: &str) -> (r: Result<Vec<Chip>, ChipError>)
    ensures
        match (r, chips_spec(t@)) {
            (Ok(v), Ok(m)) => v@.map_values(|c: Chip| chip_view(c)) == m,
            (Err(e), Err(f)) => e.label@ == label@ && fault_view(e.fault) == f,
            _ => false,
        },
{
    let open = chars_of(OPEN);
    let close = chars_of(CLOSE);
    let arr = chars_of("-->");
    let mut out: Vec<Chip> = Vec::new();
    let mut from: usize = 0;
    while from <= t.len()
        invariant
            open@ == OPEN@,
            close@ == CLOSE@,
            arr@ == arrow(),
            chips_spec(t@) == prepend_ok(out@.map_values(|c: Chip| chip_view(c)), chips_from(t@, from as int)),
        decreases t.len() + 1 - from,
    {
        let ghost model = out@.map_values(|c: Chip| chip_view(c));
        let o = match find_at(t, &open, from) {
            None => {
                assert(model + Seq::<ChipModel>::empty() =~= model);
                return Ok(out);
            },
            Some(o) => o,
        };
        proof {
            lemma_find_from(t@, OPEN@, from as int);
        }
        let id_start = o + open.len();
        let e = match find_at(t, &arr, id_start) {
            None => {
                return Err(ChipError { label: label.to_owned(), fault: ChipFault::Unclosed { at: id_start } });
            },
            Some(e) => e,
        };
        proof {
            lemma_find_from(t@, arrow(), id_start as int);
        }
        let id = slice_vec(t, id_start, e);
        let body_start = e + arr.len();
        let b = match find_at(t, &close, body_start) {
            None => {
                return Err(ChipError { label: label.to_owned(), fault: ChipFault::NoClose { id: string_of(&id) } });
            },
            Some(b) => b,
        };
        proof {
            lemma_find_from(t@, CLOSE@, body_start as int);
        }
        let body = slice_vec(t, body_start, b);
        if find_at(&body, &open, 0).is_some() {
            return Err(ChipError { label: label.to_owned(), fault: ChipFault::Nested { id: string_of(&id) } });
        }
        let next = b + close.len();
        proof {
            reveal_strlit("<!--/ce-->");
        }
        assert(next > from);
        out.push(Chip { id: string_of(&id), span: Range { start: body_start, end: b } });
        proof {
            let m2 = out@.map_values(|c: Chip| chip_view(c));
            assert(m2 =~= model.push((id@, body_start as int, b as int)));
            match chips_from(t@, next as int) {
                Ok(rest) => {
                    assert(model + (seq![(id@, body_start as int, b as int)] + rest) =~= m2 + rest);
                },
                Err(_) => {},
            }
        }
        from = next;
    }
    assert(chips_from(t@, from as int) == Ok::<Seq<ChipModel>, Fault>(Seq::<ChipModel>::empty()));
    assert(out@.map_values(|c: Chip| chip_view(c)) + Seq::<ChipModel>::empty() =~= out@.map_values(|c: Chip| chip_view(c)));
    Ok(out)
}

/// The maximal runs of `form` characters among the first `n` of `s`,
/// as character ranges, in order.
pub open spec fn runs_to(s: Chars, form: Form, zh: bool, n: int) -> Seq<(int, int)>
    decreases n,
{
    if n <= 0 {
        Seq::empty()
    } else {
        let r = runs_to(s, form, zh, n - 1);
        if !token_char_spec(form, zh, s[n - 1]) {
            r
        } else if n >= 2 && token_char_spec(form, zh, s[n - 2]) {
            r.update(r.len() - 1, (r.last().0, n))
        } else {
            r.push((n - 1, n))
        }
    }
}

/// The maximal runs of `form` characters in `s`.
pub open spec fn runs(s: Chars, form: Form, zh: bool) -> Seq<(int, int)> {
    runs_to(s, form, zh, s.len() as int)
}

/// A run of the first `n` characters that ends at `n` exactly when
/// character `n - 1` is a token character.
pub proof fn lemma_runs_to(s: Chars, form: Form, zh: bool, n: int)
    requires
        0 <= n <= s.len(),
    ensures
        n >= 1 && token_char_spec(form, zh, s[n - 1]) ==> runs_to(s, form, zh, n).len() > 0
            && runs_to(s, form, zh, n).last().1 == n,
        forall|k: int| 0 <= k < runs_to(s, form, zh, n).len() ==> {
            let r = #[trigger] runs_to(s, form, zh, n)[k];
            0 <= r.0 < r.1 <= n
        },
    decreases n,
{
    if n > 0 {
        lemma_runs_to(s, form, zh, n - 1);
        let r = runs_to(s, form, zh, n - 1);
        let now = runs_to(s, form, zh, n);
        assert forall|k: int| 0 <= k < now.len() implies {
            let x = #[trigger] now[k];
            0 <= x.0 < x.1 <= n
        } by {
            if k < r.len() {
                let y = r[k];
                assert(0 <= y.0 < y.1 <= n - 1);
                let z = r.last();
                assert(r.last() == r[r.len() - 1]);
            }
        }
    }
}

/// Maximal runs of `form` characters in `s`, as character ranges.
pub fn tokens(s: &[char], form: Form, zh: bool) -> (out: Vec<Range<usize>>)
    ensures
        out@.map_values(|r: Range<usize>| (r.start as int, r.end as int)) == runs(s@, form, zh),
{
    let mut out: Vec<Range<usize>> = Vec::new();
    let mut start: Option<usize> = None;
    let mut i: usize = 0;
    while i < s.len()
        invariant
            i <= s@.len(),
            out@.map_values(|r: Range<usize>| (r.start as int, r.end as int)) == (match start {
                None => runs_to(s@, form, zh, i as int),
                Some(b) => runs_to(s@, form, zh, i as int).drop_last(),
            }),
            match start {
                None => i == 0 || !token_char_spec(form, zh, s@[i - 1]),
                Some(b) => i >= 1 && token_char_spec(form, zh, s@[i - 1])
                    && runs_to(s@, form, zh, i as int).len() > 0
                    && runs_to(s@, form, zh, i as int).last() == (b as int, i as int),
            },
        decreases s.len() - i,
    {
        let ghost before = out@.map_values(|r: Range<usize>| (r.start as int, r.end as int));
        let tok = form.token_char(zh, s[i]);
        proof {
            lemma_runs_to(s@, form, zh, i as int);
        }
        match start {
            None => {
                if tok {
                    start = Some(i);
                }
            },
            Some(b) => {
                if !tok {
                    out.push(Range { start: b, end: i });
                    start = None;
                    proof {
                        let now = out@.map_values(|r: Range<usize>| (r.start as int, r.end as int));
                        let r = runs_to(s@, form, zh, i as int);
                        assert(now =~= before.push((b as int, i as int)));
                        assert(r.drop_last().push(r.last()) =~= r);
                    }
                }
            },
        }
        i += 1;
        proof {
            let r = runs_to(s@, form, zh, i as int);
            let now = out@.map_values(|r: Range<usize>| (r.start as int, r.end as int));
            match start {
                None => {
                    assert(now =~= r);
                },
                Some(b) => {
                    assert(now =~= r.drop_last());
                },
            }
        }
    }
    if let Some(b) = start {
        let ghost before = out@.map_values(|r: Range<usize>| (r.start as int, r.end as int));
        out.push(Range { start: b, end: s.len() });
        proof {
            let now = out@.map_values(|r: Range<usize>| (r.start as int, r.end as int));
            let r = runs_to(s@, form, zh, s@.len() as int);
            assert(now =~= before.push((b as int, s@.len() as int)));
            assert(r.drop_last().push(r.last()) =~= r);
        }
    }
    out
}

/// Where the chips of `t` read from `from` on stand: in order, each
/// span inside `t`, each after the one before.
pub open spec fn chips_ordered(t: Chars, m: Seq<ChipModel>, from: int) -> bool {
    forall|k: int| 0 <= k < m.len() ==> {
        &&& from <= (#[trigger] m[k]).1 <= m[k].2 <= t.len()
        &&& k > 0 ==> m[k - 1].2 <= m[k].1
    }
}

pub proof fn lemma_chips_from(t: Chars, from: int)
    requires
        0 <= from,
    ensures
        chips_from(t, from) matches Ok(m) ==> chips_ordered(t, m, from),
    decreases t.len() + 1 - from,
{
    if from <= t.len() {
        lemma_find_from(t, OPEN@, from);
        if let Some(o) = find_from(t, OPEN@, from) {
            let id_start = o + OPEN@.len();
            lemma_find_from(t, arrow(), id_start);
            if let Some(e) = find_from(t, arrow(), id_start) {
                let body_start = e + arrow().len();
                lemma_find_from(t, CLOSE@, body_start);
                if let Some(b) = find_from(t, CLOSE@, body_start) {
                    let next = b + CLOSE@.len();
                    if from < next <= t.len() {
                        lemma_chips_from(t, next);
                        if let Ok(rest) = chips_from(t, next) {
                            let m = seq![(t.subrange(id_start, e), body_start, b)] + rest;
                            assert forall|k: int| 0 <= k < m.len() implies {
                                &&& from <= (#[trigger] m[k]).1 <= m[k].2 <= t.len()
                                &&& k > 0 ==> m[k - 1].2 <= m[k].1
                            } by {
                                if k > 0 {
                                    assert(m[k] == rest[k - 1]);
                                    if k > 1 {
                                        assert(m[k - 1] == rest[k - 2]);
                                    }
                                }
                            }
                        }
                    }
                }
            }
        }
    }
}

/// An unclosed open tag is reported at a position inside the text.
proof fn lemma_unclosed_in_text(t: Chars, from: int)
    requires
        0 <= from,
    ensures
        chips_from(t, from) matches Err(Fault::Unclosed(a)) ==> 0 <= a <= t.len(),
    decreases t.len() + 1 - from,
{
    if from <= t.len() {
        lemma_find_from(t, OPEN@, from);
        if let Some(o) = find_from(t, OPEN@, from) {
            reveal_strlit("<!--ce:");
            let id_start = o + OPEN@.len();
            assert(crate::text::at(t, OPEN@, o));
            if let Some(e) = find_from(t, arrow(), id_start) {
                let body_start = e + arrow().len();
                if let Some(b) = find_from(t, CLOSE@, body_start) {
                    let next = b + CLOSE@.len();
                    if from < next <= t.len() {
                        lemma_unclosed_in_text(t, next);
                    }
                }
            }
        }
    }
}

/// A token may not start or end on one of these.
pub open spec fn is_sep(c: char) -> bool {
    c == '.' || c == ','
}

/// The note for a value that moved: `label: id have → want`.
pub open spec fn note(label: Chars, id: Chars, have: Chars, want: Chars) -> Chars {
    label + ": "@ + id + " "@ + have + " → "@ + want
}

/// What rendering has built so far: the text up to `last`, the notes,
/// and `last`.
pub type RenderState = (Chars, Seq<Chars>, int);

/// One chip rendered onto the state.
pub open spec fn step(
    t: Chars,
    c: ChipModel,
    st: RenderState,
    label: Chars,
    zh: bool,
    table: Seq<(Chars, Chars)>,
) -> Result<RenderState, Fault> {
    let (id, s, e) = c;
    let (out, notes, last) = st;
    match form_of(id) {
        None => Err(Fault::NoForm(id)),
        Some(form) => {
            let body = t.subrange(s, e);
            let rs = runs(body, form, zh);
            if rs.len() != 1 {
                Err(Fault::TokenCount(id, rs.len() as int))
            } else {
                let have = body.subrange(rs[0].0, rs[0].1);
                if is_sep(have[0]) || is_sep(have.last()) {
                    Err(Fault::Malformed(id))
                } else {
                    match value_for(table, id) {
                        None => Err(Fault::Unknown(id)),
                        Some(want) => Ok(
                            (
                                out + t.subrange(last, s + rs[0].0) + want,
                                if have == want {
                                    notes
                                } else {
                                    notes.push(note(label, id, have, want))
                                },
                                s + rs[0].1,
                            ),
                        ),
                    }
                }
            }
        },
    }
}

/// The first `k` chips of `m` rendered in order.
pub open spec fn render_upto(
    t: Chars,
    m: Seq<ChipModel>,
    k: int,
    label: Chars,
    zh: bool,
    table: Seq<(Chars, Chars)>,
) -> Result<RenderState, Fault>
    decreases k,
{
    if k <= 0 {
        Ok((Seq::empty(), Seq::empty(), 0))
    } else {
        match render_upto(t, m, k - 1, label, zh, table) {
            Err(f) => Err(f),
            Ok(st) => step(t, m[k - 1], st, label, zh, table),
        }
    }
}

/// `t` with every chip's token replaced by its value, and the notes.
pub open spec fn render_spec(t: Chars, label: Chars, zh: bool, table: Seq<(Chars, Chars)>) -> Result<
    (Chars, Seq<Chars>),
    Fault,
> {
    match chips_spec(t) {
        Err(f) => Err(f),
        Ok(m) => match render_upto(t, m, m.len() as int, label, zh, table) {
            Err(f) => Err(f),
            Ok(st) => Ok((st.0 + t.subrange(st.2, t.len() as int), st.1)),
        },
    }
}

/// A refusal at one chip is the refusal of the whole rendering.
pub proof fn lemma_render_err(
    t: Chars,
    m: Seq<ChipModel>,
    k: int,
    k2: int,
    label: Chars,
    zh: bool,
    table: Seq<(Chars, Chars)>,
)
    requires
        0 <= k <= k2,
        render_upto(t, m, k, label, zh, table) is Err,
    ensures
        render_upto(t, m, k2, label, zh, table) == render_upto(t, m, k, label, zh, table),
    decreases k2,
{
    if k2 > k {
        lemma_render_err(t, m, k, k2 - 1, label, zh, table);
    }
}

/// The note text for a moved value.
fn note_of(label: &[char], id: &[char], have: &[char], want: &[char]) -> (n: String)
    ensures
        n@ == note(label@, id@, have@, want@),
{
    let mut v = concat(label, &chars_of(": "));
    v = concat(&v, id);
    v = concat(&v, &chars_of(" "));
    v = concat(&v, have);
    v = concat(&v, &chars_of(" → "));
    v = concat(&v, want);
    string_of(&v)
}

/// `text` with every chip span rewritten to the value `values` gives
/// its id, plus one note per value that moved (`label: id old → new`).
/// A span holding zero or several tokens of its form, or a token that
/// starts or ends on a separator, is a refusal — never a guess about
/// which run to replace. A refusal is a `ChipError` value naming the
/// surface and the chip, never a panic, and no value is rendered for
/// that chip.
#[verifier::spinoff_prover]
pub fn render(text: &str, label: &str, zh: bool, values: &[(String, String)]) -> (r: Result<
    (String, Vec<String>),
    ChipError,
>)
    requires
        utf8_width(text@) <= usize::MAX,
    ensures
        match (r, render_spec(text@, label@, zh, pairs_view(values@))) {
            (Ok((out, notes)), Ok((o, n))) => out@ == o && notes@.map_values(|s: String| s@) == n,
            (Err(e), Err(f)) => e.label@ == label@ && fault_view(e.fault) == fault_in_bytes(text@, f),
            _ => false,
        },
{
    let t = chars_of(text);
    let lab = chars_of(label);
    let ghost tv = pairs_view(values@);
    let chips = match chips_of(&t, label) {
        Ok(c) => c,
        Err(e) => {
            proof {
                lemma_unclosed_in_text(t@, 0);
            }
            return Err(error_in_bytes(&t, e));
        },
    };
    let ghost m = chips@.map_values(|c: Chip| chip_view(c));
    proof {
        lemma_chips_from(t@, 0);
    }
    let mut out: Vec<char> = Vec::new();
    let mut notes: Vec<String> = Vec::new();
    let mut last: usize = 0;
    let mut k: usize = 0;
    assert(notes@.map_values(|s: String| s@) =~= Seq::<Chars>::empty());
    while k < chips.len()
        invariant
            t@ == text@,
            lab@ == label@,
            tv == pairs_view(values@),
            m == chips@.map_values(|c: Chip| chip_view(c)),
            chips_spec(t@) == Ok::<Seq<ChipModel>, Fault>(m),
            chips_ordered(t@, m, 0),
            k <= chips@.len(),
            render_upto(t@, m, k as int, label@, zh, tv) == Ok::<RenderState, Fault>(
                (out@, notes@.map_values(|s: String| s@), last as int),
            ),
            last <= t@.len(),
            k < m.len() ==> last <= m[k as int].1,
        decreases chips.len() - k,
    {
        let ghost before = (out@, notes@.map_values(|s: String| s@), last as int);
        let chip = &chips[k];
        assert(chip_view(*chip) == m[k as int]);
        let id = chars_of(chip.id.as_str());
        let s = chip.span.start;
        let e = chip.span.end;
        let form = match form_named(&id) {
            Some(f) => f,
            None => {
                proof {
                    lemma_render_err(t@, m, k + 1, m.len() as int, label@, zh, tv);
                }
                return Err(ChipError { label: label.to_owned(), fault: ChipFault::NoForm { id: chip.id.clone() } });
            },
        };
        let body = slice_vec(&t, s, e);
        let rs = tokens(&body, form, zh);
        proof {
            lemma_runs_to(body@, form, zh, body@.len() as int);
        }
        if rs.len() != 1 {
            proof {
                lemma_render_err(t@, m, k + 1, m.len() as int, label@, zh, tv);
            }
            return Err(ChipError {
                label: label.to_owned(),
                fault: ChipFault::TokenCount { id: chip.id.clone(), count: rs.len() },
            });
        }
        let a = rs[0].start;
        let b = rs[0].end;
        assert(runs(body@, form, zh)[0] == (a as int, b as int));
        let have = slice_vec(&body, a, b);
        if have[0] == '.' || have[0] == ',' || have[have.len() - 1] == '.' || have[have.len() - 1] == ',' {
            proof {
                lemma_render_err(t@, m, k + 1, m.len() as int, label@, zh, tv);
            }
            return Err(ChipError { label: label.to_owned(), fault: ChipFault::Malformed { id: chip.id.clone() } });
        }
        let want = match value_in(values, &id) {
            Some(w) => w,
            None => {
                proof {
                    lemma_render_err(t@, m, k + 1, m.len() as int, label@, zh, tv);
                }
                return Err(ChipError { label: label.to_owned(), fault: ChipFault::Unknown { id: chip.id.clone() } });
            },
        };
        if !same(&have, &want) {
            notes.push(note_of(&lab, &id, &have, &want));
        }
        push_range(&mut out, &t, last, s + a);
        push_range(&mut out, &want, 0, want.len());
        last = s + b;
        k += 1;
        proof {
            assert(want@.subrange(0, want@.len() as int) =~= want@);
            assert(notes@.map_values(|s: String| s@) =~= (if have@ == want@ {
                before.1
            } else {
                before.1.push(note(label@, id@, have@, want@))
            }));
        }
    }
    push_range(&mut out, &t, last, t.len());
    Ok((string_of(&out), notes))
}

/// While no note has been written, what rendering has built is the text
/// itself up to where it stopped, and it stopped inside the last chip.
#[verifier::spinoff_prover]
#[verifier::rlimit(50)]
proof fn lemma_render_unmoved(
    t: Chars,
    m: Seq<ChipModel>,
    k: int,
    label: Chars,
    zh: bool,
    table: Seq<(Chars, Chars)>,
)
    requires
        chips_ordered(t, m, 0),
        0 <= k <= m.len(),
        render_upto(t, m, k, label, zh, table) matches Ok(st) && st.1.len() == 0,
    ensures
        render_upto(t, m, k, label, zh, table) matches Ok(st) && st.0 == t.take(st.2) && 0 <= st.2
            <= t.len() && (k == 0 ==> st.2 == 0) && (k > 0 ==> st.2 <= m[k - 1].2),
    decreases k,
{
    if k > 0 {
        let prev = render_upto(t, m, k - 1, label, zh, table);
        if let Ok(p) = prev {
            let (id, s, e) = m[k - 1];
            let form = form_of(id)->0;
            let body = t.subrange(s, e);
            let rs = runs(body, form, zh);
            let st = render_upto(t, m, k, label, zh, table)->Ok_0;
            assert(p.1.len() == 0) by {
                if p.1.len() > 0 {
                    assert(st.1.len() >= p.1.len());
                }
            }
            lemma_render_unmoved(t, m, k - 1, label, zh, table);
            lemma_runs_to(body, form, zh, body.len() as int);
            let r0 = rs[0];
            assert(0 <= r0.0 < r0.1 <= body.len());
            if k > 1 {
                assert(m[k - 2].2 <= m[k - 1].1);
            }
            let have = body.subrange(r0.0, r0.1);
            let want = value_for(table, id)->0;
            assert(have == want);
            assert(have =~= t.subrange(s + r0.0, s + r0.1));
            assert(st.0 =~= t.take(s + r0.1));
        } else {
            lemma_render_err(t, m, k - 1, k, label, zh, table);
        }
    }
}

/// A surface whose rendering writes no note renders to itself: every
/// chip already holds its value, and the text around the tokens is
/// never touched.
pub proof fn lemma_render_current(t: Chars, label: Chars, zh: bool, table: Seq<(Chars, Chars)>)
    ensures
        (render_spec(t, label, zh, table) matches Ok((o, n)) && n.len() == 0) ==> render_spec(t, label, zh, table)->Ok_0.0 == t,
{
    if let Ok(m) = chips_spec(t) {
        lemma_chips_from(t, 0);
        if let Ok(st) = render_upto(t, m, m.len() as int, label, zh, table) {
            if st.1.len() == 0 {
                lemma_render_unmoved(t, m, m.len() as int, label, zh, table);
                assert(st.0 + t.subrange(st.2, t.len() as int) =~= t);
            }
        }
    }
}

} // verus!
