//! The line and slice grammars the scraped facts are read with: the one
//! cut every source-slice scrape makes, occurrence counts, the first
//! quoted value of a line, and the lines a key opens.

use crate::text::{
    chars_of, concat, find_at, find_from, index_from, lemma_find_from, lemma_index_from, lines,
    lines_of, push_range, skip_while, slice_vec, starts, starts_with, string_of, ws, Chars,
    Class, class_pred, front_of, find_char,
};
use vstd::prelude::*;

verus! {

/// The text after the first `pat` at or after `from`, up to the next
/// `pat` (or the end): `split(pat).nth(1)` over `s[from..]`.
pub open spec fn second_piece(s: Chars, pat: Chars) -> Option<Chars> {
    match find_from(s, pat, 0) {
        None => None,
        Some(i) => {
            let rest = s.skip(i + pat.len());
            match find_from(rest, pat, 0) {
                Some(j) => Some(rest.take(j)),
                None => Some(rest),
            }
        },
    }
}

/// The text before the first `pat` (all of it without one):
/// `split(pat).next()`.
pub open spec fn first_piece(s: Chars, pat: Chars) -> Chars {
    match find_from(s, pat, 0) {
        Some(j) => s.take(j),
        None => s,
    }
}

/// The slice of `text` after the first `start` and before the next
/// `end` — the one cut every source-slice scrape makes; None when the
/// text holds no `start`.
pub open spec fn between_spec(text: Chars, start: Chars, end: Chars) -> Option<Chars> {
    match second_piece(text, start) {
        None => None,
        Some(after) => Some(first_piece(after, end)),
    }
}

/// `s[..first pat]`, or all of `s`.
pub fn first_piece_of(s: &[char], pat: &[char]) -> (out: Vec<char>)
    ensures
        out@ == first_piece(s@, pat@),
{
    proof {
        lemma_find_from(s@, pat@, 0);
    }
    assert(s@.len() == s.len());
    match find_at(s, pat, 0) {
        Some(j) => {
            let out = slice_vec(s, 0, j);
            assert(out@ =~= s@.take(j as int));
            out
        },
        None => {
            let out = slice_vec(s, 0, s.len());
            assert(out@ =~= s@);
            out
        },
    }
}

/// The piece after the first `pat`, up to the next one.
pub fn second_piece_of(s: &[char], pat: &[char]) -> (out: Option<Vec<char>>)
    ensures
        match second_piece(s@, pat@) {
            Some(p) => out matches Some(v) && v@ == p,
            None => out is None,
        },
{
    proof {
        lemma_find_from(s@, pat@, 0);
    }
    match find_at(s, pat, 0) {
        None => None,
        Some(i) => {
            assert(i + pat@.len() <= s@.len());
            assert(i + pat.len() <= s.len());
            let rest = slice_vec(s, i + pat.len(), s.len());
            assert(rest@ =~= s@.skip(i + pat@.len()));
            Some(first_piece_of(&rest, pat))
        },
    }
}

/// The slice of `text` after the first `start` and before the next `end`.
pub fn between(text: &str, start: &str, end: &str) -> (r: Option<String>)
    ensures
        match between_spec(text@, start@, end@) {
            Some(b) => r matches Some(s) && s@ == b,
            None => r is None,
        },
{
    match second_piece_of(&chars_of(text), &chars_of(start)) {
        None => None,
        Some(after) => Some(string_of(&first_piece_of(&after, &chars_of(end)))),
    }
}

/// The non-overlapping occurrences of `pat` in `s` from `i` on, left to
/// right (`str::matches(pat).count()`).
pub open spec fn count_from(s: Chars, pat: Chars, i: int) -> nat
    decreases s.len() + 1 - i,
{
    if pat.len() == 0 || i < 0 || i > s.len() {
        0
    } else {
        match find_from(s, pat, i) {
            None => 0,
            Some(j) => {
                proof {
                    lemma_find_from(s, pat, i);
                }
                1 + count_from(s, pat, j + pat.len())
            },
        }
    }
}

/// How many times `pat` occurs in `s`, non-overlapping
/// (`str::matches(pat).count()`); the empty pattern matches at every
/// character boundary, the two ends included.
pub fn count_matches(s: &str, pat: &str) -> (n: usize)
    requires
        pat@.len() == 0 ==> s@.len() < usize::MAX,
    ensures
        n == if pat@.len() == 0 {
            s@.len() + 1
        } else {
            count_from(s@, pat@, 0)
        },
{
    let t = chars_of(s);
    let p = chars_of(pat);
    if p.len() == 0 {
        return t.len() + 1;
    }
    let mut n: usize = 0;
    let mut i: usize = 0;
    while i <= t.len()
        invariant
            t@ == s@,
            p@ == pat@,
            p@.len() > 0,
            i <= t@.len(),
            n + count_from(t@, p@, i as int) == count_from(t@, p@, 0),
            n <= i,
        decreases t.len() + 1 - i,
    {
        proof {
            lemma_find_from(t@, p@, i as int);
        }
        match find_at(&t, &p, i) {
            None => return n,
            Some(j) => {
                n += 1;
                i = j + p.len();
            },
        }
    }
    n
}

/// The first double-quoted value of a line: what follows its first `"`
/// up to the next `"` (or the end); None without a quote.
pub open spec fn quoted_spec(line: Chars) -> Option<Chars> {
    match index_from(line, '\u{22}', 0) {
        None => None,
        Some(i) => {
            let rest = line.skip(i + 1);
            Some(
                match index_from(rest, '\u{22}', 0) {
                    Some(j) => rest.take(j),
                    None => rest,
                },
            )
        },
    }
}

/// Why a scrape cannot read its source.
#[derive(Debug)]
pub enum ScrapeError {
    /// A line with no quoted value.
    NoQuote { rel: String, line: String },
    /// Not exactly one line opens with the key.
    KeyLines { rel: String, key: String, count: usize },
    /// The lines carrying a key do not agree on one value.
    Disagree { rel: String, key: String, values: Vec<String> },
    /// The scraped source lacks the text a scrape cuts at.
    Missing { rel: String, what: String },
    /// A request/reply file set with an odd line count.
    Unpaired { lines: usize },
}

/// The first double-quoted value on `line`.
pub fn quoted(line: &[char], rel: &str) -> (r: Result<String, ScrapeError>)
    ensures
        match (r, quoted_spec(line@)) {
            (Ok(v), Some(q)) => v@ == q,
            (Err(ScrapeError::NoQuote { rel: e, line: l }), None) => e@ == rel@ && l@ == line@,
            _ => false,
        },
{
    proof {
        lemma_index_from(line@, '\u{22}', 0);
    }
    match find_char(line, '\u{22}') {
        None => Err(ScrapeError::NoQuote { rel: string_of(&chars_of(rel)), line: string_of(line) }),
        Some(i) => {
            assert(i < line.len());
            let rest = slice_vec(line, i + 1, line.len());
            assert(rest@ =~= line@.skip(i + 1));
            proof {
                lemma_index_from(rest@, '\u{22}', 0);
            }
            match find_char(&rest, '\u{22}') {
                Some(j) => {
                    let v = slice_vec(&rest, 0, j);
                    assert(v@ =~= rest@.take(j as int));
                    Ok(string_of(&v))
                },
                None => Ok(string_of(&rest)),
            }
        },
    }
}

/// The lines of `text` that open with `key`.
pub open spec fn key_lines(text: Chars, key: Chars) -> Seq<Chars> {
    lines(text).filter(|l: Chars| starts(l, key))
}

/// The quoted value on the one line of `text` opening with `key`.
pub open spec fn quoted_after_spec(text: Chars, key: Chars) -> Result<Chars, nat> {
    let hits = key_lines(text, key);
    if hits.len() != 1 {
        Err(hits.len())
    } else {
        match quoted_spec(hits[0]) {
            Some(q) => Ok(q),
            None => Err(1),
        }
    }
}

/// The lines of `text` that open with `key`.
fn lines_with(text: &str, key: &[char]) -> (out: Vec<Vec<char>>)
    ensures
        out@.map_values(|l: Vec<char>| l@) == key_lines(text@, key@),
{
    let ls = lines_of(&chars_of(text));
    let ghost lm = ls@.map_values(|l: Vec<char>| l@);
    let mut out: Vec<Vec<char>> = Vec::new();
    let mut i: usize = 0;
    while i < ls.len()
        invariant
            i <= ls@.len(),
            lm == ls@.map_values(|l: Vec<char>| l@),
            lm == lines(text@),
            out@.map_values(|l: Vec<char>| l@) == lm.take(i as int).filter(|l: Chars| starts(l, key@)),
        decreases ls.len() - i,
    {
        let ghost before = out@.map_values(|l: Vec<char>| l@);
        proof {
            reveal(Seq::filter);
            assert(lm.take(i + 1).drop_last() =~= lm.take(i as int));
            assert(lm.take(i + 1).last() == ls@[i as int]@);
        }
        if starts_with(&ls[i], key) {
            out.push(ls[i].clone());
            assert(out@.map_values(|l: Vec<char>| l@) =~= before.push(ls@[i as int]@));
        }
        i += 1;
    }
    assert(lm.take(ls@.len() as int) =~= lm);
    out
}

/// The quoted value on the ONE line of `text` starting with `key`.
pub fn quoted_after(text: &str, rel: &str, key: &str) -> (r: Result<String, ScrapeError>)
    ensures
        match (r, quoted_after_spec(text@, key@)) {
            (Ok(v), Ok(q)) => v@ == q,
            (Err(ScrapeError::KeyLines { rel: e, key: k, count }), Err(n)) => e@ == rel@ && k@
                == key@ && count == n && n != 1,
            (Err(ScrapeError::NoQuote { rel: e, .. }), Err(n)) => e@ == rel@ && n == 1
                && key_lines(text@, key@).len() == 1,
            _ => false,
        },
{
    let hits = lines_with(text, &chars_of(key));
    if hits.len() != 1 {
        return Err(ScrapeError::KeyLines {
            rel: string_of(&chars_of(rel)),
            key: string_of(&chars_of(key)),
            count: hits.len(),
        });
    }
    assert(key_lines(text@, key@)[0] == hits@[0]@);
    quoted(&hits[0], rel)
}

/// The lines of `text` whose first non-space characters open with `key`.
pub open spec fn keyed_lines(text: Chars, key: Chars) -> Seq<Chars> {
    lines(text).filter(|l: Chars| starts(skip_while(l, ws()), key))
}

/// What the keyed lines quote, when every one of them quotes something.
pub open spec fn quotes_of(ls: Seq<Chars>) -> Option<Seq<Chars>>
    decreases ls.len(),
{
    if ls.len() == 0 {
        Some(Seq::empty())
    } else {
        match (quotes_of(ls.drop_last()), quoted_spec(ls.last())) {
            (Some(q), Some(v)) => Some(q.push(v)),
            _ => None,
        }
    }
}

/// Every line of `text` carrying `key` agrees on one quoted value: the
/// value, or None when some keyed line quotes nothing; Err with the set
/// of values when they are not exactly one.
pub open spec fn agreed_ok(text: Chars, key: Chars, v: Chars) -> bool {
    &&& quotes_of(keyed_lines(text, key)) matches Some(q)
    &&& q.to_set() == set![v]
}

/// The lines of `text` whose first non-space characters open with `key`.
fn keyed_lines_of(text: &str, key: &[char]) -> (out: Vec<Vec<char>>)
    ensures
        out@.map_values(|l: Vec<char>| l@) == keyed_lines(text@, key@),
{
    let ls = lines_of(&chars_of(text));
    let ghost lm = ls@.map_values(|l: Vec<char>| l@);
    let mut out: Vec<Vec<char>> = Vec::new();
    let mut i: usize = 0;
    while i < ls.len()
        invariant
            i <= ls@.len(),
            lm == ls@.map_values(|l: Vec<char>| l@),
            lm == lines(text@),
            out@.map_values(|l: Vec<char>| l@) == lm.take(i as int).filter(
                |l: Chars| starts(skip_while(l, ws()), key@),
            ),
        decreases ls.len() - i,
    {
        let ghost before = out@.map_values(|l: Vec<char>| l@);
        proof {
            reveal(Seq::filter);
            assert(lm.take(i + 1).drop_last() =~= lm.take(i as int));
            assert(lm.take(i + 1).last() == ls@[i as int]@);
        }
        let a = front_of(&ls[i], Class::Space);
        assert(class_pred(Class::Space) =~= ws());
        let t = slice_vec(&ls[i], a, ls[i].len());
        assert(t@ =~= ls@[i as int]@.skip(a as int));
        if starts_with(&t, key) {
            out.push(ls[i].clone());
            assert(out@.map_values(|l: Vec<char>| l@) =~= before.push(ls@[i as int]@));
        }
        i += 1;
    }
    assert(lm.take(ls@.len() as int) =~= lm);
    out
}

/// Every line of `text` carrying `key` agrees on one quoted value.
pub fn agreed(text: &str, rel: &str, key: &str) -> (r: Result<String, ScrapeError>)
    ensures
        match r {
            Ok(v) => agreed_ok(text@, key@, v@),
            Err(ScrapeError::NoQuote { rel: e, .. }) => e@ == rel@ && quotes_of(
                keyed_lines(text@, key@),
            ) is None,
            Err(ScrapeError::Disagree { rel: e, key: k, values }) => e@ == rel@ && k@ == key@
                && crate::text::canonical(crate::text::views(values@)) && (quotes_of(
                keyed_lines(text@, key@),
            ) matches Some(q) && crate::text::views(values@).to_set() == q.to_set() && q.to_set().len()
                != 1),
            _ => false,
        },
{
    let ls = keyed_lines_of(text, &chars_of(key));
    let ghost lm = ls@.map_values(|l: Vec<char>| l@);
    let mut vals: Vec<String> = Vec::new();
    let mut i: usize = 0;
    while i < ls.len()
        invariant
            i <= ls@.len(),
            lm == ls@.map_values(|l: Vec<char>| l@),
            lm == keyed_lines(text@, key@),
            quotes_of(lm.take(i as int)) == Some(crate::text::views(vals@)),
        decreases ls.len() - i,
    {
        assert(lm.take(i + 1).drop_last() =~= lm.take(i as int));
        assert(lm.take(i + 1).last() == ls@[i as int]@);
        match quoted(&ls[i], rel) {
            Ok(v) => {
                let ghost before = crate::text::views(vals@);
                vals.push(v);
                assert(crate::text::views(vals@) =~= before.push(vals@.last()@));
            },
            Err(e) => {
                proof {
                    lemma_quotes_none(lm, i as int + 1);
                }
                return Err(e);
            },
        }
        i += 1;
    }
    assert(lm.take(ls@.len() as int) =~= lm);
    let ghost q = crate::text::views(vals@);
    let set = crate::text::canon(vals);
    proof {
        crate::text::views(set@).unique_seq_to_set();
    }
    if set.len() == 1 {
        proof {
            assert(crate::text::views(set@) =~= seq![set@[0]@]);
            assert(seq![set@[0]@].to_set() =~= set![set@[0]@]) by {
                vstd::seq_lib::seq_to_set_distributes_over_add(Seq::<Chars>::empty(), seq![set@[0]@]);
                assert(Seq::<Chars>::empty() + seq![set@[0]@] =~= seq![set@[0]@]);
                assert forall|x: Chars| seq![set@[0]@].contains(x) <==> x == set@[0]@ by {
                    if seq![set@[0]@].contains(x) {
                        let k = choose|k: int| 0 <= k < 1 && seq![set@[0]@][k] == x;
                    }
                    if x == set@[0]@ {
                        assert(seq![set@[0]@][0] == x);
                    }
                }
            }
        }
        let v = string_of(&chars_of(set[0].as_str()));
        Ok(v)
    } else {
        Err(ScrapeError::Disagree { rel: string_of(&chars_of(rel)), key: string_of(&chars_of(key)), values: set })
    }
}

/// A keyed line that quotes nothing leaves the lines without a value.
pub proof fn lemma_quotes_none(ls: Seq<Chars>, n: int)
    requires
        0 < n <= ls.len(),
        quoted_spec(ls[n - 1]) is None,
    ensures
        quotes_of(ls) is None,
    decreases ls.len(),
{
    if n < ls.len() {
        assert(ls.drop_last()[n - 1] == ls[n - 1]);
        lemma_quotes_none(ls.drop_last(), n);
    }
}

} // verus!
