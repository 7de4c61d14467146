//! The booklet's self census rows, written by the run that measures
//! them: the universe cell with every subtraction that fired, one
//! padded table row per language, largest domain first, the corpus and
//! universe cells riding the first row only.

use crate::text::{
    chars_of, concat, dec_chars, decimal, joined, join, lemma_lex_refl, lemma_lex_total,
    lemma_lex_trans, lex_le, str_le, string_of, views, Chars,
};
use vstd::prelude::*;

verus! {

/// What each rule of the universe walk took out.
pub struct Terms {
    pub named_cut: usize,
    pub nested: usize,
    pub pattern_ignored: usize,
    pub excluded: usize,
    pub absent: usize,
    pub oversize: usize,
    pub binary: usize,
}

/// One subtraction as the cell spells it; a term that took nothing is
/// not spelled.
pub open spec fn term(n: usize, what: Chars) -> Chars {
    if n > 0 {
        " \u{2212} "@ + dec_chars(n as nat) + " "@ + what
    } else {
        Seq::empty()
    }
}

/// The subtractions in the order the walk asks its rules.
pub open spec fn subs(t: Terms) -> Chars {
    term(t.named_cut, "named-cut"@) + term(t.nested, "nested"@) + term(
        t.pattern_ignored,
        "pattern-ignored"@,
    ) + term(t.excluded, "excluded"@) + term(t.absent, "absent"@) + term(t.oversize, "oversize"@)
        + term(t.binary, "early-NUL"@)
}

/// The universe cell: U, then the listing and every subtraction that
/// fired.
pub open spec fn universe_cell_spec(universe: usize, listed: usize, t: Terms) -> Chars {
    dec_chars(universe as nat) + " ("@ + dec_chars(listed as nat) + subs(t) + ")"@
}

fn term_of(n: usize, what: &str) -> (out: Vec<char>)
    ensures
        out@ == term(n, what@),
{
    if n > 0 {
        let mut v = chars_of(" \u{2212} ");
        v = concat(&v, &decimal(n as u64));
        v = concat(&v, &chars_of(" "));
        concat(&v, &chars_of(what))
    } else {
        Vec::new()
    }
}

/// The universe cell of the self row.
pub fn universe_cell(universe: usize, listed: usize, t: &Terms) -> (out: String)
    ensures
        out@ == universe_cell_spec(universe, listed, *t),
{
    let mut v = concat(&decimal(universe as u64), &chars_of(" ("));
    v = concat(&v, &decimal(listed as u64));
    v = concat(&v, &term_of(t.named_cut, "named-cut"));
    v = concat(&v, &term_of(t.nested, "nested"));
    v = concat(&v, &term_of(t.pattern_ignored, "pattern-ignored"));
    v = concat(&v, &term_of(t.excluded, "excluded"));
    v = concat(&v, &term_of(t.absent, "absent"));
    v = concat(&v, &term_of(t.oversize, "oversize"));
    v = concat(&v, &term_of(t.binary, "early-NUL"));
    v = concat(&v, &chars_of(")"));
    assert(v@ =~= universe_cell_spec(universe, listed, *t));
    string_of(&v)
}

/// A cell as the page pads it: an empty cell is a single space.
pub open spec fn padded(c: Chars) -> Chars {
    if c.len() == 0 {
        " "@
    } else {
        " "@ + c + " "@
    }
}

/// One table row of cells.
pub open spec fn row_spec(cells: Seq<Chars>) -> Chars {
    "|"@ + joined(cells.map_values(|c: Chars| padded(c)), "|"@) + "|"@
}

/// One table row, padded the way the page writes it.
pub fn row(cells: &Vec<String>) -> (out: String)
    ensures
        out@ == row_spec(views(cells@)),
{
    let ghost want = views(cells@).map_values(|c: Chars| padded(c));
    let mut inner: Vec<Vec<char>> = Vec::new();
    let mut k: usize = 0;
    while k < cells.len()
        invariant
            want == views(cells@).map_values(|c: Chars| padded(c)),
            k <= cells@.len(),
            inner@.map_values(|p: Vec<char>| p@) == want.take(k as int),
        decreases cells.len() - k,
    {
        let c = chars_of(cells[k].as_str());
        let p = if c.len() == 0 {
            chars_of(" ")
        } else {
            concat(&concat(&chars_of(" "), &c), &chars_of(" "))
        };
        assert(want[k as int] == p@);
        let ghost before = inner@.map_values(|p: Vec<char>| p@);
        inner.push(p);
        assert(inner@.map_values(|p: Vec<char>| p@) =~= before.push(want[k as int]));
        assert(want.take(k + 1) =~= want.take(k as int).push(want[k as int]));
        k += 1;
    }
    assert(want.take(cells@.len() as int) =~= want);
    let body = join(&inner, &chars_of("|"));
    let out = concat(&concat(&chars_of("|"), &body), &chars_of("|"));
    string_of(&out)
}

/// A language's place: more declarations first, then by name.
pub open spec fn ranks_before(a: (Chars, usize), b: (Chars, usize)) -> bool {
    a.1 > b.1 || (a.1 == b.1 && lex_le(a.0, b.0))
}

pub open spec fn key(langs: Seq<(String, usize)>, i: usize) -> (Chars, usize) {
    (langs[i as int].0@, langs[i as int].1)
}

proof fn lemma_ranks_refl(a: (Chars, usize))
    ensures
        ranks_before(a, a),
{
    lemma_lex_refl(a.0);
}

proof fn lemma_ranks_total(a: (Chars, usize), b: (Chars, usize))
    ensures
        ranks_before(a, b) || ranks_before(b, a),
{
    lemma_lex_total(a.0, b.0);
}

proof fn lemma_ranks_trans(a: (Chars, usize), b: (Chars, usize), c: (Chars, usize))
    requires
        ranks_before(a, b),
        ranks_before(b, c),
    ensures
        ranks_before(a, c),
{
    if a.1 == b.1 && b.1 == c.1 {
        lemma_lex_trans(a.0, b.0, c.0);
    }
}

fn ranks(a: &(String, usize), b: &(String, usize)) -> (r: bool)
    ensures
        r == ranks_before((a.0@, a.1), (b.0@, b.1)),
{
    a.1 > b.1 || (a.1 == b.1 && str_le(a.0.as_str(), b.0.as_str()))
}

/// The languages' order: every index once, larger domains first, a tie
/// by name.
pub open spec fn rank_order(langs: Seq<(String, usize)>, ord: Seq<usize>) -> bool {
    &&& ord.to_multiset() == Seq::new(langs.len(), |i: int| i as usize).to_multiset()
    &&& forall|i: int| 0 <= i < ord.len() ==> (#[trigger] ord[i]) < langs.len()
    &&& forall|i: int, k: int|
        0 <= i < k < ord.len() ==> ranks_before(key(langs, #[trigger] ord[i]), key(langs, #[trigger] ord[k]))
}

/// The order the self rows print the languages in.
pub fn order(langs: &Vec<(String, usize)>) -> (ord: Vec<usize>)
    ensures
        rank_order(langs@, ord@),
{
    let n = langs.len();
    let mut rest: Vec<usize> = Vec::new();
    let mut i: usize = 0;
    while i < n
        invariant
            n == langs@.len(),
            i <= n,
            rest@ == Seq::new(i as nat, |q: int| q as usize),
        decreases n - i,
    {
        rest.push(i);
        assert(rest@ =~= Seq::new((i + 1) as nat, |q: int| q as usize));
        i += 1;
    }
    let ghost start = rest@.to_multiset();
    let mut out: Vec<usize> = Vec::new();
    proof {
        broadcast use vstd::seq_lib::group_to_multiset_ensures;
        assert(out@.to_multiset() =~= vstd::multiset::Multiset::<usize>::empty());
        assert(vstd::multiset::Multiset::<usize>::empty().add(rest@.to_multiset()) =~= rest@.to_multiset());
    }
    while rest.len() > 0
        invariant
            n == langs@.len(),
            start == Seq::new(n as nat, |q: int| q as usize).to_multiset(),
            forall|q: int| 0 <= q < rest@.len() ==> (#[trigger] rest@[q]) < n,
            forall|q: int| 0 <= q < out@.len() ==> (#[trigger] out@[q]) < n,
            forall|a: int, b: int|
                0 <= a < b < out@.len() ==> ranks_before(
                    key(langs@, #[trigger] out@[a]),
                    key(langs@, #[trigger] out@[b]),
                ),
            forall|a: int, b: int|
                0 <= a < out@.len() && 0 <= b < rest@.len() ==> ranks_before(
                    key(langs@, #[trigger] out@[a]),
                    key(langs@, #[trigger] rest@[b]),
                ),
            out@.to_multiset().add(rest@.to_multiset()) == start,
        decreases rest.len(),
    {
        let mut m: usize = 0;
        let mut j: usize = 1;
        proof {
            lemma_ranks_refl(key(langs@, rest@[0]));
        }
        while j < rest.len()
            invariant
                n == langs@.len(),
                forall|q: int| 0 <= q < rest@.len() ==> (#[trigger] rest@[q]) < n,
                0 < rest@.len(),
                m < rest@.len(),
                1 <= j <= rest@.len(),
                forall|k: int|
                    0 <= k < j ==> ranks_before(key(langs@, rest@[m as int]), key(langs@, #[trigger] rest@[k])),
            decreases rest.len() - j,
        {
            let a = rest[m];
            let b = rest[j];
            if !ranks(&langs[a], &langs[b]) {
                proof {
                    lemma_ranks_total(key(langs@, a), key(langs@, b));
                    assert forall|k: int| 0 <= k < j + 1 implies ranks_before(
                        key(langs@, rest@[j as int]),
                        key(langs@, #[trigger] rest@[k]),
                    ) by {
                        if k < j {
                            lemma_ranks_trans(key(langs@, b), key(langs@, a), key(langs@, rest@[k]));
                        } else {
                            lemma_ranks_refl(key(langs@, rest@[k]));
                        }
                    }
                }
                m = j;
            }
            j += 1;
        }
        let ghost old_out = out@;
        let ghost old_rest = rest@;
        let x = rest.remove(m);
        out.push(x);
        proof {
            broadcast use vstd::seq_lib::group_to_multiset_ensures;
            assert(old_rest.to_multiset() =~= rest@.to_multiset().insert(x));
            assert(out@.to_multiset() =~= old_out.to_multiset().insert(x));
            assert(out@.to_multiset().add(rest@.to_multiset()) =~= old_out.to_multiset().add(
                old_rest.to_multiset(),
            ));
            assert forall|q: int| 0 <= q < rest@.len() implies (#[trigger] rest@[q]) < n by {
                let qq = if q < m { q } else { q + 1 };
                assert(rest@[q] == old_rest[qq]);
            }
            assert forall|q: int| 0 <= q < out@.len() implies (#[trigger] out@[q]) < n by {
                if q < old_out.len() {
                    assert(out@[q] == old_out[q]);
                }
            }
            assert forall|a: int, b: int| 0 <= a < b < out@.len() implies ranks_before(
                key(langs@, #[trigger] out@[a]),
                key(langs@, #[trigger] out@[b]),
            ) by {
                if b == out@.len() - 1 {
                    assert(out@[a] == old_out[a]);
                    assert(ranks_before(key(langs@, old_out[a]), key(langs@, old_rest[m as int])));
                } else {
                    assert(old_out[a] == out@[a] && old_out[b] == out@[b]);
                }
            }
            assert forall|a: int, b: int| 0 <= a < out@.len() && 0 <= b < rest@.len() implies ranks_before(
                key(langs@, #[trigger] out@[a]),
                key(langs@, #[trigger] rest@[b]),
            ) by {
                let bb = if b < m { b } else { b + 1 };
                assert(rest@[b] == old_rest[bb]);
                if a < out@.len() - 1 {
                    assert(out@[a] == old_out[a]);
                } else {
                    assert(ranks_before(key(langs@, old_rest[m as int]), key(langs@, old_rest[bb])));
                }
            }
        }
    }
    proof {
        broadcast use vstd::seq_lib::group_to_multiset_ensures;
        assert(rest@.to_multiset() =~= vstd::multiset::Multiset::<usize>::empty());
        assert(out@.to_multiset().add(vstd::multiset::Multiset::<usize>::empty()) =~= out@.to_multiset());
    }
    out
}

/// The cells of the `k`th self row: the corpus and universe cells on
/// the first row only, then the language's name and its columns.
pub open spec fn self_cells(k: int, universe: Chars, name: Chars, cols: Seq<Chars>) -> Seq<Chars> {
    (if k == 0 {
        seq!["self @ this commit"@, universe]
    } else {
        seq![Seq::<char>::empty(), Seq::<char>::empty()]
    }) + seq![name] + cols
}

/// The self rows as this tree reads: one row per language, largest
/// domain first (a tie by name). `langs` holds each language's name and
/// declared count, `cols` its five columns in the same order,
/// `universe` the universe cell.
pub fn self_rows(universe: &str, langs: &Vec<(String, usize)>, cols: &Vec<Vec<String>>) -> (out: Vec<String>)
    requires
        cols@.len() == langs@.len(),
    ensures
        exists|ord: Seq<usize>|
            #![trigger rank_order(langs@, ord)]
            rank_order(langs@, ord) && out@.len() == ord.len() && forall|k: int|
                0 <= k < out@.len() ==> (#[trigger] out@[k])@ == row_spec(
                    self_cells(k, universe@, langs@[ord[k] as int].0@, views(cols@[ord[k] as int]@)),
                ),
{
    let ord = order(langs);
    let mut out: Vec<String> = Vec::new();
    let mut k: usize = 0;
    while k < ord.len()
        invariant
            rank_order(langs@, ord@),
            cols@.len() == langs@.len(),
            k <= ord@.len(),
            out@.len() == k,
            forall|q: int|
                0 <= q < k ==> (#[trigger] out@[q])@ == row_spec(
                    self_cells(q, universe@, langs@[ord@[q] as int].0@, views(cols@[ord@[q] as int]@)),
                ),
        decreases ord.len() - k,
    {
        let idx = ord[k];
        assert(idx < langs@.len());
        let mut cells: Vec<String> = Vec::new();
        if k == 0 {
            cells.push(string_of(&chars_of("self @ this commit")));
            cells.push(string_of(&chars_of(universe)));
        } else {
            cells.push(string_of(&Vec::new()));
            cells.push(string_of(&Vec::new()));
        }
        cells.push(string_of(&chars_of(langs[idx].0.as_str())));
        let c = &cols[idx];
        let mut j: usize = 0;
        let ghost head = views(cells@);
        while j < c.len()
            invariant
                k <= ord@.len(),
                head.len() == 3,
                views(cells@) == head + views(c@).take(j as int),
                j <= c@.len(),
            decreases c.len() - j,
        {
            let ghost before = views(cells@);
            cells.push(string_of(&chars_of(c[j].as_str())));
            assert(views(cells@) =~= before.push(c@[j as int]@));
            assert(views(c@).take(j + 1) =~= views(c@).take(j as int).push(c@[j as int]@));
            j += 1;
        }
        assert(views(c@).take(c@.len() as int) =~= views(c@));
        assert(views(cells@) =~= self_cells(k as int, universe@, langs@[idx as int].0@, views(c@)));
        let r = row(&cells);
        let ghost before = out@;
        out.push(r);
        assert forall|q: int|
            0 <= q < k + 1 implies (#[trigger] out@[q])@ == row_spec(
                self_cells(q, universe@, langs@[ord@[q] as int].0@, views(cols@[ord@[q] as int]@)),
            ) by {
            if q < k {
                assert(out@[q] == before[q]);
            }
        }
        k += 1;
    }
    out
}

} // verus!
