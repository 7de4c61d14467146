//! The language exams: the exam table, the pre-registered sample
//! constants and the kind quotas of the hash-ranked draw. No RNG, no
//! clock: seats are integer largest remainder.

pub mod draw;
pub mod precision;
pub mod review;
pub mod tree;
pub mod verify;
pub mod walk;

pub use draw::{draw, Draw};
pub use verify::pool_counts;

use crate::text::{
    canon, canonical, chars_of, lex_sorted, pairs_view, same, sort_strings, string_of, value_for,
    value_from, views, Chars,
};
use vstd::prelude::*;

verus! {

/// What the truths of an exam may name: the frozen universe alone, or
/// every path of the pinned tree.
#[derive(Clone, Copy, Debug, PartialEq, Eq, Structural)]
pub enum Reach {
    Universe,
    Tree,
}

/// One language's exam: its corpora at their pinned tips, the file
/// extensions its universe walks, the pathspec of the rungs that may
/// land only after its audit, whether that audit is frozen, and what
/// its truths may name.
pub struct Exam {
    pub lang: String,
    pub corpora: Vec<(String, String)>,
    pub exts: Vec<String>,
    pub ladder: String,
    pub audited: bool,
    pub reach: Reach,
}

pub open spec fn gson_tip() -> Chars {
    "854c8255b625cf1e13c701a83ea9ccb4caaa576a"@
}

pub open spec fn jsoup_tip() -> Chars {
    "093e2f58492c531667e551e8793513a41b22443e"@
}

/// The exam table, row by row: every language whose exam is frozen,
/// in landing order. A second corpus joins when the first holds none of
/// a site kind: gson has no wildcard import, jsoup brings them.
pub open spec fn exam_rows(e: Seq<Exam>) -> bool {
    &&& e.len() == 1
    &&& e[0].lang@ == "java"@
    &&& pairs_view(e[0].corpora@) == seq![("gson"@, gson_tip()), ("jsoup"@, jsoup_tip())]
    &&& views(e[0].exts@) == seq!["java"@]
    &&& e[0].ladder@ == "cli/src/graph/ladder/java*"@
    &&& e[0].audited
    &&& e[0].reach == Reach::Universe
}

fn owned(s: &str) -> (out: String)
    ensures
        out@ == s@,
{
    string_of(&chars_of(s))
}

/// Every language whose exam is frozen, in landing order; a language
/// joins with its step and never leaves.
pub fn exams() -> (out: Vec<Exam>)
    ensures
        exam_rows(out@),
{
    let mut corpora: Vec<(String, String)> = Vec::new();
    corpora.push((owned("gson"), owned("854c8255b625cf1e13c701a83ea9ccb4caaa576a")));
    corpora.push((owned("jsoup"), owned("093e2f58492c531667e551e8793513a41b22443e")));
    let mut exts: Vec<String> = Vec::new();
    exts.push(owned("java"));
    let mut out: Vec<Exam> = Vec::new();
    out.push(
        Exam {
            lang: owned("java"),
            corpora,
            exts,
            ladder: owned("cli/src/graph/ladder/java*"),
            audited: true,
            reach: Reach::Universe,
        },
    );
    assert(pairs_view(out@[0].corpora@) =~= seq![("gson"@, gson_tip()), ("jsoup"@, jsoup_tip())]);
    assert(views(out@[0].exts@) =~= seq!["java"@]);
    out
}

impl Exam {
    /// A corpus's pinned tip, or None when the exam holds no such
    /// corpus — the one lookup the table, the sample and the audit
    /// verifiers read.
    pub fn tip(&self, corpus: &str) -> (r: Option<String>)
        ensures
            match value_for(pairs_view(self.corpora@), corpus@) {
                Some(t) => r matches Some(s) && s@ == t,
                None => r is None,
            },
    {
        match crate::text::value_in(self.corpora.as_slice(), &chars_of(corpus)) {
            Some(t) => Some(string_of(&t)),
            None => None,
        }
    }
}

/// The first exam of `e` from `i` on whose language is `lang`.
pub open spec fn exam_from(e: Seq<Exam>, lang: Chars, i: int) -> Option<int>
    decreases e.len() - i,
{
    if i < 0 || i >= e.len() {
        None
    } else if e[i].lang@ == lang {
        Some(i)
    } else {
        exam_from(e, lang, i + 1)
    }
}

/// The exam of a language: the index of its row in `exams()` (a
/// language no row carries is refused, never defaulted: `lang` is one
/// the table holds).
pub fn exam(table: &Vec<Exam>, lang: &str) -> (r: usize)
    requires
        exam_from(table@, lang@, 0) is Some,
    ensures
        exam_from(table@, lang@, 0) == Some(r as int),
{
    let l = chars_of(lang);
    let mut i: usize = 0;
    while i < table.len()
        invariant
            i <= table@.len(),
            l@ == lang@,
            exam_from(table@, lang@, 0) == exam_from(table@, lang@, i as int),
        decreases table.len() - i,
    {
        if same(&chars_of(table[i].lang.as_str()), &l) {
            return i;
        }
        i += 1;
    }
    proof {
        assert(exam_from(table@, lang@, i as int) is None);
    }
    0
}

/// The first exam of `e` from `i` on that holds the corpus.
pub open spec fn holder_from(e: Seq<Exam>, name: Chars, i: int) -> Option<int>
    decreases e.len() - i,
{
    if i < 0 || i >= e.len() {
        None
    } else if value_for(pairs_view(e[i].corpora@), name) is Some {
        Some(i)
    } else {
        holder_from(e, name, i + 1)
    }
}

/// The exam a corpus belongs to (its row in the table), and its pinned
/// tip (`name` is a corpus some exam holds).
pub fn exam_of_corpus(table: &Vec<Exam>, name: &str) -> (r: (usize, String))
    requires
        holder_from(table@, name@, 0) is Some,
    ensures
        holder_from(table@, name@, 0) == Some(r.0 as int),
        Some(r.1@) == value_for(pairs_view(table@[r.0 as int].corpora@), name@),
{
    let mut i: usize = 0;
    while i < table.len()
        invariant
            i <= table@.len(),
            holder_from(table@, name@, 0) == holder_from(table@, name@, i as int),
        decreases table.len() - i,
    {
        match table[i].tip(name) {
            Some(t) => {
                return (i, t);
            },
            None => {},
        }
        i += 1;
    }
    proof {
        assert(holder_from(table@, name@, i as int) is None);
    }
    (0, String::new())
}

/// Every corpus name of the exams, in table order.
pub open spec fn names_of(e: Seq<Exam>) -> Seq<Chars>
    decreases e.len(),
{
    if e.len() == 0 {
        Seq::empty()
    } else {
        names_of(e.drop_last()) + pairs_view(e.last().corpora@).map_values(|p: (Chars, Chars)| p.0)
    }
}

/// Every exam corpus name, sorted — the frozen-set anchor.
pub fn corpus_names(table: &Vec<Exam>) -> (out: Vec<String>)
    ensures
        lex_sorted(views(out@)),
        views(out@).to_multiset() == names_of(table@).to_multiset(),
{
    let mut names: Vec<String> = Vec::new();
    let mut i: usize = 0;
    while i < table.len()
        invariant
            i <= table@.len(),
            views(names@) == names_of(table@.take(i as int)),
        decreases table.len() - i,
    {
        let cs = &table[i].corpora;
        let ghost before = views(names@);
        let mut j: usize = 0;
        while j < cs.len()
            invariant
                j <= cs@.len(),
                views(names@) == before + pairs_view(cs@).take(j as int).map_values(
                    |p: (Chars, Chars)| p.0,
                ),
            decreases cs.len() - j,
        {
            let ghost mid = views(names@);
            names.push(string_of(&chars_of(cs[j].0.as_str())));
            proof {
                assert(views(names@) =~= mid.push(cs@[j as int].0@));
                assert(pairs_view(cs@).take(j + 1).map_values(|p: (Chars, Chars)| p.0)
                    =~= pairs_view(cs@).take(j as int).map_values(|p: (Chars, Chars)| p.0).push(
                    cs@[j as int].0@,
                ));
            }
            j += 1;
        }
        proof {
            assert(pairs_view(cs@).take(cs@.len() as int) =~= pairs_view(cs@));
            assert(table@.take(i + 1).drop_last() =~= table@.take(i as int));
        }
        i += 1;
    }
    assert(table@.take(table@.len() as int) =~= table@);
    sort_strings(names)
}

/// Pre-registered sample constants: TOTAL primaries per language, a
/// floor of MIN_PER_KIND per site kind before the largest-remainder
/// seats (a kind with fewer sites is taken whole), BACKUP_PER_KIND
/// replacements per kind for an unanswerable primary.
pub const TOTAL: u64 = 100;
pub const MIN_PER_KIND: u64 = 15;
pub const BACKUP_PER_KIND: u64 = 20;

/// Kind quotas from the pool's per-kind counts — the draw's own
/// (draw.rs), under the exam table's name.
pub fn quotas(pool: &Vec<(String, u64)>) -> (out: Vec<(String, u64)>)
    requires
        crate::text::canonical(crate::eval_support::auditgen::weight_keys(pool@)),
        draw::quota_fits(crate::eval_support::auditgen::counts(pool@)),
    ensures
        out@.len() == pool@.len(),
        forall|i: int|
            0 <= i < out@.len() ==> (#[trigger] out@[i]).0 == pool@[i].0 && out@[i].1 as int
                == draw::quota(crate::eval_support::auditgen::counts(pool@), i),
{
    draw::quotas(pool)
}

} // verus!
