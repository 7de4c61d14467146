//! The graph instruments' shared surface: the truth vocabulary, the
//! frozen corpus set and the shared primitives every audit and precision
//! family runs.

pub use super::tally::{site_summary, SiteFile, SiteSummary};
use super::corpus::{doc_suffix, doc_suffix_spec, NotADoc};
use crate::text::{
    chars_of, lemma_lex_antisym, lemma_lex_refl, lemma_lex_total, lemma_lex_trans,
    lemma_sorted_unique, lex_le, same, str_le, string_of, views, Chars,
};
use vstd::prelude::*;

verus! {

/// Non-path truth verdicts; everything else must be a repo-relative
/// `path` or `path#unit`.
pub open spec fn truth_keywords() -> Seq<Chars> {
    seq!["external"@, "dynamic"@, "ambiguous"@, "none"@]
}

/// The first keyword from `i` on that `t` is.
pub open spec fn keyword_from(t: Chars, i: int) -> Option<int>
    decreases 4 - i,
{
    if i < 0 || i >= 4 {
        None
    } else if truth_keywords()[i] == t {
        Some(i)
    } else {
        keyword_from(t, i + 1)
    }
}

/// Which keyword a truth is, if any.
pub open spec fn keyword_of(t: Chars) -> Option<int> {
    keyword_from(t, 0)
}

/// Which keyword a truth is, if any (its index in the vocabulary).
pub fn keyword_index(t: &str) -> (r: Option<usize>)
    ensures
        r == (match keyword_of(t@) {
            Some(i) => Some(i as usize),
            None => None,
        }),
{
    let words = ["external", "dynamic", "ambiguous", "none"];
    let tc = chars_of(t);
    let mut i: usize = 0;
    while i < 4
        invariant
            i <= 4,
            tc@ == t@,
            words@.map_values(|w: &str| w@) == truth_keywords(),
            keyword_of(t@) == keyword_from(t@, i as int),
        decreases 4 - i,
    {
        assert(words@.map_values(|w: &str| w@)[i as int] == words@[i as int]@);
        if same(&chars_of(words[i]), &tc) {
            return Some(i);
        }
        i += 1;
    }
    None
}

/// The frozen corpus set, sorted; None is the self doc.
pub open spec fn frozen_corpora() -> Seq<Option<Chars>> {
    seq![None, Some("cobra"@), Some("requests"@), Some("ripgrep"@), Some("zod"@)]
}

fn owned(s: &str) -> (out: String)
    ensures
        out@ == s@,
{
    string_of(&chars_of(s))
}

pub open spec fn opt_views(v: Seq<Option<String>>) -> Seq<Option<Chars>> {
    v.map_values(
        |o: Option<String>|
            match o {
                Some(s) => Some(s@),
                None => None,
            },
    )
}

/// The frozen corpus set.
pub fn frozen_corpus_names() -> (out: Vec<Option<String>>)
    ensures
        opt_views(out@) == frozen_corpora(),
{
    let mut out: Vec<Option<String>> = Vec::new();
    out.push(None);
    out.push(Some(owned("cobra")));
    out.push(Some(owned("requests")));
    out.push(Some(owned("ripgrep")));
    out.push(Some(owned("zod")));
    assert(opt_views(out@) =~= frozen_corpora());
    out
}

/// The order of corpus names: the self doc first, then by name.
pub open spec fn opt_le(a: Option<Chars>, b: Option<Chars>) -> bool {
    match (a, b) {
        (None, _) => true,
        (Some(_), None) => false,
        (Some(x), Some(y)) => lex_le(x, y),
    }
}

pub open spec fn opt_order() -> spec_fn(Option<Chars>, Option<Chars>) -> bool {
    |a: Option<Chars>, b: Option<Chars>| opt_le(a, b)
}

pub proof fn lemma_opt_antisym()
    ensures
        vstd::relations::antisymmetric(opt_order()),
{
    assert forall|x: Option<Chars>, y: Option<Chars>|
        #[trigger] opt_order()(x, y) && #[trigger] opt_order()(y, x) implies x == y by {
        if let (Some(a), Some(b)) = (x, y) {
            lemma_lex_antisym(a, b);
        }
    }
}

fn opt_le_exec(a: &Option<String>, b: &Option<String>) -> (r: bool)
    ensures
        r == opt_le(
            match a {
                Some(s) => Some(s@),
                None => None,
            },
            match b {
                Some(s) => Some(s@),
                None => None,
            },
        ),
{
    match (a, b) {
        (None, _) => true,
        (Some(_), None) => false,
        (Some(x), Some(y)) => str_le(x.as_str(), y.as_str()),
    }
}

fn clone_opt(a: &Option<String>) -> (r: Option<String>)
    ensures
        match (a, r) {
            (Some(x), Some(y)) => x@ == y@,
            (None, None) => true,
            _ => false,
        },
{
    match a {
        Some(x) => Some(owned(x.as_str())),
        None => None,
    }
}

/// The corpus names sorted: the same names, each as often.
fn sort_names(v: Vec<Option<String>>) -> (out: Vec<Option<String>>)
    ensures
        vstd::relations::sorted_by(opt_views(out@), opt_order()),
        opt_views(out@).to_multiset() == opt_views(v@).to_multiset(),
{
    let ghost start = opt_views(v@).to_multiset();
    let mut rest = v;
    let mut out: Vec<Option<String>> = Vec::new();
    proof {
        broadcast use vstd::seq_lib::group_to_multiset_ensures;
        assert(opt_views(out@) =~= Seq::<Option<Chars>>::empty());
        assert(opt_views(out@).to_multiset() =~= vstd::multiset::Multiset::<Option<Chars>>::empty());
        assert(vstd::multiset::Multiset::<Option<Chars>>::empty().add(opt_views(rest@).to_multiset())
            =~= opt_views(rest@).to_multiset());
    }
    while rest.len() > 0
        invariant
            vstd::relations::sorted_by(opt_views(out@), opt_order()),
            forall|i: int, j: int|
                0 <= i < out@.len() && 0 <= j < rest@.len() ==> opt_le(
                    #[trigger] opt_views(out@)[i],
                    #[trigger] opt_views(rest@)[j],
                ),
            opt_views(out@).to_multiset().add(opt_views(rest@).to_multiset()) == start,
        decreases rest.len(),
    {
        let ghost rv = opt_views(rest@);
        let mut m: usize = 0;
        let mut j: usize = 1;
        proof {
            if let Some(x) = rv[0] {
                lemma_lex_refl(x);
            }
        }
        while j < rest.len()
            invariant
                rv == opt_views(rest@),
                0 < rest@.len(),
                m < rest@.len(),
                1 <= j <= rest@.len(),
                forall|k: int| 0 <= k < j ==> opt_le(rv[m as int], #[trigger] rv[k]),
            decreases rest.len() - j,
        {
            if !opt_le_exec(&rest[m], &rest[j]) {
                proof {
                    assert forall|k: int| 0 <= k < j + 1 implies opt_le(rv[j as int], #[trigger] rv[k]) by {
                        if k < j {
                            match (rv[m as int], rv[j as int], rv[k]) {
                                (Some(a), Some(b), Some(c)) => {
                                    lemma_lex_total(a, b);
                                    lemma_lex_trans(b, a, c);
                                },
                                _ => {},
                            }
                        } else {
                            if let Some(x) = rv[k] {
                                lemma_lex_refl(x);
                            }
                        }
                    }
                }
                m = j;
            }
            j += 1;
        }
        let ghost old_out = opt_views(out@);
        let x = rest.remove(m);
        let ghost xv = rv[m as int];
        out.push(x);
        proof {
            broadcast use vstd::seq_lib::group_to_multiset_ensures;
            assert(opt_views(out@) =~= old_out.push(xv));
            assert(opt_views(rest@) =~= rv.remove(m as int));
            assert(rv.to_multiset() =~= opt_views(rest@).to_multiset().insert(xv));
            assert(opt_views(out@).to_multiset().add(opt_views(rest@).to_multiset()) =~= old_out.to_multiset().add(rv.to_multiset()));
            assert forall|i: int, k: int| 0 <= i < k < opt_views(out@).len() implies #[trigger] opt_order()(
                opt_views(out@)[i],
                opt_views(out@)[k],
            ) by {
                if k == opt_views(out@).len() - 1 {
                    assert(opt_le(old_out[i], rv[m as int]));
                } else {
                    assert(opt_order()(old_out[i], old_out[k]));
                }
            }
            assert forall|i: int, k: int| 0 <= i < out@.len() && 0 <= k < rest@.len() implies opt_le(
                #[trigger] opt_views(out@)[i],
                #[trigger] opt_views(rest@)[k],
            ) by {
                let kk = if k < m { k } else { k + 1 };
                assert(opt_views(rest@)[k] == rv[kk]);
                if i < out@.len() - 1 {
                    assert(opt_views(out@)[i] == old_out[i]);
                }
            }
        }
    }
    proof {
        broadcast use vstd::seq_lib::group_to_multiset_ensures;
        assert(opt_views(rest@) =~= Seq::<Option<Chars>>::empty());
        assert(opt_views(rest@).to_multiset() =~= vstd::multiset::Multiset::<Option<Chars>>::empty());
        assert(opt_views(out@).to_multiset().add(vstd::multiset::Multiset::<Option<Chars>>::empty())
            =~= opt_views(out@).to_multiset());
    }
    out
}

/// Why a family's frozen docs do not cover the expected corpus set.
#[derive(Debug)]
pub enum CorpusSetError {
    /// A listed file that is no doc of the family.
    NotADoc(NotADoc),
    /// The corpus set drifted from the expected one.
    Drifted { family: String },
}

/// The corpus a listed doc names, when every listed doc is a doc of the
/// family.
pub open spec fn names_of_docs(docs: Seq<Chars>, family: Chars) -> Option<Seq<Option<Chars>>>
    decreases docs.len(),
{
    if docs.len() == 0 {
        Some(Seq::empty())
    } else {
        match (names_of_docs(docs.drop_last(), family), doc_suffix_spec(docs.last(), family)) {
            (Some(rest), Some(n)) => Some(rest.push(n)),
            _ => None,
        }
    }
}

/// The anchor over an explicit sorted corpus list (None = the self
/// doc): the docs of one family (`docs`, the family's frozen files)
/// must name exactly the expected corpora — a deleted or renamed doc
/// reddens instead of going unseen. Hands the docs back; a drifted set
/// (or a path that is no doc of the family) is refused by value for the
/// caller to report, never by a panic.
pub fn assert_corpus_set(family: &str, docs: Vec<String>, expected: &Vec<Option<String>>) -> (r:
    Result<Vec<String>, CorpusSetError>)
    ensures
        match (r, names_of_docs(views(docs@), family@)) {
            (Ok(d), Some(names)) => views(d@) == views(docs@) && vstd::relations::sorted_by(
                opt_views(expected@),
                opt_order(),
            ) && names.to_multiset() == opt_views(expected@).to_multiset(),
            (Err(CorpusSetError::Drifted { family: f }), Some(names)) => f@ == family@ && !(
            vstd::relations::sorted_by(opt_views(expected@), opt_order()) && names.to_multiset()
                == opt_views(expected@).to_multiset()),
            (Err(CorpusSetError::NotADoc(_)), None) => true,
            _ => false,
        },
{
    let mut names: Vec<Option<String>> = Vec::new();
    let mut i: usize = 0;
    while i < docs.len()
        invariant
            i <= docs@.len(),
            names_of_docs(views(docs@).take(i as int), family@) == Some(opt_views(names@)),
        decreases docs.len() - i,
    {
        assert(views(docs@).take(i + 1).drop_last() =~= views(docs@).take(i as int));
        assert(views(docs@).take(i + 1).last() == docs@[i as int]@);
        match doc_suffix(docs[i].as_str(), family) {
            Ok(n) => {
                let ghost before = opt_views(names@);
                let ghost nv = match &n {
                    Some(s) => Some(s@),
                    None => None,
                };
                names.push(n);
                assert(opt_views(names@) =~= before.push(nv));
            },
            Err(e) => {
                proof {
                    lemma_names_none(views(docs@), family@, i + 1);
                }
                return Err(CorpusSetError::NotADoc(e));
            },
        }
        i += 1;
    }
    assert(views(docs@).take(docs@.len() as int) =~= views(docs@));
    let ghost nv = opt_views(names@);
    let sorted = sort_names(names);
    let mut same_set = sorted.len() == expected.len();
    let mut k: usize = 0;
    assert(!same_set ==> opt_views(sorted@).len() != opt_views(expected@).len());
    while same_set && k < sorted.len()
        invariant
            same_set ==> sorted@.len() == expected@.len(),
            k <= sorted@.len(),
            same_set ==> forall|j: int| 0 <= j < k ==> opt_views(sorted@)[j] == opt_views(expected@)[j],
            !same_set ==> opt_views(sorted@) != opt_views(expected@),
        decreases sorted.len() - k,
    {
        let eq = match (&sorted[k], &expected[k]) {
            (None, None) => true,
            (Some(a), Some(b)) => same(&chars_of(a.as_str()), &chars_of(b.as_str())),
            _ => false,
        };
        if !eq {
            assert(opt_views(sorted@)[k as int] != opt_views(expected@)[k as int]);
            same_set = false;
        }
        k += 1;
    }
    if same_set {
        assert(opt_views(sorted@) =~= opt_views(expected@));
        Ok(docs)
    } else {
        proof {
            lemma_opt_antisym();
            if vstd::relations::sorted_by(opt_views(expected@), opt_order()) && nv.to_multiset()
                == opt_views(expected@).to_multiset() {
                lemma_sorted_unique(opt_views(sorted@), opt_views(expected@), opt_order());
            }
        }
        Err(CorpusSetError::Drifted { family: owned(family) })
    }
}

pub proof fn lemma_names_none(docs: Seq<Chars>, family: Chars, n: int)
    requires
        0 < n <= docs.len(),
        doc_suffix_spec(docs[n - 1], family) is None,
    ensures
        names_of_docs(docs, family) is None,
    decreases docs.len(),
{
    if n < docs.len() {
        assert(docs.drop_last()[n - 1] == docs[n - 1]);
        lemma_names_none(docs.drop_last(), family, n);
    }
}

/// The frozen-corpus-set anchor: the docs of one family must cover
/// exactly the frozen corpus set.
pub fn assert_frozen_corpus_set(family: &str, docs: Vec<String>) -> (r: Result<
    Vec<String>,
    CorpusSetError,
>)
    ensures
        match (r, names_of_docs(views(docs@), family@)) {
            (Ok(d), Some(names)) => views(d@) == views(docs@) && names.to_multiset()
                == frozen_corpora().to_multiset(),
            (Err(CorpusSetError::Drifted { family: f }), Some(names)) => f@ == family@
                && names.to_multiset() != frozen_corpora().to_multiset(),
            (Err(CorpusSetError::NotADoc(_)), None) => true,
            _ => false,
        },
{
    let expected = frozen_corpus_names();
    proof {
        assert forall|i: int, j: int| 0 <= i < j < frozen_corpora().len() implies #[trigger] opt_order()(
            frozen_corpora()[i],
            frozen_corpora()[j],
        ) by {
            reveal_strlit("cobra");
            reveal_strlit("requests");
            reveal_strlit("ripgrep");
            reveal_strlit("zod");
            reveal_with_fuel(lex_le, 3);
            let c = "cobra"@;
            let q = "requests"@;
            let p = "ripgrep"@;
            let z = "zod"@;
            assert(lex_le(c, q) && lex_le(c, p) && lex_le(c, z));
            assert(q.drop_first()[0] == 'e' && p.drop_first()[0] == 'i');
            assert(lex_le(q, p) && lex_le(q, z) && lex_le(p, z));
        }
    }
    assert_corpus_set(family, docs, &expected)
}

/// A promised seat that holds no count.
#[derive(Debug)]
pub struct EmptySeat {
    pub seat: String,
    pub what: String,
}

/// The count a table of (name, count) pairs gives a name: its first
/// entry, zero when it has none.
pub open spec fn count_for(counts: Seq<(Chars, u64)>, name: Chars, i: int) -> u64
    decreases counts.len() - i,
{
    if i < 0 || i >= counts.len() {
        0
    } else if counts[i].0 == name {
        counts[i].1
    } else {
        count_for(counts, name, i + 1)
    }
}

pub open spec fn counts_view(c: Seq<(String, u64)>) -> Seq<(Chars, u64)> {
    c.map_values(|p: (String, u64)| (p.0@, p.1))
}

fn count_of(counts: &Vec<(String, u64)>, name: &[char]) -> (n: u64)
    ensures
        n == count_for(counts_view(counts@), name@, 0),
{
    let mut i: usize = 0;
    while i < counts.len()
        invariant
            i <= counts@.len(),
            count_for(counts_view(counts@), name@, 0) == count_for(counts_view(counts@), name@, i as int),
        decreases counts.len() - i,
    {
        if same(&chars_of(counts[i].0.as_str()), name) {
            return counts[i].1;
        }
        i += 1;
    }
    0
}

/// Every promised seat must hold a nonzero count — a vocabulary class
/// or coverage lane that silently empties is how a gate goes blind
/// while staying green. The refusal names the first empty seat (a seat
/// with no count at all counts as empty); it is a value for the caller
/// to report, never a panic.
pub fn assert_nonzero_seats(counts: &Vec<(String, u64)>, seats: &Vec<String>, what: &str) -> (r:
    Result<(), EmptySeat>)
    ensures
        match r {
            Ok(()) => forall|j: int|
                0 <= j < seats@.len() ==> count_for(counts_view(counts@), #[trigger] seats@[j]@, 0) > 0,
            Err(e) => e.what@ == what@ && exists|j: int|
                0 <= j < seats@.len() && e.seat@ == seats@[j]@ && count_for(
                    counts_view(counts@),
                    #[trigger] seats@[j]@,
                    0,
                ) == 0 && forall|k: int|
                    0 <= k < j ==> count_for(counts_view(counts@), #[trigger] seats@[k]@, 0) > 0,
        },
{
    let mut j: usize = 0;
    while j < seats.len()
        invariant
            j <= seats@.len(),
            forall|k: int| 0 <= k < j ==> count_for(counts_view(counts@), #[trigger] seats@[k]@, 0) > 0,
        decreases seats.len() - j,
    {
        let s = chars_of(seats[j].as_str());
        if count_of(counts, &s) == 0 {
            return Err(EmptySeat { seat: string_of(&s), what: owned(what) });
        }
        j += 1;
    }
    Ok(())
}

} // verus!
