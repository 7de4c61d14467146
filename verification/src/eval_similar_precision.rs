//! The frozen same-role oracles' checks: every generation agrees with
//! itself (rank ids re-derive from identities, every truth is in the
//! vocabulary with a why, every metric in the summary re-derives from
//! the rows), with its predecessors (a generation past the first is the
//! holdout: no rank an earlier oracle arbitrated, and it names what it
//! held out from), and its published numbers hold its floor.

use crate::eval_similar_precision_parts::{metrics, metrics_spec, rows_view, ArmMetrics, Candidate, Frac, Metrics};
use crate::eval_lang_parts::verify::lex_lt;
use crate::text::{
    canon, canonical, chars_of, concat, dec_chars, decimal, same, str_le, string_of, views, Chars,
};
use vstd::prelude::*;

verus! {

/// A why shorter than this is a label, not a reason.
pub const MIN_WHY: usize = 40;

/// The generation a doc says it is; the first oracle predates the
/// field (there was nothing to hold out from) and reads as 1.
pub fn generation_of(field: Option<u64>) -> (g: u32)
    ensures
        g == match field {
            Some(x) => x as u32,
            None => 1u32,
        },
{
    match field {
        Some(x) => #[verifier::truncate]
        (x as u32),
        None => 1,
    }
}

/// The doc a holdout of generation `g` names.
pub open spec fn holdout_name(g: nat) -> Chars {
    "similar-oracle-v"@ + dec_chars(g)
}

/// Why a holdout is refused.
#[derive(Debug)]
pub enum HoldoutFault {
    /// A holdout does not name the oracle it held out from.
    HoldoutOf,
    /// A rank was arbitrated before, by an earlier generation or an
    /// earlier row.
    Rearbitrated { rank: String },
}

/// Why a frozen oracle row is refused.
#[derive(Debug)]
pub enum RowFault {
    /// The rank does not re-derive from the row's identity.
    Rank,
    /// Candidate `at` has a truth out of the vocabulary.
    Truth { at: usize },
    /// Candidate `at` has no clone flag.
    CloneFlag { at: usize },
    /// Candidate `at` has a why under the floor.
    Why { at: usize },
}

/// Why a frozen sample's rows or summary are refused.
#[derive(Debug)]
pub enum SummaryFault {
    /// Fewer than a hundred arbitrated queries.
    Few,
    /// The rows are not in strictly ascending rank order.
    Unsorted,
    /// The summary over all rows is not the rows' own.
    Summary,
    /// A corpus has no arbitrated row.
    NoRow { corpus: String },
    /// A corpus block is not its rows' own.
    CorpusSummary { corpus: String },
}

/// A holdout names the oracle it held out from.
pub open spec fn names_holdout(h: Option<String>, g: nat) -> bool {
    match h {
        Some(x) => x@ == holdout_name(g),
        None => false,
    }
}

fn member(set: &Vec<String>, x: &[char]) -> (b: bool)
    ensures
        b == views(set@).contains(x@),
{
    let mut i: usize = 0;
    while i < set.len()
        invariant
            i <= set@.len(),
            forall|j: int| 0 <= j < i ==> views(set@)[j] != x@,
        decreases set.len() - i,
    {
        assert(views(set@)[i as int] == set@[i as int]@);
        if same(&chars_of(set[i].as_str()), x) {
            return true;
        }
        i += 1;
    }
    false
}

/// A generation past the first is the holdout: it names the oracle it
/// held out from, and none of its ranks was arbitrated before — by an
/// earlier generation (`arbitrated`, every rank seen so far) or by one
/// of its own rows. Its ranks join `arbitrated` once it holds.
#[verifier::loop_isolation(false)]
pub fn holdout(g: u32, holdout_of: &Option<String>, ranks: &Vec<String>, arbitrated: &mut Vec<String>) -> (r:
    Result<(), HoldoutFault>)
    requires
        canonical(views(old(arbitrated)@)),
    ensures
        r is Ok <==> (g > 1 ==> names_holdout(*holdout_of, (g - 1) as nat)) && views(
            ranks@,
        ).no_duplicates() && views(ranks@).to_set().disjoint(views(old(arbitrated)@).to_set()),
        r is Ok ==> canonical(views(final(arbitrated)@)) && views(final(arbitrated)@).to_set() == views(
            old(arbitrated)@,
        ).to_set().union(views(ranks@).to_set()),
        r is Err ==> final(arbitrated)@ == old(arbitrated)@,
        r matches Err(HoldoutFault::HoldoutOf) <==> g > 1 && !names_holdout(*holdout_of, (g - 1) as nat),
        r matches Err(HoldoutFault::Rearbitrated { rank }) ==> views(ranks@).contains(rank@) && (views(
            old(arbitrated)@,
        ).contains(rank@) || !views(ranks@).no_duplicates()),
{
    if g > 1 {
        let want = concat(&chars_of("similar-oracle-v"), &decimal((g - 1) as u64));
        let ok = match holdout_of {
            Some(h) => same(&chars_of(h.as_str()), &want),
            None => false,
        };
        if !ok {
            return Err(HoldoutFault::HoldoutOf);
        }
    }
    let n = ranks.len();
    let mut i: usize = 0;
    while i < n
        invariant
            n == ranks@.len(),
            i <= n,
            canonical(views(arbitrated@)),
            forall|a: int, b: int| 0 <= a < b < i ==> views(ranks@)[a] != views(ranks@)[b],
            forall|a: int| 0 <= a < i ==> !views(arbitrated@).contains(#[trigger] views(ranks@)[a]),
        decreases n - i,
    {
        let x = chars_of(ranks[i].as_str());
        assert(views(ranks@)[i as int] == x@);
        if member(arbitrated, &x) {
            proof {
                assert(views(arbitrated@).to_set().contains(x@));
                assert(views(ranks@).to_set().contains(x@));
            }
            return Err(HoldoutFault::Rearbitrated { rank: string_of(&x) });
        }
        let mut j: usize = 0;
        while j < i
            invariant
                j <= i,
                i < n,
                n == ranks@.len(),
                x@ == views(ranks@)[i as int],
                forall|a: int| 0 <= a < j ==> views(ranks@)[a] != x@,
            decreases i - j,
        {
            assert(views(ranks@)[j as int] == ranks@[j as int]@);
            if same(&chars_of(ranks[j].as_str()), &x) {
                proof {
                    assert(!views(ranks@).no_duplicates());
                }
                return Err(HoldoutFault::Rearbitrated { rank: string_of(&x) });
            }
            j += 1;
        }
        i += 1;
    }
    proof {
        assert(views(ranks@).no_duplicates());
        assert forall|x: Chars| views(ranks@).to_set().contains(x) implies !views(arbitrated@).to_set().contains(x) by {
            let a = choose|a: int| 0 <= a < views(ranks@).len() && views(ranks@)[a] == x;
        }
    }
    let mut both: Vec<String> = Vec::new();
    let mut k: usize = 0;
    while k < arbitrated.len()
        invariant
            k <= arbitrated@.len(),
            views(both@) == views(arbitrated@).take(k as int),
        decreases arbitrated.len() - k,
    {
        let ghost before = views(both@);
        both.push(arbitrated[k].clone());
        assert(views(both@) =~= before.push(arbitrated@[k as int]@));
        assert(views(arbitrated@).take(k + 1) =~= views(arbitrated@).take(k as int).push(arbitrated@[k as int]@));
        k += 1;
    }
    let mut k: usize = 0;
    while k < n
        invariant
            n == ranks@.len(),
            k <= n,
            views(both@) == views(arbitrated@) + views(ranks@).take(k as int),
        decreases n - k,
    {
        let ghost before = views(both@);
        both.push(ranks[k].clone());
        assert(views(both@) =~= before.push(ranks@[k as int]@));
        assert(views(ranks@).take(k + 1) =~= views(ranks@).take(k as int).push(ranks@[k as int]@));
        k += 1;
    }
    proof {
        assert(views(arbitrated@).take(arbitrated@.len() as int) =~= views(arbitrated@));
        assert(views(ranks@).take(n as int) =~= views(ranks@));
        assert(views(both@).to_set() =~= views(arbitrated@).to_set().union(views(ranks@).to_set())) by {
            assert forall|x: Chars| views(both@).contains(x) <==> (views(arbitrated@).contains(x) || views(
                ranks@,
            ).contains(x)) by {
                let l = views(arbitrated@).len();
                if views(both@).contains(x) {
                    let a = choose|a: int| 0 <= a < views(both@).len() && views(both@)[a] == x;
                    if a >= l {
                        assert(views(ranks@)[a - l] == x);
                    }
                }
                if views(arbitrated@).contains(x) {
                    let a = choose|a: int| 0 <= a < l && views(arbitrated@)[a] == x;
                    assert(views(both@)[a] == x);
                }
                if views(ranks@).contains(x) {
                    let a = choose|a: int| 0 <= a < views(ranks@).len() && views(ranks@)[a] == x;
                    assert(views(both@)[l + a] == x);
                }
            }
        }
    }
    *arbitrated = canon(both);
    Ok(())
}

/// One arbitrated candidate's own fields.
pub struct Arbitrated {
    pub truth: String,
    /// The clone flag, none where the row carries no boolean.
    pub clone: Option<bool>,
    pub why: String,
}

/// The arbiter's vocabulary.
pub open spec fn truth_word(t: Chars) -> bool {
    t == "same_role"@ || t == "related"@ || t == "unrelated"@
}

pub open spec fn arbitrated_ok(c: Arbitrated) -> bool {
    truth_word(c.truth@) && c.clone is Some && c.why@.len() >= MIN_WHY
}

/// One row's own consistency: its rank is the one re-derived from its
/// identity (`derived`), and every candidate carries a truth in the
/// vocabulary, a clone flag and a why past the floor.
pub fn row_ok(rank: &str, derived: &str, cands: &Vec<Arbitrated>) -> (r: Result<(), RowFault>)
    ensures
        r is Ok <==> rank@ == derived@ && forall|i: int| 0 <= i < cands@.len() ==> arbitrated_ok(#[trigger] cands@[i]),
        r matches Err(RowFault::Rank) <==> rank@ != derived@,
        r matches Err(RowFault::Truth { at }) ==> rank@ == derived@ && at < cands@.len() && !truth_word(
            cands@[at as int].truth@,
        ),
        r matches Err(RowFault::CloneFlag { at }) ==> rank@ == derived@ && at < cands@.len() && cands@[at as int].clone is None,
        r matches Err(RowFault::Why { at }) ==> rank@ == derived@ && at < cands@.len() && cands@[at as int].why@.len() < MIN_WHY,
{
    if !same(&chars_of(rank), &chars_of(derived)) {
        return Err(RowFault::Rank);
    }
    let mut i: usize = 0;
    while i < cands.len()
        invariant
            rank@ == derived@,
            i <= cands@.len(),
            forall|j: int| 0 <= j < i ==> arbitrated_ok(#[trigger] cands@[j]),
        decreases cands.len() - i,
    {
        let c = &cands[i];
        let t = chars_of(c.truth.as_str());
        proof {
            reveal_strlit("same_role");
            reveal_strlit("related");
            reveal_strlit("unrelated");
        }
        if !(same(&t, &chars_of("same_role")) || same(&t, &chars_of("related")) || same(&t, &chars_of("unrelated"))) {
            return Err(RowFault::Truth { at: i });
        }
        if c.clone.is_none() {
            return Err(RowFault::CloneFlag { at: i });
        }
        if chars_of(c.why.as_str()).len() < MIN_WHY {
            return Err(RowFault::Why { at: i });
        }
        i += 1;
    }
    Ok(())
}

/// A frozen oracle row: its corpus, its rank and its candidates as the
/// metrics read them.
pub struct OracleRow {
    pub corpus: String,
    pub rank: String,
    pub candidates: Vec<Candidate>,
}

pub open spec fn oracle_cands(rows: Seq<OracleRow>) -> Seq<Seq<Candidate>> {
    rows.map_values(|r: OracleRow| r.candidates@)
}

fn same_frac(a: Frac, b: Frac) -> (r: bool)
    ensures
        r == (a == b),
{
    a.0 == b.0 && a.1 == b.1
}

fn same_arm(a: &ArmMetrics, b: &ArmMetrics) -> (r: bool)
    ensures
        r == (*a == *b),
{
    same_frac(a.p_at_1, b.p_at_1) && same_frac(a.p_at_1_nonclone, b.p_at_1_nonclone) && same_frac(
        a.p_at_1_role1,
        b.p_at_1_role1,
    ) && same_frac(a.p_at_1_role0, b.p_at_1_role0) && same_frac(a.hit_at_5, b.hit_at_5)
}

fn same_metrics(a: &Metrics, b: &Metrics) -> (r: bool)
    ensures
        r == (*a == *b),
{
    a.queries == b.queries && a.candidates == b.candidates && same_arm(&a.bare, &b.bare) && same_arm(
        &a.widened,
        &b.widened,
    ) && a.tp == b.tp && a.fp == b.fp && a.fn_ == b.fn_ && a.tn == b.tn
}

/// The rows of one corpus.
pub open spec fn of_corpus(rows: Seq<OracleRow>, c: Chars) -> Seq<OracleRow> {
    rows.filter(in_corpus(c))
}

pub open spec fn in_corpus(c: Chars) -> spec_fn(OracleRow) -> bool {
    |r: OracleRow| r.corpus@ == c
}

/// The arbitrated queries number at least a hundred, in strictly
/// ascending rank order.
pub open spec fn ranked_sample(rows: Seq<OracleRow>) -> bool {
    &&& rows.len() >= 100
    &&& forall|i: int| 0 < i < rows.len() ==> lex_lt((#[trigger] rows[i - 1]).rank@, rows[i].rank@)
}

fn candidates_of(rows: &Vec<OracleRow>, corpus: Option<&[char]>) -> (out: Vec<Vec<Candidate>>)
    ensures
        rows_view(out@) == match corpus {
            Some(c) => oracle_cands(of_corpus(rows@, c@)),
            None => oracle_cands(rows@),
        },
{
    let ghost p = |r: OracleRow| match corpus {
        Some(c) => r.corpus@ == c@,
        None => true,
    };
    let mut out: Vec<Vec<Candidate>> = Vec::new();
    let mut i: usize = 0;
    while i < rows.len()
        invariant
            p == (|r: OracleRow| match corpus {
                Some(c) => r.corpus@ == c@,
                None => true,
            }),
            i <= rows@.len(),
            rows_view(out@) == oracle_cands(rows@.take(i as int).filter(p)),
        decreases rows.len() - i,
    {
        let ghost before = rows_view(out@);
        proof {
            assert(rows@.take(i + 1) =~= rows@.take(i as int).push(rows@[i as int]));
            rows@.take(i as int).lemma_filter_push(rows@[i as int], p);
        }
        let keep = match corpus {
            Some(c) => same(&chars_of(rows[i].corpus.as_str()), c),
            None => true,
        };
        if keep {
            out.push(rows[i].candidates.clone());
            assert(rows_view(out@) =~= before.push(rows@[i as int].candidates@));
            assert(oracle_cands(rows@.take(i + 1).filter(p)) =~= oracle_cands(rows@.take(i as int).filter(p)).push(
                rows@[i as int].candidates@,
            ));
        }
        i += 1;
    }
    proof {
        assert(rows@.take(rows@.len() as int) =~= rows@);
        match corpus {
            Some(c) => {
                assert(p == in_corpus(c@));
            },
            None => {
                lemma_filter_all(rows@, p);
            },
        }
    }
    out
}

/// Keeping every element keeps the sequence.
proof fn lemma_filter_all(s: Seq<OracleRow>, p: spec_fn(OracleRow) -> bool)
    requires
        forall|r: OracleRow| #[trigger] p(r),
    ensures
        s.filter(p) == s,
    decreases s.len(),
{
    if s.len() > 0 {
        lemma_filter_all(s.drop_last(), p);
        assert(s =~= s.drop_last().push(s.last()));
        s.drop_last().lemma_filter_push(s.last(), p);
    }
}

/// The frozen sample's rows and summary against themselves: a hundred
/// queries at least in strictly ascending rank order, `all` the metric
/// block of every row, and each corpus's block that of its own rows,
/// none empty.
#[verifier::loop_isolation(false)]
pub fn summary_ok(rows: &Vec<OracleRow>, all: &Metrics, corpora: &Vec<(String, Metrics)>) -> (r: Result<
    (),
    SummaryFault,
>)
    requires
        crate::eval_similar_precision_parts::all_candidates(oracle_cands(rows@)).len() <= usize::MAX,
    ensures
        r is Ok <==> ranked_sample(rows@) && metrics_spec(*all, oracle_cands(rows@)) && forall|i: int|
            0 <= i < corpora@.len() ==> of_corpus(rows@, (#[trigger] corpora@[i]).0@).len() > 0 && metrics_spec(
                corpora@[i].1,
                oracle_cands(of_corpus(rows@, corpora@[i].0@)),
            ),
        r matches Err(SummaryFault::Few) <==> rows@.len() < 100,
        r matches Err(SummaryFault::Unsorted) ==> !ranked_sample(rows@),
        r matches Err(SummaryFault::Summary) ==> ranked_sample(rows@) && !metrics_spec(*all, oracle_cands(rows@)),
        r matches Err(SummaryFault::NoRow { corpus }) ==> exists|i: int|
            0 <= i < corpora@.len() && (#[trigger] corpora@[i]).0@ == corpus@ && of_corpus(rows@, corpus@).len()
                == 0,
        r matches Err(SummaryFault::CorpusSummary { corpus }) ==> exists|i: int|
            0 <= i < corpora@.len() && (#[trigger] corpora@[i]).0@ == corpus@ && !metrics_spec(
                corpora@[i].1,
                oracle_cands(of_corpus(rows@, corpus@)),
            ),
{
    if rows.len() < 100 {
        return Err(SummaryFault::Few);
    }
    let mut i: usize = 1;
    while i < rows.len()
        invariant
            1 <= i <= rows@.len(),
            forall|j: int| 0 < j < i ==> lex_lt((#[trigger] rows@[j - 1]).rank@, rows@[j].rank@),
        decreases rows.len() - i,
    {
        let a = &rows[i - 1].rank;
        let b = &rows[i].rank;
        if !(str_le(a.as_str(), b.as_str()) && !same(&chars_of(a.as_str()), &chars_of(b.as_str()))) {
            assert(!lex_lt(rows@[i - 1].rank@, rows@[i as int].rank@));
            return Err(SummaryFault::Unsorted);
        }
        i += 1;
    }
    let everything = candidates_of(rows, None);
    let m = metrics(&everything);
    if !same_metrics(&m, all) {
        return Err(SummaryFault::Summary);
    }
    let mut k: usize = 0;
    while k < corpora.len()
        invariant
            k <= corpora@.len(),
            crate::eval_similar_precision_parts::all_candidates(oracle_cands(rows@)).len() <= usize::MAX,
            forall|q: int|
                0 <= q < k ==> of_corpus(rows@, (#[trigger] corpora@[q]).0@).len() > 0 && metrics_spec(
                    corpora@[q].1,
                    oracle_cands(of_corpus(rows@, corpora@[q].0@)),
                ),
        decreases corpora.len() - k,
    {
        let name = chars_of(corpora[k].0.as_str());
        let sub = candidates_of(rows, Some(name.as_slice()));
        assert(corpora@[k as int].0@ == name@);
        if sub.len() == 0 {
            assert(oracle_cands(of_corpus(rows@, name@)).len() == 0);
            return Err(SummaryFault::NoRow { corpus: string_of(&name) });
        }
        proof {
            lemma_sub_candidates(rows@, name@);
        }
        let sm = metrics(&sub);
        if !same_metrics(&sm, &corpora[k].1) {
            return Err(SummaryFault::CorpusSummary { corpus: string_of(&name) });
        }
        k += 1;
    }
    Ok(())
}

/// The candidates of one corpus's rows are no more than all of them.
proof fn lemma_sub_candidates(rows: Seq<OracleRow>, c: Chars)
    ensures
        crate::eval_similar_precision_parts::all_candidates(oracle_cands(of_corpus(rows, c))).len()
            <= crate::eval_similar_precision_parts::all_candidates(oracle_cands(rows)).len(),
    decreases rows.len(),
{
    let p = in_corpus(c);
    if rows.len() > 0 {
        let init = rows.drop_last();
        lemma_sub_candidates(init, c);
        assert(rows =~= init.push(rows.last()));
        init.lemma_filter_push(rows.last(), p);
        assert(oracle_cands(rows) =~= oracle_cands(init).push(rows.last().candidates@));
        assert(oracle_cands(rows).drop_last() =~= oracle_cands(init));
        if p(rows.last()) {
            let f = oracle_cands(of_corpus(rows, c));
            assert(f =~= oracle_cands(of_corpus(init, c)).push(rows.last().candidates@));
            assert(f.drop_last() =~= oracle_cands(of_corpus(init, c)));
            assert(f.last() == rows.last().candidates@);
        } else {
            assert(of_corpus(rows, c) == of_corpus(init, c));
        }
    } else {
        assert(of_corpus(rows, c) =~= Seq::<OracleRow>::empty());
    }
}

/// `n/d` at or above `floor` per cent.
pub open spec fn holds_floor(n: int, d: int, floor: int) -> bool {
    n * 100 >= floor * d
}

/// Which published number falls below its generation's floor, with
/// the fraction it published.
#[derive(Debug)]
pub enum FloorFault {
    /// Role-bit-1 p@1 of the bare arm.
    Role1 { n: u64, d: u64 },
    /// hit@5 of the bare arm.
    Hit5 { n: u64, d: u64 },
    /// The role bit's precision over every arbitrated candidate.
    RoleBit { n: u64, d: u64 },
}

fn at_floor(n: u64, d: u64, floor: u64) -> (b: bool)
    requires
        n * 100 <= u64::MAX,
        floor * d <= u64::MAX,
    ensures
        b == holds_floor(n as int, d as int, floor as int),
{
    n * 100 >= floor * d
}

/// A generation's three published numbers — role-bit-1 p@1, hit@5 and
/// the role bit's precision over every arbitrated candidate — each at
/// or above its floor (a percentage, allowed only to rise).
pub fn floors_ok(all: &Metrics, floor: u64) -> (r: Result<(), FloorFault>)
    requires
        all.bare.p_at_1_role1.0 * 100 <= u64::MAX,
        floor * all.bare.p_at_1_role1.1 <= u64::MAX,
        all.bare.hit_at_5.0 * 100 <= u64::MAX,
        floor * all.bare.hit_at_5.1 <= u64::MAX,
        all.tp * 100 <= u64::MAX,
        all.tp + all.fp <= u64::MAX,
        floor * (all.tp + all.fp) <= u64::MAX,
    ensures
        r is Ok <==> holds_floor(all.bare.p_at_1_role1.0 as int, all.bare.p_at_1_role1.1 as int, floor as int)
            && holds_floor(all.bare.hit_at_5.0 as int, all.bare.hit_at_5.1 as int, floor as int) && holds_floor(
            all.tp as int,
            all.tp + all.fp,
            floor as int,
        ),
        r matches Err(FloorFault::Role1 { n, d }) ==> n == all.bare.p_at_1_role1.0 && d == all.bare.p_at_1_role1.1
            && !holds_floor(n as int, d as int, floor as int),
        r matches Err(FloorFault::Hit5 { n, d }) ==> n == all.bare.hit_at_5.0 && d == all.bare.hit_at_5.1
            && !holds_floor(n as int, d as int, floor as int),
        r matches Err(FloorFault::RoleBit { n, d }) ==> n == all.tp && d == all.tp + all.fp && !holds_floor(
            n as int,
            d as int,
            floor as int,
        ),
{
    let (n, d) = (all.bare.p_at_1_role1.0 as u64, all.bare.p_at_1_role1.1 as u64);
    if !at_floor(n, d, floor) {
        return Err(FloorFault::Role1 { n, d });
    }
    let (n, d) = (all.bare.hit_at_5.0 as u64, all.bare.hit_at_5.1 as u64);
    if !at_floor(n, d, floor) {
        return Err(FloorFault::Hit5 { n, d });
    }
    let tp = all.tp as u64;
    let d = tp + all.fp as u64;
    if !at_floor(tp, d, floor) {
        return Err(FloorFault::RoleBit { n: tp, d });
    }
    Ok(())
}

} // verus!
