//! The metric arithmetic of the similar-role oracle: p@1 per arm over
//! all answered queries and over the role-bit-1 / role-bit-0 /
//! non-clone top-1s, hit@5 per arm, and the role bit's confusion over
//! every arbitrated candidate. A frozen summary must equal this over
//! its rows.

use vstd::prelude::*;

verus! {

/// One arbitrated candidate of a query.
#[derive(Clone, Copy, Debug, PartialEq, Eq, Structural)]
pub struct Candidate {
    /// The arbiter's truth is `same_role`.
    pub same_role: bool,
    /// The role bit, where the row carries one.
    pub role: Option<bool>,
    /// The clone flag, where the row carries one.
    pub clone: Option<bool>,
    /// The rank the bare arm gave it, none where it did not rank it.
    pub bare: Option<u64>,
    /// The rank the widened arm gave it, none where it did not rank it.
    pub widened: Option<u64>,
}

/// The two retrieval arms.
#[derive(Clone, Copy, Debug, PartialEq, Eq, Structural)]
pub enum Arm {
    Bare,
    Widened,
}

pub open spec fn rank_of(c: Candidate, arm: Arm) -> Option<u64> {
    match arm {
        Arm::Bare => c.bare,
        Arm::Widened => c.widened,
    }
}

/// A hit over a population: (hits, population).
pub type Frac = (usize, usize);

/// One arm's block.
#[derive(Clone, Copy, Debug)]
pub struct ArmMetrics {
    /// p@1 over all answered queries.
    pub p_at_1: Frac,
    /// p@1 over the non-clone top-1s.
    pub p_at_1_nonclone: Frac,
    /// p@1 over the role-bit-1 top-1s.
    pub p_at_1_role1: Frac,
    /// p@1 over the role-bit-0 top-1s.
    pub p_at_1_role0: Frac,
    /// Queries with a same-role candidate the arm ranked at all.
    pub hit_at_5: Frac,
}

/// The metric block of one generation.
#[derive(Clone, Copy, Debug)]
pub struct Metrics {
    pub queries: usize,
    pub candidates: usize,
    pub bare: ArmMetrics,
    pub widened: ArmMetrics,
    /// The role bit's confusion over every candidate: bit 1, same role.
    pub tp: usize,
    /// Bit 1, another role.
    pub fp: usize,
    /// Bit 0, same role.
    pub fn_: usize,
    /// Bit 0, another role.
    pub tn: usize,
}

/// The candidate at an arm's rank 1, if the arm answered.
pub open spec fn top1(cs: Seq<Candidate>, arm: Arm) -> Option<Candidate>
    decreases cs.len(),
{
    if cs.len() == 0 {
        None
    } else if rank_of(cs[0], arm) == Some(1u64) {
        Some(cs[0])
    } else {
        top1(cs.drop_first(), arm)
    }
}

/// Each query's top-1 under an arm, for the queries it answered.
pub open spec fn answered(rows: Seq<Seq<Candidate>>, arm: Arm) -> Seq<Candidate>
    decreases rows.len(),
{
    if rows.len() == 0 {
        Seq::empty()
    } else {
        answered(rows.drop_last(), arm) + match top1(rows.last(), arm) {
            Some(c) => seq![c],
            None => Seq::empty(),
        }
    }
}

/// How many of `s` satisfy `p`.
pub open spec fn count(s: Seq<Candidate>, p: spec_fn(Candidate) -> bool) -> nat
    decreases s.len(),
{
    if s.len() == 0 {
        0
    } else {
        count(s.drop_last(), p) + if p(s.last()) {
            1nat
        } else {
            0nat
        }
    }
}

/// Every candidate of every query, in order.
pub open spec fn all_candidates(rows: Seq<Seq<Candidate>>) -> Seq<Candidate>
    decreases rows.len(),
{
    if rows.len() == 0 {
        Seq::empty()
    } else {
        all_candidates(rows.drop_last()) + rows.last()
    }
}

pub open spec fn same_f() -> spec_fn(Candidate) -> bool {
    |c: Candidate| c.same_role
}

pub open spec fn role_is(b: bool) -> spec_fn(Candidate) -> bool {
    |c: Candidate| c.role == Some(b)
}

pub open spec fn role_same(b: bool, same: bool) -> spec_fn(Candidate) -> bool {
    |c: Candidate| c.role == Some(b) && c.same_role == same
}

pub open spec fn clone_is(b: bool) -> spec_fn(Candidate) -> bool {
    |c: Candidate| c.clone == Some(b)
}

pub open spec fn clone_same(b: bool) -> spec_fn(Candidate) -> bool {
    |c: Candidate| c.clone == Some(b) && c.same_role
}

pub open spec fn role_hit(b: bool) -> spec_fn(Candidate) -> bool {
    |c: Candidate| c.role == Some(b) && c.same_role
}

/// A query some same-role candidate of which the arm ranked.
pub open spec fn hit_in(cs: Seq<Candidate>, arm: Arm) -> bool {
    exists|k: int| 0 <= k < cs.len() && rank_of(cs[k], arm) is Some && (#[trigger] cs[k]).same_role
}

pub open spec fn hit_rows(rows: Seq<Seq<Candidate>>, arm: Arm) -> nat
    decreases rows.len(),
{
    if rows.len() == 0 {
        0
    } else {
        hit_rows(rows.drop_last(), arm) + if hit_in(rows.last(), arm) {
            1nat
        } else {
            0nat
        }
    }
}

/// One arm's block over `rows`.
pub open spec fn arm_spec(m: ArmMetrics, rows: Seq<Seq<Candidate>>, arm: Arm) -> bool {
    let a = answered(rows, arm);
    &&& m.p_at_1 == (count(a, same_f()) as usize, a.len() as usize)
    &&& m.p_at_1_nonclone == (count(a, clone_same(false)) as usize, count(a, clone_is(false)) as usize)
    &&& m.p_at_1_role1 == (count(a, role_hit(true)) as usize, count(a, role_is(true)) as usize)
    &&& m.p_at_1_role0 == (count(a, role_hit(false)) as usize, count(a, role_is(false)) as usize)
    &&& m.hit_at_5 == (hit_rows(rows, arm) as usize, rows.len() as usize)
}

/// The metric block over `rows`.
pub open spec fn metrics_spec(m: Metrics, rows: Seq<Seq<Candidate>>) -> bool {
    let all = all_candidates(rows);
    &&& m.queries == rows.len()
    &&& m.candidates == all.len()
    &&& arm_spec(m.bare, rows, Arm::Bare)
    &&& arm_spec(m.widened, rows, Arm::Widened)
    &&& m.tp == count(all, role_same(true, true))
    &&& m.fp == count(all, role_same(true, false))
    &&& m.fn_ == count(all, role_same(false, true))
    &&& m.tn == count(all, role_same(false, false))
}

pub open spec fn rows_view(rows: Seq<Vec<Candidate>>) -> Seq<Seq<Candidate>> {
    rows.map_values(|r: Vec<Candidate>| r@)
}

pub proof fn lemma_count_le(s: Seq<Candidate>, p: spec_fn(Candidate) -> bool)
    ensures
        count(s, p) <= s.len(),
    decreases s.len(),
{
    if s.len() > 0 {
        lemma_count_le(s.drop_last(), p);
    }
}

proof fn lemma_answered_le(rows: Seq<Seq<Candidate>>, arm: Arm)
    ensures
        answered(rows, arm).len() <= rows.len(),
    decreases rows.len(),
{
    if rows.len() > 0 {
        lemma_answered_le(rows.drop_last(), arm);
    }
}

proof fn lemma_hit_rows_le(rows: Seq<Seq<Candidate>>, arm: Arm)
    ensures
        hit_rows(rows, arm) <= rows.len(),
    decreases rows.len(),
{
    if rows.len() > 0 {
        lemma_hit_rows_le(rows.drop_last(), arm);
    }
}

fn rank(c: &Candidate, arm: Arm) -> (r: Option<u64>)
    ensures
        r == rank_of(*c, arm),
{
    match arm {
        Arm::Bare => c.bare,
        Arm::Widened => c.widened,
    }
}

fn top1_of(cs: &Vec<Candidate>, arm: Arm) -> (r: Option<Candidate>)
    ensures
        r == top1(cs@, arm),
{
    let mut k: usize = 0;
    assert(cs@.skip(0) =~= cs@);
    while k < cs.len()
        invariant
            k <= cs@.len(),
            top1(cs@, arm) == top1(cs@.skip(k as int), arm),
        decreases cs.len() - k,
    {
        assert(cs@.skip(k as int).drop_first() =~= cs@.skip(k + 1));
        assert(cs@.skip(k as int)[0] == cs@[k as int]);
        if rank(&cs[k], arm) == Some(1u64) {
            return Some(cs[k]);
        }
        k += 1;
    }
    None
}

fn hit_of(cs: &Vec<Candidate>, arm: Arm) -> (b: bool)
    ensures
        b == hit_in(cs@, arm),
{
    let mut k: usize = 0;
    while k < cs.len()
        invariant
            k <= cs@.len(),
            forall|j: int| 0 <= j < k ==> !(rank_of(#[trigger] cs@[j], arm) is Some && cs@[j].same_role),
        decreases cs.len() - k,
    {
        if rank(&cs[k], arm).is_some() && cs[k].same_role {
            assert(rank_of(cs@[k as int], arm) is Some && cs@[k as int].same_role);
            return true;
        }
        k += 1;
    }
    false
}

/// One arm's block: p@1 over all answered queries and over the
/// role-bit-1, role-bit-0 and non-clone top-1s; hit@5.
pub fn arm_metrics(rows: &Vec<Vec<Candidate>>, arm: Arm) -> (m: ArmMetrics)
    ensures
        arm_spec(m, rows_view(rows@), arm),
{
    let ghost rv = rows_view(rows@);
    let mut same: usize = 0;
    let mut top: usize = 0;
    let mut nonclone: (usize, usize) = (0, 0);
    let mut role1: (usize, usize) = (0, 0);
    let mut role0: (usize, usize) = (0, 0);
    let mut hits: usize = 0;
    let mut i: usize = 0;
    while i < rows.len()
        invariant
            rv == rows_view(rows@),
            i <= rows@.len(),
            ({
                let a = answered(rv.take(i as int), arm);
                &&& same == count(a, same_f())
                &&& top == a.len()
                &&& nonclone == (count(a, clone_same(false)) as usize, count(a, clone_is(false)) as usize)
                &&& role1 == (count(a, role_hit(true)) as usize, count(a, role_is(true)) as usize)
                &&& role0 == (count(a, role_hit(false)) as usize, count(a, role_is(false)) as usize)
                &&& a.len() <= i
            }),
            hits == hit_rows(rv.take(i as int), arm),
            hits <= i,
        decreases rows.len() - i,
    {
        let ghost a = answered(rv.take(i as int), arm);
        proof {
            assert(rv.take(i + 1).drop_last() =~= rv.take(i as int));
            assert(rv.take(i + 1).last() == rows@[i as int]@);
            lemma_count_le(a, same_f());
            lemma_count_le(a, clone_same(false));
            lemma_count_le(a, clone_is(false));
            lemma_count_le(a, role_hit(true));
            lemma_count_le(a, role_is(true));
            lemma_count_le(a, role_hit(false));
            lemma_count_le(a, role_is(false));
        }
        match top1_of(&rows[i], arm) {
            Some(c) => {
                proof {
                    let b = a + seq![c];
                    assert(b.drop_last() =~= a);
                }
                top += 1;
                if c.same_role {
                    same += 1;
                }
                if c.clone == Some(false) {
                    nonclone.1 = nonclone.1 + 1;
                    if c.same_role {
                        nonclone.0 = nonclone.0 + 1;
                    }
                }
                if c.role == Some(true) {
                    role1.1 = role1.1 + 1;
                    if c.same_role {
                        role1.0 = role1.0 + 1;
                    }
                }
                if c.role == Some(false) {
                    role0.1 = role0.1 + 1;
                    if c.same_role {
                        role0.0 = role0.0 + 1;
                    }
                }
            },
            None => {
                assert(a + Seq::<Candidate>::empty() =~= a);
            },
        }
        if hit_of(&rows[i], arm) {
            hits += 1;
        }
        i += 1;
    }
    assert(rv.take(rows@.len() as int) =~= rv);
    ArmMetrics {
        p_at_1: (same, top),
        p_at_1_nonclone: nonclone,
        p_at_1_role1: role1,
        p_at_1_role0: role0,
        hit_at_5: (hits, rows.len()),
    }
}

/// The metric block over the rows of one generation: the query and
/// candidate counts, both arms' blocks, and the role bit's confusion
/// over every candidate.
pub fn metrics(rows: &Vec<Vec<Candidate>>) -> (m: Metrics)
    requires
        all_candidates(rows_view(rows@)).len() <= usize::MAX,
    ensures
        metrics_spec(m, rows_view(rows@)),
{
    let ghost rv = rows_view(rows@);
    let mut n: usize = 0;
    let mut cells: (usize, usize, usize, usize) = (0, 0, 0, 0);
    let mut i: usize = 0;
    while i < rows.len()
        invariant
            rv == rows_view(rows@),
            all_candidates(rv).len() <= usize::MAX,
            i <= rows@.len(),
            n == all_candidates(rv.take(i as int)).len(),
            cells.0 == count(all_candidates(rv.take(i as int)), role_same(true, true)),
            cells.1 == count(all_candidates(rv.take(i as int)), role_same(true, false)),
            cells.2 == count(all_candidates(rv.take(i as int)), role_same(false, true)),
            cells.3 == count(all_candidates(rv.take(i as int)), role_same(false, false)),
        decreases rows.len() - i,
    {
        let ghost before = all_candidates(rv.take(i as int));
        proof {
            assert(rv.take(i + 1).drop_last() =~= rv.take(i as int));
            assert(rv.take(i + 1).last() == rows@[i as int]@);
            lemma_all_prefix(rv, i + 1);
        }
        let cs = &rows[i];
        let mut k: usize = 0;
        while k < cs.len()
            invariant
                k <= cs@.len(),
                before + cs@ == all_candidates(rv.take(i + 1)),
                all_candidates(rv.take(i + 1)).len() <= usize::MAX,
                n == (before + cs@.take(k as int)).len(),
                cells.0 == count(before + cs@.take(k as int), role_same(true, true)),
                cells.1 == count(before + cs@.take(k as int), role_same(true, false)),
                cells.2 == count(before + cs@.take(k as int), role_same(false, true)),
                cells.3 == count(before + cs@.take(k as int), role_same(false, false)),
            decreases cs.len() - k,
        {
            let c = cs[k];
            let ghost s = before + cs@.take(k as int);
            proof {
                assert((before + cs@.take(k + 1)).drop_last() =~= s);
                assert((before + cs@.take(k + 1)).last() == c);
                lemma_count_le(s, role_same(true, true));
                lemma_count_le(s, role_same(true, false));
                lemma_count_le(s, role_same(false, true));
                lemma_count_le(s, role_same(false, false));
                assert(s.len() < (before + cs@).len());
            }
            n += 1;
            match c.role {
                Some(true) => {
                    if c.same_role {
                        cells.0 = cells.0 + 1;
                    } else {
                        cells.1 = cells.1 + 1;
                    }
                },
                Some(false) => {
                    if c.same_role {
                        cells.2 = cells.2 + 1;
                    } else {
                        cells.3 = cells.3 + 1;
                    }
                },
                None => {},
            }
            k += 1;
        }
        assert(cs@.take(cs@.len() as int) =~= cs@);
        i += 1;
    }
    assert(rv.take(rows@.len() as int) =~= rv);
    let bare = arm_metrics(rows, Arm::Bare);
    let widened = arm_metrics(rows, Arm::Widened);
    Metrics {
        queries: rows.len(),
        candidates: n,
        bare,
        widened,
        tp: cells.0,
        fp: cells.1,
        fn_: cells.2,
        tn: cells.3,
    }
}

/// The candidates of the first `n` queries are never more than all.
proof fn lemma_all_prefix(rows: Seq<Seq<Candidate>>, n: int)
    requires
        0 <= n <= rows.len(),
    ensures
        all_candidates(rows.take(n)).len() <= all_candidates(rows).len(),
    decreases rows.len() - n,
{
    if n < rows.len() {
        lemma_all_prefix(rows, n + 1);
        assert(rows.take(n + 1).drop_last() =~= rows.take(n));
    } else {
        assert(rows.take(n) =~= rows);
    }
}

pub open spec fn role_known() -> spec_fn(Candidate) -> bool {
    |c: Candidate| c.role is Some
}

proof fn lemma_role_split(s: Seq<Candidate>)
    ensures
        count(s, role_same(true, true)) + count(s, role_same(true, false)) == count(s, role_is(true)),
        count(s, role_same(false, true)) + count(s, role_same(false, false)) == count(s, role_is(false)),
        count(s, role_is(true)) + count(s, role_is(false)) == count(s, role_known()),
        count(s, role_hit(true)) == count(s, role_same(true, true)),
        count(s, role_hit(false)) == count(s, role_same(false, true)),
        count(s, clone_same(false)) <= count(s, clone_is(false)),
        count(s, role_known()) <= s.len(),
    decreases s.len(),
{
    if s.len() > 0 {
        lemma_role_split(s.drop_last());
        let c = s.last();
        if let Some(b) = c.role {
            if b {
                assert(role_is(true)(c));
            } else {
                assert(role_is(false)(c));
            }
        }
    }
}

/// The metric block partitions what it counts: the role bit's four
/// cells are the candidates that carry a role bit, the role-bit-1 and
/// role-bit-0 top-1s are among an arm's answered queries, each hit is
/// within its population, and no arm answers more queries than there
/// are.
pub proof fn lemma_metrics_partition(m: Metrics, rows: Seq<Seq<Candidate>>)
    requires
        metrics_spec(m, rows),
        all_candidates(rows).len() <= usize::MAX,
    ensures
        m.tp + m.fp + m.fn_ + m.tn == count(all_candidates(rows), role_known()),
        m.tp + m.fp + m.fn_ + m.tn <= m.candidates,
        m.bare.p_at_1_role1.1 + m.bare.p_at_1_role0.1 <= m.bare.p_at_1.1 <= m.queries,
        m.widened.p_at_1_role1.1 + m.widened.p_at_1_role0.1 <= m.widened.p_at_1.1 <= m.queries,
        m.bare.p_at_1_nonclone.1 <= m.bare.p_at_1.1,
        m.widened.p_at_1_nonclone.1 <= m.widened.p_at_1.1,
        m.bare.p_at_1.0 <= m.bare.p_at_1.1 && m.widened.p_at_1.0 <= m.widened.p_at_1.1,
        m.bare.p_at_1_nonclone.0 <= m.bare.p_at_1_nonclone.1,
        m.widened.p_at_1_nonclone.0 <= m.widened.p_at_1_nonclone.1,
        m.bare.p_at_1_role1.0 <= m.bare.p_at_1_role1.1,
        m.bare.p_at_1_role0.0 <= m.bare.p_at_1_role0.1,
        m.widened.p_at_1_role1.0 <= m.widened.p_at_1_role1.1,
        m.widened.p_at_1_role0.0 <= m.widened.p_at_1_role0.1,
        m.bare.hit_at_5.0 <= m.bare.hit_at_5.1 == m.queries,
        m.widened.hit_at_5.0 <= m.widened.hit_at_5.1 == m.queries,
{
    let all = all_candidates(rows);
    lemma_role_split(all);
    lemma_hit_rows_le(rows, Arm::Bare);
    lemma_hit_rows_le(rows, Arm::Widened);
    lemma_arm_partition(rows, Arm::Bare);
    lemma_arm_partition(rows, Arm::Widened);
}

proof fn lemma_arm_partition(rows: Seq<Seq<Candidate>>, arm: Arm)
    ensures
        ({
            let a = answered(rows, arm);
            &&& count(a, role_is(true)) + count(a, role_is(false)) <= a.len()
            &&& count(a, clone_is(false)) <= a.len()
            &&& count(a, same_f()) <= a.len()
            &&& count(a, clone_same(false)) <= count(a, clone_is(false))
            &&& count(a, role_hit(true)) <= count(a, role_is(true))
            &&& count(a, role_hit(false)) <= count(a, role_is(false))
            &&& a.len() <= rows.len()
        }),
{
    let a = answered(rows, arm);
    lemma_role_split(a);
    lemma_count_le(a, clone_is(false));
    lemma_count_le(a, same_f());
    lemma_answered_le(rows, arm);
}

} // verus!
