//! The per-language hash-ranked draw of the language exams: the kind
//! quotas the frozen draw allocates before any site is picked.

use super::{BACKUP_PER_KIND, MIN_PER_KIND, TOTAL};
use crate::eval_support::auditgen::{
    apportion, apportion_f, counts, largest_remainder, weight_keys, lemma_apportion_le_weight,
    lemma_apportion_sum, lemma_prefix_le, lemma_share_nonneg, lemma_sum_add, lemma_sum_ext,
    lemma_sum_le, lemma_sum_nonneg, sum_to, total, weights_f,
};
use super::verify::{
    audit_sorted, audit_step, backup_sorted, backup_step, backups_ok, backups_owed, kind_count, lex_lt,
    per_kind_ok, pool_kinds, ranked_below, Drawn,
};
use crate::text::{canon, canonical, chars_of, lemma_lex_refl, views, lemma_lex_total, lemma_lex_trans, lex_le, str_le, Chars};
use vstd::multiset::Multiset;
use vstd::prelude::*;

verus! {

/// A kind's floor: its whole pool, up to the per-kind minimum.
pub open spec fn floor_of(pool: Seq<u64>, i: int) -> u64 {
    if pool[i] < MIN_PER_KIND {
        pool[i]
    } else {
        MIN_PER_KIND
    }
}

/// What each kind has left once its floor is taken.
pub open spec fn rests(pool: Seq<u64>) -> Seq<u64> {
    Seq::new(pool.len(), |i: int| (pool[i] - floor_of(pool, i)) as u64)
}

pub open spec fn floors_f(pool: Seq<u64>) -> spec_fn(int) -> int {
    |i: int| floor_of(pool, i) as int
}

/// All the floors together.
pub open spec fn floor_total(pool: Seq<u64>) -> int {
    sum_to(pool.len() as int, floors_f(pool))
}

/// The seats left to the largest remainders: TOTAL less the floors,
/// never below zero, never more than the kinds have left.
pub open spec fn seats_left(pool: Seq<u64>) -> int {
    let left = if floor_total(pool) >= TOTAL {
        0
    } else {
        TOTAL - floor_total(pool)
    };
    if left <= total(rests(pool)) {
        left
    } else {
        total(rests(pool))
    }
}

/// Kind `i`'s quota.
pub open spec fn quota(pool: Seq<u64>, i: int) -> int {
    floor_of(pool, i) + apportion(rests(pool), seats_left(pool), i)
}

/// The quota arithmetic stays inside `u64`.
pub open spec fn quota_fits(pool: Seq<u64>) -> bool {
    &&& total(pool) <= u64::MAX
    &&& forall|i: int|
        0 <= i < pool.len() ==> seats_left(pool) * #[trigger] rests(pool)[i] <= u64::MAX
}

/// Kind quotas from the pool's per-kind counts (entries in kind
/// order): each kind first takes min(MIN_PER_KIND, pool), the seats
/// left go by largest remainder over what each kind has left, so no
/// quota exceeds its pool.
pub fn quotas(pool: &Vec<(String, u64)>) -> (out: Vec<(String, u64)>)
    requires
        canonical(weight_keys(pool@)),
        quota_fits(counts(pool@)),
    ensures
        out@.len() == pool@.len(),
        forall|i: int|
            0 <= i < out@.len() ==> (#[trigger] out@[i]).0 == pool@[i].0 && out@[i].1 as int
                == quota(counts(pool@), i),
{
    let ghost ps = counts(pool@);
    let n = pool.len();
    let mut floor: Vec<u64> = Vec::new();
    let mut rest: Vec<(String, u64)> = Vec::new();
    let mut f: u64 = 0;
    let mut r: u64 = 0;
    let mut i: usize = 0;
    proof {
        assert forall|j: int| 0 <= j < n implies #[trigger] weights_f(ps)(j) >= 0 by {}
        assert forall|j: int| 0 <= j < n implies #[trigger] floors_f(ps)(j) <= weights_f(ps)(j)
            by {}
        assert forall|j: int| 0 <= j < n implies #[trigger] floors_f(ps)(j) >= 0 by {}
        assert forall|j: int| 0 <= j < n implies #[trigger] weights_f(rests(ps))(j) <= weights_f(
            ps,
        )(j) by {}
        assert forall|j: int| 0 <= j < n implies #[trigger] weights_f(rests(ps))(j) >= 0 by {}
        lemma_sum_le(n as int, floors_f(ps), weights_f(ps));
        lemma_sum_le(n as int, weights_f(rests(ps)), weights_f(ps));
    }
    while i < n
        invariant
            n == pool@.len(),
            ps == counts(pool@),
            quota_fits(ps),
            forall|j: int| 0 <= j < n ==> #[trigger] floors_f(ps)(j) >= 0,
            forall|j: int| 0 <= j < n ==> #[trigger] weights_f(rests(ps))(j) >= 0,
            floor_total(ps) <= u64::MAX,
            total(rests(ps)) <= u64::MAX,
            i <= n,
            floor@.len() == i,
            rest@.len() == i,
            forall|j: int| 0 <= j < i ==> floor@[j] == floor_of(ps, j),
            forall|j: int|
                0 <= j < i ==> (#[trigger] rest@[j]).0 == pool@[j].0 && rest@[j].1 == rests(ps)[j],
            f as int == sum_to(i as int, floors_f(ps)),
            r as int == sum_to(i as int, weights_f(rests(ps))),
        decreases n - i,
    {
        assert(pool@[i as int].1 == ps[i as int]);
        let c = pool[i].1;
        let fl = if c < MIN_PER_KIND {
            c
        } else {
            MIN_PER_KIND
        };
        proof {
            lemma_prefix_le(n as int, i as int + 1, floors_f(ps));
            lemma_prefix_le(n as int, i as int + 1, weights_f(rests(ps)));
        }
        floor.push(fl);
        rest.push((pool[i].0.clone(), c - fl));
        f = f + fl;
        r = r + (c - fl);
        i += 1;
    }
    assert forall|j: int| 0 <= j < n implies #[trigger] counts(rest@)[j] == rests(ps)[j] by {
        assert(rest@[j].0 == pool@[j].0);
    }
    assert(counts(rest@) =~= rests(ps));
    assert(weight_keys(rest@) =~= weight_keys(pool@));
    let left: u64 = if f >= TOTAL {
        0
    } else {
        TOTAL - f
    };
    let seats: u64 = if left <= r {
        left
    } else {
        r
    };
    assert(seats as int == seats_left(ps));
    let extra = largest_remainder(&rest, seats);
    assert forall|j: int| 0 <= j < n implies extra_ok(extra@, rest@, ps, seats, j) by {
        assert(extra@[j].0 == rest@[j].0);
    }
    let mut out: Vec<(String, u64)> = Vec::new();
    let mut i: usize = 0;
    while i < n
        invariant
            n == pool@.len(),
            ps == counts(pool@),
            floor@.len() == n,
            rest@.len() == n,
            extra@.len() == n,
            forall|j: int| 0 <= j < n ==> floor@[j] == floor_of(ps, j),
            forall|j: int|
                0 <= j < n ==> (#[trigger] rest@[j]).0 == pool@[j].0 && rest@[j].1 == rests(ps)[j],
            counts(rest@) == rests(ps),
            seats as int == seats_left(ps),
            forall|j: int| 0 <= j < n ==> #[trigger] extra_ok(extra@, rest@, ps, seats, j),
            i <= n,
            out@.len() == i,
            forall|j: int|
                0 <= j < i ==> (#[trigger] out@[j]).0 == pool@[j].0 && out@[j].1 as int == quota(
                    ps,
                    j,
                ),
        decreases n - i,
    {
        proof {
            lemma_quota_le_pool(ps, i as int);
            assert(extra_ok(extra@, rest@, ps, seats, i as int));
            assert(floor@[i as int] == floor_of(ps, i as int));
            assert(rest@[i as int].0 == pool@[i as int].0);
        }
        let q = floor[i] + extra[i].1;
        let ghost before_push = out@;
        out.push((pool[i].0.clone(), q));
        assert(forall|j: int| 0 <= j < i ==> out@[j] == before_push[j]);
        i += 1;
    }
    out
}

/// Entry `j` of the leftover seats answers entry `j` of the rests.
pub open spec fn extra_ok(
    extra: Seq<(String, u64)>,
    rest: Seq<(String, u64)>,
    ps: Seq<u64>,
    seats: u64,
    j: int,
) -> bool {
    extra[j].0 == rest[j].0 && extra[j].1 as int == apportion(rests(ps), seats as int, j)
}

/// No quota exceeds its pool, and every kind keeps its floor.
pub proof fn lemma_quota_le_pool(pool: Seq<u64>, i: int)
    requires
        0 <= i < pool.len(),
    ensures
        floor_of(pool, i) <= quota(pool, i) <= pool[i],
{
    let rs = rests(pool);
    let s = seats_left(pool);
    let n = pool.len() as int;
    assert forall|j: int| 0 <= j < n implies #[trigger] weights_f(rs)(j) >= 0 by {}
    lemma_sum_nonneg(n, weights_f(rs));
    assert(0 <= s <= total(rs));
    lemma_apportion_le_weight(rs, s, i);
    lemma_apportion_nonneg(rs, s, i);
}

/// A key never takes a negative number of seats.
pub proof fn lemma_apportion_nonneg(ws: Seq<u64>, seats: int, i: int)
    requires
        seats >= 0,
        0 <= i < ws.len(),
    ensures
        apportion(ws, seats, i) >= 0,
{
    if total(ws) > 0 {
        lemma_share_nonneg(ws, seats, i);
        assert(apportion(ws, seats, i) >= crate::eval_support::auditgen::share(ws, seats, i));
    } else {
        assert forall|j: int| 0 <= j < ws.len() implies #[trigger] weights_f(ws)(j) >= 0 by {}
        lemma_sum_nonneg(ws.len() as int, weights_f(ws));
        assert(apportion(ws, seats, i) == 0);
    }
}

pub open spec fn quotas_f(pool: Seq<u64>) -> spec_fn(int) -> int {
    |i: int| quota(pool, i)
}

/// The sample is TOTAL primaries, unless the pools hold fewer sites
/// (then it is every site) or the floors alone pass TOTAL (then it is
/// the floors).
pub proof fn lemma_quota_sum(pool: Seq<u64>)
    ensures
        sum_to(pool.len() as int, quotas_f(pool)) == if floor_total(pool) >= TOTAL {
            floor_total(pool)
        } else if total(pool) <= TOTAL {
            total(pool)
        } else {
            TOTAL as int
        },
{
    let n = pool.len() as int;
    let rs = rests(pool);
    let s = seats_left(pool);
    let a = apportion_f(rs, s);
    let fl = floors_f(pool);
    let both = |i: int| fl(i) + a(i);
    assert forall|i: int| 0 <= i < n implies #[trigger] quotas_f(pool)(i) == both(i) by {}
    lemma_sum_ext(n, quotas_f(pool), both);
    lemma_sum_add(n, fl, a);
    let w = weights_f(pool);
    let wr = weights_f(rs);
    let fw = |i: int| fl(i) + wr(i);
    assert forall|i: int| 0 <= i < n implies #[trigger] w(i) == fw(i) by {}
    lemma_sum_ext(n, w, fw);
    lemma_sum_add(n, fl, wr);
    assert forall|j: int| 0 <= j < n implies #[trigger] wr(j) >= 0 by {}
    lemma_sum_nonneg(n, wr);
    assert forall|j: int| 0 <= j < n implies #[trigger] fl(j) >= 0 by {}
    lemma_sum_nonneg(n, fl);
    if total(rs) > 0 {
        lemma_apportion_sum(rs, s);
    } else {
        assert forall|j: int| 0 <= j < n implies #[trigger] a(j) == 0int by {}
        lemma_sum_ext(n, a, |j: int| 0int);
        lemma_zero_sum(n);
    }
}

proof fn lemma_zero_sum(n: int)
    ensures
        sum_to(n, |j: int| 0int) == 0,
    decreases n,
{
    if n > 0 {
        lemma_zero_sum(n - 1);
    }
}


/// A drawn row as values: (kind, rank hash, audit hash).
pub type RowView = (Chars, Chars, Chars);

pub open spec fn row_view(r: Drawn) -> RowView {
    (r.kind@, r.rank@, r.audit@)
}

pub open spec fn rows_view(rs: Seq<Drawn>) -> Seq<RowView> {
    rs.map_values(|r: Drawn| row_view(r))
}

/// The rows, each as often as it occurs, order forgotten.
pub open spec fn rows_ms(rs: Seq<Drawn>) -> Multiset<RowView> {
    rows_view(rs).to_multiset()
}

/// The rows of kind `k`.
pub open spec fn of_kind(m: Multiset<RowView>, k: Chars) -> Multiset<RowView> {
    m.filter(|v: RowView| v.0 == k)
}

/// The hash a row is ordered by: its rank or its audit hash.
pub open spec fn key_of(v: RowView, by_rank: bool) -> Chars {
    if by_rank {
        v.1
    } else {
        v.2
    }
}

pub open spec fn sorted_by(s: Seq<RowView>, by_rank: bool) -> bool {
    forall|i: int, j: int| 0 <= i < j < s.len() ==> lex_le(key_of(#[trigger] s[i], by_rank), key_of(#[trigger] s[j], by_rank))
}

fn copy_row(r: &Drawn) -> (c: Drawn)
    ensures
        row_view(c) == row_view(*r),
{
    Drawn { kind: r.kind.clone(), rank: r.rank.clone(), audit: r.audit.clone() }
}

fn key_le(a: &Drawn, b: &Drawn, by_rank: bool) -> (r: bool)
    ensures
        r == lex_le(key_of(row_view(*a), by_rank), key_of(row_view(*b), by_rank)),
{
    if by_rank {
        str_le(a.rank.as_str(), b.rank.as_str())
    } else {
        str_le(a.audit.as_str(), b.audit.as_str())
    }
}

/// The rows ordered by one hash: the same rows, each as often.
fn sort_rows(v: Vec<Drawn>, by_rank: bool) -> (out: Vec<Drawn>)
    ensures
        sorted_by(rows_view(out@), by_rank),
        rows_ms(out@) == rows_ms(v@),
{
    let ghost start = rows_ms(v@);
    let mut rest = v;
    let mut out: Vec<Drawn> = Vec::new();
    proof {
        broadcast use vstd::seq_lib::group_to_multiset_ensures;
        assert(rows_view(out@) =~= Seq::<RowView>::empty());
        assert(rows_ms(out@) =~= Multiset::<RowView>::empty());
        assert(Multiset::<RowView>::empty().add(rows_ms(rest@)) =~= rows_ms(rest@));
    }
    while rest.len() > 0
        invariant
            sorted_by(rows_view(out@), by_rank),
            forall|i: int, j: int|
                0 <= i < out@.len() && 0 <= j < rest@.len() ==> lex_le(
                    key_of(row_view(#[trigger] out@[i]), by_rank),
                    key_of(row_view(#[trigger] rest@[j]), by_rank),
                ),
            rows_ms(out@).add(rows_ms(rest@)) == start,
        decreases rest.len(),
    {
        let mut m: usize = 0;
        let mut j: usize = 1;
        proof {
            lemma_lex_refl(key_of(row_view(rest@[0]), by_rank));
        }
        while j < rest.len()
            invariant
                0 < rest@.len(),
                m < rest@.len(),
                1 <= j <= rest@.len(),
                forall|k: int|
                    0 <= k < j ==> lex_le(
                        key_of(row_view(rest@[m as int]), by_rank),
                        key_of(row_view(#[trigger] rest@[k]), by_rank),
                    ),
            decreases rest.len() - j,
        {
            if !key_le(&rest[m], &rest[j], by_rank) {
                proof {
                    let km = key_of(row_view(rest@[m as int]), by_rank);
                    let kj = key_of(row_view(rest@[j as int]), by_rank);
                    lemma_lex_total(km, kj);
                    assert forall|k: int| 0 <= k < j + 1 implies lex_le(
                        kj,
                        key_of(row_view(#[trigger] rest@[k]), by_rank),
                    ) by {
                        if k < j {
                            lemma_lex_trans(kj, km, key_of(row_view(rest@[k]), by_rank));
                        } else {
                            lemma_lex_refl(kj);
                        }
                    }
                }
                m = j;
            }
            j += 1;
        }
        let ghost old_out = out@;
        let ghost old_rest = rest@;
        let x = rest.remove(m);
        out.push(x);
        proof {
            broadcast use vstd::seq_lib::group_to_multiset_ensures;
            assert(rows_view(out@) =~= rows_view(old_out).push(row_view(x)));
            assert(rows_view(rest@) =~= rows_view(old_rest).remove(m as int));
            assert(rows_view(old_rest)[m as int] == row_view(x));
            assert(rows_ms(old_rest) =~= rows_ms(rest@).insert(row_view(x)));
            assert(rows_ms(out@) =~= rows_ms(old_out).insert(row_view(x)));
            assert(rows_ms(out@).add(rows_ms(rest@)) =~= rows_ms(old_out).add(rows_ms(old_rest)));
            assert forall|i: int, k: int| 0 <= i < k < rows_view(out@).len() implies lex_le(
                key_of(#[trigger] rows_view(out@)[i], by_rank),
                key_of(#[trigger] rows_view(out@)[k], by_rank),
            ) by {
                if k == rows_view(out@).len() - 1 {
                    assert(rows_view(out@)[i] == row_view(old_out[i]));
                    assert(lex_le(key_of(row_view(old_out[i]), by_rank), key_of(row_view(old_rest[m as int]), by_rank)));
                } else {
                    assert(rows_view(out@)[i] == rows_view(old_out)[i]);
                    assert(rows_view(out@)[k] == rows_view(old_out)[k]);
                }
            }
            assert forall|i: int, j: int|
                0 <= i < out@.len() && 0 <= j < rest@.len() implies lex_le(
                key_of(row_view(#[trigger] out@[i]), by_rank),
                key_of(row_view(#[trigger] rest@[j]), by_rank),
            ) by {
                let jj = if j < m { j } else { j + 1 };
                assert(rest@[j] == old_rest[jj]);
                if i < old_out.len() {
                    assert(out@[i] == old_out[i]);
                } else {
                    assert(out@[i] == old_rest[m as int]);
                }
            }
        }
    }
    proof {
        broadcast use vstd::seq_lib::group_to_multiset_ensures;
        assert(rows_ms(rest@) =~= Multiset::<RowView>::empty());
        assert(rows_ms(out@).add(Multiset::<RowView>::empty()) =~= rows_ms(out@));
    }
    out
}

/// The rows of kind `k`, in pool order.
fn rows_of_kind(pool: &Vec<Drawn>, k: &[char]) -> (out: Vec<Drawn>)
    ensures
        rows_ms(out@) == of_kind(rows_ms(pool@), k@),
        forall|j: int| 0 <= j < out@.len() ==> (#[trigger] out@[j]).kind@ == k@,
{
    let mut out: Vec<Drawn> = Vec::new();
    let mut i: usize = 0;
    proof {
        broadcast use vstd::seq_lib::group_to_multiset_ensures;
        broadcast use vstd::multiset::group_multiset_axioms;
        assert(rows_view(pool@.take(0)) =~= Seq::<RowView>::empty());
        assert(rows_view(out@) =~= Seq::<RowView>::empty());
        assert(of_kind(rows_ms(pool@.take(0)), k@) =~= rows_ms(out@));
    }
    while i < pool.len()
        invariant
            i <= pool@.len(),
            rows_ms(out@) == of_kind(rows_ms(pool@.take(i as int)), k@),
            forall|j: int| 0 <= j < out@.len() ==> (#[trigger] out@[j]).kind@ == k@,
        decreases pool.len() - i,
    {
        let ghost before = out@;
        let ghost v = row_view(pool@[i as int]);
        proof {
            broadcast use vstd::seq_lib::group_to_multiset_ensures;
            assert(rows_view(pool@.take(i + 1)) =~= rows_view(pool@.take(i as int)).push(v));
        }
        if crate::text::same(&chars_of(pool[i].kind.as_str()), k) {
            out.push(copy_row(&pool[i]));
            proof {
                broadcast use vstd::seq_lib::group_to_multiset_ensures;
                broadcast use vstd::multiset::group_multiset_axioms;
                assert(rows_view(out@) =~= rows_view(before).push(v));
                assert(of_kind(rows_ms(pool@.take(i + 1)), k@) =~= of_kind(rows_ms(pool@.take(i as int)), k@).insert(v));
            }
        } else {
            proof {
                broadcast use vstd::seq_lib::group_to_multiset_ensures;
                broadcast use vstd::multiset::group_multiset_axioms;
                assert(of_kind(rows_ms(pool@.take(i + 1)), k@) =~= of_kind(rows_ms(pool@.take(i as int)), k@));
            }
        }
        i += 1;
    }
    assert(pool@.take(pool@.len() as int) =~= pool@);
    out
}


/// The frozen draw: the kind allocation, the primaries in audit order
/// and the backups in (kind, audit) order.
pub struct Draw {
    pub allocation: Vec<(String, u64)>,
    pub primary: Vec<Drawn>,
    pub backups: Vec<Drawn>,
}

pub open spec fn kinds_in(pool: Seq<Drawn>) -> Seq<Chars> {
    pool.map_values(|r: Drawn| r.kind@)
}

pub open spec fn alloc_kinds(a: Seq<(String, u64)>) -> Seq<Chars> {
    a.map_values(|e: (String, u64)| e.0@)
}

/// How many rows of the pool each kind of `ks` holds.
pub open spec fn kind_sizes(pool: Seq<Drawn>, ks: Seq<Chars>) -> Seq<u64> {
    ks.map_values(|k: Chars| of_kind(rows_ms(pool), k).len() as u64)
}

/// The backups a kind of `n` rows and quota `q` is owed.
pub open spec fn owed(n: int, q: int) -> int {
    if n - q < BACKUP_PER_KIND {
        n - q
    } else {
        BACKUP_PER_KIND as int
    }
}

/// One kind's part of a draw, from its pool rows `pk`: the primaries
/// `dp` are `q` of them, none ranked above a row left over; the backups
/// `db` are what it is owed of the rows left over, none audited above a
/// row left over after them.
pub open spec fn kind_drawn(pk: Multiset<RowView>, dp: Multiset<RowView>, db: Multiset<RowView>, q: int) -> bool {
    let rest = pk.sub(dp);
    &&& dp.subset_of(pk)
    &&& dp.len() == q
    &&& forall|p: RowView, r: RowView| #[trigger] dp.contains(p) && #[trigger] rest.contains(r) ==> lex_le(p.1, r.1)
    &&& db.subset_of(rest)
    &&& db.len() == owed(pk.len() as int, q)
    &&& forall|b: RowView, r: RowView|
        #[trigger] db.contains(b) && #[trigger] rest.sub(db).contains(r) ==> lex_le(b.2, r.2)
}

/// What the draw of `pool` is: the kinds of the pool sorted, each once,
/// with their quotas; the primaries in audit order and the backups in
/// (kind, audit) order, all of those kinds; and each kind drawn as
/// `kind_drawn` says.
pub open spec fn draw_spec(
    pool: Seq<Drawn>,
    alloc: Seq<(String, u64)>,
    primary: Seq<Drawn>,
    backups: Seq<Drawn>,
) -> bool {
    let ks = alloc_kinds(alloc);
    &&& canonical(ks)
    &&& ks.to_set() == kinds_in(pool).to_set()
    &&& forall|i: int| 0 <= i < alloc.len() ==> (#[trigger] alloc[i]).1 as int == quota(kind_sizes(pool, ks), i)
    &&& audit_sorted(primary)
    &&& backup_sorted(backups)
    &&& forall|j: int| 0 <= j < primary.len() ==> ks.contains(#[trigger] primary[j].kind@)
    &&& forall|j: int| 0 <= j < backups.len() ==> ks.contains(#[trigger] backups[j].kind@)
    &&& forall|i: int|
        0 <= i < ks.len() ==> #[trigger] kind_drawn(
            of_kind(rows_ms(pool), ks[i]),
            of_kind(rows_ms(primary), ks[i]),
            of_kind(rows_ms(backups), ks[i]),
            alloc[i].1 as int,
        )
}

/// A kind's rows ranked, the first `q` taken as primaries and the rest
/// audited, its first `t` taken as backups: that is `kind_drawn`.
proof fn lemma_split_drawn(s: Seq<RowView>, q: int, a: Seq<RowView>, t: int)
    requires
        sorted_by(s, true),
        0 <= q <= s.len(),
        sorted_by(a, false),
        a.to_multiset() == s.skip(q).to_multiset(),
        t == owed(s.len() as int, q),
    ensures
        kind_drawn(s.to_multiset(), s.take(q).to_multiset(), a.take(t).to_multiset(), q),
{
    broadcast use vstd::seq_lib::group_to_multiset_ensures;
    broadcast use vstd::multiset::group_multiset_axioms;

    let pk = s.to_multiset();
    let dp = s.take(q).to_multiset();
    let db = a.take(t).to_multiset();
    assert(s =~= s.take(q) + s.skip(q));
    vstd::seq_lib::lemma_multiset_commutative(s.take(q), s.skip(q));
    let rest = pk.sub(dp);
    assert(rest =~= s.skip(q).to_multiset());
    assert(a.to_multiset().len() == a.len());
    assert(s.skip(q).to_multiset().len() == s.skip(q).len());
    assert(a.len() == s.len() - q);
    assert(a =~= a.take(t) + a.skip(t));
    vstd::seq_lib::lemma_multiset_commutative(a.take(t), a.skip(t));
    assert(rest.sub(db) =~= a.skip(t).to_multiset());
    assert forall|p: RowView, r: RowView| #[trigger] dp.contains(p) && #[trigger] rest.contains(r) implies lex_le(
        p.1,
        r.1,
    ) by {
        assert(s.take(q).contains(p));
        assert(s.skip(q).contains(r));
        let x = choose|x: int| 0 <= x < s.take(q).len() && s.take(q)[x] == p;
        let y = choose|y: int| 0 <= y < s.skip(q).len() && s.skip(q)[y] == r;
        assert(s[x] == p);
        assert(s[q + y] == r);
        assert(key_of(s[x], true) == p.1);
    }
    assert forall|b: RowView, r: RowView| #[trigger] db.contains(b) && #[trigger] rest.sub(db).contains(r) implies lex_le(
        b.2,
        r.2,
    ) by {
        assert(a.take(t).contains(b));
        assert(a.skip(t).contains(r));
        let x = choose|x: int| 0 <= x < a.take(t).len() && a.take(t)[x] == b;
        let y = choose|y: int| 0 <= y < a.skip(t).len() && a.skip(t)[y] == r;
        assert(a[x] == b);
        assert(a[t + y] == r);
    }
}

/// A multiset and its part of kind `k` and the rest, added up.
proof fn lemma_of_kind_add(a: Multiset<RowView>, b: Multiset<RowView>, k: Chars)
    ensures
        of_kind(a.add(b), k) == of_kind(a, k).add(of_kind(b, k)),
{
    broadcast use vstd::multiset::group_multiset_axioms;

    assert(of_kind(a.add(b), k) =~= of_kind(a, k).add(of_kind(b, k)));
}

/// Rows all of kinds among `ks[..i]` hold nothing of a later kind, and
/// rows all of kind `k` are their own part of kind `k`.
proof fn lemma_of_kind_none(s: Seq<Drawn>, ks: Seq<Chars>, i: int, u: int)
    requires
        ks.no_duplicates(),
        0 <= i <= u < ks.len(),
        forall|j: int| 0 <= j < s.len() ==> ks.take(i).contains(#[trigger] s[j].kind@),
    ensures
        of_kind(rows_ms(s), ks[u]) == Multiset::<RowView>::empty(),
{
    broadcast use vstd::seq_lib::group_to_multiset_ensures;
    broadcast use vstd::multiset::group_multiset_axioms;

    assert forall|v: RowView| #[trigger] of_kind(rows_ms(s), ks[u]).count(v) == 0 by {
        if v.0 == ks[u] && rows_ms(s).count(v) > 0 {
            assert(rows_view(s).contains(v));
            let j = choose|j: int| 0 <= j < rows_view(s).len() && rows_view(s)[j] == v;
            assert(ks.take(i).contains(s[j].kind@));
            let x = choose|x: int| 0 <= x < ks.take(i).len() && ks.take(i)[x] == s[j].kind@;
            assert(ks[x] == ks[u]);
        }
    }
    assert(of_kind(rows_ms(s), ks[u]) =~= Multiset::<RowView>::empty());
}

proof fn lemma_of_kind_all(s: Seq<Drawn>, k: Chars)
    requires
        forall|j: int| 0 <= j < s.len() ==> (#[trigger] s[j]).kind@ == k,
    ensures
        of_kind(rows_ms(s), k) == rows_ms(s),
{
    broadcast use vstd::seq_lib::group_to_multiset_ensures;
    broadcast use vstd::multiset::group_multiset_axioms;

    assert forall|v: RowView| #[trigger] of_kind(rows_ms(s), k).count(v) == rows_ms(s).count(v) by {
        if rows_ms(s).count(v) > 0 {
            assert(rows_view(s).contains(v));
            let j = choose|j: int| 0 <= j < rows_view(s).len() && rows_view(s)[j] == v;
            assert(s[j].kind@ == k);
        }
    }
    assert(of_kind(rows_ms(s), k) =~= rows_ms(s));
}

/// The parts of distinct kinds, counted kind by kind, are never more
/// rows than there are.
proof fn lemma_kind_sizes_total(m: Multiset<RowView>, ks: Seq<Chars>)
    requires
        ks.no_duplicates(),
    ensures
        sum_to(ks.len() as int, |i: int| of_kind(m, ks[i]).len() as int) == m.filter(
            |v: RowView| ks.contains(v.0),
        ).len(),
    decreases ks.len(),
{
    broadcast use vstd::multiset::group_multiset_axioms;

    let n = ks.len() as int;
    if n == 0 {
        assert(m.filter(|v: RowView| ks.contains(v.0)) =~= Multiset::<RowView>::empty());
    } else {
        let init = ks.drop_last();
        lemma_kind_sizes_total(m, init);
        let f = |i: int| of_kind(m, ks[i]).len() as int;
        let g = |i: int| of_kind(m, init[i]).len() as int;
        assert forall|i: int| 0 <= i < n - 1 implies #[trigger] f(i) == g(i) by {
            assert(init[i] == ks[i]);
        }
        lemma_sum_ext(n - 1, f, g);
        let all = m.filter(|v: RowView| ks.contains(v.0));
        let some = m.filter(|v: RowView| init.contains(v.0));
        assert forall|v: RowView| #[trigger] all.count(v) == some.add(of_kind(m, ks[n - 1])).count(v) by {
            if init.contains(v.0) {
                let x = choose|x: int| 0 <= x < init.len() && init[x] == v.0;
                assert(ks[x] == v.0);
                assert(v.0 != ks[n - 1]);
            }
            if v.0 == ks[n - 1] {
                assert(ks.contains(v.0));
            }
            if ks.contains(v.0) && v.0 != ks[n - 1] {
                let x = choose|x: int| 0 <= x < ks.len() && ks[x] == v.0;
                assert(init[x] == v.0);
            }
        }
        assert(all =~= some.add(of_kind(m, ks[n - 1])));
    }
}

/// A pool small enough gives quotas that fit: no kind and no product
/// of seats and what a kind has left passes `u64`.
proof fn lemma_sizes_fit(pool: Seq<Drawn>, ks: Seq<Chars>)
    requires
        ks.no_duplicates(),
        pool.len() * TOTAL <= u64::MAX,
    ensures
        quota_fits(kind_sizes(pool, ks)),
        forall|i: int| 0 <= i < ks.len() ==> #[trigger] kind_sizes(pool, ks)[i] as int == of_kind(rows_ms(pool), ks[i]).len(),
{
    broadcast use vstd::seq_lib::group_to_multiset_ensures;
    broadcast use vstd::multiset::group_multiset_axioms;

    let m = rows_ms(pool);
    let sizes = kind_sizes(pool, ks);
    let n = ks.len() as int;
    assert(m.len() == pool.len());
    assert forall|i: int| 0 <= i < n implies #[trigger] sizes[i] as int == of_kind(m, ks[i]).len()
        && of_kind(m, ks[i]).len() <= m.len() by {
        assert(of_kind(m, ks[i]).subset_of(m));
        assert(m.sub(of_kind(m, ks[i])).len() == m.len() - of_kind(m, ks[i]).len());
    }
    lemma_kind_sizes_total(m, ks);
    let part = m.filter(|v: RowView| ks.contains(v.0));
    assert(part.subset_of(m));
    assert(m.sub(part).len() == m.len() - part.len());
    let f = |i: int| of_kind(m, ks[i]).len() as int;
    assert forall|i: int| 0 <= i < n implies #[trigger] weights_f(sizes)(i) == f(i) by {}
    lemma_sum_ext(n, weights_f(sizes), f);
    assert(total(sizes) <= pool.len());
    assert forall|i: int| 0 <= i < sizes.len() implies seats_left(sizes) * #[trigger] rests(sizes)[i] <= u64::MAX by {
        assert(0 <= rests(sizes)[i] <= sizes[i] <= pool.len());
        let fl = floors_f(sizes);
        assert forall|j: int| 0 <= j < n implies #[trigger] fl(j) >= 0 by {}
        lemma_sum_nonneg(n, fl);
        assert(0 <= seats_left(sizes) <= TOTAL) by {
            assert forall|j: int| 0 <= j < n implies #[trigger] weights_f(rests(sizes))(j) >= 0 by {}
            lemma_sum_nonneg(n, weights_f(rests(sizes)));
        }
        assert(seats_left(sizes) * rests(sizes)[i] <= TOTAL * pool.len()) by (nonlinear_arith)
            requires
                0 <= seats_left(sizes) <= TOTAL,
                0 <= rests(sizes)[i] <= pool.len(),
        ;
    }
}


/// Rows whose part of kind `k` is all of them are all of kind `k`.
proof fn lemma_kinds_of_part(s: Seq<Drawn>, k: Chars)
    requires
        of_kind(rows_ms(s), k) == rows_ms(s),
    ensures
        forall|j: int| 0 <= j < s.len() ==> (#[trigger] s[j]).kind@ == k,
{
    broadcast use vstd::seq_lib::group_to_multiset_ensures;
    broadcast use vstd::multiset::group_multiset_axioms;

    assert forall|j: int| 0 <= j < s.len() implies (#[trigger] s[j]).kind@ == k by {
        let v = row_view(s[j]);
        assert(rows_view(s)[j] == v);
        assert(rows_view(s).contains(v));
        assert(of_kind(rows_ms(s), k).count(v) > 0);
    }
}

/// Rows all of kind `k` hold nothing of another kind.
proof fn lemma_of_kind_other(s: Seq<Drawn>, k: Chars, other: Chars)
    requires
        forall|j: int| 0 <= j < s.len() ==> (#[trigger] s[j]).kind@ == k,
        k != other,
    ensures
        of_kind(rows_ms(s), other) == Multiset::<RowView>::empty(),
{
    broadcast use vstd::seq_lib::group_to_multiset_ensures;
    broadcast use vstd::multiset::group_multiset_axioms;

    assert forall|v: RowView| #[trigger] of_kind(rows_ms(s), other).count(v) == 0 by {
        if v.0 == other && rows_ms(s).count(v) > 0 {
            assert(rows_view(s).contains(v));
            let j = choose|j: int| 0 <= j < rows_view(s).len() && rows_view(s)[j] == v;
            assert(s[j].kind@ == k);
        }
    }
    assert(of_kind(rows_ms(s), other) =~= Multiset::<RowView>::empty());
}

/// The rows of `a` then `b`, order forgotten.
proof fn lemma_rows_ms_append(a: Seq<Drawn>, b: Seq<Drawn>)
    ensures
        rows_ms(a + b) == rows_ms(a).add(rows_ms(b)),
{
    assert(rows_view(a + b) =~= rows_view(a) + rows_view(b));
    vstd::seq_lib::lemma_multiset_commutative(rows_view(a), rows_view(b));
}

/// Every row of `x` stands, by its values, somewhere in `y` when the two
/// hold the same rows.
proof fn lemma_same_rows_kinds(x: Seq<Drawn>, y: Seq<Drawn>, ks: Seq<Chars>)
    requires
        rows_ms(x) == rows_ms(y),
        forall|j: int| 0 <= j < y.len() ==> ks.contains(#[trigger] y[j].kind@),
    ensures
        forall|j: int| 0 <= j < x.len() ==> ks.contains(#[trigger] x[j].kind@),
{
    broadcast use vstd::seq_lib::group_to_multiset_ensures;

    assert forall|j: int| 0 <= j < x.len() implies ks.contains(#[trigger] x[j].kind@) by {
        let v = row_view(x[j]);
        assert(rows_view(x)[j] == v);
        assert(rows_view(x).contains(v));
        assert(rows_ms(x).count(v) > 0);
        assert(rows_ms(y).count(v) > 0);
        assert(rows_view(y).contains(v));
        let i = choose|i: int| 0 <= i < rows_view(y).len() && rows_view(y)[i] == v;
        assert(y[i].kind@ == v.0);
    }
}

/// Within each kind the rank hash picks the quota; the primaries are
/// then stored in audit order (the auditor never sees rank order), and
/// each kind's backups are the audit order over its unpicked rest,
/// stored kind by kind.
pub fn draw(pool: &Vec<Drawn>) -> (d: Draw)
    requires
        pool@.len() * TOTAL <= u64::MAX,
    ensures
        draw_spec(pool@, d.allocation@, d.primary@, d.backups@),
{
    let mut names: Vec<String> = Vec::new();
    let mut i: usize = 0;
    while i < pool.len()
        invariant
            i <= pool@.len(),
            views(names@) == kinds_in(pool@).take(i as int),
        decreases pool.len() - i,
    {
        let ghost before = views(names@);
        names.push(pool[i].kind.clone());
        assert(views(names@) =~= before.push(pool@[i as int].kind@));
        assert(kinds_in(pool@).take(i + 1) =~= kinds_in(pool@).take(i as int).push(pool@[i as int].kind@));
        i += 1;
    }
    assert(kinds_in(pool@).take(pool@.len() as int) =~= kinds_in(pool@));
    let ks = canon(names);
    let ghost kv = views(ks@);
    let n = ks.len();
    proof {
        lemma_sizes_fit(pool@, kv);
    }
    let mut counted: Vec<(String, u64)> = Vec::new();
    let mut c: usize = 0;
    while c < n
        invariant
            n == ks@.len(),
            kv == views(ks@),
            c <= n,
            counted@.len() == c,
            forall|t: int|
                0 <= t < c ==> (#[trigger] counted@[t]).0@ == kv[t] && counted@[t].1 == kind_sizes(pool@, kv)[t],
            forall|t: int|
                0 <= t < n ==> #[trigger] kind_sizes(pool@, kv)[t] as int == of_kind(rows_ms(pool@), kv[t]).len(),
        decreases n - c,
    {
        let rows = rows_of_kind(pool, &chars_of(ks[c].as_str()));
        proof {
            broadcast use vstd::seq_lib::group_to_multiset_ensures;
            assert(rows_ms(rows@).len() == rows_view(rows@).len());
            assert(kind_sizes(pool@, kv)[c as int] as int == rows@.len());
        }
        counted.push((ks[c].clone(), rows.len() as u64));
        c += 1;
    }
    assert(crate::eval_support::auditgen::counts(counted@) =~= kind_sizes(pool@, kv));
    assert(weight_keys(counted@) =~= kv);
    let alloc = quotas(&counted);
    let mut acc: Vec<Drawn> = Vec::new();
    let mut backups: Vec<Drawn> = Vec::new();
    let mut i: usize = 0;
    while i < n
        invariant
            n == ks@.len(),
            kv == views(ks@),
            canonical(kv),
            alloc@.len() == n,
            forall|t: int|
                0 <= t < n ==> (#[trigger] alloc@[t]).0@ == kv[t] && alloc@[t].1 as int == quota(
                    kind_sizes(pool@, kv),
                    t,
                ),
            forall|t: int|
                0 <= t < n ==> #[trigger] kind_sizes(pool@, kv)[t] as int == of_kind(rows_ms(pool@), kv[t]).len(),
            i <= n,
            forall|j: int| 0 <= j < acc@.len() ==> kv.take(i as int).contains(#[trigger] acc@[j].kind@),
            forall|j: int| 0 <= j < backups@.len() ==> kv.take(i as int).contains(#[trigger] backups@[j].kind@),
            backup_sorted(backups@),
            forall|t: int|
                0 <= t < i ==> #[trigger] kind_drawn(
                    of_kind(rows_ms(pool@), kv[t]),
                    of_kind(rows_ms(acc@), kv[t]),
                    of_kind(rows_ms(backups@), kv[t]),
                    alloc@[t].1 as int,
                ),
        decreases n - i,
    {
        let k = chars_of(ks[i].as_str());
        let rows = rows_of_kind(pool, &k);
        let mut prim = sort_rows(rows, true);
        let ghost s = rows_view(prim@);
        proof {
            broadcast use vstd::seq_lib::group_to_multiset_ensures;
            lemma_quota_le_pool(kind_sizes(pool@, kv), i as int);
            assert(rows_ms(prim@).len() == s.len());
            lemma_of_kind_all(rows@, k@);
            lemma_kinds_of_part(prim@, k@);
            assert(kv[i as int] == k@);
            assert(kind_sizes(pool@, kv)[i as int] as int == of_kind(rows_ms(pool@), kv[i as int]).len());
            assert(alloc@[i as int].1 <= s.len());
        }
        let plen = prim.len();
        assert(alloc@[i as int].1 <= plen);
        let q = alloc[i].1 as usize;
        let ghost old_prim = prim@;
        let rest = prim.split_off(q);
        let mut bk = sort_rows(rest, false);
        proof {
            broadcast use vstd::seq_lib::group_to_multiset_ensures;
            assert(rows_ms(bk@).len() == rows_view(bk@).len());
            assert(rows_ms(rest@).len() == rows_view(rest@).len());
        }
        let t: usize = if bk.len() < BACKUP_PER_KIND as usize {
            bk.len()
        } else {
            BACKUP_PER_KIND as usize
        };
        let ghost a = rows_view(bk@);
        let ghost sorted_bk = bk@;
        let _tail = bk.split_off(t);
        proof {
            assert(rows_view(prim@) =~= s.take(q as int));
            assert(rows_view(rest@) =~= s.skip(q as int));
            assert(rows_view(bk@) =~= a.take(t as int));
            lemma_split_drawn(s, q as int, a, t as int);
            assert forall|j: int| 0 <= j < rest@.len() implies (#[trigger] rest@[j]).kind@ == k@ by {
                assert(rest@[j] == old_prim[q + j]);
            }
            lemma_of_kind_all(rest@, k@);
            lemma_kinds_of_part(sorted_bk, k@);
            assert forall|j: int| 0 <= j < bk@.len() implies (#[trigger] bk@[j]).kind@ == k@ by {
                assert(bk@[j] == sorted_bk[j]);
            }
            assert forall|j: int| 0 <= j < prim@.len() implies (#[trigger] prim@[j]).kind@ == k@ by {
                assert(prim@[j] == old_prim[j]);
            }
            assert forall|x: int, y: int| 0 <= x < y < rows_view(bk@).len() implies lex_le(
                key_of(#[trigger] rows_view(bk@)[x], false),
                key_of(#[trigger] rows_view(bk@)[y], false),
            ) by {
                assert(rows_view(bk@)[x] == a[x]);
                assert(rows_view(bk@)[y] == a[y]);
            }
            assert(s.to_multiset() == of_kind(rows_ms(pool@), k@));
            assert(rows_ms(prim@) == s.take(q as int).to_multiset());
            assert(rows_ms(bk@) == a.take(t as int).to_multiset());
            assert(q as int == alloc@[i as int].1 as int);
            assert(kind_drawn(of_kind(rows_ms(pool@), kv[i as int]), rows_ms(prim@), rows_ms(bk@), alloc@[i as int].1 as int));
        }
        let ghost old_acc = acc@;
        let ghost old_bk = backups@;
        let ghost new_p = prim@;
        let ghost new_b = bk@;
        acc.append(&mut prim);
        backups.append(&mut bk);
        proof {
            lemma_draw_step(pool@, kv, alloc@, i as int, old_acc, new_p, old_bk, new_b);
            assert(acc@ =~= old_acc + new_p);
            assert(backups@ =~= old_bk + new_b);
        }
        i += 1;
    }
    let primary = sort_rows(acc, false);
    proof {
        assert(kv.take(n as int) =~= kv);
        assert(alloc_kinds(alloc@) =~= kv);
        lemma_same_rows_kinds(primary@, acc@, kv);
        assert forall|t: int| 0 <= t < n implies #[trigger] of_kind(rows_ms(primary@), kv[t]) == of_kind(rows_ms(acc@), kv[t]) by {}
        assert forall|j: int| 0 < j < primary@.len() implies #[trigger] audit_step(primary@, j) by {
            assert(rows_view(primary@)[j - 1] == row_view(primary@[j - 1]));
            assert(rows_view(primary@)[j] == row_view(primary@[j]));
        }
    }
    Draw { allocation: alloc, primary, backups }
}

/// One kind's rows joined to the draw so far keep every kind drawn.
proof fn lemma_draw_step(
    pool: Seq<Drawn>,
    kv: Seq<Chars>,
    alloc: Seq<(String, u64)>,
    i: int,
    acc: Seq<Drawn>,
    p: Seq<Drawn>,
    bs: Seq<Drawn>,
    b: Seq<Drawn>,
)
    requires
        canonical(kv),
        0 <= i < kv.len(),
        alloc.len() == kv.len(),
        forall|j: int| 0 <= j < acc.len() ==> kv.take(i).contains(#[trigger] acc[j].kind@),
        forall|j: int| 0 <= j < bs.len() ==> kv.take(i).contains(#[trigger] bs[j].kind@),
        forall|j: int| 0 <= j < p.len() ==> (#[trigger] p[j]).kind@ == kv[i],
        forall|j: int| 0 <= j < b.len() ==> (#[trigger] b[j]).kind@ == kv[i],
        backup_sorted(bs),
        sorted_by(rows_view(b), false),
        forall|t: int|
            0 <= t < i ==> #[trigger] kind_drawn(
                of_kind(rows_ms(pool), kv[t]),
                of_kind(rows_ms(acc), kv[t]),
                of_kind(rows_ms(bs), kv[t]),
                alloc[t].1 as int,
            ),
        kind_drawn(of_kind(rows_ms(pool), kv[i]), rows_ms(p), rows_ms(b), alloc[i].1 as int),
    ensures
        forall|j: int| 0 <= j < (acc + p).len() ==> kv.take(i + 1).contains(#[trigger] (acc + p)[j].kind@),
        forall|j: int| 0 <= j < (bs + b).len() ==> kv.take(i + 1).contains(#[trigger] (bs + b)[j].kind@),
        backup_sorted(bs + b),
        forall|t: int|
            0 <= t < i + 1 ==> #[trigger] kind_drawn(
                of_kind(rows_ms(pool), kv[t]),
                of_kind(rows_ms(acc + p), kv[t]),
                of_kind(rows_ms(bs + b), kv[t]),
                alloc[t].1 as int,
            ),
{
    let k = kv[i];
    assert(kv.take(i + 1)[i] == k);
    assert forall|j: int| 0 <= j < (acc + p).len() implies kv.take(i + 1).contains(#[trigger] (acc + p)[j].kind@) by {
        if j < acc.len() {
            assert((acc + p)[j] == acc[j]);
            let x = choose|x: int| 0 <= x < kv.take(i).len() && kv.take(i)[x] == acc[j].kind@;
            assert(kv.take(i + 1)[x] == acc[j].kind@);
        } else {
            assert((acc + p)[j] == p[j - acc.len()]);
        }
    }
    assert forall|j: int| 0 <= j < (bs + b).len() implies kv.take(i + 1).contains(#[trigger] (bs + b)[j].kind@) by {
        if j < bs.len() {
            assert((bs + b)[j] == bs[j]);
            let x = choose|x: int| 0 <= x < kv.take(i).len() && kv.take(i)[x] == bs[j].kind@;
            assert(kv.take(i + 1)[x] == bs[j].kind@);
        } else {
            assert((bs + b)[j] == b[j - bs.len()]);
        }
    }
    assert forall|j: int| 0 < j < (bs + b).len() implies #[trigger] backup_step(bs + b, j) by {
        let all = bs + b;
        if j < bs.len() {
            assert(all[j - 1] == bs[j - 1]);
            assert(all[j] == bs[j]);
            assert(backup_step(bs, j));
        } else if j == bs.len() {
            assert(all[j - 1] == bs[j - 1]);
            assert(all[j] == b[0]);
            let x = choose|x: int| 0 <= x < kv.take(i).len() && kv.take(i)[x] == bs[j - 1].kind@;
            assert(kv[x] == bs[j - 1].kind@);
            assert(crate::text::lex_sorted(kv));
            assert(lex_le(kv[x], kv[i]));
            assert(kv[x] != kv[i]);
        } else {
            assert(all[j - 1] == b[j - 1 - bs.len()]);
            assert(all[j] == b[j - bs.len()]);
            assert(rows_view(b)[j - 1 - bs.len()] == row_view(b[j - 1 - bs.len()]));
            assert(rows_view(b)[j - bs.len()] == row_view(b[j - bs.len()]));
        }
    }
    lemma_rows_ms_append(acc, p);
    lemma_rows_ms_append(bs, b);
    assert forall|t: int| 0 <= t < i + 1 implies #[trigger] kind_drawn(
        of_kind(rows_ms(pool), kv[t]),
        of_kind(rows_ms(acc + p), kv[t]),
        of_kind(rows_ms(bs + b), kv[t]),
        alloc[t].1 as int,
    ) by {
        lemma_of_kind_add(rows_ms(acc), rows_ms(p), kv[t]);
        lemma_of_kind_add(rows_ms(bs), rows_ms(b), kv[t]);
        if t < i {
            assert(kv[t] != kv[i]);
            lemma_of_kind_other(p, k, kv[t]);
            lemma_of_kind_other(b, k, kv[t]);
            assert(of_kind(rows_ms(acc + p), kv[t]) =~= of_kind(rows_ms(acc), kv[t]));
            assert(of_kind(rows_ms(bs + b), kv[t]) =~= of_kind(rows_ms(bs), kv[t]));
        } else {
            lemma_of_kind_none(acc, kv, i, i);
            lemma_of_kind_none(bs, kv, i, i);
            lemma_of_kind_all(p, k);
            lemma_of_kind_all(b, k);
            assert(of_kind(rows_ms(acc + p), kv[t]) =~= rows_ms(p));
            assert(of_kind(rows_ms(bs + b), kv[t]) =~= rows_ms(b));
        }
    }
}


/// Counting a kind's rows one by one is counting its part.
pub proof fn lemma_kind_count_part(rs: Seq<Drawn>, k: Chars)
    ensures
        kind_count(rs, k) == of_kind(rows_ms(rs), k).len(),
    decreases rs.len(),
{
    broadcast use vstd::seq_lib::group_to_multiset_ensures;
    broadcast use vstd::multiset::group_multiset_axioms;

    if rs.len() == 0 {
        assert(rows_view(rs) =~= Seq::<RowView>::empty());
        assert(of_kind(rows_ms(rs), k) =~= Multiset::<RowView>::empty());
    } else {
        let init = rs.drop_last();
        let v = row_view(rs.last());
        lemma_kind_count_part(init, k);
        assert(rows_view(rs) =~= rows_view(init).push(v));
        if v.0 == k {
            assert(of_kind(rows_ms(rs), k) =~= of_kind(rows_ms(init), k).insert(v));
        } else {
            assert(of_kind(rows_ms(rs), k) =~= of_kind(rows_ms(init), k));
        }
    }
}

/// What the draw picks, the draw check accepts: where no two rows of
/// one kind share a rank hash, a draw of the pool meets every
/// condition on which `check_draw` answers `Ok`, against the pool's
/// per-kind counts in the allocation's kind order.
pub proof fn lemma_draw_checks(
    pool: Seq<Drawn>,
    alloc: Seq<(String, u64)>,
    primary: Seq<Drawn>,
    backups: Seq<Drawn>,
    counted: Seq<(String, u64)>,
)
    requires
        draw_spec(pool, alloc, primary, backups),
        pool.len() <= u64::MAX,
        pool_kinds(counted) == alloc_kinds(alloc),
        crate::eval_support::auditgen::counts(counted) == kind_sizes(pool, alloc_kinds(alloc)),
        forall|x: int, y: int|
            0 <= x < y < pool.len() && (#[trigger] pool[x]).kind@ == (#[trigger] pool[y]).kind@ ==> pool[x].rank@
                != pool[y].rank@,
    ensures
        per_kind_ok(primary, counted),
        audit_sorted(primary),
        backup_sorted(backups),
        backups_ok(primary, backups, counted),
{
    broadcast use vstd::seq_lib::group_to_multiset_ensures;
    broadcast use vstd::multiset::group_multiset_axioms;

    let ks = alloc_kinds(alloc);
    let sizes = kind_sizes(pool, ks);
    let m = rows_ms(pool);
    assert(crate::eval_support::auditgen::counts(counted) == sizes);
    assert forall|x: int, y: int| 0 <= x < rows_view(pool).len() && 0 <= y < rows_view(pool).len() && x != y implies rows_view(
        pool,
    )[x] != rows_view(pool)[y] by {
        if x < y {
            assert(rows_view(pool)[x] == row_view(pool[x]));
            assert(rows_view(pool)[y] == row_view(pool[y]));
        } else {
            assert(rows_view(pool)[x] == row_view(pool[x]));
            assert(rows_view(pool)[y] == row_view(pool[y]));
        }
    }
    assert(rows_view(pool).no_duplicates());
    rows_view(pool).lemma_multiset_has_no_duplicates();
    assert(counted.len() == ks.len()) by {
        assert(pool_kinds(counted).len() == ks.len());
    }
    assert forall|i: int| 0 <= i < counted.len() implies kind_count(primary, #[trigger] pool_kinds(counted)[i]) == quota(
        crate::eval_support::auditgen::counts(counted),
        i,
    ) && quota(crate::eval_support::auditgen::counts(counted), i) > 0 by {
        let k = ks[i];
        assert(pool_kinds(counted)[i] == k);
        assert(kind_drawn(of_kind(m, k), of_kind(rows_ms(primary), k), of_kind(rows_ms(backups), k), alloc[i].1 as int));
        lemma_kind_count_part(primary, k);
        assert(ks.to_set().contains(k));
        assert(kinds_in(pool).to_set().contains(k));
        let x = choose|x: int| 0 <= x < kinds_in(pool).len() && kinds_in(pool)[x] == k;
        assert(rows_view(pool)[x] == row_view(pool[x]));
        assert(rows_view(pool).contains(row_view(pool[x])));
        assert(of_kind(m, k).count(row_view(pool[x])) > 0);
        assert(sizes[i] as int == of_kind(m, k).len()) by {
            assert(of_kind(m, k).subset_of(m));
            assert(m.sub(of_kind(m, k)).len() == m.len() - of_kind(m, k).len());
            assert(m.len() == pool.len());
        }
        lemma_quota_le_pool(sizes, i);
    }
    assert forall|j: int| 0 <= j < primary.len() implies pool_kinds(counted).contains(#[trigger] primary[j].kind@) by {}
    assert forall|i: int| 0 <= i < counted.len() implies kind_count(backups, #[trigger] pool_kinds(counted)[i])
        == backups_owed(counted, i) && ranked_below(primary, backups, pool_kinds(counted)[i]) by {
        let k = ks[i];
        assert(pool_kinds(counted)[i] == k);
        let pk = of_kind(m, k);
        let dp = of_kind(rows_ms(primary), k);
        let db = of_kind(rows_ms(backups), k);
        assert(kind_drawn(pk, dp, db, alloc[i].1 as int));
        lemma_kind_count_part(backups, k);
        assert(sizes[i] as int == pk.len()) by {
            assert(pk.subset_of(m));
            assert(m.sub(pk).len() == m.len() - pk.len());
            assert(m.len() == pool.len());
        }
        assert(counted[i].1 == sizes[i]);
        assert forall|p: int, b: int|
            0 <= p < primary.len() && 0 <= b < backups.len() && (#[trigger] primary[p]).kind@ == k && (#[trigger] backups[b]).kind@
                == k implies lex_lt(primary[p].rank@, backups[b].rank@) by {
            let vp = row_view(primary[p]);
            let vb = row_view(backups[b]);
            assert(rows_view(primary)[p] == vp);
            assert(rows_view(backups)[b] == vb);
            assert(rows_view(primary).contains(vp));
            assert(rows_view(backups).contains(vb));
            assert(dp.contains(vp));
            assert(db.contains(vb));
            let rest = pk.sub(dp);
            assert(rest.contains(vb));
            assert(lex_le(vp.1, vb.1));
            if vp.1 == vb.1 {
                assert(pk.count(vp) > 0);
                assert(pk.count(vb) > 0);
                assert(m.count(vp) > 0);
                assert(m.count(vb) > 0);
                assert(rows_view(pool).contains(vp));
                assert(rows_view(pool).contains(vb));
                if vp == vb {
                    assert(m.count(vp) == 1);
                    assert(pk.count(vp) >= dp.count(vp) + rest.count(vp));
                } else {
                    let x = choose|x: int| 0 <= x < rows_view(pool).len() && rows_view(pool)[x] == vp;
                    let y = choose|y: int| 0 <= y < rows_view(pool).len() && rows_view(pool)[y] == vb;
                    assert(rows_view(pool)[x] == row_view(pool[x]));
                    assert(rows_view(pool)[y] == row_view(pool[y]));
                    assert(x != y);
                    if x < y {
                        assert(pool[x].kind@ == pool[y].kind@);
                    } else {
                        assert(pool[y].kind@ == pool[x].kind@);
                    }
                }
            }
        }
    }
}

} // verus!
