//! Largest-remainder apportionment: the one seat allocation every
//! stratified sample re-runs. Pure integer arithmetic; keys are the
//! entries of a map in key order, so "ties to the lower key" is "ties
//! to the earlier entry".

use crate::text::{canonical, Chars};
use vstd::prelude::*;
use vstd::set_lib::*;

verus! {

/// Sum of the first `n` terms of `f`.
pub open spec fn sum_to(n: int, f: spec_fn(int) -> int) -> int
    decreases n,
{
    if n <= 0 {
        0
    } else {
        sum_to(n - 1, f) + f(n - 1)
    }
}

/// How many of the first `n` indices satisfy `p`.
pub open spec fn count_to(n: int, p: spec_fn(int) -> bool) -> int
    decreases n,
{
    if n <= 0 {
        0
    } else {
        count_to(n - 1, p) + if p(n - 1) {
            1int
        } else {
            0int
        }
    }
}

/// The weights as integers.
pub open spec fn weight(ws: Seq<u64>, i: int) -> int {
    ws[i] as int
}

pub open spec fn weights_f(ws: Seq<u64>) -> spec_fn(int) -> int {
    |i: int| weight(ws, i)
}

pub open spec fn total(ws: Seq<u64>) -> int {
    sum_to(ws.len() as int, weights_f(ws))
}

/// `seats·w / Σw`, each key's floor.
pub open spec fn share(ws: Seq<u64>, seats: int, i: int) -> int {
    (seats * weight(ws, i)) / total(ws)
}

/// `seats·w mod Σw`, what the floor left over.
pub open spec fn rem(ws: Seq<u64>, seats: int, i: int) -> int {
    (seats * weight(ws, i)) % total(ws)
}

/// Seats the floors hand out.
pub open spec fn shares_f(ws: Seq<u64>, seats: int) -> spec_fn(int) -> int {
    |i: int| share(ws, seats, i)
}

pub open spec fn rems_f(ws: Seq<u64>, seats: int) -> spec_fn(int) -> int {
    |i: int| rem(ws, seats, i)
}

pub open spec fn used(ws: Seq<u64>, seats: int) -> int {
    sum_to(ws.len() as int, shares_f(ws, seats))
}

/// `j` stands before `i` in the remainder order: larger remainder
/// first, ties to the earlier key.
pub open spec fn before(ws: Seq<u64>, seats: int, j: int, i: int) -> bool {
    rem(ws, seats, j) > rem(ws, seats, i) || (rem(ws, seats, j) == rem(ws, seats, i) && j < i)
}

/// The place of key `i` in the remainder order.
pub open spec fn before_f(ws: Seq<u64>, seats: int, i: int) -> spec_fn(int) -> bool {
    |j: int| before(ws, seats, j, i)
}

pub open spec fn rank(ws: Seq<u64>, seats: int, i: int) -> int {
    count_to(ws.len() as int, before_f(ws, seats, i))
}

/// Whether key `i` is among the remainders that take a leftover seat.
pub open spec fn extra(ws: Seq<u64>, seats: int, i: int) -> bool {
    rank(ws, seats, i) < seats - used(ws, seats)
}

/// The seats key `i` takes: its floor, plus one if its remainder is
/// among the largest; nothing at all over a zero total.
pub open spec fn apportion(ws: Seq<u64>, seats: int, i: int) -> int {
    if total(ws) == 0 {
        0
    } else {
        share(ws, seats, i) + if extra(ws, seats, i) {
            1int
        } else {
            0int
        }
    }
}

/// The apportionment never overflows: the weights sum and each
/// `seats·w` fit in a `u64`.
pub open spec fn fits(ws: Seq<u64>, seats: u64) -> bool {
    &&& total(ws) <= u64::MAX
    &&& forall|i: int| 0 <= i < ws.len() ==> seats * ws[i] <= u64::MAX
}

pub proof fn lemma_sum_ext(n: int, f: spec_fn(int) -> int, g: spec_fn(int) -> int)
    requires
        forall|i: int| 0 <= i < n ==> #[trigger] f(i) == g(i),
    ensures
        sum_to(n, f) == sum_to(n, g),
    decreases n,
{
    if n > 0 {
        lemma_sum_ext(n - 1, f, g);
    }
}

pub proof fn lemma_sum_le(n: int, f: spec_fn(int) -> int, g: spec_fn(int) -> int)
    requires
        forall|i: int| 0 <= i < n ==> #[trigger] f(i) <= g(i),
    ensures
        sum_to(n, f) <= sum_to(n, g),
    decreases n,
{
    if n > 0 {
        lemma_sum_le(n - 1, f, g);
    }
}

pub proof fn lemma_sum_nonneg(n: int, f: spec_fn(int) -> int)
    requires
        forall|i: int| 0 <= i < n ==> #[trigger] f(i) >= 0,
    ensures
        sum_to(n, f) >= 0,
    decreases n,
{
    if n > 0 {
        lemma_sum_nonneg(n - 1, f);
    }
}

pub proof fn lemma_sum_add(n: int, f: spec_fn(int) -> int, g: spec_fn(int) -> int)
    ensures
        sum_to(n, |i: int| f(i) + g(i)) == sum_to(n, f) + sum_to(n, g),
    decreases n,
{
    if n > 0 {
        lemma_sum_add(n - 1, f, g);
    }
}

pub proof fn lemma_sum_scale(n: int, c: int, f: spec_fn(int) -> int)
    ensures
        sum_to(n, |i: int| c * f(i)) == c * sum_to(n, f),
    decreases n,
{
    if n > 0 {
        lemma_sum_scale(n - 1, c, f);
        assert(c * sum_to(n - 1, f) + c * f(n - 1) == c * (sum_to(n - 1, f) + f(n - 1)))
            by (nonlinear_arith);
    }
}

pub proof fn lemma_count_le(n: int, p: spec_fn(int) -> bool, q: spec_fn(int) -> bool)
    requires
        forall|i: int| 0 <= i < n && #[trigger] p(i) ==> q(i),
    ensures
        count_to(n, p) <= count_to(n, q),
    decreases n,
{
    if n > 0 {
        lemma_count_le(n - 1, p, q);
    }
}

/// One index that `q` holds and `p` does not makes the count strictly larger.
pub proof fn lemma_count_lt(n: int, p: spec_fn(int) -> bool, q: spec_fn(int) -> bool, w: int)
    requires
        forall|i: int| 0 <= i < n && #[trigger] p(i) ==> q(i),
        0 <= w < n,
        q(w),
        !p(w),
    ensures
        count_to(n, p) < count_to(n, q),
    decreases n,
{
    if w == n - 1 {
        lemma_count_le(n - 1, p, q);
    } else {
        lemma_count_lt(n - 1, p, q, w);
    }
}

pub proof fn lemma_count_bounds(n: int, p: spec_fn(int) -> bool)
    requires
        0 <= n,
    ensures
        0 <= count_to(n, p) <= n,
    decreases n,
{
    if n > 0 {
        lemma_count_bounds(n - 1, p);
    }
}

/// A count is the size of the set it counts.
pub proof fn lemma_count_set(n: int, p: spec_fn(int) -> bool)
    requires
        0 <= n,
    ensures
        set_int_range(0, n).filter(p).finite(),
        count_to(n, p) == set_int_range(0, n).filter(p).len(),
    decreases n,
{
    lemma_int_range(0, n);
    if n == 0 {
        assert(set_int_range(0, 0).filter(p) =~= Set::<int>::empty());
    } else {
        lemma_count_set(n - 1, p);
        let lo = set_int_range(0, n - 1).filter(p);
        if p(n - 1) {
            assert(set_int_range(0, n).filter(p) =~= lo.insert(n - 1));
        } else {
            assert(set_int_range(0, n).filter(p) =~= lo);
        }
    }
}

/// The remainder order is strict and total on distinct keys, so the
/// ranks are distinct.
pub proof fn lemma_rank_strict(ws: Seq<u64>, seats: int, i: int, j: int)
    requires
        0 <= i < ws.len(),
        0 <= j < ws.len(),
        before(ws, seats, i, j),
    ensures
        rank(ws, seats, i) < rank(ws, seats, j),
{
    let n = ws.len() as int;
    let p = before_f(ws, seats, i);
    let q = before_f(ws, seats, j);
    assert forall|x: int| 0 <= x < n && #[trigger] p(x) implies q(x) by {}
    lemma_count_lt(n, p, q, i);
}

pub proof fn lemma_rank_bound(ws: Seq<u64>, seats: int, i: int)
    requires
        0 <= i < ws.len(),
    ensures
        0 <= rank(ws, seats, i) < ws.len(),
{
    let n = ws.len() as int;
    let p = before_f(ws, seats, i);
    let all = |x: int| true;
    assert forall|x: int| 0 <= x < n && #[trigger] p(x) implies all(x) by {}
    lemma_count_lt(n, p, all, i);
    lemma_count_bounds(n, p);
    lemma_count_bounds(n, all);
}

pub open spec fn rank_f(ws: Seq<u64>, seats: int) -> spec_fn(int) -> int {
    |i: int| rank(ws, seats, i)
}

pub open spec fn ranked_below(ws: Seq<u64>, seats: int, k: int) -> spec_fn(int) -> bool {
    |i: int| rank(ws, seats, i) < k
}

/// Exactly `k` keys rank below `k`, for every `k` up to the key count:
/// the ranks are a permutation.
pub proof fn lemma_rank_count(ws: Seq<u64>, seats: int, k: int)
    requires
        0 <= k <= ws.len(),
    ensures
        count_to(ws.len() as int, ranked_below(ws, seats, k)) == k,
{
    let n = ws.len() as int;
    let dom = set_int_range(0, n);
    let f = rank_f(ws, seats);
    lemma_int_range(0, n);
    assert forall|a: int, b: int|
        dom.contains(a) && dom.contains(b) && #[trigger] f(a) == #[trigger] f(b) implies a
        == b by {
        if a != b {
            if before(ws, seats, a, b) {
                lemma_rank_strict(ws, seats, a, b);
            } else {
                lemma_rank_strict(ws, seats, b, a);
            }
        }
    }
    assert(vstd::relations::injective_on(f, dom));
    lemma_map_size(dom, dom.map(f), f);
    assert forall|r: int| dom.map(f).contains(r) implies dom.contains(r) by {
        let i = choose|i: int| dom.contains(i) && f(i) == r;
        lemma_rank_bound(ws, seats, i);
    }
    lemma_subset_equality(dom.map(f), dom);
    let low = dom.filter(ranked_below(ws, seats, k));
    let target = set_int_range(0, k);
    lemma_int_range(0, k);
    assert forall|r: int| low.map(f).contains(r) <==> target.contains(r) by {
        if target.contains(r) {
            assert(dom.contains(r));
            assert(dom.map(f).contains(r));
            let i = choose|i: int| dom.contains(i) && f(i) == r;
            assert(low.contains(i));
        }
        if low.map(f).contains(r) {
            let i = choose|i: int| low.contains(i) && f(i) == r;
            lemma_rank_bound(ws, seats, i);
        }
    }
    assert(low.map(f) =~= target);
    assert(vstd::relations::injective_on(f, low));
    lemma_map_size(low, target, f);
    lemma_count_set(n, ranked_below(ws, seats, k));
}

/// Every floor is non-negative, and so is every remainder.
pub proof fn lemma_share_nonneg(ws: Seq<u64>, seats: int, i: int)
    requires
        total(ws) > 0,
        seats >= 0,
        0 <= i < ws.len(),
    ensures
        share(ws, seats, i) >= 0,
        0 <= rem(ws, seats, i) < total(ws),
        seats * weight(ws, i) == total(ws) * share(ws, seats, i) + rem(ws, seats, i),
{
    let t = total(ws);
    let x = seats * weight(ws, i);
    assert(x >= 0) by (nonlinear_arith)
        requires
            seats >= 0,
            weight(ws, i) >= 0,
            x == seats * weight(ws, i),
    ;
    assert(x / t >= 0 && 0 <= x % t < t && x == t * (x / t) + x % t) by (nonlinear_arith)
        requires
            x >= 0,
            t > 0,
    ;
}

/// `seats·Σw = Σw·used + Σ rem`: the floors and the remainders
/// account for every seat.
pub proof fn lemma_rem_total(ws: Seq<u64>, seats: int)
    requires
        total(ws) > 0,
        seats >= 0,
    ensures
        seats * total(ws) == total(ws) * used(ws, seats) + sum_to(
            ws.len() as int,
            rems_f(ws, seats),
        ),
{
    let n = ws.len() as int;
    let t = total(ws);
    let w = weights_f(ws);
    let s = shares_f(ws, seats);
    let r = rems_f(ws, seats);
    let sw = |i: int| seats * w(i);
    let ts = |i: int| t * s(i);
    let tsr = |i: int| ts(i) + r(i);
    assert forall|i: int| 0 <= i < n implies #[trigger] sw(i) == tsr(i) by {
        lemma_share_nonneg(ws, seats, i);
    }
    lemma_sum_scale(n, seats, w);
    lemma_sum_scale(n, t, s);
    lemma_sum_add(n, ts, r);
    lemma_sum_ext(n, sw, tsr);
    assert(sum_to(n, sw) == seats * t);
    assert(sum_to(n, tsr) == t * used(ws, seats) + sum_to(n, r));
}

pub open spec fn has_rem(ws: Seq<u64>, seats: int) -> spec_fn(int) -> bool {
    |i: int| rem(ws, seats, i) > 0
}

pub open spec fn indicator(p: spec_fn(int) -> bool) -> spec_fn(int) -> int {
    |i: int|
        if p(i) {
            1int
        } else {
            0int
        }
}

/// A count is the sum of its indicator.
pub proof fn lemma_count_is_sum(n: int, p: spec_fn(int) -> bool)
    ensures
        count_to(n, p) == sum_to(n, indicator(p)),
    decreases n,
{
    if n > 0 {
        lemma_count_is_sum(n - 1, p);
    }
}

/// The floors hand out at most `seats`; the leftover seats number
/// fewer than the keys with a remainder, and at most the key count.
pub proof fn lemma_leftover(ws: Seq<u64>, seats: int)
    requires
        total(ws) > 0,
        seats >= 0,
    ensures
        0 <= used(ws, seats) <= seats,
        (seats - used(ws, seats)) < count_to(ws.len() as int, has_rem(ws, seats)) || seats
            - used(ws, seats) == 0,
        seats - used(ws, seats) <= ws.len(),
{
    let n = ws.len() as int;
    let t = total(ws);
    let r = rems_f(ws, seats);
    let pos = has_rem(ws, seats);
    let ind = indicator(pos);
    let bound = |i: int| (t - 1) * ind(i);
    lemma_rem_total(ws, seats);
    assert forall|i: int| 0 <= i < n implies 0 <= #[trigger] r(i) && r(i) <= bound(i) by {
        lemma_share_nonneg(ws, seats, i);
    }
    assert forall|i: int| 0 <= i < n implies #[trigger] shares_f(ws, seats)(i) >= 0 by {
        lemma_share_nonneg(ws, seats, i);
    }
    lemma_sum_nonneg(n, shares_f(ws, seats));
    lemma_sum_nonneg(n, r);
    lemma_sum_le(n, r, bound);
    lemma_sum_scale(n, t - 1, ind);
    lemma_count_is_sum(n, pos);
    let c = count_to(n, pos);
    let u = used(ws, seats);
    let k = seats - u;
    let sr = sum_to(n, r);
    assert(t * k == sr) by (nonlinear_arith)
        requires
            seats * t == t * u + sr,
            k == seats - u,
    ;
    assert(t * k <= (t - 1) * c);
    lemma_count_bounds(n, pos);
    assert(k >= 0) by (nonlinear_arith)
        requires
            t * k >= 0,
            t > 0,
    ;
    assert(k < c || k == 0) by (nonlinear_arith)
        requires
            t * k <= (t - 1) * c,
            t > 0,
            k >= 0,
            c >= 0,
    ;
}

pub open spec fn apportion_f(ws: Seq<u64>, seats: int) -> spec_fn(int) -> int {
    |i: int| apportion(ws, seats, i)
}

/// Conservation: with a non-zero total the keys take exactly `seats`.
pub proof fn lemma_apportion_sum(ws: Seq<u64>, seats: int)
    requires
        total(ws) > 0,
        seats >= 0,
    ensures
        sum_to(ws.len() as int, apportion_f(ws, seats)) == seats,
{
    let n = ws.len() as int;
    let k = seats - used(ws, seats);
    lemma_leftover(ws, seats);
    lemma_rank_count(ws, seats, k);
    let s = shares_f(ws, seats);
    let e = indicator(ranked_below(ws, seats, k));
    let se = |i: int| s(i) + e(i);
    lemma_sum_add(n, s, e);
    assert forall|i: int| 0 <= i < n implies #[trigger] apportion_f(ws, seats)(i) == se(i) by {}
    lemma_sum_ext(n, apportion_f(ws, seats), se);
    lemma_count_is_sum(n, ranked_below(ws, seats, k));
}

/// Only a key with a remainder takes a leftover seat.
pub proof fn lemma_extra_has_rem(ws: Seq<u64>, seats: int, i: int)
    requires
        total(ws) > 0,
        seats >= 0,
        0 <= i < ws.len(),
        extra(ws, seats, i),
    ensures
        rem(ws, seats, i) > 0,
{
    let n = ws.len() as int;
    lemma_share_nonneg(ws, seats, i);
    if rem(ws, seats, i) == 0 {
        lemma_leftover(ws, seats);
        lemma_rank_bound(ws, seats, i);
        let pos = has_rem(ws, seats);
        let bef = before_f(ws, seats, i);
        assert forall|j: int| 0 <= j < n && #[trigger] pos(j) implies bef(j) by {}
        lemma_count_le(n, pos, bef);
    }
}

/// With no more seats than the weights total, no key takes more than
/// its weight.
pub proof fn lemma_apportion_le_weight(ws: Seq<u64>, seats: int, i: int)
    requires
        0 <= seats <= total(ws),
        0 <= i < ws.len(),
    ensures
        apportion(ws, seats, i) <= weight(ws, i),
{
    let t = total(ws);
    if t > 0 {
        let w = weight(ws, i);
        let x = seats * w;
        lemma_share_nonneg(ws, seats, i);
        assert(x <= t * w) by (nonlinear_arith)
            requires
                x == seats * w,
                seats <= t,
                w >= 0,
        ;
        if extra(ws, seats, i) {
            lemma_extra_has_rem(ws, seats, i);
            assert(x / t < w) by (nonlinear_arith)
                requires
                    x == t * (x / t) + x % t,
                    x % t > 0,
                    x <= t * w,
                    t > 0,
            ;
        } else {
            assert(x / t <= w) by (nonlinear_arith)
                requires
                    x == t * (x / t) + x % t,
                    x % t >= 0,
                    x <= t * w,
                    t > 0,
            ;
        }
    }
}

/// A prefix of non-negative terms sums to at most the whole.
pub proof fn lemma_prefix_le(n: int, m: int, f: spec_fn(int) -> int)
    requires
        0 <= m <= n,
        forall|i: int| 0 <= i < n ==> #[trigger] f(i) >= 0,
    ensures
        sum_to(m, f) <= sum_to(n, f),
    decreases n - m,
{
    if m < n {
        lemma_prefix_le(n, m + 1, f);
    }
}

/// A key's floor is at most the floors' total, and a key with a
/// leftover seat leaves room for it in a `u64`.
pub proof fn lemma_share_room(ws: Seq<u64>, seats: int, i: int)
    requires
        total(ws) > 0,
        0 <= seats <= u64::MAX,
        0 <= i < ws.len(),
    ensures
        share(ws, seats, i) <= used(ws, seats),
        share(ws, seats, i) <= seats,
        extra(ws, seats, i) ==> share(ws, seats, i) + 1 <= u64::MAX,
{
    let n = ws.len() as int;
    let s = shares_f(ws, seats);
    lemma_leftover(ws, seats);
    assert forall|j: int| 0 <= j < n implies #[trigger] s(j) >= 0 by {
        lemma_share_nonneg(ws, seats, j);
    }
    let one = |j: int|
        if j == i {
            s(j)
        } else {
            0
        };
    assert forall|j: int| 0 <= j < n implies #[trigger] one(j) <= s(j) by {}
    lemma_sum_le(n, one, s);
    lemma_single(n, i, s(i));
    assert forall|j: int| 0 <= j < n implies #[trigger] one(j) == (if j == i {
        s(i)
    } else {
        0
    }) by {}
    lemma_sum_ext(n, one, |j: int| if j == i {
        s(i)
    } else {
        0
    });
    if extra(ws, seats, i) {
        lemma_rank_bound(ws, seats, i);
    }
}

/// A sum with one non-zero term is that term.
pub proof fn lemma_single(n: int, i: int, v: int)
    requires
        0 <= i < n,
    ensures
        sum_to(
            n,
            |j: int|
                if j == i {
                    v
                } else {
                    0
                },
        ) == v,
    decreases n,
{
    if n - 1 > i {
        lemma_single(n - 1, i, v);
    } else {
        lemma_zero(n - 1, i, v);
    }
}

proof fn lemma_zero(m: int, i: int, v: int)
    requires
        m <= i,
    ensures
        sum_to(
            m,
            |j: int|
                if j == i {
                    v
                } else {
                    0
                },
        ) == 0,
    decreases m,
{
    if m > 0 {
        lemma_zero(m - 1, i, v);
    }
}

/// The weights of a keyed list, in order.
pub open spec fn counts(weights: Seq<(String, u64)>) -> Seq<u64> {
    weights.map_values(|e: (String, u64)| e.1)
}

/// The keys of a keyed list, in order.
pub open spec fn weight_keys(weights: Seq<(String, u64)>) -> Seq<Chars> {
    weights.map_values(|e: (String, u64)| e.0@)
}

/// Largest-remainder apportionment of `seats` over `weights` (a map's
/// entries: keys ascending, each once): each key takes
/// floor(seats·w/Σw), the seats left go to the largest remainders, ties
/// to the lower key. A zero total leaves every key at 0.
pub fn largest_remainder(weights: &Vec<(String, u64)>, seats: u64) -> (out: Vec<(String, u64)>)
    requires
        canonical(weight_keys(weights@)),
        fits(counts(weights@), seats),
    ensures
        out@.len() == weights@.len(),
        forall|i: int|
            0 <= i < out@.len() ==> (#[trigger] out@[i]).0 == weights@[i].0 && out@[i].1 as int
                == apportion(counts(weights@), seats as int, i),
{
    let ghost ws = counts(weights@);
    let n = weights.len();
    proof {
        assert forall|j: int| 0 <= j < n implies #[trigger] weights_f(ws)(j) >= 0 by {}
    }
    let mut t: u64 = 0;
    let mut i: usize = 0;
    while i < n
        invariant
            n == weights@.len(),
            ws == counts(weights@),
            fits(ws, seats),
            forall|j: int| 0 <= j < n ==> #[trigger] weights_f(ws)(j) >= 0,
            i <= n,
            t as int == sum_to(i as int, weights_f(ws)),
        decreases n - i,
    {
        proof {
            lemma_prefix_le(n as int, i as int + 1, weights_f(ws));
            assert(weights@[i as int].1 == ws[i as int]);
        }
        t = t + weights[i].1;
        i += 1;
    }
    let mut out: Vec<(String, u64)> = Vec::new();
    if t == 0 {
        let mut i: usize = 0;
        while i < n
            invariant
                n == weights@.len(),
                ws == counts(weights@),
                total(ws) == 0,
                i <= n,
                out@.len() == i,
                forall|j: int|
                    0 <= j < i ==> (#[trigger] out@[j]).0 == weights@[j].0 && out@[j].1 as int
                        == apportion(ws, seats as int, j),
            decreases n - i,
        {
            out.push((weights[i].0.clone(), 0));
            i += 1;
        }
        return out;
    }
    proof {
        lemma_leftover(ws, seats as int);
        assert forall|j: int| 0 <= j < n implies #[trigger] shares_f(ws, seats as int)(j) >= 0 by {
            lemma_share_nonneg(ws, seats as int, j);
        }
    }
    // the floors and remainders
    let mut shares: Vec<u64> = Vec::new();
    let mut rems: Vec<u64> = Vec::new();
    let mut u: u64 = 0;
    let mut i: usize = 0;
    while i < n
        invariant
            n == weights@.len(),
            ws == counts(weights@),
            fits(ws, seats),
            t as int == total(ws),
            t > 0,
            0 <= used(ws, seats as int) <= seats,
            forall|j: int| 0 <= j < n ==> #[trigger] shares_f(ws, seats as int)(j) >= 0,
            i <= n,
            shares@.len() == i,
            rems@.len() == i,
            forall|j: int|
                0 <= j < i ==> shares@[j] as int == share(ws, seats as int, j) && rems@[j] as int
                    == rem(ws, seats as int, j),
            u as int == sum_to(i as int, shares_f(ws, seats as int)),
        decreases n - i,
    {
        assert(seats * ws[i as int] <= u64::MAX);
        assert(weights@[i as int].1 == ws[i as int]);
        let x: u64 = seats * weights[i].1;
        shares.push(x / t);
        rems.push(x % t);
        proof {
            lemma_prefix_le(n as int, i as int + 1, shares_f(ws, seats as int));
        }
        u = u + x / t;
        i += 1;
    }
    let k: u64 = seats - u;
    // each key's rank in the remainder order
    let mut i: usize = 0;
    while i < n
        invariant
            n == weights@.len(),
            ws == counts(weights@),
            t as int == total(ws),
            t > 0,
            i <= n,
            shares@.len() == n,
            rems@.len() == n,
            forall|j: int|
                0 <= j < n ==> shares@[j] as int == share(ws, seats as int, j) && rems@[j] as int
                    == rem(ws, seats as int, j),
            k as int == seats - used(ws, seats as int),
            out@.len() == i,
            forall|j: int|
                0 <= j < i ==> (#[trigger] out@[j]).0 == weights@[j].0 && out@[j].1 as int
                    == apportion(ws, seats as int, j),
        decreases n - i,
    {
        let mut r: usize = 0;
        let mut j: usize = 0;
        while j < n
            invariant
                n == weights@.len(),
                ws == counts(weights@),
                rems@.len() == n,
                forall|x: int| 0 <= x < n ==> rems@[x] as int == rem(ws, seats as int, x),
                i < n,
                j <= n,
                r <= j,
                r as int == count_to(j as int, before_f(ws, seats as int, i as int)),
            decreases n - j,
        {
            if rems[j] > rems[i] || (rems[j] == rems[i] && j < i) {
                r += 1;
            }
            j += 1;
        }
        proof {
            lemma_share_room(ws, seats as int, i as int);
        }
        let add: u64 = if (r as u64) < k {
            1
        } else {
            0
        };
        assert(r as int == rank(ws, seats as int, i as int));
        assert(add as int == (if extra(ws, seats as int, i as int) {
            1int
        } else {
            0int
        }));
        assert(shares[i as int] + add == apportion(ws, seats as int, i as int));
        let ghost before_push = out@;
        out.push((weights[i].0.clone(), shares[i] + add));
        assert(forall|j: int| 0 <= j < i ==> out@[j] == before_push[j]);
        i += 1;
    }
    out
}

} // verus!
