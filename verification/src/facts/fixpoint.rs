//! A bless is a fixed point: rendering a surface that a rendering has
//! just written rewrites nothing and notes nothing, as long as every
//! value the table hands out is one token of its chip's form that no
//! chip tag can be spelled around.

use super::chip::{
    chips_from, chips_ordered, chips_spec, is_sep, lemma_chips_from, lemma_render_current,
    lemma_runs_to, render_spec, render_upto, runs, runs_to, ChipModel, RenderState, CLOSE, OPEN,
};
use super::form::{form_of, token_char_spec, Form};
use crate::text::{at, find_from, lemma_find_from, value_for, value_from, Chars};
use vstd::prelude::*;

verus! {

/// The first occurrence at or after `from`, found where it stands.
proof fn lemma_find_first_from(s: Chars, pat: Chars, from: int, i: int)
    requires
        0 <= from <= i,
        at(s, pat, i),
        forall|j: int| from <= j < i ==> !at(s, pat, j),
    ensures
        find_from(s, pat, from) == Some(i),
    decreases i - from,
{
    if from < i {
        assert(!at(s, pat, from));
        lemma_find_first_from(s, pat, from + 1, i);
    }
}

/// Position `q` lies in one of the runs.
pub open spec fn in_runs(rs: Seq<(int, int)>, q: int) -> bool {
    exists|k: int| 0 <= k < rs.len() && (#[trigger] rs[k]).0 <= q < rs[k].1
}

/// Among the first `n` characters, the token characters are exactly
/// those the runs cover.
proof fn lemma_runs_cover(s: Chars, form: Form, zh: bool, n: int)
    requires
        0 <= n <= s.len(),
    ensures
        forall|q: int| 0 <= q < n ==> (token_char_spec(form, zh, #[trigger] s[q]) <==> in_runs(runs_to(s, form, zh, n), q)),
    decreases n,
{
    if n > 0 {
        lemma_runs_cover(s, form, zh, n - 1);
        lemma_runs_to(s, form, zh, n - 1);
        let r = runs_to(s, form, zh, n - 1);
        let now = runs_to(s, form, zh, n);
        if !token_char_spec(form, zh, s[n - 1]) {
            assert(now == r);
            assert(!in_runs(r, n - 1)) by {
                if in_runs(r, n - 1) {
                    let k = choose|k: int| 0 <= k < r.len() && (#[trigger] r[k]).0 <= n - 1 < r[k].1;
                    assert(r[k].1 <= n - 1);
                }
            }
        } else if n >= 2 && token_char_spec(form, zh, s[n - 2]) {
            let last = r.len() - 1;
            assert(r.last() == r[last]);
            assert forall|q: int| 0 <= q < n implies (token_char_spec(form, zh, #[trigger] s[q]) <==> in_runs(now, q)) by {
                if q == n - 1 {
                    assert(now[last].0 <= q < now[last].1);
                } else {
                    if in_runs(r, q) {
                        let k = choose|k: int| 0 <= k < r.len() && (#[trigger] r[k]).0 <= q < r[k].1;
                        assert(now[k].0 <= q < now[k].1);
                    }
                    if in_runs(now, q) {
                        let k = choose|k: int| 0 <= k < now.len() && (#[trigger] now[k]).0 <= q < now[k].1;
                        assert(r[k].0 <= q < r[k].1);
                    }
                }
            }
        } else {
            assert forall|q: int| 0 <= q < n implies (token_char_spec(form, zh, #[trigger] s[q]) <==> in_runs(now, q)) by {
                if q == n - 1 {
                    assert(now[r.len() as int].0 <= q < now[r.len() as int].1);
                } else {
                    if in_runs(r, q) {
                        let k = choose|k: int| 0 <= k < r.len() && (#[trigger] r[k]).0 <= q < r[k].1;
                        assert(now[k] == r[k]);
                    }
                    if in_runs(now, q) {
                        let k = choose|k: int| 0 <= k < now.len() && (#[trigger] now[k]).0 <= q < now[k].1;
                        if k < r.len() {
                            assert(now[k] == r[k]);
                        }
                    }
                }
            }
        }
    }
}

/// A text holding exactly one run holds token characters exactly there.
pub proof fn lemma_one_run(s: Chars, form: Form, zh: bool)
    requires
        runs(s, form, zh).len() == 1,
    ensures
        0 <= runs(s, form, zh)[0].0 < runs(s, form, zh)[0].1 <= s.len(),
        forall|q: int|
            0 <= q < s.len() ==> (token_char_spec(form, zh, #[trigger] s[q]) <==> runs(s, form, zh)[0].0 <= q
                < runs(s, form, zh)[0].1),
{
    let rs = runs(s, form, zh);
    lemma_runs_to(s, form, zh, s.len() as int);
    lemma_runs_cover(s, form, zh, s.len() as int);
    assert forall|q: int| 0 <= q < s.len() implies (token_char_spec(form, zh, #[trigger] s[q]) <==> rs[0].0 <= q
        < rs[0].1) by {
        if in_runs(rs, q) {
            let k = choose|k: int| 0 <= k < rs.len() && (#[trigger] rs[k]).0 <= q < rs[k].1;
            assert(k == 0);
        }
        if rs[0].0 <= q < rs[0].1 {
            assert(in_runs(rs, q));
        }
    }
}

/// Token characters exactly on `[a, b)` make one run, `(a, b)`.
proof fn lemma_runs_exact(s: Chars, form: Form, zh: bool, a: int, b: int, n: int)
    requires
        0 <= a < b <= s.len(),
        0 <= n <= s.len(),
        forall|q: int| 0 <= q < s.len() ==> (token_char_spec(form, zh, #[trigger] s[q]) <==> a <= q < b),
    ensures
        runs_to(s, form, zh, n) == if n <= a {
            Seq::<(int, int)>::empty()
        } else if n <= b {
            seq![(a, n)]
        } else {
            seq![(a, b)]
        },
    decreases n,
{
    if n > 0 {
        lemma_runs_exact(s, form, zh, a, b, n - 1);
        assert(token_char_spec(form, zh, s[n - 1]) <==> a <= n - 1 < b);
        if n >= 2 {
            assert(token_char_spec(form, zh, s[n - 2]) <==> a <= n - 2 < b);
        }
    }
}

/// A value the table gives is one of its entries.
proof fn lemma_value_from(table: Seq<(Chars, Chars)>, id: Chars, i: int)
    requires
        0 <= i,
    ensures
        value_from(table, id, i) matches Some(w) ==> exists|j: int| 0 <= j < table.len() && #[trigger] table[j] == (id, w),
    decreases table.len() - i,
{
    if i < table.len() {
        lemma_value_from(table, id, i + 1);
    }
}

/// What rendering has built after the first `k` chips.
pub open spec fn state(t: Chars, m: Seq<ChipModel>, k: int, label: Chars, zh: bool, table: Seq<(Chars, Chars)>) -> RenderState {
    render_upto(t, m, k, label, zh, table)->Ok_0
}

/// Chip `k`'s single run, as character bounds inside its span.
pub open spec fn run_of(t: Chars, c: ChipModel, zh: bool) -> (int, int) {
    runs(t.subrange(c.1, c.2), form_of(c.0)->0, zh)[0]
}

/// Rendering chip `k` onto the state after the first `k`.
proof fn lemma_chip_step(t: Chars, m: Seq<ChipModel>, k: int, label: Chars, zh: bool, table: Seq<(Chars, Chars)>)
    requires
        chips_ordered(t, m, 0),
        0 <= k < m.len(),
        render_upto(t, m, k + 1, label, zh, table) is Ok,
    ensures
        render_upto(t, m, k, label, zh, table) is Ok,
        form_of(m[k].0) is Some,
        runs(t.subrange(m[k].1, m[k].2), form_of(m[k].0)->0, zh).len() == 1,
        0 <= run_of(t, m[k], zh).0 < run_of(t, m[k], zh).1 <= m[k].2 - m[k].1,
        value_for(table, m[k].0) is Some,
        state(t, m, k + 1, label, zh, table).0 == state(t, m, k, label, zh, table).0 + t.subrange(
            state(t, m, k, label, zh, table).2,
            m[k].1 + run_of(t, m[k], zh).0,
        ) + value_for(table, m[k].0)->0,
        state(t, m, k + 1, label, zh, table).2 == m[k].1 + run_of(t, m[k], zh).1,
{
    if render_upto(t, m, k, label, zh, table) is Err {
        super::chip::lemma_render_err(t, m, k, k + 1, label, zh, table);
    }
    let body = t.subrange(m[k].1, m[k].2);
    lemma_runs_to(body, form_of(m[k].0)->0, zh, body.len() as int);
}

/// The states of a rendering that succeeds: each a prefix of the last,
/// each stopping inside the text and no later than the end of its
/// last chip.
proof fn lemma_states(t: Chars, m: Seq<ChipModel>, n: int, label: Chars, zh: bool, table: Seq<(Chars, Chars)>)
    requires
        chips_ordered(t, m, 0),
        0 <= n <= m.len(),
        render_upto(t, m, n, label, zh, table) is Ok,
    ensures
        forall|k: int| 0 <= k <= n ==> (#[trigger] render_upto(t, m, k, label, zh, table)) is Ok,
        forall|k: int|
            0 <= k <= n ==> (#[trigger] state(t, m, k, label, zh, table)).0.len() <= state(t, m, n, label, zh, table).0.len()
                && state(t, m, n, label, zh, table).0.take(state(t, m, k, label, zh, table).0.len() as int)
                == state(t, m, k, label, zh, table).0,
        forall|k: int|
            0 <= k <= n ==> 0 <= (#[trigger] state(t, m, k, label, zh, table)).2 <= t.len() && (k > 0
                ==> state(t, m, k, label, zh, table).2 <= m[k - 1].2) && (k == 0 ==> state(
                t,
                m,
                k,
                label,
                zh,
                table,
            ).2 == 0 && state(t, m, k, label, zh, table).0.len() == 0),
    decreases n,
{
    if n > 0 {
        lemma_chip_step(t, m, n - 1, label, zh, table);
        lemma_states(t, m, n - 1, label, zh, table);
        let prev = state(t, m, n - 1, label, zh, table);
        let now = state(t, m, n, label, zh, table);
        let c = m[n - 1];
        if n > 1 {
            assert(m[n - 2].2 <= c.1);
        }
        assert(prev.2 <= c.1);
        assert forall|k: int| 0 <= k <= n implies (#[trigger] state(t, m, k, label, zh, table)).0.len() <= now.0.len()
            && now.0.take(state(t, m, k, label, zh, table).0.len() as int) == state(t, m, k, label, zh, table).0 by {
            if k < n {
                let sk = state(t, m, k, label, zh, table);
                assert(prev.0.take(sk.0.len() as int) == sk.0);
                assert(now.0.take(sk.0.len() as int) =~= prev.0.take(sk.0.len() as int));
            } else {
                assert(now.0.take(now.0.len() as int) =~= now.0);
            }
        }
    }
}

/// Where a position of the text stands in the rendering, past the
/// first `k` chips.
pub open spec fn shift(t: Chars, m: Seq<ChipModel>, k: int, label: Chars, zh: bool, table: Seq<(Chars, Chars)>) -> int {
    state(t, m, k, label, zh, table).0.len() - state(t, m, k, label, zh, table).2
}

/// The rendered text.
pub open spec fn rendered(t: Chars, m: Seq<ChipModel>, label: Chars, zh: bool, table: Seq<(Chars, Chars)>) -> Chars {
    let st = state(t, m, m.len() as int, label, zh, table);
    st.0 + t.subrange(st.2, t.len() as int)
}

/// Before chip `k`'s token the rendering is the text, shifted; the
/// token is the chip's value.
#[verifier::spinoff_prover]
#[verifier::rlimit(50)]
proof fn lemma_pre(t: Chars, m: Seq<ChipModel>, k: int, label: Chars, zh: bool, table: Seq<(Chars, Chars)>)
    requires
        chips_ordered(t, m, 0),
        0 <= k < m.len(),
        render_upto(t, m, m.len() as int, label, zh, table) is Ok,
    ensures
        state(t, m, k, label, zh, table).2 <= m[k].1,
        forall|q: int|
            state(t, m, k, label, zh, table).2 <= q < m[k].1 + run_of(t, m[k], zh).0 ==> #[trigger] rendered(
                t,
                m,
                label,
                zh,
                table,
            )[q + shift(t, m, k, label, zh, table)] == t[q] && q + shift(t, m, k, label, zh, table) < rendered(
                t,
                m,
                label,
                zh,
                table,
            ).len(),
        forall|q: int|
            0 <= q < (value_for(table, m[k].0)->0).len() ==> rendered(t, m, label, zh, table)[m[k].1 + run_of(
                t,
                m[k],
                zh,
            ).0 + shift(t, m, k, label, zh, table) + q] == #[trigger] (value_for(table, m[k].0)->0)[q],
        shift(t, m, k + 1, label, zh, table) == shift(t, m, k, label, zh, table) + run_of(t, m[k], zh).0 + (
        value_for(table, m[k].0)->0).len() - run_of(t, m[k], zh).1,
        m[k].1 + run_of(t, m[k], zh).0 + shift(t, m, k, label, zh, table) + (value_for(table, m[k].0)->0).len()
            <= rendered(t, m, label, zh, table).len(),
{
    let n = m.len() as int;
    let sk = state(t, m, k, label, zh, table);
    let sk1 = state(t, m, k + 1, label, zh, table);
    let sn = state(t, m, n, label, zh, table);
    assert(render_upto(t, m, k + 1, label, zh, table) is Ok && sk1.0.len() <= sn.0.len() && sn.0.take(sk1.0.len() as int) == sk1.0
        && 0 <= sk.2 && (k > 0 ==> sk.2 <= m[k - 1].2) && (k == 0 ==> sk.2 == 0)) by {
        lemma_states(t, m, n, label, zh, table);
        assert(render_upto(t, m, k + 1, label, zh, table) is Ok);
        assert(render_upto(t, m, k, label, zh, table) is Ok);
    }
    lemma_chip_step(t, m, k, label, zh, table);
    let o = rendered(t, m, label, zh, table);
    if k > 0 {
        assert(m[k - 1].2 <= m[k].1);
    }
    assert(sk.2 <= m[k].1);
    let r = run_of(t, m[k], zh);
    let w = value_for(table, m[k].0)->0;
    assert(0 <= m[k].1 <= m[k].2 <= t.len());
    assert(m[k].1 + r.0 <= t.len());
    assert(sk1.0 == sk.0 + t.subrange(sk.2, m[k].1 + r.0) + w);
    assert(sk1.0.len() == sk.0.len() + (m[k].1 + r.0 - sk.2) + w.len());
    assert forall|q: int|
        sk.2 <= q < m[k].1 + r.0 implies #[trigger] o[q + shift(t, m, k, label, zh, table)] == t[q] && q + shift(t, m, k, label, zh, table) < o.len() by {
        let i = q + shift(t, m, k, label, zh, table);
        assert(i == sk.0.len() + (q - sk.2));
        assert(i < sk1.0.len());
        assert(o[i] == sn.0[i]);
        assert(sn.0[i] == sk1.0[i]);
    }
    assert forall|q: int| 0 <= q < w.len() implies o[m[k].1 + r.0 + shift(t, m, k, label, zh, table) + q] == #[trigger] w[q] by {
        let i = m[k].1 + r.0 + shift(t, m, k, label, zh, table) + q;
        assert(i == sk.0.len() + (m[k].1 + r.0 - sk.2) + q);
        assert(i < sk1.0.len());
        assert(o[i] == sn.0[i]);
        assert(sn.0[i] == sk1.0[i]);
    }
}

/// After the last chip's token the rendering is the text, shifted.
proof fn lemma_tail(t: Chars, m: Seq<ChipModel>, label: Chars, zh: bool, table: Seq<(Chars, Chars)>)
    requires
        chips_ordered(t, m, 0),
        render_upto(t, m, m.len() as int, label, zh, table) is Ok,
    ensures
        0 <= state(t, m, m.len() as int, label, zh, table).2 <= t.len(),
        rendered(t, m, label, zh, table).len() == t.len() + shift(t, m, m.len() as int, label, zh, table),
        forall|q: int|
            state(t, m, m.len() as int, label, zh, table).2 <= q < t.len() ==> #[trigger] rendered(
                t,
                m,
                label,
                zh,
                table,
            )[q + shift(t, m, m.len() as int, label, zh, table)] == t[q],
{
    let n = m.len() as int;
    lemma_states(t, m, n, label, zh, table);
    assert(render_upto(t, m, n, label, zh, table) is Ok);
    let sn = state(t, m, n, label, zh, table);
    assert(0 <= sn.2 <= t.len());
}

/// No tag can be spelled around a token that opens with `c`: in the
/// tag, `c` never follows a character that is no token character.
pub open spec fn tag_safe(tag: Chars, form: Form, zh: bool, c: char) -> bool {
    forall|i: int| 1 <= i < tag.len() && !token_char_spec(form, zh, #[trigger] tag[i - 1]) ==> tag[i] != c
}

/// A value a chip of `form` can carry and still read back as itself:
/// one token of the form, not opening or closing on a separator, that
/// no chip tag can be spelled around.
pub open spec fn value_ok(form: Form, zh: bool, w: Chars) -> bool {
    &&& w.len() > 0
    &&& forall|i: int| 0 <= i < w.len() ==> token_char_spec(form, zh, #[trigger] w[i])
    &&& !is_sep(w[0])
    &&& !is_sep(w.last())
    &&& tag_safe(OPEN@, form, zh, w[0])
    &&& tag_safe(CLOSE@, form, zh, w[0])
}

/// Splicing a token into a text spells no tag there that the text did
/// not already hold.
proof fn lemma_no_tag(
    x: Chars,
    y: Chars,
    tag: Chars,
    form: Form,
    zh: bool,
    w: Chars,
    p: int,
    lo: int,
    hi: int,
    rend: int,
    dl: int,
    dr: int,
)
    requires
        tag.len() >= 1,
        !token_char_spec(form, zh, tag[0]),
        w.len() > 0,
        forall|i: int| 0 <= i < w.len() ==> token_char_spec(form, zh, #[trigger] w[i]),
        tag_safe(tag, form, zh, w[0]),
        lo <= p,
        p + w.len() <= rend <= y.len(),
        forall|i: int| 0 <= i < w.len() ==> y[p + i] == #[trigger] w[i],
        forall|q: int| lo <= q < p ==> #[trigger] y[q] == x[q + dl],
        forall|q: int| p + w.len() <= q < rend ==> #[trigger] y[q] == x[q + dr],
        lo < p ==> !token_char_spec(form, zh, y[p - 1]),
        0 <= lo + dl,
        p + dl <= x.len(),
        0 <= p + w.len() + dr,
        rend + dr <= x.len(),
        hi - 1 + tag.len() <= rend,
        forall|j: int| lo <= j && j + tag.len() <= p ==> !#[trigger] at(x, tag, j + dl),
        forall|j: int| p + w.len() <= j && j + tag.len() <= rend ==> !#[trigger] at(x, tag, j + dr),
    ensures
        forall|j: int| lo <= j < hi ==> !#[trigger] at(y, tag, j),
{
    assert forall|j: int| lo <= j < hi implies !#[trigger] at(y, tag, j) by {
        if at(y, tag, j) {
            let n = tag.len() as int;
            assert forall|i: int| 0 <= i < n implies #[trigger] y[j + i] == tag[i] by {
                assert(y.subrange(j, j + n)[i] == tag[i]);
            }
            if j + n <= p {
                assert(x.subrange(j + dl, j + dl + n) =~= tag) by {
                    assert forall|i: int| 0 <= i < n implies #[trigger] x.subrange(j + dl, j + dl + n)[i] == tag[i] by {
                        assert(y[j + i] == x[j + i + dl]);
                    }
                }
                assert(at(x, tag, j + dl));
            } else if j >= p + w.len() {
                assert(x.subrange(j + dr, j + dr + n) =~= tag) by {
                    assert forall|i: int| 0 <= i < n implies #[trigger] x.subrange(j + dr, j + dr + n)[i] == tag[i] by {
                        assert(y[j + i] == x[j + i + dr]);
                    }
                }
                assert(at(x, tag, j + dr));
            } else if j >= p {
                assert(y[j + 0] == tag[0]);
                assert(y[p + (j - p)] == w[j - p]);
            } else {
                let i = p - j;
                assert(1 <= i < n);
                assert(y[j + i] == tag[i]);
                assert(y[j + (i - 1)] == tag[i - 1]);
                assert(y[p + 0] == w[0]);
                assert(!token_char_spec(form, zh, tag[i - 1]));
            }
        }
    }
}

/// The first occurrence, found again in a text that agrees on the
/// stretch searched.
proof fn lemma_find_shift(x: Chars, y: Chars, pat: Chars, i: int, f: int, d: int)
    requires
        0 <= i,
        0 <= i + d,
        find_from(x, pat, i) == Some(f),
        f + pat.len() + d <= y.len(),
        forall|q: int| i <= q < f + pat.len() ==> #[trigger] y[q + d] == x[q],
    ensures
        find_from(y, pat, i + d) == Some(f + d),
{
    lemma_find_from(x, pat, i);
    let n = pat.len() as int;
    assert(y.subrange(f + d, f + d + n) =~= pat) by {
        assert forall|k: int| 0 <= k < n implies #[trigger] y.subrange(f + d, f + d + n)[k] == pat[k] by {
            assert(y[(f + k) + d] == x[f + k]);
            assert(x.subrange(f, f + n)[k] == pat[k]);
        }
    }
    assert forall|j: int| i + d <= j < f + d implies !#[trigger] at(y, pat, j) by {
        if at(y, pat, j) {
            assert(x.subrange(j - d, j - d + n) =~= pat) by {
                assert forall|k: int| 0 <= k < n implies #[trigger] x.subrange(j - d, j - d + n)[k] == pat[k] by {
                    assert(y[(j - d + k) + d] == x[j - d + k]);
                    assert(y.subrange(j, j + n)[k] == pat[k]);
                }
            }
            assert(!at(x, pat, j - d));
        }
    }
    lemma_find_first_from(y, pat, i + d, f + d);
}

/// No occurrence, none again in a text that ends the same.
proof fn lemma_find_none_shift(x: Chars, y: Chars, pat: Chars, i: int, d: int)
    requires
        0 <= i,
        0 <= i + d,
        find_from(x, pat, i) is None,
        y.len() == x.len() + d,
        forall|q: int| i <= q < x.len() ==> #[trigger] y[q + d] == x[q],
    ensures
        find_from(y, pat, i + d) is None,
{
    lemma_find_from(x, pat, i);
    lemma_find_from(y, pat, i + d);
    if let Some(g) = find_from(y, pat, i + d) {
        let n = pat.len() as int;
        assert(x.subrange(g - d, g - d + n) =~= pat) by {
            assert forall|k: int| 0 <= k < n implies #[trigger] x.subrange(g - d, g - d + n)[k] == pat[k] by {
                assert(y[(g - d + k) + d] == x[g - d + k]);
                assert(y.subrange(g, g + n)[k] == pat[k]);
            }
        }
        assert(at(x, pat, g - d));
    }
}

/// Where reading chip `k` starts: the text's start, or just past the
/// closing tag of chip `k - 1`.
pub open spec fn start(m: Seq<ChipModel>, k: int) -> int {
    if k <= 0 {
        0
    } else {
        m[k - 1].2 + CLOSE@.len()
    }
}

/// The chips read from chip `k` on are the rest of the list.
proof fn lemma_chips_tail(t: Chars, m: Seq<ChipModel>, k: int)
    requires
        chips_spec(t) == Ok::<Seq<ChipModel>, super::chip::Fault>(m),
        0 <= k <= m.len(),
    ensures
        chips_from(t, start(m, k)) == Ok::<Seq<ChipModel>, super::chip::Fault>(m.skip(k)),
    decreases k,
{
    if k == 0 {
        assert(m.skip(0) =~= m);
    } else {
        lemma_chips_tail(t, m, k - 1);
        let p = start(m, k - 1);
        let rest = m.skip(k - 1);
        assert(rest.len() > 0);
        assert(rest[0] == m[k - 1]);
        match chips_from(t, p) {
            Ok(v) => {
                let o = find_from(t, OPEN@, p)->0;
                let e = find_from(t, super::chip::arrow(), o + OPEN@.len())->0;
                let b = find_from(t, CLOSE@, e + super::chip::arrow().len())->0;
                let r = chips_from(t, b + CLOSE@.len())->Ok_0;
                assert(chips_from(t, b + CLOSE@.len()) is Ok);
                assert(v == seq![(t.subrange(o + OPEN@.len(), e), e + super::chip::arrow().len(), b)] + r);
                assert(v == rest);
                assert(r =~= v.skip(1));
                assert(v.skip(1) =~= m.skip(k));
            },
            Err(_) => {},
        }
    }
}

proof fn lemma_tags()
    ensures
        OPEN@ == seq!['<', '!', '-', '-', 'c', 'e', ':'],
        CLOSE@ == seq!['<', '!', '-', '-', '/', 'c', 'e', '-', '-', '>'],
        super::chip::arrow() == seq!['-', '-', '>'],
{
    reveal_strlit("<!--ce:");
    reveal_strlit("<!--/ce-->");
    reveal_strlit("-->");
    assert(OPEN@ =~= seq!['<', '!', '-', '-', 'c', 'e', ':']);
    assert(CLOSE@ =~= seq!['<', '!', '-', '-', '/', 'c', 'e', '-', '-', '>']);
    assert(super::chip::arrow() =~= seq!['-', '-', '>']);
}

/// Where the opening tag of chip `k` stands.
pub open spec fn open_at(t: Chars, m: Seq<ChipModel>, k: int) -> int {
    find_from(t, OPEN@, start(m, k))->0
}

/// Where the arrow closing chip `k`'s opening tag stands.
pub open spec fn arrow_at(t: Chars, m: Seq<ChipModel>, k: int) -> int {
    find_from(t, super::chip::arrow(), open_at(t, m, k) + OPEN@.len())->0
}

/// How chip `k` was read off the text.
proof fn lemma_chip_parts(t: Chars, m: Seq<ChipModel>, k: int)
    requires
        chips_spec(t) == Ok::<Seq<ChipModel>, super::chip::Fault>(m),
        0 <= k < m.len(),
    ensures
        0 <= start(m, k) <= open_at(t, m, k),
        find_from(t, OPEN@, start(m, k)) == Some(open_at(t, m, k)),
        open_at(t, m, k) + 7 <= arrow_at(t, m, k),
        find_from(t, super::chip::arrow(), open_at(t, m, k) + 7) == Some(arrow_at(t, m, k)),
        m[k].0 == t.subrange(open_at(t, m, k) + 7, arrow_at(t, m, k)),
        m[k].1 == arrow_at(t, m, k) + 3,
        m[k].1 <= m[k].2,
        find_from(t, CLOSE@, m[k].1) == Some(m[k].2),
        find_from(t.subrange(m[k].1, m[k].2), OPEN@, 0) is None,
        m[k].2 + 10 <= t.len(),
        start(m, k + 1) == m[k].2 + 10,
{
    lemma_tags();
    lemma_chips_tail(t, m, k);
    lemma_chips_tail(t, m, k + 1);
    let p = start(m, k);
    if k > 0 {
        assert(m[k - 1].2 >= 0) by {
            lemma_chips_from(t, 0);
        }
    }
    assert(m.skip(k).len() > 0);
    assert(m.skip(k)[0] == m[k]);
    lemma_find_from(t, OPEN@, p);
    let o = open_at(t, m, k);
    lemma_find_from(t, super::chip::arrow(), o + 7);
    let e = arrow_at(t, m, k);
    lemma_find_from(t, CLOSE@, e + 3);
}

/// Around chip `k`'s token the rendering is the text, shifted; the
/// token is the chip's value.
#[verifier::spinoff_prover]
#[verifier::rlimit(50)]
proof fn lemma_around(t: Chars, m: Seq<ChipModel>, k: int, label: Chars, zh: bool, table: Seq<(Chars, Chars)>)
    requires
        chips_spec(t) == Ok::<Seq<ChipModel>, super::chip::Fault>(m),
        0 <= k < m.len(),
        render_upto(t, m, m.len() as int, label, zh, table) is Ok,
    ensures
        ({
            let o = rendered(t, m, label, zh, table);
            let (s, e) = (m[k].1, m[k].2);
            let (a, b) = run_of(t, m[k], zh);
            let w = value_for(table, m[k].0)->0;
            let d = shift(t, m, k, label, zh, table);
            let d1 = shift(t, m, k + 1, label, zh, table);
            &&& 0 <= a < b <= e - s
            &&& form_of(m[k].0) is Some
            &&& runs(t.subrange(s, e), form_of(m[k].0)->0, zh).len() == 1
            &&& value_for(table, m[k].0) is Some
            &&& d1 == d + a + w.len() - b
            &&& state(t, m, k, label, zh, table).2 <= start(m, k)
            &&& 0 <= start(m, k) + d
            &&& e + 10 + d1 <= o.len()
            &&& forall|q: int| start(m, k) <= q < s + a ==> #[trigger] o[q + d] == t[q]
            &&& forall|q: int| 0 <= q < w.len() ==> o[s + a + d + q] == #[trigger] w[q]
            &&& forall|q: int| s + b <= q < e + 10 ==> #[trigger] o[q + d1] == t[q]
        }),
{
    let n = m.len() as int;
    let o = rendered(t, m, label, zh, table);
    let d = shift(t, m, k, label, zh, table);
    let d1 = shift(t, m, k + 1, label, zh, table);
    let sk = state(t, m, k, label, zh, table);
    let sk1 = state(t, m, k + 1, label, zh, table);
    assert(chips_ordered(t, m, 0)) by {
        lemma_chips_from(t, 0);
    }
    assert(render_upto(t, m, k + 1, label, zh, table) is Ok && 0 <= sk.2 && (k > 0 ==> sk.2 <= m[k - 1].2) && (k
        == 0 ==> sk.2 == 0)) by {
        lemma_states(t, m, n, label, zh, table);
        assert(render_upto(t, m, k + 1, label, zh, table) is Ok);
        assert(render_upto(t, m, k, label, zh, table) is Ok);
    }
    assert(start(m, k) <= m[k].1 && m[k].2 + 10 <= t.len() && start(m, k + 1) == m[k].2 + 10) by {
        lemma_chip_parts(t, m, k);
    }
    lemma_chip_step(t, m, k, label, zh, table);
    lemma_pre(t, m, k, label, zh, table);
    assert(sk.2 <= start(m, k));
    assert(sk1.2 == m[k].1 + run_of(t, m[k], zh).1);
    if k + 1 < n {
        assert(m[k].2 + 10 <= m[k + 1].1) by {
            lemma_chip_parts(t, m, k + 1);
        }
        assert(run_of(t, m[k + 1], zh).0 >= 0) by {
            lemma_states(t, m, n, label, zh, table);
            assert(render_upto(t, m, k + 2, label, zh, table) is Ok);
            lemma_chip_step(t, m, k + 1, label, zh, table);
        }
        assert(forall|q: int| m[k].1 + run_of(t, m[k], zh).1 <= q < m[k].2 + 10 ==> #[trigger] o[q + d1] == t[q]
            && q + d1 < o.len()) by {
            lemma_pre(t, m, k + 1, label, zh, table);
            assert forall|q: int| m[k].1 + run_of(t, m[k], zh).1 <= q < m[k].2 + 10 implies #[trigger] o[q + d1] == t[q]
                && q + d1 < o.len() by {
                assert(sk1.2 <= q < m[k + 1].1 + run_of(t, m[k + 1], zh).0);
            }
        }
        let q = m[k].2 + 9;
        assert(o[q + d1] == t[q] && q + d1 < o.len());
    } else {
        lemma_tail(t, m, label, zh, table);
        assert(k + 1 == n);
        assert forall|q: int| m[k].1 + run_of(t, m[k], zh).1 <= q < m[k].2 + 10 implies #[trigger] o[q + d1] == t[q] by {
            assert(sk1.2 <= q < t.len());
        }
    }
}

proof fn lemma_lt_not_token(form: Form, zh: bool)
    ensures
        !token_char_spec(form, zh, '<'),
{
    reveal_strlit("〇一两二三四五六七八九十");
    let z = "〇一两二三四五六七八九十"@;
    assert(!z.contains('<')) by {
        assert forall|i: int| 0 <= i < z.len() implies z[i] != '<' by {
            assert(z =~= seq!['〇', '一', '两', '二', '三', '四', '五', '六', '七', '八', '九', '十']);
        }
    }
}

/// Chip `k` is read off the rendering where it was read off the text,
/// shifted: the same opening tag, id and arrow, and its closing tag
/// just past its token's new end.
#[verifier::spinoff_prover]
#[verifier::rlimit(50)]
proof fn lemma_chip_find(t: Chars, m: Seq<ChipModel>, k: int, label: Chars, zh: bool, table: Seq<(Chars, Chars)>)
    requires
        chips_spec(t) == Ok::<Seq<ChipModel>, super::chip::Fault>(m),
        0 <= k < m.len(),
        render_upto(t, m, m.len() as int, label, zh, table) is Ok,
        value_ok(form_of(m[k].0)->0, zh, value_for(table, m[k].0)->0),
    ensures
        ({
            let o = rendered(t, m, label, zh, table);
            let d = shift(t, m, k, label, zh, table);
            let d1 = shift(t, m, k + 1, label, zh, table);
            &&& find_from(o, OPEN@, start(m, k) + d) == Some(open_at(t, m, k) + d)
            &&& find_from(o, super::chip::arrow(), open_at(t, m, k) + OPEN@.len() + d) == Some(arrow_at(t, m, k) + d)
            &&& o.subrange(open_at(t, m, k) + OPEN@.len() + d, arrow_at(t, m, k) + d) == m[k].0
            &&& m[k].1 + d == arrow_at(t, m, k) + d + super::chip::arrow().len()
            &&& find_from(o, CLOSE@, m[k].1 + d) == Some(m[k].2 + d1)
            &&& start(m, k) + d < m[k].2 + d1 + CLOSE@.len() <= o.len()
            &&& 0 <= start(m, k) + d
        }),
{
    lemma_tags();
    lemma_chip_parts(t, m, k);
    lemma_around(t, m, k, label, zh, table);
    let o = rendered(t, m, label, zh, table);
    let d = shift(t, m, k, label, zh, table);
    let d1 = shift(t, m, k + 1, label, zh, table);
    let (s, e) = (m[k].1, m[k].2);
    let (a, b) = run_of(t, m[k], zh);
    let w = value_for(table, m[k].0)->0;
    let form = form_of(m[k].0)->0;
    let op = open_at(t, m, k);
    let ea = arrow_at(t, m, k);
    let st = start(m, k);
    assert forall|q: int| st <= q < op + 7 implies #[trigger] o[q + d] == t[q] by {
        assert(q < s + a);
    }
    lemma_find_shift(t, o, OPEN@, st, op, d);
    assert forall|q: int| op + 7 <= q < ea + 3 implies #[trigger] o[q + d] == t[q] by {
        assert(st <= q < s + a);
    }
    lemma_find_shift(t, o, super::chip::arrow(), op + 7, ea, d);
    assert(o.subrange(op + 7 + d, ea + d) =~= t.subrange(op + 7, ea)) by {
        assert forall|i: int| 0 <= i < ea - op - 7 implies #[trigger] o.subrange(op + 7 + d, ea + d)[i] == t.subrange(op + 7, ea)[i] by {
            assert(o[(op + 7 + i) + d] == t[op + 7 + i]);
        }
    }
    // the closing tag
    assert(o.subrange(e + d1, e + d1 + 10) =~= CLOSE@) by {
        lemma_find_from(t, CLOSE@, s);
        assert forall|i: int| 0 <= i < 10 implies #[trigger] o.subrange(e + d1, e + d1 + 10)[i] == CLOSE@[i] by {
            assert(o[(e + i) + d1] == t[e + i]);
            assert(t.subrange(e, e + 10)[i] == CLOSE@[i]);
        }
    }
    lemma_find_from(t, CLOSE@, s);
    lemma_lt_not_token(form, zh);
    let body = t.subrange(s, e);
    lemma_one_run(body, form, zh);
    if a > 0 {
        assert(body[a - 1] == t[s + a - 1]);
        assert(o[(s + a - 1) + d] == t[s + a - 1]);
    }
    assert forall|q: int| s + d <= q < s + a + d implies #[trigger] o[q] == t[q + (-d)] by {
        assert(o[(q - d) + d] == t[q - d]);
    }
    assert forall|q: int| s + a + d + w.len() <= q < e + d1 + 9 implies #[trigger] o[q] == t[q + (-d1)] by {
        assert(o[(q - d1) + d1] == t[q - d1]);
    }
    assert forall|i: int| 0 <= i < w.len() implies o[s + a + d + i] == #[trigger] w[i] by {}
    lemma_no_tag(t, o, CLOSE@, form, zh, w, s + a + d, s + d, e + d1, e + d1 + 9, -d, -d1);
    lemma_find_first_from(o, CLOSE@, s + d, e + d1);
}

/// Chip `k`'s span in the rendering holds one run, its value, and no
/// opening tag.
#[verifier::spinoff_prover]
#[verifier::rlimit(50)]
proof fn lemma_chip_body(t: Chars, m: Seq<ChipModel>, k: int, label: Chars, zh: bool, table: Seq<(Chars, Chars)>)
    requires
        chips_spec(t) == Ok::<Seq<ChipModel>, super::chip::Fault>(m),
        0 <= k < m.len(),
        render_upto(t, m, m.len() as int, label, zh, table) is Ok,
        value_ok(form_of(m[k].0)->0, zh, value_for(table, m[k].0)->0),
    ensures
        ({
            let o = rendered(t, m, label, zh, table);
            let d = shift(t, m, k, label, zh, table);
            let d1 = shift(t, m, k + 1, label, zh, table);
            let body = o.subrange(m[k].1 + d, m[k].2 + d1);
            let a = run_of(t, m[k], zh).0;
            let w = value_for(table, m[k].0)->0;
            &&& form_of(m[k].0) is Some
            &&& value_for(table, m[k].0) is Some
            &&& find_from(body, OPEN@, 0) is None
            &&& runs(body, form_of(m[k].0)->0, zh) == seq![(a, a + w.len())]
            &&& body.subrange(a, a + w.len()) == w
        }),
{
    lemma_tags();
    lemma_chip_parts(t, m, k);
    lemma_around(t, m, k, label, zh, table);
    let o = rendered(t, m, label, zh, table);
    let d = shift(t, m, k, label, zh, table);
    let d1 = shift(t, m, k + 1, label, zh, table);
    let (s, e) = (m[k].1, m[k].2);
    let (a, b) = run_of(t, m[k], zh);
    let w = value_for(table, m[k].0)->0;
    let form = form_of(m[k].0)->0;
    let body = t.subrange(s, e);
    let nb = o.subrange(s + d, e + d1);
    let dr = b - a - w.len();
    assert(nb.len() == body.len() - dr);
    assert(start(m, k) <= s);
    lemma_one_run(body, form, zh);
    lemma_lt_not_token(form, zh);
    assert forall|q: int| 0 <= q < a implies #[trigger] nb[q] == body[q + 0] by {
        assert(o[(s + q) + d] == t[s + q]);
    }
    assert forall|i: int| 0 <= i < w.len() implies nb[a + i] == #[trigger] w[i] by {
        assert(o[s + a + d + i] == w[i]);
    }
    assert forall|q: int| a + w.len() <= q < nb.len() implies #[trigger] nb[q] == body[q + dr] by {
        assert(o[(s + q + dr) + d1] == t[s + q + dr]);
    }
    assert forall|q: int| 0 <= q < nb.len() implies (token_char_spec(form, zh, #[trigger] nb[q]) <==> a <= q < a
        + w.len()) by {
        if q < a {
            assert(nb[q] == body[q + 0]);
        } else if q < a + w.len() {
            assert(nb[a + (q - a)] == w[q - a]);
        } else {
            assert(nb[q] == body[q + dr]);
        }
    }
    lemma_runs_exact(nb, form, zh, a, a + w.len(), nb.len() as int);
    assert(nb.subrange(a, a + w.len()) =~= w) by {
        assert forall|i: int| 0 <= i < w.len() implies #[trigger] nb.subrange(a, a + w.len())[i] == w[i] by {
            assert(nb[a + i] == w[i]);
        }
    }
    lemma_find_from(body, OPEN@, 0);
    if nb.len() >= 7 {
        lemma_no_tag(body, nb, OPEN@, form, zh, w, a, 0, nb.len() - 6, nb.len() as int, 0, dr);
    }
    lemma_find_from(nb, OPEN@, 0);
}

/// Past the last chip the text holds no opening tag.
proof fn lemma_no_more(t: Chars, p: int)
    requires
        0 <= p <= t.len(),
        chips_from(t, p) == Ok::<Seq<ChipModel>, super::chip::Fault>(Seq::empty()),
    ensures
        find_from(t, OPEN@, p) is None,
{
    lemma_tags();
    if let Some(o) = find_from(t, OPEN@, p) {
        lemma_find_from(t, OPEN@, p);
        let id_start = o + 7;
        if let Some(e) = find_from(t, super::chip::arrow(), id_start) {
            lemma_find_from(t, super::chip::arrow(), id_start);
            if let Some(b) = find_from(t, CLOSE@, e + 3) {
                lemma_find_from(t, CLOSE@, e + 3);
                assert(p < b + 10 <= t.len());
            }
        }
    }
}

/// The chips of the rendering: the text's, each shifted to where the
/// rendering holds it.
pub open spec fn moved(t: Chars, m: Seq<ChipModel>, label: Chars, zh: bool, table: Seq<(Chars, Chars)>) -> Seq<ChipModel> {
    Seq::new(
        m.len(),
        |k: int| (m[k].0, m[k].1 + shift(t, m, k, label, zh, table), m[k].2 + shift(t, m, k + 1, label, zh, table)),
    )
}

/// Every chip of the text carries a value that reads back as itself.
pub open spec fn values_ok(t: Chars, m: Seq<ChipModel>, zh: bool, table: Seq<(Chars, Chars)>) -> bool {
    forall|j: int| 0 <= j < m.len() ==> value_ok(form_of(#[trigger] m[j].0)->0, zh, value_for(table, m[j].0)->0)
}

/// Reading the rendering from where chip `k` stands gives the shifted
/// chips from `k` on.
proof fn lemma_reread(t: Chars, m: Seq<ChipModel>, k: int, label: Chars, zh: bool, table: Seq<(Chars, Chars)>)
    requires
        chips_spec(t) == Ok::<Seq<ChipModel>, super::chip::Fault>(m),
        render_upto(t, m, m.len() as int, label, zh, table) is Ok,
        values_ok(t, m, zh, table),
        0 <= k <= m.len(),
    ensures
        chips_from(rendered(t, m, label, zh, table), start(m, k) + shift(t, m, k, label, zh, table)) == Ok::<
            Seq<ChipModel>,
            super::chip::Fault,
        >(moved(t, m, label, zh, table).skip(k)),
    decreases m.len() - k,
{
    lemma_tags();
    let n = m.len() as int;
    let o = rendered(t, m, label, zh, table);
    let d = shift(t, m, k, label, zh, table);
    let mv = moved(t, m, label, zh, table);
    if k == n {
        lemma_chips_tail(t, m, n);
        assert(m.skip(n) =~= Seq::<ChipModel>::empty());
        let p = start(m, n);
        let sn = state(t, m, n, label, zh, table);
        assert(0 <= sn.2 && (n > 0 ==> sn.2 <= m[n - 1].2) && (n == 0 ==> sn.2 == 0)) by {
            lemma_chips_from(t, 0);
            lemma_states(t, m, n, label, zh, table);
        }
        assert(0 <= p <= t.len()) by {
            if n > 0 {
                lemma_chip_parts(t, m, n - 1);
            }
        }
        lemma_no_more(t, p);
        assert(chips_ordered(t, m, 0)) by {
            lemma_chips_from(t, 0);
        }
        lemma_tail(t, m, label, zh, table);
        assert(sn.2 <= p);
        assert forall|q: int| p <= q < t.len() implies #[trigger] o[q + d] == t[q] by {
            assert(sn.2 <= q < t.len());
        }
        lemma_find_none_shift(t, o, OPEN@, p, d);
        assert(mv.skip(n) =~= Seq::<ChipModel>::empty());
    } else {
        assert(value_ok(form_of(m[k].0)->0, zh, value_for(table, m[k].0)->0));
        lemma_chip_find(t, m, k, label, zh, table);
        lemma_chip_body(t, m, k, label, zh, table);
        lemma_chip_parts(t, m, k);
        lemma_reread(t, m, k + 1, label, zh, table);
        let p = start(m, k) + d;
        let d1 = shift(t, m, k + 1, label, zh, table);
        let rest = mv.skip(k + 1);
        assert(chips_from(o, p) == Ok::<Seq<ChipModel>, super::chip::Fault>(seq![(m[k].0, m[k].1 + d, m[k].2 + d1)] + rest));
        assert(seq![(m[k].0, m[k].1 + d, m[k].2 + d1)] + rest =~= mv.skip(k));
    }
}

/// Rendering the rendering chip by chip writes no note.
proof fn lemma_second(t: Chars, m: Seq<ChipModel>, k: int, label: Chars, zh: bool, table: Seq<(Chars, Chars)>)
    requires
        chips_spec(t) == Ok::<Seq<ChipModel>, super::chip::Fault>(m),
        render_upto(t, m, m.len() as int, label, zh, table) is Ok,
        values_ok(t, m, zh, table),
        0 <= k <= m.len(),
    ensures
        render_upto(rendered(t, m, label, zh, table), moved(t, m, label, zh, table), k, label, zh, table) matches Ok(
            st,
        ) && st.1.len() == 0,
    decreases k,
{
    if k > 0 {
        lemma_second(t, m, k - 1, label, zh, table);
        assert(value_ok(form_of(m[k - 1].0)->0, zh, value_for(table, m[k - 1].0)->0));
        lemma_chip_body(t, m, k - 1, label, zh, table);
        let w = value_for(table, m[k - 1].0)->0;
        assert(w[0] == w[0]);
        assert(w.last() == w[w.len() - 1]);
    }
}

/// A bless is a fixed point: where every value the table hands out is
/// one token of its id's form that opens and closes on no separator
/// and that no chip tag can be spelled around, rendering the surface a
/// rendering has just written gives it back unchanged and writes no
/// note.
pub proof fn lemma_bless_fixed_point(t: Chars, label: Chars, zh: bool, table: Seq<(Chars, Chars)>)
    requires
        render_spec(t, label, zh, table) is Ok,
        forall|i: int|
            0 <= i < table.len() ==> (form_of(#[trigger] table[i].0) matches Some(f) ==> value_ok(f, zh, table[i].1)),
    ensures
        render_spec(render_spec(t, label, zh, table)->Ok_0.0, label, zh, table) == Ok::<(Chars, Seq<Chars>), super::chip::Fault>(
            (render_spec(t, label, zh, table)->Ok_0.0, Seq::<Chars>::empty()),
        ),
{
    let m = chips_spec(t)->Ok_0;
    let n = m.len() as int;
    assert(chips_spec(t) is Ok);
    assert(render_upto(t, m, n, label, zh, table) is Ok);
    let o = rendered(t, m, label, zh, table);
    assert(render_spec(t, label, zh, table)->Ok_0.0 == o);
    assert(chips_ordered(t, m, 0)) by {
        lemma_chips_from(t, 0);
    }
    assert forall|j: int| 0 <= j < m.len() implies value_ok(form_of(#[trigger] m[j].0)->0, zh, value_for(table, m[j].0)->0) by {
        lemma_states(t, m, n, label, zh, table);
        assert(render_upto(t, m, j + 1, label, zh, table) is Ok);
        lemma_chip_step(t, m, j, label, zh, table);
        lemma_value_from(table, m[j].0, 0);
        let w = value_for(table, m[j].0)->0;
        let i = choose|i: int| 0 <= i < table.len() && #[trigger] table[i] == (m[j].0, w);
        assert(table[i].0 == m[j].0);
    }
    assert(state(t, m, 0, label, zh, table).2 == 0 && state(t, m, 0, label, zh, table).0.len() == 0) by {
        lemma_states(t, m, n, label, zh, table);
    }
    lemma_reread(t, m, 0, label, zh, table);
    let mv = moved(t, m, label, zh, table);
    assert(mv.skip(0) =~= mv);
    assert(chips_spec(o) == Ok::<Seq<ChipModel>, super::chip::Fault>(mv));
    lemma_second(t, m, n, label, zh, table);
    let st = render_upto(o, mv, n, label, zh, table)->Ok_0;
    assert(st.1 =~= Seq::<Chars>::empty());
    lemma_render_current(o, label, zh, table);
}

} // verus!
