//! What one in-zone landing records, the counts the ledger quotes, the
//! frozen row's own arithmetic and the ledger table.

use crate::text::{
    chars_of, concat, dec_chars, decimal, lemma_lex_refl, lemma_lex_total, lemma_lex_trans, lex_le, push_range,
    same, str_le, string_of, Chars,
};
use vstd::multiset::Multiset;
use vstd::prelude::*;

verus! {

/// The admission line as parts per million of events: one false
/// intercept per hundred real normal edits.
pub const GATE_PPM: u64 = 10000;

/// One in-zone landing: the write, the two lines it was measured
/// against, its position (per mille into the zone) and the tier the
/// map gave it. `shadowed`: the write also crossed the hard line, so
/// the hard-budget class decides and the zone's ask is moot.
pub struct Landed {
    pub sha: String,
    pub rel: String,
    pub lines: usize,
    pub soft: usize,
    pub hard: usize,
    pub permille: usize,
    pub tier: String,
    pub shadowed: bool,
}

pub open spec fn tier_is(t: Chars) -> spec_fn(Landed) -> bool {
    |r: Landed| r.tier@ == t
}

pub open spec fn shadowed_ask() -> spec_fn(Landed) -> bool {
    |r: Landed| r.tier@ == "ask"@ && r.shadowed
}

/// How many of the first `n` landings satisfy `p`.
pub open spec fn count_to(rows: Seq<Landed>, p: spec_fn(Landed) -> bool, n: int) -> nat
    decreases n,
{
    if n <= 0 {
        0
    } else {
        count_to(rows, p, n - 1) + if p(rows[n - 1]) {
            1nat
        } else {
            0nat
        }
    }
}

pub open spec fn count_spec(rows: Seq<Landed>, p: spec_fn(Landed) -> bool) -> nat {
    count_to(rows, p, rows.len() as int)
}

/// A stronger test never counts more.
pub proof fn lemma_count_mono(rows: Seq<Landed>, p: spec_fn(Landed) -> bool, q: spec_fn(Landed) -> bool, n: int)
    requires
        forall|r: Landed| #[trigger] p(r) ==> q(r),
        0 <= n <= rows.len(),
    ensures
        count_to(rows, p, n) <= count_to(rows, q, n),
        count_to(rows, q, n) <= n,
    decreases n,
{
    if n > 0 {
        lemma_count_mono(rows, p, q, n - 1);
    }
}

/// How many landings carry `tier`.
pub fn count(rows: &Vec<Landed>, tier: &str) -> (n: usize)
    ensures
        n == count_spec(rows@, tier_is(tier@)),
{
    let t = chars_of(tier);
    let mut n: usize = 0;
    let mut i: usize = 0;
    while i < rows.len()
        invariant
            i <= rows@.len(),
            t@ == tier@,
            n == count_to(rows@, tier_is(tier@), i as int),
            n <= i,
        decreases rows.len() - i,
    {
        if same(&chars_of(rows[i].tier.as_str()), &t) {
            n += 1;
        }
        i += 1;
    }
    n
}

/// Asks the hard budget already refuses — the zone decides nothing
/// there, so they are neither true nor false intercepts of this rule.
pub fn shadowed(rows: &Vec<Landed>) -> (n: usize)
    ensures
        n == count_spec(rows@, shadowed_ask()),
{
    let ask = chars_of("ask");
    let mut n: usize = 0;
    let mut i: usize = 0;
    while i < rows.len()
        invariant
            i <= rows@.len(),
            ask@ == "ask"@,
            n == count_to(rows@, shadowed_ask(), i as int),
            n <= i,
        decreases rows.len() - i,
    {
        if same(&chars_of(rows[i].tier.as_str()), &ask) && rows[i].shadowed {
            n += 1;
        }
        i += 1;
    }
    n
}

/// False asks: both corpora are all-normal by review, so every ask is
/// false except a shadowed one.
pub fn false_asks(rows: &Vec<Landed>) -> (n: usize)
    ensures
        n == count_spec(rows@, tier_is("ask"@)) - count_spec(rows@, shadowed_ask()),
{
    let a = count(rows, "ask");
    let s = shadowed(rows);
    proof {
        lemma_count_mono(rows@, shadowed_ask(), tier_is("ask"@), rows@.len() as int);
    }
    a - s
}

/// `s` left-padded with zeros to four characters.
pub open spec fn pad4(s: Chars) -> Chars {
    if s.len() >= 4 {
        s
    } else {
        Seq::new((4 - s.len()) as nat, |i: int| '0') + s
    }
}

/// A ppm as a percentage with four decimals, integer arithmetic only.
pub open spec fn pct_spec(ppm: nat) -> Chars {
    dec_chars(ppm / 10000) + seq!['.'] + pad4(dec_chars(ppm % 10000)) + " %"@
}

/// A ppm as a percentage with four decimals, integer arithmetic only.
pub fn pct(ppm: u64) -> (out: String)
    ensures
        out@ == pct_spec(ppm as nat),
{
    let mut v = decimal(ppm / 10000);
    v.push('.');
    let f = decimal(ppm % 10000);
    let mut k = f.len();
    let ghost start = v@;
    while k < 4
        invariant
            f.len() <= k <= 4 || (f.len() > 4 && k == f.len()),
            v@ == start + Seq::new((k - f.len()) as nat, |i: int| '0'),
        decreases 4 - k,
    {
        v.push('0');
        k += 1;
        assert(v@ =~= start + Seq::new((k - f.len()) as nat, |i: int| '0'));
    }
    let ghost mid = v@;
    push_range(&mut v, &f, 0, f.len());
    let sp = chars_of(" %");
    push_range(&mut v, &sp, 0, sp.len());
    proof {
        assert(f@.subrange(0, f@.len() as int) =~= f@);
        assert(sp@.subrange(0, sp@.len() as int) =~= sp@);
        if f@.len() >= 4 {
            assert(Seq::new((k - f.len()) as nat, |i: int| '0') =~= Seq::<char>::empty());
        }
        assert(v@ =~= pct_spec(ppm as nat));
    }
    string_of(&v)
}

/// One corpus's frozen ledger row: the raw counts of the walk, the
/// derived ones, the event rates, the soft-line histogram and the asks.
pub struct ZoneRow {
    pub name: String,
    pub tip: String,
    pub commits: usize,
    pub events: usize,
    pub events_shared: usize,
    pub config_unreadable_commits: usize,
    pub in_zone: usize,
    pub observe: usize,
    pub warn: usize,
    pub ask: usize,
    pub ask_shadowed: usize,
    pub false_asks: usize,
    pub rate_ppm: u64,
    pub cp_upper_ppm: u64,
    /// (soft line, events measured against it), by soft line.
    pub soft_lines: Vec<(usize, usize)>,
    pub intercepts: Vec<Landed>,
}

/// Why a frozen row's arithmetic does not close.
#[derive(Debug, Clone, Copy, PartialEq, Eq, Structural)]
pub enum Incoherent {
    /// No events, or more shared events than events.
    Events,
    /// More landings than events, or more shadowed asks than asks.
    Bounds,
    /// The soft-line histogram does not add up to the events.
    SoftLines,
    /// A derived number is not the one its raw counts give.
    Derived,
}

/// The events of a soft-line histogram.
pub open spec fn soft_total(s: Seq<(usize, usize)>) -> int
    decreases s.len(),
{
    if s.len() == 0 {
        0
    } else {
        soft_total(s.drop_last()) + s.last().1
    }
}

pub open spec fn shadowed_f() -> spec_fn(Landed) -> bool {
    |r: Landed| r.shadowed
}

/// The row's arithmetic closes against its own raw counts, and its two
/// rates are the ones given (recomputed from `false_asks` and
/// `events` by the rate functions).
pub open spec fn coherent_spec(c: ZoneRow, rate: u64, cp: u64) -> Result<(), Incoherent> {
    let hidden = count_spec(c.intercepts@, shadowed_f());
    if !(c.events > 0 && c.events_shared <= c.events) {
        Err(Incoherent::Events)
    } else if !(c.in_zone <= c.events && hidden <= c.ask) {
        Err(Incoherent::Bounds)
    } else if soft_total(c.soft_lines@) != c.events {
        Err(Incoherent::SoftLines)
    } else if c.observe + c.warn + c.ask == c.in_zone && c.intercepts@.len() == c.ask && hidden
        == c.ask_shadowed && c.ask - hidden == c.false_asks && rate == c.rate_ppm && cp
        == c.cp_upper_ppm {
        Ok(())
    } else {
        Err(Incoherent::Derived)
    }
}

/// A frozen row against its own raw counts: a hand-edited number
/// reddens. `rate` and `cp` are the event rate and its upper bound
/// recomputed from the row's false asks and events.
pub fn coherent(c: &ZoneRow, rate: u64, cp: u64) -> (r: Result<(), Incoherent>)
    ensures
        r == coherent_spec(*c, rate, cp),
{
    let mut hidden: usize = 0;
    let mut i: usize = 0;
    while i < c.intercepts.len()
        invariant
            i <= c.intercepts@.len(),
            hidden == count_to(c.intercepts@, shadowed_f(), i as int),
            hidden <= i,
        decreases c.intercepts.len() - i,
    {
        if c.intercepts[i].shadowed {
            hidden += 1;
        }
        i += 1;
    }
    if !(c.events > 0 && c.events_shared <= c.events) {
        return Err(Incoherent::Events);
    }
    if !(c.in_zone <= c.events && hidden <= c.ask) {
        return Err(Incoherent::Bounds);
    }
    let mut total: u128 = 0;
    let mut k: usize = 0;
    while k < c.soft_lines.len()
        invariant
            k <= c.soft_lines@.len(),
            total == soft_total(c.soft_lines@.take(k as int)),
            total <= k * (usize::MAX as int),
        decreases c.soft_lines.len() - k,
    {
        assert(c.soft_lines@.take(k + 1).drop_last() =~= c.soft_lines@.take(k as int));
        assert(total + c.soft_lines@[k as int].1 <= (k + 1) * (usize::MAX as int)) by (nonlinear_arith)
            requires
                total <= k * (usize::MAX as int),
                c.soft_lines@[k as int].1 <= usize::MAX,
        ;
        assert((k + 1) * (usize::MAX as int) <= u128::MAX) by (nonlinear_arith)
            requires
                k < usize::MAX,
                usize::MAX <= u64::MAX,
        ;
        total = total + c.soft_lines[k].1 as u128;
        k += 1;
    }
    assert(c.soft_lines@.take(c.soft_lines@.len() as int) =~= c.soft_lines@);
    if total != c.events as u128 {
        return Err(Incoherent::SoftLines);
    }
    let sum_ok = (c.observe as u128) + (c.warn as u128) + (c.ask as u128) == c.in_zone as u128;
    if sum_ok && c.intercepts.len() == c.ask && hidden == c.ask_shadowed && c.ask - hidden
        == c.false_asks && rate == c.rate_ppm && cp == c.cp_upper_ppm {
        Ok(())
    } else {
        Err(Incoherent::Derived)
    }
}

/// The ledger table's header and rule.
pub open spec fn table_head() -> Chars {
    "| 语料 | 提交 | 事件 | 同分母事件 | 落区 | observe | warn | ask | ask 被硬线遮蔽 | 误拦 ask | 率 | CP 95 % 上界 |\n|---|---|---|---|---|---|---|---|---|---|---|---|\n"@
}

/// One corpus's line of the ledger table.
pub open spec fn table_line(c: ZoneRow) -> Chars {
    line_head(c) + line_counts(c) + line_rates(c)
}

pub open spec fn line_head(c: ZoneRow) -> Chars {
    "| "@ + c.name@ + " @ "@ + c.tip@ + " | "@ + dec_chars(c.commits as nat) + " | "@ + dec_chars(
        c.events as nat,
    ) + " | "@ + dec_chars(c.events_shared as nat) + " | "@
}

pub open spec fn line_counts(c: ZoneRow) -> Chars {
    dec_chars(c.in_zone as nat) + " | "@ + dec_chars(c.observe as nat) + " | "@ + dec_chars(
        c.warn as nat,
    ) + " | "@ + dec_chars(c.ask as nat) + " | "@ + dec_chars(c.ask_shadowed as nat) + " | "@
}

pub open spec fn line_rates(c: ZoneRow) -> Chars {
    dec_chars(c.false_asks as nat) + " | "@ + pct_spec(c.rate_ppm as nat) + " | "@ + pct_spec(
        c.cp_upper_ppm as nat,
    ) + " |\n"@
}

fn push_head(v: &mut Vec<char>, c: &ZoneRow)
    ensures
        final(v)@ == old(v)@ + line_head(*c),
{
    let ghost start = v@;
    append(v, "| ");
    append(v, c.name.as_str());
    append(v, " @ ");
    append(v, c.tip.as_str());
    append(v, " | ");
    append_num(v, c.commits);
    append(v, " | ");
    append_num(v, c.events);
    append(v, " | ");
    append_num(v, c.events_shared);
    append(v, " | ");
    assert(v@ =~= start + line_head(*c));
}

fn push_counts(v: &mut Vec<char>, c: &ZoneRow)
    ensures
        final(v)@ == old(v)@ + line_counts(*c),
{
    let ghost start = v@;
    append_num(v, c.in_zone);
    append(v, " | ");
    append_num(v, c.observe);
    append(v, " | ");
    append_num(v, c.warn);
    append(v, " | ");
    append_num(v, c.ask);
    append(v, " | ");
    append_num(v, c.ask_shadowed);
    append(v, " | ");
    assert(v@ =~= start + line_counts(*c));
}

fn push_rates(v: &mut Vec<char>, c: &ZoneRow)
    ensures
        final(v)@ == old(v)@ + line_rates(*c),
{
    let ghost start = v@;
    append_num(v, c.false_asks);
    append(v, " | ");
    let r = pct(c.rate_ppm);
    append(v, r.as_str());
    append(v, " | ");
    let u = pct(c.cp_upper_ppm);
    append(v, u.as_str());
    append(v, " |\n");
    assert(v@ =~= start + line_rates(*c));
}

pub open spec fn table_lines(cs: Seq<ZoneRow>) -> Chars
    decreases cs.len(),
{
    if cs.len() == 0 {
        Seq::empty()
    } else {
        table_lines(cs.drop_last()) + table_line(cs.last())
    }
}

fn append(v: &mut Vec<char>, s: &str)
    ensures
        final(v)@ == old(v)@ + s@,
{
    let c = chars_of(s);
    push_range(v, &c, 0, c.len());
    assert(c@.subrange(0, c@.len() as int) =~= c@);
}

fn append_num(v: &mut Vec<char>, n: usize)
    ensures
        final(v)@ == old(v)@ + dec_chars(n as nat),
{
    let c = decimal(n as u64);
    push_range(v, &c, 0, c.len());
    assert(c@.subrange(0, c@.len() as int) =~= c@);
}

/// The ledger table the replay page carries — one row per corpus.
pub fn table(corpora: &Vec<ZoneRow>) -> (out: String)
    ensures
        out@ == table_head() + table_lines(corpora@),
{
    let mut v: Vec<char> = Vec::new();
    append(&mut v, "| 语料 | 提交 | 事件 | 同分母事件 | 落区 | observe | warn | ask | ask 被硬线遮蔽 | 误拦 ask | 率 | CP 95 % 上界 |\n|---|---|---|---|---|---|---|---|---|---|---|---|\n");
    let mut i: usize = 0;
    while i < corpora.len()
        invariant
            i <= corpora@.len(),
            v@ == table_head() + table_lines(corpora@.take(i as int)),
        decreases corpora.len() - i,
    {
        let c = &corpora[i];
        let ghost before = v@;
        push_head(&mut v, c);
        push_counts(&mut v, c);
        push_rates(&mut v, c);
        proof {
            assert(corpora@.take(i + 1).drop_last() =~= corpora@.take(i as int));
            assert(corpora@.take(i + 1).last() == *c);
            assert(v@ =~= before + table_line(*c));
        }
        i += 1;
    }
    assert(corpora@.take(corpora@.len() as int) =~= corpora@);
    string_of(&v)
}


/// Rows not of the given name.
pub open spec fn other_than(name: Chars) -> spec_fn(ZoneRow) -> bool {
    |c: ZoneRow| c.name@ != name
}

/// Rows in name order.
pub open spec fn by_name(cs: Seq<ZoneRow>) -> bool {
    forall|i: int, j: int| 0 <= i < j < cs.len() ==> lex_le((#[trigger] cs[i]).name@, (#[trigger] cs[j]).name@)
}

/// The rows of the frozen doc once a measured row has landed in it:
/// the row of the same name gone, the measured row in, every other row
/// as its own run left it, all in name order.
pub open spec fn merged(corpora: Seq<ZoneRow>, row: ZoneRow) -> Multiset<ZoneRow> {
    corpora.filter(other_than(row.name@)).to_multiset().insert(row)
}

/// The measured row into the frozen doc's rows: the row of the same
/// name is replaced and every other row stays as its own run left it,
/// because the corpora are separate runs; the rows in name order.
pub fn merge(corpora: Vec<ZoneRow>, row: ZoneRow) -> (out: Vec<ZoneRow>)
    ensures
        out@.to_multiset() == merged(corpora@, row),
        by_name(out@),
{
    let ghost start = corpora@;
    let ghost keep = other_than(row.name@);
    let name = chars_of(row.name.as_str());
    let mut rest = corpora;
    let mut kept: Vec<ZoneRow> = Vec::new();
    proof {
        broadcast use vstd::seq_lib::group_to_multiset_ensures;
        broadcast use vstd::multiset::group_multiset_axioms;
        assert(kept@.to_multiset() =~= Multiset::<ZoneRow>::empty());
        assert(kept@.to_multiset().add(rest@.filter(keep).to_multiset()) =~= start.filter(keep).to_multiset());
    }
    while rest.len() > 0
        invariant
            keep == other_than(row.name@),
            name@ == row.name@,
            kept@.to_multiset().add(rest@.filter(keep).to_multiset()) == start.filter(keep).to_multiset(),
        decreases rest.len(),
    {
        let ghost before = rest@;
        let c = rest.pop().unwrap();
        proof {
            broadcast use vstd::seq_lib::group_to_multiset_ensures;
            broadcast use vstd::multiset::group_multiset_axioms;
            assert(before =~= rest@.push(c));
            rest@.lemma_filter_push(c, keep);
        }
        if !same(&chars_of(c.name.as_str()), &name) {
            let ghost was = kept@;
            kept.push(c);
            proof {
                broadcast use vstd::seq_lib::group_to_multiset_ensures;
                broadcast use vstd::multiset::group_multiset_axioms;
                assert(keep(c));
                assert(kept@.to_multiset() =~= was.to_multiset().insert(c));
                assert(before.filter(keep).to_multiset() =~= rest@.filter(keep).to_multiset().insert(c));
                assert(kept@.to_multiset().add(rest@.filter(keep).to_multiset()) =~= was.to_multiset().add(
                    before.filter(keep).to_multiset(),
                ));
            }
        } else {
            proof {
                assert(!keep(c));
            }
        }
    }
    proof {
        broadcast use vstd::seq_lib::group_to_multiset_ensures;
        broadcast use vstd::multiset::group_multiset_axioms;
        assert(rest@.filter(keep) =~= Seq::<ZoneRow>::empty());
        assert(kept@.to_multiset() =~= start.filter(keep).to_multiset());
    }
    let ghost was = kept@;
    kept.push(row);
    proof {
        broadcast use vstd::seq_lib::group_to_multiset_ensures;
    }
    sort_by_name(kept)
}

/// The rows in name order: the same rows, each as often.
fn sort_by_name(v: Vec<ZoneRow>) -> (out: Vec<ZoneRow>)
    ensures
        by_name(out@),
        out@.to_multiset() == v@.to_multiset(),
{
    let ghost start = v@.to_multiset();
    let mut rest = v;
    let mut out: Vec<ZoneRow> = Vec::new();
    proof {
        broadcast use vstd::seq_lib::group_to_multiset_ensures;
        broadcast use vstd::multiset::group_multiset_axioms;
        assert(out@.to_multiset() =~= Multiset::<ZoneRow>::empty());
        assert(Multiset::<ZoneRow>::empty().add(rest@.to_multiset()) =~= rest@.to_multiset());
    }
    while rest.len() > 0
        invariant
            by_name(out@),
            forall|i: int, j: int|
                0 <= i < out@.len() && 0 <= j < rest@.len() ==> lex_le((#[trigger] out@[i]).name@, (#[trigger] rest@[j]).name@),
            out@.to_multiset().add(rest@.to_multiset()) == start,
        decreases rest.len(),
    {
        let mut m: usize = 0;
        let mut j: usize = 1;
        proof {
            lemma_lex_refl(rest@[0].name@);
        }
        while j < rest.len()
            invariant
                0 < rest@.len(),
                m < rest@.len(),
                1 <= j <= rest@.len(),
                forall|k: int| 0 <= k < j ==> lex_le(rest@[m as int].name@, (#[trigger] rest@[k]).name@),
            decreases rest.len() - j,
        {
            if !str_le(rest[m].name.as_str(), rest[j].name.as_str()) {
                proof {
                    let km = rest@[m as int].name@;
                    let kj = rest@[j as int].name@;
                    lemma_lex_total(km, kj);
                    assert forall|k: int| 0 <= k < j + 1 implies lex_le(kj, (#[trigger] rest@[k]).name@) by {
                        if k < j {
                            lemma_lex_trans(kj, km, rest@[k].name@);
                        } else {
                            lemma_lex_refl(kj);
                        }
                    }
                }
                m = j;
            }
            j += 1;
        }
        let ghost old_out = out@;
        let ghost old_rest = rest@;
        let x = rest.remove(m);
        out.push(x);
        proof {
            broadcast use vstd::seq_lib::group_to_multiset_ensures;
            broadcast use vstd::multiset::group_multiset_axioms;
            assert(old_rest.to_multiset() =~= rest@.to_multiset().insert(x));
            assert(out@.to_multiset() =~= old_out.to_multiset().insert(x));
            assert(out@.to_multiset().add(rest@.to_multiset()) =~= old_out.to_multiset().add(old_rest.to_multiset()));
            assert forall|i: int, k: int| 0 <= i < k < out@.len() implies lex_le(
                (#[trigger] out@[i]).name@,
                (#[trigger] out@[k]).name@,
            ) by {
                if k == out@.len() - 1 {
                    assert(out@[i] == old_out[i]);
                    assert(lex_le(old_out[i].name@, old_rest[m as int].name@));
                } else {
                    assert(out@[i] == old_out[i]);
                    assert(out@[k] == old_out[k]);
                }
            }
            assert forall|i: int, j: int|
                0 <= i < out@.len() && 0 <= j < rest@.len() implies lex_le(
                (#[trigger] out@[i]).name@,
                (#[trigger] rest@[j]).name@,
            ) by {
                let jj = if j < m { j } else { j + 1 };
                assert(rest@[j] == old_rest[jj]);
                if i < old_out.len() {
                    assert(out@[i] == old_out[i]);
                } else {
                    assert(out@[i] == old_rest[m as int]);
                }
            }
        }
    }
    proof {
        broadcast use vstd::seq_lib::group_to_multiset_ensures;
        broadcast use vstd::multiset::group_multiset_axioms;
        assert(rest@.to_multiset() =~= Multiset::<ZoneRow>::empty());
        assert(out@.to_multiset().add(Multiset::<ZoneRow>::empty()) =~= out@.to_multiset());
    }
    out
}

/// Landing a measured row twice is landing it once: the second merge
/// finds the row it replaces and leaves every other row as it was.
pub proof fn lemma_merge_twice(corpora: Seq<ZoneRow>, once: Seq<ZoneRow>, row: ZoneRow)
    requires
        once.to_multiset() == merged(corpora, row),
    ensures
        merged(once, row) == merged(corpora, row),
{
    broadcast use vstd::seq_lib::group_to_multiset_ensures;
    broadcast use vstd::multiset::group_multiset_axioms;

    let keep = other_than(row.name@);
    let before = corpora.filter(keep).to_multiset();
    assert forall|c: ZoneRow| #[trigger] once.filter(keep).to_multiset().count(c) == before.count(c) by {
        lemma_filter_count(once, keep, c);
        lemma_filter_count(corpora, keep, c);
        if c == row {
            assert(!keep(c));
        }
    }
    assert(once.filter(keep).to_multiset() =~= before);
}

/// How often a row stands in a filtered sequence.
proof fn lemma_filter_count(s: Seq<ZoneRow>, p: spec_fn(ZoneRow) -> bool, c: ZoneRow)
    ensures
        s.filter(p).to_multiset().count(c) == if p(c) {
            s.to_multiset().count(c)
        } else {
            0
        },
    decreases s.len(),
{
    broadcast use vstd::seq_lib::group_to_multiset_ensures;
    broadcast use vstd::multiset::group_multiset_axioms;

    if s.len() == 0 {
        assert(s.filter(p) =~= Seq::<ZoneRow>::empty());
        assert(s =~= Seq::<ZoneRow>::empty());
    } else {
        let init = s.drop_last();
        lemma_filter_count(init, p, c);
        assert(s =~= init.push(s.last()));
        init.lemma_filter_push(s.last(), p);
    }
}

} // verus!
