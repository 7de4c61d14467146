//! Scoring half of the near-miss clone precision instrument: the
//! verdict semantics and the clone verdict at an alternative threshold.

use crate::eval_support::tally::{count_each, keys_of, ones, sum_for, tallied};
use crate::text::{canon, canonical, chars_of, same, views, Chars};
use vstd::prelude::*;

verus! {

/// The larger of two sizes.
pub open spec fn larger(a: int, b: int) -> int {
    if a >= b {
        a
    } else {
        b
    }
}

/// A pair is a clone at threshold num/100 when the edit distance leaves
/// at least that share of the larger tree: `(max - ted)·100 ≥ num·max`.
pub open spec fn clone_at_spec(ted: int, n1: int, n2: int, num: int) -> bool {
    (larger(n1, n2) - ted) * 100 >= num * larger(n1, n2)
}

/// Clone verdict at an alternative threshold num/100 — the product's
/// integer cross-multiplication shape.
pub fn clone_at(ted: i64, n1: i64, n2: i64, num: i64) -> (b: bool)
    requires
        i64::MIN <= (larger(n1 as int, n2 as int) - ted) * 100 <= i64::MAX,
        i64::MIN <= num * larger(n1 as int, n2 as int) <= i64::MAX,
    ensures
        b == clone_at_spec(ted as int, n1 as int, n2 as int, num as int),
{
    let mx: i64 = if n1 >= n2 {
        n1
    } else {
        n2
    };
    assert(i64::MIN <= (mx - ted) * 100 <= i64::MAX) by (nonlinear_arith)
        requires
            i64::MIN <= (larger(n1 as int, n2 as int) - ted) * 100 <= i64::MAX,
            mx == larger(n1 as int, n2 as int),
    ;
    let d: i64 = mx - ted;
    d * 100 >= num * mx
}

/// The truths that make a judged-clone row correct: the copy-lineage
/// classes. `boilerplate` / `unrelated` / `generated` share no lineage
/// and stay wrong.
pub open spec fn correct_truth(t: Chars) -> bool {
    t == "clone"@ || t == "variant"@ || t == "t1t2"@
}

/// The stored verdict recomputed from its own row: a row over the cap
/// or a forest is dropped, a pair not judged a clone is `not_clone`,
/// and a judged clone is correct exactly when its truth shares lineage.
pub open spec fn verdict_spec(judgment: Chars, judged_clone: bool, truth: Chars) -> Chars {
    if judgment == "over_cap"@ || judgment == "forest"@ {
        "dropped"@
    } else if !judged_clone {
        "not_clone"@
    } else if correct_truth(truth) {
        "correct"@
    } else {
        "wrong"@
    }
}

/// The truths that credit a judged clone, as the list a reader keeps.
pub open spec fn correct_truths() -> Seq<Chars> {
    seq!["clone"@, "variant"@, "t1t2"@]
}

/// The verdict classes.
pub open spec fn verdict_names() -> Seq<Chars> {
    seq!["correct"@, "wrong"@, "not_clone"@, "dropped"@]
}

/// A row that is neither over the cap nor a forest and is judged a
/// clone is correct exactly when its truth is on the copy-lineage list
/// — the same truths the threshold table counts as correct — and wrong
/// otherwise; every verdict is one of the four classes, and a row is
/// dropped exactly when it is over the cap or a forest.
pub proof fn lemma_verdict_classes(judgment: Chars, judged_clone: bool, truth: Chars)
    ensures
        verdict_names().contains(verdict_spec(judgment, judged_clone, truth)),
        (verdict_spec(judgment, judged_clone, truth) == "dropped"@) <==> (judgment == "over_cap"@ || judgment
            == "forest"@),
        !(judgment == "over_cap"@ || judgment == "forest"@) ==> ((verdict_spec(judgment, judged_clone, truth)
            == "not_clone"@) <==> !judged_clone),
        !(judgment == "over_cap"@ || judgment == "forest"@) && judged_clone ==> {
            &&& (verdict_spec(judgment, judged_clone, truth) == "correct"@) <==> correct_truths().contains(truth)
            &&& (verdict_spec(judgment, judged_clone, truth) == "correct"@) <==> correct_truth(truth)
            &&& (verdict_spec(judgment, judged_clone, truth) == "wrong"@) <==> !correct_truths().contains(truth)
        },
{
    reveal_strlit("correct");
    reveal_strlit("wrong");
    reveal_strlit("not_clone");
    reveal_strlit("dropped");
    let v = verdict_spec(judgment, judged_clone, truth);
    if v == "correct"@ {
        assert(verdict_names()[0] == v);
    } else if v == "wrong"@ {
        assert(verdict_names()[1] == v);
    } else if v == "not_clone"@ {
        assert(verdict_names()[2] == v);
    } else {
        assert(verdict_names()[3] == v);
    }
    if truth == "clone"@ {
        assert(correct_truths()[0] == truth);
    } else if truth == "variant"@ {
        assert(correct_truths()[1] == truth);
    } else if truth == "t1t2"@ {
        assert(correct_truths()[2] == truth);
    }
    assert("correct"@[0] != "wrong"@[0]);
    assert("correct"@[0] != "dropped"@[0]);
    assert("wrong"@[0] != "dropped"@[0]);
    assert("not_clone"@[0] != "dropped"@[0]);
}

fn is(s: &Vec<char>, lit: &str) -> (b: bool)
    ensures
        b == (s@ == lit@),
{
    same(s, &chars_of(lit))
}

/// The stored verdict recomputed from its own row.
pub fn verdict_of(judgment: &str, judged_clone: bool, truth: &str) -> (v: &'static str)
    ensures
        v@ == verdict_spec(judgment@, judged_clone, truth@),
{
    let j = chars_of(judgment);
    let t = chars_of(truth);
    if is(&j, "over_cap") || is(&j, "forest") {
        "dropped"
    } else if !judged_clone {
        "not_clone"
    } else if is(&t, "clone") || is(&t, "variant") || is(&t, "t1t2") {
        "correct"
    } else {
        "wrong"
    }
}

/// The published threshold grid (numerators over 100).
pub open spec fn theta_grid() -> Seq<i64> {
    seq![70i64, 75i64, 80i64, 85i64, 90i64, 95i64, 100i64]
}

/// One scored sample row as the rescorer reads it: its tree edit
/// distance and the two tree sizes (none for a dropped row), its truth,
/// its stored verdict and its language.
pub struct T3Row {
    pub scored: Option<(i64, i64, i64)>,
    pub truth: String,
    pub verdict: String,
    pub lang: String,
}

/// A scored row whose sizes and distance stay within the machine's
/// integers at every threshold of the grid.
pub open spec fn fits(r: T3Row) -> bool {
    match r.scored {
        Some((ted, n1, n2)) => i64::MIN <= (larger(n1 as int, n2 as int) - ted) * 100 <= i64::MAX
            && -92233720368547758 <= larger(n1 as int, n2 as int) <= 92233720368547758,
        None => true,
    }
}

/// The rows judged clones at threshold `num`: (those whose truth is
/// correct, the rest).
pub open spec fn theta_counts(rows: Seq<T3Row>, num: int) -> (nat, nat)
    decreases rows.len(),
{
    if rows.len() == 0 {
        (0, 0)
    } else {
        let (c, w) = theta_counts(rows.drop_last(), num);
        let r = rows.last();
        match r.scored {
            Some((ted, n1, n2)) => if clone_at_spec(ted as int, n1 as int, n2 as int, num) {
                if correct_truth(r.truth@) {
                    (c + 1, w)
                } else {
                    (c, w + 1)
                }
            } else {
                (c, w)
            },
            None => (c, w),
        }
    }
}

proof fn lemma_theta_le(rows: Seq<T3Row>, num: int)
    ensures
        theta_counts(rows, num).0 + theta_counts(rows, num).1 <= rows.len(),
    decreases rows.len(),
{
    if rows.len() > 0 {
        lemma_theta_le(rows.drop_last(), num);
    }
}

/// Precision at every grid threshold over the scored rows only (a
/// dropped row has no distance to re-threshold): per θ, the judged
/// clones whose truth is correct and those whose truth is not; their
/// sum is the answered count.
pub fn theta_table(rows: &Vec<T3Row>) -> (out: Vec<(i64, u64, u64)>)
    requires
        forall|i: int| 0 <= i < rows@.len() ==> fits(#[trigger] rows@[i]),
    ensures
        out@.len() == 7,
        forall|g: int|
            0 <= g < 7 ==> (#[trigger] out@[g]).0 == theta_grid()[g] && (out@[g].1 as nat, out@[g].2 as nat)
                == theta_counts(rows@, theta_grid()[g] as int),
{
    let grid: [i64; 7] = [70, 75, 80, 85, 90, 95, 100];
    assert(grid@ =~= theta_grid());
    let mut out: Vec<(i64, u64, u64)> = Vec::new();
    let mut g: usize = 0;
    while g < 7
        invariant
            grid@ == theta_grid(),
            g <= 7,
            out@.len() == g,
            forall|i: int| 0 <= i < rows@.len() ==> fits(#[trigger] rows@[i]),
            forall|q: int|
                0 <= q < g ==> (#[trigger] out@[q]).0 == theta_grid()[q] && (out@[q].1 as nat, out@[q].2 as nat)
                    == theta_counts(rows@, theta_grid()[q] as int),
        decreases 7 - g,
    {
        let num = grid[g];
        assert(70 <= num <= 100);
        let mut correct: u64 = 0;
        let mut wrong: u64 = 0;
        let mut i: usize = 0;
        while i < rows.len()
            invariant
                70 <= num <= 100,
                forall|q: int| 0 <= q < rows@.len() ==> fits(#[trigger] rows@[q]),
                i <= rows@.len(),
                (correct as nat, wrong as nat) == theta_counts(rows@.take(i as int), num as int),
            decreases rows.len() - i,
        {
            proof {
                assert(rows@.take(i + 1).drop_last() =~= rows@.take(i as int));
                assert(rows@.take(i + 1).last() == rows@[i as int]);
                lemma_theta_le(rows@.take(i as int), num as int);
            }
            match rows[i].scored {
                Some((ted, n1, n2)) => {
                    assert(fits(rows@[i as int]));
                    let ghost mx = larger(n1 as int, n2 as int);
                    assert(i64::MIN <= num * mx <= i64::MAX) by (nonlinear_arith)
                        requires
                            70 <= num <= 100,
                            -92233720368547758 <= mx <= 92233720368547758,
                    ;
                    if clone_at(ted, n1, n2, num) {
                        if is(&chars_of(rows[i].truth.as_str()), "clone") || is(
                            &chars_of(rows[i].truth.as_str()),
                            "variant",
                        ) || is(&chars_of(rows[i].truth.as_str()), "t1t2") {
                            correct += 1;
                        } else {
                            wrong += 1;
                        }
                    }
                },
                None => {},
            }
            i += 1;
        }
        assert(rows@.take(rows@.len() as int) =~= rows@);
        let ghost before = out@;
        out.push((num, correct, wrong));
        assert forall|q: int|
            0 <= q < g + 1 implies (#[trigger] out@[q]).0 == theta_grid()[q] && (out@[q].1 as nat, out@[q].2 as nat)
                == theta_counts(rows@, theta_grid()[q] as int) by {
            if q < g {
                assert(out@[q] == before[q]);
            }
        }
        g += 1;
    }
    out
}


pub open spec fn verdicts_of(rows: Seq<T3Row>) -> Seq<Chars> {
    rows.map_values(|r: T3Row| r.verdict@)
}

pub open spec fn truths_of(rows: Seq<T3Row>) -> Seq<Chars> {
    rows.map_values(|r: T3Row| r.truth@)
}

pub open spec fn langs_of(rows: Seq<T3Row>) -> Seq<Chars> {
    rows.map_values(|r: T3Row| r.lang@)
}

/// The rows of one language.
pub open spec fn of_lang(rows: Seq<T3Row>, lang: Chars) -> Seq<T3Row> {
    rows.filter(|r: T3Row| r.lang@ == lang)
}

/// The whole summary of a scored sample, from its rows alone.
pub struct Rescore {
    /// Rows per verdict.
    pub verdicts: Vec<(String, u64)>,
    /// Rows per truth — every truth accounted for.
    pub by_truth: Vec<(String, u64)>,
    /// Per language, its rows per verdict.
    pub by_lang: Vec<(String, Vec<(String, u64)>)>,
    /// The answered denominator: correct and wrong rows.
    pub answered: u64,
    /// The cut table (`theta_table`).
    pub theta: Vec<(i64, u64, u64)>,
}

fn verdict_count(rows: &Vec<T3Row>, lit: &str) -> (n: u64)
    ensures
        n as int == sum_for(ones(verdicts_of(rows@)), lit@),
{
    let mut n: u64 = 0;
    let mut i: usize = 0;
    let len = rows.len();
    while i < len
        invariant
            len == rows@.len(),
            i <= len,
            n as int == sum_for(ones(verdicts_of(rows@.take(i as int))), lit@),
            n <= i,
        decreases len - i,
    {
        proof {
            assert(ones(verdicts_of(rows@.take(i + 1))).drop_last() =~= ones(verdicts_of(rows@.take(i as int))));
            assert(ones(verdicts_of(rows@.take(i + 1))).last() == (rows@[i as int].verdict@, 1u64));
        }
        if is(&chars_of(rows[i].verdict.as_str()), lit) {
            n = n + 1;
        }
        i += 1;
    }
    assert(rows@.take(len as int) =~= rows@);
    n
}

/// The verdicts of the rows of one language, in row order.
fn lang_verdicts(rows: &Vec<T3Row>, lang: &[char]) -> (out: Vec<String>)
    ensures
        views(out@) == verdicts_of(of_lang(rows@, lang@)),
{
    let ghost p = |r: T3Row| r.lang@ == lang@;
    let mut out: Vec<String> = Vec::new();
    let mut i: usize = 0;
    while i < rows.len()
        invariant
            p == (|r: T3Row| r.lang@ == lang@),
            i <= rows@.len(),
            views(out@) == verdicts_of(rows@.take(i as int).filter(p)),
        decreases rows.len() - i,
    {
        let ghost before = views(out@);
        proof {
            assert(rows@.take(i + 1) =~= rows@.take(i as int).push(rows@[i as int]));
            rows@.take(i as int).lemma_filter_push(rows@[i as int], p);
        }
        if same(&chars_of(rows[i].lang.as_str()), lang) {
            out.push(rows[i].verdict.clone());
            assert(views(out@) =~= before.push(rows@[i as int].verdict@));
            assert(verdicts_of(rows@.take(i + 1).filter(p)) =~= verdicts_of(rows@.take(i as int).filter(p)).push(
                rows@[i as int].verdict@,
            ));
        }
        i += 1;
    }
    assert(rows@.take(rows@.len() as int) =~= rows@);
    out
}

/// The whole summary from the rows alone — verdict tallies, truth
/// conservation, per-language verdicts, the answered denominator and
/// the θ cut table. A summary is written and checked through this one
/// function, so a cooked summary cannot exist.
pub fn rescore(rows: &Vec<T3Row>) -> (s: Rescore)
    requires
        forall|i: int| 0 <= i < rows@.len() ==> fits(#[trigger] rows@[i]),
    ensures
        tallied(s.verdicts@, ones(verdicts_of(rows@))),
        tallied(s.by_truth@, ones(truths_of(rows@))),
        canonical(s.by_lang@.map_values(|e: (String, Vec<(String, u64)>)| e.0@)),
        s.by_lang@.map_values(|e: (String, Vec<(String, u64)>)| e.0@).to_set() == langs_of(rows@).to_set(),
        forall|i: int|
            0 <= i < s.by_lang@.len() ==> tallied(
                (#[trigger] s.by_lang@[i]).1@,
                ones(verdicts_of(of_lang(rows@, s.by_lang@[i].0@))),
            ),
        s.answered as int == sum_for(ones(verdicts_of(rows@)), "correct"@) + sum_for(
            ones(verdicts_of(rows@)),
            "wrong"@,
        ),
        s.theta@.len() == 7,
        forall|g: int|
            0 <= g < 7 ==> (#[trigger] s.theta@[g]).0 == theta_grid()[g] && (s.theta@[g].1 as nat, s.theta@[g].2 as nat)
                == theta_counts(rows@, theta_grid()[g] as int),
{
    let n = rows.len();
    let mut verds: Vec<String> = Vec::new();
    let mut truths: Vec<String> = Vec::new();
    let mut langs: Vec<String> = Vec::new();
    let mut i: usize = 0;
    while i < n
        invariant
            n == rows@.len(),
            i <= n,
            views(verds@) == verdicts_of(rows@).take(i as int),
            views(truths@) == truths_of(rows@).take(i as int),
            views(langs@) == langs_of(rows@).take(i as int),
        decreases n - i,
    {
        let ghost (v0, t0, l0) = (views(verds@), views(truths@), views(langs@));
        verds.push(rows[i].verdict.clone());
        truths.push(rows[i].truth.clone());
        langs.push(rows[i].lang.clone());
        assert(views(verds@) =~= v0.push(rows@[i as int].verdict@));
        assert(views(truths@) =~= t0.push(rows@[i as int].truth@));
        assert(views(langs@) =~= l0.push(rows@[i as int].lang@));
        assert(verdicts_of(rows@).take(i + 1) =~= verdicts_of(rows@).take(i as int).push(rows@[i as int].verdict@));
        assert(truths_of(rows@).take(i + 1) =~= truths_of(rows@).take(i as int).push(rows@[i as int].truth@));
        assert(langs_of(rows@).take(i + 1) =~= langs_of(rows@).take(i as int).push(rows@[i as int].lang@));
        i += 1;
    }
    assert(verdicts_of(rows@).take(n as int) =~= verdicts_of(rows@));
    assert(truths_of(rows@).take(n as int) =~= truths_of(rows@));
    assert(langs_of(rows@).take(n as int) =~= langs_of(rows@));
    let verdicts = count_each(&verds);
    let by_truth = count_each(&truths);
    let keys = canon(langs);
    let ghost kv = views(keys@);
    let mut by_lang: Vec<(String, Vec<(String, u64)>)> = Vec::new();
    let mut k: usize = 0;
    while k < keys.len()
        invariant
            kv == views(keys@),
            k <= keys@.len(),
            by_lang@.map_values(|e: (String, Vec<(String, u64)>)| e.0@) == kv.take(k as int),
            forall|t: int|
                0 <= t < by_lang@.len() ==> tallied(
                    (#[trigger] by_lang@[t]).1@,
                    ones(verdicts_of(of_lang(rows@, by_lang@[t].0@))),
                ),
        decreases keys.len() - k,
    {
        let lang = chars_of(keys[k].as_str());
        let vs = lang_verdicts(rows, &lang);
        let tally = count_each(&vs);
        let ghost before = by_lang@;
        by_lang.push((keys[k].clone(), tally));
        proof {
            assert(by_lang@.map_values(|e: (String, Vec<(String, u64)>)| e.0@) =~= before.map_values(
                |e: (String, Vec<(String, u64)>)| e.0@,
            ).push(kv[k as int]));
            assert(kv.take(k + 1) =~= kv.take(k as int).push(kv[k as int]));
            assert forall|t: int| 0 <= t < by_lang@.len() implies tallied(
                (#[trigger] by_lang@[t]).1@,
                ones(verdicts_of(of_lang(rows@, by_lang@[t].0@))),
            ) by {
                if t < before.len() {
                    assert(by_lang@[t] == before[t]);
                }
            }
        }
        k += 1;
    }
    assert(kv.take(keys@.len() as int) =~= kv);
    let correct = verdict_count(rows, "correct");
    let wrong = verdict_count(rows, "wrong");
    proof {
        reveal_strlit("correct");
        reveal_strlit("wrong");
        assert("correct"@.len() != "wrong"@.len());
        crate::eval_support::tally::lemma_sum_for_two(ones(verdicts_of(rows@)), "correct"@, "wrong"@);
        crate::eval_support::tally::lemma_ones_total(verdicts_of(rows@));
    }
    let answered = correct + wrong;
    let theta = theta_table(rows);
    Rescore { verdicts, by_truth, by_lang, answered, theta }
}

} // verus!
