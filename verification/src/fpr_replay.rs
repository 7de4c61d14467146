//! One edit event of the duplicate-write replay, read against its
//! parent: the probe's matches on the child and on the parent content
//! come in as plain values; the guard's novelty split, the shared
//! tokens per twin and the event's intercept rows are worked out here,
//! and so is the fate of a row once the commit is whole.

use crate::fpr_replay_parts::{class_spec, pair, pair_spec, Class, Intercept};
use crate::text::{canon, canonical, chars_of, same, slice_vec, string_of, views, Chars};
use vstd::prelude::*;

verus! {

/// One verified run the probe reports: the twin file, the twin region's
/// lines, and the tokens it shares.
pub struct Match {
    pub file: String,
    pub start_line: usize,
    pub end_line: usize,
    pub tokens: usize,
}

/// A match as its twin, its region's first and last line, its tokens.
pub type MatchModel = (Chars, int, int, int);

pub open spec fn match_view(m: Match) -> MatchModel {
    (m.file@, m.start_line as int, m.end_line as int, m.tokens as int)
}

pub open spec fn matches_view(ms: Seq<Match>) -> Seq<MatchModel> {
    ms.map_values(|m: Match| match_view(m))
}

/// A child match whose twin region overlaps one the parent content
/// already had with the same twin: carried forward, not written anew.
pub open spec fn carried(parent: Seq<MatchModel>, m: MatchModel) -> bool {
    exists|k: int|
        0 <= k < parent.len() && (#[trigger] parent[k]).0 == m.0 && parent[k].1 <= m.2 && m.1
            <= parent[k].2
}

/// The child's matches the parent content did not already have.
pub open spec fn novel_spec(child: Seq<MatchModel>, parent: Seq<MatchModel>) -> Seq<MatchModel>
    decreases child.len(),
{
    if child.len() == 0 {
        Seq::empty()
    } else if carried(parent, child.last()) {
        novel_spec(child.drop_last(), parent)
    } else {
        novel_spec(child.drop_last(), parent).push(child.last())
    }
}

fn copy_match(m: &Match) -> (out: Match)
    ensures
        match_view(out) == match_view(*m),
{
    Match {
        file: string_of(&chars_of(m.file.as_str())),
        start_line: m.start_line,
        end_line: m.end_line,
        tokens: m.tokens,
    }
}

proof fn lemma_view_nonneg(ms: Seq<Match>)
    ensures
        forall|k: int| 0 <= k < matches_view(ms).len() ==> (#[trigger] matches_view(ms)[k]).3 >= 0,
{
    assert forall|k: int| 0 <= k < matches_view(ms).len() implies (#[trigger] matches_view(ms)[k]).3
        >= 0 by {
        assert(matches_view(ms)[k] == match_view(ms[k]));
    }
}

/// The guard's split: the child's matches whose twin region overlaps
/// none the parent's own content already had with that twin.
pub fn novel(child: &Vec<Match>, parent: &Vec<Match>) -> (out: Vec<Match>)
    ensures
        matches_view(out@) == novel_spec(matches_view(child@), matches_view(parent@)),
{
    let ghost cv = matches_view(child@);
    let ghost pv = matches_view(parent@);
    let mut out: Vec<Match> = Vec::new();
    let mut i: usize = 0;
    while i < child.len()
        invariant
            cv == matches_view(child@),
            pv == matches_view(parent@),
            i <= child@.len(),
            matches_view(out@) == novel_spec(cv.take(i as int), pv),
        decreases child.len() - i,
    {
        let m = &child[i];
        proof {
            assert(cv.take(i + 1).drop_last() =~= cv.take(i as int));
            assert(cv.take(i + 1).last() == match_view(*m));
        }
        let f = chars_of(m.file.as_str());
        let mut hit = false;
        let mut k: usize = 0;
        while k < parent.len()
            invariant
                pv == matches_view(parent@),
                f@ == m.file@,
                k <= parent@.len(),
                hit <==> exists|j: int|
                    0 <= j < k && (#[trigger] pv[j]).0 == m.file@ && pv[j].1 <= m.end_line && m.start_line
                        <= pv[j].2,
            decreases parent.len() - k,
        {
            let b = &parent[k];
            assert(pv[k as int] == match_view(*b));
            if same(&chars_of(b.file.as_str()), &f) && b.start_line <= m.end_line && m.start_line
                <= b.end_line {
                hit = true;
            }
            k += 1;
        }
        let ghost before = matches_view(out@);
        if !hit {
            out.push(copy_match(m));
            assert(matches_view(out@) =~= before.push(match_view(*m)));
        }
        i += 1;
    }
    assert(cv.take(child@.len() as int) =~= cv);
    out
}

/// The tokens the matches share with twin `f`, summed over every run.
pub open spec fn shared_of(ms: Seq<MatchModel>, f: Chars) -> int
    decreases ms.len(),
{
    if ms.len() == 0 {
        0
    } else {
        shared_of(ms.drop_last(), f) + if ms.last().0 == f {
            ms.last().3
        } else {
            0
        }
    }
}

/// All the tokens the matches share.
pub open spec fn all_tokens(ms: Seq<MatchModel>) -> int
    decreases ms.len(),
{
    if ms.len() == 0 {
        0
    } else {
        all_tokens(ms.drop_last()) + ms.last().3
    }
}

/// The twins of the matches.
pub open spec fn twins(ms: Seq<MatchModel>) -> Seq<Chars> {
    ms.map_values(|m: MatchModel| m.0)
}

proof fn lemma_shared_bounds(ms: Seq<MatchModel>, f: Chars)
    requires
        forall|k: int| 0 <= k < ms.len() ==> (#[trigger] ms[k]).3 >= 0,
    ensures
        0 <= shared_of(ms, f) <= all_tokens(ms),
    decreases ms.len(),
{
    if ms.len() > 0 {
        lemma_shared_bounds(ms.drop_last(), f);
    }
}

proof fn lemma_novel_within(child: Seq<MatchModel>, parent: Seq<MatchModel>, f: Chars)
    requires
        forall|k: int| 0 <= k < child.len() ==> (#[trigger] child[k]).3 >= 0,
    ensures
        0 <= shared_of(novel_spec(child, parent), f) <= shared_of(child, f),
        all_tokens(novel_spec(child, parent)) <= all_tokens(child),
        forall|k: int|
            0 <= k < novel_spec(child, parent).len() ==> (#[trigger] novel_spec(child, parent)[k]).3
                >= 0,
        forall|x: Chars| twins(novel_spec(child, parent)).contains(x) ==> twins(child).contains(x),
    decreases child.len(),
{
    if child.len() > 0 {
        lemma_novel_within(child.drop_last(), parent, f);
        let n0 = novel_spec(child.drop_last(), parent);
        let n = novel_spec(child, parent);
        let c = child.last();
        if !carried(parent, c) {
            assert(n.drop_last() =~= n0);
            assert(n.last() == c);
        } else {
            assert(n == n0);
        }
        assert forall|k: int| 0 <= k < n.len() implies (#[trigger] n[k]).3 >= 0 by {
            if k < n0.len() {
                assert(n[k] == n0[k]);
            } else {
                assert(child[child.len() - 1] == c);
            }
        }
        assert forall|x: Chars| twins(n).contains(x) implies twins(child).contains(x) by {
            let j = choose|j: int| 0 <= j < twins(n).len() && twins(n)[j] == x;
            if j < n0.len() {
                assert(n[j] == n0[j]);
                assert(twins(n0)[j] == x);
                assert(twins(n0).contains(x));
                assert(twins(child.drop_last()).contains(x));
                let i = choose|i: int| 0 <= i < twins(child.drop_last()).len() && twins(
                    child.drop_last(),
                )[i] == x;
                assert(child.drop_last()[i] == child[i]);
                assert(twins(child)[i] == x);
            } else {
                assert(twins(child)[child.len() - 1] == x);
            }
        }
    }
}

/// Shared tokens per twin, the twins sorted, each once — the quantity an
/// extension grows and a move leaves alone.
pub fn shared(ms: &Vec<Match>) -> (out: Vec<(String, usize)>)
    requires
        all_tokens(matches_view(ms@)) <= usize::MAX,
    ensures
        canonical(out@.map_values(|e: (String, usize)| e.0@)),
        out@.map_values(|e: (String, usize)| e.0@).to_set() == twins(matches_view(ms@)).to_set(),
        forall|i: int|
            0 <= i < out@.len() ==> (#[trigger] out@[i]).1 as int == shared_of(
                matches_view(ms@),
                out@[i].0@,
            ),
{
    let ghost mv = matches_view(ms@);
    proof {
        lemma_view_nonneg(ms@);
    }
    let mut names: Vec<String> = Vec::new();
    let mut i: usize = 0;
    while i < ms.len()
        invariant
            mv == matches_view(ms@),
            i <= ms@.len(),
            views(names@) == twins(mv).take(i as int),
        decreases ms.len() - i,
    {
        let ghost before = views(names@);
        names.push(string_of(&chars_of(ms[i].file.as_str())));
        assert(views(names@) =~= before.push(ms@[i as int].file@));
        assert(mv[i as int] == match_view(ms@[i as int]));
        assert(twins(mv).take(i + 1) =~= twins(mv).take(i as int).push(ms@[i as int].file@));
        i += 1;
    }
    assert(twins(mv).take(ms@.len() as int) =~= twins(mv));
    let keys = canon(names);
    let mut out: Vec<(String, usize)> = Vec::new();
    let mut k: usize = 0;
    while k < keys.len()
        invariant
            mv == matches_view(ms@),
            all_tokens(mv) <= usize::MAX,
            forall|q: int| 0 <= q < mv.len() ==> (#[trigger] mv[q]).3 >= 0,
            canonical(views(keys@)),
            views(keys@).to_set() == twins(mv).to_set(),
            k <= keys@.len(),
            out@.map_values(|e: (String, usize)| e.0@) == views(keys@).take(k as int),
            forall|j: int|
                0 <= j < out@.len() ==> (#[trigger] out@[j]).1 as int == shared_of(mv, out@[j].0@),
        decreases keys.len() - k,
    {
        let key = chars_of(keys[k].as_str());
        let mut sum: usize = 0;
        let mut j: usize = 0;
        proof {
            lemma_shared_bounds(mv, key@);
        }
        while j < ms.len()
            invariant
                mv == matches_view(ms@),
                all_tokens(mv) <= usize::MAX,
                forall|q: int| 0 <= q < mv.len() ==> (#[trigger] mv[q]).3 >= 0,
                j <= ms@.len(),
                sum as int == shared_of(mv.take(j as int), key@),
                shared_of(mv, key@) <= all_tokens(mv),
            decreases ms.len() - j,
        {
            proof {
                assert(mv.take(j + 1).drop_last() =~= mv.take(j as int));
                assert(mv.take(j + 1).last() == match_view(ms@[j as int]));
                lemma_shared_prefix(mv, key@, j + 1);
            }
            if same(&chars_of(ms[j].file.as_str()), &key) {
                sum = sum + ms[j].tokens;
            }
            j += 1;
        }
        assert(mv.take(ms@.len() as int) =~= mv);
        let ghost before = out@.map_values(|e: (String, usize)| e.0@);
        let ghost old_out = out@;
        out.push((string_of(&key), sum));
        proof {
            assert(out@.map_values(|e: (String, usize)| e.0@) =~= before.push(key@));
            assert(views(keys@)[k as int] == key@);
            assert(views(keys@).take(k + 1) =~= views(keys@).take(k as int).push(key@));
            assert forall|j: int| 0 <= j < out@.len() implies (#[trigger] out@[j]).1 as int
                == shared_of(mv, out@[j].0@) by {
                if j < old_out.len() {
                    assert(out@[j] == old_out[j]);
                }
            }
        }
        k += 1;
    }
    assert(views(keys@).take(keys@.len() as int) =~= views(keys@));
    out
}

/// The shared tokens of a prefix never pass those of the whole.
proof fn lemma_shared_prefix(ms: Seq<MatchModel>, f: Chars, n: int)
    requires
        0 <= n <= ms.len(),
        forall|k: int| 0 <= k < ms.len() ==> (#[trigger] ms[k]).3 >= 0,
    ensures
        shared_of(ms.take(n), f) <= shared_of(ms, f),
    decreases ms.len() - n,
{
    if n < ms.len() {
        lemma_shared_prefix(ms, f, n + 1);
        assert(ms.take(n + 1).drop_last() =~= ms.take(n));
    } else {
        assert(ms.take(n) =~= ms);
    }
}

/// The tokens the matches share with one twin.
pub fn tokens_with(ms: &Vec<Match>, f: &[char]) -> (n: usize)
    requires
        all_tokens(matches_view(ms@)) <= usize::MAX,
    ensures
        n as int == shared_of(matches_view(ms@), f@),
{
    let ghost mv = matches_view(ms@);
    proof {
        lemma_view_nonneg(ms@);
        lemma_shared_bounds(mv, f@);
    }
    let mut sum: usize = 0;
    let mut j: usize = 0;
    while j < ms.len()
        invariant
            mv == matches_view(ms@),
            forall|q: int| 0 <= q < mv.len() ==> (#[trigger] mv[q]).3 >= 0,
            j <= ms@.len(),
            sum as int == shared_of(mv.take(j as int), f@),
            shared_of(mv, f@) <= all_tokens(mv) <= usize::MAX,
        decreases ms.len() - j,
    {
        proof {
            assert(mv.take(j + 1).drop_last() =~= mv.take(j as int));
            assert(mv.take(j + 1).last() == match_view(ms@[j as int]));
            lemma_shared_prefix(mv, f@, j + 1);
        }
        if same(&chars_of(ms[j].file.as_str()), f) {
            sum = sum + ms[j].tokens;
        }
        j += 1;
    }
    assert(mv.take(ms@.len() as int) =~= mv);
    sum
}

/// What the commit did to a file: the status of its last entry among
/// the commit's changes, none where it is untouched.
pub open spec fn status_for(touched: Seq<(Chars, char)>, f: Chars) -> Option<char>
    decreases touched.len(),
{
    if touched.len() == 0 {
        None
    } else if touched.last().0 == f {
        Some(touched.last().1)
    } else {
        status_for(touched.drop_last(), f)
    }
}

pub open spec fn touched_view(t: Seq<(String, char)>) -> Seq<(Chars, char)> {
    t.map_values(|e: (String, char)| (e.0@, e.1))
}

fn status_of(touched: &Vec<(String, char)>, f: &[char]) -> (r: Option<char>)
    ensures
        r == status_for(touched_view(touched@), f@),
{
    let ghost tv = touched_view(touched@);
    let mut k: usize = touched.len();
    assert(tv.take(k as int) =~= tv);
    while k > 0
        invariant
            tv == touched_view(touched@),
            k <= touched@.len(),
            status_for(tv, f@) == status_for(tv.take(k as int), f@),
        decreases k,
    {
        assert(tv.take(k as int).drop_last() =~= tv.take(k - 1));
        assert(tv.take(k as int).last() == (touched@[k - 1].0@, touched@[k - 1].1));
        if same(&chars_of(touched[k - 1].0.as_str()), f) {
            return Some(touched[k - 1].1);
        }
        k -= 1;
    }
    None
}

/// The pairs already fired, as a set of names.
pub open spec fn fired_set(fired: Seq<(String, String)>) -> Set<(Chars, Chars)> {
    fired.map_values(|p: (String, String)| (p.0@, p.1@)).to_set()
}

/// One intercept row of an event, for the twin `t`.
pub open spec fn event_row(
    r: Intercept,
    commit: Chars,
    rel: Chars,
    t: Chars,
    base: Seq<MatchModel>,
    child: Seq<MatchModel>,
    fired: Set<(Chars, Chars)>,
    touched: Seq<(Chars, char)>,
) -> bool {
    let n = novel_spec(child, base);
    &&& r.commit@ == commit.take(8)
    &&& r.rel@ == rel
    &&& r.twin@ == t
    &&& r.parent as int == shared_of(base, t)
    &&& r.child as int == shared_of(child, t)
    &&& r.novel as int == shared_of(n, t)
    &&& r.class == class_spec(r.parent as nat, r.child as nat)
    &&& r.refire == fired.contains(pair_spec(rel, t))
    &&& r.twin_status == status_for(touched, t)
    &&& !r.landed
}

/// One edit event's rows: the child's matches read against the
/// parent's, the parent's own matches subtracted, one row per twin
/// (sorted), each with the shared tokens before and after, what the
/// parent says of it, whether its pair fired before, and what the
/// commit did to the twin; the row waits for the commit to be whole to
/// learn whether it landed. Every pair the event fires joins `fired`.
pub fn event_rows(
    commit: &str,
    rel: &str,
    base: &Vec<Match>,
    child: &Vec<Match>,
    fired: &mut Vec<(String, String)>,
    touched: &Vec<(String, char)>,
) -> (rows: Vec<Intercept>)
    requires
        commit@.len() >= 8,
        all_tokens(matches_view(base@)) <= usize::MAX,
        all_tokens(matches_view(child@)) <= usize::MAX,
    ensures
        ({
            let n = novel_spec(matches_view(child@), matches_view(base@));
            let ts = rows@.map_values(|r: Intercept| r.twin@);
            &&& canonical(ts)
            &&& ts.to_set() == twins(n).to_set()
            &&& forall|i: int|
                0 <= i < rows@.len() ==> event_row(
                    #[trigger] rows@[i],
                    commit@,
                    rel@,
                    rows@[i].twin@,
                    matches_view(base@),
                    matches_view(child@),
                    fired_set(old(fired)@),
                    touched_view(touched@),
                )
            &&& fired_set(final(fired)@) == fired_set(old(fired)@).union(
                ts.map_values(|t: Chars| pair_spec(rel@, t)).to_set(),
            )
        }),
{
    let ghost bv = matches_view(base@);
    let ghost cv = matches_view(child@);
    let ghost f0 = fired_set(fired@);
    proof {
        lemma_view_nonneg(child@);
        lemma_view_nonneg(base@);
        lemma_novel_within(cv, bv, Seq::empty());
    }
    let nov = novel(child, base);
    let nt = shared(&nov);
    let ghost nv = novel_spec(cv, bv);
    let c = chars_of(commit);
    let short = string_of(&slice_vec(&c, 0, 8));
    assert(short@ =~= commit@.take(8));
    let mut rows: Vec<Intercept> = Vec::new();
    let mut i: usize = 0;
    while i < nt.len()
        invariant
            bv == matches_view(base@),
            cv == matches_view(child@),
            nv == novel_spec(cv, bv),
            nv == matches_view(nov@),
            f0 == fired_set(old(fired)@),
            short@ == commit@.take(8),
            all_tokens(bv) <= usize::MAX,
            all_tokens(cv) <= usize::MAX,
            canonical(nt@.map_values(|e: (String, usize)| e.0@)),
            forall|j: int|
                0 <= j < nt@.len() ==> (#[trigger] nt@[j]).1 as int == shared_of(nv, nt@[j].0@),
            i <= nt@.len(),
            rows@.map_values(|r: Intercept| r.twin@) == nt@.map_values(|e: (String, usize)| e.0@).take(
                i as int,
            ),
            forall|j: int|
                0 <= j < rows@.len() ==> event_row(
                    #[trigger] rows@[j],
                    commit@,
                    rel@,
                    rows@[j].twin@,
                    bv,
                    cv,
                    f0,
                    touched_view(touched@),
                ),
            fired_set(fired@) == f0.union(
                rows@.map_values(|r: Intercept| r.twin@).map_values(|t: Chars| pair_spec(rel@, t)).to_set(),
            ),
        decreases nt.len() - i,
    {
        let twin = chars_of(nt[i].0.as_str());
        let pt = tokens_with(base, &twin);
        let ct = tokens_with(child, &twin);
        let key = pair(rel, nt[i].0.as_str());
        let kv = (chars_of(key.0.as_str()), chars_of(key.1.as_str()));
        let ghost fired_before = fired@;
        let mut seen = false;
        let mut k: usize = 0;
        while k < fired.len()
            invariant
                fired@ == fired_before,
                k <= fired@.len(),
                seen <==> fired_before.take(k as int).map_values(|p: (String, String)| (p.0@, p.1@)).contains(
                    (kv.0@, kv.1@),
                ),
            decreases fired.len() - k,
        {
            proof {
                assert(fired_before.take(k + 1).map_values(|p: (String, String)| (p.0@, p.1@)) =~= fired_before.take(
                    k as int,
                ).map_values(|p: (String, String)| (p.0@, p.1@)).push((fired@[k as int].0@, fired@[k as int].1@)));
                broadcast use vstd::seq_lib::lemma_seq_contains_after_push;
            }
            if same(&chars_of(fired[k].0.as_str()), &kv.0) && same(&chars_of(fired[k].1.as_str()), &kv.1) {
                seen = true;
            }
            k += 1;
        }
        assert(fired_before.take(fired@.len() as int) =~= fired_before);
        if !seen {
            fired.push(key);
        }
        let row = Intercept {
            commit: string_of(&chars_of(short.as_str())),
            rel: string_of(&chars_of(rel)),
            twin: string_of(&twin),
            parent: pt,
            child: ct,
            novel: nt[i].1,
            class: Class::of(pt, ct),
            refire: seen,
            twin_status: status_of(touched, &twin),
            landed: false,
        };
        let ghost rows_before = rows@;
        rows.push(row);
        proof {
            let keys = nt@.map_values(|e: (String, usize)| e.0@);
            let t = twin@;
            assert(keys[i as int] == t);
            let tb = rows_before.map_values(|r: Intercept| r.twin@);
            let ta = rows@.map_values(|r: Intercept| r.twin@);
            assert(ta =~= tb.push(t));
            assert(keys.take(i + 1) =~= keys.take(i as int).push(t));
            let pb = tb.map_values(|x: Chars| pair_spec(rel@, x));
            let pa = ta.map_values(|x: Chars| pair_spec(rel@, x));
            assert(pa =~= pb.push(pair_spec(rel@, t)));
            lemma_push_to_set(pb, pair_spec(rel@, t));
            let fv = fired_before.map_values(|p: (String, String)| (p.0@, p.1@));
            assert(fv.to_set() == f0.union(pb.to_set()));
            assert(seen <==> fv.contains(pair_spec(rel@, t)));
            if pb.to_set().contains(pair_spec(rel@, t)) {
                let j = choose|j: int| 0 <= j < pb.len() && pb[j] == pair_spec(rel@, t);
                lemma_pair_inj(rel@, tb[j], t);
                assert(keys[j] == tb[j]);
                assert(false);
            }
            assert(!pb.to_set().contains(pair_spec(rel@, t)));
            assert(fv.contains(pair_spec(rel@, t)) == fv.to_set().contains(pair_spec(rel@, t)));
            assert(seen <==> f0.contains(pair_spec(rel@, t)));
            if !seen {
                lemma_push_to_set(fv, pair_spec(rel@, t));
                assert(fired@.map_values(|p: (String, String)| (p.0@, p.1@)) =~= fv.push(
                    pair_spec(rel@, t),
                ));
            }
            assert(fired_set(fired@) =~= f0.union(pa.to_set()));
            assert forall|j: int| 0 <= j < rows@.len() implies event_row(
                #[trigger] rows@[j],
                commit@,
                rel@,
                rows@[j].twin@,
                bv,
                cv,
                f0,
                touched_view(touched@),
            ) by {
                if j < rows_before.len() {
                    assert(rows@[j] == rows_before[j]);
                }
            }
        }
        i += 1;
    }
    assert(nt@.map_values(|e: (String, usize)| e.0@).take(nt@.len() as int) =~= nt@.map_values(
        |e: (String, usize)| e.0@,
    ));
    rows
}

/// Whether the run with `twin` is still in the tree once the commit is
/// whole: the child probed again against the child state still matches
/// the twin.
pub fn landed(after: &Vec<Match>, twin: &str) -> (b: bool)
    ensures
        b == twins(matches_view(after@)).contains(twin@),
{
    let ghost av = matches_view(after@);
    let t = chars_of(twin);
    let mut k: usize = 0;
    while k < after.len()
        invariant
            av == matches_view(after@),
            t@ == twin@,
            k <= after@.len(),
            forall|j: int| 0 <= j < k ==> twins(av)[j] != twin@,
        decreases after.len() - k,
    {
        assert(twins(av)[k as int] == after@[k as int].file@);
        if same(&chars_of(after[k].file.as_str()), &t) {
            return true;
        }
        k += 1;
    }
    false
}

proof fn lemma_push_to_set<A>(s: Seq<A>, x: A)
    ensures
        s.push(x).to_set() == s.to_set().insert(x),
{
    broadcast use vstd::seq_lib::lemma_seq_contains_after_push;
    assert(s.push(x).to_set() =~= s.to_set().insert(x));
}

/// One name pairs with two others into one key only if they are one.
proof fn lemma_pair_inj(rel: Chars, a: Chars, b: Chars)
    requires
        pair_spec(rel, a) == pair_spec(rel, b),
    ensures
        a == b,
{
}

} // verus!
