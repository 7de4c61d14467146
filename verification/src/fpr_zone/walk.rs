//! The graded-zone replay's walk, as decisions: which files decide a
//! write's policy, what one measured event adds to the tally, and the
//! corpus row the walk finishes with. Reading the history and asking
//! the product's zone map stay with the caller, which hands each
//! event's numbers and landing in.

use super::ledger::{count, count_spec, false_asks, shadowed, shadowed_ask, tier_is, Landed, ZoneRow};
use crate::text::{chars_of, rindex, same, slice_vec, string_of, rfind_char, lemma_rindex_to, Chars};
use vstd::prelude::*;

verus! {

/// The root-relative files whose content decides a write's scope and
/// its two lines; ignore files matter at every depth, so they are
/// matched on the basename.
pub open spec fn is_policy_spec(rel: Chars) -> bool {
    let base = match rindex(rel, '/') {
        Some(i) => rel.skip(i + 1),
        None => rel,
    };
    rel == "ce.toml"@ || rel == "ce-baseline.json"@ || rel == ".gitmodules"@ || base
        == ".gitignore"@ || base == ".ceignore"@
}

/// Whether a path is one of the files that decide a write's policy.
pub fn is_policy(rel: &str) -> (b: bool)
    ensures
        b == is_policy_spec(rel@),
{
    let r = chars_of(rel);
    proof {
        lemma_rindex_to(r@, '/', r@.len() as int);
    }
    let base = match rfind_char(&r, '/') {
        Some(i) => {
            assert(i < r.len());
            slice_vec(&r, i + 1, r.len())
        },
        None => slice_vec(&r, 0, r.len()),
    };
    assert(base@ =~= (match rindex(rel@, '/') {
        Some(i) => rel@.skip(i + 1),
        None => rel@,
    }));
    same(&r, &chars_of("ce.toml")) || same(&r, &chars_of("ce-baseline.json")) || same(
        &r,
        &chars_of(".gitmodules"),
    ) || same(&base, &chars_of(".gitignore")) || same(&base, &chars_of(".ceignore"))
}

/// The basename of `rel`: what follows its last `/`, or all of it.
proof fn lemma_base_after(rel: Chars, p: Chars, name: Chars)
    requires
        rel == p + name,
        p.len() == 0 || p.last() == '/',
        !name.contains('/'),
    ensures
        (match rindex(rel, '/') {
            Some(i) => rel.skip(i + 1),
            None => rel,
        }) == name,
{
    lemma_rindex_to(rel, '/', rel.len() as int);
    assert forall|j: int| p.len() <= j < rel.len() implies rel[j] != '/' by {
        assert(rel[j] == name[j - p.len()]);
    }
    match rindex(rel, '/') {
        Some(i) => {
            if p.len() == 0 {
                assert(rel[i] == name[i]);
            } else {
                assert(rel[p.len() - 1] == '/');
                assert(i == p.len() - 1);
                assert(rel.skip(i + 1) =~= name);
            }
        },
        None => {
            if p.len() > 0 {
                assert(rel[p.len() - 1] == '/');
            }
            assert(rel =~= name);
        },
    }
}

/// Ignore files decide a write's policy at every depth, the root
/// included: below any directory (or none), a file named `.gitignore`
/// or `.ceignore` is a policy file; below a directory a file is a
/// policy file exactly when it is one of those two, and at the root
/// exactly when it is one of those or `ce.toml`, `ce-baseline.json` or
/// `.gitmodules`.
pub proof fn lemma_ignore_files_at_every_depth(p: Chars, name: Chars)
    requires
        p.len() == 0 || p.last() == '/',
        !name.contains('/'),
    ensures
        (name == ".gitignore"@ || name == ".ceignore"@) ==> is_policy_spec(p + name),
        p.len() > 0 ==> (is_policy_spec(p + name) <==> (name == ".gitignore"@ || name == ".ceignore"@)),
        p.len() == 0 ==> (is_policy_spec(p + name) <==> (name == "ce.toml"@ || name == "ce-baseline.json"@ || name
            == ".gitmodules"@ || name == ".gitignore"@ || name == ".ceignore"@)),
{
    if p.len() == 0 {
        assert(p + name =~= name);
    }
    let rel = p + name;
    lemma_base_after(rel, p, name);
    if p.len() > 0 {
        reveal_strlit("ce.toml");
        reveal_strlit("ce-baseline.json");
        reveal_strlit(".gitmodules");
        assert(rel[p.len() - 1] == '/');
        assert(rel.contains('/'));
        assert(!"ce.toml"@.contains('/'));
        assert(!"ce-baseline.json"@.contains('/'));
        assert(!".gitmodules"@.contains('/'));
    }
}

/// `n` lines of Rust that bait nothing: the zone rule counts lines and
/// nothing else, so a zone corpus is deliberately inert.
pub open spec fn filler_spec(n: nat) -> Chars
    decreases n,
{
    if n == 0 {
        Seq::empty()
    } else {
        filler_spec((n - 1) as nat) + "// filler\n"@
    }
}

/// `n` lines of inert Rust.
pub fn filler(n: usize) -> (out: String)
    ensures
        out@ == filler_spec(n as nat),
{
    let line = chars_of("// filler\n");
    let mut v: Vec<char> = Vec::new();
    let mut i: usize = 0;
    while i < n
        invariant
            i <= n,
            line@ == "// filler\n"@,
            v@ == filler_spec(i as nat),
        decreases n - i,
    {
        crate::text::push_range(&mut v, &line, 0, line.len());
        assert(line@.subrange(0, line@.len() as int) =~= line@);
        i += 1;
    }
    string_of(&v)
}

/// What the walk accumulates over a corpus's events.
pub struct Tally {
    pub events: usize,
    pub shared: usize,
    pub unreadable: usize,
    /// (soft line, events measured against it), by soft line.
    pub softs: Vec<(usize, usize)>,
    pub rows: Vec<Landed>,
}

/// The events a histogram gives one soft line.
pub open spec fn soft_count(s: Seq<(usize, usize)>, k: int) -> int
    decreases s.len(),
{
    if s.len() == 0 {
        0
    } else {
        soft_count(s.drop_last(), k) + if s.last().0 == k {
            s.last().1 as int
        } else {
            0
        }
    }
}

/// A histogram's soft lines ascend, each once.
pub open spec fn ascending(s: Seq<(usize, usize)>) -> bool {
    forall|i: int, j: int| 0 <= i < j < s.len() ==> (#[trigger] s[i]).0 < (#[trigger] s[j]).0
}

pub proof fn lemma_soft_update(s: Seq<(usize, usize)>, p: int, v: (usize, usize), k: int)
    requires
        0 <= p < s.len(),
        v.0 == s[p].0,
    ensures
        soft_count(s.update(p, v), k) == soft_count(s, k) + if s[p].0 == k {
            v.1 - s[p].1
        } else {
            0
        },
    decreases s.len(),
{
    if p < s.len() - 1 {
        assert(s.update(p, v).drop_last() =~= s.drop_last().update(p, v));
        lemma_soft_update(s.drop_last(), p, v, k);
    } else {
        assert(s.update(p, v).drop_last() =~= s.drop_last());
    }
}

pub proof fn lemma_soft_insert(s: Seq<(usize, usize)>, p: int, v: (usize, usize), k: int)
    requires
        0 <= p <= s.len(),
    ensures
        soft_count(s.insert(p, v), k) == soft_count(s, k) + if v.0 == k {
            v.1 as int
        } else {
            0
        },
    decreases s.len(),
{
    if p == s.len() {
        assert(s.insert(p, v).drop_last() =~= s);
    } else {
        assert(s.insert(p, v).drop_last() =~= s.drop_last().insert(p, v));
        assert(s.insert(p, v).last() == s.last());
        lemma_soft_insert(s.drop_last(), p, v, k);
    }
}

pub open spec fn tally_wf(t: Tally) -> bool {
    ascending(t.softs@) && t.shared <= t.events
}

pub open spec fn landed_of(l: Landed, sha: Chars, rel: Chars, lines: usize, soft: usize, hard: usize, permille: usize, tier: Chars) -> bool {
    &&& l.sha@ == sha
    &&& l.rel@ == rel
    &&& l.lines == lines
    &&& l.soft == soft
    &&& l.hard == hard
    &&& l.permille == permille
    &&& l.tier@ == tier
    &&& l.shadowed == (hard != 0 && lines > hard)
}

impl Tally {
    pub fn new() -> (t: Tally)
        ensures
            tally_wf(t),
            t.events == 0 && t.shared == 0 && t.unreadable == 0,
            t.softs@.len() == 0 && t.rows@.len() == 0,
    {
        Tally { events: 0, shared: 0, unreadable: 0, softs: Vec::new(), rows: Vec::new() }
    }

    /// A commit whose policy could not be read: a named gap in the
    /// coverage, never a silent zero.
    pub fn unreadable(&mut self)
        requires
            old(self).unreadable < usize::MAX,
        ensures
            final(self).unreadable == old(self).unreadable + 1,
            final(self).events == old(self).events,
            final(self).shared == old(self).shared,
            final(self).softs@ == old(self).softs@,
            final(self).rows@ == old(self).rows@,
    {
        self.unreadable = self.unreadable + 1;
    }

    /// One event: the child blob's `lines` against the `soft` and
    /// `hard` lines the hook would have read; `shared` when its
    /// language is one the duplicate-write replay also measures; and
    /// the zone map's landing for it, if it lands in the zone
    /// (per mille into the zone, and the tier).
    pub fn measure(
        &mut self,
        commit: &str,
        rel: &str,
        lines: usize,
        soft: usize,
        hard: usize,
        shared: bool,
        landing: Option<(usize, String)>,
    )
        requires
            tally_wf(*old(self)),
            old(self).events < usize::MAX,
            soft_count(old(self).softs@, soft as int) < usize::MAX,
            commit@.len() >= 8,
        ensures
            tally_wf(*final(self)),
            final(self).events == old(self).events + 1,
            final(self).shared == old(self).shared + if shared {
                1int
            } else {
                0
            },
            final(self).unreadable == old(self).unreadable,
            forall|k: int|
                soft_count(#[trigger] final(self).softs@, k) == soft_count(old(self).softs@, k) + if k
                    == soft {
                    1int
                } else {
                    0
                },
            match landing {
                None => final(self).rows@ == old(self).rows@,
                Some((permille, tier)) => final(self).rows@.len() == old(self).rows@.len() + 1
                    && final(self).rows@.drop_last() == old(self).rows@ && landed_of(
                    final(self).rows@.last(),
                    commit@.take(8),
                    rel@,
                    lines,
                    soft,
                    hard,
                    permille,
                    tier@,
                ),
            },
    {
        self.events = self.events + 1;
        if shared {
            self.shared = self.shared + 1;
        }
        let ghost old_softs = self.softs@;
        let mut p: usize = 0;
        while p < self.softs.len() && self.softs[p].0 < soft
            invariant
                p <= self.softs@.len(),
                self.softs@ == old_softs,
                ascending(old_softs),
                forall|j: int| 0 <= j < p ==> (#[trigger] old_softs[j]).0 < soft,
            decreases self.softs.len() - p,
        {
            p += 1;
        }
        if p < self.softs.len() && self.softs[p].0 == soft {
            let n = self.softs[p].1;
            proof {
                lemma_soft_here(old_softs, p as int, soft as int);
            }
            self.softs.set(p, (soft, n + 1));
            proof {
                assert forall|k: int| soft_count(self.softs@, k) == soft_count(old_softs, k) + if k == soft {
                    1int
                } else {
                    0
                } by {
                    lemma_soft_update(old_softs, p as int, (soft, (n + 1) as usize), k);
                }
                assert forall|i: int, j: int| 0 <= i < j < self.softs@.len() implies (
                #[trigger] self.softs@[i]).0 < (#[trigger] self.softs@[j]).0 by {
                    assert(old_softs[i].0 < old_softs[j].0);
                }
            }
        } else {
            self.softs.insert(p, (soft, 1));
            proof {
                assert forall|k: int| soft_count(self.softs@, k) == soft_count(old_softs, k) + if k == soft {
                    1int
                } else {
                    0
                } by {
                    lemma_soft_insert(old_softs, p as int, (soft, 1), k);
                }
                assert forall|i: int, j: int| 0 <= i < j < self.softs@.len() implies (
                #[trigger] self.softs@[i]).0 < (#[trigger] self.softs@[j]).0 by {
                    if j < p {
                        assert(old_softs[i].0 < old_softs[j].0);
                    } else if j == p {
                        assert(old_softs[i].0 < soft);
                    } else if i == p {
                        assert(old_softs[j - 1].0 != soft);
                        if p < old_softs.len() {
                            assert(old_softs[p as int].0 >= soft);
                            if j - 1 > p {
                                assert(old_softs[p as int].0 < old_softs[j - 1].0);
                            }
                        }
                    } else if i < p {
                        assert(old_softs[i].0 < soft);
                        assert(old_softs[p as int].0 >= soft);
                        if j - 1 > p {
                            assert(old_softs[p as int].0 < old_softs[j - 1].0);
                        }
                    } else {
                        assert(old_softs[i - 1].0 < old_softs[j - 1].0);
                    }
                }
            }
        }
        match landing {
            None => {},
            Some((permille, tier)) => {
                let c = chars_of(commit);
                let sha = slice_vec(&c, 0, 8);
                assert(sha@ =~= commit@.take(8));
                self.rows.push(
                    Landed {
                        sha: string_of(&sha),
                        rel: string_of(&chars_of(rel)),
                        lines,
                        soft,
                        hard,
                        permille,
                        tier,
                        shadowed: hard != 0 && lines > hard,
                    },
                );
            },
        }
    }
}

/// A soft line already in an ascending histogram holds its count at
/// its one place.
pub proof fn lemma_soft_here(s: Seq<(usize, usize)>, p: int, k: int)
    requires
        ascending(s),
        0 <= p < s.len(),
        s[p].0 == k,
    ensures
        soft_count(s, k) == s[p].1,
    decreases s.len(),
{
    if p < s.len() - 1 {
        assert(s.last().0 != k) by {
            assert(s[p].0 < s[s.len() - 1].0);
        }
        assert forall|i: int, j: int| 0 <= i < j < s.drop_last().len() implies (
        #[trigger] s.drop_last()[i]).0 < (#[trigger] s.drop_last()[j]).0 by {
            assert(s[i].0 < s[j].0);
        }
        lemma_soft_here(s.drop_last(), p, k);
    } else {
        lemma_soft_absent(s.drop_last(), k);
    }
}

/// A soft line below the histogram's last one is absent from it when it
/// is above all the others.
pub proof fn lemma_soft_absent(s: Seq<(usize, usize)>, k: int)
    requires
        forall|i: int| 0 <= i < s.len() ==> (#[trigger] s[i]).0 < k,
    ensures
        soft_count(s, k) == 0,
    decreases s.len(),
{
    if s.len() > 0 {
        lemma_soft_absent(s.drop_last(), k);
    }
}

/// A landing as plain values.
pub open spec fn landed_view(l: Landed) -> (Chars, Chars, usize, usize, usize, usize, Chars, bool) {
    (l.sha@, l.rel@, l.lines, l.soft, l.hard, l.permille, l.tier@, l.shadowed)
}

pub open spec fn landed_views(s: Seq<Landed>) -> Seq<(Chars, Chars, usize, usize, usize, usize, Chars, bool)> {
    s.map_values(|l: Landed| landed_view(l))
}

/// One corpus as the walk finished it.
pub struct Corpus {
    pub name: String,
    pub tip: String,
    pub commits: usize,
    pub events: usize,
    pub events_shared: usize,
    pub unreadable: usize,
    pub softs: Vec<(usize, usize)>,
    pub rows: Vec<Landed>,
}

/// One corpus replayed end to end: `chain` is its first-parent chain,
/// first commit to tip, and `t` what the walk measured over it.
pub fn replay(name: &str, chain: &Vec<String>, t: Tally) -> (c: Corpus)
    requires
        chain@.len() > 0,
        chain@.last()@.len() >= 8,
    ensures
        c.name@ == name@,
        c.tip@ == chain@.last()@.take(8),
        c.commits == chain@.len() - 1,
        c.events == t.events,
        c.events_shared == t.shared,
        c.unreadable == t.unreadable,
        c.softs@ == t.softs@,
        c.rows@ == t.rows@,
{
    let tip = chars_of(chain[chain.len() - 1].as_str());
    let short = slice_vec(&tip, 0, 8);
    assert(short@ =~= chain@.last()@.take(8));
    Corpus {
        name: string_of(&chars_of(name)),
        tip: string_of(&short),
        commits: chain.len() - 1,
        events: t.events,
        events_shared: t.shared,
        unreadable: t.unreadable,
        softs: t.softs,
        rows: t.rows,
    }
}

impl Corpus {
    /// The frozen row: every derived number recomputed from the raw
    /// ones. `rate_ppm` and `cp_upper_ppm` are the event rate and its
    /// upper bound for this corpus's false asks.
    pub fn row(&self, rate_ppm: u64, cp_upper_ppm: u64) -> (r: ZoneRow)
        ensures
            r.name@ == self.name@ && r.tip@ == self.tip@,
            r.commits == self.commits && r.events == self.events,
            r.events_shared == self.events_shared,
            r.config_unreadable_commits == self.unreadable,
            r.in_zone == self.rows@.len(),
            r.observe == count_spec(self.rows@, tier_is("observe"@)),
            r.warn == count_spec(self.rows@, tier_is("warn"@)),
            r.ask == count_spec(self.rows@, tier_is("ask"@)),
            r.ask_shadowed == count_spec(self.rows@, shadowed_ask()),
            r.false_asks == count_spec(self.rows@, tier_is("ask"@)) - count_spec(
                self.rows@,
                shadowed_ask(),
            ),
            r.rate_ppm == rate_ppm && r.cp_upper_ppm == cp_upper_ppm,
            r.soft_lines@ == self.softs@,
            landed_views(r.intercepts@) == landed_views(self.rows@.filter(tier_is("ask"@))),
    {
        let ask = chars_of("ask");
        let mut asks: Vec<Landed> = Vec::new();
        let mut i: usize = 0;
        proof {
            reveal(Seq::filter);
        }
        while i < self.rows.len()
            invariant
                i <= self.rows@.len(),
                ask@ == "ask"@,
                landed_views(asks@) == landed_views(self.rows@.take(i as int).filter(tier_is("ask"@))),
            decreases self.rows.len() - i,
        {
            let r = &self.rows[i];
            proof {
                reveal(Seq::filter);
                assert(self.rows@.take(i + 1).drop_last() =~= self.rows@.take(i as int));
                assert(self.rows@.take(i + 1).last() == *r);
            }
            let ghost before = landed_views(asks@);
            if same(&chars_of(r.tier.as_str()), &ask) {
                asks.push(
                    Landed {
                        sha: string_of(&chars_of(r.sha.as_str())),
                        rel: string_of(&chars_of(r.rel.as_str())),
                        lines: r.lines,
                        soft: r.soft,
                        hard: r.hard,
                        permille: r.permille,
                        tier: string_of(&chars_of(r.tier.as_str())),
                        shadowed: r.shadowed,
                    },
                );
                assert(landed_views(asks@) =~= before.push(landed_view(*r)));
                assert(self.rows@.take(i + 1).filter(tier_is("ask"@)) == self.rows@.take(i as int).filter(tier_is("ask"@)).push(*r));
                assert(landed_views(self.rows@.take(i + 1).filter(tier_is("ask"@))) =~= landed_views(self.rows@.take(i as int).filter(tier_is("ask"@))).push(landed_view(*r)));
            }
            i += 1;
        }
        assert(self.rows@.take(self.rows@.len() as int) =~= self.rows@);
        let mut softs: Vec<(usize, usize)> = Vec::new();
        let mut k: usize = 0;
        while k < self.softs.len()
            invariant
                k <= self.softs@.len(),
                softs@ == self.softs@.take(k as int),
            decreases self.softs.len() - k,
        {
            softs.push(self.softs[k]);
            assert(softs@ =~= self.softs@.take(k + 1));
            k += 1;
        }
        assert(self.softs@.take(self.softs@.len() as int) =~= self.softs@);
        ZoneRow {
            name: string_of(&chars_of(self.name.as_str())),
            tip: string_of(&chars_of(self.tip.as_str())),
            commits: self.commits,
            events: self.events,
            events_shared: self.events_shared,
            config_unreadable_commits: self.unreadable,
            in_zone: self.rows.len(),
            observe: count(&self.rows, "observe"),
            warn: count(&self.rows, "warn"),
            ask: count(&self.rows, "ask"),
            ask_shadowed: shadowed(&self.rows),
            false_asks: false_asks(&self.rows),
            rate_ppm,
            cp_upper_ppm,
            soft_lines: softs,
            intercepts: asks,
        }
    }
}

} // verus!
