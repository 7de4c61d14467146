//! Per-key tallies: counts summed per key into a sorted map — the
//! accumulation every per-key summary re-derives — and the site
//! universe's summary built on it.

use crate::text::{canon, canonical, chars_of, concat, same, string_of, views, Chars};
use vstd::prelude::*;

verus! {

pub open spec fn entries_view(es: Seq<(String, u64)>) -> Seq<(Chars, u64)> {
    es.map_values(|e: (String, u64)| (e.0@, e.1))
}

/// What the entries give key `k`, summed.
pub open spec fn sum_for(es: Seq<(Chars, u64)>, k: Chars) -> int
    decreases es.len(),
{
    if es.len() == 0 {
        0
    } else {
        sum_for(es.drop_last(), k) + if es.last().0 == k {
            es.last().1 as int
        } else {
            0
        }
    }
}

/// All the entries give, summed.
pub open spec fn sum_all(es: Seq<(Chars, u64)>) -> int
    decreases es.len(),
{
    if es.len() == 0 {
        0
    } else {
        sum_all(es.drop_last()) + es.last().1
    }
}

pub open spec fn keys_of(es: Seq<(Chars, u64)>) -> Seq<Chars> {
    es.map_values(|e: (Chars, u64)| e.0)
}

proof fn lemma_sum_for_le(es: Seq<(Chars, u64)>, k: Chars)
    ensures
        0 <= sum_for(es, k) <= sum_all(es),
    decreases es.len(),
{
    if es.len() > 0 {
        lemma_sum_for_le(es.drop_last(), k);
    }
}

proof fn lemma_sum_prefix(es: Seq<(Chars, u64)>, k: Chars, n: int)
    requires
        0 <= n <= es.len(),
    ensures
        sum_for(es.take(n), k) <= sum_for(es, k),
        sum_all(es.take(n)) <= sum_all(es),
    decreases es.len() - n,
{
    if n < es.len() {
        lemma_sum_prefix(es, k, n + 1);
        assert(es.take(n + 1).drop_last() =~= es.take(n));
    } else {
        assert(es.take(n) =~= es);
    }
}

/// No key's sum passes `u64`.
pub open spec fn sums_fit(es: Seq<(Chars, u64)>) -> bool {
    forall|i: int| 0 <= i < es.len() ==> sum_for(es, #[trigger] es[i].0) <= u64::MAX
}

/// The entries summed per key, the keys sorted, each once.
pub fn tally(es: &Vec<(String, u64)>) -> (out: Vec<(String, u64)>)
    requires
        sums_fit(entries_view(es@)),
    ensures
        canonical(keys_of(entries_view(out@))),
        keys_of(entries_view(out@)).to_set() == keys_of(entries_view(es@)).to_set(),
        forall|i: int|
            0 <= i < out@.len() ==> (#[trigger] out@[i]).1 as int == sum_for(entries_view(es@), out@[i].0@),
{
    let ghost ev = entries_view(es@);
    let mut names: Vec<String> = Vec::new();
    let mut i: usize = 0;
    while i < es.len()
        invariant
            ev == entries_view(es@),
            i <= es@.len(),
            views(names@) == keys_of(ev).take(i as int),
        decreases es.len() - i,
    {
        let ghost before = views(names@);
        names.push(string_of(&chars_of(es[i].0.as_str())));
        assert(views(names@) =~= before.push(es@[i as int].0@));
        assert(keys_of(ev).take(i + 1) =~= keys_of(ev).take(i as int).push(es@[i as int].0@));
        i += 1;
    }
    assert(keys_of(ev).take(es@.len() as int) =~= keys_of(ev));
    let keys = canon(names);
    let mut out: Vec<(String, u64)> = Vec::new();
    let mut k: usize = 0;
    while k < keys.len()
        invariant
            ev == entries_view(es@),
            sums_fit(ev),
            canonical(views(keys@)),
            views(keys@).to_set() == keys_of(ev).to_set(),
            k <= keys@.len(),
            keys_of(entries_view(out@)) == views(keys@).take(k as int),
            forall|j: int| 0 <= j < out@.len() ==> (#[trigger] out@[j]).1 as int == sum_for(ev, out@[j].0@),
        decreases keys.len() - k,
    {
        let key = chars_of(keys[k].as_str());
        proof {
            assert(views(keys@).to_set().contains(key@)) by {
                assert(views(keys@)[k as int] == key@);
            }
            assert(keys_of(ev).contains(key@));
            let x = choose|x: int| 0 <= x < keys_of(ev).len() && keys_of(ev)[x] == key@;
            assert(ev[x].0 == key@);
        }
        let mut sum: u64 = 0;
        let mut j: usize = 0;
        while j < es.len()
            invariant
                ev == entries_view(es@),
                j <= es@.len(),
                sum as int == sum_for(ev.take(j as int), key@),
                sum_for(ev, key@) <= u64::MAX,
            decreases es.len() - j,
        {
            proof {
                assert(ev.take(j + 1).drop_last() =~= ev.take(j as int));
                assert(ev.take(j + 1).last() == (es@[j as int].0@, es@[j as int].1));
                lemma_sum_prefix(ev, key@, j + 1);
            }
            if same(&chars_of(es[j].0.as_str()), &key) {
                sum = sum + es[j].1;
            }
            j += 1;
        }
        assert(ev.take(es@.len() as int) =~= ev);
        let ghost before = keys_of(entries_view(out@));
        let ghost old_out = out@;
        out.push((string_of(&key), sum));
        proof {
            assert(keys_of(entries_view(out@)) =~= before.push(key@));
            assert(views(keys@)[k as int] == key@);
            assert(views(keys@).take(k + 1) =~= views(keys@).take(k as int).push(key@));
            assert forall|j: int| 0 <= j < out@.len() implies (#[trigger] out@[j]).1 as int == sum_for(
                ev,
                out@[j].0@,
            ) by {
                if j < old_out.len() {
                    assert(out@[j] == old_out[j]);
                }
            }
        }
        k += 1;
    }
    assert(views(keys@).take(keys@.len() as int) =~= views(keys@));
    out
}

/// One frozen file of a site universe: its path, its language and its
/// sites per kind.
pub struct SiteFile {
    pub path: String,
    pub lang: String,
    pub sites: Vec<(String, u64)>,
}

/// The site summary's entries: every (lang/kind, count) of every file.
pub open spec fn site_entries(files: Seq<SiteFile>) -> Seq<(Chars, u64)>
    decreases files.len(),
{
    if files.len() == 0 {
        Seq::empty()
    } else {
        site_entries(files.drop_last()) + entries_view(files.last().sites@).map_values(
            |e: (Chars, u64)| (files.last().lang@ + seq!['/'] + e.0, e.1),
        )
    }
}

/// A site universe's summary: its file count, its total sites, and the
/// sites per `lang/kind`.
pub struct SiteSummary {
    pub files: usize,
    pub total_sites: u64,
    pub sites_by: Vec<(String, u64)>,
}

/// A site universe's summary, re-derivable from its rows alone.
pub fn site_summary(files: &Vec<SiteFile>) -> (s: SiteSummary)
    requires
        sum_all(site_entries(files@)) <= u64::MAX,
    ensures
        s.files == files@.len(),
        s.total_sites as int == sum_all(site_entries(files@)),
        canonical(keys_of(entries_view(s.sites_by@))),
        keys_of(entries_view(s.sites_by@)).to_set() == keys_of(site_entries(files@)).to_set(),
        forall|i: int|
            0 <= i < s.sites_by@.len() ==> (#[trigger] s.sites_by@[i]).1 as int == sum_for(
                site_entries(files@),
                s.sites_by@[i].0@,
            ),
{
    let mut es: Vec<(String, u64)> = Vec::new();
    let mut total: u64 = 0;
    let mut i: usize = 0;
    while i < files.len()
        invariant
            sum_all(site_entries(files@)) <= u64::MAX,
            i <= files@.len(),
            entries_view(es@) == site_entries(files@.take(i as int)),
            total as int == sum_all(entries_view(es@)),
        decreases files.len() - i,
    {
        proof {
            assert(files@.take(i + 1).drop_last() =~= files@.take(i as int));
            assert(files@.take(i + 1).last() == files@[i as int]);
            lemma_entries_prefix(files@, i + 1);
        }
        let f = &files[i];
        let lang = chars_of(f.lang.as_str());
        let ghost base = entries_view(es@);
        let ghost add = entries_view(f.sites@).map_values(
            |e: (Chars, u64)| (files@[i as int].lang@ + seq!['/'] + e.0, e.1),
        );
        let mut k: usize = 0;
        while k < f.sites.len()
            invariant
                sum_all(site_entries(files@.take(i + 1))) <= u64::MAX,
                site_entries(files@.take(i + 1)) == base + add,
                lang@ == files@[i as int].lang@,
                f == &files@[i as int],
                add == entries_view(f.sites@).map_values(
                    |e: (Chars, u64)| (files@[i as int].lang@ + seq!['/'] + e.0, e.1),
                ),
                k <= f.sites@.len(),
                entries_view(es@) == base + add.take(k as int),
                total as int == sum_all(entries_view(es@)),
            decreases f.sites.len() - k,
        {
            let mut key = concat(&lang, &chars_of("/"));
            key = concat(&key, &chars_of(f.sites[k].0.as_str()));
            let n = f.sites[k].1;
            let ghost before = entries_view(es@);
            proof {
                reveal_strlit("/");
                assert(add[k as int] == (key@, n));
                assert(add.take(k + 1) =~= add.take(k as int).push((key@, n)));
                assert(base + add.take(k + 1) =~= before.push((key@, n)));
                assert((base + add.take(k + 1)).drop_last() =~= before);
                lemma_sum_prefix(base + add, Seq::empty(), base.len() + k + 1);
                assert((base + add).take(base.len() + k + 1) =~= base + add.take(k + 1));
            }
            es.push((string_of(&key), n));
            assert(entries_view(es@) =~= before.push((key@, n)));
            total = total + n;
            k += 1;
        }
        assert(add.take(f.sites@.len() as int) =~= add);
        i += 1;
    }
    assert(files@.take(files@.len() as int) =~= files@);
    proof {
        assert forall|i: int| 0 <= i < entries_view(es@).len() implies sum_for(
            entries_view(es@),
            #[trigger] entries_view(es@)[i].0,
        ) <= u64::MAX by {
            lemma_sum_for_le(entries_view(es@), entries_view(es@)[i].0);
        }
    }
    let by = tally(&es);
    SiteSummary { files: files.len(), total_sites: total, sites_by: by }
}

/// The entries of the first `n` files are never more than all.
proof fn lemma_entries_prefix(files: Seq<SiteFile>, n: int)
    requires
        0 <= n <= files.len(),
    ensures
        sum_all(site_entries(files.take(n))) <= sum_all(site_entries(files)),
    decreases files.len() - n,
{
    if n < files.len() {
        lemma_entries_prefix(files, n + 1);
        let a = files.take(n + 1);
        assert(a.drop_last() =~= files.take(n));
        let tail = entries_view(a.last().sites@).map_values(
            |e: (Chars, u64)| (a.last().lang@ + seq!['/'] + e.0, e.1),
        );
        lemma_sum_concat(site_entries(files.take(n)), tail);
        lemma_sum_for_le(tail, Seq::empty());
        assert(site_entries(a) == site_entries(files.take(n)) + tail);
    } else {
        assert(files.take(n) =~= files);
    }
}

/// Summing two runs of entries one after the other.
proof fn lemma_sum_concat(a: Seq<(Chars, u64)>, b: Seq<(Chars, u64)>)
    ensures
        sum_all(a + b) == sum_all(a) + sum_all(b),
    decreases b.len(),
{
    if b.len() > 0 {
        lemma_sum_concat(a, b.drop_last());
        assert((a + b).drop_last() =~= a + b.drop_last());
    } else {
        assert(a + b =~= a);
    }
}


/// Summing two runs of entries for one key, one after the other.
proof fn lemma_sum_for_concat(a: Seq<(Chars, u64)>, b: Seq<(Chars, u64)>, k: Chars)
    ensures
        sum_for(a + b, k) == sum_for(a, k) + sum_for(b, k),
    decreases b.len(),
{
    if b.len() > 0 {
        lemma_sum_for_concat(a, b.drop_last(), k);
        assert((a + b).drop_last() =~= a + b.drop_last());
    } else {
        assert(a + b =~= a);
    }
}

/// The sum of an object's counts — the map-total every per-key summary
/// re-derives.
pub fn sum_obj(obj: &Vec<(String, u64)>) -> (total: u64)
    requires
        sum_all(entries_view(obj@)) <= u64::MAX,
    ensures
        total as int == sum_all(entries_view(obj@)),
{
    let ghost ev = entries_view(obj@);
    let mut total: u64 = 0;
    let mut i: usize = 0;
    while i < obj.len()
        invariant
            ev == entries_view(obj@),
            sum_all(ev) <= u64::MAX,
            i <= obj@.len(),
            total as int == sum_all(ev.take(i as int)),
        decreases obj.len() - i,
    {
        proof {
            assert(ev.take(i + 1).drop_last() =~= ev.take(i as int));
            lemma_sum_prefix(ev, Seq::empty(), i + 1);
        }
        total = total + obj[i].1;
        i += 1;
    }
    assert(ev.take(obj@.len() as int) =~= ev);
    total
}

/// An object's counts added into a running per-key map (its keys
/// sorted, each once), and the object's own total returned — the one
/// accumulation every universe gate and summarizer shares.
pub fn sum_obj_into(obj: &Vec<(String, u64)>, into: &mut Vec<(String, u64)>) -> (total: u64)
    requires
        canonical(keys_of(entries_view(old(into)@))),
        sum_all(entries_view(obj@)) <= u64::MAX,
        forall|i: int|
            0 <= i < obj@.len() ==> sum_for(entries_view(old(into)@), #[trigger] obj@[i].0@) + sum_for(
                entries_view(obj@),
                obj@[i].0@,
            ) <= u64::MAX,
    ensures
        total as int == sum_all(entries_view(obj@)),
        canonical(keys_of(entries_view(final(into)@))),
        keys_of(entries_view(final(into)@)).to_set() == keys_of(entries_view(old(into)@)).to_set().union(
            keys_of(entries_view(obj@)).to_set(),
        ),
        forall|i: int|
            0 <= i < final(into)@.len() ==> (#[trigger] final(into)@[i]).1 as int == sum_for(
                entries_view(old(into)@),
                final(into)@[i].0@,
            ) + sum_for(entries_view(obj@), final(into)@[i].0@),
{
    let ghost before = entries_view(into@);
    let ghost ov = entries_view(obj@);
    let total = sum_obj(obj);
    let mut both: Vec<(String, u64)> = Vec::new();
    let mut i: usize = 0;
    while i < into.len()
        invariant
            before == entries_view(into@),
            i <= into@.len(),
            entries_view(both@) == before.take(i as int),
        decreases into.len() - i,
    {
        let ghost was = entries_view(both@);
        both.push((into[i].0.clone(), into[i].1));
        assert(entries_view(both@) =~= was.push(before[i as int]));
        assert(before.take(i + 1) =~= before.take(i as int).push(before[i as int]));
        i += 1;
    }
    let mut j: usize = 0;
    while j < obj.len()
        invariant
            before == entries_view(into@),
            ov == entries_view(obj@),
            j <= obj@.len(),
            entries_view(both@) == before + ov.take(j as int),
        decreases obj.len() - j,
    {
        let ghost was = entries_view(both@);
        both.push((obj[j].0.clone(), obj[j].1));
        assert(entries_view(both@) =~= was.push(ov[j as int]));
        assert(ov.take(j + 1) =~= ov.take(j as int).push(ov[j as int]));
        j += 1;
    }
    proof {
        assert(before.take(before.len() as int) =~= before);
        assert(ov.take(ov.len() as int) =~= ov);
        let ev = entries_view(both@);
        assert(ev =~= before + ov);
        assert forall|x: int| 0 <= x < ev.len() implies sum_for(ev, #[trigger] ev[x].0) <= u64::MAX by {
            lemma_sum_for_concat(before, ov, ev[x].0);
            if x < before.len() {
                let k = ev[x].0;
                assert(before[x].0 == k);
                if keys_of(ov).contains(k) {
                    let y = choose|y: int| 0 <= y < keys_of(ov).len() && keys_of(ov)[y] == k;
                    assert(obj@[y].0@ == k);
                } else {
                    lemma_sum_for_absent(ov, k);
                    assert(keys_of(before)[x] == k);
                    lemma_sum_for_single(before, x);
                }
            } else {
                assert(obj@[x - before.len()].0@ == ev[x].0);
            }
        }
    }
    let out = tally(&both);
    proof {
        let ev = entries_view(both@);
        assert(keys_of(ev) =~= keys_of(before) + keys_of(ov));
        assert(keys_of(ev).to_set() =~= keys_of(before).to_set().union(keys_of(ov).to_set())) by {
            assert forall|k: Chars| keys_of(ev).contains(k) <==> (keys_of(before).contains(k) || keys_of(ov).contains(k)) by {
                if keys_of(ev).contains(k) {
                    let x = choose|x: int| 0 <= x < keys_of(ev).len() && keys_of(ev)[x] == k;
                    if x < before.len() {
                        assert(keys_of(before)[x] == k);
                    } else {
                        assert(keys_of(ov)[x - before.len()] == k);
                    }
                }
                if keys_of(before).contains(k) {
                    let x = choose|x: int| 0 <= x < keys_of(before).len() && keys_of(before)[x] == k;
                    assert(keys_of(ev)[x] == k);
                }
                if keys_of(ov).contains(k) {
                    let x = choose|x: int| 0 <= x < keys_of(ov).len() && keys_of(ov)[x] == k;
                    assert(keys_of(ev)[before.len() + x] == k);
                }
            }
        }
        assert forall|i: int| 0 <= i < out@.len() implies (#[trigger] out@[i]).1 as int == sum_for(before, out@[i].0@)
            + sum_for(ov, out@[i].0@) by {
            lemma_sum_for_concat(before, ov, out@[i].0@);
        }
    }
    *into = out;
    total
}

/// A key no entry has sums to nothing.
proof fn lemma_sum_for_absent(es: Seq<(Chars, u64)>, k: Chars)
    requires
        !keys_of(es).contains(k),
    ensures
        sum_for(es, k) == 0,
    decreases es.len(),
{
    if es.len() > 0 {
        let init = es.drop_last();
        assert forall|x: int| 0 <= x < keys_of(init).len() implies keys_of(init)[x] != k by {
            assert(keys_of(es)[x] == keys_of(init)[x]);
        }
        lemma_sum_for_absent(init, k);
        assert(keys_of(es)[es.len() - 1] == es.last().0);
    }
}

/// In entries whose keys stand each once, a key sums to its one entry.
proof fn lemma_sum_for_single(es: Seq<(Chars, u64)>, x: int)
    requires
        keys_of(es).no_duplicates(),
        0 <= x < es.len(),
    ensures
        sum_for(es, es[x].0) == es[x].1,
    decreases es.len(),
{
    let k = es[x].0;
    let init = es.drop_last();
    assert forall|a: int, b: int| 0 <= a < b < keys_of(init).len() implies keys_of(init)[a] != keys_of(init)[b] by {
        assert(keys_of(es)[a] == keys_of(init)[a]);
        assert(keys_of(es)[b] == keys_of(init)[b]);
    }
    if x == es.len() - 1 {
        assert forall|y: int| 0 <= y < keys_of(init).len() implies keys_of(init)[y] != k by {
            assert(keys_of(es)[y] == keys_of(init)[y]);
            assert(keys_of(es)[x] == k);
        }
        lemma_sum_for_absent(init, k);
    } else {
        assert(init[x] == es[x]);
        lemma_sum_for_single(init, x);
        assert(keys_of(es)[x] == k);
        assert(keys_of(es)[es.len() - 1] == es.last().0);
    }
}


/// `out` is the tally of `es`: its keys sorted, each once, the keys of
/// `es` all there and no other, each summed.
pub open spec fn tallied(out: Seq<(String, u64)>, es: Seq<(Chars, u64)>) -> bool {
    &&& canonical(keys_of(entries_view(out)))
    &&& keys_of(entries_view(out)).to_set() == keys_of(es).to_set()
    &&& forall|i: int| 0 <= i < out.len() ==> (#[trigger] out[i]).1 as int == sum_for(es, out[i].0@)
}

/// Each key counted once.
pub open spec fn ones(ks: Seq<Chars>) -> Seq<(Chars, u64)> {
    ks.map_values(|k: Chars| (k, 1u64))
}

pub proof fn lemma_ones_total(ks: Seq<Chars>)
    ensures
        sum_all(ones(ks)) == ks.len(),
    decreases ks.len(),
{
    if ks.len() > 0 {
        lemma_ones_total(ks.drop_last());
        assert(ones(ks).drop_last() =~= ones(ks.drop_last()));
    }
}

/// How often each value occurs: the values sorted, each once, with
/// their counts — the flat tally every summary runs one field through.
pub fn count_each(vals: &Vec<String>) -> (out: Vec<(String, u64)>)
    ensures
        tallied(out@, ones(views(vals@))),
{
    let ghost ks = views(vals@);
    let n = vals.len();
    let mut es: Vec<(String, u64)> = Vec::new();
    let mut i: usize = 0;
    while i < n
        invariant
            n == vals@.len(),
            ks == views(vals@),
            i <= n,
            entries_view(es@) == ones(ks).take(i as int),
        decreases n - i,
    {
        let ghost before = entries_view(es@);
        es.push((vals[i].clone(), 1));
        assert(entries_view(es@) =~= before.push((ks[i as int], 1u64)));
        assert(ones(ks).take(i + 1) =~= ones(ks).take(i as int).push((ks[i as int], 1u64)));
        i += 1;
    }
    proof {
        assert(ones(ks).take(n as int) =~= ones(ks));
        lemma_ones_total(ks);
        assert forall|x: int| 0 <= x < entries_view(es@).len() implies sum_for(
            entries_view(es@),
            #[trigger] entries_view(es@)[x].0,
        ) <= u64::MAX by {
            lemma_sum_for_le(entries_view(es@), entries_view(es@)[x].0);
        }
        assert(keys_of(ones(ks)) =~= ks);
    }
    tally(&es)
}


/// Two distinct keys together sum to no more than all the entries.
pub proof fn lemma_sum_for_two(es: Seq<(Chars, u64)>, a: Chars, b: Chars)
    requires
        a != b,
    ensures
        sum_for(es, a) + sum_for(es, b) <= sum_all(es),
    decreases es.len(),
{
    if es.len() > 0 {
        lemma_sum_for_two(es.drop_last(), a, b);
    }
}

} // verus!
