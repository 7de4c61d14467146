//! The tokenizer-arm ledger of one corpus: the counters each file adds,
//! the `$` run shapes, the JS arm's collateral, the protocol hits per
//! `lang:name` and the `<pkg>/{benches,examples}` directories the path
//! rule's probe names. What the product's emitters and path rule say
//! of a file comes in as plain values; every number of a row is
//! counted here.

use crate::text::{
    chars_of, concat, ends, ends_with, same, split, split_char, string_of, views, Chars,
};
use vstd::prelude::*;

verus! {

/// The ledger of one corpus under the two tokenizer arms.
pub struct Ledger {
    /// The `$` arm's row cost: per file, the distinct tokens only the
    /// union emitter contributes, summed over the universe.
    pub union_rows_full: usize,
    /// The same over the universe without the late-NUL suffixes.
    pub union_rows_no_late_nul: usize,
    /// Domain declarations the veto takes under the real arms and would
    /// not take with the union emitter silent.
    pub union_advisory_diff: usize,
    /// Each such declaration, named.
    pub union_advisory_rows: Vec<String>,
    /// The JS arm's collateral: distinct pieces it silences.
    pub js_suppressed: usize,
    /// Of those, the ones no file spells under the real arms.
    pub js_no_other_source: usize,
    /// Of those, the ones the domain names.
    pub js_domain: usize,
    /// `$`-bearing runs in JS-family files, all `$`.
    pub dollar_bare: usize,
    /// `$`-bearing runs led by `$`.
    pub dollar_leading: usize,
    /// `$`-bearing runs ending in `$`.
    pub dollar_trailing: usize,
    /// `$`-bearing runs with `$` inside only.
    pub dollar_inner: usize,
    /// Files under a `test` (singular) directory.
    pub test_singular_files: usize,
    /// `<pkg>/{benches,examples}` directories whose files earn the Test
    /// bit, each once.
    pub pkg_test_dirs: Vec<String>,
    /// Protocol-table hits per `lang:name`.
    pub protocol_hits: Vec<(String, usize)>,
}

impl Default for Ledger {
    fn default() -> (l: Ledger)
        ensures
            l.union_rows_full == 0 && l.union_rows_no_late_nul == 0,
            l.union_advisory_diff == 0 && l.union_advisory_rows@.len() == 0,
            l.js_suppressed == 0 && l.js_no_other_source == 0 && l.js_domain == 0,
            l.dollar_bare == 0 && l.dollar_leading == 0 && l.dollar_trailing == 0 && l.dollar_inner
                == 0,
            l.test_singular_files == 0,
            l.pkg_test_dirs@.len() == 0 && l.protocol_hits@.len() == 0,
    {
        Ledger {
            union_rows_full: 0,
            union_rows_no_late_nul: 0,
            union_advisory_diff: 0,
            union_advisory_rows: Vec::new(),
            js_suppressed: 0,
            js_no_other_source: 0,
            js_domain: 0,
            dollar_bare: 0,
            dollar_leading: 0,
            dollar_trailing: 0,
            dollar_inner: 0,
            test_singular_files: 0,
            pkg_test_dirs: Vec::new(),
            protocol_hits: Vec::new(),
        }
    }
}

/// The late-NUL suffixes the second universe leaves out.
pub open spec fn late_nul_spec(rel: Chars) -> bool {
    ends(rel, ".ai"@) || ends(rel, ".eps"@)
}

/// A late-NUL file: its path ends in `.ai` or `.eps`.
pub fn late_nul(rel: &str) -> (b: bool)
    ensures
        b == late_nul_spec(rel@),
{
    let r = chars_of(rel);
    ends_with(&r, &chars_of(".ai")) || ends_with(&r, &chars_of(".eps"))
}

/// The directory components of a repo-relative path.
pub open spec fn dirs_of(rel: Chars) -> Seq<Chars> {
    split(rel, '/').drop_last()
}

/// A file under a `test` (singular) directory.
pub open spec fn under_test_spec(rel: Chars) -> bool {
    dirs_of(rel).contains("test"@)
}

/// Whether some directory of `rel` is named `test`.
pub fn under_test(rel: &str) -> (b: bool)
    ensures
        b == under_test_spec(rel@),
{
    let comps = split_char(&chars_of(rel), '/');
    let test = chars_of("test");
    let ghost cv = comps@.map_values(|p: Vec<char>| p@);
    proof {
        crate::text::lemma_split_nonempty(rel@, '/');
    }
    let n = comps.len() - 1;
    let mut k: usize = 0;
    while k < n
        invariant
            cv == comps@.map_values(|p: Vec<char>| p@),
            cv == split(rel@, '/'),
            n + 1 == cv.len(),
            test@ == "test"@,
            k <= n,
            forall|j: int| 0 <= j < k ==> cv[j] != "test"@,
        decreases n - k,
    {
        if same(&comps[k], &test) {
            proof {
                assert(dirs_of(rel@)[k as int] == "test"@);
            }
            return true;
        }
        k += 1;
    }
    proof {
        if dirs_of(rel@).contains("test"@) {
            let j = choose|j: int| 0 <= j < dirs_of(rel@).len() && dirs_of(rel@)[j] == "test"@;
            assert(cv[j] == "test"@);
        }
    }
    false
}

/// The shape of a `$`-bearing run.
#[derive(Clone, Copy, Debug, PartialEq, Eq, Structural)]
pub enum Shape {
    /// All `$`.
    Bare,
    /// Led by `$`.
    Leading,
    /// Ending in `$`.
    Trailing,
    /// `$` inside only.
    Inner,
}

/// The shape of a run, if it bears a `$`.
pub open spec fn shape_spec(run: Chars) -> Option<Shape> {
    if !run.contains('$') {
        None
    } else if forall|k: int| 0 <= k < run.len() ==> run[k] == '$' {
        Some(Shape::Bare)
    } else if run[0] == '$' {
        Some(Shape::Leading)
    } else if run.last() == '$' {
        Some(Shape::Trailing)
    } else {
        Some(Shape::Inner)
    }
}

/// The shape of one run: all `$`, `$`-led, `$`-ended, `$` inside; none
/// for a run without `$`.
pub fn shape_of(run: &str) -> (s: Option<Shape>)
    ensures
        s == shape_spec(run@),
{
    let r = chars_of(run);
    let mut dollars: usize = 0;
    let mut k: usize = 0;
    while k < r.len()
        invariant
            r@ == run@,
            k <= r@.len(),
            dollars <= k,
            dollars == 0 <==> forall|j: int| 0 <= j < k ==> r@[j] != '$',
            dollars == k <==> forall|j: int| 0 <= j < k ==> r@[j] == '$',
        decreases r.len() - k,
    {
        if r[k] == '$' {
            dollars += 1;
        }
        k += 1;
    }
    if dollars == 0 {
        assert(!run@.contains('$'));
        None
    } else {
        assert(run@.contains('$')) by {
            let j = choose|j: int| 0 <= j < k && r@[j] == '$';
            assert(run@[j] == '$');
        }
        if dollars == r.len() {
            Some(Shape::Bare)
        } else if r[0] == '$' {
            Some(Shape::Leading)
        } else if r[r.len() - 1] == '$' {
            Some(Shape::Trailing)
        } else {
            Some(Shape::Inner)
        }
    }
}

/// How many runs of `runs` have shape `s`.
pub open spec fn shape_count(runs: Seq<Chars>, s: Shape) -> nat
    decreases runs.len(),
{
    if runs.len() == 0 {
        0
    } else {
        shape_count(runs.drop_last(), s) + if shape_spec(runs.last()) == Some(s) {
            1nat
        } else {
            0nat
        }
    }
}

proof fn lemma_shape_count_le(runs: Seq<Chars>, s: Shape)
    ensures
        shape_count(runs, s) <= runs.len(),
    decreases runs.len(),
{
    if runs.len() > 0 {
        lemma_shape_count_le(runs.drop_last(), s);
    }
}

/// How many runs have each shape: all `$`, `$`-led, `$`-ended, `$`
/// inside.
pub fn count_shapes(runs: &Vec<String>) -> (c: (usize, usize, usize, usize))
    ensures
        c.0 == shape_count(views(runs@), Shape::Bare),
        c.1 == shape_count(views(runs@), Shape::Leading),
        c.2 == shape_count(views(runs@), Shape::Trailing),
        c.3 == shape_count(views(runs@), Shape::Inner),
{
    let ghost rv = views(runs@);
    let mut c: (usize, usize, usize, usize) = (0, 0, 0, 0);
    let mut k: usize = 0;
    while k < runs.len()
        invariant
            rv == views(runs@),
            k <= runs@.len(),
            c.0 == shape_count(rv.take(k as int), Shape::Bare),
            c.1 == shape_count(rv.take(k as int), Shape::Leading),
            c.2 == shape_count(rv.take(k as int), Shape::Trailing),
            c.3 == shape_count(rv.take(k as int), Shape::Inner),
        decreases runs.len() - k,
    {
        proof {
            assert(rv.take(k + 1).drop_last() =~= rv.take(k as int));
            assert(rv.take(k + 1).last() == runs@[k as int]@);
            lemma_shape_count_le(rv.take(k as int), Shape::Bare);
            lemma_shape_count_le(rv.take(k as int), Shape::Leading);
            lemma_shape_count_le(rv.take(k as int), Shape::Trailing);
            lemma_shape_count_le(rv.take(k as int), Shape::Inner);
        }
        match shape_of(runs[k].as_str()) {
            Some(Shape::Bare) => {
                c.0 = c.0 + 1;
            },
            Some(Shape::Leading) => {
                c.1 = c.1 + 1;
            },
            Some(Shape::Trailing) => {
                c.2 = c.2 + 1;
            },
            Some(Shape::Inner) => {
                c.3 = c.3 + 1;
            },
            None => {},
        }
        k += 1;
    }
    assert(rv.take(runs@.len() as int) =~= rv);
    c
}

/// What one file of the universe adds to the ledger: the `test`
/// directory count; for a JS-family file its `$` run shapes; for any
/// other, the union emitter's own tokens over the full universe and,
/// unless the file is late-NUL, over the second one.
pub open spec fn file_added(
    old: Ledger,
    new: Ledger,
    rel: Chars,
    js: bool,
    union_only: nat,
    runs: Seq<Chars>,
) -> bool {
    &&& new.test_singular_files == old.test_singular_files + if under_test_spec(rel) {
        1nat
    } else {
        0nat
    }
    &&& new.dollar_bare == old.dollar_bare + if js {
        shape_count(runs, Shape::Bare)
    } else {
        0
    }
    &&& new.dollar_leading == old.dollar_leading + if js {
        shape_count(runs, Shape::Leading)
    } else {
        0
    }
    &&& new.dollar_trailing == old.dollar_trailing + if js {
        shape_count(runs, Shape::Trailing)
    } else {
        0
    }
    &&& new.dollar_inner == old.dollar_inner + if js {
        shape_count(runs, Shape::Inner)
    } else {
        0
    }
    &&& new.union_rows_full == old.union_rows_full + if js {
        0
    } else {
        union_only
    }
    &&& new.union_rows_no_late_nul == old.union_rows_no_late_nul + if js || late_nul_spec(rel) {
        0
    } else {
        union_only
    }
    &&& new.union_advisory_diff == old.union_advisory_diff
    &&& new.union_advisory_rows == old.union_advisory_rows
    &&& new.js_suppressed == old.js_suppressed
    &&& new.js_no_other_source == old.js_no_other_source
    &&& new.js_domain == old.js_domain
    &&& new.pkg_test_dirs == old.pkg_test_dirs
    &&& new.protocol_hits == old.protocol_hits
}

impl Ledger {
    /// Add one file of the universe: `js` says whether the JS arm reads
    /// it, `union_only` how many distinct tokens only the union emitter
    /// gives it, `runs` its identifier runs.
    pub fn add_file(&mut self, rel: &str, js: bool, union_only: usize, runs: &Vec<String>)
        requires
            old(self).test_singular_files < usize::MAX,
            old(self).dollar_bare + runs@.len() <= usize::MAX,
            old(self).dollar_leading + runs@.len() <= usize::MAX,
            old(self).dollar_trailing + runs@.len() <= usize::MAX,
            old(self).dollar_inner + runs@.len() <= usize::MAX,
            old(self).union_rows_full + union_only <= usize::MAX,
            old(self).union_rows_no_late_nul + union_only <= usize::MAX,
        ensures
            file_added(*old(self), *final(self), rel@, js, union_only as nat, views(runs@)),
    {
        if under_test(rel) {
            self.test_singular_files += 1;
        }
        if js {
            let (bare, leading, trailing, inner) = count_shapes(runs);
            proof {
                assert(views(runs@).len() == runs@.len());
                lemma_shape_count_le(views(runs@), Shape::Bare);
                lemma_shape_count_le(views(runs@), Shape::Leading);
                lemma_shape_count_le(views(runs@), Shape::Trailing);
                lemma_shape_count_le(views(runs@), Shape::Inner);
            }
            self.dollar_bare += bare;
            self.dollar_leading += leading;
            self.dollar_trailing += trailing;
            self.dollar_inner += inner;
        } else {
            self.union_rows_full += union_only;
            if !late_nul(rel) {
                self.union_rows_no_late_nul += union_only;
            }
        }
    }
}

impl Ledger {
    /// One declaration the veto takes under the real arms and would not
    /// take with the union emitter silent, named by `row`.
    pub fn add_advisory(&mut self, row: &str)
        requires
            old(self).union_advisory_diff < usize::MAX,
        ensures
            final(self).union_advisory_diff == old(self).union_advisory_diff + 1,
            views(final(self).union_advisory_rows@) == views(old(self).union_advisory_rows@).push(row@),
            final(self).union_rows_full == old(self).union_rows_full,
            final(self).union_rows_no_late_nul == old(self).union_rows_no_late_nul,
            final(self).js_suppressed == old(self).js_suppressed,
            final(self).js_no_other_source == old(self).js_no_other_source,
            final(self).js_domain == old(self).js_domain,
            final(self).dollar_bare == old(self).dollar_bare,
            final(self).dollar_leading == old(self).dollar_leading,
            final(self).dollar_trailing == old(self).dollar_trailing,
            final(self).dollar_inner == old(self).dollar_inner,
            final(self).test_singular_files == old(self).test_singular_files,
            final(self).pkg_test_dirs == old(self).pkg_test_dirs,
            final(self).protocol_hits == old(self).protocol_hits,
    {
        self.union_advisory_diff += 1;
        self.union_advisory_rows.push(string_of(&chars_of(row)));
        assert(views(self.union_advisory_rows@) =~= views(old(self).union_advisory_rows@).push(row@));
    }
}

/// Every advisory the ledger counts is named beside the count.
pub open spec fn advisories_named(l: Ledger) -> bool {
    l.union_advisory_rows@.len() == l.union_advisory_diff
}

/// The count and the named rows move together: a fresh ledger names
/// none and counts none, and a ledger that names every advisory still
/// does after one more (`add_advisory`); every other update leaves both
/// as they were.
pub proof fn lemma_advisories_stay_named(before: Ledger, after: Ledger)
    requires
        advisories_named(before),
        after.union_advisory_diff == before.union_advisory_diff + 1 && views(after.union_advisory_rows@).len()
            == views(before.union_advisory_rows@).len() + 1 || after.union_advisory_diff
            == before.union_advisory_diff && after.union_advisory_rows == before.union_advisory_rows,
    ensures
        advisories_named(after),
{
}

/// How many of `s` satisfy `p`.
pub open spec fn count_where(s: Seq<Chars>, p: spec_fn(Chars) -> bool) -> nat
    decreases s.len(),
{
    if s.len() == 0 {
        0
    } else {
        count_where(s.drop_last(), p) + if p(s.last()) {
            1nat
        } else {
            0nat
        }
    }
}

proof fn lemma_count_where_le(s: Seq<Chars>, p: spec_fn(Chars) -> bool)
    ensures
        count_where(s, p) <= s.len(),
    decreases s.len(),
{
    if s.len() > 0 {
        lemma_count_where_le(s.drop_last(), p);
    }
}

/// A piece no file spells under the real arms.
pub open spec fn unspelled(spelled: Seq<Chars>) -> spec_fn(Chars) -> bool {
    |x: Chars| !spelled.contains(x)
}

/// A piece no file spells under the real arms, and the domain names.
pub open spec fn unspelled_named(spelled: Seq<Chars>, domain: Seq<Chars>) -> spec_fn(Chars) -> bool {
    |x: Chars| !spelled.contains(x) && domain.contains(x)
}

fn holds(v: &Vec<String>, x: &Vec<char>) -> (b: bool)
    ensures
        b == views(v@).contains(x@),
{
    let ghost vv = views(v@);
    let mut k: usize = 0;
    while k < v.len()
        invariant
            vv == views(v@),
            k <= v@.len(),
            forall|j: int| 0 <= j < k ==> vv[j] != x@,
        decreases v.len() - k,
    {
        if same(&chars_of(v[k].as_str()), x) {
            assert(vv[k as int] == x@);
            return true;
        }
        k += 1;
    }
    false
}

impl Ledger {
    /// The JS arm's collateral: `pieces` are the distinct pieces it
    /// silences across the corpus, `spelled` the tokens some file spells
    /// under the real arms, `domain` the declared names.
    pub fn js_collateral(&mut self, pieces: &Vec<String>, spelled: &Vec<String>, domain: &Vec<String>)
        requires
            views(pieces@).no_duplicates(),
        ensures
            final(self).js_suppressed == pieces@.len(),
            final(self).js_no_other_source == count_where(views(pieces@), unspelled(views(spelled@))),
            final(self).js_domain == count_where(
                views(pieces@),
                unspelled_named(views(spelled@), views(domain@)),
            ),
            final(self).union_rows_full == old(self).union_rows_full,
            final(self).union_rows_no_late_nul == old(self).union_rows_no_late_nul,
            final(self).union_advisory_diff == old(self).union_advisory_diff,
            final(self).union_advisory_rows == old(self).union_advisory_rows,
            final(self).dollar_bare == old(self).dollar_bare,
            final(self).dollar_leading == old(self).dollar_leading,
            final(self).dollar_trailing == old(self).dollar_trailing,
            final(self).dollar_inner == old(self).dollar_inner,
            final(self).test_singular_files == old(self).test_singular_files,
            final(self).pkg_test_dirs == old(self).pkg_test_dirs,
            final(self).protocol_hits == old(self).protocol_hits,
    {
        let ghost pv = views(pieces@);
        let ghost rv = views(spelled@);
        let ghost dv = views(domain@);
        let mut none: usize = 0;
        let mut named: usize = 0;
        let mut k: usize = 0;
        while k < pieces.len()
            invariant
                pv == views(pieces@),
                rv == views(spelled@),
                dv == views(domain@),
                k <= pieces@.len(),
                none == count_where(pv.take(k as int), unspelled(rv)),
                named == count_where(pv.take(k as int), unspelled_named(rv, dv)),
            decreases pieces.len() - k,
        {
            let x = chars_of(pieces[k].as_str());
            proof {
                assert(pv.take(k + 1).drop_last() =~= pv.take(k as int));
                assert(pv.take(k + 1).last() == x@);
                lemma_count_where_le(pv.take(k as int), unspelled(rv));
                lemma_count_where_le(pv.take(k as int), unspelled_named(rv, dv));
            }
            if !holds(spelled, &x) {
                none += 1;
                if holds(domain, &x) {
                    named += 1;
                }
            }
            k += 1;
        }
        assert(pv.take(pieces@.len() as int) =~= pv);
        self.js_suppressed = pieces.len();
        self.js_no_other_source = none;
        self.js_domain = named;
    }
}

/// The hits a table gives `key`: the count of its first entry named
/// `key` from `i` on, none where no entry is.
pub open spec fn hits_from(t: Seq<(String, usize)>, key: Chars, i: int) -> nat
    decreases t.len() - i,
{
    if i < 0 || i >= t.len() {
        0
    } else if t[i].0@ == key {
        t[i].1 as nat
    } else {
        hits_from(t, key, i + 1)
    }
}

pub open spec fn hits(t: Seq<(String, usize)>, key: Chars) -> nat {
    hits_from(t, key, 0)
}

proof fn lemma_hits_update(t: Seq<(String, usize)>, j: int, e: (String, usize), key: Chars, i: int)
    requires
        0 <= i <= j < t.len(),
        e.0@ == t[j].0@,
        forall|m: int| i <= m < j ==> t[m].0@ != t[j].0@,
    ensures
        hits_from(t.update(j, e), key, i) == if key == t[j].0@ {
            e.1 as nat
        } else {
            hits_from(t, key, i)
        },
    decreases j - i,
{
    let u = t.update(j, e);
    if i < j {
        assert(u[i] == t[i]);
        if t[i].0@ != key {
            lemma_hits_update(t, j, e, key, i + 1);
        }
    } else {
        if key != t[j].0@ {
            lemma_hits_same_after(t, u, key, j + 1);
        }
    }
}

proof fn lemma_hits_same_after(t: Seq<(String, usize)>, u: Seq<(String, usize)>, key: Chars, i: int)
    requires
        0 <= i,
        t.len() == u.len(),
        forall|m: int| i <= m < t.len() ==> t[m] == u[m],
    ensures
        hits_from(u, key, i) == hits_from(t, key, i),
    decreases t.len() - i,
{
    if i < t.len() {
        lemma_hits_same_after(t, u, key, i + 1);
    }
}

proof fn lemma_hits_push(t: Seq<(String, usize)>, e: (String, usize), key: Chars, i: int)
    requires
        0 <= i <= t.len(),
        forall|m: int| i <= m < t.len() ==> t[m].0@ != e.0@,
    ensures
        hits_from(t.push(e), key, i) == if key == e.0@ {
            e.1 as nat
        } else {
            hits_from(t, key, i)
        },
    decreases t.len() - i,
{
    let u = t.push(e);
    if i < t.len() {
        assert(u[i] == t[i]);
        if t[i].0@ != key {
            lemma_hits_push(t, e, key, i + 1);
        }
    } else {
        assert(u[i] == e);
        assert(hits_from(u, key, i + 1) == 0);
    }
}

/// One more hit for `key` in a table of hits.
fn bump(t: &mut Vec<(String, usize)>, key: &str)
    requires
        hits(old(t)@, key@) < usize::MAX,
    ensures
        forall|k: Chars|
            #[trigger] hits(final(t)@, k) == hits(old(t)@, k) + if k == key@ {
                1nat
            } else {
                0nat
            },
{
    let want = chars_of(key);
    let ghost t0 = t@;
    let mut j: usize = 0;
    while j < t.len()
        invariant
            t0 == t@,
            t0 == old(t)@,
            want@ == key@,
            j <= t0.len(),
            hits(t0, key@) < usize::MAX,
            hits(t0, key@) == hits_from(t0, key@, j as int),
            forall|m: int| 0 <= m < j ==> t0[m].0@ != key@,
        decreases t.len() - j,
    {
        if same(&chars_of(t[j].0.as_str()), &want) {
            let n = t[j].1;
            assert(n == hits(t0, key@));
            let e = (string_of(&want), n + 1);
            proof {
                assert forall|k: Chars| #[trigger] hits(t0.update(j as int, e), k) == hits(t0, k) + if k
                    == key@ {
                    1nat
                } else {
                    0nat
                } by {
                    lemma_hits_update(t0, j as int, e, k, 0);
                    if k == key@ {
                        lemma_hits_prefix(t0, k, j as int);
                    }
                }
            }
            t.set(j, e);
            assert(t@ == t0.update(j as int, e));
            return;
        }
        j += 1;
    }
    let e = (string_of(&want), 1usize);
    proof {
        assert forall|k: Chars| #[trigger] hits(t0.push(e), k) == hits(t0, k) + if k == key@ {
            1nat
        } else {
            0nat
        } by {
            lemma_hits_push(t0, e, k, 0);
            if k == key@ {
                lemma_hits_prefix(t0, k, t0.len() as int);
            }
        }
    }
    t.push(e);
}

impl Ledger {
    /// One protocol-table hit for `key` (`lang:name`).
    pub fn protocol_hit(&mut self, key: &str)
        requires
            hits(old(self).protocol_hits@, key@) < usize::MAX,
        ensures
            forall|k: Chars|
                #[trigger] hits(final(self).protocol_hits@, k) == hits(old(self).protocol_hits@, k) + if k
                    == key@ {
                    1nat
                } else {
                    0nat
                },
            final(self).union_rows_full == old(self).union_rows_full,
            final(self).union_rows_no_late_nul == old(self).union_rows_no_late_nul,
            final(self).union_advisory_diff == old(self).union_advisory_diff,
            final(self).union_advisory_rows == old(self).union_advisory_rows,
            final(self).js_suppressed == old(self).js_suppressed,
            final(self).js_no_other_source == old(self).js_no_other_source,
            final(self).js_domain == old(self).js_domain,
            final(self).dollar_bare == old(self).dollar_bare,
            final(self).dollar_leading == old(self).dollar_leading,
            final(self).dollar_trailing == old(self).dollar_trailing,
            final(self).dollar_inner == old(self).dollar_inner,
            final(self).test_singular_files == old(self).test_singular_files,
            final(self).pkg_test_dirs == old(self).pkg_test_dirs,
    {
        bump(&mut self.protocol_hits, key);
    }
}

proof fn lemma_hits_prefix(t: Seq<(String, usize)>, key: Chars, j: int)
    requires
        0 <= j <= t.len(),
        forall|m: int| 0 <= m < j ==> t[m].0@ != key,
    ensures
        hits(t, key) == hits_from(t, key, j),
{
    assert forall|i: int| 0 <= i <= j implies hits_from(t, key, i) == hits_from(t, key, j) by {
        lemma_hits_skip(t, key, i, j);
    }
}

proof fn lemma_hits_skip(t: Seq<(String, usize)>, key: Chars, i: int, j: int)
    requires
        0 <= i <= j <= t.len(),
        forall|m: int| i <= m < j ==> t[m].0@ != key,
    ensures
        hits_from(t, key, i) == hits_from(t, key, j),
    decreases j - i,
{
    if i < j {
        lemma_hits_skip(t, key, i + 1, j);
    }
}

/// `parts` joined by `sep`.
pub open spec fn join_with(parts: Seq<Chars>, sep: char) -> Chars
    decreases parts.len(),
{
    if parts.len() == 0 {
        Seq::empty()
    } else if parts.len() == 1 {
        parts[0]
    } else {
        join_with(parts.drop_last(), sep) + seq![sep] + parts.last()
    }
}

/// The first directory from `i` on named `benches` or `examples` whose
/// component alone gives the Test bit: the probe bit absent on the
/// prefix before it and present with it.
pub open spec fn first_test_dir(dirs: Seq<Chars>, tested: Seq<bool>, i: int) -> Option<int>
    decreases dirs.len() - i,
{
    if i < 0 || i >= dirs.len() {
        None
    } else if (dirs[i] == "benches"@ || dirs[i] == "examples"@) && !tested[i] && tested[i + 1] {
        Some(i)
    } else {
        first_test_dir(dirs, tested, i + 1)
    }
}

/// The `<pkg>/{benches,examples}` prefix of `rel` whose component alone
/// gives its file the Test bit, by the path rule's answers.
pub open spec fn pkg_test_dir_spec(rel: Chars, tested: Seq<bool>) -> Option<Chars> {
    match first_test_dir(dirs_of(rel), tested, 0) {
        Some(i) => Some(join_with(dirs_of(rel).take(i + 1), '/')),
        None => None,
    }
}

/// The `<pkg>/{benches,examples}` prefix of `rel` whose component alone
/// gives its file the Test bit. `tested[i]` is the path rule's Test bit
/// for a probe file under the first `i` directories of `rel`.
#[verifier::loop_isolation(false)]
pub fn pkg_test_dir(rel: &str, tested: &Vec<bool>) -> (r: Option<String>)
    requires
        tested@.len() == dirs_of(rel@).len() + 1,
    ensures
        match pkg_test_dir_spec(rel@, tested@) {
            Some(d) => r matches Some(s) && s@ == d,
            None => r is None,
        },
{
    let comps = split_char(&chars_of(rel), '/');
    let ghost cv = comps@.map_values(|p: Vec<char>| p@);
    proof {
        crate::text::lemma_split_nonempty(rel@, '/');
    }
    let n = comps.len() - 1;
    let ghost dirs = dirs_of(rel@);
    assert(dirs =~= cv.drop_last());
    let benches = chars_of("benches");
    let examples = chars_of("examples");
    let mut i: usize = 0;
    while i < n
        invariant
            cv == comps@.map_values(|p: Vec<char>| p@),
            dirs == cv.drop_last(),
            n + 1 == cv.len(),
            tested@.len() == n + 1,
            benches@ == "benches"@,
            examples@ == "examples"@,
            i <= n,
            first_test_dir(dirs, tested@, 0) == first_test_dir(dirs, tested@, i as int),
        decreases n - i,
    {
        assert(dirs[i as int] == comps@[i as int]@);
        if (same(&comps[i], &benches) || same(&comps[i], &examples)) && !tested[i] && tested[i + 1] {
            let mut out: Vec<char> = Vec::new();
            let mut k: usize = 0;
            while k <= i
                invariant
                    cv == comps@.map_values(|p: Vec<char>| p@),
                    dirs == cv.drop_last(),
                    i < n,
                    n + 1 == cv.len(),
                    k <= i + 1,
                    out@ == join_with(dirs.take(k as int), '/'),
                decreases i + 1 - k,
            {
                assert(dirs.take(k + 1).drop_last() =~= dirs.take(k as int));
                assert(dirs.take(k + 1).last() == comps@[k as int]@);
                if k > 0 {
                    let mut sep: Vec<char> = Vec::new();
                    sep.push('/');
                    out = concat(&out, &sep);
                    out = concat(&out, &comps[k]);
                    assert(out@ =~= join_with(dirs.take(k as int), '/') + seq!['/'] + comps@[k as int]@);
                } else {
                    out = concat(&out, &comps[k]);
                    assert(out@ =~= comps@[0]@);
                    assert(dirs.take(1).len() == 1);
                }
                k += 1;
            }
            return Some(string_of(&out));
        }
        i += 1;
    }
    None
}

impl Ledger {
    /// Enter a `<pkg>/{benches,examples}` directory, once.
    pub fn add_pkg_test_dir(&mut self, dir: &str)
        ensures
            views(final(self).pkg_test_dirs@).to_set() == views(old(self).pkg_test_dirs@).to_set().insert(
                dir@,
            ),
            views(old(self).pkg_test_dirs@).no_duplicates() ==> views(
                final(self).pkg_test_dirs@,
            ).no_duplicates(),
            final(self).union_rows_full == old(self).union_rows_full,
            final(self).union_rows_no_late_nul == old(self).union_rows_no_late_nul,
            final(self).union_advisory_diff == old(self).union_advisory_diff,
            final(self).union_advisory_rows == old(self).union_advisory_rows,
            final(self).js_suppressed == old(self).js_suppressed,
            final(self).js_no_other_source == old(self).js_no_other_source,
            final(self).js_domain == old(self).js_domain,
            final(self).dollar_bare == old(self).dollar_bare,
            final(self).dollar_leading == old(self).dollar_leading,
            final(self).dollar_trailing == old(self).dollar_trailing,
            final(self).dollar_inner == old(self).dollar_inner,
            final(self).test_singular_files == old(self).test_singular_files,
            final(self).protocol_hits == old(self).protocol_hits,
    {
        let d = chars_of(dir);
        let ghost before = views(self.pkg_test_dirs@);
        if holds(&self.pkg_test_dirs, &d) {
            assert(before.to_set().insert(dir@) =~= before.to_set());
            return;
        }
        self.pkg_test_dirs.push(string_of(&d));
        proof {
            assert(views(self.pkg_test_dirs@) =~= before.push(dir@));
            assert(before.push(dir@).to_set() =~= before.to_set().insert(dir@)) by {
                broadcast use vstd::seq_lib::lemma_seq_contains_after_push;
            }
            if before.no_duplicates() {
                assert forall|i: int, j: int|
                    0 <= i < before.push(dir@).len() && 0 <= j < before.push(dir@).len() && i != j
                        implies before.push(dir@)[i] != before.push(dir@)[j] by {
                    if i < before.len() && j < before.len() {
                    } else if i < before.len() {
                        assert(before.contains(before[i]));
                    } else {
                        assert(before.contains(before[j]));
                    }
                }
            }
        }
    }
}

impl Ledger {
    /// One declaration of the domain into the ledger: `taken` and
    /// `taken_strict` are the veto's answers under the real arms and with the
    /// union emitter silent (all three channels asked on both sides); a
    /// declaration the first takes and the second does not is an
    /// advisory, named by `row`. `protocol` is its `lang:name` where it
    /// carries the protocol bit, `test_dir` the `<pkg>/{benches,examples}`
    /// directory that gives its file the Test bit, if any.
    pub fn add_decl(&mut self, taken: bool, taken_strict: bool, row: &str, protocol: Option<&str>, test_dir: Option<&str>)
        requires
            taken && !taken_strict ==> old(self).union_advisory_diff < usize::MAX,
            protocol matches Some(k) ==> hits(old(self).protocol_hits@, k@) < usize::MAX,
        ensures
            final(self).union_advisory_diff == old(self).union_advisory_diff + if taken && !taken_strict {
                1int
            } else {
                0int
            },
            views(final(self).union_advisory_rows@) == if taken && !taken_strict {
                views(old(self).union_advisory_rows@).push(row@)
            } else {
                views(old(self).union_advisory_rows@)
            },
            forall|k: Chars|
                #[trigger] hits(final(self).protocol_hits@, k) == hits(old(self).protocol_hits@, k) + if protocol
                    matches Some(p) && p@ == k {
                    1nat
                } else {
                    0nat
                },
            views(final(self).pkg_test_dirs@).to_set() == match test_dir {
                Some(d) => views(old(self).pkg_test_dirs@).to_set().insert(d@),
                None => views(old(self).pkg_test_dirs@).to_set(),
            },
            views(old(self).pkg_test_dirs@).no_duplicates() ==> views(final(self).pkg_test_dirs@).no_duplicates(),
            final(self).union_rows_full == old(self).union_rows_full,
            final(self).union_rows_no_late_nul == old(self).union_rows_no_late_nul,
            final(self).js_suppressed == old(self).js_suppressed,
            final(self).js_no_other_source == old(self).js_no_other_source,
            final(self).js_domain == old(self).js_domain,
            final(self).dollar_bare == old(self).dollar_bare,
            final(self).dollar_leading == old(self).dollar_leading,
            final(self).dollar_trailing == old(self).dollar_trailing,
            final(self).dollar_inner == old(self).dollar_inner,
            final(self).test_singular_files == old(self).test_singular_files,
    {
        if taken && !taken_strict {
            self.add_advisory(row);
        }
        match protocol {
            Some(k) => self.protocol_hit(k),
            None => {},
        }
        match test_dir {
            Some(d) => self.add_pkg_test_dir(d),
            None => {},
        }
    }
}

} // verus!
