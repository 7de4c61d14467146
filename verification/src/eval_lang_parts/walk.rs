//! The product's own walk over a frozen universe, as the language exams
//! score it: which universe files the walk refuses, how a truth naming
//! one is scored, and what a truth of an exam may name.

use super::{Exam, Reach};
use crate::eval_support::graph::{keyword_index, keyword_of};
use crate::eval_support::tally::{site_entries, site_summary, sum_all, tallied, SiteFile};
use crate::text::{
    canon, canonical, chars_of, concat, find_char, index_from, lemma_index_from,
    lemma_rindex_to, rfind_char, rindex, same, slice_vec, starts, starts_with, string_of,
    views, Chars,
};
use vstd::prelude::*;

verus! {

/// The walk's two sets: the paths it refuses at the pinned tip, and the
/// ones it reads.
pub struct Walk {
    pub refused: Vec<String>,
    pub walked: Vec<String>,
}

/// A walk's sets are held sorted, each path once.
pub open spec fn walk_wf(w: Walk) -> bool {
    canonical(views(w.refused@)) && canonical(views(w.walked@))
}

fn copy_str(s: &String) -> (out: String)
    ensures
        out@ == s@,
{
    string_of(&chars_of(s.as_str()))
}

fn member(set: &Vec<String>, x: &[char]) -> (b: bool)
    ensures
        b == views(set@).contains(x@),
{
    let mut i: usize = 0;
    while i < set.len()
        invariant
            i <= set@.len(),
            forall|j: int| 0 <= j < i ==> set@[j]@ != x@,
        decreases set.len() - i,
    {
        if same(&chars_of(set[i].as_str()), x) {
            assert(views(set@)[i as int] == x@);
            return true;
        }
        i += 1;
    }
    assert forall|j: int| 0 <= j < views(set@).len() implies views(set@)[j] != x@ by {
        assert(views(set@)[j] == set@[j]@);
    }
    false
}

/// Whether some path of the set lies under `dir`.
pub open spec fn under(set: Seq<Chars>, dir: Chars) -> bool {
    exists|i: int| 0 <= i < set.len() && starts(#[trigger] set[i], dir)
}

fn any_under(set: &Vec<String>, dir: &[char]) -> (b: bool)
    ensures
        b == under(views(set@), dir@),
{
    let mut i: usize = 0;
    while i < set.len()
        invariant
            i <= set@.len(),
            forall|j: int| 0 <= j < i ==> !starts(#[trigger] views(set@)[j], dir@),
        decreases set.len() - i,
    {
        let f = chars_of(set[i].as_str());
        assert(views(set@)[i as int] == f@);
        if starts_with(&f, dir) {
            return true;
        }
        i += 1;
    }
    false
}

/// The file a truth names: what precedes its first `#`.
pub open spec fn truth_file(truth: Chars) -> Chars {
    match index_from(truth, '#', 0) {
        Some(i) => truth.take(i),
        None => truth,
    }
}

/// Whether a truth names a target the walk refuses: a refused file (or
/// a unit inside one), or a directory holding refused files and no
/// walked one. A keyword names no target.
pub open spec fn unwalked_spec(refused: Seq<Chars>, walked: Seq<Chars>, truth: Chars) -> bool {
    if keyword_of(truth) is Some {
        false
    } else {
        let file = truth_file(truth);
        let dir = file + seq!['/'];
        refused.contains(file) || (under(refused, dir) && !under(walked, dir))
    }
}

impl Walk {
    /// The walk over a universe: the refused paths, and the universe's
    /// other paths as the walked ones.
    pub fn new(universe: &Vec<String>, refused: Vec<String>) -> (w: Walk)
        ensures
            walk_wf(w),
            views(w.refused@).to_set() == views(refused@).to_set(),
            views(w.walked@).to_set() == views(universe@).to_set().difference(
                views(refused@).to_set(),
            ),
    {
        let r = canon(refused);
        let mut kept: Vec<String> = Vec::new();
        let mut i: usize = 0;
        while i < universe.len()
            invariant
                i <= universe@.len(),
                views(kept@).to_set() == views(universe@).take(i as int).to_set().difference(
                    views(r@).to_set(),
                ),
            decreases universe.len() - i,
        {
            let ghost before = views(kept@);
            let u = chars_of(universe[i].as_str());
            assert(views(universe@)[i as int] == u@);
            let inside = member(&r, &u);
            proof {
                let a = views(universe@).take(i as int);
                assert(views(universe@).take(i + 1) =~= a + seq![u@]);
                Seq::lemma_to_set_insert_commutes(a, u@);
            }
            if !inside {
                kept.push(string_of(&u));
                proof {
                    assert(views(kept@) =~= before + seq![u@]);
                    Seq::lemma_to_set_insert_commutes(before, u@);
                    assert(views(kept@).to_set() =~= views(universe@).take(i + 1).to_set().difference(
                        views(r@).to_set(),
                    ));
                }
            } else {
                proof {
                    assert(views(kept@).to_set() =~= views(universe@).take(i + 1).to_set().difference(
                        views(r@).to_set(),
                    ));
                }
            }
            i += 1;
        }
        assert(views(universe@).take(universe@.len() as int) =~= views(universe@));
        let walked = canon(kept);
        Walk { refused: r, walked }
    }

    /// Whether a truth names a target the walk refuses: a refused file
    /// (or a unit inside one), or a directory holding refused files and
    /// no walked one.
    pub fn unwalked(&self, truth: &str) -> (b: bool)
        ensures
            b == unwalked_spec(views(self.refused@), views(self.walked@), truth@),
    {
        if keyword_index(truth).is_some() {
            return false;
        }
        let t = chars_of(truth);
        proof {
            lemma_index_from(t@, '#', 0);
        }
        let file = match find_char(&t, '#') {
            Some(i) => {
                assert(i < t.len());
                let f = slice_vec(&t, 0, i);
                assert(f@ =~= t@.take(i as int));
                f
            },
            None => {
                let f = slice_vec(&t, 0, t.len());
                assert(f@ =~= t@);
                f
            },
        };
        assert(file@ == truth_file(truth@));
        let mut dir = file.clone();
        dir.push('/');
        assert(dir@ =~= file@ + seq!['/']);
        member(&self.refused, &file) || (any_under(&self.refused, &dir) && !any_under(
            &self.walked,
            &dir,
        ))
    }

    /// A truth as scored: an unwalked target reads as "external".
    pub fn scored(&self, truth: &str) -> (s: String)
        ensures
            s@ == if unwalked_spec(views(self.refused@), views(self.walked@), truth@) {
                "external"@
            } else {
                truth@
            },
    {
        if self.unwalked(truth) {
            string_of(&chars_of("external"))
        } else {
            string_of(&chars_of(truth))
        }
    }
}

/// Copies of some strings.
fn copies(v: &Vec<String>) -> (out: Vec<String>)
    ensures
        views(out@) == views(v@),
{
    let mut out: Vec<String> = Vec::new();
    let mut i: usize = 0;
    while i < v.len()
        invariant
            i <= v@.len(),
            views(out@) == views(v@).take(i as int),
        decreases v.len() - i,
    {
        let ghost before = views(out@);
        out.push(copy_str(&v[i]));
        assert(views(v@)[i as int] == v@[i as int]@);
        assert(views(out@) =~= before.push(v@[i as int]@));
        assert(views(v@).take(i + 1) =~= views(v@).take(i as int).push(v@[i as int]@));
        i += 1;
    }
    assert(views(v@).take(v@.len() as int) =~= views(v@));
    out
}

/// What a truth of the exam may name, and among it what the walk
/// refuses outside the universe: the universe alone (nothing lies
/// outside it), or every path of the pinned tree — `read` and `unread`
/// — the unread ones outside the universe being `unreached`.
pub fn reach(exam: &Exam, universe: &Vec<String>, read: &Vec<String>, unread: &Vec<String>) -> (r:
    (Vec<String>, Vec<String>))
    ensures
        canonical(views(r.0@)),
        canonical(views(r.1@)),
        exam.reach == Reach::Universe ==> views(r.0@).to_set() == views(universe@).to_set()
            && r.1@.len() == 0,
        exam.reach == Reach::Tree ==> views(r.0@).to_set() == views(read@).to_set().union(
            views(unread@).to_set(),
        ) && views(r.1@).to_set() == views(unread@).to_set().difference(views(universe@).to_set()),
{
    match exam.reach {
        Reach::Universe => {
            let none: Vec<String> = Vec::new();
            assert(views(none@) =~= Seq::<Chars>::empty());
            (canon(copies(universe)), none)
        },
        Reach::Tree => {
            let mut all = copies(read);
            let mut out: Vec<String> = Vec::new();
            let mut i: usize = 0;
            while i < unread.len()
                invariant
                    i <= unread@.len(),
                    views(all@) == views(read@) + views(unread@).take(i as int),
                    views(out@).to_set() == views(unread@).take(i as int).to_set().difference(
                        views(universe@).to_set(),
                    ),
                decreases unread.len() - i,
            {
                let u = chars_of(unread[i].as_str());
                assert(views(unread@)[i as int] == u@);
                let ghost b_all = views(all@);
                let ghost b_out = views(out@);
                all.push(string_of(&u));
                let inside = member(universe, &u);
                if !inside {
                    out.push(string_of(&u));
                }
                proof {
                    let a = views(unread@).take(i as int);
                    assert(views(unread@).take(i + 1) =~= a + seq![u@]);
                    Seq::lemma_to_set_insert_commutes(a, u@);
                    Seq::lemma_to_set_insert_commutes(b_out, u@);
                    assert(views(all@) =~= b_all.push(u@));
                    assert(views(all@) =~= views(read@) + views(unread@).take(i + 1));
                    if !inside {
                        assert(views(out@) =~= b_out + seq![u@]);
                    } else {
                        assert(views(out@) =~= b_out);
                    }
                    assert(views(out@).to_set() =~= views(unread@).take(i + 1).to_set().difference(
                        views(universe@).to_set(),
                    ));
                }
                i += 1;
            }
            proof {
                assert(views(unread@).take(unread@.len() as int) =~= views(unread@));
                vstd::seq_lib::seq_to_set_distributes_over_add(views(read@), views(unread@));
            }
            (canon(all), canon(out))
        },
    }
}

/// The extension of a path: what follows its last `.`, empty without one.
pub open spec fn ext_of(path: Chars) -> Chars {
    match rindex(path, '.') {
        Some(i) => path.skip(i + 1),
        None => Seq::empty(),
    }
}

/// Whether a path is of the exam's language by extension.
pub fn in_scope(exam: &Exam, path: &str) -> (b: bool)
    ensures
        b == views(exam.exts@).contains(ext_of(path@)),
{
    let p = chars_of(path);
    proof {
        lemma_rindex_to(p@, '.', p@.len() as int);
    }
    let ext = match rfind_char(&p, '.') {
        Some(i) => {
            assert(i < p.len());
            slice_vec(&p, i + 1, p.len())
        },
        None => Vec::new(),
    };
    assert(ext@ =~= ext_of(path@));
    member(&exam.exts, &ext)
}


/// The doc's record of a walk: the refused universe files, the paths
/// outside the universe the walk refuses where a truth may name them,
/// and the refused files' sites per `lang/kind`.
pub struct WalkRecord {
    pub refused: Vec<String>,
    pub unreached: Vec<String>,
    pub refused_sites_by: Vec<(String, u64)>,
}

/// The universe files the walk refuses.
pub open spec fn refused_rows(files: Seq<SiteFile>, refused: Seq<Chars>) -> Seq<SiteFile> {
    files.filter(|f: SiteFile| refused.contains(f.path@))
}

fn is_refused(refused: &Vec<String>, path: &String) -> (b: bool)
    ensures
        b == views(refused@).contains(path@),
{
    let p = chars_of(path.as_str());
    let mut i: usize = 0;
    while i < refused.len()
        invariant
            p@ == path@,
            i <= refused@.len(),
            forall|j: int| 0 <= j < i ==> views(refused@)[j] != path@,
        decreases refused.len() - i,
    {
        assert(views(refused@)[i as int] == refused@[i as int]@);
        if same(&chars_of(refused[i].as_str()), &p) {
            return true;
        }
        i += 1;
    }
    false
}

/// The doc's record of the walk: the refused universe files and their
/// sites per (lang, kind) — re-derived from the frozen slice's own rows,
/// so the ledger and the refused sites add up to the universe — and
/// `unreached`, the paths outside the universe the walk refuses where a
/// truth may name them, each set sorted, each path once.
pub fn walk_record(files: Vec<SiteFile>, refused: &Vec<String>, unreached: &Vec<String>) -> (r: WalkRecord)
    requires
        sum_all(site_entries(refused_rows(files@, views(refused@)))) <= u64::MAX,
    ensures
        canonical(views(r.refused@)),
        views(r.refused@).to_set() == views(refused@).to_set(),
        canonical(views(r.unreached@)),
        views(r.unreached@).to_set() == views(unreached@).to_set(),
        tallied(r.refused_sites_by@, site_entries(refused_rows(files@, views(refused@)))),
{
    let ghost start = files@;
    let ghost p = |f: SiteFile| views(refused@).contains(f.path@);
    let mut rest = files;
    let mut rows: Vec<SiteFile> = Vec::new();
    let mut i: usize = 0;
    let n = rest.len();
    while i < n
        invariant
            p == (|f: SiteFile| views(refused@).contains(f.path@)),
            n == start.len(),
            i <= n,
            rest@ == start.skip(i as int),
            rows@ == start.take(i as int).filter(p),
        decreases n - i,
    {
        let f = rest.remove(0);
        proof {
            assert(f == start[i as int]);
            assert(start.take(i + 1) =~= start.take(i as int).push(f));
            start.take(i as int).lemma_filter_push(f, p);
            assert(rest@ =~= start.skip(i + 1));
        }
        if is_refused(refused, &f.path) {
            rows.push(f);
        }
        i += 1;
    }
    assert(start.take(n as int) =~= start);
    let summary = site_summary(&rows);
    WalkRecord {
        refused: canon(copies(refused)),
        unreached: canon(copies(unreached)),
        refused_sites_by: summary.sites_by,
    }
}

/// The frozen universe's files, in the slice's order — what a walk
/// record's refused files must be drawn from.
pub fn universe_files(files: &Vec<SiteFile>) -> (out: Vec<String>)
    ensures
        views(out@) == files@.map_values(|f: SiteFile| f.path@),
{
    let mut out: Vec<String> = Vec::new();
    let mut i: usize = 0;
    while i < files.len()
        invariant
            i <= files@.len(),
            views(out@) == files@.map_values(|f: SiteFile| f.path@).take(i as int),
        decreases files.len() - i,
    {
        let ghost before = views(out@);
        out.push(files[i].path.clone());
        assert(views(out@) =~= before.push(files@[i as int].path@));
        assert(files@.map_values(|f: SiteFile| f.path@).take(i + 1) =~= files@.map_values(
            |f: SiteFile| f.path@,
        ).take(i as int).push(files@[i as int].path@));
        i += 1;
    }
    assert(files@.map_values(|f: SiteFile| f.path@).take(files@.len() as int) =~= files@.map_values(
        |f: SiteFile| f.path@,
    ));
    out
}

} // verus!
