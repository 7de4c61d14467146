//! The pinned tree of an exam corpus whose truths reach any tracked
//! file: the paths a truth may name in one corpus (the frozen
//! universe's files, or every path of the pinned tree), and the frozen
//! tree held to its frozen universe.

use super::verify::lex_lt;
use super::walk::{ext_of, in_scope};
use super::{Exam, Reach};
use crate::text::{canon, canonical, chars_of, same, str_le, string_of, views, Chars};
use vstd::prelude::*;

verus! {

fn copies(v: &Vec<String>) -> (out: Vec<String>)
    ensures
        views(out@) == views(v@),
{
    let mut out: Vec<String> = Vec::new();
    let mut i: usize = 0;
    while i < v.len()
        invariant
            i <= v@.len(),
            views(out@) == views(v@).take(i as int),
        decreases v.len() - i,
    {
        let ghost before = views(out@);
        out.push(string_of(&chars_of(v[i].as_str())));
        assert(views(v@)[i as int] == v@[i as int]@);
        assert(views(out@) =~= before.push(v@[i as int]@));
        assert(views(v@).take(i + 1) =~= views(v@).take(i as int).push(v@[i as int]@));
        i += 1;
    }
    assert(views(v@).take(v@.len() as int) =~= views(v@));
    out
}

/// The paths a truth of the exam may name in one corpus: the frozen
/// universe's files, or — for a tree-reaching exam — the paths of its
/// frozen pinned tree.
pub fn targets(exam: &Exam, universe: &Vec<String>, tree: &Vec<String>) -> (out: Vec<String>)
    ensures
        canonical(views(out@)),
        views(out@).to_set() == if exam.reach == Reach::Universe {
            views(universe@).to_set()
        } else {
            views(tree@).to_set()
        },
{
    match exam.reach {
        Reach::Universe => canon(copies(universe)),
        Reach::Tree => canon(copies(tree)),
    }
}


/// How the frozen tree was taken.
pub open spec fn tree_method() -> Chars {
    "every path git ls-tree -r --full-tree lists at the pinned tip, in byte order: the files an audit truth may name when the exam's references reach any tracked file (a stylesheet, an image, a script, a page). A function of the tip alone - no product code, no judgment."@
}

/// The paths strictly ascending.
pub open spec fn ascending(s: Seq<Chars>) -> bool {
    forall|i: int| 0 < i < s.len() ==> lex_lt(#[trigger] s[i - 1], s[i])
}

/// How many paths are not of the exam's language by extension.
pub open spec fn other_count(exts: Seq<Chars>, paths: Seq<Chars>) -> nat
    decreases paths.len(),
{
    if paths.len() == 0 {
        0
    } else {
        other_count(exts, paths.drop_last()) + if exts.contains(ext_of(paths.last())) {
            0nat
        } else {
            1nat
        }
    }
}

/// Why a frozen tree is refused.
#[derive(Debug)]
pub enum TreeFault {
    /// The method is not the pinned one.
    Method,
    /// The paths are not strictly ascending.
    Unsorted,
    /// A universe file is not in the tree (the least such).
    Missing { path: String },
    /// The paths left out of the universe are not the slice's tallies:
    /// what the tree gives, as (other extension, walk refused).
    Tallies { other: u64, refused: u64 },
}

/// The tree's own counts fit: with the method, the order and the
/// universe all in place, the paths of another extension and the
/// universe's files are never more than the paths.
pub open spec fn tree_fits(exts: Seq<Chars>, method: Chars, listed: Seq<Chars>, files: Seq<Chars>) -> bool {
    method == tree_method() && ascending(listed) && files.to_set().subset_of(listed.to_set()) ==> other_count(
        exts,
        listed,
    ) + files.to_set().len() <= listed.len()
}

fn count_other(exam: &Exam, listed: &Vec<String>) -> (n: usize)
    ensures
        n == other_count(views(exam.exts@), views(listed@)),
{
    let mut n: usize = 0;
    let mut i: usize = 0;
    while i < listed.len()
        invariant
            i <= listed@.len(),
            n == other_count(views(exam.exts@), views(listed@).take(i as int)),
            n <= i,
        decreases listed.len() - i,
    {
        proof {
            assert(views(listed@).take(i + 1).drop_last() =~= views(listed@).take(i as int));
            assert(views(listed@).take(i + 1).last() == listed@[i as int]@);
        }
        if !in_scope(exam, listed[i].as_str()) {
            n += 1;
        }
        i += 1;
    }
    assert(views(listed@).take(listed@.len() as int) =~= views(listed@));
    n
}

fn holds(listed: &Vec<String>, f: &String) -> (b: bool)
    ensures
        b == views(listed@).contains(f@),
{
    let p = chars_of(f.as_str());
    let mut i: usize = 0;
    while i < listed.len()
        invariant
            p@ == f@,
            i <= listed@.len(),
            forall|j: int| 0 <= j < i ==> views(listed@)[j] != f@,
        decreases listed.len() - i,
    {
        assert(views(listed@)[i as int] == listed@[i as int]@);
        if same(&chars_of(listed[i].as_str()), &p) {
            assert(views(listed@)[i as int] == f@);
            return true;
        }
        i += 1;
    }
    false
}

/// One frozen tree against its frozen universe: the method the pinned
/// one, the paths strictly ascending, every universe file among them,
/// and the rest counted by the slice's own tallies — a path of another
/// extension is `other_extension`, one of the exam's own that the
/// universe does not hold is `walk_refused`.
#[verifier::loop_isolation(false)]
pub fn check_tree(
    exam: &Exam,
    method: &str,
    listed: &Vec<String>,
    files: &Vec<String>,
    other_extension: u64,
    walk_refused: u64,
) -> (r: Result<(), TreeFault>)
    requires
        tree_fits(views(exam.exts@), method@, views(listed@), views(files@)),
    ensures
        r is Ok <==> method@ == tree_method() && ascending(views(listed@)) && views(files@).to_set().subset_of(
            views(listed@).to_set(),
        ) && other_count(views(exam.exts@), views(listed@)) == other_extension && listed@.len() - other_count(
            views(exam.exts@),
            views(listed@),
        ) - views(files@).to_set().len() == walk_refused,
        r matches Err(TreeFault::Method) <==> method@ != tree_method(),
        r matches Err(TreeFault::Unsorted) <==> method@ == tree_method() && !ascending(views(listed@)),
        r matches Err(TreeFault::Missing { path }) ==> method@ == tree_method() && ascending(views(listed@))
            && views(files@).contains(path@) && !views(listed@).contains(path@) && forall|f: Chars|
            views(files@).contains(f) && lex_lt(f, path@) ==> views(listed@).contains(f),
        r matches Err(TreeFault::Tallies { other, refused }) ==> method@ == tree_method() && ascending(
            views(listed@),
        ) && views(files@).to_set().subset_of(views(listed@).to_set()) && other == other_count(
            views(exam.exts@),
            views(listed@),
        ) && refused == listed@.len() - other_count(views(exam.exts@), views(listed@)) - views(
            files@,
        ).to_set().len() && (other != other_extension || refused != walk_refused),
{
    let m = chars_of(method);
    let want = chars_of("every path git ls-tree -r --full-tree lists at the pinned tip, in byte order: the files an audit truth may name when the exam's references reach any tracked file (a stylesheet, an image, a script, a page). A function of the tip alone - no product code, no judgment.");
    proof {
        reveal_strlit("every path git ls-tree -r --full-tree lists at the pinned tip, in byte order: the files an audit truth may name when the exam's references reach any tracked file (a stylesheet, an image, a script, a page). A function of the tip alone - no product code, no judgment.");
        assert(want@ == tree_method());
    }
    if !same(&m, &want) {
        return Err(TreeFault::Method);
    }
    let n = listed.len();
    let mut i: usize = 1;
    while i < n
        invariant
            n == listed@.len(),
            1 <= i,
            forall|j: int| 0 < j < i && j < n ==> lex_lt(#[trigger] views(listed@)[j - 1], views(listed@)[j]),
        decreases n - i,
    {
        let a = &listed[i - 1];
        let b = &listed[i];
        assert(views(listed@)[i - 1] == a@ && views(listed@)[i as int] == b@);
        if !(str_le(a.as_str(), b.as_str()) && !same(&chars_of(a.as_str()), &chars_of(b.as_str()))) {
            assert(!lex_lt(views(listed@)[i - 1], views(listed@)[i as int]));
            assert(!ascending(views(listed@)));
            return Err(TreeFault::Unsorted);
        }
        i += 1;
    }
    assert(ascending(views(listed@)));
    let u = canon(copies(files));
    let ghost uv = views(u@);
    let mut k: usize = 0;
    while k < u.len()
        invariant
            uv == views(u@),
            canonical(uv),
            uv.to_set() == views(files@).to_set(),
            k <= u@.len(),
            forall|j: int| 0 <= j < k ==> views(listed@).contains(#[trigger] uv[j]),
        decreases u.len() - k,
    {
        if !holds(listed, &u[k]) {
            proof {
                assert(uv[k as int] == u@[k as int]@);
                assert(uv.to_set().contains(uv[k as int]));
                assert forall|f: Chars| views(files@).contains(f) && lex_lt(f, u@[k as int]@) implies views(
                    listed@,
                ).contains(f) by {
                    assert(views(files@).to_set().contains(f));
                    assert(uv.contains(f));
                    let x = choose|x: int| 0 <= x < uv.len() && uv[x] == f;
                    if x >= k {
                        if x > k {
                            assert(crate::text::lex_le(uv[k as int], uv[x]));
                            crate::text::lemma_lex_antisym(uv[k as int], uv[x]);
                        }
                    }
                }
                assert(views(files@).to_set().contains(u@[k as int]@));
            }
            return Err(TreeFault::Missing { path: string_of(&chars_of(u[k].as_str())) });
        }
        k += 1;
    }
    proof {
        assert forall|f: Chars| views(files@).to_set().contains(f) implies views(listed@).to_set().contains(f) by {
            assert(uv.to_set().contains(f));
            let x = choose|x: int| 0 <= x < uv.len() && uv[x] == f;
        }
        uv.unique_seq_to_set();
    }
    let other = count_other(exam, listed);
    let refused = n - other - u.len();
    if other as u64 != other_extension || refused as u64 != walk_refused {
        return Err(TreeFault::Tallies { other: other as u64, refused: refused as u64 });
    }
    Ok(())
}

} // verus!
