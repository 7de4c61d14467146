//! Corpus resolution for the commit-slice instruments: which repository
//! is under measurement and where each frozen doc family lives.

use crate::text::{replace_all, replace_from,
    chars_of, concat, ends, ends_with, find_at, find_from, front_of, lemma_find_from,
    lemma_rindex_to, push_range, rfind_char, rindex, skip_while, slice_vec, starts,
    starts_with, string_of, trim, trim_class, views, Chars, Class, class_pred, ws,
};
use vstd::prelude::*;

verus! {

/// The pinned tips of the four external corpora: a measurement on any
/// other tree would be a different corpus, so every leg that walks them
/// checks the tip first.
pub open spec fn pinned_corpora() -> Seq<(Chars, Chars)> {
    seq![
        ("cobra"@, "adbc8813901bba65827259daa8e22ff94ec1f30e"@),
        ("requests"@, "8068356288978c4f54661ae6f95afe0e0831885e"@),
        ("ripgrep"@, "3fce3b5bb0236da2df6d99672afb8a719642eca7"@),
        ("zod"@, "912f0f51b0ced654d0069741e7160834dca742ee"@),
    ]
}

fn owned(s: &str) -> (out: String)
    ensures
        out@ == s@,
{
    string_of(&chars_of(s))
}

/// The pinned corpora, name and tip.
pub fn pinned() -> (out: Vec<(String, String)>)
    ensures
        crate::text::pairs_view(out@) == pinned_corpora(),
{
    let mut out: Vec<(String, String)> = Vec::new();
    out.push((owned("cobra"), owned("adbc8813901bba65827259daa8e22ff94ec1f30e")));
    out.push((owned("requests"), owned("8068356288978c4f54661ae6f95afe0e0831885e")));
    out.push((owned("ripgrep"), owned("3fce3b5bb0236da2df6d99672afb8a719642eca7")));
    out.push((owned("zod"), owned("912f0f51b0ced654d0069741e7160834dca742ee")));
    assert(crate::text::pairs_view(out@) =~= pinned_corpora());
    out
}

/// Why a pinned corpus cannot be measured.
#[derive(Debug)]
pub enum PinError {
    /// No checkout at the corpus's place.
    NoClone { root: String },
    /// The checkout stands at another commit (what `rev-parse` said,
    /// trimmed; empty when it failed).
    NotPinned { head: String },
}

/// Where a pinned corpus's checkout lives, under the repository root.
pub open spec fn corpus_root(name: Chars) -> Chars {
    ".ce-eval/corpora/"@ + name
}

/// One pinned corpus's checkout, its tip verified — the prologue of
/// every external-corpus leg. `present` says whether the checkout is a
/// directory, `head` what `git rev-parse HEAD` printed there (None when
/// it failed).
pub fn pinned_root(name: &str, tip: &str, present: bool, head: Option<&str>) -> (r: Result<
    String,
    PinError,
>)
    ensures
        match r {
            Ok(root) => present && root@ == corpus_root(name@) && (head matches Some(h) && trim(h@)
                == tip@),
            Err(PinError::NoClone { root }) => !present && root@ == corpus_root(name@),
            Err(PinError::NotPinned { head: got }) => present && match head {
                Some(h) => trim(h@) != tip@ && got@ == trim(h@),
                None => got@ == Seq::<char>::empty(),
            },
        },
{
    let root = concat(&chars_of(".ce-eval/corpora/"), &chars_of(name));
    if !present {
        return Err(PinError::NoClone { root: string_of(&root) });
    }
    match head {
        None => Err(PinError::NotPinned { head: String::new() }),
        Some(h) => {
            let t = trim_class(&chars_of(h), Class::Space);
            assert(class_pred(Class::Space) =~= ws());
            if crate::text::same(&t, &chars_of(tip)) {
                Ok(string_of(&root))
            } else {
                Err(PinError::NotPinned { head: string_of(&t) })
            }
        },
    }
}

/// Why a path is not a frozen doc of a family.
#[derive(Debug)]
pub struct NotADoc {
    pub path: String,
    pub stem: String,
}

/// The file name of a path: what follows its last `/`.
pub open spec fn file_name(path: Chars) -> Chars {
    match rindex(path, '/') {
        Some(i) => path.skip(i + 1),
        None => path,
    }
}

/// The corpus-name suffix of a frozen doc path for a document stem:
/// `…/{stem}-ripgrep-v1.json` names `ripgrep`, the self doc
/// `…/{stem}-v1.json` none; any other file is no doc of the stem.
pub open spec fn doc_suffix_spec(path: Chars, stem: Chars) -> Option<Option<Chars>> {
    let file = file_name(path);
    if !starts(file, stem) {
        None
    } else {
        let rest = file.skip(stem.len() as int);
        if !ends(rest, "-v1.json"@) {
            None
        } else {
            let mid = rest.take(rest.len() - 8);
            if mid.len() == 0 {
                Some(None)
            } else {
                Some(Some(skip_while(mid, class_pred(Class::Dash))))
            }
        }
    }
}

/// The corpus-name suffix of a frozen doc path for an arbitrary
/// document stem: `…/{stem}-ripgrep-v1.json` gives `Some("ripgrep")`,
/// the self doc `…/{stem}-v1.json` gives `None`. A path that is no doc
/// of the stem is refused with `NotADoc`, a value, never a panic.
pub fn doc_suffix(path: &str, stem: &str) -> (r: Result<Option<String>, NotADoc>)
    ensures
        match (r, doc_suffix_spec(path@, stem@)) {
            (Ok(Some(s)), Some(Some(m))) => s@ == m,
            (Ok(None), Some(None)) => true,
            (Err(e), None) => e.path@ == path@ && e.stem@ == stem@,
            _ => false,
        },
{
    let p = chars_of(path);
    let st = chars_of(stem);
    proof {
        lemma_rindex_to(p@, '/', p@.len() as int);
        reveal_strlit("-v1.json");
    }
    let file = match rfind_char(&p, '/') {
        Some(i) => {
            assert(i < p.len());
            slice_vec(&p, i + 1, p.len())
        },
        None => slice_vec(&p, 0, p.len()),
    };
    assert(file@ =~= file_name(p@));
    if !starts_with(&file, &st) {
        return Err(NotADoc { path: path.to_owned(), stem: stem.to_owned() });
    }
    let rest = slice_vec(&file, st.len(), file.len());
    assert(rest@ =~= file@.skip(st@.len() as int));
    if !ends_with(&rest, &chars_of("-v1.json")) {
        return Err(NotADoc { path: path.to_owned(), stem: stem.to_owned() });
    }
    let mid = slice_vec(&rest, 0, rest.len() - 8);
    assert(mid@ =~= rest@.take(rest@.len() - 8));
    if mid.len() == 0 {
        return Ok(None);
    }
    let a = front_of(&mid, Class::Dash);
    let name = slice_vec(&mid, a, mid.len());
    assert(name@ =~= mid@.skip(a as int));
    Ok(Some(string_of(&name)))
}

/// `doc_suffix` for the commit families: how a gate iterating every
/// corpus resolves the matching review record.
pub fn doc_corpus_name(path: &str, family: &str) -> (r: Result<Option<String>, NotADoc>)
    ensures
        match (r, doc_suffix_spec(path@, "commit-"@ + family@)) {
            (Ok(Some(s)), Some(Some(m))) => s@ == m,
            (Ok(None), Some(None)) => true,
            (Err(e), None) => e.path@ == path@ && e.stem@ == "commit-"@ + family@,
            _ => false,
        },
{
    let stem = string_of(&concat(&chars_of("commit-"), &chars_of(family)));
    doc_suffix(path, stem.as_str())
}

/// The family sibling of a slice doc: every `commit-slice` in its path
/// read as `commit-<family>`.
pub open spec fn sibling_spec(path: Chars, family: Chars) -> Chars {
    replace_from(path, "commit-slice"@, "commit-"@ + family, 0)
}

/// The family sibling of a slice doc's path.
pub fn sibling(path: &str, family: &str) -> (out: String)
    ensures
        out@ == sibling_spec(path@, family@),
{
    let rep = concat(&chars_of("commit-"), &chars_of(family));
    string_of(&replace_all(&chars_of(path), &chars_of("commit-slice"), &rep))
}

/// Why the committed slice docs cannot be paired.
#[derive(Debug)]
pub enum PairError {
    /// A slice doc whose required sibling is missing.
    Missing { slice: String, sibling: String },
    /// No committed slice doc at all.
    Empty,
    /// The self corpus's sibling is not among the pairs.
    SelfMissing { family: String },
}

/// The pairs the probes allow: each slice doc with its sibling, in
/// order, those whose sibling is present.
pub open spec fn pairs_spec(slices: Seq<Chars>, present: Seq<bool>, family: Chars) -> Seq<
    (Chars, Chars),
>
    decreases slices.len(),
{
    if slices.len() == 0 {
        Seq::empty()
    } else {
        let rest = pairs_spec(slices.drop_last(), present.drop_last(), family);
        if present.last() {
            rest.push((slices.last(), sibling_spec(slices.last(), family)))
        } else {
            rest
        }
    }
}

/// The first slice doc whose sibling is absent.
pub open spec fn first_absent(present: Seq<bool>, i: int) -> Option<int>
    decreases present.len() - i,
{
    if i < 0 || i >= present.len() {
        None
    } else if !present[i] {
        Some(i)
    } else {
        first_absent(present, i + 1)
    }
}

fn doc_pairs(family: &str, slices: &Vec<String>, present: &Vec<bool>, required: bool) -> (r:
    Result<Vec<(String, String)>, PairError>)
    requires
        slices@.len() == present@.len(),
    ensures
        match r {
            Ok(v) => crate::text::pairs_view(v@) == pairs_spec(views(slices@), present@, family@)
                && (required ==> first_absent(present@, 0) is None),
            Err(PairError::Missing { slice, sibling }) => required && match first_absent(
                present@,
                0,
            ) {
                Some(i) => slice@ == slices@[i]@ && sibling@ == sibling_spec(slices@[i]@, family@),
                None => false,
            },
            Err(_) => false,
        },
{
    let mut out: Vec<(String, String)> = Vec::new();
    let mut i: usize = 0;
    while i < slices.len()
        invariant
            i <= slices@.len(),
            slices@.len() == present@.len(),
            crate::text::pairs_view(out@) == pairs_spec(
                views(slices@).take(i as int),
                present@.take(i as int),
                family@,
            ),
            required ==> first_absent(present@, 0) == first_absent(present@, i as int),
        decreases slices.len() - i,
    {
        let ghost before = crate::text::pairs_view(out@);
        let sib = sibling(slices[i].as_str(), family);
        proof {
            assert(views(slices@).take(i + 1).drop_last() =~= views(slices@).take(i as int));
            assert(present@.take(i + 1).drop_last() =~= present@.take(i as int));
            assert(views(slices@).take(i + 1).last() == slices@[i as int]@);
        }
        if present[i] {
            out.push((string_of(&chars_of(slices[i].as_str())), sib));
            assert(crate::text::pairs_view(out@) =~= before.push(
                (slices@[i as int]@, sibling_spec(slices@[i as int]@, family@)),
            ));
        } else if required {
            return Err(PairError::Missing { slice: string_of(&chars_of(slices[i].as_str())), sibling: sib });
        }
        i += 1;
    }
    assert(views(slices@).take(slices@.len() as int) =~= views(slices@));
    assert(present@.take(present@.len() as int) =~= present@);
    Ok(out)
}

/// Every committed slice doc paired with its `family` sibling; the
/// sibling MUST exist — a slice without it is an unfinished freeze.
/// `slices` are the committed slice docs in order and `present[i]`
/// whether `sibling(slices[i], family)` exists.
pub fn corpus_doc_pairs(family: &str, slices: &Vec<String>, present: &Vec<bool>) -> (r: Result<
    Vec<(String, String)>,
    PairError,
>)
    requires
        slices@.len() == present@.len(),
    ensures
        match r {
            Ok(v) => first_absent(present@, 0) is None && crate::text::pairs_view(v@) == pairs_spec(
                views(slices@),
                present@,
                family@,
            ) && v@.len() > 0,
            Err(PairError::Missing { slice, sibling }) => match first_absent(present@, 0) {
                Some(i) => slice@ == slices@[i]@ && sibling@ == sibling_spec(slices@[i]@, family@),
                None => false,
            },
            Err(PairError::Empty) => first_absent(present@, 0) is None && slices@.len() == 0,
            Err(_) => false,
        },
{
    let pairs = doc_pairs(family, slices, present, true)?;
    proof {
        lemma_pairs_all_present(views(slices@), present@, family@);
    }
    if pairs.len() == 0 {
        return Err(PairError::Empty);
    }
    Ok(pairs)
}

/// With every sibling present, each slice doc makes one pair.
pub proof fn lemma_pairs_all_present(slices: Seq<Chars>, present: Seq<bool>, family: Chars)
    requires
        slices.len() == present.len(),
        first_absent(present, 0) is None,
    ensures
        pairs_spec(slices, present, family).len() == slices.len(),
    decreases slices.len(),
{
    assert forall|i: int| 0 <= i < present.len() implies present[i] by {
        lemma_first_absent(present, 0);
    }
    if slices.len() > 0 {
        lemma_first_absent(present, 0);
        assert forall|i: int| 0 <= i < present.drop_last().len() implies present.drop_last()[i] by {
            assert(present[i]);
        }
        lemma_first_absent(present.drop_last(), 0);
        lemma_pairs_all_present(slices.drop_last(), present.drop_last(), family);
        assert(present.last() == present[present.len() - 1]);
    }
}

pub proof fn lemma_first_absent(present: Seq<bool>, i: int)
    requires
        0 <= i,
    ensures
        first_absent(present, i) is None <==> forall|j: int| i <= j < present.len() ==> present[j],
    decreases present.len() - i,
{
    if i < present.len() {
        lemma_first_absent(present, i + 1);
    }
}

/// The self corpus's doc of a family.
pub open spec fn self_doc(family: Chars) -> Chars {
    "../contracts/eval/commit-"@ + family + "-v1.json"@
}

/// Like `corpus_doc_pairs`, but a missing sibling is a pending corpus,
/// not an error — for families that freeze later than the slice. The
/// self corpus's sibling must still exist: that bar is frozen.
pub fn corpus_doc_pairs_frozen(family: &str, slices: &Vec<String>, present: &Vec<bool>) -> (r:
    Result<Vec<(String, String)>, PairError>)
    requires
        slices@.len() == present@.len(),
    ensures
        match r {
            Ok(v) => crate::text::pairs_view(v@) == pairs_spec(views(slices@), present@, family@)
                && crate::text::pairs_view(v@).map_values(|p: (Chars, Chars)| p.1).contains(
                self_doc(family@),
            ),
            Err(PairError::SelfMissing { family: f }) => f@ == family@ && !pairs_spec(
                views(slices@),
                present@,
                family@,
            ).map_values(|p: (Chars, Chars)| p.1).contains(self_doc(family@)),
            Err(_) => false,
        },
{
    let pairs = match doc_pairs(family, slices, present, false) {
        Ok(p) => p,
        Err(e) => return Err(e),
    };
    let want = concat(&concat(&chars_of("../contracts/eval/commit-"), &chars_of(family)), &chars_of("-v1.json"));
    let ghost sibs = crate::text::pairs_view(pairs@).map_values(|p: (Chars, Chars)| p.1);
    let mut i: usize = 0;
    while i < pairs.len()
        invariant
            i <= pairs@.len(),
            crate::text::pairs_view(pairs@) == pairs_spec(views(slices@), present@, family@),
            want@ == self_doc(family@),
            sibs == crate::text::pairs_view(pairs@).map_values(|p: (Chars, Chars)| p.1),
            forall|j: int| 0 <= j < i ==> sibs[j] != want@,
        decreases pairs.len() - i,
    {
        if crate::text::same(&chars_of(pairs[i].1.as_str()), &want) {
            assert(sibs[i as int] == want@);
            return Ok(pairs);
        }
        i += 1;
    }
    Err(PairError::SelfMissing { family: family.to_owned() })
}

} // verus!
