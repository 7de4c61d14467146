//! The frozen-universe gate skeleton: the doc stem of one corpus in a
//! family, shared by every cross-family lookup so file naming cannot
//! fork.

pub use super::tally::{sum_obj, sum_obj_into};
use super::corpus::{doc_suffix, doc_suffix_spec, NotADoc};
use crate::text::{
    chars_of, concat, ends, ends_with, lex_le, rindex, rfind_char, same, slice_vec, starts,
    starts_with, str_le, string_of, views, Chars,
};
use vstd::prelude::*;

verus! {

/// The doc stem of one corpus in a family: `graph-slice-zod`, or
/// `graph-slice` for the self corpus.
pub open spec fn doc_stem_spec(family: Chars, name: Option<Chars>) -> Chars {
    match name {
        Some(n) => family + seq!['-'] + n,
        None => family,
    }
}

/// The doc stem of one corpus in a family: "graph-slice-zod" /
/// "graph-slice" (self).
pub fn doc_stem(family: &str, name: &Option<String>) -> (out: String)
    ensures
        out@ == doc_stem_spec(
            family@,
            match name {
                Some(n) => Some(n@),
                None => None,
            },
        ),
{
    match name {
        Some(n) => {
            let mut v = chars_of(family);
            v.push('-');
            let out = concat(&v, &chars_of(n.as_str()));
            string_of(&out)
        },
        None => string_of(&chars_of(family)),
    }
}

/// The places a frozen row's file may live now, in the order they are
/// tried: the path as frozen; a `cli/tests/<x>` moved under `it/`; a
/// test module of `cli/src` (`testutil.rs`, `*_tests.rs`, `tests*`)
/// riding at `cli/tests/unit/<x>`.
pub open spec fn live_candidates_spec(path: Chars) -> Seq<Chars> {
    let moved = if starts(path, "cli/tests/"@) {
        seq!["cli/tests/it/"@ + path.skip(10)]
    } else {
        Seq::empty()
    };
    let unit = if starts(path, "cli/src/"@) {
        let rest = path.skip(8);
        let name = match rindex(rest, '/') {
            Some(k) => rest.skip(k + 1),
            None => rest,
        };
        if name == "testutil.rs"@ || ends(name, "_tests.rs"@) || starts(name, "tests"@) {
            seq!["cli/tests/unit/"@ + rest]
        } else {
            Seq::empty()
        }
    } else {
        Seq::empty()
    };
    seq![path] + moved + unit
}

/// The places a frozen row's file may live now.
pub fn live_candidates(path: &str) -> (out: Vec<String>)
    ensures
        views(out@) == live_candidates_spec(path@),
{
    proof {
        reveal_strlit("cli/tests/");
        reveal_strlit("cli/src/");
    }
    let p = chars_of(path);
    let mut out: Vec<String> = Vec::new();
    out.push(string_of(&p));
    if starts_with(&p, &chars_of("cli/tests/")) {
        let rest = slice_vec(&p, 10, p.len());
        assert(rest@ =~= path@.skip(10));
        out.push(string_of(&concat(&chars_of("cli/tests/it/"), &rest)));
    }
    let ghost mid = views(out@);
    if starts_with(&p, &chars_of("cli/src/")) {
        let rest = slice_vec(&p, 8, p.len());
        assert(rest@ =~= path@.skip(8));
        let _n = rest.len();
        proof {
            crate::text::lemma_rindex_to(rest@, '/', rest@.len() as int);
        }
        let name = match rfind_char(&rest, '/') {
            Some(k) => {
                assert(rindex(rest@, '/') == Some(k as int));
                let n = slice_vec(&rest, k + 1, rest.len());
                assert(n@ =~= rest@.skip(k + 1));
                n
            },
            None => slice_vec(&rest, 0, rest.len()),
        };
        assert(rindex(rest@, '/') is None ==> name@ =~= rest@);
        if same(&name, &chars_of("testutil.rs")) || ends_with(&name, &chars_of("_tests.rs"))
            || starts_with(&name, &chars_of("tests")) {
            out.push(string_of(&concat(&chars_of("cli/tests/unit/"), &rest)));
            assert(views(out@) =~= mid.push("cli/tests/unit/"@ + rest@));
        }
    }
    proof {
        reveal_strlit("cli/tests/");
        reveal_strlit("cli/src/");
        if !starts(path@, "cli/src/"@) {
            assert(views(out@) =~= mid);
        }
    }
    assert(views(out@) =~= live_candidates_spec(path@));
    out
}

/// An exclusion row's category and count, as the ledger holds them.
pub open spec fn excluded_ok(category: Chars, n: Option<u64>) -> bool {
    &&& (category == "excluded_prefix"@ || category == "variant_extension"@ || category
        == "other_extension"@)
    &&& n matches Some(v) && v > 0
}

pub open spec fn is_hex(c: char) -> bool {
    ('0' <= c && c <= '9') || ('a' <= c && c <= 'f') || ('A' <= c && c <= 'F')
}

/// A pinned full object id: forty hex digits.
pub open spec fn full_oid(tip: Chars) -> bool {
    tip.len() == 40 && forall|k: int| 0 <= k < 40 ==> is_hex(#[trigger] tip[k])
}

/// Row `i` stands strictly after row `i - 1` by path.
pub open spec fn path_step(paths: Seq<Chars>, i: int) -> bool {
    lex_le(paths[i - 1], paths[i]) && paths[i - 1] != paths[i]
}

/// Why a frozen doc's envelope is refused.
#[derive(Debug)]
pub enum EnvelopeFault {
    /// An exclusion row of an unknown category, or without a count.
    Excluded { category: String },
    /// The tip is no pinned full object id.
    Tip,
    /// The doc path is no doc of the family.
    NotADoc(NotADoc),
    /// The embedded corpus name is not the file name's.
    Name,
    /// Rows unsorted or duplicated (at this row).
    Unsorted { at: usize },
}

fn known_category(c: &[char]) -> (b: bool)
    ensures
        b == (c@ == "excluded_prefix"@ || c@ == "variant_extension"@ || c@ == "other_extension"@),
{
    same(c, &chars_of("excluded_prefix")) || same(c, &chars_of("variant_extension")) || same(
        c,
        &chars_of("other_extension"),
    )
}

/// The envelope of a frozen universe doc past its re-derived summary,
/// constants and scope: a well-formed exclusion ledger, a pinned full
/// object id, an embedded corpus name matching the file name, and the
/// rows sorted by path with none twice. Returns the corpus name.
pub fn doc_envelope(
    path: &str,
    family: &str,
    excluded: &Vec<(String, Option<u64>)>,
    tip: &str,
    name: &Option<String>,
    paths: &Vec<String>,
) -> (r: Result<Option<String>, EnvelopeFault>)
    ensures
        r is Ok <==> (forall|i: int| 0 <= i < excluded@.len() ==> excluded_ok((#[trigger] excluded@[i]).0@, excluded@[i].1))
            && full_oid(tip@) && doc_suffix_spec(path@, family@) == Some(
            match name {
                Some(n) => Some(n@),
                None => None::<Chars>,
            },
        ) && forall|i: int| 0 < i < paths@.len() ==> #[trigger] path_step(views(paths@), i),
        r matches Ok(n) ==> match (n, name) {
            (Some(a), Some(b)) => a@ == b@,
            (None, None) => true,
            _ => false,
        },
        r matches Err(EnvelopeFault::Excluded { category }) ==> exists|i: int|
            0 <= i < excluded@.len() && (#[trigger] excluded@[i]).0@ == category@ && !excluded_ok(
                excluded@[i].0@,
                excluded@[i].1,
            ),
        r matches Err(EnvelopeFault::Tip) ==> !full_oid(tip@),
        r matches Err(EnvelopeFault::NotADoc(_)) ==> doc_suffix_spec(path@, family@) is None,
        r matches Err(EnvelopeFault::Unsorted { at }) ==> 0 < at < paths@.len() && !path_step(
            views(paths@),
            at as int,
        ),
{
    let mut i: usize = 0;
    while i < excluded.len()
        invariant
            i <= excluded@.len(),
            forall|q: int| 0 <= q < i ==> excluded_ok((#[trigger] excluded@[q]).0@, excluded@[q].1),
        decreases excluded.len() - i,
    {
        let c = chars_of(excluded[i].0.as_str());
        let counted = match excluded[i].1 {
            Some(v) => v > 0,
            None => false,
        };
        if !(known_category(&c) && counted) {
            return Err(EnvelopeFault::Excluded { category: string_of(&c) });
        }
        i += 1;
    }
    let t = chars_of(tip);
    if t.len() != 40 {
        return Err(EnvelopeFault::Tip);
    }
    let mut k: usize = 0;
    while k < 40
        invariant
            t@ == tip@,
            t@.len() == 40,
            k <= 40,
            forall|q: int| 0 <= q < k ==> is_hex(#[trigger] t@[q]),
        decreases 40 - k,
    {
        let c = t[k];
        if !(('0' <= c && c <= '9') || ('a' <= c && c <= 'f') || ('A' <= c && c <= 'F')) {
            assert(!is_hex(t@[k as int]));
            return Err(EnvelopeFault::Tip);
        }
        k += 1;
    }
    let want = match doc_suffix(path, family) {
        Ok(w) => w,
        Err(e) => {
            return Err(EnvelopeFault::NotADoc(e));
        },
    };
    let agree = match (&want, name) {
        (Some(a), Some(b)) => same(&chars_of(a.as_str()), &chars_of(b.as_str())),
        (None, None) => true,
        _ => false,
    };
    if !agree {
        return Err(EnvelopeFault::Name);
    }
    let mut j: usize = 1;
    while j < paths.len()
        invariant
            1 <= j,
            j <= paths@.len() || paths@.len() == 0,
            forall|q: int| 0 < q < j && q < paths@.len() ==> #[trigger] path_step(views(paths@), q),
        decreases paths.len() - j,
    {
        let a = paths[j - 1].as_str();
        let b = paths[j].as_str();
        assert(views(paths@)[j - 1] == a@ && views(paths@)[j as int] == b@);
        if !(str_le(a, b) && !same(&chars_of(a), &chars_of(b))) {
            assert(!path_step(views(paths@), j as int));
            return Err(EnvelopeFault::Unsorted { at: j });
        }
        j += 1;
    }
    Ok(match name {
        Some(n) => Some(string_of(&chars_of(n.as_str()))),
        None => None,
    })
}

} // verus!
