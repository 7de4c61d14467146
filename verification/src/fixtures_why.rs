//! The repository paths a fixture's explanation field spells: the
//! tokens that read as a relative path to a source file.

use crate::text::{
    chars_of, index_from, rfind_char, rindex, slice_vec, split_by, split_class, string_of,
    Chars, Class,
};
use vstd::prelude::*;

verus! {

/// The source extensions a path token may end in.
pub open spec fn is_ext(e: Chars) -> bool {
    e == "js"@ || e == "rs"@ || e == "hs"@ || e == "json"@ || e == "md"@ || e == "toml"@ || e
        == "ts"@ || e == "py"@
}

/// A token that reads as a repo-relative path: a `/` inside, none in
/// front, and a source extension after its last `.`.
pub open spec fn is_path(t: Chars) -> bool {
    &&& t.contains('/')
    &&& !(t.len() > 0 && t[0] == '/')
    &&& match rindex(t, '.') {
        Some(i) => is_ext(t.skip(i + 1)),
        None => false,
    }
}

/// The tokens of a `_why` that read as a repo-relative path, in order.
pub open spec fn paths_spec(why: Chars) -> Seq<Chars> {
    split_by(why, Class::Delim).filter(|t: Chars| is_path(t))
}

/// The source extensions, as the list a reader keeps.
pub open spec fn source_exts() -> Seq<Chars> {
    seq!["js"@, "rs"@, "hs"@, "json"@, "md"@, "toml"@, "ts"@, "py"@]
}

/// An extension counts exactly when it is on the list.
pub proof fn lemma_ext_listed(e: Chars)
    ensures
        is_ext(e) <==> source_exts().contains(e),
{
    if is_ext(e) {
        if e == "js"@ {
            assert(source_exts()[0] == e);
        } else if e == "rs"@ {
            assert(source_exts()[1] == e);
        } else if e == "hs"@ {
            assert(source_exts()[2] == e);
        } else if e == "json"@ {
            assert(source_exts()[3] == e);
        } else if e == "md"@ {
            assert(source_exts()[4] == e);
        } else if e == "toml"@ {
            assert(source_exts()[5] == e);
        } else if e == "ts"@ {
            assert(source_exts()[6] == e);
        } else {
            assert(source_exts()[7] == e);
        }
    }
}

/// A token read as a path: a stem with a `/` inside and none in front,
/// a `.`, and a listed extension with no `.` of its own. Every such
/// token is a path, whatever its stem.
pub proof fn lemma_listed_path(stem: Chars, e: Chars)
    requires
        stem.contains('/'),
        stem[0] != '/',
        source_exts().contains(e),
        !e.contains('.'),
    ensures
        is_path(stem + seq!['.'] + e),
{
    let t = stem + seq!['.'] + e;
    lemma_ext_listed(e);
    let k = choose|k: int| 0 <= k < stem.len() && stem[k] == '/';
    assert(t[k] == '/');
    crate::text::lemma_rindex_to(t, '.', t.len() as int);
    let d = stem.len() as int;
    assert(t[d] == '.');
    assert forall|j: int| d < j < t.len() implies t[j] != '.' by {
        assert(t[j] == e[j - d - 1]);
    }
    match rindex(t, '.') {
        Some(i) => {
            assert(i == d);
            assert(t.skip(i + 1) =~= e);
        },
        None => {},
    }
}

/// Every token read as a path has a `/` inside and none in front, and
/// ends in a `.` and a listed extension with no `.` of its own.
pub proof fn lemma_path_shape(t: Chars)
    requires
        is_path(t),
    ensures
        t.contains('/'),
        t[0] != '/',
        exists|i: int|
            0 <= i < t.len() && t[i] == '.' && source_exts().contains(#[trigger] t.skip(i + 1)) && !t.skip(
                i + 1,
            ).contains('.'),
{
    crate::text::lemma_rindex_to(t, '.', t.len() as int);
    let i = rindex(t, '.')->0;
    lemma_ext_listed(t.skip(i + 1));
    let u = t.skip(i + 1);
    assert forall|j: int| 0 <= j < u.len() implies #[trigger] u[j] != '.' by {
        assert(u[j] == t[i + 1 + j]);
    }
}

fn ext_ok(e: &[char]) -> (b: bool)
    ensures
        b == is_ext(e@),
{
    let s = string_of(e);
    let known = ["js", "rs", "hs", "json", "md", "toml", "ts", "py"];
    let mut i: usize = 0;
    while i < 8
        invariant
            i <= 8,
            s@ == e@,
            known@ == seq!["js", "rs", "hs", "json", "md", "toml", "ts", "py"],
            forall|j: int| 0 <= j < i ==> known@[j]@ != e@,
        decreases 8 - i,
    {
        if crate::text::same(&chars_of(known[i]), e) {
            return true;
        }
        i += 1;
    }
    false
}

fn path_token(t: &[char]) -> (b: bool)
    ensures
        b == is_path(t@),
{
    proof {
        crate::text::lemma_index_from(t@, '/', 0);
        crate::text::lemma_rindex_to(t@, '.', t@.len() as int);
    }
    let has_slash = crate::text::find_char(t, '/').is_some();
    assert(has_slash ==> t@.contains('/'));
    assert(t@.contains('/') ==> has_slash);
    if !has_slash || (t.len() > 0 && t[0] == '/') {
        return false;
    }
    match rfind_char(t, '.') {
        Some(i) => {
            let e = slice_vec(t, i + 1, t.len());
            assert(e@ =~= t@.skip(i + 1));
            ext_ok(&e)
        },
        None => false,
    }
}

/// The tokens of a `_why` that read as a repo-relative path: a `/`
/// inside and a source extension at the end, punctuation shed.
pub fn paths(why: &str) -> (out: Vec<String>)
    ensures
        out@.map_values(|s: String| s@) == paths_spec(why@),
{
    let w = chars_of(why);
    let toks = split_class(&w, Class::Delim);
    let ghost tm = toks@.map_values(|p: Vec<char>| p@);
    let mut out: Vec<String> = Vec::new();
    let mut i: usize = 0;
    while i < toks.len()
        invariant
            i <= toks@.len(),
            tm == toks@.map_values(|p: Vec<char>| p@),
            tm == split_by(w@, Class::Delim),
            w@ == why@,
            out@.map_values(|s: String| s@) == tm.take(i as int).filter(|t: Chars| is_path(t)),
        decreases toks.len() - i,
    {
        let ghost before = out@.map_values(|s: String| s@);
        assert(tm.take(i + 1).drop_last() =~= tm.take(i as int));
        assert(tm.take(i + 1).last() == toks@[i as int]@);
        proof {
            reveal(Seq::filter);
        }
        if path_token(&toks[i]) {
            out.push(string_of(&toks[i]));
            assert(out@.map_values(|s: String| s@) =~= before.push(toks@[i as int]@));
        } else {
            assert(out@.map_values(|s: String| s@) =~= before);
        }
        i += 1;
    }
    assert(tm.take(toks@.len() as int) =~= tm);
    out
}

} // verus!
