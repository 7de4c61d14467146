//! The report-id family: every value-shaped `"ce.<name>/<ver>"` literal
//! of the product's sources, closed both ways against the linked and
//! the private tables.

use super::scrape::ScrapeError;
use super::{id_sorted, is_fact, linked, schemaver, schemaver_spec, scraped, Fact, Tier};
use crate::text::{
    canonical, chars_of, concat, ends, ends_with, find_at, find_char, find_from, index_from,
    lemma_find_from, lemma_index_from, pairs_view, same, value_for, value_in, slice_vec, string_of, views, Chars,
};
use vstd::prelude::*;

verus! {

/// Every `"ce.<name>/<ver>"` string literal of `t` from `pos` on, in
/// order: after each `"ce.` the text up to the next `"` (or the end),
/// kept when it is shaped like a report id.
pub open spec fn literals_from(t: Chars, pos: int) -> Seq<Chars>
    decreases t.len() + 1 - pos,
{
    if pos < 0 || pos > t.len() {
        Seq::empty()
    } else {
        match find_from(t, "\"ce."@, pos) {
            None => Seq::empty(),
            Some(i) => {
                proof {
                    reveal_strlit("\"ce.");
                    lemma_find_from(t, "\"ce."@, pos);
                }
                let b = i + 1;
                let e = match index_from(t, '\u{22}', b) {
                    Some(j) => j,
                    None => t.len() as int,
                };
                proof {
                    lemma_index_from(t, '\u{22}', b);
                }
                let lit = t.subrange(b, e);
                let rest = literals_from(t, e);
                if schemaver_spec(lit) {
                    seq![lit] + rest
                } else {
                    rest
                }
            },
        }
    }
}

/// Every `"ce.<name>/<ver>"` string literal in `text`, in order.
pub fn literals(text: &str) -> (out: Vec<String>)
    ensures
        views(out@) == literals_from(text@, 0),
{
    let t = chars_of(text);
    let pat = chars_of("\"ce.");
    proof {
        reveal_strlit("\"ce.");
    }
    let mut out: Vec<String> = Vec::new();
    let mut pos: usize = 0;
    while pos <= t.len()
        invariant
            t@ == text@,
            pat@ == "\"ce."@,
            pat@.len() == 4,
            pos <= t@.len(),
            views(out@) + literals_from(t@, pos as int) == literals_from(t@, 0),
        decreases t.len() + 1 - pos,
    {
        proof {
            lemma_find_from(t@, pat@, pos as int);
        }
        let i = match find_at(&t, &pat, pos) {
            None => {
                assert(views(out@) + Seq::<Chars>::empty() =~= views(out@));
                return out;
            },
            Some(i) => i,
        };
        let b = i + 1;
        proof {
            lemma_index_from(t@, '\u{22}', b as int);
        }
        let mut e = b;
        while e < t.len() && t[e] != '\u{22}'
            invariant
                b <= e <= t@.len(),
                index_from(t@, '\u{22}', b as int) == index_from(t@, '\u{22}', e as int),
            decreases t.len() - e,
        {
            e += 1;
        }
        let lit = slice_vec(&t, b, e);
        let ghost before = views(out@);
        if schemaver(&lit) {
            out.push(string_of(&lit));
            assert(views(out@) =~= before.push(lit@));
            assert(before + (seq![lit@] + literals_from(t@, e as int)) =~= views(out@) + literals_from(t@, e as int));
        }
        pos = e;
    }
    assert(views(out@) + Seq::<Chars>::empty() =~= views(out@));
    out
}

/// `s` without its trailing `-report`s.
pub open spec fn strip_reports(s: Chars) -> Chars
    decreases s.len(),
{
    if ends(s, "-report"@) && s.len() >= 7 {
        strip_reports(s.take(s.len() - 7))
    } else {
        s
    }
}

/// The family a report id names: after `ce.`, up to its first `/`,
/// without a trailing `-report`.
pub open spec fn family_of(lit: Chars) -> Chars {
    let body = lit.skip(3);
    strip_reports(
        match index_from(body, '/', 0) {
            Some(k) => body.take(k),
            None => body,
        },
    )
}

fn family(lit: &Vec<char>) -> (out: Vec<char>)
    requires
        lit@.len() >= 3,
    ensures
        out@ == family_of(lit@),
{
    let body = slice_vec(lit, 3, lit.len());
    assert(body@ =~= lit@.skip(3));
    proof {
        lemma_index_from(body@, '/', 0);
        reveal_strlit("-report");
    }
    let mut name = match find_char(&body, '/') {
        Some(k) => {
            let n = slice_vec(&body, 0, k);
            assert(n@ =~= body@.take(k as int));
            n
        },
        None => body.clone(),
    };
    let suffix = chars_of("-report");
    while name.len() >= 7 && ends_with(&name, &suffix)
        invariant
            suffix@ == "-report"@,
            suffix@.len() == 7,
            strip_reports(name@) == family_of(lit@),
        decreases name.len(),
    {
        let k = name.len() - 7;
        name = slice_vec(&name, 0, k);
    }
    name
}

/// One family as the scan found it: its name, its literal and the file
/// that spells it.
pub type Found = (Chars, Chars, Chars);

/// Why the report-id family does not close.
#[derive(Debug)]
pub enum ReportError {
    /// A family spelled in two places.
    Twice { name: String, first: String, second: String },
    /// An enrolled family no literal spells.
    Unspelled { name: String },
    /// A linked family whose typed const and scanned literal disagree.
    Disagree { file: String },
    /// A scanned family enrolled in neither table.
    Unenrolled { name: String, file: String },
}

/// The families of the sources in order, each literal of each file:
/// (family, literal, file).
pub open spec fn found_in(files: Seq<(Chars, Chars)>) -> Seq<Found>
    decreases files.len(),
{
    if files.len() == 0 {
        Seq::empty()
    } else {
        found_in(files.drop_last()) + literals_from(files.last().1, 0).map_values(
            |l: Chars| (family_of(l), l, files.last().0),
        )
    }
}

/// Every family name found once.
pub open spec fn names_unique(f: Seq<Found>) -> bool {
    forall|i: int, j: int| 0 <= i < f.len() && 0 <= j < f.len() && i != j ==> (#[trigger] f[i]).0
        != (#[trigger] f[j]).0
}

pub open spec fn found_view(v: Seq<(String, String, String)>) -> Seq<Found> {
    v.map_values(|x: (String, String, String)| (x.0@, x.1@, x.2@))
}

/// A literal shaped like a report id opens with `ce.`.
pub proof fn lemma_schemaver_len(lit: Chars)
    requires
        schemaver_spec(lit),
    ensures
        lit.len() >= 3,
{
    reveal_strlit("ce.");
}

/// Every literal the scan keeps is shaped like a report id.
pub proof fn lemma_literals_shaped(t: Chars, pos: int)
    ensures
        forall|x: int| 0 <= x < literals_from(t, pos).len() ==> schemaver_spec(
            #[trigger] literals_from(t, pos)[x],
        ),
    decreases t.len() + 1 - pos,
{
    if 0 <= pos <= t.len() {
        reveal_strlit("\"ce.");
        lemma_find_from(t, "\"ce."@, pos);
        if let Some(i) = find_from(t, "\"ce."@, pos) {
            let b = i + 1;
            lemma_index_from(t, '\u{22}', b);
            let e = match index_from(t, '\u{22}', b) {
                Some(j) => j,
                None => t.len() as int,
            };
            lemma_literals_shaped(t, e);
            let lit = t.subrange(b, e);
            if schemaver_spec(lit) {
                assert forall|x: int| 0 <= x < literals_from(t, pos).len() implies schemaver_spec(
                    #[trigger] literals_from(t, pos)[x],
                ) by {
                    if x > 0 {
                        assert(literals_from(t, pos)[x] == literals_from(t, e)[x - 1]);
                    }
                }
            }
        }
    }
}

/// The families of the first `n` files open the families of all.
pub proof fn lemma_found_prefix(fv: Seq<(Chars, Chars)>, n: int)
    requires
        0 <= n <= fv.len(),
    ensures
        found_in(fv.take(n)).len() <= found_in(fv).len(),
        forall|x: int| 0 <= x < found_in(fv.take(n)).len() ==> found_in(fv)[x] == #[trigger] found_in(
            fv.take(n),
        )[x],
    decreases fv.len() - n,
{
    if n < fv.len() {
        lemma_found_prefix(fv, n + 1);
        let a = fv.take(n + 1);
        assert(a.drop_last() =~= fv.take(n));
        let tail = literals_from(a.last().1, 0).map_values(|l: Chars| (family_of(l), l, a.last().0));
        assert(found_in(a) == found_in(fv.take(n)) + tail);
        assert forall|x: int| 0 <= x < found_in(fv.take(n)).len() implies found_in(fv)[x]
            == #[trigger] found_in(fv.take(n))[x] by {
            assert(found_in(a)[x] == found_in(fv.take(n))[x]);
        }
    } else {
        assert(fv.take(n) =~= fv);
    }
}

/// The families of the first `i + 1` files: those of the first `i`, then
/// those of file `i`.
pub proof fn lemma_found_step(fv: Seq<(Chars, Chars)>, i: int)
    requires
        0 <= i < fv.len(),
    ensures
        found_in(fv.take(i + 1)) == found_in(fv.take(i)) + literals_from(fv[i].1, 0).map_values(
            |l: Chars| (family_of(l), l, fv[i].0),
        ),
{
    let a = fv.take(i + 1);
    assert(a.drop_last() =~= fv.take(i));
    assert(a.last() == fv[i]);
    assert(found_in(a) =~= found_in(fv.take(i)) + literals_from(fv[i].1, 0).map_values(
        |l: Chars| (family_of(l), l, fv[i].0),
    ));
}

/// A family of file `i` whose name an earlier entry already holds makes
/// the names of all files repeat.
proof fn lemma_found_twice(fv: Seq<(Chars, Chars)>, i: int, k: int, j: int)
    requires
        0 <= i < fv.len(),
        0 <= k < literals_from(fv[i].1, 0).len(),
        0 <= j < found_in(fv.take(i)).len() + k,
        found_in(fv.take(i + 1))[j].0 == family_of(literals_from(fv[i].1, 0)[k]),
    ensures
        !names_unique(found_in(fv)),
{
    lemma_found_step(fv, i);
    lemma_found_prefix(fv, i + 1);
    let at = found_in(fv.take(i)).len() + k;
    let full = found_in(fv.take(i + 1));
    assert(full[at].0 == family_of(literals_from(fv[i].1, 0)[k]));
    assert(found_in(fv)[at] == full[at]);
    assert(found_in(fv)[j] == full[j]);
}

fn copy(s: &String) -> (out: String)
    ensures
        out@ == s@,
{
    string_of(&chars_of(s.as_str()))
}

/// The families of the product's sources, each literal of each file in
/// order, as (family, literal, file); a family spelled twice is a
/// refusal naming both files. `files` holds each source's repo-relative
/// path and text, in path order.
pub fn scan(files: &Vec<(String, String)>) -> (r: Result<Vec<(String, String, String)>, ReportError>)
    ensures
        r is Ok <==> names_unique(found_in(pairs_view(files@))),
        r matches Ok(v) ==> found_view(v@) == found_in(pairs_view(files@)),
        r matches Err(e) ==> e is Twice,
{
    let ghost fv = pairs_view(files@);
    let mut found: Vec<(String, String, String)> = Vec::new();
    let mut i: usize = 0;
    while i < files.len()
        invariant
            i <= files@.len(),
            fv == pairs_view(files@),
            found_view(found@) == found_in(fv.take(i as int)),
            names_unique(found_view(found@)),
        decreases files.len() - i,
    {
        let lits = literals(files[i].1.as_str());
        proof {
            lemma_literals_shaped(files@[i as int].1@, 0);
            lemma_found_step(fv, i as int);
            assert(fv[i as int] == (files@[i as int].0@, files@[i as int].1@));
        }
        let ghost base = found_view(found@);
        let ghost lm = literals_from(fv[i as int].1, 0).map_values(
            |l: Chars| (family_of(l), l, fv[i as int].0),
        );
        assert(lm.len() == views(lits@).len());
        let mut k: usize = 0;
        while k < lits.len()
            invariant
                i < files@.len(),
                fv == pairs_view(files@),
                fv[i as int] == (files@[i as int].0@, files@[i as int].1@),
                views(lits@) == literals_from(fv[i as int].1, 0),
                base == found_in(fv.take(i as int)),
                found_in(fv.take(i + 1)) == base + lm,
                lm == literals_from(fv[i as int].1, 0).map_values(
                    |l: Chars| (family_of(l), l, fv[i as int].0),
                ),
                k <= lits@.len(),
                lm.len() == lits@.len(),
                found_view(found@) == base + lm.take(k as int),
                names_unique(found_view(found@)),
                forall|x: int| 0 <= x < lits@.len() ==> schemaver_spec(#[trigger] views(lits@)[x]),
            decreases lits.len() - k,
        {
            let lit = chars_of(lits[k].as_str());
            proof {
                assert(views(lits@)[k as int] == lit@);
                lemma_schemaver_len(lit@);
            }
            let name = family(&lit);
            let mut j: usize = 0;
            while j < found.len()
                invariant
                    i < files@.len(),
                    fv == pairs_view(files@),
                    views(lits@) == literals_from(fv[i as int].1, 0),
                    views(lits@)[k as int] == lit@,
                    name@ == family_of(lit@),
                    k < lits@.len(),
                    lm.len() == lits@.len(),
                    base == found_in(fv.take(i as int)),
                    found_in(fv.take(i + 1)) == base + lm,
                    found_view(found@) == base + lm.take(k as int),
                    j <= found@.len(),
                    forall|y: int| 0 <= y < j ==> (#[trigger] found_view(found@)[y]).0 != name@,
                decreases found.len() - j,
            {
                assert(found_view(found@)[j as int].0 == found@[j as int].0@);
                if same(&chars_of(found[j].0.as_str()), &name) {
                    proof {
                        let full = found_in(fv.take(i + 1));
                        assert(lm.len() == lits@.len());
                        assert(found_view(found@).len() == found@.len());
                        assert(found_view(found@).len() == base.len() + k);
                        assert(full[j as int] == found_view(found@)[j as int]);
                        lemma_found_twice(fv, i as int, k as int, j as int);
                    }
                    return Err(
                        ReportError::Twice {
                            name: string_of(&name),
                            first: copy(&found[j].2),
                            second: copy(&files[i].0),
                        },
                    );
                }
                j += 1;
            }
            let ghost before = found_view(found@);
            found.push((string_of(&name), string_of(&lit), copy(&files[i].0)));
            proof {
                assert(found_view(found@) =~= before.push((name@, lit@, files@[i as int].0@)));
                assert(lm[k as int] == (name@, lit@, files@[i as int].0@));
                assert(lm.take(k + 1) =~= lm.take(k as int).push(lm[k as int]));
                assert forall|x: int, y: int|
                    0 <= x < found_view(found@).len() && 0 <= y < found_view(found@).len() && x != y
                        implies (#[trigger] found_view(found@)[x]).0 != (#[trigger] found_view(found@)[y]).0 by {
                    if x < before.len() && y < before.len() {
                        assert(found_view(found@)[x] == before[x]);
                        assert(found_view(found@)[y] == before[y]);
                    } else if x < before.len() {
                        assert(found_view(found@)[x] == before[x]);
                    } else {
                        assert(found_view(found@)[y] == before[y]);
                    }
                }
            }
            k += 1;
        }
        proof {
            assert(lm.take(lits@.len() as int) =~= lm);
        }
        i += 1;
    }
    assert(fv.take(files@.len() as int) =~= fv);
    Ok(found)
}

/// The families whose const sits behind a private module, each with the
/// promotion that would link it.
pub open spec fn private_spec() -> Seq<(Chars, Chars)> {
    seq![
        ("churn"@, "churn::report is private; promote = re-export SCHEMA beside Report"@),
        ("deadcode"@, "report::DEADCODE_SCHEMA is private; promote = pub const"@),
        ("erase-log"@, "erase::apply::LOG_SCHEMA is private; promote = re-export beside SCHEMA_ID"@),
        ("trend"@, "trend::report is private; promote = re-export SCHEMA_ID beside Report"@),
    ]
}

/// The private table: family name and debt line.
pub fn private_table() -> (t: Vec<(String, String)>)
    ensures
        pairs_view(t@) == private_spec(),
{
    let t = vec![
        (
            "churn".to_string(),
            "churn::report is private; promote = re-export SCHEMA beside Report".to_string(),
        ),
        (
            "deadcode".to_string(),
            "report::DEADCODE_SCHEMA is private; promote = pub const".to_string(),
        ),
        (
            "erase-log".to_string(),
            "erase::apply::LOG_SCHEMA is private; promote = re-export beside SCHEMA_ID".to_string(),
        ),
        (
            "trend".to_string(),
            "trend::report is private; promote = re-export SCHEMA_ID beside Report".to_string(),
        ),
    ];
    assert(pairs_view(t@) =~= private_spec());
    t
}

/// Some scanned family carries this name.
pub open spec fn spelled(found: Seq<Found>, name: Chars) -> bool {
    exists|x: int| 0 <= x < found.len() && (#[trigger] found[x]).0 == name
}

/// Every family a table enrolls is spelled by some literal.
pub open spec fn enrolled_spelled(found: Seq<Found>, table: Seq<(Chars, Chars)>) -> bool {
    forall|k: int| 0 <= k < table.len() ==> spelled(found, (#[trigger] table[k]).0)
}

/// A scanned family agrees with the tables: a linked one carries the
/// typed value, any other is enrolled as private.
pub open spec fn entry_ok(e: Found, linked: Seq<(Chars, Chars)>, private: Seq<(Chars, Chars)>) -> bool {
    match value_for(linked, e.0) {
        Some(v) => v == e.1,
        None => value_for(private, e.0) is Some,
    }
}

/// The family closes both ways against the two tables.
pub open spec fn closes(found: Seq<Found>, linked: Seq<(Chars, Chars)>, private: Seq<(Chars, Chars)>) -> bool {
    &&& enrolled_spelled(found, linked)
    &&& enrolled_spelled(found, private)
    &&& forall|x: int| 0 <= x < found.len() ==> entry_ok(#[trigger] found[x], linked, private)
}

/// The id of a family's report-id fact.
pub open spec fn report_id(name: Chars) -> Chars {
    "report:"@ + name + "#schemaver"@
}

/// The fact one scanned family gives: linked through its typed const,
/// or scraped with the private table's debt line.
pub open spec fn report_fact(
    e: Found,
    linked: Seq<(Chars, Chars)>,
    private: Seq<(Chars, Chars)>,
    f: Fact,
) -> bool {
    match value_for(linked, e.0) {
        Some(_) => is_fact(f, report_id(e.0), e.1, Tier::Linked, e.2 + " (typed)"@, None),
        None => is_fact(f, report_id(e.0), e.1, Tier::Scraped, e.2, value_for(private, e.0)),
    }
}

fn spelled_in(found: &Vec<(String, String, String)>, name: &[char]) -> (b: bool)
    ensures
        b == spelled(found_view(found@), name@),
{
    let ghost fv = found_view(found@);
    let mut x: usize = 0;
    while x < found.len()
        invariant
            fv == found_view(found@),
            x <= found@.len(),
            forall|y: int| 0 <= y < x ==> (#[trigger] fv[y]).0 != name@,
        decreases found.len() - x,
    {
        assert(fv[x as int].0 == found@[x as int].0@);
        if same(&chars_of(found[x].0.as_str()), name) {
            return true;
        }
        x += 1;
    }
    false
}

fn table_spelled(found: &Vec<(String, String, String)>, table: &Vec<(String, String)>) -> (r: Option<String>)
    ensures
        r is None <==> enrolled_spelled(found_view(found@), pairs_view(table@)),
        r matches Some(n) ==> exists|k: int|
            0 <= k < table@.len() && (#[trigger] pairs_view(table@)[k]).0 == n@ && !spelled(
                found_view(found@),
                n@,
            ),
{
    let ghost tv = pairs_view(table@);
    let mut k: usize = 0;
    while k < table.len()
        invariant
            tv == pairs_view(table@),
            k <= table@.len(),
            forall|y: int| 0 <= y < k ==> spelled(found_view(found@), (#[trigger] tv[y]).0),
        decreases table.len() - k,
    {
        let name = chars_of(table[k].0.as_str());
        assert(tv[k as int].0 == name@);
        if !spelled_in(found, &name) {
            return Some(string_of(&name));
        }
        k += 1;
    }
    None
}

/// The report-id facts of the scanned families, id-sorted, once the
/// family closes both ways: every family `linked` or `private` enrolls
/// is spelled, a linked family's literal is its typed value, and every
/// scanned family is enrolled. `linked` holds each linked family's name
/// and typed report id.
pub fn close(
    found: &Vec<(String, String, String)>,
    linked_table: &Vec<(String, String)>,
    private: &Vec<(String, String)>,
) -> (r: Result<Vec<Fact>, ReportError>)
    ensures
        r is Ok <==> closes(found_view(found@), pairs_view(linked_table@), pairs_view(private@)),
        r matches Ok(v) ==> id_sorted(v@) && exists|m: Seq<Fact>|
            #![trigger m.to_multiset()]
            m.len() == found@.len() && (forall|x: int|
                0 <= x < m.len() ==> report_fact(
                    #[trigger] found_view(found@)[x],
                    pairs_view(linked_table@),
                    pairs_view(private@),
                    m[x],
                )) && v@.to_multiset() == m.to_multiset(),
        r matches Err(ReportError::Unspelled { name }) ==> !spelled(found_view(found@), name@) && (
        exists|k: int|
            0 <= k < linked_table@.len() && (#[trigger] pairs_view(linked_table@)[k]).0 == name@)
            || exists|k: int| 0 <= k < private@.len() && (#[trigger] pairs_view(private@)[k]).0 == name@,
        r matches Err(ReportError::Disagree { file }) ==> exists|x: int|
            0 <= x < found@.len() && (#[trigger] found_view(found@)[x]).2 == file@ && (value_for(
                pairs_view(linked_table@),
                found_view(found@)[x].0,
            ) matches Some(t) && t != found_view(found@)[x].1),
        r matches Err(ReportError::Unenrolled { name, file }) ==> exists|x: int|
            0 <= x < found@.len() && (#[trigger] found_view(found@)[x]).0 == name@
                && found_view(found@)[x].2 == file@ && value_for(pairs_view(linked_table@), name@) is None
                && value_for(pairs_view(private@), name@) is None,
        !(r matches Err(ReportError::Twice { .. })),
{
    let ghost fv = found_view(found@);
    let ghost lv = pairs_view(linked_table@);
    let ghost pv = pairs_view(private@);
    if let Some(name) = table_spelled(found, linked_table) {
        return Err(ReportError::Unspelled { name });
    }
    if let Some(name) = table_spelled(found, private) {
        return Err(ReportError::Unspelled { name });
    }
    let head = chars_of("report:");
    let tail = chars_of("#schemaver");
    let typed = chars_of(" (typed)");
    let mut out: Vec<Fact> = Vec::new();
    let mut x: usize = 0;
    while x < found.len()
        invariant
            fv == found_view(found@),
            lv == pairs_view(linked_table@),
            pv == pairs_view(private@),
            head@ == "report:"@,
            tail@ == "#schemaver"@,
            typed@ == " (typed)"@,
            enrolled_spelled(fv, lv),
            enrolled_spelled(fv, pv),
            x <= found@.len(),
            out@.len() == x,
            forall|y: int| 0 <= y < x ==> entry_ok(#[trigger] fv[y], lv, pv),
            forall|y: int| 0 <= y < x ==> report_fact(#[trigger] fv[y], lv, pv, out@[y]),
        decreases found.len() - x,
    {
        let name = chars_of(found[x].0.as_str());
        let value = found[x].1.as_str();
        let file = found[x].2.as_str();
        assert(fv[x as int] == (name@, value@, file@));
        let id = string_of(&concat(&concat(&head, &name), &tail));
        assert(id@ == report_id(name@));
        let f = match value_in(linked_table, &name) {
            Some(t) => {
                if !same(&t, &chars_of(value)) {
                    return Err(ReportError::Disagree { file: file.to_string() });
                }
                let src = string_of(&concat(&chars_of(file), &typed));
                linked(id.as_str(), value, src.as_str())
            },
            None => {
                match value_in(private, &name) {
                    Some(debt) => {
                        let d = string_of(&debt);
                        scraped(id.as_str(), value, file, d.as_str())
                    },
                    None => {
                        return Err(
                            ReportError::Unenrolled { name: string_of(&name), file: file.to_string() },
                        );
                    },
                }
            },
        };
        let ghost before = out@;
        out.push(f);
        proof {
            assert forall|y: int| 0 <= y < x + 1 implies report_fact(#[trigger] fv[y], lv, pv, out@[y]) by {
                if y < x {
                    assert(out@[y] == before[y]);
                }
            }
        }
        x += 1;
    }
    let ghost m = out@;
    let v = super::sort_facts(out);
    assert(v@.to_multiset() == m.to_multiset());
    Ok(v)
}

/// The report-id family: every value-shaped `"ce.<name>/<ver>"` literal
/// of the product's sources, keyed by family name, closed both ways
/// against the linked and the private tables; `files` holds each
/// source's repo-relative path and text in path order, `linked_table`
/// each linked family's name and typed report id.
pub fn facts(files: &Vec<(String, String)>, linked_table: &Vec<(String, String)>) -> (r: Result<Vec<Fact>, ReportError>)
    ensures
        r matches Err(ReportError::Twice { .. }) <==> !names_unique(found_in(pairs_view(files@))),
        r is Ok <==> names_unique(found_in(pairs_view(files@))) && closes(
            found_in(pairs_view(files@)),
            pairs_view(linked_table@),
            private_spec(),
        ),
        r matches Ok(v) ==> id_sorted(v@) && exists|m: Seq<Fact>|
            #![trigger m.to_multiset()]
            m.len() == found_in(pairs_view(files@)).len() && (forall|x: int|
                0 <= x < m.len() ==> report_fact(
                    #[trigger] found_in(pairs_view(files@))[x],
                    pairs_view(linked_table@),
                    private_spec(),
                    m[x],
                )) && v@.to_multiset() == m.to_multiset(),
{
    let found = scan(files)?;
    let private = private_table();
    close(&found, linked_table, &private)
}

} // verus!
