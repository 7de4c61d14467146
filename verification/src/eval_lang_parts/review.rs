//! The frozen audit-table vocabulary of the language exams: what a
//! truth names, and whether an exam's audit is frozen.

use super::Exam;
use crate::eval_support::graph::keyword_of;
use crate::text::{
    chars_of, find_char, index_from, lemma_index_from, slice_vec, starts, string_of, views,
    Chars,
};
use vstd::prelude::*;

verus! {

/// Whether an exam's audit is frozen: its row has reached the stage.
pub fn audited(exam: &Exam) -> (b: bool)
    ensures
        b == exam.audited,
{
    exam.audited
}

/// The site kinds a package directory answers, each with where the
/// package keeps its code under that directory: Java's on-demand
/// import names the directory holding the package's files, R's package
/// load the package root, whose code sits in `R/`.
pub open spec fn package_code(kind: Chars) -> Option<Chars> {
    if kind == "import_star"@ {
        Some(Seq::empty())
    } else if kind == "library"@ {
        Some("R/"@)
    } else {
        None
    }
}

/// What a truth names.
#[derive(Clone, Copy, Debug, PartialEq, Eq, Structural)]
pub enum TruthClass {
    /// One of the vocabulary's keywords (its index among them).
    Keyword(usize),
    /// A file the exam's truths may name.
    File,
    /// `file#Name`: a member declared in such a file.
    Member,
    /// A package directory holding frozen code for the row's kind.
    Package,
}

/// Why a truth names nothing the exam knows.
#[derive(Clone, Copy, Debug, PartialEq, Eq, Structural)]
pub enum TruthFault {
    /// `file#` with no member name, or one with a space in it.
    NoMember,
    /// No keyword, no frozen file, no package directory with code.
    Unbound,
}

/// Whether some file lies directly in `dir` (no further `/`).
pub open spec fn holds_code(files: Seq<Chars>, dir: Chars) -> bool {
    exists|i: int|
        0 <= i < files.len() && starts(#[trigger] files[i], dir) && !files[i].skip(
            dir.len() as int,
        ).contains('/')
}

/// The directory a package truth's code sits in.
pub open spec fn package_dir(truth: Chars, code: Chars) -> Chars {
    if truth == "."@ {
        code
    } else {
        truth + seq!['/'] + code
    }
}

/// What a truth names: a keyword; a file the exam's truths may name,
/// `#Name` naming a member declared in it; or — for a package-level
/// site only — the package's directory (`.` is the corpus root).
pub open spec fn class_spec(truth: Chars, kind: Chars, files: Seq<Chars>) -> Result<
    TruthClass,
    TruthFault,
> {
    match keyword_of(truth) {
        Some(k) => Ok(TruthClass::Keyword(k as usize)),
        None => {
            let h = index_from(truth, '#', 0);
            let path = match h {
                Some(i) => truth.take(i),
                None => truth,
            };
            if files.contains(path) {
                match h {
                    None => Ok(TruthClass::File),
                    Some(i) => {
                        let m = truth.skip(i + 1);
                        if m.len() > 0 && !m.contains(' ') {
                            Ok(TruthClass::Member)
                        } else {
                            Err(TruthFault::NoMember)
                        }
                    },
                }
            } else {
                match package_code(kind) {
                    Some(code) => if holds_code(files, package_dir(truth, code)) {
                        Ok(TruthClass::Package)
                    } else {
                        Err(TruthFault::Unbound)
                    },
                    None => Err(TruthFault::Unbound),
                }
            }
        },
    }
}

fn has_char(s: &[char], c: char) -> (b: bool)
    ensures
        b == s@.contains(c),
{
    proof {
        lemma_index_from(s@, c, 0);
    }
    let r = find_char(s, c);
    match r {
        Some(i) => {
            assert(i < s.len());
            assert(s@[i as int] == c);
            true
        },
        None => false,
    }
}

fn contains_str(files: &Vec<String>, p: &[char]) -> (b: bool)
    ensures
        b == views(files@).contains(p@),
{
    let mut i: usize = 0;
    while i < files.len()
        invariant
            i <= files@.len(),
            forall|j: int| 0 <= j < i ==> files@[j]@ != p@,
        decreases files.len() - i,
    {
        if crate::text::same(&chars_of(files[i].as_str()), p) {
            assert(views(files@)[i as int] == p@);
            return true;
        }
        i += 1;
    }
    assert forall|j: int| 0 <= j < views(files@).len() implies views(files@)[j] != p@ by {
        assert(views(files@)[j] == files@[j]@);
    }
    false
}

/// What a truth names (the vocabulary of the audits): a keyword, a
/// file, a member of a file, or a package directory; anything else is
/// a refusal, a `TruthFault` value for the caller to report, never a
/// panic.
pub fn class_of(truth: &str, kind: &str, files: &Vec<String>) -> (r: Result<TruthClass, TruthFault>)
    ensures
        r == class_spec(truth@, kind@, views(files@)),
{
    if let Some(k) = crate::eval_support::graph::keyword_index(truth) {
        return Ok(TruthClass::Keyword(k));
    }
    let t = chars_of(truth);
    proof {
        lemma_index_from(t@, '#', 0);
    }
    let h = find_char(&t, '#');
    let path = match h {
        Some(i) => slice_vec(&t, 0, i),
        None => slice_vec(&t, 0, t.len()),
    };
    assert(h is Some ==> path@ =~= t@.take(h->0 as int));
    assert(h is None ==> path@ =~= t@);
    if contains_str(files, &path) {
        return match h {
            None => Ok(TruthClass::File),
            Some(i) => {
                assert(i < t.len());
                let m = slice_vec(&t, i + 1, t.len());
                assert(m@ =~= t@.skip(i + 1));
                if m.len() > 0 && !has_char(&m, ' ') {
                    Ok(TruthClass::Member)
                } else {
                    Err(TruthFault::NoMember)
                }
            },
        };
    }
    let k = chars_of(kind);
    let code: Vec<char> = if crate::text::same(&k, &chars_of("import_star")) {
        Vec::new()
    } else if crate::text::same(&k, &chars_of("library")) {
        chars_of("R/")
    } else {
        return Err(TruthFault::Unbound);
    };
    assert(package_code(kind@) == Some(code@));
    let dir: Vec<char> = if crate::text::same(&t, &chars_of(".")) {
        code
    } else {
        let mut d = crate::text::concat(&t, &chars_of("/"));
        d = crate::text::concat(&d, &code);
        d
    };
    proof {
        reveal_strlit("/");
    }
    assert(dir@ =~= package_dir(truth@, code@));
    if holds(files, &dir) {
        Ok(TruthClass::Package)
    } else {
        Err(TruthFault::Unbound)
    }
}

/// Whether some file lies directly in `dir`.
fn holds(files: &Vec<String>, dir: &Vec<char>) -> (b: bool)
    ensures
        b == holds_code(views(files@), dir@),
{
    let mut i: usize = 0;
    while i < files.len()
        invariant
            i <= files@.len(),
            forall|j: int|
                0 <= j < i ==> !(starts(#[trigger] views(files@)[j], dir@) && !views(
                    files@,
                )[j].skip(dir@.len() as int).contains('/')),
        decreases files.len() - i,
    {
        let f = chars_of(files[i].as_str());
        assert(views(files@)[i as int] == f@);
        if crate::text::starts_with(&f, dir) {
            let rest = slice_vec(&f, dir.len(), f.len());
            assert(rest@ =~= f@.skip(dir@.len() as int));
            if !has_char(&rest, '/') {
                assert(starts(views(files@)[i as int], dir@) && !views(files@)[i as int].skip(
                    dir@.len() as int,
                ).contains('/'));
                return true;
            }
        }
        i += 1;
    }
    false
}

/// A sampled site's identity, field by field: its rank, path, line,
/// occurrence, kind and spec.
pub struct Echo {
    pub rank: String,
    pub path: String,
    pub line: u64,
    pub nth: u64,
    pub kind: String,
    pub spec: String,
}

pub open spec fn echo_view(e: Echo) -> (Chars, Chars, u64, u64, Chars, Chars) {
    (e.rank@, e.path@, e.line, e.nth, e.kind@, e.spec@)
}

/// One judged row of an audit table: the identity it echoes, its
/// truth, the auditor's why and the batch it came in.
pub struct Judged {
    pub echo: Echo,
    pub truth: String,
    pub why: String,
    pub batch: Option<u64>,
}

/// One gap an audit names: where it sits and its note.
pub struct Gap {
    pub path: String,
    pub line: Option<u64>,
    pub note: Option<String>,
}

/// Why an audit table is refused.
#[derive(Debug)]
pub enum ReviewFault {
    /// Not one judged row per sampled primary.
    Rows { have: usize, want: usize },
    /// A row whose identity field is not the sampled one.
    Echo { rank: String, field: String },
    /// A truth outside the vocabulary or bound to nothing.
    Truth { rank: String, fault: TruthFault },
    /// A why under the floor.
    Why { rank: String },
    /// A row without its batch.
    Batch { rank: String },
    /// A gap on the wrong side of the frozen universe, or at no line.
    Gap { field: String, path: String },
    /// A gap without its note.
    Note { field: String },
    /// No site gap list.
    NoSiteGaps,
}

/// One judged row against its sampled primary.
pub open spec fn row_ok(r: Judged, s: Echo, reach: Seq<Chars>, min_why: nat) -> bool {
    &&& echo_view(r.echo) == echo_view(s)
    &&& class_spec(r.truth@, r.echo.kind@, reach) is Ok
    &&& r.why@.len() >= min_why
    &&& r.batch matches Some(b) && b >= 1
}

/// The summary's class names, in the order the summary keys sort.
pub open spec fn summary_names() -> Seq<Chars> {
    seq!["ambiguous"@, "dynamic"@, "external"@, "file"@, "member"@, "none"@, "package"@]
}

/// The name a class is tallied under.
pub open spec fn class_name(c: TruthClass) -> Chars {
    match c {
        TruthClass::Keyword(k) => crate::eval_support::graph::truth_keywords()[k as int],
        TruthClass::File => "file"@,
        TruthClass::Member => "member"@,
        TruthClass::Package => "package"@,
    }
}

/// How many rows' truths are of the class named `name`.
pub open spec fn class_count(rows: Seq<Judged>, reach: Seq<Chars>, name: Chars) -> nat
    decreases rows.len(),
{
    if rows.len() == 0 {
        0
    } else {
        class_count(rows.drop_last(), reach, name) + match class_spec(
            rows.last().truth@,
            rows.last().echo.kind@,
            reach,
        ) {
            Ok(c) => if class_name(c) == name {
                1nat
            } else {
                0nat
            },
            Err(_) => 0nat,
        }
    }
}

proof fn lemma_class_count_le(rows: Seq<Judged>, reach: Seq<Chars>, name: Chars)
    ensures
        class_count(rows, reach, name) <= rows.len(),
    decreases rows.len(),
{
    if rows.len() > 0 {
        lemma_class_count_le(rows.drop_last(), reach, name);
    }
}

proof fn lemma_names_distinct()
    ensures
        forall|a: int, b: int|
            0 <= a < 7 && 0 <= b < 7 && a != b ==> #[trigger] summary_names()[a] != #[trigger] summary_names()[b],
{
    reveal_strlit("external");
    reveal_strlit("dynamic");
    reveal_strlit("ambiguous");
    reveal_strlit("none");
    reveal_strlit("file");
    reveal_strlit("member");
    reveal_strlit("package");
    let n = summary_names();
    assert(n[0].len() == 9 && n[1].len() == 7 && n[2].len() == 8 && n[3].len() == 4);
    assert(n[4].len() == 6 && n[5].len() == 4 && n[6].len() == 7);
    assert(n[1][0] == 'd' && n[6][0] == 'p' && n[3][0] == 'f' && n[5][0] == 'n');
}

proof fn lemma_keyword_range(t: Chars, i: int)
    requires
        0 <= i,
    ensures
        crate::eval_support::graph::keyword_from(t, i) matches Some(k) ==> i <= k < 4,
    decreases 4 - i,
{
    if i < 4 {
        lemma_keyword_range(t, i + 1);
    }
}

fn first_echo_fault(r: &Echo, s: &Echo) -> (f: Option<&'static str>)
    ensures
        f is None <==> echo_view(*r) == echo_view(*s),
{
    if !crate::text::same(&chars_of(r.rank.as_str()), &chars_of(s.rank.as_str())) {
        Some("rank")
    } else if !crate::text::same(&chars_of(r.path.as_str()), &chars_of(s.path.as_str())) {
        Some("path")
    } else if r.line != s.line {
        Some("line")
    } else if r.nth != s.nth {
        Some("nth")
    } else if !crate::text::same(&chars_of(r.kind.as_str()), &chars_of(s.kind.as_str())) {
        Some("kind")
    } else if !crate::text::same(&chars_of(r.spec.as_str()), &chars_of(s.spec.as_str())) {
        Some("spec")
    } else {
        None
    }
}

fn copy(s: &String) -> (out: String)
    ensures
        out@ == s@,
{
    string_of(&chars_of(s.as_str()))
}

/// One corpus's judged rows against its sampled primaries, in sample
/// order: each echoes its sampled identity, its truth names what the
/// exam's truths may name (`reach`), its why holds at least `min_why`
/// characters, and it names its batch. The summary tallies the truths
/// per class, in the summary's key order.
pub fn judge_rows(rows: &Vec<Judged>, sampled: &Vec<Echo>, reach: &Vec<String>, min_why: usize) -> (r:
    Result<Vec<(String, u64)>, ReviewFault>)
    ensures
        r is Ok <==> rows@.len() == sampled@.len() && forall|i: int|
            0 <= i < rows@.len() ==> row_ok(#[trigger] rows@[i], sampled@[i], views(reach@), min_why as nat),
        r matches Ok(v) ==> v@.len() == 7 && forall|j: int|
            0 <= j < 7 ==> (#[trigger] v@[j]).0@ == summary_names()[j] && v@[j].1 as nat == class_count(
                rows@,
                views(reach@),
                summary_names()[j],
            ),
        r matches Err(ReviewFault::Rows { have, want }) ==> have == rows@.len() && want == sampled@.len()
            && have != want,
        r matches Err(ReviewFault::Echo { rank, .. }) ==> exists|i: int|
            0 <= i < rows@.len() && rank@ == (#[trigger] sampled@[i]).rank@ && echo_view(rows@[i].echo)
                != echo_view(sampled@[i]),
        r matches Err(ReviewFault::Truth { rank, fault }) ==> exists|i: int|
            0 <= i < rows@.len() && rank@ == (#[trigger] sampled@[i]).rank@ && class_spec(
                rows@[i].truth@,
                rows@[i].echo.kind@,
                views(reach@),
            ) == Err::<TruthClass, TruthFault>(fault),
        r matches Err(ReviewFault::Why { rank }) ==> exists|i: int|
            0 <= i < rows@.len() && rank@ == (#[trigger] sampled@[i]).rank@ && rows@[i].why@.len()
                < min_why,
        r matches Err(ReviewFault::Batch { rank }) ==> exists|i: int|
            0 <= i < rows@.len() && rank@ == (#[trigger] sampled@[i]).rank@ && !(rows@[i].batch matches Some(
                b,
            ) && b >= 1),
        r is Err ==> !(r matches Err(ReviewFault::Gap { .. })) && !(r matches Err(
            ReviewFault::Note { .. },
        )) && !(r matches Err(ReviewFault::NoSiteGaps)),
{
    if rows.len() != sampled.len() {
        return Err(ReviewFault::Rows { have: rows.len(), want: sampled.len() });
    }
    let ghost rv = views(reach@);
    let mut counts: Vec<u64> = vec![0, 0, 0, 0, 0, 0, 0];
    let mut i: usize = 0;
    while i < rows.len()
        invariant
            rows@.len() == sampled@.len(),
            rv == views(reach@),
            i <= rows@.len(),
            counts@.len() == 7,
            forall|q: int| 0 <= q < i ==> row_ok(#[trigger] rows@[q], sampled@[q], rv, min_why as nat),
            forall|j: int|
                0 <= j < 7 ==> (#[trigger] counts@[j]) as nat == class_count(
                    rows@.take(i as int),
                    rv,
                    summary_names()[j],
                ),
        decreases rows.len() - i,
    {
        let row = &rows[i];
        let s = &sampled[i];
        if let Some(f) = first_echo_fault(&row.echo, s) {
            return Err(ReviewFault::Echo { rank: copy(&s.rank), field: string_of(&chars_of(f)) });
        }
        let c = match class_of(row.truth.as_str(), row.echo.kind.as_str(), reach) {
            Ok(c) => c,
            Err(fault) => {
                return Err(ReviewFault::Truth { rank: copy(&s.rank), fault });
            },
        };
        if chars_of(row.why.as_str()).len() < min_why {
            return Err(ReviewFault::Why { rank: copy(&s.rank) });
        }
        match row.batch {
            Some(b) => {
                if b < 1 {
                    return Err(ReviewFault::Batch { rank: copy(&s.rank) });
                }
            },
            None => {
                return Err(ReviewFault::Batch { rank: copy(&s.rank) });
            },
        }
        let slot: usize = match c {
            TruthClass::Keyword(k) => if k == 0 {
                2
            } else if k == 1 {
                1
            } else if k == 2 {
                0
            } else {
                5
            },
            TruthClass::File => 3,
            TruthClass::Member => 4,
            TruthClass::Package => 6,
        };
        proof {
            lemma_keyword_range(rows@[i as int].truth@, 0);
            reveal_strlit("external");
            reveal_strlit("dynamic");
            reveal_strlit("ambiguous");
            reveal_strlit("none");
            reveal_strlit("file");
            reveal_strlit("member");
            reveal_strlit("package");
            assert(rows@.take(i + 1).drop_last() =~= rows@.take(i as int));
            assert(rows@.take(i + 1).last() == rows@[i as int]);
            assert(class_name(c) == summary_names()[slot as int]);
            lemma_names_distinct();
            assert forall|j: int| 0 <= j < 7 && j != slot implies class_name(c) != summary_names()[j] by {
                assert(summary_names()[j] != summary_names()[slot as int]);
            }
            lemma_class_count_le(rows@.take(i as int), rv, summary_names()[slot as int]);
        }
        let n = counts[slot];
        counts.set(slot, n + 1);
        i += 1;
    }
    assert(rows@.take(rows@.len() as int) =~= rows@);
    let names = ["ambiguous", "dynamic", "external", "file", "member", "none", "package"];
    let mut out: Vec<(String, u64)> = Vec::new();
    let mut j: usize = 0;
    while j < 7
        invariant
            counts@.len() == 7,
            names@ == seq!["ambiguous", "dynamic", "external", "file", "member", "none", "package"],
            forall|q: int| 0 <= q < 7 ==> (#[trigger] counts@[q]) as nat == class_count(rows@, rv, summary_names()[q]),
            j <= 7,
            out@.len() == j,
            forall|q: int|
                0 <= q < j ==> (#[trigger] out@[q]).0@ == summary_names()[q] && out@[q].1 as nat == class_count(
                    rows@,
                    rv,
                    summary_names()[q],
                ),
        decreases 7 - j,
    {
        let ghost before = out@;
        out.push((string_of(&chars_of(names[j])), counts[j]));
        assert forall|q: int|
            0 <= q < j + 1 implies (#[trigger] out@[q]).0@ == summary_names()[q] && out@[q].1 as nat
                == class_count(rows@, rv, summary_names()[q]) by {
            if q < j {
                assert(out@[q] == before[q]);
            }
        }
        j += 1;
    }
    Ok(out)
}

/// A gap on its side of the frozen universe: a site gap on a frozen
/// file, a scope gap off the universe (and, where the exam's truths
/// reach the pinned tree, on a path of it); at a real line.
pub open spec fn gap_sided(g: Gap, frozen: bool, universe_reach: bool, files: Seq<Chars>, reach: Seq<Chars>) -> bool {
    &&& files.contains(g.path@) == frozen
    &&& frozen || universe_reach || reach.contains(g.path@)
    &&& g.line matches Some(l) && l >= 1
}

pub open spec fn gap_noted(g: Gap) -> bool {
    g.note matches Some(n) && n@.len() > 0
}

fn check_gap_list(
    field: &str,
    gaps: &Vec<Gap>,
    frozen: bool,
    universe_reach: bool,
    files: &Vec<String>,
    reach: &Vec<String>,
) -> (r: Result<(), ReviewFault>)
    ensures
        r is Ok <==> forall|i: int|
            0 <= i < gaps@.len() ==> gap_sided(#[trigger] gaps@[i], frozen, universe_reach, views(files@), views(reach@))
                && gap_noted(gaps@[i]),
        r matches Err(ReviewFault::Gap { field: f, path }) ==> f@ == field@ && exists|i: int|
            0 <= i < gaps@.len() && (#[trigger] gaps@[i]).path@ == path@ && !gap_sided(
                gaps@[i],
                frozen,
                universe_reach,
                views(files@),
                views(reach@),
            ),
        r matches Err(ReviewFault::Note { field: f }) ==> f@ == field@ && exists|i: int|
            0 <= i < gaps@.len() && !gap_noted(#[trigger] gaps@[i]),
        r is Err ==> (r matches Err(ReviewFault::Gap { .. })) || (r matches Err(ReviewFault::Note { .. })),
{
    let mut i: usize = 0;
    while i < gaps.len()
        invariant
            i <= gaps@.len(),
            forall|q: int|
                0 <= q < i ==> gap_sided(#[trigger] gaps@[q], frozen, universe_reach, views(files@), views(reach@))
                    && gap_noted(gaps@[q]),
        decreases gaps.len() - i,
    {
        let g = &gaps[i];
        let p = chars_of(g.path.as_str());
        let on_file = contains_str(files, &p);
        let known = frozen || universe_reach || contains_str(reach, &p);
        let at_line = match g.line {
            Some(l) => l >= 1,
            None => false,
        };
        if !(on_file == frozen && known && at_line) {
            return Err(ReviewFault::Gap { field: string_of(&chars_of(field)), path: copy(&g.path) });
        }
        let noted = match &g.note {
            Some(n) => chars_of(n.as_str()).len() > 0,
            None => false,
        };
        if !noted {
            return Err(ReviewFault::Note { field: string_of(&chars_of(field)) });
        }
        i += 1;
    }
    Ok(())
}

/// Every gap on its side of the frozen universe with its note: the
/// site gaps (which an audit always lists) on frozen files, the scope
/// gaps (where an audit lists them) off the universe. `universe_reach`
/// says the exam's truths name the universe alone; `reach` is what
/// they may name.
pub fn check_gaps(
    universe_reach: bool,
    files: &Vec<String>,
    reach: &Vec<String>,
    site_gaps: &Option<Vec<Gap>>,
    scope_gaps: &Option<Vec<Gap>>,
) -> (r: Result<(), ReviewFault>)
    ensures
        r is Ok <==> (site_gaps matches Some(s) && forall|i: int|
            0 <= i < s@.len() ==> gap_sided(#[trigger] s@[i], true, universe_reach, views(files@), views(reach@))
                && gap_noted(s@[i])) && (scope_gaps matches Some(c) ==> forall|i: int|
            0 <= i < c@.len() ==> gap_sided(#[trigger] c@[i], false, universe_reach, views(files@), views(reach@))
                && gap_noted(c@[i])),
        r matches Err(ReviewFault::NoSiteGaps) ==> site_gaps is None,
{
    match site_gaps {
        None => Err(ReviewFault::NoSiteGaps),
        Some(s) => {
            check_gap_list("site_gaps", s, true, universe_reach, files, reach)?;
            match scope_gaps {
                None => Ok(()),
                Some(c) => check_gap_list("scope_gaps", c, false, universe_reach, files, reach),
            }
        },
    }
}

/// An audit table's schema.
pub const REVIEW_SCHEMA: &'static str = "ce.eval-lang-review/1.0.0";

/// An audit table's envelope: schema, corpus, language and tip.
pub struct ReviewEnvelope {
    pub schema: String,
    pub corpus: String,
    pub lang: String,
    pub tip: String,
}

/// Why an audit table's envelope is refused.
#[derive(Debug)]
pub enum ReviewEnvelopeFault {
    Schema,
    Corpus,
    Lang,
    /// Not the pinned tip of the corpus.
    Tip,
}

fn same_str(a: &String, b: &str) -> (r: bool)
    ensures
        r == (a@ == b@),
{
    crate::text::same(&chars_of(a.as_str()), &chars_of(b))
}

/// One corpus's audit table envelope against its exam: the review
/// schema, the corpus asked for, the exam's language and the corpus's
/// pinned tip (`corpus` is one the exam holds).
pub fn check_review_envelope(exam: &Exam, corpus: &str, doc: &ReviewEnvelope) -> (r: Result<(), ReviewEnvelopeFault>)
    requires
        crate::text::value_for(crate::text::pairs_view(exam.corpora@), corpus@) is Some,
    ensures
        r is Ok <==> doc.schema@ == REVIEW_SCHEMA@ && doc.corpus@ == corpus@ && doc.lang@ == exam.lang@ && Some(
            doc.tip@,
        ) == crate::text::value_for(crate::text::pairs_view(exam.corpora@), corpus@),
        r matches Err(ReviewEnvelopeFault::Schema) <==> doc.schema@ != REVIEW_SCHEMA@,
        r matches Err(ReviewEnvelopeFault::Corpus) <==> doc.schema@ == REVIEW_SCHEMA@ && doc.corpus@ != corpus@,
        r matches Err(ReviewEnvelopeFault::Lang) <==> doc.schema@ == REVIEW_SCHEMA@ && doc.corpus@ == corpus@
            && doc.lang@ != exam.lang@,
        r matches Err(ReviewEnvelopeFault::Tip) <==> doc.schema@ == REVIEW_SCHEMA@ && doc.corpus@ == corpus@
            && doc.lang@ == exam.lang@ && Some(doc.tip@) != crate::text::value_for(
            crate::text::pairs_view(exam.corpora@),
            corpus@,
        ),
{
    if !same_str(&doc.schema, REVIEW_SCHEMA) {
        return Err(ReviewEnvelopeFault::Schema);
    }
    if !same_str(&doc.corpus, corpus) {
        return Err(ReviewEnvelopeFault::Corpus);
    }
    if !same_str(&doc.lang, exam.lang.as_str()) {
        return Err(ReviewEnvelopeFault::Lang);
    }
    match exam.tip(corpus) {
        Some(t) => {
            if !same_str(&doc.tip, t.as_str()) {
                return Err(ReviewEnvelopeFault::Tip);
            }
            Ok(())
        },
        None => Err(ReviewEnvelopeFault::Tip),
    }
}

/// One corpus's audit table as a whole: its envelope, its judged rows,
/// its summary and its gap lists.
pub struct ReviewDoc {
    pub envelope: ReviewEnvelope,
    pub rows: Vec<Judged>,
    pub summary: Vec<(String, u64)>,
    pub site_gaps: Option<Vec<Gap>>,
    pub scope_gaps: Option<Vec<Gap>>,
}

/// The summary the truths give: each class that some truth names, in
/// the summary's key order, with how many truths name it.
pub open spec fn summary_upto(rows: Seq<Judged>, reach: Seq<Chars>, j: int) -> Seq<(Chars, u64)>
    decreases j,
{
    if j <= 0 {
        Seq::empty()
    } else {
        let before = summary_upto(rows, reach, j - 1);
        let n = summary_names()[j - 1];
        let c = class_count(rows, reach, n);
        if c > 0 {
            before.push((n, c as u64))
        } else {
            before
        }
    }
}

pub open spec fn summary_of(rows: Seq<Judged>, reach: Seq<Chars>) -> Seq<(Chars, u64)> {
    summary_upto(rows, reach, 7)
}

/// Every judged row against its sampled primary.
pub open spec fn rows_judged(rows: Seq<Judged>, sampled: Seq<Echo>, reach: Seq<Chars>, min_why: nat) -> bool {
    rows.len() == sampled.len() && forall|i: int| 0 <= i < rows.len() ==> row_ok(#[trigger] rows[i], sampled[i], reach, min_why)
}

/// Both gap lists on their side of the frozen universe, with notes.
pub open spec fn gaps_ok(
    site_gaps: Option<Vec<Gap>>,
    scope_gaps: Option<Vec<Gap>>,
    universe_reach: bool,
    files: Seq<Chars>,
    reach: Seq<Chars>,
) -> bool {
    &&& site_gaps matches Some(s) && forall|i: int|
        0 <= i < s@.len() ==> gap_sided(#[trigger] s@[i], true, universe_reach, files, reach) && gap_noted(s@[i])
    &&& scope_gaps matches Some(c) ==> forall|i: int|
        0 <= i < c@.len() ==> gap_sided(#[trigger] c@[i], false, universe_reach, files, reach) && gap_noted(c@[i])
}

pub open spec fn envelope_holds(exam: Exam, corpus: Chars, doc: ReviewEnvelope) -> bool {
    doc.schema@ == REVIEW_SCHEMA@ && doc.corpus@ == corpus && doc.lang@ == exam.lang@ && Some(doc.tip@)
        == crate::text::value_for(crate::text::pairs_view(exam.corpora@), corpus)
}

/// Why an audit table is refused: the first check it fails.
#[derive(Debug)]
pub enum AuditFault {
    Envelope(ReviewEnvelopeFault),
    Rows(ReviewFault),
    /// The summary is not the one the truths give.
    Summary,
    Gaps(ReviewFault),
}

fn summary_matches(doc: &Vec<(String, u64)>, tally: &Vec<(String, u64)>, Ghost(rows): Ghost<Seq<Judged>>, Ghost(reach): Ghost<Seq<Chars>>) -> (b: bool)
    requires
        tally@.len() == 7,
        forall|j: int|
            0 <= j < 7 ==> (#[trigger] tally@[j]).0@ == summary_names()[j] && tally@[j].1 as nat == class_count(
                rows,
                reach,
                summary_names()[j],
            ),
    ensures
        b == (crate::eval_support::tally::entries_view(doc@) == summary_of(rows, reach)),
{
    let mut want: Vec<(String, u64)> = Vec::new();
    let mut j: usize = 0;
    while j < 7
        invariant
            tally@.len() == 7,
            forall|q: int|
                0 <= q < 7 ==> (#[trigger] tally@[q]).0@ == summary_names()[q] && tally@[q].1 as nat == class_count(
                    rows,
                    reach,
                    summary_names()[q],
                ),
            j <= 7,
            crate::eval_support::tally::entries_view(want@) == summary_upto(rows, reach, j as int),
        decreases 7 - j,
    {
        if tally[j].1 > 0 {
            let ghost before = crate::eval_support::tally::entries_view(want@);
            want.push((string_of(&chars_of(tally[j].0.as_str())), tally[j].1));
            assert(crate::eval_support::tally::entries_view(want@) =~= before.push(
                (summary_names()[j as int], tally@[j as int].1),
            ));
        }
        j += 1;
    }
    let ghost wv = crate::eval_support::tally::entries_view(want@);
    let ghost dv = crate::eval_support::tally::entries_view(doc@);
    if doc.len() != want.len() {
        assert(dv.len() != wv.len());
        return false;
    }
    let mut i: usize = 0;
    while i < doc.len()
        invariant
            doc@.len() == want@.len(),
            wv == crate::eval_support::tally::entries_view(want@),
            wv == summary_of(rows, reach),
            dv == crate::eval_support::tally::entries_view(doc@),
            i <= doc@.len(),
            forall|q: int| 0 <= q < i ==> dv[q] == wv[q],
        decreases doc.len() - i,
    {
        assert(dv[i as int] == (doc@[i as int].0@, doc@[i as int].1));
        assert(wv[i as int] == (want@[i as int].0@, want@[i as int].1));
        if !crate::text::same(&chars_of(doc[i].0.as_str()), &chars_of(want[i].0.as_str())) || doc[i].1 != want[i].1 {
            assert(dv[i as int] != wv[i as int]);
            assert(dv != wv);
            return false;
        }
        i += 1;
    }
    assert(dv =~= wv);
    true
}

/// One corpus's audit table against its exam: the envelope (schema,
/// corpus, language, pinned tip), one judged row per sampled primary of
/// the corpus in sample order (`sampled`), each echoing its identity
/// with a truth that names what the exam's truths may name (`reach`), a
/// why of at least `min_why` characters and its batch, the summary the
/// truths give, and every gap on its side of the frozen universe
/// (`files`). The table passes exactly when all of these hold; one that
/// fails is refused with the fault of the first check it fails. The
/// refusal is a value for the caller to report, never a panic.
pub fn verify_review(
    exam: &Exam,
    corpus: &str,
    doc: &ReviewDoc,
    sampled: &Vec<Echo>,
    files: &Vec<String>,
    reach: &Vec<String>,
    min_why: usize,
) -> (r: Result<(), AuditFault>)
    requires
        crate::text::value_for(crate::text::pairs_view(exam.corpora@), corpus@) is Some,
    ensures
        r is Ok <==> envelope_holds(*exam, corpus@, doc.envelope) && rows_judged(
            doc.rows@,
            sampled@,
            views(reach@),
            min_why as nat,
        ) && crate::eval_support::tally::entries_view(doc.summary@) == summary_of(doc.rows@, views(reach@))
            && gaps_ok(doc.site_gaps, doc.scope_gaps, exam.reach == super::Reach::Universe, views(files@), views(reach@)),
        r matches Err(AuditFault::Envelope(_)) ==> !envelope_holds(*exam, corpus@, doc.envelope),
        r matches Err(AuditFault::Rows(_)) ==> envelope_holds(*exam, corpus@, doc.envelope) && !rows_judged(
            doc.rows@,
            sampled@,
            views(reach@),
            min_why as nat,
        ),
        r matches Err(AuditFault::Summary) ==> envelope_holds(*exam, corpus@, doc.envelope) && rows_judged(
            doc.rows@,
            sampled@,
            views(reach@),
            min_why as nat,
        ) && crate::eval_support::tally::entries_view(doc.summary@) != summary_of(doc.rows@, views(reach@)),
        r matches Err(AuditFault::Gaps(_)) ==> envelope_holds(*exam, corpus@, doc.envelope) && rows_judged(
            doc.rows@,
            sampled@,
            views(reach@),
            min_why as nat,
        ) && crate::eval_support::tally::entries_view(doc.summary@) == summary_of(doc.rows@, views(reach@))
            && !gaps_ok(doc.site_gaps, doc.scope_gaps, exam.reach == super::Reach::Universe, views(files@), views(reach@)),
{
    match check_review_envelope(exam, corpus, &doc.envelope) {
        Ok(()) => {},
        Err(e) => {
            return Err(AuditFault::Envelope(e));
        },
    }
    let tally = match judge_rows(&doc.rows, sampled, reach, min_why) {
        Ok(t) => t,
        Err(e) => {
            return Err(AuditFault::Rows(e));
        },
    };
    if !summary_matches(&doc.summary, &tally, Ghost(doc.rows@), Ghost(views(reach@))) {
        return Err(AuditFault::Summary);
    }
    let universe_reach = match exam.reach {
        super::Reach::Universe => true,
        super::Reach::Tree => false,
    };
    match check_gaps(universe_reach, files, reach, &doc.site_gaps, &doc.scope_gaps) {
        Ok(()) => Ok(()),
        Err(e) => Err(AuditFault::Gaps(e)),
    }
}

/// What an exam's truths may name in one corpus, as a set: the frozen
/// universe's files, or the paths of the pinned tree.
pub open spec fn reach_set(exam: Exam, universe: Seq<Chars>, tree: Seq<Chars>) -> Set<Chars> {
    if exam.reach == super::Reach::Universe {
        universe.to_set()
    } else {
        tree.to_set()
    }
}

/// One corpus's audit table against its exam, its frozen slice's files
/// and, for an exam whose truths reach the pinned tree, that tree's
/// paths: the universe and what the truths may name are derived from
/// them, then the table is checked as `verify_review` checks it. The
/// table passes exactly when it holds against that universe and that
/// reach (sorted, each path once); one that fails is refused with the
/// fault of the first check it fails, never a panic.
pub fn verify_review_slice(
    exam: &Exam,
    corpus: &str,
    doc: &ReviewDoc,
    sampled: &Vec<Echo>,
    slice_files: &Vec<crate::eval_support::tally::SiteFile>,
    tree: &Vec<String>,
    min_why: usize,
) -> (r: Result<(), AuditFault>)
    requires
        crate::text::value_for(crate::text::pairs_view(exam.corpora@), corpus@) is Some,
    ensures
        forall|reach: Seq<Chars>|
            crate::text::canonical(reach) && reach.to_set() == reach_set(
                *exam,
                slice_files@.map_values(|f: crate::eval_support::tally::SiteFile| f.path@),
                views(tree@),
            ) ==> {
                let files = slice_files@.map_values(|f: crate::eval_support::tally::SiteFile| f.path@);
                &&& (r is Ok <==> envelope_holds(*exam, corpus@, doc.envelope) && rows_judged(
                    doc.rows@,
                    sampled@,
                    reach,
                    min_why as nat,
                ) && crate::eval_support::tally::entries_view(doc.summary@) == summary_of(doc.rows@, reach)
                    && gaps_ok(doc.site_gaps, doc.scope_gaps, exam.reach == super::Reach::Universe, files, reach))
                &&& (r matches Err(AuditFault::Envelope(_)) ==> !envelope_holds(*exam, corpus@, doc.envelope))
                &&& (r matches Err(AuditFault::Rows(_)) ==> envelope_holds(*exam, corpus@, doc.envelope) && !rows_judged(
                    doc.rows@,
                    sampled@,
                    reach,
                    min_why as nat,
                ))
                &&& (r matches Err(AuditFault::Summary) ==> envelope_holds(*exam, corpus@, doc.envelope) && rows_judged(
                    doc.rows@,
                    sampled@,
                    reach,
                    min_why as nat,
                ) && crate::eval_support::tally::entries_view(doc.summary@) != summary_of(doc.rows@, reach))
                &&& (r matches Err(AuditFault::Gaps(_)) ==> envelope_holds(*exam, corpus@, doc.envelope) && rows_judged(
                    doc.rows@,
                    sampled@,
                    reach,
                    min_why as nat,
                ) && crate::eval_support::tally::entries_view(doc.summary@) == summary_of(doc.rows@, reach)
                    && !gaps_ok(doc.site_gaps, doc.scope_gaps, exam.reach == super::Reach::Universe, files, reach))
            },
{
    let files = super::walk::universe_files(slice_files);
    let reach = super::tree::targets(exam, &files, tree);
    let r = verify_review(exam, corpus, doc, sampled, &files, &reach, min_why);
    proof {
        assert forall|other: Seq<Chars>|
            crate::text::canonical(other) && other.to_set() == reach_set(
                *exam,
                slice_files@.map_values(|f: crate::eval_support::tally::SiteFile| f.path@),
                views(tree@),
            ) implies other == views(reach@) by {
            crate::text::lemma_canonical_unique(other, views(reach@));
        }
    }
    r
}

} // verus!
