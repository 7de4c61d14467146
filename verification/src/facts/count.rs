//! The count family: every number the prose spells as a word — axes,
//! languages, grammars, screens, hooks, MCP tools, wire families,
//! booklets, fail conditions, erase names, verdict codes, release
//! binaries, dogfood gates — plus the two the prose spells in digits.
//! Counted off a typed path or the tree where one exists; scraped, with
//! the debt named, where the product keeps the list private.

use super::scrape::{between, between_spec, count_from, count_matches, key_lines, ScrapeError};
use super::{is_fact, linked, scraped, Fact, Tier};
use crate::text::{
    chars_of, dec_chars, decimal, lemma_rindex_to, lines, lines_of, rfind_char, rindex, same,
    slice_vec, starts_with, string_of, trim, trim_class, views, Chars, Class, class_pred, ws,
};
use vstd::prelude::*;

verus! {

fn num(n: usize) -> (s: String)
    ensures
        s@ == dec_chars(n as nat),
{
    string_of(&decimal(n as u64))
}

/// How many of the first `n` strings are not `x`.
pub open spec fn others(s: Seq<Chars>, x: Chars, n: int) -> nat
    decreases n,
{
    if n <= 0 {
        0
    } else {
        others(s, x, n - 1) + if s[n - 1] != x {
            1nat
        } else {
            0nat
        }
    }
}

fn count_others(v: &Vec<String>, x: &str) -> (n: usize)
    ensures
        n == others(views(v@), x@, v@.len() as int),
{
    let xc = chars_of(x);
    let mut n: usize = 0;
    let mut i: usize = 0;
    while i < v.len()
        invariant
            i <= v@.len(),
            xc@ == x@,
            n == others(views(v@), x@, i as int),
            n <= i,
        decreases v.len() - i,
    {
        assert(views(v@)[i as int] == v@[i as int]@);
        if !same(&chars_of(v[i].as_str()), &xc) {
            n += 1;
        }
        i += 1;
    }
    n
}

/// The counts the product declares through typed paths: the score's
/// axes, the judged languages, the erase reasons and class names, and
/// the two verdict tables.
pub struct TypedCounts {
    pub axes: usize,
    pub langs: usize,
    pub erase_reasons: usize,
    /// Every erase class name, the retired ones included.
    pub erase_class_names: Vec<String>,
    pub join_codes: usize,
    pub deadcode_codes: usize,
}

/// The linked count facts.
pub fn typed(t: &TypedCounts) -> (v: Vec<Fact>)
    ensures
        v@.len() == 6,
        is_fact(v@[0], "count:axes#word"@, dec_chars(t.axes as nat), Tier::Linked, "cli/src/score/knobs.rs::AXES"@, None),
        is_fact(v@[1], "count:langs#word"@, dec_chars(t.langs as nat), Tier::Linked, "cli/src/scan/lang.rs::Lang::judged_mask (set bits)"@, None),
        is_fact(v@[2], "count:erase_reasons#word"@, dec_chars(t.erase_reasons as nat), Tier::Linked, "cli/src/erase/model.rs::REASON_NAMES"@, None),
        is_fact(v@[3], "count:erase_classes#word"@, dec_chars(others(views(t.erase_class_names@), "(retired)"@, t.erase_class_names@.len() as int)), Tier::Linked, "cli/src/erase/model.rs::CLASS_NAMES (live names)"@, None),
        is_fact(v@[4], "count:join_codes#word"@, dec_chars(t.join_codes as nat), Tier::Linked, "cli/src/join/verdicts.rs::VERDICT_NAMES"@, None),
        is_fact(v@[5], "count:deadcode_codes#word"@, dec_chars(t.deadcode_codes as nat), Tier::Linked, "cli/src/graph/deadcode.rs::VERDICT_NAMES"@, None),
{
    let mut v: Vec<Fact> = Vec::new();
    v.push(linked("count:axes#word", num(t.axes).as_str(), "cli/src/score/knobs.rs::AXES"));
    v.push(linked("count:langs#word", num(t.langs).as_str(), "cli/src/scan/lang.rs::Lang::judged_mask (set bits)"));
    v.push(linked("count:erase_reasons#word", num(t.erase_reasons).as_str(), "cli/src/erase/model.rs::REASON_NAMES"));
    let live = count_others(&t.erase_class_names, "(retired)");
    v.push(linked("count:erase_classes#word", num(live).as_str(), "cli/src/erase/model.rs::CLASS_NAMES (live names)"));
    v.push(linked("count:join_codes#word", num(t.join_codes).as_str(), "cli/src/join/verdicts.rs::VERDICT_NAMES"));
    v.push(linked("count:deadcode_codes#word", num(t.deadcode_codes).as_str(), "cli/src/graph/deadcode.rs::VERDICT_NAMES"));
    v
}

/// The non-empty lines of a text.
pub open spec fn full_lines(text: Chars) -> nat {
    lines(text).filter(|l: Chars| l.len() > 0).len()
}

/// Every golden file's non-empty lines, summed.
pub open spec fn golden_lines(files: Seq<Chars>) -> nat
    decreases files.len(),
{
    if files.len() == 0 {
        0
    } else {
        golden_lines(files.drop_last()) + full_lines(files.last())
    }
}

fn non_empty_lines(text: &str) -> (n: usize)
    ensures
        n == full_lines(text@),
{
    let ls = lines_of(&chars_of(text));
    let ghost lm = ls@.map_values(|l: Vec<char>| l@);
    let mut n: usize = 0;
    let mut i: usize = 0;
    while i < ls.len()
        invariant
            i <= ls@.len(),
            lm == ls@.map_values(|l: Vec<char>| l@),
            lm == lines(text@),
            n == lm.take(i as int).filter(|l: Chars| l.len() > 0).len(),
            n <= i,
        decreases ls.len() - i,
    {
        proof {
            reveal(Seq::filter);
            assert(lm.take(i + 1).drop_last() =~= lm.take(i as int));
            assert(lm.take(i + 1).last() == ls@[i as int]@);
        }
        if ls[i].len() > 0 {
            n += 1;
        }
        i += 1;
    }
    assert(lm.take(ls@.len() as int) =~= lm);
    n
}

/// Request lines across the wire golden files: those files are
/// request/reply pairs, so half of all their non-empty lines; an odd
/// total is a refusal.
pub fn golden_requests(files: &Vec<String>) -> (r: Result<usize, ScrapeError>)
    requires
        golden_lines(views(files@)) <= usize::MAX,
    ensures
        match r {
            Ok(n) => golden_lines(views(files@)) % 2 == 0 && n == golden_lines(views(files@)) / 2,
            Err(ScrapeError::Unpaired { lines }) => lines == golden_lines(views(files@)) && lines % 2
                == 1,
            Err(_) => false,
        },
{
    let mut total: usize = 0;
    let mut i: usize = 0;
    while i < files.len()
        invariant
            i <= files@.len(),
            golden_lines(views(files@)) <= usize::MAX,
            total == golden_lines(views(files@).take(i as int)),
        decreases files.len() - i,
    {
        assert(views(files@).take(i + 1).drop_last() =~= views(files@).take(i as int));
        assert(views(files@).take(i + 1).last() == files@[i as int]@);
        proof {
            lemma_golden_prefix(views(files@), i + 1);
        }
        total = total + non_empty_lines(files[i].as_str());
        i += 1;
    }
    assert(views(files@).take(files@.len() as int) =~= views(files@));
    if total % 2 != 0 {
        return Err(ScrapeError::Unpaired { lines: total });
    }
    Ok(total / 2)
}

/// A prefix of the golden files counts no more lines than all of them.
pub proof fn lemma_golden_prefix(files: Seq<Chars>, k: int)
    requires
        0 <= k <= files.len(),
    ensures
        golden_lines(files.take(k)) <= golden_lines(files),
    decreases files.len() - k,
{
    if k < files.len() {
        lemma_golden_prefix(files, k + 1);
        assert(files.take(k + 1).drop_last() =~= files.take(k));
    } else {
        assert(files.take(k) =~= files);
    }
}

/// The extension `Path::extension` reads off a file name: what follows
/// its last `.`, unless there is none or the only one leads the name.
pub open spec fn extension(name: Chars) -> Option<Chars> {
    match rindex(name, '.') {
        Some(i) => if i == 0 {
            None
        } else {
            Some(name.skip(i + 1))
        },
        None => None,
    }
}

/// Whether a directory entry is counted: a directory when no extension
/// is asked for, else a file name with that extension.
pub open spec fn counted(e: (Chars, bool), ext: Option<Chars>) -> bool {
    match ext {
        None => e.1,
        Some(x) => extension(e.0) == Some(x),
    }
}

pub open spec fn entries_to(es: Seq<(Chars, bool)>, ext: Option<Chars>, n: int) -> nat
    decreases n,
{
    if n <= 0 {
        0
    } else {
        entries_to(es, ext, n - 1) + if counted(es[n - 1], ext) {
            1nat
        } else {
            0nat
        }
    }
}

pub open spec fn entries_view(es: Seq<(String, bool)>) -> Seq<(Chars, bool)> {
    es.map_values(|e: (String, bool)| (e.0@, e.1))
}

fn ext_of(name: &Vec<char>) -> (r: Option<Vec<char>>)
    ensures
        match extension(name@) {
            Some(x) => r matches Some(v) && v@ == x,
            None => r is None,
        },
{
    proof {
        lemma_rindex_to(name@, '.', name@.len() as int);
    }
    match rfind_char(name, '.') {
        Some(i) => {
            assert(i < name@.len());
            assert(i < name.len());
            if i == 0 {
                None
            } else {
                let v = slice_vec(name, i + 1, name.len());
                assert(v@ =~= name@.skip(i + 1));
                Some(v)
            }
        },
        None => None,
    }
}

/// The entries directly under a directory that count: its directories
/// when `ext` is None, else its files with that extension. `dir` holds
/// each entry's file name and whether it is a directory.
pub fn entries(dir: &Vec<(String, bool)>, ext: Option<&str>) -> (n: usize)
    ensures
        n == entries_to(
            entries_view(dir@),
            match ext {
                Some(x) => Some(x@),
                None => None,
            },
            dir@.len() as int,
        ),
{
    let ghost ev = entries_view(dir@);
    let ghost want = match ext {
        Some(x) => Some(x@),
        None => None,
    };
    let mut n: usize = 0;
    let mut i: usize = 0;
    while i < dir.len()
        invariant
            i <= dir@.len(),
            ev == entries_view(dir@),
            want == (match ext {
                Some(x) => Some(x@),
                None => None,
            }),
            n == entries_to(ev, want, i as int),
            n <= i,
        decreases dir.len() - i,
    {
        let name = chars_of(dir[i].0.as_str());
        assert(ev[i as int] == (name@, dir@[i as int].1));
        let hit = match ext {
            None => dir[i].1,
            Some(x) => match ext_of(&name) {
                Some(e) => same(&e, &chars_of(x)),
                None => false,
            },
        };
        if hit {
            n += 1;
        }
        i += 1;
    }
    n
}

/// The counts off the tree: the wire families the handshake announces
/// (less `hello` itself), the golden request lines, the hook events,
/// the plugin's skill directories and command files, and the
/// methodology booklets.
pub struct TreeCounts {
    /// The handshake reply's capabilities.
    pub capabilities: Vec<String>,
    /// Every golden request/reply file's text.
    pub golden: Vec<String>,
    /// The events hooks.json wires.
    pub hooks: usize,
    /// plugin/skills, plugin/commands and docs/reference/methodology,
    /// entry by entry: (file name, is a directory).
    pub skills: Vec<(String, bool)>,
    pub commands: Vec<(String, bool)>,
    pub booklets: Vec<(String, bool)>,
}

/// The counts off the tree.
pub fn tree(t: &TreeCounts) -> (r: Result<Vec<Fact>, ScrapeError>)
    requires
        golden_lines(views(t.golden@)) <= usize::MAX,
    ensures
        r is Ok <==> golden_lines(views(t.golden@)) % 2 == 0,
        r matches Ok(v) ==> v@.len() == 6 && is_fact(v@[0], "count:families#word"@, dec_chars(others(views(t.capabilities@), "hello"@, t.capabilities@.len() as int)), Tier::Linked, "contracts/fixtures/handshake/hello-ok.ndjson::capabilities (minus hello)"@, None)
            && is_fact(v@[1], "count:golden_requests#digits"@, dec_chars(golden_lines(views(t.golden@)) / 2), Tier::Linked, "contracts/fixtures/*/golden.ndjson (request lines; the pairing is cli/tests/it/fixture_contract.rs)"@, None)
            && is_fact(v@[2], "count:hooks#word"@, dec_chars(t.hooks as nat), Tier::Linked, "plugin/hooks/hooks.json::hooks (events)"@, None)
            && is_fact(v@[3], "count:skills#word"@, dec_chars(entries_to(entries_view(t.skills@), None, t.skills@.len() as int)), Tier::Linked, "plugin/skills/* (directories)"@, None)
            && is_fact(v@[4], "count:commands#word"@, dec_chars(entries_to(entries_view(t.commands@), Some("md"@), t.commands@.len() as int)), Tier::Linked, "plugin/commands/*.md"@, None)
            && is_fact(v@[5], "count:booklets#word"@, dec_chars(entries_to(entries_view(t.booklets@), Some("md"@), t.booklets@.len() as int)), Tier::Linked, "docs/reference/methodology/*.md"@, None),
{
    let families = count_others(&t.capabilities, "hello");
    let golden = golden_requests(&t.golden)?;
    let mut v: Vec<Fact> = Vec::new();
    v.push(linked("count:families#word", num(families).as_str(), "contracts/fixtures/handshake/hello-ok.ndjson::capabilities (minus hello)"));
    v.push(linked("count:golden_requests#digits", num(golden).as_str(), "contracts/fixtures/*/golden.ndjson (request lines; the pairing is cli/tests/it/fixture_contract.rs)"));
    v.push(linked("count:hooks#word", num(t.hooks).as_str(), "plugin/hooks/hooks.json::hooks (events)"));
    v.push(linked("count:skills#word", num(entries(&t.skills, None)).as_str(), "plugin/skills/* (directories)"));
    v.push(linked("count:commands#word", num(entries(&t.commands, Some("md"))).as_str(), "plugin/commands/*.md"));
    v.push(linked("count:booklets#word", num(entries(&t.booklets, Some("md"))).as_str(), "docs/reference/methodology/*.md"));
    Ok(v)
}

/// The release roster: one `ce`, one `ce-core` and one GUI bundle per
/// target that has a bundle. `targets` says, per target, whether it does.
pub fn roster(targets: &Vec<bool>) -> (v: Vec<Fact>)
    requires
        targets@.len() * 3 <= usize::MAX,
    ensures
        v@.len() == 3,
        is_fact(v@[0], "count:binaries#word"@, dec_chars((targets@.len() * 2 + targets@.filter(|b: bool| b).len()) as nat), Tier::Linked, "cli/src/update/version.rs::TARGETS"@, None),
        is_fact(v@[1], "count:platforms#word"@, dec_chars(targets@.len()), Tier::Linked, "cli/src/update/version.rs::TARGETS"@, None),
        is_fact(v@[2], "count:installers#word"@, dec_chars(targets@.filter(|b: bool| b).len()), Tier::Linked, "cli/src/update/version.rs::TARGETS"@, None),
{
    let mut bundles: usize = 0;
    let mut i: usize = 0;
    while i < targets.len()
        invariant
            i <= targets@.len(),
            bundles == targets@.take(i as int).filter(|b: bool| b).len(),
            bundles <= i,
        decreases targets.len() - i,
    {
        proof {
            reveal(Seq::filter);
            assert(targets@.take(i + 1).drop_last() =~= targets@.take(i as int));
        }
        if targets[i] {
            bundles += 1;
        }
        i += 1;
    }
    assert(targets@.take(targets@.len() as int) =~= targets@);
    let src = "cli/src/update/version.rs::TARGETS";
    let mut v: Vec<Fact> = Vec::new();
    v.push(linked("count:binaries#word", num(targets.len() * 2 + bundles).as_str(), src));
    v.push(linked("count:platforms#word", num(targets.len()).as_str(), src));
    v.push(linked("count:installers#word", num(bundles).as_str(), src));
    v
}

/// The arms of the structure axes' table — one `count (` per axis, in
/// the slice from the table's signature to its `where`.
pub open spec fn axis_arms(axes_hs: Chars) -> Option<nat> {
    match between_spec(axes_hs, "axes :: Knobs -> Facts"@, "\n where"@) {
        Some(b) => Some(count_from(b, "count ("@, 0)),
        None => None,
    }
}

/// The `Some(...)` arms of the language grammar table — one per
/// tree-sitter grammar.
pub open spec fn grammar_arm_count(lang_rs: Chars) -> Option<nat> {
    match between_spec(lang_rs, "pub fn grammar(self)"@, "_ => None"@) {
        Some(b) => Some(count_from(b, "=> Some("@, 0)),
        None => None,
    }
}

fn missing(rel: &str, what: &str) -> (e: ScrapeError)
    ensures
        e matches ScrapeError::Missing { rel: r, what: w } && r@ == rel@ && w@ == what@,
{
    ScrapeError::Missing { rel: string_of(&chars_of(rel)), what: string_of(&chars_of(what)) }
}

/// The arms of the structure axes' table.
pub fn structure_axis_arms(axes_hs: &str) -> (r: Result<usize, ScrapeError>)
    ensures
        match (r, axis_arms(axes_hs@)) {
            (Ok(n), Some(m)) => n == m,
            (Err(ScrapeError::Missing { .. }), None) => true,
            _ => false,
        },
{
    proof {
        reveal_strlit("count (");
    }
    match between(axes_hs, "axes :: Knobs -> Facts", "\n where") {
        Some(b) => Ok(count_matches(b.as_str(), "count (")),
        None => Err(missing("core/app/CE/Structure/Axes.hs", "axes :: Knobs -> Facts")),
    }
}

/// The `Some(...)` arms of the grammar table.
pub fn grammar_arms(lang_rs: &str) -> (r: Result<usize, ScrapeError>)
    ensures
        match (r, grammar_arm_count(lang_rs@)) {
            (Ok(n), Some(m)) => n == m,
            (Err(ScrapeError::Missing { .. }), None) => true,
            _ => false,
        },
{
    proof {
        reveal_strlit("=> Some(");
    }
    match between(lang_rs, "pub fn grammar(self)", "_ => None") {
        Some(b) => Ok(count_matches(b.as_str(), "=> Some(")),
        None => Err(missing("cli/src/scan/lang.rs", "pub fn grammar(self)")),
    }
}

/// The sources the scraped counts are read from.
pub struct ScrapeSources {
    /// cli/src/scan/lang.rs
    pub lang_rs: String,
    /// core/app/CE/Structure/Axes.hs
    pub axes_hs: String,
    /// gui/ui/index.html
    pub index_html: String,
    /// cli/src/mcp/tools.rs
    pub tools_rs: String,
    /// core/app/CE/Verdict/Faces.hs
    pub faces_hs: String,
    /// .github/workflows/ci.yml
    pub ci: String,
    /// core/app/CE/Erase/Cost.hs
    pub cost_hs: String,
}

/// The erase row cap: on the first line of Cost.hs opening with its
/// key, what follows the key, trimmed.
pub open spec fn row_cap(cost: Chars) -> Option<Chars> {
    let hits = key_lines(cost, "eraseRowCap = "@);
    if hits.len() == 0 {
        None
    } else {
        Some(trim(hits[0].skip(14)))
    }
}

/// Every cut the scraped counts make finds its text.
pub open spec fn scrapes_readable(s: ScrapeSources) -> bool {
    &&& between_spec(s.tools_rs@, "pub const TOOLS"@, "];"@) is Some
    &&& between_spec(s.faces_hs@, "failConditions r "@, "]"@) is Some
    &&& between_spec(s.ci@, "name: Dogfood ("@, "- name:"@) is Some
    &&& row_cap(s.cost_hs@) is Some
    &&& grammar_arm_count(s.lang_rs@) is Some
    &&& axis_arms(s.axes_hs@) is Some
}

fn cap_of(cost: &str) -> (r: Result<String, ScrapeError>)
    ensures
        match (r, row_cap(cost@)) {
            (Ok(v), Some(c)) => v@ == c,
            (Err(ScrapeError::Missing { .. }), None) => true,
            _ => false,
        },
{
    let key = chars_of("eraseRowCap = ");
    proof {
        reveal_strlit("eraseRowCap = ");
    }
    let ls = lines_of(&chars_of(cost));
    let ghost lm = ls@.map_values(|l: Vec<char>| l@);
    let mut i: usize = 0;
    while i < ls.len()
        invariant
            i <= ls@.len(),
            key@ == "eraseRowCap = "@,
            key@.len() == 14,
            lm == ls@.map_values(|l: Vec<char>| l@),
            lm == lines(cost@),
            lm.take(i as int).filter(|l: Chars| crate::text::starts(l, "eraseRowCap = "@)).len() == 0,
        decreases ls.len() - i,
    {
        proof {
            reveal(Seq::filter);
            assert(lm.take(i + 1).drop_last() =~= lm.take(i as int));
            assert(lm.take(i + 1).last() == ls@[i as int]@);
        }
        if starts_with(&ls[i], &key) {
            proof {
                super::ver::lemma_filter_first(lm, i as int, |l: Chars| crate::text::starts(l, "eraseRowCap = "@));
            }
            let rest = slice_vec(&ls[i], 14, ls[i].len());
            assert(rest@ =~= ls@[i as int]@.skip(14));
            let t = trim_class(&rest, Class::Space);
            assert(class_pred(Class::Space) =~= ws());
            return Ok(string_of(&t));
        }
        i += 1;
    }
    assert(lm.take(ls@.len() as int) =~= lm);
    Err(missing("core/app/CE/Erase/Cost.hs", "eraseRowCap"))
}

/// The seven scraped facts of the sources, each with its source and
/// its debt.
pub open spec fn scrape_facts(s: ScrapeSources, v: Seq<Fact>) -> bool {
    &&& v.len() == 7
    &&& is_fact(v[0], "count:grammars#word"@, dec_chars(grammar_arm_count(s.lang_rs@)->0), Tier::Scraped, "cli/src/scan/lang.rs::Lang::grammar (Some arms)"@, Some("Lang has no variant iterator; promote = Lang::judged() + grammar().is_some()"@))
    &&& is_fact(v[1], "count:structure_axes#word"@, dec_chars(axis_arms(s.axes_hs@)->0), Tier::Scraped, "core/app/CE/Structure/Axes.hs::axes (count arms)"@, Some("a Haskell list read by line; promote = the axis roster on the structure wire"@))
    &&& is_fact(v[2], "count:screens#word"@, dec_chars(count_from(s.index_html@, "data-tab=\""@, 0)), Tier::Scraped, "gui/ui/index.html::data-tab"@, Some("the tab strip is HTML; promote = a tab roster the GUI and the registry both read"@))
    &&& is_fact(v[3], "count:mcp_tools#word"@, dec_chars(count_from(between_spec(s.tools_rs@, "pub const TOOLS"@, "];"@)->0, "tool!("@, 0)), Tier::Scraped, "cli/src/mcp/tools.rs::TOOLS (tool! rows)"@, Some("mcp::tools is a private module; promote = a pub names() face"@))
    &&& is_fact(v[4], "count:fail_conditions#word"@, dec_chars(count_from(between_spec(s.faces_hs@, "failConditions r "@, "]"@)->0, "(\""@, 0)), Tier::Scraped, "core/app/CE/Verdict/Faces.hs::failConditions"@, Some("a Haskell list read by line; promote = the names on the hello wire"@))
    &&& is_fact(v[5], "count:gates#word"@, dec_chars(count_from(between_spec(s.ci@, "name: Dogfood ("@, "- name:"@)->0, "cargo run --locked -- "@, 0)), Tier::Scraped, ".github/workflows/ci.yml::Dogfood step (cargo run lines)"@, Some("promote = one gate list CI and the docs both read"@))
    &&& is_fact(v[6], "gate:erase.row_cap#digits"@, row_cap(s.cost_hs@)->0, Tier::Scraped, "core/app/CE/Erase/Cost.hs::eraseRowCap"@, Some("a Haskell const read by line; promote = the cap on the hello wire"@))
}

/// The counts scraped, with their debts, where the product keeps the
/// list private or in another language.
pub fn scrapes(s: &ScrapeSources) -> (r: Result<Vec<Fact>, ScrapeError>)
    ensures
        r is Ok <==> scrapes_readable(*s),
        r matches Ok(v) ==> scrape_facts(*s, v@),
{
    proof {
        reveal_strlit("tool!(");
        reveal_strlit("(\"");
        reveal_strlit("data-tab=\"");
        reveal_strlit("cargo run --locked -- ");
    }
    let table = match between(s.tools_rs.as_str(), "pub const TOOLS", "];") {
        Some(t) => t,
        None => return Err(missing("cli/src/mcp/tools.rs", "pub const TOOLS")),
    };
    let conds = match between(s.faces_hs.as_str(), "failConditions r ", "]") {
        Some(t) => t,
        None => return Err(missing("core/app/CE/Verdict/Faces.hs", "failConditions r ")),
    };
    let dogfood = match between(s.ci.as_str(), "name: Dogfood (", "- name:") {
        Some(t) => t,
        None => return Err(missing(".github/workflows/ci.yml", "name: Dogfood (")),
    };
    let cap = cap_of(s.cost_hs.as_str())?;
    let grammars = grammar_arms(s.lang_rs.as_str())?;
    let axes = structure_axis_arms(s.axes_hs.as_str())?;
    let mut v: Vec<Fact> = Vec::new();
    v.push(scraped("count:grammars#word", num(grammars).as_str(), "cli/src/scan/lang.rs::Lang::grammar (Some arms)", "Lang has no variant iterator; promote = Lang::judged() + grammar().is_some()"));
    v.push(scraped("count:structure_axes#word", num(axes).as_str(), "core/app/CE/Structure/Axes.hs::axes (count arms)", "a Haskell list read by line; promote = the axis roster on the structure wire"));
    v.push(scraped("count:screens#word", num(count_matches(s.index_html.as_str(), "data-tab=\"")).as_str(), "gui/ui/index.html::data-tab", "the tab strip is HTML; promote = a tab roster the GUI and the registry both read"));
    v.push(scraped("count:mcp_tools#word", num(count_matches(table.as_str(), "tool!(")).as_str(), "cli/src/mcp/tools.rs::TOOLS (tool! rows)", "mcp::tools is a private module; promote = a pub names() face"));
    v.push(scraped("count:fail_conditions#word", num(count_matches(conds.as_str(), "(\"")).as_str(), "core/app/CE/Verdict/Faces.hs::failConditions", "a Haskell list read by line; promote = the names on the hello wire"));
    v.push(scraped("count:gates#word", num(count_matches(dogfood.as_str(), "cargo run --locked -- ")).as_str(), ".github/workflows/ci.yml::Dogfood step (cargo run lines)", "promote = one gate list CI and the docs both read"));
    v.push(scraped("gate:erase.row_cap#digits", cap.as_str(), "core/app/CE/Erase/Cost.hs::eraseRowCap", "a Haskell const read by line; promote = the cap on the hello wire"));
    Ok(v)
}

/// Every count fact: the typed counts, the counts off the tree, the
/// release roster and the scraped counts.
pub fn facts(typed_counts: &TypedCounts, tree_counts: &TreeCounts, targets: &Vec<bool>, sources: &ScrapeSources) -> (r: Result<Vec<Fact>, ScrapeError>)
    requires
        golden_lines(views(tree_counts.golden@)) <= usize::MAX,
        targets@.len() * 3 <= usize::MAX,
    ensures
        r is Ok <==> golden_lines(views(tree_counts.golden@)) % 2 == 0 && scrapes_readable(*sources),
        r matches Ok(v) ==> v@.len() == 22,
{
    let mut out = typed(typed_counts);
    let mut t = match tree(tree_counts) {
        Ok(v) => v,
        Err(e) => return Err(e),
    };
    out.append(&mut t);
    let mut ro = roster(targets);
    out.append(&mut ro);
    let mut sc = match scrapes(sources) {
        Ok(v) => v,
        Err(e) => return Err(e),
    };
    out.append(&mut sc);
    Ok(out)
}

} // verus!
