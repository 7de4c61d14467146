//! Versions, revisions and the toolchain: the typed constants, the
//! plugin's pinned release, the toolchain pins scraped off the manifests
//! and the workflow, and the index schema version read by line.

use super::scrape::{
    agreed, agreed_ok, first_piece, first_piece_of, key_lines, quoted_after, quoted_after_spec,
    ScrapeError,
};
use super::{is_fact, linked, scraped, Fact, Tier};
use crate::text::{
    chars_of, lemma_rindex_to, rfind_char, rindex, slice_vec, string_of, trim, trim_class,
    lines_of, starts_with, Chars, Class, class_pred, ws, lines, starts,
};
use vstd::prelude::*;

verus! {

/// The request anchor: the major every golden request line stands at.
pub const ANCHOR: &'static str = "6.0.0";

/// The debt every manifest pin carries.
pub const TOML_DEBT: &'static str = "read by a line grammar, not a TOML reader; promote = parse the manifest with the toml crate the product already links";

/// The value of a scrape that succeeded.
pub open spec fn ok_of(r: Result<Chars, nat>) -> Chars {
    match r {
        Ok(v) => v,
        Err(_) => Seq::empty(),
    }
}

/// The major.minor of a dotted version: what precedes its last `.`.
pub open spec fn minor_of(v: Chars) -> Option<Chars> {
    match rindex(v, '.') {
        Some(i) => Some(v.take(i)),
        None => None,
    }
}

/// The manifest sources the toolchain pins are read from.
pub struct ToolchainSources {
    /// cli/Cargo.toml
    pub cli: String,
    /// rust-toolchain.toml
    pub toolchain: String,
    /// .github/workflows/ci.yml
    pub ci: String,
    /// gui/src-tauri/Cargo.toml
    pub tauri: String,
}

/// Every toolchain scrape succeeds.
pub open spec fn toolchain_readable(s: ToolchainSources) -> bool {
    &&& quoted_after_spec(s.cli@, "tree-sitter "@) is Ok
    &&& minor_of(ok_of(quoted_after_spec(s.cli@, "tree-sitter "@))) is Some
    &&& quoted_after_spec(s.toolchain@, "channel"@) is Ok
    &&& exists|v: Chars| agreed_ok(s.ci@, "ghc-version:"@, v)
    &&& quoted_after_spec(s.cli@, "edition "@) is Ok
    &&& quoted_after_spec(s.cli@, "rusqlite "@) is Ok
    &&& quoted_after_spec(s.cli@, "interprocess "@) is Ok
    &&& quoted_after_spec(s.tauri@, "tauri "@) is Ok
}

/// The toolchain facts, scraped tier, each with its source and the
/// manifest debt (the GHC pin with its own).
pub open spec fn toolchain_facts(s: ToolchainSources, v: Seq<Fact>) -> bool {
    let ts = ok_of(quoted_after_spec(s.cli@, "tree-sitter "@));
    &&& v.len() == 8
    &&& is_fact(v[0], "tool:rust#v"@, ok_of(quoted_after_spec(s.toolchain@, "channel"@)), Tier::Scraped, "rust-toolchain.toml::channel"@, Some(TOML_DEBT@))
    &&& v[1].id@ == "tool:ghc#v"@ && agreed_ok(s.ci@, "ghc-version:"@, v[1].value@) && v[1].tier == Tier::Scraped
        && v[1].source@ == ".github/workflows/ci.yml::ghc-version"@
        && (v[1].debt matches Some(d) && d@ == "the pin lives in the workflow alone; promote = one toolchain file CI and the docs both read"@)
    &&& is_fact(v[2], "tool:edition#digits"@, ok_of(quoted_after_spec(s.cli@, "edition "@)), Tier::Scraped, "cli/Cargo.toml::edition"@, Some(TOML_DEBT@))
    &&& is_fact(v[3], "tool:tree_sitter#v"@, ts, Tier::Scraped, "cli/Cargo.toml::tree-sitter"@, Some(TOML_DEBT@))
    &&& is_fact(v[4], "tool:tree_sitter#vminor"@, minor_of(ts)->0, Tier::Scraped, "cli/Cargo.toml::tree-sitter"@, Some(TOML_DEBT@))
    &&& is_fact(v[5], "tool:rusqlite#vminor"@, ok_of(quoted_after_spec(s.cli@, "rusqlite "@)), Tier::Scraped, "cli/Cargo.toml::rusqlite"@, Some(TOML_DEBT@))
    &&& is_fact(v[6], "tool:interprocess#v"@, ok_of(quoted_after_spec(s.cli@, "interprocess "@)), Tier::Scraped, "cli/Cargo.toml::interprocess"@, Some(TOML_DEBT@))
    &&& is_fact(v[7], "tool:tauri#digits"@, ok_of(quoted_after_spec(s.tauri@, "tauri "@)), Tier::Scraped, "gui/src-tauri/Cargo.toml::tauri"@, Some(TOML_DEBT@))
}

fn cli_pin(s: &ToolchainSources, key: &str) -> (r: Result<String, ScrapeError>)
    ensures
        match r {
            Ok(v) => quoted_after_spec(s.cli@, key@) == Ok::<Chars, nat>(v@),
            Err(_) => quoted_after_spec(s.cli@, key@) is Err,
        },
{
    quoted_after(s.cli.as_str(), "cli/Cargo.toml", key)
}

/// The toolchain pins, read off the manifests and the workflow.
pub fn toolchain(s: &ToolchainSources) -> (r: Result<Vec<Fact>, ScrapeError>)
    ensures
        r is Ok <==> toolchain_readable(*s),
        r matches Ok(v) ==> toolchain_facts(*s, v@),
{
    let ts = match cli_pin(s, "tree-sitter ") {
        Ok(t) => t,
        Err(e) => return Err(e),
    };
    let tc = chars_of(ts.as_str());
    proof {
        lemma_rindex_to(tc@, '.', tc@.len() as int);
    }
    let minor = match rfind_char(&tc, '.') {
        Some(i) => {
            let m = slice_vec(&tc, 0, i);
            assert(m@ =~= tc@.take(i as int));
            assert(minor_of(ts@) == Some(m@));
            string_of(&m)
        },
        None => {
            return Err(ScrapeError::Missing {
                rel: string_of(&chars_of("cli/Cargo.toml")),
                what: string_of(&chars_of("a dotted version")),
            })
        },
    };
    let rust = match quoted_after(s.toolchain.as_str(), "rust-toolchain.toml", "channel") {
        Ok(v) => v,
        Err(e) => return Err(e),
    };
    let ghc = match agreed(s.ci.as_str(), "ci.yml", "ghc-version:") {
        Ok(v) => v,
        Err(e) => {
            proof {
                assert forall|v: Chars| !agreed_ok(s.ci@, "ghc-version:"@, v) by {
                    if agreed_ok(s.ci@, "ghc-version:"@, v) {
                        let q = super::scrape::quotes_of(super::scrape::keyed_lines(s.ci@, "ghc-version:"@))->0;
                        assert(q.to_set() == set![v]);
                        assert(set![v].len() == 1);
                    }
                }
            }
            return Err(e);
        },
    };
    let edition = match cli_pin(s, "edition ") {
        Ok(v) => v,
        Err(e) => return Err(e),
    };
    let rusqlite = match cli_pin(s, "rusqlite ") {
        Ok(v) => v,
        Err(e) => return Err(e),
    };
    let interprocess = match cli_pin(s, "interprocess ") {
        Ok(v) => v,
        Err(e) => return Err(e),
    };
    let tauri = match quoted_after(s.tauri.as_str(), "gui/src-tauri/Cargo.toml", "tauri ") {
        Ok(v) => v,
        Err(e) => return Err(e),
    };
    let mut v: Vec<Fact> = Vec::new();
    v.push(scraped("tool:rust#v", rust.as_str(), "rust-toolchain.toml::channel", TOML_DEBT));
    v.push(
        scraped(
            "tool:ghc#v",
            ghc.as_str(),
            ".github/workflows/ci.yml::ghc-version",
            "the pin lives in the workflow alone; promote = one toolchain file CI and the docs both read",
        ),
    );
    v.push(scraped("tool:edition#digits", edition.as_str(), "cli/Cargo.toml::edition", TOML_DEBT));
    v.push(scraped("tool:tree_sitter#v", ts.as_str(), "cli/Cargo.toml::tree-sitter", TOML_DEBT));
    v.push(scraped("tool:tree_sitter#vminor", minor.as_str(), "cli/Cargo.toml::tree-sitter", TOML_DEBT));
    v.push(scraped("tool:rusqlite#vminor", rusqlite.as_str(), "cli/Cargo.toml::rusqlite", TOML_DEBT));
    v.push(scraped("tool:interprocess#v", interprocess.as_str(), "cli/Cargo.toml::interprocess", TOML_DEBT));
    v.push(scraped("tool:tauri#digits", tauri.as_str(), "gui/src-tauri/Cargo.toml::tauri", TOML_DEBT));
    let ghost tsv = ok_of(quoted_after_spec(s.cli@, "tree-sitter "@));
    assert(tsv == ts@);
    assert(is_fact(v@[0], "tool:rust#v"@, ok_of(quoted_after_spec(s.toolchain@, "channel"@)), Tier::Scraped, "rust-toolchain.toml::channel"@, Some(TOML_DEBT@)));
    assert(v@[1].id@ == "tool:ghc#v"@ && agreed_ok(s.ci@, "ghc-version:"@, v@[1].value@));
    assert(is_fact(v@[3], "tool:tree_sitter#v"@, tsv, Tier::Scraped, "cli/Cargo.toml::tree-sitter"@, Some(TOML_DEBT@)));
    assert(minor_of(tsv)->0 == minor@);
    assert(is_fact(v@[4], "tool:tree_sitter#vminor"@, minor_of(tsv)->0, Tier::Scraped, "cli/Cargo.toml::tree-sitter"@, Some(TOML_DEBT@)));
    assert(is_fact(v@[7], "tool:tauri#digits"@, ok_of(quoted_after_spec(s.tauri@, "tauri "@)), Tier::Scraped, "gui/src-tauri/Cargo.toml::tauri"@, Some(TOML_DEBT@)));
    Ok(v)
}

/// The line key of the index schema version.
pub open spec fn schema_key() -> Chars {
    "const SCHEMA_VERSION: i64 = "@
}

/// The index schema version: on the first line of schema.rs opening
/// with the key, what follows the key up to the `;`, trimmed.
pub open spec fn index_schema_value(text: Chars) -> Option<Chars> {
    let hits = key_lines(text, schema_key());
    if hits.len() == 0 {
        None
    } else {
        Some(trim(first_piece(hits[0].skip(schema_key().len() as int), ";"@)))
    }
}

/// The index schema version — a crate-private const, read by line.
pub fn index_schema(schema_rs: &str) -> (r: Result<Fact, ScrapeError>)
    ensures
        match (r, index_schema_value(schema_rs@)) {
            (Ok(f), Some(v)) => is_fact(f, "ver:schema.index#digits"@, v, Tier::Scraped, "cli/src/dedup/schema.rs::SCHEMA_VERSION"@, Some("crate-private const; promote = a pub reader, or the index's own `pragma user_version` face"@)),
            (Err(ScrapeError::Missing { .. }), None) => true,
            _ => false,
        },
{
    let key = chars_of("const SCHEMA_VERSION: i64 = ");
    let ls = lines_of(&chars_of(schema_rs));
    let ghost lm = ls@.map_values(|l: Vec<char>| l@);
    let mut i: usize = 0;
    while i < ls.len()
        invariant
            i <= ls@.len(),
            key@ == schema_key(),
            lm == ls@.map_values(|l: Vec<char>| l@),
            lm == lines(schema_rs@),
            lm.take(i as int).filter(|l: Chars| starts(l, schema_key())).len() == 0,
        decreases ls.len() - i,
    {
        proof {
            reveal(Seq::filter);
            assert(lm.take(i + 1).drop_last() =~= lm.take(i as int));
            assert(lm.take(i + 1).last() == ls@[i as int]@);
        }
        if starts_with(&ls[i], &key) {
            proof {
                lemma_filter_first(lm, i as int, |l: Chars| starts(l, schema_key()));
            }
            let rest = slice_vec(&ls[i], key.len(), ls[i].len());
            assert(rest@ =~= ls@[i as int]@.skip(key@.len() as int));
            let cut = first_piece_of(&rest, &chars_of(";"));
            let v = trim_class(&cut, Class::Space);
            assert(class_pred(Class::Space) =~= ws());
            return Ok(
                scraped(
                    "ver:schema.index#digits",
                    string_of(&v).as_str(),
                    "cli/src/dedup/schema.rs::SCHEMA_VERSION",
                    "crate-private const; promote = a pub reader, or the index's own `pragma user_version` face",
                ),
            );
        }
        i += 1;
    }
    assert(lm.take(ls@.len() as int) =~= lm);
    Err(ScrapeError::Missing {
        rel: string_of(&chars_of("cli/src/dedup/schema.rs")),
        what: string_of(&chars_of("const SCHEMA_VERSION")),
    })
}

/// When no line before `i` passes and line `i` does, line `i` is the
/// first of the filtered lines.
pub proof fn lemma_filter_first(s: Seq<Chars>, i: int, p: spec_fn(Chars) -> bool)
    requires
        0 <= i < s.len(),
        s.take(i).filter(p).len() == 0,
        p(s[i]),
    ensures
        s.filter(p).len() > 0,
        s.filter(p)[0] == s[i],
    decreases s.len() - i,
{
    reveal(Seq::filter);
    if i == s.len() - 1 {
        assert(s.take(i) =~= s.drop_last());
    } else {
        assert(s.drop_last().take(i) =~= s.take(i));
        lemma_filter_first(s.drop_last(), i, p);
        assert(s.drop_last().filter(p).len() > 0);
    }
}

/// The versions and revisions the product declares as typed constants.
pub struct TypedVersions {
    pub ce: String,
    pub proto: String,
    pub daemon: String,
    pub graph_rev: u64,
    pub mention_rev: u64,
    pub docdup_rev: u64,
    pub tokenizer_rev: u64,
    pub struct_rev: u64,
}

fn num(n: u64) -> (s: String)
    ensures
        s@ == crate::text::dec_chars(n as nat),
{
    string_of(&crate::text::decimal(n))
}

/// The linked version facts, each from its typed constant.
pub fn typed(t: &TypedVersions) -> (v: Vec<Fact>)
    ensures
        v@.len() == 9,
        is_fact(v@[0], "ver:ce#v"@, t.ce@, Tier::Linked, "cli/Cargo.toml::version"@, None),
        is_fact(v@[1], "ver:proto#v"@, t.proto@, Tier::Linked, "cli/src/corelink.rs::PROTO"@, None),
        is_fact(v@[2], "ver:daemon#v"@, t.daemon@, Tier::Linked, "cli/src/daemon/proto.rs::DAEMON_PROTO"@, None),
        is_fact(v@[3], "ver:anchor#v"@, ANCHOR@, Tier::Linked, "cli/tests/it/facts/ver.rs::ANCHOR"@, None),
        is_fact(v@[4], "ver:graph_rev#digits"@, crate::text::dec_chars(t.graph_rev as nat), Tier::Linked, "cli/src/graph/store.rs::GRAPH_REV"@, None),
        is_fact(v@[5], "ver:mention_rev#digits"@, crate::text::dec_chars(t.mention_rev as nat), Tier::Linked, "cli/src/mention/mod.rs::MENTION_REV"@, None),
        is_fact(v@[6], "ver:docdup_rev#digits"@, crate::text::dec_chars(t.docdup_rev as nat), Tier::Linked, "cli/src/docdup/mod.rs::DOCDUP_REV"@, None),
        is_fact(v@[7], "ver:tokenizer_rev#digits"@, crate::text::dec_chars(t.tokenizer_rev as nat), Tier::Linked, "cli/src/dedup/tokens.rs::TOKENIZER_REV"@, None),
        is_fact(v@[8], "ver:struct_rev#digits"@, crate::text::dec_chars(t.struct_rev as nat), Tier::Linked, "cli/src/dedup/struct_fp.rs::STRUCT_REV"@, None),
{
    let mut v: Vec<Fact> = Vec::new();
    v.push(linked("ver:ce#v", t.ce.as_str(), "cli/Cargo.toml::version"));
    v.push(linked("ver:proto#v", t.proto.as_str(), "cli/src/corelink.rs::PROTO"));
    v.push(linked("ver:daemon#v", t.daemon.as_str(), "cli/src/daemon/proto.rs::DAEMON_PROTO"));
    v.push(linked("ver:anchor#v", ANCHOR, "cli/tests/it/facts/ver.rs::ANCHOR"));
    v.push(linked("ver:graph_rev#digits", num(t.graph_rev).as_str(), "cli/src/graph/store.rs::GRAPH_REV"));
    v.push(linked("ver:mention_rev#digits", num(t.mention_rev).as_str(), "cli/src/mention/mod.rs::MENTION_REV"));
    v.push(linked("ver:docdup_rev#digits", num(t.docdup_rev).as_str(), "cli/src/docdup/mod.rs::DOCDUP_REV"));
    v.push(linked("ver:tokenizer_rev#digits", num(t.tokenizer_rev).as_str(), "cli/src/dedup/tokens.rs::TOKENIZER_REV"));
    v.push(linked("ver:struct_rev#digits", num(t.struct_rev).as_str(), "cli/src/dedup/struct_fp.rs::STRUCT_REV"));
    v
}

/// The plugin's pinned release, as the product's manifest parser reads it.
pub fn pin(manifest_version: &str) -> (f: Fact)
    ensures
        is_fact(f, "ver:pin#v"@, manifest_version@, Tier::Linked, "plugin/bin/manifest.env::CE_MANIFEST_VERSION (update::manifest::parse)"@, None),
{
    linked("ver:pin#v", manifest_version, "plugin/bin/manifest.env::CE_MANIFEST_VERSION (update::manifest::parse)")
}

/// Every version fact: the typed constants, the pinned release, the
/// toolchain pins and the index schema version.
pub fn facts(t: &TypedVersions, manifest_version: &str, sources: &ToolchainSources, schema_rs: &str) -> (r: Result<Vec<Fact>, ScrapeError>)
    ensures
        r is Ok <==> toolchain_readable(*sources) && index_schema_value(schema_rs@) is Some,
        r matches Ok(v) ==> v@.len() == 19 && v@[9].id@ == "ver:pin#v"@ && v@[18].id@ == "ver:schema.index#digits"@,
{
    let mut out = typed(t);
    out.push(pin(manifest_version));
    let mut tools = match toolchain(sources) {
        Ok(v) => v,
        Err(e) => return Err(e),
    };
    out.append(&mut tools);
    let schema = match index_schema(schema_rs) {
        Ok(f) => f,
        Err(e) => return Err(e),
    };
    out.push(schema);
    Ok(out)
}

} // verus!
