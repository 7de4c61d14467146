use ce_gates::facts::block::{assert_current, splice, BlockError, Splice};
use ce_gates::facts::chip::{chips, render, ChipFault};
use ce_gates::facts::form::Form as DocForm;
use ce_gates::facts::gate::floor;
use ce_gates::facts::report::{close, facts as report_facts, literals, private_table, scan, ReportError};
use ce_gates::facts::restate::slug;
use ce_gates::facts::scrape::{agreed, between, count_matches, quoted_after, ScrapeError};
use ce_gates::facts::ver::{facts as ver_facts, pin, ToolchainSources, TypedVersions};
use ce_gates::text::lines_of;
use ce_gates::facts::{
    dotted, linked, registry, resolve, schemaver, scraped, scraped_count, Fact, Form, RegistryError,
    Tier,
};

fn chars(s: &str) -> Vec<char> {
    s.chars().collect()
}

fn pairs(v: &[(&str, &str)]) -> Vec<(String, String)> {
    v.iter().map(|(a, b)| (a.to_string(), b.to_string())).collect()
}

#[test]
fn the_registry_is_id_sorted_and_refuses_a_broken_fact_by_name() {
    let all = vec![
        scraped("b:x#digits", "12", "f", "debt"),
        linked("a:y#v", "1.2.3", "src"),
    ];
    let reg = registry(all).unwrap();
    assert_eq!(reg[0].id, "a:y#v");
    assert_eq!(reg[1].id, "b:x#digits");
    assert_eq!(resolve(&reg, "b:x#digits"), "12");
    assert_eq!(resolve(&reg, "a:y#v"), "1.2.3");
    assert_eq!(scraped_count(&reg), 1);

    let dup = vec![linked("a:y#v", "1.2.3", "s"), linked("a:y#v", "1.2.4", "t")];
    assert!(matches!(registry(dup), Err(RegistryError::Duplicate { id }) if id == "a:y#v"));
    assert!(matches!(
        registry(vec![linked("a:y", "1", "s")]),
        Err(RegistryError::NoForm { id }) if id == "a:y"
    ));
    assert!(matches!(
        registry(vec![linked("a:y#v", "1.2", "s")]),
        Err(RegistryError::Shape { id, value }) if id == "a:y#v" && value == "1.2"
    ));
    let no_debt = Fact {
        id: "a:y#digits".to_string(),
        value: "3".to_string(),
        tier: Tier::Scraped,
        source: "s".to_string(),
        debt: None,
    };
    assert!(matches!(registry(vec![no_debt]), Err(RegistryError::Debt { id }) if id == "a:y#digits"));
}

#[test]
fn a_form_reads_its_suffix_and_admits_its_shape() {
    assert_eq!(Form::of("tool:rust#v"), Form::V);
    assert_eq!(Form::of("ver:ce#vminor"), Form::VMinor);
    assert!(Form::V.admits("1.80.0"));
    assert!(!Form::V.admits("1.80"));
    assert!(Form::VMinor.admits("1.80"));
    assert!(Form::Digits.admits("4096"));
    assert!(!Form::Digits.admits("4,096"));
    assert!(Form::SchemaVer.admits("ce.scan/1.0.0"));
    assert!(Form::SchemaVer.admits("ce.dedup-report/2"));
    assert!(!Form::SchemaVer.admits("ce.Scan/1.0.0"));
    assert!(!Form::SchemaVer.admits("ce./1"));
    assert!(dotted(&chars("1.2.3"), 3));
    assert!(!dotted(&chars("1..3"), 3));
    assert!(schemaver(&chars("ce.x/1")));
    assert!(Form::V.token_char('.'));
    assert!(!Form::Digits.token_char(','));
}

#[test]
fn a_document_renders_a_value_in_its_language() {
    assert_eq!(DocForm::Digits.render("4096", false), "4,096");
    assert_eq!(DocForm::Digits.render("123", false), "123");
    assert_eq!(DocForm::Digits.render("1234567", false), "1,234,567");
    assert_eq!(DocForm::Word.render("2", false), "two");
    assert_eq!(DocForm::Word.render("2", true), "两");
    assert_eq!(DocForm::WordCap.render("12", false), "Twelve");
    assert_eq!(DocForm::V.render("1.2.3", false), "1.2.3");
    assert!(DocForm::Word.admits("20"));
    assert!(!DocForm::Word.admits("21"));
    assert!(DocForm::Word.token_char(true, '两'));
    assert!(DocForm::Digits.token_char(false, ','));
    assert_eq!(DocForm::of("ver:count#Word"), DocForm::WordCap);
}

#[test]
fn a_report_id_family_is_read_from_its_literals() {
    let text = "let a = \"ce.scan/1.0.0\"; let b = \"ce.Bad/1\"; let c = \"ce.dedup-report/2\";";
    assert_eq!(literals(text), vec!["ce.scan/1.0.0".to_string(), "ce.dedup-report/2".to_string()]);
    let files = pairs(&[("cli/src/a.rs", text), ("cli/src/b.rs", "\"ce.scan/1.0.0\"")]);
    match scan(&files) {
        Err(ReportError::Twice { name, first, second }) => {
            assert_eq!(name, "scan");
            assert_eq!(first, "cli/src/a.rs");
            assert_eq!(second, "cli/src/b.rs");
        },
        other => panic!("{other:?}"),
    }
    let found = scan(&pairs(&[("cli/src/a.rs", text)])).unwrap();
    assert_eq!(
        found,
        vec![
            ("scan".to_string(), "ce.scan/1.0.0".to_string(), "cli/src/a.rs".to_string()),
            ("dedup".to_string(), "ce.dedup-report/2".to_string(), "cli/src/a.rs".to_string()),
        ]
    );
}

fn product() -> Vec<(String, String)> {
    pairs(&[
        ("cli/src/churn.rs", "const S: &str = \"ce.churn/1.0.0\";"),
        ("cli/src/report.rs", "\"ce.deadcode/1\" \"ce.trend-report/1.2.0\""),
        ("cli/src/erase.rs", "\"ce.erase-log/1\""),
        ("cli/src/scan.rs", "\"ce.scan/1.0.0\""),
    ])
}

#[test]
fn the_report_family_closes_both_ways() {
    assert_eq!(private_table().len(), 4);
    let linked_table = pairs(&[("scan", "ce.scan/1.0.0")]);
    let facts = report_facts(&product(), &linked_table).unwrap();
    let ids: Vec<&str> = facts.iter().map(|f| f.id.as_str()).collect();
    assert_eq!(
        ids,
        vec![
            "report:churn#schemaver",
            "report:deadcode#schemaver",
            "report:erase-log#schemaver",
            "report:scan#schemaver",
            "report:trend#schemaver",
        ]
    );
    let scan_fact = &facts[3];
    assert_eq!(scan_fact.tier, Tier::Linked);
    assert_eq!(scan_fact.source, "cli/src/scan.rs (typed)");
    assert_eq!(scan_fact.value, "ce.scan/1.0.0");
    let trend = &facts[4];
    assert_eq!(trend.tier, Tier::Scraped);
    assert_eq!(trend.value, "ce.trend-report/1.2.0");
    assert_eq!(
        trend.debt.as_deref(),
        Some("trend::report is private; promote = re-export SCHEMA_ID beside Report")
    );
}

#[test]
fn an_unspelled_a_disagreeing_or_an_unenrolled_family_is_refused() {
    let found = scan(&product()).unwrap();
    let private = private_table();
    assert!(matches!(
        close(&found, &pairs(&[("scan", "ce.scan/1.0.0"), ("join", "ce.join/1")]), &private),
        Err(ReportError::Unspelled { name }) if name == "join"
    ));
    assert!(matches!(
        close(&found, &pairs(&[("scan", "ce.scan/2.0.0")]), &private),
        Err(ReportError::Disagree { file }) if file == "cli/src/scan.rs"
    ));
    let mut more = product();
    more.push(("cli/src/z.rs".to_string(), "\"ce.other/1\"".to_string()));
    assert!(matches!(
        report_facts(&more, &pairs(&[("scan", "ce.scan/1.0.0")])),
        Err(ReportError::Unenrolled { name, file }) if name == "other" && file == "cli/src/z.rs"
    ));
}

#[test]
fn a_chip_is_rewritten_in_place_and_a_current_surface_renders_to_itself() {
    let text = "Rust <!--ce:tool:rust#v-->`1.80.0`<!--/ce--> and **<!--ce:n:x#digits-->4,096<!--/ce-->** files";
    let found = chips(text, "README.md").unwrap();
    assert_eq!(found.len(), 2);
    assert_eq!(found[0].id, "tool:rust#v");
    assert_eq!(&text[found[0].span.clone()], "`1.80.0`");
    assert_eq!(&text[found[1].span.clone()], "4,096");
    let zh = "共<!--ce:n:x#digits-->４个<!--/ce-->文件";
    let z = chips(zh, "README.zh.md").unwrap();
    assert_eq!(&zh[z[0].span.clone()], "４个");
    assert_eq!(z[0].span.start, "共<!--ce:n:x#digits-->".len());
    let values = pairs(&[("tool:rust#v", "1.81.0"), ("n:x#digits", "4,096")]);
    let (out, notes) = render(text, "README.md", false, &values).unwrap();
    assert_eq!(
        out,
        "Rust <!--ce:tool:rust#v-->`1.81.0`<!--/ce--> and **<!--ce:n:x#digits-->4,096<!--/ce-->** files"
    );
    assert_eq!(notes, vec!["README.md: tool:rust#v 1.80.0 → 1.81.0".to_string()]);
    let (again, notes) = render(&out, "README.md", false, &values).unwrap();
    assert_eq!(again, out);
    assert!(notes.is_empty());
}

#[test]
fn a_chip_span_must_hold_one_known_token() {
    let two = "<!--ce:tool:rust#v-->1.80.0 or 1.81.0<!--/ce-->";
    let e = render(two, "README.md", false, &pairs(&[("tool:rust#v", "1.81.0")])).unwrap_err();
    assert_eq!(e.label, "README.md");
    assert!(matches!(e.fault, ChipFault::TokenCount { count: 2, .. }));
    let unknown = "<!--ce:tool:go#v-->1.2.3<!--/ce-->";
    let e = render(unknown, "a.md", false, &pairs(&[])).unwrap_err();
    assert!(matches!(e.fault, ChipFault::Unknown { id } if id == "tool:go#v"));
    match chips("<!--ce:x#v-->1.2.3", "a.md") {
        Err(e) => assert!(matches!(e.fault, ChipFault::NoClose { .. })),
        Ok(_) => panic!("an unclosed chip is refused"),
    }
    match chips("é<!--ce:x#v", "a.md") {
        Err(e) => assert!(matches!(e.fault, ChipFault::Unclosed { at: 9 })),
        Ok(_) => panic!("an open tag that never closes is refused"),
    }
}

#[test]
fn a_blessed_block_is_current_on_the_next_run() {
    let page = "head\n<!-- bench:begin -->\nold\n<!-- bench:end -->\ntail\n";
    let blessed = match splice(page, "README.md", "bench", "new\n").unwrap() {
        Splice::Behind { note, page } => {
            assert_eq!(note, "README.md: bench block is behind its rendering (CE_BLESS=1 regenerates)");
            page
        },
        Splice::Current => panic!("an old block is behind"),
    };
    assert_eq!(blessed, "head\n<!-- bench:begin -->\nnew\n<!-- bench:end -->\ntail\n");
    assert!(matches!(splice(&blessed, "README.md", "bench", "new\n").unwrap(), Splice::Current));
    assert!(assert_current(&blessed, "README.md", "bench", "new\n").is_ok());
    assert_eq!(
        assert_current(page, "README.md", "bench", "new\n").unwrap_err(),
        "README.md: bench block is behind its rendering (CE_BLESS=1 regenerates)"
    );
    let crlf = "head\r\n<!-- bench:begin -->\r\nnew\r\n<!-- bench:end -->\r\n";
    assert!(matches!(splice(crlf, "site.html", "bench", "new\n").unwrap(), Splice::Current));
    assert!(matches!(
        splice("no block", "a.md", "bench", "x"),
        Err(BlockError::NoBegin { .. })
    ));
    assert!(matches!(
        splice("<!-- bench:begin -->", "a.md", "bench", "x"),
        Err(BlockError::NoEnd { .. })
    ));
}

#[test]
fn a_slug_is_its_own_slug() {
    assert_eq!(slug("Declared (exported)"), "declared-exported");
    assert_eq!(slug("  zod @ 912f0f5 "), "zod-912f0f5");
    for s in ["Declared (exported)", "--A--b--", "Ünïcode x", ""] {
        assert_eq!(slug(&slug(s)), slug(s));
    }
}

#[test]
fn the_ci_floor_is_the_one_value_every_line_agrees_on() {
    let ci = "      - run: ce check .. --fail-under 80\n      - run: ce check tests --fail-under 70\n      - run: ce check .. --fail-under 80 --json\n";
    assert_eq!(floor(ci, "check .. ").unwrap(), "80");
    assert_eq!(floor(ci, "check tests ").unwrap(), "70");
    let split = "ce check .. --fail-under 80\nce check .. --fail-under 70\n";
    match floor(split, "check .. ") {
        Err(ScrapeError::Disagree { values, .. }) => assert_eq!(values, vec!["70".to_string(), "80".to_string()]),
        other => panic!("{other:?}"),
    }
    let facts = ce_gates::facts::gate::facts(ci, 5, 0).unwrap();
    assert_eq!(facts.len(), 4);
    assert_eq!(facts[0].value, "80");
    assert_eq!(facts[2].id, "gate:dedup.main#digits");
    assert_eq!(facts[2].value, "5");
    assert_eq!(facts[3].value, "0");
}

#[test]
fn scrapers_read_one_quoted_value() {
    let toml = "tree-sitter = \"0.25.3\"\ntree-sitter-c = \"0.24\"\n";
    assert_eq!(quoted_after(toml, "cli/Cargo.toml", "tree-sitter ").unwrap(), "0.25.3");
    assert!(matches!(
        quoted_after(toml, "cli/Cargo.toml", "serde "),
        Err(ScrapeError::KeyLines { count: 0, .. })
    ));
    let ci = "    ghc: \"9.6\"\n  x\n    ghc: \"9.6\"\n";
    assert_eq!(agreed(ci, "ci.yml", "ghc:").unwrap(), "9.6");
    let split = "  ghc: \"9.6\"\n  ghc: \"9.4\"\n";
    match agreed(split, "ci.yml", "ghc:") {
        Err(ScrapeError::Disagree { values, .. }) => assert_eq!(values, vec!["9.4".to_string(), "9.6".to_string()]),
        other => panic!("{other:?}"),
    }
    assert_eq!(count_matches("abcabc", "bc"), 2);
    assert_eq!(count_matches("abc", ""), 4);
    assert_eq!(count_matches("", ""), 1);
    assert_eq!(between("a [x] b", "[", "]"), Some("x".to_string()));
    assert_eq!(between("a b", "[", "]"), None);
}

#[test]
fn the_manifest_pin_is_linked() {
    let f = pin("1.4.2");
    assert_eq!(f.id, "ver:pin#v");
    assert_eq!(f.value, "1.4.2");
    assert_eq!(f.tier, Tier::Linked);
    assert!(f.debt.is_none());
}

#[test]
fn every_registered_fact_resolves_to_its_own_value() {
    let reg = registry(vec![
        linked("ver:ce#v", "0.9.1", "cli/Cargo.toml"),
        scraped("gate:erase.row_cap#digits", "500", "core/app/CE/Erase/Cost.hs::eraseRowCap", "a debt"),
        linked("gate:floor.main#digits", "70", "ce.toml"),
    ])
    .unwrap();
    assert_eq!(scraped_count(&reg), 1);
    for f in &reg {
        assert_eq!(resolve(&reg, &f.id), f.value);
        assert!(!f.source.is_empty());
    }
}

/// The ratchet on the scraped tier: the count may fall, never rise.
const SCRAPED: usize = 22;

#[test]
fn every_fact_resolves_and_the_scraped_tier_only_shrinks() {
    let typed = TypedVersions {
        ce: "0.9.1".to_string(),
        proto: "1.2.0".to_string(),
        daemon: "1.0.0".to_string(),
        graph_rev: 3,
        mention_rev: 2,
        docdup_rev: 1,
        tokenizer_rev: 4,
        struct_rev: 5,
    };
    let ci = "jobs:\n  build:\n      ghc-version: \"9.6.6\"\n      - run: ce check .. --fail-under 80\n      - run: ce check tests --fail-under 70\n";
    let sources = ToolchainSources {
        cli: "[package]\nedition = \"2021\"\n[dependencies]\ntree-sitter = \"0.25.3\"\ntree-sitter-rust = \"0.24\"\nrusqlite = \"0.32\"\ninterprocess = \"2.2.1\"\n".to_string(),
        toolchain: "[toolchain]\nchannel = \"1.80.0\"\n".to_string(),
        ci: ci.to_string(),
        tauri: "[dependencies]\ntauri = \"2\"\n".to_string(),
    };
    let mut all = ver_facts(&typed, "1.4.2", &sources, "const SCHEMA_VERSION: i64 = 7;\n").unwrap();
    all.extend(report_facts(&product(), &pairs(&[("scan", "ce.scan/1.0.0")])).unwrap());
    all.extend(ce_gates::facts::gate::facts(ci, 5, 0).unwrap());
    let reg = registry(all).unwrap();
    assert!(!reg.is_empty());
    for f in &reg {
        assert_eq!(resolve(&reg, &f.id), f.value);
        assert!(!f.source.is_empty(), "{}: a fact names its source", f.id);
    }
    let scraped: Vec<&str> = reg.iter().filter(|f| f.tier == Tier::Scraped).map(|f| f.id.as_str()).collect();
    assert_eq!(scraped.len(), scraped_count(&reg));
    // the toolchain's eight pins, the index schema, the four private
    // report ids and the two CI floors
    assert_eq!(scraped.len(), 15, "scraped tier: {scraped:?}");
    assert!(scraped.len() <= SCRAPED, "scraped tier ratchet: {scraped:?}");
}

#[test]
fn a_second_pass_over_a_value_that_spells_a_close_tag_is_refused() {
    let text = "<!--ce:report:a#schemaver--><!x><!--/ce-->";
    let values = pairs(&[("report:a#schemaver", "--/ce--")]);
    let (out, notes) = render(text, "a.md", false, &values).unwrap();
    assert_eq!(out, "<!--ce:report:a#schemaver--><!--/ce--><!--/ce-->");
    assert_eq!(notes.len(), 1);
    let e = render(&out, "a.md", false, &values).unwrap_err();
    assert!(matches!(e.fault, ChipFault::TokenCount { count: 0, .. }));
}

#[test]
fn lines_split_like_str_lines() {
    let got: Vec<String> = lines_of(&chars("foo\r\nbar\n\nbaz\r")).into_iter().map(|l| l.into_iter().collect()).collect();
    assert_eq!(got, vec!["foo", "bar", "", "baz\r"]);
    let std_lines: Vec<&str> = "foo\r\nbar\n\nbaz\r".lines().collect();
    assert_eq!(got, std_lines);
    let ended: Vec<String> = lines_of(&chars("a\r\n")).into_iter().map(|l| l.into_iter().collect()).collect();
    assert_eq!(ended, vec!["a"]);
    assert!(lines_of(&chars("")).is_empty());
}

#[test]
fn a_blessed_report_id_renders_to_itself() {
    let text = "Reports carry <!--ce:report:scan#schemaver-->`ce.scan/1.0.0`<!--/ce--> in their header.";
    let values = pairs(&[("report:scan#schemaver", "ce.scan/2.1.0")]);
    let (out, notes) = render(text, "docs/reports.md", false, &values).unwrap();
    assert_eq!(out, "Reports carry <!--ce:report:scan#schemaver-->`ce.scan/2.1.0`<!--/ce--> in their header.");
    assert_eq!(notes, vec!["docs/reports.md: report:scan#schemaver ce.scan/1.0.0 → ce.scan/2.1.0".to_string()]);
    let (again, notes) = render(&out, "docs/reports.md", false, &values).unwrap();
    assert_eq!(again, out);
    assert!(notes.is_empty());
}
