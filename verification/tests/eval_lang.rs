use ce_gates::eval_lang_parts::review::{
    check_review_envelope, verify_review, verify_review_slice, AuditFault, ReviewDoc, ReviewEnvelope, ReviewEnvelopeFault,
    audited, check_gaps, class_of, judge_rows, Echo, Gap, Judged, ReviewFault, TruthClass, TruthFault,
};
use ce_gates::eval_lang_parts::precision::{ledger_adds_up, LedgerFault};
use ce_gates::eval_lang_parts::tree::{check_tree, targets, TreeFault};
use ce_gates::eval_lang_parts::verify::{
    check_sample_envelope, sample_constants, SampleEnvelope, SampleEnvelopeFault, SliceHead, Source,
    check_draw, check_rows, pool_counts, DrawFault, Drawn, FileSites, Hashes, RowFault, SampleRow,
    verify_sample, verify_sample_slices, SampleDoc, SampleFault,
};
use ce_gates::eval_lang_parts::walk::{in_scope, reach, universe_files, walk_record, Walk};
use ce_gates::eval_support::tally::SiteFile;
use ce_gates::eval_lang_parts::{draw, Draw};
use ce_gates::eval_lang_parts::{corpus_names, exam, exam_of_corpus, exams, quotas, Exam, Reach};

fn strings(v: &[&str]) -> Vec<String> {
    v.iter().map(|s| s.to_string()).collect()
}

fn java() -> Exam {
    exams().remove(0)
}

#[test]
fn the_exam_table_holds_java_over_two_corpora() {
    let table = exams();
    assert_eq!(table.len(), 1);
    assert_eq!(table[0].lang, "java");
    assert!(table[0].audited);
    assert_eq!(exam(&table, "java"), 0);
    assert_eq!(
        table[0].tip("jsoup"),
        Some("093e2f58492c531667e551e8793513a41b22443e".to_string())
    );
    assert_eq!(table[0].tip("zod"), None);
    let (at, tip) = exam_of_corpus(&table, "gson");
    assert_eq!(at, 0);
    assert_eq!(tip, "854c8255b625cf1e13c701a83ea9ccb4caaa576a");
    assert_eq!(exam_of_corpus(&table, "jsoup").1, "093e2f58492c531667e551e8793513a41b22443e");
    assert_eq!(corpus_names(&table), strings(&["gson", "jsoup"]));
    assert!(audited(&table[0]));
}

#[test]
fn quotas_take_a_floor_per_kind_then_the_largest_remainder() {
    let pool = vec![("call".to_string(), 100), ("import".to_string(), 10)];
    let q = quotas(&pool);
    assert_eq!(q, vec![("call".to_string(), 90), ("import".to_string(), 10)]);
    let pool = vec![
        ("a".to_string(), 40),
        ("b".to_string(), 40),
        ("c".to_string(), 40),
    ];
    let q = quotas(&pool);
    assert_eq!(q.iter().map(|(_, n)| n).sum::<u64>(), 100);
    assert_eq!(q, vec![("a".to_string(), 34), ("b".to_string(), 33), ("c".to_string(), 33)]);
}

#[test]
fn a_truth_is_a_keyword_a_file_a_member_or_a_package() {
    let files = strings(&["src/A.java", "src/pkg/B.java", "R/util.R"]);
    assert_eq!(class_of("none", "import", &files), Ok(TruthClass::Keyword(3)));
    assert_eq!(class_of("src/A.java", "import", &files), Ok(TruthClass::File));
    assert_eq!(class_of("src/A.java#run", "call", &files), Ok(TruthClass::Member));
    assert_eq!(class_of("src/A.java#", "call", &files), Err(TruthFault::NoMember));
    assert_eq!(class_of("src/A.java#a b", "call", &files), Err(TruthFault::NoMember));
    assert_eq!(class_of("src/pkg", "import_star", &files), Ok(TruthClass::Package));
    assert_eq!(class_of(".", "library", &files), Ok(TruthClass::Package));
    assert_eq!(class_of("src/pkg", "import", &files), Err(TruthFault::Unbound));
}

#[test]
fn a_truth_naming_a_refused_target_scores_external() {
    let universe = strings(&["a/Main.java", "vendor/Lib.java", "vendor/x/Y.java", "gen/Out.java"]);
    let w = Walk::new(&universe, strings(&["vendor/Lib.java", "vendor/x/Y.java", "gen/Out.java"]));
    assert_eq!(w.walked, strings(&["a/Main.java"]));
    assert!(w.unwalked("vendor/Lib.java"));
    assert!(w.unwalked("vendor/Lib.java#run"));
    assert!(w.unwalked("vendor"));
    assert!(!w.unwalked("a/Main.java"));
    assert!(!w.unwalked("external"));
    assert_eq!(w.scored("gen/Out.java"), "external");
    assert_eq!(w.scored("a/Main.java"), "a/Main.java");
}

#[test]
fn what_a_truth_may_name_follows_the_exam_reach() {
    let mut e = java();
    let universe = strings(&["b.java", "a.java"]);
    let read = strings(&["a.java", "b.java", "style.css"]);
    let unread = strings(&["vendor/x.js", "b.java"]);
    let (may, unreached) = reach(&e, &universe, &read, &unread);
    assert_eq!(may, strings(&["a.java", "b.java"]));
    assert!(unreached.is_empty());
    e.reach = Reach::Tree;
    let (may, unreached) = reach(&e, &universe, &read, &unread);
    assert_eq!(may, strings(&["a.java", "b.java", "style.css", "vendor/x.js"]));
    assert_eq!(unreached, strings(&["vendor/x.js"]));
    let tree = strings(&["z.html", "a.css"]);
    assert_eq!(targets(&e, &universe, &tree), strings(&["a.css", "z.html"]));
    e.reach = Reach::Universe;
    assert_eq!(targets(&e, &universe, &tree), strings(&["a.java", "b.java"]));
}

#[test]
fn a_path_is_in_scope_by_its_extension() {
    let e = java();
    assert!(in_scope(&e, "src/Main.java"));
    assert!(!in_scope(&e, "src/Main.kt"));
    assert!(!in_scope(&e, "README"));
    assert!(!in_scope(&e, "a.java.bak"));
}

fn echo(rank: &str, path: &str, kind: &str) -> Echo {
    Echo {
        rank: rank.to_string(),
        path: path.to_string(),
        line: 3,
        nth: 0,
        kind: kind.to_string(),
        spec: "x.y".to_string(),
    }
}

fn judged(e: Echo, truth: &str, why: &str, batch: Option<u64>) -> Judged {
    Judged { echo: e, truth: truth.to_string(), why: why.to_string(), batch }
}

#[test]
fn an_audit_table_is_judged_row_by_row_and_tallied() {
    let reach = strings(&["src/A.java", "src/B.java"]);
    let sampled = vec![echo("r1", "src/A.java", "import"), echo("r2", "src/B.java", "call")];
    let why = "the import names the class it loads";
    let rows = vec![
        judged(echo("r1", "src/A.java", "import"), "src/B.java", why, Some(1)),
        judged(echo("r2", "src/B.java", "call"), "external", why, Some(2)),
    ];
    let summary = judge_rows(&rows, &sampled, &reach, 10).unwrap();
    assert_eq!(summary.len(), 7);
    assert_eq!(summary[2], ("external".to_string(), 1));
    assert_eq!(summary[3], ("file".to_string(), 1));
    assert_eq!(summary[0], ("ambiguous".to_string(), 0));

    let short = vec![judged(echo("r1", "src/A.java", "import"), "none", why, Some(1))];
    assert!(matches!(judge_rows(&short, &sampled, &reach, 10), Err(ReviewFault::Rows { have: 1, want: 2 })));
    let moved = vec![
        judged(echo("r1", "src/A.java", "call"), "none", why, Some(1)),
        judged(echo("r2", "src/B.java", "call"), "none", why, Some(1)),
    ];
    assert!(matches!(
        judge_rows(&moved, &sampled, &reach, 10),
        Err(ReviewFault::Echo { rank, field }) if rank == "r1" && field == "kind"
    ));
    let unbound = vec![
        judged(echo("r1", "src/A.java", "import"), "src/C.java", why, Some(1)),
        judged(echo("r2", "src/B.java", "call"), "none", why, Some(1)),
    ];
    assert!(matches!(
        judge_rows(&unbound, &sampled, &reach, 10),
        Err(ReviewFault::Truth { rank, fault: TruthFault::Unbound }) if rank == "r1"
    ));
    let terse = vec![
        judged(echo("r1", "src/A.java", "import"), "none", "short", Some(1)),
        judged(echo("r2", "src/B.java", "call"), "none", why, Some(1)),
    ];
    assert!(matches!(judge_rows(&terse, &sampled, &reach, 10), Err(ReviewFault::Why { rank }) if rank == "r1"));
    let unbatched = vec![
        judged(echo("r1", "src/A.java", "import"), "none", why, Some(1)),
        judged(echo("r2", "src/B.java", "call"), "none", why, Some(0)),
    ];
    assert!(matches!(judge_rows(&unbatched, &sampled, &reach, 10), Err(ReviewFault::Batch { rank }) if rank == "r2"));
}

fn gap(path: &str, line: Option<u64>, note: Option<&str>) -> Gap {
    Gap { path: path.to_string(), line, note: note.map(|n| n.to_string()) }
}

#[test]
fn every_gap_sits_on_its_side_of_the_universe() {
    let files = strings(&["src/A.java"]);
    let reach = strings(&["src/A.java", "bin/tool"]);
    let site = Some(vec![gap("src/A.java", Some(4), Some("macro"))]);
    let scope = Some(vec![gap("bin/tool", Some(1), Some("no extension"))]);
    assert!(check_gaps(false, &files, &reach, &site, &scope).is_ok());
    assert!(check_gaps(true, &files, &reach, &site, &None).is_ok());
    assert!(matches!(check_gaps(true, &files, &reach, &None, &None), Err(ReviewFault::NoSiteGaps)));
    let wrong = Some(vec![gap("src/A.java", Some(1), Some("n"))]);
    assert!(matches!(
        check_gaps(false, &files, &reach, &site, &wrong),
        Err(ReviewFault::Gap { field, path }) if field == "scope_gaps" && path == "src/A.java"
    ));
    let unknown = Some(vec![gap("lib/x", Some(1), Some("n"))]);
    assert!(check_gaps(false, &files, &reach, &site, &unknown).is_err());
    assert!(check_gaps(true, &files, &reach, &site, &unknown).is_ok());
    let silent = Some(vec![gap("src/A.java", Some(2), Some(""))]);
    assert!(matches!(
        check_gaps(true, &files, &reach, &silent, &None),
        Err(ReviewFault::Note { field }) if field == "site_gaps"
    ));
    let lineless = Some(vec![gap("src/A.java", None, Some("n"))]);
    assert!(matches!(check_gaps(true, &files, &reach, &lineless, &None), Err(ReviewFault::Gap { .. })));
}

fn drawn(kind: &str, rank: String, audit: String) -> Drawn {
    Drawn { kind: kind.to_string(), rank, audit }
}

#[test]
fn a_frozen_draw_is_checked_against_its_pool() {
    let check = check_draw;
    let pool = vec![("a".to_string(), 200u64)];
    let rows: Vec<_> = (0..100).map(|i| drawn("a", format!("r{i:03}"), format!("x{i:03}"))).collect();
    let backups: Vec<_> = (0..20).map(|i| drawn("a", format!("s{i:03}"), format!("y{i:03}"))).collect();
    assert!(check(&rows, &backups, &pool).is_ok());
    let few: Vec<_> = backups[..19].iter().map(|d| drawn("a", d.rank.clone(), d.audit.clone())).collect();
    match check(&rows, &few, &pool) {
        Err(DrawFault::Backups { kind, have, want }) => {
            assert_eq!((kind.as_str(), have, want), ("a", 19, 20));
        },
        other => panic!("{other:?}"),
    }
    let mut high: Vec<_> = backups.iter().map(|d| drawn("a", d.rank.clone(), d.audit.clone())).collect();
    high[0].rank = "a000".to_string();
    assert!(matches!(
        check(&rows, &high, &pool),
        Err(DrawFault::Outranked { kind }) if kind == "a"
    ));
    let mut shuffled: Vec<_> = rows.iter().map(|d| drawn("a", d.rank.clone(), d.audit.clone())).collect();
    shuffled.swap(0, 1);
    assert!(matches!(
        check(&shuffled, &backups, &pool),
        Err(DrawFault::Unsorted)
    ));
    let small = vec![("a".to_string(), 3u64), ("b".to_string(), 2u64)];
    let five: Vec<_> = ["a", "a", "a", "b", "b"]
        .iter()
        .enumerate()
        .map(|(i, k)| drawn(k, format!("r{i}"), format!("x{i}")))
        .collect();
    assert!(check(&five, &vec![], &small).is_ok());
    assert!(matches!(
        check(&five[..4].iter().map(|d| drawn(&d.kind, d.rank.clone(), d.audit.clone())).collect(), &vec![], &small),
        Err(DrawFault::PerKind)
    ));
}

const GSON: &str = "854c8255b625cf1e13c701a83ea9ccb4caaa576a";

fn sample_row(rank: &str, corpus: &str, commit: &str, path: &str, kind: &str) -> SampleRow {
    SampleRow {
        rank: rank.to_string(),
        audit: format!("a{rank}"),
        lang: "java".to_string(),
        corpus: corpus.to_string(),
        commit: commit.to_string(),
        path: path.to_string(),
        kind: kind.to_string(),
    }
}

fn hashes_of(rows: &[SampleRow]) -> Vec<Hashes> {
    rows.iter().map(|r| Hashes { rank: r.rank.clone(), audit: r.audit.clone() }).collect()
}

#[test]
fn every_sampled_row_is_bound_to_its_frozen_file() {
    let e = java();
    let files = vec![FileSites {
        corpus: "gson".to_string(),
        path: "A.java".to_string(),
        sites: vec![("import".to_string(), 2)],
    }];
    let rows = vec![
        sample_row("r1", "gson", GSON, "A.java", "import"),
        sample_row("r2", "gson", GSON, "A.java", "import"),
    ];
    assert!(check_rows(&e, &files, &rows, &hashes_of(&rows)).is_ok());
    let mut three = rows.iter().map(|r| sample_row(&r.rank, &r.corpus, &r.commit, &r.path, &r.kind)).collect::<Vec<_>>();
    three.push(sample_row("r3", "gson", GSON, "A.java", "import"));
    assert!(matches!(check_rows(&e, &files, &three, &hashes_of(&three)), Err(RowFault::Bound { rank }) if rank == "r3"));
    let mut forged = hashes_of(&rows);
    forged[1].rank = "zz".to_string();
    assert!(matches!(check_rows(&e, &files, &rows, &forged), Err(RowFault::Forged { rank }) if rank == "r2"));
    let twice = vec![sample_row("r1", "gson", GSON, "A.java", "import"), sample_row("r1", "gson", GSON, "A.java", "import")];
    assert!(matches!(check_rows(&e, &files, &twice, &hashes_of(&twice)), Err(RowFault::Twice { .. })));
    let moved = vec![sample_row("r1", "gson", "deadbeef", "A.java", "import")];
    assert!(matches!(check_rows(&e, &files, &moved, &hashes_of(&moved)), Err(RowFault::NotPinned { .. })));
    let lost = vec![sample_row("r1", "gson", GSON, "B.java", "import")];
    assert!(matches!(check_rows(&e, &files, &lost, &hashes_of(&lost)), Err(RowFault::NoFile { .. })));
    let other_kind = vec![sample_row("r1", "gson", GSON, "A.java", "call")];
    assert!(matches!(check_rows(&e, &files, &other_kind, &hashes_of(&other_kind)), Err(RowFault::Bound { .. })));
}

#[test]
fn pool_counts_strip_the_language_and_sum_across_slices() {
    let cells = |pairs: &[(&str, u64)]| -> Vec<(String, u64)> {
        pairs.iter().map(|(k, n)| (k.to_string(), *n)).collect()
    };
    let slices = vec![
        cells(&[("c/call", 3), ("c/macro", 1)]),
        cells(&[("c/call", 2), ("c/decl", 7)]),
    ];
    assert_eq!(
        pool_counts("c", &slices),
        Some(cells(&[("call", 5), ("decl", 7), ("macro", 1)]))
    );
    assert_eq!(pool_counts("c", &vec![cells(&[("cpp/call", 1)])]), None);
    assert_eq!(pool_counts("c", &vec![cells(&[("c", 1)])]), None);
    assert_eq!(pool_counts("c", &Vec::new()), Some(Vec::new()));
}

fn triples(rows: &[Drawn]) -> Vec<(String, String, String)> {
    rows.iter().map(|d| (d.kind.clone(), d.rank.clone(), d.audit.clone())).collect()
}

fn t(kind: &str, rank: &str, audit: &str) -> (String, String, String) {
    (kind.to_string(), rank.to_string(), audit.to_string())
}

#[test]
fn a_small_draw_takes_every_site_in_audit_order() {
    let pool = vec![
        drawn("b", "r3".into(), "a1".into()),
        drawn("a", "r2".into(), "a9".into()),
        drawn("b", "r1".into(), "a5".into()),
        drawn("a", "r1".into(), "a0".into()),
    ];
    let Draw { allocation, primary, backups } = draw(&pool);
    assert_eq!(allocation, vec![("a".to_string(), 2), ("b".to_string(), 2)]);
    assert_eq!(
        triples(&primary),
        vec![t("a", "r1", "a0"), t("b", "r3", "a1"), t("b", "r1", "a5"), t("a", "r2", "a9")]
    );
    assert!(backups.is_empty());
    let empty = draw(&Vec::new());
    assert!(empty.allocation.is_empty() && empty.primary.is_empty() && empty.backups.is_empty());
}

#[test]
fn the_draw_picks_by_rank_and_backs_up_by_audit() {
    let kinds = ["k1", "k2", "k3", "k4", "k5", "k6", "k7"];
    let mut pool = Vec::new();
    for k in kinds.iter().rev() {
        for j in 0..17u32 {
            pool.push(drawn(k, format!("{:02}", (j * 7) % 17), format!("{k}-{:02}", 16 - j)));
        }
    }
    let d = draw(&pool);
    let want: Vec<(String, u64)> = kinds.iter().map(|k| (k.to_string(), 15)).collect();
    assert_eq!(d.allocation, want);
    assert_eq!(d.primary.len(), 105);
    assert!(d.primary.windows(2).all(|w| w[0].audit <= w[1].audit));
    for k in kinds {
        let mut ranks: Vec<String> = d.primary.iter().filter(|r| r.kind == k).map(|r| r.rank.clone()).collect();
        ranks.sort();
        let low: Vec<String> = (0..15).map(|r| format!("{r:02}")).collect();
        assert_eq!(ranks, low, "{k}");
    }
    let mut want_backups = Vec::new();
    for k in kinds {
        let mut left: Vec<(String, String, String)> = pool
            .iter()
            .filter(|r| r.kind == k && r.rank.as_str() >= "15")
            .map(|r| (r.kind.clone(), r.rank.clone(), r.audit.clone()))
            .collect();
        left.sort_by(|a, b| a.2.cmp(&b.2));
        want_backups.extend(left);
    }
    assert_eq!(triples(&d.backups), want_backups);
    let counted: Vec<(String, u64)> = kinds.iter().map(|k| (k.to_string(), 17)).collect();
    assert!(check_draw(&d.primary, &d.backups, &counted).is_ok());
}

const TREE_METHOD: &str = "every path git ls-tree -r --full-tree lists at the pinned tip, in byte order: the files an audit truth may name when the exam's references reach any tracked file (a stylesheet, an image, a script, a page). A function of the tip alone - no product code, no judgment.";

#[test]
fn a_frozen_tree_is_held_to_its_universe() {
    let java = java();
    let tree = strings(&["README.md", "lib/A.java", "src/B.java", "src/C.java", "style.css"]);
    let universe = strings(&["src/C.java", "src/B.java"]);
    assert!(check_tree(&java, TREE_METHOD, &tree, &universe, 2, 1).is_ok());
    assert!(matches!(check_tree(&java, "by hand", &tree, &universe, 2, 1), Err(TreeFault::Method)));
    let unsorted = strings(&["src/B.java", "lib/A.java"]);
    assert!(matches!(check_tree(&java, TREE_METHOD, &unsorted, &strings(&[]), 0, 2), Err(TreeFault::Unsorted)));
    let twice = strings(&["lib/A.java", "lib/A.java"]);
    assert!(matches!(check_tree(&java, TREE_METHOD, &twice, &strings(&[]), 0, 2), Err(TreeFault::Unsorted)));
    let beyond = strings(&["src/Z.java", "src/B.java", "lib/Y.java"]);
    match check_tree(&java, TREE_METHOD, &tree, &beyond, 2, 1) {
        Err(TreeFault::Missing { path }) => assert_eq!(path, "lib/Y.java"),
        other => panic!("{other:?}"),
    }
    match check_tree(&java, TREE_METHOD, &tree, &universe, 1, 1) {
        Err(TreeFault::Tallies { other, refused }) => assert_eq!((other, refused), (2, 1)),
        other => panic!("{other:?}"),
    }
}

fn site_file(path: &str, lang: &str, sites: &[(&str, u64)]) -> SiteFile {
    SiteFile {
        path: path.to_string(),
        lang: lang.to_string(),
        sites: sites.iter().map(|(k, n)| (k.to_string(), *n)).collect(),
    }
}

#[test]
fn a_walk_record_tallies_its_refused_files() {
    let files = vec![
        site_file("vendor/x.js", "js", &[("import", 2), ("require", 1)]),
        site_file("src/a.js", "js", &[("import", 5)]),
        site_file("dist/b.min.js", "js", &[("import", 1)]),
    ];
    assert_eq!(universe_files(&files), strings(&["vendor/x.js", "src/a.js", "dist/b.min.js"]));
    let refused = strings(&["vendor/x.js", "dist/b.min.js", "vendor/x.js"]);
    let r = walk_record(files, &refused, &strings(&["node_modules/q.js"]));
    assert_eq!(r.refused, strings(&["dist/b.min.js", "vendor/x.js"]));
    assert_eq!(r.unreached, strings(&["node_modules/q.js"]));
    assert_eq!(r.refused_sites_by, vec![("js/import".to_string(), 3), ("js/require".to_string(), 1)]);
    let none = walk_record(vec![site_file("src/a.js", "js", &[("import", 5)])], &Vec::new(), &Vec::new());
    assert!(none.refused.is_empty() && none.refused_sites_by.is_empty());
}

fn cells(pairs: &[(&str, u64)]) -> Vec<(String, u64)> {
    pairs.iter().map(|(k, n)| (k.to_string(), *n)).collect()
}

#[test]
fn a_ledger_adds_up_to_its_universe_cell_by_cell() {
    let by = cells(&[("java/import/r1", 3), ("java/import/r2", 2), ("java/type_ref/r2", 4)]);
    let refused = cells(&[("java/import/out_of_scope", 1)]);
    let gone = cells(&[("java/import", 2), ("java/type_ref", 1)]);
    let sites = cells(&[("java/import", 8), ("java/type_ref", 5)]);
    assert!(ledger_adds_up(&by, &refused, &gone, &sites).is_ok());
    let cooked = cells(&[("java/import", 9), ("java/type_ref", 5)]);
    assert!(matches!(ledger_adds_up(&by, &refused, &gone, &cooked), Err(LedgerFault::Drifted)));
    let extra = cells(&[("java/import", 8), ("java/type_ref", 5), ("java/x", 0)]);
    assert!(matches!(ledger_adds_up(&by, &refused, &gone, &extra), Err(LedgerFault::Drifted)));
    let cellless = cells(&[("nocell", 1)]);
    match ledger_adds_up(&by, &cellless, &gone, &sites) {
        Err(LedgerFault::Cell { key }) => assert_eq!(key, "nocell"),
        other => panic!("{other:?}"),
    }
}

const JSOUP: &str = "093e2f58492c531667e551e8793513a41b22443e";

fn envelope() -> SampleEnvelope {
    SampleEnvelope {
        schema: "ce.eval-lang-sample/1.0.0".to_string(),
        lang: "java".to_string(),
        constants: sample_constants(),
        sources: vec![
            Source { corpus: "gson".to_string(), tip: GSON.to_string(), total_sites: 40 },
            Source { corpus: "jsoup".to_string(), tip: JSOUP.to_string(), total_sites: 60 },
        ],
        allocation: vec![("import".to_string(), 30)],
    }
}

#[test]
fn a_sample_envelope_is_its_exam_its_slices_and_its_quotas() {
    let exam = java();
    let slices = vec![
        SliceHead { tip: GSON.to_string(), total_sites: 40 },
        SliceHead { tip: JSOUP.to_string(), total_sites: 60 },
    ];
    let pool = vec![("import".to_string(), 30u64)];
    assert_eq!(quotas(&pool), vec![("import".to_string(), 30)]);
    assert!(check_sample_envelope(&exam, &envelope(), &slices, &pool).is_ok());
    let mut e = envelope();
    e.schema = "ce.eval-lang-sample/0.9.0".to_string();
    assert!(matches!(check_sample_envelope(&exam, &e, &slices, &pool), Err(SampleEnvelopeFault::Schema)));
    let mut e = envelope();
    e.lang = "lua".to_string();
    assert!(matches!(check_sample_envelope(&exam, &e, &slices, &pool), Err(SampleEnvelopeFault::Lang)));
    let mut e = envelope();
    e.constants.backup_per_kind = 19;
    assert!(matches!(check_sample_envelope(&exam, &e, &slices, &pool), Err(SampleEnvelopeFault::Constants)));
    let mut e = envelope();
    e.sources[1].total_sites = 61;
    assert!(matches!(check_sample_envelope(&exam, &e, &slices, &pool), Err(SampleEnvelopeFault::Sources)));
    let mut e = envelope();
    e.allocation[0].1 = 29;
    assert!(matches!(check_sample_envelope(&exam, &e, &slices, &pool), Err(SampleEnvelopeFault::Allocation)));
}

#[test]
fn an_audit_table_envelope_is_its_corpus_and_pinned_tip() {
    let exam = java();
    let doc = |schema: &str, corpus: &str, lang: &str, tip: &str| ReviewEnvelope {
        schema: schema.to_string(),
        corpus: corpus.to_string(),
        lang: lang.to_string(),
        tip: tip.to_string(),
    };
    let s = "ce.eval-lang-review/1.0.0";
    assert!(check_review_envelope(&exam, "jsoup", &doc(s, "jsoup", "java", JSOUP)).is_ok());
    assert!(matches!(
        check_review_envelope(&exam, "jsoup", &doc("x", "jsoup", "java", JSOUP)),
        Err(ReviewEnvelopeFault::Schema)
    ));
    assert!(matches!(
        check_review_envelope(&exam, "jsoup", &doc(s, "gson", "java", JSOUP)),
        Err(ReviewEnvelopeFault::Corpus)
    ));
    assert!(matches!(
        check_review_envelope(&exam, "jsoup", &doc(s, "jsoup", "lua", JSOUP)),
        Err(ReviewEnvelopeFault::Lang)
    ));
    assert!(matches!(
        check_review_envelope(&exam, "jsoup", &doc(s, "jsoup", "java", GSON)),
        Err(ReviewEnvelopeFault::Tip)
    ));
}

fn small_sample(rows: Vec<SampleRow>) -> SampleDoc {
    let mut envelope = envelope();
    envelope.allocation = vec![("import".to_string(), 2)];
    SampleDoc { envelope, rows, backups: vec![] }
}

#[test]
fn a_sample_passes_only_when_envelope_rows_and_draw_all_hold() {
    let exam = java();
    let slices = vec![
        SliceHead { tip: GSON.to_string(), total_sites: 40 },
        SliceHead { tip: JSOUP.to_string(), total_sites: 60 },
    ];
    let pool = vec![("import".to_string(), 2u64)];
    let files = vec![FileSites {
        corpus: "gson".to_string(),
        path: "A.java".to_string(),
        sites: vec![("import".to_string(), 2)],
    }];
    let rows = || vec![
        sample_row("r1", "gson", GSON, "A.java", "import"),
        sample_row("r2", "gson", GSON, "A.java", "import"),
    ];
    let doc = small_sample(rows());
    assert!(verify_sample(&exam, &doc, &slices, &pool, &files, &hashes_of(&doc.rows)).is_ok());

    let mut wrong = small_sample(rows());
    wrong.envelope.schema = "ce.eval-lang-sample/2.0.0".to_string();
    assert!(matches!(
        verify_sample(&exam, &wrong, &slices, &pool, &files, &hashes_of(&wrong.rows)),
        Err(SampleFault::Envelope(SampleEnvelopeFault::Schema))
    ));

    let mut forged = hashes_of(&doc.rows);
    forged[0].audit = "zz".to_string();
    assert!(matches!(
        verify_sample(&exam, &doc, &slices, &pool, &files, &forged),
        Err(SampleFault::Row(RowFault::AuditForged { rank })) if rank == "r1"
    ));

    let mut swapped = rows();
    swapped.reverse();
    let out_of_order = small_sample(swapped);
    assert!(matches!(
        verify_sample(&exam, &out_of_order, &slices, &pool, &files, &hashes_of(&out_of_order.rows)),
        Err(SampleFault::Draw(DrawFault::Unsorted))
    ));

    let mut one_backup = small_sample(rows());
    one_backup.backups.push(sample_row("r3", "gson", GSON, "A.java", "import"));
    let mut all = one_backup.rows.iter().map(|r| sample_row(&r.rank, &r.corpus, &r.commit, &r.path, &r.kind)).collect::<Vec<_>>();
    all.push(sample_row("r3", "gson", GSON, "A.java", "import"));
    assert!(matches!(
        verify_sample(&exam, &one_backup, &slices, &pool, &files, &hashes_of(&all)),
        Err(SampleFault::Row(RowFault::Bound { rank })) if rank == "r3"
    ));
}

fn table(rows: Vec<Judged>, summary: &[(&str, u64)]) -> ReviewDoc {
    ReviewDoc {
        envelope: ReviewEnvelope {
            schema: "ce.eval-lang-review/1.0.0".to_string(),
            corpus: "jsoup".to_string(),
            lang: "java".to_string(),
            tip: JSOUP.to_string(),
        },
        rows,
        summary: summary.iter().map(|(k, n)| (k.to_string(), *n)).collect(),
        site_gaps: Some(vec![gap("src/A.java", Some(3), Some("a site the walk missed"))]),
        scope_gaps: None,
    }
}

#[test]
fn an_audit_table_passes_only_whole() {
    let exam = java();
    let files = strings(&["src/A.java", "src/B.java"]);
    let reach = strings(&["src/A.java", "src/B.java"]);
    let sampled = vec![echo("r1", "src/A.java", "import"), echo("r2", "src/B.java", "call")];
    let why = "the import names the class it loads";
    let rows = || vec![
        judged(echo("r1", "src/A.java", "import"), "src/B.java", why, Some(1)),
        judged(echo("r2", "src/B.java", "call"), "external", why, Some(2)),
    ];
    let good = table(rows(), &[("external", 1), ("file", 1)]);
    assert!(verify_review(&exam, "jsoup", &good, &sampled, &files, &reach, 10).is_ok());

    let mut stale = table(rows(), &[("external", 1), ("file", 1)]);
    stale.envelope.tip = GSON.to_string();
    assert!(matches!(
        verify_review(&exam, "jsoup", &stale, &sampled, &files, &reach, 10),
        Err(AuditFault::Envelope(ReviewEnvelopeFault::Tip))
    ));

    let terse = table(
        vec![
            judged(echo("r1", "src/A.java", "import"), "src/B.java", "short", Some(1)),
            judged(echo("r2", "src/B.java", "call"), "external", why, Some(2)),
        ],
        &[("external", 1), ("file", 1)],
    );
    assert!(matches!(
        verify_review(&exam, "jsoup", &terse, &sampled, &files, &reach, 10),
        Err(AuditFault::Rows(ReviewFault::Why { rank })) if rank == "r1"
    ));

    let zero_listed = table(rows(), &[("ambiguous", 0), ("external", 1), ("file", 1)]);
    assert!(matches!(
        verify_review(&exam, "jsoup", &zero_listed, &sampled, &files, &reach, 10),
        Err(AuditFault::Summary)
    ));
    let drifted = table(rows(), &[("external", 2)]);
    assert!(matches!(
        verify_review(&exam, "jsoup", &drifted, &sampled, &files, &reach, 10),
        Err(AuditFault::Summary)
    ));

    let mut unnoted = table(rows(), &[("external", 1), ("file", 1)]);
    unnoted.site_gaps = Some(vec![gap("src/A.java", Some(3), None)]);
    assert!(matches!(
        verify_review(&exam, "jsoup", &unnoted, &sampled, &files, &reach, 10),
        Err(AuditFault::Gaps(ReviewFault::Note { field })) if field == "site_gaps"
    ));
    let mut unlisted = table(rows(), &[("external", 1), ("file", 1)]);
    unlisted.site_gaps = None;
    assert!(matches!(
        verify_review(&exam, "jsoup", &unlisted, &sampled, &files, &reach, 10),
        Err(AuditFault::Gaps(ReviewFault::NoSiteGaps))
    ));
}

#[test]
fn a_sample_is_held_to_the_pool_its_slices_summarise() {
    let exam = java();
    let slices = vec![
        SliceHead { tip: GSON.to_string(), total_sites: 40 },
        SliceHead { tip: JSOUP.to_string(), total_sites: 60 },
    ];
    let files = vec![FileSites {
        corpus: "gson".to_string(),
        path: "A.java".to_string(),
        sites: vec![("import".to_string(), 2)],
    }];
    let doc = small_sample(vec![
        sample_row("r1", "gson", GSON, "A.java", "import"),
        sample_row("r2", "gson", GSON, "A.java", "import"),
    ]);
    let hashes = hashes_of(&doc.rows);
    let summaries = vec![cells(&[("java/import", 1)]), cells(&[("java/import", 1)])];
    assert!(verify_sample_slices(&exam, &doc, &slices, &summaries, &files, &hashes).is_ok());
    let three = vec![cells(&[("java/import", 2)]), cells(&[("java/import", 1)])];
    assert!(matches!(
        verify_sample_slices(&exam, &doc, &slices, &three, &files, &hashes),
        Err(SampleFault::Envelope(SampleEnvelopeFault::Allocation))
    ));
    let foreign = vec![cells(&[("java/import", 1)]), cells(&[("lua/import", 1)])];
    assert!(matches!(
        verify_sample_slices(&exam, &doc, &slices, &foreign, &files, &hashes),
        Err(SampleFault::Pool)
    ));
    let huge = vec![cells(&[("java/import", u64::MAX / 100 + 1)]), cells(&[])];
    assert!(matches!(
        verify_sample_slices(&exam, &doc, &slices, &huge, &files, &hashes),
        Err(SampleFault::PoolTooLarge)
    ));
}

#[test]
fn an_audit_table_is_held_to_its_slice_universe() {
    let exam = java();
    let file = |p: &str| SiteFile { path: p.to_string(), lang: "java".to_string(), sites: vec![] };
    let slice = vec![file("src/B.java"), file("src/A.java")];
    let sampled = vec![echo("r1", "src/A.java", "import"), echo("r2", "src/B.java", "call")];
    let why = "the import names the class it loads";
    let rows = || vec![
        judged(echo("r1", "src/A.java", "import"), "src/B.java", why, Some(1)),
        judged(echo("r2", "src/B.java", "call"), "external", why, Some(2)),
    ];
    let good = table(rows(), &[("external", 1), ("file", 1)]);
    assert!(verify_review_slice(&exam, "jsoup", &good, &sampled, &slice, &vec![], 10).is_ok());
    let narrow = vec![file("src/A.java")];
    assert!(matches!(
        verify_review_slice(&exam, "jsoup", &good, &sampled, &narrow, &vec![], 10),
        Err(AuditFault::Rows(ReviewFault::Truth { rank, fault: TruthFault::Unbound })) if rank == "r1"
    ));
}
