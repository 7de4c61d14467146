use ce_gates::eval_support::auditgen::largest_remainder;
use ce_gates::eval_support::corpus::{
    corpus_doc_pairs, doc_corpus_name, doc_suffix, pinned, pinned_root, sibling, PairError, PinError,
};
use ce_gates::eval_support::graph::{
    assert_corpus_set, assert_frozen_corpus_set, assert_nonzero_seats, frozen_corpus_names,
    keyword_index, CorpusSetError,
};
use ce_gates::eval_support::tally::{site_summary, sum_obj, sum_obj_into, tally, SiteFile};
use ce_gates::eval_support::universe::{doc_envelope, doc_stem, live_candidates, EnvelopeFault};

fn w(pairs: &[(&str, u64)]) -> Vec<(String, u64)> {
    pairs.iter().map(|(k, n)| (k.to_string(), *n)).collect()
}

#[test]
fn largest_remainder_breaks_ties_by_key() {
    assert_eq!(
        largest_remainder(&w(&[("a", 1), ("b", 1), ("c", 1)]), 2),
        w(&[("a", 1), ("b", 1), ("c", 0)])
    );
    assert_eq!(largest_remainder(&w(&[("a", 5), ("b", 3)]), 4), w(&[("a", 3), ("b", 1)]));
}

#[test]
fn largest_remainder_hands_out_every_seat_and_none_over_weight() {
    let out = largest_remainder(&w(&[("x", 7), ("y", 2), ("z", 1)]), 10);
    assert_eq!(out.iter().map(|(_, n)| n).sum::<u64>(), 10);
    assert_eq!(out, w(&[("x", 7), ("y", 2), ("z", 1)]));
    let out = largest_remainder(&w(&[("x", 0), ("y", 0)]), 5);
    assert_eq!(out, w(&[("x", 0), ("y", 0)]));
}

#[test]
fn the_pinned_corpora_are_four() {
    let p = pinned();
    assert_eq!(p.len(), 4);
    assert_eq!(p[0].0, "cobra");
    assert_eq!(p[3], ("zod".to_string(), "912f0f51b0ced654d0069741e7160834dca742ee".to_string()));
}

#[test]
fn a_corpus_checkout_must_stand_at_its_tip() {
    match pinned_root("zod", "abc", true, Some("abc\n")) {
        Ok(root) => assert_eq!(root, ".ce-eval/corpora/zod"),
        Err(e) => panic!("{e:?}"),
    }
    assert!(matches!(
        pinned_root("zod", "abc", false, None),
        Err(PinError::NoClone { root }) if root == ".ce-eval/corpora/zod"
    ));
    assert!(matches!(
        pinned_root("zod", "abc", true, Some(" def ")),
        Err(PinError::NotPinned { head }) if head == "def"
    ));
    assert!(matches!(
        pinned_root("zod", "abc", true, None),
        Err(PinError::NotPinned { head }) if head.is_empty()
    ));
}

#[test]
fn a_doc_name_reads_its_corpus() {
    assert_eq!(
        doc_suffix("docs/eval/graph-slice-zod-v1.json", "graph-slice").unwrap(),
        Some("zod".to_string())
    );
    assert_eq!(doc_suffix("docs/eval/graph-slice-v1.json", "graph-slice").unwrap(), None);
    let e = doc_suffix("docs/eval/other-v1.json", "graph-slice").unwrap_err();
    assert_eq!(e.path, "docs/eval/other-v1.json");
    assert_eq!(e.stem, "graph-slice");
    assert_eq!(
        doc_corpus_name("eval/commit-graph-cobra-v1.json", "graph").unwrap(),
        Some("cobra".to_string())
    );
}

#[test]
fn a_slice_doc_pairs_with_its_family_sibling() {
    assert_eq!(
        sibling("eval/commit-slice-zod-v1.json", "graph"),
        "eval/commit-graph-zod-v1.json"
    );
    let slices = vec!["eval/commit-slice-v1.json".to_string(), "eval/commit-slice-zod-v1.json".to_string()];
    let pairs = corpus_doc_pairs("graph", &slices, &vec![true, true]).unwrap();
    assert_eq!(pairs.len(), 2);
    assert_eq!(pairs[1].1, "eval/commit-graph-zod-v1.json");
    match corpus_doc_pairs("graph", &slices, &vec![true, false]) {
        Err(PairError::Missing { slice, sibling }) => {
            assert_eq!(slice, "eval/commit-slice-zod-v1.json");
            assert_eq!(sibling, "eval/commit-graph-zod-v1.json");
        },
        other => panic!("{other:?}"),
    }
    assert!(matches!(corpus_doc_pairs("graph", &vec![], &vec![]), Err(PairError::Empty)));
}

#[test]
fn truth_keywords_have_their_places() {
    assert_eq!(keyword_index("external"), Some(0));
    assert_eq!(keyword_index("none"), Some(3));
    assert_eq!(keyword_index("src/lib.rs"), None);
}

#[test]
fn a_doc_stem_carries_its_corpus() {
    assert_eq!(doc_stem("graph-precision", &Some("zod".to_string())), "graph-precision-zod");
    assert_eq!(doc_stem("graph-precision", &None), "graph-precision");
}

#[test]
fn the_corpus_set_is_anchored_both_ways() {
    let docs = vec![
        "docs/eval/graph-slice-v1.json".to_string(),
        "docs/eval/graph-slice-zod-v1.json".to_string(),
    ];
    let expected = vec![None, Some("zod".to_string())];
    assert_eq!(assert_corpus_set("graph-slice", docs.clone(), &expected).unwrap(), docs);
    assert!(matches!(
        assert_corpus_set("graph-slice", docs.clone(), &vec![None]),
        Err(CorpusSetError::Drifted { family }) if family == "graph-slice"
    ));
    assert!(matches!(
        assert_corpus_set("graph-slice", vec!["docs/eval/x.json".to_string()], &expected),
        Err(CorpusSetError::NotADoc(_))
    ));
    assert_eq!(frozen_corpus_names().len(), 5);
    let frozen: Vec<String> = ["", "-cobra", "-requests", "-ripgrep", "-zod"]
        .iter()
        .map(|s| format!("docs/eval/graph-slice{s}-v1.json"))
        .collect();
    assert!(assert_frozen_corpus_set("graph-slice", frozen).is_ok());
}

#[test]
fn an_empty_seat_is_named() {
    let counts = w(&[("call", 3), ("import", 0)]);
    let seats = vec!["call".to_string(), "import".to_string()];
    let e = assert_nonzero_seats(&counts, &seats, "kinds").unwrap_err();
    assert_eq!(e.seat, "import");
    assert_eq!(e.what, "kinds");
    assert!(assert_nonzero_seats(&counts, &vec!["call".to_string()], "kinds").is_ok());
}

fn strings(v: &[&str]) -> Vec<String> {
    v.iter().map(|s| s.to_string()).collect()
}

#[test]
fn a_frozen_row_is_looked_for_where_it_moved() {
    assert_eq!(live_candidates("cli/tests/dedup.rs"), strings(&["cli/tests/dedup.rs", "cli/tests/it/dedup.rs"]));
    assert_eq!(
        live_candidates("cli/src/graph/walk_tests.rs"),
        strings(&["cli/src/graph/walk_tests.rs", "cli/tests/unit/graph/walk_tests.rs"])
    );
    assert_eq!(live_candidates("cli/src/testutil.rs"), strings(&["cli/src/testutil.rs", "cli/tests/unit/testutil.rs"]));
    assert_eq!(live_candidates("cli/src/lib.rs"), strings(&["cli/src/lib.rs"]));
    assert_eq!(live_candidates("cli/src/tests/x.rs"), strings(&["cli/src/tests/x.rs"]));
    assert_eq!(live_candidates("core/app/Main.hs"), strings(&["core/app/Main.hs"]));
}

#[test]
fn a_frozen_doc_envelope_holds_its_tip_name_ledger_and_order() {
    let tip = "0123456789abcdef0123456789ABCDEF01234567";
    let excluded = vec![("excluded_prefix".to_string(), Some(3))];
    let paths = strings(&["a.rs", "b.rs"]);
    let name = Some("zod".to_string());
    let doc = "docs/eval/graph-slice-zod-v1.json";
    assert_eq!(doc_envelope(doc, "graph-slice", &excluded, tip, &name, &paths).unwrap(), name);
    assert!(matches!(
        doc_envelope(doc, "graph-slice", &vec![("other".to_string(), Some(1))], tip, &name, &paths),
        Err(EnvelopeFault::Excluded { category }) if category == "other"
    ));
    assert!(matches!(
        doc_envelope(doc, "graph-slice", &vec![("excluded_prefix".to_string(), Some(0))], tip, &name, &paths),
        Err(EnvelopeFault::Excluded { .. })
    ));
    assert!(matches!(doc_envelope(doc, "graph-slice", &excluded, "abc", &name, &paths), Err(EnvelopeFault::Tip)));
    assert!(matches!(doc_envelope(doc, "graph-slice", &excluded, tip, &None, &paths), Err(EnvelopeFault::Name)));
    assert!(matches!(
        doc_envelope("docs/eval/x.json", "graph-slice", &excluded, tip, &name, &paths),
        Err(EnvelopeFault::NotADoc(_))
    ));
    assert!(matches!(
        doc_envelope(doc, "graph-slice", &excluded, tip, &name, &strings(&["b.rs", "b.rs"])),
        Err(EnvelopeFault::Unsorted { at: 1 })
    ));
}

#[test]
fn tally_sums_per_key_in_key_order() {
    let out = tally(&w(&[("b", 2), ("a", 1), ("b", 3), ("c", 0), ("a", 4)]));
    assert_eq!(out, w(&[("a", 5), ("b", 5), ("c", 0)]));
    assert_eq!(tally(&Vec::new()), Vec::<(String, u64)>::new());
}

#[test]
fn site_summary_keys_by_lang_and_kind() {
    let files = vec![
        SiteFile { path: "a.c".into(), lang: "c".into(), sites: w(&[("call", 2), ("macro", 1)]) },
        SiteFile { path: "b.lua".into(), lang: "lua".into(), sites: w(&[("call", 4)]) },
        SiteFile { path: "c.c".into(), lang: "c".into(), sites: w(&[("call", 3)]) },
    ];
    let s = site_summary(&files);
    assert_eq!(s.files, 3);
    assert_eq!(s.total_sites, 10);
    assert_eq!(s.sites_by, w(&[("c/call", 5), ("c/macro", 1), ("lua/call", 4)]));
    let empty = site_summary(&Vec::new());
    assert_eq!((empty.files, empty.total_sites, empty.sites_by.len()), (0, 0, 0));
}

#[test]
fn sum_obj_into_accumulates_per_key_and_returns_its_own_total() {
    let mut into = w(&[("a", 1), ("c", 2)]);
    let total = sum_obj_into(&w(&[("b", 5), ("c", 3)]), &mut into);
    assert_eq!(total, 8);
    assert_eq!(into, w(&[("a", 1), ("b", 5), ("c", 5)]));
    assert_eq!(sum_obj_into(&Vec::new(), &mut into), 0);
    assert_eq!(into, w(&[("a", 1), ("b", 5), ("c", 5)]));
    assert_eq!(sum_obj(&w(&[("x", 4), ("y", 6)])), 10);
    assert_eq!(sum_obj(&Vec::new()), 0);
}
