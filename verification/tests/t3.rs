use ce_gates::eval_t3_precision_parts::{clone_at, rescore, theta_table, verdict_of, T3Row};

fn t3(scored: Option<(i64, i64, i64)>, truth: &str, verdict: &str, lang: &str) -> T3Row {
    T3Row { scored, truth: truth.to_string(), verdict: verdict.to_string(), lang: lang.to_string() }
}

fn kv(pairs: &[(&str, u64)]) -> Vec<(String, u64)> {
    pairs.iter().map(|(k, n)| (k.to_string(), *n)).collect()
}

#[test]
fn a_clone_is_read_at_any_grid_threshold() {
    assert!(clone_at(15, 100, 90, 85));
    assert!(!clone_at(16, 100, 90, 85));
    assert!(clone_at(0, 10, 10, 100));
    assert!(!clone_at(1, 10, 10, 100));
    assert!(clone_at(30, 90, 100, 70));
}

#[test]
fn a_verdict_is_recomputed_from_its_row() {
    assert_eq!(verdict_of("over_cap", true, "clone"), "dropped");
    assert_eq!(verdict_of("forest", false, "clone"), "dropped");
    assert_eq!(verdict_of("ok", false, "clone"), "not_clone");
    assert_eq!(verdict_of("ok", true, "variant"), "correct");
    assert_eq!(verdict_of("ok", true, "t1t2"), "correct");
    assert_eq!(verdict_of("ok", true, "boilerplate"), "wrong");
}

#[test]
fn the_theta_table_counts_judged_clones_per_threshold() {
    let rows = vec![
        t3(Some((10, 100, 80)), "clone", "correct", "rust"),
        t3(Some((20, 100, 100)), "unrelated", "wrong", "rust"),
        t3(None, "clone", "dropped", "go"),
        t3(Some((5, 10, 10)), "t1t2", "correct", "go"),
    ];
    let t = theta_table(&rows);
    assert_eq!(t.len(), 7);
    assert_eq!(t[0], (70, 1, 1));
    assert_eq!(t[2], (80, 1, 1));
    assert_eq!(t[3], (85, 1, 0));
    assert_eq!(t[4], (90, 1, 0));
    assert_eq!(t[5], (95, 0, 0));
    assert_eq!(t[6], (100, 0, 0));
}

#[test]
fn the_summary_rescores_from_the_rows_alone() {
    let rows = vec![
        t3(Some((10, 100, 80)), "clone", "correct", "rust"),
        t3(Some((20, 100, 100)), "unrelated", "wrong", "rust"),
        t3(None, "clone", "dropped", "go"),
        t3(Some((5, 10, 10)), "t1t2", "correct", "go"),
        t3(Some((50, 100, 100)), "boilerplate", "not_clone", "rust"),
    ];
    let s = rescore(&rows);
    assert_eq!(s.verdicts, kv(&[("correct", 2), ("dropped", 1), ("not_clone", 1), ("wrong", 1)]));
    assert_eq!(s.by_truth, kv(&[("boilerplate", 1), ("clone", 2), ("t1t2", 1), ("unrelated", 1)]));
    assert_eq!(s.by_lang.len(), 2);
    assert_eq!(s.by_lang[0].0, "go");
    assert_eq!(s.by_lang[0].1, kv(&[("correct", 1), ("dropped", 1)]));
    assert_eq!(s.by_lang[1].0, "rust");
    assert_eq!(s.by_lang[1].1, kv(&[("correct", 1), ("not_clone", 1), ("wrong", 1)]));
    assert_eq!(s.answered, 3);
    assert_eq!(s.theta, theta_table(&rows));
    let none = rescore(&Vec::new());
    assert!(none.verdicts.is_empty() && none.by_lang.is_empty());
    assert_eq!(none.answered, 0);
}
