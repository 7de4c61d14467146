use ce_gates::eval_similar_precision::{
    floors_ok, generation_of, holdout, row_ok, summary_ok, Arbitrated, FloorFault, HoldoutFault, OracleRow,
    RowFault, SummaryFault,
};
use ce_gates::eval_similar_precision_parts::{arm_metrics, metrics, Arm, Candidate};

fn c(same: bool, role: Option<bool>, clone: Option<bool>, bare: Option<u64>, widened: Option<u64>) -> Candidate {
    Candidate { same_role: same, role, clone, bare, widened }
}

fn rows() -> Vec<Vec<Candidate>> {
    vec![
        vec![
            c(true, Some(true), Some(false), Some(1), Some(2)),
            c(false, Some(false), Some(true), Some(2), Some(1)),
        ],
        vec![
            c(false, Some(true), Some(false), Some(1), None),
            c(true, None, None, Some(3), Some(1)),
        ],
        vec![c(false, Some(false), Some(false), None, None)],
    ]
}

#[test]
fn the_metric_block_is_rederived_from_the_rows() {
    let m = metrics(&rows());
    assert_eq!(m.queries, 3);
    assert_eq!(m.candidates, 5);
    assert_eq!(m.bare.p_at_1, (1, 2));
    assert_eq!(m.bare.p_at_1_nonclone, (1, 2));
    assert_eq!(m.bare.p_at_1_role1, (1, 2));
    assert_eq!(m.bare.p_at_1_role0, (0, 0));
    assert_eq!(m.bare.hit_at_5, (2, 3));
    assert_eq!(m.widened.p_at_1, (1, 2));
    assert_eq!(m.widened.p_at_1_nonclone, (0, 0));
    assert_eq!(m.widened.p_at_1_role0, (0, 1));
    assert_eq!(m.widened.hit_at_5, (2, 3));
    assert_eq!((m.tp, m.fp, m.fn_, m.tn), (1, 1, 0, 2));
}

#[test]
fn an_arm_that_answers_nothing_scores_an_empty_population() {
    let quiet = vec![vec![c(true, Some(true), Some(false), None, None)]];
    let a = arm_metrics(&quiet, Arm::Bare);
    assert_eq!(a.p_at_1, (0, 0));
    assert_eq!(a.hit_at_5, (0, 1));
}

fn names(v: &[&str]) -> Vec<String> {
    v.iter().map(|s| s.to_string()).collect()
}

#[test]
fn a_generation_reads_its_field_and_the_first_predates_it() {
    assert_eq!(generation_of(None), 1);
    assert_eq!(generation_of(Some(2)), 2);
}

#[test]
fn a_holdout_names_its_predecessor_and_arbitrates_nothing_twice() {
    let mut seen = Vec::new();
    assert!(holdout(1, &None, &names(&["b", "a"]), &mut seen).is_ok());
    assert_eq!(seen, names(&["a", "b"]));
    let named = Some("similar-oracle-v1".to_string());
    assert!(holdout(2, &named, &names(&["c"]), &mut seen).is_ok());
    assert_eq!(seen, names(&["a", "b", "c"]));
    assert!(matches!(holdout(2, &None, &names(&["d"]), &mut seen), Err(HoldoutFault::HoldoutOf)));
    assert!(matches!(
        holdout(3, &Some("similar-oracle-v1".to_string()), &names(&["d"]), &mut seen),
        Err(HoldoutFault::HoldoutOf)
    ));
    match holdout(3, &Some("similar-oracle-v2".to_string()), &names(&["d", "b"]), &mut seen) {
        Err(HoldoutFault::Rearbitrated { rank }) => assert_eq!(rank, "b"),
        other => panic!("{other:?}"),
    }
    assert_eq!(seen, names(&["a", "b", "c"]));
    assert!(matches!(
        holdout(3, &Some("similar-oracle-v2".to_string()), &names(&["e", "e"]), &mut seen),
        Err(HoldoutFault::Rearbitrated { .. })
    ));
}

fn arb(truth: &str, clone: Option<bool>, why: &str) -> Arbitrated {
    Arbitrated { truth: truth.to_string(), clone, why: why.to_string() }
}

#[test]
fn an_oracle_row_carries_its_rank_truths_flags_and_whys() {
    let why = "a reason that runs well past the forty-character floor";
    let good = vec![arb("same_role", Some(true), why), arb("unrelated", Some(false), why)];
    assert!(row_ok("abc", "abc", &good).is_ok());
    assert!(matches!(row_ok("abc", "abd", &good), Err(RowFault::Rank)));
    let word = vec![arb("same_role", Some(true), why), arb("kin", Some(true), why)];
    assert!(matches!(row_ok("abc", "abc", &word), Err(RowFault::Truth { at: 1 })));
    let flag = vec![arb("related", None, why)];
    assert!(matches!(row_ok("abc", "abc", &flag), Err(RowFault::CloneFlag { at: 0 })));
    let short = vec![arb("related", Some(false), "a label")];
    assert!(matches!(row_ok("abc", "abc", &short), Err(RowFault::Why { at: 0 })));
}

fn oracle_rows(n: usize) -> Vec<OracleRow> {
    (0..n)
        .map(|i| OracleRow {
            corpus: if i % 2 == 0 { "zod".to_string() } else { "self".to_string() },
            rank: format!("{i:04}"),
            candidates: rows()[i % 3].clone(),
        })
        .collect()
}

#[test]
fn the_summary_rederives_from_its_rows_and_each_corpus_has_rows() {
    let rs = oracle_rows(120);
    let all_c: Vec<Vec<Candidate>> = rs.iter().map(|r| r.candidates.clone()).collect();
    let zod: Vec<Vec<Candidate>> = rs.iter().filter(|r| r.corpus == "zod").map(|r| r.candidates.clone()).collect();
    let all = metrics(&all_c);
    let corpora = vec![("zod".to_string(), metrics(&zod))];
    assert!(summary_ok(&rs, &all, &corpora).is_ok());
    assert!(matches!(summary_ok(&oracle_rows(99), &all, &corpora), Err(SummaryFault::Few)));
    let mut swapped = oracle_rows(120);
    swapped.swap(3, 4);
    assert!(matches!(summary_ok(&swapped, &all, &corpora), Err(SummaryFault::Unsorted)));
    let mut cooked = all;
    cooked.tp += 1;
    assert!(matches!(summary_ok(&rs, &cooked, &corpora), Err(SummaryFault::Summary)));
    let ghost = vec![("lodash".to_string(), metrics(&zod))];
    assert!(matches!(summary_ok(&rs, &all, &ghost), Err(SummaryFault::NoRow { corpus }) if corpus == "lodash"));
    let mut off = metrics(&zod);
    off.candidates += 1;
    let wrong = vec![("zod".to_string(), metrics(&zod)), ("self".to_string(), off)];
    assert!(matches!(
        summary_ok(&rs, &all, &wrong),
        Err(SummaryFault::CorpusSummary { corpus }) if corpus == "self"
    ));
}

#[test]
fn the_published_numbers_hold_their_floor() {
    let mut m = metrics(&rows());
    m.bare.p_at_1_role1 = (39, 59);
    m.bare.hit_at_5 = (74, 118);
    m.tp = 101;
    m.fp = 64;
    assert!(floors_ok(&m, 60).is_ok());
    m.bare.p_at_1_role1 = (30, 56);
    assert!(matches!(floors_ok(&m, 60), Err(FloorFault::Role1 { n: 30, d: 56 })));
    m.bare.p_at_1_role1 = (39, 59);
    m.bare.hit_at_5 = (69, 115);
    assert!(floors_ok(&m, 60).is_ok());
    m.tp = 86;
    m.fp = 91;
    assert!(matches!(floors_ok(&m, 60), Err(FloorFault::RoleBit { n: 86, d: 177 })));
    assert!(floors_ok(&m, 40).is_ok());
}
