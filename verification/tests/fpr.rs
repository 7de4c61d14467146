use ce_gates::fpr_fourclass::{fpr_gate, FprGateError};
use ce_gates::fpr_replay_parts::{pair, tally, Class, Intercept};
use ce_gates::fpr_zone::ledger::{
    merge,
    coherent, count, false_asks, pct, shadowed, table, Incoherent, Landed, ZoneRow,
};
use ce_gates::fpr_zone::walk::{filler, is_policy, replay, Tally};

/// The committed replay's figures: the full real-edit corpus of six
/// hundred samples, every one reviewed normal, and the plan's 1 % line;
/// the flagged count stands at the most the line allows.
#[test]
fn fpr_gate_holds() {
    let samples: u64 = 600;
    let gate_max_percent: u64 = 1;
    let flagged: u64 = 6;
    assert!(samples >= 500, "denominator floor: {samples}");
    assert_eq!(fpr_gate(samples, flagged, gate_max_percent), Ok(()));
}

#[test]
fn the_fpr_gate_refuses_a_short_denominator_and_one_flag_too_many() {
    assert_eq!(fpr_gate(499, 0, 1), Err(FprGateError::TooFewSamples));
    assert_eq!(fpr_gate(600, 7, 1), Err(FprGateError::TooManyFlagged));
    assert_eq!(fpr_gate(500, 5, 1), Ok(()));
}

/// The zone map of the synthetic history's `ce.toml` (S = 10, H = 30):
/// a landing is the write's position per mille into the zone, tiered at
/// the quarter and three-quarter cuts.
fn landing(lines: usize, soft: usize, hard: usize) -> Option<(usize, String)> {
    if lines <= soft {
        return None;
    }
    let permille = (lines - soft) * 1000 / (hard - soft);
    let tier = if permille < 250 {
        "observe"
    } else if permille < 750 {
        "warn"
    } else {
        "ask"
    };
    Some((permille, tier.to_string()))
}

/// A synthetic two-commit history the walk reads end to end: with
/// S = 10 and H = 30, a 26-line write is 800‰ in (ask), a 16-line
/// write is 300‰ (warn), and a 40-line write is past H — the
/// hard-budget class fires there, so the zone's ask is shadowed and
/// is not this rule's false intercept.
#[test]
fn a_synthetic_history_lands_one_ask_one_warn_and_one_shadowed() {
    let chain = vec![
        "1111111111111111111111111111111111111111".to_string(),
        "2222222222222222222222222222222222222222".to_string(),
    ];
    let writes = [("a.rs", filler(26)), ("b.rs", filler(16)), ("c.rs", filler(40))];
    let (soft, hard) = (10, 30);
    let mut t = Tally::new();
    for (rel, text) in &writes {
        let lines = text.lines().count();
        t.measure(&chain[1], rel, lines, soft, hard, true, landing(lines, soft, hard));
    }
    let c = replay("e2e", &chain, t);
    assert_eq!(
        (c.commits, c.events, c.rows.len()),
        (1, 3, 3),
        "one event per changed in-scope file, each of them in the zone"
    );
    let seen: Vec<(&str, usize, bool)> = c
        .rows
        .iter()
        .map(|r| (r.tier.as_str(), r.permille, r.shadowed))
        .collect();
    assert_eq!(
        seen,
        [("ask", 800, false), ("warn", 300, false), ("ask", 1500, true)]
    );
    assert_eq!(
        (false_asks(&c.rows), shadowed(&c.rows)),
        (1, 1),
        "the shadowed ask belongs to the hard-budget class, not to the zone"
    );
    assert_eq!(c.tip, "22222222");
    assert_eq!(c.softs, vec![(10, 3)]);
}

#[test]
fn a_policy_file_is_matched_at_the_root_or_by_its_basename() {
    assert!(is_policy("ce.toml"));
    assert!(is_policy("ce-baseline.json"));
    assert!(is_policy(".gitmodules"));
    assert!(is_policy("src/deep/.gitignore"));
    assert!(is_policy("x/.ceignore"));
    assert!(!is_policy("sub/ce.toml"));
    assert!(!is_policy("src/main.rs"));
}

#[test]
fn filler_is_that_many_inert_lines() {
    assert_eq!(filler(0), "");
    assert_eq!(filler(2), "// filler\n// filler\n");
}

#[test]
fn a_ppm_reads_as_a_four_decimal_percentage() {
    assert_eq!(pct(0), "0.0000 %");
    assert_eq!(pct(10_000), "1.0000 %");
    assert_eq!(pct(1_234), "0.1234 %");
    assert_eq!(pct(56), "0.0056 %");
    assert_eq!(pct(123_456), "12.3456 %");
}

fn landed(tier: &str, shadowed: bool) -> Landed {
    Landed {
        sha: "abcdef12".into(),
        rel: "a.rs".into(),
        lines: 26,
        soft: 10,
        hard: 30,
        permille: 800,
        tier: tier.into(),
        shadowed,
    }
}

fn row(asks: Vec<Landed>) -> ZoneRow {
    ZoneRow {
        name: "self".into(),
        tip: "abcdef12".into(),
        commits: 10,
        events: 40,
        events_shared: 30,
        config_unreadable_commits: 0,
        in_zone: 5,
        observe: 2,
        warn: 1,
        ask: 2,
        ask_shadowed: 1,
        false_asks: 1,
        rate_ppm: 25_000,
        cp_upper_ppm: 131_000,
        soft_lines: vec![(10, 15), (300, 25)],
        intercepts: asks,
    }
}

#[test]
fn a_frozen_row_closes_against_its_own_counts() {
    let r = row(vec![landed("ask", false), landed("ask", true)]);
    assert_eq!(coherent(&r, 25_000, 131_000), Ok(()));
    assert_eq!(coherent(&r, 25_001, 131_000), Err(Incoherent::Derived));
    let mut edited = row(vec![landed("ask", false), landed("ask", true)]);
    edited.false_asks = 2;
    assert_eq!(coherent(&edited, 25_000, 131_000), Err(Incoherent::Derived));
    let mut soft = row(vec![landed("ask", false), landed("ask", true)]);
    soft.soft_lines = vec![(10, 15)];
    assert_eq!(coherent(&soft, 25_000, 131_000), Err(Incoherent::SoftLines));
    let mut none = row(vec![]);
    none.events = 0;
    assert_eq!(coherent(&none, 25_000, 131_000), Err(Incoherent::Events));
    let hidden = row(vec![landed("ask", true), landed("ask", true), landed("ask", true)]);
    assert_eq!(coherent(&hidden, 25_000, 131_000), Err(Incoherent::Bounds));
}

#[test]
fn the_ledger_table_prints_one_line_per_corpus() {
    let t = table(&vec![row(vec![])]);
    let lines: Vec<&str> = t.lines().collect();
    assert_eq!(lines.len(), 3);
    assert!(lines[0].starts_with("| 语料 | 提交 |"));
    assert_eq!(
        lines[2],
        "| self @ abcdef12 | 10 | 40 | 30 | 5 | 2 | 1 | 2 | 1 | 1 | 2.5000 % | 13.1000 % |"
    );
}

#[test]
fn counts_read_tiers_and_shadows() {
    let rows = vec![landed("ask", false), landed("warn", false), landed("ask", true)];
    assert_eq!(count(&rows, "ask"), 2);
    assert_eq!(count(&rows, "observe"), 0);
    assert_eq!(shadowed(&rows), 1);
    assert_eq!(false_asks(&rows), 1);
}

fn intercept(commit: &str, rel: &str, class: Class, refire: bool, twin: Option<char>, landed: bool) -> Intercept {
    Intercept {
        commit: commit.into(),
        rel: rel.into(),
        twin: "b.rs".into(),
        parent: 0,
        child: 40,
        novel: 12,
        class,
        refire,
        twin_status: twin,
        landed,
    }
}

#[test]
fn an_intercept_row_reads_its_whole_record() {
    let r = intercept("abc1234", "src/a.rs", Class::New, false, Some('A'), true);
    assert_eq!(
        r.row(),
        "abc1234 src/a.rs -> b.rs  shared 0→40 novel 12  New first twin:A landed"
    );
    let m = intercept("abc1234", "src/a.rs", Class::Drift, true, None, false);
    assert_eq!(
        m.row(),
        "abc1234 src/a.rs -> b.rs  shared 0→40 novel 12  Drift refire mid-state"
    );
}

#[test]
fn a_class_reads_the_parent_against_the_child() {
    assert_eq!(Class::of(0, 5), Class::New);
    assert_eq!(Class::of(3, 5), Class::Extension);
    assert_eq!(Class::of(5, 5), Class::Drift);
    assert_eq!(Class::of(7, 5), Class::Drift);
}

#[test]
fn a_pair_is_unordered() {
    assert_eq!(pair("b.rs", "a.rs"), ("a.rs".to_string(), "b.rs".to_string()));
    assert_eq!(pair("a.rs", "b.rs"), ("a.rs".to_string(), "b.rs".to_string()));
    assert_eq!(pair("a", "a"), ("a".to_string(), "a".to_string()));
}

#[test]
fn the_tally_counts_events_once() {
    let rows = vec![
        intercept("c1", "a.rs", Class::New, false, Some('A'), true),
        intercept("c1", "a.rs", Class::Extension, true, None, true),
        intercept("c2", "b.rs", Class::Drift, false, Some('D'), false),
        intercept("c3", "a.rs", Class::New, true, Some('M'), false),
    ];
    let t = tally(&rows);
    assert_eq!((t.hit, t.rows), (3, 4));
    assert_eq!((t.new, t.extension, t.drift), (2, 1, 1));
    assert_eq!((t.first, t.refire), (2, 2));
    assert_eq!((t.twin_changed, t.added, t.modified, t.deleted), (3, 1, 1, 1));
    assert_eq!((t.landed, t.landed_events), (2, 1));
    assert_eq!((t.mid_state, t.mid_twin_changed, t.mid_refire), (2, 2, 1));
}

fn named(name: &str, commits: usize) -> ZoneRow {
    let mut r = row(Vec::new());
    r.name = name.into();
    r.commits = commits;
    r
}

#[test]
fn a_measured_row_replaces_its_own_name_and_leaves_the_rest() {
    let doc = vec![named("zod", 1), named("self", 2), named("express", 3)];
    let out = merge(doc, named("self", 9));
    let seen: Vec<(String, usize)> = out.iter().map(|c| (c.name.clone(), c.commits)).collect();
    assert_eq!(
        seen,
        vec![("express".to_string(), 3), ("self".to_string(), 9), ("zod".to_string(), 1)]
    );
    let again = merge(out, named("self", 9));
    let seen2: Vec<(String, usize)> = again.iter().map(|c| (c.name.clone(), c.commits)).collect();
    assert_eq!(seen2, seen);
    let fresh = merge(Vec::new(), named("self", 4));
    assert_eq!(fresh.len(), 1);
    assert_eq!((fresh[0].name.as_str(), fresh[0].commits), ("self", 4));
}
