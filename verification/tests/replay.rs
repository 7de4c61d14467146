use ce_gates::fpr_replay::{event_rows, landed, novel, shared, tokens_with, Match};
use ce_gates::fpr_replay_parts::Class;

fn m(file: &str, start_line: usize, end_line: usize, tokens: usize) -> Match {
    Match { file: file.to_string(), start_line, end_line, tokens }
}

#[test]
fn a_match_the_parent_already_had_is_carried_not_written() {
    let child = vec![m("b.rs", 10, 20, 30), m("c.rs", 5, 9, 12), m("b.rs", 40, 50, 5)];
    let parent = vec![m("b.rs", 15, 30, 9)];
    let n = novel(&child, &parent);
    let files: Vec<&str> = n.iter().map(|x| x.file.as_str()).collect();
    assert_eq!(files, vec!["c.rs", "b.rs"]);
    assert_eq!(n[1].start_line, 40);
}

#[test]
fn shared_tokens_are_summed_per_twin() {
    let ms = vec![m("c.rs", 1, 2, 12), m("b.rs", 10, 20, 30), m("b.rs", 40, 50, 5)];
    assert_eq!(shared(&ms), vec![("b.rs".to_string(), 35), ("c.rs".to_string(), 12)]);
    assert_eq!(tokens_with(&ms, &"b.rs".chars().collect::<Vec<_>>()), 35);
    assert_eq!(tokens_with(&ms, &"z.rs".chars().collect::<Vec<_>>()), 0);
}

#[test]
fn an_event_reads_each_twin_against_the_parent() {
    let base = vec![m("b.rs", 1, 5, 10)];
    let child = vec![m("b.rs", 20, 30, 25), m("c.rs", 1, 3, 8)];
    let mut fired = vec![("a.rs".to_string(), "c.rs".to_string())];
    let touched = vec![("b.rs".to_string(), 'M')];
    let rows = event_rows("0123456789abcdef", "a.rs", &base, &child, &mut fired, &touched);
    assert_eq!(rows.len(), 2);
    assert_eq!(rows[0].commit, "01234567");
    assert_eq!(rows[0].twin, "b.rs");
    assert_eq!((rows[0].parent, rows[0].child, rows[0].novel), (10, 25, 25));
    assert_eq!(rows[0].class, Class::Extension);
    assert!(!rows[0].refire);
    assert_eq!(rows[0].twin_status, Some('M'));
    assert_eq!(rows[1].twin, "c.rs");
    assert_eq!(rows[1].class, Class::New);
    assert!(rows[1].refire);
    assert_eq!(rows[1].twin_status, None);
    assert!(!rows[1].landed);
    assert_eq!(fired.len(), 2);
    assert_eq!(fired[1], ("a.rs".to_string(), "b.rs".to_string()));
    assert!(landed(&vec![m("b.rs", 1, 2, 3)], "b.rs"));
    assert!(!landed(&vec![m("b.rs", 1, 2, 3)], "c.rs"));
}
