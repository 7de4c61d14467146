use ce_gates::eval_support::mention::{
    count_shapes, late_nul, pkg_test_dir, shape_of, under_test, Ledger, Shape,
};

fn strings(v: &[&str]) -> Vec<String> {
    v.iter().map(|s| s.to_string()).collect()
}

#[test]
fn a_dollar_run_is_read_by_its_shape() {
    assert_eq!(shape_of("$$"), Some(Shape::Bare));
    assert_eq!(shape_of("$el"), Some(Shape::Leading));
    assert_eq!(shape_of("el$"), Some(Shape::Trailing));
    assert_eq!(shape_of("a$b"), Some(Shape::Inner));
    assert_eq!(shape_of("plain"), None);
    assert_eq!(count_shapes(&strings(&["$", "$x", "$y", "x$", "q"])), (1, 2, 1, 0));
}

#[test]
fn the_late_nul_and_test_components_are_read_from_the_path() {
    assert!(late_nul("art/logo.ai"));
    assert!(late_nul("art/print.eps"));
    assert!(!late_nul("art/logo.ai.txt"));
    assert!(under_test("crates/core/test/fixture.rs"));
    assert!(!under_test("crates/core/tests/fixture.rs"));
    assert!(!under_test("test"));
    assert!(!under_test("src/test"));
}

#[test]
fn each_file_adds_its_arm_to_the_ledger() {
    let mut l = Ledger::default();
    l.add_file("src/lib.rs", false, 3, &vec![]);
    l.add_file("art/logo.ai", false, 5, &vec![]);
    l.add_file("web/test/app.js", true, 9, &strings(&["$", "$el", "x$", "a$b", "plain"]));
    assert_eq!(l.union_rows_full, 8);
    assert_eq!(l.union_rows_no_late_nul, 3);
    assert_eq!((l.dollar_bare, l.dollar_leading, l.dollar_trailing, l.dollar_inner), (1, 1, 1, 1));
    assert_eq!(l.test_singular_files, 1);
}

#[test]
fn the_js_collateral_counts_pieces_no_file_spells() {
    let mut l = Ledger::default();
    l.js_collateral(
        &strings(&["el", "jq", "fn"]),
        &strings(&["el", "main"]),
        &strings(&["fn", "other"]),
    );
    assert_eq!((l.js_suppressed, l.js_no_other_source, l.js_domain), (3, 2, 1));
}

#[test]
fn protocol_hits_count_per_name_and_directories_enter_once() {
    let mut l = Ledger::default();
    l.protocol_hit("rust:Drop");
    l.protocol_hit("go:String");
    l.protocol_hit("rust:Drop");
    assert_eq!(
        l.protocol_hits,
        vec![("rust:Drop".to_string(), 2), ("go:String".to_string(), 1)]
    );
    l.add_pkg_test_dir("crates/a/benches");
    l.add_pkg_test_dir("crates/a/benches");
    l.add_pkg_test_dir("examples");
    assert_eq!(l.pkg_test_dirs, strings(&["crates/a/benches", "examples"]));
    l.add_advisory("src/a.rs:3 (helper) via [\"src/b.rs\"]");
    assert_eq!(l.union_advisory_diff, 1);
    assert_eq!(l.union_advisory_rows.len(), 1);
}

#[test]
fn a_package_test_directory_is_where_the_test_bit_turns_on() {
    let rel = "crates/core/benches/bench.rs";
    // dirs: crates, core, benches; tested[i] is the bit under the first i dirs
    assert_eq!(
        pkg_test_dir(rel, &vec![false, false, false, true]),
        Some("crates/core/benches".to_string())
    );
    assert_eq!(pkg_test_dir(rel, &vec![false, false, true, true]), None);
    assert_eq!(pkg_test_dir("src/main.rs", &vec![false, false]), None);
    assert_eq!(pkg_test_dir("examples/demo.rs", &vec![false, true]), Some("examples".to_string()));
}

#[test]
fn a_declaration_is_an_advisory_only_when_the_union_emitter_alone_vetoes_it() {
    let mut l = Ledger::default();
    l.add_decl(true, false, "src/a.rs:3 (Foo) via [\"b.md\"]", Some("rust:Drop"), Some("crates/x/benches"));
    l.add_decl(true, true, "unused", None, None);
    l.add_decl(false, false, "unused", Some("rust:Drop"), Some("crates/x/benches"));
    assert_eq!(l.union_advisory_diff, 1);
    assert_eq!(l.union_advisory_rows, vec!["src/a.rs:3 (Foo) via [\"b.md\"]".to_string()]);
    assert_eq!(l.protocol_hits, vec![("rust:Drop".to_string(), 2)]);
    assert_eq!(l.pkg_test_dirs, vec!["crates/x/benches".to_string()]);
}
