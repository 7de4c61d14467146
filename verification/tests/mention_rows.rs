use ce_gates::eval_mention_parts::{order, row, self_rows, universe_cell, Terms};

fn strings(v: &[&str]) -> Vec<String> {
    v.iter().map(|s| s.to_string()).collect()
}

#[test]
fn the_universe_cell_spells_only_the_rules_that_took_something() {
    let t = Terms { named_cut: 0, nested: 10, pattern_ignored: 0, excluded: 20, absent: 0, oversize: 0, binary: 3 };
    assert_eq!(universe_cell(120, 153, &t), "120 (153 \u{2212} 10 nested \u{2212} 20 excluded \u{2212} 3 early-NUL)");
    let none = Terms { named_cut: 0, nested: 0, pattern_ignored: 0, excluded: 0, absent: 0, oversize: 0, binary: 0 };
    assert_eq!(universe_cell(7, 7, &none), "7 (7)");
}

#[test]
fn an_empty_cell_is_one_space() {
    assert_eq!(row(&strings(&["a", "", "b c"])), "| a | | b c |");
    assert_eq!(row(&strings(&[])), "||");
}

#[test]
fn the_largest_domain_opens_the_self_rows() {
    let langs = vec![("rust".to_string(), 10), ("go".to_string(), 20), ("c".to_string(), 10)];
    assert_eq!(order(&langs), vec![1, 2, 0]);
    let cols = vec![strings(&["10 (2)"]), strings(&["20 (5)"]), strings(&["10 (1)"])];
    let rows = self_rows("U (V)", &langs, &cols);
    assert_eq!(
        rows,
        strings(&[
            "| self @ this commit | U (V) | go | 20 (5) |",
            "| | | c | 10 (1) |",
            "| | | rust | 10 (2) |",
        ])
    );
}
