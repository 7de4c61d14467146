use ce_gates::facts::restate::{pct1, resolve, slug, tables};

fn ok(r: Result<String, ce_gates::facts::restate::RestateError>) -> String {
    match r {
        Ok(v) => v,
        Err(_) => panic!("a refusal where a value was expected"),
    }
}

#[test]
fn a_table_is_read_back_by_slugs() {
    // two tables open with `corpus`; only the first has a `U` column
    let doc = "text\n\n| corpus | U | declared (exported) | unmentioned (exported) |\n|---|---|---|---|\n| self @ this commit | 764 | 2021 (1102) | 297 (0) |\n| | | 1333 (309) | 307 (2) |\n| zod 912f0f5 | 536 | 1944 (1127) | 353 (197) |\n\nafter\n\n| corpus | rows |\n|---|---|\n| zod 912f0f5 | 3 |\n";
    let t = tables(doc);
    assert_eq!(t.len(), 2);
    assert_eq!(t[0].headers[0], "corpus");
    assert_eq!(t[0].headers[2], "declared-exported");
    assert_eq!(ok(resolve(doc, "restate:rows:zod-912f0f5:rows#lead")), "3");
    assert_eq!(t[0].rows[0].0, "self-this-commit");
    assert_eq!(t[0].rows[1].0, "1333-309");
    assert_eq!(
        ok(resolve(doc, "restate:u:zod-912f0f5:declared-exported#paren")),
        "1127"
    );
    assert_eq!(
        ok(resolve(doc, "restate:u:zod-912f0f5:declared-exported#lead")),
        "1944"
    );
    assert_eq!(
        ok(resolve(
            doc,
            "restate:u:zod-912f0f5:unmentioned-exported/declared-exported#paren-pct1"
        )),
        "17.5"
    );
    assert_eq!(
        ok(resolve(
            doc,
            "restate:u:self-this-commit:unmentioned-exported/declared-exported#paren-pct1"
        )),
        "0.0"
    );
    assert_eq!(pct1(313, 481), "65.1");
    assert_eq!(pct1(1, 8), "12.5");
    assert_eq!(pct1(1, 16), "6.3");
    assert_eq!(slug("declared (exported)"), "declared-exported");
}
