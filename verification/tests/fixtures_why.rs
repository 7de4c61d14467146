use ce_gates::fixtures_why::paths;

#[test]
fn the_path_reading_is_narrow() {
    let why = "shaped for cli/tests/gui/lens_invariant.js (see docs/reference/gui.md); not a/b, not x.js, not /abs/p.rs";
    assert_eq!(
        paths(why),
        ["cli/tests/gui/lens_invariant.js", "docs/reference/gui.md"]
    );
}
