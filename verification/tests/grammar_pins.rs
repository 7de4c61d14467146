use ce_gates::grammar_pins::{check_pin, judge_root, kinds, parsed, pins, PinFault};

/// Every pinned grammar speaks the core's ABI window, parses its
/// sample without an error node and yields the expected root kind.
#[test]
fn every_pinned_grammar_speaks_the_core_abi_and_parses_its_sample() {
    for pin in pins() {
        assert_eq!(check_pin(&pin), Ok(()), "{}: pin", pin.name);
    }
}

/// The two Haskell node kinds the scan spec anchors on: the bind and
/// its conditional body must be visible, else function extraction and
/// CoC have nothing to stand on.
#[test]
fn haskell_exposes_the_bind_and_the_conditional() {
    let pin = &pins()[0];
    let tree = match parsed(pin.grammar, &pin.sample) {
        Ok(t) => t,
        Err(e) => panic!("{}: {e:?}", pin.name),
    };
    let kinds = kinds(&tree);
    assert!(kinds.iter().any(|k| k == "function"), "no function node: {kinds:?}");
    assert!(
        kinds.iter().any(|k| k == "conditional"),
        "no conditional node: {kinds:?}"
    );
}

#[test]
fn a_root_of_another_kind_or_with_an_error_is_refused() {
    assert_eq!(judge_root("program", false, "program"), Ok(()));
    assert_eq!(
        judge_root("chunk", false, "program"),
        Err(PinFault::RootKind("chunk".to_string()))
    );
    assert_eq!(judge_root("program", true, "program"), Err(PinFault::Misparsed));
}
