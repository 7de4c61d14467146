//! Grammar pins: every grammar crate the CLI pins must speak an ABI the
//! pinned tree-sitter core accepts (13..=15), parse its sample without
//! an error node and yield the root kind its tables anchor on — so a
//! dependency bump that breaks a grammar fails here by name instead of
//! degrading scan output.

use crate::text::{chars_of, same, string_of, views, Chars};
use vstd::prelude::*;

verus! {

/// The pinned grammars.
#[derive(Clone, Copy, Debug, PartialEq, Eq, Structural)]
pub enum Grammar {
    Haskell,
    C,
    Cpp,
    Lua,
    Java,
    R,
    Html,
}

#[verifier::external_type_specification]
#[verifier::external_body]
pub struct ExTree(tree_sitter::Tree);

/// The ABI version `tree_sitter::Language::abi_version` reports for a
/// grammar's language.
pub uninterp spec fn grammar_abi(g: Grammar) -> usize;

/// Whether `tree_sitter::Language::is_parseable` holds of a grammar's
/// language (the check `Parser::set_language` makes inside the ABI
/// window).
pub uninterp spec fn grammar_parseable(g: Grammar) -> bool;

/// The oldest and newest ABI the pinned core accepts
/// (`MIN_COMPATIBLE_LANGUAGE_VERSION`, `LANGUAGE_VERSION`).
pub const MIN_ABI: usize = 13;
pub const MAX_ABI: usize = 15;

/// `tree_sitter::Language::abi_version` of the grammar's language (the
/// crate's `LANGUAGE` turned into a `Language`). Claimed: the result is
/// the grammar's ABI, a function of the grammar alone.
#[verifier::external_body]
fn abi_version(g: Grammar) -> (v: usize)
    ensures
        v == grammar_abi(g),
{
    tree_sitter::Language::from(match g {
        Grammar::Haskell => tree_sitter_haskell::LANGUAGE,
        Grammar::C => tree_sitter_c::LANGUAGE,
        Grammar::Cpp => tree_sitter_cpp::LANGUAGE,
        Grammar::Lua => tree_sitter_lua::LANGUAGE,
        Grammar::Java => tree_sitter_java::LANGUAGE,
        Grammar::R => tree_sitter_r::LANGUAGE,
        Grammar::Html => tree_sitter_html::LANGUAGE,
    }).abi_version()
}

/// Why `Parser::set_language` refused a language.
#[derive(Clone, Copy, Debug, PartialEq, Eq, Structural)]
pub enum SetLanguageError {
    /// The ABI version outside the core's window.
    Version(usize),
    /// A language that cannot be used for parsing.
    NotParseable,
}

/// What the grammar's parser makes of a text, read as the tree's node
/// kinds (as `tree_kinds` lists them) and whether its root holds an
/// error node; `None` where the parse yields no tree. A function of the
/// grammar and the text alone: a fresh parser, no previous tree, no
/// progress callback.
pub uninterp spec fn sample_parse(g: Grammar, text: Seq<char>) -> Option<(Seq<Chars>, bool)>;

/// `tree_sitter::Parser::new`, `Parser::set_language` with the
/// grammar's language, then `Parser::parse` of the text with no
/// previous tree. Claimed, as the source reads: `set_language`
/// succeeds exactly when the ABI lies in 13..=15 and the language is
/// parseable, and outside the window its error carries the ABI; the
/// parse then gives the tree `sample_parse` names, or none. Nothing is
/// claimed of when the parse gives no tree (the source returns none on
/// an external scanner's error).
#[verifier::external_body]
fn parse_sample(g: Grammar, text: &str) -> (r: Result<Option<tree_sitter::Tree>, SetLanguageError>)
    ensures
        match r {
            Ok(Some(t)) => MIN_ABI <= grammar_abi(g) <= MAX_ABI && grammar_parseable(g) && sample_parse(
                g,
                text@,
            ) == Some((tree_kinds(t), tree_has_error(t))),
            Ok(None) => MIN_ABI <= grammar_abi(g) <= MAX_ABI && grammar_parseable(g) && sample_parse(
                g,
                text@,
            ) is None,
            Err(SetLanguageError::Version(v)) => v == grammar_abi(g) && !(MIN_ABI <= grammar_abi(g)
                <= MAX_ABI),
            Err(SetLanguageError::NotParseable) => MIN_ABI <= grammar_abi(g) <= MAX_ABI
                && !grammar_parseable(g),
        },
{
    let lang = tree_sitter::Language::from(match g {
        Grammar::Haskell => tree_sitter_haskell::LANGUAGE, Grammar::C => tree_sitter_c::LANGUAGE,
        Grammar::Cpp => tree_sitter_cpp::LANGUAGE, Grammar::Lua => tree_sitter_lua::LANGUAGE,
        Grammar::Java => tree_sitter_java::LANGUAGE, Grammar::R => tree_sitter_r::LANGUAGE,
        Grammar::Html => tree_sitter_html::LANGUAGE,
    });
    let mut p = tree_sitter::Parser::new();
    match p.set_language(&lang) {
        Ok(()) => Ok(p.parse(text, None)),
        Err(tree_sitter::LanguageError::Version(v)) => Err(SetLanguageError::Version(v)),
        Err(_) => Err(SetLanguageError::NotParseable),
    }
}

/// Whether the tree's root holds an error node (`Node::has_error` of
/// the root): a second thing the contracts read of a tree.
pub uninterp spec fn tree_has_error(t: tree_sitter::Tree) -> bool;

/// `tree_sitter::Node::has_error` of the tree's root. Claimed: the
/// result is the tree's error flag.
#[verifier::external_body]
fn root_has_error(t: &tree_sitter::Tree) -> (b: bool)
    ensures
        b == tree_has_error(*t),
{
    t.root_node().has_error()
}

/// The kinds of a tree's nodes — every node the tree shows (named or
/// anonymous), depth first from the root, a node before its children
/// and the children in order: the tree read as the sequence of what it
/// holds.
pub uninterp spec fn tree_kinds(t: tree_sitter::Tree) -> Seq<Chars>;

/// `tree_sitter::Node::descendant_count` of the tree's root. Claimed,
/// as the source reads: the count of the root's descendants with one
/// for the root itself — the number of nodes the tree shows.
#[verifier::external_body]
fn node_total(t: &tree_sitter::Tree) -> (n: usize)
    ensures
        n == tree_kinds(*t).len(),
        n >= 1,
{
    t.root_node().descendant_count()
}

/// `tree_sitter::TreeCursor::goto_descendant` from the tree's root,
/// then `tree_sitter::Node::kind` of the node it lands on, as an owned
/// string. Claimed, as the source reads: descendant `i` counts the
/// nodes in the order `tree_kinds` lists them, 0 being the root.
#[verifier::external_body]
fn kind_at(t: &tree_sitter::Tree, i: usize) -> (k: String)
    requires
        i < tree_kinds(*t).len(),
    ensures
        k@ == tree_kinds(*t)[i as int],
{
    let mut cursor = t.walk();
    cursor.goto_descendant(i);
    cursor.node().kind().to_string()
}

/// One pinned grammar: the crate, its grammar, a sample it must parse
/// cleanly, and the root kind that sample yields.
pub struct Pin {
    pub name: String,
    pub grammar: Grammar,
    pub sample: String,
    pub root_kind: String,
}

fn pin(name: &str, grammar: Grammar, sample: &str, root_kind: &str) -> (p: Pin)
    ensures
        p.name@ == name@,
        p.grammar == grammar,
        p.sample@ == sample@,
        p.root_kind@ == root_kind@,
{
    Pin {
        name: string_of(&chars_of(name)),
        grammar,
        sample: string_of(&chars_of(sample)),
        root_kind: string_of(&chars_of(root_kind)),
    }
}

/// The pins: every grammar crate the CLI links, in the table's order.
pub fn pins() -> (out: Vec<Pin>)
    ensures
        out@.len() == 7,
        out@[0].grammar == Grammar::Haskell && out@[0].root_kind@ == "haskell"@,
        out@[1].grammar == Grammar::C && out@[1].root_kind@ == "translation_unit"@,
        out@[2].grammar == Grammar::Cpp && out@[2].root_kind@ == "translation_unit"@,
        out@[3].grammar == Grammar::Lua && out@[3].root_kind@ == "chunk"@,
        out@[4].grammar == Grammar::Java && out@[4].root_kind@ == "program"@,
        out@[5].grammar == Grammar::R && out@[5].root_kind@ == "program"@,
        out@[6].grammar == Grammar::Html && out@[6].root_kind@ == "document"@,
{
    let mut out: Vec<Pin> = Vec::new();
    out.push(
        pin(
            "tree-sitter-haskell",
            Grammar::Haskell,
            "module M where\n\nf :: Int -> Int\nf x = if x > 0 then x else negate x\n",
            "haskell",
        ),
    );
    out.push(
        pin(
            "tree-sitter-c",
            Grammar::C,
            "int f(int x) {\n  if (x > 0) {\n    return x;\n  }\n  return -x;\n}\n",
            "translation_unit",
        ),
    );
    out.push(
        pin(
            "tree-sitter-cpp",
            Grammar::Cpp,
            "namespace n {\nclass K {\n public:\n  int f(int x) const { return x > 0 ? x : -x; }\n};\n}\n",
            "translation_unit",
        ),
    );
    out.push(
        pin(
            "tree-sitter-lua",
            Grammar::Lua,
            "local function f(x)\n  if x > 0 then\n    return x\n  end\n  return -x\nend\n",
            "chunk",
        ),
    );
    out.push(
        pin(
            "tree-sitter-java",
            Grammar::Java,
            "class K {\n  int f(int x) {\n    if (x > 0) {\n      return x;\n    }\n    return -x;\n  }\n}\n",
            "program",
        ),
    );
    out.push(
        pin(
            "tree-sitter-r",
            Grammar::R,
            "f <- function(x) {\n  if (x > 0) x else -x\n}\n",
            "program",
        ),
    );
    out.push(
        pin(
            "tree-sitter-html",
            Grammar::Html,
            "<!doctype html>\n<html><head><title>t</title></head><body><a href=\"#x\">x</a></body></html>\n",
            "document",
        ),
    );
    out
}

/// Why a pinned grammar fails its pin.
#[derive(Clone, Debug, PartialEq, Eq)]
pub enum PinFault {
    /// An ABI outside the core's 13..=15 window.
    Abi(usize),
    /// `set_language` refused the language.
    Incompatible(SetLanguageError),
    /// The parse returned nothing.
    NoTree,
    /// The sample's root is of another kind.
    RootKind(String),
    /// The sample parses with an error node.
    Misparsed,
}

/// The parsed sample of one grammar, with its ABI checked and
/// `set_language` refused by name.
pub fn parsed(g: Grammar, sample: &str) -> (r: Result<tree_sitter::Tree, PinFault>)
    ensures
        match r {
            Err(PinFault::Abi(v)) => v == grammar_abi(g) && !(MIN_ABI <= grammar_abi(g) <= MAX_ABI),
            Err(PinFault::Incompatible(e)) => MIN_ABI <= grammar_abi(g) <= MAX_ABI
                && !grammar_parseable(g) && e == SetLanguageError::NotParseable,
            Err(PinFault::NoTree) => MIN_ABI <= grammar_abi(g) <= MAX_ABI && grammar_parseable(g)
                && sample_parse(g, sample@) is None,
            Ok(t) => MIN_ABI <= grammar_abi(g) <= MAX_ABI && grammar_parseable(g) && sample_parse(
                g,
                sample@,
            ) == Some((tree_kinds(t), tree_has_error(t))),
            Err(_) => false,
        },
{
    let abi = abi_version(g);
    if !(MIN_ABI <= abi && abi <= MAX_ABI) {
        return Err(PinFault::Abi(abi));
    }
    match parse_sample(g, sample) {
        Ok(Some(t)) => Ok(t),
        Ok(None) => Err(PinFault::NoTree),
        Err(SetLanguageError::Version(v)) => Err(PinFault::Abi(v)),
        Err(e) => Err(PinFault::Incompatible(e)),
    }
}

/// A sample's root against its pin: its kind (`kind`), whether it holds
/// an error node (`has_error`), and the kind the pin wants.
pub fn judge_root(kind: &str, has_error: bool, want: &str) -> (r: Result<(), PinFault>)
    ensures
        match r {
            Ok(()) => kind@ == want@ && !has_error,
            Err(PinFault::RootKind(k)) => kind@ != want@ && k@ == kind@,
            Err(PinFault::Misparsed) => kind@ == want@ && has_error,
            Err(_) => false,
        },
{
    if !same(&chars_of(kind), &chars_of(want)) {
        return Err(PinFault::RootKind(string_of(&chars_of(kind))));
    }
    if has_error {
        return Err(PinFault::Misparsed);
    }
    Ok(())
}

/// A pin's sample as its grammar parses it: the ABI in the core's
/// window, the language parseable, a tree made, its root of the pinned
/// kind and without an error node.
pub open spec fn pin_holds(pin: Pin) -> bool {
    &&& MIN_ABI <= grammar_abi(pin.grammar) <= MAX_ABI
    &&& grammar_parseable(pin.grammar)
    &&& sample_parse(pin.grammar, pin.sample@) matches Some((ks, err)) && ks[0] == pin.root_kind@ && !err
}

/// One pin held: its grammar speaks the core's ABI window, parses its
/// sample, and the root is of the pinned kind with no error node.
pub fn check_pin(pin: &Pin) -> (r: Result<(), PinFault>)
    ensures
        r is Ok <==> pin_holds(*pin),
        r matches Err(PinFault::Abi(v)) <==> !(MIN_ABI <= grammar_abi(pin.grammar) <= MAX_ABI),
        r matches Err(PinFault::Abi(v)) ==> v == grammar_abi(pin.grammar),
        r matches Err(PinFault::Incompatible(_)) <==> MIN_ABI <= grammar_abi(pin.grammar)
            <= MAX_ABI && !grammar_parseable(pin.grammar),
        r matches Err(PinFault::NoTree) <==> MIN_ABI <= grammar_abi(pin.grammar) <= MAX_ABI
            && grammar_parseable(pin.grammar) && sample_parse(pin.grammar, pin.sample@) is None,
        r matches Err(PinFault::RootKind(k)) ==> sample_parse(pin.grammar, pin.sample@) matches Some((ks, _))
            && ks.len() >= 1 && k@ == ks[0] && ks[0] != pin.root_kind@,
        r matches Err(PinFault::Misparsed) ==> sample_parse(pin.grammar, pin.sample@) matches Some((ks, err))
            && ks.len() >= 1 && ks[0] == pin.root_kind@ && err,
{
    let tree = parsed(pin.grammar, pin.sample.as_str())?;
    let _n = node_total(&tree);
    let kind = kind_at(&tree, 0);
    judge_root(kind.as_str(), root_has_error(&tree), pin.root_kind.as_str())
}

/// The kinds of the nodes of a tree, depth first from the root.
pub fn kinds(tree: &tree_sitter::Tree) -> (out: Vec<String>)
    ensures
        views(out@) == tree_kinds(*tree),
{
    let n = node_total(tree);
    let mut out: Vec<String> = Vec::new();
    let mut i: usize = 0;
    while i < n
        invariant
            n == tree_kinds(*tree).len(),
            i <= n,
            views(out@) == tree_kinds(*tree).take(i as int),
        decreases n - i,
    {
        let ghost before = views(out@);
        let k = kind_at(tree, i);
        out.push(k);
        assert(views(out@) =~= before.push(tree_kinds(*tree)[i as int]));
        assert(tree_kinds(*tree).take(i + 1) =~= tree_kinds(*tree).take(i as int).push(tree_kinds(*tree)[i as int]));
        i += 1;
    }
    assert(tree_kinds(*tree).take(n as int) =~= tree_kinds(*tree));
    out
}

} // verus!
