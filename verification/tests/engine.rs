//! Engine-level behavior: the e-graph's hash-consing and congruence repair,
//! the s-expression parser and printer, rule construction, and explanations.

use netlist_synth::construct::{build_and, build_symbol, egraph_new};
use netlist_synth::egraph::BooleanEGraph;
use netlist_synth::explain::explain_equivalence;
use netlist_synth::rules::{EngineError, Rule};
use netlist_synth::runner::Justification;
use netlist_synth::sexp::{parse, print_expr, ParseError};

fn bytes(s: &str) -> Vec<u8> {
    s.as_bytes().to_vec()
}

fn parsed(s: &str) -> netlist_synth::expr::BooleanExpression {
    parse(&bytes(s)).expect("input should parse")
}

fn printed(s: &str) -> String {
    String::from_utf8(print_expr(&parsed(s))).expect("printer emits ASCII")
}

#[test]
fn add_expr_twice_returns_same_class() {
    let mut eg = egraph_new();
    let e = parsed("(& a (| b 1))");
    let c1 = eg.add_expr(&e);
    let c2 = eg.add_expr(&e);
    assert_eq!(c1, c2);
}

#[test]
fn add_expr_same_structure_different_parse() {
    let mut eg = egraph_new();
    let c1 = eg.add_expr(&parsed("(! (& a b))"));
    let c2 = eg.add_expr(&parsed("  (!   (& a   b) ) "));
    assert_eq!(c1, c2);
}

#[test]
fn merge_then_rebuild_joins_classes() {
    let mut eg = egraph_new();
    let a = build_symbol(&mut eg, bytes("a"));
    let b = build_symbol(&mut eg, bytes("b"));
    assert_ne!(eg.find(a.0), eg.find(b.0));
    eg.merge(a.0, b.0);
    eg.rebuild();
    assert_eq!(eg.find(a.0), eg.find(b.0));
}

#[test]
fn rebuild_restores_congruence() {
    // two AND nodes over children later proven equal end up in one class
    let mut eg = egraph_new();
    let x = build_symbol(&mut eg, bytes("x"));
    let y = build_symbol(&mut eg, bytes("y"));
    let z = build_symbol(&mut eg, bytes("z"));
    let xy = build_and(
        &mut eg,
        netlist_synth::construct::BooleanId(x.0),
        netlist_synth::construct::BooleanId(y.0),
    );
    let z0 = z.0;
    let xz = build_and(&mut eg, x, z);
    assert_ne!(eg.find(xy.0), eg.find(xz.0));
    eg.merge(y.0, z0);
    eg.rebuild();
    assert_eq!(eg.find(xy.0), eg.find(xz.0));
}

#[test]
fn print_then_parse_round_trips() {
    for src in [
        "a",
        "0",
        "1",
        "-17",
        "(module)",
        "(& a b)",
        "(| (! a) (! b))",
        "(module (let t (! a)) (& t b))",
        "(nand2 (input A a) (input B b) (output Y))",
        "( &  a\t(|\n b   c ) )",
    ] {
        let once = printed(src);
        let twice = String::from_utf8(print_expr(&parse(&once.as_bytes().to_vec()).unwrap()))
            .unwrap();
        assert_eq!(once, twice, "printing is a fixed point of parse-print for {src}");
    }
}

#[test]
fn print_canonicalizes_whitespace() {
    assert_eq!(printed("( &  a  ( !  b ) )"), "(& a (! b))");
    assert_eq!(printed("(module (let t 1) t)"), "(module (let t 1) t)");
    assert_eq!(printed("-42"), "-42");
}

#[test]
fn parse_rejects_malformed_input() {
    assert!(matches!(
        parse(&bytes("(& a")),
        Err(ParseError::UnexpectedEnd { .. })
    ));
    assert!(matches!(
        parse(&bytes("(& a b c)")),
        Err(ParseError::WrongArity { .. })
    ));
    assert!(matches!(
        parse(&bytes(")")),
        Err(ParseError::UnexpectedByte { .. })
    ));
    assert!(matches!(
        parse(&bytes("a b")),
        Err(ParseError::TrailingInput { .. })
    ));
    assert!(matches!(
        parse(&bytes("99999999999999999999")),
        Err(ParseError::IntOutOfRange { .. })
    ));
    assert!(matches!(
        parse(&bytes("")),
        Err(ParseError::UnexpectedEnd { .. })
    ));
}

#[test]
fn parse_accepts_extreme_integers() {
    assert_eq!(printed("2147483647"), "2147483647");
    assert_eq!(printed("-2147483648"), "-2147483648");
    assert!(matches!(
        parse(&bytes("2147483648")),
        Err(ParseError::IntOutOfRange { .. })
    ));
}

#[test]
fn rule_with_unbound_applier_variable_is_rejected() {
    let r = Rule::rewrite(bytes("bad"), &bytes("(& ?x ?y)"), &bytes("(& ?x ?z)"));
    assert!(matches!(r, Err(EngineError::UnboundVariable)));
}

#[test]
fn rule_with_malformed_searcher_is_rejected() {
    let r = Rule::rewrite(bytes("bad"), &bytes("(& ?x"), &bytes("(& ?x ?x)"));
    assert!(matches!(r, Err(EngineError::Parse(_))));
}

#[test]
fn explain_rejects_distinct_classes() {
    let mut eg: BooleanEGraph = egraph_new();
    let a = build_symbol(&mut eg, bytes("a"));
    let b = build_symbol(&mut eg, bytes("b"));
    let rules: Vec<Rule> = Vec::new();
    let just: Vec<Justification> = Vec::new();
    let r = explain_equivalence(&eg, &rules, &just, a.0, b.0);
    assert!(matches!(r, Err(EngineError::NotEquivalent)));
}

#[test]
fn explain_gives_empty_chain_for_same_id() {
    let mut eg: BooleanEGraph = egraph_new();
    let a = build_symbol(&mut eg, bytes("a"));
    let rules: Vec<Rule> = Vec::new();
    let just: Vec<Justification> = Vec::new();
    let steps = explain_equivalence(&eg, &rules, &just, a.0, a.0).unwrap();
    assert_eq!(steps.len(), 0);
}
