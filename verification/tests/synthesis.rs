//! End-to-end synthesis scenarios: saturation plus extraction against a
//! small standard-cell library, with costs in thousandths of a unit.

use netlist_synth::construct::egraph_new;
use netlist_synth::expr::BooleanExpression;
use netlist_synth::extract::{Cell, Metric};
use netlist_synth::rules::EngineError;
use netlist_synth::runner::StopReason;
use netlist_synth::sexp::{parse, print_expr};
use netlist_synth::synth::{Synthesizer, SynthesisOutcome};

fn bytes(s: &str) -> Vec<u8> {
    s.as_bytes().to_vec()
}

fn cell(name: &str, area_milli: u64, searcher: &str, applier: &str) -> Cell {
    Cell {
        name: bytes(name),
        area_milli,
        power_milli: area_milli,
        timing_milli: area_milli,
        searcher: bytes(searcher),
        applier: bytes(applier),
    }
}

/// The library the scenarios use: nand2 (1.0), inv (0.5), and2 (1.5).
fn standard_cells() -> Vec<Cell> {
    vec![
        cell(
            "nand2",
            1000,
            "(| (! ?x) (! ?y))",
            "(nand2 (input A ?x) (input B ?y) (output Y))",
        ),
        cell("inv", 500, "(! ?x)", "(inv (input A ?x) (output Y))"),
        cell(
            "and2",
            1500,
            "(& ?x ?y)",
            "(and2 (input A ?x) (input B ?y) (output Y))",
        ),
    ]
}

fn synthesize(cells: Vec<Cell>, src: &str) -> SynthesisOutcome {
    let synth = Synthesizer::new(cells, &bytes("Area")).expect("library should build");
    let eg = egraph_new();
    let e = parse(&bytes(src)).expect("input should parse");
    synth.run(eg, e).expect("synthesis should succeed")
}

fn printed(e: &BooleanExpression) -> String {
    String::from_utf8(print_expr(e)).expect("printer emits ASCII")
}

#[test]
fn demorgan_then_nand() {
    let out = synthesize(standard_cells(), "(! (& a b))");
    assert_eq!(out.cost_milli, 1000);
    assert_eq!(
        printed(&out.best_expr),
        "(nand2 (input A a) (input B b) (output Y))"
    );
}

#[test]
fn single_inverter() {
    let out = synthesize(standard_cells(), "(! a)");
    assert_eq!(out.cost_milli, 500);
    assert_eq!(printed(&out.best_expr), "(inv (input A a) (output Y))");
}

#[test]
fn nested_and_uses_two_gates() {
    let out = synthesize(standard_cells(), "(& a (& a b))");
    assert_eq!(out.cost_milli, 3000);
    let p = printed(&out.best_expr);
    assert_eq!(p.matches("and2").count(), 2, "two and2 instances in {p}");
    assert!(p.contains(" a"), "the a wire is reused in {p}");
}

#[test]
fn let_binding_is_inlined_at_its_use() {
    // let-inlining proves the AND over `t` equal to the AND over the
    // negation, so it maps to an and2; symbols cost nothing, so `t` stays
    // as a gate input, and the cost is one inv at the binding plus one and2
    let out = synthesize(standard_cells(), "(module (let t (! a)) (& t b))");
    assert_eq!(out.cost_milli, 2000);
    assert_eq!(
        printed(&out.best_expr),
        "(module (let t (inv (input A a) (output Y))) (and2 (input A t) (input B b) (output Y)))"
    );
}

#[test]
fn no_simplification_without_a_rule() {
    // no idempotence rule is present, so (| a a) maps to a gate instead of
    // simplifying to a
    let mut cells = standard_cells();
    cells.push(cell(
        "or2",
        1200,
        "(| ?x ?y)",
        "(or2 (input A ?x) (input B ?y) (output Y))",
    ));
    let out = synthesize(cells, "(| a a)");
    assert_eq!(out.cost_milli, 1200);
    assert_eq!(
        printed(&out.best_expr),
        "(or2 (input A a) (input B a) (output Y))"
    );
}

#[test]
fn empty_module_extracts_to_itself_for_free() {
    let out = synthesize(standard_cells(), "(module)");
    assert_eq!(out.cost_milli, 0);
    assert_eq!(printed(&out.best_expr), "(module)");
}

#[test]
fn gate_form_extracts_to_itself() {
    let out = synthesize(
        standard_cells(),
        "(nand2 (input A a) (input B b) (output Y))",
    );
    assert_eq!(out.cost_milli, 1000);
    assert_eq!(
        printed(&out.best_expr),
        "(nand2 (input A a) (input B b) (output Y))"
    );
}

#[test]
fn node_budget_stops_the_run() {
    // two hundred nested negations under a node budget of one hundred
    let mut src = String::new();
    for _ in 0..200 {
        src.push_str("(! ");
    }
    src.push('a');
    for _ in 0..200 {
        src.push(')');
    }
    let mut synth = Synthesizer::new(standard_cells(), &bytes("Area")).unwrap();
    synth.limits.node_limit = 100;
    let eg = egraph_new();
    let e = parse(&bytes(&src)).unwrap();
    let out = synth.run(eg, e).expect("extraction proceeds on the partial graph");
    assert!(matches!(out.report.stop_reason, StopReason::NodeLimit));
    // still a valid expression: every negation is mapped or left in place
    assert!(printed(&out.best_expr).contains("inv"));
}

#[test]
fn saturation_is_reported_when_nothing_changes() {
    let out = synthesize(standard_cells(), "(! a)");
    assert!(matches!(out.report.stop_reason, StopReason::Saturated));
    assert!(out.report.iterations >= 1);
}

#[test]
fn metric_choice_changes_cost() {
    let mut cells = standard_cells();
    cells[1].power_milli = 900;
    let synth = Synthesizer::new(cells, &bytes("Power")).unwrap();
    let out = synth
        .run(egraph_new(), parse(&bytes("(! a)")).unwrap())
        .unwrap();
    assert_eq!(out.cost_milli, 900);
}

#[test]
fn duplicate_cell_names_last_record_wins() {
    // two records for the same cell: the later one shadows the earlier
    let mut cells = standard_cells();
    cells.push(cell("inv", 700, "(! ?x)", "(inv (input A ?x) (output Y))"));
    let out = synthesize(cells, "(! a)");
    assert_eq!(out.cost_milli, 700);
}

#[test]
fn metric_names_parse_exactly() {
    assert!(matches!(Metric::from_str(&bytes("Area")), Ok(Metric::Area)));
    assert!(matches!(Metric::from_str(&bytes("Power")), Ok(Metric::Power)));
    assert!(matches!(Metric::from_str(&bytes("Timing")), Ok(Metric::Timing)));
    assert!(matches!(
        Metric::from_str(&bytes("area")),
        Err(EngineError::UnknownMetric)
    ));
    assert!(matches!(
        Metric::from_str(&bytes("")),
        Err(EngineError::UnknownMetric)
    ));
}

#[test]
fn unknown_metric_is_fatal() {
    let r = Synthesizer::new(standard_cells(), &bytes("Weight"));
    assert!(matches!(r, Err(EngineError::UnknownMetric)));
}

#[test]
fn unparseable_cell_is_fatal() {
    let mut cells = standard_cells();
    cells.push(cell("broken", 1, "(& ?x", "(broken (output Y))"));
    let r = Synthesizer::new(cells, &bytes("Area"));
    assert!(matches!(r, Err(EngineError::Parse(_))));
}

#[test]
fn unknown_gate_cannot_be_extracted() {
    // a gate naming no library cell has unreachable cost everywhere
    let synth = Synthesizer::new(standard_cells(), &bytes("Area")).unwrap();
    let e = parse(&bytes("(mystery (input A a) (output Y))")).unwrap();
    let r = synth.run(egraph_new(), e);
    assert!(matches!(r, Err(EngineError::NothingToExtract)));
}

#[test]
fn explanation_steps_name_the_rules() {
    let synth = Synthesizer::new(standard_cells(), &bytes("Area")).unwrap();
    let out = synth
        .run(egraph_new(), parse(&bytes("(! a)")).unwrap())
        .unwrap();
    assert!(!out.justifications.is_empty(), "the inv rule fired");
    let j = &out.justifications[0];
    let steps = netlist_synth::explain::explain_equivalence(
        &out.egraph,
        &synth.rules,
        &out.justifications,
        j.a,
        j.b,
    )
    .expect("a recorded merge explains itself");
    assert_eq!(steps.len(), 1);
    assert_eq!(String::from_utf8(steps[0].rule_name.clone()).unwrap(), "inv");
    assert_eq!(steps[0].from, j.a);
    assert_eq!(steps[0].to, j.b);
}

#[test]
fn rewritten_form_joins_the_matched_class() {
    // after one run, the negation's class and its gate form are one class
    let synth = Synthesizer::new(standard_cells(), &bytes("Area")).unwrap();
    let out = synth
        .run(egraph_new(), parse(&bytes("(! a)")).unwrap())
        .unwrap();
    for j in &out.justifications {
        assert_eq!(out.egraph.find(j.a), out.egraph.find(j.b));
    }
}
