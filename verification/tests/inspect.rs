//! The construction and inspection interfaces: building expressions in an
//! e-graph, reading them back, and querying extracted expressions.

use netlist_synth::construct::{
    append_expr, build_let, build_module, build_not, build_num, build_or, build_symbol, egraph_new,
    BooleanId,
};
use netlist_synth::expr::BooleanExpression;
use netlist_synth::query::{
    expr_get_gate_input_exprs, expr_get_gate_input_names, expr_get_gate_name,
    expr_get_gate_output_name, expr_get_let_expr, expr_get_let_symbol, expr_get_module_body,
    expr_get_symbol, expr_is_symbol,
};
use netlist_synth::sexp::{parse, print_expr};

fn bytes(s: &str) -> Vec<u8> {
    s.as_bytes().to_vec()
}

fn text(b: &[u8]) -> String {
    String::from_utf8(b.to_vec()).unwrap()
}

fn parsed(s: &str) -> BooleanExpression {
    parse(&bytes(s)).expect("input should parse")
}

#[test]
fn built_module_prints_like_its_parts() {
    let mut eg = egraph_new();
    let a = build_symbol(&mut eg, bytes("a"));
    let na = build_not(&mut eg, a);
    let t = build_let(&mut eg, bytes("t"), na);
    let one = build_num(&mut eg, 1);
    let t_use = build_symbol(&mut eg, bytes("t"));
    let body = build_or(&mut eg, t_use, one);
    let mut stmts: Vec<BooleanId> = Vec::new();
    append_expr(&mut stmts, t);
    append_expr(&mut stmts, body);
    let module = build_module(&mut eg, stmts);
    assert_eq!(text(&print_expr(&module)), "(module (let t (! a)) (| t 1))");
}

#[test]
fn building_shares_equal_subterms() {
    let mut eg = egraph_new();
    let a1 = build_symbol(&mut eg, bytes("a"));
    let a2 = build_symbol(&mut eg, bytes("a"));
    assert_eq!(a1.0, a2.0, "hash-consing returns the same class");
    let n1 = build_not(&mut eg, BooleanId(a1.0));
    let n2 = build_not(&mut eg, BooleanId(a2.0));
    assert_eq!(n1.0, n2.0);
}

#[test]
fn symbol_queries() {
    let e = parsed("a");
    assert!(expr_is_symbol(&e));
    assert_eq!(text(&expr_get_symbol(&e)), "a");
    assert!(!expr_is_symbol(&parsed("(& a b)")));
}

#[test]
fn let_queries() {
    let e = parsed("(let t (! a))");
    assert_eq!(text(&expr_get_let_symbol(&e)), "t");
    assert_eq!(text(&print_expr(&expr_get_let_expr(&e))), "(! a)");
}

#[test]
fn module_body_queries() {
    let e = parsed("(module (let t 1) (& t b))");
    let body = expr_get_module_body(&e);
    assert_eq!(body.len(), 2);
    assert_eq!(text(&print_expr(&body[0])), "(let t 1)");
    assert_eq!(text(&print_expr(&body[1])), "(& t b)");
    assert_eq!(expr_get_module_body(&parsed("(module)")).len(), 0);
}

#[test]
fn gate_queries() {
    let e = parsed("(nand2 (input A (! a)) (input B b) (output Y))");
    assert_eq!(text(&expr_get_gate_name(&e)), "nand2");
    let names = expr_get_gate_input_names(&e);
    assert_eq!(names.len(), 2);
    assert_eq!(text(&names[0]), "A");
    assert_eq!(text(&names[1]), "B");
    let drivers = expr_get_gate_input_exprs(&e);
    assert_eq!(drivers.len(), 2);
    assert_eq!(text(&print_expr(&drivers[0])), "(! a)");
    assert_eq!(text(&print_expr(&drivers[1])), "b");
    assert_eq!(text(&expr_get_gate_output_name(&e)), "Y");
}
