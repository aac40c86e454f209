//! The expression inspection interface: given an extracted expression,
//! report the root's kind and read module statements, `let` parts, and gate
//! pins back out as plain values and fresh sub-expressions.

use vstd::prelude::*;
use crate::expr::BooleanExpression;
use crate::expr::NodeV;
use crate::expr::OpV;
use crate::expr::Op;
use crate::expr::copy_bytes;
use crate::expr::expr_node_wf;
use crate::expr::subtree;
use crate::expr::term_eq;

verus! {

/// The pins among `pins` that are `Input` nodes, in order.
pub open spec fn input_pins(s: Seq<NodeV>, pins: Seq<usize>) -> Seq<usize>
    decreases pins.len(),
{
    if pins.len() == 0 {
        Seq::empty()
    } else {
        let rest = input_pins(s, pins.drop_last());
        if 0 <= (pins.last() as int) < s.len() && s[pins.last() as int].op is Input {
            rest.push(pins.last())
        } else {
            rest
        }
    }
}

/// The pins among `pins` that are `Output` nodes, in order.
pub open spec fn output_pins(s: Seq<NodeV>, pins: Seq<usize>) -> Seq<usize>
    decreases pins.len(),
{
    if pins.len() == 0 {
        Seq::empty()
    } else {
        let rest = output_pins(s, pins.drop_last());
        if 0 <= (pins.last() as int) < s.len() && s[pins.last() as int].op is Output {
            rest.push(pins.last())
        } else {
            rest
        }
    }
}

/// Whether the root of an extracted expression is a symbol.
pub fn expr_is_symbol(e: &BooleanExpression) -> (r: bool)
    requires
        e.wf(),
    ensures
        r == (e@[e.root()].op is Symbol),
{
    let root = e.root_idx();
    match &e.nodes[root].op {
        Op::Symbol(_) => true,
        _ => false,
    }
}

/// The name of a symbol root.
pub fn expr_get_symbol(e: &BooleanExpression) -> (r: Vec<u8>)
    requires
        e.wf(),
        e@[e.root()].op is Symbol,
    ensures
        e@[e.root()].op == OpV::Symbol(r@),
{
    let root = e.root_idx();
    match &e.nodes[root].op {
        Op::Symbol(name) => copy_bytes(name),
        _ => Vec::new(),
    }
}

/// The cell name of a gate root.
pub fn expr_get_gate_name(e: &BooleanExpression) -> (r: Vec<u8>)
    requires
        e.wf(),
        e@[e.root()].op is Gate,
    ensures
        e@[e.root()].op == OpV::Gate(r@),
{
    let root = e.root_idx();
    match &e.nodes[root].op {
        Op::Gate(name) => copy_bytes(name),
        _ => Vec::new(),
    }
}

/// The bound name of a `let` root (its first child, a symbol).
pub fn expr_get_let_symbol(e: &BooleanExpression) -> (r: Vec<u8>)
    requires
        e.wf(),
        e@[e.root()].op is Let,
        e@[e@[e.root()].children[0] as int].op is Symbol,
    ensures
        e@[e@[e.root()].children[0] as int].op == OpV::Symbol(r@),
{
    let root = e.root_idx();
    proof {
        assert(expr_node_wf(e@, e.root()));
    }
    let sym_idx = e.nodes[root].children[0];
    match &e.nodes[sym_idx].op {
        Op::Symbol(name) => copy_bytes(name),
        _ => Vec::new(),
    }
}

/// The bound body of a `let` root (its second child), as a fresh expression.
pub fn expr_get_let_expr(e: &BooleanExpression) -> (r: BooleanExpression)
    requires
        e.wf(),
        e@[e.root()].op is Let,
    ensures
        r.wf(),
        term_eq(r@, r.root(), e@, e@[e.root()].children[1] as int),
{
    let root = e.root_idx();
    proof {
        assert(expr_node_wf(e@, e.root()));
    }
    let body_idx = e.nodes[root].children[1];
    subtree(e, body_idx)
}

/// The statements of a module root, each as a fresh expression, in order.
pub fn expr_get_module_body(e: &BooleanExpression) -> (r: Vec<BooleanExpression>)
    requires
        e.wf(),
        e@[e.root()].op is Module,
    ensures
        r@.len() == e@[e.root()].children.len(),
        forall|t: int|
            #![trigger r@[t]]
            0 <= t < r@.len() ==> r@[t].wf() && term_eq(
                r@[t]@,
                r@[t].root(),
                e@,
                e@[e.root()].children[t] as int,
            ),
{
    let root = e.root_idx();
    proof {
        assert(expr_node_wf(e@, e.root()));
    }
    let n = e.nodes[root].children.len();
    let mut out: Vec<BooleanExpression> = Vec::new();
    let mut t: usize = 0;
    while t < n
        invariant
            e.wf(),
            e@[e.root()].op is Module,
            (root as int) == e.root(),
            n == e@[e.root()].children.len(),
            t <= n,
            out@.len() == t,
            forall|q: int|
                #![trigger out@[q]]
                0 <= q < t ==> out@[q].wf() && term_eq(
                    out@[q]@,
                    out@[q].root(),
                    e@,
                    e@[e.root()].children[q] as int,
                ),
        decreases n - t,
    {
        proof {
            assert(expr_node_wf(e@, e.root()));
        }
        let ci = e.nodes[root].children[t];
        out.push(subtree(e, ci));
        t = t + 1;
    }
    out
}

/// All pins of `pins` up to `j` that are not inputs leave the filter alone.
proof fn lemma_input_pins_take(s: Seq<NodeV>, pins: Seq<usize>, j: int)
    requires
        0 <= j < pins.len(),
    ensures
        input_pins(s, pins.take(j + 1)) == if 0 <= (pins[j] as int) < s.len() && s[pins[j] as int].op
            is Input {
            input_pins(s, pins.take(j)).push(pins[j])
        } else {
            input_pins(s, pins.take(j))
        },
{
    assert(pins.take(j + 1).drop_last() =~= pins.take(j));
    assert(pins.take(j + 1).last() == pins[j]);
}

/// Same unrolling for output pins.
proof fn lemma_output_pins_take(s: Seq<NodeV>, pins: Seq<usize>, j: int)
    requires
        0 <= j < pins.len(),
    ensures
        output_pins(s, pins.take(j + 1)) == if 0 <= (pins[j] as int) < s.len() && s[pins[j] as int].op
            is Output {
            output_pins(s, pins.take(j)).push(pins[j])
        } else {
            output_pins(s, pins.take(j))
        },
{
    assert(pins.take(j + 1).drop_last() =~= pins.take(j));
    assert(pins.take(j + 1).last() == pins[j]);
}

/// The input port names of a gate root, in pin order.
pub fn expr_get_gate_input_names(e: &BooleanExpression) -> (r: Vec<Vec<u8>>)
    requires
        e.wf(),
        e@[e.root()].op is Gate,
        forall|p: int|
            0 <= p < e@[e.root()].children.len() && e@[#[trigger] e@[e.root()].children[p] as int].op
                is Input ==> e@[e@[e@[e.root()].children[p] as int].children[0] as int].op
                is Symbol,
    ensures
        r@.len() == input_pins(e@, e@[e.root()].children).len(),
        forall|t: int|
            #![trigger r@[t]]
            0 <= t < r@.len() ==> e@[e@[input_pins(e@, e@[e.root()].children)[t] as int].children[0] as int].op
                == OpV::Symbol(r@[t]@),
{
    let root = e.root_idx();
    proof {
        assert(expr_node_wf(e@, e.root()));
    }
    let ghost pins = e@[e.root()].children;
    let n = e.nodes[root].children.len();
    let mut out: Vec<Vec<u8>> = Vec::new();
    let mut t: usize = 0;
    while t < n
        invariant
            e.wf(),
            e@[e.root()].op is Gate,
            (root as int) == e.root(),
            pins == e@[e.root()].children,
            n == pins.len(),
            t <= n,
            forall|p: int|
                0 <= p < pins.len() && e@[#[trigger] pins[p] as int].op is Input
                    ==> e@[e@[pins[p] as int].children[0] as int].op is Symbol,
            out@.len() == input_pins(e@, pins.take(t as int)).len(),
            forall|q: int|
                #![trigger out@[q]]
                0 <= q < out@.len() ==> e@[e@[input_pins(e@, pins.take(t as int))[q] as int].children[0] as int].op
                    == OpV::Symbol(out@[q]@),
        decreases n - t,
    {
        proof {
            assert(expr_node_wf(e@, e.root()));
            lemma_input_pins_take(e@, pins, t as int);
        }
        let pi = e.nodes[root].children[t];
        let is_input = match &e.nodes[pi].op {
            Op::Input => true,
            _ => false,
        };
        if is_input {
            proof {
                assert(expr_node_wf(e@, pins[t as int] as int));
            }
            let sym_idx = e.nodes[pi].children[0];
            let name = match &e.nodes[sym_idx].op {
                Op::Symbol(nm) => copy_bytes(nm),
                _ => Vec::new(),
            };
            out.push(name);
        }
        t = t + 1;
    }
    proof {
        assert(pins.take(n as int) =~= pins);
    }
    out
}

/// The driver expressions of a gate root's input pins, in pin order, each
/// as a fresh expression.
pub fn expr_get_gate_input_exprs(e: &BooleanExpression) -> (r: Vec<BooleanExpression>)
    requires
        e.wf(),
        e@[e.root()].op is Gate,
    ensures
        r@.len() == input_pins(e@, e@[e.root()].children).len(),
        forall|t: int|
            #![trigger r@[t]]
            0 <= t < r@.len() ==> r@[t].wf() && term_eq(
                r@[t]@,
                r@[t].root(),
                e@,
                e@[input_pins(e@, e@[e.root()].children)[t] as int].children[1] as int,
            ),
{
    let root = e.root_idx();
    proof {
        assert(expr_node_wf(e@, e.root()));
    }
    let ghost pins = e@[e.root()].children;
    let n = e.nodes[root].children.len();
    let mut out: Vec<BooleanExpression> = Vec::new();
    let mut t: usize = 0;
    while t < n
        invariant
            e.wf(),
            e@[e.root()].op is Gate,
            (root as int) == e.root(),
            pins == e@[e.root()].children,
            n == pins.len(),
            t <= n,
            out@.len() == input_pins(e@, pins.take(t as int)).len(),
            forall|q: int|
                #![trigger out@[q]]
                0 <= q < out@.len() ==> out@[q].wf() && term_eq(
                    out@[q]@,
                    out@[q].root(),
                    e@,
                    e@[input_pins(e@, pins.take(t as int))[q] as int].children[1] as int,
                ),
        decreases n - t,
    {
        proof {
            assert(expr_node_wf(e@, e.root()));
            lemma_input_pins_take(e@, pins, t as int);
        }
        let pi = e.nodes[root].children[t];
        let is_input = match &e.nodes[pi].op {
            Op::Input => true,
            _ => false,
        };
        if is_input {
            proof {
                assert(expr_node_wf(e@, pins[t as int] as int));
            }
            let drv = e.nodes[pi].children[1];
            out.push(subtree(e, drv));
        }
        t = t + 1;
    }
    proof {
        assert(pins.take(n as int) =~= pins);
    }
    out
}

/// The port name of a gate root's first output pin.
pub fn expr_get_gate_output_name(e: &BooleanExpression) -> (r: Vec<u8>)
    requires
        e.wf(),
        e@[e.root()].op is Gate,
        output_pins(e@, e@[e.root()].children).len() > 0,
        forall|p: int|
            0 <= p < e@[e.root()].children.len() && e@[#[trigger] e@[e.root()].children[p] as int].op
                is Output ==> e@[e@[e@[e.root()].children[p] as int].children[0] as int].op
                is Symbol,
    ensures
        e@[e@[output_pins(e@, e@[e.root()].children)[0] as int].children[0] as int].op
            == OpV::Symbol(r@),
{
    let root = e.root_idx();
    proof {
        assert(expr_node_wf(e@, e.root()));
    }
    let ghost pins = e@[e.root()].children;
    let n = e.nodes[root].children.len();
    let mut t: usize = 0;
    while t < n
        invariant
            e.wf(),
            e@[e.root()].op is Gate,
            (root as int) == e.root(),
            pins == e@[e.root()].children,
            n == pins.len(),
            t <= n,
            output_pins(e@, pins).len() > 0,
            forall|p: int|
                0 <= p < pins.len() && e@[#[trigger] pins[p] as int].op is Output
                    ==> e@[e@[pins[p] as int].children[0] as int].op is Symbol,
            output_pins(e@, pins.take(t as int)).len() == 0,
        decreases n - t,
    {
        proof {
            assert(expr_node_wf(e@, e.root()));
            lemma_output_pins_take(e@, pins, t as int);
        }
        let pi = e.nodes[root].children[t];
        let is_output = match &e.nodes[pi].op {
            Op::Output => true,
            _ => false,
        };
        if is_output {
            proof {
                assert(expr_node_wf(e@, pins[t as int] as int));
                lemma_first_output(e@, pins, t as int);
            }
            let sym_idx = e.nodes[pi].children[0];
            let name = match &e.nodes[sym_idx].op {
                Op::Symbol(nm) => copy_bytes(nm),
                _ => Vec::new(),
            };
            return name;
        }
        t = t + 1;
    }
    proof {
        assert(pins.take(n as int) =~= pins);
        assert(false);
    }
    Vec::new()
}

/// When no earlier pin is an output and pin `j` is, pin `j` is the first
/// output pin.
proof fn lemma_first_output(s: Seq<NodeV>, pins: Seq<usize>, j: int)
    requires
        0 <= j < pins.len(),
        output_pins(s, pins.take(j)).len() == 0,
        0 <= (pins[j] as int) < s.len(),
        s[pins[j] as int].op is Output,
    ensures
        output_pins(s, pins).len() > 0,
        output_pins(s, pins)[0] == pins[j],
    decreases pins.len(),
{
    if pins.len() == j + 1 {
        lemma_output_pins_take(s, pins, j);
        assert(pins.take(j + 1) =~= pins);
    } else {
        assert(pins.drop_last().take(j) =~= pins.take(j));
        assert(pins.drop_last()[j] == pins[j]);
        lemma_first_output(s, pins.drop_last(), j);
    }
}

} // verus!
