//! The cost-directed extractor: assigns every e-class the minimum cost over
//! its e-nodes and returns one expression per requested root realizing that
//! cost.
//!
//! Costs are fixed-point numbers in thousandths of a metric unit, added with
//! saturation at `COST_INF`; an unmapped Boolean operator carries a huge
//! penalty so gate forms always win where one exists. Because classes can
//! reach each other in cycles, costs are computed as a fixed point rather
//! than by recursion: a class's cost only ever improves, and an improvement
//! requires finite child costs, so every finite cost is witnessed by an
//! already-built expression — extraction cannot loop.

use vstd::prelude::*;
use crate::egraph::BooleanEGraph;
use crate::expr::BooleanExpression;
use crate::expr::Node;
use crate::expr::NodeV;
use crate::expr::OpV;
use crate::expr::copy_op;
use crate::expr::expr_node_wf;
use crate::expr::expr_nodes_wf;
use crate::expr::nodes_view;
use crate::expr::term_eq;
use crate::rules::EngineError;

verus! {

/// The cost of an unmapped Boolean operator, in milli-units: high enough
/// that any gate mapping is preferred, a sentinel rather than a weight.
pub const UNMAPPED_PENALTY: u64 = 1000000000000;

/// The unreachable cost: no expression with this cost is ever selected.
pub const COST_INF: u64 = u64::MAX;

/// Saturating cost addition.
pub open spec fn cost_add_sp(a: int, b: int) -> int {
    if a + b >= COST_INF {
        COST_INF as int
    } else {
        a + b
    }
}

/// Saturating cost addition, executable.
pub fn cost_add(a: u64, b: u64) -> (r: u64)
    requires
        0 <= a <= COST_INF,
        0 <= b <= COST_INF,
    ensures
        r as int == cost_add_sp(a as int, b as int),
        r <= COST_INF,
{
    if a <= COST_INF - b {
        if (a + b) == COST_INF {
            COST_INF
        } else {
            a + b
        }
    } else {
        COST_INF
    }
}

/// The physical metric a synthesis run minimizes.
pub enum Metric {
    Area,
    Power,
    Timing,
}

/// The bytes of `Area`.
pub open spec fn metric_area() -> Seq<u8> {
    seq![65u8, 114u8, 101u8, 97u8]
}

/// The bytes of `Power`.
pub open spec fn metric_power() -> Seq<u8> {
    seq![80u8, 111u8, 119u8, 101u8, 114u8]
}

/// The bytes of `Timing`.
pub open spec fn metric_timing() -> Seq<u8> {
    seq![84u8, 105u8, 109u8, 105u8, 110u8, 103u8]
}

/// The metric a name denotes, if any.
pub open spec fn metric_of(name: Seq<u8>) -> Option<Metric> {
    if name == metric_area() {
        Some(Metric::Area)
    } else if name == metric_power() {
        Some(Metric::Power)
    } else if name == metric_timing() {
        Some(Metric::Timing)
    } else {
        None
    }
}

impl Metric {
    /// Parses a metric name: exactly `Area`, `Power` and `Timing` are known;
    /// anything else is `UnknownMetric`.
    pub fn from_str(name: &Vec<u8>) -> (r: Result<Metric, EngineError>)
        ensures
            r == match metric_of(name@) {
                Some(m) => Ok::<Metric, EngineError>(m),
                None => Err::<Metric, EngineError>(EngineError::UnknownMetric),
            },
    {
        if name.len() == 4 && name[0] == 65 && name[1] == 114 && name[2] == 101 && name[3] == 97 {
            proof {
                assert(name@ =~= metric_area());
            }
            return Ok(Metric::Area);
        }
        if name.len() == 5 && name[0] == 80 && name[1] == 111 && name[2] == 119 && name[3] == 101
            && name[4] == 114 {
            proof {
                assert(name@ =~= metric_power());
            }
            return Ok(Metric::Power);
        }
        if name.len() == 6 && name[0] == 84 && name[1] == 105 && name[2] == 109 && name[3] == 105
            && name[4] == 110 && name[5] == 103 {
            proof {
                assert(name@ =~= metric_timing());
            }
            return Ok(Metric::Timing);
        }
        proof {
            if name@ == metric_area() {
                assert(name@.len() == 4 && name@[0] == 65 && name@[1] == 114 && name@[2] == 101
                    && name@[3] == 97);
            }
            if name@ == metric_power() {
                assert(name@.len() == 5 && name@[0] == 80 && name@[1] == 111 && name@[2] == 119
                    && name@[3] == 101 && name@[4] == 114);
            }
            if name@ == metric_timing() {
                assert(name@.len() == 6 && name@[0] == 84 && name@[1] == 105 && name@[2] == 109
                    && name@[3] == 105 && name@[4] == 110 && name@[5] == 103);
            }
        }
        Err(EngineError::UnknownMetric)
    }
}

/// A standard cell: a named logic function with its characterized costs and
/// its rewrite (searcher pattern and gate-producing applier template), both
/// as s-expression sources. Costs are in thousandths of the library's unit.
pub struct Cell {
    pub name: Vec<u8>,
    pub area_milli: u64,
    pub power_milli: u64,
    pub timing_milli: u64,
    pub searcher: Vec<u8>,
    pub applier: Vec<u8>,
}

/// The cost function: a metric choice over a cell library.
pub struct GateCostFunction {
    pub metric: Metric,
    pub cells: Vec<Cell>,
}

/// The chosen metric of one cell.
pub open spec fn cell_metric_sp(m: Metric, c: Cell) -> int {
    match m {
        Metric::Area => c.area_milli as int,
        Metric::Power => c.power_milli as int,
        Metric::Timing => c.timing_milli as int,
    }
}

/// The metric of the last cell named `nm` at index `i` or later: a later
/// record of the same name shadows an earlier one.
pub open spec fn find_cell_from(cf: GateCostFunction, nm: Seq<u8>, i: int) -> Option<int>
    decreases cf.cells@.len() - i,
{
    if i < 0 || i >= cf.cells@.len() {
        None
    } else {
        match find_cell_from(cf, nm, i + 1) {
            Some(c) => Some(c),
            None => if cf.cells@[i].name@ == nm {
                Some(cell_metric_sp(cf.metric, cf.cells@[i]))
            } else {
                None
            },
        }
    }
}

/// A hit found while scanning backward is the overall answer: everything
/// later was already seen to miss.
proof fn lemma_find_cell_prefix(cf: GateCostFunction, nm: Seq<u8>, j: int)
    requires
        0 <= j,
        find_cell_from(cf, nm, j) is Some,
    ensures
        find_cell_from(cf, nm, 0) == find_cell_from(cf, nm, j),
    decreases j,
{
    if j > 0 {
        assert(find_cell_from(cf, nm, j - 1) == find_cell_from(cf, nm, j));
        lemma_find_cell_prefix(cf, nm, j - 1);
    }
}

/// The cost of one operator: a gate costs its cell's metric (or `COST_INF`
/// if it names no cell, so it is never selected); an unmapped Boolean
/// operator costs the penalty; containers, pins, literals and symbols are
/// free.
pub open spec fn op_cost_sp(cf: GateCostFunction, op: OpV) -> int {
    match op {
        OpV::And => UNMAPPED_PENALTY as int,
        OpV::Or => UNMAPPED_PENALTY as int,
        OpV::Not => UNMAPPED_PENALTY as int,
        OpV::Gate(nm) => match find_cell_from(cf, nm, 0) {
            Some(c) => c,
            None => COST_INF as int,
        },
        _ => 0,
    }
}

/// The chosen metric of the last cell named `nm`, if any.
pub fn gate_cost(cf: &GateCostFunction, nm: &Vec<u8>) -> (r: Option<u64>)
    ensures
        match r {
            Some(c) => find_cell_from(*cf, nm@, 0) == Some(c as int),
            None => find_cell_from(*cf, nm@, 0) is None,
        },
{
    let ncells = cf.cells.len();
    let mut i: usize = ncells;
    while i > 0
        invariant
            i <= ncells,
            ncells == cf.cells@.len(),
            find_cell_from(*cf, nm@, i as int) is None,
        decreases i,
    {
        i = i - 1;
        if crate::expr::bytes_eq(&cf.cells[i].name, nm) {
            let c = match cf.metric {
                Metric::Area => cf.cells[i].area_milli,
                Metric::Power => cf.cells[i].power_milli,
                Metric::Timing => cf.cells[i].timing_milli,
            };
            proof {
                assert(find_cell_from(*cf, nm@, i as int) == Some(
                    cell_metric_sp(cf.metric, cf.cells@[i as int]),
                ));
                lemma_find_cell_prefix(*cf, nm@, i as int);
            }
            return Some(c);
        }
    }
    None
}

/// The executable operator cost.
pub fn op_cost(cf: &GateCostFunction, op: &crate::expr::Op) -> (r: u64)
    ensures
        r as int == op_cost_sp(*cf, op@),
        r <= COST_INF,
{
    match op {
        crate::expr::Op::And => UNMAPPED_PENALTY,
        crate::expr::Op::Or => UNMAPPED_PENALTY,
        crate::expr::Op::Not => UNMAPPED_PENALTY,
        crate::expr::Op::Gate(nm) => match gate_cost(cf, nm) {
            Some(c) => c,
            None => COST_INF,
        },
        _ => 0,
    }
}

/// The saturating sum of the costs of the first `j` children of `s[i]`.
pub open spec fn children_cost(cf: GateCostFunction, s: Seq<NodeV>, i: int, j: int) -> int
    decreases i, 0int, j,
{
    if j <= 0 {
        0
    } else {
        cost_add_sp(
            children_cost(cf, s, i, j - 1),
            if 0 <= i < s.len() && j <= s[i].children.len() && (s[i].children[j - 1] as int) < i {
                expr_cost(cf, s, s[i].children[j - 1] as int)
            } else {
                COST_INF as int
            },
        )
    }
}

/// The cost of the term rooted at `s[i]`: its operator's cost plus the
/// saturating sum of its children's costs.
pub open spec fn expr_cost(cf: GateCostFunction, s: Seq<NodeV>, i: int) -> int
    decreases i, 1int, 0int,
{
    if 0 <= i < s.len() {
        cost_add_sp(op_cost_sp(cf, s[i].op), children_cost(cf, s, i, s[i].children.len() as int))
    } else {
        COST_INF as int
    }
}

/// Operator costs lie in `[0, COST_INF]`.
pub proof fn lemma_op_cost_range(cf: GateCostFunction, op: OpV)
    ensures
        0 <= op_cost_sp(cf, op) <= COST_INF,
{
    match op {
        OpV::Gate(nm) => {
            lemma_find_cell_range(cf, nm, 0);
        },
        _ => {},
    }
}

/// Cell metrics lie in `[0, COST_INF]`.
pub proof fn lemma_find_cell_range(cf: GateCostFunction, nm: Seq<u8>, i: int)
    ensures
        match find_cell_from(cf, nm, i) {
            Some(c) => 0 <= c <= COST_INF,
            None => true,
        },
    decreases cf.cells@.len() - i,
{
    if 0 <= i < cf.cells@.len() {
        lemma_find_cell_range(cf, nm, i + 1);
    }
}

/// Term costs lie in `[0, COST_INF]`.
pub proof fn lemma_expr_cost_range(cf: GateCostFunction, s: Seq<NodeV>, i: int)
    ensures
        0 <= expr_cost(cf, s, i) <= COST_INF,
    decreases i, 1int, 0int,
{
    if 0 <= i < s.len() {
        lemma_op_cost_range(cf, s[i].op);
        lemma_children_cost_range(cf, s, i, s[i].children.len() as int);
    }
}

/// Child-cost sums lie in `[0, COST_INF]`.
pub proof fn lemma_children_cost_range(cf: GateCostFunction, s: Seq<NodeV>, i: int, j: int)
    ensures
        0 <= children_cost(cf, s, i, j) <= COST_INF,
    decreases i, 0int, j,
{
    if j > 0 {
        lemma_children_cost_range(cf, s, i, j - 1);
        if 0 <= i < s.len() && j <= s[i].children.len() && (s[i].children[j - 1] as int) < i {
            lemma_expr_cost_range(cf, s, s[i].children[j - 1] as int);
        }
    }
}

/// Term costs only read nodes at or below the root, so they are stable
/// under extending the node sequence.
pub proof fn lemma_expr_cost_prefix(cf: GateCostFunction, a: Seq<NodeV>, a2: Seq<NodeV>, i: int)
    requires
        a.is_prefix_of(a2),
        0 <= i < a.len(),
    ensures
        expr_cost(cf, a2, i) == expr_cost(cf, a, i),
    decreases i, 1int, 0int,
{
    assert(a2[i] == a[i]);
    lemma_children_cost_prefix(cf, a, a2, i, a[i].children.len() as int);
}

/// Child-cost sums are stable under extending the node sequence.
pub proof fn lemma_children_cost_prefix(
    cf: GateCostFunction,
    a: Seq<NodeV>,
    a2: Seq<NodeV>,
    i: int,
    j: int,
)
    requires
        a.is_prefix_of(a2),
        0 <= i < a.len(),
    ensures
        children_cost(cf, a2, i, j) == children_cost(cf, a, i, j),
    decreases i, 0int, j,
{
    assert(a2[i] == a[i]);
    if j > 0 {
        lemma_children_cost_prefix(cf, a, a2, i, j - 1);
        if j <= a[i].children.len() && (a[i].children[j - 1] as int) < i {
            lemma_expr_cost_prefix(cf, a, a2, a[i].children[j - 1] as int);
        }
    }
}

/// Structurally equal terms have equal costs.
pub proof fn lemma_expr_cost_term_eq(
    cf: GateCostFunction,
    a: Seq<NodeV>,
    ia: int,
    b: Seq<NodeV>,
    ib: int,
)
    requires
        term_eq(a, ia, b, ib),
    ensures
        expr_cost(cf, a, ia) == expr_cost(cf, b, ib),
    decreases ia, 1int, 0int,
{
    lemma_children_cost_term_eq(cf, a, ia, b, ib, a[ia].children.len() as int);
}

/// Child-cost sums of structurally equal terms are equal.
pub proof fn lemma_children_cost_term_eq(
    cf: GateCostFunction,
    a: Seq<NodeV>,
    ia: int,
    b: Seq<NodeV>,
    ib: int,
    j: int,
)
    requires
        term_eq(a, ia, b, ib),
        j <= a[ia].children.len(),
    ensures
        children_cost(cf, a, ia, j) == children_cost(cf, b, ib, j),
    decreases ia, 0int, j,
{
    if j > 0 {
        lemma_children_cost_term_eq(cf, a, ia, b, ib, j - 1);
        assert((a[ia].children[j - 1] as int) < ia);
        lemma_expr_cost_term_eq(cf, a, a[ia].children[j - 1] as int, b, b[ib].children[j - 1] as int);
    }
}

/// Representation only reads nodes at or below the root, so it is stable
/// under extending the node sequence.
pub proof fn lemma_contains_prefix(g: BooleanEGraph, a: Seq<NodeV>, a2: Seq<NodeV>, i: int, c: int)
    requires
        a.is_prefix_of(a2),
        g.contains_expr(a, i, c),
    ensures
        g.contains_expr(a2, i, c),
    decreases i,
{
    let k = choose|k: int|
        #![trigger g.entry_node(k)]
        {
            &&& 0 <= k < g.m()
            &&& g.entry_node(k).op == a[i].op
            &&& g.entry_node(k).children.len() == a[i].children.len()
            &&& c == g.uf.lead_of(g.entry_class(k))
            &&& forall|j: int|
                #![trigger a[i].children[j]]
                0 <= j < a[i].children.len() ==> (a[i].children[j] as int) < i && g.contains_expr(
                    a,
                    a[i].children[j] as int,
                    g.entry_node(k).children[j] as int,
                )
        };
    assert(a2[i] == a[i]);
    assert forall|j: int|
        #![trigger a2[i].children[j]]
        0 <= j < a2[i].children.len() implies (a2[i].children[j] as int) < i && g.contains_expr(
        a2,
        a2[i].children[j] as int,
        g.entry_node(k).children[j] as int,
    ) by {
        assert(a[i].children[j] == a2[i].children[j]);
        assert(g.contains_expr(a, a[i].children[j] as int, g.entry_node(k).children[j] as int));
        lemma_contains_prefix(
            g,
            a,
            a2,
            a[i].children[j] as int,
            g.entry_node(k).children[j] as int,
        );
    }
}

/// A class represents a term; so does any structurally equal term.
pub proof fn lemma_contains_term_eq(
    g: BooleanEGraph,
    a: Seq<NodeV>,
    ia: int,
    b: Seq<NodeV>,
    ib: int,
    c: int,
)
    requires
        term_eq(a, ia, b, ib),
        g.contains_expr(b, ib, c),
    ensures
        g.contains_expr(a, ia, c),
    decreases ia,
{
    let k = choose|k: int|
        #![trigger g.entry_node(k)]
        {
            &&& 0 <= k < g.m()
            &&& g.entry_node(k).op == b[ib].op
            &&& g.entry_node(k).children.len() == b[ib].children.len()
            &&& c == g.uf.lead_of(g.entry_class(k))
            &&& forall|j: int|
                #![trigger b[ib].children[j]]
                0 <= j < b[ib].children.len() ==> (b[ib].children[j] as int) < ib
                    && g.contains_expr(
                    b,
                    b[ib].children[j] as int,
                    g.entry_node(k).children[j] as int,
                )
        };
    assert forall|j: int|
        #![trigger a[ia].children[j]]
        0 <= j < a[ia].children.len() implies (a[ia].children[j] as int) < ia && g.contains_expr(
        a,
        a[ia].children[j] as int,
        g.entry_node(k).children[j] as int,
    ) by {
        assert((b[ib].children[j] as int) < ib);
        assert(term_eq(a, a[ia].children[j] as int, b, b[ib].children[j] as int));
        assert(g.contains_expr(b, b[ib].children[j] as int, g.entry_node(k).children[j] as int));
        lemma_contains_term_eq(
            g,
            a,
            a[ia].children[j] as int,
            b,
            b[ib].children[j] as int,
            g.entry_node(k).children[j] as int,
        );
    }
}

/// The saturating sum of the best costs of the first `j` listed classes.
pub open spec fn entry_children_cost(best: Seq<u64>, ch: Seq<usize>, j: int) -> int
    decreases j,
{
    if j <= 0 {
        0
    } else {
        cost_add_sp(
            entry_children_cost(best, ch, j - 1),
            if 0 <= j - 1 < ch.len() && (ch[j - 1] as int) < best.len() {
                best[ch[j - 1] as int] as int
            } else {
                COST_INF as int
            },
        )
    }
}

/// Best-cost sums lie in `[0, COST_INF]`.
pub proof fn lemma_entry_fold_range(best: Seq<u64>, ch: Seq<usize>, j: int)
    ensures
        0 <= entry_children_cost(best, ch, j) <= COST_INF,
    decreases j,
{
    if j > 0 {
        lemma_entry_fold_range(best, ch, j - 1);
    }
}

/// Every summand is bounded by the whole saturating sum.
pub proof fn lemma_entry_fold_bounds(best: Seq<u64>, ch: Seq<usize>, j: int, t: int)
    requires
        0 <= t < j,
        0 <= t < ch.len(),
        (ch[t] as int) < best.len(),
    ensures
        best[ch[t] as int] as int <= entry_children_cost(best, ch, j),
    decreases j,
{
    lemma_entry_fold_range(best, ch, j - 1);
    if t < j - 1 {
        lemma_entry_fold_bounds(best, ch, j - 1, t);
    }
}

/// The cost of the `k`-th stored e-node under current class costs.
pub open spec fn node_cost_sp(cf: GateCostFunction, eg: BooleanEGraph, best: Seq<u64>, k: int) -> int {
    cost_add_sp(
        op_cost_sp(cf, eg.entry_node(k).op),
        entry_children_cost(best, eg.entry_node(k).children, eg.entry_node(k).children.len() as int),
    )
}

/// The fixed point: no stored e-node offers its class a better cost.
pub open spec fn fixpoint_sp(cf: GateCostFunction, eg: BooleanEGraph, best: Seq<u64>) -> bool {
    &&& best.len() == eg.n()
    &&& forall|k: int|
        0 <= k < eg.m() ==> (best[#[trigger] eg.entry_class(k)] as int) <= node_cost_sp(
            cf,
            eg,
            best,
            k,
        )
}

/// If each listed class's best is below the corresponding term cost, the
/// saturating sums compare the same way.
pub proof fn lemma_fold_mono(
    cf: GateCostFunction,
    best: Seq<u64>,
    ch: Seq<usize>,
    s: Seq<NodeV>,
    i: int,
    j: int,
)
    requires
        0 <= i < s.len(),
        j <= ch.len(),
        j <= s[i].children.len(),
        forall|t: int|
            #![trigger ch[t]]
            0 <= t < j ==> (ch[t] as int) < best.len() && (s[i].children[t] as int) < i && (best[
                ch[t] as int] as int) <= expr_cost(cf, s, s[i].children[t] as int),
    ensures
        entry_children_cost(best, ch, j) <= children_cost(cf, s, i, j),
    decreases j,
{
    if j > 0 {
        assert forall|t: int|
            #![trigger ch[t]]
            0 <= t < j - 1 implies (ch[t] as int) < best.len() && (s[i].children[t] as int) < i
            && (best[ch[t] as int] as int) <= expr_cost(cf, s, s[i].children[t] as int) by {
            assert(0 <= t < j);
        }
        lemma_fold_mono(cf, best, ch, s, i, j - 1);
    }
}

/// At a fixed point, a class's best cost is a lower bound on the cost of
/// every term it represents: the computed costs are optimal.
pub proof fn lemma_lower_bound(
    cf: GateCostFunction,
    eg: BooleanEGraph,
    best: Seq<u64>,
    s: Seq<NodeV>,
    i: int,
    c: int,
)
    requires
        eg.wf(),
        eg.canonical(),
        fixpoint_sp(cf, eg, best),
        eg.contains_expr(s, i, c),
    ensures
        0 <= c < best.len(),
        best[c] as int <= expr_cost(cf, s, i),
    decreases i,
{
    let k = choose|k: int|
        #![trigger eg.entry_node(k)]
        {
            &&& 0 <= k < eg.m()
            &&& eg.entry_node(k).op == s[i].op
            &&& eg.entry_node(k).children.len() == s[i].children.len()
            &&& c == eg.uf.lead_of(eg.entry_class(k))
            &&& forall|j: int|
                #![trigger s[i].children[j]]
                0 <= j < s[i].children.len() ==> (s[i].children[j] as int) < i && eg.contains_expr(
                    s,
                    s[i].children[j] as int,
                    eg.entry_node(k).children[j] as int,
                )
        };
    assert(crate::egraph::entry_canonical_uf(eg.uf, eg.memo@[k]));
    assert(c == eg.entry_class(k));
    assert(0 <= eg.entry_class(k) < eg.n());
    let nd = eg.entry_node(k);
    assert forall|t: int|
        #![trigger nd.children[t]]
        0 <= t < nd.children.len() implies (nd.children[t] as int) < best.len() && (
    s[i].children[t] as int) < i && (best[nd.children[t] as int] as int) <= expr_cost(
        cf,
        s,
        s[i].children[t] as int,
    ) by {
        assert(eg.node_ok(nd));
        assert((nd.children[t] as int) < eg.n());
        assert(eg.contains_expr(s, s[i].children[t] as int, nd.children[t] as int));
        lemma_lower_bound(cf, eg, best, s, s[i].children[t] as int, nd.children[t] as int);
    }
    lemma_fold_mono(cf, best, nd.children, s, i, nd.children.len() as int);
    assert((best[c] as int) <= node_cost_sp(cf, eg, best, k));
}

/// The sum of the first `upto` class costs, for the termination measure.
pub open spec fn sum_best(s: Seq<u64>, upto: int) -> int
    decreases upto,
{
    if upto <= 0 {
        0
    } else {
        sum_best(s, upto - 1) + s[upto - 1] as int
    }
}

/// Updating one class cost changes the sum by exactly the difference.
pub proof fn lemma_sum_best_update(s: Seq<u64>, c: int, v: u64, upto: int)
    requires
        0 <= c < s.len(),
        upto <= s.len(),
    ensures
        sum_best(s.update(c, v), upto) == sum_best(s, upto) + (if c < upto {
            v as int - s[c] as int
        } else {
            0int
        }),
    decreases upto,
{
    if upto > 0 {
        lemma_sum_best_update(s, c, v, upto - 1);
    }
}

/// Sums of class costs are non-negative.
pub proof fn lemma_sum_best_range(s: Seq<u64>, upto: int)
    ensures
        sum_best(s, upto) >= 0,
    decreases upto,
{
    if upto > 0 {
        lemma_sum_best_range(s, upto - 1);
    }
}

/// A built node whose children realize the listed best costs has the same
/// child-cost sum.
pub proof fn lemma_build_cost(
    cf: GateCostFunction,
    s2: Seq<NodeV>,
    idx: int,
    best: Seq<u64>,
    ch: Seq<usize>,
    j: int,
)
    requires
        0 <= idx < s2.len(),
        j <= s2[idx].children.len(),
        j <= ch.len(),
        forall|t: int|
            #![trigger ch[t]]
            0 <= t < j ==> (ch[t] as int) < best.len() && (s2[idx].children[t] as int) < idx
                && expr_cost(cf, s2, s2[idx].children[t] as int) == best[ch[t] as int] as int,
    ensures
        children_cost(cf, s2, idx, j) == entry_children_cost(best, ch, j),
    decreases j,
{
    if j > 0 {
        assert forall|t: int|
            #![trigger ch[t]]
            0 <= t < j - 1 implies (ch[t] as int) < best.len() && (s2[idx].children[t] as int)
            < idx && expr_cost(cf, s2, s2[idx].children[t] as int) == best[ch[t] as int] as int by {
            assert(0 <= t < j);
        }
        lemma_build_cost(cf, s2, idx, best, ch, j - 1);
    }
}

/// The extractor's working state: per class, the best cost found so far and,
/// when finite, a node of `out` realizing it that the class represents.
pub open spec fn state_ok(
    cf: GateCostFunction,
    eg: BooleanEGraph,
    best: Seq<u64>,
    wit: Seq<usize>,
    out: Seq<NodeV>,
) -> bool {
    &&& best.len() == eg.n()
    &&& wit.len() == eg.n()
    &&& expr_nodes_wf(out)
    &&& forall|c: int|
        #![trigger best[c]]
        0 <= c < eg.n() && best[c] < COST_INF ==> (wit[c] as int) < out.len() && expr_cost(
            cf,
            out,
            wit[c] as int,
        ) == best[c] as int && eg.contains_expr(out, wit[c] as int, c)
}

/// Extracts, from the class of `root`, an expression of minimal cost.
///
/// On success the returned expression is represented by that class, its cost
/// is the returned cost, and no expression the class represents costs less:
/// the returned cost is the minimum over all of them. Failure means every
/// expression the class represents has unreachable cost.
#[verifier::rlimit(100)]
#[verifier::spinoff_prover]
pub fn extract(eg: &BooleanEGraph, cf: &GateCostFunction, root: usize) -> (r: Result<
    (BooleanExpression, u64),
    EngineError,
>)
    requires
        eg.wf(),
        eg.canonical(),
        (root as int) < eg.n(),
    ensures
        r is Ok ==> ({
            &&& r->Ok_0.0.wf()
            &&& r->Ok_0.1 < COST_INF
            &&& eg.contains_expr(r->Ok_0.0@, r->Ok_0.0.root(), eg.uf.lead_of(root as int))
            &&& expr_cost(*cf, r->Ok_0.0@, r->Ok_0.0.root()) == r->Ok_0.1 as int
            &&& forall|s: Seq<NodeV>, i: int|
                eg.contains_expr(s, i, eg.uf.lead_of(root as int)) ==> r->Ok_0.1 as int
                    <= expr_cost(*cf, s, i)
        }),
        r is Err ==> (forall|s: Seq<NodeV>, i: int|
            eg.contains_expr(s, i, eg.uf.lead_of(root as int)) ==> expr_cost(*cf, s, i)
                == COST_INF),
{
    let n = eg.uf.leader.len();
    let mut best: Vec<u64> = Vec::new();
    let mut wit: Vec<usize> = Vec::new();
    let mut i: usize = 0;
    while i < n
        invariant
            i <= n,
            best@.len() == i,
            wit@.len() == i,
            forall|c: int| 0 <= c < i ==> best@[c] == COST_INF,
        decreases n - i,
    {
        best.push(COST_INF);
        wit.push(0);
        i = i + 1;
    }
    let mut out: Vec<Node> = Vec::new();
    let mut changed = true;
    while changed
        invariant
            eg.wf(),
            eg.canonical(),
            n == eg.n(),
            state_ok(*cf, *eg, best@, wit@, nodes_view(out@)),
            !changed ==> fixpoint_sp(*cf, *eg, best@),
        decreases sum_best(best@, n as int) + if changed {
            1int
        } else {
            0int
        },
    {
        proof {
            lemma_sum_best_range(best@, n as int);
        }
        let ghost best0 = best@;
        changed = false;
        let m = eg.memo.len();
        let mut k: usize = 0;
        while k < m
            invariant
                eg.wf(),
                eg.canonical(),
                n == eg.n(),
                m == eg.m(),
                k <= m,
                state_ok(*cf, *eg, best@, wit@, nodes_view(out@)),
                best0.len() == n as int,
                forall|c: int| 0 <= c < n ==> (#[trigger] best@[c]) <= best0[c],
                changed ==> sum_best(best@, n as int) < sum_best(best0, n as int),
                !changed ==> best@ == best0,
                !changed ==> forall|t: int|
                    0 <= t < k ==> (best@[#[trigger] eg.entry_class(t)] as int) <= node_cost_sp(
                        *cf,
                        *eg,
                        best@,
                        t,
                    ),
            decreases m - k,
        {
            proof {
                assert(crate::egraph::entries_ok(eg.n(), eg.memo@));
                assert((eg.memo@[k as int].1 as int) < eg.n() && crate::egraph::node_ok_n(
                    eg.n(),
                    eg.memo@[k as int].0@,
                ));
                assert(crate::egraph::entry_canonical_uf(eg.uf, eg.memo@[k as int]));
            }
            let ghost ndv = eg.entry_node(k as int);
            let c = eg.memo[k].1;
            let mut cand = op_cost(cf, &eg.memo[k].0.op);
            proof {
                lemma_op_cost_range(*cf, ndv.op);
            }
            let nch = eg.memo[k].0.children.len();
            let mut j: usize = 0;
            while j < nch
                invariant
                    eg.wf(),
                    n == eg.n(),
                    (k as int) < eg.m(),
                    ndv == eg.entry_node(k as int),
                    crate::egraph::node_ok_n(eg.n(), ndv),
                    nch == ndv.children.len(),
                    j <= nch,
                    best@.len() == n as int,
                    cand as int == cost_add_sp(
                        op_cost_sp(*cf, ndv.op),
                        entry_children_cost(best@, ndv.children, j as int),
                    ),
                    cand <= COST_INF,
                decreases nch - j,
            {
                proof {
                    assert((ndv.children[j as int] as int) < eg.n());
                    lemma_entry_fold_range(best@, ndv.children, j as int);
                    lemma_entry_fold_range(best@, ndv.children, j as int + 1);
                    lemma_op_cost_range(*cf, ndv.op);
                }
                let ch_j = eg.memo[k].0.children[j];
                cand = cost_add(cand, best[ch_j]);
                j = j + 1;
            }
            proof {
                assert(cand as int == node_cost_sp(*cf, *eg, best@, k as int));
            }
            if cand < best[c] {
                // a strictly better choice: its children are all finite, so
                // each has a witness expression already built
                let ghost out0 = nodes_view(out@);
                let ghost best_pre = best@;
                proof {
                    lemma_op_cost_range(*cf, ndv.op);
                    lemma_entry_fold_range(best@, ndv.children, nch as int);
                }
                let mut new_children: Vec<usize> = Vec::new();
                let mut j: usize = 0;
                while j < nch
                    invariant
                        eg.wf(),
                        n == eg.n(),
                        (k as int) < eg.m(),
                        ndv == eg.entry_node(k as int),
                        crate::egraph::node_ok_n(eg.n(), ndv),
                        nch == ndv.children.len(),
                        j <= nch,
                        state_ok(*cf, *eg, best@, wit@, nodes_view(out@)),
                        cand as int == node_cost_sp(*cf, *eg, best@, k as int),
                        cand < COST_INF,
                        entry_children_cost(best@, ndv.children, nch as int) < COST_INF,
                        new_children@.len() == j,
                        forall|t: int|
                            #![trigger new_children@[t]]
                            0 <= t < j ==> new_children@[t] == wit@[ndv.children[t] as int]
                                && best@[ndv.children[t] as int] < COST_INF,
                    decreases nch - j,
                {
                    proof {
                        assert((ndv.children[j as int] as int) < eg.n());
                        lemma_entry_fold_bounds(best@, ndv.children, nch as int, j as int);
                    }
                    let ch_j = eg.memo[k].0.children[j];
                    new_children.push(wit[ch_j]);
                    j = j + 1;
                }
                let ghost wit_pre = wit@;
                let idx = out.len();
                out.push(Node { op: copy_op(&eg.memo[k].0.op), children: new_children });
                best[c] = cand;
                wit[c] = idx;
                changed = true;
                proof {
                    let out1 = nodes_view(out@);
                    assert(out1 =~= out0.push(out@[idx as int]@));
                    assert(out0.is_prefix_of(out1));
                    assert(out1[idx as int].op == ndv.op);
                    assert(out1[idx as int].children.len() == ndv.children.len());
                    assert(out1[idx as int].children == new_children@);
                    // the extended sequence is still well formed
                    assert forall|t: int| 0 <= t < out1.len() implies #[trigger] expr_node_wf(
                        out1,
                        t,
                    ) by {
                        if t < idx as int {
                            assert(expr_node_wf(out0, t));
                            assert(out1[t] == out0[t]);
                            assert forall|q: int|
                                0 <= q < out1[t].children.len() implies (#[trigger] out1[t].children[
                            q]) < t by {
                                assert(out0[t].children[q] < t);
                            }
                        } else {
                            assert forall|q: int|
                                0 <= q < out1[t].children.len() implies (#[trigger] out1[t].children[
                            q]) < t by {
                                assert(out1[t].children[q] == wit_pre[ndv.children[q] as int]);
                                assert(best_pre[ndv.children[q] as int] < COST_INF);
                                assert((wit_pre[ndv.children[q] as int] as int) < out0.len());
                            }
                            assert(crate::expr::arity_ok(
                                out1[t].op,
                                out1[t].children.len() as int,
                            ));
                        }
                    }
                    // each copied child realizes its class's best cost
                    assert forall|t: int|
                        #![trigger ndv.children[t]]
                        0 <= t < nch implies (ndv.children[t] as int) < best_pre.len() && (
                    out1[idx as int].children[t] as int) < idx as int && expr_cost(
                        *cf,
                        out1,
                        out1[idx as int].children[t] as int,
                    ) == best_pre[ndv.children[t] as int] as int && eg.contains_expr(
                        out1,
                        out1[idx as int].children[t] as int,
                        ndv.children[t] as int,
                    ) by {
                        assert(out1[idx as int].children[t] == wit_pre[ndv.children[t] as int]);
                        assert(best_pre[ndv.children[t] as int] < COST_INF);
                        assert(expr_cost(*cf, out0, wit_pre[ndv.children[t] as int] as int)
                            == best_pre[ndv.children[t] as int] as int);
                        lemma_expr_cost_prefix(
                            *cf,
                            out0,
                            out1,
                            wit_pre[ndv.children[t] as int] as int,
                        );
                        lemma_contains_prefix(
                            *eg,
                            out0,
                            out1,
                            wit_pre[ndv.children[t] as int] as int,
                            ndv.children[t] as int,
                        );
                    }
                    // the new node's cost equals the candidate
                    lemma_build_cost(*cf, out1, idx as int, best_pre, ndv.children, nch as int);
                    assert(expr_cost(*cf, out1, idx as int) == cand as int);
                    // the class represents the new node
                    assert(c as int == eg.entry_class(k as int));
                    assert(eg.uf.lead_of(eg.entry_class(k as int)) == eg.entry_class(k as int));
                    assert(eg.contains_expr(out1, idx as int, c as int));
                    // the whole working state is intact
                    assert forall|c2: int|
                        #![trigger best@[c2]]
                        0 <= c2 < eg.n() && best@[c2] < COST_INF implies (wit@[c2] as int)
                        < out1.len() && expr_cost(*cf, out1, wit@[c2] as int) == best@[c2] as int
                        && eg.contains_expr(out1, wit@[c2] as int, c2) by {
                        if c2 != c as int {
                            assert(best@[c2] == best_pre[c2]);
                            assert(wit@[c2] == wit_pre[c2]);
                            assert(expr_cost(*cf, out0, wit_pre[c2] as int) == best_pre[c2] as int);
                            lemma_expr_cost_prefix(*cf, out0, out1, wit_pre[c2] as int);
                            lemma_contains_prefix(*eg, out0, out1, wit_pre[c2] as int, c2);
                        }
                    }
                    // the termination measure strictly decreases
                    lemma_sum_best_update(best_pre, c as int, cand, n as int);
                    if best_pre == best0 {
                        assert(sum_best(best@, n as int) < sum_best(best0, n as int));
                    }
                }
            }
            k = k + 1;
        }
        proof {
            lemma_sum_best_range(best@, n as int);
            lemma_sum_best_range(best0, n as int);
        }
    }
    // the loop left a fixed point: no stored e-node offers any class less
    let lc = eg.find(root);
    proof {
        assert(0 <= eg.uf.lead_of(root as int) < eg.n());
    }
    if best[lc] < COST_INF {
        let tmp = BooleanExpression { nodes: out };
        let widx = wit[lc];
        let cost = best[lc];
        let e = crate::expr::subtree(&tmp, widx);
        proof {
            lemma_contains_term_eq(*eg, e@, e.root(), tmp@, widx as int, lc as int);
            lemma_expr_cost_term_eq(*cf, e@, e.root(), tmp@, widx as int);
            assert forall|s: Seq<NodeV>, i: int|
                eg.contains_expr(s, i, eg.uf.lead_of(root as int)) implies cost as int
                <= expr_cost(*cf, s, i) by {
                lemma_lower_bound(*cf, *eg, best@, s, i, lc as int);
            }
        }
        Ok((e, cost))
    } else {
        proof {
            assert forall|s: Seq<NodeV>, i: int|
                eg.contains_expr(s, i, eg.uf.lead_of(root as int)) implies expr_cost(*cf, s, i)
                == COST_INF by {
                lemma_lower_bound(*cf, *eg, best@, s, i, lc as int);
                lemma_expr_cost_range(*cf, s, i);
            }
        }
        Err(EngineError::NothingToExtract)
    }
}

} // verus!
