//! The term language: node operators, e-nodes, and expression DAGs.
//!
//! An expression is a vector of nodes whose child references point strictly
//! downward; the root is the last node. The same node shape is reused by the
//! e-graph, where children are e-class ids instead of node indices.

use vstd::prelude::*;

verus! {

/// The operator of a term-language node.
pub enum Op {
    /// Top-level container of statements; child order is significant.
    Module,
    /// Binds a name (first child, a `Symbol`) to a body (second child).
    Let,
    /// Binary conjunction.
    And,
    /// Binary disjunction.
    Or,
    /// Unary negation.
    Not,
    /// Gate pin descriptor: port symbol and driver expression.
    Input,
    /// Gate pin descriptor: port symbol.
    Output,
    /// Integer literal.
    Num(i32),
    /// Wire or variable reference, by name.
    Symbol(Vec<u8>),
    /// Instance of a library cell, by name; children are its pins.
    Gate(Vec<u8>),
}

/// Mathematical model of an operator.
pub enum OpV {
    Module,
    Let,
    And,
    Or,
    Not,
    Input,
    Output,
    Num(int),
    Symbol(Seq<u8>),
    Gate(Seq<u8>),
}

impl View for Op {
    type V = OpV;

    open spec fn view(&self) -> OpV {
        match self {
            Op::Module => OpV::Module,
            Op::Let => OpV::Let,
            Op::And => OpV::And,
            Op::Or => OpV::Or,
            Op::Not => OpV::Not,
            Op::Input => OpV::Input,
            Op::Output => OpV::Output,
            Op::Num(n) => OpV::Num(*n as int),
            Op::Symbol(s) => OpV::Symbol(s@),
            Op::Gate(s) => OpV::Gate(s@),
        }
    }
}

/// Whether an operator admits `k` children.
pub open spec fn arity_ok(op: OpV, k: int) -> bool {
    match op {
        OpV::Module => true,
        OpV::Let => k == 2,
        OpV::And => k == 2,
        OpV::Or => k == 2,
        OpV::Not => k == 1,
        OpV::Input => k == 2,
        OpV::Output => k == 1,
        OpV::Num(_) => k == 0,
        OpV::Symbol(_) => k == 0,
        OpV::Gate(_) => true,
    }
}

/// A node: an operator with ordered children. In an expression the children
/// are node indices; in the e-graph they are e-class ids.
pub struct Node {
    pub op: Op,
    pub children: Vec<usize>,
}

/// Mathematical model of a node.
pub struct NodeV {
    pub op: OpV,
    pub children: Seq<usize>,
}

impl View for Node {
    type V = NodeV;

    open spec fn view(&self) -> NodeV {
        NodeV { op: self.op@, children: self.children@ }
    }
}

/// Byte-string equality.
pub fn bytes_eq(a: &Vec<u8>, b: &Vec<u8>) -> (r: bool)
    ensures
        r == (a@ == b@),
{
    if a.len() != b.len() {
        return false;
    }
    let mut i: usize = 0;
    while i < a.len()
        invariant
            i <= a.len(),
            a@.len() == b@.len(),
            forall|j: int| 0 <= j < i ==> a@[j] == b@[j],
        decreases a.len() - i,
    {
        if a[i] != b[i] {
            return false;
        }
        i = i + 1;
    }
    proof {
        assert(a@ =~= b@);
    }
    true
}

/// Copies a byte string.
pub fn copy_bytes(a: &Vec<u8>) -> (r: Vec<u8>)
    ensures
        r@ == a@,
{
    let mut out: Vec<u8> = Vec::new();
    let mut i: usize = 0;
    while i < a.len()
        invariant
            i <= a.len(),
            out@ =~= a@.subrange(0, i as int),
        decreases a.len() - i,
    {
        out.push(a[i]);
        i = i + 1;
    }
    proof {
        assert(out@ =~= a@);
    }
    out
}

/// Index-vector equality.
pub fn usizes_eq(a: &Vec<usize>, b: &Vec<usize>) -> (r: bool)
    ensures
        r == (a@ == b@),
{
    if a.len() != b.len() {
        return false;
    }
    let mut i: usize = 0;
    while i < a.len()
        invariant
            i <= a.len(),
            a@.len() == b@.len(),
            forall|j: int| 0 <= j < i ==> a@[j] == b@[j],
        decreases a.len() - i,
    {
        if a[i] != b[i] {
            return false;
        }
        i = i + 1;
    }
    proof {
        assert(a@ =~= b@);
    }
    true
}

/// Operator equality, by value.
pub fn op_eq(a: &Op, b: &Op) -> (r: bool)
    ensures
        r == (a@ == b@),
{
    match (a, b) {
        (Op::Module, Op::Module) => true,
        (Op::Let, Op::Let) => true,
        (Op::And, Op::And) => true,
        (Op::Or, Op::Or) => true,
        (Op::Not, Op::Not) => true,
        (Op::Input, Op::Input) => true,
        (Op::Output, Op::Output) => true,
        (Op::Num(x), Op::Num(y)) => x == y,
        (Op::Symbol(x), Op::Symbol(y)) => bytes_eq(x, y),
        (Op::Gate(x), Op::Gate(y)) => bytes_eq(x, y),
        _ => false,
    }
}

/// Copies an operator.
pub fn copy_op(a: &Op) -> (r: Op)
    ensures
        r@ == a@,
{
    match a {
        Op::Module => Op::Module,
        Op::Let => Op::Let,
        Op::And => Op::And,
        Op::Or => Op::Or,
        Op::Not => Op::Not,
        Op::Input => Op::Input,
        Op::Output => Op::Output,
        Op::Num(n) => Op::Num(*n),
        Op::Symbol(s) => Op::Symbol(copy_bytes(s)),
        Op::Gate(s) => Op::Gate(copy_bytes(s)),
    }
}

/// Node equality: same operator and the same child sequence.
pub fn node_eq(a: &Node, b: &Node) -> (r: bool)
    ensures
        r == (a@ == b@),
{
    let r = op_eq(&a.op, &b.op) && usizes_eq(&a.children, &b.children);
    proof {
        if a@.op == b@.op && a@.children == b@.children {
            assert(a@ == b@);
        }
    }
    r
}

/// Model of a node sequence.
pub open spec fn nodes_view(s: Seq<Node>) -> Seq<NodeV> {
    s.map_values(|n: Node| n@)
}

/// Node `i` of expression `s` is well formed: its operator admits its child
/// count and every child index points strictly downward.
pub open spec fn expr_node_wf(s: Seq<NodeV>, i: int) -> bool {
    &&& arity_ok(s[i].op, s[i].children.len() as int)
    &&& forall|j: int| 0 <= j < s[i].children.len() ==> (#[trigger] s[i].children[j]) < i
}

/// Every node of the sequence is well formed.
pub open spec fn expr_nodes_wf(s: Seq<NodeV>) -> bool {
    forall|i: int| 0 <= i < s.len() ==> #[trigger] expr_node_wf(s, i)
}

/// A well-formed expression: non-empty, acyclic by construction.
pub open spec fn expr_wf(s: Seq<NodeV>) -> bool {
    s.len() > 0 && expr_nodes_wf(s)
}

/// Structural equality of the term rooted at `a[i]` and the term rooted at
/// `b[j]`: same operators, same shape, recursively.
pub open spec fn term_eq(a: Seq<NodeV>, i: int, b: Seq<NodeV>, j: int) -> bool
    decreases i,
{
    &&& 0 <= i < a.len()
    &&& 0 <= j < b.len()
    &&& a[i].op == b[j].op
    &&& a[i].children.len() == b[j].children.len()
    &&& forall|k: int|
        #![trigger a[i].children[k]]
        0 <= k < a[i].children.len() ==> (a[i].children[k] as int) < i && (b[j].children[k] as int)
            < j && term_eq(a, a[i].children[k] as int, b, b[j].children[k] as int)
}

/// A term is structurally equal to itself wherever children point downward.
pub proof fn lemma_term_eq_refl(a: Seq<NodeV>, i: int)
    requires
        expr_nodes_wf(a),
        0 <= i < a.len(),
    ensures
        term_eq(a, i, a, i),
    decreases i,
{
    assert(expr_node_wf(a, i));
    assert forall|k: int|
        #![trigger a[i].children[k]]
        0 <= k < a[i].children.len() implies (a[i].children[k] as int) < i && term_eq(
        a,
        a[i].children[k] as int,
        a,
        a[i].children[k] as int,
    ) by {
        lemma_term_eq_refl(a, a[i].children[k] as int);
    }
}

/// Structural equality only reads nodes at or below the root index, so it is
/// stable under extending either sequence.
pub proof fn lemma_term_eq_prefix(a: Seq<NodeV>, a2: Seq<NodeV>, i: int, b: Seq<NodeV>, j: int)
    requires
        term_eq(a, i, b, j),
        a.is_prefix_of(a2),
    ensures
        term_eq(a2, i, b, j),
    decreases i,
{
    assert(a2[i] == a[i]);
    assert forall|k: int|
        #![trigger a2[i].children[k]]
        0 <= k < a2[i].children.len() implies (a2[i].children[k] as int) < i && (b[j].children[
        k] as int) < j && term_eq(a2, a2[i].children[k] as int, b, b[j].children[k] as int) by {
        assert(a[i].children[k] == a2[i].children[k]);
        assert(term_eq(a, a[i].children[k] as int, b, b[j].children[k] as int));
        lemma_term_eq_prefix(a, a2, a[i].children[k] as int, b, b[j].children[k] as int);
    }
}

/// An expression DAG: nodes with strictly downward child references; the
/// root is the last node. Returned expressions are independent deep copies
/// that do not reference any e-graph.
pub struct BooleanExpression {
    pub nodes: Vec<Node>,
}

impl View for BooleanExpression {
    type V = Seq<NodeV>;

    open spec fn view(&self) -> Seq<NodeV> {
        nodes_view(self.nodes@)
    }
}

impl BooleanExpression {
    /// Well-formedness: non-empty and acyclic.
    pub open spec fn wf(&self) -> bool {
        expr_wf(self@)
    }

    /// The root index.
    pub open spec fn root(&self) -> int {
        self@.len() - 1
    }

    /// The root node's index.
    pub fn root_idx(&self) -> (r: usize)
        requires
            self.wf(),
        ensures
            r as int == self.root(),
    {
        self.nodes.len() - 1
    }
}

/// Appends a deep copy of the subtree of `e` rooted at `i` to `out`;
/// returns the index of the copied root. Sharing inside the source DAG is
/// not preserved: the copy is a tree.
pub fn subtree_into(e: &Vec<Node>, i: usize, out: &mut Vec<Node>) -> (r: usize)
    requires
        expr_nodes_wf(nodes_view(e@)),
        i < e@.len(),
        expr_nodes_wf(nodes_view(old(out)@)),
    ensures
        expr_nodes_wf(nodes_view(final(out)@)),
        old(out)@.len() < final(out)@.len(),
        r as int == final(out)@.len() - 1,
        nodes_view(old(out)@).is_prefix_of(nodes_view(final(out)@)),
        term_eq(nodes_view(final(out)@), r as int, nodes_view(e@), i as int),
    decreases i,
{
    let ghost ev = nodes_view(e@);
    assert(expr_node_wf(ev, i as int));
    let mut new_children: Vec<usize> = Vec::new();
    let n_children = e[i].children.len();
    let mut k: usize = 0;
    while k < n_children
        invariant
            expr_nodes_wf(ev),
            i < ev.len(),
            ev == nodes_view(e@),
            n_children == ev[i as int].children.len(),
            k <= n_children,
            expr_nodes_wf(nodes_view(out@)),
            nodes_view(old(out)@).is_prefix_of(nodes_view(out@)),
            new_children@.len() == k,
            forall|t: int|
                0 <= t < k ==> (#[trigger] new_children@[t] as int) < nodes_view(out@).len()
                    && term_eq(
                    nodes_view(out@),
                    new_children@[t] as int,
                    ev,
                    ev[i as int].children[t] as int,
                ),
        decreases n_children - k,
    {
        let ghost out_before = nodes_view(out@);
        proof {
            assert(expr_node_wf(ev, i as int));
        }
        let child = e[i].children[k];
        assert((ev[i as int].children[k as int] as int) < i as int);
        let c = subtree_into(e, child, out);
        proof {
            assert forall|t: int|
                0 <= t < k implies (#[trigger] new_children@[t] as int) < nodes_view(out@).len()
                && term_eq(
                nodes_view(out@),
                new_children@[t] as int,
                ev,
                ev[i as int].children[t] as int,
            ) by {
                lemma_term_eq_prefix(
                    out_before,
                    nodes_view(out@),
                    new_children@[t] as int,
                    ev,
                    ev[i as int].children[t] as int,
                );
            }
        }
        new_children.push(c);
        k = k + 1;
    }
    let ghost out_mid = nodes_view(out@);
    let root_node = Node { op: copy_op(&e[i].op), children: new_children };
    let r = out.len();
    out.push(root_node);
    proof {
        let out_now = nodes_view(out@);
        assert(out_now =~= out_mid.push(root_node@));
        assert(out_now[r as int].op == ev[i as int].op);
        assert(out_now[r as int].children.len() == ev[i as int].children.len());
        assert(expr_node_wf(out_now, r as int));
        assert forall|t: int| 0 <= t < out_now.len() implies #[trigger] expr_node_wf(
            out_now,
            t,
        ) by {
            if t < r as int {
                assert(expr_node_wf(out_mid, t));
                assert(out_now[t] == out_mid[t]);
                assert forall|j: int|
                    0 <= j < out_now[t].children.len() implies (#[trigger] out_now[t].children[j])
                    < t by {
                    assert(out_mid[t].children[j] < t);
                }
            }
        }
        assert forall|t: int|
            #![trigger out_now[r as int].children[t]]
            0 <= t < out_now[r as int].children.len() implies (out_now[r as int].children[t] as int)
            < r as int && (ev[i as int].children[t] as int) < i as int && term_eq(
            out_now,
            out_now[r as int].children[t] as int,
            ev,
            ev[i as int].children[t] as int,
        ) by {
            assert(expr_node_wf(ev, i as int));
            assert(out_now[r as int].children[t] == new_children@[t]);
            lemma_term_eq_prefix(
                out_mid,
                out_now,
                new_children@[t] as int,
                ev,
                ev[i as int].children[t] as int,
            );
        }
        assert(term_eq(out_now, r as int, ev, i as int));
    }
    r
}

/// A deep copy of the subtree of `e` rooted at `i`, as a fresh expression.
pub fn subtree(e: &BooleanExpression, i: usize) -> (r: BooleanExpression)
    requires
        e.wf(),
        i < e@.len(),
    ensures
        r.wf(),
        term_eq(r@, r.root(), e@, i as int),
{
    let mut out: Vec<Node> = Vec::new();
    let root = subtree_into(&e.nodes, i, &mut out);
    BooleanExpression { nodes: out }
}

} // verus!
