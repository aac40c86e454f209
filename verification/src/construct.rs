//! The expression construction interface: collaborators build an initial
//! expression directly in an e-graph, node by node, and receive opaque ids.
//!
//! While a graph is only grown this way (no merges), every class holds
//! exactly the node it was created for, children name older classes, and a
//! whole expression can be read back out of the graph.

use vstd::prelude::*;
use crate::egraph::BooleanEGraph;
use crate::egraph::canon_node_spec;
use crate::egraph::entries_downward;
use crate::expr::BooleanExpression;
use crate::expr::Node;
use crate::expr::NodeV;
use crate::expr::Op;
use crate::expr::OpV;
use crate::expr::copy_op;
use crate::expr::expr_nodes_wf;
use crate::expr::nodes_view;
use crate::extract::lemma_contains_prefix;

verus! {

/// An opaque e-node id, bound to the e-graph that produced it.
pub struct BooleanId(pub usize);

/// A fresh, empty e-graph.
pub fn egraph_new() -> (r: BooleanEGraph)
    ensures
        r.wf(),
        r.canonical(),
        r.unmerged(),
        entries_downward(r.memo@),
        r.n() == 0,
{
    BooleanEGraph::new()
}

/// Reads the expression of class `c` back out of a merge-free e-graph,
/// appending its nodes to `out` and returning the root's index.
pub fn id_to_expr_into(eg: &BooleanEGraph, c: usize, out: &mut Vec<Node>) -> (r: usize)
    requires
        eg.wf(),
        eg.unmerged(),
        entries_downward(eg.memo@),
        (c as int) < eg.n(),
        expr_nodes_wf(nodes_view(old(out)@)),
    ensures
        expr_nodes_wf(nodes_view(final(out)@)),
        nodes_view(old(out)@).is_prefix_of(nodes_view(final(out)@)),
        old(out)@.len() <= (r as int),
        r as int == final(out)@.len() - 1,
        eg.contains_expr(nodes_view(final(out)@), r as int, c as int),
    decreases c,
{
    // find the e-node stored for this class; a merge-free graph has one
    let m = eg.memo.len();
    let mut k: usize = 0;
    let mut found: Option<usize> = None;
    while k < m
        invariant
            m == eg.m(),
            k <= m,
            found is None ==> forall|t: int| 0 <= t < k ==> (#[trigger] eg.memo@[t]).1 != c,
            found is Some ==> (found->0 as int) < eg.m() && eg.memo@[found->0 as int].1 == c,
        decreases m - k,
    {
        if found.is_none() && eg.memo[k].1 == c {
            found = Some(k);
        }
        k = k + 1;
    }
    proof {
        if found is None {
            assert(eg.class_has_node(c as int));
            let w = choose|w: int|
                0 <= w < eg.m() && eg.same_class(eg.entry_class(w), c as int);
            assert(eg.uf.lead_of(eg.entry_class(w)) == eg.entry_class(w));
            assert(eg.uf.lead_of(c as int) == c as int);
            assert(eg.memo@[w].1 == c);
            assert(false);
        }
    }
    let ke = match found {
        Some(ke) => ke,
        None => 0,
    };
    proof {
        assert((eg.memo@[ke as int].1 as int) < eg.n() && crate::egraph::node_ok_n(
            eg.n(),
            eg.memo@[ke as int].0@,
        ));
    }
    let ghost ndv = eg.entry_node(ke as int);
    let nch = eg.memo[ke].0.children.len();
    let mut new_children: Vec<usize> = Vec::new();
    let mut j: usize = 0;
    while j < nch
        invariant
            eg.wf(),
            eg.unmerged(),
            entries_downward(eg.memo@),
            (c as int) < eg.n(),
            (ke as int) < eg.m(),
            ndv == eg.entry_node(ke as int),
            eg.memo@[ke as int].1 == c,
            crate::egraph::node_ok_n(eg.n(), ndv),
            nch == ndv.children.len(),
            j <= nch,
            expr_nodes_wf(nodes_view(out@)),
            nodes_view(old(out)@).is_prefix_of(nodes_view(out@)),
            new_children@.len() == j,
            forall|t: int|
                #![trigger new_children@[t]]
                0 <= t < j ==> (new_children@[t] as int) < nodes_view(out@).len()
                    && eg.contains_expr(
                    nodes_view(out@),
                    new_children@[t] as int,
                    ndv.children[t] as int,
                ),
        decreases nch - j,
    {
        proof {
            assert(entries_downward(eg.memo@));
            assert((eg.memo@[ke as int].0@.children[j as int] as int) < eg.memo@[ke as int].1 as int);
            assert((ndv.children[j as int] as int) < eg.n());
        }
        let ghost out_before = nodes_view(out@);
        let child = eg.memo[ke].0.children[j];
        let ci = id_to_expr_into(eg, child, out);
        proof {
            assert forall|t: int|
                #![trigger new_children@[t]]
                0 <= t < j implies (new_children@[t] as int) < nodes_view(out@).len()
                && eg.contains_expr(
                nodes_view(out@),
                new_children@[t] as int,
                ndv.children[t] as int,
            ) by {
                lemma_contains_prefix(
                    *eg,
                    out_before,
                    nodes_view(out@),
                    new_children@[t] as int,
                    ndv.children[t] as int,
                );
            }
        }
        new_children.push(ci);
        j = j + 1;
    }
    let ghost out_mid = nodes_view(out@);
    let idx = out.len();
    out.push(Node { op: copy_op(&eg.memo[ke].0.op), children: new_children });
    proof {
        let out_now = nodes_view(out@);
        assert(out_now =~= out_mid.push(out@[idx as int]@));
        assert(out_now[idx as int].op == ndv.op);
        assert(out_now[idx as int].children == new_children@);
        assert forall|t: int| 0 <= t < out_now.len() implies #[trigger] crate::expr::expr_node_wf(
            out_now,
            t,
        ) by {
            if t < idx as int {
                assert(crate::expr::expr_node_wf(out_mid, t));
                assert(out_now[t] == out_mid[t]);
                assert forall|q: int|
                    0 <= q < out_now[t].children.len() implies (#[trigger] out_now[t].children[q])
                    < t by {
                    assert(out_mid[t].children[q] < t);
                }
            } else {
                assert(crate::expr::arity_ok(out_now[t].op, out_now[t].children.len() as int));
            }
        }
        // the class represents the appended node
        assert(eg.uf.lead_of(eg.entry_class(ke as int)) == eg.entry_class(ke as int));
        assert forall|q: int|
            #![trigger out_now[idx as int].children[q]]
            0 <= q < out_now[idx as int].children.len() implies (out_now[idx as int].children[
        q] as int) < idx as int && eg.contains_expr(
            out_now,
            out_now[idx as int].children[q] as int,
            ndv.children[q] as int,
        ) by {
            lemma_contains_prefix(
                *eg,
                out_mid,
                out_now,
                new_children@[q] as int,
                ndv.children[q] as int,
            );
        }
        assert(eg.contains_expr(out_now, idx as int, c as int));
    }
    idx
}

/// The full expression of class `c`, as a fresh DAG.
pub fn id_to_expr(eg: &BooleanEGraph, c: usize) -> (r: BooleanExpression)
    requires
        eg.wf(),
        eg.unmerged(),
        entries_downward(eg.memo@),
        (c as int) < eg.n(),
    ensures
        r.wf(),
        eg.contains_expr(r@, r.root(), c as int),
{
    let mut out: Vec<Node> = Vec::new();
    let root = id_to_expr_into(eg, c, &mut out);
    let e = BooleanExpression { nodes: out };
    proof {
        assert(eg.contains_expr(e@, e.root(), c as int));
    }
    e
}

/// Adds one node built from an operator and child ids: the canonicalized
/// node is stored (or found) and the returned id leads its class; an
/// already-present node leaves the graph unchanged.
fn build_node(eg: &mut BooleanEGraph, op: Op, children: Vec<usize>) -> (r: usize)
    requires
        old(eg).wf(),
        old(eg).n() < usize::MAX,
        crate::expr::arity_ok(op@, children@.len() as int),
        forall|t: int| 0 <= t < children@.len() ==> (#[trigger] children@[t] as int) < old(eg).n(),
    ensures
        final(eg).wf(),
        old(eg).n() <= final(eg).n() <= old(eg).n() + 1,
        (r as int) < final(eg).n(),
        final(eg).uf.lead_of(r as int) == r as int,
        forall|i: int| 0 <= i < old(eg).n() ==> final(eg).uf.lead_of(i) == old(eg).uf.lead_of(i),
        old(eg).memo@.is_prefix_of(final(eg).memo@),
        old(eg).canonical() ==> final(eg).canonical(),
        old(eg).unmerged() ==> final(eg).unmerged(),
        entries_downward(old(eg).memo@) ==> entries_downward(final(eg).memo@),
        final(eg).has_node(canon_node_spec(old(eg).uf, NodeV { op: op@, children: children@ })),
        r as int == final(eg).uf.lead_of(
            final(eg).node_class(canon_node_spec(old(eg).uf, NodeV { op: op@, children: children@ })),
        ),
        old(eg).has_node(canon_node_spec(old(eg).uf, NodeV { op: op@, children: children@ }))
            ==> *final(eg) == *old(eg),
    {
    eg.add(Node { op, children })
}

/// The ensures every simple builder gives: the canonicalized node for the
/// given operator and children is stored, the returned id leads its class,
/// and building an already-present node changes nothing.
pub open spec fn built_node_ok(
    pre: BooleanEGraph,
    post: BooleanEGraph,
    op: OpV,
    children: Seq<usize>,
    r: BooleanId,
) -> bool {
    let cn = canon_node_spec(pre.uf, NodeV { op, children });
    &&& post.has_node(cn)
    &&& r.0 as int == post.uf.lead_of(post.node_class(cn))
    &&& (pre.has_node(cn) ==> post == pre)
}

/// Adds an AND of two existing nodes.
pub fn build_and(eg: &mut BooleanEGraph, lhs: BooleanId, rhs: BooleanId) -> (r: BooleanId)
    requires
        old(eg).wf(),
        old(eg).n() < usize::MAX,
        (lhs.0 as int) < old(eg).n(),
        (rhs.0 as int) < old(eg).n(),
    ensures
        final(eg).wf(),
        old(eg).n() <= final(eg).n() <= old(eg).n() + 1,
        (r.0 as int) < final(eg).n(),
        final(eg).uf.lead_of(r.0 as int) == r.0 as int,
        old(eg).memo@.is_prefix_of(final(eg).memo@),
        forall|i: int| 0 <= i < old(eg).n() ==> final(eg).uf.lead_of(i) == old(eg).uf.lead_of(i),
        old(eg).canonical() ==> final(eg).canonical(),
        old(eg).unmerged() ==> final(eg).unmerged(),
        entries_downward(old(eg).memo@) ==> entries_downward(final(eg).memo@),
        built_node_ok(*old(eg), *final(eg), OpV::And, seq![lhs.0, rhs.0], r),
{
    let mut ch: Vec<usize> = Vec::new();
    ch.push(lhs.0);
    ch.push(rhs.0);
    proof {
        assert(ch@ =~= seq![lhs.0, rhs.0]);
    }
    BooleanId(build_node(eg, Op::And, ch))
}

/// Adds an OR of two existing nodes.
pub fn build_or(eg: &mut BooleanEGraph, lhs: BooleanId, rhs: BooleanId) -> (r: BooleanId)
    requires
        old(eg).wf(),
        old(eg).n() < usize::MAX,
        (lhs.0 as int) < old(eg).n(),
        (rhs.0 as int) < old(eg).n(),
    ensures
        final(eg).wf(),
        old(eg).n() <= final(eg).n() <= old(eg).n() + 1,
        (r.0 as int) < final(eg).n(),
        final(eg).uf.lead_of(r.0 as int) == r.0 as int,
        old(eg).memo@.is_prefix_of(final(eg).memo@),
        forall|i: int| 0 <= i < old(eg).n() ==> final(eg).uf.lead_of(i) == old(eg).uf.lead_of(i),
        old(eg).canonical() ==> final(eg).canonical(),
        old(eg).unmerged() ==> final(eg).unmerged(),
        entries_downward(old(eg).memo@) ==> entries_downward(final(eg).memo@),
        built_node_ok(*old(eg), *final(eg), OpV::Or, seq![lhs.0, rhs.0], r),
{
    let mut ch: Vec<usize> = Vec::new();
    ch.push(lhs.0);
    ch.push(rhs.0);
    proof {
        assert(ch@ =~= seq![lhs.0, rhs.0]);
    }
    BooleanId(build_node(eg, Op::Or, ch))
}

/// Adds a NOT of an existing node.
pub fn build_not(eg: &mut BooleanEGraph, input: BooleanId) -> (r: BooleanId)
    requires
        old(eg).wf(),
        old(eg).n() < usize::MAX,
        (input.0 as int) < old(eg).n(),
    ensures
        final(eg).wf(),
        old(eg).n() <= final(eg).n() <= old(eg).n() + 1,
        (r.0 as int) < final(eg).n(),
        final(eg).uf.lead_of(r.0 as int) == r.0 as int,
        old(eg).memo@.is_prefix_of(final(eg).memo@),
        forall|i: int| 0 <= i < old(eg).n() ==> final(eg).uf.lead_of(i) == old(eg).uf.lead_of(i),
        old(eg).canonical() ==> final(eg).canonical(),
        old(eg).unmerged() ==> final(eg).unmerged(),
        entries_downward(old(eg).memo@) ==> entries_downward(final(eg).memo@),
        built_node_ok(*old(eg), *final(eg), OpV::Not, seq![input.0], r),
{
    let mut ch: Vec<usize> = Vec::new();
    ch.push(input.0);
    proof {
        assert(ch@ =~= seq![input.0]);
    }
    BooleanId(build_node(eg, Op::Not, ch))
}

/// Adds an integer literal node.
pub fn build_num(eg: &mut BooleanEGraph, num: i32) -> (r: BooleanId)
    requires
        old(eg).wf(),
        old(eg).n() < usize::MAX,
    ensures
        final(eg).wf(),
        old(eg).n() <= final(eg).n() <= old(eg).n() + 1,
        (r.0 as int) < final(eg).n(),
        final(eg).uf.lead_of(r.0 as int) == r.0 as int,
        old(eg).memo@.is_prefix_of(final(eg).memo@),
        forall|i: int| 0 <= i < old(eg).n() ==> final(eg).uf.lead_of(i) == old(eg).uf.lead_of(i),
        old(eg).canonical() ==> final(eg).canonical(),
        old(eg).unmerged() ==> final(eg).unmerged(),
        entries_downward(old(eg).memo@) ==> entries_downward(final(eg).memo@),
        built_node_ok(*old(eg), *final(eg), OpV::Num(num as int), Seq::empty(), r),
{
    let ch: Vec<usize> = Vec::new();
    proof {
        assert(ch@ =~= Seq::<usize>::empty());
    }
    BooleanId(build_node(eg, Op::Num(num), ch))
}

/// Adds a wire or variable reference node.
pub fn build_symbol(eg: &mut BooleanEGraph, name: Vec<u8>) -> (r: BooleanId)
    requires
        old(eg).wf(),
        old(eg).n() < usize::MAX,
    ensures
        final(eg).wf(),
        old(eg).n() <= final(eg).n() <= old(eg).n() + 1,
        (r.0 as int) < final(eg).n(),
        final(eg).uf.lead_of(r.0 as int) == r.0 as int,
        old(eg).memo@.is_prefix_of(final(eg).memo@),
        forall|i: int| 0 <= i < old(eg).n() ==> final(eg).uf.lead_of(i) == old(eg).uf.lead_of(i),
        old(eg).canonical() ==> final(eg).canonical(),
        old(eg).unmerged() ==> final(eg).unmerged(),
        entries_downward(old(eg).memo@) ==> entries_downward(final(eg).memo@),
        built_node_ok(*old(eg), *final(eg), OpV::Symbol(name@), Seq::empty(), r),
{
    let ch: Vec<usize> = Vec::new();
    proof {
        assert(ch@ =~= Seq::<usize>::empty());
    }
    BooleanId(build_node(eg, Op::Symbol(name), ch))
}

/// Adds a `let` binding the name (added as a symbol node) to an existing
/// body node: afterwards the graph stores the symbol node and, in the
/// returned id's class, a `Let` e-node whose first child's class holds that
/// symbol and whose second child is the body's class.
pub fn build_let(eg: &mut BooleanEGraph, name: Vec<u8>, expr: BooleanId) -> (r: BooleanId)
    requires
        old(eg).wf(),
        old(eg).n() + 2 <= usize::MAX,
        (expr.0 as int) < old(eg).n(),
    ensures
        final(eg).wf(),
        old(eg).n() <= final(eg).n() <= old(eg).n() + 2,
        (r.0 as int) < final(eg).n(),
        final(eg).uf.lead_of(r.0 as int) == r.0 as int,
        old(eg).memo@.is_prefix_of(final(eg).memo@),
        forall|i: int| 0 <= i < old(eg).n() ==> final(eg).uf.lead_of(i) == old(eg).uf.lead_of(i),
        old(eg).canonical() ==> final(eg).canonical(),
        old(eg).unmerged() ==> final(eg).unmerged(),
        entries_downward(old(eg).memo@) ==> entries_downward(final(eg).memo@),
        ({
            let symv = NodeV { op: OpV::Symbol(name@), children: Seq::empty() };
            &&& final(eg).has_node(symv)
            &&& exists|k: int|
                #![trigger final(eg).entry_node(k)]
                {
                    &&& 0 <= k < final(eg).m()
                    &&& final(eg).entry_node(k).op is Let
                    &&& final(eg).entry_node(k).children.len() == 2
                    &&& final(eg).same_class(
                        final(eg).entry_node(k).children[1] as int,
                        expr.0 as int,
                    )
                    &&& final(eg).same_class(final(eg).entry_class(k), r.0 as int)
                    &&& exists|l: int|
                        #![trigger final(eg).entry_node(l)]
                        0 <= l < final(eg).m() && final(eg).entry_node(l) == symv
                            && final(eg).same_class(
                            final(eg).entry_class(l),
                            final(eg).entry_node(k).children[0] as int,
                        )
                }
        }),
{
    let ghost symv = NodeV { op: OpV::Symbol(name@), children: Seq::<usize>::empty() };
    let name_id = build_symbol(eg, name);
    let ghost mid = *eg;
    proof {
        assert(canon_node_spec(old(eg).uf, symv).children =~= Seq::<usize>::empty());
        assert(canon_node_spec(old(eg).uf, symv) == symv);
        assert(mid.has_node(symv));
    }
    let ghost l0 = choose|l: int| 0 <= l < mid.m() && mid.entry_node(l) == symv;
    proof {
        // the symbol entry is unique, so its class is the one returned
        let lc = choose|t: int| 0 <= t < mid.m() && mid.entry_node(t) == symv;
        if lc != l0 {
            assert(false);
        }
        assert(name_id.0 as int == mid.uf.lead_of(mid.entry_class(l0)));
    }
    let mut ch: Vec<usize> = Vec::new();
    ch.push(name_id.0);
    ch.push(expr.0);
    proof {
        assert(ch@ =~= seq![name_id.0, expr.0]);
    }
    let rid = build_node(eg, Op::Let, ch);
    proof {
        let letcn = canon_node_spec(mid.uf, NodeV { op: OpV::Let, children: seq![name_id.0, expr.0] });
        assert(letcn.children =~= seq![
            (mid.uf.leader@[name_id.0 as int]),
            (mid.uf.leader@[expr.0 as int]),
        ]);
        assert(eg.has_node(letcn));
        let k = choose|k: int| 0 <= k < eg.m() && eg.entry_node(k) == letcn;
        let k2 = choose|t: int| 0 <= t < eg.m() && eg.entry_node(t) == letcn;
        if k2 != k {
            assert(false);
        }
        assert(rid as int == eg.uf.lead_of(eg.entry_class(k)));
        // leads of earlier ids are untouched by both additions
        assert(mid.uf.lead_of(name_id.0 as int) == name_id.0 as int);
        assert(letcn.children[0] == name_id.0);
        assert(letcn.children[1] as int == mid.uf.lead_of(expr.0 as int));
        assert(eg.uf.lead_of(letcn.children[1] as int) == eg.uf.lead_of(expr.0 as int));
        assert(eg.same_class(eg.entry_node(k).children[1] as int, expr.0 as int));
        assert(eg.same_class(eg.entry_class(k), rid as int));
        // the symbol entry persists at its index, in the first child's class
        assert(eg.memo@[l0] == mid.memo@[l0]);
        assert(eg.entry_node(l0) == symv);
        assert(eg.has_node(symv));
        assert(eg.entry_class(l0) == mid.entry_class(l0));
        assert(eg.uf.lead_of(eg.entry_class(l0)) == mid.uf.lead_of(mid.entry_class(l0)));
        assert(eg.same_class(eg.entry_class(l0), eg.entry_node(k).children[0] as int));
    }
    BooleanId(rid)
}

/// Adds a `module` node over the statements and reads the whole module
/// expression back out of the (merge-free) graph: the result's root is a
/// `Module` whose children represent the statements' classes, in order.
pub fn build_module(eg: &mut BooleanEGraph, stmts: Vec<BooleanId>) -> (r: BooleanExpression)
    requires
        old(eg).wf(),
        old(eg).unmerged(),
        entries_downward(old(eg).memo@),
        old(eg).n() < usize::MAX,
        forall|t: int| 0 <= t < stmts@.len() ==> ((#[trigger] stmts@[t]).0 as int) < old(eg).n(),
    ensures
        final(eg).wf(),
        final(eg).unmerged(),
        entries_downward(final(eg).memo@),
        old(eg).n() <= final(eg).n() <= old(eg).n() + 1,
        old(eg).memo@.is_prefix_of(final(eg).memo@),
        forall|i: int| 0 <= i < old(eg).n() ==> final(eg).uf.lead_of(i) == old(eg).uf.lead_of(i),
        r.wf(),
        r@[r.root()].op is Module,
        r@[r.root()].children.len() == stmts@.len(),
        forall|t: int|
            #![trigger stmts@[t]]
            0 <= t < stmts@.len() ==> (r@[r.root()].children[t] as int) < r.root()
                && final(eg).contains_expr(
                r@,
                r@[r.root()].children[t] as int,
                stmts@[t].0 as int,
            ),
        exists|c: int| 0 <= c < final(eg).n() && final(eg).contains_expr(r@, r.root(), c),
{
    let mut ch: Vec<usize> = Vec::new();
    let mut t: usize = 0;
    let ns = stmts.len();
    while t < ns
        invariant
            ns == stmts@.len(),
            t <= ns,
            ch@.len() == t,
            forall|q: int| 0 <= q < stmts@.len() ==> ((#[trigger] stmts@[q]).0 as int) < old(eg).n(),
            forall|q: int| 0 <= q < t ==> #[trigger] ch@[q] == stmts@[q].0,
            (*eg) == *old(eg),
        decreases ns - t,
    {
        ch.push(stmts[t].0);
        t = t + 1;
    }
    let ghost chv = ch@;
    let id = build_node(eg, Op::Module, ch);
    // read each statement's expression back, then close with the module root
    let mut out: Vec<Node> = Vec::new();
    let mut kids: Vec<usize> = Vec::new();
    let mut t: usize = 0;
    while t < ns
        invariant
            ns == stmts@.len(),
            t <= ns,
            eg.wf(),
            eg.unmerged(),
            entries_downward(eg.memo@),
            forall|q: int| 0 <= q < stmts@.len() ==> ((#[trigger] stmts@[q]).0 as int) < eg.n(),
            expr_nodes_wf(nodes_view(out@)),
            kids@.len() == t,
            forall|q: int|
                #![trigger kids@[q]]
                0 <= q < t ==> (kids@[q] as int) < nodes_view(out@).len() && eg.contains_expr(
                    nodes_view(out@),
                    kids@[q] as int,
                    stmts@[q].0 as int,
                ),
        decreases ns - t,
    {
        let ghost out_before = nodes_view(out@);
        let ci = id_to_expr_into(eg, stmts[t].0, &mut out);
        proof {
            assert forall|q: int|
                #![trigger kids@[q]]
                0 <= q < t implies (kids@[q] as int) < nodes_view(out@).len() && eg.contains_expr(
                nodes_view(out@),
                kids@[q] as int,
                stmts@[q].0 as int,
            ) by {
                lemma_contains_prefix(
                    *eg,
                    out_before,
                    nodes_view(out@),
                    kids@[q] as int,
                    stmts@[q].0 as int,
                );
            }
        }
        kids.push(ci);
        t = t + 1;
    }
    let ghost out_mid = nodes_view(out@);
    let idx = out.len();
    out.push(Node { op: Op::Module, children: kids });
    proof {
        let out_now = nodes_view(out@);
        assert(out_now =~= out_mid.push(out@[idx as int]@));
        assert(out_now[idx as int].op == OpV::Module);
        assert(out_now[idx as int].children == kids@);
        assert forall|q: int| 0 <= q < out_now.len() implies #[trigger] crate::expr::expr_node_wf(
            out_now,
            q,
        ) by {
            if q < idx as int {
                assert(crate::expr::expr_node_wf(out_mid, q));
                assert(out_now[q] == out_mid[q]);
                assert forall|w: int|
                    0 <= w < out_now[q].children.len() implies (#[trigger] out_now[q].children[w])
                    < q by {
                    assert(out_mid[q].children[w] < q);
                }
            } else {
                assert(crate::expr::arity_ok(out_now[q].op, out_now[q].children.len() as int));
            }
        }
        assert forall|q: int|
            #![trigger stmts@[q]]
            0 <= q < stmts@.len() implies (out_now[idx as int].children[q] as int) < idx as int
            && eg.contains_expr(
            out_now,
            out_now[idx as int].children[q] as int,
            stmts@[q].0 as int,
        ) by {
            assert(out_now[idx as int].children[q] == kids@[q]);
            lemma_contains_prefix(*eg, out_mid, out_now, kids@[q] as int, stmts@[q].0 as int);
        }
    }
    let e = BooleanExpression { nodes: out };
    proof {
        // the module node just added represents the whole result
        let cn = canon_node_spec(old(eg).uf, NodeV { op: OpV::Module, children: chv });
        assert(eg.has_node(cn));
        let k = choose|k: int| 0 <= k < eg.m() && eg.entry_node(k) == cn;
        assert forall|q: int|
            0 <= q < cn.children.len() implies #[trigger] cn.children[q] == chv[q] by {
            assert((chv[q] as int) < old(eg).n());
            assert(old(eg).uf.lead_of(chv[q] as int) == chv[q] as int);
        }
        assert(cn.children =~= chv);
        assert(e@[e.root()].children == kids@);
        assert forall|q: int|
            #![trigger e@[e.root()].children[q]]
            0 <= q < e@[e.root()].children.len() implies (e@[e.root()].children[q] as int)
            < e.root() && eg.contains_expr(
            e@,
            e@[e.root()].children[q] as int,
            eg.entry_node(k).children[q] as int,
        ) by {
            assert(eg.entry_node(k).children[q] == stmts@[q].0);
            assert(eg.contains_expr(e@, kids@[q] as int, stmts@[q].0 as int));
        }
        assert(0 <= eg.entry_class(k) < eg.n());
        assert(eg.uf.lead_of(eg.entry_class(k)) == eg.entry_class(k));
        assert(eg.contains_expr(e@, e.root(), eg.entry_class(k)));
    }
    e
}

/// Appends a statement id to a statement list, keeping the earlier ones in
/// place and in order.
pub fn append_expr(stmts: &mut Vec<BooleanId>, expr: BooleanId)
    ensures
        final(stmts)@ == old(stmts)@.push(expr),
{
    stmts.push(expr);
}

} // verus!
