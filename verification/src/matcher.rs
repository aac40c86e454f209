//! The pattern matcher: enumerates, for a pattern and an e-graph, every
//! substitution under which the pattern is represented in a given e-class.
//!
//! A pattern variable binds a whole e-class, so matches implicitly range
//! over all equivalent sub-terms. Substitutions extend monotonically: a
//! binding made while matching one child constrains the remaining children,
//! and multi-pattern parts share one substitution.

use vstd::prelude::*;
use crate::egraph::BooleanEGraph;
use crate::expr::op_eq;
use crate::pattern::PNodeV;
use crate::pattern::POp;
use crate::pattern::POpV;
use crate::pattern::Pattern;
use crate::pattern::pat_node_wf;
use crate::pattern::pnodes_view;

verus! {

/// A substitution: for each variable of the rule's table, the e-class it is
/// bound to, if any.
pub struct Subst {
    pub map: Vec<Option<usize>>,
}

/// Every binding of `s` names a class id below `n`.
pub open spec fn subst_ok(s: Seq<Option<usize>>, n: int) -> bool {
    forall|v: int| 0 <= v < s.len() && s[v] is Some ==> (#[trigger] s[v])->0 < n
}

/// `b` keeps every binding of `a`.
pub open spec fn subst_extends(a: Seq<Option<usize>>, b: Seq<Option<usize>>) -> bool {
    &&& a.len() == b.len()
    &&& forall|v: int| 0 <= v < a.len() && a[v] is Some ==> #[trigger] b[v] == a[v]
}

/// Copies a substitution.
pub fn copy_subst(s: &Subst) -> (r: Subst)
    ensures
        r.map@ == s.map@,
{
    let mut map: Vec<Option<usize>> = Vec::new();
    let mut i: usize = 0;
    while i < s.map.len()
        invariant
            i <= s.map@.len(),
            map@ =~= s.map@.subrange(0, i as int),
        decreases s.map@.len() - i,
    {
        map.push(
            match s.map[i] {
                Some(c) => Some(c),
                None => None,
            },
        );
        i = i + 1;
    }
    proof {
        assert(map@ =~= s.map@);
    }
    Subst { map }
}

/// All substitutions returned by the matcher are sound extensions: same
/// table length, bindings in range, input bindings kept.
pub open spec fn results_ok(rs: Seq<Subst>, base: Seq<Option<usize>>, n: int) -> bool {
    forall|t: int|
        0 <= t < rs.len() ==> subst_ok(#[trigger] rs[t].map@, n) && subst_extends(base, rs[t].map@)
}

/// Pattern node `pidx` matches e-class `class` under substitution `sub`: a
/// variable is bound to an equivalent class; an operator node is realized by
/// some stored e-node of an equivalent class with the same operator, whose
/// children match the pattern's children.
pub open spec fn pat_matches(
    eg: BooleanEGraph,
    pat: Seq<PNodeV>,
    pidx: int,
    class: int,
    sub: Seq<Option<usize>>,
) -> bool
    decreases pidx,
{
    &&& 0 <= pidx < pat.len()
    &&& match pat[pidx].op {
        POpV::Var(v) => 0 <= v < sub.len() && sub[v] is Some && eg.uf.same(
            sub[v]->0 as int,
            class,
        ),
        POpV::Plain(op) => exists|k: int|
            #![trigger eg.entry_node(k)]
            {
                &&& 0 <= k < eg.m()
                &&& eg.uf.same(eg.entry_class(k), class)
                &&& eg.entry_node(k).op == op
                &&& eg.entry_node(k).children.len() == pat[pidx].children.len()
                &&& forall|j: int|
                    #![trigger pat[pidx].children[j]]
                    0 <= j < pat[pidx].children.len() ==> (pat[pidx].children[j] as int) < pidx
                        && pat_matches(
                        eg,
                        pat,
                        pat[pidx].children[j] as int,
                        eg.entry_node(k).children[j] as int,
                        sub,
                    )
            },
    }
}

/// A match survives extending the substitution: bindings only grow.
pub proof fn lemma_pat_matches_extends(
    eg: BooleanEGraph,
    pat: Seq<PNodeV>,
    pidx: int,
    class: int,
    a: Seq<Option<usize>>,
    b: Seq<Option<usize>>,
)
    requires
        pat_matches(eg, pat, pidx, class, a),
        subst_extends(a, b),
    ensures
        pat_matches(eg, pat, pidx, class, b),
    decreases pidx,
{
    match pat[pidx].op {
        POpV::Var(v) => {
            assert(b[v] == a[v]);
        },
        POpV::Plain(op) => {
            let k = choose|k: int|
                #![trigger eg.entry_node(k)]
                {
                    &&& 0 <= k < eg.m()
                    &&& eg.uf.same(eg.entry_class(k), class)
                    &&& eg.entry_node(k).op == op
                    &&& eg.entry_node(k).children.len() == pat[pidx].children.len()
                    &&& forall|j: int|
                        #![trigger pat[pidx].children[j]]
                        0 <= j < pat[pidx].children.len() ==> (pat[pidx].children[j] as int) < pidx
                            && pat_matches(
                            eg,
                            pat,
                            pat[pidx].children[j] as int,
                            eg.entry_node(k).children[j] as int,
                            a,
                        )
                };
            assert forall|j: int|
                #![trigger pat[pidx].children[j]]
                0 <= j < pat[pidx].children.len() implies (pat[pidx].children[j] as int) < pidx
                && pat_matches(
                eg,
                pat,
                pat[pidx].children[j] as int,
                eg.entry_node(k).children[j] as int,
                b,
            ) by {
                lemma_pat_matches_extends(
                    eg,
                    pat,
                    pat[pidx].children[j] as int,
                    eg.entry_node(k).children[j] as int,
                    a,
                    b,
                );
            }
        },
    }
}

/// Matching is a property of the e-class, not the id: equivalent class ids
/// match the same patterns.
pub proof fn lemma_pat_matches_class(
    eg: BooleanEGraph,
    pat: Seq<PNodeV>,
    pidx: int,
    c1: int,
    c2: int,
    m: Seq<Option<usize>>,
)
    requires
        pat_matches(eg, pat, pidx, c1, m),
        eg.uf.same(c1, c2),
    ensures
        pat_matches(eg, pat, pidx, c2, m),
{
    match pat[pidx].op {
        POpV::Var(_) => {},
        POpV::Plain(op) => {
            let k = choose|k: int|
                #![trigger eg.entry_node(k)]
                {
                    &&& 0 <= k < eg.m()
                    &&& eg.uf.same(eg.entry_class(k), c1)
                    &&& eg.entry_node(k).op == op
                    &&& eg.entry_node(k).children.len() == pat[pidx].children.len()
                    &&& forall|j: int|
                        #![trigger pat[pidx].children[j]]
                        0 <= j < pat[pidx].children.len() ==> (pat[pidx].children[j] as int) < pidx
                            && pat_matches(
                            eg,
                            pat,
                            pat[pidx].children[j] as int,
                            eg.entry_node(k).children[j] as int,
                            m,
                        )
                };
            assert(eg.uf.same(eg.entry_class(k), c2));
        },
    }
}

/// A match survives growing the e-graph: stored e-nodes persist and
/// equivalences only grow under `add`, `merge` and whole runs.
pub proof fn lemma_pat_matches_monotone(
    g1: BooleanEGraph,
    g2: BooleanEGraph,
    pat: Seq<PNodeV>,
    pidx: int,
    class: int,
    sub: Seq<Option<usize>>,
)
    requires
        g1.wf(),
        g1.n() <= g2.n(),
        g1.memo@.is_prefix_of(g2.memo@),
        forall|x: int, y: int|
            0 <= x < g1.n() && 0 <= y < g1.n() && g1.uf.same(x, y) ==> g2.uf.same(x, y),
        0 <= class < g1.n(),
        subst_ok(sub, g1.n()),
        pat_matches(g1, pat, pidx, class, sub),
    ensures
        pat_matches(g2, pat, pidx, class, sub),
    decreases pidx,
{
    match pat[pidx].op {
        POpV::Var(v) => {
            assert((sub[v])->0 < g1.n());
            assert(g1.uf.same(sub[v]->0 as int, class));
        },
        POpV::Plain(op) => {
            let k = choose|k: int|
                #![trigger g1.entry_node(k)]
                {
                    &&& 0 <= k < g1.m()
                    &&& g1.uf.same(g1.entry_class(k), class)
                    &&& g1.entry_node(k).op == op
                    &&& g1.entry_node(k).children.len() == pat[pidx].children.len()
                    &&& forall|j: int|
                        #![trigger pat[pidx].children[j]]
                        0 <= j < pat[pidx].children.len() ==> (pat[pidx].children[j] as int) < pidx
                            && pat_matches(
                            g1,
                            pat,
                            pat[pidx].children[j] as int,
                            g1.entry_node(k).children[j] as int,
                            sub,
                        )
                };
            assert(g2.memo@[k] == g1.memo@[k]);
            assert(g2.entry_node(k) == g1.entry_node(k));
            assert(0 <= g1.entry_class(k) < g1.n());
            assert(g2.uf.same(g2.entry_class(k), class));
            assert(g1.node_ok(g1.entry_node(k)));
            assert forall|j: int|
                #![trigger pat[pidx].children[j]]
                0 <= j < pat[pidx].children.len() implies (pat[pidx].children[j] as int) < pidx
                && pat_matches(
                g2,
                pat,
                pat[pidx].children[j] as int,
                g2.entry_node(k).children[j] as int,
                sub,
            ) by {
                assert((g1.entry_node(k).children[j] as int) < g1.n());
                lemma_pat_matches_monotone(
                    g1,
                    g2,
                    pat,
                    pat[pidx].children[j] as int,
                    g1.entry_node(k).children[j] as int,
                    sub,
                );
            }
        },
    }
}

/// A match binds every variable the pattern mentions: a variable node is
/// bound directly, and an operator node's children are matched recursively.
pub proof fn lemma_pat_matches_binds(
    eg: BooleanEGraph,
    pat: Seq<PNodeV>,
    pidx: int,
    class: int,
    sub: Seq<Option<usize>>,
    v: int,
)
    requires
        pat_matches(eg, pat, pidx, class, sub),
        pat_mentions(pat, pidx, v),
    ensures
        0 <= v < sub.len() && sub[v] is Some,
    decreases pidx,
{
    match pat[pidx].op {
        POpV::Var(_) => {},
        POpV::Plain(op) => {
            let j = choose|j: int|
                #![trigger pat[pidx].children[j]]
                0 <= j < pat[pidx].children.len() && (pat[pidx].children[j] as int) < pidx
                    && pat_mentions(pat, pat[pidx].children[j] as int, v);
            let k = choose|k: int|
                #![trigger eg.entry_node(k)]
                {
                    &&& 0 <= k < eg.m()
                    &&& eg.uf.same(eg.entry_class(k), class)
                    &&& eg.entry_node(k).op == op
                    &&& eg.entry_node(k).children.len() == pat[pidx].children.len()
                    &&& forall|jj: int|
                        #![trigger pat[pidx].children[jj]]
                        0 <= jj < pat[pidx].children.len() ==> (pat[pidx].children[jj] as int)
                            < pidx && pat_matches(
                            eg,
                            pat,
                            pat[pidx].children[jj] as int,
                            eg.entry_node(k).children[jj] as int,
                            sub,
                        )
                };
            assert(pat_matches(
                eg,
                pat,
                pat[pidx].children[j] as int,
                eg.entry_node(k).children[j] as int,
                sub,
            ));
            lemma_pat_matches_binds(
                eg,
                pat,
                pat[pidx].children[j] as int,
                eg.entry_node(k).children[j] as int,
                sub,
                v,
            );
        },
    }
}

/// The pattern node at `pidx` mentions variable `v`: it is that variable,
/// or one of its children mentions it.
pub open spec fn pat_mentions(pat: Seq<PNodeV>, pidx: int, v: int) -> bool
    decreases pidx,
{
    &&& 0 <= pidx < pat.len()
    &&& match pat[pidx].op {
        POpV::Var(w) => w == v,
        POpV::Plain(_) => exists|j: int|
            #![trigger pat[pidx].children[j]]
            0 <= j < pat[pidx].children.len() && (pat[pidx].children[j] as int) < pidx
                && pat_mentions(pat, pat[pidx].children[j] as int, v),
    }
}

/// A substitution matches the first `j` children of pattern node `pidx`
/// against the children of stored e-node `k`.
pub open spec fn sub_matches_children(
    eg: BooleanEGraph,
    pat: Seq<PNodeV>,
    pidx: int,
    k: int,
    j: int,
    m: Seq<Option<usize>>,
) -> bool {
    forall|q: int|
        #![trigger pat[pidx].children[q]]
        0 <= q < j ==> pat_matches(
            eg,
            pat,
            pat[pidx].children[q] as int,
            eg.entry_node(k).children[q] as int,
            m,
        )
}

/// Enumerates every extension of `sub` under which pattern node `pidx` is
/// represented in class `class`.
#[verifier::rlimit(100)]
#[verifier::spinoff_prover]
pub fn match_node(eg: &BooleanEGraph, pat: &Pattern, pidx: usize, class: usize, sub: &Subst) -> (r:
    Vec<Subst>)
    requires
        eg.wf(),
        pat.wf(),
        (pidx as int) < pat.nodes@.len(),
        (class as int) < eg.n(),
        subst_ok(sub.map@, eg.n()),
    ensures
        results_ok(r@, sub.map@, eg.n()),
        forall|t: int|
            0 <= t < r@.len() ==> #[trigger] pat_matches(
                *eg,
                pnodes_view(pat.nodes@),
                pidx as int,
                class as int,
                r@[t].map@,
            ),
    decreases pidx,
{
    let ghost pv = pnodes_view(pat.nodes@);
    proof {
        assert(pat_node_wf(pv, pidx as int, pat.nvars as int));
    }
    match &pat.nodes[pidx].op {
        POp::Var(v) => {
            let lc = eg.find(class);
            proof {
                assert(0 <= eg.uf.lead_of(class as int) < eg.n());
                assert(eg.uf.lead_of(eg.uf.lead_of(class as int)) == eg.uf.lead_of(class as int));
                assert(pv[pidx as int].op == POpV::Var(*v as int));
            }
            let mut r: Vec<Subst> = Vec::new();
            if *v < sub.map.len() {
                match sub.map[*v] {
                    None => {
                        let mut s2 = copy_subst(sub);
                        s2.map[*v] = Some(lc);
                        proof {
                            assert(subst_ok(s2.map@, eg.n()));
                            assert(subst_extends(sub.map@, s2.map@));
                            assert(eg.uf.same(lc as int, class as int));
                            assert(pat_matches(*eg, pv, pidx as int, class as int, s2.map@));
                        }
                        r.push(s2);
                    },
                    Some(c) => {
                        proof {
                            assert((sub.map@[*v as int])->0 < eg.n());
                        }
                        if eg.find(c) == lc {
                            proof {
                                assert(eg.uf.same(c as int, class as int));
                                assert(pat_matches(*eg, pv, pidx as int, class as int, sub.map@));
                            }
                            r.push(copy_subst(sub));
                        }
                    },
                }
            }
            r
        },
        POp::Plain(op) => {
            let mut results: Vec<Subst> = Vec::new();
            let m = eg.memo.len();
            let lc = eg.find(class);
            let mut k: usize = 0;
            while k < m
                invariant
                    eg.wf(),
                    pat.wf(),
                    (pidx as int) < pat.nodes@.len(),
                    (class as int) < eg.n(),
                    subst_ok(sub.map@, eg.n()),
                    m == eg.m(),
                    k <= m,
                    pv == pnodes_view(pat.nodes@),
                    pat.nodes@[pidx as int].op == POp::Plain(*op),
                    lc as int == eg.uf.lead_of(class as int),
                    results_ok(results@, sub.map@, eg.n()),
                    forall|t: int|
                        0 <= t < results@.len() ==> #[trigger] pat_matches(
                            *eg,
                            pv,
                            pidx as int,
                            class as int,
                            results@[t].map@,
                        ),
                decreases m - k,
            {
                proof {
                    assert(0 <= eg.entry_class(k as int) < eg.n());
                    assert(eg.node_ok(eg.entry_node(k as int)));
                }
                let nch = pat.nodes[pidx].children.len();
                if eg.find(eg.memo[k].1) == lc && op_eq(&eg.memo[k].0.op, op) && eg.memo[k].0.children.len() == nch {
                    // this e-node has the right shape: match children in order
                    let mut partial: Vec<Subst> = Vec::new();
                    partial.push(copy_subst(sub));
                    let mut j: usize = 0;
                    while j < nch
                        invariant
                            eg.wf(),
                            pat.wf(),
                            (pidx as int) < pat.nodes@.len(),
                            subst_ok(sub.map@, eg.n()),
                            (k as int) < eg.m(),
                            pv == pnodes_view(pat.nodes@),
                            nch == pat.nodes@[pidx as int].children@.len(),
                            nch == eg.entry_node(k as int).children.len(),
                            j <= nch,
                            results_ok(partial@, sub.map@, eg.n()),
                            forall|t: int|
                                #![trigger partial@[t]]
                                0 <= t < partial@.len() ==> sub_matches_children(
                                    *eg,
                                    pv,
                                    pidx as int,
                                    k as int,
                                    j as int,
                                    partial@[t].map@,
                                ),
                        decreases nch - j,
                    {
                        proof {
                            assert(pat_node_wf(
                                pnodes_view(pat.nodes@),
                                pidx as int,
                                pat.nvars as int,
                            ));
                            assert(eg.memo_wf());
                            assert(crate::egraph::entries_ok(eg.n(), eg.memo@));
                            assert((eg.memo@[k as int].1 as int) < eg.n()
                                && crate::egraph::node_ok_n(eg.n(), eg.memo@[k as int].0@));
                        }
                        let cpat = pat.nodes[pidx].children[j];
                        let cclass = eg.memo[k].0.children[j];
                        proof {
                            assert(cpat == pv[pidx as int].children[j as int]);
                            assert(cclass == eg.entry_node(k as int).children[j as int]);
                        }
                        let mut next: Vec<Subst> = Vec::new();
                        let mut t: usize = 0;
                        let np = partial.len();
                        while t < np
                            invariant
                                eg.wf(),
                                pat.wf(),
                                subst_ok(sub.map@, eg.n()),
                                pv == pnodes_view(pat.nodes@),
                                (pidx as int) < pat.nodes@.len(),
                                (k as int) < eg.m(),
                                j < nch,
                                nch == pv[pidx as int].children.len(),
                                nch == eg.entry_node(k as int).children.len(),
                                (cpat as int) < pat.nodes@.len(),
                                (cpat as int) < pidx as int,
                                cpat == pv[pidx as int].children[j as int],
                                cclass == eg.entry_node(k as int).children[j as int],
                                (cclass as int) < eg.n(),
                                np == partial@.len(),
                                t <= np,
                                results_ok(partial@, sub.map@, eg.n()),
                                forall|q: int|
                                    #![trigger partial@[q]]
                                    0 <= q < partial@.len() ==> sub_matches_children(
                                        *eg,
                                        pv,
                                        pidx as int,
                                        k as int,
                                        j as int,
                                        partial@[q].map@,
                                    ),
                                results_ok(next@, sub.map@, eg.n()),
                                forall|q: int|
                                    #![trigger next@[q]]
                                    0 <= q < next@.len() ==> sub_matches_children(
                                        *eg,
                                        pv,
                                        pidx as int,
                                        k as int,
                                        j as int + 1,
                                        next@[q].map@,
                                    ),
                            decreases np - t,
                        {
                            let found = match_node(eg, pat, cpat, cclass, &partial[t]);
                            let mut u: usize = 0;
                            let nf = found.len();
                            while u < nf
                                invariant
                                    eg.wf(),
                                    nf == found@.len(),
                                    u <= nf,
                                    t < np,
                                    np == partial@.len(),
                                    subst_ok(sub.map@, eg.n()),
                                    pv == pnodes_view(pat.nodes@),
                                    (pidx as int) < pat.nodes@.len(),
                                    (k as int) < eg.m(),
                                    j < nch,
                                    nch == pv[pidx as int].children.len(),
                                    cpat == pv[pidx as int].children[j as int],
                                    cclass == eg.entry_node(k as int).children[j as int],
                                    results_ok(partial@, sub.map@, eg.n()),
                                    forall|q: int|
                                        #![trigger partial@[q]]
                                        0 <= q < partial@.len() ==> sub_matches_children(
                                            *eg,
                                            pv,
                                            pidx as int,
                                            k as int,
                                            j as int,
                                            partial@[q].map@,
                                        ),
                                    results_ok(found@, partial@[t as int].map@, eg.n()),
                                    forall|w: int|
                                        0 <= w < found@.len() ==> #[trigger] pat_matches(
                                            *eg,
                                            pv,
                                            cpat as int,
                                            cclass as int,
                                            found@[w].map@,
                                        ),
                                    results_ok(next@, sub.map@, eg.n()),
                                    forall|q: int|
                                        #![trigger next@[q]]
                                        0 <= q < next@.len() ==> sub_matches_children(
                                            *eg,
                                            pv,
                                            pidx as int,
                                            k as int,
                                            j as int + 1,
                                            next@[q].map@,
                                        ),
                                decreases nf - u,
                            {
                                proof {
                                    assert(subst_ok(found@[u as int].map@, eg.n()));
                                    assert(subst_extends(
                                        partial@[t as int].map@,
                                        found@[u as int].map@,
                                    ));
                                    assert(subst_extends(sub.map@, partial@[t as int].map@));
                                    assert(sub_matches_children(
                                        *eg,
                                        pv,
                                        pidx as int,
                                        k as int,
                                        j as int,
                                        partial@[t as int].map@,
                                    ));
                                    assert forall|q: int|
                                        #![trigger pv[pidx as int].children[q]]
                                        0 <= q < j as int + 1 implies pat_matches(
                                        *eg,
                                        pv,
                                        pv[pidx as int].children[q] as int,
                                        eg.entry_node(k as int).children[q] as int,
                                        found@[u as int].map@,
                                    ) by {
                                        if q < j as int {
                                            assert(pat_matches(
                                                *eg,
                                                pv,
                                                pv[pidx as int].children[q] as int,
                                                eg.entry_node(k as int).children[q] as int,
                                                partial@[t as int].map@,
                                            ));
                                            lemma_pat_matches_extends(
                                                *eg,
                                                pv,
                                                pv[pidx as int].children[q] as int,
                                                eg.entry_node(k as int).children[q] as int,
                                                partial@[t as int].map@,
                                                found@[u as int].map@,
                                            );
                                        } else {
                                            assert(pat_matches(
                                                *eg,
                                                pv,
                                                cpat as int,
                                                cclass as int,
                                                found@[u as int].map@,
                                            ));
                                        }
                                    }
                                    assert(sub_matches_children(
                                        *eg,
                                        pv,
                                        pidx as int,
                                        k as int,
                                        j as int + 1,
                                        found@[u as int].map@,
                                    ));
                                }
                                next.push(copy_subst(&found[u]));
                                u = u + 1;
                            }
                            t = t + 1;
                        }
                        partial = next;
                        j = j + 1;
                    }
                    // all children matched: these are real matches of the
                    // whole pattern node, witnessed by this stored e-node
                    proof {
                        assert(eg.entry_node(k as int).op == op@);
                        assert(pv[pidx as int].op == POpV::Plain(op@));
                        assert(eg.uf.same(eg.entry_class(k as int), class as int));
                        assert(pat_node_wf(pv, pidx as int, pat.nvars as int));
                        assert forall|t: int|
                            0 <= t < partial@.len() implies #[trigger] pat_matches(
                            *eg,
                            pv,
                            pidx as int,
                            class as int,
                            partial@[t].map@,
                        ) by {
                            assert(sub_matches_children(
                                *eg,
                                pv,
                                pidx as int,
                                k as int,
                                nch as int,
                                partial@[t].map@,
                            ));
                            assert forall|q: int|
                                #![trigger pv[pidx as int].children[q]]
                                0 <= q < pv[pidx as int].children.len() implies (pv[pidx as int].children[
                            q] as int) < pidx as int && pat_matches(
                                *eg,
                                pv,
                                pv[pidx as int].children[q] as int,
                                eg.entry_node(k as int).children[q] as int,
                                partial@[t].map@,
                            ) by {}
                        }
                    }
                    let mut t: usize = 0;
                    let np = partial.len();
                    while t < np
                        invariant
                            np == partial@.len(),
                            t <= np,
                            subst_ok(sub.map@, eg.n()),
                            pv == pnodes_view(pat.nodes@),
                            results_ok(partial@, sub.map@, eg.n()),
                            forall|q: int|
                                0 <= q < partial@.len() ==> #[trigger] pat_matches(
                                    *eg,
                                    pv,
                                    pidx as int,
                                    class as int,
                                    partial@[q].map@,
                                ),
                            results_ok(results@, sub.map@, eg.n()),
                            forall|q: int|
                                0 <= q < results@.len() ==> #[trigger] pat_matches(
                                    *eg,
                                    pv,
                                    pidx as int,
                                    class as int,
                                    results@[q].map@,
                                ),
                        decreases np - t,
                    {
                        results.push(copy_subst(&partial[t]));
                        t = t + 1;
                    }
                }
                k = k + 1;
            }
            results
        },
    }
}

/// Enumerates, over every class of the e-graph, the matches of `pat`; each
/// result pairs the matched class (the anchor) with a substitution. Classes
/// are tried in ascending id order and e-nodes in storage order, so match
/// enumeration is deterministic.
pub fn search_pattern(eg: &BooleanEGraph, pat: &Pattern, base: &Subst) -> (r: Vec<(usize, Subst)>)
    requires
        eg.wf(),
        pat.wf(),
        subst_ok(base.map@, eg.n()),
    ensures
        forall|t: int|
            0 <= t < r@.len() ==> (#[trigger] r@[t].0 as int) < eg.n() && subst_ok(
                r@[t].1.map@,
                eg.n(),
            ) && subst_extends(base.map@, r@[t].1.map@) && pat_matches(
                *eg,
                pnodes_view(pat.nodes@),
                pat.root(),
                r@[t].0 as int,
                r@[t].1.map@,
            ),
{
    let mut out: Vec<(usize, Subst)> = Vec::new();
    let n = eg.uf.leader.len();
    let root = pat.nodes.len() - 1;
    let mut c: usize = 0;
    while c < n
        invariant
            eg.wf(),
            pat.wf(),
            subst_ok(base.map@, eg.n()),
            n == eg.n(),
            c <= n,
            (root as int) == pat.root(),
            forall|t: int|
                0 <= t < out@.len() ==> (#[trigger] out@[t].0 as int) < eg.n() && subst_ok(
                    out@[t].1.map@,
                    eg.n(),
                ) && subst_extends(base.map@, out@[t].1.map@) && pat_matches(
                    *eg,
                    pnodes_view(pat.nodes@),
                    pat.root(),
                    out@[t].0 as int,
                    out@[t].1.map@,
                ),
        decreases n - c,
    {
        if eg.find(c) == c {
            // `c` is a leader: match the pattern root against its class
            let subs = match_node(eg, pat, root, c, base);
            let mut t: usize = 0;
            let ns = subs.len();
            while t < ns
                invariant
                    ns == subs@.len(),
                    t <= ns,
                    c < n,
                    n == eg.n(),
                    pat.wf(),
                    (root as int) == pat.root(),
                    subst_ok(base.map@, eg.n()),
                    results_ok(subs@, base.map@, eg.n()),
                    forall|w: int|
                        0 <= w < subs@.len() ==> #[trigger] pat_matches(
                            *eg,
                            pnodes_view(pat.nodes@),
                            pat.root(),
                            c as int,
                            subs@[w].map@,
                        ),
                    forall|q: int|
                        0 <= q < out@.len() ==> (#[trigger] out@[q].0 as int) < eg.n() && subst_ok(
                            out@[q].1.map@,
                            eg.n(),
                        ) && subst_extends(base.map@, out@[q].1.map@) && pat_matches(
                            *eg,
                            pnodes_view(pat.nodes@),
                            pat.root(),
                            out@[q].0 as int,
                            out@[q].1.map@,
                        ),
                decreases ns - t,
            {
                proof {
                    assert(subst_ok(subs@[t as int].map@, eg.n()));
                    assert(subst_extends(base.map@, subs@[t as int].map@));
                    assert(pat_matches(
                        *eg,
                        pnodes_view(pat.nodes@),
                        pat.root(),
                        c as int,
                        subs@[t as int].map@,
                    ));
                }
                out.push((c, copy_subst(&subs[t])));
                t = t + 1;
            }
        }
        c = c + 1;
    }
    out
}

} // verus!
