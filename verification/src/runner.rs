//! The saturation runner: repeatedly searches all rules, applies every match,
//! and rebuilds, until quiescence or a budget is hit.
//!
//! Searches and applies are phase-separated within an iteration: all searches
//! see the same e-graph snapshot, and all applies happen before the rebuild.
//! Budgets are polled at iteration boundaries, so a cancellation leaves the
//! e-graph in a valid, extractable state. Termination is unconditional: the
//! loop is bounded by the iteration limit, which Verus checks.

use vstd::prelude::*;
use crate::egraph::BooleanEGraph;
use crate::expr::NodeV;
use crate::matcher::Subst;
use crate::matcher::copy_subst;
use crate::matcher::lemma_pat_matches_binds;
use crate::matcher::lemma_pat_matches_class;
use crate::matcher::lemma_pat_matches_extends;
use crate::matcher::lemma_pat_matches_monotone;
use crate::matcher::match_node;
use crate::matcher::pat_matches;
use crate::matcher::pat_mentions;
use crate::matcher::search_pattern;
use crate::matcher::subst_extends;
use crate::matcher::subst_ok;
use crate::pattern::POpV;
use crate::pattern::Pattern;
use crate::pattern::pnodes_view;
use crate::rules::EngineError;
use crate::rules::Rule;
use crate::rules::Searcher;
use crate::rules::applier_bound;
use crate::rules::instantiate;
use crate::rules::rule_covered;
use crate::rules::searcher_covers;

verus! {

/// A monotonic clock reading, opaque to verification.
#[verifier::external_type_specification]
#[verifier::external_body]
pub struct ExInstant(std::time::Instant);

/// Relies on std::time::Instant::now: a monotonic clock reading. Nothing is
/// promised of the value.
#[verifier::external_body]
fn clock_now() -> std::time::Instant {
    std::time::Instant::now()
}

/// Relies on std::time::Instant::elapsed and Duration::as_millis: the
/// milliseconds since `start`, saturated to 64 bits. Nothing is promised of
/// the value.
#[verifier::external_body]
fn clock_elapsed_millis(start: &std::time::Instant) -> u64 {
    let ms = start.elapsed().as_millis();
    if ms > u64::MAX as u128 {
        u64::MAX
    } else {
        ms as u64
    }
}

/// Why the saturation loop stopped.
pub enum StopReason {
    /// A whole iteration created no class and moved no leader.
    Saturated,
    /// The iteration limit was reached.
    IterationLimit,
    /// The stored e-node count exceeded the node limit.
    NodeLimit,
    /// The time budget ran out.
    TimeLimit,
}

/// Budgets for one saturation run.
pub struct RunnerLimits {
    pub iter_limit: usize,
    pub node_limit: usize,
    pub time_limit_millis: u64,
}

impl RunnerLimits {
    /// The default budgets: 30 iterations, 10 000 e-nodes, 5 seconds.
    pub fn standard() -> (r: RunnerLimits)
        ensures
            r.iter_limit == 30,
            r.node_limit == 10000,
            r.time_limit_millis == 5000,
    {
        RunnerLimits { iter_limit: 30, node_limit: 10000, time_limit_millis: 5000 }
    }
}

/// What a saturation run did.
pub struct Report {
    pub iterations: usize,
    pub stop_reason: StopReason,
    pub class_count: usize,
    pub node_count: usize,
}

/// One recorded merge: the rule that caused it and the two class ids merged.
pub struct Justification {
    pub rule: usize,
    pub a: usize,
    pub b: usize,
}

/// Every recorded justification names two ids that the graph has proven
/// equal.
pub open spec fn justs_valid(eg: BooleanEGraph, js: Seq<Justification>) -> bool {
    forall|t: int|
        #![trigger js[t]]
        0 <= t < js.len() ==> (js[t].a as int) < eg.n() && (js[t].b as int) < eg.n()
            && eg.same_class(js[t].a as int, js[t].b as int)
}

/// Every recorded justification names a rule index below the rule count.
pub open spec fn justs_ruled(js: Seq<Justification>, nrules: int) -> bool {
    forall|t: int| #![trigger js[t]] 0 <= t < js.len() ==> (js[t].rule as int) < nrules
}

/// All rules are well formed.
pub open spec fn rules_wf(rs: Seq<Rule>) -> bool {
    forall|t: int| 0 <= t < rs.len() ==> (#[trigger] rs[t]).wf()
}

/// Every rule's applier variables occur in its searcher. Rules built by this
/// crate's constructors always are, and applying a real match of such a rule
/// cannot fail.
pub open spec fn rules_covered(rs: Seq<Rule>) -> bool {
    forall|t: int| 0 <= t < rs.len() ==> rule_covered(#[trigger] rs[t])
}

/// The first `upto` parts of a multi-pattern searcher are matched under `m`:
/// each part's anchor variable is bound and its pattern matches that class.
pub open spec fn parts_matched(
    eg: BooleanEGraph,
    parts: Seq<(usize, Pattern)>,
    upto: int,
    m: Seq<Option<usize>>,
) -> bool {
    forall|i: int|
        #![trigger parts[i]]
        0 <= i < upto ==> (parts[i].0 as int) < m.len() && m[parts[i].0 as int] is Some
            && pat_matches(
            eg,
            pnodes_view(parts[i].1.nodes@),
            parts[i].1.root(),
            m[parts[i].0 as int]->0 as int,
            m,
        )
}

/// The rule's searcher matches with anchor class `anchor` under `m`: a
/// single pattern matches the anchor's class; a multi-pattern has every part
/// matched at its bound class, with the target variable bound to the anchor.
pub open spec fn rule_matches(eg: BooleanEGraph, rule: Rule, anchor: int, m: Seq<Option<usize>>) -> bool {
    match rule.searcher {
        Searcher::Single(p) => pat_matches(eg, pnodes_view(p.nodes@), p.root(), anchor, m),
        Searcher::Multi { parts, target } => {
            &&& (target as int) < m.len()
            &&& m[target as int] is Some
            &&& eg.uf.same(m[target as int]->0 as int, anchor)
            &&& parts_matched(eg, parts@, parts@.len() as int, m)
        },
    }
}

/// A rule match survives growing the e-graph: stored e-nodes persist and
/// equivalences only grow.
pub proof fn lemma_rule_matches_monotone(
    g1: BooleanEGraph,
    g2: BooleanEGraph,
    rule: Rule,
    anchor: int,
    m: Seq<Option<usize>>,
)
    requires
        g1.wf(),
        rule.wf(),
        g1.n() <= g2.n(),
        g1.memo@.is_prefix_of(g2.memo@),
        forall|x: int, y: int|
            0 <= x < g1.n() && 0 <= y < g1.n() && g1.uf.same(x, y) ==> g2.uf.same(x, y),
        0 <= anchor < g1.n(),
        subst_ok(m, g1.n()),
        rule_matches(g1, rule, anchor, m),
    ensures
        rule_matches(g2, rule, anchor, m),
{
    match rule.searcher {
        Searcher::Single(p) => {
            lemma_pat_matches_monotone(g1, g2, pnodes_view(p.nodes@), p.root(), anchor, m);
        },
        Searcher::Multi { parts, target } => {
            assert((m[target as int])->0 < g1.n());
            assert(g2.uf.same(m[target as int]->0 as int, anchor));
            assert forall|i: int|
                #![trigger parts@[i]]
                0 <= i < parts@.len() implies (parts@[i].0 as int) < m.len() && m[parts@[i].0 as int]
                is Some && pat_matches(
                g2,
                pnodes_view(parts@[i].1.nodes@),
                parts@[i].1.root(),
                m[parts@[i].0 as int]->0 as int,
                m,
            ) by {
                assert((m[parts@[i].0 as int])->0 < g1.n());
                assert(parts@[i].1.wf());
                lemma_pat_matches_monotone(
                    g1,
                    g2,
                    pnodes_view(parts@[i].1.nodes@),
                    parts@[i].1.root(),
                    m[parts@[i].0 as int]->0 as int,
                    m,
                );
            }
        },
    }
}

/// A real match of a covered rule binds every variable its applier uses, so
/// instantiating the applier under it cannot fail.
pub proof fn lemma_match_binds_applier(
    eg: BooleanEGraph,
    rule: Rule,
    anchor: int,
    m: Seq<Option<usize>>,
)
    requires
        rule.wf(),
        rule_covered(rule),
        rule_matches(eg, rule, anchor, m),
    ensures
        applier_bound(pnodes_view(rule.applier.nodes@), m),
{
    assert forall|t: int|
        #![trigger pnodes_view(rule.applier.nodes@)[t]]
        0 <= t < rule.applier.nodes@.len() implies (pnodes_view(rule.applier.nodes@)[t].op matches
        POpV::Var(v) ==> 0 <= v < m.len() && m[v] is Some) by {
        match pnodes_view(rule.applier.nodes@)[t].op {
            POpV::Var(v) => {
                assert(searcher_covers(rule.searcher, v));
                match rule.searcher {
                    Searcher::Single(p) => {
                        lemma_pat_matches_binds(
                            eg,
                            pnodes_view(p.nodes@),
                            p.root(),
                            anchor,
                            m,
                            v,
                        );
                    },
                    Searcher::Multi { parts, target: _ } => {
                        if exists|i: int|
                            0 <= i < parts@.len() && (#[trigger] parts@[i]).0 as int == v {
                            let i = choose|i: int|
                                0 <= i < parts@.len() && (#[trigger] parts@[i]).0 as int == v;
                            assert(m[parts@[i].0 as int] is Some);
                        } else {
                            let i = choose|i: int|
                                0 <= i < parts@.len() && pat_mentions(
                                    pnodes_view((#[trigger] parts@[i]).1.nodes@),
                                    parts@[i].1.root(),
                                    v,
                                );
                            assert(m[parts@[i].0 as int] is Some);
                            lemma_pat_matches_binds(
                                eg,
                                pnodes_view(parts@[i].1.nodes@),
                                parts@[i].1.root(),
                                m[parts@[i].0 as int]->0 as int,
                                m,
                                v,
                            );
                        }
                    },
                }
            },
            POpV::Plain(_) => {},
        }
    }
}

/// Counts the classes (ids that are their own leader).
pub fn count_classes(eg: &BooleanEGraph) -> (r: usize)
    requires
        eg.wf(),
    ensures
        r as nat == eg.uf.num_roots(),
{
    let n = eg.uf.leader.len();
    let mut count: usize = 0;
    let mut i: usize = 0;
    while i < n
        invariant
            i <= n,
            n == eg.n(),
            eg.wf(),
            count as nat == crate::egraph::count_roots(eg.uf.leader@, i as int),
            count <= i,
        decreases n - i,
    {
        if eg.find(i) == i {
            count = count + 1;
        }
        i = i + 1;
    }
    count
}

/// Enumerates every match of a rule's searcher: pairs of anchor class and
/// substitution. For a single pattern the anchor is the matched class; for a
/// multi-pattern it is the class bound to the target variable.
pub fn search_rule(eg: &BooleanEGraph, rule: &Rule) -> (r: Vec<(usize, Subst)>)
    requires
        eg.wf(),
        rule.wf(),
    ensures
        forall|t: int|
            #![trigger r@[t]]
            0 <= t < r@.len() ==> (r@[t].0 as int) < eg.n() && subst_ok(r@[t].1.map@, eg.n())
                && rule_matches(*eg, *rule, r@[t].0 as int, r@[t].1.map@),
{
    let mut base_map: Vec<Option<usize>> = Vec::new();
    let mut i: usize = 0;
    while i < rule.nvars
        invariant
            i <= rule.nvars,
            base_map@.len() == i,
            forall|v: int| 0 <= v < i ==> base_map@[v] is None,
        decreases rule.nvars - i,
    {
        base_map.push(None);
        i = i + 1;
    }
    let base = Subst { map: base_map };
    match &rule.searcher {
        Searcher::Single(p) => {
            let found = search_pattern(eg, p, &base);
            proof {
                assert forall|q: int|
                    0 <= q < found@.len() implies ((#[trigger] found@[q]).0 as int) < eg.n()
                    && subst_ok(found@[q].1.map@, eg.n()) && pat_matches(
                    *eg,
                    pnodes_view(p.nodes@),
                    p.root(),
                    found@[q].0 as int,
                    found@[q].1.map@,
                ) by {
                    assert((found@[q].0 as int) < eg.n());
                }
            }
            let mut out: Vec<(usize, Subst)> = Vec::new();
            let mut t: usize = 0;
            let nf = found.len();
            while t < nf
                invariant
                    nf == found@.len(),
                    t <= nf,
                    eg.wf(),
                    rule.searcher == Searcher::Single(*p),
                    forall|q: int|
                        0 <= q < found@.len() ==> ((#[trigger] found@[q]).0 as int) < eg.n()
                            && subst_ok(found@[q].1.map@, eg.n()) && pat_matches(
                            *eg,
                            pnodes_view(p.nodes@),
                            p.root(),
                            found@[q].0 as int,
                            found@[q].1.map@,
                        ),
                    forall|q: int|
                        #![trigger out@[q]]
                        0 <= q < out@.len() ==> (out@[q].0 as int) < eg.n() && subst_ok(
                            out@[q].1.map@,
                            eg.n(),
                        ) && rule_matches(*eg, *rule, out@[q].0 as int, out@[q].1.map@),
                decreases nf - t,
            {
                out.push((found[t].0, copy_subst(&found[t].1)));
                t = t + 1;
            }
            out
        },
        Searcher::Multi { parts, target } => {
            proof {
                assert forall|q: int|
                    #![trigger parts@[q]]
                    0 <= q < parts@.len() implies parts@[q].1.wf() by {}
            }
            let mut substs: Vec<Subst> = Vec::new();
            substs.push(base);
            let np = parts.len();
            let mut pi: usize = 0;
            while pi < np
                invariant
                    np == parts@.len(),
                    pi <= np,
                    eg.wf(),
                    forall|q: int|
                        #![trigger parts@[q]]
                        0 <= q < parts@.len() ==> parts@[q].1.wf(),
                    forall|q: int|
                        0 <= q < substs@.len() ==> subst_ok((#[trigger] substs@[q]).map@, eg.n()),
                    forall|q: int|
                        0 <= q < substs@.len() ==> parts_matched(
                            *eg,
                            parts@,
                            pi as int,
                            (#[trigger] substs@[q]).map@,
                        ),
                decreases np - pi,
            {
                proof {
                    assert(parts@[pi as int].1.wf());
                }
                let v = parts[pi].0;
                let mut next: Vec<Subst> = Vec::new();
                let n = eg.uf.leader.len();
                let mut c: usize = 0;
                while c < n
                    invariant
                        n == eg.n(),
                        c <= n,
                        eg.wf(),
                        pi < np,
                        np == parts@.len(),
                        parts@[pi as int].1.wf(),
                        v == parts@[pi as int].0,
                        forall|q: int|
                            0 <= q < substs@.len() ==> subst_ok(
                                (#[trigger] substs@[q]).map@,
                                eg.n(),
                            ),
                        forall|q: int|
                            0 <= q < substs@.len() ==> parts_matched(
                                *eg,
                                parts@,
                                pi as int,
                                (#[trigger] substs@[q]).map@,
                            ),
                        forall|q: int|
                            0 <= q < next@.len() ==> subst_ok((#[trigger] next@[q]).map@, eg.n()),
                        forall|q: int|
                            0 <= q < next@.len() ==> parts_matched(
                                *eg,
                                parts@,
                                pi as int + 1,
                                (#[trigger] next@[q]).map@,
                            ),
                    decreases n - c,
                {
                    if eg.find(c) == c {
                        let ns = substs.len();
                        let mut t: usize = 0;
                        while t < ns
                            invariant
                                ns == substs@.len(),
                                t <= ns,
                                eg.wf(),
                                pi < np,
                                np == parts@.len(),
                                parts@[pi as int].1.wf(),
                                v == parts@[pi as int].0,
                                c < n,
                                n == eg.n(),
                                eg.uf.lead_of(c as int) == c as int,
                                forall|q: int|
                                    0 <= q < substs@.len() ==> subst_ok(
                                        (#[trigger] substs@[q]).map@,
                                        eg.n(),
                                    ),
                                forall|q: int|
                                    0 <= q < substs@.len() ==> parts_matched(
                                        *eg,
                                        parts@,
                                        pi as int,
                                        (#[trigger] substs@[q]).map@,
                                    ),
                                forall|q: int|
                                    0 <= q < next@.len() ==> subst_ok(
                                        (#[trigger] next@[q]).map@,
                                        eg.n(),
                                    ),
                                forall|q: int|
                                    0 <= q < next@.len() ==> parts_matched(
                                        *eg,
                                        parts@,
                                        pi as int + 1,
                                        (#[trigger] next@[q]).map@,
                                    ),
                            decreases ns - t,
                        {
                            // bind the part's anchor variable to this class
                            let vv = v;
                            let mut bound: Option<Subst> = None;
                            if vv < substs[t].map.len() {
                                match substs[t].map[vv] {
                                    None => {
                                        let mut s2 = copy_subst(&substs[t]);
                                        s2.map[vv] = Some(c);
                                        bound = Some(s2);
                                    },
                                    Some(b) => {
                                        proof {
                                            assert((substs@[t as int].map@[vv as int])->0 < eg.n());
                                        }
                                        if eg.find(b) == c {
                                            bound = Some(copy_subst(&substs[t]));
                                        }
                                    },
                                }
                            }
                            match bound {
                                Some(s2) => {
                                    proof {
                                        assert(subst_ok(s2.map@, eg.n()));
                                        assert(subst_extends(substs@[t as int].map@, s2.map@));
                                        assert((vv as int) < s2.map@.len() && s2.map@[vv as int]
                                            is Some && eg.uf.same(
                                            s2.map@[vv as int]->0 as int,
                                            c as int,
                                        ));
                                        assert(parts_matched(*eg, parts@, pi as int, s2.map@))
                                            by {
                                            assert forall|i: int|
                                                #![trigger parts@[i]]
                                                0 <= i < pi as int implies (parts@[i].0 as int)
                                                < s2.map@.len() && s2.map@[parts@[i].0 as int]
                                                is Some && pat_matches(
                                                *eg,
                                                pnodes_view(parts@[i].1.nodes@),
                                                parts@[i].1.root(),
                                                s2.map@[parts@[i].0 as int]->0 as int,
                                                s2.map@,
                                            ) by {
                                                assert(parts_matched(
                                                    *eg,
                                                    parts@,
                                                    pi as int,
                                                    substs@[t as int].map@,
                                                ));
                                                assert(substs@[t as int].map@[parts@[i].0 as int]
                                                    is Some);
                                                lemma_pat_matches_extends(
                                                    *eg,
                                                    pnodes_view(parts@[i].1.nodes@),
                                                    parts@[i].1.root(),
                                                    substs@[t as int].map@[parts@[i].0 as int]->0 as int,
                                                    substs@[t as int].map@,
                                                    s2.map@,
                                                );
                                            }
                                        }
                                    }
                                    let root = parts[pi].1.nodes.len() - 1;
                                    let found = match_node(eg, &parts[pi].1, root, c, &s2);
                                    let mut u: usize = 0;
                                    let nf = found.len();
                                    while u < nf
                                        invariant
                                            nf == found@.len(),
                                            u <= nf,
                                            eg.wf(),
                                            pi < np,
                                            np == parts@.len(),
                                            parts@[pi as int].1.wf(),
                                            v == parts@[pi as int].0,
                                            vv == v,
                                            c < n,
                                            n == eg.n(),
                                            (root as int) == parts@[pi as int].1.root(),
                                            subst_ok(s2.map@, eg.n()),
                                            (vv as int) < s2.map@.len(),
                                            s2.map@[vv as int] is Some,
                                            eg.uf.same(s2.map@[vv as int]->0 as int, c as int),
                                            parts_matched(*eg, parts@, pi as int, s2.map@),
                                            crate::matcher::results_ok(found@, s2.map@, eg.n()),
                                            forall|w: int|
                                                0 <= w < found@.len() ==> #[trigger] pat_matches(
                                                    *eg,
                                                    pnodes_view(parts@[pi as int].1.nodes@),
                                                    parts@[pi as int].1.root(),
                                                    c as int,
                                                    found@[w].map@,
                                                ),
                                            forall|q: int|
                                                0 <= q < next@.len() ==> subst_ok(
                                                    (#[trigger] next@[q]).map@,
                                                    eg.n(),
                                                ),
                                            forall|q: int|
                                                0 <= q < next@.len() ==> parts_matched(
                                                    *eg,
                                                    parts@,
                                                    pi as int + 1,
                                                    (#[trigger] next@[q]).map@,
                                                ),
                                        decreases nf - u,
                                    {
                                        proof {
                                            let m = found@[u as int].map@;
                                            assert(subst_ok(m, eg.n()));
                                            assert(subst_extends(s2.map@, m));
                                            assert(m[vv as int] == s2.map@[vv as int]);
                                            assert(pat_matches(
                                                *eg,
                                                pnodes_view(parts@[pi as int].1.nodes@),
                                                parts@[pi as int].1.root(),
                                                c as int,
                                                m,
                                            ));
                                            lemma_pat_matches_class(
                                                *eg,
                                                pnodes_view(parts@[pi as int].1.nodes@),
                                                parts@[pi as int].1.root(),
                                                c as int,
                                                m[vv as int]->0 as int,
                                                m,
                                            );
                                            assert forall|i: int|
                                                #![trigger parts@[i]]
                                                0 <= i < pi as int + 1 implies (parts@[i].0 as int)
                                                < m.len() && m[parts@[i].0 as int] is Some
                                                && pat_matches(
                                                *eg,
                                                pnodes_view(parts@[i].1.nodes@),
                                                parts@[i].1.root(),
                                                m[parts@[i].0 as int]->0 as int,
                                                m,
                                            ) by {
                                                if i < pi as int {
                                                    assert(s2.map@[parts@[i].0 as int] is Some);
                                                    lemma_pat_matches_extends(
                                                        *eg,
                                                        pnodes_view(parts@[i].1.nodes@),
                                                        parts@[i].1.root(),
                                                        s2.map@[parts@[i].0 as int]->0 as int,
                                                        s2.map@,
                                                        m,
                                                    );
                                                }
                                            }
                                            assert(parts_matched(*eg, parts@, pi as int + 1, m));
                                        }
                                        next.push(copy_subst(&found[u]));
                                        u = u + 1;
                                    }
                                },
                                None => {},
                            }
                            t = t + 1;
                        }
                    }
                    c = c + 1;
                }
                substs = next;
                pi = pi + 1;
            }
            // the anchor is the class bound to the target variable
            let mut out: Vec<(usize, Subst)> = Vec::new();
            let ns = substs.len();
            let mut t: usize = 0;
            while t < ns
                invariant
                    ns == substs@.len(),
                    t <= ns,
                    eg.wf(),
                    np == parts@.len(),
                    rule.searcher == (Searcher::Multi { parts: *parts, target: *target }),
                    forall|q: int|
                        0 <= q < substs@.len() ==> subst_ok((#[trigger] substs@[q]).map@, eg.n()),
                    forall|q: int|
                        0 <= q < substs@.len() ==> parts_matched(
                            *eg,
                            parts@,
                            np as int,
                            (#[trigger] substs@[q]).map@,
                        ),
                    forall|q: int|
                        #![trigger out@[q]]
                        0 <= q < out@.len() ==> (out@[q].0 as int) < eg.n() && subst_ok(
                            out@[q].1.map@,
                            eg.n(),
                        ) && rule_matches(*eg, *rule, out@[q].0 as int, out@[q].1.map@),
                decreases ns - t,
            {
                if *target < substs[t].map.len() {
                    match substs[t].map[*target] {
                        Some(a) => {
                            proof {
                                assert((substs@[t as int].map@[*target as int])->0 < eg.n());
                                assert(parts_matched(
                                    *eg,
                                    parts@,
                                    np as int,
                                    substs@[t as int].map@,
                                ));
                                assert(eg.uf.same(a as int, a as int));
                                assert(rule_matches(*eg, *rule, a as int, substs@[t as int].map@));
                            }
                            out.push((a, copy_subst(&substs[t])));
                        },
                        None => {},
                    }
                }
                t = t + 1;
            }
            out
        },
    }
}

/// Applies one match: instantiates the rule's applier under the substitution
/// and merges the result with the anchor class. On success the returned
/// class represents the applier template under the substitution and shares
/// a class with the anchor — the rewrite law: the matched sub-expression and
/// its rewritten form become equal. Success is owed exactly when the
/// substitution binds every variable of the applier. Records the merge as a
/// justification for explanations.
pub fn apply_match(
    eg: &mut BooleanEGraph,
    rule: &Rule,
    anchor: usize,
    sub: &Subst,
    rule_idx: usize,
    just: &mut Vec<Justification>,
) -> (r: Result<usize, EngineError>)
    requires
        old(eg).wf(),
        rule.wf(),
        (anchor as int) < old(eg).n(),
        subst_ok(sub.map@, old(eg).n()),
        old(eg).n() + rule.applier.nodes@.len() <= usize::MAX,
        justs_valid(*old(eg), old(just)@),
    ensures
        final(eg).wf(),
        old(eg).n() <= final(eg).n() <= old(eg).n() + rule.applier.nodes@.len(),
        old(eg).memo@.is_prefix_of(final(eg).memo@),
        forall|i: int, j: int|
            0 <= i < old(eg).n() && 0 <= j < old(eg).n() && old(eg).same_class(i, j)
                ==> final(eg).same_class(i, j),
        justs_valid(*final(eg), final(just)@),
        r is Ok ==> (r->Ok_0 as int) < final(eg).n() && final(eg).same_class(
            anchor as int,
            r->Ok_0 as int,
        ),
        r is Ok <==> applier_bound(pnodes_view(rule.applier.nodes@), sub.map@),
        r is Ok ==> pat_matches(
            *final(eg),
            pnodes_view(rule.applier.nodes@),
            rule.applier.root(),
            r->Ok_0 as int,
            sub.map@,
        ),
        r is Ok ==> final(just)@ == old(just)@.push(
            Justification { rule: rule_idx, a: anchor, b: r->Ok_0 },
        ),
        r is Err ==> r->Err_0 is UnboundVariable && final(just)@ == old(just)@,
{
    let ghost g0 = *eg;
    let inst = match instantiate(eg, &rule.applier, sub) {
        Ok(c) => c,
        Err(e) => {
            proof {
                assert forall|t: int|
                    #![trigger just@[t]]
                    0 <= t < just@.len() implies (just@[t].a as int) < eg.n() && (
                just@[t].b as int) < eg.n() && eg.same_class(just@[t].a as int, just@[t].b as int) by {
                    assert((old(just)@[t].a as int) < g0.n());
                    assert((old(just)@[t].b as int) < g0.n());
                    assert(g0.same_class(just@[t].a as int, just@[t].b as int));
                }
            }
            return Err(e);
        },
    };
    proof {
        assert forall|i: int, j: int|
            0 <= i < g0.n() && 0 <= j < g0.n() && g0.same_class(i, j) implies eg.same_class(
            i,
            j,
        ) by {}
    }
    let ghost g1 = *eg;
    let (_, _changed) = eg.merge(anchor, inst);
    just.push(Justification { rule: rule_idx, a: anchor, b: inst });
    proof {
        // the instantiated template survives the merge: the stored e-nodes
        // are untouched and equivalences only grow
        assert(g1.memo@.is_prefix_of(eg.memo@)) by {
            assert(g1.memo@ =~= eg.memo@.subrange(0, g1.memo@.len() as int));
        }
        assert forall|v: int|
            0 <= v < sub.map@.len() && sub.map@[v] is Some implies (#[trigger] sub.map@[v])->0
            < g1.n() by {
            assert((sub.map@[v])->0 < old(eg).n());
        }
        assert forall|x: int, y: int|
            0 <= x < g1.n() && 0 <= y < g1.n() && g1.uf.same(x, y) implies eg.uf.same(x, y) by {
            assert(g1.same_class(x, y));
            assert(eg.same_class(x, y));
        }
        lemma_pat_matches_monotone(
            g1,
            *eg,
            pnodes_view(rule.applier.nodes@),
            rule.applier.root(),
            inst as int,
            sub.map@,
        );
        assert forall|t: int|
            #![trigger just@[t]]
            0 <= t < just@.len() implies (just@[t].a as int) < eg.n() && (just@[t].b as int)
            < eg.n() && eg.same_class(just@[t].a as int, just@[t].b as int) by {
            if t < old(just)@.len() {
                assert((old(just)@[t].a as int) < g0.n());
                assert((old(just)@[t].b as int) < g0.n());
                assert(g0.same_class(old(just)@[t].a as int, old(just)@[t].b as int));
                assert(g1.same_class(old(just)@[t].a as int, old(just)@[t].b as int));
            } else {
                assert(just@[t].a == anchor && just@[t].b == inst);
            }
        }
    }
    Ok(inst)
}

/// Runs the saturation loop: search all rules, apply every match, rebuild,
/// until a whole iteration changes nothing or a budget is hit. Termination
/// is guaranteed for any rule set, because the iteration limit bounds the
/// loop; this function verifying is the proof. Equivalences only grow, every
/// represented term stays represented at its leader, and a covered rule set
/// cannot make the run fail.
pub fn run_rules(
    eg: &mut BooleanEGraph,
    rules: &Vec<Rule>,
    limits: &RunnerLimits,
    just: &mut Vec<Justification>,
) -> (r: Result<Report, EngineError>)
    requires
        old(eg).wf(),
        rules_wf(rules@),
        justs_valid(*old(eg), old(just)@),
    ensures
        final(eg).wf(),
        final(eg).canonical(),
        old(eg).n() <= final(eg).n(),
        forall|i: int, j: int|
            0 <= i < old(eg).n() && 0 <= j < old(eg).n() && old(eg).same_class(i, j)
                ==> final(eg).same_class(i, j),
        justs_valid(*final(eg), final(just)@),
        justs_ruled(old(just)@, rules@.len() as int) ==> justs_ruled(
            final(just)@,
            rules@.len() as int,
        ),
        forall|s: Seq<NodeV>, i: int, c: int|
            old(eg).contains_expr(s, i, c) ==> final(eg).contains_expr(
                s,
                i,
                final(eg).uf.lead_of(c),
            ),
        r is Err ==> r->Err_0 is UnboundVariable,
        rules_covered(rules@) ==> r is Ok,
        r is Ok ==> ({
            let rep = r->Ok_0;
            &&& rep.iterations <= limits.iter_limit
            &&& rep.node_count as int == final(eg).m()
            &&& rep.class_count as nat == final(eg).uf.num_roots()
            &&& (rep.stop_reason is IterationLimit ==> rep.iterations == limits.iter_limit)
            &&& (rep.stop_reason is NodeLimit ==> final(eg).m() > limits.node_limit as int)
        }),
{
    let ghost g00 = *eg;
    eg.rebuild();
    proof {
        lemma_justs_coarsen(g00, *eg, old(just)@);
        assert forall|k: int| 0 <= k < g00.m() implies eg.has_congruent_entry(
            g00.entry_node(k),
            #[trigger] g00.entry_class(k),
        ) by {
            assert(eg.has_congruent_entry(g00.entry_node(k), g00.entry_class(k)));
        }
        assert forall|s: Seq<NodeV>, i: int, c: int|
            g00.contains_expr(s, i, c) implies eg.contains_expr(s, i, eg.uf.lead_of(c)) by {
            crate::egraph::lemma_contains_congruent(g00, *eg, s, i, c);
        }
    }
    let start = clock_now();
    let mut iteration: usize = 0;
    let mut stop = StopReason::IterationLimit;
    loop
        invariant
            eg.wf(),
            eg.canonical(),
            rules_wf(rules@),
            g00 == *old(eg),
            g00.wf(),
            g00.n() <= eg.n(),
            iteration <= limits.iter_limit,
            forall|i: int, j: int|
                0 <= i < g00.n() && 0 <= j < g00.n() && g00.same_class(i, j) ==> eg.same_class(
                    i,
                    j,
                ),
            justs_valid(*eg, just@),
            justs_ruled(old(just)@, rules@.len() as int) ==> justs_ruled(
                just@,
                rules@.len() as int,
            ),
            forall|s: Seq<NodeV>, i: int, c: int|
                g00.contains_expr(s, i, c) ==> eg.contains_expr(s, i, eg.uf.lead_of(c)),
        ensures
            eg.wf(),
            eg.canonical(),
            g00.n() <= eg.n(),
            forall|i: int, j: int|
                0 <= i < g00.n() && 0 <= j < g00.n() && g00.same_class(i, j) ==> eg.same_class(
                    i,
                    j,
                ),
            justs_valid(*eg, just@),
            justs_ruled(old(just)@, rules@.len() as int) ==> justs_ruled(
                just@,
                rules@.len() as int,
            ),
            forall|s: Seq<NodeV>, i: int, c: int|
                g00.contains_expr(s, i, c) ==> eg.contains_expr(s, i, eg.uf.lead_of(c)),
            iteration <= limits.iter_limit,
            stop is IterationLimit ==> iteration == limits.iter_limit,
            stop is NodeLimit ==> eg.m() > limits.node_limit as int,
        decreases limits.iter_limit - iteration,
    {
        if iteration >= limits.iter_limit {
            stop = StopReason::IterationLimit;
            break ;
        }
        iteration = iteration + 1;
        let ghost g_iter = *eg;
        // search phase: all rules see the same snapshot
        let mut matches: Vec<(usize, Subst, usize)> = Vec::new();
        let nr = rules.len();
        let mut ri: usize = 0;
        while ri < nr
            invariant
                eg.wf(),
                rules_wf(rules@),
                nr == rules@.len(),
                ri <= nr,
                forall|q: int|
                    #![trigger matches@[q]]
                    0 <= q < matches@.len() ==> (matches@[q].0 as int) < eg.n() && subst_ok(
                        matches@[q].1.map@,
                        eg.n(),
                    ) && (matches@[q].2 as int) < rules@.len() && rule_matches(
                        *eg,
                        rules@[matches@[q].2 as int],
                        matches@[q].0 as int,
                        matches@[q].1.map@,
                    ),
            decreases nr - ri,
        {
            proof {
                assert(rules@[ri as int].wf());
            }
            let found = search_rule(eg, &rules[ri]);
            let nf = found.len();
            let mut t: usize = 0;
            while t < nf
                invariant
                    nf == found@.len(),
                    t <= nf,
                    eg.wf(),
                    ri < nr,
                    nr == rules@.len(),
                    forall|q: int|
                        #![trigger found@[q]]
                        0 <= q < found@.len() ==> (found@[q].0 as int) < eg.n() && subst_ok(
                            found@[q].1.map@,
                            eg.n(),
                        ) && rule_matches(
                            *eg,
                            rules@[ri as int],
                            found@[q].0 as int,
                            found@[q].1.map@,
                        ),
                    forall|q: int|
                        #![trigger matches@[q]]
                        0 <= q < matches@.len() ==> (matches@[q].0 as int) < eg.n() && subst_ok(
                            matches@[q].1.map@,
                            eg.n(),
                        ) && (matches@[q].2 as int) < rules@.len() && rule_matches(
                            *eg,
                            rules@[matches@[q].2 as int],
                            matches@[q].0 as int,
                            matches@[q].1.map@,
                        ),
                decreases nf - t,
            {
                matches.push((found[t].0, copy_subst(&found[t].1), ri));
                t = t + 1;
            }
            ri = ri + 1;
        }
        // apply phase
        let n_before = eg.uf.leader.len();
        let m_before = eg.memo.len();
        let roots_before = count_classes(eg);
        let nm = matches.len();
        let mut t: usize = 0;
        let mut failure: Option<EngineError> = None;
        while t < nm
            invariant
                eg.wf(),
                rules_wf(rules@),
                g_iter.n() <= eg.n(),
                g_iter.memo@.is_prefix_of(eg.memo@),
                nm == matches@.len(),
                t <= nm,
                justs_valid(*eg, just@),
                justs_ruled(old(just)@, rules@.len() as int) ==> justs_ruled(
                    just@,
                    rules@.len() as int,
                ),
                failure is Some ==> failure->0 is UnboundVariable,
                forall|i: int, j: int|
                    0 <= i < g_iter.n() && 0 <= j < g_iter.n() && g_iter.same_class(i, j)
                        ==> eg.same_class(i, j),
                forall|q: int|
                    #![trigger matches@[q]]
                    0 <= q < matches@.len() ==> (matches@[q].0 as int) < g_iter.n() && subst_ok(
                        matches@[q].1.map@,
                        g_iter.n(),
                    ) && (matches@[q].2 as int) < rules@.len() && rule_matches(
                        *eg,
                        rules@[matches@[q].2 as int],
                        matches@[q].0 as int,
                        matches@[q].1.map@,
                    ),
                rules_covered(rules@) ==> failure is None,
            decreases nm - t,
        {
            let ghost g_here = *eg;
            let rule_idx = matches[t].2;
            proof {
                assert(rules@[rule_idx as int].wf());
                assert((matches@[t as int].0 as int) < g_iter.n());
                assert(subst_ok(matches@[t as int].1.map@, g_iter.n()));
                assert forall|v: int|
                    0 <= v < matches@[t as int].1.map@.len() && matches@[t as int].1.map@[v]
                        is Some implies (#[trigger] matches@[t as int].1.map@[v])->0 < eg.n() by {
                    assert((matches@[t as int].1.map@[v])->0 < g_iter.n());
                }
            }
            // skip a match when it failed earlier or fresh classes would not fit
            let ghost j_here = just@;
            proof {
                // applying a real match of a covered rule cannot fail
                if rules_covered(rules@) {
                    assert(rule_covered(rules@[rule_idx as int]));
                    lemma_match_binds_applier(
                        *eg,
                        rules@[rule_idx as int],
                        matches@[t as int].0 as int,
                        matches@[t as int].1.map@,
                    );
                }
            }
            let headroom = eg.uf.leader.len() <= usize::MAX - rules[rule_idx].applier.nodes.len();
            if failure.is_none() && headroom {
                let anchor = matches[t].0;
                let res = apply_match(eg, &rules[rule_idx], anchor, &matches[t].1, rule_idx, just);
                match res {
                    Ok(_) => {},
                    Err(e) => {
                        proof {
                            if rules_covered(rules@) {
                                assert(applier_bound(
                                    pnodes_view(rules@[rule_idx as int].applier.nodes@),
                                    matches@[t as int].1.map@,
                                ));
                                assert(false);
                            }
                        }
                        failure = Some(e);
                    },
                }
            }
            proof {
                assert forall|i: int, j: int|
                    0 <= i < g_iter.n() && 0 <= j < g_iter.n() && g_iter.same_class(
                        i,
                        j,
                    ) implies eg.same_class(i, j) by {
                    assert(g_here.same_class(i, j));
                }
                assert forall|x: int, y: int|
                    0 <= x < g_here.n() && 0 <= y < g_here.n() && g_here.uf.same(
                        x,
                        y,
                    ) implies eg.uf.same(x, y) by {
                    assert(g_here.same_class(x, y));
                    assert(eg.same_class(x, y));
                }
                assert(g_here.memo@.is_prefix_of(eg.memo@)) by {
                    assert(g_here.memo@ =~= eg.memo@.subrange(0, g_here.memo@.len() as int));
                }
                assert forall|q: int|
                    #![trigger matches@[q]]
                    0 <= q < matches@.len() implies rule_matches(
                    *eg,
                    rules@[matches@[q].2 as int],
                    matches@[q].0 as int,
                    matches@[q].1.map@,
                ) by {
                    assert(rule_matches(
                        g_here,
                        rules@[matches@[q].2 as int],
                        matches@[q].0 as int,
                        matches@[q].1.map@,
                    ));
                    assert(rules@[matches@[q].2 as int].wf());
                    assert forall|v: int|
                        0 <= v < matches@[q].1.map@.len() && matches@[q].1.map@[v]
                            is Some implies (#[trigger] matches@[q].1.map@[v])->0 < g_here.n() by {
                        assert((matches@[q].1.map@[v])->0 < g_iter.n());
                    }
                    lemma_rule_matches_monotone(
                        g_here,
                        *eg,
                        rules@[matches@[q].2 as int],
                        matches@[q].0 as int,
                        matches@[q].1.map@,
                    );
                }
                assert(g_iter.memo@.is_prefix_of(eg.memo@)) by {
                    assert(g_iter.memo@ =~= eg.memo@.subrange(0, g_iter.memo@.len() as int));
                }
                if justs_ruled(old(just)@, rules@.len() as int) {
                    assert forall|q: int|
                        #![trigger just@[q]]
                        0 <= q < just@.len() implies (just@[q].rule as int) < rules@.len() by {
                        if q < j_here.len() {
                            assert((j_here[q].rule as int) < rules@.len());
                        } else {
                            assert(just@[q].rule == rule_idx);
                        }
                    }
                }
            }
            t = t + 1;
        }
        let ghost g_applied = *eg;
        eg.rebuild();
        proof {
            lemma_justs_coarsen(g_applied, *eg, just@);
            assert forall|i: int, j: int|
                0 <= i < g00.n() && 0 <= j < g00.n() && g00.same_class(i, j) implies eg.same_class(
                i,
                j,
            ) by {
                assert(g_iter.same_class(i, j));
                assert(g_applied.same_class(i, j));
            }
            // everything represented at the iteration's start is still
            // represented: the applies only grew the graph, and the rebuild
            // kept a congruent copy of every stored e-node
            assert forall|i: int, j: int|
                0 <= i < g_iter.n() && 0 <= j < g_iter.n() && g_iter.same_class(
                    i,
                    j,
                ) implies eg.same_class(i, j) by {
                assert(g_applied.same_class(i, j));
            }
            assert forall|k: int| 0 <= k < g_iter.m() implies eg.has_congruent_entry(
                g_iter.entry_node(k),
                #[trigger] g_iter.entry_class(k),
            ) by {
                assert(g_applied.memo@[k] == g_iter.memo@[k]);
                assert(eg.has_congruent_entry(g_applied.entry_node(k), g_applied.entry_class(k)));
            }
            assert forall|s: Seq<NodeV>, i: int, c: int|
                g00.contains_expr(s, i, c) implies eg.contains_expr(s, i, eg.uf.lead_of(c)) by {
                crate::egraph::lemma_contains_range(g00, s, i, c);
                assert(g_iter.contains_expr(s, i, g_iter.uf.lead_of(c)));
                crate::egraph::lemma_contains_congruent(
                    g_iter,
                    *eg,
                    s,
                    i,
                    g_iter.uf.lead_of(c),
                );
                assert(0 <= c < g_iter.n());
                assert(g_iter.uf.lead_of(g_iter.uf.lead_of(c)) == g_iter.uf.lead_of(c));
                assert(g_iter.same_class(c, g_iter.uf.lead_of(c)));
                assert(eg.same_class(c, g_iter.uf.lead_of(c)));
                assert(eg.uf.lead_of(g_iter.uf.lead_of(c)) == eg.uf.lead_of(c));
            }
        }
        match failure {
            Some(e) => {
                return Err(e);
            },
            None => {},
        }
        // stopping conditions, polled at the iteration boundary
        let n_after = eg.uf.leader.len();
        let m_after = eg.memo.len();
        let roots_after = count_classes(eg);
        if n_after == n_before && m_after == m_before && roots_after == roots_before {
            stop = StopReason::Saturated;
            break ;
        }
        if m_after > limits.node_limit {
            stop = StopReason::NodeLimit;
            break ;
        }
        if clock_elapsed_millis(&start) >= limits.time_limit_millis {
            stop = StopReason::TimeLimit;
            break ;
        }
    }
    let classes = count_classes(eg);
    let nodes = eg.memo.len();
    Ok(Report { iterations: iteration, stop_reason: stop, class_count: classes, node_count: nodes })
}

/// Valid justifications stay valid when equivalences only grow.
pub proof fn lemma_justs_coarsen(g1: BooleanEGraph, g2: BooleanEGraph, js: Seq<Justification>)
    requires
        justs_valid(g1, js),
        g1.n() <= g2.n(),
        forall|i: int, j: int|
            0 <= i < g1.n() && 0 <= j < g1.n() && g1.same_class(i, j) ==> g2.same_class(i, j),
    ensures
        justs_valid(g2, js),
{
    assert forall|t: int|
        #![trigger js[t]]
        0 <= t < js.len() implies (js[t].a as int) < g2.n() && (js[t].b as int) < g2.n()
        && g2.same_class(js[t].a as int, js[t].b as int) by {
        assert((js[t].a as int) < g1.n());
        assert(g1.same_class(js[t].a as int, js[t].b as int));
    }
}

} // verus!
