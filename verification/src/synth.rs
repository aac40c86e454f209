//! The synthesizer: owns the rule set (algebraic axioms plus library cell
//! rewrites) and the cost function, and drives one technology-mapping run.
//!
//! The always-on algebraic rules are commutativity, De Morgan and
//! let-inlining. Annihilation, idempotence and absorption are deliberately
//! absent: simplification is left to the cost-directed extractor, and the
//! rule set is an extension point — callers may run with any rules built by
//! this crate's constructors.

use vstd::prelude::*;
use vstd::string::StrSliceExecFns;
use vstd::string::StringSliceAdditionalSpecFns;
use crate::egraph::BooleanEGraph;
use crate::expr::BooleanExpression;
use crate::expr::NodeV;
use crate::extract::COST_INF;
use crate::extract::Cell;
use crate::extract::GateCostFunction;
use crate::extract::Metric;
use crate::extract::expr_cost;
use crate::extract::metric_of;
use crate::extract::extract;
use crate::rules::EngineError;
use crate::rules::Rule;
use crate::runner::Justification;
use crate::runner::Report;
use crate::runner::RunnerLimits;
use crate::runner::justs_ruled;
use crate::runner::justs_valid;
use crate::runner::rules_covered;
use crate::runner::rules_wf;
use crate::runner::run_rules;

verus! {

/// Everything one synthesis run produced: the extracted expression and its
/// cost, the saturation report, the merge record for explanations, and the
/// saturated e-graph with the start expression's class.
pub struct SynthesisOutcome {
    pub best_expr: BooleanExpression,
    pub cost_milli: u64,
    pub report: Report,
    pub justifications: Vec<Justification>,
    pub egraph: BooleanEGraph,
    pub root: usize,
}

/// The synthesizer: a rule set and a cost function over one cell library.
pub struct Synthesizer {
    pub rules: Vec<Rule>,
    pub cost_function: GateCostFunction,
    pub limits: RunnerLimits,
}

/// Builds one plain rewrite from string sources.
fn named_rewrite(name: &str, lhs: &str, rhs: &str) -> (r: Result<Rule, EngineError>)
    ensures
        r is Ok ==> r->Ok_0.wf() && r->Ok_0.name@ == name.spec_bytes()
            && r->Ok_0.searcher is Single && crate::rules::rule_covered(r->Ok_0),
{
    Rule::rewrite(name.as_bytes_vec(), &lhs.as_bytes_vec(), &rhs.as_bytes_vec())
}

/// Builds one let-inlining rule: where `?a = (let ?x ?y)` exists anywhere
/// and `?x` occurs under the given operator, the occurrence is rewritten
/// with `?y` substituted.
fn inline_let_rule(name: &str, occurrence: &str, replacement: &str) -> (r: Result<
    Rule,
    EngineError,
>)
    ensures
        r is Ok ==> r->Ok_0.wf() && r->Ok_0.name@ == name.spec_bytes()
            && r->Ok_0.searcher is Multi && crate::rules::rule_covered(r->Ok_0),
{
    let mut parts: Vec<(Vec<u8>, Vec<u8>)> = Vec::new();
    parts.push(("a".as_bytes_vec(), "(let ?x ?y)".as_bytes_vec()));
    parts.push(("b".as_bytes_vec(), occurrence.as_bytes_vec()));
    Rule::multi(name.as_bytes_vec(), &parts, &"b".as_bytes_vec(), &replacement.as_bytes_vec())
}

impl Synthesizer {
    /// Well-formedness: every rule is over its own variable table.
    pub open spec fn wf(&self) -> bool {
        rules_wf(self.rules@)
    }

    /// Builds a synthesizer from a parsed cell library and a metric name
    /// (`Area`, `Power` or `Timing`; anything else is rejected). The rule
    /// set is the algebraic axioms plus one rewrite per cell; a cell whose
    /// searcher or applier does not parse, or whose applier references a
    /// variable its searcher does not bind, is rejected.
    pub fn new(library: Vec<Cell>, metric_name: &Vec<u8>) -> (r: Result<Synthesizer, EngineError>)
        ensures
            r is Ok ==> ({
                let o = r->Ok_0;
                &&& o.wf()
                &&& o.rules@.len() == 7 + library@.len()
                &&& o.rules@[0].name@ == "commute-and".spec_bytes()
                &&& o.rules@[1].name@ == "commute-or".spec_bytes()
                &&& o.rules@[2].name@ == "demorgan-and".spec_bytes()
                &&& o.rules@[3].name@ == "demorgan-or".spec_bytes()
                &&& o.rules@[4].name@ == "inline-let-and".spec_bytes()
                &&& o.rules@[5].name@ == "inline-let-or".spec_bytes()
                &&& o.rules@[6].name@ == "inline-let-not".spec_bytes()
                &&& forall|i: int|
                    0 <= i < library@.len() ==> (#[trigger] o.rules@[7 + i]).name@
                        == library@[i].name@
                &&& metric_of(metric_name@) == Some(o.cost_function.metric)
                &&& o.cost_function.cells == library
                &&& o.limits.iter_limit == 30
                &&& o.limits.node_limit == 10000
                &&& o.limits.time_limit_millis == 5000
                &&& rules_covered(o.rules@)
            }),
            metric_of(metric_name@) is None ==> r is Err,
    {
        let metric = match Metric::from_str(metric_name) {
            Ok(m) => m,
            Err(e) => {
                return Err(e);
            },
        };
        let mut rules: Vec<Rule> = Vec::new();
        let r1 = match named_rewrite("commute-and", "(& ?x ?y)", "(& ?y ?x)") {
            Ok(r) => r,
            Err(e) => {
                return Err(e);
            },
        };
        rules.push(r1);
        let r2 = match named_rewrite("commute-or", "(| ?x ?y)", "(| ?y ?x)") {
            Ok(r) => r,
            Err(e) => {
                return Err(e);
            },
        };
        rules.push(r2);
        let r3 = match named_rewrite("demorgan-and", "(! (& ?x ?y))", "(| (! ?x) (! ?y))") {
            Ok(r) => r,
            Err(e) => {
                return Err(e);
            },
        };
        rules.push(r3);
        let r4 = match named_rewrite("demorgan-or", "(! (| ?x ?y))", "(& (! ?x) (! ?y))") {
            Ok(r) => r,
            Err(e) => {
                return Err(e);
            },
        };
        rules.push(r4);
        let r5 = match inline_let_rule("inline-let-and", "(& ?x ?z)", "(& ?y ?z)") {
            Ok(r) => r,
            Err(e) => {
                return Err(e);
            },
        };
        rules.push(r5);
        let r6 = match inline_let_rule("inline-let-or", "(| ?x ?z)", "(| ?y ?z)") {
            Ok(r) => r,
            Err(e) => {
                return Err(e);
            },
        };
        rules.push(r6);
        let r7 = match inline_let_rule("inline-let-not", "(! ?x)", "(! ?y)") {
            Ok(r) => r,
            Err(e) => {
                return Err(e);
            },
        };
        rules.push(r7);
        proof {
            assert forall|t: int| 0 <= t < rules@.len() implies (#[trigger] rules@[t]).wf() by {}
            assert forall|t: int| 0 <= t < rules@.len() implies crate::rules::rule_covered(
                #[trigger] rules@[t],
            ) by {}
        }
        let ghost base7 = rules@;
        // one rewrite per library cell, in library order
        let ncells = library.len();
        let mut i: usize = 0;
        while i < ncells
            invariant
                i <= ncells,
                ncells == library@.len(),
                rules_wf(rules@),
                rules_covered(rules@),
                base7.len() == 7,
                rules@.len() == 7 + i,
                forall|t: int| 0 <= t < 7 ==> #[trigger] rules@[t] == base7[t],
                forall|q: int|
                    0 <= q < i ==> (#[trigger] rules@[7 + q]).name@ == library@[q].name@,
            decreases ncells - i,
        {
            let cr = match Rule::rewrite(
                crate::expr::copy_bytes(&library[i].name),
                &library[i].searcher,
                &library[i].applier,
            ) {
                Ok(r) => r,
                Err(e) => {
                    return Err(e);
                },
            };
            let ghost before = rules@;
            rules.push(cr);
            proof {
                assert forall|t: int| 0 <= t < rules@.len() implies (#[trigger] rules@[t]).wf() by {
                    if t < before.len() {
                        assert(before[t].wf());
                    }
                }
                assert forall|t: int| 0 <= t < rules@.len() implies crate::rules::rule_covered(
                    #[trigger] rules@[t],
                ) by {
                    if t < before.len() {
                        assert(crate::rules::rule_covered(before[t]));
                    }
                }
            }
            i = i + 1;
        }
        Ok(
            Synthesizer {
                rules,
                cost_function: GateCostFunction { metric, cells: library },
                limits: RunnerLimits::standard(),
            },
        )
    }

    /// One synthesis run: rebuilds the e-graph, adds the start expression,
    /// saturates under the rule set within the budgets, and extracts the
    /// cheapest expression from the start expression's class.
    ///
    /// On success, the start expression and the returned expression are both
    /// represented by that class in the returned e-graph, the returned cost
    /// is exactly the result's cost under the chosen metric, no expression
    /// the class represents costs less, and in particular the result costs
    /// at most the start expression itself. Success is owed: with a covered
    /// rule set (every rule this crate's constructors build is) and a start
    /// expression of reachable cost, the run cannot fail.
    pub fn run(&self, egraph: BooleanEGraph, start_expr: BooleanExpression) -> (r: Result<
        SynthesisOutcome,
        EngineError,
    >)
        requires
            self.wf(),
            egraph.wf(),
            start_expr.wf(),
            egraph.n() + start_expr@.len() <= usize::MAX,
        ensures
            r is Ok ==> ({
                let o = r->Ok_0;
                &&& o.best_expr.wf()
                &&& o.cost_milli < COST_INF
                &&& o.egraph.wf()
                &&& o.egraph.canonical()
                &&& (o.root as int) < o.egraph.n()
                &&& o.egraph.contains_expr(
                    o.best_expr@,
                    o.best_expr.root(),
                    o.egraph.uf.lead_of(o.root as int),
                )
                &&& expr_cost(self.cost_function, o.best_expr@, o.best_expr.root())
                    == o.cost_milli as int
                &&& forall|s: Seq<NodeV>, i: int|
                    o.egraph.contains_expr(s, i, o.egraph.uf.lead_of(o.root as int))
                        ==> o.cost_milli as int <= expr_cost(self.cost_function, s, i)
                &&& o.egraph.contains_expr(
                    start_expr@,
                    start_expr.root(),
                    o.egraph.uf.lead_of(o.root as int),
                )
                &&& o.cost_milli as int <= expr_cost(
                    self.cost_function,
                    start_expr@,
                    start_expr.root(),
                )
                &&& justs_valid(o.egraph, o.justifications@)
                &&& justs_ruled(o.justifications@, self.rules@.len() as int)
            }),
            r is Err ==> r->Err_0 is UnboundVariable || expr_cost(
                self.cost_function,
                start_expr@,
                start_expr.root(),
            ) == COST_INF as int,
            rules_covered(self.rules@) && expr_cost(
                self.cost_function,
                start_expr@,
                start_expr.root(),
            ) < COST_INF as int ==> r is Ok,
    {
        let mut eg = egraph;
        // repair the invariants after any construction-time mutations
        eg.rebuild();
        let root = eg.add_expr(&start_expr);
        let ghost g_added = eg;
        proof {
            assert(g_added.contains_expr(start_expr@, start_expr.root(), root as int));
        }
        let mut just: Vec<Justification> = Vec::new();
        let report = match run_rules(&mut eg, &self.rules, &self.limits, &mut just) {
            Ok(rep) => rep,
            Err(e) => {
                proof {
                    // a covered rule set never fails to apply
                    assert(!rules_covered(self.rules@));
                }
                return Err(e);
            },
        };
        proof {
            // the start expression's class survives the run, under its leader
            assert(eg.contains_expr(start_expr@, start_expr.root(), eg.uf.lead_of(root as int)));
        }
        match extract(&eg, &self.cost_function, root) {
            Ok((best_expr, cost_milli)) => Ok(
                SynthesisOutcome {
                    best_expr,
                    cost_milli,
                    report,
                    justifications: just,
                    egraph: eg,
                    root,
                },
            ),
            Err(e) => Err(e),
        }
    }
}

} // verus!
