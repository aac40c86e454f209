//! Rewrite rules: a searcher pattern (single or multi), an applier template,
//! and a shared variable table.
//!
//! Rules are validated at construction: both sides must parse, and the
//! applier may reference only variables that the searcher binds, so an
//! instantiation never meets an unbound variable.

use vstd::prelude::*;
use crate::egraph::BooleanEGraph;
use crate::expr::Node;
use crate::expr::copy_bytes;
use crate::expr::copy_op;
use crate::matcher::Subst;
use crate::matcher::lemma_pat_matches_class;
use crate::matcher::lemma_pat_matches_monotone;
use crate::matcher::pat_matches;
use crate::matcher::pat_mentions;
use crate::matcher::subst_ok;
use crate::pattern::PNodeV;
use crate::pattern::POp;
use crate::pattern::POpV;
use crate::pattern::Pattern;
use crate::pattern::parse_pattern;
use crate::pattern::pat_node_wf;
use crate::pattern::pnodes_view;
use crate::pattern::var_index;
use crate::sexp::ParseError;

verus! {

/// Why the engine failed.
#[derive(Debug)]
pub enum EngineError {
    /// A searcher or applier did not parse.
    Parse(ParseError),
    /// The applier (or a multi-pattern target) references a variable the
    /// searcher does not bind.
    UnboundVariable,
    /// The metric name is none of `Area`, `Power`, `Timing`.
    UnknownMetric,
    /// The requested class does not exist or nothing can be extracted
    /// from it.
    NothingToExtract,
    /// An equivalence proof was requested between classes not proven equal.
    NotEquivalent,
    /// No witness chain was found among the recorded justifications.
    NoExplanation,
    /// An input too large for the machine's address space.
    Oversized,
}

/// The searcher side of a rule.
pub enum Searcher {
    /// One pattern; the matched class is the merge anchor.
    Single(Pattern),
    /// Several parts, each binding the class it matches to a variable; the
    /// merge anchor is the class bound to `target`.
    Multi { parts: Vec<(usize, Pattern)>, target: usize },
}

/// A rewrite rule.
pub struct Rule {
    /// The rule's name, reported in explanations.
    pub name: Vec<u8>,
    pub searcher: Searcher,
    /// The term template whose instantiation is merged with the anchor.
    pub applier: Pattern,
    /// Size of the shared variable table.
    pub nvars: usize,
}

impl Rule {
    /// Well-formedness: all patterns are over the shared variable table.
    pub open spec fn wf(&self) -> bool {
        &&& self.applier.wf()
        &&& self.applier.nvars == self.nvars
        &&& match self.searcher {
            Searcher::Single(p) => p.wf() && p.nvars as int <= self.nvars as int,
            Searcher::Multi { parts, target } => {
                &&& (target as int) < self.nvars as int
                &&& forall|i: int|
                    #![trigger parts@[i]]
                    0 <= i < parts@.len() ==> parts@[i].1.wf() && (parts@[i].0 as int)
                        < self.nvars as int && parts@[i].1.nvars as int <= self.nvars as int
            },
        }
    }

    /// Builds a plain rewrite `lhs -> rhs`. Fails if either side does not
    /// parse or if `rhs` references a variable absent from `lhs`.
    pub fn rewrite(name: Vec<u8>, lhs_src: &Vec<u8>, rhs_src: &Vec<u8>) -> (r: Result<
        Rule,
        EngineError,
    >)
        ensures
            r is Ok ==> ({
                &&& r->Ok_0.wf()
                &&& r->Ok_0.name@ == name@
                &&& r->Ok_0.searcher is Single
                &&& rule_covered(r->Ok_0)
            }),
    {
        if lhs_src.len() >= usize::MAX / 2 || rhs_src.len() >= usize::MAX / 2 {
            return Err(EngineError::Oversized);
        }
        let mut vars: Vec<Vec<u8>> = Vec::new();
        let lhs = match parse_pattern(lhs_src, &mut vars) {
            Ok(p) => p,
            Err(e) => {
                return Err(EngineError::Parse(e));
            },
        };
        let bound = vars.len();
        let rhs = match parse_pattern(rhs_src, &mut vars) {
            Ok(p) => p,
            Err(e) => {
                return Err(EngineError::Parse(e));
            },
        };
        if vars.len() != bound {
            return Err(EngineError::UnboundVariable);
        }
        // every applier variable must occur in the searcher
        let mut flags: Vec<bool> = Vec::new();
        let mut fi: usize = 0;
        while fi < bound
            invariant
                fi <= bound,
                flags@.len() == fi,
                forall|v: int| 0 <= v < fi ==> !flags@[v],
            decreases bound - fi,
        {
            flags.push(false);
            fi = fi + 1;
        }
        mark_mentions(&lhs, lhs.nodes.len() - 1, &mut flags);
        if !applier_marks_check(&rhs, &flags) {
            return Err(EngineError::UnboundVariable);
        }
        proof {
            lemma_pattern_nvars_weaken(lhs, rhs.nvars as int);
        }
        let rule = Rule { name, searcher: Searcher::Single(lhs), applier: rhs, nvars: bound };
        proof {
            assert forall|t: int|
                #![trigger pnodes_view(rule.applier.nodes@)[t]]
                0 <= t < rule.applier.nodes@.len() implies (pnodes_view(rule.applier.nodes@)[t].op
                matches POpV::Var(v) ==> searcher_covers(rule.searcher, v)) by {
                match pnodes_view(rule.applier.nodes@)[t].op {
                    POpV::Var(v) => {
                        assert(0 <= v < flags@.len() && flags@[v]);
                        assert(searcher_covers(rule.searcher, v));
                    },
                    POpV::Plain(_) => {},
                }
            }
            assert(rule_covered(rule));
        }
        Ok(rule)
    }

    /// Builds a multi-pattern rule: each part `(anchor-name, pattern)`
    /// matches anywhere and binds its class to the named variable; the class
    /// bound to `target_name` is rewritten to the instantiated `rhs`.
    pub fn multi(
        name: Vec<u8>,
        parts_src: &Vec<(Vec<u8>, Vec<u8>)>,
        target_name: &Vec<u8>,
        rhs_src: &Vec<u8>,
    ) -> (r: Result<Rule, EngineError>)
        ensures
            r is Ok ==> ({
                &&& r->Ok_0.wf()
                &&& r->Ok_0.name@ == name@
                &&& (r->Ok_0.searcher matches Searcher::Multi { parts, target: _ } && parts@.len()
                    == parts_src@.len())
                &&& rule_covered(r->Ok_0)
            }),
    {
        let mut vars: Vec<Vec<u8>> = Vec::new();
        let mut parts: Vec<(usize, Pattern)> = Vec::new();
        let mut i: usize = 0;
        let np = parts_src.len();
        while i < np
            invariant
                i <= np,
                np == parts_src@.len(),
                parts@.len() == i,
                forall|t: int|
                    #![trigger parts@[t]]
                    0 <= t < parts@.len() ==> parts@[t].1.wf() && (parts@[t].0 as int)
                        < vars@.len() && parts@[t].1.nvars as int <= vars@.len(),
            decreases np - i,
        {
            if vars.len() >= usize::MAX - 1 {
                return Err(EngineError::Oversized);
            }
            let v = var_index(&mut vars, copy_bytes(&parts_src[i].0));
            if parts_src[i].1.len() >= usize::MAX - vars.len() {
                return Err(EngineError::Oversized);
            }
            let p = match parse_pattern(&parts_src[i].1, &mut vars) {
                Ok(p) => p,
                Err(e) => {
                    return Err(EngineError::Parse(e));
                },
            };
            proof {
                assert forall|t: int|
                    #![trigger parts@[t]]
                    0 <= t < parts@.len() implies parts@[t].1.wf() && (parts@[t].0 as int)
                    < vars@.len() && parts@[t].1.nvars as int <= vars@.len() by {}
            }
            parts.push((v, p));
            i = i + 1;
        }
        let bound = vars.len();
        // the target must already be a bound variable
        if bound >= usize::MAX {
            return Err(EngineError::Oversized);
        }
        let target = var_index(&mut vars, copy_bytes(target_name));
        if vars.len() != bound {
            return Err(EngineError::UnboundVariable);
        }
        if rhs_src.len() >= usize::MAX - vars.len() {
            return Err(EngineError::Oversized);
        }
        let rhs = match parse_pattern(rhs_src, &mut vars) {
            Ok(p) => p,
            Err(e) => {
                return Err(EngineError::Parse(e));
            },
        };
        if vars.len() != bound {
            return Err(EngineError::UnboundVariable);
        }
        proof {
            assert forall|t: int|
                #![trigger parts@[t]]
                0 <= t < parts@.len() implies parts@[t].1.wf() && (parts@[t].0 as int)
                < bound as int && parts@[t].1.nvars as int <= bound as int by {}
        }
        // every applier variable must be a part's anchor or occur in a part
        let mut flags: Vec<bool> = Vec::new();
        let mut fi: usize = 0;
        while fi < bound
            invariant
                fi <= bound,
                flags@.len() == fi,
                forall|v: int| 0 <= v < fi ==> !flags@[v],
            decreases bound - fi,
        {
            flags.push(false);
            fi = fi + 1;
        }
        let nparts = parts.len();
        let mut pi: usize = 0;
        while pi < nparts
            invariant
                pi <= nparts,
                nparts == parts@.len(),
                flags@.len() == bound,
                forall|t: int|
                    #![trigger parts@[t]]
                    0 <= t < parts@.len() ==> parts@[t].1.wf() && (parts@[t].0 as int)
                        < bound as int && parts@[t].1.nvars as int <= bound as int,
                forall|v: int|
                    0 <= v < flags@.len() && flags@[v] ==> (exists|i: int|
                        0 <= i < pi && (#[trigger] parts@[i]).0 as int == v) || (exists|i: int|
                        0 <= i < pi && pat_mentions(
                            pnodes_view((#[trigger] parts@[i]).1.nodes@),
                            parts@[i].1.root(),
                            v,
                        )),
            decreases nparts - pi,
        {
            let ghost f_pre = flags@;
            let av = parts[pi].0;
            if av < flags.len() {
                flags[av] = true;
            }
            let ghost f_mid = flags@;
            let root = parts[pi].1.nodes.len() - 1;
            mark_mentions(&parts[pi].1, root, &mut flags);
            proof {
                assert forall|v: int|
                    0 <= v < flags@.len() && flags@[v] implies (exists|i: int|
                    0 <= i < pi + 1 && (#[trigger] parts@[i]).0 as int == v) || (exists|i: int|
                    0 <= i < pi + 1 && pat_mentions(
                        pnodes_view((#[trigger] parts@[i]).1.nodes@),
                        parts@[i].1.root(),
                        v,
                    )) by {
                    if f_pre[v] {
                        // carried over from earlier parts
                        if exists|i: int| 0 <= i < pi && (#[trigger] parts@[i]).0 as int == v {
                            let i = choose|i: int|
                                0 <= i < pi && (#[trigger] parts@[i]).0 as int == v;
                            assert(0 <= i < pi + 1 && parts@[i].0 as int == v);
                        } else {
                            let i = choose|i: int|
                                0 <= i < pi && pat_mentions(
                                    pnodes_view((#[trigger] parts@[i]).1.nodes@),
                                    parts@[i].1.root(),
                                    v,
                                );
                            assert(0 <= i < pi + 1 && pat_mentions(
                                pnodes_view(parts@[i].1.nodes@),
                                parts@[i].1.root(),
                                v,
                            ));
                        }
                    } else if f_mid[v] {
                        assert(v == av as int);
                        assert(parts@[pi as int].0 as int == v);
                    } else {
                        assert(pat_mentions(
                            pnodes_view(parts@[pi as int].1.nodes@),
                            parts@[pi as int].1.root(),
                            v,
                        ));
                    }
                }
            }
            pi = pi + 1;
        }
        if !applier_marks_check(&rhs, &flags) {
            return Err(EngineError::UnboundVariable);
        }
        let rule = Rule { name, searcher: Searcher::Multi { parts, target }, applier: rhs, nvars: bound };
        proof {
            assert forall|t: int|
                #![trigger pnodes_view(rule.applier.nodes@)[t]]
                0 <= t < rule.applier.nodes@.len() implies (pnodes_view(rule.applier.nodes@)[t].op
                matches POpV::Var(v) ==> searcher_covers(rule.searcher, v)) by {
                match pnodes_view(rule.applier.nodes@)[t].op {
                    POpV::Var(v) => {
                        assert(0 <= v < flags@.len() && flags@[v]);
                        match rule.searcher {
                            Searcher::Multi { parts: rp, target: _ } => {
                                assert(rp == parts);
                                if exists|i: int|
                                    0 <= i < nparts && (#[trigger] parts@[i]).0 as int == v {
                                    let i = choose|i: int|
                                        0 <= i < nparts && (#[trigger] parts@[i]).0 as int == v;
                                    assert(0 <= i < rp@.len() && (rp@[i]).0 as int == v);
                                } else {
                                    let i = choose|i: int|
                                        0 <= i < nparts && pat_mentions(
                                            pnodes_view((#[trigger] parts@[i]).1.nodes@),
                                            parts@[i].1.root(),
                                            v,
                                        );
                                    assert(0 <= i < rp@.len() && pat_mentions(
                                        pnodes_view((rp@[i]).1.nodes@),
                                        rp@[i].1.root(),
                                        v,
                                    ));
                                }
                                assert(searcher_covers(rule.searcher, v));
                            },
                            Searcher::Single(_) => {
                                assert(false);
                            },
                        }
                    },
                    POpV::Plain(_) => {},
                }
            }
            assert(rule_covered(rule));
        }
        Ok(rule)
    }
}

/// A well-formed pattern stays well formed under a larger variable bound.
pub proof fn lemma_pattern_nvars_weaken(p: Pattern, nv: int)
    requires
        p.wf(),
        p.nvars as int <= nv,
    ensures
        forall|i: int| 0 <= i < p.nodes@.len() ==> #[trigger] pat_node_wf(pnodes_view(p.nodes@), i, nv),
{
    assert forall|i: int| 0 <= i < p.nodes@.len() implies #[trigger] pat_node_wf(
        pnodes_view(p.nodes@),
        i,
        nv,
    ) by {
        assert(pat_node_wf(pnodes_view(p.nodes@), i, p.nvars as int));
    }
}

/// Variable `v` occurs in the searcher: for a single pattern it is mentioned
/// by the pattern; for a multi-pattern it is a part's anchor variable or
/// mentioned by some part.
pub open spec fn searcher_covers(searcher: Searcher, v: int) -> bool {
    match searcher {
        Searcher::Single(p) => pat_mentions(pnodes_view(p.nodes@), p.root(), v),
        Searcher::Multi { parts, target: _ } => (exists|i: int|
            0 <= i < parts@.len() && (#[trigger] parts@[i]).0 as int == v) || (exists|i: int|
            0 <= i < parts@.len() && pat_mentions(
                pnodes_view((#[trigger] parts@[i]).1.nodes@),
                parts@[i].1.root(),
                v,
            )),
    }
}

/// Every variable node of the applier occurs in the searcher. A covered
/// rule's applier can always be instantiated from a real match.
pub open spec fn rule_covered(rule: Rule) -> bool {
    forall|t: int|
        #![trigger pnodes_view(rule.applier.nodes@)[t]]
        0 <= t < rule.applier.nodes@.len() ==> (pnodes_view(rule.applier.nodes@)[t].op matches
            POpV::Var(v) ==> searcher_covers(rule.searcher, v))
}

/// Marks every variable the pattern node at `pidx` mentions; already-set
/// marks are kept.
fn mark_mentions(pat: &Pattern, pidx: usize, flags: &mut Vec<bool>)
    requires
        pat.wf(),
        (pidx as int) < pat.nodes@.len(),
    ensures
        final(flags)@.len() == old(flags)@.len(),
        forall|v: int| 0 <= v < old(flags)@.len() && old(flags)@[v] ==> final(flags)@[v],
        forall|v: int|
            0 <= v < final(flags)@.len() && final(flags)@[v] ==> old(flags)@[v] || pat_mentions(
                pnodes_view(pat.nodes@),
                pidx as int,
                v,
            ),
    decreases pidx,
{
    let ghost pv = pnodes_view(pat.nodes@);
    proof {
        assert(pat_node_wf(pv, pidx as int, pat.nvars as int));
    }
    match &pat.nodes[pidx].op {
        POp::Var(v) => {
            if *v < flags.len() {
                flags[*v] = true;
                proof {
                    assert(pv[pidx as int].op == POpV::Var(*v as int));
                    assert(pat_mentions(pv, pidx as int, *v as int));
                }
            }
        },
        POp::Plain(_) => {
            let nch = pat.nodes[pidx].children.len();
            let mut j: usize = 0;
            while j < nch
                invariant
                    pat.wf(),
                    pv == pnodes_view(pat.nodes@),
                    (pidx as int) < pat.nodes@.len(),
                    nch == pv[pidx as int].children.len(),
                    pv[pidx as int].op is Plain,
                    j <= nch,
                    flags@.len() == old(flags)@.len(),
                    forall|v: int| 0 <= v < old(flags)@.len() && old(flags)@[v] ==> flags@[v],
                    forall|v: int|
                        0 <= v < flags@.len() && flags@[v] ==> old(flags)@[v] || pat_mentions(
                            pv,
                            pidx as int,
                            v,
                        ),
                decreases nch - j,
            {
                proof {
                    assert(pat_node_wf(pv, pidx as int, pat.nvars as int));
                    assert((pv[pidx as int].children[j as int] as int) < pidx as int);
                }
                let ghost f_pre = flags@;
                let ci = pat.nodes[pidx].children[j];
                mark_mentions(pat, ci, flags);
                proof {
                    assert forall|v: int|
                        0 <= v < flags@.len() && flags@[v] implies old(flags)@[v] || pat_mentions(
                        pv,
                        pidx as int,
                        v,
                    ) by {
                        if !f_pre[v] {
                            // newly set: the child mentions it, so this node does
                            assert(pat_mentions(pv, pv[pidx as int].children[j as int] as int, v));
                            assert(0 <= j < pv[pidx as int].children.len() && (pv[pidx as int].children[
                            j as int] as int) < pidx as int && pat_mentions(
                                pv,
                                pv[pidx as int].children[j as int] as int,
                                v,
                            ));
                            assert(pat_mentions(pv, pidx as int, v));
                        }
                    }
                }
                j = j + 1;
            }
        },
    }
}

/// Checks that every variable node of `applier` carries a set mark.
fn applier_marks_check(applier: &Pattern, flags: &Vec<bool>) -> (r: bool)
    requires
        applier.wf(),
    ensures
        r ==> forall|t: int|
            #![trigger pnodes_view(applier.nodes@)[t]]
            0 <= t < applier.nodes@.len() ==> (pnodes_view(applier.nodes@)[t].op matches
                POpV::Var(v) ==> 0 <= v < flags@.len() && flags@[v]),
{
    let ghost pv = pnodes_view(applier.nodes@);
    let len = applier.nodes.len();
    let mut t: usize = 0;
    while t < len
        invariant
            applier.wf(),
            pv == pnodes_view(applier.nodes@),
            len == applier.nodes@.len(),
            t <= len,
            forall|q: int|
                #![trigger pv[q]]
                0 <= q < t ==> (pv[q].op matches POpV::Var(v) ==> 0 <= v < flags@.len()
                    && flags@[v]),
        decreases len - t,
    {
        match &applier.nodes[t].op {
            POp::Var(v) => {
                if *v >= flags.len() {
                    return false;
                }
                if !flags[*v] {
                    return false;
                }
                proof {
                    assert(pv[t as int].op == POpV::Var(*v as int));
                }
            },
            POp::Plain(_) => {},
        }
        t = t + 1;
    }
    true
}

/// Every variable node of the template is bound by the substitution.
pub open spec fn applier_bound(pat: Seq<PNodeV>, m: Seq<Option<usize>>) -> bool {
    forall|t: int|
        #![trigger pat[t]]
        0 <= t < pat.len() ==> (pat[t].op matches POpV::Var(v) ==> 0 <= v < m.len() && m[v]
            is Some)
}

/// Instantiates a term template under a substitution, adding its nodes to
/// the e-graph; returns the class of the template's root. It succeeds
/// exactly when the substitution binds every variable of the template, and
/// the returned class then represents the template under the substitution —
/// the right-hand half of the rewrite law.
pub fn instantiate(eg: &mut BooleanEGraph, pat: &Pattern, sub: &Subst) -> (r: Result<
    usize,
    EngineError,
>)
    requires
        old(eg).wf(),
        pat.wf(),
        subst_ok(sub.map@, old(eg).n()),
        old(eg).n() + pat.nodes@.len() <= usize::MAX,
    ensures
        final(eg).wf(),
        final(eg).n() <= old(eg).n() + pat.nodes@.len(),
        old(eg).uf.leader@.is_prefix_of(final(eg).uf.leader@),
        old(eg).memo@.is_prefix_of(final(eg).memo@),
        forall|i: int|
            0 <= i < old(eg).n() ==> final(eg).uf.lead_of(i) == old(eg).uf.lead_of(i),
        old(eg).canonical() ==> final(eg).canonical(),
        r is Ok ==> (r->Ok_0 as int) < final(eg).n(),
        r is Ok <==> applier_bound(pnodes_view(pat.nodes@), sub.map@),
        r is Ok ==> pat_matches(
            *final(eg),
            pnodes_view(pat.nodes@),
            pat.root(),
            r->Ok_0 as int,
            sub.map@,
        ),
        r is Err ==> r->Err_0 is UnboundVariable,
    {
    let ghost g0 = *eg;
    let ghost pv = pnodes_view(pat.nodes@);
    let mut cls: Vec<usize> = Vec::new();
    let len = pat.nodes.len();
    let mut t: usize = 0;
    while t < len
        invariant
            eg.wf(),
            pat.wf(),
            subst_ok(sub.map@, g0.n()),
            len == pat.nodes@.len(),
            pv == pnodes_view(pat.nodes@),
            t <= len,
            cls@.len() == t,
            g0.wf(),
            g0 == *old(eg),
            eg.n() <= g0.n() + t,
            g0.n() + len <= usize::MAX,
            g0.uf.leader@.is_prefix_of(eg.uf.leader@),
            g0.memo@.is_prefix_of(eg.memo@),
            forall|i: int| 0 <= i < g0.n() ==> eg.uf.lead_of(i) == g0.uf.lead_of(i),
            g0.canonical() ==> eg.canonical(),
            forall|u: int|
                0 <= u < t ==> (#[trigger] cls@[u] as int) < eg.n() && pat_matches(
                    *eg,
                    pv,
                    u,
                    cls@[u] as int,
                    sub.map@,
                ),
            forall|q: int|
                #![trigger pv[q]]
                0 <= q < t ==> (pv[q].op matches POpV::Var(v) ==> 0 <= v < sub.map@.len()
                    && sub.map@[v] is Some),
        decreases len - t,
    {
        proof {
            assert(pat_node_wf(pv, t as int, pat.nvars as int));
        }
        match &pat.nodes[t].op {
            POp::Var(v) => {
                if *v < sub.map.len() {
                    match sub.map[*v] {
                        Some(c) => {
                            proof {
                                assert((sub.map@[*v as int])->0 < g0.n());
                                assert(pv[t as int].op == POpV::Var(*v as int));
                                assert(pat_matches(*eg, pv, t as int, c as int, sub.map@));
                            }
                            cls.push(c);
                        },
                        None => {
                            proof {
                                assert(pv[t as int].op == POpV::Var(*v as int));
                                assert(!applier_bound(pv, sub.map@));
                            }
                            return Err(EngineError::UnboundVariable);
                        },
                    }
                } else {
                    proof {
                        assert(pv[t as int].op == POpV::Var(*v as int));
                        assert(!applier_bound(pv, sub.map@));
                    }
                    return Err(EngineError::UnboundVariable);
                }
            },
            POp::Plain(op) => {
                let ghost gpre = *eg;
                let mut ch: Vec<usize> = Vec::new();
                let nch = pat.nodes[t].children.len();
                let mut j: usize = 0;
                while j < nch
                    invariant
                        j <= nch,
                        t < len,
                        len == pat.nodes@.len(),
                        pat.wf(),
                        pv == pnodes_view(pat.nodes@),
                        cls@.len() == t,
                        nch == pv[t as int].children.len(),
                        (*eg) == gpre,
                        gpre.wf(),
                        subst_ok(sub.map@, g0.n()),
                        g0.n() <= gpre.n(),
                        forall|u: int|
                            0 <= u < t ==> (#[trigger] cls@[u] as int) < gpre.n() && pat_matches(
                                gpre,
                                pv,
                                u,
                                cls@[u] as int,
                                sub.map@,
                            ),
                        ch@.len() == j,
                        forall|q: int|
                            0 <= q < j ==> #[trigger] ch@[q] == cls@[pv[t as int].children[q] as int],
                    decreases nch - j,
                {
                    proof {
                        assert(pat_node_wf(pv, t as int, pat.nvars as int));
                        assert((pv[t as int].children[j as int] as int) < t as int);
                    }
                    let ci = pat.nodes[t].children[j];
                    ch.push(cls[ci]);
                    j = j + 1;
                }
                let nd = Node { op: copy_op(op), children: ch };
                proof {
                    assert(pat_node_wf(pv, t as int, pat.nvars as int));
                    assert(nd@.op == op@);
                    assert(crate::expr::arity_ok(op@, nd@.children.len() as int));
                    assert forall|q: int|
                        0 <= q < nd@.children.len() implies (#[trigger] nd@.children[q] as int)
                        < eg.n() by {
                        assert(nd@.children[q] == cls@[pv[t as int].children[q] as int]);
                        assert((pv[t as int].children[q] as int) < t as int);
                    }
                    assert(eg.node_ok(nd@));
                }
                let ghost ndv = nd@;
                let c = eg.add(nd);
                proof {
                    // the stored e-node for the canonicalized template node
                    // witnesses the match at the returned class
                    let cn = crate::egraph::canon_node_spec(gpre.uf, ndv);
                    assert(eg.has_node(cn));
                    let k = choose|k: int| 0 <= k < eg.m() && eg.entry_node(k) == cn;
                    let k2 = choose|k2: int| 0 <= k2 < eg.m() && eg.entry_node(k2) == cn;
                    if k2 != k {
                        assert(false);
                    }
                    assert(eg.node_class(cn) == eg.entry_class(k));
                    assert(c as int == eg.uf.lead_of(eg.entry_class(k)));
                    assert(0 <= eg.entry_class(k) < eg.n());
                    assert(eg.uf.lead_of(eg.uf.lead_of(eg.entry_class(k))) == eg.uf.lead_of(
                        eg.entry_class(k),
                    ));
                    assert(eg.uf.same(eg.entry_class(k), c as int));
                    assert(pv[t as int].op == POpV::Plain(op@));
                    assert(eg.entry_node(k).op == op@);
                    assert(eg.entry_node(k).children.len() == pv[t as int].children.len());
                    // equivalences from before the add survive it
                    assert forall|x: int, y: int|
                        0 <= x < gpre.n() && 0 <= y < gpre.n() && gpre.uf.same(x, y) implies eg.uf
                        .same(x, y) by {}
                    assert forall|q: int|
                        #![trigger pv[t as int].children[q]]
                        0 <= q < pv[t as int].children.len() implies (pv[t as int].children[
                    q] as int) < t as int && pat_matches(
                        *eg,
                        pv,
                        pv[t as int].children[q] as int,
                        eg.entry_node(k).children[q] as int,
                        sub.map@,
                    ) by {
                        let u = pv[t as int].children[q] as int;
                        assert(pat_matches(gpre, pv, u, cls@[u] as int, sub.map@));
                        lemma_pat_matches_monotone(gpre, *eg, pv, u, cls@[u] as int, sub.map@);
                        // the entry's child is the pre-add leader of that class
                        assert(eg.entry_node(k).children[q] == gpre.uf.leader@[cls@[u] as int]);
                        assert((cls@[u] as int) < gpre.n());
                        assert(gpre.uf.lead_of(gpre.uf.lead_of(cls@[u] as int)) == gpre.uf.lead_of(
                            cls@[u] as int,
                        ));
                        assert(eg.uf.lead_of(cls@[u] as int) == gpre.uf.lead_of(cls@[u] as int));
                        assert(eg.uf.lead_of(eg.entry_node(k).children[q] as int) == gpre.uf
                            .lead_of(cls@[u] as int));
                        assert(eg.uf.same(cls@[u] as int, eg.entry_node(k).children[q] as int));
                        lemma_pat_matches_class(
                            *eg,
                            pv,
                            u,
                            cls@[u] as int,
                            eg.entry_node(k).children[q] as int,
                            sub.map@,
                        );
                    }
                    assert(pat_matches(*eg, pv, t as int, c as int, sub.map@));
                    assert forall|u: int|
                        0 <= u < t implies (#[trigger] cls@[u] as int) < eg.n() && pat_matches(
                        *eg,
                        pv,
                        u,
                        cls@[u] as int,
                        sub.map@,
                    ) by {
                        lemma_pat_matches_monotone(gpre, *eg, pv, u, cls@[u] as int, sub.map@);
                    }
                }
                cls.push(c);
            },
        }
        t = t + 1;
    }
    proof {
        assert(applier_bound(pv, sub.map@));
    }
    Ok(cls[len - 1])
}

} // verus!
