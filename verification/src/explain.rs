//! The explanation builder: reconstructs, from the merges a saturation run
//! recorded, a witness chain of rewrites between two classes proven equal.
//!
//! Every returned chain is sound by construction: its head is the first
//! query class, its tail the second, and each adjacent pair is connected by
//! exactly one recorded justification, reported under its rule's name. The
//! builder only reads; it never changes the e-graph.

use vstd::prelude::*;
use crate::egraph::BooleanEGraph;
use crate::rules::EngineError;
use crate::rules::Rule;
use crate::runner::Justification;

verus! {

/// One step of a witness chain: the named rule relates the two classes.
pub struct ExplainStep {
    pub rule_name: Vec<u8>,
    pub from: usize,
    pub to: usize,
}

/// The step is one recorded justification, in either direction, under the
/// name of the rule that caused the merge.
pub open spec fn step_justified(js: Seq<Justification>, rules: Seq<Rule>, st: ExplainStep) -> bool {
    exists|j: int|
        #![trigger js[j]]
        0 <= j < js.len() && ((js[j].a == st.from && js[j].b == st.to) || (js[j].a == st.to
            && js[j].b == st.from)) && (js[j].rule as int) < rules.len() && st.rule_name@
            == rules[js[j].rule as int].name@
}

/// A sound witness chain from `a` to `b`: the head is `a`, the tail is `b`,
/// adjacent steps share their middle class, and every step is one recorded
/// justification.
pub open spec fn chain_ok(
    js: Seq<Justification>,
    rules: Seq<Rule>,
    steps: Seq<ExplainStep>,
    a: usize,
    b: usize,
) -> bool {
    &&& (steps.len() == 0 ==> a == b)
    &&& (steps.len() > 0 ==> steps[0].from == a && steps[steps.len() - 1].to == b)
    &&& forall|t: int| #![trigger steps[t]] 0 <= t < steps.len() - 1 ==> steps[t].to == steps[t + 1].from
    &&& forall|t: int| #![trigger steps[t]] 0 <= t < steps.len() ==> step_justified(js, rules, steps[t])
}

/// Number of `true` entries below `upto`.
pub open spec fn count_true(s: Seq<bool>, upto: int) -> nat
    decreases upto,
{
    if upto <= 0 {
        0
    } else {
        count_true(s, upto - 1) + if s[upto - 1] {
            1nat
        } else {
            0nat
        }
    }
}

/// The count of `true` entries is bounded by the range counted.
proof fn lemma_count_true_bound(s: Seq<bool>, upto: int)
    requires
        0 <= upto,
    ensures
        count_true(s, upto) <= upto,
    decreases upto,
{
    if upto > 0 {
        lemma_count_true_bound(s, upto - 1);
    }
}

/// Flipping one `false` entry to `true` raises the count by one.
proof fn lemma_count_true_set(s: Seq<bool>, x: int, upto: int)
    requires
        0 <= x < s.len(),
        !s[x],
        upto <= s.len(),
    ensures
        count_true(s.update(x, true), upto) == count_true(s, upto) + if x < upto {
            1int
        } else {
            0int
        },
    decreases upto,
{
    if upto > 0 {
        lemma_count_true_set(s, x, upto - 1);
    }
}

/// Some recorded justification relates ids `x` and `y`, in either direction.
pub open spec fn justs_edge(js: Seq<Justification>, x: int, y: int) -> bool {
    exists|j: int|
        #![trigger js[j]]
        0 <= j < js.len() && ((js[j].a as int == x && js[j].b as int == y) || (js[j].a as int == y
            && js[j].b as int == x))
}

/// Id `b` can be reached from id `a` in at most `steps` recorded merges.
pub open spec fn justs_connected(js: Seq<Justification>, a: int, b: int, steps: nat) -> bool
    decreases steps,
{
    if steps == 0 {
        a == b
    } else {
        justs_connected(js, a, b, (steps - 1) as nat) || exists|m: int|
            justs_connected(js, a, m, (steps - 1) as nat) && #[trigger] justs_edge(js, m, b)
    }
}

/// Some chain of recorded merges relates `a` and `b`.
pub open spec fn justs_reachable(js: Seq<Justification>, a: int, b: int) -> bool {
    exists|k: nat| justs_connected(js, a, b, k)
}

/// A visited set that is closed under the recorded merges and holds `a`
/// holds everything reachable from `a`.
proof fn lemma_closure_complete(
    js: Seq<Justification>,
    visited: Seq<bool>,
    n: int,
    a: int,
    b: int,
    k: nat,
)
    requires
        visited.len() == n,
        0 <= a < n,
        visited[a],
        forall|j: int| #![trigger js[j]] 0 <= j < js.len() ==> (js[j].a as int) < n && (js[j].b as int) < n,
        forall|x: int, j: int|
            #![trigger visited[x], js[j]]
            0 <= x < n && visited[x] && 0 <= j < js.len() ==> ((js[j].a as int == x
                ==> visited[js[j].b as int]) && (js[j].b as int == x ==> visited[js[j].a as int])),
        justs_connected(js, a, b, k),
    ensures
        0 <= b < n,
        visited[b],
    decreases k,
{
    if k != 0 {
        if justs_connected(js, a, b, (k - 1) as nat) {
            lemma_closure_complete(js, visited, n, a, b, (k - 1) as nat);
        } else {
            let m = choose|m: int|
                justs_connected(js, a, m, (k - 1) as nat) && #[trigger] justs_edge(js, m, b);
            lemma_closure_complete(js, visited, n, a, m, (k - 1) as nat);
            let j = choose|j: int|
                #![trigger js[j]]
                0 <= j < js.len() && ((js[j].a as int == m && js[j].b as int == b) || (
                js[j].a as int == b && js[j].b as int == m));
            assert(visited[b]);
        }
    }
}

/// A fully counted boolean sequence is all true.
proof fn lemma_count_true_full(s: Seq<bool>, upto: int)
    requires
        0 <= upto <= s.len(),
        count_true(s, upto) == upto,
    ensures
        forall|x: int| 0 <= x < upto ==> s[x],
    decreases upto,
{
    if upto > 0 {
        lemma_count_true_bound(s, upto - 1);
        lemma_count_true_full(s, upto - 1);
    }
}

/// Id `x` appears in the queue.
pub open spec fn in_queue(q: Seq<usize>, x: int) -> bool {
    exists|t: int| 0 <= t < q.len() && (#[trigger] q[t]) as int == x
}

/// Breadth-first search from `a` over the recorded merges: marks every id a
/// chain of justifications reaches, records each mark's predecessor and the
/// justification that made it, and returns the visited set, the search
/// depths and the predecessor links.
fn bfs_over_merges(eg: &BooleanEGraph, just: &Vec<Justification>, a: usize) -> (r: (
    Vec<bool>,
    Vec<usize>,
    Vec<Option<(usize, usize)>>,
))
    requires
        eg.wf(),
        (a as int) < eg.n(),
        crate::runner::justs_valid(*eg, just@),
    ensures
        ({
            let (visited, depth, prev) = r;
            let n = eg.n();
            &&& visited@.len() == n
            &&& depth@.len() == n
            &&& prev@.len() == n
            &&& visited@[a as int]
            &&& prev@[a as int] is None
            &&& forall|x: int|
                #![trigger prev@[x]]
                0 <= x < n && prev@[x] is Some ==> visited@[x] && ({
                    let (p, j) = prev@[x]->0;
                    &&& (p as int) < n
                    &&& (j as int) < just@.len()
                    &&& visited@[p as int]
                    &&& (depth@[p as int] as int) < depth@[x] as int
                    &&& ((just@[j as int].a == p && just@[j as int].b == x) || (just@[j as int].a
                        == x && just@[j as int].b == p))
                })
            &&& forall|x: int| 0 <= x < n && visited@[x] && prev@[x] is None ==> x == a as int
            &&& forall|x: int, jj: int|
                #![trigger visited@[x], just@[jj]]
                0 <= x < n && visited@[x] && 0 <= jj < just@.len() ==> ((just@[jj].a as int == x
                    ==> visited@[just@[jj].b as int]) && (just@[jj].b as int == x
                    ==> visited@[just@[jj].a as int]))
        }),
{
    let n = eg.uf.leader.len();
    let mut visited: Vec<bool> = Vec::new();
    let mut depth: Vec<usize> = Vec::new();
    let mut prev: Vec<Option<(usize, usize)>> = Vec::new();
    let mut i: usize = 0;
    while i < n
        invariant
            i <= n,
            visited@.len() == i,
            depth@.len() == i,
            prev@.len() == i,
            forall|x: int| 0 <= x < i ==> !visited@[x],
            forall|x: int| 0 <= x < i ==> prev@[x] is None,
            forall|x: int| 0 <= x < i ==> (#[trigger] depth@[x]) == 0,
            count_true(visited@, i as int) == 0,
        decreases n - i,
    {
        let ghost vb = visited@;
        visited.push(false);
        depth.push(0);
        prev.push(None);
        proof {
            lemma_count_push_prefix(vb, false, i as int);
        }
        i = i + 1;
    }
    // breadth-first search from `a` over the recorded merges
    let ghost vseed = visited@;
    visited[a] = true;
    let mut seen: usize = 1;
    proof {
        lemma_count_true_set(vseed, a as int, n as int);
    }
    let mut queue: Vec<usize> = Vec::new();
    queue.push(a);
    proof {
        assert((queue@[0]) as int == a as int);
        assert forall|x: int|
            #![trigger visited@[x]]
            0 <= x < n && visited@[x] implies in_queue(queue@, x) by {
            if x != a as int {
                assert(!vseed[x]);
            }
        }
        assert forall|x: int|
            #![trigger depth@[x]]
            0 <= x < n && visited@[x] implies (depth@[x] as int) + 1 <= seen as int by {
            if x != a as int {
                assert(!vseed[x]);
            }
        }
    }
    let mut head: usize = 0;
    while head < queue.len()
        invariant
            eg.wf(),
            n == eg.n(),
            (a as int) < n,
            visited@.len() == n,
            depth@.len() == n,
            prev@.len() == n,
            crate::runner::justs_valid(*eg, just@),
            head <= queue@.len(),
            queue@.len() <= seen,
            seen as int == count_true(visited@, n as int),
            seen <= n,
            visited@[a as int],
            prev@[a as int] is None,
            forall|t: int| 0 <= t < queue@.len() ==> (#[trigger] queue@[t] as int) < n && visited@[queue@[t] as int],
            forall|x: int| #![trigger visited@[x]] 0 <= x < n && visited@[x] ==> in_queue(queue@, x),
            forall|x: int|
                #![trigger depth@[x]]
                0 <= x < n && visited@[x] ==> (depth@[x] as int) + 1 <= seen as int,
            forall|t: int, j: int|
                #![trigger queue@[t], just@[j]]
                0 <= t < head && 0 <= j < just@.len() ==> ((just@[j].a as int == queue@[t] as int
                    ==> visited@[just@[j].b as int]) && (just@[j].b as int == queue@[t] as int
                    ==> visited@[just@[j].a as int])),
            forall|x: int|
                #![trigger prev@[x]]
                0 <= x < n && prev@[x] is Some ==> visited@[x] && ({
                    let (p, j) = prev@[x]->0;
                    &&& (p as int) < n
                    &&& (j as int) < just@.len()
                    &&& visited@[p as int]
                    &&& (depth@[p as int] as int) < depth@[x] as int
                    &&& ((just@[j as int].a == p && just@[j as int].b == x) || (just@[j as int].a
                        == x && just@[j as int].b == p))
                }),
            forall|x: int| 0 <= x < n && visited@[x] && prev@[x] is None ==> x == a as int,
        decreases n - head,
    {
        let cur = queue[head];
        let dc = depth[cur];
        let nj = just.len();
        let mut j: usize = 0;
        while j < nj
            invariant
                eg.wf(),
                n == eg.n(),
                (a as int) < n,
                visited@.len() == n,
                depth@.len() == n,
                prev@.len() == n,
                crate::runner::justs_valid(*eg, just@),
                nj == just@.len(),
                j <= nj,
                (cur as int) < n,
                (depth@[cur as int] as int) == dc as int,
                visited@[cur as int],
                head < queue@.len(),
                queue@.len() <= seen,
                seen as int == count_true(visited@, n as int),
                seen <= n,
                visited@[a as int],
                prev@[a as int] is None,
                forall|t: int|
                    0 <= t < queue@.len() ==> (#[trigger] queue@[t] as int) < n && visited@[queue@[t] as int],
                queue@[head as int] == cur,
                forall|x: int|
                    #![trigger visited@[x]]
                    0 <= x < n && visited@[x] ==> in_queue(queue@, x),
                forall|x: int|
                    #![trigger depth@[x]]
                    0 <= x < n && visited@[x] ==> (depth@[x] as int) + 1 <= seen as int,
                forall|t: int, jj: int|
                    #![trigger queue@[t], just@[jj]]
                    0 <= t < head && 0 <= jj < just@.len() ==> ((just@[jj].a as int
                        == queue@[t] as int ==> visited@[just@[jj].b as int]) && (
                    just@[jj].b as int == queue@[t] as int ==> visited@[just@[jj].a as int])),
                forall|jj: int|
                    #![trigger just@[jj]]
                    0 <= jj < j ==> ((just@[jj].a as int == cur as int
                        ==> visited@[just@[jj].b as int]) && (just@[jj].b as int == cur as int
                        ==> visited@[just@[jj].a as int])),
                forall|x: int|
                    #![trigger prev@[x]]
                    0 <= x < n && prev@[x] is Some ==> visited@[x] && ({
                        let (p, jj) = prev@[x]->0;
                        &&& (p as int) < n
                        &&& (jj as int) < just@.len()
                        &&& visited@[p as int]
                        &&& (depth@[p as int] as int) < depth@[x] as int
                        &&& ((just@[jj as int].a == p && just@[jj as int].b == x) || (
                        just@[jj as int].a == x && just@[jj as int].b == p))
                    }),
                forall|x: int| 0 <= x < n && visited@[x] && prev@[x] is None ==> x == a as int,
            decreases nj - j,
        {
            proof {
                assert((just@[j as int].a as int) < eg.n());
                assert((just@[j as int].b as int) < eg.n());
            }
            let other: usize = if just[j].a == cur {
                just[j].b
            } else if just[j].b == cur {
                just[j].a
            } else {
                cur
            };
            let ghost v_pre = visited@;
            let ghost d_pre = depth@;
            let ghost q_pre = queue@;
            let ghost seen_pre = seen;
            if other != cur && !visited[other] && dc < n - 1 {
                proof {
                    lemma_count_true_set(visited@, other as int, n as int);
                    lemma_count_true_bound(visited@.update(other as int, true), n as int);
                }
                visited[other] = true;
                depth[other] = dc + 1;
                prev[other] = Some((cur, j));
                seen = seen + 1;
                queue.push(other);
                proof {
                    lemma_count_true_bound(visited@, n as int);
                }
            }
            proof {
                // visited ids are still all queued
                assert forall|x: int|
                    #![trigger visited@[x]]
                    0 <= x < n && visited@[x] implies in_queue(queue@, x) by {
                    if v_pre[x] {
                        let t = choose|t: int| 0 <= t < q_pre.len() && (#[trigger] q_pre[t]) as int == x;
                        assert(queue@[t] == q_pre[t]);
                    } else {
                        assert(x == other as int);
                        assert((queue@[queue@.len() - 1]) as int == x);
                    }
                }
                // depth stays below the visited count
                assert forall|x: int|
                    #![trigger depth@[x]]
                    0 <= x < n && visited@[x] implies (depth@[x] as int) + 1 <= seen as int by {
                    if v_pre[x] && x != other as int {
                        assert(depth@[x] == d_pre[x]);
                        assert((d_pre[x] as int) + 1 <= seen_pre as int);
                    } else if !v_pre[x] {
                        assert(x == other as int);
                        assert((d_pre[cur as int] as int) + 1 <= seen_pre as int);
                    } else {
                        assert((d_pre[x] as int) + 1 <= seen_pre as int);
                        assert(depth@[x] == d_pre[x] || x == other as int);
                    }
                }
                // the edge just scanned now leads to a visited id
                assert forall|jj: int|
                    #![trigger just@[jj]]
                    0 <= jj < j + 1 implies ((just@[jj].a as int == cur as int
                    ==> visited@[just@[jj].b as int]) && (just@[jj].b as int == cur as int
                    ==> visited@[just@[jj].a as int])) by {
                    if jj == j as int {
                        if just@[jj].a as int == cur as int || just@[jj].b as int == cur as int {
                            if other as int != cur as int && !v_pre[other as int] && !(dc < n - 1) {
                                // a full visited set would contain the endpoint
                                assert((d_pre[cur as int] as int) + 1 <= seen_pre as int);
                                assert(seen_pre == n);
                                lemma_count_true_full(v_pre, n as int);
                                assert(false);
                            }
                        }
                    }
                }
            }
            j = j + 1;
        }
        proof {
            assert forall|t: int, jj: int|
                #![trigger queue@[t], just@[jj]]
                0 <= t < head + 1 && 0 <= jj < just@.len() implies ((just@[jj].a as int
                == queue@[t] as int ==> visited@[just@[jj].b as int]) && (just@[jj].b as int
                == queue@[t] as int ==> visited@[just@[jj].a as int])) by {
                if t == head as int {
                    assert(queue@[t] == cur);
                }
            }
        }
        head = head + 1;
    }
    proof {
        // everything visited was processed, so the visited set is closed
        // under the recorded merges
        assert forall|x: int, jj: int|
            #![trigger visited@[x], just@[jj]]
            0 <= x < n && visited@[x] && 0 <= jj < just@.len() implies ((just@[jj].a as int == x
            ==> visited@[just@[jj].b as int]) && (just@[jj].b as int == x
            ==> visited@[just@[jj].a as int])) by {
            assert(in_queue(queue@, x));
            let t = choose|t: int| 0 <= t < queue@.len() && (#[trigger] queue@[t]) as int == x;
        }
    }
    (visited, depth, prev)
}

/// Reconstructs a witness chain of rewrites between the classes of `a` and
/// `b`, from the justifications a run recorded. Returns `NotEquivalent`
/// exactly when the classes are distinct, and succeeds whenever some chain
/// of recorded merges (with in-range rule indices) connects the two ids;
/// `NoExplanation` is left only for equality that rests on congruence,
/// whose merges inside `rebuild` are not recorded.
#[verifier::rlimit(100)]
#[verifier::spinoff_prover]
pub fn explain_equivalence(
    eg: &BooleanEGraph,
    rules: &Vec<Rule>,
    just: &Vec<Justification>,
    a: usize,
    b: usize,
) -> (r: Result<Vec<ExplainStep>, EngineError>)
    requires
        eg.wf(),
        (a as int) < eg.n(),
        (b as int) < eg.n(),
        crate::runner::justs_valid(*eg, just@),
    ensures
        r is Ok ==> chain_ok(just@, rules@, r->Ok_0@, a, b),
        r == Err::<Vec<ExplainStep>, EngineError>(EngineError::NotEquivalent) <==> !eg.same_class(
            a as int,
            b as int,
        ),
        eg.same_class(a as int, b as int) && crate::runner::justs_ruled(
            just@,
            rules@.len() as int,
        ) && justs_reachable(just@, a as int, b as int) ==> r is Ok,
{
    if eg.find(a) != eg.find(b) {
        return Err(EngineError::NotEquivalent);
    }
    if a == b {
        return Ok(Vec::new());
    }
    let n = eg.uf.leader.len();
    let (visited, depth, prev) = bfs_over_merges(eg, just, a);
    if !visited[b] {
        proof {
            // no chain over the recorded merges reaches `b`: the search
            // visited everything reachable from `a`
            if crate::runner::justs_ruled(just@, rules@.len() as int) && justs_reachable(
                just@,
                a as int,
                b as int,
            ) {
                assert forall|jj: int| #![trigger just@[jj]] 0 <= jj < just@.len() implies (
                just@[jj].a as int) < n && (just@[jj].b as int) < n by {}
                let k = choose|k: nat| justs_connected(just@, a as int, b as int, k);
                lemma_closure_complete(just@, visited@, n as int, a as int, b as int, k);
                assert(false);
            }
        }
        return Err(EngineError::NoExplanation);
    }
    // walk the predecessor links back from `b`, collecting steps in reverse
    let mut rev: Vec<ExplainStep> = Vec::new();
    let mut cur = b;
    loop
        invariant
            n == eg.n(),
            (a as int) < n,
            (b as int) < n,
            (cur as int) < n,
            visited@.len() == n,
            depth@.len() == n,
            prev@.len() == n,
            visited@[cur as int],
            prev@[a as int] is None,
            eg.wf(),
            eg.same_class(a as int, b as int),
            rev@.len() == 0 ==> cur == b,
            rev@.len() > 0 ==> rev@[0].to == b && rev@[rev@.len() - 1].from == cur,
            forall|t: int| #![trigger rev@[t]] 0 <= t < rev@.len() - 1 ==> rev@[t + 1].to == rev@[t].from,
            forall|t: int|
                #![trigger rev@[t]]
                0 <= t < rev@.len() ==> step_justified(just@, rules@, rev@[t]),
            forall|x: int|
                #![trigger prev@[x]]
                0 <= x < n && prev@[x] is Some ==> visited@[x] && ({
                    let (p, jj) = prev@[x]->0;
                    &&& (p as int) < n
                    &&& (jj as int) < just@.len()
                    &&& visited@[p as int]
                    &&& (depth@[p as int] as int) < depth@[x] as int
                    &&& ((just@[jj as int].a == p && just@[jj as int].b == x) || (
                    just@[jj as int].a == x && just@[jj as int].b == p))
                }),
            forall|x: int| 0 <= x < n && visited@[x] && prev@[x] is None ==> x == a as int,
        ensures
            cur == a,
            rev@.len() == 0 ==> a == b,
            rev@.len() > 0 ==> rev@[0].to == b && rev@[rev@.len() - 1].from == a,
            forall|t: int| #![trigger rev@[t]] 0 <= t < rev@.len() - 1 ==> rev@[t + 1].to == rev@[t].from,
            forall|t: int|
                #![trigger rev@[t]]
                0 <= t < rev@.len() ==> step_justified(just@, rules@, rev@[t]),
        decreases depth@[cur as int],
    {
        let link = prev[cur];
        match link {
            None => {
                break ;
            },
            Some((p, j)) => {
                proof {
                    assert(prev@[cur as int] is Some);
                }
                if just[j].rule >= rules.len() {
                    proof {
                        assert((j as int) < just@.len());
                        assert(!crate::runner::justs_ruled(just@, rules@.len() as int));
                    }
                    return Err(EngineError::NoExplanation);
                }
                let name = crate::expr::copy_bytes(&rules[just[j].rule].name);
                let st = ExplainStep { rule_name: name, from: p, to: cur };
                proof {
                    assert(((just@[j as int].a == p && just@[j as int].b == cur) || (
                    just@[j as int].a == cur && just@[j as int].b == p)));
                    assert(step_justified(just@, rules@, st));
                }
                let ghost rev0 = rev@;
                rev.push(st);
                proof {
                    assert forall|t: int|
                        #![trigger rev@[t]]
                        0 <= t < rev@.len() - 1 implies rev@[t + 1].to == rev@[t].from by {
                        if t < rev0.len() - 1 {
                            assert(rev0[t + 1].to == rev0[t].from);
                        }
                    }
                    assert forall|t: int|
                        #![trigger rev@[t]]
                        0 <= t < rev@.len() implies step_justified(just@, rules@, rev@[t]) by {
                        if t < rev0.len() {
                            assert(step_justified(just@, rules@, rev0[t]));
                        }
                    }
                }
                cur = p;
            },
        }
    }
    // reverse into forward order
    let mut steps: Vec<ExplainStep> = Vec::new();
    let len = rev.len();
    let mut t: usize = 0;
    while t < len
        invariant
            len == rev@.len(),
            t <= len,
            steps@.len() == t,
            forall|q: int|
                #![trigger steps@[q]]
                0 <= q < t ==> steps@[q].from == rev@[len - 1 - q].from && steps@[q].to == rev@[len
                    - 1 - q].to && steps@[q].rule_name@ == rev@[len - 1 - q].rule_name@,
        decreases len - t,
    {
        let src = &rev[len - 1 - t];
        steps.push(
            ExplainStep {
                rule_name: crate::expr::copy_bytes(&src.rule_name),
                from: src.from,
                to: src.to,
            },
        );
        t = t + 1;
    }
    proof {
        if len > 0 {
            assert(steps@[0].from == rev@[len - 1].from);
            assert(steps@[steps@.len() - 1].to == rev@[0].to);
        }
        assert forall|t2: int|
            #![trigger steps@[t2]]
            0 <= t2 < steps@.len() - 1 implies steps@[t2].to == steps@[t2 + 1].from by {
            assert(steps@[t2].to == rev@[len - 1 - t2].to);
            assert(steps@[t2 + 1].from == rev@[len - 2 - t2].from);
            assert(rev@[(len - 2 - t2) + 1].to == rev@[len - 2 - t2].from);
        }
        assert forall|t2: int|
            #![trigger steps@[t2]]
            0 <= t2 < steps@.len() implies step_justified(just@, rules@, steps@[t2]) by {
            assert(step_justified(just@, rules@, rev@[len - 1 - t2]));
            let j = choose|j: int|
                #![trigger just@[j]]
                0 <= j < just@.len() && ((just@[j].a == rev@[len - 1 - t2].from && just@[j].b
                    == rev@[len - 1 - t2].to) || (just@[j].a == rev@[len - 1 - t2].to && just@[j].b
                    == rev@[len - 1 - t2].from)) && (just@[j].rule as int) < rules@.len()
                    && rev@[len - 1 - t2].rule_name@ == rules@[just@[j].rule as int].name@;
            assert(0 <= j < just@.len() && ((just@[j].a == steps@[t2].from && just@[j].b
                == steps@[t2].to) || (just@[j].a == steps@[t2].to && just@[j].b
                == steps@[t2].from)) && (just@[j].rule as int) < rules@.len()
                && steps@[t2].rule_name@ == rules@[just@[j].rule as int].name@);
        }
    }
    Ok(steps)
}

/// Pushing onto a sequence does not change counts over the old range.
proof fn lemma_count_push_prefix(s: Seq<bool>, v: bool, upto: int)
    requires
        0 <= upto <= s.len(),
    ensures
        count_true(s.push(v), upto) == count_true(s, upto),
    decreases upto,
{
    if upto > 0 {
        lemma_count_push_prefix(s, v, upto - 1);
    }
}

} // verus!
