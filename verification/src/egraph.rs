//! The e-graph: equivalence classes of e-nodes, maintained by a union-find
//! table and a hash-cons index.
//!
//! The union-find table is kept fully collapsed: every stored leader is its
//! own leader, so `find` is a single lookup and re-pointing a class rewrites
//! the whole table. The hash-cons index is an association list from stored
//! e-nodes to class ids; stored e-nodes are pairwise distinct at all times,
//! while canonicality of their children is restored by `rebuild`.

use vstd::prelude::*;
use crate::expr::BooleanExpression;
use crate::expr::Node;
use crate::expr::NodeV;
use crate::expr::arity_ok;
use crate::expr::expr_node_wf;
use crate::expr::node_eq;

verus! {

/// Number of indices `i < upto` with `s[i] == i`.
pub open spec fn count_roots(s: Seq<usize>, upto: int) -> nat
    decreases upto,
{
    if upto <= 0 {
        0
    } else {
        count_roots(s, upto - 1) + if s[upto - 1] as int == upto - 1 {
            1nat
        } else {
            0nat
        }
    }
}

/// If the set of fixpoints shrinks pointwise and loses the fixpoint `l`,
/// the count goes down accordingly.
pub proof fn lemma_count_roots_shrinks(s1: Seq<usize>, s2: Seq<usize>, l: int, upto: int)
    requires
        s1.len() == s2.len(),
        0 <= upto <= s1.len(),
        0 <= l < s1.len(),
        s1[l] as int == l,
        s2[l] as int != l,
        forall|i: int| 0 <= i < s2.len() && (#[trigger] s2[i]) as int == i ==> s1[i] as int == i,
    ensures
        count_roots(s2, upto) + (if l < upto {
            1int
        } else {
            0int
        }) <= count_roots(s1, upto),
    decreases upto,
{
    if upto > 0 {
        lemma_count_roots_shrinks(s1, s2, l, upto - 1);
    }
}

/// A union-find table over dense ids, kept fully collapsed.
pub struct UnionFind {
    /// Maps each ever-assigned id to its current leader; each stored leader
    /// is its own leader.
    pub leader: Vec<usize>,
    /// Class sizes, meaningful at leaders; used to pick the merge winner.
    pub size: Vec<usize>,
}

impl UnionFind {
    /// Number of ids assigned so far.
    pub open spec fn n(self) -> int {
        self.leader@.len() as int
    }

    /// The leader of id `i`.
    pub open spec fn lead_of(self, i: int) -> int {
        self.leader@[i] as int
    }

    /// Well-formedness: leaders are in range and idempotent.
    pub open spec fn wf(self) -> bool {
        &&& self.size@.len() == self.leader@.len()
        &&& forall|i: int|
            0 <= i < self.n() ==> 0 <= #[trigger] self.lead_of(i) < self.n() && self.lead_of(
                self.lead_of(i),
            ) == self.lead_of(i)
    }

    /// Ids `i` and `j` are in the same class.
    pub open spec fn same(self, i: int, j: int) -> bool {
        self.lead_of(i) == self.lead_of(j)
    }

    /// Number of distinct classes.
    pub open spec fn num_roots(self) -> nat {
        count_roots(self.leader@, self.n())
    }

    /// A fresh, empty table.
    pub fn new() -> (r: UnionFind)
        ensures
            r.wf(),
            r.n() == 0,
    {
        UnionFind { leader: Vec::new(), size: Vec::new() }
    }

    /// Assigns a fresh id, in a class of its own.
    pub fn fresh(&mut self) -> (r: usize)
        requires
            old(self).wf(),
            old(self).n() < usize::MAX,
        ensures
            final(self).wf(),
            r as int == old(self).n(),
            final(self).n() == old(self).n() + 1,
            old(self).leader@.is_prefix_of(final(self).leader@),
            final(self).lead_of(r as int) == r as int,
            forall|i: int| 0 <= i < old(self).n() ==> final(self).lead_of(i) == old(self).lead_of(i),
    {
        let id = self.leader.len();
        self.leader.push(id);
        self.size.push(1);
        proof {
            assert(old(self).leader@.is_prefix_of(self.leader@));
            assert forall|i: int| 0 <= i < self.n() implies 0 <= #[trigger] self.lead_of(i)
                < self.n() && self.lead_of(self.lead_of(i)) == self.lead_of(i) by {
                if i < old(self).n() {
                    assert(old(self).lead_of(old(self).lead_of(i)) == old(self).lead_of(i));
                }
            }
        }
        id
    }

    /// The union-find leader of `a`.
    pub fn find(&self, a: usize) -> (r: usize)
        requires
            (a as int) < self.n(),
        ensures
            r as int == self.lead_of(a as int),
    {
        self.leader[a]
    }

    /// Unions the classes of `a` and `b`; the larger class is chosen as the
    /// new leader. Returns the leader and whether anything changed.
    pub fn merge(&mut self, a: usize, b: usize) -> (r: (usize, bool))
        requires
            old(self).wf(),
            (a as int) < old(self).n(),
            (b as int) < old(self).n(),
        ensures
            final(self).wf(),
            final(self).n() == old(self).n(),
            final(self).same(a as int, b as int),
            r.0 as int == final(self).lead_of(a as int),
            r.1 == !old(self).same(a as int, b as int),
            forall|i: int, j: int|
                0 <= i < old(self).n() && 0 <= j < old(self).n() && old(self).same(i, j)
                    ==> final(self).same(i, j),
            forall|i: int|
                0 <= i < old(self).n() && final(self).lead_of(i) == i ==> old(self).lead_of(i) == i,
            !r.1 ==> *final(self) == *old(self),
            r.1 ==> final(self).num_roots() < old(self).num_roots(),
            final(self).num_roots() <= old(self).num_roots(),
    {
        let ra = self.leader[a];
        let rb = self.leader[b];
        proof {
            assert(0 <= self.lead_of(a as int) < self.n());
            assert(0 <= self.lead_of(b as int) < self.n());
            assert(self.lead_of(ra as int) == ra as int);
            assert(self.lead_of(rb as int) == rb as int);
        }
        if ra == rb {
            return (ra, false);
        }
        let w: usize;
        let l: usize;
        if self.size[ra] >= self.size[rb] {
            w = ra;
            l = rb;
        } else {
            w = rb;
            l = ra;
        }
        let n = self.leader.len();
        let mut i: usize = 0;
        while i < n
            invariant
                old(self).wf(),
                n == old(self).n(),
                i <= n,
                self.size == old(self).size,
                self.leader@.len() == old(self).leader@.len(),
                (w as int) < n,
                (l as int) < n,
                w != l,
                old(self).lead_of(w as int) == w as int,
                old(self).lead_of(l as int) == l as int,
                forall|t: int|
                    0 <= t < i ==> #[trigger] self.leader@[t] == (if old(self).lead_of(t)
                        == l as int {
                        w
                    } else {
                        old(self).leader@[t]
                    }),
                forall|t: int| i <= t < n ==> #[trigger] self.leader@[t] == old(self).leader@[t],
            decreases n - i,
        {
            if self.leader[i] == l {
                self.leader[i] = w;
            }
            i = i + 1;
        }
        let sl = self.size[l];
        let sw = self.size[w];
        let snew = if sw <= usize::MAX - sl {
            sw + sl
        } else {
            usize::MAX
        };
        self.size[w] = snew;
        proof {
            assert forall|t: int| 0 <= t < self.n() implies 0 <= #[trigger] self.lead_of(t)
                < self.n() && self.lead_of(self.lead_of(t)) == self.lead_of(t) by {
                assert(old(self).lead_of(old(self).lead_of(t)) == old(self).lead_of(t));
            }
            assert forall|t: int|
                0 <= t < self.n() && (#[trigger] self.leader@[t]) as int == t implies old(
                self,
            ).leader@[t] as int == t by {}
            lemma_count_roots_shrinks(
                old(self).leader@,
                self.leader@,
                l as int,
                old(self).n(),
            );
        }
        (w, true)
    }
}

/// A node fit for a graph with `n` classes: arity respected, children in
/// range.
pub open spec fn node_ok_n(n: int, nd: NodeV) -> bool {
    &&& arity_ok(nd.op, nd.children.len() as int)
    &&& forall|j: int| 0 <= j < nd.children.len() ==> (#[trigger] nd.children[j] as int) < n
}

/// Every entry of `ms` has a class id below `n` and a fit node.
pub open spec fn entries_ok(n: int, ms: Seq<(Node, usize)>) -> bool {
    forall|k: int|
        #![trigger ms[k]]
        0 <= k < ms.len() ==> (ms[k].1 as int) < n && node_ok_n(n, ms[k].0@)
}

/// The stored nodes of `ms` are pairwise distinct.
pub open spec fn entries_distinct(ms: Seq<(Node, usize)>) -> bool {
    forall|k: int, l: int| 0 <= k < l < ms.len() ==> (#[trigger] ms[k].0)@ != (#[trigger] ms[l].0)@
}

/// `x` and `y` have the same operator and pointwise-equivalent children
/// under `uf`.
pub open spec fn congruent_uf(uf: UnionFind, x: NodeV, y: NodeV) -> bool {
    &&& x.op == y.op
    &&& x.children.len() == y.children.len()
    &&& forall|j: int|
        0 <= j < x.children.len() ==> uf.same(#[trigger] x.children[j] as int, y.children[j] as int)
}

/// Some entry of `ms` is congruent to `nd` under `uf` and its class is
/// equivalent to `c`.
pub open spec fn memo_has_congruent(uf: UnionFind, ms: Seq<(Node, usize)>, nd: NodeV, c: int) -> bool {
    exists|k: int|
        0 <= k < ms.len() && congruent_uf(uf, ms[k].0@, nd) && uf.same(ms[k].1 as int, c)
}

/// A node whose children are all leaders of `uf`.
pub open spec fn node_canonical_uf(uf: UnionFind, nd: NodeV) -> bool {
    forall|j: int|
        0 <= j < nd.children.len() ==> uf.lead_of(#[trigger] nd.children[j] as int)
            == nd.children[j] as int
}

/// An entry whose class id and node children are all leaders of `uf`.
pub open spec fn entry_canonical_uf(uf: UnionFind, e: (Node, usize)) -> bool {
    &&& uf.lead_of(e.1 as int) == e.1 as int
    &&& node_canonical_uf(uf, e.0@)
}

/// Every entry of `ms` is canonical under `uf`.
pub open spec fn entries_canonical(uf: UnionFind, ms: Seq<(Node, usize)>) -> bool {
    forall|t: int| 0 <= t < ms.len() ==> #[trigger] entry_canonical_uf(uf, ms[t])
}

/// Congruence under `uf1` survives a union-find that only coarsens.
pub proof fn lemma_congruent_coarsen(uf1: UnionFind, uf2: UnionFind, n: int, x: NodeV, y: NodeV)
    requires
        congruent_uf(uf1, x, y),
        forall|i: int, j: int| 0 <= i < n && 0 <= j < n && uf1.same(i, j) ==> uf2.same(i, j),
        forall|j: int|
            0 <= j < x.children.len() ==> (#[trigger] x.children[j] as int) < n && (
            y.children[j] as int) < n,
    ensures
        congruent_uf(uf2, x, y),
{
    assert forall|j: int| 0 <= j < x.children.len() implies uf2.same(
        #[trigger] x.children[j] as int,
        y.children[j] as int,
    ) by {
        assert(uf1.same(x.children[j] as int, y.children[j] as int));
    }
}

/// Congruence under one union-find is transitive.
pub proof fn lemma_congruent_trans(uf: UnionFind, x: NodeV, y: NodeV, z: NodeV)
    requires
        congruent_uf(uf, x, y),
        congruent_uf(uf, y, z),
    ensures
        congruent_uf(uf, x, z),
{
    assert forall|j: int| 0 <= j < x.children.len() implies uf.same(
        #[trigger] x.children[j] as int,
        z.children[j] as int,
    ) by {
        assert(uf.same(x.children[j] as int, y.children[j] as int));
        assert(uf.same(y.children[j] as int, z.children[j] as int));
    }
}

/// Children of every stored e-node name classes older than the e-node's own
/// class. Holds while a graph is only grown by `add`; `rebuild` may break it.
pub open spec fn entries_downward(ms: Seq<(Node, usize)>) -> bool {
    forall|k: int, j: int|
        #![trigger ms[k].0@.children[j]]
        0 <= k < ms.len() && 0 <= j < ms[k].0@.children.len() ==> (ms[k].0@.children[j] as int)
            < ms[k].1 as int
}

/// The node of `nd` with every child replaced by its leader in `uf`.
pub open spec fn canon_node_spec(uf: UnionFind, nd: NodeV) -> NodeV {
    NodeV {
        op: nd.op,
        children: Seq::new(nd.children.len(), |j: int| uf.leader@[nd.children[j] as int]),
    }
}

/// Canonicalizes a node's children through the union-find table.
pub fn canon_with(uf: &UnionFind, nd: &Node) -> (r: Node)
    requires
        forall|j: int|
            0 <= j < nd@.children.len() ==> (#[trigger] nd@.children[j] as int) < uf.n(),
    ensures
        r@ == canon_node_spec(*uf, nd@),
{
    let mut ch: Vec<usize> = Vec::new();
    let mut j: usize = 0;
    let k = nd.children.len();
    while j < k
        invariant
            j <= k,
            k == nd@.children.len(),
            forall|t: int|
                0 <= t < nd@.children.len() ==> (#[trigger] nd@.children[t] as int) < uf.n(),
            ch@.len() == j,
            forall|t: int|
                0 <= t < j ==> #[trigger] ch@[t] == uf.leader@[nd@.children[t] as int],
        decreases k - j,
    {
        ch.push(uf.find(nd.children[j]));
        j = j + 1;
    }
    let r = Node { op: crate::expr::copy_op(&nd.op), children: ch };
    proof {
        assert(r@.children =~= canon_node_spec(*uf, nd@).children);
    }
    r
}

/// Searches an association list for a stored node equal to `nd`.
pub fn find_node(memo: &Vec<(Node, usize)>, nd: &Node) -> (r: Option<usize>)
    ensures
        match r {
            Some(k) => (k as int) < memo@.len() && memo@[k as int].0@ == nd@,
            None => forall|k: int| 0 <= k < memo@.len() ==> memo@[k].0@ != nd@,
        },
{
    let mut k: usize = 0;
    let m = memo.len();
    while k < m
        invariant
            k <= m,
            m == memo@.len(),
            forall|t: int| 0 <= t < k ==> memo@[t].0@ != nd@,
        decreases m - k,
    {
        if node_eq(&memo[k].0, nd) {
            return Some(k);
        }
        k = k + 1;
    }
    None
}

/// An e-graph over the term language.
///
/// Stored e-nodes live in `memo`, each with its class id; the union-find
/// table relates class ids. Stored e-nodes are pairwise distinct; between
/// merges and the next `rebuild`, their children may be stale (non-leader).
pub struct BooleanEGraph {
    /// Union-find over class ids.
    pub uf: UnionFind,
    /// Hash-cons index: each stored e-node with its class id.
    pub memo: Vec<(Node, usize)>,
}

impl BooleanEGraph {
    /// Number of class ids assigned so far.
    pub open spec fn n(self) -> int {
        self.uf.n()
    }

    /// Number of stored e-nodes.
    pub open spec fn m(self) -> int {
        self.memo@.len() as int
    }

    /// The `k`-th stored e-node.
    pub open spec fn entry_node(self, k: int) -> NodeV {
        self.memo@[k].0@
    }

    /// The class id of the `k`-th stored e-node.
    pub open spec fn entry_class(self, k: int) -> int {
        self.memo@[k].1 as int
    }

    /// Class ids `i` and `j` name the same e-class.
    pub open spec fn same_class(self, i: int, j: int) -> bool {
        self.uf.same(i, j)
    }

    /// A node fit for this graph: operator arity respected, children in range.
    pub open spec fn node_ok(self, nd: NodeV) -> bool {
        node_ok_n(self.n(), nd)
    }

    /// Every stored e-node is fit and its class id is in range.
    pub open spec fn memo_wf(self) -> bool {
        entries_ok(self.n(), self.memo@)
    }

    /// Stored e-nodes are pairwise distinct.
    pub open spec fn no_dups(self) -> bool {
        entries_distinct(self.memo@)
    }

    /// Class `i` holds at least one stored e-node.
    pub open spec fn class_has_node(self, i: int) -> bool {
        exists|k: int| 0 <= k < self.m() && self.same_class(self.entry_class(k), i)
    }

    /// Every class holds at least one stored e-node.
    pub open spec fn inhabited(self) -> bool {
        forall|i: int| 0 <= i < self.n() ==> #[trigger] self.class_has_node(i)
    }

    /// The invariant that every operation preserves.
    pub open spec fn wf(self) -> bool {
        &&& self.uf.wf()
        &&& self.memo_wf()
        &&& self.no_dups()
        &&& self.inhabited()
    }

    /// A node whose children are all leaders.
    pub open spec fn node_canonical(self, nd: NodeV) -> bool {
        node_canonical_uf(self.uf, nd)
    }

    /// Canonicality: every stored e-node's children and class id are leaders.
    /// Holds after `rebuild`, may be broken by `merge`.
    pub open spec fn canonical(self) -> bool {
        entries_canonical(self.uf, self.memo@)
    }

    /// Some stored e-node equals `nd`.
    pub open spec fn has_node(self, nd: NodeV) -> bool {
        exists|k: int| 0 <= k < self.m() && self.entry_node(k) == nd
    }

    /// The class id of the stored e-node equal to `nd` (unique when stored
    /// e-nodes are pairwise distinct).
    pub open spec fn node_class(self, nd: NodeV) -> int {
        self.entry_class(choose|k: int| 0 <= k < self.m() && self.entry_node(k) == nd)
    }

    /// `x` and `y` have the same operator and pointwise-equivalent children.
    pub open spec fn congruent_nodes(self, x: NodeV, y: NodeV) -> bool {
        congruent_uf(self.uf, x, y)
    }

    /// Some stored e-node is congruent to `nd` and sits in a class
    /// equivalent to `c`.
    pub open spec fn has_congruent_entry(self, nd: NodeV, c: int) -> bool {
        memo_has_congruent(self.uf, self.memo@, nd, c)
    }

    /// No class has ever been merged into another: every id is its own
    /// leader. Holds while a graph is only grown by `add`.
    pub open spec fn unmerged(self) -> bool {
        forall|i: int| 0 <= i < self.n() ==> #[trigger] self.uf.lead_of(i) == i
    }

    /// Class `c` represents the term rooted at `s[i]`: some stored e-node
    /// has the same operator and its children represent the child terms;
    /// `c` is the leader of that e-node's class.
    pub open spec fn contains_expr(self, s: Seq<NodeV>, i: int, c: int) -> bool
        decreases i,
    {
        &&& 0 <= i < s.len()
        &&& exists|k: int|
            #![trigger self.entry_node(k)]
            {
                &&& 0 <= k < self.m()
                &&& self.entry_node(k).op == s[i].op
                &&& self.entry_node(k).children.len() == s[i].children.len()
                &&& c == self.uf.lead_of(self.entry_class(k))
                &&& forall|j: int|
                    #![trigger s[i].children[j]]
                    0 <= j < s[i].children.len() ==> (s[i].children[j] as int) < i
                        && self.contains_expr(
                        s,
                        s[i].children[j] as int,
                        self.entry_node(k).children[j] as int,
                    )
            }
    }

    /// A fresh, empty e-graph.
    pub fn new() -> (r: BooleanEGraph)
        ensures
            r.wf(),
            r.canonical(),
            r.n() == 0,
            r.m() == 0,
    {
        BooleanEGraph { uf: UnionFind::new(), memo: Vec::new() }
    }

    /// The union-find leader of class `a`.
    pub fn find(&self, a: usize) -> (r: usize)
        requires
            (a as int) < self.n(),
        ensures
            r as int == self.uf.lead_of(a as int),
    {
        self.uf.find(a)
    }

    /// Adds an e-node: canonicalizes its children, then returns the class of
    /// an equal stored e-node if there is one, otherwise allocates a fresh
    /// class for it.
    #[verifier::rlimit(60)]
    #[verifier::spinoff_prover]
    pub fn add(&mut self, node: Node) -> (r: usize)
        requires
            old(self).wf(),
            old(self).node_ok(node@),
            old(self).n() < usize::MAX,
        ensures
            final(self).wf(),
            final(self).n() >= old(self).n(),
            final(self).uf.leader@.len() >= old(self).uf.leader@.len(),
            old(self).uf.leader@.is_prefix_of(final(self).uf.leader@),
            old(self).memo@.is_prefix_of(final(self).memo@),
            forall|i: int|
                0 <= i < old(self).n() ==> final(self).uf.lead_of(i) == old(self).uf.lead_of(i),
            (r as int) < final(self).n(),
            final(self).uf.lead_of(r as int) == r as int,
            old(self).canonical() ==> final(self).canonical(),
            entries_downward(old(self).memo@) ==> entries_downward(final(self).memo@),
            old(self).unmerged() ==> final(self).unmerged(),
            final(self).has_node(canon_node_spec(old(self).uf, node@)),
            r as int == final(self).uf.lead_of(
                final(self).node_class(canon_node_spec(old(self).uf, node@)),
            ),
            ({
                let cn = canon_node_spec(old(self).uf, node@);
                if old(self).has_node(cn) {
                    *final(self) == *old(self) && r as int == old(self).uf.lead_of(
                        old(self).node_class(cn),
                    )
                } else {
                    final(self).n() == old(self).n() + 1 && r as int == old(self).n()
                        && final(self).m() == old(self).m() + 1 && final(self).entry_node(
                        old(self).m(),
                    ) == cn && final(self).entry_class(old(self).m()) == r as int
                }
            }),
    {
        let cn = canon_with(&self.uf, &node);
        proof {
            assert forall|j: int| 0 <= j < cn@.children.len() implies (
            #[trigger] cn@.children[j] as int) < self.n() && self.uf.lead_of(cn@.children[j] as int)
                == cn@.children[j] as int by {
                assert(0 <= self.uf.lead_of(node@.children[j] as int) < self.n());
                assert(self.uf.lead_of(self.uf.lead_of(node@.children[j] as int)) == self.uf.lead_of(
                    node@.children[j] as int,
                ));
            }
        }
        match find_node(&self.memo, &cn) {
            Some(k) => {
                proof {
                    assert(0 <= self.entry_class(k as int) < self.n());
                }
                let c = self.memo[k].1;
                let r = self.uf.find(c);
                proof {
                    assert(0 <= self.uf.lead_of(c as int) < self.n());
                    assert(self.uf.lead_of(self.uf.lead_of(c as int)) == self.uf.lead_of(c as int));
                    let cnv = canon_node_spec(old(self).uf, node@);
                    assert(self.entry_node(k as int) == cnv);
                    assert(self.has_node(cnv));
                    let k2 = choose|t: int| 0 <= t < self.m() && self.entry_node(t) == cnv;
                    if k2 != k as int {
                        assert(false);
                    }
                    assert(self.node_class(cnv) == self.entry_class(k as int));
                }
                r
            },
            None => {
                let id = self.uf.fresh();
                self.memo.push((cn, id));
                proof {
                    let cnv = canon_node_spec(old(self).uf, node@);
                    assert(!old(self).has_node(cnv));
                    assert(self.entry_node(old(self).m()) == cnv);
                    assert(old(self).memo@.is_prefix_of(self.memo@));
                    assert(self.has_node(cnv));
                    let k2 = choose|t: int| 0 <= t < self.m() && self.entry_node(t) == cnv;
                    if k2 != old(self).m() {
                        assert(self.memo@[k2] == old(self).memo@[k2]);
                        assert(old(self).entry_node(k2) == cnv);
                        assert(false);
                    }
                    assert(self.node_class(cnv) == id as int);
                    assert forall|i: int| 0 <= i < self.n() implies #[trigger] self.class_has_node(
                        i,
                    ) by {
                        if i < old(self).n() {
                            assert(old(self).class_has_node(i));
                            let w = choose|k: int|
                                0 <= k < old(self).m() && old(self).same_class(
                                    old(self).entry_class(k),
                                    i,
                                );
                            assert(self.entry_class(w) == old(self).entry_class(w));
                            assert(self.same_class(self.entry_class(w), i));
                        } else {
                            assert(self.entry_class(old(self).m()) == i);
                            assert(self.same_class(self.entry_class(old(self).m()), i));
                        }
                    }
                    assert forall|k: int, l: int| 0 <= k < l < self.m() implies #[trigger] self
                        .entry_node(k) != #[trigger] self.entry_node(l) by {
                        if l < old(self).m() {
                            assert(old(self).entry_node(k) != old(self).entry_node(l));
                        } else {
                            assert(self.entry_node(l) == cnv);
                            assert(old(self).entry_node(k) != cnv);
                        }
                    }
                    assert forall|k: int| 0 <= k < self.m() implies 0 <= #[trigger] self
                        .entry_class(k) < self.n() && self.node_ok(self.entry_node(k)) by {
                        if k < old(self).m() {
                            assert(0 <= old(self).entry_class(k) < old(self).n());
                            assert(old(self).node_ok(old(self).entry_node(k)));
                        }
                    }
                    if entries_downward(old(self).memo@) {
                        assert forall|k: int, j: int|
                            #![trigger self.memo@[k].0@.children[j]]
                            0 <= k < self.memo@.len() && 0 <= j
                                < self.memo@[k].0@.children.len() implies (self.memo@[k].0@.children[
                            j] as int) < self.memo@[k].1 as int by {
                            if k < old(self).m() {
                                assert(self.memo@[k] == old(self).memo@[k]);
                                assert((old(self).memo@[k].0@.children[j] as int) < old(
                                    self,
                                ).memo@[k].1 as int);
                            } else {
                                assert(self.memo@[k].0@ == cnv);
                                assert(cnv.children[j] == old(self).uf.leader@[node@.children[j] as int]);
                                assert((cnv.children[j] as int) < old(self).n());
                            }
                        }
                    }
                    if old(self).unmerged() {
                        assert forall|i: int| 0 <= i < self.n() implies #[trigger] self.uf.lead_of(
                            i,
                        ) == i by {
                            if i < old(self).n() {
                                assert(old(self).uf.lead_of(i) == i);
                            }
                        }
                    }
                    if old(self).canonical() {
                        assert forall|k: int| 0 <= k < self.memo@.len() implies
                            #[trigger] entry_canonical_uf(self.uf, self.memo@[k]) by {
                            if k < old(self).m() {
                                assert(entry_canonical_uf(old(self).uf, old(self).memo@[k]));
                                assert(old(self).node_ok(old(self).entry_node(k)));
                                assert(self.memo@[k] == old(self).memo@[k]);
                                assert forall|j: int|
                                    0 <= j < self.memo@[k].0@.children.len() implies self.uf
                                    .lead_of(#[trigger] self.memo@[k].0@.children[j] as int)
                                    == self.memo@[k].0@.children[j] as int by {
                                    assert((old(self).memo@[k].0@.children[j] as int) < old(
                                        self,
                                    ).n());
                                    assert(old(self).uf.lead_of(
                                        old(self).memo@[k].0@.children[j] as int,
                                    ) == old(self).memo@[k].0@.children[j] as int);
                                }
                            } else {
                                assert(self.memo@[k].0@ == cnv);
                                assert(self.memo@[k].1 == id);
                                assert forall|j: int|
                                    0 <= j < cnv.children.len() implies self.uf.lead_of(
                                    #[trigger] cnv.children[j] as int,
                                ) == cnv.children[j] as int by {
                                    assert(cnv.children[j] == old(self).uf.leader@[node@.children[j] as int]);
                                    assert((cnv.children[j] as int) < old(self).n());
                                    assert(old(self).uf.lead_of(cnv.children[j] as int)
                                        == cnv.children[j] as int);
                                }
                            }
                        }
                        assert(self.canonical());
                    }
                }
                id
            },
        }
    }

    /// Unions the classes of `a` and `b`; congruence repair is deferred to
    /// `rebuild`. Returns the surviving leader and whether anything changed.
    pub fn merge(&mut self, a: usize, b: usize) -> (r: (usize, bool))
        requires
            old(self).wf(),
            (a as int) < old(self).n(),
            (b as int) < old(self).n(),
        ensures
            final(self).wf(),
            final(self).n() == old(self).n(),
            final(self).memo@ == old(self).memo@,
            final(self).same_class(a as int, b as int),
            r.0 as int == final(self).uf.lead_of(a as int),
            r.1 == !old(self).same_class(a as int, b as int),
            forall|i: int, j: int|
                0 <= i < old(self).n() && 0 <= j < old(self).n() && old(self).same_class(i, j)
                    ==> final(self).same_class(i, j),
            !r.1 ==> *final(self) == *old(self),
            r.1 ==> final(self).uf.num_roots() < old(self).uf.num_roots(),
            final(self).uf.num_roots() <= old(self).uf.num_roots(),
    {
        let r = self.uf.merge(a, b);
        proof {
            assert forall|i: int| 0 <= i < self.n() implies #[trigger] self.class_has_node(i) by {
                assert(old(self).class_has_node(i));
                let w = choose|k: int|
                    0 <= k < old(self).m() && old(self).same_class(old(self).entry_class(k), i);
                assert(self.same_class(self.entry_class(w), i));
            }
            assert forall|k: int| 0 <= k < self.m() implies 0 <= #[trigger] self.entry_class(k)
                < self.n() && self.node_ok(self.entry_node(k)) by {
                assert(0 <= old(self).entry_class(k) < old(self).n());
                assert(old(self).node_ok(old(self).entry_node(k)));
            }
            assert forall|k: int, l: int| 0 <= k < l < self.m() implies #[trigger] self.entry_node(
                k,
            ) != #[trigger] self.entry_node(l) by {
                assert(old(self).entry_node(k) != old(self).entry_node(l));
            }
        }
        r
    }

    /// Adds every node of an expression, in topological order, and returns
    /// the class id of the root. Because the graph is hash-consed, adding a
    /// structurally identical expression again returns the same class id:
    /// any class that already represents the root is the one returned.
    pub fn add_expr(&mut self, e: &BooleanExpression) -> (r: usize)
        requires
            old(self).wf(),
            e.wf(),
            old(self).n() + e@.len() <= usize::MAX,
        ensures
            final(self).wf(),
            (r as int) < final(self).n(),
            final(self).uf.lead_of(r as int) == r as int,
            old(self).uf.leader@.is_prefix_of(final(self).uf.leader@),
            old(self).memo@.is_prefix_of(final(self).memo@),
            final(self).n() <= old(self).n() + e@.len(),
            forall|i: int|
                0 <= i < old(self).n() ==> final(self).uf.lead_of(i) == old(self).uf.lead_of(i),
            old(self).canonical() ==> final(self).canonical(),
            final(self).contains_expr(e@, e.root(), r as int),
            forall|c: int| old(self).contains_expr(e@, e.root(), c) ==> r as int == c,
    {
        let ghost g0 = *self;
        let mut cls: Vec<usize> = Vec::new();
        let len = e.nodes.len();
        let mut t: usize = 0;
        while t < len
            invariant
                self.wf(),
                e.wf(),
                len == e@.len(),
                t <= len,
                cls@.len() == t,
                g0.wf(),
                self.n() <= g0.n() + t,
                g0.n() + len <= usize::MAX,
                g0.uf.leader@.is_prefix_of(self.uf.leader@),
                g0.memo@.is_prefix_of(self.memo@),
                forall|i: int| 0 <= i < g0.n() ==> self.uf.lead_of(i) == g0.uf.lead_of(i),
                g0.canonical() ==> self.canonical(),
                forall|u: int|
                    0 <= u < t ==> (#[trigger] cls@[u] as int) < self.n() && self.uf.lead_of(
                        cls@[u] as int,
                    ) == cls@[u] as int && self.contains_expr(e@, u, cls@[u] as int),
            decreases len - t,
        {
            let ghost gpre = *self;
            proof {
                assert(expr_node_wf(e@, t as int));
            }
            let mut ch: Vec<usize> = Vec::new();
            let nch = e.nodes[t].children.len();
            let mut j: usize = 0;
            while j < nch
                invariant
                    j <= nch,
                    t < len,
                    len == e@.len(),
                    e.wf(),
                    cls@.len() == t,
                    nch == e@[t as int].children.len(),
                    expr_node_wf(e@, t as int),
                    (*self) == gpre,
                    gpre.wf(),
                    forall|u: int|
                        0 <= u < t ==> (#[trigger] cls@[u] as int) < gpre.n() && gpre.uf.lead_of(
                            cls@[u] as int,
                        ) == cls@[u] as int && gpre.contains_expr(e@, u, cls@[u] as int),
                    ch@.len() == j,
                    forall|q: int|
                        0 <= q < j ==> #[trigger] ch@[q] == cls@[e@[t as int].children[q] as int],
                decreases nch - j,
            {
                let ci = e.nodes[t].children[j];
                proof {
                    assert((e@[t as int].children[j as int] as int) < t as int);
                }
                ch.push(cls[ci]);
                j = j + 1;
            }
            let nd = Node { op: crate::expr::copy_op(&e.nodes[t].op), children: ch };
            proof {
                assert(nd@.op == e@[t as int].op);
                assert(nd@.children.len() == e@[t as int].children.len());
                assert(arity_ok(e@[t as int].op, e@[t as int].children.len() as int));
                assert forall|q: int| 0 <= q < nd@.children.len() implies (
                #[trigger] nd@.children[q] as int) < self.n() && self.uf.lead_of(
                    nd@.children[q] as int,
                ) == nd@.children[q] as int by {
                    assert(nd@.children[q] == cls@[e@[t as int].children[q] as int]);
                    assert((e@[t as int].children[q] as int) < t as int);
                }
                assert(self.node_ok(nd@));
                assert(node_canonical_uf(self.uf, nd@));
            }
            let ghost ndv = nd@;
            let c = self.add(nd);
            proof {
                lemma_canon_identity(gpre.uf, ndv);
                let cn = canon_node_spec(gpre.uf, ndv);
                assert(cn == ndv);
                if gpre.has_node(ndv) {
                    assert(*self == gpre);
                    let k = choose|k: int| 0 <= k < gpre.m() && gpre.entry_node(k) == ndv;
                    assert(c as int == gpre.uf.lead_of(gpre.entry_class(k)));
                    assert(self.entry_node(k) == ndv);
                    assert forall|q: int|
                        #![trigger e@[t as int].children[q]]
                        0 <= q < e@[t as int].children.len() implies (e@[t as int].children[
                        q] as int) < t as int && self.contains_expr(
                        e@,
                        e@[t as int].children[q] as int,
                        self.entry_node(k).children[q] as int,
                    ) by {
                        assert(self.entry_node(k).children[q] == cls@[e@[t as int].children[q] as int]);
                        assert(self.contains_expr(
                            e@,
                            e@[t as int].children[q] as int,
                            cls@[e@[t as int].children[q] as int] as int,
                        ));
                    }
                    assert(self.contains_expr(e@, t as int, c as int));
                } else {
                    let k = gpre.m();
                    assert(self.entry_node(k) == cn);
                    assert(self.entry_class(k) == c as int);
                    assert(self.uf.lead_of(c as int) == c as int);
                    assert forall|q: int|
                        #![trigger e@[t as int].children[q]]
                        0 <= q < e@[t as int].children.len() implies (e@[t as int].children[
                        q] as int) < t as int && self.contains_expr(
                        e@,
                        e@[t as int].children[q] as int,
                        self.entry_node(k).children[q] as int,
                    ) by {
                        assert(self.entry_node(k).children[q] == cls@[e@[t as int].children[q] as int]);
                        lemma_contains_monotone(
                            gpre,
                            *self,
                            e@,
                            e@[t as int].children[q] as int,
                            cls@[e@[t as int].children[q] as int] as int,
                        );
                    }
                    assert(self.contains_expr(e@, t as int, c as int));
                }
                assert forall|u: int|
                    0 <= u < t implies (#[trigger] cls@[u] as int) < self.n() && self.uf.lead_of(
                    cls@[u] as int,
                ) == cls@[u] as int && self.contains_expr(e@, u, cls@[u] as int) by {
                    assert(gpre.contains_expr(e@, u, cls@[u] as int));
                    lemma_contains_monotone(gpre, *self, e@, u, cls@[u] as int);
                }
            }
            cls.push(c);
            t = t + 1;
        }
        let r = cls[len - 1];
        proof {
            assert(self.contains_expr(e@, e.root(), r as int));
            assert forall|c: int| g0.contains_expr(e@, e.root(), c) implies r as int == c by {
                lemma_contains_monotone(g0, *self, e@, e.root(), c);
                lemma_contains_unique(*self, e@, e.root(), c, r as int);
            }
        }
        r
    }

    /// Repairs the invariants after a batch of merges: repeatedly
    /// re-canonicalizes every stored e-node, merging classes whose e-nodes
    /// collide, until a whole pass changes nothing. Afterwards every stored
    /// e-node's children and class id are union-find leaders, stored e-nodes
    /// are pairwise distinct, equivalences have only grown, and every
    /// previously stored e-node still has a congruent stored representative
    /// in an equivalent class.
    #[verifier::rlimit(100)]
    #[verifier::spinoff_prover]
    pub fn rebuild(&mut self)
        requires
            old(self).wf(),
        ensures
            final(self).wf(),
            final(self).canonical(),
            final(self).n() == old(self).n(),
            forall|i: int, j: int|
                0 <= i < old(self).n() && 0 <= j < old(self).n() && old(self).same_class(i, j)
                    ==> final(self).same_class(i, j),
            forall|k: int|
                0 <= k < old(self).m() ==> final(self).has_congruent_entry(
                    old(self).entry_node(k),
                    old(self).entry_class(k),
                ),
    {
        let ghost n0 = old(self).n();
        let mut go = true;
        while go
            invariant
                self.wf(),
                self.n() == n0,
                old(self).wf(),
                old(self).n() == n0,
                forall|i: int, j: int|
                    0 <= i < n0 && 0 <= j < n0 && old(self).uf.same(i, j) ==> self.uf.same(i, j),
                forall|k: int|
                    0 <= k < old(self).m() ==> self.has_congruent_entry(
                        old(self).entry_node(k),
                        old(self).entry_class(k),
                    ),
                !go ==> self.canonical(),
            decreases self.uf.num_roots() + if go {
                1nat
            } else {
                0nat
            },
        {
            let ghost pre = *self;
            let mut changed = false;
            let mut new_memo: Vec<(Node, usize)> = Vec::new();
            let m = self.memo.len();
            let mut k: usize = 0;
            while k < m
                invariant
                    pre.wf(),
                    pre.n() == n0,
                    m == pre.m(),
                    self.memo == pre.memo,
                    self.uf.wf(),
                    self.uf.n() == n0,
                    k <= m,
                    forall|i: int, j: int|
                        0 <= i < n0 && 0 <= j < n0 && pre.uf.same(i, j) ==> self.uf.same(i, j),
                    changed ==> self.uf.num_roots() < pre.uf.num_roots(),
                    !changed ==> self.uf == pre.uf,
                    entries_ok(n0, new_memo@),
                    entries_distinct(new_memo@),
                    forall|t: int|
                        0 <= t < k ==> memo_has_congruent(
                            self.uf,
                            new_memo@,
                            pre.entry_node(t),
                            pre.entry_class(t),
                        ),
                    !changed ==> entries_canonical(self.uf, new_memo@),
                decreases m - k,
            {
                let ghost uf_at = self.uf;
                let ghost nm_at = new_memo@;
                proof {
                    assert(pre.entry_class(k as int) < n0);
                    assert(pre.node_ok(pre.entry_node(k as int)));
                }
                let cn = canon_with(&self.uf, &self.memo[k].0);
                let ghost cnv = cn@;
                proof {
                    assert forall|j: int| 0 <= j < cnv.children.len() implies (
                    #[trigger] cnv.children[j] as int) < n0 && self.uf.lead_of(
                        cnv.children[j] as int,
                    ) == cnv.children[j] as int && self.uf.same(
                        cnv.children[j] as int,
                        pre.entry_node(k as int).children[j] as int,
                    ) by {
                        let c0 = pre.entry_node(k as int).children[j] as int;
                        assert(c0 < n0);
                        assert(cnv.children[j] as int == self.uf.lead_of(c0));
                        assert(0 <= self.uf.lead_of(c0) < n0);
                        assert(self.uf.lead_of(self.uf.lead_of(c0)) == self.uf.lead_of(c0));
                    }
                    assert(congruent_uf(self.uf, cnv, pre.entry_node(k as int)));
                }
                let c = self.memo[k].1;
                let cc = self.uf.find(c);
                proof {
                    assert(0 <= self.uf.lead_of(c as int) < n0);
                    assert(self.uf.lead_of(self.uf.lead_of(c as int)) == self.uf.lead_of(c as int));
                    assert(self.uf.same(cc as int, pre.entry_class(k as int)));
                }
                match find_node(&new_memo, &cn) {
                    None => {
                        new_memo.push((cn, cc));
                        proof {
                            assert(new_memo@ =~= nm_at.push((cn, cc)));
                            assert forall|t: int|
                                0 <= t < new_memo@.len() implies (#[trigger] new_memo@[t].1 as int)
                                < n0 && node_ok_n(n0, new_memo@[t].0@) by {
                                if t < nm_at.len() {
                                    assert((nm_at[t].1 as int) < n0);
                                    assert(node_ok_n(n0, nm_at[t].0@));
                                } else {
                                    assert(new_memo@[t].0@ == cnv);
                                    assert(arity_ok(cnv.op, cnv.children.len() as int));
                                }
                            }
                            assert forall|t: int, l: int|
                                0 <= t < l < new_memo@.len() implies (#[trigger] new_memo@[t].0)@
                                != (#[trigger] new_memo@[l].0)@ by {
                                if l < nm_at.len() {
                                    assert(nm_at[t].0@ != nm_at[l].0@);
                                } else {
                                    assert(nm_at[t].0@ != cnv);
                                }
                            }
                            assert forall|t: int|
                                0 <= t < k + 1 implies memo_has_congruent(
                                self.uf,
                                new_memo@,
                                pre.entry_node(t),
                                pre.entry_class(t),
                            ) by {
                                if t < k as int {
                                    let w = choose|w: int|
                                        0 <= w < nm_at.len() && congruent_uf(
                                            self.uf,
                                            nm_at[w].0@,
                                            pre.entry_node(t),
                                        ) && self.uf.same(nm_at[w].1 as int, pre.entry_class(t));
                                    assert(new_memo@[w] == nm_at[w]);
                                } else {
                                    let w = nm_at.len() as int;
                                    assert(congruent_uf(
                                        self.uf,
                                        new_memo@[w].0@,
                                        pre.entry_node(t),
                                    ));
                                    assert(self.uf.same(new_memo@[w].1 as int, pre.entry_class(t)));
                                }
                            }
                            if !changed {
                                assert forall|t: int|
                                    0 <= t < new_memo@.len() implies #[trigger] entry_canonical_uf(
                                    self.uf,
                                    new_memo@[t],
                                ) by {
                                    if t < nm_at.len() {
                                        assert(entry_canonical_uf(self.uf, nm_at[t]));
                                    } else {
                                        assert(new_memo@[t].0@ == cnv);
                                        assert(new_memo@[t].1 == cc);
                                    }
                                }
                            }
                        }
                    },
                    Some(t) => {
                        proof {
                            assert((new_memo@[t as int].1 as int) < n0);
                        }
                        let c2 = new_memo[t].1;
                        let mr = self.uf.merge(c2, cc);
                        if mr.1 {
                            changed = true;
                        }
                        proof {
                            assert forall|i: int, j: int|
                                0 <= i < n0 && 0 <= j < n0 && pre.uf.same(i, j) implies self.uf
                                .same(i, j) by {
                                assert(uf_at.same(i, j));
                            }
                            assert forall|tt: int|
                                0 <= tt < k + 1 implies memo_has_congruent(
                                self.uf,
                                new_memo@,
                                pre.entry_node(tt),
                                pre.entry_class(tt),
                            ) by {
                                if tt < k as int {
                                    let w = choose|w: int|
                                        0 <= w < new_memo@.len() && congruent_uf(
                                            uf_at,
                                            new_memo@[w].0@,
                                            pre.entry_node(tt),
                                        ) && uf_at.same(new_memo@[w].1 as int, pre.entry_class(tt));
                                    assert(node_ok_n(n0, new_memo@[w].0@));
                                    assert(pre.node_ok(pre.entry_node(tt)));
                                    lemma_congruent_coarsen(
                                        uf_at,
                                        self.uf,
                                        n0,
                                        new_memo@[w].0@,
                                        pre.entry_node(tt),
                                    );
                                    assert(self.uf.same(new_memo@[w].1 as int, pre.entry_class(tt)));
                                } else {
                                    let w = t as int;
                                    assert(new_memo@[w].0@ == cnv);
                                    lemma_congruent_coarsen(
                                        uf_at,
                                        self.uf,
                                        n0,
                                        cnv,
                                        pre.entry_node(k as int),
                                    );
                                    assert(self.uf.same(c2 as int, cc as int));
                                    assert(self.uf.same(cc as int, pre.entry_class(k as int)));
                                    assert(self.uf.same(
                                        new_memo@[w].1 as int,
                                        pre.entry_class(k as int),
                                    ));
                                }
                            }
                        }
                    },
                }
                k = k + 1;
            }
            self.memo = new_memo;
            go = changed;
            proof {
                assert forall|i: int| 0 <= i < self.n() implies #[trigger] self.class_has_node(
                    i,
                ) by {
                    assert(pre.class_has_node(i));
                    let w = choose|w: int|
                        0 <= w < pre.m() && pre.same_class(pre.entry_class(w), i);
                    assert(pre.entry_class(w) < n0);
                    assert(self.uf.same(pre.entry_class(w), i));
                    assert(memo_has_congruent(
                        self.uf,
                        self.memo@,
                        pre.entry_node(w),
                        pre.entry_class(w),
                    ));
                    let v = choose|v: int|
                        0 <= v < self.memo@.len() && congruent_uf(
                            self.uf,
                            self.memo@[v].0@,
                            pre.entry_node(w),
                        ) && self.uf.same(self.memo@[v].1 as int, pre.entry_class(w));
                    assert(self.uf.same(self.entry_class(v), i));
                }
                assert forall|kk: int| 0 <= kk < old(self).m() implies self.has_congruent_entry(
                    old(self).entry_node(kk),
                    old(self).entry_class(kk),
                ) by {
                    assert(memo_has_congruent(
                        pre.uf,
                        pre.memo@,
                        old(self).entry_node(kk),
                        old(self).entry_class(kk),
                    ));
                    let w = choose|w: int|
                        0 <= w < pre.m() && congruent_uf(
                            pre.uf,
                            pre.memo@[w].0@,
                            old(self).entry_node(kk),
                        ) && pre.uf.same(pre.memo@[w].1 as int, old(self).entry_class(kk));
                    assert(pre.node_ok(pre.entry_node(w)));
                    assert(old(self).node_ok(old(self).entry_node(kk)));
                    lemma_congruent_coarsen(
                        pre.uf,
                        self.uf,
                        n0,
                        pre.memo@[w].0@,
                        old(self).entry_node(kk),
                    );
                    assert(memo_has_congruent(
                        self.uf,
                        self.memo@,
                        pre.entry_node(w),
                        pre.entry_class(w),
                    ));
                    let v = choose|v: int|
                        0 <= v < self.memo@.len() && congruent_uf(
                            self.uf,
                            self.memo@[v].0@,
                            pre.entry_node(w),
                        ) && self.uf.same(self.memo@[v].1 as int, pre.entry_class(w));
                    assert(node_ok_n(n0, self.memo@[v].0@));
                    lemma_congruent_trans(
                        self.uf,
                        self.memo@[v].0@,
                        pre.entry_node(w),
                        old(self).entry_node(kk),
                    );
                    assert(self.uf.same(self.memo@[v].1 as int, old(self).entry_class(kk)));
                }
            }
        }
    }
}

/// Congruence closure, and hash-cons uniqueness, after `rebuild`: in a
/// canonical graph, two stored e-nodes with the same operator and pointwise
/// equivalent children are the same entry, so no two distinct classes
/// contain structurally identical e-nodes.
pub proof fn lemma_congruence_closure(g: BooleanEGraph, k: int, l: int)
    requires
        g.wf(),
        g.canonical(),
        0 <= k < g.m(),
        0 <= l < g.m(),
        g.congruent_nodes(g.entry_node(k), g.entry_node(l)),
    ensures
        k == l,
        g.same_class(g.entry_class(k), g.entry_class(l)),
{
    assert(entry_canonical_uf(g.uf, g.memo@[k]));
    assert(entry_canonical_uf(g.uf, g.memo@[l]));
    let x = g.entry_node(k);
    let y = g.entry_node(l);
    assert forall|j: int| 0 <= j < x.children.len() implies #[trigger] x.children[j]
        == y.children[j] by {
        assert(g.uf.same(x.children[j] as int, y.children[j] as int));
        assert(g.uf.lead_of(x.children[j] as int) == x.children[j] as int);
        assert(g.uf.lead_of(y.children[j] as int) == y.children[j] as int);
    }
    assert(x.children =~= y.children);
    assert(x == y);
    if k != l {
        assert(g.entry_node(k) != g.entry_node(l));
        assert(false);
    }
}

/// A represented term stays represented across an engine step that only
/// grows equivalences and keeps a congruent copy of every stored e-node —
/// exactly what `rebuild` (and any run of merges, adds and rebuilds)
/// guarantees. The representing class is the old one's leader.
pub proof fn lemma_contains_congruent(
    g1: BooleanEGraph,
    g2: BooleanEGraph,
    s: Seq<NodeV>,
    i: int,
    c: int,
)
    requires
        g1.wf(),
        g2.wf(),
        g2.canonical(),
        g1.n() <= g2.n(),
        forall|x: int, y: int|
            0 <= x < g1.n() && 0 <= y < g1.n() && g1.same_class(x, y) ==> g2.same_class(x, y),
        forall|k: int|
            0 <= k < g1.m() ==> g2.has_congruent_entry(
                g1.entry_node(k),
                #[trigger] g1.entry_class(k),
            ),
        g1.contains_expr(s, i, c),
    ensures
        0 <= c < g1.n(),
        g2.contains_expr(s, i, g2.uf.lead_of(c)),
    decreases i,
{
    let k1 = choose|k: int|
        #![trigger g1.entry_node(k)]
        {
            &&& 0 <= k < g1.m()
            &&& g1.entry_node(k).op == s[i].op
            &&& g1.entry_node(k).children.len() == s[i].children.len()
            &&& c == g1.uf.lead_of(g1.entry_class(k))
            &&& forall|j: int|
                #![trigger s[i].children[j]]
                0 <= j < s[i].children.len() ==> (s[i].children[j] as int) < i && g1.contains_expr(
                    s,
                    s[i].children[j] as int,
                    g1.entry_node(k).children[j] as int,
                )
        };
    assert(0 <= g1.entry_class(k1) < g1.n());
    assert(0 <= c < g1.n());
    assert(g2.has_congruent_entry(g1.entry_node(k1), g1.entry_class(k1)));
    assert(memo_has_congruent(g2.uf, g2.memo@, g1.entry_node(k1), g1.entry_class(k1)));
    let k2 = choose|k: int|
        0 <= k < g2.memo@.len() && congruent_uf(g2.uf, g2.memo@[k].0@, g1.entry_node(k1))
            && g2.uf.same(g2.memo@[k].1 as int, g1.entry_class(k1));
    assert(congruent_uf(g2.uf, g2.entry_node(k2), g1.entry_node(k1)));
    assert(g2.uf.same(g2.entry_class(k2), g1.entry_class(k1)));
    assert(entry_canonical_uf(g2.uf, g2.memo@[k2]));
    assert(g1.node_ok(g1.entry_node(k1)));
    assert(g2.node_ok(g2.entry_node(k2)));
    // the new entry's class leads to the same place as the old leader
    assert(g1.same_class(c, g1.entry_class(k1)));
    assert(g2.same_class(c, g1.entry_class(k1)));
    assert(g2.uf.lead_of(c) == g2.uf.lead_of(g2.entry_class(k2)));
    assert forall|j: int|
        #![trigger s[i].children[j]]
        0 <= j < s[i].children.len() implies (s[i].children[j] as int) < i && g2.contains_expr(
        s,
        s[i].children[j] as int,
        g2.entry_node(k2).children[j] as int,
    ) by {
        assert(g1.contains_expr(s, s[i].children[j] as int, g1.entry_node(k1).children[j] as int));
        lemma_contains_congruent(
            g1,
            g2,
            s,
            s[i].children[j] as int,
            g1.entry_node(k1).children[j] as int,
        );
        // the congruent entry's child is canonical, so it is that leader
        assert(g2.uf.same(
            g2.entry_node(k2).children[j] as int,
            g1.entry_node(k1).children[j] as int,
        ));
        assert(g2.uf.lead_of(g2.entry_node(k2).children[j] as int) == g2.entry_node(
            k2,
        ).children[j] as int);
        assert(g2.entry_node(k2).children[j] as int == g2.uf.lead_of(
            g1.entry_node(k1).children[j] as int,
        ));
    }
    assert(g2.contains_expr(s, i, g2.uf.lead_of(c)));
}

/// A represented term's class id is one the graph has assigned.
pub proof fn lemma_contains_range(g: BooleanEGraph, s: Seq<NodeV>, i: int, c: int)
    requires
        g.wf(),
        g.contains_expr(s, i, c),
    ensures
        0 <= c < g.n(),
{
    let k1 = choose|k: int|
        #![trigger g.entry_node(k)]
        {
            &&& 0 <= k < g.m()
            &&& g.entry_node(k).op == s[i].op
            &&& g.entry_node(k).children.len() == s[i].children.len()
            &&& c == g.uf.lead_of(g.entry_class(k))
            &&& forall|j: int|
                #![trigger s[i].children[j]]
                0 <= j < s[i].children.len() ==> (s[i].children[j] as int) < i && g.contains_expr(
                    s,
                    s[i].children[j] as int,
                    g.entry_node(k).children[j] as int,
                )
        };
    assert(0 <= g.entry_class(k1) < g.n());
}

/// Canonicalizing an already-canonical node changes nothing.
pub proof fn lemma_canon_identity(uf: UnionFind, nd: NodeV)
    requires
        node_canonical_uf(uf, nd),
        forall|j: int| 0 <= j < nd.children.len() ==> 0 <= (#[trigger] nd.children[j] as int) < uf.n(),
    ensures
        canon_node_spec(uf, nd) == nd,
{
    assert(canon_node_spec(uf, nd).children =~= nd.children);
}

/// A term is represented by at most one class: representation is functional.
pub proof fn lemma_contains_unique(g: BooleanEGraph, s: Seq<NodeV>, i: int, c1: int, c2: int)
    requires
        g.no_dups(),
        g.contains_expr(s, i, c1),
        g.contains_expr(s, i, c2),
    ensures
        c1 == c2,
    decreases i,
{
    let k1 = choose|k: int|
        #![trigger g.entry_node(k)]
        {
            &&& 0 <= k < g.m()
            &&& g.entry_node(k).op == s[i].op
            &&& g.entry_node(k).children.len() == s[i].children.len()
            &&& c1 == g.uf.lead_of(g.entry_class(k))
            &&& forall|j: int|
                #![trigger s[i].children[j]]
                0 <= j < s[i].children.len() ==> (s[i].children[j] as int) < i && g.contains_expr(
                    s,
                    s[i].children[j] as int,
                    g.entry_node(k).children[j] as int,
                )
        };
    let k2 = choose|k: int|
        #![trigger g.entry_node(k)]
        {
            &&& 0 <= k < g.m()
            &&& g.entry_node(k).op == s[i].op
            &&& g.entry_node(k).children.len() == s[i].children.len()
            &&& c2 == g.uf.lead_of(g.entry_class(k))
            &&& forall|j: int|
                #![trigger s[i].children[j]]
                0 <= j < s[i].children.len() ==> (s[i].children[j] as int) < i && g.contains_expr(
                    s,
                    s[i].children[j] as int,
                    g.entry_node(k).children[j] as int,
                )
        };
    assert forall|j: int|
        0 <= j < s[i].children.len() implies #[trigger] g.entry_node(k1).children[j] == g.entry_node(
        k2,
    ).children[j] by {
        assert((s[i].children[j] as int) < i);
        lemma_contains_unique(
            g,
            s,
            s[i].children[j] as int,
            g.entry_node(k1).children[j] as int,
            g.entry_node(k2).children[j] as int,
        );
    }
    assert(g.entry_node(k1).children =~= g.entry_node(k2).children);
    assert(g.entry_node(k1) == g.entry_node(k2));
    if k1 != k2 {
        assert(false);
    }
}

/// Representation survives growing the graph by `add`: entries persist and
/// leaders of existing ids do not move.
pub proof fn lemma_contains_monotone(g1: BooleanEGraph, g2: BooleanEGraph, s: Seq<NodeV>, i: int, c: int)
    requires
        g1.memo_wf(),
        g1.memo@.is_prefix_of(g2.memo@),
        g1.uf.leader@.is_prefix_of(g2.uf.leader@),
        g1.contains_expr(s, i, c),
    ensures
        g2.contains_expr(s, i, c),
    decreases i,
{
    let k1 = choose|k: int|
        #![trigger g1.entry_node(k)]
        {
            &&& 0 <= k < g1.m()
            &&& g1.entry_node(k).op == s[i].op
            &&& g1.entry_node(k).children.len() == s[i].children.len()
            &&& c == g1.uf.lead_of(g1.entry_class(k))
            &&& forall|j: int|
                #![trigger s[i].children[j]]
                0 <= j < s[i].children.len() ==> (s[i].children[j] as int) < i && g1.contains_expr(
                    s,
                    s[i].children[j] as int,
                    g1.entry_node(k).children[j] as int,
                )
        };
    assert(g2.memo@[k1] == g1.memo@[k1]);
    assert(g2.entry_node(k1) == g1.entry_node(k1));
    assert(0 <= g1.entry_class(k1) < g1.n());
    assert(g2.uf.leader@[g1.entry_class(k1)] == g1.uf.leader@[g1.entry_class(k1)]);
    assert(c == g2.uf.lead_of(g2.entry_class(k1)));
    assert forall|j: int|
        #![trigger s[i].children[j]]
        0 <= j < s[i].children.len() implies (s[i].children[j] as int) < i && g2.contains_expr(
        s,
        s[i].children[j] as int,
        g2.entry_node(k1).children[j] as int,
    ) by {
        lemma_contains_monotone(
            g1,
            g2,
            s,
            s[i].children[j] as int,
            g1.entry_node(k1).children[j] as int,
        );
    }
}

} // verus!
