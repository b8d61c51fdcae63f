//! A hypergraph of qubits: nodes are qubit indices and each edge is a group
//! of qubits that a gate may act on together.

use vstd::prelude::*;

use crate::bits::BIT_INDEX_LIMIT;

verus! {

/// The index of a hyperedge.
#[derive(Debug, Clone, Copy, PartialEq, Eq, PartialOrd, Ord, Hash, Structural)]
pub struct HyperEdgeIndex(pub usize);

/// A node: the list of edges it belongs to.
#[derive(Debug)]
pub struct HyperNode {
    pub edges: Vec<HyperEdgeIndex>,
}

/// An edge: the list of nodes it holds.
#[derive(Debug)]
pub struct HyperEdge {
    pub nodes: Vec<usize>,
}

/// An edge referenced a node that does not exist.
#[derive(Debug)]
pub struct IndexOutOfBoundsError;

/// A hypergraph over qubit indices.
#[derive(Debug)]
pub struct HyperGraph {
    pub nodes: Vec<HyperNode>,
    pub edges: Vec<HyperEdge>,
}

/// How many of the first `k` flags are set.
pub open spec fn count_trues(s: Seq<bool>, k: int) -> nat
    decreases k,
{
    if k <= 0 {
        0
    } else {
        count_trues(s, k - 1) + (if s[k - 1] {
            1nat
        } else {
            0nat
        })
    }
}

/// Setting one clear flag raises the count by exactly one.
proof fn lemma_count_trues_set(s: Seq<bool>, s2: Seq<bool>, i: int, k: int)
    requires
        0 <= i < s.len(),
        k <= s.len(),
        s2 == s.update(i, true),
        !s[i],
    ensures
        count_trues(s2, k) == count_trues(s, k) + (if i < k {
            1int
        } else {
            0int
        }),
    decreases k,
{
    if k > 0 {
        lemma_count_trues_set(s, s2, i, k - 1);
    }
}

/// The count of set flags never exceeds the range counted.
proof fn lemma_count_trues_le(s: Seq<bool>, k: int)
    requires
        0 <= k,
    ensures
        count_trues(s, k) <= k,
    decreases k,
{
    if k > 0 {
        lemma_count_trues_le(s, k - 1);
    }
}

/// A set flag below the range forces a positive count.
proof fn lemma_count_trues_pos(s: Seq<bool>, i: int, k: int)
    requires
        0 <= i < k,
        s[i],
    ensures
        count_trues(s, k) >= 1,
    decreases k,
{
    if i < k - 1 {
        lemma_count_trues_pos(s, i, k - 1);
    }
}

/// A clear flag below the range keeps the count below the range.
proof fn lemma_count_trues_missing(s: Seq<bool>, i: int, k: int)
    requires
        0 <= i < k,
        !s[i],
    ensures
        count_trues(s, k) < k,
    decreases k,
{
    if i == k - 1 {
        lemma_count_trues_le(s, k - 1);
    } else {
        lemma_count_trues_missing(s, i, k - 1);
    }
}

/// A run of flags with only the first one set counts to one.
proof fn lemma_count_trues_single(s: Seq<bool>, k: int)
    requires
        0 < k <= s.len(),
        s[0],
        forall|j: int| 1 <= j < k ==> !s[j],
    ensures
        count_trues(s, k) == 1,
    decreases k,
{
    if k > 1 {
        lemma_count_trues_single(s, k - 1);
    } else {
        assert(count_trues(s, 0) == 0);
    }
}

/// Whether the incidence list holds the edge index `e`.
pub open spec fn incidence_has(s: Seq<HyperEdgeIndex>, e: int) -> bool {
    exists|m: int| 0 <= m < s.len() && (#[trigger] s[m]).0 == e
}

/// The list `b` begins with `a` and every later entry is `x`.
pub open spec fn extended_with(a: Seq<HyperEdgeIndex>, b: Seq<HyperEdgeIndex>, x: HyperEdgeIndex) -> bool {
    &&& a.len() <= b.len()
    &&& forall|i: int| 0 <= i < a.len() ==> #[trigger] b[i] == a[i]
    &&& forall|i: int| a.len() <= i < b.len() ==> #[trigger] b[i] == x
}

impl HyperGraph {
    /// Every edge holds only nodes of the graph, every node lists only edges
    /// of the graph, and an edge stands in the incidence list of each of its
    /// nodes.
    pub open spec fn wf(&self) -> bool {
        &&& self.nodes.len() <= BIT_INDEX_LIMIT
        &&& forall|e: int, k: int|
            0 <= e < self.edges.len() && 0 <= k < self.edges[e].nodes.len()
                ==> (#[trigger] self.edges[e].nodes[k]) < self.nodes.len()
        &&& forall|q: int, k: int|
            0 <= q < self.nodes.len() && 0 <= k < self.nodes[q].edges.len()
                ==> (#[trigger] self.nodes[q].edges[k]).0 < self.edges.len()
        &&& forall|e: int, k: int|
            0 <= e < self.edges.len() && 0 <= k < self.edges[e].nodes.len() ==> incidence_has(
                self.nodes[(#[trigger] self.edges[e].nodes[k]) as int].edges@,
                e,
            )
        &&& forall|q: int, k: int|
            0 <= q < self.nodes.len() && 0 <= k < self.nodes[q].edges.len()
                ==> self.edges[(#[trigger] self.nodes[q].edges[k]).0 as int].nodes@.contains(
                q as usize,
            )
    }

    pub open spec fn node_count(&self) -> int {
        self.nodes.len() as int
    }

    pub open spec fn edge_count(&self) -> int {
        self.edges.len() as int
    }

    pub fn new() -> (r: Self)
        ensures
            r.wf(),
            r.node_count() == 0,
            r.edge_count() == 0,
    {
        HyperGraph { nodes: Vec::new(), edges: Vec::new() }
    }

    /// Adds a node and returns its index.
    pub fn add_node(&mut self) -> (r: usize)
        requires
            old(self).wf(),
            old(self).node_count() < BIT_INDEX_LIMIT,
        ensures
            final(self).wf(),
            r == old(self).node_count(),
            final(self).node_count() == old(self).node_count() + 1,
            final(self).edge_count() == old(self).edge_count(),
    {
        let index = self.nodes.len();
        let mut nodes: Vec<HyperNode> = Vec::new();
        core::mem::swap(&mut self.nodes, &mut nodes);
        nodes.push(HyperNode { edges: Vec::new() });
        core::mem::swap(&mut self.nodes, &mut nodes);
        proof {
            assert(forall|q: int|
                0 <= q < old(self).nodes.len() ==> #[trigger] self.nodes[q] == old(
                    self,
                ).nodes[q]);
            assert(self.nodes[index as int].edges@.len() == 0);
            assert forall|e: int, k: int|
                0 <= e < self.edges.len() && 0 <= k < self.edges[e].nodes.len()
                implies incidence_has(
                self.nodes[(#[trigger] self.edges[e].nodes[k]) as int].edges@,
                e,
            ) by {
                let t = self.edges[e].nodes[k] as int;
                assert(t < old(self).nodes.len());
                assert(self.nodes[t] == old(self).nodes[t]);
                assert(incidence_has(old(self).nodes[t].edges@, e));
            }
            assert forall|q: int, k: int|
                0 <= q < self.nodes.len() && 0 <= k < self.nodes[q].edges.len()
                implies (#[trigger] self.nodes[q].edges[k]).0 < self.edges.len()
                && self.edges[self.nodes[q].edges[k].0 as int].nodes@.contains(q as usize) by {
                assert(q < old(self).nodes.len());
                assert(self.nodes[q] == old(self).nodes[q]);
            }
        }
        index
    }

    /// Adds an edge over the given nodes; fails when a node is out of range
    /// or the edge store is full, leaving the graph unchanged.
    #[verifier::loop_isolation(false)]
    pub fn add_edge(&mut self, nodes: Vec<usize>) -> (r: Result<
        HyperEdgeIndex,
        IndexOutOfBoundsError,
    >)
        requires
            old(self).wf(),
        ensures
            final(self).wf(),
            final(self).node_count() == old(self).node_count(),
            r is Err <==> ((exists|k: int|
                0 <= k < nodes.len() && (#[trigger] nodes[k]) >= old(self).node_count()) || old(
                self,
            ).edge_count() >= BIT_INDEX_LIMIT),
            match r {
                Ok(e) => {
                    &&& e.0 == old(self).edge_count()
                    &&& final(self).edge_count() == old(self).edge_count() + 1
                    &&& final(self).edges[e.0 as int].nodes == nodes
                    &&& final(self).edges@.subrange(0, old(self).edges@.len() as int) == old(
                        self,
                    ).edges@
                    &&& forall|k: int|
                        0 <= k < nodes.len() ==> (#[trigger] nodes[k]) < old(self).node_count()
                },
                Err(_) => final(self).edge_count() == old(self).edge_count(),
            },
    {
        let index = HyperEdgeIndex(self.edges.len());
        let mut k: usize = 0;
        while k < nodes.len()
            invariant
                *self == *old(self),
                old(self).wf(),
                forall|j: int| 0 <= j < k ==> (#[trigger] nodes[j]) < self.nodes.len(),
            decreases nodes.len() - k,
        {
            if nodes[k] >= self.nodes.len() {
                proof {
                    assert(nodes[k as int] >= old(self).node_count());
                }
                return Err(IndexOutOfBoundsError);
            }
            k += 1;
        }
        if self.edges.len() >= BIT_INDEX_LIMIT {
            return Err(IndexOutOfBoundsError);
        }
        let ghost orig = *self;
        let mut own_nodes: Vec<HyperNode> = Vec::new();
        core::mem::swap(&mut self.nodes, &mut own_nodes);
        let mut k: usize = 0;
        while k < nodes.len()
            invariant
                own_nodes.len() == orig.nodes.len(),
                forall|j: int| 0 <= j < nodes.len() ==> (#[trigger] nodes[j]) < orig.nodes.len(),
                index.0 == orig.edges.len(),
                forall|q: int, j: int|
                    0 <= q < own_nodes.len() && 0 <= j < own_nodes[q].edges.len()
                        ==> (#[trigger] own_nodes[q].edges[j]).0 <= orig.edges.len(),
                forall|e: int, j: int|
                    0 <= e < orig.edges.len() && 0 <= j < orig.edges[e].nodes.len()
                        ==> incidence_has(
                        own_nodes[(#[trigger] orig.edges[e].nodes[j]) as int].edges@,
                        e,
                    ),
                forall|j: int|
                    0 <= j < k ==> incidence_has(
                        own_nodes[(#[trigger] nodes[j]) as int].edges@,
                        index.0 as int,
                    ),
                forall|qq: int, kk: int|
                    0 <= qq < own_nodes.len() && 0 <= kk < own_nodes[qq].edges.len()
                        && (#[trigger] own_nodes[qq].edges[kk]).0 == index.0 ==> exists|mm: int|
                        0 <= mm < nodes.len() && nodes[mm] == qq,
                forall|qq: int|
                    0 <= qq < own_nodes.len() ==> extended_with(
                        orig.nodes[qq].edges@,
                        (#[trigger] own_nodes[qq].edges)@,
                        index,
                    ),
            decreases nodes.len() - k,
        {
            let q = nodes[k];
            let ghost pre_nodes = own_nodes@;
            let mut node = HyperNode { edges: Vec::new() };
            core::mem::swap(&mut own_nodes[q], &mut node);
            proof {
                assert(node == pre_nodes[q as int]);
            }
            let ghost pre_list = node.edges@;
            node.edges.push(index);
            core::mem::swap(&mut own_nodes[q], &mut node);
            proof {
                assert(own_nodes@[q as int].edges@ == pre_list.push(index));
                assert forall|qq: int, e: int|
                    0 <= qq < own_nodes.len() && #[trigger] incidence_has(pre_nodes[qq].edges@, e)
                    implies incidence_has(own_nodes@[qq].edges@, e) by {
                    let m = choose|m: int|
                        0 <= m < pre_nodes[qq].edges@.len()
                            && (#[trigger] pre_nodes[qq].edges@[m]).0 == e;
                    if qq == q as int {
                        assert(own_nodes@[qq].edges@[m].0 == e);
                    } else {
                        assert(own_nodes@[qq] == pre_nodes[qq]);
                    }
                }
                assert(incidence_has(
                    own_nodes@[q as int].edges@,
                    index.0 as int,
                )) by {
                    assert(own_nodes@[q as int].edges@.last() == index);
                }
                assert forall|qq: int, kk: int|
                    0 <= qq < own_nodes.len() && 0 <= kk < own_nodes[qq].edges.len()
                        && (#[trigger] own_nodes[qq].edges[kk]).0 == index.0 implies exists|
                    mm: int,
                |
                    0 <= mm < nodes.len() && nodes[mm] == qq by {
                    if qq == q as int {
                        assert(own_nodes@[qq].edges@ == pre_list.push(index));
                        assert(pre_list == pre_nodes[qq].edges@);
                        if kk == pre_list.len() {
                            assert(nodes[k as int] == qq);
                        } else {
                            assert(own_nodes@[qq].edges@[kk] == pre_nodes[qq].edges@[kk]);
                            assert(pre_nodes[qq].edges[kk].0 == index.0);
                        }
                    } else {
                        assert(own_nodes@[qq] == pre_nodes[qq]);
                        assert(pre_nodes[qq].edges[kk].0 == index.0);
                    }
                }
                assert forall|qq: int|
                    0 <= qq < own_nodes.len() implies extended_with(
                    orig.nodes[qq].edges@,
                    (#[trigger] own_nodes[qq].edges)@,
                    index,
                ) by {
                    assert(extended_with(orig.nodes[qq].edges@, pre_nodes[qq].edges@, index));
                    if qq == q as int {
                        assert(own_nodes@[qq].edges@ == pre_list.push(index));
                        assert(pre_list == pre_nodes[qq].edges@);
                        assert forall|i: int|
                            pre_list.len() <= i < pre_list.push(index).len()
                            implies #[trigger] pre_list.push(index)[i] == index by {}
                    } else {
                        assert(own_nodes@[qq] == pre_nodes[qq]);
                    }
                }
            }
            k += 1;
        }
        core::mem::swap(&mut self.nodes, &mut own_nodes);
        let mut edges: Vec<HyperEdge> = Vec::new();
        core::mem::swap(&mut self.edges, &mut edges);
        let ghost epre = edges@;
        edges.push(HyperEdge { nodes });
        core::mem::swap(&mut self.edges, &mut edges);
        proof {
            assert(self.edges@.subrange(0, epre.len() as int) =~= epre);
            assert forall|e: int, k2: int|
                0 <= e < self.edges.len() && 0 <= k2 < self.edges[e].nodes.len()
                implies (#[trigger] self.edges[e].nodes[k2]) < self.nodes.len() by {
                if e < orig.edges.len() {
                    assert(self.edges@[e] == orig.edges@[e]);
                    assert(self.edges[e].nodes[k2] == orig.edges[e].nodes[k2]);
                } else {
                    assert(self.edges@[e].nodes == nodes);
                    assert(self.edges[e].nodes[k2] == nodes[k2]);
                }
            }
            assert forall|e: int, j: int|
                0 <= e < self.edges.len() && 0 <= j < self.edges[e].nodes.len()
                implies incidence_has(
                self.nodes[(#[trigger] self.edges[e].nodes[j]) as int].edges@,
                e,
            ) by {
                if e < orig.edges.len() {
                    assert(self.edges@[e] == orig.edges@[e]);
                    assert(self.edges[e].nodes[j] == orig.edges[e].nodes[j]);
                    assert(incidence_has(
                        self.nodes[orig.edges[e].nodes[j] as int].edges@,
                        e,
                    ));
                } else {
                    assert(self.edges@[e].nodes == nodes);
                    assert(self.edges[e].nodes[j] == nodes[j]);
                    assert(incidence_has(self.nodes[nodes[j] as int].edges@, index.0 as int));
                }
            }
            assert forall|qq: int, kk: int|
                0 <= qq < self.nodes.len() && 0 <= kk < self.nodes[qq].edges.len()
                implies self.edges[(#[trigger] self.nodes[qq].edges[kk]).0 as int].nodes@
                .contains(qq as usize) by {
                let ev = self.nodes[qq].edges[kk].0 as int;
                if ev == index.0 as int {
                    let mm = choose|mm: int| 0 <= mm < nodes.len() && nodes[mm] == qq;
                    assert(self.edges@[ev].nodes == nodes);
                    assert(self.edges[ev].nodes@[mm] == qq as usize);
                } else {
                    assert(ev < orig.edges.len());
                    assert(extended_with(orig.nodes[qq].edges@, self.nodes[qq].edges@, index));
                    assert(kk < orig.nodes[qq].edges.len()) by {
                        if kk >= orig.nodes[qq].edges.len() {
                            // Appended entries all carry the new index.
                            assert(self.nodes[qq].edges@[kk] == index);
                        }
                    }
                    assert(self.nodes[qq].edges@[kk] == orig.nodes[qq].edges[kk]);
                    assert(orig.edges[ev].nodes@.contains(qq as usize));
                    assert(self.edges@[ev] == orig.edges@[ev]);
                }
            }
        }
        Ok(index)
    }

    /// Whether every node can be reached from node zero through shared
    /// edges. Computed as a fixed point of neighbour marking.
    /// The `m2`-th node of the `j`-th incident edge of node `q`.
    pub open spec fn member_of(&self, q: int, j: int, m2: int) -> int {
        self.edges[self.nodes[q].edges[j].0 as int].nodes[m2] as int
    }

    /// Whether the two nodes stand together in some hyperedge.
    pub open spec fn share_edge(&self, a: int, b: int) -> bool {
        exists|e: int, i: int, j: int|
            0 <= e < self.edges.len() && 0 <= i < self.edges[e].nodes.len() && 0 <= j
                < self.edges[e].nodes.len() && (#[trigger] self.edges[e].nodes[i]) == a
                && (#[trigger] self.edges[e].nodes[j]) == b
    }

    /// A walk from node zero: at least one entry, starting at zero, each
    /// entry a node of the graph, consecutive entries sharing an edge, and
    /// ending at `b`.
    pub open spec fn walk_ok(&self, path: Seq<int>, b: int) -> bool {
        &&& path.len() >= 1
        &&& path[0] == 0
        &&& path[path.len() - 1] == b
        &&& forall|i: int| 0 <= i < path.len() ==> 0 <= #[trigger] path[i] < self.nodes.len()
        &&& forall|i: int|
            0 <= i < path.len() - 1 ==> self.share_edge(#[trigger] path[i], path[i + 1])
    }

    /// Whether node `b` can be reached from node zero by a walk of at most
    /// `k` shared-edge steps. As many steps as there are nodes suffice for
    /// any walk, so reachability itself is `reaches` at the node count.
    pub open spec fn reaches(&self, b: int, k: nat) -> bool {
        exists|path: Seq<int>| #[trigger] self.walk_ok(path, b) && path.len() <= k + 1
    }

    /// A node reachable within `k1` steps is reachable within any larger
    /// budget.
    pub proof fn lemma_reaches_mono(&self, b: int, k1: nat, k2: nat)
        requires
            k1 <= k2,
            self.reaches(b, k1),
        ensures
            self.reaches(b, k2),
    {
        let path = choose|path: Seq<int>| #[trigger] self.walk_ok(path, b) && path.len() <= k1 + 1;
        assert(self.walk_ok(path, b) && path.len() <= k2 + 1);
    }

    /// One marking step: a neighbour of a reached node is reached with one
    /// more step of budget.
    proof fn lemma_reaches_step(&self, a: int, b: int, k: nat, k2: nat)
        requires
            0 <= a < self.nodes.len(),
            0 <= b < self.nodes.len(),
            self.reaches(a, k),
            self.share_edge(a, b),
            k2 == k + 1,
        ensures
            self.reaches(b, k2),
    {
        let path = choose|path: Seq<int>| #[trigger] self.walk_ok(path, a) && path.len() <= k + 1;
        let p2 = path.push(b);
        assert(p2[p2.len() - 1] == b);
        assert(p2[0] == path[0]);
        assert forall|i: int| 0 <= i < p2.len() implies 0 <= #[trigger] p2[i]
            < self.nodes.len() by {
            if i < path.len() {
                assert(p2[i] == path[i]);
            }
        }
        assert forall|i: int|
            0 <= i < p2.len() - 1 implies self.share_edge(#[trigger] p2[i], p2[i + 1]) by {
            if i < path.len() - 1 {
                assert(p2[i] == path[i]);
                assert(p2[i + 1] == path[i + 1]);
                assert(self.share_edge(path[i], path[i + 1]));
            } else {
                assert(p2[i] == path[path.len() - 1]);
                assert(p2[i] == a && p2[i + 1] == b);
            }
        }
        assert(self.walk_ok(p2, b));
        assert(p2.len() <= k2 + 1);
    }

    /// A node reached in a positive budget but not in one less came through
    /// a shared edge from a node reached in one less.
    proof fn lemma_reaches_inv(&self, b: int, k: nat)
        requires
            self.reaches(b, k),
            k >= 1,
            !self.reaches(b, (k - 1) as nat),
        ensures
            exists|a: int|
                0 <= a < self.nodes.len() && #[trigger] self.reaches(a, (k - 1) as nat)
                    && self.share_edge(a, b),
    {
        let path = choose|path: Seq<int>| #[trigger] self.walk_ok(path, b) && path.len() <= k + 1;
        if path.len() <= k {
            assert(self.walk_ok(path, b) && path.len() <= (k - 1) as nat + 1);
            assert(self.reaches(b, (k - 1) as nat));
        }
        assert(path.len() == k + 1);
        let a = path[path.len() - 2];
        let pre = path.take(path.len() - 1);
        assert(pre[pre.len() - 1] == path[path.len() - 2]);
        assert(pre[0] == path[0]);
        assert forall|i: int| 0 <= i < pre.len() implies 0 <= #[trigger] pre[i]
            < self.nodes.len() by {
            assert(pre[i] == path[i]);
        }
        assert forall|i: int|
            0 <= i < pre.len() - 1 implies self.share_edge(#[trigger] pre[i], pre[i + 1]) by {
            assert(pre[i] == path[i]);
            assert(pre[i + 1] == path[i + 1]);
            assert(self.share_edge(path[i], path[i + 1]));
        }
        assert(self.walk_ok(pre, a));
        assert(pre.len() <= (k - 1) as nat + 1);
        assert(self.reaches(a, (k - 1) as nat));
        assert(self.share_edge(path[path.len() - 2], path[path.len() - 1]));
        assert(0 <= a < self.nodes.len());
    }

    /// Whether every node is reachable from node zero through shared
    /// edges; an empty graph counts as connected.
    pub open spec fn connected(&self) -> bool {
        self.node_count() == 0 || forall|q: int|
            0 <= q < self.node_count() ==> self.reaches(q, self.nodes.len() as nat)
    }

    /// Whether every node can be reached from node zero through shared
    /// edges: true exactly when each node is reachable within as many steps
    /// as there are nodes. Computed as a fixed point of neighbour marking.
    #[verifier::loop_isolation(false)]
    pub fn fully_connected(&self) -> (r: bool)
        requires
            self.wf(),
        ensures
            r == self.connected(),
    {
        if self.nodes.len() == 0 {
            return true;
        }
        let n = self.nodes.len();
        let mut visited: Vec<bool> = Vec::new();
        let mut k: usize = 0;
        while k < n
            invariant
                visited.len() == k,
                k <= n,
                forall|j: int| 0 <= j < k ==> visited@[j] == (j == 0),
            decreases n - k,
        {
            visited.push(k == 0);
            k += 1;
        }
        let mut marks: usize = 1;
        proof {
            let p0s: Seq<int> = seq![0];
            assert(p0s.len() == 1 && p0s[0] == 0);
            assert(self.walk_ok(p0s, 0));
            assert(self.reaches(0, 0));
            assert(self.reaches(0, 1nat));
            lemma_count_trues_single(visited@, n as int);
        }
        let mut pass: usize = 0;
        while pass < n
            invariant
                visited.len() == n,
                1 <= marks <= n,
                marks as nat == count_trues(visited@, n as int),
                pass <= n,
                forall|b: int| 0 <= b < n && visited@[b] ==> self.reaches(b, marks as nat),
                forall|b: int|
                    0 <= b < n && #[trigger] self.reaches(b, pass as nat) ==> visited@[b],
            decreases n - pass,
        {
            let ghost vstart = visited@;
            let ghost p0 = pass as nat;
            proof {
                assert(forall|b: int|
                    0 <= b < n && #[trigger] self.reaches(b, p0) ==> vstart[b]);
            }
            let mut q: usize = 0;
            while q < n
                invariant
                    visited.len() == n,
                    1 <= marks <= n,
                    marks as nat == count_trues(visited@, n as int),
                    q <= n,
                    forall|j: int| 0 <= j < n && vstart[j] ==> visited@[j],
                    forall|b: int| 0 <= b < n && visited@[b] ==> self.reaches(b, marks as nat),
                    forall|a: int, b: int|
                        0 <= a < q && vstart[a] && 0 <= b < n && #[trigger] self.share_edge(a, b)
                            ==> visited@[b],
                decreases n - q,
            {
                if visited[q] {
                    let node = &self.nodes[q];
                    let mut e: usize = 0;
                    while e < node.edges.len()
                        invariant
                            visited.len() == n,
                            1 <= marks <= n,
                            marks as nat == count_trues(visited@, n as int),
                            q < n,
                            e <= node.edges.len(),
                            node == &self.nodes[q as int],
                            forall|j: int| 0 <= j < n && vstart[j] ==> visited@[j],
                            forall|b: int|
                                0 <= b < n && visited@[b] ==> self.reaches(b, marks as nat),
                            forall|a2: int, b: int|
                                0 <= a2 < q && vstart[a2] && 0 <= b < n && #[trigger]
                                    self.share_edge(a2, b) ==> visited@[b],
                            forall|j: int, m2: int|
                                0 <= j < e && 0 <= m2
                                    < self.edges[node.edges@[j].0 as int].nodes.len()
                                    ==> visited@[#[trigger] self.member_of(q as int, j, m2)],
                            visited@[q as int],
                        decreases node.edges.len() - e,
                    {
                        let edge = &self.edges[node.edges[e].0];
                        let mut m: usize = 0;
                        while m < edge.nodes.len()
                            invariant
                                visited.len() == n,
                                1 <= marks <= n,
                                marks as nat == count_trues(visited@, n as int),
                                q < n,
                                e < node.edges.len(),
                                m <= edge.nodes.len(),
                                node == &self.nodes[q as int],
                                edge == &self.edges[node.edges[e as int].0 as int],
                                forall|j: int| 0 <= j < n && vstart[j] ==> visited@[j],
                                forall|b: int|
                                    0 <= b < n && visited@[b] ==> self.reaches(b, marks as nat),
                                forall|a2: int, b: int|
                                    0 <= a2 < q && vstart[a2] && 0 <= b < n && #[trigger]
                                        self.share_edge(a2, b) ==> visited@[b],
                                forall|j: int, m2: int|
                                    0 <= j < e && 0 <= m2
                                        < self.edges[node.edges@[j].0 as int].nodes.len()
                                        ==> visited@[#[trigger] self.member_of(q as int, j, m2)],
                                forall|m2: int|
                                    0 <= m2 < m ==> visited@[(#[trigger] edge.nodes@[m2]) as int],
                                visited@[q as int],
                            decreases edge.nodes.len() - m,
                        {
                            let t = edge.nodes[m];
                            if !visited[t] {
                                proof {
                                    assert(t < n) by {
                                        assert(self.edges[node.edges@[e as int].0 as int].nodes@[m as int]
                                            == t);
                                    }
                                    // A fresh mark means a clear flag, so the
                                    // count, and with it `marks`, is below `n`.
                                    lemma_count_trues_missing(visited@, t as int, n as int);
                                }
                                let ghost vpre = visited@;
                                let ghost marks_old = marks as nat;
                                proof {
                                    assert(forall|b: int|
                                        0 <= b < n && vpre[b] ==> self.reaches(b, marks_old));
                                }
                                visited.set(t, true);
                                marks += 1;
                                proof {
                                    lemma_count_trues_set(vpre, visited@, t as int, n as int);
                                    let ge = node.edges@[e as int].0 as int;
                                    assert(self.nodes[q as int].edges[e as int] == node.edges@[e as int]);
                                    assert(self.edges[ge].nodes@.contains(q as usize));
                                    let gi = choose|i: int|
                                        0 <= i < self.edges[ge].nodes@.len()
                                            && self.edges[ge].nodes@[i] == q as usize;
                                    assert(self.edges[ge].nodes[gi] == q as int);
                                    assert(self.edges[ge].nodes[m as int] == t as int);
                                    assert(self.share_edge(q as int, t as int));
                                    let mk: nat = (marks_old + 1) as nat;
                                    assert(vpre[q as int]);
                                    assert(self.reaches(q as int, marks_old));
                                    self.lemma_reaches_step(q as int, t as int, marks_old, mk);
                                    assert(self.reaches(t as int, mk));
                                    assert forall|b: int|
                                        0 <= b < n && visited@[b] implies self.reaches(
                                        b,
                                        marks as nat,
                                    ) by {
                                        if b == t as int {
                                            assert(marks as nat == mk);
                                        } else {
                                            assert(vpre[b]);
                                            assert(self.reaches(b, marks_old));
                                            self.lemma_reaches_mono(b, marks_old, marks as nat);
                                        }
                                    }
                                }
                            }
                            m += 1;
                        }
                        proof {
                            assert forall|m2: int|
                                0 <= m2 < self.edges[node.edges@[e as int].0 as int].nodes.len()
                                implies visited@[self.member_of(q as int, e as int, m2)] by {
                                assert(visited@[(edge.nodes@[m2]) as int]);
                                assert(self.member_of(q as int, e as int, m2) == (edge.nodes@[m2])
                                    as int);
                            }
                        }
                        e += 1;
                    }
                    proof {
                        assert forall|b: int|
                            0 <= b < n && #[trigger] self.share_edge(q as int, b)
                            implies visited@[b] by {
                            let (ge2, gi2, gj2) = choose|e2: int, i: int, j: int|
                                0 <= e2 < self.edges.len() && 0 <= i < self.edges[e2].nodes.len()
                                    && 0 <= j < self.edges[e2].nodes.len()
                                    && (#[trigger] self.edges[e2].nodes[i]) == q as int
                                    && (#[trigger] self.edges[e2].nodes[j]) == b;
                            assert(incidence_has(self.nodes[q as int].edges@, ge2)) by {
                                assert(self.edges[ge2].nodes[gi2] == q as int);
                            }
                            let me2 = choose|m2: int|
                                0 <= m2 < self.nodes[q as int].edges@.len()
                                    && (#[trigger] self.nodes[q as int].edges@[m2]).0 == ge2;
                            assert(node.edges@[me2].0 as int == ge2);
                            assert(self.member_of(q as int, me2, gj2) == b);
                            assert(visited@[self.member_of(q as int, me2, gj2)]);
                        }
                    }
                }
                q += 1;
            }
            pass += 1;
            proof {
                assert forall|b: int|
                    0 <= b < n && #[trigger] self.reaches(b, pass as nat)
                    implies visited@[b] by {
                    let kk: nat = pass as nat;
                    assert(kk == p0 + 1);
                    assert((kk - 1) as nat == p0);
                    if self.reaches(b, (kk - 1) as nat) {
                        assert(self.reaches(b, p0));
                        assert(vstart[b]);
                    } else {
                        self.lemma_reaches_inv(b, kk);
                        let a = choose|a: int|
                            0 <= a < self.nodes.len() && #[trigger] self.reaches(
                                a,
                                (kk - 1) as nat,
                            ) && self.share_edge(a, b);
                        assert(self.reaches(a, p0));
                        assert(vstart[a]);
                        assert(self.share_edge(a, b));
                    }
                }
            }
        }
        let mut q: usize = 0;
        let mut all = true;
        while q < n
            invariant
                visited.len() == n,
                q <= n,
                all == (forall|j: int| 0 <= j < q ==> visited@[j]),
            decreases n - q,
        {
            if !visited[q] {
                proof {
                    let ghost wq = q as int;
                    assert(!visited@[wq]);
                }
                all = false;
            }
            q += 1;
        }
        proof {
            if all {
                assert forall|b: int| 0 <= b < n implies self.reaches(b, n as nat) by {
                    assert(visited@[b]);
                    self.lemma_reaches_mono(b, marks as nat, n as nat);
                }
            } else {
                let w = choose|j: int| 0 <= j < n && !visited@[j];
                if self.reaches(w, n as nat) {
                    assert(visited@[w]);
                }
            }
        }
        all
    }


    pub fn get_node(&self, index: usize) -> (r: Option<&HyperNode>)
        ensures
            match r {
                Some(node) => index < self.nodes.len() && node == &self.nodes[index as int],
                None => index >= self.nodes.len(),
            },
    {
        if index < self.nodes.len() {
            Some(&self.nodes[index])
        } else {
            None
        }
    }

    pub fn get_edge(&self, index: HyperEdgeIndex) -> (r: Option<&HyperEdge>)
        ensures
            match r {
                Some(edge) => index.0 < self.edges.len() && edge == &self.edges[index.0 as int],
                None => index.0 >= self.edges.len(),
            },
    {
        if index.0 < self.edges.len() {
            Some(&self.edges[index.0])
        } else {
            None
        }
    }
}

} // verus!
