//! Hardware connectivity: a hypergraph of allowed qubit groups, its
//! bipartite "explosion" into edge nodes and shared-qubit nodes, and the
//! Steiner-tree routing that turns a set of target qubits into an ordered
//! list of routing instructions.

use vstd::prelude::*;

use crate::bits::BIT_INDEX_LIMIT;
use crate::hypergraph::{HyperEdge, HyperEdgeIndex, HyperGraph};
use crate::misc::NonZeroEvenUsize;

verus! {

/// Where a routing instruction must leave the live letters of its edge.
#[derive(Debug)]
pub enum RoutingInstructionTarget {
    Single(usize),
    Multiple(Vec<usize>),
    Any,
}

/// One step of a routing path: an edge's qubits and the target within it.
#[derive(Debug)]
pub struct RoutingInstruction {
    pub qubits: Vec<usize>,
    pub target: RoutingInstructionTarget,
}

/// A node of the explosion graph: the hyperedges it stands for and the
/// qubits it carries.
#[derive(Debug, Clone)]
pub struct ExplosionNode {
    pub hyper_edges: Vec<HyperEdgeIndex>,
    pub hyper_nodes: Vec<usize>,
}

/// The bipartite expansion of a hypergraph: one node per hyperedge, one
/// node per group of qubits with the same incidence set, and an edge
/// between a qubit node and each edge node it belongs to.
#[derive(Debug)]
pub struct Explosion {
    pub nodes: Vec<ExplosionNode>,
    pub edges: Vec<(usize, usize)>,
}

impl Explosion {
    /// Every graph edge joins two existing nodes.
    pub open spec fn wf(&self) -> bool {
        forall|k: int|
            0 <= k < self.edges.len() ==> (#[trigger] self.edges[k]).0 < self.nodes.len()
                && self.edges[k].1 < self.nodes.len()
    }

    pub fn node_count(&self) -> (r: usize)
        ensures
            r == self.nodes.len(),
    {
        self.nodes.len()
    }

    pub fn edge_count(&self) -> (r: usize)
        ensures
            r == self.edges.len(),
    {
        self.edges.len()
    }

    /// Whether the graph holds an edge between the two nodes, in either
    /// orientation.
    pub fn contains_edge(&self, a: usize, b: usize) -> (r: bool)
        ensures
            r == exists|k: int|
                0 <= k < self.edges.len() && ((#[trigger] self.edges[k]).0 == a
                    && self.edges[k].1 == b || self.edges[k].0 == b && self.edges[k].1 == a),
    {
        let mut k: usize = 0;
        while k < self.edges.len()
            invariant
                forall|j: int|
                    0 <= j < k ==> !((#[trigger] self.edges[j]).0 == a && self.edges[j].1 == b)
                        && !(self.edges[j].0 == b && self.edges[j].1 == a),
            decreases self.edges.len() - k,
        {
            let (u, v) = self.edges[k];
            if u == a && v == b || u == b && v == a {
                return true;
            }
            k += 1;
        }
        false
    }

    pub fn get_node(&self, index: usize) -> (r: Option<&ExplosionNode>)
        ensures
            match r {
                Some(node) => index < self.nodes.len() && node == &self.nodes[index as int],
                None => index >= self.nodes.len(),
            },
    {
        if index < self.nodes.len() {
            Some(&self.nodes[index])
        } else {
            None
        }
    }
}

/// Whether two incidence lists hold the same edges in the same order.
fn same_edge_list(a: &Vec<HyperEdgeIndex>, b: &Vec<HyperEdgeIndex>) -> (r: bool)
    ensures
        r == (a@ =~= b@),
{
    if a.len() != b.len() {
        return false;
    }
    let mut k: usize = 0;
    while k < a.len()
        invariant
            a.len() == b.len(),
            k <= a.len(),
            forall|j: int| 0 <= j < k ==> a@[j] == b@[j],
        decreases a.len() - k,
    {
        let HyperEdgeIndex(x) = a[k];
        let HyperEdgeIndex(y) = b[k];
        if x != y {
            return false;
        }
        k += 1;
    }
    proof {
        assert(a@ =~= b@);
    }
    true
}

impl HyperGraph {
    /// Creates a graph where every hyperedge is a node, and these nodes have
    /// edges between them to nodes corresponding to the qubits that are
    /// shared between the hyperedges.
    pub fn explode(&self) -> (r: Explosion)
        requires
            self.wf(),
        ensures
            r.wf(),
    {
        let mut nodes: Vec<ExplosionNode> = Vec::new();
        let mut i: usize = 0;
        let ne = self.edges.len();
        while i < ne
            invariant
                ne == self.edges.len(),
                nodes.len() == i,
                i <= ne,
            decreases ne - i,
        {
            let mut hyper_edges: Vec<HyperEdgeIndex> = Vec::new();
            hyper_edges.push(HyperEdgeIndex(i));
            nodes.push(ExplosionNode { hyper_edges, hyper_nodes: Vec::new() });
            i += 1;
        }
        // Group the qubits by their incidence lists, in first-appearance
        // order.
        let mut groups: Vec<(Vec<HyperEdgeIndex>, Vec<usize>)> = Vec::new();
        let mut q: usize = 0;
        while q < self.nodes.len()
            invariant
                self.wf(),
            decreases self.nodes.len() - q,
        {
            let incidence = &self.nodes[q].edges;
            let mut found = false;
            let mut g: usize = 0;
            while g < groups.len()
                invariant
                    self.wf(),
                    q < self.nodes.len(),
                    incidence == &self.nodes[q as int].edges,
                decreases groups.len() - g,
            {
                if same_edge_list(&groups[g].0, incidence) {
                    let mut entry = (Vec::new(), Vec::new());
                    core::mem::swap(&mut groups[g], &mut entry);
                    entry.1.push(q);
                    core::mem::swap(&mut groups[g], &mut entry);
                    found = true;
                    break ;
                }
                g += 1;
            }
            if !found {
                let mut inc: Vec<HyperEdgeIndex> = Vec::new();
                let mut k: usize = 0;
                while k < incidence.len()
                    invariant
                        self.wf(),
                        q < self.nodes.len(),
                        incidence == &self.nodes[q as int].edges,
                    decreases incidence.len() - k,
                {
                    inc.push(incidence[k]);
                    k += 1;
                }
                let mut members: Vec<usize> = Vec::new();
                members.push(q);
                groups.push((inc, members));
            }
            q += 1;
        }
        let mut edges: Vec<(usize, usize)> = Vec::new();
        let mut g: usize = 0;
        while g < groups.len()
            invariant
                self.wf(),
                nodes.len() >= ne,
                ne == self.edges.len(),
                forall|k: int|
                    0 <= k < edges.len() ==> (#[trigger] edges[k]).0 < nodes.len()
                        && edges[k].1 < nodes.len(),
            decreases groups.len() - g,
        {
            let glen = groups[g].0.len();
            if glen == 1 {
                // A qubit group inside a single hyperedge is merged into the
                // node of that edge.
                let HyperEdgeIndex(e) = groups[g].0[0];
                if e < nodes.len() {
                    let mut node = ExplosionNode { hyper_edges: Vec::new(), hyper_nodes: Vec::new() };
                    core::mem::swap(&mut nodes[e], &mut node);
                    let mut m: usize = 0;
                    while m < groups[g].1.len()
                        invariant
                            g < groups.len(),
                        decreases groups[g as int].1.len() - m,
                    {
                        node.hyper_nodes.push(groups[g].1[m]);
                        m += 1;
                    }
                    core::mem::swap(&mut nodes[e], &mut node);
                }
            } else {
                // A shared qubit group becomes a node of its own, connected
                // to each of its hyperedges.
                let index = nodes.len();
                let mut hyper_edges: Vec<HyperEdgeIndex> = Vec::new();
                let mut hyper_nodes: Vec<usize> = Vec::new();
                let mut m: usize = 0;
                while m < groups[g].1.len()
                    invariant
                        g < groups.len(),
                    decreases groups[g as int].1.len() - m,
                {
                    hyper_nodes.push(groups[g].1[m]);
                    m += 1;
                }
                let mut k: usize = 0;
                while k < groups[g].0.len()
                    invariant
                        g < groups.len(),
                        forall|j: int|
                            0 <= j < edges.len() ==> (#[trigger] edges[j]).0 <= index
                                && edges[j].1 <= index,
                    decreases groups[g as int].0.len() - k,
                {
                    let HyperEdgeIndex(e) = groups[g].0[k];
                    hyper_edges.push(HyperEdgeIndex(e));
                    if e < index {
                        edges.push((index, e));
                    }
                    k += 1;
                }
                nodes.push(ExplosionNode { hyper_edges, hyper_nodes });
            }
            g += 1;
        }
        Explosion { nodes, edges }
    }
}


/// The number of connected components that petgraph counts in an undirected
/// graph with the given nodes and edges. The result depends on the
/// arguments alone.
pub uninterp spec fn component_count_of(node_count: int, edges: Seq<(usize, usize)>) -> nat;

/// Relies on petgraph's connected_components: the number of connected
/// components of the undirected graph with `node_count` nodes and the given
/// edges. Counts below the u32 node and edge index caps, where the graph
/// construction cannot panic.
#[verifier::external_body]
fn connected_component_count(node_count: usize, edges: &Vec<(usize, usize)>) -> (r: usize)
    requires
        node_count < u32::MAX,
        edges.len() < u32::MAX,
        forall|k: int|
            0 <= k < edges.len() ==> (#[trigger] edges[k]).0 < node_count && edges[k].1
                < node_count,
    ensures
        r == component_count_of(node_count as int, edges@),
{
    let mut g: petgraph::graph::UnGraph<(), u32> = petgraph::graph::UnGraph::default();
    for _ in 0..node_count {
        g.add_node(());
    }
    for (a, b) in edges.iter() {
        g.add_edge((*a as u32).into(), (*b as u32).into(), 1u32);
    }
    petgraph::algo::connected_components(&g)
}

/// Relies on petgraph's steiner_tree: an approximate Steiner tree spanning
/// the terminals, returned as the edges of a subgraph on the same node
/// indices. Node and edge counts stay below the u32 index caps, where the
/// graph construction cannot panic; with one component every pairwise
/// shortest path exists, so the call returns. Every returned edge is one of
/// the given edges, possibly with its endpoints swapped.
#[verifier::external_body]
fn steiner_tree_edges(
    node_count: usize,
    edges: &Vec<(usize, usize)>,
    terminals: &Vec<usize>,
) -> (r: Vec<(usize, usize)>)
    requires
        node_count < u32::MAX,
        edges.len() < u32::MAX,
        forall|k: int|
            0 <= k < edges.len() ==> (#[trigger] edges[k]).0 < node_count && edges[k].1
                < node_count,
        forall|k: int| 0 <= k < terminals.len() ==> (#[trigger] terminals[k]) < node_count,
        component_count_of(node_count as int, edges@) == 1,
    ensures
        forall|k: int|
            0 <= k < r.len() ==> exists|j: int|
                0 <= j < edges.len() && ((#[trigger] r[k]) == edges[j] || (r[k].0 == edges[j].1
                    && r[k].1 == edges[j].0)),
{
    let mut g: petgraph::graph::UnGraph<(), u32> = petgraph::graph::UnGraph::default();
    for _ in 0..node_count {
        g.add_node(());
    }
    for (a, b) in edges.iter() {
        g.add_edge((*a as u32).into(), (*b as u32).into(), 1u32);
    }
    let ts: Vec<petgraph::graph::NodeIndex> =
        terminals.iter().map(|t| (*t as u32).into()).collect();
    let tree = petgraph::algo::steiner_tree(&g, &ts);
    tree.edge_indices()
        .filter_map(|e| tree.edge_endpoints(e))
        .map(|(a, b)| (a.index(), b.index()))
        .collect()
}

/// Walks the subgraph from its first terminal, keeps the edges that reach a
/// new node, and drops the edges that would close a cycle. Returns the
/// positions of the kept edges; `None` when the subgraph does not connect
/// all its terminals and edges.
fn enforce_tree(
    node_count: usize,
    edges: &Vec<(usize, usize)>,
    terminals: &Vec<usize>,
) -> (r: Option<Vec<usize>>)
    requires
        forall|k: int|
            0 <= k < edges.len() ==> (#[trigger] edges[k]).0 < node_count && edges[k].1
                < node_count,
        forall|k: int| 0 <= k < terminals.len() ==> (#[trigger] terminals[k]) < node_count,
    ensures
        match r {
            Some(kept) => forall|k: int| 0 <= k < kept.len() ==> (#[trigger] kept[k])
                < edges.len(),
            None => true,
        },
{
    if terminals.len() == 0 {
        if edges.len() == 0 {
            return Some(Vec::new());
        }
        return None;
    }
    let mut visited: Vec<bool> = Vec::new();
    let mut k: usize = 0;
    while k < node_count
        invariant
            visited.len() == k,
            k <= node_count,
        decreases node_count - k,
    {
        visited.push(false);
        k += 1;
    }
    let start = terminals[0];
    visited.set(start, true);
    let mut unvisited = node_count - 1;
    let mut used: Vec<bool> = Vec::new();
    let mut k: usize = 0;
    while k < edges.len()
        invariant
            used.len() == k,
            k <= edges.len(),
        decreases edges.len() - k,
    {
        used.push(false);
        k += 1;
    }
    let mut kept: Vec<usize> = Vec::new();
    let mut next: Vec<usize> = Vec::new();
    next.push(start);
    while next.len() > 0
        invariant
            visited.len() == node_count,
            used.len() == edges.len(),
            unvisited <= node_count,
            forall|j: int| 0 <= j < next.len() ==> (#[trigger] next[j]) < node_count,
            forall|j: int| 0 <= j < kept.len() ==> (#[trigger] kept[j]) < edges.len(),
            forall|j: int|
                0 <= j < edges.len() ==> (#[trigger] edges[j]).0 < node_count && edges[j].1
                    < node_count,
        decreases unvisited, next.len(),
    {
        let node = next.remove(0);
        let ghost pre_unvisited = unvisited as int;
        let ghost pre_next = next.len() as int;
        let mut e: usize = 0;
        while e < edges.len()
            invariant
                visited.len() == node_count,
                used.len() == edges.len(),
                node < node_count,
                unvisited <= pre_unvisited,
                unvisited <= node_count,
                next.len() <= pre_next + (pre_unvisited - unvisited),
                forall|j: int| 0 <= j < next.len() ==> (#[trigger] next[j]) < node_count,
                forall|j: int| 0 <= j < kept.len() ==> (#[trigger] kept[j]) < edges.len(),
                forall|j: int|
                    0 <= j < edges.len() ==> (#[trigger] edges[j]).0 < node_count && edges[j].1
                        < node_count,
            decreases edges.len() - e,
        {
            let (a, b) = edges[e];
            if !used[e] && (a == node || b == node) {
                let neighbor = if a == node {
                    b
                } else {
                    a
                };
                if !visited[neighbor] {
                    used.set(e, true);
                    visited.set(neighbor, true);
                    if unvisited == 0 {
                        return None;
                    }
                    unvisited -= 1;
                    next.push(neighbor);
                    kept.push(e);
                } else {
                    // A cycle-closing edge: marked used and not kept.
                    used.set(e, true);
                }
            }
            e += 1;
        }
    }
    // Every terminal and every edge endpoint must have been reached.
    let mut k: usize = 0;
    while k < terminals.len()
        invariant
            visited.len() == node_count,
            forall|j: int| 0 <= j < terminals.len() ==> (#[trigger] terminals[j]) < node_count,
        decreases terminals.len() - k,
    {
        if !visited[terminals[k]] {
            return None;
        }
        k += 1;
    }
    let mut k: usize = 0;
    while k < edges.len()
        invariant
            visited.len() == node_count,
            forall|j: int|
                0 <= j < edges.len() ==> (#[trigger] edges[j]).0 < node_count && edges[j].1
                    < node_count,
            forall|j: int| 0 <= j < kept.len() ==> (#[trigger] kept[j]) < edges.len(),
        decreases edges.len() - k,
    {
        let (a, b) = edges[k];
        if !visited[a] || !visited[b] {
            return None;
        }
        k += 1;
    }
    Some(kept)
}


/// Whether one emitted step names the hyperedge of an edge node of the
/// explosion, and hands over the qubit list of one of its nodes.
pub open spec fn emitted_from_explosion(
    explosion: Explosion,
    step: (usize, Option<Vec<usize>>),
) -> bool {
    &&& exists|idx: int|
        0 <= idx < explosion.nodes.len() && (#[trigger] explosion.nodes[idx]).hyper_edges@.len()
            == 1 && explosion.nodes[idx].hyper_edges@[0].0 == step.0
    &&& match step.1 {
        Some(ts) => exists|nb: int|
            0 <= nb < explosion.nodes.len() && ts@
                == (#[trigger] explosion.nodes[nb]).hyper_nodes@,
        None => true,
    }
}

/// Peels leaves off the tree, emitting one `(hyperedge, targets)` pair per
/// edge node, the last one with no target. `None` when the peeling gets
/// stuck.
#[verifier::loop_isolation(false)]
fn as_instructions(
    explosion: &Explosion,
    pairs: &Vec<(usize, usize)>,
) -> (r: Option<Vec<(usize, Option<Vec<usize>>)>>)
    requires
        forall|k: int|
            0 <= k < pairs.len() ==> (#[trigger] pairs[k]).0 < explosion.nodes.len()
                && pairs[k].1 < explosion.nodes.len(),
    ensures
        match r {
            Some(result) => forall|k: int|
                0 <= k < result.len() ==> emitted_from_explosion(
                    *explosion,
                    #[trigger] result[k],
                ),
            None => true,
        },
{
    let n = explosion.nodes.len();
    let mut alive: Vec<bool> = Vec::new();
    let mut k: usize = 0;
    while k < n
        invariant
            alive.len() == k,
            k <= n,
        decreases n - k,
    {
        alive.push(false);
        k += 1;
    }
    let mut k: usize = 0;
    while k < pairs.len()
        invariant
            alive.len() == n,
            forall|j: int|
                0 <= j < pairs.len() ==> (#[trigger] pairs[j]).0 < n && pairs[j].1 < n,
        decreases pairs.len() - k,
    {
        let (a, b) = pairs[k];
        alive.set(a, true);
        alive.set(b, true);
        k += 1;
    }
    let mut alive_count: usize = 0;
    let mut k: usize = 0;
    while k < n
        invariant
            alive.len() == n,
            alive_count <= k,
            k <= n,
        decreases n - k,
    {
        if alive[k] {
            alive_count += 1;
        }
        k += 1;
    }
    let mut edge_alive: Vec<bool> = Vec::new();
    let mut k: usize = 0;
    while k < pairs.len()
        invariant
            edge_alive.len() == k,
            k <= pairs.len(),
        decreases pairs.len() - k,
    {
        edge_alive.push(true);
        k += 1;
    }
    let mut result: Vec<(usize, Option<Vec<usize>>)> = Vec::new();
    let mut fuel: usize = n;
    loop
        invariant
            n == explosion.nodes.len(),
            alive.len() == n,
            edge_alive.len() == pairs.len(),
            forall|j: int|
                0 <= j < pairs.len() ==> (#[trigger] pairs[j]).0 < n && pairs[j].1 < n,
            forall|j: int|
                0 <= j < result.len() ==> emitted_from_explosion(
                    *explosion,
                    #[trigger] result[j],
                ),
        decreases fuel,
    {
        if alive_count == 0 {
            return Some(result);
        }
        if fuel == 0 {
            return None;
        }
        fuel -= 1;
        let mut progressed = false;
        let mut idx: usize = 0;
        while idx < n
            invariant
                n == explosion.nodes.len(),
                alive.len() == n,
                edge_alive.len() == pairs.len(),
                forall|j: int|
                    0 <= j < pairs.len() ==> (#[trigger] pairs[j]).0 < n && pairs[j].1 < n,
                forall|j: int|
                    0 <= j < result.len() ==> emitted_from_explosion(
                        *explosion,
                        #[trigger] result[j],
                    ),
            decreases n - idx,
        {
            if alive[idx] {
                // Count the live edges at this node and remember a neighbour.
                let mut degree: usize = 0;
                let mut neighbor: usize = 0;
                let mut e: usize = 0;
                while e < pairs.len()
                    invariant
                        alive.len() == n,
                        edge_alive.len() == pairs.len(),
                        degree <= e,
                        neighbor < n || degree == 0,
                        forall|j: int|
                            0 <= j < pairs.len() ==> (#[trigger] pairs[j]).0 < n && pairs[j].1
                                < n,
                    decreases pairs.len() - e,
                {
                    if edge_alive[e] {
                        let (a, b) = pairs[e];
                        if a == idx {
                            degree += 1;
                            neighbor = b;
                        } else if b == idx {
                            degree += 1;
                            neighbor = a;
                        }
                    }
                    e += 1;
                }
                if degree == 1 {
                    let node = &explosion.nodes[idx];
                    if node.hyper_edges.len() == 1 {
                        let HyperEdgeIndex(he) = node.hyper_edges[0];
                        let nb = &explosion.nodes[neighbor];
                        let mut targets: Vec<usize> = Vec::new();
                        let mut m: usize = 0;
                        while m < nb.hyper_nodes.len()
                            invariant
                                neighbor < n,
                                nb == &explosion.nodes[neighbor as int],
                                targets.len() == m,
                                m <= nb.hyper_nodes.len(),
                                forall|j: int| 0 <= j < m ==> targets@[j] == nb.hyper_nodes@[j],
                            decreases nb.hyper_nodes.len() - m,
                        {
                            targets.push(nb.hyper_nodes[m]);
                            m += 1;
                        }
                        proof {
                            assert(targets@ =~= explosion.nodes[neighbor as int].hyper_nodes@);
                        }
                        let step = (he, Some(targets));
                        proof {
                            assert(explosion.nodes[idx as int].hyper_edges@[0].0 == he);
                            assert(emitted_from_explosion(*explosion, step));
                        }
                        result.push(step);
                    }
                    alive.set(idx, false);
                    if alive_count == 0 {
                        return None;
                    }
                    alive_count -= 1;
                    let mut e: usize = 0;
                    while e < pairs.len()
                        invariant
                            alive.len() == n,
                            edge_alive.len() == pairs.len(),
                            idx < n,
                            forall|j: int|
                                0 <= j < pairs.len() ==> (#[trigger] pairs[j]).0 < n
                                    && pairs[j].1 < n,
                        decreases pairs.len() - e,
                    {
                        let (a, b) = pairs[e];
                        if a == idx || b == idx {
                            edge_alive.set(e, false);
                        }
                        e += 1;
                    }
                    progressed = true;
                } else if degree == 0 {
                    let node = &explosion.nodes[idx];
                    if node.hyper_edges.len() == 1 {
                        if alive_count != 1 {
                            return None;
                        }
                        let HyperEdgeIndex(he) = node.hyper_edges[0];
                        let step = (he, None);
                        proof {
                            assert(explosion.nodes[idx as int].hyper_edges@[0].0 == he);
                            assert(emitted_from_explosion(*explosion, step));
                        }
                        result.push(step);
                    }
                    alive.set(idx, false);
                    if alive_count == 0 {
                        return None;
                    }
                    alive_count -= 1;
                    progressed = true;
                }
            }
            idx += 1;
        }
        if !progressed && alive_count > 0 {
            return None;
        }
    }
}

/// Why a connectivity could not be built.
#[derive(Debug)]
pub enum ConnectivityCreationError {
    IndexOutOfRange(usize),
    NotFullyConnected,
    DublicateInGroup,
}

/// The largest group size among the first `k` operator groups.
pub open spec fn spec_max_group_len(groups: Seq<Vec<usize>>, k: int) -> nat
    decreases k,
{
    if k <= 0 {
        0
    } else {
        let rest = spec_max_group_len(groups, k - 1);
        if groups[k - 1].len() > rest {
            groups[k - 1].len() as nat
        } else {
            rest
        }
    }
}

/// Whether the hyperedge at `e` holds every target.
pub open spec fn spec_edge_contains_all(g: HyperGraph, e: int, targets: Seq<usize>) -> bool {
    forall|k: int| 0 <= k < targets.len() ==> g.edges[e].nodes@.contains(#[trigger] targets[k])
}

/// A hypergraph of allowed qubit groups together with its explosion, ready
/// for routing.
#[derive(Debug)]
pub struct Connectivity {
    pub hypergraph: HyperGraph,
    pub explosion: Explosion,
    pub max_operator_size: usize,
    pub qubit_count: usize,
}

impl Connectivity {
    /// The hypergraph is sound, its node count is the qubit count, and the
    /// explosion's edges stay inside its nodes.
    pub open spec fn wf(&self) -> bool {
        &&& self.hypergraph.wf()
        &&& self.explosion.wf()
        &&& self.qubit_count == self.hypergraph.nodes.len()
    }

    /// Builds a connectivity over `qubit_count` qubits from the allowed
    /// operator groups. Fails on an out-of-range qubit, a duplicate inside
    /// a group, or a hypergraph that is not fully connected.
    #[verifier::loop_isolation(false)]
    pub fn new(qubit_count: usize, operator_groups: Vec<Vec<usize>>) -> (r: Result<
        Connectivity,
        ConnectivityCreationError,
    >)
        ensures
            match r {
                Ok(c) => {
                    &&& c.wf()
                    &&& c.qubit_count == qubit_count
                    &&& qubit_count < BIT_INDEX_LIMIT
                    &&& c.hypergraph.connected()
                    &&& c.hypergraph.edges.len() == operator_groups.len()
                    &&& c.max_operator_size == spec_max_group_len(
                        operator_groups@,
                        operator_groups@.len() as int,
                    )
                },
                Err(_) => true,
            },
            qubit_count >= BIT_INDEX_LIMIT ==> r is Err,
    {
        if qubit_count >= BIT_INDEX_LIMIT {
            return Err(ConnectivityCreationError::IndexOutOfRange(qubit_count));
        }
        let mut max_operator_size: usize = 0;
        let mut hypergraph = HyperGraph::new();
        let mut k: usize = 0;
        while k < qubit_count
            invariant
                hypergraph.wf(),
                hypergraph.node_count() == k,
                hypergraph.edge_count() == 0,
                k <= qubit_count,
                qubit_count < BIT_INDEX_LIMIT,
            decreases qubit_count - k,
        {
            hypergraph.add_node();
            k += 1;
        }
        let mut gi: usize = 0;
        while gi < operator_groups.len()
            invariant
                hypergraph.wf(),
                hypergraph.node_count() == qubit_count,
                hypergraph.edge_count() == gi,
                gi <= operator_groups.len(),
                max_operator_size == spec_max_group_len(operator_groups@, gi as int),
            decreases operator_groups.len() - gi,
        {
            let group = &operator_groups[gi];
            let n = group.len();
            // Sort the group, dropping duplicates; a dropped duplicate is an
            // error.
            let mut sorted: Vec<usize> = Vec::new();
            let mut k: usize = 0;
            while k < group.len()
                invariant
                    gi < operator_groups.len(),
                    group == &operator_groups[gi as int],
                    sorted.len() == k,
                    k <= group.len(),
                decreases group.len() - k,
            {
                let t = group[k];
                let mut pos: usize = 0;
                let mut dup = false;
                while pos < sorted.len()
                    invariant
                        pos <= sorted.len(),
                    decreases sorted.len() - pos,
                {
                    if sorted[pos] == t {
                        dup = true;
                        break ;
                    }
                    if sorted[pos] > t {
                        break ;
                    }
                    pos += 1;
                }
                if dup {
                    return Err(ConnectivityCreationError::DublicateInGroup);
                }
                sorted.insert(pos, t);
                k += 1;
            }
            let mut k: usize = 0;
            while k < sorted.len()
                invariant
                    hypergraph.wf(),
                    hypergraph.node_count() == qubit_count,
                decreases sorted.len() - k,
            {
                if sorted[k] >= qubit_count {
                    return Err(ConnectivityCreationError::IndexOutOfRange(sorted[k]));
                }
                k += 1;
            }
            max_operator_size = if sorted.len() > max_operator_size {
                sorted.len()
            } else {
                max_operator_size
            };
            match hypergraph.add_edge(sorted) {
                Ok(_) => {},
                Err(_) => {
                    return Err(ConnectivityCreationError::IndexOutOfRange(qubit_count));
                },
            }
            gi += 1;
        }
        if !hypergraph.fully_connected() {
            return Err(ConnectivityCreationError::NotFullyConnected);
        }
        let explosion = hypergraph.explode();
        Ok(Connectivity { hypergraph, explosion, max_operator_size, qubit_count })
    }

    pub fn max_operator_size(&self) -> (r: usize)
        ensures
            r == self.max_operator_size,
    {
        self.max_operator_size
    }

    pub fn qubit_count(&self) -> (r: usize)
        ensures
            r == self.qubit_count,
    {
        self.qubit_count
    }

    /// Whether some hyperedge holds every target; an empty target set is
    /// always supported.
    #[verifier::loop_isolation(false)]
    pub fn supports_operation_on(&self, targets: &Vec<usize>) -> (r: bool)
        requires
            self.wf(),
        ensures
            r == (targets.len() == 0 || exists|e: int|
                0 <= e < self.hypergraph.edges.len() && spec_edge_contains_all(
                    self.hypergraph,
                    e,
                    targets@,
                )),
    {
        if targets.len() == 0 {
            return true;
        }
        let first = targets[0];
        if first >= self.qubit_count {
            proof {
                // A covering edge would hold the first target, which the
                // hypergraph bounds below the qubit count.
                assert forall|e: int|
                    0 <= e < self.hypergraph.edges.len() implies !spec_edge_contains_all(
                    self.hypergraph,
                    e,
                    targets@,
                ) by {
                    if spec_edge_contains_all(self.hypergraph, e, targets@) {
                        assert(self.hypergraph.edges[e].nodes@.contains(targets@[0]));
                        let m = choose|m: int|
                            0 <= m < self.hypergraph.edges[e].nodes@.len()
                                && self.hypergraph.edges[e].nodes@[m] == targets@[0];
                        assert(self.hypergraph.edges[e].nodes[m] < self.hypergraph.nodes.len());
                    }
                }
            }
            return false;
        }
        let node = &self.hypergraph.nodes[first];
        let mut oi: usize = 0;
        while oi < node.edges.len()
            invariant
                node == &self.hypergraph.nodes[first as int],
                forall|j: int|
                    0 <= j < oi ==> !spec_edge_contains_all(
                        self.hypergraph,
                        (#[trigger] node.edges@[j]).0 as int,
                        targets@,
                    ),
            decreases node.edges.len() - oi,
        {
            let HyperEdgeIndex(e) = node.edges[oi];
            let edge = &self.hypergraph.edges[e];
            let mut all = true;
            let mut k: usize = 0;
            while all && k < targets.len()
                invariant
                    e < self.hypergraph.edges.len(),
                    edge == &self.hypergraph.edges[e as int],
                    all ==> forall|j: int|
                        0 <= j < k ==> edge.nodes@.contains(#[trigger] targets@[j]),
                    !all ==> !spec_edge_contains_all(self.hypergraph, e as int, targets@),
                decreases targets.len() - k, (if all {
                    1int
                } else {
                    0int
                }),
            {
                let t = targets[k];
                let mut found = false;
                let mut m: usize = 0;
                while m < edge.nodes.len() && !found
                    invariant
                        edge == &self.hypergraph.edges[e as int],
                        found ==> edge.nodes@.contains(t),
                        !found ==> forall|j: int| 0 <= j < m ==> edge.nodes@[j] != t,
                    decreases edge.nodes.len() - m, (if found {
                        0int
                    } else {
                        1int
                    }),
                {
                    if edge.nodes[m] == t {
                        found = true;
                    } else {
                        m += 1;
                    }
                }
                if !found {
                    proof {
                        assert(!edge.nodes@.contains(t));
                        assert(targets@[k as int] == t);
                        assert(!spec_edge_contains_all(self.hypergraph, e as int, targets@));
                    }
                    all = false;
                } else {
                    k += 1;
                }
            }
            if all {
                proof {
                    assert forall|j: int|
                        0 <= j < targets@.len() implies self.hypergraph.edges[e as int].nodes@
                        .contains(#[trigger] targets@[j]) by {
                        assert(edge.nodes@.contains(targets@[j]));
                    }
                    assert(spec_edge_contains_all(self.hypergraph, e as int, targets@));
                }
                return true;
            }
            oi += 1;
        }
        proof {
            // Every covering edge is incident to the first target, and every
            // incident edge was scanned and refused.
            assert forall|e: int|
                0 <= e < self.hypergraph.edges.len() implies !spec_edge_contains_all(
                self.hypergraph,
                e,
                targets@,
            ) by {
                if spec_edge_contains_all(self.hypergraph, e, targets@) {
                    assert(self.hypergraph.edges[e].nodes@.contains(targets@[0]));
                    let m = choose|m: int|
                        0 <= m < self.hypergraph.edges[e].nodes@.len()
                            && self.hypergraph.edges[e].nodes@[m] == targets@[0];
                    assert(self.hypergraph.edges[e].nodes[m] == first);
                    assert(crate::hypergraph::incidence_has(
                        self.hypergraph.nodes[first as int].edges@,
                        e,
                    ));
                    let j = choose|j: int|
                        0 <= j < self.hypergraph.nodes[first as int].edges@.len()
                            && (#[trigger] self.hypergraph.nodes[first as int].edges@[j]).0 == e;
                    assert(node.edges@[j].0 == e);
                }
            }
        }
        false
    }

}


/// A copy of a vector of indices.
fn copy_usizes(v: &Vec<usize>) -> (r: Vec<usize>)
    ensures
        r@ =~= v@,
{
    let mut r: Vec<usize> = Vec::new();
    let mut k: usize = 0;
    while k < v.len()
        invariant
            r.len() == k,
            k <= v.len(),
            forall|j: int| 0 <= j < k ==> r@[j] == v@[j],
        decreases v.len() - k,
    {
        r.push(v[k]);
        k += 1;
    }
    r
}

/// How many operator groups the line tiling lays out: one for the first
/// full group, then one per further `n - 1` qubits attached.
pub open spec fn spec_line_groups(n: int, min_qubit_count: int) -> int {
    if min_qubit_count == 0 {
        0
    } else {
        let attached = if min_qubit_count > n {
            min_qubit_count - n
        } else {
            0
        };
        (attached + n - 2) / (n - 1) + 1
    }
}

/// How many qubits the line tiling covers.
pub open spec fn spec_line_qubits(n: int, min_qubit_count: int) -> int {
    if min_qubit_count == 0 {
        0
    } else {
        1 + spec_line_groups(n, min_qubit_count) * (n - 1)
    }
}

impl Connectivity {
    /// Computes the ordered routing instructions that collapse the given
    /// target qubits into one hyperedge: the Steiner tree over the
    /// explosion, pruned to a tree, then peeled from the leaves inward.
    /// `None` when the routing machinery cannot serve the targets.
    pub fn get_routing_path(&self, targets: &Vec<usize>) -> (r: Option<Vec<RoutingInstruction>>)
        requires
            self.wf(),
        ensures
            match r {
                Some(instrs) => {
                    &&& forall|k: int|
                        0 <= k < instrs.len() ==> exists|e: int|
                            0 <= e < self.hypergraph.edges.len() && (#[trigger] instrs[k]).qubits@
                                == self.hypergraph.edges[e].nodes@
                    &&& forall|k: int, m: int|
                        0 <= k < instrs.len() && 0 <= m < (#[trigger] instrs[k]).qubits.len()
                            ==> (#[trigger] instrs[k].qubits[m]) < BIT_INDEX_LIMIT
                },
                None => true,
            },
    {
        // The explosion nodes that carry one of the target qubits.
        let mut terminals: Vec<usize> = Vec::new();
        let mut idx: usize = 0;
        let nn = self.explosion.nodes.len();
        while idx < nn
            invariant
                self.wf(),
                nn == self.explosion.nodes.len(),
                forall|j: int| 0 <= j < terminals.len() ==> (#[trigger] terminals[j]) < nn,
            decreases nn - idx,
        {
            let weight = &self.explosion.nodes[idx];
            let mut m: usize = 0;
            let mut hit = false;
            while m < weight.hyper_nodes.len()
                invariant
                    idx < nn,
                    nn == self.explosion.nodes.len(),
                    weight == &self.explosion.nodes[idx as int],
                decreases weight.hyper_nodes.len() - m,
            {
                let q = weight.hyper_nodes[m];
                let mut t: usize = 0;
                while t < targets.len()
                    decreases targets.len() - t,
                {
                    if targets[t] == q {
                        hit = true;
                        break ;
                    }
                    t += 1;
                }
                if hit {
                    break ;
                }
                m += 1;
            }
            if hit {
                terminals.push(idx);
            }
            idx += 1;
        }
        let mut primitive: Vec<(usize, Option<Vec<usize>>)> = Vec::new();
        if terminals.len() == 1 {
            let node = &self.explosion.nodes[terminals[0]];
            if node.hyper_edges.len() == 0 {
                return None;
            }
            let HyperEdgeIndex(e) = node.hyper_edges[0];
            primitive.push((e, None));
        } else {
            if self.explosion.nodes.len() >= u32::MAX as usize || self.explosion.edges.len()
                >= u32::MAX as usize {
                return None;
            }
            if connected_component_count(self.explosion.node_count(), &self.explosion.edges)
                != 1 {
                return None;
            }
            let tree = steiner_tree_edges(
                self.explosion.node_count(),
                &self.explosion.edges,
                &terminals,
            );
            proof {
                assert forall|k: int|
                    0 <= k < tree.len() implies (#[trigger] tree[k]).0
                    < self.explosion.nodes.len() && tree[k].1 < self.explosion.nodes.len() by {
                    let j = choose|j: int|
                        0 <= j < self.explosion.edges.len() && (tree[k]
                            == self.explosion.edges[j] || (tree[k].0 == self.explosion.edges[j].1
                            && tree[k].1 == self.explosion.edges[j].0));
                }
            }
            let kept = match enforce_tree(self.explosion.node_count(), &tree, &terminals) {
                Some(kept) => kept,
                None => {
                    return None;
                },
            };
            let mut pairs: Vec<(usize, usize)> = Vec::new();
            let mut k: usize = 0;
            while k < kept.len()
                invariant
                    self.wf(),
                    forall|j: int| 0 <= j < kept.len() ==> (#[trigger] kept[j]) < tree.len(),
                    forall|j: int|
                        0 <= j < tree.len() ==> (#[trigger] tree[j]).0
                            < self.explosion.nodes.len() && tree[j].1
                            < self.explosion.nodes.len(),
                    forall|j: int|
                        0 <= j < pairs.len() ==> (#[trigger] pairs[j]).0
                            < self.explosion.nodes.len() && pairs[j].1
                            < self.explosion.nodes.len(),
                decreases kept.len() - k,
            {
                pairs.push(tree[kept[k]]);
                k += 1;
            }
            primitive = match as_instructions(&self.explosion, &pairs) {
                Some(p) => p,
                None => {
                    return None;
                },
            };
        }
        let mut instructions: Vec<RoutingInstruction> = Vec::new();
        let mut k: usize = 0;
        while k < primitive.len()
            invariant
                self.wf(),
                forall|j: int|
                    0 <= j < instructions.len() ==> exists|e: int|
                        0 <= e < self.hypergraph.edges.len()
                            && (#[trigger] instructions[j]).qubits@
                            == self.hypergraph.edges[e].nodes@,
                forall|j: int, m: int|
                    0 <= j < instructions.len() && 0 <= m
                        < (#[trigger] instructions[j]).qubits.len()
                        ==> (#[trigger] instructions[j].qubits[m]) < BIT_INDEX_LIMIT,
            decreases primitive.len() - k,
        {
            let e = primitive[k].0;
            let edge = match self.hypergraph.get_edge(HyperEdgeIndex(e)) {
                Some(edge) => edge,
                None => {
                    return None;
                },
            };
            let qubits = copy_usizes(&edge.nodes);
            let target = match &primitive[k].1 {
                Option::None => RoutingInstructionTarget::Any,
                Option::Some(v) => {
                    if v.len() == 1 {
                        RoutingInstructionTarget::Single(v[0])
                    } else {
                        RoutingInstructionTarget::Multiple(copy_usizes(v))
                    }
                },
            };
            let instr = RoutingInstruction { qubits, target };
            proof {
                assert(instr.qubits@ == self.hypergraph.edges[e as int].nodes@);
                assert forall|m: int|
                    0 <= m < instr.qubits.len() implies (#[trigger] instr.qubits[m])
                    < BIT_INDEX_LIMIT by {
                    assert(self.hypergraph.edges[e as int].nodes[m] < self.hypergraph.nodes.len());
                }
            }
            instructions.push(instr);
            k += 1;
        }
        // A single instruction may place its letters anywhere in its edge.
        if instructions.len() == 1 {
            let only = match instructions.pop() {
                Some(i) => i,
                None => {
                    return None;
                },
            };
            let replaced = RoutingInstruction {
                qubits: only.qubits,
                target: RoutingInstructionTarget::Any,
            };
            instructions.push(replaced);
        }
        Some(instructions)
    }

    /// Creates a line connectivity with minimal overlap covering at least
    /// the requested number of qubits. `None` when the sizes cannot be
    /// realised.
    #[verifier::loop_isolation(false)]
    pub fn create_line(group_size: NonZeroEvenUsize, min_qubit_count: usize) -> (r: Option<
        Connectivity,
    >)
        ensures
            match r {
                Some(c) => {
                    &&& c.wf()
                    &&& c.qubit_count == spec_line_qubits(
                        group_size.as_int(),
                        min_qubit_count as int,
                    )
                    &&& c.hypergraph.edges.len() == spec_line_groups(
                        group_size.as_int(),
                        min_qubit_count as int,
                    )
                },
                None => true,
            },
    {
        if min_qubit_count == 0 {
            return match Connectivity::new(0, Vec::new()) {
                Ok(c) => Some(c),
                Err(_) => None,
            };
        }
        let n = group_size.as_value();
        let attached = if min_qubit_count > n {
            min_qubit_count - n
        } else {
            0
        };
        let t = match attached.checked_add(n - 2) {
            Some(v) => v,
            None => {
                return None;
            },
        };
        let n_groups = t / (n - 1) + 1;
        let span = match n_groups.checked_mul(n - 1) {
            Some(v) => v,
            None => {
                return None;
            },
        };
        let qubit_count = match span.checked_add(1) {
            Some(v) => v,
            None => {
                return None;
            },
        };
        let mut operator_groups: Vec<Vec<usize>> = Vec::new();
        let mut i: usize = 0;
        while i < n_groups
            invariant
                n >= 2,
                i <= n_groups,
                operator_groups.len() == i,
                n_groups * (n - 1) + 1 <= usize::MAX,
            decreases n_groups - i,
        {
            proof {
                assert(i * (n - 1) + n <= n_groups * (n - 1) + 1) by (nonlinear_arith)
                    requires
                        n >= 2,
                        i < n_groups,
                ;
            }
            let start = i * (n - 1);
            let mut group: Vec<usize> = Vec::new();
            let mut q: usize = start;
            while q < start + n
                invariant
                    start + n <= usize::MAX,
                decreases start + n - q,
            {
                group.push(q);
                q += 1;
            }
            operator_groups.push(group);
            i += 1;
        }
        match Connectivity::new(qubit_count, operator_groups) {
            Ok(c) => Some(c),
            Err(_) => None,
        }
    }
}


/// Adds the run `start..=endv` to the group, failing on overflow.
fn push_range(group: &mut Vec<usize>, start: usize, endv: usize) -> (ok: bool)
    requires
        endv < usize::MAX,
{
    let mut q: usize = start;
    while q <= endv
        invariant
            endv < usize::MAX,
        decreases endv + 1 - q,
    {
        group.push(q);
        q += 1;
    }
    true
}

impl Connectivity {
    /// Creates a square grid connectivity with minimal overlap covering at
    /// least the requested number of qubits. `None` when the sizes cannot
    /// be realised.
    pub fn create_square_grid(group_size: NonZeroEvenUsize, min_qubit_count: usize) -> (r: Option<
        Connectivity,
    >)
        ensures
            match r {
                Some(c) => c.wf(),
                None => true,
            },
    {
        if min_qubit_count == 0 {
            return match Connectivity::new(0, Vec::new()) {
                Ok(c) => Some(c),
                Err(_) => None,
            };
        }
        let n = group_size.as_value();
        let mut layers: usize = 2;
        let mut n_qubits: usize = match (n - 1).checked_mul(4) {
            Some(v) => v,
            None => {
                return None;
            },
        };

        let side_add = match (n - 1).checked_add(n - 2) {
            Some(v) => v,
            None => {
                return None;
            },
        };
        let outer_corner = match side_add.checked_add(n - 1) {
            Some(v) => v,
            None => {
                return None;
            },
        };
        let inner_corner = match (n - 2).checked_mul(2) {
            Some(v) => match v.checked_add(1) {
                Some(v2) => v2,
                None => {
                    return None;
                },
            },
            None => {
                return None;
            },
        };

        let mut fuel: usize = min_qubit_count;
        while n_qubits < min_qubit_count
            invariant
                n >= 2,
                layers >= 2,
                layers <= n_qubits,
            decreases fuel,
        {
            if fuel == 0 {
                return None;
            }
            fuel -= 1;
            let t1 = match (layers - 2).checked_mul(side_add) {
                Some(v) => v,
                None => {
                    return None;
                },
            };
            let t2 = match t1.checked_mul(2) {
                Some(v) => v,
                None => {
                    return None;
                },
            };
            let t3 = match outer_corner.checked_mul(2) {
                Some(v) => v,
                None => {
                    return None;
                },
            };
            let grown = match n_qubits.checked_add(t3) {
                Some(v) => match v.checked_add(inner_corner) {
                    Some(v2) => match v2.checked_add(t2) {
                        Some(v3) => v3,
                        None => {
                            return None;
                        },
                    },
                    None => {
                        return None;
                    },
                },
                None => {
                    return None;
                },
            };
            if grown <= n_qubits {
                return None;
            }
            if grown >= BIT_INDEX_LIMIT {
                // A grid this large cannot index its qubits; the constructor
                // below would refuse it as well.
                return None;
            }
            n_qubits = grown;
            layers += 1;
        }
        // Layering order:
        //  0  1  2  3
        //  4  5  6  7
        //  8  9 10 11
        // 12 13 14 15
        let mut operator_groups: Vec<Vec<usize>> = Vec::new();
        let mut group_i: usize = 0;
        while group_i < layers - 1
            invariant
                n >= 2,
                layers >= 2,
            decreases layers - group_i,
        {
            let offset = match group_i.checked_mul(n - 1) {
                Some(v) => v,
                None => {
                    return None;
                },
            };
            let endv = match offset.checked_add(n - 1) {
                Some(v) => v,
                None => {
                    return None;
                },
            };
            if endv == usize::MAX {
                return None;
            }
            let mut group: Vec<usize> = Vec::new();
            push_range(&mut group, offset, endv);
            operator_groups.push(group);
            group_i += 1;
        }
        let qubits_in_row = match (layers - 1).checked_mul(n - 1) {
            Some(v) => match v.checked_add(1) {
                Some(v2) => v2,
                None => {
                    return None;
                },
            },
            None => {
                return None;
            },
        };
        let layer_size_in_qubits = match layers.checked_mul(n - 2) {
            Some(v) => match v.checked_add(qubits_in_row) {
                Some(v2) => v2,
                None => {
                    return None;
                },
            },
            None => {
                return None;
            },
        };
        let mut row: usize = 1;
        while row < layers
            invariant
                n >= 2,
                layers >= 2,
                row >= 1,
            decreases layers - row,
        {
            let row_offset = match row.checked_mul(layer_size_in_qubits) {
                Some(v) => v,
                None => {
                    return None;
                },
            };
            let mut group_i: usize = 0;
            while group_i < layers - 1
                invariant
                    n >= 2,
                    layers >= 2,
                    row >= 1,
                decreases layers - group_i,
            {
                let offset = match group_i.checked_mul(n - 1) {
                    Some(v) => match v.checked_add(row_offset) {
                        Some(v2) => v2,
                        None => {
                            return None;
                        },
                    },
                    None => {
                        return None;
                    },
                };
                let endv = match offset.checked_add(n - 1) {
                    Some(v) => v,
                    None => {
                        return None;
                    },
                };
                if endv == usize::MAX {
                    return None;
                }
                let mut group: Vec<usize> = Vec::new();
                push_range(&mut group, offset, endv);
                operator_groups.push(group);
                group_i += 1;
            }
            let last_offset = (row - 1).checked_mul(layer_size_in_qubits);
            let last_offset = match last_offset {
                Some(v) => v,
                None => {
                    return None;
                },
            };
            let mut col: usize = 0;
            while col < layers
                invariant
                    n >= 2,
                    layers >= 2,
                    row >= 1,
                decreases layers - col,
            {
                let endv = match col.checked_mul(n - 1) {
                    Some(v) => match v.checked_add(row_offset) {
                        Some(v2) => v2,
                        None => {
                            return None;
                        },
                    },
                    None => {
                        return None;
                    },
                };
                if endv < layer_size_in_qubits {
                    return None;
                }
                let start = endv - layer_size_in_qubits;
                let between_start = match col.checked_mul(n - 2) {
                    Some(v) => match v.checked_add(last_offset) {
                        Some(v2) => match v2.checked_add(qubits_in_row) {
                            Some(v3) => v3,
                            None => {
                                return None;
                            },
                        },
                        None => {
                            return None;
                        },
                    },
                    None => {
                        return None;
                    },
                };
                let between_end = match between_start.checked_add(n - 2) {
                    Some(v) => v,
                    None => {
                        return None;
                    },
                };
                if between_end < 1 {
                    return None;
                }
                let between_end = between_end - 1;
                if between_end == usize::MAX {
                    return None;
                }
                let mut connections: Vec<usize> = Vec::new();
                connections.push(start);
                if between_start <= between_end {
                    push_range(&mut connections, between_start, between_end);
                }
                connections.push(endv);
                operator_groups.push(connections);
                col += 1;
            }
            row += 1;
        }
        match Connectivity::new(n_qubits, operator_groups) {
            Ok(c) => Some(c),
            Err(_) => None,
        }
    }
}


/// The tree pruning, shared with the tableau decomposition.
pub(crate) fn enforce_tree_public(
    node_count: usize,
    edges: &Vec<(usize, usize)>,
    terminals: &Vec<usize>,
) -> (r: Option<Vec<usize>>)
    requires
        forall|k: int|
            0 <= k < edges.len() ==> (#[trigger] edges[k]).0 < node_count && edges[k].1
                < node_count,
        forall|k: int| 0 <= k < terminals.len() ==> (#[trigger] terminals[k]) < node_count,
    ensures
        match r {
            Some(kept) => forall|k: int| 0 <= k < kept.len() ==> (#[trigger] kept[k])
                < edges.len(),
            None => true,
        },
{
    enforce_tree(node_count, edges, terminals)
}

/// Compacts the alive part of the explosion, runs the Steiner tree over it,
/// and returns the chosen edges in original node indices. `None` when the
/// alive part is not one component or a terminal is dead.
#[verifier::loop_isolation(false)]
pub(crate) fn steiner_on_alive(
    explosion: &Explosion,
    alive: &Vec<bool>,
    terminals: &Vec<usize>,
) -> (r: Option<Vec<(usize, usize)>>)
    requires
        explosion.wf(),
        alive.len() == explosion.nodes.len(),
        forall|k: int| 0 <= k < terminals.len() ==> (#[trigger] terminals[k])
            < explosion.nodes.len(),
    ensures
        match r {
            Some(pairs) => forall|k: int|
                0 <= k < pairs.len() ==> (#[trigger] pairs[k]).0 < explosion.nodes.len()
                    && pairs[k].1 < explosion.nodes.len(),
            None => true,
        },
{
    let nn = explosion.nodes.len();
    let mut fwd: Vec<usize> = Vec::new();
    let mut back: Vec<usize> = Vec::new();
    let mut i: usize = 0;
    while i < nn
        invariant
            nn == explosion.nodes.len(),
            fwd.len() == i,
            i <= nn,
            back.len() <= i,
            forall|k: int| 0 <= k < back.len() ==> (#[trigger] back[k]) < nn,
        decreases nn - i,
    {
        if alive[i] {
            fwd.push(back.len());
            back.push(i);
        } else {
            fwd.push(nn);
        }
        i += 1;
    }
    let cn = back.len();
    let mut cedges: Vec<(usize, usize)> = Vec::new();
    let mut k: usize = 0;
    while k < explosion.edges.len()
        invariant
            explosion.wf(),
            nn == explosion.nodes.len(),
            alive.len() == nn,
            fwd.len() == nn,
            cn == back.len(),
            forall|j: int|
                0 <= j < cedges.len() ==> (#[trigger] cedges[j]).0 < cn && cedges[j].1 < cn,
        decreases explosion.edges.len() - k,
    {
        let (a, b) = explosion.edges[k];
        if alive[a] && alive[b] {
            let ca = fwd[a];
            let cb = fwd[b];
            if ca < cn && cb < cn {
                cedges.push((ca, cb));
            }
        }
        k += 1;
    }
    let mut cterms: Vec<usize> = Vec::new();
    let mut k: usize = 0;
    while k < terminals.len()
        invariant
            nn == explosion.nodes.len(),
            alive.len() == nn,
            fwd.len() == nn,
            cn == back.len(),
            forall|j: int| 0 <= j < terminals.len() ==> (#[trigger] terminals[j]) < nn,
            forall|j: int| 0 <= j < cterms.len() ==> (#[trigger] cterms[j]) < cn,
        decreases terminals.len() - k,
    {
        let t = terminals[k];
        if !alive[t] {
            return None;
        }
        let c = fwd[t];
        if c >= cn {
            return None;
        }
        cterms.push(c);
        k += 1;
    }
    if cn >= u32::MAX as usize || cedges.len() >= u32::MAX as usize {
        return None;
    }
    if connected_component_count(cn, &cedges) != 1 {
        return None;
    }
    let tree = steiner_tree_edges(cn, &cedges, &cterms);
    let mut pairs: Vec<(usize, usize)> = Vec::new();
    let mut k: usize = 0;
    while k < tree.len()
        invariant
            nn == explosion.nodes.len(),
            cn == back.len(),
            forall|j: int| 0 <= j < back.len() ==> (#[trigger] back[j]) < nn,
            forall|j: int|
                0 <= j < pairs.len() ==> (#[trigger] pairs[j]).0 < nn && pairs[j].1 < nn,
        decreases tree.len() - k,
    {
        let (ca, cb) = tree[k];
        if ca >= cn || cb >= cn {
            return None;
        }
        pairs.push((back[ca], back[cb]));
        k += 1;
    }
    Some(pairs)
}

/// Whether one emitted step of the toward-variant names the hyperedge of
/// an edge node other than the target edge, and aims at the qubits of one
/// of the explosion's nodes.
pub open spec fn emitted_toward(
    explosion: Explosion,
    target_edge: int,
    step: (usize, RoutingInstructionTarget),
) -> bool {
    &&& step.0 != target_edge
    &&& exists|idx: int|
        0 <= idx < explosion.nodes.len() && (#[trigger] explosion.nodes[idx]).hyper_edges@.len()
            == 1 && explosion.nodes[idx].hyper_edges@[0].0 == step.0
    &&& match step.1 {
        RoutingInstructionTarget::Single(t) => exists|nb: int|
            0 <= nb < explosion.nodes.len() && (#[trigger] explosion.nodes[nb]).hyper_nodes@
                =~= seq![t],
        RoutingInstructionTarget::Multiple(ts) => exists|nb: int|
            0 <= nb < explosion.nodes.len() && ts@
                == (#[trigger] explosion.nodes[nb]).hyper_nodes@,
        RoutingInstructionTarget::Any => true,
    }
}

/// Peels leaves off the tree toward the target edge, emitting one
/// instruction per other edge node; the target edge node itself stays.
#[verifier::loop_isolation(false)]
pub(crate) fn as_instructions_toward(
    explosion: &Explosion,
    pairs: &Vec<(usize, usize)>,
    target_edge: usize,
) -> (r: Option<Vec<(usize, RoutingInstructionTarget)>>)
    requires
        forall|k: int|
            0 <= k < pairs.len() ==> (#[trigger] pairs[k]).0 < explosion.nodes.len()
                && pairs[k].1 < explosion.nodes.len(),
    ensures
        match r {
            Some(result) => forall|k: int|
                0 <= k < result.len() ==> emitted_toward(
                    *explosion,
                    target_edge as int,
                    #[trigger] result[k],
                ),
            None => true,
        },
{
    let n = explosion.nodes.len();
    let mut alive: Vec<bool> = Vec::new();
    let mut k: usize = 0;
    while k < n
        invariant
            alive.len() == k,
            k <= n,
        decreases n - k,
    {
        alive.push(false);
        k += 1;
    }
    let mut k: usize = 0;
    while k < pairs.len()
        invariant
            alive.len() == n,
            forall|j: int|
                0 <= j < pairs.len() ==> (#[trigger] pairs[j]).0 < n && pairs[j].1 < n,
        decreases pairs.len() - k,
    {
        let (a, b) = pairs[k];
        alive.set(a, true);
        alive.set(b, true);
        k += 1;
    }
    let mut alive_count: usize = 0;
    let mut k: usize = 0;
    while k < n
        invariant
            alive.len() == n,
            alive_count <= k,
            k <= n,
        decreases n - k,
    {
        if alive[k] {
            alive_count += 1;
        }
        k += 1;
    }
    let mut edge_alive: Vec<bool> = Vec::new();
    let mut k: usize = 0;
    while k < pairs.len()
        invariant
            edge_alive.len() == k,
            k <= pairs.len(),
        decreases pairs.len() - k,
    {
        edge_alive.push(true);
        k += 1;
    }
    let mut result: Vec<(usize, RoutingInstructionTarget)> = Vec::new();
    let mut fuel: usize = n;
    loop
        invariant
            n == explosion.nodes.len(),
            alive.len() == n,
            edge_alive.len() == pairs.len(),
            forall|j: int|
                0 <= j < pairs.len() ==> (#[trigger] pairs[j]).0 < n && pairs[j].1 < n,
            forall|j: int|
                0 <= j < result.len() ==> emitted_toward(
                    *explosion,
                    target_edge as int,
                    #[trigger] result[j],
                ),
        decreases fuel,
    {
        if alive_count == 0 {
            return Some(result);
        }
        if fuel == 0 {
            return None;
        }
        fuel -= 1;
        let mut progressed = false;
        let mut idx: usize = 0;
        while idx < n
            invariant
                n == explosion.nodes.len(),
                alive.len() == n,
                edge_alive.len() == pairs.len(),
                forall|j: int|
                    0 <= j < pairs.len() ==> (#[trigger] pairs[j]).0 < n && pairs[j].1 < n,
                forall|j: int|
                    0 <= j < result.len() ==> emitted_toward(
                        *explosion,
                        target_edge as int,
                        #[trigger] result[j],
                    ),
            decreases n - idx,
        {
            if alive[idx] {
                let mut degree: usize = 0;
                let mut neighbor: usize = 0;
                let mut e: usize = 0;
                while e < pairs.len()
                    invariant
                        alive.len() == n,
                        edge_alive.len() == pairs.len(),
                        degree <= e,
                        neighbor < n || degree == 0,
                        forall|j: int|
                            0 <= j < pairs.len() ==> (#[trigger] pairs[j]).0 < n && pairs[j].1
                                < n,
                    decreases pairs.len() - e,
                {
                    if edge_alive[e] {
                        let (a, b) = pairs[e];
                        if a == idx {
                            degree += 1;
                            neighbor = b;
                        } else if b == idx {
                            degree += 1;
                            neighbor = a;
                        }
                    }
                    e += 1;
                }
                let node = &explosion.nodes[idx];
                let is_target_edge = node.hyper_edges.len() == 1 && {
                    let HyperEdgeIndex(he) = node.hyper_edges[0];
                    he == target_edge
                };
                if degree == 1 && !is_target_edge {
                    if node.hyper_edges.len() == 1 {
                        let HyperEdgeIndex(he) = node.hyper_edges[0];
                        let nb = &explosion.nodes[neighbor];
                        let mut targets: Vec<usize> = Vec::new();
                        let mut m: usize = 0;
                        while m < nb.hyper_nodes.len()
                            invariant
                                neighbor < n,
                                nb == &explosion.nodes[neighbor as int],
                                targets.len() == m,
                                m <= nb.hyper_nodes.len(),
                                forall|j: int| 0 <= j < m ==> targets@[j] == nb.hyper_nodes@[j],
                            decreases nb.hyper_nodes.len() - m,
                        {
                            targets.push(nb.hyper_nodes[m]);
                            m += 1;
                        }
                        proof {
                            assert(targets@ =~= explosion.nodes[neighbor as int].hyper_nodes@);
                        }
                        let tgt = if targets.len() == 1 {
                            proof {
                                assert(explosion.nodes[neighbor as int].hyper_nodes@ =~= seq![
                                    targets@[0],
                                ]);
                            }
                            RoutingInstructionTarget::Single(targets[0])
                        } else {
                            RoutingInstructionTarget::Multiple(targets)
                        };
                        let step = (he, tgt);
                        proof {
                            assert(explosion.nodes[idx as int].hyper_edges@[0].0 == he);
                            assert(he != target_edge);
                            assert(emitted_toward(*explosion, target_edge as int, step));
                        }
                        result.push(step);
                    }
                    alive.set(idx, false);
                    if alive_count == 0 {
                        return None;
                    }
                    alive_count -= 1;
                    let mut e: usize = 0;
                    while e < pairs.len()
                        invariant
                            alive.len() == n,
                            edge_alive.len() == pairs.len(),
                            idx < n,
                            forall|j: int|
                                0 <= j < pairs.len() ==> (#[trigger] pairs[j]).0 < n
                                    && pairs[j].1 < n,
                        decreases pairs.len() - e,
                    {
                        let (a, b) = pairs[e];
                        if a == idx || b == idx {
                            edge_alive.set(e, false);
                        }
                        e += 1;
                    }
                    progressed = true;
                } else if degree == 0 {
                    if node.hyper_edges.len() == 1 {
                        let HyperEdgeIndex(he) = node.hyper_edges[0];
                        if he != target_edge {
                            return None;
                        }
                    }
                    alive.set(idx, false);
                    if alive_count == 0 {
                        return None;
                    }
                    alive_count -= 1;
                    progressed = true;
                }
            }
            idx += 1;
        }
        if !progressed && alive_count > 0 {
            return None;
        }
    }
}

} // verus!
