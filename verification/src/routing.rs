//! Gravity-Pressure routing: the network graph and the routing vocabulary.

use vstd::prelude::*;

use crate::baselines::ids_of;
use crate::coordinates::{holds_id, NodeId, RoutingCoordinate};
use crate::hashing::id_bytes;
use crate::ordering::{bytes_lt, lex_lt};

pub mod dfs_reach;

verus! {

/// Routing mode for the GP algorithm
#[derive(Debug, Clone, Copy, PartialEq, Eq, Structural)]
pub enum RoutingMode {
    /// Greedy mode: forward to neighbor closest to destination
    Gravity,
    /// Recovery mode: use pressure to escape local minimum
    Pressure,
    /// Tree mode: use spanning tree structure for guaranteed delivery (DFS fallback)
    Tree,
    /// Thorup-Zwick mode: use precomputed routing table with stretch <= 3 guarantee
    ThorupZwick,
    /// HYPER-PRESS mode: H^2 hyperbolic coordinates + Laplacian potential
    HyperPress,
}

/// Result of a routing decision
#[derive(Debug, Clone)]
pub enum RoutingDecision {
    /// Forward packet to specified next hop
    Forward { next_hop: NodeId, mode: RoutingMode },
    /// Packet has reached destination
    Delivered,
    /// Routing failed (should not happen in connected graph with sufficient TTL)
    Failed { reason: String },
}

/// A sequence of identifiers without repetition.
pub open spec fn distinct_ids(s: Seq<Seq<char>>) -> bool {
    forall|i: int, j: int| 0 <= i < j < s.len() ==> s[i] != s[j]
}

/// A node in the routing network
#[derive(Debug, Clone)]
pub struct RoutingNode {
    pub id: NodeId,
    pub coord: RoutingCoordinate,
    pub neighbors: Vec<NodeId>,
    /// Tree parent (from PIE embedding spanning tree)
    pub tree_parent: Option<NodeId>,
    /// Tree children (from PIE embedding spanning tree)
    pub tree_children: Vec<NodeId>,
}

impl RoutingNode {
    /// The identifiers of the node's neighbors, in the order they were added.
    pub open spec fn neighbor_ids(&self) -> Seq<Seq<char>> {
        ids_of(self.neighbors@)
    }

    /// A node with no neighbors and no place in a spanning tree.
    pub fn new(id: NodeId, coord: RoutingCoordinate) -> (r: Self)
        ensures
            r.id == id,
            r.coord == coord,
            r.neighbors@.len() == 0,
            r.tree_parent is None,
            r.tree_children@.len() == 0,
    {
        RoutingNode { id, coord, neighbors: Vec::new(), tree_parent: None, tree_children: Vec::new() }
    }

    /// Adds `neighbor` unless it is a neighbor already.
    pub fn add_neighbor(&mut self, neighbor: NodeId)
        ensures
            final(self).id == old(self).id,
            final(self).coord == old(self).coord,
            final(self).tree_parent == old(self).tree_parent,
            final(self).tree_children == old(self).tree_children,
            old(self).neighbor_ids().contains(neighbor@) ==> final(self).neighbors@ == old(self).neighbors@,
            !old(self).neighbor_ids().contains(neighbor@) ==> final(self).neighbors@ == old(self).neighbors@.push(neighbor),
            final(self).neighbor_ids().contains(neighbor@),
            distinct_ids(old(self).neighbor_ids()) ==> distinct_ids(final(self).neighbor_ids()),
    {
        let mut i: usize = 0;
        while i < self.neighbors.len()
            invariant
                i <= self.neighbors.len(),
                self.neighbors@ == old(self).neighbors@,
                *self == *old(self),
                forall|j: int| 0 <= j < i ==> self.neighbors@[j]@ != neighbor@,
            decreases self.neighbors.len() - i,
        {
            if self.neighbors[i] == neighbor {
                assert(self.neighbor_ids()[i as int] == neighbor@);
                return;
            }
            i = i + 1;
        }
        proof {
            if self.neighbor_ids().contains(neighbor@) {
                let j = choose|j: int| 0 <= j < self.neighbor_ids().len() && self.neighbor_ids()[j] == neighbor@;
                assert(self.neighbors@[j]@ == neighbor@);
            }
        }
        let ghost before = self.neighbor_ids();
        let ghost nv = neighbor@;
        self.neighbors.push(neighbor);
        assert(self.neighbor_ids() =~= before.push(nv));
        assert(self.neighbor_ids()[before.len() as int] == nv);
    }

    /// Set tree structure information
    pub fn set_tree_info(&mut self, parent: Option<NodeId>, children: Vec<NodeId>)
        ensures
            final(self).id == old(self).id,
            final(self).coord == old(self).coord,
            final(self).neighbors == old(self).neighbors,
            final(self).tree_parent == parent,
            final(self).tree_children == children,
    {
        self.tree_parent = parent;
        self.tree_children = children;
    }

    /// The number of neighbors.
    pub fn degree(&self) -> (r: usize)
        ensures
            r == self.neighbors@.len(),
    {
        self.neighbors.len()
    }
}


/// Where the node with identifier `id` is stored.
pub open spec fn node_index(nodes: Seq<RoutingNode>, id: Seq<char>) -> Option<int>
    decreases nodes.len(),
{
    if nodes.len() == 0 {
        None
    } else if nodes.last().id@ == id {
        Some(nodes.len() - 1)
    } else {
        node_index(nodes.drop_last(), id)
    }
}

/// No two stored nodes share an identifier.
pub open spec fn unique_nodes(nodes: Seq<RoutingNode>) -> bool {
    forall|i: int, j: int|
        0 <= i < nodes.len() && 0 <= j < nodes.len() && i != j ==> (#[trigger] nodes[i]).id@
            != (#[trigger] nodes[j]).id@
}

/// `s` with `x` appended unless it holds it already.
pub open spec fn add_id(s: Seq<Seq<char>>, x: Seq<char>) -> Seq<Seq<char>> {
    if s.contains(x) {
        s
    } else {
        s.push(x)
    }
}

/// `after` is `before` with a link from `a` to `b` and one from `b` to `a`, each added
/// at its end where that end is a node of the network and lacks it; nothing else
/// changes.
pub open spec fn with_edge(before: Seq<RoutingNode>, after: Seq<RoutingNode>, a: Seq<char>, b: Seq<char>) -> bool {
    &&& after.len() == before.len()
    &&& forall|k: int|
        0 <= k < before.len() ==> {
            let now = #[trigger] after[k];
            let was = before[k];
            let once = if node_index(before, a) == Some(k) {
                add_id(was.neighbor_ids(), b)
            } else {
                was.neighbor_ids()
            };
            &&& now.id == was.id
            &&& now.coord == was.coord
            &&& now.tree_parent == was.tree_parent
            &&& now.tree_children == was.tree_children
            &&& now.neighbor_ids() == if node_index(before, b) == Some(k) {
                add_id(once, a)
            } else {
                once
            }
        }
}

/// The sum of the degrees of the nodes.
pub open spec fn total_degree(nodes: Seq<RoutingNode>) -> nat
    decreases nodes.len(),
{
    if nodes.len() == 0 {
        0
    } else {
        total_degree(nodes.drop_last()) + nodes.last().neighbors@.len()
    }
}

/// Byte order on identifiers, as `String` compares them.
pub open spec fn id_lt(a: Seq<char>, b: Seq<char>) -> bool {
    lex_lt(id_bytes(a), id_bytes(b))
}

/// The edges `(a, b)` of one node with `a < b`, in neighbor order.
pub open spec fn node_edges(id: Seq<char>, nbrs: Seq<Seq<char>>) -> Seq<(Seq<char>, Seq<char>)>
    decreases nbrs.len(),
{
    if nbrs.len() == 0 {
        Seq::empty()
    } else {
        let rest = node_edges(id, nbrs.drop_last());
        if id_lt(id, nbrs.last()) {
            rest.push((id, nbrs.last()))
        } else {
            rest
        }
    }
}

/// Each undirected edge once, listed from its smaller end, node by node.
pub open spec fn graph_edges(nodes: Seq<RoutingNode>) -> Seq<(Seq<char>, Seq<char>)>
    decreases nodes.len(),
{
    if nodes.len() == 0 {
        Seq::empty()
    } else {
        graph_edges(nodes.drop_last()) + node_edges(nodes.last().id@, nodes.last().neighbor_ids())
    }
}

/// An element of two sequences joined is an element of one of them.
proof fn lemma_concat_contains<A>(x: Seq<A>, y: Seq<A>, e: A)
    ensures
        (x + y).contains(e) <==> x.contains(e) || y.contains(e),
{
    if (x + y).contains(e) {
        let k = choose|k: int| 0 <= k < (x + y).len() && (x + y)[k] == e;
        if k < x.len() {
            assert(x[k] == e);
        } else {
            assert(y[k - x.len()] == e);
        }
    }
    if x.contains(e) {
        let k = choose|k: int| 0 <= k < x.len() && x[k] == e;
        assert((x + y)[k] == e);
    }
    if y.contains(e) {
        let k = choose|k: int| 0 <= k < y.len() && y[k] == e;
        assert((x + y)[k + x.len()] == e);
    }
}

/// One node's edges are its links to neighbors that come after it in byte order.
proof fn lemma_node_edges_contains(id: Seq<char>, nbrs: Seq<Seq<char>>, a: Seq<char>, b: Seq<char>)
    ensures
        node_edges(id, nbrs).contains((a, b)) <==> (a == id && nbrs.contains(b) && id_lt(id, b)),
    decreases nbrs.len(),
{
    if nbrs.len() > 0 {
        let rest = nbrs.drop_last();
        let last = nbrs.last();
        lemma_node_edges_contains(id, rest, a, b);
        let re = node_edges(id, rest);
        if id_lt(id, last) {
            assert(re.push((id, last)) =~= re + seq![(id, last)]);
            lemma_concat_contains(re, seq![(id, last)], (a, b));
            assert(seq![(id, last)].contains((a, b)) <==> (a == id && b == last)) by {
                if a == id && b == last {
                    assert(seq![(id, last)][0] == (a, b));
                }
            }
        }
        assert(nbrs =~= rest.push(last));
        assert(rest.push(last) =~= rest + seq![last]);
        lemma_concat_contains(rest, seq![last], b);
        assert(seq![last].contains(b) <==> b == last) by {
            if b == last {
                assert(seq![last][0] == b);
            }
        }
    } else {
        assert(!nbrs.contains(b));
    }
}

/// The edge list holds each link from its smaller end, and nothing else: a pair
/// `(a, b)` is listed exactly when a node of the network with identifier `a` has `b`
/// as a neighbor and `a` comes before `b` in byte order.
pub proof fn lemma_graph_edges_are_links(nodes: Seq<RoutingNode>, a: Seq<char>, b: Seq<char>)
    ensures
        graph_edges(nodes).contains((a, b)) <==> exists|i: int|
            0 <= i < nodes.len() && (#[trigger] nodes[i]).id@ == a && nodes[i].neighbor_ids().contains(b) && id_lt(a, b),
    decreases nodes.len(),
{
    if nodes.len() > 0 {
        let rest = nodes.drop_last();
        let last = nodes.last();
        lemma_graph_edges_are_links(rest, a, b);
        lemma_concat_contains(graph_edges(rest), node_edges(last.id@, last.neighbor_ids()), (a, b));
        lemma_node_edges_contains(last.id@, last.neighbor_ids(), a, b);
        if graph_edges(nodes).contains((a, b)) {
            if graph_edges(rest).contains((a, b)) {
                let i = choose|i: int|
                    0 <= i < rest.len() && (#[trigger] rest[i]).id@ == a && rest[i].neighbor_ids().contains(b) && id_lt(a, b);
                assert(nodes[i] == rest[i]);
            } else {
                assert(nodes[nodes.len() - 1] == last);
            }
        }
        if exists|i: int| 0 <= i < nodes.len() && (#[trigger] nodes[i]).id@ == a && nodes[i].neighbor_ids().contains(b) && id_lt(a, b) {
            let i = choose|i: int|
                0 <= i < nodes.len() && (#[trigger] nodes[i]).id@ == a && nodes[i].neighbor_ids().contains(b) && id_lt(a, b);
            if i < nodes.len() - 1 {
                assert(rest[i] == nodes[i]);
            }
        }
    }
}

/// The graph that the GP router routes over: one routing node per identifier.
pub struct GPRouter {
    /// All nodes in the network
    nodes: Vec<RoutingNode>,
}

impl View for GPRouter {
    type V = Seq<RoutingNode>;

    closed spec fn view(&self) -> Seq<RoutingNode> {
        self.nodes@
    }
}

impl GPRouter {
    /// The invariant of the graph.
    pub open spec fn wf(&self) -> bool {
        unique_nodes(self@)
    }

    /// An empty network.
    pub fn new() -> (r: Self)
        ensures
            r.wf(),
            r@ == Seq::<RoutingNode>::empty(),
    {
        let r = GPRouter { nodes: Vec::new() };
        assert(r@ =~= Seq::<RoutingNode>::empty());
        r
    }

    /// Where the node with identifier `id` is stored.
    fn index_of(&self, id: &NodeId) -> (r: Option<usize>)
        ensures
            r matches Some(i) ==> node_index(self@, id@) == Some(i as int) && i < self@.len() && self@[i as int].id@ == id@,
            r is None ==> node_index(self@, id@) is None,
    {
        let mut i = self.nodes.len();
        assert(self@.take(i as int) =~= self@);
        while i > 0
            invariant
                i <= self.nodes.len(),
                node_index(self@, id@) == node_index(self@.take(i as int), id@),
            decreases i,
        {
            if self.nodes[i - 1].id == *id {
                return Some(i - 1);
            }
            assert(self@.take(i as int).drop_last() =~= self@.take(i - 1));
            i = i - 1;
        }
        assert(self@.take(0) =~= Seq::<RoutingNode>::empty());
        None
    }

    /// Add a node to the network, replacing any node with the same identifier.
    pub fn add_node(&mut self, node: RoutingNode)
        requires
            old(self).wf(),
        ensures
            final(self).wf(),
            final(self)@ == (match node_index(old(self)@, node.id@) {
                Some(i) => old(self)@.update(i, node),
                None => old(self)@.push(node),
            }),
    {
        match self.index_of(&node.id) {
            Some(i) => {
                self.nodes.set(i, node);
            },
            None => {
                proof {
                    lemma_node_index_absent(self@, node.id@);
                }
                self.nodes.push(node);
            },
        }
    }

    /// Add a bidirectional edge between two nodes; an endpoint that is not in the
    /// network is left out.
    pub fn add_edge(&mut self, node1: &NodeId, node2: &NodeId)
        requires
            old(self).wf(),
        ensures
            final(self).wf(),
            with_edge(old(self)@, final(self)@, node1@, node2@),
            node_index(old(self)@, node1@) matches Some(i) ==> final(self)@[i].neighbor_ids().contains(node2@),
            node_index(old(self)@, node2@) matches Some(j) ==> final(self)@[j].neighbor_ids().contains(node1@),
    {
        let ghost n0 = self@;
        let i1 = self.index_of(node1);
        match i1 {
            Some(i) => {
                let nb = node2.clone();
                self.nodes[i].add_neighbor(nb);
                proof {
                    if !n0[i as int].neighbor_ids().contains(node2@) {
                        assert(self@[i as int].neighbor_ids() =~= n0[i as int].neighbor_ids().push(node2@));
                    }
                    assert(self@[i as int].neighbor_ids() == add_id(n0[i as int].neighbor_ids(), node2@));
                }
            },
            None => {},
        }
        let ghost n1 = self@;
        assert(unique_nodes(n1)) by {
            assert forall|a: int, b: int| 0 <= a < n1.len() && 0 <= b < n1.len() && a != b implies (#[trigger] n1[a]).id@
                != (#[trigger] n1[b]).id@ by {
                assert(n1[a].id == n0[a].id);
                assert(n1[b].id == n0[b].id);
            }
        }
        let i2 = self.index_of(node2);
        proof {
            lemma_node_index_same_ids(n0, n1, node2@);
        }
        match i2 {
            Some(j) => {
                let nb = node1.clone();
                self.nodes[j].add_neighbor(nb);
                proof {
                    if !n1[j as int].neighbor_ids().contains(node1@) {
                        assert(self@[j as int].neighbor_ids() =~= n1[j as int].neighbor_ids().push(node1@));
                    }
                    assert(self@[j as int].neighbor_ids() == add_id(n1[j as int].neighbor_ids(), node1@));
                }
            },
            None => {},
        }
        let ghost n2 = self@;
        assert forall|a: int, b: int| 0 <= a < n2.len() && 0 <= b < n2.len() && a != b implies (#[trigger] n2[a]).id@
            != (#[trigger] n2[b]).id@ by {
            assert(n2[a].id == n1[a].id);
            assert(n2[b].id == n1[b].id);
        }
        proof {
            broadcast use vstd::seq_lib::lemma_seq_contains_after_push;
            lemma_node_index_found(n0, node1@);
            lemma_node_index_found(n0, node2@);
        }
    }

    /// Get a node by ID
    pub fn get_node(&self, id: &NodeId) -> (r: Option<&RoutingNode>)
        ensures
            match node_index(self@, id@) {
                Some(i) => r == Some(&self@[i]),
                None => r is None,
            },
    {
        match self.index_of(id) {
            Some(i) => Some(&self.nodes[i]),
            None => None,
        }
    }

    /// Get total number of nodes
    pub fn node_count(&self) -> (r: usize)
        ensures
            r == self@.len(),
    {
        self.nodes.len()
    }

    /// Get total number of edges: half the sum of the degrees.
    pub fn edge_count(&self) -> (r: usize)
        requires
            total_degree(self@) <= usize::MAX,
        ensures
            r == total_degree(self@) / 2,
    {
        let mut sum: usize = 0;
        let mut i: usize = 0;
        assert(self@.take(0) =~= Seq::<RoutingNode>::empty());
        while i < self.nodes.len()
            invariant
                i <= self.nodes.len(),
                total_degree(self@) <= usize::MAX,
                sum == total_degree(self@.take(i as int)),
            decreases self.nodes.len() - i,
        {
            assert(self@.take(i + 1).drop_last() =~= self@.take(i as int));
            proof {
                lemma_total_degree_prefix(self@, i as int + 1);
            }
            sum = sum + self.nodes[i].neighbors.len();
            i = i + 1;
        }
        assert(self@.take(i as int) =~= self@);
        sum / 2
    }

    /// Get all node IDs
    pub fn node_ids(&self) -> (r: Vec<NodeId>)
        ensures
            ids_of(r@) == self@.map_values(|n: RoutingNode| n.id@),
    {
        let mut out: Vec<NodeId> = Vec::new();
        let mut i: usize = 0;
        while i < self.nodes.len()
            invariant
                i <= self.nodes.len(),
                ids_of(out@) == self@.take(i as int).map_values(|n: RoutingNode| n.id@),
            decreases self.nodes.len() - i,
        {
            let ghost before = ids_of(out@);
            let id = self.nodes[i].id.clone();
            out.push(id);
            assert(ids_of(out@) =~= before.push(id@));
            i = i + 1;
            assert(ids_of(out@) =~= self@.take(i as int).map_values(|n: RoutingNode| n.id@));
        }
        assert(self@.take(i as int) =~= self@);
        out
    }

    /// Get all edges as (NodeId, NodeId) pairs, each from its smaller end.
    pub fn get_edges(&self) -> (r: Vec<(NodeId, NodeId)>)
        ensures
            r@.map_values(|e: (NodeId, NodeId)| (e.0@, e.1@)) == graph_edges(self@),
    {
        let mut edges: Vec<(NodeId, NodeId)> = Vec::new();
        let mut i: usize = 0;
        assert(self@.take(0) =~= Seq::<RoutingNode>::empty());
        while i < self.nodes.len()
            invariant
                i <= self.nodes.len(),
                edges@.map_values(|e: (NodeId, NodeId)| (e.0@, e.1@)) == graph_edges(self@.take(i as int)),
            decreases self.nodes.len() - i,
        {
            let node = &self.nodes[i];
            let ghost done = graph_edges(self@.take(i as int));
            let ghost nb = node.neighbor_ids();
            let mut j: usize = 0;
            assert(nb.take(0) =~= Seq::<Seq<char>>::empty());
            assert(done + node_edges(node.id@, nb.take(0)) =~= done);
            while j < node.neighbors.len()
                invariant
                    j <= node.neighbors.len(),
                    nb == node.neighbor_ids(),
                    edges@.map_values(|e: (NodeId, NodeId)| (e.0@, e.1@)) == done + node_edges(node.id@, nb.take(j as int)),
                decreases node.neighbors.len() - j,
            {
                let neighbor = &node.neighbors[j];
                assert(nb.take(j + 1).drop_last() =~= nb.take(j as int));
                assert(nb.take(j + 1).last() == neighbor@);
                if bytes_lt(node.id.0.as_str().as_bytes(), neighbor.0.as_str().as_bytes()) {
                    let ghost before = edges@.map_values(|e: (NodeId, NodeId)| (e.0@, e.1@));
                    let a = node.id.clone();
                    let b = neighbor.clone();
                    edges.push((a, b));
                    assert(edges@.map_values(|e: (NodeId, NodeId)| (e.0@, e.1@)) =~= before.push((node.id@, neighbor@)));
                }
                j = j + 1;
            }
            assert(nb.take(j as int) =~= nb);
            assert(self@.take(i + 1).drop_last() =~= self@.take(i as int));
            i = i + 1;
        }
        assert(self@.take(i as int) =~= self@);
        edges
    }
}

impl Default for GPRouter {
    fn default() -> (r: Self)
        ensures
            r.wf(),
            r@ == Seq::<RoutingNode>::empty(),
    {
        GPRouter::new()
    }
}

/// The lookup fails only on identifiers that no node has.
pub proof fn lemma_node_index_absent(nodes: Seq<RoutingNode>, id: Seq<char>)
    ensures
        node_index(nodes, id) is None ==> forall|i: int| 0 <= i < nodes.len() ==> (#[trigger] nodes[i]).id@ != id,
    decreases nodes.len(),
{
    if nodes.len() > 0 && nodes.last().id@ != id {
        lemma_node_index_absent(nodes.drop_last(), id);
        assert forall|i: int| 0 <= i < nodes.len() - 1 implies nodes[i] == nodes.drop_last()[i] by {}
    }
}

/// What the lookup finds is in range and carries the identifier.
pub proof fn lemma_node_index_found(nodes: Seq<RoutingNode>, id: Seq<char>)
    ensures
        node_index(nodes, id) matches Some(i) ==> 0 <= i < nodes.len() && nodes[i].id@ == id,
    decreases nodes.len(),
{
    if nodes.len() > 0 && nodes.last().id@ != id {
        lemma_node_index_found(nodes.drop_last(), id);
    }
}

/// The lookup depends on the identifiers alone.
pub proof fn lemma_node_index_same_ids(a: Seq<RoutingNode>, b: Seq<RoutingNode>, id: Seq<char>)
    requires
        a.len() == b.len(),
        forall|k: int| 0 <= k < a.len() ==> (#[trigger] a[k]).id == b[k].id,
    ensures
        node_index(a, id) == node_index(b, id),
    decreases a.len(),
{
    if a.len() > 0 {
        assert(a.last().id == b.last().id);
        lemma_node_index_same_ids(a.drop_last(), b.drop_last(), id);
    }
}

/// A prefix's degree sum is at most the whole sum.
pub proof fn lemma_total_degree_prefix(nodes: Seq<RoutingNode>, n: int)
    requires
        0 <= n <= nodes.len(),
    ensures
        total_degree(nodes.take(n)) <= total_degree(nodes),
    decreases nodes.len(),
{
    if n < nodes.len() {
        assert(nodes.drop_last().take(n) =~= nodes.take(n));
        lemma_total_degree_prefix(nodes.drop_last(), n);
    } else {
        assert(nodes.take(n) =~= nodes);
    }
}

/// Result of a packet delivery simulation
#[derive(Debug, Clone)]
pub struct DeliveryResult {
    pub success: bool,
    pub hops: u32,
    pub gravity_hops: u32,
    pub pressure_hops: u32,
    pub tree_hops: u32,
    pub path: Vec<NodeId>,
    pub failure_reason: Option<String>,
}


/// A routing decision as the contracts see it.
pub enum DecisionView {
    Forward { next_hop: Seq<char>, mode: RoutingMode },
    Delivered,
    Failed { reason: Seq<char> },
}

impl View for RoutingDecision {
    type V = DecisionView;

    open spec fn view(&self) -> DecisionView {
        match self {
            RoutingDecision::Forward { next_hop, mode } => DecisionView::Forward { next_hop: next_hop@, mode: *mode },
            RoutingDecision::Delivered => DecisionView::Delivered,
            RoutingDecision::Failed { reason } => DecisionView::Failed { reason: reason@ },
        }
    }
}

/// An optional decision as the contracts see it.
pub open spec fn decision_of(d: Option<RoutingDecision>) -> Option<DecisionView> {
    match d {
        Some(x) => Some(x@),
        None => None,
    }
}

/// The decision at node `current` that comes before any use of coordinates: delivered
/// at the destination; else failed when no hops are left, or when the node is not in
/// the network; otherwise none, and the coordinates decide.
pub open spec fn settled_at(nodes: Seq<RoutingNode>, current: Seq<char>, destination: Seq<char>, ttl: u32) -> Option<DecisionView> {
    if current == destination {
        Some(DecisionView::Delivered)
    } else if ttl == 0 {
        Some(DecisionView::Failed { reason: "TTL expired at node "@ + current })
    } else if node_index(nodes, current) is None {
        Some(DecisionView::Failed { reason: "Node "@ + current + " not found"@ })
    } else {
        None
    }
}

impl GPRouter {
    /// The decision for a packet at `current` bound for `destination` with `ttl` hops
    /// left, where it needs no coordinates: arrival, an exhausted hop budget (checked
    /// after arrival, so that a packet that arrives with none left is delivered), or an
    /// unknown node. A node is written by its identifier in the reason.
    pub fn early_decision(&self, current: &NodeId, destination: &NodeId, ttl: u32) -> (r: Option<RoutingDecision>)
        ensures
            decision_of(r) == settled_at(self@, current@, destination@, ttl),
    {
        if *current == *destination {
            return Some(RoutingDecision::Delivered);
        }
        if ttl == 0 {
            let mut reason = "TTL expired at node ".to_owned();
            reason.append(current.0.as_str());
            return Some(RoutingDecision::Failed { reason });
        }
        if self.index_of(current).is_none() {
            let mut reason = "Node ".to_owned();
            reason.append(current.0.as_str());
            reason.append(" not found");
            return Some(RoutingDecision::Failed { reason });
        }
        None
    }
}

/// A delivery under way: where the packet is, the path it took, the hops it made in
/// each mode, and the hops it has left.
pub struct DeliveryProgress {
    current: NodeId,
    path: Vec<NodeId>,
    hops: u32,
    gravity_hops: u32,
    pressure_hops: u32,
    tree_hops: u32,
    ttl: u32,
}

/// A delivery under way as the contracts see it.
pub struct ProgressView {
    pub current: Seq<char>,
    pub path: Seq<Seq<char>>,
    pub hops: u32,
    pub gravity_hops: u32,
    pub pressure_hops: u32,
    pub tree_hops: u32,
    pub ttl: u32,
}

impl View for DeliveryProgress {
    type V = ProgressView;

    closed spec fn view(&self) -> ProgressView {
        ProgressView {
            current: self.current@,
            path: ids_of(self.path@),
            hops: self.hops,
            gravity_hops: self.gravity_hops,
            pressure_hops: self.pressure_hops,
            tree_hops: self.tree_hops,
            ttl: self.ttl,
        }
    }
}

/// The invariant of a delivery under way: the path ends where the packet is and holds
/// one node more than the hops made, the hops in each mode add up to the hops made,
/// and the hops made and left fit in a `u32` together.
pub open spec fn progress_wf(p: ProgressView) -> bool {
    &&& p.path.len() == p.hops + 1
    &&& p.path.last() == p.current
    &&& p.gravity_hops + p.pressure_hops + p.tree_hops == p.hops
    &&& p.hops + p.ttl <= u32::MAX
}

/// The delivery after one hop to `next` in mode `mode`: Thorup-Zwick hops count as
/// tree hops and HYPER-PRESS hops as gravity hops.
pub open spec fn moved(p: ProgressView, next: Seq<char>, mode: RoutingMode) -> ProgressView {
    ProgressView {
        current: next,
        path: p.path.push(next),
        hops: (p.hops + 1) as u32,
        gravity_hops: if mode == RoutingMode::Gravity || mode == RoutingMode::HyperPress {
            (p.gravity_hops + 1) as u32
        } else {
            p.gravity_hops
        },
        pressure_hops: if mode == RoutingMode::Pressure {
            (p.pressure_hops + 1) as u32
        } else {
            p.pressure_hops
        },
        tree_hops: if mode == RoutingMode::Tree || mode == RoutingMode::ThorupZwick {
            (p.tree_hops + 1) as u32
        } else {
            p.tree_hops
        },
        ttl: (p.ttl - 1) as u32,
    }
}

/// `res` reports the delivery `p` as ended: delivered when `failure` is none, else
/// failed for that reason.
pub open spec fn finished(res: DeliveryResult, p: ProgressView, failure: Option<Seq<char>>) -> bool {
    &&& res.success == (failure is None)
    &&& res.hops == p.hops
    &&& res.gravity_hops == p.gravity_hops
    &&& res.pressure_hops == p.pressure_hops
    &&& res.tree_hops == p.tree_hops
    &&& ids_of(res.path@) == p.path
    &&& match (res.failure_reason, failure) {
        (None, None) => true,
        (Some(text), Some(reason)) => text@ == reason,
        _ => false,
    }
}

/// A hop spends one of the hops left and keeps the delivery's invariant: the hops
/// made and left always add up to what the delivery started with, so a delivery makes
/// at most that many hops.
pub proof fn lemma_hop_spends_budget(p: ProgressView, next: Seq<char>, mode: RoutingMode)
    requires
        progress_wf(p),
        p.ttl > 0,
    ensures
        progress_wf(moved(p, next, mode)),
        moved(p, next, mode).hops + moved(p, next, mode).ttl == p.hops + p.ttl,
        moved(p, next, mode).path.drop_last() == p.path,
{
    assert(moved(p, next, mode).path.drop_last() =~= p.path);
}

/// Copies a path.
fn copy_path(v: &Vec<NodeId>) -> (r: Vec<NodeId>)
    ensures
        ids_of(r@) == ids_of(v@),
{
    let mut out: Vec<NodeId> = Vec::new();
    let mut i: usize = 0;
    while i < v.len()
        invariant
            i <= v.len(),
            ids_of(out@) == ids_of(v@).take(i as int),
        decreases v.len() - i,
    {
        let ghost before = ids_of(out@);
        out.push(v[i].clone());
        assert(ids_of(out@) =~= before.push(v@[i as int]@));
        i = i + 1;
        assert(ids_of(out@) =~= ids_of(v@).take(i as int));
    }
    assert(ids_of(v@).take(i as int) =~= ids_of(v@));
    out
}

impl DeliveryProgress {
    /// The invariant of the delivery.
    pub closed spec fn wf(&self) -> bool {
        progress_wf(self@)
    }

    /// A delivery that starts at `source` with `max_ttl` hops allowed.
    pub fn start(source: &NodeId, max_ttl: u32) -> (r: Self)
        ensures
            r.wf(),
            r@ == (ProgressView {
                current: source@,
                path: seq![source@],
                hops: 0,
                gravity_hops: 0,
                pressure_hops: 0,
                tree_hops: 0,
                ttl: max_ttl,
            }),
    {
        let mut path: Vec<NodeId> = Vec::new();
        path.push(source.clone());
        let r = DeliveryProgress {
            current: source.clone(),
            path,
            hops: 0,
            gravity_hops: 0,
            pressure_hops: 0,
            tree_hops: 0,
            ttl: max_ttl,
        };
        assert(r@.path =~= seq![source@]);
        r
    }

    /// Where the packet is.
    pub fn current(&self) -> (r: &NodeId)
        ensures
            r@ == self@.current,
    {
        &self.current
    }

    /// The hops the packet has left.
    pub fn ttl(&self) -> (r: u32)
        ensures
            r == self@.ttl,
    {
        self.ttl
    }

    /// Takes the decision made where the packet is: on a forward the packet makes the
    /// hop and the delivery goes on (none is returned); on arrival or failure the
    /// delivery ends and its result is returned. A forward needs a hop left, which the
    /// router's early decision guarantees.
    pub fn advance(&mut self, decision: RoutingDecision) -> (r: Option<DeliveryResult>)
        requires
            old(self).wf(),
            decision is Forward ==> old(self)@.ttl > 0,
        ensures
            final(self).wf(),
            match decision@ {
                DecisionView::Delivered => r matches Some(res) && finished(res, old(self)@, None) && final(self)@ == old(self)@,
                DecisionView::Failed { reason } => r matches Some(res) && finished(res, old(self)@, Some(reason))
                    && final(self)@ == old(self)@,
                DecisionView::Forward { next_hop, mode } => r is None && final(self)@ == moved(old(self)@, next_hop, mode),
            },
            r matches Some(res) ==> res.gravity_hops + res.pressure_hops + res.tree_hops == res.hops && res.path@.len()
                == res.hops + 1,
    {
        match decision {
            RoutingDecision::Delivered => Some(DeliveryResult {
                success: true,
                hops: self.hops,
                gravity_hops: self.gravity_hops,
                pressure_hops: self.pressure_hops,
                tree_hops: self.tree_hops,
                path: copy_path(&self.path),
                failure_reason: None,
            }),
            RoutingDecision::Failed { reason } => Some(DeliveryResult {
                success: false,
                hops: self.hops,
                gravity_hops: self.gravity_hops,
                pressure_hops: self.pressure_hops,
                tree_hops: self.tree_hops,
                path: copy_path(&self.path),
                failure_reason: Some(reason),
            }),
            RoutingDecision::Forward { next_hop, mode } => {
                let ghost before = self@;
                self.hops = self.hops + 1;
                self.ttl = self.ttl - 1;
                match mode {
                    RoutingMode::Gravity => self.gravity_hops = self.gravity_hops + 1,
                    RoutingMode::Pressure => self.pressure_hops = self.pressure_hops + 1,
                    RoutingMode::Tree => self.tree_hops = self.tree_hops + 1,
                    RoutingMode::ThorupZwick => self.tree_hops = self.tree_hops + 1,
                    RoutingMode::HyperPress => self.gravity_hops = self.gravity_hops + 1,
                }
                self.path.push(next_hop.clone());
                self.current = next_hop;
                assert(self@.path =~= before.path.push(self@.current));
                None
            },
        }
    }
}

/// Whether `a` is a node of the network that lists `b` as a neighbor: a packet at `a`
/// can move to `b`.
pub open spec fn links(nodes: Seq<RoutingNode>, a: Seq<char>, b: Seq<char>) -> bool {
    match node_index(nodes, a) {
        Some(i) => nodes[i].neighbor_ids().contains(b),
        None => false,
    }
}

/// The first of `nbrs` that links to `target`.
pub open spec fn first_relay(nodes: Seq<RoutingNode>, nbrs: Seq<Seq<char>>, target: Seq<char>) -> Option<Seq<char>>
    decreases nbrs.len(),
{
    if nbrs.len() == 0 {
        None
    } else if links(nodes, nbrs[0], target) {
        Some(nbrs[0])
    } else {
        first_relay(nodes, nbrs.drop_first(), target)
    }
}

/// The step toward a waypoint `target` from a node with neighbors `nbrs`: straight to
/// it when it is a neighbor, else to the first neighbor that has it as a neighbor,
/// else to the first neighbor; none from a node without neighbors.
pub open spec fn toward_node(nodes: Seq<RoutingNode>, nbrs: Seq<Seq<char>>, target: Seq<char>) -> Option<DecisionView> {
    if nbrs.contains(target) {
        Some(DecisionView::Forward { next_hop: target, mode: RoutingMode::ThorupZwick })
    } else {
        match first_relay(nodes, nbrs, target) {
            Some(n) => Some(DecisionView::Forward { next_hop: n, mode: RoutingMode::ThorupZwick }),
            None => if nbrs.len() > 0 {
                Some(DecisionView::Forward { next_hop: nbrs[0], mode: RoutingMode::ThorupZwick })
            } else {
                None
            },
        }
    }
}

/// Where `id` first occurs in `path`.
pub open spec fn first_position(path: Seq<Seq<char>>, id: Seq<char>) -> Option<int>
    decreases path.len(),
{
    if path.len() == 0 {
        None
    } else if path[0] == id {
        Some(0)
    } else {
        match first_position(path.drop_first(), id) {
            Some(i) => Some(i + 1),
            None => None,
        }
    }
}

/// A path whose first `k` entries differ from `id` has its first `id` at `k`, if any.
proof fn lemma_first_position_at(path: Seq<Seq<char>>, id: Seq<char>, k: int)
    requires
        0 <= k <= path.len(),
        forall|j: int| 0 <= j < k ==> path[j] != id,
    ensures
        k == path.len() ==> first_position(path, id) is None,
        k < path.len() && path[k] == id ==> first_position(path, id) == Some(k),
    decreases k,
{
    if path.len() > 0 && k > 0 {
        assert forall|j: int| 0 <= j < k - 1 implies path.drop_first()[j] != id by {
            assert(path.drop_first()[j] == path[j + 1]);
        }
        lemma_first_position_at(path.drop_first(), id, k - 1);
    }
}

/// One step along a precomputed path of waypoints from node `current` with neighbors
/// `nbrs`, the packet's place on the path having been `index`: the place becomes where
/// the node first occurs on the path, if it does; from there the packet heads for the
/// next waypoint, straight when it is a neighbor and else as `toward_node` says, and
/// that waypoint's place becomes the packet's. With no waypoint left there is no step.
/// The step comes first, the new place second.
pub open spec fn waypoint_step(
    nodes: Seq<RoutingNode>,
    current: Seq<char>,
    nbrs: Seq<Seq<char>>,
    path: Seq<Seq<char>>,
    index: int,
) -> (Option<DecisionView>, int) {
    let at = match first_position(path, current) {
        Some(p) => p,
        None => index,
    };
    if at + 1 < path.len() {
        let next = path[at + 1];
        (
            if nbrs.contains(next) {
                Some(DecisionView::Forward { next_hop: next, mode: RoutingMode::ThorupZwick })
            } else {
                toward_node(nodes, nbrs, next)
            },
            at + 1,
        )
    } else {
        (None, at)
    }
}

/// The least of `nbrs` in byte order that is not in `seen`.
pub open spec fn least_fresh(nbrs: Seq<Seq<char>>, seen: Set<Seq<char>>) -> Option<Seq<char>>
    decreases nbrs.len(),
{
    if nbrs.len() == 0 {
        None
    } else {
        let rest = least_fresh(nbrs.drop_last(), seen);
        let x = nbrs.last();
        if seen.contains(x) {
            rest
        } else {
            match rest {
                None => Some(x),
                Some(y) => if id_lt(x, y) {
                    Some(x)
                } else {
                    Some(y)
                },
            }
        }
    }
}

/// The state of a depth-first walk through the graph: the nodes it has visited and
/// the way back.
pub struct DfsState {
    pub visited: Vec<NodeId>,
    pub dfs_stack: Vec<NodeId>,
}

/// A depth-first walk as the contracts see it.
pub struct DfsView {
    pub visited: Set<Seq<char>>,
    pub stack: Seq<Seq<char>>,
}

impl View for DfsState {
    type V = DfsView;

    open spec fn view(&self) -> DfsView {
        DfsView { visited: ids_of(self.visited@).to_set(), stack: ids_of(self.dfs_stack@) }
    }
}

/// One step of the walk from `current` (with neighbors `nbrs`): the decision and the
/// walk after it. The current node counts as visited; the walk moves on to the least
/// unvisited neighbor, remembering where it came from, or else goes back the way it
/// came; with nowhere to go it stops.
pub open spec fn dfs_step(walk: DfsView, current: Seq<char>, nbrs: Seq<Seq<char>>) -> (Option<DecisionView>, DfsView) {
    let seen = walk.visited.insert(current);
    match least_fresh(nbrs, seen) {
        Some(n) => (
            Some(DecisionView::Forward { next_hop: n, mode: RoutingMode::Tree }),
            DfsView { visited: seen, stack: walk.stack.push(current) },
        ),
        None => if walk.stack.len() > 0 {
            (
                Some(DecisionView::Forward { next_hop: walk.stack.last(), mode: RoutingMode::Tree }),
                DfsView { visited: seen, stack: walk.stack.drop_last() },
            )
        } else {
            (None, DfsView { visited: seen, stack: walk.stack })
        },
    }
}

impl GPRouter {
    /// Route toward a specific node (used by TZ routing for waypoint navigation)
    pub fn route_toward_node(&self, current: &RoutingNode, target_node: &NodeId) -> (r: Option<RoutingDecision>)
        ensures
            decision_of(r) == toward_node(self@, current.neighbor_ids(), target_node@),
    {
        if holds_id(&current.neighbors, target_node) {
            return Some(RoutingDecision::Forward { next_hop: target_node.clone(), mode: RoutingMode::ThorupZwick });
        }
        let ghost nbrs = current.neighbor_ids();
        let mut k: usize = 0;
        assert(nbrs.skip(0) =~= nbrs);
        while k < current.neighbors.len()
            invariant
                k <= current.neighbors.len(),
                nbrs == current.neighbor_ids(),
                !nbrs.contains(target_node@),
                first_relay(self@, nbrs, target_node@) == first_relay(self@, nbrs.skip(k as int), target_node@),
            decreases current.neighbors.len() - k,
        {
            let n = &current.neighbors[k];
            assert(nbrs.skip(k as int)[0] == n@);
            match self.index_of(n) {
                Some(i) => {
                    if holds_id(&self.nodes[i].neighbors, target_node) {
                        assert(links(self@, n@, target_node@));
                        return Some(RoutingDecision::Forward { next_hop: n.clone(), mode: RoutingMode::ThorupZwick });
                    }
                },
                None => {},
            }
            assert(nbrs.skip(k as int).drop_first() =~= nbrs.skip(k + 1));
            k = k + 1;
        }
        assert(nbrs.skip(k as int) =~= Seq::<Seq<char>>::empty());
        if current.neighbors.len() > 0 {
            Some(RoutingDecision::Forward { next_hop: current.neighbors[0].clone(), mode: RoutingMode::ThorupZwick })
        } else {
            None
        }
    }

    /// One step along a precomputed path of waypoints, as Thorup-Zwick routing takes
    /// it (see `waypoint_step`); `index` is the packet's place on the path, updated.
    pub fn step_along_path(&self, current: &RoutingNode, path: &Vec<NodeId>, index: &mut usize) -> (r: Option<RoutingDecision>)
        requires
            *old(index) < usize::MAX,
        ensures
            decision_of(r) == waypoint_step(self@, current.id@, current.neighbor_ids(), ids_of(path@), *old(index) as int).0,
            *final(index) as int == waypoint_step(self@, current.id@, current.neighbor_ids(), ids_of(path@), *old(index) as int).1,
    {
        let ghost ids = ids_of(path@);
        let mut k: usize = 0;
        while k < path.len() && path[k] != current.id
            invariant
                k <= path.len(),
                ids == ids_of(path@),
                forall|j: int| 0 <= j < k ==> ids[j] != current.id@,
            decreases path.len() - k,
        {
            assert(ids[k as int] == path@[k as int]@);
            k = k + 1;
        }
        proof {
            if k < path.len() {
                assert(ids[k as int] == path@[k as int]@);
            }
            lemma_first_position_at(ids, current.id@, k as int);
        }
        let at: usize = if k < path.len() {
            k
        } else {
            *index
        };
        *index = at;
        if at + 1 < path.len() {
            let next = &path[at + 1];
            assert(ids[at + 1] == next@);
            *index = at + 1;
            if holds_id(&current.neighbors, next) {
                Some(RoutingDecision::Forward { next_hop: next.clone(), mode: RoutingMode::ThorupZwick })
            } else {
                self.route_toward_node(current, next)
            }
        } else {
            None
        }
    }

    /// Graph DFS traversal: one step of a depth-first walk from `current` that reaches
    /// every node of a connected graph (see `dfs_step`).
    pub fn traverse_graph_dfs(&self, current: &RoutingNode, walk: &mut DfsState) -> (r: Option<RoutingDecision>)
        ensures
            (decision_of(r), final(walk)@) == dfs_step(old(walk)@, current.id@, current.neighbor_ids()),
    {
        let ghost seen = old(walk)@.visited.insert(current.id@);
        if !holds_id(&walk.visited, &current.id) {
            let ghost before = ids_of(walk.visited@);
            walk.visited.push(current.id.clone());
            assert(ids_of(walk.visited@) =~= before.push(current.id@));
        }
        assert(ids_of(walk.visited@).to_set() =~= seen) by {
            broadcast use vstd::seq_lib::lemma_seq_contains_after_push;
        }
        let ghost nbrs = current.neighbor_ids();
        let mut best: Option<usize> = None;
        let mut k: usize = 0;
        assert(nbrs.take(0) =~= Seq::<Seq<char>>::empty());
        while k < current.neighbors.len()
            invariant
                k <= current.neighbors.len(),
                nbrs == current.neighbor_ids(),
                ids_of(walk.visited@).to_set() == seen,
                match best {
                    Some(b) => b < k && least_fresh(nbrs.take(k as int), seen) == Some(nbrs[b as int]),
                    None => least_fresh(nbrs.take(k as int), seen) is None,
                },
            decreases current.neighbors.len() - k,
        {
            assert(nbrs.take(k + 1).drop_last() =~= nbrs.take(k as int));
            assert(nbrs.take(k + 1).last() == nbrs[k as int]);
            let n = &current.neighbors[k];
            if !holds_id(&walk.visited, n) {
                match best {
                    None => {
                        best = Some(k);
                    },
                    Some(b) => {
                        if bytes_lt(n.0.as_str().as_bytes(), current.neighbors[b].0.as_str().as_bytes()) {
                            best = Some(k);
                        }
                    },
                }
            }
            k = k + 1;
        }
        assert(nbrs.take(k as int) =~= nbrs);
        let ghost stack0 = ids_of(walk.dfs_stack@);
        assert(stack0 == old(walk)@.stack);
        match best {
            Some(b) => {
                walk.dfs_stack.push(current.id.clone());
                assert(ids_of(walk.dfs_stack@) =~= stack0.push(current.id@));
                Some(RoutingDecision::Forward { next_hop: current.neighbors[b].clone(), mode: RoutingMode::Tree })
            },
            None => {
                match walk.dfs_stack.pop() {
                    Some(prev) => {
                        assert(ids_of(walk.dfs_stack@) =~= stack0.drop_last());
                        assert(prev@ == stack0.last());
                        Some(RoutingDecision::Forward { next_hop: prev, mode: RoutingMode::Tree })
                    },
                    None => {
                        assert(ids_of(walk.dfs_stack@) =~= stack0);
                        None
                    },
                }
            },
        }
    }
}

/// The walk moves on to an unvisited neighbor, and to the least one in byte order:
/// whenever some neighbor is unvisited, the chosen one is a neighbor, is not visited,
/// and no unvisited neighbor comes before it.
pub proof fn lemma_least_fresh(nbrs: Seq<Seq<char>>, seen: Set<Seq<char>>)
    ensures
        least_fresh(nbrs, seen) is None <==> forall|i: int| 0 <= i < nbrs.len() ==> seen.contains(#[trigger] nbrs[i]),
        least_fresh(nbrs, seen) matches Some(n) ==> {
            &&& nbrs.contains(n)
            &&& !seen.contains(n)
            &&& forall|i: int| 0 <= i < nbrs.len() && !seen.contains(#[trigger] nbrs[i]) ==> !id_lt(nbrs[i], n)
        },
    decreases nbrs.len(),
{
    if nbrs.len() > 0 {
        let rest = nbrs.drop_last();
        lemma_least_fresh(rest, seen);
        let x = nbrs.last();
        assert forall|i: int| 0 <= i < rest.len() implies rest[i] == nbrs[i] by {}
        assert(nbrs[nbrs.len() - 1] == x);
        if !seen.contains(x) {
            match least_fresh(rest, seen) {
                None => {
                    crate::ordering::lemma_lex_lt_irreflexive(id_bytes(x));
                },
                Some(y) => {
                    crate::ordering::lemma_lex_lt_irreflexive(id_bytes(x));
                    crate::ordering::lemma_lex_lt_irreflexive(id_bytes(y));
                    if id_lt(x, y) {
                        assert forall|i: int| 0 <= i < nbrs.len() && !seen.contains(#[trigger] nbrs[i]) implies !id_lt(nbrs[i], x) by {
                            if i < nbrs.len() - 1 && id_lt(nbrs[i], x) {
                                crate::ordering::lemma_lex_lt_transitive(id_bytes(nbrs[i]), id_bytes(x), id_bytes(y));
                                assert(rest[i] == nbrs[i]);
                            }
                        }
                    } else {
                        assert forall|i: int| 0 <= i < nbrs.len() && !seen.contains(#[trigger] nbrs[i]) implies !id_lt(nbrs[i], y) by {
                            if i < nbrs.len() - 1 {
                                assert(rest[i] == nbrs[i]);
                            }
                        }
                        let j = choose|j: int| 0 <= j < rest.len() && rest[j] == y;
                        assert(nbrs[j] == y);
                    }
                },
            }
        } else {
            if let Some(y) = least_fresh(rest, seen) {
                let j = choose|j: int| 0 <= j < rest.len() && rest[j] == y;
                assert(nbrs[j] == y);
            }
        }
    }
}

/// Going forward and coming back: a step that moves to a neighbor remembers the node
/// it left, so the step after it, once that neighbor has nowhere new to go, leads back
/// there; every step leaves the current node visited.
pub proof fn lemma_dfs_backtracks(walk: DfsView, current: Seq<char>, nbrs: Seq<Seq<char>>, next_nbrs: Seq<Seq<char>>)
    ensures
        dfs_step(walk, current, nbrs).1.visited.contains(current),
        least_fresh(nbrs, walk.visited.insert(current)) matches Some(next) ==> {
            let after = dfs_step(walk, current, nbrs).1;
            &&& dfs_step(walk, current, nbrs).0 == Some(DecisionView::Forward { next_hop: next, mode: RoutingMode::Tree })
            &&& least_fresh(next_nbrs, after.visited.insert(next)) is None
                ==> dfs_step(after, next, next_nbrs).0 == Some(DecisionView::Forward { next_hop: current, mode: RoutingMode::Tree })
        },
{
}


/// The `i`-th move of walk `p` follows a link.
pub open spec fn link_at(nodes: Seq<RoutingNode>, p: Seq<Seq<char>>, i: int) -> bool {
    links(nodes, p[i], p[i + 1])
}

/// A walk through the network: a nonempty sequence of identifiers, each after the
/// first listed as a neighbor by the node before it.
pub open spec fn is_walk(nodes: Seq<RoutingNode>, p: Seq<Seq<char>>) -> bool {
    p.len() > 0 && forall|i: int| 0 <= i < p.len() - 1 ==> #[trigger] link_at(nodes, p, i)
}

/// Whether some walk of `k` moves leads from `s` to `t`.
pub open spec fn reachable_in(nodes: Seq<RoutingNode>, s: Seq<char>, t: Seq<char>, k: nat) -> bool {
    exists|p: Seq<Seq<char>>| #[trigger] is_walk(nodes, p) && p.len() == k + 1 && p[0] == s && p.last() == t
}

/// `p` is a walk of `d` moves from `s` to `t`.
pub open spec fn walk_from_to(nodes: Seq<RoutingNode>, p: Seq<Seq<char>>, s: Seq<char>, t: Seq<char>, d: int) -> bool {
    is_walk(nodes, p) && p.len() == d + 1 && p[0] == s && p.last() == t
}

/// Every identifier that a walk can reach: the neighbor lists of all nodes, in order.
pub open spec fn id_pool(nodes: Seq<RoutingNode>) -> Seq<Seq<char>>
    decreases nodes.len(),
{
    if nodes.len() == 0 {
        Seq::empty()
    } else {
        id_pool(nodes.drop_last()) + nodes.last().neighbor_ids()
    }
}

/// The identifiers in a search queue.
pub open spec fn queue_ids(q: Seq<(NodeId, usize)>) -> Seq<Seq<char>> {
    q.map_values(|e: (NodeId, usize)| e.0@)
}

/// The distances in a search queue.
pub open spec fn queue_dists(q: Seq<(NodeId, usize)>) -> Seq<int> {
    q.map_values(|e: (NodeId, usize)| e.1 as int)
}

/// Every neighbor listed by a node is in the pool.
proof fn lemma_id_pool(nodes: Seq<RoutingNode>, i: int, w: Seq<char>)
    requires
        0 <= i < nodes.len(),
        nodes[i].neighbor_ids().contains(w),
    ensures
        id_pool(nodes).contains(w),
    decreases nodes.len(),
{
    let rest = nodes.drop_last();
    if i < nodes.len() - 1 {
        assert(rest[i] == nodes[i]);
        lemma_id_pool(rest, i, w);
        let k = choose|k: int| 0 <= k < id_pool(rest).len() && id_pool(rest)[k] == w;
        assert(id_pool(nodes)[k] == w);
    } else {
        let nb = nodes.last().neighbor_ids();
        let k = choose|k: int| 0 <= k < nb.len() && nb[k] == w;
        assert(id_pool(nodes)[id_pool(rest).len() + k] == w);
    }
}

/// Extending a walk along a link gives a walk.
proof fn lemma_walk_push(nodes: Seq<RoutingNode>, p: Seq<Seq<char>>, w: Seq<char>)
    requires
        is_walk(nodes, p),
        links(nodes, p.last(), w),
    ensures
        is_walk(nodes, p.push(w)),
{
    let q = p.push(w);
    assert forall|i: int| 0 <= i < q.len() - 1 implies #[trigger] link_at(nodes, q, i) by {
        if i < p.len() - 1 {
            assert(link_at(nodes, p, i));
        }
    }
}

/// Following a walk from the start of a breadth-first search, either its last node
/// was dequeued already, or some node of it is still queued at a distance no greater
/// than the number of moves taken to reach it.
proof fn lemma_bfs_frontier(
    nodes: Seq<RoutingNode>,
    ids: Seq<Seq<char>>,
    ds: Seq<int>,
    head: int,
    start: Seq<char>,
    p: Seq<Seq<char>>,
) -> (r: (int, int))
    requires
        ids.len() == ds.len(),
        1 <= ids.len(),
        0 <= head <= ids.len(),
        ids[0] == start,
        ds[0] == 0,
        forall|i: int, w: Seq<char>|
            0 <= i < head && #[trigger] links(nodes, ids[i], w) ==> exists|j: int|
                0 <= j < ids.len() && ids[j] == w && ds[j] <= ds[i] + 1,
        is_walk(nodes, p),
        p[0] == start,
    ensures
        0 <= r.0 < ids.len(),
        0 <= r.1 < p.len(),
        ids[r.0] == p[r.1],
        ds[r.0] <= r.1,
        r.0 >= head || r.1 == p.len() - 1,
    decreases p.len(),
{
    if p.len() == 1 {
        (0, 0)
    } else {
        let q = p.drop_last();
        assert forall|i: int| 0 <= i < q.len() - 1 implies #[trigger] link_at(nodes, q, i) by {
            assert(link_at(nodes, p, i));
        }
        let (j, m) = lemma_bfs_frontier(nodes, ids, ds, head, start, q);
        if j >= head {
            (j, m)
        } else {
            let n = p.len() - 1;
            assert(link_at(nodes, p, n - 1));
            assert(links(nodes, ids[j], p[n]));
            let j2 = choose|j2: int| 0 <= j2 < ids.len() && ids[j2] == p[n] && ds[j2] <= ds[j] + 1;
            (j2, n)
        }
    }
}

/// Cutting the loop out of a walk that visits a node twice leaves a shorter walk with
/// the same ends.
proof fn lemma_walk_shortcut(nodes: Seq<RoutingNode>, p: Seq<Seq<char>>, a: int, b: int)
    requires
        is_walk(nodes, p),
        0 <= a < b < p.len(),
        p[a] == p[b],
    ensures
        is_walk(nodes, p.take(a + 1) + p.skip(b + 1)),
        (p.take(a + 1) + p.skip(b + 1)).len() == p.len() - (b - a),
        (p.take(a + 1) + p.skip(b + 1))[0] == p[0],
        (p.take(a + 1) + p.skip(b + 1)).last() == p.last(),
{
    let q = p.take(a + 1) + p.skip(b + 1);
    let sh = b - a;
    assert forall|i: int| 0 <= i < q.len() - 1 implies #[trigger] link_at(nodes, q, i) by {
        if i < a {
            assert(q[i] == p[i] && q[i + 1] == p[i + 1]);
            assert(link_at(nodes, p, i));
        } else if i == a {
            assert(q[i] == p[b] && q[i + 1] == p[b + 1]);
            assert(link_at(nodes, p, b));
        } else {
            assert(q[i] == p[i + sh] && q[i + 1] == p[i + 1 + sh]);
            assert(link_at(nodes, p, i + sh));
        }
    }
    if b == p.len() - 1 {
        assert(q.last() == p[a]);
    } else {
        assert(q.last() == p.last());
    }
}

/// A shortest walk visits no node twice, and every node it moves on from is a node of
/// the network; so it makes no more moves than the network has nodes.
proof fn lemma_shortest_walk_bounded(nodes: Seq<RoutingNode>, p: Seq<Seq<char>>, s: Seq<char>, t: Seq<char>, d: nat)
    requires
        walk_from_to(nodes, p, s, t, d as int),
        forall|k: nat| k < d ==> !#[trigger] reachable_in(nodes, s, t, k),
    ensures
        d <= nodes.len(),
{
    assert(p.no_duplicates()) by {
        assert forall|a: int, b: int| 0 <= a < p.len() && 0 <= b < p.len() && a != b implies p[a] != p[b] by {
            if p[a] == p[b] {
                let (lo, hi) = if a < b {
                    (a, b)
                } else {
                    (b, a)
                };
                lemma_walk_shortcut(nodes, p, lo, hi);
                let q = p.take(lo + 1) + p.skip(hi + 1);
                assert(is_walk(nodes, q) && q.len() == (d - (hi - lo)) as nat + 1 && q[0] == s && q.last() == t);
                assert(reachable_in(nodes, s, t, (d - (hi - lo)) as nat));
            }
        }
    }
    let front = p.take(d as int);
    let pool = nodes.map_values(|n: RoutingNode| n.id@).to_set();
    assert(front.no_duplicates());
    front.unique_seq_to_set();
    assert forall|x: Seq<char>| front.to_set().contains(x) implies pool.contains(x) by {
        let i = choose|i: int| 0 <= i < front.len() && front[i] == x;
        assert(link_at(nodes, p, i));
        lemma_node_index_found(nodes, p[i]);
        let k = node_index(nodes, p[i])->0;
        assert(nodes.map_values(|n: RoutingNode| n.id@)[k] == x);
    }
    nodes.map_values(|n: RoutingNode| n.id@).lemma_cardinality_of_set();
    vstd::set_lib::lemma_len_subset(front.to_set(), pool);
}

/// Whether an identifier is in a search queue.
fn queued(queue: &Vec<(NodeId, usize)>, id: &NodeId) -> (r: bool)
    ensures
        r == queue_ids(queue@).contains(id@),
{
    let mut i: usize = 0;
    while i < queue.len()
        invariant
            i <= queue.len(),
            forall|j: int| 0 <= j < i ==> queue_ids(queue@)[j] != id@,
        decreases queue.len() - i,
    {
        if queue[i].0 == *id {
            assert(queue_ids(queue@)[i as int] == id@);
            return true;
        }
        i = i + 1;
    }
    false
}

impl GPRouter {
    /// Hop distance by breadth-first search: the fewest moves from `start` to `end`,
    /// each to a neighbor that the current node lists; `None` when `end` cannot be
    /// reached. A walk may end at an identifier that is only named as a neighbor.
    pub fn bfs_distance(&self, start: &NodeId, end: &NodeId) -> (r: Option<u32>)
        requires
            self@.len() < u32::MAX,
        ensures
            r matches Some(d) ==> reachable_in(self@, start@, end@, d as nat) && forall|k: nat|
                k < d ==> !#[trigger] reachable_in(self@, start@, end@, k),
            r is None ==> forall|k: nat| !#[trigger] reachable_in(self@, start@, end@, k),
    {
        let ghost nodes = self@;
        let ghost pool = (seq![start@] + id_pool(nodes)).to_set();
        let ghost bound = pool.len();
        proof {
            (seq![start@] + id_pool(nodes)).lemma_cardinality_of_set();
            assert(pool.contains(start@)) by {
                assert((seq![start@] + id_pool(nodes))[0] == start@);
            }
        }
        let mut queue: Vec<(NodeId, usize)> = Vec::new();
        queue.push((start.clone(), 0));
        let ghost mut walks: Seq<Seq<Seq<char>>> = seq![seq![start@]];
        let mut head: usize = 0;
        proof {
            assert(queue_ids(queue@).to_set().subset_of(pool)) by {
                assert forall|x: Seq<char>| queue_ids(queue@).to_set().contains(x) implies pool.contains(x) by {
                    assert(queue_ids(queue@)[0] == start@);
                }
            }
            assert(queue_ids(queue@).no_duplicates());
            queue_ids(queue@).unique_seq_to_set();
            vstd::set_lib::lemma_len_subset(queue_ids(queue@).to_set(), pool);
        }
        while head < queue.len()
            invariant
                nodes == self@,
                nodes.len() < u32::MAX,
                pool == (seq![start@] + id_pool(nodes)).to_set(),
                bound == pool.len(),
                pool.finite(),
                1 <= queue.len() <= bound,
                head <= queue.len(),
                queue_ids(queue@)[0] == start@,
                queue_dists(queue@)[0] == 0,
                queue_ids(queue@).no_duplicates(),
                forall|j: int| 0 <= j < queue.len() ==> pool.contains(#[trigger] queue_ids(queue@)[j]),
                walks.len() == queue.len(),
                forall|j: int| 0 <= j < queue.len() ==> walk_from_to(nodes, #[trigger] walks[j], start@, queue_ids(queue@)[j], queue_dists(queue@)[j]),
                forall|j: int| 0 <= j < queue.len() ==> #[trigger] queue_dists(queue@)[j] <= j,
                forall|i: int, j: int| 0 <= i <= j < queue.len() ==> #[trigger] queue_dists(queue@)[i] <= #[trigger] queue_dists(queue@)[j],
                head < queue.len() ==> forall|j: int| 0 <= j < queue.len() ==> #[trigger] queue_dists(queue@)[j] <= queue_dists(queue@)[head as int] + 1,
                forall|i: int, w: Seq<char>|
                    0 <= i < head && #[trigger] links(nodes, queue_ids(queue@)[i], w) ==> exists|j: int|
                        0 <= j < queue.len() && queue_ids(queue@)[j] == w && queue_dists(queue@)[j] <= queue_dists(queue@)[i] + 1,
                forall|i: int| 0 <= i < head ==> #[trigger] queue_ids(queue@)[i] != end@,
            decreases bound - head,
        {
            let cur = queue[head].0.clone();
            let dist = queue[head].1;
            assert(cur@ == queue_ids(queue@)[head as int]);
            assert(dist as int == queue_dists(queue@)[head as int]);
            if cur == *end {
                let ghost d = dist as nat;
                let ghost p = walks[head as int];
                proof {
                    assert(walk_from_to(nodes, p, start@, end@, d as int));
                    assert(reachable_in(nodes, start@, end@, d));
                    assert forall|k: nat| k < d implies !#[trigger] reachable_in(nodes, start@, end@, k) by {
                        if reachable_in(nodes, start@, end@, k) {
                            let w = choose|w: Seq<Seq<char>>| #[trigger] is_walk(nodes, w) && w.len() == k + 1 && w[0] == start@ && w.last() == end@;
                            let (j, m) = lemma_bfs_frontier(nodes, queue_ids(queue@), queue_dists(queue@), head as int, start@, w);
                            if j < head {
                                assert(queue_ids(queue@)[j] == end@);
                            } else {
                                assert(queue_dists(queue@)[head as int] <= queue_dists(queue@)[j]);
                            }
                        }
                    }
                    lemma_shortest_walk_bounded(nodes, p, start@, end@, d);
                    assert(dist < u32::MAX);
                }
                return Some(dist as u32);
            }
            match self.index_of(&cur) {
                Some(ni) => {
                    let ghost nbrs = self@[ni as int].neighbor_ids();
                    let n = self.nodes[ni].neighbors.len();
                    let mut k: usize = 0;
                    while k < n
                        invariant
                            nodes == self@,
                            pool == (seq![start@] + id_pool(nodes)).to_set(),
                            bound == pool.len(),
                            pool.finite(),
                            ni < nodes.len(),
                            node_index(nodes, cur@) == Some(ni as int),
                            nbrs == nodes[ni as int].neighbor_ids(),
                            n == nbrs.len(),
                            k <= n,
                            1 <= queue.len() <= bound,
                            head < queue.len(),
                            cur@ == queue_ids(queue@)[head as int],
                            dist as int == queue_dists(queue@)[head as int],
                            dist <= head,
                            queue_ids(queue@)[0] == start@,
                            queue_dists(queue@)[0] == 0,
                            queue_ids(queue@).no_duplicates(),
                            forall|j: int| 0 <= j < queue.len() ==> pool.contains(#[trigger] queue_ids(queue@)[j]),
                            walks.len() == queue.len(),
                            forall|j: int| 0 <= j < queue.len() ==> walk_from_to(nodes, #[trigger] walks[j], start@, queue_ids(queue@)[j], queue_dists(queue@)[j]),
                            forall|j: int| 0 <= j < queue.len() ==> #[trigger] queue_dists(queue@)[j] <= j,
                            forall|i: int, j: int| 0 <= i <= j < queue.len() ==> #[trigger] queue_dists(queue@)[i] <= #[trigger] queue_dists(queue@)[j],
                            forall|j: int| 0 <= j < queue.len() ==> #[trigger] queue_dists(queue@)[j] <= dist + 1,
                            forall|i: int, w: Seq<char>|
                                0 <= i < head && #[trigger] links(nodes, queue_ids(queue@)[i], w) ==> exists|j: int|
                                    0 <= j < queue.len() && queue_ids(queue@)[j] == w && queue_dists(queue@)[j] <= queue_dists(queue@)[i] + 1,
                            forall|t: int| 0 <= t < k ==> exists|j: int|
                                0 <= j < queue.len() && queue_ids(queue@)[j] == #[trigger] nbrs[t] && queue_dists(queue@)[j] <= dist + 1,
                            forall|i: int| 0 <= i < head ==> #[trigger] queue_ids(queue@)[i] != end@,
                        decreases n - k,
                    {
                        let w = &self.nodes[ni].neighbors[k];
                        assert(w@ == nbrs[k as int]);
                        if !queued(&queue, w) {
                            let ghost before = queue@;
                            let ghost pw = walks[head as int];
                            proof {
                                assert(links(nodes, cur@, w@)) by {
                                    assert(nbrs[k as int] == w@);
                                }
                                lemma_walk_push(nodes, pw, w@);
                                lemma_id_pool(nodes, ni as int, w@);
                                let ip = id_pool(nodes);
                                let kk = choose|kk: int| 0 <= kk < ip.len() && ip[kk] == w@;
                                assert((seq![start@] + ip)[kk + 1] == w@);
                                assert(pool.contains(w@));
                            }
                            queue.push((w.clone(), dist + 1));
                            proof {
                                walks = walks.push(pw.push(w@));
                                assert(queue_ids(queue@) =~= queue_ids(before).push(w@));
                                assert(queue_dists(queue@) =~= queue_dists(before).push(dist + 1));
                                assert(queue_ids(queue@).no_duplicates());
                                queue_ids(queue@).unique_seq_to_set();
                                assert(queue_ids(queue@).to_set().subset_of(pool));
                                vstd::set_lib::lemma_len_subset(queue_ids(queue@).to_set(), pool);
                                assert(walk_from_to(nodes, walks[queue.len() - 1], start@, w@, dist + 1));
                                assert(queue_ids(queue@)[queue.len() - 1] == w@);
                                assert forall|i: int, x: Seq<char>|
                                    0 <= i < head && #[trigger] links(nodes, queue_ids(queue@)[i], x) implies exists|j: int|
                                        0 <= j < queue.len() && queue_ids(queue@)[j] == x && queue_dists(queue@)[j] <= queue_dists(queue@)[i] + 1 by {
                                    assert(queue_ids(queue@)[i] == queue_ids(before)[i]);
                                    assert(links(nodes, queue_ids(before)[i], x));
                                    let j = choose|j: int|
                                        0 <= j < before.len() && queue_ids(before)[j] == x && queue_dists(before)[j] <= queue_dists(before)[i] + 1;
                                    assert(queue_ids(queue@)[j] == x);
                                }
                                assert forall|t: int| 0 <= t < k + 1 implies exists|j: int|
                                    0 <= j < queue.len() && queue_ids(queue@)[j] == #[trigger] nbrs[t] && queue_dists(queue@)[j] <= dist + 1 by {
                                    if t < k {
                                        let j = choose|j: int| 0 <= j < before.len() && queue_ids(before)[j] == nbrs[t] && queue_dists(before)[j] <= dist + 1;
                                        assert(queue_ids(queue@)[j] == nbrs[t]);
                                    } else {
                                        assert(queue_ids(queue@)[queue.len() - 1] == nbrs[t]);
                                    }
                                }
                            }
                        } else {
                            proof {
                                let j = choose|j: int| 0 <= j < queue_ids(queue@).len() && queue_ids(queue@)[j] == w@;
                                assert(queue_dists(queue@)[j] <= dist + 1);
                            }
                        }
                        k = k + 1;
                    }
                    proof {
                        assert forall|w: Seq<char>| #[trigger] links(nodes, queue_ids(queue@)[head as int], w) implies exists|j: int|
                            0 <= j < queue.len() && queue_ids(queue@)[j] == w && queue_dists(queue@)[j] <= queue_dists(queue@)[head as int] + 1 by {
                            let t = choose|t: int| 0 <= t < nbrs.len() && nbrs[t] == w;
                            assert(nbrs[t] == w);
                        }
                    }
                },
                None => {},
            }
            proof {
                if head + 1 < queue.len() {
                    assert(queue_dists(queue@)[head as int] <= queue_dists(queue@)[head + 1]);
                }
            }
            head = head + 1;
        }
        proof {
            assert forall|k: nat| !#[trigger] reachable_in(nodes, start@, end@, k) by {
                if reachable_in(nodes, start@, end@, k) {
                    let w = choose|w: Seq<Seq<char>>| #[trigger] is_walk(nodes, w) && w.len() == k + 1 && w[0] == start@ && w.last() == end@;
                    let (j, m) = lemma_bfs_frontier(nodes, queue_ids(queue@), queue_dists(queue@), head as int, start@, w);
                    assert(queue_ids(queue@)[j] == end@);
                }
            }
        }
        None
    }
}

} // verus!
