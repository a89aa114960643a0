use crate::distance::DistanceMetric;
use std::collections::{HashMap, HashSet};
use vstd::prelude::*;

verus! {

broadcast use vstd::std_specs::hash::group_hash_axioms;

#[verifier::external_type_specification]
#[verifier::external_body]
#[verifier::reject_recursive_types(N)]
#[verifier::reject_recursive_types(E)]
#[verifier::reject_recursive_types(Ty)]
#[verifier::reject_recursive_types(Ix)]
pub struct ExGraph<N, E, Ty, Ix>(petgraph::graph::Graph<N, E, Ty, Ix>);

#[verifier::external_type_specification]
#[verifier::external_body]
pub struct ExUndirected(petgraph::Undirected);

/// A node of the proximity graph: its external id, its vector, the highest
/// layer it takes part in, and the cap on its connections.
#[derive(Clone, Debug)]
pub struct VectorNode {
    pub id: u64,
    pub vector: Vec<u32>,
    pub layer: usize,
    pub max_connections: usize,
}

/// The weight of an edge: the order key of the distance between its
/// endpoints, and the metric it was measured with.
#[derive(Clone, Copy, Debug, PartialEq, Eq, Structural)]
pub struct EdgeWeight {
    pub distance: u32,
    pub metric: DistanceMetric,
}

/// The undirected petgraph graph that stores the nodes and edges.
pub type PetGraph = petgraph::graph::Graph<VectorNode, EdgeWeight, petgraph::Undirected, u32>;

/// An edge as petgraph stores it: its two endpoint handles and its weight.
pub type RawEdge = (usize, usize, EdgeWeight);

/// The node weights of a petgraph graph, by node index.
pub uninterp spec fn graph_nodes(g: PetGraph) -> Seq<VectorNode>;

/// The edges of a petgraph graph, by edge index.
pub uninterp spec fn graph_edges(g: PetGraph) -> Seq<RawEdge>;

/// The largest number of nodes (and of edges) a graph indexed by `u32` holds.
pub const HANDLE_LIMIT: usize = 0xffff_fffe;

/// Whether edge `e` connects handles `a` and `b`, in either direction.
pub open spec fn joins(e: RawEdge, a: usize, b: usize) -> bool {
    (e.0 == a && e.1 == b) || (e.0 == b && e.1 == a)
}

/// Whether edge `e` has handle `a` as an endpoint.
pub open spec fn touches(e: RawEdge, a: usize) -> bool {
    e.0 == a || e.1 == a
}

/// The handle `x` after the node at handle `last` has moved to handle `a`.
pub open spec fn moved(x: usize, a: usize, last: usize) -> usize {
    if x == last {
        a
    } else {
        x
    }
}

/// Whether `(a, b)` is the pair `(x, y)` taken from either end.
pub open spec fn same_pair(a: u64, b: u64, x: u64, y: u64) -> bool {
    (a == x && b == y) || (a == y && b == x)
}

/// Relies on petgraph's `Graph::new_undirected`: a graph without nodes or edges.
#[verifier::external_body]
fn pg_new() -> (g: PetGraph)
    ensures
        graph_nodes(g).len() == 0,
        graph_edges(g).len() == 0,
{
    petgraph::graph::Graph::new_undirected()
}

/// Relies on petgraph's `Graph::node_count`: the number of node weights.
#[verifier::external_body]
fn pg_node_count(g: &PetGraph) -> (r: usize)
    ensures
        r == graph_nodes(*g).len(),
{
    g.node_count()
}

/// Relies on petgraph's `Graph::edge_count`: the number of edges.
#[verifier::external_body]
fn pg_edge_count(g: &PetGraph) -> (r: usize)
    ensures
        r == graph_edges(*g).len(),
{
    g.edge_count()
}

/// Relies on petgraph's `Graph::add_node`: the weight is pushed at the end of
/// the node list, and its index is the former node count. It panics only
/// when the `u32` index space is exhausted.
#[verifier::external_body]
fn pg_add_node(g: &mut PetGraph, n: VectorNode) -> (r: usize)
    requires
        graph_nodes(*old(g)).len() < HANDLE_LIMIT,
    ensures
        r == graph_nodes(*old(g)).len(),
        graph_nodes(*final(g)) == graph_nodes(*old(g)).push(n),
        graph_edges(*final(g)) == graph_edges(*old(g)),
{
    g.add_node(n).index()
}

/// Relies on petgraph's `Index<NodeIndex>` for `Graph`: the weight of node `i`.
#[verifier::external_body]
fn pg_node(g: &PetGraph, i: usize) -> (r: &VectorNode)
    requires
        i < graph_nodes(*g).len(),
    ensures
        *r == graph_nodes(*g)[i as int],
{
    &g[petgraph::graph::NodeIndex::new(i)]
}

/// Relies on petgraph's `Graph::add_edge`: the edge `(a, b, w)` is pushed at
/// the end of the edge list. It panics only on a missing endpoint or when the
/// `u32` index space is exhausted.
#[verifier::external_body]
fn pg_add_edge(g: &mut PetGraph, a: usize, b: usize, w: EdgeWeight)
    requires
        a < graph_nodes(*old(g)).len(),
        b < graph_nodes(*old(g)).len(),
        graph_edges(*old(g)).len() < HANDLE_LIMIT,
    ensures
        graph_nodes(*final(g)) == graph_nodes(*old(g)),
        graph_edges(*final(g)) == graph_edges(*old(g)).push((a, b, w)),
{
    g.add_edge(petgraph::graph::NodeIndex::new(a), petgraph::graph::NodeIndex::new(b), w);
}

/// Relies on petgraph's `Graph::find_edge` on an undirected graph: it walks
/// both edge lists of `a` and returns an edge between `a` and `b`, in either
/// direction, or `None` when there is none.
#[verifier::external_body]
fn pg_find_edge(g: &PetGraph, a: usize, b: usize) -> (r: Option<usize>)
    requires
        a < graph_nodes(*g).len(),
        b < graph_nodes(*g).len(),
    ensures
        match r {
            Some(e) => e < graph_edges(*g).len() && joins(graph_edges(*g)[e as int], a, b),
            None => forall|e: int|
                0 <= e < graph_edges(*g).len() ==> !joins(#[trigger] graph_edges(*g)[e], a, b),
        },
{
    g.find_edge(petgraph::graph::NodeIndex::new(a), petgraph::graph::NodeIndex::new(b)).map(
        |e| e.index(),
    )
}

/// Relies on petgraph's `Index<EdgeIndex>` for `Graph`: the weight of edge `e`.
#[verifier::external_body]
fn pg_edge_weight(g: &PetGraph, e: usize) -> (r: EdgeWeight)
    requires
        e < graph_edges(*g).len(),
    ensures
        r == graph_edges(*g)[e as int].2,
{
    g[petgraph::graph::EdgeIndex::new(e)]
}

/// Relies on petgraph's `IndexMut<EdgeIndex>` for `Graph`: the weight of edge
/// `e` is replaced, its endpoints stay.
#[verifier::external_body]
fn pg_set_edge_weight(g: &mut PetGraph, e: usize, w: EdgeWeight)
    requires
        e < graph_edges(*old(g)).len(),
    ensures
        graph_nodes(*final(g)) == graph_nodes(*old(g)),
        graph_edges(*final(g)) == graph_edges(*old(g)).update(
            e as int,
            (graph_edges(*old(g))[e as int].0, graph_edges(*old(g))[e as int].1, w),
        ),
{
    g[petgraph::graph::EdgeIndex::new(e)] = w;
}

/// Relies on petgraph's `Graph::remove_edge`: the last edge takes the index
/// of the removed one (a `swap_remove` of the edge list).
#[verifier::external_body]
fn pg_remove_edge(g: &mut PetGraph, e: usize)
    requires
        e < graph_edges(*old(g)).len(),
    ensures
        graph_nodes(*final(g)) == graph_nodes(*old(g)),
        graph_edges(*final(g)) == graph_edges(*old(g)).update(
            e as int,
            graph_edges(*old(g)).last(),
        ).drop_last(),
{
    g.remove_edge(petgraph::graph::EdgeIndex::new(e));
}

/// Relies on petgraph's `Graph::neighbors` on an undirected graph: the other
/// endpoint of every edge at `a`, in no promised order.
#[verifier::external_body]
fn pg_neighbors(g: &PetGraph, a: usize) -> (r: Vec<usize>)
    requires
        a < graph_nodes(*g).len(),
    ensures
        r@.to_set() == Set::new(
            |k: usize|
                exists|e: int|
                    0 <= e < graph_edges(*g).len() && joins(#[trigger] graph_edges(*g)[e], a, k),
        ),
{
    g.neighbors(petgraph::graph::NodeIndex::new(a)).map(|n| n.index()).collect()
}

/// Relies on petgraph's `Graph::remove_node` on a node without edges: the
/// last node takes index `a` (a `swap_remove` of the node list), the edge
/// list keeps its order, and edge endpoints at the last node follow it.
#[verifier::external_body]
fn pg_remove_node(g: &mut PetGraph, a: usize)
    requires
        a < graph_nodes(*old(g)).len(),
        forall|e: int|
            0 <= e < graph_edges(*old(g)).len() ==> !touches(#[trigger] graph_edges(*old(g))[e], a),
    ensures
        graph_nodes(*final(g)) == graph_nodes(*old(g)).update(
            a as int,
            graph_nodes(*old(g)).last(),
        ).drop_last(),
        graph_edges(*final(g)).len() == graph_edges(*old(g)).len(),
        forall|j: int|
            0 <= j < graph_edges(*old(g)).len() ==> #[trigger] graph_edges(*final(g))[j] == (
                moved(graph_edges(*old(g))[j].0, a, (graph_nodes(*old(g)).len() - 1) as usize),
                moved(graph_edges(*old(g))[j].1, a, (graph_nodes(*old(g)).len() - 1) as usize),
                graph_edges(*old(g))[j].2,
            ),
{
    g.remove_node(petgraph::graph::NodeIndex::new(a));
}

/// Relies on petgraph's `Graph::clear`: no nodes and no edges remain.
#[verifier::external_body]
fn pg_clear(g: &mut PetGraph)
    ensures
        graph_nodes(*final(g)).len() == 0,
        graph_edges(*final(g)).len() == 0,
{
    g.clear();
}


/// The proximity graph: nodes keyed by their external id, undirected weighted
/// edges, and the maps between ids and the handles petgraph uses.
pub struct VectorGraph {
    graph: PetGraph,
    id_to_index: HashMap<u64, usize>,
    index_to_id: HashMap<usize, u64>,
    default_metric: DistanceMetric,
    default_max_connections: usize,
}

impl VectorNode {
    /// Creates a new vector node.
    pub fn new(id: u64, vector: Vec<u32>, layer: usize, max_connections: usize) -> (r: Self)
        ensures
            r.id == id,
            r.vector == vector,
            r.layer == layer,
            r.max_connections == max_connections,
    {
        VectorNode { id, vector, layer, max_connections }
    }

    /// The dimensionality of the node's vector.
    pub fn dimension(&self) -> (r: usize)
        ensures
            r == self.vector@.len(),
    {
        self.vector.len()
    }
}

impl EdgeWeight {
    /// Creates a new edge weight.
    pub fn new(distance: u32, metric: DistanceMetric) -> (r: Self)
        ensures
            r.distance == distance,
            r.metric == metric,
    {
        EdgeWeight { distance, metric }
    }
}

impl VectorGraph {
    /// The node weights, by handle.
    pub closed spec fn slots(&self) -> Seq<VectorNode> {
        graph_nodes(self.graph)
    }

    /// The edges, by edge handle.
    pub closed spec fn edge_seq(&self) -> Seq<RawEdge> {
        graph_edges(self.graph)
    }

    /// The handle of node `id`.
    pub closed spec fn handle(&self, id: u64) -> usize {
        self.id_to_index@[id]
    }

    /// The ids of the nodes.
    pub closed spec fn ids(&self) -> Set<u64> {
        self.id_to_index@.dom()
    }

    /// The nodes, by id.
    pub open spec fn nodes(&self) -> Map<u64, VectorNode> {
        Map::new(|id: u64| self.ids().contains(id), |id: u64| self.slots()[self.handle(id) as int])
    }

    /// Whether an edge connects nodes `a` and `b`.
    pub closed spec fn linked(&self, a: u64, b: u64) -> bool {
        &&& self.ids().contains(a)
        &&& self.ids().contains(b)
        &&& exists|e: int|
            0 <= e < self.edge_seq().len() && joins(
                #[trigger] self.edge_seq()[e],
                self.handle(a),
                self.handle(b),
            )
    }

    /// The weight of the edge between nodes `a` and `b`, when they are linked.
    pub closed spec fn weight(&self, a: u64, b: u64) -> EdgeWeight {
        let e = choose|e: int|
            0 <= e < self.edge_seq().len() && joins(
                #[trigger] self.edge_seq()[e],
                self.handle(a),
                self.handle(b),
            );
        self.edge_seq()[e].2
    }

    /// The metric of edges added without an explicit weight.
    pub closed spec fn metric_default(&self) -> DistanceMetric {
        self.default_metric
    }

    /// The connection cap of nodes added without an explicit one.
    pub closed spec fn max_connections_default(&self) -> usize {
        self.default_max_connections
    }

    /// The maps between ids and handles agree with the node list, every edge
    /// ends at existing nodes, and no two edges join the same pair.
    pub closed spec fn wf(&self) -> bool {
        let ns = self.slots();
        let es = self.edge_seq();
        &&& ns.len() <= HANDLE_LIMIT
        &&& es.len() <= HANDLE_LIMIT
        &&& self.id_to_index@.len() == ns.len()
        &&& forall|i: int|
            0 <= i < ns.len() ==> self.id_to_index@.contains_key(#[trigger] ns[i].id)
                && self.id_to_index@[ns[i].id] == i
        &&& forall|id: u64| #[trigger]
            self.id_to_index@.contains_key(id) ==> self.id_to_index@[id] < ns.len()
                && ns[self.id_to_index@[id] as int].id == id
        &&& forall|i: usize| #[trigger] self.index_to_id@.contains_key(i) <==> i < ns.len()
        &&& forall|i: usize| i < ns.len() ==> #[trigger] self.index_to_id@[i] == ns[i as int].id
        &&& forall|e: int| 0 <= e < es.len() ==> (#[trigger] es[e]).0 < ns.len() && es[e].1 < ns.len()
        &&& forall|e: int, f: int|
            0 <= e < es.len() && 0 <= f < es.len() && e != f ==> !joins(
                #[trigger] es[e],
                (#[trigger] es[f]).0,
                es[f].1,
            )
    }

    /// A well-formed graph has finitely many nodes, and its node map is
    /// defined on exactly its ids.
    pub proof fn lemma_ids(&self)
        requires
            self.wf(),
        ensures
            self.ids().finite(),
            self.nodes().dom() == self.ids(),
            forall|x: u64| #[trigger] self.nodes().contains_key(x) ==> self.nodes()[x].id == x,
            forall|a: u64, b: u64| #[trigger]
                self.linked(a, b) ==> self.ids().contains(a) && self.ids().contains(b),
            forall|a: u64, b: u64| #[trigger] self.linked(a, b) == self.linked(b, a),
    {
        assert forall|a: u64, b: u64| #[trigger] self.linked(a, b) == self.linked(b, a) by {
            if self.linked(a, b) {
                let e = choose|e: int|
                    0 <= e < self.edge_seq().len() && joins(
                        #[trigger] self.edge_seq()[e],
                        self.handle(a),
                        self.handle(b),
                    );
                assert(joins(self.edge_seq()[e], self.handle(b), self.handle(a)));
            }
            if self.linked(b, a) {
                let e = choose|e: int|
                    0 <= e < self.edge_seq().len() && joins(
                        #[trigger] self.edge_seq()[e],
                        self.handle(b),
                        self.handle(a),
                    );
                assert(joins(self.edge_seq()[e], self.handle(a), self.handle(b)));
            }
        }
        assert(self.nodes().dom() =~= self.ids());
        assert forall|x: u64| #[trigger] self.nodes().contains_key(x) implies self.nodes()[x].id
            == x by {}
    }

    /// The weight of a pair is that of any edge joining it, and it is the
    /// same from either end.
    pub proof fn lemma_weight_at(&self, a: u64, b: u64, e: int)
        requires
            self.wf(),
            self.ids().contains(a),
            self.ids().contains(b),
            0 <= e < self.edge_seq().len(),
            joins(self.edge_seq()[e], self.handle(a), self.handle(b)),
        ensures
            self.linked(a, b),
            self.linked(b, a),
            self.weight(a, b) == self.edge_seq()[e].2,
            self.weight(b, a) == self.edge_seq()[e].2,
    {
        let es = self.edge_seq();
        assert(joins(es[e], self.handle(b), self.handle(a)));
        let c = choose|c: int|
            0 <= c < es.len() && joins(#[trigger] es[c], self.handle(a), self.handle(b));
        if c != e {
            assert(joins(es[c], es[e].0, es[e].1));
        }
        let d = choose|d: int|
            0 <= d < es.len() && joins(#[trigger] es[d], self.handle(b), self.handle(a));
        if d != e {
            assert(joins(es[d], es[e].0, es[e].1));
        }
    }

    /// Linked pairs have the same weight from either end.
    pub proof fn lemma_weight_symmetric(&self, a: u64, b: u64)
        requires
            self.wf(),
            self.linked(a, b),
        ensures
            self.weight(a, b) == self.weight(b, a),
    {
        let e = choose|e: int|
            0 <= e < self.edge_seq().len() && joins(
                #[trigger] self.edge_seq()[e],
                self.handle(a),
                self.handle(b),
            );
        self.lemma_weight_at(a, b, e);
    }

    /// Creates an empty graph.
    pub fn new(default_metric: DistanceMetric, default_max_connections: usize) -> (r: Self)
        ensures
            r.wf(),
            r.ids() == Set::<u64>::empty(),
            r.ids().len() == 0,
            r.edge_seq().len() == 0,
            r.nodes() == Map::<u64, VectorNode>::empty(),
            forall|a: u64, b: u64| !r.linked(a, b),
            r.metric_default() == default_metric,
            r.max_connections_default() == default_max_connections,
    {
        let r = VectorGraph {
            graph: pg_new(),
            id_to_index: HashMap::new(),
            index_to_id: HashMap::new(),
            default_metric,
            default_max_connections,
        };
        assert(r.nodes() =~= Map::<u64, VectorNode>::empty());
        assert(r.ids() =~= Set::<u64>::empty());
        r
    }

    /// The number of nodes.
    pub fn node_count(&self) -> (r: usize)
        requires
            self.wf(),
        ensures
            r == self.ids().len(),
    {
        self.id_to_index.len()
    }

    /// The number of edges.
    pub fn edge_count(&self) -> (r: usize)
        requires
            self.wf(),
        ensures
            r == self.edge_seq().len(),
    {
        pg_edge_count(&self.graph)
    }

    /// The handle of node `id`, or `None` when there is no such node.
    fn get_node_index(&self, id: u64) -> (r: Option<usize>)
        requires
            self.wf(),
        ensures
            match r {
                Some(h) => self.ids().contains(id) && h == self.handle(id) && h
                    < self.slots().len(),
                None => !self.ids().contains(id),
            },
    {
        match self.id_to_index.get(&id) {
            Some(h) => Some(*h),
            None => None,
        }
    }

    /// The id of the node at handle `index`, or `None` when there is none.
    fn get_node_id(&self, index: usize) -> (r: Option<u64>)
        requires
            self.wf(),
        ensures
            match r {
                Some(id) => index < self.slots().len() && id == self.slots()[index as int].id
                    && self.ids().contains(id) && self.handle(id) == index,
                None => index >= self.slots().len(),
            },
    {
        match self.index_to_id.get(&index) {
            Some(id) => Some(*id),
            None => None,
        }
    }

    /// Whether a node with id `id` exists.
    pub fn contains_node(&self, id: u64) -> (r: bool)
        requires
            self.wf(),
        ensures
            r == self.ids().contains(id),
    {
        self.id_to_index.contains_key(&id)
    }

    /// The node with id `id`, or `None` when there is none.
    pub fn get_node(&self, id: u64) -> (r: Option<&VectorNode>)
        requires
            self.wf(),
        ensures
            match r {
                Some(n) => self.nodes().contains_key(id) && *n == self.nodes()[id],
                None => !self.nodes().contains_key(id),
            },
    {
        match self.get_node_index(id) {
            Some(h) => Some(pg_node(&self.graph, h)),
            None => None,
        }
    }

    /// Adds `node`; returns false, changing nothing, when its id is taken.
    pub fn add_node(&mut self, node: VectorNode) -> (r: bool)
        requires
            old(self).wf(),
            old(self).ids().len() < HANDLE_LIMIT,
        ensures
            final(self).wf(),
            r == !old(self).ids().contains(node.id),
            r ==> final(self).nodes() == old(self).nodes().insert(node.id, node),
            r ==> final(self).ids() == old(self).ids().insert(node.id),
            !r ==> final(self).nodes() == old(self).nodes(),
            final(self).ids().len() == old(self).ids().len() + (if r { 1int } else { 0int }),
            forall|a: u64, b: u64| #[trigger] final(self).linked(a, b) == old(self).linked(a, b),
            final(self).edge_seq() == old(self).edge_seq(),
            final(self).metric_default() == old(self).metric_default(),
            final(self).max_connections_default() == old(self).max_connections_default(),
            !r ==> *final(self) == *old(self),
            forall|a: u64, b: u64|
                final(self).linked(a, b) ==> #[trigger] final(self).weight(a, b) == old(self).weight(
                    a,
                    b,
                ),
    {
        if self.contains_node(node.id) {
            return false;
        }
        let ghost old_nodes = self.nodes();
        let ghost ns0 = self.slots();
        let node_id = node.id;
        let ghost n = node;
        let h = pg_add_node(&mut self.graph, node);
        self.id_to_index.insert(node_id, h);
        self.index_to_id.insert(h, node_id);
        proof {
            let ns = self.slots();
            assert(ns == ns0.push(n));
            assert forall|i: int| 0 <= i < ns.len() implies self.id_to_index@.contains_key(
                #[trigger] ns[i].id,
            ) && self.id_to_index@[ns[i].id] == i by {
                if i < ns0.len() {
                    assert(ns[i] == ns0[i]);
                }
            }
            assert(self.nodes() =~= old_nodes.insert(node_id, n));
            assert forall|a: u64, b: u64| #[trigger]
                self.linked(a, b) == old(self).linked(a, b) by {
                if old(self).ids().contains(a) && old(self).ids().contains(b) {
                    assert(self.handle(a) == old(self).handle(a));
                    assert(self.handle(b) == old(self).handle(b));
                } else if self.linked(a, b) {
                    let e = choose|e: int|
                        0 <= e < self.edge_seq().len() && joins(
                            #[trigger] self.edge_seq()[e],
                            self.handle(a),
                            self.handle(b),
                        );
                    assert(old(self).edge_seq()[e] == self.edge_seq()[e]);
                    assert(self.handle(node_id) == h);
                }
            }
        }
        true
    }

    /// Adds a node built from the given parts, with the default cap when
    /// `max_connections` is `None`; false when the id is taken.
    pub fn add_node_with_params(
        &mut self,
        id: u64,
        vector: Vec<u32>,
        layer: usize,
        max_connections: Option<usize>,
    ) -> (r: bool)
        requires
            old(self).wf(),
            old(self).ids().len() < HANDLE_LIMIT,
        ensures
            final(self).wf(),
            r == !old(self).ids().contains(id),
            r ==> final(self).nodes() == old(self).nodes().insert(
                id,
                VectorNode {
                    id,
                    vector,
                    layer,
                    max_connections: match max_connections {
                        Some(c) => c,
                        None => old(self).max_connections_default(),
                    },
                },
            ),
            !r ==> final(self).nodes() == old(self).nodes(),
            forall|a: u64, b: u64| #[trigger] final(self).linked(a, b) == old(self).linked(a, b),
            final(self).edge_seq() == old(self).edge_seq(),
            !r ==> *final(self) == *old(self),
            final(self).ids().len() == old(self).ids().len() + (if r { 1int } else { 0int }),
            forall|a: u64, b: u64|
                final(self).linked(a, b) ==> #[trigger] final(self).weight(a, b) == old(self).weight(
                    a,
                    b,
                ),
            final(self).metric_default() == old(self).metric_default(),
            final(self).max_connections_default() == old(self).max_connections_default(),
            r ==> final(self).ids() == old(self).ids().insert(id),
    {
        let max_connections = match max_connections {
            Some(c) => c,
            None => self.default_max_connections,
        };
        let node = VectorNode::new(id, vector, layer, max_connections);
        self.add_node(node)
    }

    /// Adds an edge between `from_id` and `to_id`; false, changing nothing,
    /// when either node is missing or the two are already connected.
    pub fn add_edge(&mut self, from_id: u64, to_id: u64, weight: EdgeWeight) -> (r: bool)
        requires
            old(self).wf(),
            old(self).edge_seq().len() < HANDLE_LIMIT,
        ensures
            final(self).wf(),
            r == (old(self).ids().contains(from_id) && old(self).ids().contains(to_id)
                && !old(self).linked(from_id, to_id)),
            final(self).nodes() == old(self).nodes(),
            final(self).ids() == old(self).ids(),
            forall|a: u64, b: u64| #[trigger]
                final(self).linked(a, b) == (old(self).linked(a, b) || (r && ((a == from_id && b
                    == to_id) || (a == to_id && b == from_id)))),
            final(self).edge_seq().len() == old(self).edge_seq().len() + (if r { 1int } else { 0int }),
            r ==> final(self).weight(from_id, to_id) == weight,
            final(self).metric_default() == old(self).metric_default(),
            final(self).max_connections_default() == old(self).max_connections_default(),
            !r ==> *final(self) == *old(self),
            forall|a: u64, b: u64|
                final(self).linked(a, b) && !same_pair(a, b, from_id, to_id)
                    ==> #[trigger] final(self).weight(a, b) == old(self).weight(a, b),
    {
        let from_index = match self.get_node_index(from_id) {
            Some(index) => index,
            None => return false,
        };
        let to_index = match self.get_node_index(to_id) {
            Some(index) => index,
            None => return false,
        };
        match pg_find_edge(&self.graph, from_index, to_index) {
            Some(e) => {
                assert(self.linked(from_id, to_id));
                return false;
            },
            None => {},
        }
        let ghost es0 = self.edge_seq();
        pg_add_edge(&mut self.graph, from_index, to_index, weight);
        proof {
            let es = self.edge_seq();
            assert(es == es0.push((from_index, to_index, weight)));
            assert forall|e: int, f: int|
                0 <= e < es.len() && 0 <= f < es.len() && e != f implies !joins(
                #[trigger] es[e],
                (#[trigger] es[f]).0,
                es[f].1,
            ) by {
                if e < es0.len() && f < es0.len() {
                    assert(es[e] == es0[e] && es[f] == es0[f]);
                } else if e < es0.len() {
                    assert(es[e] == es0[e]);
                } else {
                    assert(es[f] == es0[f]);
                }
            }
            assert(self.nodes() =~= old(self).nodes());
            assert forall|a: u64, b: u64| #[trigger]
                self.linked(a, b) == (old(self).linked(a, b) || ((a == from_id && b == to_id) || (a
                    == to_id && b == from_id))) by {
                if old(self).linked(a, b) {
                    let e = choose|e: int|
                        0 <= e < es0.len() && joins(
                            #[trigger] es0[e],
                            self.handle(a),
                            self.handle(b),
                        );
                    assert(es[e] == es0[e]);
                }
                if (a == from_id && b == to_id) || (a == to_id && b == from_id) {
                    assert(joins(es[es0.len() as int], self.handle(a), self.handle(b)));
                }
                if self.linked(a, b) {
                    let e = choose|e: int|
                        0 <= e < es.len() && joins(#[trigger] es[e], self.handle(a), self.handle(b));
                    if e < es0.len() {
                        assert(es[e] == es0[e]);
                    } else {
                        assert(self.slots()[self.handle(a) as int].id == a);
                        assert(self.slots()[self.handle(b) as int].id == b);
                    }
                }
            }
            let c = choose|c: int|
                0 <= c < es.len() && joins(
                    #[trigger] es[c],
                    self.handle(from_id),
                    self.handle(to_id),
                );
            assert(joins(es[es0.len() as int], self.handle(from_id), self.handle(to_id)));
            if c < es0.len() {
                assert(es[c] == es0[c]);
                assert(old(self).linked(from_id, to_id));
            }
        }
        true
    }

    /// Adds an edge weighted `distance` under the default metric.
    pub fn add_edge_with_distance(&mut self, from_id: u64, to_id: u64, distance: u32) -> (r: bool)
        requires
            old(self).wf(),
            old(self).edge_seq().len() < HANDLE_LIMIT,
        ensures
            final(self).wf(),
            r == (old(self).ids().contains(from_id) && old(self).ids().contains(to_id)
                && !old(self).linked(from_id, to_id)),
            final(self).nodes() == old(self).nodes(),
            forall|a: u64, b: u64| #[trigger]
                final(self).linked(a, b) == (old(self).linked(a, b) || (r && ((a == from_id && b
                    == to_id) || (a == to_id && b == from_id)))),
            final(self).ids() == old(self).ids(),
            final(self).edge_seq().len() == old(self).edge_seq().len() + (if r { 1int } else { 0int }),
            r ==> final(self).weight(from_id, to_id) == (EdgeWeight {
                distance,
                metric: old(self).metric_default(),
            }),
            !r ==> *final(self) == *old(self),
            forall|a: u64, b: u64|
                final(self).linked(a, b) && !same_pair(a, b, from_id, to_id)
                    ==> #[trigger] final(self).weight(a, b) == old(self).weight(a, b),
            final(self).metric_default() == old(self).metric_default(),
            final(self).max_connections_default() == old(self).max_connections_default(),
    {
        let weight = EdgeWeight::new(distance, self.default_metric);
        self.add_edge(from_id, to_id, weight)
    }

    /// Finds the edge handle between two linked nodes.
    fn find_edge_of(&self, from_id: u64, to_id: u64) -> (r: Option<usize>)
        requires
            self.wf(),
        ensures
            match r {
                Some(e) => self.linked(from_id, to_id) && e < self.edge_seq().len() && joins(
                    self.edge_seq()[e as int],
                    self.handle(from_id),
                    self.handle(to_id),
                ) && self.edge_seq()[e as int].2 == self.weight(from_id, to_id),
                None => !self.linked(from_id, to_id),
            },
    {
        let from_index = match self.get_node_index(from_id) {
            Some(index) => index,
            None => return None,
        };
        let to_index = match self.get_node_index(to_id) {
            Some(index) => index,
            None => return None,
        };
        let r = pg_find_edge(&self.graph, from_index, to_index);
        proof {
            let es = self.edge_seq();
            match r {
                Some(e) => {
                    assert(self.linked(from_id, to_id));
                    let c = choose|c: int|
                        0 <= c < es.len() && joins(#[trigger] es[c], from_index, to_index);
                    assert(c == e as int);
                },
                None => {},
            }
        }
        r
    }

    /// The weight of the edge between `from_id` and `to_id`, or `None` when
    /// they are not linked.
    pub fn get_edge_weight(&self, from_id: u64, to_id: u64) -> (r: Option<EdgeWeight>)
        requires
            self.wf(),
        ensures
            r == (if self.linked(from_id, to_id) {
                Some(self.weight(from_id, to_id))
            } else {
                None
            }),
            r == (if self.linked(to_id, from_id) {
                Some(self.weight(to_id, from_id))
            } else {
                None
            }),
    {
        proof {
            self.lemma_ids();
            if self.linked(from_id, to_id) {
                self.lemma_weight_symmetric(from_id, to_id);
            }
        }
        match self.find_edge_of(from_id, to_id) {
            Some(e) => Some(pg_edge_weight(&self.graph, e)),
            None => None,
        }
    }

    /// Whether `from_id` and `to_id` are linked.
    pub fn has_edge(&self, from_id: u64, to_id: u64) -> (r: bool)
        requires
            self.wf(),
        ensures
            r == self.linked(from_id, to_id),
    {
        self.get_edge_weight(from_id, to_id).is_some()
    }

    /// Removes the edge between `from_id` and `to_id`; false, changing
    /// nothing, when there is none.
    pub fn remove_edge(&mut self, from_id: u64, to_id: u64) -> (r: bool)
        requires
            old(self).wf(),
        ensures
            final(self).wf(),
            r == old(self).linked(from_id, to_id),
            final(self).nodes() == old(self).nodes(),
            final(self).ids() == old(self).ids(),
            forall|a: u64, b: u64| #[trigger]
                final(self).linked(a, b) == (old(self).linked(a, b) && !((a == from_id && b
                    == to_id) || (a == to_id && b == from_id))),
            final(self).edge_seq().len() == old(self).edge_seq().len() - (if r { 1int } else { 0int }),
            final(self).metric_default() == old(self).metric_default(),
            final(self).max_connections_default() == old(self).max_connections_default(),
            !r ==> *final(self) == *old(self),
            forall|a: u64, b: u64|
                final(self).linked(a, b) ==> #[trigger] final(self).weight(a, b) == old(self).weight(
                    a,
                    b,
                ),
    {
        match self.find_edge_of(from_id, to_id) {
            None => {
                assert(self.nodes() =~= old(self).nodes());
                false
            },
            Some(e) => {
                let ghost es0 = self.edge_seq();
                let ghost last = es0.len() - 1;
                pg_remove_edge(&mut self.graph, e);
                proof {
                    let es = self.edge_seq();
                    assert forall|k: int| 0 <= k < es.len() implies #[trigger] es[k] == es0[if k
                        == e {
                        last
                    } else {
                        k
                    }] by {}
                    assert forall|x: int, y: int|
                        0 <= x < es.len() && 0 <= y < es.len() && x != y implies !joins(
                        #[trigger] es[x],
                        (#[trigger] es[y]).0,
                        es[y].1,
                    ) by {
                        let x0 = if x == e {
                            last
                        } else {
                            x
                        };
                        let y0 = if y == e {
                            last
                        } else {
                            y
                        };
                        assert(es[x] == es0[x0] && es[y] == es0[y0]);
                    }
                    assert(self.nodes() =~= old(self).nodes());
                    assert forall|a: u64, b: u64| #[trigger]
                        self.linked(a, b) == (old(self).linked(a, b) && !((a == from_id && b
                            == to_id) || (a == to_id && b == from_id))) by {
                        let ha = self.handle(a);
                        let hb = self.handle(b);
                        if self.linked(a, b) {
                            let k = choose|k: int|
                                0 <= k < es.len() && joins(#[trigger] es[k], ha, hb);
                            let k0 = if k == e {
                                last
                            } else {
                                k
                            };
                            assert(es[k] == es0[k0]);
                            if (a == from_id && b == to_id) || (a == to_id && b == from_id) {
                                assert(joins(es0[k0], es0[e as int].0, es0[e as int].1));
                            }
                        }
                        if old(self).linked(a, b) && !((a == from_id && b == to_id) || (a == to_id
                            && b == from_id)) {
                            let k = choose|k: int|
                                0 <= k < es0.len() && joins(#[trigger] es0[k], ha, hb);
                            assert(self.slots()[ha as int].id == a);
                            assert(self.slots()[hb as int].id == b);
                            assert(self.slots()[self.handle(from_id) as int].id == from_id);
                            assert(self.slots()[self.handle(to_id) as int].id == to_id);
                            assert(k != e);
                            if k == last {
                                assert(es[e as int] == es0[k]);
                            } else {
                                assert(es[k] == es0[k]);
                            }
                        }
                    }
                }
                true
            },
        }
    }

    /// Replaces the weight of the edge between `from_id` and `to_id`; false,
    /// changing nothing, when there is none.
    pub fn update_edge_weight(&mut self, from_id: u64, to_id: u64, new_weight: EdgeWeight) -> (r:
        bool)
        requires
            old(self).wf(),
        ensures
            final(self).wf(),
            r == old(self).linked(from_id, to_id),
            final(self).nodes() == old(self).nodes(),
            forall|a: u64, b: u64| #[trigger] final(self).linked(a, b) == old(self).linked(a, b),
            r ==> final(self).weight(from_id, to_id) == new_weight,
            !r ==> *final(self) == *old(self),
            r ==> final(self).weight(to_id, from_id) == new_weight,
            final(self).ids() == old(self).ids(),
            final(self).edge_seq().len() == old(self).edge_seq().len(),
            forall|a: u64, b: u64|
                final(self).linked(a, b) && !same_pair(a, b, from_id, to_id)
                    ==> #[trigger] final(self).weight(a, b) == old(self).weight(a, b),
    {
        match self.find_edge_of(from_id, to_id) {
            None => {
                assert(self.nodes() =~= old(self).nodes());
                false
            },
            Some(e) => {
                let ghost es0 = self.edge_seq();
                pg_set_edge_weight(&mut self.graph, e, new_weight);
                proof {
                    let es = self.edge_seq();
                    assert forall|k: int| 0 <= k < es.len() implies (#[trigger] es[k]).0 == es0[k].0
                        && es[k].1 == es0[k].1 by {}
                    assert(self.nodes() =~= old(self).nodes());
                    assert forall|a: u64, b: u64| #[trigger]
                        self.linked(a, b) == old(self).linked(a, b) by {
                        if self.linked(a, b) {
                            let k = choose|k: int|
                                0 <= k < es.len() && joins(
                                    #[trigger] es[k],
                                    self.handle(a),
                                    self.handle(b),
                                );
                            assert(joins(es0[k], self.handle(a), self.handle(b)));
                        }
                        if old(self).linked(a, b) {
                            let k = choose|k: int|
                                0 <= k < es0.len() && joins(
                                    #[trigger] es0[k],
                                    self.handle(a),
                                    self.handle(b),
                                );
                            assert(joins(es[k], self.handle(a), self.handle(b)));
                        }
                    }
                    assert(joins(es[e as int], self.handle(from_id), self.handle(to_id)));
                    let c = choose|c: int|
                        0 <= c < es.len() && joins(
                            #[trigger] es[c],
                            self.handle(from_id),
                            self.handle(to_id),
                        );
                    assert(c == e as int);
                }
                true
            },
        }
    }

    /// The ids linked to `id`, or `None` when there is no node `id`.
    pub fn get_neighbors(&self, id: u64) -> (r: Option<Vec<u64>>)
        requires
            self.wf(),
        ensures
            match r {
                Some(v) => self.ids().contains(id) && v@.no_duplicates() && forall|x: u64|
                    #[trigger] v@.contains(x) <==> self.linked(id, x),
                None => !self.ids().contains(id),
            },
    {
        let h = match self.get_node_index(id) {
            Some(h) => h,
            None => return None,
        };
        let hs = pg_neighbors(&self.graph, h);
        let ghost es = self.edge_seq();
        let ghost ns = self.slots();
        proof {
            assert forall|j: int| 0 <= j < hs@.len() implies #[trigger] hs@[j] < ns.len() by {
                let k = hs@[j];
                assert(hs@.to_set().contains(k));
                let e = choose|e: int| 0 <= e < es.len() && joins(#[trigger] es[e], h, k);
                assert(es[e].0 < ns.len() && es[e].1 < ns.len());
            }
        }
        let mut out: Vec<u64> = Vec::new();
        let mut seen: HashSet<usize> = HashSet::new();
        let mut i: usize = 0;
        while i < hs.len()
            invariant
                self.wf(),
                self.ids().contains(id),
                h == self.handle(id),
                es == self.edge_seq(),
                ns == self.slots(),
                i <= hs.len(),
                hs@.to_set() == Set::new(
                    |k: usize|
                        exists|e: int| 0 <= e < es.len() && joins(#[trigger] es[e], h, k),
                ),
                out@.no_duplicates(),
                forall|x: u64|
                    #[trigger] out@.contains(x) <==> exists|j: int|
                        0 <= j < i && ns[hs@[j] as int].id == x,
                forall|k: usize|
                    #[trigger] seen@.contains(k) <==> exists|j: int| 0 <= j < i && hs@[j] == k,
                forall|j: int| 0 <= j < hs@.len() ==> #[trigger] hs@[j] < ns.len(),
            decreases hs.len() - i,
        {
            let k = hs[i];
            if !seen.contains(&k) {
                let x = match self.get_node_id(k) {
                    Some(x) => x,
                    None => {
                        assert(false);
                        0
                    },
                };
                let ghost out0 = out@;
                proof {
                    if out0.contains(x) {
                        let j = choose|j: int| 0 <= j < i && ns[hs@[j] as int].id == x;
                        assert(self.handle(x) == hs@[j]);
                        assert(self.handle(x) == k);
                        assert(seen@.contains(k));
                    }
                }
                out.push(x);
                seen.insert(k);
                proof {
                    assert forall|y: u64|
                        #[trigger] out@.contains(y) <==> exists|j: int|
                            0 <= j < i + 1 && ns[hs@[j] as int].id == y by {
                        if out@.contains(y) && y != x {
                            let q = choose|q: int| 0 <= q < out@.len() && out@[q] == y;
                            assert(out0[q] == y);
                            assert(out0.contains(y));
                        }
                        if y == x {
                            assert(ns[hs@[i as int] as int].id == y);
                            assert(out@[out0.len() as int] == y);
                        }
                        if exists|j: int| 0 <= j < i + 1 && ns[hs@[j] as int].id == y {
                            let j = choose|j: int| 0 <= j < i + 1 && ns[hs@[j] as int].id == y;
                            if j < i {
                                assert(out0.contains(y));
                                let q = choose|q: int| 0 <= q < out0.len() && out0[q] == y;
                                assert(out@[q] == y);
                            } else {
                                assert(out@[out0.len() as int] == y);
                            }
                        }
                    }
                    assert forall|p: int, q: int|
                        0 <= p < out@.len() && 0 <= q < out@.len() && p != q implies out@[p] != out@[q] by {
                        if p < out0.len() && q < out0.len() {
                            assert(out@[p] == out0[p] && out@[q] == out0[q]);
                        } else if p < out0.len() {
                            assert(out0.contains(out0[p]));
                        } else {
                            assert(out0.contains(out0[q]));
                        }
                    }
                }
            } else {
                proof {
                    let j = choose|j: int| 0 <= j < i && hs@[j] == k;
                    assert forall|y: u64|
                        #[trigger] out@.contains(y) <==> exists|j2: int|
                            0 <= j2 < i + 1 && ns[hs@[j2] as int].id == y by {
                        if exists|j2: int| 0 <= j2 < i + 1 && ns[hs@[j2] as int].id == y {
                            let j2 = choose|j2: int| 0 <= j2 < i + 1 && ns[hs@[j2] as int].id == y;
                            if j2 == i {
                                assert(ns[hs@[j] as int].id == y);
                            }
                        }
                    }
                }
            }
            i += 1;
        }
        proof {
            assert forall|x: u64| #[trigger] out@.contains(x) <==> self.linked(id, x) by {
                if out@.contains(x) {
                    let j = choose|j: int| 0 <= j < hs@.len() && ns[hs@[j] as int].id == x;
                    let k = hs@[j];
                    assert(hs@.to_set().contains(k));
                    let e = choose|e: int| 0 <= e < es.len() && joins(#[trigger] es[e], h, k);
                    assert(self.handle(x) == k);
                }
                if self.linked(id, x) {
                    let k = self.handle(x);
                    let e = choose|e: int|
                        0 <= e < es.len() && joins(#[trigger] es[e], self.handle(id), k);
                    assert(hs@.to_set().contains(k));
                    let j = choose|j: int| 0 <= j < hs@.len() && hs@[j] == k;
                    assert(ns[hs@[j] as int].id == x);
                }
            }
        }
        Some(out)
    }

    /// The ids linked to `id`, each with the weight of its edge, or `None`
    /// when there is no node `id`.
    pub fn get_neighbors_with_weights(&self, id: u64) -> (r: Option<Vec<(u64, EdgeWeight)>>)
        requires
            self.wf(),
        ensures
            match r {
                Some(v) => self.ids().contains(id) && (forall|p: int, q: int|
                    0 <= p < v@.len() && 0 <= q < v@.len() && p != q ==> (#[trigger] v@[p]).0
                        != (#[trigger] v@[q]).0) && (forall|j: int|
                    0 <= j < v@.len() ==> self.linked(id, (#[trigger] v@[j]).0) && v@[j].1
                        == self.weight(id, v@[j].0)) && forall|x: u64|
                    self.linked(id, x) ==> exists|j: int| 0 <= j < v@.len() && (#[trigger] v@[j]).0 == x,
                None => !self.ids().contains(id),
            },
    {
        let ns = match self.get_neighbors(id) {
            Some(ns) => ns,
            None => return None,
        };
        let mut out: Vec<(u64, EdgeWeight)> = Vec::new();
        let mut i: usize = 0;
        while i < ns.len()
            invariant
                self.wf(),
                self.ids().contains(id),
                forall|x: u64| #[trigger] ns@.contains(x) <==> self.linked(id, x),
                ns@.no_duplicates(),
                i <= ns.len(),
                out@.len() == i,
                forall|j: int|
                    0 <= j < i ==> (#[trigger] out@[j]).0 == ns@[j] && self.linked(id, ns@[j])
                        && out@[j].1 == self.weight(id, ns@[j]),
            decreases ns.len() - i,
        {
            let x = ns[i];
            assert(ns@.contains(x));
            match self.get_edge_weight(id, x) {
                Some(w) => {
                    out.push((x, w));
                },
                None => {
                    assert(false);
                },
            }
            i += 1;
        }
        proof {
            assert forall|x: u64| self.linked(id, x) implies exists|j: int|
                0 <= j < out@.len() && (#[trigger] out@[j]).0 == x by {
                assert(ns@.contains(x));
                let j = choose|j: int| 0 <= j < ns@.len() && ns@[j] == x;
                assert(out@[j].0 == x);
            }
        }
        Some(out)
    }

    /// The nodes whose top layer is `layer`.
    pub fn get_nodes_at_layer(&self, layer: usize) -> (r: Vec<u64>)
        requires
            self.wf(),
        ensures
            r@.no_duplicates(),
            forall|x: u64|
                #[trigger] r@.contains(x) <==> (self.nodes().contains_key(x)
                    && self.nodes()[x].layer == layer),
    {
        let n = pg_node_count(&self.graph);
        let ghost ns = self.slots();
        let mut out: Vec<u64> = Vec::new();
        let mut i: usize = 0;
        while i < n
            invariant
                self.wf(),
                ns == self.slots(),
                n == ns.len(),
                i <= n,
                forall|x: u64|
                    #[trigger] out@.contains(x) <==> exists|j: int|
                        0 <= j < i && (#[trigger] ns[j]).id == x && ns[j].layer == layer,
            out@.no_duplicates(),
            decreases n - i,
        {
            let node = pg_node(&self.graph, i);
            let ghost out0 = out@;
            if node.layer == layer {
                proof {
                    if out0.contains(node.id) {
                        let j = choose|j: int|
                            0 <= j < i && (#[trigger] ns[j]).id == node.id && ns[j].layer == layer;
                        assert(self.id_to_index@[ns[j].id] == j);
                        assert(self.id_to_index@[ns[i as int].id] == i);
                    }
                }
                out.push(node.id);
                proof {
                    assert forall|p: int, q: int|
                        0 <= p < out@.len() && 0 <= q < out@.len() && p != q implies out@[p] != out@[q] by {
                        if p < out0.len() && q < out0.len() {
                            assert(out@[p] == out0[p] && out@[q] == out0[q]);
                        } else if p < out0.len() {
                            assert(out0.contains(out0[p]));
                        } else {
                            assert(out0.contains(out0[q]));
                        }
                    }
                }
            }
            proof {
                assert forall|x: u64|
                    #[trigger] out@.contains(x) <==> exists|j: int|
                        0 <= j < i + 1 && (#[trigger] ns[j]).id == x && ns[j].layer == layer by {
                    if out@.contains(x) {
                        let k = choose|k: int| 0 <= k < out@.len() && out@[k] == x;
                        if k < out0.len() {
                            assert(out0[k] == x);
                            assert(out0.contains(x));
                        } else {
                            assert(ns[i as int].id == x);
                        }
                    }
                    if exists|j: int| 0 <= j < i + 1 && (#[trigger] ns[j]).id == x && ns[j].layer == layer {
                        let j = choose|j: int| 0 <= j < i + 1 && (#[trigger] ns[j]).id == x && ns[j].layer == layer;
                        if j < i {
                            assert(out0.contains(x));
                            let k = choose|k: int| 0 <= k < out0.len() && out0[k] == x;
                            assert(out@[k] == x);
                        } else {
                            assert(out@[out@.len() - 1] == x);
                        }
                    }
                }
            }
            i += 1;
        }
        proof {
            assert forall|x: u64| #[trigger]
                out@.contains(x) <==> (self.nodes().contains_key(x) && self.nodes()[x].layer
                    == layer) by {
                if self.nodes().contains_key(x) && self.nodes()[x].layer == layer {
                    assert(ns[self.handle(x) as int].id == x);
                }
                if out@.contains(x) {
                    let j = choose|j: int| 0 <= j < n && (#[trigger] ns[j]).id == x && ns[j].layer == layer;
                    assert(self.ids().contains(ns[j].id));
                }
            }
        }
        out
    }

    /// The highest layer of any node, or `None` when the graph is empty.
    pub fn max_layer(&self) -> (r: Option<usize>)
        requires
            self.wf(),
        ensures
            match r {
                Some(m) => (exists|x: u64|
                    #[trigger] self.nodes().contains_key(x) && self.nodes()[x].layer == m)
                    && forall|x: u64| #[trigger]
                    self.nodes().contains_key(x) ==> self.nodes()[x].layer <= m,
                None => self.ids().len() == 0,
            },
    {
        let n = pg_node_count(&self.graph);
        let ghost ns = self.slots();
        if n == 0 {
            return None;
        }
        let mut best: usize = pg_node(&self.graph, 0).layer;
        let mut i: usize = 1;
        while i < n
            invariant
                self.wf(),
                ns == self.slots(),
                n == ns.len(),
                1 <= i <= n,
                exists|j: int| 0 <= j < i && (#[trigger] ns[j]).layer == best,
                forall|j: int| 0 <= j < i ==> (#[trigger] ns[j]).layer <= best,
            decreases n - i,
        {
            let l = pg_node(&self.graph, i).layer;
            if l > best {
                best = l;
            }
            i += 1;
        }
        proof {
            let j = choose|j: int| 0 <= j < n && (#[trigger] ns[j]).layer == best;
            let x = ns[j].id;
            assert(self.nodes().contains_key(x));
            assert forall|y: u64| #[trigger]
                self.nodes().contains_key(y) implies self.nodes()[y].layer <= best by {
                assert(ns[self.handle(y) as int].id == y);
            }
        }
        Some(best)
    }

    /// Removes node `id` with all its edges; false, changing nothing, when
    /// there is no such node.
    pub fn remove_node(&mut self, id: u64) -> (r: bool)
        requires
            old(self).wf(),
        ensures
            final(self).wf(),
            r == old(self).ids().contains(id),
            final(self).nodes() == old(self).nodes().remove(id),
            final(self).ids() == old(self).ids().remove(id),
            forall|a: u64, b: u64| #[trigger]
                final(self).linked(a, b) == (old(self).linked(a, b) && a != id && b != id),
            !r ==> *final(self) == *old(self),
            forall|a: u64, b: u64|
                final(self).linked(a, b) ==> #[trigger] final(self).weight(a, b) == old(self).weight(
                    a,
                    b,
                ),
            final(self).edge_seq().len() == old(self).edge_seq().len() - Set::new(
                |x: u64| old(self).linked(id, x),
            ).len(),
    {
        proof {
            self.lemma_ids();
        }
        let nbs = match self.get_neighbors(id) {
            Some(nbs) => nbs,
            None => {
                proof {
                    assert(self.nodes() =~= old(self).nodes().remove(id));
                    assert(self.ids() =~= old(self).ids().remove(id));
                    assert(Set::new(|x: u64| old(self).linked(id, x)) =~= Set::<u64>::empty());
                }
                return false;
            },
        };
        proof {
            assert forall|j: int| 0 <= j < nbs@.len() implies self.linked(id, #[trigger] nbs@[j]) by {
                assert(nbs@.contains(nbs@[j]));
            }
        }
        let mut i: usize = 0;
        while i < nbs.len()
            invariant
                self.wf(),
                self.nodes() == old(self).nodes(),
                self.ids() == old(self).ids(),
                self.ids().contains(id),
                i <= nbs@.len(),
                forall|x: u64| #[trigger] old(self).linked(id, x) ==> nbs@.contains(x),
                forall|j: int| 0 <= j < i ==> !self.linked(id, #[trigger] nbs@[j]),
                forall|a: u64, b: u64| #[trigger]
                    self.linked(a, b) ==> old(self).linked(a, b),
                forall|a: u64, b: u64|
                    a != id && b != id ==> (#[trigger] self.linked(a, b) == old(self).linked(a, b)),
                forall|a: u64, b: u64|
                    self.linked(a, b) ==> #[trigger] self.weight(a, b) == old(self).weight(a, b),
                nbs@.no_duplicates(),
                forall|j: int| i <= j < nbs@.len() ==> self.linked(id, #[trigger] nbs@[j]),
                self.edge_seq().len() == old(self).edge_seq().len() - i,
            decreases nbs@.len() - i,
        {
            let x = nbs[i];
            self.remove_edge(id, x);
            proof {
                assert forall|j: int| i + 1 <= j < nbs@.len() implies self.linked(id, #[trigger] nbs@[j]) by {
                    assert(nbs@[j] != nbs@[i as int]);
                }
            }
            i += 1;
        }
        proof {
            assert(nbs@.to_set() =~= Set::new(|x: u64| old(self).linked(id, x)));
            nbs@.unique_seq_to_set();
        }
        let h = match self.get_node_index(id) {
            Some(h) => h,
            None => {
                assert(false);
                return false;
            },
        };
        let n = pg_node_count(&self.graph);
        let last: usize = n - 1;
        let ghost ns0 = self.slots();
        let ghost es0 = self.edge_seq();
        let ghost g0 = *self;
        proof {
            assert forall|e: int| 0 <= e < es0.len() implies !touches(#[trigger] es0[e], h) by {
                if touches(es0[e], h) {
                    let k = if es0[e].0 == h {
                        es0[e].1
                    } else {
                        es0[e].0
                    };
                    let x = ns0[k as int].id;
                    assert(self.handle(x) == k);
                    assert(joins(es0[e], h, k));
                    assert(self.linked(id, x));
                    assert(old(self).linked(id, x));
                    assert(nbs@.contains(x));
                    let j = choose|j: int| 0 <= j < nbs@.len() && nbs@[j] == x;
                    assert(!self.linked(id, nbs@[j]));
                }
            }
        }
        let moved_id = match self.get_node_id(last) {
            Some(m) => m,
            None => {
                assert(false);
                0
            },
        };
        pg_remove_node(&mut self.graph, h);
        self.id_to_index.remove(&id);
        self.index_to_id.remove(&last);
        if h != last {
            self.id_to_index.insert(moved_id, h);
            self.index_to_id.insert(h, moved_id);
        }
        proof {
            let ns = self.slots();
            let es = self.edge_seq();
            assert(ns.len() == ns0.len() - 1);
            assert forall|k: int| 0 <= k < ns.len() implies #[trigger] ns[k] == (if k == h {
                ns0[last as int]
            } else {
                ns0[k]
            }) by {}
            assert forall|x: u64| #[trigger] self.id_to_index@.contains_key(x) <==> (g0.ids().contains(x) && x != id) by {
                if x == moved_id && h != last {
                    assert(g0.ids().contains(x));
                }
            }
            assert(self.id_to_index@.dom() =~= g0.ids().remove(id));
            assert forall|x: u64| #[trigger] self.id_to_index@.contains_key(x) implies self.id_to_index@[x] == moved(g0.handle(x), h, last) by {
                if x != moved_id {
                    assert(g0.handle(x) != last);
                } else {
                    assert(g0.handle(x) == last);
                }
            }
            assert forall|i: int|
                0 <= i < ns.len() implies self.id_to_index@.contains_key(#[trigger] ns[i].id)
                    && self.id_to_index@[ns[i].id] == i by {
                if i == h {
                    assert(ns[i] == ns0[last as int]);
                    assert(ns0[last as int].id == moved_id);
                } else {
                    assert(ns[i] == ns0[i]);
                    assert(g0.handle(ns0[i].id) == i);
                }
            }
            assert forall|x: u64| #[trigger]
                self.id_to_index@.contains_key(x) implies self.id_to_index@[x] < ns.len()
                    && ns[self.id_to_index@[x] as int].id == x by {
                let hx = g0.handle(x);
                assert(ns0[hx as int].id == x);
            }
            assert forall|i: usize| #[trigger] self.index_to_id@.contains_key(i) <==> i < ns.len() by {}
            assert forall|i: usize| i < ns.len() implies #[trigger] self.index_to_id@[i] == ns[i as int].id by {
                if i == h {
                    assert(ns[i as int] == ns0[last as int]);
                } else {
                    assert(ns[i as int] == ns0[i as int]);
                }
            }
            assert forall|e: int| 0 <= e < es.len() implies (#[trigger] es[e]).0 < ns.len() && es[e].1 < ns.len() by {
                assert(!touches(es0[e], h));
            }
            assert forall|e: int, f: int|
                0 <= e < es.len() && 0 <= f < es.len() && e != f implies !joins(
                #[trigger] es[e],
                (#[trigger] es[f]).0,
                es[f].1,
            ) by {
                assert(!touches(es0[e], h));
                assert(!touches(es0[f], h));
                assert(!joins(es0[e], es0[f].0, es0[f].1));
            }
            assert(self.nodes() =~= old(self).nodes().remove(id)) by {
                assert forall|x: u64| #[trigger] self.nodes().contains_key(x) implies self.nodes()[x] == old(self).nodes()[x] by {
                    let hx = g0.handle(x);
                    assert(ns0[hx as int].id == x);
                    if hx == last {
                        assert(self.handle(x) == h);
                    } else {
                        assert(self.handle(x) == hx);
                    }
                }
            }
            assert forall|a: u64, b: u64| #[trigger]
                self.linked(a, b) == (old(self).linked(a, b) && a != id && b != id) by {
                if a != id && b != id && g0.ids().contains(a) && g0.ids().contains(b) {
                    let ha = g0.handle(a);
                    let hb = g0.handle(b);
                    assert(self.handle(a) == moved(ha, h, last));
                    assert(self.handle(b) == moved(hb, h, last));
                    assert(ha != h && hb != h);
                    if g0.linked(a, b) {
                        let e = choose|e: int| 0 <= e < es0.len() && joins(#[trigger] es0[e], ha, hb);
                        assert(joins(es[e], self.handle(a), self.handle(b)));
                    }
                    if self.linked(a, b) {
                        let e = choose|e: int| 0 <= e < es.len() && joins(#[trigger] es[e], self.handle(a), self.handle(b));
                        assert(!touches(es0[e], h));
                        assert(joins(es0[e], ha, hb));
                    }
                }
            }
            assert forall|a: u64, b: u64|
                self.linked(a, b) implies #[trigger] self.weight(a, b) == old(self).weight(a, b) by {
                let ha = g0.handle(a);
                let hb = g0.handle(b);
                assert(self.handle(a) == moved(ha, h, last));
                assert(self.handle(b) == moved(hb, h, last));
                let e = choose|e: int|
                    0 <= e < es.len() && joins(#[trigger] es[e], self.handle(a), self.handle(b));
                assert(!touches(es0[e], h));
                assert(joins(es0[e], ha, hb));
                g0.lemma_weight_at(a, b, e);
                self.lemma_weight_at(a, b, e);
            }
        }
        true
    }

    /// Removes every node and edge.
    pub fn clear(&mut self)
        requires
            old(self).wf(),
        ensures
            final(self).wf(),
            final(self).nodes() == Map::<u64, VectorNode>::empty(),
            final(self).ids() == Set::<u64>::empty(),
            final(self).ids().len() == 0,
            final(self).edge_seq().len() == 0,
            forall|a: u64, b: u64| !final(self).linked(a, b),
            final(self).metric_default() == old(self).metric_default(),
            final(self).max_connections_default() == old(self).max_connections_default(),
    {
        pg_clear(&mut self.graph);
        self.id_to_index.clear();
        self.index_to_id.clear();
        proof {
            assert(self.nodes() =~= Map::<u64, VectorNode>::empty());
            assert(self.ids() =~= Set::<u64>::empty());
        }
    }
}

} // verus!
