//! The graph store: a `petgraph` graph whose node weights are arities and whose edge
//! weights are slots, and the operations on it that the library builds on.
//!
//! Nothing in this file is proved. Each function states what the `petgraph` operation
//! in its body does, over the two sequences that the store holds.

use vstd::prelude::*;
use petgraph::visit::EdgeRef;
use petgraph::visit::Walker;
use crate::index::NodeIndex;
use crate::relation::{feeds, has_cycle, reaches, Edge};

verus! {

#[verifier::external_type_specification]
#[verifier::external_body]
#[verifier::reject_recursive_types(N)]
#[verifier::reject_recursive_types(E)]
#[verifier::reject_recursive_types(Ty)]
#[verifier::reject_recursive_types(Ix)]
pub struct ExGraph<N, E, Ty, Ix>(petgraph::graph::Graph<N, E, Ty, Ix>);

#[verifier::external_type_specification]
#[verifier::external_body]
pub struct ExDirected(petgraph::Directed);

/// A directed graph with an arity on each node and a slot on each edge.
pub type Store = petgraph::graph::Graph<usize, usize, petgraph::Directed, u32>;

/// The node weights that a store holds, each at the index of its node.
pub uninterp spec fn store_nodes(g: Store) -> Seq<usize>;

/// The edges that a store holds, each at its edge index.
pub uninterp spec fn store_edges(g: Store) -> Seq<Edge>;

/// `Graph::new`: a graph without nodes and without edges.
#[verifier::external_body]
pub(crate) fn store_new() -> (g: Store)
    ensures
        store_nodes(g) == Seq::<usize>::empty(),
        store_edges(g) == Seq::<Edge>::empty(),
{
    petgraph::graph::Graph::new()
}

/// `Graph::node_count`: the number of nodes.
#[verifier::external_body]
pub(crate) fn store_node_count(g: &Store) -> (count: usize)
    ensures
        count == store_nodes(*g).len(),
{
    g.node_count()
}

/// `Graph::edge_count`: the number of edges.
#[verifier::external_body]
pub(crate) fn store_edge_count(g: &Store) -> (count: usize)
    ensures
        count == store_edges(*g).len(),
{
    g.edge_count()
}

/// `Graph::add_node`: the node is appended and gets the next index; the edges stay.
/// The call panics when the next index is the largest `u32`, which `requires` excludes.
#[verifier::external_body]
pub(crate) fn store_add_node(g: &mut Store, weight: usize) -> (a: NodeIndex)
    requires
        store_nodes(*old(g)).len() < u32::MAX,
    ensures
        store_nodes(*final(g)) == store_nodes(*old(g)).push(weight),
        store_edges(*final(g)) == store_edges(*old(g)),
        a.ix == store_nodes(*old(g)).len(),
{
    NodeIndex { ix: g.add_node(weight).index() as u32 }
}

/// `Graph::node_weight`: the weight of the node, or nothing where the index is out of range.
#[verifier::external_body]
pub(crate) fn store_node_weight(g: &Store, a: NodeIndex) -> (weight: Option<usize>)
    ensures
        weight == if a.ix < store_nodes(*g).len() {
            Some(store_nodes(*g)[a.ix as int])
        } else {
            None::<usize>
        },
{
    g.node_weight(petgraph::graph::NodeIndex::new(a.ix as usize)).copied()
}

/// `Graph::add_edge`: the edge is appended and gets the next edge index; the nodes stay.
/// The call panics when an endpoint is no node or when the next edge index is the largest
/// `u32`; `requires` excludes both.
#[verifier::external_body]
pub(crate) fn store_add_edge(g: &mut Store, edge: Edge) -> (id: u32)
    requires
        edge.source.ix < store_nodes(*old(g)).len(),
        edge.destination.ix < store_nodes(*old(g)).len(),
        store_edges(*old(g)).len() < u32::MAX,
    ensures
        store_edges(*final(g)) == store_edges(*old(g)).push(edge),
        store_nodes(*final(g)) == store_nodes(*old(g)),
        id == store_edges(*old(g)).len(),
{
    let source = petgraph::graph::NodeIndex::new(edge.source.ix as usize);
    let destination = petgraph::graph::NodeIndex::new(edge.destination.ix as usize);
    g.add_edge(source, destination, edge.slot).index() as u32
}

/// `Graph::remove_edge`: the edge leaves and the last edge takes over its index; the
/// nodes stay.
#[verifier::external_body]
pub(crate) fn store_remove_edge(g: &mut Store, id: u32)
    requires
        id < store_edges(*old(g)).len(),
    ensures
        store_edges(*final(g)) == store_edges(*old(g)).update(
            id as int,
            store_edges(*old(g)).last(),
        ).drop_last(),
        store_nodes(*final(g)) == store_nodes(*old(g)),
{
    g.remove_edge(petgraph::graph::EdgeIndex::new(id as usize));
}

/// `Graph::edges_directed` with `Incoming`: every edge that ends in `a`, once, each with
/// its edge index. The order in which they come is left open.
#[verifier::external_body]
pub(crate) fn store_incoming(g: &Store, a: NodeIndex) -> (found: Vec<(u32, Edge)>)
    ensures
        forall|k: int|
            0 <= k < found@.len() ==> {
                &&& (#[trigger] found@[k]).0 < store_edges(*g).len()
                &&& store_edges(*g)[found@[k].0 as int] == found@[k].1
                &&& found@[k].1.destination == a
            },
        forall|j: int, k: int|
            0 <= j < k < found@.len() ==> (#[trigger] found@[j]).0 != (#[trigger] found@[k]).0,
        forall|i: int|
            0 <= i < store_edges(*g).len() && (#[trigger] store_edges(*g)[i]).destination == a
                ==> exists|k: int| 0 <= k < found@.len() && (#[trigger] found@[k]).0 == i,
{
    g.edges_directed(petgraph::graph::NodeIndex::new(a.ix as usize), petgraph::Direction::Incoming)
        .map(|e| (
            e.id().index() as u32,
            Edge {
                source: NodeIndex { ix: e.source().index() as u32 },
                destination: NodeIndex { ix: e.target().index() as u32 },
                slot: *e.weight(),
            },
        ))
        .collect()
}

/// `petgraph::algo::is_cyclic_directed`: whether the graph contains a cycle. The search
/// is recursive, as deep as the longest path.
#[verifier::external_body]
pub(crate) fn store_is_cyclic(g: &Store) -> (cyclic: bool)
    ensures
        cyclic == has_cycle(store_edges(*g).to_set()),
{
    petgraph::algo::is_cyclic_directed(g)
}

/// `petgraph::visit::Bfs`, run to its end: the nodes that can be reached from `start`,
/// `start` among them, each once. `Bfs::new` panics when `start` is no node, which
/// `requires` excludes.
#[verifier::external_body]
pub(crate) fn store_reachable(g: &Store, start: NodeIndex) -> (seen: Vec<NodeIndex>)
    requires
        start.ix < store_nodes(*g).len(),
    ensures
        seen@.no_duplicates(),
        forall|n: NodeIndex|
            #![trigger seen@.contains(n)]
            #![trigger reaches(store_edges(*g).to_set(), start, n)]
            seen@.contains(n) <==> reaches(store_edges(*g).to_set(), start, n),
{
    petgraph::visit::Bfs::new(g, petgraph::graph::NodeIndex::new(start.ix as usize))
        .iter(g)
        .map(|n| NodeIndex { ix: n.index() as u32 })
        .collect()
}

/// `petgraph::visit::Topo`, run to its end: nodes of the graph, none twice, each after
/// all the nodes that feed it; every node of the graph where the graph has no cycle.
#[verifier::external_body]
pub(crate) fn store_topological(g: &Store) -> (order: Vec<NodeIndex>)
    ensures
        order@.no_duplicates(),
        forall|k: int| 0 <= k < order@.len() ==> (#[trigger] order@[k]).ix < store_nodes(*g).len(),
        forall|k: int, a: NodeIndex|
            0 <= k < order@.len() && #[trigger] feeds(store_edges(*g).to_set(), a, order@[k])
                ==> exists|j: int| 0 <= j < k && #[trigger] order@[j] == a,
        !has_cycle(store_edges(*g).to_set()) ==> forall|a: NodeIndex|
            a.ix < store_nodes(*g).len() ==> #[trigger] order@.contains(a),
{
    petgraph::visit::Topo::new(g).iter(g).map(|n| NodeIndex { ix: n.index() as u32 }).collect()
}

} // verus!
