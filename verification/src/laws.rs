//! What follows from the contracts of the graph operations when they are taken together.

use vstd::prelude::*;
use crate::error::GraphError;
use crate::graph::GraphView;
use crate::index::NodeIndex;
use crate::relation::{is_walk, reaches, step, Edge};

verus! {

/// A pass over the missing nodes that follows a successful pass over all nodes succeeds
/// and changes nothing: every node is cached already, so no transformer runs again.
pub proof fn lemma_resuming_after_full_pass<T>(
    start: GraphView<T>,
    full: GraphView<T>,
    again: GraphView<T>,
    outcome: Result<(), GraphError>,
)
    requires
        start.full_pass(full, Ok(())),
        full.resumed_pass(again, outcome),
    ensures
        outcome is Ok,
        again.nodes == full.nodes,
        again.wiring == full.wiring,
        again.cache == full.cache,
{
}

/// In a well formed graph the nodes along a walk that ends in a cached node are all
/// cached: a value is only ever cached on top of cached values.
pub proof fn lemma_cached_upstream<T>(graph: GraphView<T>, walk: Seq<NodeIndex>, i: int)
    requires
        graph.well_formed(),
        is_walk(graph.wiring.edges, walk),
        graph.cached(walk.last()),
        0 <= i < walk.len(),
    ensures
        graph.cached(walk[i]),
    decreases walk.len() - i,
{
    if i < walk.len() - 1 {
        lemma_cached_upstream(graph, walk, i + 1);
        assert(step(graph.wiring.edges, walk, i));
        let slot = choose|slot: usize| #[trigger]
            graph.wiring.edges.contains(
                Edge { source: walk[i], destination: walk[i + 1], slot },
            );
        assert(graph.sources_cached(walk[i + 1]));
    }
}

/// A node with a free slot is not cached, and neither is any node that can be reached
/// from it. So an edge into a free slot makes no cached value stale.
pub proof fn lemma_free_slot_nothing_cached<T>(
    graph: GraphView<T>,
    destination: NodeIndex,
    slot: usize,
    reached: NodeIndex,
)
    requires
        graph.well_formed(),
        graph.has_node(destination),
        slot < graph.wiring.arity(destination),
        !graph.wiring.wired(destination, slot),
        reaches(graph.wiring.edges, destination, reached),
    ensures
        !graph.cached(reached),
{
    graph.wiring.lemma_complete_iff_wired(destination);
    if graph.cached(reached) {
        let walk = choose|walk: Seq<NodeIndex>| #[trigger]
            is_walk(graph.wiring.edges, walk) && walk.first() == destination && walk.last()
                == reached;
        lemma_cached_upstream(graph, walk, 0);
    }
}

} // verus!
