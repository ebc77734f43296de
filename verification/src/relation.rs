//! Edges and the relations that a set of edges defines on nodes: feeding, walks,
//! reachability and cycles.

use vstd::prelude::*;
use crate::index::NodeIndex;

verus! {

/// The output of `source` feeds input number `slot` of `destination`.
#[derive(Clone, Copy, Debug, PartialEq, Eq, Structural)]
pub struct Edge {
    pub source: NodeIndex,
    pub destination: NodeIndex,
    pub slot: usize,
}

/// Some edge leads from `a` to `b`.
pub open spec fn feeds(edges: Set<Edge>, a: NodeIndex, b: NodeIndex) -> bool {
    exists|slot: usize| #[trigger] edges.contains(Edge { source: a, destination: b, slot })
}

/// The walk has an edge from its node number `i` to the next one.
pub open spec fn step(edges: Set<Edge>, walk: Seq<NodeIndex>, i: int) -> bool {
    feeds(edges, walk[i], walk[i + 1])
}

/// A walk is a non-empty sequence of nodes in which each node feeds the next.
pub open spec fn is_walk(edges: Set<Edge>, walk: Seq<NodeIndex>) -> bool {
    &&& walk.len() >= 1
    &&& forall|i: int| 0 <= i < walk.len() - 1 ==> #[trigger] step(edges, walk, i)
}

/// `b` can be reached from `a` by following edges forward; every node reaches itself.
pub open spec fn reaches(edges: Set<Edge>, a: NodeIndex, b: NodeIndex) -> bool {
    exists|walk: Seq<NodeIndex>|
        #[trigger] is_walk(edges, walk) && walk.first() == a && walk.last() == b
}

/// The nodes that can be reached from `a`, `a` among them.
pub open spec fn reachable_from(edges: Set<Edge>, a: NodeIndex) -> Set<NodeIndex> {
    Set::new(|n: NodeIndex| reaches(edges, a, n))
}

/// Some walk of at least one edge returns to the node it started from.
pub open spec fn has_cycle(edges: Set<Edge>) -> bool {
    exists|walk: Seq<NodeIndex>|
        #[trigger] is_walk(edges, walk) && walk.len() >= 2 && walk.first() == walk.last()
}

/// The edges that end in `b`.
pub open spec fn incoming(edges: Set<Edge>, b: NodeIndex) -> Set<Edge> {
    edges.filter(|e: Edge| e.destination == b)
}

/// No two edges end in the same slot of the same node.
pub open spec fn slot_unique(edges: Set<Edge>) -> bool {
    forall|e1: Edge, e2: Edge|
        #![trigger edges.contains(e1), edges.contains(e2)]
        edges.contains(e1) && edges.contains(e2) && e1.destination == e2.destination && e1.slot
            == e2.slot ==> e1 == e2
}

/// The edges after `e` has been put in: `e` takes the place of whatever ended in its slot.
pub open spec fn rewired(edges: Set<Edge>, e: Edge) -> Set<Edge> {
    edges.filter(|x: Edge| !(x.destination == e.destination && x.slot == e.slot)).insert(e)
}

/// Every node reaches itself.
pub proof fn lemma_reaches_self(edges: Set<Edge>, a: NodeIndex)
    ensures
        reaches(edges, a, a),
{
    let walk = seq![a];
    assert(is_walk(edges, walk));
    assert(walk.first() == a && walk.last() == a);
}

/// A walk can be continued along one more edge.
pub proof fn lemma_reaches_step(edges: Set<Edge>, a: NodeIndex, b: NodeIndex, c: NodeIndex)
    requires
        reaches(edges, a, b),
        feeds(edges, b, c),
    ensures
        reaches(edges, a, c),
{
    let walk = choose|walk: Seq<NodeIndex>|
        #[trigger] is_walk(edges, walk) && walk.first() == a && walk.last() == b;
    let longer = walk.push(c);
    assert forall|i: int| 0 <= i < longer.len() - 1 implies #[trigger] step(edges, longer, i) by {
        if i < walk.len() - 1 {
            assert(step(edges, walk, i));
        }
    }
    assert(is_walk(edges, longer));
    assert(longer.first() == a && longer.last() == c);
}

/// A set of edges without edges has no cycle.
pub proof fn lemma_no_edges_no_cycle(edges: Set<Edge>)
    requires
        edges == Set::<Edge>::empty(),
    ensures
        !has_cycle(edges),
{
    assert forall|walk: Seq<NodeIndex>|
        #[trigger] is_walk(edges, walk) && walk.len() >= 2 implies false by {
        assert(step(edges, walk, 0));
    }
}

/// Putting an edge into a free slot adds one edge; putting it into a taken slot leaves as
/// many edges as there were.
pub proof fn lemma_rewired_len(edges: Set<Edge>, e: Edge)
    requires
        edges.finite(),
        slot_unique(edges),
    ensures
        rewired(edges, e).finite(),
        rewired(edges, e).len() == if exists|a: NodeIndex| #[trigger]
            edges.contains(Edge { source: a, destination: e.destination, slot: e.slot }) {
            edges.len()
        } else {
            edges.len() + 1
        },
{
    let kept = edges.filter(|x: Edge| !(x.destination == e.destination && x.slot == e.slot));
    edges.lemma_len_filter(|x: Edge| !(x.destination == e.destination && x.slot == e.slot));
    assert(!kept.contains(e));
    if exists|a: NodeIndex| #[trigger]
        edges.contains(Edge { source: a, destination: e.destination, slot: e.slot }) {
        let a = choose|a: NodeIndex| #[trigger]
            edges.contains(Edge { source: a, destination: e.destination, slot: e.slot });
        let taken = Edge { source: a, destination: e.destination, slot: e.slot };
        assert(kept =~= edges.remove(taken)) by {
            assert forall|x: Edge| kept.contains(x) <==> edges.remove(taken).contains(x) by {
                if edges.contains(x) && x.destination == e.destination && x.slot == e.slot {
                    assert(x == taken);
                }
            }
        }
    } else {
        assert(kept =~= edges) by {
            assert forall|x: Edge| edges.contains(x) implies kept.contains(x) by {
                if x.destination == e.destination && x.slot == e.slot {
                    assert(x == Edge {
                        source: x.source,
                        destination: e.destination,
                        slot: e.slot,
                    });
                }
            }
        }
    }
}

} // verus!
