//! The structure of a texture graph: nodes with an arity, and edges that lead from a
//! node into a numbered input slot of another. A wiring never holds a cycle, and never
//! two edges into one slot.

use vstd::prelude::*;
use crate::error::GraphError;
use crate::index::NodeIndex;
use crate::relation::{
    feeds, has_cycle, incoming, lemma_no_edges_no_cycle, lemma_rewired_len, reaches, rewired,
    slot_unique, Edge,
};
use crate::store::{
    store_add_edge, store_add_node, store_edge_count, store_edges, store_incoming,
    store_is_cyclic, store_new, store_node_count, store_node_weight, store_nodes,
    store_reachable, store_remove_edge, store_topological, Store,
};

verus! {

/// What a wiring holds: the arity of each node, by position, and the set of edges.
pub struct WiringView {
    pub arities: Seq<usize>,
    pub edges: Set<Edge>,
}

impl WiringView {
    /// The handle names a node of this wiring.
    pub open spec fn has_node(self, a: NodeIndex) -> bool {
        a.ix < self.arities.len()
    }

    /// The number of input slots that the node declared.
    pub open spec fn arity(self, a: NodeIndex) -> usize {
        self.arities[a.ix as int]
    }

    /// The edge joins two different nodes of this wiring and ends in a slot that its
    /// destination has.
    pub open spec fn admits(self, e: Edge) -> bool {
        &&& self.has_node(e.source)
        &&& self.has_node(e.destination)
        &&& e.source != e.destination
        &&& e.slot < self.arity(e.destination)
    }

    /// What holds of every wiring: its edges are finitely many, each is admitted, no two
    /// end in the same slot, and they form no cycle.
    pub open spec fn well_formed(self) -> bool {
        &&& self.arities.len() <= u32::MAX
        &&& self.edges.finite()
        &&& forall|e: Edge| #[trigger] self.edges.contains(e) ==> self.admits(e)
        &&& slot_unique(self.edges)
        &&& !has_cycle(self.edges)
    }

    /// Some edge ends in this slot.
    pub open spec fn wired(self, destination: NodeIndex, slot: usize) -> bool {
        exists|a: NodeIndex| #[trigger] self.edges.contains(Edge { source: a, destination, slot })
    }

    /// The node whose output ends in this slot, where the slot is wired.
    pub open spec fn source(self, destination: NodeIndex, slot: usize) -> NodeIndex {
        choose|a: NodeIndex| #[trigger] self.edges.contains(Edge { source: a, destination, slot })
    }

    /// The node whose output ends in this slot, if any.
    pub open spec fn occupant(self, destination: NodeIndex, slot: usize) -> Option<NodeIndex> {
        if self.wired(destination, slot) {
            Some(self.source(destination, slot))
        } else {
            None
        }
    }

    /// The nodes that feed the slots of `a`, in the order of the slots.
    pub open spec fn sources(self, a: NodeIndex) -> Seq<NodeIndex> {
        Seq::new(self.arity(a) as nat, |slot: int| self.source(a, slot as usize))
    }

    /// The number of edges that end in `a`.
    pub open spec fn in_degree(self, a: NodeIndex) -> nat {
        incoming(self.edges, a).len()
    }

    /// As many edges end in the node as it has slots.
    pub open spec fn complete(self, a: NodeIndex) -> bool {
        self.in_degree(a) == self.arity(a)
    }

    /// Every node is complete.
    pub open spec fn all_complete(self) -> bool {
        forall|a: NodeIndex| self.has_node(a) ==> #[trigger] self.complete(a)
    }

    /// Why the edge cannot be put into this wiring, if it cannot: the first of an unknown
    /// source, an unknown destination, a self edge, a slot out of range and a cycle.
    pub open spec fn refusal(self, e: Edge) -> Option<GraphError> {
        if !self.has_node(e.source) {
            Some(GraphError::UnknownNode(e.source))
        } else if !self.has_node(e.destination) {
            Some(GraphError::UnknownNode(e.destination))
        } else if e.source == e.destination {
            Some(GraphError::SelfEdge(e.source))
        } else if e.slot >= self.arity(e.destination) {
            Some(GraphError::InvalidTargetSlot(e.slot, e.destination))
        } else if has_cycle(rewired(self.edges, e)) {
            Some(GraphError::CycleRejected)
        } else {
            None
        }
    }

    /// An order in which the nodes can be evaluated: every node once, each after all the
    /// nodes that feed it.
    pub open spec fn is_evaluation_order(self, order: Seq<NodeIndex>) -> bool {
        &&& order.no_duplicates()
        &&& forall|k: int| 0 <= k < order.len() ==> self.has_node(#[trigger] order[k])
        &&& forall|a: NodeIndex| self.has_node(a) ==> #[trigger] order.contains(a)
        &&& forall|k: int, a: NodeIndex|
            0 <= k < order.len() && #[trigger] feeds(self.edges, a, order[k]) ==> exists|j: int|
                0 <= j < k && #[trigger] order[j] == a
    }
}

impl WiringView {
    /// At most as many edges end in a node as it has slots, and exactly as many where
    /// each of its slots is wired.
    pub proof fn lemma_complete_iff_wired(self, a: NodeIndex)
        requires
            self.well_formed(),
            self.has_node(a),
        ensures
            self.in_degree(a) <= self.arity(a),
            self.complete(a) <==> forall|slot: usize|
                slot < self.arity(a) ==> #[trigger] self.wired(a, slot),
    {
        let into = incoming(self.edges, a);
        let slot_of = |e: Edge| e.slot;
        let taken = into.map(slot_of);
        let all = Set::<usize>::range(0, self.arity(a));
        self.edges.lemma_len_filter(|e: Edge| e.destination == a);
        assert(vstd::relations::injective_on(slot_of, into)) by {
            assert forall|e1: Edge, e2: Edge|
                into.contains(e1) && into.contains(e2) && #[trigger] slot_of(e1) == #[trigger] slot_of(
                    e2,
                ) implies e1 == e2 by {
                assert(self.edges.contains(e1) && self.edges.contains(e2));
            }
        }
        vstd::set_lib::lemma_map_size(into, taken, slot_of);
        vstd::set_lib::range_set_properties::<usize>(0, self.arity(a));
        assert forall|slot: usize| taken.contains(slot) implies all.contains(slot) by {
            let e = choose|e: Edge| into.contains(e) && slot == slot_of(e);
            assert(self.edges.contains(e));
            assert(self.admits(e));
        }
        assert(taken.subset_of(all));
        vstd::set_lib::lemma_len_subset(taken, all);
        if self.complete(a) {
            vstd::set_lib::lemma_subset_equality(taken, all);
            assert forall|slot: usize| slot < self.arity(a) implies #[trigger] self.wired(
                a,
                slot,
            ) by {
                assert(all.contains(slot));
                assert(taken.contains(slot));
                let e = choose|e: Edge| into.contains(e) && slot == slot_of(e);
                assert(e == Edge { source: e.source, destination: a, slot });
                assert(self.edges.contains(Edge { source: e.source, destination: a, slot }));
            }
        }
        if forall|slot: usize| slot < self.arity(a) ==> #[trigger] self.wired(a, slot) {
            assert forall|slot: usize| all.contains(slot) implies taken.contains(slot) by {
                assert(self.wired(a, slot));
                let source = self.source(a, slot);
                let e = Edge { source, destination: a, slot };
                assert(self.edges.contains(e));
                assert(into.contains(e) && slot == slot_of(e));
            }
            assert(taken =~= all);
        }
    }
}

/// No two edges of the sequence end in the same slot of the same node.
spec fn distinct_slots(edges: Seq<Edge>) -> bool {
    forall|i: int, j: int|
        #![trigger edges[i], edges[j]]
        0 <= i < j < edges.len() ==> !(edges[i].destination == edges[j].destination
            && edges[i].slot == edges[j].slot)
}

/// The sequence without its edge number `i`, whose place the last edge takes.
spec fn swap_removed(edges: Seq<Edge>, i: int) -> Seq<Edge> {
    edges.update(i, edges.last()).drop_last()
}

/// A sequence of edges with distinct slots holds no edge twice, and its edges as a set
/// are as many and have distinct slots too.
proof fn lemma_distinct_slots(edges: Seq<Edge>)
    requires
        distinct_slots(edges),
    ensures
        edges.no_duplicates(),
        slot_unique(edges.to_set()),
        edges.to_set().finite(),
        edges.to_set().len() == edges.len(),
{
    assert forall|i: int, j: int| 0 <= i < edges.len() && 0 <= j < edges.len() && i != j implies edges[i]
        != edges[j] by {
        if i < j {
            assert(!(edges[i].destination == edges[j].destination && edges[i].slot
                == edges[j].slot));
        } else {
            assert(!(edges[j].destination == edges[i].destination && edges[j].slot
                == edges[i].slot));
        }
    }
    assert forall|e1: Edge, e2: Edge|
        edges.to_set().contains(e1) && edges.to_set().contains(e2) && e1.destination
            == e2.destination && e1.slot == e2.slot implies e1 == e2 by {
        let i = choose|i: int| 0 <= i < edges.len() && edges[i] == e1;
        let j = choose|j: int| 0 <= j < edges.len() && edges[j] == e2;
        if i < j {
            assert(!(edges[i].destination == edges[j].destination && edges[i].slot
                == edges[j].slot));
        } else if j < i {
            assert(!(edges[j].destination == edges[i].destination && edges[j].slot
                == edges[i].slot));
        }
    }
    edges.unique_seq_to_set();
    vstd::seq_lib::seq_to_set_is_finite(edges);
}

/// Taking an edge out of the sequence takes it out of the set, and the slots stay
/// distinct.
proof fn lemma_swap_removed(edges: Seq<Edge>, i: int)
    requires
        distinct_slots(edges),
        0 <= i < edges.len(),
    ensures
        distinct_slots(swap_removed(edges, i)),
        swap_removed(edges, i).to_set() == edges.to_set().remove(edges[i]),
{
    let rest = swap_removed(edges, i);
    let last = edges.len() - 1;
    lemma_distinct_slots(edges);
    assert forall|j: int, k: int| 0 <= j < k < rest.len() implies !(rest[j].destination
        == rest[k].destination && rest[j].slot == rest[k].slot) by {
        let from_j = if j == i { last } else { j };
        let from_k = if k == i { last } else { k };
        assert(rest[j] == edges[from_j] && rest[k] == edges[from_k]);
        if from_j < from_k {
            assert(!(edges[from_j].destination == edges[from_k].destination && edges[from_j].slot
                == edges[from_k].slot));
        } else {
            assert(!(edges[from_k].destination == edges[from_j].destination && edges[from_k].slot
                == edges[from_j].slot));
        }
    }
    assert forall|e: Edge| rest.to_set().contains(e) <==> edges.to_set().remove(
        edges[i],
    ).contains(e) by {
        if rest.to_set().contains(e) {
            let j = choose|j: int| 0 <= j < rest.len() && rest[j] == e;
            let from_j = if j == i { last } else { j };
            assert(edges[from_j] == e);
            assert(from_j != i);
            assert(edges.to_set().contains(e));
        }
        if edges.to_set().remove(edges[i]).contains(e) {
            let j = choose|j: int| 0 <= j < edges.len() && edges[j] == e;
            assert(j != i);
            let to_j = if j == last { i } else { j };
            assert(rest[to_j] == e);
        }
    }
    assert(rest.to_set() =~= edges.to_set().remove(edges[i]));
}

/// Appending an edge into a slot that no edge of the sequence ends in adds it to the
/// set, and the slots stay distinct.
proof fn lemma_pushed(edges: Seq<Edge>, e: Edge)
    requires
        distinct_slots(edges),
        forall|i: int|
            0 <= i < edges.len() ==> !((#[trigger] edges[i]).destination == e.destination
                && edges[i].slot == e.slot),
    ensures
        distinct_slots(edges.push(e)),
        edges.push(e).to_set() == edges.to_set().insert(e),
{
    let more = edges.push(e);
    assert forall|j: int, k: int| 0 <= j < k < more.len() implies !(more[j].destination
        == more[k].destination && more[j].slot == more[k].slot) by {
        if k < edges.len() {
            assert(!(edges[j].destination == edges[k].destination && edges[j].slot
                == edges[k].slot));
        } else {
            assert(more[j] == edges[j]);
        }
    }
    edges.lemma_push_to_set_commute(e);
}

/// The structure of a texture graph.
pub struct Wiring {
    g: Store,
}

impl View for Wiring {
    type V = WiringView;

    closed spec fn view(&self) -> WiringView {
        WiringView { arities: store_nodes(self.g), edges: store_edges(self.g).to_set() }
    }
}

impl Wiring {
    /// What the store adds to the validity of a wiring.
    pub closed spec fn inv(&self) -> bool {
        distinct_slots(store_edges(self.g))
    }

    /// The wiring is valid.
    pub open spec fn wf(&self) -> bool {
        self.inv() && self@.well_formed()
    }

    /// A wiring without nodes.
    pub fn new() -> (wiring: Self)
        ensures
            wiring.wf(),
            wiring@.arities == Seq::<usize>::empty(),
            wiring@.edges == Set::<Edge>::empty(),
    {
        let wiring = Wiring { g: store_new() };
        proof {
            assert(store_edges(wiring.g).to_set() =~= Set::<Edge>::empty());
            lemma_no_edges_no_cycle(wiring@.edges);
        }
        wiring
    }

    /// The number of nodes.
    pub fn node_count(&self) -> (count: usize)
        ensures
            count == self@.arities.len(),
    {
        store_node_count(&self.g)
    }

    /// The number of edges.
    pub fn edge_count(&self) -> (count: usize)
        requires
            self.wf(),
        ensures
            count == self@.edges.len(),
    {
        proof {
            lemma_distinct_slots(store_edges(self.g));
        }
        store_edge_count(&self.g)
    }

    /// The arity of the node, or nothing where the handle names no node.
    pub fn arity(&self, a: NodeIndex) -> (arity: Option<usize>)
        ensures
            arity == if self@.has_node(a) {
                Some(self@.arity(a))
            } else {
                None::<usize>
            },
    {
        store_node_weight(&self.g, a)
    }

    /// Adds a node with the given arity and no edges, and returns its handle.
    pub fn add_node(&mut self, arity: usize) -> (a: NodeIndex)
        requires
            old(self).wf(),
            old(self)@.arities.len() < u32::MAX,
        ensures
            final(self).wf(),
            final(self)@.arities == old(self)@.arities.push(arity),
            final(self)@.edges == old(self)@.edges,
            a.ix == old(self)@.arities.len(),
    {
        let a = store_add_node(&mut self.g, arity);
        proof {
            assert forall|e: Edge| #[trigger] self@.edges.contains(e) implies self@.admits(e) by {
                assert(old(self)@.admits(e));
            }
        }
        a
    }

    /// Looks among the edges that end in `destination` for the one that ends in `slot`.
    fn find_slot(&self, destination: NodeIndex, slot: usize) -> (hit: Option<(u32, Edge)>)
        requires
            self.wf(),
        ensures
            match hit {
                Some((id, e)) => {
                    &&& id < store_edges(self.g).len()
                    &&& store_edges(self.g)[id as int] == e
                    &&& e.destination == destination
                    &&& e.slot == slot
                    &&& self@.occupant(destination, slot) == Some(e.source)
                },
                None => !self@.wired(destination, slot),
            },
    {
        let found = store_incoming(&self.g, destination);
        let ghost edges = store_edges(self.g);
        let mut k: usize = 0;
        while k < found.len()
            invariant
                self.wf(),
                0 <= k <= found@.len(),
                edges == store_edges(self.g),
                forall|j: int|
                    0 <= j < found@.len() ==> {
                        &&& (#[trigger] found@[j]).0 < edges.len()
                        &&& edges[found@[j].0 as int] == found@[j].1
                        &&& found@[j].1.destination == destination
                    },
                forall|j: int| 0 <= j < k ==> (#[trigger] found@[j]).1.slot != slot,
            decreases found@.len() - k,
        {
            let (id, e) = found[k];
            if e.slot == slot {
                proof {
                    lemma_distinct_slots(edges);
                    assert(edges[id as int] == e);
                    assert(edges.to_set().contains(e));
                    assert(e == Edge { source: e.source, destination, slot });
                    assert(self@.edges.contains(Edge { source: e.source, destination, slot }));
                    assert(self@.wired(destination, slot));
                    let chosen = self@.source(destination, slot);
                    assert(self@.edges.contains(Edge { source: chosen, destination, slot }));
                }
                return Some((id, e));
            }
            k += 1;
        }
        proof {
            assert forall|a: NodeIndex|
                !(#[trigger] self@.edges.contains(Edge { source: a, destination, slot })) by {
                let e = Edge { source: a, destination, slot };
                if edges.to_set().contains(e) {
                    let i = choose|i: int| 0 <= i < edges.len() && edges[i] == e;
                    assert(edges[i].destination == destination);
                    let j = choose|j: int| 0 <= j < found@.len() && (#[trigger] found@[j]).0 == i;
                    assert(found@[j].1.slot != slot);
                }
            }
        }
        None
    }

    /// The node whose output ends in the slot, if any.
    pub fn occupant(&self, destination: NodeIndex, slot: usize) -> (source: Option<NodeIndex>)
        requires
            self.wf(),
        ensures
            source == self@.occupant(destination, slot),
    {
        match self.find_slot(destination, slot) {
            Some((_, e)) => Some(e.source),
            None => None,
        }
    }

    /// Puts in an edge from `source` into `slot` of `destination`, in place of the edge
    /// that ended there, if there was one.
    ///
    /// The edge is refused, and the wiring stays as it was, when an endpoint is unknown,
    /// when both are the same node, when the destination has no such slot, and when the
    /// wiring with the edge in it would hold a cycle. Otherwise the result is the node that
    /// fed the slot before.
    pub fn connect(&mut self, source: NodeIndex, destination: NodeIndex, slot: usize) -> (outcome:
        Result<Option<NodeIndex>, GraphError>)
        requires
            old(self).wf(),
            old(self)@.edges.len() < u32::MAX,
        ensures
            final(self).wf(),
            final(self)@.arities == old(self)@.arities,
            match outcome {
                Ok(previous) => {
                    &&& old(self)@.refusal(Edge { source, destination, slot }) is None
                    &&& previous == old(self)@.occupant(destination, slot)
                    &&& final(self)@.edges == rewired(
                        old(self)@.edges,
                        Edge { source, destination, slot },
                    )
                    &&& final(self)@.edges.len() == if previous is Some {
                        old(self)@.edges.len()
                    } else {
                        old(self)@.edges.len() + 1
                    }
                },
                Err(error) => {
                    &&& old(self)@.refusal(Edge { source, destination, slot }) == Some(error)
                    &&& final(self)@.edges == old(self)@.edges
                },
            },
    {
        let edge = Edge { source, destination, slot };
        if store_node_weight(&self.g, source).is_none() {
            return Err(GraphError::UnknownNode(source));
        }
        let arity = match store_node_weight(&self.g, destination) {
            Some(arity) => arity,
            None => {
                return Err(GraphError::UnknownNode(destination));
            },
        };
        if source.ix == destination.ix {
            return Err(GraphError::SelfEdge(source));
        }
        if slot >= arity {
            return Err(GraphError::InvalidTargetSlot(slot, destination));
        }
        let ghost before = store_edges(self.g);
        proof {
            lemma_distinct_slots(before);
            lemma_rewired_len(before.to_set(), edge);
        }
        match self.find_slot(destination, slot) {
            Some((id, replaced)) => {
                store_remove_edge(&mut self.g, id);
                let ghost without = store_edges(self.g);
                proof {
                    lemma_swap_removed(before, id as int);
                    lemma_distinct_slots(without);
                    assert forall|i: int| 0 <= i < without.len() implies !((
                    #[trigger] without[i]).destination == destination && without[i].slot
                        == slot) by {
                        assert(without.to_set().contains(without[i]));
                        assert(before.to_set().contains(without[i]));
                    }
                    lemma_pushed(without, edge);
                    lemma_pushed(without, replaced);
                    assert(rewired(before.to_set(), edge) =~= without.to_set().insert(edge)) by {
                        assert forall|x: Edge|
                            before.to_set().filter(
                                |x: Edge| !(x.destination == destination && x.slot == slot),
                            ).contains(x) <==> before.to_set().remove(replaced).contains(x) by {
                            if before.to_set().contains(x) && x.destination == destination
                                && x.slot == slot {
                                assert(before.to_set().contains(replaced));
                            }
                        }
                        assert(before.to_set().filter(
                            |x: Edge| !(x.destination == destination && x.slot == slot),
                        ) =~= before.to_set().remove(replaced));
                    }
                }
                let added = store_add_edge(&mut self.g, edge);
                if store_is_cyclic(&self.g) {
                    store_add_edge(&mut self.g, replaced);
                    store_remove_edge(&mut self.g, added);
                    proof {
                        let after = store_edges(self.g);
                        assert(after =~= without.push(replaced));
                        assert(after.to_set() =~= before.to_set());
                    }
                    Err(GraphError::CycleRejected)
                } else {
                    proof {
                        let after = store_edges(self.g);
                        lemma_distinct_slots(after);
                        assert forall|e: Edge| #[trigger] self@.edges.contains(e) implies self@.admits(
                            e,
                        ) by {
                            if e != edge {
                                assert(old(self)@.edges.contains(e));
                            }
                        }
                    }
                    Ok(Some(replaced.source))
                }
            },
            None => {
                proof {
                    assert forall|i: int| 0 <= i < before.len() implies !((
                    #[trigger] before[i]).destination == destination && before[i].slot
                        == slot) by {
                        assert(before.to_set().contains(before[i]));
                        assert(before[i] == Edge {
                            source: before[i].source,
                            destination,
                            slot,
                        } ==> old(self)@.wired(destination, slot));
                    }
                    lemma_pushed(before, edge);
                    assert(before.to_set().filter(
                        |x: Edge| !(x.destination == destination && x.slot == slot),
                    ) =~= before.to_set());
                }
                let added = store_add_edge(&mut self.g, edge);
                if store_is_cyclic(&self.g) {
                    store_remove_edge(&mut self.g, added);
                    proof {
                        assert(store_edges(self.g) =~= before);
                    }
                    Err(GraphError::CycleRejected)
                } else {
                    proof {
                        let after = store_edges(self.g);
                        lemma_distinct_slots(after);
                        assert forall|e: Edge| #[trigger] self@.edges.contains(e) implies self@.admits(
                            e,
                        ) by {
                            if e != edge {
                                assert(old(self)@.edges.contains(e));
                            }
                        }
                    }
                    Ok(None)
                }
            },
        }
    }

    /// The number of edges that end in `a`.
    pub fn in_degree(&self, a: NodeIndex) -> (degree: usize)
        requires
            self.wf(),
        ensures
            degree == self@.in_degree(a),
    {
        let found = store_incoming(&self.g, a);
        proof {
            lemma_found_all(store_edges(self.g), a, found@);
        }
        found.len()
    }

    /// Whether as many edges end in the node as it has slots.
    pub fn is_complete(&self, a: NodeIndex) -> (complete: bool)
        requires
            self.wf(),
            self@.has_node(a),
        ensures
            complete == self@.complete(a),
    {
        match store_node_weight(&self.g, a) {
            Some(arity) => arity == self.in_degree(a),
            None => false,
        }
    }

    /// Whether some edge leads from `a` to `b`.
    pub fn contains_edge(&self, a: NodeIndex, b: NodeIndex) -> (found: bool)
        requires
            self.wf(),
        ensures
            found == feeds(self@.edges, a, b),
    {
        let into = store_incoming(&self.g, b);
        let ghost edges = store_edges(self.g);
        let mut k: usize = 0;
        while k < into.len()
            invariant
                0 <= k <= into@.len(),
                edges == store_edges(self.g),
                forall|j: int|
                    0 <= j < into@.len() ==> {
                        &&& (#[trigger] into@[j]).0 < edges.len()
                        &&& edges[into@[j].0 as int] == into@[j].1
                        &&& into@[j].1.destination == b
                    },
                forall|j: int| 0 <= j < k ==> (#[trigger] into@[j]).1.source != a,
            decreases into@.len() - k,
        {
            let (id, e) = into[k];
            if e.source.ix == a.ix {
                proof {
                    assert(edges[id as int] == e);
                    assert(edges.to_set().contains(e));
                    assert(e == Edge { source: a, destination: b, slot: e.slot });
                }
                return true;
            }
            k += 1;
        }
        proof {
            assert forall|slot: usize|
                !(#[trigger] self@.edges.contains(Edge { source: a, destination: b, slot })) by {
                let e = Edge { source: a, destination: b, slot };
                if edges.to_set().contains(e) {
                    let i = choose|i: int| 0 <= i < edges.len() && edges[i] == e;
                    assert(edges[i].destination == b);
                    let j = choose|j: int| 0 <= j < into@.len() && (#[trigger] into@[j]).0 == i;
                    assert(into@[j].1.source != a);
                }
            }
        }
        false
    }

    /// Whether the edges form a cycle, which they never do.
    pub fn is_cyclic(&self) -> (cyclic: bool)
        requires
            self.wf(),
        ensures
            cyclic == has_cycle(self@.edges),
            !cyclic,
    {
        store_is_cyclic(&self.g)
    }

    /// The nodes that feed the slots of `a`, in the order of the slots, where `a` is
    /// complete.
    pub fn sources(&self, a: NodeIndex) -> (sources: Option<Vec<NodeIndex>>)
        requires
            self.wf(),
            self@.has_node(a),
        ensures
            match sources {
                Some(sources) => self@.complete(a) && sources@ == self@.sources(a),
                None => !self@.complete(a),
            },
            self@.complete(a) ==> forall|slot: usize|
                slot < self@.arity(a) ==> #[trigger] self@.wired(a, slot),
    {
        let arity = match store_node_weight(&self.g, a) {
            Some(arity) => arity,
            None => {
                return None;
            },
        };
        let found = store_incoming(&self.g, a);
        let ghost edges = store_edges(self.g);
        proof {
            lemma_found_all(edges, a, found@);
            lemma_distinct_slots(edges);
        }
        if found.len() != arity {
            return None;
        }
        let ghost slots = found@.map_values(|hit: (u32, Edge)| hit.1.slot);
        proof {
            assert forall|i: int, j: int| 0 <= i < slots.len() && 0 <= j < slots.len() && i
                != j implies slots[i] != slots[j] by {
                let i1 = found@[i].0 as int;
                let i2 = found@[j].0 as int;
                if i < j {
                    assert(found@[i].0 != found@[j].0);
                } else {
                    assert(found@[j].0 != found@[i].0);
                }
                if i1 < i2 {
                    assert(!(edges[i1].destination == edges[i2].destination && edges[i1].slot
                        == edges[i2].slot));
                } else {
                    assert(!(edges[i2].destination == edges[i1].destination && edges[i2].slot
                        == edges[i1].slot));
                }
            }
            assert forall|i: int| 0 <= i < slots.len() implies #[trigger] slots[i] < arity by {
                assert(edges[found@[i].0 as int] == found@[i].1);
                assert(self@.edges.contains(found@[i].1));
                assert(self@.admits(found@[i].1));
            }
            lemma_every_slot(slots, arity);
        }
        let mut sources: Vec<NodeIndex> = Vec::new();
        while sources.len() < arity
            invariant
                sources@.len() <= arity,
            decreases arity - sources@.len(),
        {
            sources.push(a);
        }
        let mut k: usize = 0;
        while k < found.len()
            invariant
                0 <= k <= found@.len(),
                found@.len() == arity,
                sources@.len() == arity,
                slots == found@.map_values(|hit: (u32, Edge)| hit.1.slot),
                slots.no_duplicates(),
                forall|i: int| 0 <= i < slots.len() ==> #[trigger] slots[i] < arity,
                forall|j: int| 0 <= j < k ==> sources@[#[trigger] slots[j] as int] == found@[j].1.source,
            decreases found@.len() - k,
        {
            let (_, e) = found[k];
            proof {
                assert(slots[k as int] == e.slot);
                assert forall|j: int| 0 <= j < k implies #[trigger] slots[j] != e.slot by {
                    assert(slots[j] != slots[k as int]);
                }
            }
            sources.set(e.slot, e.source);
            k += 1;
        }
        proof {
            assert forall|slot: usize| slot < arity implies {
                &&& #[trigger] self@.wired(a, slot)
                &&& self@.edges.contains(
                    Edge { source: sources@[slot as int], destination: a, slot },
                )
            } by {
                assert(slots.contains(slot));
                let j = choose|j: int| 0 <= j < slots.len() && slots[j] == slot;
                let e = found@[j].1;
                assert(edges[found@[j].0 as int] == e);
                assert(self@.edges.contains(e));
                assert(e == Edge { source: sources@[slot as int], destination: a, slot });
            }
            assert forall|slot: int| 0 <= slot < arity implies sources@[slot] == self@.sources(
                a,
            )[slot] by {
                assert(self@.wired(a, slot as usize));
                let chosen = self@.source(a, slot as usize);
                assert(self@.edges.contains(
                    Edge { source: chosen, destination: a, slot: slot as usize },
                ));
                assert(self@.edges.contains(
                    Edge { source: sources@[slot], destination: a, slot: slot as usize },
                ));
            }
            assert(sources@ =~= self@.sources(a));
        }
        Some(sources)
    }

    /// The nodes that can be reached from `a` along the edges, each once; none where `a`
    /// is no node.
    pub fn reachable_from(&self, a: NodeIndex) -> (seen: Vec<NodeIndex>)
        requires
            self.wf(),
        ensures
            seen@.no_duplicates(),
            self@.has_node(a) ==> forall|n: NodeIndex|
                #![trigger seen@.contains(n)]
                #![trigger reaches(self@.edges, a, n)]
                seen@.contains(n) <==> reaches(self@.edges, a, n),
            !self@.has_node(a) ==> seen@.len() == 0,
    {
        if store_node_weight(&self.g, a).is_none() {
            return Vec::new();
        }
        store_reachable(&self.g, a)
    }

    /// An order in which the nodes can be evaluated.
    pub fn evaluation_order(&self) -> (order: Vec<NodeIndex>)
        requires
            self.wf(),
        ensures
            self@.is_evaluation_order(order@),
    {
        store_topological(&self.g)
    }
}

/// The edges that the store hands out for a node are the edges that end in it.
proof fn lemma_found_all(edges: Seq<Edge>, a: NodeIndex, found: Seq<(u32, Edge)>)
    requires
        distinct_slots(edges),
        forall|k: int|
            0 <= k < found.len() ==> {
                &&& (#[trigger] found[k]).0 < edges.len()
                &&& edges[found[k].0 as int] == found[k].1
                &&& found[k].1.destination == a
            },
        forall|j: int, k: int|
            0 <= j < k < found.len() ==> (#[trigger] found[j]).0 != (#[trigger] found[k]).0,
        forall|i: int|
            0 <= i < edges.len() && (#[trigger] edges[i]).destination == a ==> exists|k: int|
                0 <= k < found.len() && (#[trigger] found[k]).0 == i,
    ensures
        found.len() == incoming(edges.to_set(), a).len(),
{
    lemma_distinct_slots(edges);
    let hits = found.map_values(|hit: (u32, Edge)| hit.1);
    assert forall|j: int, k: int| 0 <= j < hits.len() && 0 <= k < hits.len() && j
        != k implies hits[j] != hits[k] by {
        if j < k {
            assert(found[j].0 != found[k].0);
        } else {
            assert(found[k].0 != found[j].0);
        }
        assert(edges[found[j].0 as int] == hits[j]);
        assert(edges[found[k].0 as int] == hits[k]);
    }
    assert forall|e: Edge| hits.to_set().contains(e) <==> incoming(edges.to_set(), a).contains(
        e,
    ) by {
        if hits.to_set().contains(e) {
            let k = choose|k: int| 0 <= k < hits.len() && hits[k] == e;
            assert(edges[found[k].0 as int] == e);
            assert(edges.to_set().contains(e));
        }
        if incoming(edges.to_set(), a).contains(e) {
            let i = choose|i: int| 0 <= i < edges.len() && edges[i] == e;
            assert(edges[i].destination == a);
            let k = choose|k: int| 0 <= k < found.len() && (#[trigger] found[k]).0 == i;
            assert(hits[k] == e);
        }
    }
    assert(hits.to_set() =~= incoming(edges.to_set(), a));
    hits.unique_seq_to_set();
}

/// As many different slots below `arity` as `arity` are all the slots below `arity`.
proof fn lemma_every_slot(slots: Seq<usize>, arity: usize)
    requires
        slots.len() == arity,
        slots.no_duplicates(),
        forall|i: int| 0 <= i < slots.len() ==> #[trigger] slots[i] < arity,
    ensures
        forall|slot: usize| slot < arity ==> #[trigger] slots.contains(slot),
{
    let all = Set::<usize>::range(0, arity);
    vstd::set_lib::range_set_properties::<usize>(0, arity);
    slots.unique_seq_to_set();
    vstd::seq_lib::seq_to_set_is_finite(slots);
    assert(slots.to_set().subset_of(all));
    vstd::set_lib::lemma_subset_equality(slots.to_set(), all);
    assert forall|slot: usize| slot < arity implies #[trigger] slots.contains(slot) by {
        assert(all.contains(slot));
        assert(slots.to_set().contains(slot));
    }
}

} // verus!
