//! The texture graph: named transformers, the edges that route the value of one node
//! into an input slot of another, and a cache of the values computed so far.

use vstd::prelude::*;
use std::collections::HashMap;
use crate::error::GraphError;
use crate::index::NodeIndex;
use crate::relation::{
    feeds, has_cycle, incoming, is_walk, lemma_reaches_self, lemma_reaches_step, reachable_from,
    reaches, rewired, step, Edge,
};
use crate::transformer::{values_of, Node};
use crate::wiring::{Wiring, WiringView};

verus! {

/// What a texture graph holds: its nodes by position, its wiring, and the cached values.
#[verifier::reject_recursive_types(T)]
pub struct GraphView<T> {
    pub nodes: Seq<Node<T>>,
    pub wiring: WiringView,
    pub cache: Map<NodeIndex, T>,
}

impl<T> GraphView<T> {
    /// The handle names a node of this graph.
    pub open spec fn has_node(self, a: NodeIndex) -> bool {
        a.ix < self.nodes.len()
    }

    /// The node has a cached value.
    pub open spec fn cached(self, a: NodeIndex) -> bool {
        self.cache.contains_key(a)
    }

    /// Every node that feeds `a` has a cached value.
    pub open spec fn sources_cached(self, a: NodeIndex) -> bool {
        forall|e: Edge|
            #[trigger] self.wiring.edges.contains(e) && e.destination == a ==> self.cached(
                e.source,
            )
    }

    /// The node can be evaluated: it is complete and what feeds it is cached.
    pub open spec fn ready(self, a: NodeIndex) -> bool {
        &&& self.has_node(a)
        &&& self.wiring.complete(a)
        &&& self.sources_cached(a)
    }

    /// The cached values of the nodes that feed `a`, in the order of its slots.
    pub open spec fn inputs(self, a: NodeIndex) -> Seq<T> {
        Seq::new(
            self.wiring.arity(a) as nat,
            |slot: int| self.cache[self.wiring.source(a, slot as usize)],
        )
    }

    /// The failure with which an evaluation of `a` ends, if it ends with one: the first
    /// of an unknown node, an incomplete node and a source without a cached value; and
    /// refused inputs where none of these holds.
    pub open spec fn refusal(self, a: NodeIndex) -> GraphError {
        if !self.has_node(a) {
            GraphError::UnknownNode(a)
        } else if !self.wiring.complete(a) {
            GraphError::NodeIncomplete
        } else if !self.sources_cached(a) {
            GraphError::PredecessorNotGenerated
        } else {
            GraphError::InvalidInputs
        }
    }

    /// No cached node is fed by `a`.
    pub open spec fn feeds_no_cached(self, a: NodeIndex) -> bool {
        forall|b: NodeIndex| #[trigger] self.cached(b) ==> !feeds(self.wiring.edges, a, b)
    }

    /// Every node has a cached value.
    pub open spec fn all_cached(self) -> bool {
        forall|a: NodeIndex| self.has_node(a) ==> #[trigger] self.cached(a)
    }

    /// The cached value of `a` is one that its transformer produces from the values that
    /// are now cached for the nodes that feed it.
    pub open spec fn fresh(self, a: NodeIndex) -> bool {
        self.nodes[a.ix as int].produces(self.inputs(a), self.cache[a])
    }

    /// Every cached value is fresh.
    pub open spec fn coherent(self) -> bool {
        forall|a: NodeIndex| #[trigger] self.cached(a) ==> self.fresh(a)
    }

    /// A pass can have ended with `error` at the node `failed`: whatever feeds the node is
    /// cached, and the node is incomplete or its transformer refused its inputs.
    pub open spec fn stopped_at(self, failed: NodeIndex, error: GraphError) -> bool {
        &&& self.has_node(failed) && self.sources_cached(failed)
        &&& error == self.refusal(failed)
        &&& self.ready(failed) ==> self.turned_down(failed)
    }

    /// What a pass over all nodes makes of this graph. Nodes and wiring stay, and no
    /// node leaves the cache. A pass that succeeds leaves every node complete and cached,
    /// and every cached value fresh. A pass fails at a node whose sources it has all
    /// evaluated: with an incomplete node, on a graph that has one, or with inputs that a
    /// transformer refuses.
    pub open spec fn full_pass(self, after: GraphView<T>, outcome: Result<(), GraphError>) -> bool {
        &&& after.nodes == self.nodes
        &&& after.wiring == self.wiring
        &&& self.cache.dom().subset_of(after.cache.dom())
        &&& match outcome {
            Ok(_) => after.wiring.all_complete() && after.all_cached() && after.coherent(),
            Err(error) => {
                &&& exists|failed: NodeIndex| #[trigger] after.stopped_at(failed, error)
                &&& {
                    ||| error == GraphError::NodeIncomplete && !self.wiring.all_complete()
                    ||| error == GraphError::InvalidInputs
                }
            },
        }
    }

    /// What a pass over the nodes without a cached value makes of this graph. Nodes and
    /// wiring stay, and so does every cached value. A pass that succeeds leaves every node
    /// complete and cached. A pass fails at a node without a cached value, whose sources
    /// are all cached: with an incomplete node, on a graph that has one, or with inputs
    /// that a transformer refuses. A coherent cache stays coherent.
    /// On a graph whose nodes are all cached the pass succeeds and the cache is as it was.
    pub open spec fn resumed_pass(
        self,
        after: GraphView<T>,
        outcome: Result<(), GraphError>,
    ) -> bool {
        &&& after.nodes == self.nodes
        &&& after.wiring == self.wiring
        &&& self.cache.submap_of(after.cache)
        &&& match outcome {
            Ok(_) => after.wiring.all_complete() && after.all_cached(),
            Err(error) => {
                &&& exists|failed: NodeIndex|
                    #[trigger] after.stopped_at(failed, error) && !after.cached(failed)
                &&& {
                    ||| error == GraphError::NodeIncomplete && !self.wiring.all_complete()
                    ||| error == GraphError::InvalidInputs
                }
            },
        }
        &&& self.coherent() ==> after.coherent()
        &&& self.all_cached() ==> outcome is Ok && after.cache == self.cache
    }

    /// What holds of every texture graph: the wiring is well formed and has an arity for
    /// each node, which the transformer of the node accepts; and only complete nodes whose
    /// sources are all cached are cached.
    pub open spec fn well_formed(self) -> bool {
        &&& self.wiring.well_formed()
        &&& self.nodes.len() == self.wiring.arities.len()
        &&& forall|i: int|
            0 <= i < self.nodes.len() ==> (#[trigger] self.nodes[i]).accepts(
                self.wiring.arities[i] as nat,
            )
        &&& forall|a: NodeIndex|
            #[trigger] self.cached(a) ==> self.has_node(a) && self.wiring.complete(a)
                && self.sources_cached(a)
    }
}

/// The cache as a map from handles.
pub open spec fn cache_of<T>(results: Map<u32, T>) -> Map<NodeIndex, T> {
    Map::new(|a: NodeIndex| results.contains_key(a.ix), |a: NodeIndex| results[a.ix])
}

/// A graph of transformers with a cache of their values.
#[verifier::reject_recursive_types(T)]
pub struct TextureGraph<T> {
    wiring: Wiring,
    nodes: Vec<Node<T>>,
    results: HashMap<u32, T>,
}

impl<T> View for TextureGraph<T> {
    type V = GraphView<T>;

    closed spec fn view(&self) -> GraphView<T> {
        GraphView { nodes: self.nodes@, wiring: self.wiring@, cache: cache_of(self.results@) }
    }
}

impl<T> TextureGraph<T> {
    /// What the representation adds to the validity of a graph.
    pub closed spec fn inv(&self) -> bool {
        self.wiring.inv()
    }

    /// The graph is valid.
    pub open spec fn wf(&self) -> bool {
        self.inv() && self@.well_formed()
    }

    /// A graph without nodes, edges and cached values.
    pub fn new() -> (graph: Self)
        ensures
            graph.wf(),
            graph@.nodes == Seq::<Node<T>>::empty(),
            graph@.wiring.arities == Seq::<usize>::empty(),
            graph@.wiring.edges == Set::<Edge>::empty(),
            graph@.cache == Map::<NodeIndex, T>::empty(),
    {
        broadcast use vstd::std_specs::hash::group_hash_axioms;

        let graph = TextureGraph { wiring: Wiring::new(), nodes: Vec::new(), results: HashMap::new() };
        assert(graph@.cache =~= Map::<NodeIndex, T>::empty());
        graph
    }

    /// The number of nodes.
    pub fn node_count(&self) -> (count: usize)
        ensures
            count == self@.nodes.len(),
    {
        self.nodes.len()
    }

    /// The number of edges.
    pub fn edge_count(&self) -> (count: usize)
        requires
            self.wf(),
        ensures
            count == self@.wiring.edges.len(),
    {
        self.wiring.edge_count()
    }

    /// Whether some edge leads from `a` to `b`.
    pub fn contains_edge(&self, a: NodeIndex, b: NodeIndex) -> (found: bool)
        requires
            self.wf(),
        ensures
            found == feeds(self@.wiring.edges, a, b),
    {
        self.wiring.contains_edge(a, b)
    }

    /// Whether the edges form a cycle, which they never do.
    pub fn is_cyclic(&self) -> (cyclic: bool)
        requires
            self.wf(),
        ensures
            cyclic == has_cycle(self@.wiring.edges),
            !cyclic,
    {
        self.wiring.is_cyclic()
    }

    /// The node that the handle names, or nothing where it names none.
    pub fn get_node(&self, index: NodeIndex) -> (node: Option<&Node<T>>)
        ensures
            match node {
                Some(node) => self@.has_node(index) && *node == self@.nodes[index.ix as int],
                None => !self@.has_node(index),
            },
    {
        if index.index() < self.nodes.len() {
            Some(&self.nodes[index.index()])
        } else {
            None
        }
    }

    /// The cached value of the node, if it has one.
    pub fn get_result(&self, index: &NodeIndex) -> (value: Option<&T>)
        ensures
            match value {
                Some(value) => self@.cached(*index) && *value == self@.cache[*index],
                None => !self@.cached(*index),
            },
    {
        broadcast use vstd::std_specs::hash::group_hash_axioms;

        self.results.get(&index.ix)
    }

    /// The cached value of the node, if it has one; the same as `get_result`.
    pub fn get_generated_node(&self, index: &NodeIndex) -> (value: Option<&T>)
        ensures
            match value {
                Some(value) => self@.cached(*index) && *value == self@.cache[*index],
                None => !self@.cached(*index),
            },
    {
        self.get_result(index)
    }

    /// Adds a node without edges and returns its handle. The arity of the node is what
    /// its transformer announces now. No cached value is touched.
    pub fn add_node(&mut self, node: Node<T>) -> (index: NodeIndex)
        requires
            old(self).wf(),
            old(self)@.nodes.len() < u32::MAX,
        ensures
            final(self).wf(),
            index.ix == old(self)@.nodes.len(),
            final(self)@.nodes == old(self)@.nodes.push(node),
            final(self)@.wiring.arities == old(self)@.wiring.arities.push(
                final(self)@.wiring.arity(index),
            ),
            node.accepts(final(self)@.wiring.arity(index) as nat),
            final(self)@.wiring.edges == old(self)@.wiring.edges,
            final(self)@.cache == old(self)@.cache,
    {
        let arity = node.inputs();
        let index = self.wiring.add_node(arity);
        self.nodes.push(node);
        proof {
            assert(self@.wiring.arities =~= old(self)@.wiring.arities.push(arity));
            assert forall|a: NodeIndex| #[trigger] self@.cached(a) implies self@.has_node(a)
                && self@.wiring.complete(a) && self@.sources_cached(a) by {
                assert(old(self)@.cached(a));
                assert(old(self)@.sources_cached(a));
            }
        }
        index
    }

    /// Whether as many edges end in the node as it has input slots. The handle has to
    /// name a node.
    pub fn node_complete(&self, index: NodeIndex) -> (complete: bool)
        requires
            self.wf(),
            self@.has_node(index),
        ensures
            complete == self@.wiring.complete(index),
    {
        self.wiring.is_complete(index)
    }

    /// Whether every node is complete. A graph without nodes is.
    pub fn graph_complete(&self) -> (complete: bool)
        requires
            self.wf(),
        ensures
            complete == self@.wiring.all_complete(),
            self@.nodes.len() == 0 ==> complete,
    {
        let count = self.nodes.len();
        let mut i: usize = 0;
        while i < count
            invariant
                self.wf(),
                count == self@.nodes.len(),
                0 <= i <= count,
                forall|a: NodeIndex| a.ix < i ==> #[trigger] self@.wiring.complete(a),
            decreases count - i,
        {
            let index = NodeIndex { ix: i as u32 };
            if !self.wiring.is_complete(index) {
                return false;
            }
            i += 1;
        }
        true
    }

    /// The cached values of the nodes that feed `index`, in the order of its slots: what
    /// its transformer is handed when the node is evaluated.
    ///
    /// There are none when the handle names no node, when the node is incomplete, and
    /// when a node that feeds it has no cached value.
    pub fn inputs_of(&self, index: NodeIndex) -> (outcome: Result<Vec<&T>, GraphError>)
        requires
            self.wf(),
        ensures
            match outcome {
                Ok(inputs) => self@.ready(index) && values_of(inputs@) == self@.inputs(index),
                Err(error) => !self@.ready(index) && error == self@.refusal(index),
            },
    {
        broadcast use vstd::std_specs::hash::group_hash_axioms;

        if index.index() >= self.nodes.len() {
            return Err(GraphError::UnknownNode(index));
        }
        let sources = match self.wiring.sources(index) {
            Some(sources) => sources,
            None => {
                return Err(GraphError::NodeIncomplete);
            },
        };
        let mut inputs: Vec<&T> = Vec::new();
        let mut slot: usize = 0;
        while slot < sources.len()
            invariant
                self.wf(),
                self@.has_node(index),
                self@.wiring.complete(index),
                sources@ == self@.wiring.sources(index),
                forall|wanted: usize|
                    wanted < self@.wiring.arity(index) ==> #[trigger] self@.wiring.wired(
                        index,
                        wanted,
                    ),
                0 <= slot <= sources@.len(),
                inputs@.len() == slot,
                forall|s: int|
                    0 <= s < slot ==> self@.cached(#[trigger] sources@[s]) && *inputs@[s]
                        == self@.cache[sources@[s]],
            decreases sources@.len() - slot,
        {
            match self.results.get(&sources[slot].ix) {
                Some(value) => {
                    inputs.push(value);
                },
                None => {
                    proof {
                        assert(self@.wiring.wired(index, slot));
                        let missing = self@.wiring.source(index, slot);
                        assert(sources@[slot as int] == missing);
                        assert(self@.wiring.edges.contains(
                            Edge { source: missing, destination: index, slot },
                        ));
                        assert(!self@.cached(missing));
                    }
                    return Err(GraphError::PredecessorNotGenerated);
                },
            }
            slot += 1;
        }
        proof {
            assert forall|e: Edge| #[trigger]
                self@.wiring.edges.contains(e) && e.destination == index implies self@.cached(
                e.source,
            ) by {
                assert(self@.wiring.admits(e));
                assert(self@.wiring.wired(index, e.slot));
                let chosen = self@.wiring.source(index, e.slot);
                assert(self@.wiring.edges.contains(
                    Edge { source: chosen, destination: index, slot: e.slot },
                ));
                assert(sources@[e.slot as int] == chosen);
            }
            let values = values_of(inputs@);
            assert(values.len() == self@.inputs(index).len());
            assert forall|s: int| 0 <= s < values.len() implies values[s] == self@.inputs(
                index,
            )[s] by {
                assert(self@.cached(sources@[s]));
                assert(sources@[s] == self@.wiring.source(index, s as usize));
            }
            assert(values =~= self@.inputs(index));
        }
        Ok(inputs)
    }

    /// Computes the value of a node from the cached values of the nodes that feed it, in
    /// the order of its slots, and caches it. The nodes that feed it are not evaluated.
    ///
    /// The evaluation fails, and the cache stays as it was, when the handle names no
    /// node, when the node is incomplete, when a node that feeds it has no cached value,
    /// and when the transformer refuses the inputs. Whether it refuses them is for the
    /// transformer to say: a node that is ready ends with success, or with refused inputs
    /// where the transformer refuses them.
    pub fn generate_node(&mut self, index: NodeIndex) -> (outcome: Result<(), GraphError>)
        requires
            old(self).wf(),
        ensures
            final(self).wf(),
            final(self)@.nodes == old(self)@.nodes,
            final(self)@.wiring == old(self)@.wiring,
            match outcome {
                Ok(_) => {
                    &&& old(self)@.ready(index)
                    &&& final(self)@.cache == old(self)@.cache.insert(
                        index,
                        final(self)@.cache[index],
                    )
                    &&& old(self)@.nodes[index.ix as int].produces(
                        old(self)@.inputs(index),
                        final(self)@.cache[index],
                    )
                    &&& final(self)@.fresh(index)
                },
                Err(error) => {
                    &&& error == old(self)@.refusal(index)
                    &&& old(self)@.ready(index) ==> old(self)@.turned_down(index)
                    &&& final(self)@.cache == old(self)@.cache
                },
            },
            old(self)@.coherent() && old(self)@.feeds_no_cached(index) ==> final(self)@.coherent(),
    {
        broadcast use vstd::std_specs::hash::group_hash_axioms;

        let inputs = match self.inputs_of(index) {
            Ok(inputs) => inputs,
            Err(error) => {
                return Err(error);
            },
        };
        let node = &self.nodes[index.index()];
        if !node.is_valid(&inputs) {
            return Err(GraphError::InvalidInputs);
        }
        proof {
            assert(values_of(inputs@).len() == inputs@.len());
            assert(self@.inputs(index).len() == self@.wiring.arities[index.ix as int]);
            assert(self@.nodes[index.ix as int].accepts(
                self@.wiring.arities[index.ix as int] as nat,
            ));
        }
        let value = node.generate(inputs);
        self.results.insert(index.ix, value);
        proof {
            assert(self@.cache =~= old(self)@.cache.insert(index, value));
            lemma_caching_keeps_closed(old(self)@, self@, index);
        }
        Ok(())
    }

    /// Evaluates every node, each after the nodes that feed it, and overwrites what was
    /// cached. The pass ends at the first node that fails; the values cached until then
    /// stay.
    ///
    /// The pass succeeds only on a graph whose nodes are all complete, and then leaves a
    /// fresh value for every node. It fails with an incomplete node or with inputs that a
    /// transformer refuses, and with nothing else.
    pub fn generate_graph(&mut self) -> (outcome: Result<(), GraphError>)
        requires
            old(self).wf(),
        ensures
            final(self).wf(),
            old(self)@.full_pass(final(self)@, outcome),
    {
        let order = self.wiring.evaluation_order();
        let mut k: usize = 0;
        while k < order.len()
            invariant
                self.wf(),
                self@.nodes == old(self)@.nodes,
                self@.wiring == old(self)@.wiring,
                self@.wiring.is_evaluation_order(order@),
                old(self)@.cache.dom().subset_of(self@.cache.dom()),
                0 <= k <= order@.len(),
                forall|j: int|
                    0 <= j < k ==> self@.cached(#[trigger] order@[j]) && self@.fresh(order@[j]),
            decreases order@.len() - k,
        {
            let ghost before = self@;
            let next = order[k];
            match self.generate_node(next) {
                Ok(_) => {
                    proof {
                        assert forall|j: int| 0 <= j < k implies self@.cached(
                            #[trigger] order@[j],
                        ) && self@.fresh(order@[j]) by {
                            let done = order@[j];
                            assert(before.cached(done) && before.fresh(done));
                            lemma_order_feeds_forward(before.wiring, order@, j, k as int);
                            lemma_inputs_elsewhere(before, self@, next, done);
                        }
                    }
                },
                Err(error) => {
                    proof {
                        lemma_order_sources_cached(before, order@, k as int);
                        assert(self@.cache =~= before.cache);
                        assert(self@.stopped_at(next, error));
                    }
                    return Err(error);
                },
            }
            k += 1;
        }
        proof {
            assert forall|a: NodeIndex| self@.has_node(a) implies #[trigger] self@.cached(a) by {
                assert(self@.wiring.has_node(a));
                assert(order@.contains(a));
            }
            assert forall|a: NodeIndex| self@.wiring.has_node(a) implies #[trigger]
                self@.wiring.complete(a) by {
                assert(self@.has_node(a));
                assert(self@.cached(a));
            }
            assert forall|a: NodeIndex| #[trigger] self@.cached(a) implies self@.fresh(a) by {
                assert(self@.wiring.has_node(a));
                assert(order@.contains(a));
            }
        }
        Ok(())
    }

    /// Evaluates the nodes that have no cached value, each after the nodes that feed it,
    /// and leaves the cached values as they are. The pass ends at the first node that
    /// fails; the values cached until then stay.
    ///
    /// On a graph whose nodes are all cached the pass evaluates nothing and succeeds. It
    /// fails with an incomplete node or with inputs that a transformer refuses, and with
    /// nothing else.
    pub fn generate_graph_missing(&mut self) -> (outcome: Result<(), GraphError>)
        requires
            old(self).wf(),
        ensures
            final(self).wf(),
            old(self)@.resumed_pass(final(self)@, outcome),
    {
        broadcast use vstd::std_specs::hash::group_hash_axioms;

        let order = self.wiring.evaluation_order();
        let mut k: usize = 0;
        while k < order.len()
            invariant
                self.wf(),
                self@.nodes == old(self)@.nodes,
                self@.wiring == old(self)@.wiring,
                self@.wiring.is_evaluation_order(order@),
                old(self)@.cache.submap_of(self@.cache),
                old(self)@.coherent() ==> self@.coherent(),
                old(self)@.all_cached() ==> self@.cache == old(self)@.cache,
                0 <= k <= order@.len(),
                forall|j: int| 0 <= j < k ==> self@.cached(#[trigger] order@[j]),
            decreases order@.len() - k,
        {
            let ghost before = self@;
            let next = order[k];
            if !self.results.contains_key(&next.ix) {
                proof {
                    assert(!before.cached(next));
                    assert(before.has_node(next));
                    assert(before.feeds_no_cached(next)) by {
                        assert forall|b: NodeIndex| #[trigger] before.cached(b) implies !feeds(
                            before.wiring.edges,
                            next,
                            b,
                        ) by {
                            if feeds(before.wiring.edges, next, b) {
                                let slot = choose|slot: usize| #[trigger]
                                    before.wiring.edges.contains(
                                        Edge { source: next, destination: b, slot },
                                    );
                                assert(before.sources_cached(b));
                            }
                        }
                    }
                }
                match self.generate_node(next) {
                    Ok(_) => {
                        proof {
                            assert(self@.cache.dom() =~= before.cache.dom().insert(next));
                        }
                    },
                    Err(error) => {
                        proof {
                            lemma_order_sources_cached(before, order@, k as int);
                            assert(self@.cache =~= before.cache);
                            assert(self@.stopped_at(next, error) && !self@.cached(next));
                        }
                        return Err(error);
                    },
                }
            }
            k += 1;
        }
        proof {
            assert forall|a: NodeIndex| self@.has_node(a) implies #[trigger] self@.cached(a) by {
                assert(self@.wiring.has_node(a));
                assert(order@.contains(a));
            }
            assert forall|a: NodeIndex| self@.wiring.has_node(a) implies #[trigger]
                self@.wiring.complete(a) by {
                assert(self@.has_node(a));
                assert(self@.cached(a));
            }
        }
        Ok(())
    }

    /// Takes the given nodes out of the cache.
    fn forget(&mut self, stale: &Vec<NodeIndex>)
        ensures
            final(self).wiring == old(self).wiring,
            final(self).nodes == old(self).nodes,
            final(self)@.cache == old(self)@.cache.remove_keys(stale@.to_set()),
    {
        broadcast use vstd::std_specs::hash::group_hash_axioms;

        let mut k: usize = 0;
        while k < stale.len()
            invariant
                0 <= k <= stale@.len(),
                self.wiring == old(self).wiring,
                self.nodes == old(self).nodes,
                self@.cache == old(self)@.cache.remove_keys(stale@.take(k as int).to_set()),
            decreases stale@.len() - k,
        {
            let ghost before = self@.cache;
            self.results.remove(&stale[k].ix);
            proof {
                let gone = stale@[k as int];
                assert(self@.cache =~= before.remove(gone));
                assert(stale@.take(k + 1) =~= stale@.take(k as int).push(gone));
                stale@.take(k as int).lemma_push_to_set_commute(gone);
                assert(before.remove(gone) =~= old(self)@.cache.remove_keys(
                    stale@.take(k + 1).to_set(),
                ));
            }
            k += 1;
        }
        assert(stale@.take(stale@.len() as int) =~= stale@);
    }

    /// Adds an edge that routes the value of `source` into input `slot` of `destination`.
    ///
    /// The edge is refused, and the graph stays as it was, when an endpoint is unknown,
    /// when both are the same node, when the destination has no such slot, and when the
    /// graph with the edge in it would hold a cycle.
    ///
    /// An edge that already ended in the slot is replaced, and `destination` and every
    /// node that can be reached from it leave the cache. An edge into a free slot touches
    /// no cached value: its destination was incomplete, so neither it nor anything that
    /// can be reached from it was cached.
    pub fn add_edge(&mut self, source: NodeIndex, destination: NodeIndex, slot: usize) -> (outcome:
        Result<(), GraphError>)
        requires
            old(self).wf(),
            old(self)@.wiring.edges.len() < u32::MAX,
        ensures
            final(self).wf(),
            final(self)@.nodes == old(self)@.nodes,
            final(self)@.wiring.arities == old(self)@.wiring.arities,
            match outcome {
                Ok(_) => {
                    &&& old(self)@.wiring.refusal(Edge { source, destination, slot }) is None
                    &&& final(self)@.wiring.edges == rewired(
                        old(self)@.wiring.edges,
                        Edge { source, destination, slot },
                    )
                    &&& final(self)@.wiring.edges.len() == if old(self)@.wiring.wired(
                        destination,
                        slot,
                    ) {
                        old(self)@.wiring.edges.len()
                    } else {
                        old(self)@.wiring.edges.len() + 1
                    }
                    &&& final(self)@.cache == if old(self)@.wiring.wired(destination, slot) {
                        old(self)@.cache.remove_keys(
                            reachable_from(final(self)@.wiring.edges, destination),
                        )
                    } else {
                        old(self)@.cache
                    }
                },
                Err(error) => {
                    &&& old(self)@.wiring.refusal(Edge { source, destination, slot }) == Some(
                        error,
                    )
                    &&& final(self)@.wiring.edges == old(self)@.wiring.edges
                    &&& final(self)@.cache == old(self)@.cache
                },
            },
    {
        match self.wiring.connect(source, destination, slot) {
            Err(error) => Err(error),
            Ok(Some(_)) => {
                let stale = self.wiring.reachable_from(destination);
                self.forget(&stale);
                proof {
                    let reached = reachable_from(self@.wiring.edges, destination);
                    assert(stale@.to_set() =~= reached);
                    lemma_replacing_keeps_closed(
                        old(self)@,
                        self@,
                        Edge { source, destination, slot },
                    );
                }
                Ok(())
            },
            Ok(None) => {
                proof {
                    lemma_extending_keeps_closed(
                        old(self)@,
                        self@,
                        Edge { source, destination, slot },
                    );
                }
                Ok(())
            },
        }
    }

    /// Takes `source` and every node that can be reached from it along the edges out of
    /// the cache. The other cached values stay.
    pub fn invalidate_nodes(&mut self, source: NodeIndex)
        requires
            old(self).wf(),
        ensures
            final(self).wf(),
            final(self)@.nodes == old(self)@.nodes,
            final(self)@.wiring == old(self)@.wiring,
            final(self)@.cache == old(self)@.cache.remove_keys(
                reachable_from(old(self)@.wiring.edges, source),
            ),
    {
        let stale = self.wiring.reachable_from(source);
        self.forget(&stale);
        proof {
            let edges = old(self)@.wiring.edges;
            let reached = reachable_from(edges, source);
            assert(self@.cache =~= old(self)@.cache.remove_keys(reached)) by {
                assert forall|a: NodeIndex| #[trigger]
                    old(self)@.cache.contains_key(a) implies (stale@.to_set().contains(a)
                    <==> reached.contains(a)) by {
                    if !old(self)@.has_node(source) && reached.contains(a) {
                        assert(old(self)@.cached(a));
                        lemma_only_nodes_reach(old(self)@.wiring, source, a);
                    }
                }
            }
            lemma_forgetting_keeps_closed(old(self)@, self@, source);
        }
    }
}

/// What is no node of a wiring reaches nothing but itself.
proof fn lemma_only_nodes_reach(wiring: WiringView, a: NodeIndex, b: NodeIndex)
    requires
        wiring.well_formed(),
        !wiring.has_node(a),
        reaches(wiring.edges, a, b),
    ensures
        a == b,
{
    let walk = choose|walk: Seq<NodeIndex>|
        #[trigger] is_walk(wiring.edges, walk) && walk.first() == a && walk.last() == b;
    if walk.len() >= 2 {
        assert(step(wiring.edges, walk, 0));
        let slot = choose|slot: usize| #[trigger]
            wiring.edges.contains(Edge { source: walk[0], destination: walk[1], slot });
        assert(wiring.admits(Edge { source: walk[0], destination: walk[1], slot }));
    }
}

/// A graph stays well formed when everything that can be reached from a node leaves the
/// cache.
proof fn lemma_forgetting_keeps_closed<T>(before: GraphView<T>, after: GraphView<T>, a: NodeIndex)
    requires
        before.well_formed(),
        after.nodes == before.nodes,
        after.wiring == before.wiring,
        after.cache == before.cache.remove_keys(reachable_from(before.wiring.edges, a)),
    ensures
        after.well_formed(),
{
    assert forall|b: NodeIndex| #[trigger] after.cached(b) implies after.has_node(b)
        && after.wiring.complete(b) && after.sources_cached(b) by {
        assert(before.cached(b));
        assert forall|e: Edge| #[trigger]
            after.wiring.edges.contains(e) && e.destination == b implies after.cached(
            e.source,
        ) by {
            assert(before.sources_cached(b));
            assert(before.cached(e.source));
            if reaches(before.wiring.edges, a, e.source) {
                assert(e == Edge { source: e.source, destination: b, slot: e.slot });
                assert(feeds(before.wiring.edges, e.source, b));
                lemma_reaches_step(before.wiring.edges, a, e.source, b);
            }
        }
    }
}

/// Putting in an edge changes nothing about the edges that end in other nodes.
proof fn lemma_rewired_elsewhere(edges: Set<Edge>, e: Edge, b: NodeIndex)
    requires
        b != e.destination,
    ensures
        incoming(rewired(edges, e), b) == incoming(edges, b),
        forall|x: Edge|
            x.destination == b ==> (#[trigger] rewired(edges, e).contains(x) <==> edges.contains(x)),
{
    assert(incoming(rewired(edges, e), b) =~= incoming(edges, b));
}

/// A graph stays well formed when an edge takes the place of another and everything that
/// can be reached from its destination leaves the cache.
proof fn lemma_replacing_keeps_closed<T>(before: GraphView<T>, after: GraphView<T>, e: Edge)
    requires
        before.well_formed(),
        after.wiring.well_formed(),
        after.nodes == before.nodes,
        after.wiring.arities == before.wiring.arities,
        after.wiring.edges == rewired(before.wiring.edges, e),
        after.cache == before.cache.remove_keys(reachable_from(after.wiring.edges, e.destination)),
    ensures
        after.well_formed(),
{
    assert forall|b: NodeIndex| #[trigger] after.cached(b) implies after.has_node(b)
        && after.wiring.complete(b) && after.sources_cached(b) by {
        assert(before.cached(b));
        lemma_reaches_self(after.wiring.edges, e.destination);
        assert(b != e.destination);
        lemma_rewired_elsewhere(before.wiring.edges, e, b);
        assert forall|x: Edge| #[trigger]
            after.wiring.edges.contains(x) && x.destination == b implies after.cached(
            x.source,
        ) by {
            assert(before.wiring.edges.contains(x));
            assert(before.sources_cached(b));
            assert(before.cached(x.source));
            if reaches(after.wiring.edges, e.destination, x.source) {
                assert(x == Edge { source: x.source, destination: b, slot: x.slot });
                assert(feeds(after.wiring.edges, x.source, b));
                lemma_reaches_step(after.wiring.edges, e.destination, x.source, b);
            }
        }
    }
}

/// A graph stays well formed when an edge is put into a free slot: the destination was
/// not cached.
proof fn lemma_extending_keeps_closed<T>(before: GraphView<T>, after: GraphView<T>, e: Edge)
    requires
        before.well_formed(),
        after.wiring.well_formed(),
        before.wiring.admits(e),
        !before.wiring.wired(e.destination, e.slot),
        after.nodes == before.nodes,
        after.wiring.arities == before.wiring.arities,
        after.wiring.edges == rewired(before.wiring.edges, e),
        after.cache == before.cache,
    ensures
        after.well_formed(),
        !before.cached(e.destination),
{
    before.wiring.lemma_complete_iff_wired(e.destination);
    assert(!before.wiring.complete(e.destination));
    assert forall|b: NodeIndex| #[trigger] after.cached(b) implies after.has_node(b)
        && after.wiring.complete(b) && after.sources_cached(b) by {
        assert(before.cached(b));
        assert(b != e.destination);
        lemma_rewired_elsewhere(before.wiring.edges, e, b);
        assert forall|x: Edge| #[trigger]
            after.wiring.edges.contains(x) && x.destination == b implies after.cached(
            x.source,
        ) by {
            assert(before.wiring.edges.contains(x));
            assert(before.sources_cached(b));
        }
    }
}

/// The inputs of a node do not depend on the cached value of a node that does not feed it.
proof fn lemma_inputs_elsewhere<T>(
    before: GraphView<T>,
    after: GraphView<T>,
    changed: NodeIndex,
    b: NodeIndex,
)
    requires
        before.wiring.well_formed(),
        before.has_node(b),
        before.nodes.len() == before.wiring.arities.len(),
        before.wiring.complete(b),
        !feeds(before.wiring.edges, changed, b),
        after.wiring == before.wiring,
        forall|a: NodeIndex| a != changed ==> after.cache[a] == before.cache[a],
    ensures
        after.inputs(b) == before.inputs(b),
{
    before.wiring.lemma_complete_iff_wired(b);
    assert forall|slot: int| 0 <= slot < before.wiring.arity(b) implies after.inputs(b)[slot]
        == before.inputs(b)[slot] by {
        assert(before.wiring.wired(b, slot as usize));
        let source = before.wiring.source(b, slot as usize);
        assert(before.wiring.edges.contains(
            Edge { source, destination: b, slot: slot as usize },
        ));
        assert(source != changed);
    }
    assert(after.inputs(b) =~= before.inputs(b));
}

/// A graph stays well formed when a ready node is cached, and coherent where the node
/// feeds no cached node.
proof fn lemma_caching_keeps_closed<T>(before: GraphView<T>, after: GraphView<T>, a: NodeIndex)
    requires
        before.well_formed(),
        before.ready(a),
        after.nodes == before.nodes,
        after.wiring == before.wiring,
        after.cache == before.cache.insert(a, after.cache[a]),
        before.nodes[a.ix as int].produces(before.inputs(a), after.cache[a]),
    ensures
        after.well_formed(),
        after.fresh(a),
        before.coherent() && before.feeds_no_cached(a) ==> after.coherent(),
{
    assert forall|b: NodeIndex| #[trigger] after.cached(b) implies after.has_node(b)
        && after.wiring.complete(b) && after.sources_cached(b) by {
        if b != a {
            assert(before.cached(b));
            assert(before.sources_cached(b));
        }
        assert forall|e: Edge| #[trigger]
            after.wiring.edges.contains(e) && e.destination == b implies after.cached(
            e.source,
        ) by {
            assert(before.cached(e.source));
        }
    }
    assert(!feeds(before.wiring.edges, a, a)) by {
        if feeds(before.wiring.edges, a, a) {
            let slot = choose|slot: usize| #[trigger]
                before.wiring.edges.contains(Edge { source: a, destination: a, slot });
            assert(before.wiring.admits(Edge { source: a, destination: a, slot }));
        }
    }
    lemma_inputs_elsewhere(before, after, a, a);
    if before.coherent() && before.feeds_no_cached(a) {
        assert forall|b: NodeIndex| #[trigger] after.cached(b) implies after.fresh(b) by {
            if b != a {
                assert(before.cached(b));
                assert(before.fresh(b));
                lemma_inputs_elsewhere(before, after, a, b);
            }
        }
    }
}

/// In an evaluation order no node feeds a node that comes before it.
proof fn lemma_order_feeds_forward(wiring: WiringView, order: Seq<NodeIndex>, j: int, k: int)
    requires
        wiring.is_evaluation_order(order),
        0 <= j < k < order.len(),
    ensures
        !feeds(wiring.edges, order[k], order[j]),
{
    if feeds(wiring.edges, order[k], order[j]) {
        let i = choose|i: int| 0 <= i < j && #[trigger] order[i] == order[k];
        assert(order[i] == order[k] && i != k);
    }
}

/// Where the nodes that come first in an evaluation order are all cached, the sources of
/// the next one are cached, so its evaluation can only fail for an incomplete node or
/// for refused inputs.
proof fn lemma_order_sources_cached<T>(graph: GraphView<T>, order: Seq<NodeIndex>, k: int)
    requires
        graph.well_formed(),
        graph.wiring.is_evaluation_order(order),
        0 <= k < order.len(),
        forall|j: int| 0 <= j < k ==> graph.cached(#[trigger] order[j]),
    ensures
        graph.has_node(order[k]),
        graph.sources_cached(order[k]),
        graph.refusal(order[k]) == GraphError::NodeIncomplete && !graph.wiring.all_complete()
            || graph.refusal(order[k]) == GraphError::InvalidInputs,
{
    let next = order[k];
    assert(graph.wiring.has_node(next));
    assert forall|e: Edge| #[trigger]
        graph.wiring.edges.contains(e) && e.destination == next implies graph.cached(
        e.source,
    ) by {
        assert(e == Edge { source: e.source, destination: next, slot: e.slot });
        assert(feeds(graph.wiring.edges, e.source, order[k]));
        let j = choose|j: int| 0 <= j < k && #[trigger] order[j] == e.source;
        assert(graph.cached(order[j]));
    }
}

impl<T> GraphView<T> {
    /// The transformer of `a` refuses the values that are cached for the nodes that feed
    /// it.
    pub open spec fn turned_down(self, a: NodeIndex) -> bool {
        self.nodes[a.ix as int].refuses(self.inputs(a))
    }
}

} // verus!
