use texture_graph::wiring::Wiring;
use texture_graph::{GraphError, NodeIndex};

/// Nodes 0 and 1 without slots, node 2 with two slots, node 3 with one slot, and the edges
/// 0 -> 2 slot 0, 1 -> 2 slot 1, 2 -> 3 slot 0.
fn diamond() -> (Wiring, NodeIndex, NodeIndex, NodeIndex, NodeIndex) {
    let mut wiring = Wiring::new();
    let a = wiring.add_node(0);
    let b = wiring.add_node(0);
    let c = wiring.add_node(2);
    let d = wiring.add_node(1);
    assert_eq!(Ok(None), wiring.connect(a, c, 0));
    assert_eq!(Ok(None), wiring.connect(b, c, 1));
    assert_eq!(Ok(None), wiring.connect(c, d, 0));
    (wiring, a, b, c, d)
}

fn sorted(mut nodes: Vec<NodeIndex>) -> Vec<u32> {
    nodes.sort_by_key(|n| n.ix);
    nodes.iter().map(|n| n.ix).collect()
}

#[test]
fn new_wiring_is_empty() {
    let wiring = Wiring::new();
    assert_eq!(0, wiring.node_count());
    assert_eq!(0, wiring.edge_count());
    assert_eq!(None, wiring.arity(NodeIndex::new(0)));
    assert!(!wiring.is_cyclic());
    assert!(wiring.evaluation_order().is_empty());
}

#[test]
fn add_node_records_the_arity() {
    let mut wiring = Wiring::new();
    let a = wiring.add_node(3);
    let b = wiring.add_node(0);
    assert_eq!(NodeIndex::new(0), a);
    assert_eq!(NodeIndex::new(1), b);
    assert_eq!(2, wiring.node_count());
    assert_eq!(Some(3), wiring.arity(a));
    assert_eq!(Some(0), wiring.arity(b));
    assert_eq!(None, wiring.arity(NodeIndex::new(2)));
    assert_eq!(0, wiring.edge_count());
}

#[test]
fn connect_reports_the_previous_source() {
    let (mut wiring, a, b, c, _d) = diamond();
    assert_eq!(3, wiring.edge_count());
    assert_eq!(Some(a), wiring.occupant(c, 0));
    assert_eq!(Some(b), wiring.occupant(c, 1));
    assert_eq!(Ok(Some(a)), wiring.connect(b, c, 0));
    assert_eq!(Some(b), wiring.occupant(c, 0));
    assert_eq!(Some(b), wiring.occupant(c, 1));
    assert_eq!(3, wiring.edge_count());
    assert!(!wiring.contains_edge(a, c));
    assert!(wiring.contains_edge(b, c));
    assert_eq!(Ok(Some(b)), wiring.connect(b, c, 0));
    assert_eq!(3, wiring.edge_count());
}

#[test]
fn occupant_of_a_free_or_missing_slot_is_none() {
    let mut wiring = Wiring::new();
    let a = wiring.add_node(0);
    let c = wiring.add_node(2);
    assert_eq!(None, wiring.occupant(c, 0));
    assert_eq!(Ok(None), wiring.connect(a, c, 1));
    assert_eq!(None, wiring.occupant(c, 0));
    assert_eq!(Some(a), wiring.occupant(c, 1));
    assert_eq!(None, wiring.occupant(c, 2));
    assert_eq!(None, wiring.occupant(a, 0));
    assert_eq!(None, wiring.occupant(NodeIndex::new(5), 0));
}

#[test]
fn connect_refuses_in_order() {
    let (mut wiring, a, _b, c, d) = diamond();
    let stale = NodeIndex::new(4);
    assert_eq!(Err(GraphError::UnknownNode(stale)), wiring.connect(stale, stale, 9));
    assert_eq!(Err(GraphError::UnknownNode(stale)), wiring.connect(a, stale, 9));
    assert_eq!(Err(GraphError::SelfEdge(c)), wiring.connect(c, c, 9));
    assert_eq!(Err(GraphError::InvalidTargetSlot(1, d)), wiring.connect(a, d, 1));
    assert_eq!(Err(GraphError::InvalidTargetSlot(0, a)), wiring.connect(d, a, 0));
    assert_eq!(Err(GraphError::CycleRejected), wiring.connect(d, c, 0));
    assert_eq!(Err(GraphError::CycleRejected), wiring.connect(d, c, 1));
    assert_eq!(3, wiring.edge_count());
    assert_eq!(Some(a), wiring.occupant(c, 0));
    assert_eq!(Some(c), wiring.occupant(d, 0));
    assert!(!wiring.is_cyclic());
}

#[test]
fn in_degree_counts_the_edges_that_end_in_a_node() {
    let (mut wiring, a, b, c, d) = diamond();
    assert_eq!(0, wiring.in_degree(a));
    assert_eq!(0, wiring.in_degree(b));
    assert_eq!(2, wiring.in_degree(c));
    assert_eq!(1, wiring.in_degree(d));
    assert_eq!(0, wiring.in_degree(NodeIndex::new(8)));
    assert!(wiring.is_complete(a));
    assert!(wiring.is_complete(c));
    assert!(wiring.is_complete(d));
    let e = wiring.add_node(2);
    assert!(!wiring.is_complete(e));
    assert_eq!(Ok(None), wiring.connect(d, e, 1));
    assert_eq!(1, wiring.in_degree(e));
    assert!(!wiring.is_complete(e));
    assert_eq!(Ok(Some(d)), wiring.connect(a, e, 1));
    assert_eq!(1, wiring.in_degree(e));
    assert_eq!(0, wiring.in_degree(a));
}

#[test]
fn sources_are_listed_by_slot() {
    let mut wiring = Wiring::new();
    let a = wiring.add_node(0);
    let b = wiring.add_node(0);
    let c = wiring.add_node(3);
    assert_eq!(Some(vec![]), wiring.sources(a));
    assert_eq!(None, wiring.sources(c));
    assert_eq!(Ok(None), wiring.connect(b, c, 2));
    assert_eq!(Ok(None), wiring.connect(a, c, 0));
    assert_eq!(None, wiring.sources(c));
    assert_eq!(Ok(None), wiring.connect(b, c, 1));
    assert_eq!(Some(vec![a, b, b]), wiring.sources(c));
    assert_eq!(Ok(Some(b)), wiring.connect(a, c, 2));
    assert_eq!(Some(vec![a, b, a]), wiring.sources(c));
}

#[test]
fn reachable_from_follows_the_edges_forward() {
    let (mut wiring, a, b, c, d) = diamond();
    let e = wiring.add_node(0);
    assert_eq!(vec![0, 2, 3], sorted(wiring.reachable_from(a)));
    assert_eq!(vec![1, 2, 3], sorted(wiring.reachable_from(b)));
    assert_eq!(vec![2, 3], sorted(wiring.reachable_from(c)));
    assert_eq!(vec![3], sorted(wiring.reachable_from(d)));
    assert_eq!(vec![4], sorted(wiring.reachable_from(e)));
    assert!(wiring.reachable_from(NodeIndex::new(5)).is_empty());
}

#[test]
fn evaluation_order_puts_sources_first() {
    let mut wiring = Wiring::new();
    let last = wiring.add_node(1);
    let middle = wiring.add_node(2);
    let left = wiring.add_node(0);
    let right = wiring.add_node(1);
    let seed = wiring.add_node(0);
    let alone = wiring.add_node(4);
    assert_eq!(Ok(None), wiring.connect(middle, last, 0));
    assert_eq!(Ok(None), wiring.connect(right, middle, 1));
    assert_eq!(Ok(None), wiring.connect(left, middle, 0));
    assert_eq!(Ok(None), wiring.connect(seed, right, 0));
    let order = wiring.evaluation_order();
    assert_eq!(vec![0, 1, 2, 3, 4, 5], sorted(order.clone()));
    let place = |n: NodeIndex| order.iter().position(|m| *m == n).unwrap();
    assert!(place(middle) < place(last));
    assert!(place(right) < place(middle));
    assert!(place(left) < place(middle));
    assert!(place(seed) < place(right));
    assert!(order.contains(&alone));
}

#[test]
fn contains_edge_knows_the_direction() {
    let (wiring, a, b, c, d) = diamond();
    assert!(wiring.contains_edge(a, c));
    assert!(!wiring.contains_edge(c, a));
    assert!(wiring.contains_edge(c, d));
    assert!(!wiring.contains_edge(a, d));
    assert!(!wiring.contains_edge(a, b));
    assert!(!wiring.contains_edge(a, NodeIndex::new(7)));
    assert!(!wiring.contains_edge(NodeIndex::new(7), c));
}

#[test]
fn removing_an_edge_in_the_middle_keeps_the_others() {
    // Replacing the first edge moves the last edge of the store into its place.
    let mut wiring = Wiring::new();
    let a = wiring.add_node(0);
    let b = wiring.add_node(0);
    let c = wiring.add_node(1);
    let d = wiring.add_node(1);
    let e = wiring.add_node(1);
    assert_eq!(Ok(None), wiring.connect(a, c, 0));
    assert_eq!(Ok(None), wiring.connect(a, d, 0));
    assert_eq!(Ok(None), wiring.connect(a, e, 0));
    assert_eq!(Ok(Some(a)), wiring.connect(b, c, 0));
    assert_eq!(3, wiring.edge_count());
    assert_eq!(Some(b), wiring.occupant(c, 0));
    assert_eq!(Some(a), wiring.occupant(d, 0));
    assert_eq!(Some(a), wiring.occupant(e, 0));
    assert_eq!(vec![0, 3, 4], sorted(wiring.reachable_from(a)));
    assert_eq!(vec![1, 2], sorted(wiring.reachable_from(b)));
}
