use texture_graph::{Node, TextureGraph, TextureTransformer};

struct Add {}
impl TextureTransformer<i32> for Add {
    fn generate(&self, inputs: Vec<&i32>) -> i32 {
        inputs.iter().copied().sum()
    }

    fn inputs(&self) -> usize {
        2
    }
}

struct Const(i32);
impl TextureTransformer<i32> for Const {
    fn generate(&self, _inputs: Vec<&i32>) -> i32 {
        self.0
    }

    fn inputs(&self) -> usize {
        0
    }
}

struct Double {}
impl TextureTransformer<i32> for Double {
    fn generate(&self, inputs: Vec<&i32>) -> i32 {
        inputs[0] * 2
    }

    fn inputs(&self) -> usize {
        1
    }
}

#[test]
fn lib_new_graph() {
    let graph = TextureGraph::<i32>::new();
    assert_eq!(0, graph.node_count());
}

#[test]
fn lib_new_nodes() {
    let node = Node::new(String::from("Test node"), Box::new(Add {}));
    assert_eq!(String::from("Test node"), node.name);
}

#[test]
fn lib_add_node() {
    let mut graph = TextureGraph::<i32>::new();
    let test_node = Node::new(String::from("Test node"), Box::new(Add {}));
    graph.add_node(test_node);
    assert_eq!(1, graph.node_count());
}

#[test]
fn lib_single_edge() {
    let mut graph = TextureGraph::<i32>::new();
    let node1 = Node::new(String::from("N1"), Box::new(Add {}));
    let node2 = Node::new(String::from("N2"), Box::new(Add {}));
    let index1 = graph.add_node(node1);
    let index2 = graph.add_node(node2);
    assert!(graph.add_edge(index1, index2, 0).is_ok());
    assert_eq!(1, graph.edge_count());
}

#[test]
fn lib_double_edge() {
    let mut graph = TextureGraph::<i32>::new();
    let node1 = Node::new(String::from("N1"), Box::new(Add {}));
    let node2 = Node::new(String::from("N2"), Box::new(Add {}));
    let index1 = graph.add_node(node1);
    let index2 = graph.add_node(node2);
    assert!(graph.add_edge(index1, index2, 0).is_ok());
    assert!(graph.add_edge(index1, index2, 1).is_ok());
    assert_eq!(2, graph.edge_count());
}

#[test]
fn lib_replace_edge() {
    let mut graph = TextureGraph::<i32>::new();
    let node1 = Node::new(String::from("N1"), Box::new(Add {}));
    let node2 = Node::new(String::from("N2"), Box::new(Add {}));
    let index1 = graph.add_node(node1);
    let index2 = graph.add_node(node2);
    assert!(graph.add_edge(index1, index2, 0).is_ok());
    assert!(graph.add_edge(index1, index2, 0).is_ok());
    assert_eq!(1, graph.edge_count());
}

#[test]
fn lib_overwrite_edge() {
    let mut graph = TextureGraph::<i32>::new();
    let node1 = Node::new(String::from("N1"), Box::new(Add {}));
    let node2 = Node::new(String::from("N2"), Box::new(Add {}));
    let node3 = Node::new(String::from("N3"), Box::new(Add {}));
    let index1 = graph.add_node(node1);
    let index2 = graph.add_node(node2);
    let index3 = graph.add_node(node3);
    assert!(graph.add_edge(index1, index3, 0).is_ok());
    assert!(graph.add_edge(index2, index3, 0).is_ok());
    assert_eq!(1, graph.edge_count());
    assert!(!graph.contains_edge(index1, index3));
    assert!(graph.contains_edge(index2, index3));
}

#[test]
fn lib_edge_self_feed() {
    let mut graph = TextureGraph::<i32>::new();
    let node = Node::new(String::from("N"), Box::new(Add {}));
    let index = graph.add_node(node);
    assert!(graph.add_edge(index, index, 0).is_err());
}

#[test]
fn lib_unknown_node() {
    let mut graph = TextureGraph::<i32>::new();
    let node1 = Node::new(String::from("N"), Box::new(Add {}));
    let node2 = Node::new(String::from("N"), Box::new(Add {}));
    let index1 = graph.add_node(node1);
    // The second node is not in `graph`: the handle comes from a graph with two nodes.
    let mut other = TextureGraph::<i32>::new();
    other.add_node(Node::new(String::from("N"), Box::new(Add {})));
    let index2 = other.add_node(node2);
    assert!(graph.add_edge(index1, index2, 0).is_err());
    assert_eq!(0, graph.edge_count());
    assert!(graph.add_edge(index2, index1, 0).is_err());
    assert_eq!(0, graph.edge_count());
}

#[test]
fn lib_no_cycles() {
    let mut graph: TextureGraph<i32> = TextureGraph::<i32>::new();
    let node1 = Node::new(String::from("N1"), Box::new(Add {}));
    let node2 = Node::new(String::from("N2"), Box::new(Add {}));
    let node3 = Node::new(String::from("N3"), Box::new(Add {}));
    let index1 = graph.add_node(node1);
    let index2 = graph.add_node(node2);
    let index3 = graph.add_node(node3);
    assert!(!graph.is_cyclic());
    assert!(graph.add_edge(index1, index2, 0).is_ok());
    assert!(graph.add_edge(index2, index1, 0).is_err());
    assert_eq!(1, graph.edge_count());
    assert!(!graph.is_cyclic());
    assert!(graph.add_edge(index2, index3, 0).is_ok());
    assert!(graph.add_edge(index3, index1, 0).is_err());
    assert_eq!(2, graph.edge_count());
}

#[test]
fn lib_no_cycles_overwrite() {
    let mut graph: TextureGraph<i32> = TextureGraph::<i32>::new();
    let node1 = Node::new(String::from("N1"), Box::new(Add {}));
    let node2 = Node::new(String::from("N2"), Box::new(Add {}));
    let node3 = Node::new(String::from("N3"), Box::new(Add {}));
    let index1 = graph.add_node(node1);
    let index2 = graph.add_node(node2);
    let index3 = graph.add_node(node3);
    assert!(!graph.is_cyclic());
    assert!(graph.add_edge(index1, index2, 0).is_ok());
    assert!(graph.add_edge(index2, index1, 0).is_err());
    assert!(graph.contains_edge(index1, index2));
    assert!(!graph.contains_edge(index2, index1));
    assert_eq!(1, graph.edge_count());
    assert!(!graph.is_cyclic());
    assert!(graph.add_edge(index2, index3, 0).is_ok());
    assert!(graph.add_edge(index3, index2, 0).is_err());
    assert!(graph.contains_edge(index2, index3));
    assert!(!graph.contains_edge(index3, index2));
    assert_eq!(2, graph.edge_count());
}

#[test]
fn lib_invalid_target() {
    let mut graph = TextureGraph::<i32>::new();
    let node1 = Node::new(String::from("N1"), Box::new(Add {}));
    let node2 = Node::new(String::from("N2"), Box::new(Const(3)));
    let index1 = graph.add_node(node1);
    let index2 = graph.add_node(node2);
    assert!(graph.add_edge(index1, index2, 0).is_err());
    assert!(graph.add_edge(index2, index1, 2).is_err());
}

#[test]
fn lib_complete_nodes() {
    let mut graph = TextureGraph::<i32>::new();
    let node1 = Node::new(String::from("N1"), Box::new(Const(1)));
    let node2 = Node::new(String::from("N2"), Box::new(Const(2)));
    let node3 = Node::new(String::from("N3"), Box::new(Add {}));
    let index1 = graph.add_node(node1);
    let index2 = graph.add_node(node2);
    let index3 = graph.add_node(node3);
    assert!(!graph.graph_complete());
    assert!(graph.node_complete(index1));
    assert!(graph.node_complete(index2));
    assert!(!graph.node_complete(index3));
    assert!(graph.add_edge(index1, index3, 0).is_ok());
    assert!(!graph.node_complete(index3));
    assert!(graph.add_edge(index2, index3, 1).is_ok());
    assert!(graph.node_complete(index1));
    assert!(graph.node_complete(index2));
    assert!(graph.node_complete(index3));
    assert!(graph.graph_complete());
}

#[test]
fn lib_generate_node() {
    let mut graph = TextureGraph::<i32>::new();
    let node1 = Node::new(String::from("N1"), Box::new(Const(1)));
    let node2 = Node::new(String::from("N2"), Box::new(Const(2)));
    let node3 = Node::new(String::from("N3"), Box::new(Add {}));
    let index1 = graph.add_node(node1);
    let index2 = graph.add_node(node2);
    let index3 = graph.add_node(node3);
    assert!(graph.add_edge(index1, index3, 0).is_ok());
    assert!(graph.add_edge(index2, index3, 1).is_ok());
    assert!(graph.generate_node(index1).is_ok());
    assert!(graph.generate_node(index2).is_ok());
    assert!(graph.generate_node(index3).is_ok());
    assert!(*graph.get_generated_node(&index1).unwrap() == 1);
    assert!(*graph.get_generated_node(&index2).unwrap() == 2);
    assert!(*graph.get_generated_node(&index3).unwrap() == 3);
}

#[test]
fn lib_generate_not_complete() {
    let mut graph = TextureGraph::<i32>::new();
    let node1 = Node::new(String::from("N1"), Box::new(Const(1)));
    let node2 = Node::new(String::from("N2"), Box::new(Const(2)));
    let node3 = Node::new(String::from("N3"), Box::new(Add {}));
    let index1 = graph.add_node(node1);
    let _index2 = graph.add_node(node2);
    let index3 = graph.add_node(node3);
    assert!(graph.add_edge(index1, index3, 0).is_ok());
    assert!(graph.generate_node(index3).is_err());
    assert!(graph.get_generated_node(&index3).is_none());
}

#[test]
fn lib_generate_previous_not_generated() {
    let mut graph = TextureGraph::<i32>::new();
    let node1 = Node::new(String::from("N1"), Box::new(Const(1)));
    let node2 = Node::new(String::from("N2"), Box::new(Const(2)));
    let node3 = Node::new(String::from("N3"), Box::new(Add {}));
    let index1 = graph.add_node(node1);
    let index2 = graph.add_node(node2);
    let index3 = graph.add_node(node3);
    assert!(graph.add_edge(index1, index3, 0).is_ok());
    assert!(graph.add_edge(index2, index3, 1).is_ok());
    assert!(graph.generate_graph().is_ok());
    assert!(*graph.get_generated_node(&index1).unwrap() == 1);
    assert!(*graph.get_generated_node(&index2).unwrap() == 2);
    assert!(*graph.get_generated_node(&index3).unwrap() == 3);
}

#[test]
fn lib_generate_complete_graph() {
    let mut graph = TextureGraph::<i32>::new();
    let node1 = Node::new(String::from("N1"), Box::new(Const(1)));
    let node2 = Node::new(String::from("N2"), Box::new(Const(2)));
    let node3 = Node::new(String::from("N3"), Box::new(Add {}));
    let index1 = graph.add_node(node1);
    let index2 = graph.add_node(node2);
    let index3 = graph.add_node(node3);
    assert!(graph.add_edge(index1, index3, 0).is_ok());
    assert!(graph.add_edge(index2, index3, 1).is_ok());
}

#[test]
fn lib_add_edge_invalidate() {
    let mut graph = TextureGraph::<i32>::new();
    let node1 = Node::new(String::from("N1"), Box::new(Const(1)));
    let node2 = Node::new(String::from("N2"), Box::new(Const(2)));
    let node3 = Node::new(String::from("N3"), Box::new(Add {}));
    let node4 = Node::new(String::from("N4"), Box::new(Double {}));
    let node5 = Node::new(String::from("N2"), Box::new(Const(3)));
    let index1 = graph.add_node(node1);
    let index2 = graph.add_node(node2);
    let index3 = graph.add_node(node3);
    let index4 = graph.add_node(node4);
    let index5 = graph.add_node(node5);
    assert!(graph.add_edge(index1, index3, 0).is_ok());
    assert!(graph.add_edge(index2, index3, 1).is_ok());
    assert!(graph.add_edge(index3, index4, 0).is_ok());
    assert!(graph.generate_graph().is_ok());
    assert!(graph.add_edge(index5, index3, 0).is_ok());
    assert!(graph.get_generated_node(&index1).is_some());
    assert!(graph.get_generated_node(&index2).is_some());
    assert!(graph.get_generated_node(&index3).is_none());
    assert!(graph.get_generated_node(&index4).is_none());
    assert!(graph.get_generated_node(&index5).is_some());
}
