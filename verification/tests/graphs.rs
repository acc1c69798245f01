use no_deadlocks::{DependencyNode, Graph};

fn lock(i: usize) -> DependencyNode {
    DependencyNode::Lock(i)
}

#[test]
fn graph_loop_detection() {
    let mut graph = Graph::new();
    graph.add_edge_and_nodes(lock(0), lock(1));
    graph.add_edge_and_nodes(lock(0), lock(2));
    graph.add_edge_and_nodes(lock(0), lock(3));
    graph.add_edge_and_nodes(lock(1), lock(2));
    graph.add_edge_and_nodes(lock(4), lock(0));
    if let Some(found) = graph.find_loop() {
        panic!("There shouldn't be any loop yet ! {:?}", found)
    }
    graph.add_edge_and_nodes(lock(2), lock(4));
    if let Some(found) = graph.find_loop() {
        println!("Found loop! {:?}", found)
    } else {
        panic!("There should be a loop here !")
    }
}

#[test]
fn graph_cycle_members() {
    let mut graph = Graph::new();
    graph.add_edge_and_nodes(lock(0), lock(1));
    graph.add_edge_and_nodes(lock(0), lock(2));
    graph.add_edge_and_nodes(lock(0), lock(3));
    graph.add_edge_and_nodes(lock(1), lock(2));
    graph.add_edge_and_nodes(lock(4), lock(0));
    graph.add_edge_and_nodes(lock(2), lock(4));
    let cycle = graph.find_loop().expect("a cycle must be found");
    assert!(cycle.contains(&lock(0)));
    assert!(cycle.contains(&lock(2)));
    assert!(cycle.contains(&lock(4)));
    // consecutive elements (with wraparound) must follow edges of the graph
    let edges = [(0, 1), (0, 2), (0, 3), (1, 2), (4, 0), (2, 4)];
    for w in 0..cycle.len() {
        let a = cycle[w];
        let b = cycle[(w + 1) % cycle.len()];
        let fine = edges
            .iter()
            .any(|&(x, y)| a == lock(x) && b == lock(y));
        assert!(fine, "unexpected edge in reported cycle: {:?} -> {:?}", a, b);
    }
}

#[test]
fn graph_self_loop() {
    let mut graph = Graph::new();
    graph.add_edge_and_nodes(lock(5), lock(5));
    let cycle = graph.find_loop().expect("a self-loop is a cycle of length 1");
    assert_eq!(cycle.len(), 1);
    assert_eq!(cycle[0], lock(5));
}

#[test]
fn graph_empty_and_acyclic() {
    let mut graph = Graph::new();
    assert!(graph.find_loop().is_none());
    graph.add_node(DependencyNode::Thread(1));
    graph.add_edge_and_nodes(DependencyNode::Thread(1), lock(0));
    assert!(graph.find_loop().is_none());
}
