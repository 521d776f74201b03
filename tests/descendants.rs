use layered_reach::descendants_at_distance;
use layered_reach::DirectedGraphView;
use petgraph::graph::NodeIndex;
use petgraph::Graph;

fn path_graph(n: usize) -> Graph<(), ()> {
    let mut graph = Graph::<(), ()>::new();
    let nodes: Vec<NodeIndex> = (0..n).map(|_| graph.add_node(())).collect();
    for w in nodes.windows(2) {
        graph.add_edge(w[0], w[1], ());
    }
    graph
}

fn cycle_graph() -> Graph<(), ()> {
    let mut graph = Graph::<(), ()>::new();
    let a = graph.add_node(());
    let b = graph.add_node(());
    let c = graph.add_node(());
    graph.add_edge(a, b, ());
    graph.add_edge(b, c, ());
    graph.add_edge(c, a, ());
    graph
}

#[test]
fn test_descendants_at_distance_empty_graph() {
    let graph = Graph::<(), ()>::new();
    let source: NodeIndex = NodeIndex::new(0);
    let distance = 1;
    let result = descendants_at_distance(&graph, source.index(), distance);
    assert!(result.is_empty());
}

#[test]
fn test_descendants_at_distance_single_node() {
    let mut graph = Graph::<(), ()>::new();
    let source = graph.add_node(());
    let distance = 1;
    let result = descendants_at_distance(&graph, source.index(), distance);
    assert!(result.is_empty());
}

#[test]
fn test_descendants_at_distance_simple_graph() {
    let mut graph = Graph::<(), ()>::new();
    let node0 = graph.add_node(());
    let node1 = graph.add_node(());
    let node2 = graph.add_node(());
    let node3 = graph.add_node(());
    graph.add_edge(node0, node1, ());
    graph.add_edge(node1, node2, ());
    graph.add_edge(node2, node3, ());

    let result = descendants_at_distance(&graph, node0.index(), 1);
    assert_eq!(result, vec![node1.index()]);

    let result = descendants_at_distance(&graph, node0.index(), 2);
    assert_eq!(result, vec![node2.index()]);

    let result = descendants_at_distance(&graph, node0.index(), 3);
    assert_eq!(result, vec![node3.index()]);

    let result = descendants_at_distance(&graph, node0.index(), 4);
    assert!(result.is_empty());
}

#[test]
fn distance_zero_returns_source() {
    let graph = path_graph(4);
    assert_eq!(descendants_at_distance(&graph, 2, 0), vec![2]);
    let empty = Graph::<(), ()>::new();
    assert_eq!(descendants_at_distance(&empty, 7, 0), vec![7]);
}

#[test]
fn empty_graph_every_positive_distance() {
    let graph = Graph::<(), ()>::new();
    for d in 1..6 {
        assert!(descendants_at_distance(&graph, 0, d).is_empty());
        assert!(descendants_at_distance(&graph, usize::MAX, d).is_empty());
    }
}

#[test]
fn single_node_every_positive_distance() {
    let graph = path_graph(1);
    for d in 1..6 {
        assert!(descendants_at_distance(&graph, 0, d).is_empty());
    }
}

#[test]
fn path_graph_from_middle() {
    let graph = path_graph(4);
    assert_eq!(descendants_at_distance(&graph, 1, 1), vec![2]);
    assert_eq!(descendants_at_distance(&graph, 1, 2), vec![3]);
    assert!(descendants_at_distance(&graph, 1, 3).is_empty());
    assert!(descendants_at_distance(&graph, 3, 1).is_empty());
}

#[test]
fn same_inputs_same_result() {
    let mut graph = Graph::<(), ()>::new();
    let n: Vec<NodeIndex> = (0..5).map(|_| graph.add_node(())).collect();
    graph.add_edge(n[0], n[1], ());
    graph.add_edge(n[0], n[2], ());
    graph.add_edge(n[0], n[3], ());
    graph.add_edge(n[2], n[4], ());
    graph.add_edge(n[1], n[4], ());
    for d in 0..4 {
        let first = descendants_at_distance(&graph, 0, d);
        let second = descendants_at_distance(&graph, 0, d);
        assert_eq!(first, second);
    }
}

#[test]
fn discovery_order_follows_neighbour_enumeration() {
    // petgraph enumerates the outgoing edges of a node newest first.
    let mut graph = Graph::<(), ()>::new();
    let n: Vec<NodeIndex> = (0..5).map(|_| graph.add_node(())).collect();
    graph.add_edge(n[0], n[1], ());
    graph.add_edge(n[0], n[2], ());
    graph.add_edge(n[1], n[3], ());
    graph.add_edge(n[2], n[4], ());
    assert_eq!(descendants_at_distance(&graph, 0, 1), vec![2, 1]);
    assert_eq!(descendants_at_distance(&graph, 0, 2), vec![4, 3]);
}

#[test]
fn diamond_lists_shared_node_once() {
    let mut graph = Graph::<(), ()>::new();
    let n: Vec<NodeIndex> = (0..4).map(|_| graph.add_node(())).collect();
    graph.add_edge(n[0], n[1], ());
    graph.add_edge(n[0], n[2], ());
    graph.add_edge(n[1], n[3], ());
    graph.add_edge(n[2], n[3], ());
    graph.add_edge(n[2], n[3], ());
    assert_eq!(descendants_at_distance(&graph, 0, 2), vec![3]);
}

#[test]
fn shortest_distance_wins_over_longer_walk() {
    // 0 -> 1 -> 2 and 0 -> 2: node 2 is at distance 1, never at 2.
    let mut graph = Graph::<(), ()>::new();
    let n: Vec<NodeIndex> = (0..3).map(|_| graph.add_node(())).collect();
    graph.add_edge(n[0], n[1], ());
    graph.add_edge(n[1], n[2], ());
    graph.add_edge(n[0], n[2], ());
    assert_eq!(descendants_at_distance(&graph, 0, 1), vec![2, 1]);
    assert!(descendants_at_distance(&graph, 0, 2).is_empty());
}

#[test]
fn self_loop_is_not_repeated() {
    let mut graph = Graph::<(), ()>::new();
    let a = graph.add_node(());
    let b = graph.add_node(());
    graph.add_edge(a, a, ());
    graph.add_edge(a, b, ());
    assert_eq!(descendants_at_distance(&graph, 0, 1), vec![1]);
    assert!(descendants_at_distance(&graph, 0, 2).is_empty());
}

#[test]
fn cycle_terminates_and_stays_bounded() {
    let graph = cycle_graph();
    assert_eq!(descendants_at_distance(&graph, 0, 0), vec![0]);
    assert_eq!(descendants_at_distance(&graph, 0, 1), vec![1]);
    assert_eq!(descendants_at_distance(&graph, 0, 2), vec![2]);
    for d in 3..10 {
        assert!(descendants_at_distance(&graph, 0, d).is_empty());
    }
    assert!(descendants_at_distance(&graph, 1, usize::MAX).is_empty());
    for d in 0..10 {
        let r = descendants_at_distance(&graph, 2, d);
        assert!(r.len() <= graph.node_count());
    }
}

#[test]
fn absent_source_has_no_descendants() {
    let graph = path_graph(3);
    assert!(descendants_at_distance(&graph, 10, 1).is_empty());
    assert_eq!(descendants_at_distance(&graph, 10, 0), vec![10]);
}

#[test]
fn graph_view_of_petgraph() {
    let graph = cycle_graph();
    assert_eq!(graph.num_nodes(), 3);
    assert_eq!(graph.successors(2), vec![0]);
    assert!(graph.successors(3).is_empty());
}
