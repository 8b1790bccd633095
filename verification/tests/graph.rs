use pagerank::DirectedGraph;

#[test]
fn new_graph_has_no_edges() {
    let graph = DirectedGraph::new(4);
    assert_eq!(graph.vertices(), 4);
    for v in 0..6 {
        assert!(graph.neighbors(v).is_empty());
    }
}

#[test]
fn add_edge_appends_in_order() {
    let mut graph = DirectedGraph::new(3);
    graph.add_edge(0, 1);
    graph.add_edge(0, 2);
    graph.add_edge(2, 0);
    assert_eq!(graph.neighbors(0), &[1, 2]);
    assert!(graph.neighbors(1).is_empty());
    assert_eq!(graph.neighbors(2), &[0]);
    assert_eq!(graph.vertices(), 3);
}

#[test]
fn add_edge_keeps_duplicates() {
    let mut graph = DirectedGraph::new(2);
    graph.add_edge(0, 1);
    graph.add_edge(0, 1);
    graph.add_edge(0, 0);
    graph.add_edge(0, 1);
    assert_eq!(graph.neighbors(0), &[1, 1, 0, 1]);
}

#[test]
fn add_edge_drops_edge_from_outside() {
    let mut graph = DirectedGraph::new(3);
    graph.add_edge(3, 0);
    graph.add_edge(usize::MAX, 1);
    for v in 0..5 {
        assert!(graph.neighbors(v).is_empty());
    }
    assert!(graph.neighbors(usize::MAX).is_empty());
}

#[test]
fn add_edge_drops_edge_to_outside() {
    let mut graph = DirectedGraph::new(3);
    graph.add_edge(0, 3);
    graph.add_edge(2, usize::MAX);
    graph.add_edge(2, 2);
    assert!(graph.neighbors(0).is_empty());
    assert_eq!(graph.neighbors(2), &[2]);
}

#[test]
fn add_edge_on_empty_graph_is_dropped() {
    let mut graph = DirectedGraph::new(0);
    graph.add_edge(0, 0);
    assert_eq!(graph.vertices(), 0);
    assert!(graph.neighbors(0).is_empty());
}

#[test]
fn stored_edges_are_in_range() {
    let mut graph = DirectedGraph::new(5);
    for from in 0..8 {
        for to in 0..8 {
            graph.add_edge(from, to);
        }
    }
    for v in 0..8 {
        let list = graph.neighbors(v);
        if v < 5 {
            assert_eq!(list, &[0, 1, 2, 3, 4]);
        } else {
            assert!(list.is_empty());
        }
    }
}
