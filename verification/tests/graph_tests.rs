use algos::graph::Graph;

#[test]
fn test_bfs_all_nodes_visited() {
    let mut graph = Graph::new(5);
    graph.add_edge(0, 1);
    graph.add_edge(0, 4);
    graph.add_edge(1, 2);
    graph.add_edge(1, 3);
    graph.add_edge(1, 4);
    graph.add_edge(2, 3);
    graph.add_edge(3, 4);

    let visited_order = graph.bfs_with_return(0);
    assert_eq!(visited_order, vec![0, 1, 4, 2, 3]);
}

#[test]
fn test_bfs_different_start() {
    let mut graph = Graph::new(3);
    graph.add_edge(0, 1);
    graph.add_edge(1, 2);

    let visited_order = graph.bfs_with_return(2);
    assert_eq!(visited_order, vec![2, 1, 0]);
}

#[test]
fn test_bfs_with_cycle() {
    let mut graph = Graph::new(3);
    graph.add_edge(0, 1);
    graph.add_edge(1, 2);
    graph.add_edge(2, 0);

    let visited_order = graph.bfs_with_return(0);
    assert_eq!(visited_order, vec![0, 1, 2]);
}

#[test]
fn test_bfs_single_node() {
    let mut graph = Graph::new(1);

    let visited_order = graph.bfs_with_return(0);
    assert_eq!(visited_order, vec![0]);
}

#[test]
fn bfs_does_not_leave_the_component() {
    let mut graph = Graph::new(6);
    graph.add_edge(0, 1);
    graph.add_edge(1, 2);
    graph.add_edge(3, 4);

    let from_zero = graph.bfs_with_return(0);
    assert_eq!(from_zero, vec![0, 1, 2]);

    let from_three = graph.bfs_with_return(3);
    assert_eq!(from_three, vec![3, 4]);

    let from_five = graph.bfs_with_return(5);
    assert_eq!(from_five, vec![5]);
}

#[test]
fn bfs_handles_a_self_loop() {
    let mut graph = Graph::new(2);
    graph.add_edge(0, 0);
    graph.add_edge(0, 1);

    let visited_order = graph.bfs_with_return(0);
    assert_eq!(visited_order, vec![0, 1]);
}
