use competitive_template::graph::Graph;

#[test]
fn test_graph_utilities() {
    let mut graph = Graph::new(4);
    graph.add_edge(0, 1);
    graph.add_edge(1, 2);
    graph.add_edge(2, 3);

    let visited = graph.dfs(0);
    assert_eq!(visited.len(), 4);
    assert!(visited[0] && visited[1] && visited[2] && visited[3]);
}

#[test]
fn edges_are_kept_in_order() {
    let mut graph = Graph::new(4);
    assert_eq!(graph.size(), 4);
    assert!(!graph.is_directed());
    graph.add_edge(0, 1);
    graph.add_edge(0, 2);
    graph.add_edge(3, 3);
    graph.add_weighted_edge(0, 3, 7);
    graph.add_weighted_edge(2, 2, -1);
    assert_eq!(graph.neighbors(0), &[1, 2]);
    assert_eq!(graph.neighbors(1), &[0]);
    assert_eq!(graph.neighbors(3), &[3]);
    assert_eq!(graph.weighted_neighbors(0), &[(3, 7)]);
    assert_eq!(graph.weighted_neighbors(3), &[(0, 7)]);
    assert_eq!(graph.weighted_neighbors(2), &[(2, -1)]);
    assert_eq!(graph.degree(0), 2);
    assert_eq!(graph.degree(3), 1);
    assert_eq!(graph.weighted_degree(0), 1);
    assert_eq!(graph.weighted_degree(1), 0);
    assert!(graph.has_negative_edges());
}

#[test]
fn directed_edges_lead_one_way() {
    let mut graph = Graph::new_directed(3);
    assert!(graph.is_directed());
    graph.add_edge(0, 1);
    graph.add_weighted_edge(1, 2, 4);
    assert_eq!(graph.neighbors(1), &[] as &[usize]);
    assert_eq!(graph.weighted_neighbors(2), &[] as &[(usize, i64)]);
    assert_eq!(graph.dfs(0), vec![true, true, true]);
    assert_eq!(graph.dfs(2), vec![false, false, true]);
    assert!(graph.are_connected(0, 2));
    assert!(!graph.are_connected(2, 0));
    assert!(graph.are_connected(1, 1));
    assert!(!graph.has_negative_edges());
}

#[test]
fn breadth_first_levels() {
    let mut graph = Graph::new(7);
    graph.add_edge(0, 1);
    graph.add_edge(0, 2);
    graph.add_edge(1, 3);
    graph.add_edge(2, 3);
    graph.add_weighted_edge(3, 4, 100);
    graph.add_edge(5, 6);
    assert_eq!(graph.bfs(0), vec![0, 1, 1, 2, 3, -1, -1]);
    assert_eq!(graph.bfs(4), vec![3, 2, 2, 1, 0, -1, -1]);
    assert_eq!(graph.bfs(6), vec![-1, -1, -1, -1, -1, 1, 0]);
    let single = Graph::new(1);
    assert_eq!(single.bfs(0), vec![0]);
}

#[test]
fn components_are_numbered_in_order() {
    let mut graph = Graph::new(7);
    graph.add_edge(1, 4);
    graph.add_edge(4, 6);
    graph.add_weighted_edge(2, 5, 3);
    assert_eq!(graph.connected_components(), vec![0, 1, 2, 3, 1, 2, 1]);
    assert_eq!(graph.count_components(), 4);
    let empty = Graph::new(0);
    assert_eq!(empty.connected_components(), Vec::<usize>::new());
    assert_eq!(empty.count_components(), 0);
    let mut directed = Graph::new_directed(3);
    directed.add_edge(2, 0);
    directed.add_edge(1, 2);
    assert_eq!(directed.connected_components(), vec![0, 1, 1]);
    assert_eq!(directed.count_components(), 2);
}

#[test]
fn shortest_distances() {
    let mut graph = Graph::new_directed(6);
    graph.add_weighted_edge(0, 1, 7);
    graph.add_weighted_edge(0, 2, 9);
    graph.add_weighted_edge(0, 5, 14);
    graph.add_weighted_edge(1, 2, 10);
    graph.add_weighted_edge(1, 3, 15);
    graph.add_weighted_edge(2, 3, 11);
    graph.add_weighted_edge(2, 5, 2);
    graph.add_weighted_edge(3, 4, 6);
    graph.add_weighted_edge(5, 4, 9);
    assert_eq!(graph.dijkstra(0), vec![0, 7, 9, 20, 20, 11]);
    assert_eq!(graph.dijkstra(3), vec![i64::MAX, i64::MAX, i64::MAX, 0, 6, i64::MAX]);
    assert_eq!(graph.shortest_distance(0, 4), Some(20));
    assert_eq!(graph.shortest_distance(4, 0), None);
    assert_eq!(graph.shortest_distance(2, 2), Some(0));
    let (distances, predecessors) = graph.dijkstra_with_path(0);
    assert_eq!(distances, vec![0, 7, 9, 20, 20, 11]);
    assert_eq!(predecessors, vec![None, Some(0), Some(0), Some(2), Some(5), Some(2)]);
    assert_eq!(graph.shortest_path(0, 4), Some(vec![0, 2, 5, 4]));
    assert_eq!(graph.shortest_path(0, 0), Some(vec![0]));
    assert_eq!(graph.shortest_path(4, 0), None);
}

#[test]
fn unweighted_edges_do_not_count_for_distances() {
    let mut graph = Graph::new(3);
    graph.add_edge(0, 1);
    graph.add_weighted_edge(1, 2, 5);
    assert_eq!(graph.dijkstra(0), vec![0, i64::MAX, i64::MAX]);
    assert_eq!(graph.dijkstra(1), vec![i64::MAX, 0, 5]);
    assert_eq!(graph.dijkstra(2), vec![i64::MAX, 5, 0]);
}

#[test]
fn distances_saturate() {
    let mut graph = Graph::new_directed(3);
    graph.add_weighted_edge(0, 1, i64::MAX - 1);
    graph.add_weighted_edge(1, 2, 5);
    assert_eq!(graph.dijkstra(0), vec![0, i64::MAX - 1, i64::MAX]);
    assert_eq!(graph.shortest_distance(0, 2), None);
}

#[test]
fn negative_weights_are_relaxed_to_the_end() {
    let mut graph = Graph::new_directed(4);
    graph.add_weighted_edge(0, 1, 5);
    graph.add_weighted_edge(0, 2, 2);
    graph.add_weighted_edge(1, 3, -4);
    graph.add_weighted_edge(2, 3, 1);
    assert_eq!(graph.dijkstra(0), vec![0, 5, 2, 1]);
    assert_eq!(graph.shortest_path(0, 3), Some(vec![0, 1, 3]));
}

#[test]
fn paths_from_given_predecessors() {
    let graph = Graph::new(5);
    let predecessors = vec![None, Some(0), Some(1), Some(4), Some(3)];
    assert_eq!(graph.reconstruct_path(0, 2, &predecessors), Some(vec![0, 1, 2]));
    assert_eq!(graph.reconstruct_path(1, 2, &predecessors), Some(vec![1, 2]));
    assert_eq!(graph.reconstruct_path(2, 2, &predecessors), Some(vec![2]));
    assert_eq!(graph.reconstruct_path(2, 0, &predecessors), None);
    // going back from 3 runs in a circle and never meets 0
    assert_eq!(graph.reconstruct_path(0, 3, &predecessors), None);
    assert_eq!(graph.reconstruct_path(4, 3, &predecessors), Some(vec![4, 3]));
}

#[test]
fn labels_of_an_undirected_graph_follow_reachability() {
    let mut graph = Graph::new(9);
    graph.add_edge(8, 0);
    graph.add_edge(3, 5);
    graph.add_weighted_edge(5, 7, 2);
    graph.add_edge(1, 2);
    graph.add_edge(2, 6);
    let labels = graph.connected_components();
    for v in 0..9 {
        for w in 0..9 {
            assert_eq!(labels[v] == labels[w], graph.are_connected(v, w));
        }
    }
    assert_eq!(graph.count_components(), 4);
}
