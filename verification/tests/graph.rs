use matcher::matching::Graph;

fn complete_graph(n: u32) -> Graph {
    let mut g = Graph::default();
    for id in 0..n {
        g.add_node(100 + id);
    }
    g
}

#[test]
fn add_node_assigns_indices_in_insertion_order() {
    let mut g = Graph::default();
    assert_eq!(g.add_node(10), 0);
    assert_eq!(g.add_node(20), 1);
    assert_eq!(g.add_node(30), 2);
    assert_eq!(g.nodes(), &vec![10, 20, 30]);
    assert_eq!(*g.node(0), 10);
    assert_eq!(*g.node(2), 30);
}

#[test]
fn fresh_pairs_have_weight_zero() {
    let g = complete_graph(3);
    for i in 0..3 {
        for j in 0..3 {
            assert_eq!(g.edge(i, j), 0);
        }
    }
}

#[test]
fn add_edge_sets_both_directions() {
    let mut g = complete_graph(3);
    g.add_edge(0, 2, 5);
    assert_eq!(g.edge(0, 2), 5);
    assert_eq!(g.edge(2, 0), 5);
    assert_eq!(g.edge(0, 1), 0);
    assert_eq!(g.edge(1, 2), 0);
}

#[test]
fn add_node_keeps_existing_weights() {
    let mut g = complete_graph(2);
    g.add_edge(0, 1, 7);
    let id = g.add_node(42);
    assert_eq!(id, 2);
    assert_eq!(g.edge(0, 1), 7);
    assert_eq!(g.edge(0, 2), 0);
    assert_eq!(g.edge(2, 1), 0);
}

#[test]
fn edges_for_lists_every_other_node_ascending() {
    let mut g = complete_graph(4);
    g.add_edge(1, 0, 3);
    g.add_edge(1, 2, 7);
    assert_eq!(g.edges_for(1), vec![(0, 3), (2, 7), (3, 0)]);
    assert_eq!(g.edges_for(0), vec![(1, 3), (2, 0), (3, 0)]);
}

#[test]
fn update_from_matching_increments_each_listed_pair() {
    let mut g = complete_graph(3);
    g.add_edge(0, 1, 4);
    g.update_from_matching(&vec![(0, 1), (1, 2)]);
    assert_eq!(g.edge(0, 1), 5);
    assert_eq!(g.edge(1, 0), 5);
    assert_eq!(g.edge(1, 2), 1);
    assert_eq!(g.edge(2, 1), 1);
    assert_eq!(g.edge(0, 2), 0);
}

#[test]
fn matching_on_empty_graph_is_empty() {
    let g = Graph::default();
    assert_eq!(g.matching(), vec![]);
}

#[test]
fn matching_single_node_is_a_singleton() {
    let g = complete_graph(1);
    assert_eq!(g.matching(), vec![(0, None)]);
}

#[test]
fn matching_two_nodes_pairs_them() {
    let g = complete_graph(2);
    assert_eq!(g.matching(), vec![(0, Some(1))]);
}

#[test]
fn matching_prefers_minimum_weight_partners() {
    let mut g = complete_graph(4);
    g.add_edge(0, 1, 5);
    g.add_edge(0, 2, 0);
    g.add_edge(0, 3, 9);
    g.add_edge(1, 2, 9);
    g.add_edge(1, 3, 0);
    g.add_edge(2, 3, 5);
    assert_eq!(g.matching(), vec![(0, Some(2)), (1, Some(3))]);
}

#[test]
fn matching_breaks_ties_towards_smaller_indices() {
    let g = complete_graph(5);
    assert_eq!(g.matching(), vec![(0, Some(1)), (2, Some(3)), (4, None)]);
}

#[test]
fn matching_partitions_all_indices_exactly_once() {
    let mut g = complete_graph(7);
    g.add_edge(0, 3, 2);
    g.add_edge(1, 5, 1);
    g.add_edge(2, 6, 4);
    let result = g.matching();

    let mut covered = Vec::new();
    let mut singletons = 0;
    for (a, b) in &result {
        covered.push(*a);
        match b {
            Some(b) => covered.push(*b),
            None => singletons += 1,
        }
    }
    covered.sort();
    assert_eq!(covered, vec![0, 1, 2, 3, 4, 5, 6]);
    assert_eq!(singletons, 1);
    assert_eq!(result.len(), 4);
}

#[test]
fn matching_even_count_has_no_singleton() {
    let mut g = complete_graph(6);
    g.add_edge(2, 4, 3);
    let result = g.matching();
    assert_eq!(result.len(), 3);
    for (_, b) in &result {
        assert!(b.is_some());
    }
}

#[test]
fn matching_reads_weights_without_changing_them() {
    let mut g = complete_graph(4);
    g.add_edge(0, 1, 5);
    g.add_edge(2, 3, 1);
    let first = g.matching();
    let second = g.matching();
    assert_eq!(first, second);
    assert_eq!(g.edge(0, 1), 5);
    assert_eq!(g.edge(2, 3), 1);
    assert_eq!(g.edge(0, 2), 0);
}
