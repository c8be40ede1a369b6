use transit_model::graph::Graph;

#[test]
fn add_edge_numbers_edges_in_order() {
    let mut g = Graph::new(3);
    assert_eq!(g.nodes(), 3);
    assert_eq!(g.edges_len(), 0);
    assert_eq!(g.add_edge(0, 1, 5), Some(0));
    assert_eq!(g.add_edge(1, 2, 7), Some(1));
    assert_eq!(g.add_edge(1, 2, 7), Some(2));
    assert_eq!(g.edges_len(), 3);
}

#[test]
fn add_edge_refuses_what_leaves_the_graph() {
    let mut g = Graph::new(3);
    assert_eq!(g.add_edge(3, 0, 1), None);
    assert_eq!(g.add_edge(0, 3, 1), None);
    assert_eq!(g.add_edge(0, 1, 0), None);
    assert_eq!(g.edges_len(), 0);
    assert_eq!(g.add_edge(2, 2, 1), Some(0));
}

#[test]
fn distances_are_cheapest_costs() {
    let mut g = Graph::new(5);
    g.add_edge(0, 1, 4);
    g.add_edge(0, 2, 1);
    g.add_edge(2, 1, 2);
    g.add_edge(1, 3, 5);
    g.add_edge(2, 3, 9);
    assert_eq!(g.distances(0), vec![Some(0), Some(3), Some(1), Some(8), None]);
    assert_eq!(g.distances(2), vec![None, Some(2), Some(0), Some(7), None]);
    assert_eq!(g.distances(4), vec![None, None, None, None, Some(0)]);
}

#[test]
fn shortest_path_takes_the_cheaper_detour() {
    let mut g = Graph::new(4);
    g.add_edge(0, 3, 10);
    g.add_edge(0, 1, 2);
    g.add_edge(1, 2, 3);
    g.add_edge(2, 3, 4);
    assert_eq!(g.shortest_path(0, 3), Some(vec![1, 2, 3]));
    assert_eq!(g.shortest_path(1, 3), Some(vec![2, 3]));
}

#[test]
fn shortest_path_to_itself_is_empty() {
    let mut g = Graph::new(2);
    g.add_edge(0, 1, 1);
    g.add_edge(1, 0, 1);
    assert_eq!(g.shortest_path(0, 0), Some(vec![]));
    assert_eq!(g.shortest_path(1, 1), Some(vec![]));
}

#[test]
fn shortest_path_is_none_where_nothing_leads() {
    let mut g = Graph::new(3);
    g.add_edge(0, 1, 1);
    assert_eq!(g.shortest_path(1, 0), None);
    assert_eq!(g.shortest_path(0, 2), None);
    assert_eq!(g.shortest_path(2, 1), None);
}

#[test]
fn ties_go_to_the_edge_registered_first() {
    let mut g = Graph::new(3);
    g.add_edge(0, 1, 2);
    g.add_edge(0, 2, 1);
    g.add_edge(2, 1, 1);
    g.add_edge(0, 1, 2);
    assert_eq!(g.shortest_path(0, 1), Some(vec![0]));

    let mut h = Graph::new(3);
    h.add_edge(0, 2, 1);
    h.add_edge(2, 1, 1);
    h.add_edge(0, 1, 2);
    assert_eq!(h.shortest_path(0, 1), Some(vec![0, 1]));
}

#[test]
fn ties_are_broken_at_every_node_of_the_walk() {
    // Two equal ways into node 1, then one edge on to node 2.
    let mut g = Graph::new(4);
    g.add_edge(0, 3, 1);
    g.add_edge(1, 2, 1);
    g.add_edge(3, 1, 1);
    g.add_edge(0, 1, 2);
    assert_eq!(g.shortest_path(0, 2), Some(vec![0, 2, 1]));
}

#[test]
fn shortest_paths_from_lists_every_target() {
    let mut g = Graph::new(4);
    g.add_edge(0, 1, 1);
    g.add_edge(1, 2, 1);
    g.add_edge(0, 2, 3);
    let all = g.shortest_paths_from(0);
    assert_eq!(all, vec![Some(vec![]), Some(vec![0]), Some(vec![0, 1]), None]);
    for (t, p) in all.iter().enumerate() {
        assert_eq!(*p, g.shortest_path(0, t));
    }
}

#[test]
fn path_to_reads_a_table_of_distances() {
    let mut g = Graph::new(3);
    g.add_edge(0, 1, 7);
    g.add_edge(1, 2, 2);
    let table = g.distances(0);
    assert_eq!(g.path_to(0, &table, 2), Some(vec![0, 1]));
    assert_eq!(g.path_to(0, &table, 0), Some(vec![]));
}

#[test]
fn large_costs_do_not_overflow() {
    let mut g = Graph::new(3);
    g.add_edge(0, 1, u32::MAX);
    g.add_edge(1, 2, u32::MAX);
    assert_eq!(g.distances(0), vec![Some(0), Some(4294967295), Some(8589934590)]);
    assert_eq!(g.shortest_path(0, 2), Some(vec![0, 1]));
}
