use osm_tasks::graph::AdjacencyArray;

fn sorted_pairs(slice: &[u32]) -> Vec<(u32, u32)> {
    let mut pairs: Vec<(u32, u32)> = slice.chunks(2).map(|c| (c[0], c[1])).collect();
    pairs.sort();
    pairs
}

#[test]
fn from_edges_groups_by_source() {
    let edges = vec![(2, 0, 5), (0, 1, 3), (2, 1, 7), (0, 2, 1), (1, 1, 0)];
    let g = AdjacencyArray::from_edges(4, &edges);
    assert_eq!(g.get_nodes_count(), 4);
    for n in 0..4u32 {
        let mut expected: Vec<(u32, u32)> = edges.iter().filter(|e| e.0 == n).map(|e| (e.1, e.2)).collect();
        expected.sort();
        assert_eq!(sorted_pairs(g.get_neighbors_of_node_and_distances(n)), expected);
    }
    assert_eq!(g.edges_and_distances_offsets(), &vec![0, 4, 6, 10, 10]);
    assert_eq!(g.edges_and_distances().len(), 10);
}

#[test]
fn from_edges_without_edges() {
    let g = AdjacencyArray::from_edges(3, &vec![]);
    assert_eq!(g.get_nodes_count(), 3);
    assert_eq!(g.edges_and_distances_offsets(), &vec![0, 0, 0, 0]);
    assert!(g.get_neighbors_of_node_and_distances(1).is_empty());
}

#[test]
fn neighbors_of_given_arrays() {
    let g = AdjacencyArray::new(vec![0, 4, 4, 6], vec![1, 9, 2, 8, 0, 7]);
    assert_eq!(g.get_nodes_count(), 3);
    assert_eq!(g.get_neighbors_of_node_and_distances(0), &[1, 9, 2, 8]);
    assert!(g.get_neighbors_of_node_and_distances(1).is_empty());
    assert_eq!(g.get_neighbors_of_node_and_distances(2), &[0, 7]);
}

#[test]
fn well_formed_arrays() {
    assert!(AdjacencyArray::new(vec![0, 4, 4, 6], vec![1, 9, 2, 8, 0, 7]).is_well_formed());
    assert!(AdjacencyArray::new(vec![0], vec![]).is_well_formed());
    assert!(AdjacencyArray::from_edges(5, &vec![(4, 0, 1), (0, 4, 1)]).is_well_formed());
}

#[test]
fn malformed_arrays() {
    // no offsets at all
    assert!(!AdjacencyArray::new(vec![], vec![]).is_well_formed());
    // offsets not starting at zero
    assert!(!AdjacencyArray::new(vec![2, 2], vec![0, 1]).is_well_formed());
    // last offset differs from the flat length
    assert!(!AdjacencyArray::new(vec![0, 2], vec![0, 1, 0, 1]).is_well_formed());
    // odd offset
    assert!(!AdjacencyArray::new(vec![0, 1, 2], vec![0, 1]).is_well_formed());
    // decreasing offsets
    assert!(!AdjacencyArray::new(vec![0, 4, 2, 4], vec![0, 1, 1, 1]).is_well_formed());
    // neighbor id outside the graph
    assert!(!AdjacencyArray::new(vec![0, 2], vec![1, 5]).is_well_formed());
}
