use osm_tasks::dijkstra::Dijkstra;
use osm_tasks::graph::AdjacencyArray;
use osm_tasks::navigator::{InMemoryGraph, RouteError};

/// The eight-node fixture: offsets in pairs, targets and weights interleaved.
fn fixture() -> AdjacencyArray {
    let offsets_old: Vec<u32> = vec![0, 2, 5, 8, 11, 16, 19, 22, 24];
    let targets: Vec<u32> = vec![1, 4, 0, 2, 4, 1, 3, 4, 2, 4, 6, 0, 1, 2, 3, 5, 4, 6, 7, 3, 5, 7, 5, 6];
    let weights: Vec<u32> = vec![2, 1, 2, 2, 1, 2, 1, 2, 1, 3, 2, 1, 1, 2, 3, 1, 1, 3, 1, 2, 3, 1, 1, 1];
    let offsets: Vec<u32> = offsets_old.iter().map(|i| i * 2).collect();
    let mut edges = Vec::new();
    for i in 0..targets.len() {
        edges.push(targets[i]);
        edges.push(weights[i]);
    }
    AdjacencyArray::new(offsets, edges)
}

fn edge_list(g: &AdjacencyArray) -> Vec<(u32, u32, u32)> {
    let offsets = g.edges_and_distances_offsets();
    let flat = g.edges_and_distances();
    let mut out = Vec::new();
    for u in 0..offsets.len() - 1 {
        let mut i = offsets[u] as usize;
        while i < offsets[u + 1] as usize {
            out.push((u as u32, flat[i], flat[i + 1]));
            i += 2;
        }
    }
    out
}

/// Bellman-Ford over the edge list: independent reference distances.
fn brute_force(n: usize, edges: &[(u32, u32, u32)], s: usize) -> Vec<Option<u64>> {
    let mut d: Vec<Option<u64>> = vec![None; n];
    d[s] = Some(0);
    for _ in 0..n {
        for &(u, v, w) in edges {
            if let Some(du) = d[u as usize] {
                let nd = du + w as u64;
                if d[v as usize].map_or(true, |dv| nd < dv) {
                    d[v as usize] = Some(nd);
                }
            }
        }
    }
    d
}

fn check_path(edges: &[(u32, u32, u32)], path: &[u32], s: u32, t: u32, dist: u32) {
    assert_eq!(path[0], s);
    assert_eq!(*path.last().unwrap(), t);
    let mut total: u64 = 0;
    for k in 0..path.len() - 1 {
        let best = edges
            .iter()
            .filter(|e| e.0 == path[k] && e.1 == path[k + 1])
            .map(|e| e.2)
            .min()
            .expect("consecutive path nodes must be joined by an edge");
        total += best as u64;
    }
    assert_eq!(total, dist as u64);
}

#[test]
fn fixture_source_zero_to_zero() {
    let mut d = Dijkstra::new(fixture(), 0);
    assert_eq!(d.find_route(0), Some((vec![0], 0)));
}

#[test]
fn fixture_source_zero_to_seven() {
    let g = fixture();
    let edges = edge_list(&g);
    let mut d = Dijkstra::new(g, 0);
    let (path, dist) = d.find_route(7).unwrap();
    assert_eq!(dist, 3);
    assert_eq!(brute_force(8, &edges, 0)[7], Some(3));
    check_path(&edges, &path, 0, 7, dist);
}

#[test]
fn query_own_source_gives_single_node() {
    let mut d = Dijkstra::new(fixture(), 0);
    for s in 0..8u32 {
        d.change_source_node(s);
        assert_eq!(d.find_route(s), Some((vec![s], 0)));
    }
}

#[test]
fn distances_match_brute_force_on_fixture() {
    let g = fixture();
    let edges = edge_list(&g);
    let mut d = Dijkstra::new(g, 0);
    for s in 0..8u32 {
        d.change_source_node(s);
        let reference = brute_force(8, &edges, s as usize);
        for t in 0..8u32 {
            let (path, dist) = d.find_route(t).unwrap();
            assert_eq!(Some(dist as u64), reference[t as usize]);
            check_path(&edges, &path, s, t, dist);
        }
    }
}

fn pseudo_random_edges(n: u32, m: usize, seed: u64) -> Vec<(u32, u32, u32)> {
    let mut x = seed;
    let mut next = move || {
        x = x.wrapping_mul(6364136223846793005).wrapping_add(1442695040888963407);
        (x >> 33) as u32
    };
    let mut edges = Vec::new();
    for _ in 0..m {
        let u = next() % n;
        let v = next() % n;
        let w = next() % 10;
        edges.push((u, v, w));
    }
    edges
}

#[test]
fn distances_match_brute_force_on_random_graphs() {
    for seed in 1..20u64 {
        let n = 2 + (seed as u32 % 9);
        let edges = pseudo_random_edges(n, (seed as usize * 3) % 25, seed);
        let g = AdjacencyArray::from_edges(n, &edges);
        let mut d = Dijkstra::new(g, 0);
        for s in 0..n {
            d.change_source_node(s);
            let reference = brute_force(n as usize, &edges, s as usize);
            for t in 0..n {
                match d.find_route(t) {
                    Some((path, dist)) => {
                        assert_eq!(Some(dist as u64), reference[t as usize]);
                        check_path(&edges, &path, s, t, dist);
                    }
                    None => assert_eq!(reference[t as usize], None),
                }
            }
        }
    }
}

#[test]
fn change_source_twice_keeps_results() {
    let mut d = Dijkstra::new(fixture(), 0);
    d.change_source_node(3);
    let first = d.find_route(7);
    d.change_source_node(3);
    d.change_source_node(3);
    assert_eq!(d.find_route(7), first);
    assert_eq!(first.map(|r| r.1), Some(3));
}

#[test]
fn query_order_does_not_change_distances() {
    for (d1, d2) in [(7u32, 2u32), (3, 6), (5, 1)] {
        let mut a = Dijkstra::new(fixture(), 0);
        let a1 = a.find_route(d1).map(|r| r.1);
        let a2 = a.find_route(d2).map(|r| r.1);
        let mut b = Dijkstra::new(fixture(), 0);
        let b2 = b.find_route(d2).map(|r| r.1);
        let b1 = b.find_route(d1).map(|r| r.1);
        assert_eq!(a1, b1);
        assert_eq!(a2, b2);
    }
}

#[test]
fn disconnected_destination_is_unreachable() {
    let edges = vec![(0, 1, 4), (1, 0, 4), (2, 3, 1), (3, 2, 1)];
    let g = AdjacencyArray::from_edges(4, &edges);
    let mut d = Dijkstra::new(g, 0);
    assert_eq!(d.find_route(3), None);
    assert_eq!(d.find_route(2), None);
    assert_eq!(d.find_route(1), Some((vec![0, 1], 4)));
}

#[test]
fn zero_weight_edges() {
    let edges = vec![(0, 1, 0), (1, 2, 0), (2, 0, 0)];
    let mut d = Dijkstra::new(AdjacencyArray::from_edges(3, &edges), 0);
    assert_eq!(d.find_route(2), Some((vec![0, 1, 2], 0)));
    assert_eq!(d.find_route(0), Some((vec![0], 0)));
}

#[test]
fn distances_that_reach_the_sentinel_are_unreachable() {
    let edges = vec![(0, 1, u32::MAX - 1), (1, 2, 1), (0, 3, u32::MAX)];
    let mut d = Dijkstra::new(AdjacencyArray::from_edges(4, &edges), 0);
    assert_eq!(d.find_route(1), Some((vec![0, 1], u32::MAX - 1)));
    assert_eq!(d.find_route(2), None);
    assert_eq!(d.find_route(3), None);
}

#[test]
fn route_without_graph_is_unavailable() {
    let mut nav = InMemoryGraph::new();
    assert_eq!(nav.get_number_nodes(), 0);
    assert_eq!(nav.calculate_route(0, 0), Err(RouteError::GraphUnavailable));
}

#[test]
fn empty_graph_leaves_graph_unavailable() {
    let mut nav = InMemoryGraph::new();
    nav.build_graph(AdjacencyArray::from_edges(0, &vec![]));
    assert_eq!(nav.calculate_route(0, 0), Err(RouteError::GraphUnavailable));
}

#[test]
fn route_with_invalid_node_is_rejected() {
    let mut nav = InMemoryGraph::new();
    nav.build_graph(fixture());
    assert_eq!(nav.get_number_nodes(), 8);
    assert_eq!(nav.calculate_route(0, 8), Err(RouteError::InvalidInput));
    assert_eq!(nav.calculate_route(9, 1), Err(RouteError::InvalidInput));
}

#[test]
fn route_on_built_graph() {
    let mut nav = InMemoryGraph::new();
    nav.build_graph(fixture());
    let (path, dist) = nav.calculate_route(0, 7).unwrap();
    assert_eq!(dist, 3);
    check_path(&edge_list(&fixture()), &path, 0, 7, dist);
    assert_eq!(nav.calculate_route(7, 7), Ok((vec![7], 0)));
    assert_eq!(nav.calculate_route(2, 0).map(|r| r.1), Ok(3));
}

#[test]
fn route_to_unreachable_node() {
    let mut nav = InMemoryGraph::new();
    nav.build_graph(AdjacencyArray::from_edges(3, &vec![(0, 1, 2), (1, 0, 2)]));
    assert_eq!(nav.calculate_route(0, 2), Err(RouteError::UnreachableDestination));
    assert_eq!(nav.calculate_route(1, 0), Ok((vec![1, 0], 2)));
}

#[test]
fn rebuild_replaces_graph() {
    let mut nav = InMemoryGraph::new();
    nav.build_graph(fixture());
    assert_eq!(nav.calculate_route(0, 7).map(|r| r.1), Ok(3));
    nav.build_graph(AdjacencyArray::from_edges(8, &vec![(0, 7, 10)]));
    assert_eq!(nav.calculate_route(0, 7), Ok((vec![0, 7], 10)));
    assert_eq!(nav.calculate_route(7, 0), Err(RouteError::UnreachableDestination));
}

#[test]
fn change_of_source_leaves_nothing_stale() {
    let mut d = Dijkstra::new(fixture(), 0);
    assert_eq!(d.find_route(7).map(|r| r.1), Some(3));
    d.change_source_node(7);
    let distances: Vec<u32> = (0..8u32).map(|j| d.find_route(j).unwrap().1).collect();
    assert_eq!(distances, vec![3, 3, 4, 3, 2, 1, 1, 0]);
}

#[test]
fn repeated_query_gives_same_route() {
    let mut d = Dijkstra::new(fixture(), 0);
    let first = d.find_route(6);
    assert_eq!(d.find_route(3).map(|r| r.1), Some(4));
    assert_eq!(d.find_route(6), first);
    let (path, _) = first.unwrap();
    let mut seen = path.clone();
    seen.sort();
    seen.dedup();
    assert_eq!(seen.len(), path.len());
}
