use std::collections::HashMap;

use osm_tasks::rings::{
    append_coords_from_map_for_nodes, check_polygons_closed, closed_polygons_count, merge_ways_to_polygons, sort_rings_by_size, Coastline,
};

fn way(nodes: &[i64]) -> Coastline {
    Coastline { first: nodes[0], last: *nodes.last().unwrap(), nodes: nodes.to_vec() }
}

#[test]
fn two_fragments_form_one_closed_ring() {
    let rings = merge_ways_to_polygons(&vec![way(&[1, 2, 3]), way(&[3, 4, 1])]);
    assert_eq!(rings, vec![vec![1, 2, 3, 4, 1]]);
    assert!(check_polygons_closed(&rings));
    assert_eq!(closed_polygons_count(&rings), 1);
}

#[test]
fn walk_starts_at_first_unused_fragment() {
    let rings = merge_ways_to_polygons(&vec![way(&[3, 4, 1]), way(&[1, 2, 3])]);
    assert_eq!(rings, vec![vec![3, 4, 1, 2, 3]]);
}

#[test]
fn disjoint_cycles_give_separate_rings() {
    let fragments = vec![way(&[1, 2]), way(&[10, 11, 12]), way(&[2, 3, 1]), way(&[12, 10])];
    let rings = merge_ways_to_polygons(&fragments);
    assert_eq!(rings, vec![vec![1, 2, 3, 1], vec![10, 11, 12, 10]]);
    assert!(check_polygons_closed(&rings));
}

#[test]
fn missing_next_fragment_leaves_ring_open() {
    let rings = merge_ways_to_polygons(&vec![way(&[1, 2, 3]), way(&[3, 4, 5])]);
    assert_eq!(rings, vec![vec![1, 2, 3, 4, 5]]);
    assert!(!check_polygons_closed(&rings));
    assert_eq!(closed_polygons_count(&rings), 0);
}

#[test]
fn self_closed_fragment() {
    let rings = merge_ways_to_polygons(&vec![way(&[7, 8, 9, 7])]);
    assert_eq!(rings, vec![vec![7, 8, 9, 7]]);
}

#[test]
fn no_fragments_no_rings() {
    let rings = merge_ways_to_polygons(&vec![]);
    assert!(rings.is_empty());
    assert!(check_polygons_closed(&rings));
    assert_eq!(closed_polygons_count(&rings), 0);
}

#[test]
fn counts_closed_rings() {
    let rings = vec![vec![1, 2, 1], vec![1, 2], vec![], vec![5]];
    assert_eq!(closed_polygons_count(&rings), 2);
    assert!(!check_polygons_closed(&rings));
}

#[test]
fn rings_sorted_largest_first() {
    let sorted = sort_rings_by_size(vec![vec![1, 2], vec![1, 2, 3, 4], vec![], vec![9, 9, 9]]);
    assert_eq!(sorted, vec![vec![1, 2, 3, 4], vec![9, 9, 9], vec![1, 2], vec![]]);
}

#[test]
fn unknown_node_ids_are_skipped() {
    let mut locations: HashMap<i64, (i32, i32)> = HashMap::new();
    locations.insert(1, (10, 20));
    locations.insert(3, (30, 40));
    let coords = append_coords_from_map_for_nodes(&locations, &vec![1, 2, 3, 1]);
    assert_eq!(coords, vec![(10, 20), (30, 40), (10, 20)]);
}
