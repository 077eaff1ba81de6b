use resyn_core::graph::{edge_plan, node_plan, sorted_positions, undirected_edges};

#[test]
fn nodes_are_first_papers_per_unversioned_id() {
    let ids: Vec<String> = vec!["2301.1v1".into(), "2301.2".into(), "2301.1v2".into(), "2301.3".into()];
    let (nodes, node_ids) = node_plan(&ids);
    assert_eq!(nodes, vec![0, 1, 3]);
    assert_eq!(node_ids, vec!["2301.1", "2301.2", "2301.3"]);
}

#[test]
fn edges_between_known_nodes_by_index() {
    let node_ids: Vec<String> = vec!["a".into(), "b".into(), "c".into()];
    let edges = vec![
        ("av3".to_string(), "c".to_string()),
        ("a".to_string(), "zzz".to_string()),
        ("c".to_string(), "b".to_string()),
    ];
    assert_eq!(edge_plan(&node_ids, &edges), vec![(0, 2), (2, 1)]);
}

#[test]
fn positions_sort_by_id_with_stable_ties() {
    let ids: Vec<String> = vec!["c".into(), "a".into(), "b".into(), "a".into()];
    assert_eq!(sorted_positions(&ids), vec![3, 0, 2, 1]);
}

#[test]
fn undirected_edges_are_ordered_and_distinct() {
    let edges = vec![(3, 1), (1, 3), (2, 2), (0, 5), (5, 0), (1, 3)];
    assert_eq!(undirected_edges(&edges), vec![(1, 3), (2, 2), (0, 5)]);
}

#[test]
fn edge_degrees_count_endpoints_of_edges_within_the_nodes() {
    let degrees = resyn_core::graph::edge_degrees(4, &[(0, 1), (1, 2), (1, 1), (2, 7), (3, 0)]);
    assert_eq!(degrees, vec![2, 4, 1, 1]);
    assert_eq!(resyn_core::graph::edge_degrees(2, &[]), vec![0, 0]);
}
