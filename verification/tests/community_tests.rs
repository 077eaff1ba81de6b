use single_clustering::community_search::louvain::Louvain;
use single_clustering::network::grouping::{NetworkGrouping, VectorGrouping};
use resyn_core::community::{
    build_community_label, community_status, intra_community_degrees, partition_from_groups, status_for_fingerprint,
    CommunityAssignment, OTHER_COLOR_INDEX, OTHER_COMMUNITY_ID,
};
use resyn_core::tfidf::corpus_fingerprint;

fn ids(n: usize) -> Vec<String> {
    (0..n).map(|i| format!("2301.{:05}", i)).collect()
}

#[test]
fn test_auto_label_from_ctfidf() {
    let keywords = vec![
        ("quantum".to_string(), 0.9f32),
        ("decoherence".to_string(), 0.7),
        ("entanglement".to_string(), 0.5),
    ];
    let terms: Vec<String> = keywords.iter().map(|(k, _)| k.clone()).collect();
    let label = build_community_label(0, &terms);
    assert_eq!(label, "quantum decoherence", "label should use top 2 keywords");

    let single = vec![("topology".to_string(), 0.8f32)];
    let single_terms: Vec<String> = single.iter().map(|(k, _)| k.clone()).collect();
    let label_single = build_community_label(1, &single_terms);
    assert_eq!(label_single, "topology", "single keyword should be used alone");

    let label_other = build_community_label(OTHER_COLOR_INDEX, &terms);
    assert_eq!(label_other, "Other", "Other bucket should always return 'Other'");

    let label_empty = build_community_label(2, &[]);
    assert_eq!(label_empty, "Unlabeled", "empty keywords should give 'Unlabeled'");
}

#[test]
fn small_communities_join_the_other_bucket() {
    // eight members in community 0, two in community 1 (too small)
    let groups = vec![0, 0, 0, 0, 0, 0, 0, 0, 1, 1];
    let p = partition_from_groups(&ids(10), &groups);
    assert_eq!(p.assignments.len(), 10);
    assert_eq!(p.assignments[8].1, OTHER_COMMUNITY_ID);
    assert_eq!(p.assignments[9].1, OTHER_COMMUNITY_ID);
    assert_eq!(p.assignments[0].1, 0);
    assert_eq!(p.assignments[0].0, "2301.00000");
    assert_eq!(p.color_indices, vec![(0, 0), (OTHER_COMMUNITY_ID, OTHER_COLOR_INDEX)]);
    let mut sizes = p.sizes.clone();
    sizes.sort();
    assert_eq!(sizes, vec![(0, 8), (OTHER_COMMUNITY_ID, 2)]);
}

#[test]
fn colors_rank_by_size_then_id() {
    // community 5 has 3 members, 2 has 5, 9 has 3: ranked 2, 5, 9
    let groups = vec![5, 2, 9, 2, 5, 2, 9, 2, 5, 2, 9];
    let p = partition_from_groups(&ids(11), &groups);
    assert_eq!(p.color_indices, vec![(2, 0), (5, 1), (9, 2)]);
}

#[test]
fn community_color_index_zero_is_largest() {
    let groups = vec![1, 1, 1, 1, 1, 0, 0, 0, 0, 0, 0, 0, 0];
    let p = partition_from_groups(&ids(13), &groups);
    assert_eq!(p.color_indices[0], (0, 0));
    assert_eq!(p.color_indices[1], (1, 1));
}

#[test]
fn status_counts_current_non_other_communities() {
    let fp = "abc";
    let a = |id: &str, c: u32, f: &str| CommunityAssignment {
        arxiv_id: id.to_string(),
        community_id: c,
        corpus_fingerprint: f.to_string(),
    };
    let assignments = vec![
        a("p1", 0, "abc"),
        a("p2", 0, "abc"),
        a("p3", 4, "abc"),
        a("p4", OTHER_COMMUNITY_ID, "abc"),
        a("p5", 7, "stale"),
    ];
    let s = status_for_fingerprint(fp, &assignments);
    assert!(s.ready);
    assert_eq!(s.fingerprint, Some("abc".to_string()));
    assert_eq!(s.count, 2);

    let stale = status_for_fingerprint("other", &assignments);
    assert!(!stale.ready);
    assert_eq!(stale.fingerprint, None);
    assert_eq!(stale.count, 0);
}

#[test]
fn community_status_uses_unversioned_corpus_fingerprint() {
    let papers = vec!["2301.00002v3".to_string(), "2301.00001".to_string()];
    let fp = corpus_fingerprint(&["2301.00001".to_string(), "2301.00002".to_string()]);
    let assignments = vec![CommunityAssignment {
        arxiv_id: "2301.00001".to_string(),
        community_id: 3,
        corpus_fingerprint: fp.clone(),
    }];
    let s = community_status(&papers, &assignments);
    assert!(s.ready);
    assert_eq!(s.fingerprint, Some(fp));
    assert_eq!(s.count, 1);

    let empty = community_status(&[], &assignments);
    assert!(!empty.ready);
}

#[test]
fn intra_degrees_count_citations_within_communities() {
    let a = |id: &str, c: u32| CommunityAssignment {
        arxiv_id: id.to_string(),
        community_id: c,
        corpus_fingerprint: "fp".to_string(),
    };
    let assignments = vec![a("p1v2", 1), a("p2", 1), a("p3", 2)];
    let edges = vec![
        ("p1".to_string(), "p2".to_string()),
        ("p2v1".to_string(), "p1".to_string()),
        ("p1".to_string(), "p3".to_string()),
        ("p3".to_string(), "p9".to_string()),
    ];
    let mut degrees = intra_community_degrees(&assignments, &edges);
    degrees.sort();
    assert_eq!(degrees, vec![("p1".to_string(), 2), ("p2".to_string(), 2)]);
}

#[test]
fn louvain_network_needs_ten_nodes() {
    let ids: Vec<String> = (0..9).map(|i| format!("2301.0000{i}")).collect();
    assert!(resyn_core::louvain::louvain_network(&ids, &[]).is_none());
}

#[test]
fn louvain_network_numbers_nodes_by_id_and_dedups_edges() {
    let ids: Vec<String> = vec![
        "2301.00009".into(),
        "2301.00001v2".into(),
        "2301.00005".into(),
        "2301.00001v1".into(),
        "2301.00002".into(),
        "2301.00003".into(),
        "2301.00004".into(),
        "2301.00006".into(),
        "2301.00007".into(),
        "2301.00008".into(),
        "2301.00000".into(),
    ];
    let edges: Vec<(String, String)> = vec![
        ("2301.00009".into(), "2301.00001".into()),
        ("2301.00001v3".into(), "2301.00009".into()),
        ("2301.00005".into(), "2301.99999".into()),
        ("2301.00002".into(), "2301.00003".into()),
    ];
    let (sorted_ids, und) = resyn_core::louvain::louvain_network(&ids, &edges).unwrap();
    let expected: Vec<String> = (0..10).map(|i| format!("2301.0000{i}")).collect();
    assert_eq!(sorted_ids, expected);
    assert_eq!(und, vec![(1, 9), (2, 3)]);
}

#[test]
fn communities_from_groups_merges_small_groups_into_other() {
    let ids: Vec<String> = (0..7).map(|i| format!("p{i}")).collect();
    let groups: Vec<usize> = vec![5, 5, 5, 5, 2, 2, 9];
    let p = resyn_core::louvain::communities_from_groups(&ids, &groups);
    let assigned: Vec<u32> = p.assignments.iter().map(|(_, c)| *c).collect();
    assert_eq!(assigned, vec![5, 5, 5, 5, u32::MAX - 1, u32::MAX - 1, u32::MAX - 1]);
    assert_eq!(p.assignments[0].0, "p0");
}

fn louvain_partition(ids: &[String], edges: &[(String, String)]) -> resyn_core::community::LouvainPartition {
    let Some((sorted_ids, und)) = resyn_core::louvain::louvain_network(ids, edges) else {
        return resyn_core::community::LouvainPartition::empty();
    };
    let n = sorted_ids.len();
    let network = Louvain::<f64>::build_network(n, und.len(), und.iter().copied());
    let mut louvain: Louvain<f64> = Louvain::new(1.0, Some(42));
    let mut clustering = VectorGrouping::create_isolated(n);
    louvain.iterate(&network, &mut clustering);
    let groups: Vec<usize> = (0..n).map(|i| clustering.get_group(i)).collect();
    resyn_core::louvain::communities_from_groups(&sorted_ids, &groups)
}

fn two_clique_graph(n_a: usize, n_b: usize) -> (Vec<String>, Vec<(String, String)>) {
    let total = n_a + n_b;
    let ids: Vec<String> = (0..total).map(|i| format!("2301.{:05}", i)).collect();
    let mut edges = Vec::new();
    for i in 0..n_a {
        for j in 0..n_a {
            if i != j {
                edges.push((ids[i].clone(), ids[j].clone()));
            }
        }
    }
    for i in n_a..total {
        for j in n_a..total {
            if i != j {
                edges.push((ids[i].clone(), ids[j].clone()));
            }
        }
    }
    edges.push((ids[n_a - 1].clone(), ids[n_a].clone()));
    (ids, edges)
}

#[test]
fn test_community_detection_deterministic() {
    let (ids, edges) = two_clique_graph(8, 8);
    let p1 = louvain_partition(&ids, &edges);
    let p2 = louvain_partition(&ids, &edges);
    assert_eq!(p1.assignments, p2.assignments, "detect_communities must be deterministic with fixed seed");
}

#[test]
fn test_community_detection_too_small() {
    let ids: Vec<String> = (0..9).map(|i| format!("2301.{:05}", i)).collect();
    let partition = louvain_partition(&ids, &[]);
    assert!(partition.assignments.is_empty(), "graph with < 10 nodes should return empty assignments");
}

#[test]
fn test_community_other_bucket() {
    let mut ids: Vec<String> = (0..8).map(|i| format!("2301.{:05}", i)).collect();
    let mut edges = Vec::new();
    for i in 0..8 {
        for j in 0..8 {
            if i != j {
                edges.push((ids[i].clone(), ids[j].clone()));
            }
        }
    }
    ids.push("2301.00100".to_string());
    ids.push("2301.00101".to_string());
    edges.push(("2301.00100".to_string(), "2301.00101".to_string()));
    edges.push(("2301.00101".to_string(), "2301.00100".to_string()));
    let partition = louvain_partition(&ids, &edges);
    let find = |id: &str| partition.assignments.iter().find(|(a, _)| a == id).map(|(_, c)| *c);
    if let (Some(c1), Some(c2)) = (find("2301.00100"), find("2301.00101")) {
        assert_eq!(c1, c2, "isolated pair should be in same community");
        let ci = partition.color_indices.iter().find(|(c, _)| *c == c1).map(|(_, i)| *i).unwrap_or(0);
        assert_eq!(ci, OTHER_COLOR_INDEX, "small community should have OTHER_COLOR_INDEX");
    }
}

#[test]
fn test_community_color_index_size_rank() {
    let (ids, edges) = two_clique_graph(8, 5);
    let partition = louvain_partition(&ids, &edges);
    if partition.assignments.is_empty() {
        return;
    }
    let color_of = |c: u32| partition.color_indices.iter().find(|(x, _)| *x == c).map(|(_, i)| *i).unwrap_or(OTHER_COLOR_INDEX);
    let mut by_size: Vec<(u32, usize)> =
        partition.sizes.iter().filter(|(c, _)| color_of(*c) != OTHER_COLOR_INDEX).copied().collect();
    by_size.sort_by_key(|&(c, _)| color_of(c));
    if by_size.len() >= 2 {
        assert!(by_size[0].1 >= by_size[1].1, "community with color_index 0 should be the largest");
    }
}
