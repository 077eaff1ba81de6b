use resyn_core::export::published_year;
use resyn_core::community::{CommunityAssignment, OTHER_COMMUNITY_ID};
use resyn_core::export::{export_edges, export_nodes, published_in_range, scope_ids};
use resyn_core::ingest::{next_cursor, translate_citations, IngestState};
use resyn_core::openalex::{OpenAlexLocation, OpenAlexMeta, OpenAlexWork};
use resyn_core::paper::Paper;

fn paper(id: &str, published: &str) -> Paper {
    Paper { id: id.to_string(), published: published.to_string(), ..Default::default() }
}

fn work(id: &str, arxiv: Option<&str>, cites: &[&str]) -> OpenAlexWork {
    OpenAlexWork {
        id: id.to_string(),
        doi: None,
        title: Some(format!("Work {id}")),
        display_name: None,
        publication_date: None,
        referenced_works: cites.iter().map(|s| s.to_string()).collect(),
        authorships: vec![],
        locations: arxiv
            .map(|a| vec![OpenAlexLocation { landing_page_url: Some(format!("https://arxiv.org/abs/{a}")) }])
            .unwrap_or_default(),
        abstract_inverted_index: None,
    }
}

#[test]
fn date_range_is_inclusive_and_lexicographic() {
    assert!(published_in_range("2015-06-01", Some("2018-01-01"), Some("2014-12-31")));
    assert!(published_in_range("2018-01-01", Some("2018-01-01"), None));
    assert!(!published_in_range("2018-01-02", Some("2018-01-01"), None));
    assert!(!published_in_range("2003", None, Some("2014-12-31")));
    assert!(published_in_range("2003", Some("2014-12-31"), None));
    assert!(published_in_range("anything", None, None));
}

#[test]
fn scope_ids_are_unversioned_sorted_and_distinct() {
    let papers = vec![
        paper("2301.00002v2", "2023-01-02"),
        paper("2301.00001", "2023-01-01"),
        paper("2301.00002", "2023-01-02"),
        paper("1901.00009", "2019-01-01"),
    ];
    assert_eq!(scope_ids(&papers, None, Some("2020-01-01")), vec!["2301.00001", "2301.00002"]);
    assert_eq!(scope_ids(&papers, None, None), vec!["1901.00009", "2301.00001", "2301.00002"]);
}

#[test]
fn nodes_keep_assigned_papers_outside_other() {
    let a = |id: &str, c: u32| CommunityAssignment {
        arxiv_id: id.to_string(),
        community_id: c,
        corpus_fingerprint: "fp".to_string(),
    };
    let assignments = vec![a("p1", 1), a("p2", OTHER_COMMUNITY_ID), a("p3", 2), a("p1", 4)];
    let ids: Vec<String> = vec!["p1".into(), "p2".into(), "p3".into(), "p4".into()];
    let nodes = export_nodes(&ids, &assignments);
    assert_eq!(nodes, vec![("p1".to_string(), 4), ("p3".to_string(), 2)]);
}

#[test]
fn edges_need_both_endpoints_exported() {
    let nodes: Vec<String> = vec!["a".into(), "b".into()];
    let edges = vec![
        ("av2".to_string(), "b".to_string()),
        ("a".to_string(), "c".to_string()),
        ("b".to_string(), "a".to_string()),
    ];
    assert_eq!(
        export_edges(&nodes, &edges),
        vec![("a".to_string(), "b".to_string()), ("b".to_string(), "a".to_string())]
    );
}

#[test]
fn ingest_page_collects_papers_ids_and_citations() {
    let mut state = IngestState::new();
    let works = vec![
        work("W1", Some("2301.00001"), &["W2", "W9"]),
        work("W2", Some("2301.00002"), &[]),
        work("W3", None, &["W1"]),
    ];
    let batch = state.ingest_page(&works);
    assert_eq!(batch.len(), 2);
    assert_eq!(batch[0].id, "2301.00001");
    assert_eq!(state.papers_upserted, 2);
    assert_eq!(
        state.id_map,
        vec![("W1".to_string(), "2301.00001".to_string()), ("W2".to_string(), "2301.00002".to_string())]
    );
    assert_eq!(state.raw_citations.len(), 1);
    let (from, cited) = &state.raw_citations[0];
    let pairs = translate_citations(&state.id_map, from, cited);
    assert_eq!(pairs, vec![("2301.00001".to_string(), "2301.00002".to_string())]);
}

#[test]
fn cursor_stops_on_missing_or_empty() {
    let meta = |c: Option<&str>| OpenAlexMeta { count: 1, next_cursor: c.map(String::from) };
    assert_eq!(next_cursor(&meta(Some("abc"))), Some("abc".to_string()));
    assert_eq!(next_cursor(&meta(Some(""))), None);
    assert_eq!(next_cursor(&meta(None)), None);
}

#[test]
fn published_year_reads_the_first_four_bytes() {
    assert_eq!(published_year("2023-01-01"), Some(2023));
    assert_eq!(published_year("2023"), Some(2023));
    assert_eq!(published_year("+123-01"), Some(123));
    assert_eq!(published_year("-123"), Some(-123));
    assert_eq!(published_year("99"), None);
    assert_eq!(published_year(""), None);
    assert_eq!(published_year("abcd-01-01"), None);
    assert_eq!(published_year("+"), None);
    assert_eq!(published_year("20 3"), None);
}

#[test]
fn ingest_records_each_citing_work_with_its_cited_list() {
    let mut state = IngestState::new();
    let works = vec![
        work("W1", Some("2301.00001"), &["W2", "W9"]),
        work("W2", Some("2301.00002"), &["W1"]),
    ];
    state.ingest_page(&works);
    assert_eq!(
        state.raw_citations,
        vec![
            ("2301.00001".to_string(), vec!["W2".to_string(), "W9".to_string()]),
            ("2301.00002".to_string(), vec!["W1".to_string()]),
        ]
    );
}

#[test]
fn checked_ingest_refuses_a_page_it_cannot_read() {
    let mut state = IngestState::new();
    let mut bad = work("W5", None, &[]);
    bad.doi = Some("\u{130}10.48550/arxiv.\u{e9}".to_string());
    let works = vec![work("W1", Some("2301.00001"), &["W2"]), bad];
    assert!(state.ingest_page_checked(&works).is_none());
    assert!(state.id_map.is_empty());
    assert!(state.raw_citations.is_empty());
    assert_eq!(state.papers_upserted, 0);
    let good = vec![work("W1", Some("2301.00001"), &["W2"])];
    let batch = state.ingest_page_checked(&good).expect("readable page");
    assert_eq!(batch.len(), 1);
    assert_eq!(state.raw_citations.len(), 1);
}

#[test]
fn ingest_batch_holds_each_arxiv_work_once_in_page_order() {
    let mut state = IngestState::new();
    let works = vec![
        work("W1", Some("2301.00001"), &[]),
        work("W2", None, &[]),
        work("W3", Some("2301.00003"), &[]),
        work("W4", Some("2301.00004"), &[]),
    ];
    let batch = state.ingest_page(&works);
    let ids: Vec<&str> = batch.iter().map(|p| p.id.as_str()).collect();
    assert_eq!(ids, vec!["2301.00001", "2301.00003", "2301.00004"]);
    assert_eq!(batch[1].title, "Work W3");
}
