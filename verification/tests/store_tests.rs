use resyn_core::community::{compute_outcome, partition_from_groups, ComputeOutcome, LouvainPartition};
use resyn_core::openalex::cited_references;
use resyn_core::bridge::{bridge_candidate, shortest_distance};
use resyn_core::crawl::{queue_record_key, ReferenceSearch, SearchStep};
use resyn_core::extraction::{ExtractionMethod, SectionMap, TextExtractionResult};
use resyn_core::paper::{DataSource, Paper};
use resyn_core::pipeline::{gaps_up_to_date, tfidf_is_current, tfidf_up_to_date, AnalysisMetadata};
use resyn_core::records::{ExtractionRecord, PaperRecord};
use resyn_core::tfidf::corpus_fingerprint;

fn fetch(step: SearchStep) -> Option<String> {
    match step {
        SearchStep::Fetch(id) => Some(id),
        SearchStep::Done => None,
    }
}

#[test]
fn search_visits_levels_and_skips_repeats() {
    let mut s = ReferenceSearch::new("2301.00001v2", 2);
    assert_eq!(fetch(s.next_step()), Some("2301.00001".to_string()));
    s.add_references(vec!["2301.00002".to_string(), "2301.00001".to_string(), "2301.00003v1".to_string()]);
    assert_eq!(fetch(s.next_step()), Some("2301.00002".to_string()));
    s.add_references(vec!["2301.00004".to_string()]);
    assert_eq!(fetch(s.next_step()), Some("2301.00003".to_string()));
    // level 3 would hold 2301.00004, beyond the maximum depth
    assert_eq!(fetch(s.next_step()), None);
    assert_eq!(s.visited(), &vec!["2301.00001".to_string(), "2301.00002".to_string(), "2301.00003".to_string()]);
}

#[test]
fn search_with_depth_zero_fetches_nothing() {
    let mut s = ReferenceSearch::new("2301.00001", 0);
    assert_eq!(fetch(s.next_step()), None);
}

#[test]
fn queue_key_replaces_separators() {
    assert_eq!(queue_record_key("hep-ph/0601234", "2301.12345"), "hep-ph_0601234_2301_12345");
}

#[test]
fn paper_record_round_trip() {
    let paper = Paper {
        id: "2301.12345v3".to_string(),
        title: "T".to_string(),
        authors: vec!["A".to_string(), "B".to_string()],
        summary: "S".to_string(),
        citation_count: Some(7),
        source: DataSource::InspireHep,
        doi: Some("10.1/x".to_string()),
        ..Default::default()
    };
    let record = PaperRecord::from_paper(&paper);
    assert_eq!(record.arxiv_id, "2301.12345");
    assert_eq!(record.source, "InspireHep");
    assert_eq!(record.citation_count, Some(7));
    let back = record.to_paper();
    assert_eq!(back.id, "2301.12345");
    assert_eq!(back.title, "T");
    assert_eq!(back.authors, vec!["A", "B"]);
    assert_eq!(back.citation_count, Some(7));
    assert_eq!(back.source, DataSource::InspireHep);
    assert_eq!(back.doi, Some("10.1/x".to_string()));
}

#[test]
fn unknown_source_name_loads_as_arxiv() {
    let mut record = PaperRecord::from_paper(&Paper::default());
    record.source = "Elsewhere".to_string();
    assert_eq!(record.to_paper().source, DataSource::Arxiv);
    record.source = "Merged".to_string();
    assert_eq!(record.to_paper().source, DataSource::Merged);
}

#[test]
fn extraction_record_round_trip() {
    let e = TextExtractionResult {
        arxiv_id: "2301.1v1".to_string(),
        extraction_method: ExtractionMethod::Ar5ivHtml,
        sections: SectionMap {
            abstract_text: Some("a".to_string()),
            introduction: None,
            methods: Some("m".to_string()),
            results: None,
            conclusion: None,
        },
        is_partial: false,
        extracted_at: "now".to_string(),
    };
    let r = ExtractionRecord::from_extraction(&e);
    assert_eq!(r.extraction_method, "Ar5ivHtml");
    assert_eq!(r.arxiv_id, "2301.1");
    let back = r.to_extraction_result();
    assert_eq!(back.extraction_method, ExtractionMethod::Ar5ivHtml);
    assert_eq!(back.sections.methods, Some("m".to_string()));
    assert_eq!(back.sections.abstract_text, Some("a".to_string()));
    assert!(back.sections.introduction.is_none());
}

#[test]
fn analysis_currency() {
    let ids = vec!["b".to_string(), "a".to_string()];
    let fp = corpus_fingerprint(&ids);
    let meta = AnalysisMetadata {
        key: "corpus_tfidf".to_string(),
        paper_count: 2,
        corpus_fingerprint: fp.clone(),
        last_analyzed: "t".to_string(),
    };
    assert!(tfidf_up_to_date(Some(&meta), &ids));
    assert!(!tfidf_up_to_date(None, &ids));
    assert!(!tfidf_is_current(Some(&meta), &fp, 3));
    assert!(gaps_up_to_date(Some(&meta), &["a".to_string(), "b".to_string()]));
    assert!(!gaps_up_to_date(Some(&meta), &["a".to_string()]));
}

#[test]
fn bridge_filters() {
    assert_eq!(shortest_distance(Some(3), Some(2)), Some(2));
    assert_eq!(shortest_distance(None, Some(4)), Some(4));
    assert_eq!(shortest_distance(None, None), None);
    assert!(bridge_candidate(false, true, true, false, Some(2), 3));
    assert!(!bridge_candidate(false, true, true, true, None, 5));
    assert!(!bridge_candidate(false, true, true, false, Some(1), 5));
    assert!(!bridge_candidate(false, false, false, false, None, 5));
    assert!(bridge_candidate(true, false, false, false, None, 3));
    assert!(!bridge_candidate(true, false, false, false, None, 2));
}

#[test]
fn cited_papers_become_references() {
    let cited = vec![Paper {
        id: "1706.03762".to_string(),
        title: "Attention".to_string(),
        authors: vec!["A. Vaswani".to_string(), "N. Shazeer".to_string()],
        ..Default::default()
    }];
    let refs = cited_references(&cited);
    assert_eq!(refs.len(), 1);
    assert_eq!(refs[0].arxiv_eprint, Some("1706.03762".to_string()));
    assert_eq!(refs[0].author, "A. Vaswani, N. Shazeer");
    assert_eq!(refs[0].title, "Attention");
    assert!(refs[0].links.is_empty());
}

#[test]
fn compute_outcome_counts_non_other_communities() {
    let ids: Vec<String> = (0..10).map(|i| format!("p{i}")).collect();
    let p = partition_from_groups(&ids, &[0, 0, 0, 1, 1, 1, 2, 2, 2, 3]);
    match compute_outcome(&p, 10, "fp".to_string()) {
        ComputeOutcome::Computed { n_communities, n_papers, fingerprint } => {
            assert_eq!(n_communities, 3);
            assert_eq!(n_papers, 10);
            assert_eq!(fingerprint, "fp");
        }
        ComputeOutcome::Skipped => panic!("expected Computed"),
    }
    assert!(matches!(compute_outcome(&LouvainPartition::empty(), 3, "x".to_string()), ComputeOutcome::Skipped));
}

#[test]
fn rate_limit_waits_for_the_rest_of_the_interval() {
    assert_eq!(resyn_core::crawl::rate_limit_wait(None, 350), 0);
    assert_eq!(resyn_core::crawl::rate_limit_wait(Some(100), 350), 250);
    assert_eq!(resyn_core::crawl::rate_limit_wait(Some(400), 350), 0);
}

#[test]
fn search_reaches_every_level_up_to_the_maximum() {
    let mut s = ReferenceSearch::new("A", 3);
    assert_eq!(fetch(s.next_step()), Some("A".to_string()));
    s.add_references(vec!["A".to_string(), "B".to_string()]);
    assert_eq!(fetch(s.next_step()), Some("B".to_string()));
    s.add_references(vec!["C".to_string()]);
    assert_eq!(fetch(s.next_step()), Some("C".to_string()));
    s.add_references(vec!["D".to_string()]);
    assert_eq!(fetch(s.next_step()), None);
    assert_eq!(s.depth(), 4);
}

#[test]
fn partition_members_follow_the_assignments() {
    let ids: Vec<String> = (0..10).map(|i| format!("p{i}")).collect();
    let p = partition_from_groups(&ids, &[0, 1, 0, 1, 1, 0, 2, 2, 2, 3]);
    assert_eq!(p.members(0), vec!["p0".to_string(), "p2".to_string(), "p5".to_string()]);
    assert_eq!(p.members(2), vec!["p6".to_string(), "p7".to_string(), "p8".to_string()]);
    assert_eq!(p.members(3), Vec::<String>::new());
    assert_eq!(p.members(u32::MAX - 1), vec!["p9".to_string()]);
}
