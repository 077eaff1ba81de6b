use resyn_core::chain::{PaperChain, RefsChain, RefsOutcome};
use resyn_core::error::ResynError;
use resyn_core::inspire::{
    apply_references, convert_hit_to_paper, convert_references, paper_from_response, InspireAbstract,
    InspireArxivEprint, InspireAuthor, InspireDoi, InspireHit, InspireHits, InspireMetadata,
    InspireRecord, InspireRefDetail, InspireReferenceEntry, InspireResponse, InspireTitle,
};
use resyn_core::paper::{DataSource, Link, Paper, Reference};

fn empty_metadata() -> InspireMetadata {
    InspireMetadata {
        titles: None,
        authors: None,
        abstracts: None,
        arxiv_eprints: None,
        dois: None,
        citation_count: None,
        references: None,
        earliest_date: None,
    }
}

fn author(name: &str) -> InspireAuthor {
    InspireAuthor { full_name: name.to_string() }
}

fn sample_hit() -> InspireHit {
    InspireHit {
        id: Some(1234567),
        metadata: InspireMetadata {
            titles: Some(vec![InspireTitle { title: "Test Paper Title".to_string() }]),
            authors: Some(vec![author("Doe, John"), author("Smith, Jane")]),
            abstracts: Some(vec![InspireAbstract { value: "This is the abstract.".to_string() }]),
            arxiv_eprints: Some(vec![InspireArxivEprint { value: "2301.12345".to_string() }]),
            dois: Some(vec![InspireDoi { value: "10.1234/test.2023".to_string() }]),
            citation_count: Some(42),
            earliest_date: Some("2023-01-15".to_string()),
            references: Some(vec![
                InspireReferenceEntry {
                    reference: Some(InspireRefDetail {
                        title: Some(InspireTitle { title: "Referenced Paper".to_string() }),
                        authors: Some(vec![author("Ref, Author")]),
                        arxiv_eprint: Some("2301.11111".to_string()),
                        dois: Some(vec!["10.1234/ref.2023".to_string()]),
                    }),
                    record: Some(InspireRecord {
                        ref_url: Some("https://inspirehep.net/api/literature/9999999".to_string()),
                    }),
                    label: Some("1".to_string()),
                },
                InspireReferenceEntry {
                    reference: Some(InspireRefDetail {
                        title: Some(InspireTitle { title: "Another Paper".to_string() }),
                        authors: Some(vec![author("Other, Author")]),
                        arxiv_eprint: None,
                        dois: None,
                    }),
                    record: Some(InspireRecord {
                        ref_url: Some("https://inspirehep.net/api/literature/8888888".to_string()),
                    }),
                    label: Some("2".to_string()),
                },
            ]),
        },
    }
}

#[test]
fn test_convert_hit_to_paper() {
    let paper = convert_hit_to_paper(&sample_hit());
    assert_eq!(paper.title, "Test Paper Title");
    assert_eq!(paper.authors, vec!["Doe, John", "Smith, Jane"]);
    assert_eq!(paper.summary, "This is the abstract.");
    assert_eq!(paper.id, "2301.12345");
    assert_eq!(paper.doi, Some("10.1234/test.2023".to_string()));
    assert_eq!(paper.inspire_id, Some("1234567".to_string()));
    assert_eq!(paper.citation_count, Some(42));
    assert_eq!(paper.source, DataSource::InspireHep);
    assert_eq!(paper.published, "2023-01-15");
}

#[test]
fn test_convert_references() {
    let refs = convert_references(&sample_hit().metadata);
    assert_eq!(refs.len(), 2);
    assert_eq!(refs[0].title, "Referenced Paper");
    assert_eq!(refs[0].author, "Ref, Author");
    assert_eq!(refs[0].arxiv_eprint, Some("2301.11111".to_string()));
    assert_eq!(refs[0].doi, Some("10.1234/ref.2023".to_string()));
    assert_eq!(refs[0].label, Some("1".to_string()));
    assert_eq!(refs[0].inspire_record_id, Some("9999999".to_string()));
    assert_eq!(refs[0].links.len(), 1);
    assert!(refs[0].links[0].url.contains("2301.11111"));
    assert_eq!(refs[1].title, "Another Paper");
    assert_eq!(refs[1].arxiv_eprint, None);
    assert_eq!(refs[1].links.len(), 0);
    assert_eq!(refs[1].inspire_record_id, Some("8888888".to_string()));
}

#[test]
fn test_convert_hit_with_missing_optional_fields() {
    let mut meta = empty_metadata();
    meta.titles = Some(vec![InspireTitle { title: "Minimal Paper".to_string() }]);
    let hit = InspireHit { id: None, metadata: meta };
    let paper = convert_hit_to_paper(&hit);
    assert_eq!(paper.title, "Minimal Paper");
    assert!(paper.authors.is_empty());
    assert!(paper.summary.is_empty());
    assert!(paper.id.is_empty());
    assert!(paper.doi.is_none());
    assert!(paper.inspire_id.is_none());
    assert!(paper.citation_count.is_none());
    assert!(paper.published.is_empty());
}

#[test]
fn test_empty_references() {
    let refs = convert_references(&empty_metadata());
    assert!(refs.is_empty());
}

#[test]
fn eprint_version_is_stripped_and_link_is_abs_url() {
    let mut meta = empty_metadata();
    meta.arxiv_eprints = Some(vec![InspireArxivEprint { value: "2301.12345v4".to_string() }]);
    let paper = convert_hit_to_paper(&InspireHit { id: Some(7), metadata: meta });
    assert_eq!(paper.id, "2301.12345");
    assert_eq!(paper.inspire_id, Some("7".to_string()));
    let refs = convert_references(&sample_hit().metadata);
    assert_eq!(refs[0].links[0].url, "https://arxiv.org/abs/2301.11111");
}

#[test]
fn response_without_hits_is_not_found() {
    let resp = InspireResponse { hits: InspireHits { hits: vec![] } };
    match paper_from_response(&resp, "2301.1") {
        Err(ResynError::PaperNotFound(id)) => assert_eq!(id, "2301.1"),
        _ => panic!("expected PaperNotFound"),
    }
    let resp = InspireResponse { hits: InspireHits { hits: vec![sample_hit()] } };
    assert_eq!(paper_from_response(&resp, "x").unwrap().title, "Test Paper Title");
}

#[test]
fn references_keep_existing_citation_count() {
    let resp = InspireResponse { hits: InspireHits { hits: vec![sample_hit()] } };
    let mut p = Paper { id: "2301.12345".to_string(), citation_count: Some(5), ..Default::default() };
    apply_references(&mut p, &resp);
    assert_eq!(p.references.len(), 2);
    assert_eq!(p.citation_count, Some(5));
    let mut q = Paper::default();
    apply_references(&mut q, &resp);
    assert_eq!(q.citation_count, Some(42));
}

#[test]
fn paper_chain_takes_first_success() {
    let mut chain = PaperChain::new("2301.1", 3);
    assert_eq!(chain.next_source(), Some(0));
    chain.record(Err(ResynError::ArxivApi("down".to_string())));
    assert_eq!(chain.next_source(), Some(1));
    chain.record(Ok(()));
    assert_eq!(chain.next_source(), None);
    assert_eq!(chain.result().unwrap(), 1);
}

#[test]
fn paper_chain_reports_last_error() {
    let mut chain = PaperChain::new("2301.1", 2);
    chain.record(Err(ResynError::ArxivApi("a".to_string())));
    chain.record(Err(ResynError::InspireHepApi("b".to_string())));
    assert_eq!(chain.next_source(), None);
    match chain.result() {
        Err(ResynError::InspireHepApi(m)) => assert_eq!(m, "b"),
        _ => panic!("expected the last error"),
    }
    let empty = PaperChain::new("2301.9", 0);
    match empty.result() {
        Err(ResynError::PaperNotFound(id)) => assert_eq!(id, "2301.9"),
        _ => panic!("expected PaperNotFound"),
    }
}

#[test]
fn refs_chain_goes_round_from_start() {
    let mut chain = RefsChain::new("2301.1", 2, 3);
    assert_eq!(chain.next_source(), Some(2));
    chain.record(RefsOutcome::Empty);
    assert_eq!(chain.next_source(), Some(0));
    chain.record(RefsOutcome::Failed(ResynError::ArxivApi("x".to_string())));
    assert_eq!(chain.next_source(), Some(1));
    chain.record(RefsOutcome::Empty);
    assert_eq!(chain.next_source(), None);
    assert!(chain.result().is_ok());
}

#[test]
fn refs_chain_stops_at_found_and_fails_when_all_fail() {
    let mut chain = RefsChain::new("p", 0, 2);
    chain.record(RefsOutcome::Found);
    assert_eq!(chain.next_source(), None);
    assert!(chain.result().is_ok());

    let mut failing = RefsChain::new("p", 1, 2);
    failing.record(RefsOutcome::Failed(ResynError::ArxivApi("first".to_string())));
    failing.record(RefsOutcome::Failed(ResynError::Database("second".to_string())));
    match failing.result() {
        Err(ResynError::Database(m)) => assert_eq!(m, "second"),
        _ => panic!("expected the last error"),
    }
}

fn reference_with(links: &[&str], eprint: Option<&str>) -> Reference {
    Reference {
        links: links.iter().map(|u| Link::from_url(u)).collect(),
        arxiv_eprint: eprint.map(|e| e.to_string()),
        ..Default::default()
    }
}

#[test]
fn get_arxiv_id_takes_last_segment_of_first_arxiv_link() {
    let r = reference_with(
        &["https://doi.org/10.1000/xyz", "https://arxiv.org/abs/hep-ph/0601234", "https://arxiv.org/abs/2301.00001"],
        None,
    );
    assert_eq!(r.get_arxiv_id().unwrap(), "0601234");
}

#[test]
fn get_arxiv_id_without_arxiv_link_is_error() {
    let r = reference_with(&["https://doi.org/10.1000/xyz"], None);
    assert!(matches!(r.get_arxiv_id(), Err(ResynError::NoArxivLink)));
    let empty = reference_with(&[], None);
    assert!(matches!(empty.get_arxiv_id(), Err(ResynError::NoArxivLink)));
}

#[test]
fn arxiv_reference_ids_prefer_eprint_and_skip_unlinked() {
    let paper = Paper {
        references: vec![
            reference_with(&["https://arxiv.org/abs/hep-ph/0601234"], Some("hep-ph/0601234")),
            reference_with(&[], None),
            reference_with(&["https://arxiv.org/abs/2501.99999"], None),
            reference_with(&[], Some("cond-mat/0007235")),
        ],
        ..Default::default()
    };
    assert_eq!(
        paper.get_arxiv_references_ids(),
        vec!["hep-ph/0601234".to_string(), "2501.99999".to_string(), "cond-mat/0007235".to_string()]
    );
}
