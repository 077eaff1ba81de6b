use resyn_core::openalex::{OpenAlexAuthor, OpenAlexAuthorship, OpenAlexLocation, OpenAlexWork};
use resyn_core::paper::DataSource;

fn make_work(doi: Option<&str>, locations: Vec<&str>) -> OpenAlexWork {
    OpenAlexWork {
        id: "https://openalex.org/W123".to_string(),
        doi: doi.map(|s| s.to_string()),
        title: Some("Test".to_string()),
        display_name: None,
        publication_date: None,
        referenced_works: vec![],
        authorships: vec![],
        locations: locations
            .into_iter()
            .map(|url| OpenAlexLocation { landing_page_url: Some(url.to_string()) })
            .collect(),
        abstract_inverted_index: None,
    }
}

#[test]
fn test_arxiv_id_from_1048550_doi() {
    let w = make_work(Some("https://doi.org/10.48550/arxiv.2401.04191"), vec![]);
    assert_eq!(w.arxiv_id(), Some("2401.04191".to_string()));
}

#[test]
fn test_arxiv_id_from_1048550_doi_mixed_case() {
    let w = make_work(Some("https://doi.org/10.48550/arXiv.2008.02217"), vec![]);
    assert_eq!(w.arxiv_id(), Some("2008.02217".to_string()));
}

#[test]
fn test_arxiv_id_from_location_url() {
    let w = make_work(
        Some("https://doi.org/10.1016/j.jcp.2022.111402"),
        vec!["http://arxiv.org/abs/2202.11821"],
    );
    assert_eq!(w.arxiv_id(), Some("2202.11821".to_string()));
}

#[test]
fn test_location_url_strips_version() {
    let w = make_work(None, vec!["https://arxiv.org/abs/1706.03762v5"]);
    assert_eq!(w.arxiv_id(), Some("1706.03762v5".to_string()));
}

#[test]
fn test_non_arxiv_returns_none() {
    let w = make_work(
        Some("https://doi.org/10.1103/physrevlett.123.456"),
        vec!["https://journals.aps.org/prl/abstract/10.1103/PhysRevLett.123.456"],
    );
    assert_eq!(w.arxiv_id(), None);
}

#[test]
fn test_to_paper_populates_fields() {
    let mut w = make_work(None, vec!["http://arxiv.org/abs/1706.03762"]);
    w.title = Some("Attention Is All You Need".to_string());
    w.publication_date = Some("2017-06-12".to_string());
    w.authorships = vec![OpenAlexAuthorship {
        author: OpenAlexAuthor { display_name: "Ashish Vaswani".to_string() },
    }];
    let paper = w.to_paper().unwrap();
    assert_eq!(paper.id, "1706.03762");
    assert_eq!(paper.title, "Attention Is All You Need");
}

#[test]
fn ascii_works_can_be_cut_where_the_id_is_read() {
    let w = make_work(None, vec!["https://example.org/x", "https://arxiv.org/abs/2101.00001?context=cs"]);
    assert!(w.cuts_ok());
    assert_eq!(w.arxiv_id(), Some("2101.00001".to_string()));
    let shifted = make_work(Some("\u{130}10.48550/arxiv.\u{e9}"), vec![]);
    assert!(!shifted.cuts_ok());
}

#[test]
fn arxiv_id_skips_empty_location_id() {
    let w = make_work(None, vec!["https://arxiv.org/abs/", "https://arxiv.org/abs/1234.5678#x"]);
    assert_eq!(w.arxiv_id(), Some("1234.5678".to_string()));
}

#[test]
fn reconstruct_abstract_orders_tokens_by_position() {
    let mut w = make_work(None, vec![]);
    w.abstract_inverted_index = Some(vec![
        ("world".to_string(), vec![1]),
        ("hello".to_string(), vec![0, 2]),
    ]);
    assert_eq!(w.reconstruct_abstract(), "hello world hello");
}

#[test]
fn reconstruct_abstract_without_index_is_empty() {
    let w = make_work(None, vec![]);
    assert_eq!(w.reconstruct_abstract(), "");
    let mut w2 = make_work(None, vec![]);
    w2.abstract_inverted_index = Some(vec![]);
    assert_eq!(w2.reconstruct_abstract(), "");
}

#[test]
fn to_paper_full_fields() {
    let mut w = make_work(Some("https://doi.org/10.48550/arxiv.2401.04191"), vec![]);
    w.title = None;
    w.display_name = Some("Display".to_string());
    w.publication_date = Some("2024-01-08".to_string());
    w.abstract_inverted_index = Some(vec![("b".to_string(), vec![1]), ("a".to_string(), vec![0])]);
    let p = w.to_paper().unwrap();
    assert_eq!(p.id, "2401.04191");
    assert_eq!(p.title, "Display");
    assert_eq!(p.summary, "a b");
    assert_eq!(p.published, "2024-01-08");
    assert_eq!(p.last_updated, "2024-01-08");
    assert_eq!(p.doi, Some("https://doi.org/10.48550/arxiv.2401.04191".to_string()));
    assert_eq!(p.source, DataSource::Arxiv);
    assert!(p.pdf_url.is_empty());
    assert!(p.references.is_empty());
}

#[test]
fn to_paper_without_arxiv_id_is_none() {
    let w = make_work(Some("https://doi.org/10.1/xyz"), vec![]);
    assert!(w.to_paper().is_none());
}

#[test]
fn only_the_texts_the_lookup_reads_must_cut() {
    let uncuttable = "\u{130}arxiv.org/abs/\u{e9}x";
    let by_doi = make_work(Some("https://doi.org/10.48550/arXiv.2101.00001"), vec![uncuttable]);
    assert!(by_doi.cuts_ok());
    assert_eq!(by_doi.arxiv_id(), Some("2101.00001".to_string()));
    let by_first_url = make_work(None, vec!["https://arxiv.org/abs/2101.00002", uncuttable]);
    assert!(by_first_url.cuts_ok());
    assert_eq!(by_first_url.to_paper_checked().unwrap().unwrap().id, "2101.00002");
    let read_first = make_work(None, vec![uncuttable, "https://arxiv.org/abs/2101.00002"]);
    assert!(!read_first.cuts_ok());
    assert!(read_first.to_paper_checked().is_none());
    let none = make_work(None, vec!["https://example.org/x"]);
    assert_eq!(none.to_paper_checked().map(|p| p.is_none()), Some(true));
}
