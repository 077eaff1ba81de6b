use resyn_core::arxiv_refs::{
    ar5iv_fallback_url, build_reference, convert_pdf_url_to_html_url, primary_html_url,
    trim_and_split_arxiv_reference_string,
};
use resyn_core::ids::strip_version_suffix;
use resyn_core::sections::ar5iv_url;

#[test]
fn test_strip_version_suffix() {
    assert_eq!(strip_version_suffix("2301.12345v2"), "2301.12345");
    assert_eq!(strip_version_suffix("2301.12345v12"), "2301.12345");
    assert_eq!(strip_version_suffix("2301.12345"), "2301.12345");
    assert_eq!(strip_version_suffix("hep-ph/0601234v1"), "hep-ph/0601234");
    assert_eq!(strip_version_suffix(""), "");
    assert_eq!(strip_version_suffix("v1"), "");
    assert_eq!(strip_version_suffix("noversionhere"), "noversionhere");
}

#[test]
fn strip_version_suffix_keeps_non_numeric_tails() {
    assert_eq!(strip_version_suffix("2301.12345v"), "2301.12345v");
    assert_eq!(strip_version_suffix("2301.12345vx1"), "2301.12345vx1");
    assert_eq!(strip_version_suffix("a v1 b"), "a v1 b");
}

#[test]
fn test_trim_and_split_arxiv_reference_string() {
    let test_text = "Author 1, Author 2, Title, .";
    let (author, title) = trim_and_split_arxiv_reference_string(test_text);
    assert_eq!(author, "Author 1, Author 2");
    assert_eq!(title, "Title");
    let test_text = "Author, Title, , .";
    let (author, title) = trim_and_split_arxiv_reference_string(test_text);
    assert_eq!(author, "Author");
    assert_eq!(title, "Title");
}

#[test]
fn test_trim_and_split_empty_string() {
    let (author, title) = trim_and_split_arxiv_reference_string("");
    assert_eq!(author, "");
    assert_eq!(title, "");
}

#[test]
fn test_trim_and_split_single_item() {
    let (author, title) = trim_and_split_arxiv_reference_string("Just a Title.");
    assert_eq!(author, "");
    assert_eq!(title, "Just a Title");
}

#[test]
fn test_convert_pdf_url_to_html_url() {
    assert_eq!(
        convert_pdf_url_to_html_url("https://arxiv.org/pdf/2301.12345.pdf"),
        "https://arxiv.org/html/2301.12345"
    );
    assert_eq!(
        convert_pdf_url_to_html_url("https://arxiv.org/pdf/2301.12345"),
        "https://arxiv.org/html/2301.12345"
    );
}

#[test]
fn test_convert_pdf_url_to_html_url_empty_returns_empty() {
    assert_eq!(convert_pdf_url_to_html_url(""), "");
}

#[test]
fn test_html_url_fallback_for_empty_pdf_url() {
    let paper_id = "2503.18887";
    let pdf_url = "";
    let html_url = primary_html_url(paper_id, pdf_url);
    assert_eq!(html_url, "https://arxiv.org/html/2503.18887");
}

#[test]
fn test_html_url_uses_pdf_url_when_non_empty() {
    let paper_id = "2503.18887";
    let pdf_url = "https://arxiv.org/pdf/2503.18887.pdf";
    let html_url = primary_html_url(paper_id, pdf_url);
    assert_eq!(html_url, "https://arxiv.org/html/2503.18887");
}

#[test]
fn ar5iv_fallback_url_for_paper() {
    assert_eq!(ar5iv_fallback_url("1706.03762"), "https://ar5iv.labs.arxiv.org/html/1706.03762");
}

#[test]
fn test_ar5iv_url() {
    assert_eq!(ar5iv_url("2301.12345"), "https://arxiv.org/html/2301.12345");
}

#[test]
fn test_ar5iv_url_strips_version_suffix() {
    let versioned_id = "2301.12345v2";
    let stripped = strip_version_suffix(versioned_id);
    assert_eq!(stripped, "2301.12345");
    assert_eq!(ar5iv_url(&stripped), "https://arxiv.org/html/2301.12345");
}

#[test]
fn reference_extracts_new_style_id_from_text() {
    let r = build_reference("A. Author, Some title, arXiv:2301.12345v2 (2023).", "", &vec![]);
    assert_eq!(r.arxiv_eprint, Some("2301.12345".to_string()));
    assert_eq!(r.links.len(), 1);
    assert_eq!(r.links[0].url, "https://arxiv.org/abs/2301.12345");
}

#[test]
fn reference_extracts_old_style_id_and_doi() {
    let r = build_reference("B. Author, hep-ph/0601234v1, doi 10.1103/PhysRevD.107.012345.", "", &vec![]);
    assert_eq!(r.arxiv_eprint, Some("hep-ph/0601234".to_string()));
    assert_eq!(r.doi, Some("10.1103/PhysRevD.107.012345".to_string()));
}

#[test]
fn reference_short_numbers_are_not_ids() {
    let r = build_reference("C. Author, volume 91.1234, page 7", "", &vec![]);
    assert_eq!(r.arxiv_eprint, None);
    assert!(r.links.is_empty());
}

#[test]
fn reference_does_not_repeat_linked_id() {
    let hrefs = vec!["https://arxiv.org/abs/2301.12345v3".to_string()];
    let r = build_reference("D. Author, Title, arXiv:2301.12345", "", &hrefs);
    assert_eq!(r.links.len(), 1);
    assert_eq!(r.arxiv_eprint, None);
}

#[test]
fn reference_with_emphasised_title() {
    let r = build_reference("E. Author, F. Author, A Great Title, 2020", "A Great Title", &vec![]);
    assert_eq!(r.title, "A Great Title");
    assert_eq!(r.author, "E. Author, F. Author");
}

fn eprint_of(text: &str) -> Option<String> {
    build_reference(text, "", &vec![]).arxiv_eprint
}

#[test]
fn test_arxiv_new_re_matches() {
    assert_eq!(eprint_of("arXiv:2301.12345"), Some("2301.12345".to_string()));
    assert_eq!(eprint_of("arXiv:2301.12345v2"), Some("2301.12345".to_string()));
    assert_eq!(eprint_of("some text 0912.1234 more text"), Some("0912.1234".to_string()));
    // Should NOT match short numbers
    assert_eq!(eprint_of("91.1234"), None);
}

#[test]
fn test_arxiv_old_re_matches() {
    assert_eq!(eprint_of("hep-ph/0601234"), Some("hep-ph/0601234".to_string()));
    assert_eq!(eprint_of("astro-ph/9912345v1"), Some("astro-ph/9912345".to_string()));
    assert_eq!(eprint_of("12345/0601234"), None);
}

#[test]
fn test_doi_re_matches() {
    let r = build_reference("10.1103/PhysRevD.107.012345", "", &vec![]);
    assert_eq!(r.doi, Some("10.1103/PhysRevD.107.012345".to_string()));
}
