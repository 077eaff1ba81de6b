use resyn_core::extraction::{ExtractionMethod, SectionMap, TextExtractionResult};
use resyn_core::paper::Paper;
use resyn_core::prompt::{build_section_aware_user_message, MAX_CHARS};
use resyn_core::page::{read_bibliography, read_sections};
use resyn_core::sections::{normalize_section_title, parse_sections, section_category, RawAbstract, RawSection};

fn para(text: &str) -> Vec<String> {
    vec![text.to_string()]
}

fn section(title: &str, text: &str) -> RawSection {
    RawSection { title_pieces: vec![title.to_string()], paragraphs: vec![para(text)] }
}

fn abstract_block(text: &str) -> RawAbstract {
    RawAbstract { paragraphs: vec![para(text)], text_pieces: vec![text.to_string()] }
}

fn make_extraction(
    abstract_text: Option<&str>,
    introduction: Option<&str>,
    methods: Option<&str>,
    results: Option<&str>,
    conclusion: Option<&str>,
) -> TextExtractionResult {
    TextExtractionResult {
        arxiv_id: "2301.12345".to_string(),
        extraction_method: ExtractionMethod::Ar5ivHtml,
        sections: SectionMap {
            abstract_text: abstract_text.map(String::from),
            introduction: introduction.map(String::from),
            methods: methods.map(String::from),
            results: results.map(String::from),
            conclusion: conclusion.map(String::from),
        },
        is_partial: false,
        extracted_at: "2026-03-18T00:00:00Z".to_string(),
    }
}

fn make_html(sections: &str) -> String {
    format!(
        r#"<!DOCTYPE html>
<html>
<body>
{sections}
</body>
</html>"#
    )
}

#[test]
fn test_parse_sections_all_sections() {
    let html_str = make_html(
        r#"
<div class="ltx_abstract"><p class="ltx_para">This is the abstract.</p></div>
<section class="ltx_section">
  <h2 class="ltx_title ltx_title_section">1 Introduction</h2>
  <p class="ltx_para">Intro text here.</p>
</section>
<section class="ltx_section">
  <h2 class="ltx_title ltx_title_section">2 Methods</h2>
  <p class="ltx_para">Methods text here.</p>
</section>
<section class="ltx_section">
  <h2 class="ltx_title ltx_title_section">3 Results</h2>
  <p class="ltx_para">Results text here.</p>
</section>
<section class="ltx_section">
  <h2 class="ltx_title ltx_title_section">4 Conclusion</h2>
  <p class="ltx_para">Conclusion text here.</p>
</section>
"#,
    );
    let sections = read_sections(&html_str).unwrap();
    assert_eq!(sections.abstract_text, Some("This is the abstract.".to_string()));
    assert_eq!(sections.introduction, Some("Intro text here.".to_string()));
    assert_eq!(sections.methods, Some("Methods text here.".to_string()));
    assert_eq!(sections.results, Some("Results text here.".to_string()));
    assert_eq!(sections.conclusion, Some("Conclusion text here.".to_string()));
}

#[test]
fn test_parse_sections_title_normalization() {
    let html_str = make_html(
        r#"
<section class="ltx_section">
  <h2 class="ltx_title ltx_title_section">1 Introduction</h2>
  <p class="ltx_para">Numbered intro.</p>
</section>
<section class="ltx_section">
  <h2 class="ltx_title ltx_title_section">I. Introduction</h2>
  <p class="ltx_para">Roman numeral intro.</p>
</section>
<section class="ltx_section">
  <h2 class="ltx_title ltx_title_section">A. Motivation and Introduction</h2>
  <p class="ltx_para">Lettered intro.</p>
</section>
"#,
    );
    let sections = read_sections(&html_str).unwrap();
    let intro = sections.introduction.unwrap();
    assert!(intro.contains("Numbered intro."));
    assert!(intro.contains("Roman numeral intro."));
    assert!(intro.contains("Lettered intro."));
}

#[test]
fn test_parse_sections_excludes_bibliography() {
    let html_str = make_html(
        r#"
<section class="ltx_section">
  <h2 class="ltx_title ltx_title_section">5 References</h2>
  <p class="ltx_para">[1] Some paper reference.</p>
</section>
<section class="ltx_section">
  <h2 class="ltx_title ltx_title_section">Bibliography</h2>
  <p class="ltx_para">Bib entry 1.</p>
</section>
<section class="ltx_section">
  <h2 class="ltx_title ltx_title_section">Acknowledgements</h2>
  <p class="ltx_para">Thanks to everyone.</p>
</section>
<section class="ltx_section">
  <h2 class="ltx_title ltx_title_section">Appendix A</h2>
  <p class="ltx_para">Appendix content.</p>
</section>
"#,
    );
    let sections = read_sections(&html_str).unwrap();
    assert!(sections.introduction.is_none());
    assert!(sections.methods.is_none());
    assert!(sections.results.is_none());
    assert!(sections.conclusion.is_none());
}

#[test]
fn test_parse_sections_missing_sections_are_none() {
    let html_str = make_html(
        r#"
<div class="ltx_abstract"><p class="ltx_para">Only abstract here.</p></div>
"#,
    );
    let sections = read_sections(&html_str).unwrap();
    assert!(sections.abstract_text.is_some());
    assert!(sections.introduction.is_none());
    assert!(sections.methods.is_none());
    assert!(sections.results.is_none());
    assert!(sections.conclusion.is_none());
}

#[test]
fn raw_sections_are_gathered_by_category() {
    let abs = abstract_block("This is the abstract.");
    let sections = vec![
        section("1 Introduction", "Intro text here."),
        section("2 Methods", "Methods text here."),
        section("5 References", "[1] Some paper reference."),
        section("3 Conclusion", "Conclusion text here."),
    ];
    let map = parse_sections(Some(&abs), &sections);
    assert_eq!(map.abstract_text, Some("This is the abstract.".to_string()));
    assert_eq!(map.introduction, Some("Intro text here.".to_string()));
    assert_eq!(map.methods, Some("Methods text here.".to_string()));
    assert!(map.results.is_none());
    assert_eq!(map.conclusion, Some("Conclusion text here.".to_string()));
}

#[test]
fn abstract_falls_back_to_block_text_without_heading() {
    let html_str = make_html(r#"<div class="ltx_abstract"><h6>Abstract</h6> We study things.</div>"#);
    let sections = read_sections(&html_str).unwrap();
    assert_eq!(sections.abstract_text, Some("We study things.".to_string()));
}

#[test]
fn bibliography_entries_become_references() {
    let html_str = make_html(
        r#"<ul>
<li><span class="ltx_bibblock">A. Author, <em> A Great Title </em>, J. Phys. (2020), <a href="https://arxiv.org/abs/2301.11111v2">arXiv:2301.11111</a>.</span></li>
<li><span class="ltx_bibblock">B. Writer, Old work, hep-ph/0601234, doi 10.1103/PhysRevD.99.012345.</span></li>
</ul>"#,
    );
    let refs = read_bibliography(&html_str).unwrap();
    assert_eq!(refs.len(), 2);
    assert_eq!(refs[0].title, "A Great Title");
    assert_eq!(refs[0].author, "A. Author");
    assert_eq!(refs[0].links.len(), 1);
    assert_eq!(refs[0].links[0].url, "https://arxiv.org/abs/2301.11111v2");
    assert_eq!(refs[0].arxiv_eprint, None);
    assert_eq!(refs[1].arxiv_eprint, Some("hep-ph/0601234".to_string()));
    assert_eq!(refs[1].links[0].url, "https://arxiv.org/abs/hep-ph/0601234");
    assert_eq!(refs[1].doi, Some("10.1103/PhysRevD.99.012345".to_string()));
    assert_eq!(refs[1].title, "doi 10.1103/PhysRevD.99.012345");
}

#[test]
fn section_titles_normalize_and_categorize() {
    assert_eq!(normalize_section_title("  2.1 Experimental Setup "), "1 experimental setup");
    assert_eq!(normalize_section_title("3: Results"), "results");
    assert_eq!(normalize_section_title("IV. Discussion"), "discussion");
    assert_eq!(section_category("related work"), Some("unknown"));
    assert_eq!(section_category("acknowledgments"), None);
    assert_eq!(section_category("summary and outlook"), Some("conclusion"));
}

#[test]
fn test_section_aware_message_all_sections() {
    let extraction = make_extraction(
        Some("Abstract text."),
        Some("Introduction text."),
        Some("Methods text."),
        Some("Results text."),
        Some("Conclusion text."),
    );
    let msg = build_section_aware_user_message(&extraction);
    assert!(msg.contains("[ABSTRACT]"), "Must contain [ABSTRACT] header");
    assert!(msg.contains("[METHODS]"), "Must contain [METHODS] header");
    assert!(msg.contains("[RESULTS]"), "Must contain [RESULTS] header");
    assert!(msg.contains("[CONCLUSION]"), "Must contain [CONCLUSION] header");
    assert!(msg.contains("Abstract text."));
    assert!(msg.contains("Results text."));
}

#[test]
fn test_section_aware_message_partial_sections() {
    let extraction = make_extraction(Some("Only abstract available."), None, None, None, None);
    let msg = build_section_aware_user_message(&extraction);
    assert!(msg.contains("[ABSTRACT]"), "Must contain [ABSTRACT] header");
    assert!(msg.contains("Only abstract available."));
    assert!(msg.contains("[METHODS]\n[EMPTY]"), "Missing methods should be [EMPTY]");
}

#[test]
fn test_section_aware_message_truncates_long_sections() {
    let long_text = "x".repeat(MAX_CHARS + 500);
    let extraction = make_extraction(Some(&long_text), None, None, None, None);
    let msg = build_section_aware_user_message(&extraction);
    assert!(msg.contains("[truncated]"), "Long sections must end with [truncated]");
    assert!(msg.contains(&"x".repeat(MAX_CHARS)));
}

#[test]
fn section_message_exact_layout() {
    let extraction = make_extraction(Some("A."), None, Some(""), None, None);
    let msg = build_section_aware_user_message(&extraction);
    assert_eq!(
        msg,
        "[ABSTRACT]\nA.\n\n[INTRODUCTION]\n[EMPTY]\n\n[METHODS]\n[EMPTY]\n\n[RESULTS]\n[EMPTY]\n\n[CONCLUSION]\n[EMPTY]"
    );
}

#[test]
fn extraction_from_abstract_is_partial() {
    let paper = Paper {
        id: "2301.99999".to_string(),
        summary: "Abstract fallback text".to_string(),
        ..Default::default()
    };
    let result = TextExtractionResult::from_abstract(&paper);
    assert!(result.is_partial);
    assert_eq!(result.extraction_method, ExtractionMethod::AbstractOnly);
    assert_eq!(result.sections.abstract_text, Some("Abstract fallback text".to_string()));
    assert!(result.sections.introduction.is_none());
    assert!(!result.extracted_at.is_empty());
}

#[test]
fn extraction_from_page_strips_version_and_reads_sections() {
    let paper = Paper { id: "2301.12345v2".to_string(), summary: "Summary.".to_string(), ..Default::default() };
    let html_str = make_html(
        r#"<div class="ltx_abstract"><p class="ltx_para">Abstract of the paper.</p></div>
<section class="ltx_section">
  <h2 class="ltx_title ltx_title_section">1 Introduction</h2>
  <p class="ltx_para">Introduction content.</p>
</section>"#,
    );
    let result = resyn_core::page::extraction_from_page(&paper, &html_str).unwrap();
    assert_eq!(result.arxiv_id, "2301.12345");
    assert_eq!(result.extraction_method, ExtractionMethod::Ar5ivHtml);
    assert!(!result.is_partial);
    assert_eq!(result.sections.abstract_text, Some("Abstract of the paper.".to_string()));
    assert_eq!(result.sections.introduction, Some("Introduction content.".to_string()));
    assert!(!result.extracted_at.is_empty());
}

#[test]
fn test_annotation_schema_is_valid_json() {
    let result = serde_json::from_str::<serde_json::Value>(resyn_core::prompt::LLM_ANNOTATION_SCHEMA);
    assert!(result.is_ok(), "LLM_ANNOTATION_SCHEMA must be valid JSON: {:?}", result.err());
}

#[test]
fn test_annotation_schema_contains_source_section_and_snippet() {
    assert!(resyn_core::prompt::LLM_ANNOTATION_SCHEMA.contains("source_section"), "Schema must contain source_section");
    assert!(resyn_core::prompt::LLM_ANNOTATION_SCHEMA.contains("source_snippet"), "Schema must contain source_snippet");
}

#[test]
fn test_section_cut_counts_characters() {
    let accented = "é".repeat(2000);
    let ext = make_extraction(Some(&accented), None, None, None, None);
    let msg = build_section_aware_user_message(&ext);
    let expected_start = format!("[ABSTRACT]\n{}\n\n[INTRODUCTION]\n[EMPTY]", accented);
    assert!(msg.starts_with(&expected_start));
    assert!(!msg.contains("[truncated]"));
}

#[test]
fn test_section_cut_keeps_first_max_chars_characters() {
    let long = "é".repeat(3001);
    let ext = make_extraction(Some(&long), None, None, None, None);
    let msg = build_section_aware_user_message(&ext);
    let expected_start = format!("[ABSTRACT]\n{}[truncated]\n\n", "é".repeat(3000));
    assert!(msg.starts_with(&expected_start));
}

#[test]
fn test_capitalised_title_keeps_its_first_word() {
    let t = normalize_section_title("METHODS: Overview");
    assert_eq!(t, "methods: overview");
    assert_eq!(section_category(&t), Some("methods"));
    assert_eq!(normalize_section_title("A. Methods"), "methods");
    assert_eq!(normalize_section_title("12 Results"), "results");
}

#[test]
fn section_titles_are_trimmed_of_unicode_whitespace_as_std_does() {
    for code in 0u32..0x3100 {
        let Some(c) = char::from_u32(code) else { continue };
        if c.is_whitespace() {
            assert_eq!(normalize_section_title(&format!("{c}Results{c}")), "results", "U+{code:04X}");
        }
    }
    for c in ['\u{180e}', '\u{200b}', '\u{feff}'] {
        let title = format!("{c}Results{c}");
        assert_eq!(normalize_section_title(&title), title.to_lowercase());
    }
}
