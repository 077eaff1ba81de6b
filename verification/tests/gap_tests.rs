use resyn_core::annotation::{Finding, LlmAnnotation};
use resyn_core::contradiction::{build_bridge_context, build_contradiction_context, classify_strength, findings_diverge};
use resyn_core::gap::{format_gap_summary, format_gap_table, truncate_justification, GapFinding, GapType};

fn make_annotation(arxiv_id: &str, findings: &[(&str, &str)]) -> LlmAnnotation {
    LlmAnnotation {
        arxiv_id: arxiv_id.to_string(),
        paper_type: "experimental".to_string(),
        methods: vec![],
        findings: findings
            .iter()
            .map(|(text, strength)| Finding {
                text: text.to_string(),
                strength: strength.to_string(),
                ..Default::default()
            })
            .collect(),
        open_problems: vec![],
        provider: "noop".to_string(),
        model_name: "noop".to_string(),
        annotated_at: "2026-03-14T00:00:00Z".to_string(),
    }
}

fn make_finding(gap_type: GapType, paper_ids: Vec<&str>, shared_terms: Vec<&str>, justification: &str, confidence: f32) -> GapFinding {
    GapFinding {
        gap_type,
        paper_ids: paper_ids.into_iter().map(String::from).collect(),
        shared_terms: shared_terms.into_iter().map(String::from).collect(),
        justification: justification.to_string(),
        confidence_bits: confidence.to_bits(),
        found_at: "2026-03-14T10:00:00Z".to_string(),
    }
}

fn make_contradiction(paper_ids: Vec<&str>, shared_terms: Vec<&str>, justification: &str) -> GapFinding {
    make_finding(GapType::Contradiction, paper_ids, shared_terms, justification, 0.8)
}

fn make_abc_bridge(paper_ids: Vec<&str>, shared_terms: Vec<&str>, justification: &str) -> GapFinding {
    make_finding(GapType::AbcBridge, paper_ids, shared_terms, justification, 0.6)
}

#[test]
fn test_gap_type_as_str() {
    assert_eq!(GapType::Contradiction.as_str(), "contradiction");
    assert_eq!(GapType::AbcBridge.as_str(), "abc_bridge");
}

#[test]
fn test_findings_diverge_strong_vs_weak() {
    let ann_a = make_annotation("a", &[("X", "strong_evidence")]);
    let ann_b = make_annotation("b", &[("Y", "preliminary")]);
    assert!(findings_diverge(&ann_a, &ann_b));
}

#[test]
fn test_findings_diverge_both_strong_no_divergence() {
    let ann_a = make_annotation("a", &[("X", "strong_evidence")]);
    let ann_b = make_annotation("b", &[("Y", "established")]);
    assert!(!findings_diverge(&ann_a, &ann_b));
}

#[test]
fn test_findings_diverge_empty_findings_no_divergence() {
    let ann_a = make_annotation("a", &[]);
    let ann_b = make_annotation("b", &[("Y", "preliminary")]);
    assert!(!findings_diverge(&ann_a, &ann_b));
}

#[test]
fn findings_diverge_weak_vs_strong_either_order() {
    let ann_a = make_annotation("a", &[("X", "Preliminary")]);
    let ann_b = make_annotation("b", &[("Y", "Confirmed")]);
    assert!(findings_diverge(&ann_a, &ann_b));
}

#[test]
fn classify_strength_labels() {
    assert_eq!(classify_strength("strong_evidence"), Some(true));
    assert_eq!(classify_strength("ESTABLISHED"), Some(true));
    assert_eq!(classify_strength("preliminary"), Some(false));
    assert_eq!(classify_strength("whatever"), None);
}

#[test]
fn contradiction_context_lists_findings() {
    let ann_a = make_annotation("a", &[("Result A", "strong")]);
    let ann_b = make_annotation("b", &[]);
    let terms = vec!["quantum".to_string(), "gap".to_string()];
    let ctx = build_contradiction_context("2301.11111", "2301.22222", &ann_a, &ann_b, &terms);
    assert_eq!(
        ctx,
        "Paper A (arxiv:2301.11111):\nFindings:\n  - [strong] Result A\n\nPaper B (arxiv:2301.22222):\nFindings:\n  (none)\n\nShared high-weight terms: quantum, gap"
    );
}

#[test]
fn bridge_context_lists_open_problems() {
    let mut ann_a = make_annotation("a", &[]);
    ann_a.open_problems = vec!["p1".to_string(), "p2".to_string()];
    let terms = vec!["x".to_string()];
    let ctx = build_bridge_context("A1", "C1", Some(&ann_a), None, &terms);
    assert_eq!(
        ctx,
        "Paper A (arxiv:A1):\nOpen problems: p1, p2\n\nPaper C (arxiv:C1):\nOpen problems: (none)\n\nShared intermediary concepts (B): x"
    );
}

#[test]
fn test_truncate_justification_short_text_unchanged() {
    let short = "Short text.";
    assert!(short.len() <= 60);
    let result = truncate_justification(short, 60);
    assert_eq!(result, short);
}

#[test]
fn test_truncate_justification_exactly_60_unchanged() {
    let exactly_60 = "a".repeat(60);
    let result = truncate_justification(&exactly_60, 60);
    assert_eq!(result, exactly_60);
}

#[test]
fn test_truncate_justification_61_chars_truncated() {
    let text = "a".repeat(61);
    let result = truncate_justification(&text, 60);
    assert!(result.ends_with("..."), "Should end with ...");
    assert!(result.len() <= 60, "Should be at most 60 chars");
}

#[test]
fn truncate_justification_exact_value() {
    let text = "b".repeat(61);
    let result = truncate_justification(&text, 60);
    assert_eq!(result, format!("{}...", "b".repeat(57)));
}

#[test]
fn test_format_gap_table_empty_has_none_found_sections() {
    let result = format_gap_table(&[], false);
    assert!(result.contains("Contradictions"), "Should have Contradictions section");
    assert!(result.contains("ABC Bridges"), "Should have ABC Bridges section");
    assert_eq!(result.matches("(none found)").count(), 2, "Both sections should show (none found)");
}

#[test]
fn test_format_gap_summary_empty_has_zero_counts() {
    let result = format_gap_summary(&[]);
    assert_eq!(result, "Gap analysis: 0 contradictions, 0 ABC-bridges found across 0 papers");
}

#[test]
fn test_format_gap_table_one_contradiction_has_headers() {
    let finding = make_contradiction(
        vec!["2301.11111", "2301.22222"],
        vec!["quantum", "entanglement"],
        "Paper A claims strong correlation while Paper B finds none.",
    );
    let result = format_gap_table(&[finding], false);
    assert!(result.contains("Contradictions"), "Should have Contradictions section");
    assert!(result.contains("Papers"), "Should have Papers column header");
    assert!(result.contains("Shared Terms"), "Should have Shared Terms column header");
    assert!(result.contains("Justification"), "Should have Justification column header");
    assert!(result.contains("2301.11111"), "Should contain first paper ID");
    assert!(result.contains("2301.22222"), "Should contain second paper ID");
    assert!(result.contains("quantum"), "Should contain shared term");
    assert!(result.contains("(none found)"), "ABC Bridges section should show (none found)");
}

#[test]
fn test_format_gap_table_one_abc_bridge_has_headers() {
    let finding = make_abc_bridge(
        vec!["2301.11111", "2301.33333"],
        vec!["topological", "lattice", "symmetry"],
        "Paper A's methods connect to Paper C via topological concepts.",
    );
    let result = format_gap_table(&[finding], false);
    assert!(result.contains("ABC Bridges"), "Should have ABC Bridges section");
    assert!(result.contains("Papers"), "Should have Papers column header");
    assert!(result.contains("Shared Terms"), "Should have Shared Terms column header");
    assert!(result.contains("topological"), "Should contain shared term");
    assert!(result.contains("(none found)"), "Contradictions section should show (none found)");
}

#[test]
fn test_format_gap_table_truncates_justification_at_60_chars_non_verbose() {
    let long_just = "This is a very long justification that exceeds sixty characters in length for testing.";
    assert!(long_just.len() > 60, "Test prerequisite: justification must be > 60 chars");
    let finding = make_contradiction(vec!["2301.11111", "2301.22222"], vec!["quantum"], long_just);
    let result = format_gap_table(&[finding], false);
    assert!(result.contains("..."), "Truncated justification should end with ...");
    assert!(!result.contains(long_just), "Full justification should not appear in non-verbose output");
}

#[test]
fn test_format_gap_table_shows_full_justification_verbose() {
    let long_just = "This is a very long justification that exceeds sixty characters in length for testing.";
    let finding = make_contradiction(vec!["2301.11111", "2301.22222"], vec!["quantum"], long_just);
    let result = format_gap_table(&[finding], true);
    assert!(result.contains(long_just), "Full justification should appear in verbose mode");
}

#[test]
fn test_format_gap_summary_correct_counts() {
    let findings = vec![
        make_contradiction(vec!["A", "B"], vec!["x"], "just1"),
        make_contradiction(vec!["B", "C"], vec!["y"], "just2"),
        make_abc_bridge(vec!["A", "C"], vec!["z"], "just3"),
    ];
    let result = format_gap_summary(&findings);
    assert_eq!(result, "Gap analysis: 2 contradictions, 1 ABC-bridges found across 3 papers");
}

#[test]
fn test_format_gap_summary_counts_unique_papers() {
    let findings = vec![
        make_contradiction(vec!["A", "B"], vec!["x"], "just1"),
        make_contradiction(vec!["A", "B"], vec!["y"], "just2"),
    ];
    let result = format_gap_summary(&findings);
    assert_eq!(result, "Gap analysis: 2 contradictions, 0 ABC-bridges found across 2 papers");
}

#[test]
fn graph_distance_takes_the_shorter_direction() {
    let edges: Vec<(usize, usize)> = vec![(0, 1), (1, 2), (2, 3), (4, 0)];
    assert_eq!(resyn_core::bridge::graph_distance(5, &edges, 0, 3), Some(3));
    assert_eq!(resyn_core::bridge::graph_distance(5, &edges, 3, 0), Some(3));
    assert_eq!(resyn_core::bridge::graph_distance(5, &edges, 4, 2), Some(3));
    assert_eq!(resyn_core::bridge::graph_distance(5, &edges, 2, 2), Some(0));
    assert_eq!(resyn_core::bridge::graph_distance(6, &edges, 0, 5), None);
}

#[test]
fn direct_edges_count_in_either_direction() {
    let edges: Vec<(usize, usize)> = vec![(0, 1), (1, 2)];
    assert!(resyn_core::bridge::has_direct_edge(&edges, 0, 1));
    assert!(resyn_core::bridge::has_direct_edge(&edges, 2, 1));
    assert!(!resyn_core::bridge::has_direct_edge(&edges, 0, 2));
}

#[test]
fn test_graph_distance_connected_nodes() {
    // A -> B -> C
    let edges: Vec<(usize, usize)> = vec![(0, 1), (1, 2)];
    assert_eq!(resyn_core::bridge::graph_distance(3, &edges, 0, 2), Some(2), "A->B->C should have distance 2");
}

#[test]
fn test_graph_distance_disconnected_nodes() {
    let edges: Vec<(usize, usize)> = vec![];
    assert_eq!(resyn_core::bridge::graph_distance(2, &edges, 0, 1), None, "Disconnected nodes should return None");
}

#[test]
fn test_has_direct_edge() {
    let edges: Vec<(usize, usize)> = vec![(0, 1)];
    assert!(resyn_core::bridge::has_direct_edge(&edges, 0, 1));
    assert!(resyn_core::bridge::has_direct_edge(&edges, 1, 0), "Direction reversed should also detect edge");
}

#[test]
fn truncate_justification_counts_characters() {
    let sixty = "é".repeat(60);
    assert_eq!(truncate_justification(&sixty, 60), sixty);
    let longer = "é".repeat(61);
    assert_eq!(truncate_justification(&longer, 60), format!("{}...", "é".repeat(57)));
}

#[test]
fn truncate_justification_keeps_forty_accented_characters() {
    let text = "é".repeat(40);
    assert_eq!(truncate_justification(&text, 60), text);
}
