use resyn_core::aggregation::{aggregate_open_problems, build_method_matrix, MethodMatrix};
use resyn_core::annotation::{Finding, LlmAnnotation, Method};

fn make_annotation(arxiv_id: &str, open_problems: &[&str], methods: &[(&str, &str)]) -> LlmAnnotation {
    LlmAnnotation {
        arxiv_id: arxiv_id.to_string(),
        paper_type: "theoretical".to_string(),
        methods: methods
            .iter()
            .map(|(name, cat)| Method {
                name: name.to_string(),
                category: cat.to_string(),
                ..Default::default()
            })
            .collect(),
        findings: vec![Finding {
            text: "some finding".to_string(),
            strength: "strong".to_string(),
            ..Default::default()
        }],
        open_problems: open_problems.iter().map(|s| s.to_string()).collect(),
        provider: "noop".to_string(),
        model_name: "noop".to_string(),
        annotated_at: "2026-03-17T00:00:00Z".to_string(),
    }
}

fn get(result: &MethodMatrix, a: &str, b: &str) -> u32 {
    if a <= b { result.pair_count(a, b) } else { result.pair_count(b, a) }
}

#[test]
fn test_aggregate_empty() {
    let result = aggregate_open_problems(&[]);
    assert!(result.is_empty());
}

#[test]
fn test_aggregate_ranking() {
    let annotations = vec![
        make_annotation("a", &["dark matter", "quantum gravity"], &[]),
        make_annotation("b", &["quantum gravity", "dark matter"], &[]),
        make_annotation("c", &["quantum gravity"], &[]),
    ];
    let result = aggregate_open_problems(&annotations);
    assert_eq!(result[0].problem, "quantum gravity");
    assert_eq!(result[0].count, 3);
    assert_eq!(result[1].problem, "dark matter");
    assert_eq!(result[1].count, 2);
}

#[test]
fn aggregation_test_build_method_matrix_empty() {
    let result = build_method_matrix(&[]);
    assert!(result.categories.is_empty());
    assert!(result.pair_counts.is_empty());
}

#[test]
fn aggregation_test_build_method_matrix_pair_counts() {
    let annotations = vec![
        make_annotation("a", &[], &[("m1", "ML"), ("m2", "Stats")]),
        make_annotation("b", &[], &[("m3", "ML"), ("m4", "Physics")]),
    ];
    let result = build_method_matrix(&annotations);
    assert_eq!(result.pair_count("ML", "ML"), 2);
    assert_eq!(result.pair_count("ML", "Stats"), 1);
    assert_eq!(result.pair_count("ML", "Physics"), 1);
    assert_eq!(result.pair_count("Physics", "Stats"), 0);
    assert_eq!(result.pair_count("Stats", "Stats"), 1);
}

#[test]
fn test_aggregate_open_problems_empty() {
    let result = aggregate_open_problems(&[]);
    assert!(result.is_empty(), "Expected empty result for empty input");
}

#[test]
fn test_aggregate_open_problems_ranking() {
    let annotations = vec![
        make_annotation("a", &["dark matter", "quantum gravity"], &[]),
        make_annotation("b", &["quantum gravity", "dark matter"], &[]),
        make_annotation("c", &["quantum gravity"], &[]),
    ];
    let result = aggregate_open_problems(&annotations);
    assert_eq!(result.len(), 2, "Expected 2 distinct problems");
    assert_eq!(result[0].problem, "quantum gravity", "Most common problem first");
    assert_eq!(result[0].count, 3, "quantum gravity appears 3 times");
    assert_eq!(result[1].problem, "dark matter", "Second most common");
    assert_eq!(result[1].count, 2, "dark matter appears 2 times");
}

#[test]
fn test_aggregate_open_problems_single_annotation() {
    let annotations = vec![make_annotation("a", &["problem A", "problem B", "problem C"], &[])];
    let result = aggregate_open_problems(&annotations);
    assert_eq!(result.len(), 3, "Expected 3 distinct problems");
    assert!(
        result.iter().all(|r| r.count == 1),
        "All counts should be 1 when each problem appears once"
    );
}

#[test]
fn aggregation_tests_test_build_method_matrix_empty() {
    let result = build_method_matrix(&[]);
    assert!(result.categories.is_empty(), "Expected empty categories");
    assert!(result.pair_counts.is_empty(), "Expected empty pair counts");
}

#[test]
fn aggregation_tests_test_build_method_matrix_pair_counts() {
    let annotations = vec![
        make_annotation("a", &[], &[("m1", "ML"), ("m2", "Stats")]),
        make_annotation("b", &[], &[("m3", "ML"), ("m4", "Physics")]),
    ];
    let result = build_method_matrix(&annotations);
    assert_eq!(get(&result, "ML", "ML"), 2, "ML-ML: both annotations contribute a self-pair");
    assert_eq!(get(&result, "ML", "Stats"), 1, "ML-Stats: only annotation a");
    assert_eq!(get(&result, "ML", "Physics"), 1, "ML-Physics: only annotation b");
    assert_eq!(get(&result, "Physics", "Stats"), 0, "Physics-Stats: no annotation has both");
    assert_eq!(get(&result, "Stats", "Stats"), 1, "Stats-Stats: annotation a self-pair");
    assert_eq!(get(&result, "Physics", "Physics"), 1, "Physics-Physics: annotation b self-pair");
}

#[test]
fn test_build_method_matrix_alphabetical_normalization() {
    let annotations = vec![make_annotation("a", &[], &[("m1", "ML"), ("m2", "Stats")])];
    let result = build_method_matrix(&annotations);
    assert!(
        result.has_pair("ML", "Stats"),
        "Pair key should be alphabetically normalized (ML before Stats)"
    );
    assert!(!result.has_pair("Stats", "ML"), "Reverse order key should not exist");
}

#[test]
fn method_matrix_categories_are_sorted_and_distinct() {
    let annotations = vec![
        make_annotation("a", &[], &[("m1", "Stats"), ("m2", "ML"), ("m5", "ML")]),
        make_annotation("b", &[], &[("m3", "Physics")]),
    ];
    let result = build_method_matrix(&annotations);
    assert_eq!(result.categories, vec!["ML".to_string(), "Physics".to_string(), "Stats".to_string()]);
    // Two ML methods in one annotation still count that annotation once.
    assert_eq!(result.pair_count("ML", "ML"), 1);
    let keys: Vec<(String, String)> = result.pair_counts.iter().map(|e| (e.0.clone(), e.1.clone())).collect();
    let mut sorted = keys.clone();
    sorted.sort();
    assert_eq!(keys, sorted);
}

#[test]
fn aggregate_ties_break_alphabetically() {
    let annotations = vec![
        make_annotation("a", &["zeta", "alpha"], &[]),
        make_annotation("b", &["alpha", "zeta", "mid"], &[]),
    ];
    let result = aggregate_open_problems(&annotations);
    let order: Vec<(&str, usize)> = result.iter().map(|r| (r.problem.as_str(), r.count)).collect();
    assert_eq!(order, vec![("alpha", 2), ("zeta", 2), ("mid", 1)]);
}
