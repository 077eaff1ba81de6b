use resyn_core::error::ResynError;
use resyn_core::provider::{is_rejection, NoopProvider};

#[test]
fn test_noop_provider_name() {
    let provider = NoopProvider;
    assert_eq!(provider.provider_name(), "noop");
}

#[test]
fn noop_provider_returns_valid_annotation() {
    let mut provider = NoopProvider;
    let result = provider
        .annotate_paper("2301.12345", "This paper studies quantum entanglement.")
        .unwrap();
    assert_eq!(result.arxiv_id, "2301.12345");
    assert_eq!(result.paper_type, "unknown");
    assert!(result.methods.is_empty());
    assert!(result.findings.is_empty());
    assert!(result.open_problems.is_empty());
    assert_eq!(result.provider, "noop");
    assert_eq!(result.model_name, "noop");
    assert!(!result.annotated_at.is_empty());
}

#[test]
fn noop_provider_never_confirms_a_gap() {
    let mut provider = NoopProvider;
    let answer = provider.verify_gap("prompt", "context").unwrap();
    assert_eq!(answer, "NO");
    assert!(is_rejection(&answer));
}

#[test]
fn rejection_is_trimmed_and_case_insensitive() {
    assert!(is_rejection("  no \n"));
    assert!(is_rejection("No"));
    assert!(!is_rejection("NOT"));
    assert!(!is_rejection("Yes, a genuine gap."));
    assert!(!is_rejection(""));
}

#[test]
fn test_llm_api_error_display() {
    let err = ResynError::LlmApi("connection refused".to_string());
    assert_eq!(err.message(), "LLM API error: connection refused");
}

#[test]
fn error_messages_by_kind() {
    assert_eq!(ResynError::PaperNotFound("2301.1".to_string()).message(), "paper not found: 2301.1");
    assert_eq!(ResynError::NoArxivLink.message(), "no arXiv link found in reference");
    assert_eq!(ResynError::Database("x".to_string()).message(), "database error: x");
}

