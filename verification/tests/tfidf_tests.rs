use sha2::Digest;
use resyn_core::tfidf::{build_stop_words, corpus_fingerprint, section_term_counts, tokenize};

#[test]
fn test_tokenize_basic() {
    let tokens = tokenize("Hello, World! This is a test.");
    assert!(tokens.contains(&"hello".to_string()), "Missing 'hello'");
    assert!(tokens.contains(&"world".to_string()), "Missing 'world'");
    assert!(tokens.contains(&"this".to_string()), "Missing 'this'");
    assert!(tokens.contains(&"test".to_string()), "Missing 'test'");
    assert!(!tokens.contains(&"is".to_string()), "'is' should be filtered (len 2)");
    assert!(!tokens.contains(&"a".to_string()), "'a' should be filtered");
}

#[test]
fn tokenize_exact_order() {
    assert_eq!(tokenize("Hello, World! This is a test."), vec!["hello", "world", "this", "test"]);
    assert_eq!(tokenize(""), Vec::<String>::new());
    assert_eq!(tokenize("é1 naïve"), vec!["é1", "naïve"]);
}

#[test]
fn test_build_stop_words_contains_common() {
    let stop = build_stop_words();
    assert!(stop.contains("the"), "Missing 'the'");
    assert!(stop.contains("and"), "Missing 'and'");
    assert!(stop.contains("paper"), "Missing academic boilerplate 'paper'");
    assert!(stop.contains("study"), "Missing academic boilerplate 'study'");
    assert!(stop.contains("result"), "Missing academic boilerplate 'result'");
    assert!(stop.contains("show"), "Missing academic boilerplate 'show'");
    assert!(stop.contains("figure"), "Missing academic boilerplate 'figure'");
    assert!(!stop.contains("quantum"));
}

#[test]
fn test_corpus_fingerprint_order_independent() {
    let ids1 = vec!["2301.12345".to_string(), "2301.99999".to_string(), "2302.00001".to_string()];
    let ids2 = vec!["2302.00001".to_string(), "2301.12345".to_string(), "2301.99999".to_string()];
    assert_eq!(corpus_fingerprint(&ids1), corpus_fingerprint(&ids2), "Fingerprint should be order-independent");
}

#[test]
fn test_corpus_fingerprint_changes_on_addition() {
    let ids1 = vec!["2301.12345".to_string(), "2301.99999".to_string()];
    let ids2 = vec!["2301.12345".to_string(), "2301.99999".to_string(), "2302.00001".to_string()];
    assert_ne!(corpus_fingerprint(&ids1), corpus_fingerprint(&ids2), "Fingerprint should change when paper ID is added");
}

#[test]
fn corpus_fingerprint_is_sha256_of_sorted_joined_ids() {
    let fp = corpus_fingerprint(&["b".to_string(), "a".to_string(), "c".to_string()]);
    let expected = format!("{:x}", sha2::Sha256::digest(b"a,b,c"));
    assert_eq!(fp, expected);
    assert_eq!(fp.len(), 64);
    assert_eq!(
        corpus_fingerprint(&[]),
        "e3b0c44298fc1c149afbf4c8996fb92427ae41e4649b934ca495991b7852b855"
    );
}

#[test]
fn section_term_counts_skip_stop_words_and_count_repeats() {
    let stop = build_stop_words();
    let (counts, total) = section_term_counts("The graph neural network: graph models and the GRAPH.", &stop);
    assert_eq!(total, 6);
    assert_eq!(
        counts,
        vec![
            ("graph".to_string(), 3),
            ("neural".to_string(), 1),
            ("network".to_string(), 1),
            ("models".to_string(), 1),
        ]
    );
    let (none, zero) = section_term_counts("the and of", &stop);
    assert!(none.is_empty());
    assert_eq!(zero, 0);
}

#[test]
fn corpus_fingerprint_is_64_lowercase_hex_digits() {
    for ids in [vec![], vec!["2301.12345".to_string()], vec!["é".to_string(), "x".to_string()]] {
        let fp = corpus_fingerprint(&ids);
        assert_eq!(fp.len(), 64);
        assert!(fp.chars().all(|c| c.is_ascii_digit() || ('a'..='f').contains(&c)));
    }
}
