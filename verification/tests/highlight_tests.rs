use resyn_core::highlight::find_highlight_range;

#[test]
fn test_find_highlight_range_exact_match() {
    let section = "The energy gap is non-zero and significant.";
    let snippet = "energy gap is non-zero";
    let result = find_highlight_range(section, snippet);
    assert!(result.is_some(), "Expected Some for exact substring match");
    let (start, end) = result.unwrap();
    assert_eq!(&section[start..end], "energy gap is non-zero");
}

#[test]
fn test_find_highlight_range_whitespace_differences() {
    let section = "We  used   Monte   Carlo  simulation.";
    let snippet = "used Monte Carlo simulation";
    let result = find_highlight_range(section, snippet);
    assert!(result.is_some(), "Expected Some for match with extra whitespace");
    let (start, end) = result.unwrap();
    let matched = &section[start..end];
    assert!(matched.contains("Monte"), "Matched text should contain 'Monte'");
}

#[test]
fn test_find_highlight_range_unrelated_returns_none() {
    let section = "The paper discusses quantum mechanics.";
    let snippet = "classical thermodynamics pressure volume";
    let result = find_highlight_range(section, snippet);
    assert!(result.is_none(), "Expected None for completely unrelated snippet");
}

#[test]
fn highlight_case_insensitive_exact_offsets() {
    let section = "Hello WORLD again";
    let result = find_highlight_range(section, "world");
    assert_eq!(result, Some((6, 11)));
}

#[test]
fn highlight_empty_snippet_is_none() {
    assert_eq!(find_highlight_range("Some text", ""), None);
}

#[test]
fn highlight_match_starting_inside_a_word_covers_it() {
    let r = find_highlight_range("xab cd ef", "ab cd");
    let (s, e) = r.expect("the snippet occurs in the section");
    assert!(s <= 1 && 6 <= e);
    assert_eq!((s, e), (0, 6));
}

#[test]
fn highlight_match_at_word_start_is_unchanged() {
    assert_eq!(find_highlight_range("xab cd ef", "cd ef"), Some((4, 9)));
}
