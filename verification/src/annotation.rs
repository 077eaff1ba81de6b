//! Structured annotations that an LLM extracts from a paper.
use vstd::prelude::*;

verus! {

/// A finding of a paper and how strongly the paper supports it.
#[derive(Debug, Clone, Default)]
pub struct Finding {
    pub text: String,
    pub strength: String,
    pub source_section: Option<String>,
    pub source_snippet: Option<String>,
}

/// A method a paper uses, with its category (e.g. "theoretical").
#[derive(Debug, Clone, Default)]
pub struct Method {
    pub name: String,
    pub category: String,
    pub source_section: Option<String>,
    pub source_snippet: Option<String>,
}

/// The annotation of one paper.
#[derive(Debug, Clone, Default)]
pub struct LlmAnnotation {
    pub arxiv_id: String,
    pub paper_type: String,
    pub methods: Vec<Method>,
    pub findings: Vec<Finding>,
    pub open_problems: Vec<String>,
    pub provider: String,
    pub model_name: String,
    pub annotated_at: String,
}

/// The open problems an annotation lists, as character sequences.
pub open spec fn problems_of(a: LlmAnnotation) -> Seq<Seq<char>> {
    a.open_problems@.map_values(|s: String| s@)
}

/// The method categories an annotation lists, as character sequences.
pub open spec fn categories_of(a: LlmAnnotation) -> Seq<Seq<char>> {
    a.methods@.map_values(|m: Method| m.category@)
}

} // verus!
