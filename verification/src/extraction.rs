//! The text extracted from a paper, by section.
use vstd::prelude::*;
use crate::paper::Paper;
use crate::provider::now_rfc3339;

verus! {

/// How the text of a paper was obtained.
#[derive(Debug, Clone, Copy, PartialEq, Eq, Structural)]
pub enum ExtractionMethod {
    /// Only the abstract was available.
    AbstractOnly,
    /// Sections were parsed from the paper's ar5iv / arXiv HTML.
    Ar5ivHtml,
}

/// The text of each recognised section of a paper, where it was found.
#[derive(Debug, Clone, Default)]
pub struct SectionMap {
    pub abstract_text: Option<String>,
    pub introduction: Option<String>,
    pub methods: Option<String>,
    pub results: Option<String>,
    pub conclusion: Option<String>,
}

/// The result of extracting the text of one paper.
#[derive(Debug, Clone)]
pub struct TextExtractionResult {
    pub arxiv_id: String,
    pub extraction_method: ExtractionMethod,
    pub sections: SectionMap,
    pub is_partial: bool,
    pub extracted_at: String,
}

/// The view of an optional string.
pub open spec fn opt_view(o: Option<String>) -> Option<Seq<char>> {
    match o {
        Some(s) => Some(s@),
        None => None,
    }
}

/// A copy of an optional string.
pub fn clone_opt(o: &Option<String>) -> (res: Option<String>)
    ensures
        opt_view(res) == opt_view(*o),
{
    match o {
        Some(s) => Some(s.clone()),
        None => None,
    }
}

impl TextExtractionResult {
    /// The partial result used when only the abstract of `paper` (its summary) is
    /// available, stamped with the current time.
    pub fn from_abstract(paper: &Paper) -> (res: TextExtractionResult)
        ensures
            res.arxiv_id@ == paper.id@,
            res.extraction_method == ExtractionMethod::AbstractOnly,
            opt_view(res.sections.abstract_text) == Some(paper.summary@),
            res.sections.introduction is None,
            res.sections.methods is None,
            res.sections.results is None,
            res.sections.conclusion is None,
            res.is_partial,
            res.extracted_at@.len() > 0,
    {
        TextExtractionResult {
            arxiv_id: paper.id.clone(),
            extraction_method: ExtractionMethod::AbstractOnly,
            sections: SectionMap {
                abstract_text: Some(paper.summary.clone()),
                introduction: None,
                methods: None,
                results: None,
                conclusion: None,
            },
            is_partial: true,
            extracted_at: now_rfc3339(),
        }
    }
}

} // verus!
