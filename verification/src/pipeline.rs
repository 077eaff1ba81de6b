//! The decisions of the analysis pipeline: whether a stored analysis is still current
//! for the corpus.
use vstd::prelude::*;
use crate::contradiction::strings_view;
use crate::tfidf::{corpus_fingerprint, fingerprint_of};
use crate::text::{chars_eq, chars_of};

verus! {

/// What is recorded of the last analysis of a corpus.
#[derive(Debug, Clone, Default)]
pub struct AnalysisMetadata {
    /// Which analysis, e.g. "corpus_tfidf".
    pub key: String,
    pub paper_count: u64,
    pub corpus_fingerprint: String,
    pub last_analyzed: String,
}

/// Whether the TF-IDF analysis recorded in `meta` is current for a corpus with the
/// fingerprint `fp` and `paper_count` papers: both agree.
pub fn tfidf_is_current(meta: Option<&AnalysisMetadata>, fp: &str, paper_count: u64) -> (res: bool)
    ensures
        res == (meta matches Some(m) && m.corpus_fingerprint@ == fp@ && m.paper_count == paper_count),
{
    match meta {
        Some(m) => chars_eq(&chars_of(m.corpus_fingerprint.as_str()), &chars_of(fp)) && m.paper_count == paper_count,
        None => false,
    }
}

/// Whether the TF-IDF analysis recorded in `meta` is current for the corpus of the
/// extractions with the ids `ids`.
pub fn tfidf_up_to_date(meta: Option<&AnalysisMetadata>, ids: &[String]) -> (res: bool)
    ensures
        res == (meta matches Some(m) && m.corpus_fingerprint@ == fingerprint_of(strings_view(ids@))
            && m.paper_count == ids@.len()),
{
    let fp = corpus_fingerprint(ids);
    tfidf_is_current(meta, fp.as_str(), ids.len() as u64)
}

/// Whether the gap analysis recorded in `meta` is current for the corpus of the
/// annotations with the ids `ids`: the fingerprints agree.
pub fn gaps_up_to_date(meta: Option<&AnalysisMetadata>, ids: &[String]) -> (res: bool)
    ensures
        res == (meta matches Some(m) && m.corpus_fingerprint@ == fingerprint_of(strings_view(ids@))),
{
    let fp = corpus_fingerprint(ids);
    match meta {
        Some(m) => chars_eq(&chars_of(m.corpus_fingerprint.as_str()), &chars_of(fp.as_str())),
        None => false,
    }
}

} // verus!
