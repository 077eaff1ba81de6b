//! The rows that papers and text extractions are stored as, and the conversions between
//! them and the library's types.
use vstd::prelude::*;
use crate::contradiction::strings_view;
use crate::extraction::{clone_opt, opt_view, ExtractionMethod, SectionMap, TextExtractionResult};
use crate::ids::{strip_version, strip_version_suffix};
use crate::paper::{DataSource, Paper};
use crate::text::{chars_eq, chars_of};

verus! {

/// The stored row of a paper.
#[derive(Debug, Clone)]
pub struct PaperRecord {
    pub title: String,
    pub authors: Vec<String>,
    pub summary: String,
    pub arxiv_id: String,
    pub last_updated: String,
    pub published: String,
    pub pdf_url: String,
    pub comment: Option<String>,
    pub doi: Option<String>,
    pub inspire_id: Option<String>,
    pub citation_count: Option<i64>,
    pub source: String,
}

/// The name a data source is stored under.
pub open spec fn source_name(s: DataSource) -> Seq<char> {
    match s {
        DataSource::Arxiv => "Arxiv"@,
        DataSource::InspireHep => "InspireHep"@,
        DataSource::Merged => "Merged"@,
    }
}

/// The data source a stored name stands for; unknown names stand for arXiv.
pub open spec fn source_of_name(n: Seq<char>) -> DataSource {
    if n == "InspireHep"@ {
        DataSource::InspireHep
    } else if n == "Merged"@ {
        DataSource::Merged
    } else {
        DataSource::Arxiv
    }
}

/// A copy of a list of strings.
fn copy_strings(v: &Vec<String>) -> (res: Vec<String>)
    ensures
        strings_view(res@) == strings_view(v@),
{
    let mut res: Vec<String> = Vec::new();
    let mut k: usize = 0;
    while k < v.len()
        invariant
            k <= v@.len(),
            res@.len() == k,
            forall|j: int| 0 <= j < k ==> (#[trigger] res@[j])@ == v@[j]@,
        decreases v@.len() - k,
    {
        res.push(v[k].clone());
        k += 1;
    }
    assert(strings_view(res@) =~= strings_view(v@));
    res
}

/// `r` is the row stored for the paper `p`: its fields, the id without its version, and
/// the source by name.
pub open spec fn record_of_paper(r: PaperRecord, p: Paper) -> bool {
    &&& r.title@ == p.title@
    &&& strings_view(r.authors@) == strings_view(p.authors@)
    &&& r.summary@ == p.summary@
    &&& r.arxiv_id@ == strip_version(p.id@)
    &&& r.last_updated@ == p.last_updated@
    &&& r.published@ == p.published@
    &&& r.pdf_url@ == p.pdf_url@
    &&& opt_view(r.comment) == opt_view(p.comment)
    &&& opt_view(r.doi) == opt_view(p.doi)
    &&& opt_view(r.inspire_id) == opt_view(p.inspire_id)
    &&& r.citation_count == match p.citation_count {
            Some(c) => Some(c as i64),
            None => None::<i64>,
        }
    &&& r.source@ == source_name(p.source)
}

/// `p` is the paper loaded from the row `r`: its fields, the counts cut to `u32` as the
/// row's loader does, the source from its name, and no references.
pub open spec fn paper_of_record(p: Paper, r: PaperRecord) -> bool {
    &&& p.title@ == r.title@
    &&& strings_view(p.authors@) == strings_view(r.authors@)
    &&& p.summary@ == r.summary@
    &&& p.id@ == r.arxiv_id@
    &&& p.last_updated@ == r.last_updated@
    &&& p.published@ == r.published@
    &&& p.pdf_url@ == r.pdf_url@
    &&& opt_view(p.comment) == opt_view(r.comment)
    &&& opt_view(p.doi) == opt_view(r.doi)
    &&& opt_view(p.inspire_id) == opt_view(r.inspire_id)
    &&& p.citation_count == match r.citation_count {
            Some(c) => Some(c as u32),
            None => None::<u32>,
        }
    &&& p.source == source_of_name(r.source@)
    &&& p.references@.len() == 0
}

impl PaperRecord {
    /// The row stored for `paper`.
    pub fn from_paper(paper: &Paper) -> (res: PaperRecord)
        ensures
            record_of_paper(res, *paper),
    {
        let source = match paper.source {
            DataSource::Arxiv => "Arxiv",
            DataSource::InspireHep => "InspireHep",
            DataSource::Merged => "Merged",
        };
        let citation_count = match paper.citation_count {
            Some(c) => Some(c as i64),
            None => None,
        };
        PaperRecord {
            title: paper.title.clone(),
            authors: copy_strings(&paper.authors),
            summary: paper.summary.clone(),
            arxiv_id: strip_version_suffix(paper.id.as_str()),
            last_updated: paper.last_updated.clone(),
            published: paper.published.clone(),
            pdf_url: paper.pdf_url.clone(),
            comment: clone_opt(&paper.comment),
            doi: clone_opt(&paper.doi),
            inspire_id: clone_opt(&paper.inspire_id),
            citation_count,
            source: source.to_string(),
        }
    }

    /// The paper loaded from this row.
    pub fn to_paper(&self) -> (res: Paper)
        ensures
            paper_of_record(res, *self),
    {
        let name = chars_of(self.source.as_str());
        let source = if chars_eq(&name, &chars_of("InspireHep")) {
            DataSource::InspireHep
        } else if chars_eq(&name, &chars_of("Merged")) {
            DataSource::Merged
        } else {
            DataSource::Arxiv
        };
        let citation_count = match self.citation_count {
            Some(c) => Some(#[verifier::truncate] (c as u32)),
            None => None,
        };
        Paper {
            title: self.title.clone(),
            authors: copy_strings(&self.authors),
            summary: self.summary.clone(),
            id: self.arxiv_id.clone(),
            last_updated: self.last_updated.clone(),
            published: self.published.clone(),
            pdf_url: self.pdf_url.clone(),
            comment: clone_opt(&self.comment),
            doi: clone_opt(&self.doi),
            inspire_id: clone_opt(&self.inspire_id),
            citation_count,
            source,
            references: Vec::new(),
        }
    }
}

/// A paper stored and loaded again keeps every field but its references, which are
/// stored apart, and its id, which loses its version suffix.
pub proof fn lemma_paper_round_trip(p: Paper, r: PaperRecord, q: Paper)
    requires
        record_of_paper(r, p),
        paper_of_record(q, r),
    ensures
        q.title@ == p.title@,
        strings_view(q.authors@) == strings_view(p.authors@),
        q.summary@ == p.summary@,
        q.id@ == strip_version(p.id@),
        q.last_updated@ == p.last_updated@,
        q.published@ == p.published@,
        q.pdf_url@ == p.pdf_url@,
        opt_view(q.comment) == opt_view(p.comment),
        opt_view(q.doi) == opt_view(p.doi),
        opt_view(q.inspire_id) == opt_view(p.inspire_id),
        q.citation_count == p.citation_count,
        q.source == p.source,
        q.references@.len() == 0,
{
    reveal_strlit("Arxiv");
    reveal_strlit("InspireHep");
    reveal_strlit("Merged");
    assert("Arxiv"@.len() == 5 && "InspireHep"@.len() == 10 && "Merged"@.len() == 6);
    assert("Arxiv"@ != "InspireHep"@ && "Arxiv"@ != "Merged"@ && "Merged"@ != "InspireHep"@);
    if let Some(c) = p.citation_count {
        assert((c as i64) as u32 == c) by (bit_vector);
    }
}

/// The stored row of a text extraction.
#[derive(Debug, Clone)]
pub struct ExtractionRecord {
    pub arxiv_id: String,
    pub extraction_method: String,
    pub abstract_text: Option<String>,
    pub introduction: Option<String>,
    pub methods: Option<String>,
    pub results: Option<String>,
    pub conclusion: Option<String>,
    pub is_partial: bool,
    pub extracted_at: String,
}

/// The name an extraction method is stored under.
pub open spec fn method_name(m: ExtractionMethod) -> Seq<char> {
    match m {
        ExtractionMethod::AbstractOnly => "AbstractOnly"@,
        ExtractionMethod::Ar5ivHtml => "Ar5ivHtml"@,
    }
}

/// The extraction method a stored name stands for; unknown names stand for
/// abstract-only.
pub open spec fn method_of_name(n: Seq<char>) -> ExtractionMethod {
    if n == "Ar5ivHtml"@ {
        ExtractionMethod::Ar5ivHtml
    } else {
        ExtractionMethod::AbstractOnly
    }
}

/// The section texts of `a` and `b` are the same.
pub open spec fn same_sections(a: SectionMap, b: SectionMap) -> bool {
    &&& opt_view(a.abstract_text) == opt_view(b.abstract_text)
    &&& opt_view(a.introduction) == opt_view(b.introduction)
    &&& opt_view(a.methods) == opt_view(b.methods)
    &&& opt_view(a.results) == opt_view(b.results)
    &&& opt_view(a.conclusion) == opt_view(b.conclusion)
}

/// `r` is the row stored for the extraction `e`.
pub open spec fn record_of_extraction(r: ExtractionRecord, e: TextExtractionResult) -> bool {
    &&& r.arxiv_id@ == strip_version(e.arxiv_id@)
    &&& r.extraction_method@ == method_name(e.extraction_method)
    &&& opt_view(r.abstract_text) == opt_view(e.sections.abstract_text)
    &&& opt_view(r.introduction) == opt_view(e.sections.introduction)
    &&& opt_view(r.methods) == opt_view(e.sections.methods)
    &&& opt_view(r.results) == opt_view(e.sections.results)
    &&& opt_view(r.conclusion) == opt_view(e.sections.conclusion)
    &&& r.is_partial == e.is_partial
    &&& r.extracted_at@ == e.extracted_at@
}

/// `e` is the extraction loaded from the row `r`.
pub open spec fn extraction_of_record(e: TextExtractionResult, r: ExtractionRecord) -> bool {
    &&& e.arxiv_id@ == r.arxiv_id@
    &&& e.extraction_method == method_of_name(r.extraction_method@)
    &&& opt_view(e.sections.abstract_text) == opt_view(r.abstract_text)
    &&& opt_view(e.sections.introduction) == opt_view(r.introduction)
    &&& opt_view(e.sections.methods) == opt_view(r.methods)
    &&& opt_view(e.sections.results) == opt_view(r.results)
    &&& opt_view(e.sections.conclusion) == opt_view(r.conclusion)
    &&& e.is_partial == r.is_partial
    &&& e.extracted_at@ == r.extracted_at@
}

impl ExtractionRecord {
    /// The row stored for the extraction `r`.
    pub fn from_extraction(r: &TextExtractionResult) -> (res: ExtractionRecord)
        ensures
            record_of_extraction(res, *r),
    {
        let method = match r.extraction_method {
            ExtractionMethod::AbstractOnly => "AbstractOnly",
            ExtractionMethod::Ar5ivHtml => "Ar5ivHtml",
        };
        ExtractionRecord {
            arxiv_id: strip_version_suffix(r.arxiv_id.as_str()),
            extraction_method: method.to_string(),
            abstract_text: clone_opt(&r.sections.abstract_text),
            introduction: clone_opt(&r.sections.introduction),
            methods: clone_opt(&r.sections.methods),
            results: clone_opt(&r.sections.results),
            conclusion: clone_opt(&r.sections.conclusion),
            is_partial: r.is_partial,
            extracted_at: r.extracted_at.clone(),
        }
    }

    /// The extraction loaded from this row.
    pub fn to_extraction_result(&self) -> (res: TextExtractionResult)
        ensures
            extraction_of_record(res, *self),
    {
        let method = if chars_eq(&chars_of(self.extraction_method.as_str()), &chars_of("Ar5ivHtml")) {
            ExtractionMethod::Ar5ivHtml
        } else {
            ExtractionMethod::AbstractOnly
        };
        TextExtractionResult {
            arxiv_id: self.arxiv_id.clone(),
            extraction_method: method,
            sections: SectionMap {
                abstract_text: clone_opt(&self.abstract_text),
                introduction: clone_opt(&self.introduction),
                methods: clone_opt(&self.methods),
                results: clone_opt(&self.results),
                conclusion: clone_opt(&self.conclusion),
            },
            is_partial: self.is_partial,
            extracted_at: self.extracted_at.clone(),
        }
    }
}

/// An extraction stored and loaded again is the same extraction, with its id without
/// its version suffix.
pub proof fn lemma_extraction_round_trip(e: TextExtractionResult, r: ExtractionRecord, f: TextExtractionResult)
    requires
        record_of_extraction(r, e),
        extraction_of_record(f, r),
    ensures
        f.arxiv_id@ == strip_version(e.arxiv_id@),
        f.extraction_method == e.extraction_method,
        same_sections(f.sections, e.sections),
        f.is_partial == e.is_partial,
        f.extracted_at@ == e.extracted_at@,
{
    reveal_strlit("AbstractOnly");
    reveal_strlit("Ar5ivHtml");
    assert("AbstractOnly"@.len() == 12 && "Ar5ivHtml"@.len() == 9);
    assert("AbstractOnly"@ != "Ar5ivHtml"@);
}

} // verus!
