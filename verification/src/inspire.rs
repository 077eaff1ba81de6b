//! Papers and references from INSPIRE-HEP literature records.
use vstd::prelude::*;
use crate::arxiv_refs::{abs_url, last_segment, split_on};
use crate::contradiction::strings_view;
use crate::error::ResynError;
use crate::extraction::{clone_opt, opt_view};
use crate::ids::{strip_version, strip_version_suffix};
use crate::paper::{DataSource, Link, Paper, Reference};
use crate::strs::append_chars;
use crate::text::{chars_of, decimal, decimal_chars, string_of};

verus! {

/// A title.
#[derive(Debug, Clone)]
pub struct InspireTitle {
    pub title: String,
}

/// An author.
#[derive(Debug, Clone)]
pub struct InspireAuthor {
    pub full_name: String,
}

/// An abstract.
#[derive(Debug, Clone)]
pub struct InspireAbstract {
    pub value: String,
}

/// An arXiv e-print id.
#[derive(Debug, Clone)]
pub struct InspireArxivEprint {
    pub value: String,
}

/// A DOI.
#[derive(Debug, Clone)]
pub struct InspireDoi {
    pub value: String,
}

/// The link of a reference to its INSPIRE record.
#[derive(Debug, Clone)]
pub struct InspireRecord {
    pub ref_url: Option<String>,
}

/// What a reference says of the work it cites.
#[derive(Debug, Clone)]
pub struct InspireRefDetail {
    pub title: Option<InspireTitle>,
    pub authors: Option<Vec<InspireAuthor>>,
    pub arxiv_eprint: Option<String>,
    pub dois: Option<Vec<String>>,
}

/// A reference of a literature record.
#[derive(Debug, Clone)]
pub struct InspireReferenceEntry {
    pub reference: Option<InspireRefDetail>,
    pub record: Option<InspireRecord>,
    pub label: Option<String>,
}

/// The metadata of a literature record.
#[derive(Debug, Clone)]
pub struct InspireMetadata {
    pub titles: Option<Vec<InspireTitle>>,
    pub authors: Option<Vec<InspireAuthor>>,
    pub abstracts: Option<Vec<InspireAbstract>>,
    pub arxiv_eprints: Option<Vec<InspireArxivEprint>>,
    pub dois: Option<Vec<InspireDoi>>,
    pub citation_count: Option<u32>,
    pub references: Option<Vec<InspireReferenceEntry>>,
    pub earliest_date: Option<String>,
}

/// A literature record found by a search.
#[derive(Debug, Clone)]
pub struct InspireHit {
    pub id: Option<u64>,
    pub metadata: InspireMetadata,
}

/// The hits of a search.
#[derive(Debug, Clone)]
pub struct InspireHits {
    pub hits: Vec<InspireHit>,
}

/// The answer to a literature search.
#[derive(Debug, Clone)]
pub struct InspireResponse {
    pub hits: InspireHits,
}

/// The first title of the metadata, empty where there is none.
pub open spec fn first_title(m: InspireMetadata) -> Seq<char> {
    match m.titles {
        Some(ts) => if ts@.len() > 0 { ts@[0].title@ } else { Seq::empty() },
        None => Seq::empty(),
    }
}

/// The author names of the metadata.
pub open spec fn author_names(m: InspireMetadata) -> Seq<Seq<char>> {
    match m.authors {
        Some(a) => a@.map_values(|x: InspireAuthor| x.full_name@),
        None => Seq::empty(),
    }
}

/// The first abstract of the metadata, empty where there is none.
pub open spec fn first_abstract(m: InspireMetadata) -> Seq<char> {
    match m.abstracts {
        Some(a) => if a@.len() > 0 { a@[0].value@ } else { Seq::empty() },
        None => Seq::empty(),
    }
}

/// The first arXiv e-print of the metadata without its version, empty where there is
/// none.
pub open spec fn first_eprint(m: InspireMetadata) -> Seq<char> {
    match m.arxiv_eprints {
        Some(e) => if e@.len() > 0 { strip_version(e@[0].value@) } else { Seq::empty() },
        None => Seq::empty(),
    }
}

/// The first DOI of the metadata.
pub open spec fn first_doi(m: InspireMetadata) -> Option<Seq<char>> {
    match m.dois {
        Some(d) => if d@.len() > 0 { Some(d@[0].value@) } else { None },
        None => None,
    }
}

/// `p` is the paper of the literature record `hit`.
pub open spec fn paper_of_hit(p: Paper, hit: InspireHit) -> bool {
    let m = hit.metadata;
    &&& p.title@ == first_title(m)
    &&& strings_view(p.authors@) == author_names(m)
    &&& p.summary@ == first_abstract(m)
    &&& p.id@ == first_eprint(m)
    &&& opt_view(p.doi) == first_doi(m)
    &&& opt_view(p.inspire_id) == match hit.id {
            Some(n) => Some(decimal(n as nat)),
            None => None::<Seq<char>>,
        }
    &&& p.citation_count == m.citation_count
    &&& p.published@ == match m.earliest_date {
            Some(d) => d@,
            None => Seq::empty(),
        }
    &&& p.source == DataSource::InspireHep
    &&& p.last_updated@.len() == 0
    &&& p.pdf_url@.len() == 0
    &&& p.comment is None
    &&& p.references@.len() == 0
}

/// The paper of a literature record: its first title, abstract, e-print (without
/// version) and DOI, its authors, record id, citation count and earliest date.
pub fn convert_hit_to_paper(hit: &InspireHit) -> (res: Paper)
    ensures
        paper_of_hit(res, *hit),
{
    let m = &hit.metadata;
    let title = match &m.titles {
        Some(ts) => if ts.len() > 0 { ts[0].title.clone() } else { String::new() },
        None => String::new(),
    };
    let mut authors: Vec<String> = Vec::new();
    if let Some(a) = &m.authors {
        let mut k: usize = 0;
        while k < a.len()
            invariant
                k <= a@.len(),
                authors@.len() == k,
                forall|j: int| 0 <= j < k ==> (#[trigger] authors@[j])@ == a@[j].full_name@,
            decreases a@.len() - k,
        {
            authors.push(a[k].full_name.clone());
            k += 1;
        }
        assert(strings_view(authors@) =~= a@.map_values(|x: InspireAuthor| x.full_name@));
    } else {
        assert(strings_view(authors@) =~= Seq::<Seq<char>>::empty());
    }
    let summary = match &m.abstracts {
        Some(a) => if a.len() > 0 { a[0].value.clone() } else { String::new() },
        None => String::new(),
    };
    let arxiv_id = match &m.arxiv_eprints {
        Some(e) => if e.len() > 0 { strip_version_suffix(e[0].value.as_str()) } else { String::new() },
        None => String::new(),
    };
    let doi = match &m.dois {
        Some(d) => if d.len() > 0 { Some(d[0].value.clone()) } else { None },
        None => None,
    };
    let inspire_id = match hit.id {
        Some(n) => Some(string_of(&decimal_chars(n))),
        None => None,
    };
    let published = match &m.earliest_date {
        Some(d) => d.clone(),
        None => String::new(),
    };
    Paper {
        id: arxiv_id,
        title,
        authors,
        summary,
        last_updated: String::new(),
        published,
        pdf_url: String::new(),
        comment: None,
        doi,
        inspire_id,
        citation_count: m.citation_count,
        source: DataSource::InspireHep,
        references: Vec::new(),
    }
}

/// `r` is the reference of the entry `e`: the title, first author and first DOI of what
/// it cites, its e-print with an arXiv link, its label, and the last path segment of its
/// record URL.
pub open spec fn reference_of_entry(r: Reference, e: InspireReferenceEntry) -> bool {
    let eprint = match e.reference {
        Some(d) => opt_view(d.arxiv_eprint),
        None => None,
    };
    &&& r.title@ == match e.reference {
            Some(d) => match d.title {
                Some(t) => t.title@,
                None => Seq::empty(),
            },
            None => Seq::empty(),
        }
    &&& r.author@ == match e.reference {
            Some(d) => match d.authors {
                Some(a) => if a@.len() > 0 { a@[0].full_name@ } else { Seq::empty() },
                None => Seq::empty(),
            },
            None => Seq::empty(),
        }
    &&& opt_view(r.arxiv_eprint) == eprint
    &&& opt_view(r.doi) == match e.reference {
            Some(d) => match d.dois {
                Some(ds) => if ds@.len() > 0 { Some(ds@[0]@) } else { None },
                None => None,
            },
            None => None,
        }
    &&& opt_view(r.label) == opt_view(e.label)
    &&& opt_view(r.inspire_record_id) == match e.record {
            Some(rec) => match rec.ref_url {
                Some(u) => Some(split_on(u@, '/').last()),
                None => None,
            },
            None => None,
        }
    &&& r.links@.len() == if eprint is Some { 1int } else { 0int }
    &&& (eprint matches Some(x) ==> r.links@[0].url@ == abs_url(x))
}

/// The reference of one entry.
fn convert_reference(e: &InspireReferenceEntry) -> (res: Reference)
    ensures
        reference_of_entry(res, *e),
{
    let mut title = String::new();
    let mut author = String::new();
    let mut arxiv_eprint: Option<String> = None;
    let mut doi: Option<String> = None;
    if let Some(d) = &e.reference {
        if let Some(t) = &d.title {
            title = t.title.clone();
        }
        if let Some(a) = &d.authors {
            if a.len() > 0 {
                author = a[0].full_name.clone();
            }
        }
        arxiv_eprint = clone_opt(&d.arxiv_eprint);
        if let Some(ds) = &d.dois {
            if ds.len() > 0 {
                doi = Some(ds[0].clone());
            }
        }
    }
    let inspire_record_id = match &e.record {
        Some(rec) => match &rec.ref_url {
            Some(u) => Some(string_of(&last_segment(&chars_of(u.as_str())))),
            None => None,
        },
        None => None,
    };
    let mut links: Vec<Link> = Vec::new();
    if let Some(x) = &arxiv_eprint {
        let mut url = chars_of("https://arxiv.org/abs/");
        append_chars(&mut url, &chars_of(x.as_str()));
        let s = string_of(&url);
        links.push(Link::from_url(s.as_str()));
    }
    Reference {
        author,
        title,
        links,
        doi,
        arxiv_eprint,
        inspire_record_id,
        label: clone_opt(&e.label),
    }
}

/// The references of a literature record, in order; none where it lists none.
pub fn convert_references(metadata: &InspireMetadata) -> (res: Vec<Reference>)
    ensures
        match metadata.references {
            Some(refs) => res@.len() == refs@.len()
                && forall|k: int| 0 <= k < refs@.len() ==> reference_of_entry(#[trigger] res@[k], refs@[k]),
            None => res@.len() == 0,
        },
{
    let mut res: Vec<Reference> = Vec::new();
    if let Some(refs) = &metadata.references {
        let mut k: usize = 0;
        while k < refs.len()
            invariant
                k <= refs@.len(),
                res@.len() == k,
                forall|j: int| 0 <= j < k ==> reference_of_entry(#[trigger] res@[j], refs@[j]),
            decreases refs@.len() - k,
        {
            res.push(convert_reference(&refs[k]));
            k += 1;
        }
    }
    res
}

/// The paper of the first hit of a search for the paper `id`, or `PaperNotFound` where
/// the search found nothing.
pub fn paper_from_response(resp: &InspireResponse, id: &str) -> (res: Result<Paper, ResynError>)
    ensures
        resp.hits.hits@.len() > 0 ==> (res matches Ok(p) && paper_of_hit(p, resp.hits.hits@[0])),
        resp.hits.hits@.len() == 0 ==> (res matches Err(ResynError::PaperNotFound(m)) && m@ == id@),
{
    if resp.hits.hits.len() > 0 {
        Ok(convert_hit_to_paper(&resp.hits.hits[0]))
    } else {
        Err(ResynError::PaperNotFound(id.to_string()))
    }
}

/// Takes the references of `paper` from the first hit of a search: they replace the
/// paper's references, and its citation count, where it has none, comes from the hit.
/// Without a hit the paper is left as it was.
pub fn apply_references(paper: &mut Paper, resp: &InspireResponse)
    ensures
        resp.hits.hits@.len() == 0 ==> *final(paper) == *old(paper),
        resp.hits.hits@.len() > 0 ==> ({
            let m = resp.hits.hits@[0].metadata;
            &&& (match m.references {
                    Some(refs) => final(paper).references@.len() == refs@.len()
                        && forall|k: int| 0 <= k < refs@.len() ==> reference_of_entry(#[trigger] final(paper).references@[k], refs@[k]),
                    None => final(paper).references@.len() == 0,
                })
            &&& final(paper).citation_count == match old(paper).citation_count {
                    Some(c) => Some(c),
                    None => m.citation_count,
                }
            &&& final(paper).id == old(paper).id
            &&& final(paper).title == old(paper).title
            &&& final(paper).authors == old(paper).authors
            &&& final(paper).summary == old(paper).summary
            &&& final(paper).published == old(paper).published
            &&& final(paper).doi == old(paper).doi
            &&& final(paper).inspire_id == old(paper).inspire_id
            &&& final(paper).source == old(paper).source
        }),
{
    if resp.hits.hits.len() > 0 {
        let m = &resp.hits.hits[0].metadata;
        paper.references = convert_references(m);
        if paper.citation_count.is_none() {
            paper.citation_count = m.citation_count;
        }
    }
}

} // verus!
