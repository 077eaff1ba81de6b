//! Papers, their references, and where their metadata came from.
use vstd::prelude::*;
use crate::arxiv_refs::{last_segment, link_urls, split_on};
use crate::contradiction::strings_view;
use crate::error::ResynError;
use crate::strs::{contains_seq, contains_str};
use crate::text::{chars_of, string_of};

verus! {

/// The service a paper's metadata came from.
#[derive(Debug, Clone, Copy, PartialEq, Eq, Structural, Default)]
pub enum DataSource {
    #[default]
    Arxiv,
    InspireHep,
    Merged,
}

/// A link found in a reference.
#[derive(Debug, Clone, Default)]
pub struct Link {
    pub url: String,
}

impl Link {
    /// The link to `url`.
    pub fn from_url(url: &str) -> (res: Link)
        ensures
            res.url@ == url@,
    {
        Link { url: url.to_owned() }
    }
}

/// A reference of a paper to another work.
#[derive(Debug, Clone, Default)]
pub struct Reference {
    pub author: String,
    pub title: String,
    pub links: Vec<Link>,
    pub doi: Option<String>,
    pub arxiv_eprint: Option<String>,
    pub inspire_record_id: Option<String>,
    pub label: Option<String>,
}

/// A paper and its metadata.
#[derive(Debug, Clone, Default)]
pub struct Paper {
    pub id: String,
    pub title: String,
    pub authors: Vec<String>,
    pub summary: String,
    pub last_updated: String,
    pub published: String,
    pub pdf_url: String,
    pub comment: Option<String>,
    pub doi: Option<String>,
    pub inspire_id: Option<String>,
    pub citation_count: Option<u32>,
    pub source: DataSource,
    pub references: Vec<Reference>,
}

/// `links[i]` is the first of the links that mentions arXiv.
pub open spec fn first_arxiv_link_at(links: Seq<Seq<char>>, i: int) -> bool {
    &&& 0 <= i < links.len()
    &&& contains_seq(links[i], "arxiv"@)
    &&& forall|j: int| 0 <= j < i ==> !contains_seq(#[trigger] links[j], "arxiv"@)
}

/// No link mentions arXiv.
pub open spec fn no_arxiv_link(links: Seq<Seq<char>>) -> bool {
    forall|j: int| 0 <= j < links.len() ==> !contains_seq(#[trigger] links[j], "arxiv"@)
}

/// The arXiv id a reference links to: the last path segment of its first link that
/// mentions arXiv.
pub open spec fn linked_arxiv_id(links: Seq<Seq<char>>) -> Option<Seq<char>> {
    if exists|i: int| first_arxiv_link_at(links, i) {
        let i = choose|i: int| first_arxiv_link_at(links, i);
        Some(split_on(links[i], '/').last())
    } else {
        None
    }
}

/// The arXiv id a reference points to: its e-print identifier when it has one, otherwise
/// the id its first arXiv link carries.
pub open spec fn reference_arxiv_id(r: Reference) -> Option<Seq<char>> {
    match r.arxiv_eprint {
        Some(e) => Some(e@),
        None => linked_arxiv_id(link_urls(r.links@)),
    }
}

/// The arXiv ids of the references that point to one, in reference order.
pub open spec fn arxiv_ids_of(refs: Seq<Reference>) -> Seq<Seq<char>>
    decreases refs.len(),
{
    if refs.len() == 0 {
        Seq::empty()
    } else {
        let rest = arxiv_ids_of(refs.drop_last());
        match reference_arxiv_id(refs.last()) {
            Some(id) => rest.push(id),
            None => rest,
        }
    }
}

proof fn lemma_first_link_unique(links: Seq<Seq<char>>, i: int, k: int)
    requires
        first_arxiv_link_at(links, i),
        first_arxiv_link_at(links, k),
    ensures
        i == k,
{
    if i < k {
        assert(!contains_seq(links[i], "arxiv"@));
    } else if k < i {
        assert(!contains_seq(links[k], "arxiv"@));
    }
}

impl Reference {
    /// The arXiv id this reference links to: the last `/`-separated segment of its first
    /// link that mentions arXiv, or `NoArxivLink` when no link does.
    pub fn get_arxiv_id(&self) -> (res: Result<String, ResynError>)
        ensures
            res matches Ok(id) ==> linked_arxiv_id(link_urls(self.links@)) == Some(id@),
            res is Err <==> linked_arxiv_id(link_urls(self.links@)) is None,
            res matches Err(e) ==> e == ResynError::NoArxivLink,
    {
        let ghost urls = link_urls(self.links@);
        let mut i: usize = 0;
        while i < self.links.len()
            invariant
                i <= self.links@.len(),
                urls == link_urls(self.links@),
                forall|j: int| 0 <= j < i ==> !contains_seq(#[trigger] urls[j], "arxiv"@),
            decreases self.links@.len() - i,
        {
            let url = chars_of(self.links[i].url.as_str());
            if contains_str(&url, "arxiv") {
                let seg = last_segment(&url);
                proof {
                    assert(first_arxiv_link_at(urls, i as int));
                    let k = choose|k: int| first_arxiv_link_at(urls, k);
                    lemma_first_link_unique(urls, i as int, k);
                }
                return Ok(string_of(&seg));
            }
            i += 1;
        }
        proof {
            assert(no_arxiv_link(urls));
            if exists|k: int| first_arxiv_link_at(urls, k) {
                let k = choose|k: int| first_arxiv_link_at(urls, k);
                assert(!contains_seq(urls[k], "arxiv"@));
            }
        }
        Err(ResynError::NoArxivLink)
    }
}

impl Paper {
    /// The arXiv ids of this paper's references, in reference order: a reference's
    /// e-print identifier when it has one, otherwise the id its first arXiv link carries;
    /// references with neither are left out.
    pub fn get_arxiv_references_ids(&self) -> (res: Vec<String>)
        ensures
            strings_view(res@) == arxiv_ids_of(self.references@),
    {
        let mut out: Vec<String> = Vec::new();
        let mut i: usize = 0;
        while i < self.references.len()
            invariant
                i <= self.references@.len(),
                strings_view(out@) == arxiv_ids_of(self.references@.take(i as int)),
            decreases self.references@.len() - i,
        {
            let r = &self.references[i];
            assert(self.references@.take(i + 1).drop_last() == self.references@.take(i as int));
            match &r.arxiv_eprint {
                Some(e) => {
                    out.push(e.clone());
                }
                None => {
                    match r.get_arxiv_id() {
                        Ok(id) => {
                            out.push(id);
                        }
                        Err(_) => {}
                    }
                }
            }
            assert(strings_view(out@) == arxiv_ids_of(self.references@.take(i + 1)));
            i += 1;
        }
        assert(self.references@.take(self.references@.len() as int) == self.references@);
        out
    }
}

} // verus!
