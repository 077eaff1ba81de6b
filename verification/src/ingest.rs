//! The bulk ingest of OpenAlex works: each page gives papers to store and records which
//! OpenAlex work is which arXiv paper and which works it cites; at the end the citations
//! are translated to arXiv ids.
use vstd::prelude::*;
use crate::contradiction::strings_view;
use crate::extraction::opt_view;
use crate::openalex::{paper_of_work, work_arxiv_id, work_cuts_ok, OpenAlexMeta, OpenAlexWork};
use crate::paper::Paper;
use crate::text::{chars_eq, chars_of};

verus! {

/// The arXiv id that the map `m` gives the OpenAlex id `k`: its last entry for `k`.
pub open spec fn lookup_last(m: Seq<(String, String)>, k: Seq<char>) -> Option<Seq<char>>
    decreases m.len(),
{
    if m.len() == 0 {
        None
    } else if m.last().0@ == k {
        Some(m.last().1@)
    } else {
        lookup_last(m.drop_last(), k)
    }
}

/// The works of `works` that have an arXiv id, in order.
pub open spec fn arxiv_works(works: Seq<OpenAlexWork>) -> Seq<OpenAlexWork>
    decreases works.len(),
{
    if works.len() == 0 {
        Seq::empty()
    } else {
        let w = works.last();
        arxiv_works(works.drop_last()) + if work_arxiv_id(w) is Some { seq![w] } else { Seq::empty() }
    }
}

/// `batch` holds the paper of each work of `works` that has an arXiv id, once each and in
/// the order of the works.
pub open spec fn batch_of(batch: Seq<Paper>, works: Seq<OpenAlexWork>) -> bool {
    &&& batch.len() == arxiv_works(works).len()
    &&& forall|k: int| 0 <= k < batch.len() ==> #[trigger] paper_of_work(batch[k], arxiv_works(works)[k])
}

/// The citation entries of a page of works, in order: for each work with an arXiv id
/// that cites other works, its arXiv id and the OpenAlex ids it cites.
pub open spec fn citations_of(works: Seq<OpenAlexWork>) -> Seq<(Seq<char>, Seq<Seq<char>>)>
    decreases works.len(),
{
    if works.len() == 0 {
        Seq::empty()
    } else {
        let w = works.last();
        citations_of(works.drop_last()) + match work_arxiv_id(w) {
            Some(id) => if w.referenced_works@.len() > 0 {
                seq![(id, strings_view(w.referenced_works@))]
            } else {
                Seq::empty()
            },
            None => Seq::empty(),
        }
    }
}

/// The id map entries of a page of works, in order: for each work with an arXiv id, its
/// OpenAlex id and its arXiv id.
pub open spec fn id_pairs_of(works: Seq<OpenAlexWork>) -> Seq<(Seq<char>, Seq<char>)>
    decreases works.len(),
{
    if works.len() == 0 {
        Seq::empty()
    } else {
        let w = works.last();
        id_pairs_of(works.drop_last()) + match work_arxiv_id(w) {
            Some(id) => seq![(w.id@, id)],
            None => Seq::empty(),
        }
    }
}

/// The citation entries `c` as plain values.
pub open spec fn citations_view(c: Seq<(String, Vec<String>)>) -> Seq<(Seq<char>, Seq<Seq<char>>)> {
    c.map_values(|e: (String, Vec<String>)| (e.0@, strings_view(e.1@)))
}

/// The id map `m` as plain values.
pub open spec fn id_map_view(m: Seq<(String, String)>) -> Seq<(Seq<char>, Seq<char>)> {
    m.map_values(|e: (String, String)| (e.0@, e.1@))
}

/// Every work of `works` can be read (see `work_cuts_ok`).
pub open spec fn all_cuts_ok(works: Seq<OpenAlexWork>) -> bool {
    forall|j: int| 0 <= j < works.len() ==> work_cuts_ok(#[trigger] works[j])
}

/// What the ingest has gathered so far.
pub struct IngestState {
    /// OpenAlex work id and arXiv id of each work read with an arXiv id, in order.
    pub id_map: Vec<(String, String)>,
    /// Each such work that cites others: its arXiv id and the OpenAlex ids it cites.
    pub raw_citations: Vec<(String, Vec<String>)>,
    /// How many papers were handed out for storing.
    pub papers_upserted: usize,
}

impl IngestState {
    /// The state before the first page.
    pub fn new() -> (res: IngestState)
        ensures
            res.id_map@.len() == 0,
            res.raw_citations@.len() == 0,
            res.papers_upserted == 0,
    {
        IngestState { id_map: Vec::new(), raw_citations: Vec::new(), papers_upserted: 0 }
    }

    /// Reads a page of works: every work with an arXiv id enters the id map (OpenAlex id
    /// to arXiv id) and, where it cites works, the citation list; its paper is returned
    /// for storing.
    pub fn ingest_page(&mut self, works: &[OpenAlexWork]) -> (batch: Vec<Paper>)
        requires
            old(self).papers_upserted + works@.len() <= usize::MAX,
            all_cuts_ok(works@),
        ensures
            citations_view(final(self).raw_citations@) == citations_view(old(self).raw_citations@) + citations_of(works@),
            id_map_view(final(self).id_map@) == id_map_view(old(self).id_map@) + id_pairs_of(works@),
            batch@.len() == id_pairs_of(works@).len(),
            final(self).id_map@.len() == old(self).id_map@.len() + batch@.len(),
            forall|k: int| 0 <= k < old(self).id_map@.len() ==> final(self).id_map@[k] == old(self).id_map@[k],
            final(self).papers_upserted == old(self).papers_upserted + batch@.len(),
            forall|k: int| 0 <= k < old(self).raw_citations@.len() ==> final(self).raw_citations@[k] == old(self).raw_citations@[k],
            batch@.len() <= works@.len(),
            batch_of(batch@, works@),
            forall|j: int| 0 <= j < works@.len() && (#[trigger] work_arxiv_id(works@[j])) is Some ==>
                exists|k: int| old(self).id_map@.len() <= k < final(self).id_map@.len()
                    && final(self).id_map@[k].0@ == works@[j].id@
                    && Some(final(self).id_map@[k].1@) == work_arxiv_id(works@[j]),
    {
        let ghost m0 = self.id_map@;
        let ghost c0 = self.raw_citations@;
        let mut batch: Vec<Paper> = Vec::new();
        let mut i: usize = 0;
        while i < works.len()
            invariant
                i <= works@.len(),
                self.id_map@.len() == m0.len() + batch@.len(),
                forall|k: int| 0 <= k < m0.len() ==> self.id_map@[k] == m0[k],
                forall|k: int| 0 <= k < c0.len() ==> self.raw_citations@[k] == c0[k],
                c0.len() <= self.raw_citations@.len(),
                self.papers_upserted == old(self).papers_upserted + batch@.len(),
                old(self).papers_upserted + works@.len() <= usize::MAX,
                all_cuts_ok(works@),
                citations_view(self.raw_citations@) == citations_view(c0) + citations_of(works@.take(i as int)),
                id_map_view(self.id_map@) == id_map_view(m0) + id_pairs_of(works@.take(i as int)),
                m0 == old(self).id_map@,
                c0 == old(self).raw_citations@,
                batch@.len() <= i,
                batch_of(batch@, works@.take(i as int)),
                forall|j: int| 0 <= j < i && (#[trigger] work_arxiv_id(works@[j])) is Some ==>
                    exists|k: int| m0.len() <= k < self.id_map@.len()
                        && self.id_map@[k].0@ == works@[j].id@
                        && Some(self.id_map@[k].1@) == work_arxiv_id(works@[j]),
            decreases works@.len() - i,
        {
            let w = &works[i];
            let ghost mh = self.id_map@;
            let ghost ch = self.raw_citations@;
            assert(works@.take(i + 1).drop_last() =~= works@.take(i as int));
            assert(works@.take(i + 1).last() == works@[i as int]);
            if let Some(arxiv_id) = w.arxiv_id() {
                let paper = w.to_paper();
                match paper {
                    Some(p) => {
                        let ghost mb = self.id_map@;
                        self.id_map.push((w.id.clone(), arxiv_id.clone()));
                        assert(id_map_view(self.id_map@) =~= id_map_view(mb) + seq![(w.id@, arxiv_id@)]);
                        assert forall|k: int| 0 <= k < m0.len() implies self.id_map@[k] == m0[k] by {
                            assert(self.id_map@[k] == mb[k]);
                        }
                        let ghost bb = batch@;
                        batch.push(p);
                        self.papers_upserted = self.papers_upserted + 1;
                        proof {
                            let aw = arxiv_works(works@.take(i as int));
                            assert(arxiv_works(works@.take(i + 1)) =~= aw.push(works@[i as int]));
                            assert forall|k: int| 0 <= k < batch@.len() implies
                                #[trigger] paper_of_work(batch@[k], arxiv_works(works@.take(i + 1))[k]) by {
                                if k < bb.len() {
                                    assert(batch@[k] == bb[k]);
                                    assert(paper_of_work(bb[k], aw[k]));
                                } else {
                                    assert(paper_of_work(batch@[k], works@[i as int]));
                                }
                            }
                        }
                        assert forall|j: int| 0 <= j < i + 1 && (#[trigger] work_arxiv_id(works@[j])) is Some implies
                            exists|k: int| m0.len() <= k < self.id_map@.len()
                                && self.id_map@[k].0@ == works@[j].id@
                                && Some(self.id_map@[k].1@) == work_arxiv_id(works@[j]) by {
                            if j < i {
                                let k = choose|k: int| m0.len() <= k < mb.len()
                                    && mb[k].0@ == works@[j].id@ && Some(mb[k].1@) == work_arxiv_id(works@[j]);
                                assert(self.id_map@[k] == mb[k]);
                            } else {
                                assert(work_cuts_ok(works@[i as int]));
                                assert(work_arxiv_id(works@[i as int]) == Some(arxiv_id@));
                                assert(self.id_map@[mb.len() as int].0@ == works@[j].id@);
                                assert(Some(self.id_map@[mb.len() as int].1@) == work_arxiv_id(works@[j]));
                            }
                        }
                        if w.referenced_works.len() > 0 {
                            let ghost cb = self.raw_citations@;
                            let mut cited: Vec<String> = Vec::new();
                            let mut r: usize = 0;
                            while r < w.referenced_works.len()
                                invariant
                                    r <= w.referenced_works@.len(),
                                    strings_view(cited@) == strings_view(w.referenced_works@).take(r as int),
                                decreases w.referenced_works@.len() - r,
                            {
                                let ghost cc = strings_view(cited@);
                                cited.push(w.referenced_works[r].clone());
                                assert(strings_view(cited@) =~= cc.push(w.referenced_works@[r as int]@));
                                assert(strings_view(w.referenced_works@).take(r + 1) =~= strings_view(w.referenced_works@).take(r as int).push(w.referenced_works@[r as int]@));
                                r += 1;
                            }
                            self.raw_citations.push((arxiv_id, cited));
                            assert forall|k: int| 0 <= k < c0.len() implies self.raw_citations@[k] == c0[k] by {
                                assert(self.raw_citations@[k] == cb[k]);
                            }
                            assert(strings_view(w.referenced_works@).take(w.referenced_works@.len() as int) =~= strings_view(w.referenced_works@));
                            assert(citations_view(self.raw_citations@) =~= citations_view(cb) + seq![(arxiv_id@, strings_view(w.referenced_works@))]);
                        }
                    },
                    None => {
                        // unreachable: a work with an arXiv id has a paper
                        proof {
                            assert(work_cuts_ok(works@[i as int]));
                            assert(work_arxiv_id(works@[i as int]) is Some);
                            assert(false);
                        }
                    },
                }
            } else {
                assert(work_arxiv_id(works@[i as int]) is None);
                assert(arxiv_works(works@.take(i + 1)) =~= arxiv_works(works@.take(i as int)));
            }
            proof {
                assert(citations_view(self.raw_citations@) =~= citations_view(c0) + citations_of(works@.take(i + 1)));
                assert(id_map_view(self.id_map@) =~= id_map_view(m0) + id_pairs_of(works@.take(i + 1)));
                assert forall|j: int| 0 <= j < i + 1 && (#[trigger] work_arxiv_id(works@[j])) is Some implies
                    exists|k: int| m0.len() <= k < self.id_map@.len()
                        && self.id_map@[k].0@ == works@[j].id@
                        && Some(self.id_map@[k].1@) == work_arxiv_id(works@[j]) by {
                    if j < i {
                        let k = choose|k: int| m0.len() <= k < mh.len()
                            && mh[k].0@ == works@[j].id@ && Some(mh[k].1@) == work_arxiv_id(works@[j]);
                        assert(self.id_map@[k] == mh[k]);
                    } else {
                        assert(self.id_map@.len() == mh.len() + 1);
                        assert(self.id_map@[mh.len() as int].0@ == works@[j].id@);
                        assert(Some(self.id_map@[mh.len() as int].1@) == work_arxiv_id(works@[j]));
                    }
                }
            }
            i += 1;
        }
        assert(works@.take(i as int) =~= works@);
        assert(id_map_view(self.id_map@).len() == self.id_map@.len());
        assert(id_map_view(m0).len() == m0.len());
        batch
    }

    /// Reads a page of works as `ingest_page` does, when every work of it can be read
    /// (see `OpenAlexWork::cuts_ok`) and the count of papers cannot overflow; otherwise
    /// `None`, with the state unchanged.
    pub fn ingest_page_checked(&mut self, works: &[OpenAlexWork]) -> (res: Option<Vec<Paper>>)
        ensures
            res is Some <==> (all_cuts_ok(works@) && old(self).papers_upserted + works@.len() <= usize::MAX),
            res is None ==> *final(self) == *old(self),
            res matches Some(batch) ==> {
                &&& citations_view(final(self).raw_citations@) == citations_view(old(self).raw_citations@) + citations_of(works@)
                &&& id_map_view(final(self).id_map@) == id_map_view(old(self).id_map@) + id_pairs_of(works@)
                &&& final(self).papers_upserted == old(self).papers_upserted + batch@.len()
                &&& batch@.len() == id_pairs_of(works@).len()
                &&& batch_of(batch@, works@)
            },
    {
        if works.len() > usize::MAX - self.papers_upserted {
            return None;
        }
        let mut j: usize = 0;
        while j < works.len()
            invariant
                j <= works@.len(),
                forall|i: int| 0 <= i < j ==> work_cuts_ok(#[trigger] works@[i]),
            decreases works@.len() - j,
        {
            if !works[j].cuts_ok() {
                return None;
            }
            j += 1;
        }
        let batch = self.ingest_page(works);
        Some(batch)
    }
}

/// The cursor of the next page: the one the page gives, where it gives a non-empty one.
pub fn next_cursor(meta: &OpenAlexMeta) -> (res: Option<String>)
    ensures
        opt_view(res) == match meta.next_cursor {
            Some(c) => if c@.len() > 0 { Some(c@) } else { None },
            None => None,
        },
{
    match &meta.next_cursor {
        Some(c) => {
            if chars_of(c.as_str()).len() > 0 {
                Some(c.clone())
            } else {
                None
            }
        },
        None => None,
    }
}

/// The citations of the paper `from` to the works `cited` that the id map knows, as
/// arXiv id pairs, in order.
pub open spec fn translated(m: Seq<(String, String)>, from: Seq<char>, cited: Seq<String>) -> Seq<(Seq<char>, Seq<char>)>
    decreases cited.len(),
{
    if cited.len() == 0 {
        Seq::empty()
    } else {
        translated(m, from, cited.drop_last()) + match lookup_last(m, cited.last()@) {
            Some(to) => seq![(from, to)],
            None => Seq::empty(),
        }
    }
}

/// The id map answers as a map where a later entry for a key replaces an earlier one:
/// nothing for an empty map, the value just added for its key, and the earlier answer for
/// any other key.
pub proof fn lemma_lookup_last_is_a_map(m: Seq<(String, String)>, e: (String, String), k: Seq<char>)
    ensures
        lookup_last(Seq::empty(), k) is None,
        e.0@ == k ==> lookup_last(m.push(e), k) == Some(e.1@),
        e.0@ != k ==> lookup_last(m.push(e), k) == lookup_last(m, k),
{
    assert(m.push(e).drop_last() =~= m);
}

/// A page read in two parts gives the citation entries, id map entries and batch works of
/// the first part followed by those of the second.
pub proof fn lemma_page_parts(a: Seq<OpenAlexWork>, b: Seq<OpenAlexWork>)
    ensures
        citations_of(a + b) == citations_of(a) + citations_of(b),
        id_pairs_of(a + b) == id_pairs_of(a) + id_pairs_of(b),
        arxiv_works(a + b) == arxiv_works(a) + arxiv_works(b),
    decreases b.len(),
{
    if b.len() == 0 {
        assert(a + b =~= a);
        assert(citations_of(a) + citations_of(b) =~= citations_of(a));
        assert(id_pairs_of(a) + id_pairs_of(b) =~= id_pairs_of(a));
        assert(arxiv_works(a) + arxiv_works(b) =~= arxiv_works(a));
    } else {
        assert((a + b).drop_last() =~= a + b.drop_last());
        assert((a + b).last() == b.last());
        lemma_page_parts(a, b.drop_last());
        assert(citations_of(a + b) =~= citations_of(a) + citations_of(b));
        assert(id_pairs_of(a + b) =~= id_pairs_of(a) + id_pairs_of(b));
        assert(arxiv_works(a + b) =~= arxiv_works(a) + arxiv_works(b));
    }
}

/// One work gives a citation entry exactly when it has an arXiv id and cites works (its
/// arXiv id with the OpenAlex ids it cites), an id map entry and a batch paper exactly
/// when it has an arXiv id.
pub proof fn lemma_page_single(w: OpenAlexWork)
    ensures
        citations_of(seq![w]) == match work_arxiv_id(w) {
            Some(id) => if w.referenced_works@.len() > 0 {
                seq![(id, w.referenced_works@.map_values(|s: String| s@))]
            } else {
                Seq::empty()
            },
            None => Seq::empty(),
        },
        id_pairs_of(seq![w]) == match work_arxiv_id(w) {
            Some(id) => seq![(w.id@, id)],
            None => Seq::empty(),
        },
        arxiv_works(seq![w]) == if work_arxiv_id(w) is Some { seq![w] } else { Seq::empty() },
{
    assert(seq![w].drop_last() =~= Seq::<OpenAlexWork>::empty());
    assert(seq![w].last() == w);
    assert(citations_of(Seq::<OpenAlexWork>::empty()) == Seq::<(Seq<char>, Seq<Seq<char>>)>::empty());
    assert(id_pairs_of(Seq::<OpenAlexWork>::empty()) == Seq::<(Seq<char>, Seq<char>)>::empty());
    assert(arxiv_works(Seq::<OpenAlexWork>::empty()) == Seq::<OpenAlexWork>::empty());
    assert(strings_view(w.referenced_works@) =~= w.referenced_works@.map_values(|s: String| s@));
    assert(Seq::<(Seq<char>, Seq<Seq<char>>)>::empty() + Seq::<(Seq<char>, Seq<Seq<char>>)>::empty()
        =~= Seq::<(Seq<char>, Seq<Seq<char>>)>::empty());
    assert(Seq::<(Seq<char>, Seq<char>)>::empty() + Seq::<(Seq<char>, Seq<char>)>::empty()
        =~= Seq::<(Seq<char>, Seq<char>)>::empty());
    assert(Seq::<OpenAlexWork>::empty() + Seq::<OpenAlexWork>::empty() =~= Seq::<OpenAlexWork>::empty());
    assert(Seq::<OpenAlexWork>::empty() + seq![w] =~= seq![w]);
    match work_arxiv_id(w) {
        Some(id) => {
            assert(Seq::<(Seq<char>, Seq<char>)>::empty() + seq![(w.id@, id)] =~= seq![(w.id@, id)]);
            assert(Seq::<(Seq<char>, Seq<Seq<char>>)>::empty() + seq![(id, strings_view(w.referenced_works@))]
                =~= seq![(id, strings_view(w.referenced_works@))]);
        },
        None => {},
    }
}

/// Translating a list of cited works translates each part on its own: the edges of
/// `a + b` are those of `a` followed by those of `b`, whatever ids either part holds.
pub proof fn lemma_translated_concat(m: Seq<(String, String)>, from: Seq<char>, a: Seq<String>, b: Seq<String>)
    ensures
        translated(m, from, a + b) == translated(m, from, a) + translated(m, from, b),
    decreases b.len(),
{
    if b.len() == 0 {
        assert(a + b =~= a);
    } else {
        assert((a + b).drop_last() =~= a + b.drop_last());
        assert((a + b).last() == b.last());
        lemma_translated_concat(m, from, a, b.drop_last());
    }
}

/// One cited work gives the edge from `from` to the arXiv id the map gives it (its last
/// entry), and no edge when the map does not know it.
pub proof fn lemma_translated_single(m: Seq<(String, String)>, from: Seq<char>, c: String)
    ensures
        translated(m, from, seq![c]) == match lookup_last(m, c@) {
            Some(to) => seq![(from, to)],
            None => Seq::<(Seq<char>, Seq<char>)>::empty(),
        },
{
    assert(seq![c].drop_last() =~= Seq::<String>::empty());
    assert(seq![c].last() == c);
    assert(translated(m, from, Seq::<String>::empty()) =~= Seq::<(Seq<char>, Seq<char>)>::empty());
    assert(Seq::<(Seq<char>, Seq<char>)>::empty() + seq![(from, lookup_last(m, c@)->0)] =~= seq![(from, lookup_last(m, c@)->0)]);
    assert(Seq::<(Seq<char>, Seq<char>)>::empty() + Seq::<(Seq<char>, Seq<char>)>::empty() =~= Seq::<(Seq<char>, Seq<char>)>::empty());
}

/// Every cited work the map knows gives its edge, in cited order: the edges of `cited`
/// are the edges of its known works, one each, and an unknown work removes nothing else.
pub proof fn lemma_translated_known_edges(m: Seq<(String, String)>, from: Seq<char>, cited: Seq<String>, j: int)
    requires
        0 <= j < cited.len(),
        lookup_last(m, cited[j]@) is Some,
    ensures
        translated(m, from, cited) == translated(m, from, cited.take(j))
            + seq![(from, lookup_last(m, cited[j]@)->0)] + translated(m, from, cited.skip(j + 1)),
{
    assert(cited =~= cited.take(j) + seq![cited[j]] + cited.skip(j + 1));
    lemma_translated_concat(m, from, cited.take(j) + seq![cited[j]], cited.skip(j + 1));
    lemma_translated_concat(m, from, cited.take(j), seq![cited[j]]);
    lemma_translated_single(m, from, cited[j]);
}

/// The arXiv id that the map gives the OpenAlex id `key`.
fn lookup(m: &Vec<(String, String)>, key: &String) -> (res: Option<String>)
    ensures
        opt_view(res) == lookup_last(m@, key@),
{
    let kv = chars_of(key.as_str());
    let mut found: Option<String> = None;
    let mut k: usize = 0;
    while k < m.len()
        invariant
            k <= m@.len(),
            kv@ == key@,
            opt_view(found) == lookup_last(m@.take(k as int), key@),
        decreases m@.len() - k,
    {
        assert(m@.take(k + 1).drop_last() =~= m@.take(k as int));
        if chars_eq(&chars_of(m[k].0.as_str()), &kv) {
            found = Some(m[k].1.clone());
        }
        k += 1;
    }
    assert(m@.take(k as int) =~= m@);
    found
}

/// The citation edges of the paper `from`: to each work of `cited` that the id map
/// knows, by arXiv ids.
pub fn translate_citations(id_map: &Vec<(String, String)>, from: &String, cited: &Vec<String>) -> (res: Vec<(String, String)>)
    ensures
        res@.map_values(|e: (String, String)| (e.0@, e.1@)) == translated(id_map@, from@, cited@),
{
    let mut res: Vec<(String, String)> = Vec::new();
    let mut k: usize = 0;
    while k < cited.len()
        invariant
            k <= cited@.len(),
            res@.map_values(|e: (String, String)| (e.0@, e.1@)) == translated(id_map@, from@, cited@.take(k as int)),
        decreases cited@.len() - k,
    {
        let ghost r0 = res@;
        assert(cited@.take(k + 1).drop_last() =~= cited@.take(k as int));
        match lookup(id_map, &cited[k]) {
            Some(to) => {
                res.push((from.clone(), to));
                assert(res@.map_values(|e: (String, String)| (e.0@, e.1@)) =~= r0.map_values(|e: (String, String)| (e.0@, e.1@))
                    + seq![(from@, res@[r0.len() as int].1@)]);
            },
            None => {
                assert(translated(id_map@, from@, cited@.take(k + 1)) =~= translated(id_map@, from@, cited@.take(k as int)));
            },
        }
        k += 1;
    }
    assert(cited@.take(k as int) =~= cited@);
    res
}

} // verus!
