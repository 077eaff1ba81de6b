//! Works from the OpenAlex bulk API: their arXiv ids, their abstracts, and papers built
//! from them.
use vstd::prelude::*;
use crate::paper::{DataSource, Paper, Reference};
use crate::strs::{find_in, find_seq, join_parts, join_with};
use crate::text::{
    byte_offset, bytes_boundary, chars_of, checked_utf8_length, cut_at, lemma_utf8_len_strict, lemma_utf8_len_take, string_of, to_lowercase,
    unicode_lowercase, utf8_len,
};
use crate::words::{slice_chars, word_views};
use crate::contradiction::{join_comma, strings_view};
use crate::extraction::{clone_opt, opt_view};

verus! {

/// A page of results.
#[derive(Debug)]
pub struct OpenAlexPage {
    pub results: Vec<OpenAlexWork>,
    pub meta: OpenAlexMeta,
}

/// The paging information of a page.
#[derive(Debug)]
pub struct OpenAlexMeta {
    pub count: u64,
    pub next_cursor: Option<String>,
}

/// A location where a work is published.
#[derive(Debug, Clone)]
pub struct OpenAlexLocation {
    pub landing_page_url: Option<String>,
}

/// An author of a work.
#[derive(Debug, Clone)]
pub struct OpenAlexAuthor {
    pub display_name: String,
}

/// The authorship of a work.
#[derive(Debug, Clone)]
pub struct OpenAlexAuthorship {
    pub author: OpenAlexAuthor,
}

/// A work. The abstract is given as an inverted index: each token with the positions
/// where it occurs.
#[derive(Debug, Clone)]
pub struct OpenAlexWork {
    /// Full OpenAlex URL, e.g. "https://openalex.org/W2741809807"
    pub id: String,
    /// Journal DOI, which may or may not be the arXiv 10.48550 form
    pub doi: Option<String>,
    pub title: Option<String>,
    pub display_name: Option<String>,
    pub publication_date: Option<String>,
    pub referenced_works: Vec<String>,
    pub authorships: Vec<OpenAlexAuthorship>,
    pub locations: Vec<OpenAlexLocation>,
    pub abstract_inverted_index: Option<Vec<(String, Vec<usize>)>>,
}

/// The characters of `s` after its first `b` bytes (where that is a boundary).
pub open spec fn after_bytes(s: Seq<char>, b: int) -> Seq<char> {
    s.skip(choose|k: int| 0 <= k <= s.len() && utf8_len(#[trigger] s.take(k)) == b)
}

/// Where `p` first occurs in the lowercased `s`, the byte position just after it.
pub open spec fn cut_after(s: Seq<char>, p: Seq<char>) -> Option<int> {
    let lower = unicode_lowercase(s);
    match find_seq(lower, p, 0) {
        Some(i) => Some(utf8_len(lower.take(i)) + utf8_len(p) as int),
        None => None,
    }
}

/// Cutting `s` after the first case-insensitive occurrence of `p` falls on a character
/// boundary of `s` (true of every ASCII string): the id is read by slicing `s` there by bytes.
pub open spec fn cut_ok(s: Seq<char>, p: Seq<char>) -> bool {
    &&& utf8_len(s) <= usize::MAX
    &&& utf8_len(unicode_lowercase(s)) <= usize::MAX
    &&& match cut_after(s, p) {
        Some(b) => bytes_boundary(s, b),
        None => true,
    }
}

/// The text of `s` after the first case-insensitive occurrence of `p`.
pub open spec fn text_after(s: Seq<char>, p: Seq<char>) -> Option<Seq<char>> {
    match cut_after(s, p) {
        Some(b) => Some(after_bytes(s, b)),
        None => None,
    }
}

/// `s` up to its first `/`, `?` or `#`.
pub open spec fn up_to_separator(s: Seq<char>) -> Seq<char>
    decreases s.len(),
{
    if s.len() == 0 {
        s
    } else if s[0] == '/' || s[0] == '?' || s[0] == '#' {
        Seq::empty()
    } else {
        seq![s[0]] + up_to_separator(s.drop_first())
    }
}

/// The arXiv id found in the locations from index `k` on: the first landing page URL
/// containing `arxiv.org/abs/` that has a non-empty id after it.
pub open spec fn location_id(locs: Seq<OpenAlexLocation>, k: int) -> Option<Seq<char>>
    decreases locs.len() - k,
{
    if k < 0 || k >= locs.len() {
        None
    } else {
        match locs[k].landing_page_url {
            Some(u) => match text_after(u@, "arxiv.org/abs/"@) {
                Some(raw) => if up_to_separator(raw).len() > 0 {
                    Some(up_to_separator(raw))
                } else {
                    location_id(locs, k + 1)
                },
                None => location_id(locs, k + 1),
            },
            None => location_id(locs, k + 1),
        }
    }
}

/// The arXiv id of a work: from a `10.48550/arxiv.` DOI, otherwise from the first arXiv
/// landing page among its locations.
pub open spec fn work_arxiv_id(w: OpenAlexWork) -> Option<Seq<char>> {
    match w.doi {
        Some(d) => match text_after(d@, "10.48550/arxiv."@) {
            Some(id) => Some(id),
            None => location_id(w.locations@, 0),
        },
        None => location_id(w.locations@, 0),
    }
}

/// The landing page URLs of the locations from index `k` on can be cut where the arXiv id
/// is read, as far as they are read: up to the first one that gives an id.
pub open spec fn locations_cut_ok(locs: Seq<OpenAlexLocation>, k: int) -> bool
    decreases locs.len() - k,
{
    if k < 0 || k >= locs.len() {
        true
    } else {
        match locs[k].landing_page_url {
            Some(u) => cut_ok(u@, "arxiv.org/abs/"@) && match text_after(u@, "arxiv.org/abs/"@) {
                Some(raw) => up_to_separator(raw).len() > 0 || locations_cut_ok(locs, k + 1),
                None => locations_cut_ok(locs, k + 1),
            },
            None => locations_cut_ok(locs, k + 1),
        }
    }
}

/// The texts of a work that the arXiv id lookup reads can be cut where it reads them: the
/// DOI, and, unless the DOI gives the id, the landing page URLs up to the first that does.
pub open spec fn work_cuts_ok(w: OpenAlexWork) -> bool {
    match w.doi {
        Some(d) => cut_ok(d@, "10.48550/arxiv."@)
            && (text_after(d@, "10.48550/arxiv."@) is Some || locations_cut_ok(w.locations@, 0)),
        None => locations_cut_ok(w.locations@, 0),
    }
}

/// The text of `s` after the first case-insensitive occurrence of `p`.
fn after_prefix(s: &str, p: &str) -> (res: Option<Vec<char>>)
    requires
        cut_ok(s@, p@),
    ensures
        match res { Some(v) => Some(v@), None => None } == text_after(s@, p@),
{
    let lower = to_lowercase(s);
    let lv = chars_of(lower.as_str());
    let pv = chars_of(p);
    match find_in(&lv, &pv) {
        Some(i) => {
            proof {
                lemma_utf8_len_take(lv@, i as int, lv@.len() as int);
                assert(lv@.take(lv@.len() as int) == lv@);
            }
            let pos = byte_offset(&lv, i);
            let sv = chars_of(s);
            proof {
                let k = choose|k: int| 0 <= k <= sv@.len() && utf8_len(#[trigger] sv@.take(k)) == pos + utf8_len(pv@);
                lemma_utf8_len_take(sv@, k, sv@.len() as int);
                assert(sv@.take(sv@.len() as int) == sv@);
            }
            let plen = crate::text::utf8_length(&pv);
            let k0 = choose_cut(&sv, pos + plen);
            Some(slice_chars(&sv, k0, sv.len()))
        },
        None => None,
    }
}

/// The number of characters of `v` in its first `target` bytes (where that is a boundary).
fn choose_cut(v: &[char], target: usize) -> (k: usize)
    requires
        bytes_boundary(v@, target as int),
    ensures
        k <= v@.len(),
        v@.skip(k as int) == after_bytes(v@, target as int),
{
    let ghost kk = choose|k: int| 0 <= k <= v@.len() && utf8_len(#[trigger] v@.take(k)) == target;
    let mut i: usize = 0;
    let mut total: usize = 0;
    while i < v.len() && total < target
        invariant
            0 <= kk <= v@.len(),
            utf8_len(v@.take(kk)) == target,
            i <= kk,
            total == utf8_len(v@.take(i as int)),
        decreases v@.len() - i,
    {
        proof {
            if i == kk {
                assert(false);
            }
            crate::text::lemma_utf8_len_take(v@, i + 1, kk);
            assert(v@.take(i + 1).drop_last() == v@.take(i as int));
        }
        total = total + crate::text::char_len_utf8(v[i]);
        i += 1;
    }
    proof {
        if i < kk {
            crate::text::lemma_utf8_len_strict(v@, i as int, kk);
        }
    }
    i
}

/// Whether the first `target` bytes of `v` are whole characters.
fn is_boundary(v: &[char], target: usize) -> (res: bool)
    requires
        utf8_len(v@) <= usize::MAX,
    ensures
        res == bytes_boundary(v@, target as int),
{
    let mut i: usize = 0;
    let mut total: usize = 0;
    while i < v.len() && total < target
        invariant
            i <= v@.len(),
            utf8_len(v@) <= usize::MAX,
            total == utf8_len(v@.take(i as int)),
            total <= target,
        decreases v@.len() - i,
    {
        proof {
            lemma_utf8_len_take(v@, i + 1, v@.len() as int);
            assert(v@.take(v@.len() as int) == v@);
            assert(v@.take(i + 1).drop_last() == v@.take(i as int));
        }
        let c = crate::text::char_len_utf8(v[i]);
        if c > target - total {
            // the boundary, if any, lies before character `i`, which is impossible
            proof {
                assert forall|k: int| 0 <= k <= v@.len() implies utf8_len(#[trigger] v@.take(k)) != target by {
                    if k <= i {
                        lemma_utf8_len_take(v@, k, i as int);
                        if k < i {
                            lemma_utf8_len_strict(v@, k, i as int);
                        }
                    } else {
                        lemma_utf8_len_take(v@, i + 1, k);
                    }
                }
            }
            return false;
        }
        total = total + c;
        i += 1;
    }
    proof {
        if total < target {
            assert forall|k: int| 0 <= k <= v@.len() implies utf8_len(#[trigger] v@.take(k)) != target by {
                lemma_utf8_len_take(v@, k, i as int);
            }
        }
    }
    total == target
}

/// Whether `s` can be cut after the first case-insensitive occurrence of `p`.
fn cut_fits(s: &str, p: &str) -> (res: bool)
    ensures
        res == cut_ok(s@, p@),
{
    let sv = chars_of(s);
    if checked_utf8_length(&sv).is_none() {
        return false;
    }
    let lower = to_lowercase(s);
    let lv = chars_of(lower.as_str());
    if checked_utf8_length(&lv).is_none() {
        return false;
    }
    let pv = chars_of(p);
    match find_in(&lv, &pv) {
        None => true,
        Some(i) => {
            let pos = byte_offset(&lv, i);
            let bound = match checked_utf8_length(&pv) {
                Some(plen) => pos.checked_add(plen),
                None => None,
            };
            match bound {
                Some(target) => is_boundary(&sv, target),
                None => {
                    proof {
                        assert forall|k: int| 0 <= k <= sv@.len() implies utf8_len(#[trigger] sv@.take(k)) != pos + utf8_len(pv@) by {
                            lemma_utf8_len_take(sv@, k, sv@.len() as int);
                            assert(sv@.take(sv@.len() as int) == sv@);
                        }
                    }
                    false
                },
            }
        },
    }
}

/// The characters of `s` up to its first `/`, `?` or `#`.
fn before_separator(s: &[char]) -> (res: Vec<char>)
    ensures
        res@ == up_to_separator(s@),
{
    let mut j: usize = 0;
    assert(s@.skip(0) == s@ && s@.take(0) + s@ == s@);
    while j < s.len() && s[j] != '/' && s[j] != '?' && s[j] != '#'
        invariant
            j <= s@.len(),
            up_to_separator(s@) == s@.take(j as int) + up_to_separator(s@.skip(j as int)),
        decreases s@.len() - j,
    {
        assert(s@.skip(j as int).drop_first() == s@.skip(j + 1));
        assert(s@.take(j as int) + seq![s@[j as int]] == s@.take(j + 1));
        j += 1;
    }
    if j == s.len() {
        assert(s@.skip(j as int).len() == 0);
        assert(s@.take(j as int) == s@);
    }
    slice_chars(s, 0, j)
}

/// The arXiv id in the locations from index `k` on (see `location_id`).
fn arxiv_id_from_locations(locs: &Vec<OpenAlexLocation>) -> (res: Option<String>)
    requires
        locations_cut_ok(locs@, 0),
    ensures
        opt_view(res) == location_id(locs@, 0),
{
    let mut k: usize = 0;
    while k < locs.len()
        invariant
            k <= locs@.len(),
            location_id(locs@, 0) == location_id(locs@, k as int),
            locations_cut_ok(locs@, k as int),
        decreases locs@.len() - k,
    {
        if let Some(url) = &locs[k].landing_page_url {
            assert(locs@[k as int].landing_page_url == Some(*url));
            if let Some(raw) = after_prefix(url.as_str(), "arxiv.org/abs/") {
                let id = before_separator(&raw);
                if id.len() > 0 {
                    return Some(string_of(&id));
                }
            }
        }
        k += 1;
    }
    None
}

impl OpenAlexWork {
    /// The arXiv id of this work: the part after `10.48550/arxiv.` of an arXiv DOI (in
    /// any case), otherwise the id in the first arXiv landing page URL among its
    /// locations, up to a `/`, `?` or `#`.
    pub fn arxiv_id(&self) -> (res: Option<String>)
        requires
            work_cuts_ok(*self),
        ensures
            opt_view(res) == work_arxiv_id(*self),
    {
        if let Some(doi) = &self.doi {
            if let Some(id) = after_prefix(doi.as_str(), "10.48550/arxiv.") {
                return Some(string_of(&id));
            }
        }
        arxiv_id_from_locations(&self.locations)
    }

    /// Whether the DOI and the landing page URLs of this work can be cut where the arXiv
    /// id lookup reads them (true of every ASCII work): `arxiv_id` and `to_paper` need this.
    pub fn cuts_ok(&self) -> (res: bool)
        ensures
            res == work_cuts_ok(*self),
    {
        if let Some(doi) = &self.doi {
            if !cut_fits(doi.as_str(), "10.48550/arxiv.") {
                return false;
            }
            if after_prefix(doi.as_str(), "10.48550/arxiv.").is_some() {
                return true;
            }
        }
        let mut k: usize = 0;
        while k < self.locations.len()
            invariant
                k <= self.locations@.len(),
                locations_cut_ok(self.locations@, 0) == locations_cut_ok(self.locations@, k as int),
                work_cuts_ok(*self) == locations_cut_ok(self.locations@, 0),
            decreases self.locations@.len() - k,
        {
            if let Some(url) = &self.locations[k].landing_page_url {
                assert(self.locations@[k as int].landing_page_url == Some(*url));
                if !cut_fits(url.as_str(), "arxiv.org/abs/") {
                    return false;
                }
                if let Some(raw) = after_prefix(url.as_str(), "arxiv.org/abs/") {
                    if before_separator(&raw).len() > 0 {
                        return true;
                    }
                }
            }
            k += 1;
        }
        true
    }
}

/// The (position, entry) pairs of an inverted index: for each entry in turn, each of its
/// positions together with the entry's index.
pub open spec fn index_pairs(idx: Seq<(String, Vec<usize>)>) -> Seq<(usize, usize)>
    decreases idx.len(),
{
    if idx.len() == 0 {
        Seq::empty()
    } else {
        let e = (idx.len() - 1) as usize;
        index_pairs(idx.drop_last()) + idx.last().1@.map_values(|p: usize| (p, e))
    }
}

/// `x` inserted into `s` after the trailing pairs of `s` at a later position.
pub open spec fn insert_by_pos(s: Seq<(usize, usize)>, x: (usize, usize)) -> Seq<(usize, usize)>
    decreases s.len(),
{
    if s.len() == 0 {
        seq![x]
    } else if s.last().0 <= x.0 {
        s.push(x)
    } else {
        insert_by_pos(s.drop_last(), x).push(s.last())
    }
}

/// The pairs of `s` ordered by position (a stable sort).
pub open spec fn sort_by_pos(s: Seq<(usize, usize)>) -> Seq<(usize, usize)>
    decreases s.len(),
{
    if s.len() == 0 {
        Seq::empty()
    } else {
        insert_by_pos(sort_by_pos(s.drop_last()), s.last())
    }
}

/// The pairs of `s` are in order of position.
pub open spec fn pos_sorted(s: Seq<(usize, usize)>) -> bool {
    forall|i: int, j: int| 0 <= i < j < s.len() ==> (#[trigger] s[i]).0 <= (#[trigger] s[j]).0
}

/// The tokens of an inverted index in the order of their positions.
pub open spec fn abstract_tokens(idx: Seq<(String, Vec<usize>)>) -> Seq<Seq<char>> {
    sort_by_pos(index_pairs(idx)).map_values(|pe: (usize, usize)| idx[pe.1 as int].0@)
}

/// The abstract of a work: its tokens in the order of their positions, separated by
/// single spaces; empty without an inverted index.
pub open spec fn abstract_of(w: OpenAlexWork) -> Seq<char> {
    match w.abstract_inverted_index {
        Some(idx) => join_with(abstract_tokens(idx@), " "@),
        None => Seq::empty(),
    }
}

/// Every pair of `s` names an entry below `n`.
pub open spec fn entries_below(s: Seq<(usize, usize)>, n: nat) -> bool {
    forall|i: int| 0 <= i < s.len() ==> (#[trigger] s[i]).1 < n
}

proof fn lemma_insert_at(s: Seq<(usize, usize)>, x: (usize, usize), k: int)
    requires
        0 <= k <= s.len(),
        k == 0 || s[k - 1].0 <= x.0,
        forall|j: int| k <= j < s.len() ==> (#[trigger] s[j]).0 > x.0,
    ensures
        insert_by_pos(s, x) == s.insert(k, x),
    decreases s.len(),
{
    if s.len() == 0 {
        assert(s.insert(k, x) =~= seq![x]);
    } else if s.last().0 <= x.0 {
        assert(s.insert(k, x) =~= s.push(x));
    } else {
        lemma_insert_at(s.drop_last(), x, k);
        assert(s.drop_last().insert(k, x).push(s.last()) =~= s.insert(k, x));
    }
}

/// Inserting by position keeps pairs in order of position, adds exactly `x`, and keeps
/// every other pair.
pub proof fn lemma_insert_by_pos(s: Seq<(usize, usize)>, x: (usize, usize))
    requires
        pos_sorted(s),
    ensures
        pos_sorted(insert_by_pos(s, x)),
        insert_by_pos(s, x).to_multiset() =~= s.to_multiset().insert(x),
        forall|i: int| 0 <= i < insert_by_pos(s, x).len() ==> #[trigger] insert_by_pos(s, x)[i] == x || s.contains(insert_by_pos(s, x)[i]),
    decreases s.len(),
{
    broadcast use vstd::seq_lib::to_multiset_build;
    if s.len() == 0 {
        assert(seq![x] =~= Seq::<(usize, usize)>::empty().push(x));
        assert(s =~= Seq::<(usize, usize)>::empty());
    } else if s.last().0 <= x.0 {
    } else {
        let d = s.drop_last();
        let r = insert_by_pos(d, x);
        lemma_insert_by_pos(d, x);
        assert(s =~= d.push(s.last()));
        assert forall|i: int| 0 <= i < r.len() implies (#[trigger] r[i]).0 <= s.last().0 by {
            if r[i] != x {
                let j = choose|j: int| 0 <= j < d.len() && d[j] == r[i];
                assert(s[j] == d[j]);
            }
        }
        assert forall|i: int| 0 <= i < r.len() implies #[trigger] r[i] == x || s.contains(r[i]) by {
            if r[i] != x {
                let j = choose|j: int| 0 <= j < d.len() && d[j] == r[i];
                assert(s[j] == d[j]);
            }
        }
        assert(r.push(s.last()).last() == s.last());
        assert(s.contains(s.last())) by {
            assert(s[s.len() - 1] == s.last());
        }
    }
}

/// A stable sort by position orders the pairs by position and keeps exactly the pairs
/// it was given.
pub proof fn lemma_sort_by_pos(s: Seq<(usize, usize)>)
    ensures
        pos_sorted(sort_by_pos(s)),
        sort_by_pos(s).to_multiset() =~= s.to_multiset(),
    decreases s.len(),
{
    broadcast use vstd::seq_lib::to_multiset_build;
    if s.len() == 0 {
        assert(s =~= Seq::<(usize, usize)>::empty());
    } else {
        lemma_sort_by_pos(s.drop_last());
        lemma_insert_by_pos(sort_by_pos(s.drop_last()), s.last());
        assert(s =~= s.drop_last().push(s.last()));
        assert(s.drop_last().push(s.last()).to_multiset() =~= s.drop_last().to_multiset().insert(s.last()));
    }
}

/// Inserts `x` into `sorted` after the trailing pairs at a later position.
fn insert_pair(sorted: &mut Vec<(usize, usize)>, x: (usize, usize))
    ensures
        final(sorted)@ == insert_by_pos(old(sorted)@, x),
        forall|n: nat| entries_below(old(sorted)@, n) && x.1 < n ==> #[trigger] entries_below(final(sorted)@, n),
{
    let mut k = sorted.len();
    while k > 0 && sorted[k - 1].0 > x.0
        invariant
            k <= sorted@.len(),
            forall|j: int| k <= j < sorted@.len() ==> (#[trigger] sorted@[j]).0 > x.0,
        decreases k,
    {
        k -= 1;
    }
    proof {
        lemma_insert_at(sorted@, x, k as int);
    }
    let ghost before = sorted@;
    sorted.insert(k, x);
    assert forall|n: nat| entries_below(before, n) && x.1 < n implies #[trigger] entries_below(sorted@, n) by {
        assert forall|i: int| 0 <= i < sorted@.len() implies (#[trigger] sorted@[i]).1 < n by {
            if i < k {
                assert(sorted@[i] == before[i]);
            } else if i > k {
                assert(sorted@[i] == before[i - 1]);
            }
        }
    }
}

/// The (position, entry) pairs of `idx`.
fn pairs_of_index(idx: &Vec<(String, Vec<usize>)>) -> (res: Vec<(usize, usize)>)
    ensures
        res@ == index_pairs(idx@),
        entries_below(res@, idx@.len()),
{
    let mut res: Vec<(usize, usize)> = Vec::new();
    let mut e: usize = 0;
    while e < idx.len()
        invariant
            e <= idx@.len(),
            res@ == index_pairs(idx@.take(e as int)),
            entries_below(res@, idx@.len()),
        decreases idx@.len() - e,
    {
        let positions = &idx[e].1;
        let ghost base = res@;
        let mut j: usize = 0;
        while j < positions.len()
            invariant
                e < idx@.len(),
                *positions == idx@[e as int].1,
                j <= positions@.len(),
                base == index_pairs(idx@.take(e as int)),
                res@ == base + positions@.take(j as int).map_values(|p: usize| (p, e)),
                entries_below(res@, idx@.len()),
            decreases positions@.len() - j,
        {
            res.push((positions[j], e));
            assert(positions@.take(j + 1).map_values(|p: usize| (p, e)) =~= positions@.take(j as int).map_values(|p: usize| (p, e)).push((positions@[j as int], e)));
            j += 1;
        }
        assert(idx@.take(e + 1).drop_last() =~= idx@.take(e as int));
        assert(positions@.take(j as int) =~= positions@);
        e += 1;
    }
    assert(idx@.take(e as int) =~= idx@);
    res
}

impl OpenAlexWork {
    /// The abstract rebuilt from the inverted index: the tokens in the order of their
    /// positions, separated by single spaces.
    pub fn reconstruct_abstract(&self) -> (res: String)
        ensures
            res@ == abstract_of(*self),
    {
        match &self.abstract_inverted_index {
            None => String::new(),
            Some(idx) => {
                if idx.len() == 0 {
                    assert(index_pairs(idx@) =~= Seq::<(usize, usize)>::empty());
                    assert(abstract_tokens(idx@) =~= Seq::<Seq<char>>::empty());
                    return String::new();
                }
                let pairs = pairs_of_index(idx);
                let mut sorted: Vec<(usize, usize)> = Vec::new();
                let mut i: usize = 0;
                while i < pairs.len()
                    invariant
                        i <= pairs@.len(),
                        sorted@ == sort_by_pos(pairs@.take(i as int)),
                        entries_below(pairs@, idx@.len()),
                        entries_below(sorted@, idx@.len()),
                    decreases pairs@.len() - i,
                {
                    assert(pairs@.take(i + 1).drop_last() =~= pairs@.take(i as int));
                    insert_pair(&mut sorted, pairs[i]);
                    i += 1;
                }
                assert(pairs@.take(i as int) =~= pairs@);
                let ghost toks = sorted@.map_values(|pe: (usize, usize)| idx@[pe.1 as int].0@);
                let mut tokens: Vec<Vec<char>> = Vec::new();
                let mut r: usize = 0;
                while r < sorted.len()
                    invariant
                        r <= sorted@.len(),
                        entries_below(sorted@, idx@.len()),
                        toks == sorted@.map_values(|pe: (usize, usize)| idx@[pe.1 as int].0@),
                        tokens@.len() == r,
                        word_views(tokens@) == toks.take(r as int),
                    decreases sorted@.len() - r,
                {
                    let e = sorted[r].1;
                    assert(sorted@[r as int].1 < idx@.len());
                    let tok = chars_of(idx[e].0.as_str());
                    assert(tok@ == toks[r as int]);
                    let ghost prev = tokens@;
                    tokens.push(tok);
                    assert forall|k: int| 0 <= k < r + 1 implies #[trigger] word_views(tokens@)[k] == toks.take(r + 1)[k] by {
                        if k < r {
                            assert(tokens@[k] == prev[k]);
                            assert(word_views(prev)[k] == toks.take(r as int)[k]);
                        }
                    }
                    assert(word_views(tokens@) =~= toks.take(r + 1));
                    r += 1;
                }
                assert(toks.take(r as int) =~= toks);
                let joined = join_parts(&tokens, &chars_of(" "));
                string_of(&joined)
            },
        }
    }
}

/// The title of a work: its title, else its display name, else empty.
pub open spec fn work_title(w: OpenAlexWork) -> Seq<char> {
    match w.title {
        Some(t) => t@,
        None => match w.display_name {
            Some(d) => d@,
            None => Seq::empty(),
        },
    }
}

/// The publication date of a work, empty where it has none.
pub open spec fn work_date(w: OpenAlexWork) -> Seq<char> {
    match w.publication_date {
        Some(d) => d@,
        None => Seq::empty(),
    }
}

/// The author names of a work, in order.
pub open spec fn work_authors(w: OpenAlexWork) -> Seq<Seq<char>> {
    w.authorships@.map_values(|a: OpenAlexAuthorship| a.author.display_name@)
}

/// `p` is the arXiv paper built from the work `w`.
pub open spec fn paper_of_work(p: Paper, w: OpenAlexWork) -> bool {
    &&& Some(p.id@) == work_arxiv_id(w)
    &&& p.title@ == work_title(w)
    &&& strings_view(p.authors@) == work_authors(w)
    &&& p.summary@ == abstract_of(w)
    &&& p.published@ == work_date(w)
    &&& p.last_updated@ == work_date(w)
    &&& p.pdf_url@ == Seq::<char>::empty()
    &&& p.comment is None
    &&& opt_view(p.doi) == opt_view(w.doi)
    &&& p.inspire_id is None
    &&& p.citation_count is None
    &&& p.source == DataSource::Arxiv
    &&& p.references@.len() == 0
}

impl OpenAlexWork {
    /// The arXiv paper for this work; `None` where it has no arXiv id.
    pub fn to_paper(&self) -> (res: Option<Paper>)
        requires
            work_cuts_ok(*self),
        ensures
            res is Some <==> work_arxiv_id(*self) is Some,
            res matches Some(p) ==> paper_of_work(p, *self),
    {
        let arxiv_id = match self.arxiv_id() {
            Some(id) => id,
            None => return None,
        };
        let title = match &self.title {
            Some(t) => t.clone(),
            None => match &self.display_name {
                Some(d) => d.clone(),
                None => String::new(),
            },
        };
        let mut authors: Vec<String> = Vec::new();
        let mut k: usize = 0;
        while k < self.authorships.len()
            invariant
                k <= self.authorships@.len(),
                authors@.len() == k,
                forall|j: int| 0 <= j < k ==> (#[trigger] authors@[j])@ == self.authorships@[j].author.display_name@,
            decreases self.authorships@.len() - k,
        {
            authors.push(self.authorships[k].author.display_name.clone());
            k += 1;
        }
        assert(strings_view(authors@) =~= work_authors(*self));
        let published = match &self.publication_date {
            Some(d) => d.clone(),
            None => String::new(),
        };
        let summary = self.reconstruct_abstract();
        let paper = Paper {
            id: arxiv_id,
            title,
            authors,
            summary,
            last_updated: published.clone(),
            published,
            pdf_url: String::new(),
            comment: None,
            doi: clone_opt(&self.doi),
            inspire_id: None,
            citation_count: None,
            source: DataSource::Arxiv,
            references: Vec::new(),
        };
        Some(paper)
    }

    /// The arXiv paper for this work as `to_paper` builds it, when the work can be read
    /// (see `cuts_ok`); otherwise `None`.
    pub fn to_paper_checked(&self) -> (res: Option<Option<Paper>>)
        ensures
            res is Some <==> work_cuts_ok(*self),
            res matches Some(r) ==> (r is Some <==> work_arxiv_id(*self) is Some),
            res matches Some(r) ==> (r matches Some(p) ==> paper_of_work(p, *self)),
    {
        if self.cuts_ok() {
            Some(self.to_paper())
        } else {
            None
        }
    }
}

/// `r` is the reference to the cited paper `p` found in the local store: its id as the
/// e-print, its title, and its authors joined with ", ".
pub open spec fn reference_to_cited(r: Reference, p: Paper) -> bool {
    &&& opt_view(r.arxiv_eprint) == Some(p.id@)
    &&& r.title@ == p.title@
    &&& r.author@ == join_with(strings_view(p.authors@), ", "@)
    &&& r.links@.len() == 0
    &&& r.doi is None
    &&& r.inspire_record_id is None
    &&& r.label is None
}

/// The references to the cited papers `cited`, in order.
pub fn cited_references(cited: &[Paper]) -> (res: Vec<Reference>)
    ensures
        res@.len() == cited@.len(),
        forall|k: int| 0 <= k < cited@.len() ==> reference_to_cited(#[trigger] res@[k], cited@[k]),
{
    let mut res: Vec<Reference> = Vec::new();
    let mut k: usize = 0;
    while k < cited.len()
        invariant
            k <= cited@.len(),
            res@.len() == k,
            forall|j: int| 0 <= j < k ==> reference_to_cited(#[trigger] res@[j], cited@[j]),
        decreases cited@.len() - k,
    {
        let p = &cited[k];
        let author = string_of(&join_comma(&p.authors));
        res.push(Reference {
            author,
            title: p.title.clone(),
            links: Vec::new(),
            doi: None,
            arxiv_eprint: Some(p.id.clone()),
            inspire_record_id: None,
            label: None,
        });
        k += 1;
    }
    res
}

} // verus!
