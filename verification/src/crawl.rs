//! The breadth-first search over references: from a seed paper, level by level, each
//! paper fetched at most once, down to a maximum depth; and the keys of crawl queue
//! entries.
use vstd::prelude::*;
use crate::contradiction::strings_view;
use crate::ids::{strip_version, strip_version_suffix};
use crate::strs::append_chars;
use crate::text::{chars_eq, chars_of, string_of};

verus! {

/// The state of a search by references.
pub struct ReferenceSearch {
    /// The deepest level searched (the seed is level 1).
    max_depth: usize,
    /// The level being searched.
    depth: usize,
    /// The paper ids of the level being searched, as found.
    level: Vec<String>,
    /// How many ids of `level` were handled.
    pos: usize,
    /// The ids referenced by the papers fetched at this level.
    next_level: Vec<String>,
    /// The unversioned ids of the papers fetched so far, in order.
    visited: Vec<String>,
}

/// What a search holds, as plain values.
pub struct SearchView {
    /// The deepest level searched (the seed is level 1).
    pub max_depth: usize,
    /// The level being searched.
    pub depth: usize,
    /// The paper ids of the level being searched, as found.
    pub level: Seq<Seq<char>>,
    /// How many ids of `level` were handled.
    pub pos: usize,
    /// The ids referenced by the papers fetched at this level.
    pub next_level: Seq<Seq<char>>,
    /// The unversioned ids of the papers fetched so far, in order.
    pub fetched: Seq<Seq<char>>,
}

/// The index of the first id of `level` from `i` on whose unversioned form is not among
/// `fetched`.
pub open spec fn first_unfetched(fetched: Seq<Seq<char>>, level: Seq<Seq<char>>, i: int) -> Option<int>
    decreases level.len() - i,
{
    if i < 0 || i >= level.len() {
        None
    } else if !fetched.contains(strip_version(level[i])) {
        Some(i)
    } else {
        first_unfetched(fetched, level, i + 1)
    }
}

impl SearchView {
    /// The search is consistent: it is within its levels and has fetched no paper twice.
    pub open spec fn consistent(self) -> bool {
        &&& 1 <= self.depth <= self.max_depth + 1
        &&& self.max_depth < usize::MAX
        &&& self.pos <= self.level.len()
        &&& self.fetched.no_duplicates()
    }

    /// The index of the first id of the level from `pos` on that was not fetched yet, if
    /// the search has not passed its last level.
    pub open spec fn pending_in_level(self) -> Option<int> {
        if self.depth <= self.max_depth {
            first_unfetched(self.fetched, self.level, self.pos as int)
        } else {
            None
        }
    }

    /// The index of the first id of the next level that was not fetched yet, if the next
    /// level is still within the search.
    pub open spec fn pending_in_next(self) -> Option<int> {
        if self.depth < self.max_depth {
            first_unfetched(self.fetched, self.next_level, 0)
        } else {
            None
        }
    }
}

/// What the search asks for next.
#[derive(Debug, Clone)]
pub enum SearchStep {
    /// Fetch the paper with this (unversioned) id, with its references.
    Fetch(String),
    /// The search is over.
    Done,
}

impl View for ReferenceSearch {
    type V = SearchView;

    open spec fn view(&self) -> SearchView {
        self.state()
    }
}

impl ReferenceSearch {
    /// The state of the search as plain values.
    pub closed spec fn state(self) -> SearchView {
        SearchView {
            max_depth: self.max_depth,
            depth: self.depth,
            level: strings_view(self.level@),
            pos: self.pos,
            next_level: strings_view(self.next_level@),
            fetched: strings_view(self.visited@),
        }
    }

    /// Every search is consistent (see `SearchView::consistent`).
    #[verifier::type_invariant]
    spec fn consistent(self) -> bool {
        self.state().consistent()
    }

    /// A search from the paper `paper_id` down to level `max_depth`.
    pub fn new(paper_id: &str, max_depth: usize) -> (res: ReferenceSearch)
        requires
            max_depth < usize::MAX,
        ensures
            res@.consistent(),
            res@.depth == 1,
            res@.max_depth == max_depth,
            res@.level == seq![paper_id@],
            res@.pos == 0,
            res@.next_level.len() == 0,
            res@.fetched.len() == 0,
    {
        let mut level: Vec<String> = Vec::new();
        level.push(paper_id.to_string());
        let res = ReferenceSearch {
            max_depth,
            depth: 1,
            level,
            pos: 0,
            next_level: Vec::new(),
            visited: Vec::new(),
        };
        assert(strings_view(res.level@) =~= seq![paper_id@]);
        assert(strings_view(res.visited@) =~= Seq::<Seq<char>>::empty());
        assert(strings_view(res.next_level@) =~= Seq::<Seq<char>>::empty());
        res
    }

    /// The level being searched (the seed is level 1).
    pub fn depth(&self) -> (d: usize)
        ensures
            d == self@.depth,
    {
        self.depth
    }

    /// The unversioned ids of the papers fetched so far, in order.
    pub fn visited(&self) -> (v: &Vec<String>)
        ensures
            strings_view(v@) == self@.fetched,
    {
        &self.visited
    }

    /// Whether `id` was fetched already.
    fn was_fetched(&self, id: &Vec<char>) -> (res: bool)
        ensures
            res == self@.fetched.contains(id@),
    {
        let mut k: usize = 0;
        while k < self.visited.len()
            invariant
                k <= self.visited@.len(),
                forall|j: int| 0 <= j < k ==> (#[trigger] self.visited@[j])@ != id@,
            decreases self.visited@.len() - k,
        {
            if chars_eq(&chars_of(self.visited[k].as_str()), id) {
                assert(self@.fetched[k as int] == id@);
                return true;
            }
            k += 1;
        }
        proof {
            if self@.fetched.contains(id@) {
                let j = choose|j: int| 0 <= j < self@.fetched.len() && self@.fetched[j] == id@;
                assert(self.visited@[j]@ == id@);
            }
        }
        false
    }

    /// The next paper to fetch: the next id of the level, without its version, that was
    /// not fetched before; at the end of a level the search moves to the ids that level
    /// referenced, until it passes `max_depth`. The search is over only when no id of the
    /// rest of the level, nor of the next level within `max_depth`, is left unfetched
    /// (the levels after that are empty, as nothing of the next level was fetched).
    pub fn next_step(&mut self) -> (res: SearchStep)
        ensures
            final(self)@.consistent(),
            final(self)@.max_depth == old(self)@.max_depth,
            old(self)@.depth <= final(self)@.depth,
            match res {
                SearchStep::Fetch(id) => {
                    &&& !old(self)@.fetched.contains(id@)
                    &&& final(self)@.fetched == old(self)@.fetched.push(id@)
                    &&& final(self)@.depth <= final(self)@.max_depth
                    &&& 0 < final(self)@.pos <= final(self)@.level.len()
                    &&& id@ == strip_version(final(self)@.level[final(self)@.pos - 1])
                },
                SearchStep::Done => {
                    &&& final(self)@.depth == final(self)@.max_depth + 1
                    &&& final(self)@.fetched == old(self)@.fetched
                },
            },
            old(self)@.pending_in_level() matches Some(k) ==> {
                &&& res matches SearchStep::Fetch(id) && id@ == strip_version(old(self)@.level[k])
                &&& final(self)@.depth == old(self)@.depth
                &&& final(self)@.level == old(self)@.level
                &&& final(self)@.pos == k + 1
                &&& final(self)@.next_level == old(self)@.next_level
            },
            old(self)@.pending_in_level() is None ==> (old(self)@.pending_in_next() matches Some(k) ==> {
                &&& res matches SearchStep::Fetch(id) && id@ == strip_version(old(self)@.next_level[k])
                &&& final(self)@.depth == old(self)@.depth + 1
                &&& final(self)@.level == old(self)@.next_level
                &&& final(self)@.pos == k + 1
                &&& final(self)@.next_level.len() == 0
            }),
            old(self)@.pending_in_level() is None && old(self)@.pending_in_next() is None ==> res is Done,
    {
        proof {
            use_type_invariant(&*self);
        }
        let ghost o = self@;
        let ghost f0 = self@.fetched;
        while self.depth <= self.max_depth
            invariant
                self.consistent(),
                self@.max_depth == o.max_depth,
                o.depth <= self@.depth,
                self@.fetched == f0,
                f0 == o.fetched,
                o == old(self)@,
                1 <= o.depth <= o.max_depth + 1,
                o.pos <= o.level.len(),
                // still in the level the search was in
                (self@.depth == o.depth && self@.level == o.level && self@.next_level == o.next_level
                    && o.pos <= self@.pos
                    && first_unfetched(f0, o.level, o.pos as int) == first_unfetched(f0, o.level, self@.pos as int))
                // in the level after it
                || (self@.depth == o.depth + 1 && o.depth <= o.max_depth
                    && first_unfetched(f0, o.level, o.pos as int) is None
                    && self@.level == o.next_level && self@.next_level.len() == 0
                    && first_unfetched(f0, o.next_level, 0) == first_unfetched(f0, o.next_level, self@.pos as int))
                // past both: only empty levels are left
                || (self@.depth >= o.depth + 2 && o.depth < o.max_depth
                    && first_unfetched(f0, o.level, o.pos as int) is None
                    && first_unfetched(f0, o.next_level, 0) is None
                    && self@.level.len() == 0 && self@.next_level.len() == 0),
            decreases self.max_depth + 1 - self.depth, self.level@.len() - self.pos,
        {
            if self.pos < self.level.len() {
                let ghost p = self.pos as int;
                let id = strip_version_suffix(self.level[self.pos].as_str());
                assert(self@.level[p] == self.level@[p]@);
                self.pos = self.pos + 1;
                let idv = chars_of(id.as_str());
                if !self.was_fetched(&idv) {
                    assert(first_unfetched(f0, self@.level, p) == Some(p));
                    let ghost v0 = self.visited@;
                    proof {
                        let s = strings_view(v0);
                        assert(strings_view(v0.push(id)) =~= s.push(id@));
                        assert forall|i: int, j: int| 0 <= i < j < s.push(id@).len() implies s.push(id@)[i] != s.push(id@)[j] by {
                            if j == s.len() {
                                assert(s.contains(s[i]));
                            }
                        }
                    }
                    let mut seen: Vec<String> = Vec::new();
                    std::mem::swap(&mut seen, &mut self.visited);
                    seen.push(id.clone());
                    std::mem::swap(&mut seen, &mut self.visited);
                    assert(self@.fetched =~= f0.push(id@));
                    proof {
                        use_type_invariant(&*self);
                    }
                    return SearchStep::Fetch(id);
                }
                assert(first_unfetched(f0, self@.level, p) == first_unfetched(f0, self@.level, p + 1));
            } else {
                assert(first_unfetched(f0, self@.level, self.pos as int) is None);
                let mut fresh: Vec<String> = Vec::new();
                std::mem::swap(&mut fresh, &mut self.next_level);
                self.pos = 0;
                self.level = fresh;
                self.depth = self.depth + 1;
            }
        }
        proof {
            use_type_invariant(&*self);
        }
        SearchStep::Done
    }

    /// Adds the ids referenced by the paper just fetched to the next level.
    pub fn add_references(&mut self, ids: Vec<String>)
        ensures
            final(self)@.consistent(),
            final(self)@.max_depth == old(self)@.max_depth,
            final(self)@.depth == old(self)@.depth,
            final(self)@.level == old(self)@.level,
            final(self)@.pos == old(self)@.pos,
            final(self)@.fetched == old(self)@.fetched,
            final(self)@.next_level == old(self)@.next_level + strings_view(ids@),
    {
        proof {
            use_type_invariant(&*self);
        }
        let mut ids = ids;
        let ghost n0 = self.next_level@;
        let ghost i0 = ids@;
        let mut next: Vec<String> = Vec::new();
        std::mem::swap(&mut next, &mut self.next_level);
        next.append(&mut ids);
        std::mem::swap(&mut next, &mut self.next_level);
        assert(strings_view(self.next_level@) =~= strings_view(n0) + strings_view(i0));
        proof {
            use_type_invariant(&*self);
        }
    }
}

/// `s` with every `/` and `.` replaced by `_`.
pub open spec fn underscored(s: Seq<char>) -> Seq<char> {
    s.map_values(|c: char| if c == '/' || c == '.' { '_' } else { c })
}

/// The key of the crawl queue entry for `paper_id` found from `seed_id`: both with `/`
/// and `.` replaced by `_`, joined by `_`.
pub fn queue_record_key(paper_id: &str, seed_id: &str) -> (res: String)
    ensures
        res@ == underscored(paper_id@) + "_"@ + underscored(seed_id@),
{
    let p = chars_of(paper_id);
    let s = chars_of(seed_id);
    let mut out: Vec<char> = Vec::new();
    let mut k: usize = 0;
    while k < p.len()
        invariant
            k <= p@.len(),
            out@ == underscored(p@.take(k as int)),
        decreases p@.len() - k,
    {
        let c = p[k];
        out.push(if c == '/' || c == '.' { '_' } else { c });
        assert(underscored(p@.take(k + 1)) =~= underscored(p@.take(k as int)).push(if c == '/' || c == '.' { '_' } else { c }));
        k += 1;
    }
    assert(p@.take(k as int) =~= p@);
    out.push('_');
    let ghost mid = out@;
    let mut j: usize = 0;
    while j < s.len()
        invariant
            j <= s@.len(),
            out@ == mid + underscored(s@.take(j as int)),
        decreases s@.len() - j,
    {
        let c = s[j];
        out.push(if c == '/' || c == '.' { '_' } else { c });
        assert(underscored(s@.take(j + 1)) =~= underscored(s@.take(j as int)).push(if c == '/' || c == '.' { '_' } else { c }));
        j += 1;
    }
    assert(s@.take(j as int) =~= s@);
    proof {
        reveal_strlit("_");
        assert(mid =~= underscored(paper_id@) + "_"@);
    }
    string_of(&out)
}

/// An entry of the crawl queue.
#[derive(Debug, Clone)]
pub struct QueueEntry {
    pub paper_id: String,
    pub seed_paper_id: String,
    pub depth_level: usize,
    pub status: String,
    pub retry_count: u32,
    pub created_at: String,
    pub claimed_at: Option<String>,
    pub completed_at: Option<String>,
    pub source: Option<String>,
}

/// The number of queue entries in each state.
#[derive(Debug, Clone, Default)]
pub struct QueueCounts {
    pub total: u64,
    pub pending: u64,
    pub fetching: u64,
    pub done: u64,
    pub failed: u64,
}

/// How long to wait before the next request so that requests are at least `limit_ms`
/// apart, given the time since the last request (none before the first request).
pub fn rate_limit_wait(elapsed_ms: Option<u64>, limit_ms: u64) -> (res: u64)
    ensures
        res == match elapsed_ms {
            Some(e) => if e < limit_ms { (limit_ms - e) as u64 } else { 0 },
            None => 0,
        },
{
    match elapsed_ms {
        Some(e) => if e < limit_ms { limit_ms - e } else { 0 },
        None => 0,
    }
}

} // verus!
