//! The decisions of a chain of paper sources: a paper fetch tries the sources in order
//! and takes the first that succeeds; a reference fetch starts from the source that last
//! resolved a paper and goes round all of them until one yields references.
use vstd::prelude::*;
use crate::error::ResynError;
use crate::text::chars_of;

verus! {

/// The index of the first successful outcome of `os`.
pub open spec fn first_success(os: Seq<Result<(), ResynError>>) -> Option<int>
    decreases os.len(),
{
    if os.len() == 0 {
        None
    } else {
        match first_success(os.drop_last()) {
            Some(i) => Some(i),
            None => if os.last() is Ok { Some(os.len() - 1) } else { None },
        }
    }
}

/// The error of the last failed outcome of `os`.
pub open spec fn last_paper_error(os: Seq<Result<(), ResynError>>) -> Option<ResynError>
    decreases os.len(),
{
    if os.len() == 0 {
        None
    } else {
        match os.last() {
            Err(e) => Some(e),
            Ok(_) => last_paper_error(os.drop_last()),
        }
    }
}

/// `e` is the error saying that the paper with id `id` was not found.
pub open spec fn not_found(e: ResynError, id: Seq<char>) -> bool {
    e matches ResynError::PaperNotFound(m) && m@ == id
}

/// A paper fetch over a chain of `n` sources, by the outcomes of the sources asked so
/// far (in order).
pub struct PaperChain {
    n: usize,
    tried: usize,
    resolved: Option<usize>,
    last_err: ResynError,
    outcomes: Ghost<Seq<Result<(), ResynError>>>,
    id: Ghost<Seq<char>>,
}

/// What a paper fetch holds: the number of sources, how many were asked, the source that
/// succeeded, the error of the last failed source, the outcomes of the sources asked so
/// far, in order, and the id of the paper.
pub struct PaperChainView {
    pub n: usize,
    pub tried: usize,
    pub resolved: Option<usize>,
    pub last_err: ResynError,
    pub outcomes: Seq<Result<(), ResynError>>,
    pub id: Seq<char>,
}

impl PaperChainView {
    /// The counters agree with the outcomes recorded so far: the number asked, the first
    /// success (the last source asked), and the last error ("not found" before any).
    pub open spec fn consistent(self) -> bool {
        &&& self.tried == self.outcomes.len() <= self.n
        &&& self.resolved == match first_success(self.outcomes) {
                Some(i) => Some(i as usize),
                None => None,
            }
        &&& (self.resolved matches Some(i) ==> i == self.tried - 1)
        &&& match last_paper_error(self.outcomes) {
                Some(e) => self.last_err == e,
                None => not_found(self.last_err, self.id),
            }
    }

    /// Whether the fetch is over: a source succeeded or all were asked.
    pub open spec fn finished(self) -> bool {
        first_success(self.outcomes) is Some || self.outcomes.len() == self.n
    }
}

impl View for PaperChain {
    type V = PaperChainView;

    open spec fn view(&self) -> PaperChainView {
        self.state()
    }
}

impl PaperChain {
    /// The fetch as plain values.
    pub closed spec fn state(self) -> PaperChainView {
        PaperChainView {
            n: self.n,
            tried: self.tried,
            resolved: self.resolved,
            last_err: self.last_err,
            outcomes: self.outcomes@,
            id: self.id@,
        }
    }

    /// Every fetch is consistent (see `PaperChainView::consistent`).
    #[verifier::type_invariant]
    spec fn wf(self) -> bool {
        self.state().consistent()
    }

    /// A fetch of the paper `id` over `n` sources, none asked yet.
    pub fn new(id: &str, n: usize) -> (res: PaperChain)
        ensures
            res@.consistent(),
            res@.n == n,
            res@.outcomes.len() == 0,
            res@.id == id@,
    {
        PaperChain {
            n,
            tried: 0,
            resolved: None,
            last_err: ResynError::PaperNotFound(id.to_string()),
            outcomes: Ghost(Seq::empty()),
            id: Ghost(id@),
        }
    }

    /// The source to ask next: the one after the last asked, while none succeeded.
    pub fn next_source(&self) -> (res: Option<usize>)
        ensures
            res == if !self@.finished() { Some(self@.outcomes.len() as usize) } else { None::<usize> },
            self@.consistent(),
    {
        proof {
            use_type_invariant(self);
        }
        if self.resolved.is_none() && self.tried < self.n {
            Some(self.tried)
        } else {
            None
        }
    }

    /// Records the outcome of the source that `next_source` named.
    pub fn record(&mut self, outcome: Result<(), ResynError>)
        requires
            !old(self)@.finished(),
        ensures
            final(self)@.consistent(),
            final(self)@.n == old(self)@.n,
            final(self)@.id == old(self)@.id,
            final(self)@.outcomes == old(self)@.outcomes.push(outcome),
    {
        proof {
            use_type_invariant(&*self);
        }
        let ghost os = self.outcomes@.push(outcome);
        assert(os.drop_last() =~= self.outcomes@);
        let (resolved, last_err) = match outcome {
            Ok(()) => (Some(self.tried), self.last_err.copied()),
            Err(e) => (self.resolved, e),
        };
        let ghost id = self.id@;
        *self = PaperChain {
            n: self.n,
            tried: self.tried + 1,
            resolved,
            last_err,
            outcomes: Ghost(os),
            id: Ghost(id),
        };
        proof {
            use_type_invariant(&*self);
        }
    }

    /// The result of a finished fetch: the first source that succeeded, otherwise the
    /// error of the last source (or "not found" where there are no sources).
    pub fn result(&self) -> (res: Result<usize, ResynError>)
        requires
            self@.finished(),
        ensures
            match first_success(self@.outcomes) {
                Some(i) => res == Ok::<usize, ResynError>(i as usize),
                None => res matches Err(e) && match last_paper_error(self@.outcomes) {
                    Some(l) => e == l,
                    None => not_found(e, self@.id),
                },
            },
    {
        proof {
            use_type_invariant(self);
        }
        match self.resolved {
            Some(i) => Ok(i),
            None => Err(self.last_err.copied()),
        }
    }
}

/// The first success of a sequence of outcomes succeeded, and every outcome before it
/// failed.
pub proof fn lemma_first_success(os: Seq<Result<(), ResynError>>)
    ensures
        first_success(os) matches Some(i) ==> 0 <= i < os.len() && os[i] is Ok
            && forall|j: int| 0 <= j < i ==> (#[trigger] os[j]) is Err,
        first_success(os) is None ==> forall|j: int| 0 <= j < os.len() ==> (#[trigger] os[j]) is Err,
    decreases os.len(),
{
    if os.len() > 0 {
        lemma_first_success(os.drop_last());
        assert forall|j: int| 0 <= j < os.len() - 1 implies os[j] == os.drop_last()[j] by {}
    }
}

/// The answer of one source to a reference fetch.
#[derive(Debug, Clone)]
pub enum RefsOutcome {
    /// The source succeeded and the paper has references.
    Found,
    /// The source succeeded but found no references.
    Empty,
    /// The source failed.
    Failed(ResynError),
}

/// Some outcome of `os` found references.
pub open spec fn any_found(os: Seq<RefsOutcome>) -> bool {
    exists|i: int| 0 <= i < os.len() && #[trigger] os[i] is Found
}

/// Some outcome of `os` is a success, with or without references.
pub open spec fn any_success(os: Seq<RefsOutcome>) -> bool {
    exists|i: int| 0 <= i < os.len() && !(#[trigger] os[i] is Failed)
}

/// The error of the last failed outcome of `os`.
pub open spec fn last_refs_error(os: Seq<RefsOutcome>) -> Option<ResynError>
    decreases os.len(),
{
    if os.len() == 0 {
        None
    } else {
        match os.last() {
            RefsOutcome::Failed(e) => Some(e),
            _ => last_refs_error(os.drop_last()),
        }
    }
}

/// The source asked `k`-th by a reference fetch over `n` sources that starts at `start`.
pub open spec fn rotated(start: int, n: int, k: int) -> int {
    (start + k) % n
}

/// A reference fetch over a chain of `n` sources, starting from source `start`, by the
/// outcomes of the sources asked so far.
pub struct RefsChain {
    start: usize,
    n: usize,
    tried: usize,
    found: bool,
    any_ok: bool,
    last_err: ResynError,
    outcomes: Ghost<Seq<RefsOutcome>>,
    id: Ghost<Seq<char>>,
}

/// What a reference fetch holds: the source it starts from, the number of sources, how
/// many were asked, whether one found references, whether one succeeded, the error of the
/// last failed source, the outcomes of the sources asked so far, in order, and the id of
/// the paper.
pub struct RefsChainView {
    pub start: usize,
    pub n: usize,
    pub tried: usize,
    pub found: bool,
    pub any_ok: bool,
    pub last_err: ResynError,
    pub outcomes: Seq<RefsOutcome>,
    pub id: Seq<char>,
}

impl RefsChainView {
    /// The counters agree with the outcomes recorded so far: the start is a source, the
    /// number asked, whether one found references (then the last asked), whether one
    /// succeeded, and the last error ("not found" before any).
    pub open spec fn consistent(self) -> bool {
        &&& self.n == 0 || self.start < self.n
        &&& self.tried == self.outcomes.len() <= self.n
        &&& self.found == any_found(self.outcomes)
        &&& (self.found ==> self.outcomes.last() is Found)
        &&& self.any_ok == any_success(self.outcomes)
        &&& match last_refs_error(self.outcomes) {
                Some(e) => self.last_err == e,
                None => not_found(self.last_err, self.id),
            }
    }

    /// Whether the fetch is over: a source found references or all were asked.
    pub open spec fn finished(self) -> bool {
        any_found(self.outcomes) || self.outcomes.len() == self.n
    }
}

impl View for RefsChain {
    type V = RefsChainView;

    open spec fn view(&self) -> RefsChainView {
        self.state()
    }
}

impl RefsChain {
    /// The fetch as plain values.
    pub closed spec fn state(self) -> RefsChainView {
        RefsChainView {
            start: self.start,
            n: self.n,
            tried: self.tried,
            found: self.found,
            any_ok: self.any_ok,
            last_err: self.last_err,
            outcomes: self.outcomes@,
            id: self.id@,
        }
    }

    /// Every fetch is consistent (see `RefsChainView::consistent`).
    #[verifier::type_invariant]
    spec fn wf(self) -> bool {
        self.state().consistent()
    }

    /// A reference fetch for the paper `paper_id` over `n` sources, starting from source
    /// `start`, none asked yet.
    pub fn new(paper_id: &str, start: usize, n: usize) -> (res: RefsChain)
        requires
            n == 0 || start < n,
        ensures
            res@.consistent(),
            res@.start == start,
            res@.n == n,
            res@.outcomes.len() == 0,
            res@.id == paper_id@,
    {
        RefsChain {
            start,
            n,
            tried: 0,
            found: false,
            any_ok: false,
            last_err: ResynError::PaperNotFound(paper_id.to_string()),
            outcomes: Ghost(Seq::empty()),
            id: Ghost(paper_id@),
        }
    }

    /// The source to ask next: going round from `start`, while none found references.
    pub fn next_source(&self) -> (res: Option<usize>)
        ensures
            res == if !self@.finished() {
                Some(rotated(self@.start as int, self@.n as int, self@.outcomes.len() as int) as usize)
            } else {
                None::<usize>
            },
            self@.consistent(),
    {
        proof {
            use_type_invariant(self);
        }
        if !self.found && self.tried < self.n {
            let ghost k = self.start + self.tried;
            if self.tried < self.n - self.start {
                assert(k % (self.n as int) == k) by (nonlinear_arith)
                    requires
                        0 <= k < self.n,
                ;
                Some(self.start + self.tried)
            } else {
                assert(k % (self.n as int) == k - self.n) by (nonlinear_arith)
                    requires
                        self.n <= k < 2 * self.n,
                ;
                Some(self.tried - (self.n - self.start))
            }
        } else {
            None
        }
    }

    /// Records the outcome of the source that `next_source` named.
    pub fn record(&mut self, outcome: RefsOutcome)
        requires
            !old(self)@.finished(),
        ensures
            final(self)@.consistent(),
            final(self)@.start == old(self)@.start,
            final(self)@.n == old(self)@.n,
            final(self)@.id == old(self)@.id,
            final(self)@.outcomes == old(self)@.outcomes.push(outcome),
    {
        proof {
            use_type_invariant(&*self);
        }
        let ghost os0 = self.outcomes@;
        let ghost os = os0.push(outcome);
        assert(os.drop_last() =~= os0);
        assert(os.last() == outcome);
        assert(forall|i: int| 0 <= i < os0.len() ==> os[i] == os0[i]);
        let (found, any_ok, last_err) = match &outcome {
            RefsOutcome::Found => (true, true, self.last_err.copied()),
            RefsOutcome::Empty => (self.found, true, self.last_err.copied()),
            RefsOutcome::Failed(e) => (self.found, self.any_ok, e.copied()),
        };
        assert(any_found(os) == (any_found(os0) || outcome is Found)) by {
            if outcome is Found {
                assert(os[os0.len() as int] is Found);
            }
        }
        assert(any_success(os) == (any_success(os0) || !(outcome is Failed))) by {
            if !(outcome is Failed) {
                assert(!(os[os0.len() as int] is Failed));
            }
        }
        let ghost id = self.id@;
        *self = RefsChain {
            start: self.start,
            n: self.n,
            tried: self.tried + 1,
            found,
            any_ok,
            last_err,
            outcomes: Ghost(os),
            id: Ghost(id),
        };
        proof {
            use_type_invariant(&*self);
        }
    }

    /// The result of a finished fetch: success where a source found references or at
    /// least one source succeeded, otherwise the error of the last source (or "not
    /// found" where there are no sources).
    pub fn result(&self) -> (res: Result<(), ResynError>)
        requires
            self@.finished(),
        ensures
            (any_found(self@.outcomes) || any_success(self@.outcomes)) ==> res is Ok,
            !any_success(self@.outcomes) ==> (res matches Err(e) && match last_refs_error(self@.outcomes) {
                Some(l) => e == l,
                None => not_found(e, self@.id),
            }),
    {
        proof {
            use_type_invariant(self);
        }
        if self.found || self.any_ok {
            Ok(())
        } else {
            Err(self.last_err.copied())
        }
    }
}

/// Source `j` is among the first `n` sources asked by a fetch starting at `start`.
pub open spec fn asked_within(start: int, n: int, j: int) -> bool {
    exists|k: int| 0 <= k < n && #[trigger] rotated(start, n, k) == j
}

/// A reference fetch over `n` sources asks each source exactly once: the `k`-th source
/// asked, for `k < n`, is a valid source, no two are the same, and every source is
/// among them.
pub proof fn lemma_rotation_covers(start: int, n: int)
    requires
        0 <= start < n,
    ensures
        forall|k: int| 0 <= k < n ==> 0 <= #[trigger] rotated(start, n, k) < n,
        forall|k: int, l: int| 0 <= k < l < n ==> #[trigger] rotated(start, n, k) != #[trigger] rotated(start, n, l),
        forall|j: int| 0 <= j < n ==> #[trigger] asked_within(start, n, j),
{
    assert forall|k: int| 0 <= k < n implies #[trigger] rotated(start, n, k) == if start + k < n { start + k } else { start + k - n } by {
        if start + k < n {
            assert((start + k) % n == start + k) by (nonlinear_arith)
                requires
                    0 <= start + k < n,
            ;
        } else {
            assert((start + k) % n == start + k - n) by (nonlinear_arith)
                requires
                    n <= start + k < 2 * n,
            ;
        }
    }
    assert forall|j: int| 0 <= j < n implies #[trigger] asked_within(start, n, j) by {
        let k = if j >= start { j - start } else { j + n - start };
        assert(rotated(start, n, k) == j);
    }
}

} // verus!
