//! Community detection results: the Other bucket for small communities, the size rank
//! that gives each community its color, labels, and the readiness of the stored
//! assignments for the current corpus.
use vstd::prelude::*;
use crate::contradiction::strings_view;
use crate::extraction::opt_view;
use crate::ids::{strip_version, strip_version_suffix};
use crate::tfidf::{corpus_fingerprint, fingerprint_of};
use crate::strs::{join_parts, join_with};
use crate::text::{chars_eq, chars_of, string_of};
use crate::aggregation::holds_chars;
use crate::words::word_views;

verus! {

/// The color index of the Other bucket.
pub const OTHER_COLOR_INDEX: u32 = u32::MAX;

/// The community id that collects the members of all small communities.
pub const OTHER_COMMUNITY_ID: u32 = u32::MAX - 1;

/// Communities with fewer members than this join the Other bucket.
pub const MIN_COMMUNITY_SIZE: usize = 3;

/// Graphs with fewer nodes than this are not partitioned.
pub const MIN_GRAPH_NODES: usize = 10;

/// How many times `c` occurs in `s`.
pub open spec fn count_of(s: Seq<u32>, c: u32) -> nat
    decreases s.len(),
{
    if s.len() == 0 {
        0
    } else {
        count_of(s.drop_last(), c) + if s.last() == c { 1nat } else { 0nat }
    }
}

/// `t` lists each value occurring in `s` once, with the number of its occurrences.
pub open spec fn tallies(t: Seq<(u32, usize)>, s: Seq<u32>) -> bool {
    &&& forall|k: int, l: int| 0 <= k < l < t.len() ==> (#[trigger] t[k]).0 != (#[trigger] t[l]).0
    &&& forall|k: int| 0 <= k < t.len() ==> (#[trigger] t[k]).1 == count_of(s, t[k].0)
    &&& forall|c: u32| #[trigger] count_of(s, c) > 0 ==> exists|k: int| 0 <= k < t.len() && t[k].0 == c
}

/// A value occurs in a sequence at most as often as the sequence is long.
pub proof fn lemma_count_of_len(s: Seq<u32>, c: u32)
    ensures
        count_of(s, c) <= s.len(),
    decreases s.len(),
{
    if s.len() > 0 {
        lemma_count_of_len(s.drop_last(), c);
    }
}

/// Each value of `s` with the number of its occurrences, in order of first occurrence.
pub fn tally(s: &[u32]) -> (t: Vec<(u32, usize)>)
    ensures
        tallies(t@, s@),
        t@.len() <= s@.len(),
        forall|k: int| 0 <= k < t@.len() ==> (#[trigger] t@[k]).1 > 0,
{
    let mut t: Vec<(u32, usize)> = Vec::new();
    let mut i: usize = 0;
    while i < s.len()
        invariant
            i <= s@.len(),
            t@.len() <= i,
            tallies(t@, s@.take(i as int)),
            forall|k: int| 0 <= k < t@.len() ==> (#[trigger] t@[k]).1 > 0,
        decreases s@.len() - i,
    {
        let c = s[i];
        let ghost before = s@.take(i as int);
        let ghost after = s@.take(i + 1);
        assert(after.drop_last() == before);
        assert(forall|d: u32| #[trigger] count_of(after, d) == count_of(before, d) + if d == c { 1nat } else { 0nat });
        let mut k: usize = 0;
        while k < t.len() && t[k].0 != c
            invariant
                k <= t@.len(),
                forall|j: int| 0 <= j < k ==> (#[trigger] t@[j]).0 != c,
            decreases t@.len() - k,
        {
            k += 1;
        }
        let ghost t0 = t@;
        if k < t.len() {
            proof {
                lemma_count_of_len(before, c);
            }
            let n = t[k].1;
            t.set(k, (c, n + 1));
        } else {
            t.push((c, 1));
        }
        proof {
            assert forall|d: u32| #[trigger] count_of(after, d) > 0 implies exists|j: int| 0 <= j < t@.len() && t@[j].0 == d by {
                if d == c {
                    assert(t@[k as int].0 == c);
                } else {
                    assert(count_of(before, d) > 0);
                    let j = choose|j: int| 0 <= j < t0.len() && t0[j].0 == d;
                    assert(t@[j].0 == d);
                }
            }
        }
        i += 1;
    }
    assert(s@.take(i as int) == s@);
    t
}

/// The number of occurrences that the tally `t` records for `c`.
pub fn tally_count(t: &Vec<(u32, usize)>, c: u32) -> (n: usize)
    ensures
        forall|s: Seq<u32>| #[trigger] tallies(t@, s) ==> n == count_of(s, c),
{
    let mut k: usize = 0;
    while k < t.len()
        invariant
            k <= t@.len(),
            forall|j: int| 0 <= j < k ==> (#[trigger] t@[j]).0 != c,
        decreases t@.len() - k,
    {
        if t[k].0 == c {
            return t[k].1;
        }
        k += 1;
    }
    0
}

/// The community a member of raw community `c` ends up in: the Other bucket where `c`
/// has fewer than `MIN_COMMUNITY_SIZE` members in `groups`.
pub open spec fn remap(groups: Seq<u32>, c: u32) -> u32 {
    if count_of(groups, c) < MIN_COMMUNITY_SIZE {
        OTHER_COMMUNITY_ID
    } else {
        c
    }
}

/// The final community of each member.
pub open spec fn remapped(groups: Seq<u32>) -> Seq<u32> {
    groups.map_values(|c: u32| remap(groups, c))
}

/// The number of members of community `c` after small communities are merged.
pub open spec fn final_count(groups: Seq<u32>, c: u32) -> nat {
    count_of(remapped(groups), c)
}

/// Community `a` (id, size) ranks before `b`: it is larger, or as large with a lower id.
pub open spec fn community_before(a: (u32, usize), b: (u32, usize)) -> bool {
    a.1 > b.1 || (a.1 == b.1 && a.0 < b.0)
}

/// The communities of `r` are strictly in rank order.
pub open spec fn rank_sorted(r: Seq<(u32, usize)>) -> bool {
    forall|k: int, l: int| 0 <= k < l < r.len() ==> community_before(#[trigger] r[k], #[trigger] r[l])
}

/// Inserts `x` into the rank-sorted `r`, keeping it sorted.
fn insert_community(r: &mut Vec<(u32, usize)>, x: (u32, usize))
    requires
        rank_sorted(old(r)@),
        forall|k: int| 0 <= k < old(r)@.len() ==> (#[trigger] old(r)@[k]).0 != x.0,
    ensures
        rank_sorted(final(r)@),
        final(r)@.len() == old(r)@.len() + 1,
        forall|y: (u32, usize)| final(r)@.contains(y) <==> (old(r)@.contains(y) || y == x),
{
    let mut j: usize = 0;
    while j < r.len() && !community_before_exec(x, r[j])
        invariant
            j <= r@.len(),
            r@ == old(r)@,
            forall|k: int| 0 <= k < j ==> !community_before(x, #[trigger] r@[k]),
        decreases r@.len() - j,
    {
        j += 1;
    }
    let ghost s = r@;
    r.insert(j, x);
    assert forall|k: int, l: int| 0 <= k < l < r@.len() implies community_before(#[trigger] r@[k], #[trigger] r@[l]) by {
        if k < j && l == j {
            assert(!community_before(x, s[k]));
            assert(s[k].0 != x.0);
        } else if k < j && l > j {
            assert(community_before(s[k], s[l - 1]));
        } else if k == j {
            if l - 1 > j {
                assert(community_before(s[j as int], s[l - 1]));
            }
        } else if k > j {
            assert(community_before(s[k - 1], s[l - 1]));
        }
    }
    assert forall|y: (u32, usize)| r@.contains(y) <==> (s.contains(y) || y == x) by {
        if r@.contains(y) {
            let k = choose|k: int| 0 <= k < r@.len() && r@[k] == y;
            if k < j {
                assert(s[k] == y);
            } else if k > j {
                assert(s[k - 1] == y);
            }
        }
        if s.contains(y) {
            let k = choose|k: int| 0 <= k < s.len() && s[k] == y;
            if k < j {
                assert(r@[k] == y);
            } else {
                assert(r@[k + 1] == y);
            }
        }
        if y == x {
            assert(r@[j as int] == y);
        }
    }
    assert(s == old(r)@);
    assert(forall|y: (u32, usize)| r@.contains(y) <==> (old(r)@.contains(y) || y == x));
}

/// `community_before` on values.
fn community_before_exec(a: (u32, usize), b: (u32, usize)) -> (res: bool)
    ensures
        res == community_before(a, b),
{
    a.1 > b.1 || (a.1 == b.1 && a.0 < b.0)
}

/// The communities of `sizes` other than the Other bucket, in rank order: largest first,
/// ties broken by the lower id.
pub fn ranked_communities(sizes: &Vec<(u32, usize)>) -> (res: Vec<(u32, usize)>)
    requires
        forall|k: int, l: int| 0 <= k < l < sizes@.len() ==> (#[trigger] sizes@[k]).0 != (#[trigger] sizes@[l]).0,
    ensures
        rank_sorted(res@),
        res@.len() <= sizes@.len(),
        forall|y: (u32, usize)| res@.contains(y) <==> (sizes@.contains(y) && y.0 != OTHER_COMMUNITY_ID),
{
    let mut res: Vec<(u32, usize)> = Vec::new();
    let mut i: usize = 0;
    while i < sizes.len()
        invariant
            i <= sizes@.len(),
            res@.len() <= i,
            rank_sorted(res@),
            forall|k: int, l: int| 0 <= k < l < sizes@.len() ==> (#[trigger] sizes@[k]).0 != (#[trigger] sizes@[l]).0,
            forall|y: (u32, usize)| res@.contains(y) <==> (sizes@.take(i as int).contains(y) && y.0 != OTHER_COMMUNITY_ID),
        decreases sizes@.len() - i,
    {
        let x = sizes[i];
        let ghost before = sizes@.take(i as int);
        assert(sizes@.take(i + 1) == before.push(x));
        if x.0 != OTHER_COMMUNITY_ID {
            assert forall|k: int| 0 <= k < res@.len() implies (#[trigger] res@[k]).0 != x.0 by {
                assert(res@.contains(res@[k]));
                let j = choose|j: int| 0 <= j < before.len() && before[j] == res@[k];
                assert(sizes@[j] == before[j]);
            }
            insert_community(&mut res, x);
        }
        proof {
            assert forall|y: (u32, usize)| res@.contains(y) <==> (sizes@.take(i + 1).contains(y) && y.0 != OTHER_COMMUNITY_ID) by {
                let after = sizes@.take(i + 1);
                if after.contains(y) && y != x {
                    let j = choose|j: int| 0 <= j < after.len() && after[j] == y;
                    assert(before[j] == y);
                }
                if before.contains(y) {
                    let j = choose|j: int| 0 <= j < before.len() && before[j] == y;
                    assert(sizes@.take(i + 1)[j] == y);
                }
                if y == x {
                    assert(sizes@.take(i + 1)[i as int] == y);
                }
            }
        }
        i += 1;
    }
    assert(sizes@.take(i as int) == sizes@);
    res
}

/// `colors` gives the communities of `groups` other than the Other bucket their size rank
/// (0 for the largest, ties broken by the lower id), followed by the Other bucket with
/// `OTHER_COLOR_INDEX` where it has members.
pub open spec fn colors_ranked(colors: Seq<(u32, u32)>, groups: Seq<u32>) -> bool {
    let has_other = final_count(groups, OTHER_COMMUNITY_ID) > 0;
    let m = if has_other { colors.len() - 1 } else { colors.len() as int };
    &&& m >= 0
    &&& has_other ==> colors[m] == (OTHER_COMMUNITY_ID, OTHER_COLOR_INDEX)
    &&& forall|k: int| 0 <= k < m ==> (#[trigger] colors[k]).1 == k && colors[k].0 != OTHER_COMMUNITY_ID
            && final_count(groups, colors[k].0) > 0
    &&& forall|k: int, l: int| 0 <= k < l < m ==> community_before(
            ((#[trigger] colors[k]).0, final_count(groups, colors[k].0) as usize),
            ((#[trigger] colors[l]).0, final_count(groups, colors[l].0) as usize),
        )
    &&& forall|c: u32| c != OTHER_COMMUNITY_ID && #[trigger] final_count(groups, c) > 0
            ==> exists|k: int| 0 <= k < m && colors[k].0 == c
}

/// The communities of a graph's nodes.
#[derive(Debug, Clone)]
pub struct LouvainPartition {
    /// Each node's arXiv id with its community, in the order of the ids.
    pub assignments: Vec<(String, u32)>,
    /// Each community with its color index: by size rank, the Other bucket last.
    pub color_indices: Vec<(u32, u32)>,
    /// Each community with its number of members.
    pub sizes: Vec<(u32, usize)>,
}

impl LouvainPartition {
    /// The partition of a graph too small to partition.
    pub fn empty() -> (res: LouvainPartition)
        ensures
            res.assignments@.len() == 0,
            res.color_indices@.len() == 0,
            res.sizes@.len() == 0,
    {
        LouvainPartition { assignments: Vec::new(), color_indices: Vec::new(), sizes: Vec::new() }
    }

    /// The ids assigned to community `c`, in the order of the assignments.
    pub fn members(&self, c: u32) -> (res: Vec<String>)
        ensures
            strings_view(res@) == members_in(self.assignments@, c),
    {
        let mut res: Vec<String> = Vec::new();
        let mut k: usize = 0;
        while k < self.assignments.len()
            invariant
                k <= self.assignments@.len(),
                strings_view(res@) == members_in(self.assignments@.take(k as int), c),
            decreases self.assignments@.len() - k,
        {
            let ghost r0 = strings_view(res@);
            assert(self.assignments@.take(k + 1).drop_last() =~= self.assignments@.take(k as int));
            if self.assignments[k].1 == c {
                res.push(self.assignments[k].0.clone());
                assert(strings_view(res@) =~= r0.push(self.assignments@[k as int].0@));
            }
            k += 1;
        }
        assert(self.assignments@.take(k as int) =~= self.assignments@);
        res
    }
}

/// The ids of the assignments `a` that lie in community `c`, in order.
pub open spec fn members_in(a: Seq<(String, u32)>, c: u32) -> Seq<Seq<char>>
    decreases a.len(),
{
    if a.len() == 0 {
        Seq::empty()
    } else {
        members_in(a.drop_last(), c) + if a.last().1 == c { seq![a.last().0@] } else { Seq::empty() }
    }
}

/// The partition whose node `i` has the id `ids[i]` and lies in the raw community
/// `groups[i]`: communities with fewer than `MIN_COMMUNITY_SIZE` members merge into the
/// Other bucket, and the remaining ones are colored by size rank.
pub fn partition_from_groups(ids: &[String], groups: &[u32]) -> (res: LouvainPartition)
    requires
        ids@.len() == groups@.len(),
        groups@.len() < u32::MAX,
    ensures
        res.assignments@.len() == ids@.len(),
        forall|i: int| 0 <= i < ids@.len() ==> (#[trigger] res.assignments@[i]).0@ == ids@[i]@
            && res.assignments@[i].1 == remap(groups@, groups@[i]),
        tallies(res.sizes@, remapped(groups@)),
        colors_ranked(res.color_indices@, groups@),
{
    let raw = tally(groups);
    let mut final_ids: Vec<u32> = Vec::new();
    let mut i: usize = 0;
    while i < groups.len()
        invariant
            i <= groups@.len(),
            tallies(raw@, groups@),
            final_ids@ == remapped(groups@).take(i as int),
        decreases groups@.len() - i,
    {
        let c = groups[i];
        let n = tally_count(&raw, c);
        let f = if n < MIN_COMMUNITY_SIZE { OTHER_COMMUNITY_ID } else { c };
        final_ids.push(f);
        assert(final_ids@ == remapped(groups@).take(i + 1));
        i += 1;
    }
    assert(final_ids@ == remapped(groups@));
    let sizes = tally(&final_ids);
    let ranked = ranked_communities(&sizes);
    let mut colors: Vec<(u32, u32)> = Vec::new();
    let mut k: usize = 0;
    while k < ranked.len()
        invariant
            k <= ranked@.len(),
            ranked@.len() <= sizes@.len(),
            sizes@.len() <= groups@.len(),
            groups@.len() < u32::MAX,
            colors@.len() == k,
            forall|j: int| 0 <= j < k ==> (#[trigger] colors@[j]).0 == ranked@[j].0 && colors@[j].1 == j,
        decreases ranked@.len() - k,
    {
        colors.push((ranked[k].0, k as u32));
        k += 1;
    }
    let ghost g = groups@;
    proof {
        assert forall|j: int| 0 <= j < ranked@.len() implies (#[trigger] ranked@[j]).0 != OTHER_COMMUNITY_ID
            && ranked@[j].1 == final_count(g, ranked@[j].0) && final_count(g, ranked@[j].0) > 0 by {
            assert(ranked@.contains(ranked@[j]));
            let q = choose|q: int| 0 <= q < sizes@.len() && sizes@[q] == ranked@[j];
            assert(sizes@[q].1 > 0);
        }
        assert forall|c: u32| c != OTHER_COMMUNITY_ID && #[trigger] final_count(g, c) > 0
            implies exists|j: int| 0 <= j < ranked@.len() && colors@[j].0 == c by {
            assert(count_of(final_ids@, c) > 0);
            let q = choose|q: int| 0 <= q < sizes@.len() && sizes@[q].0 == c;
            assert(sizes@.contains(sizes@[q]));
            assert(ranked@.contains(sizes@[q]));
            let j = choose|j: int| 0 <= j < ranked@.len() && ranked@[j] == sizes@[q];
            assert(colors@[j].0 == c);
        }
    }
    let n_other = tally_count(&sizes, OTHER_COMMUNITY_ID);
    let ghost c0 = colors@;
    if n_other > 0 {
        colors.push((OTHER_COMMUNITY_ID, OTHER_COLOR_INDEX));
    }
    proof {
        let cs = colors@;
        let m = ranked@.len() as int;
        assert(n_other == final_count(g, OTHER_COMMUNITY_ID));
        assert forall|j: int| 0 <= j < m implies (#[trigger] cs[j]).1 == j && cs[j].0 != OTHER_COMMUNITY_ID
            && final_count(g, cs[j].0) > 0 by {
            assert(cs[j] == c0[j]);
            assert(ranked@[j].0 != OTHER_COMMUNITY_ID);
        }
        assert forall|j: int, l: int| 0 <= j < l < m implies community_before(
            ((#[trigger] cs[j]).0, final_count(g, cs[j].0) as usize),
            ((#[trigger] cs[l]).0, final_count(g, cs[l].0) as usize),
        ) by {
            assert(cs[j] == c0[j] && cs[l] == c0[l]);
            assert(ranked@[j].1 == final_count(g, ranked@[j].0));
            assert(ranked@[l].1 == final_count(g, ranked@[l].0));
            assert(community_before(ranked@[j], ranked@[l]));
        }
        assert forall|c: u32| c != OTHER_COMMUNITY_ID && #[trigger] final_count(g, c) > 0
            implies exists|j: int| 0 <= j < m && cs[j].0 == c by {
            let j = choose|j: int| 0 <= j < ranked@.len() && c0[j].0 == c;
            assert(cs[j] == c0[j]);
        }
        assert(colors_ranked(cs, g));
    }
    let mut assignments: Vec<(String, u32)> = Vec::new();
    let mut a: usize = 0;
    while a < ids.len()
        invariant
            a <= ids@.len(),
            ids@.len() == groups@.len(),
            final_ids@ == remapped(groups@),
            assignments@.len() == a,
            forall|j: int| 0 <= j < a ==> (#[trigger] assignments@[j]).0@ == ids@[j]@
                && assignments@[j].1 == remap(groups@, groups@[j]),
        decreases ids@.len() - a,
    {
        assignments.push((ids[a].clone(), final_ids[a]));
        a += 1;
    }
    LouvainPartition { assignments, color_indices: colors, sizes }
}

/// The label of a community: `Other` for the Other bucket, `Unlabeled` without keywords,
/// otherwise its first two keywords joined with a space.
pub open spec fn community_label(color_index: u32, keywords: Seq<Seq<char>>) -> Seq<char> {
    if color_index == OTHER_COLOR_INDEX {
        "Other"@
    } else if keywords.len() == 0 {
        "Unlabeled"@
    } else {
        join_with(keywords.take(if keywords.len() < 2 { keywords.len() as int } else { 2 }), " "@)
    }
}

/// The label of the community with color index `color_index` and keywords `keywords`
/// (most distinctive first).
pub fn build_community_label(color_index: u32, keywords: &[String]) -> (res: String)
    ensures
        res@ == community_label(color_index, keywords@.map_values(|k: String| k@)),
{
    if color_index == OTHER_COLOR_INDEX {
        return "Other".to_string();
    }
    if keywords.len() == 0 {
        return "Unlabeled".to_string();
    }
    let ghost kv = keywords@.map_values(|k: String| k@);
    let mut parts: Vec<Vec<char>> = Vec::new();
    let n: usize = if keywords.len() < 2 { keywords.len() } else { 2 };
    let mut k: usize = 0;
    while k < n
        invariant
            k <= n <= keywords@.len(),
            kv == keywords@.map_values(|k: String| k@),
            parts@.len() == k,
            forall|j: int| 0 <= j < k ==> (#[trigger] parts@[j])@ == kv[j],
        decreases n - k,
    {
        parts.push(chars_of(keywords[k].as_str()));
        k += 1;
    }
    assert(parts@.map_values(|w: Vec<char>| w@) =~= kv.take(n as int));
    let joined = join_parts(&parts, &chars_of(" "));
    string_of(&joined)
}

/// The assignment of a paper to a community, for one corpus.
#[derive(Debug, Clone)]
pub struct CommunityAssignment {
    pub arxiv_id: String,
    pub community_id: u32,
    pub corpus_fingerprint: String,
}

/// Whether community assignments exist for the current corpus.
#[derive(Debug, Clone, Default)]
pub struct CommunityStatus {
    /// Assignments exist for the current corpus fingerprint.
    pub ready: bool,
    pub fingerprint: Option<String>,
    /// The number of distinct communities other than the Other bucket.
    pub count: u64,
}

/// Some assignment of `a` belongs to the corpus with fingerprint `fp`.
pub open spec fn has_current(a: Seq<CommunityAssignment>, fp: Seq<char>) -> bool {
    exists|i: int| 0 <= i < a.len() && (#[trigger] a[i]).corpus_fingerprint@ == fp
}

/// The communities other than the Other bucket among the assignments of `a` for the
/// corpus with fingerprint `fp`.
pub open spec fn current_communities(a: Seq<CommunityAssignment>, fp: Seq<char>) -> Set<u32> {
    Set::new(|c: u32| c != OTHER_COMMUNITY_ID && exists|i: int| 0 <= i < a.len()
        && (#[trigger] a[i]).corpus_fingerprint@ == fp && a[i].community_id == c)
}

/// The status for the stored assignments `a` given the current corpus fingerprint `fp`:
/// ready, with the fingerprint and the number of communities, where some assignment is
/// for the current corpus; otherwise not ready.
pub fn status_for_fingerprint(fp: &str, assignments: &[CommunityAssignment]) -> (res: CommunityStatus)
    ensures
        res.ready == has_current(assignments@, fp@),
        res.ready ==> opt_view(res.fingerprint) == Some(fp@)
            && res.count == current_communities(assignments@, fp@).len(),
        !res.ready ==> res.fingerprint is None && res.count == 0,
{
    let fpv = chars_of(fp);
    let mut found = false;
    let mut distinct: Vec<u32> = Vec::new();
    let mut i: usize = 0;
    while i < assignments.len()
        invariant
            i <= assignments@.len(),
            fpv@ == fp@,
            found == exists|j: int| 0 <= j < i && (#[trigger] assignments@[j]).corpus_fingerprint@ == fp@,
            distinct@.no_duplicates(),
            forall|c: u32| distinct@.contains(c) <==> (c != OTHER_COMMUNITY_ID && exists|j: int| 0 <= j < i
                && (#[trigger] assignments@[j]).corpus_fingerprint@ == fp@ && assignments@[j].community_id == c),
        decreases assignments@.len() - i,
    {
        let a = &assignments[i];
        let matches = chars_eq(&chars_of(a.corpus_fingerprint.as_str()), &fpv);
        let c = a.community_id;
        let ghost d0 = distinct@;
        if matches {
            found = true;
            if c != OTHER_COMMUNITY_ID {
                let mut k: usize = 0;
                while k < distinct.len() && distinct[k] != c
                    invariant
                        k <= distinct@.len(),
                        forall|j: int| 0 <= j < k ==> distinct@[j] != c,
                    decreases distinct@.len() - k,
                {
                    k += 1;
                }
                if k == distinct.len() {
                    distinct.push(c);
                    assert(distinct@[d0.len() as int] == c);
                } else {
                    assert(distinct@[k as int] == c);
                }
            }
        }
        proof {
            assert(matches == (assignments@[i as int].corpus_fingerprint@ == fp@));
            assert forall|d: u32| d0.contains(d) implies distinct@.contains(d) by {
                let j = choose|j: int| 0 <= j < d0.len() && d0[j] == d;
                assert(distinct@[j] == d);
            }
            assert forall|d: u32| distinct@.contains(d) implies d0.contains(d) || (matches && d == c && c != OTHER_COMMUNITY_ID) by {
                let j = choose|j: int| 0 <= j < distinct@.len() && distinct@[j] == d;
                if j < d0.len() {
                    assert(d0[j] == d);
                }
            }
            assert forall|d: u32| distinct@.contains(d) <==> (d != OTHER_COMMUNITY_ID && exists|j: int| 0 <= j < i + 1
                && (#[trigger] assignments@[j]).corpus_fingerprint@ == fp@ && assignments@[j].community_id == d) by {
                if distinct@.contains(d) {
                    if d0.contains(d) {
                        let j = choose|j: int| 0 <= j < i
                            && (#[trigger] assignments@[j]).corpus_fingerprint@ == fp@ && assignments@[j].community_id == d;
                        assert(assignments@[j].corpus_fingerprint@ == fp@);
                    } else {
                        assert(assignments@[i as int].corpus_fingerprint@ == fp@ && assignments@[i as int].community_id == d);
                    }
                }
                if d != OTHER_COMMUNITY_ID && exists|j: int| 0 <= j < i + 1
                    && (#[trigger] assignments@[j]).corpus_fingerprint@ == fp@ && assignments@[j].community_id == d {
                    let j = choose|j: int| 0 <= j < i + 1
                        && (#[trigger] assignments@[j]).corpus_fingerprint@ == fp@ && assignments@[j].community_id == d;
                    if j < i {
                        assert(d0.contains(d));
                    } else {
                        assert(matches && d == c);
                    }
                }
            }
        }
        i += 1;
    }
    if !found {
        return CommunityStatus { ready: false, fingerprint: None, count: 0 };
    }
    proof {
        distinct@.unique_seq_to_set();
        assert(distinct@.to_set() =~= current_communities(assignments@, fp@));
    }
    CommunityStatus { ready: true, fingerprint: Some(fp.to_string()), count: distinct.len() as u64 }
}

/// The paper ids of a corpus without their version suffixes.
pub open spec fn unversioned_ids(paper_ids: Seq<String>) -> Seq<Seq<char>> {
    paper_ids.map_values(|s: String| strip_version(s@))
}

/// The status of the stored assignments `assignments` for the corpus of papers with the
/// ids `paper_ids`: not ready for an empty corpus, otherwise the status for the
/// fingerprint of the corpus's unversioned ids.
pub fn community_status(paper_ids: &[String], assignments: &[CommunityAssignment]) -> (res: CommunityStatus)
    ensures
        paper_ids@.len() == 0 ==> !res.ready && res.fingerprint is None && res.count == 0,
        paper_ids@.len() > 0 ==> ({
            let fp = fingerprint_of(unversioned_ids(paper_ids@));
            &&& res.ready == has_current(assignments@, fp)
            &&& res.ready ==> opt_view(res.fingerprint) == Some(fp)
                && res.count == current_communities(assignments@, fp).len()
            &&& !res.ready ==> res.fingerprint is None && res.count == 0
        }),
{
    if paper_ids.len() == 0 {
        return CommunityStatus { ready: false, fingerprint: None, count: 0 };
    }
    let mut ids: Vec<String> = Vec::new();
    let mut k: usize = 0;
    while k < paper_ids.len()
        invariant
            k <= paper_ids@.len(),
            strings_view(ids@) == unversioned_ids(paper_ids@).take(k as int),
        decreases paper_ids@.len() - k,
    {
        let ghost i0 = strings_view(ids@);
        ids.push(strip_version_suffix(paper_ids[k].as_str()));
        assert(strings_view(ids@) =~= i0.push(strip_version(paper_ids@[k as int]@)));
        assert(unversioned_ids(paper_ids@).take(k + 1) =~= unversioned_ids(paper_ids@).take(k as int).push(strip_version(paper_ids@[k as int]@)));
        k += 1;
    }
    assert(unversioned_ids(paper_ids@).take(k as int) =~= unversioned_ids(paper_ids@));
    let fp = corpus_fingerprint(&ids);
    status_for_fingerprint(fp.as_str(), assignments)
}

/// How many entries of `sizes` are for communities other than the Other bucket.
pub open spec fn non_other_count(sizes: Seq<(u32, usize)>) -> nat
    decreases sizes.len(),
{
    if sizes.len() == 0 {
        0
    } else {
        non_other_count(sizes.drop_last()) + if sizes.last().0 != OTHER_COMMUNITY_ID { 1nat } else { 0nat }
    }
}

/// The outcome of computing and storing the communities of a corpus.
#[derive(Debug, Clone)]
pub enum ComputeOutcome {
    Computed {
        n_communities: usize,
        n_papers: usize,
        fingerprint: String,
    },
    /// The graph was too small to partition.
    Skipped,
}

/// The outcome for the partition `partition` of a corpus of `n_papers` papers with the
/// fingerprint `fingerprint`: skipped where nothing was assigned, otherwise the number
/// of communities other than the Other bucket.
pub fn compute_outcome(partition: &LouvainPartition, n_papers: usize, fingerprint: String) -> (res: ComputeOutcome)
    ensures
        partition.assignments@.len() == 0 ==> res is Skipped,
        partition.assignments@.len() > 0 ==> (res matches ComputeOutcome::Computed { n_communities, n_papers: n, fingerprint: f } && {
            &&& n == n_papers
            &&& f == fingerprint
            &&& n_communities == non_other_count(partition.sizes@)
        }),
{
    if partition.assignments.len() == 0 {
        return ComputeOutcome::Skipped;
    }
    let mut n: usize = 0;
    let mut k: usize = 0;
    while k < partition.sizes.len()
        invariant
            k <= partition.sizes@.len(),
            n == non_other_count(partition.sizes@.take(k as int)),
            n <= k,
        decreases partition.sizes@.len() - k,
    {
        assert(partition.sizes@.take(k + 1).drop_last() =~= partition.sizes@.take(k as int));
        if partition.sizes[k].0 != OTHER_COMMUNITY_ID {
            n = n + 1;
        }
        k += 1;
    }
    assert(partition.sizes@.take(k as int) =~= partition.sizes@);
    ComputeOutcome::Computed { n_communities: n, n_papers, fingerprint }
}

proof fn lemma_count_remapped(g: Seq<u32>, s: Seq<u32>, c: u32)
    requires
        c != OTHER_COMMUNITY_ID,
    ensures
        count_of(s.map_values(|x: u32| remap(g, x)), c) == if count_of(g, c) >= MIN_COMMUNITY_SIZE {
            count_of(s, c)
        } else {
            0
        },
    decreases s.len(),
{
    if s.len() > 0 {
        lemma_count_remapped(g, s.drop_last(), c);
        assert(s.map_values(|x: u32| remap(g, x)).drop_last() =~= s.drop_last().map_values(|x: u32| remap(g, x)));
    } else {
        assert(s.map_values(|x: u32| remap(g, x)) =~= Seq::<u32>::empty());
    }
}

/// After small communities are merged into the Other bucket, every other community that
/// has members has at least `MIN_COMMUNITY_SIZE` of them, and exactly the members it had.
pub proof fn lemma_no_small_community(groups: Seq<u32>, c: u32)
    requires
        c != OTHER_COMMUNITY_ID,
        final_count(groups, c) > 0,
    ensures
        final_count(groups, c) == count_of(groups, c),
        final_count(groups, c) >= MIN_COMMUNITY_SIZE,
{
    lemma_count_remapped(groups, groups, c);
}

/// The color indices follow community size: a community with a smaller color index is at
/// least as large.
pub proof fn lemma_colors_by_size(colors: Seq<(u32, u32)>, groups: Seq<u32>, k: int, l: int)
    requires
        colors_ranked(colors, groups),
        0 <= k < l < colors.len(),
        colors[l].0 != OTHER_COMMUNITY_ID,
        groups.len() <= usize::MAX,
    ensures
        colors[k].1 < colors[l].1,
        final_count(groups, colors[k].0) >= final_count(groups, colors[l].0),
{
    let has_other = final_count(groups, OTHER_COMMUNITY_ID) > 0;
    let m = if has_other { colors.len() - 1 } else { colors.len() as int };
    assert(l < m);
    assert(community_before(
        (colors[k].0, final_count(groups, colors[k].0) as usize),
        (colors[l].0, final_count(groups, colors[l].0) as usize),
    ));
    lemma_count_of_len(remapped(groups), colors[k].0);
    lemma_count_of_len(remapped(groups), colors[l].0);
    assert(remapped(groups).len() == groups.len());
}

/// The community that the assignments `a` give the paper with unversioned id `id`: the
/// last assignment whose unversioned id is `id`.
pub open spec fn community_by_id(a: Seq<CommunityAssignment>, id: Seq<char>) -> Option<u32>
    decreases a.len(),
{
    if a.len() == 0 {
        None
    } else if strip_version(a.last().arxiv_id@) == id {
        Some(a.last().community_id)
    } else {
        community_by_id(a.drop_last(), id)
    }
}

/// The citation `e` joins two papers of the same community.
pub open spec fn intra_edge(a: Seq<CommunityAssignment>, e: (String, String)) -> bool {
    let f = community_by_id(a, strip_version(e.0@));
    let t = community_by_id(a, strip_version(e.1@));
    f is Some && f == t
}

/// The intra-community degree of the paper `id`: how many citations within a community
/// it is an endpoint of (a citation of a paper to itself counts twice).
pub open spec fn intra_degree(a: Seq<CommunityAssignment>, edges: Seq<(String, String)>, id: Seq<char>) -> nat
    decreases edges.len(),
{
    if edges.len() == 0 {
        0
    } else {
        let e = edges.last();
        intra_degree(a, edges.drop_last(), id) + if intra_edge(a, e) {
            (if strip_version(e.0@) == id { 1nat } else { 0nat }) + (if strip_version(e.1@) == id { 1nat } else { 0nat })
        } else {
            0nat
        }
    }
}

/// The community of the paper `id` by the assignments.
fn community_by_id_exec(a: &[CommunityAssignment], id: &Vec<char>) -> (res: Option<u32>)
    ensures
        res == community_by_id(a@, id@),
{
    let mut found: Option<u32> = None;
    let mut k: usize = 0;
    while k < a.len()
        invariant
            k <= a@.len(),
            found == community_by_id(a@.take(k as int), id@),
        decreases a@.len() - k,
    {
        assert(a@.take(k + 1).drop_last() =~= a@.take(k as int));
        let s = strip_version_suffix(a[k].arxiv_id.as_str());
        if chars_eq(&chars_of(s.as_str()), id) {
            found = Some(a[k].community_id);
        }
        k += 1;
    }
    assert(a@.take(k as int) =~= a@);
    found
}

/// Paper `id` is an endpoint of some citation within a community.
pub open spec fn has_intra_edge(a: Seq<CommunityAssignment>, edges: Seq<(String, String)>, id: Seq<char>) -> bool {
    exists|j: int| 0 <= j < edges.len() && intra_edge(a, #[trigger] edges[j])
        && (strip_version(edges[j].0@) == id || strip_version(edges[j].1@) == id)
}

proof fn lemma_intra_degree(a: Seq<CommunityAssignment>, edges: Seq<(String, String)>, id: Seq<char>)
    ensures
        intra_degree(a, edges, id) <= 2 * edges.len(),
        intra_degree(a, edges, id) > 0 <==> has_intra_edge(a, edges, id),
    decreases edges.len(),
{
    if edges.len() > 0 {
        let d = edges.drop_last();
        lemma_intra_degree(a, d, id);
        if has_intra_edge(a, d, id) {
            let j = choose|j: int| 0 <= j < d.len() && intra_edge(a, #[trigger] d[j])
                && (strip_version(d[j].0@) == id || strip_version(d[j].1@) == id);
            assert(edges[j] == d[j]);
        }
        if has_intra_edge(a, edges, id) {
            let j = choose|j: int| 0 <= j < edges.len() && intra_edge(a, #[trigger] edges[j])
                && (strip_version(edges[j].0@) == id || strip_version(edges[j].1@) == id);
            if j < d.len() {
                assert(d[j] == edges[j]);
            }
        }
    }
}

/// The intra-community degrees of the papers: each paper that is an endpoint of a
/// citation within a community, once, with its intra-community degree. Communities are
/// those of the assignments, by unversioned id.
pub fn intra_community_degrees(assignments: &[CommunityAssignment], edges: &[(String, String)]) -> (res: Vec<(String, usize)>)
    requires
        edges@.len() <= usize::MAX / 2,
    ensures
        forall|k: int, l: int| 0 <= k < l < res@.len() ==> (#[trigger] res@[k]).0@ != (#[trigger] res@[l]).0@,
        forall|k: int| 0 <= k < res@.len() ==> (#[trigger] res@[k]).1 == intra_degree(assignments@, edges@, res@[k].0@)
            && res@[k].1 > 0,
        forall|w: Seq<char>| intra_degree(assignments@, edges@, w) > 0 ==> exists|k: int| 0 <= k < res@.len()
            && (#[trigger] res@[k]).0@ == w,
{
    let ghost av = assignments@;
    let ghost ev = edges@;
    // the unversioned endpoints and whether each edge lies within a community
    let mut ends: Vec<(Vec<char>, Vec<char>, bool)> = Vec::new();
    let mut i: usize = 0;
    while i < edges.len()
        invariant
            i <= edges@.len(),
            ends@.len() == i,
            forall|j: int| 0 <= j < i ==> (#[trigger] ends@[j]).0@ == strip_version(edges@[j].0@)
                && ends@[j].1@ == strip_version(edges@[j].1@)
                && ends@[j].2 == intra_edge(assignments@, edges@[j]),
        decreases edges@.len() - i,
    {
        let f = chars_of(strip_version_suffix(edges[i].0.as_str()).as_str());
        let t = chars_of(strip_version_suffix(edges[i].1.as_str()).as_str());
        let fc = community_by_id_exec(assignments, &f);
        let tc = community_by_id_exec(assignments, &t);
        let within = match (fc, tc) {
            (Some(x), Some(y)) => x == y,
            _ => false,
        };
        ends.push((f, t, within));
        i += 1;
    }
    // the distinct endpoints of edges within communities
    let mut ids: Vec<Vec<char>> = Vec::new();
    let mut j: usize = 0;
    while j < ends.len()
        invariant
            j <= ends@.len() == edges@.len(),
            forall|q: int| 0 <= q < ends@.len() ==> (#[trigger] ends@[q]).0@ == strip_version(edges@[q].0@)
                && ends@[q].1@ == strip_version(edges@[q].1@)
                && ends@[q].2 == intra_edge(assignments@, edges@[q]),
            forall|k: int, l: int| 0 <= k < l < ids@.len() ==> (#[trigger] ids@[k])@ != (#[trigger] ids@[l])@,
            forall|k: int| 0 <= k < ids@.len() ==> has_intra_edge(assignments@, edges@, (#[trigger] ids@[k])@),
            forall|w: Seq<char>| has_intra_edge(assignments@, edges@.take(j as int), w) ==> #[trigger] word_views(ids@).contains(w),
        decreases ends@.len() - j,
    {
        let ghost ih = ids@;
        if ends[j].2 {
            let ghost i0 = ids@;
            assert(has_intra_edge(assignments@, edges@, ends@[j as int].0@));
            assert(has_intra_edge(assignments@, edges@, ends@[j as int].1@));
            if !holds_chars(&ids, &ends[j].0) {
                ids.push(ends[j].0.clone());
                proof {
                    lemma_push_distinct(i0, ids@);
                    assert(forall|q: int| 0 <= q < i0.len() ==> ids@[q] == i0[q]);
                    assert(word_views(ids@)[ids@.len() - 1] == ends@[j as int].0@);
                }
            }
            let ghost i1 = ids@;
            proof {
                assert(word_views(i1).contains(ends@[j as int].0@));
                assert forall|w: Seq<char>| word_views(i0).contains(w) implies word_views(i1).contains(w) by {
                    let q = choose|q: int| 0 <= q < word_views(i0).len() && word_views(i0)[q] == w;
                    assert(word_views(i1)[q] == w);
                }
            }
            if !holds_chars(&ids, &ends[j].1) {
                ids.push(ends[j].1.clone());
                proof {
                    lemma_push_distinct(i1, ids@);
                    assert(forall|q: int| 0 <= q < i1.len() ==> ids@[q] == i1[q]);
                    assert(word_views(ids@)[ids@.len() - 1] == ends@[j as int].1@);
                }
            }
            proof {
                assert(word_views(ids@).contains(ends@[j as int].1@));
                assert forall|w: Seq<char>| word_views(i1).contains(w) implies word_views(ids@).contains(w) by {
                    let q = choose|q: int| 0 <= q < word_views(i1).len() && word_views(i1)[q] == w;
                    assert(word_views(ids@)[q] == w);
                }
                assert(word_views(ids@).contains(ends@[j as int].0@));
            }
        }
        proof {
            assert forall|w: Seq<char>| has_intra_edge(assignments@, edges@.take(j + 1), w) implies #[trigger] word_views(ids@).contains(w) by {
                let q = choose|q: int| 0 <= q < j + 1 && intra_edge(assignments@, #[trigger] edges@.take(j + 1)[q])
                    && (strip_version(edges@.take(j + 1)[q].0@) == w || strip_version(edges@.take(j + 1)[q].1@) == w);
                if q < j {
                    assert(edges@.take(j as int)[q] == edges@.take(j + 1)[q]);
                    assert(has_intra_edge(assignments@, edges@.take(j as int), w));
                    assert(word_views(ih).contains(w));
                    let r = choose|r: int| 0 <= r < word_views(ih).len() && word_views(ih)[r] == w;
                    assert(ids@.len() >= ih.len());
                    assert(ids@[r] == ih[r]);
                    assert(word_views(ids@)[r] == w);
                } else {
                    assert(edges@.take(j + 1)[q] == edges@[j as int]);
                    assert(ends@[j as int].2);
                }
            }
        }
        j += 1;
    }
    assert(edges@.take(j as int) =~= edges@);
    // the degree of each
    let mut res: Vec<(String, usize)> = Vec::new();
    let mut k: usize = 0;
    while k < ids.len()
        invariant
            k <= ids@.len(),
            ends@.len() == edges@.len() <= usize::MAX / 2,
            forall|q: int| 0 <= q < ends@.len() ==> (#[trigger] ends@[q]).0@ == strip_version(edges@[q].0@)
                && ends@[q].1@ == strip_version(edges@[q].1@)
                && ends@[q].2 == intra_edge(assignments@, edges@[q]),
            forall|x: int, y: int| 0 <= x < y < ids@.len() ==> (#[trigger] ids@[x])@ != (#[trigger] ids@[y])@,
            forall|x: int| 0 <= x < ids@.len() ==> has_intra_edge(assignments@, edges@, (#[trigger] ids@[x])@),
            res@.len() == k,
            forall|q: int| 0 <= q < k ==> (#[trigger] res@[q]).0@ == ids@[q]@
                && res@[q].1 == intra_degree(assignments@, edges@, ids@[q]@),
        decreases ids@.len() - k,
    {
        let target = &ids[k];
        let mut count: usize = 0;
        let mut e: usize = 0;
        while e < ends.len()
            invariant
                e <= ends@.len() == edges@.len() <= usize::MAX / 2,
                forall|q: int| 0 <= q < ends@.len() ==> (#[trigger] ends@[q]).0@ == strip_version(edges@[q].0@)
                    && ends@[q].1@ == strip_version(edges@[q].1@)
                    && ends@[q].2 == intra_edge(assignments@, edges@[q]),
                count == intra_degree(assignments@, edges@.take(e as int), target@),
            decreases ends@.len() - e,
        {
            proof {
                lemma_intra_degree(assignments@, edges@.take(e as int), target@);
                assert(edges@.take(e + 1).drop_last() =~= edges@.take(e as int));
            }
            if ends[e].2 {
                if chars_eq(&ends[e].0, target) {
                    count += 1;
                }
                if chars_eq(&ends[e].1, target) {
                    count += 1;
                }
            }
            e += 1;
        }
        assert(edges@.take(e as int) =~= edges@);
        res.push((string_of(target), count));
        k += 1;
    }
    proof {
        assert forall|q: int| 0 <= q < res@.len() implies (#[trigger] res@[q]).1 == intra_degree(assignments@, edges@, res@[q].0@)
            && res@[q].1 > 0 by {
            lemma_intra_degree(assignments@, edges@, ids@[q]@);
        }
        assert forall|w: Seq<char>| intra_degree(assignments@, edges@, w) > 0 implies exists|q: int| 0 <= q < res@.len()
            && (#[trigger] res@[q]).0@ == w by {
            lemma_intra_degree(assignments@, edges@, w);
            assert(word_views(ids@).contains(w));
            let q = choose|q: int| 0 <= q < word_views(ids@).len() && word_views(ids@)[q] == w;
            assert(res@[q].0@ == w);
        }
    }
    res
}

proof fn lemma_push_distinct(before: Seq<Vec<char>>, after: Seq<Vec<char>>)
    requires
        after.len() == before.len() + 1,
        forall|k: int| 0 <= k < before.len() ==> after[k] == before[k],
        forall|k: int, l: int| 0 <= k < l < before.len() ==> (#[trigger] before[k])@ != (#[trigger] before[l])@,
        !word_views(before).contains(after[before.len() as int]@),
    ensures
        forall|k: int, l: int| 0 <= k < l < after.len() ==> (#[trigger] after[k])@ != (#[trigger] after[l])@,
{
    assert forall|k: int, l: int| 0 <= k < l < after.len() implies (#[trigger] after[k])@ != (#[trigger] after[l])@ by {
        if l == before.len() {
            assert(word_views(before)[k] == before[k]@);
        }
    }
}

} // verus!
