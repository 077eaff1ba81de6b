//! The citation graph that community detection runs on: one node per unversioned paper
//! id, the citation edges between known papers, the order of the nodes by id, and the
//! undirected edge set handed to the clustering.
use vstd::prelude::*;
use crate::aggregation::holds_chars;
use crate::contradiction::strings_view;
use crate::ids::{strip_version, strip_version_suffix};
use crate::order::{lemma_lex_irreflexive, lemma_lex_total, lemma_lex_transitive, lex_less, lex_lt};
use crate::text::{chars_eq, chars_of};
use crate::words::word_views;

verus! {

/// The unversioned ids of `ids`.
pub open spec fn unversioned(ids: Seq<String>) -> Seq<Seq<char>> {
    ids.map_values(|s: String| strip_version(s@))
}

/// Paper `i` is the first with its unversioned id.
pub open spec fn first_of_its_id(ids: Seq<String>, i: int) -> bool {
    forall|j: int| 0 <= j < i ==> strip_version(#[trigger] ids[j]@) != strip_version(ids[i]@)
}

/// The papers that become nodes: the first paper with each unversioned id, by index, in
/// order; and the unversioned id of each node.
pub fn node_plan(paper_ids: &[String]) -> (res: (Vec<usize>, Vec<String>))
    ensures
        res.0@.len() == res.1@.len(),
        forall|k: int, l: int| 0 <= k < l < res.0@.len() ==> (#[trigger] res.0@[k]) < (#[trigger] res.0@[l]),
        forall|k: int| 0 <= k < res.0@.len() ==> (#[trigger] res.0@[k]) < paper_ids@.len()
            && first_of_its_id(paper_ids@, res.0@[k] as int)
            && res.1@[k]@ == strip_version(paper_ids@[res.0@[k] as int]@),
        forall|q: int| #![trigger first_of_its_id(paper_ids@, q)] 0 <= q < paper_ids@.len() && first_of_its_id(paper_ids@, q)
            ==> exists|k: int| 0 <= k < res.0@.len() && #[trigger] res.0@[k] == q,
{
    let mut nodes: Vec<usize> = Vec::new();
    let mut node_ids: Vec<String> = Vec::new();
    let mut seen: Vec<Vec<char>> = Vec::new();
    let mut i: usize = 0;
    while i < paper_ids.len()
        invariant
            i <= paper_ids@.len(),
            nodes@.len() == node_ids@.len(),
            word_views(seen@) == strings_view(node_ids@),
            forall|k: int, l: int| 0 <= k < l < nodes@.len() ==> (#[trigger] nodes@[k]) < (#[trigger] nodes@[l]),
            forall|k: int| 0 <= k < nodes@.len() ==> (#[trigger] nodes@[k]) < i
                && first_of_its_id(paper_ids@, nodes@[k] as int)
                && node_ids@[k]@ == strip_version(paper_ids@[nodes@[k] as int]@),
            forall|q: int| 0 <= q < i && first_of_its_id(paper_ids@, q) ==> exists|k: int|
                0 <= k < nodes@.len() && #[trigger] nodes@[k] == q,
            forall|j: int| 0 <= j < i ==> word_views(seen@).contains(strip_version(#[trigger] paper_ids@[j]@)),
            forall|w: Seq<char>| word_views(seen@).contains(w) ==> exists|j: int| 0 <= j < i
                && strip_version(#[trigger] paper_ids@[j]@) == w,
        decreases paper_ids@.len() - i,
    {
        let id = strip_version_suffix(paper_ids[i].as_str());
        let idv = chars_of(id.as_str());
        let ghost s0 = word_views(seen@);
        if !holds_chars(&seen, &idv) {
            proof {
                assert forall|j: int| 0 <= j < i implies strip_version(#[trigger] paper_ids@[j]@) != strip_version(paper_ids@[i as int]@) by {
                    assert(s0.contains(strip_version(paper_ids@[j]@)));
                }
            }
            let ghost n0 = nodes@;
            nodes.push(i);
            node_ids.push(id);
            seen.push(idv);
            assert(word_views(seen@) =~= s0.push(strip_version(paper_ids@[i as int]@)));
            assert(strings_view(node_ids@) =~= word_views(seen@));
            assert forall|q: int| 0 <= q < i + 1 && first_of_its_id(paper_ids@, q) implies exists|k: int|
                0 <= k < nodes@.len() && #[trigger] nodes@[k] == q by {
                if q < i {
                    let k = choose|k: int| 0 <= k < n0.len() && #[trigger] n0[k] == q;
                    assert(nodes@[k] == q);
                } else {
                    assert(nodes@[n0.len() as int] == q);
                }
            }
        } else {
            proof {
                let w = strip_version(paper_ids@[i as int]@);
                let j = choose|j: int| 0 <= j < i && strip_version(#[trigger] paper_ids@[j]@) == w;
                assert(!first_of_its_id(paper_ids@, i as int));
            }
        }
        proof {
            let sv = word_views(seen@);
            assert forall|j: int| 0 <= j < i + 1 implies sv.contains(strip_version(#[trigger] paper_ids@[j]@)) by {
                if j < i {
                    let w = strip_version(paper_ids@[j]@);
                    assert(s0.contains(w));
                    let q = choose|q: int| 0 <= q < s0.len() && s0[q] == w;
                    assert(sv[q] == w);
                } else {
                    if !s0.contains(strip_version(paper_ids@[i as int]@)) {
                        assert(sv[sv.len() - 1] == strip_version(paper_ids@[i as int]@));
                    } else {
                        let q = choose|q: int| 0 <= q < s0.len() && s0[q] == strip_version(paper_ids@[i as int]@);
                        assert(sv[q] == s0[q]);
                    }
                }
            }
            assert forall|w: Seq<char>| sv.contains(w) implies exists|j: int| 0 <= j < i + 1
                && strip_version(#[trigger] paper_ids@[j]@) == w by {
                let q = choose|q: int| 0 <= q < sv.len() && sv[q] == w;
                if q < s0.len() {
                    assert(s0[q] == w);
                    assert(s0.contains(w));
                } else {
                    assert(strip_version(paper_ids@[i as int]@) == w);
                }
            }
        }
        i += 1;
    }
    let res = (nodes, node_ids);
    assert forall|q: int| #![trigger first_of_its_id(paper_ids@, q)] 0 <= q < paper_ids@.len() && first_of_its_id(paper_ids@, q)
        implies exists|k: int| 0 <= k < res.0@.len() && #[trigger] res.0@[k] == q by {
        assert(q < i);
        let k = choose|k: int| 0 <= k < res.0@.len() && #[trigger] res.0@[k] == q;
        assert(res.0@[k] == q);
    }
    res
}

/// The index of `w` in `ids`, where it is there.
pub open spec fn position_of(ids: Seq<Seq<char>>, w: Seq<char>) -> Option<int> {
    if exists|k: int| 0 <= k < ids.len() && ids[k] == w {
        Some(choose|k: int| 0 <= k < ids.len() && ids[k] == w)
    } else {
        None
    }
}

/// The edges between nodes: each citation edge whose unversioned endpoints are both node
/// ids, as a pair of node indices, in order.
pub open spec fn node_edges(ids: Seq<Seq<char>>, edges: Seq<(String, String)>) -> Seq<(int, int)>
    decreases edges.len(),
{
    if edges.len() == 0 {
        Seq::empty()
    } else {
        let e = edges.last();
        node_edges(ids, edges.drop_last()) + match (position_of(ids, strip_version(e.0@)), position_of(ids, strip_version(e.1@))) {
            (Some(a), Some(b)) => seq![(a, b)],
            _ => Seq::empty(),
        }
    }
}

/// The index of `w` among the distinct ids `ids`.
fn find_node(ids: &Vec<Vec<char>>, w: &Vec<char>) -> (res: Option<usize>)
    requires
        forall|k: int, l: int| 0 <= k < l < ids@.len() ==> (#[trigger] ids@[k])@ != (#[trigger] ids@[l])@,
    ensures
        match res {
            Some(k) => position_of(word_views(ids@), w@) == Some(k as int),
            None => position_of(word_views(ids@), w@) is None,
        },
{
    let ghost v = word_views(ids@);
    let mut k: usize = 0;
    while k < ids.len()
        invariant
            k <= ids@.len(),
            v == word_views(ids@),
            forall|a: int, b: int| 0 <= a < b < ids@.len() ==> (#[trigger] ids@[a])@ != (#[trigger] ids@[b])@,
            forall|j: int| 0 <= j < k ==> v[j] != w@,
        decreases ids@.len() - k,
    {
        if chars_eq(&ids[k], w) {
            proof {
                assert(v[k as int] == w@);
                let c = choose|c: int| 0 <= c < v.len() && v[c] == w@;
                assert(v[c] == ids@[c]@);
                if c < k {
                    assert(ids@[c]@ != ids@[k as int]@);
                } else if c > k {
                    assert(ids@[k as int]@ != ids@[c]@);
                }
            }
            return Some(k);
        }
        k += 1;
    }
    None
}

/// The citation edges between nodes with the unversioned ids `node_ids` (distinct), as
/// pairs of node indices: edges whose endpoints are not both nodes are dropped.
pub fn edge_plan(node_ids: &[String], edges: &[(String, String)]) -> (res: Vec<(usize, usize)>)
    requires
        forall|k: int, l: int| 0 <= k < l < node_ids@.len() ==> (#[trigger] node_ids@[k])@ != (#[trigger] node_ids@[l])@,
    ensures
        res@.map_values(|e: (usize, usize)| (e.0 as int, e.1 as int)) == node_edges(strings_view(node_ids@), edges@),
{
    let mut ids: Vec<Vec<char>> = Vec::new();
    let mut i: usize = 0;
    while i < node_ids.len()
        invariant
            i <= node_ids@.len(),
            ids@.len() == i,
            forall|k: int| 0 <= k < i ==> (#[trigger] ids@[k])@ == node_ids@[k]@,
        decreases node_ids@.len() - i,
    {
        ids.push(chars_of(node_ids[i].as_str()));
        i += 1;
    }
    assert(word_views(ids@) =~= strings_view(node_ids@));
    let mut res: Vec<(usize, usize)> = Vec::new();
    let mut k: usize = 0;
    while k < edges.len()
        invariant
            k <= edges@.len(),
            word_views(ids@) == strings_view(node_ids@),
            forall|a: int, b: int| 0 <= a < b < ids@.len() ==> (#[trigger] ids@[a])@ != (#[trigger] ids@[b])@,
            res@.map_values(|e: (usize, usize)| (e.0 as int, e.1 as int)) == node_edges(strings_view(node_ids@), edges@.take(k as int)),
        decreases edges@.len() - k,
    {
        let ghost r0 = res@;
        assert(edges@.take(k + 1).drop_last() =~= edges@.take(k as int));
        let from = chars_of(strip_version_suffix(edges[k].0.as_str()).as_str());
        let to = chars_of(strip_version_suffix(edges[k].1.as_str()).as_str());
        match (find_node(&ids, &from), find_node(&ids, &to)) {
            (Some(a), Some(b)) => {
                res.push((a, b));
                assert(res@.map_values(|e: (usize, usize)| (e.0 as int, e.1 as int)) =~= r0.map_values(|e: (usize, usize)| (e.0 as int, e.1 as int))
                    + seq![(a as int, b as int)]);
            },
            _ => {
                assert(node_edges(strings_view(node_ids@), edges@.take(k + 1)) =~= node_edges(strings_view(node_ids@), edges@.take(k as int)));
            },
        }
        k += 1;
    }
    assert(edges@.take(k as int) =~= edges@);
    res
}

/// How many ids of `ids`, other than the one at index `k`, come before `key` in the order
/// by id, ties broken by index.
pub open spec fn rank_count(ids: Seq<Seq<char>>, key: Seq<char>, k: int) -> nat
    decreases ids.len(),
{
    if ids.len() == 0 {
        0
    } else {
        let j = ids.len() - 1;
        rank_count(ids.drop_last(), key, k) + if j != k && (lex_lt(ids[j], key) || (ids[j] == key && j < k)) {
            1nat
        } else {
            0nat
        }
    }
}

/// The position of node `k` when the nodes are sorted by id, ties keeping the node order.
pub open spec fn sorted_position(ids: Seq<Seq<char>>, k: int) -> nat {
    rank_count(ids, ids[k], k)
}

/// The position of each node when the nodes are sorted by their ids (ties keep the node
/// order).
pub fn sorted_positions(ids: &[String]) -> (res: Vec<usize>)
    ensures
        res@.len() == ids@.len(),
        forall|k: int| 0 <= k < ids@.len() ==> #[trigger] res@[k] == sorted_position(strings_view(ids@), k),
{
    let mut cv: Vec<Vec<char>> = Vec::new();
    let mut i: usize = 0;
    while i < ids.len()
        invariant
            i <= ids@.len(),
            cv@.len() == i,
            forall|k: int| 0 <= k < i ==> (#[trigger] cv@[k])@ == ids@[k]@,
        decreases ids@.len() - i,
    {
        cv.push(chars_of(ids[i].as_str()));
        i += 1;
    }
    let ghost v = strings_view(ids@);
    assert(word_views(cv@) =~= v);
    let mut res: Vec<usize> = Vec::new();
    let mut k: usize = 0;
    while k < cv.len()
        invariant
            k <= cv@.len() == ids@.len(),
            v == strings_view(ids@),
            word_views(cv@) == v,
            res@.len() == k,
            forall|q: int| 0 <= q < k ==> #[trigger] res@[q] == sorted_position(v, q),
        decreases cv@.len() - k,
    {
        let mut count: usize = 0;
        let mut j: usize = 0;
        while j < cv.len()
            invariant
                j <= cv@.len() == ids@.len(),
                k < cv@.len(),
                word_views(cv@) == v,
                count == rank_count(v.take(j as int), v[k as int], k as int),
                count <= j,
            decreases cv@.len() - j,
        {
            assert(v.take(j + 1).drop_last() =~= v.take(j as int));
            assert(v.take(j + 1)[j as int] == cv@[j as int]@);
            assert(cv@[k as int]@ == v[k as int]);
            if j != k && (lex_less(&cv[j], &cv[k]) || (chars_eq(&cv[j], &cv[k]) && j < k)) {
                count += 1;
            }
            j += 1;
        }
        assert(v.take(j as int) =~= v);
        res.push(count);
        k += 1;
    }
    res
}

/// The edges of `edges` with their endpoints ordered (smaller first), each once, in order
/// of first appearance.
pub fn undirected_edges(edges: &[(u32, u32)]) -> (res: Vec<(u32, u32)>)
    ensures
        forall|k: int| 0 <= k < res@.len() ==> (#[trigger] res@[k]).0 <= res@[k].1,
        forall|k: int, l: int| 0 <= k < l < res@.len() ==> (#[trigger] res@[k]) != (#[trigger] res@[l]),
        forall|p: (u32, u32)| res@.contains(p) <==> exists|i: int| 0 <= i < edges@.len()
            && #[trigger] undirected(edges@[i]) == p,
{
    let mut res: Vec<(u32, u32)> = Vec::new();
    let mut i: usize = 0;
    while i < edges.len()
        invariant
            i <= edges@.len(),
            forall|k: int| 0 <= k < res@.len() ==> (#[trigger] res@[k]).0 <= res@[k].1,
            forall|k: int, l: int| 0 <= k < l < res@.len() ==> (#[trigger] res@[k]) != (#[trigger] res@[l]),
            forall|p: (u32, u32)| res@.contains(p) <==> exists|q: int| 0 <= q < i
                && #[trigger] undirected(edges@[q]) == p,
        decreases edges@.len() - i,
    {
        let (a, b) = edges[i];
        let pair = if a < b { (a, b) } else { (b, a) };
        assert(pair == undirected(edges@[i as int]));
        let mut k: usize = 0;
        while k < res.len() && !(res[k].0 == pair.0 && res[k].1 == pair.1)
            invariant
                k <= res@.len(),
                forall|j: int| 0 <= j < k ==> res@[j] != pair,
            decreases res@.len() - k,
        {
            k += 1;
        }
        let ghost r0 = res@;
        if k == res.len() {
            res.push(pair);
        }
        proof {
            assert forall|p: (u32, u32)| res@.contains(p) <==> exists|q: int| 0 <= q < i + 1
                && #[trigger] undirected(edges@[q]) == p by {
                if res@.contains(p) && !r0.contains(p) {
                    let c = choose|c: int| 0 <= c < res@.len() && res@[c] == p;
                    if c < r0.len() {
                        assert(r0[c] == p);
                    }
                    assert(undirected(edges@[i as int]) == p);
                }
                if r0.contains(p) {
                    let c = choose|c: int| 0 <= c < r0.len() && r0[c] == p;
                    assert(res@[c] == p);
                }
                if exists|q: int| 0 <= q < i + 1 && #[trigger] undirected(edges@[q]) == p {
                    let q = choose|q: int| 0 <= q < i + 1 && #[trigger] undirected(edges@[q]) == p;
                    if q == i {
                        if k < r0.len() {
                            assert(res@[k as int] == p);
                        } else {
                            assert(res@[r0.len() as int] == p);
                        }
                    }
                }
            }
        }
        i += 1;
    }
    res
}

/// The edge `e` with its endpoints ordered, smaller first.
pub open spec fn undirected(e: (u32, u32)) -> (u32, u32) {
    if e.0 < e.1 { e } else { (e.1, e.0) }
}


/// The degree of node `v` among `n` nodes: the number of edge endpoints at `v`, counting
/// only edges whose two endpoints are both nodes (a loop counts twice).
pub open spec fn degree_of(n: int, edges: Seq<(usize, usize)>, v: int) -> nat
    decreases edges.len(),
{
    if edges.len() == 0 {
        0
    } else {
        let e = edges.last();
        let prev = degree_of(n, edges.drop_last(), v);
        if e.0 < n && e.1 < n {
            prev + (if e.0 == v { 1nat } else { 0nat }) + (if e.1 == v { 1nat } else { 0nat })
        } else {
            prev
        }
    }
}

proof fn lemma_degree_bound(n: int, edges: Seq<(usize, usize)>, v: int)
    ensures
        degree_of(n, edges, v) <= 2 * edges.len(),
    decreases edges.len(),
{
    if edges.len() > 0 {
        lemma_degree_bound(n, edges.drop_last(), v);
    }
}

/// The degree of each of the `n` nodes of the layout graph, over the edges whose two
/// endpoints are nodes.
pub fn edge_degrees(n: usize, edges: &[(usize, usize)]) -> (res: Vec<u32>)
    requires
        2 * edges@.len() <= u32::MAX,
    ensures
        res@.len() == n,
        forall|v: int| 0 <= v < n ==> res@[v] == degree_of(n as int, edges@, v),
{
    let mut degree: Vec<u32> = Vec::new();
    let mut v: usize = 0;
    while v < n
        invariant
            v <= n,
            degree@.len() == v,
            forall|w: int| 0 <= w < v ==> degree@[w] == 0,
        decreases n - v,
    {
        degree.push(0);
        v += 1;
    }
    let mut k: usize = 0;
    while k < edges.len()
        invariant
            k <= edges@.len(),
            2 * edges@.len() <= u32::MAX,
            degree@.len() == n,
            forall|w: int| 0 <= w < n ==> degree@[w] == degree_of(n as int, edges@.take(k as int), w),
        decreases edges@.len() - k,
    {
        let (a, b) = edges[k];
        assert(edges@.take(k + 1).drop_last() == edges@.take(k as int));
        proof {
            lemma_degree_bound(n as int, edges@.take(k as int), a as int);
            lemma_degree_bound(n as int, edges@.take(k as int), b as int);
        }
        if a < n && b < n {
            let da = degree[a];
            degree.set(a, da + 1);
            let db = degree[b];
            degree.set(b, db + 1);
        }
        k += 1;
    }
    assert(edges@.take(edges@.len() as int) == edges@);
    degree
}


/// Node `j` comes before node `k` in the order by id, ties broken by index.
pub open spec fn comes_before(ids: Seq<Seq<char>>, j: int, k: int) -> bool {
    j != k && (lex_lt(ids[j], ids[k]) || (ids[j] == ids[k] && j < k))
}

proof fn lemma_before_transitive(ids: Seq<Seq<char>>, j: int, k: int, l: int)
    requires
        comes_before(ids, j, k),
        comes_before(ids, k, l),
    ensures
        comes_before(ids, j, l),
{
    if lex_lt(ids[j], ids[k]) && lex_lt(ids[k], ids[l]) {
        lemma_lex_transitive(ids[j], ids[k], ids[l]);
    }
    if j == l {
        lemma_lex_total(ids[j], ids[k]);
        lemma_lex_irreflexive(ids[j]);
    }
}

proof fn lemma_rank_count_take(ids: Seq<Seq<char>>, m: int, k: int, l: int)
    requires
        0 <= m <= ids.len(),
        0 <= k < ids.len(),
        0 <= l < ids.len(),
        comes_before(ids, k, l),
    ensures
        rank_count(ids.take(m), ids[k], k) + (if k < m { 1int } else { 0int }) <= rank_count(ids.take(m), ids[l], l),
    decreases m,
{
    if m > 0 {
        let s = ids.take(m);
        assert(s.drop_last() == ids.take(m - 1));
        lemma_rank_count_take(ids, m - 1, k, l);
        let j = m - 1;
        assert(s[j] == ids[j]);
        if comes_before(ids, j, k) {
            lemma_before_transitive(ids, j, k, l);
        }
        if j == l {
            lemma_lex_total(ids[k], ids[l]);
            lemma_lex_irreflexive(ids[k]);
        }
    }
}

proof fn lemma_rank_count_bound(ids: Seq<Seq<char>>, key: Seq<char>, k: int)
    requires
        0 <= k < ids.len(),
    ensures
        rank_count(ids, key, k) < ids.len(),
    decreases ids.len(),
{
    if k < ids.len() - 1 {
        lemma_rank_count_bound(ids.drop_last(), key, k);
    } else {
        lemma_rank_count_all(ids.drop_last(), key, k);
    }
    assert(rank_count(ids, key, k) <= rank_count(ids.drop_last(), key, k) + 1);
}

proof fn lemma_rank_count_all(ids: Seq<Seq<char>>, key: Seq<char>, k: int)
    ensures
        rank_count(ids, key, k) <= ids.len(),
    decreases ids.len(),
{
    if ids.len() > 0 {
        lemma_rank_count_all(ids.drop_last(), key, k);
    }
}

/// The sorted positions of the nodes are distinct positions among them: sorting by id
/// with ties broken by index is a permutation of the nodes.
pub proof fn lemma_sorted_position_injective(ids: Seq<Seq<char>>, k: int, l: int)
    requires
        0 <= k < ids.len(),
        0 <= l < ids.len(),
    ensures
        sorted_position(ids, k) < ids.len(),
        k != l ==> sorted_position(ids, k) != sorted_position(ids, l),
{
    lemma_rank_count_bound(ids, ids[k], k);
    if k != l {
        lemma_lex_total(ids[k], ids[l]);
        assert(ids.take(ids.len() as int) == ids);
        if comes_before(ids, k, l) {
            lemma_rank_count_take(ids, ids.len() as int, k, l);
        } else {
            assert(comes_before(ids, l, k));
            lemma_rank_count_take(ids, ids.len() as int, l, k);
        }
    }
}
} // verus!
