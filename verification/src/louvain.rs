//! The network that Louvain community detection runs on: the nodes of the citation graph
//! numbered in the order of their ids and the undirected edges between them; and the
//! partition built from the groups the clustering finds.
use vstd::prelude::*;
use crate::community::{
    colors_ranked, partition_from_groups, remap, remapped, tallies, LouvainPartition, MIN_GRAPH_NODES,
};
use crate::contradiction::strings_view;
use crate::graph::{
    edge_plan, first_of_its_id, lemma_sorted_position_injective, node_edges, node_plan, position_of,
    sorted_position, sorted_positions, undirected, undirected_edges,
};
use crate::ids::strip_version;

verus! {

proof fn lemma_node_edges_in_range(ids: Seq<Seq<char>>, edges: Seq<(String, String)>)
    ensures
        forall|k: int| 0 <= k < node_edges(ids, edges).len() ==> 0 <= (#[trigger] node_edges(ids, edges)[k]).0 < ids.len()
            && 0 <= node_edges(ids, edges)[k].1 < ids.len(),
    decreases edges.len(),
{
    if edges.len() > 0 {
        lemma_node_edges_in_range(ids, edges.drop_last());
        let prev = node_edges(ids, edges.drop_last());
        let e = edges.last();
        let pa = position_of(ids, strip_version(e.0@));
        let pb = position_of(ids, strip_version(e.1@));
        let all = node_edges(ids, edges);
        assert forall|k: int| 0 <= k < all.len() implies 0 <= (#[trigger] all[k]).0 < ids.len()
            && 0 <= all[k].1 < ids.len() by {
            if k < prev.len() {
                assert(all[k] == prev[k]);
            } else {
                match (pa, pb) {
                    (Some(a), Some(b)) => {
                        assert(all[k] == (a, b));
                    },
                    _ => {},
                }
            }
        }
    }
}

proof fn lemma_increasing_ge(v: Seq<usize>, k: int)
    requires
        forall|i: int, j: int| 0 <= i < j < v.len() ==> (#[trigger] v[i]) < (#[trigger] v[j]),
        0 <= k < v.len(),
    ensures
        v[k] >= k,
    decreases k,
{
    if k > 0 {
        lemma_increasing_ge(v, k - 1);
        assert(v[k - 1] < v[k]);
    }
}

proof fn lemma_increasing_len(v: Seq<usize>, m: int)
    requires
        forall|i: int, j: int| 0 <= i < j < v.len() ==> (#[trigger] v[i]) < (#[trigger] v[j]),
        forall|i: int| 0 <= i < v.len() ==> (#[trigger] v[i]) < m,
        0 <= m,
    ensures
        v.len() <= m,
{
    if v.len() > 0 {
        let k = v.len() - 1;
        lemma_increasing_ge(v, k);
        assert(v[k] >= k);
        assert(v[k] < m);
    }
}

/// `p` is the partition built from the raw groups `groups` of the nodes with the ids `ids`
/// (see `partition_from_groups`).
pub open spec fn partition_of(p: LouvainPartition, ids: Seq<Seq<char>>, groups: Seq<u32>) -> bool {
    &&& p.assignments@.len() == ids.len()
    &&& forall|i: int| 0 <= i < ids.len() ==> (#[trigger] p.assignments@[i]).0@ == ids[i]
            && p.assignments@[i].1 == remap(groups, groups[i])
    &&& tallies(p.sizes@, remapped(groups))
    &&& colors_ranked(p.color_indices@, groups)
}

/// `w` is the unversioned id of a paper of `paper_ids`, the first with that id.
pub open spec fn id_of_first_paper(paper_ids: Seq<String>, w: Seq<char>) -> bool {
    exists|i: int| 0 <= i < paper_ids.len() && #[trigger] first_of_its_id(paper_ids, i) && w == strip_version(paper_ids[i]@)
}

/// The node ids of the papers `paper_ids`: the unversioned id of the first paper with each.
pub open spec fn graph_node_ids(paper_ids: Seq<String>, node_ids: Seq<Seq<char>>) -> bool {
    &&& forall|k: int, l: int| 0 <= k < l < node_ids.len() ==> #[trigger] node_ids[k] != #[trigger] node_ids[l]
    &&& forall|k: int| 0 <= k < node_ids.len() ==> id_of_first_paper(paper_ids, #[trigger] node_ids[k])
    &&& forall|i: int| 0 <= i < paper_ids.len() && #[trigger] first_of_its_id(paper_ids, i)
            ==> node_ids.contains(strip_version(paper_ids[i]@))
}

/// The network of the citation graph of the papers `paper_ids` with the citation edges
/// `edges`, as the clustering takes it. The nodes are the first paper of each unversioned
/// id; the result gives their ids in sorted order (node `k` gets number
/// `sorted_position(k)`) and the citations between nodes, undirected, each once, between
/// those numbers. Graphs with fewer than `MIN_GRAPH_NODES` nodes are not clustered: `None`.
pub fn louvain_network(paper_ids: &[String], edges: &[(String, String)]) -> (res: Option<(Vec<String>, Vec<(u32, u32)>)>)
    requires
        paper_ids@.len() < u32::MAX,
    ensures
        exists|node_ids: Seq<Seq<char>>| #[trigger] graph_node_ids(paper_ids@, node_ids) && {
            let n = node_ids.len();
            &&& res is None <==> n < MIN_GRAPH_NODES
            &&& res matches Some((sorted_ids, und)) ==> {
                &&& sorted_ids@.len() == n
                &&& forall|k: int| 0 <= k < n ==> #[trigger] sorted_ids@[sorted_position(node_ids, k) as int]@ == node_ids[k]
                &&& forall|k: int| 0 <= k < und@.len() ==> (#[trigger] und@[k]).0 <= und@[k].1 && und@[k].1 < n
                &&& forall|k: int, l: int| 0 <= k < l < und@.len() ==> (#[trigger] und@[k]) != (#[trigger] und@[l])
                &&& forall|p: (u32, u32)| und@.contains(p) <==> exists|j: int| 0 <= j < node_edges(node_ids, edges@).len()
                        && p == #[trigger] undirected((
                            sorted_position(node_ids, node_edges(node_ids, edges@)[j].0) as u32,
                            sorted_position(node_ids, node_edges(node_ids, edges@)[j].1) as u32,
                        ))
            }
        },
{
    let (nodes, node_ids) = node_plan(paper_ids);
    let ghost nv = strings_view(node_ids@);
    proof {
        lemma_increasing_len(nodes@, paper_ids@.len() as int);
        assert forall|k: int, l: int| 0 <= k < l < nv.len() implies
            #[trigger] nv[k] != #[trigger] nv[l] by {
            assert(nv[k] == node_ids@[k]@ && nv[l] == node_ids@[l]@);
            assert(nodes@[k] < nodes@[l]);
            assert(first_of_its_id(paper_ids@, nodes@[l] as int));
            assert(strip_version(paper_ids@[nodes@[k] as int]@) != strip_version(paper_ids@[nodes@[l] as int]@));
        }
        assert forall|k: int| 0 <= k < nv.len() implies id_of_first_paper(paper_ids@, #[trigger] nv[k]) by {
            assert(nv[k] == node_ids@[k]@);
            let i = nodes@[k] as int;
            assert(first_of_its_id(paper_ids@, i));
        }
        assert forall|i: int| 0 <= i < paper_ids@.len() && #[trigger] first_of_its_id(paper_ids@, i)
            implies nv.contains(strip_version(paper_ids@[i]@)) by {
            let k = choose|k: int| 0 <= k < nodes@.len() && #[trigger] nodes@[k] == i;
            assert(nv[k] == strip_version(paper_ids@[i]@));
        }
        assert(graph_node_ids(paper_ids@, nv));
        assert forall|k: int, l: int| 0 <= k < l < node_ids@.len() implies
            (#[trigger] node_ids@[k])@ != (#[trigger] node_ids@[l])@ by {
            assert(nv[k] == node_ids@[k]@ && nv[l] == node_ids@[l]@);
        }
    }
    let n = node_ids.len();
    if n < MIN_GRAPH_NODES {
        return None;
    }
    let pos = sorted_positions(&node_ids);
    proof {
        assert forall|k: int| 0 <= k < n implies (#[trigger] pos@[k]) < n by {
            lemma_sorted_position_injective(nv, k, k);
        }
    }
    // the ids in sorted order
    let mut sorted_ids: Vec<String> = Vec::new();
    let mut i: usize = 0;
    while i < n
        invariant
            i <= n,
            sorted_ids@.len() == i,
        decreases n - i,
    {
        sorted_ids.push(String::new());
        i += 1;
    }
    let mut k: usize = 0;
    while k < n
        invariant
            k <= n,
            n == node_ids@.len(),
            nv == strings_view(node_ids@),
            pos@.len() == n,
            forall|q: int| 0 <= q < n ==> #[trigger] pos@[q] == sorted_position(nv, q),
            sorted_ids@.len() == n,
            forall|q: int| 0 <= q < k ==> #[trigger] sorted_ids@[pos@[q] as int]@ == nv[q],
        decreases n - k,
    {
        proof {
            lemma_sorted_position_injective(nv, k as int, k as int);
        }
        let ghost before = sorted_ids@;
        sorted_ids.set(pos[k], node_ids[k].clone());
        proof {
            assert forall|q: int| 0 <= q < k + 1 implies #[trigger] sorted_ids@[pos@[q] as int]@ == nv[q] by {
                if q < k {
                    lemma_sorted_position_injective(nv, q, k as int);
                    assert(sorted_ids@[pos@[q] as int] == before[pos@[q] as int]);
                }
            }
        }
        k += 1;
    }
    // the citation edges between nodes, numbered by sorted position
    let plan = edge_plan(&node_ids, edges);
    proof {
        lemma_node_edges_in_range(nv, edges@);
    }
    let ghost ne = node_edges(nv, edges@);
    let mut mapped: Vec<(u32, u32)> = Vec::new();
    let mut j: usize = 0;
    while j < plan.len()
        invariant
            j <= plan@.len(),
            n == node_ids@.len(),
            n < u32::MAX,
            nv == strings_view(node_ids@),
            pos@.len() == n,
            forall|q: int| 0 <= q < n ==> #[trigger] pos@[q] == sorted_position(nv, q),
            forall|q: int| 0 <= q < n ==> (#[trigger] pos@[q]) < n,
            ne == node_edges(nv, edges@),
            plan@.map_values(|e: (usize, usize)| (e.0 as int, e.1 as int)) == ne,
            forall|q: int| 0 <= q < ne.len() ==> 0 <= (#[trigger] ne[q]).0 < n && 0 <= ne[q].1 < n,
            mapped@.len() == j,
            forall|q: int| 0 <= q < j ==> #[trigger] mapped@[q] == (
                sorted_position(nv, ne[q].0) as u32,
                sorted_position(nv, ne[q].1) as u32,
            ),
            forall|q: int| 0 <= q < j ==> (#[trigger] mapped@[q]).0 < n && mapped@[q].1 < n,
        decreases plan@.len() - j,
    {
        let (a, b) = plan[j];
        assert(ne[j as int] == (a as int, b as int));
        mapped.push((pos[a] as u32, pos[b] as u32));
        j += 1;
    }
    let und = undirected_edges(&mapped);
    proof {
        assert forall|q: int| 0 <= q < und@.len() implies (#[trigger] und@[q]).0 < n && und@[q].1 < n by {
            assert(und@.contains(und@[q]));
            let i = choose|i: int| 0 <= i < mapped@.len() && #[trigger] undirected(mapped@[i]) == und@[q];
            assert(mapped@[i].0 < n && mapped@[i].1 < n);
        }
    }
    proof {
        let sv = strings_view(sorted_ids@);
        assert forall|k: int| 0 <= k < n implies #[trigger] sorted_ids@[sorted_position(nv, k) as int]@ == nv[k] by {
            assert(pos@[k] == sorted_position(nv, k));
        }
        assert forall|p: (u32, u32)| und@.contains(p) <==> exists|jj: int| 0 <= jj < ne.len()
            && p == #[trigger] undirected((
                sorted_position(nv, ne[jj].0) as u32,
                sorted_position(nv, ne[jj].1) as u32,
            )) by {
            if und@.contains(p) {
                let i = choose|i: int| 0 <= i < mapped@.len() && #[trigger] undirected(mapped@[i]) == p;
                assert(p == undirected((sorted_position(nv, ne[i].0) as u32, sorted_position(nv, ne[i].1) as u32)));
            }
            if exists|jj: int| 0 <= jj < ne.len()
                && p == #[trigger] undirected((sorted_position(nv, ne[jj].0) as u32, sorted_position(nv, ne[jj].1) as u32)) {
                let jj = choose|jj: int| 0 <= jj < ne.len()
                    && p == #[trigger] undirected((sorted_position(nv, ne[jj].0) as u32, sorted_position(nv, ne[jj].1) as u32));
                assert(undirected(mapped@[jj]) == p);
            }
        }
    }
    Some((sorted_ids, und))
}

/// The partition of the nodes with the ids `sorted_ids` from the groups the clustering
/// gave them, each group number cut to 32 bits (see `partition_from_groups`).
pub fn communities_from_groups(sorted_ids: &[String], groups: &[usize]) -> (res: LouvainPartition)
    requires
        sorted_ids@.len() == groups@.len(),
        groups@.len() < u32::MAX,
    ensures
        partition_of(res, strings_view(sorted_ids@), groups@.map_values(|g: usize| g as u32)),
{
    let mut small: Vec<u32> = Vec::new();
    let mut g: usize = 0;
    while g < groups.len()
        invariant
            g <= groups@.len(),
            small@ == groups@.take(g as int).map_values(|x: usize| x as u32),
        decreases groups@.len() - g,
    {
        #[verifier::truncate]
        let x = groups[g] as u32;
        small.push(x);
        assert(groups@.take(g + 1).map_values(|x: usize| x as u32) =~= small@);
        g += 1;
    }
    assert(groups@.take(groups@.len() as int) == groups@);
    let res = partition_from_groups(sorted_ids, &small);
    proof {
        let sv = strings_view(sorted_ids@);
        assert forall|i: int| 0 <= i < sv.len() implies (#[trigger] res.assignments@[i]).0@ == sv[i]
            && res.assignments@[i].1 == remap(small@, small@[i]) by {}
    }
    res
}

} // verus!
