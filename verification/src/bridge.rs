//! The filters that decide which paper pairs are ABC-bridge candidates.
use vstd::prelude::*;

verus! {

/// The fewest high-weight terms a pair must share to be a bridge candidate.
pub const MIN_SHARED_TERMS: usize = 3;

/// The undirected distance between two nodes from the distances found in each direction:
/// the shorter one, or `None` where neither direction has a path.
pub fn shortest_distance(forward: Option<u32>, backward: Option<u32>) -> (res: Option<u32>)
    ensures
        res == match (forward, backward) {
            (Some(a), Some(b)) => Some(if a <= b { a } else { b }),
            (Some(a), None) => Some(a),
            (None, Some(b)) => Some(b),
            (None, None) => None::<u32>,
        },
{
    match (forward, backward) {
        (Some(a), Some(b)) => Some(if a <= b { a } else { b }),
        (Some(a), None) => Some(a),
        (None, Some(b)) => Some(b),
        (None, None) => None,
    }
}

/// Whether papers A and C are linked in the citation graph: both are in it and they cite
/// one another directly or lie at distance at most one.
pub open spec fn cited_directly(a_in_graph: bool, c_in_graph: bool, direct_edge: bool, distance: Option<u32>) -> bool {
    a_in_graph && c_in_graph && (direct_edge || (distance matches Some(d) && d <= 1))
}

/// Whether the pair (A, C) is a bridge candidate: in full-corpus mode or with at least
/// one of them in the graph, not citing one another, and sharing at least
/// `MIN_SHARED_TERMS` high-weight terms. `direct_edge` and `distance` describe the
/// graph between A and C where both are in it.
pub fn bridge_candidate(
    full_corpus: bool,
    a_in_graph: bool,
    c_in_graph: bool,
    direct_edge: bool,
    distance: Option<u32>,
    shared_terms: usize,
) -> (res: bool)
    ensures
        res == ((full_corpus || a_in_graph || c_in_graph)
            && !cited_directly(a_in_graph, c_in_graph, direct_edge, distance)
            && shared_terms >= MIN_SHARED_TERMS),
{
    if !full_corpus && !a_in_graph && !c_in_graph {
        return false;
    }
    if a_in_graph && c_in_graph {
        if direct_edge {
            return false;
        }
        if let Some(d) = distance {
            if d <= 1 {
                return false;
            }
        }
    }
    shared_terms >= MIN_SHARED_TERMS
}

/// `to` can be reached from `from` in exactly `k` steps along the directed edges `edges`.
pub open spec fn reachable_in(edges: Seq<(usize, usize)>, from: int, to: int, k: nat) -> bool
    decreases k,
{
    if k == 0 {
        from == to
    } else {
        exists|i: int| 0 <= i < edges.len() && #[trigger] edges[i].0 == from
            && reachable_in(edges, edges[i].1 as int, to, (k - 1) as nat)
    }
}

/// `d` is the length of a shortest directed path from `from` to `to`.
pub open spec fn shortest_path_len(edges: Seq<(usize, usize)>, from: int, to: int, d: nat) -> bool {
    reachable_in(edges, from, to, d) && forall|k: nat| k < d ==> !#[trigger] reachable_in(edges, from, to, k)
}

/// `petgraph::algo::dijkstra` on the directed graph of `n` nodes with the edges `edges`,
/// every edge of cost 1, from `from` with goal `to`, and the cost it finds for `to`. As
/// petgraph documents it, the cost of the goal is its shortest distance, and the goal is
/// absent from the result when it cannot be reached. The graph's `u32` indices hold at
/// most `u32::MAX` edges (`add_edge` panics on one more) and fewer than `u32::MAX` nodes.
#[verifier::external_body]
fn unit_distance(n: usize, edges: &Vec<(usize, usize)>, from: usize, to: usize) -> (res: Option<u32>)
    requires
        from < n,
        to < n,
        n < u32::MAX,
        edges@.len() <= u32::MAX,
        forall|i: int| 0 <= i < edges@.len() ==> (#[trigger] edges@[i]).0 < n && edges@[i].1 < n,
    ensures
        res matches Some(d) ==> shortest_path_len(edges@, from as int, to as int, d as nat),
        res is None ==> forall|k: nat| !#[trigger] reachable_in(edges@, from as int, to as int, k),
{
    let mut graph = petgraph::graph::DiGraph::<(), ()>::with_capacity(n, edges.len());
    (0..n).for_each(|_| {
        graph.add_node(());
    });
    edges.iter().for_each(|&(a, b)| {
        graph.add_edge(petgraph::graph::NodeIndex::new(a), petgraph::graph::NodeIndex::new(b), ());
    });
    let goal = petgraph::graph::NodeIndex::new(to);
    petgraph::algo::dijkstra(&graph, petgraph::graph::NodeIndex::new(from), Some(goal), |_| 1u32).get(&goal).copied()
}

/// The distance between nodes `a` and `b` of the citation graph of `n` nodes with the
/// edges `edges`: the shorter of the shortest paths from `a` to `b` and from `b` to `a`,
/// where there is one.
pub fn graph_distance(n: usize, edges: &Vec<(usize, usize)>, a: usize, b: usize) -> (res: Option<u32>)
    requires
        a < n,
        b < n,
        n < u32::MAX,
        edges@.len() <= u32::MAX,
        forall|i: int| 0 <= i < edges@.len() ==> (#[trigger] edges@[i]).0 < n && edges@[i].1 < n,
    ensures
        res matches Some(d) ==> (reachable_in(edges@, a as int, b as int, d as nat) || reachable_in(edges@, b as int, a as int, d as nat))
            && forall|k: nat| k < d ==> !#[trigger] reachable_in(edges@, a as int, b as int, k) && !reachable_in(edges@, b as int, a as int, k),
        res is None ==> forall|k: nat| !#[trigger] reachable_in(edges@, a as int, b as int, k) && !reachable_in(edges@, b as int, a as int, k),
{
    let forward = unit_distance(n, edges, a, b);
    let backward = unit_distance(n, edges, b, a);
    shortest_distance(forward, backward)
}

/// There is a citation between `a` and `b`, in either direction.
pub fn has_direct_edge(edges: &Vec<(usize, usize)>, a: usize, b: usize) -> (res: bool)
    ensures
        res == exists|i: int| 0 <= i < edges@.len() && (#[trigger] edges@[i] == (a, b) || edges@[i] == (b, a)),
{
    let mut i: usize = 0;
    while i < edges.len()
        invariant
            i <= edges@.len(),
            forall|j: int| 0 <= j < i ==> !(#[trigger] edges@[j] == (a, b) || edges@[j] == (b, a)),
        decreases edges@.len() - i,
    {
        let (x, y) = edges[i];
        if (x == a && y == b) || (x == b && y == a) {
            assert(edges@[i as int] == (a, b) || edges@[i as int] == (b, a));
            return true;
        }
        i += 1;
    }
    false
}

} // verus!
