//! The proximity graph over site indices.
//!
//! The graph itself comes from the `terrain_graph` crate: an undirected
//! graph whose edges carry the fixed-point distance between the two sites.
//! The core only ever reads it. Its contents are named by `graph_adj`, and
//! the read methods are wrapped with contracts that say what the crate's
//! source shows. `adj_wf` is the well-formedness the algorithms need from a
//! proximity graph (in-range simple symmetric adjacency with positive,
//! bounded weights); `check_graph` decides it at run time.

use vstd::prelude::*;
use terrain_graph::edge_attributed_undirected::EdgeAttributedUndirectedGraph;
use crate::units::{Length, LENGTH_LIMIT};

verus! {

#[verifier::external_type_specification]
#[verifier::external_body]
#[verifier::reject_recursive_types(Attr)]
pub struct ExEdgeAttributedUndirectedGraph<Attr: Copy + Clone + Default>(
    EdgeAttributedUndirectedGraph<Attr>,
);

/// The adjacency lists a graph holds: for each vertex, the sequence of
/// (neighbor, edge length) pairs, in insertion order.
pub uninterp spec fn graph_adj(g: EdgeAttributedUndirectedGraph<Length>) -> Seq<Seq<(usize, Length)>>;

/// `j` appears in `i`'s adjacency list.
pub open spec fn is_nbr(adj: Seq<Seq<(usize, Length)>>, i: int, j: int) -> bool {
    exists|k: int| 0 <= k < adj[i].len() && (#[trigger] adj[i][k]).0 == j
}

/// `(j, w)` appears in `i`'s adjacency list.
pub open spec fn is_nbr_with(adj: Seq<Seq<(usize, Length)>>, i: int, j: int, w: Length) -> bool {
    exists|k: int| 0 <= k < adj[i].len() && #[trigger] adj[i][k] == (j as usize, w)
}

/// Relies on `EdgeAttributedUndirectedGraph::order`: the number of vertices,
/// which is the length of the adjacency list.
#[verifier::external_body]
pub(crate) fn graph_order(g: &EdgeAttributedUndirectedGraph<Length>) -> (n: usize)
    ensures
        n == graph_adj(*g).len(),
{
    g.order()
}

/// Relies on `EdgeAttributedUndirectedGraph::neighbors_of`: the adjacency
/// list of vertex `v`.
#[verifier::external_body]
pub(crate) fn graph_neighbors(g: &EdgeAttributedUndirectedGraph<Length>, v: usize) -> (r: Vec<(usize, Length)>)
    requires
        v < graph_adj(*g).len(),
    ensures
        r@ == graph_adj(*g)[v as int],
{
    g.neighbors_of(v).clone()
}

/// Relies on `EdgeAttributedUndirectedGraph::has_edge`: scans `v`'s
/// adjacency list and returns the first entry for `w`, or `(false, 0)`.
#[verifier::external_body]
pub(crate) fn graph_has_edge(g: &EdgeAttributedUndirectedGraph<Length>, v: usize, w: usize) -> (r: (bool, Length))
    requires
        v < graph_adj(*g).len(),
    ensures
        r.0 == is_nbr(graph_adj(*g), v as int, w as int),
        r.0 ==> is_nbr_with(graph_adj(*g), v as int, w as int, r.1),
        !r.0 ==> r.1 == 0,
{
    g.has_edge(v, w)
}

/// One adjacency list is well formed: all entries point at other, in-range
/// vertices, carry a positive bounded length, and no vertex appears twice.
pub open spec fn adj_list_wf(adj: Seq<Seq<(usize, Length)>>, i: int) -> bool {
    &&& forall|k: int| 0 <= k < adj[i].len() ==> {
        &&& (#[trigger] adj[i][k]).0 < adj.len()
        &&& adj[i][k].0 != i
        &&& 1 <= adj[i][k].1 < LENGTH_LIMIT
    }
    &&& forall|k1: int, k2: int|
        0 <= k1 < k2 < adj[i].len() ==> (#[trigger] adj[i][k1]).0 != (#[trigger] adj[i][k2]).0
}

/// The whole adjacency is well formed: every list is, and every edge is
/// recorded in both directions with the same length.
pub open spec fn adj_wf(adj: Seq<Seq<(usize, Length)>>) -> bool {
    &&& forall|i: int| 0 <= i < adj.len() ==> #[trigger] adj_list_wf(adj, i)
    &&& forall|i: int, k: int|
        0 <= i < adj.len() && 0 <= k < adj[i].len()
            ==> is_nbr_with(adj, (#[trigger] adj[i][k]).0 as int, i, adj[i][k].1)
}

/// Decides `adj_wf` for a graph handed in by a caller.
pub fn check_graph(g: &EdgeAttributedUndirectedGraph<Length>) -> (b: bool)
    ensures
        b == adj_wf(graph_adj(*g)),
{
    let ghost adj = graph_adj(*g);
    let n = graph_order(g);
    // first pass: every list in range, positive bounded weights, no repeats
    let mut i: usize = 0;
    while i < n
        invariant
            n == adj.len(),
            i <= n,
            graph_adj(*g) == adj,
            forall|i0: int| 0 <= i0 < i ==> #[trigger] adj_list_wf(adj, i0),
        decreases n - i,
    {
        let nbrs = graph_neighbors(g, i);
        let mut k: usize = 0;
        while k < nbrs.len()
            invariant
                n == adj.len(),
                i < n,
                graph_adj(*g) == adj,
                nbrs@ == adj[i as int],
                k <= nbrs.len(),
                forall|k0: int| 0 <= k0 < k ==> {
                    &&& (#[trigger] adj[i as int][k0]).0 < adj.len()
                    &&& adj[i as int][k0].0 != i as int
                    &&& 1 <= adj[i as int][k0].1 < LENGTH_LIMIT
                },
                forall|k1: int, k2: int|
                    0 <= k1 < k2 < k ==> (#[trigger] adj[i as int][k1]).0 != (#[trigger] adj[i as int][k2]).0,
            decreases nbrs.len() - k,
        {
            let (j, w) = nbrs[k];
            if j >= n || j == i || w < 1 || w >= LENGTH_LIMIT {
                proof {
                    assert((adj[i as int][k as int]).0 == j && (adj[i as int][k as int]).1 == w);
                    assert(!adj_list_wf(adj, i as int));
                }
                return false;
            }
            let mut k2: usize = 0;
            while k2 < k
                invariant
                    k < nbrs.len(),
                    nbrs@ == adj[i as int],
                    i < n,
                    n == adj.len(),
                    graph_adj(*g) == adj,
                    k2 <= k,
                    j == nbrs@[k as int].0,
                    forall|k0: int| 0 <= k0 < k2 ==> (#[trigger] adj[i as int][k0]).0 != j,
                decreases k - k2,
            {
                if nbrs[k2].0 == j {
                    proof {
                        assert((adj[i as int][k2 as int]).0 == (adj[i as int][k as int]).0);
                        assert(!adj_list_wf(adj, i as int));
                    }
                    return false;
                }
                k2 += 1;
            }
            k += 1;
        }
        i += 1;
    }
    // second pass: symmetry with equal lengths
    let mut i: usize = 0;
    while i < n
        invariant
            n == adj.len(),
            i <= n,
            graph_adj(*g) == adj,
            forall|i0: int| 0 <= i0 < n ==> #[trigger] adj_list_wf(adj, i0),
            forall|i0: int, k: int|
                0 <= i0 < i && 0 <= k < adj[i0].len()
                    ==> is_nbr_with(adj, (#[trigger] adj[i0][k]).0 as int, i0, adj[i0][k].1),
        decreases n - i,
    {
        let nbrs = graph_neighbors(g, i);
        let mut k: usize = 0;
        while k < nbrs.len()
            invariant
                n == adj.len(),
                i < n,
                graph_adj(*g) == adj,
                nbrs@ == adj[i as int],
                k <= nbrs.len(),
                forall|i0: int| 0 <= i0 < n ==> #[trigger] adj_list_wf(adj, i0),
                forall|k0: int|
                    0 <= k0 < k
                        ==> is_nbr_with(adj, (#[trigger] adj[i as int][k0]).0 as int, i as int, adj[i as int][k0].1),
            decreases nbrs.len() - k,
        {
            let (j, w) = nbrs[k];
            proof {
                assert(adj_list_wf(adj, i as int));
                assert((adj[i as int][k as int]).0 == j);
            }
            let (ok, w2) = graph_has_edge(g, j, i);
            if !ok {
                proof {
                    assert(!is_nbr_with(adj, j as int, i as int, w)) by {
                        if is_nbr_with(adj, j as int, i as int, w) {
                            let kk = choose|kk: int|
                                0 <= kk < adj[j as int].len()
                                    && #[trigger] adj[j as int][kk] == (i as usize, w);
                            assert((adj[j as int][kk]).0 == i as usize);
                        }
                    }
                    assert((adj[i as int][k as int]).0 == j);
                }
                return false;
            }
            if w2 != w {
                // the unique entry for `i` in `j`'s list carries `w2`, not `w`
                proof {
                    assert(is_nbr_with(adj, j as int, i as int, w2));
                    let k_w2 = choose|kk: int|
                        0 <= kk < adj[j as int].len() && #[trigger] adj[j as int][kk] == (i as usize, w2);
                    assert(adj_list_wf(adj, j as int));
                    assert forall|kk: int|
                        0 <= kk < adj[j as int].len() && (#[trigger] adj[j as int][kk]).0 == i as usize
                        implies adj[j as int][kk] == (i as usize, w2) by {
                        if kk < k_w2 {
                            assert(adj[j as int][kk].0 != adj[j as int][k_w2].0);
                        } else if kk > k_w2 {
                            assert(adj[j as int][k_w2].0 != adj[j as int][kk].0);
                        }
                    }
                    assert(!is_nbr_with(adj, j as int, i as int, w));
                }
                return false;
            }
            proof {
                assert(is_nbr_with(adj, j as int, i as int, w));
            }
            k += 1;
        }
        i += 1;
    }
    true
}

} // verus!
