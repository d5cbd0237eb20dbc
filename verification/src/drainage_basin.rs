//! The drainage basin of one outlet: every site whose flow path ends in
//! that outlet, in an order fit for both accumulation directions.
//!
//! The traversal is a breadth-first expansion from the outlet along the
//! inverse of the flow assignment. Front to back, a site never appears
//! before the site it flows into ("upstream order"); back to front, a site
//! never appears before the sites that flow into it ("downstream order").

use vstd::prelude::*;
use vstd::set_lib::{lemma_len_subset, lemma_int_range, set_int_range};
use terrain_graph::edge_attributed_undirected::EdgeAttributedUndirectedGraph;
use crate::graph::{adj_wf, adj_list_wf, graph_adj, graph_neighbors, is_nbr};
use crate::stream_tree::{StreamTree, flags_of, flow_wf, flows_ok, root_of, lemma_root_props, lemma_nbr_sym};
use crate::units::Length;

verus! {

/// A distinct sequence of in-range indices cannot outnumber the range.
pub(crate) proof fn lemma_distinct_bounded_len(s: Seq<usize>, n: int)
    requires
        s.no_duplicates(),
        forall|q: int| 0 <= q < s.len() ==> (#[trigger] s[q]) < n,
        0 <= n,
    ensures
        s.len() <= n,
{
    broadcast use vstd::seq_lib::group_seq_properties;
    broadcast use vstd::set::group_set_axioms;

    let f = |u: usize| u as int;
    let si = s.map_values(f);
    s.lemma_no_duplicates_injective(f);
    si.unique_seq_to_set();
    lemma_int_range(0, n);
    assert(si.to_set().subset_of(set_int_range(0, n))) by {
        assert forall|e: int| si.to_set().contains(e)
            implies set_int_range(0, n).contains(e) by {
            let q = choose|q: int| 0 <= q < si.len() && si[q] == e;
            assert(s[q] < n);
        }
    }
    lemma_len_subset(si.to_set(), set_int_range(0, n));
}

/// Position `q` of a traversal flows into some strictly earlier position
/// below `i`.
pub open spec fn parent_ok(t: Seq<usize>, nx: Seq<usize>, q: int, i: int) -> bool {
    exists|p: int| 0 <= p < q && p < i && t[p] == nx[t[q] as int]
}

/// Positions `1..hi` of a traversal each flow into some strictly earlier
/// position below `i`.
pub open spec fn parents_before(t: Seq<usize>, nx: Seq<usize>, hi: int, i: int) -> bool {
    forall|q: int| 1 <= q < hi ==> #[trigger] parent_ok(t, nx, q, i)
}

/// Represents the drainage basin of one outlet.
/// The sites of the basin can be iterated without duplication, from the
/// outlet upstream or from the stream heads downstream.
pub struct DrainageBasin {
    traversal: Vec<usize>,
}

impl DrainageBasin {
    /// The visitation order this basin holds.
    pub closed spec fn order(self) -> Seq<usize> {
        self.traversal@
    }

    /// The basin traversal is valid for `tree`: it starts at `outlet`,
    /// repeats no site, lists exactly the sites that drain to `outlet`,
    /// and lists every site after the site it flows into.
    pub open spec fn wf(self, tree: StreamTree, outlet: usize) -> bool {
        &&& self.order().len() >= 1
        &&& self.order()[0] == outlet
        &&& self.order().no_duplicates()
        &&& forall|q: int| 0 <= q < self.order().len()
            ==> (#[trigger] self.order()[q]) < tree.next@.len()
                && root_of(tree.next@, tree.rank@, self.order()[q] as int) == outlet
        &&& forall|j: int| 0 <= j < tree.next@.len()
            && root_of(tree.next@, tree.rank@, j) == outlet
            ==> self.order().contains(j as usize)
        &&& parents_before(self.order(), tree.next@, self.order().len() as int,
                self.order().len() as int)
    }

    /// Construct the drainage basin of `outlet` by expanding the inverse
    /// flow relation breadth-first.
    #[verifier::rlimit(100)]
    #[verifier::spinoff_prover]
    pub fn construct(
        outlet: usize,
        stream_tree: &StreamTree,
        graph: &EdgeAttributedUndirectedGraph<Length>,
    ) -> (basin: Self)
        requires
            adj_wf(graph_adj(*graph)),
            stream_tree.wf(graph_adj(*graph)),
            outlet < stream_tree.next@.len(),
            stream_tree.next@[outlet as int] == outlet,
        ensures
            basin.wf(*stream_tree, outlet),
    {
        let ghost adj = graph_adj(*graph);
        let ghost nx = stream_tree.next@;
        let ghost rank = stream_tree.rank@;
        let num = stream_tree.next.len();
        proof {
            lemma_root_props(nx, rank, outlet as int);
        }
        let mut traversal: Vec<usize> = Vec::new();
        traversal.push(outlet);
        let mut i: usize = 0;
        loop
            invariant
                adj_wf(adj),
                stream_tree.wf(adj),
                graph_adj(*graph) == adj,
                stream_tree.next@ == nx,
                stream_tree.rank@ == rank,
                num == nx.len(),
                outlet < num,
                nx[outlet as int] == outlet,
                i <= traversal@.len(),
                1 <= traversal@.len() <= num,
                traversal@[0] == outlet,
                traversal@.no_duplicates(),
                forall|q: int| 0 <= q < traversal@.len()
                    ==> (#[trigger] traversal@[q]) < num
                        && root_of(nx, rank, traversal@[q] as int) == outlet,
                parents_before(traversal@, nx, traversal@.len() as int, i as int),
                forall|p: int, k: int|
                    0 <= p < i && 0 <= k < adj[traversal@[p] as int].len()
                    && nx[(#[trigger] adj[traversal@[p] as int][k]).0 as int]
                        == traversal@[p]
                    ==> traversal@.contains(adj[traversal@[p] as int][k].0),
            ensures
                i == traversal@.len(),
                1 <= traversal@.len() <= num,
                traversal@[0] == outlet,
                traversal@.no_duplicates(),
                forall|q: int| 0 <= q < traversal@.len()
                    ==> (#[trigger] traversal@[q]) < num
                        && root_of(nx, rank, traversal@[q] as int) == outlet,
                parents_before(traversal@, nx, traversal@.len() as int,
                    traversal@.len() as int),
                forall|p: int, k: int|
                    0 <= p < traversal@.len() && 0 <= k < adj[traversal@[p] as int].len()
                    && nx[(#[trigger] adj[traversal@[p] as int][k]).0 as int]
                        == traversal@[p]
                    ==> traversal@.contains(adj[traversal@[p] as int][k].0),
            decreases num - i,
        {
            if i >= traversal.len() {
                break;
            }
            let it = traversal[i];
            let nbrs = graph_neighbors(graph, it);
            let ghost len0 = traversal@.len();
            let mut k: usize = 0;
            while k < nbrs.len()
                invariant
                    adj_wf(adj),
                    stream_tree.wf(adj),
                    graph_adj(*graph) == adj,
                    stream_tree.next@ == nx,
                    stream_tree.rank@ == rank,
                    num == nx.len(),
                    outlet < num,
                    nx[outlet as int] == outlet,
                    i < len0,
                    it == traversal@[i as int],
                    it < num,
                    nbrs@ == adj[it as int],
                    k <= nbrs@.len(),
                    len0 <= traversal@.len(),
                    traversal@.len() <= num,
                    traversal@[0] == outlet,
                    traversal@.no_duplicates(),
                    forall|q: int| 0 <= q < traversal@.len()
                        ==> (#[trigger] traversal@[q]) < num
                            && root_of(nx, rank, traversal@[q] as int) == outlet,
                    parents_before(traversal@, nx, len0 as int, i as int),
                    forall|q: int| len0 <= q < traversal@.len()
                        ==> nx[(#[trigger] traversal@[q]) as int] == it
                            && exists|k0: int| 0 <= k0 < k
                                && adj[it as int][k0].0 == traversal@[q],
                    forall|p: int, kk: int|
                        0 <= p < i && 0 <= kk < adj[traversal@[p] as int].len()
                        && nx[(#[trigger] adj[traversal@[p] as int][kk]).0 as int]
                            == traversal@[p]
                        ==> traversal@.contains(adj[traversal@[p] as int][kk].0),
                    forall|kk: int| 0 <= kk < k
                        && nx[(#[trigger] adj[it as int][kk]).0 as int] == it
                        ==> traversal@.contains(adj[it as int][kk].0),
                decreases nbrs@.len() - k,
            {
                let (jt, _w) = nbrs[k];
                proof {
                    assert(adj_list_wf(adj, it as int));
                    assert((adj[it as int][k as int]).0 == jt);
                }
                if stream_tree.next[jt] == it {
                    proof {
                        // `jt` is new: its unique downstream site is `it`,
                        // scanned here for the first time
                        assert(!traversal@.contains(jt)) by {
                            if traversal@.contains(jt) {
                                let q = choose|q: int|
                                    0 <= q < traversal@.len() && traversal@[q] == jt;
                                if q == 0 {
                                    assert(nx[jt as int] == it);
                                    assert(jt == outlet);
                                    assert(it == outlet);
                                    assert((adj[it as int][k as int]).0 != it as int);
                                } else if q < len0 {
                                    assert(parent_ok(traversal@, nx, q, i as int));
                                    let p = choose|p: int|
                                        0 <= p < q && p < i
                                            && traversal@[p] == nx[traversal@[q] as int];
                                    assert(traversal@[p] == it);
                                    assert(traversal@[i as int] == it);
                                } else {
                                    let k0 = choose|k0: int|
                                        0 <= k0 < k && (#[trigger] adj[it as int][k0]).0
                                            == traversal@[q];
                                    assert((adj[it as int][k0]).0 == jt);
                                    assert((adj[it as int][k as int]).0 == jt);
                                }
                            }
                        }
                        assert(jt < num);
                        assert(root_of(nx, rank, jt as int) == outlet) by {
                            lemma_root_props(nx, rank, jt as int);
                            assert(root_of(nx, rank, it as int) == outlet);
                        }
                    }
                    let ghost trav_old = traversal@;
                    traversal.push(jt);
                    proof {
                        lemma_distinct_bounded_len(traversal@, num as int);
                        assert(parents_before(traversal@, nx, len0 as int, i as int)) by {
                            assert forall|q: int| 1 <= q < len0
                                implies #[trigger] parent_ok(traversal@, nx, q, i as int) by {
                                assert(parent_ok(trav_old, nx, q, i as int));
                                let p = choose|p: int| 0 <= p < q && p < i
                                    && trav_old[p] == nx[trav_old[q] as int];
                                assert(traversal@[p] == trav_old[p]);
                                assert(traversal@[q] == trav_old[q]);
                                assert(traversal@[p] == nx[traversal@[q] as int]);
                            }
                        }
                        assert forall|v: usize| trav_old.contains(v)
                            implies traversal@.contains(v) by {
                            let q = choose|q: int| 0 <= q < trav_old.len()
                                && #[trigger] trav_old[q] == v;
                            assert(traversal@[q] == v);
                        }
                        assert(traversal@[traversal@.len() - 1] == jt);
                        assert(traversal@.contains(jt));
                    }
                }
                k += 1;
            }
            proof {
                assert(parents_before(traversal@, nx, traversal@.len() as int,
                    (i + 1) as int)) by {
                    assert forall|q: int| 1 <= q < traversal@.len()
                        implies #[trigger] parent_ok(traversal@, nx, q, i as int + 1) by {
                        if q < len0 {
                            assert(parent_ok(traversal@, nx, q, i as int));
                            let p = choose|p: int| 0 <= p < q && p < i
                                && traversal@[p] == nx[traversal@[q] as int];
                            assert(0 <= p < q && p < i + 1
                                && traversal@[p] == nx[traversal@[q] as int]);
                        } else {
                            assert(nx[traversal@[q] as int] == it);
                            assert(traversal@[i as int] == it);
                            assert(0 <= i < q && traversal@[i as int]
                                == nx[traversal@[q] as int]);
                        }
                    }
                }
            }
            i += 1;
        }
        let basin = Self { traversal };
        proof {
            // completeness: whatever drains to this outlet was enqueued
            assert forall|j: int| 0 <= j < num
                && root_of(nx, rank, j) == outlet
                implies basin.order().contains(j as usize) by {
                lemma_basin_complete(adj, nx, rank, basin.order(), outlet, j);
            }
        }
        basin
    }

    /// The sites of the basin from the outlet upstream.
    pub fn for_each_upstream(&self) -> (r: Vec<usize>)
        ensures
            r@ == self.order(),
    {
        let mut r: Vec<usize> = Vec::new();
        let mut i: usize = 0;
        while i < self.traversal.len()
            invariant
                i <= self.traversal@.len(),
                r@ == self.traversal@.take(i as int),
            decreases self.traversal@.len() - i,
        {
            r.push(self.traversal[i]);
            proof {
                assert(r@ =~= self.traversal@.take(i as int + 1));
            }
            i += 1;
        }
        proof {
            assert(self.traversal@.take(self.traversal@.len() as int) =~= self.traversal@);
        }
        r
    }

    /// The sites of the basin from the stream heads downstream.
    pub fn for_each_downstream(&self) -> (r: Vec<usize>)
        ensures
            r@ == self.order().reverse(),
    {
        let mut r: Vec<usize> = Vec::new();
        let mut i: usize = self.traversal.len();
        while i > 0
            invariant
                i <= self.traversal@.len(),
                r@.len() == self.traversal@.len() - i,
                forall|q: int| 0 <= q < r@.len()
                    ==> #[trigger] r@[q] == self.traversal@[self.traversal@.len() - 1 - q],
            decreases i,
        {
            i -= 1;
            r.push(self.traversal[i]);
        }
        proof {
            assert(r@ =~= self.order().reverse());
        }
        r
    }
}

/// Every site that drains to the outlet appears in a traversal that is
/// closed under the inverse flow relation.
proof fn lemma_basin_complete(
    adj: Seq<Seq<(usize, Length)>>,
    nx: Seq<usize>,
    rank: Seq<nat>,
    order: Seq<usize>,
    outlet: usize,
    j: int,
)
    requires
        adj_wf(adj),
        adj.len() == nx.len(),
        nx.len() <= usize::MAX,
        flow_wf(nx, flags_of(nx), rank),
        forall|x: int| 0 <= x < nx.len()
            ==> (#[trigger] nx[x]) == x || is_nbr(adj, x, nx[x] as int),
        order.len() >= 1,
        order[0] == outlet,
        outlet < nx.len(),
        forall|p: int, k: int|
            0 <= p < order.len() && 0 <= k < adj[order[p] as int].len()
            && nx[(#[trigger] adj[order[p] as int][k]).0 as int] == order[p]
            ==> order.contains(adj[order[p] as int][k].0),
        0 <= j < nx.len(),
        root_of(nx, rank, j) == outlet,
    ensures
        order.contains(j as usize),
    decreases rank[j],
{
    if j == outlet {
        assert(order[0] == j);
    } else {
        assert(nx[j] != j) by {
            lemma_root_props(nx, rank, j);
        }
        assert(flows_ok(nx, flags_of(nx), rank, j));
        assert(!flags_of(nx)[j]);
        let y = nx[j] as int;
        lemma_root_props(nx, rank, j);
        lemma_basin_complete(adj, nx, rank, order, outlet, y);
        let p = choose|p: int| 0 <= p < order.len() && order[p] == y as usize;
        assert(is_nbr(adj, j, y));
        lemma_nbr_sym(adj, j, y);
        let k = choose|k: int| 0 <= k < adj[y].len() && (#[trigger] adj[y][k]).0 == j;
        assert(nx[(adj[order[p] as int][k]).0 as int] == order[p]);
        assert(order.contains(adj[order[p] as int][k].0));
    }
}

} // verus!
