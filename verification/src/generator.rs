//! The equilibrium solver: iterates the flow network and the stream-power
//! elevation update to a fixed point.
//!
//! Each iteration rebuilds the stream tree from the current elevations,
//! accumulates drainage areas downstream and response times upstream per
//! drainage basin, derives new elevations from the closed-form steady state
//! of the linearized stream-power law, and stops when nothing changed or
//! the iteration bound is hit.

use vstd::prelude::*;
use terrain_graph::edge_attributed_undirected::EdgeAttributedUndirectedGraph;
use crate::graph::{adj_wf, adj_list_wf, graph_adj, graph_has_edge, is_nbr, is_nbr_with};
use crate::drainage_basin::{DrainageBasin, parent_ok};
use crate::parameters::TopographicalParameters;
use crate::stream_tree::{StreamTree, StreamTreeError, flags_of, flow_wf, flows_ok, root_of, lemma_root_props, connected_to_outlet, outlet_flags};
use crate::terrain::{Terrain2D, TerrainModel2D};
use crate::units::{Area, Elevation, Length, ResponseTime, Step, AREA_LIMIT, BASE_ELEVATION_LIMIT, LENGTH_LIMIT, RT_SCALE, SITE_LIMIT, TAN_SCALE, isqrt};

verus! {

/// Inclusive bound on the magnitude of every elevation the solver keeps.
pub const ELEVATION_RUN_LIMIT: i64 = 0x100_0000_0000_0000;

/// Largest response time a basin pass can produce.
pub const RT_TERM_LIMIT: u128 = 1099511627776;

/// The error of terrain generation: the configuration faults that are
/// rejected before any iteration runs.
#[derive(Clone, Copy, Debug, PartialEq, Eq)]
pub enum GenerationError {
    /// The number of topographical parameters must equal the site count.
    InvalidNumberOfParameters,
    /// Topographical parameters must be set before generating terrain.
    ParametersNotSet,
    /// A `TerrainModel2D` must be set before generating terrain.
    ModelNotSet,
    /// Some parameter is out of the solver's admitted ranges.
    InvalidParameters,
    /// The model's graph, areas or default outlets are ill-formed.
    InvalidModel,
    /// No site is an outlet: nothing could ever drain anywhere.
    EmptyOutlets,
    /// Some site has no path through the graph to any outlet.
    Disconnected,
}

/// The length of the unique edge between two neighboring sites.
pub open spec fn edge_len(adj: Seq<Seq<(usize, Length)>>, i: int, j: int) -> Length {
    choose|w: Length| is_nbr_with(adj, i, j, w)
}

/// In a well-formed adjacency the edge length is unique, so `has_edge`
/// returns it.
proof fn lemma_edge_len(adj: Seq<Seq<(usize, Length)>>, i: int, j: int, w: Length)
    requires
        adj_wf(adj),
        0 <= i < adj.len(),
        is_nbr_with(adj, i, j, w),
    ensures
        edge_len(adj, i, j) == w,
{
    let w2 = edge_len(adj, i, j);
    assert(is_nbr_with(adj, i, j, w2));
    let k1 = choose|k: int| 0 <= k < adj[i].len() && #[trigger] adj[i][k] == (j as usize, w);
    let k2 = choose|k: int| 0 <= k < adj[i].len() && #[trigger] adj[i][k] == (j as usize, w2);
    assert(adj_list_wf(adj, i));
    if k1 < k2 {
        assert((adj[i][k1]).0 != (adj[i][k2]).0);
    } else if k2 < k1 {
        assert((adj[i][k2]).0 != (adj[i][k1]).0);
    }
}

/// The integer square root, as a mathematical value.
pub open spec fn sqrt_floor(v: int) -> int {
    choose|r: int| 0 <= r && #[trigger] (r * r) <= v && v < (r + 1) * (r + 1)
}

/// `isqrt`'s result is the integer square root.
proof fn lemma_sqrt_floor(v: int, r: int)
    requires
        0 <= r,
        r * r <= v,
        v < (r + 1) * (r + 1),
    ensures
        sqrt_floor(v) == r,
{
    assert(0 <= r && r * r <= v && v < (r + 1) * (r + 1));
    let r2 = sqrt_floor(v);
    assert(0 <= r2 && r2 * r2 <= v && v < (r2 + 1) * (r2 + 1));
    assert(r == r2) by (nonlinear_arith)
        requires
            0 <= r,
            0 <= r2,
            r * r <= v,
            v < (r + 1) * (r + 1),
            r2 * r2 <= v,
            v < (r2 + 1) * (r2 + 1);
}

/// The time an erosion wave needs to cross the edge leaving `i`: edge
/// length (scaled) over the celerity `erodibility * sqrt(drainage area)`.
pub open spec fn rt_term(
    adj: Seq<Seq<(usize, Length)>>,
    nxt: Seq<usize>,
    params: Seq<TopographicalParameters>,
    d: Seq<Area>,
    i: int,
) -> int {
    let dist: int = if nxt[i] == i { 1 } else { edge_len(adj, i, nxt[i] as int) as int };
    (dist * RT_SCALE) / (params[i].erodibility * sqrt_floor(d[i] as int))
}

/// The response time of `i`: the crossing times accumulated along the flow
/// path from the outlet up to `i` (the outlet contributes its own term).
pub open spec fn rt_of(
    adj: Seq<Seq<(usize, Length)>>,
    nxt: Seq<usize>,
    rank: Seq<nat>,
    params: Seq<TopographicalParameters>,
    d: Seq<Area>,
    i: int,
) -> int
    decreases rank[i]
        when flow_wf(nxt, flags_of(nxt), rank) && 0 <= i < nxt.len()
            via rt_of_decreases
{
    if nxt[i] == i {
        rt_term(adj, nxt, params, d, i)
    } else {
        rt_of(adj, nxt, rank, params, d, nxt[i] as int) + rt_term(adj, nxt, params, d, i)
    }
}

#[via_fn]
proof fn rt_of_decreases(
    adj: Seq<Seq<(usize, Length)>>,
    nxt: Seq<usize>,
    rank: Seq<nat>,
    params: Seq<TopographicalParameters>,
    d: Seq<Area>,
    i: int,
) {
    if flow_wf(nxt, flags_of(nxt), rank) && 0 <= i < nxt.len() && nxt[i] != i {
        assert(flows_ok(nxt, flags_of(nxt), rank, i));
        assert(!flags_of(nxt)[i]);
    }
}

/// The sum of `d` over the first `upto` sites of a traversal.
pub open spec fn sum_over(t: Seq<usize>, d: Seq<Area>, upto: int) -> int
    decreases upto,
{
    if upto <= 0 {
        0
    } else {
        sum_over(t, d, upto - 1) + d[t[upto - 1] as int]
    }
}

proof fn lemma_sum_nonneg(t: Seq<usize>, d: Seq<Area>, upto: int)
    ensures
        sum_over(t, d, upto) >= 0,
    decreases upto,
{
    if upto > 0 {
        lemma_sum_nonneg(t, d, upto - 1);
    }
}

/// Every summand is at most the whole sum.
proof fn lemma_elem_le_sum(t: Seq<usize>, d: Seq<Area>, upto: int, q: int)
    requires
        0 <= q < upto,
    ensures
        d[t[q] as int] <= sum_over(t, d, upto),
    decreases upto,
{
    if q == upto - 1 {
        lemma_sum_nonneg(t, d, upto - 1);
    } else {
        lemma_elem_le_sum(t, d, upto - 1, q);
    }
}

/// A sum of bounded summands is bounded by count times the bound.
proof fn lemma_sum_le_max(t: Seq<usize>, d: Seq<Area>, upto: int, cap: int)
    requires
        0 <= upto,
        forall|q: int| 0 <= q < upto ==> d[(#[trigger] t[q]) as int] <= cap,
        0 <= cap,
    ensures
        sum_over(t, d, upto) <= upto * cap,
    decreases upto,
{
    if upto > 0 {
        lemma_sum_le_max(t, d, upto - 1, cap);
        assert((upto - 1) * cap + cap == upto * cap) by (nonlinear_arith);
    }
}

/// Raising one entry that occurs at a single listed position raises the
/// prefix sum by the same amount.
proof fn lemma_sum_update(t: Seq<usize>, d: Seq<Area>, d2: Seq<Area>, upto: int, s: int, v: int)
    requires
        0 <= s < d.len(),
        d2 == d.update(s, (d[s] + v) as Area),
        d[s] + v <= Area::MAX,
        v >= 0,
        exists|p: int| 0 <= p < upto && t[p] as int == s,
        forall|p1: int, p2: int| 0 <= p1 < p2 < upto
            ==> (#[trigger] t[p1]) != (#[trigger] t[p2]),
        forall|p: int| 0 <= p < upto ==> (#[trigger] t[p]) < d.len(),
    ensures
        sum_over(t, d2, upto) == sum_over(t, d, upto) + v,
    decreases upto,
{
    let pw = choose|p: int| 0 <= p < upto && t[p] as int == s;
    if pw == upto - 1 {
        assert(sum_over(t, d2, upto - 1) == sum_over(t, d, upto - 1)) by {
            lemma_sum_frame(t, d, d2, upto - 1, s);
        }
    } else {
        assert(t[upto - 1] as int != s);
        lemma_sum_update(t, d, d2, upto - 1, s, v);
    }
}

/// Accumulate drainage areas downstream: walking the basin from the stream
/// heads toward the outlet, each site adds its accumulated area into the
/// site it flows into. Afterwards the outlet holds exactly the sum of the
/// basin's areas, and nothing outside the basin moved.
#[verifier::rlimit(100)]
#[verifier::spinoff_prover]
fn accumulate_areas(
    basin: &DrainageBasin,
    tree: &StreamTree,
    outlet: usize,
    drainage: &mut Vec<Area>,
)
    requires
        basin.wf(*tree, outlet),
        flow_wf(tree.next@, flags_of(tree.next@), tree.rank@),
        tree.next@.len() == old(drainage)@.len(),
        old(drainage)@.len() <= SITE_LIMIT,
        outlet < tree.next@.len(),
        tree.next@[outlet as int] == outlet,
        forall|q: int| 0 <= q < basin.order().len()
            ==> old(drainage)@[(#[trigger] basin.order()[q]) as int] < AREA_LIMIT,
    ensures
        final(drainage)@.len() == old(drainage)@.len(),
        final(drainage)@[outlet as int]
            == sum_over(basin.order(), old(drainage)@, basin.order().len() as int),
        forall|x: int| 0 <= x < old(drainage)@.len()
            && !basin.order().contains(x as usize)
            ==> final(drainage)@[x] == old(drainage)@[x],
        forall|x: int| 0 <= x < old(drainage)@.len()
            ==> final(drainage)@[x] >= old(drainage)@[x],
{
    let ghost ord = basin.order();
    let ghost nxv = tree.next@;
    let ghost d0 = old(drainage)@;
    let ghost num = old(drainage)@.len() as int;
    let ghost total = sum_over(ord, d0, ord.len() as int);
    proof {
        lemma_sum_le_max(ord, d0, ord.len() as int, AREA_LIMIT as int);
        crate::drainage_basin::lemma_distinct_bounded_len(ord, num);
        assert(ord.len() * (AREA_LIMIT as int) <= 0x200000000000000) by (nonlinear_arith)
            requires 0 <= ord.len() <= 0x1000000 && AREA_LIMIT as int == 0x100000000;
        lemma_sum_nonneg(ord, d0, ord.len() as int);
    }
    let t = basin.for_each_upstream();
    let mut q2: usize = t.len();
    while q2 > 0
        invariant
            basin.wf(*tree, outlet),
            flow_wf(nxv, flags_of(nxv), tree.rank@),
            tree.next@ == nxv,
            ord == basin.order(),
            d0 == old(drainage)@,
            t@ == ord,
            drainage@.len() == num,
            nxv.len() == num,
            outlet < num,
            nxv[outlet as int] == outlet,
            q2 <= ord.len(),
            0 <= total <= 0x200000000000000,
            total == sum_over(ord, d0, ord.len() as int),
            q2 >= 1 ==> sum_over(ord, drainage@, q2 as int) == total,
            q2 == 0 ==> drainage@[outlet as int] == total,
            forall|x: int| 0 <= x < num && !ord.contains(x as usize)
                ==> #[trigger] drainage@[x] == d0[x],
            forall|x: int| 0 <= x < num ==> #[trigger] drainage@[x] >= d0[x],
        decreases q2,
    {
        q2 -= 1;
        let i = t[q2];
        proof {
            assert(ord[q2 as int] < num);
            assert(ord.contains(ord[q2 as int]));
        }
        let j = tree.get_next(i);
        proof {
            assert(flows_ok(nxv, flags_of(nxv), tree.rank@, i as int));
        }
        if j != i {
            proof {
                assert(q2 >= 1) by {
                    if q2 == 0 {
                        assert(ord[0] == outlet);
                    }
                }
                assert(parent_ok(ord, nxv, q2 as int, ord.len() as int));
            }
            let ghost p = choose|p: int| 0 <= p < q2 as int && p < ord.len() as int
                && ord[p] == nxv[ord[q2 as int] as int];
            proof {
                assert(ord[p] == j);
                assert(ord.contains(ord[p]));
                // both cells are bounded by the basin total
                lemma_elem_le_sum(ord, drainage@, q2 as int + 1, q2 as int);
                lemma_elem_le_sum(ord, drainage@, q2 as int + 1, p);
            }
            let dj = drainage[j];
            let di = drainage[i];
            let ghost d_pre = drainage@;
            drainage.set(j, dj + di);
            proof {
                // moving `di` into the unique listed cell for `j` raises the
                // prefix sum by `di`, exactly undoing the dropped summand
                assert forall|p1: int, p2: int| 0 <= p1 < p2 < q2 as int
                    implies (#[trigger] ord[p1]) != (#[trigger] ord[p2]) by {
                }
                lemma_sum_update(ord, d_pre, drainage@, q2 as int, j as int, di as int);
                assert(sum_over(ord, d_pre, q2 as int + 1)
                    == sum_over(ord, d_pre, q2 as int) + d_pre[ord[q2 as int] as int]);
            }
        } else {
            proof {
                if q2 >= 1 {
                    assert(parent_ok(ord, nxv, q2 as int, ord.len() as int));
                    let pp = choose|pp: int| 0 <= pp < q2 as int && pp < ord.len() as int
                        && ord[pp] == nxv[ord[q2 as int] as int];
                    assert(ord[pp] == j && j == i && ord[q2 as int] == i);
                }
                assert(q2 == 0);
                assert(ord[0] == outlet);
                assert(sum_over(ord, drainage@, 0) == 0);
                assert(sum_over(ord, drainage@, 1) == drainage@[outlet as int]);
            }
        }
    }
}

/// Accumulate response times upstream: each site's response time is its
/// downstream site's plus the travel time of the erosion wave across the
/// connecting edge, computed root-first along the basin traversal.
#[verifier::rlimit(100)]
#[verifier::spinoff_prover]
fn accumulate_response_times(
    basin: &DrainageBasin,
    tree: &StreamTree,
    outlet: usize,
    graph: &EdgeAttributedUndirectedGraph<Length>,
    params: &Vec<TopographicalParameters>,
    drainage: &Vec<Area>,
    rt: &mut Vec<ResponseTime>,
) requires
        adj_wf(graph_adj(*graph)),
        basin.wf(*tree, outlet),
        tree.wf(graph_adj(*graph)),
        tree.next@.len() == old(rt)@.len(),
        tree.next@.len() == params@.len(),
        tree.next@.len() == drainage@.len(),
        tree.next@.len() <= SITE_LIMIT,
        outlet < tree.next@.len(),
        tree.next@[outlet as int] == outlet,
        forall|q: int| 0 <= q < basin.order().len()
            ==> drainage@[(#[trigger] basin.order()[q]) as int] >= 1,
        forall|q: int| 0 <= q < basin.order().len()
            ==> old(rt)@[(#[trigger] basin.order()[q]) as int] == 0,
        forall|i: int| 0 <= i < params@.len() ==> (#[trigger] params@[i]).ok(),
    ensures
        final(rt)@.len() == old(rt)@.len(),
        forall|x: int| 0 <= x < old(rt)@.len() && !basin.order().contains(x as usize)
            ==> final(rt)@[x] == old(rt)@[x],
        forall|q: int| 0 <= q < basin.order().len()
            ==> final(rt)@[(#[trigger] basin.order()[q]) as int]
                == rt_of(graph_adj(*graph), tree.next@, tree.rank@, params@, drainage@,
                    basin.order()[q] as int),
        forall|q: int| 0 <= q < basin.order().len()
            ==> final(rt)@[(#[trigger] basin.order()[q]) as int]
                <= basin.order().len() * (RT_TERM_LIMIT as int),
{
    let ghost adj = graph_adj(*graph);
    let ghost ord = basin.order();
    let ghost nxv = tree.next@;
    let ghost rankv = tree.rank@;
    let ghost rt0 = old(rt)@;
    let ghost num = old(rt)@.len() as int;
    let t = basin.for_each_upstream();
    let mut q: usize = 0;
    while q < t.len()
        invariant
            adj_wf(adj),
            graph_adj(*graph) == adj,
            basin.wf(*tree, outlet),
            tree.wf(adj),
            tree.next@ == nxv,
            tree.rank@ == rankv,
            ord == basin.order(),
            rt0 == old(rt)@,
            t@ == ord,
            q <= ord.len(),
            rt@.len() == num,
            nxv.len() == num,
            params@.len() == num,
            drainage@.len() == num,
            num <= SITE_LIMIT,
            outlet < num,
            nxv[outlet as int] == outlet,
            forall|q0: int| 0 <= q0 < ord.len()
                ==> drainage@[(#[trigger] ord[q0]) as int] >= 1,
            forall|q0: int| 0 <= q0 < ord.len()
                ==> rt0[(#[trigger] ord[q0]) as int] == 0,
            forall|i: int| 0 <= i < num ==> (#[trigger] params@[i]).ok(),
            forall|x: int| 0 <= x < num && !ord.contains(x as usize)
                ==> rt@[x] == rt0[x],
            forall|q0: int| q as int <= q0 < ord.len()
                ==> rt@[(#[trigger] ord[q0]) as int] == rt0[ord[q0] as int],
            forall|q0: int| 0 <= q0 < q as int
                ==> rt@[(#[trigger] ord[q0]) as int]
                    == rt_of(adj, nxv, rankv, params@, drainage@, ord[q0] as int),
            forall|q0: int| 0 <= q0 < q as int
                ==> rt@[(#[trigger] ord[q0]) as int] <= (q0 + 1) * (RT_TERM_LIMIT as int),
        decreases ord.len() - q,
    {
        let i = t[q];
        proof {
            assert(ord[q as int] < num);
            assert(ord.contains(ord[q as int]));
            assert(flows_ok(nxv, flags_of(nxv), rankv, i as int));
        }
        let j = tree.get_next(i);
        let distance: Length = if j != i {
            let (ok, w) = graph_has_edge(graph, i, j);
            proof {
                assert(is_nbr(adj, i as int, j as int));
                assert(ok);
                let ww = choose|ww: Length| is_nbr_with(adj, i as int, j as int, ww);
                lemma_edge_len(adj, i as int, j as int, w);
            }
            if ok {
                w
            } else {
                1
            }
        } else {
            1
        };
        proof {
            assert(adj_list_wf(adj, i as int));
            if j != i {
                assert(1 <= distance < LENGTH_LIMIT) by {
                    assert(is_nbr_with(adj, i as int, j as int, distance));
                    let k = choose|k: int| 0 <= k < adj[i as int].len()
                        && #[trigger] adj[i as int][k] == (j, distance);
                }
            }
        }
        let sq = isqrt(drainage[i]);
        proof {
            assert(sq >= 1) by {
                if sq == 0 {
                    assert(drainage@[i as int] < 1);
                }
            }
            lemma_sqrt_floor(drainage@[i as int] as int, sq as int);
            assert(params@[i as int].ok());
        }
        proof {
            assert((params@[i as int].erodibility as int) * (sq as int) < 0x10000000000000000)
                by (nonlinear_arith)
                requires
                    0 <= (params@[i as int].erodibility as int) < 0x100000000,
                    0 <= (sq as int) < 0x100000000;
        }
        let celerity: u128 = (params[i].erodibility as u128) * (sq as u128);
        proof {
            assert(celerity >= 1 && celerity == params@[i as int].erodibility as int * (sq as int))
                by (nonlinear_arith)
                requires
                    celerity == (params@[i as int].erodibility as u128) * (sq as u128),
                    params@[i as int].erodibility >= 1,
                    sq >= 1;
        }
        let term: u128 = ((distance as u128) * (RT_SCALE as u128)) / celerity;
        proof {
            assert(term <= (distance as int) * (RT_SCALE as int)) by (nonlinear_arith)
                requires
                    celerity >= 1,
                    term as int == ((distance as int) * (RT_SCALE as int)) / (celerity as int),
                    (distance as int) * (RT_SCALE as int) >= 0;
            assert((distance as u128) * (RT_SCALE as u128) < RT_TERM_LIMIT) by (nonlinear_arith)
                requires
                    0 <= (distance as u128) < 16777216,
                    (RT_SCALE as u128) == 65536,
                    RT_TERM_LIMIT == 1099511627776;
            assert(term as int == rt_term(adj, nxv, params@, drainage@, i as int));
        }
        let rt_j: u128 = rt[j];
        let ghost rt_pre = rt@;
        proof {
            if j != i {
                assert(parent_ok(ord, nxv, q as int, ord.len() as int));
                let p = choose|p: int| 0 <= p < q as int && p < ord.len() as int
                    && ord[p] == nxv[ord[q as int] as int];
                assert(rt@[j as int] == rt_of(adj, nxv, rankv, params@, drainage@, j as int));
                assert(rt@[j as int] <= (p + 1) * (RT_TERM_LIMIT as int));
                assert((p + 1) * (RT_TERM_LIMIT as int) <= (q as int) * (RT_TERM_LIMIT as int))
                    by (nonlinear_arith)
                    requires p + 1 <= q as int && RT_TERM_LIMIT as int > 0;
            } else {
                assert(q == 0) by {
                    if q >= 1 {
                        assert(parent_ok(ord, nxv, q as int, ord.len() as int));
                        let pp = choose|pp: int| 0 <= pp < q as int && pp < ord.len() as int
                            && ord[pp] == nxv[ord[q as int] as int];
                        assert(ord[pp] == ord[q as int]);
                    }
                }
                assert(root_of(nxv, rankv, i as int) == i as int);
                assert(root_of(nxv, rankv, ord[q as int] as int) == outlet);
                assert(i == outlet);
                assert(rt@[i as int] == rt0[i as int]);
                assert(rt0[i as int] == 0);
            }
        }
        if j != i {
            rt.set(i, rt_j + term);
        } else {
            // the outlet's own crossing term, taken from a zeroed slot
            let rt_i: u128 = rt[i];
            rt.set(i, rt_i + term);
        }
        proof {
            assert forall|q0: int| 0 <= q0 < q as int + 1
                implies rt@[(#[trigger] ord[q0]) as int]
                    == rt_of(adj, nxv, rankv, params@, drainage@, ord[q0] as int) by {
                if q0 < q as int {
                    assert(ord[q0] != ord[q as int]);
                    assert(rt@[ord[q0] as int] == rt_pre[ord[q0] as int]);
                }
            }
        }
        q += 1;
    }
}

/// The new elevation of `i`: its basin outlet's elevation plus its uplift
/// times its response-time lag behind the outlet, clamped so that the rise
/// toward `i` along its flow edge stays within the maximum hillslope.
pub open spec fn new_elev_of(
    adj: Seq<Seq<(usize, Length)>>,
    nxt: Seq<usize>,
    rank: Seq<nat>,
    params: Seq<TopographicalParameters>,
    rt: Seq<ResponseTime>,
    e0: Seq<Elevation>,
    i: int,
) -> int
    decreases rank[i]
        when flow_wf(nxt, flags_of(nxt), rank) && 0 <= i < nxt.len()
            via new_elev_of_decreases
{
    let root = root_of(nxt, rank, i);
    let lag: int = if rt[i] >= rt[root] { rt[i] - rt[root] } else { 0 };
    let unclamped = e0[root] + (params[i].uplift_rate * lag) / (RT_SCALE as int);
    match params[i].max_slope {
        None => unclamped,
        Some(ms) => {
            let dist: int = if nxt[i] == i { 1 } else { edge_len(adj, i, nxt[i] as int) as int };
            let downstream: int = if nxt[i] == i {
                e0[i] as int
            } else {
                new_elev_of(adj, nxt, rank, params, rt, e0, nxt[i] as int)
            };
            let rise = (ms * dist) / (TAN_SCALE as int);
            if unclamped > downstream + rise {
                downstream + rise
            } else {
                unclamped
            }
        },
    }
}

#[via_fn]
proof fn new_elev_of_decreases(
    adj: Seq<Seq<(usize, Length)>>,
    nxt: Seq<usize>,
    rank: Seq<nat>,
    params: Seq<TopographicalParameters>,
    rt: Seq<ResponseTime>,
    e0: Seq<Elevation>,
    i: int,
) {
    if flow_wf(nxt, flags_of(nxt), rank) && 0 <= i < nxt.len() && nxt[i] != i {
        assert(flows_ok(nxt, flags_of(nxt), rank, i));
        assert(!flags_of(nxt)[i]);
    }
}

/// Update the elevations of one basin, outlet first: each site settles at
/// the outlet's elevation plus its uplift times the response-time lag, and
/// is clamped where a maximum hillslope is set. Returns whether anything
/// changed, accumulated over `changed_in`.
#[verifier::rlimit(100)]
#[verifier::spinoff_prover]
fn update_elevations(
    basin: &DrainageBasin,
    tree: &StreamTree,
    outlet: usize,
    graph: &EdgeAttributedUndirectedGraph<Length>,
    params: &Vec<TopographicalParameters>,
    rt: &Vec<ResponseTime>,
    elevations: &mut Vec<Elevation>,
    changed_in: bool,
) -> (changed: bool)
    requires
        adj_wf(graph_adj(*graph)),
        basin.wf(*tree, outlet),
        tree.wf(graph_adj(*graph)),
        tree.next@.len() == old(elevations)@.len(),
        tree.next@.len() == params@.len(),
        tree.next@.len() == rt@.len(),
        tree.next@.len() <= SITE_LIMIT,
        outlet < tree.next@.len(),
        tree.next@[outlet as int] == outlet,
        forall|i: int| 0 <= i < params@.len() ==> (#[trigger] params@[i]).ok(),
        forall|q: int| 0 <= q < basin.order().len()
            ==> rt@[(#[trigger] basin.order()[q]) as int]
                <= SITE_LIMIT * (RT_TERM_LIMIT as int),
        forall|x: int| 0 <= x < old(elevations)@.len()
            ==> -ELEVATION_RUN_LIMIT <= #[trigger] old(elevations)@[x] <= ELEVATION_RUN_LIMIT,
        -BASE_ELEVATION_LIMIT <= old(elevations)@[outlet as int] <= BASE_ELEVATION_LIMIT,
    ensures
        final(elevations)@.len() == old(elevations)@.len(),
        forall|x: int| 0 <= x < old(elevations)@.len()
            && !basin.order().contains(x as usize)
            ==> final(elevations)@[x] == old(elevations)@[x],
        final(elevations)@[outlet as int] == old(elevations)@[outlet as int],
        forall|x: int| 0 <= x < old(elevations)@.len()
            ==> -ELEVATION_RUN_LIMIT <= #[trigger] final(elevations)@[x]
                <= ELEVATION_RUN_LIMIT,
        forall|q: int| 0 <= q < basin.order().len()
            ==> final(elevations)@[(#[trigger] basin.order()[q]) as int]
                == new_elev_of(graph_adj(*graph), tree.next@, tree.rank@, params@, rt@,
                    old(elevations)@, basin.order()[q] as int),
        changed_in ==> changed,
        !changed ==> final(elevations)@ == old(elevations)@,
{
    let ghost adj = graph_adj(*graph);
    let ghost ord = basin.order();
    let ghost nxv = tree.next@;
    let ghost rankv = tree.rank@;
    let ghost e0 = old(elevations)@;
    let ghost num = old(elevations)@.len() as int;
    let t = basin.for_each_upstream();
    let mut changed = changed_in;
    let mut q: usize = 0;
    while q < t.len()
        invariant
            adj_wf(adj),
            graph_adj(*graph) == adj,
            basin.wf(*tree, outlet),
            tree.wf(adj),
            tree.next@ == nxv,
            ord == basin.order(),
            e0 == old(elevations)@,
            t@ == ord,
            q <= ord.len(),
            elevations@.len() == num,
            nxv.len() == num,
            params@.len() == num,
            rt@.len() == num,
            num <= SITE_LIMIT,
            outlet < num,
            nxv[outlet as int] == outlet,
            forall|i: int| 0 <= i < num ==> (#[trigger] params@[i]).ok(),
            forall|q0: int| 0 <= q0 < ord.len()
                ==> rt@[(#[trigger] ord[q0]) as int] <= SITE_LIMIT * (RT_TERM_LIMIT as int),
            forall|x: int| 0 <= x < num && !ord.contains(x as usize)
                ==> #[trigger] elevations@[x] == e0[x],
            forall|q0: int| q as int <= q0 < ord.len()
                ==> elevations@[(#[trigger] ord[q0]) as int] == e0[ord[q0] as int],
            forall|q0: int| 0 <= q0 < q as int
                ==> elevations@[(#[trigger] ord[q0]) as int]
                    == new_elev_of(adj, nxv, tree.rank@, params@, rt@, e0, ord[q0] as int),
            tree.rank@ == rankv,
            elevations@[outlet as int] == e0[outlet as int],
            -BASE_ELEVATION_LIMIT <= e0[outlet as int] <= BASE_ELEVATION_LIMIT,
            forall|x: int| 0 <= x < num
                ==> -ELEVATION_RUN_LIMIT <= #[trigger] elevations@[x] <= ELEVATION_RUN_LIMIT,
            changed_in ==> changed,
            !changed ==> elevations@ == e0,
        decreases ord.len() - q,
    {
        let i = t[q];
        proof {
            assert(ord[q as int] < num);
            assert(ord.contains(ord[q as int]));
            assert(flows_ok(nxv, flags_of(nxv), tree.rank@, i as int));
        }
        let j = tree.get_next(i);
        let e_out = elevations[outlet];
        let rt_out = rt[outlet];
        let rt_i = rt[i];
        let lag: u128 = if rt_i >= rt_out {
            rt_i - rt_out
        } else {
            0
        };
        proof {
            assert(rt@[ord[q as int] as int] <= SITE_LIMIT * (RT_TERM_LIMIT as int));
            assert(SITE_LIMIT * (RT_TERM_LIMIT as int) == 0x10000000000000000int)
                by (nonlinear_arith)
                requires SITE_LIMIT == 0x1000000 && RT_TERM_LIMIT == 0x10000000000;
            assert(params@[i as int].ok());
            assert((params@[i as int].uplift_rate as int) * (lag as int)
                <= 128 * 0x10000000000000000int
                && (params@[i as int].uplift_rate as int) * (lag as int) >= 0)
                by (nonlinear_arith)
                requires
                    0 <= (params@[i as int].uplift_rate as int) <= 128,
                    0 <= (lag as int) <= 0x10000000000000000int;
        }
        let lift: u128 = ((params[i].uplift_rate as u128) * lag) / (RT_SCALE as u128);
        proof {
            assert((lift as int) <= 128 * 0x10000000000000000int / 65536) by (nonlinear_arith)
                requires
                    (lift as int) == ((params@[i as int].uplift_rate as int) * (lag as int))
                        / 65536,
                    0 <= (params@[i as int].uplift_rate as int) * (lag as int)
                        <= 128 * 0x10000000000000000int;
        }
        let mut new_e: i128 = (e_out as i128) + (lift as i128);
        // clamp against the maximum hillslope, if one is set
        if let Some(ms) = params[i].max_slope {
            let distance: Length = if j != i {
                let (ok, w) = graph_has_edge(graph, i, j);
                proof {
                    assert(is_nbr(adj, i as int, j as int));
                    assert(ok);
                    lemma_edge_len(adj, i as int, j as int, w);
                }
                if ok {
                    w
                } else {
                    1
                }
            } else {
                1
            };
            proof {
                assert(adj_list_wf(adj, i as int));
                if j != i {
                    assert(distance == edge_len(adj, i as int, j as int));
                    assert(1 <= distance < LENGTH_LIMIT) by {
                        assert(is_nbr_with(adj, i as int, j as int, distance));
                        let k = choose|k: int| 0 <= k < adj[i as int].len()
                            && #[trigger] adj[i as int][k] == (j, distance);
                    }
                }
                assert((ms as int) * (distance as int) <= 0x10000000000 * 0x1000000int
                    && (ms as int) * (distance as int) >= 0) by (nonlinear_arith)
                    requires
                        0 <= (ms as int) < 0x10000000000,
                        0 <= (distance as int) < 0x1000000;
            }
            let rise: i128 = ((ms as i128) * (distance as i128)) / (TAN_SCALE as i128);
            let ej = elevations[j];
            let threshold: i128 = (ej as i128) + rise;
            if new_e > threshold {
                new_e = threshold;
            }
        }
        proof {
            assert(root_of(nxv, rankv, i as int) == outlet);
            if q == 0 {
                assert(ord[0] == outlet && i == outlet);
                assert(rt_i == rt_out && lag == 0 && lift == 0);
                assert(new_e == e_out as i128);
            } else {
                assert(ord[q as int] != ord[0]);
                assert(i != outlet);
            }
            assert(-ELEVATION_RUN_LIMIT <= new_e <= ELEVATION_RUN_LIMIT);
            // the computed value is exactly the specified one
            assert((lag as int) == (if rt@[i as int] >= rt@[outlet as int] {
                rt@[i as int] - rt@[outlet as int]
            } else {
                0
            }));
            assert((lift as int)
                == (params@[i as int].uplift_rate * (lag as int)) / (RT_SCALE as int));
            if j != i {
                assert(parent_ok(ord, nxv, q as int, ord.len() as int));
                let p = choose|p: int| 0 <= p < q as int && p < ord.len() as int
                    && ord[p] == nxv[ord[q as int] as int];
                assert(ord[p] == j);
                assert(elevations@[j as int]
                    == new_elev_of(adj, nxv, rankv, params@, rt@, e0, j as int));
            } else {
                assert(elevations@[i as int] == e0[i as int]);
            }
            assert(new_e as int == new_elev_of(adj, nxv, rankv, params@, rt@, e0, i as int));
        }
        let new_val: Elevation = new_e as i64;
        let old_val = elevations[i];
        let ghost e_pre = elevations@;
        if new_val != old_val {
            changed = true;
        }
        elevations.set(i, new_val);
        proof {
            if !changed {
                assert(new_val == old_val);
                assert(elevations@ =~= e_pre);
            }
            if i != outlet {
                assert(elevations@[outlet as int] == e_pre[outlet as int]);
            }
            assert forall|q0: int| 0 <= q0 < q as int + 1
                implies elevations@[(#[trigger] ord[q0]) as int]
                    == new_elev_of(adj, nxv, rankv, params@, rt@, e0, ord[q0] as int) by {
                if q0 < q as int {
                    assert(ord[q0] != ord[q as int]);
                    assert(elevations@[ord[q0] as int] == e_pre[ord[q0] as int]);
                }
            }
        }
        q += 1;
    }
    changed
}

/// The indices of the parameters that declare themselves outlets, in
/// increasing order.
pub open spec fn outlet_indices(params: Seq<TopographicalParameters>, n: int) -> Seq<usize>
    decreases n,
{
    if n <= 0 {
        Seq::empty()
    } else if params[n - 1].is_outlet {
        outlet_indices(params, n - 1).push((n - 1) as usize)
    } else {
        outlet_indices(params, n - 1)
    }
}

/// The outlets a configuration solves with: the declared ones, or the
/// model's default outlets when none is declared.
pub open spec fn chosen_outlets(
    params: Seq<TopographicalParameters>,
    defaults: Seq<usize>,
) -> Seq<usize> {
    if outlet_indices(params, params.len() as int).len() > 0 {
        outlet_indices(params, params.len() as int)
    } else {
        defaults
    }
}

/// Provides methods for generating terrain.
///
/// ### Required properties
///  - `model` is the vector representation of the terrain network.
///  - `parameters` holds the topographical parameters of every site.
/// ### Optional properties
///  - `max_iteration` bounds the number of solver iterations; without it
///    the solver iterates until the elevations are stable.
pub struct TerrainGenerator {
    model: Option<TerrainModel2D>,
    parameters: Option<Vec<TopographicalParameters>>,
    max_iteration: Option<Step>,
}

impl Default for TerrainGenerator {
    fn default() -> (r: Self)
        ensures
            r.model_spec() is None,
            r.parameters_spec() is None,
            r.max_iteration_spec() is None,
    {
        Self { model: None, parameters: None, max_iteration: None }
    }
}

impl TerrainGenerator {
    pub closed spec fn model_spec(self) -> Option<TerrainModel2D> {
        self.model
    }

    pub closed spec fn parameters_spec(self) -> Option<Vec<TopographicalParameters>> {
        self.parameters
    }

    pub closed spec fn max_iteration_spec(self) -> Option<Step> {
        self.max_iteration
    }

    /// Set the model that contains the set of sites.
    pub fn set_model(self, model: TerrainModel2D) -> (r: Self)
        ensures
            r.model_spec() == Some(model),
            r.parameters_spec() == self.parameters_spec(),
            r.max_iteration_spec() == self.max_iteration_spec(),
    {
        Self { model: Some(model), ..self }
    }

    /// Set the topographical parameters of the sites.
    pub fn set_parameters(self, parameters: Vec<TopographicalParameters>) -> (r: Self)
        ensures
            r.parameters_spec() == Some(parameters),
            r.model_spec() == self.model_spec(),
            r.max_iteration_spec() == self.max_iteration_spec(),
    {
        Self { parameters: Some(parameters), ..self }
    }

    /// Set the maximum number of iterations.
    pub fn set_max_iteration(self, max_iteration: Step) -> (r: Self)
        ensures
            r.max_iteration_spec() == Some(max_iteration),
            r.model_spec() == self.model_spec(),
            r.parameters_spec() == self.parameters_spec(),
    {
        Self { max_iteration: Some(max_iteration), ..self }
    }
}

/// No outlet among the first `k` chosen ones roots the site `x`.
pub open spec fn untouched_root(
    nxv: Seq<usize>,
    rankv: Seq<nat>,
    outlets: Seq<usize>,
    k: int,
    x: int,
) -> bool {
    forall|k2: int| 0 <= k2 < k ==> root_of(nxv, rankv, x) != (#[trigger] outlets[k2]) as int
}

impl TerrainGenerator {
    /// The indices of the parameters that declare themselves outlets.
    fn collect_outlet_indices(params: &Vec<TopographicalParameters>) -> (r: Vec<usize>)
        ensures
            r@ == outlet_indices(params@, params@.len() as int),
            forall|k: int| 0 <= k < r@.len() ==> (#[trigger] r@[k]) < params@.len(),
    {
        let mut r: Vec<usize> = Vec::new();
        let mut i: usize = 0;
        while i < params.len()
            invariant
                i <= params@.len(),
                r@ == outlet_indices(params@, i as int),
                forall|k: int| 0 <= k < r@.len() ==> (#[trigger] r@[k]) < params@.len(),
            decreases params@.len() - i,
        {
            if params[i].is_outlet {
                r.push(i);
            }
            i += 1;
        }
        r
    }

    /// Whether every parameter lies in the solver's admitted ranges.
    fn check_params(params: &Vec<TopographicalParameters>) -> (b: bool)
        ensures
            b == forall|i: int| 0 <= i < params@.len() ==> (#[trigger] params@[i]).ok(),
    {
        let mut i: usize = 0;
        while i < params.len()
            invariant
                i <= params@.len(),
                forall|i0: int| 0 <= i0 < i ==> (#[trigger] params@[i0]).ok(),
            decreases params@.len() - i,
        {
            let p = params[i];
            let slope_ok = match p.max_slope {
                Some(t) => t < crate::units::TAN_LIMIT,
                None => true,
            };
            if !(-BASE_ELEVATION_LIMIT <= p.base_elevation && p.base_elevation <= BASE_ELEVATION_LIMIT
                && 1 <= p.erodibility && p.erodibility < crate::units::ERODIBILITY_LIMIT
                && 0 <= p.uplift_rate && p.uplift_rate <= crate::units::UPLIFT_LIMIT
                && slope_ok) {
                proof {
                    assert(!params@[i as int].ok());
                }
                return false;
            }
            i += 1;
        }
        true
    }

    /// Whether the model is fit for solving.
    fn check_model(model: &TerrainModel2D) -> (b: bool)
        ensures
            b == model.wf(),
    {
        let num = model.num();
        if model.sites().len() != num || model.areas().len() != num || num > SITE_LIMIT {
            return false;
        }
        if !crate::graph::check_graph(model.graph()) {
            return false;
        }
        let areas = model.areas();
        let mut i: usize = 0;
        while i < areas.len()
            invariant
                i <= model.areas_spec().len(),
                areas@ == model.areas_spec(),
                forall|i0: int| 0 <= i0 < i ==> 1 <= #[trigger] model.areas_spec()[i0] < AREA_LIMIT,
            decreases areas@.len() - i,
        {
            let a = areas[i];
            if a < 1 || a >= AREA_LIMIT {
                return false;
            }
            i += 1;
        }
        let defaults = model.default_outlets();
        let mut k: usize = 0;
        while k < defaults.len()
            invariant
                k <= model.default_outlets_spec().len(),
                defaults@ == model.default_outlets_spec(),
                num == graph_adj(model.graph_spec()).len(),
                forall|k0: int| 0 <= k0 < k
                    ==> (#[trigger] model.default_outlets_spec()[k0])
                        < graph_adj(model.graph_spec()).len(),
            decreases defaults@.len() - k,
        {
            if defaults[k] >= num {
                return false;
            }
            k += 1;
        }
        true
    }

    /// Whether any site index repeats.
    fn has_duplicate(v: &Vec<usize>) -> (b: bool)
        ensures
            b == !v@.no_duplicates(),
    {
        let mut i: usize = 0;
        while i < v.len()
            invariant
                i <= v@.len(),
                forall|p1: int, p2: int| 0 <= p1 < p2 < i
                    ==> (#[trigger] v@[p1]) != (#[trigger] v@[p2]),
            decreases v@.len() - i,
        {
            let mut j: usize = 0;
            while j < i
                invariant
                    j <= i < v@.len(),
                    forall|p1: int, p2: int| 0 <= p1 < p2 < i
                        ==> (#[trigger] v@[p1]) != (#[trigger] v@[p2]),
                    forall|p: int| 0 <= p < j ==> (#[trigger] v@[p]) != v@[i as int],
                decreases i - j,
            {
                if v[j] == v[i] {
                    return true;
                }
                j += 1;
            }
            i += 1;
        }
        false
    }
}

impl TerrainGenerator {
    /// The chosen outlet set of this configuration.
    pub open spec fn outlets_of(self) -> Seq<usize> {
        chosen_outlets(
            self.parameters_spec()->Some_0@,
            self.model_spec()->Some_0.default_outlets_spec(),
        )
    }

    /// Generate terrain: solve the elevations to a fixed point of the
    /// stream-power update, and report whether the solve converged before
    /// the iteration bound.
    ///
    /// All configuration faults are rejected, each with its own error,
    /// before any iteration runs; the errors come in the order the
    /// conditions are listed in the contract.
    #[verifier::rlimit(100)]
    #[verifier::spinoff_prover]
    pub fn generate(self) -> (res: Result<(Terrain2D, bool), GenerationError>)
        ensures
            res == Err::<(Terrain2D, bool), _>(GenerationError::ModelNotSet)
                <==> self.model_spec() is None,
            self.model_spec() is Some ==> (
                res == Err::<(Terrain2D, bool), _>(GenerationError::ParametersNotSet)
                    <==> self.parameters_spec() is None),
            self.model_spec() is Some && self.parameters_spec() is Some ==> {
                let m = self.model_spec()->Some_0;
                let ps = self.parameters_spec()->Some_0@;
                let num = graph_adj(m.graph_spec()).len() as int;
                &&& (res == Err::<(Terrain2D, bool), _>(GenerationError::InvalidNumberOfParameters)
                    <==> ps.len() != num)
                &&& ps.len() == num ==> {
                    &&& (res == Err::<(Terrain2D, bool), _>(GenerationError::InvalidParameters)
                        <==> !(forall|i: int| 0 <= i < num ==> (#[trigger] ps[i]).ok()))
                    &&& (forall|i: int| 0 <= i < num ==> (#[trigger] ps[i]).ok()) ==> {
                        &&& (res == Err::<(Terrain2D, bool), _>(GenerationError::InvalidModel)
                            <==> (!m.wf() || !self.outlets_of().no_duplicates()))
                        &&& m.wf() && self.outlets_of().no_duplicates() ==> {
                            &&& (res == Err::<(Terrain2D, bool), _>(GenerationError::EmptyOutlets)
                                <==> self.outlets_of().len() == 0)
                            &&& (res matches Err(e) && e == GenerationError::Disconnected
                                ==> exists|x: int| 0 <= x < num
                                    && !(#[trigger] connected_to_outlet(graph_adj(m.graph_spec()),
                                        outlet_flags(self.outlets_of(), num), x, num as nat)))
                            &&& (self.outlets_of().len() > 0 && (forall|x: int| 0 <= x < num
                                    ==> #[trigger] connected_to_outlet(graph_adj(m.graph_spec()),
                                        outlet_flags(self.outlets_of(), num), x, num as nat))
                                ==> res is Ok)
                        }
                    }
                }
            },
            res matches Ok(p) ==> {
                let m = self.model_spec()->Some_0;
                let ps = self.parameters_spec()->Some_0@;
                let num = graph_adj(m.graph_spec()).len() as int;
                &&& p.0.sites()@ == m.sites_spec()
                &&& p.0.elevations()@.len() == num
                &&& forall|x: int| 0 <= x < num
                    ==> -ELEVATION_RUN_LIMIT <= #[trigger] p.0.elevations()@[x]
                        <= ELEVATION_RUN_LIMIT
                &&& forall|k: int| 0 <= k < self.outlets_of().len()
                    ==> p.0.elevations()@[(#[trigger] self.outlets_of()[k]) as int]
                        == ps[self.outlets_of()[k] as int].base_elevation
            },
    {
        let TerrainGenerator { model, parameters, max_iteration } = self;
        let model = match model {
            Some(m) => m,
            None => {
                return Err(GenerationError::ModelNotSet);
            },
        };
        let parameters = match parameters {
            Some(p) => p,
            None => {
                return Err(GenerationError::ParametersNotSet);
            },
        };
        let num = model.num();
        if parameters.len() != num {
            return Err(GenerationError::InvalidNumberOfParameters);
        }
        if !Self::check_params(&parameters) {
            return Err(GenerationError::InvalidParameters);
        }
        if !Self::check_model(&model) {
            return Err(GenerationError::InvalidModel);
        }
        let own = Self::collect_outlet_indices(&parameters);
        let outlets: Vec<usize> = if own.len() > 0 {
            own
        } else {
            let defaults = model.default_outlets();
            let mut o: Vec<usize> = Vec::new();
            let mut k: usize = 0;
            while k < defaults.len()
                invariant
                    k <= defaults@.len(),
                    o@ == defaults@.take(k as int),
                decreases defaults@.len() - k,
            {
                o.push(defaults[k]);
                proof {
                    assert(o@ =~= defaults@.take(k as int + 1));
                }
                k += 1;
            }
            proof {
                assert(defaults@.take(defaults@.len() as int) =~= defaults@);
            }
            o
        };
        let ghost outs = outlets@;
        proof {
            assert(outs == self.outlets_of());
        }
        if Self::has_duplicate(&outlets) {
            return Err(GenerationError::InvalidModel);
        }
        if outlets.len() == 0 {
            return Err(GenerationError::EmptyOutlets);
        }
        let ghost adj = graph_adj(model.graph_spec());
        let ghost psv = parameters@;
        proof {
            assert forall|k: int| 0 <= k < outs.len()
                implies (#[trigger] outs[k]) < num by {
            }
        }

        // initial elevations: every site starts at its base elevation
        let mut elevations: Vec<Elevation> = Vec::new();
        let mut i: usize = 0;
        while i < num
            invariant
                i <= num,
                elevations@.len() == i,
                psv == parameters@,
                psv.len() == num,
                forall|i0: int| 0 <= i0 < num ==> (#[trigger] psv[i0]).ok(),
                forall|i0: int| 0 <= i0 < i
                    ==> #[trigger] elevations@[i0] == psv[i0].base_elevation,
            decreases num - i,
        {
            elevations.push(parameters[i].base_elevation);
            i += 1;
        }

        // without a bound the solve runs until the field is stable; the
        // counter's own range is the hard ceiling that keeps it finite
        let limit: Step = match max_iteration {
            Some(m) => m,
            None => Step::MAX,
        };
        let mut step: Step = 0;
        let mut converged = false;
        loop
            invariant_except_break
                step < limit || step == 0,
            invariant
                self.model_spec() == Some(model),
                self.parameters_spec() == Some(parameters),
                outs == self.outlets_of(),
                model.wf(),
                adj == graph_adj(model.graph_spec()),
                psv == parameters@,
                psv.len() == num,
                num == adj.len(),
                num <= SITE_LIMIT,
                forall|i0: int| 0 <= i0 < num ==> (#[trigger] psv[i0]).ok(),
                outs == outlets@,
                outs.len() > 0,
                outs.no_duplicates(),
                forall|k: int| 0 <= k < outs.len() ==> (#[trigger] outs[k]) < num,
                elevations@.len() == num,
                forall|x: int| 0 <= x < num
                    ==> -ELEVATION_RUN_LIMIT <= #[trigger] elevations@[x] <= ELEVATION_RUN_LIMIT,
                forall|k: int| 0 <= k < outs.len()
                    ==> #[trigger] elevations@[outs[k] as int]
                        == psv[outs[k] as int].base_elevation,
            ensures
                elevations@.len() == num,
                forall|x: int| 0 <= x < num
                    ==> -ELEVATION_RUN_LIMIT <= #[trigger] elevations@[x] <= ELEVATION_RUN_LIMIT,
                forall|k: int| 0 <= k < outs.len()
                    ==> #[trigger] elevations@[outs[k] as int]
                        == psv[outs[k] as int].base_elevation,
            decreases limit - step,
        {
            let tree = match StreamTree::construct(num, &elevations, model.graph(), &outlets) {
                Ok(t) => t,
                Err(e) => {
                    match e {
                        StreamTreeError::EmptyOutlets => {
                            proof {
                                assert(false);
                            }
                            return Err(GenerationError::EmptyOutlets);
                        },
                        StreamTreeError::Disconnected => {
                            return Err(GenerationError::Disconnected);
                        },
                    }
                },
            };
            let ghost nxv = tree.next@;
            let ghost rankv = tree.rank@;
            let ghost flags = outlet_flags(outs, num as int);

            // fresh per-iteration scratch: areas to accumulate, zero times
            let areas = model.areas();
            let mut drainage: Vec<Area> = Vec::new();
            let mut i: usize = 0;
            while i < num
                invariant
                    i <= num,
                    drainage@.len() == i,
                    areas@ == model.areas_spec(),
                    model.areas_spec().len() == num,
                    forall|i0: int| 0 <= i0 < i
                        ==> #[trigger] drainage@[i0] == model.areas_spec()[i0],
                decreases num - i,
            {
                drainage.push(areas[i]);
                i += 1;
            }
            let mut response_times: Vec<ResponseTime> = Vec::new();
            let mut i: usize = 0;
            while i < num
                invariant
                    i <= num,
                    response_times@.len() == i,
                    forall|i0: int| 0 <= i0 < i ==> #[trigger] response_times@[i0] == 0,
                decreases num - i,
            {
                response_times.push(0);
                i += 1;
            }

            let mut changed = false;
            let mut k: usize = 0;
            while k < outlets.len()
                invariant
                    model.wf(),
                    adj == graph_adj(model.graph_spec()),
                    psv == parameters@,
                    psv.len() == num,
                    num == adj.len(),
                    num <= SITE_LIMIT,
                    forall|i0: int| 0 <= i0 < num ==> (#[trigger] psv[i0]).ok(),
                    outs == outlets@,
                    outs.no_duplicates(),
                    forall|k0: int| 0 <= k0 < outs.len() ==> (#[trigger] outs[k0]) < num,
                    k <= outs.len(),
                    tree.wf(adj),
                    tree.next@ == nxv,
                    tree.rank@ == rankv,
                    nxv.len() == num,
                    forall|i0: int| 0 <= i0 < num
                        ==> ((#[trigger] nxv[i0]) == i0 <==> flags[i0]),
                    flags == outlet_flags(outs, num as int),
                    drainage@.len() == num,
                    response_times@.len() == num,
                    elevations@.len() == num,
                    forall|x: int| 0 <= x < num && untouched_root(nxv, rankv, outs, k as int, x)
                        ==> #[trigger] drainage@[x] == model.areas_spec()[x],
                    forall|x: int| 0 <= x < num && untouched_root(nxv, rankv, outs, k as int, x)
                        ==> #[trigger] response_times@[x] == 0,
                    forall|x: int| 0 <= x < num
                        ==> #[trigger] drainage@[x] >= model.areas_spec()[x],
                    forall|x: int| 0 <= x < num
                        ==> -ELEVATION_RUN_LIMIT <= #[trigger] elevations@[x]
                            <= ELEVATION_RUN_LIMIT,
                    forall|k0: int| 0 <= k0 < outs.len()
                        ==> #[trigger] elevations@[outs[k0] as int]
                            == psv[outs[k0] as int].base_elevation,
                decreases outs.len() - k,
            {
                let outlet = outlets[k];
                proof {
                    assert(outs[k as int] < num);
                    assert(flags[outlet as int]) by {
                        assert(outs.contains(outlet));
                    }
                    assert(nxv[outlet as int] == outlet);
                }
                let basin = DrainageBasin::construct(outlet, &tree, model.graph());
                let ghost ord = basin.order();
                proof {
                    lemma_root_props(nxv, rankv, outlet as int);
                    // this basin is untouched so far: roots are distinct
                    assert forall|q: int| 0 <= q < ord.len()
                        implies #[trigger] drainage@[ord[q] as int] == model.areas_spec()[ord[q] as int]
                            && response_times@[ord[q] as int] == 0 by {
                        assert(root_of(nxv, rankv, ord[q] as int) == outlet);
                        assert(untouched_root(nxv, rankv, outs, k as int, ord[q] as int)) by {
                            assert forall|k2: int| 0 <= k2 < k as int
                                implies root_of(nxv, rankv, ord[q] as int)
                                    != (#[trigger] outs[k2]) as int by {
                                assert(outs[k2] != outs[k as int]);
                            }
                        }
                    }
                }
                let ghost drainage_pre = drainage@;
                accumulate_areas(&basin, &tree, outlet, &mut drainage);
                proof {
                    assert forall|q: int| 0 <= q < ord.len()
                        implies #[trigger] drainage@[ord[q] as int] >= 1 by {
                        assert(ord[q] < num);
                        assert(drainage@[ord[q] as int] >= drainage_pre[ord[q] as int]);
                        assert(drainage_pre[ord[q] as int] == model.areas_spec()[ord[q] as int]);
                    }
                }
                accumulate_response_times(&basin, &tree, outlet, model.graph(), &parameters,
                    &drainage, &mut response_times);
                proof {
                    assert forall|q: int| 0 <= q < ord.len()
                        implies #[trigger] response_times@[ord[q] as int]
                            <= SITE_LIMIT * (RT_TERM_LIMIT as int) by {
                        assert(response_times@[ord[q] as int]
                            <= ord.len() * (RT_TERM_LIMIT as int));
                        crate::drainage_basin::lemma_distinct_bounded_len(ord, num as int);
                        assert(ord.len() * (RT_TERM_LIMIT as int)
                            <= SITE_LIMIT * (RT_TERM_LIMIT as int)) by (nonlinear_arith)
                            requires 0 <= ord.len() <= SITE_LIMIT as int
                                && RT_TERM_LIMIT as int > 0;
                    }
                    assert(-BASE_ELEVATION_LIMIT <= elevations@[outlet as int]
                        <= BASE_ELEVATION_LIMIT) by {
                        assert(elevations@[outs[k as int] as int]
                            == psv[outs[k as int] as int].base_elevation);
                        assert(psv[outlet as int].ok());
                    }
                }
                let ghost elev_pre = elevations@;
                let ghost rt_now = response_times@;
                changed = update_elevations(&basin, &tree, outlet, model.graph(), &parameters,
                    &response_times, &mut elevations, changed);
                proof {
                    // everything this basin did not touch keeps its state,
                    // and the other outlets sit in other basins
                    assert forall|x: int| 0 <= x < num
                        && untouched_root(nxv, rankv, outs, k as int + 1, x)
                        implies #[trigger] drainage@[x] == model.areas_spec()[x]
                            && response_times@[x] == 0 by {
                        assert(root_of(nxv, rankv, x) != outs[k as int]);
                        assert(!ord.contains(x as usize)) by {
                            if ord.contains(x as usize) {
                                let q = choose|q: int|
                                    0 <= q < ord.len() && (#[trigger] ord[q]) == x as usize;
                                assert(root_of(nxv, rankv, ord[q] as int) == outlet);
                            }
                        }
                        assert(untouched_root(nxv, rankv, outs, k as int, x));
                        assert(drainage_pre[x] == model.areas_spec()[x]);
                        assert(rt_now[x] == response_times@[x]);
                    }
                    assert forall|k0: int| 0 <= k0 < outs.len()
                        implies #[trigger] elevations@[outs[k0] as int]
                            == psv[outs[k0] as int].base_elevation by {
                        if k0 == k as int {
                            assert(elevations@[outlet as int] == elev_pre[outlet as int]);
                        } else {
                            let o2 = outs[k0];
                            assert(flags[o2 as int]) by {
                                assert(outs.contains(o2));
                            }
                            assert(nxv[o2 as int] == o2);
                            lemma_root_props(nxv, rankv, o2 as int);
                            assert(root_of(nxv, rankv, o2 as int) == o2);
                            assert(!ord.contains(o2)) by {
                                if ord.contains(o2) {
                                    let q = choose|q: int|
                                        0 <= q < ord.len() && (#[trigger] ord[q]) == o2;
                                    assert(root_of(nxv, rankv, ord[q] as int) == outlet);
                                    assert(o2 != outlet);
                                }
                            }
                            assert(elevations@[o2 as int] == elev_pre[o2 as int]);
                        }
                    }
                }
                k += 1;
            }

            if !changed {
                converged = true;
                break;
            }
            step += 1;
            if step >= limit {
                break;
            }
        }

        // pair the sites with the solved elevations
        let model_sites = model.sites();
        let mut sites: Vec<crate::terrain::Site2D> = Vec::new();
        let mut i: usize = 0;
        while i < model_sites.len()
            invariant
                i <= model.sites_spec().len(),
                model_sites@ == model.sites_spec(),
                sites@ == model.sites_spec().take(i as int),
            decreases model_sites@.len() - i,
        {
            sites.push(model_sites[i]);
            proof {
                assert(sites@ =~= model.sites_spec().take(i as int + 1));
            }
            i += 1;
        }
        proof {
            assert(model.sites_spec().take(model.sites_spec().len() as int)
                =~= model.sites_spec());
        }
        Ok((Terrain2D::new(sites, elevations), converged))
    }
}

/// The total area of the first `upto` sites.
pub open spec fn total_area(d: Seq<Area>, upto: int) -> int
    decreases upto,
{
    if upto <= 0 {
        0
    } else {
        total_area(d, upto - 1) + d[upto - 1]
    }
}

/// The area of the sites among the first `upto` that drain to outlet `o`.
pub open spec fn basin_area(
    nxt: Seq<usize>,
    rank: Seq<nat>,
    d: Seq<Area>,
    o: int,
    upto: int,
) -> int
    decreases upto,
{
    if upto <= 0 {
        0
    } else {
        basin_area(nxt, rank, d, o, upto - 1)
            + if root_of(nxt, rank, upto - 1) == o { d[upto - 1] as int } else { 0 }
    }
}

/// The basin areas of the first `m` listed outlets, summed.
pub open spec fn basins_total(
    nxt: Seq<usize>,
    rank: Seq<nat>,
    d: Seq<Area>,
    outs: Seq<usize>,
    m: int,
    upto: int,
) -> int
    decreases m,
{
    if m <= 0 {
        0
    } else {
        basins_total(nxt, rank, d, outs, m - 1, upto)
            + basin_area(nxt, rank, d, outs[m - 1] as int, upto)
    }
}

proof fn lemma_basins_total_zero(
    nxt: Seq<usize>,
    rank: Seq<nat>,
    d: Seq<Area>,
    outs: Seq<usize>,
    m: int,
)
    ensures
        basins_total(nxt, rank, d, outs, m, 0) == 0,
    decreases m,
{
    if m > 0 {
        lemma_basins_total_zero(nxt, rank, d, outs, m - 1);
    }
}

proof fn lemma_basins_total_step(
    nxt: Seq<usize>,
    rank: Seq<nat>,
    d: Seq<Area>,
    outs: Seq<usize>,
    m: int,
    upto: int,
)
    requires
        1 <= upto,
        forall|p1: int, p2: int| 0 <= p1 < p2 < m
            ==> (#[trigger] outs[p1]) != (#[trigger] outs[p2]),
    ensures
        basins_total(nxt, rank, d, outs, m, upto) == basins_total(nxt, rank, d, outs, m, upto - 1)
            + if exists|k: int| 0 <= k < m
                && (#[trigger] outs[k]) as int == root_of(nxt, rank, upto - 1) {
                d[upto - 1] as int
            } else {
                0
            },
    decreases m,
{
    if m > 0 {
        lemma_basins_total_step(nxt, rank, d, outs, m - 1, upto);
        let r = root_of(nxt, rank, upto - 1);
        if outs[m - 1] as int == r {
            assert(!(exists|k: int| 0 <= k < m - 1 && (#[trigger] outs[k]) as int == r)) by {
                if exists|k: int| 0 <= k < m - 1 && (#[trigger] outs[k]) as int == r {
                    let k = choose|k: int| 0 <= k < m - 1 && (#[trigger] outs[k]) as int == r;
                    assert(outs[k] != outs[m - 1]);
                }
            }
            assert(exists|k: int| 0 <= k < m && (#[trigger] outs[k]) as int == r) by {
                assert((outs[m - 1]) as int == r);
            }
        } else {
            assert((exists|k: int| 0 <= k < m && (#[trigger] outs[k]) as int == r)
                == (exists|k: int| 0 <= k < m - 1 && (#[trigger] outs[k]) as int == r)) by {
                if exists|k: int| 0 <= k < m && (#[trigger] outs[k]) as int == r {
                    let k = choose|k: int| 0 <= k < m && (#[trigger] outs[k]) as int == r;
                    assert(k < m - 1);
                }
            }
        }
    }
}

/// Area conservation: with the outlets listed once each and covering
/// exactly the flow's self-loops, the basin areas summed across all
/// outlets equal the total area of all sites — every site is counted in
/// exactly one basin, none twice, none dropped.
pub proof fn lemma_area_conservation(
    nxt: Seq<usize>,
    rank: Seq<nat>,
    d: Seq<Area>,
    outs: Seq<usize>,
    upto: int,
)
    requires
        flow_wf(nxt, flags_of(nxt), rank),
        d.len() == nxt.len(),
        outs.no_duplicates(),
        forall|j: int| 0 <= j < nxt.len()
            ==> (#[trigger] flags_of(nxt)[j] <==> outs.contains(j as usize)),
        0 <= upto <= nxt.len(),
    ensures
        basins_total(nxt, rank, d, outs, outs.len() as int, upto) == total_area(d, upto),
    decreases upto,
{
    if upto == 0 {
        lemma_basins_total_zero(nxt, rank, d, outs, outs.len() as int);
    } else {
        lemma_area_conservation(nxt, rank, d, outs, upto - 1);
        lemma_basins_total_step(nxt, rank, d, outs, outs.len() as int, upto);
        let r = root_of(nxt, rank, upto - 1);
        lemma_root_props(nxt, rank, upto - 1);
        assert(nxt[r] == r);
        assert(flags_of(nxt)[r]);
        assert(outs.contains(r as usize));
        assert(exists|k: int| 0 <= k < outs.len()
            && (#[trigger] outs[k]) as int == r) by {
            let k = choose|k: int| 0 <= k < outs.len() && (#[trigger] outs[k]) == r as usize;
            assert(outs[k] as int == r);
        }
    }
}

proof fn lemma_sum_congruent(t1: Seq<usize>, t2: Seq<usize>, d: Seq<Area>, upto: int)
    requires
        forall|q: int| 0 <= q < upto ==> (#[trigger] t1[q]) == t2[q],
    ensures
        sum_over(t1, d, upto) == sum_over(t2, d, upto),
    decreases upto,
{
    if upto > 0 {
        lemma_sum_congruent(t1, t2, d, upto - 1);
    }
}

proof fn lemma_sum_remove_upto(t: Seq<usize>, p: int, d: Seq<Area>, upto: int)
    requires
        0 <= p < t.len(),
        p + 1 <= upto <= t.len(),
    ensures
        sum_over(t.remove(p), d, upto - 1) == sum_over(t, d, upto) - d[t[p] as int],
    decreases upto,
{
    let t2 = t.remove(p);
    if upto == p + 1 {
        lemma_sum_congruent(t2, t, d, p);
    } else {
        lemma_sum_remove_upto(t, p, d, upto - 1);
        assert(t2[upto - 2] == t[upto - 1]);
    }
}

proof fn lemma_remove_no_dup(t: Seq<usize>, p: int)
    requires
        t.no_duplicates(),
        0 <= p < t.len(),
    ensures
        t.remove(p).no_duplicates(),
        forall|q: int| 0 <= q < t.len() && q != p
            ==> t.remove(p).contains(#[trigger] t[q]),
{
    let t2 = t.remove(p);
    assert forall|q1: int, q2: int| 0 <= q1 < q2 < t2.len()
        implies t2[q1] != t2[q2] by {
        let s1: int = if q1 < p { q1 } else { q1 + 1 };
        let s2: int = if q2 < p { q2 } else { q2 + 1 };
        assert(t2[q1] == t[s1] && t2[q2] == t[s2]);
    }
    assert forall|q: int| 0 <= q < t.len() && q != p
        implies t2.contains(#[trigger] t[q]) by {
        if q < p {
            assert(t2[q] == t[q]);
        } else {
            assert(t2[q - 1] == t[q]);
        }
    }
}

/// A duplicate-free list of exactly the sites below `upto` that drain to
/// `o` sums to the basin area of `o`.
proof fn lemma_listed_basin_sum(
    nxt: Seq<usize>,
    rank: Seq<nat>,
    t: Seq<usize>,
    d: Seq<Area>,
    o: int,
    upto: int,
)
    requires
        0 <= upto <= usize::MAX,
        t.no_duplicates(),
        forall|q: int| 0 <= q < t.len() ==> ((#[trigger] t[q]) as int) < upto,
        forall|q: int| 0 <= q < t.len()
            ==> root_of(nxt, rank, (#[trigger] t[q]) as int) == o,
        forall|j: int| 0 <= j < upto && root_of(nxt, rank, j) == o
            ==> t.contains(j as usize),
    ensures
        sum_over(t, d, t.len() as int) == basin_area(nxt, rank, d, o, upto),
    decreases upto,
{
    if upto == 0 {
        assert(t.len() == 0) by {
            if t.len() > 0 {
                assert(((t[0]) as int) < 0);
            }
        }
    } else {
        let j = upto - 1;
        if root_of(nxt, rank, j) == o {
            assert(t.contains(j as usize));
            let p = choose|p: int| 0 <= p < t.len() && t[p] == j as usize;
            let t2 = t.remove(p);
            lemma_remove_no_dup(t, p);
            lemma_sum_remove_upto(t, p, d, t.len() as int);
            assert forall|q: int| 0 <= q < t2.len()
                implies ((#[trigger] t2[q]) as int) < upto - 1
                    && root_of(nxt, rank, t2[q] as int) == o by {
                let s: int = if q < p { q } else { q + 1 };
                assert(t2[q] == t[s]);
                assert(t[s] != t[p] || s == p);
                assert(t2[q] as int != j);
            }
            assert forall|j2: int| 0 <= j2 < upto - 1 && root_of(nxt, rank, j2) == o
                implies t2.contains(j2 as usize) by {
                assert(t.contains(j2 as usize));
                let q = choose|q: int| 0 <= q < t.len() && (#[trigger] t[q]) == j2 as usize;
                assert(q != p);
            }
            lemma_listed_basin_sum(nxt, rank, t2, d, o, upto - 1);
        } else {
            assert forall|q: int| 0 <= q < t.len()
                implies ((#[trigger] t[q]) as int) < upto - 1 by {
                assert(root_of(nxt, rank, t[q] as int) == o);
                assert(t[q] as int != j);
            }
            lemma_listed_basin_sum(nxt, rank, t, d, o, upto - 1);
        }
    }
}

/// Per-basin area conservation, end to end: the sum a basin traversal
/// accumulates into its outlet is exactly the area of the sites that drain
/// to that outlet.
pub proof fn lemma_basin_sum_is_basin_area(
    basin: DrainageBasin,
    tree: StreamTree,
    outlet: usize,
    d: Seq<Area>,
)
    requires
        basin.wf(tree, outlet),
        flow_wf(tree.next@, flags_of(tree.next@), tree.rank@),
        d.len() == tree.next@.len(),
        tree.next@.len() <= usize::MAX,
    ensures
        sum_over(basin.order(), d, basin.order().len() as int)
            == basin_area(tree.next@, tree.rank@, d, outlet as int, tree.next@.len() as int),
{
    lemma_listed_basin_sum(tree.next@, tree.rank@, basin.order(), d, outlet as int,
        tree.next@.len() as int);
}

/// Prefix sums ignore entries outside the listed positions.
proof fn lemma_sum_frame(t: Seq<usize>, d: Seq<Area>, d2: Seq<Area>, upto: int, s: int)
    requires
        forall|p: int| 0 <= p < upto ==> (#[trigger] t[p]) as int != s,
        forall|x: int| 0 <= x < d.len() && x != s ==> d2[x] == #[trigger] d[x],
        d2.len() == d.len(),
        forall|p: int| 0 <= p < upto ==> (#[trigger] t[p]) < d.len(),
    ensures
        sum_over(t, d2, upto) == sum_over(t, d, upto),
    decreases upto,
{
    if upto > 0 {
        lemma_sum_frame(t, d, d2, upto - 1, s);
    }
}

} // verus!
