//! The stream tree: a single-flow-direction assignment over the sites.
//!
//! `next[i]` is the site that `i` drains into; `next[i] == i` exactly for
//! outlets. The tree is built in two stages: local steepest descent, then a
//! priority-driven carving pass that reopens closed depressions ("lakes") by
//! reversing the flow along a path out of each depression, so that every
//! site connected to an outlet drains to one.
//!
//! The well-formedness of a finished tree is witnessed by a ghost rank per
//! site that strictly decreases downstream; from it, every site provably
//! reaches an outlet in at most `n` hops.

use vstd::prelude::*;
use vstd::set_lib::{lemma_len_subset, lemma_int_range, set_int_range};
use terrain_graph::edge_attributed_undirected::EdgeAttributedUndirectedGraph;
use crate::graph::{adj_wf, adj_list_wf, graph_adj, graph_neighbors, is_nbr, is_nbr_with};
use crate::units::{Elevation, Length, ELEVATION_LIMIT};

verus! {

/// Why no stream tree could be built.
#[derive(Clone, Copy, PartialEq, Eq, Debug)]
pub enum StreamTreeError {
    /// The outlet set is empty: nothing could ever drain anywhere.
    EmptyOutlets,
    /// Some site has no path through the graph to any outlet.
    Disconnected,
}

/// One flow step is valid: outlets point at themselves, every other site
/// points at a different site of strictly smaller rank.
pub open spec fn flows_ok(next: Seq<usize>, outlet: Seq<bool>, rank: Seq<nat>, i: int) -> bool {
    &&& next[i] < next.len()
    &&& if outlet[i] {
        next[i] == i
    } else {
        next[i] != i && rank[next[i] as int] < rank[i]
    }
}

/// The whole assignment is valid with witness `rank`.
pub open spec fn flow_wf(next: Seq<usize>, outlet: Seq<bool>, rank: Seq<nat>) -> bool {
    &&& outlet.len() == next.len()
    &&& rank.len() == next.len()
    &&& forall|i: int| 0 <= i < next.len() ==> #[trigger] flows_ok(next, outlet, rank, i)
}

/// Following `next` from `i` lands on an outlet within `fuel` hops.
pub open spec fn reaches_outlet(next: Seq<usize>, outlet: Seq<bool>, i: int, fuel: nat) -> bool
    decreases fuel,
{
    if !(0 <= i < next.len() && outlet.len() == next.len()) {
        false
    } else if outlet[i] {
        true
    } else if fuel == 0 {
        false
    } else {
        next[i] != i && reaches_outlet(next, outlet, next[i] as int, (fuel - 1) as nat)
    }
}

/// `i` is connected to some outlet by a path of at most `fuel` edges.
pub open spec fn connected_to_outlet(
    adj: Seq<Seq<(usize, Length)>>,
    outlet: Seq<bool>,
    i: int,
    fuel: nat,
) -> bool
    decreases fuel,
{
    if !(0 <= i < outlet.len()) {
        false
    } else if outlet[i] {
        true
    } else if fuel == 0 {
        false
    } else {
        exists|j: int| is_nbr(adj, i, j) && connected_to_outlet(adj, outlet, j, (fuel - 1) as nat)
    }
}

/// An assignment is a descent: every non-self step goes strictly downhill.
pub open spec fn descent_ok(next: Seq<usize>, elev: Seq<Elevation>) -> bool {
    &&& elev.len() == next.len()
    &&& forall|i: int| 0 <= i < next.len() ==> {
        &&& (#[trigger] next[i]) < next.len()
        &&& (next[i] != i ==> elev[next[i] as int] < elev[i])
    }
    &&& forall|i: int| 0 <= i < next.len()
        ==> -ELEVATION_LIMIT <= #[trigger] elev[i] <= ELEVATION_LIMIT
}

/// Hops from `i` to the self-loop its descent path ends in.
pub open spec fn depth_to_root(next: Seq<usize>, elev: Seq<Elevation>, i: int) -> nat
    decreases elev[i] + ELEVATION_LIMIT
        when descent_ok(next, elev) && 0 <= i < next.len()
{
    if next[i] == i {
        0
    } else {
        depth_to_root(next, elev, next[i] as int) + 1
    }
}

/// The set of sites ranked strictly below `i`.
pub open spec fn lower_rank_set(rank: Seq<nat>, i: int) -> Set<int> {
    Set::new(|j: int| 0 <= j < rank.len() && rank[j] < rank[i])
}

proof fn lemma_flow_reaches_fuel(next: Seq<usize>, outlet: Seq<bool>, rank: Seq<nat>, i: int, fuel: nat)
    requires
        flow_wf(next, outlet, rank),
        0 <= i < next.len(),
        lower_rank_set(rank, i).len() <= fuel,
    ensures
        reaches_outlet(next, outlet, i, fuel),
    decreases fuel,
{
    lemma_int_range(0, next.len() as int);
    lemma_len_subset(lower_rank_set(rank, i), set_int_range(0, next.len() as int));
    assert(flows_ok(next, outlet, rank, i));
    if !outlet[i] {
        let j = next[i] as int;
        assert(lower_rank_set(rank, i).contains(j));
        assert(lower_rank_set(rank, i).len() > 0) by {
            if lower_rank_set(rank, i).len() == 0 {
                lower_rank_set(rank, i).lemma_len0_is_empty();
            }
        }
        assert(lower_rank_set(rank, j).subset_of(lower_rank_set(rank, i).remove(j)));
        lemma_len_subset(lower_rank_set(rank, j), lower_rank_set(rank, i).remove(j));
        assert(lower_rank_set(rank, i).remove(j).len() == lower_rank_set(rank, i).len() - 1);
        lemma_flow_reaches_fuel(next, outlet, rank, j, (fuel - 1) as nat);
    }
}

/// A valid assignment routes every site to an outlet in at most `n` hops.
pub proof fn lemma_flow_reaches(next: Seq<usize>, outlet: Seq<bool>, rank: Seq<nat>, i: int)
    requires
        flow_wf(next, outlet, rank),
        0 <= i < next.len(),
    ensures
        reaches_outlet(next, outlet, i, next.len() as nat),
{
    lemma_int_range(0, next.len() as int);
    lemma_len_subset(lower_rank_set(rank, i), set_int_range(0, next.len() as int));
    lemma_flow_reaches_fuel(next, outlet, rank, i, next.len() as nat);
}

/// In a well-formed adjacency, neighborhood is symmetric.
pub proof fn lemma_nbr_sym(adj: Seq<Seq<(usize, Length)>>, i: int, j: int)
    requires
        adj_wf(adj),
        adj.len() <= usize::MAX,
        0 <= i < adj.len(),
        is_nbr(adj, i, j),
    ensures
        0 <= j < adj.len(),
        is_nbr(adj, j, i),
{
    let k = choose|k: int| 0 <= k < adj[i].len() && (#[trigger] adj[i][k]).0 == j;
    assert(adj_list_wf(adj, i));
    assert((adj[i][k]).0 as int == j);
    assert(is_nbr_with(adj, (adj[i][k]).0 as int, i, adj[i][k].1));
    assert(is_nbr_with(adj, j, i, adj[i][k].1));
    let w = adj[i][k].1;
    let k2 = choose|k2: int| 0 <= k2 < adj[j].len() && #[trigger] adj[j][k2] == (i as usize, w);
    assert((adj[j][k2]).0 == i as usize);
    assert(i as usize as int == i);
    assert((adj[j][k2]).0 as int == i);
}

/// Scan of the first `k` neighbors of `i` for the strictly lower neighbor
/// with the steepest downhill slope; earlier entries win ties. Returns the
/// chosen site and the length of the chosen edge, or `i` itself (with a
/// placeholder length) when no neighbor is lower.
pub open spec fn steepest_scan(
    nbrs: Seq<(usize, Length)>,
    elev: Seq<Elevation>,
    i: int,
    k: int,
) -> (usize, Length)
    decreases k,
{
    if k <= 0 {
        (i as usize, 1 as Length)
    } else {
        let prev = steepest_scan(nbrs, elev, i, k - 1);
        let j = nbrs[k - 1].0;
        let d = nbrs[k - 1].1;
        if elev[j as int] < elev[i] && (prev.0 == i as usize
            || (elev[i] - elev[j as int]) * (prev.1 as int) > (elev[i] - elev[prev.0 as int]) * (d as int)) {
            (j, d)
        } else {
            prev
        }
    }
}

/// The flow assignment local steepest descent produces: outlets keep
/// themselves, every other site takes its steepest strictly lower neighbor.
pub open spec fn steepest_next(
    adj: Seq<Seq<(usize, Length)>>,
    elev: Seq<Elevation>,
    outlet: Seq<bool>,
) -> Seq<usize> {
    Seq::new(adj.len(), |i: int| if outlet[i] {
        i as usize
    } else {
        steepest_scan(adj[i], elev, i, adj[i].len() as int).0
    })
}

/// What the scan picks: either `i` itself, or one of the scanned entries,
/// pointing strictly downhill.
proof fn lemma_steepest_scan_props(nbrs: Seq<(usize, Length)>, elev: Seq<Elevation>, i: int, k: int)
    requires
        0 <= k <= nbrs.len(),
    ensures
        steepest_scan(nbrs, elev, i, k).0 == i as usize || (exists|kk: int|
            0 <= kk < k && nbrs[kk] == steepest_scan(nbrs, elev, i, k)
                && elev[(#[trigger] nbrs[kk]).0 as int] < elev[i]),
    decreases k,
{
    if k > 0 {
        lemma_steepest_scan_props(nbrs, elev, i, k - 1);
    }
}

/// Partial root table: every assigned site points at a recorded self-loop
/// root, consistently along its descent path.
spec fn part_ok(sub: Seq<Option<usize>>, nx: Seq<usize>, x: int) -> bool {
    match sub[x] {
        Some(r) => {
            &&& (r as int) < sub.len()
            &&& nx[r as int] == r
            &&& sub[r as int] == Some(r)
            &&& (nx[x] == x ==> r as int == x)
            &&& (nx[x] != x ==> sub[nx[x] as int] == sub[x])
        },
        None => true,
    }
}

/// A finished root table: `sub[i]` is the self-loop that `i`'s descent path
/// ends in, idempotent, constant along paths, and the identity on outlets.
spec fn subroot_ok(sub: Seq<usize>, nx: Seq<usize>, outlet: Seq<bool>, i: int) -> bool {
    &&& (sub[i] as int) < sub.len()
    &&& nx[sub[i] as int] == sub[i]
    &&& sub[sub[i] as int] == sub[i]
    &&& (nx[i] == i ==> sub[i] as int == i)
    &&& (nx[i] != i ==> sub[nx[i] as int] == sub[i])
    &&& (outlet[i] ==> sub[i] as int == i)
}

/// Some root in a finished root table is not an outlet: a lake exists.
spec fn lake_among(sub: Seq<usize>, outlet: Seq<bool>) -> bool {
    exists|x: int| 0 <= x < sub.len() && !outlet[(#[trigger] sub[x]) as int]
}

/// Some recorded root is not an outlet: a lake was found.
spec fn some_lake(sub: Seq<Option<usize>>, outlet: Seq<bool>) -> bool {
    exists|x: int|
        {
            &&& 0 <= x < sub.len()
            &&& #[trigger] sub[x] matches Some(r)
            &&& !outlet[r as int]
        }
}

/// The site `t` hops along the initial descent from `j`.
spec fn walk_at(next0: Seq<usize>, j: int, t: nat) -> int
    decreases t,
{
    if t == 0 {
        j
    } else {
        next0[walk_at(next0, j, (t - 1) as nat)] as int
    }
}

/// Position `t` of the walk from `j` has been redirected to position
/// `t - 1` in `v`.
spec fn flip_at(v: Seq<usize>, next0: Seq<usize>, j: int, t: nat) -> bool {
    v[walk_at(next0, j, t)] == walk_at(next0, j, (t - 1) as nat)
}

/// `x` lies on the descent walk from `j` to its root.
spec fn on_walk(next0: Seq<usize>, elev: Seq<Elevation>, j: int, x: int) -> bool
    decreases depth_to_root(next0, elev, j)
        when descent_ok(next0, elev) && 0 <= j < next0.len()
{
    if x == j {
        true
    } else if next0[j] == j {
        false
    } else {
        on_walk(next0, elev, next0[j] as int, x)
    }
}

/// One hop shifts the walk by one position.
proof fn lemma_walk_shift(next0: Seq<usize>, elev: Seq<Elevation>, j: int, t: nat)
    requires
        descent_ok(next0, elev),
        0 <= j < next0.len(),
        next0[j] != j,
        1 <= t <= depth_to_root(next0, elev, j),
    ensures
        walk_at(next0, j, t) == walk_at(next0, next0[j] as int, (t - 1) as nat),
    decreases t,
{
    if t == 1 {
        assert(walk_at(next0, j, 0) == j);
        assert(walk_at(next0, next0[j] as int, 0) == next0[j]);
    } else {
        lemma_walk_shift(next0, elev, j, (t - 1) as nat);
        assert(walk_at(next0, j, t) == next0[walk_at(next0, j, (t - 1) as nat)]);
        assert(walk_at(next0, next0[j] as int, (t - 1) as nat)
            == next0[walk_at(next0, next0[j] as int, (t - 2) as nat)]);
    }
}

/// A walk position is on the walk, and every site on the walk is a walk
/// position, indexed by how much depth it has lost.
proof fn lemma_on_walk_index(next0: Seq<usize>, elev: Seq<Elevation>, j: int, x: int)
    requires
        descent_ok(next0, elev),
        0 <= j < next0.len(),
        on_walk(next0, elev, j, x),
    ensures
        0 <= x < next0.len(),
        depth_to_root(next0, elev, x) <= depth_to_root(next0, elev, j),
        walk_at(next0, j,
            (depth_to_root(next0, elev, j) - depth_to_root(next0, elev, x)) as nat) == x,
    decreases depth_to_root(next0, elev, j),
{
    if x != j {
        let j2 = next0[j] as int;
        lemma_on_walk_index(next0, elev, j2, x);
        let dd = depth_to_root(next0, elev, j);
        let dx = depth_to_root(next0, elev, x);
        assert(depth_to_root(next0, elev, j2) == dd - 1);
        lemma_walk_shift(next0, elev, j, (dd - dx) as nat);
    }
}

/// Along the descent walk the depth falls one per hop and the root table is
/// constant.
proof fn lemma_walk_props(
    next0: Seq<usize>,
    elev: Seq<Elevation>,
    sub: Seq<usize>,
    outlet: Seq<bool>,
    j: int,
    t: nat,
)
    requires
        descent_ok(next0, elev),
        sub.len() == next0.len(),
        outlet.len() == next0.len(),
        forall|x: int| 0 <= x < next0.len() ==> subroot_ok(sub, next0, outlet, x),
        0 <= j < next0.len(),
        t <= depth_to_root(next0, elev, j),
    ensures
        0 <= walk_at(next0, j, t) < next0.len(),
        depth_to_root(next0, elev, walk_at(next0, j, t)) == depth_to_root(next0, elev, j) - t,
        sub[walk_at(next0, j, t)] == sub[j],
        on_walk(next0, elev, j, walk_at(next0, j, t)),
    decreases t,
{
    if t > 0 {
        lemma_walk_props(next0, elev, sub, outlet, j, (t - 1) as nat);
        let w = walk_at(next0, j, (t - 1) as nat);
        assert(depth_to_root(next0, elev, w) > 0);
        assert(next0[w] != w);
        assert(subroot_ok(sub, next0, outlet, w));
        lemma_walk_props_on(next0, elev, j, t);
    }
}

/// Every walk position lies on the walk.
proof fn lemma_walk_props_on(next0: Seq<usize>, elev: Seq<Elevation>, j: int, t: nat)
    requires
        descent_ok(next0, elev),
        0 <= j < next0.len(),
        t <= depth_to_root(next0, elev, j),
    ensures
        on_walk(next0, elev, j, walk_at(next0, j, t)),
    decreases t,
{
    if t > 0 {
        let j2 = next0[j] as int;
        assert(depth_to_root(next0, elev, j) > 0);
        assert(next0[j] != j);
        lemma_walk_shift(next0, elev, j, t);
        lemma_walk_props_on(next0, elev, j2, (t - 1) as nat);
        assert(walk_at(next0, j, t) == walk_at(next0, j2, (t - 1) as nat));
        if walk_at(next0, j, t) != j {
            assert(on_walk(next0, elev, j, walk_at(next0, j, t)));
        }
    }
}

/// A route along the flow tree is in particular a path in the graph, so a
/// site that reaches an outlet is connected to one.
pub proof fn lemma_reaches_connected(
    adj: Seq<Seq<(usize, Length)>>,
    next: Seq<usize>,
    outlet: Seq<bool>,
    i: int,
    fuel: nat,
)
    requires
        next.len() == adj.len(),
        outlet.len() == next.len(),
        forall|x: int| 0 <= x < next.len()
            ==> (#[trigger] next[x]) == x || is_nbr(adj, x, next[x] as int),
        forall|x: int| 0 <= x < next.len() ==> (#[trigger] next[x]) < next.len(),
        reaches_outlet(next, outlet, i, fuel),
    ensures
        connected_to_outlet(adj, outlet, i, fuel),
    decreases fuel,
{
    if !outlet[i] {
        lemma_reaches_connected(adj, next, outlet, next[i] as int, (fuel - 1) as nat);
        assert(is_nbr(adj, i, next[i] as int));
    }
}

/// After a reversal that attaches the depression of `j` to `into`: the new
/// pointer of `x` leaves `x`, strictly descends in the new rank witness,
/// stays inside the depression except for the single step `j -> into`, and
/// runs along an edge the initial descent already used (in one direction or
/// the other), or the `j -> into` edge itself.
spec fn reversed_step_ok(
    next0: Seq<usize>,
    sub: Seq<usize>,
    new_rank: Seq<nat>,
    new_next: Seq<usize>,
    j: int,
    into: int,
    x: int,
) -> bool {
    &&& new_next[x] < new_next.len()
    &&& new_next[x] != x
    &&& new_rank[new_next[x] as int] < new_rank[x]
    &&& (sub[new_next[x] as int] == sub[j] || new_next[x] == into)
    &&& ((new_next[x] == into && x == j) || next0[new_next[x] as int] == x
        || new_next[x] == next0[x])
}

/// Builds the rank witness for a freshly reversed depression: sites on the
/// reversed walk rank by their distance from `j`, the rest of the component
/// ranks above the whole walk by their old depth, and everything sits above
/// the rank of the attachment site.
#[verifier::rlimit(100)]
#[verifier::spinoff_prover]
proof fn lemma_reversed_ranks(
    next0: Seq<usize>,
    ev: Seq<Elevation>,
    sub: Seq<usize>,
    outlet: Seq<bool>,
    old_next: Seq<usize>,
    new_next: Seq<usize>,
    rank: Seq<nat>,
    j: int,
    into: int,
    num: int,
) -> (new_rank: Seq<nat>)
    requires
        next0.len() == num,
        sub.len() == num,
        outlet.len() == num,
        old_next.len() == num,
        new_next.len() == num,
        rank.len() == num,
        ev.len() == num,
        0 <= j < num,
        0 <= into < num,
        descent_ok(next0, ev),
        forall|x: int| 0 <= x < num ==> subroot_ok(sub, next0, outlet, x),
        forall|x: int| 0 <= x < num && sub[x] == sub[j] ==> old_next[x] == next0[x],
        sub[into] != sub[j],
        forall|t: nat| 0 < t <= depth_to_root(next0, ev, j)
            ==> #[trigger] flip_at(new_next, next0, j, t),
        new_next[walk_at(next0, j, 0)] == into,
        forall|x: int| 0 <= x < num && !on_walk(next0, ev, j, x)
            ==> #[trigger] new_next[x] == old_next[x],
    ensures
        new_rank.len() == num,
        forall|x: int| 0 <= x < num && sub[x] != sub[j] ==> #[trigger] new_rank[x] == rank[x],
        forall|x: int| 0 <= x < num && sub[x] == sub[j]
            ==> #[trigger] reversed_step_ok(next0, sub, new_rank, new_next, j, into, x),
{
    let r = sub[j];
    let dd = depth_to_root(next0, ev, j);
    let fv = |s: int| if on_walk(next0, ev, j, s) {
        (dd - depth_to_root(next0, ev, s)) as nat
    } else {
        (dd + depth_to_root(next0, ev, s)) as nat
    };
    let nr = Seq::new(num as nat, |s: int| if sub[s] == r {
        (rank[into] + 1 + fv(s)) as nat
    } else {
        rank[s]
    });
    // the walk ends at the component root
    lemma_walk_props(next0, ev, sub, outlet, j, dd);
    let rw = walk_at(next0, j, dd);
    assert(depth_to_root(next0, ev, rw) == 0);
    assert(next0[rw] == rw);
    assert(subroot_ok(sub, next0, outlet, rw));
    assert(rw == r as int);
    assert forall|x: int| 0 <= x < num && sub[x] == r
        implies #[trigger] reversed_step_ok(next0, sub, nr, new_next, j, into, x) by {
        if on_walk(next0, ev, j, x) {
            lemma_on_walk_index(next0, ev, j, x);
            let t = (dd - depth_to_root(next0, ev, x)) as nat;
            lemma_walk_props(next0, ev, sub, outlet, j, t);
            assert(walk_at(next0, j, t) == x);
            assert(depth_to_root(next0, ev, x) == dd - t);
            if t == 0 {
                assert(x == j);
                assert(new_next[x] == into);
                assert(nr[into] == rank[into]);
                assert(fv(x) == 0);
                assert(nr[x] == rank[into] + 1);
                assert(reversed_step_ok(next0, sub, nr, new_next, j, into, x));
            } else {
                let y = walk_at(next0, j, (t - 1) as nat);
                lemma_walk_props(next0, ev, sub, outlet, j, (t - 1) as nat);
                assert(flip_at(new_next, next0, j, t));
                assert(new_next[x] == y);
                assert(next0[y] == x);
                assert(sub[y] == r);
                assert(depth_to_root(next0, ev, y) == dd - t + 1);
                assert(y != x);
                assert(on_walk(next0, ev, j, y));
                assert(fv(y) == t - 1 && fv(x) == t);
                assert(nr[y] < nr[x]);
                assert(reversed_step_ok(next0, sub, nr, new_next, j, into, x));
            }
        } else {
            assert(new_next[x] == old_next[x]);
            assert(old_next[x] == next0[x]);
            assert(subroot_ok(sub, next0, outlet, x));
            assert(next0[x] != x) by {
                if next0[x] == x {
                    assert(sub[x] as int == x);
                    assert(x == r as int);
                    assert(on_walk(next0, ev, j, rw));
                }
            }
            let y = next0[x] as int;
            assert(sub[y] == r);
            assert(depth_to_root(next0, ev, x) == depth_to_root(next0, ev, y) + 1);
            if on_walk(next0, ev, j, y) {
                lemma_on_walk_index(next0, ev, j, y);
                assert(fv(y) == dd - depth_to_root(next0, ev, y));
                assert(fv(y) <= dd);
                assert(fv(x) == dd + depth_to_root(next0, ev, x));
                assert(nr[y] < nr[x]);
            } else {
                assert(fv(y) == dd + depth_to_root(next0, ev, y));
                assert(fv(x) == dd + depth_to_root(next0, ev, x));
                assert(nr[y] < nr[x]);
            }
            assert(reversed_step_ok(next0, sub, nr, new_next, j, into, x));
        }
    }
    nr
}

/// The last pointer write completes the reversal of the whole walk.
#[verifier::rlimit(100)]
#[verifier::spinoff_prover]
proof fn lemma_reversal_shape(
    next0: Seq<usize>,
    ev: Seq<Elevation>,
    sub: Seq<usize>,
    outlet: Seq<bool>,
    orig: Seq<usize>,
    pre: Seq<usize>,
    fin: Seq<usize>,
    j: int,
    into: int,
    k: usize,
    nk: usize,
    num: int,
    steps: nat,
)
    requires
        next0.len() == num,
        sub.len() == num,
        outlet.len() == num,
        orig.len() == num,
        pre.len() == num,
        ev.len() == num,
        0 <= j < num,
        0 <= into < num,
        (k as int) < num,
        (nk as int) < num,
        descent_ok(next0, ev),
        forall|x: int| 0 <= x < num ==> subroot_ok(sub, next0, outlet, x),
        sub[into] != sub[j],
        steps == depth_to_root(next0, ev, j),
        walk_at(next0, j, steps) == k as int,
        if steps == 0 {
            nk as int == into
        } else {
            nk as int == walk_at(next0, j, (steps - 1) as nat)
        },
        forall|t: nat| 0 < t < steps ==> #[trigger] flip_at(pre, next0, j, t),
        steps > 0 ==> pre[walk_at(next0, j, 0)] == into,
        forall|x: int| 0 <= x < num
            && (!on_walk(next0, ev, j, x) || depth_to_root(next0, ev, x) + steps <= steps)
            ==> #[trigger] pre[x] == orig[x],
        fin == pre.update(k as int, nk),
    ensures
        fin.len() == num,
        forall|t: nat| 0 < t <= steps ==> #[trigger] flip_at(fin, next0, j, t),
        fin[walk_at(next0, j, 0)] == into,
        forall|x: int| 0 <= x < num && !on_walk(next0, ev, j, x)
            ==> #[trigger] fin[x] == orig[x],
        forall|x: int| 0 <= x < num && sub[x] != sub[j] ==> #[trigger] fin[x] == orig[x],
{
    let dd = steps;
    lemma_walk_props(next0, ev, sub, outlet, j, dd);
    assert forall|t: nat| 0 < t <= dd
        implies #[trigger] flip_at(fin, next0, j, t) by {
        lemma_walk_props(next0, ev, sub, outlet, j, t);
        if t == dd {
            assert(walk_at(next0, j, t) == k as int);
        } else {
            assert(walk_at(next0, j, t) != k as int);
            assert(flip_at(pre, next0, j, t));
            assert(pre[walk_at(next0, j, t)] == walk_at(next0, j, (t - 1) as nat));
        }
    }
    assert(fin[walk_at(next0, j, 0)] == into) by {
        if dd == 0 {
            assert(k as int == walk_at(next0, j, 0));
        } else {
            assert(walk_at(next0, j, 0) != k as int) by {
                lemma_walk_props(next0, ev, sub, outlet, j, 0);
            }
        }
    }
    assert(on_walk(next0, ev, j, k as int));
    assert forall|x: int| 0 <= x < num && !on_walk(next0, ev, j, x)
        implies #[trigger] fin[x] == orig[x] by {
        assert(x != k as int);
        assert(pre[x] == orig[x]);
    }
    assert forall|x: int| 0 <= x < num && sub[x] != sub[j]
        implies #[trigger] fin[x] == orig[x] by {
        assert(!on_walk(next0, ev, j, x)) by {
            if on_walk(next0, ev, j, x) {
                lemma_on_walk_index(next0, ev, j, x);
                let t = (dd - depth_to_root(next0, ev, x)) as nat;
                lemma_walk_props(next0, ev, sub, outlet, j, t);
            }
        }
    }
}

/// The outlet a site drains to: the self-loop its flow path ends in.
pub open spec fn root_of(next: Seq<usize>, rank: Seq<nat>, i: int) -> int
    decreases rank[i]
        when flow_wf(next, flags_of(next), rank) && 0 <= i < next.len()
            via root_of_decreases
{
    if next[i] == i {
        i
    } else {
        root_of(next, rank, next[i] as int)
    }
}

#[via_fn]
proof fn root_of_decreases(next: Seq<usize>, rank: Seq<nat>, i: int) {
    if flow_wf(next, flags_of(next), rank) && 0 <= i < next.len() && next[i] != i {
        assert(flows_ok(next, flags_of(next), rank, i));
        assert(!flags_of(next)[i]);
    }
}

/// The root is a self-loop, in range, and constant along the flow.
pub proof fn lemma_root_props(next: Seq<usize>, rank: Seq<nat>, i: int)
    requires
        flow_wf(next, flags_of(next), rank),
        0 <= i < next.len(),
    ensures
        0 <= root_of(next, rank, i) < next.len(),
        next[root_of(next, rank, i)] == root_of(next, rank, i),
        next[i] != i ==> root_of(next, rank, i) == root_of(next, rank, next[i] as int),
        next[i] == i ==> root_of(next, rank, i) == i,
    decreases rank[i],
{
    if next[i] != i {
        assert(flows_ok(next, flags_of(next), rank, i));
        assert(!flags_of(next)[i]);
        lemma_root_props(next, rank, next[i] as int);
    }
}

/// The component of `x` has been attached to an outlet.
spec fn resolved(root: Seq<Option<usize>>, sub: Seq<usize>, x: int) -> bool {
    root[sub[x] as int] is Some
}

/// `x` is in the ridge queue.
spec fn in_queue(q: Seq<(i128, usize)>, x: int) -> bool {
    exists|k: int| 0 <= k < q.len() && (#[trigger] q[k]).1 == x
}

/// All of `x`'s neighbors have been pushed.
spec fn nbrs_pushed(adj: Seq<Seq<(usize, Length)>>, pushed: Set<int>, x: int) -> bool {
    forall|k: int| 0 <= k < adj[x].len() ==> pushed.contains((#[trigger] adj[x][k]).0 as int)
}

/// How many sites are still unvisited.
spec fn unvisited_count(v: Seq<bool>) -> nat
    decreases v.len(),
{
    if v.len() == 0 {
        0
    } else {
        unvisited_count(v.drop_last()) + if v.last() { 0nat } else { 1nat }
    }
}

/// Marking one unvisited site visited lowers the count.
proof fn lemma_unvisited_update(v: Seq<bool>, i: int)
    requires
        0 <= i < v.len(),
        !v[i],
    ensures
        unvisited_count(v.update(i, true)) < unvisited_count(v),
    decreases v.len(),
{
    let v2 = v.update(i, true);
    if i == v.len() - 1 {
        assert(v2.drop_last() == v.drop_last());
    } else {
        lemma_unvisited_update(v.drop_last(), i);
        assert(v2.drop_last() == v.drop_last().update(i, true));
        assert(v2.last() == v.last());
    }
}

/// Whatever is connected to an outlet has been visited: the flood covers
/// every site the graph ties to the outlet set.
proof fn lemma_connected_visited(
    adj: Seq<Seq<(usize, Length)>>,
    outlet: Seq<bool>,
    visited: Seq<bool>,
    pushed: Set<int>,
    i: int,
    fuel: nat,
)
    requires
        adj_wf(adj),
        adj.len() <= usize::MAX,
        outlet.len() == adj.len(),
        visited.len() == adj.len(),
        forall|x: int| 0 <= x < adj.len() ==> (#[trigger] outlet[x] ==> pushed.contains(x)),
        forall|x: int| 0 <= x < adj.len() && pushed.contains(x) ==> #[trigger] visited[x],
        forall|x: int| 0 <= x < adj.len() && #[trigger] visited[x] ==> nbrs_pushed(adj, pushed, x),
        connected_to_outlet(adj, outlet, i, fuel),
    ensures
        visited[i],
    decreases fuel,
{
    if outlet[i] {
        assert(pushed.contains(i));
    } else {
        let j = choose|j: int|
            is_nbr(adj, i, j) && connected_to_outlet(adj, outlet, j, (fuel - 1) as nat);
        lemma_connected_visited(adj, outlet, visited, pushed, j, (fuel - 1) as nat);
        lemma_nbr_sym(adj, i, j);
        assert(nbrs_pushed(adj, pushed, j));
        let k = choose|k: int| 0 <= k < adj[j].len() && (#[trigger] adj[j][k]).0 == i;
        assert(pushed.contains((adj[j][k]).0 as int));
    }
}

/// The outlet flags the outlet list induces.
pub open spec fn outlet_flags(outlets: Seq<usize>, num: int) -> Seq<bool> {
    Seq::new(num as nat, |i: int| outlets.contains(i as usize))
}

/// The outlet flags a finished tree itself induces: a site is an outlet
/// exactly when it keeps itself.
pub open spec fn flags_of(next: Seq<usize>) -> Seq<bool> {
    Seq::new(next.len(), |i: int| next[i] == i)
}

/// The elevation field has no lakes: local steepest descent alone already
/// routes every site to an outlet.
pub open spec fn no_lakes(
    adj: Seq<Seq<(usize, Length)>>,
    elev: Seq<Elevation>,
    outlet: Seq<bool>,
) -> bool {
    forall|i: int| 0 <= i < adj.len()
        ==> reaches_outlet(steepest_next(adj, elev, outlet), outlet, i, adj.len() as nat)
}

/// The steepest-descent assignment is a descent along graph edges that
/// keeps outlets in place.
proof fn lemma_initial_descent(
    adj: Seq<Seq<(usize, Length)>>,
    elev: Seq<Elevation>,
    outlet: Seq<bool>,
)
    requires
        adj_wf(adj),
        adj.len() <= usize::MAX,
        elev.len() == adj.len(),
        outlet.len() == adj.len(),
        forall|i: int| 0 <= i < adj.len()
            ==> -ELEVATION_LIMIT <= #[trigger] elev[i] <= ELEVATION_LIMIT,
    ensures
        descent_ok(steepest_next(adj, elev, outlet), elev),
        forall|i: int| 0 <= i < adj.len()
            ==> (#[trigger] outlet[i] ==> steepest_next(adj, elev, outlet)[i] == i),
        forall|i: int| 0 <= i < adj.len()
            ==> (#[trigger] steepest_next(adj, elev, outlet)[i]) == i
                || is_nbr(adj, i, steepest_next(adj, elev, outlet)[i] as int),
{
    let sn = steepest_next(adj, elev, outlet);
    assert forall|i: int| 0 <= i < adj.len()
        implies (#[trigger] sn[i]) < adj.len() && (sn[i] != i ==> elev[sn[i] as int] < elev[i])
            && (sn[i] == i || is_nbr(adj, i, sn[i] as int)) by {
        if !outlet[i] {
            lemma_steepest_scan_props(adj[i], elev, i, adj[i].len() as int);
            let pick = steepest_scan(adj[i], elev, i, adj[i].len() as int);
            if pick.0 != i {
                let kk = choose|kk: int|
                    0 <= kk < adj[i].len() && adj[i][kk] == pick
                        && elev[(#[trigger] adj[i][kk]).0 as int] < elev[i];
                assert(adj_list_wf(adj, i));
                assert((adj[i][kk]).0 == pick.0);
            }
        }
    }
}

proof fn lemma_scan_shift(
    nbrs: Seq<(usize, Length)>,
    elev: Seq<Elevation>,
    elev2: Seq<Elevation>,
    i: int,
    k: int,
)
    requires
        elev2.len() == elev.len(),
        forall|x: int| 0 <= x < elev.len()
            ==> #[trigger] elev2[x] == elev[x] + (elev2[0] - elev[0]),
        elev.len() > 0,
        0 <= i < elev.len(),
        forall|kk: int| 0 <= kk < nbrs.len() ==> (#[trigger] nbrs[kk]).0 < elev.len(),
        k <= nbrs.len(),
    ensures
        steepest_scan(nbrs, elev2, i, k) == steepest_scan(nbrs, elev, i, k),
    decreases k,
{
    if k > 0 {
        lemma_scan_shift(nbrs, elev, elev2, i, k - 1);
        let prev = steepest_scan(nbrs, elev, i, k - 1);
        let j = nbrs[k - 1].0;
        assert(j < elev.len());
        assert(elev2[j as int] - elev2[i] == elev[j as int] - elev[i]);
        if prev.0 != i as usize {
            lemma_steepest_scan_props(nbrs, elev, i, k - 1);
            assert(prev.0 < elev.len()) by {
                let kk = choose|kk: int| 0 <= kk < k - 1 && nbrs[kk] == prev
                    && elev[(#[trigger] nbrs[kk]).0 as int] < elev[i];
            }
            assert(elev2[i] - elev2[prev.0 as int] == elev[i] - elev[prev.0 as int]);
        }
    }
}

/// Shifting every elevation by the same constant leaves the steepest-
/// descent flow routing unchanged, and with it the presence or absence of
/// lakes: the routing reads only elevation differences. This is the
/// routing half of the base-elevation shift law; the carving pass seeds
/// its queue with absolute outlet elevations, so the law is stated for
/// the descent assignment.
pub proof fn lemma_steepest_shift(
    adj: Seq<Seq<(usize, Length)>>,
    elev: Seq<Elevation>,
    elev2: Seq<Elevation>,
    outlet: Seq<bool>,
)
    requires
        adj_wf(adj),
        elev.len() == adj.len(),
        elev2.len() == adj.len(),
        outlet.len() == adj.len(),
        adj.len() > 0,
        forall|x: int| 0 <= x < adj.len()
            ==> #[trigger] elev2[x] == elev[x] + (elev2[0] - elev[0]),
    ensures
        steepest_next(adj, elev2, outlet) == steepest_next(adj, elev, outlet),
        no_lakes(adj, elev2, outlet) == no_lakes(adj, elev, outlet),
{
    assert forall|i: int| 0 <= i < adj.len()
        implies #[trigger] steepest_next(adj, elev2, outlet)[i]
            == steepest_next(adj, elev, outlet)[i] by {
        if !outlet[i] {
            assert(adj_list_wf(adj, i));
            lemma_scan_shift(adj[i], elev, elev2, i, adj[i].len() as int);
        }
    }
    assert(steepest_next(adj, elev2, outlet) =~= steepest_next(adj, elev, outlet));
}

/// A lake root is a non-outlet self-loop of the descent assignment, so the
/// descent alone cannot route everything: the field has lakes.
proof fn lemma_lake_blocks_descent(
    adj: Seq<Seq<(usize, Length)>>,
    elev: Seq<Elevation>,
    flags: Seq<bool>,
    next0: Seq<usize>,
    sub: Seq<usize>,
    num: int,
)
    requires
        adj.len() == num,
        flags.len() == num,
        next0.len() == num,
        sub.len() == num,
        next0 == steepest_next(adj, elev, flags),
        forall|x: int| 0 <= x < num ==> subroot_ok(sub, next0, flags, x),
        exists|x: int| 0 <= x < num && !flags[(#[trigger] sub[x]) as int],
    ensures
        !no_lakes(adj, elev, flags),
{
    let x = choose|x: int| 0 <= x < num && !flags[(#[trigger] sub[x]) as int];
    assert(subroot_ok(sub, next0, flags, x));
    let r = sub[x] as int;
    assert(next0[r] == sub[x]);
    assert(!reaches_outlet(next0, flags, r, num as nat));
}

/// The static context of the carving pass: a well-formed graph, the initial
/// descent tree over bounded elevations, and a finished root table.
spec fn carve_ctx(
    adj: Seq<Seq<(usize, Length)>>,
    nx0: Seq<usize>,
    elev: Seq<Elevation>,
    sub: Seq<usize>,
    outlet: Seq<bool>,
    num: int,
) -> bool {
    &&& adj_wf(adj)
    &&& adj.len() == num
    &&& num <= usize::MAX
    &&& nx0.len() == num
    &&& elev.len() == num
    &&& sub.len() == num
    &&& outlet.len() == num
    &&& descent_ok(nx0, elev)
    &&& forall|x: int| 0 <= x < num ==> subroot_ok(sub, nx0, outlet, x)
    &&& forall|x: int| 0 <= x < num ==> (#[trigger] outlet[x] ==> nx0[x] == x)
    &&& forall|x: int| 0 <= x < num
        ==> (#[trigger] nx0[x]) == x || is_nbr(adj, x, nx0[x] as int)
}

/// Per-site invariant of the carving pass: resolved sites flow validly to
/// other resolved sites along graph edges; unresolved sites still hold
/// their initial descent pointer.
spec fn carve_site_ok(
    adj: Seq<Seq<(usize, Length)>>,
    outlet: Seq<bool>,
    nx0: Seq<usize>,
    next: Seq<usize>,
    root: Seq<Option<usize>>,
    sub: Seq<usize>,
    rank: Seq<nat>,
    x: int,
) -> bool {
    &&& resolved(root, sub, x) ==> {
        &&& flows_ok(next, outlet, rank, x)
        &&& resolved(root, sub, next[x] as int)
        &&& next[x] == x || is_nbr(adj, x, next[x] as int)
    }
    &&& !resolved(root, sub, x) ==> next[x] == nx0[x]
}

/// The full mutable-state invariant of the carving pass.
spec fn carve_inv(
    adj: Seq<Seq<(usize, Length)>>,
    outlet: Seq<bool>,
    nx0: Seq<usize>,
    next: Seq<usize>,
    root: Seq<Option<usize>>,
    sub: Seq<usize>,
    rank: Seq<nat>,
    num: int,
) -> bool {
    &&& next.len() == num
    &&& root.len() == num
    &&& rank.len() == num
    &&& forall|x: int| 0 <= x < num
        ==> #[trigger] carve_site_ok(adj, outlet, nx0, next, root, sub, rank, x)
    &&& forall|x: int| 0 <= x < num ==> (#[trigger] outlet[x] ==> resolved(root, sub, x))
}

/// Tree structure representing the flow of water: `next` is the downstream
/// site of each site. A ghost per-site rank witnesses that the flow is
/// acyclic and rooted at the outlets.
pub struct StreamTree {
    /// The next site of each site in the flow; `next[i] == i` iff outlet.
    pub next: Vec<usize>,
    /// Ghost witness: ranks strictly decrease downstream.
    pub rank: Ghost<Seq<nat>>,
}

impl StreamTree {
    /// A finished tree: valid flow toward its self-loops (the outlets),
    /// with the ghost rank as witness, along the edges of `adj`.
    pub open spec fn wf(self, adj: Seq<Seq<(usize, Length)>>) -> bool {
        &&& self.next@.len() == adj.len()
        &&& flow_wf(self.next@, flags_of(self.next@), self.rank@)
        &&& forall|i: int| 0 <= i < self.next@.len()
            ==> (#[trigger] self.next@[i]) == i || is_nbr(adj, i, self.next@[i] as int)
    }

    /// The next site of `i` in the flow.
    pub fn get_next(&self, i: usize) -> (r: usize)
        requires
            i < self.next@.len(),
        ensures
            r == self.next@[i as int],
    {
        self.next[i]
    }

    fn create_outlet_table(num: usize, outlets: &Vec<usize>) -> (r: Vec<bool>)
        requires
            forall|k: int| 0 <= k < outlets@.len() ==> (#[trigger] outlets@[k]) < num,
        ensures
            r@.len() == num,
            forall|i: int| 0 <= i < num ==> (#[trigger] r@[i] == outlets@.contains(i as usize)),
    {
        let mut is_outlet: Vec<bool> = Vec::new();
        let mut i: usize = 0;
        while i < num
            invariant
                i <= num,
                is_outlet@.len() == i,
                forall|x: int| 0 <= x < i ==> !(#[trigger] is_outlet@[x]),
            decreases num - i,
        {
            is_outlet.push(false);
            i += 1;
        }
        let mut k: usize = 0;
        while k < outlets.len()
            invariant
                k <= outlets@.len(),
                is_outlet@.len() == num,
                forall|kk: int| 0 <= kk < outlets@.len() ==> (#[trigger] outlets@[kk]) < num,
                forall|x: int| 0 <= x < num
                    ==> (#[trigger] is_outlet@[x] == outlets@.take(k as int).contains(x as usize)),
            decreases outlets@.len() - k,
        {
            let o = outlets[k];
            is_outlet.set(o, true);
            proof {
                let pre = outlets@.take(k as int);
                let post = outlets@.take(k as int + 1);
                assert(post == pre.push(outlets@[k as int]));
                assert forall|x: int| 0 <= x < num
                    implies is_outlet@[x] == post.contains(x as usize) by {
                    if x == o as int {
                        assert(post[k as int] == o);
                        assert(post.contains(x as usize));
                    } else {
                        if post.contains(x as usize) {
                            let kk = choose|kk: int|
                                0 <= kk < k + 1 && #[trigger] post[kk] == x as usize;
                            assert(kk < k);
                            assert(pre[kk] == x as usize);
                            assert(pre.contains(x as usize));
                        }
                        if pre.contains(x as usize) {
                            let kk = choose|kk: int|
                                0 <= kk < k && #[trigger] pre[kk] == x as usize;
                            assert(post[kk] == x as usize);
                            assert(post.contains(x as usize));
                        }
                    }
                }
            }
            k += 1;
        }
        proof {
            assert(outlets@.take(outlets@.len() as int) == outlets@);
        }
        is_outlet
    }

    /// For every site, the self-loop its descent path ends in, and whether
    /// any of those roots is a lake (a non-outlet local minimum).
    #[verifier::rlimit(50)]
    fn find_roots_with_lakes(
        num: usize,
        next0: &Vec<usize>,
        elevations: &Vec<Elevation>,
        is_outlet: &Vec<bool>,
    ) -> (res: (Vec<usize>, bool))
        requires
            descent_ok(next0@, elevations@),
            next0@.len() == num,
            is_outlet@.len() == num,
            forall|i: int| 0 <= i < num ==> (#[trigger] is_outlet@[i] ==> next0@[i] == i),
        ensures
            res.0@.len() == num,
            forall|i: int| 0 <= i < num ==> subroot_ok(res.0@, next0@, is_outlet@, i),
            res.1 == lake_among(res.0@, is_outlet@),
    {
        let ghost nx = next0@;
        let ghost elev = elevations@;
        let ghost outlet = is_outlet@;
        let mut sub: Vec<Option<usize>> = Vec::new();
        let mut i: usize = 0;
        while i < num
            invariant
                i <= num,
                sub@.len() == i,
                is_outlet@ == outlet,
                outlet.len() == num,
                forall|x: int| 0 <= x < i
                    ==> #[trigger] sub@[x] == (if outlet[x] { Some(x as usize) } else { None::<usize> }),
            decreases num - i,
        {
            if is_outlet[i] {
                sub.push(Some(i));
            } else {
                sub.push(None);
            }
            i += 1;
        }
        let mut has_lake = false;
        proof {
            assert(forall|x: int| 0 <= x < num ==> #[trigger] part_ok(sub@, nx, x));
            assert(!some_lake(sub@, outlet)) by {
                if some_lake(sub@, outlet) {
                    let x = choose|x: int|
                        {
                            &&& 0 <= x < sub@.len()
                            &&& #[trigger] sub@[x] matches Some(r)
                            &&& !outlet[r as int]
                        };
                }
            }
        }
        let mut i: usize = 0;
        while i < num
            invariant
                i <= num,
                sub@.len() == num,
                next0@ == nx,
                elevations@ == elev,
                is_outlet@ == outlet,
                outlet.len() == num,
                nx.len() == num,
                descent_ok(nx, elev),
                forall|x: int| 0 <= x < num ==> (#[trigger] outlet[x] ==> nx[x] == x),
                forall|x: int| 0 <= x < num ==> #[trigger] part_ok(sub@, nx, x),
                forall|x: int| 0 <= x < num ==> (#[trigger] outlet[x] ==> sub@[x] == Some(x as usize)),
                forall|x: int| 0 <= x < i ==> (#[trigger] sub@[x]) is Some,
                has_lake == some_lake(sub@, outlet),
            decreases num - i,
        {
            let cur = sub[i];
            if cur.is_none() {
                let ghost sub_before = sub@;
                has_lake = Self::resolve_site(num, i, next0, elevations, is_outlet, &mut sub, has_lake);
                proof {
                    assert forall|x: int| 0 <= x < i + 1
                        implies (#[trigger] sub@[x]) is Some by {
                        if x < i {
                            assert(sub_before[x] is Some);
                            assert(sub@[x] == sub_before[x]);
                        }
                    }
                }
            }
            i += 1;
        }
        // every site now has a root; strip the options
        let mut out: Vec<usize> = Vec::new();
        let mut i: usize = 0;
        while i < num
            invariant
                i <= num,
                out@.len() == i,
                sub@.len() == num,
                next0@ == nx,
                is_outlet@ == outlet,
                outlet.len() == num,
                nx.len() == num,
                forall|x: int| 0 <= x < num ==> #[trigger] part_ok(sub@, nx, x),
                forall|x: int| 0 <= x < num
                    ==> (#[trigger] outlet[x] ==> sub@[x] == Some(x as usize)),
                forall|x: int| 0 <= x < num ==> (#[trigger] sub@[x]) is Some,
                has_lake == some_lake(sub@, outlet),
                forall|x: int| 0 <= x < i ==> Some(#[trigger] out@[x]) == sub@[x],
            decreases num - i,
        {
            match sub[i] {
                Some(r) => out.push(r),
                None => {
                    proof {
                        assert(sub@[i as int] is Some);
                    }
                    out.push(0);
                },
            }
            i += 1;
        }
        proof {
            assert forall|x: int| 0 <= x < num implies subroot_ok(out@, nx, outlet, x) by {
                assert(part_ok(sub@, nx, x));
                assert(Some(out@[x]) == sub@[x]);
                let rx = out@[x];
                assert(Some(out@[rx as int]) == sub@[rx as int]);
                if nx[x] != x {
                    assert(Some(out@[nx[x] as int]) == sub@[nx[x] as int]);
                }
            }
            if has_lake {
                let x = choose|x: int|
                    {
                        &&& 0 <= x < sub@.len()
                        &&& #[trigger] sub@[x] matches Some(rr)
                        &&& !outlet[rr as int]
                    };
                assert(Some(out@[x]) == sub@[x]);
                assert(!is_outlet@[(out@[x]) as int]);
                assert(lake_among(out@, outlet));
            } else {
                assert(!lake_among(out@, outlet)) by {
                    if lake_among(out@, outlet) {
                        let x = choose|x: int|
                            0 <= x < out@.len() && !outlet[(#[trigger] out@[x]) as int];
                        assert({ &&& sub@[x] matches Some(rr) &&& !outlet[rr as int] });
                        assert(some_lake(sub@, outlet));
                    }
                }
            }
            assert(has_lake == lake_among(out@, is_outlet@));
        }
        (out, has_lake)
    }


    /// Walk `i`'s descent to a root, record the root along the walked path,
    /// and report whether a lake is now known.
    #[verifier::rlimit(50)]
    fn resolve_site(
        num: usize,
        i: usize,
        next0: &Vec<usize>,
        elevations: &Vec<Elevation>,
        is_outlet: &Vec<bool>,
        sub: &mut Vec<Option<usize>>,
        has_lake_in: bool,
    ) -> (has_lake: bool)
        requires
            old(sub)@.len() == num,
            next0@.len() == num,
            is_outlet@.len() == num,
            i < num,
            descent_ok(next0@, elevations@),
            forall|x: int| 0 <= x < num ==> (#[trigger] is_outlet@[x] ==> next0@[x] == x),
            forall|x: int| 0 <= x < num ==> #[trigger] part_ok(old(sub)@, next0@, x),
            forall|x: int| 0 <= x < num
                ==> (#[trigger] is_outlet@[x] ==> old(sub)@[x] == Some(x as usize)),
            has_lake_in == some_lake(old(sub)@, is_outlet@),
        ensures
            final(sub)@.len() == num,
            forall|x: int| 0 <= x < num ==> #[trigger] part_ok(final(sub)@, next0@, x),
            forall|x: int| 0 <= x < num
                ==> (#[trigger] is_outlet@[x] ==> final(sub)@[x] == Some(x as usize)),
            forall|x: int| 0 <= x < num
                ==> ((#[trigger] old(sub)@[x]) is Some ==> final(sub)@[x] == old(sub)@[x]),
            final(sub)@[i as int] is Some,
            has_lake == some_lake(final(sub)@, is_outlet@),
    {
        let ghost nx = next0@;
        let ghost elev = elevations@;
        let ghost outlet = is_outlet@;
        let ghost sub0 = old(sub)@;
        let mut has_lake = has_lake_in;
        if sub[i].is_some() {
            return has_lake;
        }
        // walk the descent until a known root or a self-loop
        let mut path: Vec<usize> = Vec::new();
        let mut iv: usize = i;
        loop
            invariant
                sub@.len() == num,
                next0@ == nx,
                elevations@ == elev,
                is_outlet@ == outlet,
                outlet.len() == num,
                nx.len() == num,
                i < num,
                iv < num,
                descent_ok(nx, elev),
                forall|x: int| 0 <= x < num ==> (#[trigger] outlet[x] ==> nx[x] == x),
                forall|x: int| 0 <= x < num ==> #[trigger] part_ok(sub@, nx, x),
                forall|x: int| 0 <= x < num
                    ==> (#[trigger] outlet[x] ==> sub@[x] == Some(x as usize)),
                forall|x: int| 0 <= x < num
                    ==> ((#[trigger] sub0[x]) is Some ==> sub@[x] == sub0[x]),
                has_lake == some_lake(sub@, outlet),
                forall|t: int| 0 <= t < path@.len() ==> (#[trigger] path@[t]) < num,
                forall|t: int| 0 <= t < path@.len() ==> sub@[(#[trigger] path@[t]) as int] is None,
                forall|t: int| 0 <= t < path@.len()
                    ==> nx[(#[trigger] path@[t]) as int] != path@[t],
                forall|t: int| 0 <= t < path@.len() - 1
                    ==> nx[(#[trigger] path@[t]) as int] == path@[t + 1],
                path@.len() > 0 ==> path@[0] == i && nx[path@[path@.len() - 1] as int] == iv,
                path@.len() == 0 ==> iv == i,
            ensures
                sub@[iv as int] is Some || nx[iv as int] == iv,
            decreases elev[iv as int] + ELEVATION_LIMIT,
        {
            let c = sub[iv];
            if c.is_some() {
                break;
            }
            if next0[iv] == iv {
                break;
            }
            path.push(iv);
            iv = next0[iv];
        }
        // the root this walk discovered
        let r: usize = match sub[iv] {
            Some(r0) => r0,
            None => {
                has_lake = true;
                let ghost sub_old = sub@;
                sub.set(iv, Some(iv));
                proof {
                    assert(nx[iv as int] == iv);
                    assert(!outlet[iv as int]);
                    assert forall|x: int| 0 <= x < num
                        implies #[trigger] part_ok(sub@, nx, x) by {
                        assert(part_ok(sub_old, nx, x));
                        if x != iv as int {
                            if sub_old[x] is Some {
                                assert(sub_old[sub_old[x]->Some_0 as int] is Some);
                            }
                        }
                    }
                    assert(some_lake(sub@, outlet)) by {
                        assert({ &&& sub@[iv as int] matches Some(rr) &&& !outlet[rr as int] });
                    }
                }
                iv
            },
        };
        proof {
            assert(part_ok(sub@, nx, iv as int));
            assert(sub@[iv as int] == Some(r));
            assert(r < num && nx[r as int] == r && sub@[r as int] == Some(r));
        }
        // assign the walked path, nearest the root first
        let mut t: usize = path.len();
        while t > 0
            invariant
                sub@.len() == num,
                next0@ == nx,
                is_outlet@ == outlet,
                outlet.len() == num,
                nx.len() == num,
                i < num,
                iv < num,
                r < num,
                t <= path@.len(),
                nx[r as int] == r,
                sub@[r as int] == Some(r),
                sub@[iv as int] == Some(r),
                forall|x: int| 0 <= x < num ==> (#[trigger] nx[x]) < num,
                forall|x: int| 0 <= x < num ==> (#[trigger] outlet[x] ==> nx[x] == x),
                forall|x: int| 0 <= x < num ==> #[trigger] part_ok(sub@, nx, x),
                forall|x: int| 0 <= x < num
                    ==> (#[trigger] outlet[x] ==> sub@[x] == Some(x as usize)),
                forall|x: int| 0 <= x < num
                    ==> ((#[trigger] sub0[x]) is Some ==> sub@[x] == sub0[x]),
                has_lake == some_lake(sub@, outlet),
                forall|tt: int| 0 <= tt < path@.len() ==> (#[trigger] path@[tt]) < num,
                forall|tt: int| 0 <= tt < path@.len()
                    ==> nx[(#[trigger] path@[tt]) as int] != path@[tt],
                forall|tt: int| 0 <= tt < path@.len() - 1
                    ==> nx[(#[trigger] path@[tt]) as int] == path@[tt + 1],
                path@.len() > 0 ==> path@[0] == i && nx[path@[path@.len() - 1] as int] == iv,
                path@.len() == 0 ==> iv == i,
                forall|tt: int| 0 <= tt < t
                    ==> sub@[(#[trigger] path@[tt]) as int] is None,
                forall|tt: int| t <= tt < path@.len()
                    ==> sub@[(#[trigger] path@[tt]) as int] == Some(r),
            decreases t,
        {
            t -= 1;
            let p = path[t];
            let ghost sub_old = sub@;
            sub.set(p, Some(r));
            proof {
                // the site after `p` on the path already carries `r`
                assert(nx[p as int] != p);
                if t + 1 < path@.len() {
                    assert(nx[p as int] == path@[t as int + 1]);
                    assert(sub_old[nx[p as int] as int] == Some(r));
                } else {
                    assert(nx[p as int] == iv);
                    assert(sub_old[nx[p as int] as int] == Some(r));
                }
                assert(sub_old[p as int] is None);
                assert(r as int != p as int);
                assert forall|x: int| 0 <= x < num
                    implies #[trigger] part_ok(sub@, nx, x) by {
                    assert(part_ok(sub_old, nx, x));
                    if x != p as int {
                        if sub_old[x] is Some {
                            assert(sub_old[sub_old[x]->Some_0 as int] is Some);
                            if nx[x] != x {
                                assert(sub_old[nx[x] as int] == sub_old[x]);
                            }
                        }
                    }
                }
                assert(has_lake == some_lake(sub@, outlet)) by {
                    if some_lake(sub@, outlet) && !has_lake {
                        let x = choose|x: int|
                            {
                                &&& 0 <= x < sub@.len()
                                &&& #[trigger] sub@[x] matches Some(rr)
                                &&& !outlet[rr as int]
                            };
                        if x != p as int {
                            assert(sub_old[x] == sub@[x]);
                            assert(some_lake(sub_old, outlet));
                        } else {
                            assert(!outlet[r as int]);
                            assert(some_lake(sub_old, outlet)) by {
                                assert({
                                    &&& sub_old[r as int] matches Some(rr2)
                                    &&& !outlet[rr2 as int]
                                });
                            }
                        }
                    }
                    if has_lake && !some_lake(sub@, outlet) {
                        let x0 = choose|x0: int|
                            {
                                &&& 0 <= x0 < sub_old.len()
                                &&& #[trigger] sub_old[x0] matches Some(rr)
                                &&& !outlet[rr as int]
                            };
                        assert(x0 != p as int);
                        assert({
                            &&& sub@[x0] matches Some(rr)
                            &&& !outlet[rr as int]
                        });
                        assert(some_lake(sub@, outlet));
                    }
                }
            }
        }
        proof {
            assert(sub@[i as int] is Some);
        }
        proof {
            assert(sub@[i as int] is Some);
        }
        has_lake
    }

    /// Constructs a stream tree for the given elevation field: local
    /// steepest descent first, then priority-flood lake carving where
    /// depressions remain. On success every site provably drains to an
    /// outlet in at most `num` hops; if the descent alone suffices, the
    /// returned flow is exactly the steepest-descent assignment.
    #[verifier::rlimit(50)]
    pub fn construct(
        num: usize,
        elevations: &Vec<Elevation>,
        graph: &EdgeAttributedUndirectedGraph<Length>,
        outlets: &Vec<usize>,
    ) -> (res: Result<StreamTree, StreamTreeError>)
        requires
            adj_wf(graph_adj(*graph)),
            num == graph_adj(*graph).len(),
            elevations@.len() == num,
            forall|k: int| 0 <= k < outlets@.len() ==> (#[trigger] outlets@[k]) < num,
            forall|i: int| 0 <= i < num
                ==> -ELEVATION_LIMIT <= #[trigger] elevations@[i] <= ELEVATION_LIMIT,
        ensures
            (res matches Err(e) && e == StreamTreeError::EmptyOutlets) <==> outlets@.len() == 0,
            res matches Err(e) && e == StreamTreeError::Disconnected
                ==> exists|x: int| 0 <= x < num
                    && !connected_to_outlet(graph_adj(*graph),
                        outlet_flags(outlets@, num as int), x, num as nat),
            outlets@.len() > 0 && (forall|x: int| 0 <= x < num
                ==> connected_to_outlet(graph_adj(*graph),
                    outlet_flags(outlets@, num as int), x, num as nat)) ==> res is Ok,
            res matches Ok(t) ==> {
                &&& t.wf(graph_adj(*graph))
                &&& forall|i: int| 0 <= i < num
                    ==> ((#[trigger] t.next@[i]) == i
                        <==> outlet_flags(outlets@, num as int)[i])
                &&& forall|i: int| 0 <= i < num
                    ==> reaches_outlet(t.next@, outlet_flags(outlets@, num as int), i, num as nat)
                &&& forall|i: int| 0 <= i < num
                    ==> connected_to_outlet(graph_adj(*graph),
                        outlet_flags(outlets@, num as int), i, num as nat)
                &&& (no_lakes(graph_adj(*graph), elevations@, outlet_flags(outlets@, num as int))
                    ==> t.next@ == steepest_next(graph_adj(*graph), elevations@,
                        outlet_flags(outlets@, num as int)))
            },
    {
        let ghost adj = graph_adj(*graph);
        let ghost elev = elevations@;
        let ghost flags = outlet_flags(outlets@, num as int);
        if outlets.len() == 0 {
            return Err(StreamTreeError::EmptyOutlets);
        }

        // `is_outlet` is a table that indicates whether a site is an outlet.
        let is_outlet = Self::create_outlet_table(num, outlets);
        proof {
            assert(is_outlet@ =~= flags);
        }

        // the initial tree: steepest descent; it can still hold lakes
        let next0 = Self::construct_initial_stream_tree(num, elevations, graph, &is_outlet);
        proof {
            lemma_initial_descent(adj, elev, flags);
        }

        // the root each site currently drains to, and whether any is a lake
        let (subroot, has_lake) = Self::find_roots_with_lakes(num, &next0, elevations, &is_outlet);

        if !has_lake {
            // every root is an outlet: the descent tree is already complete
            let ghost rank0 = Seq::new(num as nat, |x: int| depth_to_root(next0@, elev, x));
            let tree = StreamTree { next: next0, rank: Ghost(rank0) };
            proof {
                assert forall|i: int| 0 <= i < num
                    implies #[trigger] flows_ok(tree.next@, flags, rank0, i) by {
                    assert(subroot_ok(subroot@, tree.next@, flags, i));
                    if !flags[i] {
                        assert(flags[subroot@[i] as int]);
                        assert(tree.next@[i] != i) by {
                            if tree.next@[i] == i {
                                assert(subroot@[i] as int == i);
                            }
                        }
                        assert(subroot_ok(subroot@, tree.next@, flags, tree.next@[i] as int));
                    }
                }
                assert(flow_wf(tree.next@, flags, rank0));
                assert forall|i: int| 0 <= i < num
                    implies reaches_outlet(tree.next@, flags, i, num as nat) by {
                    lemma_flow_reaches(tree.next@, flags, rank0, i);
                }
                assert(flags_of(tree.next@) =~= flags) by {
                    assert forall|i: int| 0 <= i < num
                        implies flags_of(tree.next@)[i] == flags[i] by {
                        assert(flows_ok(tree.next@, flags, rank0, i));
                    }
                }
                assert forall|x: int| 0 <= x < num
                    implies (#[trigger] tree.next@[x]) < num by {
                    assert(flows_ok(tree.next@, flags, rank0, x));
                }
                assert forall|i: int| 0 <= i < num
                    implies connected_to_outlet(adj, flags, i, num as nat) by {
                    lemma_reaches_connected(adj, tree.next@, flags, i, num as nat);
                }
            }
            return Ok(tree);
        }

        // carve the lakes open from the outlets
        let (next, rank, all) = Self::remove_lakes_from_stream_tree(
            &next0, num, elevations, graph, outlets, &subroot, &is_outlet);
        if !all {
            proof {
                assert(has_lake ==> !no_lakes(adj, elev, flags)) by {
                    lemma_lake_blocks_descent(adj, elev, flags, next0@, subroot@, num as int);
                }
            }
            return Err(StreamTreeError::Disconnected);
        }
        let tree = StreamTree { next, rank };
        proof {
            assert(flow_wf(tree.next@, flags, tree.rank@));
            assert forall|i: int| 0 <= i < num
                implies reaches_outlet(tree.next@, flags, i, num as nat) by {
                lemma_flow_reaches(tree.next@, flags, tree.rank@, i);
            }
            assert(flags_of(tree.next@) =~= flags) by {
                assert forall|i: int| 0 <= i < num
                    implies flags_of(tree.next@)[i] == flags[i] by {
                    assert(flows_ok(tree.next@, flags, tree.rank@, i));
                }
            }
            assert forall|x: int| 0 <= x < num
                implies (#[trigger] tree.next@[x]) < num by {
                assert(flows_ok(tree.next@, flags, tree.rank@, x));
            }
            assert forall|i: int| 0 <= i < num
                implies connected_to_outlet(adj, flags, i, num as nat) by {
                lemma_reaches_connected(adj, tree.next@, flags, i, num as nat);
            }
            assert(!no_lakes(adj, elev, flags)) by {
                lemma_lake_blocks_descent(adj, elev, flags, next0@, subroot@, num as int);
            }
        }
        Ok(tree)
    }

    /// Remove and return the cheapest ridge entry; ties break toward the
    /// smaller site index, so the pop order is deterministic.
    fn pop_min(queue: &mut Vec<(i128, usize)>) -> (res: (i128, usize))
        requires
            old(queue)@.len() > 0,
        ensures
            final(queue)@.len() == old(queue)@.len() - 1,
            exists|q: int| 0 <= q < old(queue)@.len() && old(queue)@[q] == res,
            forall|k: int| 0 <= k < final(queue)@.len()
                ==> exists|q: int| 0 <= q < old(queue)@.len()
                    && old(queue)@[q] == #[trigger] final(queue)@[k],
            forall|q: int| 0 <= q < old(queue)@.len()
                ==> (#[trigger] old(queue)@[q]) == res
                    || exists|k: int| 0 <= k < final(queue)@.len()
                        && final(queue)@[k] == old(queue)@[q],
    {
        let mut best: usize = 0;
        let mut k: usize = 1;
        while k < queue.len()
            invariant
                queue@ == old(queue)@,
                queue@.len() > 0,
                best < k,
                k <= queue@.len(),
            decreases queue@.len() - k,
        {
            let (pk, ik) = queue[k];
            let (pb, ib) = queue[best];
            if pk < pb || (pk == pb && ik < ib) {
                best = k;
            }
            k += 1;
        }
        let res = queue.swap_remove(best);
        proof {
            assert(old(queue)@[best as int] == res);
            assert forall|kk: int| 0 <= kk < queue@.len()
                implies exists|q: int| 0 <= q < old(queue)@.len()
                    && old(queue)@[q] == #[trigger] queue@[kk] by {
                if kk == best as int {
                    assert(queue@[kk] == old(queue)@[old(queue)@.len() - 1]);
                } else {
                    assert(queue@[kk] == old(queue)@[kk]);
                }
            }
            assert forall|q: int| 0 <= q < old(queue)@.len()
                implies (#[trigger] old(queue)@[q]) == res
                    || exists|k: int| 0 <= k < queue@.len()
                        && queue@[k] == old(queue)@[q] by {
                if q != best as int {
                    if q == old(queue)@.len() - 1 {
                        if (best as int) < queue@.len() {
                            assert(queue@[best as int] == old(queue)@[q]);
                        } else {
                            // best was the last slot left after removal
                            assert(q == best as int);
                        }
                    } else {
                        assert(queue@[q] == old(queue)@[q]);
                    }
                }
            }
        }
        res
    }

    /// Reverse the flow along the walk from `j` down to its lake root, so
    /// that the depression drains through `j` into `into`, and extend the
    /// rank witness over the whole depression component.
    #[verifier::rlimit(100)]
    #[verifier::spinoff_prover]
    fn reverse_path(
        num: usize,
        j: usize,
        into: usize,
        next: &mut Vec<usize>,
        next0: Ghost<Seq<usize>>,
        elev: Ghost<Seq<Elevation>>,
        subroot: &Vec<usize>,
        is_outlet: &Vec<bool>,
        rank: Ghost<Seq<nat>>,
    ) -> (new_rank: Ghost<Seq<nat>>)
        requires
            old(next)@.len() == num,
            next0@.len() == num,
            subroot@.len() == num,
            is_outlet@.len() == num,
            rank@.len() == num,
            elev@.len() == num,
            j < num,
            into < num,
            descent_ok(next0@, elev@),
            forall|x: int| 0 <= x < num ==> subroot_ok(subroot@, next0@, is_outlet@, x),
            forall|x: int| 0 <= x < num && subroot@[x] == subroot@[j as int]
                ==> old(next)@[x] == next0@[x],
            subroot@[into as int] != subroot@[j as int],
        ensures
            final(next)@.len() == num,
            new_rank@.len() == num,
            forall|x: int| 0 <= x < num && subroot@[x] != subroot@[j as int]
                ==> final(next)@[x] == old(next)@[x] && new_rank@[x] == rank@[x],
            forall|x: int| 0 <= x < num && subroot@[x] == subroot@[j as int]
                ==> #[trigger] reversed_step_ok(next0@, subroot@, new_rank@,
                        final(next)@, j as int, into as int, x),
    {
        let ghost r: usize = subroot@[j as int];
        let ghost dd: nat = depth_to_root(next0@, elev@, j as int);
        let mut k: usize = j;
        let mut nk: usize = into;
        let ghost mut steps: nat = 0;
        loop
            invariant
                next@.len() == num,
                next0@.len() == num,
                subroot@.len() == num,
                is_outlet@.len() == num,
                elev@.len() == num,
                j < num,
                into < num,
                k < num,
                nk < num,
                descent_ok(next0@, elev@),
                forall|x: int| 0 <= x < num ==> subroot_ok(subroot@, next0@, is_outlet@, x),
                forall|x: int| 0 <= x < num && subroot@[x] == r
                    ==> old(next)@[x] == next0@[x],
                subroot@[j as int] == r,
                subroot@[into as int] != r,
                steps <= dd,
                dd == depth_to_root(next0@, elev@, j as int),
                walk_at(next0@, j as int, steps) == k,
                subroot@[k as int] == r,
                if steps == 0 {
                    nk == into
                } else {
                    nk as int == walk_at(next0@, j as int, (steps - 1) as nat)
                },
                forall|t: nat| 0 < t < steps
                    ==> #[trigger] flip_at(next@, next0@, j as int, t),
                steps > 0 ==> next@[walk_at(next0@, j as int, 0)] == into,
                forall|x: int| 0 <= x < num
                    && (!on_walk(next0@, elev@, j as int, x)
                        || depth_to_root(next0@, elev@, x) + steps <= dd)
                    ==> #[trigger] next@[x] == old(next)@[x],
            ensures
                steps == dd,
                walk_at(next0@, j as int, steps) == k,
                k < num,
                next@.len() == num,
                if steps == 0 {
                    nk == into
                } else {
                    nk as int == walk_at(next0@, j as int, (steps - 1) as nat)
                },
                forall|t: nat| 0 < t < steps
                    ==> #[trigger] flip_at(next@, next0@, j as int, t),
                steps > 0 ==> next@[walk_at(next0@, j as int, 0)] == into,
                forall|x: int| 0 <= x < num
                    && (!on_walk(next0@, elev@, j as int, x)
                        || depth_to_root(next0@, elev@, x) + steps <= dd)
                    ==> #[trigger] next@[x] == old(next)@[x],
            decreases dd - steps,
        {
            proof {
                lemma_walk_props(next0@, elev@, subroot@, is_outlet@, j as int, steps);
                assert(depth_to_root(next0@, elev@, k as int) == dd - steps);
                assert(on_walk(next0@, elev@, j as int, k as int));
                assert(next@[k as int] == old(next)@[k as int]);
                assert(next@[k as int] == next0@[k as int]);
            }
            let nxt = next[k];
            if nxt != k {
                proof {
                    assert(depth_to_root(next0@, elev@, k as int) > 0);
                    assert(steps < dd);
                    lemma_walk_props(next0@, elev@, subroot@, is_outlet@, j as int, (steps + 1) as nat);
                    assert forall|t: nat| t <= steps
                        implies 0 <= #[trigger] walk_at(next0@, j as int, t) < num
                            && depth_to_root(next0@, elev@, walk_at(next0@, j as int, t))
                                == dd - t by {
                        lemma_walk_props(next0@, elev@, subroot@, is_outlet@, j as int, t);
                    }
                }
                let ghost pre_set = next@;
                let ghost k_old = k;
                let ghost nk_old = nk;
                next.set(k, nk);
                nk = k;
                k = nxt;
                proof {
                    steps = steps + 1;
                    assert(walk_at(next0@, j as int, steps) == k as int);
                    assert forall|t: nat| 0 < t < steps
                        implies #[trigger] flip_at(next@, next0@, j as int, t) by {
                        if t < steps - 1 {
                            assert(flip_at(pre_set, next0@, j as int, t));
                            assert(depth_to_root(next0@, elev@, walk_at(next0@, j as int, t))
                                == dd - t);
                            assert(walk_at(next0@, j as int, t) != k_old as int);
                        } else {
                            assert(walk_at(next0@, j as int, t) == k_old as int);
                            assert(next@[k_old as int] == nk_old);
                        }
                    }
                    assert forall|x: int| 0 <= x < num
                        && (!on_walk(next0@, elev@, j as int, x)
                            || depth_to_root(next0@, elev@, x) + steps <= dd)
                        implies #[trigger] next@[x] == old(next)@[x] by {
                        assert(depth_to_root(next0@, elev@, nk as int) == dd - steps + 1);
                        assert(on_walk(next0@, elev@, j as int, nk as int));
                        assert(x != nk as int);
                    }
                }
            } else {
                proof {
                    assert(depth_to_root(next0@, elev@, k as int) == 0);
                    assert(steps == dd);
                }
                break;
            }
        }
        let ghost pre_final = next@;
        next.set(k, nk);
        proof {
            lemma_reversal_shape(next0@, elev@, subroot@, is_outlet@, old(next)@,
                pre_final, next@, j as int, into as int, k, nk,
                num as int, steps);
        }
        let ghost new_rank_seq = lemma_reversed_ranks(next0@, elev@, subroot@, is_outlet@,
            old(next)@, next@, rank@, j as int, into as int, num as int);
        Ghost(new_rank_seq)
    }

    /// Attach the unresolved depression of `jj` to the resolved site `i`:
    /// reverse the flow out of the depression and mark its root resolved.
    #[verifier::rlimit(100)]
    #[verifier::spinoff_prover]
    fn carve_component(
        num: usize,
        jj: usize,
        i: usize,
        next: &mut Vec<usize>,
        root: &mut Vec<Option<usize>>,
        rank: Ghost<Seq<nat>>,
        adj: Ghost<Seq<Seq<(usize, Length)>>>,
        next0: Ghost<Seq<usize>>,
        elev: Ghost<Seq<Elevation>>,
        subroot: &Vec<usize>,
        is_outlet: &Vec<bool>,
    ) -> (new_rank: Ghost<Seq<nat>>)
        requires
            carve_ctx(adj@, next0@, elev@, subroot@, is_outlet@, num as int),
            carve_inv(adj@, is_outlet@, next0@, old(next)@, old(root)@, subroot@, rank@, num as int),
            jj < num,
            i < num,
            !resolved(old(root)@, subroot@, jj as int),
            resolved(old(root)@, subroot@, i as int),
            is_nbr(adj@, jj as int, i as int),
        ensures
            carve_inv(adj@, is_outlet@, next0@, final(next)@, final(root)@, subroot@,
                new_rank@, num as int),
            resolved(final(root)@, subroot@, jj as int),
            forall|x: int| 0 <= x < num && resolved(old(root)@, subroot@, x)
                ==> resolved(final(root)@, subroot@, x),
    {
        let ghost sub = subroot@;
        let ghost outletv = is_outlet@;
        let sj = subroot[jj];
        let si = subroot[i];
        proof {
            assert(subroot_ok(sub, next0@, outletv, jj as int));
            assert(subroot_ok(sub, next0@, outletv, i as int));
            assert(sub[i as int] != sub[jj as int]);
            assert forall|x: int| 0 <= x < num && sub[x] == sub[jj as int]
                implies old(next)@[x] == next0@[x] by {
                assert(carve_site_ok(adj@, outletv, next0@, old(next)@, old(root)@, sub,
                    rank@, x));
                assert(!resolved(old(root)@, sub, x));
            }
        }
        let rank2 = Self::reverse_path(num, jj, i, next, next0, elev, subroot, is_outlet, rank);
        let ri = root[si];
        let ghost root_old = root@;
        root.set(sj, ri);
        proof {
            assert(ri is Some);
            assert(root@ == root_old.update(sj as int, ri));
            // resolution is monotone and now covers the depression
            assert forall|x: int| 0 <= x < num
                implies (resolved(root@, sub, x)
                    == (resolved(root_old, sub, x) || sub[x] == sj)) by {
                assert(subroot_ok(sub, next0@, outletv, x));
                if sub[x] == sj {
                    assert(root@[sj as int] is Some);
                } else {
                    assert(root@[sub[x] as int] == root_old[sub[x] as int]);
                }
            }
            assert(resolved(root@, sub, jj as int));
            // the per-site invariant is restored
            assert forall|x: int| 0 <= x < num
                implies #[trigger] carve_site_ok(adj@, outletv, next0@, next@, root@, sub,
                    rank2@, x) by {
                assert(carve_site_ok(adj@, outletv, next0@, old(next)@, root_old, sub, rank@, x));
                assert(subroot_ok(sub, next0@, outletv, x));
                if sub[x] == sub[jj as int] {
                    // freshly resolved: the reversal contract carries it
                    assert(reversed_step_ok(next0@, sub, rank2@, next@, jj as int, i as int, x));
                    assert(!resolved(root_old, sub, x));
                    assert(!outletv[x]) by {
                        if outletv[x] {
                            assert(resolved(root_old, sub, x));
                        }
                    }
                    let y = next@[x] as int;
                    assert(resolved(root@, sub, y)) by {
                        if y == i as int {
                            assert(sub[y] != sj);
                            assert(resolved(root_old, sub, y));
                        } else {
                            assert(sub[y] == sj);
                        }
                    }
                    assert(flows_ok(next@, outletv, rank2@, x));
                    assert(next@[x] == x || is_nbr(adj@, x, next@[x] as int)) by {
                        if next@[x] == i && x == jj as int {
                            lemma_nbr_sym(adj@, jj as int, i as int);
                        } else if next0@[y] == x {
                            assert(subroot_ok(sub, next0@, outletv, y));
                            assert(next0@[y] != y);
                            assert(is_nbr(adj@, y, x));
                            lemma_nbr_sym(adj@, y, x);
                        }
                    }
                } else {
                    // untouched by the reversal; resolution status unchanged
                    assert(next@[x] == old(next)@[x] && rank2@[x] == rank@[x]);
                    if resolved(root_old, sub, x) {
                        let y = old(next)@[x] as int;
                        assert(resolved(root_old, sub, y));
                        assert(sub[y] != sj);
                        assert(next@[y] == old(next)@[y] && rank2@[y] == rank@[y]);
                        assert(flows_ok(next@, outletv, rank2@, x));
                    }
                }
            }
        }
        rank2
    }

    /// Flood outward from the outlets, carving every depression the flood
    /// reaches so that it drains outward. Returns the reworked flow, the
    /// rank witness, and whether every site was resolved.
    #[verifier::rlimit(100)]
    #[verifier::spinoff_prover]
    fn remove_lakes_from_stream_tree(
        next0: &Vec<usize>,
        num: usize,
        elevations: &Vec<Elevation>,
        graph: &EdgeAttributedUndirectedGraph<Length>,
        outlets: &Vec<usize>,
        subroot: &Vec<usize>,
        is_outlet: &Vec<bool>,
    ) -> (res: (Vec<usize>, Ghost<Seq<nat>>, bool))
        requires
            carve_ctx(graph_adj(*graph), next0@, elevations@, subroot@, is_outlet@, num as int),
            forall|k: int| 0 <= k < outlets@.len()
                ==> (#[trigger] outlets@[k]) < num && is_outlet@[outlets@[k] as int],
            forall|x: int| 0 <= x < num
                ==> (#[trigger] is_outlet@[x] ==> outlets@.contains(x as usize)),
        ensures
            res.0@.len() == num,
            res.1@.len() == num,
            res.2 ==> flow_wf(res.0@, is_outlet@, res.1@),
            res.2 ==> forall|x: int| 0 <= x < num
                ==> (#[trigger] res.0@[x]) == x || is_nbr(graph_adj(*graph), x, res.0@[x] as int),
            !res.2 ==> exists|x: int| 0 <= x < num
                && !connected_to_outlet(graph_adj(*graph), is_outlet@, x, num as nat),
    {
        let ghost adj = graph_adj(*graph);
        let ghost nx0 = next0@;
        let ghost elev = elevations@;
        let ghost sub = subroot@;
        let ghost outletv = is_outlet@;

        // working copy of the flow
        let mut next: Vec<usize> = Vec::new();
        let mut ii: usize = 0;
        while ii < num
            invariant
                ii <= num,
                next@.len() == ii,
                next0@.len() == num,
                forall|x: int| 0 <= x < ii ==> #[trigger] next@[x] == next0@[x],
            decreases num - ii,
        {
            next.push(next0[ii]);
            ii += 1;
        }

        // final roots of the stream tree: outlets resolve themselves
        let mut root: Vec<Option<usize>> = Vec::new();
        let mut ii: usize = 0;
        while ii < num
            invariant
                ii <= num,
                root@.len() == ii,
                forall|x: int| 0 <= x < ii ==> #[trigger] root@[x] is None,
            decreases num - ii,
        {
            root.push(None);
            ii += 1;
        }
        let mut kk: usize = 0;
        while kk < outlets.len()
            invariant
                kk <= outlets@.len(),
                root@.len() == num,
                is_outlet@ == outletv,
                outletv.len() == num,
                forall|k: int| 0 <= k < outlets@.len()
                    ==> (#[trigger] outlets@[k]) < num && outletv[outlets@[k] as int],
                forall|x: int| 0 <= x < num
                    ==> ((#[trigger] root@[x]) is Some ==> root@[x] == Some(x as usize)),
                forall|x: int| 0 <= x < num
                    ==> ((#[trigger] root@[x]) is Some ==> outletv[x]),
                forall|k: int| 0 <= k < kk ==> root@[(#[trigger] outlets@[k]) as int] is Some,
            decreases outlets@.len() - kk,
        {
            let o = outlets[kk];
            root.set(o, Some(o));
            kk += 1;
        }

        let ghost mut rnk: Seq<nat> = Seq::new(num as nat, |x: int| depth_to_root(nx0, elev, x));
        proof {
            // the invariant holds of the seeded state
            assert forall|x: int| 0 <= x < num
                implies #[trigger] carve_site_ok(adj, outletv, nx0, next@, root@, sub, rnk, x) by {
                assert(subroot_ok(sub, nx0, outletv, x));
                if resolved(root@, sub, x) {
                    assert(root@[sub[x] as int] is Some);
                    assert(outletv[sub[x] as int]);
                    if !outletv[x] {
                        assert(nx0[x] != x) by {
                            if nx0[x] == x {
                                assert(sub[x] as int == x);
                            }
                        }
                        assert(sub[nx0[x] as int] == sub[x]);
                        assert(rnk[nx0[x] as int] == depth_to_root(nx0, elev, nx0[x] as int));
                        assert(depth_to_root(nx0, elev, x)
                            == depth_to_root(nx0, elev, nx0[x] as int) + 1);
                    }
                }
            }
            assert forall|x: int| 0 <= x < num && outletv[x]
                implies resolved(root@, sub, x) by {
                assert(outlets@.contains(x as usize));
                let k = choose|k: int| 0 <= k < outlets@.len() && outlets@[k] == x as usize;
                assert(root@[outlets@[k] as int] is Some);
                assert(subroot_ok(sub, nx0, outletv, x));
            }
        }

        // seed the ridge queue with the outlets at their own elevation
        let mut queue: Vec<(i128, usize)> = Vec::new();
        let ghost mut pushed: Set<int> = Set::empty();
        let mut kk: usize = 0;
        while kk < outlets.len()
            invariant
                kk <= outlets@.len(),
                is_outlet@ == outletv,
                elevations@ == elev,
                elev.len() == num,
                outletv.len() == num,
                root@.len() == num,
                sub.len() == num,
                subroot@ == sub,
                nx0.len() == num,
                forall|x: int| 0 <= x < num ==> subroot_ok(sub, nx0, outletv, x),
                forall|k: int| 0 <= k < outlets@.len()
                    ==> (#[trigger] outlets@[k]) < num && outletv[outlets@[k] as int],
                forall|x: int| 0 <= x < num && outletv[x] ==> resolved(root@, sub, x),
                forall|q: int| 0 <= q < queue@.len()
                    ==> (#[trigger] queue@[q]).1 < num && pushed.contains(queue@[q].1 as int),
                forall|x: int| pushed.contains(x)
                    ==> 0 <= x < num && resolved(root@, sub, x) && in_queue(queue@, x),
                forall|k: int| 0 <= k < kk ==> pushed.contains((#[trigger] outlets@[k]) as int),
            decreases outlets@.len() - kk,
        {
            let o = outlets[kk];
            let eo = elevations[o];
            let ghost q_old = queue@;
            queue.push((eo as i128, o));
            proof {
                pushed = pushed.insert(o as int);
                assert(subroot_ok(sub, nx0, outletv, o as int));
                assert(queue@ == q_old.push((eo as i128, o)));
                assert forall|x: int| pushed.contains(x)
                    implies 0 <= x < num && resolved(root@, sub, x) && in_queue(queue@, x) by {
                    if x == o as int {
                        assert(queue@[queue@.len() - 1].1 == x);
                    } else {
                        assert(in_queue(q_old, x));
                        let q = choose|q: int| 0 <= q < q_old.len() && (#[trigger] q_old[q]).1 == x;
                        assert(queue@[q].1 == x);
                    }
                }
            }
            kk += 1;
        }

        // flood: pop the cheapest ridge, carve unresolved neighbors, push
        let mut visited: Vec<bool> = Vec::new();
        let mut ii: usize = 0;
        while ii < num
            invariant
                ii <= num,
                visited@.len() == ii,
                forall|x: int| 0 <= x < ii ==> !(#[trigger] visited@[x]),
            decreases num - ii,
        {
            visited.push(false);
            ii += 1;
        }

        loop
            invariant
                carve_ctx(adj, nx0, elev, sub, outletv, num as int),
                carve_inv(adj, outletv, nx0, next@, root@, sub, rnk, num as int),
                graph_adj(*graph) == adj,
                next0@ == nx0,
                elevations@ == elev,
                subroot@ == sub,
                is_outlet@ == outletv,
                visited@.len() == num,
                forall|q: int| 0 <= q < queue@.len()
                    ==> (#[trigger] queue@[q]).1 < num && pushed.contains(queue@[q].1 as int),
                forall|x: int| pushed.contains(x) ==> 0 <= x < num && resolved(root@, sub, x),
                forall|x: int| 0 <= x < num && #[trigger] visited@[x] ==> pushed.contains(x),
                forall|x: int| pushed.contains(x) && !visited@[x] ==> in_queue(queue@, x),
                forall|x: int| 0 <= x < num && #[trigger] visited@[x]
                    ==> nbrs_pushed(adj, pushed, x),
                forall|x: int| 0 <= x < num && outletv[x] ==> pushed.contains(x),
            ensures
                queue@.len() == 0,
                carve_inv(adj, outletv, nx0, next@, root@, sub, rnk, num as int),
                forall|x: int| pushed.contains(x) ==> 0 <= x < num && resolved(root@, sub, x),
                forall|x: int| 0 <= x < num && #[trigger] visited@[x] ==> pushed.contains(x),
                forall|x: int| pushed.contains(x) && !visited@[x] ==> in_queue(queue@, x),
                forall|x: int| 0 <= x < num && #[trigger] visited@[x]
                    ==> nbrs_pushed(adj, pushed, x),
                forall|x: int| 0 <= x < num && outletv[x] ==> pushed.contains(x),
            decreases unvisited_count(visited@), queue@.len(),
        {
            if queue.len() == 0 {
                break;
            }
            let ghost q_pre = queue@;
            let (_prio, i) = Self::pop_min(&mut queue);
            proof {
                let q = choose|q: int| 0 <= q < q_pre.len() && q_pre[q] == (_prio, i);
                assert(q_pre[q].1 < num && pushed.contains(q_pre[q].1 as int));
                assert forall|qq: int| 0 <= qq < queue@.len()
                    implies (#[trigger] queue@[qq]).1 < num
                        && pushed.contains(queue@[qq].1 as int) by {
                    let q2 = choose|q2: int| 0 <= q2 < q_pre.len()
                        && q_pre[q2] == #[trigger] queue@[qq];
                }
            }
            if visited[i] {
                proof {
                    assert forall|x: int| pushed.contains(x) && !visited@[x]
                        implies in_queue(queue@, x) by {
                        assert(in_queue(q_pre, x));
                        let q = choose|q: int| 0 <= q < q_pre.len() && (#[trigger] q_pre[q]).1 == x;
                        assert(x != i as int);
                        assert(q_pre[q] != (_prio, i));
                        let k2 = choose|k2: int|
                            0 <= k2 < queue@.len() && #[trigger] queue@[k2] == q_pre[q];
                        assert(queue@[k2].1 == x);
                    }
                }
                continue;
            }
            proof {
                assert forall|x: int| pushed.contains(x) && !visited@[x] && x != i as int
                    implies in_queue(queue@, x) by {
                    assert(in_queue(q_pre, x));
                    let q = choose|q: int| 0 <= q < q_pre.len() && (#[trigger] q_pre[q]).1 == x;
                    assert(q_pre[q] != (_prio, i));
                    let k2 = choose|k2: int|
                        0 <= k2 < queue@.len() && #[trigger] queue@[k2] == q_pre[q];
                    assert(queue@[k2].1 == x);
                }
            }
            let nbrs = graph_neighbors(graph, i);
            let mut kx: usize = 0;
            while kx < nbrs.len()
                invariant
                    carve_ctx(adj, nx0, elev, sub, outletv, num as int),
                    carve_inv(adj, outletv, nx0, next@, root@, sub, rnk, num as int),
                    graph_adj(*graph) == adj,
                    next0@ == nx0,
                    elevations@ == elev,
                    subroot@ == sub,
                    is_outlet@ == outletv,
                    visited@.len() == num,
                    i < num,
                    kx <= nbrs@.len(),
                    nbrs@ == adj[i as int],
                    pushed.contains(i as int),
                    !visited@[i as int],
                    forall|q: int| 0 <= q < queue@.len()
                        ==> (#[trigger] queue@[q]).1 < num && pushed.contains(queue@[q].1 as int),
                    forall|x: int| pushed.contains(x) ==> 0 <= x < num && resolved(root@, sub, x),
                    forall|x: int| 0 <= x < num && #[trigger] visited@[x] ==> pushed.contains(x),
                    forall|x: int| pushed.contains(x) && !visited@[x] && x != i as int
                        ==> in_queue(queue@, x),
                    forall|x: int| 0 <= x < num && #[trigger] visited@[x]
                        ==> nbrs_pushed(adj, pushed, x),
                    forall|x: int| 0 <= x < num && outletv[x] ==> pushed.contains(x),
                    forall|k0: int| 0 <= k0 < kx
                        ==> pushed.contains((#[trigger] adj[i as int][k0]).0 as int),
                decreases nbrs@.len() - kx,
            {
                let (jj, w) = nbrs[kx];
                proof {
                    assert(adj_list_wf(adj, i as int));
                    assert((adj[i as int][kx as int]).0 == jj);
                    assert((adj[i as int][kx as int]).1 == w);
                    assert(is_nbr(adj, i as int, jj as int));
                }
                if visited[jj] {
                    kx += 1;
                    continue;
                }
                let sj = subroot[jj];
                proof {
                    assert(subroot_ok(sub, nx0, outletv, jj as int));
                }
                let unresolved_j = root[sj].is_none();
                if unresolved_j {
                    proof {
                        lemma_nbr_sym(adj, i as int, jj as int);
                    }
                    let ghost root_pre = root@;
                    let rank2 = Self::carve_component(num, jj, i, &mut next, &mut root,
                        Ghost(rnk), Ghost(adj), Ghost(nx0), Ghost(elev), subroot, is_outlet);
                    proof {
                        rnk = rank2@;
                        assert forall|x: int| pushed.contains(x)
                            implies 0 <= x < num && resolved(root@, sub, x) by {
                            assert(resolved(root_pre, sub, x));
                        }
                    }
                }
                let ej = elevations[jj];
                let ei = elevations[i];
                let diff = (ej as i128) - (ei as i128);
                proof {
                    assert(diff * (w as i128) <= (4 * ELEVATION_LIMIT as i128) * (crate::units::LENGTH_LIMIT as i128)
                        && diff * (w as i128) >= -((4 * ELEVATION_LIMIT as i128) * (crate::units::LENGTH_LIMIT as i128)))
                        by (nonlinear_arith)
                        requires
                            -(2 * ELEVATION_LIMIT as i128) <= diff <= 2 * ELEVATION_LIMIT as i128,
                            0 < w as i128 <= crate::units::LENGTH_LIMIT as i128;
                }
                let prio = diff * (w as i128);
                let ghost q_old = queue@;
                queue.push((prio, jj));
                proof {
                    pushed = pushed.insert(jj as int);
                    assert(resolved(root@, sub, jj as int));
                    assert forall|x: int| pushed.contains(x) && !visited@[x] && x != i as int
                        implies in_queue(queue@, x) by {
                        if x == jj as int {
                            assert(queue@[queue@.len() - 1].1 == x);
                        } else {
                            assert(in_queue(q_old, x));
                            let q = choose|q: int|
                                0 <= q < q_old.len() && (#[trigger] q_old[q]).1 == x;
                            assert(queue@[q].1 == x);
                        }
                    }
                }
                kx += 1;
            }
            let si = subroot[i];
            proof {
                assert(subroot_ok(sub, nx0, outletv, i as int));
            }
            let ri2 = root[si];
            let ghost root_pre2 = root@;
            root.set(i, ri2);
            proof {
                // this write can only restate a root's own entry
                assert forall|x: int| 0 <= x < num
                    implies resolved(root@, sub, x) == resolved(root_pre2, sub, x) by {
                    assert(subroot_ok(sub, nx0, outletv, x));
                    if sub[x] as int == i as int {
                        assert(sub[i as int] as int == i as int);
                        assert(ri2 == root_pre2[i as int]);
                    }
                }
                assert(root@ =~= root_pre2.update(i as int, ri2));
                if sub[i as int] as int == i as int {
                    assert(root@ =~= root_pre2);
                }
                assert forall|x: int| 0 <= x < num
                    implies #[trigger] carve_site_ok(adj, outletv, nx0, next@, root@, sub,
                        rnk, x) by {
                    assert(carve_site_ok(adj, outletv, nx0, next@, root_pre2, sub, rnk, x));
                }
            }
            let ghost visited_pre = visited@;
            visited.set(i, true);
            proof {
                lemma_unvisited_update(visited_pre, i as int);
                assert forall|x: int| 0 <= x < num && #[trigger] visited@[x]
                    implies nbrs_pushed(adj, pushed, x) by {
                    if x != i as int {
                        assert(visited_pre[x]);
                    }
                }
                assert forall|x: int| pushed.contains(x) && !visited@[x]
                    implies in_queue(queue@, x) by {
                    assert(x != i as int);
                    assert(!visited_pre[x]);
                }
            }
        }

        // check whether the flood resolved every site
        proof {
            assert forall|x0: int| 0 <= x0 < num implies (#[trigger] sub[x0]) < num by {
                assert(subroot_ok(sub, nx0, outletv, x0));
            }
        }
        let mut all = true;
        let mut x: usize = 0;
        while x < num
            invariant
                x <= num,
                root@.len() == num,
                sub.len() == num,
                subroot@ == sub,
                num == sub.len(),
                forall|x0: int| 0 <= x0 < num ==> (#[trigger] sub[x0]) < num,
                all == forall|x0: int| 0 <= x0 < x ==> resolved(root@, sub, x0),
            decreases num - x,
        {
            let sx = subroot[x];
            let is_res = root[sx].is_some();
            proof {
                if all && is_res {
                    assert forall|x0: int| 0 <= x0 < x + 1
                        implies resolved(root@, sub, x0) by {
                    }
                }
                if !is_res {
                    assert(!resolved(root@, sub, x as int));
                }
            }
            all = all && is_res;
            x += 1;
        }

        proof {
            if all {
                assert forall|x0: int| 0 <= x0 < num
                    implies #[trigger] flows_ok(next@, outletv, rnk, x0) by {
                    assert(carve_site_ok(adj, outletv, nx0, next@, root@, sub, rnk, x0));
                    assert(resolved(root@, sub, x0));
                }
                assert(flow_wf(next@, outletv, rnk));
                assert forall|x0: int| 0 <= x0 < num
                    implies (#[trigger] next@[x0]) == x0 || is_nbr(adj, x0, next@[x0] as int) by {
                    assert(carve_site_ok(adj, outletv, nx0, next@, root@, sub, rnk, x0));
                    assert(resolved(root@, sub, x0));
                }
            } else {
                let xu = choose|x0: int| 0 <= x0 < num && !resolved(root@, sub, x0);
                assert(!connected_to_outlet(adj, outletv, xu, num as nat)) by {
                    if connected_to_outlet(adj, outletv, xu, num as nat) {
                        lemma_connected_visited(adj, outletv, visited@, pushed, xu, num as nat);
                        assert(pushed.contains(xu));
                    }
                }
            }
        }
        (next, Ghost(rnk), all)
    }

    fn construct_initial_stream_tree(
        num: usize,
        elevations: &Vec<Elevation>,
        graph: &EdgeAttributedUndirectedGraph<Length>,
        is_outlet: &Vec<bool>,
    ) -> (r: Vec<usize>)
        requires
            adj_wf(graph_adj(*graph)),
            num == graph_adj(*graph).len(),
            elevations@.len() == num,
            is_outlet@.len() == num,
            forall|i: int| 0 <= i < num
                ==> -ELEVATION_LIMIT <= #[trigger] elevations@[i] <= ELEVATION_LIMIT,
        ensures
            r@ == steepest_next(graph_adj(*graph), elevations@, is_outlet@),
    {
        let ghost adj = graph_adj(*graph);
        let ghost elev = elevations@;
        let mut next: Vec<usize> = Vec::new();
        let mut i: usize = 0;
        while i < num
            invariant
                i <= num,
                next@.len() == i,
                num == adj.len(),
                graph_adj(*graph) == adj,
                elevations@ == elev,
                elev.len() == num,
                is_outlet@.len() == num,
                adj_wf(adj),
                forall|x: int| 0 <= x < num
                    ==> -ELEVATION_LIMIT <= #[trigger] elev[x] <= ELEVATION_LIMIT,
                forall|x: int| 0 <= x < i
                    ==> #[trigger] next@[x] == steepest_next(adj, elev, is_outlet@)[x],
            decreases num - i,
        {
            if is_outlet[i] {
                next.push(i);
            } else {
                let nbrs = graph_neighbors(graph, i);
                let ei = elevations[i];
                let mut best: usize = i;
                let mut best_d: Length = 1;
                let mut k: usize = 0;
                while k < nbrs.len()
                    invariant
                        k <= nbrs@.len(),
                        i < num,
                        num == adj.len(),
                        elev.len() == num,
                        elevations@ == elev,
                        nbrs@ == adj[i as int],
                        adj_wf(adj),
                        ei == elev[i as int],
                        forall|x: int| 0 <= x < num
                            ==> -ELEVATION_LIMIT <= #[trigger] elev[x] <= ELEVATION_LIMIT,
                        (best, best_d) == steepest_scan(nbrs@, elev, i as int, k as int),
                        best == i || best < num,
                        1 <= best_d < crate::units::LENGTH_LIMIT,
                    decreases nbrs@.len() - k,
                {
                    let (j, d) = nbrs[k];
                    proof {
                        assert(adj_list_wf(adj, i as int));
                        assert((adj[i as int][k as int]).0 == j);
                        assert((adj[i as int][k as int]).1 == d);
                    }
                    let ej = elevations[j];
                    if ej < ei {
                        let de_j = (ei as i128) - (ej as i128);
                        let take = if best == i {
                            true
                        } else {
                            let de_b = (ei as i128) - (elevations[best] as i128);
                            proof {
                                assert(de_j * (best_d as i128) <= (4 * ELEVATION_LIMIT as i128) * (crate::units::LENGTH_LIMIT as i128)
                                    && de_j * (best_d as i128) >= -((4 * ELEVATION_LIMIT as i128) * (crate::units::LENGTH_LIMIT as i128))
                                    && de_b * (d as i128) <= (4 * ELEVATION_LIMIT as i128) * (crate::units::LENGTH_LIMIT as i128)
                                    && de_b * (d as i128) >= -((4 * ELEVATION_LIMIT as i128) * (crate::units::LENGTH_LIMIT as i128)))
                                    by (nonlinear_arith)
                                    requires
                                        -(2 * ELEVATION_LIMIT as i128) <= de_j <= 2 * ELEVATION_LIMIT as i128,
                                        -(2 * ELEVATION_LIMIT as i128) <= de_b <= 2 * ELEVATION_LIMIT as i128,
                                        0 < best_d as i128 <= crate::units::LENGTH_LIMIT as i128,
                                        0 < d as i128 <= crate::units::LENGTH_LIMIT as i128;
                            }
                            de_j * (best_d as i128) > de_b * (d as i128)
                        };
                        if take {
                            best = j;
                            best_d = d;
                        }
                    }
                    k += 1;
                }
                next.push(best);
            }
            i += 1;
        }
        proof {
            assert(next@ =~= steepest_next(adj, elev, is_outlet@));
        }
        next
    }
}

} // verus!
