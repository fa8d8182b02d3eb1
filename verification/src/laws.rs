//! Graph families with a known diameter, proved against the same
//! characterization that `graph_diameter` ensures: the simple forward path on
//! `k` vertices and the directed cycle of length `k` both have diameter
//! `k - 1`.

use vstd::prelude::*;

use crate::graph::diameter_is;
use crate::graph::dist_is;
use crate::graph::ecc_le;
use crate::graph::edges_ok;
use crate::graph::has_edge;
use crate::graph::lemma_reach_extend;
use crate::graph::lemma_reachable_bound;
use crate::graph::reach_within;
use crate::graph::reachable;

verus! {

/// The edge list of the simple forward path `0 -> 1 -> ... -> (k-1)`.
pub open spec fn path_edges(k: nat) -> Seq<(usize, usize)> {
    Seq::new((k - 1) as nat, |i: int| ((i as usize), ((i + 1) as usize)))
}

/// The edge list of the directed cycle `0 -> 1 -> ... -> (k-1) -> 0`.
pub open spec fn cycle_edges(k: nat) -> Seq<(usize, usize)> {
    Seq::new(
        k,
        |i: int|
            ((i as usize), (if i == k - 1 {
                0usize
            } else {
                (i + 1) as usize
            })),
    )
}

/// Walking the path (or the cycle) forward reaches vertex `t` in `t` steps.
proof fn lemma_chain_reach(es: Seq<(usize, usize)>, k: nat, t: int)
    requires
        1 <= k <= usize::MAX,
        0 <= t < k,
        forall|i: int| 0 <= i < k - 1 ==> #[trigger] es[i] == ((i as usize), ((i + 1) as usize)),
        es.len() >= k - 1,
    ensures
        reach_within(es, 0usize, t as usize, t as nat),
    decreases t,
{
    if t > 0 {
        lemma_chain_reach(es, k, t - 1);
        assert(has_edge(es, (t - 1) as usize, t as usize)) by {
            assert(es[t - 1] == (((t - 1) as usize), (t as usize)));
            assert(es.contains((((t - 1) as usize), (t as usize))));
        }
        lemma_reach_extend(es, 0usize, (t - 1) as usize, t as usize, (t - 1) as nat);
    }
}

/// In the path, `j` steps from vertex `0` reach no vertex beyond `j`.
proof fn lemma_path_reach_low(k: nat, t: usize, j: nat)
    requires
        1 <= k <= usize::MAX,
        reach_within(path_edges(k), 0usize, t, j),
    ensures
        (t as int) <= j,
    decreases j,
{
    if j > 0 {
        if reach_within(path_edges(k), 0usize, t, (j - 1) as nat) {
            lemma_path_reach_low(k, t, (j - 1) as nat);
        } else {
            let m = choose|m: usize|
                #[trigger] has_edge(path_edges(k), m, t) && reach_within(
                    path_edges(k),
                    0usize,
                    m,
                    (j - 1) as nat,
                );
            lemma_path_reach_low(k, m, (j - 1) as nat);
            let i = choose|i: int| 0 <= i < path_edges(k).len() && path_edges(k)[i] == (m, t);
            assert((t as int) == i + 1 && (m as int) == i);
        }
    }
}

/// In the cycle, `j` steps from vertex `0` reach no vertex beyond `j` as long
/// as the walk cannot wrap around.
proof fn lemma_cycle_reach_low(k: nat, t: usize, j: nat)
    requires
        1 <= k <= usize::MAX,
        reach_within(cycle_edges(k), 0usize, t, j),
    ensures
        (t as int) <= j,
    decreases j,
{
    if j > 0 {
        if reach_within(cycle_edges(k), 0usize, t, (j - 1) as nat) {
            lemma_cycle_reach_low(k, t, (j - 1) as nat);
        } else {
            let m = choose|m: usize|
                #[trigger] has_edge(cycle_edges(k), m, t) && reach_within(
                    cycle_edges(k),
                    0usize,
                    m,
                    (j - 1) as nat,
                );
            lemma_cycle_reach_low(k, m, (j - 1) as nat);
            let i = choose|i: int| 0 <= i < cycle_edges(k).len() && cycle_edges(k)[i] == (m, t);
            assert((m as int) == i);
            if i == k - 1 {
                assert(t == 0usize);
            } else {
                assert((t as int) == i + 1);
            }
        }
    }
}

/// Every vertex of a graph on `k` vertices has eccentricity at most `k - 1`.
proof fn lemma_ecc_le_trivial(k: nat, es: Seq<(usize, usize)>, u: usize)
    requires
        1 <= k,
        edges_ok(k, es),
        (u as nat) < k,
    ensures
        ecc_le(k, es, u, (k - 1) as nat),
{
    assert forall|t: usize| (t as nat) < k && #[trigger] reachable(es, u, t) implies reach_within(
        es,
        u,
        t,
        (k - 1) as nat,
    ) by {
        lemma_reachable_bound(k, es, u, t);
    }
}

/// The simple forward path on `k` vertices has diameter `k - 1`, attained by
/// the pair of its two end vertices; no edge runs backward, so the statement
/// concerns the forward graph alone.
pub proof fn lemma_path_diameter(k: nat)
    requires
        1 <= k <= usize::MAX,
    ensures
        diameter_is(k, path_edges(k), (k - 1) as nat),
{
    let es = path_edges(k);
    assert(edges_ok(k, es)) by {
        assert forall|i: int| 0 <= i < es.len() implies ((#[trigger] es[i]).0 as nat) < k && (
        es[i].1 as nat) < k by {
            assert(es[i] == ((i as usize), ((i + 1) as usize)));
        }
    }
    assert forall|u: usize| (u as nat) < k implies #[trigger] ecc_le(k, es, u, (k - 1) as nat) by {
        lemma_ecc_le_trivial(k, es, u);
    }
    assert forall|i: int| 0 <= i < k - 1 implies #[trigger] es[i] == ((i as usize), ((i + 1) as usize)) by {}
    lemma_chain_reach(es, k, k - 1);
    if k >= 2 && reach_within(es, 0usize, (k - 1) as usize, (k - 2) as nat) {
        lemma_path_reach_low(k, (k - 1) as usize, (k - 2) as nat);
        assert(false);
    }
    assert(dist_is(es, 0usize, (k - 1) as usize, (k - 1) as nat));
}

/// The directed cycle of length `k` has diameter `k - 1`: the shortest way
/// from a vertex to its predecessor goes all the way around.
pub proof fn lemma_cycle_diameter(k: nat)
    requires
        1 <= k <= usize::MAX,
    ensures
        diameter_is(k, cycle_edges(k), (k - 1) as nat),
{
    let es = cycle_edges(k);
    assert(edges_ok(k, es)) by {
        assert forall|i: int| 0 <= i < es.len() implies ((#[trigger] es[i]).0 as nat) < k && (
        es[i].1 as nat) < k by {
            if i == k - 1 {
                assert(es[i] == ((i as usize), 0usize));
            } else {
                assert(es[i] == ((i as usize), ((i + 1) as usize)));
            }
        }
    }
    assert forall|u: usize| (u as nat) < k implies #[trigger] ecc_le(k, es, u, (k - 1) as nat) by {
        lemma_ecc_le_trivial(k, es, u);
    }
    assert forall|i: int| 0 <= i < k - 1 implies #[trigger] es[i] == ((i as usize), ((i + 1) as usize)) by {}
    lemma_chain_reach(es, k, k - 1);
    if k >= 2 && reach_within(es, 0usize, (k - 1) as usize, (k - 2) as nat) {
        lemma_cycle_reach_low(k, (k - 1) as usize, (k - 2) as nat);
        assert(false);
    }
    assert(dist_is(es, 0usize, (k - 1) as usize, (k - 1) as nat));
}

} // verus!
