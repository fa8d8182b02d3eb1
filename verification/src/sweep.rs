//! The randomized double-sweep estimator: a lower bound on the diameter that
//! seeds the refiner's pruning.

use rand::Rng;
use vstd::prelude::*;

use crate::adjacency::adj_matches;
use crate::bfs::bfs_dist;
use crate::graph::bfs_value;
use crate::graph::dist_is;
use crate::graph::edges_ok;
use crate::graph::flip_edges;
use crate::graph::lemma_dist_is_flip;
use crate::graph::lemma_flip_edges_ok;

verus! {

/// Relies on rand::thread_rng and rand::Rng::gen_range over `0..n`: a value
/// below the bound. The call panics on an empty range, so `n == 0` is ruled
/// out here; nothing more is promised of the outcome.
#[verifier::external_body]
fn random_vertex(n: usize) -> (r: usize)
    requires
        n >= 1,
    ensures
        r < n,
{
    rand::thread_rng().gen_range(0..n)
}

/// Index of a greatest entry of the first `n` positions.
fn argmax(n: usize, v: &Vec<usize>) -> (r: usize)
    requires
        n >= 1,
        v@.len() == n,
    ensures
        (r as nat) < n,
        forall|i: int| 0 <= i < n ==> v@[i] <= v@[r as int],
{
    let mut best: usize = 0;
    for i in 1..n
        invariant
            (best as nat) < n,
            v@.len() == n,
            forall|j: int| 0 <= j < i ==> v@[j] <= v@[best as int],
    {
        if v[i] > v[best] {
            best = i;
        }
    }
    best
}

/// Greatest entry below the sentinel `n`, or `0` when every entry is the
/// sentinel: the greatest finite distance of a breadth-first table.
pub(crate) fn max_finite(n: usize, dist: &Vec<usize>) -> (r: usize)
    requires
        dist@.len() == n,
    ensures
        forall|v: int| 0 <= v < n && dist@[v] < n ==> dist@[v] <= r,
        r == 0 || ((r as nat) < n && exists|v: int| 0 <= v < n && dist@[v] == r),
{
    let mut best: usize = 0;
    for i in 0..n
        invariant
            dist@.len() == n,
            forall|v: int| 0 <= v < i && dist@[v] < n ==> dist@[v] <= best,
            best == 0 || ((best as nat) < n && exists|v: int| 0 <= v < i && dist@[v] == best),
    {
        let dv = dist[i];
        if dv < n && dv > best {
            best = dv;
        }
    }
    best
}

/// `r` is the greatest entry below the sentinel in the table that
/// breadth-first search from `s` gives over the edge list, or `0` when every
/// entry is the sentinel.
pub open spec fn max_finite_value(n: nat, es: Seq<(usize, usize)>, s: usize, r: nat) -> bool {
    &&& forall|v: usize|
        (v as nat) < n && #[trigger] bfs_value(n, es, s, v) < n ==> bfs_value(n, es, s, v) <= r
    &&& (r == 0 || (r < n && exists|v: usize|
        (v as nat) < n && #[trigger] bfs_value(n, es, s, v) == r))
}

/// `r` is the outcome of one double sweep started at `s`: for some vertex
/// `s2` whose breadth-first entry from `s` is greatest (ties broken freely),
/// `r` is the greatest finite distance toward `s2` along the reversed edges.
pub open spec fn sweep_value(n: nat, es: Seq<(usize, usize)>, s: usize, r: nat) -> bool {
    exists|s2: usize|
        (s2 as nat) < n && (forall|v: usize|
            (v as nat) < n ==> #[trigger] bfs_value(n, es, s, v) <= bfs_value(n, es, s, s2))
            && #[trigger] max_finite_value(n, flip_edges(es), s2, r)
}

/// One double sweep: breadth-first from a random start vertex, then
/// breadth-first along the reversed edges from a vertex the first sweep found
/// farthest. Whatever the random choice returns, the result is the sweep
/// value of some start vertex, and so the shortest distance of some ordered
/// vertex pair — a lower bound on the diameter; in expectation it is at
/// least half the diameter.
pub(crate) fn double_sweep(
    n: usize,
    graph_f: &Vec<Vec<usize>>,
    graph_r: &Vec<Vec<usize>>,
    es: Ghost<Seq<(usize, usize)>>,
) -> (r: usize)
    requires
        n >= 1,
        edges_ok(n as nat, es@),
        adj_matches(n as nat, es@, graph_f@),
        adj_matches(n as nat, flip_edges(es@), graph_r@),
    ensures
        exists|s: usize| (s as nat) < n && #[trigger] sweep_value(n as nat, es@, s, r as nat),
        exists|u: usize, v: usize|
            (u as nat) < n && (v as nat) < n && #[trigger] dist_is(es@, u, v, r as nat),
{
    let start1 = random_vertex(n);
    let dist1 = bfs_dist(n, graph_f, start1, es);
    let start2 = argmax(n, &dist1);
    proof {
        lemma_flip_edges_ok(n as nat, es@);
    }
    let dist2 = bfs_dist(n, graph_r, start2, Ghost(flip_edges(es@)));
    let r = max_finite(n, &dist2);
    proof {
        assert(max_finite_value(n as nat, flip_edges(es@), start2, r as nat)) by {
            assert forall|v: usize|
                (v as nat) < n && #[trigger] bfs_value(n as nat, flip_edges(es@), start2, v)
                    < n implies bfs_value(n as nat, flip_edges(es@), start2, v) <= r as nat by {
                assert((dist2@[v as int] as nat) == bfs_value(n as nat, flip_edges(es@), start2, v));
            }
            if r != 0 {
                let v = choose|v: int| 0 <= v < n && dist2@[v] == r;
                assert((dist2@[v] as nat) == bfs_value(n as nat, flip_edges(es@), start2, (v as usize)));
            }
        }
        assert(sweep_value(n as nat, es@, start1, r as nat)) by {
            assert forall|v: usize| (v as nat) < n implies #[trigger] bfs_value(n as nat, es@, start1, v)
                <= bfs_value(n as nat, es@, start1, start2) by {
                assert(dist1@[v as int] <= dist1@[start2 as int]);
                assert((dist1@[v as int] as nat) == bfs_value(n as nat, es@, start1, v));
                assert((dist1@[start2 as int] as nat) == bfs_value(n as nat, es@, start1, start2));
            }
        }
        if r == 0 {
            assert(dist_is(es@, start2, start2, 0));
        } else {
            let v = choose|v: int| 0 <= v < n && dist2@[v] == r;
            assert(dist_is(flip_edges(es@), start2, (v as usize), r as nat));
            lemma_dist_is_flip(es@, start2, v as usize, r as nat);
            assert(dist_is(es@, (v as usize), start2, r as nat));
        }
    }
    r
}

} // verus!
