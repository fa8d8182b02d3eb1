//! Breadth-first shortest distances from one source vertex, with `n` as the
//! sentinel for "unreachable".

use std::collections::VecDeque;
use vstd::prelude::*;

use crate::adjacency::adj_matches;
use crate::graph::bfs_value;
use crate::graph::dist_is;
use crate::graph::edges_ok;
use crate::graph::has_edge;
use crate::graph::lemma_bfs_value_is;
use crate::graph::lemma_edge_source_bound;
use crate::graph::lemma_reach_extend;
use crate::graph::lemma_reachable_bound;
use crate::graph::reach_within;
use crate::graph::reachable;

verus! {

/// Sum of a sequence of machine integers, as a mathematical number; the
/// termination measure of the relaxation loop.
pub(crate) open spec fn seq_sum(s: Seq<usize>) -> nat
    decreases s.len(),
{
    if s.len() == 0 {
        0
    } else {
        seq_sum(s.drop_last()) + (s.last() as nat)
    }
}

/// Writing one entry moves the sum by the difference of the values.
pub(crate) proof fn lemma_seq_sum_update(s: Seq<usize>, i: int, x: usize)
    requires
        0 <= i < s.len(),
    ensures
        seq_sum(s.update(i, x)) + s[i] == seq_sum(s) + x,
    decreases s.len(),
{
    let t = s.update(i, x);
    if i == s.len() - 1 {
        assert(t.drop_last() =~= s.drop_last());
        assert(t.last() == x);
    } else {
        assert(t.drop_last() =~= s.drop_last().update(i, x));
        assert(t.last() == s.last());
        lemma_seq_sum_update(s.drop_last(), i, x);
        assert(s.drop_last()[i] == s[i]);
    }
}

/// Once every edge satisfies the triangle step `dist[b] <= dist[a] + 1` and
/// the source reads `0`, a path of `k` edges witnesses an entry of at most
/// `k`.
proof fn lemma_relaxed_complete(
    n: nat,
    es: Seq<(usize, usize)>,
    start: usize,
    dist: Seq<usize>,
    v: usize,
    k: nat,
)
    requires
        edges_ok(n, es),
        dist.len() == n,
        (start as nat) < n,
        dist[start as int] == 0,
        forall|a: usize, b: usize| #[trigger]
            has_edge(es, a, b) ==> (dist[b as int] as int) <= dist[a as int] + 1,
        (v as nat) < n,
        reach_within(es, start, v, k),
    ensures
        (dist[v as int] as nat) <= k,
    decreases k,
{
    if k > 0 {
        if reach_within(es, start, v, (k - 1) as nat) {
            lemma_relaxed_complete(n, es, start, dist, v, (k - 1) as nat);
        } else {
            let m = choose|m: usize|
                #[trigger] has_edge(es, m, v) && reach_within(es, start, m, (k - 1) as nat);
            lemma_edge_source_bound(n, es, m, v);
            lemma_relaxed_complete(n, es, start, dist, m, (k - 1) as nat);
        }
    }
}

/// A vector of `n` copies of `x`.
pub(crate) fn filled(n: usize, x: usize) -> (r: Vec<usize>)
    ensures
        r@.len() == n,
        forall|i: int| 0 <= i < n ==> r@[i] == x,
{
    let mut r: Vec<usize> = Vec::new();
    for i in 0..n
        invariant
            r@.len() == i,
            forall|j: int| 0 <= j < i ==> r@[j] == x,
    {
        r.push(x);
    }
    r
}

/// Shortest-path distances from `start` over the adjacency rows of `graph`:
/// `dist[v]` is the length of a shortest path `start -> v`, or the sentinel
/// `n` when no path exists. A first-in-first-out queue carries the frontier;
/// a vertex enters it whenever its entry improves.
pub(crate) fn bfs_dist(
    n: usize,
    graph: &Vec<Vec<usize>>,
    start: usize,
    es: Ghost<Seq<(usize, usize)>>,
) -> (dist: Vec<usize>)
    requires
        (start as nat) < n,
        edges_ok(n as nat, es@),
        adj_matches(n as nat, es@, graph@),
    ensures
        dist@.len() == n,
        forall|v: int| 0 <= v < n ==> dist@[v] <= n,
        dist@[start as int] == 0,
        forall|v: usize|
            (v as nat) < n && dist@[v as int] < n ==> dist_is(
                es@,
                start,
                v,
                dist@[v as int] as nat,
            ),
        forall|v: usize, k: nat|
            (v as nat) < n && reach_within(es@, start, v, k) ==> (dist@[v as int] as nat) <= k,
        forall|v: usize|
            (v as nat) < n ==> (dist@[v as int] as nat) == bfs_value(n as nat, es@, start, v),
{
    let mut dist = filled(n, n);
    dist[start] = 0;
    let mut queue: VecDeque<usize> = VecDeque::new();
    queue.push_back(start);
    proof {
        assert forall|a: usize, b: usize| #[trigger]
            has_edge(es@, a, b) implies queue@.contains(a) || (dist@[b as int] as int)
            <= dist@[a as int] + 1 by {
            lemma_edge_source_bound(n as nat, es@, a, b);
            if a == start {
                assert(queue@[0] == start);
            }
        }
    }
    while queue.len() != 0
        invariant
            dist@.len() == n,
            (start as nat) < n,
            edges_ok(n as nat, es@),
            adj_matches(n as nat, es@, graph@),
            dist@[start as int] == 0,
            forall|v: int| 0 <= v < n ==> dist@[v] <= n,
            forall|qi: int|
                0 <= qi < queue@.len() ==> ((#[trigger] queue@[qi] as nat) < n
                    && dist@[queue@[qi] as int] < n),
            forall|v: usize|
                (v as nat) < n && #[trigger] dist@[v as int] < n ==> reach_within(
                    es@,
                    start,
                    v,
                    dist@[v as int] as nat,
                ),
            forall|a: usize, b: usize| #[trigger]
                has_edge(es@, a, b) ==> queue@.contains(a) || (dist@[b as int] as int)
                    <= dist@[a as int] + 1,
        decreases seq_sum(dist@) + queue@.len(),
    {
        let ghost q_before = queue@;
        let ghost measure0 = seq_sum(dist@) + queue@.len();
        let u = queue.pop_front().unwrap();
        assert((u as nat) < n && dist@[u as int] < n) by {
            assert(q_before[0] == u);
        }
        let d = dist[u];
        let row = &graph[u];
        assert(row@ == graph@[u as int]@);
        let row_len = row.len();
        proof {
            assert forall|a: usize, b: usize| #[trigger]
                has_edge(es@, a, b) implies a == u || queue@.contains(a) || (
            dist@[b as int] as int) <= dist@[a as int] + 1 by {
                if a != u && !((dist@[b as int] as int) <= dist@[a as int] + 1) {
                    assert(q_before.contains(a));
                    let qi = choose|qi: int| 0 <= qi < q_before.len() && q_before[qi] == a;
                    assert(qi != 0) by {
                        assert(q_before[0] == u);
                    }
                    assert(queue@[qi - 1] == a);
                }
            }
        }
        for j in 0..row_len
            invariant
                dist@.len() == n,
                (start as nat) < n,
                (u as nat) < n,
                edges_ok(n as nat, es@),
                adj_matches(n as nat, es@, graph@),
                row@ == graph@[u as int]@,
                row_len == row@.len(),
                dist@[u as int] == d,
                d < n,
                dist@[start as int] == 0,
                forall|v: int| 0 <= v < n ==> dist@[v] <= n,
                forall|qi: int|
                    0 <= qi < queue@.len() ==> ((#[trigger] queue@[qi] as nat) < n
                        && dist@[queue@[qi] as int] < n),
                forall|v: usize|
                    (v as nat) < n && #[trigger] dist@[v as int] < n ==> reach_within(
                        es@,
                        start,
                        v,
                        dist@[v as int] as nat,
                    ),
                forall|a: usize, b: usize| #[trigger]
                    has_edge(es@, a, b) ==> a == u || queue@.contains(a) || (dist@[b as int] as int)
                        <= dist@[a as int] + 1,
                forall|jj: int| 0 <= jj < j ==> (dist@[row@[jj] as int] as int) <= d + 1,
                seq_sum(dist@) + queue@.len() < measure0,
        {
            let b = row[j];
            proof {
                assert(graph@[u as int]@.contains(b));
                assert(has_edge(es@, u, b));
                lemma_edge_source_bound(n as nat, es@, u, b);
            }
            let db = dist[b];
            if db > d + 1 {
                proof {
                    lemma_seq_sum_update(dist@, b as int, (d + 1) as usize);
                    lemma_reach_extend(es@, start, u, b, d as nat);
                }
                let ghost q_old = queue@;
                dist[b] = d + 1;
                queue.push_back(b);
                proof {
                    assert forall|qi: int| 0 <= qi < queue@.len() implies (
                    (#[trigger] queue@[qi] as nat) < n && dist@[queue@[qi] as int] < n) by {
                        if qi < q_old.len() {
                            assert(queue@[qi] == q_old[qi]);
                        } else {
                            assert(queue@[qi] == b);
                        }
                    }
                    assert forall|a: usize, b2: usize| #[trigger]
                        has_edge(es@, a, b2) implies a == u || queue@.contains(a) || (
                    dist@[b2 as int] as int) <= dist@[a as int] + 1 by {
                        if a != u && !queue@.contains(a) {
                            assert(!q_old.contains(a)) by {
                                if q_old.contains(a) {
                                    let qi = choose|qi: int|
                                        0 <= qi < q_old.len() && q_old[qi] == a;
                                    assert(queue@[qi] == a);
                                }
                            }
                            assert(a != b) by {
                                assert(queue@[queue@.len() - 1] == b);
                            }
                        }
                    }
                }
            }
            proof {
                assert forall|jj: int| 0 <= jj < j + 1 implies (dist@[row@[jj] as int] as int) <= d
                    + 1 by {
                    assert(row@[jj] == graph@[u as int]@[jj]);
                    assert(graph@[u as int]@.contains(row@[jj]));
                    assert(has_edge(es@, u, row@[jj]));
                    lemma_edge_source_bound(n as nat, es@, u, row@[jj]);
                    if jj == j {
                        assert(row@[jj] == b);
                    }
                }
            }
        }
        proof {
            assert forall|a: usize, b: usize| #[trigger]
                has_edge(es@, a, b) implies queue@.contains(a) || (dist@[b as int] as int)
                <= dist@[a as int] + 1 by {
                if a == u {
                    assert(graph@[u as int]@.contains(b));
                    let jj = choose|jj: int| 0 <= jj < row@.len() && row@[jj] == b;
                    assert((dist@[row@[jj] as int] as int) <= d + 1);
                }
            }
        }
    }
    proof {
        assert forall|v: usize, k: nat|
            (v as nat) < n && reach_within(es@, start, v, k) implies (dist@[v as int] as nat)
            <= k by {
            assert forall|a: usize, b: usize| #[trigger] has_edge(es@, a, b) implies (
            dist@[b as int] as int) <= dist@[a as int] + 1 by {
                assert(!queue@.contains(a));
            }
            lemma_relaxed_complete(n as nat, es@, start, dist@, v, k);
        }
        assert forall|v: usize| (v as nat) < n && dist@[v as int] < n implies dist_is(
            es@,
            start,
            v,
            dist@[v as int] as nat,
        ) by {
            let dv = dist@[v as int] as nat;
            if dv > 0 && reach_within(es@, start, v, (dv - 1) as nat) {
                assert forall|a: usize, b: usize| #[trigger] has_edge(es@, a, b) implies (
                dist@[b as int] as int) <= dist@[a as int] + 1 by {
                    assert(!queue@.contains(a));
                }
                lemma_relaxed_complete(n as nat, es@, start, dist@, v, (dv - 1) as nat);
            }
        }
        assert forall|v: usize| (v as nat) < n implies (dist@[v as int] as nat) == bfs_value(
            n as nat,
            es@,
            start,
            v,
        ) by {
            if dist@[v as int] < n {
                lemma_bfs_value_is(n as nat, es@, start, v, dist@[v as int] as nat);
            } else {
                if reachable(es@, start, v) {
                    lemma_reachable_bound(n as nat, es@, start, v);
                    assert((dist@[v as int] as nat) <= (n - 1) as nat);
                    assert(false);
                }
            }
        }
    }
    dist
}

} // verus!
