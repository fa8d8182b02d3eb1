//! The eccentricity refiner: the orchestrating algorithm. It seeds a lower
//! bound on the diameter with double sweeps, then walks the strongly
//! connected components in reverse topological order keeping one upper bound
//! per vertex, skipping vertices whose bound cannot beat the lower bound,
//! resolving the rest exactly by breadth-first search, and propagating the
//! resolved value backward inside the vertex's own component.

use std::collections::VecDeque;
use vstd::prelude::*;

use crate::adjacency::adj_matches;
use crate::adjacency::build_adjacency;
use crate::bfs::bfs_dist;
use crate::bfs::filled;
use crate::bfs::lemma_seq_sum_update;
use crate::bfs::seq_sum;
use crate::graph::diameter_is;
use crate::graph::dist_is;
use crate::graph::ecc_le;
use crate::graph::edges_ok;
use crate::graph::flip_edges;
use crate::graph::has_edge;
use crate::graph::lemma_dist_is_bound;
use crate::graph::lemma_ecc_le_mono;
use crate::graph::lemma_edge_source_bound;
use crate::graph::lemma_flip_edge;
use crate::graph::lemma_reach_concat;
use crate::graph::lemma_reach_first_step;
use crate::graph::lemma_reach_mono;
use crate::graph::lemma_reach_prepend;
use crate::graph::lemma_reachable_bound;
use crate::graph::reach_within;
use crate::graph::reachable;
use crate::scc::appears_in;
use crate::scc::scc_decompose;
use crate::scc::scc_list_ok;
use crate::sweep::double_sweep;
use crate::sweep::max_finite;

verus! {

/// Number of independent double-sweep trials that seed the lower bound; more
/// trials tighten the initial pruning, never the result.
const NUM_DOUBLE_SWEEP: usize = 10;

/// The cheap tightening step is sound: one step to any successor and the
/// successor's own bound covers every path out of `u`.
proof fn lemma_cheap_bound(n: nat, es: Seq<(usize, usize)>, u: usize, eccs: Seq<usize>, ub: nat)
    requires
        edges_ok(n, es),
        (u as nat) < n,
        eccs.len() == n,
        forall|v: usize| (v as nat) < n ==> ecc_le(n, es, v, (#[trigger] eccs[v as int]) as nat),
        forall|b: usize| #[trigger] has_edge(es, u, b) ==> (eccs[b as int] + 1) <= ub,
    ensures
        ecc_le(n, es, u, ub),
{
    assert forall|t: usize| (t as nat) < n && #[trigger] reachable(es, u, t) implies reach_within(
        es,
        u,
        t,
        ub,
    ) by {
        if t == u {
            lemma_reach_mono(es, u, u, 0, ub);
        } else {
            lemma_reachable_bound(n, es, u, t);
            lemma_reach_first_step(es, u, t, (n - 1) as nat);
            let m = choose|m: usize|
                #[trigger] has_edge(es, u, m) && reach_within(es, m, t, ((n - 1) - 1) as nat);
            lemma_edge_source_bound(n, es, u, m);
            assert(reachable(es, m, t)) by {
                assert(reach_within(es, m, t, ((n - 1) - 1) as nat));
            }
            assert(ecc_le(n, es, m, eccs[m as int] as nat));
            assert(reach_within(es, m, t, eccs[m as int] as nat));
            lemma_reach_prepend(es, u, m, t, eccs[m as int] as nat);
            lemma_reach_mono(es, u, t, (eccs[m as int] + 1) as nat, ub);
        }
    }
}

/// The backward sweep's tightening is sound: a vertex `v` of `u`'s component
/// that reaches `u` in `dv` steps reaches everything it reaches at all within
/// `dv` plus `u`'s eccentricity, because `u` in turn reaches `v`.
proof fn lemma_backprop(n: nat, es: Seq<(usize, usize)>, u: usize, v: usize, du: nat, dv: nat)
    requires
        edges_ok(n, es),
        (u as nat) < n,
        (v as nat) < n,
        ecc_le(n, es, u, du),
        reach_within(es, v, u, dv),
        reachable(es, u, v),
    ensures
        ecc_le(n, es, v, (dv + du) as nat),
{
    assert forall|t: usize| (t as nat) < n && #[trigger] reachable(es, v, t) implies reach_within(
        es,
        v,
        t,
        (dv + du) as nat,
    ) by {
        let k1 = choose|k1: nat| reach_within(es, u, v, k1);
        let k2 = choose|k2: nat| reach_within(es, v, t, k2);
        lemma_reach_concat(es, u, v, t, k1, k2);
        assert(reachable(es, u, t)) by {
            assert(reach_within(es, u, t, (k1 + k2) as nat));
        }
        assert(reach_within(es, u, t, du));
        lemma_reach_concat(es, v, u, t, dv, du);
    }
}

/// One step of the refiner: processes vertex `u` against the tracked state.
/// The contract carries the run's discipline — the tracked lower bound never
/// decreases and no eccentricity upper bound ever increases — and leaves `u`
/// with a bound at most the (possibly raised) tracked lower bound.
fn refine_vertex(
    n: usize,
    graph_f: &Vec<Vec<usize>>,
    graph_r: &Vec<Vec<usize>>,
    scc_id: &Vec<usize>,
    sccs: Ghost<Seq<Vec<usize>>>,
    u: usize,
    ecc: &mut Vec<usize>,
    diameter: &mut usize,
    es: Ghost<Seq<(usize, usize)>>,
)
    requires
        1 <= n <= usize::MAX / 2,
        edges_ok(n as nat, es@),
        adj_matches(n as nat, es@, graph_f@),
        adj_matches(n as nat, flip_edges(es@), graph_r@),
        scc_list_ok(n as nat, es@, sccs@),
        scc_id@.len() == n,
        forall|v: usize|
            (v as nat) < n ==> (#[trigger] scc_id@[v as int] as int) < sccs@.len()
                && sccs@[scc_id@[v as int] as int]@.contains(v),
        (u as nat) < n,
        old(ecc)@.len() == n,
        forall|v: int| 0 <= v < n ==> old(ecc)@[v] <= n,
        forall|v: usize|
            (v as nat) < n ==> ecc_le(n as nat, es@, v, (#[trigger] old(ecc)@[v as int]) as nat),
        *old(diameter) < n,
        exists|a: usize, b: usize|
            (a as nat) < n && (b as nat) < n && #[trigger] dist_is(
                es@,
                a,
                b,
                *old(diameter) as nat,
            ),
    ensures
        final(ecc)@.len() == n,
        forall|v: int| 0 <= v < n ==> final(ecc)@[v] <= n,
        forall|v: int| 0 <= v < n ==> final(ecc)@[v] <= old(ecc)@[v],
        *final(diameter) >= *old(diameter),
        *final(diameter) < n,
        forall|v: usize|
            (v as nat) < n ==> ecc_le(n as nat, es@, v, (#[trigger] final(ecc)@[v as int]) as nat),
        exists|a: usize, b: usize|
            (a as nat) < n && (b as nat) < n && #[trigger] dist_is(
                es@,
                a,
                b,
                *final(diameter) as nat,
            ),
        ecc_le(n as nat, es@, u, *final(diameter) as nat),
{
    let ecc_u_entry = ecc[u];
    if ecc_u_entry <= *diameter {
        proof {
            lemma_ecc_le_mono(n as nat, es@, u, ecc@[u as int] as nat, *diameter as nat);
        }
        return;
    }
    let urow = &graph_f[u];
    let urow_len = urow.len();
    let mut ub: usize = 0;
    for jj in 0..urow_len
        invariant
            1 <= n <= usize::MAX / 2,
            edges_ok(n as nat, es@),
            adj_matches(n as nat, es@, graph_f@),
            (u as nat) < n,
            urow@ == graph_f@[u as int]@,
            urow_len == urow@.len(),
            ecc@.len() == n,
            forall|v: int| 0 <= v < n ==> ecc@[v] <= n,
            ub <= n + 1,
            forall|j2: int| 0 <= j2 < jj ==> (ecc@[(#[trigger] urow@[j2]) as int] + 1) <= ub,
    {
        let b = urow[jj];
        proof {
            assert(graph_f@[u as int]@.contains(b));
            assert(has_edge(es@, u, b));
            lemma_edge_source_bound(n as nat, es@, u, b);
        }
        let cand = ecc[b] + 1;
        if cand > ub {
            ub = cand;
        }
    }
    proof {
        assert forall|b: usize| #[trigger] has_edge(es@, u, b) implies (ecc@[b as int] + 1)
            <= ub by {
            assert(graph_f@[u as int]@.contains(b));
            let j2 = choose|j2: int| 0 <= j2 < urow@.len() && urow@[j2] == b;
            assert(urow@[j2] == b);
        }
    }
    if ub <= *diameter {
        proof {
            lemma_cheap_bound(n as nat, es@, u, ecc@, ub as nat);
        }
        ecc[u] = ub;
        proof {
            lemma_ecc_le_mono(n as nat, es@, u, ub as nat, *diameter as nat);
        }
        return;
    }
    let dist_f = bfs_dist(n, graph_f, u, es);
    let e_u = max_finite(n, &dist_f);
    proof {
        assert((e_u as nat) < n);
        assert forall|w: usize| (w as nat) < n && #[trigger] reachable(es@, u, w) implies
            reach_within(es@, u, w, e_u as nat) by {
            lemma_reachable_bound(n as nat, es@, u, w);
            assert((dist_f@[w as int] as nat) <= (n - 1) as nat);
            assert(dist_is(es@, u, w, dist_f@[w as int] as nat));
            lemma_reach_mono(es@, u, w, dist_f@[w as int] as nat, e_u as nat);
        }
        assert(ecc_le(n as nat, es@, u, e_u as nat));
    }
    ecc[u] = e_u;
    if e_u > *diameter {
        proof {
            let v = choose|v: int| 0 <= v < n && dist_f@[v] == e_u;
            assert(dist_is(es@, u, (v as usize), e_u as nat));
        }
        *diameter = e_u;
    }
    proof {
        lemma_ecc_le_mono(n as nat, es@, u, e_u as nat, *diameter as nat);
    }
    let cu = scc_id[u];
    let ecc_u = e_u;
    let mut dist_b = filled(n, n);
    dist_b[u] = 0;
    let mut queue: VecDeque<usize> = VecDeque::new();
    queue.push_back(u);
    while queue.len() != 0
        invariant
            1 <= n <= usize::MAX / 2,
            edges_ok(n as nat, es@),
            adj_matches(n as nat, es@, graph_f@),
            adj_matches(n as nat, flip_edges(es@), graph_r@),
            scc_list_ok(n as nat, es@, sccs@),
            scc_id@.len() == n,
            forall|v: usize|
                (v as nat) < n ==> (#[trigger] scc_id@[v as int] as int) < sccs@.len()
                    && sccs@[scc_id@[v as int] as int]@.contains(v),
            (u as nat) < n,
            cu == scc_id@[u as int],
            (ecc_u as nat) < n,
            ecc_le(n as nat, es@, u, ecc_u as nat),
            ecc@.len() == n,
            old(ecc)@.len() == n,
            forall|v: int| 0 <= v < n ==> ecc@[v] <= n,
            forall|v: int| 0 <= v < n ==> ecc@[v] <= old(ecc)@[v],
            forall|v: usize|
                (v as nat) < n ==> ecc_le(n as nat, es@, v, (#[trigger] ecc@[v as int]) as nat),
            dist_b@.len() == n,
            forall|x: int| 0 <= x < n ==> dist_b@[x] <= n,
            forall|x: usize|
                (x as nat) < n && (#[trigger] dist_b@[x as int]) < n ==> reach_within(
                    es@,
                    x,
                    u,
                    dist_b@[x as int] as nat,
                ) && reachable(es@, u, x),
            forall|qi: int|
                0 <= qi < queue@.len() ==> ((#[trigger] queue@[qi] as nat) < n
                    && dist_b@[queue@[qi] as int] < n),
        decreases seq_sum(dist_b@) + queue@.len(),
    {
        let ghost q_before = queue@;
        let ghost measure0 = seq_sum(dist_b@) + queue@.len();
        let v = queue.pop_front().unwrap();
        assert((v as nat) < n && dist_b@[v as int] < n) by {
            assert(q_before[0] == v);
        }
        let dv = dist_b[v];
        let cand = dv + ecc_u;
        if cand < ecc[v] {
            proof {
                lemma_backprop(n as nat, es@, u, v, ecc_u as nat, dv as nat);
            }
            ecc[v] = cand;
        }
        let vrow = &graph_r[v];
        let vrow_len = vrow.len();
        for jj in 0..vrow_len
            invariant
                1 <= n <= usize::MAX / 2,
                edges_ok(n as nat, es@),
                adj_matches(n as nat, flip_edges(es@), graph_r@),
                scc_list_ok(n as nat, es@, sccs@),
                scc_id@.len() == n,
                forall|v2: usize|
                    (v2 as nat) < n ==> (#[trigger] scc_id@[v2 as int] as int) < sccs@.len()
                        && sccs@[scc_id@[v2 as int] as int]@.contains(v2),
                (u as nat) < n,
                (v as nat) < n,
                cu == scc_id@[u as int],
                vrow@ == graph_r@[v as int]@,
                vrow_len == vrow@.len(),
                dv < n,
                dist_b@[v as int] == dv,
                dist_b@.len() == n,
                forall|x: int| 0 <= x < n ==> dist_b@[x] <= n,
                forall|x: usize|
                    (x as nat) < n && (#[trigger] dist_b@[x as int]) < n ==> reach_within(
                        es@,
                        x,
                        u,
                        dist_b@[x as int] as nat,
                    ) && reachable(es@, u, x),
                forall|qi: int|
                    0 <= qi < queue@.len() ==> ((#[trigger] queue@[qi] as nat) < n
                        && dist_b@[queue@[qi] as int] < n),
                seq_sum(dist_b@) + queue@.len() < measure0,
        {
            let w = vrow[jj];
            proof {
                assert(graph_r@[v as int]@.contains(w));
                assert(has_edge(flip_edges(es@), v, w));
                lemma_flip_edge(es@, v, w);
                lemma_edge_source_bound(n as nat, es@, w, v);
            }
            let dw = dist_b[w];
            let cw = scc_id[w];
            if cw == cu && dw > dv + 1 {
                proof {
                    lemma_seq_sum_update(dist_b@, w as int, (dv + 1) as usize);
                    lemma_reach_prepend(es@, w, v, u, dv as nat);
                    let jw = choose|jw: int|
                        0 <= jw < sccs@[cu as int]@.len() && sccs@[cu as int]@[jw] == w;
                    let ju = choose|ju: int|
                        0 <= ju < sccs@[cu as int]@.len() && sccs@[cu as int]@[ju] == u;
                    assert(reachable(es@, sccs@[cu as int]@[ju], sccs@[cu as int]@[jw]));
                    assert(reachable(es@, u, w));
                }
                let ghost q_old = queue@;
                dist_b[w] = dv + 1;
                queue.push_back(w);
                proof {
                    assert forall|qi: int| 0 <= qi < queue@.len() implies (
                    (#[trigger] queue@[qi] as nat) < n && dist_b@[queue@[qi] as int] < n) by {
                        if qi < q_old.len() {
                            assert(queue@[qi] == q_old[qi]);
                        } else {
                            assert(queue@[qi] == w);
                        }
                    }
                }
            }
        }
    }
}

/// Exact diameter of the unweighted directed graph with `n` vertices and the
/// given edge list: the greatest shortest-path distance over all ordered
/// vertex pairs whose second vertex is reachable from the first. Mutually
/// unreachable pairs contribute nothing, so a disconnected graph gets its
/// greatest finite eccentricity; the empty graph gets `0`.
pub fn graph_diameter(n: usize, edges: &[(usize, usize)]) -> (r: usize)
    requires
        edges_ok(n as nat, edges@),
        n <= usize::MAX / 2,
    ensures
        diameter_is(n as nat, edges@, r as nat),
{
    if n == 0 {
        return 0;
    }
    let ghost es = edges@;
    let (graph_f, graph_r) = build_adjacency(n, edges);
    let (sccs, scc_id) = scc_decompose(n, edges);

    let mut diameter: usize = 0;
    proof {
        assert(dist_is(es, 0usize, 0usize, 0nat));
    }
    let mut t: usize = 0;
    while t < NUM_DOUBLE_SWEEP
        invariant
            1 <= n <= usize::MAX / 2,
            es == edges@,
            edges_ok(n as nat, es),
            adj_matches(n as nat, es, graph_f@),
            adj_matches(n as nat, flip_edges(es), graph_r@),
            diameter < n,
            exists|u: usize, v: usize|
                (u as nat) < n && (v as nat) < n && #[trigger] dist_is(es, u, v, diameter as nat),
        decreases NUM_DOUBLE_SWEEP - t,
    {
        let s = double_sweep(n, &graph_f, &graph_r, Ghost(es));
        if s > diameter {
            proof {
                let (u, v) = choose|u: usize, v: usize|
                    (u as nat) < n && (v as nat) < n && #[trigger] dist_is(es, u, v, s as nat);
                lemma_dist_is_bound(n as nat, es, u, v, s as nat);
            }
            diameter = s;
        }
        t = t + 1;
    }

    let mut ecc = filled(n, n);
    let ghost ecc0 = ecc@;
    let ghost diameter0 = diameter;
    proof {
        assert forall|v: usize| (v as nat) < n implies ecc_le(
            n as nat,
            es,
            v,
            (#[trigger] ecc@[v as int]) as nat,
        ) by {
            assert(ecc@[v as int] == n);
            assert forall|w: usize| (w as nat) < n && #[trigger] reachable(es, v, w) implies
                reach_within(es, v, w, n as nat) by {
                lemma_reachable_bound(n as nat, es, v, w);
                lemma_reach_mono(es, v, w, (n - 1) as nat, n as nat);
            }
        }
    }

    let num = sccs.len();
    for ci in 0..num
        invariant
            1 <= n <= usize::MAX / 2,
            es == edges@,
            edges_ok(n as nat, es),
            adj_matches(n as nat, es, graph_f@),
            adj_matches(n as nat, flip_edges(es), graph_r@),
            scc_list_ok(n as nat, es, sccs@),
            scc_id@.len() == n,
            forall|v: usize|
                (v as nat) < n ==> (#[trigger] scc_id@[v as int] as int) < sccs@.len()
                    && sccs@[scc_id@[v as int] as int]@.contains(v),
            num == sccs@.len(),
            ecc@.len() == n,
            ecc0.len() == n,
            forall|v: int| 0 <= v < n ==> ecc0[v] == n,
            forall|v: int| 0 <= v < n ==> ecc@[v] <= n,
            forall|v: int| 0 <= v < n ==> ecc@[v] <= ecc0[v],
            diameter0 <= diameter < n,
            forall|v: usize|
                (v as nat) < n ==> ecc_le(n as nat, es, v, (#[trigger] ecc@[v as int]) as nat),
            exists|u: usize, v: usize|
                (u as nat) < n && (v as nat) < n && #[trigger] dist_is(es, u, v, diameter as nat),
            forall|i: int, j: int|
                0 <= i < ci && 0 <= j < sccs@[i]@.len() ==> #[trigger] ecc_le(
                    n as nat,
                    es,
                    sccs@[i]@[j],
                    diameter as nat,
                ),
    {
        let row = &sccs[ci];
        let row_len = row.len();
        for j in 0..row_len
            invariant
                1 <= n <= usize::MAX / 2,
                es == edges@,
                edges_ok(n as nat, es),
                adj_matches(n as nat, es, graph_f@),
                adj_matches(n as nat, flip_edges(es), graph_r@),
                scc_list_ok(n as nat, es, sccs@),
                scc_id@.len() == n,
                forall|v: usize|
                    (v as nat) < n ==> (#[trigger] scc_id@[v as int] as int) < sccs@.len()
                        && sccs@[scc_id@[v as int] as int]@.contains(v),
                num == sccs@.len(),
                (ci as int) < sccs@.len(),
                row@ == sccs@[ci as int]@,
                row_len == row@.len(),
                ecc@.len() == n,
                ecc0.len() == n,
                forall|v: int| 0 <= v < n ==> ecc0[v] == n,
                forall|v: int| 0 <= v < n ==> ecc@[v] <= n,
                forall|v: int| 0 <= v < n ==> ecc@[v] <= ecc0[v],
                diameter0 <= diameter < n,
                forall|v: usize|
                    (v as nat) < n ==> ecc_le(n as nat, es, v, (#[trigger] ecc@[v as int]) as nat),
                exists|u: usize, v: usize|
                    (u as nat) < n && (v as nat) < n && #[trigger] dist_is(
                        es,
                        u,
                        v,
                        diameter as nat,
                    ),
                forall|i: int, j2: int|
                    0 <= i < ci && 0 <= j2 < sccs@[i]@.len() ==> #[trigger] ecc_le(
                        n as nat,
                        es,
                        sccs@[i]@[j2],
                        diameter as nat,
                    ),
                forall|j2: int|
                    0 <= j2 < j ==> #[trigger] ecc_le(n as nat, es, row@[j2], diameter as nat),
        {
            let u = row[j];
            proof {
                assert(sccs@[ci as int]@[j as int] == u);
                assert((u as nat) < n);
            }
            let ghost d_before = diameter;
            refine_vertex(
                n,
                &graph_f,
                &graph_r,
                &scc_id,
                Ghost(sccs@),
                u,
                &mut ecc,
                &mut diameter,
                Ghost(es),
            );
            proof {
                assert forall|i: int, j2: int|
                    0 <= i < ci && 0 <= j2 < sccs@[i]@.len() implies #[trigger] ecc_le(
                    n as nat,
                    es,
                    sccs@[i]@[j2],
                    diameter as nat,
                ) by {
                    lemma_ecc_le_mono(n as nat, es, sccs@[i]@[j2], d_before as nat, diameter as nat);
                }
                assert forall|j2: int| 0 <= j2 < j + 1 implies #[trigger] ecc_le(
                    n as nat,
                    es,
                    row@[j2],
                    diameter as nat,
                ) by {
                    if j2 < j {
                        lemma_ecc_le_mono(n as nat, es, row@[j2], d_before as nat, diameter as nat);
                    } else {
                        assert(row@[j2] == u);
                    }
                }
            }
        }
        proof {
            assert forall|i: int, j2: int|
                0 <= i < ci + 1 && 0 <= j2 < sccs@[i]@.len() implies #[trigger] ecc_le(
                n as nat,
                es,
                sccs@[i]@[j2],
                diameter as nat,
            ) by {
                if i == ci {
                    assert(ecc_le(n as nat, es, sccs@[ci as int]@[j2], diameter as nat));
                }
            }
        }
    }
    proof {
        assert forall|u: usize| (u as nat) < n implies ecc_le(
            n as nat,
            es,
            u,
            diameter as nat,
        ) by {
            assert(appears_in(sccs@, u));
            let (i, j) = choose|i: int, j: int|
                0 <= i < sccs@.len() && 0 <= j < sccs@[i]@.len() && #[trigger] sccs@[i]@[j] == u;
            assert(ecc_le(n as nat, es, sccs@[i]@[j], diameter as nat));
        }
        assert(diameter_is(n as nat, es, diameter as nat));
    }
    diameter
}

} // verus!
