//! Strongly-connected-component decomposition, delegated to an outside
//! linear-time solver behind trusted contracts. The decomposition only
//! steers the refiner's pruning; the final diameter is proved correct from
//! the partition and mutual-reachability facts alone.

use vstd::prelude::*;

use crate::bfs::filled;
use crate::graph::edges_ok;
use crate::graph::reachable;

verus! {

/// `v` stands somewhere in the component list.
pub open spec fn appears_in(comps: Seq<Vec<usize>>, v: usize) -> bool {
    exists|i: int, j: int|
        0 <= i < comps.len() && 0 <= j < comps[i]@.len() && #[trigger] comps[i]@[j] == v
}

/// `u` and `v` stand in one and the same component.
pub open spec fn in_same_comp(comps: Seq<Vec<usize>>, u: usize, v: usize) -> bool {
    exists|i: int, j1: int, j2: int|
        #![trigger comps[i]@[j1], comps[i]@[j2]]
        0 <= i < comps.len() && 0 <= j1 < comps[i]@.len() && 0 <= j2 < comps[i]@.len()
            && comps[i]@[j1] == u && comps[i]@[j2] == v
}

/// The index of the component that holds `v` (unique for a valid partition).
pub open spec fn comp_of(comps: Seq<Vec<usize>>, v: usize) -> int {
    choose|i: int| 0 <= i < comps.len() && comps[i]@.contains(v)
}

/// The component order follows the edges: no edge leaves a later component
/// for an earlier one.
pub open spec fn comps_topo(es: Seq<(usize, usize)>, comps: Seq<Vec<usize>>) -> bool {
    forall|k: int|
        0 <= k < es.len() ==> comp_of(comps, (#[trigger] es[k]).0) <= comp_of(comps, es[k].1)
}

/// The component order runs against the edges: no edge leaves an earlier
/// component for a later one.
pub open spec fn comps_rev_topo(es: Seq<(usize, usize)>, comps: Seq<Vec<usize>>) -> bool {
    forall|k: int|
        0 <= k < es.len() ==> comp_of(comps, (#[trigger] es[k]).1) <= comp_of(comps, es[k].0)
}

/// A valid component list for the graph `(n, es)`: every entry a vertex,
/// every vertex in exactly one place, vertices that share a component
/// mutually reachable, and mutually reachable vertices sharing a component
/// (each component is a whole strongly connected component).
pub open spec fn scc_list_ok(n: nat, es: Seq<(usize, usize)>, comps: Seq<Vec<usize>>) -> bool {
    &&& forall|i: int, j: int|
        0 <= i < comps.len() && 0 <= j < comps[i]@.len() ==> ((#[trigger] comps[i]@[j]) as nat) < n
    &&& forall|v: usize| (v as nat) < n ==> #[trigger] appears_in(comps, v)
    &&& forall|i1: int, j1: int, i2: int, j2: int|
        #![trigger comps[i1]@[j1], comps[i2]@[j2]]
        0 <= i1 < comps.len() && 0 <= j1 < comps[i1]@.len() && 0 <= i2 < comps.len() && 0 <= j2
            < comps[i2]@.len() && (i1 != i2 || j1 != j2) ==> comps[i1]@[j1] != comps[i2]@[j2]
    &&& forall|i: int, j1: int, j2: int|
        0 <= i < comps.len() && 0 <= j1 < comps[i]@.len() && 0 <= j2 < comps[i]@.len()
            ==> #[trigger] reachable(es, comps[i]@[j1], comps[i]@[j2])
    &&& forall|u: usize, v: usize|
        #![trigger reachable(es, u, v), reachable(es, v, u)]
        (u as nat) < n && (v as nat) < n && reachable(es, u, v) && reachable(es, v, u)
            ==> in_same_comp(comps, u, v)
}

/// The outside solver's graph type, opaque to the verifier.
#[verifier::external_type_specification]
#[verifier::external_body]
pub struct ExSccGraph(ac_library::SccGraph);

/// The vertex count the solver's graph was created with.
pub uninterp spec fn scc_graph_n(g: ac_library::SccGraph) -> nat;

/// The edges recorded in the solver's graph, in insertion order.
pub uninterp spec fn scc_graph_edges(g: ac_library::SccGraph) -> Seq<(usize, usize)>;

/// Relies on ac_library::SccGraph::new: a graph with `n` vertices and no
/// edges yet.
#[verifier::external_body]
fn scc_graph_new(n: usize) -> (g: ac_library::SccGraph)
    ensures
        scc_graph_n(g) == n,
        scc_graph_edges(g) == Seq::<(usize, usize)>::empty(),
{
    ac_library::SccGraph::new(n)
}

/// Relies on ac_library::SccGraph::add_edge: records one directed edge. The
/// call panics when an endpoint is out of range, so that case is ruled out
/// here.
#[verifier::external_body]
fn scc_graph_add_edge(g: &mut ac_library::SccGraph, from: usize, to: usize)
    requires
        (from as nat) < scc_graph_n(*old(g)),
        (to as nat) < scc_graph_n(*old(g)),
    ensures
        scc_graph_n(*final(g)) == scc_graph_n(*old(g)),
        scc_graph_edges(*final(g)) == scc_graph_edges(*old(g)).push((from, to)),
{
    g.add_edge(from, to)
}

/// Relies on ac_library::SccGraph::scc: the strongly connected components of
/// the recorded graph — each vertex in exactly one component, each component
/// a whole mutually-reachable class — and the list in topological order of
/// the condensation: every edge goes from its own component or an earlier one
/// into a later or equal one.
#[verifier::external_body]
fn scc_graph_scc(g: &ac_library::SccGraph) -> (r: Vec<Vec<usize>>)
    ensures
        scc_list_ok(scc_graph_n(*g), scc_graph_edges(*g), r@),
        comps_topo(scc_graph_edges(*g), r@),
{
    g.scc()
}

/// Strongly connected components of the graph in reverse topological order of
/// the condensation (no edge leaves an earlier component for a later one),
/// and the component index of every vertex. The order, and any order of
/// vertices inside one component, only steer the refiner's pruning; the
/// refiner is proved correct from the partition facts alone.
pub(crate) fn scc_decompose(n: usize, edges: &[(usize, usize)]) -> (r: (Vec<Vec<usize>>, Vec<usize>))
    requires
        n >= 1,
        edges_ok(n as nat, edges@),
    ensures
        scc_list_ok(n as nat, edges@, r.0@),
        comps_rev_topo(edges@, r.0@),
        r.1@.len() == n,
        forall|v: usize|
            (v as nat) < n ==> (#[trigger] r.1@[v as int] as int) < r.0@.len()
                && r.0@[r.1@[v as int] as int]@.contains(v),
{
    let mut g = scc_graph_new(n);
    for i in 0..edges.len()
        invariant
            scc_graph_n(g) == n,
            scc_graph_edges(g) == edges@.take(i as int),
            edges_ok(n as nat, edges@),
    {
        let e = edges[i];
        proof {
            assert(edges@[i as int] == e);
            assert((e.0 as nat) < n && (e.1 as nat) < n);
        }
        scc_graph_add_edge(&mut g, e.0, e.1);
        proof {
            assert(edges@.take(i as int).push(e) =~= edges@.take(i + 1));
        }
    }
    proof {
        assert(edges@.take(edges@.len() as int) =~= edges@);
    }
    let mut rest = scc_graph_scc(&g);
    let ghost raw = rest@;
    let mut comps: Vec<Vec<usize>> = Vec::new();
    while rest.len() != 0
        invariant
            rest@.len() + comps@.len() == raw.len(),
            rest@ == raw.take(rest@.len() as int),
            forall|i: int|
                0 <= i < comps@.len() ==> #[trigger] comps@[i] == raw[raw.len() - 1 - i],
        decreases rest@.len(),
    {
        let ghost rest0 = rest@;
        let c = rest.pop().unwrap();
        comps.push(c);
        proof {
            assert(rest0 == raw.take(rest0.len() as int));
            assert(c == raw[rest0.len() - 1]);
            assert(rest@ =~= raw.take(rest@.len() as int));
        }
    }
    proof {
        lemma_scc_list_reverse(n as nat, edges@, raw, comps@);
    }
    let mut scc_id = filled(n, 0);
    proof {
        assert(comps@.len() >= 1) by {
            assert((0usize as nat) < n);
            assert(appears_in(comps@, 0usize));
            let (i, j) = choose|i: int, j: int|
                0 <= i < comps@.len() && 0 <= j < comps@[i]@.len() && #[trigger] comps@[i]@[j]
                    == 0usize;
        }
    }
    let num = comps.len();
    for ci in 0..num
        invariant
            scc_id@.len() == n,
            num == comps@.len(),
            1 <= comps@.len(),
            scc_list_ok(n as nat, edges@, comps@),
            comps_rev_topo(edges@, comps@),
            forall|v: usize|
                (v as nat) < n ==> (#[trigger] scc_id@[v as int] as int) < comps@.len(),
            forall|v: usize|
                (v as nat) < n && appears_in(comps@.take(ci as int), v)
                    ==> comps@[#[trigger] scc_id@[v as int] as int]@.contains(v),
    {
        let row = &comps[ci];
        let row_len = row.len();
        let ghost prefix_done = comps@.take(ci as int);
        for j in 0..row_len
            invariant
                scc_id@.len() == n,
                num == comps@.len(),
                1 <= comps@.len(),
                (ci as int) < comps@.len(),
                row@ == comps@[ci as int]@,
                row_len == row@.len(),
                prefix_done == comps@.take(ci as int),
                scc_list_ok(n as nat, edges@, comps@),
                comps_rev_topo(edges@, comps@),
                forall|v: usize|
                    (v as nat) < n ==> (#[trigger] scc_id@[v as int] as int) < comps@.len(),
                forall|v: usize|
                    (v as nat) < n && (appears_in(prefix_done, v) || comps@[ci as int]@.take(
                        j as int,
                    ).contains(v)) ==> comps@[#[trigger] scc_id@[v as int] as int]@.contains(v),
        {
            let v = row[j];
            proof {
                assert(comps@[ci as int]@[j as int] == v);
                assert((v as nat) < n);
            }
            scc_id[v] = ci;
            proof {
                assert(comps@[ci as int]@.contains(v)) by {
                    assert(comps@[ci as int]@[j as int] == v);
                }
                assert forall|w: usize|
                    (w as nat) < n && (appears_in(prefix_done, w) || comps@[ci as int]@.take(
                        j + 1,
                    ).contains(w)) implies comps@[#[trigger] scc_id@[w as int] as int]@.contains(
                    w,
                ) by {
                    if w != v {
                        if comps@[ci as int]@.take(j + 1).contains(w) {
                            let jj = choose|jj: int|
                                0 <= jj < j + 1 && #[trigger] comps@[ci as int]@.take(j + 1)[jj]
                                    == w;
                            assert(comps@[ci as int]@.take(j as int)[jj] == w);
                        }
                    }
                }
            }
        }
        proof {
            assert forall|v: usize|
                (v as nat) < n && appears_in(comps@.take(ci + 1), v) implies comps@[#[trigger] scc_id@[v as int] as int]@.contains(
                v,
            ) by {
                let (i, jx) = choose|i: int, jx: int|
                    0 <= i < comps@.take(ci + 1).len() && 0 <= jx < comps@.take(ci + 1)[i]@.len()
                        && #[trigger] comps@.take(ci + 1)[i]@[jx] == v;
                if i < ci {
                    assert(appears_in(prefix_done, v)) by {
                        assert(prefix_done[i]@[jx] == v);
                    }
                } else {
                    assert(comps@[ci as int]@.take(row_len as int)[jx] == v);
                    assert(comps@[ci as int]@.take(row_len as int).contains(v));
                }
            }
        }
    }
    proof {
        assert(comps@.take(num as int) =~= comps@);
    }
    (comps, scc_id)
}

/// In a valid partition, any component that holds `v` is the one `comp_of`
/// names.
proof fn lemma_comp_of_member(
    n: nat,
    es: Seq<(usize, usize)>,
    comps: Seq<Vec<usize>>,
    v: usize,
    i: int,
)
    requires
        scc_list_ok(n, es, comps),
        0 <= i < comps.len(),
        comps[i]@.contains(v),
    ensures
        comp_of(comps, v) == i,
{
    let c = comp_of(comps, v);
    assert(0 <= c < comps.len() && comps[c]@.contains(v));
    if c != i {
        let j1 = choose|j: int| 0 <= j < comps[c]@.len() && comps[c]@[j] == v;
        let j2 = choose|j: int| 0 <= j < comps[i]@.len() && comps[i]@[j] == v;
        assert(comps[c]@[j1] != comps[i]@[j2]);
        assert(false);
    }
}

/// Reversing the component list keeps it a valid component list and turns
/// the topological order of the condensation around.
proof fn lemma_scc_list_reverse(
    n: nat,
    es: Seq<(usize, usize)>,
    raw: Seq<Vec<usize>>,
    comps: Seq<Vec<usize>>,
)
    requires
        edges_ok(n, es),
        scc_list_ok(n, es, raw),
        comps_topo(es, raw),
        comps.len() == raw.len(),
        forall|i: int| 0 <= i < comps.len() ==> #[trigger] comps[i] == raw[raw.len() - 1 - i],
    ensures
        scc_list_ok(n, es, comps),
        comps_rev_topo(es, comps),
{
    let l = raw.len() as int;
    assert forall|v: usize| (v as nat) < n implies #[trigger] appears_in(comps, v) by {
        assert(appears_in(raw, v));
        let (i, j) = choose|i: int, j: int|
            0 <= i < raw.len() && 0 <= j < raw[i]@.len() && #[trigger] raw[i]@[j] == v;
        assert(comps[l - 1 - i] == raw[i]);
        assert(comps[l - 1 - i]@[j] == v);
    }
    assert forall|i1: int, j1: int, i2: int, j2: int|
        #![trigger comps[i1]@[j1], comps[i2]@[j2]]
        0 <= i1 < comps.len() && 0 <= j1 < comps[i1]@.len() && 0 <= i2 < comps.len() && 0 <= j2
            < comps[i2]@.len() && (i1 != i2 || j1 != j2) implies comps[i1]@[j1]
        != comps[i2]@[j2] by {
        assert(comps[i1] == raw[l - 1 - i1]);
        assert(comps[i2] == raw[l - 1 - i2]);
        assert(raw[l - 1 - i1]@[j1] != raw[l - 1 - i2]@[j2]);
    }
    assert forall|i: int, j1: int, j2: int|
        0 <= i < comps.len() && 0 <= j1 < comps[i]@.len() && 0 <= j2
            < comps[i]@.len() implies #[trigger] reachable(es, comps[i]@[j1], comps[i]@[j2]) by {
        assert(comps[i] == raw[l - 1 - i]);
        assert(reachable(es, raw[l - 1 - i]@[j1], raw[l - 1 - i]@[j2]));
    }
    assert forall|u: usize, v: usize|
        #![trigger reachable(es, u, v), reachable(es, v, u)]
        (u as nat) < n && (v as nat) < n && reachable(es, u, v) && reachable(
            es,
            v,
            u,
        ) implies in_same_comp(comps, u, v) by {
        assert(in_same_comp(raw, u, v));
        let (i, j1, j2) = choose|i: int, j1: int, j2: int|
            #![trigger raw[i]@[j1], raw[i]@[j2]]
            0 <= i < raw.len() && 0 <= j1 < raw[i]@.len() && 0 <= j2 < raw[i]@.len()
                && raw[i]@[j1] == u && raw[i]@[j2] == v;
        assert(comps[l - 1 - i] == raw[i]);
        assert(comps[l - 1 - i]@[j1] == u && comps[l - 1 - i]@[j2] == v);
    }
    assert(scc_list_ok(n, es, comps));
    assert forall|k: int| 0 <= k < es.len() implies comp_of(comps, (#[trigger] es[k]).1)
        <= comp_of(comps, es[k].0) by {
        let a = es[k].0;
        let b = es[k].1;
        assert((a as nat) < n && (b as nat) < n);
        assert(appears_in(raw, a));
        let (ia, ja) = choose|i: int, j: int|
            0 <= i < raw.len() && 0 <= j < raw[i]@.len() && #[trigger] raw[i]@[j] == a;
        assert(raw[ia]@.contains(a)) by {
            assert(raw[ia]@[ja] == a);
        }
        assert(appears_in(raw, b));
        let (ib, jb) = choose|i: int, j: int|
            0 <= i < raw.len() && 0 <= j < raw[i]@.len() && #[trigger] raw[i]@[j] == b;
        assert(raw[ib]@.contains(b)) by {
            assert(raw[ib]@[jb] == b);
        }
        lemma_comp_of_member(n, es, raw, a, ia);
        lemma_comp_of_member(n, es, raw, b, ib);
        assert(ia <= ib);
        assert(comps[l - 1 - ia] == raw[ia]);
        assert(comps[l - 1 - ia]@.contains(a)) by {
            assert(comps[l - 1 - ia]@[ja] == a);
        }
        assert(comps[l - 1 - ib] == raw[ib]);
        assert(comps[l - 1 - ib]@.contains(b)) by {
            assert(comps[l - 1 - ib]@[jb] == b);
        }
        lemma_comp_of_member(n, es, comps, a, l - 1 - ia);
        lemma_comp_of_member(n, es, comps, b, l - 1 - ib);
    }
}

} // verus!
