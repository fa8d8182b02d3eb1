//! Turns the raw edge list into forward and reverse adjacency structures,
//! one successor (or predecessor) row per vertex.

use vstd::prelude::*;

use crate::graph::edges_ok;
use crate::graph::flip_edges;
use crate::graph::has_edge;
use crate::graph::lemma_edge_source_bound;
use crate::graph::lemma_flip_edge;
use crate::graph::lemma_push_contains;

verus! {

/// The rows of `g` list exactly the successors that the edge list `es` gives
/// each vertex: `b` stands in row `a` iff `a -> b` is an edge.
pub(crate) open spec fn adj_matches(n: nat, es: Seq<(usize, usize)>, g: Seq<Vec<usize>>) -> bool {
    &&& g.len() == n
    &&& forall|a: usize, b: usize|
        #![trigger has_edge(es, a, b)]
        #![trigger g[a as int]@.contains(b)]
        has_edge(es, a, b) <==> (a as nat) < n && g[a as int]@.contains(b)
}

/// The targets of the edges that leave `a`, one entry per edge, in input
/// order.
pub(crate) open spec fn targets_of(es: Seq<(usize, usize)>, a: usize) -> Seq<usize>
    decreases es.len(),
{
    if es.len() == 0 {
        Seq::empty()
    } else if es.last().0 == a {
        targets_of(es.drop_last(), a).push(es.last().1)
    } else {
        targets_of(es.drop_last(), a)
    }
}

/// The sources of the edges that enter `a`, one entry per edge, in input
/// order.
pub(crate) open spec fn sources_of(es: Seq<(usize, usize)>, a: usize) -> Seq<usize>
    decreases es.len(),
{
    if es.len() == 0 {
        Seq::empty()
    } else if es.last().1 == a {
        sources_of(es.drop_last(), a).push(es.last().0)
    } else {
        sources_of(es.drop_last(), a)
    }
}

/// One adjacency row: the targets of the edges that leave `a`, in input order.
fn row_targets(a: usize, edges: &[(usize, usize)]) -> (row: Vec<usize>)
    ensures
        forall|b: usize| #[trigger] row@.contains(b) <==> edges@.contains((a, b)),
        row@ == targets_of(edges@, a),
{
    let mut row: Vec<usize> = Vec::new();
    for i in 0..edges.len()
        invariant
            forall|b: usize| #[trigger]
                row@.contains(b) <==> exists|j: int| 0 <= j < i && edges@[j] == (a, b),
            row@ == targets_of(edges@.take(i as int), a),
    {
        let e = edges[i];
        proof {
            assert(edges@.take(i + 1).drop_last() =~= edges@.take(i as int));
            assert(edges@.take(i + 1).last() == e);
        }
        let ghost prev = row@;
        if e.0 == a {
            row.push(e.1);
        }
        proof {
            assert forall|b: usize| #[trigger] row@.contains(b) implies exists|j: int|
                0 <= j < i + 1 && edges@[j] == (a, b) by {
                lemma_push_contains(prev, e.1, b);
                if prev.contains(b) {
                    let j = choose|j: int| 0 <= j < i && edges@[j] == (a, b);
                    assert(edges@[j] == (a, b));
                } else {
                    assert(edges@[i as int] == (a, b));
                }
            }
            assert forall|b: usize|
                (exists|j: int| 0 <= j < i + 1 && edges@[j] == (a, b)) implies #[trigger] row@.contains(
                b,
            ) by {
                let j = choose|j: int| 0 <= j < i + 1 && edges@[j] == (a, b);
                if e.0 == a {
                    lemma_push_contains(prev, e.1, b);
                } else {
                    assert(j < i);
                }
            }
        }
    }
    proof {
        assert forall|b: usize| #[trigger] row@.contains(b) <==> edges@.contains((a, b)) by {
            if row@.contains(b) {
                let j = choose|j: int| 0 <= j < edges@.len() && edges@[j] == (a, b);
                assert(edges@[j] == (a, b));
            }
            if edges@.contains((a, b)) {
                let j = choose|j: int| 0 <= j < edges@.len() && edges@[j] == (a, b);
                assert(exists|j2: int| 0 <= j2 < edges@.len() && edges@[j2] == (a, b));
            }
        }
        assert(edges@.take(edges@.len() as int) =~= edges@);
    }
    row
}

/// One reverse row: the sources of the edges that enter `a`, in input order.
fn row_sources(a: usize, edges: &[(usize, usize)]) -> (row: Vec<usize>)
    ensures
        forall|b: usize| #[trigger] row@.contains(b) <==> edges@.contains((b, a)),
        row@ == sources_of(edges@, a),
{
    let mut row: Vec<usize> = Vec::new();
    for i in 0..edges.len()
        invariant
            forall|b: usize| #[trigger]
                row@.contains(b) <==> exists|j: int| 0 <= j < i && edges@[j] == (b, a),
            row@ == sources_of(edges@.take(i as int), a),
    {
        let e = edges[i];
        proof {
            assert(edges@.take(i + 1).drop_last() =~= edges@.take(i as int));
            assert(edges@.take(i + 1).last() == e);
        }
        let ghost prev = row@;
        if e.1 == a {
            row.push(e.0);
        }
        proof {
            assert forall|b: usize| #[trigger] row@.contains(b) implies exists|j: int|
                0 <= j < i + 1 && edges@[j] == (b, a) by {
                lemma_push_contains(prev, e.0, b);
                if prev.contains(b) {
                    let j = choose|j: int| 0 <= j < i && edges@[j] == (b, a);
                    assert(edges@[j] == (b, a));
                } else {
                    assert(edges@[i as int] == (b, a));
                }
            }
            assert forall|b: usize|
                (exists|j: int| 0 <= j < i + 1 && edges@[j] == (b, a)) implies #[trigger] row@.contains(
                b,
            ) by {
                let j = choose|j: int| 0 <= j < i + 1 && edges@[j] == (b, a);
                if e.1 == a {
                    lemma_push_contains(prev, e.0, b);
                } else {
                    assert(j < i);
                }
            }
        }
    }
    proof {
        assert forall|b: usize| #[trigger] row@.contains(b) <==> edges@.contains((b, a)) by {
            if row@.contains(b) {
                let j = choose|j: int| 0 <= j < edges@.len() && edges@[j] == (b, a);
                assert(edges@[j] == (b, a));
            }
            if edges@.contains((b, a)) {
                let j = choose|j: int| 0 <= j < edges@.len() && edges@[j] == (b, a);
                assert(exists|j2: int| 0 <= j2 < edges@.len() && edges@[j2] == (b, a));
            }
        }
        assert(edges@.take(edges@.len() as int) =~= edges@);
    }
    row
}

/// Builds the forward and the reverse adjacency structure of the edge list:
/// one entry per edge in each, indexed by the edge's source, respectively its
/// target.
pub(crate) fn build_adjacency(n: usize, edges: &[(usize, usize)]) -> (r: (
    Vec<Vec<usize>>,
    Vec<Vec<usize>>,
))
    requires
        edges_ok(n as nat, edges@),
    ensures
        adj_matches(n as nat, edges@, r.0@),
        adj_matches(n as nat, flip_edges(edges@), r.1@),
        forall|a: int| 0 <= a < n ==> (#[trigger] r.0@[a])@ == targets_of(edges@, a as usize),
        forall|a: int| 0 <= a < n ==> (#[trigger] r.1@[a])@ == sources_of(edges@, a as usize),
{
    let mut gf: Vec<Vec<usize>> = Vec::new();
    let mut gr: Vec<Vec<usize>> = Vec::new();
    for a in 0..n
        invariant
            gf@.len() == a,
            gr@.len() == a,
            forall|a2: int, b: usize|
                0 <= a2 < a ==> ((#[trigger] gf@[a2]@.contains(b)) <==> edges@.contains(
                    ((a2 as usize), b),
                )),
            forall|a2: int, b: usize|
                0 <= a2 < a ==> ((#[trigger] gr@[a2]@.contains(b)) <==> edges@.contains(
                    (b, (a2 as usize)),
                )),
            forall|a2: int| 0 <= a2 < a ==> (#[trigger] gf@[a2])@ == targets_of(edges@, a2 as usize),
            forall|a2: int| 0 <= a2 < a ==> (#[trigger] gr@[a2])@ == sources_of(edges@, a2 as usize),
    {
        gf.push(row_targets(a, edges));
        gr.push(row_sources(a, edges));
    }
    proof {
        assert forall|a: usize, b: usize|
            has_edge(edges@, a, b) <==> (a as nat) < n && gf@[a as int]@.contains(b) by {
            if has_edge(edges@, a, b) {
                lemma_edge_source_bound(n as nat, edges@, a, b);
            }
        }
        assert forall|a: usize, b: usize|
            has_edge(flip_edges(edges@), a, b) <==> (a as nat) < n && gr@[a as int]@.contains(
                b,
            ) by {
            lemma_flip_edge(edges@, a, b);
            if has_edge(edges@, b, a) {
                lemma_edge_source_bound(n as nat, edges@, b, a);
            }
        }
    }
    (gf, gr)
}

} // verus!
