//! Mathematical model of an unweighted directed graph given by its edge list,
//! with the reachability, distance and diameter notions that every contract
//! of this library is stated over, and the lemmas that relate them.

use vstd::prelude::*;
use vstd::set_lib::lemma_int_range;
use vstd::set_lib::lemma_len_subset;
use vstd::set_lib::set_int_range;

verus! {

/// Every endpoint of every edge is a vertex index below `n`.
pub open spec fn edges_ok(n: nat, es: Seq<(usize, usize)>) -> bool {
    forall|i: int|
        0 <= i < es.len() ==> ((#[trigger] es[i]).0 as nat) < n && (es[i].1 as nat) < n
}

/// The edge list holds a directed edge `a -> b`.
pub open spec fn has_edge(es: Seq<(usize, usize)>, a: usize, b: usize) -> bool {
    es.contains((a, b))
}

/// The edge list with every edge turned around.
pub open spec fn flip_edges(es: Seq<(usize, usize)>) -> Seq<(usize, usize)> {
    es.map_values(|e: (usize, usize)| (e.1, e.0))
}

/// There is a directed path of at most `k` edges from `s` to `t`.
pub open spec fn reach_within(es: Seq<(usize, usize)>, s: usize, t: usize, k: nat) -> bool
    decreases k,
{
    if k == 0 {
        s == t
    } else {
        reach_within(es, s, t, (k - 1) as nat) || exists|m: usize|
            #[trigger] has_edge(es, m, t) && reach_within(es, s, m, (k - 1) as nat)
    }
}

/// `t` can be reached from `s` along the edges.
pub open spec fn reachable(es: Seq<(usize, usize)>, s: usize, t: usize) -> bool {
    exists|k: nat| reach_within(es, s, t, k)
}

/// The shortest path from `s` to `t` has exactly `d` edges.
pub open spec fn dist_is(es: Seq<(usize, usize)>, s: usize, t: usize, d: nat) -> bool {
    &&& reach_within(es, s, t, d)
    &&& d > 0 ==> !reach_within(es, s, t, (d - 1) as nat)
}

/// The entry that breadth-first search from `s` gives vertex `v` in a graph
/// on `n` vertices: the shortest-path distance when `v` is reachable, the
/// sentinel `n` otherwise.
pub open spec fn bfs_value(n: nat, es: Seq<(usize, usize)>, s: usize, v: usize) -> nat {
    if reachable(es, s, v) {
        choose|d: nat| dist_is(es, s, v, d)
    } else {
        n
    }
}

/// The eccentricity of `u` is at most `b`: every vertex reachable from `u`
/// lies within `b` steps of it.
pub open spec fn ecc_le(n: nat, es: Seq<(usize, usize)>, u: usize, b: nat) -> bool {
    forall|t: usize| (t as nat) < n && #[trigger] reachable(es, u, t) ==> reach_within(es, u, t, b)
}

/// `d` is the diameter of the graph on `n` vertices: it bounds the shortest
/// distance of every ordered reachable pair, and some pair attains it
/// exactly. The empty graph has diameter `0` by convention.
pub open spec fn diameter_is(n: nat, es: Seq<(usize, usize)>, d: nat) -> bool {
    &&& forall|u: usize| (u as nat) < n ==> ecc_le(n, es, u, d)
    &&& n > 0 ==> exists|u: usize, v: usize|
        (u as nat) < n && (v as nat) < n && #[trigger] dist_is(es, u, v, d)
    &&& n == 0 ==> d == 0
}

/// A path of at most `k` edges is also a path of at most `k2 >= k` edges.
pub proof fn lemma_reach_mono(es: Seq<(usize, usize)>, s: usize, t: usize, k: nat, k2: nat)
    requires
        reach_within(es, s, t, k),
        k <= k2,
    ensures
        reach_within(es, s, t, k2),
    decreases k2,
{
    if k2 > k {
        lemma_reach_mono(es, s, t, k, (k2 - 1) as nat);
    }
}

/// A path to `m` followed by an edge `m -> t` reaches `t`.
pub proof fn lemma_reach_extend(es: Seq<(usize, usize)>, s: usize, m: usize, t: usize, k: nat)
    requires
        reach_within(es, s, m, k),
        has_edge(es, m, t),
    ensures
        reach_within(es, s, t, (k + 1) as nat),
{
    assert(has_edge(es, m, t) && reach_within(es, s, m, ((k + 1) - 1) as nat));
}

/// An edge `s -> m` followed by a path from `m` reaches `t`.
pub proof fn lemma_reach_prepend(es: Seq<(usize, usize)>, s: usize, m: usize, t: usize, k: nat)
    requires
        has_edge(es, s, m),
        reach_within(es, m, t, k),
    ensures
        reach_within(es, s, t, (k + 1) as nat),
    decreases k,
{
    if k == 0 {
        assert(reach_within(es, s, s, 0));
        lemma_reach_extend(es, s, s, t, 0);
    } else {
        if reach_within(es, m, t, (k - 1) as nat) {
            lemma_reach_prepend(es, s, m, t, (k - 1) as nat);
            lemma_reach_mono(es, s, t, k, (k + 1) as nat);
        } else {
            let m2 = choose|m2: usize|
                #[trigger] has_edge(es, m2, t) && reach_within(es, m, m2, (k - 1) as nat);
            lemma_reach_prepend(es, s, m, m2, (k - 1) as nat);
            lemma_reach_extend(es, s, m2, t, k);
        }
    }
}

/// A path from `s` to a distinct `t` starts with an edge out of `s`.
pub proof fn lemma_reach_first_step(es: Seq<(usize, usize)>, s: usize, t: usize, k: nat)
    requires
        reach_within(es, s, t, k),
        s != t,
    ensures
        k > 0 && exists|m: usize|
            #[trigger] has_edge(es, s, m) && reach_within(es, m, t, (k - 1) as nat),
    decreases k,
{
    if reach_within(es, s, t, (k - 1) as nat) {
        lemma_reach_first_step(es, s, t, (k - 1) as nat);
        let m = choose|m: usize|
            #[trigger] has_edge(es, s, m) && reach_within(es, m, t, (k - 2) as nat);
        lemma_reach_mono(es, m, t, (k - 2) as nat, (k - 1) as nat);
    } else {
        let m = choose|m: usize|
            #[trigger] has_edge(es, m, t) && reach_within(es, s, m, (k - 1) as nat);
        if s == m {
            assert(reach_within(es, t, t, 0));
            lemma_reach_mono(es, t, t, 0, (k - 1) as nat);
            assert(has_edge(es, s, t) && reach_within(es, t, t, (k - 1) as nat));
        } else {
            lemma_reach_first_step(es, s, m, (k - 1) as nat);
            let m2 = choose|m2: usize|
                #[trigger] has_edge(es, s, m2) && reach_within(es, m2, m, (k - 2) as nat);
            lemma_reach_extend(es, m2, m, t, (k - 2) as nat);
        }
    }
}

/// Two paths that share their middle vertex join into one.
pub proof fn lemma_reach_concat(
    es: Seq<(usize, usize)>,
    s: usize,
    m: usize,
    t: usize,
    k1: nat,
    k2: nat,
)
    requires
        reach_within(es, s, m, k1),
        reach_within(es, m, t, k2),
    ensures
        reach_within(es, s, t, (k1 + k2) as nat),
    decreases k2,
{
    if k2 == 0 {
        assert(m == t);
    } else {
        if reach_within(es, m, t, (k2 - 1) as nat) {
            lemma_reach_concat(es, s, m, t, k1, (k2 - 1) as nat);
            lemma_reach_mono(es, s, t, (k1 + k2 - 1) as nat, (k1 + k2) as nat);
        } else {
            let m2 = choose|m2: usize|
                #[trigger] has_edge(es, m2, t) && reach_within(es, m, m2, (k2 - 1) as nat);
            lemma_reach_concat(es, s, m, m2, k1, (k2 - 1) as nat);
            lemma_reach_extend(es, s, m2, t, (k1 + k2 - 1) as nat);
        }
    }
}

/// Whatever a path from `s` reaches is itself a vertex of the graph.
pub proof fn lemma_reach_target_bound(
    n: nat,
    es: Seq<(usize, usize)>,
    s: usize,
    t: usize,
    k: nat,
)
    requires
        edges_ok(n, es),
        (s as nat) < n,
        reach_within(es, s, t, k),
    ensures
        (t as nat) < n,
    decreases k,
{
    if k > 0 {
        if reach_within(es, s, t, (k - 1) as nat) {
            lemma_reach_target_bound(n, es, s, t, (k - 1) as nat);
        } else {
            let m = choose|m: usize|
                #[trigger] has_edge(es, m, t) && reach_within(es, s, m, (k - 1) as nat);
            let i = choose|i: int| 0 <= i < es.len() && es[i] == (m, t);
            assert((es[i].1 as nat) < n);
        }
    }
}

/// Both endpoints of an edge are vertices of the graph.
pub proof fn lemma_edge_source_bound(n: nat, es: Seq<(usize, usize)>, a: usize, b: usize)
    requires
        edges_ok(n, es),
        has_edge(es, a, b),
    ensures
        (a as nat) < n,
        (b as nat) < n,
{
    let i = choose|i: int| 0 <= i < es.len() && es[i] == (a, b);
    assert((es[i].0 as nat) < n);
}

/// Pushing onto a sequence adds exactly one member.
pub proof fn lemma_push_contains<A>(s: Seq<A>, x: A, y: A)
    ensures
        s.push(x).contains(y) <==> (s.contains(y) || y == x),
{
    if s.push(x).contains(y) {
        let i = choose|i: int| 0 <= i < s.push(x).len() && s.push(x)[i] == y;
        if i < s.len() {
            assert(s[i] == y);
        }
    }
    if s.contains(y) {
        let i = choose|i: int| 0 <= i < s.len() && s[i] == y;
        assert(s.push(x)[i] == y);
    }
    assert(s.push(x)[s.len() as int] == x);
}

/// The vertices of the graph on `n` vertices that `s` reaches within `k`
/// steps, as a set of integers.
pub open spec fn reach_set(n: nat, es: Seq<(usize, usize)>, s: usize, k: nat) -> Set<int> {
    Set::new(|t: int| 0 <= t < n && reach_within(es, s, t as usize, k))
}

/// The reach set is a subset of the vertex range, so finite and of size at
/// most `n`.
pub proof fn lemma_reach_set_range(n: nat, es: Seq<(usize, usize)>, s: usize, k: nat)
    ensures
        reach_set(n, es, s, k).finite(),
        reach_set(n, es, s, k).len() <= n,
{
    lemma_int_range(0, n as int);
    assert(reach_set(n, es, s, k).subset_of(set_int_range(0, n as int)));
    lemma_len_subset(reach_set(n, es, s, k), set_int_range(0, n as int));
}

/// Once one more step reaches nothing new, no number of further steps does.
pub proof fn lemma_reach_set_stable(n: nat, es: Seq<(usize, usize)>, s: usize, k: nat, j: nat)
    requires
        edges_ok(n, es),
        (s as nat) < n,
        reach_set(n, es, s, k) == reach_set(n, es, s, (k + 1) as nat),
        k <= j,
    ensures
        reach_set(n, es, s, j) == reach_set(n, es, s, k),
    decreases j,
{
    if j > k {
        lemma_reach_set_stable(n, es, s, k, (j - 1) as nat);
        assert forall|t: int| reach_set(n, es, s, j).contains(t) implies reach_set(
            n,
            es,
            s,
            (j - 1) as nat,
        ).contains(t) by {
            if !reach_within(es, s, t as usize, (j - 1) as nat) {
                let m = choose|m: usize|
                    #[trigger] has_edge(es, m, t as usize) && reach_within(
                        es,
                        s,
                        m,
                        (j - 1) as nat,
                    );
                lemma_reach_target_bound(n, es, s, m, (j - 1) as nat);
                assert(reach_set(n, es, s, (j - 1) as nat).contains(m as int));
                assert(reach_set(n, es, s, k).contains(m as int));
                lemma_reach_extend(es, s, m, t as usize, k);
                assert(reach_set(n, es, s, (k + 1) as nat).contains(t));
                assert(reach_set(n, es, s, k).contains(t));
                lemma_reach_mono(es, s, t as usize, k, (j - 1) as nat);
            }
        }
        assert forall|t: int| reach_set(n, es, s, (j - 1) as nat).contains(t) implies reach_set(
            n,
            es,
            s,
            j,
        ).contains(t) by {
            lemma_reach_mono(es, s, t as usize, (j - 1) as nat, j);
        }
        assert(reach_set(n, es, s, j) =~= reach_set(n, es, s, (j - 1) as nat));
    }
}

/// A proper subset of a finite set is strictly smaller.
proof fn lemma_proper_subset_len(s1: Set<int>, s2: Set<int>)
    requires
        s1.subset_of(s2),
        s2.finite(),
        s1 != s2,
    ensures
        s1.len() < s2.len(),
{
    if forall|x: int| s2.contains(x) ==> s1.contains(x) {
        assert(s1 =~= s2);
    }
    let x = choose|x: int| s2.contains(x) && !s1.contains(x);
    assert(s1.subset_of(s2.remove(x)));
    vstd::set::axiom_set_remove_finite(s2, x);
    lemma_len_subset(s1, s2.remove(x));
    vstd::set::axiom_set_remove_len(s2, x);
}

/// While each extra step keeps reaching new vertices, the reach set grows by
/// at least one vertex per step.
proof fn lemma_reach_set_grows(n: nat, es: Seq<(usize, usize)>, s: usize, j: nat)
    requires
        edges_ok(n, es),
        (s as nat) < n,
        forall|i: nat|
            i < j ==> #[trigger] reach_set(n, es, s, i) != reach_set(n, es, s, (i + 1) as nat),
    ensures
        reach_set(n, es, s, j).len() >= j + 1,
    decreases j,
{
    lemma_reach_set_range(n, es, s, j);
    if j == 0 {
        assert(reach_set(n, es, s, 0).contains(s as int));
        assert(Set::empty().insert(s as int).subset_of(reach_set(n, es, s, 0)));
        broadcast use vstd::set::group_set_axioms;

        vstd::set::axiom_set_insert_len(Set::<int>::empty(), s as int);
        lemma_len_subset(Set::empty().insert(s as int), reach_set(n, es, s, 0));
    } else {
        lemma_reach_set_grows(n, es, s, (j - 1) as nat);
        assert(reach_set(n, es, s, (j - 1) as nat) != reach_set(n, es, s, j));
        assert forall|t: int| reach_set(n, es, s, (j - 1) as nat).contains(t) implies reach_set(
            n,
            es,
            s,
            j,
        ).contains(t) by {
            lemma_reach_mono(es, s, t as usize, (j - 1) as nat, j);
        }
        lemma_proper_subset_len(reach_set(n, es, s, (j - 1) as nat), reach_set(n, es, s, j));
    }
}

/// Any path can be shortened to one of at most `n - 1` edges: a graph on `n`
/// vertices has no longer shortest path.
pub proof fn lemma_reach_shorten(n: nat, es: Seq<(usize, usize)>, s: usize, t: usize, k: nat)
    requires
        edges_ok(n, es),
        (s as nat) < n,
        reach_within(es, s, t, k),
    ensures
        reach_within(es, s, t, (n - 1) as nat),
{
    if k <= n - 1 {
        lemma_reach_mono(es, s, t, k, (n - 1) as nat);
    } else {
        if forall|i: nat|
            i < n ==> #[trigger] reach_set(n, es, s, i) != reach_set(n, es, s, (i + 1) as nat) {
            lemma_reach_set_grows(n, es, s, n);
            lemma_reach_set_range(n, es, s, n);
            assert(false);
        }
        let i = choose|i: nat|
            i < n && #[trigger] reach_set(n, es, s, i) == reach_set(n, es, s, (i + 1) as nat);
        lemma_reach_set_stable(n, es, s, i, k);
        lemma_reach_target_bound(n, es, s, t, k);
        assert(reach_set(n, es, s, k).contains(t as int));
        assert(reach_set(n, es, s, i).contains(t as int));
        lemma_reach_mono(es, s, t, i, (n - 1) as nat);
    }
}

/// Any reachable vertex is reachable within `n - 1` steps.
pub proof fn lemma_reachable_bound(n: nat, es: Seq<(usize, usize)>, s: usize, t: usize)
    requires
        edges_ok(n, es),
        (s as nat) < n,
        reachable(es, s, t),
    ensures
        reach_within(es, s, t, (n - 1) as nat),
{
    let k = choose|k: nat| reach_within(es, s, t, k);
    lemma_reach_shorten(n, es, s, t, k);
}

/// Flipping the edge list turns each edge around.
pub proof fn lemma_flip_edge(es: Seq<(usize, usize)>, a: usize, b: usize)
    ensures
        has_edge(flip_edges(es), a, b) <==> has_edge(es, b, a),
{
    if has_edge(flip_edges(es), a, b) {
        let i = choose|i: int| 0 <= i < flip_edges(es).len() && flip_edges(es)[i] == (a, b);
        assert(es[i] == (b, a));
        assert(es.contains((b, a)));
    }
    if has_edge(es, b, a) {
        let i = choose|i: int| 0 <= i < es.len() && es[i] == (b, a);
        assert(flip_edges(es)[i] == (a, b));
        assert(flip_edges(es).contains((a, b)));
    }
}

/// Flipping the edges reverses every path.
pub proof fn lemma_reach_flip(es: Seq<(usize, usize)>, s: usize, t: usize, k: nat)
    ensures
        reach_within(flip_edges(es), s, t, k) ==> reach_within(es, t, s, k),
    decreases k,
{
    if k > 0 && reach_within(flip_edges(es), s, t, k) {
        if reach_within(flip_edges(es), s, t, (k - 1) as nat) {
            lemma_reach_flip(es, s, t, (k - 1) as nat);
            lemma_reach_mono(es, t, s, (k - 1) as nat, k);
        } else {
            let m = choose|m: usize|
                #[trigger] has_edge(flip_edges(es), m, t) && reach_within(
                    flip_edges(es),
                    s,
                    m,
                    (k - 1) as nat,
                );
            lemma_reach_flip(es, s, m, (k - 1) as nat);
            lemma_flip_edge(es, m, t);
            lemma_reach_prepend(es, t, m, s, (k - 1) as nat);
        }
    }
}

/// Flipping keeps every endpoint a vertex of the graph.
pub proof fn lemma_flip_edges_ok(n: nat, es: Seq<(usize, usize)>)
    requires
        edges_ok(n, es),
    ensures
        edges_ok(n, flip_edges(es)),
{
    assert forall|i: int|
        0 <= i < flip_edges(es).len() implies ((#[trigger] flip_edges(es)[i]).0 as nat) < n && (
    flip_edges(es)[i].1 as nat) < n by {
        assert(flip_edges(es)[i] == (es[i].1, es[i].0));
        assert((es[i].0 as nat) < n);
    }
}

/// Flipping twice gives the edge list back.
pub proof fn lemma_flip_flip(es: Seq<(usize, usize)>)
    ensures
        flip_edges(flip_edges(es)) == es,
{
    assert(flip_edges(flip_edges(es)) =~= es);
}

/// Both directions of path reversal at once.
pub proof fn lemma_reach_flip_iff(es: Seq<(usize, usize)>, s: usize, t: usize, k: nat)
    ensures
        reach_within(flip_edges(es), s, t, k) <==> reach_within(es, t, s, k),
{
    lemma_reach_flip(es, s, t, k);
    lemma_flip_flip(es);
    lemma_reach_flip(flip_edges(es), t, s, k);
}

/// A shortest distance in the flipped graph is a shortest distance of the
/// swapped pair in the graph itself.
pub proof fn lemma_dist_is_flip(es: Seq<(usize, usize)>, s: usize, t: usize, d: nat)
    requires
        dist_is(flip_edges(es), s, t, d),
    ensures
        dist_is(es, t, s, d),
{
    lemma_reach_flip_iff(es, s, t, d);
    if d > 0 {
        lemma_reach_flip_iff(es, s, t, (d - 1) as nat);
    }
}

/// An eccentricity bound weakens to any larger bound.
pub proof fn lemma_ecc_le_mono(n: nat, es: Seq<(usize, usize)>, u: usize, b1: nat, b2: nat)
    requires
        ecc_le(n, es, u, b1),
        b1 <= b2,
    ensures
        ecc_le(n, es, u, b2),
{
    assert forall|t: usize| (t as nat) < n && #[trigger] reachable(es, u, t) implies reach_within(
        es,
        u,
        t,
        b2,
    ) by {
        lemma_reach_mono(es, u, t, b1, b2);
    }
}

/// A shortest distance in a graph on `n` vertices is below `n`.
pub proof fn lemma_dist_is_bound(n: nat, es: Seq<(usize, usize)>, u: usize, v: usize, d: nat)
    requires
        edges_ok(n, es),
        (u as nat) < n,
        dist_is(es, u, v, d),
    ensures
        d < n,
{
    if d >= n {
        lemma_reach_shorten(n, es, u, v, d);
        lemma_reach_mono(es, u, v, (n - 1) as nat, (d - 1) as nat);
    }
}

/// A pair has exactly one shortest distance.
pub proof fn lemma_dist_is_unique(es: Seq<(usize, usize)>, s: usize, t: usize, d1: nat, d2: nat)
    requires
        dist_is(es, s, t, d1),
        dist_is(es, s, t, d2),
    ensures
        d1 == d2,
{
    if d1 < d2 {
        lemma_reach_mono(es, s, t, d1, (d2 - 1) as nat);
    }
    if d2 < d1 {
        lemma_reach_mono(es, s, t, d2, (d1 - 1) as nat);
    }
}

/// The one value that `dist_is` admits is `bfs_value`.
pub proof fn lemma_bfs_value_is(n: nat, es: Seq<(usize, usize)>, s: usize, v: usize, d: nat)
    requires
        dist_is(es, s, v, d),
    ensures
        bfs_value(n, es, s, v) == d,
{
    assert(reachable(es, s, v)) by {
        assert(reach_within(es, s, v, d));
    }
    assert(dist_is(es, s, v, d));
    let dc = choose|dc: nat| dist_is(es, s, v, dc);
    lemma_dist_is_unique(es, s, v, dc, d);
}

/// Two values that both satisfy the diameter characterization are equal: in
/// particular, what the library returns does not depend on the random start
/// vertices of the estimator, so two runs on the same input agree.
pub proof fn lemma_diameter_unique(n: nat, es: Seq<(usize, usize)>, d1: nat, d2: nat)
    requires
        diameter_is(n, es, d1),
        diameter_is(n, es, d2),
    ensures
        d1 == d2,
{
    if n > 0 {
        lemma_diameter_attained_le(n, es, d2, d1);
        lemma_diameter_attained_le(n, es, d1, d2);
    }
}

/// Helper for uniqueness: an attained value cannot exceed a bounding value.
proof fn lemma_diameter_attained_le(n: nat, es: Seq<(usize, usize)>, attained: nat, bound: nat)
    requires
        n > 0,
        exists|u: usize, v: usize|
            (u as nat) < n && (v as nat) < n && #[trigger] dist_is(es, u, v, attained),
        forall|u: usize| (u as nat) < n ==> ecc_le(n, es, u, bound),
    ensures
        attained <= bound,
{
    if attained > bound {
        let (u, v) = choose|u: usize, v: usize|
            (u as nat) < n && (v as nat) < n && #[trigger] dist_is(es, u, v, attained);
        assert(reachable(es, u, v)) by {
            assert(reach_within(es, u, v, attained));
        }
        assert(ecc_le(n, es, u, bound));
        assert(reach_within(es, u, v, bound));
        lemma_reach_mono(es, u, v, bound, (attained - 1) as nat);
        assert(false);
    }
}

} // verus!
