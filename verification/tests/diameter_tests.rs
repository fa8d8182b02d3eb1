use directed_diameter::graph_diameter;

#[test]
fn empty_graph() {
    assert_eq!(graph_diameter(0, &[]), 0);
}

#[test]
fn single_vertex_no_edges() {
    assert_eq!(graph_diameter(1, &[]), 0);
}

#[test]
fn single_vertex_self_loop() {
    assert_eq!(graph_diameter(1, &[(0, 0)]), 0);
}

#[test]
fn two_disjoint_three_cycles() {
    let edges = vec![(0, 1), (1, 2), (2, 0), (3, 4), (4, 5), (5, 3)];
    assert_eq!(graph_diameter(6, &edges), 2);
}

#[test]
fn forward_path() {
    for k in 1..9usize {
        let edges: Vec<(usize, usize)> = (0..k - 1).map(|i| (i, i + 1)).collect();
        assert_eq!(graph_diameter(k, &edges), k - 1);
    }
}

#[test]
fn directed_cycle() {
    for k in 1..9usize {
        let edges: Vec<(usize, usize)> = (0..k).map(|i| (i, (i + 1) % k)).collect();
        assert_eq!(graph_diameter(k, &edges), k - 1);
    }
}

#[test]
fn four_cycle() {
    let edges = vec![(0, 1), (1, 2), (2, 3), (3, 0)];
    assert_eq!(graph_diameter(4, &edges), 3);
}

#[test]
fn dead_end_branch() {
    let edges = vec![(0, 1), (1, 2), (2, 1), (2, 3)];
    assert_eq!(graph_diameter(4, &edges), 3);
}

#[test]
fn duplicate_edges_and_self_loops() {
    let edges = vec![(0, 0), (0, 1), (0, 1), (1, 2)];
    assert_eq!(graph_diameter(3, &edges), 2);
}

#[test]
fn isolated_vertices_beside_a_path() {
    let edges = vec![(2, 3), (3, 4)];
    assert_eq!(graph_diameter(6, &edges), 2);
}

#[test]
fn no_edges_many_vertices() {
    assert_eq!(graph_diameter(7, &[]), 0);
}

#[test]
fn same_input_twice_same_answer() {
    let edges = vec![(0, 1), (1, 2), (2, 0), (0, 3), (3, 4), (4, 0), (2, 5)];
    let first = graph_diameter(6, &edges);
    let second = graph_diameter(6, &edges);
    assert_eq!(first, second);
    // The longest shortest path runs 3 -> 4 -> 0 -> 1 -> 2 -> 5.
    assert_eq!(first, 5);
}

/// Shortest distances from `s` by a plain reference breadth-first search.
fn reference_bfs(n: usize, edges: &[(usize, usize)], s: usize) -> Vec<Option<usize>> {
    let mut dist: Vec<Option<usize>> = vec![None; n];
    dist[s] = Some(0);
    let mut frontier = vec![s];
    while let Some(v) = frontier.pop() {
        let dv = dist[v].unwrap();
        for &(a, b) in edges {
            if a == v {
                let better = match dist[b] {
                    None => true,
                    Some(db) => db > dv + 1,
                };
                if better {
                    dist[b] = Some(dv + 1);
                    frontier.push(b);
                }
            }
        }
    }
    dist
}

/// Diameter by brute force: the greatest finite pairwise distance.
fn reference_diameter(n: usize, edges: &[(usize, usize)]) -> usize {
    let mut best = 0;
    for s in 0..n {
        for d in reference_bfs(n, edges, s) {
            if let Some(d) = d {
                if d > best {
                    best = d;
                }
            }
        }
    }
    best
}

#[test]
fn matches_brute_force_on_small_graphs() {
    // A deterministic linear congruential generator stands in for a random
    // source, so the test is reproducible.
    let mut state: u64 = 0x2545_f491_4f6c_dd1d;
    let mut next = move || {
        state = state.wrapping_mul(6364136223846793005).wrapping_add(1442695040888963407);
        (state >> 33) as usize
    };
    for trial in 0..60 {
        let n = 1 + next() % 12;
        let m = next() % (2 * n + 1);
        let edges: Vec<(usize, usize)> = (0..m).map(|_| (next() % n, next() % n)).collect();
        let expected = reference_diameter(n, &edges);
        let got = graph_diameter(n, &edges);
        assert_eq!(got, expected, "trial {trial}: n={n}, edges={edges:?}");
    }
}

#[test]
fn dense_complete_graph() {
    let n = 5;
    let mut edges = Vec::new();
    for a in 0..n {
        for b in 0..n {
            if a != b {
                edges.push((a, b));
            }
        }
    }
    assert_eq!(graph_diameter(n, &edges), 1);
}

#[test]
fn two_chains_into_one_sink() {
    // 0 -> 1 -> 2 -> 6 and 3 -> 4 -> 5 -> 6: longest shortest path has 3 edges.
    let edges = vec![(0, 1), (1, 2), (2, 6), (3, 4), (4, 5), (5, 6)];
    assert_eq!(graph_diameter(7, &edges), 3);
}
