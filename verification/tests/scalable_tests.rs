//! The fast orbit counter against the exact census path.

use graphlet::census::{count, Selector};
use graphlet::orbit::{graphlet_degree_vectors, Registry};
use graphlet::scalable::{fast_count, fast_graphlet_degree_vectors};
use graphlet::snapshot::Snapshot;
use rand::rngs::StdRng;
use rand::{Rng, SeedableRng};

fn un(edges: &[(usize, usize)], n: usize) -> Snapshot<usize> {
    Snapshot::from_arcs((0..n).collect(), &edges.to_vec())
}

fn random_edges(n: usize, p: f64, seed: u64) -> Vec<(usize, usize)> {
    let mut rng = StdRng::seed_from_u64(seed);
    let mut e = Vec::new();
    for i in 0..n {
        for j in (i + 1)..n {
            if rng.gen::<f64>() < p {
                e.push((i, j));
            }
        }
    }
    e
}

fn battery() -> Vec<(Vec<(usize, usize)>, usize)> {
    let mut cases = Vec::new();
    for n in [3usize, 5, 7] {
        cases.push(((0..n - 1).map(|i| (i, i + 1)).collect(), n));
        cases.push(((0..n).map(|i| (i, (i + 1) % n)).collect(), n));
        cases.push(((1..n).map(|i| (0, i)).collect(), n));
        cases.push(((0..n).flat_map(|i| ((i + 1)..n).map(move |j| (i, j))).collect(), n));
    }
    // wheel, complete bipartite, Petersen
    cases.push(((1..7).map(|i| (0, i)).chain((1..7).map(|i| (i, i % 6 + 1))).collect(), 7));
    cases.push(((0..3).flat_map(|i| (3..7).map(move |j| (i, j))).collect(), 7));
    let outer: Vec<(usize, usize)> = (0..5).map(|i| (i, (i + 1) % 5)).collect();
    let inner: Vec<(usize, usize)> = (0..5).map(|i| (5 + i, 5 + (i + 2) % 5)).collect();
    let spokes: Vec<(usize, usize)> = (0..5).map(|i| (i, i + 5)).collect();
    cases.push((outer.into_iter().chain(inner).chain(spokes).collect(), 10));
    for seed in 0..6u64 {
        let n = 8 + seed as usize;
        cases.push((random_edges(n, 0.4, seed), n));
    }
    cases
}

#[test]
fn fast_gdv_matches_exact() {
    let reg = Registry::build();
    for (edges, n) in battery() {
        let g = un(&edges, n);
        let exact = graphlet_degree_vectors(&g, &reg);
        let fast = fast_graphlet_degree_vectors(&g, &reg);
        assert_eq!(fast.orbit_count(), exact.orbit_count());
        assert_eq!(fast.len(), exact.len());
        for v in 0..n {
            assert_eq!(fast.row(v), exact.row(v), "node {v} of {edges:?}");
        }
    }
}

#[test]
fn fast_count_matches_count() {
    let reg = Registry::build();
    for (edges, n) in battery() {
        let g = un(&edges, n);
        for k in 2..=5 {
            let mut fast = fast_count(&g, &reg, &Selector::connected_k_subsets(k)).iter();
            let mut exact = count(&g, &Selector::connected_k_subsets(k)).iter();
            fast.sort();
            exact.sort();
            assert_eq!(fast, exact, "k={k} on {edges:?}");
        }
    }
}
