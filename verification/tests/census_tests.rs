//! Census, graphlet-degree-vector and catalog checks against exhaustive ground truth
//! and independent brute-force oracles.

use std::collections::{HashMap, HashSet};

use graphlet::canonical::{
    all_connected_classes, canonical_arg_by, canonical_by, class_to_adj, connected, perms, ClassId,
};
use graphlet::catalog::{count_diamonds, count_pattern, Induced, Pattern};
use graphlet::census::{count, enumerate, Selector};
use graphlet::motif::find_diamonds;
use graphlet::orbit::{graphlet_degree_vectors, Registry};
use graphlet::snapshot::Snapshot;
use rand::rngs::StdRng;
use rand::seq::SliceRandom;
use rand::{Rng, SeedableRng};

fn build_un(edges: &[(usize, usize)], n: usize) -> Snapshot<usize> {
    Snapshot::from_arcs((0..n).collect(), &edges.to_vec())
}

fn random_edges(n: usize, p: f64, seed: u64) -> Vec<(usize, usize)> {
    let mut rng = StdRng::seed_from_u64(seed);
    let mut e = Vec::new();
    for i in 0..n {
        for j in (i + 1)..n {
            if rng.gen::<f64>() < p {
                e.push((i, j));
            }
        }
    }
    e
}

fn path_edges(n: usize) -> Vec<(usize, usize)> {
    (0..n - 1).map(|i| (i, i + 1)).collect()
}
fn cycle_edges(n: usize) -> Vec<(usize, usize)> {
    let mut e = path_edges(n);
    e.push((n - 1, 0));
    e
}
fn star_edges(n: usize) -> Vec<(usize, usize)> {
    (1..n).map(|i| (0, i)).collect()
}
fn complete_edges(n: usize) -> Vec<(usize, usize)> {
    (0..n)
        .flat_map(|i| ((i + 1)..n).map(move |j| (i, j)))
        .collect()
}

fn sorted(v: Vec<(ClassId, u64)>) -> Vec<(ClassId, u64)> {
    let mut v = v;
    v.sort();
    v
}

fn census_via_iter(edges: &[(usize, usize)], n: usize, k: usize) -> Vec<(ClassId, u64)> {
    let mut c: HashMap<ClassId, u64> = HashMap::new();
    let mut it = enumerate(build_un(edges, n), &Selector::connected_k_subsets(k));
    while let Some(inst) = it.next() {
        *c.entry(inst.class).or_insert(0) += 1;
    }
    c.into_iter().collect()
}

#[test]
fn class_counts_match_ground_truth() {
    assert_eq!(all_connected_classes(3).len(), 2);
    assert_eq!(all_connected_classes(4).len(), 6);
    assert_eq!(all_connected_classes(5).len(), 21);

    for &(n, seed) in &[(20usize, 1u64), (24, 2), (28, 3)] {
        let g = build_un(&random_edges(n, 0.5, seed), n);
        for &k in &[3usize, 4, 5] {
            let gt: HashSet<u64> = all_connected_classes(k).into_iter().collect();
            let found: HashSet<u64> = count(&g, &Selector::connected_k_subsets(k))
                .keys()
                .iter()
                .map(|c| c.0)
                .collect();
            assert_eq!(
                found, gt,
                "dense G(n={n}) k={k} must exhibit exactly the class set"
            );
        }
    }
}

// Relabel logical node `order[t]` as index `t`.
fn relabel(edges: &[(usize, usize)], order: &[usize]) -> Vec<(usize, usize)> {
    let mut pos = vec![0; order.len()];
    for (t, &logical) in order.iter().enumerate() {
        pos[logical] = t;
    }
    edges.iter().map(|&(a, b)| (pos[a], pos[b])).collect()
}

#[test]
fn census_stable_under_relabelling() {
    let n = 16;
    let edges = random_edges(n, 0.5, 42);
    for &k in &[3usize, 4, 5] {
        let reference = sorted(count(&build_un(&edges, n), &Selector::connected_k_subsets(k)).iter());
        let mut rng = StdRng::seed_from_u64(7 + k as u64);
        for _ in 0..20 {
            let mut order: Vec<usize> = (0..n).collect();
            order.shuffle(&mut rng);
            let g = build_un(&relabel(&edges, &order), n);
            assert_eq!(sorted(count(&g, &Selector::connected_k_subsets(k)).iter()), reference);
        }
    }
}

#[test]
fn census_generic_over_flavours_and_iter_matches_count() {
    let e = random_edges(16, 0.5, 42);
    for &k in &[3usize, 4, 5] {
        let ug = build_un(&e, 16);
        // the same graph with every edge listed twice and in both directions
        let mut doubled = e.clone();
        doubled.extend(e.iter().map(|&(a, b)| (b, a)));
        let dg = build_un(&doubled, 16);
        let reference = sorted(count(&ug, &Selector::connected_k_subsets(k)).iter());
        assert_eq!(sorted(census_via_iter(&e, 16, k)), reference);
        assert_eq!(sorted(census_via_iter(&doubled, 16, k)), reference);
        assert_eq!(sorted(count(&dg, &Selector::connected_k_subsets(k)).iter()), reference);
    }
}

#[test]
fn count_streams_and_does_not_materialize() {
    let n = 110;
    let edges = random_edges(n, 0.14, 4);
    let g = build_un(&edges, n);
    let sel = Selector::connected_k_subsets(4);

    let census = count(&g, &sel);
    let instances: u64 = census.values().iter().sum();

    let mut collected = Vec::new();
    let mut it = enumerate(build_un(&edges, n), &sel);
    while let Some(inst) = it.next() {
        collected.push(inst);
    }

    assert_eq!(
        instances as usize,
        collected.len(),
        "count and collect must see the same number of instances"
    );
    assert!(
        instances > 50_000,
        "test graph should have many instances (got {instances})"
    );
}

fn combos(pool: &[usize], r: usize) -> Vec<Vec<usize>> {
    fn rec(pool: &[usize], r: usize, start: usize, cur: &mut Vec<usize>, out: &mut Vec<Vec<usize>>) {
        if cur.len() == r {
            out.push(cur.clone());
            return;
        }
        for i in start..pool.len() {
            cur.push(pool[i]);
            rec(pool, r, i + 1, cur, out);
            cur.pop();
        }
    }
    let mut out = Vec::new();
    rec(pool, r, 0, &mut Vec::new(), &mut out);
    out
}

fn subset_connected(sub: &[usize], snap: &Snapshot<usize>) -> bool {
    let m = sub.len();
    let mut local = vec![Vec::new(); m];
    for (i, &a) in sub.iter().enumerate() {
        for (j, &b) in sub.iter().enumerate() {
            if i != j && snap.adjacent(a, b) {
                local[i].push(j);
            }
        }
    }
    connected(&local)
}

// Per-node GDV by combinations (not ESU): every connected k-subset containing v
// credits v's orbit.
fn gdv_oracle(snap: &Snapshot<usize>, reg: &Registry) -> Vec<Vec<u64>> {
    let n = snap.len();
    let mut gdv = vec![vec![0u64; reg.orbit_count()]; n];
    for v in 0..n {
        let others: Vec<usize> = (0..n).filter(|&x| x != v).collect();
        for k in 2..=5 {
            let ps = perms(k);
            for rest in combos(&others, k - 1) {
                let mut sub = vec![v];
                sub.extend_from_slice(&rest);
                if !subset_connected(&sub, snap) {
                    continue;
                }
                let (class, arg) = canonical_arg_by(k, &ps, |i, j| snap.adjacent(sub[i], sub[j]));
                let slotmap = reg.slot_map(k, class);
                for (c, &slot) in slotmap.iter().enumerate() {
                    if sub[arg[c]] == v {
                        gdv[v][slot] += 1;
                        break;
                    }
                }
            }
        }
    }
    gdv
}

#[test]
fn gdv_matches_bruteforce_oracle() {
    let reg = Registry::build();
    assert_eq!(reg.orbit_count(), 73);

    let mut cases: Vec<(Vec<(usize, usize)>, usize)> = vec![
        (path_edges(6), 6),
        (path_edges(8), 8),
        (cycle_edges(5), 5),
        (cycle_edges(7), 7),
        (star_edges(6), 6),
        (complete_edges(4), 4),
        (complete_edges(5), 5),
        (complete_edges(6), 6),
    ];
    for seed in 0..8u64 {
        let n = 9 + (seed as usize % 4);
        cases.push((random_edges(n, 0.3, seed), n));
    }

    for (edges, n) in &cases {
        let snap = build_un(edges, *n);
        let table = graphlet_degree_vectors(&snap, &reg);
        let oracle = gdv_oracle(&snap, &reg);
        for (v, orow) in oracle.iter().enumerate() {
            assert_eq!(table.row(v), orow.as_slice(), "node {v} GDV mismatch");
        }
    }
}

#[test]
fn gdv_sums_tie_to_class_census() {
    let reg = Registry::build();
    let g = build_un(&random_edges(14, 0.35, 99), 14);
    let table = graphlet_degree_vectors(&g, &reg);

    // class counts by brute force: every k-subset, kept when connected, classed
    // through its canonical mask
    let mut class_count: HashMap<(usize, u64), u64> = HashMap::new();
    let n = g.len();
    for k in 2..=5 {
        let ps = perms(k);
        for bits in 0u32..(1u32 << n) {
            if bits.count_ones() as usize != k {
                continue;
            }
            let sub: Vec<usize> = (0..n).filter(|&v| bits & (1 << v) != 0).collect();
            let mut seen = vec![false; k];
            let mut stack = vec![0usize];
            seen[0] = true;
            while let Some(i) = stack.pop() {
                for j in 0..k {
                    if !seen[j] && g.adjacent(sub[i], sub[j]) {
                        seen[j] = true;
                        stack.push(j);
                    }
                }
            }
            if seen.iter().all(|&s| s) {
                let class = canonical_by(k, &ps, |i, j| g.adjacent(sub[i], sub[j]));
                *class_count.entry((k, class)).or_insert(0) += 1;
            }
        }
    }
    for o in 0..reg.orbit_count() {
        let (k, class, size) = reg.orbit_meta(o);
        let sum_v: u64 = (0..table.len()).map(|v| table.row(v)[o]).sum();
        let expect = class_count.get(&(k, class)).copied().unwrap_or(0) * size as u64;
        assert_eq!(
            sum_v, expect,
            "orbit {o} sum must equal class_count * orbit_size"
        );
    }
}

// Brute-force labelled monomorphism count of the pattern with adjacency `padj`.
fn mono_labelled(padj: &[Vec<usize>], snap: &Snapshot<usize>) -> u64 {
    fn rec(
        i: usize,
        padj: &[Vec<usize>],
        assign: &mut Vec<usize>,
        used: &mut Vec<bool>,
        snap: &Snapshot<usize>,
    ) -> u64 {
        if i == padj.len() {
            return 1;
        }
        let mut total = 0;
        for h in 0..snap.len() {
            if used[h] {
                continue;
            }
            let ok = padj[i]
                .iter()
                .filter(|&&nb| nb < i)
                .all(|&nb| snap.adjacent(h, assign[nb]));
            if !ok {
                continue;
            }
            assign[i] = h;
            used[h] = true;
            total += rec(i + 1, padj, assign, used, snap);
            used[h] = false;
        }
        total
    }
    rec(
        0,
        padj,
        &mut vec![usize::MAX; padj.len()],
        &mut vec![false; snap.len()],
        snap,
    )
}

#[test]
fn non_induced_counts_match_monomorphism_oracle() {
    let mut hosts: Vec<(Vec<(usize, usize)>, usize)> = Vec::new();
    for n in [4usize, 5, 6, 7] {
        hosts.push((path_edges(n), n));
        hosts.push((cycle_edges(n), n));
        hosts.push((star_edges(n), n));
        hosts.push((complete_edges(n), n));
    }
    for seed in 0..12u64 {
        let n = 6 + (seed as usize % 4);
        hosts.push((random_edges(n, 0.35, seed), n));
    }

    for k in 3..=4usize {
        let ps = perms(k);
        for mask in all_connected_classes(k) {
            let padj = class_to_adj(mask, k);
            let edges: Vec<(usize, usize)> = (0..k)
                .flat_map(|i| ((i + 1)..k).map(move |j| (i, j)))
                .filter(|&(i, j)| padj[i].contains(&j))
                .collect();
            let pat = Pattern::new(k, &edges);
            let aut = ps
                .iter()
                .filter(|perm| {
                    (0..k).all(|i| {
                        padj[i]
                            .iter()
                            .filter(|&&j| j > i)
                            .all(|&j| padj[perm[i]].contains(&perm[j]))
                    })
                })
                .count() as u64;
            for (edges, n) in &hosts {
                if *n < k {
                    continue;
                }
                let snap = build_un(edges, *n);
                let predicted = count_pattern(&snap, &pat, Induced::No);
                let oracle = mono_labelled(&padj, &snap) / aut;
                assert_eq!(
                    predicted, oracle,
                    "non-induced P(mask={mask}) k={k} on host n={n}"
                );
            }
        }
    }
}

#[test]
fn diamond_catalog() {
    let diamond_class = Pattern::diamond().class_id().0;
    let k4_class = canonical_by(4, &perms(4), |i, j| i != j);

    for (name, edges, n) in [
        ("diamond", vec![(0, 1), (1, 2), (2, 3), (3, 0), (0, 2)], 4),
        ("K4", complete_edges(4), 4),
        ("K5", complete_edges(5), 5),
        ("C5", cycle_edges(5), 5),
        ("random", random_edges(10, 0.5, 3), 10),
    ] {
        let g = build_un(&edges, n);
        let census = count(&g, &Selector::connected_k_subsets(4));
        let ind = census.get(&ClassId(diamond_class)).unwrap_or(0);
        let k4 = census.get(&ClassId(k4_class)).unwrap_or(0);

        assert_eq!(count_diamonds(&g, Induced::Yes), ind, "{name} induced count");
        assert_eq!(
            find_diamonds(&g, Induced::Yes).len() as u64,
            ind,
            "{name} induced instances"
        );
        assert_eq!(
            count_diamonds(&g, Induced::No),
            ind + 6 * k4,
            "{name} non-induced count"
        );
        assert_eq!(
            find_diamonds(&g, Induced::No).len() as u64,
            ind + 6 * k4,
            "{name} non-induced instances"
        );
    }

    let k4 = build_un(&complete_edges(4), 4);
    assert_eq!(count_diamonds(&k4, Induced::Yes), 0);
    assert_eq!(count_diamonds(&k4, Induced::No), 6);
    let dia = build_un(&[(0, 1), (1, 2), (2, 3), (3, 0), (0, 2)], 4);
    assert_eq!(count_diamonds(&dia, Induced::Yes), 1);
    assert_eq!(count_diamonds(&dia, Induced::No), 1);
}
