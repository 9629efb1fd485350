//! Scenario checks for the census, orbits, catalog, directed substrate, triads,
//! neighborhood statistics, kernels and template matching.

use graphlet::canonical::{all_connected_classes, canonical_by, connected, perms, ClassId};
use graphlet::catalog::{count_diamonds, count_motif, count_pattern, Induced, MotifCatalog, Pattern};
use graphlet::census::{count, enumerate, Selector};
use graphlet::dcanonical::all_weakly_connected_classes;
use graphlet::dcensus::{count_directed, enumerate_directed, DirectedSelector};
use graphlet::dorbit::{directed_graphlet_degree_vectors, DirectedRegistry};
use graphlet::dsnapshot::DirectedSnapshot;
use graphlet::kernels::{
    degree_labeling, graphlet_features, graphlet_kernel, label_histogram, shortest_path_kernel,
    wl_kernel,
};
use graphlet::null_model::{configuration_model, configuration_model_simple, double_edge_swap, swap_with_picks, ring_lattice, ws_rewire, NullModel};
use graphlet::paths::shortest_path_histogram;
use graphlet::wl::{wl_kernel_pair, wl_refine};
use rand::rngs::StdRng;
use rand::SeedableRng;
use graphlet::motif::{count_induced_matches, find_diamonds, find_motif, induced_matches_unlabelled};
use graphlet::neighborhood::{
    census_triangle_count, common_neighbors, node_triangles, non_edge_pairs, preferential_attachment,
    total_triangles,
};
use graphlet::orbit::{graphlet_degree_vectors, orbit_partition, Registry};
use graphlet::snapshot::Snapshot;
use graphlet::template::{
    count_monomorphisms, count_monomorphisms_unlabelled, monomorphisms_unlabelled, TemplateGraph,
};
use graphlet::triad::{classify, triad_census, TriadType};
use graphlet::lfr::{greedy_match, lfr_communities, lfr_wire, pair_stubs, size_step};
use graphlet::scalable::census_from_table;
use graphlet::significance::census_profile_counts;

fn un(edges: &[(usize, usize)], n: usize) -> Snapshot<usize> {
    Snapshot::from_arcs((0..n).collect(), &edges.to_vec())
}

fn di(arcs: &[(usize, usize)], n: usize) -> DirectedSnapshot<usize> {
    DirectedSnapshot::from_arcs((0..n).collect(), &arcs.to_vec())
}

fn complete_edges(n: usize) -> Vec<(usize, usize)> {
    (0..n)
        .flat_map(|i| ((i + 1)..n).map(move |j| (i, j)))
        .collect()
}

fn diamond_with_pendant() -> Snapshot<usize> {
    un(&[(0, 1), (1, 2), (2, 3), (3, 0), (0, 2), (3, 4)], 5)
}

// ---------------------------------------------------------------------------
// Undirected census and orbits
// ---------------------------------------------------------------------------

#[test]
fn at_a_glance_census_gdv_and_diamonds() {
    let g = diamond_with_pendant();
    let census = count(&g, &Selector::connected_k_subsets(3));
    assert_eq!(census.values().iter().sum::<u64>(), 6);
    let reg = Registry::build();
    let gdv = graphlet_degree_vectors(&g, &reg);
    assert_eq!(gdv.orbit_count(), 73);
    assert_eq!(gdv.len(), 5);
    assert_eq!(find_diamonds(&g, Induced::Yes).len(), 1);
}

#[test]
fn five_cycle_has_one_class_and_uniform_rows() {
    let g = un(&[(0, 1), (1, 2), (2, 3), (3, 4), (4, 0)], 5);
    let census = count(&g, &Selector::connected_k_subsets(3));
    assert_eq!(census.len(), 1);
    assert_eq!(census.values(), vec![5]);
    let reg = Registry::build();
    let gdv = graphlet_degree_vectors(&g, &reg);
    let row0 = gdv.row(0).to_vec();
    for v in 1..5 {
        assert_eq!(gdv.row(v), row0.as_slice());
    }
    // orbit 0 is the degree orbit
    assert_eq!(row0[0], 2);
    assert_eq!(gdv.degree_distribution(0), vec![(2, 5)]);
}

#[test]
fn gdv_column_totals_are_census_times_orbit_size() {
    let graphs = vec![
        diamond_with_pendant(),
        un(&[(0, 1), (1, 2), (2, 3), (3, 4), (4, 0)], 5),
        un(&complete_edges(5), 5),
        un(&[(0, 1), (0, 2), (0, 3), (3, 4), (4, 5), (5, 3), (1, 2)], 6),
    ];
    let reg = Registry::build();
    for g in &graphs {
        let gdv = graphlet_degree_vectors(g, &reg);
        for o in 0..reg.orbit_count() {
            let (k, class, size) = reg.orbit_meta(o);
            let census = count(g, &Selector::connected_k_subsets(k));
            let copies = census.get(&ClassId(class)).unwrap_or(0);
            let total: u64 = (0..gdv.len()).map(|x| gdv.row(x)[o]).sum();
            assert_eq!(total, copies * size as u64);
        }
    }
}

#[test]
fn edge_census_counts_edges() {
    let g = diamond_with_pendant();
    let census = count(&g, &Selector::connected_k_subsets(2));
    assert_eq!(census.values(), vec![6]);
    assert!(count(&un(&[], 4), &Selector::connected_k_subsets(2)).is_empty());
}

#[test]
fn self_loops_and_repeats_are_ignored() {
    let g = un(&[(0, 1), (1, 0), (1, 1), (1, 2), (0, 1)], 3);
    assert_eq!(g.neighbors(1), &vec![0, 2]);
    assert!(g.adjacent(0, 1));
    assert!(!g.adjacent(1, 1));
    let census = count(&g, &Selector::connected_k_subsets(3));
    assert_eq!(census.values(), vec![1]);
}

#[test]
fn enumerate_reports_node_ids_and_classes() {
    let g = Snapshot::from_arcs(vec![10u32, 20, 30], &vec![(0, 1), (1, 2), (2, 0)]);
    let mut it = enumerate(g, &Selector::connected_k_subsets(3));
    let first = it.next().expect("one triangle");
    let mut nodes = first.nodes.clone();
    nodes.sort();
    assert_eq!(nodes, vec![10, 20, 30]);
    assert_eq!(first.class, Pattern::triangle().class_id());
    assert!(it.next().is_none());
}

#[test]
fn connectivity_and_canonical_forms() {
    assert!(connected(&vec![vec![1], vec![0, 2], vec![1]]));
    assert!(!connected(&vec![vec![1], vec![0], vec![]]));
    // the two labelled paths 0-1-2 and 1-0-2 share a class
    let a = canonical_by(3, &perms(3), |i, j| (i + j == 1) || (i + j == 3));
    let b = canonical_by(3, &perms(3), |i, j| (i + j == 1) || (i + j == 2 && i != j));
    assert_eq!(a, b);
    let tri = canonical_by(3, &perms(3), |i, j| i != j);
    assert_ne!(a, tri);
    assert_eq!(all_connected_classes(3), {
        let mut v = vec![a, tri];
        v.sort();
        v
    });
    assert_eq!(perms(4).len(), 24);
}

#[test]
fn orbit_partitions_of_small_classes() {
    // the path: two ends share an orbit, the middle is alone
    let path = Pattern::path(3).class_id().0;
    let lab = orbit_partition(path, 3);
    assert_eq!(lab.len(), 3);
    let mut distinct = lab.clone();
    distinct.sort();
    distinct.dedup();
    assert_eq!(distinct.len(), 2);
    let tri = Pattern::triangle().class_id().0;
    let lab = orbit_partition(tri, 3);
    assert!(lab.iter().all(|&l| l == lab[0]));
}

// ---------------------------------------------------------------------------
// Catalog and motifs
// ---------------------------------------------------------------------------

#[test]
fn pattern_constructors_and_catalog() {
    assert_eq!(Pattern::path(4).order(), 4);
    assert_eq!(Pattern::claw().class_id(), Pattern::star(4).class_id());
    assert_eq!(Pattern::triangle().class_id(), Pattern::complete(3).class_id());
    assert_eq!(Pattern::triangle().class_id(), Pattern::cycle(3).class_id());
    assert_ne!(Pattern::paw().class_id(), Pattern::diamond().class_id());

    let cat = MotifCatalog::standard();
    assert_eq!(cat.len(), 12);
    assert!(!cat.is_empty());
    assert_eq!(
        cat.get("diamond").map(|p| p.class_id()),
        Some(Pattern::diamond().class_id())
    );
    assert!(cat.get("nonesuch").is_none());
    let names = cat.names();
    assert_eq!(names.len(), 12);
    assert!(names.contains(&"k5"));

    let mut own = MotifCatalog::new();
    assert!(own.is_empty());
    assert!(own.register("t", Pattern::triangle()).is_none());
    let old = own.register("t", Pattern::path(3));
    assert_eq!(old.map(|p| p.class_id()), Some(Pattern::triangle().class_id()));
    assert_eq!(own.get("t").map(|p| p.class_id()), Some(Pattern::path(3).class_id()));
    assert_eq!(own.len(), 1);
}

#[test]
fn induced_and_non_induced_counts() {
    let k4 = un(&complete_edges(4), 4);
    // K4: four triangles, no induced 3-paths, twelve non-induced 3-paths
    assert_eq!(count_pattern(&k4, &Pattern::triangle(), Induced::Yes), 4);
    assert_eq!(count_pattern(&k4, &Pattern::path(3), Induced::Yes), 0);
    assert_eq!(count_pattern(&k4, &Pattern::path(3), Induced::No), 12);
    assert_eq!(count_motif(&k4, &Pattern::cycle(4), Induced::No), 3);
    assert_eq!(count_motif(&k4, &Pattern::complete(4), Induced::Yes), 1);
    assert_eq!(count_diamonds(&k4, Induced::No), 6);
}

#[test]
fn find_motif_returns_node_sets() {
    let g = Snapshot::from_arcs(vec!['a', 'b', 'c', 'd'], &vec![(0, 1), (1, 2), (2, 0), (2, 3)]);
    let tris = find_motif(&g, &Pattern::triangle(), Induced::Yes);
    assert_eq!(tris.len(), 1);
    let mut t = tris[0].clone();
    t.sort();
    assert_eq!(t, vec!['a', 'b', 'c']);
    let paths = find_motif(&g, &Pattern::path(3), Induced::Yes);
    assert_eq!(paths.len(), 2);
    let paths_ni = find_motif(&g, &Pattern::path(3), Induced::No);
    assert_eq!(paths_ni.len(), 5);
    let d = find_diamonds(&un(&[(0, 1), (1, 2), (2, 3), (3, 0), (0, 2)], 4), Induced::Yes);
    assert_eq!(d.len(), 1);
    let mut spine = d[0].spine;
    spine.sort();
    assert_eq!(spine, [0, 2]);
    let mut tips = d[0].tips;
    tips.sort();
    assert_eq!(tips, [1, 3]);
}

// ---------------------------------------------------------------------------
// Template matching
// ---------------------------------------------------------------------------

#[test]
fn monomorphisms_of_a_path_in_a_triangle() {
    let p3 = TemplateGraph::new(3, false, vec![(0, 1), (1, 2)]);
    let k3 = TemplateGraph::new(3, false, vec![(0, 1), (1, 2), (2, 0)]);
    let maps = monomorphisms_unlabelled(&p3, &k3);
    assert_eq!(maps.len(), 6);
    assert_eq!(count_monomorphisms_unlabelled(&p3, &k3), 6);
    for m in &maps {
        let mut s = m.clone();
        s.sort();
        assert_eq!(s, vec![0, 1, 2]);
    }
    // induced: a path is never an induced subgraph of a triangle
    assert_eq!(count_induced_matches(&p3, &k3), 0);
    assert!(induced_matches_unlabelled(&p3, &k3).is_empty());
    // the triangle maps onto itself six ways, induced or not
    assert_eq!(count_induced_matches(&k3, &k3), 6);
    assert_eq!(count_monomorphisms_unlabelled(&k3, &k3), 6);
}

#[test]
fn monomorphisms_honour_predicates_and_direction() {
    let edge = TemplateGraph::new(2, true, vec![(0, 1)]);
    let host = TemplateGraph::new(3, true, vec![(0, 1), (1, 2)]);
    assert_eq!(count_monomorphisms_unlabelled(&edge, &host), 2);
    // pattern node 0 may only land on host node 1
    let node_ok = vec![vec![false, true, false], vec![true, true, true]];
    let edge_ok = vec![vec![true, true]];
    assert_eq!(count_monomorphisms(&edge, &host, &node_ok, &edge_ok), 1);
    // the only admissible host edge is the second one
    let edge_ok = vec![vec![false, true]];
    let all_nodes = vec![vec![true; 3], vec![true; 3]];
    assert_eq!(count_monomorphisms(&edge, &host, &all_nodes, &edge_ok), 1);
    assert_eq!(host.find_edge(1, 2), Some(1));
    assert_eq!(host.find_edge(2, 1), None);
    assert_eq!(host.edge_count(), 2);
    assert!(host.directed());
}

// ---------------------------------------------------------------------------
// Directed census, orbits and triads
// ---------------------------------------------------------------------------

#[test]
fn directed_class_catalogue_sizes() {
    assert_eq!(all_weakly_connected_classes(2).len(), 2);
    assert_eq!(all_weakly_connected_classes(3).len(), 13);
    let reg = DirectedRegistry::build();
    assert_eq!(reg.class_count(2), 2);
    assert_eq!(reg.class_count(3), 13);
    assert_eq!(reg.class_count(4), 199);
}

#[test]
fn directed_census_separates_orientations() {
    // a -> b -> c versus a -> b <- c
    let chain = di(&[(0, 1), (1, 2)], 3);
    let collider = di(&[(0, 1), (2, 1)], 3);
    let sel = DirectedSelector::weakly_connected_k_subsets(3);
    let c1 = count_directed(&chain, &sel).iter();
    let c2 = count_directed(&collider, &sel).iter();
    assert_eq!(c1.len(), 1);
    assert_eq!(c2.len(), 1);
    assert_ne!(c1[0].0, c2[0].0);
    let mut it = enumerate_directed(&chain, &sel);
    let inst = it.next().expect("one instance");
    assert_eq!(inst.class, c1[0].0);
    assert!(it.next().is_none());
}

#[test]
fn directed_gdv_rows() {
    let g = di(&[(0, 1), (1, 2), (2, 0)], 3);
    let reg = DirectedRegistry::build();
    let t = directed_graphlet_degree_vectors(&g, &reg);
    assert_eq!(t.len(), 3);
    // a directed 3-cycle is vertex-transitive
    assert_eq!(t.row(0), t.row(1));
    assert_eq!(t.row(1), t.row(2));
    assert!(t.row(0).iter().sum::<u64>() > 0);
}

#[test]
fn triad_census_of_small_digraphs() {
    let cyc = di(&[(0, 1), (1, 2), (2, 0)], 3);
    let c = triad_census(&cyc);
    assert_eq!(c.get(TriadType::T030C), 1);
    assert_eq!(c.total(), 1);
    let trans = di(&[(0, 1), (1, 2), (0, 2)], 4);
    let c = triad_census(&trans);
    assert_eq!(c.get(TriadType::T030T), 1);
    // the other three triples hold node 3 and at most one arc
    assert_eq!(c.get(TriadType::T012), 3);
    assert_eq!(c.total(), 4);
    assert_eq!(c.iter().len(), 16);
    assert_eq!(TriadType::all().len(), 16);
    assert_eq!(TriadType::T300.label(), "300");
    assert_eq!(TriadType::T021D.label(), "021D");
    let arcs = [(0usize, 1usize), (1, 0), (0, 2)];
    let has = |a: usize, b: usize| arcs.contains(&(a, b));
    assert_eq!(classify(0, 1, 2, has), TriadType::T111U);
    // relabelling the triple does not change its type
    assert_eq!(classify(2, 0, 1, has), TriadType::T111U);
}

// ---------------------------------------------------------------------------
// Neighborhood statistics
// ---------------------------------------------------------------------------

#[test]
fn neighborhood_counts() {
    let g = diamond_with_pendant();
    assert_eq!(common_neighbors(&g, 0, 2), 2);
    assert_eq!(common_neighbors(&g, 1, 3), 2);
    assert_eq!(common_neighbors(&g, 1, 4), 0);
    assert_eq!(preferential_attachment(&g, 0, 3), 9);
    assert_eq!(node_triangles(&g, 0), 2);
    assert_eq!(node_triangles(&g, 4), 0);
    assert_eq!(total_triangles(&g), 2);
    assert_eq!(census_triangle_count(&g), 2);
    let k5 = un(&complete_edges(5), 5);
    assert_eq!(total_triangles(&k5), 10);
    assert_eq!(census_triangle_count(&k5), 10);
}

#[test]
fn triangle_tallies_are_three_per_census_triangle() {
    let graphs = vec![
        diamond_with_pendant(),
        un(&complete_edges(5), 5),
        un(&[(0, 1), (1, 2), (2, 0), (2, 3), (3, 4), (4, 2), (4, 5)], 6),
        un(&[(0, 1), (1, 2), (2, 3)], 4),
        un(&[], 3),
    ];
    for g in &graphs {
        let tallies: usize = (0..g.len()).map(|u| node_triangles(g, u)).sum();
        let census = census_triangle_count(g);
        assert_eq!(tallies, 3 * census);
        assert_eq!(total_triangles(g), census);
    }
}

// ---------------------------------------------------------------------------
// Kernels
// ---------------------------------------------------------------------------

#[test]
fn graphlet_kernel_values() {
    let triangle = un(&[(0, 1), (1, 2), (2, 0)], 3);
    let path = un(&[(0, 1), (1, 2)], 3);
    let ft = graphlet_features(&triangle, 3);
    let fp = graphlet_features(&path, 3);
    assert_eq!(graphlet_kernel(&ft, &fp), 0);
    assert_eq!(graphlet_kernel(&ft, &ft), 1);
    let k4 = un(&complete_edges(4), 4);
    let fk = graphlet_features(&k4, 3);
    assert_eq!(graphlet_kernel(&fk, &ft), 4);
    assert_eq!(graphlet_kernel(&ft, &fk), graphlet_kernel(&fk, &ft));
    assert_eq!(fk.k, 3);
    assert_eq!(fk.census.get(&Pattern::triangle().class_id()), Some(4));
    assert_eq!(fk.census.get(&ClassId(0)), None);
}

#[test]
fn label_histograms_and_wl_kernel() {
    let h = label_histogram(&vec![3, 1, 3, 3]);
    assert_eq!(h.get(3), Some(3));
    assert_eq!(h.get(1), Some(1));
    assert_eq!(h.get(2), None);
    assert_eq!(h.len(), 2);
    let mut pairs = h.iter();
    pairs.sort();
    assert_eq!(pairs, vec![(1, 1), (3, 3)]);
    let h2 = label_histogram(&vec![3, 7]);
    assert_eq!(shortest_path_kernel(&h, &h2), 3);
    assert_eq!(shortest_path_kernel(&h2, &h), 3);

    let a = vec![vec![1, 1, 2], vec![5, 6, 7]];
    let b = vec![vec![1, 2, 2], vec![7, 7, 8]];
    // equal-label pairs: round 0 has (1,1) twice and (2,2) twice, round 1 has (7,7) twice
    assert_eq!(wl_kernel(&a, &b), 6);
    assert_eq!(wl_kernel(&b, &a), 6);
    assert_eq!(wl_kernel(&vec![], &vec![]), 0);

    let g = diamond_with_pendant();
    assert_eq!(degree_labeling(&g), vec![3, 2, 3, 3, 1]);
}

// ---------------------------------------------------------------------------
// Weisfeiler-Lehman refinement and shortest-path histograms
// ---------------------------------------------------------------------------

#[test]
fn wl_refinement_separates_by_signature() {
    let p3 = un(&[(0, 1), (1, 2)], 3);
    let tri = un(&[(0, 1), (1, 2), (2, 0)], 3);
    let initial = vec![degree_labeling(&p3), degree_labeling(&tri)];
    let graphs = vec![p3, tri];
    let h = wl_refine(&graphs, &initial, 2);
    assert_eq!(h.len(), 2);
    assert_eq!(h[0].len(), 3);
    assert_eq!(h[0][0], vec![1, 2, 1]);
    assert_eq!(h[1][0], vec![2, 2, 2]);
    for t in 1..3 {
        // path ends agree, the middle differs, and the triangle is its own class
        assert_eq!(h[0][t][0], h[0][t][2]);
        assert_ne!(h[0][t][0], h[0][t][1]);
        assert_eq!(h[1][t][0], h[1][t][1]);
        assert_eq!(h[1][t][1], h[1][t][2]);
        assert_ne!(h[1][t][0], h[0][t][1]);
        assert_ne!(h[1][t][0], h[0][t][0]);
    }
    let k = wl_kernel(&h[0], &h[1]);
    assert_eq!(k, 3); // only the degree-2 nodes match, in round 0
}

#[test]
fn wl_kernel_pair_of_equal_paths() {
    let a = un(&[(0, 1), (1, 2)], 3);
    let b = un(&[(0, 1), (1, 2)], 3);
    // each round: the two ends match each other (4 pairs) and the middles (1 pair)
    assert_eq!(wl_kernel_pair(a, b, 2), 15);
}

#[test]
fn shortest_path_histograms() {
    let p4 = un(&[(0, 1), (1, 2), (2, 3)], 4);
    let h = shortest_path_histogram(&p4);
    let mut pairs = h.iter();
    pairs.sort();
    assert_eq!(pairs, vec![(1, 3), (2, 2), (3, 1)]);
    // two components: cross pairs contribute nothing
    let two = un(&[(0, 1), (2, 3)], 4);
    let h2 = shortest_path_histogram(&two);
    assert_eq!(h2.iter(), vec![(1, 2)]);
    assert_eq!(shortest_path_kernel(&h, &h2), 6);
    assert!(shortest_path_histogram(&un(&[], 3)).is_empty());
}

// ---------------------------------------------------------------------------
// Null models
// ---------------------------------------------------------------------------

fn degrees(g: &TemplateGraph) -> Vec<usize> {
    let mut d = vec![0; g.len()];
    for &(a, b) in g.edges() {
        d[a] += 1;
        d[b] += 1;
    }
    d
}

fn is_simple(g: &TemplateGraph) -> bool {
    let mut seen = std::collections::HashSet::new();
    g.edges()
        .iter()
        .all(|&(a, b)| a != b && seen.insert((a.min(b), a.max(b))))
}

#[test]
fn double_edge_swap_preserves_degrees_and_simplicity() {
    let mut rng = StdRng::seed_from_u64(5);
    let edges: Vec<(usize, usize)> = (0..12).map(|i| (i, (i + 1) % 12)).chain((0..6).map(|i| (i, i + 6))).collect();
    let g = TemplateGraph::new(12, false, edges);
    let out = double_edge_swap(&g, 200, &mut rng);
    assert_eq!(out.len(), 12);
    assert_eq!(out.edge_count(), g.edge_count());
    assert_eq!(degrees(&out), degrees(&g));
    assert!(is_simple(&out));
    assert_ne!(out.edges(), g.edges(), "200 attempts on 18 edges should rewire something");
    // fewer than two edges: unchanged
    let one = TemplateGraph::new(3, false, vec![(0, 2)]);
    assert_eq!(double_edge_swap(&one, 50, &mut rng).edges(), &vec![(0, 2)]);
}

#[test]
fn configuration_models_match_degrees() {
    let mut rng = StdRng::seed_from_u64(11);
    let seq = vec![3, 2, 2, 2, 1, 0];
    let raw = configuration_model(&seq, &mut rng);
    assert_eq!(raw.len(), 6);
    assert_eq!(raw.edge_count(), 5);
    assert_eq!(degrees(&raw), seq);
    for _ in 0..10 {
        let simple = configuration_model_simple(&seq, &mut rng);
        assert!(is_simple(&simple));
        for (d, want) in degrees(&simple).iter().zip(&seq) {
            assert!(d <= want);
        }
    }
    let empty = configuration_model(&vec![0, 0], &mut rng);
    assert_eq!(empty.edge_count(), 0);
}

#[test]
fn null_model_variants() {
    let a = NullModel::DegreePreserving { n_swaps_per_edge: 10 };
    assert_ne!(a, NullModel::ConfigurationModel);
    assert_eq!(a, NullModel::DegreePreserving { n_swaps_per_edge: 10 });
}

#[test]
fn swap_with_picks_rewires_exactly_as_drawn() {
    let g = TemplateGraph::new(4, false, vec![(0, 1), (2, 3)]);
    assert_eq!(swap_with_picks(&g, &vec![(0, 1, true)]).edges(), &vec![(0, 2), (1, 3)]);
    assert_eq!(swap_with_picks(&g, &vec![(0, 1, false)]).edges(), &vec![(0, 3), (1, 2)]);
    // a rewiring that would repeat a present pair is refused
    let t = TemplateGraph::new(4, false, vec![(0, 1), (2, 3), (0, 2)]);
    assert_eq!(swap_with_picks(&t, &vec![(0, 1, true)]).edges(), t.edges());
    // a rewiring into a self-loop is refused
    let s = TemplateGraph::new(3, false, vec![(0, 1), (0, 2)]);
    assert_eq!(swap_with_picks(&s, &vec![(0, 1, true)]).edges(), s.edges());
    // with two disjoint edges one attempt always rewires
    let mut rng = StdRng::seed_from_u64(3);
    assert_ne!(double_edge_swap(&g, 1, &mut rng).edges(), g.edges());
}

#[test]
fn registry_numbering_starts_with_the_small_orbits() {
    let reg = Registry::build();
    assert_eq!(reg.orbit_count(), 73);
    assert_eq!(reg.orbit_meta(0), (2, 1, 2));
    assert_eq!(reg.orbit_meta(1), (3, 3, 1));
    assert_eq!(reg.orbit_meta(2), (3, 3, 2));
    assert_eq!(reg.orbit_meta(3), (3, 7, 3));
    assert_eq!(reg.orbit_meta(72).0, 5);
    for id in 1..reg.orbit_count() {
        let (a, b) = (reg.orbit_meta(id - 1), reg.orbit_meta(id));
        assert!((a.0, a.1) <= (b.0, b.1));
    }
    let dreg = DirectedRegistry::build();
    assert_eq!(dreg.orbit_meta(0), (2, 1, 1));
    assert_eq!(dreg.orbit_meta(1), (2, 1, 1));
    assert_eq!(dreg.orbit_meta(2), (2, 3, 2));
}

#[test]
fn degree_distribution_lists_only_present_values() {
    let g = un(&[(0, 1), (1, 2)], 3);
    let reg = Registry::build();
    let gdv = graphlet_degree_vectors(&g, &reg);
    assert_eq!(gdv.degree_distribution(0), vec![(1, 2), (2, 1)]);
    for o in 0..gdv.orbit_count() {
        assert!(gdv.degree_distribution(o).iter().all(|&(_, c)| c > 0));
    }
}

#[test]
fn triad_total_is_sum_of_types() {
    let g = di(&[(0, 1), (1, 2), (2, 0), (3, 0)], 4);
    let tc = triad_census(&g);
    let sum: u64 = TriadType::all().iter().map(|&t| tc.get(t)).sum();
    assert_eq!(tc.total(), sum);
    assert_eq!(tc.total(), 4);
}

#[test]
fn catalog_register_counts_names() {
    let mut c = MotifCatalog::new();
    assert!(c.register("tri", Pattern::triangle()).is_none());
    assert_eq!(c.len(), 1);
    assert!(c.register("tri", Pattern::triangle()).is_some());
    assert_eq!(c.len(), 1);
    c.register("p3", Pattern::path(3));
    assert_eq!(c.names(), vec!["p3", "tri"]);
    assert_eq!(c.names().len(), c.len());
}

#[test]
fn lfr_wiring_plants_communities_of_the_given_sizes() {
    let sizes = vec![3usize, 4, 5];
    let mut rng = StdRng::seed_from_u64(11);
    let comm = lfr_communities(&sizes, &mut rng);
    assert_eq!(comm.len(), 12);
    for c in 0..3 {
        assert_eq!(comm.iter().filter(|&&x| x == c).count(), sizes[c]);
    }
    let degrees = vec![3usize; 12];
    let want = vec![2usize; 12];
    let (g, comm) = lfr_wire(&degrees, &want, &sizes, &mut rng);
    assert_eq!(g.len(), 12);
    for c in 0..3 {
        assert_eq!(comm.iter().filter(|&&x| x == c).count(), sizes[c]);
    }
    let edges = g.edges();
    let split = edges.iter().position(|&(a, b)| comm[a] != comm[b]).unwrap_or(edges.len());
    assert!(edges[..split].iter().all(|&(a, b)| comm[a] == comm[b]));
    assert!(edges[split..].iter().all(|&(a, b)| comm[a] != comm[b]));
    assert!(split > 0);
    let mut deg = vec![0usize; 12];
    for &(a, b) in edges {
        deg[a] += 1;
        deg[b] += 1;
    }
    assert!(deg.iter().all(|&d| d <= 4));
    let mut internal = vec![0usize; 12];
    for &(a, b) in &edges[..split] {
        internal[a] += 1;
        internal[b] += 1;
    }
    assert_eq!(internal, vec![2usize; 12]);
}

#[test]
fn lfr_drops_external_stubs_that_only_meet_their_own_community() {
    let mut rng = StdRng::seed_from_u64(5);
    let (g, comm) = lfr_wire(&vec![1, 1], &vec![0, 0], &vec![2], &mut rng);
    assert_eq!(g.len(), 2);
    assert!(g.edges().is_empty());
    assert_eq!(comm, vec![0, 0]);
}

#[test]
fn lfr_parity_fix_raises_the_least_target_of_an_odd_community() {
    // one community of three; targets 1, 1, 1 sum to 3, so one of them becomes 2
    let mut rng = StdRng::seed_from_u64(9);
    let (g, _comm) = lfr_wire(&vec![2, 2, 2], &vec![1, 1, 1], &vec![3], &mut rng);
    let mut deg = vec![0usize; 3];
    for &(a, b) in g.edges() {
        deg[a] += 1;
        deg[b] += 1;
    }
    let mut sorted = deg.clone();
    sorted.sort();
    assert_eq!(sorted, vec![1, 1, 2]);
    assert_eq!(g.edges().len(), 2);
}

#[test]
fn stubs_pair_off_in_order_and_drop_an_odd_last_one() {
    assert_eq!(pair_stubs(&vec![4, 1, 3, 3, 0]), vec![(4, 1), (3, 3)]);
    assert!(pair_stubs(&vec![]).is_empty());
}

#[test]
fn external_stubs_match_the_first_free_stub_of_another_community() {
    assert_eq!(greedy_match(&vec![0, 1, 2, 3], &vec![0, 0, 1, 1]), vec![(0, 2), (1, 3)]);
    assert_eq!(greedy_match(&vec![2, 3, 0, 1], &vec![0, 0, 1, 1]), vec![(2, 0), (3, 1)]);
    assert!(greedy_match(&vec![0, 1], &vec![0, 0]).is_empty());
}

#[test]
fn ring_lattice_joins_each_node_to_its_next_neighbours() {
    assert_eq!(ring_lattice(5, 2), vec![(0, 1), (0, 2), (1, 2), (1, 3), (2, 3), (2, 4), (3, 4), (3, 0), (4, 0), (4, 1)]);
    assert!(ring_lattice(4, 0).is_empty());
}

#[test]
fn non_edge_pairs_lists_the_missing_pairs_in_order() {
    // a path 0-1-2-3
    let g = Snapshot::from_arcs(vec![0u32, 1, 2, 3], &vec![(0, 1), (1, 2), (2, 3)]);
    assert_eq!(non_edge_pairs(&g), vec![(0, 2), (0, 3), (1, 3)]);
    let k3 = Snapshot::from_arcs(vec![0u32, 1, 2], &vec![(0, 1), (1, 2), (2, 0)]);
    assert!(non_edge_pairs(&k3).is_empty());
}

#[test]
fn ws_rewire_without_coins_is_the_ring_lattice() {
    let mut rng = StdRng::seed_from_u64(3);
    let g = ws_rewire(7, 2, &vec![false; 14], &mut rng);
    assert_eq!(g.len(), 7);
    assert_eq!(g.edges().to_vec(), ring_lattice(7, 2));
}

#[test]
fn ws_rewire_keeps_sources_and_stays_simple() {
    let mut rng = StdRng::seed_from_u64(8);
    let n = 10;
    let g = ws_rewire(n, 2, &vec![true; 20], &mut rng);
    let edges = g.edges();
    assert_eq!(edges.len(), 20);
    let lattice = ring_lattice(n, 2);
    let mut keys = std::collections::HashSet::new();
    for (e, &(a, b)) in edges.iter().enumerate() {
        assert_eq!(a, lattice[e].0);
        assert!(a != b && b < n);
        assert!(keys.insert((a.min(b), a.max(b))));
    }
}

#[test]
fn census_profile_lists_every_connected_class_with_its_counts() {
    let sel = Selector::connected_k_subsets(3);
    let observed = count(&un(&[(0, 1), (1, 2), (2, 0)], 3), &sel);
    let nulls = vec![count(&un(&[(0, 1), (1, 2)], 3), &sel), count(&un(&[], 3), &sel)];
    let (classes, obs, rows) = census_profile_counts(3, &observed, &nulls);
    assert_eq!(classes, all_connected_classes(3));
    let tri = Pattern::triangle().class_id().0;
    let path = Pattern::path(3).class_id().0;
    for (j, &c) in classes.iter().enumerate() {
        if c == tri {
            assert_eq!(obs[j], 1);
            assert_eq!(rows[j], vec![0, 0]);
        } else {
            assert_eq!(c, path);
            assert_eq!(obs[j], 0);
            assert_eq!(rows[j], vec![1, 0]);
        }
    }
}

#[test]
fn census_profile_above_order_five_takes_the_classes_seen() {
    let sel = Selector::connected_k_subsets(6);
    let path6 = un(&[(0, 1), (1, 2), (2, 3), (3, 4), (4, 5)], 6);
    let star6 = un(&[(0, 1), (0, 2), (0, 3), (0, 4), (0, 5)], 6);
    let observed = count(&path6, &sel);
    let nulls = vec![count(&star6, &sel)];
    let (classes, obs, rows) = census_profile_counts(6, &observed, &nulls);
    assert_eq!(classes.len(), 2);
    assert!(classes[0] < classes[1]);
    let p = observed.keys()[0].0;
    let s = nulls[0].keys()[0].0;
    for (j, &c) in classes.iter().enumerate() {
        assert_eq!(obs[j], if c == p { 1 } else { 0 });
        assert_eq!(rows[j], vec![if c == s { 1 } else { 0 }]);
    }
}

#[test]
fn census_read_off_the_exact_table_matches_the_count() {
    let g = diamond_with_pendant();
    let reg = Registry::build();
    let table = graphlet_degree_vectors(&g, &reg);
    for k in 2..=5 {
        let sel = Selector::connected_k_subsets(k);
        let exact = count(&g, &sel);
        let read = census_from_table(&table, &reg, k);
        assert_eq!(read.len(), exact.len());
        for (c, n) in exact.iter() {
            assert_eq!(read.get(&c), Some(n));
        }
    }
}

#[test]
fn induced_matches_are_exactly_the_induced_embeddings() {
    let path = TemplateGraph::new(3, false, vec![(0, 1), (1, 2)]);
    let cycle = TemplateGraph::new(4, false, vec![(0, 1), (1, 2), (2, 3), (3, 0)]);
    let ms = induced_matches_unlabelled(&path, &cycle);
    assert_eq!(ms.len(), 8);
    let adj = |a: usize, b: usize| (a + 1) % 4 == b || (b + 1) % 4 == a;
    let mut seen = std::collections::HashSet::new();
    for m in &ms {
        assert_eq!(m.len(), 3);
        assert!(m[0] != m[1] && m[1] != m[2] && m[0] != m[2]);
        assert!(adj(m[0], m[1]) && adj(m[1], m[2]) && !adj(m[0], m[2]));
        assert!(seen.insert(m.clone()));
    }
    let k4 = TemplateGraph::new(4, false, vec![(0, 1), (0, 2), (0, 3), (1, 2), (1, 3), (2, 3)]);
    assert_eq!(count_induced_matches(&path, &k4), 0);
}

#[test]
fn registry_orbit_sizes_sum_to_the_order_of_their_class() {
    let reg = Registry::build();
    let mut sums: std::collections::BTreeMap<(usize, u64), usize> = std::collections::BTreeMap::new();
    for id in 0..reg.orbit_count() {
        let (k, c, size) = reg.orbit_meta(id);
        *sums.entry((k, c)).or_insert(0) += size;
    }
    for (&(k, _), &total) in &sums {
        assert_eq!(total, k);
    }
    let per_order: Vec<usize> = (2..=5).map(|k| sums.keys().filter(|(kk, _)| *kk == k).count()).collect();
    assert_eq!(per_order, vec![1, 2, 6, 21]);
}

#[test]
fn degree_distribution_counts_every_row_once() {
    let g = diamond_with_pendant();
    let reg = Registry::build();
    let t = graphlet_degree_vectors(&g, &reg);
    for o in 0..t.orbit_count() {
        let d = t.degree_distribution(o);
        assert_eq!(d.iter().map(|&(_, m)| m).sum::<u64>(), t.len() as u64);
    }
}

#[test]
fn a_short_remainder_joins_the_last_community() {
    let mut sizes = vec![4usize, 3];
    assert_eq!(size_step(&mut sizes, 7, 9, 3, 5), None);
    assert_eq!(sizes, vec![4, 5]);
    let mut none: Vec<usize> = Vec::new();
    assert_eq!(size_step(&mut none, 0, 2, 3, 5), None);
    assert_eq!(none, vec![2]);
    let mut more = vec![4usize];
    assert_eq!(size_step(&mut more, 4, 20, 3, 5), Some(5));
    assert_eq!(size_step(&mut more, 4, 8, 3, 5), Some(4));
    assert_eq!(more, vec![4]);
}
