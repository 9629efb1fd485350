# graphlet

Graphlet and network-motif analysis of small connected subgraphs, written in
Verus: the census of connected induced subgraphs up to five nodes by canonical
class, graphlet-degree vectors over the 73 undirected orbits (and the directed
orbits up to four nodes), named motifs and template matching, triad census,
neighbourhood statistics, graph kernels, degree-preserving null models and the
integer wiring of the LFR benchmark.

## Layout

- `src/` — the verified library. Each public function states its result in
  `ensures` over spec models (`Seq`, `Set`, `Map`, canonical classes); laws that
  relate several functions are public proof functions, among them
  `orbit_totals::law_orbit_totals` (GDV column sums equal census count times
  orbit size), `triangles::law_triangle_tallies`,
  `monomorphisms::law_monomorphisms_by_census`, `model::law_canon_iff_isomorphic`,
  `triad::law_triad_total`, `census::law_enumeration_stream` (the enumeration
  lists every connected `k`-set once and its class tally is the census),
  `scalable::law_census_read_off` (reading the census off the exact GDV table
  gives the exact census) and `orbit::law_distribution_total`.
- The scalable path (`src/scalable.rs`) is verified free of overflow and panics,
  and its census read-off (`census_from_table`) has an exact contract; that its
  table equals the exact one is tested, not proved.
- `tests/` — scenario tests on concrete graphs.
- `app/` — petgraph adapters, floating-point statistics (clustering,
  assortativity, link prediction, kernel cosines, significance profiles) and the
  floating-point draws of the random-graph generators (power-law degrees and
  community sizes, the Watts–Strogatz rewiring coins); what those draws feed is
  verified in `src/` (`lfr::lfr_wire`, `null_model::ws_rewire`,
  `significance::census_profile_counts`, `neighborhood::non_edge_pairs`).

Outside crates: `petgraph` (its VF2 matcher, behind trusted wrappers in
`src/motif.rs`, and the graph types in `app/`) and `rand` (the draws behind
trusted wrappers in `src/null_model.rs`).
