//! Graphlet analysis: connected subgraph census, graphlet-degree vectors and
//! network-motif detection over small undirected and directed graphs.

pub mod model;
pub mod dmodel;
pub mod dcanonical;
pub mod dcensus;
pub mod canonical;
pub mod esu;
pub mod adjacency;
pub mod snapshot;
pub mod census;
pub mod relabel;
pub mod catalog;
pub mod monomorphisms;
pub mod orbit;
pub mod orbit_totals;
pub mod dsnapshot;
pub mod triad;
pub mod neighborhood;
pub mod triangles;
pub mod kernels;
pub mod template;
pub mod dorbit;
pub mod motif;
pub mod wl;
pub mod paths;
pub mod null_model;
pub mod lfr;
pub mod scalable;
pub mod significance;
