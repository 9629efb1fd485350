//! An owned adjacency snapshot in `0..n` index space, plus the map back to the
//! caller's node ids. Every analysis in this crate runs on one of these: the graph
//! is simple and undirected (no self-loops, no parallel edges, arcs unioned).
use vstd::prelude::*;
use crate::adjacency::{Adjacency, sorted_strict};
use crate::canonical::list_adj;
use crate::esu::simple_graph;

verus! {

/// Undirected neighbor lists over `0..n` and the node id of each index.
pub struct Snapshot<N> {
    ids: Vec<N>,
    adj: Adjacency,
}

impl<N> Snapshot<N> {
    #[verifier::type_invariant]
    spec fn inv(self) -> bool {
        &&& self.ids@.len() == self.adj.lists@.len()
        &&& self.adj.wf()
        &&& simple_graph(self.adj.graph())
    }

    /// The neighbor lists, sorted and duplicate-free.
    pub closed spec fn graph(&self) -> Seq<Seq<usize>> {
        self.adj.graph()
    }

    /// `ids()[i]` is the node id of index `i`.
    pub closed spec fn ids(&self) -> Seq<N> {
        self.ids@
    }

    /// Build the snapshot of the graph on `ids.len()` nodes whose edges are `arcs`,
    /// read as undirected: self-loops are dropped and repeated edges merged.
    pub fn from_arcs(ids: Vec<N>, arcs: &Vec<(usize, usize)>) -> (r: Self)
        requires
            forall|e: int| 0 <= e < arcs@.len() ==> (#[trigger] arcs@[e]).0 < ids@.len() && arcs@[e].1 < ids@.len(),
        ensures
            r.ids() == ids@,
            r.graph().len() == ids@.len(),
            simple_graph(r.graph()),
            forall|a: int| 0 <= a < r.graph().len() ==> sorted_strict(#[trigger] r.graph()[a]),
            forall|a: usize, b: usize| a < ids@.len() ==> (#[trigger] r.graph()[a as int].contains(b) <==> (a != b
                && (arcs@.contains((a, b)) || arcs@.contains((b, a))))),
    {
        let n = ids.len();
        let adj = Adjacency::from_arcs(n, arcs, true);
        let ghost g = adj.graph();
        proof {
            adj.lemma_graph();
            assert forall|a: int| 0 <= a < g.len() implies !(#[trigger] g[a]).contains(a as usize) by {
                assert(g[a] == adj.lists@[a]@);
            }
            assert forall|a: usize, b: usize| #[trigger] list_adj(g)(a, b) == list_adj(g)(b, a) by {
                if a < n && b < n {
                    assert(g[a as int].contains(b) == g[b as int].contains(a));
                } else if a < n {
                    if g[a as int].contains(b) {
                        let t = choose|t: int| 0 <= t < g[a as int].len() && g[a as int][t] == b;
                    }
                } else if b < n {
                    if g[b as int].contains(a) {
                        let t = choose|t: int| 0 <= t < g[b as int].len() && g[b as int][t] == a;
                    }
                }
            }
        }
        Snapshot { ids, adj }
    }

    /// Number of nodes.
    pub fn len(&self) -> (r: usize)
        ensures
            r == self.ids().len(),
            r == self.graph().len(),
    {
        proof { use_type_invariant(self); }
        self.ids.len()
    }

    /// Whether the graph has no nodes.
    pub fn is_empty(&self) -> (r: bool)
        ensures
            r == (self.ids().len() == 0),
    {
        self.ids.len() == 0
    }

    /// Undirected neighbor indices of `i`, ascending.
    pub fn neighbors(&self, i: usize) -> (r: &Vec<usize>)
        requires
            i < self.ids().len(),
        ensures
            r@ == self.graph()[i as int],
            sorted_strict(r@),
    {
        proof {
            use_type_invariant(self);
            self.adj.lemma_graph();
        }
        self.adj.neighbors(i)
    }

    /// Whether indices `a` and `b` are adjacent.
    pub fn adjacent(&self, a: usize, b: usize) -> (r: bool)
        requires
            a < self.ids().len(),
        ensures
            r == list_adj(self.graph())(a, b),
    {
        proof { use_type_invariant(self); }
        self.adj.adjacent(a, b)
    }

    /// The underlying adjacency, with the facts the traversals need.
    pub fn adjacency(&self) -> (r: &Adjacency)
        ensures
            r.wf(),
            simple_graph(r.graph()),
            r.graph() == self.graph(),
            r.lists@.len() == self.ids().len(),
            self.graph().len() == self.ids().len(),
    {
        proof { use_type_invariant(self); }
        &self.adj
    }
}

impl<N: Copy> Snapshot<N> {
    /// Node id of index `i`.
    pub fn id(&self, i: usize) -> (r: N)
        requires
            i < self.ids().len(),
        ensures
            r == self.ids()[i as int],
    {
        self.ids[i]
    }
}

} // verus!
