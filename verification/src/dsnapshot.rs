//! A directed adjacency snapshot in `0..n` index space: out-arcs for direction-aware
//! labelling, plus the underlying undirected neighborhoods for connectivity.
use vstd::prelude::*;
use crate::adjacency::{Adjacency, sorted_strict};
use crate::canonical::list_adj;
use crate::esu::simple_graph;

verus! {

/// Out-arc lists and undirected neighbor lists over `0..n`, and the node id of each
/// index. Self-loops are dropped and parallel arcs merged.
pub struct DirectedSnapshot<N> {
    ids: Vec<N>,
    arc: Adjacency,
    und: Adjacency,
}

impl<N> DirectedSnapshot<N> {
    #[verifier::type_invariant]
    spec fn inv(self) -> bool {
        &&& self.ids@.len() == self.arc.lists@.len()
        &&& self.ids@.len() == self.und.lists@.len()
        &&& self.arc.wf()
        &&& self.und.wf()
        &&& simple_graph(self.und.graph())
        &&& forall|a: usize, b: usize| #[trigger] list_adj(self.und.graph())(a, b)
            == (list_adj(self.arc.graph())(a, b) || list_adj(self.arc.graph())(b, a))
        &&& forall|a: usize| !(#[trigger] list_adj(self.arc.graph())(a, a))
    }

    /// The out-arc lists.
    pub closed spec fn arcs(&self) -> Seq<Seq<usize>> {
        self.arc.graph()
    }

    /// The undirected neighbor lists.
    pub closed spec fn graph(&self) -> Seq<Seq<usize>> {
        self.und.graph()
    }

    /// `ids()[i]` is the node id of index `i`.
    pub closed spec fn ids(&self) -> Seq<N> {
        self.ids@
    }

    /// Build the snapshot of the directed graph on `ids.len()` nodes with arcs `arcs`.
    pub fn from_arcs(ids: Vec<N>, arcs: &Vec<(usize, usize)>) -> (r: Self)
        requires
            forall|e: int| 0 <= e < arcs@.len() ==> (#[trigger] arcs@[e]).0 < ids@.len() && arcs@[e].1 < ids@.len(),
        ensures
            r.ids() == ids@,
            r.graph().len() == ids@.len(),
            r.arcs().len() == ids@.len(),
            simple_graph(r.graph()),
            forall|a: usize, b: usize| a < ids@.len() ==> (#[trigger] r.arcs()[a as int].contains(b) <==> (a != b && arcs@.contains((a, b)))),
            forall|a: usize, b: usize| #[trigger] list_adj(r.graph())(a, b) == (list_adj(r.arcs())(a, b) || list_adj(r.arcs())(b, a)),
    {
        let n = ids.len();
        let arc = Adjacency::from_arcs(n, arcs, false);
        let und = Adjacency::from_arcs(n, arcs, true);
        let ghost ga = arc.graph();
        let ghost gu = und.graph();
        proof {
            arc.lemma_graph();
            und.lemma_graph();
            assert forall|a: usize, b: usize| #[trigger] list_adj(gu)(a, b) == (list_adj(ga)(a, b) || list_adj(ga)(b, a)) by {
                if a < n && b < n {
                    assert(gu[a as int].contains(b) == (a != b && (arcs@.contains((a, b)) || arcs@.contains((b, a)))));
                    assert(ga[a as int].contains(b) == (a != b && arcs@.contains((a, b))));
                    assert(ga[b as int].contains(a) == (b != a && arcs@.contains((b, a))));
                } else if a < n {
                    if gu[a as int].contains(b) {
                        let t = choose|t: int| 0 <= t < gu[a as int].len() && gu[a as int][t] == b;
                    }
                    if ga[a as int].contains(b) {
                        let t = choose|t: int| 0 <= t < ga[a as int].len() && ga[a as int][t] == b;
                    }
                } else if b < n {
                    if ga[b as int].contains(a) {
                        let t = choose|t: int| 0 <= t < ga[b as int].len() && ga[b as int][t] == a;
                    }
                }
            }
            assert forall|a: int| 0 <= a < gu.len() implies !(#[trigger] gu[a]).contains(a as usize) by {
                assert(gu[a] == und.lists@[a]@);
            }
            assert forall|a: usize, b: usize| #[trigger] list_adj(gu)(a, b) == list_adj(gu)(b, a) by {
                assert(list_adj(gu)(a, b) == (list_adj(ga)(a, b) || list_adj(ga)(b, a)));
                assert(list_adj(gu)(b, a) == (list_adj(ga)(b, a) || list_adj(ga)(a, b)));
            }
            assert forall|a: usize| !(#[trigger] list_adj(ga)(a, a)) by {}
        }
        DirectedSnapshot { ids, arc, und }
    }

    /// Number of nodes.
    pub fn len(&self) -> (r: usize)
        ensures
            r == self.ids().len(),
            r == self.graph().len(),
            r == self.arcs().len(),
    {
        proof { use_type_invariant(self); }
        self.ids.len()
    }

    /// Whether the graph has no nodes.
    pub fn is_empty(&self) -> (r: bool)
        ensures
            r == (self.ids().len() == 0),
    {
        self.ids.len() == 0
    }

    /// Out-neighbor indices of `i`, ascending.
    pub fn out_neighbors(&self, i: usize) -> (r: &Vec<usize>)
        requires
            i < self.ids().len(),
        ensures
            r@ == self.arcs()[i as int],
            sorted_strict(r@),
    {
        proof {
            use_type_invariant(self);
            self.arc.lemma_graph();
        }
        self.arc.neighbors(i)
    }

    /// Whether the arc `a -> b` is present.
    pub fn has_arc(&self, a: usize, b: usize) -> (r: bool)
        requires
            a < self.ids().len(),
        ensures
            r == list_adj(self.arcs())(a, b),
    {
        proof { use_type_invariant(self); }
        self.arc.adjacent(a, b)
    }

    /// Undirected neighbor indices of `i` (in- and out-neighbors), ascending.
    pub fn undirected_neighbors(&self, i: usize) -> (r: &Vec<usize>)
        requires
            i < self.ids().len(),
        ensures
            r@ == self.graph()[i as int],
            sorted_strict(r@),
    {
        proof {
            use_type_invariant(self);
            self.und.lemma_graph();
        }
        self.und.neighbors(i)
    }

    /// Whether `a` and `b` are joined by an arc in either direction.
    pub fn undirected_adjacent(&self, a: usize, b: usize) -> (r: bool)
        requires
            a < self.ids().len(),
        ensures
            r == list_adj(self.graph())(a, b),
    {
        proof { use_type_invariant(self); }
        self.und.adjacent(a, b)
    }

    /// The underlying undirected adjacency, with the facts the traversals need.
    pub fn undirected(&self) -> (r: &Adjacency)
        ensures
            r.wf(),
            simple_graph(r.graph()),
            r.graph() == self.graph(),
            r.lists@.len() == self.ids().len(),
            self.arcs().len() == self.ids().len(),
            forall|a: usize, b: usize| #[trigger] list_adj(self.graph())(a, b) == (list_adj(self.arcs())(a, b) || list_adj(self.arcs())(b, a)),
            forall|a: usize| !(#[trigger] list_adj(self.arcs())(a, a)),
    {
        proof { use_type_invariant(self); }
        &self.und
    }
}

impl<N: Copy> DirectedSnapshot<N> {
    /// Node id of index `i`.
    pub fn id(&self, i: usize) -> (r: N)
        requires
            i < self.ids().len(),
        ensures
            r == self.ids()[i as int],
    {
        self.ids[i]
    }
}

} // verus!
