//! Template matching by monomorphism: every injective, edge-preserving map of a
//! query graph into a host graph, found by ordered backtracking.
//!
//! A monomorphism maps distinct pattern nodes to distinct host nodes and every
//! pattern edge onto a host edge in the matching direction (for a directed pair of
//! graphs); extra host edges among the image are allowed. Results are raw
//! embeddings: pattern automorphisms are not merged.
use vstd::prelude::*;
use crate::model::{is_perm, below, lemma_perm_onto};

verus! {

// ---------------------------------------------------------------------------
// Graphs as edge lists
// ---------------------------------------------------------------------------

/// A graph on nodes `0..n` as its list of edges `(source, target)`, edge `e` being
/// the `e`-th added; undirected edges are stored in the orientation they were
/// added with. Self-loops and parallel edges are allowed.
pub struct TemplateGraph {
    n: usize,
    directed: bool,
    edges: Vec<(usize, usize)>,
}

impl TemplateGraph {
    #[verifier::type_invariant]
    spec fn inv(self) -> bool {
        forall|e: int| 0 <= e < self.edges@.len() ==> (#[trigger] self.edges@[e]).0 < self.n && self.edges@[e].1 < self.n
    }

    /// The number of nodes.
    pub closed spec fn node_count(&self) -> nat {
        self.n as nat
    }

    /// Whether edges have a direction.
    pub closed spec fn is_directed(&self) -> bool {
        self.directed
    }

    /// The edges, in the order they were added.
    pub closed spec fn edge_list(&self) -> Seq<(usize, usize)> {
        self.edges@
    }

    /// The graph on `n` nodes with the given edges.
    pub fn new(n: usize, directed: bool, edges: Vec<(usize, usize)>) -> (r: Self)
        requires
            forall|e: int| 0 <= e < edges@.len() ==> (#[trigger] edges@[e]).0 < n && edges@[e].1 < n,
        ensures
            r.node_count() == n,
            r.is_directed() == directed,
            r.edge_list() == edges@,
    {
        TemplateGraph { n, directed, edges }
    }

    /// Number of nodes.
    pub fn len(&self) -> (r: usize)
        ensures
            r == self.node_count(),
    {
        self.n
    }

    /// Number of edges.
    pub fn edge_count(&self) -> (r: usize)
        ensures
            r == self.edge_list().len(),
    {
        self.edges.len()
    }

    /// The edges, in the order they were added.
    pub fn edges(&self) -> (r: &Vec<(usize, usize)>)
        ensures
            r@ == self.edge_list(),
            forall|e: int| 0 <= e < r@.len() ==> (#[trigger] r@[e]).0 < self.node_count() && r@[e].1 < self.node_count(),
    {
        proof { use_type_invariant(self); }
        &self.edges
    }

    /// Whether the graph is directed.
    pub fn directed(&self) -> (r: bool)
        ensures
            r == self.is_directed(),
    {
        self.directed
    }

    /// The endpoints of edge `e`.
    pub fn edge(&self, e: usize) -> (r: (usize, usize))
        requires
            e < self.edge_list().len(),
        ensures
            r == self.edge_list()[e as int],
            r.0 < self.node_count(),
            r.1 < self.node_count(),
    {
        proof { use_type_invariant(self); }
        self.edges[e]
    }

    /// Every edge joins two nodes of the graph.
    fn endpoints_in_range(&self)
        ensures
            self.edge_list().len() <= usize::MAX,
            forall|e: int| 0 <= e < self.edge_list().len() ==> (#[trigger] self.edge_list()[e]).0 < self.node_count()
                && self.edge_list()[e].1 < self.node_count(),
    {
        proof { use_type_invariant(self); }
        assert(self.edges@.len() == self.edges.len());
    }

    /// The edge found from `a` to `b`: in a directed graph the latest-added edge
    /// `a -> b`; in an undirected one the latest stored as `a -> b`, else the latest
    /// stored as `b -> a`.
    pub fn find_edge(&self, a: usize, b: usize) -> (r: Option<usize>)
        ensures
            r == found_edge(self.edge_list(), self.is_directed(), a, b),
    {
        let r = last_arc_exec(&self.edges, a, b);
        if self.directed {
            r
        } else {
            match r {
                Some(e) => Some(e),
                None => last_arc_exec(&self.edges, b, a),
            }
        }
    }
}

/// The index of the latest edge stored as `a -> b`, if any.
pub open spec fn last_arc(es: Seq<(usize, usize)>, a: usize, b: usize) -> Option<usize>
    decreases es.len(),
{
    if es.len() == 0 {
        None
    } else if es.last() == (a, b) {
        Some((es.len() - 1) as usize)
    } else {
        last_arc(es.drop_last(), a, b)
    }
}

/// The edge a lookup from `a` to `b` finds (see [`TemplateGraph::find_edge`]).
pub open spec fn found_edge(es: Seq<(usize, usize)>, directed: bool, a: usize, b: usize) -> Option<usize> {
    if directed {
        last_arc(es, a, b)
    } else {
        match last_arc(es, a, b) {
            Some(e) => Some(e),
            None => last_arc(es, b, a),
        }
    }
}

proof fn lemma_last_arc_bound(es: Seq<(usize, usize)>, a: usize, b: usize)
    requires
        es.len() <= usize::MAX,
    ensures
        last_arc(es, a, b) matches Some(e) ==> e < es.len() && es[e as int] == (a, b),
    decreases es.len(),
{
    if es.len() > 0 && es.last() != (a, b) {
        lemma_last_arc_bound(es.drop_last(), a, b);
    }
}

fn last_arc_exec(es: &Vec<(usize, usize)>, a: usize, b: usize) -> (r: Option<usize>)
    ensures
        r == last_arc(es@, a, b),
{
    let mut t: usize = es.len();
    assert(es@.take(t as int) =~= es@);
    while t > 0
        invariant
            t <= es@.len(),
            last_arc(es@, a, b) == last_arc(es@.take(t as int), a, b),
        decreases t,
    {
        let (s, d) = es[t - 1];
        assert(es@.take(t as int).drop_last() =~= es@.take(t - 1));
        if s == a && d == b {
            return Some(t - 1);
        }
        t -= 1;
    }
    None
}

/// The number of edges leaving `v` for another node.
pub open spec fn out_count(es: Seq<(usize, usize)>, v: usize) -> nat
    decreases es.len(),
{
    if es.len() == 0 {
        0
    } else {
        out_count(es.drop_last(), v) + (if es.last().0 == v && es.last().1 != v { 1nat } else { 0nat })
    }
}

/// The number of edges entering `v` from another node.
pub open spec fn in_count(es: Seq<(usize, usize)>, v: usize) -> nat
    decreases es.len(),
{
    if es.len() == 0 {
        0
    } else {
        in_count(es.drop_last(), v) + (if es.last().1 == v && es.last().0 != v { 1nat } else { 0nat })
    }
}

/// The out-degree of `v`, self-loops excluded and parallel edges counted; for an
/// undirected graph, the number of non-loop edges at `v`.
pub open spec fn out_degree(es: Seq<(usize, usize)>, directed: bool, v: usize) -> nat {
    if directed { out_count(es, v) } else { out_count(es, v) + in_count(es, v) }
}

/// The in-degree of `v`, self-loops excluded and parallel edges counted; for an
/// undirected graph, the number of non-loop edges at `v`.
pub open spec fn in_degree(es: Seq<(usize, usize)>, directed: bool, v: usize) -> nat {
    if directed { in_count(es, v) } else { out_count(es, v) + in_count(es, v) }
}

proof fn lemma_counts_le(es: Seq<(usize, usize)>, v: usize)
    ensures
        out_count(es, v) + in_count(es, v) <= es.len(),
    decreases es.len(),
{
    if es.len() > 0 {
        lemma_counts_le(es.drop_last(), v);
    }
}

/// Per-node out- and in-degree (self-loops excluded), used for pruning.
fn host_degrees(g: &TemplateGraph) -> (r: (Vec<usize>, Vec<usize>))
    ensures
        r.0@.len() == g.node_count(),
        r.1@.len() == g.node_count(),
        forall|v: int| 0 <= v < g.node_count() ==> #[trigger] r.0@[v] == out_degree(g.edge_list(), g.is_directed(), v as usize),
        forall|v: int| 0 <= v < g.node_count() ==> #[trigger] r.1@[v] == in_degree(g.edge_list(), g.is_directed(), v as usize),
{
    g.endpoints_in_range();
    let n = g.len();
    let ne = g.edge_count();
    let ghost es = g.edge_list();
    let mut oc: Vec<usize> = Vec::new();
    let mut ic: Vec<usize> = Vec::new();
    let mut i: usize = 0;
    while i < n
        invariant
            i <= n,
            oc@.len() == i,
            ic@.len() == i,
            forall|v: int| 0 <= v < i ==> #[trigger] oc@[v] == 0,
            forall|v: int| 0 <= v < i ==> #[trigger] ic@[v] == 0,
        decreases n - i,
    {
        oc.push(0);
        ic.push(0);
        i += 1;
    }
    let mut e: usize = 0;
    assert(es.take(0) =~= Seq::<(usize, usize)>::empty());
    while e < ne
        invariant
            e <= ne,
            ne == es.len(),
            n == g.node_count(),
            es == g.edge_list(),
            forall|f: int| 0 <= f < es.len() ==> (#[trigger] es[f]).0 < n && es[f].1 < n,
            oc@.len() == n,
            ic@.len() == n,
            forall|v: int| 0 <= v < n ==> #[trigger] oc@[v] == out_count(es.take(e as int), v as usize),
            forall|v: int| 0 <= v < n ==> #[trigger] ic@[v] == in_count(es.take(e as int), v as usize),
        decreases ne - e,
    {
        let (s, t) = g.edge(e);
        proof {
            assert(es.take(e + 1).drop_last() =~= es.take(e as int));
            lemma_counts_le(es.take(e as int), s);
            lemma_counts_le(es.take(e as int), t);
        }
        if s != t {
            let a = oc[s];
            oc.set(s, a + 1);
            let b = ic[t];
            ic.set(t, b + 1);
        }
        e += 1;
    }
    proof { assert(es.take(ne as int) =~= es); }
    if g.directed() {
        (oc, ic)
    } else {
        let mut d: Vec<usize> = Vec::new();
        let mut v: usize = 0;
        while v < n
            invariant
                v <= n,
                n == g.node_count(),
                es.len() == ne,
                oc@.len() == n,
                ic@.len() == n,
                forall|w: int| 0 <= w < n ==> #[trigger] oc@[w] == out_count(es, w as usize),
                forall|w: int| 0 <= w < n ==> #[trigger] ic@[w] == in_count(es, w as usize),
                d@.len() == v,
                forall|w: int| 0 <= w < v ==> #[trigger] d@[w] == out_count(es, w as usize) + in_count(es, w as usize),
            decreases n - v,
        {
            proof { lemma_counts_le(es, v); }
            d.push(oc[v] + ic[v]);
            v += 1;
        }
        let d2 = d.clone();
        assert(d2@ =~= d@);
        (d, d2)
    }
}

// ---------------------------------------------------------------------------
// The search plan
// ---------------------------------------------------------------------------

/// The position in `order` of the later endpoint of pattern edge `e`.
pub open spec fn later(order: Seq<usize>, es: Seq<(usize, usize)>, e: int) -> int {
    let a = order.index_of(es[e].0);
    let b = order.index_of(es[e].1);
    if a < b { b } else { a }
}

/// A backtracking plan: the pattern-node processing order, the pattern edges to check
/// at each position (those whose later endpoint is placed there), and the pattern
/// degrees for pruning.
struct Plan {
    order: Vec<usize>,
    cons: Vec<Vec<usize>>,
    pat_out: Vec<usize>,
    pat_in: Vec<usize>,
}

spec fn plan_ok(p: Plan, pattern: TemplateGraph) -> bool {
    let pk = pattern.node_count();
    let es = pattern.edge_list();
    &&& is_perm(p.order@, pk)
    &&& p.cons@.len() == pk
    &&& forall|pos: int, t: int| 0 <= pos < pk && 0 <= t < p.cons@[pos]@.len() ==> (#[trigger] p.cons@[pos]@[t]) < es.len()
    &&& forall|pos: int, e: int| 0 <= pos < pk && 0 <= e < es.len() ==>
        (#[trigger] p.cons@[pos]@.contains(e as usize) <==> later(p.order@, es, e) == pos)
    &&& p.pat_out@.len() == pk
    &&& p.pat_in@.len() == pk
    &&& forall|v: int| 0 <= v < pk ==> #[trigger] p.pat_out@[v] == out_degree(es, pattern.is_directed(), v as usize)
    &&& forall|v: int| 0 <= v < pk ==> #[trigger] p.pat_in@[v] == in_degree(es, pattern.is_directed(), v as usize)
}

/// A duplicate-free list of fewer than `k` values below `k` misses one of them.
proof fn lemma_missing(s: Seq<usize>, k: nat) -> (v: usize)
    requires
        s.no_duplicates(),
        forall|i: int| 0 <= i < s.len() ==> (#[trigger] s[i]) < k,
        s.len() < k,
        k <= usize::MAX,
    ensures
        v < k,
        !s.contains(v),
{
    crate::model::lemma_id_seq(k);
    s.unique_seq_to_set();
    if forall|v: usize| v < k ==> s.contains(v) {
        assert(below(k).subset_of(s.to_set())) by {
            assert forall|v: usize| below(k).contains(v) implies s.to_set().contains(v) by {
                assert(s.contains(v));
            }
        }
        vstd::set_lib::lemma_len_subset(below(k), s.to_set());
        assert(false);
    }
    choose|v: usize| v < k && !s.contains(v)
}

/// In a duplicate-free list, the position of the entry at `q` is `q`.
proof fn lemma_index_of_nodup(s: Seq<usize>, q: int)
    requires
        s.no_duplicates(),
        0 <= q < s.len(),
    ensures
        s.index_of(s[q]) == q,
{
    assert(0 <= q < s.len() && s[q] == s[q]);
    let i = s.index_of(s[q]);
    assert(s[i] == s[q]);
}

/// Build the plan: order the nodes connected-first (each newly placed node has the
/// most edges to the already-placed ones, ties broken by degree), then attach each
/// pattern edge to the position of its later endpoint.
fn plan(pattern: &TemplateGraph) -> (r: Plan)
    ensures
        plan_ok(r, *pattern),
{
    pattern.endpoints_in_range();
    let pk = pattern.len();
    let ne = pattern.edge_count();
    let ghost es = pattern.edge_list();
    let mut pnbr: Vec<Vec<usize>> = Vec::new();
    let mut i: usize = 0;
    while i < pk
        invariant
            i <= pk,
            pnbr@.len() == i,
            forall|v: int, t: int| 0 <= v < i && 0 <= t < pnbr@[v]@.len() ==> (#[trigger] pnbr@[v]@[t]) < pk,
        decreases pk - i,
    {
        pnbr.push(Vec::new());
        i += 1;
    }
    let mut e: usize = 0;
    while e < ne
        invariant
            e <= ne,
            ne == es.len(),
            pk == pattern.node_count(),
            es == pattern.edge_list(),
            forall|f: int| 0 <= f < es.len() ==> (#[trigger] es[f]).0 < pk && es[f].1 < pk,
            pnbr@.len() == pk,
            forall|v: int, t: int| 0 <= v < pk && 0 <= t < pnbr@[v]@.len() ==> (#[trigger] pnbr@[v]@[t]) < pk,
        decreases ne - e,
    {
        let (s, t) = pattern.edge(e);
        if s != t {
            let ghost p0 = pnbr@;
            let mut a = pnbr[s].clone();
            a.push(t);
            pnbr.set(s, a);
            let mut b = pnbr[t].clone();
            b.push(s);
            pnbr.set(t, b);
            proof {
                assert forall|v: int, u: int| 0 <= v < pk && 0 <= u < pnbr@[v]@.len() implies (#[trigger] pnbr@[v]@[u]) < pk by {
                    if v != s && v != t {
                        assert(pnbr@[v] == p0[v]);
                    }
                }
            }
        }
        e += 1;
    }
    let (pat_out, pat_in) = host_degrees(pattern);
    let mut order: Vec<usize> = Vec::new();
    let mut placed: Vec<bool> = Vec::new();
    let mut i: usize = 0;
    while i < pk
        invariant
            i <= pk,
            placed@.len() == i,
            forall|v: int| 0 <= v < i ==> !(#[trigger] placed@[v]),
        decreases pk - i,
    {
        placed.push(false);
        i += 1;
    }
    while order.len() < pk
        invariant
            pk == pattern.node_count(),
            pk <= usize::MAX,
            order@.len() <= pk,
            order@.no_duplicates(),
            forall|q: int| 0 <= q < order@.len() ==> (#[trigger] order@[q]) < pk,
            placed@.len() == pk,
            forall|v: usize| v < pk ==> (#[trigger] placed@[v as int] <==> order@.contains(v)),
            pnbr@.len() == pk,
            forall|v: int, t: int| 0 <= v < pk && 0 <= t < pnbr@[v]@.len() ==> (#[trigger] pnbr@[v]@[t]) < pk,
        decreases pk - order@.len(),
    {
        let ghost missing = lemma_missing(order@, pk as nat);
        let mut best: usize = 0;
        let mut has_best = false;
        let mut best_conn: usize = 0;
        let mut best_deg: usize = 0;
        let mut v: usize = 0;
        while v < pk
            invariant
                v <= pk,
                placed@.len() == pk,
                pnbr@.len() == pk,
                forall|w: int, t: int| 0 <= w < pk && 0 <= t < pnbr@[w]@.len() ==> (#[trigger] pnbr@[w]@[t]) < pk,
                has_best ==> best < pk && !placed@[best as int],
                !has_best ==> forall|w: int| 0 <= w < v ==> #[trigger] placed@[w],
            decreases pk - v,
        {
            if !placed[v] {
                let row = &pnbr[v];
                let mut conn: usize = 0;
                let mut t: usize = 0;
                while t < row.len()
                    invariant
                        t <= row@.len(),
                        conn <= t,
                        row@ == pnbr@[v as int]@,
                        v < pk,
                        placed@.len() == pk,
                        forall|u: int| 0 <= u < row@.len() ==> (#[trigger] row@[u]) < pk,
                    decreases row@.len() - t,
                {
                    if placed[row[t]] {
                        conn += 1;
                    }
                    t += 1;
                }
                let deg = row.len();
                if !has_best || conn > best_conn || (conn == best_conn && deg > best_deg) {
                    best = v;
                    best_conn = conn;
                    best_deg = deg;
                    has_best = true;
                }
            }
            v += 1;
        }
        proof {
            if !has_best {
                assert(placed@[missing as int]);
                assert(false);
            }
        }
        let ghost o0 = order@;
        placed.set(best, true);
        order.push(best);
        proof {
            assert(!o0.contains(best));
            assert(order@.no_duplicates()) by {
                assert forall|a: int, b: int| 0 <= a < order@.len() && 0 <= b < order@.len() && a != b implies order@[a] != order@[b] by {
                    if a < o0.len() && b < o0.len() {
                        assert(order@[a] == o0[a] && order@[b] == o0[b]);
                    } else if a < o0.len() {
                        assert(o0.contains(o0[a]));
                    } else {
                        assert(o0.contains(o0[b]));
                    }
                }
            }
            assert forall|w: usize| w < pk implies (#[trigger] placed@[w as int] <==> order@.contains(w)) by {
                if order@.contains(w) && w != best {
                    let q = choose|q: int| 0 <= q < order@.len() && order@[q] == w;
                    assert(o0[q] == w);
                }
                if o0.contains(w) {
                    let q = choose|q: int| 0 <= q < o0.len() && o0[q] == w;
                    assert(order@[q] == w);
                }
                if w == best {
                    assert(order@[o0.len() as int] == w);
                }
            }
        }
    }
    let mut pos_of: Vec<usize> = Vec::new();
    let mut i: usize = 0;
    while i < pk
        invariant
            i <= pk,
            pos_of@.len() == i,
        decreases pk - i,
    {
        pos_of.push(0);
        i += 1;
    }
    let mut q: usize = 0;
    while q < pk
        invariant
            q <= pk,
            order@.len() == pk,
            order@.no_duplicates(),
            forall|x: int| 0 <= x < pk ==> (#[trigger] order@[x]) < pk,
            pos_of@.len() == pk,
            forall|x: int| 0 <= x < q ==> #[trigger] pos_of@[order@[x] as int] == x,
        decreases pk - q,
    {
        let w = order[q];
        let ghost p0 = pos_of@;
        pos_of.set(w, q);
        proof {
            assert forall|x: int| 0 <= x < q + 1 implies #[trigger] pos_of@[order@[x] as int] == x by {
                if x < q {
                    assert(order@[x] != order@[q as int]);
                    assert(pos_of@[order@[x] as int] == p0[order@[x] as int]);
                }
            }
        }
        q += 1;
    }
    let ghost ord = order@;
    proof {
        assert(is_perm(ord, pk as nat));
        lemma_perm_onto(ord, pk as nat);
        assert forall|v: int| 0 <= v < pk implies #[trigger] pos_of@[v] == ord.index_of(v as usize) && pos_of@[v] < pk by {
            assert(ord.to_set().contains(v as usize)) by { assert(below(pk as nat).contains(v as usize)); }
            let x = choose|x: int| 0 <= x < ord.len() && ord[x] == v as usize;
            lemma_index_of_nodup(ord, x);
            assert(pos_of@[ord[x] as int] == x);
        }
    }
    let mut cons: Vec<Vec<usize>> = Vec::new();
    let mut i: usize = 0;
    while i < pk
        invariant
            i <= pk,
            cons@.len() == i,
            forall|x: int| 0 <= x < i ==> (#[trigger] cons@[x])@.len() == 0,
        decreases pk - i,
    {
        cons.push(Vec::new());
        i += 1;
    }
    let mut e: usize = 0;
    while e < ne
        invariant
            e <= ne,
            ne == es.len(),
            pk == pattern.node_count(),
            es == pattern.edge_list(),
            forall|f: int| 0 <= f < es.len() ==> (#[trigger] es[f]).0 < pk && es[f].1 < pk,
            pos_of@.len() == pk,
            forall|v: int| 0 <= v < pk ==> #[trigger] pos_of@[v] == ord.index_of(v as usize) && pos_of@[v] < pk,
            cons@.len() == pk,
            forall|pos: int, t: int| 0 <= pos < pk && 0 <= t < cons@[pos]@.len() ==> (#[trigger] cons@[pos]@[t]) < e,
            forall|pos: int, f: int| 0 <= pos < pk && 0 <= f < es.len() ==>
                (#[trigger] cons@[pos]@.contains(f as usize) <==> (f < e && later(ord, es, f) == pos)),
        decreases ne - e,
    {
        let (s, t) = pattern.edge(e);
        let ps = pos_of[s];
        let pt = pos_of[t];
        let at = if ps < pt { pt } else { ps };
        assert(at == later(ord, es, e as int));
        let ghost c0 = cons@;
        let mut row = cons[at].clone();
        assert(row@ == c0[at as int]@);
        row.push(e);
        cons.set(at, row);
        proof {
            assert forall|pos: int, u: int| 0 <= pos < pk && 0 <= u < cons@[pos]@.len() implies (#[trigger] cons@[pos]@[u]) < e + 1 by {
                if pos != at {
                    assert(cons@[pos] == c0[pos]);
                } else if u < c0[pos]@.len() {
                    assert(cons@[pos]@[u] == c0[pos]@[u]);
                }
            }
            assert forall|pos: int, f: int| 0 <= pos < pk && 0 <= f < es.len() implies
                (#[trigger] cons@[pos]@.contains(f as usize) <==> (f < e + 1 && later(ord, es, f) == pos)) by {
                if pos != at {
                    assert(cons@[pos] == c0[pos]);
                } else {
                    if cons@[pos]@.contains(f as usize) && f != e {
                        let u = choose|u: int| 0 <= u < cons@[pos]@.len() && cons@[pos]@[u] == f as usize;
                        assert(u < c0[pos]@.len());
                        assert(c0[pos]@[u] == f as usize);
                        assert(c0[pos]@.contains(f as usize));
                    }
                    if c0[pos]@.contains(f as usize) {
                        let u = choose|u: int| 0 <= u < c0[pos]@.len() && c0[pos]@[u] == f as usize;
                        assert(cons@[pos]@[u] == f as usize);
                    }
                    if f == e {
                        assert(cons@[pos]@[c0[pos]@.len() as int] == f as usize);
                    }
                }
            }
        }
        e += 1;
    }
    let r = Plan { order, cons, pat_out, pat_in };
    proof {
        assert forall|pos: int, t: int| 0 <= pos < pk && 0 <= t < r.cons@[pos]@.len() implies (#[trigger] r.cons@[pos]@[t]) < es.len() by {}
    }
    r
}

// ---------------------------------------------------------------------------
// What a match is
// ---------------------------------------------------------------------------

/// A matching problem: the pattern and host edge lists over nodes `0..pk` and
/// `0..nh`, the shared directedness, and the optional node and edge match tables
/// (`node_ok[v][h]`: pattern node `v` may go to host node `h`; `edge_ok[e][f]`:
/// pattern edge `e` may land on host edge `f`).
pub struct Query {
    pub pk: nat,
    pub nh: nat,
    pub directed: bool,
    pub pedges: Seq<(usize, usize)>,
    pub hedges: Seq<(usize, usize)>,
    pub node_ok: Option<Seq<Seq<bool>>>,
    pub edge_ok: Option<Seq<Seq<bool>>>,
}

/// The matching problem of `pattern` in `host` under the given tables.
pub open spec fn query(pattern: TemplateGraph, host: TemplateGraph, node_ok: Option<Seq<Seq<bool>>>, edge_ok: Option<Seq<Seq<bool>>>) -> Query {
    Query {
        pk: pattern.node_count(),
        nh: host.node_count(),
        directed: host.is_directed(),
        pedges: pattern.edge_list(),
        hedges: host.edge_list(),
        node_ok,
        edge_ok,
    }
}

pub open spec fn node_allowed(q: Query, v: usize, h: usize) -> bool {
    match q.node_ok {
        None => true,
        Some(t) => t[v as int][h as int],
    }
}

pub open spec fn edge_allowed(q: Query, e: int, f: usize) -> bool {
    match q.edge_ok {
        None => true,
        Some(t) => t[e][f as int],
    }
}

/// Pattern edge `e` lands on an allowed host edge when its endpoints go to `hs`
/// and `ht`: the edge a lookup from `hs` to `ht` finds exists and is allowed.
pub open spec fn edge_lands(q: Query, e: int, hs: usize, ht: usize) -> bool {
    match found_edge(q.hedges, q.directed, hs, ht) {
        Some(f) => edge_allowed(q, e, f),
        None => false,
    }
}

/// Pattern node `v` may go to host node `h`: `h` exists, the node table allows it,
/// and `h` has at least `v`'s out- and in-degree.
pub open spec fn node_fits(q: Query, v: usize, h: usize) -> bool {
    &&& h < q.nh
    &&& node_allowed(q, v, h)
    &&& out_degree(q.pedges, q.directed, v) <= out_degree(q.hedges, q.directed, h)
    &&& in_degree(q.pedges, q.directed, v) <= in_degree(q.hedges, q.directed, h)
}

/// `f`, indexed by pattern node, is a monomorphism: injective, every node fits its
/// image, and every pattern edge lands on a host edge.
#[verifier::opaque]
pub open spec fn is_embedding(q: Query, f: Seq<usize>) -> bool {
    &&& f.len() == q.pk
    &&& f.no_duplicates()
    &&& forall|v: int| 0 <= v < q.pk ==> #[trigger] node_fits(q, v as usize, f[v])
    &&& forall|e: int| 0 <= e < q.pedges.len() ==> #[trigger] edge_lands(q, e, f[q.pedges[e].0 as int], f[q.pedges[e].1 as int])
}

// ---------------------------------------------------------------------------
// The search tree
// ---------------------------------------------------------------------------

/// Host node `h` may extend the partial match `p` (host nodes of the first
/// `p.len()` positions of `order`).
pub open spec fn cand_ok(q: Query, order: Seq<usize>, p: Seq<usize>, h: usize) -> bool {
    let pos = p.len() as int;
    let p2 = p.push(h);
    &&& !p.contains(h)
    &&& node_fits(q, order[pos], h)
    &&& forall|e: int| 0 <= e < q.pedges.len() && later(order, q.pedges, e) == pos ==>
        #[trigger] edge_lands(q, e, p2[order.index_of(q.pedges[e].0)], p2[order.index_of(q.pedges[e].1)])
}

/// The complete matches below the partial match `p`, in search order.
pub open spec fn comps(q: Query, order: Seq<usize>, p: Seq<usize>) -> Seq<Seq<usize>>
    decreases q.pk - p.len(), q.nh + 1,
{
    if p.len() >= q.pk {
        seq![p]
    } else {
        comps_from(q, order, p, 0)
    }
}

/// The complete matches below `p` whose next host node is at least `h`.
pub open spec fn comps_from(q: Query, order: Seq<usize>, p: Seq<usize>, h: nat) -> Seq<Seq<usize>>
    decreases q.pk - p.len(), q.nh - h,
{
    if h >= q.nh || p.len() >= q.pk {
        Seq::empty()
    } else {
        (if cand_ok(q, order, p, h as usize) { comps(q, order, p.push(h as usize)) } else { Seq::empty() })
            + comps_from(q, order, p, h + 1)
    }
}

/// The match, indexed by pattern node, of a complete list in position order.
pub open spec fn emb(q: Query, order: Seq<usize>, s: Seq<usize>) -> Seq<usize> {
    Seq::new(q.pk, |v: int| s[order.index_of(v as usize)])
}

/// `s` extends `p` and every later position was a valid extension.
spec fn path_ok(q: Query, order: Seq<usize>, p: Seq<usize>, s: Seq<usize>) -> bool {
    &&& s.len() == q.pk
    &&& p.len() <= s.len()
    &&& s.take(p.len() as int) == p
    &&& forall|i: int| p.len() <= i < q.pk ==> #[trigger] cand_ok(q, order, s.take(i), s[i])
}

proof fn lemma_comps_sound(q: Query, order: Seq<usize>, p: Seq<usize>)
    requires
        q.nh <= usize::MAX,
        p.len() <= q.pk,
    ensures
        forall|j: int| 0 <= j < comps(q, order, p).len() ==> path_ok(q, order, p, #[trigger] comps(q, order, p)[j]),
    decreases q.pk - p.len(), q.nh + 1,
{
    if p.len() >= q.pk {
        assert(p.take(p.len() as int) =~= p);
        assert(comps(q, order, p) =~= seq![p]);
        assert(path_ok(q, order, p, p));
    } else {
        lemma_comps_from_sound(q, order, p, 0);
        assert(comps(q, order, p) == comps_from(q, order, p, 0));
    }
}

proof fn lemma_comps_from_sound(q: Query, order: Seq<usize>, p: Seq<usize>, h: nat)
    requires
        q.nh <= usize::MAX,
        p.len() < q.pk,
    ensures
        forall|j: int| 0 <= j < comps_from(q, order, p, h).len() ==> path_ok(q, order, p, #[trigger] comps_from(q, order, p, h)[j]),
    decreases q.pk - p.len(), q.nh - h,
{
    if h < q.nh {
        lemma_comps_from_sound(q, order, p, h + 1);
        let hu = h as usize;
        let a = if cand_ok(q, order, p, hu) { comps(q, order, p.push(hu)) } else { Seq::empty() };
        let b = comps_from(q, order, p, h + 1);
        if cand_ok(q, order, p, hu) {
            lemma_comps_sound(q, order, p.push(hu));
        }
        assert forall|j: int| 0 <= j < comps_from(q, order, p, h).len() implies path_ok(q, order, p, #[trigger] comps_from(q, order, p, h)[j]) by {
            let c = comps_from(q, order, p, h);
            assert(c == a + b);
            if j < a.len() {
                let s = a[j];
                assert(c[j] == s);
                assert(path_ok(q, order, p.push(hu), s));
                assert(s.take(p.len() + 1int) == p.push(hu));
                assert(s.take(p.len() as int) =~= p) by {
                    assert(s.take(p.len() as int) =~= s.take(p.len() + 1int).take(p.len() as int));
                }
                assert(s[p.len() as int] == hu) by {
                    assert(s.take(p.len() + 1int)[p.len() as int] == s[p.len() as int]);
                }
                assert forall|i: int| p.len() <= i < q.pk implies #[trigger] cand_ok(q, order, s.take(i), s[i]) by {
                    if i == p.len() {
                        assert(s.take(i) == p);
                    }
                }
            } else {
                assert(c[j] == b[j - a.len()]);
            }
        }
    }
}

proof fn lemma_comps_complete(q: Query, order: Seq<usize>, p: Seq<usize>, s: Seq<usize>)
    requires
        q.nh <= usize::MAX,
        p.len() <= q.pk,
        path_ok(q, order, p, s),
    ensures
        comps(q, order, p).contains(s),
    decreases q.pk - p.len(), q.nh + 1,
{
    if p.len() >= q.pk {
        assert(s =~= p) by {
            assert(s.take(p.len() as int) =~= s);
        }
        assert(comps(q, order, p)[0] == s);
    } else {
        lemma_comps_from_complete(q, order, p, 0, s);
    }
}

proof fn lemma_comps_from_complete(q: Query, order: Seq<usize>, p: Seq<usize>, h: nat, s: Seq<usize>)
    requires
        q.nh <= usize::MAX,
        p.len() < q.pk,
        path_ok(q, order, p, s),
        h <= s[p.len() as int],
    ensures
        comps_from(q, order, p, h).contains(s),
    decreases q.pk - p.len(), q.nh - h,
{
    let i = p.len() as int;
    assert(cand_ok(q, order, s.take(i), s[i]));
    assert(s.take(i) == p);
    let hs = s[i];
    assert(hs < q.nh);
    let hu = h as usize;
    let a = if cand_ok(q, order, p, hu) { comps(q, order, p.push(hu)) } else { Seq::empty() };
    let b = comps_from(q, order, p, h + 1);
    assert(comps_from(q, order, p, h) == a + b);
    if h == hs {
        let p2 = p.push(hs);
        assert(s.take(i + 1) =~= p2);
        assert(path_ok(q, order, p2, s)) by {
            assert forall|j: int| p2.len() <= j < q.pk implies #[trigger] cand_ok(q, order, s.take(j), s[j]) by {
                assert(cand_ok(q, order, s.take(j), s[j]));
            }
        }
        lemma_comps_complete(q, order, p2, s);
        let j = choose|j: int| 0 <= j < a.len() && a[j] == s;
        assert((a + b)[j] == s);
    } else {
        lemma_comps_from_complete(q, order, p, h + 1, s);
        let j = choose|j: int| 0 <= j < b.len() && b[j] == s;
        assert((a + b)[a.len() + j] == s);
    }
}

proof fn lemma_comps_nodup(q: Query, order: Seq<usize>, p: Seq<usize>)
    requires
        q.nh <= usize::MAX,
        p.len() <= q.pk,
    ensures
        comps(q, order, p).no_duplicates(),
    decreases q.pk - p.len(), q.nh + 1,
{
    if p.len() < q.pk {
        lemma_comps_from_nodup(q, order, p, 0);
    }
}

proof fn lemma_comps_from_nodup(q: Query, order: Seq<usize>, p: Seq<usize>, h: nat)
    requires
        q.nh <= usize::MAX,
        p.len() < q.pk,
    ensures
        comps_from(q, order, p, h).no_duplicates(),
        forall|j: int| 0 <= j < comps_from(q, order, p, h).len() ==> (#[trigger] comps_from(q, order, p, h)[j])[p.len() as int] >= h,
    decreases q.pk - p.len(), q.nh - h,
{
    if h < q.nh {
        lemma_comps_from_nodup(q, order, p, h + 1);
        lemma_comps_from_sound(q, order, p, h + 1);
        let hu = h as usize;
        let a = if cand_ok(q, order, p, hu) { comps(q, order, p.push(hu)) } else { Seq::empty() };
        let b = comps_from(q, order, p, h + 1);
        let c = a + b;
        if cand_ok(q, order, p, hu) {
            lemma_comps_nodup(q, order, p.push(hu));
            lemma_comps_sound(q, order, p.push(hu));
        }
        assert forall|j: int| 0 <= j < a.len() implies (#[trigger] a[j])[p.len() as int] == hu by {
            let s = a[j];
            assert(s.take(p.len() + 1int) == p.push(hu));
            assert(s.take(p.len() + 1int)[p.len() as int] == s[p.len() as int]);
        }
        assert forall|j: int| 0 <= j < c.len() implies (#[trigger] c[j])[p.len() as int] >= h by {
            if j < a.len() { assert(c[j] == a[j]); } else { assert(c[j] == b[j - a.len()]); }
        }
        assert forall|x: int, y: int| 0 <= x < c.len() && 0 <= y < c.len() && x != y implies c[x] != c[y] by {
            if x < a.len() && y < a.len() {
                assert(c[x] == a[x] && c[y] == a[y]);
            } else if x >= a.len() && y >= a.len() {
                assert(c[x] == b[x - a.len()] && c[y] == b[y - a.len()]);
            } else if x < a.len() {
                assert(c[x][p.len() as int] == hu);
                assert(c[y] == b[y - a.len()]);
                assert(c[y][p.len() as int] >= h + 1);
            } else {
                assert(c[y][p.len() as int] == hu);
                assert(c[x] == b[x - a.len()]);
                assert(c[x][p.len() as int] >= h + 1);
            }
        }
    }
}

/// A permutation lists each node at its position.
proof fn lemma_perm_index(order: Seq<usize>, k: nat, v: usize)
    requires
        is_perm(order, k),
        k <= usize::MAX,
        v < k,
    ensures
        0 <= order.index_of(v) < k,
        order[order.index_of(v)] == v,
{
    lemma_perm_onto(order, k);
    assert(below(k).contains(v));
    assert(order.to_set().contains(v));
    assert(order.contains(v));
}

/// The pattern's edges join pattern nodes.
pub open spec fn query_wf(q: Query) -> bool {
    &&& q.pk <= usize::MAX
    &&& q.nh <= usize::MAX
    &&& forall|e: int| 0 <= e < q.pedges.len() ==> (#[trigger] q.pedges[e]).0 < q.pk && q.pedges[e].1 < q.pk
}

proof fn lemma_path_distinct(q: Query, order: Seq<usize>, s: Seq<usize>, i: int, j: int)
    requires
        path_ok(q, order, Seq::empty(), s),
        0 <= i < j < s.len(),
    ensures
        s[i] != s[j],
{
    assert(cand_ok(q, order, s.take(j), s[j]));
    assert(s.take(j)[i] == s[i]);
}

/// A complete search path reads off a monomorphism.
proof fn lemma_emb_of_path(q: Query, order: Seq<usize>, s: Seq<usize>)
    requires
        query_wf(q),
        is_perm(order, q.pk),
        path_ok(q, order, Seq::empty(), s),
    ensures
        is_embedding(q, emb(q, order, s)),
{
    reveal(is_embedding);
    let f = emb(q, order, s);
    assert forall|a: int, b: int| 0 <= a < f.len() && 0 <= b < f.len() && a != b implies f[a] != f[b] by {
        lemma_perm_index(order, q.pk, a as usize);
        lemma_perm_index(order, q.pk, b as usize);
        let ia = order.index_of(a as usize);
        let ib = order.index_of(b as usize);
        assert(ia != ib);
        if ia < ib { lemma_path_distinct(q, order, s, ia, ib); } else { lemma_path_distinct(q, order, s, ib, ia); }
    }
    assert forall|v: int| 0 <= v < q.pk implies #[trigger] node_fits(q, v as usize, f[v]) by {
        lemma_perm_index(order, q.pk, v as usize);
        let i = order.index_of(v as usize);
        assert(cand_ok(q, order, s.take(i), s[i]));
    }
    assert forall|e: int| 0 <= e < q.pedges.len() implies #[trigger] edge_lands(q, e, f[q.pedges[e].0 as int], f[q.pedges[e].1 as int]) by {
        let (src, tgt) = q.pedges[e];
        lemma_perm_index(order, q.pk, src);
        lemma_perm_index(order, q.pk, tgt);
        let i = later(order, q.pedges, e);
        assert(cand_ok(q, order, s.take(i), s[i]));
        let p2 = s.take(i).push(s[i]);
        assert(p2[order.index_of(src)] == s[order.index_of(src)]);
        assert(p2[order.index_of(tgt)] == s[order.index_of(tgt)]);
    }
}

/// Every monomorphism is read off some complete search path.
proof fn lemma_path_of_emb(q: Query, order: Seq<usize>, f: Seq<usize>) -> (s: Seq<usize>)
    requires
        query_wf(q),
        is_perm(order, q.pk),
        is_embedding(q, f),
    ensures
        path_ok(q, order, Seq::empty(), s),
        emb(q, order, s) == f,
{
    reveal(is_embedding);
    let s = Seq::new(q.pk, |i: int| f[order[i] as int]);
    assert(s.take(0) =~= Seq::<usize>::empty());
    assert forall|i: int| 0 <= i < q.pk implies #[trigger] cand_ok(q, order, s.take(i), s[i]) by {
        let p = s.take(i);
        assert(!p.contains(s[i])) by {
            if p.contains(s[i]) {
                let j = choose|j: int| 0 <= j < p.len() && p[j] == s[i];
                assert(order[j] != order[i]);
                assert(f[order[j] as int] == f[order[i] as int]);
            }
        }
        let v: int = order[i] as int;
        assert(0 <= v < q.pk);
        assert(node_fits(q, v as usize, f[v]));
        assert forall|e: int| 0 <= e < q.pedges.len() && later(order, q.pedges, e) == i implies
            #[trigger] edge_lands(q, e, p.push(s[i])[order.index_of(q.pedges[e].0)], p.push(s[i])[order.index_of(q.pedges[e].1)]) by {
            let (src, tgt) = q.pedges[e];
            lemma_perm_index(order, q.pk, src);
            lemma_perm_index(order, q.pk, tgt);
            assert(edge_lands(q, e, f[src as int], f[tgt as int]));
            assert(p.push(s[i])[order.index_of(src)] == s[order.index_of(src)]);
            assert(p.push(s[i])[order.index_of(tgt)] == s[order.index_of(tgt)]);
        }
    }
    assert(emb(q, order, s) =~= f) by {
        assert forall|v: int| 0 <= v < q.pk implies emb(q, order, s)[v] == f[v] by {
            lemma_perm_index(order, q.pk, v as usize);
        }
    }
    s
}

/// Distinct complete paths read off distinct monomorphisms.
proof fn lemma_emb_injective(q: Query, order: Seq<usize>, s1: Seq<usize>, s2: Seq<usize>)
    requires
        query_wf(q),
        is_perm(order, q.pk),
        s1.len() == q.pk,
        s2.len() == q.pk,
        emb(q, order, s1) == emb(q, order, s2),
    ensures
        s1 == s2,
{
    assert forall|i: int| 0 <= i < q.pk implies s1[i] == s2[i] by {
        lemma_index_of_nodup(order, i);
        assert(emb(q, order, s1)[order[i] as int] == s1[i]);
        assert(emb(q, order, s2)[order[i] as int] == s2[i]);
    }
    assert(s1 =~= s2);
}

/// The matches the search produces, in search order, indexed by pattern node.
pub open spec fn search_results(q: Query, order: Seq<usize>) -> Seq<Seq<usize>> {
    comps(q, order, Seq::empty()).map_values(|s: Seq<usize>| emb(q, order, s))
}

/// The search finds every monomorphism exactly once.
proof fn lemma_search_results(q: Query, order: Seq<usize>)
    requires
        query_wf(q),
        is_perm(order, q.pk),
    ensures
        search_results(q, order).no_duplicates(),
        forall|f: Seq<usize>| #[trigger] search_results(q, order).contains(f) <==> is_embedding(q, f),
{
    let c = comps(q, order, Seq::empty());
    let m = search_results(q, order);
    lemma_comps_sound(q, order, Seq::empty());
    lemma_comps_nodup(q, order, Seq::empty());
    assert forall|a: int, b: int| 0 <= a < m.len() && 0 <= b < m.len() && a != b implies m[a] != m[b] by {
        assert(path_ok(q, order, Seq::empty(), c[a]));
        assert(path_ok(q, order, Seq::empty(), c[b]));
        if m[a] == m[b] {
            lemma_emb_injective(q, order, c[a], c[b]);
        }
    }
    assert forall|f: Seq<usize>| #[trigger] m.contains(f) <==> is_embedding(q, f) by {
        if m.contains(f) {
            let j = choose|j: int| 0 <= j < m.len() && m[j] == f;
            assert(path_ok(q, order, Seq::empty(), c[j]));
            lemma_emb_of_path(q, order, c[j]);
        }
        if is_embedding(q, f) {
            let s = lemma_path_of_emb(q, order, f);
            lemma_comps_complete(q, order, Seq::empty(), s);
            let j = choose|j: int| 0 <= j < c.len() && c[j] == s;
            assert(m[j] == f);
        }
    }
}

// ---------------------------------------------------------------------------
// The search
// ---------------------------------------------------------------------------

pub open spec fn table_view(t: Option<&Vec<Vec<bool>>>) -> Option<Seq<Seq<bool>>> {
    match t {
        None => None,
        Some(v) => Some(v.deep_view()),
    }
}

/// `node_ok` is a `pk x nh` table and `edge_ok` a `pattern edges x host edges` one.
pub open spec fn tables_fit(pattern: TemplateGraph, host: TemplateGraph, node_ok: Option<Seq<Seq<bool>>>, edge_ok: Option<Seq<Seq<bool>>>) -> bool {
    &&& (node_ok matches Some(t) ==> t.len() == pattern.node_count()
        && forall|v: int| 0 <= v < t.len() ==> (#[trigger] t[v]).len() == host.node_count())
    &&& (edge_ok matches Some(t) ==> t.len() == pattern.edge_list().len()
        && forall|e: int| 0 <= e < t.len() ==> (#[trigger] t[e]).len() == host.edge_list().len())
}

/// Live backtracking state.
struct Search<'a> {
    pattern: &'a TemplateGraph,
    host: &'a TemplateGraph,
    plan: &'a Plan,
    host_out: Vec<usize>,
    host_in: Vec<usize>,
    node_ok: Option<&'a Vec<Vec<bool>>>,
    edge_ok: Option<&'a Vec<Vec<bool>>>,
    assign: Vec<usize>,
    used: Vec<bool>,
    count_only: bool,
    count: usize,
    out: Vec<Vec<usize>>,
}

impl<'a> Search<'a> {
    spec fn q(&self) -> Query {
        query(*self.pattern, *self.host, table_view(self.node_ok), table_view(self.edge_ok))
    }

    spec fn wf(&self) -> bool {
        &&& plan_ok(*self.plan, *self.pattern)
        &&& self.pattern.is_directed() == self.host.is_directed()
        &&& query_wf(self.q())
        &&& tables_fit(*self.pattern, *self.host, table_view(self.node_ok), table_view(self.edge_ok))
        &&& self.host_out@.len() == self.host.node_count()
        &&& self.host_in@.len() == self.host.node_count()
        &&& forall|h: int| 0 <= h < self.host.node_count() ==> #[trigger] self.host_out@[h] == out_degree(self.host.edge_list(), self.host.is_directed(), h as usize)
        &&& forall|h: int| 0 <= h < self.host.node_count() ==> #[trigger] self.host_in@[h] == in_degree(self.host.edge_list(), self.host.is_directed(), h as usize)
        &&& self.assign@.len() == self.pattern.node_count()
        &&& self.used@.len() == self.host.node_count()
    }

    /// The state holds the partial match `p`.
    spec fn at(&self, p: Seq<usize>) -> bool {
        &&& p.len() <= self.pattern.node_count()
        &&& forall|i: int| 0 <= i < p.len() ==> (#[trigger] p[i]) < self.host.node_count()
        &&& forall|i: int| 0 <= i < p.len() ==> #[trigger] self.assign@[self.plan.order@[i] as int] == p[i]
        &&& forall|h: usize| h < self.host.node_count() ==> (#[trigger] self.used@[h as int] <==> p.contains(h))
    }

    spec fn same_setup(&self, other: &Self) -> bool {
        &&& self.pattern == other.pattern
        &&& self.host == other.host
        &&& self.plan == other.plan
        &&& self.host_out == other.host_out
        &&& self.host_in == other.host_in
        &&& self.node_ok == other.node_ok
        &&& self.edge_ok == other.edge_ok
        &&& self.count_only == other.count_only
    }

    /// Whether host node `hv` may extend the partial match `p` at position `pos`.
    fn candidate_ok(&self, pos: usize, hv: usize, Ghost(p): Ghost<Seq<usize>>) -> (r: bool)
        requires
            self.wf(),
            self.at(p),
            p.len() == pos,
            pos < self.pattern.node_count(),
            hv < self.host.node_count(),
        ensures
            r == cand_ok(self.q(), self.plan.order@, p, hv),
    {
        let ghost q = self.q();
        let ghost order = self.plan.order@;
        let ghost p2 = p.push(hv);
        self.pattern.endpoints_in_range();
        self.host.endpoints_in_range();
        let pv = self.plan.order[pos];
        proof { lemma_index_of_nodup(order, pos as int); }
        if self.used[hv] {
            return false;
        }
        if self.plan.pat_out[pv] > self.host_out[hv] || self.plan.pat_in[pv] > self.host_in[hv] {
            return false;
        }
        match self.node_ok {
            Some(t) => {
                assert(t@[pv as int]@ == t.deep_view()[pv as int]);
                if !t[pv][hv] {
                    return false;
                }
            },
            None => {},
        }
        assert(node_fits(q, order[pos as int], hv));
        let row = &self.plan.cons[pos];
        let mut j: usize = 0;
        while j < row.len()
            invariant
                self.wf(),
                self.at(p),
                q == self.q(),
                order == self.plan.order@,
                p2 == p.push(hv),
                p.len() == pos,
                pos < self.pattern.node_count(),
                hv < self.host.node_count(),
                pv == order[pos as int],
                order.index_of(pv) == pos,
                row@ == self.plan.cons@[pos as int]@,
                j <= row@.len(),
                forall|f: int| 0 <= f < self.pattern.edge_list().len() ==> (#[trigger] self.pattern.edge_list()[f]).0 < self.pattern.node_count()
                    && self.pattern.edge_list()[f].1 < self.pattern.node_count(),
                self.pattern.edge_list().len() <= usize::MAX,
                self.host.edge_list().len() <= usize::MAX,
                forall|u: int| 0 <= u < j ==> #[trigger] edge_lands(q, row@[u] as int,
                    p2[order.index_of(q.pedges[row@[u] as int].0)], p2[order.index_of(q.pedges[row@[u] as int].1)]),
            decreases row@.len() - j,
        {
            let e = row[j];
            assert(e < self.pattern.edge_list().len());
            let (s, t) = self.pattern.edge(e);
            proof {
                lemma_perm_index(order, q.pk, s);
                lemma_perm_index(order, q.pk, t);
                assert(row@[j as int] == e);
                let ei: int = e as int;
                assert(self.plan.cons@[pos as int]@.contains(ei as usize));
                assert(later(order, q.pedges, ei) == pos);
            }
            let hs = if s == pv { hv } else { self.assign[s] };
            let ht = if t == pv { hv } else { self.assign[t] };
            proof {
                if s != pv {
                    assert(order.index_of(s) < pos);
                    assert(self.assign@[order[order.index_of(s)] as int] == p[order.index_of(s)]);
                }
                if t != pv {
                    assert(order.index_of(t) < pos);
                    assert(self.assign@[order[order.index_of(t)] as int] == p[order.index_of(t)]);
                }
                assert(hs == p2[order.index_of(s)]);
                assert(ht == p2[order.index_of(t)]);
            }
            match self.host.find_edge(hs, ht) {
                None => {
                    assert(!edge_lands(q, e as int, p2[order.index_of(q.pedges[e as int].0)], p2[order.index_of(q.pedges[e as int].1)]));
                    return false;
                },
                Some(he) => {
                    match self.edge_ok {
                        Some(tab) => {
                            proof { lemma_last_arc_bound(self.host.edge_list(), hs, ht); lemma_last_arc_bound(self.host.edge_list(), ht, hs); }
                            assert(tab@[e as int]@ == tab.deep_view()[e as int]);
                            if !tab[e][he] {
                                assert(!edge_lands(q, e as int, p2[order.index_of(q.pedges[e as int].0)], p2[order.index_of(q.pedges[e as int].1)]));
                                return false;
                            }
                        },
                        None => {},
                    }
                },
            }
            j += 1;
        }
        proof {
            assert forall|e: int| 0 <= e < q.pedges.len() && later(order, q.pedges, e) == pos as int implies
                #[trigger] edge_lands(q, e, p2[order.index_of(q.pedges[e].0)], p2[order.index_of(q.pedges[e].1)]) by {
                assert(self.plan.cons@[pos as int]@.contains(e as usize));
                let u = choose|u: int| 0 <= u < row@.len() && row@[u] == e as usize;
                assert(row@[u] as int == e);
            }
        }
        true
    }
}

impl<'a> Search<'a> {
    /// Extend the partial match `p` (positions `0..pos`) in every way, recording each
    /// complete match (or counting it).
    fn go(&mut self, pos: usize, Ghost(p): Ghost<Seq<usize>>)
        requires
            old(self).wf(),
            old(self).at(p),
            p.len() == pos,
            old(self).count_only ==> old(self).count + comps(old(self).q(), old(self).plan.order@, p).len() <= usize::MAX,
        ensures
            final(self).wf(),
            final(self).same_setup(old(self)),
            final(self).at(p),
            final(self).count_only ==> final(self).count == old(self).count + comps(old(self).q(), old(self).plan.order@, p).len()
                && final(self).out == old(self).out,
            !final(self).count_only ==> final(self).out.deep_view() == old(self).out.deep_view()
                + comps(old(self).q(), old(self).plan.order@, p).map_values(|s: Seq<usize>| emb(old(self).q(), old(self).plan.order@, s))
                && final(self).count == old(self).count,
        decreases old(self).pattern.node_count() - pos,
    {
        let ghost q = self.q();
        let ghost order = self.plan.order@;
        let ghost fm = |s: Seq<usize>| emb(q, order, s);
        let pk = self.plan.order.len();
        let nh = self.used.len();
        if pos == pk {
            proof {
                assert(comps(q, order, p) =~= seq![p]);
            }
            if self.count_only {
                self.count = self.count + 1;
            } else {
                let a = self.assign.clone();
                proof {
                    assert(a@ =~= emb(q, order, p)) by {
                        assert forall|v: int| 0 <= v < pk implies a@[v] == emb(q, order, p)[v] by {
                            lemma_perm_index(order, q.pk, v as usize);
                            let i = order.index_of(v as usize);
                            assert(self.assign@[order[i] as int] == p[i]);
                        }
                    }
                }
                let ghost o0 = self.out.deep_view();
                let ghost ov = self.out@;
                self.out.push(a);
                proof {
                    assert(seq![p].map_values(fm) =~= seq![emb(q, order, p)]);
                    assert forall|t: int| 0 <= t < self.out@.len() implies #[trigger] self.out.deep_view()[t] == (o0 + seq![p].map_values(fm))[t] by {
                        if t < ov.len() {
                            assert(self.out@[t] == ov[t]);
                        } else {
                            assert(self.out@[t] == a);
                        }
                    }
                    assert(self.out.deep_view() =~= o0 + seq![p].map_values(fm));
                }
            }
            return;
        }
        let pv = self.plan.order[pos];
        let ghost out0 = self.out.deep_view();
        let ghost count0 = self.count;
        let ghost all = comps_from(q, order, p, 0);
        proof {
            assert(comps(q, order, p) == all);
        }
        let mut hv: usize = 0;
        while hv < nh
            invariant
                self.wf(),
                self.same_setup(old(self)),
                self.at(p),
                q == self.q(),
                order == self.plan.order@,
                fm == (|s: Seq<usize>| emb(q, order, s)),
                p.len() == pos,
                pos < pk,
                pk == self.pattern.node_count(),
                nh == self.host.node_count(),
                pv == order[pos as int],
                hv <= nh,
                all == comps_from(q, order, p, 0),
                self.count_only ==> count0 + all.len() <= usize::MAX,
                self.count_only ==> self.count + comps_from(q, order, p, hv as nat).len() == count0 + all.len()
                    && self.out == old(self).out,
                !self.count_only ==> self.out.deep_view() + comps_from(q, order, p, hv as nat).map_values(fm) == out0 + all.map_values(fm)
                    && self.count == count0,
                out0 == old(self).out.deep_view(),
                count0 == old(self).count,
            decreases nh - hv,
        {
            let ghost rest = comps_from(q, order, p, (hv + 1) as nat);
            let ghost here = if cand_ok(q, order, p, hv) { comps(q, order, p.push(hv)) } else { Seq::empty() };
            proof {
                assert(comps_from(q, order, p, hv as nat) == here + rest);
                assert((here + rest).map_values(fm) =~= here.map_values(fm) + rest.map_values(fm));
            }
            if self.candidate_ok(pos, hv, Ghost(p)) {
                let ghost before = self.out.deep_view();
                self.assign.set(pv, hv);
                self.used.set(hv, true);
                proof {
                    lemma_index_of_nodup(order, pos as int);
                    let p2 = p.push(hv);
                    assert forall|i: int| 0 <= i < p2.len() implies #[trigger] self.assign@[self.plan.order@[i] as int] == p2[i] by {
                        if i < pos {
                            assert(order[i] != order[pos as int]);
                        }
                    }
                    assert forall|h: usize| h < nh implies (#[trigger] self.used@[h as int] <==> p2.contains(h)) by {
                        if h == hv {
                            assert(p2[pos as int] == hv);
                        } else if p2.contains(h) {
                            let i = choose|i: int| 0 <= i < p2.len() && p2[i] == h;
                            assert(p[i] == h);
                        } else if p.contains(h) {
                            let i = choose|i: int| 0 <= i < p.len() && p[i] == h;
                            assert(p2[i] == h);
                        }
                    }
                    assert(self.at(p2));
                    if self.count_only {
                        assert(here.len() + rest.len() == comps_from(q, order, p, hv as nat).len());
                    }
                }
                self.go(pos + 1, Ghost(p.push(hv)));
                self.used.set(hv, false);
                proof {
                    assert forall|h: usize| h < nh implies (#[trigger] self.used@[h as int] <==> p.contains(h)) by {
                        if h != hv {
                            assert(p.push(hv).contains(h) ==> p.contains(h)) by {
                                if p.push(hv).contains(h) {
                                    let i = choose|i: int| 0 <= i < p.push(hv).len() && p.push(hv)[i] == h;
                                    assert(p[i] == h);
                                }
                            }
                            assert(p.contains(h) ==> p.push(hv).contains(h)) by {
                                if p.contains(h) {
                                    let i = choose|i: int| 0 <= i < p.len() && p[i] == h;
                                    assert(p.push(hv)[i] == h);
                                }
                            }
                        }
                    }
                    assert forall|i: int| 0 <= i < p.len() implies #[trigger] self.assign@[self.plan.order@[i] as int] == p[i] by {
                        assert(self.assign@[self.plan.order@[i] as int] == p.push(hv)[i]);
                    }
                    if !self.count_only {
                        assert(self.out.deep_view() + rest.map_values(fm) =~= before + here.map_values(fm) + rest.map_values(fm));
                    }
                }
            } else {
                proof {
                    assert(here =~= Seq::<Seq<usize>>::empty());
                    assert(here.map_values(fm) =~= Seq::<Seq<usize>>::empty());
                    if !self.count_only {
                        assert(self.out.deep_view() + rest.map_values(fm) =~= self.out.deep_view() + here.map_values(fm) + rest.map_values(fm));
                    }
                }
            }
            hv += 1;
        }
        proof {
            assert(comps_from(q, order, p, nh as nat) =~= Seq::<Seq<usize>>::empty());
            assert(comps_from(q, order, p, nh as nat).map_values(fm) =~= Seq::<Seq<usize>>::empty());
            if !self.count_only {
                assert(self.out.deep_view() =~= self.out.deep_view() + comps_from(q, order, p, nh as nat).map_values(fm));
            }
        }
    }
}

/// The monomorphisms of the problem, as a set.
pub open spec fn embeddings(q: Query) -> Set<Seq<usize>> {
    Set::new(|f: Seq<usize>| is_embedding(q, f))
}

/// Run the search; in counting mode only the count is kept.
fn run_search(pattern: &TemplateGraph, host: &TemplateGraph, node_ok: Option<&Vec<Vec<bool>>>, edge_ok: Option<&Vec<Vec<bool>>>, count_only: bool) -> (r: (usize, Vec<Vec<usize>>))
    requires
        pattern.is_directed() == host.is_directed(),
        tables_fit(*pattern, *host, table_view(node_ok), table_view(edge_ok)),
        count_only ==> embeddings(query(*pattern, *host, table_view(node_ok), table_view(edge_ok))).len() <= usize::MAX,
    ensures
        count_only ==> r.0 == embeddings(query(*pattern, *host, table_view(node_ok), table_view(edge_ok))).len(),
        embeddings(query(*pattern, *host, table_view(node_ok), table_view(edge_ok))).finite(),
        !count_only ==> r.1.deep_view().no_duplicates() && forall|f: Seq<usize>| #[trigger] r.1.deep_view().contains(f)
            <==> is_embedding(query(*pattern, *host, table_view(node_ok), table_view(edge_ok)), f),
{
    let pl = plan(pattern);
    let (host_out, host_in) = host_degrees(host);
    pattern.endpoints_in_range();
    let pk = pattern.len();
    let nh = host.len();
    let mut assign: Vec<usize> = Vec::new();
    let mut i: usize = 0;
    while i < pk
        invariant
            i <= pk,
            assign@.len() == i,
        decreases pk - i,
    {
        assign.push(0);
        i += 1;
    }
    let mut used: Vec<bool> = Vec::new();
    let mut i: usize = 0;
    while i < nh
        invariant
            i <= nh,
            used@.len() == i,
            forall|h: int| 0 <= h < i ==> !(#[trigger] used@[h]),
        decreases nh - i,
    {
        used.push(false);
        i += 1;
    }
    let ghost q = query(*pattern, *host, table_view(node_ok), table_view(edge_ok));
    let ghost order = pl.order@;
    proof {
        lemma_search_results(q, order);
        let m = search_results(q, order);
        m.unique_seq_to_set();
        assert(m.to_set() =~= embeddings(q));
        assert(comps(q, order, Seq::empty()).len() == m.len());
    }
    let mut search = Search {
        pattern,
        host,
        plan: &pl,
        host_out,
        host_in,
        node_ok,
        edge_ok,
        assign,
        used,
        count_only,
        count: 0,
        out: Vec::new(),
    };
    proof {
        assert(search.q() == q);
        assert(search.at(Seq::empty()));
        assert(search.out.deep_view() =~= Seq::<Seq<usize>>::empty());
    }
    search.go(0, Ghost(Seq::empty()));
    proof {
        if !count_only {
            assert(Seq::<Seq<usize>>::empty() + search_results(q, order) =~= search_results(q, order));
            assert(search.out.deep_view() =~= search_results(q, order));
        }
    }
    (search.count, search.out)
}

/// All monomorphisms (non-induced subgraph matches) of `pattern` in `host`, each
/// indexed by pattern node with the matched host node, gated by the match tables:
/// `node_ok[v][h]` allows pattern node `v` on host node `h`, `edge_ok[e][f]` allows
/// pattern edge `e` on host edge `f`. Each monomorphism appears once.
pub fn monomorphisms(pattern: &TemplateGraph, host: &TemplateGraph, node_ok: &Vec<Vec<bool>>, edge_ok: &Vec<Vec<bool>>) -> (r: Vec<Vec<usize>>)
    requires
        pattern.is_directed() == host.is_directed(),
        tables_fit(*pattern, *host, Some(node_ok.deep_view()), Some(edge_ok.deep_view())),
    ensures
        r.deep_view().no_duplicates(),
        forall|f: Seq<usize>| #[trigger] r.deep_view().contains(f)
            <==> is_embedding(query(*pattern, *host, Some(node_ok.deep_view()), Some(edge_ok.deep_view())), f),
{
    let (_c, out) = run_search(pattern, host, Some(node_ok), Some(edge_ok), false);
    out
}

/// All monomorphisms of `pattern` in `host` on structure alone. See [`monomorphisms`].
pub fn monomorphisms_unlabelled(pattern: &TemplateGraph, host: &TemplateGraph) -> (r: Vec<Vec<usize>>)
    requires
        pattern.is_directed() == host.is_directed(),
    ensures
        r.deep_view().no_duplicates(),
        forall|f: Seq<usize>| #[trigger] r.deep_view().contains(f) <==> is_embedding(query(*pattern, *host, None, None), f),
{
    let (_c, out) = run_search(pattern, host, None, None, false);
    out
}

/// The number of monomorphisms of `pattern` in `host` under the match tables,
/// counted without materializing them. See [`monomorphisms`].
pub fn count_monomorphisms(pattern: &TemplateGraph, host: &TemplateGraph, node_ok: &Vec<Vec<bool>>, edge_ok: &Vec<Vec<bool>>) -> (r: usize)
    requires
        pattern.is_directed() == host.is_directed(),
        tables_fit(*pattern, *host, Some(node_ok.deep_view()), Some(edge_ok.deep_view())),
        embeddings(query(*pattern, *host, Some(node_ok.deep_view()), Some(edge_ok.deep_view()))).len() <= usize::MAX,
    ensures
        embeddings(query(*pattern, *host, Some(node_ok.deep_view()), Some(edge_ok.deep_view()))).finite(),
        r == embeddings(query(*pattern, *host, Some(node_ok.deep_view()), Some(edge_ok.deep_view()))).len(),
{
    let (c, _out) = run_search(pattern, host, Some(node_ok), Some(edge_ok), true);
    c
}

/// The number of monomorphisms of `pattern` in `host` on structure alone.
pub fn count_monomorphisms_unlabelled(pattern: &TemplateGraph, host: &TemplateGraph) -> (r: usize)
    requires
        pattern.is_directed() == host.is_directed(),
        embeddings(query(*pattern, *host, None, None)).len() <= usize::MAX,
    ensures
        embeddings(query(*pattern, *host, None, None)).finite(),
        r == embeddings(query(*pattern, *host, None, None)).len(),
{
    let (c, _out) = run_search(pattern, host, None, None, true);
    c
}

} // verus!
