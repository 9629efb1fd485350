//! Neighborhood statistics on the integers: common neighbors, preferential
//! attachment, and triangle counts.
use vstd::prelude::*;
use vstd::relations::injective_on;
use crate::canonical::{list_adj, ClassId};
use crate::esu::{conn_k_sets, lemma_esu_all};
use crate::census::{census_count, count, Selector};
use crate::catalog::{Pattern, complete_rel};
use crate::model::canon;
use crate::snapshot::Snapshot;
use crate::adjacency::sorted_strict;

verus! {

/// How many entries of `s` satisfy `p`.
pub open spec fn count_if(s: Seq<usize>, p: spec_fn(usize) -> bool) -> nat
    decreases s.len(),
{
    if s.len() == 0 { 0 } else { count_if(s.drop_last(), p) + (if p(s.last()) { 1nat } else { 0nat }) }
}

/// Counting over a duplicate-free sequence is counting its set.
pub proof fn lemma_count_if_set(s: Seq<usize>, p: spec_fn(usize) -> bool)
    requires
        s.no_duplicates(),
    ensures
        count_if(s, p) == s.to_set().filter(p).len(),
        count_if(s, p) <= s.len(),
    decreases s.len(),
{
    if s.len() == 0 {
        assert(s.to_set() =~= Set::empty());
        assert(s.to_set().filter(p) =~= Set::empty());
    } else {
        let t = s.drop_last();
        let x = s.last();
        assert(t.no_duplicates()) by {
            assert forall|i: int, j: int| 0 <= i < t.len() && 0 <= j < t.len() && i != j implies t[i] != t[j] by {
                assert(t[i] == s[i] && t[j] == s[j]);
            }
        }
        lemma_count_if_set(t, p);
        assert(s.to_set() =~= t.to_set().insert(x)) by {
            assert forall|y: usize| s.to_set().contains(y) <==> t.to_set().insert(x).contains(y) by {
                if s.contains(y) {
                    let i = choose|i: int| 0 <= i < s.len() && s[i] == y;
                    if i < s.len() - 1 { assert(t[i] == y); }
                }
                if t.contains(y) {
                    let i = choose|i: int| 0 <= i < t.len() && t[i] == y;
                    assert(s[i] == y);
                }
                if y == x { assert(s[s.len() - 1] == y); }
            }
        }
        assert(!t.to_set().contains(x)) by {
            if t.contains(x) {
                let i = choose|i: int| 0 <= i < t.len() && t[i] == x;
                assert(s[i] == s[s.len() - 1]);
            }
        }
        if p(x) {
            assert(t.to_set().insert(x).filter(p) =~= t.to_set().filter(p).insert(x));
        } else {
            assert(t.to_set().insert(x).filter(p) =~= t.to_set().filter(p));
        }
    }
}

/// The neighbors of `v`, as a set.
pub open spec fn nbr_set(g: Seq<Seq<usize>>, v: usize) -> Set<usize> {
    g[v as int].to_set()
}

/// Count the common neighbors of `u` and `v`: `|N(u) ∩ N(v)|`.
pub fn common_neighbors<N>(g: &Snapshot<N>, u: usize, v: usize) -> (r: usize)
    requires
        u < g.ids().len(),
        v < g.ids().len(),
    ensures
        r == nbr_set(g.graph(), u).intersect(nbr_set(g.graph(), v)).len(),
{
    let adj = g.adjacency();
    let ghost gr = adj.graph();
    proof { adj.lemma_graph(); }
    let nv = g.neighbors(v);
    let ghost p = |w: usize| list_adj(gr)(u, w);
    let mut c: usize = 0;
    let mut t: usize = 0;
    while t < nv.len()
        invariant
            t <= nv@.len(),
            nv@ == gr[v as int],
            gr == g.graph(),
            u < g.ids().len(),
            p == (|w: usize| list_adj(gr)(u, w)),
            c == count_if(nv@.take(t as int), p),
            c <= t,
        decreases nv@.len() - t,
    {
        let w = nv[t];
        proof { assert(nv@.take(t + 1).drop_last() =~= nv@.take(t as int)); }
        if g.adjacent(u, w) {
            c += 1;
        }
        t += 1;
    }
    proof {
        assert(nv@.take(nv@.len() as int) =~= nv@);
        lemma_count_if_set(nv@, p);
        assert(nv@.to_set().filter(p) =~= nbr_set(gr, u).intersect(nbr_set(gr, v)));
    }
    c
}

/// The common neighbors of `u` and `v`, in `v`'s (ascending) neighbor order.
pub fn common_neighbor_list<N>(g: &Snapshot<N>, u: usize, v: usize) -> (r: Vec<usize>)
    requires
        u < g.ids().len(),
        v < g.ids().len(),
    ensures
        r@ == g.graph()[v as int].filter(|w: usize| list_adj(g.graph())(u, w)),
{
    let ghost gr = g.graph();
    let nv = g.neighbors(v);
    let ghost p = |w: usize| list_adj(gr)(u, w);
    let mut r: Vec<usize> = Vec::new();
    let mut t: usize = 0;
    while t < nv.len()
        invariant
            t <= nv@.len(),
            nv@ == gr[v as int],
            gr == g.graph(),
            u < g.ids().len(),
            p == (|w: usize| list_adj(gr)(u, w)),
            r@ == nv@.take(t as int).filter(p),
        decreases nv@.len() - t,
    {
        let w = nv[t];
        proof {
            assert(nv@.take(t + 1).drop_last() =~= nv@.take(t as int));
            reveal(Seq::filter);
            assert(nv@.take(t + 1).last() == w);
        }
        if g.adjacent(u, w) {
            r.push(w);
        }
        t += 1;
    }
    proof {
        assert(nv@.take(nv@.len() as int) =~= nv@);
    }
    r
}

/// The nodes of degree above `k`, and the edges among them, counted up to node `m`:
/// `(rich nodes below m, edges u–w with u < m, u < w, both rich)`.
pub open spec fn rich_counts_upto(g: Seq<Seq<usize>>, k: nat, m: int) -> (nat, nat)
    decreases m,
{
    if m <= 0 {
        (0, 0)
    } else {
        let (r, e) = rich_counts_upto(g, k, m - 1);
        let u = m - 1;
        if g[u].len() > k {
            (r + 1, e + count_if(g[u], |w: usize| u < w && w < g.len() && g[w as int].len() > k))
        } else {
            (r, e)
        }
    }
}

/// Node `v` is rich at threshold `k`: its degree is above `k`.
pub open spec fn rich(g: Seq<Seq<usize>>, k: nat, v: usize) -> bool {
    v < g.len() && g[v as int].len() > k
}

/// The rich nodes below `m`.
pub open spec fn rich_nodes(g: Seq<Seq<usize>>, k: nat, m: int) -> Set<usize> {
    Set::new(|v: usize| v < m && rich(g, k, v))
}

/// The edges `{u, w}` (as `(u, w)` with `u < w`) joining two rich nodes, with `u < m`.
pub open spec fn rich_edges(g: Seq<Seq<usize>>, k: nat, m: int) -> Set<(usize, usize)> {
    Set::new(|p: (usize, usize)| p.0 < m && p.0 < p.1 && rich(g, k, p.0) && rich(g, k, p.1) && list_adj(g)(p.0, p.1))
}

/// The rich-club counts are the number of rich nodes and the number of edges
/// between two rich nodes, each such edge counted once.
pub proof fn law_rich_club(g: Seq<Seq<usize>>, k: nat)
    requires
        crate::esu::simple_graph(g),
    ensures
        rich_nodes(g, k, g.len() as int).finite(),
        rich_edges(g, k, g.len() as int).finite(),
        rich_counts_upto(g, k, g.len() as int).0 == rich_nodes(g, k, g.len() as int).len(),
        rich_counts_upto(g, k, g.len() as int).1 == rich_edges(g, k, g.len() as int).len(),
{
    lemma_rich_upto(g, k, g.len() as int);
}

proof fn lemma_rich_upto(g: Seq<Seq<usize>>, k: nat, m: int)
    requires
        crate::esu::simple_graph(g),
        0 <= m <= g.len(),
    ensures
        rich_nodes(g, k, m).finite(),
        rich_edges(g, k, m).finite(),
        rich_counts_upto(g, k, m).0 == rich_nodes(g, k, m).len(),
        rich_counts_upto(g, k, m).1 == rich_edges(g, k, m).len(),
    decreases m,
{
    if m == 0 {
        assert(rich_nodes(g, k, 0) =~= Set::empty());
        assert(rich_edges(g, k, 0) =~= Set::empty());
    } else {
        let u = (m - 1) as usize;
        lemma_rich_upto(g, k, m - 1);
        let n0 = rich_nodes(g, k, m - 1);
        let e0 = rich_edges(g, k, m - 1);
        if rich(g, k, u) {
            assert(rich_nodes(g, k, m) =~= n0.insert(u));
            let row = g[u as int];
            let pr = |w: usize| (u as int) < w && w < g.len() && g[w as int].len() > k;
            let f = |w: usize| (u, w);
            let ws = row.to_set().filter(pr);
            let t = ws.map(f);
            lemma_count_if_set(row, pr);
            assert(injective_on(f, ws)) by {
                assert forall|a: usize, b: usize| ws.contains(a) && ws.contains(b) && #[trigger] f(a) == #[trigger] f(b) implies a == b by {}
            }
            vstd::set_lib::lemma_map_size(ws, t, f);
            assert(rich_edges(g, k, m) =~= e0 + t) by {
                assert forall|p: (usize, usize)| rich_edges(g, k, m).contains(p) <==> (e0 + t).contains(p) by {
                    if rich_edges(g, k, m).contains(p) && p.0 == u {
                        assert(row.contains(p.1));
                        assert(ws.contains(p.1));
                        assert(t.contains(f(p.1)));
                    }
                    if t.contains(p) {
                        let w = choose|w: usize| ws.contains(w) && f(w) == p;
                        assert(row.to_set().contains(w));
                        assert(list_adj(g)(u, w));
                    }
                }
            }
            assert(e0.disjoint(t));
            vstd::set_lib::lemma_set_disjoint_lens(e0, t);
        } else {
            assert(rich_nodes(g, k, m) =~= n0);
            assert(rich_edges(g, k, m) =~= e0);
        }
    }
}

proof fn lemma_sorted_ge_index(v: Seq<usize>, i: int)
    requires
        sorted_strict(v),
        0 <= i < v.len(),
    ensures
        v[i] >= i,
    decreases i,
{
    if i > 0 {
        lemma_sorted_ge_index(v, i - 1);
    }
}

/// A strictly increasing list of numbers below `b` has at most `b` entries.
pub(crate) proof fn lemma_sorted_below(v: Seq<usize>, b: nat)
    requires
        sorted_strict(v),
        forall|i: int| 0 <= i < v.len() ==> (#[trigger] v[i]) < b,
    ensures
        v.len() <= b,
{
    if v.len() > 0 {
        lemma_sorted_ge_index(v, v.len() - 1);
    }
}

/// Rich-club counts at degree threshold `k`: the number of nodes of degree above
/// `k`, and the number of edges joining two of them.
pub fn rich_club_counts<N>(g: &Snapshot<N>, k: usize) -> (r: (usize, usize))
    requires
        g.ids().len() * g.ids().len() <= usize::MAX,
    ensures
        r.0 == rich_counts_upto(g.graph(), k as nat, g.ids().len() as int).0,
        r.1 == rich_counts_upto(g.graph(), k as nat, g.ids().len() as int).1,
        r.0 == rich_nodes(g.graph(), k as nat, g.ids().len() as int).len(),
        r.1 == rich_edges(g.graph(), k as nat, g.ids().len() as int).len(),
{
    let ghost gr = g.graph();
    let adj = g.adjacency();
    let n = g.len();
    let mut nr: usize = 0;
    let mut e: usize = 0;
    let mut u: usize = 0;
    while u < n
        invariant
            gr == g.graph(),
            n == gr.len(),
            n == g.ids().len(),
            n * n <= usize::MAX,
            crate::esu::simple_graph(gr),
            u <= n,
            (nr as nat, e as nat) == rich_counts_upto(gr, k as nat, u as int),
            nr <= u,
            e <= u * n,
        decreases n - u,
    {
        let nb = g.neighbors(u);
        if nb.len() > k {
            let ghost p = |w: usize| (u as int) < w && w < gr.len() && gr[w as int].len() > k;
            let mut c: usize = 0;
            let mut t: usize = 0;
            while t < nb.len()
                invariant
                    gr == g.graph(),
                    n == gr.len(),
                    n == g.ids().len(),
                    crate::esu::simple_graph(gr),
                    u < n,
                    nb@ == gr[u as int],
                    t <= nb@.len(),
                    p == (|w: usize| (u as int) < w && w < gr.len() && gr[w as int].len() > k),
                    c == count_if(nb@.take(t as int), p),
                    c <= t,
                decreases nb@.len() - t,
            {
                let w = nb[t];
                proof {
                    assert(nb@.take(t + 1).drop_last() =~= nb@.take(t as int));
                    assert(gr[u as int][t as int] == w);
                }
                if u < w && g.neighbors(w).len() > k {
                    c += 1;
                }
                t += 1;
            }
            proof {
                assert(nb@.take(nb@.len() as int) =~= nb@);
                lemma_count_if_set(nb@, p);
                lemma_sorted_below(nb@, n as nat);
                assert((u + 1) * n == u * n + n) by (nonlinear_arith);
                assert((u + 1) * n <= n * n) by (nonlinear_arith) requires u < n;
            }
            nr += 1;
            e += c;
        } else {
            proof {
                assert(u * n <= (u + 1) * n) by (nonlinear_arith);
            }
        }
        u += 1;
    }
    proof { law_rich_club(gr, k as nat); }
    (nr, e)
}

/// Preferential attachment score: `deg(u) * deg(v)`.
pub fn preferential_attachment<N>(g: &Snapshot<N>, u: usize, v: usize) -> (r: usize)
    requires
        u < g.ids().len(),
        v < g.ids().len(),
        g.graph()[u as int].len() * g.graph()[v as int].len() <= usize::MAX,
    ensures
        r == g.graph()[u as int].len() * g.graph()[v as int].len(),
{
    g.neighbors(u).len() * g.neighbors(v).len()
}

/// The number of pairs of entries at positions `a < b < bb`, `a < ab` of the list
/// `nb` that are adjacent in `g`.
pub open spec fn adjacent_pairs(g: Seq<Seq<usize>>, nb: Seq<usize>, ab: int) -> nat
    decreases ab,
{
    if ab <= 0 {
        0
    } else {
        adjacent_pairs(g, nb, ab - 1) + adjacent_after(g, nb, ab - 1, nb.len() as int)
    }
}

/// The number of positions `b` with `a < b < bb` whose entry is adjacent to `nb[a]`.
pub open spec fn adjacent_after(g: Seq<Seq<usize>>, nb: Seq<usize>, a: int, bb: int) -> nat
    decreases bb - a,
{
    if bb <= a + 1 {
        0
    } else {
        adjacent_after(g, nb, a, bb - 1) + (if list_adj(g)(nb[a], nb[bb - 1]) { 1nat } else { 0nat })
    }
}

/// The triangles through `v`: pairs of its neighbors that are adjacent.
pub open spec fn triangles_at(g: Seq<Seq<usize>>, v: usize) -> nat {
    adjacent_pairs(g, g[v as int], g[v as int].len() as int)
}

proof fn lemma_adjacent_after_le(g: Seq<Seq<usize>>, nb: Seq<usize>, a: int, bb: int)
    ensures
        adjacent_after(g, nb, a, bb) <= if bb > a { bb - a } else { 0 },
    decreases bb - a,
{
    if bb > a + 1 {
        lemma_adjacent_after_le(g, nb, a, bb - 1);
    }
}

proof fn lemma_adjacent_pairs_mono(g: Seq<Seq<usize>>, nb: Seq<usize>, a: int, b: int)
    requires
        a <= b,
    ensures
        adjacent_pairs(g, nb, a) <= adjacent_pairs(g, nb, b),
    decreases b - a,
{
    if a < b {
        lemma_adjacent_pairs_mono(g, nb, a, b - 1);
    }
}

/// Count the triangles through node index `u`: pairs of distinct neighbors of `u`
/// that are adjacent. Each triangle is counted once.
pub fn node_triangles<N>(g: &Snapshot<N>, u: usize) -> (r: usize)
    requires
        u < g.ids().len(),
        triangles_at(g.graph(), u) <= usize::MAX,
    ensures
        r == triangles_at(g.graph(), u),
{
    let adj = g.adjacency();
    let ghost gr = adj.graph();
    proof { adj.lemma_graph(); }
    let nbrs = g.neighbors(u);
    let ghost nb = nbrs@;
    let ghost total = triangles_at(gr, u);
    let mut t: usize = 0;
    let mut a: usize = 0;
    while a < nbrs.len()
        invariant
            a <= nb.len(),
            nbrs@ == nb,
            nb == gr[u as int],
            gr == g.graph(),
            gr.len() == g.ids().len(),
            forall|i: int| 0 <= i < nb.len() ==> (#[trigger] nb[i]) < gr.len(),
            total == adjacent_pairs(gr, nb, nb.len() as int),
            total <= usize::MAX,
            t == adjacent_pairs(gr, nb, a as int),
        decreases nb.len() - a,
    {
        proof { lemma_adjacent_pairs_mono(gr, nb, a + 1, nb.len() as int); }
        let mut b: usize = a + 1;
        while b < nbrs.len()
            invariant
                a < nb.len(),
                a + 1 <= b <= nb.len(),
                nbrs@ == nb,
                gr == g.graph(),
                gr.len() == g.ids().len(),
                forall|i: int| 0 <= i < nb.len() ==> (#[trigger] nb[i]) < gr.len(),
                adjacent_pairs(gr, nb, a as int) + adjacent_after(gr, nb, a as int, nb.len() as int) <= usize::MAX,
                t == adjacent_pairs(gr, nb, a as int) + adjacent_after(gr, nb, a as int, b as int),
            decreases nb.len() - b,
        {
            proof { lemma_adjacent_after_mono(gr, nb, a as int, b + 1, nb.len() as int); }
            if g.adjacent(nbrs[a], nbrs[b]) {
                t += 1;
            }
            b += 1;
        }
        a += 1;
    }
    t
}

proof fn lemma_adjacent_after_mono(g: Seq<Seq<usize>>, nb: Seq<usize>, a: int, b: int, c: int)
    requires
        b <= c,
    ensures
        adjacent_after(g, nb, a, b) <= adjacent_after(g, nb, a, c),
    decreases c - b,
{
    if b < c {
        lemma_adjacent_after_mono(g, nb, a, b, c - 1);
    }
}

/// The triangle pairs summed over the nodes `0..u`.
pub open spec fn triangle_pairs_upto(g: Seq<Seq<usize>>, u: int) -> nat
    decreases u,
{
    if u <= 0 { 0 } else { triangle_pairs_upto(g, u - 1) + triangles_at(g, (u - 1) as usize) }
}

proof fn lemma_triangle_pairs_mono(g: Seq<Seq<usize>>, a: int, b: int)
    requires
        a <= b,
    ensures
        triangle_pairs_upto(g, a) <= triangle_pairs_upto(g, b),
    decreases b - a,
{
    if a < b {
        lemma_triangle_pairs_mono(g, a, b - 1);
    }
}

/// The number of distinct triangles: the triangles through each node, summed, over 3.
pub fn total_triangles<N>(g: &Snapshot<N>) -> (r: usize)
    requires
        triangle_pairs_upto(g.graph(), g.ids().len() as int) <= usize::MAX,
    ensures
        r == triangle_pairs_upto(g.graph(), g.ids().len() as int) / 3,
{
    let n = g.len();
    let ghost gr = g.graph();
    let mut sum: usize = 0;
    let mut u: usize = 0;
    while u < n
        invariant
            u <= n,
            n == g.ids().len(),
            gr == g.graph(),
            triangle_pairs_upto(gr, n as int) <= usize::MAX,
            sum == triangle_pairs_upto(gr, u as int),
        decreases n - u,
    {
        proof { lemma_triangle_pairs_mono(gr, u + 1, n as int); }
        let t = node_triangles(g, u);
        sum += t;
        u += 1;
    }
    sum / 3
}

/// The number of triangles read off the order-3 census.
pub fn census_triangle_count<N>(g: &Snapshot<N>) -> (r: usize)
    requires
        conn_k_sets(g.graph(), 3).len() < u64::MAX,
        conn_k_sets(g.graph(), 3).len() <= usize::MAX,
    ensures
        r == census_count(g.graph(), 3, canon(3, complete_rel(3))),
{
    let sel = Selector::connected_k_subsets(3);
    let census = count(g, &sel);
    let tri = Pattern::triangle();
    let tri_class = tri.class_id();
    let ghost gr = g.graph();
    let _adj = g.adjacency();
    proof {
        lemma_esu_all(gr, 3);
        crate::catalog::lemma_census_count_le(gr, 3, tri_class.0 as nat);
    }
    match census.get(&tri_class) {
        Some(c) => c as usize,
        None => 0,
    }
}
/// Lexicographic order on index pairs.
pub open spec fn lex_lt(x: (usize, usize), y: (usize, usize)) -> bool {
    x.0 < y.0 || (x.0 == y.0 && x.1 < y.1)
}

/// Every non-adjacent pair `(i, j)` with `i < j`, in lexicographic order: the pairs
/// a link predictor scores.
pub fn non_edge_pairs<N>(g: &Snapshot<N>) -> (r: Vec<(usize, usize)>)
    ensures
        forall|q: int| 0 <= q < r@.len() ==> (#[trigger] r@[q]).0 < r@[q].1 && r@[q].1 < g.graph().len()
            && !list_adj(g.graph())(r@[q].0, r@[q].1),
        forall|a: usize, b: usize| a < b < g.graph().len() && !list_adj(g.graph())(a, b) ==> #[trigger] r@.contains((a, b)),
        forall|p: int, q: int| 0 <= p < q < r@.len() ==> lex_lt(#[trigger] r@[p], #[trigger] r@[q]),
{
    let n = g.len();
    let ghost gr = g.graph();
    let mut r: Vec<(usize, usize)> = Vec::new();
    let mut i: usize = 0;
    while i < n
        invariant
            i <= n,
            n == gr.len(),
            n == g.ids().len(),
            gr == g.graph(),
            forall|q: int| 0 <= q < r@.len() ==> (#[trigger] r@[q]).0 < r@[q].1 && r@[q].1 < n && r@[q].0 < i
                && !list_adj(gr)(r@[q].0, r@[q].1),
            forall|a: usize, b: usize| a < i && a < b < n && !list_adj(gr)(a, b) ==> #[trigger] r@.contains((a, b)),
            forall|p: int, q: int| 0 <= p < q < r@.len() ==> lex_lt(#[trigger] r@[p], #[trigger] r@[q]),
        decreases n - i,
    {
        let mut j: usize = i + 1;
        while j < n
            invariant
                i < n,
                i < j <= n,
                n == gr.len(),
                n == g.ids().len(),
                gr == g.graph(),
                forall|q: int| 0 <= q < r@.len() ==> (#[trigger] r@[q]).0 < r@[q].1 && r@[q].1 < n
                    && (r@[q].0 < i || (r@[q].0 == i && r@[q].1 < j)) && !list_adj(gr)(r@[q].0, r@[q].1),
                forall|a: usize, b: usize| (a < i || (a == i && b < j)) && a < b < n && !list_adj(gr)(a, b)
                    ==> #[trigger] r@.contains((a, b)),
                forall|p: int, q: int| 0 <= p < q < r@.len() ==> lex_lt(#[trigger] r@[p], #[trigger] r@[q]),
            decreases n - j,
        {
            if !g.adjacent(i, j) {
                let ghost old_r = r@;
                r.push((i, j));
                proof {
                    assert(r@[old_r.len() as int] == (i, j));
                    assert forall|a: usize, b: usize| (a < i || (a == i && b < j + 1)) && a < b < n && !list_adj(gr)(a, b)
                        implies #[trigger] r@.contains((a, b)) by {
                        if a == i && b == j {
                            assert(r@[old_r.len() as int] == (a, b));
                        } else {
                            assert(old_r.contains((a, b)));
                            let t = choose|t: int| 0 <= t < old_r.len() && old_r[t] == (a, b);
                            assert(r@[t] == (a, b));
                        }
                    }
                    assert forall|p: int, q: int| 0 <= p < q < r@.len() implies lex_lt(#[trigger] r@[p], #[trigger] r@[q]) by {
                        if q == old_r.len() {
                            assert(r@[p] == old_r[p]);
                        } else {
                            assert(r@[p] == old_r[p] && r@[q] == old_r[q]);
                        }
                    }
                }
            }
            j += 1;
        }
        i += 1;
    }
    r
}
} // verus!
