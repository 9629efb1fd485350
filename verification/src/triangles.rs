//! Triangles counted two ways: the per-node tallies of adjacent neighbour pairs,
//! and the triangle class of the order-3 census. Every triangle passes through
//! three nodes, so the tallies add up to three times the census count.
use vstd::prelude::*;
use vstd::set_lib::{lemma_map_size, lemma_set_disjoint_lens, lemma_len_subset};
use vstd::relations::injective_on;
use crate::model::{canon, relabels, is_perm, symmetric_on, connected_set, crosses, below, lemma_canon_of_isomorphic, lemma_isomorphic_of_canon};
use crate::canonical::list_adj;
use crate::catalog::complete_rel;
use crate::esu::{simple_graph, conn_k_sets, is_conn_k_set, esu_all, lemma_esu_all, lemma_count_sets, sets_of};
use crate::census::{census_count, set_class, seq_class, local_adj, lemma_seq_class_of_set};
use crate::neighborhood::{triangles_at, triangle_pairs_upto, adjacent_pairs, adjacent_after};

verus! {

/// `x`, `y`, `z` are three distinct, pairwise adjacent vertices of `g`.
pub open spec fn is_triangle(g: Seq<Seq<usize>>, x: usize, y: usize, z: usize) -> bool {
    &&& x < g.len() && y < g.len() && z < g.len()
    &&& x != y && y != z && x != z
    &&& list_adj(g)(x, y) && list_adj(g)(y, z) && list_adj(g)(x, z)
}

/// The vertex set `{x, y, z}`.
pub open spec fn triple(x: usize, y: usize, z: usize) -> Set<usize> {
    Set::empty().insert(x).insert(y).insert(z)
}

/// The vertex sets that the order-3 census files under the triangle class.
pub open spec fn census_triangles(g: Seq<Seq<usize>>) -> Set<Set<usize>> {
    conn_k_sets(g, 3).filter(|s: Set<usize>| set_class(g, 3, s) == canon(3, complete_rel(3)))
}

/// The vertex set of a triangle is a connected 3-set of the triangle class.
proof fn lemma_triangle_in_census(g: Seq<Seq<usize>>, x: usize, y: usize, z: usize)
    requires
        simple_graph(g),
        is_triangle(g, x, y, z),
    ensures
        census_triangles(g).contains(triple(x, y, z)),
{
    let s = triple(x, y, z);
    let q = seq![x, y, z];
    let k3 = complete_rel(3);
    assert(q.to_set() =~= s) by {
        assert forall|a: usize| s.contains(a) implies q.to_set().contains(a) by {
            if a == x { assert(q[0] == a); } else if a == y { assert(q[1] == a); } else { assert(q[2] == a); }
        }
    }
    assert(q.no_duplicates());
    assert(s.len() == 3);
    assert(s.subset_of(below(g.len())));
    assert forall|t: Set<usize>| t.subset_of(s) && t.len() > 0 && t.finite() && t != s implies #[trigger] crosses(t, s, list_adj(g)) by {
        let a = t.choose();
        assert(t.contains(a));
        if forall|b: usize| s.contains(b) ==> t.contains(b) {
            assert(t =~= s);
        }
        let b = choose|b: usize| s.contains(b) && !t.contains(b);
        assert(list_adj(g)(a, b));
    }
    assert(connected_set(s, list_adj(g)));
    assert(is_conn_k_set(g, 3, s));
    lemma_seq_class_of_set(g, 3, q);
    let l = local_adj(g, q);
    let id = seq![0usize, 1, 2];
    assert(is_perm(id, 3));
    assert forall|i: usize, j: usize| i < 3 && j < 3 && i != j implies #[trigger] l(i, j) == k3(id[i as int], id[j as int]) by {
        assert(list_adj(g)(q[i as int], q[j as int]));
    }
    assert(relabels(id, 3, k3, l));
    lemma_canon_of_isomorphic(3, k3, l);
}

/// A set the census files under the triangle class is the vertex set of a triangle.
proof fn lemma_census_is_triangle(g: Seq<Seq<usize>>, s: Set<usize>) -> (r: (usize, usize, usize))
    requires
        simple_graph(g),
        census_triangles(g).contains(s),
    ensures
        is_triangle(g, r.0, r.1, r.2),
        s == triple(r.0, r.1, r.2),
{
    let k3 = complete_rel(3);
    assert(is_conn_k_set(g, 3, s));
    let x = s.choose();
    assert(s.contains(x));
    let s1 = s.remove(x);
    let y = s1.choose();
    assert(s1.contains(y));
    let s2 = s1.remove(y);
    let z = s2.choose();
    assert(s2.contains(z));
    assert(s2.remove(z).len() == 0);
    assert(s2.remove(z) =~= Set::empty());
    assert(s =~= triple(x, y, z)) by {
        assert forall|a: usize| s.contains(a) implies triple(x, y, z).contains(a) by {
            if a != x && a != y && a != z {
                assert(s2.remove(z).contains(a));
            }
        }
    }
    let q = seq![x, y, z];
    assert(q.to_set() =~= s) by {
        assert forall|a: usize| s.contains(a) implies q.to_set().contains(a) by {
            if a == x { assert(q[0] == a); } else if a == y { assert(q[1] == a); } else { assert(q[2] == a); }
        }
    }
    assert(q.no_duplicates());
    lemma_seq_class_of_set(g, 3, q);
    let l = local_adj(g, q);
    assert(symmetric_on(3, l)) by {
        assert forall|i: usize, j: usize| i < 3 && j < 3 implies #[trigger] l(i, j) == l(j, i) by {
            assert(list_adj(g)(q[i as int], q[j as int]) == list_adj(g)(q[j as int], q[i as int]));
        }
    }
    assert(symmetric_on(3, k3));
    lemma_isomorphic_of_canon(3, k3, l);
    let sigma = choose|sigma: Seq<usize>| relabels(sigma, 3, k3, l);
    assert(l(0, 1) == k3(sigma[0], sigma[1]));
    assert(l(1, 2) == k3(sigma[1], sigma[2]));
    assert(l(0, 2) == k3(sigma[0], sigma[2]));
    assert(s.subset_of(below(g.len())));
    assert(below(g.len()).contains(x) && below(g.len()).contains(y) && below(g.len()).contains(z));
    (x, y, z)
}

/// The positions `b` with `a < b < bb` whose entry is adjacent to `nb[a]`.
pub open spec fn after_set(g: Seq<Seq<usize>>, nb: Seq<usize>, a: int, bb: int) -> Set<int> {
    Set::new(|b: int| a < b < bb && list_adj(g)(nb[a], nb[b]))
}

proof fn lemma_after_set(g: Seq<Seq<usize>>, nb: Seq<usize>, a: int, bb: int)
    ensures
        after_set(g, nb, a, bb).finite(),
        after_set(g, nb, a, bb).len() == adjacent_after(g, nb, a, bb),
    decreases bb - a,
{
    if bb <= a + 1 {
        assert(after_set(g, nb, a, bb) =~= Set::empty());
    } else {
        lemma_after_set(g, nb, a, bb - 1);
        if list_adj(g)(nb[a], nb[bb - 1]) {
            assert(after_set(g, nb, a, bb) =~= after_set(g, nb, a, bb - 1).insert(bb - 1));
        } else {
            assert(after_set(g, nb, a, bb) =~= after_set(g, nb, a, bb - 1));
        }
    }
}

/// The position pairs `a < b` of `nb`, with `a < ab`, whose entries are adjacent.
pub open spec fn pair_set(g: Seq<Seq<usize>>, nb: Seq<usize>, ab: int) -> Set<(int, int)> {
    Set::new(|p: (int, int)| 0 <= p.0 < ab && p.0 < p.1 < nb.len() && list_adj(g)(nb[p.0], nb[p.1]))
}

proof fn lemma_pair_set(g: Seq<Seq<usize>>, nb: Seq<usize>, ab: int)
    requires
        0 <= ab,
    ensures
        pair_set(g, nb, ab).finite(),
        pair_set(g, nb, ab).len() == adjacent_pairs(g, nb, ab),
    decreases ab,
{
    if ab == 0 {
        assert(pair_set(g, nb, ab) =~= Set::empty());
    } else {
        let a = ab - 1;
        lemma_pair_set(g, nb, a);
        let after = after_set(g, nb, a, nb.len() as int);
        let f = |b: int| (a, b);
        let row = after.map(f);
        lemma_after_set(g, nb, a, nb.len() as int);
        assert(injective_on(f, after));
        lemma_map_size(after, row, f);
        assert forall|p: (int, int)| #[trigger] pair_set(g, nb, ab).contains(p) <==> (pair_set(g, nb, a) + row).contains(p) by {
            if pair_set(g, nb, ab).contains(p) && p.0 == a {
                assert(after.contains(p.1));
                assert(f(p.1) == p);
            }
        }
        assert(pair_set(g, nb, ab) =~= pair_set(g, nb, a) + row);
        assert(pair_set(g, nb, a).disjoint(row));
        lemma_set_disjoint_lens(pair_set(g, nb, a), row);
    }
}

/// The census triangles through `u`.
pub open spec fn triangles_through(g: Seq<Seq<usize>>, u: usize) -> Set<Set<usize>> {
    census_triangles(g).filter(|s: Set<usize>| s.contains(u))
}

/// The adjacent pairs of `u`'s neighbours are the census triangles through `u`.
proof fn lemma_triangles_at(g: Seq<Seq<usize>>, u: usize)
    requires
        simple_graph(g),
        u < g.len(),
    ensures
        triangles_at(g, u) == triangles_through(g, u).len(),
{
    let nb = g[u as int];
    let ps = pair_set(g, nb, nb.len() as int);
    lemma_pair_set(g, nb, nb.len() as int);
    let tu = triangles_through(g, u);
    let h = |p: (int, int)| triple(u, nb[p.0], nb[p.1]);
    assert forall|p: (int, int)| ps.contains(p) implies tu.contains(h(p)) by {
        let a = p.0;
        let b = p.1;
        assert(nb[a] < g.len() && nb[b] < g.len());
        assert(nb.contains(nb[a]) && nb.contains(nb[b]));
        assert(nb[a] != nb[b]);
        assert(is_triangle(g, u, nb[a], nb[b]));
        lemma_triangle_in_census(g, u, nb[a], nb[b]);
    }
    assert forall|s: Set<usize>| tu.contains(s) implies ps.map(h).contains(s) by {
        let (x, y, z) = lemma_census_is_triangle(g, s);
        assert(s.contains(u));
        let (v, w) = if u == x { (y, z) } else if u == y { (x, z) } else { (x, y) };
        assert(list_adj(g)(u, v) && list_adj(g)(u, w) && list_adj(g)(v, w)) by {
            assert(list_adj(g)(y, x) == list_adj(g)(x, y));
            assert(list_adj(g)(z, y) == list_adj(g)(y, z));
            assert(list_adj(g)(z, x) == list_adj(g)(x, z));
        }
        assert(nb.contains(v) && nb.contains(w));
        let i = nb.index_of(v);
        let j = nb.index_of(w);
        assert(nb[i] == v && nb[j] == w);
        let p = if i < j { (i, j) } else { (j, i) };
        assert(list_adj(g)(w, v) == list_adj(g)(v, w));
        assert(ps.contains(p));
        assert(h(p) =~= s);
    }
    assert forall|s: Set<usize>| ps.map(h).contains(s) implies tu.contains(s) by {
        let p = choose|p: (int, int)| ps.contains(p) && s == h(p);
    }
    assert(ps.map(h) =~= tu);
    assert(injective_on(h, ps)) by {
        assert forall|p1: (int, int), p2: (int, int)| ps.contains(p1) && ps.contains(p2) && #[trigger] h(p1) == #[trigger] h(p2) implies p1 == p2 by {
            let (a1, b1) = p1;
            let (a2, b2) = p2;
            assert(nb.contains(nb[a1]) && nb.contains(nb[b1]) && nb.contains(nb[a2]) && nb.contains(nb[b2]));
            assert(h(p1).contains(nb[a1]) && h(p1).contains(nb[b1]));
            assert(h(p2).contains(nb[a2]) && h(p2).contains(nb[b2]));
            assert(nb[a1] == nb[a2] || nb[a1] == nb[b2]);
            assert(nb[b1] == nb[a2] || nb[b1] == nb[b2]);
            assert(nb[a2] == nb[a1] || nb[a2] == nb[b1]);
            assert(nb[b2] == nb[a1] || nb[b2] == nb[b1]);
        }
    }
    lemma_map_size(ps, tu, h);
}

/// How many of the vertices `0..m` each set of `fam` contains, summed over `fam`.
pub open spec fn through_upto(fam: Set<Set<usize>>, m: int) -> nat
    decreases m,
{
    if m <= 0 {
        0
    } else {
        through_upto(fam, m - 1) + fam.filter(|s: Set<usize>| s.contains((m - 1) as usize)).len()
    }
}

/// How many of the vertices `0..m` lie in `s`.
pub open spec fn members_upto(s: Set<usize>, m: int) -> nat
    decreases m,
{
    if m <= 0 {
        0
    } else {
        members_upto(s, m - 1) + (if s.contains((m - 1) as usize) { 1nat } else { 0nat })
    }
}

proof fn lemma_members_upto(s: Set<usize>, m: int)
    requires
        s.finite(),
        0 <= m <= usize::MAX + 1,
    ensures
        members_upto(s, m) == s.filter(|x: usize| x < m).len(),
    decreases m,
{
    if m == 0 {
        assert(s.filter(|x: usize| x < m) =~= Set::empty());
    } else {
        lemma_members_upto(s, m - 1);
        let lo = s.filter(|x: usize| x < m - 1);
        let hi = s.filter(|x: usize| x < m);
        s.lemma_len_filter(|x: usize| x < m - 1);
        if s.contains((m - 1) as usize) {
            assert(hi =~= lo.insert((m - 1) as usize));
        } else {
            assert(hi =~= lo);
        }
    }
}

proof fn lemma_through_remove(fam: Set<Set<usize>>, s0: Set<usize>, m: int)
    requires
        fam.finite(),
        fam.contains(s0),
    ensures
        through_upto(fam, m) == through_upto(fam.remove(s0), m) + members_upto(s0, m),
    decreases m,
{
    if m > 0 {
        lemma_through_remove(fam, s0, m - 1);
        let x = (m - 1) as usize;
        let rest = fam.remove(s0);
        let fx = fam.filter(|s: Set<usize>| s.contains(x));
        let rx = rest.filter(|s: Set<usize>| s.contains(x));
        rest.lemma_len_filter(|s: Set<usize>| s.contains(x));
        if s0.contains(x) {
            assert(fx =~= rx.insert(s0));
        } else {
            assert(fx =~= rx);
        }
    }
}

/// Each set of a family of 3-sets of `0..n` is met by three of the vertices.
proof fn lemma_through_triples(fam: Set<Set<usize>>, n: int)
    requires
        fam.finite(),
        0 <= n <= usize::MAX + 1,
        forall|s: Set<usize>| #[trigger] fam.contains(s) ==> s.finite() && s.len() == 3 && forall|x: usize| s.contains(x) ==> x < n,
    ensures
        through_upto(fam, n) == 3 * fam.len(),
    decreases fam.len(),
{
    if fam.len() == 0 {
        assert(fam =~= Set::empty());
        lemma_through_empty(fam, n);
    } else {
        let s0 = fam.choose();
        assert(fam.contains(s0));
        lemma_through_remove(fam, s0, n);
        lemma_through_triples(fam.remove(s0), n);
        lemma_members_upto(s0, n);
        assert(s0.filter(|x: usize| x < n) =~= s0);
    }
}

proof fn lemma_through_empty(fam: Set<Set<usize>>, m: int)
    requires
        fam == Set::<Set<usize>>::empty(),
    ensures
        through_upto(fam, m) == 0,
    decreases m,
{
    if m > 0 {
        lemma_through_empty(fam, m - 1);
        assert(fam.filter(|s: Set<usize>| s.contains((m - 1) as usize)) =~= Set::empty());
    }
}

proof fn lemma_pairs_through(g: Seq<Seq<usize>>, m: int)
    requires
        simple_graph(g),
        0 <= m <= g.len(),
    ensures
        triangle_pairs_upto(g, m) == through_upto(census_triangles(g), m),
    decreases m,
{
    if m > 0 {
        lemma_pairs_through(g, m - 1);
        lemma_triangles_at(g, (m - 1) as usize);
        assert(triangles_through(g, (m - 1) as usize) == census_triangles(g).filter(|s: Set<usize>| s.contains((m - 1) as usize)));
    }
}

/// Every triangle passes through three nodes: the per-node tallies of adjacent
/// neighbour pairs add up to three times the number of triangles in the order-3
/// census, so `total_triangles` and `census_triangle_count` agree.
pub proof fn law_triangle_tallies(g: Seq<Seq<usize>>)
    requires
        simple_graph(g),
    ensures
        triangle_pairs_upto(g, g.len() as int) == 3 * census_count(g, 3, canon(3, complete_rel(3))),
{
    let n = g.len() as int;
    let tri = census_triangles(g);
    lemma_pairs_through(g, n);
    lemma_esu_all(g, 3);
    lemma_count_sets(esu_all(g, 3), |s: Set<usize>| true);
    conn_k_sets(g, 3).lemma_len_filter(|s: Set<usize>| set_class(g, 3, s) == canon(3, complete_rel(3)));
    assert forall|s: Set<usize>| #[trigger] tri.contains(s) implies s.finite() && s.len() == 3 && forall|x: usize| s.contains(x) ==> x < n by {
        assert(is_conn_k_set(g, 3, s));
        assert forall|x: usize| s.contains(x) implies x < n by {
            assert(below(g.len()).contains(x));
        }
    }
    lemma_through_triples(tri, n);
}

} // verus!
