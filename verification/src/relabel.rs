//! The census does not depend on how the vertices are numbered: renaming the
//! vertices of a graph by a permutation keeps every class count.
use vstd::prelude::*;
use vstd::set_lib::{lemma_map_size, lemma_len_subset};
use vstd::relations::injective_on;
use crate::model::{is_perm, inverse, lemma_inverse, relabels, id_seq, lemma_id_seq, lemma_canon_of_isomorphic, connected_set, crosses, below};
use crate::canonical::list_adj;
use crate::esu::{simple_graph, conn_k_sets, is_conn_k_set, valid_out, esu_all, sets_of, lemma_esu_all, lemma_count_sets};
use crate::census::{census_count, set_class, seq_class, local_adj, lemma_seq_class_of_set};

verus! {

/// `h` is `g` with every vertex `v` renamed `p[v]`.
pub open spec fn renamed(g: Seq<Seq<usize>>, h: Seq<Seq<usize>>, p: Seq<usize>) -> bool {
    &&& h.len() == g.len()
    &&& is_perm(p, g.len())
    &&& forall|a: usize, b: usize| a < g.len() && b < g.len() ==> #[trigger] list_adj(h)(p[a as int], p[b as int]) == list_adj(g)(a, b)
}

/// The vertex set `s` renamed by `p`.
pub open spec fn rename_set(s: Set<usize>, p: Seq<usize>) -> Set<usize> {
    s.map(|x: usize| p[x as int])
}

/// Renaming carries a connected `k`-set to a connected `k`-set of the same class.
proof fn lemma_rename_conn(g: Seq<Seq<usize>>, h: Seq<Seq<usize>>, p: Seq<usize>, k: nat, s: Set<usize>)
    requires
        simple_graph(g),
        simple_graph(h),
        renamed(g, h, p),
        1 <= k <= 11,
        is_conn_k_set(g, k, s),
    ensures
        is_conn_k_set(h, k, rename_set(s, p)),
        set_class(h, k, rename_set(s, p)) == set_class(g, k, s),
{
    let n = g.len();
    let f = |x: usize| p[x as int];
    let s2 = rename_set(s, p);
    assert(injective_on(f, s)) by {
        assert forall|x1: usize, x2: usize| s.contains(x1) && s.contains(x2) && #[trigger] f(x1) == #[trigger] f(x2) implies x1 == x2 by {
            assert(below(n).contains(x1) && below(n).contains(x2));
        }
    }
    lemma_map_size(s, s2, f);
    assert(s2.subset_of(below(n))) by {
        assert forall|y: usize| s2.contains(y) implies below(n).contains(y) by {
            let x = choose|x: usize| s.contains(x) && y == f(x);
            assert(below(n).contains(x));
        }
    }
    assert forall|t2: Set<usize>| t2.subset_of(s2) && t2.len() > 0 && t2.finite() && t2 != s2 implies #[trigger] crosses(t2, s2, list_adj(h)) by {
        let t = s.filter(|x: usize| t2.contains(f(x)));
        s.lemma_len_filter(|x: usize| t2.contains(f(x)));
        let y0 = t2.choose();
        assert(t2.contains(y0));
        let x0 = choose|x: usize| s.contains(x) && y0 == f(x);
        assert(t.contains(x0));
        if forall|y: usize| s2.contains(y) ==> t2.contains(y) {
            assert(t2 =~= s2);
        }
        let y1 = choose|y: usize| s2.contains(y) && !t2.contains(y);
        let x1 = choose|x: usize| s.contains(x) && y1 == f(x);
        assert(!t.contains(x1));
        assert(t != s);
        assert(crosses(t, s, list_adj(g)));
        let (a, b) = choose|a: usize, b: usize| t.contains(a) && s.contains(b) && !t.contains(b) && #[trigger] list_adj(g)(a, b);
        assert(below(n).contains(a) && below(n).contains(b));
        assert(list_adj(h)(f(a), f(b)));
        assert(s2.contains(f(b)));
    }
    assert(is_conn_k_set(h, k, s2));
    // the class, through a listing of `s`
    lemma_esu_all(g, k);
    assert(sets_of(esu_all(g, k)).to_set().contains(s));
    let i = choose|i: int| 0 <= i < sets_of(esu_all(g, k)).len() && sets_of(esu_all(g, k))[i] == s;
    let q = esu_all(g, k)[i];
    assert(valid_out(g, k, q));
    assert(q.to_set() == s);
    let q2 = q.map_values(|x: usize| p[x as int]);
    assert(q2.no_duplicates()) by {
        assert forall|a: int, b: int| 0 <= a < q2.len() && 0 <= b < q2.len() && a != b implies q2[a] != q2[b] by {
            assert(q[a] != q[b]);
        }
    }
    assert(q2.to_set() =~= s2) by {
        assert forall|y: usize| q2.to_set().contains(y) <==> s2.contains(y) by {
            if q2.contains(y) {
                let a = choose|a: int| 0 <= a < q2.len() && q2[a] == y;
                assert(s.contains(q[a]));
            }
            if s2.contains(y) {
                let x = choose|x: usize| s.contains(x) && y == f(x);
                assert(q.contains(x));
                let a = choose|a: int| 0 <= a < q.len() && q[a] == x;
                assert(q2[a] == y);
            }
        }
    }
    lemma_seq_class_of_set(g, k, q);
    lemma_seq_class_of_set(h, k, q2);
    let l1 = local_adj(g, q);
    let l2 = local_adj(h, q2);
    let id = id_seq(k);
    lemma_id_seq(k);
    assert forall|a: usize, b: usize| a < k && b < k && a != b implies #[trigger] l2(a, b) == l1(id[a as int], id[b as int]) by {
        assert(q[a as int] < n && q[b as int] < n);
    }
    assert(relabels(id, k, l1, l2));
    lemma_canon_of_isomorphic(k, l1, l2);
}

/// Renaming the vertices of a graph by a permutation keeps the number of connected
/// induced `k`-node subgraphs of every class: the census does not depend on how the
/// vertices are numbered.
pub proof fn law_census_renamed(g: Seq<Seq<usize>>, h: Seq<Seq<usize>>, p: Seq<usize>, k: nat, c: nat)
    requires
        simple_graph(g),
        simple_graph(h),
        renamed(g, h, p),
        1 <= k <= 11,
    ensures
        census_count(h, k, c) == census_count(g, k, c),
{
    let n = g.len();
    let f = |s: Set<usize>| rename_set(s, p);
    let a = conn_k_sets(g, k).filter(|s: Set<usize>| set_class(g, k, s) == c);
    let b = conn_k_sets(h, k).filter(|s: Set<usize>| set_class(h, k, s) == c);
    lemma_esu_all(g, k);
    lemma_count_sets(esu_all(g, k), |s: Set<usize>| true);
    conn_k_sets(g, k).lemma_len_filter(|s: Set<usize>| set_class(g, k, s) == c);
    lemma_inverse(p, n);
    let ip = inverse(p, n);
    assert(renamed(h, g, ip)) by {
        assert forall|a2: usize, b2: usize| a2 < n && b2 < n implies #[trigger] list_adj(g)(ip[a2 as int], ip[b2 as int]) == list_adj(h)(a2, b2) by {
            let a1 = ip[a2 as int];
            let b1 = ip[b2 as int];
            assert(p[a1 as int] == a2 && p[b1 as int] == b2);
            assert(list_adj(h)(p[a1 as int], p[b1 as int]) == list_adj(g)(a1, b1));
        }
    }
    assert forall|s: Set<usize>| a.contains(s) implies b.contains(f(s)) by {
        lemma_rename_conn(g, h, p, k, s);
    }
    assert forall|s2: Set<usize>| b.contains(s2) implies a.map(f).contains(s2) by {
        lemma_rename_conn(h, g, ip, k, s2);
        let s = rename_set(s2, ip);
        assert(a.contains(s));
        assert(f(s) =~= s2) by {
            assert(is_conn_k_set(h, k, s2));
            assert forall|y: usize| f(s).contains(y) <==> s2.contains(y) by {
                if s2.contains(y) {
                    assert(below(n).contains(y));
                    assert(s.contains(ip[y as int]));
                    assert(p[ip[y as int] as int] == y);
                }
                if f(s).contains(y) {
                    let x = choose|x: usize| s.contains(x) && y == p[x as int];
                    let z = choose|z: usize| s2.contains(z) && x == ip[z as int];
                    assert(below(n).contains(z));
                }
            }
        }
    }
    assert forall|s2: Set<usize>| a.map(f).contains(s2) implies b.contains(s2) by {
        let s = choose|s: Set<usize>| a.contains(s) && s2 == f(s);
    }
    assert(a.map(f) =~= b);
    assert(injective_on(f, a)) by {
        assert forall|s1: Set<usize>, s2: Set<usize>| a.contains(s1) && a.contains(s2) && #[trigger] f(s1) == #[trigger] f(s2) implies s1 == s2 by {
            assert(is_conn_k_set(g, k, s1) && is_conn_k_set(g, k, s2));
            assert forall|x: usize| s1.contains(x) implies s2.contains(x) by {
                assert(f(s1).contains(p[x as int]));
                let z = choose|z: usize| s2.contains(z) && p[x as int] == p[z as int];
                assert(below(n).contains(x) && below(n).contains(z));
            }
            assert forall|x: usize| s2.contains(x) implies s1.contains(x) by {
                assert(f(s2).contains(p[x as int]));
                let z = choose|z: usize| s1.contains(z) && p[x as int] == p[z as int];
                assert(below(n).contains(x) && below(n).contains(z));
            }
            assert(s1 =~= s2);
        }
    }
    lemma_map_size(a, b, f);
}

} // verus!
