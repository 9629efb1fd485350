//! Labelled monomorphisms of a pattern, counted through the census: every
//! monomorphism lands on a connected vertex set, and on a set of class `C` the
//! pattern has exactly `s(P, C)` of them, so
//! `#monomorphisms(P in G) == sum over C of census(C) * s(P, C)`.
use vstd::prelude::*;
use vstd::set_lib::{lemma_map_size, lemma_set_disjoint_lens, lemma_len_subset};
use vstd::relations::injective_on;
use vstd::arithmetic::power2::lemma2_to64_rest;
use crate::model::{canon, is_perm, inverse, lemma_inverse, relabels, symmetric_on, mask_val, lemma_mask_val_bound, lemma_canon, connected_set, crosses, below, lemma_id_seq};
use crate::canonical::{list_adj, class_adj, is_connected_class, strictly_sorted, lemma_perm_set_finite};
use crate::catalog::{embeds, embed_count, labelled_sum, connected_classes, lemma_sorted_unique};
use crate::esu::{simple_graph, valid_out, conn_k_sets, is_conn_k_set, esu_all, sets_of, count_where, lemma_esu_all};
use crate::census::{local_adj, seq_class, census_count, class_is, lemma_listed_census, lemma_seq_class_connected, lemma_count_where_push};
use crate::orbit::{canon_arr, is_arrangement, lemma_arrangement};

verus! {

/// `pat` is a connected, symmetric, loop-free pattern on the vertices `0..k`.
pub open spec fn pattern_on(k: nat, pat: spec_fn(usize, usize) -> bool) -> bool {
    &&& forall|i: usize, j: usize| #[trigger] pat(i, j) ==> i < k && j < k && i != j && pat(j, i)
    &&& connected_set(below(k), pat)
}

/// `m` lists `k` distinct vertices of `g` and carries every edge of `pat` onto an
/// edge of `g`: a labelled monomorphism of the pattern into `g`.
pub open spec fn is_monomorphism(g: Seq<Seq<usize>>, k: nat, pat: spec_fn(usize, usize) -> bool, m: Seq<usize>) -> bool {
    &&& m.len() == k
    &&& m.no_duplicates()
    &&& forall|i: int| 0 <= i < k ==> (#[trigger] m[i]) < g.len()
    &&& forall|i: usize, j: usize| i < j && #[trigger] pat(i, j) ==> list_adj(g)(m[i as int], m[j as int])
}

/// The labelled monomorphisms of `pat` into `g`.
pub open spec fn monomorphisms(g: Seq<Seq<usize>>, k: nat, pat: spec_fn(usize, usize) -> bool) -> Set<Seq<usize>> {
    Set::new(|m: Seq<usize>| is_monomorphism(g, k, pat, m))
}

/// The labelled monomorphisms whose image is the vertex set `s`.
pub open spec fn monomorphisms_onto(g: Seq<Seq<usize>>, k: nat, pat: spec_fn(usize, usize) -> bool, s: Set<usize>) -> Set<Seq<usize>> {
    monomorphisms(g, k, pat).filter(|m: Seq<usize>| m.to_set() == s)
}

/// The permutations of `0..k` that carry `pat` into `host`.
pub open spec fn embedding_perms(k: nat, pat: spec_fn(usize, usize) -> bool, host: spec_fn(usize, usize) -> bool) -> Set<Seq<usize>> {
    Set::new(|p: Seq<usize>| is_perm(p, k) && embeds(pat, host, p))
}

/// The listing of the vertices of `q` through an arrangement `a` and a permutation `p`.
pub open spec fn through(q: Seq<usize>, a: Seq<usize>, p: Seq<usize>, k: nat) -> Seq<usize> {
    Seq::new(k, |i: int| q[a[p[i] as int] as int])
}

/// On a listed connected set, the monomorphisms onto it match the permutations that
/// carry the pattern into the class graph of the set: there are `s(P, C)` of them.
proof fn lemma_onto_count(g: Seq<Seq<usize>>, k: nat, pat: spec_fn(usize, usize) -> bool, q: Seq<usize>)
    requires
        simple_graph(g),
        2 <= k <= 5,
        pattern_on(k, pat),
        valid_out(g, k, q),
    ensures
        monomorphisms_onto(g, k, pat, q.to_set()).finite(),
        monomorphisms_onto(g, k, pat, q.to_set()).len() == embed_count(k, pat, class_adj(seq_class(g, k, q), k)),
{
    let l = local_adj(g, q);
    let c = seq_class(g, k, q);
    let host = class_adj(c, k);
    let s = q.to_set();
    let ms = monomorphisms_onto(g, k, pat, s);
    lemma_canon(k, l);
    let p0 = choose|p: Seq<usize>| is_perm(p, k) && canon(k, l) == #[trigger] mask_val(k, p, l);
    assert(is_arrangement(k, l, p0));
    let a = canon_arr(g, k, q);
    assert(is_arrangement(k, l, a));
    assert(symmetric_on(k, l)) by {
        assert forall|i: usize, j: usize| i < k && j < k implies #[trigger] l(i, j) == l(j, i) by {
            assert(list_adj(g)(q[i as int], q[j as int]) == list_adj(g)(q[j as int], q[i as int]));
        }
    }
    lemma_arrangement(k, l, a);
    assert(relabels(a, k, l, host));
    lemma_inverse(a, k);
    let ia = inverse(a, k);
    let ps = embedding_perms(k, pat, host);
    lemma_perm_set_finite(k);
    lemma_len_subset(ps, Set::new(|p: Seq<usize>| is_perm(p, k)));
    let f = |p: Seq<usize>| through(q, a, p, k);
    // every permutation gives a monomorphism onto the set
    assert forall|p: Seq<usize>| ps.contains(p) implies ms.contains(f(p)) by {
        let m = f(p);
        lemma_inverse(p, k);
        assert forall|i: int| 0 <= i < k implies (#[trigger] m[i]) < g.len() by {
            assert(p[i] < k);
            assert(a[p[i] as int] < k);
        }
        assert(m.no_duplicates()) by {
            assert forall|i: int, j: int| 0 <= i < k && 0 <= j < k && i != j implies m[i] != m[j] by {
                assert(p[i] != p[j]);
                assert(a[p[i] as int] != a[p[j] as int]);
            }
        }
        assert forall|i: usize, j: usize| i < j && #[trigger] pat(i, j) implies list_adj(g)(m[i as int], m[j as int]) by {
            assert(host(p[i as int], p[j as int]));
            assert(p[i as int] != p[j as int]);
            assert(host(p[i as int], p[j as int]) == l(a[p[i as int] as int], a[p[j as int] as int]));
        }
        assert(m.to_set() =~= s) by {
            assert forall|x: usize| s.contains(x) implies m.to_set().contains(x) by {
                let t = q.index_of(x);
                assert(0 <= t < k && q[t] == x);
                let i = inverse(p, k)[ia[t] as int];
                assert(p[i as int] == ia[t]);
                assert(a[ia[t] as int] == t);
                assert(m[i as int] == x);
            }
            assert forall|x: usize| m.to_set().contains(x) implies s.contains(x) by {
                let i = choose|i: int| 0 <= i < m.len() && m[i] == x;
                assert(a[p[i] as int] < k);
            }
        }
    }
    // every monomorphism onto the set comes from one permutation
    assert forall|m: Seq<usize>| ms.contains(m) implies ps.map(f).contains(m) by {
        let p = Seq::new(k, |i: int| ia[q.index_of(m[i])]);
        assert forall|i: int| 0 <= i < k implies 0 <= #[trigger] q.index_of(m[i]) < k && q[q.index_of(m[i])] == m[i] by {
            assert(m.to_set().contains(m[i]));
            assert(q.contains(m[i]));
        }
        assert(is_perm(p, k)) by {
            assert forall|i: int| 0 <= i < k implies (#[trigger] p[i]) < k by {
                assert(0 <= q.index_of(m[i]) < k);
            }
            assert forall|i: int, j: int| 0 <= i < k && 0 <= j < k && i != j implies p[i] != p[j] by {
                assert(a[p[i] as int] == q.index_of(m[i]));
                assert(a[p[j] as int] == q.index_of(m[j]));
            }
        }
        assert(embeds(pat, host, p)) by {
            assert forall|i: usize, j: usize| i < j && #[trigger] pat(i, j) implies host(p[i as int], p[j as int]) by {
                assert(i < k && j < k);
                assert(list_adj(g)(m[i as int], m[j as int]));
                assert(a[p[i as int] as int] == q.index_of(m[i as int]));
                assert(a[p[j as int] as int] == q.index_of(m[j as int]));
                assert(p[i as int] != p[j as int]);
                assert(host(p[i as int], p[j as int]) == l(a[p[i as int] as int], a[p[j as int] as int]));
            }
        }
        assert(ps.contains(p));
        assert(f(p) =~= m) by {
            assert forall|i: int| 0 <= i < k implies #[trigger] f(p)[i] == m[i] by {
                assert(a[p[i] as int] == q.index_of(m[i]));
            }
        }
    }
    assert forall|m: Seq<usize>| ps.map(f).contains(m) implies ms.contains(m) by {
        let p = choose|p: Seq<usize>| ps.contains(p) && m == f(p);
    }
    assert(ps.map(f) =~= ms);
    assert(injective_on(f, ps)) by {
        assert forall|p1: Seq<usize>, p2: Seq<usize>| ps.contains(p1) && ps.contains(p2) && #[trigger] f(p1) == #[trigger] f(p2) implies p1 == p2 by {
            assert forall|i: int| 0 <= i < k implies p1[i] == p2[i] by {
                assert(f(p1)[i] == f(p2)[i]);
                assert(a[p1[i] as int] < k && a[p2[i] as int] < k);
                assert(a[p1[i] as int] == a[p2[i] as int]);
                assert(ia[a[p1[i] as int] as int] == p1[i]);
                assert(ia[a[p2[i] as int] as int] == p2[i]);
            }
            assert(p1 =~= p2);
        }
    }
    lemma_map_size(ps, ms, f);
}

/// A monomorphism of a connected pattern lists a connected `k`-set of `g`.
proof fn lemma_image_connected(g: Seq<Seq<usize>>, k: nat, pat: spec_fn(usize, usize) -> bool, m: Seq<usize>)
    requires
        simple_graph(g),
        2 <= k <= 5,
        pattern_on(k, pat),
        is_monomorphism(g, k, pat, m),
    ensures
        valid_out(g, k, m),
{
    let s = m.to_set();
    m.unique_seq_to_set();
    vstd::seq_lib::seq_to_set_is_finite(m);
    lemma_id_seq(k);
    assert(s.subset_of(below(g.len()))) by {
        assert forall|x: usize| s.contains(x) implies below(g.len()).contains(x) by {
            let i = choose|i: int| 0 <= i < m.len() && m[i] == x;
        }
    }
    assert forall|t: Set<usize>| t.subset_of(s) && t.len() > 0 && t.finite() && t != s implies #[trigger] crosses(t, s, list_adj(g)) by {
        let pre = below(k).filter(|i: usize| t.contains(m[i as int]));
        below(k).lemma_len_filter(|i: usize| t.contains(m[i as int]));
        let x0 = t.choose();
        assert(t.contains(x0));
        assert(s.contains(x0));
        let i0 = choose|i: int| 0 <= i < m.len() && m[i] == x0;
        assert(pre.contains(i0 as usize));
        assert(pre.len() > 0);
        if forall|y: usize| s.contains(y) ==> t.contains(y) {
            assert(t =~= s);
        }
        let y0 = choose|y: usize| s.contains(y) && !t.contains(y);
        let j0 = choose|j: int| 0 <= j < m.len() && m[j] == y0;
        assert(!pre.contains(j0 as usize));
        assert(below(k).contains(j0 as usize));
        assert(pre != below(k));
        assert(crosses(pre, below(k), pat));
        let (x, y) = choose|x: usize, y: usize| pre.contains(x) && below(k).contains(y) && !pre.contains(y) && #[trigger] pat(x, y);
        assert(x != y);
        if x < y {
            assert(list_adj(g)(m[x as int], m[y as int]));
        } else {
            assert(pat(y, x));
            assert(list_adj(g)(m[y as int], m[x as int]));
            assert(list_adj(g)(m[x as int], m[y as int]) == list_adj(g)(m[y as int], m[x as int]));
        }
        assert(t.contains(m[x as int]) && s.contains(m[y as int]) && !t.contains(m[y as int]));
    }
    assert(is_conn_k_set(g, k, s));
}

/// The number of pattern embeddings into the class graph of each listed subgraph,
/// summed over the listing.
pub open spec fn embed_total(g: Seq<Seq<usize>>, k: nat, pat: spec_fn(usize, usize) -> bool, qs: Seq<Seq<usize>>) -> nat
    decreases qs.len(),
{
    if qs.len() == 0 {
        0
    } else {
        embed_total(g, k, pat, qs.drop_last()) + embed_count(k, pat, class_adj(seq_class(g, k, qs.last()), k))
    }
}

/// The monomorphisms whose image is one of the first `j` listed sets.
pub open spec fn monomorphisms_upto(g: Seq<Seq<usize>>, k: nat, pat: spec_fn(usize, usize) -> bool, qs: Seq<Seq<usize>>, j: int) -> Set<Seq<usize>> {
    monomorphisms(g, k, pat).filter(|m: Seq<usize>| sets_of(qs).take(j).contains(m.to_set()))
}

proof fn lemma_monomorphisms_upto(g: Seq<Seq<usize>>, k: nat, pat: spec_fn(usize, usize) -> bool, qs: Seq<Seq<usize>>, j: int)
    requires
        simple_graph(g),
        2 <= k <= 5,
        pattern_on(k, pat),
        sets_of(qs).no_duplicates(),
        forall|i: int| 0 <= i < qs.len() ==> valid_out(g, k, #[trigger] qs[i]),
        0 <= j <= qs.len(),
    ensures
        monomorphisms_upto(g, k, pat, qs, j).finite(),
        monomorphisms_upto(g, k, pat, qs, j).len() == embed_total(g, k, pat, qs.take(j)),
    decreases j,
{
    let ss = sets_of(qs);
    if j == 0 {
        assert(monomorphisms_upto(g, k, pat, qs, j) =~= Set::empty());
    } else {
        let i = j - 1;
        lemma_monomorphisms_upto(g, k, pat, qs, i);
        let lo = monomorphisms_upto(g, k, pat, qs, i);
        let on = monomorphisms_onto(g, k, pat, qs[i].to_set());
        lemma_onto_count(g, k, pat, qs[i]);
        assert(ss[i] == qs[i].to_set());
        assert forall|m: Seq<usize>| #[trigger] monomorphisms_upto(g, k, pat, qs, j).contains(m) <==> (lo + on).contains(m) by {
            if monomorphisms_upto(g, k, pat, qs, j).contains(m) {
                let t = choose|t: int| 0 <= t < ss.take(j).len() && ss.take(j)[t] == m.to_set();
                if t < i {
                    assert(ss.take(i)[t] == m.to_set());
                }
            }
            if lo.contains(m) {
                let t = choose|t: int| 0 <= t < ss.take(i).len() && ss.take(i)[t] == m.to_set();
                assert(ss.take(j)[t] == m.to_set());
            }
            if on.contains(m) {
                assert(ss.take(j)[i] == m.to_set());
            }
        }
        assert(monomorphisms_upto(g, k, pat, qs, j) =~= lo + on);
        assert(lo.disjoint(on)) by {
            assert forall|m: Seq<usize>| lo.contains(m) implies !on.contains(m) by {
                let t = choose|t: int| 0 <= t < ss.take(i).len() && ss.take(i)[t] == m.to_set();
                assert(ss[t] == ss[i] ==> t == i);
            }
        }
        lemma_set_disjoint_lens(lo, on);
        assert(qs.take(j).drop_last() =~= qs.take(i));
        assert(qs.take(j).last() == qs[i]);
    }
}

/// `sum over c in cls of count(qs, class c) * s(P, C)`.
pub open spec fn weighted(g: Seq<Seq<usize>>, k: nat, pat: spec_fn(usize, usize) -> bool, qs: Seq<Seq<usize>>, cls: Seq<u64>) -> nat
    decreases cls.len(),
{
    if cls.len() == 0 {
        0
    } else {
        weighted(g, k, pat, qs, cls.drop_last())
            + count_where(qs, class_is(g, k, cls.last() as nat)) * embed_count(k, pat, class_adj(cls.last() as nat, k))
    }
}

/// `x` is one of the classes listed in `cls`.
pub open spec fn listed_class(cls: Seq<u64>, x: nat) -> bool {
    exists|i: int| 0 <= i < cls.len() && cls[i] as nat == x
}

/// `s(P, C)` for the one class of `cls` equal to `x`, or zero.
pub open spec fn weight_of(k: nat, pat: spec_fn(usize, usize) -> bool, cls: Seq<u64>, x: nat) -> nat
    decreases cls.len(),
{
    if cls.len() == 0 {
        0
    } else {
        weight_of(k, pat, cls.drop_last(), x) + (if cls.last() as nat == x { embed_count(k, pat, class_adj(x, k)) } else { 0 })
    }
}

proof fn lemma_weight_of(k: nat, pat: spec_fn(usize, usize) -> bool, cls: Seq<u64>, x: nat)
    requires
        strictly_sorted(cls),
    ensures
        weight_of(k, pat, cls, x) == (if listed_class(cls, x) {
            embed_count(k, pat, class_adj(x, k))
        } else {
            0
        }),
    decreases cls.len(),
{
    if cls.len() > 0 {
        let rest = cls.drop_last();
        assert(strictly_sorted(rest));
        lemma_weight_of(k, pat, rest, x);
        if cls.last() as nat == x {
            assert(cls[cls.len() - 1] as nat == x);
            if exists|i: int| 0 <= i < rest.len() && rest[i] as nat == x {
                let i = choose|i: int| 0 <= i < rest.len() && rest[i] as nat == x;
                assert(cls[i] < cls[cls.len() - 1]);
            }
        } else {
            if exists|i: int| 0 <= i < cls.len() && cls[i] as nat == x {
                let i = choose|i: int| 0 <= i < cls.len() && cls[i] as nat == x;
                assert(i < cls.len() - 1);
                assert(rest[i] as nat == x);
            }
            if exists|i: int| 0 <= i < rest.len() && rest[i] as nat == x {
                let i = choose|i: int| 0 <= i < rest.len() && rest[i] as nat == x;
                assert(cls[i] as nat == x);
            }
        }
    }
}

proof fn lemma_weighted_push(g: Seq<Seq<usize>>, k: nat, pat: spec_fn(usize, usize) -> bool, qs: Seq<Seq<usize>>, q: Seq<usize>, cls: Seq<u64>)
    ensures
        weighted(g, k, pat, qs.push(q), cls) == weighted(g, k, pat, qs, cls) + weight_of(k, pat, cls, seq_class(g, k, q)),
    decreases cls.len(),
{
    if cls.len() > 0 {
        let c = cls.last();
        lemma_weighted_push(g, k, pat, qs, q, cls.drop_last());
        lemma_count_where_push(qs, q, class_is(g, k, c as nat));
        let a = count_where(qs, class_is(g, k, c as nat));
        let e = embed_count(k, pat, class_adj(c as nat, k));
        assert((a + 1) * e == a * e + e) by (nonlinear_arith);
    }
}

proof fn lemma_weighted_total(g: Seq<Seq<usize>>, k: nat, pat: spec_fn(usize, usize) -> bool, qs: Seq<Seq<usize>>, cls: Seq<u64>)
    requires
        strictly_sorted(cls),
        forall|i: int| 0 <= i < qs.len() ==> listed_class(cls, seq_class(g, k, #[trigger] qs[i])),
    ensures
        weighted(g, k, pat, qs, cls) == embed_total(g, k, pat, qs),
    decreases qs.len(),
{
    if qs.len() == 0 {
        lemma_weighted_empty(g, k, pat, qs, cls);
    } else {
        let rest = qs.drop_last();
        assert forall|i: int| 0 <= i < rest.len() implies listed_class(cls, seq_class(g, k, #[trigger] rest[i])) by {
            assert(rest[i] == qs[i]);
        }
        lemma_weighted_total(g, k, pat, rest, cls);
        assert(rest.push(qs.last()) =~= qs);
        lemma_weighted_push(g, k, pat, rest, qs.last(), cls);
        assert(qs.last() == qs[qs.len() - 1]);
        lemma_weight_of(k, pat, cls, seq_class(g, k, qs.last()));
    }
}

proof fn lemma_weighted_empty(g: Seq<Seq<usize>>, k: nat, pat: spec_fn(usize, usize) -> bool, qs: Seq<Seq<usize>>, cls: Seq<u64>)
    requires
        qs.len() == 0,
    ensures
        weighted(g, k, pat, qs, cls) == 0,
    decreases cls.len(),
{
    if cls.len() > 0 {
        lemma_weighted_empty(g, k, pat, qs, cls.drop_last());
        assert(count_where(qs, class_is(g, k, cls.last() as nat)) == 0);
    }
}

proof fn lemma_weighted_census(g: Seq<Seq<usize>>, k: nat, pat: spec_fn(usize, usize) -> bool, cls: Seq<u64>)
    requires
        simple_graph(g),
        2 <= k <= 5,
    ensures
        weighted(g, k, pat, esu_all(g, k), cls) == labelled_sum(g, k, pat, cls),
    decreases cls.len(),
{
    if cls.len() > 0 {
        lemma_weighted_census(g, k, pat, cls.drop_last());
        lemma_listed_census(g, k, cls.last() as nat);
    }
}

/// Grouped by the class of the vertex set it lands on, every labelled monomorphism
/// of a connected pattern is one of the `s(P, C)` embeddings of the pattern into
/// its class `C`: `#monomorphisms(P in G) == sum over C of census(C) * s(P, C)`.
/// (`cls` is the ascending list of the connected classes of order `k`.)
pub proof fn law_monomorphisms_by_census(g: Seq<Seq<usize>>, k: nat, pat: spec_fn(usize, usize) -> bool, cls: Seq<u64>)
    requires
        simple_graph(g),
        2 <= k <= 5,
        pattern_on(k, pat),
        strictly_sorted(cls),
        forall|c: u64| #[trigger] cls.contains(c) <==> is_connected_class(k, c as nat),
    ensures
        monomorphisms(g, k, pat).finite(),
        monomorphisms(g, k, pat).len() == labelled_sum(g, k, pat, cls),
        labelled_sum(g, k, pat, cls) == labelled_sum(g, k, pat, connected_classes(k)),
{
    let es = esu_all(g, k);
    lemma_esu_all(g, k);
    lemma_monomorphisms_upto(g, k, pat, es, es.len() as int);
    assert(es.take(es.len() as int) =~= es);
    assert(monomorphisms_upto(g, k, pat, es, es.len() as int) =~= monomorphisms(g, k, pat)) by {
        assert forall|m: Seq<usize>| monomorphisms(g, k, pat).contains(m) implies sets_of(es).take(es.len() as int).contains(m.to_set()) by {
            lemma_image_connected(g, k, pat, m);
            assert(conn_k_sets(g, k).contains(m.to_set()));
            assert(sets_of(es).to_set().contains(m.to_set()));
            assert(sets_of(es).take(es.len() as int) =~= sets_of(es));
        }
    }
    assert forall|i: int| 0 <= i < es.len() implies listed_class(cls, seq_class(g, k, #[trigger] es[i])) by {
        let q = es[i];
        let l = local_adj(g, q);
        assert(valid_out(g, k, q));
        lemma_seq_class_connected(g, k, q);
        lemma_canon(k, l);
        let p = choose|p: Seq<usize>| is_perm(p, k) && canon(k, l) == #[trigger] mask_val(k, p, l);
        lemma_mask_val_bound(k, p, l);
        lemma2_to64_rest();
        let c = seq_class(g, k, q) as u64;
        assert(c as nat == seq_class(g, k, q));
        assert(cls.contains(c));
        let t = choose|t: int| 0 <= t < cls.len() && cls[t] == c;
        assert(cls[t] as nat == seq_class(g, k, q));
    }
    lemma_weighted_total(g, k, pat, es, cls);
    lemma_weighted_census(g, k, pat, cls);
    let chosen = connected_classes(k);
    assert(strictly_sorted(chosen) && forall|c: u64| #[trigger] chosen.contains(c) <==> is_connected_class(k, c as nat));
    lemma_sorted_unique(chosen, cls);
}

} // verus!
