//! Column totals of graphlet-degree vectors: summed over every node, the degrees in
//! one orbit count each induced copy of the orbit's graphlet once per vertex of
//! that orbit.
use vstd::prelude::*;
use vstd::set_lib::lemma_map_size;
use vstd::relations::injective_on;
use vstd::arithmetic::power2::lemma2_to64_rest;
use crate::model::{is_perm, inverse, lemma_inverse, symmetric_on, canon, lemma_canon, mask_val, lemma_mask_val_bound};
use crate::canonical::list_adj;
use crate::esu::{simple_graph, valid_out, esu_all, count_where, lemma_esu_all};
use crate::census::{local_adj, seq_class, census_count, class_is, lemma_seq_class_connected, lemma_listed_census};
use crate::orbit::{Registry, count_eq, canon_arr, orbit_of, in_orbit, gdv_count, is_arrangement, ORBIT_MAX_K};

verus! {

/// How many of `0..n` satisfy `f`.
pub open spec fn count_below(n: nat, f: spec_fn(int) -> bool) -> nat
    decreases n,
{
    if n == 0 {
        0
    } else {
        count_below((n - 1) as nat, f) + (if f(n - 1) { 1nat } else { 0nat })
    }
}

/// The indices `0..n` that satisfy `f`.
pub open spec fn indices_where(n: nat, f: spec_fn(int) -> bool) -> Set<int> {
    Set::new(|i: int| 0 <= i < n && f(i))
}

proof fn lemma_count_below_set(n: nat, f: spec_fn(int) -> bool)
    ensures
        indices_where(n, f).finite(),
        indices_where(n, f).len() == count_below(n, f),
    decreases n,
{
    if n == 0 {
        assert(indices_where(n, f) =~= Set::empty());
    } else {
        let m = (n - 1) as nat;
        lemma_count_below_set(m, f);
        if f(m as int) {
            assert(indices_where(n, f) =~= indices_where(m, f).insert(m as int));
        } else {
            assert(indices_where(n, f) =~= indices_where(m, f));
        }
    }
}

proof fn lemma_count_below_ext(n: nat, f1: spec_fn(int) -> bool, f2: spec_fn(int) -> bool)
    requires
        forall|i: int| 0 <= i < n ==> #[trigger] f1(i) == f2(i),
    ensures
        count_below(n, f1) == count_below(n, f2),
    decreases n,
{
    if n > 0 {
        lemma_count_below_ext((n - 1) as nat, f1, f2);
    }
}

proof fn lemma_count_eq_below(s: Seq<usize>, v: usize)
    ensures
        count_eq(s, v) == count_below(s.len(), |j: int| s[j] == v),
    decreases s.len(),
{
    if s.len() > 0 {
        let t = s.drop_last();
        lemma_count_eq_below(t, v);
        lemma_count_below_ext(t.len(), |j: int| t[j] == v, |j: int| s[j] == v);
    }
}

/// How many of the vertices `0..n` occupy orbit `o` in the listed subgraph `q`.
pub open spec fn orbit_hits(reg: Registry, g: Seq<Seq<usize>>, k: nat, o: usize, q: Seq<usize>, n: nat) -> nat {
    count_below(n, |x: int| in_orbit(reg, g, k, x as usize, o)(q))
}

/// `orbit_hits` summed over the listed subgraphs `qs`.
pub open spec fn hits_over(reg: Registry, g: Seq<Seq<usize>>, k: nat, o: usize, qs: Seq<Seq<usize>>, n: nat) -> nat
    decreases qs.len(),
{
    if qs.len() == 0 {
        0
    } else {
        orbit_hits(reg, g, k, o, qs[0], n) + hits_over(reg, g, k, o, qs.drop_first(), n)
    }
}

/// The graphlet degrees of order `k` in orbit `o`, summed over the vertices `0..n`.
pub open spec fn column_of_order(reg: Registry, g: Seq<Seq<usize>>, k: nat, o: usize, n: nat) -> nat
    decreases n,
{
    if n == 0 {
        0
    } else {
        column_of_order(reg, g, k, o, (n - 1) as nat) + count_where(esu_all(g, k), in_orbit(reg, g, k, (n - 1) as usize, o))
    }
}

/// The graphlet degrees in orbit `o`, summed over the vertices `0..n`.
pub open spec fn orbit_total(reg: Registry, g: Seq<Seq<usize>>, o: usize, n: nat) -> nat
    decreases n,
{
    if n == 0 {
        0
    } else {
        orbit_total(reg, g, o, (n - 1) as nat) + gdv_count(reg, g, (n - 1) as usize, o)
    }
}

proof fn lemma_total_split(reg: Registry, g: Seq<Seq<usize>>, o: usize, n: nat)
    ensures
        orbit_total(reg, g, o, n) == column_of_order(reg, g, 2, o, n) + column_of_order(reg, g, 3, o, n)
            + column_of_order(reg, g, 4, o, n) + column_of_order(reg, g, 5, o, n),
    decreases n,
{
    if n > 0 {
        lemma_total_split(reg, g, o, (n - 1) as nat);
    }
}

proof fn lemma_hits_zero(reg: Registry, g: Seq<Seq<usize>>, k: nat, o: usize, qs: Seq<Seq<usize>>)
    ensures
        hits_over(reg, g, k, o, qs, 0) == 0,
    decreases qs.len(),
{
    if qs.len() > 0 {
        lemma_hits_zero(reg, g, k, o, qs.drop_first());
    }
}

proof fn lemma_hits_step(reg: Registry, g: Seq<Seq<usize>>, k: nat, o: usize, qs: Seq<Seq<usize>>, n: nat)
    ensures
        hits_over(reg, g, k, o, qs, n + 1) == hits_over(reg, g, k, o, qs, n) + count_where(qs, in_orbit(reg, g, k, n as usize, o)),
    decreases qs.len(),
{
    if qs.len() > 0 {
        lemma_hits_step(reg, g, k, o, qs.drop_first(), n);
    }
}

/// Summing over vertices then subgraphs equals summing over subgraphs then vertices.
proof fn lemma_column_hits(reg: Registry, g: Seq<Seq<usize>>, k: nat, o: usize, n: nat)
    ensures
        column_of_order(reg, g, k, o, n) == hits_over(reg, g, k, o, esu_all(g, k), n),
    decreases n,
{
    if n == 0 {
        lemma_hits_zero(reg, g, k, o, esu_all(g, k));
    } else {
        lemma_column_hits(reg, g, k, o, (n - 1) as nat);
        lemma_hits_step(reg, g, k, o, esu_all(g, k), (n - 1) as nat);
    }
}

/// The class of a listed connected subgraph is a registered class, and its vertices
/// occupy orbit `o` as often as the slots of that class carry `o`.
proof fn lemma_hits_one(reg: Registry, g: Seq<Seq<usize>>, k: nat, o: usize, q: Seq<usize>)
    requires
        reg.well_formed(),
        simple_graph(g),
        2 <= k <= ORBIT_MAX_K,
        valid_out(g, k, q),
    ensures
        seq_class(g, k, q) as u64 as nat == seq_class(g, k, q),
        reg.registered(k as usize, seq_class(g, k, q) as u64),
        orbit_hits(reg, g, k, o, q, g.len()) == count_eq(reg.slots_of(k as usize, seq_class(g, k, q) as u64), o),
{
    let n = g.len();
    let l = local_adj(g, q);
    let cls = seq_class(g, k, q);
    let c64 = cls as u64;
    lemma_seq_class_connected(g, k, q);
    lemma_canon(k, l);
    let p = choose|p: Seq<usize>| is_perm(p, k) && canon(k, l) == #[trigger] mask_val(k, p, l);
    lemma_mask_val_bound(k, p, l);
    lemma2_to64_rest();
    assert(cls == mask_val(k, p, l));
    assert(cls < 0x100_0000_0000_0000);
    assert(c64 as nat == cls);
    reg.lemma_connected_registered(k as usize, c64);
    assert(is_arrangement(k, l, p));
    let ca = canon_arr(g, k, q);
    assert(is_arrangement(k, l, ca));
    lemma_inverse(ca, k);
    let inv = inverse(ca, k);
    let slots = reg.slots_of(k as usize, c64);
    let fx = |x: int| in_orbit(reg, g, k, x as usize, o)(q);
    let fj = |j: int| slots[j] == o;
    let xs = indices_where(n, fx);
    let js = indices_where(k, fj);
    lemma_count_below_set(n, fx);
    lemma_count_below_set(k, fj);
    lemma_count_eq_below(slots, o);
    lemma_count_below_ext(k, |j: int| slots[j] == o, fj);
    let m = |x: int| inv[q.index_of(x as usize)] as int;
    assert forall|j: int| js.contains(j) implies xs.map(m).contains(j) by {
        let i = ca[j] as int;
        let x = q[i];
        assert(q.contains(x));
        assert(q.index_of(x) == i) by {
            let i2 = q.index_of(x);
            assert(0 <= i2 < q.len() && q[i2] == x);
        }
        assert(inv[i] == j);
        assert(x < n);
        assert(orbit_of(reg, g, k, q, x) == slots[inv[i] as int]);
        assert(xs.contains(x as int));
        assert(m(x as int) == j);
    }
    assert forall|y: int| xs.map(m).contains(y) implies js.contains(y) by {
        let x = choose|x: int| xs.contains(x) && y == m(x);
        let xu = x as usize;
        assert(q.contains(xu));
        let i = q.index_of(xu);
        assert(0 <= i < q.len() && q[i] == xu);
        assert(orbit_of(reg, g, k, q, xu) == slots[inv[i] as int]);
    }
    assert(xs.map(m) =~= js);
    assert(injective_on(m, xs)) by {
        assert forall|x1: int, x2: int| xs.contains(x1) && xs.contains(x2) && #[trigger] m(x1) == #[trigger] m(x2) implies x1 == x2 by {
            let u1 = x1 as usize;
            let u2 = x2 as usize;
            assert(q.contains(u1) && q.contains(u2));
            let i1 = q.index_of(u1);
            let i2 = q.index_of(u2);
            assert(0 <= i1 < q.len() && q[i1] == u1);
            assert(0 <= i2 < q.len() && q[i2] == u2);
            assert(ca[inv[i1] as int] == i1);
            assert(ca[inv[i2] as int] == i2);
        }
    }
    lemma_map_size(xs, js, m);
}

/// Over listed connected subgraphs of order `k`, orbit `o` is met `size` times in
/// each subgraph of the orbit's class, and never in any other.
proof fn lemma_hits_classes(reg: Registry, g: Seq<Seq<usize>>, k: nat, o: usize, qs: Seq<Seq<usize>>)
    requires
        reg.well_formed(),
        simple_graph(g),
        2 <= k <= ORBIT_MAX_K,
        o < reg.orbits().len(),
        forall|i: int| 0 <= i < qs.len() ==> valid_out(g, k, #[trigger] qs[i]),
    ensures
        hits_over(reg, g, k, o, qs, g.len()) == (if k == reg.orbits()[o as int].0 {
            count_where(qs, class_is(g, k, reg.orbits()[o as int].1 as nat)) * reg.orbits()[o as int].2
        } else {
            0
        }),
    decreases qs.len(),
{
    if qs.len() > 0 {
        let q = qs[0];
        let tail = qs.drop_first();
        let (kk, cc, ss) = reg.orbits()[o as int];
        assert forall|i: int| 0 <= i < tail.len() implies valid_out(g, k, #[trigger] tail[i]) by {
            assert(tail[i] == qs[i + 1]);
        }
        lemma_hits_classes(reg, g, k, o, tail);
        assert(valid_out(g, k, qs[0]));
        lemma_hits_one(reg, g, k, o, q);
        reg.lemma_orbit_owner(o);
        let c64 = seq_class(g, k, q) as u64;
        let h = orbit_hits(reg, g, k, o, q, g.len());
        let b = count_where(tail, class_is(g, k, cc as nat));
        assert(hits_over(reg, g, k, o, qs, g.len()) == h + hits_over(reg, g, k, o, tail, g.len()));
        assert(count_where(qs, class_is(g, k, cc as nat)) == (if class_is(g, k, cc as nat)(q) { 1nat } else { 0nat }) + b);
        if k == kk && c64 == cc {
            assert(h == ss);
            assert(class_is(g, k, cc as nat)(q));
            assert((1 + b) * ss == ss + b * ss) by (nonlinear_arith);
            assert(hits_over(reg, g, k, o, tail, g.len()) == b * ss);
            assert(hits_over(reg, g, k, o, qs, g.len()) == count_where(qs, class_is(g, k, cc as nat)) * ss);
        } else {
            assert(reg.registered(k as usize, c64));
            assert(h == 0);
            if k == kk {
                assert(!class_is(g, k, cc as nat)(q));
                assert(hits_over(reg, g, k, o, qs, g.len()) == count_where(qs, class_is(g, k, cc as nat)) * ss);
            } else {
                assert(hits_over(reg, g, k, o, qs, g.len()) == 0);
            }
        }
    } else {
        assert(count_where(qs, class_is(g, k, reg.orbits()[o as int].1 as nat)) == 0);
    }
}

proof fn lemma_order_column(reg: Registry, g: Seq<Seq<usize>>, k: nat, o: usize)
    requires
        reg.well_formed(),
        simple_graph(g),
        2 <= k <= ORBIT_MAX_K,
        o < reg.orbits().len(),
    ensures
        column_of_order(reg, g, k, o, g.len()) == (if k == reg.orbits()[o as int].0 {
            count_where(esu_all(g, k), class_is(g, k, reg.orbits()[o as int].1 as nat)) * reg.orbits()[o as int].2
        } else {
            0
        }),
{
    lemma_column_hits(reg, g, k, o, g.len());
    lemma_esu_all(g, k);
    lemma_hits_classes(reg, g, k, o, esu_all(g, k));
}

/// Summed over every node, the graphlet degrees in orbit `o` count each induced copy
/// of the orbit's graphlet once per vertex of the orbit:
/// `sum over v of GDV[v][o] == census(class of o) * size(o)`.
pub proof fn law_orbit_totals(reg: Registry, g: Seq<Seq<usize>>, o: usize)
    requires
        reg.well_formed(),
        simple_graph(g),
        o < reg.orbits().len(),
    ensures
        orbit_total(reg, g, o, g.len()) == census_count(g, reg.orbits()[o as int].0 as nat, reg.orbits()[o as int].1 as nat)
            * reg.orbits()[o as int].2,
{
    let n = g.len();
    let (kk, cc, ss) = reg.orbits()[o as int];
    reg.lemma_orbit_owner(o);
    lemma_total_split(reg, g, o, n);
    lemma_order_column(reg, g, 2, o);
    lemma_order_column(reg, g, 3, o);
    lemma_order_column(reg, g, 4, o);
    lemma_order_column(reg, g, 5, o);
    lemma_listed_census(g, kk as nat, cc as nat);
    assert(column_of_order(reg, g, 2, o, n) == (if 2 == kk { count_where(esu_all(g, 2), class_is(g, 2, cc as nat)) * ss } else { 0 }));
    assert(column_of_order(reg, g, 3, o, n) == (if 3 == kk { count_where(esu_all(g, 3), class_is(g, 3, cc as nat)) * ss } else { 0 }));
    assert(column_of_order(reg, g, 4, o, n) == (if 4 == kk { count_where(esu_all(g, 4), class_is(g, 4, cc as nat)) * ss } else { 0 }));
    assert(column_of_order(reg, g, 5, o, n) == (if 5 == kk { count_where(esu_all(g, 5), class_is(g, 5, cc as nat)) * ss } else { 0 }));
}

} // verus!
