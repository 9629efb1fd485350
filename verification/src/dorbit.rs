//! Per-node directed orbit attribution: directed graphlet-degree vectors.
//!
//! Two nodes of one directed graphlet are in the same orbit when a direction-preserving
//! automorphism maps one to the other. Every node of every weakly connected subgraph of
//! order `2..=4` is attributed to its orbit through a canonical arrangement; which
//! arrangement is used does not matter (see [`lemma_darrangement_orbit`]).
use vstd::prelude::*;
use vstd::arithmetic::power2::pow2;
use crate::model::{
    is_perm, id_seq, lemma_id_seq, compose, lemma_compose_perm, inverse, lemma_inverse,
    relabels, lemma_relabel_inverse, bits_val, lemma_bits_val_injective, lemma_bits_val_bound,
    below, connected_set,
};
use crate::dmodel::{
    dcanon, dmask_val, dmask_bits, dpair_seq, dpair_index, lemma_dpair_seq_len,
    lemma_dpairs_upto_shape, lemma_dpair_at_index, lemma_dcanon,
};
use crate::dcanonical::{
    DMASK_K, dclass_arc, und_of, class_to_arcs, mask_of_fn, canonical_arg_fn,
    all_weakly_connected_classes, is_weak_class, out_lists_wf,
};
use crate::canonical::{perms, all_perms, list_adj, vec_contains, mask_bit, strictly_sorted};
use crate::orbit::{
    is_aut, same_orbit, first_of_orbit, orbits_before, orbit_labels, count_eq, lemma_bits_of_value,
    orbit_labels_from, lemma_last_first, lemma_sorted_len, lemma_orbits_before_mono,
    lemma_orbits_before_le, lemma_count_eq_le, lemma_count_eq_shift, lemma_index_bound,
    lemma_row_bound, lemma_index_unique, subsets_below, lemma_subsets_below_mono,
    lemma_label_met, lemma_count_eq_pos,
};
use crate::esu::{SubsetSink, simple_graph, valid_out, esu_all, count_where, for_each_subset, lemma_esu_all};
use crate::census::lemma_count_where_push;
use crate::dcensus::{local_arc, dseq_class, lemma_dseq_class_weak};
use crate::dsnapshot::DirectedSnapshot;

verus! {

// ---------------------------------------------------------------------------
// Class masks and canonical arrangements
// ---------------------------------------------------------------------------

/// The identity arrangement of a directed class's graph reads back the class mask.
pub proof fn lemma_dclass_arc_mask(c: nat, k: nat)
    requires
        1 <= k <= 5,
        c < pow2(dpair_seq(k).len()),
    ensures
        dmask_val(k, id_seq(k), dclass_arc(c, k)) == c,
{
    lemma_dpair_seq_len(k);
    lemma_dpairs_upto_shape(k, k);
    let n = dpair_seq(k).len();
    let bits = dmask_bits(k, id_seq(k), dclass_arc(c, k));
    assert forall|b: int| 0 <= b < n implies #[trigger] bits[b] == mask_bit(c, b) by {
        let pr = dpair_seq(k)[b];
        assert(pr.0 != pr.1 && pr.0 < k && pr.1 < k);
        assert(id_seq(k)[pr.0 as int] == pr.0 && id_seq(k)[pr.1 as int] == pr.1);
    }
    assert(bits =~= Seq::new(n, |b: int| mask_bit(c, b)));
    lemma_bits_of_value(c, n);
}

/// A permutation is a directed automorphism of a class's graph exactly when it leaves
/// the class mask unchanged.
pub proof fn lemma_daut_of_mask(c: nat, k: nat, p: Seq<usize>)
    requires
        1 <= k <= 5,
        c < pow2(dpair_seq(k).len()),
        is_perm(p, k),
    ensures
        (dmask_val(k, p, dclass_arc(c, k)) == c) == is_aut(k, dclass_arc(c, k), p),
{
    let kk = dclass_arc(c, k);
    let id = id_seq(k);
    lemma_dclass_arc_mask(c, k);
    lemma_dpair_seq_len(k);
    lemma_dpairs_upto_shape(k, k);
    if dmask_val(k, p, kk) == c {
        lemma_bits_val_injective(dmask_bits(k, p, kk), dmask_bits(k, id, kk));
        assert forall|i: usize, j: usize| i < k && j < k && i != j implies #[trigger] kk(i, j) == kk(p[i as int], p[j as int]) by {
            lemma_dpair_at_index(k, i as nat, j as nat);
            let b = dpair_index(k, i as nat, j as nat);
            assert(dmask_bits(k, p, kk)[b] == dmask_bits(k, id, kk)[b]);
            assert(id[i as int] == i && id[j as int] == j);
        }
    }
    if is_aut(k, kk, p) {
        assert forall|b: int| 0 <= b < dpair_seq(k).len() implies #[trigger] dmask_bits(k, p, kk)[b] == dmask_bits(k, id, kk)[b] by {
            let pr = dpair_seq(k)[b];
            assert(pr.0 != pr.1 && pr.0 < k && pr.1 < k);
            assert(kk(pr.0, pr.1) == kk(p[pr.0 as int], p[pr.1 as int]));
        }
        assert(dmask_bits(k, p, kk) =~= dmask_bits(k, id, kk));
    }
}

/// `a` is a canonical arrangement of the `k`-vertex directed graph `l`.
pub open spec fn is_darrangement(k: nat, l: spec_fn(usize, usize) -> bool, a: Seq<usize>) -> bool {
    is_perm(a, k) && dmask_val(k, a, l) == dcanon(k, l)
}

/// A canonical arrangement carries `l` onto its class graph: slot `c` holds the vertex
/// `a[c]`.
pub proof fn lemma_darrangement(k: nat, l: spec_fn(usize, usize) -> bool, a: Seq<usize>)
    requires
        1 <= k <= 5,
        is_darrangement(k, l, a),
    ensures
        dcanon(k, l) < pow2(dpair_seq(k).len()),
        relabels(a, k, l, dclass_arc(dcanon(k, l), k)),
{
    let c = dcanon(k, l);
    let kk = dclass_arc(c, k);
    let id = id_seq(k);
    lemma_dpair_seq_len(k);
    lemma_dpairs_upto_shape(k, k);
    lemma_bits_val_bound(dmask_bits(k, a, l));
    lemma_dclass_arc_mask(c, k);
    lemma_bits_val_injective(dmask_bits(k, a, l), dmask_bits(k, id, kk));
    assert forall|i: usize, j: usize| i < k && j < k && i != j implies #[trigger] kk(i, j) == l(a[i as int], a[j as int]) by {
        lemma_dpair_at_index(k, i as nat, j as nat);
        let b = dpair_index(k, i as nat, j as nat);
        assert(dmask_bits(k, a, l)[b] == dmask_bits(k, id, kk)[b]);
        assert(id[i as int] == i && id[j as int] == j);
    }
}

/// Any two canonical arrangements put each vertex in slots of one directed orbit of
/// the class graph: orbit attribution does not depend on the arrangement chosen.
pub proof fn lemma_darrangement_orbit(k: nat, l: spec_fn(usize, usize) -> bool, a1: Seq<usize>, a2: Seq<usize>, i: usize)
    requires
        1 <= k <= 5,
        is_darrangement(k, l, a1),
        is_darrangement(k, l, a2),
        i < k,
    ensures
        same_orbit(k, dclass_arc(dcanon(k, l), k), inverse(a2, k)[i as int], inverse(a1, k)[i as int]),
{
    let kk = dclass_arc(dcanon(k, l), k);
    lemma_darrangement(k, l, a1);
    lemma_darrangement(k, l, a2);
    lemma_relabel_inverse(a1, k, l, kk);
    let inv1 = inverse(a1, k);
    let inv2 = inverse(a2, k);
    lemma_inverse(a1, k);
    lemma_inverse(a2, k);
    let tau = compose(inv1, a2);
    lemma_compose_perm(inv1, a2, k);
    assert forall|c: usize, d: usize| c < k && d < k && c != d implies #[trigger] kk(c, d) == kk(tau[c as int], tau[d as int]) by {
        assert(kk(c, d) == l(a2[c as int], a2[d as int]));
        assert(a2[c as int] != a2[d as int]);
        assert(l(a2[c as int], a2[d as int]) == kk(inv1[a2[c as int] as int], inv1[a2[d as int] as int]));
    }
    assert(is_aut(k, kk, tau));
    assert(tau[inv2[i as int] as int] == inv1[i as int]);
}

// ---------------------------------------------------------------------------
// Orbit labels of one class
// ---------------------------------------------------------------------------

/// The automorphisms of the class graph, as permutations.
fn dclass_automorphisms(class: u64, k: usize) -> (autos: Vec<Vec<usize>>)
    requires
        1 <= k <= DMASK_K,
        class < pow2(dpair_seq(k as nat).len()),
    ensures
        forall|p: Seq<usize>| #[trigger] autos.deep_view().contains(p) <==> is_aut(k as nat, dclass_arc(class as nat, k as nat), p),
{
    let ghost kk = dclass_arc(class as nat, k as nat);
    let adj = class_to_arcs(class, k);
    let ps = perms(k);
    let ghost dv = ps.deep_view();
    let mut autos: Vec<Vec<usize>> = Vec::new();
    let mut t: usize = 0;
    while t < ps.len()
        invariant
            1 <= k <= DMASK_K,
            class < pow2(dpair_seq(k as nat).len()),
            t <= ps@.len(),
            dv == ps.deep_view(),
            all_perms(dv, k as nat),
            adj@.len() == k,
            list_adj(adj.deep_view()) == kk,
            kk == dclass_arc(class as nat, k as nat),
            forall|p: Seq<usize>| #[trigger] autos.deep_view().contains(p) <==> (dv.take(t as int).contains(p) && is_aut(k as nat, kk, p)),
        decreases ps@.len() - t,
    {
        let p = &ps[t];
        proof {
            assert(p@ == dv[t as int]);
            assert(dv.contains(dv[t as int]));
            lemma_daut_of_mask(class as nat, k as nat, p@);
        }
        let is_adj = |i: usize, j: usize| -> (r: bool)
            requires
                i < adj@.len(),
            ensures
                r == list_adj(adj.deep_view())(i, j),
        {
            assert(adj@[i as int]@ == adj.deep_view()[i as int]);
            vec_contains(&adj[i], j)
        };
        let m = mask_of_fn(k, p.as_slice(), is_adj, Ghost(kk));
        let ghost a0 = autos.deep_view();
        if m == class {
            let c = p.clone();
            assert(c@ =~= p@);
            autos.push(c);
            proof {
                assert(autos.deep_view() =~= a0.push(p@));
            }
        }
        proof {
            assert(dv.take(t + 1) =~= dv.take(t as int).push(dv[t as int]));
            assert forall|q: Seq<usize>| #[trigger] autos.deep_view().contains(q) <==> (dv.take(t + 1).contains(q) && is_aut(k as nat, kk, q)) by {
                crate::esu::lemma_push_contains_seq(dv.take(t as int), dv[t as int], q);
                if m == class {
                    crate::esu::lemma_push_contains_seq(a0, p@, q);
                }
            }
        }
        t += 1;
    }
    proof {
        assert(dv.take(dv.len() as int) =~= dv);
        assert forall|p: Seq<usize>| #[trigger] autos.deep_view().contains(p) <==> is_aut(k as nat, kk, p) by {
            if is_aut(k as nat, kk, p) {
                assert(dv.contains(p));
            }
        }
    }
    autos
}

/// Partition the slots of the class's canonical graph into automorphism orbits,
/// numbered densely in order of first appearance.
pub fn dorbit_partition(class: u64, k: usize) -> (lab: Vec<usize>)
    requires
        1 <= k <= DMASK_K,
        class < pow2(dpair_seq(k as nat).len()),
    ensures
        orbit_labels(k as nat, dclass_arc(class as nat, k as nat), lab@),
{
    let ghost kk = dclass_arc(class as nat, k as nat);
    let autos = dclass_automorphisms(class, k);
    orbit_labels_from(&autos, k, Ghost(kk))
}


// ---------------------------------------------------------------------------
// The orbit registry
// ---------------------------------------------------------------------------

/// The largest directed graphlet order attributed to orbits.
pub const DORBIT_MAX_K: usize = 4;

/// One registered class: its order, mask, first global orbit id and the global orbit
/// id of each canonical slot.
struct DRegEntry {
    k: usize,
    class: u64,
    base: usize,
    slots: Vec<usize>,
}

/// The number of orbits of a registered class.
pub open spec fn dn_orbits(k: usize, class: u64) -> nat {
    orbits_before(k as nat, dclass_arc(class as nat, k as nat), k as nat)
}

/// `slots` gives each slot the id `base` plus its dense orbit label.
pub open spec fn dslots_ok(k: usize, class: u64, base: usize, slots: Seq<usize>) -> bool {
    &&& 2 <= k <= DORBIT_MAX_K
    &&& class < pow2(dpair_seq(k as nat).len())
    &&& is_weak_class(k as nat, class as nat)
    &&& slots.len() == k
    &&& forall|c: int| 0 <= c < k ==> #[trigger] slots[c] >= base
    &&& orbit_labels(k as nat, dclass_arc(class as nat, k as nat), Seq::new(k as nat, |c: int| (slots[c] - base) as usize))
}

/// The registry's entries and orbit table agree.
spec fn dregistry_ok(es: Seq<DRegEntry>, info: Seq<(usize, u64, usize)>) -> bool {
    &&& forall|e: int| 0 <= e < es.len() ==> dslots_ok(
        (#[trigger] es[e]).k, es[e].class, es[e].base, es[e].slots@)
    &&& es.len() > 0 ==> es[0].base == 0
    &&& forall|e: int| 0 <= e < es.len() - 1 ==> #[trigger] es[e + 1].base
        == es[e].base + dn_orbits(es[e].k, es[e].class)
    &&& info.len() == (if es.len() == 0 { 0 } else {
        es.last().base + dn_orbits(es.last().k, es.last().class) })
    &&& forall|e: int, l: int| 0 <= e < es.len() && 0 <= l < dn_orbits(es[e].k, es[e].class)
        ==> #[trigger] info[es[e].base + l] == (es[e].k, es[e].class,
            count_eq(es[e].slots@, (es[e].base + l) as usize) as usize)
    &&& forall|e: int, f: int| 0 <= e < f < es.len() ==> (#[trigger] es[e]).k < (#[trigger] es[f]).k
        || (es[e].k == es[f].k && es[e].class < es[f].class)
    &&& forall|k: usize, c: u64| 2 <= k <= DORBIT_MAX_K && #[trigger] is_weak_class(k as nat, c as nat)
        ==> exists|e: int| 0 <= e < es.len() && #[trigger] es[e].k == k && es[e].class == c
}

/// The directed automorphism-orbit registry for orders `2..=4`: a dense global orbit
/// id for every (weakly connected class, local orbit), ordered by order, then class
/// mask, then local orbit.
pub struct DirectedRegistry {
    entries: Vec<DRegEntry>,
    orbit_info: Vec<(usize, u64, usize)>,
}

/// The registry entry of one class: its slot ids (from `base`) and the size of each
/// of its orbits.
fn dmake_entry(k: usize, class: u64, base: usize) -> (r: (DRegEntry, Vec<usize>))
    requires
        2 <= k <= DORBIT_MAX_K,
        class < pow2(dpair_seq(k as nat).len()),
        is_weak_class(k as nat, class as nat),
        base <= 70000,
    ensures
        r.0.k == k,
        r.0.class == class,
        r.0.base == base,
        dslots_ok(k, class, base, r.0.slots@),
        dn_orbits(k, class) <= 5,
        r.1@.len() == dn_orbits(k, class),
        forall|l: int| 0 <= l < r.1@.len() ==> #[trigger] r.1@[l] == count_eq(r.0.slots@, (base + l) as usize),
{
    let ghost kk = dclass_arc(class as nat, k as nat);
    let part = dorbit_partition(class, k);
    proof { lemma_orbits_before_le(k as nat, kk, k as nat); }
    let mut mx: usize = 0;
    let mut i: usize = 0;
    while i < k
        invariant
            i <= k,
            2 <= k <= DORBIT_MAX_K,
            mx < k,
            forall|c: int| 0 <= c < k ==> #[trigger] part@[c] < k,
            part@.len() == k,
            forall|c: int| 0 <= c < i ==> #[trigger] part@[c] <= mx,
            i > 0 ==> exists|c: int| 0 <= c < i && #[trigger] part@[c] == mx,
            i == 0 ==> mx == 0,
        decreases k - i,
    {
        if part[i] > mx {
            mx = part[i];
        }
        i += 1;
    }
    let n_local = mx + 1;
    proof {
        assert(part@[0] <= mx);
        let nn = orbits_before(k as nat, kk, k as nat);
        let c0 = choose|c: int| 0 <= c < k && #[trigger] part@[c] == mx;
        assert(part@[c0] < nn);
        assert(first_of_orbit(k as nat, kk, 0));
        assert(nn >= 1) by {
            lemma_orbits_before_mono(k as nat, kk, 1, k as nat);
            assert(orbits_before(k as nat, kk, 0) == 0);
        }
        lemma_last_first(k as nat, kk, k as nat);
        let cl = choose|c: usize| c < k && #[trigger] first_of_orbit(k as nat, kk, c) && orbits_before(k as nat, kk, c as nat) + 1 == nn;
        assert(part@[cl as int] == nn - 1);
        assert(n_local == nn);
    }
    let mut sizes: Vec<usize> = Vec::new();
    let mut o: usize = 0;
    while o < n_local
        invariant
            o <= n_local,
            sizes@.len() == o,
            forall|j: int| 0 <= j < o ==> #[trigger] sizes@[j] == 0,
        decreases n_local - o,
    {
        sizes.push(0);
        o += 1;
    }
    assert(forall|j: int| 0 <= j < n_local ==> #[trigger] sizes@[j] == count_eq(part@.take(0), j as usize));
    let mut i: usize = 0;
    while i < k
        invariant
            i <= k,
            part@.len() == k,
            sizes@.len() == n_local,
            n_local <= k,
            forall|c: int| 0 <= c < k ==> #[trigger] part@[c] < n_local,
            forall|j: int| 0 <= j < n_local ==> #[trigger] sizes@[j] == count_eq(part@.take(i as int), j as usize),
        decreases k - i,
    {
        let lo = part[i];
        let cur = sizes[lo];
        proof {
            assert(part@.take(i + 1).drop_last() =~= part@.take(i as int));
            lemma_count_eq_le(part@.take(i as int), lo);
        }
        sizes.set(lo, cur + 1);
        proof {
            assert forall|j: int| 0 <= j < n_local implies #[trigger] sizes@[j] == count_eq(part@.take(i + 1), j as usize) by {
                assert(part@.take(i + 1).last() == lo);
            }
        }
        i += 1;
    }
    proof { assert(part@.take(k as int) =~= part@); }
    let mut slotmap: Vec<usize> = Vec::new();
    let mut i: usize = 0;
    while i < k
        invariant
            i <= k,
            part@.len() == k,
            n_local <= 5,
            base <= 70000,
            forall|c: int| 0 <= c < k ==> #[trigger] part@[c] < n_local,
            slotmap@.len() == i,
            forall|c: int| 0 <= c < i ==> #[trigger] slotmap@[c] == base + part@[c],
        decreases k - i,
    {
        slotmap.push(base + part[i]);
        i += 1;
    }
    let ent = DRegEntry { k, class, base, slots: slotmap };
    proof {
        let sl = ent.slots@;
        assert(Seq::new(k as nat, |c: int| (sl[c] - base) as usize) =~= part@);
        assert forall|l: int| 0 <= l < n_local implies #[trigger] sizes@[l] == count_eq(sl, (base + l) as usize) by {
            lemma_count_eq_shift(part@, sl, base, l as usize);
        }
    }
    (ent, sizes)
}

impl DirectedRegistry {
    #[verifier::type_invariant]
    spec fn inv(self) -> bool {
        dregistry_ok(self.entries@, self.orbit_info@)
    }

    /// `(order, class mask, orbit size)` of every global orbit id.
    pub closed spec fn orbits(&self) -> Seq<(usize, u64, usize)> {
        self.orbit_info@
    }

    /// Whether the class `c` of order `k` is registered.
    pub closed spec fn registered(&self, k: usize, c: u64) -> bool {
        exists|e: int| 0 <= e < self.entries@.len() && #[trigger] self.entries@[e].k == k && self.entries@[e].class == c
    }

    /// The global orbit id of each canonical slot of a registered class.
    pub closed spec fn slots_of(&self, k: usize, c: u64) -> Seq<usize> {
        self.entries@[choose|e: int| 0 <= e < self.entries@.len() && #[trigger] self.entries@[e].k == k && self.entries@[e].class == c].slots@
    }

    /// Build the directed orbit registry for orders `2..=4`.
    pub fn build() -> (r: Self)
        ensures
            r.numbered(),
            forall|k: usize, c: u64| #[trigger] r.registered(k, c) <==> 2 <= k <= DORBIT_MAX_K && is_weak_class(k as nat, c as nat),
    {
        let mut entries: Vec<DRegEntry> = Vec::new();
        let mut orbit_info: Vec<(usize, u64, usize)> = Vec::new();
        let mut next_id: usize = 0;
        let mut k: usize = 2;
        while k <= DORBIT_MAX_K
            invariant
                2 <= k <= DORBIT_MAX_K + 1,
                next_id <= (k - 2) * 4096 * 5,
                orbit_info@.len() == next_id,
                forall|e: int| 0 <= e < entries@.len() ==> dslots_ok(
                    (#[trigger] entries@[e]).k, entries@[e].class, entries@[e].base, entries@[e].slots@),
                forall|e: int| 0 <= e < entries@.len() ==> (#[trigger] entries@[e]).k < k,
                entries@.len() > 0 ==> entries@[0].base == 0,
                forall|e: int| 0 <= e < entries@.len() - 1 ==> #[trigger] entries@[e + 1].base
                    == entries@[e].base + dn_orbits(entries@[e].k, entries@[e].class),
                next_id == (if entries@.len() == 0 { 0 } else {
                    entries@.last().base + dn_orbits(entries@.last().k, entries@.last().class) }),
                forall|e: int, l: int| 0 <= e < entries@.len() && 0 <= l < dn_orbits(entries@[e].k, entries@[e].class)
                    ==> #[trigger] orbit_info@[entries@[e].base + l] == (entries@[e].k, entries@[e].class,
                        count_eq(entries@[e].slots@, (entries@[e].base + l) as usize) as usize),
                forall|e: int, f: int| 0 <= e < f < entries@.len() ==> (#[trigger] entries@[e]).k < (#[trigger] entries@[f]).k
                    || (entries@[e].k == entries@[f].k && entries@[e].class < entries@[f].class),
                forall|kk: usize, c: u64| 2 <= kk < k && #[trigger] is_weak_class(kk as nat, c as nat)
                    ==> exists|e: int| 0 <= e < entries@.len() && #[trigger] entries@[e].k == kk && entries@[e].class == c,
            decreases DORBIT_MAX_K + 1 - k,
        {
            let classes = all_weakly_connected_classes(k);
            let ghost cls = classes@;
            let ghost e0 = entries@.len();
            proof {
                lemma_dpair_seq_len(k as nat);
                assert forall|i: int| 0 <= i < cls.len() implies (#[trigger] cls[i]) < pow2(dpair_seq(k as nat).len()) by {
                    assert(cls.contains(cls[i]));
                    lemma_weak_class_bound(k as nat, cls[i] as nat);
                }
                assert(k * (k - 1) <= 12) by (nonlinear_arith)
                    requires k <= 4;
                assert(pow2(dpair_seq(k as nat).len()) <= 4096) by {
                    if dpair_seq(k as nat).len() < 12 {
                        vstd::arithmetic::power2::lemma_pow2_strictly_increases(dpair_seq(k as nat).len(), 12);
                    }
                    vstd::arithmetic::power2::lemma2_to64();
                }
                lemma_sorted_len(cls, 4096);
            }
            let mut t: usize = 0;
            while t < classes.len()
                invariant
                    2 <= k <= DORBIT_MAX_K,
                    cls == classes@,
                    strictly_sorted(cls),
                    cls.len() <= 4096,
                    forall|i: int| 0 <= i < cls.len() ==> (#[trigger] cls[i]) < pow2(dpair_seq(k as nat).len()),
                    forall|c: u64| #[trigger] cls.contains(c) <==> is_weak_class(k as nat, c as nat),
                    t <= cls.len(),
                    e0 <= entries@.len(),
                    entries@.len() == e0 + t,
                    forall|i: int| 0 <= i < t ==> (#[trigger] entries@[e0 + i]).class == cls[i] && entries@[e0 + i].k == k,
                    next_id <= (k - 2) * 4096 * 5 + t * 5,
                    t <= 4096,
                    orbit_info@.len() == next_id,
                    forall|e: int| 0 <= e < entries@.len() ==> dslots_ok(
                        (#[trigger] entries@[e]).k, entries@[e].class, entries@[e].base, entries@[e].slots@),
                    forall|e: int| 0 <= e < e0 ==> (#[trigger] entries@[e]).k < k,
                    entries@.len() > 0 ==> entries@[0].base == 0,
                    forall|e: int| 0 <= e < entries@.len() - 1 ==> #[trigger] entries@[e + 1].base
                        == entries@[e].base + dn_orbits(entries@[e].k, entries@[e].class),
                    next_id == (if entries@.len() == 0 { 0 } else {
                        entries@.last().base + dn_orbits(entries@.last().k, entries@.last().class) }),
                    forall|e: int, l: int| 0 <= e < entries@.len() && 0 <= l < dn_orbits(entries@[e].k, entries@[e].class)
                        ==> #[trigger] orbit_info@[entries@[e].base + l] == (entries@[e].k, entries@[e].class,
                            count_eq(entries@[e].slots@, (entries@[e].base + l) as usize) as usize),
                    forall|e: int, f: int| 0 <= e < f < entries@.len() ==> (#[trigger] entries@[e]).k < (#[trigger] entries@[f]).k
                        || (entries@[e].k == entries@[f].k && entries@[e].class < entries@[f].class),
                    forall|kk: usize, c: u64| 2 <= kk < k && #[trigger] is_weak_class(kk as nat, c as nat)
                        ==> exists|e: int| 0 <= e < entries@.len() && #[trigger] entries@[e].k == kk && entries@[e].class == c,
                decreases cls.len() - t,
            {
                let class = classes[t];
                proof { assert(cls.contains(class)); }
                let (ent, sizes) = dmake_entry(k, class, next_id);
                let n_local = sizes.len();
                let ghost info0 = orbit_info@;
                let mut o: usize = 0;
                while o < n_local
                    invariant
                        o <= n_local,
                        sizes@.len() == n_local,
                        orbit_info@.len() == info0.len() + o,
                        forall|j: int| 0 <= j < info0.len() ==> #[trigger] orbit_info@[j] == info0[j],
                        forall|j: int| 0 <= j < o ==> #[trigger] orbit_info@[info0.len() + j] == (k, class, sizes@[j]),
                    decreases n_local - o,
                {
                    orbit_info.push((k, class, sizes[o]));
                    o += 1;
                }
                let ghost base = next_id;
                next_id = next_id + n_local;
                let ghost ent_old = entries@;
                entries.push(ent);
                proof {
                    let ne = entries@.len() - 1;
                    let sl = entries@[ne].slots@;
                    assert forall|e: int, l: int| 0 <= e < entries@.len() && 0 <= l < dn_orbits(entries@[e].k, entries@[e].class)
                        implies #[trigger] orbit_info@[entries@[e].base + l] == (entries@[e].k, entries@[e].class,
                            count_eq(entries@[e].slots@, (entries@[e].base + l) as usize) as usize) by {
                        if e < ne {
                            assert(entries@[e] == ent_old[e]);
                            lemma_dbases_below(ent_old, e);
                        } else {
                            assert(orbit_info@[info0.len() + l] == (k, class, sizes@[l]));
                        }
                    }
                    assert forall|e: int, f: int| 0 <= e < f < entries@.len() implies (#[trigger] entries@[e]).k < (#[trigger] entries@[f]).k
                        || (entries@[e].k == entries@[f].k && entries@[e].class < entries@[f].class) by {
                        if f == ne && e >= e0 {
                            assert(entries@[e] == ent_old[e]);
                            assert(ent_old[e0 + (e - e0)].class == cls[e - e0]);
                            assert(entries@[e].class == cls[e - e0]);
                            assert(cls[e - e0] < cls[t as int]);
                        }
                    }
                    assert forall|i: int| 0 <= i < t + 1 implies (#[trigger] entries@[e0 + i]).class == cls[i] && entries@[e0 + i].k == k by {
                        if i < t { assert(entries@[e0 + i] == ent_old[e0 + i]); }
                    }
                    assert forall|kk2: usize, c: u64| 2 <= kk2 < k && #[trigger] is_weak_class(kk2 as nat, c as nat)
                        implies exists|e: int| 0 <= e < entries@.len() && #[trigger] entries@[e].k == kk2 && entries@[e].class == c by {
                        let e = choose|e: int| 0 <= e < ent_old.len() && #[trigger] ent_old[e].k == kk2 && ent_old[e].class == c;
                        assert(entries@[e] == ent_old[e]);
                    }
                }
                t += 1;
            }
            proof {
                assert forall|e: int| 0 <= e < entries@.len() implies (#[trigger] entries@[e]).k < k + 1 by {
                    if e >= e0 {
                        assert(entries@[e0 + (e - e0)].k == k);
                    }
                }
                assert forall|kk: usize, c: u64| 2 <= kk < k + 1 && #[trigger] is_weak_class(kk as nat, c as nat)
                    implies exists|e: int| 0 <= e < entries@.len() && #[trigger] entries@[e].k == kk && entries@[e].class == c by {
                    if kk == k {
                        assert(cls.contains(c));
                        let i = choose|i: int| 0 <= i < cls.len() && cls[i] == c;
                        assert(entries@[e0 + i].class == c && entries@[e0 + i].k == k);
                    }
                }
            }
            k += 1;
        }
        proof {
            assert(k == DORBIT_MAX_K + 1);
            assert(forall|e: int| 0 <= e < entries@.len() ==> dslots_ok(
                (#[trigger] entries@[e]).k, entries@[e].class, entries@[e].base, entries@[e].slots@));
            assert(entries@.len() > 0 ==> entries@[0].base == 0);
            assert(forall|e: int, f: int| 0 <= e < f < entries@.len() ==> (#[trigger] entries@[e]).k < (#[trigger] entries@[f]).k
                || (entries@[e].k == entries@[f].k && entries@[e].class < entries@[f].class));
            assert(dregistry_ok(entries@, orbit_info@));
            assert(forall|kk: usize, c: u64| 2 <= kk <= DORBIT_MAX_K && #[trigger] is_weak_class(kk as nat, c as nat)
                ==> exists|e: int| 0 <= e < entries@.len() && #[trigger] entries@[e].k == kk && entries@[e].class == c);
            assert(forall|e: int| 0 <= e < entries@.len() - 1 ==> #[trigger] entries@[e + 1].base
                == entries@[e].base + dn_orbits(entries@[e].k, entries@[e].class));
            assert(orbit_info@.len() == (if entries@.len() == 0 { 0 } else {
                entries@.last().base + dn_orbits(entries@.last().k, entries@.last().class) }));
        }
        let r = DirectedRegistry { entries, orbit_info };
        proof {
            assert forall|k: usize, c: u64| #[trigger] r.registered(k, c) <==> 2 <= k <= DORBIT_MAX_K && is_weak_class(k as nat, c as nat) by {
                if r.registered(k, c) {
                    let e = choose|e: int| 0 <= e < r.entries@.len() && #[trigger] r.entries@[e].k == k && r.entries@[e].class == c;
                    assert(dslots_ok(r.entries@[e].k, r.entries@[e].class, r.entries@[e].base, r.entries@[e].slots@));
                }
            }
            r.lemma_numbered();
        }
        r
    }

    /// The orbit table is ordered by order, then by class mask; every id names a
    /// registered class and records how many of that class's slots carry it; and the
    /// slots of each class are numbered densely in order of first appearance.
    pub open spec fn numbered(&self) -> bool {
        &&& forall|i: int, j: int| 0 <= i < j < self.orbits().len() ==> (#[trigger] self.orbits()[i]).0 < (#[trigger] self.orbits()[j]).0
            || (self.orbits()[i].0 == self.orbits()[j].0 && self.orbits()[i].1 <= self.orbits()[j].1)
        &&& forall|i: int| 0 <= i < self.orbits().len() ==> self.registered((#[trigger] self.orbits()[i]).0, self.orbits()[i].1)
            && self.orbits()[i].2 == count_eq(self.slots_of(self.orbits()[i].0, self.orbits()[i].1), i as usize)
            && self.orbits()[i].2 >= 1
        &&& forall|k: usize, c: u64| #[trigger] self.registered(k, c) ==> dslot_numbering(self.slots_of(k, c), k, c)
    }

    proof fn lemma_numbered(&self)
        requires
            dregistry_ok(self.entries@, self.orbit_info@),
        ensures
            self.numbered(),
    {
        let es = self.entries@;
        let info = self.orbit_info@;
        assert forall|i: int, j: int| 0 <= i < j < self.orbits().len() implies (#[trigger] self.orbits()[i]).0 < (#[trigger] self.orbits()[j]).0
            || (self.orbits()[i].0 == self.orbits()[j].0 && self.orbits()[i].1 <= self.orbits()[j].1) by {
            let ei = lemma_downer_from(es, info, i, 0);
            let ej = lemma_downer_from(es, info, j, 0);
            assert(info[es[ei].base + (i - es[ei].base)] == (es[ei].k, es[ei].class, count_eq(es[ei].slots@, (es[ei].base + (i - es[ei].base)) as usize) as usize));
            assert(info[es[ej].base + (j - es[ej].base)] == (es[ej].k, es[ej].class, count_eq(es[ej].slots@, (es[ej].base + (j - es[ej].base)) as usize) as usize));
            if ej < ei {
                lemma_dentry_before(es, info, ej, ei);
            }
            if ei < ej {
                assert(es[ei].k < es[ej].k || (es[ei].k == es[ej].k && es[ei].class < es[ej].class));
            }
        }
        assert forall|i: int| 0 <= i < self.orbits().len() implies self.registered((#[trigger] self.orbits()[i]).0, self.orbits()[i].1)
            && self.orbits()[i].2 == count_eq(self.slots_of(self.orbits()[i].0, self.orbits()[i].1), i as usize)
            && self.orbits()[i].2 >= 1 by {
            let e = lemma_downer_from(es, info, i, 0);
            let ent = es[e];
            let l = i - ent.base;
            assert(info[ent.base + l] == (ent.k, ent.class, count_eq(ent.slots@, (ent.base + l) as usize) as usize));
            assert(self.registered(ent.k, ent.class));
            let ch = choose|f: int| 0 <= f < es.len() && #[trigger] es[f].k == ent.k && es[f].class == ent.class;
            if ch < e {
                assert(es[ch].k < es[e].k || (es[ch].k == es[e].k && es[ch].class < es[e].class));
            } else if e < ch {
                assert(es[e].k < es[ch].k || (es[e].k == es[ch].k && es[e].class < es[ch].class));
            }
            assert(dslots_ok(ent.k, ent.class, ent.base, ent.slots@));
            lemma_count_eq_le(ent.slots@, i as usize);
            let lab = Seq::new(ent.k as nat, |t: int| (ent.slots@[t] - ent.base) as usize);
            let kk = dclass_arc(ent.class as nat, ent.k as nat);
            assert(orbit_labels(ent.k as nat, kk, lab));
            lemma_label_met(ent.k as nat, kk, lab, l as nat);
            let t = choose|t: int| 0 <= t < ent.k && lab[t] == l;
            assert(ent.slots@[t] == i);
            lemma_count_eq_pos(ent.slots@, i as usize, t);
        }
        assert forall|k: usize, c: u64| #[trigger] self.registered(k, c) implies dslot_numbering(self.slots_of(k, c), k, c) by {
            let e = choose|e: int| 0 <= e < es.len() && #[trigger] es[e].k == k && es[e].class == c;
            let ent = es[e];
            assert(dslots_ok(ent.k, ent.class, ent.base, ent.slots@));
            let kk = dclass_arc(c as nat, k as nat);
            let lab = Seq::new(k as nat, |t: int| (ent.slots@[t] - ent.base) as usize);
            assert(orbit_labels(k as nat, kk, lab));
            assert(first_of_orbit(k as nat, kk, 0));
            assert(lab[0] == orbits_before(k as nat, kk, 0));
            assert(ent.slots@[0] == ent.base);
            assert(lab =~= Seq::new(k as nat, |t: int| (ent.slots@[t] - ent.slots@[0]) as usize));
        }
    }
}

/// The slot ids of a directed class are numbered from its first slot's id, densely,
/// in order of the first slot of each orbit.
pub open spec fn dslot_numbering(slots: Seq<usize>, k: usize, c: u64) -> bool {
    &&& slots.len() == k
    &&& k > 0
    &&& forall|t: int| 0 <= t < k ==> slots[0] <= #[trigger] slots[t]
    &&& orbit_labels(k as nat, dclass_arc(c as nat, k as nat), Seq::new(k as nat, |t: int| (slots[t] - slots[0]) as usize))
}

proof fn lemma_dentry_before(es: Seq<DRegEntry>, info: Seq<(usize, u64, usize)>, e: int, f: int)
    requires
        dregistry_ok(es, info),
        0 <= e < f < es.len(),
    ensures
        es[e].base + dn_orbits(es[e].k, es[e].class) <= es[f].base,
    decreases f - e,
{
    assert(es[(f - 1) + 1].base == es[f - 1].base + dn_orbits(es[f - 1].k, es[f - 1].class));
    if e < f - 1 {
        lemma_dentry_before(es, info, e, f - 1);
    }
}

proof fn lemma_downer_from(es: Seq<DRegEntry>, info: Seq<(usize, u64, usize)>, o: int, e: int) -> (r: int)
    requires
        dregistry_ok(es, info),
        0 <= e < es.len(),
        es[e].base <= o < info.len(),
    ensures
        0 <= r < es.len(),
        es[r].base <= o < es[r].base + dn_orbits(es[r].k, es[r].class),
    decreases es.len() - e,
{
    if o < es[e].base + dn_orbits(es[e].k, es[e].class) {
        e
    } else {
        assert(e + 1 < es.len());
        assert(es[e + 1].base == es[e].base + dn_orbits(es[e].k, es[e].class));
        lemma_downer_from(es, info, o, e + 1)
    }
}

/// Every earlier entry's ids lie below the later bases.
proof fn lemma_dbases_below(es: Seq<DRegEntry>, e: int)
    requires
        0 <= e < es.len(),
        forall|f: int| 0 <= f < es.len() - 1 ==> #[trigger] es[f + 1].base == es[f].base + dn_orbits(es[f].k, es[f].class),
    ensures
        es[e].base + dn_orbits(es[e].k, es[e].class) <= es.last().base + dn_orbits(es.last().k, es.last().class),
    decreases es.len() - e,
{
    if e < es.len() - 1 {
        lemma_dbases_below(es, e + 1);
    }
}

impl DirectedRegistry {
    /// Total number of directed orbits across orders `2..=4`.
    pub fn orbit_count(&self) -> (r: usize)
        ensures
            r == self.orbits().len(),
    {
        self.orbit_info.len()
    }

    /// Number of distinct weakly connected directed classes registered at order `k`
    /// (every class of that order for `k` in `2..=4`, none otherwise).
    pub fn class_count(&self, k: usize) -> (r: usize)
        ensures
            Set::new(|c: u64| self.registered(k, c)).finite(),
            r == Set::new(|c: u64| self.registered(k, c)).len(),
            forall|c: u64| #[trigger] self.registered(k, c) <==> 2 <= k <= DORBIT_MAX_K && is_weak_class(k as nat, c as nat),
    {
        proof { use_type_invariant(self); }
        let ghost es = self.entries@;
        let mut v: Vec<u64> = Vec::new();
        let mut i: usize = 0;
        while i < self.entries.len()
            invariant
                es == self.entries@,
                dregistry_ok(es, self.orbit_info@),
                i <= es.len(),
                strictly_sorted(v@),
                forall|c: u64| #[trigger] v@.contains(c) <==> exists|e: int| 0 <= e < i && #[trigger] es[e].k == k && es[e].class == c,
                forall|j: int, e: int| 0 <= j < v@.len() && i <= e < es.len() && (#[trigger] es[e]).k == k ==> #[trigger] v@[j] < es[e].class,
            decreases es.len() - i,
        {
            if self.entries[i].k == k {
                let c = self.entries[i].class;
                let ghost v0 = v@;
                v.push(c);
                proof {
                    assert forall|x: u64| #[trigger] v@.contains(x) <==> exists|e: int| 0 <= e < i + 1 && #[trigger] es[e].k == k && es[e].class == x by {
                        if v@.contains(x) {
                            let j = choose|j: int| 0 <= j < v@.len() && v@[j] == x;
                            if j < v0.len() {
                                assert(v0.contains(x));
                            } else {
                                assert(es[i as int].k == k && es[i as int].class == x);
                            }
                        }
                        if exists|e: int| 0 <= e < i + 1 && #[trigger] es[e].k == k && es[e].class == x {
                            let e = choose|e: int| 0 <= e < i + 1 && #[trigger] es[e].k == k && es[e].class == x;
                            if e < i {
                                assert(v0.contains(x));
                                let j = choose|j: int| 0 <= j < v0.len() && v0[j] == x;
                                assert(v@[j] == x);
                            } else {
                                assert(v@[v0.len() as int] == x);
                            }
                        }
                    }
                    assert forall|j: int, e: int| 0 <= j < v@.len() && i + 1 <= e < es.len() && (#[trigger] es[e]).k == k implies #[trigger] v@[j] < es[e].class by {
                        if j < v0.len() {
                            assert(v@[j] == v0[j]);
                        } else {
                            assert(es[i as int].k == es[e].k);
                        }
                    }
                    assert forall|a: int, b: int| 0 <= a < b < v@.len() implies v@[a] < v@[b] by {
                        if b == v0.len() {
                            assert(v@[a] == v0[a]);
                        } else {
                            assert(v@[a] == v0[a] && v@[b] == v0[b]);
                        }
                    }
                }
            } else {
                proof {
                    assert forall|x: u64| #[trigger] v@.contains(x) <==> exists|e: int| 0 <= e < i + 1 && #[trigger] es[e].k == k && es[e].class == x by {
                        if exists|e: int| 0 <= e < i + 1 && #[trigger] es[e].k == k && es[e].class == x {
                            let e = choose|e: int| 0 <= e < i + 1 && #[trigger] es[e].k == k && es[e].class == x;
                            assert(e < i);
                        }
                    }
                }
            }
            i += 1;
        }
        proof {
            assert(v@.no_duplicates()) by {
                assert forall|a: int, b: int| 0 <= a < v@.len() && 0 <= b < v@.len() && a != b implies v@[a] != v@[b] by {
                    if a < b { assert(v@[a] < v@[b]); } else { assert(v@[b] < v@[a]); }
                }
            }
            v@.unique_seq_to_set();
            assert(v@.to_set() =~= Set::new(|c: u64| self.registered(k, c)));
            assert forall|c: u64| #[trigger] self.registered(k, c) <==> 2 <= k <= DORBIT_MAX_K && is_weak_class(k as nat, c as nat) by {
                if self.registered(k, c) {
                    let e = choose|e: int| 0 <= e < self.entries@.len() && #[trigger] self.entries@[e].k == k && self.entries@[e].class == c;
                    assert(dslots_ok(es[e].k, es[e].class, es[e].base, es[e].slots@));
                }
            }
        }
        v.len()
    }

    /// `(order, class mask, orbit size)` for a global orbit id.
    pub fn orbit_meta(&self, id: usize) -> (r: (usize, u64, usize))
        requires
            id < self.orbits().len(),
        ensures
            r == self.orbits()[id as int],
    {
        self.orbit_info[id]
    }

    /// Global orbit id per canonical slot of a registered class. Slots share an id
    /// exactly when an automorphism of the class maps one to the other, and each id
    /// records the class and the size of its orbit.
    pub fn slot_map(&self, k: usize, class: u64) -> (r: &[usize])
        requires
            self.registered(k, class),
        ensures
            r@ == self.slots_of(k, class),
            r@.len() == k,
            2 <= k <= DORBIT_MAX_K,
            is_weak_class(k as nat, class as nat),
            forall|c: int| 0 <= c < k ==> #[trigger] r@[c] < self.orbits().len()
                && self.orbits()[r@[c] as int] == (k, class, count_eq(r@, r@[c]) as usize),
            forall|a: usize, b: usize| a < k && b < k ==> (r@[a as int] == r@[b as int] <==> #[trigger] same_orbit(k as nat, dclass_arc(class as nat, k as nat), a, b)),
    {
        let mut e: usize = 0;
        while e < self.entries.len() && !(self.entries[e].k == k && self.entries[e].class == class)
            invariant
                e <= self.entries@.len(),
                self.registered(k, class),
                forall|f: int| 0 <= f < e ==> !((#[trigger] self.entries@[f]).k == k && self.entries@[f].class == class),
            decreases self.entries@.len() - e,
        {
            e += 1;
        }
        proof {
            use_type_invariant(self);
            let ch = choose|f: int| 0 <= f < self.entries@.len() && #[trigger] self.entries@[f].k == k && self.entries@[f].class == class;
            assert(e < self.entries@.len());
            let ent = self.entries@[e as int];
            assert(ch == e) by {
                if ch > e {
                    assert(self.entries@[e as int].k < self.entries@[ch].k || (self.entries@[e as int].k == self.entries@[ch].k && self.entries@[e as int].class < self.entries@[ch].class));
                }
            }
            assert(dslots_ok(ent.k, ent.class, ent.base, ent.slots@));
            let kk = dclass_arc(class as nat, k as nat);
            let lab = Seq::new(k as nat, |c: int| (ent.slots@[c] - ent.base) as usize);
            assert(orbit_labels(k as nat, kk, lab));
            lemma_dbases_below(self.entries@, e as int);
            assert forall|c: int| 0 <= c < k implies #[trigger] ent.slots@[c] < self.orbits().len()
                && self.orbits()[ent.slots@[c] as int] == (k, class, count_eq(ent.slots@, ent.slots@[c]) as usize) by {
                assert(lab[c] < dn_orbits(k, class));
                assert(ent.slots@[c] == ent.base + lab[c]);
                assert(self.orbit_info@[ent.base + lab[c]] == (ent.k, ent.class,
                    count_eq(ent.slots@, (ent.base + lab[c]) as usize) as usize));
            }
            assert forall|a: usize, b: usize| a < k && b < k implies (ent.slots@[a as int] == ent.slots@[b as int] <==> #[trigger] same_orbit(k as nat, kk, a, b)) by {
                assert(lab[a as int] == lab[b as int] <==> same_orbit(k as nat, kk, a, b));
            }
        }
        self.entries[e].slots.as_slice()
    }
}

// ---------------------------------------------------------------------------
// Graphlet-degree vectors
// ---------------------------------------------------------------------------


/// A weakly connected class value fits the class mask width.
proof fn lemma_weak_class_bound(k: nat, c: nat)
    requires
        1 <= k <= 5,
        is_weak_class(k, c),
    ensures
        c < pow2(dpair_seq(k).len()),
{
    let m = choose|m: nat| m < pow2(dpair_seq(k).len()) && connected_set(below(k), und_of(#[trigger] dclass_arc(m, k))) && c == dcanon(k, dclass_arc(m, k));
    lemma_dcanon(k, dclass_arc(m, k));
    let p = choose|p: Seq<usize>| is_perm(p, k) && dcanon(k, dclass_arc(m, k)) == #[trigger] dmask_val(k, p, dclass_arc(m, k));
    lemma_bits_val_bound(dmask_bits(k, p, dclass_arc(m, k)));
    lemma_dpair_seq_len(k);
}


// ---------------------------------------------------------------------------
// Directed graphlet-degree vectors
// ---------------------------------------------------------------------------

/// A canonical arrangement of the directed subgraph induced on the listed vertices.
pub open spec fn dcanon_arr(ga: Seq<Seq<usize>>, k: nat, q: Seq<usize>) -> Seq<usize> {
    choose|a: Seq<usize>| is_darrangement(k, local_arc(ga, q), a)
}

/// The global directed orbit id of vertex `x` in the subgraph induced on `q`.
pub open spec fn dorbit_of(reg: DirectedRegistry, ga: Seq<Seq<usize>>, k: nat, q: Seq<usize>, x: usize) -> usize {
    reg.slots_of(k as usize, dseq_class(ga, k, q) as u64)[inverse(dcanon_arr(ga, k, q), k)[q.index_of(x)] as int]
}

/// The listed subgraph contains `x` in directed orbit `o`.
pub open spec fn din_orbit(reg: DirectedRegistry, ga: Seq<Seq<usize>>, k: nat, x: usize, o: usize) -> spec_fn(Seq<usize>) -> bool {
    |q: Seq<usize>| q.contains(x) && dorbit_of(reg, ga, k, q, x) == o
}

/// The directed graphlet degree of `x` in orbit `o`: the number of weakly connected
/// induced subgraphs of order `2..=4` in which `x` occupies `o`; `gu` is the
/// undirected union of the arcs `ga`.
pub open spec fn dgdv_count(reg: DirectedRegistry, ga: Seq<Seq<usize>>, gu: Seq<Seq<usize>>, x: usize, o: usize) -> nat {
    count_where(esu_all(gu, 2), din_orbit(reg, ga, 2, x, o))
        + count_where(esu_all(gu, 3), din_orbit(reg, ga, 3, x, o))
        + count_where(esu_all(gu, 4), din_orbit(reg, ga, 4, x, o))
}

/// `dgdv_count` restricted to the orders below `k`.
pub open spec fn dgdv_below(reg: DirectedRegistry, ga: Seq<Seq<usize>>, gu: Seq<Seq<usize>>, x: usize, o: usize, k: nat) -> nat
    decreases k,
{
    if k <= 2 {
        0
    } else {
        dgdv_below(reg, ga, gu, x, o, (k - 1) as nat) + count_where(esu_all(gu, (k - 1) as nat), din_orbit(reg, ga, (k - 1) as nat, x, o))
    }
}

proof fn lemma_dgdv_below_bound(reg: DirectedRegistry, ga: Seq<Seq<usize>>, gu: Seq<Seq<usize>>, x: usize, o: usize, k: nat)
    ensures
        dgdv_below(reg, ga, gu, x, o, k) <= subsets_below(gu, k),
    decreases k,
{
    if k > 2 {
        lemma_dgdv_below_bound(reg, ga, gu, x, o, (k - 1) as nat);
        lemma_count_where_push(esu_all(gu, (k - 1) as nat), Seq::empty(), din_orbit(reg, ga, (k - 1) as nat, x, o));
    }
}

/// Attributes each visited subset's vertices to their directed orbits.
struct DGdvSink<'a, N> {
    snapshot: &'a DirectedSnapshot<N>,
    reg: &'a DirectedRegistry,
    k: usize,
    ps: Vec<Vec<usize>>,
    n: usize,
    m: usize,
    rows: Vec<u64>,
    base: Ghost<Seq<u64>>,
    prior: Ghost<nat>,
    seen: Ghost<Seq<Seq<usize>>>,
}

impl<'a, N> DGdvSink<'a, N> {
    spec fn wf(&self) -> bool {
        &&& simple_graph(self.snapshot.graph())
        &&& forall|a: usize, b: usize| #[trigger] list_adj(self.snapshot.graph())(a, b)
            == (list_adj(self.snapshot.arcs())(a, b) || list_adj(self.snapshot.arcs())(b, a))
        &&& 2 <= self.k <= DORBIT_MAX_K
        &&& all_perms(self.ps.deep_view(), self.k as nat)
        &&& self.n == self.snapshot.ids().len()
        &&& self.n == self.snapshot.graph().len()
        &&& self.m == self.reg.orbits().len()
        &&& self.rows@.len() == self.n * self.m
        &&& self.base@.len() == self.n * self.m
        &&& forall|i: int| 0 <= i < self.n * self.m ==> #[trigger] self.base@[i] <= self.prior@
        &&& self.prior@ + self.seen@.len() <= u64::MAX
        &&& forall|x: int, o: int| 0 <= x < self.n && 0 <= o < self.m ==>
            #[trigger] self.rows@[x * self.m + o] == self.base@[x * self.m + o]
                + count_where(self.seen@, din_orbit(*self.reg, self.snapshot.arcs(), self.k as nat, x as usize, o as usize))
    }
}

impl<'a, N> SubsetSink for DGdvSink<'a, N> {
    type Params = (Seq<Seq<usize>>, Seq<Seq<usize>>, DirectedRegistry, usize, usize, usize, Seq<u64>, nat);

    closed spec fn params(&self) -> (Seq<Seq<usize>>, Seq<Seq<usize>>, DirectedRegistry, usize, usize, usize, Seq<u64>, nat) {
        (self.snapshot.arcs(), self.snapshot.graph(), *self.reg, self.k, self.n, self.m, self.base@, self.prior@)
    }

    closed spec fn admits(&self, q: Seq<usize>) -> bool {
        valid_out(self.snapshot.graph(), self.k as nat, q)
    }

    closed spec fn room(&self) -> nat {
        if self.wf() { (u64::MAX - self.prior@ - self.seen@.len()) as nat } else { 0 }
    }

    closed spec fn seen(&self) -> Seq<Seq<usize>> {
        self.seen@
    }

    fn visit(&mut self, q: &Vec<usize>) {
        let ghost ga = self.snapshot.arcs();
        let ghost gu = self.snapshot.graph();
        let ghost k = self.k as nat;
        let ghost l = local_arc(ga, q@);
        let ghost reg = *self.reg;
        proof {
            use_type_invariant(self.reg);
        }
        let snapshot = self.snapshot;
        let has_arc = |i: usize, j: usize| -> (r: bool)
            requires
                i < q@.len(),
                j < q@.len(),
                forall|t: int| 0 <= t < q@.len() ==> (#[trigger] q@[t]) < snapshot.ids().len(),
            ensures
                r == list_adj(snapshot.arcs())(q@[i as int], q@[j as int]),
        {
            snapshot.has_arc(q[i], q[j])
        };
        let (class, arg) = canonical_arg_fn(self.k, &self.ps, has_arc, Ghost(l));
        proof {
            lemma_dseq_class_weak(ga, gu, k, q@);
            assert(self.reg.registered(self.k, class)) by {
                let e = choose|e: int| 0 <= e < self.reg.entries@.len() && #[trigger] self.reg.entries@[e].k == self.k && self.reg.entries@[e].class == class;
            }
        }
        let slots = self.reg.slot_map(self.k, class);
        let ghost s0 = self.seen@;
        let ghost r0 = self.rows@;
        let ghost inv_arg = inverse(arg@, k);
        let ghost kk = dclass_arc(class as nat, k);
        proof {
            lemma_inverse(arg@, k);
            assert(is_darrangement(k, l, arg@));
            let ca = dcanon_arr(ga, k, q@);
            assert(is_darrangement(k, l, ca));
            lemma_inverse(ca, k);
            assert forall|i: usize| i < k implies #[trigger] slots@[inv_arg[i as int] as int] == slots@[inverse(ca, k)[i as int] as int] by {
                lemma_darrangement_orbit(k, l, arg@, ca, i);
                assert(same_orbit(k, kk, inverse(ca, k)[i as int], inv_arg[i as int]));
            }
            assert forall|x: int, o: int| 0 <= x < self.n && 0 <= o < self.m implies #[trigger] r0[x * self.m + o] < u64::MAX by {
                lemma_index_bound(x, o, self.n as int, self.m as int);
                lemma_count_where_push(s0, q@, din_orbit(reg, ga, k, x as usize, o as usize));
            }
        }
        let total = self.rows.len();
        let mut c: usize = 0;
        while c < self.k
            invariant
                total == self.n * self.m,
                2 <= self.k <= DORBIT_MAX_K,
                c <= self.k,
                k == self.k,
                q@.len() == k,
                q@.no_duplicates(),
                forall|t: int| 0 <= t < k ==> (#[trigger] q@[t]) < self.n,
                is_perm(arg@, k),
                inv_arg == inverse(arg@, k),
                forall|x: int| 0 <= x < k ==> #[trigger] arg@[inv_arg[x] as int] == x,
                forall|t: int| 0 <= t < k ==> #[trigger] inv_arg[arg@[t] as int] == t,
                is_perm(inv_arg, k),
                slots@.len() == k,
                forall|t: int| 0 <= t < k ==> #[trigger] slots@[t] < self.m,
                self.rows@.len() == self.n * self.m,
                self.m == old(self).m,
                self.n == old(self).n,
                self.snapshot == old(self).snapshot,
                self.reg == old(self).reg,
                self.ps == old(self).ps,
                self.base == old(self).base,
                self.prior == old(self).prior,
                self.seen == old(self).seen,
                r0.len() == self.n * self.m,
                forall|x: int, o: int| 0 <= x < self.n && 0 <= o < self.m ==> #[trigger] r0[x * self.m + o] < u64::MAX,
                forall|x: int, o: int| 0 <= x < self.n && 0 <= o < self.m ==>
                    #[trigger] self.rows@[x * self.m + o] == r0[x * self.m + o]
                        + (if q@.contains(x as usize) && inv_arg[q@.index_of(x as usize)] < c
                            && slots@[inv_arg[q@.index_of(x as usize)] as int] == o { 1nat } else { 0nat }),
            decreases k - c,
        {
            let x = q[arg[c]];
            let o = slots[c];
            proof { lemma_index_bound(x as int, o as int, self.n as int, self.m as int); }
            let idx = x * self.m + o;
            let cur = self.rows[idx];
            self.rows.set(idx, cur + 1);
            proof {
                assert(q@.index_of(x) == arg@[c as int]) by {
                    assert(q@.contains(x));
                    let j = q@.index_of(x);
                    assert(q@[j] == x);
                }
                assert(inv_arg[arg@[c as int] as int] == c);
                assert forall|x2: int, o2: int| 0 <= x2 < self.n && 0 <= o2 < self.m implies
                    #[trigger] self.rows@[x2 * self.m + o2] == r0[x2 * self.m + o2]
                        + (if q@.contains(x2 as usize) && inv_arg[q@.index_of(x2 as usize)] < c + 1
                            && slots@[inv_arg[q@.index_of(x2 as usize)] as int] == o2 { 1nat } else { 0nat }) by {
                    lemma_index_bound(x2, o2, self.n as int, self.m as int);
                    if x2 * self.m + o2 == idx {
                        lemma_index_unique(x2, o2, x as int, o as int, self.m as int);
                    } else {
                        if q@.contains(x2 as usize) && inv_arg[q@.index_of(x2 as usize)] == c {
                            let j = q@.index_of(x2 as usize);
                            assert(q@[j] == x2 as usize);
                            assert(arg@[inv_arg[j] as int] == j);
                            assert(j == arg@[c as int]);
                            assert(x2 == x);
                        }
                    }
                }
            }
            c += 1;
        }
        self.seen = Ghost(s0.push(q@));
        proof {
            assert forall|x: int, o: int| 0 <= x < self.n && 0 <= o < self.m implies
                #[trigger] self.rows@[x * self.m + o] == self.base@[x * self.m + o]
                    + count_where(self.seen@, din_orbit(reg, ga, k, x as usize, o as usize)) by {
                lemma_count_where_push(s0, q@, din_orbit(reg, ga, k, x as usize, o as usize));
                if q@.contains(x as usize) {
                    let j = q@.index_of(x as usize);
                    assert(q@[j] == x as usize);
                    assert(slots@[inv_arg[j] as int] == slots@[inverse(dcanon_arr(ga, k, q@), k)[j] as int]);
                    assert(slots@ == reg.slots_of(self.k, class));
                }
            }
        }
    }
}

/// Per-node directed graphlet-degree vectors: row `x` holds, for every directed orbit
/// `o`, the number of weakly connected induced subgraphs of order `2..=4` in which
/// node `x` occupies `o`.
pub struct DirectedGdvTable<N> {
    m: usize,
    ids: Vec<N>,
    rows: Vec<u64>,
}

impl<N> DirectedGdvTable<N> {
    #[verifier::type_invariant]
    spec fn inv(self) -> bool {
        self.rows@.len() == self.ids@.len() * self.m
    }

    /// The node id of each row.
    pub closed spec fn ids(&self) -> Seq<N> {
        self.ids@
    }

    /// The number of orbits (columns).
    pub closed spec fn width(&self) -> nat {
        self.m as nat
    }

    /// The graphlet degree of row `x` in orbit `o`.
    pub closed spec fn entry(&self, x: int, o: int) -> u64 {
        self.rows@[x * self.m + o]
    }

    /// Number of nodes (rows).
    pub fn len(&self) -> (r: usize)
        ensures
            r == self.ids().len(),
    {
        self.ids.len()
    }

    /// Whether the table has no rows.
    pub fn is_empty(&self) -> (r: bool)
        ensures
            r == (self.ids().len() == 0),
    {
        self.ids.len() == 0
    }

    /// Number of directed orbits (columns).
    pub fn orbit_count(&self) -> (r: usize)
        ensures
            r == self.width(),
    {
        self.m
    }

    /// The graphlet-degree vector of row `i`.
    pub fn row(&self, i: usize) -> (r: &[u64])
        requires
            i < self.ids().len(),
        ensures
            r@.len() == self.width(),
            forall|o: int| 0 <= o < self.width() ==> #[trigger] r@[o] == self.entry(i as int, o),
    {
        proof {
            use_type_invariant(self);
            lemma_row_bound(i as int, self.ids@.len() as int, self.m as int);
        }
        let total = self.rows.len();
        let start = i * self.m;
        let end = start + self.m;
        let r = vstd::slice::slice_subrange(self.rows.as_slice(), start, end);
        proof {
            assert forall|o: int| 0 <= o < self.width() implies #[trigger] r@[o] == self.entry(i as int, o) by {
                assert(r@[o] == self.rows@[start + o]);
            }
        }
        r
    }

}


impl<N: Copy> DirectedGdvTable<N> {
    /// Host node id of row `i`.
    pub fn id(&self, i: usize) -> (r: N)
        requires
            i < self.ids().len(),
        ensures
            r == self.ids()[i as int],
    {
        self.ids[i]
    }

    /// `(node id, graphlet-degree vector)` for every row, in row order.
    pub fn iter(&self) -> (r: Vec<(N, &[u64])>)
        ensures
            r@.len() == self.ids().len(),
            forall|x: int| 0 <= x < r@.len() ==> (#[trigger] r@[x]).0 == self.ids()[x] && r@[x].1@.len() == self.width()
                && forall|o: int| 0 <= o < self.width() ==> #[trigger] r@[x].1@[o] == self.entry(x, o),
    {
        let mut r: Vec<(N, &[u64])> = Vec::new();
        let mut x: usize = 0;
        while x < self.ids.len()
            invariant
                x <= self.ids@.len(),
                r@.len() == x,
                forall|y: int| 0 <= y < x ==> (#[trigger] r@[y]).0 == self.ids()[y] && r@[y].1@.len() == self.width()
                    && forall|o: int| 0 <= o < self.width() ==> #[trigger] r@[y].1@[o] == self.entry(y, o),
            decreases self.ids@.len() - x,
        {
            let row = self.row(x);
            r.push((self.ids[x], row));
            x += 1;
        }
        r
    }
}


/// Compute the directed graphlet-degree vector of every node (weakly connected
/// orders `2..=4`).
pub fn directed_graphlet_degree_vectors<N: Copy>(g: &DirectedSnapshot<N>, reg: &DirectedRegistry) -> (r: DirectedGdvTable<N>)
    requires
        g.ids().len() * reg.orbits().len() <= usize::MAX,
        subsets_below(g.graph(), 5) < u64::MAX,
    ensures
        r.ids() == g.ids(),
        r.width() == reg.orbits().len(),
        forall|x: int, o: int| 0 <= x < g.ids().len() && 0 <= o < reg.orbits().len()
            ==> #[trigger] r.entry(x, o) == dgdv_count(*reg, g.arcs(), g.graph(), x as usize, o as usize),
{
    let und = g.undirected();
    let ghost gu = und.graph();
    let ghost ga = g.arcs();
    proof { und.lemma_graph(); }
    let n = g.len();
    let m = reg.orbit_count();
    let total = n * m;
    let mut rows: Vec<u64> = Vec::new();
    let mut t: usize = 0;
    while t < total
        invariant
            t <= total,
            rows@.len() == t,
            forall|i: int| 0 <= i < t ==> #[trigger] rows@[i] == 0,
        decreases total - t,
    {
        rows.push(0);
        t += 1;
    }
    proof {
        assert forall|x: int, o: int| 0 <= x < n && 0 <= o < m implies
            #[trigger] rows@[x * m + o] == dgdv_below(*reg, ga, gu, x as usize, o as usize, 2) by {
            lemma_index_bound(x, o, n as int, m as int);
        }
    }
    let mut k: usize = 2;
    while k <= DORBIT_MAX_K
        invariant
            2 <= k <= DORBIT_MAX_K + 1,
            und.wf(),
            simple_graph(gu),
            gu == und.graph(),
            gu == g.graph(),
            ga == g.arcs(),
            forall|a: usize, b: usize| #[trigger] list_adj(g.graph())(a, b) == (list_adj(g.arcs())(a, b) || list_adj(g.arcs())(b, a)),
            n == g.ids().len(),
            n == gu.len(),
            m == reg.orbits().len(),
            total == n * m,
            rows@.len() == n * m,
            subsets_below(gu, 5) < u64::MAX,
            forall|x: int, o: int| 0 <= x < n && 0 <= o < m ==>
                #[trigger] rows@[x * m + o] == dgdv_below(*reg, ga, gu, x as usize, o as usize, k as nat),
        decreases DORBIT_MAX_K + 1 - k,
    {
        let ps = perms(k);
        let ghost base = rows@;
        let ghost prior = subsets_below(gu, k as nat);
        proof {
            lemma_subsets_below_mono(gu, (k + 1) as nat, 5);
            lemma_esu_all(gu, k as nat);
            assert forall|i: int| 0 <= i < n * m implies #[trigger] base[i] <= prior by {
                let x = i / (m as int);
                let o = i % (m as int);
                assert(i == x * m + o && 0 <= o < m && 0 <= x < n) by (nonlinear_arith)
                    requires 0 <= i < n * m, m > 0, x == i / (m as int), o == i % (m as int);
                lemma_dgdv_below_bound(*reg, ga, gu, x as usize, o as usize, k as nat);
            }
        }
        let mut sink = DGdvSink { snapshot: g, reg, k, ps, n, m, rows, base: Ghost(base), prior: Ghost(prior), seen: Ghost(Seq::empty()) };
        proof {
            assert forall|x: int, o: int| 0 <= x < n && 0 <= o < m implies
                #[trigger] sink.rows@[x * m + o] == sink.base@[x * m + o]
                    + count_where(sink.seen@, din_orbit(*reg, ga, k as nat, x as usize, o as usize)) by {
                assert(count_where(sink.seen@, din_orbit(*reg, ga, k as nat, x as usize, o as usize)) == 0);
            }
            assert(sink.wf());
            assert forall|q: Seq<usize>| valid_out(gu, k as nat, q) implies #[trigger] sink.admits(q) by {}
        }
        for_each_subset(und, k, &mut sink);
        proof {
            assert(sink.room() > 0);
            assert(sink.wf());
            assert(sink.seen@ == esu_all(gu, k as nat));
        }
        rows = sink.rows;
        proof {
            assert forall|x: int, o: int| 0 <= x < n && 0 <= o < m implies
                #[trigger] rows@[x * m + o] == dgdv_below(*reg, ga, gu, x as usize, o as usize, (k + 1) as nat) by {
                assert(rows@[x * m + o] == base[x * m + o] + count_where(esu_all(gu, k as nat), din_orbit(*reg, ga, k as nat, x as usize, o as usize)));
            }
        }
        k += 1;
    }
    let mut ids: Vec<N> = Vec::new();
    let mut i: usize = 0;
    while i < n
        invariant
            i <= n,
            n == g.ids().len(),
            ids@.len() == i,
            forall|j: int| 0 <= j < i ==> #[trigger] ids@[j] == g.ids()[j],
        decreases n - i,
    {
        ids.push(g.id(i));
        i += 1;
    }
    proof {
        assert(ids@ =~= g.ids());
        assert forall|x: int, o: int| 0 <= x < n && 0 <= o < m implies
            #[trigger] rows@[x * m + o] == dgdv_count(*reg, ga, gu, x as usize, o as usize) by {
            reveal_with_fuel(dgdv_below, 4);
        }
    }
    DirectedGdvTable { m, ids, rows }
}

} // verus!
