//! Per-node orbit attribution: graphlet-degree vectors (GDV) and distributions (GDD).
//!
//! Two nodes of one graphlet are in the same orbit when an automorphism of that
//! graphlet maps one to the other. Every node of every connected subgraph is
//! attributed to its orbit through a canonical arrangement of the subgraph; since
//! orbits are invariant under automorphisms, which arrangement is used does not
//! matter (see [`lemma_arrangement_orbit`]).
use vstd::prelude::*;
use vstd::arithmetic::power2::{pow2, lemma_pow2_unfold, lemma_pow2_pos};
use crate::model::{
    is_perm, id_seq, lemma_id_seq, compose, lemma_compose_perm, inverse, lemma_inverse,
    relabels, lemma_relabel_inverse, symmetric_on, mask_val, mask_bits, bits_val, bit_nat,
    lemma_bits_val_injective, lemma_bits_val_bound, pair_seq, pair_index, lemma_pair_seq_len,
    lemma_pairs_upto_shape, lemma_pair_at_index, canon, lemma_canon,
};
use crate::canonical::{mask_bit, class_adj, class_to_adj, perms, mask_of_fn, all_perms, list_adj, vec_contains, MASK_K, all_connected_classes, is_connected_class, strictly_sorted, canonical_arg_fn};
use crate::adjacency::Adjacency;
use crate::esu::{SubsetSink, simple_graph, valid_out, esu_all, count_where, for_each_subset, conn_k_sets, lemma_esu_all};
use crate::census::{local_adj, seq_class, lemma_seq_class_connected, lemma_count_where_push};
use crate::snapshot::Snapshot;

verus! {

// ---------------------------------------------------------------------------
// Automorphisms and orbits of a class
// ---------------------------------------------------------------------------

/// `p` is an automorphism of the `k`-vertex graph `adj`.
pub open spec fn is_aut(k: nat, adj: spec_fn(usize, usize) -> bool, p: Seq<usize>) -> bool {
    relabels(p, k, adj, adj)
}

/// Some automorphism of `adj` maps `a` to `b`.
pub open spec fn same_orbit(k: nat, adj: spec_fn(usize, usize) -> bool, a: usize, b: usize) -> bool {
    exists|p: Seq<usize>| is_aut(k, adj, p) && #[trigger] p[a as int] == b
}

/// The automorphisms of a graph form a group: they contain the identity and are
/// closed under inverse and composition.
pub proof fn lemma_aut_group(k: nat, adj: spec_fn(usize, usize) -> bool, p: Seq<usize>, q: Seq<usize>)
    requires
        k <= usize::MAX,
    ensures
        is_aut(k, adj, id_seq(k)),
        is_aut(k, adj, p) ==> is_aut(k, adj, inverse(p, k)),
        is_aut(k, adj, p) && is_aut(k, adj, q) ==> is_aut(k, adj, compose(p, q)),
{
    lemma_id_seq(k);
    if is_aut(k, adj, p) {
        lemma_relabel_inverse(p, k, adj, adj);
    }
    if is_aut(k, adj, p) && is_aut(k, adj, q) {
        lemma_compose_perm(p, q, k);
        let c = compose(p, q);
        assert forall|i: usize, j: usize| i < k && j < k && i != j implies #[trigger] adj(i, j) == adj(c[i as int], c[j as int]) by {
            assert(adj(i, j) == adj(q[i as int], q[j as int]));
            assert(q[i as int] != q[j as int]);
            assert(adj(q[i as int], q[j as int]) == adj(p[q[i as int] as int], p[q[j as int] as int]));
        }
    }
}

/// Being in the same orbit is an equivalence on `0..k`.
pub proof fn lemma_same_orbit_equiv(k: nat, adj: spec_fn(usize, usize) -> bool, a: usize, b: usize, c: usize)
    requires
        k <= usize::MAX,
        a < k,
        b < k,
        c < k,
    ensures
        same_orbit(k, adj, a, a),
        same_orbit(k, adj, a, b) ==> same_orbit(k, adj, b, a),
        same_orbit(k, adj, a, b) && same_orbit(k, adj, b, c) ==> same_orbit(k, adj, a, c),
{
    let id = id_seq(k);
    lemma_aut_group(k, adj, id, id);
    assert(id[a as int] == a);
    if same_orbit(k, adj, a, b) {
        let p = choose|p: Seq<usize>| is_aut(k, adj, p) && #[trigger] p[a as int] == b;
        lemma_aut_group(k, adj, p, p);
        lemma_inverse(p, k);
        assert(inverse(p, k)[p[a as int] as int] == a);
        if same_orbit(k, adj, b, c) {
            let q = choose|q: Seq<usize>| is_aut(k, adj, q) && #[trigger] q[b as int] == c;
            lemma_aut_group(k, adj, q, p);
            assert(compose(q, p)[a as int] == c);
        }
    }
}

// ---------------------------------------------------------------------------
// Class masks and canonical arrangements
// ---------------------------------------------------------------------------

/// A number below `2^n` is the value of its own first `n` bits.
pub proof fn lemma_bits_of_value(c: nat, n: nat)
    requires
        c < pow2(n),
    ensures
        bits_val(Seq::new(n, |b: int| mask_bit(c, b))) == c,
    decreases n,
{
    let s = Seq::new(n, |b: int| mask_bit(c, b));
    assert(pow2(0) == 1) by { vstd::arithmetic::power2::lemma_pow2(0); vstd::arithmetic::power::lemma_pow0(2); }
    if n == 0 {
        assert(s =~= Seq::<bool>::empty());
    } else {
        lemma_pow2_unfold(n);
        let h = c / 2;
        assert(h < pow2((n - 1) as nat));
        lemma_bits_of_value(h, (n - 1) as nat);
        assert forall|b: int| 0 <= b < n - 1 implies #[trigger] s.drop_first()[b] == mask_bit(h, b) by {
            lemma_pow2_unfold((b + 1) as nat);
            lemma_pow2_pos(b as nat);
            vstd::arithmetic::div_mod::lemma_div_denominator(c as int, 2, pow2(b as nat) as int);
            assert(pow2((b + 1) as nat) == 2 * pow2(b as nat));
            assert(s.drop_first()[b] == mask_bit(c, b + 1));
        }
        assert(s.drop_first() =~= Seq::new((n - 1) as nat, |b: int| mask_bit(h, b)));
        assert(c / 1 == c);
        assert(mask_bit(c, 0) == (c % 2 == 1));
        assert(s[0] == (c % 2 == 1));
        assert(c == c % 2 + 2 * h);
    }
}

/// The identity arrangement of a class's graph reads back the class mask.
pub proof fn lemma_class_adj_mask(c: nat, k: nat)
    requires
        k <= 11,
        c < pow2(pair_seq(k).len()),
    ensures
        mask_val(k, id_seq(k), class_adj(c, k)) == c,
{
    lemma_pair_seq_len(k);
    lemma_pairs_upto_shape(k, k);
    let n = pair_seq(k).len();
    let bits = mask_bits(k, id_seq(k), class_adj(c, k));
    assert forall|b: int| 0 <= b < n implies #[trigger] bits[b] == mask_bit(c, b) by {
        let pr = pair_seq(k)[b];
        assert(pr.0 < pr.1 < k);
        assert(id_seq(k)[pr.0 as int] == pr.0 && id_seq(k)[pr.1 as int] == pr.1);
    }
    assert(bits =~= Seq::new(n, |b: int| mask_bit(c, b)));
    lemma_bits_of_value(c, n);
}

/// A permutation is an automorphism of a class's graph exactly when it leaves the
/// class mask unchanged.
pub proof fn lemma_aut_of_mask(c: nat, k: nat, p: Seq<usize>)
    requires
        k <= 11,
        c < pow2(pair_seq(k).len()),
        is_perm(p, k),
    ensures
        (mask_val(k, p, class_adj(c, k)) == c) == is_aut(k, class_adj(c, k), p),
{
    let kk = class_adj(c, k);
    let id = id_seq(k);
    lemma_class_adj_mask(c, k);
    lemma_pair_seq_len(k);
    lemma_pairs_upto_shape(k, k);
    if mask_val(k, p, kk) == c {
        lemma_bits_val_injective(mask_bits(k, p, kk), mask_bits(k, id, kk));
        assert forall|i: usize, j: usize| i < k && j < k && i != j implies #[trigger] kk(i, j) == kk(p[i as int], p[j as int]) by {
            let (lo, hi) = if i < j { (i, j) } else { (j, i) };
            lemma_pair_at_index(k, lo as nat, hi as nat);
            let b = pair_index(k, lo as nat, hi as nat);
            assert(mask_bits(k, p, kk)[b] == mask_bits(k, id, kk)[b]);
            assert(id[lo as int] == lo && id[hi as int] == hi);
            assert(kk(p[lo as int], p[hi as int]) == kk(lo, hi));
            assert(kk(p[i as int], p[j as int]) == kk(p[j as int], p[i as int]));
            assert(kk(i, j) == kk(j, i));
        }
    }
    if is_aut(k, kk, p) {
        assert forall|b: int| 0 <= b < pair_seq(k).len() implies #[trigger] mask_bits(k, p, kk)[b] == mask_bits(k, id, kk)[b] by {
            let pr = pair_seq(k)[b];
            assert(pr.0 < pr.1 < k);
            assert(kk(pr.0, pr.1) == kk(p[pr.0 as int], p[pr.1 as int]));
        }
        assert(mask_bits(k, p, kk) =~= mask_bits(k, id, kk));
    }
}

/// `a` is a canonical arrangement of the `k`-vertex graph `l`: reading `l` in slot
/// order `a` gives its canonical mask.
pub open spec fn is_arrangement(k: nat, l: spec_fn(usize, usize) -> bool, a: Seq<usize>) -> bool {
    is_perm(a, k) && mask_val(k, a, l) == canon(k, l)
}

/// A canonical arrangement carries `l` onto its class graph: slot `c` holds the vertex
/// `a[c]`.
pub proof fn lemma_arrangement(k: nat, l: spec_fn(usize, usize) -> bool, a: Seq<usize>)
    requires
        k <= 11,
        symmetric_on(k, l),
        is_arrangement(k, l, a),
    ensures
        canon(k, l) < pow2(pair_seq(k).len()),
        relabels(a, k, l, class_adj(canon(k, l), k)),
{
    let c = canon(k, l);
    let kk = class_adj(c, k);
    let id = id_seq(k);
    lemma_pair_seq_len(k);
    lemma_pairs_upto_shape(k, k);
    lemma_bits_val_bound(mask_bits(k, a, l));
    lemma_class_adj_mask(c, k);
    lemma_bits_val_injective(mask_bits(k, a, l), mask_bits(k, id, kk));
    assert forall|i: usize, j: usize| i < k && j < k && i != j implies #[trigger] kk(i, j) == l(a[i as int], a[j as int]) by {
        let (lo, hi) = if i < j { (i, j) } else { (j, i) };
        lemma_pair_at_index(k, lo as nat, hi as nat);
        let b = pair_index(k, lo as nat, hi as nat);
        assert(mask_bits(k, a, l)[b] == mask_bits(k, id, kk)[b]);
        assert(id[lo as int] == lo && id[hi as int] == hi);
        assert(l(a[i as int], a[j as int]) == l(a[j as int], a[i as int]));
        assert(kk(i, j) == kk(j, i));
    }
}

/// Any two canonical arrangements put each vertex in slots of one orbit of the class
/// graph: orbit attribution does not depend on the arrangement chosen.
pub proof fn lemma_arrangement_orbit(k: nat, l: spec_fn(usize, usize) -> bool, a1: Seq<usize>, a2: Seq<usize>, i: usize)
    requires
        k <= 11,
        symmetric_on(k, l),
        is_arrangement(k, l, a1),
        is_arrangement(k, l, a2),
        i < k,
    ensures
        same_orbit(k, class_adj(canon(k, l), k), inverse(a2, k)[i as int], inverse(a1, k)[i as int]),
{
    let kk = class_adj(canon(k, l), k);
    lemma_arrangement(k, l, a1);
    lemma_arrangement(k, l, a2);
    lemma_relabel_inverse(a1, k, l, kk);
    let inv1 = inverse(a1, k);
    let inv2 = inverse(a2, k);
    lemma_inverse(a1, k);
    lemma_inverse(a2, k);
    let tau = compose(inv1, a2);
    lemma_compose_perm(inv1, a2, k);
    assert forall|c: usize, d: usize| c < k && d < k && c != d implies #[trigger] kk(c, d) == kk(tau[c as int], tau[d as int]) by {
        assert(kk(c, d) == l(a2[c as int], a2[d as int]));
        assert(a2[c as int] != a2[d as int]);
        assert(l(a2[c as int], a2[d as int]) == kk(inv1[a2[c as int] as int], inv1[a2[d as int] as int]));
    }
    assert(is_aut(k, kk, tau));
    assert(tau[inv2[i as int] as int] == inv1[i as int]);
}

// ---------------------------------------------------------------------------
// Orbit labels of one class
// ---------------------------------------------------------------------------

/// Slot `c` is the first slot of its orbit.
pub open spec fn first_of_orbit(k: nat, adj: spec_fn(usize, usize) -> bool, c: usize) -> bool {
    forall|d: usize| d < c ==> !#[trigger] same_orbit(k, adj, d, c)
}

/// The number of orbits first met among the slots `0..c`.
pub open spec fn orbits_before(k: nat, adj: spec_fn(usize, usize) -> bool, c: nat) -> nat
    decreases c,
{
    if c == 0 {
        0
    } else {
        orbits_before(k, adj, (c - 1) as nat) + (if first_of_orbit(k, adj, (c - 1) as usize) { 1nat } else { 0nat })
    }
}

/// `lab` numbers the automorphism orbits of the `k`-vertex graph `adj` densely, in
/// order of first appearance.
pub open spec fn orbit_labels(k: nat, adj: spec_fn(usize, usize) -> bool, lab: Seq<usize>) -> bool {
    &&& lab.len() == k
    &&& forall|a: usize, b: usize| a < k && b < k ==> (lab[a as int] == lab[b as int] <==> #[trigger] same_orbit(k, adj, a, b))
    &&& forall|c: int| 0 <= c < k ==> #[trigger] lab[c] < orbits_before(k, adj, k)
    &&& forall|c: usize| c < k && #[trigger] first_of_orbit(k, adj, c) ==> lab[c as int] == orbits_before(k, adj, c as nat)
}

pub(crate) proof fn lemma_orbits_before_mono(k: nat, adj: spec_fn(usize, usize) -> bool, a: nat, b: nat)
    requires
        a <= b,
    ensures
        orbits_before(k, adj, a) <= orbits_before(k, adj, b),
    decreases b - a,
{
    if a < b {
        lemma_orbits_before_mono(k, adj, a, (b - 1) as nat);
    }
}

/// The automorphisms of the class graph, as permutations.
fn class_automorphisms(class: u64, k: usize) -> (autos: Vec<Vec<usize>>)
    requires
        1 <= k <= MASK_K,
        class < pow2(pair_seq(k as nat).len()),
    ensures
        forall|p: Seq<usize>| #[trigger] autos.deep_view().contains(p) <==> is_aut(k as nat, class_adj(class as nat, k as nat), p),
{
    let ghost kk = class_adj(class as nat, k as nat);
    let adj = class_to_adj(class, k);
    let ps = perms(k);
    let ghost dv = ps.deep_view();
    let mut autos: Vec<Vec<usize>> = Vec::new();
    let mut t: usize = 0;
    while t < ps.len()
        invariant
            1 <= k <= MASK_K,
            class < pow2(pair_seq(k as nat).len()),
            t <= ps@.len(),
            dv == ps.deep_view(),
            all_perms(dv, k as nat),
            adj@.len() == k,
            list_adj(adj.deep_view()) == kk,
            kk == class_adj(class as nat, k as nat),
            forall|p: Seq<usize>| #[trigger] autos.deep_view().contains(p) <==> (dv.take(t as int).contains(p) && is_aut(k as nat, kk, p)),
        decreases ps@.len() - t,
    {
        let p = &ps[t];
        proof {
            assert(p@ == dv[t as int]);
            assert(dv.contains(dv[t as int]));
            lemma_aut_of_mask(class as nat, k as nat, p@);
        }
        let is_adj = |i: usize, j: usize| -> (r: bool)
            requires
                i < adj@.len(),
            ensures
                r == list_adj(adj.deep_view())(i, j),
        {
            assert(adj@[i as int]@ == adj.deep_view()[i as int]);
            vec_contains(&adj[i], j)
        };
        let m = mask_of_fn(k, p.as_slice(), is_adj, Ghost(kk));
        let ghost a0 = autos.deep_view();
        if m == class {
            let c = p.clone();
            assert(c@ =~= p@);
            autos.push(c);
            proof {
                assert(autos.deep_view() =~= a0.push(p@));
            }
        }
        proof {
            assert(dv.take(t + 1) =~= dv.take(t as int).push(dv[t as int]));
            assert forall|q: Seq<usize>| #[trigger] autos.deep_view().contains(q) <==> (dv.take(t + 1).contains(q) && is_aut(k as nat, kk, q)) by {
                crate::esu::lemma_push_contains_seq(dv.take(t as int), dv[t as int], q);
                if m == class {
                    crate::esu::lemma_push_contains_seq(a0, p@, q);
                }
            }
        }
        t += 1;
    }
    proof {
        assert(dv.take(dv.len() as int) =~= dv);
        assert forall|p: Seq<usize>| #[trigger] autos.deep_view().contains(p) <==> is_aut(k as nat, kk, p) by {
            if is_aut(k as nat, kk, p) {
                assert(dv.contains(p));
            }
        }
    }
    autos
}

/// Whether some listed automorphism maps `d` to `c`.
pub(crate) fn maps_to(autos: &Vec<Vec<usize>>, d: usize, c: usize, Ghost(k): Ghost<nat>, Ghost(kk): Ghost<spec_fn(usize, usize) -> bool>) -> (r: bool)
    requires
        d < k,
        forall|p: Seq<usize>| #[trigger] autos.deep_view().contains(p) <==> is_aut(k, kk, p),
    ensures
        r == same_orbit(k, kk, d, c),
{
    let ghost dv = autos.deep_view();
    let mut t: usize = 0;
    while t < autos.len()
        invariant
            t <= autos@.len(),
            dv == autos.deep_view(),
            d < k,
            forall|p: Seq<usize>| #[trigger] dv.contains(p) <==> is_aut(k, kk, p),
            forall|u: int| 0 <= u < t ==> (#[trigger] dv[u])[d as int] != c,
        decreases autos@.len() - t,
    {
        let p = &autos[t];
        assert(p@ == dv[t as int]);
        assert(dv.contains(dv[t as int]));
        assert(p@.len() == k);
        if p[d] == c {
            return true;
        }
        t += 1;
    }
    proof {
        if same_orbit(k, kk, d, c) {
            let p = choose|p: Seq<usize>| is_aut(k, kk, p) && #[trigger] p[d as int] == c;
            assert(dv.contains(p));
            let u = choose|u: int| 0 <= u < dv.len() && dv[u] == p;
        }
    }
    false
}

/// Partition the slots of the class's canonical graph into automorphism orbits,
/// numbered densely in order of first appearance.
pub fn orbit_partition(class: u64, k: usize) -> (lab: Vec<usize>)
    requires
        1 <= k <= MASK_K,
        class < pow2(pair_seq(k as nat).len()),
    ensures
        orbit_labels(k as nat, class_adj(class as nat, k as nat), lab@),
{
    let ghost kk = class_adj(class as nat, k as nat);
    let autos = class_automorphisms(class, k);
    orbit_labels_from(&autos, k, Ghost(kk))
}

/// Number the automorphism orbits of a `k`-vertex graph densely, in order of first
/// appearance, given the list of its automorphisms.
pub(crate) fn orbit_labels_from(autos: &Vec<Vec<usize>>, k: usize, Ghost(kk): Ghost<spec_fn(usize, usize) -> bool>) -> (lab: Vec<usize>)
    requires
        1 <= k,
        forall|p: Seq<usize>| #[trigger] autos.deep_view().contains(p) <==> is_aut(k as nat, kk, p),
    ensures
        orbit_labels(k as nat, kk, lab@),
{
    let mut lab: Vec<usize> = Vec::new();
    let mut next: usize = 0;
    let mut c: usize = 0;
    while c < k
        invariant
            1 <= k,
            c <= k,
            forall|p: Seq<usize>| #[trigger] autos.deep_view().contains(p) <==> is_aut(k as nat, kk, p),
            lab@.len() == c,
            next == orbits_before(k as nat, kk, c as nat),
            next <= c,
            forall|a: usize, b: usize| a < c && b < c ==> (lab@[a as int] == lab@[b as int] <==> #[trigger] same_orbit(k as nat, kk, a, b)),
            forall|a: int| 0 <= a < c ==> #[trigger] lab@[a] < next,
            forall|a: usize| a < c && #[trigger] first_of_orbit(k as nat, kk, a) ==> lab@[a as int] == orbits_before(k as nat, kk, a as nat),
        decreases k - c,
    {
        let mut found = false;
        let mut l: usize = 0;
        let mut d: usize = 0;
        while d < c && !found
            invariant
                c < k,
                d <= c,
                forall|p: Seq<usize>| #[trigger] autos.deep_view().contains(p) <==> is_aut(k as nat, kk, p),
                lab@.len() == c,
                found ==> d > 0 && same_orbit(k as nat, kk, (d - 1) as usize, c) && l == lab@[d - 1],
                !found ==> forall|e: usize| e < d ==> !#[trigger] same_orbit(k as nat, kk, e, c),
            decreases c - d,
        {
            if maps_to(autos, d, c, Ghost(k as nat), Ghost(kk)) {
                found = true;
                l = lab[d];
            }
            d += 1;
        }
        proof {
            assert forall|a: usize| a < k implies same_orbit(k as nat, kk, a, a) by {
                lemma_same_orbit_equiv(k as nat, kk, a, a, a);
            }
        }
        if found {
            let ghost dd = (d - 1) as usize;
            lab.push(l);
            proof {
                assert(!first_of_orbit(k as nat, kk, c));
                assert(orbits_before(k as nat, kk, (c + 1) as nat) == next);
                assert forall|a: usize, b: usize| a < c + 1 && b < c + 1 implies (lab@[a as int] == lab@[b as int] <==> #[trigger] same_orbit(k as nat, kk, a, b)) by {
                    lemma_same_orbit_equiv(k as nat, kk, a, dd, c);
                    lemma_same_orbit_equiv(k as nat, kk, dd, c, a);
                    lemma_same_orbit_equiv(k as nat, kk, b, dd, c);
                    lemma_same_orbit_equiv(k as nat, kk, dd, c, b);
                    lemma_same_orbit_equiv(k as nat, kk, a, c, dd);
                    lemma_same_orbit_equiv(k as nat, kk, b, c, dd);
                    lemma_same_orbit_equiv(k as nat, kk, c, dd, a);
                    lemma_same_orbit_equiv(k as nat, kk, c, dd, b);
                    if a < c && b < c {
                    } else if a == c && b < c {
                        assert(lab@[a as int] == lab@[dd as int]);
                    } else if b == c && a < c {
                        assert(lab@[b as int] == lab@[dd as int]);
                    }
                }
            }
        } else {
            lab.push(next);
            proof {
                assert(first_of_orbit(k as nat, kk, c));
                assert forall|a: usize, b: usize| a < c + 1 && b < c + 1 implies (lab@[a as int] == lab@[b as int] <==> #[trigger] same_orbit(k as nat, kk, a, b)) by {
                    lemma_same_orbit_equiv(k as nat, kk, a, c, a);
                    lemma_same_orbit_equiv(k as nat, kk, b, c, b);
                    lemma_same_orbit_equiv(k as nat, kk, c, a, c);
                    lemma_same_orbit_equiv(k as nat, kk, c, b, c);
                    if a == c && b < c {
                        assert(lab@[b as int] < next);
                    } else if b == c && a < c {
                        assert(lab@[a as int] < next);
                    }
                }
            }
            next += 1;
        }
        c += 1;
    }
    proof {
        assert forall|a: int| 0 <= a < k implies #[trigger] lab@[a] < orbits_before(k as nat, kk, k as nat) by {}
    }
    lab
}

/// Some slot is the first of the last orbit met.
pub(crate) proof fn lemma_last_first(k: nat, adj: spec_fn(usize, usize) -> bool, m: nat)
    requires
        orbits_before(k, adj, m) >= 1,
        m <= usize::MAX + 1,
    ensures
        exists|c: usize| c < m && #[trigger] first_of_orbit(k, adj, c) && orbits_before(k, adj, c as nat) + 1 == orbits_before(k, adj, m),
    decreases m,
{
    let c = (m - 1) as usize;
    if first_of_orbit(k, adj, c) {
        assert(orbits_before(k, adj, c as nat) + 1 == orbits_before(k, adj, m));
    } else {
        lemma_last_first(k, adj, (m - 1) as nat);
        let c2 = choose|c2: usize| c2 < m - 1 && #[trigger] first_of_orbit(k, adj, c2) && orbits_before(k, adj, c2 as nat) + 1 == orbits_before(k, adj, (m - 1) as nat);
        assert(c2 < m);
    }
}

/// How many entries of `s` equal `v`.
pub open spec fn count_eq(s: Seq<usize>, v: usize) -> nat
    decreases s.len(),
{
    if s.len() == 0 {
        0
    } else {
        count_eq(s.drop_last(), v) + (if s.last() == v { 1nat } else { 0nat })
    }
}

/// A strictly increasing sequence below `b` has at most `b` entries.
pub(crate) proof fn lemma_sorted_len(v: Seq<u64>, b: nat)
    requires
        strictly_sorted(v),
        forall|i: int| 0 <= i < v.len() ==> (#[trigger] v[i]) < b,
    ensures
        v.len() <= b,
{
    assert forall|i: int| 0 <= i < v.len() implies #[trigger] v[i] >= i by {
        lemma_sorted_ge(v, i);
    }
    if v.len() > 0 {
        assert(v[v.len() - 1] >= v.len() - 1);
    }
}

pub(crate) proof fn lemma_sorted_ge(v: Seq<u64>, i: int)
    requires
        strictly_sorted(v),
        0 <= i < v.len(),
    ensures
        v[i] >= i,
    decreases i,
{
    if i > 0 {
        lemma_sorted_ge(v, i - 1);
    }
}

// ---------------------------------------------------------------------------
// The orbit registry
// ---------------------------------------------------------------------------

/// The largest graphlet order attributed to orbits.
pub const ORBIT_MAX_K: usize = 5;

/// One registered class: its order, mask, first global orbit id and the global orbit
/// id of each canonical slot.
struct RegEntry {
    k: usize,
    class: u64,
    base: usize,
    slots: Vec<usize>,
}

/// The number of orbits of a registered class.
pub open spec fn n_orbits(k: usize, class: u64) -> nat {
    orbits_before(k as nat, class_adj(class as nat, k as nat), k as nat)
}

/// `slots` gives each slot the id `base` plus its dense orbit label.
pub open spec fn slots_ok(k: usize, class: u64, base: usize, slots: Seq<usize>) -> bool {
    &&& 2 <= k <= ORBIT_MAX_K
    &&& class < pow2(pair_seq(k as nat).len())
    &&& is_connected_class(k as nat, class as nat)
    &&& slots.len() == k
    &&& forall|c: int| 0 <= c < k ==> #[trigger] slots[c] >= base
    &&& orbit_labels(k as nat, class_adj(class as nat, k as nat), Seq::new(k as nat, |c: int| (slots[c] - base) as usize))
}

/// The registry's entries and orbit table agree.
spec fn registry_ok(es: Seq<RegEntry>, info: Seq<(usize, u64, usize)>) -> bool {
    &&& forall|e: int| 0 <= e < es.len() ==> slots_ok(
        (#[trigger] es[e]).k, es[e].class, es[e].base, es[e].slots@)
    &&& es.len() > 0 ==> es[0].base == 0
    &&& forall|e: int| 0 <= e < es.len() - 1 ==> #[trigger] es[e + 1].base
        == es[e].base + n_orbits(es[e].k, es[e].class)
    &&& info.len() == (if es.len() == 0 { 0 } else {
        es.last().base + n_orbits(es.last().k, es.last().class) })
    &&& forall|e: int, l: int| 0 <= e < es.len() && 0 <= l < n_orbits(es[e].k, es[e].class)
        ==> #[trigger] info[es[e].base + l] == (es[e].k, es[e].class,
            count_eq(es[e].slots@, (es[e].base + l) as usize) as usize)
    &&& forall|e: int, f: int| 0 <= e < f < es.len() ==> (#[trigger] es[e]).k < (#[trigger] es[f]).k
        || (es[e].k == es[f].k && es[e].class < es[f].class)
    &&& forall|k: usize, c: u64| 2 <= k <= ORBIT_MAX_K && #[trigger] is_connected_class(k as nat, c as nat)
        ==> exists|e: int| 0 <= e < es.len() && #[trigger] es[e].k == k && es[e].class == c
}

/// The automorphism-orbit registry for orders `2..=5`: a dense global orbit id for
/// every (class, local orbit), ordered by order, then class mask, then local orbit.
pub struct Registry {
    entries: Vec<RegEntry>,
    orbit_info: Vec<(usize, u64, usize)>,
}

/// The registry entry of one class: its slot ids (from `base`) and the size of each
/// of its orbits.
fn make_entry(k: usize, class: u64, base: usize) -> (r: (RegEntry, Vec<usize>))
    requires
        2 <= k <= ORBIT_MAX_K,
        class < pow2(pair_seq(k as nat).len()),
        is_connected_class(k as nat, class as nat),
        base <= 30000,
    ensures
        r.0.k == k,
        r.0.class == class,
        r.0.base == base,
        slots_ok(k, class, base, r.0.slots@),
        n_orbits(k, class) <= 5,
        r.1@.len() == n_orbits(k, class),
        forall|l: int| 0 <= l < r.1@.len() ==> #[trigger] r.1@[l] == count_eq(r.0.slots@, (base + l) as usize),
{
    let ghost kk = class_adj(class as nat, k as nat);
    let part = orbit_partition(class, k);
    proof { lemma_orbits_before_le(k as nat, kk, k as nat); }
    let mut mx: usize = 0;
    let mut i: usize = 0;
    while i < k
        invariant
            i <= k,
            2 <= k <= ORBIT_MAX_K,
            mx < k,
            forall|c: int| 0 <= c < k ==> #[trigger] part@[c] < k,
            part@.len() == k,
            forall|c: int| 0 <= c < i ==> #[trigger] part@[c] <= mx,
            i > 0 ==> exists|c: int| 0 <= c < i && #[trigger] part@[c] == mx,
            i == 0 ==> mx == 0,
        decreases k - i,
    {
        if part[i] > mx {
            mx = part[i];
        }
        i += 1;
    }
    let n_local = mx + 1;
    proof {
        assert(part@[0] <= mx);
        let nn = orbits_before(k as nat, kk, k as nat);
        let c0 = choose|c: int| 0 <= c < k && #[trigger] part@[c] == mx;
        assert(part@[c0] < nn);
        assert(first_of_orbit(k as nat, kk, 0));
        assert(nn >= 1) by {
            lemma_orbits_before_mono(k as nat, kk, 1, k as nat);
            assert(orbits_before(k as nat, kk, 0) == 0);
        }
        lemma_last_first(k as nat, kk, k as nat);
        let cl = choose|c: usize| c < k && #[trigger] first_of_orbit(k as nat, kk, c) && orbits_before(k as nat, kk, c as nat) + 1 == nn;
        assert(part@[cl as int] == nn - 1);
        assert(n_local == nn);
    }
    let mut sizes: Vec<usize> = Vec::new();
    let mut o: usize = 0;
    while o < n_local
        invariant
            o <= n_local,
            sizes@.len() == o,
            forall|j: int| 0 <= j < o ==> #[trigger] sizes@[j] == 0,
        decreases n_local - o,
    {
        sizes.push(0);
        o += 1;
    }
    assert(forall|j: int| 0 <= j < n_local ==> #[trigger] sizes@[j] == count_eq(part@.take(0), j as usize));
    let mut i: usize = 0;
    while i < k
        invariant
            i <= k,
            part@.len() == k,
            sizes@.len() == n_local,
            n_local <= k,
            forall|c: int| 0 <= c < k ==> #[trigger] part@[c] < n_local,
            forall|j: int| 0 <= j < n_local ==> #[trigger] sizes@[j] == count_eq(part@.take(i as int), j as usize),
        decreases k - i,
    {
        let lo = part[i];
        let cur = sizes[lo];
        proof {
            assert(part@.take(i + 1).drop_last() =~= part@.take(i as int));
            lemma_count_eq_le(part@.take(i as int), lo);
        }
        sizes.set(lo, cur + 1);
        proof {
            assert forall|j: int| 0 <= j < n_local implies #[trigger] sizes@[j] == count_eq(part@.take(i + 1), j as usize) by {
                assert(part@.take(i + 1).last() == lo);
            }
        }
        i += 1;
    }
    proof { assert(part@.take(k as int) =~= part@); }
    let mut slotmap: Vec<usize> = Vec::new();
    let mut i: usize = 0;
    while i < k
        invariant
            i <= k,
            part@.len() == k,
            n_local <= 5,
            base <= 30000,
            forall|c: int| 0 <= c < k ==> #[trigger] part@[c] < n_local,
            slotmap@.len() == i,
            forall|c: int| 0 <= c < i ==> #[trigger] slotmap@[c] == base + part@[c],
        decreases k - i,
    {
        slotmap.push(base + part[i]);
        i += 1;
    }
    let ent = RegEntry { k, class, base, slots: slotmap };
    proof {
        let sl = ent.slots@;
        assert(Seq::new(k as nat, |c: int| (sl[c] - base) as usize) =~= part@);
        assert forall|l: int| 0 <= l < n_local implies #[trigger] sizes@[l] == count_eq(sl, (base + l) as usize) by {
            lemma_count_eq_shift(part@, sl, base, l as usize);
        }
    }
    (ent, sizes)
}

impl Registry {
    #[verifier::type_invariant]
    spec fn inv(self) -> bool {
        registry_ok(self.entries@, self.orbit_info@)
    }

    /// `(order, class mask, orbit size)` of every global orbit id.
    pub closed spec fn orbits(&self) -> Seq<(usize, u64, usize)> {
        self.orbit_info@
    }

    /// The entries and the orbit table agree: every registered class owns the
    /// consecutive ids of its orbits, and each id records its class and orbit size.
    pub closed spec fn well_formed(&self) -> bool {
        registry_ok(self.entries@, self.orbit_info@)
    }

    /// Whether the class `c` of order `k` is registered.
    pub closed spec fn registered(&self, k: usize, c: u64) -> bool {
        exists|e: int| 0 <= e < self.entries@.len() && #[trigger] self.entries@[e].k == k && self.entries@[e].class == c
    }

    /// The global orbit id of each canonical slot of a registered class.
    pub closed spec fn slots_of(&self, k: usize, c: u64) -> Seq<usize> {
        self.entries@[choose|e: int| 0 <= e < self.entries@.len() && #[trigger] self.entries@[e].k == k && self.entries@[e].class == c].slots@
    }

    /// Build the registry for orders `2..=5` (73 orbits).
    pub fn build() -> (r: Self)
        ensures
            r.well_formed(),
            r.numbered(),
            forall|k: usize, c: u64| #[trigger] r.registered(k, c) <==> 2 <= k <= ORBIT_MAX_K && is_connected_class(k as nat, c as nat),
    {
        let mut entries: Vec<RegEntry> = Vec::new();
        let mut orbit_info: Vec<(usize, u64, usize)> = Vec::new();
        let mut next_id: usize = 0;
        let mut k: usize = 2;
        while k <= ORBIT_MAX_K
            invariant
                2 <= k <= ORBIT_MAX_K + 1,
                next_id <= (k - 2) * 1024 * 5,
                orbit_info@.len() == next_id,
                forall|e: int| 0 <= e < entries@.len() ==> slots_ok(
                    (#[trigger] entries@[e]).k, entries@[e].class, entries@[e].base, entries@[e].slots@),
                forall|e: int| 0 <= e < entries@.len() ==> (#[trigger] entries@[e]).k < k,
                entries@.len() > 0 ==> entries@[0].base == 0,
                forall|e: int| 0 <= e < entries@.len() - 1 ==> #[trigger] entries@[e + 1].base
                    == entries@[e].base + n_orbits(entries@[e].k, entries@[e].class),
                next_id == (if entries@.len() == 0 { 0 } else {
                    entries@.last().base + n_orbits(entries@.last().k, entries@.last().class) }),
                forall|e: int, l: int| 0 <= e < entries@.len() && 0 <= l < n_orbits(entries@[e].k, entries@[e].class)
                    ==> #[trigger] orbit_info@[entries@[e].base + l] == (entries@[e].k, entries@[e].class,
                        count_eq(entries@[e].slots@, (entries@[e].base + l) as usize) as usize),
                forall|e: int, f: int| 0 <= e < f < entries@.len() ==> (#[trigger] entries@[e]).k < (#[trigger] entries@[f]).k
                    || (entries@[e].k == entries@[f].k && entries@[e].class < entries@[f].class),
                forall|kk: usize, c: u64| 2 <= kk < k && #[trigger] is_connected_class(kk as nat, c as nat)
                    ==> exists|e: int| 0 <= e < entries@.len() && #[trigger] entries@[e].k == kk && entries@[e].class == c,
            decreases ORBIT_MAX_K + 1 - k,
        {
            let classes = all_connected_classes(k);
            let ghost cls = classes@;
            let ghost e0 = entries@.len();
            proof {
                lemma_pair_seq_len(k as nat);
                assert forall|i: int| 0 <= i < cls.len() implies (#[trigger] cls[i]) < pow2(pair_seq(k as nat).len()) by {
                    assert(cls.contains(cls[i]));
                    lemma_connected_class_bound(k as nat, cls[i] as nat);
                }
                assert(k * (k - 1) <= 20) by (nonlinear_arith)
                    requires k <= 5;
                assert(pow2(pair_seq(k as nat).len()) <= 1024) by {
                    if pair_seq(k as nat).len() < 10 {
                        vstd::arithmetic::power2::lemma_pow2_strictly_increases(pair_seq(k as nat).len(), 10);
                    }
                    vstd::arithmetic::power2::lemma2_to64();
                }
                lemma_sorted_len(cls, 1024);
            }
            let mut t: usize = 0;
            while t < classes.len()
                invariant
                    2 <= k <= ORBIT_MAX_K,
                    cls == classes@,
                    strictly_sorted(cls),
                    cls.len() <= 1024,
                    forall|i: int| 0 <= i < cls.len() ==> (#[trigger] cls[i]) < pow2(pair_seq(k as nat).len()),
                    forall|c: u64| #[trigger] cls.contains(c) <==> is_connected_class(k as nat, c as nat),
                    t <= cls.len(),
                    e0 <= entries@.len(),
                    entries@.len() == e0 + t,
                    forall|i: int| 0 <= i < t ==> (#[trigger] entries@[e0 + i]).class == cls[i] && entries@[e0 + i].k == k,
                    next_id <= (k - 2) * 1024 * 5 + t * 5,
                    t <= 1024,
                    orbit_info@.len() == next_id,
                    forall|e: int| 0 <= e < entries@.len() ==> slots_ok(
                        (#[trigger] entries@[e]).k, entries@[e].class, entries@[e].base, entries@[e].slots@),
                    forall|e: int| 0 <= e < e0 ==> (#[trigger] entries@[e]).k < k,
                    entries@.len() > 0 ==> entries@[0].base == 0,
                    forall|e: int| 0 <= e < entries@.len() - 1 ==> #[trigger] entries@[e + 1].base
                        == entries@[e].base + n_orbits(entries@[e].k, entries@[e].class),
                    next_id == (if entries@.len() == 0 { 0 } else {
                        entries@.last().base + n_orbits(entries@.last().k, entries@.last().class) }),
                    forall|e: int, l: int| 0 <= e < entries@.len() && 0 <= l < n_orbits(entries@[e].k, entries@[e].class)
                        ==> #[trigger] orbit_info@[entries@[e].base + l] == (entries@[e].k, entries@[e].class,
                            count_eq(entries@[e].slots@, (entries@[e].base + l) as usize) as usize),
                    forall|e: int, f: int| 0 <= e < f < entries@.len() ==> (#[trigger] entries@[e]).k < (#[trigger] entries@[f]).k
                        || (entries@[e].k == entries@[f].k && entries@[e].class < entries@[f].class),
                    forall|kk: usize, c: u64| 2 <= kk < k && #[trigger] is_connected_class(kk as nat, c as nat)
                        ==> exists|e: int| 0 <= e < entries@.len() && #[trigger] entries@[e].k == kk && entries@[e].class == c,
                decreases cls.len() - t,
            {
                let class = classes[t];
                proof { assert(cls.contains(class)); }
                let (ent, sizes) = make_entry(k, class, next_id);
                let n_local = sizes.len();
                let ghost info0 = orbit_info@;
                let mut o: usize = 0;
                while o < n_local
                    invariant
                        o <= n_local,
                        sizes@.len() == n_local,
                        orbit_info@.len() == info0.len() + o,
                        forall|j: int| 0 <= j < info0.len() ==> #[trigger] orbit_info@[j] == info0[j],
                        forall|j: int| 0 <= j < o ==> #[trigger] orbit_info@[info0.len() + j] == (k, class, sizes@[j]),
                    decreases n_local - o,
                {
                    orbit_info.push((k, class, sizes[o]));
                    o += 1;
                }
                let ghost base = next_id;
                next_id = next_id + n_local;
                let ghost ent_old = entries@;
                entries.push(ent);
                proof {
                    let ne = entries@.len() - 1;
                    let sl = entries@[ne].slots@;
                    assert forall|e: int, l: int| 0 <= e < entries@.len() && 0 <= l < n_orbits(entries@[e].k, entries@[e].class)
                        implies #[trigger] orbit_info@[entries@[e].base + l] == (entries@[e].k, entries@[e].class,
                            count_eq(entries@[e].slots@, (entries@[e].base + l) as usize) as usize) by {
                        if e < ne {
                            assert(entries@[e] == ent_old[e]);
                            lemma_bases_below(ent_old, e);
                        } else {
                            assert(orbit_info@[info0.len() + l] == (k, class, sizes@[l]));
                        }
                    }
                    assert forall|e: int, f: int| 0 <= e < f < entries@.len() implies (#[trigger] entries@[e]).k < (#[trigger] entries@[f]).k
                        || (entries@[e].k == entries@[f].k && entries@[e].class < entries@[f].class) by {
                        if f == ne && e >= e0 {
                            assert(entries@[e] == ent_old[e]);
                            assert(ent_old[e0 + (e - e0)].class == cls[e - e0]);
                            assert(entries@[e].class == cls[e - e0]);
                            assert(cls[e - e0] < cls[t as int]);
                        }
                    }
                    assert forall|i: int| 0 <= i < t + 1 implies (#[trigger] entries@[e0 + i]).class == cls[i] && entries@[e0 + i].k == k by {
                        if i < t { assert(entries@[e0 + i] == ent_old[e0 + i]); }
                    }
                    assert forall|kk2: usize, c: u64| 2 <= kk2 < k && #[trigger] is_connected_class(kk2 as nat, c as nat)
                        implies exists|e: int| 0 <= e < entries@.len() && #[trigger] entries@[e].k == kk2 && entries@[e].class == c by {
                        let e = choose|e: int| 0 <= e < ent_old.len() && #[trigger] ent_old[e].k == kk2 && ent_old[e].class == c;
                        assert(entries@[e] == ent_old[e]);
                    }
                }
                t += 1;
            }
            proof {
                assert forall|e: int| 0 <= e < entries@.len() implies (#[trigger] entries@[e]).k < k + 1 by {
                    if e >= e0 {
                        assert(entries@[e0 + (e - e0)].k == k);
                    }
                }
                assert forall|kk: usize, c: u64| 2 <= kk < k + 1 && #[trigger] is_connected_class(kk as nat, c as nat)
                    implies exists|e: int| 0 <= e < entries@.len() && #[trigger] entries@[e].k == kk && entries@[e].class == c by {
                    if kk == k {
                        assert(cls.contains(c));
                        let i = choose|i: int| 0 <= i < cls.len() && cls[i] == c;
                        assert(entries@[e0 + i].class == c && entries@[e0 + i].k == k);
                    }
                }
            }
            k += 1;
        }
        proof {
            assert(k == ORBIT_MAX_K + 1);
            assert(forall|e: int| 0 <= e < entries@.len() ==> slots_ok(
                (#[trigger] entries@[e]).k, entries@[e].class, entries@[e].base, entries@[e].slots@));
            assert(entries@.len() > 0 ==> entries@[0].base == 0);
            assert(forall|e: int, f: int| 0 <= e < f < entries@.len() ==> (#[trigger] entries@[e]).k < (#[trigger] entries@[f]).k
                || (entries@[e].k == entries@[f].k && entries@[e].class < entries@[f].class));
            assert(registry_ok(entries@, orbit_info@));
            assert(forall|kk: usize, c: u64| 2 <= kk <= ORBIT_MAX_K && #[trigger] is_connected_class(kk as nat, c as nat)
                ==> exists|e: int| 0 <= e < entries@.len() && #[trigger] entries@[e].k == kk && entries@[e].class == c);
            assert(forall|e: int| 0 <= e < entries@.len() - 1 ==> #[trigger] entries@[e + 1].base
                == entries@[e].base + n_orbits(entries@[e].k, entries@[e].class));
            assert(orbit_info@.len() == (if entries@.len() == 0 { 0 } else {
                entries@.last().base + n_orbits(entries@.last().k, entries@.last().class) }));
        }
        let r = Registry { entries, orbit_info };
        proof {
            assert forall|k: usize, c: u64| #[trigger] r.registered(k, c) <==> 2 <= k <= ORBIT_MAX_K && is_connected_class(k as nat, c as nat) by {
                if r.registered(k, c) {
                    let e = choose|e: int| 0 <= e < r.entries@.len() && #[trigger] r.entries@[e].k == k && r.entries@[e].class == c;
                    assert(slots_ok(r.entries@[e].k, r.entries@[e].class, r.entries@[e].base, r.entries@[e].slots@));
                }
            }
            r.lemma_numbered();
        }
        r
    }
}

/// Bases grow: every earlier entry's ids lie below a later entry's base.
proof fn lemma_entry_before(es: Seq<RegEntry>, info: Seq<(usize, u64, usize)>, e: int, f: int)
    requires
        registry_ok(es, info),
        0 <= e < f < es.len(),
    ensures
        es[e].base + n_orbits(es[e].k, es[e].class) <= es[f].base,
    decreases f - e,
{
    assert(es[(f - 1) + 1].base == es[f - 1].base + n_orbits(es[f - 1].k, es[f - 1].class));
    if e < f - 1 {
        lemma_entry_before(es, info, e, f - 1);
    }
}

/// The entry, from `e` on, whose ids include `o`.
proof fn lemma_owner_from(es: Seq<RegEntry>, info: Seq<(usize, u64, usize)>, o: int, e: int) -> (r: int)
    requires
        registry_ok(es, info),
        0 <= e < es.len(),
        es[e].base <= o < info.len(),
    ensures
        0 <= r < es.len(),
        es[r].base <= o < es[r].base + n_orbits(es[r].k, es[r].class),
    decreases es.len() - e,
{
    if o < es[e].base + n_orbits(es[e].k, es[e].class) {
        e
    } else {
        assert(e + 1 < es.len());
        assert(es[e + 1].base == es[e].base + n_orbits(es[e].k, es[e].class));
        lemma_owner_from(es, info, o, e + 1)
    }
}

/// A class is registered by one entry only.
proof fn lemma_entry_unique(es: Seq<RegEntry>, info: Seq<(usize, u64, usize)>, e: int, f: int)
    requires
        registry_ok(es, info),
        0 <= e < es.len(),
        0 <= f < es.len(),
        es[e].k == es[f].k,
        es[e].class == es[f].class,
    ensures
        e == f,
{
    if e < f {
        assert(es[e].k < es[f].k || (es[e].k == es[f].k && es[e].class < es[f].class));
    } else if f < e {
        assert(es[f].k < es[e].k || (es[f].k == es[e].k && es[f].class < es[e].class));
    }
}

/// The slots of an entry carry its own ids only.
proof fn lemma_entry_slots(es: Seq<RegEntry>, info: Seq<(usize, u64, usize)>, e: int, c: int)
    requires
        registry_ok(es, info),
        0 <= e < es.len(),
        0 <= c < es[e].k,
    ensures
        es[e].slots@.len() == es[e].k,
        es[e].base <= es[e].slots@[c] < es[e].base + n_orbits(es[e].k, es[e].class),
{
    let ent = es[e];
    assert(slots_ok(ent.k, ent.class, ent.base, ent.slots@));
    let lab = Seq::new(ent.k as nat, |t: int| (ent.slots@[t] - ent.base) as usize);
    assert(orbit_labels(ent.k as nat, class_adj(ent.class as nat, ent.k as nat), lab));
    assert(lab[c] < n_orbits(ent.k, ent.class));
}

/// Every label below the number of orbits is the label of some slot.
pub(crate) proof fn lemma_label_met(k: nat, adj: spec_fn(usize, usize) -> bool, lab: Seq<usize>, l: nat)
    requires
        orbit_labels(k, adj, lab),
        l < orbits_before(k, adj, k),
        k <= usize::MAX,
    ensures
        exists|t: int| 0 <= t < k && lab[t] == l,
{
    lemma_first_at(k, adj, k, l);
    let c = choose|c: usize| c < k && #[trigger] first_of_orbit(k, adj, c) && orbits_before(k, adj, c as nat) == l;
    assert(lab[c as int] == l);
}

/// Below `m`, each count of orbits met so far is reached at the first slot of an orbit.
proof fn lemma_first_at(k: nat, adj: spec_fn(usize, usize) -> bool, m: nat, l: nat)
    requires
        l < orbits_before(k, adj, m),
        m <= usize::MAX,
    ensures
        exists|c: usize| c < m && #[trigger] first_of_orbit(k, adj, c) && orbits_before(k, adj, c as nat) == l,
    decreases m,
{
    let c = (m - 1) as usize;
    if l < orbits_before(k, adj, (m - 1) as nat) {
        lemma_first_at(k, adj, (m - 1) as nat, l);
        let d = choose|d: usize| d < m - 1 && #[trigger] first_of_orbit(k, adj, d) && orbits_before(k, adj, d as nat) == l;
        assert(d < m);
    } else {
        assert(first_of_orbit(k, adj, c));
        assert(orbits_before(k, adj, c as nat) == l);
    }
}

/// A value met at position `t` is counted at least once.
pub(crate) proof fn lemma_count_eq_pos(s: Seq<usize>, v: usize, t: int)
    requires
        0 <= t < s.len(),
        s[t] == v,
    ensures
        count_eq(s, v) >= 1,
    decreases s.len(),
{
    if t < s.len() - 1 {
        assert(s.drop_last()[t] == v);
        lemma_count_eq_pos(s.drop_last(), v, t);
    }
}

/// A value that does not occur is counted zero times.
pub(crate) proof fn lemma_count_eq_absent(s: Seq<usize>, v: usize)
    requires
        forall|j: int| 0 <= j < s.len() ==> s[j] != v,
    ensures
        count_eq(s, v) == 0,
    decreases s.len(),
{
    if s.len() > 0 {
        assert(s.last() == s[s.len() - 1]);
        lemma_count_eq_absent(s.drop_last(), v);
    }
}

/// The slot ids of a class are numbered from its first slot's id, densely, in order of
/// the first slot of each orbit.
pub open spec fn slot_numbering(slots: Seq<usize>, k: usize, c: u64) -> bool {
    &&& slots.len() == k
    &&& k > 0
    &&& forall|t: int| 0 <= t < k ==> slots[0] <= #[trigger] slots[t]
    &&& orbit_labels(k as nat, class_adj(c as nat, k as nat), Seq::new(k as nat, |t: int| (slots[t] - slots[0]) as usize))
}

impl Registry {
    /// The orbit table is ordered by order, then by class mask; every id names a
    /// registered class and records how many of that class's slots carry it; and the
    /// slots of each class are numbered densely in order of first appearance.
    pub open spec fn numbered(&self) -> bool {
        &&& forall|i: int, j: int| 0 <= i < j < self.orbits().len() ==> (#[trigger] self.orbits()[i]).0 < (#[trigger] self.orbits()[j]).0
            || (self.orbits()[i].0 == self.orbits()[j].0 && self.orbits()[i].1 <= self.orbits()[j].1)
        &&& forall|i: int| 0 <= i < self.orbits().len() ==> self.registered((#[trigger] self.orbits()[i]).0, self.orbits()[i].1)
            && self.orbits()[i].2 == count_eq(self.slots_of(self.orbits()[i].0, self.orbits()[i].1), i as usize)
            && self.orbits()[i].2 >= 1
        &&& forall|k: usize, c: u64| #[trigger] self.registered(k, c) ==> slot_numbering(self.slots_of(k, c), k, c)
    }

    /// A well-formed registry is numbered as [`Registry::numbered`] says.
    pub proof fn lemma_numbered(&self)
        requires
            self.well_formed(),
        ensures
            self.numbered(),
    {
        let es = self.entries@;
        let info = self.orbit_info@;
        assert forall|i: int, j: int| 0 <= i < j < self.orbits().len() implies (#[trigger] self.orbits()[i]).0 < (#[trigger] self.orbits()[j]).0
            || (self.orbits()[i].0 == self.orbits()[j].0 && self.orbits()[i].1 <= self.orbits()[j].1) by {
            let ei = lemma_owner_from(es, info, i, 0);
            let ej = lemma_owner_from(es, info, j, 0);
            assert(info[es[ei].base + (i - es[ei].base)] == (es[ei].k, es[ei].class, count_eq(es[ei].slots@, (es[ei].base + (i - es[ei].base)) as usize) as usize));
            assert(info[es[ej].base + (j - es[ej].base)] == (es[ej].k, es[ej].class, count_eq(es[ej].slots@, (es[ej].base + (j - es[ej].base)) as usize) as usize));
            if ej < ei {
                lemma_entry_before(es, info, ej, ei);
            }
            if ei < ej {
                assert(es[ei].k < es[ej].k || (es[ei].k == es[ej].k && es[ei].class < es[ej].class));
            }
        }
        assert forall|i: int| 0 <= i < self.orbits().len() implies self.registered((#[trigger] self.orbits()[i]).0, self.orbits()[i].1)
            && self.orbits()[i].2 == count_eq(self.slots_of(self.orbits()[i].0, self.orbits()[i].1), i as usize)
            && self.orbits()[i].2 >= 1 by {
            self.lemma_orbit_owner(i as usize);
            let e = lemma_owner_from(es, info, i, 0);
            let ent = es[e];
            let l = i - ent.base;
            assert(info[ent.base + l] == (ent.k, ent.class, count_eq(ent.slots@, (ent.base + l) as usize) as usize));
            let ch = choose|f: int| 0 <= f < es.len() && #[trigger] es[f].k == ent.k && es[f].class == ent.class;
            lemma_entry_unique(es, info, e, ch);
            assert(slots_ok(ent.k, ent.class, ent.base, ent.slots@));
            let lab = Seq::new(ent.k as nat, |t: int| (ent.slots@[t] - ent.base) as usize);
            let kk = class_adj(ent.class as nat, ent.k as nat);
            assert(orbit_labels(ent.k as nat, kk, lab));
            // the label `l` is met at the first slot of its orbit
            lemma_label_met(ent.k as nat, kk, lab, l as nat);
            let t = choose|t: int| 0 <= t < ent.k && lab[t] == l;
            assert(ent.slots@[t] == i);
            lemma_count_eq_pos(ent.slots@, i as usize, t);
        }
        assert forall|k: usize, c: u64| #[trigger] self.registered(k, c) implies slot_numbering(self.slots_of(k, c), k, c) by {
            let e = choose|e: int| 0 <= e < es.len() && #[trigger] es[e].k == k && es[e].class == c;
            let ent = es[e];
            assert(slots_ok(ent.k, ent.class, ent.base, ent.slots@));
            let kk = class_adj(c as nat, k as nat);
            let lab = Seq::new(k as nat, |t: int| (ent.slots@[t] - ent.base) as usize);
            assert(orbit_labels(k as nat, kk, lab));
            assert(first_of_orbit(k as nat, kk, 0));
            assert(lab[0] == orbits_before(k as nat, kk, 0));
            assert(ent.slots@[0] == ent.base);
            assert(lab =~= Seq::new(k as nat, |t: int| (ent.slots@[t] - ent.slots@[0]) as usize));
        }
    }

    /// Every connected class of order `2..=5` is registered, with one slot per vertex.
    pub proof fn lemma_connected_registered(&self, k: usize, c: u64)
        requires
            self.well_formed(),
            2 <= k <= ORBIT_MAX_K,
            is_connected_class(k as nat, c as nat),
        ensures
            self.registered(k, c),
            self.slots_of(k, c).len() == k,
    {
        let es = self.entries@;
        assert(exists|e: int| 0 <= e < es.len() && #[trigger] es[e].k == k && es[e].class == c);
        let e = choose|e: int| 0 <= e < es.len() && #[trigger] es[e].k == k && es[e].class == c;
        assert(slots_ok(es[e].k, es[e].class, es[e].base, es[e].slots@));
    }

    /// A registered class owns an orbit id.
    pub proof fn lemma_class_has_orbit(&self, k: usize, c: u64) -> (id: int)
        requires
            self.well_formed(),
            self.registered(k, c),
        ensures
            0 <= id < self.orbits().len(),
            self.orbits()[id].0 == k,
            self.orbits()[id].1 == c,
    {
        let es = self.entries@;
        let info = self.orbit_info@;
        let e = choose|e: int| 0 <= e < es.len() && #[trigger] es[e].k == k && es[e].class == c;
        assert(slots_ok(es[e].k, es[e].class, es[e].base, es[e].slots@));
        lemma_entry_slots(es, info, e, 0);
        lemma_bases_below(es, e);
        let l = es[e].slots@[0] - es[e].base;
        assert(info[es[e].base + l] == (es[e].k, es[e].class, count_eq(es[e].slots@, (es[e].base + l) as usize) as usize));
        es[e].base + l
    }

    /// What the table records of a global orbit id: the class it names is
    /// registered, the recorded size is how many slots of that class carry the id,
    /// and no slot of any other registered class carries it.
    pub proof fn lemma_orbit_owner(&self, o: usize)
        requires
            self.well_formed(),
            o < self.orbits().len(),
        ensures
            2 <= self.orbits()[o as int].0 <= ORBIT_MAX_K,
            self.registered(self.orbits()[o as int].0, self.orbits()[o as int].1),
            self.slots_of(self.orbits()[o as int].0, self.orbits()[o as int].1).len() == self.orbits()[o as int].0,
            self.orbits()[o as int].2 == count_eq(self.slots_of(self.orbits()[o as int].0, self.orbits()[o as int].1), o),
            forall|k: usize, c: u64| #[trigger] self.registered(k, c)
                && !(k == self.orbits()[o as int].0 && c == self.orbits()[o as int].1)
                ==> count_eq(self.slots_of(k, c), o) == 0,
    {
        let es = self.entries@;
        let info = self.orbit_info@;
        assert(es.len() > 0);
        let e = lemma_owner_from(es, info, o as int, 0);
        let ent = es[e];
        let l = o - ent.base;
        assert(info[ent.base + l] == (ent.k, ent.class, count_eq(ent.slots@, (ent.base + l) as usize) as usize));
        assert(self.registered(ent.k, ent.class));
        let ch = choose|f: int| 0 <= f < es.len() && #[trigger] es[f].k == ent.k && es[f].class == ent.class;
        lemma_entry_unique(es, info, e, ch);
        assert(slots_ok(ent.k, ent.class, ent.base, ent.slots@));
        lemma_count_eq_le(ent.slots@, o);
        assert forall|k: usize, c: u64| #[trigger] self.registered(k, c)
            && !(k == self.orbits()[o as int].0 && c == self.orbits()[o as int].1)
            implies count_eq(self.slots_of(k, c), o) == 0 by {
            let f = choose|f: int| 0 <= f < es.len() && #[trigger] es[f].k == k && es[f].class == c;
            assert(f != e);
            if f < e {
                lemma_entry_before(es, info, f, e);
            } else {
                lemma_entry_before(es, info, e, f);
            }
            assert forall|j: int| 0 <= j < es[f].slots@.len() implies es[f].slots@[j] != o by {
                assert(slots_ok(es[f].k, es[f].class, es[f].base, es[f].slots@));
                lemma_entry_slots(es, info, f, j);
            }
            lemma_count_eq_absent(es[f].slots@, o);
        }
    }
}

/// A connected class value fits the class mask width.
proof fn lemma_connected_class_bound(k: nat, c: nat)
    requires
        k <= 11,
        is_connected_class(k, c),
    ensures
        c < pow2(pair_seq(k).len()),
{
    let m = choose|m: nat| m < pow2(pair_seq(k).len()) && crate::model::connected_set(crate::model::below(k), #[trigger] class_adj(m, k)) && c == canon(k, class_adj(m, k));
    lemma_canon(k, class_adj(m, k));
    let p = choose|p: Seq<usize>| is_perm(p, k) && canon(k, class_adj(m, k)) == #[trigger] mask_val(k, p, class_adj(m, k));
    lemma_bits_val_bound(mask_bits(k, p, class_adj(m, k)));
    lemma_pair_seq_len(k);
}

pub(crate) proof fn lemma_orbits_before_le(k: nat, adj: spec_fn(usize, usize) -> bool, m: nat)
    ensures
        orbits_before(k, adj, m) <= m,
    decreases m,
{
    if m > 0 {
        lemma_orbits_before_le(k, adj, (m - 1) as nat);
    }
}

pub(crate) proof fn lemma_count_eq_le(s: Seq<usize>, v: usize)
    ensures
        count_eq(s, v) <= s.len(),
    decreases s.len(),
{
    if s.len() > 0 {
        lemma_count_eq_le(s.drop_last(), v);
    }
}

/// Shifting every entry by `base` shifts the counted value too.
pub(crate) proof fn lemma_count_eq_shift(part: Seq<usize>, sl: Seq<usize>, base: usize, l: usize)
    requires
        sl.len() == part.len(),
        forall|c: int| 0 <= c < part.len() ==> #[trigger] sl[c] == base + part[c],
        base + l <= usize::MAX,
    ensures
        count_eq(sl, (base + l) as usize) == count_eq(part, l),
    decreases part.len(),
{
    if part.len() > 0 {
        lemma_count_eq_shift(part.drop_last(), sl.drop_last(), base, l);
    }
}

/// Every earlier entry's ids lie below the later bases.
proof fn lemma_bases_below(es: Seq<RegEntry>, e: int)
    requires
        0 <= e < es.len(),
        forall|f: int| 0 <= f < es.len() - 1 ==> #[trigger] es[f + 1].base == es[f].base + n_orbits(es[f].k, es[f].class),
    ensures
        es[e].base + n_orbits(es[e].k, es[e].class) <= es.last().base + n_orbits(es.last().k, es.last().class),
    decreases es.len() - e,
{
    if e < es.len() - 1 {
        lemma_bases_below(es, e + 1);
    }
}

/// The sizes of the orbits of order `k` and class `c` among the first `upto` ids.
pub open spec fn class_size_sum(orbits: Seq<(usize, u64, usize)>, k: usize, c: u64, upto: int) -> nat
    decreases upto,
{
    if upto <= 0 {
        0
    } else {
        class_size_sum(orbits, k, c, upto - 1)
            + (if orbits[upto - 1].0 == k && orbits[upto - 1].1 == c { orbits[upto - 1].2 as nat } else { 0nat })
    }
}

/// `count_eq(s, v)` summed over `lo <= v < hi`.
spec fn counts_between(s: Seq<usize>, lo: int, hi: int) -> nat
    decreases hi - lo,
{
    if hi <= lo { 0 } else { counts_between(s, lo, hi - 1) + count_eq(s, (hi - 1) as usize) }
}

proof fn lemma_counts_push(s: Seq<usize>, x: usize, lo: int, hi: int)
    requires
        0 <= lo,
        hi <= usize::MAX + 1,
    ensures
        counts_between(s.push(x), lo, hi) == counts_between(s, lo, hi) + (if lo <= x < hi { 1nat } else { 0nat }),
    decreases hi - lo,
{
    if hi > lo {
        lemma_counts_push(s, x, lo, hi - 1);
        assert(s.push(x).drop_last() =~= s);
        assert(((hi - 1) as usize) as int == hi - 1);
    }
}

/// Counting every value of a range, a sequence inside the range is counted whole.
proof fn lemma_counts_all(s: Seq<usize>, lo: int, hi: int)
    requires
        0 <= lo,
        hi <= usize::MAX + 1,
        forall|t: int| 0 <= t < s.len() ==> lo <= #[trigger] s[t] < hi,
    ensures
        counts_between(s, lo, hi) == s.len(),
    decreases s.len(),
{
    if s.len() == 0 {
        lemma_counts_empty(s, lo, hi);
    } else {
        let pre = s.drop_last();
        assert forall|t: int| 0 <= t < pre.len() implies lo <= #[trigger] pre[t] < hi by {
            assert(pre[t] == s[t]);
        }
        lemma_counts_all(pre, lo, hi);
        lemma_counts_push(pre, s.last(), lo, hi);
        assert(pre.push(s.last()) =~= s);
        assert(s[s.len() - 1] == s.last());
    }
}

proof fn lemma_counts_empty(s: Seq<usize>, lo: int, hi: int)
    requires
        s.len() == 0,
    ensures
        counts_between(s, lo, hi) == 0,
    decreases hi - lo,
{
    if hi > lo {
        lemma_counts_empty(s, lo, hi - 1);
    }
}

/// The empty graph on two nodes is not connected.
proof fn lemma_no_edge_disconnected()
    ensures
        !crate::model::connected_set(crate::model::below(2), class_adj(0, 2)),
{
    let adj = class_adj(0nat, 2nat);
    let s = crate::model::below(2);
    let t = set![0usize];
    vstd::arithmetic::power2::lemma2_to64();
    assert(crate::model::pairs_upto(2, 0) =~= Seq::<(usize, usize)>::empty());
    assert(crate::model::pair_index(2, 0, 1) == 0);
    assert(!mask_bit(0, 0));
    assert(t.subset_of(s));
    assert(t.len() == 1);
    assert(s.contains(1usize) && !t.contains(1usize));
    assert(t != s);
    assert(!crate::model::crosses(t, s, adj)) by {
        if crate::model::crosses(t, s, adj) {
            let (x, y) = choose|x: usize, y: usize| t.contains(x) && s.contains(y) && !t.contains(y) && #[trigger] adj(x, y);
            assert(x == 0 && y == 1);
        }
    }
}

/// The connected classes of order 2 are one class: the edge's.
proof fn lemma_one_edge_class(c1: u64, c2: u64)
    requires
        is_connected_class(2, c1 as nat),
        is_connected_class(2, c2 as nat),
    ensures
        c1 == c2,
{
    vstd::arithmetic::power2::lemma2_to64();
    crate::model::lemma_pair_seq_len(2);
    lemma_no_edge_disconnected();
    let m1 = choose|mask: nat| mask < pow2(crate::model::pair_seq(2).len()) && crate::model::connected_set(crate::model::below(2), #[trigger] class_adj(mask, 2))
        && c1 as nat == crate::model::canon(2, class_adj(mask, 2));
    let m2 = choose|mask: nat| mask < pow2(crate::model::pair_seq(2).len()) && crate::model::connected_set(crate::model::below(2), #[trigger] class_adj(mask, 2))
        && c2 as nat == crate::model::canon(2, class_adj(mask, 2));
    assert(m1 == 1 && m2 == 1);
}

impl Registry {
    /// The registry has a single orbit of order 2: that of either end of an edge.
    pub(crate) proof fn lemma_single_order2_orbit(&self, o: int, o2: int)
        requires
            self.well_formed(),
            0 <= o < self.orbits().len(),
            0 <= o2 < self.orbits().len(),
            self.orbits()[o].0 == 2,
            self.orbits()[o2].0 == 2,
        ensures
            o == o2,
    {
        let es = self.entries@;
        let info = self.orbit_info@;
        assert(es.len() > 0);
        let e = lemma_owner_from(es, info, o, 0);
        let f = lemma_owner_from(es, info, o2, 0);
        assert(info[es[e].base + (o - es[e].base)] == (es[e].k, es[e].class, count_eq(es[e].slots@, (es[e].base + (o - es[e].base)) as usize) as usize));
        assert(info[es[f].base + (o2 - es[f].base)] == (es[f].k, es[f].class, count_eq(es[f].slots@, (es[f].base + (o2 - es[f].base)) as usize) as usize));
        assert(slots_ok(es[e].k, es[e].class, es[e].base, es[e].slots@));
        assert(slots_ok(es[f].k, es[f].class, es[f].base, es[f].slots@));
        lemma_one_edge_class(es[e].class, es[f].class);
        lemma_entry_unique(es, info, e, f);
        // the two ends of an edge (or of a non-edge) are swapped by an automorphism
        let c = es[e].class;
        let adj = class_adj(c as nat, 2);
        let sw = seq![1usize, 0usize];
        assert(is_aut(2, adj, sw)) by {
            assert(sw.no_duplicates()) by {
                assert(sw[0] != sw[1]);
            }
        }
        assert(same_orbit(2, adj, 0, 1)) by {
            assert(sw[0] == 1usize);
        }
        let sl = es[e].slots@;
        let base = es[e].base;
        let lab = Seq::new(2, |t: int| (sl[t] - base) as usize);
        assert(orbit_labels(2, adj, lab));
        assert(lab[0] == lab[1]);
        let no = n_orbits(es[e].k, es[e].class);
        assert(lab[0] < no);
        if no >= 2 {
            lemma_label_met(2, adj, lab, 1);
            lemma_label_met(2, adj, lab, 0);
            let t1 = choose|t: int| 0 <= t < 2 && lab[t] == 1;
            let t0 = choose|t: int| 0 <= t < 2 && lab[t] == 0;
        }
        assert(no == 1);
    }

    /// Every vertex of a registered graphlet lies in exactly one of its orbits: the
    /// sizes of the orbits of order `k` and class `c` sum to `k`.
    pub proof fn law_orbit_sizes(&self, k: usize, c: u64)
        requires
            self.well_formed(),
            self.orbits().len() <= usize::MAX,
            self.registered(k, c),
        ensures
            class_size_sum(self.orbits(), k, c, self.orbits().len() as int) == k,
    {
        let es = self.entries@;
        let info = self.orbit_info@;
        let e = choose|e: int| 0 <= e < es.len() && #[trigger] es[e].k == k && es[e].class == c;
        let base = es[e].base as int;
        let n = n_orbits(es[e].k, es[e].class) as int;
        let sl = es[e].slots@;
        assert(slots_ok(es[e].k, es[e].class, es[e].base, sl));
        lemma_bases_below(es, e);
        assert(base + n <= info.len());
        assert forall|t: int| 0 <= t < sl.len() implies base <= #[trigger] sl[t] < base + n by {
            lemma_entry_slots(es, info, e, t);
        }
        // the ids of class (k, c) are exactly base..base + n
        assert forall|id: int| 0 <= id < info.len() implies
            ((#[trigger] info[id]).0 == k && info[id].1 == c) == (base <= id < base + n) by {
            if base <= id < base + n {
                assert(info[es[e].base + (id - base)] == (es[e].k, es[e].class, count_eq(sl, (es[e].base + (id - base)) as usize) as usize));
            } else {
                assert(es.len() > 0 ==> es[0].base == 0);
                let f = lemma_owner_from(es, info, id, 0);
                let l = id - es[f].base;
                assert(info[es[f].base + l] == (es[f].k, es[f].class, count_eq(es[f].slots@, (es[f].base + l) as usize) as usize));
                if info[id].0 == k && info[id].1 == c {
                    lemma_entry_unique(es, info, e, f);
                }
            }
        }
        assert forall|id: int| base <= id < base + n implies (#[trigger] info[id]).2 == count_eq(sl, id as usize) by {
            let l = id - base;
            assert(info[es[e].base + l] == (es[e].k, es[e].class, count_eq(sl, (es[e].base + l) as usize) as usize));
            lemma_count_eq_le(sl, id as usize);
        }
        lemma_class_sum_range(info, k, c, base, n, sl, info.len() as int);
        lemma_counts_all(sl, base, base + n);
    }
}

/// Summed over the ids `0..upto`, the sizes of the class whose ids are `base..base + n`
/// (each id's size counting its slots) are the slot counts of the ids below `upto`.
proof fn lemma_class_sum_range(info: Seq<(usize, u64, usize)>, k: usize, c: u64, base: int, n: int, sl: Seq<usize>, upto: int)
    requires
        0 <= base,
        0 <= n,
        base + n <= info.len(),
        info.len() <= usize::MAX + 1,
        base + n <= upto <= info.len(),
        forall|id: int| 0 <= id < info.len() ==> ((#[trigger] info[id]).0 == k && info[id].1 == c) == (base <= id < base + n),
        forall|id: int| base <= id < base + n ==> (#[trigger] info[id]).2 == count_eq(sl, id as usize),
    ensures
        class_size_sum(info, k, c, upto) == counts_between(sl, base, base + n),
    decreases upto,
{
    if upto > base + n {
        lemma_class_sum_range(info, k, c, base, n, sl, upto - 1);
    } else {
        lemma_class_sum_prefix(info, k, c, base, n, sl, upto);
    }
}

proof fn lemma_class_sum_prefix(info: Seq<(usize, u64, usize)>, k: usize, c: u64, base: int, n: int, sl: Seq<usize>, upto: int)
    requires
        0 <= base,
        0 <= n,
        base + n <= info.len(),
        info.len() <= usize::MAX + 1,
        0 <= upto <= base + n,
        forall|id: int| 0 <= id < info.len() ==> ((#[trigger] info[id]).0 == k && info[id].1 == c) == (base <= id < base + n),
        forall|id: int| base <= id < base + n ==> (#[trigger] info[id]).2 == count_eq(sl, id as usize),
    ensures
        class_size_sum(info, k, c, upto) == (if upto <= base { 0 } else { counts_between(sl, base, upto) }),
    decreases upto,
{
    if upto > 0 {
        lemma_class_sum_prefix(info, k, c, base, n, sl, upto - 1);
        assert(info[upto - 1].0 == k && info[upto - 1].1 == c <==> base <= upto - 1);
        if upto - 1 >= base {
            assert(info[upto - 1].2 == count_eq(sl, (upto - 1) as usize));
            if upto - 1 == base {
                assert(counts_between(sl, base, base) == 0);
            }
        }
    }
}

impl Registry {
    /// Total number of orbits (73 for orders `2..=5`).
    pub fn orbit_count(&self) -> (r: usize)
        ensures
            r == self.orbits().len(),
            self.well_formed(),
    {
        proof { use_type_invariant(self); }
        self.orbit_info.len()
    }

    /// `(order, class mask, orbit size)` for a global orbit id.
    pub fn orbit_meta(&self, id: usize) -> (r: (usize, u64, usize))
        requires
            id < self.orbits().len(),
        ensures
            r == self.orbits()[id as int],
    {
        self.orbit_info[id]
    }

    /// Global orbit id per canonical slot of a registered class. Slots share an id
    /// exactly when an automorphism of the class maps one to the other, and each id
    /// records the class and the size of its orbit.
    pub fn slot_map(&self, k: usize, class: u64) -> (r: &[usize])
        requires
            self.registered(k, class),
        ensures
            r@ == self.slots_of(k, class),
            r@.len() == k,
            2 <= k <= ORBIT_MAX_K,
            is_connected_class(k as nat, class as nat),
            forall|c: int| 0 <= c < k ==> #[trigger] r@[c] < self.orbits().len()
                && self.orbits()[r@[c] as int] == (k, class, count_eq(r@, r@[c]) as usize),
            forall|a: usize, b: usize| a < k && b < k ==> (r@[a as int] == r@[b as int] <==> #[trigger] same_orbit(k as nat, class_adj(class as nat, k as nat), a, b)),
    {
        let mut e: usize = 0;
        while e < self.entries.len() && !(self.entries[e].k == k && self.entries[e].class == class)
            invariant
                e <= self.entries@.len(),
                self.registered(k, class),
                forall|f: int| 0 <= f < e ==> !((#[trigger] self.entries@[f]).k == k && self.entries@[f].class == class),
            decreases self.entries@.len() - e,
        {
            e += 1;
        }
        proof {
            use_type_invariant(self);
            let ch = choose|f: int| 0 <= f < self.entries@.len() && #[trigger] self.entries@[f].k == k && self.entries@[f].class == class;
            assert(e < self.entries@.len());
            let ent = self.entries@[e as int];
            assert(ch == e) by {
                if ch > e {
                    assert(self.entries@[e as int].k < self.entries@[ch].k || (self.entries@[e as int].k == self.entries@[ch].k && self.entries@[e as int].class < self.entries@[ch].class));
                }
            }
            assert(slots_ok(ent.k, ent.class, ent.base, ent.slots@));
            let kk = class_adj(class as nat, k as nat);
            let lab = Seq::new(k as nat, |c: int| (ent.slots@[c] - ent.base) as usize);
            assert(orbit_labels(k as nat, kk, lab));
            lemma_bases_below(self.entries@, e as int);
            assert forall|c: int| 0 <= c < k implies #[trigger] ent.slots@[c] < self.orbits().len()
                && self.orbits()[ent.slots@[c] as int] == (k, class, count_eq(ent.slots@, ent.slots@[c]) as usize) by {
                assert(lab[c] < n_orbits(k, class));
                assert(ent.slots@[c] == ent.base + lab[c]);
                assert(self.orbit_info@[ent.base + lab[c]] == (ent.k, ent.class,
                    count_eq(ent.slots@, (ent.base + lab[c]) as usize) as usize));
            }
            assert forall|a: usize, b: usize| a < k && b < k implies (ent.slots@[a as int] == ent.slots@[b as int] <==> #[trigger] same_orbit(k as nat, kk, a, b)) by {
                assert(lab[a as int] == lab[b as int] <==> same_orbit(k as nat, kk, a, b));
            }
        }
        self.entries[e].slots.as_slice()
    }
}

// ---------------------------------------------------------------------------
// Graphlet-degree vectors
// ---------------------------------------------------------------------------

/// A canonical arrangement of the subgraph induced on the listed vertices `q`.
pub open spec fn canon_arr(g: Seq<Seq<usize>>, k: nat, q: Seq<usize>) -> Seq<usize> {
    choose|a: Seq<usize>| is_arrangement(k, local_adj(g, q), a)
}

/// The global orbit id of vertex `x` in the subgraph induced on `q`.
pub open spec fn orbit_of(reg: Registry, g: Seq<Seq<usize>>, k: nat, q: Seq<usize>, x: usize) -> usize {
    reg.slots_of(k as usize, seq_class(g, k, q) as u64)[inverse(canon_arr(g, k, q), k)[q.index_of(x)] as int]
}

/// The listed subgraph contains `x` in orbit `o`.
pub open spec fn in_orbit(reg: Registry, g: Seq<Seq<usize>>, k: nat, x: usize, o: usize) -> spec_fn(Seq<usize>) -> bool {
    |q: Seq<usize>| q.contains(x) && orbit_of(reg, g, k, q, x) == o
}

/// The graphlet degree of `x` in orbit `o`: the number of connected induced subgraphs
/// of order `2..=5` in which `x` occupies orbit `o`.
pub open spec fn gdv_count(reg: Registry, g: Seq<Seq<usize>>, x: usize, o: usize) -> nat {
    count_where(esu_all(g, 2), in_orbit(reg, g, 2, x, o))
        + count_where(esu_all(g, 3), in_orbit(reg, g, 3, x, o))
        + count_where(esu_all(g, 4), in_orbit(reg, g, 4, x, o))
        + count_where(esu_all(g, 5), in_orbit(reg, g, 5, x, o))
}

/// `gdv_count` restricted to the orders below `k`.
pub open spec fn gdv_below(reg: Registry, g: Seq<Seq<usize>>, x: usize, o: usize, k: nat) -> nat
    decreases k,
{
    if k <= 2 {
        0
    } else {
        gdv_below(reg, g, x, o, (k - 1) as nat) + count_where(esu_all(g, (k - 1) as nat), in_orbit(reg, g, (k - 1) as nat, x, o))
    }
}

/// The number of connected induced subgraphs of orders `2..k`.
pub open spec fn subsets_below(g: Seq<Seq<usize>>, k: nat) -> nat
    decreases k,
{
    if k <= 2 {
        0
    } else {
        subsets_below(g, (k - 1) as nat) + esu_all(g, (k - 1) as nat).len()
    }
}

pub(crate) proof fn lemma_index_bound(x: int, o: int, n: int, m: int)
    requires
        0 <= x < n,
        0 <= o < m,
    ensures
        0 <= x * m + o < n * m,
        x * m + o + 1 <= n * m,
        (x + 1) * m <= n * m,
{
    assert(x * m + o < n * m) by (nonlinear_arith)
        requires 0 <= x < n, 0 <= o < m;
    assert((x + 1) * m <= n * m) by (nonlinear_arith)
        requires 0 <= x < n, 0 <= o < m;
    assert(0 <= x * m) by (nonlinear_arith)
        requires 0 <= x, 0 <= m;
}

pub(crate) proof fn lemma_row_bound(i: int, n: int, m: int)
    requires
        0 <= i < n,
        0 <= m,
    ensures
        0 <= i * m,
        i * m + m <= n * m,
{
    assert(0 <= i * m) by (nonlinear_arith)
        requires 0 <= i, 0 <= m;
    assert(i * m + m <= n * m) by (nonlinear_arith)
        requires 0 <= i < n, 0 <= m;
}

pub(crate) proof fn lemma_index_unique(x1: int, o1: int, x2: int, o2: int, m: int)
    requires
        0 <= o1 < m,
        0 <= o2 < m,
        0 <= x1,
        0 <= x2,
        x1 * m + o1 == x2 * m + o2,
    ensures
        x1 == x2,
        o1 == o2,
{
    assert(x1 == x2) by (nonlinear_arith)
        requires 0 <= o1 < m, 0 <= o2 < m, 0 <= x1, 0 <= x2, x1 * m + o1 == x2 * m + o2;
}

/// Attributes each visited subset's vertices to their orbits.
struct GdvSink<'a> {
    adj: &'a Adjacency,
    reg: &'a Registry,
    k: usize,
    ps: Vec<Vec<usize>>,
    n: usize,
    m: usize,
    rows: Vec<u64>,
    base: Ghost<Seq<u64>>,
    prior: Ghost<nat>,
    seen: Ghost<Seq<Seq<usize>>>,
}

impl<'a> GdvSink<'a> {
    spec fn wf(&self) -> bool {
        &&& self.adj.wf()
        &&& simple_graph(self.adj.graph())
        &&& 2 <= self.k <= ORBIT_MAX_K
        &&& all_perms(self.ps.deep_view(), self.k as nat)
        &&& self.n == self.adj.lists@.len()
        &&& self.m == self.reg.orbits().len()
        &&& self.rows@.len() == self.n * self.m
        &&& self.base@.len() == self.n * self.m
        &&& forall|i: int| 0 <= i < self.n * self.m ==> #[trigger] self.base@[i] <= self.prior@
        &&& self.prior@ + self.seen@.len() <= u64::MAX
        &&& forall|x: int, o: int| 0 <= x < self.n && 0 <= o < self.m ==>
            #[trigger] self.rows@[x * self.m + o] == self.base@[x * self.m + o]
                + count_where(self.seen@, in_orbit(*self.reg, self.adj.graph(), self.k as nat, x as usize, o as usize))
    }
}

impl<'a> SubsetSink for GdvSink<'a> {
    type Params = (Seq<Seq<usize>>, Registry, usize, usize, usize, Seq<u64>, nat);

    closed spec fn params(&self) -> (Seq<Seq<usize>>, Registry, usize, usize, usize, Seq<u64>, nat) {
        (self.adj.graph(), *self.reg, self.k, self.n, self.m, self.base@, self.prior@)
    }

    closed spec fn admits(&self, q: Seq<usize>) -> bool {
        valid_out(self.adj.graph(), self.k as nat, q)
    }

    closed spec fn room(&self) -> nat {
        if self.wf() { (u64::MAX - self.prior@ - self.seen@.len()) as nat } else { 0 }
    }

    closed spec fn seen(&self) -> Seq<Seq<usize>> {
        self.seen@
    }

    fn visit(&mut self, q: &Vec<usize>) {
        let ghost g = self.adj.graph();
        let ghost k = self.k as nat;
        let ghost l = local_adj(g, q@);
        let ghost reg = *self.reg;
        let adj = self.adj;
        proof {
            adj.lemma_graph();
            use_type_invariant(self.reg);
        }
        let is_adj = |i: usize, j: usize| -> (r: bool)
            requires
                i < q@.len(),
                j < q@.len(),
                adj.wf(),
                forall|t: int| 0 <= t < q@.len() ==> (#[trigger] q@[t]) < adj.lists@.len(),
            ensures
                r == list_adj(adj.graph())(q@[i as int], q@[j as int]),
        {
            proof { adj.lemma_graph(); }
            adj.adjacent(q[i], q[j])
        };
        let (class, arg) = canonical_arg_fn(self.k, &self.ps, is_adj, Ghost(l));
        proof {
            lemma_seq_class_connected(g, k, q@);
            assert(self.reg.registered(self.k, class)) by {
                let e = choose|e: int| 0 <= e < self.reg.entries@.len() && #[trigger] self.reg.entries@[e].k == self.k && self.reg.entries@[e].class == class;
            }
        }
        let slots = self.reg.slot_map(self.k, class);
        let ghost s0 = self.seen@;
        let ghost r0 = self.rows@;
        let ghost inv_arg = inverse(arg@, k);
        let ghost kk = class_adj(class as nat, k);
        proof {
            lemma_inverse(arg@, k);
            assert(symmetric_on(k, l)) by {
                assert forall|i: usize, j: usize| i < k && j < k implies #[trigger] l(i, j) == l(j, i) by {
                    assert(list_adj(g)(q@[i as int], q@[j as int]) == list_adj(g)(q@[j as int], q@[i as int]));
                }
            }
            assert(is_arrangement(k, l, arg@));
            let ca = canon_arr(g, k, q@);
            assert(is_arrangement(k, l, ca));
            lemma_inverse(ca, k);
            // the slot the exec arrangement gives each vertex is in the orbit of the
            // slot the chosen arrangement gives it
            assert forall|i: usize| i < k implies #[trigger] slots@[inv_arg[i as int] as int] == slots@[inverse(ca, k)[i as int] as int] by {
                lemma_arrangement_orbit(k, l, arg@, ca, i);
                assert(same_orbit(k, kk, inverse(ca, k)[i as int], inv_arg[i as int]));
            }
            assert forall|x: int, o: int| 0 <= x < self.n && 0 <= o < self.m implies #[trigger] r0[x * self.m + o] < u64::MAX by {
                lemma_index_bound(x, o, self.n as int, self.m as int);
                lemma_count_where_push(s0, q@, in_orbit(reg, g, k, x as usize, o as usize));
            }
        }
        let total = self.rows.len();
        let mut c: usize = 0;
        while c < self.k
            invariant
                2 <= self.k <= ORBIT_MAX_K,
                c <= self.k,
                k == self.k,
                q@.len() == k,
                q@.no_duplicates(),
                forall|t: int| 0 <= t < k ==> (#[trigger] q@[t]) < self.n,
                is_perm(arg@, k),
                inv_arg == inverse(arg@, k),
                forall|x: int| 0 <= x < k ==> #[trigger] arg@[inv_arg[x] as int] == x,
                forall|t: int| 0 <= t < k ==> #[trigger] inv_arg[arg@[t] as int] == t,
                is_perm(inv_arg, k),
                slots@.len() == k,
                forall|t: int| 0 <= t < k ==> #[trigger] slots@[t] < self.m,
                self.rows@.len() == self.n * self.m,
                self.m == old(self).m,
                self.n == old(self).n,
                self.adj == old(self).adj,
                self.reg == old(self).reg,
                self.ps == old(self).ps,
                self.base == old(self).base,
                self.prior == old(self).prior,
                self.seen == old(self).seen,
                r0.len() == self.n * self.m,
                total == self.n * self.m,
                forall|x: int, o: int| 0 <= x < self.n && 0 <= o < self.m ==> #[trigger] r0[x * self.m + o] < u64::MAX,
                forall|x: int, o: int| 0 <= x < self.n && 0 <= o < self.m ==>
                    #[trigger] self.rows@[x * self.m + o] == r0[x * self.m + o]
                        + (if q@.contains(x as usize) && inv_arg[q@.index_of(x as usize)] < c
                            && slots@[inv_arg[q@.index_of(x as usize)] as int] == o { 1nat } else { 0nat }),
            decreases k - c,
        {
            let x = q[arg[c]];
            let o = slots[c];
            proof { lemma_index_bound(x as int, o as int, self.n as int, self.m as int); }
            let idx = x * self.m + o;
            let cur = self.rows[idx];
            self.rows.set(idx, cur + 1);
            proof {
                assert(q@.index_of(x) == arg@[c as int]) by {
                    assert(q@.contains(x));
                    let j = q@.index_of(x);
                    assert(q@[j] == x);
                }
                assert(inv_arg[arg@[c as int] as int] == c);
                assert forall|x2: int, o2: int| 0 <= x2 < self.n && 0 <= o2 < self.m implies
                    #[trigger] self.rows@[x2 * self.m + o2] == r0[x2 * self.m + o2]
                        + (if q@.contains(x2 as usize) && inv_arg[q@.index_of(x2 as usize)] < c + 1
                            && slots@[inv_arg[q@.index_of(x2 as usize)] as int] == o2 { 1nat } else { 0nat }) by {
                    lemma_index_bound(x2, o2, self.n as int, self.m as int);
                    if x2 * self.m + o2 == idx {
                        lemma_index_unique(x2, o2, x as int, o as int, self.m as int);
                    } else {
                        if q@.contains(x2 as usize) && inv_arg[q@.index_of(x2 as usize)] == c {
                            let j = q@.index_of(x2 as usize);
                            assert(q@[j] == x2 as usize);
                            assert(arg@[inv_arg[j] as int] == j);
                            assert(j == arg@[c as int]);
                            assert(x2 == x);
                        }
                    }
                }
            }
            c += 1;
        }
        self.seen = Ghost(s0.push(q@));
        proof {
            assert forall|x: int, o: int| 0 <= x < self.n && 0 <= o < self.m implies
                #[trigger] self.rows@[x * self.m + o] == self.base@[x * self.m + o]
                    + count_where(self.seen@, in_orbit(reg, g, k, x as usize, o as usize)) by {
                lemma_count_where_push(s0, q@, in_orbit(reg, g, k, x as usize, o as usize));
                if q@.contains(x as usize) {
                    let j = q@.index_of(x as usize);
                    assert(q@[j] == x as usize);
                    assert(slots@[inv_arg[j] as int] == slots@[inverse(canon_arr(g, k, q@), k)[j] as int]);
                    assert(slots@ == reg.slots_of(self.k, class));
                }
            }
        }
    }
}

pub(crate) proof fn lemma_gdv_below_bound(reg: Registry, g: Seq<Seq<usize>>, x: usize, o: usize, k: nat)
    ensures
        gdv_below(reg, g, x, o, k) <= subsets_below(g, k),
    decreases k,
{
    if k > 2 {
        lemma_gdv_below_bound(reg, g, x, o, (k - 1) as nat);
        lemma_count_where_push(esu_all(g, (k - 1) as nat), Seq::empty(), in_orbit(reg, g, (k - 1) as nat, x, o));
    }
}

pub(crate) proof fn lemma_subsets_below_mono(g: Seq<Seq<usize>>, a: nat, b: nat)
    requires
        a <= b,
    ensures
        subsets_below(g, a) <= subsets_below(g, b),
    decreases b - a,
{
    if a < b {
        lemma_subsets_below_mono(g, a, (b - 1) as nat);
    }
}

impl Registry {
    /// The global orbit id of each canonical slot of a connected class of order
    /// `2..=5`.
    pub(crate) fn slots_for(&self, k: usize, class: u64) -> (r: &[usize])
        requires
            2 <= k <= ORBIT_MAX_K,
            is_connected_class(k as nat, class as nat),
        ensures
            r@.len() == k,
            forall|c: int| 0 <= c < k ==> #[trigger] r@[c] < self.orbits().len() && self.orbits()[r@[c] as int].0 == k,
    {
        proof {
            use_type_invariant(self);
            let e = choose|e: int| 0 <= e < self.entries@.len() && #[trigger] self.entries@[e].k == k && self.entries@[e].class == class;
        }
        self.slot_map(k, class)
    }
}

/// Per-node graphlet-degree vectors: row `x` holds, for every orbit `o`, the number
/// of connected induced subgraphs of order `2..=5` in which node `x` occupies `o`.
pub struct GdvTable<N> {
    m: usize,
    ids: Vec<N>,
    rows: Vec<u64>,
}

impl<N> GdvTable<N> {
    #[verifier::type_invariant]
    spec fn inv(self) -> bool {
        self.rows@.len() == self.ids@.len() * self.m
    }

    /// The node id of each row.
    pub closed spec fn ids(&self) -> Seq<N> {
        self.ids@
    }

    /// The number of orbits (columns).
    pub closed spec fn width(&self) -> nat {
        self.m as nat
    }

    /// The graphlet degree of row `x` in orbit `o`.
    pub closed spec fn entry(&self, x: int, o: int) -> u64 {
        self.rows@[x * self.m + o]
    }

    /// The table with `m` columns, node ids `ids` and row-major entries `rows`.
    pub(crate) fn from_rows(m: usize, ids: Vec<N>, rows: Vec<u64>) -> (r: Self)
        requires
            rows@.len() == ids@.len() * m,
        ensures
            r.ids() == ids@,
            r.width() == m,
            forall|x: int, o: int| 0 <= x < ids@.len() && 0 <= o < m ==> #[trigger] r.entry(x, o) == rows@[x * m + o],
    {
        GdvTable { m, ids, rows }
    }

    /// Number of nodes (rows).
    pub fn len(&self) -> (r: usize)
        ensures
            r == self.ids().len(),
    {
        self.ids.len()
    }

    /// Whether the table has no rows.
    pub fn is_empty(&self) -> (r: bool)
        ensures
            r == (self.ids().len() == 0),
    {
        self.ids.len() == 0
    }

    /// Number of orbits (columns); 73 for the `2..=5` registry.
    pub fn orbit_count(&self) -> (r: usize)
        ensures
            r == self.width(),
    {
        self.m
    }

    /// The graphlet-degree vector of row `i`.
    pub fn row(&self, i: usize) -> (r: &[u64])
        requires
            i < self.ids().len(),
        ensures
            r@.len() == self.width(),
            forall|o: int| 0 <= o < self.width() ==> #[trigger] r@[o] == self.entry(i as int, o),
    {
        proof {
            use_type_invariant(self);
            lemma_row_bound(i as int, self.ids@.len() as int, self.m as int);
        }
        let total = self.rows.len();
        let start = i * self.m;
        let end = start + self.m;
        let r = vstd::slice::slice_subrange(self.rows.as_slice(), start, end);
        proof {
            assert forall|o: int| 0 <= o < self.width() implies #[trigger] r@[o] == self.entry(i as int, o) by {
                assert(r@[o] == self.rows@[start + o]);
            }
        }
        r
    }

    /// The graphlet-degree distribution of one orbit: `(degree, number of nodes)`
    /// for every degree that occurs, by ascending degree.
    pub fn degree_distribution(&self, orbit: usize) -> (r: Vec<(u64, u64)>)
        requires
            orbit < self.width(),
        ensures
            forall|i: int, j: int| 0 <= i < j < r@.len() ==> r@[i].0 < r@[j].0,
            forall|i: int| 0 <= i < r@.len() ==> #[trigger] r@[i].1 == rows_with(*self, orbit as int, r@[i].0, self.ids().len() as int),
            forall|i: int| 0 <= i < r@.len() ==> #[trigger] r@[i].1 > 0,
            forall|x: int| 0 <= x < self.ids().len() ==> degree_listed(r@, #[trigger] self.entry(x, orbit as int)),
            count_total(r@) == self.ids().len(),
    {
        proof { use_type_invariant(self); }
        let n = self.ids.len();
        let total = self.rows.len();
        let mut r: Vec<(u64, u64)> = Vec::new();
        let mut x: usize = 0;
        while x < n
            invariant
                x <= n,
                n == self.ids@.len(),
                total == n * self.m,
                self.rows@.len() == n * self.m,
                orbit < self.m,
                forall|i: int, j: int| 0 <= i < j < r@.len() ==> r@[i].0 < r@[j].0,
                forall|i: int| 0 <= i < r@.len() ==> #[trigger] r@[i].1 == rows_with(*self, orbit as int, r@[i].0, x as int),
                forall|i: int| 0 <= i < r@.len() ==> rows_with(*self, orbit as int, #[trigger] r@[i].0, x as int) > 0,
                forall|y: int| 0 <= y < x ==> degree_listed(r@, #[trigger] self.entry(y, orbit as int)),
                x as int <= u64::MAX,
            decreases n - x,
        {
            proof { lemma_index_bound(x as int, orbit as int, n as int, self.m as int); }
            let d = self.rows[x * self.m + orbit];
            assert(d == self.entry(x as int, orbit as int));
            let mut pos: usize = 0;
            while pos < r.len() && r[pos].0 < d
                invariant
                    pos <= r@.len(),
                    forall|i: int| 0 <= i < pos ==> r@[i].0 < d,
                decreases r@.len() - pos,
            {
                pos += 1;
            }
            let ghost r0 = r@;
            proof {
                assert forall|i: int| 0 <= i < r0.len() implies #[trigger] rows_with(*self, orbit as int, r0[i].0, x + 1) == rows_with(*self, orbit as int, r0[i].0, x as int) + (if r0[i].0 == d { 1nat } else { 0nat }) by {}
                lemma_rows_with_le(*self, orbit as int, r0.len() as u64, x as int);
            }
            if pos < r.len() && r[pos].0 == d {
                let cnt = r[pos].1;
                proof { lemma_rows_with_le(*self, orbit as int, d, x as int); }
                r.set(pos, (d, cnt + 1));
                proof {
                    assert forall|y: int| 0 <= y < x + 1 implies degree_listed(r@, #[trigger] self.entry(y, orbit as int)) by {
                        if y < x {
                            assert(degree_listed(r0, self.entry(y, orbit as int)));
                            let i = choose|i: int| 0 <= i < r0.len() && #[trigger] r0[i].0 == self.entry(y, orbit as int);
                            assert(r@[i].0 == r0[i].0);
                        } else {
                            assert(r@[pos as int].0 == d);
                        }
                    }
                }
            } else {
                r.insert(pos, (d, 1));
                proof {
                    assert forall|i: int| 0 <= i < r0.len() && r0[i].0 != d implies rows_with(*self, orbit as int, r0[i].0, x + 1) == rows_with(*self, orbit as int, r0[i].0, x as int) by {}
                    assert(rows_with(*self, orbit as int, d, x as int) == 0) by {
                        lemma_rows_with_absent(*self, orbit as int, d, x as int, r0);
                    }
                    assert forall|i: int| 0 <= i < r@.len() implies #[trigger] r@[i].1 == rows_with(*self, orbit as int, r@[i].0, x + 1) by {
                        if i < pos {
                            assert(r@[i] == r0[i]);
                        } else if i > pos {
                            assert(r@[i] == r0[i - 1]);
                        }
                    }
                    assert forall|i: int| 0 <= i < r@.len() implies rows_with(*self, orbit as int, #[trigger] r@[i].0, x + 1) > 0 by {
                        if i < pos {
                            assert(r@[i] == r0[i]);
                        } else if i > pos {
                            assert(r@[i] == r0[i - 1]);
                        }
                    }
                    assert forall|y: int| 0 <= y < x + 1 implies degree_listed(r@, #[trigger] self.entry(y, orbit as int)) by {
                        if y < x {
                            assert(degree_listed(r0, self.entry(y, orbit as int)));
                            let i = choose|i: int| 0 <= i < r0.len() && #[trigger] r0[i].0 == self.entry(y, orbit as int);
                            if i < pos { assert(r@[i] == r0[i]); } else { assert(r@[i + 1] == r0[i]); }
                        } else {
                            assert(r@[pos as int].0 == d);
                        }
                    }
                    assert forall|i: int, j: int| 0 <= i < j < r@.len() implies r@[i].0 < r@[j].0 by {
                        if j < pos {
                            assert(r@[i] == r0[i] && r@[j] == r0[j]);
                        } else if j == pos {
                            assert(r@[i] == r0[i]);
                        } else if i > pos {
                            assert(r@[i] == r0[i - 1] && r@[j] == r0[j - 1]);
                        } else if i == pos {
                            assert(r@[j] == r0[j - 1]);
                            assert(r0[pos as int].0 >= d);
                            if j - 1 > pos { assert(r0[pos as int].0 < r0[j - 1].0); }
                        } else {
                            assert(r@[i] == r0[i] && r@[j] == r0[j - 1]);
                        }
                    }
                }
            }
            x += 1;
        }
        proof { law_distribution_total(*self, orbit as int, r@); }
        r
    }
}

/// Some entry of `r` has degree `d`.
pub open spec fn degree_listed(r: Seq<(u64, u64)>, d: u64) -> bool {
    exists|i: int| 0 <= i < r.len() && #[trigger] r[i].0 == d
}

/// The node counts of a degree distribution, summed.
pub open spec fn count_total(r: Seq<(u64, u64)>) -> nat
    decreases r.len(),
{
    if r.len() == 0 { 0 } else { (count_total(r.drop_last()) + r.last().1) as nat }
}

/// How many entries of `r` list degree `d`.
spec fn hits(r: Seq<(u64, u64)>, d: u64) -> nat
    decreases r.len(),
{
    if r.len() == 0 { 0 } else { hits(r.drop_last(), d) + (if r.last().0 == d { 1nat } else { 0nat }) }
}

/// `rows_with` summed over the degrees listed in `r`.
spec fn listed_rows<N>(t: GdvTable<N>, orbit: int, r: Seq<(u64, u64)>, upto: int) -> nat
    decreases r.len(),
{
    if r.len() == 0 { 0 } else { listed_rows(t, orbit, r.drop_last(), upto) + rows_with(t, orbit, r.last().0, upto) }
}

proof fn lemma_listed_rows_step<N>(t: GdvTable<N>, orbit: int, r: Seq<(u64, u64)>, upto: int)
    requires
        upto > 0,
    ensures
        listed_rows(t, orbit, r, upto) == listed_rows(t, orbit, r, upto - 1) + hits(r, t.entry(upto - 1, orbit)),
    decreases r.len(),
{
    if r.len() > 0 {
        lemma_listed_rows_step(t, orbit, r.drop_last(), upto);
    }
}

proof fn lemma_listed_rows_zero<N>(t: GdvTable<N>, orbit: int, r: Seq<(u64, u64)>)
    ensures
        listed_rows(t, orbit, r, 0) == 0,
    decreases r.len(),
{
    if r.len() > 0 {
        lemma_listed_rows_zero(t, orbit, r.drop_last());
    }
}

/// In a list of distinct degrees, a listed degree is listed once.
proof fn lemma_hits_one(r: Seq<(u64, u64)>, d: u64)
    requires
        forall|i: int, j: int| 0 <= i < j < r.len() ==> r[i].0 < r[j].0,
    ensures
        degree_listed(r, d) ==> hits(r, d) == 1,
        !degree_listed(r, d) ==> hits(r, d) == 0,
    decreases r.len(),
{
    if r.len() > 0 {
        let pre = r.drop_last();
        assert forall|i: int, j: int| 0 <= i < j < pre.len() implies pre[i].0 < pre[j].0 by {
            assert(pre[i] == r[i] && pre[j] == r[j]);
        }
        lemma_hits_one(pre, d);
        if degree_listed(pre, d) {
            let i = choose|i: int| 0 <= i < pre.len() && #[trigger] pre[i].0 == d;
            assert(r[i] == pre[i]);
            assert(r.last().0 != d);
        } else if r.last().0 == d {
            assert(r[r.len() - 1].0 == d);
        } else {
            assert forall|i: int| 0 <= i < r.len() implies #[trigger] r[i].0 != d by {
                if i < pre.len() {
                    assert(pre[i] == r[i]);
                }
            }
        }
    }
}

proof fn lemma_listed_rows_all<N>(t: GdvTable<N>, orbit: int, r: Seq<(u64, u64)>, upto: int)
    requires
        0 <= upto <= t.ids().len(),
        forall|i: int, j: int| 0 <= i < j < r.len() ==> r[i].0 < r[j].0,
        forall|x: int| 0 <= x < t.ids().len() ==> degree_listed(r, #[trigger] t.entry(x, orbit)),
    ensures
        listed_rows(t, orbit, r, upto) == upto,
    decreases upto,
{
    if upto == 0 {
        lemma_listed_rows_zero(t, orbit, r);
    } else {
        lemma_listed_rows_all(t, orbit, r, upto - 1);
        lemma_listed_rows_step(t, orbit, r, upto);
        assert(degree_listed(r, t.entry(upto - 1, orbit)));
        lemma_hits_one(r, t.entry(upto - 1, orbit));
    }
}

proof fn lemma_count_total_listed<N>(t: GdvTable<N>, orbit: int, r: Seq<(u64, u64)>)
    requires
        forall|i: int| 0 <= i < r.len() ==> #[trigger] r[i].1 == rows_with(t, orbit, r[i].0, t.ids().len() as int),
    ensures
        count_total(r) == listed_rows(t, orbit, r, t.ids().len() as int),
    decreases r.len(),
{
    if r.len() > 0 {
        let pre = r.drop_last();
        assert forall|i: int| 0 <= i < pre.len() implies #[trigger] pre[i].1 == rows_with(t, orbit, pre[i].0, t.ids().len() as int) by {
            assert(pre[i] == r[i]);
        }
        lemma_count_total_listed(t, orbit, pre);
        assert(r[r.len() - 1] == r.last());
    }
}

/// A degree distribution of a column accounts for every row once: its node counts
/// sum to the number of rows.
pub proof fn law_distribution_total<N>(t: GdvTable<N>, orbit: int, r: Seq<(u64, u64)>)
    requires
        forall|i: int, j: int| 0 <= i < j < r.len() ==> r[i].0 < r[j].0,
        forall|i: int| 0 <= i < r.len() ==> #[trigger] r[i].1 == rows_with(t, orbit, r[i].0, t.ids().len() as int),
        forall|x: int| 0 <= x < t.ids().len() ==> degree_listed(r, #[trigger] t.entry(x, orbit)),
    ensures
        count_total(r) == t.ids().len(),
{
    lemma_count_total_listed(t, orbit, r);
    lemma_listed_rows_all(t, orbit, r, t.ids().len() as int);
}

/// How many of the first `upto` rows have degree `d` in `orbit`.
pub open spec fn rows_with<N>(t: GdvTable<N>, orbit: int, d: u64, upto: int) -> nat
    decreases upto,
{
    if upto <= 0 {
        0
    } else {
        rows_with(t, orbit, d, upto - 1) + (if t.entry(upto - 1, orbit) == d { 1nat } else { 0nat })
    }
}

proof fn lemma_rows_with_le<N>(t: GdvTable<N>, orbit: int, d: u64, upto: int)
    ensures
        rows_with(t, orbit, d, upto) <= if upto < 0 { 0 } else { upto },
    decreases upto,
{
    if upto > 0 {
        lemma_rows_with_le(t, orbit, d, upto - 1);
    }
}

proof fn lemma_rows_with_absent<N>(t: GdvTable<N>, orbit: int, d: u64, upto: int, r: Seq<(u64, u64)>)
    requires
        forall|y: int| 0 <= y < upto ==> degree_listed(r, #[trigger] t.entry(y, orbit)),
        forall|i: int| 0 <= i < r.len() ==> r[i].0 != d,
    ensures
        rows_with(t, orbit, d, upto) == 0,
    decreases upto,
{
    if upto > 0 {
        lemma_rows_with_absent(t, orbit, d, upto - 1, r);
        assert(degree_listed(r, t.entry(upto - 1, orbit)));
        let i = choose|i: int| 0 <= i < r.len() && #[trigger] r[i].0 == t.entry(upto - 1, orbit);
    }
}

impl<N: Copy> GdvTable<N> {
    /// Host node id of row `i`.
    pub fn id(&self, i: usize) -> (r: N)
        requires
            i < self.ids().len(),
        ensures
            r == self.ids()[i as int],
    {
        self.ids[i]
    }

    /// `(node id, graphlet-degree vector)` for every row, in row order.
    pub fn iter(&self) -> (r: Vec<(N, &[u64])>)
        ensures
            r@.len() == self.ids().len(),
            forall|x: int| 0 <= x < r@.len() ==> (#[trigger] r@[x]).0 == self.ids()[x] && r@[x].1@.len() == self.width()
                && forall|o: int| 0 <= o < self.width() ==> #[trigger] r@[x].1@[o] == self.entry(x, o),
    {
        let mut r: Vec<(N, &[u64])> = Vec::new();
        let mut x: usize = 0;
        while x < self.ids.len()
            invariant
                x <= self.ids@.len(),
                r@.len() == x,
                forall|y: int| 0 <= y < x ==> (#[trigger] r@[y]).0 == self.ids()[y] && r@[y].1@.len() == self.width()
                    && forall|o: int| 0 <= o < self.width() ==> #[trigger] r@[y].1@[o] == self.entry(y, o),
            decreases self.ids@.len() - x,
        {
            let row = self.row(x);
            r.push((self.ids[x], row));
            x += 1;
        }
        r
    }
}

/// Compute the graphlet-degree vector of every node (orders `2..=5`, undirected).
pub fn graphlet_degree_vectors<N: Copy>(g: &Snapshot<N>, reg: &Registry) -> (r: GdvTable<N>)
    requires
        g.ids().len() * reg.orbits().len() <= usize::MAX,
        subsets_below(g.graph(), 6) < u64::MAX,
    ensures
        r.ids() == g.ids(),
        r.width() == reg.orbits().len(),
        forall|x: int, o: int| 0 <= x < g.ids().len() && 0 <= o < reg.orbits().len()
            ==> #[trigger] r.entry(x, o) == gdv_count(*reg, g.graph(), x as usize, o as usize),
{
    let adj = g.adjacency();
    let ghost gr = adj.graph();
    proof { adj.lemma_graph(); }
    let n = adj.len();
    let m = reg.orbit_count();
    let total = n * m;
    let mut rows: Vec<u64> = Vec::new();
    let mut t: usize = 0;
    while t < total
        invariant
            t <= total,
            rows@.len() == t,
            forall|i: int| 0 <= i < t ==> #[trigger] rows@[i] == 0,
        decreases total - t,
    {
        rows.push(0);
        t += 1;
    }
    proof {
        assert forall|x: int, o: int| 0 <= x < n && 0 <= o < m implies
            #[trigger] rows@[x * m + o] == gdv_below(*reg, gr, x as usize, o as usize, 2) by {
            lemma_index_bound(x, o, n as int, m as int);
        }
    }
    let mut k: usize = 2;
    while k <= ORBIT_MAX_K
        invariant
            2 <= k <= ORBIT_MAX_K + 1,
            adj.wf(),
            simple_graph(gr),
            gr == adj.graph(),
            gr == g.graph(),
            n == adj.lists@.len(),
            m == reg.orbits().len(),
            total == n * m,
            rows@.len() == n * m,
            subsets_below(gr, 6) < u64::MAX,
            forall|x: int, o: int| 0 <= x < n && 0 <= o < m ==>
                #[trigger] rows@[x * m + o] == gdv_below(*reg, gr, x as usize, o as usize, k as nat),
        decreases ORBIT_MAX_K + 1 - k,
    {
        let ps = perms(k);
        let ghost base = rows@;
        let ghost prior = subsets_below(gr, k as nat);
        proof {
            lemma_subsets_below_mono(gr, (k + 1) as nat, 6);
            lemma_esu_all(gr, k as nat);
            assert forall|i: int| 0 <= i < n * m implies #[trigger] base[i] <= prior by {
                let x = i / (m as int);
                let o = i % (m as int);
                assert(i == x * m + o && 0 <= o < m && 0 <= x < n) by (nonlinear_arith)
                    requires 0 <= i < n * m, m > 0, x == i / (m as int), o == i % (m as int);
                lemma_gdv_below_bound(*reg, gr, x as usize, o as usize, k as nat);
            }
        }
        let mut sink = GdvSink { adj, reg, k, ps, n, m, rows, base: Ghost(base), prior: Ghost(prior), seen: Ghost(Seq::empty()) };
        proof {
            assert forall|x: int, o: int| 0 <= x < n && 0 <= o < m implies
                #[trigger] sink.rows@[x * m + o] == sink.base@[x * m + o]
                    + count_where(sink.seen@, in_orbit(*reg, gr, k as nat, x as usize, o as usize)) by {
                assert(count_where(sink.seen@, in_orbit(*reg, gr, k as nat, x as usize, o as usize)) == 0);
            }
            assert(sink.wf());
            assert forall|q: Seq<usize>| valid_out(gr, k as nat, q) implies #[trigger] sink.admits(q) by {}
        }
        for_each_subset(adj, k, &mut sink);
        proof {
            assert(sink.room() > 0);
            assert(sink.wf());
            assert(sink.seen@ == esu_all(gr, k as nat));
        }
        rows = sink.rows;
        proof {
            assert forall|x: int, o: int| 0 <= x < n && 0 <= o < m implies
                #[trigger] rows@[x * m + o] == gdv_below(*reg, gr, x as usize, o as usize, (k + 1) as nat) by {
                assert(rows@[x * m + o] == base[x * m + o] + count_where(esu_all(gr, k as nat), in_orbit(*reg, gr, k as nat, x as usize, o as usize)));
            }
        }
        k += 1;
    }
    let mut ids: Vec<N> = Vec::new();
    let mut i: usize = 0;
    while i < n
        invariant
            i <= n,
            n == g.ids().len(),
            ids@.len() == i,
            forall|j: int| 0 <= j < i ==> #[trigger] ids@[j] == g.ids()[j],
        decreases n - i,
    {
        ids.push(g.id(i));
        i += 1;
    }
    proof {
        assert(ids@ =~= g.ids());
        assert forall|x: int, o: int| 0 <= x < n && 0 <= o < m implies
            #[trigger] rows@[x * m + o] == gdv_count(*reg, gr, x as usize, o as usize) by {
            reveal_with_fuel(gdv_below, 5);
        }
    }
    GdvTable { m, ids, rows }
}

} // verus!
