//! The model of directed graphlet classes: ordered vertex pairs, packed arc masks and
//! the canonical (least) arc mask over all vertex orders.
use vstd::prelude::*;
use vstd::arithmetic::power2::pow2;
use crate::model::{
    bits_val, lemma_bits_val_bound, lemma_bits_val_injective, is_perm, id_seq, lemma_id_seq,
    compose, lemma_compose_perm, inverse, lemma_inverse, relabels, isomorphic,
};

verus! {

/// Row `i` of the ordered pairs: `(i, j)` for every `j < k`, `j != i`, by increasing `j`.
pub open spec fn drow(k: nat, i: nat) -> Seq<(usize, usize)> {
    Seq::new((k - 1) as nat, |t: int| (i as usize, (if t < i { t } else { t + 1 }) as usize))
}

/// Rows `0..i` of the ordered pairs, in bit order.
pub open spec fn dpairs_upto(k: nat, i: nat) -> Seq<(usize, usize)>
    decreases i,
{
    if i == 0 {
        Seq::empty()
    } else {
        dpairs_upto(k, (i - 1) as nat) + drow(k, (i - 1) as nat)
    }
}

/// The `k(k-1)` ordered pairs `(i, j)`, `i != j`, in bit order.
pub open spec fn dpair_seq(k: nat) -> Seq<(usize, usize)> {
    dpairs_upto(k, k)
}

/// Bit position of the ordered pair `(i, j)`, `i != j`.
pub open spec fn dpair_index(k: nat, i: nat, j: nat) -> int {
    i * (k - 1) + (if j < i { j as int } else { j - 1 })
}

pub proof fn lemma_dpairs_upto_len(k: nat, i: nat)
    requires
        1 <= k,
        i <= k,
    ensures
        dpairs_upto(k, i).len() == i * (k - 1),
    decreases i,
{
    if i > 0 {
        lemma_dpairs_upto_len(k, (i - 1) as nat);
        assert(drow(k, (i - 1) as nat).len() == k - 1);
        assert(i * (k - 1) == (i - 1) * (k - 1) + (k - 1)) by (nonlinear_arith);
    } else {
        assert(i * (k - 1) == 0) by (nonlinear_arith) requires i == 0;
    }
}

pub proof fn lemma_dpair_seq_len(k: nat)
    requires
        1 <= k <= 5,
    ensures
        dpair_seq(k).len() == k * (k - 1),
        dpair_seq(k).len() <= 20,
{
    lemma_dpairs_upto_len(k, k);
    assert(k * (k - 1) <= 20) by (nonlinear_arith) requires 1 <= k <= 5;
}

/// Earlier row blocks are prefixes of later ones.
pub proof fn lemma_dpairs_upto_prefix(k: nat, i: nat, i2: nat)
    requires
        i <= i2,
    ensures
        dpairs_upto(k, i).len() <= dpairs_upto(k, i2).len(),
        dpairs_upto(k, i2).take(dpairs_upto(k, i).len() as int) == dpairs_upto(k, i),
    decreases i2,
{
    if i < i2 {
        lemma_dpairs_upto_prefix(k, i, (i2 - 1) as nat);
        let a = dpairs_upto(k, (i2 - 1) as nat);
        let b = drow(k, (i2 - 1) as nat);
        assert((a + b).take(dpairs_upto(k, i).len() as int) =~= a.take(dpairs_upto(k, i).len() as int));
    } else {
        assert(dpairs_upto(k, i2).take(dpairs_upto(k, i).len() as int) =~= dpairs_upto(k, i));
    }
}

/// Every ordered pair sits at its bit position.
pub proof fn lemma_dpair_at_index(k: nat, i: nat, j: nat)
    requires
        i < k,
        j < k,
        i != j,
        k <= usize::MAX,
    ensures
        0 <= dpair_index(k, i, j) < dpair_seq(k).len(),
        dpair_seq(k)[dpair_index(k, i, j)] == (i as usize, j as usize),
{
    lemma_dpairs_upto_prefix(k, i + 1, k);
    lemma_dpairs_upto_len(k, i);
    lemma_dpairs_upto_len(k, i + 1);
    lemma_dpairs_upto_len(k, k);
    let pre = dpairs_upto(k, (i + 1) as nat);
    let t = if j < i { j as int } else { j - 1 };
    assert(pre == dpairs_upto(k, i) + drow(k, i));
    assert(drow(k, i)[t] == (i as usize, j as usize));
    assert(pre[dpair_index(k, i, j)] == (i as usize, j as usize));
    assert(dpair_seq(k).take(pre.len() as int)[dpair_index(k, i, j)] == dpair_seq(k)[dpair_index(k, i, j)]);
}

/// Every entry of the ordered-pair sequence is a pair of distinct vertices at its
/// bit position.
pub proof fn lemma_dpairs_upto_shape(k: nat, i: nat)
    requires
        1 <= k,
        i <= k,
        k <= usize::MAX,
    ensures
        forall|b: int| 0 <= b < dpairs_upto(k, i).len() ==> {
            let pr = #[trigger] dpairs_upto(k, i)[b];
            &&& pr.0 != pr.1
            &&& pr.0 < k
            &&& pr.1 < k
            &&& pr.0 < i
            &&& b == dpair_index(k, pr.0 as nat, pr.1 as nat)
        },
    decreases i,
{
    if i > 0 {
        lemma_dpairs_upto_shape(k, (i - 1) as nat);
        lemma_dpairs_upto_len(k, (i - 1) as nat);
        let a = dpairs_upto(k, (i - 1) as nat);
        let r = drow(k, (i - 1) as nat);
        assert forall|b: int| 0 <= b < dpairs_upto(k, i).len() implies {
            let pr = #[trigger] dpairs_upto(k, i)[b];
            &&& pr.0 != pr.1
            &&& pr.0 < k
            &&& pr.1 < k
            &&& pr.0 < i
            &&& b == dpair_index(k, pr.0 as nat, pr.1 as nat)
        } by {
            if b < a.len() {
                assert(dpairs_upto(k, i)[b] == a[b]);
            } else {
                let t = b - a.len();
                assert(dpairs_upto(k, i)[b] == r[t]);
            }
        }
    }
}

/// The arc bits of `arc` read in slot order `p`: bit `b` tells whether there is an arc
/// from the vertex in slot `dpair_seq(k)[b].0` to the one in slot `dpair_seq(k)[b].1`.
pub open spec fn dmask_bits(k: nat, p: Seq<usize>, arc: spec_fn(usize, usize) -> bool) -> Seq<bool> {
    dpair_seq(k).map_values(|pr: (usize, usize)| arc(p[pr.0 as int], p[pr.1 as int]))
}

/// The packed ordered-pair arc mask of `arc` in slot order `p`.
pub open spec fn dmask_val(k: nat, p: Seq<usize>, arc: spec_fn(usize, usize) -> bool) -> nat {
    bits_val(dmask_bits(k, p, arc))
}

pub proof fn lemma_dmask_val_bound(k: nat, p: Seq<usize>, arc: spec_fn(usize, usize) -> bool)
    requires
        1 <= k <= 5,
    ensures
        dmask_val(k, p, arc) < pow2(20),
{
    lemma_dpair_seq_len(k);
    lemma_bits_val_bound(dmask_bits(k, p, arc));
    if dpair_seq(k).len() < 20 {
        vstd::arithmetic::power2::lemma_pow2_strictly_increases(dpair_seq(k).len(), 20);
    }
}

/// `m` is the least arc mask over every slot order.
pub open spec fn is_min_dmask(k: nat, arc: spec_fn(usize, usize) -> bool, m: nat) -> bool {
    &&& exists|p: Seq<usize>| is_perm(p, k) && m == #[trigger] dmask_val(k, p, arc)
    &&& forall|p: Seq<usize>| is_perm(p, k) ==> m <= #[trigger] dmask_val(k, p, arc)
}

/// The canonical class value of a `k`-vertex directed graph: its least arc mask over
/// all `k!` vertex orders.
pub open spec fn dcanon(k: nat, arc: spec_fn(usize, usize) -> bool) -> nat {
    choose|m: nat| is_min_dmask(k, arc, m)
}

proof fn lemma_min_dmask_exists(k: nat, arc: spec_fn(usize, usize) -> bool, n: nat)
    requires
        exists|p: Seq<usize>| is_perm(p, k) && #[trigger] dmask_val(k, p, arc) <= n,
    ensures
        exists|m: nat| is_min_dmask(k, arc, m),
    decreases n,
{
    if exists|p: Seq<usize>| is_perm(p, k) && #[trigger] dmask_val(k, p, arc) < n {
        lemma_min_dmask_exists(k, arc, (n - 1) as nat);
    } else {
        let p = choose|p: Seq<usize>| is_perm(p, k) && #[trigger] dmask_val(k, p, arc) <= n;
        assert(is_min_dmask(k, arc, dmask_val(k, p, arc)));
    }
}

pub proof fn lemma_dcanon(k: nat, arc: spec_fn(usize, usize) -> bool)
    requires
        k <= usize::MAX,
    ensures
        is_min_dmask(k, arc, dcanon(k, arc)),
{
    lemma_id_seq(k);
    assert(is_perm(id_seq(k), k) && dmask_val(k, id_seq(k), arc) <= dmask_val(k, id_seq(k), arc));
    lemma_min_dmask_exists(k, arc, dmask_val(k, id_seq(k), arc));
}

/// The least arc mask is unique.
pub proof fn lemma_min_dmask_unique(k: nat, arc: spec_fn(usize, usize) -> bool, m: nat)
    requires
        k <= usize::MAX,
        is_min_dmask(k, arc, m),
    ensures
        dcanon(k, arc) == m,
{
    lemma_dcanon(k, arc);
    let c = dcanon(k, arc);
    let p = choose|p: Seq<usize>| is_perm(p, k) && m == #[trigger] dmask_val(k, p, arc);
    let q = choose|p: Seq<usize>| is_perm(p, k) && c == #[trigger] dmask_val(k, p, arc);
    assert(c <= dmask_val(k, p, arc));
    assert(m <= dmask_val(k, q, arc));
}

proof fn lemma_dmask_relabel(
    sigma: Seq<usize>,
    p: Seq<usize>,
    k: nat,
    a1: spec_fn(usize, usize) -> bool,
    a2: spec_fn(usize, usize) -> bool,
)
    requires
        relabels(sigma, k, a1, a2),
        is_perm(p, k),
        1 <= k <= usize::MAX,
    ensures
        dmask_val(k, p, a2) == dmask_val(k, compose(sigma, p), a1),
        is_perm(compose(sigma, p), k),
{
    lemma_compose_perm(sigma, p, k);
    lemma_dpairs_upto_shape(k, k);
    let c = compose(sigma, p);
    assert forall|b: int| 0 <= b < dpair_seq(k).len() implies #[trigger] dmask_bits(k, p, a2)[b]
        == dmask_bits(k, c, a1)[b] by {
        let pr = dpair_seq(k)[b];
        assert(pr.0 != pr.1 && pr.0 < k && pr.1 < k);
        assert(p[pr.0 as int] != p[pr.1 as int]);
        assert(a2(p[pr.0 as int], p[pr.1 as int]) == a1(sigma[p[pr.0 as int] as int], sigma[p[pr.1 as int] as int]));
    }
    assert(dmask_bits(k, p, a2) =~= dmask_bits(k, c, a1));
}

/// Isomorphic directed graphs have the same canonical value.
pub proof fn lemma_dcanon_of_isomorphic(k: nat, a1: spec_fn(usize, usize) -> bool, a2: spec_fn(usize, usize) -> bool)
    requires
        1 <= k <= usize::MAX,
        isomorphic(k, a1, a2),
    ensures
        dcanon(k, a1) == dcanon(k, a2),
{
    let sigma = choose|sigma: Seq<usize>| relabels(sigma, k, a1, a2);
    crate::model::lemma_relabel_inverse(sigma, k, a1, a2);
    let tau = inverse(sigma, k);
    lemma_dcanon(k, a1);
    lemma_dcanon(k, a2);
    let p1 = choose|p: Seq<usize>| is_perm(p, k) && dcanon(k, a1) == #[trigger] dmask_val(k, p, a1);
    let p2 = choose|p: Seq<usize>| is_perm(p, k) && dcanon(k, a2) == #[trigger] dmask_val(k, p, a2);
    lemma_dmask_relabel(sigma, p2, k, a1, a2);
    lemma_dmask_relabel(tau, p1, k, a2, a1);
    assert(dcanon(k, a1) <= dmask_val(k, compose(sigma, p2), a1));
    assert(dcanon(k, a2) <= dmask_val(k, compose(tau, p1), a2));
}

/// Directed graphs with the same canonical value are isomorphic.
pub proof fn lemma_disomorphic_of_canon(k: nat, a1: spec_fn(usize, usize) -> bool, a2: spec_fn(usize, usize) -> bool)
    requires
        1 <= k <= usize::MAX,
        dcanon(k, a1) == dcanon(k, a2),
    ensures
        isomorphic(k, a1, a2),
{
    lemma_dcanon(k, a1);
    lemma_dcanon(k, a2);
    let p = choose|p: Seq<usize>| is_perm(p, k) && dcanon(k, a1) == #[trigger] dmask_val(k, p, a1);
    let q = choose|p: Seq<usize>| is_perm(p, k) && dcanon(k, a2) == #[trigger] dmask_val(k, p, a2);
    lemma_bits_val_injective(dmask_bits(k, p, a1), dmask_bits(k, q, a2));
    lemma_inverse(q, k);
    let qi = inverse(q, k);
    let sigma = compose(p, qi);
    lemma_compose_perm(p, qi, k);
    assert forall|x: usize, y: usize| x < k && y < k && x != y implies #[trigger] a2(x, y) == a1(sigma[x as int], sigma[y as int]) by {
        let i = qi[x as int];
        let j = qi[y as int];
        assert(q[i as int] == x && q[j as int] == y);
        assert(i != j);
        lemma_dpair_at_index(k, i as nat, j as nat);
        let b = dpair_index(k, i as nat, j as nat);
        assert(dmask_bits(k, p, a1)[b] == dmask_bits(k, q, a2)[b]);
        assert(a1(p[i as int], p[j as int]) == a2(q[i as int], q[j as int]));
    }
    assert(relabels(sigma, k, a1, a2));
}

/// Two `k`-vertex directed graphs get the same canonical value exactly when they are
/// isomorphic as directed graphs (an isomorphism must keep every arc's direction).
pub proof fn law_dcanon_iff_isomorphic(k: nat, a1: spec_fn(usize, usize) -> bool, a2: spec_fn(usize, usize) -> bool)
    requires
        1 <= k <= usize::MAX,
    ensures
        dcanon(k, a1) == dcanon(k, a2) <==> isomorphic(k, a1, a2),
{
    if dcanon(k, a1) == dcanon(k, a2) {
        lemma_disomorphic_of_canon(k, a1, a2);
    }
    if isomorphic(k, a1, a2) {
        lemma_dcanon_of_isomorphic(k, a1, a2);
    }
}

} // verus!
