//! The mathematical model the census is specified against: bit sequences and their
//! numeric value, vertex permutations, adjacency masks, canonical class values and
//! connectivity of vertex sets.
use vstd::prelude::*;
use vstd::arithmetic::power2::{pow2, lemma_pow2_unfold, lemma_pow2_pos};
use vstd::arithmetic::div_mod::{lemma_div_denominator, lemma_fundamental_div_mod};

verus! {

// ---------------------------------------------------------------------------
// Bit sequences
// ---------------------------------------------------------------------------

/// The value of a little-endian bit sequence: bit `b` contributes `2^b`.
pub open spec fn bits_val(s: Seq<bool>) -> nat
    decreases s.len(),
{
    if s.len() == 0 {
        0
    } else {
        (if s[0] { 1nat } else { 0nat }) + 2 * bits_val(s.drop_first())
    }
}

pub open spec fn bit_nat(b: bool) -> nat {
    if b { 1 } else { 0 }
}

/// Appending a bit adds its weight.
pub proof fn lemma_bits_val_push(s: Seq<bool>, b: bool)
    ensures
        bits_val(s.push(b)) == bits_val(s) + bit_nat(b) * pow2(s.len()),
    decreases s.len(),
{
    if s.len() == 0 {
        assert(s.push(b).drop_first() =~= Seq::<bool>::empty());
        assert(bits_val(Seq::<bool>::empty()) == 0);
        assert(bits_val(s) == 0);
        assert(pow2(0) == 1) by { vstd::arithmetic::power2::lemma_pow2(0); vstd::arithmetic::power::lemma_pow0(2); }
        assert(bits_val(s.push(b)) == bit_nat(b));
    } else {
        assert(s.push(b).drop_first() =~= s.drop_first().push(b));
        lemma_bits_val_push(s.drop_first(), b);
        lemma_pow2_unfold(s.len());
        let p = pow2((s.len() - 1) as nat);
        assert(2 * (bit_nat(b) * p) == bit_nat(b) * (2 * p)) by (nonlinear_arith);
        assert(s.push(b)[0] == s[0]);
    }
}

/// A bit sequence's value is below `2^len`.
pub proof fn lemma_bits_val_bound(s: Seq<bool>)
    ensures
        bits_val(s) < pow2(s.len()),
    decreases s.len(),
{
    if s.len() == 0 {
        assert(pow2(0) == 1) by { vstd::arithmetic::power2::lemma_pow2(0); vstd::arithmetic::power::lemma_pow0(2); }
    } else {
        lemma_bits_val_bound(s.drop_first());
        lemma_pow2_unfold(s.len());
    }
}

/// Bit `b` of a sequence's value is the sequence's `b`-th entry.
pub proof fn lemma_bits_val_bit(s: Seq<bool>, b: nat)
    requires
        b < s.len(),
    ensures
        (bits_val(s) / pow2(b)) % 2 == bit_nat(s[b as int]),
    decreases b,
{
    let x = bit_nat(s[0]);
    let rest = bits_val(s.drop_first());
    assert(bits_val(s) == x + 2 * rest);
    if b == 0 {
        assert(pow2(0) == 1) by { vstd::arithmetic::power2::lemma_pow2(0); vstd::arithmetic::power::lemma_pow0(2); }
        assert((x + 2 * rest) % 2 == x) by (nonlinear_arith)
            requires x == 0 || x == 1;
    } else {
        lemma_pow2_unfold(b);
        lemma_pow2_pos((b - 1) as nat);
        assert((x + 2 * rest) / 2 == rest) by (nonlinear_arith)
            requires x == 0 || x == 1;
        lemma_div_denominator(bits_val(s) as int, 2, pow2((b - 1) as nat) as int);
        assert(bits_val(s) / pow2(b) == rest / pow2((b - 1) as nat));
        lemma_bits_val_bit(s.drop_first(), (b - 1) as nat);
    }
}

/// Equal-length bit sequences with equal values are equal.
pub proof fn lemma_bits_val_injective(s: Seq<bool>, t: Seq<bool>)
    requires
        s.len() == t.len(),
        bits_val(s) == bits_val(t),
    ensures
        s == t,
{
    assert forall|i: int| 0 <= i < s.len() implies s[i] == t[i] by {
        lemma_bits_val_bit(s, i as nat);
        lemma_bits_val_bit(t, i as nat);
    }
    assert(s =~= t);
}


// ---------------------------------------------------------------------------
// Permutations of 0..k
// ---------------------------------------------------------------------------

/// `p` lists every vertex `0..k` exactly once.
pub open spec fn is_perm(p: Seq<usize>, k: nat) -> bool {
    &&& p.len() == k
    &&& p.no_duplicates()
    &&& forall|i: int| 0 <= i < k ==> (#[trigger] p[i]) < k
}

/// The identity arrangement `0, 1, ..., k-1`.
pub open spec fn id_seq(k: nat) -> Seq<usize> {
    Seq::new(k, |i: int| i as usize)
}

/// The vertex set `{0, ..., k-1}`.
pub open spec fn below(k: nat) -> Set<usize> {
    Set::new(|x: usize| x < k)
}

pub proof fn lemma_id_seq(k: nat)
    requires
        k <= usize::MAX,
    ensures
        is_perm(id_seq(k), k),
        id_seq(k).to_set() == below(k),
        below(k).finite(),
        below(k).len() == k,
{
    let s = id_seq(k);
    assert forall|x: usize| below(k).contains(x) implies s.to_set().contains(x) by {
        assert(s[x as int] == x);
    }
    assert(s.to_set() =~= below(k));
    s.unique_seq_to_set();
}

/// A permutation of `0..k` takes every value below `k`.
pub proof fn lemma_perm_onto(p: Seq<usize>, k: nat)
    requires
        is_perm(p, k),
        k <= usize::MAX,
    ensures
        p.to_set() == below(k),
{
    lemma_id_seq(k);
    p.unique_seq_to_set();
    assert(p.to_set().subset_of(below(k)));
    vstd::set_lib::lemma_subset_equality(p.to_set(), below(k));
}

/// The composition `t -> sigma[p[t]]`.
pub open spec fn compose(sigma: Seq<usize>, p: Seq<usize>) -> Seq<usize> {
    Seq::new(p.len(), |t: int| sigma[p[t] as int])
}

pub proof fn lemma_compose_perm(sigma: Seq<usize>, p: Seq<usize>, k: nat)
    requires
        is_perm(sigma, k),
        is_perm(p, k),
    ensures
        is_perm(compose(sigma, p), k),
{
    let c = compose(sigma, p);
    assert forall|i: int, j: int| 0 <= i < c.len() && 0 <= j < c.len() && i != j implies c[i] != c[j] by {
        assert(p[i] != p[j]);
    }
}

/// The inverse of a permutation.
pub open spec fn inverse(p: Seq<usize>, k: nat) -> Seq<usize> {
    Seq::new(k, |x: int| p.index_of(x as usize) as usize)
}

pub proof fn lemma_inverse(p: Seq<usize>, k: nat)
    requires
        is_perm(p, k),
        k <= usize::MAX,
    ensures
        is_perm(inverse(p, k), k),
        forall|x: int| 0 <= x < k ==> #[trigger] p[inverse(p, k)[x] as int] == x,
        forall|t: int| 0 <= t < k ==> #[trigger] inverse(p, k)[p[t] as int] == t,
{
    lemma_perm_onto(p, k);
    let q = inverse(p, k);
    assert forall|x: int| 0 <= x < k implies 0 <= #[trigger] p.index_of(x as usize) < k && p[p.index_of(x as usize)] == x by {
        assert(below(k).contains(x as usize));
        assert(p.to_set().contains(x as usize));
        assert(p.contains(x as usize));
    }
    assert forall|t: int| 0 <= t < k implies #[trigger] q[p[t] as int] == t by {
        let x = p[t];
        assert(p.contains(x));
        let u = p.index_of(x);
        assert(0 <= u < k && p[u] == x);
        if u != t {
            assert(p[u] != p[t]);
        }
    }
    assert forall|i: int, j: int| 0 <= i < k && 0 <= j < k && i != j implies q[i] != q[j] by {
        assert(p[q[i] as int] == i);
        assert(p[q[j] as int] == j);
    }
}

// ---------------------------------------------------------------------------
// Upper-triangle vertex pairs and adjacency masks
// ---------------------------------------------------------------------------

/// Row `i` of the upper triangle: `(i, j)` for `i < j < k`.
pub open spec fn row_pairs(k: nat, i: nat) -> Seq<(usize, usize)> {
    if i + 1 < k {
        Seq::new((k - i - 1) as nat, |t: int| (i as usize, (i + 1 + t) as usize))
    } else {
        Seq::empty()
    }
}

/// Rows `0..i` of the upper triangle, in bit order.
pub open spec fn pairs_upto(k: nat, i: nat) -> Seq<(usize, usize)>
    decreases i,
{
    if i == 0 {
        Seq::empty()
    } else {
        pairs_upto(k, (i - 1) as nat) + row_pairs(k, (i - 1) as nat)
    }
}

/// The `k(k-1)/2` upper-triangle pairs `(i, j)`, `i < j < k`, in bit order.
pub open spec fn pair_seq(k: nat) -> Seq<(usize, usize)> {
    pairs_upto(k, k)
}

/// Bit position of the pair `(i, j)`, `i < j < k`.
pub open spec fn pair_index(k: nat, i: nat, j: nat) -> int {
    pairs_upto(k, i).len() + (j - i - 1)
}

pub proof fn lemma_pairs_upto_len(k: nat, i: nat)
    requires
        i <= k,
    ensures
        2 * pairs_upto(k, i).len() == i * (2 * k - i - 1),
    decreases i,
{
    if i > 0 {
        let a = (i - 1) as nat;
        lemma_pairs_upto_len(k, a);
        let l = pairs_upto(k, a).len() as int;
        assert(row_pairs(k, a).len() == k - a - 1);
        assert(pairs_upto(k, i).len() == l + (k - a - 1));
        assert(2 * (l + (k - a - 1)) == i * (2 * k - i - 1)) by (nonlinear_arith)
            requires 2 * l == a * (2 * k - a - 1), i == a + 1;
        assert(2 * pairs_upto(k, i).len() == 2 * (l + (k - a - 1)));
    } else {
        assert(i * (2 * k - i - 1) == 0) by (nonlinear_arith) requires i == 0;
    }
}

pub proof fn lemma_pair_seq_len(k: nat)
    requires
        k <= 11,
    ensures
        pair_seq(k).len() <= 55,
        2 * pair_seq(k).len() == k * (k - 1),
{
    lemma_pairs_upto_len(k, k);
    assert(k * (2 * k - k - 1) == k * (k - 1)) by (nonlinear_arith);
    assert(k * (k - 1) <= 110) by (nonlinear_arith) requires k <= 11;
}

/// Earlier row blocks are prefixes of later ones.
pub proof fn lemma_pairs_upto_prefix(k: nat, i: nat, i2: nat)
    requires
        i <= i2,
        k <= usize::MAX,
    ensures
        pairs_upto(k, i).len() <= pairs_upto(k, i2).len(),
        pairs_upto(k, i2).take(pairs_upto(k, i).len() as int) == pairs_upto(k, i),
    decreases i2,
{
    if i < i2 {
        lemma_pairs_upto_prefix(k, i, (i2 - 1) as nat);
        let a = pairs_upto(k, (i2 - 1) as nat);
        let b = row_pairs(k, (i2 - 1) as nat);
        assert((a + b).take(pairs_upto(k, i).len() as int) =~= a.take(pairs_upto(k, i).len() as int));
    } else {
        assert(pairs_upto(k, i2).take(pairs_upto(k, i).len() as int) =~= pairs_upto(k, i));
    }
}

/// Every upper-triangle pair sits at its bit position.
pub proof fn lemma_pair_at_index(k: nat, i: nat, j: nat)
    requires
        i < j < k,
        k <= usize::MAX,
    ensures
        0 <= pair_index(k, i, j) < pair_seq(k).len(),
        pair_seq(k)[pair_index(k, i, j)] == (i as usize, j as usize),
{
    lemma_pairs_upto_prefix(k, i + 1, k);
    let pre = pairs_upto(k, (i + 1) as nat);
    assert(pre == pairs_upto(k, i) + row_pairs(k, i));
    assert(pre[pair_index(k, i, j)] == (i as usize, j as usize));
    assert(pair_seq(k).take(pre.len() as int)[pair_index(k, i, j)] == pair_seq(k)[pair_index(k, i, j)]);
}

/// Every entry of the pair sequence is an upper-triangle pair.
pub proof fn lemma_pairs_upto_shape(k: nat, i: nat)
    requires
        k <= usize::MAX,
    ensures
        forall|b: int| 0 <= b < pairs_upto(k, i).len() ==> {
            let pr = #[trigger] pairs_upto(k, i)[b];
            &&& pr.0 < pr.1 < k
            &&& pr.0 < i
            &&& b == pair_index(k, pr.0 as nat, pr.1 as nat)
        },
    decreases i,
{
    if i > 0 {
        lemma_pairs_upto_shape(k, (i - 1) as nat);
        let a = pairs_upto(k, (i - 1) as nat);
        let r = row_pairs(k, (i - 1) as nat);
        assert forall|b: int| 0 <= b < pairs_upto(k, i).len() implies {
            let pr = #[trigger] pairs_upto(k, i)[b];
            &&& pr.0 < pr.1 < k
            &&& pr.0 < i
            &&& b == pair_index(k, pr.0 as nat, pr.1 as nat)
        } by {
            if b < a.len() {
                assert(pairs_upto(k, i)[b] == a[b]);
            } else {
                let t = b - a.len();
                assert(pairs_upto(k, i)[b] == r[t]);
                assert(r[t] == ((i - 1) as usize, (i + t) as usize));
            }
        }
    }
}

/// The adjacency bits of `adj` read in slot order `p`: bit `b` tells whether the
/// vertices in slots `pair_seq(k)[b]` are adjacent.
pub open spec fn mask_bits(k: nat, p: Seq<usize>, adj: spec_fn(usize, usize) -> bool) -> Seq<bool> {
    pair_seq(k).map_values(|pr: (usize, usize)| adj(p[pr.0 as int], p[pr.1 as int]))
}

/// The packed upper-triangle adjacency mask of `adj` in slot order `p`.
pub open spec fn mask_val(k: nat, p: Seq<usize>, adj: spec_fn(usize, usize) -> bool) -> nat {
    bits_val(mask_bits(k, p, adj))
}

pub proof fn lemma_mask_val_bound(k: nat, p: Seq<usize>, adj: spec_fn(usize, usize) -> bool)
    requires
        k <= 11,
    ensures
        mask_val(k, p, adj) < pow2(55),
{
    lemma_pair_seq_len(k);
    lemma_bits_val_bound(mask_bits(k, p, adj));
    if pair_seq(k).len() < 55 {
        vstd::arithmetic::power2::lemma_pow2_strictly_increases(pair_seq(k).len(), 55);
    }
}

/// `m` is the least mask over every slot order.
pub open spec fn is_min_mask(k: nat, adj: spec_fn(usize, usize) -> bool, m: nat) -> bool {
    &&& exists|p: Seq<usize>| is_perm(p, k) && m == #[trigger] mask_val(k, p, adj)
    &&& forall|p: Seq<usize>| is_perm(p, k) ==> m <= #[trigger] mask_val(k, p, adj)
}

/// The canonical class value of a `k`-vertex graph: its least adjacency mask over
/// all `k!` vertex orders.
pub open spec fn canon(k: nat, adj: spec_fn(usize, usize) -> bool) -> nat {
    choose|m: nat| is_min_mask(k, adj, m)
}

proof fn lemma_min_mask_exists(k: nat, adj: spec_fn(usize, usize) -> bool, n: nat)
    requires
        exists|p: Seq<usize>| is_perm(p, k) && #[trigger] mask_val(k, p, adj) <= n,
    ensures
        exists|m: nat| is_min_mask(k, adj, m),
    decreases n,
{
    if exists|p: Seq<usize>| is_perm(p, k) && #[trigger] mask_val(k, p, adj) < n {
        lemma_min_mask_exists(k, adj, (n - 1) as nat);
    } else {
        let p = choose|p: Seq<usize>| is_perm(p, k) && #[trigger] mask_val(k, p, adj) <= n;
        assert(is_min_mask(k, adj, mask_val(k, p, adj)));
    }
}

pub proof fn lemma_canon(k: nat, adj: spec_fn(usize, usize) -> bool)
    requires
        k <= usize::MAX,
    ensures
        is_min_mask(k, adj, canon(k, adj)),
{
    lemma_id_seq(k);
    assert(is_perm(id_seq(k), k) && mask_val(k, id_seq(k), adj) <= mask_val(k, id_seq(k), adj));
    lemma_min_mask_exists(k, adj, mask_val(k, id_seq(k), adj));
}

/// The least mask is unique.
pub proof fn lemma_min_mask_unique(k: nat, adj: spec_fn(usize, usize) -> bool, m: nat)
    requires
        k <= usize::MAX,
        is_min_mask(k, adj, m),
    ensures
        canon(k, adj) == m,
{
    lemma_canon(k, adj);
    let c = canon(k, adj);
    let p = choose|p: Seq<usize>| is_perm(p, k) && m == #[trigger] mask_val(k, p, adj);
    let q = choose|p: Seq<usize>| is_perm(p, k) && c == #[trigger] mask_val(k, p, adj);
    assert(c <= mask_val(k, p, adj));
    assert(m <= mask_val(k, q, adj));
}

// ---------------------------------------------------------------------------
// Isomorphism
// ---------------------------------------------------------------------------

/// `adj` is symmetric on `0..k`.
pub open spec fn symmetric_on(k: nat, adj: spec_fn(usize, usize) -> bool) -> bool {
    forall|i: usize, j: usize| i < k && j < k ==> #[trigger] adj(i, j) == adj(j, i)
}

/// `sigma` maps the graph `a2` onto `a1`: `a2(i, j) == a1(sigma[i], sigma[j])`.
pub open spec fn relabels(
    sigma: Seq<usize>,
    k: nat,
    a1: spec_fn(usize, usize) -> bool,
    a2: spec_fn(usize, usize) -> bool,
) -> bool {
    &&& is_perm(sigma, k)
    &&& forall|i: usize, j: usize|
        i < k && j < k && i != j ==> #[trigger] a2(i, j) == a1(sigma[i as int], sigma[j as int])
}

/// Two `k`-vertex graphs are isomorphic.
pub open spec fn isomorphic(k: nat, a1: spec_fn(usize, usize) -> bool, a2: spec_fn(usize, usize) -> bool) -> bool {
    exists|sigma: Seq<usize>| relabels(sigma, k, a1, a2)
}

proof fn lemma_mask_relabel(
    sigma: Seq<usize>,
    p: Seq<usize>,
    k: nat,
    a1: spec_fn(usize, usize) -> bool,
    a2: spec_fn(usize, usize) -> bool,
)
    requires
        relabels(sigma, k, a1, a2),
        is_perm(p, k),
        k <= usize::MAX,
    ensures
        mask_val(k, p, a2) == mask_val(k, compose(sigma, p), a1),
        is_perm(compose(sigma, p), k),
{
    lemma_compose_perm(sigma, p, k);
    lemma_pairs_upto_shape(k, k);
    let c = compose(sigma, p);
    assert forall|b: int| 0 <= b < pair_seq(k).len() implies #[trigger] mask_bits(k, p, a2)[b]
        == mask_bits(k, c, a1)[b] by {
        let pr = pair_seq(k)[b];
        assert(pr.0 < pr.1 < k);
        assert(p[pr.0 as int] != p[pr.1 as int]);
        assert(a2(p[pr.0 as int], p[pr.1 as int]) == a1(sigma[p[pr.0 as int] as int], sigma[p[pr.1 as int] as int]));
    }
    assert(mask_bits(k, p, a2) =~= mask_bits(k, c, a1));
}

pub proof fn lemma_relabel_inverse(
    sigma: Seq<usize>,
    k: nat,
    a1: spec_fn(usize, usize) -> bool,
    a2: spec_fn(usize, usize) -> bool,
)
    requires
        relabels(sigma, k, a1, a2),
        k <= usize::MAX,
    ensures
        relabels(inverse(sigma, k), k, a2, a1),
{
    lemma_inverse(sigma, k);
    let t = inverse(sigma, k);
    assert forall|i: usize, j: usize| i < k && j < k && i != j implies #[trigger] a1(i, j) == a2(t[i as int], t[j as int]) by {
        let ti = t[i as int];
        let tj = t[j as int];
        assert(sigma[ti as int] == i);
        assert(sigma[tj as int] == j);
        assert(a2(ti, tj) == a1(sigma[ti as int], sigma[tj as int]));
    }
}

/// Isomorphic graphs have the same canonical value.
pub proof fn lemma_canon_of_isomorphic(k: nat, a1: spec_fn(usize, usize) -> bool, a2: spec_fn(usize, usize) -> bool)
    requires
        k <= usize::MAX,
        isomorphic(k, a1, a2),
    ensures
        canon(k, a1) == canon(k, a2),
{
    let sigma = choose|sigma: Seq<usize>| relabels(sigma, k, a1, a2);
    lemma_relabel_inverse(sigma, k, a1, a2);
    let tau = inverse(sigma, k);
    lemma_canon(k, a1);
    lemma_canon(k, a2);
    let p1 = choose|p: Seq<usize>| is_perm(p, k) && canon(k, a1) == #[trigger] mask_val(k, p, a1);
    let p2 = choose|p: Seq<usize>| is_perm(p, k) && canon(k, a2) == #[trigger] mask_val(k, p, a2);
    lemma_mask_relabel(sigma, p2, k, a1, a2);
    lemma_mask_relabel(tau, p1, k, a2, a1);
    assert(canon(k, a1) <= mask_val(k, compose(sigma, p2), a1));
    assert(canon(k, a2) <= mask_val(k, compose(tau, p1), a2));
}

/// Graphs with the same canonical value are isomorphic.
pub proof fn lemma_isomorphic_of_canon(k: nat, a1: spec_fn(usize, usize) -> bool, a2: spec_fn(usize, usize) -> bool)
    requires
        k <= usize::MAX,
        symmetric_on(k, a1),
        symmetric_on(k, a2),
        canon(k, a1) == canon(k, a2),
    ensures
        isomorphic(k, a1, a2),
{
    lemma_canon(k, a1);
    lemma_canon(k, a2);
    let p = choose|p: Seq<usize>| is_perm(p, k) && canon(k, a1) == #[trigger] mask_val(k, p, a1);
    let q = choose|p: Seq<usize>| is_perm(p, k) && canon(k, a2) == #[trigger] mask_val(k, p, a2);
    lemma_bits_val_injective(mask_bits(k, p, a1), mask_bits(k, q, a2));
    lemma_inverse(q, k);
    let qi = inverse(q, k);
    let sigma = compose(p, qi);
    lemma_compose_perm(p, qi, k);
    assert forall|x: usize, y: usize| x < k && y < k && x != y implies #[trigger] a2(x, y) == a1(sigma[x as int], sigma[y as int]) by {
        let i = qi[x as int];
        let j = qi[y as int];
        assert(q[i as int] == x && q[j as int] == y);
        assert(i != j);
        let (lo, hi) = if i < j { (i, j) } else { (j, i) };
        lemma_pair_at_index(k, lo as nat, hi as nat);
        let b = pair_index(k, lo as nat, hi as nat);
        assert(mask_bits(k, p, a1)[b] == mask_bits(k, q, a2)[b]);
        assert(a1(p[lo as int], p[hi as int]) == a2(q[lo as int], q[hi as int]));
        assert(a1(p[i as int], p[j as int]) == a2(q[i as int], q[j as int]));
    }
    assert(relabels(sigma, k, a1, a2));
}


// ---------------------------------------------------------------------------
// Connectivity
// ---------------------------------------------------------------------------

/// Some edge of `adj` joins the part `t` to the rest of `s`.
pub open spec fn crosses(t: Set<usize>, s: Set<usize>, adj: spec_fn(usize, usize) -> bool) -> bool {
    exists|x: usize, y: usize| t.contains(x) && s.contains(y) && !t.contains(y) && #[trigger] adj(x, y)
}

/// `s` is connected under `adj`: every way of cutting it into two non-empty parts is
/// crossed by an edge.
pub open spec fn connected_set(s: Set<usize>, adj: spec_fn(usize, usize) -> bool) -> bool {
    forall|t: Set<usize>|
        t.subset_of(s) && t.len() > 0 && t.finite() && t != s ==> #[trigger] crosses(t, s, adj)
}

/// `a` is symmetric everywhere.
pub open spec fn symmetric(adj: spec_fn(usize, usize) -> bool) -> bool {
    forall|i: usize, j: usize| #[trigger] adj(i, j) == adj(j, i)
}

/// Adding a vertex adjacent to a connected set keeps it connected.
pub proof fn lemma_connected_insert(s: Set<usize>, w: usize, x: usize, adj: spec_fn(usize, usize) -> bool)
    requires
        connected_set(s, adj),
        s.finite(),
        s.contains(x),
        !s.contains(w),
        adj(x, w),
        symmetric(adj),
    ensures
        connected_set(s.insert(w), adj),
{
    let s2 = s.insert(w);
    assert forall|t: Set<usize>| t.subset_of(s2) && t.len() > 0 && t.finite() && t != s2 implies #[trigger] crosses(t, s2, adj) by {
        let ts = t.intersect(s);
        if t.contains(w) {
            if ts.len() == 0 {
                // t == {w}
                assert(!t.contains(x)) by {
                    if t.contains(x) { assert(ts.contains(x)); }
                }
                assert(adj(w, x));
                assert(t.contains(w) && s2.contains(x) && !t.contains(x) && adj(w, x));
            } else {
                if ts == s {
                    assert(t =~= s2);
                }
                assert(ts.subset_of(s) && ts.finite() && ts != s);
                assert(crosses(ts, s, adj));
                let (a, b) = choose|a: usize, b: usize| ts.contains(a) && s.contains(b) && !ts.contains(b) && #[trigger] adj(a, b);
                assert(t.contains(a) && s2.contains(b) && !t.contains(b) && adj(a, b));
            }
        } else {
            assert(ts =~= t);
            if t == s {
                assert(t.contains(x) && s2.contains(w) && !t.contains(w) && adj(x, w));
            } else {
                assert(crosses(t, s, adj));
                let (a, b) = choose|a: usize, b: usize| t.contains(a) && s.contains(b) && !t.contains(b) && #[trigger] adj(a, b);
                assert(t.contains(a) && s2.contains(b) && !t.contains(b) && adj(a, b));
            }
        }
    }
}

/// A set with at most one element is connected.
pub proof fn lemma_connected_singleton(v: usize, adj: spec_fn(usize, usize) -> bool)
    ensures
        connected_set(Set::empty().insert(v), adj),
{
    let s = Set::<usize>::empty().insert(v);
    assert forall|t: Set<usize>| t.subset_of(s) && t.len() > 0 && t.finite() && t != s implies #[trigger] crosses(t, s, adj) by {
        if !t.contains(v) {
            assert(t =~= Set::empty());
        } else {
            assert(t =~= s);
        }
    }
}

/// The canonical class is the same law on both sides: two `k`-vertex graphs get the
/// same canonical value exactly when they are isomorphic.
pub proof fn law_canon_iff_isomorphic(k: nat, a1: spec_fn(usize, usize) -> bool, a2: spec_fn(usize, usize) -> bool)
    requires
        k <= usize::MAX,
        symmetric_on(k, a1),
        symmetric_on(k, a2),
    ensures
        canon(k, a1) == canon(k, a2) <==> isomorphic(k, a1, a2),
{
    if canon(k, a1) == canon(k, a2) {
        lemma_isomorphic_of_canon(k, a1, a2);
    }
    if isomorphic(k, a1, a2) {
        lemma_canon_of_isomorphic(k, a1, a2);
    }
}

} // verus!
