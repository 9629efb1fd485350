//! Canonical labelling of small graphlets.
//!
//! A k-node induced subgraph is labelled by the minimum, over all `k!` vertex
//! permutations, of the packed upper-triangle adjacency bitmask. The minimum is
//! insertion-order invariant, so two subgraphs share a [`ClassId`] iff they are
//! isomorphic (see [`crate::model::law_canon_iff_isomorphic`]). Exhaustive over
//! `k!` — intended for `k <= 5`, supported up to `k = 11`.
use vstd::prelude::*;
use vstd::arithmetic::power2::pow2;
use crate::model::{
    is_perm, id_seq, below, lemma_id_seq, lemma_perm_onto, pairs_upto, row_pairs, pair_seq,
    lemma_pair_seq_len, lemma_pairs_upto_prefix, lemma_pair_at_index, mask_bits, mask_val,
    bits_val, lemma_bits_val_bound, lemma_bits_val_push, lemma_mask_val_bound, canon,
    is_min_mask, lemma_min_mask_unique, lemma_pairs_upto_shape, pair_index, connected_set,
    crosses,
};

verus! {

/// A stable graphlet-class identifier: the canonical (minimum) adjacency bitmask.
///
/// Comparable and hashable; its numeric value is an implementation detail (it is a
/// canonical mask, *not* ORCA's published class ordering).
#[derive(Clone, Copy, PartialEq, Eq, PartialOrd, Ord, Hash, Debug)]
pub struct ClassId(pub u64);

/// The largest order whose upper-triangle mask fits a `u64` (55 bits).
pub const MASK_K: usize = 11;

// ---------------------------------------------------------------------------
// Permutations
// ---------------------------------------------------------------------------

/// `s` with positions `i` and `j` exchanged.
pub open spec fn swap_at(s: Seq<usize>, i: int, j: int) -> Seq<usize> {
    s.update(i, s[j]).update(j, s[i])
}

/// The arrangements produced by the swap recursion from position `i` on.
pub open spec fn perm_gen(s: Seq<usize>, i: nat) -> Seq<Seq<usize>>
    decreases s.len() - i, s.len() + 1 - i,
{
    if i >= s.len() {
        seq![s]
    } else {
        perm_gen_from(s, i, i)
    }
}

/// The arrangements produced at position `i` by the swaps `(i, j), (i, j+1), ...`.
pub open spec fn perm_gen_from(s: Seq<usize>, i: nat, j: nat) -> Seq<Seq<usize>>
    decreases s.len() - i, s.len() - j,
{
    if i >= s.len() || j >= s.len() {
        seq![]
    } else {
        perm_gen(swap_at(s, i as int, j as int), i + 1) + perm_gen_from(s, i, j + 1)
    }
}

/// `x` rearranges the duplicate-free `s`, keeping its first `i` entries.
pub open spec fn arranges(x: Seq<usize>, s: Seq<usize>, i: nat) -> bool {
    &&& x.len() == s.len()
    &&& x.to_set() == s.to_set()
    &&& x.no_duplicates()
    &&& x.take(i as int) == s.take(i as int)
}

proof fn lemma_swap_props(s: Seq<usize>, i: int, j: int)
    requires
        0 <= i <= j < s.len(),
        s.no_duplicates(),
    ensures
        swap_at(s, i, j).len() == s.len(),
        swap_at(s, i, j).no_duplicates(),
        swap_at(s, i, j).to_set() == s.to_set(),
        swap_at(s, i, j).take(i) == s.take(i),
        swap_at(s, i, j)[i] == s[j],
{
    let t = swap_at(s, i, j);
    assert forall|a: int, b: int| 0 <= a < t.len() && 0 <= b < t.len() && a != b implies t[a] != t[b] by {
        let sa = if a == i { j } else if a == j { i } else { a };
        let sb = if b == i { j } else if b == j { i } else { b };
        assert(t[a] == s[sa] && t[b] == s[sb]);
    }
    assert forall|x: usize| t.to_set().contains(x) <==> s.to_set().contains(x) by {
        if t.contains(x) {
            let a = choose|a: int| 0 <= a < t.len() && t[a] == x;
            let sa = if a == i { j } else if a == j { i } else { a };
            assert(s[sa] == x);
        }
        if s.contains(x) {
            let a = choose|a: int| 0 <= a < s.len() && s[a] == x;
            let sa = if a == i { j } else if a == j { i } else { a };
            assert(t[sa] == x);
        }
    }
    assert(t.to_set() =~= s.to_set());
    assert(t.take(i) =~= s.take(i));
}

proof fn lemma_perm_gen_sound(s: Seq<usize>, i: nat)
    requires
        i <= s.len(),
        s.no_duplicates(),
    ensures
        forall|x: Seq<usize>| perm_gen(s, i).contains(x) ==> arranges(x, s, i),
    decreases s.len() - i, s.len() + 1 - i,
{
    if i >= s.len() {
        assert forall|x: Seq<usize>| perm_gen(s, i).contains(x) implies arranges(x, s, i) by {
            assert(perm_gen(s, i)[0] == s);
        }
    } else {
        lemma_perm_gen_from_sound(s, i, i);
    }
}

proof fn lemma_perm_gen_from_sound(s: Seq<usize>, i: nat, j: nat)
    requires
        i <= j,
        i <= s.len(),
        s.no_duplicates(),
    ensures
        forall|x: Seq<usize>| perm_gen_from(s, i, j).contains(x) ==> arranges(x, s, i),
    decreases s.len() - i, s.len() - j,
{
    if i >= s.len() || j >= s.len() {
    } else {
        let t = swap_at(s, i as int, j as int);
        lemma_swap_props(s, i as int, j as int);
        lemma_perm_gen_sound(t, i + 1);
        lemma_perm_gen_from_sound(s, i, j + 1);
        let a = perm_gen(t, i + 1);
        let b = perm_gen_from(s, i, j + 1);
        assert forall|x: Seq<usize>| perm_gen_from(s, i, j).contains(x) implies arranges(x, s, i) by {
            let idx = choose|idx: int| 0 <= idx < (a + b).len() && (a + b)[idx] == x;
            if idx < a.len() {
                assert(a[idx] == x);
                assert(a.contains(x));
                assert(arranges(x, t, i + 1));
                assert(x.take(i as int) =~= x.take(i + 1int).take(i as int));
                assert(t.take(i as int) =~= t.take(i + 1int).take(i as int));
            } else {
                assert(b[idx - a.len()] == x);
                assert(b.contains(x));
            }
        }
    }
}

proof fn lemma_perm_gen_from_contains(s: Seq<usize>, i: nat, j0: nat, j: nat, x: Seq<usize>)
    requires
        j0 <= j < s.len(),
        i < s.len(),
        perm_gen(swap_at(s, i as int, j as int), i + 1).contains(x),
    ensures
        perm_gen_from(s, i, j0).contains(x),
    decreases j - j0,
{
    let a = perm_gen(swap_at(s, i as int, j0 as int), i + 1);
    let b = perm_gen_from(s, i, j0 + 1);
    assert(perm_gen_from(s, i, j0) == a + b);
    if j0 == j {
        let idx = choose|idx: int| 0 <= idx < a.len() && a[idx] == x;
        assert((a + b)[idx] == x);
    } else {
        lemma_perm_gen_from_contains(s, i, j0 + 1, j, x);
        let idx = choose|idx: int| 0 <= idx < b.len() && b[idx] == x;
        assert((a + b)[a.len() + idx] == x);
    }
}

proof fn lemma_perm_gen_complete(s: Seq<usize>, i: nat, q: Seq<usize>)
    requires
        i <= s.len(),
        s.no_duplicates(),
        arranges(q, s, i),
    ensures
        perm_gen(s, i).contains(q),
    decreases s.len() - i,
{
    if i >= s.len() {
        assert(q =~= q.take(i as int));
        assert(s =~= s.take(i as int));
        assert(perm_gen(s, i)[0] == q);
    } else {
        assert(q.to_set().contains(q[i as int]));
        assert(s.contains(q[i as int]));
        let j = choose|j: int| 0 <= j < s.len() && s[j] == q[i as int];
        if j < i {
            assert(s[j] == s.take(i as int)[j]);
            assert(q[j] == q.take(i as int)[j]);
            assert(q[j] == q[i as int]);
        }
        let t = swap_at(s, i as int, j);
        lemma_swap_props(s, i as int, j);
        assert(q.take(i + 1int) =~= t.take(i + 1int)) by {
            assert forall|a: int| 0 <= a < i + 1 implies #[trigger] q.take(i + 1int)[a] == t.take(i + 1int)[a] by {
                if a < i {
                    assert(q.take(i as int)[a] == s.take(i as int)[a]);
                }
            }
        }
        lemma_perm_gen_complete(t, i + 1, q);
        lemma_perm_gen_from_contains(s, i, i, j as nat, q);
    }
}

proof fn lemma_perm_gen_nodup(s: Seq<usize>, i: nat)
    requires
        i <= s.len(),
        s.no_duplicates(),
    ensures
        perm_gen(s, i).no_duplicates(),
    decreases s.len() - i, s.len() + 1 - i,
{
    if i < s.len() {
        lemma_perm_gen_from_nodup(s, i, i);
    }
}

proof fn lemma_perm_gen_from_nodup(s: Seq<usize>, i: nat, j: nat)
    requires
        i <= j,
        i < s.len(),
        s.no_duplicates(),
    ensures
        perm_gen_from(s, i, j).no_duplicates(),
        forall|t: int| 0 <= t < perm_gen_from(s, i, j).len() ==>
            s.subrange(j as int, s.len() as int).contains(#[trigger] perm_gen_from(s, i, j)[t][i as int]),
    decreases s.len() - i, s.len() - j,
{
    if j < s.len() {
        let t = swap_at(s, i as int, j as int);
        lemma_swap_props(s, i as int, j as int);
        lemma_perm_gen_sound(t, i + 1);
        lemma_perm_gen_nodup(t, i + 1);
        lemma_perm_gen_from_nodup(s, i, j + 1);
        let a = perm_gen(t, i + 1);
        let b = perm_gen_from(s, i, j + 1);
        let ab = perm_gen_from(s, i, j);
        assert(ab == a + b);
        assert forall|x: int| 0 <= x < a.len() implies (#[trigger] a[x])[i as int] == s[j as int] by {
            assert(a.contains(a[x]));
            assert(arranges(a[x], t, i + 1));
            assert(a[x].take(i + 1int)[i as int] == t.take(i + 1int)[i as int]);
        }
        assert forall|x: int| 0 <= x < b.len() implies (#[trigger] b[x])[i as int] != s[j as int] by {
            assert(s.subrange(j + 1int, s.len() as int).contains(b[x][i as int]));
            let w = choose|w: int| 0 <= w < s.len() - (j + 1) && #[trigger] s.subrange(j + 1int, s.len() as int)[w] == b[x][i as int];
            assert(s[j + 1 + w] == b[x][i as int]);
        }
        assert forall|x: int, y: int| 0 <= x < ab.len() && 0 <= y < ab.len() && x != y implies ab[x] != ab[y] by {
            if x < a.len() && y >= a.len() {
                assert(ab[x] == a[x] && ab[y] == b[y - a.len()]);
                assert(ab[x][i as int] != ab[y][i as int]);
            } else if y < a.len() && x >= a.len() {
                assert(ab[y] == a[y] && ab[x] == b[x - a.len()]);
                assert(ab[x][i as int] != ab[y][i as int]);
            } else if x < a.len() {
                assert(ab[x] == a[x] && ab[y] == a[y]);
            } else {
                assert(ab[x] == b[x - a.len()] && ab[y] == b[y - a.len()]);
            }
        }
        assert forall|x: int| 0 <= x < ab.len() implies
            s.subrange(j as int, s.len() as int).contains(#[trigger] ab[x][i as int]) by {
            if x < a.len() {
                assert(ab[x] == a[x]);
                assert(s.subrange(j as int, s.len() as int)[0] == s[j as int]);
            } else {
                assert(ab[x] == b[x - a.len()]);
                let v = ab[x][i as int];
                assert(s.subrange(j + 1int, s.len() as int).contains(v));
                let w = choose|w: int| 0 <= w < s.len() - (j + 1) && #[trigger] s.subrange(j + 1int, s.len() as int)[w] == v;
                assert(s.subrange(j as int, s.len() as int)[w + 1] == v);
            }
        }
    } else {
        assert(perm_gen_from(s, i, j) =~= Seq::<Seq<usize>>::empty());
    }
}

/// Appends every arrangement of `cur[i..]` (prefix kept) to `res`, in swap order,
/// leaving `cur` as it was.
fn perms_go(cur: &mut Vec<usize>, i: usize, res: &mut Vec<Vec<usize>>)
    requires
        i <= old(cur).len(),
    ensures
        final(cur)@ == old(cur)@,
        final(res).deep_view() == old(res).deep_view() + perm_gen(old(cur)@, i as nat),
    decreases old(cur).len() - i,
{
    if i == cur.len() {
        let c = cur.clone();
        assert(c@ =~= cur@);
        let ghost r0 = res.deep_view();
        res.push(c);
        assert forall|t: int| 0 <= t < res.len() implies #[trigger] res.deep_view()[t] == (r0 + seq![cur@])[t] by {
            if t < r0.len() {
                assert(res@[t] == old(res)@[t]);
            } else {
                assert(res@[t] == c);
            }
        }
        assert(res.deep_view() =~= r0 + seq![cur@]);
        return;
    }
    let ghost s0 = cur@;
    let ghost r0 = res.deep_view();
    let mut j = i;
    assert(res.deep_view() + perm_gen_from(s0, i as nat, j as nat) =~= r0 + perm_gen_from(s0, i as nat, i as nat));
    while j < cur.len()
        invariant
            i < cur.len(),
            i <= j <= cur.len(),
            cur@ == s0,
            s0 == old(cur)@,
            res.deep_view() + perm_gen_from(s0, i as nat, j as nat) == r0 + perm_gen_from(s0, i as nat, i as nat),
        decreases cur.len() - j,
    {
        let a = cur[i];
        let b = cur[j];
        cur.set(i, b);
        cur.set(j, a);
        assert(cur@ =~= swap_at(s0, i as int, j as int));
        let ghost before = res.deep_view();
        perms_go(cur, i + 1, res);
        let a2 = cur[i];
        let b2 = cur[j];
        cur.set(i, b2);
        cur.set(j, a2);
        assert(cur@ =~= s0);
        assert(perm_gen_from(s0, i as nat, j as nat) == perm_gen(swap_at(s0, i as int, j as int), (i + 1) as nat) + perm_gen_from(s0, i as nat, (j + 1) as nat));
        assert(res.deep_view() + perm_gen_from(s0, i as nat, (j + 1) as nat) =~= before + perm_gen_from(s0, i as nat, j as nat));
        j += 1;
    }
    assert(perm_gen(s0, i as nat) == perm_gen_from(s0, i as nat, i as nat));
    assert(res.deep_view() =~= res.deep_view() + perm_gen_from(s0, i as nat, j as nat));
}

/// The list `ps` holds exactly the permutations of `0..k`.
pub open spec fn all_perms(ps: Seq<Seq<usize>>, k: nat) -> bool {
    &&& ps.len() > 0
    &&& ps.no_duplicates()
    &&& forall|p: Seq<usize>| ps.contains(p) <==> is_perm(p, k)
}

/// The permutations of `0..k` form a finite set.
pub proof fn lemma_perm_set_finite(k: nat)
    requires
        k <= usize::MAX,
    ensures
        Set::new(|p: Seq<usize>| is_perm(p, k)).finite(),
{
    let s = id_seq(k);
    let ps = perm_gen(s, 0);
    let all = Set::new(|p: Seq<usize>| is_perm(p, k));
    lemma_id_seq(k);
    assert forall|p: Seq<usize>| all.contains(p) implies ps.to_set().contains(p) by {
        lemma_perm_onto(p, k);
        assert(p.take(0) =~= s.take(0));
        lemma_perm_gen_complete(s, 0, p);
    }
    vstd::seq_lib::seq_to_set_is_finite(ps);
    vstd::set_lib::lemma_len_subset(all, ps.to_set());
}

/// All `k!` permutations of `0..k`.
pub fn perms(k: usize) -> (res: Vec<Vec<usize>>)
    ensures
        all_perms(res.deep_view(), k as nat),
{
    let mut res: Vec<Vec<usize>> = Vec::new();
    let mut cur: Vec<usize> = Vec::new();
    let mut t: usize = 0;
    while t < k
        invariant
            t <= k,
            cur@ == id_seq(t as nat),
        decreases k - t,
    {
        cur.push(t);
        assert(cur@ =~= id_seq((t + 1) as nat));
        t += 1;
    }
    assert(res.deep_view() =~= Seq::<Seq<usize>>::empty());
    perms_go(&mut cur, 0, &mut res);
    let ghost ps = res.deep_view();
    let ghost s = id_seq(k as nat);
    proof {
    lemma_id_seq(k as nat);
    assert(ps =~= perm_gen(s, 0));
    lemma_perm_gen_sound(s, 0);
    lemma_perm_gen_nodup(s, 0);
    assert(arranges(s, s, 0));
    lemma_perm_gen_complete(s, 0, s);
    assert(ps.contains(s));
    assert forall|p: Seq<usize>| ps.contains(p) <==> is_perm(p, k as nat) by {
        if ps.contains(p) {
            assert(arranges(p, s, 0));
            assert forall|i: int| 0 <= i < k implies (#[trigger] p[i]) < k by {
                assert(p.to_set().contains(p[i]));
                assert(below(k as nat).contains(p[i]));
            }
        }
        if is_perm(p, k as nat) {
            lemma_perm_onto(p, k as nat);
            assert(p.take(0) =~= s.take(0));
            lemma_perm_gen_complete(s, 0, p);
        }
    }
    }
    res
}

// ---------------------------------------------------------------------------
// Pairs and masks
// ---------------------------------------------------------------------------

/// The `k(k-1)/2` upper-triangle vertex pairs in bit order.
pub fn pairs(k: usize) -> (res: Vec<(usize, usize)>)
    ensures
        res@ == pair_seq(k as nat),
{
    let mut res: Vec<(usize, usize)> = Vec::new();
    let mut i: usize = 0;
    while i < k
        invariant
            i <= k,
            res@ == pairs_upto(k as nat, i as nat),
        decreases k - i,
    {
        let mut j: usize = i + 1;
        let ghost base = res@;
        while j < k
            invariant
                i < k,
                i + 1 <= j <= k,
                base == pairs_upto(k as nat, i as nat),
                res@ == base + row_pairs(k as nat, i as nat).take(j - i - 1),
            decreases k - j,
        {
            res.push((i, j));
            assert(row_pairs(k as nat, i as nat).take(j + 1 - i - 1) =~= row_pairs(k as nat, i as nat).take(j - i - 1).push((i, j)));
            assert(res@ =~= base + row_pairs(k as nat, i as nat).take(j + 1 - i - 1));
            j += 1;
        }
        assert(row_pairs(k as nat, i as nat).take(k - i - 1) =~= row_pairs(k as nat, i as nat));
        i += 1;
    }
    res
}

/// The spec function `f` says what the closure `is_adj` answers on `0..k`.
pub open spec fn computes<F: Fn(usize, usize) -> bool>(is_adj: F, k: nat, f: spec_fn(usize, usize) -> bool) -> bool {
    &&& forall|a: usize, b: usize| a < k && b < k ==> #[trigger] is_adj.requires((a, b))
    &&& forall|a: usize, b: usize, r: bool| a < k && b < k && #[trigger] is_adj.ensures((a, b), r) ==> r == f(a, b)
}

proof fn lemma_or_high_bit(m: u64, b: u64)
    by (bit_vector)
    requires
        b < 64,
        m < (1u64 << b),
    ensures
        m | (1u64 << b) == m + (1u64 << b),
{
}

/// Pack the induced upper-triangle bitmask under one permutation, where canonical
/// slot `c` is filled by local vertex `perm[c]` and adjacency of local vertices is
/// probed by `is_adj`.
fn mask_of<F: Fn(usize, usize) -> bool>(k: usize, perm: &[usize], is_adj: &F, Ghost(f): Ghost<spec_fn(usize, usize) -> bool>) -> (m: u64)
    requires
        k <= MASK_K,
        perm@.len() == k,
        forall|t: int| 0 <= t < k ==> (#[trigger] perm@[t]) < k,
        computes(*is_adj, k as nat, f),
    ensures
        m == mask_val(k as nat, perm@, f),
{
    let ghost bits = mask_bits(k as nat, perm@, f);
    proof {
        lemma_pair_seq_len(k as nat);
    }
    let mut m: u64 = 0;
    let mut bit: u64 = 0;
    let mut i: usize = 0;
    while i < k
        invariant
            k <= MASK_K,
            i <= k,
            perm@.len() == k,
            forall|t: int| 0 <= t < k ==> (#[trigger] perm@[t]) < k,
            computes(*is_adj, k as nat, f),
            bits == mask_bits(k as nat, perm@, f),
            bits.len() == pair_seq(k as nat).len(),
            pair_seq(k as nat).len() <= 55,
            bit == pairs_upto(k as nat, i as nat).len(),
            bit <= pair_seq(k as nat).len(),
            m == bits_val(bits.take(bit as int)),
        decreases k - i,
    {
        let mut j: usize = i + 1;
        proof {
            lemma_pairs_upto_prefix(k as nat, (i + 1) as nat, k as nat);
        }
        while j < k
            invariant
                k <= MASK_K,
                i < k,
                i + 1 <= j <= k,
                perm@.len() == k,
                forall|t: int| 0 <= t < k ==> (#[trigger] perm@[t]) < k,
                computes(*is_adj, k as nat, f),
                bits == mask_bits(k as nat, perm@, f),
                bits.len() == pair_seq(k as nat).len(),
                pair_seq(k as nat).len() <= 55,
                pairs_upto(k as nat, (i + 1) as nat).len() <= pair_seq(k as nat).len(),
                bit == pairs_upto(k as nat, i as nat).len() + (j - i - 1),
                m == bits_val(bits.take(bit as int)),
            decreases k - j,
        {
            proof {
                lemma_pair_at_index(k as nat, i as nat, j as nat);
                lemma_bits_val_bound(bits.take(bit as int));
                lemma_bits_val_push(bits.take(bit as int), bits[bit as int]);
                assert(bits.take(bit + 1int) =~= bits.take(bit as int).push(bits[bit as int]));
                vstd::bits::lemma_u64_pow2_no_overflow(bit as nat);
                vstd::bits::lemma_u64_shl_is_mul(1, bit);
            }
            let a = perm[i];
            let b = perm[j];
            let e = is_adj(a, b);
            assert(e == bits[bit as int]);
            if e {
                proof {
                    lemma_or_high_bit(m, bit);
                }
                m = m | (1u64 << bit);
            }
            bit += 1;
            j += 1;
        }
        assert(row_pairs(k as nat, i as nat).len() == k - i - 1);
        i += 1;
    }
    assert(bits.take(bit as int) =~= bits);
    m
}

/// Packed upper-triangle mask under a single permutation (used for automorphism
/// detection: `p` is an automorphism of a class iff its mask equals the class mask).
pub(crate) fn mask_of_fn<F: Fn(usize, usize) -> bool>(k: usize, perm: &[usize], is_adj: F, Ghost(f): Ghost<spec_fn(usize, usize) -> bool>) -> (m: u64)
    requires
        k <= MASK_K,
        perm@.len() == k,
        forall|t: int| 0 <= t < k ==> (#[trigger] perm@[t]) < k,
        computes(is_adj, k as nat, f),
    ensures
        m == mask_val(k as nat, perm@, f),
{
    mask_of(k, perm, &is_adj, Ghost(f))
}

/// Canonical mask of a k-vertex induced subgraph given an adjacency predicate over
/// its local vertices `0..k`.
pub(crate) fn canonical_fn<F: Fn(usize, usize) -> bool>(k: usize, ps: &Vec<Vec<usize>>, is_adj: F, Ghost(f): Ghost<spec_fn(usize, usize) -> bool>) -> (m: u64)
    requires
        k <= MASK_K,
        all_perms(ps.deep_view(), k as nat),
        computes(is_adj, k as nat, f),
    ensures
        m == canon(k as nat, f),
{
    let (m, _arg) = canonical_arg_fn(k, ps, is_adj, Ghost(f));
    m
}

/// Canonical mask plus a witnessing arg-permutation: `arg[c]` is the local vertex
/// feeding canonical slot `c`. Any arg achieving the minimum is a valid
/// instance→canonical isomorphism; since orbit ids are automorphism-invariant, the
/// choice among ties does not matter.
pub(crate) fn canonical_arg_fn<F: Fn(usize, usize) -> bool>(k: usize, ps: &Vec<Vec<usize>>, is_adj: F, Ghost(f): Ghost<spec_fn(usize, usize) -> bool>) -> (res: (u64, Vec<usize>))
    requires
        k <= MASK_K,
        all_perms(ps.deep_view(), k as nat),
        computes(is_adj, k as nat, f),
    ensures
        res.0 == canon(k as nat, f),
        is_perm(res.1@, k as nat),
        mask_val(k as nat, res.1@, f) == res.0,
{
    let ghost dv = ps.deep_view();
    assert(dv.contains(dv[0]));
    let mut best: u64 = u64::MAX;
    let mut arg: Vec<usize> = ps[0].clone();
    assert(arg@ == dv[0]);
    let mut t: usize = 0;
    while t < ps.len()
        invariant
            k <= MASK_K,
            dv == ps.deep_view(),
            all_perms(dv, k as nat),
            computes(is_adj, k as nat, f),
            t <= ps.len(),
            is_perm(arg@, k as nat),
            t > 0 ==> best == mask_val(k as nat, arg@, f),
            t == 0 ==> best == u64::MAX,
            forall|u: int| 0 <= u < t ==> best <= #[trigger] mask_val(k as nat, dv[u], f),
        decreases ps.len() - t,
    {
        assert(dv.contains(dv[t as int]));
        let p = &ps[t];
        assert(p@ == dv[t as int]);
        let m = mask_of(k, p.as_slice(), &is_adj, Ghost(f));
        proof {
            lemma_mask_val_bound(k as nat, p@, f);
            vstd::bits::lemma_u64_pow2_no_overflow(55);
        }
        if m < best {
            best = m;
            arg = p.clone();
            assert(arg@ =~= p@);
        }
        t += 1;
    }
    proof {
        assert(dv.contains(dv[0]));
        assert forall|p: Seq<usize>| is_perm(p, k as nat) implies best <= #[trigger] mask_val(k as nat, p, f) by {
            assert(dv.contains(p));
            let u = choose|u: int| 0 <= u < dv.len() && dv[u] == p;
        }
        assert(is_min_mask(k as nat, f, best as nat));
        lemma_min_mask_unique(k as nat, f, best as nat);
    }
    (best, arg)
}


/// What a deterministic adjacency closure answers: `true` exactly where a call may
/// return `true`.
pub open spec fn answers<F: Fn(usize, usize) -> bool>(is_adj: F) -> spec_fn(usize, usize) -> bool {
    |a: usize, b: usize| is_adj.ensures((a, b), true)
}

/// The closure may be called on every pair of `0..k`, and no call there may answer
/// both ways.
pub open spec fn decides<F: Fn(usize, usize) -> bool>(is_adj: F, k: nat) -> bool {
    forall|a: usize, b: usize|
        a < k && b < k ==> #[trigger] is_adj.requires((a, b)) && !(is_adj.ensures((a, b), true)
            && is_adj.ensures((a, b), false))
}

pub(crate) proof fn lemma_decides_computes<F: Fn(usize, usize) -> bool>(is_adj: F, k: nat)
    requires
        decides(is_adj, k),
    ensures
        computes(is_adj, k, answers(is_adj)),
{
    assert forall|a: usize, b: usize, r: bool| a < k && b < k && #[trigger] is_adj.ensures((a, b), r) implies r
        == answers(is_adj)(a, b) by {
        assert(is_adj.requires((a, b)));
    }
}

/// Packed upper-triangle mask under a single permutation (used for automorphism
/// detection: `p` is an automorphism of a class iff its mask equals the class mask).
pub fn mask_of_by<F: Fn(usize, usize) -> bool>(k: usize, perm: &[usize], is_adj: F) -> (m: u64)
    requires
        k <= MASK_K,
        perm@.len() == k,
        forall|t: int| 0 <= t < k ==> (#[trigger] perm@[t]) < k,
        decides(is_adj, k as nat),
    ensures
        m == mask_val(k as nat, perm@, answers(is_adj)),
{
    proof { lemma_decides_computes(is_adj, k as nat); }
    mask_of(k, perm, &is_adj, Ghost(answers(is_adj)))
}

/// Canonical mask of a k-vertex induced subgraph given an adjacency predicate over
/// its local vertices `0..k`.
pub fn canonical_by<F: Fn(usize, usize) -> bool>(k: usize, ps: &Vec<Vec<usize>>, is_adj: F) -> (m: u64)
    requires
        k <= MASK_K,
        all_perms(ps.deep_view(), k as nat),
        decides(is_adj, k as nat),
    ensures
        m == canon(k as nat, answers(is_adj)),
{
    proof { lemma_decides_computes(is_adj, k as nat); }
    canonical_fn(k, ps, is_adj, Ghost(answers(is_adj)))
}

/// Canonical mask plus a witnessing arg-permutation: `arg[c]` is the local vertex
/// feeding canonical slot `c`.
pub fn canonical_arg_by<F: Fn(usize, usize) -> bool>(k: usize, ps: &Vec<Vec<usize>>, is_adj: F) -> (res: (u64, Vec<usize>))
    requires
        k <= MASK_K,
        all_perms(ps.deep_view(), k as nat),
        decides(is_adj, k as nat),
    ensures
        res.0 == canon(k as nat, answers(is_adj)),
        is_perm(res.1@, k as nat),
        mask_val(k as nat, res.1@, answers(is_adj)) == res.0,
{
    proof { lemma_decides_computes(is_adj, k as nat); }
    canonical_arg_fn(k, ps, is_adj, Ghost(answers(is_adj)))
}

// ---------------------------------------------------------------------------
// Class adjacency, connectivity, and the class catalogue
// ---------------------------------------------------------------------------

/// Bit `b` of `m`.
pub open spec fn mask_bit(m: nat, b: int) -> bool {
    (m / pow2(b as nat)) % 2 == 1
}

/// The `k`-vertex graph whose upper-triangle adjacency bits are `mask`.
pub open spec fn class_adj(mask: nat, k: nat) -> spec_fn(usize, usize) -> bool {
    |a: usize, b: usize|
        a < k && b < k && a != b && mask_bit(
            mask,
            if a < b { pair_index(k, a as nat, b as nat) } else { pair_index(k, b as nat, a as nat) },
        )
}

/// The adjacency relation of neighbor lists.
pub open spec fn list_adj(adj: Seq<Seq<usize>>) -> spec_fn(usize, usize) -> bool {
    |a: usize, b: usize| a < adj.len() && adj[a as int].contains(b)
}

/// Neighbor lists over `0..n`, duplicate-free, symmetric.
pub open spec fn lists_wf(adj: Seq<Seq<usize>>) -> bool {
    &&& forall|a: int, t: int| 0 <= a < adj.len() && 0 <= t < adj[a].len() ==> (#[trigger] adj[a][t]) < adj.len()
    &&& forall|a: int| 0 <= a < adj.len() ==> (#[trigger] adj[a]).no_duplicates()
    &&& forall|a: usize, b: usize| #[trigger] list_adj(adj)(a, b) == list_adj(adj)(b, a)
}

proof fn lemma_push_contains(s: Seq<usize>, x: usize, c: usize)
    ensures
        s.push(x).contains(c) <==> (s.contains(c) || c == x),
{
    if s.contains(c) {
        let w = choose|w: int| 0 <= w < s.len() && s[w] == c;
        assert(s.push(x)[w] == c);
    }
    if c == x {
        assert(s.push(x)[s.len() as int] == c);
    }
    if s.push(x).contains(c) {
        let w = choose|w: int| 0 <= w < s.push(x).len() && s.push(x)[w] == c;
        if w < s.len() {
            assert(s[w] == c);
        }
    }
}

proof fn lemma_bit_test(m: u64, b: u64)
    requires
        b < 64,
    ensures
        (m & (1u64 << b) != 0) == mask_bit(m as nat, b as int),
{
    assert((m & (1u64 << b) != 0) == ((m >> b) & 1 == 1)) by (bit_vector)
        requires b < 64;
    assert(((m >> b) & 1) == (m >> b) % 2) by (bit_vector);
    vstd::bits::lemma_u64_shr_is_div(m, b);
}

/// Whether `x` occurs in `v`.
pub fn vec_contains(v: &Vec<usize>, x: usize) -> (r: bool)
    ensures
        r == v@.contains(x),
{
    let mut t: usize = 0;
    while t < v.len()
        invariant
            t <= v.len(),
            forall|u: int| 0 <= u < t ==> v@[u] != x,
        decreases v.len() - t,
    {
        if v[t] == x {
            return true;
        }
        t += 1;
    }
    false
}

/// The `k x k` adjacency of the graphlet class with the given canonical mask.
pub fn class_to_adj(mask: u64, k: usize) -> (adj: Vec<Vec<usize>>)
    requires
        k <= MASK_K,
    ensures
        adj@.len() == k,
        lists_wf(adj.deep_view()),
        list_adj(adj.deep_view()) == class_adj(mask as nat, k as nat),
{
    let ps = pairs(k);
    proof {
        lemma_pair_seq_len(k as nat);
        lemma_pairs_upto_shape(k as nat, k as nat);
    }
    let mut adj: Vec<Vec<usize>> = Vec::new();
    let mut t: usize = 0;
    while t < k
        invariant
            t <= k,
            adj@.len() == t,
            forall|a: int| 0 <= a < t ==> (#[trigger] adj@[a])@.len() == 0,
        decreases k - t,
    {
        adj.push(Vec::new());
        t += 1;
    }
    let ghost cm = class_adj(mask as nat, k as nat);
    let mut b: usize = 0;
    while b < ps.len()
        invariant
            k <= MASK_K,
            ps@ == pair_seq(k as nat),
            ps@.len() <= 55,
            forall|c: int| 0 <= c < pair_seq(k as nat).len() ==> {
                let pr = #[trigger] pair_seq(k as nat)[c];
                &&& pr.0 < pr.1 < k
                &&& c == pair_index(k as nat, pr.0 as nat, pr.1 as nat)
            },
            cm == class_adj(mask as nat, k as nat),
            b <= ps.len(),
            adj@.len() == k,
            forall|a: int, u: int| 0 <= a < k && 0 <= u < adj@[a]@.len() ==> (#[trigger] adj@[a]@[u]) < k,
            forall|a: int| 0 <= a < k ==> (#[trigger] adj@[a]@).no_duplicates(),
            forall|a: usize, c: usize| a < k && c < k ==> (#[trigger] adj@[a as int]@.contains(c) <==> (cm(a, c)
                && (if a < c { pair_index(k as nat, a as nat, c as nat) } else { pair_index(k as nat, c as nat, a as nat) }) < b)),
        decreases ps.len() - b,
    {
        let (i, j) = ps[b];
        assert(pair_seq(k as nat)[b as int] == (i, j));
        proof {
            lemma_bit_test(mask, b as u64);
        }
        if mask & (1u64 << (b as u64)) != 0 {
            let ghost old_adj = adj@;
            let mut ri = adj[i].clone();
            assert(ri@ =~= adj@[i as int]@);
            assert(!ri@.contains(j));
            ri.push(j);
            adj.set(i, ri);
            let mut rj = adj[j].clone();
            assert(rj@ =~= adj@[j as int]@);
            assert(!rj@.contains(i));
            rj.push(i);
            adj.set(j, rj);
            assert(adj@[i as int]@ == old_adj[i as int]@.push(j));
            assert(adj@[j as int]@ == old_adj[j as int]@.push(i));
            assert(pair_index(k as nat, i as nat, j as nat) == b as int);
            assert(cm(i, j) && cm(j, i));
            assert forall|a: usize, c: usize| a < k && c < k implies (#[trigger] adj@[a as int]@.contains(c) <==> (cm(a, c)
                && (if a < c { pair_index(k as nat, a as nat, c as nat) } else { pair_index(k as nat, c as nat, a as nat) }) < b + 1)) by {
                let pa = if a < c { pair_index(k as nat, a as nat, c as nat) } else { pair_index(k as nat, c as nat, a as nat) };
                if a != c {
                    let (lo, hi) = if a < c { (a, c) } else { (c, a) };
                    crate::model::lemma_pair_at_index(k as nat, lo as nat, hi as nat);
                    if pa == b as int {
                        assert(pair_seq(k as nat)[pa] == (lo, hi));
                    }
                }
                if a == i as usize && c == j as usize {
                    lemma_push_contains(old_adj[i as int]@, j, c);
                } else if a == j as usize && c == i as usize {
                    lemma_push_contains(old_adj[j as int]@, i, c);
                } else if a == i {
                    lemma_push_contains(old_adj[i as int]@, j, c);
                } else if a == j {
                    lemma_push_contains(old_adj[j as int]@, i, c);
                } else {
                    assert(adj@[a as int] == old_adj[a as int]);
                }
            }
            assert forall|a: int| 0 <= a < k implies (#[trigger] adj@[a]@).no_duplicates() by {
                if a != i && a != j {
                    assert(adj@[a] == old_adj[a]);
                }
            }
            assert forall|a: int, u: int| 0 <= a < k && 0 <= u < adj@[a]@.len() implies (#[trigger] adj@[a]@[u]) < k by {
                if a != i && a != j {
                    assert(adj@[a] == old_adj[a]);
                } else if a == i {
                    if u < old_adj[a]@.len() { assert(adj@[a]@[u] == old_adj[a]@[u]); }
                } else {
                    if u < old_adj[a]@.len() { assert(adj@[a]@[u] == old_adj[a]@[u]); }
                }
            }
        } else {
            assert forall|a: usize, c: usize| a < k && c < k implies (#[trigger] adj@[a as int]@.contains(c) <==> (cm(a, c)
                && (if a < c { pair_index(k as nat, a as nat, c as nat) } else { pair_index(k as nat, c as nat, a as nat) }) < b + 1)) by {
                let pa = if a < c { pair_index(k as nat, a as nat, c as nat) } else { pair_index(k as nat, c as nat, a as nat) };
                if a != c {
                    let (lo, hi) = if a < c { (a, c) } else { (c, a) };
                    crate::model::lemma_pair_at_index(k as nat, lo as nat, hi as nat);
                    if pa == b as int {
                        assert(pair_seq(k as nat)[pa] == (lo, hi));
                    }
                }
            }
        }
        b += 1;
    }
    proof {
        let dv = adj.deep_view();
        assert forall|a: usize, c: usize| #[trigger] list_adj(dv)(a, c) == cm(a, c) by {
            if a < k && c < k {
                if a != c {
                    let (lo, hi) = if a < c { (a, c) } else { (c, a) };
                    crate::model::lemma_pair_at_index(k as nat, lo as nat, hi as nat);
                }
                assert(dv[a as int] == adj@[a as int]@);
            }
        }
        assert(list_adj(dv) =~= cm);
        assert forall|a: int, u: int| 0 <= a < dv.len() && 0 <= u < dv[a].len() implies (#[trigger] dv[a][u]) < dv.len() by {
            assert(dv[a] == adj@[a]@);
        }
        assert forall|a: int| 0 <= a < dv.len() implies (#[trigger] dv[a]).no_duplicates() by {
            assert(dv[a] == adj@[a]@);
        }
    }
    adj
}

proof fn lemma_first_index(order: Seq<usize>, p: Set<usize>, i: int) -> (m: int)
    requires
        0 <= i < order.len(),
        p.contains(order[i]),
    ensures
        0 <= m <= i,
        p.contains(order[m]),
        forall|m2: int| 0 <= m2 < m ==> !p.contains(#[trigger] order[m2]),
    decreases i,
{
    if exists|m2: int| 0 <= m2 < i && p.contains(#[trigger] order[m2]) {
        let m2 = choose|m2: int| 0 <= m2 < i && p.contains(#[trigger] order[m2]);
        lemma_first_index(order, p, m2)
    } else {
        i
    }
}

/// Whether an adjacency (as neighbor lists) is connected.
pub fn connected(adj: &Vec<Vec<usize>>) -> (res: bool)
    requires
        lists_wf(adj.deep_view()),
    ensures
        res == connected_set(below(adj@.len() as nat), list_adj(adj.deep_view())),
{
    let ghost dv = adj.deep_view();
    let ghost g = list_adj(dv);
    let n = adj.len();
    if n == 0 {
        assert forall|t: Set<usize>| t.subset_of(below(0)) && t.len() > 0 && t.finite() && t != below(0) implies #[trigger] crosses(t, below(0), g) by {
            assert(t =~= Set::empty());
        }
        return true;
    }
    let mut seen: Vec<bool> = Vec::new();
    let mut t: usize = 0;
    while t < n
        invariant
            t <= n,
            seen@.len() == t,
            forall|x: int| 0 <= x < t ==> !(#[trigger] seen@[x]),
        decreases n - t,
    {
        seen.push(false);
        t += 1;
    }
    let mut stack: Vec<usize> = Vec::new();
    stack.push(0);
    seen.set(0, true);
    let mut cnt: usize = 1;
    let ghost mut order: Seq<usize> = seq![0usize];
    let ghost mut par: Seq<int> = seq![0int];
    proof {
        assert forall|x: usize| x < n implies (#[trigger] seen@[x as int] <==> order.contains(x)) by {
            lemma_push_contains(Seq::<usize>::empty(), 0, x);
            assert(Seq::<usize>::empty().push(0) =~= order);
        }
        assert(stack@[0] == 0);
        assert(stack@.contains(0));
        assert forall|x: usize, y: usize| x < n && seen@[x as int] && !stack@.contains(x) && #[trigger] g(x, y) implies seen@[y as int] by {
            if x != 0 {
                assert(!seen@[x as int]);
            }
        }
    }
    while stack.len() > 0
        invariant
            n == adj@.len(),
            dv == adj.deep_view(),
            g == list_adj(dv),
            lists_wf(dv),
            n > 0,
            seen@.len() == n,
            forall|x: usize| x < n ==> (#[trigger] seen@[x as int] <==> order.contains(x)),
            order.no_duplicates(),
            order.len() == cnt,
            cnt <= n,
            cnt >= 1,
            forall|u: int| 0 <= u < order.len() ==> (#[trigger] order[u]) < n,
            order[0] == 0,
            par.len() == order.len(),
            forall|u: int| 0 < u < order.len() ==> 0 <= #[trigger] par[u] < u && g(order[par[u]], order[u]),
            forall|u: int| 0 <= u < stack@.len() ==> (#[trigger] stack@[u]) < n && seen@[stack@[u] as int],
            forall|x: usize, y: usize| x < n && seen@[x as int] && !stack@.contains(x) && #[trigger] g(x, y) ==> seen@[y as int],
        decreases 2 * (n - cnt) + stack.len(),
    {
        let ghost sp = stack@;
        let ghost m0 = 2 * (n - cnt) + stack.len();
        let v = stack.pop().unwrap();
        proof {
            assert(sp == stack@.push(v));
            assert forall|x: usize, y: usize| x < n && x != v && seen@[x as int] && !stack@.contains(x) && #[trigger] g(x, y) implies seen@[y as int] by {
                lemma_push_contains(stack@, v, x);
            }
        }
        let row = &adj[v];
        assert(row@ == dv[v as int]);
        let mut idx: usize = 0;
        while idx < row.len()
            invariant
                n == adj@.len(),
                dv == adj.deep_view(),
                g == list_adj(dv),
                lists_wf(dv),
                row@ == dv[v as int],
                v < n,
                seen@[v as int],
                idx <= row.len(),
                seen@.len() == n,
                forall|x: usize| x < n ==> (#[trigger] seen@[x as int] <==> order.contains(x)),
                order.no_duplicates(),
                order.len() == cnt,
                cnt <= n,
                cnt >= 1,
                forall|u: int| 0 <= u < order.len() ==> (#[trigger] order[u]) < n,
                order[0] == 0,
                par.len() == order.len(),
                forall|u: int| 0 < u < order.len() ==> 0 <= #[trigger] par[u] < u && g(order[par[u]], order[u]),
                forall|u: int| 0 <= u < stack@.len() ==> (#[trigger] stack@[u]) < n && seen@[stack@[u] as int],
                forall|x: usize, y: usize| x < n && x != v && seen@[x as int] && !stack@.contains(x) && #[trigger] g(x, y) ==> seen@[y as int],
                forall|u: int| 0 <= u < idx ==> seen@[#[trigger] row@[u] as int],
                2 * (n - cnt) + stack.len() < m0,
            decreases row.len() - idx,
        {
            let u = row[idx];
            assert(dv[v as int][idx as int] == u);
            if !seen[u] {
                proof {
                    assert(order.contains(v));
                    let vi = choose|vi: int| 0 <= vi < order.len() && order[vi] == v;
                    assert(dv[v as int].contains(u));
                    assert(g(v, u));
                    par = par.push(vi);
                    assert(!order.contains(u));
                    crate::model::lemma_id_seq(n as nat);
                    order.unique_seq_to_set();
                    assert(order.to_set().subset_of(below(n as nat).remove(u)));
                    vstd::set_lib::lemma_len_subset(order.to_set(), below(n as nat).remove(u));
                    assert(cnt < n);
                    let ghost oo = order;
                    order = oo.push(u);
                    assert forall|x: usize| x < n implies (#[trigger] seen@[x as int] || x == u <==> order.contains(x)) by {
                        lemma_push_contains(oo, u, x);
                    }
                    assert forall|a: int, b: int| 0 <= a < order.len() && 0 <= b < order.len() && a != b implies order[a] != order[b] by {
                        if a < oo.len() && b < oo.len() {
                        } else if a < oo.len() {
                            assert(oo.contains(order[a]));
                        } else if b < oo.len() {
                            assert(oo.contains(order[b]));
                        }
                    }
                }
                seen.set(u, true);
                cnt += 1;
                let ghost sb = stack@;
                stack.push(u);
                proof {
                    assert forall|x: usize, y: usize| x < n && x != v && seen@[x as int] && !stack@.contains(x) && #[trigger] g(x, y) implies seen@[y as int] by {
                        if x != u {
                            if sb.contains(x) {
                                let w = choose|w: int| 0 <= w < sb.len() && sb[w] == x;
                                assert(stack@[w] == x);
                            }
                        } else {
                            assert(stack@[stack@.len() - 1] == u);
                        }
                    }
                }
            }
            idx += 1;
        }
        proof {
            assert forall|x: usize, y: usize| x < n && seen@[x as int] && !stack@.contains(x) && #[trigger] g(x, y) implies seen@[y as int] by {
                if x == v {
                    assert(dv[v as int].contains(y));
                    let w = choose|w: int| 0 <= w < row@.len() && row@[w] == y;
                    assert(seen@[row@[w] as int]);
                }
            }
        }
    }
    let res = cnt == n;
    proof {
        let all = below(n as nat);
        let st = order.to_set();
        order.unique_seq_to_set();
        crate::model::lemma_id_seq(n as nat);
        assert(st.subset_of(all));
        assert forall|x: usize| #[trigger] st.contains(x) <==> x < n && seen@[x as int] by {
            if st.contains(x) {
                assert(order.contains(x));
                let w = choose|w: int| 0 <= w < order.len() && order[w] == x;
            }
        }
        if cnt == n {
            vstd::set_lib::lemma_subset_equality(st, all);
            assert forall|t: Set<usize>| t.subset_of(all) && t.len() > 0 && t.finite() && t != all implies #[trigger] crosses(t, all, g) by {
                let r = all.difference(t);
                let pset = if t.contains(0) { r } else { t };
                assert(exists|x: usize| pset.contains(x)) by {
                    if t.contains(0) {
                        if !(exists|x: usize| all.contains(x) && !t.contains(x)) {
                            assert(t =~= all);
                        }
                        let x = choose|x: usize| all.contains(x) && !t.contains(x);
                        assert(pset.contains(x));
                    } else {
                        if !(exists|x: usize| t.contains(x)) {
                            assert(t =~= Set::empty());
                        }
                    }
                }
                let x = choose|x: usize| pset.contains(x);
                assert(st.contains(x));
                assert(order.contains(x));
                let xi = choose|xi: int| 0 <= xi < order.len() && order[xi] == x;
                let m = lemma_first_index(order, pset, xi);
                assert(m > 0) by {
                    if m == 0 { assert(order[0] == 0); }
                }
                let pm = par[m];
                assert(!pset.contains(order[pm]));
                assert(g(order[pm], order[m]));
                assert(all.contains(order[pm]));
                if t.contains(0) {
                    assert(t.contains(order[pm]));
                    assert(t.contains(order[pm]) && all.contains(order[m]) && !t.contains(order[m]) && g(order[pm], order[m]));
                } else {
                    assert(g(order[m], order[pm]));
                    assert(t.contains(order[m]) && all.contains(order[pm]) && !t.contains(order[pm]) && g(order[m], order[pm]));
                }
            }
        } else {
            assert(st.len() < all.len());
            assert(st != all);
            assert(order.contains(0)) by { assert(order[0] == 0); }
            assert(st.contains(0));
            assert(st.len() > 0);
            if connected_set(all, g) {
                assert(crosses(st, all, g));
                let (x, y) = choose|x: usize, y: usize| st.contains(x) && all.contains(y) && !st.contains(y) && #[trigger] g(x, y);
                assert(seen@[x as int]);
                assert(!stack@.contains(x));
                assert(seen@[y as int]);
            }
        }
    }
    res
}


/// `c` is the canonical value of some connected `k`-vertex graph.
pub open spec fn is_connected_class(k: nat, c: nat) -> bool {
    exists|mask: nat|
        mask < pow2(pair_seq(k).len()) && connected_set(below(k), #[trigger] class_adj(mask, k)) && c == canon(
            k,
            class_adj(mask, k),
        )
}

/// `v` is strictly increasing.
pub open spec fn strictly_sorted(v: Seq<u64>) -> bool {
    forall|a: int, b: int| 0 <= a < b < v.len() ==> v[a] < v[b]
}

/// Insert `c` into a strictly increasing vector unless it is already there.
pub(crate) fn insert_sorted(v: &mut Vec<u64>, c: u64)
    requires
        strictly_sorted(old(v)@),
    ensures
        strictly_sorted(final(v)@),
        forall|x: u64| #[trigger] final(v)@.contains(x) <==> (old(v)@.contains(x) || x == c),
{
    let mut pos: usize = 0;
    while pos < v.len() && v[pos] < c
        invariant
            pos <= v.len(),
            forall|a: int| 0 <= a < pos ==> v@[a] < c,
        decreases v.len() - pos,
    {
        pos += 1;
    }
    if pos < v.len() && v[pos] == c {
        return;
    }
    let ghost o = v@;
    v.insert(pos, c);
    assert forall|x: u64| #[trigger] v@.contains(x) <==> (o.contains(x) || x == c) by {
        if v@.contains(x) {
            let w = choose|w: int| 0 <= w < v@.len() && v@[w] == x;
            if w < pos {
                assert(o[w] == x);
            } else if w > pos {
                assert(o[w - 1] == x);
            }
        }
        if o.contains(x) {
            let w = choose|w: int| 0 <= w < o.len() && o[w] == x;
            if w < pos {
                assert(v@[w] == x);
            } else {
                assert(v@[w + 1] == x);
            }
        }
        if x == c {
            assert(v@[pos as int] == x);
        }
    }
}

/// Every connected graphlet class at order `k`, as canonical masks (sorted).
///
/// Exhaustive over all `2^(k(k-1)/2)` labelled graphs — the independent ground truth
/// for class counts (k=3→2, k=4→6, k=5→21).
pub fn all_connected_classes(k: usize) -> (res: Vec<u64>)
    requires
        k <= MASK_K,
    ensures
        strictly_sorted(res@),
        forall|c: u64| #[trigger] res@.contains(c) <==> is_connected_class(k as nat, c as nat),
{
    let ps = perms(k);
    let np = pairs(k).len();
    proof {
        lemma_pair_seq_len(k as nat);
        vstd::bits::lemma_u64_pow2_no_overflow(np as nat);
        vstd::bits::lemma_u64_shl_is_mul(1, np as u64);
    }
    let bound: u64 = 1u64 << (np as u64);
    let mut classes: Vec<u64> = Vec::new();
    let mut mask: u64 = 0;
    while mask < bound
        invariant
            k <= MASK_K,
            all_perms(ps.deep_view(), k as nat),
            np == pair_seq(k as nat).len(),
            bound == pow2(np as nat),
            mask <= bound,
            strictly_sorted(classes@),
            forall|c: u64| #[trigger] classes@.contains(c) <==> exists|m: nat|
                m < mask && connected_set(below(k as nat), #[trigger] class_adj(m, k as nat)) && c == canon(k as nat, class_adj(m, k as nat)),
        decreases bound - mask,
    {
        let adj = class_to_adj(mask, k);
        let ghost cm = class_adj(mask as nat, k as nat);
        let ghost dv = adj.deep_view();
        if connected(&adj) {
            let is_adj = |i: usize, j: usize| -> (r: bool)
                requires
                    i < k,
                ensures
                    r == list_adj(adj.deep_view())(i, j),
            {
                assert(adj@[i as int]@ == adj.deep_view()[i as int]);
                vec_contains(&adj[i], j)
            };
            let c = canonical_fn(k, &ps, is_adj, Ghost(cm));
            proof {
                crate::model::lemma_canon(k as nat, cm);
                crate::model::lemma_mask_val_bound(k as nat, id_seq(k as nat), cm);
            }
            let ghost before = classes@;
            insert_sorted(&mut classes, c);
            assert forall|x: u64| #[trigger] classes@.contains(x) <==> exists|m: nat|
                m < mask + 1 && connected_set(below(k as nat), #[trigger] class_adj(m, k as nat)) && x == canon(k as nat, class_adj(m, k as nat)) by {
                if x == c {
                    assert(connected_set(below(k as nat), class_adj(mask as nat, k as nat)));
                }
                if exists|m: nat| m < mask + 1 && connected_set(below(k as nat), #[trigger] class_adj(m, k as nat)) && x == canon(k as nat, class_adj(m, k as nat)) {
                    let m = choose|m: nat| m < mask + 1 && connected_set(below(k as nat), #[trigger] class_adj(m, k as nat)) && x == canon(k as nat, class_adj(m, k as nat));
                    if m < mask {
                        assert(before.contains(x));
                    }
                }
            }
        } else {
            assert forall|x: u64| #[trigger] classes@.contains(x) <==> exists|m: nat|
                m < mask + 1 && connected_set(below(k as nat), #[trigger] class_adj(m, k as nat)) && x == canon(k as nat, class_adj(m, k as nat)) by {
                if exists|m: nat| m < mask + 1 && connected_set(below(k as nat), #[trigger] class_adj(m, k as nat)) && x == canon(k as nat, class_adj(m, k as nat)) {
                    let m = choose|m: nat| m < mask + 1 && connected_set(below(k as nat), #[trigger] class_adj(m, k as nat)) && x == canon(k as nat, class_adj(m, k as nat));
                    if m == mask {
                        assert(list_adj(dv) == cm);
                    }
                }
            }
        }
        mask += 1;
    }
    proof {
        assert forall|c: u64| #[trigger] classes@.contains(c) <==> is_connected_class(k as nat, c as nat) by {
            if is_connected_class(k as nat, c as nat) {
                let m = choose|m: nat| m < pow2(pair_seq(k as nat).len()) && connected_set(below(k as nat), #[trigger] class_adj(m, k as nat)) && c == canon(k as nat, class_adj(m, k as nat));
                assert(m < mask);
            }
        }
    }
    classes
}

} // verus!
