//! Canonical labelling of small directed graphlets.
//!
//! A k-node induced directed subgraph is labelled by the minimum, over all `k!` vertex
//! permutations, of the packed `k(k-1)`-bit arc mask (one bit per ordered pair
//! `(i, j)`, `i != j`). Two directed subgraphs share a [`DirectedClassId`] iff they
//! are isomorphic as directed graphs (see [`crate::dmodel::law_dcanon_iff_isomorphic`]).
use vstd::prelude::*;
use vstd::arithmetic::power2::pow2;
use crate::model::{is_perm, id_seq, below, bits_val, lemma_bits_val_bound, lemma_bits_val_push, connected_set};
use crate::dmodel::{
    drow, dpairs_upto, dpair_seq, dpair_index, lemma_dpairs_upto_len, lemma_dpair_seq_len,
    lemma_dpairs_upto_prefix, lemma_dpair_at_index, lemma_dpairs_upto_shape, dmask_bits,
    dmask_val, lemma_dmask_val_bound, dcanon, is_min_dmask, lemma_min_dmask_unique,
};
use crate::canonical::{all_perms, computes, answers, decides, lemma_decides_computes, perms, mask_bit, list_adj, lists_wf, vec_contains, connected, strictly_sorted};

verus! {

/// A stable directed-graphlet-class identifier: the canonical (minimum) ordered-pair
/// arc bitmask. Comparable and hashable; its numeric value is an implementation
/// detail, not a published class ordering.
#[derive(Clone, Copy, PartialEq, Eq, PartialOrd, Ord, Hash, Debug)]
pub struct DirectedClassId(pub u64);

/// The largest order handled by the directed canonical labelling.
pub const DMASK_K: usize = 5;

/// The `k(k-1)` ordered vertex pairs `(i, j)`, `i != j`, in bit order.
pub fn directed_pairs(k: usize) -> (res: Vec<(usize, usize)>)
    requires
        1 <= k <= DMASK_K,
    ensures
        res@ == dpair_seq(k as nat),
{
    let mut res: Vec<(usize, usize)> = Vec::new();
    let mut i: usize = 0;
    while i < k
        invariant
            1 <= k <= DMASK_K,
            i <= k,
            res@ == dpairs_upto(k as nat, i as nat),
        decreases k - i,
    {
        let ghost base = res@;
        let mut j: usize = 0;
        while j < k
            invariant
                1 <= k <= DMASK_K,
                i < k,
                j <= k,
                base == dpairs_upto(k as nat, i as nat),
                res@ == base + drow(k as nat, i as nat).take(if j <= i { j as int } else { j - 1 }),
            decreases k - j,
        {
            if j != i {
                let ghost t = if j < i { j as int } else { j - 1 };
                assert(drow(k as nat, i as nat)[t] == (i, j));
                assert(drow(k as nat, i as nat).take(t + 1) =~= drow(k as nat, i as nat).take(t).push((i, j)));
                res.push((i, j));
            }
            j += 1;
        }
        assert(drow(k as nat, i as nat).take(k - 1) =~= drow(k as nat, i as nat));
        i += 1;
    }
    res
}

proof fn lemma_or_high_bit(m: u64, b: u64)
    by (bit_vector)
    requires
        b < 64,
        m < (1u64 << b),
    ensures
        m | (1u64 << b) == m + (1u64 << b),
{
}

/// Pack the induced ordered-pair arc bitmask under one permutation, where canonical
/// slot `c` is filled by local vertex `perm[c]` and arc presence is probed by `has_arc`.
fn mask_of<F: Fn(usize, usize) -> bool>(k: usize, perm: &[usize], has_arc: &F, Ghost(f): Ghost<spec_fn(usize, usize) -> bool>) -> (m: u64)
    requires
        1 <= k <= DMASK_K,
        perm@.len() == k,
        forall|t: int| 0 <= t < k ==> (#[trigger] perm@[t]) < k,
        computes(*has_arc, k as nat, f),
    ensures
        m == dmask_val(k as nat, perm@, f),
{
    let ghost bits = dmask_bits(k as nat, perm@, f);
    proof {
        lemma_dpair_seq_len(k as nat);
    }
    let mut m: u64 = 0;
    let mut bit: u64 = 0;
    let mut i: usize = 0;
    while i < k
        invariant
            1 <= k <= DMASK_K,
            i <= k,
            perm@.len() == k,
            forall|t: int| 0 <= t < k ==> (#[trigger] perm@[t]) < k,
            computes(*has_arc, k as nat, f),
            bits == dmask_bits(k as nat, perm@, f),
            bits.len() == dpair_seq(k as nat).len(),
            dpair_seq(k as nat).len() <= 20,
            bit == dpairs_upto(k as nat, i as nat).len(),
            bit <= dpair_seq(k as nat).len(),
            m == bits_val(bits.take(bit as int)),
        decreases k - i,
    {
        proof {
            lemma_dpairs_upto_prefix(k as nat, (i + 1) as nat, k as nat);
            lemma_dpairs_upto_len(k as nat, i as nat);
            lemma_dpairs_upto_len(k as nat, (i + 1) as nat);
        }
        let mut j: usize = 0;
        while j < k
            invariant
                1 <= k <= DMASK_K,
                i < k,
                j <= k,
                perm@.len() == k,
                forall|t: int| 0 <= t < k ==> (#[trigger] perm@[t]) < k,
                computes(*has_arc, k as nat, f),
                bits == dmask_bits(k as nat, perm@, f),
                bits.len() == dpair_seq(k as nat).len(),
                dpair_seq(k as nat).len() <= 20,
                dpairs_upto(k as nat, i as nat).len() == i * (k - 1),
                dpairs_upto(k as nat, (i + 1) as nat).len() <= dpair_seq(k as nat).len(),
                dpairs_upto(k as nat, (i + 1) as nat).len() == (i + 1) * (k - 1),
                bit == dpairs_upto(k as nat, i as nat).len() + (if j <= i { j as int } else { j - 1 }),
                m == bits_val(bits.take(bit as int)),
            decreases k - j,
        {
            if j != i {
                proof {
                    lemma_dpair_at_index(k as nat, i as nat, j as nat);
                    assert((i + 1) * (k - 1) == i * (k - 1) + (k - 1)) by (nonlinear_arith);
                    lemma_bits_val_bound(bits.take(bit as int));
                    lemma_bits_val_push(bits.take(bit as int), bits[bit as int]);
                    assert(bits.take(bit + 1int) =~= bits.take(bit as int).push(bits[bit as int]));
                    vstd::bits::lemma_u64_pow2_no_overflow(bit as nat);
                    vstd::bits::lemma_u64_shl_is_mul(1, bit);
                }
                let a = perm[i];
                let b = perm[j];
                let e = has_arc(a, b);
                assert(e == bits[bit as int]);
                if e {
                    proof {
                        lemma_or_high_bit(m, bit);
                    }
                    m = m | (1u64 << bit);
                }
                bit += 1;
            }
            j += 1;
        }
        proof {
            assert((i + 1) * (k - 1) == i * (k - 1) + (k - 1)) by (nonlinear_arith);
        }
        i += 1;
    }
    assert(bits.take(bit as int) =~= bits);
    m
}

/// Packed ordered-pair mask under a single permutation (used for directed automorphism
/// detection: `p` is a directed automorphism of a class iff its mask equals the class
/// mask).
pub(crate) fn mask_of_fn<F: Fn(usize, usize) -> bool>(k: usize, perm: &[usize], has_arc: F, Ghost(f): Ghost<spec_fn(usize, usize) -> bool>) -> (m: u64)
    requires
        1 <= k <= DMASK_K,
        perm@.len() == k,
        forall|t: int| 0 <= t < k ==> (#[trigger] perm@[t]) < k,
        computes(has_arc, k as nat, f),
    ensures
        m == dmask_val(k as nat, perm@, f),
{
    mask_of(k, perm, &has_arc, Ghost(f))
}

/// Canonical mask of a k-vertex induced directed subgraph given an arc predicate over
/// its local vertices `0..k`.
pub(crate) fn canonical_fn<F: Fn(usize, usize) -> bool>(k: usize, ps: &Vec<Vec<usize>>, has_arc: F, Ghost(f): Ghost<spec_fn(usize, usize) -> bool>) -> (m: u64)
    requires
        1 <= k <= DMASK_K,
        all_perms(ps.deep_view(), k as nat),
        computes(has_arc, k as nat, f),
    ensures
        m == dcanon(k as nat, f),
{
    let (m, _arg) = canonical_arg_fn(k, ps, has_arc, Ghost(f));
    m
}

/// Canonical mask plus a witnessing arg-permutation: `arg[c]` is the local vertex
/// feeding canonical slot `c`.
pub(crate) fn canonical_arg_fn<F: Fn(usize, usize) -> bool>(k: usize, ps: &Vec<Vec<usize>>, has_arc: F, Ghost(f): Ghost<spec_fn(usize, usize) -> bool>) -> (res: (u64, Vec<usize>))
    requires
        1 <= k <= DMASK_K,
        all_perms(ps.deep_view(), k as nat),
        computes(has_arc, k as nat, f),
    ensures
        res.0 == dcanon(k as nat, f),
        is_perm(res.1@, k as nat),
        dmask_val(k as nat, res.1@, f) == res.0,
{
    let ghost dv = ps.deep_view();
    assert(dv.contains(dv[0]));
    let mut best: u64 = u64::MAX;
    let mut arg: Vec<usize> = ps[0].clone();
    assert(arg@ == dv[0]);
    let mut t: usize = 0;
    while t < ps.len()
        invariant
            1 <= k <= DMASK_K,
            dv == ps.deep_view(),
            all_perms(dv, k as nat),
            computes(has_arc, k as nat, f),
            t <= ps.len(),
            is_perm(arg@, k as nat),
            t > 0 ==> best == dmask_val(k as nat, arg@, f),
            t == 0 ==> best == u64::MAX,
            forall|u: int| 0 <= u < t ==> best <= #[trigger] dmask_val(k as nat, dv[u], f),
        decreases ps.len() - t,
    {
        assert(dv.contains(dv[t as int]));
        let p = &ps[t];
        assert(p@ == dv[t as int]);
        let m = mask_of(k, p.as_slice(), &has_arc, Ghost(f));
        proof {
            lemma_dmask_val_bound(k as nat, p@, f);
            vstd::bits::lemma_u64_pow2_no_overflow(20);
        }
        if m < best {
            best = m;
            arg = p.clone();
            assert(arg@ =~= p@);
        }
        t += 1;
    }
    proof {
        assert(dv.contains(dv[0]));
        assert forall|p: Seq<usize>| is_perm(p, k as nat) implies best <= #[trigger] dmask_val(k as nat, p, f) by {
            assert(dv.contains(p));
            let u = choose|u: int| 0 <= u < dv.len() && dv[u] == p;
        }
        assert(is_min_dmask(k as nat, f, best as nat));
        lemma_min_dmask_unique(k as nat, f, best as nat);
    }
    (best, arg)
}

/// The `k`-vertex directed graph whose ordered-pair arc bits are `mask`.
pub open spec fn dclass_arc(mask: nat, k: nat) -> spec_fn(usize, usize) -> bool {
    |a: usize, b: usize| a < k && b < k && a != b && mask_bit(mask, dpair_index(k, a as nat, b as nat))
}

/// The underlying undirected relation of an arc relation.
pub open spec fn und_of(arc: spec_fn(usize, usize) -> bool) -> spec_fn(usize, usize) -> bool {
    |a: usize, b: usize| arc(a, b) || arc(b, a)
}

proof fn lemma_bit_test(m: u64, b: u64)
    requires
        b < 64,
    ensures
        (m & (1u64 << b) != 0) == mask_bit(m as nat, b as int),
{
    assert((m & (1u64 << b) != 0) == ((m >> b) & 1 == 1)) by (bit_vector)
        requires b < 64;
    assert(((m >> b) & 1) == (m >> b) % 2) by (bit_vector);
    vstd::bits::lemma_u64_shr_is_div(m, b);
}

/// Out-neighbor lists over `0..n`: in range and duplicate-free.
pub open spec fn out_lists_wf(out: Seq<Seq<usize>>) -> bool {
    &&& forall|a: int, t: int| 0 <= a < out.len() && 0 <= t < out[a].len() ==> (#[trigger] out[a][t]) < out.len()
    &&& forall|a: int| 0 <= a < out.len() ==> (#[trigger] out[a]).no_duplicates()
}

/// Packed ordered-pair mask under a single permutation (used for directed automorphism
/// detection: `p` is a directed automorphism of a class iff its mask equals the class
/// mask).
pub fn mask_of_by<F: Fn(usize, usize) -> bool>(k: usize, perm: &[usize], has_arc: F) -> (m: u64)
    requires
        1 <= k <= DMASK_K,
        perm@.len() == k,
        forall|t: int| 0 <= t < k ==> (#[trigger] perm@[t]) < k,
        decides(has_arc, k as nat),
    ensures
        m == dmask_val(k as nat, perm@, answers(has_arc)),
{
    proof { lemma_decides_computes(has_arc, k as nat); }
    mask_of(k, perm, &has_arc, Ghost(answers(has_arc)))
}

/// Canonical mask of a k-vertex induced directed subgraph given an arc predicate over
/// its local vertices `0..k`.
pub fn canonical_by<F: Fn(usize, usize) -> bool>(k: usize, ps: &Vec<Vec<usize>>, has_arc: F) -> (m: u64)
    requires
        1 <= k <= DMASK_K,
        all_perms(ps.deep_view(), k as nat),
        decides(has_arc, k as nat),
    ensures
        m == dcanon(k as nat, answers(has_arc)),
{
    proof { lemma_decides_computes(has_arc, k as nat); }
    canonical_fn(k, ps, has_arc, Ghost(answers(has_arc)))
}

/// Canonical mask plus a witnessing arg-permutation: `arg[c]` is the local vertex
/// feeding canonical slot `c`.
pub fn canonical_arg_by<F: Fn(usize, usize) -> bool>(k: usize, ps: &Vec<Vec<usize>>, has_arc: F) -> (res: (u64, Vec<usize>))
    requires
        1 <= k <= DMASK_K,
        all_perms(ps.deep_view(), k as nat),
        decides(has_arc, k as nat),
    ensures
        res.0 == dcanon(k as nat, answers(has_arc)),
        is_perm(res.1@, k as nat),
        dmask_val(k as nat, res.1@, answers(has_arc)) == res.0,
{
    proof { lemma_decides_computes(has_arc, k as nat); }
    canonical_arg_fn(k, ps, has_arc, Ghost(answers(has_arc)))
}

/// The `k`-vertex out-adjacency of the directed-graphlet class with the given mask.
pub fn class_to_arcs(mask: u64, k: usize) -> (out: Vec<Vec<usize>>)
    requires
        1 <= k <= DMASK_K,
    ensures
        out@.len() == k,
        out_lists_wf(out.deep_view()),
        list_adj(out.deep_view()) == dclass_arc(mask as nat, k as nat),
{
    let ps = directed_pairs(k);
    proof {
        lemma_dpair_seq_len(k as nat);
        lemma_dpairs_upto_shape(k as nat, k as nat);
    }
    let mut out: Vec<Vec<usize>> = Vec::new();
    let mut t: usize = 0;
    while t < k
        invariant
            t <= k,
            out@.len() == t,
            forall|a: int| 0 <= a < t ==> (#[trigger] out@[a])@.len() == 0,
        decreases k - t,
    {
        out.push(Vec::new());
        t += 1;
    }
    let ghost cm = dclass_arc(mask as nat, k as nat);
    let mut b: usize = 0;
    while b < ps.len()
        invariant
            1 <= k <= DMASK_K,
            ps@ == dpair_seq(k as nat),
            ps@.len() <= 20,
            forall|c: int| 0 <= c < dpairs_upto(k as nat, k as nat).len() ==> {
                let pr = #[trigger] dpairs_upto(k as nat, k as nat)[c];
                &&& pr.0 != pr.1
                &&& pr.0 < k
                &&& pr.1 < k
                &&& c == dpair_index(k as nat, pr.0 as nat, pr.1 as nat)
            },
            cm == dclass_arc(mask as nat, k as nat),
            b <= ps.len(),
            out@.len() == k,
            forall|a: int, u: int| 0 <= a < k && 0 <= u < out@[a]@.len() ==> (#[trigger] out@[a]@[u]) < k,
            forall|a: int| 0 <= a < k ==> (#[trigger] out@[a]@).no_duplicates(),
            forall|a: usize, c: usize| a < k && c < k ==> (#[trigger] out@[a as int]@.contains(c) <==> (cm(a, c)
                && dpair_index(k as nat, a as nat, c as nat) < b)),
        decreases ps.len() - b,
    {
        let (i, j) = ps[b];
        assert(dpair_seq(k as nat)[b as int] == (i, j));
        proof {
            lemma_bit_test(mask, b as u64);
        }
        if mask & (1u64 << (b as u64)) != 0 {
            let ghost old_out = out@;
            let mut ri = out[i].clone();
            assert(ri@ =~= out@[i as int]@);
            assert(!ri@.contains(j));
            ri.push(j);
            out.set(i, ri);
            assert(out@[i as int]@ == old_out[i as int]@.push(j));
            assert forall|a: usize, c: usize| a < k && c < k implies (#[trigger] out@[a as int]@.contains(c) <==> (cm(a, c)
                && dpair_index(k as nat, a as nat, c as nat) < b + 1)) by {
                if a != c {
                    lemma_dpair_at_index(k as nat, a as nat, c as nat);
                }
                if a == i {
                    lemma_push_contains(old_out[i as int]@, j, c);
                } else {
                    assert(out@[a as int] == old_out[a as int]);
                }
            }
            assert forall|a: int| 0 <= a < k implies (#[trigger] out@[a]@).no_duplicates() by {
                if a != i {
                    assert(out@[a] == old_out[a]);
                }
            }
            assert forall|a: int, u: int| 0 <= a < k && 0 <= u < out@[a]@.len() implies (#[trigger] out@[a]@[u]) < k by {
                if a != i {
                    assert(out@[a] == old_out[a]);
                } else if u < old_out[a]@.len() {
                    assert(out@[a]@[u] == old_out[a]@[u]);
                }
            }
        } else {
            assert forall|a: usize, c: usize| a < k && c < k implies (#[trigger] out@[a as int]@.contains(c) <==> (cm(a, c)
                && dpair_index(k as nat, a as nat, c as nat) < b + 1)) by {
                if a != c {
                    lemma_dpair_at_index(k as nat, a as nat, c as nat);
                }
            }
        }
        b += 1;
    }
    proof {
        let dv = out.deep_view();
        assert forall|a: usize, c: usize| #[trigger] list_adj(dv)(a, c) == cm(a, c) by {
            if a < k && c < k {
                if a != c {
                    lemma_dpair_at_index(k as nat, a as nat, c as nat);
                }
                assert(dv[a as int] == out@[a as int]@);
            }
        }
        assert(list_adj(dv) =~= cm);
        assert forall|a: int, u: int| 0 <= a < dv.len() && 0 <= u < dv[a].len() implies (#[trigger] dv[a][u]) < dv.len() by {
            assert(dv[a] == out@[a]@);
        }
        assert forall|a: int| 0 <= a < dv.len() implies (#[trigger] dv[a]).no_duplicates() by {
            assert(dv[a] == out@[a]@);
        }
    }
    out
}


/// Arc `(a, c)` of `out` has been read once the scan reached row `i`, entry `t`.
pub open spec fn arc_seen(out: Seq<Seq<usize>>, i: int, t: int, a: usize, c: usize) -> bool {
    ||| (a < i && 0 <= a < out.len() && out[a as int].contains(c))
    ||| (a == i && out[i].take(t).contains(c))
}

/// Add `x` to the list `v` unless it is already there.
fn push_absent(v: &mut Vec<usize>, x: usize)
    ensures
        old(v)@.no_duplicates() ==> final(v)@.no_duplicates(),
        forall|c: usize| #[trigger] final(v)@.contains(c) <==> (old(v)@.contains(c) || c == x),
        forall|u: int| 0 <= u < final(v)@.len() ==> (#[trigger] final(v)@[u] == x || old(v)@.contains(final(v)@[u])),
{
    if !vec_contains(v, x) {
        let ghost o = v@;
        v.push(x);
        proof {
            assert forall|c: usize| #[trigger] v@.contains(c) <==> (o.contains(c) || c == x) by {
                lemma_push_contains(o, x, c);
            }
            assert forall|u: int| 0 <= u < v@.len() implies (#[trigger] v@[u] == x || o.contains(v@[u])) by {
                if u < o.len() { assert(v@[u] == o[u]); }
            }
            if o.no_duplicates() {
                assert forall|a: int, b: int| 0 <= a < v@.len() && 0 <= b < v@.len() && a != b implies v@[a] != v@[b] by {
                    if a < o.len() && b < o.len() {
                        assert(v@[a] == o[a] && v@[b] == o[b]);
                    } else if a < o.len() {
                        assert(v@[a] == o[a]);
                    } else if b < o.len() {
                        assert(v@[b] == o[b]);
                    }
                }
            }
        }
    } else {
        assert forall|u: int| 0 <= u < v@.len() implies (#[trigger] v@[u] == x || v@.contains(v@[u])) by {}
    }
}

/// Whether a directed adjacency (as out-neighbor lists) is *weakly* connected: its
/// underlying undirected union is connected.
pub fn weakly_connected(out: &Vec<Vec<usize>>) -> (res: bool)
    requires
        out_lists_wf(out.deep_view()),
    ensures
        res == connected_set(below(out@.len() as nat), und_of(list_adj(out.deep_view()))),
{
    let ghost dv = out.deep_view();
    let k = out.len();
    let mut und: Vec<Vec<usize>> = Vec::new();
    let mut t: usize = 0;
    while t < k
        invariant
            t <= k,
            und@.len() == t,
            forall|a: int| 0 <= a < t ==> (#[trigger] und@[a])@.len() == 0,
        decreases k - t,
    {
        und.push(Vec::new());
        t += 1;
    }
    let mut i: usize = 0;
    while i < k
        invariant
            k == out@.len(),
            dv == out.deep_view(),
            out_lists_wf(dv),
            i <= k,
            und@.len() == k,
            forall|a: int, u: int| 0 <= a < k && 0 <= u < und@[a]@.len() ==> (#[trigger] und@[a]@[u]) < k,
            forall|a: int| 0 <= a < k ==> (#[trigger] und@[a]@).no_duplicates(),
            forall|a: usize, c: usize| a < k && c < k ==> (#[trigger] und@[a as int]@.contains(c) <==> (arc_seen(dv, i as int, 0, a, c)
                || arc_seen(dv, i as int, 0, c, a))),
        decreases k - i,
    {
        assert(dv[i as int] == out@[i as int]@);
        let row = &out[i];
        let mut s: usize = 0;
        while s < row.len()
            invariant
                k == out@.len(),
                dv == out.deep_view(),
                out_lists_wf(dv),
                i < k,
                row@ == dv[i as int],
                s <= row@.len(),
                und@.len() == k,
                forall|a: int, u: int| 0 <= a < k && 0 <= u < und@[a]@.len() ==> (#[trigger] und@[a]@[u]) < k,
                forall|a: int| 0 <= a < k ==> (#[trigger] und@[a]@).no_duplicates(),
                forall|a: usize, c: usize| a < k && c < k ==> (#[trigger] und@[a as int]@.contains(c) <==> (arc_seen(dv, i as int, s as int, a, c)
                    || arc_seen(dv, i as int, s as int, c, a))),
            decreases row@.len() - s,
        {
            let j = row[s];
            assert(j < k);
            let ghost o = und@;
            let mut ui = und[i].clone();
            assert(ui@ =~= und@[i as int]@);
            push_absent(&mut ui, j);
            und.set(i, ui);
            let ghost o2 = und@;
            let mut uj = und[j].clone();
            assert(uj@ =~= und@[j as int]@);
            push_absent(&mut uj, i);
            und.set(j, uj);
            proof {
                assert(dv[i as int].take(s + 1) =~= dv[i as int].take(s as int).push(j));
                assert forall|a: usize, c: usize| a < k && c < k implies (#[trigger] und@[a as int]@.contains(c) <==> (arc_seen(dv, i as int, s + 1, a, c)
                    || arc_seen(dv, i as int, s + 1, c, a))) by {
                    lemma_push_contains(dv[i as int].take(s as int), j, c);
                    lemma_push_contains(dv[i as int].take(s as int), j, a);
                    if a == i && a == j {
                        assert(und@[a as int]@.contains(c) <==> (o[a as int]@.contains(c) || c == j || c == i));
                    } else if a == i {
                        assert(und@[a as int] == o2[a as int]);
                    } else if a == j {
                        assert(o2[a as int] == o[a as int]);
                    } else {
                        assert(und@[a as int] == o[a as int]);
                    }
                }
                assert forall|a: int| 0 <= a < k implies (#[trigger] und@[a]@).no_duplicates() by {
                    if a != i && a != j { assert(und@[a] == o[a]); }
                    else if a == j { assert(o2[a]@.no_duplicates()); }
                    else { assert(und@[a] == o2[a]); }
                }
                assert forall|a: int, u: int| 0 <= a < k && 0 <= u < und@[a]@.len() implies (#[trigger] und@[a]@[u]) < k by {
                    if a == j {
                        if und@[a]@[u] != i as usize {
                            assert(o2[a]@.contains(und@[a]@[u]));
                            let w = choose|w: int| 0 <= w < o2[a]@.len() && o2[a]@[w] == und@[a]@[u];
                        }
                    } else if a == i {
                        assert(und@[a] == o2[a]);
                        if und@[a]@[u] != j {
                            assert(o[a]@.contains(und@[a]@[u]));
                            let w = choose|w: int| 0 <= w < o[a]@.len() && o[a]@[w] == und@[a]@[u];
                        }
                    } else {
                        assert(und@[a] == o[a]);
                    }
                }
            }
            s += 1;
        }
        proof {
            assert(dv[i as int].take(row@.len() as int) =~= dv[i as int]);
            assert forall|a: usize, c: usize| a < k && c < k implies (#[trigger] und@[a as int]@.contains(c) <==> (arc_seen(dv, i + 1, 0, a, c)
                || arc_seen(dv, i + 1, 0, c, a))) by {
                assert(dv[i as int].take(0) =~= Seq::<usize>::empty());
            }
        }
        i += 1;
    }
    let ghost ud = und.deep_view();
    proof {
        assert forall|a: usize, c: usize| #[trigger] list_adj(ud)(a, c) == und_of(list_adj(dv))(a, c) by {
            if a < k && c < k {
                assert(ud[a as int] == und@[a as int]@);
            } else if a < k {
                assert(ud[a as int] == und@[a as int]@);
                if ud[a as int].contains(c) {
                    let w = choose|w: int| 0 <= w < ud[a as int].len() && ud[a as int][w] == c;
                    assert(und@[a as int]@[w] < k);
                }
                if list_adj(dv)(a, c) {
                    let w = choose|w: int| 0 <= w < dv[a as int].len() && dv[a as int][w] == c;
                }
            } else if c < k {
                if list_adj(dv)(c, a) {
                    let w = choose|w: int| 0 <= w < dv[c as int].len() && dv[c as int][w] == a;
                }
            }
        }
        assert(list_adj(ud) =~= und_of(list_adj(dv)));
        assert forall|a: int, u: int| 0 <= a < ud.len() && 0 <= u < ud[a].len() implies (#[trigger] ud[a][u]) < ud.len() by {
            assert(ud[a] == und@[a]@);
        }
        assert forall|a: int| 0 <= a < ud.len() implies (#[trigger] ud[a]).no_duplicates() by {
            assert(ud[a] == und@[a]@);
        }
        assert forall|a: usize, b: usize| #[trigger] list_adj(ud)(a, b) == list_adj(ud)(b, a) by {
            assert(list_adj(ud)(a, b) == und_of(list_adj(dv))(a, b));
            assert(list_adj(ud)(b, a) == und_of(list_adj(dv))(b, a));
        }
        assert(lists_wf(ud));
    }
    connected(&und)
}


/// `c` is the canonical value of some weakly connected `k`-vertex directed graph.
pub open spec fn is_weak_class(k: nat, c: nat) -> bool {
    exists|mask: nat|
        mask < pow2(dpair_seq(k).len()) && connected_set(below(k), und_of(#[trigger] dclass_arc(mask, k)))
            && c == dcanon(k, dclass_arc(mask, k))
}

/// Every weakly-connected directed-graphlet class at order `k`, as canonical masks
/// (sorted), by an exhaustive sweep over all `2^(k(k-1))` labelled directed graphs.
pub fn all_weakly_connected_classes(k: usize) -> (res: Vec<u64>)
    requires
        1 <= k <= DMASK_K,
    ensures
        strictly_sorted(res@),
        forall|c: u64| #[trigger] res@.contains(c) <==> is_weak_class(k as nat, c as nat),
{
    let ps = perms(k);
    let np = directed_pairs(k).len();
    proof {
        lemma_dpair_seq_len(k as nat);
        vstd::bits::lemma_u64_pow2_no_overflow(np as nat);
        vstd::bits::lemma_u64_shl_is_mul(1, np as u64);
    }
    let bound: u64 = 1u64 << (np as u64);
    let mut classes: Vec<u64> = Vec::new();
    let mut mask: u64 = 0;
    while mask < bound
        invariant
            1 <= k <= DMASK_K,
            all_perms(ps.deep_view(), k as nat),
            np == dpair_seq(k as nat).len(),
            bound == pow2(np as nat),
            mask <= bound,
            strictly_sorted(classes@),
            forall|c: u64| #[trigger] classes@.contains(c) <==> exists|m: nat|
                m < mask && connected_set(below(k as nat), und_of(#[trigger] dclass_arc(m, k as nat))) && c == dcanon(k as nat, dclass_arc(m, k as nat)),
        decreases bound - mask,
    {
        let out = class_to_arcs(mask, k);
        let ghost cm = dclass_arc(mask as nat, k as nat);
        let ghost dv = out.deep_view();
        if weakly_connected(&out) {
            let has_arc = |i: usize, j: usize| -> (r: bool)
                requires
                    i < k,
                ensures
                    r == list_adj(out.deep_view())(i, j),
            {
                assert(out@[i as int]@ == out.deep_view()[i as int]);
                vec_contains(&out[i], j)
            };
            let c = canonical_fn(k, &ps, has_arc, Ghost(cm));
            proof {
                crate::dmodel::lemma_dcanon(k as nat, cm);
                lemma_dmask_val_bound(k as nat, id_seq(k as nat), cm);
            }
            let ghost before = classes@;
            crate::canonical::insert_sorted(&mut classes, c);
            assert forall|x: u64| #[trigger] classes@.contains(x) <==> exists|m: nat|
                m < mask + 1 && connected_set(below(k as nat), und_of(#[trigger] dclass_arc(m, k as nat))) && x == dcanon(k as nat, dclass_arc(m, k as nat)) by {
                if x == c {
                    assert(connected_set(below(k as nat), und_of(dclass_arc(mask as nat, k as nat))));
                }
                if exists|m: nat| m < mask + 1 && connected_set(below(k as nat), und_of(#[trigger] dclass_arc(m, k as nat))) && x == dcanon(k as nat, dclass_arc(m, k as nat)) {
                    let m = choose|m: nat| m < mask + 1 && connected_set(below(k as nat), und_of(#[trigger] dclass_arc(m, k as nat))) && x == dcanon(k as nat, dclass_arc(m, k as nat));
                    if m < mask {
                        assert(before.contains(x));
                    }
                }
            }
        } else {
            assert forall|x: u64| #[trigger] classes@.contains(x) <==> exists|m: nat|
                m < mask + 1 && connected_set(below(k as nat), und_of(#[trigger] dclass_arc(m, k as nat))) && x == dcanon(k as nat, dclass_arc(m, k as nat)) by {
                if exists|m: nat| m < mask + 1 && connected_set(below(k as nat), und_of(#[trigger] dclass_arc(m, k as nat))) && x == dcanon(k as nat, dclass_arc(m, k as nat)) {
                    let m = choose|m: nat| m < mask + 1 && connected_set(below(k as nat), und_of(#[trigger] dclass_arc(m, k as nat))) && x == dcanon(k as nat, dclass_arc(m, k as nat));
                    if m == mask {
                        assert(list_adj(dv) == cm);
                    }
                }
            }
        }
        mask += 1;
    }
    proof {
        assert forall|c: u64| #[trigger] classes@.contains(c) <==> is_weak_class(k as nat, c as nat) by {
            if is_weak_class(k as nat, c as nat) {
                let m = choose|m: nat| m < pow2(dpair_seq(k as nat).len()) && connected_set(below(k as nat), und_of(#[trigger] dclass_arc(m, k as nat))) && c == dcanon(k as nat, dclass_arc(m, k as nat));
                assert(m < mask);
            }
        }
    }
    classes
}

proof fn lemma_push_contains(s: Seq<usize>, x: usize, c: usize)
    ensures
        s.push(x).contains(c) <==> (s.contains(c) || c == x),
{
    if s.contains(c) {
        let w = choose|w: int| 0 <= w < s.len() && s[w] == c;
        assert(s.push(x)[w] == c);
    }
    if c == x {
        assert(s.push(x)[s.len() as int] == c);
    }
    if s.push(x).contains(c) {
        let w = choose|w: int| 0 <= w < s.push(x).len() && s.push(x)[w] == c;
        if w < s.len() {
            assert(s[w] == c);
        }
    }
}

} // verus!
