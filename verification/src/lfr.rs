//! The integer wiring of the LFR benchmark: nodes are handed out to communities of
//! the given sizes in a random order, each community's internal stubs are paired at
//! random, and the external stubs are matched greedily across communities. The
//! degree and size draws themselves are floating-point and made by the caller.
use vstd::prelude::*;
use vstd::multiset::Multiset;
use rand::rngs::StdRng;
use crate::null_model::{stub_total, wanted, shuffle_in_place, degree_in, ends};
use crate::template::TemplateGraph;

verus! {

broadcast use vstd::seq_lib::group_to_multiset_ensures;

/// `v` repeated `d[v]` times, for `v` in order.
pub open spec fn repeated(d: Seq<usize>) -> Seq<usize>
    decreases d.len(),
{
    if d.len() == 0 {
        Seq::empty()
    } else {
        repeated(d.drop_last()) + Seq::new(d.last() as nat, |t: int| (d.len() - 1) as usize)
    }
}

/// `v` repeated `d[v]` times, for `v` in order.
fn repeat_each(d: &Vec<usize>) -> (s: Vec<usize>)
    requires
        stub_total(d@) <= usize::MAX,
    ensures
        s@ == repeated(d@),
        s@.len() == stub_total(d@),
        forall|t: int| 0 <= t < s@.len() ==> (#[trigger] s@[t]) < d@.len(),
        forall|v: usize| #[trigger] s@.to_multiset().count(v) == wanted(d@, v),
{
    let n = d.len();
    let mut s: Vec<usize> = Vec::new();
    let mut i: usize = 0;
    assert(d@.take(0) =~= Seq::<usize>::empty());
    assert(repeated(d@.take(0)) =~= Seq::<usize>::empty());
    while i < n
        invariant
            n == d@.len(),
            stub_total(d@) <= usize::MAX,
            i <= n,
            s@.len() == stub_total(d@.take(i as int)),
            s@ == repeated(d@.take(i as int)),
            forall|t: int| 0 <= t < s@.len() ==> (#[trigger] s@[t]) < n,
            forall|v: usize| #[trigger] s@.to_multiset().count(v) == (if v < i { d@[v as int] as nat } else { 0nat }),
        decreases n - i,
    {
        let di = d[i];
        let ghost base = s@;
        proof {
            assert(base + Seq::new(0nat, |t: int| i) =~= base);
            lemma_total_prefix(d@, i + 1);
            assert(d@.take(i + 1).drop_last() =~= d@.take(i as int));
        }
        let mut c: usize = 0;
        while c < di
            invariant
                n == d@.len(),
                i < n,
                di == d@[i as int],
                c <= di,
                s@.len() == base.len() + c,
                s@ == base + Seq::new(c as nat, |t: int| i),
                base.len() + di <= usize::MAX,
                forall|t: int| 0 <= t < s@.len() ==> (#[trigger] s@[t]) < n,
                forall|v: usize| #[trigger] s@.to_multiset().count(v) == base.to_multiset().count(v) + (if v == i { c as nat } else { 0nat }),
            decreases di - c,
        {
            let ghost s0 = s@;
            s.push(i);
            proof {
                broadcast use vstd::multiset::group_multiset_axioms;
                assert(s@.to_multiset() =~= s0.to_multiset().insert(i));
                assert(s@ =~= base + Seq::new((c + 1) as nat, |t: int| i));
            }
            c += 1;
        }
        proof {
            let dt = d@.take(i + 1);
            assert(dt.drop_last() =~= d@.take(i as int));
            assert(dt.last() == di);
            assert(repeated(dt) =~= repeated(d@.take(i as int)) + Seq::new(di as nat, |t: int| i));
        }
        i += 1;
    }
    proof { assert(d@.take(n as int) =~= d@); }
    s
}

proof fn lemma_total_prefix(d: Seq<usize>, i: int)
    requires
        0 <= i <= d.len(),
    ensures
        stub_total(d.take(i)) <= stub_total(d),
    decreases d.len() - i,
{
    if i < d.len() {
        lemma_total_prefix(d, i + 1);
        assert(d.take(i + 1).drop_last() =~= d.take(i));
    } else {
        assert(d.take(i) =~= d);
    }
}

/// `m` zeros.
spec fn zeros(m: nat) -> Multiset<usize> {
    Seq::new(m, |i: int| 0usize).to_multiset()
}

/// One decision of the community-size draw for `n` nodes with `total` placed so far:
/// a remainder below `min_c` joins the last community (or forms the only one) and the
/// drawing stops (`None`); otherwise nothing changes and the next size is to be drawn
/// from `min_c` up to the returned cap, the lesser of `max_c` and the remainder.
pub fn size_step(sizes: &mut Vec<usize>, total: usize, n: usize, min_c: usize, max_c: usize) -> (r: Option<usize>)
    requires
        total < n,
        old(sizes)@.len() > 0 ==> old(sizes)@.last() + (n - total) <= usize::MAX,
    ensures
        n - total < min_c ==> r is None && (if old(sizes)@.len() == 0 {
            final(sizes)@ == seq![(n - total) as usize]
        } else {
            final(sizes)@ == old(sizes)@.update(old(sizes)@.len() - 1, (old(sizes)@.last() + (n - total)) as usize)
        }),
        n - total >= min_c ==> r == Some(if max_c < n - total { max_c } else { (n - total) as usize })
            && final(sizes)@ == old(sizes)@,
{
    let remaining = n - total;
    if remaining < min_c {
        let len = sizes.len();
        if len == 0 {
            sizes.push(remaining);
        } else {
            let last = sizes[len - 1];
            sizes.set(len - 1, last + remaining);
        }
        None
    } else {
        Some(if max_c < remaining { max_c } else { remaining })
    }
}

/// `order` lists the nodes `0..n` once each, and the node in place `q` of it is in
/// community `labels[q]`: communities dealt out in blocks along `order`.
pub open spec fn deals(order: Seq<usize>, comm: Seq<usize>, labels: Seq<usize>) -> bool {
    &&& order.len() == comm.len()
    &&& labels.len() == comm.len()
    &&& order.no_duplicates()
    &&& forall|q: int| 0 <= q < order.len() ==> (#[trigger] order[q]) < comm.len() && comm[order[q] as int] == labels[q]
}

/// Hand the nodes `0..n`, in a random order, to communities in blocks of
/// `sizes[0], sizes[1], ...`: community `c` gets exactly `sizes[c]` nodes.
pub fn lfr_communities(sizes: &Vec<usize>, rng: &mut StdRng) -> (comm: Vec<usize>)
    requires
        sizes@.len() > 0,
        stub_total(sizes@) <= usize::MAX,
    ensures
        comm@.len() == stub_total(sizes@),
        forall|v: int| 0 <= v < comm@.len() ==> (#[trigger] comm@[v]) < sizes@.len(),
        forall|c: usize| #[trigger] comm@.to_multiset().count(c) == wanted(sizes@, c),
        exists|order: Seq<usize>| #[trigger] deals(order, comm@, repeated(sizes@)),
{
    broadcast use vstd::multiset::group_multiset_axioms;
    let labels = repeat_each(sizes);
    let n = labels.len();
    let mut order: Vec<usize> = Vec::new();
    let mut comm: Vec<usize> = Vec::new();
    let mut v: usize = 0;
    while v < n
        invariant
            v <= n,
            order@.len() == v,
            comm@.len() == v,
            forall|t: int| 0 <= t < v ==> #[trigger] order@[t] == t,
            forall|t: int| 0 <= t < v ==> #[trigger] comm@[t] == 0,
            comm@.to_multiset() == zeros(v as nat),
        decreases n - v,
    {
        let ghost c0 = comm@;
        order.push(v);
        comm.push(0);
        proof {
            assert(Seq::new((v + 1) as nat, |i: int| 0usize) =~= Seq::new(v as nat, |i: int| 0usize).push(0));
            assert(comm@ =~= c0.push(0));
        }
        v += 1;
    }
    let ghost ord0 = order@;
    proof {
        assert(ord0.no_duplicates());
        ord0.lemma_multiset_has_no_duplicates();
    }
    shuffle_in_place(&mut order, rng);
    proof {
        assert(order@.len() == n) by {
            assert(order@.to_multiset().len() == ord0.to_multiset().len());
        }
        assert forall|x: usize| order@.to_multiset().contains(x) implies order@.to_multiset().count(x) == 1 by {}
        order@.lemma_multiset_has_no_duplicates_conv();
        assert forall|t: int| 0 <= t < n implies (#[trigger] order@[t]) < n by {
            let x = order@[t];
            assert(order@.contains(x));
            assert(ord0.to_multiset().count(x) > 0);
            assert(ord0.contains(x));
            let q = choose|q: int| 0 <= q < ord0.len() && ord0[q] == x;
        }
    }
    let mut p: usize = 0;
    while p < n
        invariant
            p <= n,
            n == labels@.len(),
            order@.len() == n,
            comm@.len() == n,
            order@.no_duplicates(),
            forall|t: int| 0 <= t < n ==> (#[trigger] order@[t]) < n,
            forall|t: int| 0 <= t < labels@.len() ==> (#[trigger] labels@[t]) < sizes@.len(),
            forall|q: int| p <= q < n ==> #[trigger] comm@[order@[q] as int] == 0,
            forall|q: int| 0 <= q < p ==> #[trigger] comm@[order@[q] as int] == labels@[q],
            forall|w: int| 0 <= w < n ==> (#[trigger] comm@[w]) < sizes@.len(),
            comm@.to_multiset() == labels@.take(p as int).to_multiset().add(zeros((n - p) as nat)),
        decreases n - p,
    {
        let node = order[p];
        let lab = labels[p];
        let ghost c0 = comm@;
        comm.set(node, lab);
        proof {
            assert forall|q: int| p + 1 <= q < n implies #[trigger] comm@[order@[q] as int] == 0 by {
                assert(order@[q] != order@[p as int]);
            }
            assert forall|q: int| 0 <= q < p + 1 implies #[trigger] comm@[order@[q] as int] == labels@[q] by {
                if q < p {
                    assert(order@[q] != order@[p as int]);
                }
            }
            assert(c0[node as int] == 0);
            assert(comm@.to_multiset() =~= c0.to_multiset().remove(0).insert(lab));
            assert(labels@.take(p + 1) =~= labels@.take(p as int).push(lab));
            let zm = Seq::new((n - p - 1) as nat, |i: int| 0usize);
            assert(Seq::new((n - p) as nat, |i: int| 0usize) =~= zm.push(0));
            assert(zeros((n - p) as nat) =~= zeros((n - p - 1) as nat).insert(0));
            assert(comm@.to_multiset() =~= labels@.take(p + 1).to_multiset().add(zeros((n - p - 1) as nat)));
        }
        p += 1;
    }
    proof {
        assert(labels@.take(n as int) =~= labels@);
        assert(Seq::new(0nat, |i: int| 0usize) =~= Seq::<usize>::empty());
        assert(zeros(0) =~= Multiset::empty());
        assert(comm@.to_multiset() =~= labels@.to_multiset());
        assert(deals(order@, comm@, repeated(sizes@)));
    }
    comm
}

/// `x` is one of `items`.
pub open spec fn in_items(items: Seq<usize>, x: usize) -> bool {
    exists|i: int| 0 <= i < items.len() && items[i] == x
}

/// `items[i]` repeated `times[i]` times, for `i` in order.
fn repeat_items(items: &Vec<usize>, times: &Vec<usize>) -> (s: Vec<usize>)
    requires
        items@.len() == times@.len(),
        stub_total(times@) <= usize::MAX,
    ensures
        s@.len() == stub_total(times@),
        forall|t: int| 0 <= t < s@.len() ==> in_items(items@, #[trigger] s@[t]),
        items@.no_duplicates() ==> forall|i: usize| i < items@.len() ==> #[trigger] s@.to_multiset().count(items@[i as int]) == times@[i as int],
{
    broadcast use vstd::multiset::group_multiset_axioms;
    let idx = repeat_each(times);
    let mut s: Vec<usize> = Vec::new();
    let mut t: usize = 0;
    while t < idx.len()
        invariant
            t <= idx@.len(),
            items@.len() == times@.len(),
            forall|u: int| 0 <= u < idx@.len() ==> (#[trigger] idx@[u]) < times@.len(),
            s@.len() == t,
            forall|u: int| 0 <= u < t ==> #[trigger] s@[u] == items@[idx@[u] as int],
            items@.no_duplicates() ==> forall|i: usize| i < items@.len() ==>
                #[trigger] s@.to_multiset().count(items@[i as int]) == idx@.take(t as int).to_multiset().count(i),
        decreases idx@.len() - t,
    {
        let ghost s0 = s@;
        let x = items[idx[t]];
        s.push(x);
        proof {
            assert(idx@.take(t + 1) =~= idx@.take(t as int).push(idx@[t as int]));
            assert(s@.to_multiset() =~= s0.to_multiset().insert(x));
            if items@.no_duplicates() {
                assert forall|i: usize| i < items@.len() implies
                    #[trigger] s@.to_multiset().count(items@[i as int]) == idx@.take(t + 1).to_multiset().count(i) by {
                    if items@[i as int] == x {
                        assert(i == idx@[t as int]);
                    }
                }
            }
        }
        t += 1;
    }
    proof {
        assert(idx@.take(idx@.len() as int) =~= idx@);
        assert forall|u: int| 0 <= u < s@.len() implies in_items(items@, #[trigger] s@[u]) by {
            let i = idx@[u] as int;
            assert(0 <= i < items@.len());
            assert(s@[u] == items@[i]);
        }
        if items@.no_duplicates() {
            assert forall|i: usize| i < items@.len() implies #[trigger] s@.to_multiset().count(items@[i as int]) == times@[i as int] by {
                assert(idx@.to_multiset().count(i) == wanted(times@, i));
            }
        }
    }
    s
}

/// Each entry is at most the sum.
proof fn lemma_entry_le_total(d: Seq<usize>, i: int)
    requires
        0 <= i < d.len(),
    ensures
        d[i] <= stub_total(d),
    decreases d.len(),
{
    if i < d.len() - 1 {
        lemma_entry_le_total(d.drop_last(), i);
    }
}

/// A sum of `m` values each below `b` is at most `m * b`.
proof fn lemma_total_bound(d: Seq<usize>, b: nat)
    requires
        forall|i: int| 0 <= i < d.len() ==> (#[trigger] d[i]) <= b,
    ensures
        stub_total(d) <= d.len() * b,
    decreases d.len(),
{
    if d.len() > 0 {
        lemma_total_bound(d.drop_last(), b);
        assert(stub_total(d) <= (d.len() - 1) * b + b);
        assert((d.len() - 1) * b + b == d.len() * b) by (nonlinear_arith);
    }
}

/// A sum of values each at most the matching value of `e` is at most the sum of `e`.
proof fn lemma_total_mono(d: Seq<usize>, e: Seq<usize>)
    requires
        d.len() == e.len(),
        forall|i: int| 0 <= i < d.len() ==> #[trigger] d[i] <= e[i],
    ensures
        stub_total(d) <= stub_total(e),
    decreases d.len(),
{
    if d.len() > 0 {
        lemma_total_mono(d.drop_last(), e.drop_last());
    }
}

/// The edge joins two nodes of one community.
pub open spec fn inside(comm: Seq<usize>, e: (usize, usize)) -> bool {
    comm[e.0 as int] == comm[e.1 as int]
}

/// The first `k` edges join nodes of one community, the others nodes of two.
pub open spec fn split_at(comm: Seq<usize>, edges: Seq<(usize, usize)>, k: int) -> bool {
    &&& 0 <= k <= edges.len()
    &&& forall|e: int| 0 <= e < k ==> #[trigger] inside(comm, edges[e])
    &&& forall|e: int| k <= e < edges.len() ==> !#[trigger] inside(comm, edges[e])
}

/// A prefix holds at most as many copies of `v` as the whole.
proof fn lemma_take_count(s: Seq<usize>, k: int, v: usize)
    requires
        0 <= k <= s.len(),
    ensures
        s.take(k).to_multiset().count(v) <= s.to_multiset().count(v),
    decreases s.len() - k,
{
    broadcast use vstd::multiset::group_multiset_axioms;
    if k < s.len() {
        lemma_take_count(s, k + 1, v);
        assert(s.take(k + 1) =~= s.take(k).push(s[k]));
    } else {
        assert(s.take(k) =~= s);
    }
}

/// Appending an edge adds its ends to every degree.
proof fn lemma_degree_push(edges: Seq<(usize, usize)>, e: (usize, usize), v: usize)
    ensures
        degree_in(edges.push(e), v) == degree_in(edges, v) + ends(e, v),
{
    assert(edges.push(e).drop_last() =~= edges);
}

/// Consecutive stubs paired into edges: edge `q` joins stubs `2q` and `2q + 1`; an
/// odd last stub is left out.
pub fn pair_stubs(stubs: &Vec<usize>) -> (r: Vec<(usize, usize)>)
    ensures
        r@.len() == stubs@.len() / 2,
        forall|q: int| 0 <= q < r@.len() ==> #[trigger] r@[q] == (stubs@[2 * q], stubs@[2 * q + 1]),
{
    let half = stubs.len() / 2;
    let mut r: Vec<(usize, usize)> = Vec::new();
    let mut q: usize = 0;
    while q < half
        invariant
            q <= half,
            half == stubs@.len() / 2,
            stubs@.len() <= usize::MAX,
            r@.len() == q,
            forall|t: int| 0 <= t < q ==> #[trigger] r@[t] == (stubs@[2 * t], stubs@[2 * t + 1]),
        decreases half - q,
    {
        r.push((stubs[2 * q], stubs[2 * q + 1]));
        q += 1;
    }
    r
}

/// Scanning `0..j`, the first index of a least entry of `loc` below `bound`, or
/// `loc.len()` when no entry is below `bound`.
pub open spec fn least_below(loc: Seq<usize>, bound: nat, j: int) -> int
    decreases j,
{
    if j <= 0 {
        loc.len() as int
    } else {
        let b = least_below(loc, bound, j - 1);
        if loc[j - 1] < bound && (b == loc.len() || loc[j - 1] < loc[b]) { j - 1 } else { b }
    }
}

/// Scanning `0..j`, the first index of a least positive entry of `loc`, or
/// `loc.len()` when none is positive.
pub open spec fn least_positive(loc: Seq<usize>, j: int) -> int
    decreases j,
{
    if j <= 0 {
        loc.len() as int
    } else {
        let b = least_positive(loc, j - 1);
        if loc[j - 1] > 0 && (b == loc.len() || loc[j - 1] < loc[b]) { j - 1 } else { b }
    }
}

/// A community's internal degrees made even: when there are two members or more and
/// the sum is odd, the least entry below `bound` (the first among equals) is raised
/// by one, or else the least positive one is lowered by one.
pub open spec fn parity_fixed(loc: Seq<usize>, bound: nat) -> Seq<usize> {
    if loc.len() > 1 && stub_total(loc) % 2 == 1 {
        let up = least_below(loc, bound, loc.len() as int);
        let down = least_positive(loc, loc.len() as int);
        if up < loc.len() {
            loc.update(up, (loc[up] + 1) as usize)
        } else if down < loc.len() {
            loc.update(down, (loc[down] - 1) as usize)
        } else {
            loc
        }
    } else {
        loc
    }
}

proof fn lemma_least_below(loc: Seq<usize>, bound: nat, j: int)
    requires
        0 <= j <= loc.len(),
    ensures
        least_below(loc, bound, j) == loc.len() ==> forall|t: int| 0 <= t < j ==> !(loc[t] < bound),
        least_below(loc, bound, j) != loc.len() ==> 0 <= least_below(loc, bound, j) < j && loc[least_below(loc, bound, j)] < bound,
    decreases j,
{
    if j > 0 {
        lemma_least_below(loc, bound, j - 1);
    }
}

proof fn lemma_least_positive(loc: Seq<usize>, j: int)
    requires
        0 <= j <= loc.len(),
    ensures
        least_positive(loc, j) == loc.len() ==> forall|t: int| 0 <= t < j ==> loc[t] == 0,
        least_positive(loc, j) != loc.len() ==> 0 <= least_positive(loc, j) < j && loc[least_positive(loc, j)] > 0,
    decreases j,
{
    if j > 0 {
        lemma_least_positive(loc, j - 1);
    }
}

proof fn lemma_total_update(d: Seq<usize>, i: int, x: usize)
    requires
        0 <= i < d.len(),
    ensures
        stub_total(d.update(i, x)) + d[i] == stub_total(d) + x,
    decreases d.len(),
{
    if i < d.len() - 1 {
        lemma_total_update(d.drop_last(), i, x);
        assert(d.update(i, x).drop_last() =~= d.drop_last().update(i, x));
    } else {
        assert(d.update(i, x).drop_last() =~= d.drop_last());
    }
}

proof fn lemma_total_zero(d: Seq<usize>)
    requires
        forall|t: int| 0 <= t < d.len() ==> d[t] == 0,
    ensures
        stub_total(d) == 0,
    decreases d.len(),
{
    if d.len() > 0 {
        lemma_total_zero(d.drop_last());
    }
}

/// With two members or more the fixed degrees sum to an even number.
proof fn lemma_fixed_even(loc: Seq<usize>, bound: nat)
    requires
        loc.len() > 1,
        bound <= usize::MAX,
    ensures
        stub_total(parity_fixed(loc, bound)) % 2 == 0,
        parity_fixed(loc, bound).len() == loc.len(),
{
    let n = loc.len() as int;
    lemma_least_below(loc, bound, n);
    lemma_least_positive(loc, n);
    if stub_total(loc) % 2 == 1 {
        let up = least_below(loc, bound, n);
        let down = least_positive(loc, n);
        if up < n {
            lemma_total_update(loc, up, (loc[up] + 1) as usize);
        } else if down < n {
            lemma_total_update(loc, down, (loc[down] - 1) as usize);
        } else {
            lemma_total_zero(loc);
        }
    }
}

/// The values of `d` at the listed nodes.
pub open spec fn local_of(d: Seq<usize>, nodes: Seq<usize>) -> Seq<usize> {
    nodes.map_values(|v: usize| d[v as int])
}

/// `a - b`, or `0` when `b` exceeds `a`.
pub open spec fn sat_sub(a: usize, b: usize) -> usize {
    if a > b { (a - b) as usize } else { 0 }
}

/// `s` lists member `nodes[i]` exactly `times[i]` times, in some order.
pub open spec fn community_stubs(s: Seq<usize>, nodes: Seq<usize>, times: Seq<usize>) -> bool {
    &&& s.len() == stub_total(times)
    &&& forall|i: int| 0 <= i < nodes.len() ==> #[trigger] s.to_multiset().count(nodes[i]) == times[i]
    &&& forall|t: int| 0 <= t < s.len() ==> nodes.contains(#[trigger] s[t])
}

/// The consecutive pairs of `s`: `(s[0], s[1]), (s[2], s[3]), ...`, an odd last entry
/// dropped.
pub open spec fn pair_seq_of(s: Seq<usize>) -> Seq<(usize, usize)> {
    Seq::new(s.len() / 2, |q: int| (s[2 * q], s[2 * q + 1]))
}

/// The internal edges of one community: the internal degrees of its members (made
/// even by [`parity_fixed`] when it has two members or more) become stubs, which are
/// shuffled and paired by [`pair_stubs`]. Each member's degree grows by exactly its
/// internal degree, and its external degree becomes the rest of its degree; nothing
/// else changes.
fn wire_community(nodes: &Vec<usize>, d_in: &mut Vec<usize>, d_ext: &mut Vec<usize>, degrees: &Vec<usize>, max_in: usize, edges: &mut Vec<(usize, usize)>, comm: &Vec<usize>, c: usize, rng: &mut StdRng)
    requires
        old(d_in)@.len() == degrees@.len(),
        old(d_ext)@.len() == degrees@.len(),
        comm@.len() == degrees@.len(),
        degrees@.len() * degrees@.len() <= usize::MAX,
        nodes@.len() <= degrees@.len(),
        nodes@.no_duplicates(),
        max_in < degrees@.len(),
        forall|i: int| 0 <= i < nodes@.len() ==> (#[trigger] nodes@[i]) < degrees@.len() && comm@[nodes@[i] as int] == c,
        forall|v: int| 0 <= v < degrees@.len() ==> (#[trigger] old(d_in)@[v]) <= max_in || comm@[v] != c,
        forall|v: int| 0 <= v < degrees@.len() ==> (#[trigger] old(d_in)@[v]) < degrees@.len(),
        forall|v: int| 0 <= v < degrees@.len() ==> #[trigger] old(d_ext)@[v] == sat_sub(degrees@[v], old(d_in)@[v]),
        forall|e: int| 0 <= e < old(edges)@.len() ==> (#[trigger] old(edges)@[e]).0 < degrees@.len() && old(edges)@[e].1 < degrees@.len() && inside(comm@, old(edges)@[e]),
    ensures
        final(d_in)@.len() == degrees@.len(),
        final(d_ext)@.len() == degrees@.len(),
        forall|v: int| 0 <= v < degrees@.len() ==> (#[trigger] final(d_in)@[v]) < degrees@.len(),
        forall|v: int| 0 <= v < degrees@.len() ==> #[trigger] final(d_ext)@[v] == sat_sub(degrees@[v], final(d_in)@[v]),
        forall|e: int| 0 <= e < final(edges)@.len() ==> (#[trigger] final(edges)@[e]).0 < degrees@.len() && final(edges)@[e].1 < degrees@.len() && inside(comm@, final(edges)@[e]),
        forall|v: usize| v < degrees@.len() && !nodes@.contains(v) ==> #[trigger] final(d_in)@[v as int] == old(d_in)@[v as int]
            && degree_in(final(edges)@, v) == degree_in(old(edges)@, v),
        nodes@.len() <= 1 ==> final(d_in)@ == old(d_in)@ && final(edges)@ == old(edges)@,
        nodes@.len() > 1 ==> forall|li: int| 0 <= li < nodes@.len() ==>
            #[trigger] final(d_in)@[nodes@[li] as int] == parity_fixed(local_of(old(d_in)@, nodes@), max_in as nat)[li]
            && degree_in(final(edges)@, nodes@[li]) == degree_in(old(edges)@, nodes@[li]) + final(d_in)@[nodes@[li] as int],
        nodes@.len() > 1 ==> exists|s: Seq<usize>| #[trigger] community_stubs(s, nodes@, parity_fixed(local_of(old(d_in)@, nodes@), max_in as nat))
            && final(edges)@ == old(edges)@ + pair_seq_of(s),
        nodes@.len() > 1 && stub_total(parity_fixed(local_of(old(d_in)@, nodes@), max_in as nat)) >= 2 ==> *final(rng) != *old(rng),
{
    broadcast use vstd::multiset::group_multiset_axioms;
    let n = degrees.len();
    let k = nodes.len();
    let ghost din0 = d_in@;
    let ghost e0 = edges@;
    let ghost loc0 = local_of(din0, nodes@);
    if k <= 1 {
        return;
    }
    let mut local: Vec<usize> = Vec::new();
    let mut sum: usize = 0;
    let mut i: usize = 0;
    while i < k
        invariant
            i <= k,
            k == nodes@.len(),
            k <= n,
            n == degrees@.len(),
            n * n <= usize::MAX,
            d_in@ == din0,
            d_in@.len() == n,
            loc0 == local_of(din0, nodes@),
            forall|j: int| 0 <= j < k ==> (#[trigger] nodes@[j]) < n,
            forall|v: int| 0 <= v < n ==> (#[trigger] d_in@[v]) < n,
            local@ == loc0.take(i as int),
            sum == stub_total(local@),
            sum <= i * n,
        decreases k - i,
    {
        let x = d_in[nodes[i]];
        proof { assert(sum + x <= (i + 1) * n) by (nonlinear_arith) requires sum <= i * n, x < n; assert((i + 1) * n <= n * n) by (nonlinear_arith) requires i < n; }
        let ghost l0 = local@;
        local.push(x);
        proof {
            assert(loc0.take(i + 1) =~= loc0.take(i as int).push(x));
            assert(local@.drop_last() =~= l0);
        }
        sum = sum + x;
        i += 1;
    }
    proof { assert(loc0.take(k as int) =~= loc0); }
    if sum % 2 != 0 {
        let mut up: usize = k;
        let mut down: usize = k;
        let mut j: usize = 0;
        while j < k
            invariant
                j <= k,
                local@ == loc0,
                loc0.len() == k,
                up == least_below(loc0, max_in as nat, j as int),
                down == least_positive(loc0, j as int),
            decreases k - j,
        {
            proof {
                lemma_least_below(loc0, max_in as nat, j as int);
                lemma_least_positive(loc0, j as int);
            }
            let x = local[j];
            if x < max_in && (up == k || x < local[up]) {
                up = j;
            }
            if x > 0 && (down == k || x < local[down]) {
                down = j;
            }
            j += 1;
        }
        proof {
            lemma_least_below(loc0, max_in as nat, k as int);
            lemma_least_positive(loc0, k as int);
        }
        if up < k {
            let node = nodes[up];
            let x = local[up];
            local.set(up, x + 1);
            d_in.set(node, x + 1);
            let dv = degrees[node];
            d_ext.set(node, if dv > x + 1 { dv - (x + 1) } else { 0 });
        } else if down < k {
            let node = nodes[down];
            let x = local[down];
            local.set(down, x - 1);
            d_in.set(node, x - 1);
            let dv = degrees[node];
            d_ext.set(node, if dv > x - 1 { dv - (x - 1) } else { 0 });
        }
    }
    let ghost fixed = parity_fixed(loc0, max_in as nat);
    proof {
        lemma_fixed_even(loc0, max_in as nat);
        assert(local@ =~= fixed);
        assert forall|li: int| 0 <= li < k implies #[trigger] local@[li] == d_in@[nodes@[li] as int] by {
            assert(nodes@[li] < n);
        }
        assert forall|v: usize| v < n && !nodes@.contains(v) implies #[trigger] d_in@[v as int] == din0[v as int] by {}
        assert forall|li: int| 0 <= li < k implies (#[trigger] local@[li]) <= n by {
            assert(nodes@[li] < n);
        }
        lemma_total_bound(local@, n as nat);
        assert(k * n <= n * n) by (nonlinear_arith) requires k <= n;
    }
    let mut stubs = repeat_items(nodes, &local);
    let ghost before = stubs@;
    shuffle_in_place(&mut stubs, rng);
    proof {
        assert(stubs@.len() == before.len()) by {
            assert(stubs@.to_multiset().len() == before.to_multiset().len());
        }
        assert forall|t: int| 0 <= t < stubs@.len() implies (#[trigger] stubs@[t]) < n && comm@[stubs@[t] as int] == c by {
            let x = stubs@[t];
            assert(stubs@.contains(x));
            assert(before.to_multiset().count(x) > 0);
            assert(before.contains(x));
            let q = choose|q: int| 0 <= q < before.len() && before[q] == x;
            assert(in_items(nodes@, before[q]));
            let li = choose|li: int| 0 <= li < nodes@.len() && nodes@[li] == before[q];
        }
    }
    let pairs = pair_stubs(&stubs);
    let mut q: usize = 0;
    proof { assert(pairs@.take(0) =~= Seq::<(usize, usize)>::empty()); }
    while q < pairs.len()
        invariant
            q <= pairs@.len(),
            pairs@.len() == stubs@.len() / 2,
            forall|t: int| 0 <= t < pairs@.len() ==> #[trigger] pairs@[t] == (stubs@[2 * t], stubs@[2 * t + 1]),
            n == degrees@.len(),
            comm@.len() == n,
            forall|t: int| 0 <= t < stubs@.len() ==> (#[trigger] stubs@[t]) < n && comm@[stubs@[t] as int] == c,
            forall|e: int| 0 <= e < edges@.len() ==> (#[trigger] edges@[e]).0 < n && edges@[e].1 < n && inside(comm@, edges@[e]),
            forall|v: usize| #[trigger] degree_in(edges@, v) == degree_in(e0, v) + degree_in(pairs@.take(q as int), v),
            edges@ == e0 + pairs@.take(q as int),
        decreases pairs@.len() - q,
    {
        let e = pairs[q];
        let ghost ed = edges@;
        proof {
            assert(e == (stubs@[2 * q as int], stubs@[2 * q + 1]));
        }
        edges.push(e);
        proof {
            assert(pairs@.take(q + 1) =~= pairs@.take(q as int).push(e));
            assert forall|v: usize| #[trigger] degree_in(edges@, v) == degree_in(e0, v) + degree_in(pairs@.take(q + 1), v) by {
                lemma_degree_push(ed, e, v);
                lemma_degree_push(pairs@.take(q as int), e, v);
            }
        }
        q += 1;
    }
    proof {
        assert(pairs@.take(pairs@.len() as int) =~= pairs@);
        let half = pairs@.len() as int;
        assert(2 * half == stubs@.len()) by {
            assert(stubs@.len() == stub_total(local@));
        }
        assert forall|v: usize| #[trigger] degree_in(pairs@, v) == stubs@.to_multiset().count(v) by {
            crate::null_model::lemma_pairs_degree(stubs@, pairs@, half, v);
            assert(stubs@.take(2 * half) =~= stubs@);
        }
        assert forall|v: usize| v < n && !nodes@.contains(v) implies degree_in(edges@, v) == degree_in(e0, v) by {
            if before.to_multiset().count(v) > 0 {
                assert(before.contains(v));
                let t = choose|t: int| 0 <= t < before.len() && before[t] == v;
                assert(in_items(nodes@, before[t]));
                let li = choose|li: int| 0 <= li < nodes@.len() && nodes@[li] == before[t];
                assert(nodes@.contains(v));
            }
        }
        assert forall|li: int| 0 <= li < k implies #[trigger] d_in@[nodes@[li] as int] == fixed[li]
            && degree_in(edges@, nodes@[li]) == degree_in(e0, nodes@[li]) + d_in@[nodes@[li] as int] by {
            assert(before.to_multiset().count(nodes@[li]) == local@[li]);
        }
        assert forall|v: int| 0 <= v < n implies (#[trigger] d_in@[v]) < n by {
            if d_in@[v] != din0[v] {
                let li = choose|li: int| 0 <= li < k && nodes@[li] == v as usize;
            }
        }
        assert(pairs@ =~= pair_seq_of(stubs@));
        assert(edges@ == e0 + pair_seq_of(stubs@));
        assert forall|li: int| 0 <= li < nodes@.len() implies #[trigger] stubs@.to_multiset().count(nodes@[li]) == fixed[li] by {
            assert(before.to_multiset().count(nodes@[li as usize as int]) == local@[li as usize as int]);
        }
        assert forall|t: int| 0 <= t < stubs@.len() implies nodes@.contains(#[trigger] stubs@[t]) by {
            let x = stubs@[t];
            assert(stubs@.contains(x));
            assert(before.to_multiset().count(x) > 0);
            assert(before.contains(x));
            let q = choose|q: int| 0 <= q < before.len() && before[q] == x;
            assert(in_items(nodes@, before[q]));
            let li = choose|li: int| 0 <= li < nodes@.len() && nodes@[li] == before[q];
        }
        assert(community_stubs(stubs@, nodes@, fixed));
    }
}

/// The first `j' >= j` whose stub is unmatched and of a community other than stub
/// `i`'s, or `ext.len()` when there is none.
pub open spec fn partner_from(ext: Seq<usize>, comm: Seq<usize>, matched: Seq<bool>, i: int, j: int) -> int
    decreases ext.len() - j,
{
    if j >= ext.len() {
        ext.len() as int
    } else if !matched[j] && comm[ext[j] as int] != comm[ext[i] as int] {
        j
    } else {
        partner_from(ext, comm, matched, i, j + 1)
    }
}

/// The greedy matching of the stubs from `i` on: each unmatched stub, in order, is
/// paired with the first later unmatched stub of another community, if any.
pub open spec fn greedy_from(ext: Seq<usize>, comm: Seq<usize>, matched: Seq<bool>, i: int) -> Seq<(usize, usize)>
    decreases ext.len() - i,
{
    if i >= ext.len() {
        Seq::empty()
    } else if matched[i] {
        greedy_from(ext, comm, matched, i + 1)
    } else {
        let j = partner_from(ext, comm, matched, i, i + 1);
        if j < ext.len() {
            seq![(ext[i], ext[j])] + greedy_from(ext, comm, matched.update(i, true).update(j, true), i + 1)
        } else {
            greedy_from(ext, comm, matched, i + 1)
        }
    }
}

/// No stub matched yet.
pub open spec fn none_matched(m: nat) -> Seq<bool> {
    Seq::new(m, |t: int| false)
}

proof fn lemma_partner(ext: Seq<usize>, comm: Seq<usize>, matched: Seq<bool>, i: int, j: int)
    requires
        0 <= i < ext.len(),
        j <= ext.len(),
        matched.len() == ext.len(),
    ensures
        j <= partner_from(ext, comm, matched, i, j) <= ext.len(),
        partner_from(ext, comm, matched, i, j) < ext.len() ==> !matched[partner_from(ext, comm, matched, i, j)]
            && comm[ext[partner_from(ext, comm, matched, i, j)] as int] != comm[ext[i] as int],
    decreases ext.len() - j,
{
    if j < ext.len() && !(!matched[j] && comm[ext[j] as int] != comm[ext[i] as int]) {
        lemma_partner(ext, comm, matched, i, j + 1);
    }
}

/// Every greedy pair joins stubs of two communities.
proof fn lemma_greedy_across(ext: Seq<usize>, comm: Seq<usize>, matched: Seq<bool>, i: int)
    requires
        0 <= i,
        matched.len() == ext.len(),
        forall|t: int| 0 <= t < ext.len() ==> (#[trigger] ext[t]) < comm.len(),
    ensures
        forall|e: int| 0 <= e < greedy_from(ext, comm, matched, i).len() ==> !#[trigger] inside(comm, greedy_from(ext, comm, matched, i)[e])
            && greedy_from(ext, comm, matched, i)[e].0 < comm.len() && greedy_from(ext, comm, matched, i)[e].1 < comm.len(),
    decreases ext.len() - i,
{
    if i < ext.len() {
        if matched[i] {
            lemma_greedy_across(ext, comm, matched, i + 1);
            assert(greedy_from(ext, comm, matched, i) == greedy_from(ext, comm, matched, i + 1));
        } else {
            let j = partner_from(ext, comm, matched, i, i + 1);
            lemma_partner(ext, comm, matched, i, i + 1);
            if j < ext.len() {
                let m2 = matched.update(i, true).update(j, true);
                lemma_greedy_across(ext, comm, m2, i + 1);
                let rest = greedy_from(ext, comm, m2, i + 1);
                assert(greedy_from(ext, comm, matched, i) == seq![(ext[i], ext[j])] + rest);
                assert(ext[i] < comm.len() && ext[j] < comm.len());
                assert forall|e: int| 0 <= e < greedy_from(ext, comm, matched, i).len() implies !#[trigger] inside(comm, greedy_from(ext, comm, matched, i)[e])
                    && greedy_from(ext, comm, matched, i)[e].0 < comm.len() && greedy_from(ext, comm, matched, i)[e].1 < comm.len() by {
                    if e > 0 {
                        assert(greedy_from(ext, comm, matched, i)[e] == rest[e - 1]);
                    }
                }
            } else {
                lemma_greedy_across(ext, comm, matched, i + 1);
                assert(greedy_from(ext, comm, matched, i) == greedy_from(ext, comm, matched, i + 1));
            }
        }
    }
}

/// Match the external stubs greedily: each unmatched stub, in order, with the first
/// later unmatched stub of another community.
pub fn greedy_match(ext: &Vec<usize>, comm: &Vec<usize>) -> (r: Vec<(usize, usize)>)
    requires
        forall|t: int| 0 <= t < ext@.len() ==> (#[trigger] ext@[t]) < comm@.len(),
    ensures
        r@ == greedy_from(ext@, comm@, none_matched(ext@.len()), 0),
{
    let m = ext.len();
    let mut matched: Vec<bool> = Vec::new();
    let mut t: usize = 0;
    while t < m
        invariant
            t <= m,
            matched@.len() == t,
            forall|u: int| 0 <= u < t ==> !(#[trigger] matched@[u]),
        decreases m - t,
    {
        matched.push(false);
        t += 1;
    }
    proof { assert(matched@ =~= none_matched(m as nat)); }
    let ghost goal = greedy_from(ext@, comm@, none_matched(m as nat), 0);
    let mut r: Vec<(usize, usize)> = Vec::new();
    let mut i: usize = 0;
    while i < m
        invariant
            i <= m,
            m == ext@.len(),
            matched@.len() == m,
            forall|t: int| 0 <= t < m ==> (#[trigger] ext@[t]) < comm@.len(),
            r@ + greedy_from(ext@, comm@, matched@, i as int) == goal,
        decreases m - i,
    {
        if !matched[i] {
            let u = ext[i];
            let cu = comm[u];
            let ghost m0 = matched@;
            let ghost r0 = r@;
            let mut j: usize = i + 1;
            let mut found = false;
            while j < m && !found
                invariant
                    i < m,
                    i + 1 <= j <= m,
                    m == ext@.len(),
                    u == ext@[i as int],
                    cu == comm@[u as int],
                    forall|t: int| 0 <= t < m ==> (#[trigger] ext@[t]) < comm@.len(),
                    !found ==> matched@ == m0 && partner_from(ext@, comm@, m0, i as int, i + 1) == partner_from(ext@, comm@, m0, i as int, j as int),
                    found ==> j < m && partner_from(ext@, comm@, m0, i as int, i + 1) == j
                        && matched@ == m0.update(i as int, true).update(j as int, true)
                        && r@ == r0.push((u, ext@[j as int])),
                    !found ==> r@ == r0,
                    matched@.len() == m,
                decreases m - j, (if found { 0int } else { 1int }),
            {
                let x = ext[j];
                if !matched[j] && comm[x] != cu {
                    r.push((u, x));
                    matched.set(i, true);
                    matched.set(j, true);
                    found = true;
                } else {
                    j += 1;
                }
            }
            proof {
                if found {
                    let pair = (u, ext@[j as int]);
                    let rest = greedy_from(ext@, comm@, matched@, i + 1);
                    assert(greedy_from(ext@, comm@, m0, i as int) == seq![pair] + rest);
                    assert(r0 + (seq![pair] + rest) =~= r@ + rest);
                } else {
                    assert(partner_from(ext@, comm@, m0, i as int, j as int) == m);
                    assert(greedy_from(ext@, comm@, m0, i as int) == greedy_from(ext@, comm@, m0, i + 1));
                }
            }
        }
        i += 1;
    }
    proof {
        assert(greedy_from(ext@, comm@, matched@, m as int) =~= Seq::<(usize, usize)>::empty());
        assert(r@ + Seq::<(usize, usize)>::empty() =~= r@);
    }
    r
}

/// The most internal edges a node of community `c` can have: `sizes[c] - 1`.
pub open spec fn max_internal(sizes: Seq<usize>, c: usize) -> nat {
    if sizes[c as int] > 0 { (sizes[c as int] - 1) as nat } else { 0 }
}

/// The internal degree asked of node `v`: its wanted one capped at `max_internal`.
pub open spec fn internal_target(want: Seq<usize>, sizes: Seq<usize>, comm: Seq<usize>, v: usize) -> nat {
    let m = max_internal(sizes, comm[v as int]);
    if want[v as int] < m { want[v as int] as nat } else { m }
}

/// The nodes of community `c`, in increasing order.
pub open spec fn members(comm: Seq<usize>, c: usize) -> Seq<usize> {
    Seq::new(comm.len(), |i: int| i as usize).filter(in_community(comm, c))
}

/// Node `v` is in community `c`.
pub open spec fn in_community(comm: Seq<usize>, c: usize) -> spec_fn(usize) -> bool {
    |v: usize| comm[v as int] == c
}

/// The internal targets of the listed nodes.
pub open spec fn targets(want: Seq<usize>, sizes: Seq<usize>, comm: Seq<usize>, ms: Seq<usize>) -> Seq<usize> {
    ms.map_values(|v: usize| internal_target(want, sizes, comm, v) as usize)
}

/// Node `v`'s internal degree once its community's degrees are made even: its target
/// after [`parity_fixed`], in a community of two members or more.
pub open spec fn fixed_internal(want: Seq<usize>, sizes: Seq<usize>, comm: Seq<usize>, v: usize) -> nat {
    let ms = members(comm, comm[v as int]);
    if ms.len() > 1 {
        parity_fixed(targets(want, sizes, comm, ms), max_internal(sizes, comm[v as int]))[ms.index_of(v)] as nat
    } else {
        internal_target(want, sizes, comm, v)
    }
}

/// The internal edges node `v` gets: none in a community of one, else its fixed
/// internal degree.
pub open spec fn internal_degree(want: Seq<usize>, sizes: Seq<usize>, comm: Seq<usize>, v: usize) -> nat {
    if members(comm, comm[v as int]).len() > 1 { fixed_internal(want, sizes, comm, v) } else { 0 }
}

/// The external stubs of node `v`: the rest of its degree.
pub open spec fn external_target(degrees: Seq<usize>, want: Seq<usize>, sizes: Seq<usize>, comm: Seq<usize>, v: usize) -> nat {
    sat_sub(degrees[v as int], fixed_internal(want, sizes, comm, v) as usize) as nat
}

/// One outcome of the wiring: the first `k` edges are internal, each node having
/// exactly its internal degree among them; the rest are the greedy matching of
/// `ext`, an arrangement of the external stubs (node `v` appearing
/// `external_target` times).
pub open spec fn lfr_outcome(comm: Seq<usize>, edges: Seq<(usize, usize)>, k: int, ext: Seq<usize>, sizes: Seq<usize>, want: Seq<usize>, degrees: Seq<usize>) -> bool {
    &&& split_at(comm, edges, k)
    &&& forall|v: usize| v < degrees.len() ==> #[trigger] degree_in(edges.take(k), v) == internal_degree(want, sizes, comm, v)
    &&& forall|t: int| 0 <= t < ext.len() ==> (#[trigger] ext[t]) < degrees.len()
    &&& forall|v: usize| v < degrees.len() ==> #[trigger] ext.to_multiset().count(v) == external_target(degrees, want, sizes, comm, v)
    &&& edges.skip(k) == greedy_from(ext, comm, none_matched(ext.len()), 0)
}

/// The LFR wiring: nodes are handed to communities of the given sizes in a random
/// order ([`lfr_communities`]); each node's internal degree is its wanted one capped
/// at its community's size less one, and is made even per community
/// ([`parity_fixed`]); each community's internal stubs are shuffled and paired
/// ([`pair_stubs`]); the rest of each degree becomes external stubs, which are
/// shuffled and matched greedily across communities ([`greedy_match`]). Returns the
/// graph, internal edges first, and each node's community.
#[verifier::rlimit(40)]
#[verifier::spinoff_prover]
pub fn lfr_wire(degrees: &Vec<usize>, want_internal: &Vec<usize>, sizes: &Vec<usize>, rng: &mut StdRng) -> (r: (TemplateGraph, Vec<usize>))
    requires
        sizes@.len() > 0,
        degrees@.len() > 0,
        stub_total(sizes@) == degrees@.len(),
        want_internal@.len() == degrees@.len(),
        degrees@.len() * degrees@.len() <= usize::MAX,
        stub_total(degrees@) <= usize::MAX,
    ensures
        r.0.node_count() == degrees@.len(),
        !r.0.is_directed(),
        r.1@.len() == degrees@.len(),
        forall|v: int| 0 <= v < r.1@.len() ==> (#[trigger] r.1@[v]) < sizes@.len(),
        forall|c: usize| #[trigger] r.1@.to_multiset().count(c) == wanted(sizes@, c),
        exists|order: Seq<usize>| #[trigger] deals(order, r.1@, repeated(sizes@)),
        exists|k: int, ext: Seq<usize>| #[trigger] lfr_outcome(r.1@, r.0.edge_list(), k, ext, sizes@, want_internal@, degrees@),
{
    broadcast use vstd::multiset::group_multiset_axioms;
    let n = degrees.len();
    let comm = lfr_communities(sizes, rng);
    let ghost want = want_internal@;
    let ghost cm = comm@;
    let ghost order = choose|order: Seq<usize>| deals(order, cm, repeated(sizes@));
    let mut d_in: Vec<usize> = Vec::new();
    let mut d_ext: Vec<usize> = Vec::new();
    let mut v: usize = 0;
    while v < n
        invariant
            v <= n,
            n == degrees@.len(),
            n == comm@.len(),
            cm == comm@,
            want_internal@.len() == n,
            want == want_internal@,
            stub_total(sizes@) == n,
            forall|w: int| 0 <= w < n ==> (#[trigger] comm@[w]) < sizes@.len(),
            d_in@.len() == v,
            d_ext@.len() == v,
            forall|w: int| 0 <= w < v ==> (#[trigger] d_in@[w]) < n,
            forall|w: usize| w < v ==> #[trigger] d_in@[w as int] == internal_target(want, sizes@, cm, w),
            forall|w: int| 0 <= w < v ==> #[trigger] d_ext@[w] == sat_sub(degrees@[w], d_in@[w]),
        decreases n - v,
    {
        let size = sizes[comm[v]];
        let max_in = if size > 0 { size - 1 } else { 0 };
        let wv = want_internal[v];
        let di = if wv < max_in { wv } else { max_in };
        proof {
            lemma_entry_le_total(sizes@, comm@[v as int] as int);
        }
        d_in.push(di);
        let dv = degrees[v];
        d_ext.push(if dv > di { dv - di } else { 0 });
        v += 1;
    }
    let mut edges: Vec<(usize, usize)> = Vec::new();
    let n_comm = sizes.len();
    let mut c: usize = 0;
    while c < n_comm
        invariant
            c <= n_comm,
            n_comm == sizes@.len(),
            n == degrees@.len(),
            n > 0,
            n == comm@.len(),
            cm == comm@,
            n * n <= usize::MAX,
            stub_total(sizes@) == n,
            want == want_internal@,
            want.len() == n,
            forall|w: int| 0 <= w < n ==> (#[trigger] comm@[w]) < sizes@.len(),
            d_in@.len() == n,
            d_ext@.len() == n,
            forall|w: int| 0 <= w < n ==> (#[trigger] d_in@[w]) < n,
            forall|w: int| 0 <= w < n ==> #[trigger] d_ext@[w] == sat_sub(degrees@[w], d_in@[w]),
            forall|e: int| 0 <= e < edges@.len() ==> (#[trigger] edges@[e]).0 < n && edges@[e].1 < n && inside(comm@, edges@[e]),
            forall|w: usize| w < n && comm@[w as int] >= c ==> #[trigger] d_in@[w as int] == internal_target(want, sizes@, cm, w)
                && degree_in(edges@, w) == 0,
            forall|w: usize| w < n && comm@[w as int] < c ==> #[trigger] d_in@[w as int] == fixed_internal(want, sizes@, cm, w)
                && degree_in(edges@, w) == internal_degree(want, sizes@, cm, w),
        decreases n_comm - c,
    {
        let ghost pred = in_community(cm, c);
        let mut nodes: Vec<usize> = Vec::new();
        let mut w: usize = 0;
        proof {
            reveal(Seq::filter);
            assert(Seq::new(0nat, |i: int| i as usize).filter(pred) =~= Seq::<usize>::empty());
        }
        while w < n
            invariant
                w <= n,
                n == comm@.len(),
                cm == comm@,
                pred == in_community(cm, c),
                nodes@ == Seq::new(w as nat, |i: int| i as usize).filter(pred),
                nodes@.no_duplicates(),
                forall|i: int| 0 <= i < nodes@.len() ==> (#[trigger] nodes@[i]) < w && comm@[nodes@[i] as int] == c,
            decreases n - w,
        {
            proof {
                reveal(Seq::filter);
                assert(Seq::new((w + 1) as nat, |i: int| i as usize).drop_last() =~= Seq::new(w as nat, |i: int| i as usize));
                assert(Seq::new((w + 1) as nat, |i: int| i as usize).last() == w);
            }
            if comm[w] == c {
                nodes.push(w);
            }
            w += 1;
        }
        let ghost ms = nodes@;
        proof {
            assert(ms == members(cm, c));
            assert forall|x: usize| x < n implies (ms.contains(x) <==> cm[x as int] == c) by {
                let full = Seq::new(n as nat, |i: int| i as usize);
                full.filter_lemma(pred);
                if cm[x as int] == c {
                    assert(full[x as int] == x);
                    assert(full.filter(pred).contains(full[x as int]));
                }
            }
        }
        let size = sizes[c];
        proof { lemma_entry_le_total(sizes@, c as int); }
        let max_in = if size > 0 { size - 1 } else { 0 };
        let ghost din0 = d_in@;
        let ghost ed0 = edges@;
        proof {
            assert forall|x: int| 0 <= x < n implies (#[trigger] d_in@[x]) <= max_in || comm@[x] != c by {
                if comm@[x] == c {
                    assert(d_in@[x as usize as int] == internal_target(want, sizes@, cm, x as usize));
                }
            }
        }
        wire_community(&nodes, &mut d_in, &mut d_ext, degrees, max_in, &mut edges, &comm, c, rng);
        proof {
            assert(max_in as nat == max_internal(sizes@, c));
            assert(local_of(din0, ms) =~= targets(want, sizes@, cm, ms)) by {
                assert forall|li: int| 0 <= li < ms.len() implies #[trigger] local_of(din0, ms)[li] == targets(want, sizes@, cm, ms)[li] by {
                    assert(ms.contains(ms[li]));
                    assert(din0[ms[li] as int] == internal_target(want, sizes@, cm, ms[li]));
                }
            }
            assert forall|x: usize| x < n && comm@[x as int] >= c + 1 implies #[trigger] d_in@[x as int] == internal_target(want, sizes@, cm, x)
                && degree_in(edges@, x) == 0 by {
                assert(!ms.contains(x));
            }
            assert forall|x: usize| x < n && comm@[x as int] < c + 1 implies #[trigger] d_in@[x as int] == fixed_internal(want, sizes@, cm, x)
                && degree_in(edges@, x) == internal_degree(want, sizes@, cm, x) by {
                if comm@[x as int] < c {
                    assert(!ms.contains(x));
                } else {
                    assert(ms.contains(x));
                    let li = choose|li: int| 0 <= li < ms.len() && ms[li] == x;
                    assert(ms.index_of(x) == li) by {
                        let l2 = ms.index_of(x);
                        assert(0 <= l2 < ms.len() && ms[l2] == x);
                    }
                    if ms.len() <= 1 {
                        assert(d_in@ == din0);
                    } else {
                        assert(d_in@[ms[li] as int] == parity_fixed(local_of(din0, ms), max_in as nat)[li]
                            && degree_in(edges@, ms[li]) == degree_in(ed0, ms[li]) + d_in@[ms[li] as int]);
                    }
                }
                assert(d_in@[x as int] == fixed_internal(want, sizes@, cm, x));
                assert(degree_in(edges@, x) == internal_degree(want, sizes@, cm, x));
            }
        }
        c += 1;
    }
    proof {
        assert forall|w: usize| w < n implies #[trigger] d_in@[w as int] == fixed_internal(want, sizes@, cm, w)
            && degree_in(edges@, w) == internal_degree(want, sizes@, cm, w) by {
            assert(c == n_comm);
            assert(comm@[w as int] < n_comm);
            assert(w < n && comm@[w as int] < c);
            assert(d_in@[w as int] == fixed_internal(want, sizes@, cm, w));
            assert(degree_in(edges@, w) == internal_degree(want, sizes@, cm, w));
        }
        assert forall|i: int| 0 <= i < d_ext@.len() implies #[trigger] d_ext@[i] <= degrees@[i] by {}
        lemma_total_mono(d_ext@, degrees@);
    }
    let internal = edges.len();
    let ghost ie = edges@;
    let mut ext = repeat_each(&d_ext);
    let ghost before = ext@;
    shuffle_in_place(&mut ext, rng);
    proof {
        assert(ext@.len() == before.len()) by {
            assert(ext@.to_multiset().len() == before.to_multiset().len());
        }
        assert forall|t: int| 0 <= t < ext@.len() implies (#[trigger] ext@[t]) < n by {
            let x = ext@[t];
            assert(ext@.contains(x));
            assert(before.to_multiset().count(x) > 0);
            assert(before.contains(x));
        }
    }
    let greedy = greedy_match(&ext, &comm);
    proof {
        lemma_greedy_across(ext@, cm, none_matched(ext@.len()), 0);
    }
    let mut greedy = greedy;
    let ghost g0 = greedy@;
    edges.append(&mut greedy);
    proof {
        assert(edges@ == ie + g0);
        assert(edges@.take(internal as int) =~= ie);
        assert(edges@.skip(internal as int) =~= g0);
        assert forall|e: int| 0 <= e < edges@.len() implies (#[trigger] edges@[e]).0 < n && edges@[e].1 < n by {
            if e >= internal {
                assert(edges@[e] == g0[e - internal]);
                assert(g0 == greedy_from(ext@, cm, none_matched(ext@.len()), 0));
                assert(!inside(cm, g0[e - internal]));
            } else {
                assert(edges@[e] == ie[e]);
                assert(ie[e].0 < n);
            }
        }
    }
    let graph = TemplateGraph::new(n, false, edges);
    let r = (graph, comm);
    proof {
        assert forall|e: int| internal <= e < r.0.edge_list().len() implies !#[trigger] inside(r.1@, r.0.edge_list()[e]) by {
            assert(r.0.edge_list()[e] == g0[e - internal]);
            assert(!inside(cm, g0[e - internal]));
        }
        assert(split_at(r.1@, r.0.edge_list(), internal as int));
        assert forall|x: usize| x < n implies #[trigger] ext@.to_multiset().count(x) == external_target(degrees@, want_internal@, sizes@, r.1@, x) by {
            assert(before.to_multiset().count(x) == wanted(d_ext@, x));
        }
        assert forall|x: usize| x < n implies #[trigger] degree_in(r.0.edge_list().take(internal as int), x)
            == internal_degree(want_internal@, sizes@, r.1@, x) by {
            assert(r.0.edge_list().take(internal as int) == ie);
            assert(d_in@[x as int] == fixed_internal(want, sizes@, cm, x));
            assert(degree_in(ie, x) == internal_degree(want, sizes@, cm, x));
        }
        assert(lfr_outcome(r.1@, r.0.edge_list(), internal as int, ext@, sizes@, want_internal@, degrees@));
        assert(deals(order, r.1@, repeated(sizes@)));
    }
    r
}

} // verus!
