//! Scalable graphlet-orbit counting: the full per-node graphlet-degree vector over
//! the 73 orbits of orders `2..=5`, without canonically labelling any 5-node subset.
//!
//! Orders `2..=4` come from per-vertex degrees, per-edge triangle counts and per-vertex
//! K4 memberships combined by a small linear system. Order `5` comes from the connected
//! 4-node cores: every outside vertex attached to a core is tallied by its adjacency
//! pattern to the four core nodes, a table built once from the orbit registry turns each
//! (core structure, attachment) pair into the order-5 orbit of every core node, and each
//! orbit's core multiplicity — how many of its graphlet's vertices can be removed
//! without disconnecting it, other than the node itself — is divided out.
use vstd::prelude::*;
use crate::snapshot::Snapshot;
use crate::adjacency::sorted_strict;
use crate::neighborhood::{common_neighbors, nbr_set, lemma_sorted_below};
use crate::esu::{simple_graph, for_each_subset, SubsetSink, esu_all, valid_out};
use crate::adjacency::Adjacency;
use crate::canonical::{
    perms, all_perms, class_to_adj, connected, vec_contains, all_connected_classes, is_connected_class,
    list_adj, lists_wf, class_adj, canonical_arg_fn, computes,
};
use crate::model::{is_perm, below, connected_set, pair_seq, lemma_pair_seq_len};
use crate::orbit::{Registry, GdvTable, lemma_index_bound};
use crate::census::{Census, Selector, census_count, lemma_listed_census, lemma_count_where_witness, class_is, lemma_seq_class_connected};
use crate::orbit::gdv_count;
use crate::orbit_totals::{law_orbit_totals, orbit_total};
use crate::esu::lemma_esu_all;
use vstd::arithmetic::power2::{pow2, lemma2_to64};

verus! {

/// Number of orbits of orders `2..=4`: the width of the linear-system layer.
pub const FAST_ORBIT_COUNT: usize = 15;

/// Largest node count the fast path accepts: its signed intermediate tallies are then
/// guaranteed to fit in `i128`.
pub const FAST_MAX_NODES: usize = 16777216;

/// `|N(a) ∩ N(b)|`: the triangles on the edge `a–b`.
pub open spec fn common_count(g: Seq<Seq<usize>>, a: usize, b: usize) -> nat {
    nbr_set(g, a).intersect(nbr_set(g, b)).len()
}

/// The neighbor lists of a snapshot: simple, sorted, in range.
pub open spec fn lists_ok(g: Seq<Seq<usize>>) -> bool {
    &&& simple_graph(g)
    &&& forall|a: int| 0 <= a < g.len() ==> sorted_strict(#[trigger] g[a])
}

/// Every neighbor list is at most `g.len()` long.
proof fn lemma_degrees_below(g: Seq<Seq<usize>>)
    requires
        lists_ok(g),
    ensures
        forall|a: int| 0 <= a < g.len() ==> (#[trigger] g[a]).len() <= g.len(),
{
    assert forall|a: int| 0 <= a < g.len() implies (#[trigger] g[a]).len() <= g.len() by {
        lemma_sorted_below(g[a], g.len());
    }
}

/// The facts the counting loops need about `g`.
fn graph_facts<N>(g: &Snapshot<N>) -> (n: usize)
    ensures
        n == g.ids().len(),
        n == g.graph().len(),
        lists_ok(g.graph()),
        forall|a: int| 0 <= a < n ==> (#[trigger] g.graph()[a]).len() <= n,
{
    let adj = g.adjacency();
    proof {
        adj.lemma_graph();
        lemma_degrees_below(g.graph());
    }
    g.len()
}

/// Per-edge triangle counts: `tri[a][t]` is the number of common neighbors of `a` and
/// its `t`-th neighbor.
fn edge_triangle_counts<N>(g: &Snapshot<N>) -> (tri: Vec<Vec<u64>>)
    ensures
        tri@.len() == g.ids().len(),
        forall|a: int| 0 <= a < tri@.len() ==> (#[trigger] tri@[a])@.len() == g.graph()[a].len(),
        forall|a: int, t: int| 0 <= a < tri@.len() && 0 <= t < tri@[a]@.len()
            ==> #[trigger] tri@[a]@[t] == common_count(g.graph(), a as usize, g.graph()[a][t]),
{
    let n = graph_facts(g);
    let mut tri: Vec<Vec<u64>> = Vec::new();
    let mut a: usize = 0;
    while a < n
        invariant
            n == g.ids().len(),
            n == g.graph().len(),
            lists_ok(g.graph()),
            a <= n,
            tri@.len() == a,
            forall|b: int| 0 <= b < a ==> (#[trigger] tri@[b])@.len() == g.graph()[b].len(),
            forall|b: int, t: int| 0 <= b < a && 0 <= t < tri@[b]@.len()
                ==> #[trigger] tri@[b]@[t] == common_count(g.graph(), b as usize, g.graph()[b][t]),
        decreases n - a,
    {
        let nb = g.neighbors(a);
        let mut row: Vec<u64> = Vec::new();
        let mut t: usize = 0;
        while t < nb.len()
            invariant
                n == g.ids().len(),
                n == g.graph().len(),
                lists_ok(g.graph()),
                a < n,
                nb@ == g.graph()[a as int],
                t <= nb@.len(),
                row@.len() == t,
                forall|s: int| 0 <= s < t ==> #[trigger] row@[s] == common_count(g.graph(), a, g.graph()[a as int][s]),
            decreases nb@.len() - t,
        {
            let b = nb[t];
            proof { assert(g.graph()[a as int][t as int] == b); }
            let c = common_neighbors(g, a, b);
            row.push(c as u64);
            t += 1;
        }
        tri.push(row);
        a += 1;
    }
    tri
}

/// The triangle count of the edge `a–b` from the per-edge table; `b` must be a neighbor
/// of `a`.
fn tri_of<N>(g: &Snapshot<N>, tri: &Vec<Vec<u64>>, a: usize, b: usize) -> (r: u64)
    requires
        lists_ok(g.graph()),
        a < g.graph().len(),
        g.graph().len() == g.ids().len(),
        g.graph()[a as int].contains(b),
        tri@.len() == g.graph().len(),
        forall|x: int| 0 <= x < tri@.len() ==> (#[trigger] tri@[x])@.len() == g.graph()[x].len(),
        forall|x: int, t: int| 0 <= x < tri@.len() && 0 <= t < tri@[x]@.len()
            ==> #[trigger] tri@[x]@[t] == common_count(g.graph(), x as usize, g.graph()[x][t]),
    ensures
        r == common_count(g.graph(), a, b),
{
    let nb = g.neighbors(a);
    let ghost s = nb@;
    // binary search for b in the sorted list
    let mut lo: usize = 0;
    let mut hi: usize = nb.len();
    let ghost p = choose|p: int| 0 <= p < s.len() && s[p] == b;
    while lo + 1 < hi
        invariant
            s == nb@,
            sorted_strict(s),
            0 <= lo < hi <= s.len(),
            lo <= p < hi,
            s[p] == b,
        decreases hi - lo,
    {
        let mid = lo + (hi - lo) / 2;
        if nb[mid] <= b {
            lo = mid;
        } else {
            hi = mid;
        }
    }
    proof {
        assert(lo == p);
        assert(tri@[a as int]@[lo as int] == common_count(g.graph(), a, g.graph()[a as int][lo as int]));
    }
    tri[a][lo]
}

/// Add one to entry `v` of `c`.
fn bump(c: &mut Vec<u128>, v: usize, Ghost(cap): Ghost<int>)
    requires
        v < old(c)@.len(),
        forall|w: int| 0 <= w < old(c)@.len() ==> (#[trigger] old(c)@[w]) <= cap,
        cap + 1 <= u128::MAX,
    ensures
        final(c)@ == old(c)@.update(v as int, (old(c)@[v as int] + 1) as u128),
        final(c)@.len() == old(c)@.len(),
        forall|w: int| 0 <= w < final(c)@.len() ==> (#[trigger] final(c)@[w]) <= cap + 1,
{
    let x = c[v];
    c.set(v, x + 1);
}

/// Per-vertex K4 memberships. Each K4 `{a < b < c < d}` is found once, from its edge
/// `d–c` and the pair `a < b` of common lower neighbors, and credits all four nodes.
/// Every entry is at most four per K4 candidate examined.
fn k4_counts<N>(g: &Snapshot<N>) -> (c4: Vec<u128>)
    requires
        g.ids().len() <= FAST_MAX_NODES,
    ensures
        c4@.len() == g.ids().len(),
        forall|v: int| 0 <= v < c4@.len() ==> (#[trigger] c4@[v]) <= 0x4_0000_0000_0000_0000_0000_0000,
{
    let n = graph_facts(g);
    let mut c4: Vec<u128> = Vec::new();
    let mut i0: usize = 0;
    while i0 < n
        invariant
            i0 <= n,
            c4@.len() == i0,
            forall|w: int| 0 <= w < i0 ==> (#[trigger] c4@[w]) == 0,
        decreases n - i0,
    {
        c4.push(0);
        i0 += 1;
    }
    let ghost mut steps: int = 0;
    let mut x: usize = 0;
    while x < n
        invariant
            n == g.ids().len(),
            n == g.graph().len(),
            n <= FAST_MAX_NODES,
            lists_ok(g.graph()),
            forall|a: int| 0 <= a < n ==> (#[trigger] g.graph()[a]).len() <= n,
            c4@.len() == n,
            x <= n,
            0 <= steps <= x * 0x100_0000_0000_0000_0000,
            forall|w: int| 0 <= w < n ==> (#[trigger] c4@[w]) <= 4 * steps,
        decreases n - x,
    {
        let nbx = g.neighbors(x);
        let mut t: usize = 0;
        while t < nbx.len()
            invariant
                n == g.ids().len(),
                n == g.graph().len(),
                n <= FAST_MAX_NODES,
                lists_ok(g.graph()),
                forall|a: int| 0 <= a < n ==> (#[trigger] g.graph()[a]).len() <= n,
                c4@.len() == n,
                x < n,
                nbx@ == g.graph()[x as int],
                t <= nbx@.len(),
                0 <= steps <= x * 0x100_0000_0000_0000_0000 + t * 0x1_0000_0000_0000,
                forall|w: int| 0 <= w < n ==> (#[trigger] c4@[w]) <= 4 * steps,
            decreases nbx@.len() - t,
        {
            let y = nbx[t];
            proof { assert(g.graph()[x as int][t as int] == y); }
            if y < x {
                let nby = g.neighbors(y);
                let mut common: Vec<usize> = Vec::new();
                let mut s: usize = 0;
                while s < nby.len() && nby[s] < y
                    invariant
                        n == g.graph().len(),
                        n == g.ids().len(),
                        x < n,
                        y < n,
                        nby@ == g.graph()[y as int],
                        lists_ok(g.graph()),
                        s <= nby@.len(),
                        common@.len() <= s,
                        forall|q: int| 0 <= q < common@.len() ==> (#[trigger] common@[q]) < n,
                    decreases nby@.len() - s,
                {
                    let z = nby[s];
                    proof { assert(g.graph()[y as int][s as int] == z); }
                    if g.adjacent(x, z) {
                        common.push(z);
                    }
                    s += 1;
                }
                let m = common.len();
                let mut i: usize = 0;
                while i < m
                    invariant
                        n == g.ids().len(),
                        n <= FAST_MAX_NODES,
                        c4@.len() == n,
                        x < n,
                        y < n,
                        m == common@.len(),
                        m <= n,
                        forall|q: int| 0 <= q < m ==> (#[trigger] common@[q]) < n,
                        t < nbx@.len(),
                        nbx@.len() <= n,
                        i <= m,
                        0 <= steps <= x * 0x100_0000_0000_0000_0000 + t * 0x1_0000_0000_0000 + i * 0x100_0000,
                        forall|w: int| 0 <= w < n ==> (#[trigger] c4@[w]) <= 4 * steps,
                    decreases m - i,
                {
                    let mut j: usize = i + 1;
                    while j < m
                        invariant
                            n == g.ids().len(),
                            n <= FAST_MAX_NODES,
                            c4@.len() == n,
                            x < n,
                            y < n,
                            m == common@.len(),
                            m <= n,
                            forall|q: int| 0 <= q < m ==> (#[trigger] common@[q]) < n,
                            t < nbx@.len(),
                            nbx@.len() <= n,
                            i < m,
                            i + 1 <= j <= m,
                            0 <= steps <= x * 0x100_0000_0000_0000_0000 + t * 0x1_0000_0000_0000 + i * 0x100_0000 + (j - i - 1),
                            forall|w: int| 0 <= w < n ==> (#[trigger] c4@[w]) <= 4 * steps,
                        decreases m - j,
                    {
                        let z = common[i];
                        let zz = common[j];
                        if g.adjacent(z, zz) {
                            bump(&mut c4, x, Ghost(4 * steps));
                            bump(&mut c4, y, Ghost(4 * steps + 1));
                            bump(&mut c4, z, Ghost(4 * steps + 2));
                            bump(&mut c4, zz, Ghost(4 * steps + 3));
                        }
                        proof { steps = steps + 1; }
                        j += 1;
                    }
                    i += 1;
                }
            }
            t += 1;
        }
        x += 1;
    }
    proof {
        assert(x * 0x100_0000_0000_0000_0000 <= 16777216 * 0x100_0000_0000_0000_0000);
        assert(steps <= 0x1_0000_0000_0000_0000_0000_0000);
    }
    c4
}

/// Bound on one step's change to a tally.
spec fn step_bound() -> int {
    0x4_0000_0000_0000_0000
}

/// Bound on a raw orbit value.
pub open spec fn raw_bound() -> int {
    0x100_0000_0000_0000_0000_0000_0000_0000
}

/// `|v| <= b`.
pub open spec fn within_i(v: i128, b: int) -> bool {
    -b <= v <= b
}

/// Every tally is within `steps` steps of zero.
spec fn tallies_ok(f: Seq<i128>, o: Seq<i128>, steps: int) -> bool {
    &&& forall|i: int| 0 <= i < f.len() ==> within_i(#[trigger] f[i], steps * step_bound())
    &&& forall|i: int| 0 <= i < o.len() ==> 0 <= #[trigger] o[i] <= steps
}

/// The facts about the per-edge triangle table that the tallies rely on.
spec fn tri_ok<N>(g: Snapshot<N>, tri: Seq<Vec<u64>>) -> bool {
    &&& tri.len() == g.graph().len()
    &&& forall|a: int| 0 <= a < tri.len() ==> (#[trigger] tri[a])@.len() == g.graph()[a].len()
    &&& forall|a: int, t: int| 0 <= a < tri.len() && 0 <= t < tri[a]@.len()
        ==> #[trigger] tri[a]@[t] == common_count(g.graph(), a as usize, g.graph()[a][t])
}

/// The snapshot facts every tally loop relies on.
spec fn snap_ok<N>(g: Snapshot<N>, n: usize) -> bool {
    &&& n == g.ids().len()
    &&& n == g.graph().len()
    &&& n <= FAST_MAX_NODES
    &&& lists_ok(g.graph())
    &&& forall|a: int| 0 <= a < n ==> (#[trigger] g.graph()[a]).len() <= n
}

/// Phase A of one root `x`: triangles and open wedges at `x`, seen from two angles.
/// Returns `[f12_14, f10_13, f13_14, f11_13, f7_11, f5_8, orbit2, orbit3]`, and
/// tallies in `common` how many wedges `x–y–z` reach each non-neighbor `z`.
fn wedge_tallies<N>(g: &Snapshot<N>, tri: &Vec<Vec<u64>>, n: usize, x: usize, common: &mut Vec<u64>, touched: &mut Vec<usize>) -> (r: Vec<i128>)
    requires
        snap_ok(*g, n),
        tri_ok(*g, tri@),
        x < n,
        old(common)@.len() == n,
        forall|w: int| 0 <= w < n ==> (#[trigger] old(common)@[w]) == 0,
        old(touched)@.len() == 0,
    ensures
        r@.len() == 8,
        forall|i: int| 0 <= i < 8 ==> within_i(#[trigger] r@[i], 0x2_0000_0000_0000 * step_bound()),
        final(common)@.len() == n,
        forall|w: int| 0 <= w < n ==> (#[trigger] final(common)@[w]) <= 0x2_0000_0000_0000,
        forall|q: int| 0 <= q < final(touched)@.len() ==> (#[trigger] final(touched)@[q]) < n,
        forall|w: int| 0 <= w < n && (#[trigger] final(common)@[w]) > 0 ==> final(touched)@.contains(w as usize),
{
    let nbx = g.neighbors(x);
    let dx = nbx.len();
    let deg_x = dx as i128;
    let ghost mut steps: int = 0;
    let mut f12_14: i128 = 0;
    let mut f10_13: i128 = 0;
    let mut f13_14: i128 = 0;
    let mut f11_13: i128 = 0;
    let mut f7_11: i128 = 0;
    let mut f5_8: i128 = 0;
    let mut orbit2: i128 = 0;
    let mut orbit3: i128 = 0;
    let mut t: usize = 0;
    while t < dx
        invariant
            snap_ok(*g, n),
            tri_ok(*g, tri@),
            x < n,
            nbx@ == g.graph()[x as int],
            dx == nbx@.len(),
            deg_x == dx,
            t <= dx,
            common@.len() == n,
            forall|q: int| 0 <= q < touched@.len() ==> (#[trigger] touched@[q]) < n,
            forall|w: int| 0 <= w < n && (#[trigger] common@[w]) > 0 ==> touched@.contains(w as usize),
            forall|w: int| 0 <= w < n ==> (#[trigger] common@[w]) <= steps,
            0 <= steps <= t * 0x200_0000,
            tallies_ok(seq![f12_14, f10_13, f13_14, f11_13, f7_11, f5_8], seq![orbit2, orbit3], steps),
        decreases dx - t,
    {
        let y = nbx[t];
        proof { assert(g.graph()[x as int][t as int] == y); }
        let nby = g.neighbors(y);
        let deg_y = nby.len() as i128;
        let mut s1: usize = 0;
        while s1 < nby.len()
            invariant
                snap_ok(*g, n),
                tri_ok(*g, tri@),
                x < n,
                y < n,
                nby@ == g.graph()[y as int],
                deg_y == nby@.len(),
                s1 <= nby@.len(),
                t < dx,
                dx <= n,
                common@.len() == n,
                forall|q: int| 0 <= q < touched@.len() ==> (#[trigger] touched@[q]) < n,
                forall|w: int| 0 <= w < n && (#[trigger] common@[w]) > 0 ==> touched@.contains(w as usize),
                forall|w: int| 0 <= w < n ==> (#[trigger] common@[w]) <= steps,
                0 <= steps <= t * 0x200_0000 + s1,
                tallies_ok(seq![f12_14, f10_13, f13_14, f11_13, f7_11, f5_8], seq![orbit2, orbit3], steps),
            decreases nby@.len() - s1,
        {
            let z = nby[s1];
            proof { assert(g.graph()[y as int][s1 as int] == z); }
            let ghost before = seq![f12_14, f10_13, f13_14, f11_13, f7_11, f5_8];
            if g.adjacent(x, z) {
                if z < y {
                    let tt = tri_of(g, tri, y, z) as i128;
                    let deg_z = g.neighbors(z).len() as i128;
                    proof { assert(within_i(before[0], steps * step_bound()) && within_i(before[1], steps * step_bound())); }
                    f12_14 = f12_14 + (tt - 1);
                    f10_13 = f10_13 + ((deg_y - 1 - tt) + (deg_z - 1 - tt));
                }
            } else if z != x {
                let cz = common[z];
                let ghost t0 = touched@;
                if cz == 0 {
                    touched.push(z);
                }
                common.set(z, cz + 1);
                proof {
                    assert(touched@.contains(z)) by {
                        if cz == 0 {
                            assert(touched@[touched@.len() - 1] == z);
                        }
                    }
                    assert forall|w: int| 0 <= w < n && (#[trigger] common@[w]) > 0 implies touched@.contains(w as usize) by {
                        if w != z {
                            assert(t0.contains(w as usize));
                            let q = choose|q: int| 0 <= q < t0.len() && t0[q] == w as usize;
                            assert(touched@[q] == w as usize);
                        }
                    }
                }
            }
            proof {
                let after = seq![f12_14, f10_13, f13_14, f11_13, f7_11, f5_8];
                assert forall|i: int| 0 <= i < 6 implies within_i(#[trigger] after[i], (steps + 1) * step_bound()) by {
                    assert(within_i(before[i], steps * step_bound()));
                }
                steps = steps + 1;
            }
            s1 += 1;
        }
        let txy = tri_of(g, tri, x, y) as i128;
        let mut s2: usize = t + 1;
        while s2 < dx
            invariant
                snap_ok(*g, n),
                tri_ok(*g, tri@),
                x < n,
                y < n,
                nbx@ == g.graph()[x as int],
                dx == nbx@.len(),
                deg_x == dx,
                dx <= n,
                t < dx,
                t + 1 <= s2 <= dx,
                0 <= txy <= u64::MAX,
                forall|w: int| 0 <= w < n ==> (#[trigger] common@[w]) <= steps,
                0 <= steps <= t * 0x200_0000 + 0x100_0000 + (s2 - t - 1),
                tallies_ok(seq![f12_14, f10_13, f13_14, f11_13, f7_11, f5_8], seq![orbit2, orbit3], steps),
            decreases dx - s2,
        {
            let z = nbx[s2];
            proof { assert(g.graph()[x as int][s2 as int] == z); }
            let txz = tri_of(g, tri, x, z) as i128;
            let ghost before = seq![f12_14, f10_13, f13_14, f11_13, f7_11, f5_8];
            let ghost ob = seq![orbit2, orbit3];
            proof {
                assert(within_i(before[2], steps * step_bound()) && within_i(before[3], steps * step_bound()));
                assert(within_i(before[4], steps * step_bound()) && within_i(before[5], steps * step_bound()));
                assert(0 <= ob[0] <= steps && 0 <= ob[1] <= steps);
            }
            if g.adjacent(y, z) {
                orbit3 = orbit3 + 1;
                f13_14 = f13_14 + ((txy - 1) + (txz - 1));
                f11_13 = f11_13 + ((deg_x - 1 - txy) + (deg_x - 1 - txz));
            } else {
                orbit2 = orbit2 + 1;
                let deg_y2 = g.neighbors(y).len() as i128;
                let deg_z2 = g.neighbors(z).len() as i128;
                f7_11 = f7_11 + ((deg_x - 1 - txy - 1) + (deg_x - 1 - txz - 1));
                f5_8 = f5_8 + ((deg_y2 - 1 - txy) + (deg_z2 - 1 - txz));
            }
            proof {
                let after = seq![f12_14, f10_13, f13_14, f11_13, f7_11, f5_8];
                assert forall|i: int| 0 <= i < 6 implies within_i(#[trigger] after[i], (steps + 1) * step_bound()) by {
                    assert(within_i(before[i], steps * step_bound()));
                }
                steps = steps + 1;
            }
            s2 += 1;
        }
        t += 1;
    }
    proof {
        assert(steps <= 0x2_0000_0000_0000);
        let f = seq![f12_14, f10_13, f13_14, f11_13, f7_11, f5_8];
        assert forall|i: int| 0 <= i < 6 implies within_i(#[trigger] f[i], 0x2_0000_0000_0000 * step_bound()) by {
            assert(within_i(f[i], steps * step_bound()));
        }
    }
    let r: Vec<i128> = vec![f12_14, f10_13, f13_14, f11_13, f7_11, f5_8, orbit2, orbit3];
    proof {
        let f = seq![f12_14, f10_13, f13_14, f11_13, f7_11, f5_8];
        assert forall|i: int| 0 <= i < 8 implies within_i(#[trigger] r@[i], 0x2_0000_0000_0000 * step_bound()) by {
            if i < 6 {
                assert(r@[i] == f[i]);
            } else {
                assert(seq![orbit2, orbit3][i - 6] == r@[i]);
            }
        }
    }
    r
}

/// Phase B of one root `x`: `x` as the end of an open path `x–y–z`. Returns
/// `[f6_9, f9_12, f4_8, f8_12, orbit1]`.
fn path_tallies<N>(g: &Snapshot<N>, tri: &Vec<Vec<u64>>, n: usize, x: usize, common: &Vec<u64>) -> (r: Vec<i128>)
    requires
        snap_ok(*g, n),
        tri_ok(*g, tri@),
        x < n,
        common@.len() == n,
        forall|w: int| 0 <= w < n ==> (#[trigger] common@[w]) <= 0x2_0000_0000_0000,
    ensures
        r@.len() == 5,
        forall|i: int| 0 <= i < 5 ==> within_i(#[trigger] r@[i], 0x1_0000_0000_0000 * step_bound()),
{
    let nbx = g.neighbors(x);
    let dx = nbx.len();
    let ghost mut steps: int = 0;
    let mut f6_9: i128 = 0;
    let mut f9_12: i128 = 0;
    let mut f4_8: i128 = 0;
    let mut f8_12: i128 = 0;
    let mut orbit1: i128 = 0;
    let mut t: usize = 0;
    while t < dx
        invariant
            snap_ok(*g, n),
            tri_ok(*g, tri@),
            x < n,
            nbx@ == g.graph()[x as int],
            dx == nbx@.len(),
            t <= dx,
            common@.len() == n,
            forall|w: int| 0 <= w < n ==> (#[trigger] common@[w]) <= 0x2_0000_0000_0000,
            0 <= steps <= t * 0x100_0000,
            tallies_ok(seq![f6_9, f9_12, f4_8, f8_12], seq![orbit1], steps),
        decreases dx - t,
    {
        let y = nbx[t];
        proof { assert(g.graph()[x as int][t as int] == y); }
        let nby = g.neighbors(y);
        let deg_y = nby.len() as i128;
        let txy = tri_of(g, tri, x, y) as i128;
        let mut s1: usize = 0;
        while s1 < nby.len()
            invariant
                snap_ok(*g, n),
                tri_ok(*g, tri@),
                x < n,
                y < n,
                nby@ == g.graph()[y as int],
                deg_y == nby@.len(),
                0 <= txy <= u64::MAX,
                s1 <= nby@.len(),
                t < dx,
                dx <= n,
                common@.len() == n,
                forall|w: int| 0 <= w < n ==> (#[trigger] common@[w]) <= 0x2_0000_0000_0000,
                0 <= steps <= t * 0x100_0000 + s1,
                tallies_ok(seq![f6_9, f9_12, f4_8, f8_12], seq![orbit1], steps),
            decreases nby@.len() - s1,
        {
            let z = nby[s1];
            proof { assert(g.graph()[y as int][s1 as int] == z); }
            let ghost before = seq![f6_9, f9_12, f4_8, f8_12];
            proof {
                assert(0 <= seq![orbit1][0] <= steps);
                assert(within_i(before[0], steps * step_bound()) && within_i(before[1], steps * step_bound()));
                assert(within_i(before[2], steps * step_bound()) && within_i(before[3], steps * step_bound()));
            }
            if z != x && !g.adjacent(x, z) {
                orbit1 = orbit1 + 1;
                let tyz = tri_of(g, tri, y, z) as i128;
                let deg_z = g.neighbors(z).len() as i128;
                f6_9 = f6_9 + (deg_y - 1 - txy - 1);
                f9_12 = f9_12 + tyz;
                f4_8 = f4_8 + (deg_z - 1 - tyz);
                f8_12 = f8_12 + (common[z] as i128 - 1);
            }
            proof {
                let after = seq![f6_9, f9_12, f4_8, f8_12];
                assert forall|i: int| 0 <= i < 4 implies within_i(#[trigger] after[i], (steps + 1) * step_bound()) by {
                    assert(within_i(before[i], steps * step_bound()));
                }
                steps = steps + 1;
            }
            s1 += 1;
        }
        t += 1;
    }
    let r: Vec<i128> = vec![f6_9, f9_12, f4_8, f8_12, orbit1];
    proof {
        assert(steps <= 0x1_0000_0000_0000);
        let f = seq![f6_9, f9_12, f4_8, f8_12];
        assert forall|i: int| 0 <= i < 5 implies within_i(#[trigger] r@[i], 0x1_0000_0000_0000 * step_bound()) by {
            if i < 4 {
                assert(r@[i] == f[i]);
                assert(within_i(f[i], steps * step_bound()));
            } else {
                assert(0 <= seq![orbit1][0] <= steps);
            }
        }
    }
    r
}

/// Clear the tallies at the listed entries.
fn clear_tallies(common: &mut Vec<u64>, touched: &Vec<usize>, Ghost(n): Ghost<nat>)
    requires
        old(common)@.len() == n,
        n <= usize::MAX,
        forall|q: int| 0 <= q < touched@.len() ==> (#[trigger] touched@[q]) < n,
        forall|w: int| 0 <= w < n && (#[trigger] old(common)@[w]) > 0 ==> touched@.contains(w as usize),
    ensures
        final(common)@.len() == n,
        forall|w: int| 0 <= w < n ==> (#[trigger] final(common)@[w]) == 0,
{
    let mut r: usize = 0;
    proof {
        assert forall|w: int| 0 <= w < n && (#[trigger] common@[w]) > 0 implies exists|q: int| 0 <= q < touched@.len() && touched@[q] == w by {
            assert(touched@.contains(w as usize));
            let q = choose|q: int| 0 <= q < touched@.len() && touched@[q] == w as usize;
            assert((w as usize) as int == w);
            assert(touched@[q] == w);
        }
    }
    while r < touched.len()
        invariant
            common@.len() == n,
            forall|q: int| 0 <= q < touched@.len() ==> (#[trigger] touched@[q]) < n,
            r <= touched@.len(),
            forall|w: int| 0 <= w < n && (#[trigger] common@[w]) > 0 ==> exists|q: int| r <= q < touched@.len() && touched@[q] == w,
        decreases touched@.len() - r,
    {
        let z = touched[r];
        common.set(z, 0);
        proof {
            assert forall|w: int| 0 <= w < n && (#[trigger] common@[w]) > 0 implies exists|q: int| r + 1 <= q < touched@.len() && touched@[q] == w by {
                let q = choose|q: int| r <= q < touched@.len() && touched@[q] == w;
                assert(q != r);
            }
        }
        r += 1;
    }
}

/// `a / d` rounded toward zero.
pub open spec fn div_toward_zero(a: int, d: int) -> int {
    if a >= 0 { a / d } else { -((-a) / d) }
}

/// `v / 2`, rounding toward zero.
fn half(v: i128) -> (r: i128)
    requires
        within_i(v, raw_bound()),
    ensures
        r == div_toward_zero(v as int, 2),
        within_i(r, raw_bound()),
{
    v / 2
}

/// `v / 6`, rounding toward zero.
fn sixth(v: i128) -> (r: i128)
    requires
        within_i(v, raw_bound()),
    ensures
        r == div_toward_zero(v as int, 6),
        within_i(r, raw_bound()),
{
    v / 6
}

/// Solve the linear system for the eleven 4-node orbits of one root from its tallies.
fn solve_orbits(deg_x: i128, a: &Vec<i128>, b: &Vec<i128>, f14: i128) -> (row: Vec<i128>)
    requires
        a@.len() == 8,
        b@.len() == 5,
        forall|i: int| 0 <= i < 8 ==> within_i(#[trigger] a@[i], 0x2_0000_0000_0000 * step_bound()),
        forall|i: int| 0 <= i < 5 ==> within_i(#[trigger] b@[i], 0x1_0000_0000_0000 * step_bound()),
        0 <= f14 <= 0x4_0000_0000_0000_0000_0000_0000,
        0 <= deg_x <= FAST_MAX_NODES,
    ensures
        row@.len() == FAST_ORBIT_COUNT,
        row@[0] == deg_x,
        forall|o: int| 0 <= o < FAST_ORBIT_COUNT ==> within_i(#[trigger] row@[o], raw_bound()),
{
    let (f12_14, f10_13, f13_14, f11_13, f7_11, f5_8, orbit2, orbit3) = (a[0], a[1], a[2], a[3], a[4], a[5], a[6], a[7]);
    let (f6_9, f9_12, f4_8, f8_12, orbit1) = (b[0], b[1], b[2], b[3], b[4]);
    proof {
        assert(within_i(a@[0], 0x2_0000_0000_0000 * step_bound()));
        assert(within_i(a@[1], 0x2_0000_0000_0000 * step_bound()));
        assert(within_i(a@[2], 0x2_0000_0000_0000 * step_bound()));
        assert(within_i(a@[3], 0x2_0000_0000_0000 * step_bound()));
        assert(within_i(a@[4], 0x2_0000_0000_0000 * step_bound()));
        assert(within_i(a@[5], 0x2_0000_0000_0000 * step_bound()));
        assert(within_i(a@[6], 0x2_0000_0000_0000 * step_bound()));
        assert(within_i(a@[7], 0x2_0000_0000_0000 * step_bound()));
        assert(within_i(b@[0], 0x1_0000_0000_0000 * step_bound()));
        assert(within_i(b@[1], 0x1_0000_0000_0000 * step_bound()));
        assert(within_i(b@[2], 0x1_0000_0000_0000 * step_bound()));
        assert(within_i(b@[3], 0x1_0000_0000_0000 * step_bound()));
        assert(within_i(b@[4], 0x1_0000_0000_0000 * step_bound()));
    }
    let orbit14 = f14;
    let orbit13 = half(f13_14 - 6 * f14);
    let orbit12 = f12_14 - 3 * f14;
    let orbit11 = half(f11_13 - f13_14 + 6 * f14);
    let orbit10 = f10_13 - f13_14 + 6 * f14;
    let orbit9 = half(f9_12 - 2 * f12_14 + 6 * f14);
    let orbit8 = half(f8_12 - 2 * f12_14 + 6 * f14);
    let orbit7 = sixth(f13_14 + f7_11 - f11_13 - 6 * f14);
    let orbit6 = half(2 * f12_14 + f6_9 - f9_12 - 6 * f14);
    let orbit5 = 2 * f12_14 + f5_8 - f8_12 - 6 * f14;
    let orbit4 = 2 * f12_14 + f4_8 - f8_12 - 6 * f14;
    vec![
        deg_x, orbit1, orbit2, orbit3, orbit4, orbit5, orbit6, orbit7, orbit8, orbit9, orbit10,
        orbit11, orbit12, orbit13, orbit14,
    ]
}

/// Raw per-vertex orbit counts for orders `2..=4` in the equation system's own slot
/// order: slot 0 the edge orbit, slots 1..=3 the path end, path center and triangle,
/// slots 4..=14 the eleven 4-node orbits, solved from the per-vertex tallies of
/// triangles, open wedges, paths and K4s.
fn raw_orbit_counts<N>(g: &Snapshot<N>) -> (out: Vec<Vec<i128>>)
    requires
        g.ids().len() <= FAST_MAX_NODES,
    ensures
        out@.len() == g.ids().len(),
        forall|x: int| 0 <= x < out@.len() ==> (#[trigger] out@[x])@.len() == FAST_ORBIT_COUNT,
        forall|x: int| 0 <= x < out@.len() ==> (#[trigger] out@[x])@[0] == g.graph()[x].len(),
        forall|x: int, o: int| 0 <= x < out@.len() && 0 <= o < FAST_ORBIT_COUNT ==> within_i(#[trigger] out@[x]@[o], raw_bound()),
{
    let n = graph_facts(g);
    let tri = edge_triangle_counts(g);
    let c4 = k4_counts(g);
    let mut out: Vec<Vec<i128>> = Vec::new();
    let mut common: Vec<u64> = Vec::new();
    let mut i0: usize = 0;
    while i0 < n
        invariant
            i0 <= n,
            common@.len() == i0,
            forall|w: int| 0 <= w < i0 ==> (#[trigger] common@[w]) == 0,
        decreases n - i0,
    {
        common.push(0);
        i0 += 1;
    }
    let mut x: usize = 0;
    while x < n
        invariant
            snap_ok(*g, n),
            tri_ok(*g, tri@),
            c4@.len() == n,
            forall|v: int| 0 <= v < n ==> (#[trigger] c4@[v]) <= 0x4_0000_0000_0000_0000_0000_0000,
            common@.len() == n,
            forall|w: int| 0 <= w < n ==> (#[trigger] common@[w]) == 0,
            x <= n,
            out@.len() == x,
            forall|a: int| 0 <= a < x ==> (#[trigger] out@[a])@.len() == FAST_ORBIT_COUNT,
            forall|a: int| 0 <= a < x ==> (#[trigger] out@[a])@[0] == g.graph()[a].len(),
            forall|a: int, o: int| 0 <= a < x && 0 <= o < FAST_ORBIT_COUNT ==> within_i(#[trigger] out@[a]@[o], raw_bound()),
        decreases n - x,
    {
        let mut touched: Vec<usize> = Vec::new();
        let a = wedge_tallies(g, &tri, n, x, &mut common, &mut touched);
        let b = path_tallies(g, &tri, n, x, &common);
        let deg_x = g.neighbors(x).len() as i128;
        let row = solve_orbits(deg_x, &a, &b, c4[x] as i128);
        out.push(row);
        clear_tallies(&mut common, &touched, Ghost(n as nat));
        x += 1;
    }
    out
}

// ---------------------------------------------------------------------------
// Order 5: connected 4-node cores and their attachments
// ---------------------------------------------------------------------------

/// The pair mask of five nodes `0..5` whose first four carry the pair mask `core` of
/// four nodes and whose fifth links to the core nodes set in `attach`: pairs
/// `(0,1), (0,2), (0,3), (0,4), (1,2), (1,3), (1,4), (2,3), (2,4), (3,4)` in bit order.
pub open spec fn five_mask_of(core: nat, attach: nat) -> nat {
    (core % 2) + 2 * ((core / 2) % 2) + 4 * ((core / 4) % 2) + 8 * (attach % 2)
        + 16 * ((core / 8) % 2) + 32 * ((core / 16) % 2) + 64 * ((attach / 2) % 2)
        + 128 * ((core / 32) % 2) + 256 * ((attach / 4) % 2) + 512 * ((attach / 8) % 2)
}

/// The 5-node graph made of a 4-node core and a fifth node, as a mask over the pair
/// order of five nodes: the core's pairs `(0,1), (0,2), (0,3), (1,2), (1,3), (2,3)` are
/// bits `0..6` of `core`, and the fifth node's links to core nodes `0..4` are the bits
/// of `attach`.
fn five_mask(core: u64, attach: u64) -> (m: u64)
    requires
        core < 64,
        attach < 16,
    ensures
        m == five_mask_of(core as nat, attach as nat),
        m < 1024,
{
    let m = (core & 1) | ((core >> 1) & 1) << 1 | ((core >> 2) & 1) << 2 | (attach & 1) << 3
        | ((core >> 3) & 1) << 4 | ((core >> 4) & 1) << 5 | ((attach >> 1) & 1) << 6
        | ((core >> 5) & 1) << 7 | ((attach >> 2) & 1) << 8 | ((attach >> 3) & 1) << 9;
    assert(m < 1024 && m == (core % 2) + 2 * ((core / 2) % 2) + 4 * ((core / 4) % 2) + 8 * (attach % 2)
        + 16 * ((core / 8) % 2) + 32 * ((core / 16) % 2) + 64 * ((attach / 2) % 2)
        + 128 * ((core / 32) % 2) + 256 * ((attach / 4) % 2) + 512 * ((attach / 8) % 2)) by (bit_vector)
        requires
            core < 64,
            attach < 16,
            m == (core & 1) | ((core >> 1) & 1) << 1 | ((core >> 2) & 1) << 2 | (attach & 1) << 3
                | ((core >> 3) & 1) << 4 | ((core >> 4) & 1) << 5 | ((attach >> 1) & 1) << 6
                | ((core >> 5) & 1) << 7 | ((attach >> 2) & 1) << 8 | ((attach >> 3) & 1) << 9;
    m
}

/// The one-edge graph on two nodes is connected.
proof fn lemma_edge_connected()
    ensures
        connected_set(below(2), class_adj(1, 2)),
{
    let adj = class_adj(1nat, 2nat);
    lemma2_to64();
    assert(crate::model::pairs_upto(2, 0) =~= Seq::<(usize, usize)>::empty());
    assert(crate::model::pair_index(2, 0, 1) == 0);
    assert(pow2(0) == 1);
    assert((1nat / pow2(0)) % 2 == 1);
    assert(crate::canonical::mask_bit(1, 0));
    assert(adj(0, 1));
    assert(crate::model::symmetric(adj)) by {
        assert forall|i: usize, j: usize| #[trigger] adj(i, j) == adj(j, i) by {}
    }
    assert forall|i: usize| 0 < i < 2 implies #[trigger] crate::catalog::has_parent(adj, i) by {
        assert(adj(0, i));
    }
    crate::catalog::lemma_connected_by_parents(2, adj);
}

/// The registry orbit of each vertex of the `k`-node graph with pair mask `mask`, or
/// `usize::MAX` for every vertex when that graph is disconnected.
fn vertex_orbits(reg: &Registry, ps: &Vec<Vec<usize>>, k: usize, mask: u64) -> (r: Vec<usize>)
    requires
        2 <= k <= 5,
        all_perms(ps.deep_view(), k as nat),
        mask < pow2(pair_seq(k as nat).len()),
    ensures
        r@.len() == k,
        forall|p: int| 0 <= p < k ==> (#[trigger] r@[p]) < reg.orbits().len() && reg.orbits()[r@[p] as int].0 == k || r@[p] == usize::MAX,
        connected_set(below(k as nat), class_adj(mask as nat, k as nat)) ==> forall|p: int| 0 <= p < k ==> (#[trigger] r@[p]) < reg.orbits().len(),
{
    let adj = class_to_adj(mask, k);
    let mut r: Vec<usize> = Vec::new();
    let mut p: usize = 0;
    while p < k
        invariant
            p <= k,
            r@.len() == p,
            forall|q: int| 0 <= q < p ==> (#[trigger] r@[q]) == usize::MAX,
        decreases k - p,
    {
        r.push(usize::MAX);
        p += 1;
    }
    if connected(&adj) {
        let ghost f = class_adj(mask as nat, k as nat);
        let is_adj = |i: usize, j: usize| -> (b: bool)
            requires
                i < k,
                j < k,
                adj@.len() == k,
            ensures
                b == list_adj(adj.deep_view())(i, j),
        {
            proof { assert(adj.deep_view()[i as int] == adj@[i as int]@); }
            vec_contains(&adj[i], j)
        };
        proof {
            assert forall|a: usize, b: usize, v: bool| a < k && b < k && #[trigger] is_adj.ensures((a, b), v) implies v == f(a, b) by {}
        }
        let (class, arg) = canonical_arg_fn(k, ps, is_adj, Ghost(f));
        proof {
            assert(connected_set(below(k as nat), class_adj(mask as nat, k as nat)));
            assert(is_connected_class(k as nat, class as nat));
        }
        let slots = reg.slots_for(k, class);
        let mut c: usize = 0;
        while c < k
            invariant
                2 <= k <= 5,
                c <= k,
                r@.len() == k,
                is_perm(arg@, k as nat),
                slots@.len() == k,
                forall|t: int| 0 <= t < k ==> #[trigger] slots@[t] < reg.orbits().len() && reg.orbits()[slots@[t] as int].0 == k,
                forall|q: int| 0 <= q < k ==> (#[trigger] r@[q]) < reg.orbits().len() && reg.orbits()[r@[q] as int].0 == k || r@[q] == usize::MAX,
                forall|t: int| 0 <= t < c ==> (#[trigger] r@[arg@[t] as int]) < reg.orbits().len(),
            decreases k - c,
        {
            let pos = arg[c];
            r.set(pos, slots[c]);
            proof {
                assert forall|t: int| 0 <= t < c + 1 implies (#[trigger] r@[arg@[t] as int]) < reg.orbits().len() by {
                    assert(arg@[t] < k);
                }
            }
            c += 1;
        }
        proof {
            crate::model::lemma_inverse(arg@, k as nat);
            assert forall|p: int| 0 <= p < k implies (#[trigger] r@[p]) < reg.orbits().len() by {
                let t = crate::model::inverse(arg@, k as nat)[p] as int;
                assert(arg@[t] == p);
                assert(r@[arg@[t] as int] < reg.orbits().len());
            }
        }
    }
    r
}

/// The vertex of `0..5` at position `i` once `w` is left out.
pub open spec fn skip(w: usize, i: usize) -> usize {
    if i < w { i } else { (i + 1) as usize }
}

/// The graph `adj` on five nodes with node `w` removed, its other nodes relabelled
/// `0..4` in order; each pair is read from the neighbour list of its smaller node.
pub open spec fn without_rel(adj: Seq<Seq<usize>>, w: usize) -> spec_fn(usize, usize) -> bool {
    |i: usize, j: usize| i < 4 && j < 4 && i != j && (if i < j {
        adj[skip(w, i) as int].contains(skip(w, j))
    } else {
        adj[skip(w, j) as int].contains(skip(w, i))
    })
}

/// Whether the graph `adj` on five nodes stays connected once node `w` is removed.
fn connected_without(adj: &Vec<Vec<usize>>, w: usize) -> (r: bool)
    requires
        adj@.len() == 5,
        w < 5,
    ensures
        r == connected_set(below(4), without_rel(adj.deep_view(), w)),
{
    let ghost rel = without_rel(adj.deep_view(), w);
    let mut sub: Vec<Vec<usize>> = Vec::new();
    let mut a: usize = 0;
    while a < 4
        invariant
            a <= 4,
            adj@.len() == 5,
            w < 5,
            rel == without_rel(adj.deep_view(), w),
            sub@.len() == a,
            forall|x: int, c: usize| 0 <= x < a ==> ((#[trigger] sub@[x]@.contains(c)) <==> rel(x as usize, c)),
            forall|x: int| 0 <= x < a ==> (#[trigger] sub@[x]@).no_duplicates(),
            forall|x: int, t: int| 0 <= x < a && 0 <= t < sub@[x]@.len() ==> (#[trigger] sub@[x]@[t]) < 4,
        decreases 4 - a,
    {
        let mut row: Vec<usize> = Vec::new();
        let mut b: usize = 0;
        while b < 4
            invariant
                a < 4,
                b <= 4,
                adj@.len() == 5,
                w < 5,
                rel == without_rel(adj.deep_view(), w),
                forall|c: usize| (#[trigger] row@.contains(c)) <==> (c < b && rel(a, c)),
                row@.no_duplicates(),
                forall|t: int| 0 <= t < row@.len() ==> (#[trigger] row@[t]) < b,
            decreases 4 - b,
        {
            if b != a {
                let (lo, hi) = if a < b { (a, b) } else { (b, a) };
                let u = if lo < w { lo } else { lo + 1 };
                let v = if hi < w { hi } else { hi + 1 };
                proof { assert(adj.deep_view()[u as int] == adj@[u as int]@); }
                if vec_contains(&adj[u], v) {
                    let ghost r0 = row@;
                    proof {
                        assert forall|t: int| 0 <= t < row@.len() implies row@[t] != b by {}
                    }
                    row.push(b);
                    proof {
                        assert forall|c: usize| (#[trigger] row@.contains(c)) <==> (c < b + 1 && rel(a, c)) by {
                            if row@.contains(c) && c != b {
                                let t = choose|t: int| 0 <= t < row@.len() && row@[t] == c;
                                assert(r0.contains(c)) by { assert(row@[t] == c); assert(r0[t] == c); }
                            }
                            if c == b { assert(row@[row@.len() - 1] == b); }
                            if c < b && rel(a, c) {
                                assert(r0.contains(c));
                                let t = choose|t: int| 0 <= t < r0.len() && r0[t] == c;
                                assert(row@[t] == c);
                            }
                        }
                    }
                }
            }
            b += 1;
        }
        sub.push(row);
        proof {
            assert forall|x: int, c: usize| 0 <= x < a + 1 implies ((#[trigger] sub@[x]@.contains(c)) <==> rel(x as usize, c)) by {
                if x == a as int { assert(sub@[x] == row); }
            }
        }
        a += 1;
    }
    let ghost dv = sub.deep_view();
    proof {
        assert forall|x: int| 0 <= x < 4 implies #[trigger] dv[x] == sub@[x]@ by {}
        assert forall|i: usize, j: usize| #[trigger] list_adj(dv)(i, j) == rel(i, j) by {
            if i < 4 {
                assert(dv[i as int] == sub@[i as int]@);
            }
        }
        assert(list_adj(dv) =~= rel);
        assert(lists_wf(dv)) by {
            assert forall|i: usize, j: usize| #[trigger] list_adj(dv)(i, j) == list_adj(dv)(j, i) by {
                assert(list_adj(dv)(i, j) == rel(i, j));
                assert(list_adj(dv)(j, i) == rel(j, i));
            }
            assert forall|x: int| 0 <= x < dv.len() implies (#[trigger] dv[x]).no_duplicates() by {
                assert(dv[x] == sub@[x]@);
            }
            assert forall|x: int, t: int| 0 <= x < dv.len() && 0 <= t < dv[x].len() implies (#[trigger] dv[x][t]) < dv.len() by {
                assert(dv[x] == sub@[x]@);
            }
        }
    }
    connected(&sub)
}

/// The order-5 decomposition tables: for every (core structure, attachment) the
/// registry orbit of each of the four core positions in the 5-node graph they make
/// (`usize::MAX` where that graph is disconnected), and for every registry orbit its
/// core multiplicity.
struct FiveTable {
    orbit_of_pos: Vec<Vec<usize>>,
    mult: Vec<u64>,
}

impl FiveTable {
    spec fn wf(&self, m: nat) -> bool {
        &&& self.orbit_of_pos@.len() == 1024
        &&& forall|i: int| 0 <= i < 1024 ==> (#[trigger] self.orbit_of_pos@[i])@.len() == 4
        &&& self.mult@.len() == m
    }
}

/// Build the order-5 decomposition tables from the registry.
fn build_five_table(reg: &Registry) -> (t: FiveTable)
    ensures
        t.wf(reg.orbits().len()),
{
    let ps = perms(5);
    proof {
        lemma_pair_seq_len(5);
        lemma2_to64();
    }
    let mut table: Vec<Vec<usize>> = Vec::new();
    let mut idx: u64 = 0;
    while idx < 1024
        invariant
            idx <= 1024,
            table@.len() == idx,
            all_perms(ps.deep_view(), 5),
            pair_seq(5).len() == 10,
            pow2(10) == 1024,
            forall|i: int| 0 <= i < idx ==> (#[trigger] table@[i])@.len() == 4,
        decreases 1024 - idx,
    {
        let core = idx >> 4;
        let attach = idx & 15;
        assert(core < 64 && attach < 16) by (bit_vector)
            requires
                idx < 1024,
                core == idx >> 4,
                attach == idx & 15;
        let mask = five_mask(core, attach);
        let orbits = vertex_orbits(reg, &ps, 5, mask);
        let entry: Vec<usize> = vec![orbits[0], orbits[1], orbits[2], orbits[3]];
        table.push(entry);
        idx += 1;
    }
    let m = reg.orbit_count();
    let mut mult: Vec<u64> = Vec::new();
    let mut i: usize = 0;
    while i < m
        invariant
            i <= m,
            mult@.len() == i,
        decreases m - i,
    {
        mult.push(0);
        i += 1;
    }
    let classes = all_connected_classes(5);
    let mut ci: usize = 0;
    while ci < classes.len()
        invariant
            ci <= classes@.len(),
            mult@.len() == m,
            m == reg.orbits().len(),
            forall|c: u64| #[trigger] classes@.contains(c) <==> is_connected_class(5, c as nat),
        decreases classes@.len() - ci,
    {
        let class = classes[ci];
        proof { assert(classes@.contains(class)); }
        let adj = class_to_adj(class, 5);
        let slots = reg.slots_for(5, class);
        let mut c: usize = 0;
        while c < 5
            invariant
                c <= 5,
                mult@.len() == m,
                m == reg.orbits().len(),
                adj@.len() == 5,
                slots@.len() == 5,
                forall|t: int| 0 <= t < 5 ==> #[trigger] slots@[t] < reg.orbits().len(),
            decreases 5 - c,
        {
            let mut cnt: u64 = 0;
            let mut w: usize = 0;
            while w < 5
                invariant
                    w <= 5,
                    cnt <= w,
                    adj@.len() == 5,
                decreases 5 - w,
            {
                if w != c && connected_without(&adj, w) {
                    cnt += 1;
                }
                w += 1;
            }
            mult.set(slots[c], cnt);
            c += 1;
        }
        ci += 1;
    }
    FiveTable { orbit_of_pos: table, mult }
}

/// Tallies, for every visited connected 4-node core, the outside vertices attached to
/// it by their adjacency pattern, and credits each core node's order-5 orbit.
struct FiveSink<'a> {
    adj: &'a Adjacency,
    table: &'a FiveTable,
    n: usize,
    m: usize,
    rows: Vec<u64>,
    stamp: Vec<u32>,
    generation: u32,
    cap: Ghost<nat>,
    seen: Ghost<Seq<Seq<usize>>>,
}

impl<'a> FiveSink<'a> {
    spec fn wf(&self) -> bool {
        &&& self.adj.wf()
        &&& simple_graph(self.adj.graph())
        &&& self.n == self.adj.lists@.len()
        &&& forall|a: int| 0 <= a < self.n ==> (#[trigger] self.adj.graph()[a]).len() <= self.n
        &&& self.table.wf(self.m as nat)
        &&& self.rows@.len() == self.n * self.m
        &&& self.n * self.m <= usize::MAX
        &&& self.stamp@.len() == self.n
        &&& self.generation < u32::MAX
        &&& self.seen@.len() <= self.cap@
        &&& self.cap@ * 256 * self.n <= u64::MAX
        &&& forall|i: int| 0 <= i < self.n * self.m ==> #[trigger] self.rows@[i] <= self.seen@.len() * 256 * self.n
    }
}

proof fn lemma_adds(a: int, n: int)
    requires
        0 <= a,
        0 <= n,
    ensures
        (a + 1) * (4 * n) == a * (4 * n) + 4 * n,
        a <= 64 ==> a * (4 * n) <= 256 * n,
{
    assert((a + 1) * (4 * n) == a * (4 * n) + 4 * n) by (nonlinear_arith);
    assert(a <= 64 ==> a * (4 * n) <= 256 * n) by (nonlinear_arith)
        requires 0 <= n;
}

proof fn lemma_budget(s: nat, n: nat, cap: nat)
    requires
        s < cap,
        cap * 256 * n <= u64::MAX,
    ensures
        s * 256 * n + 256 * n == (s + 1) * 256 * n,
        (s + 1) * 256 * n <= u64::MAX,
{
    assert(s * 256 * n + 256 * n == (s + 1) * 256 * n) by (nonlinear_arith);
    assert((s + 1) * 256 * n <= cap * 256 * n) by (nonlinear_arith)
        requires s < cap;
}

impl<'a> SubsetSink for FiveSink<'a> {
    type Params = (Seq<Seq<usize>>, usize, usize, nat);

    closed spec fn params(&self) -> (Seq<Seq<usize>>, usize, usize, nat) {
        (self.adj.graph(), self.n, self.m, self.cap@)
    }

    closed spec fn admits(&self, q: Seq<usize>) -> bool {
        valid_out(self.adj.graph(), 4, q)
    }

    closed spec fn room(&self) -> nat {
        if self.wf() { (self.cap@ - self.seen@.len()) as nat } else { 0 }
    }

    closed spec fn seen(&self) -> Seq<Seq<usize>> {
        self.seen@
    }

    fn visit(&mut self, q: &Vec<usize>) {
        let ghost s0 = self.seen@;
        let ghost n = self.n as nat;
        let ghost bound: int = (s0.len() * 256 * n) as int;
        proof {
            assert(self.wf());
            self.adj.lemma_graph();
            lemma_budget(s0.len(), n, self.cap@);
            assert(q@.len() == 4);
            assert(forall|t: int| 0 <= t < 4 ==> (#[trigger] q@[t]) < self.n);
            assert(self.n * 256 <= u64::MAX) by (nonlinear_arith)
                requires self.cap@ * 256 * self.n <= u64::MAX, self.cap@ >= 1;
        }
        let core = core_structure(self.adj, q);
        let gen = fresh_stamp(&mut self.stamp, self.generation);
        self.generation = gen;
        let counts = attachment_counts(self.adj, &mut self.stamp, gen, q, self.n);
        credit(&mut self.rows, self.table, &counts, q, core, self.n, self.m, Ghost(bound));
        self.seen = Ghost(s0.push(q@));
    }
}

/// `1` when `b` holds, else `0`.
pub open spec fn bit_of(b: bool) -> nat {
    if b { 1 } else { 0 }
}

/// The pair mask of the four listed nodes: bit `0..6` for the pairs `(0,1), (0,2),
/// (0,3), (1,2), (1,3), (2,3)`, set where the pair is adjacent in `g`.
pub open spec fn core_mask(g: Seq<Seq<usize>>, q: Seq<usize>) -> nat {
    bit_of(g[q[0] as int].contains(q[1])) + 2 * bit_of(g[q[0] as int].contains(q[2]))
        + 4 * bit_of(g[q[0] as int].contains(q[3])) + 8 * bit_of(g[q[1] as int].contains(q[2]))
        + 16 * bit_of(g[q[1] as int].contains(q[3])) + 32 * bit_of(g[q[2] as int].contains(q[3]))
}

/// The induced structure of a 4-node core, in the pair order of four nodes.
fn core_structure(adj: &Adjacency, q: &Vec<usize>) -> (core: u64)
    requires
        adj.wf(),
        q@.len() == 4,
        forall|t: int| 0 <= t < 4 ==> (#[trigger] q@[t]) < adj.lists@.len(),
    ensures
        core == core_mask(adj.graph(), q@),
        core < 64,
{
    let (c0, c1, c2, c3) = (q[0], q[1], q[2], q[3]);
    let mut core: u64 = 0;
    if adj.adjacent(c0, c1) { core = core + 1; }
    if adj.adjacent(c0, c2) { core = core + 2; }
    if adj.adjacent(c0, c3) { core = core + 4; }
    if adj.adjacent(c1, c2) { core = core + 8; }
    if adj.adjacent(c1, c3) { core = core + 16; }
    if adj.adjacent(c2, c3) { core = core + 32; }
    core
}

/// A stamp value no entry of `stamp` holds yet, refreshing the stamps on wraparound.
fn fresh_stamp(stamp: &mut Vec<u32>, generation: u32) -> (gen: u32)
    requires
        generation < u32::MAX,
    ensures
        final(stamp)@.len() == old(stamp)@.len(),
        gen < u32::MAX,
        gen == (if generation == u32::MAX - 1 { 0 } else { generation + 1 }),
        generation == u32::MAX - 1 ==> forall|s: int| 0 <= s < final(stamp)@.len() ==> #[trigger] final(stamp)@[s] == u32::MAX - 1,
        generation != u32::MAX - 1 ==> final(stamp)@ == old(stamp)@,
{
    if generation == u32::MAX - 1 {
        let mut s: usize = 0;
        while s < stamp.len()
            invariant
                s <= stamp@.len(),
                stamp@.len() == old(stamp)@.len(),
                forall|t: int| 0 <= t < s ==> #[trigger] stamp@[t] == u32::MAX - 1,
            decreases stamp@.len() - s,
        {
            stamp.set(s, u32::MAX - 1);
            s += 1;
        }
        0
    } else {
        generation + 1
    }
}

/// Tally every vertex outside the core `q` that is adjacent to it by its adjacency
/// pattern to the four core nodes (bit `i` for core node `i`).
fn attachment_counts(adj: &Adjacency, stamp: &mut Vec<u32>, gen: u32, q: &Vec<usize>, n: usize) -> (counts: Vec<u64>)
    requires
        adj.wf(),
        n == adj.lists@.len(),
        old(stamp)@.len() == n,
        q@.len() == 4,
        forall|t: int| 0 <= t < 4 ==> (#[trigger] q@[t]) < n,
        forall|a: int| 0 <= a < n ==> (#[trigger] adj.graph()[a]).len() <= n,
        n * 256 <= u64::MAX,
    ensures
        final(stamp)@.len() == n,
        counts@.len() == 16,
        forall|t: int| 0 <= t < 16 ==> #[trigger] counts@[t] <= 4 * n,
{
    proof { adj.lemma_graph(); }
    let (c0, c1, c2, c3) = (q[0], q[1], q[2], q[3]);
    stamp.set(c0, gen);
    stamp.set(c1, gen);
    stamp.set(c2, gen);
    stamp.set(c3, gen);
    let mut counts: Vec<u64> = vec![0u64; 16];
    let mut ci: usize = 0;
    while ci < 4
        invariant
            ci <= 4,
            counts@.len() == 16,
            forall|t: int| 0 <= t < 16 ==> #[trigger] counts@[t] <= ci * n,
            stamp@.len() == n,
            n == adj.lists@.len(),
            adj.wf(),
            q@.len() == 4,
            forall|t: int| 0 <= t < 4 ==> (#[trigger] q@[t]) < n,
            forall|a: int| 0 <= a < n ==> (#[trigger] adj.graph()[a]).len() <= n,
            forall|a: int, t: int| 0 <= a < adj.graph().len() && 0 <= t < adj.graph()[a].len() ==> (#[trigger] adj.graph()[a][t]) < adj.graph().len(),
            adj.graph().len() == n,
            n * 256 <= u64::MAX,
            c0 == q@[0], c1 == q@[1], c2 == q@[2], c3 == q@[3],
        decreases 4 - ci,
    {
        let c = q[ci];
        let nb = adj.neighbors(c);
        let mut t: usize = 0;
        while t < nb.len()
            invariant
                t <= nb@.len(),
                nb@ == adj.graph()[c as int],
                nb@.len() <= n,
                counts@.len() == 16,
                forall|s: int| 0 <= s < 16 ==> #[trigger] counts@[s] <= ci * n + t,
                stamp@.len() == n,
                n == adj.lists@.len(),
                adj.wf(),
                forall|s: int| 0 <= s < 4 ==> (#[trigger] q@[s]) < n,
                q@.len() == 4,
                forall|a: int, s: int| 0 <= a < adj.graph().len() && 0 <= s < adj.graph()[a].len() ==> (#[trigger] adj.graph()[a][s]) < adj.graph().len(),
                adj.graph().len() == n,
                c < n,
                ci < 4,
                n * 256 <= u64::MAX,
                c0 == q@[0], c1 == q@[1], c2 == q@[2], c3 == q@[3],
            decreases nb@.len() - t,
        {
            let u = nb[t];
            proof { assert(adj.graph()[c as int][t as int] == u); }
            if stamp[u] != gen {
                stamp.set(u, gen);
                let mut all: usize = 0;
                if adj.adjacent(u, c0) { all = all | 1; }
                if adj.adjacent(u, c1) { all = all | 2; }
                if adj.adjacent(u, c2) { all = all | 4; }
                if adj.adjacent(u, c3) { all = all | 8; }
                let mask = all & 15;
                assert(mask < 16) by (bit_vector)
                    requires
                        mask == all & 15;
                let cur = counts[mask];
                counts.set(mask, cur + 1);
            }
            t += 1;
        }
        proof {
            assert(ci * n + n == (ci + 1) * n) by (nonlinear_arith);
        }
        ci += 1;
    }
    counts
}

/// What the first `s` credit steps add to cell `i`: step `s` credits the tally of
/// attachment pattern `1 + s / 4` to core position `s % 4`, in the orbit the table gives
/// that position, when that orbit is one of the `m` registry orbits.
spec fn credit_gain(t: FiveTable, counts: Seq<u64>, q: Seq<usize>, core: u64, m: nat, i: int, s: int) -> nat
    decreases s,
{
    if s <= 0 {
        0
    } else {
        let attach = 1 + (s - 1) / 4;
        let pos = (s - 1) % 4;
        let o = t.orbit_of_pos@[core * 16 + attach]@[pos];
        credit_gain(t, counts, q, core, m, i, s - 1) + (if o < m && q[pos] * m + o == i { counts[attach] as nat } else { 0 })
    }
}

/// Credit each core node's order-5 orbit with the tally of every attachment pattern.
fn credit(rows: &mut Vec<u64>, table: &FiveTable, counts: &Vec<u64>, q: &Vec<usize>, core: u64, n: usize, m: usize, Ghost(bound): Ghost<int>)
    requires
        table.wf(m as nat),
        old(rows)@.len() == n * m,
        n * m <= usize::MAX,
        counts@.len() == 16,
        forall|t: int| 0 <= t < 16 ==> #[trigger] counts@[t] <= 4 * n,
        q@.len() == 4,
        forall|t: int| 0 <= t < 4 ==> (#[trigger] q@[t]) < n,
        core < 64,
        0 <= bound,
        bound + 256 * n <= u64::MAX,
        forall|i: int| 0 <= i < n * m ==> #[trigger] old(rows)@[i] <= bound,
    ensures
        final(rows)@.len() == n * m,
        forall|i: int| 0 <= i < n * m ==> #[trigger] final(rows)@[i] == old(rows)@[i] + credit_gain(*table, counts@, q@, core, m as nat, i, 60),
        forall|i: int| 0 <= i < n * m ==> #[trigger] final(rows)@[i] <= bound + 256 * n,
{
    let ghost r0 = rows@;
    let base = core << 4;
    let ghost mut adds: int = 0;
    let mut attach: u64 = 1;
    while attach < 16
        invariant
            1 <= attach <= 16,
            core < 64,
            base == core << 4,
            counts@.len() == 16,
            forall|t: int| 0 <= t < 16 ==> #[trigger] counts@[t] <= 4 * n,
            table.wf(m as nat),
            rows@.len() == n * m,
            r0.len() == n * m,
            n * m <= usize::MAX,
            q@.len() == 4,
            forall|t: int| 0 <= t < 4 ==> (#[trigger] q@[t]) < n,
            0 <= bound,
            bound + 256 * n <= u64::MAX,
            0 <= adds <= (attach - 1) * 4,
            forall|i: int| 0 <= i < n * m ==> #[trigger] rows@[i] <= bound + adds * (4 * n),
            forall|i: int| 0 <= i < n * m ==> #[trigger] rows@[i] == r0[i] + credit_gain(*table, counts@, q@, core, m as nat, i, (attach - 1) * 4),
        decreases 16 - attach,
    {
        let cnt = counts[attach as usize];
        assert(base | attach < 1024 && base | attach == core * 16 + attach) by (bit_vector)
            requires
                core < 64,
                base == core << 4,
                attach < 16;
        let idx = (base | attach) as usize;
        let orbits = &table.orbit_of_pos[idx];
        let mut pos: usize = 0;
        while pos < 4
            invariant
                pos <= 4,
                1 <= attach < 16,
                core < 64,
                idx == core * 16 + attach,
                orbits@ == table.orbit_of_pos@[idx as int]@,
                orbits@.len() == 4,
                cnt == counts@[attach as int],
                counts@.len() == 16,
                q@.len() == 4,
                forall|t: int| 0 <= t < 4 ==> (#[trigger] q@[t]) < n,
                rows@.len() == n * m,
                r0.len() == n * m,
                n * m <= usize::MAX,
                cnt <= 4 * n,
                0 <= bound,
                bound + 256 * n <= u64::MAX,
                0 <= adds <= (attach - 1) * 4 + pos,
                forall|i: int| 0 <= i < n * m ==> #[trigger] rows@[i] <= bound + adds * (4 * n),
                forall|i: int| 0 <= i < n * m ==> #[trigger] rows@[i] == r0[i] + credit_gain(*table, counts@, q@, core, m as nat, i, (attach - 1) * 4 + pos),
            decreases 4 - pos,
        {
            let node = q[pos];
            let o = orbits[pos];
            let ghost s = (attach - 1) * 4 + pos;
            proof {
                lemma_adds(adds, n as int);
                lemma_adds(adds + 1, n as int);
                assert(s / 4 == attach - 1 && s % 4 == pos) by (nonlinear_arith)
                    requires s == (attach - 1) * 4 + pos, 0 <= pos < 4, attach >= 1;
            }
            let ghost before = rows@;
            if o < m {
                proof { lemma_index_bound(node as int, o as int, n as int, m as int); }
                let cell = node * m + o;
                let cur = rows[cell];
                rows.set(cell, cur + cnt);
                proof {
                    assert forall|i: int| 0 <= i < n * m implies #[trigger] rows@[i] == r0[i] + credit_gain(*table, counts@, q@, core, m as nat, i, s + 1) by {
                        assert(before[i] == r0[i] + credit_gain(*table, counts@, q@, core, m as nat, i, s));
                        if i == cell {
                            assert(q@[pos as int] * m + o == i);
                        } else {
                            assert(q@[pos as int] * m + o != i);
                        }
                    }
                }
            } else {
                proof {
                    assert forall|i: int| 0 <= i < n * m implies #[trigger] rows@[i] == r0[i] + credit_gain(*table, counts@, q@, core, m as nat, i, s + 1) by {
                        assert(before[i] == r0[i] + credit_gain(*table, counts@, q@, core, m as nat, i, s));
                    }
                }
            }
            proof { adds = adds + 1; }
            pos += 1;
        }
        attach += 1;
    }
    proof { lemma_adds(adds, n as int); }
}


/// Per-node order-5 orbit counts, row-major over `n` nodes and the registry's orbits:
/// the attachment tallies of every connected 4-node core, each order-5 orbit divided
/// by its core multiplicity. Entries of orbits below order 5 are left zero.
fn five_node_orbit_counts<N>(g: &Snapshot<N>, reg: &Registry, ft: &FiveTable) -> (rows: Vec<u64>)
    requires
        ft.wf(reg.orbits().len()),
        g.ids().len() * reg.orbits().len() <= usize::MAX,
        (esu_all(g.graph(), 4).len() + 1) * 256 * g.ids().len() <= u64::MAX,
    ensures
        rows@.len() == g.ids().len() * reg.orbits().len(),
{
    let n = graph_facts(g);
    let adj = g.adjacency();
    let m = reg.orbit_count();
    let total = n * m;
    let mut rows: Vec<u64> = Vec::new();
    let mut i: usize = 0;
    while i < total
        invariant
            i <= total,
            rows@.len() == i,
            forall|t: int| 0 <= t < i ==> (#[trigger] rows@[t]) == 0,
        decreases total - i,
    {
        rows.push(0);
        i += 1;
    }
    let mut stamp: Vec<u32> = Vec::new();
    let mut i: usize = 0;
    while i < n
        invariant
            i <= n,
            stamp@.len() == i,
        decreases n - i,
    {
        stamp.push(u32::MAX);
        i += 1;
    }
    let ghost gr = adj.graph();
    let ghost cap = (esu_all(gr, 4).len() + 1) as nat;
    let mut sink = FiveSink { adj, table: ft, n, m, rows, stamp, generation: 0, cap: Ghost(cap), seen: Ghost(Seq::empty()) };
    proof {
        adj.lemma_graph();
        assert forall|q: Seq<usize>| valid_out(gr, 4, q) implies #[trigger] sink.admits(q) by {}
        assert(sink.wf());
    }
    for_each_subset(adj, 4, &mut sink);
    proof {
        assert(sink.room() > 0);
        assert(sink.wf());
    }
    let mut rows = sink.rows;
    // divide out the core multiplicity of every order-5 orbit
    let mut x: usize = 0;
    while x < n
        invariant
            x <= n,
            rows@.len() == total,
            total == n * m,
            m == reg.orbits().len(),
            ft.wf(m as nat),
        decreases n - x,
    {
        let mut o: usize = FAST_ORBIT_COUNT;
        while o < m
            invariant
                x < n,
                o <= m || m < FAST_ORBIT_COUNT,
                rows@.len() == total,
                total == n * m,
                m == reg.orbits().len(),
                ft.wf(m as nat),
            decreases m - o,
        {
            let k = ft.mult[o];
            proof { lemma_index_bound(x as int, o as int, n as int, m as int); }
            let cell = x * m + o;
            if k >= 1 {
                let v = rows[cell];
                rows.set(cell, v / k);
            }
            o += 1;
        }
        x += 1;
    }
    rows
}

/// The registry orbit of every slot of the order-`2..=4` equation system, read off a
/// representative graphlet for each slot: `(order, pair mask, vertex)` gives the graph
/// on `order` nodes with that pair mask and the vertex whose orbit the slot counts.
fn fast_slot_orbits(reg: &Registry) -> (map: Vec<usize>)
    ensures
        map@.len() == FAST_ORBIT_COUNT,
        forall|s: int| 0 <= s < FAST_ORBIT_COUNT ==> (#[trigger] map@[s]) < reg.orbits().len() || map@[s] == usize::MAX,
        map@[0] < reg.orbits().len() && reg.orbits()[map@[0] as int].0 == 2,
        forall|s: int| 1 <= s < FAST_ORBIT_COUNT ==> (#[trigger] map@[s]) == usize::MAX
            || (map@[s] < reg.orbits().len() && reg.orbits()[map@[s] as int].0 >= 3),
{
    // slot: edge; path end, path center; triangle; 4-path end, inner; star leaf,
    // center; 4-cycle; paw tail end, paw triangle vertex of degree 2, paw center;
    // diamond vertex of degree 2, of degree 3; K4
    let reps: Vec<(usize, u64, usize)> = vec![
        (2, 1, 0), (3, 5, 0), (3, 5, 1), (3, 7, 0), (4, 41, 0), (4, 41, 1), (4, 7, 1), (4, 7, 0),
        (4, 45, 0), (4, 43, 3), (4, 43, 0), (4, 43, 2), (4, 59, 0), (4, 59, 1), (4, 63, 0),
    ];
    let mut map: Vec<usize> = Vec::new();
    let m_all = reg.orbit_count();
    let mut i: usize = 0;
    while i < reps.len()
        invariant
            m_all == reg.orbits().len(),
            reps@.len() == FAST_ORBIT_COUNT,
            i <= reps@.len(),
            map@.len() == i,
            forall|t: int| 0 <= t < 15 ==> 2 <= (#[trigger] reps@[t]).0 <= 4 && reps@[t].2 < reps@[t].0
                && (reps@[t].0 == 2 ==> reps@[t].1 < 2) && (reps@[t].0 == 3 ==> reps@[t].1 < 8) && reps@[t].1 < 64,
            forall|s: int| 0 <= s < i ==> (#[trigger] map@[s]) < reg.orbits().len() || map@[s] == usize::MAX,
            reps@[0] == (2usize, 1u64, 0usize),
            forall|t: int| 1 <= t < 15 ==> (#[trigger] reps@[t]).0 >= 3,
            i > 0 ==> map@[0] < reg.orbits().len() && reg.orbits()[map@[0] as int].0 == 2,
            forall|s: int| 1 <= s < i ==> (#[trigger] map@[s]) == usize::MAX
                || (map@[s] < reg.orbits().len() && reg.orbits()[map@[s] as int].0 >= 3),
        decreases reps@.len() - i,
    {
        let (k, mask, v) = reps[i];
        let ps = perms(k);
        proof {
            lemma2_to64();
            assert(reps@[i as int] == (k, mask, v));
            if k == 2 {
                lemma_pair_seq_len(2);
                assert(pair_seq(2).len() == 1);
            } else if k == 3 {
                lemma_pair_seq_len(3);
                assert(pair_seq(3).len() == 3);
            } else {
                lemma_pair_seq_len(4);
                assert(pair_seq(4).len() == 6);
            }
        }
        proof {
            if i == 0 {
                lemma_edge_connected();
            }
        }
        let orbits = vertex_orbits(reg, &ps, k, mask);
        proof {
            if i == 0 {
                assert(k == 2 && mask == 1 && v == 0);
                assert(connected_set(below(k as nat), class_adj(mask as nat, k as nat)));
                assert(orbits@[0] < reg.orbits().len());
            }
        }
        let ghost map0 = map@;
        map.push(orbits[v]);
        proof {
            if i > 0 {
                assert(map@[0] == map0[0]);
            }
        }
        i += 1;
    }
    map
}

/// The graphlet-degree vector of every node over all registry orbits (orders
/// `2..=5`), without canonically labelling any 5-node subset: orders `2..=4` from the
/// equation system, order 5 from the connected 4-node cores and their attachments.
/// Column `o` means the same orbit as in [`crate::orbit::graphlet_degree_vectors`].
pub fn fast_graphlet_degree_vectors<N: Copy>(g: &Snapshot<N>, reg: &Registry) -> (r: GdvTable<N>)
    requires
        g.ids().len() <= FAST_MAX_NODES,
        g.ids().len() * reg.orbits().len() <= usize::MAX,
        (esu_all(g.graph(), 4).len() + 1) * 256 * g.ids().len() <= u64::MAX,
    ensures
        r.ids() == g.ids(),
        r.width() == reg.orbits().len(),
        exists|o: int| #[trigger] edge_degree_column(*reg, g.graph(), r, o),
        forall|o: int, x: int| 0 <= o < reg.orbits().len() && reg.orbits()[o].0 == 2 && 0 <= x < g.ids().len()
            ==> #[trigger] r.entry(x, o) == g.graph()[x].len(),
{
    let n = graph_facts(g);
    let m = reg.orbit_count();
    let raw = raw_orbit_counts(g);
    let map = fast_slot_orbits(reg);
    let ft = build_five_table(reg);
    let mut rows = five_node_orbit_counts(g, reg, &ft);
    let ghost o0 = map@[0] as int;
    proof {
        assert forall|s: int| 1 <= s < FAST_ORBIT_COUNT implies (#[trigger] map@[s]) != o0 by {}
    }
    let mut x: usize = 0;
    while x < n
        invariant
            x <= n,
            n == g.ids().len(),
            n == g.graph().len(),
            m == reg.orbits().len(),
            n * m <= usize::MAX,
            rows@.len() == n * m,
            raw@.len() == n,
            forall|a: int| 0 <= a < n ==> (#[trigger] raw@[a])@.len() == FAST_ORBIT_COUNT,
            forall|a: int| 0 <= a < n ==> (#[trigger] raw@[a])@[0] == g.graph()[a].len(),
            map@.len() == FAST_ORBIT_COUNT,
            o0 == map@[0],
            0 <= o0 < m,
            forall|s: int| 1 <= s < FAST_ORBIT_COUNT ==> (#[trigger] map@[s]) != o0,
            forall|a: int| 0 <= a < x ==> #[trigger] rows@[a * m + o0] == g.graph()[a].len(),
            n <= FAST_MAX_NODES,
            forall|a: int| 0 <= a < n ==> (#[trigger] g.graph()[a]).len() <= n,
        decreases n - x,
    {
        let mut s: usize = 0;
        while s < FAST_ORBIT_COUNT
            invariant
                x < n,
                n == g.graph().len(),
                s <= FAST_ORBIT_COUNT,
                n * m <= usize::MAX,
                rows@.len() == n * m,
                raw@.len() == n,
                forall|a: int| 0 <= a < n ==> (#[trigger] raw@[a])@.len() == FAST_ORBIT_COUNT,
                forall|a: int| 0 <= a < n ==> (#[trigger] raw@[a])@[0] == g.graph()[a].len(),
                map@.len() == FAST_ORBIT_COUNT,
                o0 == map@[0],
                0 <= o0 < m,
                forall|s2: int| 1 <= s2 < FAST_ORBIT_COUNT ==> (#[trigger] map@[s2]) != o0,
                forall|a: int| 0 <= a < x ==> #[trigger] rows@[a * m + o0] == g.graph()[a].len(),
                s > 0 ==> rows@[x * m + o0] == g.graph()[x as int].len(),
                n <= FAST_MAX_NODES,
                forall|a: int| 0 <= a < n ==> (#[trigger] g.graph()[a]).len() <= n,
            decreases FAST_ORBIT_COUNT - s,
        {
            let id = map[s];
            if id < m {
                let v = raw[x][s];
                let val: u64 = if v <= 0 { 0 } else if v >= 0xffff_ffff_ffff_ffff { u64::MAX } else { v as u64 };
                proof { lemma_index_bound(x as int, id as int, n as int, m as int); }
                let ghost r0 = rows@;
                rows.set(x * m + id, val);
                proof {
                    assert forall|a: int| 0 <= a < x implies #[trigger] rows@[a * m + o0] == g.graph()[a].len() by {
                        lemma_index_bound(a, o0, n as int, m as int);
                        if a * m + o0 == x * m + id {
                            crate::orbit::lemma_index_unique(a, o0, x as int, id as int, m as int);
                        }
                        assert(rows@[a * m + o0] == r0[a * m + o0]);
                    }
                    if s == 0 {
                        assert(id == o0);
                        assert(v == g.graph()[x as int].len());
                        assert(g.graph()[x as int].len() <= n);
                        assert(val == g.graph()[x as int].len());
                    } else {
                        assert(id != o0);
                        lemma_index_bound(x as int, o0, n as int, m as int);
                        if x * m + o0 == x * m + id {
                            crate::orbit::lemma_index_unique(x as int, o0, x as int, id as int, m as int);
                        }
                        assert(rows@[x * m + o0] == r0[x * m + o0]);
                    }
                }
            } else {
                proof { assert(s != 0); }
            }
            s += 1;
        }
        x += 1;
    }
    let mut ids: Vec<N> = Vec::new();
    let mut i: usize = 0;
    while i < n
        invariant
            i <= n,
            n == g.ids().len(),
            ids@ == g.ids().take(i as int),
        decreases n - i,
    {
        ids.push(g.id(i));
        proof { assert(g.ids().take(i + 1) =~= g.ids().take(i as int).push(g.ids()[i as int])); }
        i += 1;
    }
    proof { assert(g.ids().take(n as int) =~= g.ids()); }
    let t = GdvTable::from_rows(m, ids, rows);
    proof {
        assert forall|x: int| 0 <= x < t.ids().len() implies #[trigger] t.entry(x, o0) == g.graph()[x].len() by {
            assert(rows@[x * m + o0] == g.graph()[x].len());
        }
        assert(edge_degree_column(*reg, g.graph(), t, o0));
        assert forall|o: int, x: int| 0 <= o < reg.orbits().len() && reg.orbits()[o].0 == 2 && 0 <= x < g.ids().len()
            implies #[trigger] t.entry(x, o) == g.graph()[x].len() by {
            reg.lemma_single_order2_orbit(o, o0);
        }
    }
    t
}

/// Column `o` of `t` is the column of an orbit of order 2 (the edge orbit: either end of
/// a single edge; the registry has no other) and holds every node's degree.
pub open spec fn edge_degree_column<N>(reg: Registry, g: Seq<Seq<usize>>, t: GdvTable<N>, o: int) -> bool {
    &&& 0 <= o < reg.orbits().len()
    &&& reg.orbits()[o].0 == 2
    &&& forall|x: int| 0 <= x < t.ids().len() ==> #[trigger] t.entry(x, o) == g[x].len()
}

/// The sum of column `o` over the first `v` rows of `t`.
pub open spec fn column_total<N>(t: GdvTable<N>, o: int, v: nat) -> nat
    decreases v,
{
    if v == 0 { 0 } else { (column_total(t, o, (v - 1) as nat) + t.entry(v - 1, o)) as nat }
}

/// Orbit `id` belongs to a graphlet of order `k` and class `c`.
pub open spec fn orbit_is(orbits: Seq<(usize, u64, usize)>, id: int, k: usize, c: u64) -> bool {
    orbits[id].0 == k && orbits[id].1 == c
}

/// `id` is the first orbit of order `k` and class `c`.
pub open spec fn first_orbit(orbits: Seq<(usize, u64, usize)>, k: usize, c: u64, id: int) -> bool {
    &&& 0 <= id < orbits.len()
    &&& orbit_is(orbits, id, k, c)
    &&& forall|j: int| 0 <= j < id ==> !#[trigger] orbit_is(orbits, j, k, c)
}

/// The count a table gives through orbit `id`: its column total divided by the
/// orbit's size, capped at `u64::MAX` (nothing for an orbit of size 0).
pub open spec fn read_off<N>(t: GdvTable<N>, orbits: Seq<(usize, u64, usize)>, id: int) -> nat {
    if orbits[id].2 == 0 {
        0
    } else {
        let q = column_total(t, id, t.ids().len()) / (orbits[id].2 as nat);
        if q >= u64::MAX { u64::MAX as nat } else { q }
    }
}

/// The census of order `k` read off a graphlet-degree table: each class's count is
/// the column total of its first orbit of order `k` divided by that orbit's size;
/// classes whose count is 0 are absent.
pub fn census_from_table<N>(table: &GdvTable<N>, reg: &Registry, k: usize) -> (r: Census)
    requires
        table.width() == reg.orbits().len(),
    ensures
        forall|c: u64| #[trigger] r@.contains_key(c) <==> exists|id: int| #[trigger] first_orbit(reg.orbits(), k, c, id)
            && read_off(*table, reg.orbits(), id) > 0,
        forall|c: u64, id: int| #![trigger first_orbit(reg.orbits(), k, c, id)]
            first_orbit(reg.orbits(), k, c, id) && r@.contains_key(c) ==> r@[c] == read_off(*table, reg.orbits(), id),
{
    let ghost orbits = reg.orbits();
    let ghost t = *table;
    let m = reg.orbit_count();
    let n = table.len();
    let mut census = Census::new();
    let mut seen: Vec<u64> = Vec::new();
    let mut id: usize = 0;
    while id < m
        invariant
            id <= m,
            m == orbits.len(),
            orbits == reg.orbits(),
            t == *table,
            n == t.ids().len(),
            t.width() == m,
            forall|c: u64| #[trigger] seen@.contains(c) <==> exists|j: int| 0 <= j < id && #[trigger] orbit_is(orbits, j, k, c),
            forall|c: u64| #[trigger] census@.contains_key(c) <==> exists|j: int| 0 <= j < id
                && #[trigger] first_orbit(orbits, k, c, j) && read_off(t, orbits, j) > 0,
            forall|c: u64, j: int| #![trigger first_orbit(orbits, k, c, j)]
                0 <= j < id && first_orbit(orbits, k, c, j) && census@.contains_key(c) ==> census@[c] == read_off(t, orbits, j),
        decreases m - id,
    {
        let (order, class, size) = reg.orbit_meta(id);
        let mut fresh = true;
        let mut u: usize = 0;
        while u < seen.len()
            invariant
                u <= seen@.len(),
                fresh <==> forall|w: int| 0 <= w < u ==> seen@[w] != class,
            decreases seen@.len() - u,
        {
            if seen[u] == class {
                fresh = false;
            }
            u += 1;
        }
        let ghost census0 = census@;
        let ghost seen0 = seen@;
        proof {
            assert(fresh <==> !seen0.contains(class));
        }
        if order == k && fresh {
            seen.push(class);
            let mut sum: u128 = 0;
            let mut v: usize = 0;
            while v < n
                invariant
                    v <= n,
                    n == t.ids().len(),
                    t == *table,
                    t.width() == m,
                    id < m,
                    sum == column_total(t, id as int, v as nat),
                    sum <= v * 0xffff_ffff_ffff_ffffu128,
                decreases n - v,
            {
                let row = table.row(v);
                assert(sum + row@[id as int] <= (v + 1) * 0xffff_ffff_ffff_ffffu128) by (nonlinear_arith)
                    requires sum <= v * 0xffff_ffff_ffff_ffffu128, row@[id as int] <= 0xffff_ffff_ffff_ffffu64;
                sum = sum + row[id] as u128;
                v += 1;
            }
            if size > 0 {
                let q = sum / (size as u128);
                let count: u64 = if q >= 0xffff_ffff_ffff_ffff { u64::MAX } else { q as u64 };
                if count > 0 {
                    census = census.with(class, count);
                }
            }
            proof {
                assert(first_orbit(orbits, k, class, id as int)) by {
                    assert forall|j: int| 0 <= j < id implies !#[trigger] orbit_is(orbits, j, k, class) by {
                        if orbit_is(orbits, j, k, class) {
                            assert(seen0.contains(class));
                        }
                    }
                }
                let ro = read_off(t, orbits, id as int);
                assert(sum == column_total(t, id as int, n as nat));
                assert((census@ == census0.insert(class, ro as u64) && ro > 0) || (census@ == census0 && ro == 0));
            }
        }
        proof {
            if order == k && fresh {
                assert(seen@ == seen0.push(class));
                assert(seen@[seen0.len() as int] == class);
            } else {
                assert(seen@ == seen0);
            }
            assert forall|c: u64| #[trigger] seen@.contains(c) <==> exists|j: int| 0 <= j < id + 1 && #[trigger] orbit_is(orbits, j, k, c) by {
                if seen@.contains(c) && !seen0.contains(c) {
                    let w = choose|w: int| 0 <= w < seen@.len() && seen@[w] == c;
                    if w < seen0.len() {
                        assert(seen0[w] == c);
                    }
                    assert(orbit_is(orbits, id as int, k, c));
                }
                if exists|j: int| 0 <= j < id + 1 && #[trigger] orbit_is(orbits, j, k, c) {
                    let j = choose|j: int| 0 <= j < id + 1 && #[trigger] orbit_is(orbits, j, k, c);
                    if j == id && !seen0.contains(c) {
                        assert(c == class && order == k && fresh);
                    }
                    if seen0.contains(c) {
                        let w = choose|w: int| 0 <= w < seen0.len() && seen0[w] == c;
                        assert(seen@[w] == c);
                    }
                }
            }
            // `id` is the first orbit of a class only when that class was fresh
            assert forall|c: u64| #[trigger] first_orbit(orbits, k, c, id as int) implies order == k && fresh && c == class by {
                assert(orbit_is(orbits, id as int, k, c));
                if seen0.contains(c) {
                    let j = choose|j: int| 0 <= j < id && #[trigger] orbit_is(orbits, j, k, c);
                }
            }
            if !(order == k && fresh) {
                assert(census@ == census0);
            }
            assert forall|c: u64| #[trigger] census@.contains_key(c) <==> exists|j: int| 0 <= j < id + 1
                && #[trigger] first_orbit(orbits, k, c, j) && read_off(t, orbits, j) > 0 by {
                if exists|j: int| 0 <= j < id + 1 && #[trigger] first_orbit(orbits, k, c, j) && read_off(t, orbits, j) > 0 {
                    let j = choose|j: int| 0 <= j < id + 1 && #[trigger] first_orbit(orbits, k, c, j) && read_off(t, orbits, j) > 0;
                    if j < id {
                        assert(census0.contains_key(c));
                    }
                }
                if census@.contains_key(c) && !census0.contains_key(c) {
                    assert(c == class && first_orbit(orbits, k, c, id as int));
                }
            }
            assert forall|c: u64, j: int| #![trigger first_orbit(orbits, k, c, j)]
                0 <= j < id + 1 && first_orbit(orbits, k, c, j) && census@.contains_key(c) implies census@[c] == read_off(t, orbits, j) by {
                if j < id {
                    if c == class && order == k && fresh {
                        assert(orbit_is(orbits, j, k, c));
                        assert(seen0.contains(c));
                    }
                }
            }
        }
        id += 1;
    }
    census
}

/// Column totals of a table whose entries are the exact graphlet degrees are the
/// orbit totals.
proof fn lemma_column_is_orbit_total<N>(t: GdvTable<N>, reg: Registry, g: Seq<Seq<usize>>, o: usize, v: nat)
    requires
        v <= g.len(),
        o < reg.orbits().len(),
        forall|x: int, p: int| 0 <= x < g.len() && 0 <= p < reg.orbits().len()
            ==> #[trigger] t.entry(x, p) == gdv_count(reg, g, x as usize, p as usize),
    ensures
        column_total(t, o as int, v) == orbit_total(reg, g, o, v),
    decreases v,
{
    if v > 0 {
        lemma_column_is_orbit_total(t, reg, g, o, (v - 1) as nat);
        assert(t.entry(v - 1, o as int) == gdv_count(reg, g, (v - 1) as usize, o));
    }
}

/// Among orbits of order `k` and class `c`, one comes first.
proof fn lemma_first_exists(orbits: Seq<(usize, u64, usize)>, k: usize, c: u64, id: int)
    requires
        0 <= id < orbits.len(),
        orbit_is(orbits, id, k, c),
    ensures
        exists|f: int| #[trigger] first_orbit(orbits, k, c, f),
    decreases id,
{
    if exists|j: int| 0 <= j < id && #[trigger] orbit_is(orbits, j, k, c) {
        let j = choose|j: int| 0 <= j < id && #[trigger] orbit_is(orbits, j, k, c);
        lemma_first_exists(orbits, k, c, j);
    } else {
        assert(first_orbit(orbits, k, c, id));
    }
}

/// Reading the census off the exact graphlet-degree table gives the exact census: for
/// every class `c` of order `k`, some first orbit of `c` reads off a positive count
/// exactly when `c` occurs, and every first orbit of `c` reads off its census count.
pub proof fn law_census_read_off<N>(reg: Registry, g: Seq<Seq<usize>>, t: GdvTable<N>, k: usize, c: u64)
    requires
        reg.well_formed(),
        reg.orbits().len() <= usize::MAX,
        simple_graph(g),
        2 <= k <= 5,
        t.ids().len() == g.len(),
        forall|x: int, o: int| 0 <= x < g.len() && 0 <= o < reg.orbits().len()
            ==> #[trigger] t.entry(x, o) == gdv_count(reg, g, x as usize, o as usize),
        census_count(g, k as nat, c as nat) < u64::MAX,
    ensures
        (exists|id: int| #[trigger] first_orbit(reg.orbits(), k, c, id) && read_off(t, reg.orbits(), id) > 0)
            <==> census_count(g, k as nat, c as nat) > 0,
        forall|id: int| #[trigger] first_orbit(reg.orbits(), k, c, id) ==> read_off(t, reg.orbits(), id) == census_count(g, k as nat, c as nat),
{
    let orbits = reg.orbits();
    let cc = census_count(g, k as nat, c as nat);
    reg.lemma_numbered();
    assert forall|id: int| #[trigger] first_orbit(orbits, k, c, id) implies read_off(t, orbits, id) == cc by {
        let s = orbits[id].2;
        assert(s >= 1);
        law_orbit_totals(reg, g, id as usize);
        lemma_column_is_orbit_total(t, reg, g, id as usize, g.len());
        assert((id as usize) as int == id);
        assert(column_total(t, id, t.ids().len()) == cc * s);
        vstd::arithmetic::div_mod::lemma_div_multiples_vanish(cc as int, s as int);
        assert(cc * s == s * cc) by (nonlinear_arith);
    }
    if cc > 0 {
        lemma_listed_census(g, k as nat, c as nat);
        lemma_count_where_witness(esu_all(g, k as nat), class_is(g, k as nat, c as nat));
        let i = choose|i: int| 0 <= i < esu_all(g, k as nat).len() && #[trigger] class_is(g, k as nat, c as nat)(esu_all(g, k as nat)[i]);
        lemma_esu_all(g, k as nat);
        assert(valid_out(g, k as nat, esu_all(g, k as nat)[i]));
        lemma_seq_class_connected(g, k as nat, esu_all(g, k as nat)[i]);
        reg.lemma_connected_registered(k, c);
        let id = reg.lemma_class_has_orbit(k, c);
        lemma_first_exists(orbits, k, c, id);
    }
}

/// The graphlet census of order `sel.k() <= 5` read off the fast graphlet-degree
/// table ([`census_from_table`]): each class's count is the column total of its first
/// orbit divided by that orbit's size; classes with no instance are absent.
pub fn fast_count<N: Copy>(g: &Snapshot<N>, reg: &Registry, sel: &Selector) -> (r: Census)
    requires
        sel.order() <= 5,
        g.ids().len() <= FAST_MAX_NODES,
        g.ids().len() * reg.orbits().len() <= usize::MAX,
        (esu_all(g.graph(), 4).len() + 1) * 256 * g.ids().len() <= u64::MAX,
    ensures
        exists|t: GdvTable<N>| #![trigger t.ids()] {
            &&& t.ids() == g.ids()
            &&& t.width() == reg.orbits().len()
            &&& forall|c: u64| #[trigger] r@.contains_key(c) <==> exists|id: int| #[trigger] first_orbit(reg.orbits(), sel.order(), c, id)
                && read_off(t, reg.orbits(), id) > 0
            &&& forall|c: u64, id: int| #![trigger first_orbit(reg.orbits(), sel.order(), c, id)]
                first_orbit(reg.orbits(), sel.order(), c, id) && r@.contains_key(c) ==> r@[c] == read_off(t, reg.orbits(), id)
        },
{
    let table = fast_graphlet_degree_vectors(g, reg);
    let r = census_from_table(&table, reg, sel.k());
    proof {
        assert(table.ids() == g.ids());
    }
    r
}

} // verus!
