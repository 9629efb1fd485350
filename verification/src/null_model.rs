//! Degree-based null models for significance testing: the configuration model (raw
//! and simplified) and degree-preserving double-edge-swap rewiring.
//!
//! Graphs are undirected edge lists over `0..n`; every random draw comes from a
//! caller-seeded `StdRng`, so an ensemble is reproducible from its seed.
use vstd::prelude::*;
use std::collections::HashSet;
use rand::Rng;
use rand::seq::SliceRandom;
use rand::rngs::StdRng;
use crate::template::TemplateGraph;

verus! {

broadcast use {vstd::std_specs::hash::group_hash_axioms, vstd::seq_lib::group_to_multiset_ensures};

#[verifier::external_type_specification]
#[verifier::external_body]
pub struct ExStdRng(rand::rngs::StdRng);

/// Which null model generates the random-graph ensemble for significance testing.
#[derive(Clone, Copy, Debug, PartialEq, Eq)]
pub enum NullModel {
    /// Degree-preserving randomization via double-edge swap; the number of swap
    /// attempts is the edge count times `n_swaps_per_edge`.
    DegreePreserving {
        /// Swap-attempt count multiplier.
        n_swaps_per_edge: usize,
    },
    /// Simple configuration model on the observed degree sequence.
    ConfigurationModel,
}

/// Calls `rand::Rng::gen_range` with the range `0..m`: the draw lies in that range.
#[verifier::external_body]
fn random_below(rng: &mut StdRng, m: usize) -> (r: usize)
    requires
        m > 0,
    ensures
        r < m,
{
    rng.gen_range(0..m)
}

/// Calls `rand::Rng::gen_ratio(1, 2)`: a fair coin. Nothing is promised of the draw.
#[verifier::external_body]
fn random_coin(rng: &mut StdRng) -> bool {
    rng.gen_ratio(1, 2)
}

/// Calls `rand::seq::SliceRandom::shuffle` on `v`, which reorders it by swaps: the
/// same items, in some order. On two items or more it draws from the generator
/// (`gen_index` for every position from the last down to 1), and every draw moves a
/// `StdRng` on: its ChaCha word position, a 68-bit counter, only comes back after
/// `2^68` words. So the generator is not left as it was. Which order comes out is
/// not claimed.
#[verifier::external_body]
pub(crate) fn shuffle_in_place(v: &mut Vec<usize>, rng: &mut StdRng)
    ensures
        final(v)@.to_multiset() == old(v)@.to_multiset(),
        old(v)@.len() >= 2 ==> *final(rng) != *old(rng),
{
    v.shuffle(rng)
}

// ---------------------------------------------------------------------------
// Degrees and simplicity of edge lists
// ---------------------------------------------------------------------------

/// How many endpoints of `e` are `v` (a self-loop at `v` counts twice).
pub open spec fn ends(e: (usize, usize), v: usize) -> nat {
    (if e.0 == v { 1nat } else { 0nat }) + (if e.1 == v { 1nat } else { 0nat })
}

/// The degree of `v` in the edge list, a self-loop counting twice.
pub open spec fn degree_in(edges: Seq<(usize, usize)>, v: usize) -> nat
    decreases edges.len(),
{
    if edges.len() == 0 { 0 } else { degree_in(edges.drop_last(), v) + ends(edges.last(), v) }
}

/// The unordered pair an edge joins, smaller end first.
pub open spec fn edge_key(e: (usize, usize)) -> (usize, usize) {
    if e.0 <= e.1 { e } else { (e.1, e.0) }
}

/// No self-loop and no pair joined twice.
pub open spec fn simple_edges(edges: Seq<(usize, usize)>) -> bool {
    &&& forall|p: int| 0 <= p < edges.len() ==> (#[trigger] edges[p]).0 != edges[p].1
    &&& forall|p: int, q: int| 0 <= p < edges.len() && 0 <= q < edges.len() && p != q
        ==> edge_key(#[trigger] edges[p]) != edge_key(#[trigger] edges[q])
}

proof fn lemma_degree_update(s: Seq<(usize, usize)>, i: int, e: (usize, usize), v: usize)
    requires
        0 <= i < s.len(),
    ensures
        degree_in(s.update(i, e), v) + ends(s[i], v) == degree_in(s, v) + ends(e, v),
    decreases s.len(),
{
    let t = s.update(i, e);
    if i == s.len() - 1 {
        assert(t.drop_last() =~= s.drop_last());
    } else {
        lemma_degree_update(s.drop_last(), i, e, v);
        assert(t.drop_last() =~= s.drop_last().update(i, e));
    }
}

/// The number a pair `(a, b)` with `a, b < n` is stored under.
pub open spec fn pair_code(n: nat, k: (usize, usize)) -> int {
    k.0 * n + k.1
}

proof fn lemma_pair_code_injective(n: nat, x: (usize, usize), y: (usize, usize))
    requires
        x.0 < n,
        x.1 < n,
        y.0 < n,
        y.1 < n,
        pair_code(n, x) == pair_code(n, y),
    ensures
        x == y,
{
    let (a, b, c, d) = (x.0 as int, x.1 as int, y.0 as int, y.1 as int);
    let nn = n as int;
    assert(a == c) by (nonlinear_arith)
        requires
            0 <= a < nn,
            0 <= b < nn,
            0 <= c < nn,
            0 <= d < nn,
            a * nn + b == c * nn + d,
    {
        if a < c {
            assert(a * nn + nn <= c * nn);
        } else if c < a {
            assert(c * nn + nn <= a * nn);
        }
    }
}

/// The stored number of the unordered pair `{a, b}`.
fn key_code(a: usize, b: usize, n: usize) -> (r: u64)
    requires
        a < n,
        b < n,
        n * n <= u64::MAX,
    ensures
        r == pair_code(n as nat, edge_key((a, b))),
{
    let (x, y) = if a <= b { (a, b) } else { (b, a) };
    assert(x * n + y <= n * n) by (nonlinear_arith)
        requires
            x < n,
            y < n,
    {
        assert(x * n + y < x * n + n);
        assert((x + 1) * n <= n * n);
    }
    (x as u64) * (n as u64) + (y as u64)
}

/// `set` holds exactly the codes of the edges' pairs.
spec fn codes_of(set: Set<u64>, edges: Seq<(usize, usize)>, n: nat) -> bool {
    &&& forall|p: int| 0 <= p < edges.len() ==> set.contains(pair_code(n, edge_key(#[trigger] edges[p])) as u64)
    &&& forall|c: u64| #[trigger] set.contains(c) ==> exists|p: int| 0 <= p < edges.len() && c == pair_code(n, edge_key(#[trigger] edges[p]))
}

/// All endpoints lie below `n`.
pub open spec fn edges_below(edges: Seq<(usize, usize)>, n: nat) -> bool {
    forall|p: int| 0 <= p < edges.len() ==> (#[trigger] edges[p]).0 < n && edges[p].1 < n
}

proof fn lemma_code_range(n: nat, e: (usize, usize))
    requires
        e.0 < n,
        e.1 < n,
        n * n <= u64::MAX,
    ensures
        0 <= pair_code(n, edge_key(e)) <= u64::MAX,
{
    let k = edge_key(e);
    assert(k.0 * n + k.1 <= n * n) by (nonlinear_arith)
        requires
            k.0 < n,
            k.1 < n,
    {
        assert((k.0 + 1) * n <= n * n);
    }
}

// ---------------------------------------------------------------------------
// Double-edge swap
// ---------------------------------------------------------------------------

/// The two pairs that rewiring `e = a–b, f = c–d` gives: `a–c, b–d` (`flip`) or
/// `a–d, b–c`.
pub open spec fn rewired(e: (usize, usize), f: (usize, usize), flip: bool) -> ((usize, usize), (usize, usize)) {
    if flip { ((e.0, f.0), (e.1, f.1)) } else { ((e.0, f.1), (e.1, f.0)) }
}

/// The stored number of a pair's key.
pub open spec fn code_of(n: nat, e: (usize, usize)) -> int {
    pair_code(n, edge_key(e))
}

/// The rewiring of `e, f` is taken: it makes no self-loop, keeps neither old pair,
/// does not join one pair twice, and neither new pair is stored in `set` yet.
pub open spec fn swap_allowed(set: Set<u64>, n: nat, e: (usize, usize), f: (usize, usize), flip: bool) -> bool {
    let (e1, e2) = rewired(e, f, flip);
    &&& e1.0 != e1.1 && e2.0 != e2.1
    &&& code_of(n, e1) != code_of(n, e) && code_of(n, e1) != code_of(n, f)
    &&& code_of(n, e2) != code_of(n, e) && code_of(n, e2) != code_of(n, f)
    &&& code_of(n, e1) != code_of(n, e2)
    &&& !set.contains(code_of(n, e1) as u64) && !set.contains(code_of(n, e2) as u64)
}

/// One swap attempt on edges `i != j`: rewire `a–b, c–d` into `a–c, b–d` (`flip`) or
/// `a–d, b–c`, unless that makes a self-loop, keeps an old pair, joins one pair
/// twice, or duplicates a pair already present. Returns whether it rewired.
fn try_swap(edges: &mut Vec<(usize, usize)>, set: &mut HashSet<u64>, n: usize, i: usize, j: usize, flip: bool, Ghost(simple): Ghost<bool>) -> (done: bool)
    requires
        i < old(edges)@.len(),
        j < old(edges)@.len(),
        i != j,
        n * n <= u64::MAX,
        edges_below(old(edges)@, n as nat),
        simple ==> simple_edges(old(edges)@) && codes_of(old(set)@, old(edges)@, n as nat),
    ensures
        final(edges)@.len() == old(edges)@.len(),
        edges_below(final(edges)@, n as nat),
        forall|v: usize| #[trigger] degree_in(final(edges)@, v) == degree_in(old(edges)@, v),
        simple ==> simple_edges(final(edges)@) && codes_of(final(set)@, final(edges)@, n as nat),
        done == swap_allowed(old(set)@, n as nat, old(edges)@[i as int], old(edges)@[j as int], flip),
        done ==> final(edges)@ == old(edges)@.update(i as int, rewired(old(edges)@[i as int], old(edges)@[j as int], flip).0)
            .update(j as int, rewired(old(edges)@[i as int], old(edges)@[j as int], flip).1),
        done ==> final(set)@ == old(set)@.remove(code_of(n as nat, old(edges)@[i as int]) as u64)
            .remove(code_of(n as nat, old(edges)@[j as int]) as u64)
            .insert(code_of(n as nat, rewired(old(edges)@[i as int], old(edges)@[j as int], flip).0) as u64)
            .insert(code_of(n as nat, rewired(old(edges)@[i as int], old(edges)@[j as int], flip).1) as u64),
        !done ==> final(edges)@ == old(edges)@,
        !done ==> final(set)@ == old(set)@,
{
    let (a, b) = edges[i];
    let (c, d) = edges[j];
    let (e1, e2) = if flip { ((a, c), (b, d)) } else { ((a, d), (b, c)) };
    if e1.0 == e1.1 || e2.0 == e2.1 {
        return false;
    }
    let k1 = key_code(e1.0, e1.1, n);
    let k2 = key_code(e2.0, e2.1, n);
    let o1 = key_code(a, b, n);
    let o2 = key_code(c, d, n);
    if k1 == o1 || k1 == o2 || k2 == o1 || k2 == o2 {
        return false;
    }
    if k1 == k2 {
        return false;
    }
    if set.contains(&k1) || set.contains(&k2) {
        return false;
    }
    let ghost s0 = edges@;
    let ghost set0 = set@;
    set.remove(&o1);
    set.remove(&o2);
    set.insert(k1);
    set.insert(k2);
    edges.set(i, e1);
    edges.set(j, e2);
    proof {
        let s1 = s0.update(i as int, e1);
        assert(edges@ == s1.update(j as int, e2));
        assert forall|v: usize| #[trigger] degree_in(edges@, v) == degree_in(s0, v) by {
            lemma_degree_update(s0, i as int, e1, v);
            lemma_degree_update(s1, j as int, e2, v);
            assert(s1[j as int] == s0[j as int]);
        }
        if simple {
            let nn = n as nat;
            // the codes of the two old pairs belong to edges i and j only
            assert forall|p: int| 0 <= p < s0.len() && p != i && p != j implies
                pair_code(nn, edge_key(#[trigger] s0[p])) != o1 && pair_code(nn, edge_key(s0[p])) != o2 by {
                if pair_code(nn, edge_key(s0[p])) == o1 {
                    lemma_pair_code_injective(nn, edge_key(s0[p]), edge_key(s0[i as int]));
                }
                if pair_code(nn, edge_key(s0[p])) == o2 {
                    lemma_pair_code_injective(nn, edge_key(s0[p]), edge_key(s0[j as int]));
                }
            }
            assert forall|p: int| 0 <= p < edges@.len() implies (#[trigger] edges@[p]).0 != edges@[p].1 by {}
            assert forall|p: int, q: int| 0 <= p < edges@.len() && 0 <= q < edges@.len() && p != q
                implies edge_key(#[trigger] edges@[p]) != edge_key(#[trigger] edges@[q]) by {
                if p != i && p != j && q != i && q != j {
                    assert(edges@[p] == s0[p] && edges@[q] == s0[q]);
                } else if (p == i && q == j) || (p == j && q == i) {
                } else {
                    // one of them is new, the other old and still coded in the set
                    let (x, y) = if p == i || p == j { (p, q) } else { (q, p) };
                    assert(edges@[y] == s0[y]);
                    assert(set0.contains(pair_code(nn, edge_key(s0[y])) as u64));
                    lemma_code_range(nn, s0[y]);
                    if edge_key(edges@[x]) == edge_key(s0[y]) {
                        assert(false);
                    }
                }
            }
            assert forall|p: int| 0 <= p < edges@.len() implies set@.contains(pair_code(nn, edge_key(#[trigger] edges@[p])) as u64) by {
                if p != i && p != j {
                    assert(edges@[p] == s0[p]);
                    lemma_code_range(nn, s0[p]);
                }
            }
            assert forall|c: u64| #[trigger] set@.contains(c) implies exists|p: int| 0 <= p < edges@.len() && c == pair_code(nn, edge_key(#[trigger] edges@[p])) by {
                if c == k1 {
                    assert(c == pair_code(nn, edge_key(edges@[i as int])));
                } else if c == k2 {
                    assert(c == pair_code(nn, edge_key(edges@[j as int])));
                } else {
                    assert(set0.contains(c));
                    let p = choose|p: int| 0 <= p < s0.len() && c == pair_code(nn, edge_key(#[trigger] s0[p]));
                    assert(p != i && p != j);
                    assert(edges@[p] == s0[p]);
                }
            }
        }
    }
    true
}

/// The codes of the pairs of `edges`.
pub open spec fn edge_codes(edges: Seq<(usize, usize)>, n: nat) -> Set<u64> {
    Set::new(|c: u64| exists|p: int| 0 <= p < edges.len() && c == code_of(n, #[trigger] edges[p]))
}

/// One swap attempt `(i, j, flip)` on the edge list and its stored codes: the
/// rewiring of edges `i` and `j` when it is allowed, else no change.
pub open spec fn swap_step(st: (Seq<(usize, usize)>, Set<u64>), n: nat, pick: (usize, usize, bool)) -> (Seq<(usize, usize)>, Set<u64>) {
    let (edges, set) = st;
    let (i, j, flip) = pick;
    let e = edges[i as int];
    let f = edges[j as int];
    let (e1, e2) = rewired(e, f, flip);
    if swap_allowed(set, n, e, f, flip) {
        (edges.update(i as int, e1).update(j as int, e2),
            set.remove(code_of(n, e) as u64).remove(code_of(n, f) as u64).insert(code_of(n, e1) as u64).insert(code_of(n, e2) as u64))
    } else {
        st
    }
}

/// The swap attempts `picks`, made in order.
pub open spec fn swap_run(st: (Seq<(usize, usize)>, Set<u64>), n: nat, picks: Seq<(usize, usize, bool)>) -> (Seq<(usize, usize)>, Set<u64>)
    decreases picks.len(),
{
    if picks.len() == 0 {
        st
    } else {
        swap_step(swap_run(st, n, picks.drop_last()), n, picks.last())
    }
}

/// Every attempt names two distinct edges of `m`.
pub open spec fn valid_picks(picks: Seq<(usize, usize, bool)>, m: nat) -> bool {
    forall|t: int| 0 <= t < picks.len() ==> (#[trigger] picks[t]).0 < m && picks[t].1 < m && picks[t].0 != picks[t].1
}

/// Double-edge swaps with the attempts given: attempt `(i, j, flip)` rewires
/// `a–b, c–d` (edges `i`, `j`) into `a–c, b–d` (`flip`) or `a–d, b–c` unless that makes
/// a self-loop, keeps an old pair, joins one pair twice, or repeats a pair already
/// present. Every node keeps its degree, and a simple graph stays simple.
pub fn swap_with_picks(graph: &TemplateGraph, picks: &Vec<(usize, usize, bool)>) -> (r: TemplateGraph)
    requires
        !graph.is_directed(),
        graph.node_count() * graph.node_count() <= u64::MAX,
        valid_picks(picks@, graph.edge_list().len()),
    ensures
        r.node_count() == graph.node_count(),
        !r.is_directed(),
        r.edge_list() == swap_run((graph.edge_list(), edge_codes(graph.edge_list(), graph.node_count() as nat)),
            graph.node_count() as nat, picks@).0,
        r.edge_list().len() == graph.edge_list().len(),
        forall|v: usize| #[trigger] degree_in(r.edge_list(), v) == degree_in(graph.edge_list(), v),
        simple_edges(graph.edge_list()) ==> simple_edges(r.edge_list()),
{
    let n = graph.len();
    let src = graph.edges();
    let ghost simple = simple_edges(src@);
    let mut edges: Vec<(usize, usize)> = Vec::new();
    let mut set: HashSet<u64> = HashSet::new();
    let mut p: usize = 0;
    while p < src.len()
        invariant
            n == graph.node_count(),
            n * n <= u64::MAX,
            src@ == graph.edge_list(),
            edges_below(src@, n as nat),
            p <= src@.len(),
            edges@ == src@.take(p as int),
            codes_of(set@, edges@, n as nat),
        decreases src@.len() - p,
    {
        let (a, b) = src[p];
        let k = key_code(a, b, n);
        let ghost e0 = edges@;
        set.insert(k);
        edges.push((a, b));
        proof {
            assert(src@.take(p + 1) =~= src@.take(p as int).push((a, b)));
            assert forall|c: u64| #[trigger] set@.contains(c) implies exists|q: int| 0 <= q < edges@.len() && c == pair_code(n as nat, edge_key(#[trigger] edges@[q])) by {
                if c != k {
                    let q = choose|q: int| 0 <= q < e0.len() && c == pair_code(n as nat, edge_key(#[trigger] e0[q]));
                    assert(edges@[q] == e0[q]);
                } else {
                    assert(edges@[p as int] == (a, b));
                }
            }
            assert forall|q: int| 0 <= q < edges@.len() implies set@.contains(pair_code(n as nat, edge_key(#[trigger] edges@[q])) as u64) by {
                if q < p {
                    assert(edges@[q] == e0[q]);
                    lemma_code_range(n as nat, e0[q]);
                }
            }
        }
        p += 1;
    }
    proof {
        assert(src@.take(p as int) =~= src@);
    }
    let m = edges.len();
    let ghost nn = n as nat;
    let ghost init = (src@, edge_codes(src@, nn));
    proof {
        assert(set@ =~= edge_codes(src@, nn)) by {
            assert forall|c: u64| set@.contains(c) <==> edge_codes(src@, nn).contains(c) by {
                if edge_codes(src@, nn).contains(c) {
                    let p = choose|p: int| 0 <= p < src@.len() && c == code_of(nn, #[trigger] src@[p]);
                    assert(set@.contains(pair_code(nn, edge_key(edges@[p])) as u64));
                }
                if set@.contains(c) {
                    let p = choose|p: int| 0 <= p < edges@.len() && c == pair_code(nn, edge_key(#[trigger] edges@[p]));
                    assert(c == code_of(nn, src@[p]));
                }
            }
        }
    }
    let mut t: usize = 0;
    while t < picks.len()
        invariant
            n == graph.node_count(),
            nn == n,
            n * n <= u64::MAX,
            edges@.len() == m,
            m == src@.len(),
            src@ == graph.edge_list(),
            simple == simple_edges(src@),
            valid_picks(picks@, m as nat),
            t <= picks@.len(),
            edges_below(edges@, n as nat),
            forall|v: usize| #[trigger] degree_in(edges@, v) == degree_in(src@, v),
            simple ==> simple_edges(edges@) && codes_of(set@, edges@, n as nat),
            (edges@, set@) == swap_run(init, nn, picks@.take(t as int)),
        decreases picks@.len() - t,
    {
        let (i, j, flip) = picks[t];
        proof { assert(picks@[t as int].0 < m && picks@[t as int].1 < m && picks@[t as int].0 != picks@[t as int].1); }
        let ghost before = (edges@, set@);
        let _done = try_swap(&mut edges, &mut set, n, i, j, flip, Ghost(simple));
        proof {
            assert(picks@.take(t + 1).drop_last() =~= picks@.take(t as int));
            assert(picks@.take(t + 1).last() == (i, j, flip));
            assert((edges@, set@) == swap_step(before, nn, (i, j, flip)));
        }
        t += 1;
    }
    proof { assert(picks@.take(picks@.len() as int) =~= picks@); }
    TemplateGraph::new(n, false, edges)
}

/// Degree-preserving edge randomization: `n_swaps` double-edge-swap attempts on
/// an undirected graph, each picking two distinct edges and a rewiring at random.
/// Every node keeps its degree, and a simple graph stays simple. With fewer than
/// two edges the graph comes back unchanged. Whatever was drawn, the result is that
/// of [`swap_with_picks`] on `n_swaps` attempts at two distinct edges.
pub fn double_edge_swap(graph: &TemplateGraph, n_swaps: usize, rng: &mut StdRng) -> (r: TemplateGraph)
    requires
        !graph.is_directed(),
        graph.node_count() * graph.node_count() <= u64::MAX,
    ensures
        r.node_count() == graph.node_count(),
        !r.is_directed(),
        r.edge_list().len() == graph.edge_list().len(),
        forall|v: usize| #[trigger] degree_in(r.edge_list(), v) == degree_in(graph.edge_list(), v),
        simple_edges(graph.edge_list()) ==> simple_edges(r.edge_list()),
        graph.edge_list().len() < 2 ==> r.edge_list() == graph.edge_list(),
        exists|picks: Seq<(usize, usize, bool)>| #![trigger valid_picks(picks, graph.edge_list().len())]
            picks.len() == (if graph.edge_list().len() >= 2 { n_swaps as int } else { 0 })
            && valid_picks(picks, graph.edge_list().len())
            && r.edge_list() == swap_run((graph.edge_list(), edge_codes(graph.edge_list(), graph.node_count() as nat)),
                graph.node_count() as nat, picks).0,
{
    let m = graph.edges().len();
    let mut picks: Vec<(usize, usize, bool)> = Vec::new();
    if m >= 2 {
        let mut t: usize = 0;
        while t < n_swaps
            invariant
                m >= 2,
                m == graph.edge_list().len(),
                t <= n_swaps,
                picks@.len() == t,
                valid_picks(picks@, m as nat),
            decreases n_swaps - t,
        {
            let i = random_below(rng, m);
            let mut j = random_below(rng, m - 1);
            if j >= i {
                j = j + 1;
            }
            let flip = random_coin(rng);
            picks.push((i, j, flip));
            t += 1;
        }
    }
    let r = swap_with_picks(graph, &picks);
    proof {
        if m < 2 {
            assert(picks@.len() == 0);
            assert(swap_run((graph.edge_list(), edge_codes(graph.edge_list(), graph.node_count() as nat)), graph.node_count() as nat, picks@).0 == graph.edge_list());
        }
        assert(valid_picks(picks@, graph.edge_list().len()));
    }
    r
}

// ---------------------------------------------------------------------------
// Ring lattice
// ---------------------------------------------------------------------------

/// The ring lattice on `n` nodes: each node `i` joined to the next `half_k` nodes
/// around the ring, edge `i * half_k + (j - 1)` being `(i, (i + j) % n)`.
pub fn ring_lattice(n: usize, half_k: usize) -> (r: Vec<(usize, usize)>)
    requires
        n > 0,
        n * half_k <= usize::MAX,
        n + half_k <= usize::MAX,
    ensures
        r@.len() == n * half_k,
        forall|i: int, j: int| 0 <= i < n && 1 <= j <= half_k ==>
            #[trigger] r@[i * half_k + (j - 1)] == (i as usize, ((i + j) % (n as int)) as usize),
{
    let mut r: Vec<(usize, usize)> = Vec::new();
    let mut i: usize = 0;
    while i < n
        invariant
            n > 0,
            n * half_k <= usize::MAX,
            n + half_k <= usize::MAX,
            i <= n,
            r@.len() == i * half_k,
            forall|a: int, j: int| 0 <= a < i && 1 <= j <= half_k ==>
                #[trigger] r@[a * half_k + (j - 1)] == (a as usize, ((a + j) % (n as int)) as usize),
        decreases n - i,
    {
        let mut j: usize = 1;
        while j <= half_k
            invariant
                n > 0,
                i < n,
                n + half_k <= usize::MAX,
                n * half_k <= usize::MAX,
                1 <= j <= half_k + 1,
                r@.len() == i * half_k + (j - 1),
                forall|a: int, t: int| 0 <= a < i && 1 <= t <= half_k ==>
                    #[trigger] r@[a * half_k + (t - 1)] == (a as usize, ((a + t) % (n as int)) as usize),
                forall|t: int| 1 <= t < j ==>
                    #[trigger] r@[i * half_k + (t - 1)] == (i as usize, ((i + t) % (n as int)) as usize),
            decreases half_k + 1 - j,
        {
            proof {
                assert(i * half_k + (j - 1) < n * half_k) by (nonlinear_arith)
                    requires i < n, 1 <= j <= half_k;
            }
            let ghost r0 = r@;
            r.push((i, (i + j) % n));
            proof {
                assert forall|a: int, t: int| 0 <= a < i && 1 <= t <= half_k implies
                    #[trigger] r@[a * half_k + (t - 1)] == (a as usize, ((a + t) % (n as int)) as usize) by {
                    assert(a * half_k + (t - 1) < i * half_k) by (nonlinear_arith)
                        requires 0 <= a < i, 1 <= t <= half_k;
                    assert(a * half_k + (t - 1) >= 0) by (nonlinear_arith)
                        requires 0 <= a, 1 <= t;
                    assert(r@[a * half_k + (t - 1)] == r0[a * half_k + (t - 1)]);
                }
            }
            j += 1;
        }
        proof {
            assert(i * half_k + half_k == (i + 1) * half_k) by (nonlinear_arith);
        }
        i += 1;
    }
    r
}

// ---------------------------------------------------------------------------
// Watts–Strogatz rewiring
// ---------------------------------------------------------------------------

/// The ring-lattice edge from `a` to the node `t` steps further round a ring of `n`.
pub open spec fn lattice_pair(n: nat, a: int, t: int) -> (usize, usize) {
    (a as usize, ((a + t) % (n as int)) as usize)
}

/// `e` is a lattice edge `(a, (a + t) % n)`, `1 <= t <= h`, with `(a, t)` before
/// `(i, j)`.
pub open spec fn lattice_before(n: nat, h: nat, e: (usize, usize), i: int, j: int) -> bool {
    exists|a: int, t: int| 0 <= a < n && 1 <= t <= h && (a < i || (a == i && t < j))
        && #[trigger] lattice_pair(n, a, t) == e
}

proof fn lemma_wrap(x: int, n: int)
    requires
        0 < n,
        0 <= x < 2 * n,
    ensures
        x % n == if x < n { x } else { x - n },
{
    if x < n {
        vstd::arithmetic::div_mod::lemma_small_mod(x as nat, n as nat);
    } else {
        vstd::arithmetic::div_mod::lemma_small_mod((x - n) as nat, n as nat);
        vstd::arithmetic::div_mod::lemma_mod_add_multiples_vanish(x - n, n);
    }
}

/// On a ring of more than `2h` nodes, lattice edges of at most `h` steps are no
/// self-loops, and two of them join the same pair only if they are the same edge.
proof fn lemma_lattice_keys(n: int, h: int, a: int, t: int, b: int, s: int)
    requires
        2 * h < n,
        n <= usize::MAX,
        0 <= a < n,
        0 <= b < n,
        1 <= t <= h,
        1 <= s <= h,
    ensures
        lattice_pair(n as nat, a, t).0 != lattice_pair(n as nat, a, t).1,
        lattice_pair(n as nat, a, t).0 < n && lattice_pair(n as nat, a, t).1 < n,
        edge_key(lattice_pair(n as nat, a, t)) == edge_key(lattice_pair(n as nat, b, s)) ==> a == b && t == s,
{
    lemma_wrap(a + t, n);
    lemma_wrap(b + s, n);
}

/// Watts–Strogatz rewiring of the ring lattice on `n` nodes of `half_k` steps
/// (edge `i * half_k + (j - 1)` is `(i, (i + j) % n)`): each edge `e` with
/// `rewire[e]` keeps its source `u` and draws up to `n` targets, taking the first
/// that is not `u` and not already joined to `u`; if none qualifies it stays. The
/// graph stays simple, with `n * half_k` edges.
pub fn ws_rewire(n: usize, half_k: usize, rewire: &Vec<bool>, rng: &mut StdRng) -> (r: TemplateGraph)
    requires
        n > 2 * half_k,
        n * half_k <= usize::MAX,
        n * n <= u64::MAX,
        rewire@.len() == n * half_k,
    ensures
        r.node_count() == n,
        !r.is_directed(),
        r.edge_list().len() == n * half_k,
        simple_edges(r.edge_list()),
        edges_below(r.edge_list(), n as nat),
        forall|i: int, j: int| 0 <= i < n && 1 <= j <= half_k ==>
            (#[trigger] r.edge_list()[i * half_k + (j - 1)]).0 == i
            && (!rewire@[i * half_k + (j - 1)] ==> r.edge_list()[i * half_k + (j - 1)].1 == (i + j) % (n as int)),
{
    let mut edges: Vec<(usize, usize)> = Vec::new();
    let mut set: HashSet<u64> = HashSet::new();
    let ghost nn = n as nat;
    let ghost h = half_k as nat;
    let mut i: usize = 0;
    while i < n
        invariant
            n > 2 * half_k,
            n * half_k <= usize::MAX,
            n * n <= u64::MAX,
            nn == n,
            h == half_k,
            i <= n,
            edges@.len() == i * half_k,
            forall|a: int, t: int| 0 <= a < i && 1 <= t <= half_k ==>
                #[trigger] edges@[a * half_k + (t - 1)] == lattice_pair(nn, a, t),
            forall|p: int| 0 <= p < edges@.len() ==> #[trigger] lattice_before(nn, h, edges@[p], i as int, 1),
            simple_edges(edges@),
            edges_below(edges@, nn),
            codes_of(set@, edges@, nn),
        decreases n - i,
    {
        let mut j: usize = 1;
        while j <= half_k
            invariant
                n > 2 * half_k,
                n * half_k <= usize::MAX,
                n * n <= u64::MAX,
                nn == n,
                h == half_k,
                i < n,
                1 <= j <= half_k + 1,
                edges@.len() == i * half_k + (j - 1),
                forall|a: int, t: int| 0 <= a < i && 1 <= t <= half_k ==>
                    #[trigger] edges@[a * half_k + (t - 1)] == lattice_pair(nn, a, t),
                forall|t: int| 1 <= t < j ==> #[trigger] edges@[i * half_k + (t - 1)] == lattice_pair(nn, i as int, t),
                forall|p: int| 0 <= p < edges@.len() ==> #[trigger] lattice_before(nn, h, edges@[p], i as int, j as int),
                simple_edges(edges@),
                edges_below(edges@, nn),
                codes_of(set@, edges@, nn),
            decreases half_k + 1 - j,
        {
            assert(i + j <= n * half_k) by (nonlinear_arith)
                requires i < n, 1 <= j <= half_k;
            let nb = (i + j) % n;
            proof {
                lemma_lattice_keys(n as int, half_k as int, i as int, j as int, i as int, j as int);
                assert(lattice_pair(nn, i as int, j as int) == (i, nb));
            }
            let code = key_code(i, nb, n);
            let ghost e0 = edges@;
            let ghost set0 = set@;
            proof {
                // the new pair is not joined yet
                assert forall|p: int| 0 <= p < e0.len() implies edge_key(#[trigger] e0[p]) != edge_key((i, nb)) by {
                    assert(lattice_before(nn, h, e0[p], i as int, j as int));
                    let (a, t) = choose|a: int, t: int| 0 <= a < nn && 1 <= t <= h && (a < i || (a == i && t < j))
                        && #[trigger] lattice_pair(nn, a, t) == e0[p];
                    lemma_lattice_keys(n as int, half_k as int, a, t, i as int, j as int);
                }
                if set0.contains(code) {
                    let p = choose|p: int| 0 <= p < e0.len() && code == pair_code(nn, edge_key(#[trigger] e0[p]));
                    lemma_pair_code_injective(nn, edge_key(e0[p]), edge_key((i, nb)));
                }
            }
            edges.push((i, nb));
            set.insert(code);
            proof {
                let len0 = e0.len() as int;
                assert(edges@[len0] == (i, nb));
                assert forall|p: int, q: int| 0 <= p < edges@.len() && 0 <= q < edges@.len() && p != q
                    implies edge_key(#[trigger] edges@[p]) != edge_key(#[trigger] edges@[q]) by {
                    if p < len0 && q < len0 {
                        assert(edges@[p] == e0[p] && edges@[q] == e0[q]);
                    } else if p < len0 {
                        assert(edges@[p] == e0[p]);
                    } else {
                        assert(edges@[q] == e0[q]);
                    }
                }
                assert forall|p: int| 0 <= p < edges@.len() implies (#[trigger] edges@[p]).0 != edges@[p].1 by {
                    if p < len0 { assert(edges@[p] == e0[p]); }
                }
                assert forall|p: int| 0 <= p < edges@.len() implies (#[trigger] edges@[p]).0 < nn && edges@[p].1 < nn by {
                    if p < len0 { assert(edges@[p] == e0[p]); }
                }
                assert forall|p: int| 0 <= p < edges@.len() implies set@.contains(pair_code(nn, edge_key(#[trigger] edges@[p])) as u64) by {
                    if p < len0 { assert(edges@[p] == e0[p]); }
                }
                assert forall|c: u64| #[trigger] set@.contains(c) implies exists|p: int| 0 <= p < edges@.len() && c == pair_code(nn, edge_key(#[trigger] edges@[p])) by {
                    if c == code {
                        assert(c == pair_code(nn, edge_key(edges@[len0])));
                    } else {
                        let p = choose|p: int| 0 <= p < e0.len() && c == pair_code(nn, edge_key(#[trigger] e0[p]));
                        assert(edges@[p] == e0[p]);
                    }
                }
                assert forall|p: int| 0 <= p < edges@.len() implies #[trigger] lattice_before(nn, h, edges@[p], i as int, j + 1) by {
                    if p < len0 {
                        assert(edges@[p] == e0[p]);
                        assert(lattice_before(nn, h, e0[p], i as int, j as int));
                        let (a, t) = choose|a: int, t: int| 0 <= a < nn && 1 <= t <= h && (a < i || (a == i && t < j))
                            && #[trigger] lattice_pair(nn, a, t) == e0[p];
                        assert(lattice_pair(nn, a, t) == edges@[p]);
                    } else {
                        assert(lattice_pair(nn, i as int, j as int) == edges@[p]);
                    }
                }
                assert(i * half_k + (j - 1) == len0);
                assert forall|a: int, t: int| 0 <= a < i && 1 <= t <= half_k implies
                    #[trigger] edges@[a * half_k + (t - 1)] == lattice_pair(nn, a, t) by {
                    assert(a * half_k + (t - 1) < i * half_k) by (nonlinear_arith)
                        requires 0 <= a < i, 1 <= t <= half_k;
                    assert(a * half_k + (t - 1) >= 0) by (nonlinear_arith)
                        requires 0 <= a, 1 <= t;
                    assert(edges@[a * half_k + (t - 1)] == e0[a * half_k + (t - 1)]);
                }
                assert forall|t: int| 1 <= t < j + 1 implies #[trigger] edges@[i * half_k + (t - 1)] == lattice_pair(nn, i as int, t) by {
                    if t < j {
                        assert(edges@[i * half_k + (t - 1)] == e0[i * half_k + (t - 1)]);
                    }
                }
            }
            j += 1;
        }
        proof {
            assert(i * half_k + half_k == (i + 1) * half_k) by (nonlinear_arith);
            assert forall|p: int| 0 <= p < edges@.len() implies #[trigger] lattice_before(nn, h, edges@[p], i + 1, 1) by {
                assert(lattice_before(nn, h, edges@[p], i as int, j as int));
                let (a, t) = choose|a: int, t: int| 0 <= a < nn && 1 <= t <= h && (a < i || (a == i && t < j))
                    && #[trigger] lattice_pair(nn, a, t) == edges@[p];
                assert(lattice_pair(nn, a, t) == edges@[p]);
            }
        }
        i += 1;
    }
    let ghost lat = edges@;
    let m = edges.len();
    let mut e: usize = 0;
    while e < m
        invariant
            n * n <= u64::MAX,
            nn == n,
            m == n * half_k,
            m == lat.len(),
            m == edges@.len(),
            rewire@.len() == m,
            e <= m,
            forall|a: int, t: int| 0 <= a < n && 1 <= t <= half_k ==>
                #[trigger] lat[a * half_k + (t - 1)] == lattice_pair(nn, a, t),
            simple_edges(edges@),
            edges_below(edges@, nn),
            codes_of(set@, edges@, nn),
            forall|p: int| 0 <= p < m ==> (#[trigger] edges@[p]).0 == lat[p].0 && ((p >= e || !rewire@[p]) ==> edges@[p] == lat[p]),
        decreases m - e,
    {
        if rewire[e] {
            let (u, old_v) = edges[e];
            let mut found = false;
            let mut v: usize = 0;
            let mut tries: usize = 0;
            while tries < n && !found
                invariant
                    tries <= n,
                    u < n,
                    n * n <= u64::MAX,
                    nn == n,
                    found ==> v < n && v != u && !set@.contains(pair_code(nn, edge_key((u, v))) as u64),
                decreases n - tries,
            {
                let cand = random_below(rng, n);
                if cand != u && !set.contains(&key_code(u, cand, n)) {
                    found = true;
                    v = cand;
                }
                tries += 1;
            }
            if found {
                let old_code = key_code(u, old_v, n);
                let new_code = key_code(u, v, n);
                let ghost s0 = edges@;
                let ghost set0 = set@;
                set.remove(&old_code);
                set.insert(new_code);
                edges.set(e, (u, v));
                proof {
                    let ei = e as int;
                    assert(edges@ == s0.update(ei, (u, v)));
                    // the old pair's code belongs to edge `e` only
                    assert forall|p: int| 0 <= p < s0.len() && p != ei implies
                        pair_code(nn, edge_key(#[trigger] s0[p])) != old_code by {
                        if pair_code(nn, edge_key(s0[p])) == old_code {
                            lemma_pair_code_injective(nn, edge_key(s0[p]), edge_key(s0[ei]));
                        }
                    }
                    assert forall|p: int| 0 <= p < edges@.len() implies (#[trigger] edges@[p]).0 != edges@[p].1 by {
                        if p != ei { assert(edges@[p] == s0[p]); }
                    }
                    assert forall|p: int| 0 <= p < edges@.len() implies (#[trigger] edges@[p]).0 < nn && edges@[p].1 < nn by {
                        if p != ei { assert(edges@[p] == s0[p]); }
                    }
                    assert forall|p: int, q: int| 0 <= p < edges@.len() && 0 <= q < edges@.len() && p != q
                        implies edge_key(#[trigger] edges@[p]) != edge_key(#[trigger] edges@[q]) by {
                        if p != ei && q != ei {
                            assert(edges@[p] == s0[p] && edges@[q] == s0[q]);
                        } else {
                            let y = if p == ei { q } else { p };
                            assert(edges@[y] == s0[y]);
                            assert(set0.contains(pair_code(nn, edge_key(s0[y])) as u64));
                            lemma_code_range(nn, s0[y]);
                            lemma_code_range(nn, (u, v));
                        }
                    }
                    assert forall|p: int| 0 <= p < edges@.len() implies set@.contains(pair_code(nn, edge_key(#[trigger] edges@[p])) as u64) by {
                        if p != ei {
                            assert(edges@[p] == s0[p]);
                            lemma_code_range(nn, s0[p]);
                        }
                    }
                    assert forall|c: u64| #[trigger] set@.contains(c) implies exists|p: int| 0 <= p < edges@.len() && c == pair_code(nn, edge_key(#[trigger] edges@[p])) by {
                        if c == new_code {
                            assert(c == pair_code(nn, edge_key(edges@[ei])));
                        } else {
                            assert(set0.contains(c));
                            let p = choose|p: int| 0 <= p < s0.len() && c == pair_code(nn, edge_key(#[trigger] s0[p]));
                            assert(p != ei);
                            assert(edges@[p] == s0[p]);
                        }
                    }
                    assert forall|p: int| 0 <= p < m implies (#[trigger] edges@[p]).0 == lat[p].0
                        && ((p >= e + 1 || !rewire@[p]) ==> edges@[p] == lat[p]) by {
                        if p != ei { assert(edges@[p] == s0[p]); }
                    }
                }
            }
        }
        e += 1;
    }
    let r = TemplateGraph::new(n, false, edges);
    proof {
        assert forall|i: int, j: int| 0 <= i < n && 1 <= j <= half_k implies
            (#[trigger] r.edge_list()[i * half_k + (j - 1)]).0 == i
            && (!rewire@[i * half_k + (j - 1)] ==> r.edge_list()[i * half_k + (j - 1)].1 == (i + j) % (n as int)) by {
            assert(i * half_k + (j - 1) < n * half_k) by (nonlinear_arith)
                requires 0 <= i < n, 1 <= j <= half_k;
            assert(i * half_k + (j - 1) >= 0) by (nonlinear_arith)
                requires 0 <= i, 1 <= j;
            assert(lat[i * half_k + (j - 1)] == lattice_pair(nn, i, j));
            lemma_wrap(i + j, n as int);
        }
    }
    r
}

// ---------------------------------------------------------------------------
// Configuration model
// ---------------------------------------------------------------------------

/// `edges` pairs the entries of `s` in order: edge `q` joins `s[2q]` and `s[2q + 1]`.
pub open spec fn pairs_of(s: Seq<usize>, edges: Seq<(usize, usize)>) -> bool {
    &&& 2 * edges.len() == s.len()
    &&& forall|q: int| 0 <= q < edges.len() ==> #[trigger] edges[q] == (s[2 * q], s[2 * q + 1])
}

/// `s` lists node `v` exactly `d[v]` times, in some order: an arrangement of the stubs.
pub open spec fn stub_arrangement(s: Seq<usize>, d: Seq<usize>) -> bool {
    &&& s.len() == stub_total(d)
    &&& forall|v: usize| #[trigger] s.to_multiset().count(v) == wanted(d, v)
}

/// The sum of a degree sequence.
pub open spec fn stub_total(d: Seq<usize>) -> nat
    decreases d.len(),
{
    if d.len() == 0 { 0 } else { stub_total(d.drop_last()) + d.last() as nat }
}

/// The degree `degree_seq` asks of `v` (none past its end).
pub open spec fn wanted(d: Seq<usize>, v: usize) -> nat {
    if v < d.len() { d[v as int] as nat } else { 0 }
}

proof fn lemma_stub_total_prefix(d: Seq<usize>, i: int)
    requires
        0 <= i <= d.len(),
    ensures
        stub_total(d.take(i)) <= stub_total(d),
    decreases d.len() - i,
{
    if i < d.len() {
        lemma_stub_total_prefix(d, i + 1);
        assert(d.take(i + 1).drop_last() =~= d.take(i));
    } else {
        assert(d.take(i) =~= d);
    }
}

pub(crate) proof fn lemma_pairs_degree(stubs: Seq<usize>, edges: Seq<(usize, usize)>, k: int, v: usize)
    requires
        0 <= k,
        2 * k <= stubs.len(),
        edges.len() == k,
        forall|q: int| 0 <= q < k ==> #[trigger] edges[q] == (stubs[2 * q], stubs[2 * q + 1]),
    ensures
        degree_in(edges, v) == stubs.take(2 * k).to_multiset().count(v),
    decreases k,
{
    broadcast use vstd::multiset::group_multiset_axioms;
    if k == 0 {
        assert(stubs.take(0) =~= Seq::<usize>::empty());
    } else {
        lemma_pairs_degree(stubs, edges.drop_last(), k - 1, v);
        assert(stubs.take(2 * k) =~= stubs.take(2 * (k - 1)).push(stubs[2 * k - 2]).push(stubs[2 * k - 1]));
        assert(edges.last() == (stubs[2 * (k - 1)], stubs[2 * (k - 1) + 1]));
    }
}

/// Configuration model, raw variant: node `i` gets `degree_seq[i]` stubs, the stubs
/// are shuffled, and consecutive stubs are paired into edges. Self-loops and parallel
/// edges may occur; every node's degree (a self-loop counting twice) is exactly its
/// entry of `degree_seq`.
pub fn configuration_model(degree_seq: &Vec<usize>, rng: &mut StdRng) -> (r: TemplateGraph)
    requires
        stub_total(degree_seq@) <= usize::MAX,
        stub_total(degree_seq@) % 2 == 0,
    ensures
        r.node_count() == degree_seq@.len(),
        !r.is_directed(),
        2 * r.edge_list().len() == stub_total(degree_seq@),
        forall|v: usize| #[trigger] degree_in(r.edge_list(), v) == wanted(degree_seq@, v),
        exists|s: Seq<usize>| #[trigger] stub_arrangement(s, degree_seq@) && pairs_of(s, r.edge_list()),
        stub_total(degree_seq@) >= 2 ==> *final(rng) != *old(rng),
{
    let n = degree_seq.len();
    let ghost d = degree_seq@;
    let mut stubs: Vec<usize> = Vec::new();
    let mut i: usize = 0;
    assert(d.take(0) =~= Seq::<usize>::empty());
    while i < n
        invariant
            n == d.len(),
            d == degree_seq@,
            stub_total(d) <= usize::MAX,
            i <= n,
            stubs@.len() == stub_total(d.take(i as int)),
            forall|t: int| 0 <= t < stubs@.len() ==> (#[trigger] stubs@[t]) < n,
            forall|v: usize| #[trigger] stubs@.to_multiset().count(v) == (if v < i { d[v as int] as nat } else { 0nat }),
        decreases n - i,
    {
        let di = degree_seq[i];
        let ghost base = stubs@;
        proof {
            lemma_stub_total_prefix(d, i + 1);
            assert(d.take(i + 1).drop_last() =~= d.take(i as int));
        }
        let mut c: usize = 0;
        while c < di
            invariant
                n == d.len(),
                i < n,
                di == d[i as int],
                c <= di,
                stubs@.len() == base.len() + c,
                base.len() + di <= usize::MAX,
                forall|t: int| 0 <= t < stubs@.len() ==> (#[trigger] stubs@[t]) < n,
                forall|v: usize| #[trigger] stubs@.to_multiset().count(v) == base.to_multiset().count(v) + (if v == i { c as nat } else { 0nat }),
            decreases di - c,
        {
            let ghost s0 = stubs@;
            stubs.push(i);
            proof {
                broadcast use vstd::multiset::group_multiset_axioms;
                assert(stubs@.to_multiset() =~= s0.to_multiset().insert(i));
            }
            c += 1;
        }
        i += 1;
    }
    proof {
        assert(d.take(n as int) =~= d);
    }
    let ghost before = stubs@;
    shuffle_in_place(&mut stubs, rng);
    proof {
        broadcast use vstd::multiset::group_multiset_axioms;
        assert(stubs@.len() == before.len()) by {
            assert(stubs@.to_multiset().len() == before.to_multiset().len());
        }
        assert forall|t: int| 0 <= t < stubs@.len() implies (#[trigger] stubs@[t]) < n by {
            let x = stubs@[t];
            assert(stubs@.contains(x));
            assert(before.to_multiset().count(x) > 0);
            assert(before.contains(x));
            let q = choose|q: int| 0 <= q < before.len() && before[q] == x;
        }
    }
    let half = stubs.len() / 2;
    let mut edges: Vec<(usize, usize)> = Vec::new();
    let mut k: usize = 0;
    while k < half
        invariant
            half * 2 == stubs@.len(),
            stubs@.len() <= usize::MAX,
            k <= half,
            edges@.len() == k,
            forall|t: int| 0 <= t < stubs@.len() ==> (#[trigger] stubs@[t]) < n,
            forall|q: int| 0 <= q < k ==> #[trigger] edges@[q] == (stubs@[2 * q], stubs@[2 * q + 1]),
        decreases half - k,
    {
        edges.push((stubs[2 * k], stubs[2 * k + 1]));
        k += 1;
    }
    proof {
        assert forall|v: usize| #[trigger] degree_in(edges@, v) == wanted(d, v) by {
            lemma_pairs_degree(stubs@, edges@, half as int, v);
            assert(stubs@.take(2 * half) =~= stubs@);
            assert(stubs@.to_multiset().count(v) == before.to_multiset().count(v));
        }
        assert(stub_arrangement(stubs@, d));
        assert(pairs_of(stubs@, edges@));
    }
    TemplateGraph::new(n, false, edges)
}

/// The edges kept when loops and repeated pairs are erased: each edge in order,
/// unless it is a self-loop or joins a pair an earlier kept edge joins.
pub open spec fn simple_part(edges: Seq<(usize, usize)>) -> Seq<(usize, usize)>
    decreases edges.len(),
{
    if edges.len() == 0 {
        Seq::empty()
    } else {
        let prev = simple_part(edges.drop_last());
        let e = edges.last();
        if e.0 == e.1 || exists|p: int| 0 <= p < prev.len() && edge_key(#[trigger] prev[p]) == edge_key(e) {
            prev
        } else {
            prev.push(e)
        }
    }
}

/// Erase self-loops and repeated pairs from an undirected graph, keeping the first
/// edge of every pair.
fn erase_loops_and_repeats(graph: &TemplateGraph) -> (r: TemplateGraph)
    requires
        graph.node_count() * graph.node_count() <= u64::MAX,
    ensures
        r.node_count() == graph.node_count(),
        r.is_directed() == graph.is_directed(),
        r.edge_list() == simple_part(graph.edge_list()),
{
    let n = graph.len();
    let src = graph.edges();
    let mut seen: HashSet<u64> = HashSet::new();
    let mut out: Vec<(usize, usize)> = Vec::new();
    let mut p: usize = 0;
    while p < src.len()
        invariant
            n == graph.node_count(),
            n * n <= u64::MAX,
            src@ == graph.edge_list(),
            edges_below(src@, n as nat),
            p <= src@.len(),
            out@ == simple_part(src@.take(p as int)),
            edges_below(out@, n as nat),
            codes_of(seen@, out@, n as nat),
        decreases src@.len() - p,
    {
        let (a, b) = src[p];
        let ghost prev = out@;
        proof {
            assert(src@.take(p + 1).drop_last() =~= src@.take(p as int));
        }
        if a != b {
            let k = key_code(a, b, n);
            if !seen.contains(&k) {
                proof {
                    assert forall|q: int| 0 <= q < prev.len() implies edge_key(#[trigger] prev[q]) != edge_key((a, b)) by {
                        lemma_code_range(n as nat, prev[q]);
                        if edge_key(prev[q]) == edge_key((a, b)) {
                            assert(seen@.contains(pair_code(n as nat, edge_key(prev[q])) as u64));
                        }
                    }
                }
                seen.insert(k);
                out.push((a, b));
                proof {
                    assert forall|c: u64| #[trigger] seen@.contains(c) implies exists|q: int| 0 <= q < out@.len() && c == pair_code(n as nat, edge_key(#[trigger] out@[q])) by {
                        if c != k {
                            let q = choose|q: int| 0 <= q < prev.len() && c == pair_code(n as nat, edge_key(#[trigger] prev[q]));
                            assert(out@[q] == prev[q]);
                        } else {
                            assert(out@[prev.len() as int] == (a, b));
                        }
                    }
                    assert forall|q: int| 0 <= q < out@.len() implies seen@.contains(pair_code(n as nat, edge_key(#[trigger] out@[q])) as u64) by {
                        if q < prev.len() {
                            assert(out@[q] == prev[q]);
                            lemma_code_range(n as nat, prev[q]);
                        }
                    }
                }
            } else {
                proof {
                    let q = choose|q: int| 0 <= q < prev.len() && k == pair_code(n as nat, edge_key(#[trigger] prev[q]));
                    lemma_pair_code_injective(n as nat, edge_key(prev[q]), edge_key((a, b)));
                }
            }
        }
        p += 1;
    }
    proof {
        assert(src@.take(p as int) =~= src@);
    }
    TemplateGraph::new(n, graph.directed(), out)
}

proof fn lemma_simple_part(edges: Seq<(usize, usize)>, v: usize)
    ensures
        simple_edges(simple_part(edges)),
        degree_in(simple_part(edges), v) <= degree_in(edges, v),
    decreases edges.len(),
{
    if edges.len() > 0 {
        lemma_simple_part(edges.drop_last(), v);
        let prev = simple_part(edges.drop_last());
        let e = edges.last();
        if !(e.0 == e.1 || exists|p: int| 0 <= p < prev.len() && edge_key(#[trigger] prev[p]) == edge_key(e)) {
            let s = prev.push(e);
            assert(s.drop_last() =~= prev);
            assert forall|p: int, q: int| 0 <= p < s.len() && 0 <= q < s.len() && p != q
                implies edge_key(#[trigger] s[p]) != edge_key(#[trigger] s[q]) by {
                if p < prev.len() && q < prev.len() {
                    assert(s[p] == prev[p] && s[q] == prev[q]);
                } else if p < prev.len() {
                    assert(s[p] == prev[p]);
                } else {
                    assert(s[q] == prev[q]);
                }
            }
        }
    }
}

/// Configuration model, simple variant: the raw model with every self-loop and every
/// repeated pair after the first erased. The result is simple, and each node's
/// degree is at most its entry of `degree_seq`.
pub fn configuration_model_simple(degree_seq: &Vec<usize>, rng: &mut StdRng) -> (r: TemplateGraph)
    requires
        stub_total(degree_seq@) <= usize::MAX,
        stub_total(degree_seq@) % 2 == 0,
        degree_seq@.len() * degree_seq@.len() <= u64::MAX,
    ensures
        r.node_count() == degree_seq@.len(),
        !r.is_directed(),
        simple_edges(r.edge_list()),
        forall|v: usize| #[trigger] degree_in(r.edge_list(), v) <= wanted(degree_seq@, v),
        exists|raw: Seq<(usize, usize)>| {
            &&& forall|v: usize| #[trigger] degree_in(raw, v) == wanted(degree_seq@, v)
            &&& r.edge_list() == simple_part(raw)
        },
        exists|s: Seq<usize>, raw: Seq<(usize, usize)>| #[trigger] stub_arrangement(s, degree_seq@) && #[trigger] pairs_of(s, raw)
            && r.edge_list() == simple_part(raw),
        stub_total(degree_seq@) >= 2 ==> *final(rng) != *old(rng),
{
    let raw = configuration_model(degree_seq, rng);
    let r = erase_loops_and_repeats(&raw);
    proof {
        lemma_simple_part(raw.edge_list(), 0);
        assert forall|v: usize| #[trigger] degree_in(r.edge_list(), v) <= wanted(degree_seq@, v) by {
            lemma_simple_part(raw.edge_list(), v);
        }
        assert(forall|v: usize| #[trigger] degree_in(raw.edge_list(), v) == wanted(degree_seq@, v));
        let s = choose|s: Seq<usize>| #[trigger] stub_arrangement(s, degree_seq@) && pairs_of(s, raw.edge_list());
        assert(stub_arrangement(s, degree_seq@) && pairs_of(s, raw.edge_list()) && r.edge_list() == simple_part(raw.edge_list()));
    }
    r
}

} // verus!
