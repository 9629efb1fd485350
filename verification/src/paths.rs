//! Unweighted shortest-path distances by breadth-first search, and the pairwise
//! distance histogram the shortest-path kernel compares.
use vstd::prelude::*;
use crate::snapshot::Snapshot;
use crate::esu::simple_graph;
use crate::kernels::{Histogram, histogram_of, label_histogram};

verus! {

/// `v` can be reached from `s` by a walk of at most `k` steps.
pub open spec fn within(g: Seq<Seq<usize>>, s: int, v: int, k: nat) -> bool
    decreases k,
{
    v == s || (k > 0 && exists|u: int| 0 <= u < g.len() && #[trigger] g[u].contains(v as usize) && within(g, s, u, (k - 1) as nat))
}

/// `v` can be reached from `s` at all.
pub open spec fn reachable(g: Seq<Seq<usize>>, s: int, v: int) -> bool {
    exists|k: nat| #[trigger] within(g, s, v, k)
}

/// `d` is the length of a shortest walk from `s` to `v`.
pub open spec fn is_dist(g: Seq<Seq<usize>>, s: int, v: int, d: nat) -> bool {
    within(g, s, v, d) && (d == 0 || !within(g, s, v, (d - 1) as nat))
}

/// The shortest-path distance from `s` to `v` (meaningful where `v` is reachable).
pub open spec fn dist_of(g: Seq<Seq<usize>>, s: int, v: int) -> nat {
    choose|d: nat| is_dist(g, s, v, d)
}

proof fn lemma_within_mono(g: Seq<Seq<usize>>, s: int, v: int, k: nat, m: nat)
    requires
        within(g, s, v, k),
        k <= m,
    ensures
        within(g, s, v, m),
    decreases m,
{
    if k < m && v != s {
        let u = choose|u: int| 0 <= u < g.len() && #[trigger] g[u].contains(v as usize) && within(g, s, u, (k - 1) as nat);
        lemma_within_mono(g, s, u, (k - 1) as nat, (m - 1) as nat);
        assert(g[u].contains(v as usize) && within(g, s, u, (m - 1) as nat));
    }
}

proof fn lemma_dist_unique(g: Seq<Seq<usize>>, s: int, v: int, d: nat)
    requires
        is_dist(g, s, v, d),
    ensures
        dist_of(g, s, v) == d,
        reachable(g, s, v),
{
    let e = dist_of(g, s, v);
    assert(is_dist(g, s, v, e));
    if e < d {
        lemma_within_mono(g, s, v, e, (d - 1) as nat);
    } else if d < e {
        lemma_within_mono(g, s, v, d, (e - 1) as nat);
    }
}

/// Exactly the nodes with distance `level` are in `frontier`, each once.
spec fn frontier_ok(dist: Seq<Option<usize>>, frontier: Seq<usize>, level: nat) -> bool {
    &&& frontier.no_duplicates()
    &&& forall|i: int| 0 <= i < frontier.len() ==> (#[trigger] frontier[i]) < dist.len() && dist[frontier[i] as int] == Some(level as usize)
    &&& forall|v: int| 0 <= v < dist.len() && #[trigger] dist[v] == Some(level as usize) ==> frontier.contains(v as usize)
}

/// Every recorded distance is a true shortest distance of at most `level`, and
/// everything within `level` steps is recorded.
spec fn dist_ok(g: Seq<Seq<usize>>, s: int, dist: Seq<Option<usize>>, level: nat) -> bool {
    &&& dist.len() == g.len()
    &&& forall|v: int| 0 <= v < dist.len() && (#[trigger] dist[v]).is_some() ==> dist[v].unwrap() <= level && is_dist(g, s, v, dist[v].unwrap() as nat)
    &&& forall|v: int| 0 <= v < dist.len() && within(g, s, v, level) ==> (#[trigger] dist[v]).is_some()
}

spec fn seen_count(dist: Seq<Option<usize>>) -> nat
    decreases dist.len(),
{
    if dist.len() == 0 { 0 } else { seen_count(dist.drop_last()) + (if dist.last().is_some() { 1nat } else { 0nat }) }
}

proof fn lemma_seen_count_bound(dist: Seq<Option<usize>>)
    ensures
        seen_count(dist) <= dist.len(),
    decreases dist.len(),
{
    if dist.len() > 0 {
        lemma_seen_count_bound(dist.drop_last());
    }
}

proof fn lemma_seen_count_set(dist: Seq<Option<usize>>, v: int, x: usize)
    requires
        0 <= v < dist.len(),
        dist[v].is_none(),
    ensures
        seen_count(dist.update(v, Some(x))) == seen_count(dist) + 1,
    decreases dist.len(),
{
    let d2 = dist.update(v, Some(x));
    if v == dist.len() - 1 {
        assert(d2.drop_last() =~= dist.drop_last());
    } else {
        lemma_seen_count_set(dist.drop_last(), v, x);
        assert(d2.drop_last() =~= dist.drop_last().update(v, Some(x)));
    }
}

/// Breadth-first distances from `s`: `Some(d)` for a node at shortest distance `d`,
/// `None` for a node `s` cannot reach.
fn bfs_distances<N>(g: &Snapshot<N>, s: usize) -> (dist: Vec<Option<usize>>)
    requires
        s < g.ids().len(),
    ensures
        dist@.len() == g.graph().len(),
        forall|v: int| 0 <= v < dist@.len() ==> (#[trigger] dist@[v] matches Some(d) ==> is_dist(g.graph(), s as int, v, d as nat)),
        forall|v: int| 0 <= v < dist@.len() ==> (#[trigger] dist@[v]).is_none() ==> !reachable(g.graph(), s as int, v),
{
    let ghost gr = g.graph();
    let adj = g.adjacency();
    let n = g.len();
    let mut dist: Vec<Option<usize>> = Vec::new();
    let mut i: usize = 0;
    while i < n
        invariant
            i <= n,
            dist@.len() == i,
            forall|v: int| 0 <= v < i ==> (#[trigger] dist@[v]).is_none(),
        decreases n - i,
    {
        dist.push(None);
        i += 1;
    }
    proof {
        lemma_seen_count_set(dist@, s as int, 0);
    }
    dist.set(s, Some(0));
    let mut frontier: Vec<usize> = Vec::new();
    frontier.push(s);
    let mut level: usize = 0;
    proof {
        assert forall|v: int| 0 <= v < dist@.len() && within(gr, s as int, v, 0) implies (#[trigger] dist@[v]).is_some() by {}
        assert forall|v: int| 0 <= v < dist@.len() && (#[trigger] dist@[v]).is_some() implies dist@[v].unwrap() <= 0 && is_dist(gr, s as int, v, dist@[v].unwrap() as nat) by {
            if v != s {
                assert(dist@[v] == None::<usize>);
            }
        }
        assert forall|v: int| 0 <= v < dist@.len() && #[trigger] dist@[v] == Some(0usize) implies frontier@.contains(v as usize) by {
            if v != s {
                assert(dist@[v] == None::<usize>);
            }
            assert(frontier@[0] == s);
        }
        lemma_seen_count_bound(dist@);
    }
    while frontier.len() > 0
        invariant
            gr == g.graph(),
            n == gr.len(),
            n == g.ids().len(),
            simple_graph(gr),
            s < n,
            level < n,
            frontier@.len() > 0,
            dist_ok(gr, s as int, dist@, level as nat),
            frontier_ok(dist@, frontier@, level as nat),
            seen_count(dist@) <= n,
            seen_count(dist@) >= level + 1,
        decreases 2 * (n - seen_count(dist@)) + (if frontier@.len() > 0 { 1int } else { 0int }),
    {
        let ghost d0 = dist@;
        let ghost c0 = seen_count(dist@);
        let mut next: Vec<usize> = Vec::new();
        let mut fi: usize = 0;
        while fi < frontier.len()
            invariant
                gr == g.graph(),
                n == gr.len(),
                n == g.ids().len(),
                simple_graph(gr),
                s < n,
                level < n,
                d0.len() == n,
                dist@.len() == n,
                dist_ok(gr, s as int, d0, level as nat),
                frontier_ok(d0, frontier@, level as nat),
                fi <= frontier@.len(),
                seen_count(dist@) == c0 + next@.len(),
                seen_count(dist@) <= n,
                next@.no_duplicates(),
                // recorded entries only grow, new ones at level + 1, all in `next`
                forall|v: int| 0 <= v < n && (#[trigger] d0[v]).is_some() ==> dist@[v] == d0[v],
                forall|v: int| 0 <= v < n && d0[v].is_none() && (#[trigger] dist@[v]).is_some() ==>
                    dist@[v] == Some((level + 1) as usize) && next@.contains(v as usize),
                forall|t: int| 0 <= t < next@.len() ==> (#[trigger] next@[t]) < n && d0[next@[t] as int].is_none()
                    && dist@[next@[t] as int] == Some((level + 1) as usize),
                // every node adjacent to a processed frontier node is recorded
                forall|a: int, v: int| 0 <= a < fi && 0 <= v < n && #[trigger] gr[frontier@[a] as int].contains(v as usize)
                    ==> (#[trigger] dist@[v]).is_some(),
                // new entries are true distances
                forall|v: int| 0 <= v < n && d0[v].is_none() && (#[trigger] dist@[v]).is_some() ==>
                    is_dist(gr, s as int, v, (level + 1) as nat),
            decreases frontier@.len() - fi,
        {
            let u = frontier[fi];
            let nb = g.neighbors(u);
            let mut t: usize = 0;
            while t < nb.len()
                invariant
                    gr == g.graph(),
                    n == gr.len(),
                    simple_graph(gr),
                    s < n,
                    level < n,
                    d0.len() == n,
                    dist@.len() == n,
                    dist_ok(gr, s as int, d0, level as nat),
                    frontier_ok(d0, frontier@, level as nat),
                    fi < frontier@.len(),
                    u == frontier@[fi as int],
                    nb@ == gr[u as int],
                    t <= nb@.len(),
                    seen_count(dist@) == c0 + next@.len(),
                    seen_count(dist@) <= n,
                    next@.no_duplicates(),
                    forall|v: int| 0 <= v < n && (#[trigger] d0[v]).is_some() ==> dist@[v] == d0[v],
                    forall|v: int| 0 <= v < n && d0[v].is_none() && (#[trigger] dist@[v]).is_some() ==>
                        dist@[v] == Some((level + 1) as usize) && next@.contains(v as usize),
                    forall|q: int| 0 <= q < next@.len() ==> (#[trigger] next@[q]) < n && d0[next@[q] as int].is_none()
                        && dist@[next@[q] as int] == Some((level + 1) as usize),
                    forall|a: int, v: int| 0 <= a < fi && 0 <= v < n && #[trigger] gr[frontier@[a] as int].contains(v as usize)
                        ==> (#[trigger] dist@[v]).is_some(),
                    forall|q: int| 0 <= q < t ==> (#[trigger] dist@[nb@[q] as int]).is_some(),
                    forall|v: int| 0 <= v < n && d0[v].is_none() && (#[trigger] dist@[v]).is_some() ==>
                        is_dist(gr, s as int, v, (level + 1) as nat),
                decreases nb@.len() - t,
            {
                let v = nb[t];
                proof {
                    assert(gr[u as int][t as int] == v);
                }
                if dist[v].is_none() {
                    proof {
                        lemma_seen_count_set(dist@, v as int, (level + 1) as usize);
                        lemma_seen_count_bound(dist@.update(v as int, Some((level + 1) as usize)));
                        assert(d0[v as int].is_none());
                        // v is one step past u, and was not within `level` steps
                        assert(d0[u as int] == Some(level as usize));
                        assert(is_dist(gr, s as int, u as int, level as nat));
                        assert(within(gr, s as int, u as int, level as nat));
                        assert(gr[u as int].contains((v as int) as usize));
                        assert(within(gr, s as int, v as int, (level + 1) as nat));
                        if level > 0 {
                            assert(!within(gr, s as int, v as int, level as nat));
                        } else {
                            assert(v != s) by {
                                assert(d0[s as int].is_some()) by {
                                    assert(within(gr, s as int, s as int, level as nat));
                                }
                            }
                            assert(!within(gr, s as int, v as int, 0));
                        }
                    }
                    let ghost dist_before = dist@;
                    let ghost next_before = next@;
                    dist.set(v, Some(level + 1));
                    next.push(v);
                    proof {
                        assert forall|q: int| 0 <= q < next@.len() implies (#[trigger] next@[q]) < n && d0[next@[q] as int].is_none()
                            && dist@[next@[q] as int] == Some((level + 1) as usize) by {}
                        assert(next@.no_duplicates()) by {
                            assert forall|a: int, b: int| 0 <= a < b < next@.len() implies next@[a] != next@[b] by {
                                if b == next@.len() - 1 && next@[a] == next@[b] {
                                    assert(dist@[next@[a] as int] == Some((level + 1) as usize));
                                }
                            }
                        }
                        assert forall|v2: int| 0 <= v2 < n && d0[v2].is_none() && (#[trigger] dist@[v2]).is_some() implies
                            dist@[v2] == Some((level + 1) as usize) && next@.contains(v2 as usize) by {
                            if v2 == v {
                                assert(next@[next@.len() - 1] == v);
                            } else {
                                assert(dist_before[v2].is_some());
                                assert(next_before.contains(v2 as usize));
                                let q = choose|q: int| 0 <= q < next_before.len() && next_before[q] == v2 as usize;
                                assert(next@[q] == v2 as usize);
                            }
                        }
                    }
                }
                t += 1;
            }
            proof {
                assert forall|a: int, v: int| 0 <= a < fi + 1 && 0 <= v < n && #[trigger] gr[frontier@[a] as int].contains(v as usize)
                    implies (#[trigger] dist@[v]).is_some() by {
                    if a == fi {
                        let q = choose|q: int| 0 <= q < nb@.len() && nb@[q] == v as usize;
                        assert(dist@[nb@[q] as int].is_some());
                    }
                }
            }
            fi += 1;
        }
        let ghost d1 = dist@;
        proof {
            let lv = (level + 1) as nat;
            // everything within level + 1 steps is now recorded
            assert forall|v: int| 0 <= v < n && within(gr, s as int, v, lv) implies (#[trigger] d1[v]).is_some() by {
                if d0[v].is_none() {
                    if v != s {
                        let u = choose|u: int| 0 <= u < gr.len() && #[trigger] gr[u].contains(v as usize) && within(gr, s as int, u, level as nat);
                        assert(d0[u].is_some());
                        let du = d0[u].unwrap();
                        if du < level {
                            assert(within(gr, s as int, u, du as nat));
                            assert(gr[u].contains(v as usize) && within(gr, s as int, u, du as nat));
                            assert(within(gr, s as int, v, (du + 1) as nat));
                            lemma_within_mono(gr, s as int, v, (du + 1) as nat, level as nat);
                            assert(false);
                        } else {
                            assert(d0[u] == Some(level as usize));
                            assert(frontier@.contains(u as usize));
                            let a = choose|a: int| 0 <= a < frontier@.len() && frontier@[a] == u as usize;
                            assert(gr[frontier@[a] as int].contains(v as usize));
                        }
                    }
                }
            }
            assert forall|v: int| 0 <= v < n && (#[trigger] d1[v]).is_some() implies d1[v].unwrap() <= lv && is_dist(gr, s as int, v, d1[v].unwrap() as nat) by {
                if d0[v].is_some() {
                } else {
                }
            }
            assert(dist_ok(gr, s as int, d1, lv));
            assert forall|i: int| 0 <= i < next@.len() implies (#[trigger] next@[i]) < d1.len() && d1[next@[i] as int] == Some(lv as usize) by {}
            assert forall|v: int| 0 <= v < d1.len() && #[trigger] d1[v] == Some(lv as usize) implies next@.contains(v as usize) by {
                if d0[v].is_some() {
                    assert(d0[v].unwrap() <= level);
                }
            }
            assert(frontier_ok(d1, next@, lv));
        }
        if next.len() > 0 {
            proof {
                assert(seen_count(d1) >= level + 2);
            }
            level = level + 1;
            frontier = next;
        } else {
            // nothing new: every reachable node is recorded already
            proof {
                assert(d1 == d0) by {
                    assert forall|v: int| 0 <= v < n implies d1[v] == d0[v] by {
                        if d0[v].is_none() && d1[v].is_some() {
                            assert(next@.contains(v as usize));
                        }
                    }
                    assert(d1 =~= d0);
                }
            }
            frontier = next;
            proof {
                // a walk of any length stays within the recorded set
                assert forall|v: int, k: nat| 0 <= v < n && #[trigger] within(gr, s as int, v, k) implies d1[v].is_some() by {
                    lemma_closed(gr, s as int, d1, level as nat, v, k);
                }
            }
            proof {
                assert forall|v: int| 0 <= v < dist@.len() && (#[trigger] dist@[v]).is_none() implies !reachable(gr, s as int, v) by {
                    if reachable(gr, s as int, v) {
                        let k = choose|k: nat| #[trigger] within(gr, s as int, v, k);
                        assert(within(gr, s as int, v, k));
                    }
                }
                assert forall|v: int| 0 <= v < dist@.len() implies (#[trigger] dist@[v] matches Some(d) ==> is_dist(gr, s as int, v, d as nat)) by {}
            }
            return dist;
        }
    }
    proof {
        assert(false);
    }
    dist
}

/// With no node at distance `level + 1`, every walk from `s` ends at a recorded node.
proof fn lemma_closed(g: Seq<Seq<usize>>, s: int, dist: Seq<Option<usize>>, level: nat, v: int, k: nat)
    requires
        dist_ok(g, s, dist, level + 1),
        forall|w: int| 0 <= w < dist.len() ==> (#[trigger] dist[w]) != Some((level + 1) as usize),
        level + 1 <= usize::MAX,
        0 <= v < g.len(),
        within(g, s, v, k),
        forall|a: int, t: int| 0 <= a < g.len() && 0 <= t < g[a].len() ==> (#[trigger] g[a][t]) < g.len(),
    ensures
        dist[v].is_some(),
    decreases k,
{
    if k <= level + 1 {
        lemma_within_mono(g, s, v, k, level + 1);
    } else if v != s {
        let u = choose|u: int| 0 <= u < g.len() && #[trigger] g[u].contains(v as usize) && within(g, s, u, (k - 1) as nat);
        lemma_closed(g, s, dist, level, u, (k - 1) as nat);
        let du = dist[u].unwrap();
        assert(du <= level);
        assert(within(g, s, u, du as nat));
        assert(g[u].contains(v as usize) && within(g, s, u, du as nat));
        assert(within(g, s, v, (du + 1) as nat));
        lemma_within_mono(g, s, v, (du + 1) as nat, level + 1);
    }
}

/// Shortest distances from `s` to the targets `s + 1 .. t` that `s` reaches, in
/// target order.
pub open spec fn dist_row(g: Seq<Seq<usize>>, s: int, t: int) -> Seq<u64>
    decreases t - s,
{
    if t <= s + 1 {
        Seq::empty()
    } else if reachable(g, s, t - 1) {
        dist_row(g, s, t - 1).push(dist_of(g, s, t - 1) as u64)
    } else {
        dist_row(g, s, t - 1)
    }
}

/// The shortest distance of every unordered pair `{s, t}` with `s < m` that is
/// connected, sources ascending, then targets ascending.
pub open spec fn pair_distances(g: Seq<Seq<usize>>, m: int) -> Seq<u64>
    decreases m,
{
    if m <= 0 { Seq::empty() } else { pair_distances(g, m - 1) + dist_row(g, m - 1, g.len() as int) }
}

/// Histogram of pairwise shortest-path distances: each unordered pair of distinct
/// nodes that are connected contributes one observation of its distance; pairs in
/// different components contribute nothing.
pub fn shortest_path_histogram<N>(g: &Snapshot<N>) -> (r: Histogram)
    ensures
        histogram_of(r@, pair_distances(g.graph(), g.ids().len() as int)),
{
    let ghost gr = g.graph();
    let _adj = g.adjacency();
    let n = g.len();
    let mut labels: Vec<u64> = Vec::new();
    let mut s: usize = 0;
    while s < n
        invariant
            gr == g.graph(),
            n == gr.len(),
            n == g.ids().len(),
            s <= n,
            labels@ == pair_distances(gr, s as int),
        decreases n - s,
    {
        let dist = bfs_distances(g, s);
        let ghost before = labels@;
        let mut t: usize = s + 1;
        while t < n
            invariant
                gr == g.graph(),
                n == gr.len(),
                s < n,
                s + 1 <= t <= n,
                dist@.len() == n,
                forall|v: int| 0 <= v < dist@.len() ==> (#[trigger] dist@[v] matches Some(d) ==> is_dist(gr, s as int, v, d as nat)),
                forall|v: int| 0 <= v < dist@.len() ==> (#[trigger] dist@[v]).is_none() ==> !reachable(gr, s as int, v),
                labels@ == before + dist_row(gr, s as int, t as int),
            decreases n - t,
        {
            match dist[t] {
                Some(d) => {
                    proof {
                        assert(dist@[t as int] == Some(d));
                        lemma_dist_unique(gr, s as int, t as int, d as nat);
                    }
                    labels.push(d as u64);
                    proof {
                        assert(labels@ =~= before + dist_row(gr, s as int, t + 1));
                    }
                },
                None => {
                    proof {
                        assert(dist@[t as int].is_none());
                        assert(dist_row(gr, s as int, t + 1) == dist_row(gr, s as int, t as int));
                    }
                },
            }
            t += 1;
        }
        proof {
            assert(labels@ =~= pair_distances(gr, s + 1));
        }
        s += 1;
    }
    label_histogram(&labels)
}

} // verus!
