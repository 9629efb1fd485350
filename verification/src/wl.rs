//! Weisfeiler–Lehman label refinement over a batch of graphs sharing one signature
//! alphabet, and the WL subtree kernel between two graphs.
use vstd::prelude::*;
use vstd::relations::{sorted_by, total_ordering};
use vstd::multiset::Multiset;
use crate::snapshot::Snapshot;
use crate::kernels::{wl_kernel, wl_sum, degree_labeling, cnt};

verus! {

broadcast use vstd::seq_lib::group_to_multiset_ensures;

/// The order labels are sorted by.
pub open spec fn label_le() -> spec_fn(u64, u64) -> bool {
    |a: u64, b: u64| a <= b
}

/// The labels of `v`'s neighbours under `lab`, as a multiset.
pub open spec fn nbr_labels(g: Seq<Seq<usize>>, lab: Seq<u64>, v: int) -> Multiset<u64> {
    g[v].map_values(|u: usize| lab[u as int]).to_multiset()
}

/// The WL signature of `v`: its own label and the multiset of its neighbours' labels.
pub open spec fn wl_sig(g: Seq<Seq<usize>>, lab: Seq<u64>, v: int) -> (u64, Multiset<u64>) {
    (lab[v], nbr_labels(g, lab, v))
}

/// `lab` gives one label per node of each graph of the batch.
pub open spec fn labels_fit(gs: Seq<Seq<Seq<usize>>>, lab: Seq<Seq<u64>>) -> bool {
    &&& lab.len() == gs.len()
    &&& forall|i: int| 0 <= i < gs.len() ==> (#[trigger] lab[i]).len() == gs[i].len()
}

/// `next` is one WL round after `cur` over the batch `gs`: two nodes, of the same or of
/// different graphs, get equal new labels exactly when their signatures are equal.
pub open spec fn refines(gs: Seq<Seq<Seq<usize>>>, cur: Seq<Seq<u64>>, next: Seq<Seq<u64>>) -> bool {
    &&& labels_fit(gs, next)
    &&& forall|i: int, v: int, j: int, u: int|
        0 <= i < gs.len() && 0 <= v < gs[i].len() && 0 <= j < gs.len() && 0 <= u < gs[j].len()
            ==> (#[trigger] next[i][v] == #[trigger] next[j][u] <==> wl_sig(gs[i], cur[i], v) == wl_sig(gs[j], cur[j], u))
}

/// Round `t` of a refinement history, across the batch.
pub open spec fn round_of(h: Seq<Seq<Seq<u64>>>, t: int) -> Seq<Seq<u64>> {
    Seq::new(h.len(), |i: int| h[i][t])
}

/// The neighbour lists of every graph of the batch.
pub open spec fn graphs_of<N>(graphs: Seq<Snapshot<N>>) -> Seq<Seq<Seq<usize>>> {
    Seq::new(graphs.len(), |i: int| graphs[i].graph())
}

proof fn lemma_label_le_total()
    ensures
        total_ordering(label_le()),
{
}

proof fn lemma_insert_to_multiset(s: Seq<u64>, i: int, x: u64)
    requires
        0 <= i <= s.len(),
    ensures
        s.insert(i, x).to_multiset() =~= s.to_multiset().insert(x),
{
    broadcast use vstd::multiset::group_multiset_axioms;
    let t = s.insert(i, x);
    assert(t.remove(i) =~= s);
    assert(t[i] == x);
    assert(t.to_multiset().count(x) > 0) by {
        assert(t.contains(x));
    }
    assert(s.to_multiset() =~= t.to_multiset().remove(x));
}

/// The labels of `v` sorted ascending.
fn sorted_labels(v: &Vec<u64>) -> (r: Vec<u64>)
    ensures
        sorted_by(r@, label_le()),
        r@.to_multiset() == v@.to_multiset(),
{
    let mut r: Vec<u64> = Vec::new();
    let mut t: usize = 0;
    assert(v@.take(0) =~= Seq::<u64>::empty());
    while t < v.len()
        invariant
            t <= v@.len(),
            sorted_by(r@, label_le()),
            r@.to_multiset() == v@.take(t as int).to_multiset(),
        decreases v@.len() - t,
    {
        let x = v[t];
        let mut i: usize = 0;
        while i < r.len() && r[i] <= x
            invariant
                i <= r@.len(),
                sorted_by(r@, label_le()),
                forall|j: int| 0 <= j < i ==> #[trigger] r@[j] <= x,
            decreases r@.len() - i,
        {
            i += 1;
        }
        let ghost r0 = r@;
        proof {
            assert forall|j: int| i <= j < r0.len() implies x < #[trigger] r0[j] by {
                assert(label_le()(r0[i as int], r0[j]) || i == j);
            }
        }
        r.insert(i, x);
        proof {
            assert(r@ == r0.insert(i as int, x));
            assert forall|a: int, b: int| 0 <= a < b < r@.len() implies #[trigger] label_le()(r@[a], r@[b]) by {
                if b < i {
                    assert(label_le()(r0[a], r0[b]));
                } else if b == i {
                } else if a < i {
                    assert(r@[b] == r0[b - 1]);
                } else if a == i {
                    assert(r@[b] == r0[b - 1]);
                } else {
                    assert(label_le()(r0[a - 1], r0[b - 1]));
                }
            }
            lemma_insert_to_multiset(r0, i as int, x);
            assert(v@.take(t + 1) =~= v@.take(t as int).push(x));
        }
        t += 1;
    }
    assert(v@.take(t as int) =~= v@);
    r
}

/// Whether two label sequences are equal.
fn same_labels(a: &Vec<u64>, b: &Vec<u64>) -> (r: bool)
    ensures
        r == (a@ == b@),
{
    if a.len() != b.len() {
        return false;
    }
    let mut t: usize = 0;
    while t < a.len()
        invariant
            a@.len() == b@.len(),
            t <= a@.len(),
            forall|j: int| 0 <= j < t ==> a@[j] == b@[j],
        decreases a@.len() - t,
    {
        if a[t] != b[t] {
            return false;
        }
        t += 1;
    }
    assert(a@ =~= b@);
    true
}

/// The signature dictionary: entry `d` is `(own label, sorted neighbour labels)`,
/// and no entry occurs twice.
spec fn dict_ok(dl: Seq<u64>, ds: Seq<Seq<u64>>) -> bool {
    &&& dl.len() == ds.len()
    &&& forall|d: int| 0 <= d < ds.len() ==> sorted_by(#[trigger] ds[d], label_le())
    &&& forall|d: int, e: int| 0 <= d < ds.len() && 0 <= e < ds.len() && d != e
        ==> !(#[trigger] dl[d] == #[trigger] dl[e] && ds[d] == ds[e])
}

/// Find the entry `(l, s)` in the dictionary, adding it when absent.
fn lookup_or_add(dl: &mut Vec<u64>, ds: &mut Vec<Vec<u64>>, l: u64, s: Vec<u64>) -> (id: usize)
    requires
        dict_ok(old(dl)@, old(ds).deep_view()),
        sorted_by(s@, label_le()),
    ensures
        dict_ok(final(dl)@, final(ds).deep_view()),
        id < final(dl)@.len(),
        final(dl)@[id as int] == l,
        final(ds).deep_view()[id as int] == s@,
        final(dl)@.len() >= old(dl)@.len(),
        forall|d: int| 0 <= d < old(dl)@.len() ==> #[trigger] final(dl)@[d] == old(dl)@[d] && final(ds).deep_view()[d] == old(ds).deep_view()[d],
{
    let ghost dv = ds.deep_view();
    let mut d: usize = 0;
    while d < ds.len()
        invariant
            dict_ok(dl@, ds.deep_view()),
            dv == ds.deep_view(),
            d <= ds@.len(),
            forall|e: int| 0 <= e < d ==> !(#[trigger] dl@[e] == l && dv[e] == s@),
        decreases ds@.len() - d,
    {
        assert(ds@[d as int]@ == dv[d as int]);
        if dl[d] == l && same_labels(&ds[d], &s) {
            return d;
        }
        d += 1;
    }
    let ghost sv = s@;
    let ghost ds_old = ds@;
    dl.push(l);
    ds.push(s);
    proof {
        assert forall|e: int| 0 <= e < ds@.len() implies #[trigger] ds.deep_view()[e] == dv.push(sv)[e] by {
            if e < ds_old.len() {
                assert(ds@[e] == ds_old[e]);
            }
        }
        assert(ds.deep_view() =~= dv.push(sv));
    }
    d
}

/// One WL round over the batch.
fn refine_round<N>(graphs: &Vec<Snapshot<N>>, cur: &Vec<Vec<u64>>) -> (next: Vec<Vec<u64>>)
    requires
        labels_fit(graphs_of(graphs@), cur.deep_view()),
    ensures
        refines(graphs_of(graphs@), cur.deep_view(), next.deep_view()),
{
    let ghost gs = graphs_of(graphs@);
    let ghost cv = cur.deep_view();
    let mut dl: Vec<u64> = Vec::new();
    let mut ds: Vec<Vec<u64>> = Vec::new();
    let mut next: Vec<Vec<u64>> = Vec::new();
    // for every finished node, the dictionary entry of its new label
    let mut gi: usize = 0;
    proof {
        assert(ds.deep_view() =~= Seq::<Seq<u64>>::empty());
    }
    while gi < graphs.len()
        invariant
            gs == graphs_of(graphs@),
            cv == cur.deep_view(),
            labels_fit(gs, cv),
            gi <= graphs@.len(),
            next@.len() == gi,
            dict_ok(dl@, ds.deep_view()),
            forall|i: int| 0 <= i < gi ==> (#[trigger] next@[i])@.len() == gs[i].len(),
            forall|i: int, v: int| 0 <= i < gi && 0 <= v < gs[i].len() ==> {
                let id = #[trigger] next@[i]@[v];
                &&& id < dl@.len()
                &&& dl@[id as int] == cv[i][v]
                &&& ds.deep_view()[id as int].to_multiset() == nbr_labels(gs[i], cv[i], v)
            },
        decreases graphs@.len() - gi,
    {
        let g = &graphs[gi];
        let adj = g.adjacency();
        let n = g.len();
        let cl = &cur[gi];
        proof {
            assert(gs[gi as int] == g.graph());
            assert(cl@ == cv[gi as int]);
        }
        let mut labels: Vec<u64> = Vec::new();
        let mut v: usize = 0;
        while v < n
            invariant
                gs == graphs_of(graphs@),
                cv == cur.deep_view(),
                labels_fit(gs, cv),
                gi < graphs@.len(),
                g == graphs@[gi as int],
                gs[gi as int] == g.graph(),
                cl@ == cv[gi as int],
                n == g.ids().len(),
                g.graph().len() == n,
                crate::esu::simple_graph(g.graph()),
                next@.len() == gi,
                v <= n,
                labels@.len() == v,
                dict_ok(dl@, ds.deep_view()),
                forall|i: int| 0 <= i < gi ==> (#[trigger] next@[i])@.len() == gs[i].len(),
                forall|i: int, w: int| 0 <= i < gi && 0 <= w < gs[i].len() ==> {
                    let id = #[trigger] next@[i]@[w];
                    &&& id < dl@.len()
                    &&& dl@[id as int] == cv[i][w]
                    &&& ds.deep_view()[id as int].to_multiset() == nbr_labels(gs[i], cv[i], w)
                },
                forall|w: int| 0 <= w < v ==> {
                    let id = #[trigger] labels@[w];
                    &&& id < dl@.len()
                    &&& dl@[id as int] == cv[gi as int][w]
                    &&& ds.deep_view()[id as int].to_multiset() == nbr_labels(gs[gi as int], cv[gi as int], w)
                },
            decreases n - v,
        {
            let nb = g.neighbors(v);
            let ghost gv = g.graph()[v as int];
            let mut nl: Vec<u64> = Vec::new();
            let mut t: usize = 0;
            while t < nb.len()
                invariant
                    nb@ == gv,
                    gv == g.graph()[v as int],
                    v < n,
                    g.graph().len() == n,
                    cl@.len() == n,
                    crate::esu::simple_graph(g.graph()),
                    t <= nb@.len(),
                    nl@ == gv.take(t as int).map_values(|u: usize| cl@[u as int]),
                decreases nb@.len() - t,
            {
                let u = nb[t];
                proof {
                    assert(g.graph()[v as int][t as int] == u);
                }
                nl.push(cl[u]);
                proof {
                    assert(gv.take(t + 1).map_values(|u: usize| cl@[u as int]) =~= gv.take(t as int).map_values(|u: usize| cl@[u as int]).push(cl@[u as int]));
                }
                t += 1;
            }
            proof {
                assert(gv.take(t as int) =~= gv);
            }
            let sl = sorted_labels(&nl);
            let ghost dl0 = dl@;
            let ghost ds0 = ds.deep_view();
            let own = cl[v];
            let id = lookup_or_add(&mut dl, &mut ds, own, sl);
            labels.push(id as u64);
            proof {
                assert(nbr_labels(gs[gi as int], cv[gi as int], v as int) == nl@.to_multiset());
                assert forall|i: int, w: int| 0 <= i < gi && 0 <= w < gs[i].len() implies {
                    let id = #[trigger] next@[i]@[w];
                    &&& id < dl@.len()
                    &&& dl@[id as int] == cv[i][w]
                    &&& ds.deep_view()[id as int].to_multiset() == nbr_labels(gs[i], cv[i], w)
                } by {
                    let id = next@[i]@[w];
                    assert(id < dl0.len());
                }
                assert forall|w: int| 0 <= w < v + 1 implies {
                    let id = #[trigger] labels@[w];
                    &&& id < dl@.len()
                    &&& dl@[id as int] == cv[gi as int][w]
                    &&& ds.deep_view()[id as int].to_multiset() == nbr_labels(gs[gi as int], cv[gi as int], w)
                } by {
                    if w < v {
                        assert(labels@[w] < dl0.len());
                    }
                }
            }
            v += 1;
        }
        next.push(labels);
        proof {
            assert forall|i: int, w: int| 0 <= i < gi + 1 && 0 <= w < gs[i].len() implies {
                let id = #[trigger] next@[i]@[w];
                &&& id < dl@.len()
                &&& dl@[id as int] == cv[i][w]
                &&& ds.deep_view()[id as int].to_multiset() == nbr_labels(gs[i], cv[i], w)
            } by {
                if i == gi {
                    assert(next@[i]@[w] == labels@[w]);
                }
            }
        }
        gi += 1;
    }
    proof {
        let nv = next.deep_view();
        let dd = ds.deep_view();
        assert forall|i: int| 0 <= i < gs.len() implies (#[trigger] nv[i]).len() == gs[i].len() by {
            assert(nv[i] == next@[i]@);
        }
        assert forall|i: int, v: int, j: int, u: int|
            0 <= i < gs.len() && 0 <= v < gs[i].len() && 0 <= j < gs.len() && 0 <= u < gs[j].len()
            implies (#[trigger] nv[i][v] == #[trigger] nv[j][u] <==> wl_sig(gs[i], cv[i], v) == wl_sig(gs[j], cv[j], u)) by {
            assert(nv[i] == next@[i]@);
            assert(nv[j] == next@[j]@);
            let a = nv[i][v];
            let b = nv[j][u];
            lemma_label_le_total();
            if wl_sig(gs[i], cv[i], v) == wl_sig(gs[j], cv[j], u) {
                vstd::seq_lib::lemma_sorted_unique(dd[a as int], dd[b as int], label_le());
            }
        }
    }
    next
}

/// Run `iterations` rounds of WL refinement across a batch of graphs sharing one
/// signature alphabet. For each graph the result holds `iterations + 1` labelings:
/// round `0` is its initial labeling, and each later round gives two nodes (of the
/// same or of different graphs) equal labels exactly when their signatures — own
/// label and multiset of neighbour labels — were equal in the round before.
pub fn wl_refine<N>(graphs: &Vec<Snapshot<N>>, initial: &Vec<Vec<u64>>, iterations: usize) -> (r: Vec<Vec<Vec<u64>>>)
    requires
        labels_fit(graphs_of(graphs@), initial.deep_view()),
        iterations < usize::MAX,
    ensures
        r@.len() == graphs@.len(),
        forall|i: int| 0 <= i < r@.len() ==> (#[trigger] r@[i])@.len() == iterations + 1,
        forall|i: int| 0 <= i < r@.len() ==> (#[trigger] r.deep_view()[i])[0] == initial.deep_view()[i],
        forall|t: int| 0 <= t <= iterations ==> #[trigger] labels_fit(graphs_of(graphs@), round_of(r.deep_view(), t)),
        forall|t: int| 1 <= t <= iterations ==> #[trigger] refines(graphs_of(graphs@), round_of(r.deep_view(), t - 1), round_of(r.deep_view(), t)),
{
    let ghost gs = graphs_of(graphs@);
    let mut rounds: Vec<Vec<Vec<u64>>> = Vec::new();
    let first = initial.clone();
    proof {
        assert(first.deep_view() =~= initial.deep_view()) by {
            assert forall|i: int| 0 <= i < first@.len() implies #[trigger] first.deep_view()[i] == initial.deep_view()[i] by {
                assert(first@[i]@ == initial@[i]@);
            }
        }
    }
    rounds.push(first);
    let mut t: usize = 0;
    while t < iterations
        invariant
            gs == graphs_of(graphs@),
            t <= iterations,
            rounds@.len() == t + 1,
            rounds.deep_view()[0] == initial.deep_view(),
            forall|s: int| 0 <= s <= t ==> #[trigger] labels_fit(gs, rounds.deep_view()[s]),
            forall|s: int| 1 <= s <= t ==> #[trigger] refines(gs, rounds.deep_view()[s - 1], rounds.deep_view()[s]),
        decreases iterations - t,
    {
        let ghost rv = rounds.deep_view();
        proof {
            assert(rounds@[t as int].deep_view() == rv[t as int]);
            assert(labels_fit(gs, rv[t as int]));
        }
        let next = refine_round(graphs, &rounds[t]);
        rounds.push(next);
        proof {
            assert(rounds.deep_view() =~= rv.push(next.deep_view()));
        }
        t += 1;
    }
    // transpose: one history per graph
    let ghost rv = rounds.deep_view();
    let mut r: Vec<Vec<Vec<u64>>> = Vec::new();
    let mut i: usize = 0;
    while i < graphs.len()
        invariant
            gs == graphs_of(graphs@),
            rv == rounds.deep_view(),
            rounds@.len() == iterations + 1,
            iterations < usize::MAX,
            forall|s: int| 0 <= s <= iterations ==> #[trigger] labels_fit(gs, rv[s]),
            i <= graphs@.len(),
            r@.len() == i,
            forall|a: int| 0 <= a < i ==> (#[trigger] r@[a])@.len() == iterations + 1,
            forall|a: int, s: int| 0 <= a < i && 0 <= s <= iterations ==> #[trigger] r.deep_view()[a][s] == rv[s][a],
        decreases graphs@.len() - i,
    {
        let mut h: Vec<Vec<u64>> = Vec::new();
        let mut s: usize = 0;
        while s <= iterations
            invariant
                rv == rounds.deep_view(),
                rounds@.len() == iterations + 1,
                forall|s: int| 0 <= s <= iterations ==> #[trigger] labels_fit(gs, rv[s]),
                i < graphs@.len(),
                gs.len() == graphs@.len(),
                iterations < usize::MAX,
                s <= iterations + 1,
                h@.len() == s,
                forall|q: int| 0 <= q < s ==> #[trigger] h@[q]@ == rv[q][i as int],
            decreases iterations + 1 - s,
        {
            assert(labels_fit(gs, rv[s as int]));
            let row = &rounds[s];
            proof {
                assert(row.deep_view() == rv[s as int]);
                assert(row@[i as int]@ == rv[s as int][i as int]);
            }
            let c = row[i].clone();
            proof { assert(c@ =~= rv[s as int][i as int]); }
            h.push(c);
            s += 1;
        }
        let ghost rd0 = r.deep_view();
        r.push(h);
        proof {
            assert forall|a: int, s: int| 0 <= a < i + 1 && 0 <= s <= iterations implies #[trigger] r.deep_view()[a][s] == rv[s][a] by {
                if a < i {
                    assert(r.deep_view()[a] == rd0[a]);
                } else {
                    assert(r.deep_view()[a] == h.deep_view());
                    assert(h.deep_view()[s] == h@[s]@);
                }
            }
        }
        i += 1;
    }
    proof {
        let rd = r.deep_view();
        assert forall|s: int| 0 <= s <= iterations implies round_of(rd, s) =~= #[trigger] rv[s] by {
            assert(labels_fit(gs, rv[s]));
        }
        assert forall|a: int| 0 <= a < r@.len() implies (#[trigger] rd[a])[0] == initial.deep_view()[a] by {
            assert(round_of(rd, 0) == rv[0]);
            assert(round_of(rd, 0)[a] == rd[a][0]);
        }
        assert forall|s: int| 0 <= s <= iterations implies #[trigger] labels_fit(gs, round_of(rd, s)) by {
            assert(round_of(rd, s) == rv[s]);
        }
        assert forall|s: int| 1 <= s <= iterations implies #[trigger] refines(gs, round_of(rd, s - 1), round_of(rd, s)) by {
            assert(round_of(rd, s) == rv[s]);
            assert(round_of(rd, s - 1) == rv[s - 1]);
        }
    }
    r
}

/// A batch of two graphs.
pub open spec fn pair_of(a: Seq<Seq<usize>>, b: Seq<Seq<usize>>) -> Seq<Seq<Seq<usize>>> {
    seq![a, b]
}

/// Every node's degree, as its label.
pub open spec fn degree_labels(g: Seq<Seq<usize>>) -> Seq<u64> {
    Seq::new(g.len(), |i: int| g[i].len() as u64)
}

proof fn lemma_cnt_bound(s: Seq<u64>, v: u64)
    ensures
        cnt(s, v) <= s.len(),
    decreases s.len(),
{
    if s.len() > 0 {
        lemma_cnt_bound(s.drop_last(), v);
    }
}

proof fn lemma_matches_bound(la: Seq<u64>, lb: Seq<u64>)
    ensures
        crate::kernels::matches(la, lb) <= la.len() * lb.len(),
    decreases la.len(),
{
    if la.len() > 0 {
        lemma_matches_bound(la.drop_last(), lb);
        lemma_cnt_bound(lb, la.last());
        assert((la.len() - 1) * lb.len() + lb.len() == la.len() * lb.len()) by (nonlinear_arith);
    }
}

proof fn lemma_wl_sum_bound(a: Seq<Seq<u64>>, b: Seq<Seq<u64>>, n: int, na: nat, nb: nat)
    requires
        0 <= n <= a.len(),
        n <= b.len(),
        forall|t: int| 0 <= t < n ==> (#[trigger] a[t]).len() == na && b[t].len() == nb,
    ensures
        wl_sum(a, b, n) <= n * na * nb,
    decreases n,
{
    if n > 0 {
        lemma_wl_sum_bound(a, b, n - 1, na, nb);
        lemma_matches_bound(a[n - 1], b[n - 1]);
        assert((n - 1) * na * nb + na * nb == n * na * nb) by (nonlinear_arith);
    }
}

/// The WL subtree kernel between exactly two graphs, with degree labels to start
/// and `iterations` refinement rounds shared by the pair.
pub fn wl_kernel_pair<N>(g: Snapshot<N>, other: Snapshot<N>, iterations: usize) -> (r: u64)
    requires
        iterations < usize::MAX,
        (iterations + 1) * g.ids().len() * other.ids().len() <= u64::MAX,
    ensures
        exists|h: Seq<Seq<Seq<u64>>>| {
            &&& h.len() == 2
            &&& #[trigger] h[0].len() == iterations + 1
            &&& h[1].len() == iterations + 1
            &&& h[0][0] == degree_labels(g.graph())
            &&& h[1][0] == degree_labels(other.graph())
            &&& forall|t: int| 0 <= t <= iterations ==> #[trigger] labels_fit(pair_of(g.graph(), other.graph()), round_of(h, t))
            &&& forall|t: int| 1 <= t <= iterations ==> #[trigger] refines(pair_of(g.graph(), other.graph()), round_of(h, t - 1), round_of(h, t))
            &&& r == wl_sum(h[0], h[1], iterations + 1)
        },
{
    let ghost gg = g.graph();
    let ghost og = other.graph();
    let n0 = g.len();
    let n1 = other.len();
    let _a0 = g.adjacency();
    let _a1 = other.adjacency();
    let d0 = degree_labeling(&g);
    let d1 = degree_labeling(&other);
    proof {
        assert(d0@ =~= degree_labels(gg));
        assert(d1@ =~= degree_labels(og));
    }
    let graphs = vec![g, other];
    let initial = vec![d0, d1];
    let ghost gs = graphs_of(graphs@);
    proof {
        assert(gs =~= pair_of(gg, og));
        assert(initial.deep_view() =~= seq![degree_labels(gg), degree_labels(og)]) by {
            assert(initial.deep_view()[0] == initial@[0]@);
            assert(initial.deep_view()[1] == initial@[1]@);
        }
    }
    let h = wl_refine(&graphs, &initial, iterations);
    let ghost hd = h.deep_view();
    proof {
        assert(h@[0]@.len() == iterations + 1);
        assert(h@[1]@.len() == iterations + 1);
        assert forall|t: int| 0 <= t < iterations + 1 implies (#[trigger] hd[0][t]).len() == n0 && hd[1][t].len() == n1 by {
            assert(labels_fit(gs, round_of(hd, t)));
            assert(round_of(hd, t)[0] == hd[0][t]);
            assert(round_of(hd, t)[1] == hd[1][t]);
        }
        lemma_wl_sum_bound(hd[0], hd[1], iterations + 1, n0 as nat, n1 as nat);
        assert(h@[0].deep_view() == hd[0]);
        assert(h@[1].deep_view() == hd[1]);
    }
    let r = wl_kernel(&h[0], &h[1]);
    proof {
        assert(hd[0][0] == degree_labels(gg));
        assert(hd[1][0] == degree_labels(og));
        assert(hd[0].len() == iterations + 1);
    }
    r
}

} // verus!
