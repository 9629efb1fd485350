//! Enumeration of connected induced k-subsets by ESU (Wernicke 2006), and its
//! correctness: every connected k-node vertex set is visited exactly once.
use vstd::prelude::*;
use crate::model::{connected_set, crosses, symmetric, lemma_connected_insert, lemma_connected_singleton, below};
use crate::canonical::{list_adj, vec_contains};
use crate::adjacency::Adjacency;

verus! {

// ---------------------------------------------------------------------------
// The graph model
// ---------------------------------------------------------------------------

/// Neighbor lists of a simple undirected graph on `0..n`: in range, duplicate-free,
/// loop-free and symmetric.
pub open spec fn simple_graph(g: Seq<Seq<usize>>) -> bool {
    &&& g.len() <= usize::MAX
    &&& forall|a: int, t: int| 0 <= a < g.len() && 0 <= t < g[a].len() ==> (#[trigger] g[a][t]) < g.len()
    &&& forall|a: int| 0 <= a < g.len() ==> (#[trigger] g[a]).no_duplicates()
    &&& forall|a: int| 0 <= a < g.len() ==> !(#[trigger] g[a]).contains(a as usize)
    &&& forall|a: usize, b: usize| #[trigger] list_adj(g)(a, b) == list_adj(g)(b, a)
}

/// The connected `k`-node vertex sets of `g`.
pub open spec fn conn_k_sets(g: Seq<Seq<usize>>, k: nat) -> Set<Set<usize>> {
    Set::new(|s: Set<usize>| is_conn_k_set(g, k, s))
}

pub open spec fn is_conn_k_set(g: Seq<Seq<usize>>, k: nat, s: Set<usize>) -> bool {
    &&& s.finite()
    &&& s.len() == k
    &&& s.subset_of(below(g.len()))
    &&& connected_set(s, list_adj(g))
}

/// A duplicate-free vertex sequence whose set is a connected `k`-node set.
pub open spec fn valid_out(g: Seq<Seq<usize>>, k: nat, q: Seq<usize>) -> bool {
    &&& q.len() == k
    &&& q.no_duplicates()
    &&& forall|t: int| 0 <= t < q.len() ==> (#[trigger] q[t]) < g.len()
    &&& is_conn_k_set(g, k, q.to_set())
}

// ---------------------------------------------------------------------------
// The ESU recursion as a specification
// ---------------------------------------------------------------------------

/// `u` may enter the exclusive extension: above the root, outside `sub` and `ext`,
/// and adjacent to nothing in `sub`.
pub open spec fn ext_pred(g: Seq<Seq<usize>>, sub: Seq<usize>, ext: Seq<usize>, v: usize, u: usize) -> bool {
    &&& u > v
    &&& !sub.contains(u)
    &&& !ext.contains(u)
    &&& !(exists|x: usize| sub.contains(x) && #[trigger] list_adj(g)(x, u))
}

/// The vertices the first `t` neighbors of `w` add to the extension, in order.
pub open spec fn fresh(g: Seq<Seq<usize>>, sub: Seq<usize>, ext: Seq<usize>, w: usize, v: usize, t: nat) -> Seq<usize>
    decreases t,
{
    if t == 0 || w >= g.len() || t > g[w as int].len() {
        Seq::empty()
    } else {
        let f = fresh(g, sub, ext, w, v, (t - 1) as nat);
        let u = g[w as int][t - 1];
        if ext_pred(g, sub, ext, v, u) {
            f.push(u)
        } else {
            f
        }
    }
}

/// The extension of the child frame that adds `w` to `sub`.
pub open spec fn child_ext(g: Seq<Seq<usize>>, sub: Seq<usize>, w: usize, v: usize, rest: Seq<usize>) -> Seq<usize> {
    rest + fresh(g, sub, rest, w, v, g[w as int].len())
}

/// The extension of the root frame at `v`: its neighbors above it, in order.
pub open spec fn root_ext(g: Seq<Seq<usize>>, v: usize) -> Seq<usize> {
    fresh(g, Seq::empty(), Seq::empty(), v, v, g[v as int].len())
}

/// The subsets the ESU frame `(sub, ext)` visits, in visiting order.
pub open spec fn esu_seq(g: Seq<Seq<usize>>, k: nat, v: usize, sub: Seq<usize>, ext: Seq<usize>) -> Seq<Seq<usize>>
    decreases k - sub.len(), ext.len(),
{
    if sub.len() >= k {
        seq![sub]
    } else if ext.len() == 0 {
        Seq::empty()
    } else {
        let w = ext.last();
        let rest = ext.drop_last();
        esu_seq(g, k, v, sub.push(w), child_ext(g, sub, w, v, rest)) + esu_seq(g, k, v, sub, rest)
    }
}

/// The subsets visited from roots `v0, v0 + 1, ..., n - 1`, in visiting order.
pub open spec fn esu_roots(g: Seq<Seq<usize>>, k: nat, v0: nat) -> Seq<Seq<usize>>
    decreases g.len() - v0,
{
    if v0 >= g.len() {
        Seq::empty()
    } else {
        esu_seq(g, k, v0 as usize, seq![v0 as usize], root_ext(g, v0 as usize)) + esu_roots(g, k, v0 + 1)
    }
}

/// Every subset ESU visits over the whole graph, in visiting order.
pub open spec fn esu_all(g: Seq<Seq<usize>>, k: nat) -> Seq<Seq<usize>> {
    esu_roots(g, k, 0)
}

// ---------------------------------------------------------------------------
// Frame invariant and the sets a frame is responsible for
// ---------------------------------------------------------------------------

/// Vertices outside `sub`, above the root, adjacent to `sub`.
pub open spec fn frontier(g: Seq<Seq<usize>>, sub: Seq<usize>, v: usize, u: usize) -> bool {
    &&& u < g.len()
    &&& u > v
    &&& !sub.contains(u)
    &&& exists|x: usize| sub.contains(x) && #[trigger] list_adj(g)(x, u)
}

pub open spec fn frame_ok(g: Seq<Seq<usize>>, k: nat, v: usize, sub: Seq<usize>, ext: Seq<usize>) -> bool {
    &&& 1 <= sub.len() <= k
    &&& sub[0] == v
    &&& sub.no_duplicates()
    &&& forall|t: int| 0 <= t < sub.len() ==> (#[trigger] sub[t]) < g.len()
    &&& forall|t: int| 0 < t < sub.len() ==> (#[trigger] sub[t]) > v
    &&& connected_set(sub.to_set(), list_adj(g))
    &&& ext.no_duplicates()
    &&& forall|t: int| 0 <= t < ext.len() ==> frontier(g, sub, v, #[trigger] ext[t])
}

/// The connected `k`-sets the frame `(sub, ext)` must visit.
pub open spec fn target(g: Seq<Seq<usize>>, k: nat, v: usize, sub: Seq<usize>, ext: Seq<usize>, s: Set<usize>) -> bool {
    &&& is_conn_k_set(g, k, s)
    &&& sub.to_set().subset_of(s)
    &&& forall|x: usize| s.contains(x) ==> x >= v
    &&& forall|u: usize| #[trigger] s.contains(u) && frontier(g, sub, v, u) ==> ext.contains(u)
}

/// The sets of a list of subsets.
pub open spec fn sets_of(qs: Seq<Seq<usize>>) -> Seq<Set<usize>> {
    qs.map_values(|q: Seq<usize>| q.to_set())
}

proof fn lemma_fresh(g: Seq<Seq<usize>>, sub: Seq<usize>, ext: Seq<usize>, w: usize, v: usize, t: nat)
    requires
        simple_graph(g),
        w < g.len(),
        t <= g[w as int].len(),
    ensures
        fresh(g, sub, ext, w, v, t).no_duplicates(),
        forall|i: int| 0 <= i < fresh(g, sub, ext, w, v, t).len() ==> {
            let u = #[trigger] fresh(g, sub, ext, w, v, t)[i];
            ext_pred(g, sub, ext, v, u) && g[w as int].take(t as int).contains(u)
        },
        forall|u: usize| g[w as int].take(t as int).contains(u) && ext_pred(g, sub, ext, v, u)
            ==> #[trigger] fresh(g, sub, ext, w, v, t).contains(u),
    decreases t,
{
    let f = fresh(g, sub, ext, w, v, t);
    if t > 0 {
        let tp = (t - 1) as nat;
        lemma_fresh(g, sub, ext, w, v, tp);
        let fp = fresh(g, sub, ext, w, v, tp);
        let u = g[w as int][t - 1];
        let row = g[w as int];
        assert(row.take(t as int) =~= row.take(tp as int).push(u));
        assert(!row.take(tp as int).contains(u)) by {
            if row.take(tp as int).contains(u) {
                let j = choose|j: int| 0 <= j < tp && row.take(tp as int)[j] == u;
                assert(row[j] == row[t - 1]);
            }
        }
        assert forall|i: int| 0 <= i < f.len() implies {
            let x = #[trigger] f[i];
            ext_pred(g, sub, ext, v, x) && row.take(t as int).contains(x)
        } by {
            if i < fp.len() {
                assert(f[i] == fp[i]);
                let x = fp[i];
                let j = choose|j: int| 0 <= j < tp && row.take(tp as int)[j] == x;
                assert(row.take(t as int)[j] == x);
            } else {
                assert(row.take(t as int)[t - 1] == u);
            }
        }
        assert forall|a: int, b: int| 0 <= a < f.len() && 0 <= b < f.len() && a != b implies f[a] != f[b] by {
            if a < fp.len() && b < fp.len() {
                assert(f[a] == fp[a] && f[b] == fp[b]);
            } else if a < fp.len() {
                assert(row.take(tp as int).contains(fp[a]));
            } else if b < fp.len() {
                assert(row.take(tp as int).contains(fp[b]));
            }
        }
        assert forall|x: usize| row.take(t as int).contains(x) && ext_pred(g, sub, ext, v, x) implies #[trigger] f.contains(x) by {
            let j = choose|j: int| 0 <= j < t && row.take(t as int)[j] == x;
            if j < tp {
                assert(row.take(tp as int)[j] == x);
                assert(fp.contains(x));
                let i = choose|i: int| 0 <= i < fp.len() && fp[i] == x;
                assert(f[i] == x);
            } else {
                assert(f[f.len() - 1] == x);
            }
        }
    } else {
        assert(f =~= Seq::<usize>::empty());
        assert forall|x: usize| g[w as int].take(t as int).contains(x) && ext_pred(g, sub, ext, v, x) implies #[trigger] f.contains(x) by {
            assert(g[w as int].take(0).len() == 0);
        }
    }
}

proof fn lemma_push_contains_u(s: Seq<usize>, x: usize, c: usize)
    ensures
        s.push(x).contains(c) <==> (s.contains(c) || c == x),
{
    if s.contains(c) {
        let w = choose|w: int| 0 <= w < s.len() && s[w] == c;
        assert(s.push(x)[w] == c);
    }
    if c == x {
        assert(s.push(x)[s.len() as int] == c);
    }
    if s.push(x).contains(c) {
        let w = choose|w: int| 0 <= w < s.push(x).len() && s.push(x)[w] == c;
        if w < s.len() {
            assert(s[w] == c);
        }
    }
}

proof fn lemma_add_contains(a: Seq<usize>, b: Seq<usize>, c: usize)
    ensures
        (a + b).contains(c) <==> (a.contains(c) || b.contains(c)),
{
    if a.contains(c) {
        let w = choose|w: int| 0 <= w < a.len() && a[w] == c;
        assert((a + b)[w] == c);
    }
    if b.contains(c) {
        let w = choose|w: int| 0 <= w < b.len() && b[w] == c;
        assert((a + b)[a.len() + w] == c);
    }
    if (a + b).contains(c) {
        let w = choose|w: int| 0 <= w < (a + b).len() && (a + b)[w] == c;
        if w < a.len() {
            assert(a[w] == c);
        } else {
            assert(b[w - a.len()] == c);
        }
    }
}

/// The child frame and the sibling frame of a split are well formed, and split the
/// parent's target sets by whether they contain `w`.
pub(crate) proof fn lemma_split(g: Seq<Seq<usize>>, k: nat, v: usize, sub: Seq<usize>, ext: Seq<usize>)
    requires
        simple_graph(g),
        frame_ok(g, k, v, sub, ext),
        sub.len() < k,
        ext.len() > 0,
    ensures
        ({
            let w = ext.last();
            let rest = ext.drop_last();
            let sub2 = sub.push(w);
            let ext2 = child_ext(g, sub, w, v, rest);
            &&& frame_ok(g, k, v, sub2, ext2)
            &&& frame_ok(g, k, v, sub, rest)
            &&& forall|s: Set<usize>| #![trigger target(g, k, v, sub2, ext2, s)] #![trigger target(g, k, v, sub, ext, s)]
                target(g, k, v, sub2, ext2, s) <==> target(g, k, v, sub, ext, s) && s.contains(w)
            &&& forall|s: Set<usize>| #![trigger target(g, k, v, sub, rest, s)] #![trigger target(g, k, v, sub, ext, s)]
                target(g, k, v, sub, rest, s) <==> target(g, k, v, sub, ext, s) && !s.contains(w)
        }),
{
    let gadj = list_adj(g);
    let w = ext.last();
    let rest = ext.drop_last();
    let sub2 = sub.push(w);
    let fr = fresh(g, sub, rest, w, v, g[w as int].len());
    let ext2 = child_ext(g, sub, w, v, rest);
    assert(frontier(g, sub, v, ext[ext.len() - 1]));
    assert(w < g.len());
    lemma_fresh(g, sub, rest, w, v, g[w as int].len());
    assert(g[w as int].take(g[w as int].len() as int) =~= g[w as int]);
    assert(!rest.contains(w)) by {
        if rest.contains(w) {
            let j = choose|j: int| 0 <= j < rest.len() && rest[j] == w;
            assert(ext[j] == ext[ext.len() - 1]);
        }
    }
    // rest is a frame of sub
    assert forall|t: int| 0 <= t < rest.len() implies frontier(g, sub, v, #[trigger] rest[t]) by {
        assert(rest[t] == ext[t]);
    }
    assert(frame_ok(g, k, v, sub, rest));
    // sub2
    let x0 = choose|x: usize| sub.contains(x) && #[trigger] gadj(x, w);
    assert(sub2.to_set() =~= sub.to_set().insert(w)) by {
        assert forall|c: usize| sub2.to_set().contains(c) <==> sub.to_set().insert(w).contains(c) by {
            lemma_push_contains_u(sub, w, c);
        }
    }
    assert(symmetric(gadj)) by {
        assert forall|i: usize, j: usize| #[trigger] gadj(i, j) == gadj(j, i) by {}
    }
    lemma_connected_insert(sub.to_set(), w, x0, gadj);
    assert forall|a: int, b: int| 0 <= a < sub2.len() && 0 <= b < sub2.len() && a != b implies sub2[a] != sub2[b] by {
        if a < sub.len() && b < sub.len() {
        } else if a < sub.len() {
            assert(sub.contains(sub2[a]));
        } else if b < sub.len() {
            assert(sub.contains(sub2[b]));
        }
    }
    assert forall|t: int| 0 <= t < sub2.len() implies (#[trigger] sub2[t]) < g.len() by {
        if t < sub.len() { assert(sub2[t] == sub[t]); }
    }
    assert forall|t: int| 0 < t < sub2.len() implies (#[trigger] sub2[t]) > v by {
        if t < sub.len() { assert(sub2[t] == sub[t]); }
    }
    // ext2 well formed
    assert forall|t: int| 0 <= t < ext2.len() implies frontier(g, sub2, v, #[trigger] ext2[t]) by {
        let u = ext2[t];
        lemma_push_contains_u(sub, w, u);
        if t < rest.len() {
            assert(u == rest[t]);
            assert(frontier(g, sub, v, u));
            assert(u != w) by {
                if u == w {
                    assert(rest.contains(w));
                }
            }
            let x = choose|x: usize| sub.contains(x) && #[trigger] gadj(x, u);
            lemma_push_contains_u(sub, w, x);
            assert(sub2.contains(x) && gadj(x, u));
        } else {
            let i = t - rest.len();
            assert(u == fr[i]);
            assert(ext_pred(g, sub, rest, v, u) && g[w as int].contains(u));
            assert(u != w) by {
                if u == w {
                    assert(g[w as int].contains(w));
                }
            }
            assert(gadj(w, u));
            lemma_push_contains_u(sub, w, w);
            assert(sub2.contains(w) && gadj(w, u));
            let j = choose|j: int| 0 <= j < g[w as int].len() && g[w as int][j] == u;
            assert(u < g.len());
        }
    }
    assert forall|a: int, b: int| 0 <= a < ext2.len() && 0 <= b < ext2.len() && a != b implies ext2[a] != ext2[b] by {
        if a < rest.len() && b < rest.len() {
            assert(ext2[a] == rest[a] && ext2[b] == rest[b]);
        } else if a < rest.len() {
            assert(ext2[b] == fr[b - rest.len()]);
            assert(!rest.contains(fr[b - rest.len()]));
            assert(rest.contains(rest[a]));
        } else if b < rest.len() {
            assert(ext2[a] == fr[a - rest.len()]);
            assert(!rest.contains(fr[a - rest.len()]));
            assert(rest.contains(rest[b]));
        } else {
            assert(ext2[a] == fr[a - rest.len()] && ext2[b] == fr[b - rest.len()]);
        }
    }
    assert(sub2.len() <= k);
    assert(sub2[0] == v);
    assert(frame_ok(g, k, v, sub2, ext2));
    // target relations
    assert(ext =~= rest.push(w));
    assert forall|s: Set<usize>| #![trigger target(g, k, v, sub, rest, s)] #![trigger target(g, k, v, sub, ext, s)]
        target(g, k, v, sub, rest, s) <==> target(g, k, v, sub, ext, s) && !s.contains(w) by {
        if target(g, k, v, sub, rest, s) {
            assert forall|u: usize| #[trigger] s.contains(u) && frontier(g, sub, v, u) implies ext.contains(u) by {
                lemma_push_contains_u(rest, w, u);
            }
            if s.contains(w) {
                assert(frontier(g, sub, v, w));
                assert(rest.contains(w));
            }
        }
        if target(g, k, v, sub, ext, s) && !s.contains(w) {
            assert forall|u: usize| #[trigger] s.contains(u) && frontier(g, sub, v, u) implies rest.contains(u) by {
                lemma_push_contains_u(rest, w, u);
            }
        }
    }
    assert forall|s: Set<usize>| #![trigger target(g, k, v, sub2, ext2, s)] #![trigger target(g, k, v, sub, ext, s)]
        target(g, k, v, sub2, ext2, s) <==> target(g, k, v, sub, ext, s) && s.contains(w) by {
        if target(g, k, v, sub2, ext2, s) {
            assert(s.contains(w)) by {
                lemma_push_contains_u(sub, w, w);
                assert(sub2.to_set().contains(w));
            }
            assert(sub.to_set().subset_of(s)) by {
                assert forall|c: usize| sub.to_set().contains(c) implies s.contains(c) by {
                    lemma_push_contains_u(sub, w, c);
                    assert(sub2.to_set().contains(c));
                }
            }
            assert forall|u: usize| #[trigger] s.contains(u) && frontier(g, sub, v, u) implies ext.contains(u) by {
                lemma_push_contains_u(rest, w, u);
                if u != w {
                    let x = choose|x: usize| sub.contains(x) && #[trigger] gadj(x, u);
                    lemma_push_contains_u(sub, w, x);
                    lemma_push_contains_u(sub, w, u);
                    assert(frontier(g, sub2, v, u));
                    assert(ext2.contains(u));
                    lemma_add_contains(rest, fr, u);
                    if fr.contains(u) {
                        let i = choose|i: int| 0 <= i < fr.len() && fr[i] == u;
                        assert(ext_pred(g, sub, rest, v, fr[i]));
                    }
                }
            }
        }
        if target(g, k, v, sub, ext, s) && s.contains(w) {
            assert(sub2.to_set().subset_of(s));
            assert forall|u: usize| #[trigger] s.contains(u) && frontier(g, sub2, v, u) implies ext2.contains(u) by {
                lemma_push_contains_u(sub, w, u);
                lemma_add_contains(rest, fr, u);
                let x = choose|x: usize| sub2.contains(x) && #[trigger] gadj(x, u);
                lemma_push_contains_u(sub, w, x);
                if exists|y: usize| sub.contains(y) && #[trigger] gadj(y, u) {
                    assert(frontier(g, sub, v, u));
                    assert(ext.contains(u));
                    lemma_push_contains_u(rest, w, u);
                } else {
                    assert(x == w);
                    assert(!rest.contains(u)) by {
                        if rest.contains(u) {
                            let j = choose|j: int| 0 <= j < rest.len() && rest[j] == u;
                            assert(frontier(g, sub, v, rest[j]));
                        }
                    }
                    assert(ext_pred(g, sub, rest, v, u));
                    assert(g[w as int].contains(u));
                    assert(fr.contains(u));
                }
            }
        }
    }
}

/// ESU frame correctness: the frame visits valid subsets, exactly the sets of its
/// target, each once.
pub proof fn lemma_esu_frame(g: Seq<Seq<usize>>, k: nat, v: usize, sub: Seq<usize>, ext: Seq<usize>)
    requires
        simple_graph(g),
        frame_ok(g, k, v, sub, ext),
    ensures
        forall|i: int| 0 <= i < esu_seq(g, k, v, sub, ext).len() ==> {
            let q = #[trigger] esu_seq(g, k, v, sub, ext)[i];
            valid_out(g, k, q) && target(g, k, v, sub, ext, q.to_set())
        },
        forall|s: Set<usize>| target(g, k, v, sub, ext, s) ==> #[trigger] sets_of(esu_seq(g, k, v, sub, ext)).contains(s),
        sets_of(esu_seq(g, k, v, sub, ext)).no_duplicates(),
    decreases k - sub.len(), ext.len(),
{
    let gadj = list_adj(g);
    let es = esu_seq(g, k, v, sub, ext);
    if sub.len() >= k {
        assert(es == seq![sub]);
        sub.unique_seq_to_set();
        assert(sub.to_set().subset_of(below(g.len()))) by {
            assert forall|c: usize| sub.to_set().contains(c) implies below(g.len()).contains(c) by {
                let j = choose|j: int| 0 <= j < sub.len() && sub[j] == c;
            }
        }
        assert forall|x: usize| sub.to_set().contains(x) implies x >= v by {
            let j = choose|j: int| 0 <= j < sub.len() && sub[j] == x;
            if j > 0 { assert(sub[j] > v); }
        }
        assert(target(g, k, v, sub, ext, sub.to_set()));
        assert forall|s: Set<usize>| target(g, k, v, sub, ext, s) implies #[trigger] sets_of(es).contains(s) by {
            vstd::set_lib::lemma_subset_equality(sub.to_set(), s);
            assert(sets_of(es)[0] == s);
        }
    } else if ext.len() == 0 {
        assert(es =~= Seq::<Seq<usize>>::empty());
        assert forall|s: Set<usize>| target(g, k, v, sub, ext, s) implies #[trigger] sets_of(es).contains(s) by {
            let t = sub.to_set();
            sub.unique_seq_to_set();
            assert(t != s);
            assert(t.len() > 0) by { assert(t.contains(sub[0])); }
            assert(crosses(t, s, gadj));
            let (x, y) = choose|x: usize, y: usize| t.contains(x) && s.contains(y) && !t.contains(y) && #[trigger] gadj(x, y);
            assert(y != v) by { assert(t.contains(sub[0])); }
            assert(y >= v);
            assert(y < g.len()) by { assert(below(g.len()).contains(y)); }
            assert(frontier(g, sub, v, y));
            assert(ext.contains(y));
        }
    } else {
        let w = ext.last();
        let rest = ext.drop_last();
        let sub2 = sub.push(w);
        let ext2 = child_ext(g, sub, w, v, rest);
        lemma_split(g, k, v, sub, ext);
        lemma_esu_frame(g, k, v, sub2, ext2);
        lemma_esu_frame(g, k, v, sub, rest);
        let a = esu_seq(g, k, v, sub2, ext2);
        let b = esu_seq(g, k, v, sub, rest);
        assert(es == a + b);
        assert(sets_of(es) =~= sets_of(a) + sets_of(b));
        assert forall|i: int| 0 <= i < es.len() implies {
            let q = #[trigger] es[i];
            valid_out(g, k, q) && target(g, k, v, sub, ext, q.to_set())
        } by {
            if i < a.len() {
                assert(es[i] == a[i]);
            } else {
                assert(es[i] == b[i - a.len()]);
            }
        }
        assert forall|s: Set<usize>| target(g, k, v, sub, ext, s) implies #[trigger] sets_of(es).contains(s) by {
            if s.contains(w) {
                assert(target(g, k, v, sub2, ext2, s));
                assert(sets_of(a).contains(s));
                let i = choose|i: int| 0 <= i < sets_of(a).len() && sets_of(a)[i] == s;
                assert(sets_of(a).len() <= sets_of(es).len());
                assert(sets_of(es)[i] == sets_of(a)[i]);
                assert(sets_of(es)[i] == s);
            } else {
                assert(target(g, k, v, sub, rest, s));
                assert(sets_of(b).contains(s));
                let i = choose|i: int| 0 <= i < sets_of(b).len() && sets_of(b)[i] == s;
                assert(sets_of(es)[a.len() + i] == sets_of(b)[i]);
                assert(sets_of(es)[a.len() + i] == s);
            }
        }
        assert forall|i: int, j: int| 0 <= i < sets_of(es).len() && 0 <= j < sets_of(es).len() && i != j implies sets_of(es)[i] != sets_of(es)[j] by {
            if i < a.len() && j >= a.len() {
                assert(target(g, k, v, sub2, ext2, a[i].to_set()));
                assert(target(g, k, v, sub, rest, b[j - a.len()].to_set()));
            } else if j < a.len() && i >= a.len() {
                assert(target(g, k, v, sub2, ext2, a[j].to_set()));
                assert(target(g, k, v, sub, rest, b[i - a.len()].to_set()));
            } else if i < a.len() {
                assert(sets_of(a)[i] != sets_of(a)[j]);
            } else {
                assert(sets_of(b)[i - a.len()] != sets_of(b)[j - a.len()]);
            }
        }
    }
}


pub(crate) proof fn lemma_root_frame(g: Seq<Seq<usize>>, k: nat, v: usize)
    requires
        simple_graph(g),
        v < g.len(),
        k >= 1,
    ensures
        frame_ok(g, k, v, seq![v], root_ext(g, v)),
        forall|s: Set<usize>| #[trigger] target(g, k, v, seq![v], root_ext(g, v), s) <==> (is_conn_k_set(g, k, s) && s.contains(v) && forall|x: usize| s.contains(x) ==> x >= v),
{
    let gadj = list_adj(g);
    let sub = seq![v];
    let ext = root_ext(g, v);
    let e = Seq::<usize>::empty();
    lemma_fresh(g, e, e, v, v, g[v as int].len());
    assert(g[v as int].take(g[v as int].len() as int) =~= g[v as int]);
    assert(sub.to_set() =~= Set::empty().insert(v)) by {
        assert forall|c: usize| sub.to_set().contains(c) <==> c == v by {
            if c == v { assert(sub[0] == c); }
        }
    }
    lemma_connected_singleton(v, gadj);
    assert forall|t: int| 0 <= t < ext.len() implies frontier(g, sub, v, #[trigger] ext[t]) by {
        let u = ext[t];
        assert(ext_pred(g, e, e, v, u) && g[v as int].contains(u));
        let j = choose|j: int| 0 <= j < g[v as int].len() && g[v as int][j] == u;
        assert(u < g.len());
        assert(!sub.contains(u)) by {
            if sub.contains(u) { assert(sub[0] == u); }
        }
        assert(sub.contains(v) && gadj(v, u)) by { assert(sub[0] == v); }
    }
    assert(frame_ok(g, k, v, sub, ext));
    assert forall|s: Set<usize>| #[trigger] target(g, k, v, sub, ext, s) <==> (is_conn_k_set(g, k, s) && s.contains(v) && forall|x: usize| s.contains(x) ==> x >= v) by {
        if is_conn_k_set(g, k, s) && s.contains(v) && forall|x: usize| s.contains(x) ==> x >= v {
            assert(sub.to_set().subset_of(s));
            assert forall|u: usize| #[trigger] s.contains(u) && frontier(g, sub, v, u) implies ext.contains(u) by {
                let x = choose|x: usize| sub.contains(x) && #[trigger] gadj(x, u);
                assert(x == v) by { let j = choose|j: int| 0 <= j < 1 && sub[j] == x; }
                assert(ext_pred(g, e, e, v, u));
            }
        }
        if target(g, k, v, sub, ext, s) {
            assert(sub.to_set().contains(v));
        }
    }
}

/// Root-by-root ESU correctness.
pub proof fn lemma_esu_roots(g: Seq<Seq<usize>>, k: nat, v0: nat)
    requires
        simple_graph(g),
        k >= 1,
        v0 <= g.len(),
    ensures
        forall|i: int| 0 <= i < esu_roots(g, k, v0).len() ==> {
            let q = #[trigger] esu_roots(g, k, v0)[i];
            valid_out(g, k, q) && forall|x: usize| q.to_set().contains(x) ==> x >= v0
        },
        forall|s: Set<usize>| is_conn_k_set(g, k, s) && (forall|x: usize| s.contains(x) ==> x >= v0) ==> #[trigger] sets_of(esu_roots(g, k, v0)).contains(s),
        sets_of(esu_roots(g, k, v0)).no_duplicates(),
    decreases g.len() - v0,
{
    let es = esu_roots(g, k, v0);
    if v0 >= g.len() {
        assert(es =~= Seq::<Seq<usize>>::empty());
        assert forall|s: Set<usize>| is_conn_k_set(g, k, s) && (forall|x: usize| s.contains(x) ==> x >= v0) implies #[trigger] sets_of(es).contains(s) by {
            if s.len() > 0 {
                let x = s.choose();
                assert(s.contains(x)) by { vstd::set::axiom_set_choose_len(s); }
                assert(below(g.len()).contains(x));
            } else {
                assert(s.len() == k);
            }
        }
    } else {
        let v = v0 as usize;
        lemma_root_frame(g, k, v);
        lemma_esu_frame(g, k, v, seq![v], root_ext(g, v));
        lemma_esu_roots(g, k, v0 + 1);
        let a = esu_seq(g, k, v, seq![v], root_ext(g, v));
        let b = esu_roots(g, k, v0 + 1);
        assert(es == a + b);
        assert(sets_of(es) =~= sets_of(a) + sets_of(b));
        assert forall|i: int| 0 <= i < es.len() implies {
            let q = #[trigger] es[i];
            valid_out(g, k, q) && forall|x: usize| q.to_set().contains(x) ==> x >= v0
        } by {
            if i < a.len() {
                assert(es[i] == a[i]);
                assert(target(g, k, v, seq![v], root_ext(g, v), a[i].to_set()));
            } else {
                assert(es[i] == b[i - a.len()]);
            }
        }
        assert forall|s: Set<usize>| is_conn_k_set(g, k, s) && (forall|x: usize| s.contains(x) ==> x >= v0) implies #[trigger] sets_of(es).contains(s) by {
            if s.contains(v) {
                assert(target(g, k, v, seq![v], root_ext(g, v), s));
                assert(sets_of(a).contains(s));
                let i = choose|i: int| 0 <= i < sets_of(a).len() && sets_of(a)[i] == s;
                assert(sets_of(es)[i] == sets_of(a)[i]);
            } else {
                assert(forall|x: usize| s.contains(x) ==> x >= v0 + 1);
                assert(sets_of(b).contains(s));
                let i = choose|i: int| 0 <= i < sets_of(b).len() && sets_of(b)[i] == s;
                assert(sets_of(es)[a.len() + i] == sets_of(b)[i]);
            }
        }
        assert forall|i: int, j: int| 0 <= i < sets_of(es).len() && 0 <= j < sets_of(es).len() && i != j implies sets_of(es)[i] != sets_of(es)[j] by {
            if i < a.len() && j >= a.len() {
                assert(target(g, k, v, seq![v], root_ext(g, v), a[i].to_set()));
                assert(a[i].to_set().contains(v));
                assert(!b[j - a.len()].to_set().contains(v));
                assert(sets_of(es)[i] == a[i].to_set());
                assert(sets_of(es)[j] == b[j - a.len()].to_set());
            } else if j < a.len() && i >= a.len() {
                assert(target(g, k, v, seq![v], root_ext(g, v), a[j].to_set()));
                assert(a[j].to_set().contains(v));
                assert(!b[i - a.len()].to_set().contains(v));
                assert(sets_of(es)[j] == a[j].to_set());
                assert(sets_of(es)[i] == b[i - a.len()].to_set());
            } else if i < a.len() {
                assert(sets_of(es)[i] == sets_of(a)[i] && sets_of(es)[j] == sets_of(a)[j]);
            } else {
                assert(sets_of(es)[i] == sets_of(b)[i - a.len()] && sets_of(es)[j] == sets_of(b)[j - a.len()]);
            }
        }
    }
}

/// ESU over the whole graph visits every connected `k`-node set exactly once.
pub proof fn lemma_esu_all(g: Seq<Seq<usize>>, k: nat)
    requires
        simple_graph(g),
        k >= 1,
    ensures
        forall|i: int| 0 <= i < esu_all(g, k).len() ==> valid_out(g, k, #[trigger] esu_all(g, k)[i]),
        sets_of(esu_all(g, k)).to_set() == conn_k_sets(g, k),
        sets_of(esu_all(g, k)).no_duplicates(),
{
    lemma_esu_roots(g, k, 0);
    let es = esu_all(g, k);
    assert forall|s: Set<usize>| sets_of(es).to_set().contains(s) <==> conn_k_sets(g, k).contains(s) by {
        if sets_of(es).contains(s) {
            let i = choose|i: int| 0 <= i < sets_of(es).len() && sets_of(es)[i] == s;
            assert(valid_out(g, k, es[i]));
        }
        if conn_k_sets(g, k).contains(s) {
            assert(is_conn_k_set(g, k, s));
            assert(sets_of(es).contains(s));
        }
    }
    assert(sets_of(es).to_set() =~= conn_k_sets(g, k));
}

/// How many entries of `qs` satisfy `p`.
pub open spec fn count_where(qs: Seq<Seq<usize>>, p: spec_fn(Seq<usize>) -> bool) -> nat
    decreases qs.len(),
{
    if qs.len() == 0 {
        0
    } else {
        (if p(qs[0]) { 1nat } else { 0nat }) + count_where(qs.drop_first(), p)
    }
}

/// Predicates that agree on every entry count the same.
pub proof fn lemma_count_where_ext(qs: Seq<Seq<usize>>, p1: spec_fn(Seq<usize>) -> bool, p2: spec_fn(Seq<usize>) -> bool)
    requires
        forall|i: int| 0 <= i < qs.len() ==> p1(#[trigger] qs[i]) == p2(qs[i]),
    ensures
        count_where(qs, p1) == count_where(qs, p2),
    decreases qs.len(),
{
    if qs.len() > 0 {
        assert(p1(qs[0]) == p2(qs[0]));
        assert forall|i: int| 0 <= i < qs.drop_first().len() implies p1(#[trigger] qs.drop_first()[i]) == p2(qs.drop_first()[i]) by {
            assert(qs.drop_first()[i] == qs[i + 1]);
        }
        lemma_count_where_ext(qs.drop_first(), p1, p2);
    }
}

/// Counting a predicate of the visited sets through a duplicate-free list of them.
pub proof fn lemma_count_sets(qs: Seq<Seq<usize>>, p: spec_fn(Set<usize>) -> bool)
    requires
        sets_of(qs).no_duplicates(),
    ensures
        count_where(qs, |q: Seq<usize>| p(q.to_set())) == sets_of(qs).to_set().filter(p).len(),
        sets_of(qs).to_set().finite(),
    decreases qs.len(),
{
    let pq = |q: Seq<usize>| p(q.to_set());
    if qs.len() == 0 {
        assert(sets_of(qs).to_set() =~= Set::empty());
        assert(sets_of(qs).to_set().filter(p) =~= Set::empty());
    } else {
        let tail = qs.drop_first();
        let q = qs[0];
        assert(sets_of(tail) =~= sets_of(qs).drop_first());
        assert(sets_of(tail).no_duplicates()) by {
            assert forall|i: int, j: int| 0 <= i < sets_of(tail).len() && 0 <= j < sets_of(tail).len() && i != j implies sets_of(tail)[i] != sets_of(tail)[j] by {
                assert(sets_of(tail)[i] == sets_of(qs)[i + 1]);
                assert(sets_of(tail)[j] == sets_of(qs)[j + 1]);
            }
        }
        lemma_count_sets(tail, p);
        let fam0 = sets_of(tail).to_set();
        assert(sets_of(qs).to_set() =~= fam0.insert(q.to_set())) by {
            assert forall|s: Set<usize>| sets_of(qs).to_set().contains(s) <==> fam0.insert(q.to_set()).contains(s) by {
                if sets_of(qs).contains(s) {
                    let i = choose|i: int| 0 <= i < sets_of(qs).len() && sets_of(qs)[i] == s;
                    if i > 0 {
                        assert(sets_of(tail)[i - 1] == s);
                    }
                }
                if fam0.contains(s) {
                    let i = choose|i: int| 0 <= i < sets_of(tail).len() && sets_of(tail)[i] == s;
                    assert(sets_of(qs)[i + 1] == s);
                }
                if s == q.to_set() {
                    assert(sets_of(qs)[0] == s);
                }
            }
        }
        assert(!fam0.contains(q.to_set())) by {
            if fam0.contains(q.to_set()) {
                let i = choose|i: int| 0 <= i < sets_of(tail).len() && sets_of(tail)[i] == q.to_set();
                assert(sets_of(qs)[i + 1] == sets_of(qs)[0]);
            }
        }
        assert(count_where(qs, pq) == (if pq(q) { 1nat } else { 0nat }) + count_where(tail, pq));
        if p(q.to_set()) {
            assert(fam0.insert(q.to_set()).filter(p) =~= fam0.filter(p).insert(q.to_set()));
        } else {
            assert(fam0.insert(q.to_set()).filter(p) =~= fam0.filter(p));
        }
    }
}

// ---------------------------------------------------------------------------
// The executable traversal
// ---------------------------------------------------------------------------

/// A consumer of the subsets an ESU traversal visits. `seen` is the sequence
/// consumed so far; `room` bounds how many more it can take.
pub trait SubsetSink {
    /// What the sink was set up with; visiting never changes it.
    type Params;

    spec fn params(&self) -> Self::Params;

    spec fn admits(&self, q: Seq<usize>) -> bool;

    spec fn room(&self) -> nat;

    spec fn seen(&self) -> Seq<Seq<usize>>;

    fn visit(&mut self, q: &Vec<usize>)
        requires
            old(self).room() > 0,
            old(self).admits(q@),
        ensures
            final(self).seen() == old(self).seen().push(q@),
            final(self).room() == old(self).room() - 1,
            final(self).params() == old(self).params(),
            forall|x: Seq<usize>| #[trigger] final(self).admits(x) == old(self).admits(x),
    ;
}

/// Whether some vertex of `sub` is adjacent to `u`.
fn adjacent_to_any(adj: &Adjacency, sub: &Vec<usize>, u: usize) -> (r: bool)
    requires
        adj.wf(),
        forall|t: int| 0 <= t < sub@.len() ==> (#[trigger] sub@[t]) < adj.lists@.len(),
    ensures
        r == exists|x: usize| sub@.contains(x) && #[trigger] list_adj(adj.graph())(x, u),
{
    let ghost g = adj.graph();
    proof { adj.lemma_graph(); }
    let mut t: usize = 0;
    while t < sub.len()
        invariant
            adj.wf(),
            g == adj.graph(),
            g.len() == adj.lists@.len(),
            t <= sub@.len(),
            forall|s: int| 0 <= s < sub@.len() ==> (#[trigger] sub@[s]) < adj.lists@.len(),
            forall|s: int| 0 <= s < t ==> !(#[trigger] list_adj(g)(sub@[s], u)),
        decreases sub@.len() - t,
    {
        if adj.adjacent(sub[t], u) {
            proof {
                assert(sub@.contains(sub@[t as int]));
                assert(list_adj(g)(sub@[t as int], u));
            }
            return true;
        }
        t += 1;
    }
    proof {
        assert forall|x: usize| sub@.contains(x) implies !#[trigger] list_adj(g)(x, u) by {
            let s = choose|s: int| 0 <= s < sub@.len() && sub@[s] == x;
            assert(!list_adj(g)(sub@[s], u));
        }
    }
    false
}

/// The exclusive extension of the child frame adding `w` to `sub`: the sibling
/// extension `rest`, followed by the neighbors of `w` that enter it.
pub(crate) fn exclusive_ext(adj: &Adjacency, sub: &Vec<usize>, w: usize, v: usize, rest: &Vec<usize>) -> (e: Vec<usize>)
    requires
        adj.wf(),
        simple_graph(adj.graph()),
        w < adj.lists@.len(),
        forall|t: int| 0 <= t < sub@.len() ==> (#[trigger] sub@[t]) < adj.lists@.len(),
    ensures
        e@ == child_ext(adj.graph(), sub@, w, v, rest@),
{
    let ghost g = adj.graph();
    proof { adj.lemma_graph(); }
    let mut e = rest.clone();
    assert(e@ =~= rest@ + fresh(g, sub@, rest@, w, v, 0));
    let nb = adj.neighbors(w);
    let mut idx: usize = 0;
    while idx < nb.len()
        invariant
            adj.wf(),
            simple_graph(g),
            g == adj.graph(),
            g.len() == adj.lists@.len(),
            w < g.len(),
            nb@ == g[w as int],
            idx <= nb@.len(),
            forall|t: int| 0 <= t < sub@.len() ==> (#[trigger] sub@[t]) < adj.lists@.len(),
            e@ == rest@ + fresh(g, sub@, rest@, w, v, idx as nat),
        decreases nb@.len() - idx,
    {
        let u = nb[idx];
        proof {
            lemma_fresh(g, sub@, rest@, w, v, idx as nat);
            let f = fresh(g, sub@, rest@, w, v, idx as nat);
            assert(!f.contains(u)) by {
                if f.contains(u) {
                    let i = choose|i: int| 0 <= i < f.len() && f[i] == u;
                    assert(g[w as int].take(idx as int).contains(u));
                    let j = choose|j: int| 0 <= j < idx && g[w as int].take(idx as int)[j] == u;
                    assert(g[w as int][j] == g[w as int][idx as int]);
                }
            }
            lemma_add_contains(rest@, f, u);
        }
        let skip = u <= v || vec_contains(sub, u) || vec_contains(&e, u);
        if !skip {
            if !adjacent_to_any(adj, sub, u) {
                e.push(u);
            }
        }
        proof {
            let f = fresh(g, sub@, rest@, w, v, idx as nat);
            assert(fresh(g, sub@, rest@, w, v, (idx + 1) as nat) == if ext_pred(g, sub@, rest@, v, u) { f.push(u) } else { f });
            if ext_pred(g, sub@, rest@, v, u) {
                assert(e@ =~= rest@ + f.push(u));
            }
        }
        idx += 1;
    }
    e
}

/// Run the ESU frame `(sub, ext)` rooted at `v`, handing every visited subset to
/// `sink` in visiting order.
fn esu_frame<S: SubsetSink>(adj: &Adjacency, k: usize, v: usize, sub: &mut Vec<usize>, ext: Vec<usize>, sink: &mut S)
    requires
        adj.wf(),
        simple_graph(adj.graph()),
        frame_ok(adj.graph(), k as nat, v, old(sub)@, ext@),
        old(sink).room() >= esu_seq(adj.graph(), k as nat, v, old(sub)@, ext@).len(),
        forall|q: Seq<usize>| valid_out(adj.graph(), k as nat, q) ==> #[trigger] old(sink).admits(q),
    ensures
        final(sub)@ == old(sub)@,
        final(sink).seen() == old(sink).seen() + esu_seq(adj.graph(), k as nat, v, old(sub)@, ext@),
        final(sink).room() == old(sink).room() - esu_seq(adj.graph(), k as nat, v, old(sub)@, ext@).len(),
        final(sink).params() == old(sink).params(),
        forall|x: Seq<usize>| #[trigger] final(sink).admits(x) == old(sink).admits(x),
    decreases k - old(sub)@.len(),
{
    let ghost g = adj.graph();
    let ghost s0 = sub@;
    let ghost total = esu_seq(g, k as nat, v, s0, ext@);
    let ghost seen0 = sink.seen();
    let ghost room0 = sink.room();
    proof { adj.lemma_graph(); }
    if sub.len() >= k {
        proof {
            lemma_esu_frame(g, k as nat, v, s0, ext@);
            assert(total == seq![s0]);
            assert(total[0] == s0);
        }
        sink.visit(sub);
        return;
    }
    let mut ext = ext;
    while ext.len() > 0
        invariant
            adj.wf(),
            simple_graph(g),
            g == adj.graph(),
            g.len() == adj.lists@.len(),
            sub@ == s0,
            old(sub)@ == s0,
            s0.len() < k,
            frame_ok(g, k as nat, v, s0, ext@),
            seen0 + total == sink.seen() + esu_seq(g, k as nat, v, s0, ext@),
            sink.room() >= esu_seq(g, k as nat, v, s0, ext@).len(),
            room0 - total.len() == sink.room() - esu_seq(g, k as nat, v, s0, ext@).len(),
            forall|q: Seq<usize>| valid_out(g, k as nat, q) ==> #[trigger] sink.admits(q),
            forall|x: Seq<usize>| #[trigger] sink.admits(x) == old(sink).admits(x),
            sink.params() == old(sink).params(),
        decreases ext@.len(),
    {
        let ghost e0 = ext@;
        let w = ext.pop().unwrap();
        proof {
            assert(ext@ == e0.drop_last());
            assert(w == e0.last());
            lemma_split(g, k as nat, v, s0, e0);
            assert(frontier(g, s0, v, e0[e0.len() - 1]));
        }
        let child = exclusive_ext(adj, sub, w, v, &ext);
        let ghost a = esu_seq(g, k as nat, v, s0.push(w), child@);
        let ghost b = esu_seq(g, k as nat, v, s0, ext@);
        let ghost before = sink.seen();
        assert(esu_seq(g, k as nat, v, s0, e0) == a + b);
        sub.push(w);
        esu_frame(adj, k, v, sub, child, sink);
        sub.pop();
        proof {
            assert(sub@ =~= s0);
            assert(seen0 + total == before + (a + b));
            assert(before + (a + b) =~= (before + a) + b);
        }
    }
    proof {
        assert(esu_seq(g, k as nat, v, s0, ext@) == Seq::<Seq<usize>>::empty());
        assert(sink.seen() + Seq::<Seq<usize>>::empty() =~= sink.seen());
    }
}

/// Visit every connected induced `k`-node subset of the graph once, in ESU order:
/// roots ascending, and within a root the extension drained from its end.
pub fn for_each_subset<S: SubsetSink>(adj: &Adjacency, k: usize, sink: &mut S)
    requires
        adj.wf(),
        simple_graph(adj.graph()),
        k >= 1,
        old(sink).room() >= esu_all(adj.graph(), k as nat).len(),
        forall|q: Seq<usize>| valid_out(adj.graph(), k as nat, q) ==> #[trigger] old(sink).admits(q),
    ensures
        final(sink).seen() == old(sink).seen() + esu_all(adj.graph(), k as nat),
        final(sink).room() == old(sink).room() - esu_all(adj.graph(), k as nat).len(),
        final(sink).params() == old(sink).params(),
        forall|x: Seq<usize>| #[trigger] final(sink).admits(x) == old(sink).admits(x),
{
    let ghost g = adj.graph();
    let ghost seen0 = sink.seen();
    let ghost room0 = sink.room();
    let ghost total = esu_all(g, k as nat);
    proof { adj.lemma_graph(); }
    let n = adj.len();
    let mut v: usize = 0;
    while v < n
        invariant
            adj.wf(),
            simple_graph(g),
            g == adj.graph(),
            g.len() == n,
            n == adj.lists@.len(),
            k >= 1,
            v <= n,
            seen0 + total == sink.seen() + esu_roots(g, k as nat, v as nat),
            sink.room() >= esu_roots(g, k as nat, v as nat).len(),
            room0 - total.len() == sink.room() - esu_roots(g, k as nat, v as nat).len(),
            forall|q: Seq<usize>| valid_out(g, k as nat, q) ==> #[trigger] sink.admits(q),
            forall|x: Seq<usize>| #[trigger] sink.admits(x) == old(sink).admits(x),
            sink.params() == old(sink).params(),
        decreases n - v,
    {
        let empty: Vec<usize> = Vec::new();
        let ext = exclusive_ext(adj, &empty, v, v, &empty);
        proof {
            assert(empty@ =~= Seq::<usize>::empty());
            assert(ext@ =~= root_ext(g, v));
            lemma_root_frame(g, k as nat, v);
        }
        let mut sub: Vec<usize> = Vec::new();
        sub.push(v);
        assert(sub@ =~= seq![v]);
        let ghost a = esu_seq(g, k as nat, v, seq![v], root_ext(g, v));
        let ghost b = esu_roots(g, k as nat, (v + 1) as nat);
        let ghost before = sink.seen();
        assert(esu_roots(g, k as nat, v as nat) == a + b);
        esu_frame(adj, k, v, &mut sub, ext, sink);
        proof {
            assert(before + (a + b) =~= (before + a) + b);
        }
        v += 1;
    }
    proof {
        assert(esu_roots(g, k as nat, v as nat) == Seq::<Seq<usize>>::empty());
        assert(sink.seen() + Seq::<Seq<usize>>::empty() =~= sink.seen());
    }
}

// ---------------------------------------------------------------------------
// The traversal as an explicit stack of frames
// ---------------------------------------------------------------------------

/// The subsets still to be visited by a stack of frames rooted at `v`: frame `i`
/// owns the subset prefix `sub.take(i + 1)` and the extension `exts[i]`; the top
/// frame is the last and is drained first.
pub open spec fn pending(g: Seq<Seq<usize>>, k: nat, v: usize, sub: Seq<usize>, exts: Seq<Seq<usize>>) -> Seq<Seq<usize>>
    decreases exts.len(),
{
    if exts.len() == 0 {
        Seq::empty()
    } else {
        esu_seq(g, k, v, sub.take(exts.len() as int), exts.last()) + pending(g, k, v, sub, exts.drop_last())
    }
}

/// The number of steps the ESU recursion of a frame takes.
pub open spec fn esu_work(g: Seq<Seq<usize>>, k: nat, v: usize, sub: Seq<usize>, ext: Seq<usize>) -> nat
    decreases k - sub.len(), ext.len(),
{
    if sub.len() >= k {
        1
    } else if ext.len() == 0 {
        1
    } else {
        let w = ext.last();
        let rest = ext.drop_last();
        esu_work(g, k, v, sub.push(w), child_ext(g, sub, w, v, rest)) + esu_work(g, k, v, sub, rest) + 1
    }
}

/// The steps left to a stack of frames.
pub open spec fn pending_work(g: Seq<Seq<usize>>, k: nat, v: usize, sub: Seq<usize>, exts: Seq<Seq<usize>>) -> nat
    decreases exts.len(),
{
    if exts.len() == 0 {
        0
    } else {
        esu_work(g, k, v, sub.take(exts.len() as int), exts.last()) + pending_work(g, k, v, sub, exts.drop_last())
    }
}

/// The steps left to the roots `v0, v0 + 1, ..., n - 1`.
pub open spec fn roots_work(g: Seq<Seq<usize>>, k: nat, v0: nat) -> nat
    decreases g.len() - v0,
{
    if v0 >= g.len() {
        0
    } else {
        esu_work(g, k, v0 as usize, seq![v0 as usize], root_ext(g, v0 as usize)) + 1 + roots_work(g, k, v0 + 1)
    }
}

/// A stack of frames only reads the subset prefix its frames own.
pub proof fn lemma_pending_prefix(g: Seq<Seq<usize>>, k: nat, v: usize, s1: Seq<usize>, s2: Seq<usize>, exts: Seq<Seq<usize>>)
    requires
        exts.len() <= s1.len(),
        exts.len() <= s2.len(),
        s1.take(exts.len() as int) == s2.take(exts.len() as int),
    ensures
        pending(g, k, v, s1, exts) == pending(g, k, v, s2, exts),
        pending_work(g, k, v, s1, exts) == pending_work(g, k, v, s2, exts),
    decreases exts.len(),
{
    if exts.len() > 0 {
        let d = (exts.len() - 1) as int;
        assert(s1.take(d) =~= s1.take(exts.len() as int).take(d));
        assert(s2.take(d) =~= s2.take(exts.len() as int).take(d));
        lemma_pending_prefix(g, k, v, s1, s2, exts.drop_last());
    }
}

/// Membership after a push.
pub proof fn lemma_push_contains_seq(s: Seq<Seq<usize>>, x: Seq<usize>, c: Seq<usize>)
    ensures
        s.push(x).contains(c) <==> (s.contains(c) || c == x),
{
    if s.contains(c) {
        let i = choose|i: int| 0 <= i < s.len() && s[i] == c;
        assert(s.push(x)[i] == c);
    }
    if c == x {
        assert(s.push(x)[s.len() as int] == c);
    }
    if s.push(x).contains(c) {
        let i = choose|i: int| 0 <= i < s.push(x).len() && s.push(x)[i] == c;
        if i < s.len() {
            assert(s[i] == c);
        }
    }
}

} // verus!
