//! Motif occurrences: every distinct occurrence of a pattern in a graph, found as
//! pattern-to-host node maps and folded so that the maps that differ by a pattern
//! automorphism count once.
use vstd::prelude::*;
use crate::model::{is_perm, compose};
use crate::canonical::{perms, all_perms, list_adj, lists_wf, vec_contains};
use crate::catalog::{Pattern, Induced, Diamond, embeds, edge_rel};
use crate::template::{TemplateGraph, Query, query, is_embedding, monomorphisms_unlabelled};
use crate::census::ids_of;
use crate::snapshot::Snapshot;
use petgraph::graph::{UnGraph, DiGraph};
use petgraph::algo::subgraph_isomorphisms_iter;

verus! {

// ---------------------------------------------------------------------------
// Lexicographic order on node maps
// ---------------------------------------------------------------------------

/// `a` comes before `b` in lexicographic order.
pub open spec fn lex_lt(a: Seq<usize>, b: Seq<usize>) -> bool {
    exists|i: int| 0 <= i < a.len() && i < b.len() && #[trigger] a[i] < b[i]
        && forall|j: int| 0 <= j < i ==> a[j] == b[j]
}

proof fn lemma_lex_total(a: Seq<usize>, b: Seq<usize>)
    requires
        a.len() == b.len(),
    ensures
        a == b || lex_lt(a, b) || lex_lt(b, a),
        !(lex_lt(a, b) && lex_lt(b, a)),
        !lex_lt(a, a),
{
    if a != b {
        assert(exists|i: int| 0 <= i < a.len() && a[i] != b[i]) by {
            if forall|i: int| 0 <= i < a.len() ==> a[i] == b[i] {
                assert(a =~= b);
            }
        }
        let i0 = choose|i: int| 0 <= i < a.len() && a[i] != b[i];
        let i = lemma_first_diff(a, b, i0);
        if a[i] < b[i] {
            assert(lex_lt(a, b));
        } else {
            assert(lex_lt(b, a));
        }
    }
    if lex_lt(a, b) && lex_lt(b, a) {
        let i = choose|i: int| 0 <= i < a.len() && i < b.len() && #[trigger] a[i] < b[i] && forall|j: int| 0 <= j < i ==> a[j] == b[j];
        let k = choose|k: int| 0 <= k < b.len() && k < a.len() && #[trigger] b[k] < a[k] && forall|j: int| 0 <= j < k ==> b[j] == a[j];
        if i < k { assert(b[i] == a[i]); } else if k < i { assert(a[k] == b[k]); }
    }
}

proof fn lemma_first_diff(a: Seq<usize>, b: Seq<usize>, i: int) -> (m: int)
    requires
        a.len() == b.len(),
        0 <= i < a.len(),
        a[i] != b[i],
    ensures
        0 <= m <= i,
        a[m] != b[m],
        forall|j: int| 0 <= j < m ==> a[j] == b[j],
    decreases i,
{
    if exists|j: int| 0 <= j < i && a[j] != b[j] {
        let j = choose|j: int| 0 <= j < i && a[j] != b[j];
        lemma_first_diff(a, b, j)
    } else {
        i
    }
}

proof fn lemma_lex_trans(a: Seq<usize>, b: Seq<usize>, c: Seq<usize>)
    requires
        a.len() == b.len(),
        b.len() == c.len(),
        lex_lt(a, b),
        lex_lt(b, c),
    ensures
        lex_lt(a, c),
{
    let i = choose|i: int| 0 <= i < a.len() && i < b.len() && #[trigger] a[i] < b[i] && forall|j: int| 0 <= j < i ==> a[j] == b[j];
    let k = choose|k: int| 0 <= k < b.len() && k < c.len() && #[trigger] b[k] < c[k] && forall|j: int| 0 <= j < k ==> b[j] == c[j];
    let m = if i < k { i } else { k };
    assert(a[m] < c[m]) by {
        if i < k { assert(b[i] == c[i]); } else if k < i { assert(a[k] == b[k]); }
    }
    assert forall|j: int| 0 <= j < m implies a[j] == c[j] by {
        assert(a[j] == b[j] && b[j] == c[j]);
    }
}

/// Whether `a` comes before `b` in lexicographic order (equal lengths).
fn lex_less(a: &Vec<usize>, b: &Vec<usize>) -> (r: bool)
    requires
        a@.len() == b@.len(),
    ensures
        r == lex_lt(a@, b@),
{
    let mut i: usize = 0;
    while i < a.len() && a[i] == b[i]
        invariant
            a@.len() == b@.len(),
            i <= a@.len(),
            forall|j: int| 0 <= j < i ==> a@[j] == b@[j],
        decreases a@.len() - i,
    {
        i += 1;
    }
    if i < a.len() {
        proof {
            if lex_lt(a@, b@) {
                let k = choose|k: int| 0 <= k < a@.len() && k < b@.len() && #[trigger] a@[k] < b@[k] && forall|j: int| 0 <= j < k ==> a@[j] == b@[j];
                if k < i { assert(a@[k] == b@[k]); }
                if k > i { assert(a@[i as int] == b@[i as int]); }
            }
            if a[i as int] < b[i as int] {
                assert(lex_lt(a@, b@));
            }
        }
        a[i] < b[i]
    } else {
        proof {
            if lex_lt(a@, b@) {
                let k = choose|k: int| 0 <= k < a@.len() && k < b@.len() && #[trigger] a@[k] < b@[k] && forall|j: int| 0 <= j < k ==> a@[j] == b@[j];
                assert(a@[k] == b@[k]);
            }
        }
        false
    }
}

// ---------------------------------------------------------------------------
// Occurrence keys
// ---------------------------------------------------------------------------

/// The automorphisms of a pattern: the node permutations that carry every pattern
/// edge onto an edge.
pub open spec fn pattern_auts(p: Pattern) -> Set<Seq<usize>> {
    Set::new(|q: Seq<usize>| is_perm(q, p.order_spec() as nat) && embeds(p.edges(), p.edges(), q))
}

/// The key of a node map `e` under the automorphisms `auts`: the lexicographically
/// least of the maps `c -> e[q[c]]`, `q` in `auts`. Two maps that differ by an
/// automorphism of a pattern share their key.
pub open spec fn okey(e: Seq<usize>, auts: Set<Seq<usize>>) -> Seq<usize> {
    choose|m: Seq<usize>| is_okey(e, auts, m)
}

pub open spec fn is_okey(e: Seq<usize>, auts: Set<Seq<usize>>, m: Seq<usize>) -> bool {
    &&& exists|q: Seq<usize>| auts.contains(q) && m == compose(e, q)
    &&& forall|q: Seq<usize>| auts.contains(q) ==> !lex_lt(#[trigger] compose(e, q), m)
}

/// The key of `e`: the least of `c -> e[p[c]]` over the listed automorphisms.
fn key_of(e: &Vec<usize>, auts: &Vec<Vec<usize>>, k: usize, Ghost(aset): Ghost<Set<Seq<usize>>>) -> (r: Vec<usize>)
    requires
        auts@.len() > 0,
        e@.len() == k,
        forall|q: Seq<usize>| #[trigger] auts.deep_view().contains(q) <==> aset.contains(q),
        forall|q: Seq<usize>| aset.contains(q) ==> is_perm(q, k as nat),
    ensures
        r@ == okey(e@, aset),
        is_okey(e@, aset, r@),
{
    let ghost dv = auts.deep_view();
    let mut best: Vec<usize> = Vec::new();
    let mut t: usize = 0;
    while t < auts.len()
        invariant
            dv == auts.deep_view(),
            forall|q: Seq<usize>| #[trigger] dv.contains(q) <==> aset.contains(q),
            forall|q: Seq<usize>| aset.contains(q) ==> is_perm(q, k as nat),
            e@.len() == k,
            t <= dv.len(),
            t > 0 ==> exists|u: int| 0 <= u < t && #[trigger] compose(e@, dv[u]) == best@,
            t > 0 ==> forall|u: int| 0 <= u < t ==> !lex_lt(#[trigger] compose(e@, dv[u]), best@),
            t > 0 ==> best@.len() == k,
        decreases dv.len() - t,
    {
        let p = &auts[t];
        assert(p@ == dv[t as int]);
        assert(dv.contains(dv[t as int]));
        assert(is_perm(p@, k as nat));
        let mut c: Vec<usize> = Vec::new();
        let mut i: usize = 0;
        while i < k
            invariant
                i <= k,
                p@.len() == k,
                e@.len() == k,
                forall|x: int| 0 <= x < k ==> (#[trigger] p@[x]) < k,
                c@.len() == i,
                forall|x: int| 0 <= x < i ==> #[trigger] c@[x] == e@[p@[x] as int],
            decreases k - i,
        {
            c.push(e[p[i]]);
            i += 1;
        }
        assert(c@ =~= compose(e@, p@));
        if t == 0 || lex_less(&c, &best) {
            proof {
                if t > 0 {
                    assert forall|u: int| 0 <= u < t + 1 implies !lex_lt(#[trigger] compose(e@, dv[u]), c@) by {
                        if u < t {
                            assert(dv.contains(dv[u]));
                            lemma_lex_total(compose(e@, dv[u]), best@);
                            if lex_lt(compose(e@, dv[u]), c@) {
                                lemma_lex_trans(compose(e@, dv[u]), c@, best@);
                            }
                        } else {
                            lemma_lex_total(c@, c@);
                        }
                    }
                } else {
                    lemma_lex_total(c@, c@);
                }
            }
            best = c;
        } else {
            proof {
                assert forall|u: int| 0 <= u < t + 1 implies !lex_lt(#[trigger] compose(e@, dv[u]), best@) by {}
            }
        }
        t += 1;
    }
    proof {
        let u = choose|u: int| 0 <= u < dv.len() && #[trigger] compose(e@, dv[u]) == best@;
        assert(dv.contains(dv[u]));
        assert forall|q: Seq<usize>| aset.contains(q) implies !lex_lt(#[trigger] compose(e@, q), best@) by {
            assert(dv.contains(q));
            let w = choose|w: int| 0 <= w < dv.len() && dv[w] == q;
        }
        assert(is_okey(e@, aset, best@));
        lemma_okey_unique(e@, aset, best@);
    }
    best
}

/// The least element is unique.
proof fn lemma_okey_unique(e: Seq<usize>, auts: Set<Seq<usize>>, m: Seq<usize>)
    requires
        is_okey(e, auts, m),
        forall|q: Seq<usize>| auts.contains(q) ==> q.len() == e.len(),
    ensures
        okey(e, auts) == m,
{
    let o = okey(e, auts);
    assert(is_okey(e, auts, o));
    let qm = choose|q: Seq<usize>| auts.contains(q) && m == compose(e, q);
    let qo = choose|q: Seq<usize>| auts.contains(q) && o == compose(e, q);
    assert(!lex_lt(compose(e, qo), m));
    assert(!lex_lt(compose(e, qm), o));
    lemma_lex_total(o, m);
}

/// The automorphisms of `pattern`, in permutation order.
fn pattern_automorphisms(pattern: &Pattern) -> (r: Vec<Vec<usize>>)
    ensures
        r@.len() > 0,
        forall|q: Seq<usize>| #[trigger] r.deep_view().contains(q) <==> pattern_auts(*pattern).contains(q),
{
    let adj = pattern.adjacency();
    let k = adj.len();
    let ghost dv = adj.deep_view();
    let ghost pe = pattern.edges();
    let ps = perms(k);
    let ghost pd = ps.deep_view();
    let mut r: Vec<Vec<usize>> = Vec::new();
    let mut t: usize = 0;
    while t < ps.len()
        invariant
            k == pattern.order_spec(),
            2 <= k <= 5,
            adj@.len() == k,
            dv == adj.deep_view(),
            lists_wf(dv),
            list_adj(dv) == pe,
            pe == pattern.edges(),
            forall|a: usize| !(#[trigger] list_adj(dv)(a, a)),
            pd == ps.deep_view(),
            all_perms(pd, k as nat),
            t <= pd.len(),
            forall|q: Seq<usize>| #[trigger] r.deep_view().contains(q) <==> (pd.take(t as int).contains(q) && pattern_auts(*pattern).contains(q)),
        decreases pd.len() - t,
    {
        let p = &ps[t];
        assert(p@ == pd[t as int]);
        assert(pd.contains(pd[t as int]));
        let mut ok = true;
        let mut i: usize = 0;
        while i < k && ok
            invariant
                k == adj@.len(),
                dv == adj.deep_view(),
                lists_wf(dv),
                is_perm(p@, k as nat),
                i <= k,
                ok <==> forall|a: usize, b: usize| a < i && #[trigger] dv[a as int].contains(b) ==> list_adj(dv)(p@[a as int], p@[b as int]),
            decreases k - i + (if ok { 1int } else { 0int }),
        {
            let row = &adj[i];
            assert(row@ == dv[i as int]);
            let mut j: usize = 0;
            while j < row.len() && ok
                invariant
                    k == adj@.len(),
                    dv == adj.deep_view(),
                    lists_wf(dv),
                    is_perm(p@, k as nat),
                    i < k,
                    row@ == dv[i as int],
                    j <= row@.len(),
                    ok <==> (forall|a: usize, b: usize| a < i && #[trigger] dv[a as int].contains(b) ==> list_adj(dv)(p@[a as int], p@[b as int]))
                        && (forall|t2: int| 0 <= t2 < j ==> list_adj(dv)(p@[i as int], p@[#[trigger] row@[t2] as int])),
                decreases row@.len() - j + (if ok { 1int } else { 0int }),
            {
                let b = row[j];
                assert(b < k);
                let tgt = &adj[p[i]];
                assert(tgt@ == dv[p@[i as int] as int]);
                if !vec_contains(tgt, p[b]) {
                    ok = false;
                }
                j += 1;
            }
            proof {
                if ok {
                    assert forall|a: usize, b: usize| a < i + 1 && #[trigger] dv[a as int].contains(b) implies list_adj(dv)(p@[a as int], p@[b as int]) by {
                        if a == i {
                            let t2 = choose|t2: int| 0 <= t2 < row@.len() && row@[t2] == b;
                        }
                    }
                } else {
                    if forall|a: usize, b: usize| a < i && #[trigger] dv[a as int].contains(b) ==> list_adj(dv)(p@[a as int], p@[b as int]) {
                        let t2 = choose|t2: int| 0 <= t2 < j && !list_adj(dv)(p@[i as int], p@[#[trigger] row@[t2] as int]);
                        assert(dv[i as int].contains(row@[t2]));
                    }
                }
            }
            i += 1;
        }
        proof {
            assert(ok <==> embeds(pe, pe, p@)) by {
                if ok {
                    assert forall|a: usize, b: usize| a < b && #[trigger] pe(a, b) implies pe(p@[a as int], p@[b as int]) by {
                        assert(dv[a as int].contains(b));
                    }
                }
                if embeds(pe, pe, p@) && !ok {
                    assert(exists|a: usize, b: usize| a < i && #[trigger] dv[a as int].contains(b) && !list_adj(dv)(p@[a as int], p@[b as int]));
                    let (a, b) = choose|a: usize, b: usize| a < i && #[trigger] dv[a as int].contains(b) && !list_adj(dv)(p@[a as int], p@[b as int]);
                    assert(pe(a, b));
                    assert(b < k) by {
                        let w = choose|w: int| 0 <= w < dv[a as int].len() && dv[a as int][w] == b;
                    }
                    if a < b {
                        assert(pe(p@[a as int], p@[b as int]));
                    } else {
                        assert(a != b) by { if a == b { assert(list_adj(dv)(a, a)); } }
                        assert(pe(b, a));
                        assert(pe(p@[b as int], p@[a as int]));
                        assert(list_adj(dv)(p@[b as int], p@[a as int]) == list_adj(dv)(p@[a as int], p@[b as int]));
                    }
                }
            }
        }
        let ghost r0 = r.deep_view();
        if ok {
            let c = p.clone();
            assert(c@ =~= p@);
            r.push(c);
            proof {
                assert(r.deep_view() =~= r0.push(p@));
            }
        }
        proof {
            assert(pd.take(t + 1) =~= pd.take(t as int).push(pd[t as int]));
            assert forall|q: Seq<usize>| #[trigger] r.deep_view().contains(q) <==> (pd.take(t + 1).contains(q) && pattern_auts(*pattern).contains(q)) by {
                crate::esu::lemma_push_contains_seq(pd.take(t as int), pd[t as int], q);
                if ok {
                    crate::esu::lemma_push_contains_seq(r0, p@, q);
                }
            }
        }
        t += 1;
    }
    proof {
        assert(pd.take(pd.len() as int) =~= pd);
        let id = crate::model::id_seq(k as nat);
        crate::model::lemma_id_seq(k as nat);
        assert(pattern_auts(*pattern).contains(id)) by {
            assert forall|a: usize, b: usize| a < b && #[trigger] pe(a, b) implies pe(id[a as int], id[b as int]) by {
                if b < k { assert(id[a as int] == a && id[b as int] == b); } else {
                    assert(!pe(a, b)) by {
                        if pe(a, b) {
                            let w = choose|w: int| 0 <= w < dv[a as int].len() && dv[a as int][w] == b;
                        }
                    }
                }
            }
        }
        assert(r.deep_view().contains(id));
    }
    r
}

// ---------------------------------------------------------------------------
// One representative per occurrence
// ---------------------------------------------------------------------------

/// The entries of `raw` whose key no earlier entry has, in order: one representative
/// of each occurrence.
pub open spec fn firsts(raw: Seq<Seq<usize>>, auts: Set<Seq<usize>>) -> Seq<Seq<usize>>
    decreases raw.len(),
{
    if raw.len() == 0 {
        Seq::empty()
    } else {
        let r = firsts(raw.drop_last(), auts);
        if exists|j: int| 0 <= j < raw.len() - 1 && #[trigger] okey(raw[j], auts) == okey(raw.last(), auts) {
            r
        } else {
            r.push(raw.last())
        }
    }
}

/// The representatives come from `raw`, have pairwise distinct keys, and every
/// entry of `raw` shares its key with one of them.
pub proof fn lemma_firsts(raw: Seq<Seq<usize>>, auts: Set<Seq<usize>>)
    ensures
        forall|i: int| 0 <= i < firsts(raw, auts).len() ==> raw.contains(#[trigger] firsts(raw, auts)[i]),
        forall|i: int, j: int| 0 <= i < firsts(raw, auts).len() && 0 <= j < firsts(raw, auts).len() && i != j
            ==> okey(#[trigger] firsts(raw, auts)[i], auts) != okey(#[trigger] firsts(raw, auts)[j], auts),
        forall|y: Seq<usize>| #[trigger] raw.contains(y) ==> exists|i: int| 0 <= i < firsts(raw, auts).len()
            && #[trigger] okey(firsts(raw, auts)[i], auts) == okey(y, auts),
    decreases raw.len(),
{
    if raw.len() > 0 {
        let pre = raw.drop_last();
        let x = raw.last();
        lemma_firsts(pre, auts);
        let r0 = firsts(pre, auts);
        let r = firsts(raw, auts);
        assert forall|i: int| 0 <= i < r.len() implies raw.contains(#[trigger] r[i]) by {
            if i < r0.len() {
                assert(r[i] == r0[i]);
                assert(pre.contains(r0[i]));
                let w = choose|w: int| 0 <= w < pre.len() && pre[w] == r0[i];
                assert(raw[w] == r0[i]);
            } else {
                assert(raw[raw.len() - 1] == x);
            }
        }
        if exists|j: int| 0 <= j < raw.len() - 1 && #[trigger] okey(raw[j], auts) == okey(x, auts) {
            let j = choose|j: int| 0 <= j < raw.len() - 1 && #[trigger] okey(raw[j], auts) == okey(x, auts);
            assert(pre[j] == raw[j]);
            assert(pre.contains(pre[j]));
            assert forall|y: Seq<usize>| #[trigger] raw.contains(y) implies exists|i: int| 0 <= i < r.len()
                && #[trigger] okey(r[i], auts) == okey(y, auts) by {
                let w = choose|w: int| 0 <= w < raw.len() && raw[w] == y;
                if w < raw.len() - 1 {
                    assert(pre[w] == y);
                    assert(pre.contains(y));
                    let i = choose|i: int| 0 <= i < r0.len() && #[trigger] okey(r0[i], auts) == okey(y, auts);
                    assert(r[i] == r0[i]);
                } else {
                    assert(pre.contains(pre[j]));
                    let i = choose|i: int| 0 <= i < r0.len() && #[trigger] okey(r0[i], auts) == okey(pre[j], auts);
                    assert(r[i] == r0[i]);
                }
            }
        } else {
            assert forall|i: int, j: int| 0 <= i < r.len() && 0 <= j < r.len() && i != j
                implies okey(#[trigger] r[i], auts) != okey(#[trigger] r[j], auts) by {
                if i < r0.len() && j < r0.len() {
                    assert(r[i] == r0[i] && r[j] == r0[j]);
                } else if i < r0.len() {
                    assert(r[i] == r0[i]);
                    assert(pre.contains(r0[i]));
                    let w = choose|w: int| 0 <= w < pre.len() && pre[w] == r0[i];
                    assert(raw[w] == r0[i]);
                } else {
                    assert(r[j] == r0[j]);
                    assert(pre.contains(r0[j]));
                    let w = choose|w: int| 0 <= w < pre.len() && pre[w] == r0[j];
                    assert(raw[w] == r0[j]);
                }
            }
            assert forall|y: Seq<usize>| #[trigger] raw.contains(y) implies exists|i: int| 0 <= i < r.len()
                && #[trigger] okey(r[i], auts) == okey(y, auts) by {
                let w = choose|w: int| 0 <= w < raw.len() && raw[w] == y;
                if w < raw.len() - 1 {
                    assert(pre[w] == y);
                    assert(pre.contains(y));
                    let i = choose|i: int| 0 <= i < r0.len() && #[trigger] okey(r0[i], auts) == okey(y, auts);
                    assert(r[i] == r0[i]);
                } else {
                    assert(r[r0.len() as int] == x);
                }
            }
        }
    }
}


/// The representatives have pairwise distinct keys.
pub proof fn lemma_firsts_distinct(raw: Seq<Seq<usize>>, auts: Set<Seq<usize>>)
    ensures
        forall|i: int, j: int| 0 <= i < firsts(raw, auts).len() && 0 <= j < firsts(raw, auts).len() && i != j
            ==> okey(#[trigger] firsts(raw, auts)[i], auts) != okey(#[trigger] firsts(raw, auts)[j], auts),
{
    lemma_firsts(raw, auts);
}

fn seq_equal(a: &Vec<usize>, b: &Vec<usize>) -> (r: bool)
    ensures
        r == (a@ == b@),
{
    if a.len() != b.len() {
        return false;
    }
    let mut i: usize = 0;
    while i < a.len()
        invariant
            a@.len() == b@.len(),
            i <= a@.len(),
            forall|j: int| 0 <= j < i ==> a@[j] == b@[j],
        decreases a@.len() - i,
    {
        if a[i] != b[i] {
            return false;
        }
        i += 1;
    }
    assert(a@ =~= b@);
    true
}

/// Keep the first node map of each occurrence, in order.
fn distinct_occurrences(raw: Vec<Vec<usize>>, auts: &Vec<Vec<usize>>, k: usize, Ghost(aset): Ghost<Set<Seq<usize>>>) -> (r: Vec<Vec<usize>>)
    requires
        auts@.len() > 0,
        forall|i: int| 0 <= i < raw@.len() ==> (#[trigger] raw@[i])@.len() == k,
        forall|q: Seq<usize>| #[trigger] auts.deep_view().contains(q) <==> aset.contains(q),
        forall|q: Seq<usize>| aset.contains(q) ==> is_perm(q, k as nat),
    ensures
        r.deep_view() == firsts(raw.deep_view(), aset),
{
    let ghost rd = raw.deep_view();
    let mut seen: Vec<Vec<usize>> = Vec::new();
    let mut reps: Vec<Vec<usize>> = Vec::new();
    let mut t: usize = 0;
    while t < raw.len()
        invariant
            rd == raw.deep_view(),
            auts@.len() > 0,
            forall|i: int| 0 <= i < raw@.len() ==> (#[trigger] raw@[i])@.len() == k,
            forall|q: Seq<usize>| #[trigger] auts.deep_view().contains(q) <==> aset.contains(q),
            forall|q: Seq<usize>| aset.contains(q) ==> is_perm(q, k as nat),
            t <= rd.len(),
            reps.deep_view() == firsts(rd.take(t as int), aset),
            forall|x: Seq<usize>| #[trigger] seen.deep_view().contains(x) <==> exists|j: int| 0 <= j < t && x == okey(#[trigger] rd[j], aset),
        decreases rd.len() - t,
    {
        let e = &raw[t];
        assert(e@ == rd[t as int]);
        let key = key_of(e, auts, k, Ghost(aset));
        let mut found = false;
        let mut u: usize = 0;
        while u < seen.len() && !found
            invariant
                u <= seen@.len(),
                found ==> seen.deep_view().contains(key@),
                !found ==> forall|w: int| 0 <= w < u ==> seen.deep_view()[w] != key@,
            decreases seen@.len() - u + (if found { 0int } else { 1int }),
        {
            assert(seen.deep_view()[u as int] == seen@[u as int]@);
            if seq_equal(&seen[u], &key) {
                found = true;
                assert(seen.deep_view()[u as int] == key@);
            }
            u += 1;
        }
        let ghost pre = rd.take(t as int);
        let ghost pre1 = rd.take(t + 1);
        proof {
            assert(pre1.drop_last() =~= pre);
            assert(pre1.last() == rd[t as int]);
            assert((exists|j: int| 0 <= j < pre1.len() - 1 && #[trigger] okey(pre1[j], aset) == okey(pre1.last(), aset))
                <==> seen.deep_view().contains(key@)) by {
                if exists|j: int| 0 <= j < pre1.len() - 1 && #[trigger] okey(pre1[j], aset) == okey(pre1.last(), aset) {
                    let j = choose|j: int| 0 <= j < pre1.len() - 1 && #[trigger] okey(pre1[j], aset) == okey(pre1.last(), aset);
                    assert(pre1[j] == rd[j]);
                }
                if seen.deep_view().contains(key@) {
                    let j = choose|j: int| 0 <= j < t && key@ == okey(#[trigger] rd[j], aset);
                    assert(pre1[j] == rd[j]);
                }
            }
            if !found {
                assert(!seen.deep_view().contains(key@));
            }
        }
        let ghost s0 = seen.deep_view();
        let ghost r0 = reps.deep_view();
        if !found {
            let c = e.clone();
            assert(c@ =~= e@);
            let ghost sv = seen@;
            let ghost rv = reps@;
            seen.push(key);
            reps.push(c);
            proof {
                assert(seen.deep_view() =~= s0.push(okey(rd[t as int], aset))) by {
                    assert forall|w: int| 0 <= w < seen@.len() implies #[trigger] seen.deep_view()[w] == s0.push(okey(rd[t as int], aset))[w] by {
                        if w < sv.len() { assert(seen@[w] == sv[w]); }
                    }
                }
                assert(reps.deep_view() =~= r0.push(rd[t as int])) by {
                    assert forall|w: int| 0 <= w < reps@.len() implies #[trigger] reps.deep_view()[w] == r0.push(rd[t as int])[w] by {
                        if w < rv.len() { assert(reps@[w] == rv[w]); }
                    }
                }
            }
        }
        proof {
            assert forall|x: Seq<usize>| #[trigger] seen.deep_view().contains(x) <==> exists|j: int| 0 <= j < t + 1 && x == okey(#[trigger] rd[j], aset) by {
                if !found {
                    crate::esu::lemma_push_contains_seq(s0, okey(rd[t as int], aset), x);
                }
                if exists|j: int| 0 <= j < t + 1 && x == okey(#[trigger] rd[j], aset) {
                    let j = choose|j: int| 0 <= j < t + 1 && x == okey(#[trigger] rd[j], aset);
                    if j == t && found {
                        assert(s0.contains(key@));
                    }
                }
            }
        }
        t += 1;
    }
    proof { assert(rd.take(rd.len() as int) =~= rd); }
    reps
}

// ---------------------------------------------------------------------------
// Graphs as edge lists, and node-induced matches
// ---------------------------------------------------------------------------

/// The pairs `(i, j)` with `j` listed in `row` and `j > i`, in list order.
pub open spec fn up_pairs(row: Seq<usize>, i: usize) -> Seq<(usize, usize)>
    decreases row.len(),
{
    if row.len() == 0 {
        Seq::empty()
    } else {
        let r = up_pairs(row.drop_last(), i);
        if row.last() > i { r.push((i, row.last())) } else { r }
    }
}

/// Each edge of neighbor lists `g` once, as `(i, j)` with `i < j`, by `i` then list
/// order.
pub open spec fn up_edges_upto(g: Seq<Seq<usize>>, i: nat) -> Seq<(usize, usize)>
    decreases i,
{
    if i == 0 { Seq::empty() } else { up_edges_upto(g, (i - 1) as nat) + up_pairs(g[i - 1], (i - 1) as usize) }
}

pub open spec fn up_edges(g: Seq<Seq<usize>>) -> Seq<(usize, usize)> {
    up_edges_upto(g, g.len())
}


/// The pairs of `up_pairs(row, i)` are `(i, b)` for the entries `b > i` of `row`, each once.
proof fn lemma_up_pairs_facts(row: Seq<usize>, i: usize)
    requires
        row.no_duplicates(),
    ensures
        forall|p: int| 0 <= p < up_pairs(row, i).len() ==> (#[trigger] up_pairs(row, i)[p]).0 == i
            && up_pairs(row, i)[p].1 > i && row.contains(up_pairs(row, i)[p].1),
        up_pairs(row, i).no_duplicates(),
        forall|b: usize| row.contains(b) && b > i ==> #[trigger] up_pairs(row, i).contains((i, b)),
    decreases row.len(),
{
    if row.len() > 0 {
        let pre = row.drop_last();
        let x = row.last();
        assert(pre.no_duplicates()) by {
            assert forall|a: int, b: int| 0 <= a < b < pre.len() implies pre[a] != pre[b] by {
                assert(pre[a] == row[a] && pre[b] == row[b]);
            }
        }
        lemma_up_pairs_facts(pre, i);
        let r0 = up_pairs(pre, i);
        assert(!pre.contains(x)) by {
            if pre.contains(x) {
                let w = choose|w: int| 0 <= w < pre.len() && pre[w] == x;
                assert(row[w] == row[row.len() - 1]);
            }
        }
        assert forall|b: usize| pre.contains(b) implies row.contains(b) by {
            let w = choose|w: int| 0 <= w < pre.len() && pre[w] == b;
            assert(row[w] == b);
        }
        assert forall|b: usize| row.contains(b) && b != x implies pre.contains(b) by {
            let w = choose|w: int| 0 <= w < row.len() && row[w] == b;
            assert(w < row.len() - 1);
            assert(pre[w] == b);
        }
        assert(row[row.len() - 1] == x);
        if x > i {
            let r = r0.push((i, x));
            assert(up_pairs(row, i) == r);
            assert forall|p: int| 0 <= p < r.len() implies (#[trigger] r[p]).0 == i && r[p].1 > i && row.contains(r[p].1) by {
                if p < r0.len() {
                    assert(r[p] == r0[p]);
                }
            }
            assert(r.no_duplicates()) by {
                assert forall|a: int, b: int| 0 <= a < b < r.len() implies r[a] != r[b] by {
                    if b == r0.len() {
                        assert(r[a] == r0[a]);
                        assert(pre.contains(r0[a].1));
                    } else {
                        assert(r[a] == r0[a] && r[b] == r0[b]);
                    }
                }
            }
            assert forall|b: usize| row.contains(b) && b > i implies #[trigger] r.contains((i, b)) by {
                if b == x {
                    assert(r[r0.len() as int] == (i, b));
                } else {
                    assert(r0.contains((i, b)));
                    let w = choose|w: int| 0 <= w < r0.len() && r0[w] == (i, b);
                    assert(r[w] == (i, b));
                }
            }
        } else {
            assert(up_pairs(row, i) == r0);
        }
    }
}

/// The pairs of `up_edges_upto(g, i)` are `(a, b)`, `a < i`, `a < b`, `b` listed at `a`,
/// each once, and every such pair is there.
proof fn lemma_up_edges_facts(g: Seq<Seq<usize>>, i: nat)
    requires
        i <= g.len(),
        g.len() <= usize::MAX,
        forall|a: int| 0 <= a < g.len() ==> (#[trigger] g[a]).no_duplicates(),
    ensures
        forall|p: int| 0 <= p < up_edges_upto(g, i).len() ==> (#[trigger] up_edges_upto(g, i)[p]).0 < i
            && up_edges_upto(g, i)[p].0 < up_edges_upto(g, i)[p].1
            && g[up_edges_upto(g, i)[p].0 as int].contains(up_edges_upto(g, i)[p].1),
        up_edges_upto(g, i).no_duplicates(),
        forall|a: usize, b: usize| a < i && g[a as int].contains(b) && a < b ==> #[trigger] up_edges_upto(g, i).contains((a, b)),
    decreases i,
{
    if i > 0 {
        let j = (i - 1) as nat;
        lemma_up_edges_facts(g, j);
        lemma_up_pairs_facts(g[j as int], j as usize);
        let r0 = up_edges_upto(g, j);
        let r1 = up_pairs(g[j as int], j as usize);
        let r = r0 + r1;
        assert(up_edges_upto(g, i) == r);
        assert forall|p: int| 0 <= p < r.len() implies (#[trigger] r[p]).0 < i && r[p].0 < r[p].1 && g[r[p].0 as int].contains(r[p].1) by {
            if p < r0.len() {
                assert(r[p] == r0[p]);
            } else {
                assert(r[p] == r1[p - r0.len()]);
            }
        }
        assert(r.no_duplicates()) by {
            assert forall|a: int, b: int| 0 <= a < b < r.len() implies r[a] != r[b] by {
                if b < r0.len() {
                    assert(r[a] == r0[a] && r[b] == r0[b]);
                } else if a >= r0.len() {
                    assert(r[a] == r1[a - r0.len()] && r[b] == r1[b - r0.len()]);
                } else {
                    assert(r[a] == r0[a] && r[b] == r1[b - r0.len()]);
                }
            }
        }
        assert forall|a: usize, b: usize| a < i && g[a as int].contains(b) && a < b implies #[trigger] r.contains((a, b)) by {
            if a < j {
                assert(r0.contains((a, b)));
                let w = choose|w: int| 0 <= w < r0.len() && r0[w] == (a, b);
                assert(r[w] == (a, b));
            } else {
                assert(r1.contains((a, b)));
                let w = choose|w: int| 0 <= w < r1.len() && r1[w] == (a, b);
                assert(r[r0.len() + w] == (a, b));
            }
        }
    }
}

/// The edge list of loop-free symmetric neighbor lists is plain, and two nodes are
/// joined in it exactly when they are adjacent.
proof fn lemma_up_edges_plain(g: Seq<Seq<usize>>)
    requires
        lists_wf(g),
        g.len() <= usize::MAX,
        forall|a: usize| !(#[trigger] list_adj(g)(a, a)),
    ensures
        plain_edges(g.len(), up_edges(g), false),
        forall|a: usize, b: usize| #[trigger] joined(up_edges(g), false, a, b) == list_adj(g)(a, b),
{
    let es = up_edges(g);
    lemma_up_edges_facts(g, g.len());
    assert forall|p: int| 0 <= p < es.len() implies (#[trigger] es[p]).0 < g.len() && es[p].1 < g.len() && es[p].0 != es[p].1 by {
        let t = choose|t: int| 0 <= t < g[es[p].0 as int].len() && g[es[p].0 as int][t] == es[p].1;
    }
    assert forall|p: int, q: int| 0 <= p < es.len() && 0 <= q < es.len() && p != q
        implies #[trigger] es[p] != #[trigger] es[q] && es[p] != (es[q].1, es[q].0) by {}
    assert forall|a: usize, b: usize| #[trigger] joined(es, false, a, b) == list_adj(g)(a, b) by {
        if es.contains((a, b)) {
            let p = choose|p: int| 0 <= p < es.len() && es[p] == (a, b);
        }
        if es.contains((b, a)) {
            let p = choose|p: int| 0 <= p < es.len() && es[p] == (b, a);
            assert(list_adj(g)(b, a));
        }
        if list_adj(g)(a, b) {
            assert(a != b);
            if b < a {
                assert(list_adj(g)(b, a));
            }
        }
    }
}

proof fn lemma_up_pairs_len(row: Seq<usize>, i: usize)
    ensures
        up_pairs(row, i).len() <= row.len(),
    decreases row.len(),
{
    if row.len() > 0 {
        lemma_up_pairs_len(row.drop_last(), i);
    }
}

/// Neighbor lists on `k` nodes, each duplicate-free, list at most `k * k` edges.
proof fn lemma_up_edges_small(g: Seq<Seq<usize>>, k: nat, i: nat)
    requires
        g.len() == k,
        i <= k,
        k <= 5,
        forall|a: int, t: int| 0 <= a < g.len() && 0 <= t < g[a].len() ==> (#[trigger] g[a][t]) < k,
        forall|a: int| 0 <= a < g.len() ==> (#[trigger] g[a]).no_duplicates(),
    ensures
        up_edges_upto(g, i).len() <= i * k,
    decreases i,
{
    if i > 0 {
        lemma_up_edges_small(g, k, (i - 1) as nat);
        let row = g[i - 1];
        lemma_up_pairs_len(row, (i - 1) as usize);
        crate::model::lemma_id_seq(k);
        row.unique_seq_to_set();
        assert(row.to_set().subset_of(crate::model::below(k))) by {
            assert forall|x: usize| row.to_set().contains(x) implies crate::model::below(k).contains(x) by {
                let t = choose|t: int| 0 <= t < row.len() && row[t] == x;
            }
        }
        vstd::set_lib::lemma_len_subset(row.to_set(), crate::model::below(k));
        assert(i * k == (i - 1) * k + k) by (nonlinear_arith);
    }
}

/// The edge list of neighbor lists, each edge once.
fn up_edge_list(adj: &Vec<Vec<usize>>) -> (r: Vec<(usize, usize)>)
    requires
        forall|a: int, t: int| 0 <= a < adj@.len() && 0 <= t < adj@[a]@.len() ==> (#[trigger] adj@[a]@[t]) < adj@.len(),
    ensures
        r@ == up_edges(adj.deep_view()),
        forall|e: int| 0 <= e < r@.len() ==> (#[trigger] r@[e]).0 < adj@.len() && r@[e].1 < adj@.len(),
{
    let ghost g = adj.deep_view();
    let n = adj.len();
    let mut r: Vec<(usize, usize)> = Vec::new();
    let mut i: usize = 0;
    while i < n
        invariant
            i <= n,
            n == adj@.len(),
            g == adj.deep_view(),
            forall|a: int, t: int| 0 <= a < adj@.len() && 0 <= t < adj@[a]@.len() ==> (#[trigger] adj@[a]@[t]) < adj@.len(),
            r@ == up_edges_upto(g, i as nat),
            forall|e: int| 0 <= e < r@.len() ==> (#[trigger] r@[e]).0 < n && r@[e].1 < n,
        decreases n - i,
    {
        let row = &adj[i];
        assert(row@ == g[i as int]);
        let ghost base = r@;
        let mut t: usize = 0;
        while t < row.len()
            invariant
                i < n,
                n == adj@.len(),
                row@ == g[i as int],
                forall|u: int| 0 <= u < row@.len() ==> (#[trigger] row@[u]) < n,
                t <= row@.len(),
                r@ == base + up_pairs(row@.take(t as int), i),
                forall|e: int| 0 <= e < r@.len() ==> (#[trigger] r@[e]).0 < n && r@[e].1 < n,
            decreases row@.len() - t,
        {
            let j = row[t];
            proof {
                assert(row@.take(t + 1).drop_last() =~= row@.take(t as int));
                assert(row@.take(t + 1).last() == j);
            }
            if j > i {
                r.push((i, j));
                assert(r@ =~= base + up_pairs(row@.take(t + 1), i));
            } else {
                assert(r@ =~= base + up_pairs(row@.take(t + 1), i));
            }
            t += 1;
        }
        assert(row@.take(row@.len() as int) =~= row@);
        i += 1;
    }
    r
}

/// Accept any pair of weights: matching on structure alone.
fn accept(_a: &(), _b: &()) -> (r: bool)
    ensures
        r,
{
    true
}

/// `a` and `b` are joined in the edge list (either way round when undirected).
pub open spec fn joined(edges: Seq<(usize, usize)>, directed: bool, a: usize, b: usize) -> bool {
    edges.contains((a, b)) || (!directed && edges.contains((b, a)))
}

/// An edge list over `0..n` with no self-loop and no pair (arc, when directed)
/// listed twice: not a multigraph.
pub open spec fn plain_edges(n: nat, edges: Seq<(usize, usize)>, directed: bool) -> bool {
    &&& forall|p: int| 0 <= p < edges.len() ==> (#[trigger] edges[p]).0 < n && edges[p].1 < n && edges[p].0 != edges[p].1
    &&& forall|p: int, q: int| 0 <= p < edges.len() && 0 <= q < edges.len() && p != q
        ==> #[trigger] edges[p] != #[trigger] edges[q] && (!directed ==> edges[p] != (edges[q].1, edges[q].0))
}

/// `f` maps the `pk` pattern nodes one-to-one into the `nh` host nodes so that two
/// pattern nodes are joined exactly when their images are: a node-induced embedding.
pub open spec fn is_induced_embedding(pk: nat, pedges: Seq<(usize, usize)>, nh: nat, hedges: Seq<(usize, usize)>, directed: bool, f: Seq<usize>) -> bool {
    &&& f.len() == pk
    &&& f.no_duplicates()
    &&& forall|v: int| 0 <= v < pk ==> #[trigger] f[v] < nh
    &&& forall|a: usize, b: usize| a < pk && b < pk ==>
        (#[trigger] joined(pedges, directed, a, b) <==> joined(hedges, directed, f[a as int], f[b as int]))
}

/// The node-induced matches petgraph's VF2 search lists for a pattern in a host
/// (each a node map indexed by pattern node), in its order: a function of the two
/// edge lists alone.
pub uninterp spec fn vf2_matches(pk: nat, pedges: Seq<(usize, usize)>, nh: nat, hedges: Seq<(usize, usize)>, directed: bool) -> Seq<Seq<usize>>;

/// Calls `petgraph::algo::subgraph_isomorphisms_iter` on the two undirected graphs,
/// rebuilt as petgraph graphs with unit weights, matching on structure alone. On a
/// pattern with no node petgraph's search yields the empty match without end, so the
/// pattern must have a node. The contract names the list of matches, and says that
/// each is a map of every pattern node to a host node (a match is petgraph's
/// `mapping` vector, one entry per pattern node, filled once complete). On graphs
/// that are not multigraphs (the case petgraph's documentation covers) it also
/// claims what that documentation and the search's feasibility test give: every
/// listed map is a node-induced embedding, every node-induced embedding is listed,
/// and none twice. Their order is left to the name.
#[verifier::external_body]
fn vf2_undirected(pattern: &TemplateGraph, host: &TemplateGraph) -> (r: Vec<Vec<usize>>)
    requires
        !pattern.is_directed(),
        !host.is_directed(),
        0 < pattern.node_count() < u32::MAX,
        host.node_count() < u32::MAX,
        pattern.edge_list().len() < u32::MAX,
        host.edge_list().len() < u32::MAX,
    ensures
        r.deep_view() == vf2_matches(pattern.node_count(), pattern.edge_list(), host.node_count(), host.edge_list(), false),
        forall|i: int, t: int| 0 <= i < r@.len() && 0 <= t < r@[i]@.len() ==> (#[trigger] r@[i]@[t]) < host.node_count(),
        forall|i: int| 0 <= i < r@.len() ==> (#[trigger] r@[i])@.len() == pattern.node_count(),
        plain_edges(pattern.node_count(), pattern.edge_list(), false) && plain_edges(host.node_count(), host.edge_list(), false) ==> {
            &&& forall|i: int| 0 <= i < r@.len() ==> #[trigger] is_induced_embedding(pattern.node_count(), pattern.edge_list(),
                host.node_count(), host.edge_list(), false, r.deep_view()[i])
            &&& forall|f: Seq<usize>| #[trigger] is_induced_embedding(pattern.node_count(), pattern.edge_list(),
                host.node_count(), host.edge_list(), false, f) ==> r.deep_view().contains(f)
            &&& r.deep_view().no_duplicates()
        },
{
    let mut p = UnGraph::<(), ()>::default();
    let mut h = UnGraph::<(), ()>::default();
    for _ in 0..pattern.len() { p.add_node(()); }
    for _ in 0..host.len() { h.add_node(()); }
    p.extend_with_edges(pattern.edges().iter().map(|&(a, b)| (a as u32, b as u32)));
    h.extend_with_edges(host.edges().iter().map(|&(a, b)| (a as u32, b as u32)));
    subgraph_isomorphisms_iter(&&p, &&h, &mut accept, &mut accept).map_or(Vec::new(), |it| it.collect())
}

/// Calls `petgraph::algo::subgraph_isomorphisms_iter` on the two directed graphs,
/// rebuilt as petgraph graphs with unit weights, matching on structure alone. The
/// contract is that of [`vf2_undirected`].
#[verifier::external_body]
fn vf2_directed(pattern: &TemplateGraph, host: &TemplateGraph) -> (r: Vec<Vec<usize>>)
    requires
        pattern.is_directed(),
        host.is_directed(),
        0 < pattern.node_count() < u32::MAX,
        host.node_count() < u32::MAX,
        pattern.edge_list().len() < u32::MAX,
        host.edge_list().len() < u32::MAX,
    ensures
        r.deep_view() == vf2_matches(pattern.node_count(), pattern.edge_list(), host.node_count(), host.edge_list(), true),
        forall|i: int, t: int| 0 <= i < r@.len() && 0 <= t < r@[i]@.len() ==> (#[trigger] r@[i]@[t]) < host.node_count(),
        forall|i: int| 0 <= i < r@.len() ==> (#[trigger] r@[i])@.len() == pattern.node_count(),
        plain_edges(pattern.node_count(), pattern.edge_list(), true) && plain_edges(host.node_count(), host.edge_list(), true) ==> {
            &&& forall|i: int| 0 <= i < r@.len() ==> #[trigger] is_induced_embedding(pattern.node_count(), pattern.edge_list(),
                host.node_count(), host.edge_list(), true, r.deep_view()[i])
            &&& forall|f: Seq<usize>| #[trigger] is_induced_embedding(pattern.node_count(), pattern.edge_list(),
                host.node_count(), host.edge_list(), true, f) ==> r.deep_view().contains(f)
            &&& r.deep_view().no_duplicates()
        },
{
    let mut p = DiGraph::<(), ()>::default();
    let mut h = DiGraph::<(), ()>::default();
    for _ in 0..pattern.len() { p.add_node(()); }
    for _ in 0..host.len() { h.add_node(()); }
    p.extend_with_edges(pattern.edges().iter().map(|&(a, b)| (a as u32, b as u32)));
    h.extend_with_edges(host.edges().iter().map(|&(a, b)| (a as u32, b as u32)));
    subgraph_isomorphisms_iter(&&p, &&h, &mut accept, &mut accept).map_or(Vec::new(), |it| it.collect())
}

/// All node-induced matches of `pattern` in `host` on structure alone, each a node
/// map indexed by pattern node, in the order of petgraph's VF2 search. When neither
/// edge list repeats a pair or has a self-loop, these are exactly the node-induced
/// embeddings, each once.
pub fn induced_matches_unlabelled(pattern: &TemplateGraph, host: &TemplateGraph) -> (r: Vec<Vec<usize>>)
    requires
        pattern.is_directed() == host.is_directed(),
        0 < pattern.node_count() < u32::MAX,
        host.node_count() < u32::MAX,
        pattern.edge_list().len() < u32::MAX,
        host.edge_list().len() < u32::MAX,
    ensures
        r.deep_view() == vf2_matches(pattern.node_count(), pattern.edge_list(), host.node_count(), host.edge_list(), host.is_directed()),
        plain_edges(pattern.node_count(), pattern.edge_list(), host.is_directed()) && plain_edges(host.node_count(), host.edge_list(), host.is_directed()) ==> {
            &&& forall|i: int| 0 <= i < r@.len() ==> #[trigger] is_induced_embedding(pattern.node_count(), pattern.edge_list(),
                host.node_count(), host.edge_list(), host.is_directed(), r.deep_view()[i])
            &&& forall|f: Seq<usize>| #[trigger] is_induced_embedding(pattern.node_count(), pattern.edge_list(),
                host.node_count(), host.edge_list(), host.is_directed(), f) ==> r.deep_view().contains(f)
            &&& r.deep_view().no_duplicates()
        },
{
    if host.directed() {
        vf2_directed(pattern, host)
    } else {
        vf2_undirected(pattern, host)
    }
}

/// The number of node-induced matches of `pattern` in `host` on structure alone.
pub fn count_induced_matches(pattern: &TemplateGraph, host: &TemplateGraph) -> (r: usize)
    requires
        pattern.is_directed() == host.is_directed(),
        0 < pattern.node_count() < u32::MAX,
        host.node_count() < u32::MAX,
        pattern.edge_list().len() < u32::MAX,
        host.edge_list().len() < u32::MAX,
    ensures
        r == vf2_matches(pattern.node_count(), pattern.edge_list(), host.node_count(), host.edge_list(), host.is_directed()).len(),
{
    induced_matches_unlabelled(pattern, host).len()
}

// ---------------------------------------------------------------------------
// Finding occurrences
// ---------------------------------------------------------------------------

/// The monomorphism problem of `pattern` in the simple graph `g`, both given by
/// their edge lists.
pub open spec fn motif_query(g: Seq<Seq<usize>>, pattern: Pattern) -> Query {
    Query {
        pk: pattern.order_spec() as nat,
        nh: g.len(),
        directed: false,
        pedges: up_edges(pattern.adj_lists()),
        hedges: up_edges(g),
        node_ok: None,
        edge_ok: None,
    }
}

/// `reps` lists one node map per distinct occurrence of `pattern` in `g`: for
/// induced occurrences, the first of each key among the node-induced matches in VF2
/// order; for non-induced ones, monomorphisms with pairwise distinct keys, one for
/// every monomorphism's key.
pub open spec fn occurrence_reps(g: Seq<Seq<usize>>, pattern: Pattern, induced: Induced, reps: Seq<Seq<usize>>) -> bool {
    &&& reps_for(motif_query(g, pattern), pattern_auts(pattern), induced, reps)
    &&& induced == Induced::Yes ==> induced_reps(g, pattern, reps)
}

/// `f` maps the pattern's nodes one-to-one onto nodes of `g` so that two pattern nodes
/// are adjacent exactly when their images are: a node-induced occurrence.
pub open spec fn induced_occurrence(g: Seq<Seq<usize>>, pattern: Pattern, f: Seq<usize>) -> bool {
    &&& f.len() == pattern.order_spec()
    &&& f.no_duplicates()
    &&& forall|v: int| 0 <= v < f.len() ==> #[trigger] f[v] < g.len()
    &&& forall|a: usize, b: usize| a < pattern.order_spec() && b < pattern.order_spec()
        ==> (pattern.edges()(a, b) <==> #[trigger] list_adj(g)(f[a as int], f[b as int]))
}

/// `reps` holds node-induced occurrences, one per occurrence: their keys are pairwise
/// distinct, and every node-induced occurrence shares its key with one of them.
pub open spec fn induced_reps(g: Seq<Seq<usize>>, pattern: Pattern, reps: Seq<Seq<usize>>) -> bool {
    &&& forall|i: int| 0 <= i < reps.len() ==> #[trigger] induced_occurrence(g, pattern, reps[i])
    &&& forall|i: int, j: int| 0 <= i < reps.len() && 0 <= j < reps.len() && i != j
        ==> okey(#[trigger] reps[i], pattern_auts(pattern)) != okey(#[trigger] reps[j], pattern_auts(pattern))
    &&& forall|f: Seq<usize>| #[trigger] induced_occurrence(g, pattern, f) ==> exists|i: int| 0 <= i < reps.len()
        && #[trigger] okey(reps[i], pattern_auts(pattern)) == okey(f, pattern_auts(pattern))
}

/// `reps` lists one node map per distinct occurrence for the problem `q` under the
/// automorphisms `auts` (see [`occurrence_reps`]).
pub open spec fn reps_for(q: Query, auts: Set<Seq<usize>>, induced: Induced, reps: Seq<Seq<usize>>) -> bool {
    match induced {
        Induced::Yes => reps == firsts(vf2_matches(q.pk, q.pedges, q.nh, q.hedges, false), auts),
        Induced::No => {
            &&& forall|i: int| 0 <= i < reps.len() ==> is_embedding(q, #[trigger] reps[i])
            &&& forall|i: int, j: int| 0 <= i < reps.len() && 0 <= j < reps.len() && i != j
                ==> okey(#[trigger] reps[i], auts) != okey(#[trigger] reps[j], auts)
            &&& forall|f: Seq<usize>| is_embedding(q, f) ==> exists|i: int| 0 <= i < reps.len()
                && #[trigger] okey(reps[i], auts) == okey(f, auts)
        },
    }
}

/// Fold a list of all monomorphisms to one per occurrence.
fn fold_monomorphisms(raw: Vec<Vec<usize>>, auts: &Vec<Vec<usize>>, k: usize, Ghost(q): Ghost<Query>, Ghost(aset): Ghost<Set<Seq<usize>>>) -> (r: Vec<Vec<usize>>)
    requires
        auts@.len() > 0,
        q.pk == k,
        forall|p: Seq<usize>| #[trigger] auts.deep_view().contains(p) <==> aset.contains(p),
        forall|p: Seq<usize>| aset.contains(p) ==> is_perm(p, k as nat),
        forall|f: Seq<usize>| #[trigger] raw.deep_view().contains(f) <==> is_embedding(q, f),
    ensures
        reps_for(q, aset, Induced::No, r.deep_view()),
        forall|i: int| 0 <= i < r@.len() ==> (#[trigger] r@[i])@.len() == k,
        forall|i: int, t: int| 0 <= i < r@.len() && 0 <= t < r@[i]@.len() ==> (#[trigger] r@[i]@[t]) < q.nh,
{
    let ghost rd = raw.deep_view();
    proof {
        assert forall|i: int| 0 <= i < raw@.len() implies (#[trigger] raw@[i])@.len() == k by {
            assert(rd[i] == raw@[i]@);
            assert(rd.contains(rd[i]));
            lemma_embedding_range(q, rd[i]);
        }
    }
    let reps = distinct_occurrences(raw, auts, k, Ghost(aset));
    let ghost fr = firsts(rd, aset);
    assert(forall|i: int| 0 <= i < fr.len() ==> is_embedding(q, #[trigger] fr[i])) by {
        let pred = |f: Seq<usize>| is_embedding(q, f);
        assert forall|f: Seq<usize>| #[trigger] rd.contains(f) <==> pred(f) by {}
        lemma_reps_of(pred, aset, rd);
        assert forall|i: int| 0 <= i < fr.len() implies is_embedding(q, #[trigger] fr[i]) by {
            assert(pred(fr[i]));
        }
    }
    assert(forall|f: Seq<usize>| is_embedding(q, f) ==> exists|i: int| 0 <= i < fr.len()
        && #[trigger] okey(fr[i], aset) == okey(f, aset)) by {
        let pred = |f: Seq<usize>| is_embedding(q, f);
        assert forall|f: Seq<usize>| #[trigger] rd.contains(f) <==> pred(f) by {}
        lemma_reps_of(pred, aset, rd);
        assert forall|f: Seq<usize>| is_embedding(q, f) implies exists|i: int| 0 <= i < fr.len()
            && #[trigger] okey(fr[i], aset) == okey(f, aset) by {
            assert(pred(f));
        }
    }
    assert(forall|i: int, j: int| 0 <= i < fr.len() && 0 <= j < fr.len() && i != j
        ==> okey(#[trigger] fr[i], aset) != okey(#[trigger] fr[j], aset)) by {
        lemma_firsts_distinct(rd, aset);
    }
    assert(forall|i: int| 0 <= i < reps@.len() ==> (#[trigger] reps@[i])@.len() == k
        && forall|t: int| 0 <= t < reps@[i]@.len() ==> #[trigger] reps@[i]@[t] < q.nh) by {
        assert forall|i: int| 0 <= i < reps@.len() implies (#[trigger] reps@[i])@.len() == k
            && forall|t: int| 0 <= t < reps@[i]@.len() ==> #[trigger] reps@[i]@[t] < q.nh by {
            assert(reps.deep_view()[i] == reps@[i]@);
            lemma_embedding_range(q, fr[i]);
        }
    }
    reps
}

/// The pattern and the host as edge lists.
fn motif_graphs<N>(g: &Snapshot<N>, pattern: &Pattern) -> (r: (TemplateGraph, TemplateGraph))
    ensures
        query(r.0, r.1, None, None) == motif_query(g.graph(), *pattern),
        !r.0.is_directed(),
        !r.1.is_directed(),
        r.0.node_count() == pattern.order_spec(),
        2 <= pattern.order_spec() <= 5,
        r.1.node_count() == g.ids().len(),
        r.0.edge_list().len() <= 25,
        r.1.edge_list() == up_edges(g.graph()),
        plain_edges(r.0.node_count(), r.0.edge_list(), false),
        plain_edges(r.1.node_count(), r.1.edge_list(), false),
        forall|a: usize, b: usize| #[trigger] joined(r.0.edge_list(), false, a, b) == pattern.edges()(a, b),
        forall|a: usize, b: usize| #[trigger] joined(r.1.edge_list(), false, a, b) == list_adj(g.graph())(a, b),
{
    let adj = g.adjacency();
    let n = g.len();
    let pa = pattern.adjacency();
    let k = pa.len();
    proof { adj.lemma_graph(); }
    let host = TemplateGraph::new(n, false, up_edge_list(&adj.lists));
    proof {
        assert forall|a: int, t: int| 0 <= a < pa@.len() && 0 <= t < pa@[a]@.len() implies (#[trigger] pa@[a]@[t]) < pa@.len() by {
            assert(pa.deep_view()[a] == pa@[a]@);
        }
        lemma_up_edges_small(pa.deep_view(), k as nat, k as nat);
        assert(k * k <= 25) by (nonlinear_arith) requires k <= 5;
    }
    let pat = TemplateGraph::new(k, false, up_edge_list(pa));
    assert(query(pat, host, None, None) == motif_query(g.graph(), *pattern));
    proof {
        lemma_up_edges_plain(pa.deep_view());
        let gr = g.graph();
        assert(lists_wf(gr));
        assert forall|a: usize| !(#[trigger] list_adj(gr)(a, a)) by {
            if a < gr.len() {
                assert(!gr[a as int].contains(a));
            }
        }
        lemma_up_edges_plain(gr);
    }
    (pat, host)
}

/// The node-induced occurrence representatives of `pattern` in `g`.
fn occurrences_induced<N>(g: &Snapshot<N>, pattern: &Pattern) -> (r: Vec<Vec<usize>>)
    requires
        g.ids().len() < u32::MAX,
        up_edges(g.graph()).len() < u32::MAX,
    ensures
        occurrence_reps(g.graph(), *pattern, Induced::Yes, r.deep_view()),
        forall|i: int| 0 <= i < r@.len() ==> (#[trigger] r@[i])@.len() == pattern.order_spec(),
        forall|i: int, t: int| 0 <= i < r@.len() && 0 <= t < r@[i]@.len() ==> (#[trigger] r@[i]@[t]) < g.ids().len(),
{
    let (pat, host) = motif_graphs(g, pattern);
    let k = pat.len();
    let ghost q = motif_query(g.graph(), *pattern);
    let ghost aset = pattern_auts(*pattern);
    let auts = pattern_automorphisms(pattern);
    let raw = vf2_undirected(&pat, &host);
    let ghost rd = raw.deep_view();
    let reps = distinct_occurrences(raw, &auts, k, Ghost(aset));
    proof {
        lemma_firsts(rd, aset);
        let gr = g.graph();
        let pk = pat.node_count();
        let nh = host.node_count();
        // a node map is a node-induced match of the edge lists exactly when it is a
        // node-induced occurrence
        assert forall|f: Seq<usize>| is_induced_embedding(pk, pat.edge_list(), nh, host.edge_list(), false, f)
            <==> induced_occurrence(gr, *pattern, f) by {
            if is_induced_embedding(pk, pat.edge_list(), nh, host.edge_list(), false, f) {
                assert forall|a: usize, b: usize| a < pattern.order_spec() && b < pattern.order_spec()
                    implies (pattern.edges()(a, b) <==> #[trigger] list_adj(gr)(f[a as int], f[b as int])) by {
                    assert(joined(pat.edge_list(), false, a, b) <==> joined(host.edge_list(), false, f[a as int], f[b as int]));
                }
            }
            if induced_occurrence(gr, *pattern, f) {
                assert forall|a: usize, b: usize| a < pk && b < pk
                    implies (#[trigger] joined(pat.edge_list(), false, a, b) <==> joined(host.edge_list(), false, f[a as int], f[b as int])) by {
                    assert(pattern.edges()(a, b) <==> list_adj(gr)(f[a as int], f[b as int]));
                }
            }
        }
        let rr = reps.deep_view();
        assert forall|i: int| 0 <= i < rr.len() implies #[trigger] induced_occurrence(gr, *pattern, rr[i]) by {
            assert(rd.contains(rr[i]));
            let w = choose|w: int| 0 <= w < rd.len() && rd[w] == rr[i];
            assert(is_induced_embedding(pk, pat.edge_list(), nh, host.edge_list(), false, rd[w]));
        }
        assert forall|f: Seq<usize>| #[trigger] induced_occurrence(gr, *pattern, f) implies exists|i: int| 0 <= i < rr.len()
            && #[trigger] okey(rr[i], aset) == okey(f, aset) by {
            assert(is_induced_embedding(pk, pat.edge_list(), nh, host.edge_list(), false, f));
            assert(rd.contains(f));
        }
        assert(induced_reps(gr, *pattern, rr));
        assert forall|i: int| 0 <= i < reps@.len() implies (#[trigger] reps@[i])@.len() == k
            && forall|t: int| 0 <= t < reps@[i]@.len() ==> #[trigger] reps@[i]@[t] < g.ids().len() by {
            assert(reps.deep_view()[i] == reps@[i]@);
            assert(rd.contains(reps.deep_view()[i]));
            let w = choose|w: int| 0 <= w < rd.len() && rd[w] == reps.deep_view()[i];
            assert(raw.deep_view()[w] == raw@[w]@);
        }
    }
    reps
}


/// Folding a list that holds exactly the maps satisfying `pred` keeps maps
/// satisfying it, one per key.
proof fn lemma_reps_of(pred: spec_fn(Seq<usize>) -> bool, aset: Set<Seq<usize>>, rd: Seq<Seq<usize>>)
    requires
        forall|f: Seq<usize>| #[trigger] rd.contains(f) <==> pred(f),
    ensures
        forall|i: int| 0 <= i < firsts(rd, aset).len() ==> pred(#[trigger] firsts(rd, aset)[i]),
        forall|f: Seq<usize>| #[trigger] pred(f) ==> exists|i: int| 0 <= i < firsts(rd, aset).len()
            && #[trigger] okey(firsts(rd, aset)[i], aset) == okey(f, aset),
{
    lemma_firsts(rd, aset);
    let fr = firsts(rd, aset);
    assert forall|i: int| 0 <= i < fr.len() implies pred(#[trigger] fr[i]) by {
        assert(rd.contains(fr[i]));
    }
    assert forall|f: Seq<usize>| #[trigger] pred(f) implies exists|i: int| 0 <= i < fr.len()
        && #[trigger] okey(fr[i], aset) == okey(f, aset) by {
        assert(rd.contains(f));
    }
}

/// A monomorphism maps every pattern node to a host node.
proof fn lemma_embedding_range(q: Query, f: Seq<usize>)
    requires
        is_embedding(q, f),
    ensures
        f.len() == q.pk,
        forall|t: int| 0 <= t < f.len() ==> #[trigger] f[t] < q.nh,
{
    reveal(is_embedding);
    assert forall|t: int| 0 <= t < f.len() implies #[trigger] f[t] < q.nh by {
        assert(crate::template::node_fits(q, t as usize, f[t]));
    }
}

/// The non-induced occurrence representatives of `pattern` in `g`.
fn occurrences_mono<N>(g: &Snapshot<N>, pattern: &Pattern) -> (r: Vec<Vec<usize>>)
    ensures
        occurrence_reps(g.graph(), *pattern, Induced::No, r.deep_view()),
        forall|i: int| 0 <= i < r@.len() ==> (#[trigger] r@[i])@.len() == pattern.order_spec(),
        forall|i: int, t: int| 0 <= i < r@.len() && 0 <= t < r@[i]@.len() ==> (#[trigger] r@[i]@[t]) < g.ids().len(),
{
    let (pat, host) = motif_graphs(g, pattern);
    let k = pat.len();
    let auts = pattern_automorphisms(pattern);
    let raw = monomorphisms_unlabelled(&pat, &host);
    fold_monomorphisms(raw, &auts, k, Ghost(motif_query(g.graph(), *pattern)), Ghost(pattern_auts(*pattern)))
}

/// The occurrence representatives of `pattern` in `g`, as node maps in index space.
fn occurrences<N>(g: &Snapshot<N>, pattern: &Pattern, induced: Induced) -> (r: Vec<Vec<usize>>)
    requires
        induced == Induced::Yes ==> g.ids().len() < u32::MAX && up_edges(g.graph()).len() < u32::MAX,
    ensures
        occurrence_reps(g.graph(), *pattern, induced, r.deep_view()),
        forall|i: int| 0 <= i < r@.len() ==> (#[trigger] r@[i])@.len() == pattern.order_spec(),
        forall|i: int, t: int| 0 <= i < r@.len() && 0 <= t < r@[i]@.len() ==> (#[trigger] r@[i]@[t]) < g.ids().len(),
{
    match induced {
        Induced::Yes => occurrences_induced(g, pattern),
        Induced::No => occurrences_mono(g, pattern),
    }
}

/// Every distinct occurrence of `pattern` in `g` as a node mapping: entry `v` of an
/// occurrence is the node pattern vertex `v` maps to. Node-induced occurrences come
/// from petgraph's VF2 search, non-induced ones from the monomorphism search; the
/// `|Aut(P)|` maps of one occurrence are folded to the first met.
pub fn find_motif<N: Copy>(g: &Snapshot<N>, pattern: &Pattern, induced: Induced) -> (r: Vec<Vec<N>>)
    requires
        induced == Induced::Yes ==> g.ids().len() < u32::MAX && up_edges(g.graph()).len() < u32::MAX,
    ensures
        exists|reps: Seq<Seq<usize>>| {
            &&& occurrence_reps(g.graph(), *pattern, induced, reps)
            &&& forall|i: int| 0 <= i < reps.len() ==> (#[trigger] reps[i]).len() == pattern.order_spec()
            &&& reps.len() == r@.len()
            &&& forall|i: int| 0 <= i < r@.len() ==> (#[trigger] r@[i])@ == ids_of(g.ids(), reps[i])
        },
{
    let reps = occurrences(g, pattern, induced);
    let ghost rd = reps.deep_view();
    let mut r: Vec<Vec<N>> = Vec::new();
    let mut i: usize = 0;
    while i < reps.len()
        invariant
            i <= reps@.len(),
            rd == reps.deep_view(),
            forall|a: int, t: int| 0 <= a < reps@.len() && 0 <= t < reps@[a]@.len() ==> (#[trigger] reps@[a]@[t]) < g.ids().len(),
            r@.len() == i,
            forall|a: int| 0 <= a < i ==> (#[trigger] r@[a])@ == ids_of(g.ids(), rd[a]),
        decreases reps@.len() - i,
    {
        let row = &reps[i];
        assert(row@ == rd[i as int]);
        let mut m: Vec<N> = Vec::new();
        let mut t: usize = 0;
        while t < row.len()
            invariant
                t <= row@.len(),
                row@ == rd[i as int],
                forall|u: int| 0 <= u < row@.len() ==> (#[trigger] row@[u]) < g.ids().len(),
                m@ == ids_of(g.ids(), row@.take(t as int)),
            decreases row@.len() - t,
        {
            let x = g.id(row[t]);
            m.push(x);
            assert(m@ =~= ids_of(g.ids(), row@.take(t + 1)));
            t += 1;
        }
        assert(row@.take(row@.len() as int) =~= row@);
        r.push(m);
        i += 1;
    }
    proof {
        assert(rd.len() == r@.len());
        assert forall|a: int| 0 <= a < rd.len() implies (#[trigger] rd[a]).len() == pattern.order_spec() by {
            assert(rd[a] == reps@[a]@);
        }
        assert(occurrence_reps(g.graph(), *pattern, induced, rd));
    }
    r
}

/// Every distinct diamond occurrence in `g`, each projected onto its roles: the two
/// degree-3 nodes of the shared edge (`spine`) and the two degree-2 nodes (`tips`).
/// Node-induced ones are induced occurrences of the diamond `0-1-2-3-0` with chord
/// `0-2`, one per occurrence ([`induced_reps`]): the spine nodes are adjacent, each
/// tip is adjacent to both, the tips are not, and the four are distinct.
pub fn find_diamonds<N: Copy>(g: &Snapshot<N>, induced: Induced) -> (r: Vec<Diamond<N>>)
    requires
        induced == Induced::Yes ==> g.ids().len() < u32::MAX && up_edges(g.graph()).len() < u32::MAX,
    ensures
        exists|p: Pattern, reps: Seq<Seq<usize>>| {
            &&& p.order_spec() == 4
            &&& p.edges() == edge_rel(seq![(0usize, 1usize), (1, 2), (2, 3), (3, 0), (0, 2)])
            &&& occurrence_reps(g.graph(), p, induced, reps)
            &&& reps.len() == r@.len()
            &&& forall|i: int| 0 <= i < r@.len() ==> {
                let m = ids_of(g.ids(), reps[i]);
                &&& (#[trigger] r@[i]).spine@ == seq![m[0], m[2]]
                &&& r@[i].tips@ == seq![m[1], m[3]]
            }
        },
{
    let p = Pattern::diamond();
    let ms = find_motif(g, &p, induced);
    let ghost reps = choose|reps: Seq<Seq<usize>>| {
        &&& occurrence_reps(g.graph(), p, induced, reps)
        &&& forall|i: int| 0 <= i < reps.len() ==> (#[trigger] reps[i]).len() == p.order_spec()
        &&& reps.len() == ms@.len()
        &&& forall|i: int| 0 <= i < ms@.len() ==> (#[trigger] ms@[i])@ == ids_of(g.ids(), reps[i])
    };
    let mut r: Vec<Diamond<N>> = Vec::new();
    let mut i: usize = 0;
    while i < ms.len()
        invariant
            i <= ms@.len(),
            reps.len() == ms@.len(),
            forall|a: int| 0 <= a < ms@.len() ==> (#[trigger] ms@[a])@ == ids_of(g.ids(), reps[a]),
            forall|a: int| 0 <= a < reps.len() ==> (#[trigger] reps[a]).len() == 4,
            r@.len() == i,
            forall|a: int| 0 <= a < i ==> {
                let m = ids_of(g.ids(), reps[a]);
                &&& (#[trigger] r@[a]).spine@ == seq![m[0], m[2]]
                &&& r@[a].tips@ == seq![m[1], m[3]]
            },
        decreases ms@.len() - i,
    {
        let m = &ms[i];
        let d = Diamond { spine: [m[0], m[2]], tips: [m[1], m[3]] };
        assert(d.spine@ =~= seq![m@[0], m@[2]]);
        assert(d.tips@ =~= seq![m@[1], m@[3]]);
        r.push(d);
        i += 1;
    }
    r
}

} // verus!
