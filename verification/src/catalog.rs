//! Named motifs: pattern constructors for the standard small motifs, a catalog of
//! patterns by name, and induced / non-induced motif counts read off the census.
use vstd::prelude::*;
use vstd::string::StrSliceExecFns;
use crate::model::{isomorphic, symmetric_on, law_canon_iff_isomorphic, is_perm, id_seq, below, lemma_id_seq, canon, connected_set, symmetric, lemma_connected_insert, lemma_connected_singleton, pair_seq, lemma_pairs_upto_shape, lemma_pair_at_index};
use crate::canonical::{
    ClassId, MASK_K, all_perms, canonical_fn, list_adj, lists_wf, vec_contains, perms, pairs,
    class_adj, class_to_adj, all_connected_classes, is_connected_class, strictly_sorted,
};
use crate::esu::{count_where, conn_k_sets};
use crate::census::{census_count, count, Selector, Census};
use crate::snapshot::Snapshot;

verus! {

// ---------------------------------------------------------------------------
// Embeddings of one small graph into another
// ---------------------------------------------------------------------------

/// The permutation `p` carries every edge of `pat` onto an edge of `host`.
pub open spec fn embeds(pat: spec_fn(usize, usize) -> bool, host: spec_fn(usize, usize) -> bool, p: Seq<usize>) -> bool {
    forall|i: usize, j: usize| i < j && #[trigger] pat(i, j) ==> host(p[i as int], p[j as int])
}

/// The number of permutations of `0..k` carrying `pat` into `host`: `s(P, C)`.
pub open spec fn embed_count(k: nat, pat: spec_fn(usize, usize) -> bool, host: spec_fn(usize, usize) -> bool) -> nat {
    Set::new(|p: Seq<usize>| is_perm(p, k) && embeds(pat, host, p)).len()
}

/// Counting over a duplicate-free list is counting its set.
pub proof fn lemma_count_where_set(ps: Seq<Seq<usize>>, p: spec_fn(Seq<usize>) -> bool)
    requires
        ps.no_duplicates(),
    ensures
        count_where(ps, p) == ps.to_set().filter(p).len(),
        ps.to_set().finite(),
    decreases ps.len(),
{
    if ps.len() == 0 {
        assert(ps.to_set() =~= Set::empty());
        assert(ps.to_set().filter(p) =~= Set::empty());
    } else {
        let tail = ps.drop_first();
        assert(tail.no_duplicates()) by {
            assert forall|i: int, j: int| 0 <= i < tail.len() && 0 <= j < tail.len() && i != j implies tail[i] != tail[j] by {
                assert(tail[i] == ps[i + 1] && tail[j] == ps[j + 1]);
            }
        }
        lemma_count_where_set(tail, p);
        let q = ps[0];
        assert(ps.to_set() =~= tail.to_set().insert(q)) by {
            assert forall|x: Seq<usize>| ps.to_set().contains(x) <==> tail.to_set().insert(q).contains(x) by {
                if ps.contains(x) {
                    let i = choose|i: int| 0 <= i < ps.len() && ps[i] == x;
                    if i > 0 { assert(tail[i - 1] == x); }
                }
                if tail.contains(x) {
                    let i = choose|i: int| 0 <= i < tail.len() && tail[i] == x;
                    assert(ps[i + 1] == x);
                }
                if x == q { assert(ps[0] == x); }
            }
        }
        assert(!tail.to_set().contains(q)) by {
            if tail.contains(q) {
                let i = choose|i: int| 0 <= i < tail.len() && tail[i] == q;
                assert(ps[i + 1] == ps[0]);
            }
        }
        if p(q) {
            assert(tail.to_set().insert(q).filter(p) =~= tail.to_set().filter(p).insert(q));
        } else {
            assert(tail.to_set().insert(q).filter(p) =~= tail.to_set().filter(p));
        }
    }
}

/// Whether `perm` carries every edge of `padj` onto an edge of `cadj`.
fn embeds_exec(padj: &Vec<Vec<usize>>, cadj: &Vec<Vec<usize>>, perm: &Vec<usize>) -> (r: bool)
    requires
        lists_wf(padj.deep_view()),
        padj@.len() == cadj@.len(),
        is_perm(perm@, padj@.len() as nat),
    ensures
        r == embeds(list_adj(padj.deep_view()), list_adj(cadj.deep_view()), perm@),
{
    let ghost pd = padj.deep_view();
    let ghost cd = cadj.deep_view();
    let k = padj.len();
    let mut i: usize = 0;
    while i < k
        invariant
            k == padj@.len(),
            k == cadj@.len(),
            pd == padj.deep_view(),
            cd == cadj.deep_view(),
            lists_wf(pd),
            is_perm(perm@, k as nat),
            i <= k,
            forall|a: usize, b: usize| a < i && a < b && #[trigger] list_adj(pd)(a, b) ==> list_adj(cd)(perm@[a as int], perm@[b as int]),
        decreases k - i,
    {
        let row = &padj[i];
        assert(row@ == pd[i as int]);
        let mut t: usize = 0;
        while t < row.len()
            invariant
                k == padj@.len(),
                k == cadj@.len(),
                pd == padj.deep_view(),
                cd == cadj.deep_view(),
                lists_wf(pd),
                is_perm(perm@, k as nat),
                i < k,
                row@ == pd[i as int],
                t <= row@.len(),
                forall|s: int| 0 <= s < t && row@[s] > i ==> list_adj(cd)(perm@[i as int], perm@[#[trigger] row@[s] as int]),
            decreases row@.len() - t,
        {
            let j = row[t];
            assert(j < k);
            if j > i {
                let pi = perm[i];
                let pj = perm[j];
                assert(cadj@[pi as int]@ == cd[pi as int]);
                if !vec_contains(&cadj[pi], pj) {
                    assert(i < j && list_adj(pd)(i, j));
                    return false;
                }
            }
            t += 1;
        }
        proof {
            assert forall|a: usize, b: usize| a < i + 1 && a < b && #[trigger] list_adj(pd)(a, b) implies list_adj(cd)(perm@[a as int], perm@[b as int]) by {
                if a == i {
                    let s = choose|s: int| 0 <= s < row@.len() && row@[s] == b;
                }
            }
        }
        i += 1;
    }
    true
}

/// `s(P, C)`: the number of permutations of `0..k` carrying every edge of the
/// pattern `padj` onto an edge of `cadj`.
fn s_pc(padj: &Vec<Vec<usize>>, cadj: &Vec<Vec<usize>>, ps: &Vec<Vec<usize>>) -> (r: u64)
    requires
        lists_wf(padj.deep_view()),
        padj@.len() == cadj@.len(),
        all_perms(ps.deep_view(), padj@.len() as nat),
    ensures
        r == embed_count(padj@.len() as nat, list_adj(padj.deep_view()), list_adj(cadj.deep_view())),
{
    let ghost k = padj@.len() as nat;
    let ghost dv = ps.deep_view();
    let ghost pat = list_adj(padj.deep_view());
    let ghost host = list_adj(cadj.deep_view());
    let ghost pred = |p: Seq<usize>| embeds(pat, host, p);
    let mut count: usize = 0;
    let mut t: usize = 0;
    while t < ps.len()
        invariant
            t <= ps@.len(),
            dv == ps.deep_view(),
            all_perms(dv, k),
            k == padj@.len(),
            lists_wf(padj.deep_view()),
            padj@.len() == cadj@.len(),
            pat == list_adj(padj.deep_view()),
            host == list_adj(cadj.deep_view()),
            pred == (|p: Seq<usize>| embeds(pat, host, p)),
            count == count_where(dv.take(t as int), pred),
            count <= t,
        decreases ps@.len() - t,
    {
        let p = &ps[t];
        proof {
            assert(p@ == dv[t as int]);
            assert(dv.contains(dv[t as int]));
            crate::census::lemma_count_where_push(dv.take(t as int), dv[t as int], pred);
            assert(dv.take(t + 1) =~= dv.take(t as int).push(dv[t as int]));
        }
        if embeds_exec(padj, cadj, p) {
            count += 1;
        }
        t += 1;
    }
    proof {
        assert(dv.take(dv.len() as int) =~= dv);
        lemma_count_where_set(dv, pred);
        assert(dv.to_set().filter(pred) =~= Set::new(|p: Seq<usize>| is_perm(p, k) && embeds(pat, host, p)));
    }
    count as u64
}

// ---------------------------------------------------------------------------
// Patterns
// ---------------------------------------------------------------------------

/// Whether induced or non-induced occurrences are meant.
#[derive(Clone, Copy, PartialEq, Eq, Debug)]
pub enum Induced {
    /// Node-induced: the host edges among the matched vertices are exactly the
    /// pattern's.
    Yes,
    /// Non-induced: every pattern edge is present; extra host edges are allowed.
    No,
}

/// The undirected relation given by an edge list.
pub open spec fn edge_rel(es: Seq<(usize, usize)>) -> spec_fn(usize, usize) -> bool {
    |a: usize, b: usize| es.contains((a, b)) || es.contains((b, a))
}

/// `i` has a neighbor below it.
pub open spec fn has_parent(adj: spec_fn(usize, usize) -> bool, i: usize) -> bool {
    exists|j: usize| j < i && #[trigger] adj(j, i)
}

/// A graph in which every vertex `i` of `1..k` has a neighbor below it is connected
/// on `0..k`.
pub proof fn lemma_connected_by_parents(k: nat, adj: spec_fn(usize, usize) -> bool)
    requires
        1 <= k <= usize::MAX,
        symmetric(adj),
        forall|i: usize| 0 < i < k ==> #[trigger] has_parent(adj, i),
    ensures
        connected_set(below(k), adj),
    decreases k,
{
    if k == 1 {
        lemma_connected_singleton(0, adj);
        assert(below(1) =~= Set::empty().insert(0usize));
    } else {
        let m = (k - 1) as nat;
        lemma_connected_by_parents(m, adj);
        let w = m as usize;
        assert(has_parent(adj, w));
        let j = choose|j: usize| j < w && #[trigger] adj(j, w);
        lemma_id_seq(m);
        lemma_connected_insert(below(m), w, j, adj);
        assert(below(m).insert(w) =~= below(k));
    }
}

/// A connected pattern graph on `2..=5` nodes, with its canonical class and
/// automorphism count.
pub struct Pattern {
    k: usize,
    adj: Vec<Vec<usize>>,
    class: u64,
    aut: u64,
}

impl Pattern {
    #[verifier::type_invariant]
    spec fn inv(self) -> bool {
        &&& 2 <= self.k <= 5
        &&& self.adj@.len() == self.k
        &&& lists_wf(self.adj.deep_view())
        &&& forall|a: usize| !(#[trigger] list_adj(self.adj.deep_view())(a, a))
        &&& connected_set(below(self.k as nat), list_adj(self.adj.deep_view()))
        &&& self.class == canon(self.k as nat, list_adj(self.adj.deep_view()))
        &&& self.aut == embed_count(self.k as nat, list_adj(self.adj.deep_view()), list_adj(self.adj.deep_view()))
        &&& self.aut >= 1
    }

    /// The pattern's order.
    pub closed spec fn order_spec(self) -> usize {
        self.k
    }

    /// The pattern's adjacency relation on `0..k`.
    pub closed spec fn edges(self) -> spec_fn(usize, usize) -> bool {
        list_adj(self.adj.deep_view())
    }

    /// The pattern's neighbor lists on `0..k`.
    pub closed spec fn adj_lists(self) -> Seq<Seq<usize>> {
        self.adj.deep_view()
    }

    /// The pattern is a connected, loop-free, symmetric graph on `0..k`, `2 <= k <= 5`,
    /// with its class and automorphism count computed (every constructor gives one).
    pub closed spec fn well_formed(self) -> bool {
        self.inv()
    }

    /// Two well-formed patterns of one order share a class exactly when they are
    /// isomorphic: some relabelling of `0..k` carries the edges of one onto the other.
    pub proof fn law_class_iff_isomorphic(self, other: Pattern)
        requires
            self.well_formed(),
            other.well_formed(),
            self.order_spec() == other.order_spec(),
        ensures
            self.class() == other.class() <==> isomorphic(self.order_spec() as nat, self.edges(), other.edges()),
    {
        let k = self.order_spec() as nat;
        assert(symmetric_on(k, self.edges()));
        assert(symmetric_on(k, other.edges()));
        law_canon_iff_isomorphic(k, self.edges(), other.edges());
    }

    /// The pattern's canonical class mask.
    pub closed spec fn class(self) -> u64 {
        self.class
    }

    /// The pattern's number of automorphisms.
    pub closed spec fn automorphisms(self) -> u64 {
        self.aut
    }

    /// A pattern from an undirected edge list on `0..k`; repeated edges are merged.
    pub fn new(k: usize, edges: &[(usize, usize)]) -> (r: Self)
        requires
            2 <= k <= 5,
            forall|e: int| 0 <= e < edges@.len() ==> (#[trigger] edges@[e]).0 < k && edges@[e].1 < k && edges@[e].0 != edges@[e].1,
            connected_set(below(k as nat), edge_rel(edges@)),
        ensures
            r.well_formed(),
            r.order_spec() == k,
            r.edges() == edge_rel(edges@),
            r.class() == canon(k as nat, edge_rel(edges@)),
            r.automorphisms() == embed_count(k as nat, edge_rel(edges@), edge_rel(edges@)),
    {
        let mut adj: Vec<Vec<usize>> = Vec::new();
        let mut t: usize = 0;
        while t < k
            invariant
                t <= k,
                adj@.len() == t,
                forall|i: int| 0 <= i < t ==> (#[trigger] adj@[i])@.len() == 0,
            decreases k - t,
        {
            adj.push(Vec::new());
            t += 1;
        }
        let mut e: usize = 0;
        while e < edges.len()
            invariant
                2 <= k <= 5,
                e <= edges@.len(),
                adj@.len() == k,
                forall|f: int| 0 <= f < edges@.len() ==> (#[trigger] edges@[f]).0 < k && edges@[f].1 < k && edges@[f].0 != edges@[f].1,
                lists_wf(adj.deep_view()),
                forall|a: usize, b: usize| #[trigger] list_adj(adj.deep_view())(a, b) == edge_rel(edges@.take(e as int))(a, b),
            decreases edges@.len() - e,
        {
            let (a, b) = edges[e];
            let ghost dv0 = adj.deep_view();
            let ghost te = edges@.take(e as int);
            let ghost te1 = edges@.take(e + 1);
            assert(te1 =~= te.push((a, b)));
            assert(adj@[a as int]@ == dv0[a as int]);
            assert(adj@[b as int]@ == dv0[b as int]);
            if !vec_contains(&adj[a], b) {
                let mut ra = adj[a].clone();
                assert(ra@ =~= dv0[a as int]);
                ra.push(b);
                adj.set(a, ra);
                let mut rb = adj[b].clone();
                assert(rb@ =~= dv0[b as int]);
                rb.push(a);
                adj.set(b, rb);
                proof {
                    let dv = adj.deep_view();
                    assert(dv[a as int] == dv0[a as int].push(b));
                    assert(dv[b as int] == dv0[b as int].push(a));
                    assert(!dv0[b as int].contains(a)) by {
                        assert(list_adj(dv0)(b, a) == list_adj(dv0)(a, b));
                    }
                    assert forall|x: usize, y: usize| #[trigger] list_adj(dv)(x, y) == edge_rel(te1)(x, y) by {
                        crate::adjacency::lemma_push_contains_pair(te, (a, b), (x, y));
                        crate::adjacency::lemma_push_contains_pair(te, (a, b), (y, x));
                        assert(list_adj(dv0)(x, y) == edge_rel(te)(x, y));
                        if x == a {
                            crate::adjacency::lemma_push_contains_pair_u(dv0[a as int], b, y);
                        } else if x == b {
                            crate::adjacency::lemma_push_contains_pair_u(dv0[b as int], a, y);
                        } else if x < k {
                            assert(dv[x as int] == dv0[x as int]);
                        }
                    }
                    assert forall|i: int, s: int| 0 <= i < dv.len() && 0 <= s < dv[i].len() implies (#[trigger] dv[i][s]) < dv.len() by {
                        if i == a as int || i == b as int {
                            if s < dv[i].len() - 1 {
                                assert(dv[i][s] == dv0[i][s]);
                            }
                        } else {
                            assert(dv[i] == dv0[i]);
                        }
                    }
                    assert forall|i: int| 0 <= i < dv.len() implies (#[trigger] dv[i]).no_duplicates() by {
                        if i != a as int && i != b as int {
                            assert(dv[i] == dv0[i]);
                        }
                    }
                }
            } else {
                proof {
                    assert forall|x: usize, y: usize| #[trigger] list_adj(adj.deep_view())(x, y) == edge_rel(te1)(x, y) by {
                        crate::adjacency::lemma_push_contains_pair(te, (a, b), (x, y));
                        crate::adjacency::lemma_push_contains_pair(te, (a, b), (y, x));
                        assert(list_adj(dv0)(a, b));
                        assert(list_adj(dv0)(b, a) == list_adj(dv0)(a, b));
                    }
                }
            }
            e += 1;
        }
        let ghost dv = adj.deep_view();
        proof {
            assert(edges@.take(edges@.len() as int) =~= edges@);
            assert(list_adj(dv) =~= edge_rel(edges@));
        }
        let ps = perms(k);
        let is_adj = |i: usize, j: usize| -> (r: bool)
            requires
                i < adj@.len(),
            ensures
                r == list_adj(adj.deep_view())(i, j),
        {
            assert(adj@[i as int]@ == adj.deep_view()[i as int]);
            vec_contains(&adj[i], j)
        };
        let class = canonical_fn(k, &ps, is_adj, Ghost(list_adj(dv)));
        let aut = s_pc(&adj, &adj, &ps);
        proof {
            let pat = list_adj(dv);
            let autos = Set::new(|p: Seq<usize>| is_perm(p, k as nat) && embeds(pat, pat, p));
            let id = id_seq(k as nat);
            lemma_id_seq(k as nat);
            assert(autos.contains(id));
            assert(autos.subset_of(ps.deep_view().to_set()));
            crate::catalog::lemma_count_where_set(ps.deep_view(), |p: Seq<usize>| true);
            vstd::set_lib::lemma_len_subset(autos, ps.deep_view().to_set());
            assert(autos.remove(id).len() + 1 == autos.len());
        }
        let r = Pattern { k, adj, class, aut };
        proof { use_type_invariant(&r); }
        r
    }

    /// The pattern's neighbor lists.
    pub(crate) fn adjacency(&self) -> (r: &Vec<Vec<usize>>)
        ensures
            r@.len() == self.order_spec(),
            2 <= self.order_spec() <= 5,
            lists_wf(r.deep_view()),
            r.deep_view() == self.adj_lists(),
            list_adj(r.deep_view()) == self.edges(),
            forall|a: usize| !(#[trigger] list_adj(r.deep_view())(a, a)),
    {
        proof { use_type_invariant(self); }
        &self.adj
    }

    /// The number of nodes.
    pub fn order(&self) -> (r: usize)
        ensures
            r == self.order_spec(),
            2 <= r <= 5,
    {
        proof { use_type_invariant(self); }
        self.k
    }

    /// The pattern's graphlet class.
    pub fn class_id(&self) -> (r: ClassId)
        ensures
            r.0 == self.class(),
            r.0 == canon(self.order_spec() as nat, self.edges()),
    {
        proof { use_type_invariant(self); }
        ClassId(self.class)
    }
}

/// The path `0 - 1 - ... - (k-1)`.
pub open spec fn path_rel(k: nat) -> spec_fn(usize, usize) -> bool {
    |a: usize, b: usize| a < k && b < k && (a + 1 == b || b + 1 == a)
}

/// The cycle `0 - 1 - ... - (k-1) - 0`.
pub open spec fn cycle_rel(k: nat) -> spec_fn(usize, usize) -> bool {
    |a: usize, b: usize| a < k && b < k && (a + 1 == b || b + 1 == a || (a == 0 && b + 1 == k) || (b == 0 && a + 1 == k))
}

/// The star centred on `0`.
pub open spec fn star_rel(k: nat) -> spec_fn(usize, usize) -> bool {
    |a: usize, b: usize| a < k && b < k && a != b && (a == 0 || b == 0)
}

/// The complete graph.
pub open spec fn complete_rel(k: nat) -> spec_fn(usize, usize) -> bool {
    |a: usize, b: usize| a < k && b < k && a != b
}

impl Pattern {
    /// The path `P_k`.
    pub fn path(k: usize) -> (r: Self)
        requires
            2 <= k <= 5,
        ensures
            r.well_formed(),
            r.order_spec() == k,
            r.edges() == path_rel(k as nat),
    {
        let mut edges: Vec<(usize, usize)> = Vec::new();
        let mut i: usize = 0;
        while i + 1 < k
            invariant
                2 <= k <= 5,
                i + 1 <= k,
                edges@ == Seq::new(i as nat, |t: int| (t as usize, (t + 1) as usize)),
            decreases k - i,
        {
            edges.push((i, i + 1));
            i += 1;
            assert(edges@ =~= Seq::new(i as nat, |t: int| (t as usize, (t + 1) as usize)));
        }
        proof {
            assert forall|a: usize, b: usize| #[trigger] edge_rel(edges@)(a, b) == path_rel(k as nat)(a, b) by {
                if edges@.contains((a, b)) {
                    let t = choose|t: int| 0 <= t < edges@.len() && edges@[t] == (a, b);
                }
                if edges@.contains((b, a)) {
                    let t = choose|t: int| 0 <= t < edges@.len() && edges@[t] == (b, a);
                }
                if path_rel(k as nat)(a, b) {
                    if a + 1 == b { assert(edges@[a as int] == (a, b)); } else { assert(edges@[b as int] == (b, a)); }
                }
            }
            assert(edge_rel(edges@) =~= path_rel(k as nat));
            assert forall|i: usize| 0 < i < k implies #[trigger] has_parent(path_rel(k as nat), i) by {
                assert(path_rel(k as nat)((i - 1) as usize, i));
            }
            lemma_connected_by_parents(k as nat, path_rel(k as nat));
        }
        Pattern::new(k, edges.as_slice())
    }

    /// The cycle `C_k`.
    pub fn cycle(k: usize) -> (r: Self)
        requires
            3 <= k <= 5,
        ensures
            r.well_formed(),
            r.order_spec() == k,
            r.edges() == cycle_rel(k as nat),
    {
        let mut edges: Vec<(usize, usize)> = Vec::new();
        let mut i: usize = 0;
        while i + 1 < k
            invariant
                3 <= k <= 5,
                i + 1 <= k,
                edges@ == Seq::new(i as nat, |t: int| (t as usize, (t + 1) as usize)),
            decreases k - i,
        {
            edges.push((i, i + 1));
            i += 1;
            assert(edges@ =~= Seq::new(i as nat, |t: int| (t as usize, (t + 1) as usize)));
        }
        let ghost p = edges@;
        edges.push((k - 1, 0));
        proof {
            assert forall|a: usize, b: usize| #[trigger] edge_rel(edges@)(a, b) == cycle_rel(k as nat)(a, b) by {
                if edges@.contains((a, b)) {
                    let t = choose|t: int| 0 <= t < edges@.len() && edges@[t] == (a, b);
                }
                if edges@.contains((b, a)) {
                    let t = choose|t: int| 0 <= t < edges@.len() && edges@[t] == (b, a);
                }
                if cycle_rel(k as nat)(a, b) {
                    if a + 1 == b { assert(edges@[a as int] == (a, b)); }
                    else if b + 1 == a { assert(edges@[b as int] == (b, a)); }
                    else if a == 0 { assert(edges@[k - 1] == (b, a)); }
                    else { assert(edges@[k - 1] == (a, b)); }
                }
            }
            assert(edge_rel(edges@) =~= cycle_rel(k as nat));
            assert forall|i: usize| 0 < i < k implies #[trigger] has_parent(cycle_rel(k as nat), i) by {
                assert(cycle_rel(k as nat)((i - 1) as usize, i));
            }
            lemma_connected_by_parents(k as nat, cycle_rel(k as nat));
        }
        Pattern::new(k, edges.as_slice())
    }

    /// The star `S_k`: node `0` joined to each of `1..k`.
    pub fn star(k: usize) -> (r: Self)
        requires
            2 <= k <= 5,
        ensures
            r.well_formed(),
            r.order_spec() == k,
            r.edges() == star_rel(k as nat),
    {
        let mut edges: Vec<(usize, usize)> = Vec::new();
        let mut i: usize = 1;
        while i < k
            invariant
                2 <= k <= 5,
                1 <= i <= k,
                edges@ == Seq::new((i - 1) as nat, |t: int| (0usize, (t + 1) as usize)),
            decreases k - i,
        {
            edges.push((0, i));
            i += 1;
            assert(edges@ =~= Seq::new((i - 1) as nat, |t: int| (0usize, (t + 1) as usize)));
        }
        proof {
            assert forall|a: usize, b: usize| #[trigger] edge_rel(edges@)(a, b) == star_rel(k as nat)(a, b) by {
                if edges@.contains((a, b)) {
                    let t = choose|t: int| 0 <= t < edges@.len() && edges@[t] == (a, b);
                }
                if edges@.contains((b, a)) {
                    let t = choose|t: int| 0 <= t < edges@.len() && edges@[t] == (b, a);
                }
                if star_rel(k as nat)(a, b) {
                    if a == 0 { assert(edges@[b - 1] == (a, b)); } else { assert(edges@[a - 1] == (b, a)); }
                }
            }
            assert(edge_rel(edges@) =~= star_rel(k as nat));
            assert forall|i: usize| 0 < i < k implies #[trigger] has_parent(star_rel(k as nat), i) by {
                assert(star_rel(k as nat)(0, i));
            }
            lemma_connected_by_parents(k as nat, star_rel(k as nat));
        }
        Pattern::new(k, edges.as_slice())
    }

    /// The complete graph `K_k`.
    pub fn complete(k: usize) -> (r: Self)
        requires
            2 <= k <= 5,
        ensures
            r.well_formed(),
            r.order_spec() == k,
            r.edges() == complete_rel(k as nat),
    {
        let edges = pairs(k);
        proof {
            lemma_pairs_upto_shape(k as nat, k as nat);
            assert forall|a: usize, b: usize| #[trigger] edge_rel(edges@)(a, b) == complete_rel(k as nat)(a, b) by {
                if edges@.contains((a, b)) {
                    let t = choose|t: int| 0 <= t < edges@.len() && edges@[t] == (a, b);
                    assert(pair_seq(k as nat)[t] == (a, b));
                }
                if edges@.contains((b, a)) {
                    let t = choose|t: int| 0 <= t < edges@.len() && edges@[t] == (b, a);
                    assert(pair_seq(k as nat)[t] == (b, a));
                }
                if complete_rel(k as nat)(a, b) {
                    if a < b {
                        lemma_pair_at_index(k as nat, a as nat, b as nat);
                        assert(edges@[crate::model::pair_index(k as nat, a as nat, b as nat)] == (a, b));
                    } else {
                        lemma_pair_at_index(k as nat, b as nat, a as nat);
                        assert(edges@[crate::model::pair_index(k as nat, b as nat, a as nat)] == (b, a));
                    }
                }
            }
            assert(edge_rel(edges@) =~= complete_rel(k as nat));
            assert forall|e: int| 0 <= e < edges@.len() implies (#[trigger] edges@[e]).0 < k && edges@[e].1 < k && edges@[e].0 != edges@[e].1 by {
                assert(pair_seq(k as nat)[e] == edges@[e]);
            }
            assert forall|i: usize| 0 < i < k implies #[trigger] has_parent(complete_rel(k as nat), i) by {
                assert(complete_rel(k as nat)(0, i));
            }
            lemma_connected_by_parents(k as nat, complete_rel(k as nat));
        }
        Pattern::new(k, edges.as_slice())
    }

    /// The triangle `K_3`.
    pub fn triangle() -> (r: Self)
        ensures
            r.well_formed(),
            r.order_spec() == 3,
            r.edges() == complete_rel(3),
    {
        Pattern::complete(3)
    }

    /// The claw `K_{1,3}`: the star on four nodes.
    pub fn claw() -> (r: Self)
        ensures
            r.well_formed(),
            r.order_spec() == 4,
            r.edges() == star_rel(4),
    {
        Pattern::star(4)
    }

    /// The paw: a triangle `0-1-2` with a pendant `3` on `0`.
    pub fn paw() -> (r: Self)
        ensures
            r.well_formed(),
            r.order_spec() == 4,
            r.edges() == edge_rel(seq![(0usize, 1usize), (1, 2), (2, 0), (0, 3)]),
    {
        let edges: Vec<(usize, usize)> = vec![(0, 1), (1, 2), (2, 0), (0, 3)];
        proof {
            let es = edges@;
            assert(es[0] == (0usize, 1usize) && es[1] == (1usize, 2usize) && es[2] == (2usize, 0usize) && es[3] == (0usize, 3usize));
            assert(has_parent(edge_rel(es), 1)) by { assert(edge_rel(es)(0, 1)); }
            assert(has_parent(edge_rel(es), 2)) by { assert(edge_rel(es)(1, 2)); }
            assert(has_parent(edge_rel(es), 3)) by { assert(edge_rel(es)(0, 3)); }
            lemma_connected_by_parents(4, edge_rel(es));
            assert(es =~= seq![(0usize, 1usize), (1, 2), (2, 0), (0, 3)]);
        }
        Pattern::new(4, edges.as_slice())
    }

    /// The diamond: `K_4` minus the edge `1-3` (two triangles sharing `0-2`).
    pub fn diamond() -> (r: Self)
        ensures
            r.well_formed(),
            r.order_spec() == 4,
            r.edges() == edge_rel(seq![(0usize, 1usize), (1, 2), (2, 3), (3, 0), (0, 2)]),
    {
        let edges: Vec<(usize, usize)> = vec![(0, 1), (1, 2), (2, 3), (3, 0), (0, 2)];
        proof {
            let es = edges@;
            assert(es[0] == (0usize, 1usize) && es[1] == (1usize, 2usize) && es[2] == (2usize, 3usize) && es[3] == (3usize, 0usize) && es[4] == (0usize, 2usize));
            assert(has_parent(edge_rel(es), 1)) by { assert(edge_rel(es)(0, 1)); }
            assert(has_parent(edge_rel(es), 2)) by { assert(edge_rel(es)(1, 2)); }
            assert(has_parent(edge_rel(es), 3)) by { assert(edge_rel(es)(2, 3)); }
            lemma_connected_by_parents(4, edge_rel(es));
            assert(es =~= seq![(0usize, 1usize), (1, 2), (2, 3), (3, 0), (0, 2)]);
        }
        Pattern::new(4, edges.as_slice())
    }
}

// ---------------------------------------------------------------------------
// Counting a pattern
// ---------------------------------------------------------------------------

/// The connected classes of order `k`, ascending.
pub open spec fn connected_classes(k: nat) -> Seq<u64> {
    choose|v: Seq<u64>| strictly_sorted(v) && forall|c: u64| #[trigger] v.contains(c) <==> is_connected_class(k, c as nat)
}

/// Two ascending sequences with the same entries are equal.
pub proof fn lemma_sorted_unique(a: Seq<u64>, b: Seq<u64>)
    requires
        strictly_sorted(a),
        strictly_sorted(b),
        forall|c: u64| #[trigger] a.contains(c) <==> b.contains(c),
    ensures
        a == b,
    decreases a.len() + b.len(),
{
    if a.len() > 0 && b.len() > 0 {
        let x = a.last();
        let y = b.last();
        assert(a.contains(x));
        assert(b.contains(y));
        assert(b.contains(x));
        assert(a.contains(y));
        let ix = choose|i: int| 0 <= i < b.len() && b[i] == x;
        let iy = choose|i: int| 0 <= i < a.len() && a[i] == y;
        assert(x == y) by {
            if x < y {
                assert(iy < a.len() - 1);
                assert(a[iy] < a[a.len() - 1]);
            } else if y < x {
                assert(ix < b.len() - 1);
                assert(b[ix] < b[b.len() - 1]);
            }
        }
        assert forall|c: u64| #[trigger] a.drop_last().contains(c) <==> b.drop_last().contains(c) by {
            if a.drop_last().contains(c) {
                let i = choose|i: int| 0 <= i < a.drop_last().len() && a.drop_last()[i] == c;
                assert(a[i] == c && a[i] < a[a.len() - 1]);
                assert(a.contains(c));
                assert(b.contains(c));
                let j = choose|j: int| 0 <= j < b.len() && b[j] == c;
                assert(j != b.len() - 1);
                assert(b.drop_last()[j] == c);
            }
            if b.drop_last().contains(c) {
                let i = choose|i: int| 0 <= i < b.drop_last().len() && b.drop_last()[i] == c;
                assert(b[i] == c && b[i] < b[b.len() - 1]);
                assert(b.contains(c));
                assert(a.contains(c));
                let j = choose|j: int| 0 <= j < a.len() && a[j] == c;
                assert(j != a.len() - 1);
                assert(a.drop_last()[j] == c);
            }
        }
        assert(strictly_sorted(a.drop_last()));
        assert(strictly_sorted(b.drop_last()));
        lemma_sorted_unique(a.drop_last(), b.drop_last());
        assert(a =~= a.drop_last().push(x));
        assert(b =~= b.drop_last().push(y));
        assert(a.drop_last().push(x) == b.drop_last().push(y));
    } else if a.len() > 0 {
        assert(a.contains(a[0]));
        assert(b.contains(a[0]));
    } else if b.len() > 0 {
        assert(b.contains(b[0]));
        assert(a.contains(b[0]));
    } else {
        assert(a =~= b);
    }
}

/// `sum over c in cls of census_count(g, k, c) * s(P, class c)`.
pub open spec fn labelled_sum(g: Seq<Seq<usize>>, k: nat, pat: spec_fn(usize, usize) -> bool, cls: Seq<u64>) -> nat
    decreases cls.len(),
{
    if cls.len() == 0 {
        0
    } else {
        labelled_sum(g, k, pat, cls.drop_last())
            + census_count(g, k, cls.last() as nat) * embed_count(k, pat, class_adj(cls.last() as nat, k))
    }
}

/// The labelled (non-induced) embeddings of the pattern in `g`, grouped by the class
/// of the `k`-node set they land on.
pub open spec fn labelled_embeddings(g: Seq<Seq<usize>>, p: Pattern) -> nat {
    labelled_sum(g, p.order_spec() as nat, p.edges(), connected_classes(p.order_spec() as nat))
}

/// Count the occurrences of `pattern` in `g`: induced occurrences are read off the
/// census; non-induced ones are `sum_C count(C) * s(P, C) / |Aut(P)|`.
pub fn count_pattern<N>(g: &Snapshot<N>, pattern: &Pattern, induced: Induced) -> (r: u64)
    requires
        conn_k_sets(g.graph(), pattern.order_spec() as nat).len() < u64::MAX,
        induced == Induced::No ==> labelled_embeddings(g.graph(), *pattern) <= u64::MAX,
    ensures
        induced == Induced::Yes ==> r == census_count(g.graph(), pattern.order_spec() as nat, pattern.class() as nat),
        induced == Induced::No ==> r == labelled_embeddings(g.graph(), *pattern) / (pattern.automorphisms() as nat),
{
    proof { use_type_invariant(pattern); }
    let k = pattern.k;
    let ghost gr = g.graph();
    let census = count(g, &Selector::connected_k_subsets(k));
    match induced {
        Induced::Yes => {
            match census.get(&ClassId(pattern.class)) {
                Some(n) => n,
                None => 0,
            }
        },
        Induced::No => {
            let ps = perms(k);
            let classes = all_connected_classes(k);
            let ghost cls = classes@;
            let ghost pat = list_adj(pattern.adj.deep_view());
            let ghost total = labelled_embeddings(gr, *pattern);
            proof {
                let chosen = connected_classes(k as nat);
                assert(strictly_sorted(cls) && forall|c: u64| #[trigger] cls.contains(c) <==> is_connected_class(k as nat, c as nat));
                lemma_sorted_unique(chosen, cls);
                assert(total == labelled_sum(gr, k as nat, pat, cls));
            }
            let mut labelled: u64 = 0;
            let mut t: usize = 0;
            while t < classes.len()
                invariant
                    t <= cls.len(),
                    cls == classes@,
                    2 <= k <= 5,
                    k == pattern.k,
                    all_perms(ps.deep_view(), k as nat),
                    lists_wf(pattern.adj.deep_view()),
                    pattern.adj@.len() == k,
                    pat == list_adj(pattern.adj.deep_view()),
                    total == labelled_sum(gr, k as nat, pat, cls),
                    total <= u64::MAX,
                    gr == g.graph(),
                    forall|c: u64| #[trigger] census@.contains_key(c) <==> census_count(gr, k as nat, c as nat) > 0,
                    forall|c: u64| #[trigger] census@.contains_key(c) ==> census@[c] == census_count(gr, k as nat, c as nat),
                    labelled == labelled_sum(gr, k as nat, pat, cls.take(t as int)),
                decreases cls.len() - t,
            {
                let mask = classes[t];
                let cnt = match census.get(&ClassId(mask)) {
                    Some(n) => n,
                    None => 0,
                };
                proof {
                    assert(cls.take(t + 1).drop_last() =~= cls.take(t as int));
                    assert(cls.take(t + 1).last() == mask);
                    lemma_labelled_sum_prefix(gr, k as nat, pat, cls, (t + 1) as nat);
                    assert(cnt == census_count(gr, k as nat, mask as nat));
                }
                if cnt != 0 {
                    let cadj = class_to_adj(mask, k);
                    let s = s_pc(&pattern.adj, &cadj, &ps);
                    labelled = labelled + cnt * s;
                } else {
                    assert(cnt * embed_count(k as nat, pat, class_adj(mask as nat, k as nat)) == 0);
                }
                t += 1;
            }
            proof {
                assert(cls.take(cls.len() as int) =~= cls);
            }
            labelled / pattern.aut
        },
    }
}

/// A prefix sum is at most the whole sum.
pub proof fn lemma_labelled_sum_prefix(g: Seq<Seq<usize>>, k: nat, pat: spec_fn(usize, usize) -> bool, cls: Seq<u64>, t: nat)
    requires
        t <= cls.len(),
    ensures
        labelled_sum(g, k, pat, cls.take(t as int)) <= labelled_sum(g, k, pat, cls),
    decreases cls.len() - t,
{
    if t < cls.len() {
        lemma_labelled_sum_prefix(g, k, pat, cls, t + 1);
        assert(cls.take(t + 1int).drop_last() =~= cls.take(t as int));
    } else {
        assert(cls.take(t as int) =~= cls);
    }
}

// ---------------------------------------------------------------------------
// Motif and diamond counts
// ---------------------------------------------------------------------------

/// Count the occurrences of a motif: the same as [`count_pattern`].
pub fn count_motif<N>(g: &Snapshot<N>, pattern: &Pattern, induced: Induced) -> (r: u64)
    requires
        conn_k_sets(g.graph(), pattern.order_spec() as nat).len() < u64::MAX,
        induced == Induced::No ==> labelled_embeddings(g.graph(), *pattern) <= u64::MAX,
    ensures
        induced == Induced::Yes ==> r == census_count(g.graph(), pattern.order_spec() as nat, pattern.class() as nat),
        induced == Induced::No ==> r == labelled_embeddings(g.graph(), *pattern) / (pattern.automorphisms() as nat),
{
    count_pattern(g, pattern, induced)
}

/// The diamond's edges: `K_4` minus `1-3`.
pub open spec fn diamond_rel() -> spec_fn(usize, usize) -> bool {
    edge_rel(seq![(0usize, 1usize), (1, 2), (2, 3), (3, 0), (0, 2)])
}

/// Count diamonds (two triangles sharing an edge).
pub fn count_diamonds<N>(g: &Snapshot<N>, induced: Induced) -> (r: u64)
    requires
        conn_k_sets(g.graph(), 4).len() < u64::MAX,
        induced == Induced::No ==> labelled_sum(g.graph(), 4, diamond_rel(), connected_classes(4)) <= u64::MAX,
    ensures
        induced == Induced::Yes ==> r == census_count(g.graph(), 4, canon(4, diamond_rel())),
        induced == Induced::No ==> r == labelled_sum(g.graph(), 4, diamond_rel(), connected_classes(4))
            / embed_count(4, diamond_rel(), diamond_rel()),
{
    let p = Pattern::diamond();
    proof { use_type_invariant(&p); }
    count_pattern(g, &p, induced)
}

/// One diamond occurrence: the shared edge and the two other nodes.
#[derive(Clone, Copy, Debug)]
pub struct Diamond<N> {
    /// The endpoints of the edge the two triangles share.
    pub spine: [N; 2],
    /// The two nodes off the spine.
    pub tips: [N; 2],
}

// ---------------------------------------------------------------------------
// The motif catalog
// ---------------------------------------------------------------------------

/// Lexicographic order of character sequences (the order of `str`).
pub open spec fn str_lt(a: Seq<char>, b: Seq<char>) -> bool
    decreases a.len(),
{
    if a.len() == 0 {
        b.len() > 0
    } else if b.len() == 0 {
        false
    } else if a[0] != b[0] {
        (a[0] as int) < (b[0] as int)
    } else {
        str_lt(a.drop_first(), b.drop_first())
    }
}

proof fn lemma_str_lt_irrefl(a: Seq<char>)
    ensures
        !str_lt(a, a),
    decreases a.len(),
{
    if a.len() > 0 {
        lemma_str_lt_irrefl(a.drop_first());
    }
}

proof fn lemma_str_lt_total(a: Seq<char>, b: Seq<char>)
    ensures
        a == b || str_lt(a, b) || str_lt(b, a),
        !(str_lt(a, b) && str_lt(b, a)),
    decreases a.len(),
{
    if a.len() == 0 && b.len() == 0 {
        assert(a =~= b);
    } else if a.len() > 0 && b.len() > 0 {
        lemma_str_lt_total(a.drop_first(), b.drop_first());
        if a[0] == b[0] && a.drop_first() == b.drop_first() {
            assert(a =~= seq![a[0]] + a.drop_first());
            assert(b =~= seq![b[0]] + b.drop_first());
        }
        if a[0] != b[0] {
            assert((a[0] as int) != (b[0] as int));
        }
    }
}

proof fn lemma_str_lt_trans(a: Seq<char>, b: Seq<char>, c: Seq<char>)
    requires
        str_lt(a, b),
        str_lt(b, c),
    ensures
        str_lt(a, c),
    decreases a.len(),
{
    if a.len() > 0 && b.len() > 0 && c.len() > 0 {
        if a[0] == b[0] && b[0] == c[0] {
            lemma_str_lt_trans(a.drop_first(), b.drop_first(), c.drop_first());
        } else if a[0] == b[0] {
            assert((a[0] as int) != (c[0] as int));
        } else if b[0] == c[0] {
            assert((a[0] as int) != (c[0] as int));
        } else {
            if a[0] == c[0] {
                assert((a[0] as int) < (b[0] as int) && (b[0] as int) < (c[0] as int));
            }
        }
    }
}

/// `str_lt` is a strict total order.
pub proof fn lemma_str_lt(a: Seq<char>, b: Seq<char>, c: Seq<char>)
    ensures
        !str_lt(a, a),
        str_lt(a, b) && str_lt(b, c) ==> str_lt(a, c),
        a == b || str_lt(a, b) || str_lt(b, a),
        !(str_lt(a, b) && str_lt(b, a)),
{
    lemma_str_lt_irrefl(a);
    lemma_str_lt_total(a, b);
    if str_lt(a, b) && str_lt(b, c) {
        lemma_str_lt_trans(a, b, c);
    }
}

/// Whether `a` sorts strictly before `b`.
fn str_less(a: &str, b: &str) -> (r: bool)
    ensures
        r == str_lt(a@, b@),
{
    let la = a.unicode_len();
    let lb = b.unicode_len();
    let mut i: usize = 0;
    assert(a@.skip(0) =~= a@);
    assert(b@.skip(0) =~= b@);
    while i < la && i < lb
        invariant
            la == a@.len(),
            lb == b@.len(),
            i <= la,
            i <= lb,
            str_lt(a@, b@) == str_lt(a@.skip(i as int), b@.skip(i as int)),
        decreases la - i,
    {
        let ca = a.get_char(i);
        let cb = b.get_char(i);
        proof {
            assert(a@.skip(i as int)[0] == ca);
            assert(b@.skip(i as int)[0] == cb);
            assert(a@.skip(i as int).drop_first() =~= a@.skip(i + 1));
            assert(b@.skip(i as int).drop_first() =~= b@.skip(i + 1));
        }
        if ca != cb {
            return (ca as u32) < (cb as u32);
        }
        i += 1;
    }
    i < lb
}

/// Patterns registered by name.
pub struct MotifCatalog {
    entries: Vec<(String, Pattern)>,
}

/// The entry of `es` named `s`.
pub open spec fn entry_named(es: Seq<(String, Pattern)>, s: Seq<char>) -> int {
    choose|i: int| 0 <= i < es.len() && es[i].0@ == s
}

impl MotifCatalog {
    #[verifier::type_invariant]
    spec fn inv(self) -> bool {
        forall|i: int, j: int| 0 <= i < j < self.entries@.len() ==> str_lt(self.entries@[i].0@, self.entries@[j].0@)
    }

    /// Name -> pattern.
    pub closed spec fn view(&self) -> Map<Seq<char>, Pattern> {
        Map::new(
            |s: Seq<char>| exists|i: int| 0 <= i < self.entries@.len() && #[trigger] self.entries@[i].0@ == s,
            |s: Seq<char>| self.entries@[entry_named(self.entries@, s)].1,
        )
    }

    /// The empty catalog.
    pub fn new() -> (r: Self)
        ensures
            r@ == Map::<Seq<char>, Pattern>::empty(),
    {
        let r = MotifCatalog { entries: Vec::new() };
        assert(r@ =~= Map::<Seq<char>, Pattern>::empty());
        r
    }

    /// Register `pattern` under `name`, returning the pattern it replaces.
    pub fn register(&mut self, name: &str, pattern: Pattern) -> (r: Option<Pattern>)
        ensures
            final(self)@ == old(self)@.insert(name@, pattern),
            r == (if old(self)@.contains_key(name@) { Some(old(self)@[name@]) } else { None::<Pattern> }),
            final(self)@.dom().len() == old(self)@.dom().len() + (if old(self)@.contains_key(name@) { 0int } else { 1int }),
    {
        proof {
            use_type_invariant(&*self);
            self.lemma_dom();
            assert(old(self)@.dom().finite());
        }
        let ghost es0 = self.entries@;
        let ghost v0 = self@;
        let mut pos: usize = 0;
        while pos < self.entries.len() && str_less(self.entries[pos].0.as_str(), name)
            invariant
                self.entries@ == es0,
                pos <= es0.len(),
                forall|i: int| 0 <= i < pos ==> str_lt(#[trigger] es0[i].0@, name@),
            decreases es0.len() - pos,
        {
            pos += 1;
        }
        let owned = name.to_owned();
        let found = pos < self.entries.len() && self.entries[pos].0 == owned;
        proof {
            assert forall|i: int| pos <= i < es0.len() implies str_lt(name@, #[trigger] es0[i].0@) || es0[i].0@ == name@ by {
                lemma_str_lt(es0[pos as int].0@, name@, es0[i].0@);
                lemma_str_lt(name@, es0[pos as int].0@, es0[i].0@);
                if i > pos {
                    assert(str_lt(es0[pos as int].0@, es0[i].0@));
                }
            }
            assert forall|i: int| 0 <= i < es0.len() && es0[i].0@ == name@ implies i == pos by {
                if i < pos {
                    lemma_str_lt(name@, name@, name@);
                } else if i > pos {
                    lemma_str_lt(es0[pos as int].0@, name@, name@);
                    assert(str_lt(es0[pos as int].0@, es0[i].0@));
                    lemma_str_lt(name@, es0[pos as int].0@, name@);
                }
            }
        }
        let mut es: Vec<(String, Pattern)> = Vec::new();
        std::mem::swap(&mut es, &mut self.entries);
        if found {
            let old_entry = es.remove(pos);
            es.insert(pos, (owned, pattern));
            proof {
                assert forall|i: int, j: int| 0 <= i < j < es@.len() implies str_lt(es@[i].0@, es@[j].0@) by {
                    assert(es@[pos as int].0@ == es0[pos as int].0@);
                    assert(es@[i].0@ == es0[i].0@ && es@[j].0@ == es0[j].0@);
                }
            }
            self.entries = es;
            proof {
                assert(self.entries@ =~= es0.update(pos as int, (owned, pattern)));
                assert(v0.contains_key(name@)) by {
                    assert(es0[pos as int].0@ == name@);
                }
                assert(entry_named(es0, name@) == pos);
                assert(self@ =~= v0.insert(name@, pattern)) by {
                    assert forall|s: Seq<char>| #[trigger] self@.contains_key(s) <==> v0.insert(name@, pattern).contains_key(s) by {
                        if v0.contains_key(s) {
                            let i = choose|i: int| 0 <= i < es0.len() && #[trigger] es0[i].0@ == s;
                            assert(self.entries@[i].0@ == s);
                        }
                        if self@.contains_key(s) {
                            let i = choose|i: int| 0 <= i < self.entries@.len() && #[trigger] self.entries@[i].0@ == s;
                            assert(es0[i].0@ == s);
                        }
                    }
                    assert forall|s: Seq<char>| #[trigger] self@.contains_key(s) implies self@[s] == v0.insert(name@, pattern)[s] by {
                        let i = entry_named(self.entries@, s);
                        let j = entry_named(es0, s);
                        assert(0 <= i < self.entries@.len() && self.entries@[i].0@ == s);
                        assert(0 <= j < es0.len() && es0[j].0@ == s);
                        assert(i == j) by {
                            lemma_str_lt(es0[i].0@, s, s);
                            if i < j { assert(str_lt(es0[i].0@, es0[j].0@)); }
                            if j < i { assert(str_lt(es0[j].0@, es0[i].0@)); }
                        }
                    }
                }
            }
            Some(old_entry.1)
        } else {
            es.insert(pos, (owned, pattern));
            proof {
                let es = es@;
                assert forall|i: int, j: int| 0 <= i < j < es.len() implies str_lt(es[i].0@, es[j].0@) by {
                    if i < pos && j == pos {
                    } else if i == pos && j > pos {
                        assert(es[j] == es0[j - 1]);
                        assert(str_lt(name@, es0[j - 1].0@) || es0[j - 1].0@ == name@);
                        if es0[j - 1].0@ == name@ {
                            assert(es0[j - 1].0@ == name@);
                        }
                    } else if i < pos && j > pos {
                        assert(es[i] == es0[i] && es[j] == es0[j - 1]);
                    } else if i > pos {
                        assert(es[i] == es0[i - 1] && es[j] == es0[j - 1]);
                    }
                }
            }
            self.entries = es;
            proof {
                let es = self.entries@;
                assert(!v0.contains_key(name@)) by {
                    if v0.contains_key(name@) {
                        let i = choose|i: int| 0 <= i < es0.len() && #[trigger] es0[i].0@ == name@;
                    }
                }
                assert(es[pos as int].0@ == name@);
                assert forall|i: int| 0 <= i < es.len() implies #[trigger] es[i] == (if i < pos { es0[i] } else if i == pos { (owned, pattern) } else { es0[i - 1] }) by {}
                assert forall|s: Seq<char>| #[trigger] self@.contains_key(s) <==> v0.insert(name@, pattern).contains_key(s) by {
                    if v0.contains_key(s) {
                        let i = choose|i: int| 0 <= i < es0.len() && #[trigger] es0[i].0@ == s;
                        if i < pos { assert(es[i].0@ == s); } else { assert(es[i + 1].0@ == s); }
                    }
                    if self@.contains_key(s) {
                        let i = choose|i: int| 0 <= i < es.len() && #[trigger] es[i].0@ == s;
                        if i < pos { assert(es0[i].0@ == s); } else if i > pos { assert(es0[i - 1].0@ == s); }
                    }
                }
                assert forall|s: Seq<char>| #[trigger] self@.contains_key(s) implies self@[s] == v0.insert(name@, pattern)[s] by {
                    let i = entry_named(es, s);
                    assert(0 <= i < es.len() && es[i].0@ == s);
                    if s == name@ {
                        assert(i == pos) by {
                            lemma_str_lt(s, s, s);
                            if i < pos { assert(str_lt(es0[i].0@, name@)); }
                            if i > pos { assert(str_lt(name@, es0[i - 1].0@) || es0[i - 1].0@ == name@); }
                        }
                    } else {
                        let j = entry_named(es0, s);
                        assert(v0.contains_key(s));
                        assert(0 <= j < es0.len() && es0[j].0@ == s);
                        let jj = if j < pos { j } else { j + 1 };
                        assert(es[jj].0@ == s);
                        assert(i == jj) by {
                            lemma_str_lt(es[i].0@, s, s);
                            if i < jj {
                                assert(str_lt(es[i].0@, es[jj].0@)) by {
                                    if i < pos && jj > pos { lemma_str_lt(es[i].0@, name@, es[jj].0@); }
                                }
                            }
                            if jj < i {
                                assert(str_lt(es[jj].0@, es[i].0@)) by {
                                    if jj < pos && i > pos { lemma_str_lt(es[jj].0@, name@, es[i].0@); }
                                }
                            }
                        }
                    }
                }
                assert(self@ =~= v0.insert(name@, pattern));
            }
            None
        }
    }

    /// The pattern registered under `name`, if any.
    pub fn get(&self, name: &str) -> (r: Option<&Pattern>)
        ensures
            r.is_some() == self@.contains_key(name@),
            r.is_some() ==> *r.unwrap() == self@[name@],
    {
        proof { use_type_invariant(self); }
        let owned = name.to_owned();
        let mut t: usize = 0;
        while t < self.entries.len()
            invariant
                t <= self.entries@.len(),
                owned@ == name@,
                forall|i: int, j: int| 0 <= i < j < self.entries@.len() ==> str_lt(self.entries@[i].0@, self.entries@[j].0@),
                forall|i: int| 0 <= i < t ==> (#[trigger] self.entries@[i]).0@ != name@,
            decreases self.entries@.len() - t,
        {
            if self.entries[t].0 == owned {
                proof {
                    let i = entry_named(self.entries@, name@);
                    assert(self.entries@[t as int].0@ == name@);
                    assert(0 <= i < self.entries@.len() && self.entries@[i].0@ == name@);
                    assert(i == t) by {
                        lemma_str_lt(name@, name@, name@);
                        if i < t { assert(str_lt(self.entries@[i].0@, self.entries@[t as int].0@)); }
                        if t < i { assert(str_lt(self.entries@[t as int].0@, self.entries@[i].0@)); }
                    }
                }
                return Some(&self.entries[t].1);
            }
            t += 1;
        }
        proof {
            if self@.contains_key(name@) {
                let i = choose|i: int| 0 <= i < self.entries@.len() && #[trigger] self.entries@[i].0@ == name@;
            }
        }
        None
    }

    /// The registered names, ascending.
    pub fn names(&self) -> (r: Vec<&str>)
        ensures
            forall|i: int, j: int| 0 <= i < j < r@.len() ==> str_lt(r@[i]@, r@[j]@),
            forall|s: Seq<char>| self@.contains_key(s) <==> exists|i: int| 0 <= i < r@.len() && #[trigger] r@[i]@ == s,
            self@.dom().finite(),
            r@.len() == self@.dom().len(),
    {
        proof { use_type_invariant(self); self.lemma_dom(); }
        let mut r: Vec<&str> = Vec::new();
        let mut t: usize = 0;
        while t < self.entries.len()
            invariant
                t <= self.entries@.len(),
                r@.len() == t,
                forall|i: int| 0 <= i < t ==> (#[trigger] r@[i])@ == self.entries@[i].0@,
            decreases self.entries@.len() - t,
        {
            r.push(self.entries[t].0.as_str());
            t += 1;
        }
        proof {
            assert forall|i: int, j: int| 0 <= i < j < r@.len() implies str_lt(r@[i]@, r@[j]@) by {
                assert(r@[i]@ == self.entries@[i].0@ && r@[j]@ == self.entries@[j].0@);
            }
            assert forall|s: Seq<char>| self@.contains_key(s) <==> exists|i: int| 0 <= i < r@.len() && #[trigger] r@[i]@ == s by {
                if self@.contains_key(s) {
                    let i = choose|i: int| 0 <= i < self.entries@.len() && #[trigger] self.entries@[i].0@ == s;
                    assert(r@[i]@ == s);
                }
                if exists|i: int| 0 <= i < r@.len() && #[trigger] r@[i]@ == s {
                    let i = choose|i: int| 0 <= i < r@.len() && #[trigger] r@[i]@ == s;
                    assert(self.entries@[i].0@ == s);
                }
            }
        }
        r
    }

    /// The registered names are finitely many, one per entry.
    proof fn lemma_dom(self)
        requires
            self.inv(),
        ensures
            self@.dom().finite(),
            self@.dom().len() == self.entries@.len(),
    {
        let names = self.entries@.map_values(|e: (String, Pattern)| e.0@);
        assert(names.no_duplicates()) by {
            assert forall|i: int, j: int| 0 <= i < names.len() && 0 <= j < names.len() && i != j implies names[i] != names[j] by {
                lemma_str_lt(names[i], names[j], names[j]);
                if i < j { assert(str_lt(names[i], names[j])); } else { assert(str_lt(names[j], names[i])); }
            }
        }
        names.unique_seq_to_set();
        vstd::seq_lib::seq_to_set_is_finite(names);
        assert(self@.dom() =~= names.to_set()) by {
            assert forall|s: Seq<char>| self@.dom().contains(s) <==> names.to_set().contains(s) by {
                if self@.dom().contains(s) {
                    let i = choose|i: int| 0 <= i < self.entries@.len() && #[trigger] self.entries@[i].0@ == s;
                    assert(names[i] == s);
                }
                if names.contains(s) {
                    let i = choose|i: int| 0 <= i < names.len() && names[i] == s;
                    assert(self.entries@[i].0@ == s);
                }
            }
        }
    }

    /// The number of registered patterns.
    pub fn len(&self) -> (r: usize)
        ensures
            r == self@.dom().len(),
            self@.dom().finite(),
    {
        proof {
            use_type_invariant(self);
            self.lemma_dom();
        }
        self.entries.len()
    }

    /// Whether no pattern is registered.
    pub fn is_empty(&self) -> (r: bool)
        ensures
            r == (self@.dom().len() == 0),
    {
        self.len() == 0
    }

    /// The standard small motifs: `p3`, `triangle`, `p4`, `c4`, `claw`, `paw`,
    /// `diamond`, `k4`, `p5`, `c5`, `star5`, `k5`.
    pub fn standard() -> (r: Self)
        ensures
            r@.dom() == set!["p3"@, "triangle"@, "p4"@, "c4"@, "claw"@, "paw"@, "diamond"@, "k4"@, "p5"@, "c5"@, "star5"@, "k5"@],
            r@["p3"@].edges() == path_rel(3),
            r@["triangle"@].edges() == complete_rel(3),
            r@["p4"@].edges() == path_rel(4),
            r@["c4"@].edges() == cycle_rel(4),
            r@["claw"@].edges() == star_rel(4),
            r@["paw"@].edges() == edge_rel(seq![(0usize, 1usize), (1, 2), (2, 0), (0, 3)]),
            r@["diamond"@].edges() == diamond_rel(),
            r@["k4"@].edges() == complete_rel(4),
            r@["p5"@].edges() == path_rel(5),
            r@["c5"@].edges() == cycle_rel(5),
            r@["star5"@].edges() == star_rel(5),
            r@["k5"@].edges() == complete_rel(5),
    {
        let mut c = Self::new();
        c.register("p3", Pattern::path(3));
        c.register("triangle", Pattern::triangle());
        c.register("p4", Pattern::path(4));
        c.register("c4", Pattern::cycle(4));
        c.register("claw", Pattern::claw());
        c.register("paw", Pattern::paw());
        c.register("diamond", Pattern::diamond());
        c.register("k4", Pattern::complete(4));
        c.register("p5", Pattern::path(5));
        c.register("c5", Pattern::cycle(5));
        c.register("star5", Pattern::star(5));
        c.register("k5", Pattern::complete(5));
        proof {
            reveal_strlit("p3");
            reveal_strlit("triangle");
            reveal_strlit("p4");
            reveal_strlit("c4");
            reveal_strlit("claw");
            reveal_strlit("paw");
            reveal_strlit("diamond");
            reveal_strlit("k4");
            reveal_strlit("p5");
            reveal_strlit("c5");
            reveal_strlit("star5");
            reveal_strlit("k5");
            assert("p3"@.len() == 2 && "p3"@[0] == 'p' && "p3"@[1] == '3');
            assert("triangle"@.len() == 8 && "triangle"@[0] == 't' && "triangle"@[1] == 'r');
            assert("p4"@.len() == 2 && "p4"@[0] == 'p' && "p4"@[1] == '4');
            assert("c4"@.len() == 2 && "c4"@[0] == 'c' && "c4"@[1] == '4');
            assert("claw"@.len() == 4 && "claw"@[0] == 'c' && "claw"@[1] == 'l');
            assert("paw"@.len() == 3 && "paw"@[0] == 'p' && "paw"@[1] == 'a');
            assert("diamond"@.len() == 7 && "diamond"@[0] == 'd' && "diamond"@[1] == 'i');
            assert("k4"@.len() == 2 && "k4"@[0] == 'k' && "k4"@[1] == '4');
            assert("p5"@.len() == 2 && "p5"@[0] == 'p' && "p5"@[1] == '5');
            assert("c5"@.len() == 2 && "c5"@[0] == 'c' && "c5"@[1] == '5');
            assert("star5"@.len() == 5 && "star5"@[0] == 's' && "star5"@[1] == 't');
            assert("k5"@.len() == 2 && "k5"@[0] == 'k' && "k5"@[1] == '5');
            assert(c@.dom() =~= set!["p3"@, "triangle"@, "p4"@, "c4"@, "claw"@, "paw"@, "diamond"@, "k4"@, "p5"@, "c5"@, "star5"@, "k5"@]);
        }
        c
    }
}

/// A class count is at most the number of connected sets.
pub proof fn lemma_census_count_le(g: Seq<Seq<usize>>, k: nat, c: nat)
    ensures
        census_count(g, k, c) <= conn_k_sets(g, k).len() || !conn_k_sets(g, k).finite(),
{
    if conn_k_sets(g, k).finite() {
        let p = |s: Set<usize>| crate::census::set_class(g, k, s) == c;
        vstd::set_lib::lemma_len_subset(conn_k_sets(g, k).filter(p), conn_k_sets(g, k));
    }
}

} // verus!
