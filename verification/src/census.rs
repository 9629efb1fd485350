//! The census: enumerate connected induced k-subsets, label each by its canonical
//! class, fold the labels into class counts.
use vstd::prelude::*;
use std::collections::HashMap;
use crate::model::{canon, is_perm, relabels, lemma_canon_of_isomorphic, below, connected_set, crosses, id_seq, lemma_id_seq, mask_val, mask_bits, lemma_bits_val_bit, lemma_bits_val_bound, pair_seq, pair_index, lemma_pair_seq_len, lemma_pairs_upto_shape, lemma_pair_at_index, bit_nat};
use crate::canonical::{ClassId, MASK_K, all_perms, canonical_fn, computes, list_adj, perms, class_adj, mask_bit, is_connected_class};
use crate::adjacency::Adjacency;
use crate::esu::{
    SubsetSink, simple_graph, conn_k_sets, valid_out, esu_all, esu_roots, esu_seq, sets_of,
    count_where, for_each_subset, lemma_esu_all, lemma_count_where_ext, lemma_count_sets,
    frame_ok, frontier, root_ext, child_ext, pending, pending_work, esu_work, roots_work,
    lemma_pending_prefix, lemma_split, lemma_root_frame, exclusive_ext,
};
use crate::snapshot::Snapshot;

verus! {

broadcast use vstd::std_specs::hash::group_hash_axioms;

// ---------------------------------------------------------------------------
// Classes of subsets
// ---------------------------------------------------------------------------

/// The subgraph induced on the vertex sequence `q`, over local vertices `0..q.len()`.
pub open spec fn local_adj(g: Seq<Seq<usize>>, q: Seq<usize>) -> spec_fn(usize, usize) -> bool {
    |i: usize, j: usize| list_adj(g)(q[i as int], q[j as int])
}

/// The canonical class of the subgraph induced on the `k` vertices listed in `q`.
pub open spec fn seq_class(g: Seq<Seq<usize>>, k: nat, q: Seq<usize>) -> nat {
    canon(k, local_adj(g, q))
}

/// Some duplicate-free listing of the `k` vertices of `s`.
pub open spec fn arrangement(s: Set<usize>, k: nat) -> Seq<usize> {
    choose|q: Seq<usize>| q.len() == k && q.no_duplicates() && q.to_set() == s
}

/// The canonical class of the subgraph induced on the vertex set `s`.
pub open spec fn set_class(g: Seq<Seq<usize>>, k: nat, s: Set<usize>) -> nat {
    seq_class(g, k, arrangement(s, k))
}

/// How many connected `k`-node vertex sets induce a subgraph of class `c`.
pub open spec fn census_count(g: Seq<Seq<usize>>, k: nat, c: nat) -> nat {
    conn_k_sets(g, k).filter(|s: Set<usize>| set_class(g, k, s) == c).len()
}

/// The class of a listing does not depend on the order of the listing.
pub proof fn lemma_seq_class_of_set(g: Seq<Seq<usize>>, k: nat, q: Seq<usize>)
    requires
        k <= usize::MAX,
        q.len() == k,
        q.no_duplicates(),
    ensures
        seq_class(g, k, q) == set_class(g, k, q.to_set()),
{
    let s = q.to_set();
    assert(q.len() == k && q.no_duplicates() && q.to_set() == s);
    let q2 = arrangement(s, k);
    let sigma = Seq::new(k, |i: int| q.index_of(q2[i]) as usize);
    assert forall|i: int| 0 <= i < k implies 0 <= q.index_of(q2[i]) < k && q[q.index_of(q2[i])] == #[trigger] q2[i] by {
        assert(q2.to_set().contains(q2[i]));
        assert(q.contains(q2[i]));
    }
    assert forall|i: int, j: int| 0 <= i < sigma.len() && 0 <= j < sigma.len() && i != j implies sigma[i] != sigma[j] by {
        assert(q[sigma[i] as int] == q2[i]);
        assert(q[sigma[j] as int] == q2[j]);
    }
    assert forall|i: int| 0 <= i < k implies (#[trigger] sigma[i]) < k by {
        assert(q[q.index_of(q2[i])] == q2[i]);
    }
    let a1 = local_adj(g, q);
    let a2 = local_adj(g, q2);
    assert forall|i: usize, j: usize| i < k && j < k && i != j implies #[trigger] a2(i, j) == a1(sigma[i as int], sigma[j as int]) by {
        assert(q[q.index_of(q2[i as int])] == q2[i as int]);
        assert(q[q.index_of(q2[j as int])] == q2[j as int]);
    }
    assert(relabels(sigma, k, a1, a2));
    lemma_canon_of_isomorphic(k, a1, a2);
}

/// The subgraph induced on the vertices of a connected set, relabelled `0..k` in
/// listing order, is connected.
pub proof fn lemma_local_connected(g: Seq<Seq<usize>>, k: nat, q: Seq<usize>)
    requires
        k <= usize::MAX,
        valid_out(g, k, q),
    ensures
        connected_set(below(k), local_adj(g, q)),
{
    let l = local_adj(g, q);
    let qs = q.to_set();
    let f = |i: usize| q[i as int];
    assert forall|t: Set<usize>| t.subset_of(below(k)) && t.len() > 0 && t.finite() && t != below(k) implies #[trigger] crosses(t, below(k), l) by {
        let tt = t.map(f);
        t.lemma_map_finite(f);
        let i0 = t.choose();
        assert(t.contains(i0)) by { vstd::set::axiom_set_choose_len(t); }
        assert(tt.contains(q[i0 as int]));
        assert(tt.len() > 0) by {
            if tt.len() == 0 { assert(tt =~= Set::empty()); }
        }
        assert(tt.subset_of(qs)) by {
            assert forall|y: usize| tt.contains(y) implies qs.contains(y) by {
                let x = choose|x: usize| t.contains(x) && y == f(x);
                assert(q.contains(q[x as int]));
            }
        }
        assert(exists|j: usize| below(k).contains(j) && !t.contains(j)) by {
            if forall|j: usize| below(k).contains(j) ==> t.contains(j) {
                assert(t =~= below(k));
            }
        }
        let j0 = choose|j: usize| below(k).contains(j) && !t.contains(j);
        assert(!tt.contains(q[j0 as int])) by {
            if tt.contains(q[j0 as int]) {
                let x = choose|x: usize| t.contains(x) && q[j0 as int] == f(x);
                assert(x == j0);
            }
        }
        assert(tt != qs) by {
            assert(qs.contains(q[j0 as int]));
        }
        assert(crosses(tt, qs, list_adj(g)));
        let (x, y) = choose|x: usize, y: usize| tt.contains(x) && qs.contains(y) && !tt.contains(y) && #[trigger] list_adj(g)(x, y);
        let i = choose|i: usize| t.contains(i) && x == f(i);
        let j = choose|j: int| 0 <= j < q.len() && q[j] == y;
        let ju = j as usize;
        assert(ju as int == j);
        assert(f(ju) == y);
        assert(!t.contains(ju)) by {
            if t.contains(ju) { assert(tt.contains(f(ju))); }
        }
        assert(l(i, ju));
        assert(below(k).contains(ju));
    }
}

/// Connectivity only reads the relation on distinct vertices of the set.
pub proof fn lemma_connected_agree(s: Set<usize>, f1: spec_fn(usize, usize) -> bool, f2: spec_fn(usize, usize) -> bool)
    requires
        connected_set(s, f1),
        forall|a: usize, b: usize| s.contains(a) && s.contains(b) && a != b ==> #[trigger] f1(a, b) == f2(a, b),
    ensures
        connected_set(s, f2),
{
    assert forall|t: Set<usize>| t.subset_of(s) && t.len() > 0 && t.finite() && t != s implies #[trigger] crosses(t, s, f2) by {
        assert(crosses(t, s, f1));
        let (x, y) = choose|x: usize, y: usize| t.contains(x) && s.contains(y) && !t.contains(y) && #[trigger] f1(x, y);
        assert(f2(x, y));
    }
}

/// The canonical class of every listed connected `k`-set is a connected class.
pub proof fn lemma_seq_class_connected(g: Seq<Seq<usize>>, k: nat, q: Seq<usize>)
    requires
        simple_graph(g),
        k <= MASK_K,
        valid_out(g, k, q),
    ensures
        is_connected_class(k, seq_class(g, k, q)),
{
    let l = local_adj(g, q);
    let id = id_seq(k);
    lemma_id_seq(k);
    lemma_pair_seq_len(k);
    lemma_pairs_upto_shape(k, k);
    let bits = mask_bits(k, id, l);
    let m = mask_val(k, id, l);
    lemma_bits_val_bound(bits);
    let cm = class_adj(m, k);
    assert forall|a: usize, b: usize| a < k && b < k && a != b implies #[trigger] cm(a, b) == l(a, b) by {
        let (lo, hi) = if a < b { (a, b) } else { (b, a) };
        lemma_pair_at_index(k, lo as nat, hi as nat);
        let bi = pair_index(k, lo as nat, hi as nat);
        lemma_bits_val_bit(bits, bi as nat);
        assert(bits[bi] == l(id[lo as int], id[hi as int]));
        assert(id[lo as int] == lo && id[hi as int] == hi);
        assert(mask_bit(m, bi) == bits[bi]);
        assert(l(a, b) == l(b, a));
    }
    lemma_local_connected(g, k, q);
    lemma_connected_agree(below(k), l, cm);
    assert(relabels(id, k, l, cm)) by {
        assert forall|i: usize, j: usize| i < k && j < k && i != j implies #[trigger] cm(i, j) == l(id[i as int], id[j as int]) by {
            assert(id[i as int] == i && id[j as int] == j);
        }
    }
    lemma_canon_of_isomorphic(k, l, cm);
    assert(is_connected_class(k, seq_class(g, k, q)));
}

/// A positive count has a witness.
pub proof fn lemma_count_where_witness(qs: Seq<Seq<usize>>, p: spec_fn(Seq<usize>) -> bool)
    requires
        count_where(qs, p) > 0,
    ensures
        exists|i: int| 0 <= i < qs.len() && #[trigger] p(qs[i]),
    decreases qs.len(),
{
    if !p(qs[0]) {
        lemma_count_where_witness(qs.drop_first(), p);
        let i = choose|i: int| 0 <= i < qs.drop_first().len() && #[trigger] p(qs.drop_first()[i]);
        assert(qs[i + 1] == qs.drop_first()[i]);
    }
}

/// `count_where` grows by one entry at a time.
pub proof fn lemma_count_where_push(qs: Seq<Seq<usize>>, q: Seq<usize>, p: spec_fn(Seq<usize>) -> bool)
    ensures
        count_where(qs.push(q), p) == count_where(qs, p) + (if p(q) { 1nat } else { 0nat }),
        count_where(qs, p) <= qs.len(),
    decreases qs.len(),
{
    let b = if p(q) { 1nat } else { 0nat };
    if qs.len() == 0 {
        assert(qs.push(q).drop_first() =~= Seq::<Seq<usize>>::empty());
        assert(qs.push(q)[0] == q);
        assert(count_where(Seq::<Seq<usize>>::empty(), p) == 0);
        assert(count_where(qs.push(q), p) == b + count_where(qs.push(q).drop_first(), p));
    } else {
        lemma_count_where_push(qs.drop_first(), q, p);
        assert(qs.push(q).drop_first() =~= qs.drop_first().push(q));
        assert(qs.push(q)[0] == qs[0]);
        let a = if p(qs[0]) { 1nat } else { 0nat };
        assert(count_where(qs.push(q), p) == a + count_where(qs.push(q).drop_first(), p));
        assert(count_where(qs, p) == a + count_where(qs.drop_first(), p));
    }
}

// ---------------------------------------------------------------------------
// Selecting the order
// ---------------------------------------------------------------------------

/// The largest supported graphlet order: a class is a `u64` canonical mask of
/// `k(k-1)/2` bits, and `k = 11` needs 55.
pub const MAX_K: usize = 11;

/// What to enumerate: connected induced subgraphs of order `k`, `2 <= k <= MAX_K`.
#[derive(Clone, Copy, Debug)]
pub struct Selector {
    k: usize,
}

impl Selector {
    #[verifier::type_invariant]
    spec fn inv(self) -> bool {
        2 <= self.k <= MAX_K
    }

    /// The order this selector enumerates.
    pub closed spec fn order(self) -> usize {
        self.k
    }

    /// Select connected induced `k`-subsets.
    pub fn connected_k_subsets(k: usize) -> (r: Self)
        requires
            2 <= k <= MAX_K,
        ensures
            r.order() == k,
    {
        Selector { k }
    }

    /// The subgraph order this selector enumerates.
    pub fn k(&self) -> (r: usize)
        ensures
            r == self.order(),
            2 <= r <= MAX_K,
    {
        proof { use_type_invariant(self); }
        self.k
    }
}

// ---------------------------------------------------------------------------
// The census map
// ---------------------------------------------------------------------------

/// A class -> count map: the readout of a [`count`] fold. Classes are kept in the
/// order they were first met.
pub struct Census {
    counts: HashMap<u64, u64>,
    keys: Vec<u64>,
}

impl Census {
    #[verifier::type_invariant]
    spec fn inv(self) -> bool {
        &&& self.keys@.no_duplicates()
        &&& self.keys@.to_set() == self.counts@.dom()
    }

    /// Count per class mask.
    pub closed spec fn view(&self) -> Map<u64, u64> {
        self.counts@
    }

    /// The empty census.
    pub fn new() -> (r: Self)
        ensures
            r@ == Map::<u64, u64>::empty(),
    {
        let counts: HashMap<u64, u64> = HashMap::new();
        let keys: Vec<u64> = Vec::new();
        assert(keys@.to_set() =~= counts@.dom());
        Census { counts, keys }
    }

    /// Record `n` subgraphs of class `class`, replacing any count it had.
    pub(crate) fn with(self, class: u64, n: u64) -> (r: Self)
        ensures
            r@ == self@.insert(class, n),
    {
        proof { use_type_invariant(&self); }
        let ghost k0 = self.keys@;
        let ghost v0 = self@;
        let Census { mut counts, mut keys } = self;
        if !counts.contains_key(&class) {
            keys.push(class);
            proof {
                assert(!k0.contains(class)) by {
                    assert(!k0.to_set().contains(class));
                }
                assert(keys@.no_duplicates()) by {
                    assert forall|i: int, j: int| 0 <= i < j < keys@.len() implies keys@[i] != keys@[j] by {
                        if j == k0.len() {
                            assert(k0.contains(keys@[i]) || true);
                            if keys@[i] == class {
                                assert(k0[i] == class);
                            }
                        } else {
                            assert(keys@[i] == k0[i] && keys@[j] == k0[j]);
                        }
                    }
                }
            }
        }
        counts.insert(class, n);
        proof {
            assert(keys@.to_set() =~= counts@.dom()) by {
                assert forall|c: u64| keys@.to_set().contains(c) <==> counts@.dom().contains(c) by {
                    if keys@.contains(c) && c != class {
                        let i = choose|i: int| 0 <= i < keys@.len() && keys@[i] == c;
                        assert(k0[i] == c);
                        assert(k0.to_set().contains(c));
                    }
                    if counts@.dom().contains(c) && c != class {
                        assert(k0.to_set().contains(c));
                        let i = choose|i: int| 0 <= i < k0.len() && k0[i] == c;
                        assert(keys@[i] == c);
                    }
                    if c == class {
                        if k0.contains(class) {
                            let i = choose|i: int| 0 <= i < k0.len() && k0[i] == c;
                            assert(keys@[i] == c);
                        } else {
                            assert(keys@[keys@.len() - 1] == c);
                        }
                    }
                }
            }
        }
        let r = Census { counts, keys };
        proof { assert(counts@ == v0.insert(class, n)); }
        r
    }

    /// The count of `class`, if any subgraph of that class was counted.
    pub fn get(&self, class: &ClassId) -> (r: Option<u64>)
        ensures
            r == (if self@.contains_key(class.0) { Some(self@[class.0]) } else { None::<u64> }),
    {
        match self.counts.get(&class.0) {
            Some(n) => Some(*n),
            None => None,
        }
    }

    /// Number of classes present.
    pub fn len(&self) -> (r: usize)
        ensures
            r == self@.dom().len(),
    {
        proof {
            use_type_invariant(self);
            self.keys@.unique_seq_to_set();
        }
        self.keys.len()
    }

    /// Whether no class is present.
    pub fn is_empty(&self) -> (r: bool)
        ensures
            r == (self@.dom().len() == 0),
    {
        self.len() == 0
    }

    /// The classes present, in the order they were first met.
    pub closed spec fn classes(&self) -> Seq<u64> {
        self.keys@
    }

    /// The key list and the count map, read-only.
    pub(crate) fn parts(&self) -> (r: (&Vec<u64>, &HashMap<u64, u64>))
        ensures
            r.0@ == self.classes(),
            r.1@ == self@,
            self.classes().no_duplicates(),
            self.classes().to_set() == self@.dom(),
    {
        proof { use_type_invariant(self); }
        (&self.keys, &self.counts)
    }

    /// The classes present, each once, in the order they were first met.
    pub fn keys(&self) -> (r: Vec<ClassId>)
        ensures
            r@.len() == self.classes().len(),
            forall|i: int| 0 <= i < r@.len() ==> (#[trigger] r@[i]).0 == self.classes()[i],
            self.classes().no_duplicates(),
            self.classes().to_set() == self@.dom(),
            self.classes().len() == self@.dom().len(),
    {
        proof {
            use_type_invariant(self);
            self.keys@.unique_seq_to_set();
        }
        let mut r: Vec<ClassId> = Vec::new();
        let mut t: usize = 0;
        while t < self.keys.len()
            invariant
                t <= self.keys@.len(),
                r@.len() == t,
                forall|i: int| 0 <= i < t ==> (#[trigger] r@[i]).0 == self.keys@[i],
            decreases self.keys@.len() - t,
        {
            r.push(ClassId(self.keys[t]));
            t += 1;
        }
        r
    }

    /// `(class, count)` for every class present, in [`Census::keys`] order.
    pub fn iter(&self) -> (r: Vec<(ClassId, u64)>)
        ensures
            r@.len() == self.classes().len(),
            forall|i: int| 0 <= i < r@.len() ==> (#[trigger] r@[i]).0.0 == self.classes()[i] && r@[i].1 == self@[self.classes()[i]],
            self.classes().no_duplicates(),
            self.classes().to_set() == self@.dom(),
            self.classes().len() == self@.dom().len(),
    {
        proof {
            use_type_invariant(self);
            self.keys@.unique_seq_to_set();
        }
        let mut r: Vec<(ClassId, u64)> = Vec::new();
        let mut t: usize = 0;
        while t < self.keys.len()
            invariant
                t <= self.keys@.len(),
                r@.len() == t,
                self.keys@.to_set() == self.counts@.dom(),
                forall|i: int| 0 <= i < t ==> (#[trigger] r@[i]).0.0 == self.keys@[i] && r@[i].1 == self.counts@[self.keys@[i]],
            decreases self.keys@.len() - t,
        {
            let c = self.keys[t];
            proof { assert(self.keys@.to_set().contains(c)); }
            let n = match self.counts.get(&c) {
                Some(n) => *n,
                None => 0,
            };
            r.push((ClassId(c), n));
            t += 1;
        }
        r
    }

    /// The counts, in [`Census::keys`] order.
    pub fn values(&self) -> (r: Vec<u64>)
        ensures
            r@.len() == self.classes().len(),
            forall|i: int| 0 <= i < r@.len() ==> #[trigger] r@[i] == self@[self.classes()[i]],
            self.classes().no_duplicates(),
            self.classes().to_set() == self@.dom(),
    {
        let pairs = self.iter();
        let mut r: Vec<u64> = Vec::new();
        let mut t: usize = 0;
        while t < pairs.len()
            invariant
                t <= pairs@.len(),
                r@.len() == t,
                forall|i: int| 0 <= i < t ==> #[trigger] r@[i] == pairs@[i].1,
            decreases pairs@.len() - t,
        {
            r.push(pairs[t].1);
            t += 1;
        }
        r
    }
}

// ---------------------------------------------------------------------------
// Counting
// ---------------------------------------------------------------------------

/// `q` lists `k` vertices of `g`.
pub open spec fn lists_k(g: Seq<Seq<usize>>, k: nat, q: Seq<usize>) -> bool {
    &&& q.len() == k
    &&& forall|t: int| 0 <= t < q.len() ==> (#[trigger] q[t]) < g.len()
}

/// The subsets seen so far whose class is `c`.
pub open spec fn class_is(g: Seq<Seq<usize>>, k: nat, c: nat) -> spec_fn(Seq<usize>) -> bool {
    |q: Seq<usize>| seq_class(g, k, q) == c
}

/// Counting a class over the enumerated listings gives its census count.
pub proof fn lemma_listed_census(g: Seq<Seq<usize>>, k: nat, c: nat)
    requires
        simple_graph(g),
        1 <= k <= usize::MAX,
    ensures
        count_where(esu_all(g, k), class_is(g, k, c)) == census_count(g, k, c),
{
    let es = esu_all(g, k);
    lemma_esu_all(g, k);
    let p = |s: Set<usize>| set_class(g, k, s) == c;
    let p2 = |q: Seq<usize>| p(q.to_set());
    assert forall|i: int| 0 <= i < es.len() implies class_is(g, k, c)(#[trigger] es[i]) == p2(es[i]) by {
        assert(valid_out(g, k, es[i]));
        lemma_seq_class_of_set(g, k, es[i]);
    }
    lemma_count_where_ext(es, class_is(g, k, c), p2);
    lemma_count_sets(es, p);
    assert(census_count(g, k, c) == conn_k_sets(g, k).filter(p).len());
}

/// Folds each visited subset's class into per-class counts.
struct CountSink<'a> {
    adj: &'a Adjacency,
    k: usize,
    ps: Vec<Vec<usize>>,
    counts: HashMap<u64, u64>,
    keys: Vec<u64>,
    seen: Ghost<Seq<Seq<usize>>>,
}

impl<'a> CountSink<'a> {
    spec fn wf(&self) -> bool {
        &&& self.adj.wf()
        &&& simple_graph(self.adj.graph())
        &&& 1 <= self.k <= MASK_K
        &&& all_perms(self.ps.deep_view(), self.k as nat)
        &&& self.keys@.no_duplicates()
        &&& self.keys@.to_set() == self.counts@.dom()
        &&& self.seen@.len() <= u64::MAX
        &&& forall|c: u64| #[trigger] self.counts@.contains_key(c)
            <==> count_where(self.seen@, class_is(self.adj.graph(), self.k as nat, c as nat)) > 0
        &&& forall|c: u64| #[trigger] self.counts@.contains_key(c)
            ==> self.counts@[c] == count_where(self.seen@, class_is(self.adj.graph(), self.k as nat, c as nat))
    }
}

impl<'a> SubsetSink for CountSink<'a> {
    type Params = (Seq<Seq<usize>>, usize);

    closed spec fn params(&self) -> (Seq<Seq<usize>>, usize) {
        (self.adj.graph(), self.k)
    }

    closed spec fn admits(&self, q: Seq<usize>) -> bool {
        lists_k(self.adj.graph(), self.k as nat, q)
    }

    closed spec fn room(&self) -> nat {
        if self.wf() { (u64::MAX - self.seen@.len()) as nat } else { 0 }
    }

    closed spec fn seen(&self) -> Seq<Seq<usize>> {
        self.seen@
    }

    fn visit(&mut self, q: &Vec<usize>) {
        let ghost g = self.adj.graph();
        let ghost k = self.k as nat;
        let ghost f = local_adj(g, q@);
        let adj = self.adj;
        proof { adj.lemma_graph(); }
        let is_adj = |i: usize, j: usize| -> (r: bool)
            requires
                i < q@.len(),
                j < q@.len(),
                adj.wf(),
                forall|t: int| 0 <= t < q@.len() ==> (#[trigger] q@[t]) < adj.lists@.len(),
            ensures
                r == list_adj(adj.graph())(q@[i as int], q@[j as int]),
        {
            proof { adj.lemma_graph(); }
            adj.adjacent(q[i], q[j])
        };
        let c = canonical_fn(self.k, &self.ps, is_adj, Ghost(f));
        let ghost s0 = self.seen@;
        proof {
            lemma_count_where_push(s0, q@, class_is(g, k, c as nat));
        }
        match self.counts.get(&c) {
            Some(n) => {
                let n1 = *n + 1;
                self.counts.insert(c, n1);
            },
            None => {
                self.counts.insert(c, 1);
                self.keys.push(c);
                proof {
                    assert(!s0.contains(q@) || true);
                }
            },
        }
        self.seen = Ghost(s0.push(q@));
        proof {
            assert forall|d: u64| #[trigger] self.counts@.contains_key(d)
                <==> count_where(self.seen@, class_is(g, k, d as nat)) > 0 by {
                lemma_count_where_push(s0, q@, class_is(g, k, d as nat));
            }
            assert forall|d: u64| #[trigger] self.counts@.contains_key(d)
                implies self.counts@[d] == count_where(self.seen@, class_is(g, k, d as nat)) by {
                lemma_count_where_push(s0, q@, class_is(g, k, d as nat));
            }
            assert forall|x: u64| self.keys@.to_set().contains(x) <==> self.counts@.dom().contains(x) by {
                if self.keys@.to_set().contains(x) && !old(self).keys@.to_set().contains(x) {
                    assert(x == c);
                }
                if old(self).keys@.to_set().contains(x) {
                    let i = choose|i: int| 0 <= i < old(self).keys@.len() && old(self).keys@[i] == x;
                    assert(self.keys@[i] == x);
                }
                if x == c {
                    assert(self.keys@[self.keys@.len() - 1] == x || old(self).keys@.to_set().contains(x));
                }
            }
            assert(self.keys@.to_set() =~= self.counts@.dom());
        }
    }
}

/// Fold the census of connected induced subgraphs of order `sel.k()`: each class
/// maps to the number of connected `k`-node vertex sets inducing it.
pub fn count<N>(g: &Snapshot<N>, sel: &Selector) -> (r: Census)
    requires
        conn_k_sets(g.graph(), sel.order() as nat).len() < u64::MAX,
    ensures
        forall|c: u64| #[trigger] r@.contains_key(c) <==> census_count(g.graph(), sel.order() as nat, c as nat) > 0,
        forall|c: u64| #[trigger] r@.contains_key(c) ==> r@[c] == census_count(g.graph(), sel.order() as nat, c as nat),
        forall|c: u64| #[trigger] r@.contains_key(c) ==> is_connected_class(sel.order() as nat, c as nat),
{
    let k = sel.k();
    let adj = g.adjacency();
    let ghost gr = adj.graph();
    let ps = perms(k);
    let mut sink = CountSink { adj, k, ps, counts: HashMap::new(), keys: Vec::new(), seen: Ghost(Seq::empty()) };
    proof {
        assert(sink.keys@.to_set() =~= sink.counts@.dom());
        lemma_esu_all(gr, k as nat);
        sets_of(esu_all(gr, k as nat)).unique_seq_to_set();
        assert(sets_of(esu_all(gr, k as nat)).len() == esu_all(gr, k as nat).len());
        assert forall|q: Seq<usize>| valid_out(gr, k as nat, q) implies #[trigger] sink.admits(q) by {}
        assert forall|c: u64| #[trigger] sink.counts@.contains_key(c)
            <==> count_where(sink.seen@, class_is(gr, k as nat, c as nat)) > 0 by {
            assert(count_where(sink.seen@, class_is(gr, k as nat, c as nat)) == 0);
        }
        assert(sink.wf());
        assert(sink.room() == u64::MAX);
    }
    for_each_subset(adj, k, &mut sink);
    let ghost es = esu_all(gr, k as nat);
    proof {
        assert(sink.seen@ =~= es);
        assert(sink.room() > 0);
        assert(sink.wf());
    }
    let ghost cm = sink.counts@;
    proof {
        assert forall|c: u64| #[trigger] cm.contains_key(c) <==> count_where(es, class_is(gr, k as nat, c as nat)) > 0 by {
            assert(sink.counts@.contains_key(c) <==> count_where(sink.seen@, class_is(sink.adj.graph(), sink.k as nat, c as nat)) > 0);
        }
        assert forall|c: u64| #[trigger] cm.contains_key(c) implies cm[c] == count_where(es, class_is(gr, k as nat, c as nat)) by {
            assert(sink.counts@.contains_key(c) ==> sink.counts@[c] == count_where(sink.seen@, class_is(sink.adj.graph(), sink.k as nat, c as nat)));
        }
        assert forall|c: u64| count_where(es, class_is(gr, k as nat, c as nat)) == census_count(gr, k as nat, c as nat) by {
            lemma_listed_census(gr, k as nat, c as nat);
        }
    }
    let r = Census { counts: sink.counts, keys: sink.keys };
    proof {
        assert(r@ == cm);
        assert forall|c: u64| #[trigger] r@.contains_key(c) <==> census_count(g.graph(), sel.order() as nat, c as nat) > 0 by {
            assert(count_where(es, class_is(gr, k as nat, c as nat)) == census_count(gr, k as nat, c as nat));
            assert(cm.contains_key(c) <==> count_where(es, class_is(gr, k as nat, c as nat)) > 0);
        }
        assert forall|c: u64| #[trigger] r@.contains_key(c) implies is_connected_class(sel.order() as nat, c as nat) by {
            assert(cm.contains_key(c));
            lemma_count_where_witness(es, class_is(gr, k as nat, c as nat));
            let i = choose|i: int| 0 <= i < es.len() && #[trigger] class_is(gr, k as nat, c as nat)(es[i]);
            assert(valid_out(gr, k as nat, es[i]));
            lemma_seq_class_connected(gr, k as nat, es[i]);
        }
        assert forall|c: u64| #[trigger] r@.contains_key(c) implies r@[c] == census_count(g.graph(), sel.order() as nat, c as nat) by {
            assert(count_where(es, class_is(gr, k as nat, c as nat)) == census_count(gr, k as nat, c as nat));
            assert(cm.contains_key(c));
            assert(cm[c] == count_where(es, class_is(gr, k as nat, c as nat)));
        }
    }
    r
}

// ---------------------------------------------------------------------------
// Enumerating instances
// ---------------------------------------------------------------------------

/// One connected induced k-subgraph: its node ids and its graphlet class.
#[derive(Clone, Debug)]
pub struct Instance<N> {
    /// The matched vertices, in ESU discovery order.
    pub nodes: Vec<N>,
    /// The canonical graphlet class.
    pub class: ClassId,
}

/// A stack frame of the traversal: the extension still to drain at this depth and
/// the root anchoring the current tree.
struct Frame {
    ext: Vec<usize>,
    v: usize,
}

/// Lazy iterator over the connected induced k-subgraphs of a snapshot, as an
/// explicit ESU stack: it never holds more than the current root-to-leaf path.
pub struct Instances<N> {
    snapshot: Snapshot<N>,
    k: usize,
    ps: Vec<Vec<usize>>,
    next_root: usize,
    frames: Vec<Frame>,
    sub: Vec<usize>,
}

/// The node ids of the vertices listed in `q`.
pub open spec fn ids_of<N>(ids: Seq<N>, q: Seq<usize>) -> Seq<N> {
    q.map_values(|i: usize| ids[i as int])
}

impl<N> Instances<N> {
    spec fn exts(&self) -> Seq<Seq<usize>> {
        self.frames@.map_values(|f: Frame| f.ext@)
    }

    spec fn root(&self) -> usize {
        (self.next_root - 1) as usize
    }

    /// The graph being enumerated.
    pub closed spec fn graph(&self) -> Seq<Seq<usize>> {
        self.snapshot.graph()
    }

    /// The node ids of the graph being enumerated.
    pub closed spec fn ids(&self) -> Seq<N> {
        self.snapshot.ids()
    }

    /// The subgraph order.
    pub closed spec fn order(&self) -> nat {
        self.k as nat
    }

    /// The vertex lists still to be produced, in order.
    pub closed spec fn remaining(&self) -> Seq<Seq<usize>> {
        pending(self.graph(), self.k as nat, self.root(), self.sub@, self.exts())
            + esu_roots(self.graph(), self.k as nat, self.next_root as nat)
    }

    spec fn work(&self) -> nat {
        pending_work(self.graph(), self.k as nat, self.root(), self.sub@, self.exts())
            + roots_work(self.graph(), self.k as nat, self.next_root as nat)
    }

    pub closed spec fn wf(&self) -> bool {
        &&& 2 <= self.k <= MASK_K
        &&& all_perms(self.ps.deep_view(), self.k as nat)
        &&& self.next_root <= self.graph().len()
        &&& self.sub@.len() == self.frames@.len()
        &&& self.frames@.len() < self.k
        &&& self.frames@.len() > 0 ==> self.next_root >= 1
        &&& forall|i: int| 0 <= i < self.frames@.len() ==> (#[trigger] self.frames@[i]).v == self.root()
        &&& forall|i: int| 0 <= i < self.frames@.len() ==>
            frame_ok(self.graph(), self.k as nat, self.root(), self.sub@.take(i + 1), #[trigger] self.exts()[i])
    }
}

/// The class of the subgraph induced on the listed vertices.
fn class_of_sub<N>(snapshot: &Snapshot<N>, k: usize, ps: &Vec<Vec<usize>>, q: &Vec<usize>) -> (c: ClassId)
    requires
        k <= MASK_K,
        all_perms(ps.deep_view(), k as nat),
        q@.len() == k,
        forall|t: int| 0 <= t < q@.len() ==> (#[trigger] q@[t]) < snapshot.graph().len(),
    ensures
        c.0 == seq_class(snapshot.graph(), k as nat, q@),
{
    let adj = snapshot.adjacency();
    let ghost f = local_adj(adj.graph(), q@);
    let is_adj = |i: usize, j: usize| -> (r: bool)
        requires
            i < q@.len(),
            j < q@.len(),
            adj.wf(),
            forall|t: int| 0 <= t < q@.len() ==> (#[trigger] q@[t]) < adj.lists@.len(),
        ensures
            r == list_adj(adj.graph())(q@[i as int], q@[j as int]),
    {
        proof { adj.lemma_graph(); }
        adj.adjacent(q[i], q[j])
    };
    ClassId(canonical_fn(k, ps, is_adj, Ghost(f)))
}

impl<N: Copy> Instances<N> {
    /// Open the frame of the next root.
    fn start_root(&mut self)
        requires
            old(self).wf(),
            old(self).frames@.len() == 0,
            old(self).next_root < old(self).graph().len(),
        ensures
            final(self).wf(),
            final(self).graph() == old(self).graph(),
            final(self).ids() == old(self).ids(),
            final(self).k == old(self).k,
            final(self).remaining() == old(self).remaining(),
            final(self).work() < old(self).work(),
    {
        let ghost g = self.graph();
        let ghost k = self.k as nat;
        let adj = self.snapshot.adjacency();
        proof { adj.lemma_graph(); }
        let v = self.next_root;
        let empty: Vec<usize> = Vec::new();
        let ext = exclusive_ext(adj, &empty, v, v, &empty);
        let ghost old_work = self.work();
        let ghost rem0 = self.remaining();
        proof {
            assert(empty@ =~= Seq::<usize>::empty());
            assert(ext@ =~= root_ext(g, v));
            lemma_root_frame(g, k, v);
            assert(self.exts() =~= Seq::<Seq<usize>>::empty());
            assert(self.sub@.len() == 0);
        }
        self.next_root = v + 1;
        self.sub.push(v);
        self.frames.push(Frame { ext, v });
        proof {
            assert(self.sub@ =~= seq![v]);
            assert(self.exts() =~= seq![root_ext(g, v)]);
            assert(self.sub@.take(1) =~= seq![v]);
            assert(self.exts().drop_last() =~= Seq::<Seq<usize>>::empty());
            assert(self.exts().last() == root_ext(g, v));
            assert(pending(g, k, v, self.sub@, self.exts().drop_last()) =~= Seq::<Seq<usize>>::empty());
            assert(pending(g, k, v, self.sub@, self.exts()) == esu_seq(g, k, v, self.sub@.take(1), self.exts().last()) + Seq::<Seq<usize>>::empty());
            assert(pending(g, k, v, self.sub@, self.exts()) =~= esu_seq(g, k, v, seq![v], root_ext(g, v)));
            assert(pending_work(g, k, v, self.sub@, self.exts().drop_last()) == 0);
            assert(esu_roots(g, k, v as nat) == esu_seq(g, k, v, seq![v], root_ext(g, v)) + esu_roots(g, k, (v + 1) as nat));
            assert(self.remaining() =~= rem0);
            assert(pending_work(g, k, v, self.sub@, self.exts()) == esu_work(g, k, v, seq![v], root_ext(g, v)));
        }
    }

    /// Close the top frame, whose extension is drained.
    fn close_frame(&mut self)
        requires
            old(self).wf(),
            old(self).frames@.len() > 0,
            old(self).frames@.last().ext@.len() == 0,
        ensures
            final(self).wf(),
            final(self).graph() == old(self).graph(),
            final(self).ids() == old(self).ids(),
            final(self).k == old(self).k,
            final(self).remaining() == old(self).remaining(),
            final(self).work() < old(self).work(),
    {
        let ghost g = self.graph();
        let ghost k = self.k as nat;
        let ghost exts0 = self.exts();
        let ghost sub0 = self.sub@;
        let ghost root = self.root();
        let ghost d = self.frames@.len() as int;
        let ghost rem0 = self.remaining();
        proof {
            assert(sub0.take(d) =~= sub0);
            assert(exts0[d - 1] == self.frames@.last().ext@);
            assert(frame_ok(g, k, root, sub0.take(d), exts0[d - 1]));
            assert(pending(g, k, root, sub0, exts0) == esu_seq(g, k, root, sub0, exts0[d - 1]) + pending(g, k, root, sub0, exts0.drop_last()));
            assert(pending_work(g, k, root, sub0, exts0) == esu_work(g, k, root, sub0, exts0[d - 1]) + pending_work(g, k, root, sub0, exts0.drop_last()));
            assert(esu_seq(g, k, root, sub0, exts0[d - 1]) =~= Seq::<Seq<usize>>::empty());
        }
        self.frames.pop();
        self.sub.pop();
        proof {
            assert(self.exts() =~= exts0.drop_last());
            assert(self.sub@ =~= sub0.drop_last());
            assert(sub0.take(d - 1) =~= self.sub@.take(d - 1));
            lemma_pending_prefix(g, k, root, sub0, self.sub@, exts0.drop_last());
            assert(self.remaining() =~= rem0);
            assert forall|i: int| 0 <= i < self.frames@.len() implies
                frame_ok(g, k, self.root(), self.sub@.take(i + 1), #[trigger] self.exts()[i]) by {
                assert(self.sub@.take(i + 1) =~= sub0.take(i + 1));
                assert(self.exts()[i] == exts0[i]);
            }
        }
    }

    /// Move one vertex `w` from the top frame's extension into a new child frame.
    fn descend(&mut self)
        requires
            old(self).wf(),
            old(self).frames@.len() > 0,
            old(self).frames@.last().ext@.len() > 0,
            old(self).sub@.len() + 1 < old(self).k,
        ensures
            final(self).wf(),
            final(self).graph() == old(self).graph(),
            final(self).ids() == old(self).ids(),
            final(self).k == old(self).k,
            final(self).remaining() == old(self).remaining(),
            final(self).work() < old(self).work(),
    {
        let ghost g = self.graph();
        let ghost k = self.k as nat;
        let ghost exts0 = self.exts();
        let ghost sub0 = self.sub@;
        let ghost root = self.root();
        let ghost d = self.frames@.len() as int;
        let ghost rem0 = self.remaining();
        let adj = self.snapshot.adjacency();
        proof {
            adj.lemma_graph();
            assert(sub0.take(d) =~= sub0);
            assert(exts0[d - 1] == self.frames@.last().ext@);
            assert(frame_ok(g, k, root, sub0.take(d), exts0[d - 1]));
            assert(pending(g, k, root, sub0, exts0) == esu_seq(g, k, root, sub0, exts0[d - 1]) + pending(g, k, root, sub0, exts0.drop_last()));
            assert(pending_work(g, k, root, sub0, exts0) == esu_work(g, k, root, sub0, exts0[d - 1]) + pending_work(g, k, root, sub0, exts0.drop_last()));
        }
        let mut fr = self.frames.pop().unwrap();
        let ghost ext0 = fr.ext@;
        let w = fr.ext.pop().unwrap();
        let v = fr.v;
        let ghost rest = fr.ext@;
        proof {
            assert(v == root);
            assert(rest == ext0.drop_last());
            assert(w == ext0.last());
            lemma_split(g, k, root, sub0, ext0);
            assert(frontier(g, sub0, root, ext0[ext0.len() - 1]));
        }
        let child = exclusive_ext(adj, &self.sub, w, v, &fr.ext);
        self.frames.push(fr);
        self.sub.push(w);
        self.frames.push(Frame { ext: child, v });
        proof {
            let ch = child_ext(g, sub0, w, root, rest);
            assert(child@ == ch);
            assert(self.exts() =~= exts0.drop_last().push(rest).push(ch));
            assert(self.sub@ =~= sub0.push(w));
            assert(self.sub@.take(d + 1) =~= sub0.push(w));
            assert(self.sub@.take(d) =~= sub0);
            assert(self.exts().drop_last() =~= exts0.drop_last().push(rest));
            assert(self.exts().drop_last().drop_last() =~= exts0.drop_last());
            assert(self.sub@.take(d - 1) =~= sub0.take(d - 1));
            lemma_pending_prefix(g, k, root, sub0, self.sub@, exts0.drop_last());
            let e1 = exts0.drop_last().push(rest);
            let s1 = self.sub@;
            assert(self.exts().last() == ch);
            assert(e1.last() == rest);
            assert(e1.drop_last() =~= exts0.drop_last());
            assert(pending(g, k, root, s1, e1) == esu_seq(g, k, root, s1.take(d), rest) + pending(g, k, root, s1, exts0.drop_last()));
            assert(pending(g, k, root, s1, self.exts()) == esu_seq(g, k, root, s1.take(d + 1), ch) + pending(g, k, root, s1, e1));
            assert(pending_work(g, k, root, s1, e1) == esu_work(g, k, root, s1.take(d), rest) + pending_work(g, k, root, s1, exts0.drop_last()));
            assert(pending_work(g, k, root, s1, self.exts()) == esu_work(g, k, root, s1.take(d + 1), ch) + pending_work(g, k, root, s1, e1));
            assert(esu_seq(g, k, root, sub0, ext0) == esu_seq(g, k, root, sub0.push(w), ch) + esu_seq(g, k, root, sub0, rest));
            assert(esu_work(g, k, root, sub0, ext0) == esu_work(g, k, root, sub0.push(w), ch) + esu_work(g, k, root, sub0, rest) + 1);
            assert(self.remaining() =~= rem0);
            assert forall|i: int| 0 <= i < self.frames@.len() implies
                frame_ok(g, k, self.root(), self.sub@.take(i + 1), #[trigger] self.exts()[i]) by {
                if i < d - 1 {
                    assert(self.exts()[i] == exts0[i]);
                    assert(self.sub@.take(i + 1) =~= sub0.take(i + 1));
                } else if i == d - 1 {
                    assert(self.sub@.take(i + 1) =~= sub0);
                }
            }
        }
    }

    /// Take one vertex `w` from the top frame's extension and produce the completed
    /// subset `sub + w`.
    fn emit(&mut self) -> (inst: Instance<N>)
        requires
            old(self).wf(),
            old(self).frames@.len() > 0,
            old(self).frames@.last().ext@.len() > 0,
            old(self).sub@.len() + 1 == old(self).k,
        ensures
            final(self).wf(),
            final(self).graph() == old(self).graph(),
            final(self).ids() == old(self).ids(),
            final(self).k == old(self).k,
            old(self).remaining().len() > 0,
            final(self).remaining() == old(self).remaining().drop_first(),
            inst.nodes@ == ids_of(old(self).ids(), old(self).remaining()[0]),
            inst.class.0 == seq_class(old(self).graph(), old(self).order(), old(self).remaining()[0]),
    {
        let ghost g = self.graph();
        let ghost k = self.k as nat;
        let ghost exts0 = self.exts();
        let ghost sub0 = self.sub@;
        let ghost root = self.root();
        let ghost d = self.frames@.len() as int;
        let ghost rem0 = self.remaining();
        let _n = self.snapshot.adjacency().len();
        proof {
            assert(sub0.take(d) =~= sub0);
            assert(exts0[d - 1] == self.frames@.last().ext@);
            assert(frame_ok(g, k, root, sub0.take(d), exts0[d - 1]));
            assert(pending(g, k, root, sub0, exts0) == esu_seq(g, k, root, sub0, exts0[d - 1]) + pending(g, k, root, sub0, exts0.drop_last()));
        }
        let mut fr = self.frames.pop().unwrap();
        let ghost ext0 = fr.ext@;
        let w = fr.ext.pop().unwrap();
        let ghost rest = fr.ext@;
        proof {
            assert(fr.v == root);
            assert(rest == ext0.drop_last());
            assert(w == ext0.last());
            lemma_split(g, k, root, sub0, ext0);
            assert(frontier(g, sub0, root, ext0[ext0.len() - 1]));
            assert(esu_seq(g, k, root, sub0, ext0) == esu_seq(g, k, root, sub0.push(w), child_ext(g, sub0, w, root, rest)) + esu_seq(g, k, root, sub0, rest));
        }
        self.frames.push(fr);
        self.sub.push(w);
        let ghost q = self.sub@;
        proof {
            assert(frame_ok(g, k, root, sub0.push(w), child_ext(g, sub0, w, root, rest)));
        }
        let class = class_of_sub(&self.snapshot, self.k, &self.ps, &self.sub);
        let mut nodes: Vec<N> = Vec::new();
        let mut t: usize = 0;
        while t < self.sub.len()
            invariant
                t <= self.sub@.len(),
                self.sub@ == q,
                nodes@.len() == t,
                self.snapshot.ids().len() == g.len(),
                forall|s: int| 0 <= s < q.len() ==> (#[trigger] q[s]) < g.len(),
                forall|s: int| 0 <= s < t ==> nodes@[s] == #[trigger] self.snapshot.ids()[q[s] as int],
            decreases self.sub@.len() - t,
        {
            let x = self.snapshot.id(self.sub[t]);
            nodes.push(x);
            t += 1;
        }
        self.sub.pop();
        proof {
            assert(self.sub@ =~= sub0);
            assert(esu_seq(g, k, root, q, child_ext(g, sub0, w, root, rest)) == seq![q]);
            assert(self.exts() =~= exts0.drop_last().push(rest));
            assert(self.sub@.take(d) =~= sub0);
            assert(self.exts().drop_last() =~= exts0.drop_last());
            assert(pending(g, k, root, self.sub@, self.exts()) == esu_seq(g, k, root, sub0, rest) + pending(g, k, root, sub0, exts0.drop_last()));
            assert(rem0 =~= seq![q] + self.remaining());
            assert(rem0[0] == q);
            assert(self.remaining() =~= rem0.drop_first());
            assert(nodes@ =~= ids_of(self.ids(), q));
            assert forall|i: int| 0 <= i < self.frames@.len() implies
                frame_ok(g, k, self.root(), self.sub@.take(i + 1), #[trigger] self.exts()[i]) by {
                if i < d - 1 {
                    assert(self.exts()[i] == exts0[i]);
                }
            }
        }
        Instance { nodes, class }
    }

    /// Advance to the next connected induced subgraph, in ESU order.
    pub fn next(&mut self) -> (r: Option<Instance<N>>)
        requires
            old(self).wf(),
        ensures
            final(self).wf(),
            final(self).graph() == old(self).graph(),
            final(self).ids() == old(self).ids(),
            final(self).order() == old(self).order(),
            match r {
                None => old(self).remaining().len() == 0 && final(self).remaining().len() == 0,
                Some(inst) => {
                    &&& old(self).remaining().len() > 0
                    &&& final(self).remaining() == old(self).remaining().drop_first()
                    &&& inst.nodes@ == ids_of(old(self).ids(), old(self).remaining()[0])
                    &&& inst.class.0 == seq_class(old(self).graph(), old(self).order(), old(self).remaining()[0])
                },
            },
    {
        loop
            invariant
                self.wf(),
                self.graph() == old(self).graph(),
                self.ids() == old(self).ids(),
                self.k == old(self).k,
                self.remaining() == old(self).remaining(),
            decreases self.work(),
        {
            if self.frames.len() == 0 {
                let n = self.snapshot.len();
                if self.next_root >= n {
                    proof {
                        assert(self.exts() =~= Seq::<Seq<usize>>::empty());
                        assert(self.remaining() =~= Seq::<Seq<usize>>::empty());
                    }
                    return None;
                }
                self.start_root();
            } else {
                let last = self.frames.len() - 1;
                if self.frames[last].ext.len() == 0 {
                    self.close_frame();
                } else if self.sub.len() + 1 == self.k {
                    let inst = self.emit();
                    return Some(inst);
                } else {
                    self.descend();
                }
            }
        }
    }
}

/// The stream [`enumerate`] walks (`esu_all`) lists every connected induced
/// `k`-node subgraph exactly once: each listing is `k` distinct nodes whose set is
/// connected, no two listings share their node set, every connected `k`-set is
/// listed, and tallying the listings by class gives the census.
pub proof fn law_enumeration_stream(g: Seq<Seq<usize>>, k: nat)
    requires
        simple_graph(g),
        1 <= k <= usize::MAX,
    ensures
        forall|i: int| 0 <= i < esu_all(g, k).len() ==> valid_out(g, k, #[trigger] esu_all(g, k)[i]),
        forall|i: int, j: int| 0 <= i < j < esu_all(g, k).len()
            ==> (#[trigger] esu_all(g, k)[i]).to_set() != (#[trigger] esu_all(g, k)[j]).to_set(),
        forall|s: Set<usize>| #[trigger] conn_k_sets(g, k).contains(s)
            ==> exists|i: int| 0 <= i < esu_all(g, k).len() && (#[trigger] esu_all(g, k)[i]).to_set() == s,
        forall|c: nat| #[trigger] count_where(esu_all(g, k), class_is(g, k, c)) == census_count(g, k, c),
{
    let es = esu_all(g, k);
    lemma_esu_all(g, k);
    assert forall|i: int, j: int| 0 <= i < j < es.len() implies (#[trigger] es[i]).to_set() != (#[trigger] es[j]).to_set() by {
        assert(sets_of(es)[i] == es[i].to_set() && sets_of(es)[j] == es[j].to_set());
    }
    assert forall|s: Set<usize>| #[trigger] conn_k_sets(g, k).contains(s)
        implies exists|i: int| 0 <= i < es.len() && (#[trigger] es[i]).to_set() == s by {
        assert(sets_of(es).to_set().contains(s));
        let i = choose|i: int| 0 <= i < sets_of(es).len() && sets_of(es)[i] == s;
        assert(es[i].to_set() == s);
    }
    assert forall|c: nat| #[trigger] count_where(es, class_is(g, k, c)) == census_count(g, k, c) by {
        lemma_listed_census(g, k, c);
    }
}

/// Enumerate every connected induced subgraph of order `sel.k()`, lazily, in ESU
/// order; the iterator owns the snapshot.
pub fn enumerate<N>(g: Snapshot<N>, sel: &Selector) -> (r: Instances<N>)
    ensures
        r.wf(),
        r.graph() == g.graph(),
        r.ids() == g.ids(),
        r.order() == sel.order(),
        r.remaining() == esu_all(g.graph(), sel.order() as nat),
{
    let k = sel.k();
    let ps = perms(k);
    let r = Instances { snapshot: g, k, ps, next_root: 0, frames: Vec::new(), sub: Vec::new() };
    proof {
        assert(r.exts() =~= Seq::<Seq<usize>>::empty());
    }
    r
}

} // verus!
