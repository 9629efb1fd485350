//! The directed census: enumerate weakly-connected induced k-subsets (connectivity is
//! read on the undirected union of the arcs), label each by its directed class (arc
//! direction kept), fold the labels into class counts.
use vstd::prelude::*;
use std::collections::HashMap;
use crate::model::{is_perm, relabels, below, id_seq, lemma_id_seq, bits_val, lemma_bits_val_bit, lemma_bits_val_bound};
use crate::dmodel::{dcanon, dmask_bits, dmask_val, dpair_index, dpair_seq, lemma_dpair_seq_len, lemma_dpair_at_index, lemma_dcanon_of_isomorphic};
use crate::dcanonical::{DirectedClassId, DMASK_K, canonical_fn, dclass_arc, und_of, is_weak_class};
use crate::canonical::{all_perms, list_adj, perms, mask_bit};
use crate::esu::{
    SubsetSink, simple_graph, conn_k_sets, valid_out, esu_all, sets_of, count_where, for_each_subset,
    lemma_esu_all, lemma_count_where_ext, lemma_count_sets,
};
use crate::census::{
    local_adj, arrangement, ids_of, lemma_local_connected, lemma_connected_agree,
    lemma_count_where_witness, lemma_count_where_push,
};
use crate::dsnapshot::DirectedSnapshot;

verus! {

broadcast use vstd::std_specs::hash::group_hash_axioms;

// ---------------------------------------------------------------------------
// Directed classes of subsets
// ---------------------------------------------------------------------------

/// The directed subgraph induced on the vertex sequence `q`, over local vertices
/// `0..q.len()`.
pub open spec fn local_arc(ga: Seq<Seq<usize>>, q: Seq<usize>) -> spec_fn(usize, usize) -> bool {
    |i: usize, j: usize| list_adj(ga)(q[i as int], q[j as int])
}

/// The directed class of the subgraph induced on the `k` vertices listed in `q`.
pub open spec fn dseq_class(ga: Seq<Seq<usize>>, k: nat, q: Seq<usize>) -> nat {
    dcanon(k, local_arc(ga, q))
}

/// The directed class of the subgraph induced on the vertex set `s`.
pub open spec fn dset_class(ga: Seq<Seq<usize>>, k: nat, s: Set<usize>) -> nat {
    dseq_class(ga, k, arrangement(s, k))
}

/// How many weakly connected `k`-node vertex sets induce a directed subgraph of
/// class `c`; `gu` is the undirected union of the arcs `ga`.
pub open spec fn dcensus_count(ga: Seq<Seq<usize>>, gu: Seq<Seq<usize>>, k: nat, c: nat) -> nat {
    conn_k_sets(gu, k).filter(|s: Set<usize>| dset_class(ga, k, s) == c).len()
}

/// The directed class of a listing does not depend on the order of the listing.
pub proof fn lemma_dseq_class_of_set(ga: Seq<Seq<usize>>, k: nat, q: Seq<usize>)
    requires
        1 <= k <= usize::MAX,
        q.len() == k,
        q.no_duplicates(),
    ensures
        dseq_class(ga, k, q) == dset_class(ga, k, q.to_set()),
{
    let s = q.to_set();
    assert(q.len() == k && q.no_duplicates() && q.to_set() == s);
    let q2 = arrangement(s, k);
    let sigma = Seq::new(k, |i: int| q.index_of(q2[i]) as usize);
    assert forall|i: int| 0 <= i < k implies 0 <= q.index_of(q2[i]) < k && q[q.index_of(q2[i])] == #[trigger] q2[i] by {
        assert(q2.to_set().contains(q2[i]));
        assert(q.contains(q2[i]));
    }
    assert forall|i: int, j: int| 0 <= i < sigma.len() && 0 <= j < sigma.len() && i != j implies sigma[i] != sigma[j] by {
        assert(q[sigma[i] as int] == q2[i]);
        assert(q[sigma[j] as int] == q2[j]);
    }
    assert forall|i: int| 0 <= i < k implies (#[trigger] sigma[i]) < k by {
        assert(q[q.index_of(q2[i])] == q2[i]);
    }
    let a1 = local_arc(ga, q);
    let a2 = local_arc(ga, q2);
    assert forall|i: usize, j: usize| i < k && j < k && i != j implies #[trigger] a2(i, j) == a1(sigma[i as int], sigma[j as int]) by {
        assert(q[q.index_of(q2[i as int])] == q2[i as int]);
        assert(q[q.index_of(q2[j as int])] == q2[j as int]);
    }
    assert(relabels(sigma, k, a1, a2));
    lemma_dcanon_of_isomorphic(k, a1, a2);
}

/// The directed class of every listed weakly connected `k`-set is a weakly connected
/// class.
pub proof fn lemma_dseq_class_weak(ga: Seq<Seq<usize>>, gu: Seq<Seq<usize>>, k: nat, q: Seq<usize>)
    requires
        simple_graph(gu),
        forall|a: usize, b: usize| #[trigger] list_adj(gu)(a, b) == (list_adj(ga)(a, b) || list_adj(ga)(b, a)),
        1 <= k <= DMASK_K,
        valid_out(gu, k, q),
    ensures
        is_weak_class(k, dseq_class(ga, k, q)),
{
    let l = local_arc(ga, q);
    let id = id_seq(k);
    lemma_id_seq(k);
    lemma_dpair_seq_len(k);
    let bits = dmask_bits(k, id, l);
    let m = dmask_val(k, id, l);
    lemma_bits_val_bound(bits);
    let cm = dclass_arc(m, k);
    assert forall|a: usize, b: usize| a < k && b < k && a != b implies #[trigger] cm(a, b) == l(a, b) by {
        lemma_dpair_at_index(k, a as nat, b as nat);
        let bi = dpair_index(k, a as nat, b as nat);
        lemma_bits_val_bit(bits, bi as nat);
        assert(bits[bi] == l(id[a as int], id[b as int]));
        assert(id[a as int] == a && id[b as int] == b);
    }
    lemma_local_connected(gu, k, q);
    assert forall|a: usize, b: usize| below(k).contains(a) && below(k).contains(b) && a != b implies
        #[trigger] local_adj(gu, q)(a, b) == und_of(cm)(a, b) by {
        assert(cm(a, b) == l(a, b));
        assert(cm(b, a) == l(b, a));
    }
    lemma_connected_agree(below(k), local_adj(gu, q), und_of(cm));
    assert(relabels(id, k, l, cm)) by {
        assert forall|i: usize, j: usize| i < k && j < k && i != j implies #[trigger] cm(i, j) == l(id[i as int], id[j as int]) by {
            assert(id[i as int] == i && id[j as int] == j);
        }
    }
    lemma_dcanon_of_isomorphic(k, l, cm);
    assert(m < vstd::arithmetic::power2::pow2(dpair_seq(k).len()));
    assert(is_weak_class(k, dseq_class(ga, k, q)));
}

// ---------------------------------------------------------------------------
// Selecting the order
// ---------------------------------------------------------------------------

/// The largest supported directed-graphlet order: canonical labelling exhausts `k!`
/// permutations of a `k(k-1)`-bit mask.
pub const MAX_K: usize = 5;

/// What to enumerate: weakly-connected induced directed subgraphs of order `k`,
/// `2 <= k <= MAX_K`.
#[derive(Clone, Copy, Debug)]
pub struct DirectedSelector {
    k: usize,
}

impl DirectedSelector {
    #[verifier::type_invariant]
    spec fn inv(self) -> bool {
        2 <= self.k <= MAX_K
    }

    /// The order this selector enumerates.
    pub closed spec fn order(self) -> usize {
        self.k
    }

    /// Select weakly-connected induced directed k-subsets.
    pub fn weakly_connected_k_subsets(k: usize) -> (r: Self)
        requires
            2 <= k <= MAX_K,
        ensures
            r.order() == k,
    {
        DirectedSelector { k }
    }

    /// The subgraph order this selector enumerates.
    pub fn k(&self) -> (r: usize)
        ensures
            r == self.order(),
            2 <= r <= MAX_K,
    {
        proof { use_type_invariant(self); }
        self.k
    }
}

// ---------------------------------------------------------------------------
// The census map
// ---------------------------------------------------------------------------

/// A directed class -> count map: the readout of a [`count_directed`] fold. Classes
/// are kept in the order they were first met.
pub struct DirectedCensus {
    counts: HashMap<u64, u64>,
    keys: Vec<u64>,
}

impl DirectedCensus {
    #[verifier::type_invariant]
    spec fn inv(self) -> bool {
        &&& self.keys@.no_duplicates()
        &&& self.keys@.to_set() == self.counts@.dom()
    }

    /// Count per class mask.
    pub closed spec fn view(&self) -> Map<u64, u64> {
        self.counts@
    }

    /// The count of `class`, if any subgraph of that class was counted.
    pub fn get(&self, class: &DirectedClassId) -> (r: Option<u64>)
        ensures
            r == (if self@.contains_key(class.0) { Some(self@[class.0]) } else { None::<u64> }),
    {
        match self.counts.get(&class.0) {
            Some(n) => Some(*n),
            None => None,
        }
    }

    /// Number of classes present.
    pub fn len(&self) -> (r: usize)
        ensures
            r == self@.dom().len(),
    {
        proof {
            use_type_invariant(self);
            self.keys@.unique_seq_to_set();
        }
        self.keys.len()
    }

    /// Whether no class is present.
    pub fn is_empty(&self) -> (r: bool)
        ensures
            r == (self@.dom().len() == 0),
    {
        self.len() == 0
    }

    /// The classes present, in the order they were first met.
    pub closed spec fn classes(&self) -> Seq<u64> {
        self.keys@
    }

    /// `(class, count)` for every class present, in the order they were first met.
    pub fn iter(&self) -> (r: Vec<(DirectedClassId, u64)>)
        ensures
            r@.len() == self.classes().len(),
            forall|i: int| 0 <= i < r@.len() ==> (#[trigger] r@[i]).0.0 == self.classes()[i] && r@[i].1 == self@[self.classes()[i]],
            self.classes().no_duplicates(),
            self.classes().to_set() == self@.dom(),
            self.classes().len() == self@.dom().len(),
    {
        proof {
            use_type_invariant(self);
            self.keys@.unique_seq_to_set();
        }
        let mut r: Vec<(DirectedClassId, u64)> = Vec::new();
        let mut t: usize = 0;
        while t < self.keys.len()
            invariant
                t <= self.keys@.len(),
                r@.len() == t,
                self.keys@.to_set() == self.counts@.dom(),
                forall|i: int| 0 <= i < t ==> (#[trigger] r@[i]).0.0 == self.keys@[i] && r@[i].1 == self.counts@[self.keys@[i]],
            decreases self.keys@.len() - t,
        {
            let c = self.keys[t];
            proof { assert(self.keys@.to_set().contains(c)); }
            let n = match self.counts.get(&c) {
                Some(n) => *n,
                None => 0,
            };
            r.push((DirectedClassId(c), n));
            t += 1;
        }
        r
    }
}

// ---------------------------------------------------------------------------
// Counting
// ---------------------------------------------------------------------------

/// The subsets seen so far whose directed class is `c`.
pub open spec fn dclass_is(ga: Seq<Seq<usize>>, k: nat, c: nat) -> spec_fn(Seq<usize>) -> bool {
    |q: Seq<usize>| dseq_class(ga, k, q) == c
}

/// The directed class of the subgraph induced on the listed vertices.
fn class_of_sub<N>(snapshot: &DirectedSnapshot<N>, k: usize, ps: &Vec<Vec<usize>>, q: &Vec<usize>) -> (c: DirectedClassId)
    requires
        2 <= k <= DMASK_K,
        all_perms(ps.deep_view(), k as nat),
        q@.len() == k,
        forall|t: int| 0 <= t < q@.len() ==> (#[trigger] q@[t]) < snapshot.ids().len(),
    ensures
        c.0 == dseq_class(snapshot.arcs(), k as nat, q@),
{
    let ghost f = local_arc(snapshot.arcs(), q@);
    let has_arc = |i: usize, j: usize| -> (r: bool)
        requires
            i < q@.len(),
            j < q@.len(),
            forall|t: int| 0 <= t < q@.len() ==> (#[trigger] q@[t]) < snapshot.ids().len(),
        ensures
            r == list_adj(snapshot.arcs())(q@[i as int], q@[j as int]),
    {
        snapshot.has_arc(q[i], q[j])
    };
    DirectedClassId(canonical_fn(k, ps, has_arc, Ghost(f)))
}

/// Folds each visited subset's directed class into per-class counts.
struct DirectedCountSink<'a, N> {
    snapshot: &'a DirectedSnapshot<N>,
    k: usize,
    ps: Vec<Vec<usize>>,
    counts: HashMap<u64, u64>,
    keys: Vec<u64>,
    seen: Ghost<Seq<Seq<usize>>>,
}

impl<'a, N> DirectedCountSink<'a, N> {
    spec fn wf(&self) -> bool {
        &&& 2 <= self.k <= DMASK_K
        &&& all_perms(self.ps.deep_view(), self.k as nat)
        &&& self.keys@.no_duplicates()
        &&& self.keys@.to_set() == self.counts@.dom()
        &&& self.seen@.len() <= u64::MAX
        &&& forall|c: u64| #[trigger] self.counts@.contains_key(c)
            <==> count_where(self.seen@, dclass_is(self.snapshot.arcs(), self.k as nat, c as nat)) > 0
        &&& forall|c: u64| #[trigger] self.counts@.contains_key(c)
            ==> self.counts@[c] == count_where(self.seen@, dclass_is(self.snapshot.arcs(), self.k as nat, c as nat))
    }
}

impl<'a, N> SubsetSink for DirectedCountSink<'a, N> {
    type Params = (Seq<Seq<usize>>, usize);

    closed spec fn params(&self) -> (Seq<Seq<usize>>, usize) {
        (self.snapshot.arcs(), self.k)
    }

    closed spec fn admits(&self, q: Seq<usize>) -> bool {
        &&& q.len() == self.k
        &&& forall|t: int| 0 <= t < q.len() ==> (#[trigger] q[t]) < self.snapshot.ids().len()
    }

    closed spec fn room(&self) -> nat {
        if self.wf() { (u64::MAX - self.seen@.len()) as nat } else { 0 }
    }

    closed spec fn seen(&self) -> Seq<Seq<usize>> {
        self.seen@
    }

    fn visit(&mut self, q: &Vec<usize>) {
        let ghost ga = self.snapshot.arcs();
        let ghost k = self.k as nat;
        let c = class_of_sub(self.snapshot, self.k, &self.ps, q).0;
        let ghost s0 = self.seen@;
        proof {
            lemma_count_where_push(s0, q@, dclass_is(ga, k, c as nat));
        }
        match self.counts.get(&c) {
            Some(n) => {
                let n1 = *n + 1;
                self.counts.insert(c, n1);
            },
            None => {
                self.counts.insert(c, 1);
                self.keys.push(c);
            },
        }
        self.seen = Ghost(s0.push(q@));
        proof {
            assert forall|d: u64| #[trigger] self.counts@.contains_key(d)
                <==> count_where(self.seen@, dclass_is(ga, k, d as nat)) > 0 by {
                lemma_count_where_push(s0, q@, dclass_is(ga, k, d as nat));
            }
            assert forall|d: u64| #[trigger] self.counts@.contains_key(d)
                implies self.counts@[d] == count_where(self.seen@, dclass_is(ga, k, d as nat)) by {
                lemma_count_where_push(s0, q@, dclass_is(ga, k, d as nat));
            }
            assert forall|x: u64| self.keys@.to_set().contains(x) <==> self.counts@.dom().contains(x) by {
                if self.keys@.to_set().contains(x) && !old(self).keys@.to_set().contains(x) {
                    assert(x == c);
                }
                if old(self).keys@.to_set().contains(x) {
                    let i = choose|i: int| 0 <= i < old(self).keys@.len() && old(self).keys@[i] == x;
                    assert(self.keys@[i] == x);
                }
                if x == c {
                    assert(self.keys@[self.keys@.len() - 1] == x || old(self).keys@.to_set().contains(x));
                }
            }
            assert(self.keys@.to_set() =~= self.counts@.dom());
        }
    }
}

/// `count_where` over the weakly connected sets is the directed census count.
proof fn lemma_dcount_where(ga: Seq<Seq<usize>>, gu: Seq<Seq<usize>>, k: nat, c: nat)
    requires
        simple_graph(gu),
        1 <= k <= DMASK_K,
    ensures
        count_where(esu_all(gu, k), dclass_is(ga, k, c)) == dcensus_count(ga, gu, k, c),
{
    let es = esu_all(gu, k);
    lemma_esu_all(gu, k);
    let p = |s: Set<usize>| dset_class(ga, k, s) == c;
    let p2 = |q: Seq<usize>| p(q.to_set());
    assert forall|i: int| 0 <= i < es.len() implies dclass_is(ga, k, c)(#[trigger] es[i]) == p2(es[i]) by {
        assert(valid_out(gu, k, es[i]));
        lemma_dseq_class_of_set(ga, k, es[i]);
    }
    lemma_count_where_ext(es, dclass_is(ga, k, c), p2);
    lemma_count_sets(es, p);
}

/// The stream [`enumerate_directed`] walks (`esu_all` over the undirected reduction
/// `gu`) lists every weakly connected `k`-node vertex set exactly once: each listing
/// is `k` distinct nodes whose set is connected in `gu`, no two listings share their
/// node set, every such set is listed, and tallying the listings by directed class
/// (read off the arcs `ga`) gives the directed census.
pub proof fn law_directed_enumeration_stream(ga: Seq<Seq<usize>>, gu: Seq<Seq<usize>>, k: nat)
    requires
        simple_graph(gu),
        1 <= k <= DMASK_K,
    ensures
        forall|i: int| 0 <= i < esu_all(gu, k).len() ==> valid_out(gu, k, #[trigger] esu_all(gu, k)[i]),
        forall|i: int, j: int| 0 <= i < j < esu_all(gu, k).len()
            ==> (#[trigger] esu_all(gu, k)[i]).to_set() != (#[trigger] esu_all(gu, k)[j]).to_set(),
        forall|s: Set<usize>| #[trigger] conn_k_sets(gu, k).contains(s)
            ==> exists|i: int| 0 <= i < esu_all(gu, k).len() && (#[trigger] esu_all(gu, k)[i]).to_set() == s,
        forall|c: nat| #[trigger] count_where(esu_all(gu, k), dclass_is(ga, k, c)) == dcensus_count(ga, gu, k, c),
{
    let es = esu_all(gu, k);
    lemma_esu_all(gu, k);
    assert forall|i: int, j: int| 0 <= i < j < es.len() implies (#[trigger] es[i]).to_set() != (#[trigger] es[j]).to_set() by {
        assert(sets_of(es)[i] == es[i].to_set() && sets_of(es)[j] == es[j].to_set());
    }
    assert forall|s: Set<usize>| #[trigger] conn_k_sets(gu, k).contains(s)
        implies exists|i: int| 0 <= i < es.len() && (#[trigger] es[i]).to_set() == s by {
        assert(sets_of(es).to_set().contains(s));
        let i = choose|i: int| 0 <= i < sets_of(es).len() && sets_of(es)[i] == s;
        assert(es[i].to_set() == s);
    }
    assert forall|c: nat| #[trigger] count_where(es, dclass_is(ga, k, c)) == dcensus_count(ga, gu, k, c) by {
        lemma_dcount_where(ga, gu, k, c);
    }
}

/// Fold the directed census: each directed class maps to the number of weakly
/// connected `k`-node vertex sets inducing it.
pub fn count_directed<N>(g: &DirectedSnapshot<N>, sel: &DirectedSelector) -> (r: DirectedCensus)
    requires
        conn_k_sets(g.graph(), sel.order() as nat).len() < u64::MAX,
    ensures
        forall|c: u64| #[trigger] r@.contains_key(c) <==> dcensus_count(g.arcs(), g.graph(), sel.order() as nat, c as nat) > 0,
        forall|c: u64| #[trigger] r@.contains_key(c) ==> r@[c] == dcensus_count(g.arcs(), g.graph(), sel.order() as nat, c as nat),
        forall|c: u64| #[trigger] r@.contains_key(c) ==> is_weak_class(sel.order() as nat, c as nat),
{
    let k = sel.k();
    let und = g.undirected();
    let ghost gu = und.graph();
    let ghost ga = g.arcs();
    let ps = perms(k);
    let mut sink = DirectedCountSink { snapshot: g, k, ps, counts: HashMap::new(), keys: Vec::new(), seen: Ghost(Seq::empty()) };
    proof {
        assert(sink.keys@.to_set() =~= sink.counts@.dom());
        lemma_esu_all(gu, k as nat);
        sets_of(esu_all(gu, k as nat)).unique_seq_to_set();
        assert(sets_of(esu_all(gu, k as nat)).len() == esu_all(gu, k as nat).len());
        und.lemma_graph();
        assert forall|q: Seq<usize>| valid_out(gu, k as nat, q) implies #[trigger] sink.admits(q) by {}
        assert forall|c: u64| #[trigger] sink.counts@.contains_key(c)
            <==> count_where(sink.seen@, dclass_is(ga, k as nat, c as nat)) > 0 by {
            assert(count_where(sink.seen@, dclass_is(ga, k as nat, c as nat)) == 0);
        }
        assert(sink.wf());
        assert(sink.room() == u64::MAX);
    }
    for_each_subset(und, k, &mut sink);
    let ghost es = esu_all(gu, k as nat);
    proof {
        assert(sink.seen@ =~= es);
        assert(sink.room() > 0);
        assert(sink.wf());
    }
    let ghost cm = sink.counts@;
    let r = DirectedCensus { counts: sink.counts, keys: sink.keys };
    proof {
        assert(r@ == cm);
        assert forall|c: u64| #[trigger] r@.contains_key(c) <==> dcensus_count(ga, gu, k as nat, c as nat) > 0 by {
            lemma_dcount_where(ga, gu, k as nat, c as nat);
        }
        assert forall|c: u64| #[trigger] r@.contains_key(c) implies is_weak_class(k as nat, c as nat) by {
            lemma_count_where_witness(es, dclass_is(ga, k as nat, c as nat));
            let i = choose|i: int| 0 <= i < es.len() && #[trigger] dclass_is(ga, k as nat, c as nat)(es[i]);
            lemma_esu_all(gu, k as nat);
            assert(valid_out(gu, k as nat, es[i]));
            lemma_dseq_class_weak(ga, gu, k as nat, es[i]);
        }
        assert forall|c: u64| #[trigger] r@.contains_key(c) implies r@[c] == dcensus_count(ga, gu, k as nat, c as nat) by {
            lemma_dcount_where(ga, gu, k as nat, c as nat);
        }
    }
    r
}

// ---------------------------------------------------------------------------
// Enumerating instances
// ---------------------------------------------------------------------------

/// One weakly connected induced k-node directed subgraph: its node ids and its
/// directed-graphlet class.
#[derive(Clone, Debug)]
pub struct DirectedInstance<N> {
    /// The matched vertices, in discovery order.
    pub nodes: Vec<N>,
    /// The canonical directed-graphlet class.
    pub class: DirectedClassId,
}

/// The instances of a directed enumeration, collected up front and handed out in
/// discovery order.
pub struct DirectedInstances<N> {
    /// The instances still to hand out, last one first.
    items: Vec<DirectedInstance<N>>,
}

impl<N> DirectedInstances<N> {
    /// The instances still to be produced, in order.
    pub closed spec fn remaining(&self) -> Seq<DirectedInstance<N>> {
        self.items@.reverse()
    }

    /// The next instance, in discovery order.
    pub fn next(&mut self) -> (r: Option<DirectedInstance<N>>)
        ensures
            match r {
                None => old(self).remaining().len() == 0 && final(self).remaining().len() == 0,
                Some(x) => {
                    &&& old(self).remaining().len() > 0
                    &&& x == old(self).remaining()[0]
                    &&& final(self).remaining() == old(self).remaining().drop_first()
                },
            },
    {
        let ghost o = self.items@;
        let r = self.items.pop();
        proof {
            if o.len() > 0 {
                assert(o.reverse().drop_first() =~= self.items@.reverse());
            }
        }
        r
    }
}

/// Collects each visited subset as an instance.
struct CollectSink<'a, N> {
    snapshot: &'a DirectedSnapshot<N>,
    k: usize,
    ps: Vec<Vec<usize>>,
    items: Vec<DirectedInstance<N>>,
    seen: Ghost<Seq<Seq<usize>>>,
}

impl<'a, N> CollectSink<'a, N> {
    spec fn wf(&self) -> bool {
        &&& 2 <= self.k <= DMASK_K
        &&& all_perms(self.ps.deep_view(), self.k as nat)
        &&& self.items@.len() == self.seen@.len()
        &&& forall|i: int| 0 <= i < self.items@.len() ==> {
            &&& (#[trigger] self.items@[i]).nodes@ == ids_of(self.snapshot.ids(), self.seen@[i])
            &&& self.items@[i].class.0 == dseq_class(self.snapshot.arcs(), self.k as nat, self.seen@[i])
        }
    }
}

impl<'a, N: Copy> SubsetSink for CollectSink<'a, N> {
    type Params = (Seq<Seq<usize>>, Seq<Seq<usize>>, Seq<N>, usize);

    closed spec fn params(&self) -> (Seq<Seq<usize>>, Seq<Seq<usize>>, Seq<N>, usize) {
        (self.snapshot.graph(), self.snapshot.arcs(), self.snapshot.ids(), self.k)
    }

    closed spec fn admits(&self, q: Seq<usize>) -> bool {
        &&& q.len() == self.k
        &&& forall|t: int| 0 <= t < q.len() ==> (#[trigger] q[t]) < self.snapshot.ids().len()
    }

    closed spec fn room(&self) -> nat {
        if self.wf() && self.seen@.len() <= esu_all(self.snapshot.graph(), self.k as nat).len() + 1 {
            (esu_all(self.snapshot.graph(), self.k as nat).len() + 1 - self.seen@.len()) as nat
        } else {
            0
        }
    }

    closed spec fn seen(&self) -> Seq<Seq<usize>> {
        self.seen@
    }

    fn visit(&mut self, q: &Vec<usize>) {
        let class = class_of_sub(self.snapshot, self.k, &self.ps, q);
        let mut nodes: Vec<N> = Vec::new();
        let mut t: usize = 0;
        while t < q.len()
            invariant
                t <= q@.len(),
                q@.len() == self.k,
                forall|u: int| 0 <= u < q@.len() ==> (#[trigger] q@[u]) < self.snapshot.ids().len(),
                nodes@ == ids_of(self.snapshot.ids(), q@.take(t as int)),
            decreases q@.len() - t,
        {
            let x = self.snapshot.id(q[t]);
            proof {
                assert(q@.take(t + 1) =~= q@.take(t as int).push(q@[t as int]));
            }
            nodes.push(x);
            assert(nodes@ =~= ids_of(self.snapshot.ids(), q@.take(t + 1)));
            t += 1;
        }
        assert(q@.take(q@.len() as int) =~= q@);
        let ghost s0 = self.seen@;
        let ghost i0 = self.items@;
        self.items.push(DirectedInstance { nodes, class });
        self.seen = Ghost(s0.push(q@));
        proof {
            assert forall|i: int| 0 <= i < self.items@.len() implies {
                &&& (#[trigger] self.items@[i]).nodes@ == ids_of(self.snapshot.ids(), self.seen@[i])
                &&& self.items@[i].class.0 == dseq_class(self.snapshot.arcs(), self.k as nat, self.seen@[i])
            } by {
                if i < i0.len() {
                    assert(self.items@[i] == i0[i]);
                    assert(self.seen@[i] == s0[i]);
                }
            }
        }
    }
}

/// Enumerate every weakly-connected induced directed subgraph of order `sel.k()`, in
/// discovery order.
pub fn enumerate_directed<N: Copy>(g: &DirectedSnapshot<N>, sel: &DirectedSelector) -> (r: DirectedInstances<N>)
    ensures
        r.remaining().len() == esu_all(g.graph(), sel.order() as nat).len(),
        forall|i: int| 0 <= i < r.remaining().len() ==> {
            &&& (#[trigger] r.remaining()[i]).nodes@ == ids_of(g.ids(), esu_all(g.graph(), sel.order() as nat)[i])
            &&& r.remaining()[i].class.0 == dseq_class(g.arcs(), sel.order() as nat, esu_all(g.graph(), sel.order() as nat)[i])
        },
{
    let k = sel.k();
    let und = g.undirected();
    let ghost gu = und.graph();
    let ps = perms(k);
    let mut sink = CollectSink { snapshot: g, k, ps, items: Vec::new(), seen: Ghost(Seq::empty()) };
    proof {
        und.lemma_graph();
        assert forall|q: Seq<usize>| valid_out(gu, k as nat, q) implies #[trigger] sink.admits(q) by {}
        assert(sink.wf());
    }
    for_each_subset(und, k, &mut sink);
    let ghost es = esu_all(gu, k as nat);
    proof {
        assert(sink.seen@ =~= es);
        assert(sink.room() > 0);
        assert(sink.wf());
    }
    let ghost orig = sink.items@;
    proof {
        assert forall|i: int| 0 <= i < orig.len() implies {
            &&& (#[trigger] orig[i]).nodes@ == ids_of(g.ids(), es[i])
            &&& orig[i].class.0 == dseq_class(g.arcs(), k as nat, es[i])
        } by {
            assert(sink.items@[i] == orig[i]);
        }
    }
    let mut items = sink.items;
    let mut rev: Vec<DirectedInstance<N>> = Vec::new();
    while items.len() > 0
        invariant
            items@ == orig.take(items@.len() as int),
            items@.len() + rev@.len() == orig.len(),
            forall|j: int| 0 <= j < rev@.len() ==> #[trigger] rev@[j] == orig[orig.len() - 1 - j],
        decreases items@.len(),
    {
        let ghost n0 = items@.len();
        match items.pop() {
            Some(x) => {
                assert(x == orig[n0 - 1]);
                rev.push(x);
                assert(items@ =~= orig.take(items@.len() as int));
            },
            None => {},
        }
    }
    let r = DirectedInstances { items: rev };
    proof {
        assert(r.remaining() =~= orig) by {
            assert forall|i: int| 0 <= i < orig.len() implies #[trigger] r.remaining()[i] == orig[i] by {
                assert(r.remaining()[i] == rev@[rev@.len() - 1 - i]);
            }
        }
    }
    r
}

} // verus!
