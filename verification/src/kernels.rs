//! Structure-aware graph kernels on the integers: graphlet, Weisfeiler–Lehman
//! subtree and shortest-path feature extractors, and their inner products.
//!
//! Every kernel here is `⟨φ(G), φ(H)⟩` for an explicit finite count vector `φ`.
use vstd::prelude::*;
use std::collections::HashMap;
use crate::census::{Census, Selector, count};
use crate::esu::conn_k_sets;
use crate::snapshot::Snapshot;

verus! {

broadcast use vstd::std_specs::hash::group_hash_axioms;

// ---------------------------------------------------------------------------
// Sparse count vectors and their inner product
// ---------------------------------------------------------------------------

/// The entry of `m` at `k`, zero where `m` has none.
pub open spec fn entry_or_zero(m: Map<u64, u64>, k: u64) -> nat {
    if m.contains_key(k) { m[k] as nat } else { 0 }
}

/// `Σ_{k in keys} a[k] * b[k]`, missing entries of `b` read as zero.
pub open spec fn wdot(keys: Seq<u64>, a: Map<u64, u64>, b: Map<u64, u64>) -> nat
    decreases keys.len(),
{
    if keys.len() == 0 {
        0
    } else {
        wdot(keys.drop_last(), a, b) + entry_or_zero(a, keys.last()) * entry_or_zero(b, keys.last())
    }
}

/// `keys` lists the domain of `m`, each key once.
pub open spec fn keys_of(keys: Seq<u64>, m: Map<u64, u64>) -> bool {
    keys.no_duplicates() && keys.to_set() == m.dom()
}

proof fn lemma_wdot_prefix(keys: Seq<u64>, a: Map<u64, u64>, b: Map<u64, u64>, i: int)
    requires
        0 <= i <= keys.len(),
    ensures
        wdot(keys.take(i), a, b) <= wdot(keys, a, b),
    decreases keys.len() - i,
{
    if i < keys.len() {
        lemma_wdot_prefix(keys, a, b, i + 1);
        assert(keys.take(i + 1).drop_last() =~= keys.take(i));
    } else {
        assert(keys.take(i) =~= keys);
    }
}

/// Inner product of two sparse count vectors: `a` given by its key list `ak`.
fn inner_product(ak: &Vec<u64>, a: &HashMap<u64, u64>, b: &HashMap<u64, u64>) -> (r: u64)
    requires
        wdot(ak@, a@, b@) <= u64::MAX,
    ensures
        r == wdot(ak@, a@, b@),
{
    let mut sum: u64 = 0;
    let mut t: usize = 0;
    while t < ak.len()
        invariant
            t <= ak@.len(),
            wdot(ak@, a@, b@) <= u64::MAX,
            sum == wdot(ak@.take(t as int), a@, b@),
        decreases ak@.len() - t,
    {
        let key = ak[t];
        proof {
            assert(ak@.take(t + 1).drop_last() =~= ak@.take(t as int));
            lemma_wdot_prefix(ak@, a@, b@, t + 1);
        }
        let x: u64 = match a.get(&key) {
            Some(v) => *v,
            None => 0,
        };
        let y: u64 = match b.get(&key) {
            Some(v) => *v,
            None => 0,
        };
        proof {
            assert(x * y <= wdot(ak@.take(t + 1), a@, b@)) by (nonlinear_arith)
                requires x * y == entry_or_zero(a@, key) * entry_or_zero(b@, key),
                    wdot(ak@.take(t + 1), a@, b@) == wdot(ak@.take(t as int), a@, b@) + entry_or_zero(a@, key) * entry_or_zero(b@, key);
        }
        sum = sum + x * y;
        t += 1;
    }
    proof { assert(ak@.take(ak@.len() as int) =~= ak@); }
    sum
}

// ---------------------------------------------------------------------------
// Sums over key lists, and why the inner product is symmetric
// ---------------------------------------------------------------------------

/// `Σ_{k in keys} f(k)`.
pub open spec fn ksum(keys: Seq<u64>, f: spec_fn(u64) -> nat) -> nat
    decreases keys.len(),
{
    if keys.len() == 0 { 0 } else { ksum(keys.drop_last(), f) + f(keys.last()) }
}

proof fn lemma_wdot_ksum(keys: Seq<u64>, a: Map<u64, u64>, b: Map<u64, u64>)
    ensures
        wdot(keys, a, b) == ksum(keys, |k: u64| entry_or_zero(a, k) * entry_or_zero(b, k)),
    decreases keys.len(),
{
    if keys.len() > 0 {
        lemma_wdot_ksum(keys.drop_last(), a, b);
    }
}

proof fn lemma_ksum_remove(keys: Seq<u64>, f: spec_fn(u64) -> nat, j: int)
    requires
        0 <= j < keys.len(),
    ensures
        ksum(keys, f) == ksum(keys.remove(j), f) + f(keys[j]),
    decreases keys.len(),
{
    if j < keys.len() - 1 {
        lemma_ksum_remove(keys.drop_last(), f, j);
        assert(keys.remove(j).drop_last() =~= keys.drop_last().remove(j));
        assert(keys.remove(j).last() == keys.last());
    } else {
        assert(keys.remove(j) =~= keys.drop_last());
    }
}

proof fn lemma_ksum_perm(s: Seq<u64>, t: Seq<u64>, f: spec_fn(u64) -> nat)
    requires
        s.no_duplicates(),
        t.no_duplicates(),
        s.to_set() == t.to_set(),
    ensures
        ksum(s, f) == ksum(t, f),
    decreases s.len(),
{
    if s.len() == 0 {
        if t.len() > 0 {
            assert(t.to_set().contains(t[0]));
        }
    } else {
        let x = s.last();
        assert(s.to_set().contains(x));
        assert(t.contains(x));
        let j = t.index_of(x);
        let t2 = t.remove(j);
        let s2 = s.drop_last();
        assert(s2.no_duplicates()) by {
            assert forall|a: int, b: int| 0 <= a < s2.len() && 0 <= b < s2.len() && a != b implies s2[a] != s2[b] by {
                assert(s2[a] == s[a] && s2[b] == s[b]);
            }
        }
        assert(t2.no_duplicates()) by {
            assert forall|a: int, b: int| 0 <= a < t2.len() && 0 <= b < t2.len() && a != b implies t2[a] != t2[b] by {
                let a2 = if a < j { a } else { a + 1 };
                let b2 = if b < j { b } else { b + 1 };
                assert(t2[a] == t[a2] && t2[b] == t[b2]);
            }
        }
        assert(s2.to_set() =~= t2.to_set()) by {
            assert forall|y: u64| s2.to_set().contains(y) <==> t2.to_set().contains(y) by {
                if s2.contains(y) {
                    let i = choose|i: int| 0 <= i < s2.len() && s2[i] == y;
                    assert(s[i] == y);
                    assert(y != x) by { assert(s[i] != s[s.len() - 1]); }
                    assert(t.to_set().contains(y));
                    let i2 = choose|i2: int| 0 <= i2 < t.len() && t[i2] == y;
                    assert(i2 != j);
                    if i2 < j { assert(t2[i2] == y); } else { assert(t2[i2 - 1] == y); }
                }
                if t2.contains(y) {
                    let i = choose|i: int| 0 <= i < t2.len() && t2[i] == y;
                    let i2 = if i < j { i } else { i + 1 };
                    assert(t[i2] == y);
                    assert(i2 != j);
                    assert(y != x) by { assert(t[i2] != t[j]); }
                    assert(s.to_set().contains(y));
                    let i3 = choose|i3: int| 0 <= i3 < s.len() && s[i3] == y;
                    assert(i3 != s.len() - 1);
                    assert(s2[i3] == y);
                }
            }
        }
        lemma_ksum_perm(s2, t2, f);
        lemma_ksum_remove(t, f, j);
    }
}

proof fn lemma_ksum_append(s: Seq<u64>, t: Seq<u64>, f: spec_fn(u64) -> nat)
    ensures
        ksum(s + t, f) == ksum(s, f) + ksum(t, f),
    decreases t.len(),
{
    if t.len() == 0 {
        assert(s + t =~= s);
    } else {
        lemma_ksum_append(s, t.drop_last(), f);
        assert((s + t).drop_last() =~= s + t.drop_last());
    }
}

proof fn lemma_ksum_zero(s: Seq<u64>, f: spec_fn(u64) -> nat)
    requires
        forall|i: int| 0 <= i < s.len() ==> f(#[trigger] s[i]) == 0,
    ensures
        ksum(s, f) == 0,
    decreases s.len(),
{
    if s.len() > 0 {
        lemma_ksum_zero(s.drop_last(), f);
        assert(f(s[s.len() - 1]) == 0);
    }
}

proof fn lemma_filter_nodup(s: Seq<u64>, p: spec_fn(u64) -> bool)
    requires
        s.no_duplicates(),
    ensures
        s.filter(p).no_duplicates(),
        forall|y: u64| #[trigger] s.filter(p).contains(y) <==> (s.contains(y) && p(y)),
    decreases s.len(),
{
    broadcast use vstd::seq_lib::group_filter_ensures;
    if s.len() > 0 {
        let s2 = s.drop_last();
        assert(s2.no_duplicates()) by {
            assert forall|a: int, b: int| 0 <= a < s2.len() && 0 <= b < s2.len() && a != b implies s2[a] != s2[b] by {
                assert(s2[a] == s[a] && s2[b] == s[b]);
            }
        }
        lemma_filter_nodup(s2, p);
        reveal(Seq::filter);
        assert(s2.push(s.last()) =~= s);
        assert(!s2.contains(s.last())) by {
            if s2.contains(s.last()) {
                let i = choose|i: int| 0 <= i < s2.len() && s2[i] == s.last();
                assert(s[i] == s[s.len() - 1]);
            }
        }
        if p(s.last()) {
            let fl = s2.filter(p);
            assert(s.filter(p) == fl.push(s.last()));
            assert forall|a: int, b: int| 0 <= a < fl.len() + 1 && 0 <= b < fl.len() + 1 && a != b implies s.filter(p)[a] != s.filter(p)[b] by {
                if a < fl.len() && b < fl.len() {
                } else if a < fl.len() {
                    assert(fl.contains(fl[a]));
                } else {
                    assert(fl.contains(fl[b]));
                }
            }
            assert forall|y: u64| #[trigger] s.filter(p).contains(y) <==> (s.contains(y) && p(y)) by {
                if s.filter(p).contains(y) {
                    let i = choose|i: int| 0 <= i < s.filter(p).len() && s.filter(p)[i] == y;
                    if i < fl.len() { assert(fl.contains(y)); } 
                }
                if s.contains(y) && p(y) {
                    let i = choose|i: int| 0 <= i < s.len() && s[i] == y;
                    if i < s2.len() { assert(s2[i] == y); assert(s2.contains(y)); assert(fl.contains(y)); let w = choose|w: int| 0 <= w < fl.len() && fl[w] == y; assert(s.filter(p)[w] == y); }
                    else { assert(s.filter(p)[fl.len() as int] == y); }
                }
            }
        } else {
            assert(s.filter(p) == s2.filter(p));
            assert forall|y: u64| #[trigger] s.filter(p).contains(y) <==> (s.contains(y) && p(y)) by {
                if s.contains(y) && p(y) {
                    let i = choose|i: int| 0 <= i < s.len() && s[i] == y;
                    if i < s2.len() { assert(s2[i] == y); assert(s2.contains(y)); }
                }
                if s2.contains(y) {
                    let i = choose|i: int| 0 <= i < s2.len() && s2[i] == y;
                    assert(s[i] == y);
                }
            }
        }
    }
}

/// The sum of `f` over a key list is unchanged by appending keys on which `f`
/// vanishes.
proof fn lemma_ksum_shared(ka: Seq<u64>, kb: Seq<u64>, f: spec_fn(u64) -> nat)
    requires
        ka.no_duplicates(),
        kb.no_duplicates(),
        forall|k: u64| !ka.contains(k) ==> #[trigger] f(k) == 0,
    ensures
        ksum(ka, f) == ksum(ka + kb.filter(|k: u64| !ka.contains(k)), f),
{
    let rest = kb.filter(|k: u64| !ka.contains(k));
    lemma_ksum_append(ka, rest, f);
    lemma_filter_nodup(kb, |k: u64| !ka.contains(k));
    assert forall|i: int| 0 <= i < rest.len() implies f(#[trigger] rest[i]) == 0 by {
        assert(rest.contains(rest[i]));
    }
    lemma_ksum_zero(rest, f);
}

proof fn lemma_ksum_ext(s: Seq<u64>, f: spec_fn(u64) -> nat, g: spec_fn(u64) -> nat)
    requires
        forall|i: int| 0 <= i < s.len() ==> #[trigger] f(s[i]) == g(s[i]),
    ensures
        ksum(s, f) == ksum(s, g),
    decreases s.len(),
{
    if s.len() > 0 {
        lemma_ksum_ext(s.drop_last(), f, g);
        assert(f(s[s.len() - 1]) == g(s[s.len() - 1]));
    }
}

/// The inner product of two count vectors does not depend on which one is read
/// first: `⟨a, b⟩ == ⟨b, a⟩`.
pub proof fn law_inner_product_symmetric(ka: Seq<u64>, a: Map<u64, u64>, kb: Seq<u64>, b: Map<u64, u64>)
    requires
        keys_of(ka, a),
        keys_of(kb, b),
    ensures
        wdot(ka, a, b) == wdot(kb, b, a),
{
    let f = |k: u64| entry_or_zero(a, k) * entry_or_zero(b, k);
    let g = |k: u64| entry_or_zero(b, k) * entry_or_zero(a, k);
    lemma_wdot_ksum(ka, a, b);
    lemma_wdot_ksum(kb, b, a);
    assert forall|k: u64| !ka.contains(k) implies #[trigger] f(k) == 0 by {
        assert(!ka.to_set().contains(k));
    }
    assert forall|k: u64| !kb.contains(k) implies #[trigger] g(k) == 0 by {
        assert(!kb.to_set().contains(k));
    }
    lemma_ksum_shared(ka, kb, f);
    lemma_ksum_shared(kb, ka, g);
    let u1 = ka + kb.filter(|k: u64| !ka.contains(k));
    let u2 = kb + ka.filter(|k: u64| !kb.contains(k));
    lemma_filter_nodup(kb, |k: u64| !ka.contains(k));
    lemma_filter_nodup(ka, |k: u64| !kb.contains(k));
    assert(u1.no_duplicates()) by {
        let r = kb.filter(|k: u64| !ka.contains(k));
        assert forall|i: int, j: int| 0 <= i < u1.len() && 0 <= j < u1.len() && i != j implies u1[i] != u1[j] by {
            if i < ka.len() && j >= ka.len() {
                assert(r.contains(r[j - ka.len()]));
                assert(ka.contains(u1[i]));
            } else if j < ka.len() && i >= ka.len() {
                assert(r.contains(r[i - ka.len()]));
                assert(ka.contains(u1[j]));
            }
        }
    }
    assert(u2.no_duplicates()) by {
        let r = ka.filter(|k: u64| !kb.contains(k));
        assert forall|i: int, j: int| 0 <= i < u2.len() && 0 <= j < u2.len() && i != j implies u2[i] != u2[j] by {
            if i < kb.len() && j >= kb.len() {
                assert(r.contains(r[j - kb.len()]));
                assert(kb.contains(u2[i]));
            } else if j < kb.len() && i >= kb.len() {
                assert(r.contains(r[i - kb.len()]));
                assert(kb.contains(u2[j]));
            }
        }
    }
    assert(u1.to_set() =~= u2.to_set()) by {
        assert forall|y: u64| u1.to_set().contains(y) <==> u2.to_set().contains(y) by {
            let r1 = kb.filter(|k: u64| !ka.contains(k));
            let r2 = ka.filter(|k: u64| !kb.contains(k));
            if u1.contains(y) {
                let i = choose|i: int| 0 <= i < u1.len() && u1[i] == y;
                if i < ka.len() {
                    assert(ka.contains(y));
                    if kb.contains(y) {
                        let w = choose|w: int| 0 <= w < kb.len() && kb[w] == y;
                        assert(u2[w] == y);
                    } else {
                        assert(r2.contains(y));
                        let w = choose|w: int| 0 <= w < r2.len() && r2[w] == y;
                        assert(u2[kb.len() + w] == y);
                    }
                } else {
                    assert(r1.contains(r1[i - ka.len()]));
                    assert(kb.contains(y));
                    let w = choose|w: int| 0 <= w < kb.len() && kb[w] == y;
                    assert(u2[w] == y);
                }
            }
            if u2.contains(y) {
                let i = choose|i: int| 0 <= i < u2.len() && u2[i] == y;
                if i < kb.len() {
                    assert(kb.contains(y));
                    if ka.contains(y) {
                        let w = choose|w: int| 0 <= w < ka.len() && ka[w] == y;
                        assert(u1[w] == y);
                    } else {
                        assert(r1.contains(y));
                        let w = choose|w: int| 0 <= w < r1.len() && r1[w] == y;
                        assert(u1[ka.len() + w] == y);
                    }
                } else {
                    assert(r2.contains(r2[i - kb.len()]));
                    assert(ka.contains(y));
                    let w = choose|w: int| 0 <= w < ka.len() && ka[w] == y;
                    assert(u1[w] == y);
                }
            }
        }
    }
    lemma_ksum_perm(u1, u2, f);
    assert forall|i: int| 0 <= i < u2.len() implies #[trigger] f(u2[i]) == g(u2[i]) by {
        let k = u2[i];
        assert(entry_or_zero(a, k) * entry_or_zero(b, k) == entry_or_zero(b, k) * entry_or_zero(a, k)) by (nonlinear_arith);
    }
    lemma_ksum_ext(u2, f, g);
}

// ---------------------------------------------------------------------------
// Graphlet kernel
// ---------------------------------------------------------------------------

/// The graphlet-class count vector of a graph at order `k`, tagged with the order it
/// was built at.
pub struct GraphletFeatures {
    /// The order `k` these features were computed at.
    pub k: usize,
    /// The graphlet-class count vector itself.
    pub census: Census,
}

/// Compute [`GraphletFeatures`] for `g` at order `k`: its census, tagged with `k`.
pub fn graphlet_features<N>(g: &Snapshot<N>, k: usize) -> (r: GraphletFeatures)
    requires
        2 <= k <= crate::census::MAX_K,
        conn_k_sets(g.graph(), k as nat).len() < u64::MAX,
    ensures
        r.k == k,
        forall|c: u64| #[trigger] r.census@.contains_key(c) <==> crate::census::census_count(g.graph(), k as nat, c as nat) > 0,
        forall|c: u64| #[trigger] r.census@.contains_key(c) ==> r.census@[c] == crate::census::census_count(g.graph(), k as nat, c as nat),
{
    let sel = Selector::connected_k_subsets(k);
    GraphletFeatures { k, census: count(g, &sel) }
}

/// Graphlet kernel: the inner product of two graphlet-class count vectors built at
/// the same order.
pub fn graphlet_kernel(a: &GraphletFeatures, b: &GraphletFeatures) -> (r: u64)
    requires
        a.k == b.k,
        wdot(a.census.classes(), a.census@, b.census@) <= u64::MAX,
    ensures
        r == wdot(a.census.classes(), a.census@, b.census@),
{
    let (ak, am) = a.census.parts();
    let (_bk, bm) = b.census.parts();
    inner_product(ak, am, bm)
}

// ---------------------------------------------------------------------------
// Label histograms and the Weisfeiler–Lehman subtree kernel
// ---------------------------------------------------------------------------

/// How many entries of `s` equal `v`.
pub open spec fn cnt(s: Seq<u64>, v: u64) -> nat
    decreases s.len(),
{
    if s.len() == 0 { 0 } else { cnt(s.drop_last(), v) + (if s.last() == v { 1nat } else { 0nat }) }
}

/// The number of position pairs `(i, j)` with `la[i] == lb[j]`.
pub open spec fn matches(la: Seq<u64>, lb: Seq<u64>) -> nat
    decreases la.len(),
{
    if la.len() == 0 { 0 } else { matches(la.drop_last(), lb) + cnt(lb, la.last()) }
}

proof fn lemma_matches_push_right(la: Seq<u64>, lb: Seq<u64>, y: u64)
    ensures
        matches(la, lb.push(y)) == matches(la, lb) + cnt(la, y),
    decreases la.len(),
{
    if la.len() > 0 {
        lemma_matches_push_right(la.drop_last(), lb, y);
        assert(lb.push(y).drop_last() =~= lb);
    }
}

/// Counting equal-label pairs does not depend on which labeling is read first.
pub proof fn law_matches_symmetric(la: Seq<u64>, lb: Seq<u64>)
    ensures
        matches(la, lb) == matches(lb, la),
    decreases lb.len(),
{
    if lb.len() == 0 {
        assert(matches(la, lb) == 0) by {
            lemma_matches_empty(la, lb);
        }
    } else {
        let l2 = lb.drop_last();
        law_matches_symmetric(la, l2);
        assert(l2.push(lb.last()) =~= lb);
        lemma_matches_push_right(la, l2, lb.last());
    }
}

proof fn lemma_matches_empty(la: Seq<u64>, lb: Seq<u64>)
    requires
        lb.len() == 0,
    ensures
        matches(la, lb) == 0,
    decreases la.len(),
{
    if la.len() > 0 {
        lemma_matches_empty(la.drop_last(), lb);
    }
}

/// A label -> count histogram. Labels are kept in the order they were first met.
pub struct Histogram {
    counts: HashMap<u64, u64>,
    keys: Vec<u64>,
}

impl Histogram {
    #[verifier::type_invariant]
    spec fn inv(self) -> bool {
        keys_of(self.keys@, self.counts@)
    }

    /// Count per label.
    pub closed spec fn view(&self) -> Map<u64, u64> {
        self.counts@
    }

    /// The labels present, in the order they were first met.
    pub closed spec fn labels(&self) -> Seq<u64> {
        self.keys@
    }

    /// The count of `label`, if present.
    pub fn get(&self, label: u64) -> (r: Option<u64>)
        ensures
            r == (if self@.contains_key(label) { Some(self@[label]) } else { None::<u64> }),
    {
        match self.counts.get(&label) {
            Some(n) => Some(*n),
            None => None,
        }
    }

    /// Number of distinct labels.
    pub fn len(&self) -> (r: usize)
        ensures
            r == self@.dom().len(),
    {
        proof {
            use_type_invariant(self);
            self.keys@.unique_seq_to_set();
        }
        self.keys.len()
    }

    /// Whether no label is present.
    pub fn is_empty(&self) -> (r: bool)
        ensures
            r == (self@.dom().len() == 0),
    {
        self.len() == 0
    }

    /// `(label, count)` for every label present, in first-met order.
    pub fn iter(&self) -> (r: Vec<(u64, u64)>)
        ensures
            r@.len() == self.labels().len(),
            keys_of(self.labels(), self@),
            forall|i: int| 0 <= i < r@.len() ==> (#[trigger] r@[i]).0 == self.labels()[i] && r@[i].1 == self@[self.labels()[i]],
    {
        proof { use_type_invariant(self); }
        let mut r: Vec<(u64, u64)> = Vec::new();
        let mut t: usize = 0;
        while t < self.keys.len()
            invariant
                t <= self.keys@.len(),
                r@.len() == t,
                keys_of(self.keys@, self.counts@),
                forall|i: int| 0 <= i < t ==> (#[trigger] r@[i]).0 == self.keys@[i] && r@[i].1 == self.counts@[self.keys@[i]],
            decreases self.keys@.len() - t,
        {
            let c = self.keys[t];
            proof { assert(self.keys@.to_set().contains(c)); }
            let n = match self.counts.get(&c) {
                Some(n) => *n,
                None => 0,
            };
            r.push((c, n));
            t += 1;
        }
        r
    }
}

/// `h` is the histogram of the labeling `s`.
pub open spec fn histogram_of(h: Map<u64, u64>, s: Seq<u64>) -> bool {
    &&& forall|v: u64| #[trigger] h.contains_key(v) <==> cnt(s, v) > 0
    &&& forall|v: u64| #[trigger] h.contains_key(v) ==> h[v] == cnt(s, v)
}

proof fn lemma_cnt_le(s: Seq<u64>, v: u64)
    ensures
        cnt(s, v) <= s.len(),
    decreases s.len(),
{
    if s.len() > 0 {
        lemma_cnt_le(s.drop_last(), v);
    }
}

/// Histogram a labeling: label -> number of nodes carrying it.
pub fn label_histogram(labels: &Vec<u64>) -> (r: Histogram)
    ensures
        histogram_of(r@, labels@),
{
    let mut counts: HashMap<u64, u64> = HashMap::new();
    let mut keys: Vec<u64> = Vec::new();
    assert(keys@.to_set() =~= counts@.dom());
    assert(labels@.take(0) =~= Seq::<u64>::empty());
    let mut t: usize = 0;
    while t < labels.len()
        invariant
            t <= labels@.len(),
            keys_of(keys@, counts@),
            histogram_of(counts@, labels@.take(t as int)),
        decreases labels@.len() - t,
    {
        let l = labels[t];
        let ghost s0 = labels@.take(t as int);
        proof {
            assert(labels@.take(t + 1).drop_last() =~= s0);
            assert(labels@.take(t + 1).last() == l);
            lemma_cnt_le(s0, l);
        }
        let ghost k0 = keys@;
        match counts.get(&l) {
            Some(n) => {
                let n1 = *n + 1;
                counts.insert(l, n1);
                proof {
                    assert(keys@.to_set() =~= counts@.dom());
                }
            },
            None => {
                counts.insert(l, 1);
                keys.push(l);
                proof {
                    assert(!k0.to_set().contains(l));
                    assert(keys@.no_duplicates()) by {
                        assert forall|a: int, b: int| 0 <= a < keys@.len() && 0 <= b < keys@.len() && a != b implies keys@[a] != keys@[b] by {
                            if a < k0.len() && b < k0.len() {
                                assert(keys@[a] == k0[a] && keys@[b] == k0[b]);
                            } else if a < k0.len() {
                                assert(k0.to_set().contains(k0[a]));
                            } else {
                                assert(k0.to_set().contains(k0[b]));
                            }
                        }
                    }
                    assert forall|x: u64| keys@.to_set().contains(x) <==> counts@.dom().contains(x) by {
                        if keys@.contains(x) {
                            let i = choose|i: int| 0 <= i < keys@.len() && keys@[i] == x;
                            if i < k0.len() { assert(k0[i] == x); assert(k0.to_set().contains(x)); }
                        }
                        if counts@.dom().contains(x) && x != l {
                            assert(k0.to_set().contains(x));
                            let i = choose|i: int| 0 <= i < k0.len() && k0[i] == x;
                            assert(keys@[i] == x);
                        }
                        if x == l {
                            assert(keys@[k0.len() as int] == x);
                        }
                    }
                    assert(keys@.to_set() =~= counts@.dom());
                }
            },
        }
        t += 1;
    }
    proof { assert(labels@.take(labels@.len() as int) =~= labels@); }
    Histogram { counts, keys }
}

/// Shifting one label's count by one entry shifts the weighted sum by one copy of
/// its partner count.
proof fn lemma_label_sum(keys: Seq<u64>, la: Seq<u64>, lb: Seq<u64>)
    requires
        keys.no_duplicates(),
        forall|i: int| 0 <= i < la.len() ==> keys.contains(#[trigger] la[i]),
    ensures
        ksum(keys, |v: u64| cnt(la, v) * cnt(lb, v)) == matches(la, lb),
    decreases la.len(),
{
    let f = |v: u64| cnt(la, v) * cnt(lb, v);
    if la.len() == 0 {
        assert forall|i: int| 0 <= i < keys.len() implies f(#[trigger] keys[i]) == 0 by {
            assert(cnt(la, keys[i]) == 0);
        }
        lemma_ksum_zero(keys, f);
    } else {
        let l2 = la.drop_last();
        let x = la.last();
        let f2 = |v: u64| cnt(l2, v) * cnt(lb, v);
        assert forall|i: int| 0 <= i < l2.len() implies keys.contains(#[trigger] l2[i]) by {
            assert(l2[i] == la[i]);
        }
        lemma_label_sum(keys, l2, lb);
        assert(keys.contains(la[la.len() - 1]));
        assert forall|v: u64| #[trigger] f(v) == f2(v) + (if v == x { cnt(lb, x) } else { 0nat }) by {
            assert(cnt(la, v) == cnt(l2, v) + (if v == x { 1nat } else { 0nat }));
            if v == x {
                assert((cnt(l2, v) + 1) * cnt(lb, v) == cnt(l2, v) * cnt(lb, v) + cnt(lb, v)) by (nonlinear_arith);
            }
        }
        lemma_ksum_bump(keys, f2, f, x, cnt(lb, x));
    }
}

/// Raising `f` by `d` at one listed key raises the sum by `d`.
proof fn lemma_ksum_bump(keys: Seq<u64>, f: spec_fn(u64) -> nat, g: spec_fn(u64) -> nat, x: u64, d: nat)
    requires
        keys.no_duplicates(),
        keys.contains(x),
        forall|v: u64| #[trigger] g(v) == f(v) + (if v == x { d } else { 0nat }),
    ensures
        ksum(keys, g) == ksum(keys, f) + d,
    decreases keys.len(),
{
    let k2 = keys.drop_last();
    assert(k2.no_duplicates()) by {
        assert forall|a: int, b: int| 0 <= a < k2.len() && 0 <= b < k2.len() && a != b implies k2[a] != k2[b] by {
            assert(k2[a] == keys[a] && k2[b] == keys[b]);
        }
    }
    if keys.last() == x {
        assert forall|i: int| 0 <= i < k2.len() implies #[trigger] f(k2[i]) == g(k2[i]) by {
            assert(k2[i] == keys[i]);
            assert(keys[i] != keys[keys.len() - 1]);
        }
        lemma_ksum_ext(k2, f, g);
    } else {
        let i = choose|i: int| 0 <= i < keys.len() && keys[i] == x;
        assert(i < keys.len() - 1);
        assert(k2[i] == x);
        lemma_ksum_bump(k2, f, g, x, d);
    }
}

/// The histogram inner product of two labelings counts their equal-label pairs.
proof fn lemma_histogram_dot(ka: Seq<u64>, ha: Map<u64, u64>, la: Seq<u64>, hb: Map<u64, u64>, lb: Seq<u64>)
    requires
        keys_of(ka, ha),
        histogram_of(ha, la),
        histogram_of(hb, lb),
    ensures
        wdot(ka, ha, hb) == matches(la, lb),
{
    lemma_wdot_ksum(ka, ha, hb);
    let f = |k: u64| entry_or_zero(ha, k) * entry_or_zero(hb, k);
    let g = |v: u64| cnt(la, v) * cnt(lb, v);
    assert forall|i: int| 0 <= i < ka.len() implies #[trigger] f(ka[i]) == g(ka[i]) by {
        let v = ka[i];
        assert(ka.to_set().contains(v));
        if !hb.contains_key(v) {
            assert(cnt(lb, v) == 0);
        }
    }
    lemma_ksum_ext(ka, f, g);
    assert forall|i: int| 0 <= i < la.len() implies ka.contains(#[trigger] la[i]) by {
        lemma_cnt_pos(la, i);
        assert(ha.contains_key(la[i]));
        assert(ka.to_set().contains(la[i]));
    }
    lemma_label_sum(ka, la, lb);
}

proof fn lemma_cnt_pos(s: Seq<u64>, i: int)
    requires
        0 <= i < s.len(),
    ensures
        cnt(s, s[i]) > 0,
    decreases s.len(),
{
    if i < s.len() - 1 {
        lemma_cnt_pos(s.drop_last(), i);
        assert(s.drop_last()[i] == s[i]);
    }
}

/// `Σ_{t < n} matches(a[t], b[t])`.
pub open spec fn wl_sum(a: Seq<Seq<u64>>, b: Seq<Seq<u64>>, n: int) -> nat
    decreases n,
{
    if n <= 0 { 0 } else { wl_sum(a, b, n - 1) + matches(a[n - 1], b[n - 1]) }
}

proof fn lemma_wl_sum_mono(a: Seq<Seq<u64>>, b: Seq<Seq<u64>>, i: int, j: int)
    requires
        i <= j,
    ensures
        wl_sum(a, b, i) <= wl_sum(a, b, j),
    decreases j - i,
{
    if i < j {
        lemma_wl_sum_mono(a, b, i, j - 1);
    }
}

/// The Weisfeiler–Lehman subtree kernel is symmetric: `k(a, b) == k(b, a)`.
pub proof fn law_wl_kernel_symmetric(a: Seq<Seq<u64>>, b: Seq<Seq<u64>>, n: int)
    ensures
        wl_sum(a, b, n) == wl_sum(b, a, n),
    decreases n,
{
    if n > 0 {
        law_wl_kernel_symmetric(a, b, n - 1);
        law_matches_symmetric(a[n - 1], b[n - 1]);
    }
}

/// Weisfeiler–Lehman subtree kernel: summed over the rounds, the inner product of
/// the two rounds' label histograms (the number of equal-label node pairs).
pub fn wl_kernel(a: &Vec<Vec<u64>>, b: &Vec<Vec<u64>>) -> (r: u64)
    requires
        a@.len() == b@.len(),
        wl_sum(a.deep_view(), b.deep_view(), a@.len() as int) <= u64::MAX,
    ensures
        r == wl_sum(a.deep_view(), b.deep_view(), a@.len() as int),
{
    let ghost da = a.deep_view();
    let ghost db = b.deep_view();
    let mut sum: u64 = 0;
    let mut t: usize = 0;
    while t < a.len()
        invariant
            a@.len() == b@.len(),
            da == a.deep_view(),
            db == b.deep_view(),
            t <= a@.len(),
            wl_sum(da, db, a@.len() as int) <= u64::MAX,
            sum == wl_sum(da, db, t as int),
        decreases a@.len() - t,
    {
        let ha = label_histogram(&a[t]);
        let hb = label_histogram(&b[t]);
        let (ak, am) = ha.parts();
        let (_bk, bm) = hb.parts();
        proof {
            assert(a@[t as int]@ == da[t as int]);
            assert(b@[t as int]@ == db[t as int]);
            lemma_histogram_dot(ak@, am@, da[t as int], bm@, db[t as int]);
            lemma_wl_sum_mono(da, db, t + 1, a@.len() as int);
        }
        let ip = inner_product(ak, am, bm);
        sum = sum + ip;
        t += 1;
    }
    sum
}

impl Histogram {
    fn parts(&self) -> (r: (&Vec<u64>, &HashMap<u64, u64>))
        ensures
            r.0@ == self.labels(),
            r.1@ == self@,
            keys_of(self.labels(), self@),
    {
        proof { use_type_invariant(self); }
        (&self.keys, &self.counts)
    }
}

/// Default initial WL labeling: each node's degree.
pub fn degree_labeling<N>(g: &Snapshot<N>) -> (r: Vec<u64>)
    ensures
        r@.len() == g.ids().len(),
        forall|i: int| 0 <= i < r@.len() ==> #[trigger] r@[i] == g.graph()[i].len(),
{
    let n = g.len();
    let mut r: Vec<u64> = Vec::new();
    let mut i: usize = 0;
    while i < n
        invariant
            i <= n,
            n == g.ids().len(),
            r@.len() == i,
            forall|j: int| 0 <= j < i ==> #[trigger] r@[j] == g.graph()[j].len(),
        decreases n - i,
    {
        let d = g.neighbors(i).len();
        r.push(d as u64);
        i += 1;
    }
    r
}

/// Shortest-path kernel: the inner product of two distance histograms.
pub fn shortest_path_kernel(a: &Histogram, b: &Histogram) -> (r: u64)
    requires
        wdot(a.labels(), a@, b@) <= u64::MAX,
    ensures
        r == wdot(a.labels(), a@, b@),
{
    let (ak, am) = a.parts();
    let (_bk, bm) = b.parts();
    inner_product(ak, am, bm)
}

/// Normalization mode for a Gram matrix.
#[derive(Clone, Copy, Debug, PartialEq, Eq)]
pub enum GramNormalization {
    /// Raw kernel values, unnormalized.
    Raw,
    /// Cosine-normalize: entry `(i,j)` divided by `sqrt(k(i,i) * k(j,j))`.
    Cosine,
}

} // verus!
