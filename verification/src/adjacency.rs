//! Owned neighbor lists with a constant-time membership probe per vertex.
use vstd::prelude::*;
use std::collections::HashSet;

verus! {

broadcast use vstd::std_specs::hash::group_hash_axioms;

/// `v` is strictly increasing.
pub open spec fn sorted_strict(v: Seq<usize>) -> bool {
    forall|a: int, b: int| 0 <= a < b < v.len() ==> v[a] < v[b]
}

pub proof fn lemma_sorted_no_dup(v: Seq<usize>)
    requires
        sorted_strict(v),
    ensures
        v.no_duplicates(),
{
    assert forall|a: int, b: int| 0 <= a < v.len() && 0 <= b < v.len() && a != b implies v[a] != v[b] by {
        if a < b { assert(v[a] < v[b]); } else { assert(v[b] < v[a]); }
    }
}

/// Neighbor lists over `0..n` (sorted, in range) with a membership set per vertex.
pub struct Adjacency {
    pub lists: Vec<Vec<usize>>,
    pub sets: Vec<HashSet<usize>>,
}

/// Insert `x` into a strictly increasing vector unless it is already there.
pub fn insert_sorted_usize(v: &mut Vec<usize>, x: usize)
    requires
        sorted_strict(old(v)@),
    ensures
        sorted_strict(final(v)@),
        forall|y: usize| #[trigger] final(v)@.contains(y) <==> (old(v)@.contains(y) || y == x),
{
    let mut pos: usize = 0;
    while pos < v.len() && v[pos] < x
        invariant
            pos <= v.len(),
            forall|a: int| 0 <= a < pos ==> v@[a] < x,
        decreases v.len() - pos,
    {
        pos += 1;
    }
    if pos < v.len() && v[pos] == x {
        return;
    }
    let ghost o = v@;
    v.insert(pos, x);
    assert forall|y: usize| #[trigger] v@.contains(y) <==> (o.contains(y) || y == x) by {
        if v@.contains(y) {
            let w = choose|w: int| 0 <= w < v@.len() && v@[w] == y;
            if w < pos {
                assert(o[w] == y);
            } else if w > pos {
                assert(o[w - 1] == y);
            }
        }
        if o.contains(y) {
            let w = choose|w: int| 0 <= w < o.len() && o[w] == y;
            if w < pos {
                assert(v@[w] == y);
            } else {
                assert(v@[w + 1] == y);
            }
        }
        if y == x {
            assert(v@[pos as int] == y);
        }
    }
}

impl Adjacency {
    /// The neighbor lists.
    pub open spec fn graph(&self) -> Seq<Seq<usize>> {
        self.lists.deep_view()
    }

    pub open spec fn wf(&self) -> bool {
        &&& self.sets@.len() == self.lists@.len()
        &&& forall|i: int| 0 <= i < self.lists@.len() ==> (#[trigger] self.sets@[i])@ == self.lists@[i]@.to_set()
        &&& forall|i: int| 0 <= i < self.lists@.len() ==> sorted_strict(#[trigger] self.lists@[i]@)
        &&& forall|i: int, t: int| 0 <= i < self.lists@.len() && 0 <= t < self.lists@[i]@.len() ==> (#[trigger] self.lists@[i]@[t]) < self.lists@.len()
    }

    pub proof fn lemma_graph(&self)
        requires
            self.wf(),
        ensures
            self.graph().len() == self.lists@.len(),
            forall|i: int| 0 <= i < self.lists@.len() ==> #[trigger] self.graph()[i] == self.lists@[i]@,
            forall|i: int| 0 <= i < self.graph().len() ==> sorted_strict(#[trigger] self.graph()[i]) && self.graph()[i].no_duplicates(),
            forall|a: int, t: int| 0 <= a < self.graph().len() && 0 <= t < self.graph()[a].len() ==> (#[trigger] self.graph()[a][t]) < self.graph().len(),
    {
        assert forall|i: int| 0 <= i < self.graph().len() implies sorted_strict(#[trigger] self.graph()[i]) && self.graph()[i].no_duplicates() by {
            assert(self.graph()[i] == self.lists@[i]@);
            lemma_sorted_no_dup(self.graph()[i]);
        }
        assert forall|a: int, t: int| 0 <= a < self.graph().len() && 0 <= t < self.graph()[a].len() implies (#[trigger] self.graph()[a][t]) < self.graph().len() by {
            assert(self.graph()[a] == self.lists@[a]@);
        }
    }

    /// Number of vertices.
    pub fn len(&self) -> (r: usize)
        ensures
            r == self.lists@.len(),
    {
        self.lists.len()
    }

    /// Sorted neighbors of `i`.
    pub fn neighbors(&self, i: usize) -> (r: &Vec<usize>)
        requires
            self.wf(),
            i < self.lists@.len(),
        ensures
            r@ == self.graph()[i as int],
    {
        &self.lists[i]
    }

    /// Whether `b` is a neighbor of `a`.
    pub fn adjacent(&self, a: usize, b: usize) -> (r: bool)
        requires
            self.wf(),
            a < self.lists@.len(),
        ensures
            r == self.graph()[a as int].contains(b),
    {
        let r = self.sets[a].contains(&b);
        proof {
            assert(self.sets@[a as int]@ == self.lists@[a as int]@.to_set());
            assert(self.graph()[a as int] == self.lists@[a as int]@);
        }
        r
    }

    /// Neighbor lists over `0..n` from an arc list: `a` lists `b` for every arc
    /// `(a, b)` (and, when `both`, `b` lists `a`); self-loops are dropped and repeated
    /// arcs merged.
    pub fn from_arcs(n: usize, arcs: &Vec<(usize, usize)>, both: bool) -> (res: Adjacency)
        requires
            forall|e: int| 0 <= e < arcs@.len() ==> (#[trigger] arcs@[e]).0 < n && arcs@[e].1 < n,
        ensures
            res.wf(),
            res.lists@.len() == n,
            forall|a: usize, b: usize| a < n ==> (#[trigger] res.graph()[a as int].contains(b) <==> (a != b
                && (arcs@.contains((a, b)) || (both && arcs@.contains((b, a)))))),
    {
        let mut lists: Vec<Vec<usize>> = Vec::new();
        let mut t: usize = 0;
        while t < n
            invariant
                t <= n,
                lists@.len() == t,
                forall|i: int| 0 <= i < t ==> (#[trigger] lists@[i])@.len() == 0,
            decreases n - t,
        {
            lists.push(Vec::new());
            t += 1;
        }
        let mut e: usize = 0;
        while e < arcs.len()
            invariant
                e <= arcs.len(),
                lists@.len() == n,
                forall|f: int| 0 <= f < arcs@.len() ==> (#[trigger] arcs@[f]).0 < n && arcs@[f].1 < n,
                forall|i: int| 0 <= i < n ==> sorted_strict(#[trigger] lists@[i]@),
                forall|i: int, u: int| 0 <= i < n && 0 <= u < lists@[i]@.len() ==> (#[trigger] lists@[i]@[u]) < n,
                forall|a: usize, b: usize| a < n ==> (#[trigger] lists@[a as int]@.contains(b) <==> (a != b
                    && (arcs@.take(e as int).contains((a, b)) || (both && arcs@.take(e as int).contains((b, a)))))),
            decreases arcs.len() - e,
        {
            let (a, b) = arcs[e];
            let ghost lo = lists@;
            let ghost te = arcs@.take(e as int);
            let ghost te1 = arcs@.take(e + 1);
            assert(te1 =~= te.push((a, b)));
            if a != b {
                let mut ra = lists[a].clone();
                assert(ra@ =~= lists@[a as int]@);
                insert_sorted_usize(&mut ra, b);
                lists.set(a, ra);
                if both {
                    let mut rb = lists[b].clone();
                    assert(rb@ =~= lists@[b as int]@);
                    insert_sorted_usize(&mut rb, a);
                    lists.set(b, rb);
                }
            }
            assert forall|x: usize, y: usize| x < n implies (#[trigger] lists@[x as int]@.contains(y) <==> (x != y
                && (te1.contains((x, y)) || (both && te1.contains((y, x)))))) by {
                lemma_push_contains_pair(te, (a, b), (x, y));
                lemma_push_contains_pair(te, (a, b), (y, x));
                if a != b && x == a {
                } else if a != b && both && x == b {
                } else {
                    assert(lists@[x as int] == lo[x as int]);
                }
            }
            assert forall|i: int, u: int| 0 <= i < n && 0 <= u < lists@[i]@.len() implies (#[trigger] lists@[i]@[u]) < n by {
                if lists@[i] != lo[i] {
                    let y = lists@[i]@[u];
                    assert(lists@[i]@.contains(y));
                    if lo[i]@.contains(y) {
                        let w = choose|w: int| 0 <= w < lo[i]@.len() && lo[i]@[w] == y;
                    }
                }
            }
            e += 1;
        }
        let mut sets: Vec<HashSet<usize>> = Vec::new();
        let mut i: usize = 0;
        while i < n
            invariant
                i <= n,
                lists@.len() == n,
                sets@.len() == i,
                forall|j: int| 0 <= j < i ==> (#[trigger] sets@[j])@ == lists@[j]@.to_set(),
            decreases n - i,
        {
            let row = &lists[i];
            let mut hs: HashSet<usize> = HashSet::new();
            let mut u: usize = 0;
            while u < row.len()
                invariant
                    u <= row@.len(),
                    hs@ == row@.take(u as int).to_set(),
                decreases row@.len() - u,
            {
                hs.insert(row[u]);
                assert(row@.take(u + 1) =~= row@.take(u as int).push(row@[u as int]));
                assert(hs@ =~= row@.take(u + 1).to_set()) by {
                    assert forall|y: usize| hs@.contains(y) <==> row@.take(u + 1).to_set().contains(y) by {
                        lemma_push_contains_pair_u(row@.take(u as int), row@[u as int], y);
                    }
                }
                u += 1;
            }
            assert(row@.take(row@.len() as int) =~= row@);
            sets.push(hs);
            i += 1;
        }
        assert(arcs@.take(arcs@.len() as int) =~= arcs@);
        let res = Adjacency { lists, sets };
        proof {
            assert forall|a: usize, b: usize| a < n implies (#[trigger] res.graph()[a as int].contains(b) <==> (a != b
                && (arcs@.contains((a, b)) || (both && arcs@.contains((b, a)))))) by {
                assert(res.graph()[a as int] == res.lists@[a as int]@);
            }
        }
        res
    }
}

pub proof fn lemma_push_contains_pair(s: Seq<(usize, usize)>, x: (usize, usize), c: (usize, usize))
    ensures
        s.push(x).contains(c) <==> (s.contains(c) || c == x),
{
    if s.contains(c) {
        let w = choose|w: int| 0 <= w < s.len() && s[w] == c;
        assert(s.push(x)[w] == c);
    }
    if c == x {
        assert(s.push(x)[s.len() as int] == c);
    }
    if s.push(x).contains(c) {
        let w = choose|w: int| 0 <= w < s.push(x).len() && s.push(x)[w] == c;
        if w < s.len() {
            assert(s[w] == c);
        }
    }
}

pub proof fn lemma_push_contains_pair_u(s: Seq<usize>, x: usize, c: usize)
    ensures
        s.push(x).contains(c) <==> (s.contains(c) || c == x),
{
    if s.contains(c) {
        let w = choose|w: int| 0 <= w < s.len() && s[w] == c;
        assert(s.push(x)[w] == c);
    }
    if c == x {
        assert(s.push(x)[s.len() as int] == c);
    }
    if s.push(x).contains(c) {
        let w = choose|w: int| 0 <= w < s.push(x).len() && s.push(x)[w] == c;
        if w < s.len() {
            assert(s[w] == c);
        }
    }
}

} // verus!
