//! The counting side of significance testing: which classes a census significance
//! profile reports, and each class's observed count and null counts.
use vstd::prelude::*;
use crate::canonical::{all_connected_classes, insert_sorted, strictly_sorted, is_connected_class, ClassId};
use crate::census::{Census, MAX_K};

verus! {

/// The count a census map holds for class `c`, 0 when absent.
pub open spec fn count_or_zero(m: Map<u64, u64>, c: u64) -> u64 {
    if m.contains_key(c) { m[c] } else { 0 }
}

/// Class `c` is counted by `observed` or by one of `nulls`.
pub open spec fn seen_anywhere(observed: Map<u64, u64>, nulls: Seq<Census>, c: u64) -> bool {
    observed.contains_key(c) || exists|i: int| 0 <= i < nulls.len() && (#[trigger] nulls[i])@.contains_key(c)
}

/// Add every class of `census` to the strictly increasing `s`.
fn add_classes(s: &mut Vec<u64>, census: &Census)
    requires
        strictly_sorted(old(s)@),
    ensures
        strictly_sorted(final(s)@),
        forall|x: u64| #[trigger] final(s)@.contains(x) <==> (old(s)@.contains(x) || census@.contains_key(x)),
{
    let keys = census.keys();
    let ghost s0 = s@;
    let mut t: usize = 0;
    while t < keys.len()
        invariant
            t <= keys@.len(),
            keys@.len() == census.classes().len(),
            forall|i: int| 0 <= i < keys@.len() ==> (#[trigger] keys@[i]).0 == census.classes()[i],
            strictly_sorted(s@),
            forall|x: u64| #[trigger] s@.contains(x) <==> (s0.contains(x) || exists|u: int| 0 <= u < t && (#[trigger] keys@[u]).0 == x),
        decreases keys@.len() - t,
    {
        let c = keys[t].0;
        insert_sorted(s, c);
        proof {
            assert forall|x: u64| #[trigger] s@.contains(x) <==> (s0.contains(x) || exists|u: int| 0 <= u < t + 1 && (#[trigger] keys@[u]).0 == x) by {
                if x == c {
                    assert(keys@[t as int].0 == x);
                }
            }
        }
        t += 1;
    }
    proof {
        assert forall|x: u64| #[trigger] s@.contains(x) <==> (s0.contains(x) || census@.contains_key(x)) by {
            if census@.contains_key(x) {
                assert(census.classes().to_set().contains(x));
                let u = choose|u: int| 0 <= u < census.classes().len() && census.classes()[u] == x;
                assert(keys@[u].0 == x);
            }
            if exists|u: int| 0 <= u < keys@.len() && (#[trigger] keys@[u]).0 == x {
                let u = choose|u: int| 0 <= u < keys@.len() && (#[trigger] keys@[u]).0 == x;
                assert(census.classes().contains(x));
                assert(census.classes().to_set().contains(x));
            }
        }
    }
}

/// The classes a census significance profile of order `k` reports, ascending (every
/// connected class for `k <= 5`, else every class counted in the observed census or in
/// a null one), with each class's observed count and its counts in the null
/// censuses, in their order; a class a census lacks counts 0 there.
pub fn census_profile_counts(k: usize, observed: &Census, nulls: &Vec<Census>) -> (r: (Vec<u64>, Vec<u64>, Vec<Vec<u64>>))
    requires
        k <= MAX_K,
    ensures
        strictly_sorted(r.0@),
        k <= 5 ==> forall|c: u64| #[trigger] r.0@.contains(c) <==> is_connected_class(k as nat, c as nat),
        k > 5 ==> forall|c: u64| #[trigger] r.0@.contains(c) <==> seen_anywhere(observed@, nulls@, c),
        r.1@.len() == r.0@.len(),
        r.2@.len() == r.0@.len(),
        forall|j: int| 0 <= j < r.0@.len() ==> #[trigger] r.1@[j] == count_or_zero(observed@, r.0@[j]),
        forall|j: int| 0 <= j < r.0@.len() ==> (#[trigger] r.2@[j])@.len() == nulls@.len(),
        forall|j: int, i: int| 0 <= j < r.0@.len() && 0 <= i < nulls@.len()
            ==> #[trigger] r.2@[j]@[i] == count_or_zero(nulls@[i]@, r.0@[j]),
{
    let classes: Vec<u64> = if k <= 5 {
        all_connected_classes(k)
    } else {
        let mut s: Vec<u64> = Vec::new();
        add_classes(&mut s, observed);
        let mut i: usize = 0;
        while i < nulls.len()
            invariant
                i <= nulls@.len(),
                strictly_sorted(s@),
                forall|x: u64| #[trigger] s@.contains(x) <==> (observed@.contains_key(x)
                    || exists|u: int| 0 <= u < i && (#[trigger] nulls@[u])@.contains_key(x)),
            decreases nulls@.len() - i,
        {
            add_classes(&mut s, &nulls[i]);
            proof {
                assert forall|x: u64| #[trigger] s@.contains(x) <==> (observed@.contains_key(x)
                    || exists|u: int| 0 <= u < i + 1 && (#[trigger] nulls@[u])@.contains_key(x)) by {
                    if nulls@[i as int]@.contains_key(x) {
                        assert(0 <= i < i + 1);
                    }
                }
            }
            i += 1;
        }
        s
    };
    let mut obs: Vec<u64> = Vec::new();
    let mut rows: Vec<Vec<u64>> = Vec::new();
    let mut j: usize = 0;
    while j < classes.len()
        invariant
            j <= classes@.len(),
            obs@.len() == j,
            rows@.len() == j,
            forall|a: int| 0 <= a < j ==> #[trigger] obs@[a] == count_or_zero(observed@, classes@[a]),
            forall|a: int| 0 <= a < j ==> (#[trigger] rows@[a])@.len() == nulls@.len(),
            forall|a: int, i: int| 0 <= a < j && 0 <= i < nulls@.len()
                ==> #[trigger] rows@[a]@[i] == count_or_zero(nulls@[i]@, classes@[a]),
        decreases classes@.len() - j,
    {
        let cid = ClassId(classes[j]);
        let o = match observed.get(&cid) {
            Some(x) => x,
            None => 0,
        };
        obs.push(o);
        let mut row: Vec<u64> = Vec::new();
        let mut i: usize = 0;
        while i < nulls.len()
            invariant
                i <= nulls@.len(),
                j < classes@.len(),
                cid.0 == classes@[j as int],
                row@.len() == i,
                forall|u: int| 0 <= u < i ==> #[trigger] row@[u] == count_or_zero(nulls@[u]@, classes@[j as int]),
            decreases nulls@.len() - i,
        {
            let x = match nulls[i].get(&cid) {
                Some(x) => x,
                None => 0,
            };
            row.push(x);
            i += 1;
        }
        rows.push(row);
        j += 1;
    }
    (classes, obs, rows)
}

} // verus!
