//! The directed triad census: the 16 standard isomorphism classes of 3-node directed
//! graphs, named by their counts of Mutual, Asymmetric and Null dyads (MAN codes),
//! with subtypes for 021, 111, 030 and 120.
use vstd::prelude::*;
use crate::canonical::{list_adj, answers};
use crate::dsnapshot::DirectedSnapshot;

verus! {

/// The 16 standard triad types, in the standard census order.
#[derive(Clone, Copy, PartialEq, Eq, Structural, PartialOrd, Ord, Hash, Debug)]
pub enum TriadType {
    /// Empty triad.
    T003,
    /// One asymmetric dyad.
    T012,
    /// One mutual dyad.
    T102,
    /// Out-star.
    T021D,
    /// In-star.
    T021U,
    /// Chain.
    T021C,
    /// Mutual dyad with an arc into it.
    T111D,
    /// Mutual dyad with an arc out of it.
    T111U,
    /// Transitive triad.
    T030T,
    /// Cyclic triad.
    T030C,
    /// Two mutual dyads.
    T201,
    /// Mutual dyad and an out-star center.
    T120D,
    /// Mutual dyad and an in-star center.
    T120U,
    /// Mutual dyad and a chain.
    T120C,
    /// Two mutual dyads and an asymmetric one.
    T210,
    /// Complete triad.
    T300,
}

// ---------------------------------------------------------------------------
// The classification as a specification
// ---------------------------------------------------------------------------

/// Both arcs between `p` and `q` are present.
pub open spec fn mutual(arc: spec_fn(usize, usize) -> bool, p: usize, q: usize) -> bool {
    arc(p, q) && arc(q, p)
}

/// Exactly one arc between `p` and `q` is present.
pub open spec fn asym(arc: spec_fn(usize, usize) -> bool, p: usize, q: usize) -> bool {
    arc(p, q) != arc(q, p)
}

/// How many of three conditions hold.
pub open spec fn count3(a: bool, b: bool, c: bool) -> nat {
    (if a { 1nat } else { 0nat }) + (if b { 1nat } else { 0nat }) + (if c { 1nat } else { 0nat })
}

/// The out-degree of `v` towards `o1` and `o2`.
pub open spec fn outdeg(arc: spec_fn(usize, usize) -> bool, v: usize, o1: usize, o2: usize) -> nat {
    (if arc(v, o1) { 1nat } else { 0nat }) + (if arc(v, o2) { 1nat } else { 0nat })
}

/// Down / Up / Chain by the out-degree of the distinguished node.
pub open spec fn by_out(n_out: nat, d: TriadType, u: TriadType, c: TriadType) -> TriadType {
    if n_out == 2 { d } else if n_out == 0 { u } else { c }
}

/// The type of the triad `{x, y, z}` under the arcs `arc`.
pub open spec fn triad_of(arc: spec_fn(usize, usize) -> bool, x: usize, y: usize, z: usize) -> TriadType {
    let m = count3(mutual(arc, x, y), mutual(arc, x, z), mutual(arc, y, z));
    let a = count3(asym(arc, x, y), asym(arc, x, z), asym(arc, y, z));
    if m == 0 && a == 0 {
        TriadType::T003
    } else if m == 0 && a == 1 {
        TriadType::T012
    } else if m == 1 && a == 0 {
        TriadType::T102
    } else if a == 2 && m <= 1 {
        // the center: the node both of whose dyads are asymmetric
        let n_out = if asym(arc, x, y) && asym(arc, x, z) {
            outdeg(arc, x, y, z)
        } else if asym(arc, y, x) && asym(arc, y, z) {
            outdeg(arc, y, x, z)
        } else {
            outdeg(arc, z, x, y)
        };
        if m == 0 {
            by_out(n_out, TriadType::T021D, TriadType::T021U, TriadType::T021C)
        } else {
            by_out(n_out, TriadType::T120D, TriadType::T120U, TriadType::T120C)
        }
    } else if m == 1 && a == 1 {
        // the node outside the mutual dyad either sends the asymmetric arc or receives it
        let r_out = if mutual(arc, x, y) {
            outdeg(arc, z, x, y)
        } else if mutual(arc, x, z) {
            outdeg(arc, y, x, z)
        } else {
            outdeg(arc, x, y, z)
        };
        if r_out > 0 { TriadType::T111D } else { TriadType::T111U }
    } else if m == 0 && a == 3 {
        if outdeg(arc, x, y, z) == 2 || outdeg(arc, y, x, z) == 2 || outdeg(arc, z, x, y) == 2 {
            TriadType::T030T
        } else {
            TriadType::T030C
        }
    } else if m == 2 && a == 0 {
        TriadType::T201
    } else if m == 2 && a == 1 {
        TriadType::T210
    } else {
        TriadType::T300
    }
}

proof fn lemma_swap_first(arc: spec_fn(usize, usize) -> bool, x: usize, y: usize, z: usize)
    requires
        x != y,
        x != z,
        y != z,
    ensures
        triad_of(arc, x, y, z) == triad_of(arc, y, x, z),
{
    let (b1, b2, b3, b4, b5, b6) = (arc(x, y), arc(y, x), arc(x, z), arc(z, x), arc(y, z), arc(z, y));
    assert(outdeg(arc, x, y, z) == outdeg(arc, x, z, y));
    assert(outdeg(arc, y, x, z) == outdeg(arc, y, z, x));
    assert(outdeg(arc, z, x, y) == outdeg(arc, z, y, x));
}

proof fn lemma_swap_last(arc: spec_fn(usize, usize) -> bool, x: usize, y: usize, z: usize)
    requires
        x != y,
        x != z,
        y != z,
    ensures
        triad_of(arc, x, y, z) == triad_of(arc, x, z, y),
{
    assert(outdeg(arc, x, y, z) == outdeg(arc, x, z, y));
    assert(outdeg(arc, y, x, z) == outdeg(arc, y, z, x));
    assert(outdeg(arc, z, x, y) == outdeg(arc, z, y, x));
}

/// The triad type does not depend on how the three nodes are listed.
pub proof fn law_triad_relabel(arc: spec_fn(usize, usize) -> bool, x: usize, y: usize, z: usize)
    requires
        x != y,
        x != z,
        y != z,
    ensures
        triad_of(arc, x, y, z) == triad_of(arc, y, x, z),
        triad_of(arc, x, y, z) == triad_of(arc, x, z, y),
        triad_of(arc, x, y, z) == triad_of(arc, z, y, x),
        triad_of(arc, x, y, z) == triad_of(arc, y, z, x),
        triad_of(arc, x, y, z) == triad_of(arc, z, x, y),
{
    lemma_swap_first(arc, x, y, z);
    lemma_swap_last(arc, x, y, z);
    lemma_swap_last(arc, y, x, z);
    lemma_swap_first(arc, y, z, x);
    lemma_swap_first(arc, x, z, y);
    lemma_swap_last(arc, z, x, y);
}

/// The six arcs among `x`, `y`, `z` are exactly as given: `xy` says whether
/// `x -> y` is an arc, and so on.
pub open spec fn arcs_are(arc: spec_fn(usize, usize) -> bool, x: usize, y: usize, z: usize,
    xy: bool, yx: bool, xz: bool, zx: bool, yz: bool, zy: bool) -> bool {
    &&& arc(x, y) == xy && arc(y, x) == yx
    &&& arc(x, z) == xz && arc(z, x) == zx
    &&& arc(y, z) == yz && arc(z, y) == zy
}

/// The MAN table: one arc pattern of each of the 16 types on the listed nodes
/// `x, y, z` (every pattern of three nodes is a relabelling of one of these, and
/// [`law_triad_relabel`] says the type does not depend on the labelling).
///
/// 003 no arc; 012 `x->y`; 102 `x<->y`; 021D `x->y, x->z` (out-star);
/// 021U `y->x, z->x` (in-star); 021C `x->y->z` (chain); 111D `x<->y, z->y`;
/// 111U `x<->y, y->z`; 030T `x->y, x->z, y->z`; 030C `x->y->z->x`; 201 `x<->y,
/// x<->z`; 120D `y->x, y->z, x<->z`; 120U `x->y, z->y, x<->z`; 120C `x->y->z,
/// x<->z`; 210 `x<->y, x<->z, y->z`; 300 all six arcs.
pub proof fn law_man_table(arc: spec_fn(usize, usize) -> bool, x: usize, y: usize, z: usize)
    requires
        x != y,
        x != z,
        y != z,
    ensures
        arcs_are(arc, x, y, z, false, false, false, false, false, false) ==> triad_of(arc, x, y, z) == TriadType::T003,
        arcs_are(arc, x, y, z, true, false, false, false, false, false) ==> triad_of(arc, x, y, z) == TriadType::T012,
        arcs_are(arc, x, y, z, true, true, false, false, false, false) ==> triad_of(arc, x, y, z) == TriadType::T102,
        arcs_are(arc, x, y, z, true, false, true, false, false, false) ==> triad_of(arc, x, y, z) == TriadType::T021D,
        arcs_are(arc, x, y, z, false, true, false, true, false, false) ==> triad_of(arc, x, y, z) == TriadType::T021U,
        arcs_are(arc, x, y, z, true, false, false, false, true, false) ==> triad_of(arc, x, y, z) == TriadType::T021C,
        arcs_are(arc, x, y, z, true, true, false, false, false, true) ==> triad_of(arc, x, y, z) == TriadType::T111D,
        arcs_are(arc, x, y, z, true, true, false, false, true, false) ==> triad_of(arc, x, y, z) == TriadType::T111U,
        arcs_are(arc, x, y, z, true, false, true, false, true, false) ==> triad_of(arc, x, y, z) == TriadType::T030T,
        arcs_are(arc, x, y, z, true, false, false, true, true, false) ==> triad_of(arc, x, y, z) == TriadType::T030C,
        arcs_are(arc, x, y, z, true, true, true, true, false, false) ==> triad_of(arc, x, y, z) == TriadType::T201,
        arcs_are(arc, x, y, z, false, true, true, true, true, false) ==> triad_of(arc, x, y, z) == TriadType::T120D,
        arcs_are(arc, x, y, z, true, false, true, true, false, true) ==> triad_of(arc, x, y, z) == TriadType::T120U,
        arcs_are(arc, x, y, z, true, false, true, true, true, false) ==> triad_of(arc, x, y, z) == TriadType::T120C,
        arcs_are(arc, x, y, z, true, true, true, true, true, false) ==> triad_of(arc, x, y, z) == TriadType::T210,
        arcs_are(arc, x, y, z, true, true, true, true, true, true) ==> triad_of(arc, x, y, z) == TriadType::T300,
{
}

// ---------------------------------------------------------------------------
// Classifying a triad
// ---------------------------------------------------------------------------

/// A dyad's type: no arc, one arc, or both.
#[derive(Clone, Copy, PartialEq, Eq, Structural, Debug)]
enum Dyad {
    Null,
    Asym,
    Mutual,
}

spec fn dyad_of(ab: bool, ba: bool) -> Dyad {
    if ab && ba { Dyad::Mutual } else if !ab && !ba { Dyad::Null } else { Dyad::Asym }
}

fn dyad(ab: bool, ba: bool) -> (d: Dyad)
    ensures
        d == dyad_of(ab, ba),
{
    match (ab, ba) {
        (false, false) => Dyad::Null,
        (true, true) => Dyad::Mutual,
        _ => Dyad::Asym,
    }
}

/// `has_arc` may be asked about any ordered pair of `{x, y, z}` and answers as `arc`.
pub open spec fn answers_on<F: Fn(usize, usize) -> bool>(has_arc: F, arc: spec_fn(usize, usize) -> bool, x: usize, y: usize, z: usize) -> bool {
    &&& forall|a: usize, b: usize| (a == x || a == y || a == z) && (b == x || b == y || b == z) ==> #[trigger] has_arc.requires((a, b))
    &&& forall|a: usize, b: usize, r: bool| (a == x || a == y || a == z) && (b == x || b == y || b == z)
        && #[trigger] has_arc.ensures((a, b), r) ==> r == arc(a, b)
}

/// The dyads of `{x, y, z}` in pair order `(x, y), (x, z), (y, z)`.
spec fn dyads_of(arc: spec_fn(usize, usize) -> bool, x: usize, y: usize, z: usize) -> Seq<Dyad> {
    seq![dyad_of(arc(x, y), arc(y, x)), dyad_of(arc(x, z), arc(z, x)), dyad_of(arc(y, z), arc(z, y))]
}

/// The node the two asymmetric dyads share, and the two others.
fn asym_center(dyads: &[Dyad; 3], pairs: &[(usize, usize); 3], Ghost(arc): Ghost<spec_fn(usize, usize) -> bool>, Ghost(x): Ghost<usize>, Ghost(y): Ghost<usize>, Ghost(z): Ghost<usize>) -> (r: (usize, usize, usize))
    requires
        x != y,
        x != z,
        y != z,
        dyads@ == dyads_of(arc, x, y, z),
        pairs@ == seq![(x, y), (x, z), (y, z)],
        count3(asym(arc, x, y), asym(arc, x, z), asym(arc, y, z)) == 2,
    ensures
        (asym(arc, x, y) && asym(arc, x, z)) ==> r.0 == x && ((r.1 == y && r.2 == z) || (r.1 == z && r.2 == y)),
        !(asym(arc, x, y) && asym(arc, x, z)) && (asym(arc, y, x) && asym(arc, y, z)) ==> r.0 == y && ((r.1 == x && r.2 == z) || (r.1 == z && r.2 == x)),
        !(asym(arc, x, y) && asym(arc, x, z)) && !(asym(arc, y, x) && asym(arc, y, z)) ==> r.0 == z && ((r.1 == x && r.2 == y) || (r.1 == y && r.2 == x)),
{
    let mut asym_pairs: Vec<(usize, usize)> = Vec::new();
    let mut i: usize = 0;
    while i < 3
        invariant
            i <= 3,
            dyads@ == dyads_of(arc, x, y, z),
            pairs@ == seq![(x, y), (x, z), (y, z)],
            asym_pairs@ == Seq::new(3, |j: int| pairs@[j]).take(i as int).filter(|pr: (usize, usize)| dyad_of(arc(pr.0, pr.1), arc(pr.1, pr.0)) == Dyad::Asym),
        decreases 3 - i,
    {
        if dyads[i] == Dyad::Asym {
            asym_pairs.push(pairs[i]);
        }
        proof {
            let sq = Seq::new(3, |j: int| pairs@[j]);
            let pred = |pr: (usize, usize)| dyad_of(arc(pr.0, pr.1), arc(pr.1, pr.0)) == Dyad::Asym;
            assert(sq.take(i + 1) =~= sq.take(i as int).push(sq[i as int]));
            sq.take(i as int).lemma_filter_push(sq[i as int], pred);
        }
        i += 1;
    }
    proof {
        let sq = Seq::new(3, |j: int| pairs@[j]);
        assert(sq.take(3) =~= sq);
        let pred = |pr: (usize, usize)| dyad_of(arc(pr.0, pr.1), arc(pr.1, pr.0)) == Dyad::Asym;
        reveal_with_fuel(Seq::filter, 4);
        assert(sq =~= seq![(x, y), (x, z), (y, z)]);
        assert(sq.drop_last() =~= seq![(x, y), (x, z)]);
        assert(sq.drop_last().drop_last() =~= seq![(x, y)]);
        assert(sq.drop_last().drop_last().drop_last() =~= Seq::<(usize, usize)>::empty());
    }
    let p = asym_pairs[0];
    let q = asym_pairs[1];
    let center = if p.0 == q.0 || p.0 == q.1 { p.0 } else { p.1 };
    let o1 = if p.0 == center { p.1 } else { p.0 };
    let o2 = if q.0 == center { q.1 } else { q.0 };
    (center, o1, o2)
}

/// The closure may be called on every ordered pair of `{x, y, z}`, and no such call
/// may answer both ways.
pub open spec fn decides_on<F: Fn(usize, usize) -> bool>(has_arc: F, x: usize, y: usize, z: usize) -> bool {
    forall|a: usize, b: usize| (a == x || a == y || a == z) && (b == x || b == y || b == z)
        ==> #[trigger] has_arc.requires((a, b)) && !(has_arc.ensures((a, b), true) && has_arc.ensures((a, b), false))
}

/// Classify the labelled triple `(x, y, z)` of distinct nodes by its arcs
/// (`has_arc(i, j)` tells whether `i -> j` is present) into one of the 16 types.
pub fn classify<F: Fn(usize, usize) -> bool>(x: usize, y: usize, z: usize, has_arc: F) -> (t: TriadType)
    requires
        x != y,
        x != z,
        y != z,
        decides_on(has_arc, x, y, z),
    ensures
        t == triad_of(answers(has_arc), x, y, z),
{
    proof {
        assert forall|a: usize, b: usize, r: bool| (a == x || a == y || a == z) && (b == x || b == y || b == z)
            && #[trigger] has_arc.ensures((a, b), r) implies r == answers(has_arc)(a, b) by {
            assert(has_arc.requires((a, b)));
        }
    }
    classify_fn(x, y, z, has_arc, Ghost(answers(has_arc)))
}

/// Classify the labelled triple `(x, y, z)` of distinct nodes by its arcs
/// (`has_arc(i, j)` tells whether `i -> j` is present) into one of the 16 types.
fn classify_fn<F: Fn(usize, usize) -> bool>(x: usize, y: usize, z: usize, has_arc: F, Ghost(arc): Ghost<spec_fn(usize, usize) -> bool>) -> (t: TriadType)
    requires
        x != y,
        x != z,
        y != z,
        answers_on(has_arc, arc, x, y, z),
    ensures
        t == triad_of(arc, x, y, z),
{
    let (dyads, m, a) = dyad_counts(x, y, z, &has_arc, Ghost(arc));
    let pairs = [(x, y), (x, z), (y, z)];
    if m == 0 && a == 0 {
        TriadType::T003
    } else if m == 0 && a == 1 {
        TriadType::T012
    } else if m == 1 && a == 0 {
        TriadType::T102
    } else if m == 0 && a == 2 {
        center_subtype(&dyads, &pairs, &has_arc, Ghost(arc), Ghost(x), Ghost(y), Ghost(z))
    } else if m == 1 && a == 1 {
        mutual_subtype(&dyads, &pairs, &has_arc, Ghost(arc), Ghost(x), Ghost(y), Ghost(z))
    } else if m == 0 && a == 3 {
        // all dyads asymmetric: transitive when some node sends both of its arcs
        let dx = out_deg(x, y, z, &has_arc, Ghost(arc));
        let dy = out_deg(y, x, z, &has_arc, Ghost(arc));
        let dz = out_deg(z, x, y, &has_arc, Ghost(arc));
        if dx == 2 || dy == 2 || dz == 2 { TriadType::T030T } else { TriadType::T030C }
    } else if m == 2 && a == 0 {
        TriadType::T201
    } else if m == 1 && a == 2 {
        center_subtype_120(&dyads, &pairs, &has_arc, Ghost(arc), Ghost(x), Ghost(y), Ghost(z))
    } else if m == 2 && a == 1 {
        TriadType::T210
    } else {
        TriadType::T300
    }
}


/// The out-degree of `v` towards `o1` and `o2`.
fn out_deg<F: Fn(usize, usize) -> bool>(v: usize, o1: usize, o2: usize, has_arc: &F, Ghost(arc): Ghost<spec_fn(usize, usize) -> bool>) -> (d: usize)
    requires
        v != o1,
        v != o2,
        has_arc.requires((v, o1)),
        has_arc.requires((v, o2)),
        forall|b: usize, r: bool| (b == o1 || b == o2) && #[trigger] has_arc.ensures((v, b), r) ==> r == arc(v, b),
    ensures
        d == outdeg(arc, v, o1, o2),
{
    let mut d: usize = 0;
    if has_arc(v, o1) {
        d += 1;
    }
    if has_arc(v, o2) {
        d += 1;
    }
    d
}

/// 021D/U/C: both asymmetric arcs leave the center, both enter it, or one each.
fn center_subtype<F: Fn(usize, usize) -> bool>(dyads: &[Dyad; 3], pairs: &[(usize, usize); 3], has_arc: &F, Ghost(arc): Ghost<spec_fn(usize, usize) -> bool>, Ghost(x): Ghost<usize>, Ghost(y): Ghost<usize>, Ghost(z): Ghost<usize>) -> (t: TriadType)
    requires
        x != y,
        x != z,
        y != z,
        answers_on(*has_arc, arc, x, y, z),
        dyads@ == dyads_of(arc, x, y, z),
        pairs@ == seq![(x, y), (x, z), (y, z)],
        count3(mutual(arc, x, y), mutual(arc, x, z), mutual(arc, y, z)) == 0,
        count3(asym(arc, x, y), asym(arc, x, z), asym(arc, y, z)) == 2,
    ensures
        t == triad_of(arc, x, y, z),
{
    let (center, o1, o2) = asym_center(dyads, pairs, Ghost(arc), Ghost(x), Ghost(y), Ghost(z));
    let out1 = has_arc(center, o1);
    let out2 = has_arc(center, o2);
    if out1 && out2 {
        TriadType::T021D
    } else if !out1 && !out2 {
        TriadType::T021U
    } else {
        TriadType::T021C
    }
}

/// 120D/U/C: the same center logic as 021, the remaining dyad being mutual.
fn center_subtype_120<F: Fn(usize, usize) -> bool>(dyads: &[Dyad; 3], pairs: &[(usize, usize); 3], has_arc: &F, Ghost(arc): Ghost<spec_fn(usize, usize) -> bool>, Ghost(x): Ghost<usize>, Ghost(y): Ghost<usize>, Ghost(z): Ghost<usize>) -> (t: TriadType)
    requires
        x != y,
        x != z,
        y != z,
        answers_on(*has_arc, arc, x, y, z),
        dyads@ == dyads_of(arc, x, y, z),
        pairs@ == seq![(x, y), (x, z), (y, z)],
        count3(mutual(arc, x, y), mutual(arc, x, z), mutual(arc, y, z)) == 1,
        count3(asym(arc, x, y), asym(arc, x, z), asym(arc, y, z)) == 2,
    ensures
        t == triad_of(arc, x, y, z),
{
    let (center, o1, o2) = asym_center(dyads, pairs, Ghost(arc), Ghost(x), Ghost(y), Ghost(z));
    let out1 = has_arc(center, o1);
    let out2 = has_arc(center, o2);
    if out1 && out2 {
        TriadType::T120D
    } else if !out1 && !out2 {
        TriadType::T120U
    } else {
        TriadType::T120C
    }
}

/// 111D/U: the asymmetric arc points into the mutual pair, or out of it.
fn mutual_subtype<F: Fn(usize, usize) -> bool>(dyads: &[Dyad; 3], pairs: &[(usize, usize); 3], has_arc: &F, Ghost(arc): Ghost<spec_fn(usize, usize) -> bool>, Ghost(x): Ghost<usize>, Ghost(y): Ghost<usize>, Ghost(z): Ghost<usize>) -> (t: TriadType)
    requires
        x != y,
        x != z,
        y != z,
        answers_on(*has_arc, arc, x, y, z),
        dyads@ == dyads_of(arc, x, y, z),
        pairs@ == seq![(x, y), (x, z), (y, z)],
        count3(mutual(arc, x, y), mutual(arc, x, z), mutual(arc, y, z)) == 1,
        count3(asym(arc, x, y), asym(arc, x, z), asym(arc, y, z)) == 1,
    ensures
        t == triad_of(arc, x, y, z),
{
    let mut asym_idx: usize = 0;
    while asym_idx < 2 && dyads[asym_idx] != Dyad::Asym
        invariant
            asym_idx <= 2,
            dyads@ == dyads_of(arc, x, y, z),
            forall|j: int| 0 <= j < asym_idx ==> dyads@[j] != Dyad::Asym,
        decreases 2 - asym_idx,
    {
        asym_idx += 1;
    }
    let mut mutual_idx: usize = 0;
    while mutual_idx < 2 && dyads[mutual_idx] != Dyad::Mutual
        invariant
            mutual_idx <= 2,
            dyads@ == dyads_of(arc, x, y, z),
            forall|j: int| 0 <= j < mutual_idx ==> dyads@[j] != Dyad::Mutual,
        decreases 2 - mutual_idx,
    {
        mutual_idx += 1;
    }
    let (u, v) = pairs[asym_idx];
    let (mp, mq) = pairs[mutual_idx];
    proof {
        assert(dyads@[asym_idx as int] == Dyad::Asym);
        assert(dyads@[mutual_idx as int] == Dyad::Mutual);
    }
    if has_arc(u, v) {
        if v == mp || v == mq { TriadType::T111D } else { TriadType::T111U }
    } else {
        if u == mp || u == mq { TriadType::T111D } else { TriadType::T111U }
    }
}

/// The three dyads of `(x, y, z)` and how many are mutual and asymmetric.
fn dyad_counts<F: Fn(usize, usize) -> bool>(x: usize, y: usize, z: usize, has_arc: &F, Ghost(arc): Ghost<spec_fn(usize, usize) -> bool>) -> (r: ([Dyad; 3], usize, usize))
    requires
        answers_on(*has_arc, arc, x, y, z),
    ensures
        r.0@ == dyads_of(arc, x, y, z),
        r.1 == count3(mutual(arc, x, y), mutual(arc, x, z), mutual(arc, y, z)),
        r.2 == count3(asym(arc, x, y), asym(arc, x, z), asym(arc, y, z)),
{
    let dxy = dyad(has_arc(x, y), has_arc(y, x));
    let dxz = dyad(has_arc(x, z), has_arc(z, x));
    let dyz = dyad(has_arc(y, z), has_arc(z, y));
    let dyads = [dxy, dxz, dyz];
    let mut m: usize = 0;
    let mut a: usize = 0;
    let mut i: usize = 0;
    while i < 3
        invariant
            i <= 3,
            dyads@ == seq![dxy, dxz, dyz],
            m == count3(i > 0 && dyads@[0] == Dyad::Mutual, i > 1 && dyads@[1] == Dyad::Mutual, i > 2 && dyads@[2] == Dyad::Mutual),
            a == count3(i > 0 && dyads@[0] == Dyad::Asym, i > 1 && dyads@[1] == Dyad::Asym, i > 2 && dyads@[2] == Dyad::Asym),
        decreases 3 - i,
    {
        if dyads[i] == Dyad::Mutual {
            m += 1;
        }
        if dyads[i] == Dyad::Asym {
            a += 1;
        }
        i += 1;
    }
    proof {
        assert(dyads@ == dyads_of(arc, x, y, z));
    }
    (dyads, m, a)
}

// ---------------------------------------------------------------------------
// Names and order of the types
// ---------------------------------------------------------------------------

/// The position of a type in the standard census order.
pub open spec fn type_index(t: TriadType) -> nat {
    match t {
        TriadType::T003 => 0,
        TriadType::T012 => 1,
        TriadType::T102 => 2,
        TriadType::T021D => 3,
        TriadType::T021U => 4,
        TriadType::T021C => 5,
        TriadType::T111D => 6,
        TriadType::T111U => 7,
        TriadType::T030T => 8,
        TriadType::T030C => 9,
        TriadType::T201 => 10,
        TriadType::T120D => 11,
        TriadType::T120U => 12,
        TriadType::T120C => 13,
        TriadType::T210 => 14,
        TriadType::T300 => 15,
    }
}

/// The standard label of a type.
pub open spec fn label_of(t: TriadType) -> Seq<char> {
    match t {
        TriadType::T003 => "003"@,
        TriadType::T012 => "012"@,
        TriadType::T102 => "102"@,
        TriadType::T021D => "021D"@,
        TriadType::T021U => "021U"@,
        TriadType::T021C => "021C"@,
        TriadType::T111D => "111D"@,
        TriadType::T111U => "111U"@,
        TriadType::T030T => "030T"@,
        TriadType::T030C => "030C"@,
        TriadType::T201 => "201"@,
        TriadType::T120D => "120D"@,
        TriadType::T120U => "120U"@,
        TriadType::T120C => "120C"@,
        TriadType::T210 => "210"@,
        TriadType::T300 => "300"@,
    }
}

impl TriadType {
    /// All 16 types, in the standard census order.
    pub fn all() -> (r: [TriadType; 16])
        ensures
            forall|i: int| 0 <= i < 16 ==> type_index(#[trigger] r@[i]) == i,
    {
        [
            TriadType::T003, TriadType::T012, TriadType::T102, TriadType::T021D, TriadType::T021U,
            TriadType::T021C, TriadType::T111D, TriadType::T111U, TriadType::T030T, TriadType::T030C,
            TriadType::T201, TriadType::T120D, TriadType::T120U, TriadType::T120C, TriadType::T210,
            TriadType::T300,
        ]
    }

    /// The standard label, e.g. `"021C"`, `"300"`.
    pub fn label(self) -> (r: &'static str)
        ensures
            r@ == label_of(self),
    {
        match self {
            TriadType::T003 => "003",
            TriadType::T012 => "012",
            TriadType::T102 => "102",
            TriadType::T021D => "021D",
            TriadType::T021U => "021U",
            TriadType::T021C => "021C",
            TriadType::T111D => "111D",
            TriadType::T111U => "111U",
            TriadType::T030T => "030T",
            TriadType::T030C => "030C",
            TriadType::T201 => "201",
            TriadType::T120D => "120D",
            TriadType::T120U => "120U",
            TriadType::T120C => "120C",
            TriadType::T210 => "210",
            TriadType::T300 => "300",
        }
    }

    /// This type's position in [`TriadType::all`].
    fn index(self) -> (r: usize)
        ensures
            r == type_index(self),
    {
        let all = TriadType::all();
        let mut i: usize = 0;
        while i < 15 && all[i] != self
            invariant
                i <= 15,
                forall|j: int| 0 <= j < 16 ==> type_index(#[trigger] all@[j]) == j,
                forall|j: int| 0 <= j < i ==> all@[j] != self,
            decreases 15 - i,
        {
            i += 1;
        }
        proof {
            if all@[i as int] != self {
                let j = type_index(self) as int;
                lemma_type_index_injective(all@[j], self);
            }
        }
        i
    }
}

proof fn lemma_type_index_injective(a: TriadType, b: TriadType)
    requires
        type_index(a) == type_index(b),
    ensures
        a == b,
{
    match a {
        TriadType::T003 => {}, TriadType::T012 => {}, TriadType::T102 => {}, TriadType::T021D => {},
        TriadType::T021U => {}, TriadType::T021C => {}, TriadType::T111D => {}, TriadType::T111U => {},
        TriadType::T030T => {}, TriadType::T030C => {}, TriadType::T201 => {}, TriadType::T120D => {},
        TriadType::T120U => {}, TriadType::T120C => {}, TriadType::T210 => {}, TriadType::T300 => {},
    }
}

// ---------------------------------------------------------------------------
// The census
// ---------------------------------------------------------------------------

/// The sum of the first `i` counts.
pub open spec fn sum_counts(c: Seq<u64>, i: int) -> nat
    decreases i,
{
    if i <= 0 { 0 } else { sum_counts(c, i - 1) + (c[i - 1] as nat) }
}

proof fn lemma_sum_counts_update(c: Seq<u64>, j: int, v: u64, i: int)
    requires
        0 <= j < c.len(),
        i <= c.len(),
    ensures
        sum_counts(c.update(j, v), i) == sum_counts(c, i) - (if j < i { c[j] as int } else { 0 }) + (if j < i { v as int } else { 0 }),
    decreases i,
{
    if i > 0 {
        lemma_sum_counts_update(c, j, v, i - 1);
    }
}

proof fn lemma_sum_counts_mono(c: Seq<u64>, i: int, j: int)
    requires
        i <= j,
    ensures
        sum_counts(c, i) <= sum_counts(c, j),
    decreases j - i,
{
    if i < j {
        lemma_sum_counts_mono(c, i, j - 1);
    }
}

/// How many triads `(x, y, z)` with `y < z < zb` have type `t`.
pub open spec fn tri_z(arc: spec_fn(usize, usize) -> bool, t: TriadType, x: int, y: int, zb: int) -> nat
    decreases zb - y,
{
    if zb <= y + 1 { 0 } else { tri_z(arc, t, x, y, zb - 1) + (if triad_of(arc, x as usize, y as usize, (zb - 1) as usize) == t { 1nat } else { 0nat }) }
}

/// How many triads `(x, y, z)` with `x < y < yb`, `y < z < n` have type `t`.
pub open spec fn tri_y(arc: spec_fn(usize, usize) -> bool, t: TriadType, x: int, yb: int, n: int) -> nat
    decreases yb - x,
{
    if yb <= x + 1 { 0 } else { tri_y(arc, t, x, yb - 1, n) + tri_z(arc, t, x, yb - 1, n) }
}

/// How many triads `x < y < z < n` with `x < xb` have type `t`.
pub open spec fn tri_x(arc: spec_fn(usize, usize) -> bool, t: TriadType, xb: int, n: int) -> nat
    decreases xb,
{
    if xb <= 0 { 0 } else { tri_x(arc, t, xb - 1, n) + tri_y(arc, t, xb - 1, n, n) }
}

/// How many 3-node subsets of `0..n` form a triad of type `t`.
pub open spec fn triad_count(arc: spec_fn(usize, usize) -> bool, n: nat, t: TriadType) -> nat {
    tri_x(arc, t, n as int, n as int)
}

/// The count of each of the 16 triad types.
pub struct TriadCensus {
    counts: [u64; 16],
}

impl TriadCensus {
    #[verifier::type_invariant]
    spec fn inv(self) -> bool {
        sum_counts(self.counts@, 16) <= u64::MAX
    }

    /// The count of a type.
    pub closed spec fn count_of(&self, t: TriadType) -> u64 {
        self.counts@[type_index(t) as int]
    }

    /// The sum of all counts.
    pub closed spec fn sum(&self) -> nat {
        sum_counts(self.counts@, 16)
    }

    /// The count for one triad type.
    pub fn get(&self, t: TriadType) -> (r: u64)
        ensures
            r == self.count_of(t),
    {
        self.counts[t.index()]
    }

    /// The total over all types.
    pub fn total(&self) -> (r: u64)
        ensures
            r == self.sum(),
            r == over_types(|t: TriadType| self.count_of(t) as nat),
    {
        proof {
            use_type_invariant(self);
            assert(self.sum() == over_types(|t: TriadType| self.count_of(t) as nat)) by {
                reveal_with_fuel(sum_counts, 17);
            }
        }
        let mut s: u64 = 0;
        let mut i: usize = 0;
        while i < 16
            invariant
                i <= 16,
                s == sum_counts(self.counts@, i as int),
                sum_counts(self.counts@, 16) <= u64::MAX,
            decreases 16 - i,
        {
            proof { lemma_sum_counts_mono(self.counts@, i + 1, 16); }
            s = s + self.counts[i];
            i += 1;
        }
        s
    }

    /// `(type, count)` in the standard census order.
    pub fn iter(&self) -> (r: Vec<(TriadType, u64)>)
        ensures
            r@.len() == 16,
            forall|i: int| 0 <= i < 16 ==> type_index((#[trigger] r@[i]).0) == i && r@[i].1 == self.count_of(r@[i].0),
    {
        let all = TriadType::all();
        let mut r: Vec<(TriadType, u64)> = Vec::new();
        let mut i: usize = 0;
        while i < 16
            invariant
                i <= 16,
                r@.len() == i,
                forall|j: int| 0 <= j < 16 ==> type_index(#[trigger] all@[j]) == j,
                forall|j: int| 0 <= j < i ==> type_index((#[trigger] r@[j]).0) == j && r@[j].1 == self.count_of(r@[j].0),
            decreases 16 - i,
        {
            let t = all[i];
            r.push((t, self.get(t)));
            i += 1;
        }
        r
    }
}

proof fn lemma_elem_le_sum(c: Seq<u64>, j: int, i: int)
    requires
        0 <= j < i <= c.len(),
    ensures
        c[j] <= sum_counts(c, i),
    decreases i,
{
    if j < i - 1 {
        lemma_elem_le_sum(c, j, i - 1);
    }
}

proof fn lemma_pair_span_mono(x: int, a: int, b: int, n: int)
    requires
        x + 1 <= a <= b,
    ensures
        pair_span(x, a, n) <= pair_span(x, b, n),
    decreases b - a,
{
    if a < b {
        lemma_pair_span_mono(x, a, b - 1, n);
    }
}

proof fn lemma_triple_span_mono(a: int, b: int, n: int)
    requires
        0 <= a <= b,
    ensures
        triple_span(a, n) <= triple_span(b, n),
    decreases b - a,
{
    if a < b {
        lemma_triple_span_mono(a, b - 1, n);
    }
}

/// Counting the triple `(x, y, z)` after those before it stays within all triples.
proof fn lemma_span_step(x: int, y: int, z: int, n: int)
    requires
        0 <= x < y < z < n,
    ensures
        triple_span(x, n) + pair_span(x, y, n) + z_span(y, z + 1) <= triple_span(n, n),
{
    assert(pair_span(x, y + 1, n) == pair_span(x, y, n) + z_span(y, n));
    lemma_pair_span_mono(x, y + 1, n, n);
    assert(triple_span(x + 1, n) == triple_span(x, n) + pair_span(x, n, n));
    lemma_triple_span_mono(x + 1, n, n);
}

/// The directed triad census: every 3-node subset of the graph, classified into one of
/// the 16 types (connected or not).
pub fn triad_census<N>(g: &DirectedSnapshot<N>) -> (r: TriadCensus)
    requires
        g.ids().len() * (g.ids().len() - 1) * (g.ids().len() - 2) <= 6 * u64::MAX,
    ensures
        forall|t: TriadType| #[trigger] r.count_of(t) == triad_count(list_adj(g.arcs()), g.ids().len(), t),
        6 * r.sum() == g.ids().len() * (g.ids().len() - 1) * (g.ids().len() - 2),
{
    let n = g.len();
    let ghost arc = list_adj(g.arcs());
    let ghost nn = n as int;
    let mut counts: [u64; 16] = [0; 16];
    let ghost mut processed: nat = 0;
    proof {
        assert(sum_counts(counts@, 16) == 0) by {
            reveal_with_fuel(sum_counts, 17);
        }
        lemma_triple_span(nn, nn);
        assert((nn - nn) * (nn - nn - 1) * (nn - nn - 2) == 0) by (nonlinear_arith);
    }
    let mut x: usize = 0;
    while x < n
        invariant
            n == g.ids().len(),
            nn == n,
            arc == list_adj(g.arcs()),
            x <= n,
            triple_span(nn, nn) <= u64::MAX,
            forall|t: TriadType| #[trigger] counts@[type_index(t) as int] == tri_x(arc, t, x as int, nn),
            sum_counts(counts@, 16) == processed,
            processed == triple_span(x as int, nn),
        decreases n - x,
    {
        let mut y: usize = x + 1;
        proof {
            assert forall|t: TriadType| #[trigger] counts@[type_index(t) as int] == tri_x(arc, t, x as int, nn) + tri_y(arc, t, x as int, y as int, nn) by {}
            assert(pair_span(x as int, y as int, nn) == 0);
        }
        while y < n
            invariant
                n == g.ids().len(),
                nn == n,
                arc == list_adj(g.arcs()),
                x < n,
                x + 1 <= y <= n,
                triple_span(nn, nn) <= u64::MAX,
                forall|t: TriadType| #[trigger] counts@[type_index(t) as int] == tri_x(arc, t, x as int, nn) + tri_y(arc, t, x as int, y as int, nn),
                sum_counts(counts@, 16) == processed,
                processed == triple_span(x as int, nn) + pair_span(x as int, y as int, nn),
            decreases n - y,
        {
            let mut z: usize = y + 1;
            assert(z_span(y as int, z as int) == 0);
            while z < n
                invariant
                    n == g.ids().len(),
                    nn == n,
                    arc == list_adj(g.arcs()),
                    x < y < n,
                    y + 1 <= z <= n,
                    triple_span(nn, nn) <= u64::MAX,
                    forall|t: TriadType| #[trigger] counts@[type_index(t) as int] == tri_x(arc, t, x as int, nn)
                        + tri_y(arc, t, x as int, y as int, nn) + tri_z(arc, t, x as int, y as int, z as int),
                    sum_counts(counts@, 16) == processed,
                    processed == triple_span(x as int, nn) + pair_span(x as int, y as int, nn) + z_span(y as int, z as int),
                decreases n - z,
            {
                let has_arc = |a: usize, b: usize| -> (r: bool)
                    requires
                        a < g.ids().len(),
                    ensures
                        r == list_adj(g.arcs())(a, b),
                {
                    g.has_arc(a, b)
                };
                let t = classify_fn(x, y, z, has_arc, Ghost(arc));
                let i = t.index();
                proof {
                    lemma_span_step(x as int, y as int, z as int, nn);
                    lemma_elem_le_sum(counts@, i as int, 16);
                }
                let ghost c0 = counts@;
                counts[i] = counts[i] + 1;
                proof {
                    assert(counts@ == c0.update(i as int, (c0[i as int] + 1) as u64));
                    lemma_sum_counts_update(c0, i as int, (c0[i as int] + 1) as u64, 16);
                    processed = processed + 1;
                    assert forall|t2: TriadType| #[trigger] counts@[type_index(t2) as int] == tri_x(arc, t2, x as int, nn)
                        + tri_y(arc, t2, x as int, y as int, nn) + tri_z(arc, t2, x as int, y as int, z + 1) by {
                        if t2 != t {
                            if type_index(t2) == type_index(t) {
                                lemma_type_index_injective(t2, t);
                            }
                        }
                    }
                }
                z += 1;
            }
            proof {
                assert(pair_span(x as int, y + 1, nn) == pair_span(x as int, y as int, nn) + z_span(y as int, nn));
            }
            y += 1;
        }
        proof {
            assert(triple_span(x + 1, nn) == triple_span(x as int, nn) + pair_span(x as int, nn, nn));
        }
        x += 1;
    }
    let r = TriadCensus { counts };
    proof {
        let f = |t: TriadType| triad_count(arc, n as nat, t);
        law_triad_total(arc, n as nat);
        assert(r.sum() == over_types(f)) by {
            reveal_with_fuel(sum_counts, 17);
            assert(r.count_of(TriadType::T003) == f(TriadType::T003));
            assert(r.count_of(TriadType::T012) == f(TriadType::T012));
            assert(r.count_of(TriadType::T102) == f(TriadType::T102));
            assert(r.count_of(TriadType::T021D) == f(TriadType::T021D));
            assert(r.count_of(TriadType::T021U) == f(TriadType::T021U));
            assert(r.count_of(TriadType::T021C) == f(TriadType::T021C));
            assert(r.count_of(TriadType::T111D) == f(TriadType::T111D));
            assert(r.count_of(TriadType::T111U) == f(TriadType::T111U));
            assert(r.count_of(TriadType::T030T) == f(TriadType::T030T));
            assert(r.count_of(TriadType::T030C) == f(TriadType::T030C));
            assert(r.count_of(TriadType::T201) == f(TriadType::T201));
            assert(r.count_of(TriadType::T120D) == f(TriadType::T120D));
            assert(r.count_of(TriadType::T120U) == f(TriadType::T120U));
            assert(r.count_of(TriadType::T120C) == f(TriadType::T120C));
            assert(r.count_of(TriadType::T210) == f(TriadType::T210));
            assert(r.count_of(TriadType::T300) == f(TriadType::T300));
        }
    }
    r
}

// ---------------------------------------------------------------------------
// Every triple has exactly one type
// ---------------------------------------------------------------------------

/// `f` summed over the 16 triad types.
pub open spec fn over_types(f: spec_fn(TriadType) -> nat) -> nat {
    f(TriadType::T003) + f(TriadType::T012) + f(TriadType::T102) + f(TriadType::T021D)
        + f(TriadType::T021U) + f(TriadType::T021C) + f(TriadType::T111D) + f(TriadType::T111U)
        + f(TriadType::T030T) + f(TriadType::T030C) + f(TriadType::T201) + f(TriadType::T120D)
        + f(TriadType::T120U) + f(TriadType::T120C) + f(TriadType::T210) + f(TriadType::T300)
}

proof fn lemma_one_type(t0: TriadType)
    ensures
        over_types(|t: TriadType| if t0 == t { 1nat } else { 0nat }) == 1,
{
}

/// The number of `z` with `y < z < zb`.
spec fn z_span(y: int, zb: int) -> nat {
    if zb > y + 1 { (zb - y - 1) as nat } else { 0 }
}

/// The number of pairs `y < z` with `x < y < yb` and `z < n`.
spec fn pair_span(x: int, yb: int, n: int) -> nat
    decreases yb - x,
{
    if yb <= x + 1 { 0 } else { pair_span(x, yb - 1, n) + z_span(yb - 1, n) }
}

/// The number of triples `x < y < z < n` with `x < xb`.
spec fn triple_span(xb: int, n: int) -> nat
    decreases xb,
{
    if xb <= 0 { 0 } else { triple_span(xb - 1, n) + pair_span(xb - 1, n, n) }
}

proof fn lemma_types_z(arc: spec_fn(usize, usize) -> bool, x: int, y: int, zb: int)
    ensures
        over_types(|t: TriadType| tri_z(arc, t, x, y, zb)) == z_span(y, zb),
    decreases zb - y,
{
    if zb > y + 1 {
        lemma_types_z(arc, x, y, zb - 1);
        lemma_one_type(triad_of(arc, x as usize, y as usize, (zb - 1) as usize));
    }
}

proof fn lemma_types_y(arc: spec_fn(usize, usize) -> bool, x: int, yb: int, n: int)
    ensures
        over_types(|t: TriadType| tri_y(arc, t, x, yb, n)) == pair_span(x, yb, n),
    decreases yb - x,
{
    if yb > x + 1 {
        lemma_types_y(arc, x, yb - 1, n);
        lemma_types_z(arc, x, yb - 1, n);
    }
}

proof fn lemma_types_x(arc: spec_fn(usize, usize) -> bool, xb: int, n: int)
    ensures
        over_types(|t: TriadType| tri_x(arc, t, xb, n)) == triple_span(xb, n),
    decreases xb,
{
    if xb > 0 {
        lemma_types_x(arc, xb - 1, n);
        lemma_types_y(arc, xb - 1, n, n);
    }
}

proof fn lemma_pair_span(x: int, yb: int, n: int)
    requires
        0 <= x,
        x + 1 <= yb <= n,
    ensures
        2 * pair_span(x, yb, n) == (yb - x - 1) * (2 * n - 2 - x - yb),
    decreases yb - x,
{
    if yb > x + 1 {
        lemma_pair_span(x, yb - 1, n);
        let a = yb - x - 1;
        assert((a - 1) * (2 * n - 1 - x - yb) + 2 * (n - yb) == a * (2 * n - 2 - x - yb)) by (nonlinear_arith)
            requires
                a == yb - x - 1;
        assert(z_span(yb - 1, n) == n - yb);
        assert((yb - 1 - x - 1) * (2 * n - 2 - x - (yb - 1)) == (a - 1) * (2 * n - 1 - x - yb));
    } else {
        assert((yb - x - 1) * (2 * n - 2 - x - yb) == 0) by (nonlinear_arith)
            requires
                yb == x + 1;
    }
}

proof fn lemma_triple_span(xb: int, n: int)
    requires
        0 <= xb <= n,
    ensures
        6 * triple_span(xb, n) == n * (n - 1) * (n - 2) - (n - xb) * (n - xb - 1) * (n - xb - 2),
    decreases xb,
{
    if xb > 0 {
        lemma_triple_span(xb - 1, n);
        lemma_pair_span(xb - 1, n, n);
        let c = n - xb;
        assert((c + 1) * c * (c - 1) - c * (c - 1) * (c - 2) == 3 * (c * (c - 1))) by (nonlinear_arith);
        assert((n - (xb - 1) - 1) * (2 * n - 2 - (xb - 1) - n) == c * (c - 1)) by (nonlinear_arith)
            requires
                c == n - xb;
    }
}

/// Every 3-node subset of `0..n` forms exactly one of the 16 triad types, so the
/// triad counts add up to `C(n, 3)`.
pub proof fn law_triad_total(arc: spec_fn(usize, usize) -> bool, n: nat)
    ensures
        6 * over_types(|t: TriadType| triad_count(arc, n, t)) == n * (n - 1) * (n - 2),
{
    lemma_types_x(arc, n as int, n as int);
    lemma_triple_span(n as int, n as int);
    assert((n - n) * (n - n - 1) * (n - n - 2) == 0) by (nonlinear_arith);
    assert(over_types(|t: TriadType| triad_count(arc, n, t)) == over_types(|t: TriadType| tri_x(arc, t, n as int, n as int)));
}

} // verus!
