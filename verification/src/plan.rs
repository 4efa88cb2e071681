use vstd::prelude::*;
use crate::circle::{
    Circle, Intersection, circles_disjoint, encloses, lemma_disjoint_symmetric,
    lemma_disjoint_through_container, lemma_enclosed_overlaps, lemma_encloses_transitive,
    lemma_mutual_enclosure_equal,
};
use vstd::pervasive::VecAdditionalExecFns;

verus! {

/// The exactly decidable part of an intersection-area query over a set of
/// circles: either the common region is empty, or it is one whole circle,
/// or the lens of exactly two circles, or it is bounded by three or more
/// circles and needs the crossing-point machinery.
///
/// The circles carried by `Whole`, `Lens` and `Boundary` are the survivors
/// of the pair scan, in their input order: circles that enclose another
/// circle of the set are discarded, since the enclosed circle already
/// constrains the common region more tightly.
#[derive(Clone, Debug)]
pub enum IntersectPlan {
    Empty,
    Whole(Circle),
    Lens(Circle, Circle),
    Boundary(Vec<Circle>),
}

/// In the ordered pair `(a, b)`, `a` is discarded: it encloses the distinct
/// circle `b`.
pub open spec fn pair_drops_first(a: Circle, b: Circle) -> bool {
    !circles_disjoint(a, b) && encloses(a, b) && a != b
}

/// In the ordered pair `(a, b)`, `b` is discarded: either the two circles
/// are the same circle (the later copy is redundant), or `b` encloses `a`
/// without being enclosed by it.
pub open spec fn pair_drops_second(a: Circle, b: Circle) -> bool {
    !circles_disjoint(a, b) && ((encloses(a, b) && a == b) || (!encloses(a, b) && encloses(
        b,
        a,
    )))
}

/// The ordered pair `(p, q)` of the list discards index `k`.
pub open spec fn pair_drops(s: Seq<Circle>, p: int, q: int, k: int) -> bool {
    0 <= p < q < s.len() && ((k == p && pair_drops_first(s[p], s[q])) || (k == q
        && pair_drops_second(s[p], s[q])))
}

/// Index `k` is dominated: some ordered pair of the list discards it, so
/// its circle adds no boundary constraint to the common region.
pub open spec fn dominated(s: Seq<Circle>, k: int) -> bool {
    exists|p: int, q: int| pair_drops(s, p, q, k)
}

/// Some ordered pair of the list is disjoint, which forces the common
/// region of all circles to be empty.
pub open spec fn has_disjoint_pair(s: Seq<Circle>) -> bool {
    exists|p: int, q: int| 0 <= p < q < s.len() && circles_disjoint(s[p], s[q])
}

/// The non-dominated circles among the first `n`, in input order.
pub open spec fn survivors_prefix(s: Seq<Circle>, n: int) -> Seq<Circle>
    decreases n,
{
    if n <= 0 {
        Seq::empty()
    } else if dominated(s, n - 1) {
        survivors_prefix(s, n - 1)
    } else {
        survivors_prefix(s, n - 1).push(s[n - 1])
    }
}

/// The non-dominated circles of the list, in input order.
pub open spec fn survivors(s: Seq<Circle>) -> Seq<Circle> {
    survivors_prefix(s, s.len() as int)
}

/// What the plan of a circle list must be, case by case.
pub open spec fn plan_matches(s: Seq<Circle>, r: IntersectPlan) -> bool {
    match r {
        IntersectPlan::Empty => has_disjoint_pair(s) || survivors(s).len() == 0,
        IntersectPlan::Whole(c) => !has_disjoint_pair(s) && survivors(s) == seq![c],
        IntersectPlan::Lens(a, b) => !has_disjoint_pair(s) && survivors(s) == seq![a, b],
        IntersectPlan::Boundary(v) => !has_disjoint_pair(s) && survivors(s).len() >= 3 && v@
            == survivors(s),
    }
}

/// Deep equality of two plans.
pub open spec fn plan_eq(a: IntersectPlan, b: IntersectPlan) -> bool {
    match (a, b) {
        (IntersectPlan::Empty, IntersectPlan::Empty) => true,
        (IntersectPlan::Whole(c), IntersectPlan::Whole(d)) => c == d,
        (IntersectPlan::Lens(c1, c2), IntersectPlan::Lens(d1, d2)) => c1 == d1 && c2 == d2,
        (IntersectPlan::Boundary(v), IntersectPlan::Boundary(w)) => v@ == w@,
        _ => false,
    }
}

/// Whether two circle lists hold the same circles in the same order.
pub fn circle_lists_eq(v: &Vec<Circle>, w: &Vec<Circle>) -> (r: bool)
    ensures
        r == (v@ == w@),
{
    if v.len() != w.len() {
        proof {
            assert(v@ != w@);
        }
        return false;
    }
    let mut i: usize = 0;
    while i < v.len()
        invariant
            i <= v@.len(),
            v@.len() == w@.len(),
            forall|k: int| 0 <= k < i ==> v@[k] == w@[k],
        decreases v@.len() - i,
    {
        if !v[i].same_as(&w[i]) {
            return false;
        }
        i = i + 1;
    }
    proof {
        assert(v@ =~= w@);
    }
    true
}

/// Whether two plans describe the same decomposition.
pub fn same_plan(a: &IntersectPlan, b: &IntersectPlan) -> (r: bool)
    ensures
        r == plan_eq(*a, *b),
{
    match (a, b) {
        (IntersectPlan::Empty, IntersectPlan::Empty) => true,
        (IntersectPlan::Whole(c), IntersectPlan::Whole(d)) => c.same_as(d),
        (IntersectPlan::Lens(c1, c2), IntersectPlan::Lens(d1, d2)) => c1.same_as(d1)
            && c2.same_as(d2),
        (IntersectPlan::Boundary(v), IntersectPlan::Boundary(w)) => circle_lists_eq(v, w),
        _ => false,
    }
}

/// Pairs `(p, q)` with `p < q` that the double scan has already visited
/// when it stands at outer index `i`, inner index `j`.
pub open spec fn pair_seen(p: int, q: int, i: int, j: int) -> bool {
    p < i || (p == i && q < j)
}

/// Index `k` is discarded by a pair already seen at position `(i, j)`.
pub open spec fn dominated_before(s: Seq<Circle>, k: int, i: int, j: int) -> bool {
    exists|p: int, q: int| pair_drops(s, p, q, k) && pair_seen(p, q, i, j)
}

impl Circle {
    /// Classifies every ordered pair of `circles` and reduces the query
    /// for the area common to all of them as far as exact arithmetic can:
    /// a disjoint pair empties the region at once; a circle enclosing
    /// another is discarded; what remains decides among the empty, single
    /// circle, two-circle lens and many-circle boundary cases.
    pub fn intersect_plan(circles: &Vec<Circle>) -> (r: IntersectPlan)
        requires
            forall|i: int| 0 <= i < circles@.len() ==> (#[trigger] circles@[i]).wf(),
        ensures
            plan_matches(circles@, r),
    {
        let ghost s = circles@;
        let n = circles.len();
        let mut dropped: Vec<bool> = Vec::new();
        let mut t: usize = 0;
        while t < n
            invariant
                t <= n,
                dropped@.len() == t,
                forall|k: int| 0 <= k < t ==> !(#[trigger] dropped@[k]),
            decreases n - t,
        {
            dropped.push(false);
            t = t + 1;
        }

        let mut i: usize = 0;
        while i < n
            invariant
                n == s.len(),
                s == circles@,
                forall|k: int| 0 <= k < s.len() ==> (#[trigger] s[k]).wf(),
                i <= n,
                dropped@.len() == n,
                forall|k: int| 0 <= k < n ==> #[trigger] dropped@[k] == dominated_before(s, k, i as int, i as int + 1),
                forall|p: int, q: int|
                    0 <= p < q < s.len() && pair_seen(p, q, i as int, i as int + 1)
                        ==> !circles_disjoint(#[trigger] s[p], #[trigger] s[q]),
            decreases n - i,
        {
            let mut j: usize = i + 1;
            while j < n
                invariant
                    n == s.len(),
                    s == circles@,
                    forall|k: int| 0 <= k < s.len() ==> (#[trigger] s[k]).wf(),
                    i < n,
                    i < j <= n,
                    dropped@.len() == n,
                    forall|k: int| 0 <= k < n ==> #[trigger] dropped@[k] == dominated_before(s, k, i as int, j as int),
                    forall|p: int, q: int|
                        0 <= p < q < s.len() && pair_seen(p, q, i as int, j as int)
                            ==> !circles_disjoint(#[trigger] s[p], #[trigger] s[q]),
                decreases n - j,
            {
                let ci = circles[i];
                let cj = circles[j];
                match ci.intersect(&cj) {
                    Intersection::Disjoint => {
                        proof {
                            assert(circles_disjoint(s[i as int], s[j as int]));
                        }
                        return IntersectPlan::Empty;
                    },
                    Intersection::Inside(cx) => {
                        if cx.same_as(&ci) {
                            dropped.set(j, true);
                            proof {
                                assert(pair_drops(s, i as int, j as int, j as int));
                            }
                        } else {
                            dropped.set(i, true);
                            proof {
                                assert(pair_drops(s, i as int, j as int, i as int));
                            }
                        }
                    },
                    Intersection::Crossing(_) => {},
                }
                proof {
                    assert forall|k: int| 0 <= k < n implies #[trigger] dropped@[k]
                        == dominated_before(s, k, i as int, j as int + 1) by {
                        if dropped@[k] {
                        } else {
                            if dominated_before(s, k, i as int, j as int + 1) {
                                let (p, q) = choose|p: int, q: int|
                                    pair_drops(s, p, q, k) && pair_seen(p, q, i as int, j as int + 1);
                                assert(!pair_seen(p, q, i as int, j as int));
                                assert(p == i as int && q == j as int);
                                assert(false);
                            }
                        }
                    }
                }
                j = j + 1;
            }
            proof {
                assert forall|k: int| 0 <= k < n implies #[trigger] dropped@[k]
                    == dominated_before(s, k, i as int + 1, i as int + 2) by {
                    assert(dominated_before(s, k, i as int, n as int) == dominated_before(
                        s,
                        k,
                        i as int + 1,
                        i as int + 2,
                    )) by {
                        if dominated_before(s, k, i as int, n as int) {
                            let (p, q) = choose|p: int, q: int|
                                pair_drops(s, p, q, k) && pair_seen(p, q, i as int, n as int);
                            assert(pair_seen(p, q, i as int + 1, i as int + 2));
                        }
                        if dominated_before(s, k, i as int + 1, i as int + 2) {
                            let (p, q) = choose|p: int, q: int|
                                pair_drops(s, p, q, k) && pair_seen(p, q, i as int + 1, i as int + 2);
                            assert(pair_seen(p, q, i as int, n as int));
                        }
                    }
                }
                assert forall|p: int, q: int|
                    0 <= p < q < s.len() && pair_seen(p, q, i as int + 1, i as int + 2)
                        implies !circles_disjoint(#[trigger] s[p], #[trigger] s[q]) by {
                    assert(pair_seen(p, q, i as int, n as int));
                }
            }
            i = i + 1;
        }

        proof {
            assert forall|k: int| 0 <= k < n implies #[trigger] dropped@[k] == dominated(s, k) by {
                if dropped@[k] {
                    let (p, q) = choose|p: int, q: int|
                        pair_drops(s, p, q, k) && pair_seen(p, q, n as int, n as int + 1);
                    assert(pair_drops(s, p, q, k));
                } else {
                    if dominated(s, k) {
                        let (p, q) = choose|p: int, q: int| pair_drops(s, p, q, k);
                        assert(pair_seen(p, q, n as int, n as int + 1));
                    }
                }
            }
            assert(!has_disjoint_pair(s)) by {
                if has_disjoint_pair(s) {
                    let (p, q) = choose|p: int, q: int|
                        0 <= p < q < s.len() && circles_disjoint(s[p], s[q]);
                    assert(pair_seen(p, q, n as int, n as int + 1));
                }
            }
        }

        let mut surv: Vec<Circle> = Vec::new();
        let mut k: usize = 0;
        while k < n
            invariant
                n == s.len(),
                s == circles@,
                k <= n,
                dropped@.len() == n,
                forall|m: int| 0 <= m < n ==> #[trigger] dropped@[m] == dominated(s, m),
                surv@ == survivors_prefix(s, k as int),
            decreases n - k,
        {
            if !dropped[k] {
                surv.push(circles[k]);
            }
            k = k + 1;
        }
        assert(surv@ == survivors(s));

        if surv.len() == 0 {
            IntersectPlan::Empty
        } else if surv.len() == 1 {
            let c = surv[0];
            proof {
                assert(survivors(s) =~= seq![c]);
            }
            IntersectPlan::Whole(c)
        } else if surv.len() == 2 {
            let a = surv[0];
            let b = surv[1];
            proof {
                assert(survivors(s) =~= seq![a, b]);
            }
            IntersectPlan::Lens(a, b)
        } else {
            IntersectPlan::Boundary(surv)
        }
    }
}

/// A query over a single circle keeps the whole circle: it has no pair to
/// empty it and nothing to dominate it.
pub proof fn lemma_single_circle_plan(c: Circle)
    ensures
        !has_disjoint_pair(seq![c]),
        survivors(seq![c]) == seq![c],
        plan_matches(seq![c], IntersectPlan::Whole(c)),
{
    let s = seq![c];
    assert(!has_disjoint_pair(s)) by {
        if has_disjoint_pair(s) {
            let (p, q) = choose|p: int, q: int|
                0 <= p < q < s.len() && circles_disjoint(s[p], s[q]);
            assert(false);
        }
    }
    assert(!dominated(s, 0)) by {
        if dominated(s, 0) {
            let (p, q) = choose|p: int, q: int| pair_drops(s, p, q, 0);
            assert(false);
        }
    }
    assert(survivors_prefix(s, 0) == Seq::<Circle>::empty());
    assert(survivors_prefix(s, 1) == survivors_prefix(s, 0).push(s[0]));
    assert(survivors_prefix(s, 1) =~= seq![c]);
}

/// Equal prefixes with equal domination have equal survivors.
proof fn lemma_survivors_prefix_same(s1: Seq<Circle>, s2: Seq<Circle>, n: int)
    requires
        0 <= n <= s1.len(),
        n <= s2.len(),
        forall|i: int| 0 <= i < n ==> s1[i] == s2[i],
        forall|i: int| 0 <= i < n ==> dominated(s1, i) == dominated(s2, i),
    ensures
        survivors_prefix(s1, n) == survivors_prefix(s2, n),
    decreases n,
{
    if n > 0 {
        lemma_survivors_prefix_same(s1, s2, n - 1);
    }
}

/// Appending a circle that encloses a member of the list changes nothing
/// of the intersection plan: the newcomer is dominated at once, it can
/// spring no new disjointness, and it dominates nothing that was not
/// already dominated.  Radii must be positive; a circle of zero radius
/// can be both enclosed and counted disjoint at once.
#[verifier::rlimit(60)]
pub proof fn lemma_enclosing_circle_ignored(s: Seq<Circle>, d: Circle, k: int)
    requires
        0 <= k < s.len(),
        encloses(d, s[k]),
        d.r > 0,
        forall|i: int| 0 <= i < s.len() ==> (#[trigger] s[i]).r > 0,
    ensures
        has_disjoint_pair(s.push(d)) == has_disjoint_pair(s),
        survivors(s.push(d)) == survivors(s),
        forall|r: IntersectPlan| plan_matches(s.push(d), r) == plan_matches(s, r),
{
    let s2 = s.push(d);
    let n = s.len() as int;
    assert(s2.len() == n + 1);
    assert(forall|i: int| 0 <= i < n ==> s2[i] == s[i]);
    assert(s2[n] == d);

    assert(has_disjoint_pair(s2) == has_disjoint_pair(s)) by {
        if has_disjoint_pair(s) {
            let (p, q) = choose|p: int, q: int|
                0 <= p < q < s.len() && circles_disjoint(s[p], s[q]);
            assert(0 <= p < q < s2.len() && circles_disjoint(s2[p], s2[q]));
            assert(has_disjoint_pair(s2));
        }
        if has_disjoint_pair(s2) {
            let (p, q) = choose|p: int, q: int|
                0 <= p < q < s2.len() && circles_disjoint(s2[p], s2[q]);
            if q < n {
                assert(circles_disjoint(s[p], s[q]));
                assert(has_disjoint_pair(s));
            } else {
                assert(circles_disjoint(s[p], d));
                if p == k {
                    lemma_enclosed_overlaps(d, s[k]);
                    assert(false);
                } else {
                    lemma_disjoint_symmetric(s[p], d);
                    lemma_disjoint_through_container(d, s[k], s[p]);
                    if k < p {
                        assert(circles_disjoint(s[k], s[p]));
                        assert(has_disjoint_pair(s));
                    } else {
                        lemma_disjoint_symmetric(s[k], s[p]);
                        assert(circles_disjoint(s[p], s[k]));
                        assert(has_disjoint_pair(s));
                    }
                }
            }
        }
    }

    assert forall|m: int| 0 <= m < n implies dominated(s2, m) == dominated(s, m) by {
        if dominated(s, m) {
            let (p, q) = choose|p: int, q: int| pair_drops(s, p, q, m);
            assert(pair_drops(s2, p, q, m));
            assert(dominated(s2, m));
        }
        if dominated(s2, m) {
            let (p, q) = choose|p: int, q: int| pair_drops(s2, p, q, m);
            if q < n {
                assert(pair_drops(s, p, q, m));
                assert(dominated(s, m));
            } else {
                assert(q == n && m == p);
                assert(pair_drops_first(s[p], d));
                lemma_encloses_transitive(s[p], d, s[k]);
                if p == k {
                    lemma_mutual_enclosure_equal(s[k], d);
                    assert(false);
                }
                if s[p] == s[k] {
                    lemma_mutual_enclosure_equal(s[p], d);
                    assert(false);
                }
                lemma_enclosed_overlaps(s[p], s[k]);
                if p < k {
                    assert(pair_drops_first(s[p], s[k]));
                    assert(pair_drops(s, p, k, p));
                } else {
                    assert(!circles_disjoint(s[k], s[p]));
                    if encloses(s[k], s[p]) {
                        lemma_mutual_enclosure_equal(s[k], s[p]);
                        assert(false);
                    }
                    assert(pair_drops_second(s[k], s[p]));
                    assert(pair_drops(s, k, p, p));
                }
                assert(dominated(s, m));
            }
        }
    }

    assert(dominated(s2, n)) by {
        lemma_enclosed_overlaps(d, s[k]);
        if encloses(s[k], d) {
            lemma_mutual_enclosure_equal(s[k], d);
            assert(pair_drops_second(s[k], d));
        } else {
            assert(pair_drops_second(s[k], d));
        }
        assert(pair_drops(s2, k, n, n));
    }

    assert(survivors(s2) == survivors(s)) by {
        assert(survivors_prefix(s2, n + 1) == survivors_prefix(s2, n));
        lemma_survivors_prefix_same(s2, s, n);
    }

    assert forall|r: IntersectPlan| plan_matches(s2, r) == plan_matches(s, r) by {
        match r {
            IntersectPlan::Empty => {},
            IntersectPlan::Whole(c) => {},
            IntersectPlan::Lens(a, b) => {},
            IntersectPlan::Boundary(v) => {},
        }
    }
}

} // verus!
