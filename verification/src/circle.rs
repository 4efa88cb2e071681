use vstd::prelude::*;
use vstd::arithmetic::mul::{lemma_mul_is_distributive_add, lemma_mul_is_distributive_add_other_way};

verus! {

/// Largest magnitude a coordinate or radius may have.  Keeping every
/// coordinate within this bound lets every squared distance, and every sum
/// of a few of them, be computed exactly in 128-bit integers.
pub const COORD_LIMIT: i64 = 1_000_000_000;

/// Bound inside which `sq` is allowed to square a value.
pub const SQ_ARG_LIMIT: i128 = 0x1000_0000_0000_0000;

/// A circle in the plane.  The center coordinates and the radius are
/// integers in a fixed unit chosen by the caller (for example millionths of
/// a kilometer).  A circle with radius `<= 0` encloses no area.
#[derive(Clone, Copy, Debug, PartialEq, Eq, Structural)]
pub struct Circle {
    pub x: i64,
    pub y: i64,
    pub r: i64,
}

/// How two circles relate: they share no point, one lies inside the other
/// (the enclosed circle is carried), or their boundaries cross in two
/// points.  For a crossing, the flag records whether the chord through the
/// crossing points lies on the near side of the larger circle's center,
/// which decides which segment formula applies to the smaller circle.
#[derive(Clone, Copy, Debug, PartialEq, Eq, Structural)]
pub enum Intersection {
    Disjoint,
    Inside(Circle),
    Crossing(bool),
}

impl Intersection {
    /// Whether the two circles share at least one point.
    pub fn intersects(&self) -> (r: bool)
        ensures
            r == !(self is Disjoint),
    {
        match self {
            Intersection::Disjoint => false,
            _ => true,
        }
    }
}

/// Whether `v` is small enough to take part in exact squared arithmetic.
pub open spec fn coord_in_range(v: i64) -> bool {
    -COORD_LIMIT <= v <= COORD_LIMIT
}

/// The subsequence of the first `n` members of `s` that are not disjoint
/// from `c`, in their given order, duplicates kept.
pub open spec fn overlapping_prefix(c: Circle, s: Seq<Circle>, n: int) -> Seq<Circle>
    decreases n,
{
    if n <= 0 {
        Seq::empty()
    } else if circles_disjoint(c, s[n - 1]) {
        overlapping_prefix(c, s, n - 1)
    } else {
        overlapping_prefix(c, s, n - 1).push(s[n - 1])
    }
}

/// The squared distance between the centers of `a` and `b`.
pub open spec fn dist_sq(a: Circle, b: Circle) -> int {
    (a.x - b.x) * (a.x - b.x) + (a.y - b.y) * (a.y - b.y)
}

/// The circles share no point: the center distance is at least the sum of
/// the radii (so a bare tangency already counts as disjoint), or the radii
/// sum to a negative length that no distance can undercut.
pub open spec fn circles_disjoint(a: Circle, b: Circle) -> bool {
    a.r + b.r < 0 || dist_sq(a, b) >= (a.r + b.r) * (a.r + b.r)
}

/// The closed disk of `inner` lies within the closed disk of `outer`:
/// center distance plus `inner.r` is at most `outer.r`.
pub open spec fn encloses(outer: Circle, inner: Circle) -> bool {
    outer.r - inner.r >= 0 && dist_sq(outer, inner) <= (outer.r - inner.r) * (outer.r - inner.r)
}

/// For two crossing circles, whether the chord through the crossing points
/// lies beyond the smaller circle's center as seen from the larger one:
/// equivalent to the center distance squared being smaller than the
/// difference of the squared radii.
pub open spec fn near_side(a: Circle, b: Circle) -> bool {
    if a.r < b.r {
        b.r * b.r - a.r * a.r > dist_sq(a, b)
    } else {
        a.r * a.r - b.r * b.r > dist_sq(a, b)
    }
}

/// The pairwise classification: disjoint is checked first, then enclosure
/// of either circle in the other (two identical circles count as the
/// second circle lying inside the first), and what remains is a genuine
/// two-point crossing.
pub open spec fn classify(a: Circle, b: Circle) -> Intersection {
    if circles_disjoint(a, b) {
        Intersection::Disjoint
    } else if encloses(a, b) {
        Intersection::Inside(b)
    } else if encloses(b, a) {
        Intersection::Inside(a)
    } else {
        Intersection::Crossing(near_side(a, b))
    }
}

/// The squared distance does not depend on the order of the circles.
pub proof fn lemma_dist_sq_symmetric(a: Circle, b: Circle)
    ensures
        dist_sq(a, b) == dist_sq(b, a),
{
    assert((a.x - b.x) * (a.x - b.x) == (b.x - a.x) * (b.x - a.x)) by (nonlinear_arith);
    assert((a.y - b.y) * (a.y - b.y) == (b.y - a.y) * (b.y - a.y)) by (nonlinear_arith);
}

/// Which closed-form area formula applies to the overlap of two circles:
/// no shared area at all, the full area of the enclosed circle, or a pair
/// of circular segments cut by the chord through the crossing points,
/// where the flag tells whether the chord lies on the near side of the
/// larger circle's center.
#[derive(Clone, Copy, Debug, PartialEq, Eq, Structural)]
pub enum LensCase {
    Zero,
    Full(Circle),
    Segments(bool),
}

/// The lens-area dispatch that belongs to a classification.
pub open spec fn lens_case_of(a: Circle, b: Circle) -> LensCase {
    match classify(a, b) {
        Intersection::Disjoint => LensCase::Zero,
        Intersection::Inside(c) => LensCase::Full(c),
        Intersection::Crossing(near) => LensCase::Segments(near),
    }
}

/// Circles whose center distance reaches the sum of their radii share no
/// area: the classifier calls them disjoint and the lens area is zero.
pub proof fn lemma_separated_circles_empty_lens(a: Circle, b: Circle)
    requires
        circles_disjoint(a, b),
    ensures
        classify(a, b) == Intersection::Disjoint,
        lens_case_of(a, b) == LensCase::Zero,
{
}

/// Two identical circles of positive radius overlap in the full circle:
/// the classifier reports the second copy as enclosed, and the lens area
/// is the whole circle's area.
pub proof fn lemma_identical_circles_full_lens(c: Circle)
    requires
        c.r > 0,
    ensures
        classify(c, c) == Intersection::Inside(c),
        lens_case_of(c, c) == LensCase::Full(c),
{
    assert(dist_sq(c, c) == 0);
    assert((c.r + c.r) * (c.r + c.r) > 0) by (nonlinear_arith)
        requires
            c.r > 0,
    ;
}

/// Checks a chord length against a circle's diameter: the circular
/// segment formula is meaningful only for a chord no longer than the
/// diameter, and a longer one is a geometry-input failure.
pub fn chord_check(radius: i64, chord: i64) -> (r: Result<(), crate::errors::EngineError>)
    ensures
        r is Ok <==> chord <= 2 * radius,
        r is Err ==> r == Err::<(), crate::errors::EngineError>(
            crate::errors::EngineError::GeometryInput,
        ),
{
    if (chord as i128) > 2 * (radius as i128) {
        Err(crate::errors::EngineError::GeometryInput)
    } else {
        Ok(())
    }
}

/// Disjointness does not depend on the order of the circles.
pub proof fn lemma_disjoint_symmetric(a: Circle, b: Circle)
    ensures
        circles_disjoint(a, b) == circles_disjoint(b, a),
{
    lemma_dist_sq_symmetric(a, b);
}

/// The two-dimensional Lagrange identity: the product of two sums of
/// squares exceeds the square of the dot product by the square of the
/// cross product.
proof fn lemma_lagrange(ux: int, uy: int, vx: int, vy: int)
    ensures
        (ux * ux + uy * uy) * (vx * vx + vy * vy) - (ux * vx + uy * vy) * (ux * vx + uy * vy)
            == (ux * vy - uy * vx) * (ux * vy - uy * vx),
        (ux * vx + uy * vy) * (ux * vx + uy * vy) <= (ux * ux + uy * uy) * (vx * vx + vy * vy),
        0 <= ux * ux + uy * uy,
        0 <= vx * vx + vy * vy,
{

    let a = ux * vx;
    let b = uy * vy;
    let c = ux * vy;
    let d = uy * vx;
    let pu = ux * ux;
    let qu = uy * uy;
    let pv = vx * vx;
    let qv = vy * vy;
    assert((pu + qu) * (pv + qv) == pu * pv + pu * qv + qu * pv + qu * qv) by {
        lemma_mul_is_distributive_add_other_way(pv + qv, pu, qu);
        lemma_mul_is_distributive_add(pu, pv, qv);
        lemma_mul_is_distributive_add(qu, pv, qv);
    }
    assert(pu * pv == a * a) by (nonlinear_arith)
        requires
            a == ux * vx,
            pu == ux * ux,
            pv == vx * vx,
    ;
    assert(pu * qv == c * c) by (nonlinear_arith)
        requires
            c == ux * vy,
            pu == ux * ux,
            qv == vy * vy,
    ;
    assert(qu * pv == d * d) by (nonlinear_arith)
        requires
            d == uy * vx,
            qu == uy * uy,
            pv == vx * vx,
    ;
    assert(qu * qv == b * b) by (nonlinear_arith)
        requires
            b == uy * vy,
            qu == uy * uy,
            qv == vy * vy,
    ;
    assert((a + b) * (a + b) == a * a + 2 * (a * b) + b * b) by (nonlinear_arith);
    assert((c - d) * (c - d) == c * c - 2 * (c * d) + d * d) by (nonlinear_arith);
    assert(a * b == c * d) by (nonlinear_arith)
        requires
            a == ux * vx,
            b == uy * vy,
            c == ux * vy,
            d == uy * vx,
    ;
    assert((ux * vy - uy * vx) * (ux * vy - uy * vx) >= 0) by (nonlinear_arith);
    assert(0 <= ux * ux + uy * uy && 0 <= vx * vx + vy * vy) by (nonlinear_arith);
}

/// The algebraic identity behind the clearance argument: it rewrites the
/// discriminant of the squared triangle inequality as a sum of products
/// that are nonnegative whenever the inner circle fits and the outer one
/// is clear.
proof fn lemma_clearance_certificate(p: int, q: int, ra: int, rb: int)
    ensures
        (p + q - (rb - ra) * (rb - ra)) * (p + q - (rb - ra) * (rb - ra)) - 4 * (p * q) == 4 * ra
            * ((q - rb * rb) * (rb - ra)) + 4 * rb * ((ra * ra - p) * (rb - ra)) + ((q - rb * rb)
            + (ra * ra - p)) * ((q - rb * rb) + (ra * ra - p)),
{

    let e = rb - ra;
    let f = rb + ra;
    let m = q - p;
    let s = e * e;
    let dd = q - rb * rb;
    let gg = ra * ra - p;
    assert((p + q - s) * (p + q - s) - 4 * (p * q) == m * m - 2 * ((p + q) * s) + s * s)
        by (nonlinear_arith)
        requires
            m == q - p,
    ;
    assert(dd + gg == m - e * f) by (nonlinear_arith)
        requires
            e == rb - ra,
            f == rb + ra,
            m == q - p,
            dd == q - rb * rb,
            gg == ra * ra - p,
    ;
    assert((m - e * f) * (m - e * f) == m * m - 2 * (m * (e * f)) + (e * f) * (e * f))
        by (nonlinear_arith);
    let t1 = q * e;
    let t2 = (rb * rb) * e;
    let t3 = (ra * ra) * e;
    let t4 = p * e;
    assert(dd * e == t1 - t2) by (nonlinear_arith)
        requires
            dd == q - rb * rb,
            t1 == q * e,
            t2 == (rb * rb) * e,
    ;
    assert(gg * e == t3 - t4) by (nonlinear_arith)
        requires
            gg == ra * ra - p,
            t3 == (ra * ra) * e,
            t4 == p * e,
    ;
    assert(ra * (t1 - t2) == ra * t1 - ra * t2) by (nonlinear_arith);
    assert(rb * (t3 - t4) == rb * t3 - rb * t4) by (nonlinear_arith);
    assert(ra * t1 == (ra * q) * e) by (nonlinear_arith)
        requires
            t1 == q * e,
    ;
    assert(ra * t2 == ((ra * rb) * rb) * e) by (nonlinear_arith)
        requires
            t2 == (rb * rb) * e,
    ;
    assert(rb * t3 == ((ra * rb) * ra) * e) by (nonlinear_arith)
        requires
            t3 == (ra * ra) * e,
    ;
    assert(rb * t4 == (rb * p) * e) by (nonlinear_arith)
        requires
            t4 == p * e,
    ;
    assert((ra * q) * e - (rb * p) * e == (ra * q - rb * p) * e) by (nonlinear_arith);
    assert(((ra * rb) * rb) * e - ((ra * rb) * ra) * e == (ra * rb) * ((rb - ra) * e))
        by (nonlinear_arith);
    assert((rb - ra) * e == s) by (nonlinear_arith)
        requires
            e == rb - ra,
            s == e * e,
    ;
    assert(4 * ra * (dd * e) == 4 * (ra * (dd * e)) && 4 * rb * (gg * e) == 4 * (rb * (gg * e)))
        by (nonlinear_arith);
    assert(4 * ra * (dd * e) + 4 * rb * (gg * e) == 4 * ((ra * q - rb * p) * e) - 4 * ((ra * rb)
        * s));
    assert((e * f) * (e * f) == s * (f * f)) by (nonlinear_arith)
        requires
            s == e * e,
    ;
    assert(s * (f * f) - 4 * ((ra * rb) * s) == s * s) by (nonlinear_arith)
        requires
            e == rb - ra,
            f == rb + ra,
            s == e * e,
    ;
    assert(m * f - 2 * (ra * q - rb * p) == (p + q) * e) by (nonlinear_arith)
        requires
            m == q - p,
            f == rb + ra,
            e == rb - ra,
    ;
    assert(m * (e * f) - 2 * ((ra * q - rb * p) * e) == e * (m * f - 2 * (ra * q - rb * p)))
        by (nonlinear_arith);
    assert(e * ((p + q) * e) == (p + q) * s) by (nonlinear_arith)
        requires
            s == e * e,
    ;
    assert((p + q) * s == m * (e * f) - 2 * ((ra * q - rb * p) * e));
    assert(((q - rb * rb) + (ra * ra - p)) * ((q - rb * rb) + (ra * ra - p)) == (m - e * f) * (m
        - e * f)) by (nonlinear_arith)
        requires
            e == rb - ra,
            f == rb + ra,
            m == q - p,
    ;
    assert(4 * ra * ((q - rb * rb) * (rb - ra)) == 4 * ra * (dd * e) && 4 * rb * ((ra * ra - p) * (
    rb - ra)) == 4 * rb * (gg * e));
}

/// An enclosed circle of positive radius shares points with its
/// container: the two cannot be disjoint.
pub proof fn lemma_enclosed_overlaps(outer: Circle, inner: Circle)
    requires
        encloses(outer, inner),
        inner.r > 0,
    ensures
        !circles_disjoint(outer, inner),
        !circles_disjoint(inner, outer),
{
    assert((outer.r - inner.r) * (outer.r - inner.r) < (outer.r + inner.r) * (outer.r + inner.r))
        by (nonlinear_arith)
        requires
            inner.r > 0,
            outer.r >= inner.r,
    ;
    lemma_disjoint_symmetric(outer, inner);
}

/// Circles that enclose each other are the same circle.
pub proof fn lemma_mutual_enclosure_equal(a: Circle, b: Circle)
    requires
        encloses(a, b),
        encloses(b, a),
    ensures
        a == b,
{
    lemma_dist_sq_symmetric(a, b);
    assert(a.r == b.r);
    assert((a.r - b.r) * (a.r - b.r) == 0) by (nonlinear_arith)
        requires
            a.r == b.r,
    ;
    assert((a.x - b.x) * (a.x - b.x) >= 0 && (a.y - b.y) * (a.y - b.y) >= 0) by (nonlinear_arith);
    assert(a.x == b.x && a.y == b.y) by (nonlinear_arith)
        requires
            (a.x - b.x) * (a.x - b.x) <= 0,
            (a.y - b.y) * (a.y - b.y) <= 0,
    ;
}

/// Enclosure is transitive: a circle containing a container contains the
/// contained circle as well.
pub proof fn lemma_encloses_transitive(a: Circle, b: Circle, c: Circle)
    requires
        encloses(a, b),
        encloses(b, c),
    ensures
        encloses(a, c),
{
    let ux = a.x - b.x;
    let uy = a.y - b.y;
    let vx = b.x - c.x;
    let vy = b.y - c.y;
    let p = ux * ux + uy * uy;
    let q = vx * vx + vy * vy;
    let t = ux * vx + uy * vy;
    let ra = a.r - b.r;
    let rb = b.r - c.r;
    assert((a.x - c.x) * (a.x - c.x) + (a.y - c.y) * (a.y - c.y) == p + q + 2 * t)
        by (nonlinear_arith)
        requires
            ux == a.x - b.x,
            uy == a.y - b.y,
            vx == b.x - c.x,
            vy == b.y - c.y,
            p == ux * ux + uy * uy,
            q == vx * vx + vy * vy,
            t == ux * vx + uy * vy,
    ;
    lemma_lagrange(ux, uy, vx, vy);
    assert(p * q <= (ra * ra) * (rb * rb) && (ra * rb) * (ra * rb) == (ra * ra) * (rb * rb))
        by (nonlinear_arith)
        requires
            0 <= p <= ra * ra,
            0 <= q <= rb * rb,
    ;
    assert(ra * rb >= 0) by (nonlinear_arith)
        requires
            ra >= 0,
            rb >= 0,
    ;
    assert(t <= ra * rb) by (nonlinear_arith)
        requires
            t * t <= (ra * rb) * (ra * rb),
            ra * rb >= 0,
    ;
    assert(p + q + 2 * t <= (ra + rb) * (ra + rb)) by (nonlinear_arith)
        requires
            p <= ra * ra,
            q <= rb * rb,
            t <= ra * rb,
    ;
    assert(dist_sq(a, c) <= (a.r - c.r) * (a.r - c.r));
}

/// A circle disjoint from a container is disjoint from everything the
/// container encloses: walking inward can only increase the clearance.
pub proof fn lemma_disjoint_through_container(dc: Circle, inner: Circle, other: Circle)
    requires
        encloses(dc, inner),
        circles_disjoint(dc, other),
        inner.r > 0,
        other.r > 0,
    ensures
        circles_disjoint(inner, other),
{
    let ux = inner.x - dc.x;
    let uy = inner.y - dc.y;
    let vx = other.x - dc.x;
    let vy = other.y - dc.y;
    let p = ux * ux + uy * uy;
    let q = vx * vx + vy * vy;
    let t = ux * vx + uy * vy;
    let ra = dc.r - inner.r;
    let rb = dc.r + other.r;
    let ss = (rb - ra) * (rb - ra);
    assert(p == dist_sq(dc, inner) && q == dist_sq(dc, other)) by (nonlinear_arith)
        requires
            ux == inner.x - dc.x,
            uy == inner.y - dc.y,
            vx == other.x - dc.x,
            vy == other.y - dc.y,
            p == ux * ux + uy * uy,
            q == vx * vx + vy * vy,
            dist_sq(dc, inner) == (dc.x - inner.x) * (dc.x - inner.x) + (dc.y - inner.y) * (dc.y
                - inner.y),
            dist_sq(dc, other) == (dc.x - other.x) * (dc.x - other.x) + (dc.y - other.y) * (dc.y
                - other.y),
    ;
    assert(q >= rb * rb);
    assert(dist_sq(inner, other) == p + q - 2 * t) by (nonlinear_arith)
        requires
            ux == inner.x - dc.x,
            uy == inner.y - dc.y,
            vx == other.x - dc.x,
            vy == other.y - dc.y,
            p == ux * ux + uy * uy,
            q == vx * vx + vy * vy,
            t == ux * vx + uy * vy,
            dist_sq(inner, other) == (inner.x - other.x) * (inner.x - other.x) + (inner.y
                - other.y) * (inner.y - other.y),
    ;
    lemma_lagrange(ux, uy, vx, vy);
    assert(rb * rb >= ss && ss >= 0) by (nonlinear_arith)
        requires
            0 <= ra <= rb,
            ss == (rb - ra) * (rb - ra),
    ;
    if t <= 0 {
        assert(p + q - 2 * t >= ss);
    } else {
        lemma_clearance_certificate(p, q, ra, rb);
        let dd = q - rb * rb;
        let gg = ra * ra - p;
        assert(4 * ra * (dd * (rb - ra)) >= 0 && 4 * rb * (gg * (rb - ra)) >= 0 && (dd + gg) * (dd
            + gg) >= 0) by (nonlinear_arith)
            requires
                ra >= 0,
                rb >= ra,
                dd >= 0,
                gg >= 0,
        ;
        assert((p + q - ss) * (p + q - ss) >= 4 * (p * q));
        assert(2 * t <= p + q - ss) by (nonlinear_arith)
            requires
                t > 0,
                t * t <= p * q,
                (p + q - ss) * (p + q - ss) >= 4 * (p * q),
                p + q - ss >= 0,
        ;
        assert(p + q - 2 * t >= ss);
    }
    assert(dist_sq(inner, other) >= (inner.r + other.r) * (inner.r + other.r));
}

/// `v * v`, computed exactly.
pub fn sq(v: i128) -> (r: i128)
    requires
        -SQ_ARG_LIMIT <= v <= SQ_ARG_LIMIT,
    ensures
        r == v * v,
        0 <= r <= SQ_ARG_LIMIT * SQ_ARG_LIMIT,
{
    proof {
        assert(v * v <= SQ_ARG_LIMIT * SQ_ARG_LIMIT && v * v >= 0) by (nonlinear_arith)
            requires
                -SQ_ARG_LIMIT <= v <= SQ_ARG_LIMIT,
        ;
    }
    v * v
}

impl Circle {
    /// The circle is small enough for exact arithmetic.
    pub open spec fn wf(self) -> bool {
        coord_in_range(self.x) && coord_in_range(self.y) && coord_in_range(self.r)
    }

    pub fn new(x: i64, y: i64, r: i64) -> (c: Circle)
        requires
            coord_in_range(x),
            coord_in_range(y),
            coord_in_range(r),
        ensures
            c == (Circle { x, y, r }),
            c.wf(),
    {
        Circle { x, y, r }
    }

    /// The squared distance between the centers.
    pub fn distance_sq(&self, other: &Circle) -> (d: i128)
        requires
            self.wf(),
            other.wf(),
        ensures
            d == dist_sq(*self, *other),
            d >= 0,
    {
        let dx: i128 = (self.x as i128) - (other.x as i128);
        let dy: i128 = (self.y as i128) - (other.y as i128);
        sq(dx) + sq(dy)
    }

    /// The named equality test used to recognise one circle again under
    /// containment.  It is exact comparison of all fields.
    pub fn same_as(&self, other: &Circle) -> (r: bool)
        ensures
            r == (*self == *other),
    {
        self.x == other.x && self.y == other.y && self.r == other.r
    }

    /// Classifies how `self` and `other` relate: `Disjoint`, one `Inside`
    /// the other, or a two-point `Crossing` with its near-side flag.
    pub fn intersect(&self, other: &Circle) -> (r: Intersection)
        requires
            self.wf(),
            other.wf(),
        ensures
            r == classify(*self, *other),
    {
        proof {
            lemma_dist_sq_symmetric(*self, *other);
        }
        let d2 = self.distance_sq(other);
        let rsum: i128 = (self.r as i128) + (other.r as i128);
        if rsum < 0 || d2 >= sq(rsum) {
            Intersection::Disjoint
        } else {
            let diff_self: i128 = (self.r as i128) - (other.r as i128);
            if diff_self >= 0 && d2 <= sq(diff_self) {
                Intersection::Inside(*other)
            } else {
                let diff_other: i128 = (other.r as i128) - (self.r as i128);
                if diff_other >= 0 && d2 <= sq(diff_other) {
                    Intersection::Inside(*self)
                } else {
                    let near: bool = if self.r < other.r {
                        sq(other.r as i128) - sq(self.r as i128) > d2
                    } else {
                        sq(self.r as i128) - sq(other.r as i128) > d2
                    };
                    Intersection::Crossing(near)
                }
            }
        }
    }

    /// Whether `other` lies strictly inside `self`: the center distance
    /// plus `other.r` falls strictly below `self.r` (and the circles are
    /// not outright disjoint, which the first comparison rules out).
    pub fn is_inside(&self, other: &Circle) -> (r: bool)
        requires
            self.wf(),
            other.wf(),
        ensures
            r == (self.r + other.r >= 0 && dist_sq(*self, *other) <= (self.r + other.r)
                * (self.r + other.r) && self.r - other.r > 0 && dist_sq(*self, *other) < (self.r
                - other.r) * (self.r - other.r)),
    {
        let d2 = self.distance_sq(other);
        let rsum: i128 = (self.r as i128) + (other.r as i128);
        if rsum < 0 || d2 > sq(rsum) {
            false
        } else {
            let diff: i128 = (self.r as i128) - (other.r as i128);
            diff > 0 && d2 < sq(diff)
        }
    }

    /// Which closed-form area formula applies to the overlap of `self`
    /// and `other`.
    pub fn lens_case(&self, other: &Circle) -> (r: LensCase)
        requires
            self.wf(),
            other.wf(),
        ensures
            r == lens_case_of(*self, *other),
    {
        match self.intersect(other) {
            Intersection::Disjoint => LensCase::Zero,
            Intersection::Inside(c) => LensCase::Full(c),
            Intersection::Crossing(near) => LensCase::Segments(near),
        }
    }

    /// Returns the members of `others` that share at least one point with
    /// `self`: exactly the subsequence of `others` whose circles are not
    /// disjoint from `self`, in their given order, duplicates kept.  Does
    /// not compute any area, so it is a cheap pre-filter for the
    /// intersection accumulator.
    pub fn intersects_many(&self, others: &Vec<Circle>) -> (r: Vec<Circle>)
        requires
            self.wf(),
            forall|i: int| 0 <= i < others@.len() ==> (#[trigger] others@[i]).wf(),
        ensures
            r@ == overlapping_prefix(*self, others@, others@.len() as int),
            r@.len() <= others@.len(),
            forall|i: int| 0 <= i < r@.len() ==> !circles_disjoint(*self, #[trigger] r@[i]),
            forall|i: int| 0 <= i < r@.len() ==> others@.contains(#[trigger] r@[i]),
            forall|i: int|
                0 <= i < others@.len() && !circles_disjoint(*self, #[trigger] others@[i])
                    ==> r@.contains(others@[i]),
    {
        let mut kept: Vec<Circle> = Vec::new();
        let mut i: usize = 0;
        while i < others.len()
            invariant
                self.wf(),
                forall|k: int| 0 <= k < others@.len() ==> (#[trigger] others@[k]).wf(),
                i <= others@.len(),
                kept@.len() <= i,
                kept@ == overlapping_prefix(*self, others@, i as int),
                forall|k: int| 0 <= k < kept@.len() ==> !circles_disjoint(*self, #[trigger] kept@[k]),
                forall|k: int| 0 <= k < kept@.len() ==> others@.contains(#[trigger] kept@[k]),
                forall|k: int|
                    0 <= k < i && !circles_disjoint(*self, #[trigger] others@[k])
                        ==> kept@.contains(others@[k]),
            decreases others@.len() - i,
        {
            let c = others[i];
            let ghost prev = kept@;
            if self.intersect(&c).intersects() {
                kept.push(c);
            }
            proof {
                assert forall|k: int|
                    0 <= k < i + 1 && !circles_disjoint(*self, #[trigger] others@[k])
                        implies kept@.contains(others@[k]) by {
                    if k < i {
                        let m = choose|m: int|
                            0 <= m < prev.len() && prev[m] == others@[k];
                        assert(kept@[m] == others@[k]);
                    } else {
                        assert(kept@[kept@.len() - 1] == others@[k]);
                    }
                }
            }
            i = i + 1;
        }
        kept
    }
}

} // verus!
