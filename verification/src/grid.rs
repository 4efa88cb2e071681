use vstd::prelude::*;
use crate::circle::{Circle, COORD_LIMIT, sq};

verus! {

/// An exact area value `num / den`, in squared coordinate units.  The grid
/// estimators return the counted cell area as a ratio so that no precision
/// is lost; callers divide in whatever precision they need.
#[derive(Clone, Copy, Debug, PartialEq, Eq, Structural)]
pub struct AreaRatio {
    pub num: i128,
    pub den: i128,
}

/// The product of two values within the given magnitude bounds stays
/// within the product of the bounds.
pub proof fn lemma_mul_bounds(a: int, b: int, ba: int, bb: int)
    by (nonlinear_arith)
    requires
        -ba <= a <= ba,
        -bb <= b <= bb,
        0 <= ba,
        0 <= bb,
    ensures
        -(ba * bb) <= a * b <= ba * bb,
{
}

/// The horizontal offset, scaled by `2n`, from the center of grid cell
/// column `gi` to the coordinate `cx`: the box spans `w` from `min_x`,
/// split into `n` columns, and the cell center sits half a column in.
pub open spec fn cell_delta(min_x: int, w: int, n: int, gi: int, cx: int) -> int {
    2 * n * (min_x - cx) + (2 * gi + 1) * w
}

/// The center of grid cell `(gi, gj)` lies in the disk of `c`: the
/// distance from the cell center to the center of `c` is at most its
/// radius, with both sides scaled by `2n` and squared.
pub open spec fn center_in_circle(
    min_x: int,
    min_y: int,
    w: int,
    h: int,
    n: int,
    gi: int,
    gj: int,
    c: Circle,
) -> bool {
    cell_delta(min_x, w, n, gi, c.x as int) * cell_delta(min_x, w, n, gi, c.x as int) + cell_delta(
        min_y,
        h,
        n,
        gj,
        c.y as int,
    ) * cell_delta(min_y, h, n, gj, c.y as int) <= (2 * n * c.r) * (2 * n * c.r)
}

/// Cell `idx` of the flattened `n` by `n` grid counts for the overlap
/// estimate: its center lies in the focal circle and in at least one of
/// the others.
pub open spec fn overlap_cell_hit(
    circle: Circle,
    others: Seq<Circle>,
    min_x: int,
    min_y: int,
    w: int,
    h: int,
    n: int,
    idx: int,
) -> bool {
    center_in_circle(min_x, min_y, w, h, n, idx / n, idx % n, circle) && exists|k: int|
        0 <= k < others.len() && center_in_circle(min_x, min_y, w, h, n, idx / n, idx % n, others[k])
}

/// Cell `idx` of the flattened grid counts for the common-area estimate:
/// its center lies in every circle of the list.
pub open spec fn common_cell_hit(
    s: Seq<Circle>,
    min_x: int,
    min_y: int,
    w: int,
    h: int,
    n: int,
    idx: int,
) -> bool {
    forall|k: int|
        0 <= k < s.len() ==> center_in_circle(min_x, min_y, w, h, n, idx / n, idx % n, #[trigger] s[k])
}

/// How many of the first `upto` cells count for the overlap estimate.
pub open spec fn overlap_hit_count(
    circle: Circle,
    others: Seq<Circle>,
    min_x: int,
    min_y: int,
    w: int,
    h: int,
    n: int,
    upto: int,
) -> int
    decreases upto,
{
    if upto <= 0 {
        0
    } else {
        overlap_hit_count(circle, others, min_x, min_y, w, h, n, upto - 1) + (if overlap_cell_hit(
            circle,
            others,
            min_x,
            min_y,
            w,
            h,
            n,
            upto - 1,
        ) {
            1int
        } else {
            0int
        })
    }
}

/// How many of the first `upto` cells count for the common-area estimate.
pub open spec fn common_hit_count(
    s: Seq<Circle>,
    min_x: int,
    min_y: int,
    w: int,
    h: int,
    n: int,
    upto: int,
) -> int
    decreases upto,
{
    if upto <= 0 {
        0
    } else {
        common_hit_count(s, min_x, min_y, w, h, n, upto - 1) + (if common_cell_hit(
            s,
            min_x,
            min_y,
            w,
            h,
            n,
            upto - 1,
        ) {
            1int
        } else {
            0int
        })
    }
}

/// Whether the center of grid cell `(gi, gj)` lies in the disk of `c`,
/// computed exactly in 128-bit arithmetic.
fn center_hits(
    min_x: i64,
    min_y: i64,
    w: i64,
    h: i64,
    n: usize,
    gi: usize,
    gj: usize,
    c: &Circle,
) -> (hit: bool)
    requires
        c.wf(),
        -2 * COORD_LIMIT <= min_x <= 2 * COORD_LIMIT,
        -2 * COORD_LIMIT <= min_y <= 2 * COORD_LIMIT,
        0 <= w <= 4 * COORD_LIMIT,
        0 <= h <= 4 * COORD_LIMIT,
        1 <= n <= 10_000,
        gi < n,
        gj < n,
    ensures
        hit == center_in_circle(
            min_x as int,
            min_y as int,
            w as int,
            h as int,
            n as int,
            gi as int,
            gj as int,
            *c,
        ),
{
    let n2: i128 = 2 * (n as i128);
    let fx: i128 = (2 * gi + 1) as i128;
    let fy: i128 = (2 * gj + 1) as i128;
    proof {
        lemma_mul_bounds(n2 as int, min_x - c.x, 20_000, 3_000_000_000);
        lemma_mul_bounds(fx as int, w as int, 20_000, 4_000_000_000);
        lemma_mul_bounds(n2 as int, min_y - c.y, 20_000, 3_000_000_000);
        lemma_mul_bounds(fy as int, h as int, 20_000, 4_000_000_000);
        lemma_mul_bounds(n2 as int, c.r as int, 20_000, 1_000_000_000);
    }
    let dx: i128 = n2 * ((min_x as i128) - (c.x as i128)) + fx * (w as i128);
    let dy: i128 = n2 * ((min_y as i128) - (c.y as i128)) + fy * (h as i128);
    let rr: i128 = n2 * (c.r as i128);
    sq(dx) + sq(dy) <= sq(rr)
}

/// Estimates the area of `circle` covered by the union of `others` on an
/// `n` by `n` grid over the bounding box of `circle`: every grid cell
/// whose center lies in `circle` and in at least one other circle
/// contributes one cell area.  A circle without positive radius, or an
/// empty obstacle list, covers nothing.
pub fn overlap(circle: &Circle, others: &Vec<Circle>, samples: usize) -> (r: AreaRatio)
    requires
        circle.wf(),
        forall|k: int| 0 <= k < others@.len() ==> (#[trigger] others@[k]).wf(),
        1 <= samples <= 10_000,
    ensures
        r.den > 0,
        (circle.r <= 0 || others@.len() == 0) ==> r.num == 0 && r.den == 1,
        (circle.r > 0 && others@.len() > 0) ==> {
            &&& r.num == overlap_hit_count(
                *circle,
                others@,
                (circle.x - circle.r) as int,
                (circle.y - circle.r) as int,
                2 * circle.r,
                2 * circle.r,
                samples as int,
                (samples * samples) as int,
            ) * (2 * circle.r) * (2 * circle.r)
            &&& r.den == (samples * samples) as int
        },
{
    if circle.r <= 0 {
        return AreaRatio { num: 0, den: 1 };
    }
    if others.len() == 0 {
        return AreaRatio { num: 0, den: 1 };
    }
    let ghost os = others@;
    let min_x = circle.x - circle.r;
    let min_y = circle.y - circle.r;
    let w = 2 * circle.r;
    let h = 2 * circle.r;
    let n = samples;
    proof {
        lemma_mul_bounds(n as int, n as int, 10_000, 10_000);
    }
    let total = n * n;
    let mut cnt: usize = 0;
    let mut idx: usize = 0;
    while idx < total
        invariant
            circle.wf(),
            forall|k: int| 0 <= k < os.len() ==> (#[trigger] os[k]).wf(),
            os == others@,
            os.len() > 0,
            circle.r > 0,
            min_x == circle.x - circle.r,
            min_y == circle.y - circle.r,
            w == 2 * circle.r,
            h == 2 * circle.r,
            1 <= n <= 10_000,
            total == n * n,
            idx <= total,
            cnt == overlap_hit_count(
                *circle,
                os,
                min_x as int,
                min_y as int,
                w as int,
                h as int,
                n as int,
                idx as int,
            ),
            cnt <= idx,
        decreases total - idx,
    {
        proof {
            assert(idx / n < n && idx % n < n) by (nonlinear_arith)
                requires
                    0 < n,
                    idx < n * n,
            ;
        }
        let gi = idx / n;
        let gj = idx % n;
        let mut hit = false;
        let main_in = center_hits(min_x, min_y, w, h, n, gi, gj, circle);
        if main_in {
            let mut k: usize = 0;
            while !hit && k < others.len()
                invariant
                    forall|k2: int| 0 <= k2 < os.len() ==> (#[trigger] os[k2]).wf(),
                    os == others@,
                    circle.wf(),
                    -2 * COORD_LIMIT <= min_x <= 2 * COORD_LIMIT,
                    -2 * COORD_LIMIT <= min_y <= 2 * COORD_LIMIT,
                    0 <= w <= 4 * COORD_LIMIT,
                    0 <= h <= 4 * COORD_LIMIT,
                    1 <= n <= 10_000,
                    gi < n,
                    gj < n,
                    k <= os.len(),
                    !hit ==> forall|k2: int|
                        0 <= k2 < k ==> !center_in_circle(
                            min_x as int,
                            min_y as int,
                            w as int,
                            h as int,
                            n as int,
                            gi as int,
                            gj as int,
                            #[trigger] os[k2],
                        ),
                    hit ==> exists|k2: int|
                        0 <= k2 < os.len() && center_in_circle(
                            min_x as int,
                            min_y as int,
                            w as int,
                            h as int,
                            n as int,
                            gi as int,
                            gj as int,
                            #[trigger] os[k2],
                        ),
                decreases os.len() - k + (if hit {
                    0int
                } else {
                    1int
                }),
            {
                if center_hits(min_x, min_y, w, h, n, gi, gj, &others[k]) {
                    hit = true;
                } else {
                    k = k + 1;
                }
            }
            proof {
                assert(hit == overlap_cell_hit(
                    *circle,
                    os,
                    min_x as int,
                    min_y as int,
                    w as int,
                    h as int,
                    n as int,
                    idx as int,
                ));
            }
        } else {
            proof {
                assert(!overlap_cell_hit(
                    *circle,
                    os,
                    min_x as int,
                    min_y as int,
                    w as int,
                    h as int,
                    n as int,
                    idx as int,
                ));
            }
        }
        if hit {
            cnt = cnt + 1;
        }
        idx = idx + 1;
    }
    proof {
        lemma_mul_bounds(cnt as int, w as int, 100_000_000, 2_000_000_000);
        lemma_mul_bounds(cnt as int * w as int, h as int, 200_000_000_000_000_000, 2_000_000_000);
    }
    proof {
        assert(n * n >= 1) by (nonlinear_arith)
            requires
                1 <= n,
        ;
    }
    let num: i128 = (cnt as i128) * (w as i128) * (h as i128);
    AreaRatio { num, den: (total as i128) }
}

/// The left edge of the intersection of the bounding boxes of the first
/// `t` circles: the largest `x - r`.
pub open spec fn bbox_min_x(s: Seq<Circle>, t: int) -> int
    decreases t,
{
    if t <= 1 {
        s[0].x - s[0].r
    } else if s[t - 1].x - s[t - 1].r > bbox_min_x(s, t - 1) {
        s[t - 1].x - s[t - 1].r
    } else {
        bbox_min_x(s, t - 1)
    }
}

/// The bottom edge of the intersection of the bounding boxes.
pub open spec fn bbox_min_y(s: Seq<Circle>, t: int) -> int
    decreases t,
{
    if t <= 1 {
        s[0].y - s[0].r
    } else if s[t - 1].y - s[t - 1].r > bbox_min_y(s, t - 1) {
        s[t - 1].y - s[t - 1].r
    } else {
        bbox_min_y(s, t - 1)
    }
}

/// The right edge of the intersection of the bounding boxes: the smallest
/// `x + r`.
pub open spec fn bbox_max_x(s: Seq<Circle>, t: int) -> int
    decreases t,
{
    if t <= 1 {
        s[0].x + s[0].r
    } else if s[t - 1].x + s[t - 1].r < bbox_max_x(s, t - 1) {
        s[t - 1].x + s[t - 1].r
    } else {
        bbox_max_x(s, t - 1)
    }
}

/// The top edge of the intersection of the bounding boxes.
pub open spec fn bbox_max_y(s: Seq<Circle>, t: int) -> int
    decreases t,
{
    if t <= 1 {
        s[0].y + s[0].r
    } else if s[t - 1].y + s[t - 1].r < bbox_max_y(s, t - 1) {
        s[t - 1].y + s[t - 1].r
    } else {
        bbox_max_y(s, t - 1)
    }
}

/// Estimates the area common to all circles of the list on an `n` by `n`
/// grid over the intersection of their bounding boxes: every grid cell
/// whose center lies in all circles contributes one cell area.  An empty
/// list, or a bounding box intersection without extent, yields zero.
pub fn common_area_estimate(circles: &Vec<Circle>, samples: usize) -> (r: AreaRatio)
    requires
        forall|k: int| 0 <= k < circles@.len() ==> (#[trigger] circles@[k]).wf(),
        1 <= samples <= 10_000,
    ensures
        r.den > 0,
        circles@.len() == 0 ==> r.num == 0 && r.den == 1,
        circles@.len() > 0 && (bbox_min_x(circles@, circles@.len() as int) >= bbox_max_x(
            circles@,
            circles@.len() as int,
        ) || bbox_min_y(circles@, circles@.len() as int) >= bbox_max_y(
            circles@,
            circles@.len() as int,
        )) ==> r.num == 0 && r.den == 1,
        circles@.len() > 0 && bbox_min_x(circles@, circles@.len() as int) < bbox_max_x(
            circles@,
            circles@.len() as int,
        ) && bbox_min_y(circles@, circles@.len() as int) < bbox_max_y(
            circles@,
            circles@.len() as int,
        ) ==> {
            &&& r.num == common_hit_count(
                circles@,
                bbox_min_x(circles@, circles@.len() as int),
                bbox_min_y(circles@, circles@.len() as int),
                bbox_max_x(circles@, circles@.len() as int) - bbox_min_x(
                    circles@,
                    circles@.len() as int,
                ),
                bbox_max_y(circles@, circles@.len() as int) - bbox_min_y(
                    circles@,
                    circles@.len() as int,
                ),
                samples as int,
                (samples * samples) as int,
            ) * (bbox_max_x(circles@, circles@.len() as int) - bbox_min_x(
                circles@,
                circles@.len() as int,
            )) * (bbox_max_y(circles@, circles@.len() as int) - bbox_min_y(
                circles@,
                circles@.len() as int,
            ))
            &&& r.den == (samples * samples) as int
        },
{
    let ghost s = circles@;
    let nc = circles.len();
    if nc == 0 {
        return AreaRatio { num: 0, den: 1 };
    }
    let mut min_x = circles[0].x - circles[0].r;
    let mut min_y = circles[0].y - circles[0].r;
    let mut max_x = circles[0].x + circles[0].r;
    let mut max_y = circles[0].y + circles[0].r;
    let mut t: usize = 1;
    while t < nc
        invariant
            s == circles@,
            forall|k: int| 0 <= k < s.len() ==> (#[trigger] s[k]).wf(),
            1 <= t <= nc,
            nc == s.len(),
            min_x == bbox_min_x(s, t as int),
            min_y == bbox_min_y(s, t as int),
            max_x == bbox_max_x(s, t as int),
            max_y == bbox_max_y(s, t as int),
            -2 * COORD_LIMIT <= min_x <= 2 * COORD_LIMIT,
            -2 * COORD_LIMIT <= min_y <= 2 * COORD_LIMIT,
            -2 * COORD_LIMIT <= max_x <= 2 * COORD_LIMIT,
            -2 * COORD_LIMIT <= max_y <= 2 * COORD_LIMIT,
        decreases nc - t,
    {
        let c = circles[t];
        let lo_x = c.x - c.r;
        let lo_y = c.y - c.r;
        let hi_x = c.x + c.r;
        let hi_y = c.y + c.r;
        if lo_x > min_x {
            min_x = lo_x;
        }
        if lo_y > min_y {
            min_y = lo_y;
        }
        if hi_x < max_x {
            max_x = hi_x;
        }
        if hi_y < max_y {
            max_y = hi_y;
        }
        t = t + 1;
    }
    if min_x >= max_x || min_y >= max_y {
        return AreaRatio { num: 0, den: 1 };
    }
    let w = max_x - min_x;
    let h = max_y - min_y;
    let n = samples;
    proof {
        lemma_mul_bounds(n as int, n as int, 10_000, 10_000);
    }
    let total = n * n;
    let mut cnt: usize = 0;
    let mut idx: usize = 0;
    while idx < total
        invariant
            s == circles@,
            forall|k: int| 0 <= k < s.len() ==> (#[trigger] s[k]).wf(),
            nc == s.len(),
            nc >= 1,
            min_x == bbox_min_x(s, nc as int),
            min_y == bbox_min_y(s, nc as int),
            max_x == bbox_max_x(s, nc as int),
            max_y == bbox_max_y(s, nc as int),
            min_x < max_x,
            min_y < max_y,
            w == max_x - min_x,
            h == max_y - min_y,
            -2 * COORD_LIMIT <= min_x <= 2 * COORD_LIMIT,
            -2 * COORD_LIMIT <= min_y <= 2 * COORD_LIMIT,
            0 < w <= 4 * COORD_LIMIT,
            0 < h <= 4 * COORD_LIMIT,
            1 <= n <= 10_000,
            total == n * n,
            idx <= total,
            cnt == common_hit_count(
                s,
                min_x as int,
                min_y as int,
                w as int,
                h as int,
                n as int,
                idx as int,
            ),
            cnt <= idx,
        decreases total - idx,
    {
        proof {
            assert(idx / n < n && idx % n < n) by (nonlinear_arith)
                requires
                    0 < n,
                    idx < n * n,
            ;
        }
        let gi = idx / n;
        let gj = idx % n;
        let mut inside_all = true;
        let mut k: usize = 0;
        while inside_all && k < nc
            invariant
                s == circles@,
                forall|k2: int| 0 <= k2 < s.len() ==> (#[trigger] s[k2]).wf(),
                nc == s.len(),
                -2 * COORD_LIMIT <= min_x <= 2 * COORD_LIMIT,
                -2 * COORD_LIMIT <= min_y <= 2 * COORD_LIMIT,
                0 <= w <= 4 * COORD_LIMIT,
                0 <= h <= 4 * COORD_LIMIT,
                1 <= n <= 10_000,
                gi < n,
                gj < n,
                k <= nc,
                inside_all ==> forall|k2: int|
                    0 <= k2 < k ==> center_in_circle(
                        min_x as int,
                        min_y as int,
                        w as int,
                        h as int,
                        n as int,
                        gi as int,
                        gj as int,
                        #[trigger] s[k2],
                    ),
                !inside_all ==> exists|k2: int|
                    0 <= k2 < s.len() && !center_in_circle(
                        min_x as int,
                        min_y as int,
                        w as int,
                        h as int,
                        n as int,
                        gi as int,
                        gj as int,
                        #[trigger] s[k2],
                    ),
            decreases nc - k + (if inside_all {
                1int
            } else {
                0int
            }),
        {
            if !center_hits(min_x, min_y, w, h, n, gi, gj, &circles[k]) {
                inside_all = false;
            } else {
                k = k + 1;
            }
        }
        proof {
            assert(inside_all == common_cell_hit(
                s,
                min_x as int,
                min_y as int,
                w as int,
                h as int,
                n as int,
                idx as int,
            ));
        }
        if inside_all {
            cnt = cnt + 1;
        }
        idx = idx + 1;
    }
    proof {
        lemma_mul_bounds(cnt as int, w as int, 100_000_000, 4_000_000_000);
        lemma_mul_bounds(cnt as int * w as int, h as int, 400_000_000_000_000_000, 4_000_000_000);
    }
    proof {
        assert(n * n >= 1) by (nonlinear_arith)
            requires
                1 <= n,
        ;
    }
    let num: i128 = (cnt as i128) * (w as i128) * (h as i128);
    AreaRatio { num, den: (total as i128) }
}

} // verus!
