use vstd::prelude::*;
use crate::circle::{Circle, COORD_LIMIT, coord_in_range};
use crate::grid::lemma_mul_bounds;

verus! {

/// The numerator and denominator of the rational approximation of pi used
/// to seed the radius search.
pub const PI_NUM: i128 = 3_141_592_653_589_793;

pub const PI_DEN: i128 = 1_000_000_000_000_000;

/// A solver input: a center point and the exclusive area, in squared
/// coordinate units, that the circle placed there should keep free of its
/// obstacles.
#[derive(Clone, Copy, Debug, PartialEq, Eq, Structural)]
pub struct RadialArea {
    pub x: i64,
    pub y: i64,
    pub area: i64,
}

impl RadialArea {
    /// The target is usable by the solver: its center is in coordinate
    /// range and its area is not negative.
    pub open spec fn wf(self) -> bool {
        coord_in_range(self.x) && coord_in_range(self.y) && self.area >= 0
    }
}

/// On which side of the target the previous measurement fell.  `Start`
/// means no measurement was adjusted on yet; it damps like `Below`, so a
/// first overshoot already halves the step.
#[derive(Clone, Copy, Debug, PartialEq, Eq, Structural)]
pub enum PrevSide {
    Start,
    Below,
    At,
    Above,
}

/// The state of one damped radius search: the fixed target, the current
/// radius and step, the tolerance, the remaining measurement budget, and
/// the side of the previous measurement.
#[derive(Clone, Copy, Debug, PartialEq, Eq, Structural)]
pub struct SolverState {
    pub x: i64,
    pub y: i64,
    pub target: i64,
    pub r: i64,
    pub delta: i64,
    pub epsilon: i64,
    pub iter_left: usize,
    pub prev: PrevSide,
}

impl SolverState {
    pub open spec fn wf(self) -> bool {
        coord_in_range(self.x) && coord_in_range(self.y) && self.target >= 0 && -COORD_LIMIT
            <= self.r <= COORD_LIMIT && self.delta >= 0 && self.epsilon >= 0
    }

    /// The circle that the caller must measure next: the target origin
    /// with the current radius.
    pub fn candidate(&self) -> (c: Circle)
        requires
            self.wf(),
        ensures
            c == (Circle { x: self.x, y: self.y, r: self.r }),
            c.wf(),
    {
        Circle { x: self.x, y: self.y, r: self.r }
    }
}

/// What one solver step decides: the candidate circle meets the target
/// within tolerance, or the search continues with an adjusted state.
#[derive(Clone, Copy, Debug, PartialEq, Eq, Structural)]
pub enum SolverStep {
    Converged(Circle),
    Continue(SolverState),
}

/// The integer square root: the largest `r` with `r * r <= v`.
pub fn isqrt(v: u128) -> (r: u128)
    requires
        v <= 0x4000_0000_0000_0000_0000_0000_0000_0000u128,
    ensures
        r * r <= v < (r + 1) * (r + 1),
        r <= 0x8000_0000_0000_0000u128,
{
    let mut lo: u128 = 0;
    let mut hi: u128 = 0x8000_0000_0000_0000;
    proof {
        assert((hi + 1) * (hi + 1) > v) by (nonlinear_arith)
            requires
                hi == 0x8000_0000_0000_0000u128,
                v <= 0x4000_0000_0000_0000_0000_0000_0000_0000u128,
        ;
    }
    while lo < hi
        invariant
            lo <= hi <= 0x8000_0000_0000_0000u128,
            lo * lo <= v,
            v < (hi + 1) * (hi + 1),
        decreases hi - lo,
    {
        let mid = lo + (hi - lo + 1) / 2;
        proof {
            lemma_mul_bounds(mid as int, mid as int, 0x8000_0000_0000_0000, 0x8000_0000_0000_0000);
        }
        if mid * mid <= v {
            lo = mid;
        } else {
            hi = mid - 1;
        }
    }
    lo
}

/// Starts a radius search for `radial`: the seed radius is the integer
/// square root of `area / pi`, the exact answer when nothing overlaps,
/// clamped to the coordinate range.
pub fn solver_start(radial: &RadialArea, delta: i64, epsilon: i64, max_iter: usize) -> (s:
    SolverState)
    requires
        radial.wf(),
        delta >= 0,
        epsilon >= 0,
    ensures
        s.wf(),
        s.x == radial.x && s.y == radial.y && s.target == radial.area,
        s.delta == delta && s.epsilon == epsilon && s.iter_left == max_iter,
        s.prev is Start,
        s.r >= 0,
        (s.r as int) * (s.r as int) <= (radial.area as int) * (PI_DEN as int) / (PI_NUM as int),
        s.r == COORD_LIMIT || (radial.area as int) * (PI_DEN as int) / (PI_NUM as int) < ((
        s.r as int) + 1) * ((s.r as int) + 1),
{
    proof {
        lemma_mul_bounds(radial.area as int, PI_DEN as int, 0x8000_0000_0000_0000, PI_DEN as int);
    }
    let q: i128 = (radial.area as i128) * PI_DEN / PI_NUM;
    let root = isqrt(q as u128);
    let r: i64 = if root > (COORD_LIMIT as u128) {
        proof {
            assert((COORD_LIMIT as int) * (COORD_LIMIT as int) <= (root as int) * (root as int))
                by (nonlinear_arith)
                requires
                    0 <= (COORD_LIMIT as int) <= (root as int),
            ;
        }
        COORD_LIMIT
    } else {
        root as i64
    };
    SolverState {
        x: radial.x,
        y: radial.y,
        target: radial.area,
        r,
        delta,
        epsilon,
        iter_left: max_iter,
        prev: PrevSide::Start,
    }
}

/// Clamps a 128-bit value into the coordinate range.
fn clamp_coord(v: i128) -> (r: i64)
    ensures
        v < -COORD_LIMIT ==> r == -COORD_LIMIT,
        v > COORD_LIMIT ==> r == COORD_LIMIT,
        -COORD_LIMIT <= v <= COORD_LIMIT ==> r == v,
{
    if v < -(COORD_LIMIT as i128) {
        -COORD_LIMIT
    } else if v > (COORD_LIMIT as i128) {
        COORD_LIMIT
    } else {
        v as i64
    }
}

/// Feeds one measured exclusive area into the search.  Within tolerance
/// of the target the candidate circle is the answer.  Otherwise the
/// radius moves one step toward the target, and the step halves when the
/// search has just crossed the target: a measurement below it after one
/// above it, or one above it when no previous measurement was below.
pub fn solver_step(state: &SolverState, measured: i64) -> (out: SolverStep)
    requires
        state.wf(),
        state.iter_left > 0,
    ensures
        (abs_diff(measured as int, state.target as int) < state.epsilon) ==> out
            == SolverStep::Converged(Circle { x: state.x, y: state.y, r: state.r }),
        (abs_diff(measured as int, state.target as int) >= state.epsilon) ==> out
            == SolverStep::Continue(solver_transition(*state, measured)),
        (abs_diff(measured as int, state.target as int) >= state.epsilon) ==> solver_transition(
            *state,
            measured,
        ).wf(),
{
    let diff: i128 = (measured as i128) - (state.target as i128);
    let within = if diff >= 0 {
        diff < (state.epsilon as i128)
    } else {
        -diff < (state.epsilon as i128)
    };
    if within {
        return SolverStep::Converged(Circle { x: state.x, y: state.y, r: state.r });
    }
    let mut next = *state;
    next.iter_left = state.iter_left - 1;
    if measured < state.target {
        next.r = clamp_coord((state.r as i128) + (state.delta as i128));
        if matches!(state.prev, PrevSide::Above) {
            next.delta = state.delta / 2;
        }
        next.prev = PrevSide::Below;
    } else if measured > state.target {
        next.r = clamp_coord((state.r as i128) - (state.delta as i128));
        if matches!(state.prev, PrevSide::Below | PrevSide::Start) {
            next.delta = state.delta / 2;
        }
        next.prev = PrevSide::Above;
    } else {
        next.prev = PrevSide::At;
    }
    SolverStep::Continue(next)
}

/// The state after one non-converged measurement: the radius moves one
/// step toward the target, the step halves when the search has just
/// crossed the target, and the measurement's side is recorded.
pub open spec fn solver_transition(s: SolverState, measured: i64) -> SolverState {
    if measured < s.target {
        SolverState {
            r: clamped(s.r + s.delta) as i64,
            delta: if s.prev is Above {
                ((s.delta as int) / 2) as i64
            } else {
                s.delta
            },
            prev: PrevSide::Below,
            iter_left: (s.iter_left - 1) as usize,
            ..s
        }
    } else if measured > s.target {
        SolverState {
            r: clamped(s.r - s.delta) as i64,
            delta: if s.prev is Below || s.prev is Start {
                ((s.delta as int) / 2) as i64
            } else {
                s.delta
            },
            prev: PrevSide::Above,
            iter_left: (s.iter_left - 1) as usize,
            ..s
        }
    } else {
        SolverState { prev: PrevSide::At, iter_left: (s.iter_left - 1) as usize, ..s }
    }
}

/// The absolute difference.
pub open spec fn abs_diff(a: int, b: int) -> int {
    if a >= b {
        a - b
    } else {
        b - a
    }
}

/// A value clamped into the coordinate range.
pub open spec fn clamped(v: int) -> int {
    if v < -COORD_LIMIT {
        -COORD_LIMIT as int
    } else if v > COORD_LIMIT {
        COORD_LIMIT as int
    } else {
        v
    }
}

} // verus!
