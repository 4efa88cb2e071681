use vstd::prelude::*;
use crate::circle::Circle;
use crate::solver::{
    RadialArea, SolverState, SolverStep, PrevSide, solver_start, solver_step, solver_transition,
    abs_diff,
};

verus! {

/// The sequential placement run: targets are solved in order, each one
/// against all circles already solved, so earlier results never move.
/// `current` is the radius search of the next unsolved target; once all
/// targets are solved it is stale.
pub struct Placement {
    pub targets: Vec<RadialArea>,
    pub solved: Vec<Circle>,
    pub delta: i64,
    pub epsilon: i64,
    pub max_iter: usize,
    pub current: SolverState,
}

/// What the run needs next: a measurement of the given candidate circle
/// against the solved obstacles, or it is finished, or the target at the
/// given position has run out of measurements and the whole run fails.
#[derive(Clone, Copy, Debug)]
pub enum PlacementStep {
    Measure(Circle),
    Done,
    Failed(usize),
}

impl Placement {
    /// The run is structurally sound: solved circles sit on their
    /// targets' origins in order, and while targets remain, the current
    /// search belongs to the first unsolved one.
    pub open spec fn wf(self) -> bool {
        &&& self.delta >= 0
        &&& self.epsilon >= 0
        &&& self.solved@.len() <= self.targets@.len()
        &&& forall|i: int| 0 <= i < self.targets@.len() ==> (#[trigger] self.targets@[i]).wf()
        &&& forall|i: int|
            0 <= i < self.solved@.len() ==> (#[trigger] self.solved@[i]).x
                == self.targets@[i].x && self.solved@[i].y == self.targets@[i].y
                && self.solved@[i].wf()
        &&& self.solved@.len() < self.targets@.len() ==> {
            &&& self.current.wf()
            &&& self.current.x == self.targets@[self.solved@.len() as int].x
            &&& self.current.y == self.targets@[self.solved@.len() as int].y
            &&& self.current.target == self.targets@[self.solved@.len() as int].area
            &&& self.current.epsilon == self.epsilon
        }
    }

    /// Starts a run over `targets` with a shared step, tolerance and
    /// measurement budget per target.
    pub fn start(targets: Vec<RadialArea>, delta: i64, epsilon: i64, max_iter: usize) -> (p:
        Placement)
        requires
            forall|i: int| 0 <= i < targets@.len() ==> (#[trigger] targets@[i]).wf(),
            delta >= 0,
            epsilon >= 0,
        ensures
            p.wf(),
            p.targets@ == targets@,
            p.solved@.len() == 0,
            p.delta == delta && p.epsilon == epsilon && p.max_iter == max_iter,
            p.solved@.len() < p.targets@.len() ==> p.current.iter_left == max_iter,
    {
        let current = if targets.len() > 0 {
            solver_start(&targets[0], delta, epsilon, max_iter)
        } else {
            SolverState {
                x: 0,
                y: 0,
                target: 0,
                r: 0,
                delta,
                epsilon,
                iter_left: 0,
                prev: PrevSide::Start,
            }
        };
        Placement { targets, solved: Vec::new(), delta, epsilon, max_iter, current }
    }

    /// What the run needs next.  The first target whose measurement
    /// budget is exhausted fails the whole run, with no partial output
    /// intended for use.
    pub fn next_action(&self) -> (step: PlacementStep)
        requires
            self.wf(),
        ensures
            self.solved@.len() == self.targets@.len() ==> step is Done,
            self.solved@.len() < self.targets@.len() && self.current.iter_left == 0 ==> step
                == PlacementStep::Failed(self.solved@.len() as usize),
            self.solved@.len() < self.targets@.len() && self.current.iter_left > 0 ==> step
                == PlacementStep::Measure(
                Circle { x: self.current.x, y: self.current.y, r: self.current.r },
            ),
    {
        if self.solved.len() == self.targets.len() {
            PlacementStep::Done
        } else if self.current.iter_left == 0 {
            PlacementStep::Failed(self.solved.len())
        } else {
            PlacementStep::Measure(self.current.candidate())
        }
    }

    /// Feeds the measured exclusive area of the current candidate into
    /// the run.  Within tolerance the candidate becomes the next solved
    /// circle, already-solved circles never change, and the search moves
    /// to the following target; otherwise the current search steps once.
    pub fn feed(&mut self, measured: i64) -> (placed: Option<Circle>)
        requires
            old(self).wf(),
            old(self).solved@.len() < old(self).targets@.len(),
            old(self).current.iter_left > 0,
        ensures
            final(self).wf(),
            final(self).targets@ == old(self).targets@,
            final(self).delta == old(self).delta,
            final(self).epsilon == old(self).epsilon,
            final(self).max_iter == old(self).max_iter,
            match placed {
                Some(c) => {
                    &&& abs_diff(measured as int, old(self).current.target as int) < old(
                        self
                    ).current.epsilon
                    &&& c == (Circle {
                        x: old(self).current.x,
                        y: old(self).current.y,
                        r: old(self).current.r,
                    })
                    &&& final(self).solved@ == old(self).solved@.push(c)
                    &&& final(self).solved@.len() < final(self).targets@.len() ==> final(
                        self
                    ).current.iter_left == final(self).max_iter
                },
                None => {
                    &&& abs_diff(measured as int, old(self).current.target as int) >= old(
                        self
                    ).current.epsilon
                    &&& final(self).solved@ == old(self).solved@
                    &&& final(self).current == solver_transition(old(self).current, measured)
                },
            },
    {
        match solver_step(&self.current, measured) {
            SolverStep::Converged(c) => {
                self.solved.push(c);
                if self.solved.len() < self.targets.len() {
                    self.current = solver_start(
                        &self.targets[self.solved.len()],
                        self.delta,
                        self.epsilon,
                        self.max_iter,
                    );
                }
                Some(c)
            },
            SolverStep::Continue(next) => {
                self.current = next;
                None
            },
        }
    }
}

} // verus!
