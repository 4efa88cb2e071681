use vstd::prelude::*;

verus! {

/// Failures of the geometry engine.
///
/// Geometry-input and numeric-consistency failures abort the single
/// computation that raised them; non-convergence may be retried by the
/// caller with adjusted step or budget; a degenerate topology means a
/// boundary walk could not close its polygon.
#[derive(Clone, Copy, Debug, PartialEq, Eq, Structural)]
pub enum EngineError {
    /// An invalid primitive input, such as a chord longer than the diameter.
    GeometryInput,
    /// An accumulated area fell outside its provable bound.
    NumericConsistency,
    /// The radius solver exhausted its iteration budget.
    NonConvergence,
    /// A boundary walk could not close its polygon.
    DegenerateTopology,
}

impl EngineError {
    /// A short description of the failure.
    pub fn describe(&self) -> (r: &'static str)
        ensures
            r@.len() > 0,
    {
        proof {
            reveal_strlit("invalid geometric input");
            reveal_strlit("area outside its provable bound");
            reveal_strlit("radius search did not converge");
            reveal_strlit("boundary walk did not close");
        }
        match self {
            EngineError::GeometryInput => "invalid geometric input",
            EngineError::NumericConsistency => "area outside its provable bound",
            EngineError::NonConvergence => "radius search did not converge",
            EngineError::DegenerateTopology => "boundary walk did not close",
        }
    }
}

} // verus!
