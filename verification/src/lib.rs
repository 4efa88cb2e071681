//! Catchment-area geometry engine.
//!
//! The engine works on circles whose centers and radii are integers in a
//! caller-chosen fixed unit (for example micrometers, or millionths of a
//! kilometer).  All decisions that can be made exactly over those integers
//! are made here and verified: the pairwise classifier, the grouping of
//! overlapping circles, the grid sampling estimator, the inclusion-exclusion
//! accounting, and the damped radius solver.  The irrational quantities of
//! circle geometry (intersection points, segment areas) are left to callers,
//! which feed measured areas back in as integers.

pub mod accum;
pub mod circle;
pub mod errors;
pub mod grid;
pub mod group;
pub mod placement;
pub mod plan;
pub mod region;
pub mod solver;

pub use circle::Circle;
pub use circle::Intersection;
pub use errors::EngineError;
