//! Simulation of water flowing across a one-dimensional terrain.
//!
//! A landscape is an ordered sequence of points, each with a fixed ground
//! height and an accumulated water depth. Rainfall adds water; stabilization
//! then redistributes it between adjacent points, pass by pass, until no
//! further flow is possible under the configured tolerance.
//!
//! Heights are fixed-point values: plain `i64` numbers in whatever resolution
//! the caller chooses (for example hundredths of a unit). The alias
//! [`PointHeight`] keeps that choice in one place.

use vstd::prelude::*;

pub mod landscape;
pub mod laws;
pub mod model;
pub mod neighbors;
pub mod sums;

verus! {

/// The numeric type used for ground heights, water depths and tolerances.
pub type PointHeight = i64;

/// Largest number of points a landscape may hold.
pub const MAX_POINTS: usize = 0x10_0000;

/// Largest magnitude accepted for an initial ground height.
pub const MAX_GROUND_ABS: i64 = 0x100_0000_0000;

/// Largest total amount of water a landscape may carry at once.
pub const MAX_TOTAL_WATER: i64 = 0x100_0000_0000;

/// Number of stabilization passes allowed in one call. The algorithm has no
/// natural bound on its pass count, so the budget is set far beyond anything
/// a run could use; exhausting it is reported as a per-step failure.
pub const MAX_PASSES: u64 = 0x7FFF_FFFF_FFFF_FFFF;

/// Everything a landscape can report as a failure.
#[derive(Clone, Copy, Debug, PartialEq, Eq, Structural)]
pub enum LandscapeError {
    /// Construction was given no points at all.
    EmptyLandscape,
    /// Construction was given more points than the library supports.
    TooManyPoints,
    /// Construction was given a ground height outside the supported range.
    GroundOutOfRange,
    /// Construction was given a tolerance that is not positive, or one
    /// beyond the supported range.
    InvalidPrecision,
    /// A rainfall would push the total amount of water beyond the
    /// supported range.
    TooMuchWater,
    /// Stabilization did not reach a stable state within the pass budget.
    NotStabilized,
}

} // verus!
