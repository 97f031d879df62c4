//! Errors raised when constructing or mutating ships and ship templates.

use vstd::prelude::*;

verus! {

/// An error relating to ships: a capacity relation was violated.
///
/// The caller always retains the prior valid value; nothing is clamped.
#[derive(Debug, PartialEq, Eq, Copy, Clone, Structural)]
pub enum ShipError {
    /// Fuel exceeds fuel capacity, or fuel use exceeds fuel capacity.
    FuelError,
    /// Shield exceeds shield capacity, or recovery exceeds shield capacity.
    ShieldError,
    /// Hull exceeds the maximum hull.
    HullError,
}

} // verus!
