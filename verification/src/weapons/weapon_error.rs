//! Errors raised when constructing weapons or weapon sets.

use vstd::prelude::*;

verus! {

/// An error raised when a weapon or a set of weapons is malformed; a
/// malformed weapon is never allowed to enter a pool.
#[derive(Debug, PartialEq, Eq, Clone, Copy, Structural)]
pub enum WeaponError {
    /// A weapon deals zero damage per attack.
    DamageError,
    /// A weapon produces zero simultaneous attacks.
    AttacksError,
    /// Two weapons of one set share a target size.
    TargetError,
}

} // verus!
