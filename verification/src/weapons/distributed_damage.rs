//! Damage distributed across several targets of one size.

use vstd::prelude::*;
use crate::weapons::targeted_damage::TargetedDamage;
use crate::UInt;

verus! {

/// A `DistributedDamage` is a [`TargetedDamage`] spread across a number of
/// targets of that size.
#[derive(Debug, PartialEq, Eq, Clone, Copy, Structural)]
pub struct DistributedDamage {
    /// The damage directed at the targets.
    pub damage: TargetedDamage,
    /// The number of ships being targeted.
    pub targets: UInt,
}

impl DistributedDamage {
    /// Creates a new `DistributedDamage`.
    pub fn new(damage: TargetedDamage, targets: UInt) -> (r: Self)
        ensures
            r == (DistributedDamage { damage, targets }),
    {
        DistributedDamage { damage, targets }
    }
}

} // verus!
