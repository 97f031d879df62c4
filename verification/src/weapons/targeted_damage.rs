//! Damage directed at one size of ship.

use vstd::prelude::*;
use crate::{DamagePoint, ShipSize, UINT_MAX};

verus! {

/// A `TargetedDamage` is an amount of damage directed at ships of one size.
#[derive(Debug, PartialEq, Eq, Clone, Copy, Structural)]
pub struct TargetedDamage {
    /// The size of ship being targeted.
    pub target_size: ShipSize,
    /// The damage points being directed.
    pub damage: DamagePoint,
}

impl TargetedDamage {
    /// Creates a new `TargetedDamage`.
    pub fn new(target_size: ShipSize, damage: DamagePoint) -> (r: Self)
        ensures
            r == (TargetedDamage { target_size, damage }),
    {
        TargetedDamage { target_size, damage }
    }

    /// Decides whether the two instances target the same size of ship.
    pub fn same_target(left: &Self, right: &Self) -> (r: bool)
        ensures
            r == (left.target_size == right.target_size),
    {
        left.target_size == right.target_size
    }

    /// Adds the damage of `other`, which must target the same size, into
    /// this one.
    pub fn fold(&mut self, other: &Self)
        requires
            old(self).target_size == other.target_size,
            old(self).damage + other.damage <= UINT_MAX,
        ensures
            *final(self) == (TargetedDamage {
                damage: (old(self).damage + other.damage) as DamagePoint,
                ..*old(self)
            }),
    {
        self.damage = self.damage + other.damage;
    }

    /// Returns the sum of this and `other` when both target the same size,
    /// and nothing otherwise.
    pub fn add(&self, other: &Self) -> (r: Option<Self>)
        requires
            self.target_size == other.target_size ==> self.damage + other.damage <= UINT_MAX,
        ensures
            self.target_size == other.target_size ==> r == Some(
                TargetedDamage {
                    damage: (self.damage + other.damage) as DamagePoint,
                    ..*self
                },
            ),
            self.target_size != other.target_size ==> r == None::<Self>,
    {
        if Self::same_target(self, other) {
            Some(TargetedDamage { damage: self.damage + other.damage, ..*self })
        } else {
            None
        }
    }
}

} // verus!
