//! A combat-resolution engine for fleets of ships.
//!
//! Battles may involve thousands of identical units, so a group of ships of
//! one type is represented by a single simulated ship plus a live count; the
//! representative's state is kept as the (integer-truncated) average of the
//! members.  Incoming weapon fire is held in an ordered, deduplicated attack
//! pool that is threaded through the groups of a fleet front to back, so that
//! groups placed further back only absorb what earlier groups failed to use.

use vstd::prelude::*;

pub mod combat_instance;
pub mod ship_error;
pub mod ship_template;
pub mod ship;
pub mod attacks;
pub mod reduced_ship;
pub mod fleets;
pub mod factions;
pub mod properties;
pub mod text;
pub mod weapons;

verus! {

/// The standard unsigned integer type used by the engine.
pub type UInt = u32;

/// The maximum value of [`UInt`].
pub const UINT_MAX: UInt = u32::MAX;

/// A class of ship based on its size.
pub type ShipSize = UInt;

/// A unit of mass.
pub type Mass = UInt;

/// A unit of fuel.
pub type FuelUnit = UInt;

/// A hull (health) point.
pub type HullPoint = UInt;

/// A shield point.
pub type ShieldPoint = UInt;

/// A point of damage.
pub type DamagePoint = UInt;

/// A count of simultaneous attack projectiles.
pub type AttackProjectile = UInt;

} // verus!
