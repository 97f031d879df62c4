//! Battles between opposing fleets.

use vstd::prelude::*;
use crate::fleets::AllignedFleet;

verus! {

/// The set of battles being fought at once.
#[derive(Debug, Clone)]
pub struct CombatInstance {
    /// The battles under way.
    pub battle: Vec<Battle>,
}

/// One battle: two opposing fleets.
#[derive(Debug, Clone)]
pub struct Battle {
    /// The fleet that opened the battle.
    pub first_fleet: AllignedFleet,
    /// The fleet that was engaged.
    pub second_fleet: AllignedFleet,
}

} // verus!
