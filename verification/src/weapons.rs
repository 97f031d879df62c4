//! Weapons: single weapon descriptors, deduplicated weapon sets, and the
//! distribution of their attacks over targets.

pub mod distinct_weapon;
pub mod distributed_damage;
pub mod reduced_weapon;
pub mod targeted_damage;
pub mod weapon_error;
