//! An aggregate group of identical ships: one representative [`Ship`] plus a
//! live count, with the statistical damage-distribution algorithm.

use vstd::prelude::*;
use vstd::arithmetic::div_mod::{
    lemma_div_by_self, lemma_div_is_ordered, lemma_div_is_ordered_by_denominator,
    lemma_div_multiples_vanish, lemma_div_of0, lemma_div_pos_is_pos, lemma_fundamental_div_mod,
    lemma_mod_division_less_than_divisor,
};
use crate::attacks::{key_lt, Attack, ReducedAttacks, TargetedAttack};
use vstd::math::min;
use crate::ship::Ship;
use crate::{DamagePoint, UInt, UINT_MAX};

verus! {

/// The state in which the damage-distribution loop of
/// [`ReducedShip::resolve_damage`] ends; see [`group_loop`].
pub ghost struct GroupOutcome {
    /// Total hull of the processed units that survived.
    pub rem_hull: int,
    /// Total shield of the processed units that survived.
    pub rem_shield: int,
    /// Live members left in the group.
    pub number: int,
    /// Damage left in the pool.
    pub damage: int,
    /// Members that were never individually processed.
    pub unattacked: int,
}

/// Remaining hull when `portion` damage hits a unit at hull `h0`, shield
/// `s0`: shields absorb first.
pub open spec fn sim_hull(h0: int, s0: int, portion: int) -> int {
    if portion < s0 {
        h0
    } else if portion < s0 + h0 {
        h0 - (portion - s0)
    } else {
        0
    }
}

/// Remaining shield when `portion` damage hits a unit at hull `h0`, shield
/// `s0`.
pub open spec fn sim_shield(h0: int, s0: int, portion: int) -> int {
    if portion < s0 {
        s0 - portion
    } else {
        0
    }
}

/// Damage left over when `portion` damage hits a unit at hull `h0`, shield
/// `s0`: nonzero only when the unit is destroyed with damage to spare.
pub open spec fn sim_leftover(h0: int, s0: int, portion: int) -> int {
    if portion >= s0 + h0 {
        portion - s0 - h0
    } else {
        0
    }
}

/// One combat round of the averaging engine, mirrored as a recursion.
///
/// Starting from `number` live units of identical state `(h0, s0)`, a damage
/// pool `damage`, `to_iterate` units still to process and `unattacked` units
/// never yet hit, each step takes `damage / to_iterate` from the pool and
/// simulates it against one unit: a destroyed unit leaves the group and its
/// leftover damage returns to the pool; a survivor's hull and shield go into
/// the running totals.  `to_iterate` shrinks to at most the remaining damage,
/// so the loop is never longer than the damage could pay for.
pub open spec fn group_loop(
    h0: int,
    s0: int,
    number: int,
    damage: int,
    to_iterate: int,
    unattacked: int,
    rem_hull: int,
    rem_shield: int,
) -> GroupOutcome
    decreases to_iterate,
        when h0 >= 0 && s0 >= 0 && damage >= 0 && to_iterate >= 0
{
    if to_iterate <= 0 || damage == 0 {
        GroupOutcome { rem_hull, rem_shield, number, damage, unattacked }
    } else {
        let portion = damage / to_iterate;
        let d1 = damage - portion;
        if sim_hull(h0, s0, portion) == 0 {
            let d2 = d1 + sim_leftover(h0, s0, portion);
            group_loop(
                h0,
                s0,
                number - 1,
                d2,
                min(to_iterate - 1, d2),
                unattacked - 1,
                rem_hull,
                rem_shield,
            )
        } else {
            group_loop(
                h0,
                s0,
                number,
                d1,
                min(to_iterate - 1, d1),
                unattacked - 1,
                rem_hull + sim_hull(h0, s0, portion),
                rem_shield + sim_shield(h0, s0, portion),
            )
        }
    }
}

/// The outcome of the full round on a group of `number` units at `(h0, s0)`
/// against a pool of `damage`.
pub open spec fn group_outcome(h0: int, s0: int, number: int, damage: int) -> GroupOutcome {
    group_loop(h0, s0, number, damage, min(number, damage), number, 0, 0)
}

/// A group's state after one call of [`ReducedShip::resolve_damage`], as a
/// function of the old state: the new averages, the new count, and the
/// leftover damage.
pub ghost struct GroupApplied {
    /// The representative's new hull.
    pub hull: int,
    /// The representative's new shield.
    pub shield: int,
    /// The new live count.
    pub number: int,
    /// The damage that was not used.
    pub leftover: int,
}

/// What resolving `damage` does to a group of `number` units averaged at
/// `(hull, shield)`: the outcome of [`group_outcome`], with the survivors'
/// totals averaged back (integer-truncated) over the remaining count.
pub open spec fn group_apply(hull: int, shield: int, number: int, damage: int) -> GroupApplied {
    let o = group_outcome(hull, shield, number, damage);
    if o.number > 0 {
        GroupApplied {
            hull: (o.rem_hull + hull * o.unattacked) / o.number,
            shield: (o.rem_shield + shield * o.unattacked) / o.number,
            number: o.number,
            leftover: o.damage,
        }
    } else {
        GroupApplied { hull, shield, number: 0, leftover: o.damage }
    }
}

/// A group's state, and the pool's entries, after a pool has been fed
/// through the group; see [`resolve_pool`].
pub ghost struct PoolOutcome {
    /// The pool's entries after consumption.
    pub pool: Seq<TargetedAttack>,
    /// The representative's hull.
    pub hull: int,
    /// The representative's shield.
    pub shield: int,
    /// The live count.
    pub number: int,
}

/// Feeds the pool entries from index `i` on through a group of `number`
/// units averaged at `(hull, shield)` whose size class is `sc`: while
/// members remain, each entry that may target `sc` is resolved via
/// [`group_apply`] and rewritten to the attacks its leftover damage can
/// still pay for.
pub open spec fn resolve_pool(
    sc: int,
    pool: Seq<TargetedAttack>,
    i: int,
    hull: int,
    shield: int,
    number: int,
) -> PoolOutcome
    decreases pool.len() - i,
{
    if i < 0 || i >= pool.len() {
        PoolOutcome { pool, hull, shield, number }
    } else {
        let e = pool[i];
        if number > 0 && e.smallest_target <= sc {
            let a = group_apply(
                hull,
                shield,
                number,
                e.attack.parallel_attacks * e.attack.damage_per_attack,
            );
            let e2 = TargetedAttack {
                attack: Attack {
                    parallel_attacks: (a.leftover / (e.attack.damage_per_attack as int)) as UInt,
                    damage_per_attack: e.attack.damage_per_attack,
                },
                smallest_target: e.smallest_target,
            };
            resolve_pool(sc, pool.update(i, e2), i + 1, a.hull, a.shield, a.number)
        } else {
            resolve_pool(sc, pool, i + 1, hull, shield, number)
        }
    }
}

/// A `ReducedShip` represents many identical ships by one simulated
/// representative instance plus a live count; the representative's state is
/// kept as the integer-truncated average of the (unobserved) members.
#[derive(Debug, PartialEq, Eq, Clone)]
pub struct ReducedShip {
    /// The representative: the average state of all members.
    pub average_ship: Ship,
    /// The number of live members; zero means the group is gone.
    pub number: UInt,
}

impl ReducedShip {
    /// The representative, in specifications.
    pub open spec fn ship(&self) -> Ship {
        self.average_ship
    }

    /// The group's invariant: the representative satisfies the capacity
    /// relations.
    pub open spec fn valid(&self) -> bool {
        self.average_ship.valid()
    }

    /// Returns a new `ReducedShip` from a representative and a count.
    pub fn new(average_ship: Ship, number: UInt) -> (r: Self)
        ensures
            r == (ReducedShip { average_ship, number }),
    {
        Self { average_ship, number }
    }

    /// Returns a reference to the representative ship.
    pub fn average_ship(&self) -> (r: &Ship)
        ensures
            r == self.ship(),
    {
        &self.average_ship
    }

    /// Returns true if the group still has live members.
    pub fn is_alive(&self) -> (r: bool)
        ensures
            r == (self.number != 0),
    {
        self.number != 0
    }

    /// Regenerates the representative's shields, clamped to its template's
    /// shield capacity.
    pub fn regenerate_shields(&mut self)
        ensures
            final(self).number == old(self).number,
            final(self).ship().template == old(self).ship().template,
            final(self).ship().fuel_units == old(self).ship().fuel_units,
            final(self).ship().hull_points == old(self).ship().hull_points,
            final(self).ship().shield_points == if old(self).ship().shield_points + old(self).ship().templ().shield_recovery > old(self).ship().templ().shield_capacity {
                old(self).ship().templ().shield_capacity
            } else {
                (old(self).ship().shield_points + old(self).ship().templ().shield_recovery) as UInt
            },
    {
        self.average_ship.regenerate_shields()
    }

    /// Resolves damage against the group and returns what was not used.
    ///
    /// The live count and the damage returned are exactly those of
    /// [`group_outcome`]; for a surviving group the representative's hull and
    /// shield become the truncated averages of the surviving members' totals.
    /// The count never grows, and it shrinks only if the damage could destroy
    /// at least one unit.  For a live representative, damage energy is
    /// conserved up to the final truncated divisions.
    pub fn resolve_damage(&mut self, damage: DamagePoint) -> (r: DamagePoint)
        requires
            old(self).valid(),
        ensures
            ({
                let o = group_outcome(
                    old(self).ship().hull_points as int,
                    old(self).ship().shield_points as int,
                    old(self).number as int,
                    damage as int,
                );
                let total_hull = o.rem_hull + old(self).ship().hull_points * o.unattacked;
                let total_shield = o.rem_shield + old(self).ship().shield_points * o.unattacked;
                &&& final(self).number == o.number
                &&& r == o.damage
                &&& r <= damage
                &&& final(self).number <= old(self).number
                &&& final(self).ship().template == old(self).ship().template
                &&& final(self).ship().fuel_units == old(self).ship().fuel_units
                &&& final(self).valid()
                &&& final(self).ship().hull_points <= old(self).ship().hull_points
                &&& final(self).ship().shield_points <= old(self).ship().shield_points
                &&& o.number > 0 ==> final(self).ship().hull_points == total_hull / o.number
                    && final(self).ship().shield_points == total_shield / o.number
                &&& o.number == 0 ==> final(self).ship().hull_points == old(self).ship().hull_points && final(self).ship().shield_points == old(self).ship().shield_points
                &&& (old(self).ship().hull_points >= 1 && damage < old(self).ship().hull_points
                    + old(self).ship().shield_points) ==> final(self).number == old(self).number
                &&& old(self).ship().hull_points >= 1 ==> total_hull + total_shield == old(self).number * (old(self).ship().hull_points + old(self).ship().shield_points) - damage
                    + r
                &&& (old(self).ship().hull_points >= 1 && o.number > 0) ==> final(self).ship().hull_points * o.number <= total_hull && total_hull - o.number < final(self).ship().hull_points * o.number
                &&& (old(self).ship().hull_points >= 1 && o.number > 0) ==> final(self).ship().shield_points * o.number <= total_shield && total_shield - o.number
                    < final(self).ship().shield_points * o.number
                &&& (old(self).ship().hull_points >= 1 && o.number > 0) ==> total_hull
                    + total_shield - 2 * o.number < (final(self).ship().hull_points + final(self).ship().shield_points) * o.number <= total_hull + total_shield
                &&& (old(self).ship().hull_points >= 1 && r != 0) ==> final(self).number == 0
                &&& (old(self).ship().hull_points >= 1 && final(self).number != 0) ==> final(self).ship().hull_points >= 1
            }),
    {
        resolve_group_damage(&mut self.average_ship, &mut self.number, damage)
    }

    /// Resolves a pool of attacks against the group: while members remain,
    /// each entry that may target the group's size class is converted to
    /// total damage, resolved across the members, and rewritten to the
    /// number of attacks the leftover damage could still pay for.
    ///
    /// The new pool, averages and count are exactly those of
    /// [`resolve_pool`]; entries that cannot target the group are untouched.
    /// Spent entries are left in place; see
    /// [`ReducedAttacks::clear_used_attacks`].
    pub fn resolve_attacks(&mut self, attacks: &mut ReducedAttacks)
        requires
            old(self).valid(),
            old(attacks).wf(),
        ensures
            final(self).valid(),
            final(self).number <= old(self).number,
            final(self).ship().template == old(self).ship().template,
            final(self).ship().fuel_units == old(self).ship().fuel_units,
            (old(self).ship().hull_points >= 1 && final(self).number != 0) ==> final(self).ship().hull_points >= 1,
            (old(self).ship().hull_points >= 1 && final(self).number != 0) ==> forall|j: int|
                0 <= j < old(attacks)@.len() && old(attacks)@[j].smallest_target <= old(self).ship().templ().ship_size_class ==> (#[trigger] final(attacks)@[j]).attack.parallel_attacks == 0,
            final(attacks).wf(),
            final(attacks)@.len() == old(attacks)@.len(),
            forall|j: int|
                0 <= j < old(attacks)@.len() ==> (#[trigger] final(attacks)@[j]).smallest_target
                    == old(attacks)@[j].smallest_target
                    && final(attacks)@[j].attack.damage_per_attack
                    == old(attacks)@[j].attack.damage_per_attack && final(attacks)@[j].attack.parallel_attacks <= old(attacks)@[j].attack.parallel_attacks,
            forall|j: int|
                0 <= j < old(attacks)@.len() && old(attacks)@[j].smallest_target > old(self).ship().templ().ship_size_class ==> final(attacks)@[j] == old(attacks)@[j],
            ({
                let out = resolve_pool(
                    old(self).ship().templ().ship_size_class as int,
                    old(attacks)@,
                    0,
                    old(self).ship().hull_points as int,
                    old(self).ship().shield_points as int,
                    old(self).number as int,
                );
                &&& final(attacks)@ == out.pool
                &&& final(self).ship().hull_points == out.hull
                &&& final(self).ship().shield_points == out.shield
                &&& final(self).number == out.number
            }),
    {
        resolve_group_attacks(&mut self.average_ship, &mut self.number, attacks)
    }

    /// The attacks produced by all members of the group at once: the
    /// representative's attack profile with its parallel attacks multiplied
    /// by the live count.  A group with no members, or whose type deals no
    /// damage, produces an empty pool.
    pub fn get_attacks(&self) -> (r: ReducedAttacks)
        requires
            self.number * self.ship().templ().attack_damage <= UINT_MAX,
        ensures
            r.wf(),
            self.number > 0 && self.ship().templ().attack_damage > 0 ==> r@ == seq![
                TargetedAttack {
                    attack: Attack {
                        parallel_attacks: self.number,
                        damage_per_attack: self.ship().templ().attack_damage,
                    },
                    smallest_target: self.ship().templ().smallest_target,
                },
            ],
            !(self.number > 0 && self.ship().templ().attack_damage > 0) ==> r@ == Seq::<
                TargetedAttack,
            >::empty(),
    {
        let mut entries: Vec<TargetedAttack> = Vec::new();
        let damage = self.average_ship.template.attack_damage;
        if self.number > 0 && damage > 0 {
            entries.push(
                TargetedAttack::new(
                    Attack::new(self.number, damage),
                    self.average_ship.template.smallest_target,
                ),
            );
            proof {
                assert(entries@ =~= seq![
                    TargetedAttack {
                        attack: Attack {
                            parallel_attacks: self.number,
                            damage_per_attack: self.ship().templ().attack_damage,
                        },
                        smallest_target: self.ship().templ().smallest_target,
                    },
                ]);
            }
        }
        ReducedAttacks::from_parts(entries)
    }
}

/// The damage-distribution core shared by every aggregate-group type: spreads
/// `damage` over `*number` identical units whose common state is `*ship`,
/// following [`group_loop`].
pub(crate) fn resolve_group_damage(ship: &mut Ship, number: &mut UInt, damage: DamagePoint) -> (r:
    DamagePoint)
    requires
        old(ship).valid(),
    ensures
        ({
            let o = group_outcome(
                old(ship).hull_points as int,
                old(ship).shield_points as int,
                *old(number) as int,
                damage as int,
            );
            let total_hull = o.rem_hull + old(ship).hull_points * o.unattacked;
            let total_shield = o.rem_shield + old(ship).shield_points * o.unattacked;
            &&& *final(number) == o.number
            &&& r == o.damage
            &&& r <= damage
            &&& *final(number) <= *old(number)
            &&& final(ship).template == old(ship).template
            &&& final(ship).fuel_units == old(ship).fuel_units
            &&& final(ship).valid()
            &&& final(ship).hull_points <= old(ship).hull_points
            &&& final(ship).shield_points <= old(ship).shield_points
            &&& o.number > 0 ==> final(ship).hull_points == total_hull / o.number && final(ship).shield_points == total_shield / o.number
            &&& o.number == 0 ==> final(ship).hull_points == old(ship).hull_points && final(ship).shield_points == old(ship).shield_points
            &&& (old(ship).hull_points >= 1 && damage < old(ship).hull_points + old(ship).shield_points) ==> *final(number) == *old(number)
            &&& old(ship).hull_points >= 1 ==> total_hull + total_shield == *old(number) * (old(ship).hull_points + old(ship).shield_points) - damage + r
            &&& (old(ship).hull_points >= 1 && o.number > 0) ==> final(ship).hull_points * o.number
                <= total_hull && total_hull - o.number < final(ship).hull_points * o.number
            &&& (old(ship).hull_points >= 1 && o.number > 0) ==> final(ship).shield_points
                * o.number <= total_shield && total_shield - o.number < final(ship).shield_points
                * o.number
            &&& (old(ship).hull_points >= 1 && o.number > 0) ==> total_hull + total_shield - 2
                * o.number < (final(ship).hull_points + final(ship).shield_points) * o.number
                <= total_hull + total_shield
            &&& (old(ship).hull_points >= 1 && r != 0) ==> *final(number) == 0
            &&& (old(ship).hull_points >= 1 && *final(number) != 0) ==> final(ship).hull_points
                >= 1
        }),
{
    let ghost h0 = old(ship).hull_points as int;
    let ghost s0 = old(ship).shield_points as int;
    let ghost n0 = *old(number) as int;
    let ghost d0 = damage as int;

    let mut damage = damage;
    let mut rem_hull: u64 = 0;
    let mut rem_shield: u64 = 0;
    let mut to_iterate: UInt = if *number < damage {
        *number
    } else {
        damage
    };
    let mut unattacked: UInt = *number;

    proof {
        assert(min(n0, d0) == to_iterate as int);
    }

    while to_iterate > 0 && damage != 0
        invariant
            *ship == *old(ship),
            old(ship).valid(),
            h0 == old(ship).hull_points as int,
            s0 == old(ship).shield_points as int,
            n0 == *old(number) as int,
            d0 >= damage as int,
            to_iterate <= unattacked,
            unattacked <= *number,
            *number <= n0,
            to_iterate as int <= damage as int || damage == 0,
            rem_hull as int <= (*number - unattacked) * h0,
            rem_shield as int <= (*number - unattacked) * s0,
            group_outcome(h0, s0, n0, d0) == group_loop(
                h0,
                s0,
                *number as int,
                damage as int,
                to_iterate as int,
                unattacked as int,
                rem_hull as int,
                rem_shield as int,
            ),
            h0 >= 1 ==> rem_hull + rem_shield + unattacked * (h0 + s0) - damage == n0 * (h0 + s0)
                - d0,
            (h0 >= 1 && d0 < h0 + s0) ==> *number as int == n0,
        decreases to_iterate,
    {
        let ghost number_g = *number as int;
        let ghost damage_g = damage as int;
        let ghost ti_g = to_iterate as int;
        let ghost ua_g = unattacked as int;
        let ghost rh_g = rem_hull as int;
        let ghost rs_g = rem_shield as int;

        let portion = damage / to_iterate;
        damage = damage - portion;

        let simulation = ship.simulate_damage(portion);

        proof {
            assert(portion as int == damage_g / ti_g);
            assert(simulation.0 as int == sim_hull(h0, s0, portion as int));
            assert(simulation.1 as int == sim_shield(h0, s0, portion as int));
            assert(simulation.2 as int == sim_leftover(h0, s0, portion as int));
        }

        if simulation.0 == 0 {
            *number = *number - 1;
            damage = damage + simulation.2;
            proof {
                if h0 >= 1 {
                    assert(sim_leftover(h0, s0, portion as int) == portion - s0 - h0);
                    assert((ua_g - 1) * (h0 + s0) == ua_g * (h0 + s0) - (h0 + s0))
                        by (nonlinear_arith);
                }
                assert((number_g - 1 - (ua_g - 1)) * h0 == (number_g - ua_g) * h0)
                    by (nonlinear_arith);
                assert((number_g - 1 - (ua_g - 1)) * s0 == (number_g - ua_g) * s0)
                    by (nonlinear_arith);
            }
        } else {
            proof {
                lemma_mul_bound_u32(number_g - ua_g, h0);
                lemma_mul_bound_u32(number_g - ua_g, s0);
                assert((number_g - (ua_g - 1)) * h0 == (number_g - ua_g) * h0 + h0)
                    by (nonlinear_arith);
                assert((number_g - (ua_g - 1)) * s0 == (number_g - ua_g) * s0 + s0)
                    by (nonlinear_arith);
                if h0 >= 1 {
                    assert((ua_g - 1) * (h0 + s0) == ua_g * (h0 + s0) - (h0 + s0))
                        by (nonlinear_arith);
                }
            }
            rem_hull = rem_hull + simulation.0 as u64;
            rem_shield = rem_shield + simulation.1 as u64;
        }

        unattacked = unattacked - 1;
        to_iterate = if to_iterate - 1 < damage {
            to_iterate - 1
        } else {
            damage
        };

        proof {
            assert(to_iterate as int == min(ti_g - 1, damage as int));
            assert(group_loop(h0, s0, number_g, damage_g, ti_g, ua_g, rh_g, rs_g) == group_loop(
                h0,
                s0,
                *number as int,
                damage as int,
                to_iterate as int,
                unattacked as int,
                rem_hull as int,
                rem_shield as int,
            ));
        }
    }

    proof {
        assert(group_outcome(h0, s0, n0, d0) == (GroupOutcome {
            rem_hull: rem_hull as int,
            rem_shield: rem_shield as int,
            number: *number as int,
            damage: damage as int,
            unattacked: unattacked as int,
        }));
    }

    let ghost n_end = *number as int;
    let ghost ua_end = unattacked as int;
    proof {
        if h0 >= 1 {
            assert(h0 * ua_end + s0 * ua_end == ua_end * (h0 + s0)) by (nonlinear_arith);
        }
        if *number == 0 {
            assert(ua_end == 0);
            assert(h0 * ua_end == 0) by (nonlinear_arith)
                requires ua_end == 0;
            assert(s0 * ua_end == 0) by (nonlinear_arith)
                requires ua_end == 0;
        }
    }
    if *number != 0 {
        proof {
            lemma_mul_bound_u32(n_end - ua_end, h0);
            lemma_mul_bound_u32(n_end - ua_end, s0);
            lemma_mul_bound_u32(h0, ua_end);
            lemma_mul_bound_u32(s0, ua_end);
            lemma_mul_bound_u32(h0, n_end);
            lemma_mul_bound_u32(s0, n_end);
            assert((n_end - ua_end) * h0 + h0 * ua_end == h0 * n_end) by (nonlinear_arith);
            assert((n_end - ua_end) * s0 + s0 * ua_end == s0 * n_end) by (nonlinear_arith);
        }
        let total_hull: u64 = rem_hull + (ship.get_hull_points() as u64) * (unattacked as u64);
        let total_shield: u64 = rem_shield + (ship.get_shield_points() as u64) * (
        unattacked as u64);
        let new_hull: u64 = total_hull / (*number as u64);
        let new_shield: u64 = total_shield / (*number as u64);
        proof {
            lemma_div_is_ordered(total_hull as int, h0 * n_end, n_end);
            lemma_div_multiples_vanish(h0, n_end);
            assert(h0 * n_end == n_end * h0) by (nonlinear_arith);
            lemma_div_is_ordered(total_shield as int, s0 * n_end, n_end);
            lemma_div_multiples_vanish(s0, n_end);
            assert(s0 * n_end == n_end * s0) by (nonlinear_arith);
            lemma_fundamental_div_mod(total_hull as int, n_end);
            lemma_mod_division_less_than_divisor(total_hull as int, n_end);
            assert(n_end * (total_hull as int / n_end) == (total_hull as int / n_end) * n_end)
                by (nonlinear_arith);
            lemma_fundamental_div_mod(total_shield as int, n_end);
            lemma_mod_division_less_than_divisor(total_shield as int, n_end);
            assert(n_end * (total_shield as int / n_end) == (total_shield as int / n_end) * n_end)
                by (nonlinear_arith);
            assert((total_hull as int / n_end + total_shield as int / n_end) * n_end == (
            total_hull as int / n_end) * n_end + (total_shield as int / n_end) * n_end)
                by (nonlinear_arith);
        }
        ship.hull_points = new_hull as UInt;
        ship.shield_points = new_shield as UInt;
    }
    proof {
        if h0 >= 1 {
            lemma_group_leftover_means_wiped(h0, s0, n0, d0);
            if *number != 0 {
                lemma_group_loop_survivor_hull(h0, s0, n0, d0, min(n0, d0), n0, 0, 0);
                let o = group_outcome(h0, s0, n0, d0);
                assert(o.rem_hull >= o.number - o.unattacked);
                assert(h0 * o.unattacked >= o.unattacked) by (nonlinear_arith)
                    requires
                        h0 >= 1,
                        o.unattacked >= 0,
                ;
                assert(o.rem_hull + h0 * o.unattacked >= o.number);
                lemma_div_is_ordered(*number as int, o.rem_hull + h0 * o.unattacked, *number as int);
                lemma_div_by_self(*number as int);
            }
        }
    }
    damage
}

pub(crate) fn resolve_group_attacks(ship: &mut Ship, number: &mut UInt, attacks: &mut ReducedAttacks)
        requires
            old(ship).valid(),
            old(attacks).wf(),
        ensures
            final(ship).valid(),
            *final(number) <= *old(number),
            final(ship).template == old(ship).template,
            final(ship).fuel_units == old(ship).fuel_units,
            (old(ship).hull_points >= 1 && *final(number) != 0) ==> final(ship).hull_points >= 1,
            (old(ship).hull_points >= 1 && *final(number) != 0) ==> forall|j: int|
                0 <= j < old(attacks)@.len() && old(attacks)@[j].smallest_target <= old(ship).templ().ship_size_class ==> (#[trigger] final(attacks)@[j]).attack.parallel_attacks == 0,
            final(attacks).wf(),
            final(attacks)@.len() == old(attacks)@.len(),
            forall|j: int|
                0 <= j < old(attacks)@.len() ==> (#[trigger] final(attacks)@[j]).smallest_target
                    == old(attacks)@[j].smallest_target
                    && final(attacks)@[j].attack.damage_per_attack
                    == old(attacks)@[j].attack.damage_per_attack && final(attacks)@[j].attack.parallel_attacks <= old(attacks)@[j].attack.parallel_attacks,
            forall|j: int|
                0 <= j < old(attacks)@.len() && old(attacks)@[j].smallest_target > old(ship).templ().ship_size_class ==> final(attacks)@[j] == old(attacks)@[j],
            ({
                let out = resolve_pool(
                    old(ship).templ().ship_size_class as int,
                    old(attacks)@,
                    0,
                    old(ship).hull_points as int,
                    old(ship).shield_points as int,
                    *old(number) as int,
                );
                &&& final(attacks)@ == out.pool
                &&& final(ship).hull_points == out.hull
                &&& final(ship).shield_points == out.shield
                &&& *final(number) == out.number
            }),
    {
        let ghost a0 = attacks@;
        let ghost sc = old(ship).templ().ship_size_class as int;
        let ghost h_init = old(ship).hull_points as int;
        let ghost s_init = old(ship).shield_points as int;
        let ghost n_init = *old(number) as int;
        let size_class = ship.template.ship_size_class;
        let n = attacks.attacks.len();
        let mut i: usize = 0;
        while i < n
            invariant
                n == a0.len(),
                i <= n,
                a0 == old(attacks)@,
                size_class == old(ship).templ().ship_size_class,
                sc == size_class as int,
                h_init == old(ship).hull_points as int,
                s_init == old(ship).shield_points as int,
                n_init == *old(number) as int,
                ship.valid(),
                *number <= *old(number),
                ship.template == old(ship).template,
                ship.fuel_units == old(ship).fuel_units,
                attacks.wf(),
                attacks@.len() == n,
                forall|j: int|
                    0 <= j < n ==> (#[trigger] attacks@[j]).smallest_target
                        == a0[j].smallest_target && attacks@[j].attack.damage_per_attack
                        == a0[j].attack.damage_per_attack && attacks@[j].attack.parallel_attacks
                        <= a0[j].attack.parallel_attacks,
                forall|j: int| i <= j < n ==> #[trigger] attacks@[j] == a0[j],
                forall|j: int|
                    0 <= j < n && a0[j].smallest_target > size_class ==> #[trigger] attacks@[j]
                        == a0[j],
                (h_init >= 1 && *number != 0) ==> ship.hull_points >= 1,
                (h_init >= 1 && *number != 0) ==> forall|j: int|
                    0 <= j < i && a0[j].smallest_target <= size_class ==> (#[trigger] attacks@[j]).attack.parallel_attacks
                        == 0,
                resolve_pool(sc, a0, 0, h_init, s_init, n_init) == resolve_pool(
                    sc,
                    attacks@,
                    i as int,
                    ship.hull_points as int,
                    ship.shield_points as int,
                    *number as int,
                ),
            decreases n - i,
        {
            let ghost before = attacks@;
            let ghost h_cur = ship.hull_points as int;
            let ghost s_cur = ship.shield_points as int;
            let ghost n_cur = *number as int;
            let entry = attacks.attacks[i];
            if *number != 0 && entry.smallest_target <= size_class {
                let total = entry.attack.sum_damage();
                let leftover = resolve_group_damage(ship, number, total);
                let dpa = entry.attack.damage_per_attack;
                attacks.attacks[i].attack.parallel_attacks = leftover / dpa;
                proof {
                    let s1 = attacks@;
                    assert(s1 == before.update(i as int, s1[i as int]));
                    lemma_div_is_ordered(leftover as int, total as int, dpa as int);
                    lemma_div_multiples_vanish(entry.attack.parallel_attacks as int, dpa as int);
                    assert(entry.attack.parallel_attacks * dpa == dpa
                        * entry.attack.parallel_attacks) by (nonlinear_arith);
                    if leftover == 0 {
                        lemma_div_of0(dpa as int);
                    }
                    assert(s1[i as int].attack.parallel_attacks <= entry.attack.parallel_attacks);
                    assert(s1[i as int].attack.parallel_attacks
                        * s1[i as int].attack.damage_per_attack <= entry.attack.parallel_attacks
                        * dpa)
                        by (nonlinear_arith)
                        requires
                            s1[i as int].attack.parallel_attacks <= entry.attack.parallel_attacks,
                            s1[i as int].attack.damage_per_attack == dpa,
                            dpa >= 0,
                            s1[i as int].attack.parallel_attacks >= 0,
                    ;
                    assert forall|x: int, y: int| 0 <= x < y < n implies key_lt(
                        #[trigger] attacks@[x],
                        #[trigger] attacks@[y],
                    ) by {
                        assert(key_lt(before[x], before[y]));
                    }
                    // A group that keeps members keeps a live representative
                    // and has fully spent this entry.
                    if h_init >= 1 && *number != 0 {
                        assert(leftover == 0);
                        assert(s1[i as int].attack.parallel_attacks == 0);
                    }
                    // One unfolding of the spec recursion matches this step.
                    let a = group_apply(h_cur, s_cur, n_cur, total as int);
                    assert(a.leftover == leftover as int);
                    assert(a.hull == ship.hull_points as int);
                    assert(a.shield == ship.shield_points as int);
                    assert(a.number == *number as int);
                    assert(s1[i as int] == (TargetedAttack {
                        attack: Attack {
                            parallel_attacks: (a.leftover / dpa as int) as UInt,
                            damage_per_attack: dpa,
                        },
                        smallest_target: entry.smallest_target,
                    }));
                    assert(resolve_pool(sc, before, i as int, h_cur, s_cur, n_cur) == resolve_pool(
                        sc,
                        s1,
                        i + 1 as int,
                        ship.hull_points as int,
                        ship.shield_points as int,
                        *number as int,
                    ));
                }
            } else {
                proof {
                    assert(resolve_pool(sc, before, i as int, h_cur, s_cur, n_cur) == resolve_pool(
                        sc,
                        before,
                        i + 1 as int,
                        h_cur,
                        s_cur,
                        n_cur,
                    ));
                }
            }
            i = i + 1;
        }
    }

/// The product of two values bounded by `u32::MAX` fits in a `u64`.
pub(crate) proof fn lemma_mul_bound_u32(a: int, b: int)
    requires
        0 <= a <= UINT_MAX,
        0 <= b <= UINT_MAX,
    ensures
        0 <= a * b <= u64::MAX,
        a * b <= UINT_MAX * UINT_MAX,
        b >= 1 ==> a <= a * b,
{
    assert(0 <= a * b && a * b <= UINT_MAX * UINT_MAX && (b >= 1 ==> a <= a * b))
        by (nonlinear_arith)
        requires
            0 <= a <= UINT_MAX,
            0 <= b <= UINT_MAX,
    ;
}


/// Fleet ordering at the group level: damage that meets or exceeds a
/// group's total effective health (hull plus shield summed over its count)
/// destroys the whole group, and exactly the excess is left over for
/// whoever stands behind it.
pub proof fn lemma_group_overkill(h0: int, s0: int, number: int, damage: int)
    requires
        1 <= h0,
        0 <= s0,
        0 <= number,
        number * (h0 + s0) <= damage,
    ensures
        group_outcome(h0, s0, number, damage).number == 0,
        group_outcome(h0, s0, number, damage).damage == damage - number * (h0 + s0),
        group_outcome(h0, s0, number, damage).unattacked == 0,
    decreases number,
{
    assert(number <= number * (h0 + s0)) by (nonlinear_arith)
        requires
            0 <= number,
            1 <= h0 + s0,
    ;
    assert(min(number, damage) == number);
    lemma_group_loop_overkill(h0, s0, number, damage, number, number, 0, 0);
}

/// Helper of [`lemma_group_overkill`]: while every remaining unit is still
/// to be processed and the damage covers them all, each one dies and gives
/// its full health back to the pool.
proof fn lemma_group_loop_overkill(
    h0: int,
    s0: int,
    number: int,
    damage: int,
    to_iterate: int,
    unattacked: int,
    rem_hull: int,
    rem_shield: int,
)
    requires
        1 <= h0,
        0 <= s0,
        0 <= to_iterate,
        to_iterate * (h0 + s0) <= damage,
    ensures
        group_loop(h0, s0, number, damage, to_iterate, unattacked, rem_hull, rem_shield)
            == (GroupOutcome {
            rem_hull,
            rem_shield,
            number: number - to_iterate,
            damage: damage - to_iterate * (h0 + s0),
            unattacked: unattacked - to_iterate,
        }),
    decreases to_iterate,
{
    if to_iterate <= 0 {
        assert(to_iterate * (h0 + s0) == 0) by (nonlinear_arith)
            requires
                to_iterate == 0,
        ;
    } else {
        assert(to_iterate <= to_iterate * (h0 + s0)) by (nonlinear_arith)
            requires
                1 <= to_iterate,
                1 <= h0 + s0,
        ;
        assert(damage > 0);
        let portion = damage / to_iterate;
        lemma_div_is_ordered(to_iterate * (h0 + s0), damage, to_iterate);
        lemma_div_multiples_vanish(h0 + s0, to_iterate);
        assert(to_iterate * (h0 + s0) == (h0 + s0) * to_iterate) by (nonlinear_arith);
        assert((to_iterate * (h0 + s0)) / to_iterate == h0 + s0);
        assert(h0 + s0 <= portion);
        assert(sim_hull(h0, s0, portion) == 0);
        assert(sim_leftover(h0, s0, portion) == portion - s0 - h0);
        let d2 = damage - portion + (portion - s0 - h0);
        assert(d2 == damage - (h0 + s0));
        assert((to_iterate - 1) * (h0 + s0) == to_iterate * (h0 + s0) - (h0 + s0))
            by (nonlinear_arith);
        assert((to_iterate - 1) * (h0 + s0) <= d2);
        assert(to_iterate - 1 <= (to_iterate - 1) * (h0 + s0)) by (nonlinear_arith)
            requires
                0 <= to_iterate - 1,
                1 <= h0 + s0,
        ;
        assert(min(to_iterate - 1, d2) == to_iterate - 1);
        lemma_group_loop_overkill(
            h0,
            s0,
            number - 1,
            d2,
            to_iterate - 1,
            unattacked - 1,
            rem_hull,
            rem_shield,
        );
    }
}


/// Fleet ordering at the pool level: an attack entry carrying at least the
/// front group's total effective health destroys that whole group, and the
/// entry is rewritten so that what the groups behind it see is the excess,
/// re-expressed as attacks, short of the exact excess by less than one
/// attack's damage.
pub proof fn lemma_pool_overkill(e: TargetedAttack, sc: int, h: int, s: int, n: int)
    requires
        e.smallest_target <= sc,
        e.attack.damage_per_attack >= 1,
        1 <= h,
        0 <= s,
        1 <= n,
        n * (h + s) <= e.attack.parallel_attacks * e.attack.damage_per_attack,
        e.attack.parallel_attacks * e.attack.damage_per_attack <= UINT_MAX,
    ensures
        ({
            let total = e.attack.parallel_attacks * e.attack.damage_per_attack;
            let excess = total - n * (h + s);
            let out = resolve_pool(sc, seq![e], 0, h, s, n);
            let passed_on = out.pool[0].attack.parallel_attacks * e.attack.damage_per_attack;
            &&& out.number == 0
            &&& out.pool.len() == 1
            &&& out.pool[0].attack.damage_per_attack == e.attack.damage_per_attack
            &&& out.pool[0].smallest_target == e.smallest_target
            &&& out.pool[0].attack.parallel_attacks == excess / (e.attack.damage_per_attack as int)
            &&& excess - e.attack.damage_per_attack < passed_on <= excess
        }),
{
    let total = e.attack.parallel_attacks * e.attack.damage_per_attack;
    let excess = total - n * (h + s);
    let d = e.attack.damage_per_attack as int;
    lemma_group_overkill(h, s, n, total);
    let a = group_apply(h, s, n, total);
    assert(a.number == 0 && a.leftover == excess);
    let q = excess / d;
    lemma_fundamental_div_mod(excess, d);
    lemma_mod_division_less_than_divisor(excess, d);
    lemma_div_pos_is_pos(excess, d);
    lemma_div_is_ordered(excess, total, d);
    assert(total / d == e.attack.parallel_attacks) by {
        lemma_div_multiples_vanish(e.attack.parallel_attacks as int, d);
        assert(e.attack.parallel_attacks * d == d * e.attack.parallel_attacks)
            by (nonlinear_arith);
    }
    assert(0 <= q <= e.attack.parallel_attacks);
    let e2 = TargetedAttack {
        attack: Attack {
            parallel_attacks: q as UInt,
            damage_per_attack: e.attack.damage_per_attack,
        },
        smallest_target: e.smallest_target,
    };
    let p1 = seq![e].update(0, e2);
    assert(resolve_pool(sc, seq![e], 0, h, s, n) == resolve_pool(sc, p1, 1, a.hull, a.shield, 0));
    assert(resolve_pool(sc, p1, 1, a.hull, a.shield, 0).pool == p1);
    assert(p1.len() == 1 && p1[0] == e2);
    assert(q * d == d * q) by (nonlinear_arith);
    assert(excess - d < q * d <= excess);
}


/// Damage energy is conserved through the distribution loop of a live
/// representative: the survivors' totals, the unprocessed members' health
/// and the damage pool keep their joint balance.
pub proof fn lemma_group_loop_conservation(
    h0: int,
    s0: int,
    number: int,
    damage: int,
    to_iterate: int,
    unattacked: int,
    rem_hull: int,
    rem_shield: int,
)
    requires
        1 <= h0,
        0 <= s0,
        0 <= damage,
        0 <= to_iterate,
    ensures
        ({
            let o = group_loop(h0, s0, number, damage, to_iterate, unattacked, rem_hull, rem_shield);
            o.rem_hull + o.rem_shield + o.unattacked * (h0 + s0) - o.damage == rem_hull
                + rem_shield + unattacked * (h0 + s0) - damage
        }),
    decreases to_iterate,
{
    if to_iterate > 0 && damage > 0 {
        let portion = damage / to_iterate;
        lemma_div_pos_is_pos(damage, to_iterate);
        lemma_div_is_ordered_by_denominator(damage, 1, to_iterate);
        assert(portion <= damage);
        let d1 = damage - portion;
        assert((unattacked - 1) * (h0 + s0) == unattacked * (h0 + s0) - (h0 + s0))
            by (nonlinear_arith);
        if sim_hull(h0, s0, portion) == 0 {
            assert(portion >= s0 + h0);
            let d2 = d1 + sim_leftover(h0, s0, portion);
            lemma_min_nonneg(to_iterate - 1, d2);
            lemma_group_loop_conservation(
                h0,
                s0,
                number - 1,
                d2,
                min(to_iterate - 1, d2),
                unattacked - 1,
                rem_hull,
                rem_shield,
            );
        } else {
            lemma_min_nonneg(to_iterate - 1, d1);
            lemma_group_loop_conservation(
                h0,
                s0,
                number,
                d1,
                min(to_iterate - 1, d1),
                unattacked - 1,
                rem_hull + sim_hull(h0, s0, portion),
                rem_shield + sim_shield(h0, s0, portion),
            );
        }
    }
}

/// The smaller of two nonnegative values is nonnegative and no larger than
/// either.
proof fn lemma_min_nonneg(a: int, b: int)
    requires
        0 <= a,
        0 <= b,
    ensures
        0 <= min(a, b),
        min(a, b) <= a,
        min(a, b) <= b,
{
}

/// Damage below one member's health is fully absorbed: nobody dies and
/// nothing is left over.
pub proof fn lemma_group_loop_absorbed(
    h0: int,
    s0: int,
    number: int,
    damage: int,
    to_iterate: int,
    unattacked: int,
    rem_hull: int,
    rem_shield: int,
)
    requires
        1 <= h0,
        0 <= s0,
        0 < damage < h0 + s0,
        0 < to_iterate,
    ensures
        ({
            let o = group_loop(h0, s0, number, damage, to_iterate, unattacked, rem_hull, rem_shield);
            o.number == number && o.damage == 0
        }),
    decreases to_iterate,
{
    let portion = damage / to_iterate;
    lemma_div_pos_is_pos(damage, to_iterate);
    lemma_div_is_ordered_by_denominator(damage, 1, to_iterate);
    assert(portion <= damage);
    assert(sim_hull(h0, s0, portion) != 0);
    let d1 = damage - portion;
    if to_iterate == 1 {
        assert(portion == damage) by {
            lemma_div_multiples_vanish(damage, 1);
            assert(1 * damage == damage);
        }
        assert(d1 == 0);
        assert(min(0, 0) == 0);
        assert(group_loop(
            h0,
            s0,
            number,
            0,
            0,
            unattacked - 1,
            rem_hull + sim_hull(h0, s0, portion),
            rem_shield + sim_shield(h0, s0, portion),
        ).damage == 0);
    } else if d1 == 0 {
        assert(min(to_iterate - 1, 0) == 0);
        assert(group_loop(
            h0,
            s0,
            number,
            0,
            0,
            unattacked - 1,
            rem_hull + sim_hull(h0, s0, portion),
            rem_shield + sim_shield(h0, s0, portion),
        ).damage == 0);
    } else {
        assert(min(to_iterate - 1, d1) > 0);
        lemma_group_loop_absorbed(
            h0,
            s0,
            number,
            d1,
            min(to_iterate - 1, d1),
            unattacked - 1,
            rem_hull + sim_hull(h0, s0, portion),
            rem_shield + sim_shield(h0, s0, portion),
        );
    }
}


/// Damage bounded by the health of the units still to be processed is
/// always fully absorbed: the loop cannot end with damage left over.
proof fn lemma_group_loop_capped(
    h0: int,
    s0: int,
    number: int,
    damage: int,
    to_iterate: int,
    unattacked: int,
    rem_hull: int,
    rem_shield: int,
)
    requires
        1 <= h0,
        0 <= s0,
        0 <= damage,
        0 <= to_iterate,
        damage <= to_iterate * (h0 + s0),
    ensures
        group_loop(h0, s0, number, damage, to_iterate, unattacked, rem_hull, rem_shield).damage
            == 0,
    decreases to_iterate,
{
    let h = h0 + s0;
    if to_iterate <= 0 {
        assert(to_iterate * h == 0) by (nonlinear_arith)
            requires
                to_iterate == 0,
        ;
    } else if damage > 0 {
        let portion = damage / to_iterate;
        lemma_fundamental_div_mod(damage, to_iterate);
        lemma_mod_division_less_than_divisor(damage, to_iterate);
        lemma_div_pos_is_pos(damage, to_iterate);
        assert(portion <= h) by {
            lemma_div_is_ordered(damage, to_iterate * h, to_iterate);
            lemma_div_multiples_vanish(h, to_iterate);
            assert(to_iterate * h == h * to_iterate) by (nonlinear_arith);
        }
        let rest = damage - to_iterate * portion;
        if portion < h {
            // The unit survives; what remains is covered by one unit fewer.
            assert(sim_hull(h0, s0, portion) != 0);
            let d1 = damage - portion;
            assert(d1 <= (to_iterate - 1) * h) by (nonlinear_arith)
                requires
                    damage == to_iterate * portion + rest,
                    0 <= rest < to_iterate,
                    portion <= h - 1,
                    1 <= h,
                    1 <= to_iterate,
                    d1 == damage - portion,
            ;
            lemma_min_nonneg(to_iterate - 1, d1);
            assert(min(to_iterate - 1, d1) * h <= (to_iterate - 1) * h || min(to_iterate - 1, d1)
                == d1) by (nonlinear_arith)
                requires
                    min(to_iterate - 1, d1) == to_iterate - 1 || min(to_iterate - 1, d1) == d1,
            ;
            assert(d1 <= d1 * h) by (nonlinear_arith)
                requires
                    0 <= d1,
                    1 <= h,
            ;
            lemma_group_loop_capped(
                h0,
                s0,
                number,
                d1,
                min(to_iterate - 1, d1),
                unattacked - 1,
                rem_hull + sim_hull(h0, s0, portion),
                rem_shield + sim_shield(h0, s0, portion),
            );
        } else {
            // The unit dies exactly: the portion cannot exceed its health.
            assert(portion == h);
            assert(sim_hull(h0, s0, portion) == 0);
            assert(sim_leftover(h0, s0, portion) == 0);
            let d2 = damage - h;
            assert(d2 <= (to_iterate - 1) * h) by (nonlinear_arith)
                requires
                    damage <= to_iterate * h,
                    d2 == damage - h,
            ;
            lemma_min_nonneg(to_iterate - 1, d2);
            assert(d2 <= d2 * h) by (nonlinear_arith)
                requires
                    0 <= d2,
                    1 <= h,
            ;
            lemma_group_loop_capped(
                h0,
                s0,
                number - 1,
                d2,
                min(to_iterate - 1, d2),
                unattacked - 1,
                rem_hull,
                rem_shield,
            );
        }
    }
}

/// While every remaining member is still to be processed, either the
/// damage runs out, or the whole group does: the first survivor caps the
/// damage by the remaining members' health, and without survivors the
/// deaths run the count to zero.
proof fn lemma_group_loop_all_doomed(
    h0: int,
    s0: int,
    number: int,
    damage: int,
    to_iterate: int,
    unattacked: int,
    rem_hull: int,
    rem_shield: int,
)
    requires
        1 <= h0,
        0 <= s0,
        0 <= damage,
        0 <= to_iterate,
        to_iterate == number,
    ensures
        ({
            let o = group_loop(h0, s0, number, damage, to_iterate, unattacked, rem_hull, rem_shield);
            o.damage == 0 || o.number == 0
        }),
    decreases to_iterate,
{
    let h = h0 + s0;
    if to_iterate > 0 && damage > 0 {
        let portion = damage / to_iterate;
        lemma_fundamental_div_mod(damage, to_iterate);
        lemma_mod_division_less_than_divisor(damage, to_iterate);
        lemma_div_pos_is_pos(damage, to_iterate);
        if portion < h {
            // A survivor: the rest of the loop cannot leave damage over.
            assert(sim_hull(h0, s0, portion) != 0);
            let d1 = damage - portion;
            let rest = damage - to_iterate * portion;
            assert(d1 <= (to_iterate - 1) * h) by (nonlinear_arith)
                requires
                    damage == to_iterate * portion + rest,
                    0 <= rest < to_iterate,
                    portion <= h - 1,
                    1 <= h,
                    1 <= to_iterate,
                    d1 == damage - portion,
            ;
            lemma_min_nonneg(to_iterate - 1, d1);
            assert(d1 <= d1 * h) by (nonlinear_arith)
                requires
                    0 <= d1,
                    1 <= h,
            ;
            lemma_group_loop_capped(
                h0,
                s0,
                number,
                d1,
                min(to_iterate - 1, d1),
                unattacked - 1,
                rem_hull + sim_hull(h0, s0, portion),
                rem_shield + sim_shield(h0, s0, portion),
            );
        } else {
            // The member dies; either the countdown stays in step with the
            // members, or the damage has dropped under the countdown and is
            // then fully absorbed.
            assert(sim_hull(h0, s0, portion) == 0);
            let d2 = damage - portion + sim_leftover(h0, s0, portion);
            assert(d2 == damage - h);
            lemma_min_nonneg(to_iterate - 1, d2);
            if d2 < to_iterate - 1 {
                assert(min(to_iterate - 1, d2) == d2);
                assert(d2 <= d2 * h) by (nonlinear_arith)
                    requires
                        0 <= d2,
                        1 <= h,
                ;
                lemma_group_loop_capped(
                    h0,
                    s0,
                    number - 1,
                    d2,
                    d2,
                    unattacked - 1,
                    rem_hull,
                    rem_shield,
                );
            } else {
                assert(min(to_iterate - 1, d2) == to_iterate - 1);
                lemma_group_loop_all_doomed(
                    h0,
                    s0,
                    number - 1,
                    d2,
                    to_iterate - 1,
                    unattacked - 1,
                    rem_hull,
                    rem_shield,
                );
            }
        }
    }
}

/// Leftover damage certifies a wipe-out: for a live representative the
/// round returns damage only when no member is left.
pub proof fn lemma_group_leftover_means_wiped(h0: int, s0: int, number: int, damage: int)
    requires
        1 <= h0,
        0 <= s0,
        0 <= number,
        0 <= damage,
    ensures
        group_outcome(h0, s0, number, damage).damage != 0 ==> group_outcome(
            h0,
            s0,
            number,
            damage,
        ).number == 0,
{
    if damage <= number {
        assert(min(number, damage) == damage);
        assert(damage <= damage * (h0 + s0)) by (nonlinear_arith)
            requires
                0 <= damage,
                1 <= h0 + s0,
        ;
        lemma_group_loop_capped(h0, s0, number, damage, damage, number, 0, 0);
    } else {
        assert(min(number, damage) == number);
        lemma_group_loop_all_doomed(h0, s0, number, damage, number, number, 0, 0);
    }
}

/// Every processed survivor contributes at least one point of hull to the
/// running total, so the totals of a surviving group cover its count.
proof fn lemma_group_loop_survivor_hull(
    h0: int,
    s0: int,
    number: int,
    damage: int,
    to_iterate: int,
    unattacked: int,
    rem_hull: int,
    rem_shield: int,
)
    requires
        1 <= h0,
        0 <= s0,
        0 <= damage,
        0 <= to_iterate,
    ensures
        ({
            let o = group_loop(h0, s0, number, damage, to_iterate, unattacked, rem_hull, rem_shield);
            o.rem_hull - rem_hull >= (o.number - o.unattacked) - (number - unattacked)
        }),
    decreases to_iterate,
{
    if to_iterate > 0 && damage > 0 {
        let portion = damage / to_iterate;
        lemma_div_pos_is_pos(damage, to_iterate);
        lemma_div_is_ordered_by_denominator(damage, 1, to_iterate);
        if sim_hull(h0, s0, portion) == 0 {
            let d2 = damage - portion + sim_leftover(h0, s0, portion);
            lemma_min_nonneg(to_iterate - 1, d2);
            lemma_group_loop_survivor_hull(
                h0,
                s0,
                number - 1,
                d2,
                min(to_iterate - 1, d2),
                unattacked - 1,
                rem_hull,
                rem_shield,
            );
        } else {
            let d1 = damage - portion;
            lemma_min_nonneg(to_iterate - 1, d1);
            lemma_group_loop_survivor_hull(
                h0,
                s0,
                number,
                d1,
                min(to_iterate - 1, d1),
                unattacked - 1,
                rem_hull + sim_hull(h0, s0, portion),
                rem_shield + sim_shield(h0, s0, portion),
            );
        }
    }
}


/// The total damage the pool entries from index `i` on direct at a target
/// of size class `sc`.
pub open spec fn pool_eligible_damage(sc: int, pool: Seq<TargetedAttack>, i: int) -> int
    decreases pool.len() - i,
{
    if i < 0 || i >= pool.len() {
        0
    } else {
        (if pool[i].smallest_target <= sc {
            pool[i].attack.parallel_attacks * pool[i].attack.damage_per_attack
        } else {
            0
        }) + pool_eligible_damage(sc, pool, i + 1)
    }
}

/// Eligible damage is never negative.
pub proof fn lemma_pool_eligible_nonneg(sc: int, pool: Seq<TargetedAttack>, i: int)
    ensures
        0 <= pool_eligible_damage(sc, pool, i),
    decreases pool.len() - i,
{
    if 0 <= i < pool.len() {
        lemma_pool_eligible_nonneg(sc, pool, i + 1);
        assert(pool[i].attack.parallel_attacks * pool[i].attack.damage_per_attack >= 0)
            by (nonlinear_arith);
    }
}

/// Pools that agree from index `i` on direct the same eligible damage.
proof fn lemma_pool_eligible_same(
    sc: int,
    s1: Seq<TargetedAttack>,
    s2: Seq<TargetedAttack>,
    i: int,
)
    requires
        s1.len() == s2.len(),
        forall|j: int| i <= j < s1.len() ==> #[trigger] s1[j] == s2[j],
    ensures
        pool_eligible_damage(sc, s1, i) == pool_eligible_damage(sc, s2, i),
    decreases s1.len() - i,
{
    if 0 <= i < s1.len() {
        lemma_pool_eligible_same(sc, s1, s2, i + 1);
    }
}

/// Coarse ranges of the distribution loop's outcome: the count and the
/// unprocessed members fall by at most the countdown, the running totals
/// never shrink, and the damage never goes negative.
proof fn lemma_group_loop_ranges(
    h0: int,
    s0: int,
    number: int,
    damage: int,
    to_iterate: int,
    unattacked: int,
    rem_hull: int,
    rem_shield: int,
)
    requires
        0 <= h0,
        0 <= s0,
        0 <= damage,
        0 <= to_iterate,
    ensures
        ({
            let o = group_loop(h0, s0, number, damage, to_iterate, unattacked, rem_hull, rem_shield);
            &&& number - to_iterate <= o.number <= number
            &&& unattacked - to_iterate <= o.unattacked <= unattacked
            &&& 0 <= o.damage
            &&& rem_hull <= o.rem_hull
            &&& rem_shield <= o.rem_shield
        }),
    decreases to_iterate,
{
    if to_iterate > 0 && damage > 0 {
        let portion = damage / to_iterate;
        lemma_div_pos_is_pos(damage, to_iterate);
        lemma_div_is_ordered_by_denominator(damage, 1, to_iterate);
        assert(portion <= damage);
        if sim_hull(h0, s0, portion) == 0 {
            let d2 = damage - portion + sim_leftover(h0, s0, portion);
            lemma_min_nonneg(to_iterate - 1, d2);
            lemma_group_loop_ranges(
                h0,
                s0,
                number - 1,
                d2,
                min(to_iterate - 1, d2),
                unattacked - 1,
                rem_hull,
                rem_shield,
            );
        } else {
            let d1 = damage - portion;
            lemma_min_nonneg(to_iterate - 1, d1);
            lemma_group_loop_ranges(
                h0,
                s0,
                number,
                d1,
                min(to_iterate - 1, d1),
                unattacked - 1,
                rem_hull + sim_hull(h0, s0, portion),
                rem_shield + sim_shield(h0, s0, portion),
            );
        }
    }
}

/// Fleet ordering, front half, for any pool: a group whose total effective
/// health is covered by the pool's eligible damage does not survive the
/// pool.  While members remain every entry is fully absorbed, so the
/// group's summed health falls by each entry's full damage; the health
/// cannot fall below the count of live members, so the members run out.
pub proof fn lemma_pool_overwhelms(
    sc: int,
    pool: Seq<TargetedAttack>,
    i: int,
    hull: int,
    shield: int,
    number: int,
)
    requires
        1 <= hull,
        0 <= shield,
        0 <= number,
        number * (hull + shield) <= pool_eligible_damage(sc, pool, i),
    ensures
        resolve_pool(sc, pool, i, hull, shield, number).number == 0,
    decreases pool.len() - i,
{
    if i < 0 || i >= pool.len() {
        assert(number <= number * (hull + shield)) by (nonlinear_arith)
            requires
                0 <= number,
                1 <= hull + shield,
        ;
    } else {
        let e = pool[i];
        let d_e = e.attack.parallel_attacks * e.attack.damage_per_attack;
        assert(e.attack.parallel_attacks * e.attack.damage_per_attack >= 0)
            by (nonlinear_arith);
        if number > 0 && e.smallest_target <= sc {
            let a = group_apply(hull, shield, number, d_e);
            let o = group_outcome(hull, shield, number, d_e);
            lemma_group_leftover_means_wiped(hull, shield, number, d_e);
            lemma_min_nonneg(number, d_e);
            lemma_group_loop_ranges(hull, shield, number, d_e, min(number, d_e), number, 0, 0);
            assert(0 <= o.number && 0 <= o.unattacked && 0 <= o.rem_hull && 0 <= o.rem_shield);
            let e2 = TargetedAttack {
                attack: Attack {
                    parallel_attacks: (a.leftover / (e.attack.damage_per_attack as int)) as UInt,
                    damage_per_attack: e.attack.damage_per_attack,
                },
                smallest_target: e.smallest_target,
            };
            let pool1 = pool.update(i, e2);
            lemma_pool_eligible_same(sc, pool1, pool, i + 1);
            lemma_pool_eligible_nonneg(sc, pool1, i + 1);
            if o.number == 0 {
                assert(a.number == 0);
                assert(0 * (a.hull + a.shield) == 0) by (nonlinear_arith);
                lemma_pool_overwhelms(sc, pool1, i + 1, hull, shield, 0);
            } else {
                // Every member survives something only by absorbing it all.
                assert(o.damage == 0);
                lemma_min_nonneg(number, d_e);
                lemma_group_loop_conservation(
                    hull,
                    shield,
                    number,
                    d_e,
                    min(number, d_e),
                    number,
                    0,
                    0,
                );
                lemma_group_loop_survivor_hull(
                    hull,
                    shield,
                    number,
                    d_e,
                    min(number, d_e),
                    number,
                    0,
                    0,
                );
                let total_hull = o.rem_hull + hull * o.unattacked;
                let total_shield = o.rem_shield + shield * o.unattacked;
                assert(hull * o.unattacked + shield * o.unattacked == o.unattacked * (hull
                    + shield)) by (nonlinear_arith);
                assert(total_hull + total_shield == number * (hull + shield) - d_e);
                assert(hull * o.unattacked >= o.unattacked) by (nonlinear_arith)
                    requires
                        1 <= hull,
                        0 <= o.unattacked,
                ;
                assert(total_hull >= o.number);
                assert(a.hull == total_hull / o.number);
                assert(a.shield == total_shield / o.number);
                assert(a.hull >= 1) by {
                    lemma_div_is_ordered(o.number, total_hull, o.number);
                    lemma_div_by_self(o.number);
                }
                assert(shield * o.unattacked >= 0) by (nonlinear_arith)
                    requires
                        0 <= shield,
                        0 <= o.unattacked,
                ;
                assert(a.shield >= 0) by {
                    lemma_div_pos_is_pos(total_shield, o.number);
                }
                lemma_fundamental_div_mod(total_hull, o.number);
                lemma_mod_division_less_than_divisor(total_hull, o.number);
                lemma_fundamental_div_mod(total_shield, o.number);
                lemma_mod_division_less_than_divisor(total_shield, o.number);
                assert(a.hull * a.number + a.shield * a.number <= total_hull + total_shield)
                    by (nonlinear_arith)
                    requires
                        total_hull == a.number * a.hull + total_hull % a.number,
                        total_shield == a.number * a.shield + total_shield % a.number,
                        total_hull % a.number >= 0,
                        total_shield % a.number >= 0,
                ;
                assert(a.number * (a.hull + a.shield) == a.hull * a.number + a.shield * a.number)
                    by (nonlinear_arith);
                assert(a.number * (a.hull + a.shield) <= pool_eligible_damage(sc, pool1, i + 1));
                lemma_pool_overwhelms(sc, pool1, i + 1, a.hull, a.shield, a.number);
            }
        } else {
            if number == 0 {
                lemma_pool_eligible_nonneg(sc, pool, i + 1);
                assert(0 * (hull + shield) == 0) by (nonlinear_arith);
            }
            lemma_pool_overwhelms(sc, pool, i + 1, hull, shield, number);
        }
    }
}

} // verus!
