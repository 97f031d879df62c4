//! A single ship instance: mutable fuel, hull and shield state bound to a
//! shared, immutable template.

use vstd::prelude::*;
use std::rc::Rc;
use vstd::arithmetic::div_mod::{lemma_div_is_ordered, lemma_div_multiples_vanish, lemma_div_of0};
use crate::attacks::{key_lt, Attack, ReducedAttacks, TargetedAttack};
use crate::reduced_ship::{sim_hull, sim_leftover, sim_shield};
use crate::factions::{AllignedInstance, Faction};
use crate::ship_error::ShipError;
use crate::ship_template::{find_name, ShipTemplate, TemplateBuf};
use crate::{DamagePoint, FuelUnit, HullPoint, ShieldPoint, UInt};

verus! {

/// A `Ship` is one instance of a ship type: its current fuel, hull and shield
/// bound to a shared, read-only [`ShipTemplate`].
///
/// Invariant (see [`Ship::valid`]): every field is bounded by the owning
/// template's capacity.  Constructors and setters re-validate against the
/// current template; death is represented by `hull_points == 0`.
#[derive(Debug, PartialEq, Eq, Clone)]
pub struct Ship {
    /// The template this ship is an instance of.
    pub template: Rc<ShipTemplate>,
    /// The current fuel of this ship.
    pub fuel_units: FuelUnit,
    /// The current hull points (health points) of this ship.
    pub hull_points: HullPoint,
    /// The current shield points of this ship.
    pub shield_points: ShieldPoint,
}

impl Ship {
    /// The template, in specifications.
    pub open spec fn templ(&self) -> ShipTemplate {
        *self.template
    }

    /// The capacity relations every constructed ship satisfies.
    pub open spec fn valid(&self) -> bool {
        &&& self.fuel_units <= self.templ().fuel_capacity
        &&& self.hull_points <= self.templ().max_hull
        &&& self.shield_points <= self.templ().shield_capacity
    }

    /// Builds a `Ship` from raw parts without any checks.
    ///
    /// Used only by code paths that have already established the capacity
    /// relations; the checked entry point is [`Ship::new`].
    pub(crate) fn from_parts(
        template: Rc<ShipTemplate>,
        fuel_units: FuelUnit,
        hull_points: HullPoint,
        shield_points: ShieldPoint,
    ) -> (r: Self)
        ensures
            r == (Ship { template, fuel_units, hull_points, shield_points }),
    {
        Self { template, fuel_units, hull_points, shield_points }
    }

    /// Builds a `Ship`, checking each field against the template's capacity.
    ///
    /// The checks run in order: fuel, then hull, then shield; the first
    /// violated capacity names the error.
    pub fn new(
        template: Rc<ShipTemplate>,
        fuel_units: FuelUnit,
        hull_points: HullPoint,
        shield_points: ShieldPoint,
    ) -> (r: Result<Self, ShipError>)
        ensures
            fuel_units > template.fuel_capacity ==> r == Err::<Self, ShipError>(
                ShipError::FuelError,
            ),
            fuel_units <= template.fuel_capacity && hull_points > template.max_hull ==> r == Err::<
                Self,
                ShipError,
            >(ShipError::HullError),
            fuel_units <= template.fuel_capacity && hull_points <= template.max_hull
                && shield_points > template.shield_capacity ==> r == Err::<Self, ShipError>(
                ShipError::ShieldError,
            ),
            fuel_units <= template.fuel_capacity && hull_points <= template.max_hull
                && shield_points <= template.shield_capacity ==> (r matches Ok(s) && s == (Ship {
                template,
                fuel_units,
                hull_points,
                shield_points,
            }) && s.valid()),
    {
        if fuel_units > template.get_fuel_capacity() {
            Err(ShipError::FuelError)
        } else if hull_points > template.max_hull {
            Err(ShipError::HullError)
        } else if shield_points > template.get_shield_capacity() {
            Err(ShipError::ShieldError)
        } else {
            Ok(Self::from_parts(template, fuel_units, hull_points, shield_points))
        }
    }

    /// Attempts to replace the template of this ship.
    ///
    /// The swap is atomic: either every current field fits the new template's
    /// capacities and the template is replaced, or the ship is left entirely
    /// unchanged and the first violated capacity names the error.
    pub fn set_template(&mut self, val: Rc<ShipTemplate>) -> (r: Result<(), ShipError>)
        ensures
            old(self).fuel_units > val.fuel_capacity ==> r == Err::<(), ShipError>(
                ShipError::FuelError,
            ) && *final(self) == *old(self),
            old(self).fuel_units <= val.fuel_capacity && old(self).hull_points > val.max_hull ==> r
                == Err::<(), ShipError>(ShipError::HullError) && *final(self) == *old(self),
            old(self).fuel_units <= val.fuel_capacity && old(self).hull_points <= val.max_hull
                && old(self).shield_points > val.shield_capacity ==> r == Err::<(), ShipError>(
                ShipError::ShieldError,
            ) && *final(self) == *old(self),
            old(self).fuel_units <= val.fuel_capacity && old(self).hull_points <= val.max_hull
                && old(self).shield_points <= val.shield_capacity ==> r == Ok::<(), ShipError>(())
                && *final(self) == (Ship { template: val, ..*old(self) }) && final(self).valid(),
    {
        if self.fuel_units > val.get_fuel_capacity() {
            Err(ShipError::FuelError)
        } else if self.hull_points > val.max_hull {
            Err(ShipError::HullError)
        } else if self.shield_points > val.get_shield_capacity() {
            Err(ShipError::ShieldError)
        } else {
            self.template = val;
            Ok(())
        }
    }

    /// Returns the `fuel_units` of this `Ship`.
    pub fn get_fuel_units(&self) -> (r: FuelUnit)
        ensures
            r == self.fuel_units,
    {
        self.fuel_units
    }

    /// Attempts to set the `fuel_units` of this ship; refused when the value
    /// exceeds the template's fuel capacity.
    pub fn set_fuel_units(&mut self, val: FuelUnit) -> (r: Result<(), ShipError>)
        ensures
            val > old(self).templ().fuel_capacity ==> r == Err::<(), ShipError>(
                ShipError::FuelError,
            ) && *final(self) == *old(self),
            val <= old(self).templ().fuel_capacity ==> r == Ok::<(), ShipError>(()) && *final(self)
                == (Ship { fuel_units: val, ..*old(self) }),
    {
        if val > self.template.get_fuel_capacity() {
            Err(ShipError::FuelError)
        } else {
            self.fuel_units = val;
            Ok(())
        }
    }

    /// Returns the `hull_points` of this `Ship`.
    pub fn get_hull_points(&self) -> (r: HullPoint)
        ensures
            r == self.hull_points,
    {
        self.hull_points
    }

    /// Attempts to set the `hull_points` of this ship; refused when the value
    /// exceeds the template's maximum hull.
    pub fn set_hull_points(&mut self, val: HullPoint) -> (r: Result<(), ShipError>)
        ensures
            val > old(self).templ().max_hull ==> r == Err::<(), ShipError>(ShipError::HullError)
                && *final(self) == *old(self),
            val <= old(self).templ().max_hull ==> r == Ok::<(), ShipError>(()) && *final(self) == (
            Ship { hull_points: val, ..*old(self) }),
    {
        if val > self.template.max_hull {
            Err(ShipError::HullError)
        } else {
            self.hull_points = val;
            Ok(())
        }
    }

    /// Returns the `shield_points` of this `Ship`.
    pub fn get_shield_points(&self) -> (r: ShieldPoint)
        ensures
            r == self.shield_points,
    {
        self.shield_points
    }

    /// Attempts to set the `shield_points` of this ship; refused when the
    /// value exceeds the template's shield capacity.
    pub fn set_shield_points(&mut self, val: ShieldPoint) -> (r: Result<(), ShipError>)
        ensures
            val > old(self).templ().shield_capacity ==> r == Err::<(), ShipError>(
                ShipError::ShieldError,
            ) && *final(self) == *old(self),
            val <= old(self).templ().shield_capacity ==> r == Ok::<(), ShipError>(()) && *final(self) == (Ship { shield_points: val, ..*old(self) }),
    {
        if val > self.template.get_shield_capacity() {
            Err(ShipError::ShieldError)
        } else {
            self.shield_points = val;
            Ok(())
        }
    }

    /// Returns true if this ship is alive (its hull is not zero).
    pub fn is_alive(&self) -> (r: bool)
        ensures
            r == (self.hull_points != 0),
    {
        self.hull_points != 0
    }

    /// Regenerates shields by the template's recovery, clamped to the
    /// template's shield capacity.
    pub fn regenerate_shields(&mut self)
        ensures
            final(self).template == old(self).template,
            final(self).fuel_units == old(self).fuel_units,
            final(self).hull_points == old(self).hull_points,
            final(self).shield_points == if old(self).shield_points + old(self).templ().shield_recovery > old(self).templ().shield_capacity {
                old(self).templ().shield_capacity
            } else {
                (old(self).shield_points + old(self).templ().shield_recovery) as ShieldPoint
            },
            final(self).shield_points <= old(self).templ().shield_capacity,
    {
        let cap = self.template.get_shield_capacity();
        let rec = self.template.get_shield_recovery();
        let raised = self.shield_points as u64 + rec as u64;
        if raised > cap as u64 {
            self.shield_points = cap;
        } else {
            self.shield_points = raised as ShieldPoint;
        }
    }

    /// Simulates damage against this ship without mutating it.
    ///
    /// Shields absorb first; the result is the remaining hull, the remaining
    /// shield, and the damage left over after the ship would have been
    /// destroyed (nonzero only when the damage exceeds hull plus shield).
    pub fn simulate_damage(&mut self, damage: DamagePoint) -> (r: (
        HullPoint,
        ShieldPoint,
        DamagePoint,
    ))
        ensures
            *final(self) == *old(self),
            damage < old(self).shield_points ==> r == (
                old(self).hull_points,
                (old(self).shield_points - damage) as ShieldPoint,
                0 as DamagePoint,
            ),
            old(self).shield_points <= damage < old(self).shield_points + old(self).hull_points
                ==> r == (
                (old(self).hull_points - (damage - old(self).shield_points)) as HullPoint,
                0 as ShieldPoint,
                0 as DamagePoint,
            ),
            damage >= old(self).shield_points + old(self).hull_points ==> r == (
                0 as HullPoint,
                0 as ShieldPoint,
                (damage - old(self).shield_points - old(self).hull_points) as DamagePoint,
            ),
            r.0 + r.1 == old(self).hull_points + old(self).shield_points - damage + r.2,
            r.0 <= old(self).hull_points,
            r.1 <= old(self).shield_points,
    {
        let mut damage = damage;
        if damage < self.shield_points {
            (self.hull_points, self.shield_points - damage, 0)
        } else {
            damage -= self.shield_points;
            if damage < self.hull_points {
                (self.hull_points - damage, 0, 0)
            } else {
                (0, 0, damage - self.hull_points)
            }
        }
    }

    /// Resolves damage against this ship, committing the simulated hull and
    /// shield, and returns the damage that was left over.
    ///
    /// Damage energy is conserved: the final hull plus shield equals the old
    /// hull plus shield, minus the damage, plus the returned leftover.
    pub fn resolve_damage(&mut self, damage: DamagePoint) -> (r: DamagePoint)
        ensures
            final(self).template == old(self).template,
            final(self).fuel_units == old(self).fuel_units,
            old(self).valid() ==> final(self).valid(),
            final(self).hull_points + final(self).shield_points == old(self).hull_points + old(self).shield_points - damage + r,
            damage <= old(self).hull_points + old(self).shield_points ==> r == 0 && final(self).hull_points + final(self).shield_points == old(self).hull_points + old(self).shield_points - damage,
            damage > old(self).hull_points + old(self).shield_points ==> r == damage - (old(self).hull_points + old(self).shield_points) && final(self).hull_points == 0 && final(self).shield_points == 0,
            damage < old(self).shield_points ==> final(self).hull_points == old(self).hull_points
                && final(self).shield_points == old(self).shield_points - damage,
            old(self).shield_points <= damage < old(self).shield_points + old(self).hull_points
                ==> final(self).hull_points == old(self).hull_points - (damage - old(self).shield_points) && final(self).shield_points == 0,
            final(self).hull_points <= old(self).hull_points,
            final(self).shield_points <= old(self).shield_points,
            r <= damage,
    {
        let simulation = self.simulate_damage(damage);
        self.hull_points = simulation.0;
        self.shield_points = simulation.1;
        simulation.2
    }

    /// Resolves a pool of attacks against this ship: while the ship is
    /// alive, each entry that may target its size class is converted to
    /// total damage, resolved, and rewritten to the number of attacks the
    /// leftover damage could still pay for.
    ///
    /// The new pool, hull and shield are exactly those of
    /// [`resolve_ship_pool`]; a ship that is still alive afterwards has
    /// fully consumed every entry that could target it, and entries that
    /// cannot target it are untouched.
    pub fn resolve_attacks(&mut self, attacks: &mut ReducedAttacks)
        requires
            old(attacks).wf(),
        ensures
            final(self).template == old(self).template,
            final(self).fuel_units == old(self).fuel_units,
            final(self).hull_points <= old(self).hull_points,
            final(self).shield_points <= old(self).shield_points,
            old(self).valid() ==> final(self).valid(),
            final(attacks).wf(),
            final(attacks)@.len() == old(attacks)@.len(),
            forall|j: int|
                0 <= j < old(attacks)@.len() ==> (#[trigger] final(attacks)@[j]).smallest_target
                    == old(attacks)@[j].smallest_target && final(attacks)@[j].attack.damage_per_attack
                    == old(attacks)@[j].attack.damage_per_attack && final(attacks)@[j].attack.parallel_attacks <= old(attacks)@[j].attack.parallel_attacks,
            forall|j: int|
                0 <= j < old(attacks)@.len() && old(attacks)@[j].smallest_target > old(self).templ().ship_size_class ==> final(attacks)@[j] == old(attacks)@[j],
            final(self).hull_points != 0 ==> forall|j: int|
                0 <= j < old(attacks)@.len() && old(attacks)@[j].smallest_target <= old(self).templ().ship_size_class ==> (#[trigger] final(attacks)@[j]).attack.parallel_attacks == 0,
            ({
                let out = resolve_ship_pool(
                    old(self).templ().ship_size_class as int,
                    old(attacks)@,
                    0,
                    old(self).hull_points as int,
                    old(self).shield_points as int,
                );
                &&& final(attacks)@ == out.pool
                &&& final(self).hull_points == out.hull
                &&& final(self).shield_points == out.shield
            }),
    {
        let ghost a0 = attacks@;
        let ghost sc = old(self).templ().ship_size_class as int;
        let ghost h_init = old(self).hull_points as int;
        let ghost s_init = old(self).shield_points as int;
        let size_class = self.template.ship_size_class;
        let n = attacks.attacks.len();
        let mut i: usize = 0;
        while i < n
            invariant
                n == a0.len(),
                i <= n,
                a0 == old(attacks)@,
                size_class == old(self).templ().ship_size_class,
                self.template == old(self).template,
                self.fuel_units == old(self).fuel_units,
                self.hull_points <= old(self).hull_points,
                self.shield_points <= old(self).shield_points,
                old(self).valid() ==> self.valid(),
                attacks.wf(),
                attacks@.len() == n,
                forall|j: int|
                    0 <= j < n ==> (#[trigger] attacks@[j]).smallest_target
                        == a0[j].smallest_target && attacks@[j].attack.damage_per_attack
                        == a0[j].attack.damage_per_attack && attacks@[j].attack.parallel_attacks
                        <= a0[j].attack.parallel_attacks,
                forall|j: int| i <= j < n ==> #[trigger] attacks@[j] == a0[j],
                forall|j: int|
                    0 <= j < n && a0[j].smallest_target > size_class ==> #[trigger] attacks@[j]
                        == a0[j],
                self.hull_points != 0 ==> forall|j: int|
                    0 <= j < i && a0[j].smallest_target <= size_class ==> (#[trigger] attacks@[j]).attack.parallel_attacks
                        == 0,
                sc == size_class as int,
                resolve_ship_pool(sc, a0, 0, h_init, s_init) == resolve_ship_pool(
                    sc,
                    attacks@,
                    i as int,
                    self.hull_points as int,
                    self.shield_points as int,
                ),
            decreases n - i,
        {
            let ghost before = attacks@;
            let ghost h_cur = self.hull_points as int;
            let ghost s_cur = self.shield_points as int;
            let entry = attacks.attacks[i];
            if self.hull_points != 0 && entry.smallest_target <= size_class {
                let total = entry.attack.sum_damage();
                let leftover = self.resolve_damage(total);
                let dpa = entry.attack.damage_per_attack;
                attacks.attacks[i].attack.parallel_attacks = leftover / dpa;
                proof {
                    let s1 = attacks@;
                    assert(s1 == before.update(i as int, s1[i as int]));
                    lemma_div_is_ordered(leftover as int, total as int, dpa as int);
                    lemma_div_multiples_vanish(entry.attack.parallel_attacks as int, dpa as int);
                    assert(entry.attack.parallel_attacks * dpa == dpa
                        * entry.attack.parallel_attacks) by (nonlinear_arith);
                    if leftover == 0 {
                        lemma_div_of0(dpa as int);
                    }
                    assert(s1[i as int].attack.parallel_attacks
                        <= entry.attack.parallel_attacks);
                    assert(s1[i as int].attack.parallel_attacks * s1[i as int].attack.damage_per_attack
                        <= entry.attack.parallel_attacks * dpa) by (nonlinear_arith)
                        requires
                            s1[i as int].attack.parallel_attacks <= entry.attack.parallel_attacks,
                            s1[i as int].attack.damage_per_attack == dpa,
                            dpa >= 0,
                            s1[i as int].attack.parallel_attacks >= 0,
                    ;
                    assert forall|x: int, y: int| 0 <= x < y < n implies key_lt(
                        #[trigger] attacks@[x],
                        #[trigger] attacks@[y],
                    ) by {
                        assert(key_lt(before[x], before[y]));
                    }
                    // One unfolding of the spec recursion matches this step.
                    assert(leftover as int == sim_leftover(h_cur, s_cur, total as int));
                    assert(self.hull_points as int == sim_hull(h_cur, s_cur, total as int));
                    assert(self.shield_points as int == sim_shield(h_cur, s_cur, total as int));
                    assert(s1[i as int] == (TargetedAttack {
                        attack: Attack {
                            parallel_attacks: (sim_leftover(h_cur, s_cur, total as int) / (
                            dpa as int)) as UInt,
                            damage_per_attack: dpa,
                        },
                        smallest_target: entry.smallest_target,
                    }));
                    assert(resolve_ship_pool(sc, before, i as int, h_cur, s_cur)
                        == resolve_ship_pool(
                        sc,
                        s1,
                        i as int + 1,
                        self.hull_points as int,
                        self.shield_points as int,
                    ));
                }
            } else {
                proof {
                    assert(resolve_ship_pool(sc, before, i as int, h_cur, s_cur)
                        == resolve_ship_pool(sc, before, i as int + 1, h_cur, s_cur));
                }
            }
            i = i + 1;
        }
    }
}

/// A ship's state, and the pool's entries, after the pool has been fed
/// through the ship; see [`resolve_ship_pool`].
pub ghost struct ShipPoolOutcome {
    /// The pool's entries after consumption.
    pub pool: Seq<TargetedAttack>,
    /// The ship's hull.
    pub hull: int,
    /// The ship's shield.
    pub shield: int,
}

/// Feeds the pool entries from index `i` on through a single ship whose
/// size class is `sc`: while the ship is alive, each entry that may target
/// `sc` deals its total damage and is rewritten to the attacks its leftover
/// damage can still pay for.
pub open spec fn resolve_ship_pool(
    sc: int,
    pool: Seq<TargetedAttack>,
    i: int,
    hull: int,
    shield: int,
) -> ShipPoolOutcome
    decreases pool.len() - i,
{
    if i < 0 || i >= pool.len() {
        ShipPoolOutcome { pool, hull, shield }
    } else {
        let e = pool[i];
        if hull > 0 && e.smallest_target <= sc {
            let total = e.attack.parallel_attacks * e.attack.damage_per_attack;
            let e2 = TargetedAttack {
                attack: Attack {
                    parallel_attacks: (sim_leftover(hull, shield, total) / (
                    e.attack.damage_per_attack as int)) as UInt,
                    damage_per_attack: e.attack.damage_per_attack,
                },
                smallest_target: e.smallest_target,
            };
            resolve_ship_pool(
                sc,
                pool.update(i, e2),
                i + 1,
                sim_hull(hull, shield, total),
                sim_shield(hull, shield, total),
            )
        } else {
            resolve_ship_pool(sc, pool, i + 1, hull, shield)
        }
    }
}

impl From<Rc<ShipTemplate>> for Ship {
    /// Builds a ship at full fuel, hull and shield from a shared template.
    fn from(template: Rc<ShipTemplate>) -> (r: Ship) {
        let fuel_units = template.get_fuel_capacity();
        let hull_points = template.max_hull;
        let shield_points = template.get_shield_capacity();
        Ship { template, fuel_units, hull_points, shield_points }
    }
}

impl vstd::std_specs::convert::FromSpecImpl<Rc<ShipTemplate>> for Ship {
    open spec fn obeys_from_spec() -> bool {
        true
    }

    open spec fn from_spec(template: Rc<ShipTemplate>) -> Ship {
        full_ship(template)
    }
}

/// A ship at the full fuel, hull and shield of its template.
pub open spec fn full_ship(template: Rc<ShipTemplate>) -> Ship {
    Ship {
        template,
        fuel_units: template.fuel_capacity,
        hull_points: template.max_hull,
        shield_points: template.shield_capacity,
    }
}


/// Attempts to spawn a new ship of the named type from the passed template
/// cache: the ship starts at full fuel, hull and shield, tagged with the
/// passed faction.  Nothing is returned when no template of that name is
/// held.
pub fn build_game_ship(templates: &TemplateBuf, typename: &String, faction: Faction) -> (r:
    Option<AllignedInstance<Ship>>)
    ensures
        find_name(templates.templates@, typename@, 0) < 0 <==> r is None,
        find_name(templates.templates@, typename@, 0) >= 0 ==> (r matches Some(inst) && ({
            let t = templates.templates@[find_name(templates.templates@, typename@, 0)].1;
            &&& inst.0 == faction
            &&& inst.1 == full_ship(t)
            &&& inst.1.valid() || !t.valid()
        })),
{
    match templates.lookup(typename) {
        None => None,
        Some(template) => {
            proof {
                let t = templates.templates@[find_name(templates.templates@, typename@, 0)].1;
                assert(full_ship(template).valid() || !(*template).valid());
            }
            Some(AllignedInstance(faction, Ship::from(template)))
        },
    }
}

} // verus!
