//! Fleets: ordered collections of aggregate ship groups, and the merging of
//! groups that share a template.

use vstd::prelude::*;
use vstd::arithmetic::div_mod::{
    lemma_div_is_ordered, lemma_div_is_ordered_by_denominator, lemma_div_multiples_vanish,
    lemma_div_of0, lemma_div_pos_is_pos,
};
use vstd::math::min;
use crate::attacks::{Attack, ReducedAttacks, TargetedAttack};
use crate::reduced_ship::{
    lemma_mul_bound_u32, resolve_group_attacks, resolve_group_damage, group_outcome, resolve_pool,
    GroupOutcome, PoolOutcome,
};
use crate::ship::Ship;
use crate::factions::Faction;
use crate::ship_template::ShipTemplate;
use crate::weapons::distinct_weapon::{eligible_targets, DistinctWeapon};
use crate::weapons::distributed_damage::DistributedDamage;
use crate::weapons::reduced_weapon::{
    lemma_total_weapon_damage_bounds, rw_distribute, total_weapon_damage, ReducedWeapon,
};
use crate::weapons::targeted_damage::TargetedDamage;
use crate::{DamagePoint, UInt, UINT_MAX};

verus! {

/// A `RepeatedShip` represents many instances of one ship type by a single
/// averaged [`Ship`] plus a count; the averaging engine is shared with
/// [`crate::reduced_ship::ReducedShip`].
#[derive(Debug, PartialEq, Eq, Clone)]
pub struct RepeatedShip {
    /// A single `Ship` holding the average state of all the instances.
    pub ship_average: Ship,
    /// The number of instances represented.
    pub counter: UInt,
}

/// Two aggregates hold ships of the same type.
pub open spec fn same_templ(a: RepeatedShip, b: RepeatedShip) -> bool {
    a.ship_average.templ() == b.ship_average.templ()
}

/// The count-weighted merge of two aggregates of the same template: each of
/// fuel, hull and shield becomes `(a * count_a + b * count_b) / (count_a +
/// count_b)`, and the counts are summed.
pub open spec fn merge_ships(a: RepeatedShip, b: RepeatedShip) -> RepeatedShip {
    let ca = a.counter as int;
    let cb = b.counter as int;
    RepeatedShip {
        ship_average: Ship {
            template: a.ship_average.template,
            fuel_units: ((a.ship_average.fuel_units * ca + b.ship_average.fuel_units * cb) / (ca
                + cb)) as UInt,
            hull_points: ((a.ship_average.hull_points * ca + b.ship_average.hull_points * cb) / (ca
                + cb)) as UInt,
            shield_points: ((a.ship_average.shield_points * ca + b.ship_average.shield_points * cb)
                / (ca + cb)) as UInt,
        },
        counter: (ca + cb) as UInt,
    }
}

/// Copies of the targets with their damage cleared, so one instance's
/// distribution can be computed on its own.
pub open spec fn zeroed_targets(s: Seq<DistributedDamage>) -> Seq<DistributedDamage> {
    Seq::new(
        s.len(),
        |j: int|
            DistributedDamage {
                damage: TargetedDamage { target_size: s[j].damage.target_size, damage: 0 },
                targets: s[j].targets,
            },
    )
}

/// Clearing the damage leaves each weapon's eligible-target count unchanged.
proof fn lemma_zeroed_eligible(w: DistinctWeapon, s: Seq<DistributedDamage>)
    ensures
        eligible_targets(w, zeroed_targets(s), 0) == eligible_targets(w, s, 0),
{
    lemma_zeroed_eligible_from(w, s, 0);
}

/// Helper of [`lemma_zeroed_eligible`], from an arbitrary index.
proof fn lemma_zeroed_eligible_from(
    w: DistinctWeapon,
    s: Seq<DistributedDamage>,
    i: int,
)
    ensures
        eligible_targets(w, zeroed_targets(s), i) == eligible_targets(w, s, i),
    decreases s.len() - i,
{
    if 0 <= i < s.len() {
        lemma_zeroed_eligible_from(w, s, i + 1);
    }
}

impl RepeatedShip {
    /// The aggregate's invariant: the representative satisfies the capacity
    /// relations.
    pub open spec fn valid(&self) -> bool {
        self.ship_average.valid()
    }

    /// Creates a new `RepeatedShip`.
    pub fn new(ship_average: Ship, counter: UInt) -> (r: Self)
        ensures
            r == (RepeatedShip { ship_average, counter }),
    {
        Self { ship_average, counter }
    }

    /// Returns true if the two aggregates hold ships of the same type.
    pub fn same_template(&self, other: &Self) -> (r: bool)
        ensures
            r == same_templ(*self, *other),
    {
        *self.ship_average.template == *other.ship_average.template
    }

    /// Merges another aggregate of the same template into this one: the
    /// averages are recomputed weighted by each side's count, and the counts
    /// are summed; see [`merge_ships`].
    pub fn merge(&mut self, other: Self)
        requires
            same_templ(*old(self), other),
            old(self).counter + other.counter >= 1,
            old(self).counter + other.counter <= UINT_MAX,
        ensures
            *final(self) == merge_ships(*old(self), other),
            old(self).valid() && other.valid() ==> final(self).valid(),
    {
        let ca = self.counter as u64;
        let cb = other.counter as u64;
        let denom = ca + cb;
        let fuel = merge_field(self.ship_average.fuel_units, other.ship_average.fuel_units, ca, cb);
        let hull = merge_field(
            self.ship_average.hull_points,
            other.ship_average.hull_points,
            ca,
            cb,
        );
        let shield = merge_field(
            self.ship_average.shield_points,
            other.ship_average.shield_points,
            ca,
            cb,
        );
        self.ship_average.fuel_units = fuel;
        self.ship_average.hull_points = hull;
        self.ship_average.shield_points = shield;
        self.counter = (denom) as UInt;
    }

    /// Attempts to merge another aggregate into this one; an aggregate of a
    /// different template is handed back unchanged.
    pub fn checked_merge(&mut self, other: Self) -> (r: Option<Self>)
        requires
            same_templ(*old(self), other) ==> old(self).counter + other.counter >= 1 && old(self).counter + other.counter <= UINT_MAX,
        ensures
            same_templ(*old(self), other) ==> r == None::<Self> && *final(self) == merge_ships(
                *old(self),
                other,
            ) && (old(self).valid() && other.valid() ==> final(self).valid()),
            !same_templ(*old(self), other) ==> r == Some(other) && *final(self) == *old(self),
    {
        if self.same_template(&other) {
            self.merge(other);
            None
        } else {
            Some(other)
        }
    }

    /// Distributes the attacks of a weapon set, fired once by every
    /// instance of this aggregate, over the passed targets: the damage one
    /// instance would distribute is computed against damage-free copies of
    /// the targets, multiplied by the live count, and added back in.
    pub fn distribute_attacks(
        &self,
        weapons: &ReducedWeapon,
        targets: &mut Vec<DistributedDamage>,
    )
        requires
            weapons.wf(),
            total_weapon_damage(weapons.weapons@, 0) <= UINT_MAX,
            total_weapon_damage(weapons.weapons@, 0) * self.counter <= UINT_MAX,
            forall|k: int|
                0 <= k < weapons.weapons@.len() ==> #[trigger] eligible_targets(
                    weapons.weapons@[k],
                    old(targets)@,
                    0,
                ) <= UINT_MAX,
            forall|j: int, k: int|
                0 <= j < old(targets)@.len() && 0 <= k < weapons.weapons@.len() && (#[trigger] old(targets)@[j]).damage.target_size >= (#[trigger] weapons.weapons@[k]).target_size ==> old(targets)@[j].targets >= 1,
            forall|j: int|
                0 <= j < old(targets)@.len() ==> (#[trigger] old(targets)@[j]).damage.damage
                    + total_weapon_damage(weapons.weapons@, 0) * self.counter <= UINT_MAX,
        ensures
            final(targets)@.len() == old(targets)@.len(),
            forall|j: int|
                0 <= j < old(targets)@.len() ==> ({
                    let once = rw_distribute(weapons.weapons@, 0, zeroed_targets(old(targets)@));
                    &&& (#[trigger] final(targets)@[j]).targets == old(targets)@[j].targets
                    &&& final(targets)@[j].damage.target_size == old(targets)@[j].damage.target_size
                    &&& final(targets)@[j].damage.damage == old(targets)@[j].damage.damage + once[j].damage.damage
                        * self.counter
                }),
    {
        let ghost s0 = targets@;
        let ghost ws = weapons.weapons@;
        let ghost total = total_weapon_damage(ws, 0);
        let n = targets.len();
        let mut distributed: Vec<DistributedDamage> = Vec::new();
        let mut i: usize = 0;
        proof {
            assert(distributed@ =~= zeroed_targets(s0).subrange(0, 0));
        }
        while i < n
            invariant
                n == s0.len(),
                i <= n,
                s0 == targets@,
                distributed@ =~= zeroed_targets(s0).subrange(0, i as int),
            decreases n - i,
        {
            let entry = targets[i];
            distributed.push(
                DistributedDamage {
                    damage: TargetedDamage {
                        target_size: entry.damage.target_size,
                        damage: 0,
                    },
                    targets: entry.targets,
                },
            );
            proof {
                assert(distributed@ =~= zeroed_targets(s0).subrange(0, i as int + 1));
            }
            i = i + 1;
        }
        proof {
            assert(distributed@ =~= zeroed_targets(s0));
            lemma_total_weapon_damage_bounds(ws, 0);
            assert forall|k: int| 0 <= k < ws.len() implies #[trigger] eligible_targets(
                ws[k],
                distributed@,
                0,
            ) <= UINT_MAX by {
                lemma_zeroed_eligible(ws[k], s0);
            }
            assert forall|j: int, k: int|
                0 <= j < distributed@.len() && 0 <= k < ws.len() && (#[trigger] distributed@[j]).damage.target_size
                    >= (#[trigger] ws[k]).target_size implies distributed@[j].targets >= 1 by {
                assert(s0[j].damage.target_size >= ws[k].target_size);
                assert(s0[j].targets >= 1);
            }
        }
        weapons.distribute_attacks(&mut distributed);
        let ghost once = distributed@;
        let mut j: usize = 0;
        while j < n
            invariant
                n == s0.len(),
                j <= n,
                once == rw_distribute(ws, 0, zeroed_targets(s0)),
                once.len() == n,
                distributed@ == once,
                targets@.len() == n,
                total == total_weapon_damage(ws, 0),
                total * self.counter <= UINT_MAX,
                forall|jj: int|
                    0 <= jj < n ==> (#[trigger] once[jj]).damage.damage <= total,
                forall|jj: int|
                    0 <= jj < n ==> (#[trigger] s0[jj]).damage.damage + total * self.counter
                        <= UINT_MAX,
                forall|jj: int|
                    j <= jj < n ==> #[trigger] targets@[jj] == s0[jj],
                forall|jj: int|
                    0 <= jj < j ==> (#[trigger] targets@[jj]).targets == s0[jj].targets
                        && targets@[jj].damage.target_size == s0[jj].damage.target_size
                        && targets@[jj].damage.damage == s0[jj].damage.damage + once[jj].damage.damage
                        * self.counter,
            decreases n - j,
        {
            proof {
                assert(once[j as int].damage.damage * self.counter <= total * self.counter)
                    by (nonlinear_arith)
                    requires
                        once[j as int].damage.damage <= total,
                        self.counter >= 0,
                        once[j as int].damage.damage >= 0,
                ;
            }
            let ghost before = targets@;
            let add = distributed[j].damage.damage * self.counter;
            targets[j].damage.damage = targets[j].damage.damage + add;
            proof {
                assert(targets@ == before.update(j as int, targets@[j as int]));
            }
            j = j + 1;
        }
    }

    /// Resolves damage against the aggregate's instances; the exact contract
    /// is that of [`crate::reduced_ship::ReducedShip::resolve_damage`],
    /// which shares the same core.
    pub fn resolve_damage(&mut self, damage: DamagePoint) -> (r: DamagePoint)
        requires
            old(self).valid(),
        ensures
            ({
                let o = group_outcome(
                    old(self).ship_average.hull_points as int,
                    old(self).ship_average.shield_points as int,
                    old(self).counter as int,
                    damage as int,
                );
                let total_hull = o.rem_hull + old(self).ship_average.hull_points * o.unattacked;
                let total_shield = o.rem_shield + old(self).ship_average.shield_points
                    * o.unattacked;
                &&& final(self).counter == o.number
                &&& r == o.damage
                &&& r <= damage
                &&& final(self).counter <= old(self).counter
                &&& final(self).ship_average.template == old(self).ship_average.template
                &&& final(self).ship_average.fuel_units == old(self).ship_average.fuel_units
                &&& final(self).valid()
                &&& o.number > 0 ==> final(self).ship_average.hull_points == total_hull / o.number
                    && final(self).ship_average.shield_points == total_shield / o.number
                &&& o.number == 0 ==> final(self).ship_average.hull_points == old(self).ship_average.hull_points && final(self).ship_average.shield_points == old(self).ship_average.shield_points
                &&& (old(self).ship_average.hull_points >= 1 && damage < old(self).ship_average.hull_points + old(self).ship_average.shield_points) ==> final(self).counter == old(self).counter
                &&& old(self).ship_average.hull_points >= 1 ==> total_hull + total_shield == old(self).counter * (old(self).ship_average.hull_points + old(self).ship_average.shield_points) - damage + r
                &&& (old(self).ship_average.hull_points >= 1 && o.number > 0) ==> final(self).ship_average.hull_points * o.number <= total_hull && total_hull - o.number
                    < final(self).ship_average.hull_points * o.number
                &&& (old(self).ship_average.hull_points >= 1 && o.number > 0) ==> final(self).ship_average.shield_points * o.number <= total_shield && total_shield - o.number
                    < final(self).ship_average.shield_points * o.number
                &&& (old(self).ship_average.hull_points >= 1 && o.number > 0) ==> total_hull
                    + total_shield - 2 * o.number < (final(self).ship_average.hull_points + final(self).ship_average.shield_points) * o.number <= total_hull + total_shield
                &&& (old(self).ship_average.hull_points >= 1 && r != 0) ==> final(self).counter
                    == 0
                &&& (old(self).ship_average.hull_points >= 1 && final(self).counter != 0) ==> final(self).ship_average.hull_points >= 1
            }),
    {
        resolve_group_damage(&mut self.ship_average, &mut self.counter, damage)
    }
}

/// One averaged field of a count-weighted merge: `(a * ca + b * cb) / (ca +
/// cb)`, never larger than the larger of `a` and `b`.
fn merge_field(a: UInt, b: UInt, ca: u64, cb: u64) -> (r: UInt)
    requires
        1 <= ca + cb <= UINT_MAX,
        ca <= UINT_MAX,
        cb <= UINT_MAX,
    ensures
        r == (a * ca + b * cb) / (ca + cb),
        r <= a || r <= b,
        a <= b ==> r <= b,
        b <= a ==> r <= a,
{
    let ghost mx: int = if a >= b {
        a as int
    } else {
        b as int
    };
    proof {
        lemma_mul_bound_u32(a as int, ca as int);
        lemma_mul_bound_u32(b as int, cb as int);
        lemma_mul_bound_u32(mx, ca + cb as int);
        assert(a * ca + b * cb <= mx * (ca + cb)) by (nonlinear_arith)
            requires
                a <= mx,
                b <= mx,
                ca >= 0,
                cb >= 0,
        ;
    }
    let sum: u64 = (a as u64) * ca + (b as u64) * cb;
    let denom: u64 = ca + cb;
    let r: u64 = sum / denom;
    proof {
        lemma_div_is_ordered(sum as int, mx * (ca + cb), denom as int);
        lemma_div_multiples_vanish(mx, denom as int);
        assert(mx * (denom as int) == (denom as int) * mx) by (nonlinear_arith);
    }
    r as UInt
}

/// The total number of ships held across a sequence of aggregates.
pub open spec fn total_count(s: Seq<RepeatedShip>) -> int
    decreases s.len(),
{
    if s.len() == 0 {
        0
    } else {
        total_count(s.drop_last()) + s.last().counter
    }
}

/// A total count is never negative.
pub proof fn lemma_total_count_nonneg(s: Seq<RepeatedShip>)
    ensures
        0 <= total_count(s),
    decreases s.len(),
{
    if s.len() > 0 {
        lemma_total_count_nonneg(s.drop_last());
    }
}

/// Splitting a sequence splits its total count.
pub proof fn lemma_total_count_concat(s1: Seq<RepeatedShip>, s2: Seq<RepeatedShip>)
    ensures
        total_count(s1 + s2) == total_count(s1) + total_count(s2),
    decreases s2.len(),
{
    if s2.len() == 0 {
        assert(s1 + s2 =~= s1);
    } else {
        assert((s1 + s2).drop_last() =~= s1 + s2.drop_last());
        assert((s1 + s2).last() == s2.last());
        lemma_total_count_concat(s1, s2.drop_last());
    }
}

/// An aggregate's count is no more than the sequence's total.
pub proof fn lemma_total_count_elem(s: Seq<RepeatedShip>, i: int)
    requires
        0 <= i < s.len(),
    ensures
        s[i].counter <= total_count(s),
    decreases s.len(),
{
    lemma_total_count_nonneg(s.drop_last());
    if i + 1 < s.len() {
        lemma_total_count_elem(s.drop_last(), i);
        assert(s.drop_last()[i] == s[i]);
    } else {
        assert(s.last() == s[i]);
    }
}

/// Replacing one aggregate changes the total by the difference of counts.
proof fn lemma_total_count_update(s: Seq<RepeatedShip>, i: int, x: RepeatedShip)
    requires
        0 <= i < s.len(),
    ensures
        total_count(s.update(i, x)) == total_count(s) - s[i].counter + x.counter,
{
    let pre = s.subrange(0, i);
    let mid = s.subrange(i, i + 1);
    let suf = s.subrange(i + 1, s.len() as int);
    let s1 = s.update(i, x);
    let mid1 = s1.subrange(i, i + 1);
    assert(s =~= (pre + mid) + suf);
    assert(s1 =~= (pre + mid1) + suf);
    lemma_total_count_concat(pre + mid, suf);
    lemma_total_count_concat(pre, mid);
    lemma_total_count_concat(pre + mid1, suf);
    lemma_total_count_concat(pre, mid1);
    assert(total_count(mid) == s[i].counter) by {
        assert(mid.drop_last() =~= Seq::<RepeatedShip>::empty());
        assert(mid.last() == s[i]);
        assert(total_count(Seq::<RepeatedShip>::empty()) == 0);
    }
    assert(total_count(mid1) == x.counter) by {
        assert(mid1.drop_last() =~= Seq::<RepeatedShip>::empty());
        assert(mid1.last() == x);
        assert(total_count(Seq::<RepeatedShip>::empty()) == 0);
    }
}

/// A prefix holds no more ships than the whole sequence.
pub proof fn lemma_total_count_prefix(s: Seq<RepeatedShip>, k: int)
    requires
        0 <= k <= s.len(),
    ensures
        total_count(s.subrange(0, k)) <= total_count(s),
{
    let pre = s.subrange(0, k);
    let suf = s.subrange(k, s.len() as int);
    assert(s =~= pre + suf);
    lemma_total_count_concat(pre, suf);
    lemma_total_count_nonneg(suf);
}

/// The first index in `s`, at or after `i`, of an aggregate whose template
/// is `t`; negative when there is none.
pub open spec fn find_template(s: Seq<RepeatedShip>, t: ShipTemplate, i: int) -> int
    decreases s.len() - i,
{
    if i < 0 || i >= s.len() {
        -1
    } else if s[i].ship_average.templ() == t {
        i
    } else {
        find_template(s, t, i + 1)
    }
}

/// What [`ShipGroup::add_ships`] does to the sequence of aggregates: nothing
/// for an empty aggregate; a merge into the first aggregate of the same
/// template; otherwise an append.
pub open spec fn spec_add_ships(s: Seq<RepeatedShip>, x: RepeatedShip) -> Seq<RepeatedShip> {
    if x.counter == 0 {
        s
    } else {
        let i = find_template(s, x.ship_average.templ(), 0);
        if i >= 0 {
            s.update(i, merge_ships(s[i], x))
        } else {
            s.push(x)
        }
    }
}

/// The canonical group built by adding the aggregates of `s` from index `i`
/// on into `acc`, one at a time.
pub open spec fn group_canon(s: Seq<RepeatedShip>, i: int, acc: Seq<RepeatedShip>) -> Seq<
    RepeatedShip,
>
    decreases s.len() - i,
{
    if i < 0 || i >= s.len() {
        acc
    } else {
        group_canon(s, i + 1, spec_add_ships(acc, s[i]))
    }
}

/// A `ShipGroup` holds aggregates of several ship types.
///
/// Invariant (see [`ShipGroup::wf`]): no aggregate is empty, and no two
/// aggregates share a template.
#[derive(Debug, PartialEq, Eq, Clone)]
pub struct ShipGroup {
    /// The aggregates, one per ship type.
    pub ships: Vec<RepeatedShip>,
}

impl ShipGroup {
    /// The group's invariant: no empty aggregate, no duplicate template.
    pub open spec fn wf(&self) -> bool {
        &&& forall|i: int| 0 <= i < self.ships@.len() ==> (#[trigger] self.ships@[i]).counter > 0
        &&& forall|i: int, j: int|
            0 <= i < j < self.ships@.len() ==> !same_templ(
                #[trigger] self.ships@[i],
                #[trigger] self.ships@[j],
            )
    }

    /// Every aggregate's representative satisfies the capacity relations.
    pub open spec fn all_valid(&self) -> bool {
        forall|i: int| 0 <= i < self.ships@.len() ==> (#[trigger] self.ships@[i]).valid()
    }

    /// Builds a `ShipGroup` from aggregates without merging or dropping
    /// anything; the canonicalizing entry point is [`ShipGroup::new`].
    pub(crate) fn from_parts(ships: Vec<RepeatedShip>) -> (r: Self)
        ensures
            r.ships@ == ships@,
    {
        Self { ships }
    }

    /// Builds a `ShipGroup` with the guarantees that no aggregate is empty
    /// and that aggregates sharing a template have been merged; the total
    /// ship count is preserved.
    pub fn new(mut ships: Vec<RepeatedShip>) -> (r: Self)
        requires
            total_count(ships@) <= UINT_MAX,
        ensures
            r.wf(),
            r.ships@ == group_canon(ships@, 0, Seq::empty()),
            total_count(r.ships@) == total_count(ships@),
            (forall|i: int| 0 <= i < ships@.len() ==> (#[trigger] ships@[i]).valid())
                ==> r.all_valid(),
    {
        let ghost s0 = ships@;
        let mut r = Self::from_parts(Vec::new());
        let n = ships.len();
        let mut j: usize = 0;
        proof {
            assert(total_count(s0.subrange(0, 0)) == 0) by {
                assert(s0.subrange(0, 0) =~= Seq::<RepeatedShip>::empty());
            }
            assert(ships@ =~= s0.subrange(0, n as int));
        }
        while j < n
            invariant
                n == s0.len(),
                j <= n,
                ships@ == s0.subrange(j as int, n as int),
                total_count(s0) <= UINT_MAX,
                r.wf(),
                total_count(r.ships@) == total_count(s0.subrange(0, j as int)),
                group_canon(s0, 0, Seq::empty()) == group_canon(s0, j as int, r.ships@),
                (forall|i: int| 0 <= i < s0.len() ==> (#[trigger] s0[i]).valid())
                    ==> r.all_valid(),
            decreases n - j,
        {
            proof {
                assert(ships@[0] == s0[j as int]);
            }
            let x = ships.remove(0);
            proof {
                assert(x == s0[j as int]);
                assert(ships@ =~= s0.subrange(j as int + 1, n as int));
                let pre = s0.subrange(0, j as int);
                let pre1 = s0.subrange(0, j as int + 1);
                assert(pre1.drop_last() =~= pre);
                assert(pre1.last() == x);
                lemma_total_count_prefix(s0, j as int + 1);
                assert forall|i: int| 0 <= i < r.ships@.len() implies (#[trigger] r.ships@[i]).counter
                    + x.counter <= UINT_MAX by {
                    lemma_total_count_elem(r.ships@, i);
                }
            }
            r.add_ships(x);
            j = j + 1;
        }
        proof {
            assert(s0.subrange(0, n as int) =~= s0);
        }
        r
    }

    /// Adds an aggregate to this group: an empty aggregate is ignored, one
    /// sharing a template with an existing aggregate is merged into it, and
    /// any other is appended; see [`spec_add_ships`].
    pub fn add_ships(&mut self, ships: RepeatedShip)
        requires
            old(self).wf(),
            forall|i: int|
                0 <= i < old(self).ships@.len() ==> (#[trigger] old(self).ships@[i]).counter
                    + ships.counter <= UINT_MAX,
        ensures
            final(self).ships@ == spec_add_ships(old(self).ships@, ships),
            final(self).wf(),
            total_count(final(self).ships@) == total_count(old(self).ships@) + ships.counter,
            old(self).all_valid() && ships.valid() ==> final(self).all_valid(),
    {
        let ghost s0 = self.ships@;
        let ghost t = ships.ship_average.templ();
        if ships.counter == 0 {
            return ;
        }
        let n = self.ships.len();
        let mut idx: usize = 0;
        while idx < n && !self.ships[idx].same_template(&ships)
            invariant
                n == self.ships@.len(),
                idx <= n,
                *self == *old(self),
                s0 == self.ships@,
                t == ships.ship_average.templ(),
                find_template(s0, t, 0) == find_template(s0, t, idx as int),
            decreases n - idx,
        {
            idx = idx + 1;
        }
        if idx < n {
            proof {
                assert(find_template(s0, t, idx as int) == idx as int);
                lemma_total_count_elem(s0, idx as int);
                lemma_total_count_nonneg(s0);
            }
            let ghost prev = self.ships@[idx as int];
            self.ships[idx].merge(ships);
            proof {
                let s1 = self.ships@;
                assert(s1 == s0.update(idx as int, s1[idx as int]));
                assert(s1[idx as int] == merge_ships(prev, ships));
                lemma_total_count_update(s0, idx as int, s1[idx as int]);
                assert(s1 =~= spec_add_ships(s0, ships));
            }
        } else {
            proof {
                assert(find_template(s0, t, n as int) == -1);
            }
            self.ships.push(ships);
            proof {
                let s1 = self.ships@;
                assert(s1 =~= spec_add_ships(s0, ships));
                assert(total_count(s1) == total_count(s0) + ships.counter) by {
                    assert(s1.drop_last() =~= s0);
                    assert(s1.last() == ships);
                }
                assert forall|i: int, j: int| 0 <= i < j < s1.len() implies !same_templ(
                    #[trigger] s1[i],
                    #[trigger] s1[j],
                ) by {
                    if j == s1.len() - 1 {
                        assert(find_template(s0, t, 0) == -1);
                        lemma_find_template_absent(s0, t, i);
                    }
                }
            }
        }
    }

    /// Returns the number of ship types in this group.
    pub fn types_count(&self) -> (r: usize)
        ensures
            r == self.ships@.len(),
    {
        self.ships.len()
    }

    /// Resolves a pool of attacks against this group: the same mutable pool
    /// is fed through each aggregate in order, so an aggregate placed later
    /// only sees the damage the earlier ones failed to use; aggregates left
    /// without members are then dropped.
    ///
    /// The new aggregates and pool are exactly those of [`feed_ships`]
    /// followed by [`drop_empty`].
    pub fn resolve_attacks(&mut self, attacks: &mut ReducedAttacks)
        requires
            old(self).all_valid(),
            old(attacks).wf(),
        ensures
            final(self).all_valid(),
            final(attacks).wf(),
            ({
                let f = feed_ships(old(self).ships@, 0, old(attacks)@);
                final(attacks)@ == f.pool && final(self).ships@ == drop_empty(f.ships)
            }),
            old(self).wf() ==> final(self).wf(),
    {
        let ghost s0 = self.ships@;
        let ghost a0 = attacks@;
        let n = self.ships.len();
        let mut k: usize = 0;
        while k < n
            invariant
                n == s0.len(),
                k <= n,
                a0 == old(attacks)@,
                s0 == old(self).ships@,
                self.ships@.len() == n,
                self.all_valid(),
                attacks.wf(),
                forall|j: int|
                    0 <= j < n ==> (#[trigger] self.ships@[j]).ship_average.template
                        == s0[j].ship_average.template,
                feed_ships(s0, 0, a0) == feed_ships(self.ships@, k as int, attacks@),
            decreases n - k,
        {
            let ghost before_ships = self.ships@;
            let ghost before_pool = attacks@;
            let rs = &mut self.ships[k];
            let ghost rs0 = *rs;
            resolve_group_attacks(&mut rs.ship_average, &mut rs.counter, attacks);
            proof {
                let s1 = self.ships@;
                assert(s1 == before_ships.update(k as int, s1[k as int]));
                let out = resolve_pool(
                    rs0.ship_average.templ().ship_size_class as int,
                    before_pool,
                    0,
                    rs0.ship_average.hull_points as int,
                    rs0.ship_average.shield_points as int,
                    rs0.counter as int,
                );
                assert(s1[k as int] == (RepeatedShip {
                    ship_average: Ship {
                        template: rs0.ship_average.template,
                        fuel_units: rs0.ship_average.fuel_units,
                        hull_points: out.hull as UInt,
                        shield_points: out.shield as UInt,
                    },
                    counter: out.number as UInt,
                }));
                assert(feed_ships(before_ships, k as int, before_pool) == feed_ships(
                    s1,
                    k as int + 1,
                    attacks@,
                ));
            }
            k = k + 1;
        }
        let ghost fed = self.ships@;
        let mut kept: Vec<RepeatedShip> = Vec::new();
        let mut i: usize = 0;
        proof {
            assert(fed.subrange(0, 0) =~= Seq::<RepeatedShip>::empty());
        }
        while i < n
            invariant
                n == fed.len(),
                i <= n,
                fed == self.ships@,
                self.all_valid(),
                kept@ == drop_empty(fed.subrange(0, i as int)),
            decreases n - i,
        {
            proof {
                assert(fed.subrange(0, i as int + 1).drop_last() =~= fed.subrange(0, i as int));
                assert(fed.subrange(0, i as int + 1).last() == fed[i as int]);
            }
            if self.ships[i].counter != 0 {
                let sa = &self.ships[i].ship_average;
                let one = RepeatedShip {
                    ship_average: Ship {
                        template: sa.template.clone(),
                        fuel_units: sa.fuel_units,
                        hull_points: sa.hull_points,
                        shield_points: sa.shield_points,
                    },
                    counter: self.ships[i].counter,
                };
                proof {
                    assert(one == fed[i as int]);
                }
                kept.push(one);
            }
            i = i + 1;
        }
        proof {
            assert(fed.subrange(0, n as int) =~= fed);
            lemma_drop_empty_props(fed);
            if old(self).wf() {
                assert(forall|a: int, b: int|
                    0 <= a < b < fed.len() ==> !same_templ(#[trigger] fed[a], #[trigger] fed[b]));
                lemma_drop_empty_distinct(fed);
            }
        }
        self.ships = kept;
    }
}

/// A group's aggregates and a pool after the pool has been fed through the
/// aggregates from index `i` on, each consuming in turn; see
/// [`ShipGroup::resolve_attacks`].
pub ghost struct GroupsOutcome {
    /// The aggregates afterwards, in place (empty ones not yet dropped).
    pub ships: Seq<RepeatedShip>,
    /// The pool's entries afterwards.
    pub pool: Seq<TargetedAttack>,
}

/// Feeds the pool through the aggregates of `ships` from index `i` on: each
/// aggregate consumes via [`resolve_pool`] and passes the remainder on.
pub open spec fn feed_ships(
    ships: Seq<RepeatedShip>,
    i: int,
    pool: Seq<TargetedAttack>,
) -> GroupsOutcome
    decreases ships.len() - i,
{
    if i < 0 || i >= ships.len() {
        GroupsOutcome { ships, pool }
    } else {
        let rs = ships[i];
        let out = resolve_pool(
            rs.ship_average.templ().ship_size_class as int,
            pool,
            0,
            rs.ship_average.hull_points as int,
            rs.ship_average.shield_points as int,
            rs.counter as int,
        );
        let rs2 = RepeatedShip {
            ship_average: Ship {
                template: rs.ship_average.template,
                fuel_units: rs.ship_average.fuel_units,
                hull_points: out.hull as UInt,
                shield_points: out.shield as UInt,
            },
            counter: out.number as UInt,
        };
        feed_ships(ships.update(i, rs2), i + 1, out.pool)
    }
}

/// The aggregates that still have members, in order.
pub open spec fn drop_empty(s: Seq<RepeatedShip>) -> Seq<RepeatedShip>
    decreases s.len(),
{
    if s.len() == 0 {
        Seq::empty()
    } else if s.last().counter != 0 {
        drop_empty(s.drop_last()).push(s.last())
    } else {
        drop_empty(s.drop_last())
    }
}

/// Dropping empty aggregates keeps only live entries of the original, in the
/// original order.
pub proof fn lemma_drop_empty_props(s: Seq<RepeatedShip>)
    ensures
        forall|k: int|
            0 <= k < drop_empty(s).len() ==> exists|j: int|
                0 <= j < s.len() && #[trigger] drop_empty(s)[k] == s[j],
        forall|k: int| 0 <= k < drop_empty(s).len() ==> (#[trigger] drop_empty(s)[k]).counter > 0,
    decreases s.len(),
{
    if s.len() > 0 {
        let rest = s.drop_last();
        assert(forall|i: int| 0 <= i < rest.len() ==> #[trigger] rest[i] == s[i]);
        lemma_drop_empty_props(rest);
        let c = drop_empty(s);
        let cr = drop_empty(rest);
        assert forall|k: int| 0 <= k < c.len() implies exists|j: int|
            0 <= j < s.len() && #[trigger] c[k] == s[j] by {
            if s.last().counter != 0 && k == c.len() - 1 {
                assert(c[k] == s[s.len() - 1]);
            } else {
                assert(c[k] == cr[k]);
                let j = choose|j: int| 0 <= j < rest.len() && cr[k] == rest[j];
                assert(c[k] == s[j]);
            }
        }
        assert forall|k: int| 0 <= k < c.len() implies (#[trigger] c[k]).counter > 0 by {
            if !(s.last().counter != 0 && k == c.len() - 1) {
                assert(c[k] == cr[k]);
            }
        }
    }
}

/// Dropping empty aggregates keeps the remaining templates pairwise
/// distinct.
pub proof fn lemma_drop_empty_distinct(s: Seq<RepeatedShip>)
    requires
        forall|a: int, b: int| 0 <= a < b < s.len() ==> !same_templ(#[trigger] s[a], #[trigger] s[b]),
    ensures
        forall|a: int, b: int|
            0 <= a < b < drop_empty(s).len() ==> !same_templ(
                #[trigger] drop_empty(s)[a],
                #[trigger] drop_empty(s)[b],
            ),
    decreases s.len(),
{
    if s.len() > 0 {
        let rest = s.drop_last();
        assert(forall|i: int| 0 <= i < rest.len() ==> #[trigger] rest[i] == s[i]);
        lemma_drop_empty_distinct(rest);
        lemma_drop_empty_props(rest);
        let c = drop_empty(s);
        let cr = drop_empty(rest);
        assert forall|a: int, b: int| 0 <= a < b < c.len() implies !same_templ(
            #[trigger] c[a],
            #[trigger] c[b],
        ) by {
            if s.last().counter != 0 && b == c.len() - 1 {
                assert(c[a] == cr[a]);
                let j = choose|j: int| 0 <= j < rest.len() && cr[a] == rest[j];
                assert(!same_templ(s[j], s[s.len() - 1]));
            } else {
                assert(c[a] == cr[a] && c[b] == cr[b]);
            }
        }
    }
}

/// When no aggregate of template `t` is found from the front, no index holds
/// one.
proof fn lemma_find_template_absent(s: Seq<RepeatedShip>, t: ShipTemplate, i: int)
    requires
        0 <= i < s.len(),
        find_template(s, t, 0) == -1,
    ensures
        s[i].ship_average.templ() != t,
{
    lemma_find_template_absent_from(s, t, 0, i);
}

/// Helper for [`lemma_find_template_absent`]: scanning from `k` finds
/// nothing, so no index at or after `k` matches.
proof fn lemma_find_template_absent_from(s: Seq<RepeatedShip>, t: ShipTemplate, k: int, i: int)
    requires
        0 <= k <= i < s.len(),
        find_template(s, t, k) == -1,
    ensures
        s[i].ship_average.templ() != t,
    decreases i - k,
{
    if k < i {
        lemma_find_template_absent_from(s, t, k + 1, i);
    }
}


/// A fleet's group views and a pool after the pool has been fed through the
/// groups in order; see [`Fleet::resolve_attacks`].
pub ghost struct FleetOutcome {
    /// Each group's aggregates afterwards, front to back.
    pub groups: Seq<Seq<RepeatedShip>>,
    /// The pool's entries afterwards.
    pub pool: Seq<TargetedAttack>,
}

/// The aggregates of each group of a fleet, as sequences.
pub open spec fn views_of(gs: Seq<ShipGroup>) -> Seq<Seq<RepeatedShip>> {
    Seq::new(gs.len(), |i: int| gs[i].ships@)
}

/// Feeds the pool through the groups from index `i` on, front to back:
/// every group that still has ship types consumes via [`feed_ships`] and
/// drops its emptied aggregates, and whatever remains of the pool flows to
/// the next group.
pub open spec fn feed_groups(
    views: Seq<Seq<RepeatedShip>>,
    i: int,
    pool: Seq<TargetedAttack>,
) -> FleetOutcome
    decreases views.len() - i,
{
    if i < 0 || i >= views.len() {
        FleetOutcome { groups: views, pool }
    } else {
        let v = views[i];
        if v.len() == 0 {
            feed_groups(views, i + 1, pool)
        } else {
            let f = feed_ships(v, 0, pool);
            feed_groups(views.update(i, drop_empty(f.ships)), i + 1, f.pool)
        }
    }
}

/// A `Fleet` is an ordered sequence of ship groups; attacks are resolved on
/// each group in order, so groups further back are safer.
#[derive(Debug, PartialEq, Eq, Clone)]
pub struct Fleet {
    /// The groups, front first.
    pub groups: Vec<ShipGroup>,
}

impl Fleet {
    /// Every aggregate of every group satisfies the capacity relations.
    pub open spec fn all_valid(&self) -> bool {
        forall|i: int| 0 <= i < self.groups@.len() ==> (#[trigger] self.groups@[i]).all_valid()
    }

    /// Creates a new `Fleet` from its groups, in order.
    pub fn new(groups: Vec<ShipGroup>) -> (r: Self)
        ensures
            r == (Fleet { groups }),
    {
        Self { groups }
    }

    /// Resolves a pool of attacks against the groups in their stored order,
    /// threading the same pool through each, so that a group placed later
    /// only absorbs what the earlier groups failed to use; groups that are
    /// already empty are skipped.
    ///
    /// The new groups and pool are exactly those of [`feed_groups`].
    pub fn resolve_attacks(&mut self, attacks: &mut ReducedAttacks)
        requires
            old(self).all_valid(),
            old(attacks).wf(),
        ensures
            final(self).all_valid(),
            final(attacks).wf(),
            final(self).groups@.len() == old(self).groups@.len(),
            ({
                let f = feed_groups(views_of(old(self).groups@), 0, old(attacks)@);
                views_of(final(self).groups@) == f.groups && final(attacks)@ == f.pool
            }),
    {
        let ghost g0 = self.groups@;
        let ghost a0 = attacks@;
        let n = self.groups.len();
        let mut k: usize = 0;
        while k < n
            invariant
                n == g0.len(),
                k <= n,
                a0 == old(attacks)@,
                g0 == old(self).groups@,
                self.groups@.len() == n,
                self.all_valid(),
                attacks.wf(),
                feed_groups(views_of(g0), 0, a0) == feed_groups(
                    views_of(self.groups@),
                    k as int,
                    attacks@,
                ),
            decreases n - k,
        {
            let ghost before_groups = self.groups@;
            let ghost before_pool = attacks@;
            let g = &mut self.groups[k];
            let ghost gv0 = g.ships@;
            if g.types_count() != 0 {
                g.resolve_attacks(attacks);
                proof {
                    let g1 = self.groups@;
                    assert(g1 == before_groups.update(k as int, g1[k as int]));
                    let f = feed_ships(gv0, 0, before_pool);
                    assert(g1[k as int].ships@ == drop_empty(f.ships));
                    assert(views_of(g1) =~= views_of(before_groups).update(
                        k as int,
                        drop_empty(f.ships),
                    ));
                    assert(views_of(before_groups)[k as int] == gv0);
                    assert(feed_groups(views_of(before_groups), k as int, before_pool)
                        == feed_groups(views_of(g1), k as int + 1, attacks@));
                }
            } else {
                proof {
                    let g1 = self.groups@;
                    assert(g1 == before_groups.update(k as int, g1[k as int]));
                    assert(g1 =~= before_groups);
                    assert(views_of(before_groups)[k as int] == gv0);
                    assert(gv0.len() == 0);
                    assert(feed_groups(views_of(before_groups), k as int, before_pool)
                        == feed_groups(views_of(before_groups), k as int + 1, before_pool));
                }
            }
            k = k + 1;
        }
    }
}

/// An `AllignedFleet` is a [`Fleet`] together with the [`Faction`] it fights
/// for.
#[derive(Debug, Clone)]
pub struct AllignedFleet {
    /// The fleet itself.
    pub fleet: Fleet,
    /// The faction the fleet belongs to.
    pub faction: Faction,
}

impl AllignedFleet {
    /// Creates a new `AllignedFleet`.
    pub fn new(fleet: Fleet, faction: Faction) -> (r: Self)
        ensures
            r.fleet == fleet,
            r.faction == faction,
    {
        Self { fleet, faction }
    }

    /// Resolves a pool of attacks against this fleet; see
    /// [`Fleet::resolve_attacks`].
    pub fn resolve_attacks(&mut self, attacks: &mut ReducedAttacks)
        requires
            old(self).fleet.all_valid(),
            old(attacks).wf(),
        ensures
            final(self).fleet.all_valid(),
            final(self).faction == old(self).faction,
            final(attacks).wf(),
            final(self).fleet.groups@.len() == old(self).fleet.groups@.len(),
            ({
                let f = feed_groups(views_of(old(self).fleet.groups@), 0, old(attacks)@);
                views_of(final(self).fleet.groups@) == f.groups && final(attacks)@ == f.pool
            }),
    {
        self.fleet.resolve_attacks(attacks)
    }
}


/// Fleet ordering, end to end for a two-group fleet: when the pool's one
/// entry carries at least the front group's whole effective health
/// (hull plus shield summed over its count), and the excess is less than
/// one member of the back group, resolving leaves the front group
/// annihilated, while the back group keeps all its members and its summed
/// health drops by exactly the excess re-expressed as whole attacks --
/// short of the exact excess by less than one attack's damage.  The pool
/// leaves the fleet fully spent.
pub proof fn lemma_fleet_ordering(e: TargetedAttack, g1: RepeatedShip, g2: RepeatedShip)
    requires
        e.smallest_target <= g1.ship_average.templ().ship_size_class,
        e.smallest_target <= g2.ship_average.templ().ship_size_class,
        1 <= e.attack.damage_per_attack,
        1 <= g1.counter,
        1 <= g2.counter,
        1 <= g1.ship_average.hull_points,
        1 <= g2.ship_average.hull_points,
        g1.counter * (g1.ship_average.hull_points + g1.ship_average.shield_points)
            <= e.attack.parallel_attacks * e.attack.damage_per_attack,
        e.attack.parallel_attacks * e.attack.damage_per_attack <= UINT_MAX,
        e.attack.parallel_attacks * e.attack.damage_per_attack - g1.counter * (
        g1.ship_average.hull_points + g1.ship_average.shield_points)
            < g2.ship_average.hull_points + g2.ship_average.shield_points,
    ensures
        ({
            let d = e.attack.damage_per_attack as int;
            let total = e.attack.parallel_attacks * e.attack.damage_per_attack;
            let h1 = g1.ship_average.hull_points as int;
            let s1 = g1.ship_average.shield_points as int;
            let h2 = g2.ship_average.hull_points as int;
            let s2 = g2.ship_average.shield_points as int;
            let n2 = g2.counter as int;
            let excess = total - g1.counter * (h1 + s1);
            let passed = (excess / d) * d;
            let o2 = group_outcome(h2, s2, n2, passed);
            let f = feed_groups(seq![seq![g1], seq![g2]], 0, seq![e]);
            &&& f.groups.len() == 2
            &&& f.groups[0] == Seq::<RepeatedShip>::empty()
            &&& f.groups[1].len() == 1
            &&& f.groups[1][0].counter == g2.counter
            &&& f.groups[1][0].ship_average.template == g2.ship_average.template
            &&& f.groups[1][0].ship_average.fuel_units == g2.ship_average.fuel_units
            &&& (o2.rem_hull + h2 * o2.unattacked) + (o2.rem_shield + s2 * o2.unattacked) == n2 * (
            h2 + s2) - passed
            &&& f.groups[1][0].ship_average.hull_points == ((o2.rem_hull + h2 * o2.unattacked)
                / n2) as UInt
            &&& f.groups[1][0].ship_average.shield_points == ((o2.rem_shield + s2 * o2.unattacked)
                / n2) as UInt
            &&& excess - d < passed <= excess
            &&& f.pool.len() == 1
            &&& f.pool[0].attack.parallel_attacks == 0
        }),
{
    let d = e.attack.damage_per_attack as int;
    let total = e.attack.parallel_attacks * e.attack.damage_per_attack;
    let h1 = g1.ship_average.hull_points as int;
    let s1 = g1.ship_average.shield_points as int;
    let sc1 = g1.ship_average.templ().ship_size_class as int;
    let h2 = g2.ship_average.hull_points as int;
    let s2 = g2.ship_average.shield_points as int;
    let sc2 = g2.ship_average.templ().ship_size_class as int;
    let n1 = g1.counter as int;
    let n2 = g2.counter as int;
    let excess = total - n1 * (h1 + s1);
    let q = excess / d;
    let passed = q * d;
    let views = seq![seq![g1], seq![g2]];
    let pool0 = seq![e];

    // The front group is annihilated and rewrites the entry to the excess.
    crate::reduced_ship::lemma_pool_overkill(e, sc1, h1, s1, n1);
    crate::reduced_ship::lemma_group_overkill(h1, s1, n1, total);
    let out1 = resolve_pool(sc1, pool0, 0, h1, s1, n1);
    let a1 = crate::reduced_ship::group_apply(h1, s1, n1, total);
    assert(a1.number == 0);
    assert(a1.leftover == total - n1 * (h1 + s1));
    let e2v = TargetedAttack {
        attack: Attack {
            parallel_attacks: (a1.leftover / (e.attack.damage_per_attack as int)) as UInt,
            damage_per_attack: e.attack.damage_per_attack,
        },
        smallest_target: e.smallest_target,
    };
    let pool1 = pool0.update(0, e2v);
    assert(resolve_pool(sc1, pool0, 0, h1, s1, n1) == resolve_pool(
        sc1,
        pool1,
        1,
        a1.hull,
        a1.shield,
        a1.number,
    ));
    assert(resolve_pool(sc1, pool1, 1, a1.hull, a1.shield, a1.number) == (PoolOutcome {
        pool: pool1,
        hull: a1.hull,
        shield: a1.shield,
        number: a1.number,
    }));
    assert(out1.pool == pool1);
    assert(out1.hull == a1.hull && out1.shield == a1.shield && out1.number == 0);
    let rs1 = RepeatedShip {
        ship_average: Ship {
            template: g1.ship_average.template,
            fuel_units: g1.ship_average.fuel_units,
            hull_points: a1.hull as UInt,
            shield_points: a1.shield as UInt,
        },
        counter: 0 as UInt,
    };
    let ships1 = seq![g1].update(0, rs1);
    assert(feed_ships(seq![g1], 0, pool0) == feed_ships(ships1, 1, out1.pool));
    assert(feed_ships(ships1, 1, out1.pool) == (GroupsOutcome { ships: ships1, pool: out1.pool }));
    assert(drop_empty(ships1) =~= Seq::<RepeatedShip>::empty()) by {
        assert(ships1.last() == rs1);
        assert(ships1.drop_last() =~= Seq::<RepeatedShip>::empty());
        assert(drop_empty(Seq::<RepeatedShip>::empty()) == Seq::<RepeatedShip>::empty());
    }
    let views1 = views.update(0, drop_empty(ships1));
    assert(feed_groups(views, 0, pool0) == feed_groups(views1, 1, out1.pool));

    // What the entry now carries.
    let e2 = out1.pool[0];
    assert(out1.pool.len() == 1);
    assert(e2.attack.damage_per_attack == e.attack.damage_per_attack);
    assert(e2.smallest_target == e.smallest_target);
    assert(e2.attack.parallel_attacks == q);
    lemma_div_pos_is_pos(excess, d);
    lemma_div_is_ordered_by_denominator(excess, 1, d);
    assert(q <= excess) by {
        lemma_div_multiples_vanish(excess, 1);
        assert(1 * excess == excess);
    }
    assert(e2.attack.parallel_attacks * e2.attack.damage_per_attack == passed);

    // The back group keeps its members and absorbs the excess exactly.
    assert(views1[1] =~= seq![g2]);
    let out2 = resolve_pool(sc2, out1.pool, 0, h2, s2, n2);
    let a2 = crate::reduced_ship::group_apply(h2, s2, n2, passed);
    let o2 = group_outcome(h2, s2, n2, passed);
    assert(passed <= excess && excess - d < passed) by {
        vstd::arithmetic::div_mod::lemma_fundamental_div_mod(excess, d);
        vstd::arithmetic::div_mod::lemma_mod_division_less_than_divisor(excess, d);
        assert(d * q == q * d) by (nonlinear_arith);
    }
    if passed == 0 {
        assert(min(n2, 0) == 0);
        assert(o2 == (GroupOutcome {
            rem_hull: 0int,
            rem_shield: 0int,
            number: n2,
            damage: 0int,
            unattacked: n2,
        }));
    } else {
        assert(min(n2, passed) > 0);
        crate::reduced_ship::lemma_group_loop_absorbed(
            h2,
            s2,
            n2,
            passed,
            min(n2, passed),
            n2,
            0,
            0,
        );
        crate::reduced_ship::lemma_group_loop_conservation(
            h2,
            s2,
            n2,
            passed,
            min(n2, passed),
            n2,
            0,
            0,
        );
    }
    assert(o2.number == n2 && o2.damage == 0);
    assert(o2.rem_hull + o2.rem_shield + o2.unattacked * (h2 + s2) == n2 * (h2 + s2) - passed);
    assert(h2 * o2.unattacked + s2 * o2.unattacked == o2.unattacked * (h2 + s2))
        by (nonlinear_arith);
    assert(a2.number == n2 && a2.leftover == 0);
    let e3 = TargetedAttack {
        attack: Attack {
            parallel_attacks: (0int / (e2.attack.damage_per_attack as int)) as UInt,
            damage_per_attack: e2.attack.damage_per_attack,
        },
        smallest_target: e2.smallest_target,
    };
    assert(e3.attack.parallel_attacks == 0) by {
        lemma_div_of0(e2.attack.damage_per_attack as int);
    }
    let rs2 = RepeatedShip {
        ship_average: Ship {
            template: g2.ship_average.template,
            fuel_units: g2.ship_average.fuel_units,
            hull_points: a2.hull as UInt,
            shield_points: a2.shield as UInt,
        },
        counter: a2.number as UInt,
    };
    let pool2 = out1.pool.update(0, e3);
    assert(resolve_pool(sc2, out1.pool, 0, h2, s2, n2) == resolve_pool(
        sc2,
        pool2,
        1,
        a2.hull,
        a2.shield,
        a2.number,
    ));
    assert(out2 == (PoolOutcome { pool: pool2, hull: a2.hull, shield: a2.shield, number: n2 }));
    let ships2 = seq![g2].update(0, rs2);
    assert(feed_ships(views1[1], 0, out1.pool) == feed_ships(ships2, 1, pool2));
    assert(feed_ships(ships2, 1, pool2) == (GroupsOutcome { ships: ships2, pool: pool2 }));
    assert(drop_empty(ships2) =~= ships2) by {
        assert(ships2.last() == rs2);
        assert(rs2.counter != 0);
        assert(ships2.drop_last() =~= Seq::<RepeatedShip>::empty());
        assert(drop_empty(Seq::<RepeatedShip>::empty()) == Seq::<RepeatedShip>::empty());
        assert(drop_empty(ships2) =~= drop_empty(Seq::<RepeatedShip>::empty()).push(rs2));
    }
    let views2 = views1.update(1, drop_empty(ships2));
    assert(feed_groups(views1, 1, out1.pool) == feed_groups(views2, 2, pool2));
    assert(feed_groups(views2, 2, pool2) == (FleetOutcome { groups: views2, pool: pool2 }));
    assert(views2.len() == 2);
    assert(views2[0] =~= Seq::<RepeatedShip>::empty());
    assert(views2[1] =~= ships2);
    assert(ships2[0] == rs2);
    assert(pool2.len() == 1 && pool2[0] == e3);
}


/// Feeding the pool through the groups from index `i` on leaves the groups
/// before `i`, and the group count, untouched.
proof fn lemma_feed_groups_prefix(
    views: Seq<Seq<RepeatedShip>>,
    i: int,
    pool: Seq<TargetedAttack>,
    j: int,
)
    requires
        0 <= j < i,
        j < views.len(),
    ensures
        feed_groups(views, i, pool).groups.len() == views.len(),
        feed_groups(views, i, pool).groups[j] == views[j],
    decreases views.len() - i,
{
    if 0 <= i < views.len() {
        let v = views[i];
        if v.len() == 0 {
            lemma_feed_groups_prefix(views, i + 1, pool, j);
        } else {
            let f = feed_ships(v, 0, pool);
            lemma_feed_groups_prefix(views.update(i, drop_empty(f.ships)), i + 1, f.pool, j);
        }
    }
}

/// Fleet ordering, front half, for any pool and any fleet: when the pool's
/// eligible damage covers the whole effective health of the fleet's front
/// group, resolving annihilates that group, whatever stands behind it.
pub proof fn lemma_fleet_front_overwhelmed(
    views: Seq<Seq<RepeatedShip>>,
    pool: Seq<TargetedAttack>,
    g: RepeatedShip,
)
    requires
        views.len() >= 1,
        views[0] == seq![g],
        1 <= g.ship_average.hull_points,
        g.counter * (g.ship_average.hull_points + g.ship_average.shield_points)
            <= crate::reduced_ship::pool_eligible_damage(
            g.ship_average.templ().ship_size_class as int,
            pool,
            0,
        ),
    ensures
        feed_groups(views, 0, pool).groups.len() == views.len(),
        feed_groups(views, 0, pool).groups[0] == Seq::<RepeatedShip>::empty(),
{
    let sc = g.ship_average.templ().ship_size_class as int;
    let h = g.ship_average.hull_points as int;
    let sgm = g.ship_average.shield_points as int;
    let n = g.counter as int;
    crate::reduced_ship::lemma_pool_overwhelms(sc, pool, 0, h, sgm, n);
    let out = resolve_pool(sc, pool, 0, h, sgm, n);
    assert(out.number == 0);
    let rs2 = RepeatedShip {
        ship_average: Ship {
            template: g.ship_average.template,
            fuel_units: g.ship_average.fuel_units,
            hull_points: out.hull as UInt,
            shield_points: out.shield as UInt,
        },
        counter: out.number as UInt,
    };
    let ships1 = seq![g].update(0, rs2);
    assert(feed_ships(seq![g], 0, pool) == feed_ships(ships1, 1, out.pool));
    assert(feed_ships(ships1, 1, out.pool) == (GroupsOutcome { ships: ships1, pool: out.pool }));
    assert(drop_empty(ships1) =~= Seq::<RepeatedShip>::empty()) by {
        assert(ships1.last() == rs2);
        assert(rs2.counter == 0);
        assert(ships1.drop_last() =~= Seq::<RepeatedShip>::empty());
        assert(drop_empty(Seq::<RepeatedShip>::empty()) == Seq::<RepeatedShip>::empty());
    }
    let views1 = views.update(0, drop_empty(ships1));
    assert(views[0].len() == 1);
    assert(feed_groups(views, 0, pool) == feed_groups(views1, 1, out.pool));
    if views.len() > 1 {
        lemma_feed_groups_prefix(views1, 1, out.pool, 0);
    } else {
        assert(feed_groups(views1, 1, out.pool) == (FleetOutcome {
            groups: views1,
            pool: out.pool,
        }));
    }
}

} // verus!
