//! A single weapon: its smallest target, damage per attack, and number of
//! simultaneous attacks.

use vstd::prelude::*;
use vstd::arithmetic::div_mod::{
    lemma_div_pos_is_pos, lemma_fundamental_div_mod, lemma_mod_division_less_than_divisor,
};
use vstd::string::StringExecFns;
use crate::properties::{Properties, PropertyPairs};
use crate::text::{dec_digits, lemma_dec_roundtrip, parse_dec, parse_u32, u32_to_string};
use crate::weapons::distributed_damage::DistributedDamage;
use crate::weapons::targeted_damage::TargetedDamage;
use crate::weapons::weapon_error::WeaponError;
use crate::{AttackProjectile, DamagePoint, ShipSize, UInt, UINT_MAX};

verus! {

/// A `DistinctWeapon` is one weapon: the smallest target it can attack, the
/// damage of each attack, and the number of attacks produced at once.
///
/// A weapon with zero damage or zero attacks is malformed;
/// [`DistinctWeapon::new`] refuses either.
#[derive(Debug, PartialEq, Eq, Clone, Copy, Structural)]
pub struct DistinctWeapon {
    /// The smallest size of target this weapon can attack.
    pub target_size: ShipSize,
    /// The points of damage each attack deals.
    pub damage_per_attack: DamagePoint,
    /// The number of attacks produced at once.
    pub simultainious_attacks: AttackProjectile,
}

impl DistinctWeapon {
    /// Builds a `DistinctWeapon` without checks; the checked entry point is
    /// [`DistinctWeapon::new`].
    pub fn from_parts(
        target_size: UInt,
        damage_per_attack: UInt,
        simultainious_attacks: UInt,
    ) -> (r: Self)
        ensures
            r == (DistinctWeapon { target_size, damage_per_attack, simultainious_attacks }),
    {
        DistinctWeapon { target_size, damage_per_attack, simultainious_attacks }
    }

    /// Builds a `DistinctWeapon`, refusing one that deals zero damage or
    /// produces zero attacks.
    pub fn new(target_size: UInt, damage_per_attack: UInt, simultainious_attacks: UInt) -> (r:
        Result<Self, WeaponError>)
        ensures
            damage_per_attack == 0 ==> r == Err::<Self, WeaponError>(WeaponError::DamageError),
            damage_per_attack > 0 && simultainious_attacks == 0 ==> r == Err::<Self, WeaponError>(
                WeaponError::AttacksError,
            ),
            damage_per_attack > 0 && simultainious_attacks > 0 ==> r == Ok::<Self, WeaponError>(
                DistinctWeapon { target_size, damage_per_attack, simultainious_attacks },
            ),
    {
        if damage_per_attack == 0 {
            Err(WeaponError::DamageError)
        } else if simultainious_attacks == 0 {
            Err(WeaponError::AttacksError)
        } else {
            Ok(Self::from_parts(target_size, damage_per_attack, simultainious_attacks))
        }
    }

    /// Reads a weapon from a flat key/value record; see
    /// [`weapon_from_props`] for which records are accepted.
    pub fn from_properties(props: &PropertyPairs) -> (r: Result<Self, WeaponError>)
        requires
            props.wf(),
        ensures
            r == weapon_from_props(props@),
    {
        let ts_key = String::from_str("target_size");
        let target_size = match props.get(&ts_key) {
            None => {
                return Err(WeaponError::TargetError);
            },
            Some(v) => match parse_u32(v.as_str()) {
                None => {
                    return Err(WeaponError::TargetError);
                },
                Some(x) => x,
            },
        };
        let dmg_key = String::from_str("damage_per_attack");
        let damage_per_attack = match props.get(&dmg_key) {
            None => {
                return Err(WeaponError::TargetError);
            },
            Some(v) => match parse_u32(v.as_str()) {
                None => {
                    return Err(WeaponError::TargetError);
                },
                Some(x) => x,
            },
        };
        let sim_key = String::from_str("simultainious_attacks");
        let simultainious_attacks = match props.get(&sim_key) {
            None => {
                return Err(WeaponError::TargetError);
            },
            Some(v) => match parse_u32(v.as_str()) {
                None => {
                    return Err(WeaponError::TargetError);
                },
                Some(x) => x,
            },
        };
        Self::new(target_size, damage_per_attack, simultainious_attacks)
    }

    /// Writes this weapon as a flat key/value record; see [`weapon_props`].
    pub fn into_properties(&self) -> (r: Properties)
        ensures
            r.props@ == weapon_props(*self),
            r.props.wf(),
    {
        let mut props = PropertyPairs::with_capacity(3);
        props.insert(String::from_str("target_size"), u32_to_string(self.target_size));
        props.insert(
            String::from_str("damage_per_attack"),
            u32_to_string(self.damage_per_attack),
        );
        props.insert(
            String::from_str("simultainious_attacks"),
            u32_to_string(self.simultainious_attacks),
        );
        Properties { props }
    }

    /// Decides whether the two weapons target the same smallest size.
    pub fn same_target(left: &Self, right: &Self) -> (r: bool)
        ensures
            r == (left.target_size == right.target_size),
    {
        left.target_size == right.target_size
    }

    /// Folds `other`, which must target the same size, into this weapon:
    /// the attacks are summed and the damage becomes the average damage per
    /// attack of the two; see [`fold_weapons`].  Returns whether the fold
    /// took place; a weapon of another target is left unmerged.
    pub fn fold(&mut self, other: &Self) -> (r: bool)
        requires
            old(self).target_size == other.target_size ==> ({
                &&& old(self).simultainious_attacks + other.simultainious_attacks >= 1
                &&& old(self).simultainious_attacks + other.simultainious_attacks <= UINT_MAX
                &&& old(self).damage_per_attack * old(self).simultainious_attacks
                    + other.damage_per_attack * other.simultainious_attacks <= UINT_MAX
            }),
        ensures
            old(self).target_size == other.target_size ==> r == true && *final(self)
                == fold_weapons(*old(self), *other),
            old(self).target_size != other.target_size ==> r == false && *final(self) == *old(self),
    {
        if self.target_size != other.target_size {
            false
        } else {
            proof {
                assert(self.damage_per_attack * self.simultainious_attacks >= 0)
                    by (nonlinear_arith);
                assert(other.damage_per_attack * other.simultainious_attacks >= 0)
                    by (nonlinear_arith);
                assert(other.simultainious_attacks * other.damage_per_attack
                    == other.damage_per_attack * other.simultainious_attacks) by (nonlinear_arith);
            }
            self.damage_per_attack = self.damage_per_attack * self.simultainious_attacks;
            self.simultainious_attacks = self.simultainious_attacks + other.simultainious_attacks;
            self.damage_per_attack = (other.simultainious_attacks * other.damage_per_attack
                + self.damage_per_attack) / self.simultainious_attacks;
            true
        }
    }

    /// Distributes this weapon's attacks over the eligible targets (those at
    /// least as large as this weapon's smallest target), adding damage in
    /// proportion to each entry's number of targets; see [`dw_distribute`].
    pub fn distribute_attacks(&self, targets: &mut Vec<DistributedDamage>)
        requires
            self.damage_per_attack * self.simultainious_attacks <= UINT_MAX,
            eligible_targets(*self, old(targets)@, 0) <= UINT_MAX,
            forall|j: int|
                0 <= j < old(targets)@.len() && (#[trigger] old(targets)@[j]).damage.target_size
                    >= self.target_size ==> old(targets)@[j].targets >= 1 && old(targets)@[j].damage.damage + self.damage_per_attack * self.simultainious_attacks
                    <= UINT_MAX,
        ensures
            final(targets)@ == dw_distribute(*self, old(targets)@),
            final(targets)@.len() == old(targets)@.len(),
            forall|j: int|
                0 <= j < old(targets)@.len() ==> (#[trigger] final(targets)@[j]).targets == old(targets)@[j].targets && final(targets)@[j].damage.target_size == old(targets)@[j].damage.target_size && old(targets)@[j].damage.damage <= final(targets)@[j].damage.damage <= old(targets)@[j].damage.damage + self.damage_per_attack
                    * self.simultainious_attacks,
    {
        let ghost s0 = targets@;
        let ghost w = *self;
        let n = targets.len();
        let mut total_targets: UInt = 0;
        let mut k: usize = n;
        // Count the eligible targets from the back, matching the suffix sums
        // of the specification.
        while k > 0
            invariant
                n == s0.len(),
                k <= n,
                s0 == targets@,
                eligible_targets(w, s0, 0) <= UINT_MAX,
                w == *self,
                total_targets == eligible_targets(w, s0, k as int),
            decreases k,
        {
            k = k - 1;
            proof {
                lemma_eligible_targets_bounds(w, s0, k as int);
                lemma_eligible_suffix_le(w, s0, 0, k as int);
            }
            if targets[k].damage.target_size >= self.target_size {
                total_targets = total_targets + targets[k].targets;
            }
        }
        if total_targets != 0 {
            let mut attacks_to_distribute = self.simultainious_attacks;
            let mut i: usize = 0;
            while i < n && attacks_to_distribute > 0
                invariant
                    n == targets@.len(),
                    n == s0.len(),
                    i <= n,
                    w == *self,
                    attacks_to_distribute <= w.simultainious_attacks,
                    w.damage_per_attack * w.simultainious_attacks <= UINT_MAX,
                    eligible_targets(w, s0, 0) <= UINT_MAX,
                    forall|j: int|
                        0 <= j < n ==> (#[trigger] targets@[j]).targets == s0[j].targets
                            && targets@[j].damage.target_size == s0[j].damage.target_size
                            && s0[j].damage.damage <= targets@[j].damage.damage <= s0[j].damage.damage
                            + w.damage_per_attack * w.simultainious_attacks,
                    forall|j: int|
                        0 <= j < s0.len() && (#[trigger] s0[j]).damage.target_size
                            >= w.target_size ==> s0[j].targets >= 1 && s0[j].damage.damage
                            + w.damage_per_attack * w.simultainious_attacks <= UINT_MAX,
                    forall|j: int| i <= j < n ==> #[trigger] targets@[j] == s0[j],
                    dw_loop(w, s0, 0, w.simultainious_attacks as int) == dw_loop(
                        w,
                        targets@,
                        i as int,
                        attacks_to_distribute as int,
                    ),
                decreases n - i,
            {
                let ghost before = targets@;
                let ghost atd0 = attacks_to_distribute as int;
                if targets[i].damage.target_size >= self.target_size {
                    proof {
                        lemma_eligible_targets_same(w, targets@, s0, 0);
                    }
                    let tt = suffix_targets(self, targets, i);
                    let ghost ttg = tt as int;
                    proof {
                        lemma_eligible_targets_bounds(w, before, i as int);
                        lemma_eligible_targets_same(w, before, s0, i as int);
                        lemma_eligible_targets_same(w, before, s0, i as int + 1);
                        assert(tt >= 1);
                        let q = atd0 / ttg;
                        lemma_fundamental_div_mod(atd0, ttg);
                        lemma_mod_division_less_than_divisor(atd0, ttg);
                        lemma_div_pos_is_pos(atd0, ttg);
                        assert(before[i as int].targets <= ttg) by {
                            lemma_eligible_targets_bounds(w, s0, i as int);
                        }
                        assert(q * before[i as int].targets <= q * ttg) by (nonlinear_arith)
                            requires
                                before[i as int].targets <= ttg,
                                q >= 0,
                        ;
                        assert(q * ttg == ttg * q) by (nonlinear_arith);
                    }
                    let attacks = attacks_to_distribute / tt * targets[i].targets;
                    proof {
                        let q = atd0 / ttg;
                        assert(attacks as int == q * before[i as int].targets);
                        assert(attacks <= atd0);
                        assert(w.damage_per_attack * attacks <= w.damage_per_attack
                            * w.simultainious_attacks) by (nonlinear_arith)
                            requires
                                attacks <= w.simultainious_attacks,
                                w.damage_per_attack >= 0,
                                attacks >= 0,
                        ;
                    }
                    let added = self.damage_per_attack * attacks;
                    let old_damage = targets[i].damage.damage;
                    targets[i].damage.damage = old_damage + added;
                    attacks_to_distribute = attacks_to_distribute - attacks;
                    proof {
                        let s1 = targets@;
                        assert(s1 == before.update(i as int, s1[i as int]));
                        assert(dw_loop(w, before, i as int, atd0) == dw_loop(
                            w,
                            s1,
                            i as int + 1,
                            attacks_to_distribute as int,
                        )) by {
                            lemma_eligible_targets_same(w, before, s0, i as int);
                            if attacks_to_distribute == 0 {
                                lemma_dw_loop_spent(w, s1, i as int + 1);
                            }
                        }
                    }
                } else {
                    proof {
                        assert(dw_loop(w, before, i as int, atd0) == dw_loop(
                            w,
                            before,
                            i as int + 1,
                            atd0,
                        ));
                    }
                }
                i = i + 1;
            }
            proof {
                if attacks_to_distribute > 0 {
                    assert(i == n);
                }
                if attacks_to_distribute == 0 {
                    lemma_dw_loop_spent(w, targets@, i as int);
                }
                assert(targets@ == dw_loop(w, s0, 0, w.simultainious_attacks as int).targets);
                assert(eligible_targets(w, s0, 0) != 0);
            }
        } else {
            proof {
                assert(targets@ == dw_distribute(w, s0));
            }
        }
    }
}

/// The result of folding one weapon into another of the same target: the
/// attacks are summed, and the damage per attack becomes the combined total
/// damage divided by the combined attacks.
pub open spec fn fold_weapons(a: DistinctWeapon, b: DistinctWeapon) -> DistinctWeapon {
    let sim = a.simultainious_attacks + b.simultainious_attacks;
    DistinctWeapon {
        target_size: a.target_size,
        damage_per_attack: ((b.damage_per_attack * b.simultainious_attacks + a.damage_per_attack
            * a.simultainious_attacks) / sim) as UInt,
        simultainious_attacks: sim as UInt,
    }
}

/// The entry at `j` may be hit by the weapon `w`.
pub open spec fn dw_eligible(w: DistinctWeapon, d: DistributedDamage) -> bool {
    d.damage.target_size >= w.target_size
}

/// The number of eligible targets from index `i` on.
pub open spec fn eligible_targets(w: DistinctWeapon, s: Seq<DistributedDamage>, i: int) -> int
    decreases s.len() - i,
{
    if i < 0 || i >= s.len() {
        0
    } else {
        (if dw_eligible(w, s[i]) {
            s[i].targets as int
        } else {
            0
        }) + eligible_targets(w, s, i + 1)
    }
}

/// Suffix counts are nonnegative and shrink as the start index grows.
pub proof fn lemma_eligible_targets_bounds(w: DistinctWeapon, s: Seq<DistributedDamage>, i: int)
    ensures
        0 <= eligible_targets(w, s, i + 1),
        eligible_targets(w, s, i + 1) <= eligible_targets(w, s, i) || i < 0 || i >= s.len(),
        0 <= eligible_targets(w, s, i),
    decreases s.len() - i,
{
    if i < s.len() {
        lemma_eligible_targets_bounds(w, s, i + 1);
    }
}

/// Eligibility counts ignore the damage fields, so two sequences that agree
/// on targets and sizes have the same counts.
proof fn lemma_eligible_targets_same(
    w: DistinctWeapon,
    s1: Seq<DistributedDamage>,
    s2: Seq<DistributedDamage>,
    i: int,
)
    requires
        s1.len() == s2.len(),
        forall|j: int|
            0 <= j < s1.len() ==> (#[trigger] s1[j]).targets == s2[j].targets
                && s1[j].damage.target_size == s2[j].damage.target_size,
    ensures
        eligible_targets(w, s1, i) == eligible_targets(w, s2, i),
    decreases s1.len() - i,
{
    if 0 <= i < s1.len() {
        lemma_eligible_targets_same(w, s1, s2, i + 1);
    }
}

/// The distribution loop: each eligible entry takes `attacks / remaining
/// eligible targets` attacks per target, and the loop stops when the attacks
/// are spent or the entries end.
pub open spec fn dw_loop(
    w: DistinctWeapon,
    s: Seq<DistributedDamage>,
    i: int,
    atd: int,
) -> DistributeOutcome
    decreases s.len() - i,
{
    if i < 0 || i >= s.len() || atd <= 0 {
        DistributeOutcome { targets: s, attacks_left: atd }
    } else if !dw_eligible(w, s[i]) {
        dw_loop(w, s, i + 1, atd)
    } else {
        let tt = eligible_targets(w, s, i);
        let attacks = atd / tt * s[i].targets;
        let s2 = s.update(
            i,
            DistributedDamage {
                damage: TargetedDamage {
                    target_size: s[i].damage.target_size,
                    damage: (s[i].damage.damage + w.damage_per_attack * attacks) as UInt,
                },
                targets: s[i].targets,
            },
        );
        dw_loop(w, s2, i + 1, atd - attacks)
    }
}

/// Where the distribution loop ends: the entries with their added damage,
/// and the attacks that were never distributed.
pub ghost struct DistributeOutcome {
    /// The entries after distribution.
    pub targets: Seq<DistributedDamage>,
    /// The attacks left undistributed.
    pub attacks_left: int,
}

/// A spent loop changes nothing.
proof fn lemma_dw_loop_spent(w: DistinctWeapon, s: Seq<DistributedDamage>, i: int)
    ensures
        dw_loop(w, s, i, 0) == (DistributeOutcome { targets: s, attacks_left: 0 }),
    decreases s.len() - i,
{
}

/// What distributing a weapon's attacks does to the entries: nothing when
/// no target is eligible, otherwise the result of [`dw_loop`] over the whole
/// sequence with all the weapon's simultaneous attacks.
pub open spec fn dw_distribute(w: DistinctWeapon, s: Seq<DistributedDamage>) -> Seq<
    DistributedDamage,
> {
    if eligible_targets(w, s, 0) == 0 {
        s
    } else {
        dw_loop(w, s, 0, w.simultainious_attacks as int).targets
    }
}

/// The number of eligible targets from index `i` on, computed so the
/// division of attacks can use it.
fn suffix_targets(w: &DistinctWeapon, targets: &Vec<DistributedDamage>, i: usize) -> (r: UInt)
    requires
        i <= targets@.len(),
        eligible_targets(*w, targets@, 0) <= UINT_MAX,
    ensures
        r == eligible_targets(*w, targets@, i as int),
{
    let ghost s = targets@;
    let n = targets.len();
    let mut total: UInt = 0;
    let mut k: usize = n;
    proof {
        lemma_eligible_suffix_le(*w, s, 0, i as int);
    }
    while k > i
        invariant
            n == s.len(),
            i <= k <= n,
            s == targets@,
            eligible_targets(*w, s, i as int) <= UINT_MAX,
            total == eligible_targets(*w, s, k as int),
        decreases k,
    {
        k = k - 1;
        proof {
            lemma_eligible_targets_bounds(*w, s, k as int);
            lemma_eligible_suffix_le(*w, s, i as int, k as int);
        }
        if targets[k].damage.target_size >= w.target_size {
            total = total + targets[k].targets;
        }
    }
    total
}

/// A later suffix counts no more targets than an earlier one.
proof fn lemma_eligible_suffix_le(w: DistinctWeapon, s: Seq<DistributedDamage>, i: int, k: int)
    requires
        0 <= i <= k,
    ensures
        eligible_targets(w, s, k) <= eligible_targets(w, s, i),
    decreases k - i,
{
    if i < k {
        lemma_eligible_suffix_le(w, s, i + 1, k);
        lemma_eligible_targets_bounds(w, s, i);
    }
}


/// The record a weapon is written as: its three fields as decimal text
/// under fixed keys.
pub open spec fn weapon_props(w: DistinctWeapon) -> Map<Seq<char>, Seq<char>> {
    Map::empty().insert("target_size"@, dec_digits(w.target_size as int)).insert(
        "damage_per_attack"@,
        dec_digits(w.damage_per_attack as int),
    ).insert("simultainious_attacks"@, dec_digits(w.simultainious_attacks as int))
}

/// The weapon a flat record is read back as: a missing or unreadable field
/// refuses the record, and the checks of [`DistinctWeapon::new`] then apply.
pub open spec fn weapon_from_props(m: Map<Seq<char>, Seq<char>>) -> Result<
    DistinctWeapon,
    WeaponError,
> {
    if !m.contains_key("target_size"@) || parse_dec(m["target_size"@]) is None {
        Err(WeaponError::TargetError)
    } else if !m.contains_key("damage_per_attack"@) || parse_dec(m["damage_per_attack"@])
        is None {
        Err(WeaponError::TargetError)
    } else if !m.contains_key("simultainious_attacks"@) || parse_dec(
        m["simultainious_attacks"@],
    ) is None {
        Err(WeaponError::TargetError)
    } else {
        let target_size = parse_dec(m["target_size"@])->Some_0;
        let damage_per_attack = parse_dec(m["damage_per_attack"@])->Some_0;
        let simultainious_attacks = parse_dec(m["simultainious_attacks"@])->Some_0;
        if damage_per_attack == 0 {
            Err(WeaponError::DamageError)
        } else if simultainious_attacks == 0 {
            Err(WeaponError::AttacksError)
        } else {
            Ok(DistinctWeapon { target_size, damage_per_attack, simultainious_attacks })
        }
    }
}

/// Weapon descriptors survive the round trip through a flat record: reading
/// back the record written for a well-formed weapon yields the weapon
/// unchanged.
pub proof fn lemma_weapon_props_roundtrip(w: DistinctWeapon)
    requires
        w.damage_per_attack > 0,
        w.simultainious_attacks > 0,
    ensures
        weapon_from_props(weapon_props(w)) == Ok::<DistinctWeapon, WeaponError>(w),
{
    reveal_strlit("target_size");
    reveal_strlit("damage_per_attack");
    reveal_strlit("simultainious_attacks");
    assert("target_size"@.len() == 11);
    assert("damage_per_attack"@.len() == 17);
    assert("simultainious_attacks"@.len() == 21);
    lemma_dec_roundtrip(w.target_size as int);
    lemma_dec_roundtrip(w.damage_per_attack as int);
    lemma_dec_roundtrip(w.simultainious_attacks as int);
}

} // verus!
