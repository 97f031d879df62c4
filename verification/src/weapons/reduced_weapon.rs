//! A deduplicated set of weapons acting together: at most one weapon per
//! target size, each dealing positive damage and attacks.

use vstd::prelude::*;
use crate::weapons::distinct_weapon::{
    dw_distribute, eligible_targets, fold_weapons, DistinctWeapon,
};
use crate::weapons::distributed_damage::DistributedDamage;
use crate::weapons::weapon_error::WeaponError;
use crate::{UInt, UINT_MAX};

verus! {

/// The weapons are pairwise of distinct target sizes, and none deals zero
/// damage or zero attacks; the arithmetic of each fits.
pub open spec fn weapons_wf(s: Seq<DistinctWeapon>) -> bool {
    &&& forall|i: int, j: int|
        0 <= i < j < s.len() ==> (#[trigger] s[i]).target_size != (#[trigger] s[j]).target_size
    &&& forall|i: int|
        0 <= i < s.len() ==> (#[trigger] s[i]).damage_per_attack > 0 && s[i].simultainious_attacks
            > 0
}

/// The first error the construction scan finds from index `i` on: a zero
/// damage, then zero attacks, then a duplicated target size, in that order
/// for each index.
pub open spec fn weapons_error(s: Seq<DistinctWeapon>, i: int) -> Option<WeaponError>
    decreases s.len() - i,
{
    if i < 0 || i >= s.len() {
        None
    } else if s[i].damage_per_attack == 0 {
        Some(WeaponError::DamageError)
    } else if s[i].simultainious_attacks == 0 {
        Some(WeaponError::AttacksError)
    } else if has_dup_after(s, i) {
        Some(WeaponError::TargetError)
    } else {
        weapons_error(s, i + 1)
    }
}

/// Some later weapon shares the target size of the weapon at `i`.
pub open spec fn has_dup_after(s: Seq<DistinctWeapon>, i: int) -> bool {
    exists|j: int| i < j < s.len() && (#[trigger] s[j]).target_size == s[i].target_size
}

/// A scan that finds no error certifies the set well formed.
pub proof fn lemma_weapons_error_none(s: Seq<DistinctWeapon>, i: int)
    requires
        0 <= i <= s.len(),
        weapons_error(s, i) is None,
        forall|a: int, b: int|
            0 <= a < b < i ==> (#[trigger] s[a]).target_size != (#[trigger] s[b]).target_size,
        forall|a: int, b: int|
            0 <= a < i <= b < s.len() ==> (#[trigger] s[a]).target_size != (
            #[trigger] s[b]).target_size,
        forall|a: int|
            0 <= a < i ==> (#[trigger] s[a]).damage_per_attack > 0 && s[a].simultainious_attacks
                > 0,
    ensures
        weapons_wf(s),
    decreases s.len() - i,
{
    if i < s.len() {
        assert(!has_dup_after(s, i));
        assert(forall|b: int|
            i < b < s.len() ==> (#[trigger] s[b]).target_size != s[i].target_size);
        lemma_weapons_error_none(s, i + 1);
    }
}

/// What adding one weapon to a set does: the first weapon of the same
/// target absorbs it by [`fold_weapons`]; otherwise it is appended.
pub open spec fn spec_add_weapon(s: Seq<DistinctWeapon>, w: DistinctWeapon) -> Seq<
    DistinctWeapon,
> {
    let i = find_target(s, w.target_size, 0);
    if i >= 0 {
        s.update(i, fold_weapons(s[i], w))
    } else {
        s.push(w)
    }
}

/// The first index at or after `i` of a weapon with target size `t`;
/// negative when there is none.
pub open spec fn find_target(s: Seq<DistinctWeapon>, t: UInt, i: int) -> int
    decreases s.len() - i,
{
    if i < 0 || i >= s.len() {
        -1
    } else if s[i].target_size == t {
        i
    } else {
        find_target(s, t, i + 1)
    }
}

/// The set after the weapons of `other` have been added from index `i` on,
/// one at a time.
pub open spec fn spec_fold_weapons(
    s: Seq<DistinctWeapon>,
    other: Seq<DistinctWeapon>,
    i: int,
) -> Seq<DistinctWeapon>
    decreases other.len() - i,
{
    if i < 0 || i >= other.len() {
        s
    } else {
        spec_fold_weapons(spec_add_weapon(s, other[i]), other, i + 1)
    }
}

/// The entries after every weapon of the set, in order, has distributed its
/// attacks; see [`dw_distribute`].
pub open spec fn rw_distribute(
    ws: Seq<DistinctWeapon>,
    i: int,
    s: Seq<DistributedDamage>,
) -> Seq<DistributedDamage>
    decreases ws.len() - i,
{
    if i < 0 || i >= ws.len() {
        s
    } else {
        rw_distribute(ws, i + 1, dw_distribute(ws[i], s))
    }
}

/// The total damage the whole set can deal at once: the sum over its
/// weapons of damage per attack times simultaneous attacks.
pub open spec fn total_weapon_damage(ws: Seq<DistinctWeapon>, i: int) -> int
    decreases ws.len() - i,
{
    if i < 0 || i >= ws.len() {
        0
    } else {
        ws[i].damage_per_attack * ws[i].simultainious_attacks + total_weapon_damage(ws, i + 1)
    }
}

/// Suffix totals are nonnegative and shrink as the start index grows.
pub proof fn lemma_total_weapon_damage_bounds(ws: Seq<DistinctWeapon>, i: int)
    ensures
        0 <= total_weapon_damage(ws, i + 1),
        0 <= total_weapon_damage(ws, i),
        0 <= i < ws.len() ==> total_weapon_damage(ws, i + 1) <= total_weapon_damage(ws, i),
    decreases ws.len() - i,
{
    if i < ws.len() {
        lemma_total_weapon_damage_bounds(ws, i + 1);
        if 0 <= i {
            assert(ws[i].damage_per_attack * ws[i].simultainious_attacks >= 0)
                by (nonlinear_arith);
        }
    }
}

/// A `ReducedWeapon` is a collection of [`DistinctWeapon`]s acting together,
/// holding at most one weapon per target size.
#[derive(Debug, PartialEq, Eq, Clone)]
pub struct ReducedWeapon {
    /// The weapons, one per target size.
    pub weapons: Vec<DistinctWeapon>,
}

impl ReducedWeapon {
    /// The set's invariant; see [`weapons_wf`].
    pub open spec fn wf(&self) -> bool {
        weapons_wf(self.weapons@)
    }

    /// Builds a `ReducedWeapon` without checks; the checked entry point is
    /// [`ReducedWeapon::new`].
    pub fn from_parts(weapons: Vec<DistinctWeapon>) -> (r: Self)
        ensures
            r.weapons@ == weapons@,
    {
        ReducedWeapon { weapons }
    }

    /// Builds a `ReducedWeapon`, refusing a set in which a weapon deals zero
    /// damage, produces zero attacks, or shares a target size with another;
    /// see [`weapons_error`] for which error names a malformed set.
    pub fn new(weapons: Vec<DistinctWeapon>) -> (r: Result<Self, WeaponError>)
        ensures
            weapons_error(weapons@, 0) is None ==> (r matches Ok(rw) && rw.weapons@ == weapons@
                && rw.wf()),
            weapons_error(weapons@, 0) matches Some(e) ==> r == Err::<Self, WeaponError>(e),
    {
        let ghost s = weapons@;
        let n = weapons.len();
        let mut i: usize = 0;
        while i < n
            invariant
                n == s.len(),
                i <= n,
                s == weapons@,
                weapons_error(s, 0) == weapons_error(s, i as int),
                forall|a: int, b: int|
                    0 <= a < b < i ==> (#[trigger] s[a]).target_size != (
                    #[trigger] s[b]).target_size,
                forall|a: int, b: int|
                    0 <= a < i <= b < n ==> (#[trigger] s[a]).target_size != (
                    #[trigger] s[b]).target_size,
                forall|a: int|
                    0 <= a < i ==> (#[trigger] s[a]).damage_per_attack > 0
                        && s[a].simultainious_attacks > 0,
            decreases n - i,
        {
            if weapons[i].damage_per_attack == 0 {
                return Err(WeaponError::DamageError);
            }
            if weapons[i].simultainious_attacks == 0 {
                return Err(WeaponError::AttacksError);
            }
            let mut j: usize = i + 1;
            while j < n
                invariant
                    n == s.len(),
                    i < j <= n,
                    i < n,
                    s == weapons@,
                    weapons_error(s, 0) == weapons_error(s, i as int),
                    s[i as int].damage_per_attack != 0,
                    s[i as int].simultainious_attacks != 0,
                    forall|b: int| i < b < j ==> (#[trigger] s[b]).target_size != s[i as int].target_size,
                decreases n - j,
            {
                if DistinctWeapon::same_target(&weapons[i], &weapons[j]) {
                    proof {
                        assert(s[j as int].target_size == s[i as int].target_size);
                        assert(has_dup_after(s, i as int));
                    }
                    return Err(WeaponError::TargetError);
                }
                j = j + 1;
            }
            proof {
                assert(!has_dup_after(s, i as int));
            }
            i = i + 1;
        }
        proof {
            lemma_weapons_error_none(s, 0);
        }
        Ok(Self::from_parts(weapons))
    }

    /// Adds one weapon to the set: the first weapon of the same target size
    /// absorbs it, averaging the damage; otherwise it is appended.
    pub fn add(&mut self, other_weapon: &DistinctWeapon)
        requires
            forall|i: int|
                0 <= i < old(self).weapons@.len() ==> ({
                    let a = #[trigger] old(self).weapons@[i];
                    &&& a.simultainious_attacks + other_weapon.simultainious_attacks >= 1
                    &&& a.simultainious_attacks + other_weapon.simultainious_attacks <= UINT_MAX
                    &&& a.damage_per_attack * a.simultainious_attacks
                        + other_weapon.damage_per_attack * other_weapon.simultainious_attacks
                        <= UINT_MAX
                }),
        ensures
            final(self).weapons@ == spec_add_weapon(old(self).weapons@, *other_weapon),
            total_sim(final(self).weapons@, 0) == total_sim(old(self).weapons@, 0)
                + other_weapon.simultainious_attacks,
            total_weapon_damage(final(self).weapons@, 0) <= total_weapon_damage(
                old(self).weapons@,
                0,
            ) + other_weapon.damage_per_attack * other_weapon.simultainious_attacks,
    {
        let ghost s = self.weapons@;
        let ghost t = other_weapon.target_size;
        let n = self.weapons.len();
        let mut i: usize = 0;
        while i < n && !DistinctWeapon::same_target(&self.weapons[i], other_weapon)
            invariant
                n == s.len(),
                i <= n,
                *self == *old(self),
                s == self.weapons@,
                t == other_weapon.target_size,
                find_target(s, t, 0) == find_target(s, t, i as int),
            decreases n - i,
        {
            i = i + 1;
        }
        if i < n {
            proof {
                assert(find_target(s, t, i as int) == i as int);
            }
            self.weapons[i].fold(other_weapon);
            proof {
                let s1 = self.weapons@;
                assert(s1 == s.update(i as int, s1[i as int]));
                assert(s1 =~= spec_add_weapon(s, *other_weapon));
                lemma_total_sim_update(s, i as int, s1[i as int], 0);
                lemma_total_damage_update(s, i as int, s1[i as int], 0);
                lemma_fold_product_bound(s[i as int], *other_weapon);
            }
        } else {
            proof {
                assert(find_target(s, t, n as int) == -1);
            }
            let copied = DistinctWeapon::from_parts(
                other_weapon.target_size,
                other_weapon.damage_per_attack,
                other_weapon.simultainious_attacks,
            );
            self.weapons.push(copied);
            proof {
                assert(self.weapons@ =~= spec_add_weapon(s, *other_weapon));
                lemma_total_sim_push(s, copied, 0);
                lemma_total_damage_push(s, copied, 0);
            }
        }
    }

    /// Folds a whole sequence of weapons into the set, in order.
    pub fn fold(&mut self, other: &Vec<DistinctWeapon>)
        requires
            total_sim(old(self).weapons@, 0) + total_sim(other@, 0) <= UINT_MAX,
            total_weapon_damage(old(self).weapons@, 0) + total_weapon_damage(other@, 0)
                <= UINT_MAX,
            forall|k: int|
                0 <= k < other@.len() ==> (#[trigger] other@[k]).simultainious_attacks >= 1,
        ensures
            final(self).weapons@ == spec_fold_weapons(old(self).weapons@, other@, 0),
    {
        let n = other.len();
        let mut k: usize = 0;
        while k < n
            invariant
                n == other@.len(),
                k <= n,
                forall|kk: int|
                    0 <= kk < other@.len() ==> (#[trigger] other@[kk]).simultainious_attacks >= 1,
                total_sim(self.weapons@, 0) + total_sim(other@, k as int) <= UINT_MAX,
                total_weapon_damage(self.weapons@, 0) + total_weapon_damage(other@, k as int)
                    <= UINT_MAX,
                spec_fold_weapons(old(self).weapons@, other@, 0) == spec_fold_weapons(
                    self.weapons@,
                    other@,
                    k as int,
                ),
            decreases n - k,
        {
            let ghost cur = self.weapons@;
            let ghost w = other@[k as int];
            proof {
                lemma_total_sim_bounds(other@, k as int);
                lemma_total_damage_suffix_bounds(other@, k as int);
                lemma_total_sim_bounds(cur, 0);
                lemma_total_damage_suffix_bounds(cur, 0);
                assert(w.damage_per_attack * w.simultainious_attacks >= 0) by (nonlinear_arith);
                assert forall|i: int| 0 <= i < cur.len() implies ({
                    let a = #[trigger] cur[i];
                    &&& a.simultainious_attacks + w.simultainious_attacks >= 1
                    &&& a.simultainious_attacks + w.simultainious_attacks <= UINT_MAX
                    &&& a.damage_per_attack * a.simultainious_attacks + w.damage_per_attack
                        * w.simultainious_attacks <= UINT_MAX
                }) by {
                    lemma_total_sim_elem(cur, i);
                    lemma_total_damage_elem(cur, i);
                }
            }
            self.add(&other[k]);
            k = k + 1;
        }
    }

    /// Distributes the attacks of every weapon of the set, in order, over
    /// the eligible targets; see [`rw_distribute`].
    pub fn distribute_attacks(&self, targets: &mut Vec<DistributedDamage>)
        requires
            self.wf(),
            total_weapon_damage(self.weapons@, 0) <= UINT_MAX,
            forall|k: int|
                0 <= k < self.weapons@.len() ==> #[trigger] eligible_targets(
                    self.weapons@[k],
                    old(targets)@,
                    0,
                ) <= UINT_MAX,
            forall|j: int, k: int|
                0 <= j < old(targets)@.len() && 0 <= k < self.weapons@.len() && (#[trigger] old(targets)@[j]).damage.target_size >= (#[trigger] self.weapons@[k]).target_size ==> old(targets)@[j].targets >= 1,
            forall|j: int|
                0 <= j < old(targets)@.len() ==> (#[trigger] old(targets)@[j]).damage.damage
                    + total_weapon_damage(self.weapons@, 0) <= UINT_MAX,
        ensures
            final(targets)@ == rw_distribute(self.weapons@, 0, old(targets)@),
            final(targets)@.len() == old(targets)@.len(),
            forall|j: int|
                0 <= j < old(targets)@.len() ==> (#[trigger] final(targets)@[j]).targets == old(targets)@[j].targets && final(targets)@[j].damage.target_size == old(targets)@[j].damage.target_size && old(targets)@[j].damage.damage <= final(targets)@[j].damage.damage <= old(targets)@[j].damage.damage + total_weapon_damage(
                    self.weapons@,
                    0,
                ),
    {
        let ghost s0 = targets@;
        let ghost ws = self.weapons@;
        let n = self.weapons.len();
        let mut k: usize = 0;
        proof {
            lemma_total_weapon_damage_bounds(ws, 0);
        }
        while k < n
            invariant
                n == ws.len(),
                k <= n,
                ws == self.weapons@,
                self.wf(),
                total_weapon_damage(ws, 0) <= UINT_MAX,
                targets@.len() == s0.len(),
                forall|kk: int|
                    0 <= kk < ws.len() ==> #[trigger] eligible_targets(ws[kk], s0, 0) <= UINT_MAX,
                forall|j: int, kk: int|
                    0 <= j < s0.len() && 0 <= kk < ws.len() && (#[trigger] s0[j]).damage.target_size
                        >= (#[trigger] ws[kk]).target_size ==> s0[j].targets >= 1,
                forall|j: int|
                    0 <= j < s0.len() ==> (#[trigger] s0[j]).damage.damage + total_weapon_damage(
                        ws,
                        0,
                    ) <= UINT_MAX,
                forall|j: int|
                    0 <= j < s0.len() ==> (#[trigger] targets@[j]).targets == s0[j].targets
                        && targets@[j].damage.target_size == s0[j].damage.target_size
                        && s0[j].damage.damage <= targets@[j].damage.damage
                        && targets@[j].damage.damage + total_weapon_damage(ws, k as int)
                        <= s0[j].damage.damage + total_weapon_damage(ws, 0),
                rw_distribute(ws, 0, s0) == rw_distribute(ws, k as int, targets@),
            decreases n - k,
        {
            let ghost before = targets@;
            proof {
                lemma_total_weapon_damage_bounds(ws, k as int);
                lemma_total_damage_elem(ws, k as int);
                assert(ws[k as int].damage_per_attack * ws[k as int].simultainious_attacks >= 0)
                    by (nonlinear_arith);
                assert forall|j: int|
                    0 <= j < before.len() && (#[trigger] before[j]).damage.target_size
                        >= ws[k as int].target_size implies before[j].targets >= 1
                    && before[j].damage.damage + ws[k as int].damage_per_attack
                    * ws[k as int].simultainious_attacks <= UINT_MAX by {
                    lemma_total_weapon_damage_bounds(ws, k as int);
                    assert(s0[j].damage.target_size >= ws[k as int].target_size);
                    assert(s0[j].targets >= 1);
                }
                lemma_eligible_same_counts(ws[k as int], before, s0);
            }
            let w = &self.weapons[k];
            w.distribute_attacks(targets);
            k = k + 1;
        }
    }
}

/// Two target sequences that agree on sizes and target counts have the same
/// eligible-target counts for any weapon.
proof fn lemma_eligible_same_counts(
    w: DistinctWeapon,
    s1: Seq<DistributedDamage>,
    s2: Seq<DistributedDamage>,
)
    requires
        s1.len() == s2.len(),
        forall|j: int|
            0 <= j < s1.len() ==> (#[trigger] s1[j]).targets == s2[j].targets
                && s1[j].damage.target_size == s2[j].damage.target_size,
    ensures
        eligible_targets(w, s1, 0) == eligible_targets(w, s2, 0),
{
    lemma_eligible_same_from(w, s1, s2, 0);
}

/// Helper of [`lemma_eligible_same_counts`], from an arbitrary index.
proof fn lemma_eligible_same_from(
    w: DistinctWeapon,
    s1: Seq<DistributedDamage>,
    s2: Seq<DistributedDamage>,
    i: int,
)
    requires
        s1.len() == s2.len(),
        forall|j: int|
            0 <= j < s1.len() ==> (#[trigger] s1[j]).targets == s2[j].targets
                && s1[j].damage.target_size == s2[j].damage.target_size,
    ensures
        eligible_targets(w, s1, i) == eligible_targets(w, s2, i),
    decreases s1.len() - i,
{
    if 0 <= i < s1.len() {
        lemma_eligible_same_from(w, s1, s2, i + 1);
    }
}


/// The total number of simultaneous attacks of the weapons from index `i`
/// on.
pub open spec fn total_sim(ws: Seq<DistinctWeapon>, i: int) -> int
    decreases ws.len() - i,
{
    if i < 0 || i >= ws.len() {
        0
    } else {
        ws[i].simultainious_attacks + total_sim(ws, i + 1)
    }
}

/// Suffix attack totals are nonnegative and shrink as the index grows.
pub proof fn lemma_total_sim_bounds(ws: Seq<DistinctWeapon>, i: int)
    ensures
        0 <= total_sim(ws, i + 1),
        0 <= total_sim(ws, i),
        0 <= i < ws.len() ==> total_sim(ws, i + 1) <= total_sim(ws, i),
    decreases ws.len() - i,
{
    if i < ws.len() {
        lemma_total_sim_bounds(ws, i + 1);
    }
}

/// A weapon's attacks are no more than the whole total.
proof fn lemma_total_sim_elem(ws: Seq<DistinctWeapon>, i: int)
    requires
        0 <= i < ws.len(),
    ensures
        ws[i].simultainious_attacks <= total_sim(ws, 0),
    decreases i,
{
    if i == 0 {
        lemma_total_sim_bounds(ws, 0);
    } else {
        lemma_total_sim_elem(ws.drop_first(), i - 1);
        assert(ws.drop_first()[i - 1] == ws[i]);
        assert(total_sim(ws.drop_first(), 0) <= total_sim(ws, 0)) by {
            lemma_total_sim_shift(ws, 1);
            lemma_total_sim_bounds(ws, 0);
        }
    }
}

/// The suffix total from 1 equals the total of the tail.
proof fn lemma_total_sim_shift(ws: Seq<DistinctWeapon>, i: int)
    requires
        1 <= i <= ws.len(),
    ensures
        total_sim(ws, i) == total_sim(ws.drop_first(), i - 1),
    decreases ws.len() - i,
{
    if i < ws.len() {
        lemma_total_sim_shift(ws, i + 1);
        assert(ws.drop_first()[i - 1] == ws[i]);
    }
}

/// Replacing one weapon changes the attack total by the difference.
proof fn lemma_total_sim_update(ws: Seq<DistinctWeapon>, i: int, x: DistinctWeapon, j: int)
    requires
        0 <= i < ws.len(),
        0 <= j <= ws.len(),
    ensures
        j <= i ==> total_sim(ws.update(i, x), j) == total_sim(ws, j)
            - ws[i].simultainious_attacks + x.simultainious_attacks,
        j > i ==> total_sim(ws.update(i, x), j) == total_sim(ws, j),
    decreases ws.len() - j,
{
    if j < ws.len() {
        lemma_total_sim_update(ws, i, x, j + 1);
    }
}

/// Appending a weapon adds its attacks to the total.
proof fn lemma_total_sim_push(ws: Seq<DistinctWeapon>, x: DistinctWeapon, j: int)
    requires
        0 <= j <= ws.len(),
    ensures
        total_sim(ws.push(x), j) == total_sim(ws, j) + x.simultainious_attacks,
    decreases ws.len() - j,
{
    if j < ws.len() {
        lemma_total_sim_push(ws, x, j + 1);
        assert(ws.push(x)[j] == ws[j]);
    } else {
        assert(ws.push(x)[j] == x);
        assert(total_sim(ws.push(x), j + 1) == 0);
        assert(total_sim(ws, j) == 0);
    }
}

/// Suffix damage totals; companion of [`lemma_total_weapon_damage_bounds`]
/// with the same shape as the attack-total lemmas.
proof fn lemma_total_damage_suffix_bounds(ws: Seq<DistinctWeapon>, i: int)
    ensures
        0 <= total_weapon_damage(ws, i + 1),
        0 <= total_weapon_damage(ws, i),
        0 <= i < ws.len() ==> total_weapon_damage(ws, i + 1) <= total_weapon_damage(ws, i),
{
    lemma_total_weapon_damage_bounds(ws, i);
}

/// A weapon's total damage is no more than the whole set's.
proof fn lemma_total_damage_elem(ws: Seq<DistinctWeapon>, i: int)
    requires
        0 <= i < ws.len(),
    ensures
        ws[i].damage_per_attack * ws[i].simultainious_attacks <= total_weapon_damage(ws, 0),
    decreases i,
{
    if i == 0 {
        lemma_total_weapon_damage_bounds(ws, 0);
    } else {
        lemma_total_damage_elem(ws.drop_first(), i - 1);
        assert(ws.drop_first()[i - 1] == ws[i]);
        assert(total_weapon_damage(ws.drop_first(), 0) <= total_weapon_damage(ws, 0)) by {
            lemma_total_damage_shift(ws, 1);
            lemma_total_weapon_damage_bounds(ws, 0);
        }
    }
}

/// The suffix damage total from 1 equals the total of the tail.
proof fn lemma_total_damage_shift(ws: Seq<DistinctWeapon>, i: int)
    requires
        1 <= i <= ws.len(),
    ensures
        total_weapon_damage(ws, i) == total_weapon_damage(ws.drop_first(), i - 1),
    decreases ws.len() - i,
{
    if i < ws.len() {
        lemma_total_damage_shift(ws, i + 1);
        assert(ws.drop_first()[i - 1] == ws[i]);
    }
}

/// Replacing one weapon changes the damage total by the difference of the
/// products.
proof fn lemma_total_damage_update(ws: Seq<DistinctWeapon>, i: int, x: DistinctWeapon, j: int)
    requires
        0 <= i < ws.len(),
        0 <= j <= ws.len(),
    ensures
        j <= i ==> total_weapon_damage(ws.update(i, x), j) == total_weapon_damage(ws, j)
            - ws[i].damage_per_attack * ws[i].simultainious_attacks + x.damage_per_attack
            * x.simultainious_attacks,
        j > i ==> total_weapon_damage(ws.update(i, x), j) == total_weapon_damage(ws, j),
    decreases ws.len() - j,
{
    if j < ws.len() {
        lemma_total_damage_update(ws, i, x, j + 1);
    }
}

/// Appending a weapon adds its product to the damage total.
proof fn lemma_total_damage_push(ws: Seq<DistinctWeapon>, x: DistinctWeapon, j: int)
    requires
        0 <= j <= ws.len(),
    ensures
        total_weapon_damage(ws.push(x), j) == total_weapon_damage(ws, j) + x.damage_per_attack
            * x.simultainious_attacks,
    decreases ws.len() - j,
{
    if j < ws.len() {
        lemma_total_damage_push(ws, x, j + 1);
        assert(ws.push(x)[j] == ws[j]);
    } else {
        assert(ws.push(x)[j] == x);
        assert(total_weapon_damage(ws.push(x), j + 1) == 0);
        assert(total_weapon_damage(ws, j) == 0);
    }
}

/// The folded weapon's total damage never exceeds the sum of the two
/// folded totals: the average truncates.
proof fn lemma_fold_product_bound(a: DistinctWeapon, b: DistinctWeapon)
    requires
        a.simultainious_attacks + b.simultainious_attacks >= 1,
        a.simultainious_attacks + b.simultainious_attacks <= UINT_MAX,
        a.damage_per_attack * a.simultainious_attacks + b.damage_per_attack
            * b.simultainious_attacks <= UINT_MAX,
    ensures
        fold_weapons(a, b).damage_per_attack * fold_weapons(a, b).simultainious_attacks
            <= a.damage_per_attack * a.simultainious_attacks + b.damage_per_attack
            * b.simultainious_attacks,
{
    let numer = b.damage_per_attack * b.simultainious_attacks + a.damage_per_attack
        * a.simultainious_attacks;
    let d = a.simultainious_attacks + b.simultainious_attacks;
    assert(b.damage_per_attack * b.simultainious_attacks + a.damage_per_attack
        * a.simultainious_attacks >= 0) by (nonlinear_arith)
        requires
            a.damage_per_attack >= 0,
            a.simultainious_attacks >= 0,
            b.damage_per_attack >= 0,
            b.simultainious_attacks >= 0,
    ;
    assert(numer >= 0);
    vstd::arithmetic::div_mod::lemma_fundamental_div_mod(numer, d);
    vstd::arithmetic::div_mod::lemma_mod_division_less_than_divisor(numer, d);
    vstd::arithmetic::div_mod::lemma_div_pos_is_pos(numer, d);
    let q = numer / d;
    assert(q <= d * q) by (nonlinear_arith)
        requires
            q >= 0,
            d >= 1,
    ;
    assert(fold_weapons(a, b).damage_per_attack == q);
    assert(fold_weapons(a, b).simultainious_attacks == d);
    assert(q * d == d * q) by (nonlinear_arith);
}


impl Default for ReducedWeapon {
    /// The empty weapon set.
    fn default() -> (r: Self)
        ensures
            r.weapons@ == Seq::<DistinctWeapon>::empty(),
            r.wf(),
    {
        let r = ReducedWeapon { weapons: Vec::new() };
        proof {
            assert(r.weapons@ =~= Seq::<DistinctWeapon>::empty());
        }
        r
    }
}

} // verus!
