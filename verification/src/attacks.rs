//! Attack descriptors and the ordered, deduplicated attack pool.
//!
//! A pool keeps its entries sorted by `(smallest_target, damage_per_attack)`
//! and merges entries that share both, so a pool is a canonical form of the
//! attacks poured into it: two pools built from inputs with the same buckets
//! and per-bucket totals are equal ([`lemma_pool_canonical`]).

use vstd::prelude::*;
use crate::{AttackProjectile, DamagePoint, ShipSize, UInt, UINT_MAX};

verus! {

/// An `Attack` is a number of parallel attack projectiles together with the
/// damage each projectile deals.
#[derive(Debug, PartialEq, Eq, Clone, Copy, Structural)]
pub struct Attack {
    /// The number of parallel attacks.
    pub parallel_attacks: AttackProjectile,
    /// The damage dealt by each attack.
    pub damage_per_attack: DamagePoint,
}

/// A `TargetedAttack` is an [`Attack`] with the smallest size of target it
/// may hit.
#[derive(Debug, PartialEq, Eq, Clone, Copy, Structural)]
pub struct TargetedAttack {
    /// The attack itself.
    pub attack: Attack,
    /// The smallest size of target this can hit.
    pub smallest_target: ShipSize,
}

impl Attack {
    /// Creates a new `Attack` from parts.
    pub fn new(parallel_attacks: AttackProjectile, damage_per_attack: DamagePoint) -> (r: Self)
        ensures
            r == (Attack { parallel_attacks, damage_per_attack }),
    {
        Self { parallel_attacks, damage_per_attack }
    }

    /// Merges another `Attack` into this one when both deal the same damage
    /// per attack (their parallel attacks are summed); otherwise hands
    /// `other` back unchanged.
    pub fn merge(&mut self, other: Self) -> (r: Option<Self>)
        requires
            old(self).damage_per_attack == other.damage_per_attack ==> old(self).parallel_attacks
                + other.parallel_attacks <= UINT_MAX,
        ensures
            old(self).damage_per_attack == other.damage_per_attack ==> r == None::<Self> && *final(self) == (Attack {
                parallel_attacks: (old(self).parallel_attacks + other.parallel_attacks) as UInt,
                ..*old(self)
            }),
            old(self).damage_per_attack != other.damage_per_attack ==> r == Some(other) && *final(self) == *old(self),
    {
        if self.same_damage(&other) {
            self.parallel_attacks = self.parallel_attacks + other.parallel_attacks;
            None
        } else {
            Some(other)
        }
    }

    /// Sums the damage dealt by all parallel attacks of this `Attack`.
    pub fn sum_damage(&self) -> (r: DamagePoint)
        requires
            self.parallel_attacks * self.damage_per_attack <= UINT_MAX,
        ensures
            r == self.parallel_attacks * self.damage_per_attack,
    {
        self.parallel_attacks * self.damage_per_attack
    }

    /// Returns true if `other` deals the same damage per attack.
    pub fn same_damage(&self, other: &Self) -> (r: bool)
        ensures
            r == (self.damage_per_attack == other.damage_per_attack),
    {
        self.damage_per_attack == other.damage_per_attack
    }
}

impl TargetedAttack {
    /// Creates a new `TargetedAttack` from parts.
    pub fn new(attack: Attack, smallest_target: ShipSize) -> (r: Self)
        ensures
            r == (TargetedAttack { attack, smallest_target }),
    {
        Self { attack, smallest_target }
    }

    /// Returns true if a target of the passed size can be hit by this attack.
    pub fn valid_target(&self, target_size: ShipSize) -> (r: bool)
        ensures
            r == (self.smallest_target <= target_size),
    {
        self.smallest_target <= target_size
    }

    /// Returns true if the passed attack has the same smallest target.
    pub fn same_target(&self, other: &Self) -> (r: bool)
        ensures
            r == (self.smallest_target == other.smallest_target),
    {
        self.smallest_target == other.smallest_target
    }
}

/// Strict order on pool entries: by smallest target, then by damage per
/// attack.  Entries equal under this order belong to the same bucket.
pub open spec fn key_lt(a: TargetedAttack, b: TargetedAttack) -> bool {
    ||| a.smallest_target < b.smallest_target
    ||| (a.smallest_target == b.smallest_target && a.attack.damage_per_attack
        < b.attack.damage_per_attack)
}

/// The entry `x` lies in the bucket `(t, d)`.
pub open spec fn key_is(x: TargetedAttack, t: ShipSize, d: DamagePoint) -> bool {
    x.smallest_target == t && x.attack.damage_per_attack == d
}

/// The entries are strictly sorted by `(smallest_target, damage_per_attack)`,
/// so in particular no two entries share a bucket.
pub open spec fn strictly_sorted(s: Seq<TargetedAttack>) -> bool {
    forall|i: int, j: int| 0 <= i < j < s.len() ==> key_lt(#[trigger] s[i], #[trigger] s[j])
}

/// What the entry `x` contributes to the bucket `(t, d)`.
pub open spec fn bucket_part(x: TargetedAttack, t: ShipSize, d: DamagePoint) -> int {
    if key_is(x, t, d) {
        x.attack.parallel_attacks as int
    } else {
        0
    }
}

/// The total number of parallel attacks that the entries of `s` direct at the
/// bucket `(t, d)`.
pub open spec fn bucket_total(s: Seq<TargetedAttack>, t: ShipSize, d: DamagePoint) -> int
    decreases s.len(),
{
    if s.len() == 0 {
        0
    } else {
        bucket_total(s.drop_last(), t, d) + bucket_part(s.last(), t, d)
    }
}

/// Some entry of `s` lies in the bucket `(t, d)`.
pub open spec fn has_bucket(s: Seq<TargetedAttack>, t: ShipSize, d: DamagePoint) -> bool {
    exists|i: int| 0 <= i < s.len() && key_is(#[trigger] s[i], t, d)
}

/// A well-formed pool: strictly sorted, every entry deals positive damage per
/// attack, and every entry's total damage fits the arithmetic.
pub open spec fn pool_wf(s: Seq<TargetedAttack>) -> bool {
    &&& strictly_sorted(s)
    &&& forall|i: int|
        0 <= i < s.len() ==> (#[trigger] s[i]).attack.damage_per_attack > 0
            && s[i].attack.parallel_attacks * s[i].attack.damage_per_attack <= UINT_MAX
}

/// The bucket total of a single entry is its contribution.
pub proof fn lemma_bucket_single(x: TargetedAttack, t: ShipSize, d: DamagePoint)
    ensures
        bucket_total(seq![x], t, d) == bucket_part(x, t, d),
{
    assert(seq![x].drop_last() =~= Seq::<TargetedAttack>::empty());
    assert(seq![x].last() == x);
    assert(bucket_total(Seq::<TargetedAttack>::empty(), t, d) == 0);
}

/// Splitting a sequence splits its bucket totals.
pub proof fn lemma_bucket_total_concat(
    s1: Seq<TargetedAttack>,
    s2: Seq<TargetedAttack>,
    t: ShipSize,
    d: DamagePoint,
)
    ensures
        bucket_total(s1 + s2, t, d) == bucket_total(s1, t, d) + bucket_total(s2, t, d),
    decreases s2.len(),
{
    if s2.len() == 0 {
        assert(s1 + s2 =~= s1);
    } else {
        assert((s1 + s2).drop_last() =~= s1 + s2.drop_last());
        assert((s1 + s2).last() == s2.last());
        lemma_bucket_total_concat(s1, s2.drop_last(), t, d);
    }
}

/// A bucket total is never negative.
pub proof fn lemma_bucket_total_nonneg(s: Seq<TargetedAttack>, t: ShipSize, d: DamagePoint)
    ensures
        0 <= bucket_total(s, t, d),
    decreases s.len(),
{
    if s.len() > 0 {
        lemma_bucket_total_nonneg(s.drop_last(), t, d);
    }
}

/// An entry lying in a bucket contributes no more than the bucket's total.
pub proof fn lemma_bucket_total_elem(s: Seq<TargetedAttack>, i: int, t: ShipSize, d: DamagePoint)
    requires
        0 <= i < s.len(),
    ensures
        bucket_part(s[i], t, d) <= bucket_total(s, t, d),
    decreases s.len(),
{
    lemma_bucket_total_nonneg(s.drop_last(), t, d);
    if i + 1 < s.len() {
        lemma_bucket_total_elem(s.drop_last(), i, t, d);
        assert(s.drop_last()[i] == s[i]);
    } else {
        assert(s.last() == s[i]);
    }
}

/// A sequence with no entry in a bucket has bucket total zero.
pub proof fn lemma_bucket_total_absent(s: Seq<TargetedAttack>, t: ShipSize, d: DamagePoint)
    requires
        forall|i: int| 0 <= i < s.len() ==> !key_is(#[trigger] s[i], t, d),
    ensures
        bucket_total(s, t, d) == 0,
    decreases s.len(),
{
    if s.len() > 0 {
        assert(forall|i: int|
            0 <= i < s.drop_last().len() ==> #[trigger] s.drop_last()[i] == s[i]);
        lemma_bucket_total_absent(s.drop_last(), t, d);
        assert(!key_is(s.last(), t, d));
    }
}

/// A `ReducedAttacks` is an attack pool: a sequence of [`TargetedAttack`]s
/// kept sorted by `(smallest_target, damage_per_attack)` with at most one
/// entry per bucket.
#[derive(Debug, PartialEq, Eq, Clone)]
pub struct ReducedAttacks {
    /// The ordered entries of the pool.
    pub attacks: Vec<TargetedAttack>,
}

impl View for ReducedAttacks {
    type V = Seq<TargetedAttack>;

    open spec fn view(&self) -> Seq<TargetedAttack> {
        self.attacks@
    }
}

impl ReducedAttacks {
    /// The pool's invariant; see [`pool_wf`].
    pub open spec fn wf(&self) -> bool {
        pool_wf(self@)
    }

    /// Builds a `ReducedAttacks` from an already canonical sequence, without
    /// any checks; the checked entry point is [`ReducedAttacks::new`].
    pub(crate) fn from_parts(attacks: Vec<TargetedAttack>) -> (r: Self)
        ensures
            r@ == attacks@,
    {
        Self { attacks }
    }

    /// Returns the ordered entries of this pool.
    pub fn iter(&self) -> (r: &Vec<TargetedAttack>)
        ensures
            r@ == self@,
    {
        &self.attacks
    }

    /// Adds one `TargetedAttack` to the pool: an entry sharing its bucket
    /// gains its parallel attacks, otherwise the attack is inserted at its
    /// sorted position.
    pub fn add_attack(&mut self, attack: TargetedAttack)
        requires
            old(self).wf(),
            attack.attack.damage_per_attack > 0,
            (bucket_total(old(self)@, attack.smallest_target, attack.attack.damage_per_attack)
                + attack.attack.parallel_attacks) * attack.attack.damage_per_attack <= UINT_MAX,
        ensures
            final(self).wf(),
            bucket_total(final(self)@, attack.smallest_target, attack.attack.damage_per_attack)
                == bucket_total(
                old(self)@,
                attack.smallest_target,
                attack.attack.damage_per_attack,
            ) + attack.attack.parallel_attacks,
            forall|t: ShipSize, d: DamagePoint|
                !(t == attack.smallest_target && d == attack.attack.damage_per_attack)
                    ==> #[trigger] bucket_total(final(self)@, t, d) == bucket_total(
                    old(self)@,
                    t,
                    d,
                ),
            forall|t: ShipSize, d: DamagePoint| #[trigger]
                has_bucket(final(self)@, t, d) == (has_bucket(old(self)@, t, d) || (t
                    == attack.smallest_target && d == attack.attack.damage_per_attack)),
    {
        let ghost s0 = self@;
        let ghost t0 = attack.smallest_target;
        let ghost d0 = attack.attack.damage_per_attack;
        let mut i: usize = 0;
        while i < self.attacks.len() && key_lt_exec(&self.attacks[i], &attack)
            invariant
                *self == *old(self),
                i <= self.attacks.len(),
                forall|j: int| 0 <= j < i ==> key_lt(#[trigger] self.attacks@[j], attack),
            decreases self.attacks.len() - i,
        {
            i = i + 1;
        }
        proof {
            lemma_bucket_total_nonneg(s0, t0, d0);
        }
        if i < self.attacks.len() && same_bucket_exec(&self.attacks[i], &attack) {
            proof {
                lemma_bucket_total_elem(s0, i as int, t0, d0);
                assert((bucket_total(s0, t0, d0) + attack.attack.parallel_attacks) <= (
                bucket_total(s0, t0, d0) + attack.attack.parallel_attacks) * d0)
                    by (nonlinear_arith)
                    requires
                        d0 >= 1,
                        bucket_total(s0, t0, d0) + attack.attack.parallel_attacks >= 0,
                ;
            }
            self.attacks[i].attack.parallel_attacks = self.attacks[i].attack.parallel_attacks
                + attack.attack.parallel_attacks;
            proof {
                let s1 = self@;
                assert(s1 == s0.update(i as int, s1[i as int]));
                lemma_bucket_update(s0, i as int, s1[i as int]);
                assert(key_is(s1[i as int], t0, d0));
                assert((s1[i as int].attack.parallel_attacks as int) * (d0 as int) <= UINT_MAX)
                    by (nonlinear_arith)
                    requires
                        s1[i as int].attack.parallel_attacks <= bucket_total(s0, t0, d0)
                            + attack.attack.parallel_attacks,
                        (bucket_total(s0, t0, d0) + attack.attack.parallel_attacks) * (d0 as int)
                            <= UINT_MAX,
                        d0 >= 1,
                        s1[i as int].attack.parallel_attacks >= 0,
                ;
                assert forall|a: int, b: int| 0 <= a < b < s1.len() implies key_lt(
                    #[trigger] s1[a],
                    #[trigger] s1[b],
                ) by {
                    assert(key_lt(s0[a], s0[b]));
                }
                assert forall|t: ShipSize, d: DamagePoint| #[trigger]
                    has_bucket(s1, t, d) == (has_bucket(s0, t, d) || (t == t0 && d == d0)) by {
                    if has_bucket(s0, t, d) {
                        let w = choose|k: int| 0 <= k < s0.len() && key_is(s0[k], t, d);
                        assert(key_is(s1[w], t, d));
                    }
                    if t == t0 && d == d0 {
                        assert(key_is(s1[i as int], t, d));
                    }
                    if has_bucket(s1, t, d) {
                        let w = choose|k: int| 0 <= k < s1.len() && key_is(s1[k], t, d);
                        if w == i {
                            assert(t == t0 && d == d0);
                        } else {
                            assert(key_is(s0[w], t, d));
                        }
                    }
                }
            }
        } else {
            self.attacks.insert(i, attack);
            proof {
                let s1 = self@;
                assert(s1 == s0.insert(i as int, attack));
                s0.insert_ensures(i as int, attack);
                lemma_bucket_insert(s0, i as int, attack);
                assert(attack.attack.parallel_attacks * d0 <= (bucket_total(s0, t0, d0)
                    + attack.attack.parallel_attacks) * d0)
                    by (nonlinear_arith)
                    requires
                        bucket_total(s0, t0, d0) >= 0,
                        d0 >= 0,
                        attack.attack.parallel_attacks >= 0,
                ;
                assert forall|a: int, b: int| 0 <= a < b < s1.len() implies key_lt(
                    #[trigger] s1[a],
                    #[trigger] s1[b],
                ) by {
                    if b == i {
                        assert(s1[a] == s0[a]);
                        assert(key_lt(s0[a], attack));
                    } else if a == i {
                        assert(s1[b] == s0[b - 1]);
                        assert(b - 1 >= i);
                        assert(!key_lt(s0[i as int], attack));
                        assert(!key_is(s0[i as int], t0, d0));
                        assert(key_lt(attack, s0[i as int]));
                        if b - 1 > i {
                            assert(key_lt(s0[i as int], s0[b - 1]));
                        }
                    } else if a < i && b > i {
                        assert(s1[a] == s0[a] && s1[b] == s0[b - 1]);
                        if b - 1 == a {
                            assert(key_lt(s0[a], attack));
                            assert(false);
                        } else {
                            assert(key_lt(s0[a], s0[b - 1]));
                        }
                    } else if b < i {
                        assert(s1[a] == s0[a] && s1[b] == s0[b]);
                    } else {
                        assert(s1[a] == s0[a - 1] && s1[b] == s0[b - 1]);
                    }
                }
                assert forall|t: ShipSize, d: DamagePoint| #[trigger]
                    has_bucket(s1, t, d) == (has_bucket(s0, t, d) || (t == t0 && d == d0)) by {
                    if has_bucket(s0, t, d) {
                        let w = choose|k: int| 0 <= k < s0.len() && key_is(s0[k], t, d);
                        let w1: int = if w < i {
                            w
                        } else {
                            w + 1
                        };
                        assert(key_is(s1[w1], t, d));
                    }
                    if t == t0 && d == d0 {
                        assert(key_is(s1[i as int], t, d));
                    }
                    if has_bucket(s1, t, d) {
                        let w = choose|k: int| 0 <= k < s1.len() && key_is(s1[k], t, d);
                        if w == i {
                            assert(t == t0 && d == d0);
                        } else if w < i {
                            assert(key_is(s0[w], t, d));
                        } else {
                            assert(key_is(s0[w - 1], t, d));
                        }
                    }
                }
            }
        }
    }

    /// Builds a pool from arbitrary entries: the result is the canonical
    /// form, whose buckets and bucket totals are exactly those of the input.
    pub fn new(attacks: Vec<TargetedAttack>) -> (r: Self)
        requires
            forall|i: int|
                0 <= i < attacks@.len() ==> (#[trigger] attacks@[i]).attack.damage_per_attack > 0,
            forall|t: ShipSize, d: DamagePoint|
                #[trigger] bucket_total(attacks@, t, d) * d <= UINT_MAX,
        ensures
            r.wf(),
            forall|t: ShipSize, d: DamagePoint| #[trigger]
                bucket_total(r@, t, d) == bucket_total(attacks@, t, d),
            forall|t: ShipSize, d: DamagePoint| #[trigger]
                has_bucket(r@, t, d) == has_bucket(attacks@, t, d),
    {
        let mut r = Self::from_parts(Vec::new());
        proof {
            assert(forall|t: ShipSize, d: DamagePoint|
                #[trigger] bucket_total(r@, t, d) == 0 && !has_bucket(r@, t, d));
            assert forall|t: ShipSize, d: DamagePoint|
                (bucket_total(r@, t, d) + #[trigger] bucket_total(attacks@, t, d)) * d
                    <= UINT_MAX by {
                assert(bucket_total(attacks@, t, d) * d <= UINT_MAX);
            }
        }
        r.add_attacks(&attacks);
        r
    }

    /// Adds every entry of `attacks` into this pool.
    pub fn add_attacks(&mut self, attacks: &Vec<TargetedAttack>)
        requires
            old(self).wf(),
            forall|i: int|
                0 <= i < attacks@.len() ==> (#[trigger] attacks@[i]).attack.damage_per_attack > 0,
            forall|t: ShipSize, d: DamagePoint|
                (bucket_total(old(self)@, t, d) + #[trigger] bucket_total(attacks@, t, d)) * d
                    <= UINT_MAX,
        ensures
            final(self).wf(),
            forall|t: ShipSize, d: DamagePoint| #[trigger]
                bucket_total(final(self)@, t, d) == bucket_total(old(self)@, t, d) + bucket_total(
                    attacks@,
                    t,
                    d,
                ),
            forall|t: ShipSize, d: DamagePoint| #[trigger]
                has_bucket(final(self)@, t, d) == (has_bucket(old(self)@, t, d) || has_bucket(
                    attacks@,
                    t,
                    d,
                )),
    {
        let ghost s0 = self@;
        let n = attacks.len();
        let mut j: usize = 0;
        proof {
            assert(attacks@.subrange(0, 0) =~= Seq::<TargetedAttack>::empty());
        }
        while j < n
            invariant
                n == attacks@.len(),
                j <= n,
                self.wf(),
                forall|i: int|
                    0 <= i < attacks@.len() ==> (#[trigger] attacks@[i]).attack.damage_per_attack
                        > 0,
                forall|t: ShipSize, d: DamagePoint|
                    (bucket_total(s0, t, d) + #[trigger] bucket_total(attacks@, t, d)) * d
                        <= UINT_MAX,
                forall|t: ShipSize, d: DamagePoint| #[trigger]
                    bucket_total(self@, t, d) == bucket_total(s0, t, d) + bucket_total(
                        attacks@.subrange(0, j as int),
                        t,
                        d,
                    ),
                forall|t: ShipSize, d: DamagePoint| #[trigger]
                    has_bucket(self@, t, d) == (has_bucket(s0, t, d) || has_bucket(
                        attacks@.subrange(0, j as int),
                        t,
                        d,
                    )),
            decreases n - j,
        {
            let attack = attacks[j];
            proof {
                let t0 = attack.smallest_target;
                let d0 = attack.attack.damage_per_attack;
                let pre = attacks@.subrange(0, j as int);
                let pre1 = attacks@.subrange(0, j as int + 1);
                assert(pre1.drop_last() =~= pre);
                assert(pre1.last() == attack);
                lemma_bucket_prefix_bound(attacks@, j as int + 1, t0, d0);
                lemma_bucket_total_nonneg(s0, t0, d0);
                lemma_bucket_total_nonneg(pre, t0, d0);
                assert((bucket_total(self@, t0, d0) + attack.attack.parallel_attacks) * d0 <= (
                bucket_total(s0, t0, d0) + bucket_total(attacks@, t0, d0)) * d0)
                    by (nonlinear_arith)
                    requires
                        bucket_total(self@, t0, d0) + attack.attack.parallel_attacks
                            <= bucket_total(s0, t0, d0) + bucket_total(attacks@, t0, d0),
                        d0 >= 0,
                ;
            }
            self.add_attack(attack);
            j = j + 1;
            proof {
                let pre = attacks@.subrange(0, j - 1);
                let pre1 = attacks@.subrange(0, j as int);
                assert(pre1.drop_last() =~= pre);
                assert(pre1.last() == attacks@[j - 1]);
                assert forall|t: ShipSize, d: DamagePoint| #[trigger]
                    has_bucket(self@, t, d) == (has_bucket(s0, t, d) || has_bucket(
                        pre1,
                        t,
                        d,
                    )) by {
                    if has_bucket(pre1, t, d) {
                        let w = choose|k: int| 0 <= k < pre1.len() && key_is(pre1[k], t, d);
                        if w < pre.len() {
                            assert(key_is(pre[w], t, d));
                        } else {
                            assert(pre1[w] == attacks@[j - 1]);
                            assert(t == attacks@[j - 1].smallest_target && d == attacks@[j
                                - 1].attack.damage_per_attack);
                        }
                    }
                    if has_bucket(pre, t, d) {
                        let w = choose|k: int| 0 <= k < pre.len() && key_is(pre[k], t, d);
                        assert(key_is(pre1[w], t, d));
                    }
                }
            }
        }
        proof {
            assert(attacks@.subrange(0, n as int) =~= attacks@);
        }
    }

    /// Removes every entry whose parallel attacks have reached zero.
    pub fn clear_used_attacks(&mut self)
        requires
            old(self).wf(),
        ensures
            final(self).wf(),
            final(self)@ == spec_clear_used(old(self)@),
    {
        let ghost s0 = self@;
        let mut kept: Vec<TargetedAttack> = Vec::new();
        let n = self.attacks.len();
        let mut i: usize = 0;
        proof {
            assert(s0.subrange(0, 0) =~= Seq::<TargetedAttack>::empty());
        }
        while i < n
            invariant
                n == self.attacks@.len(),
                i <= n,
                *self == *old(self),
                s0 == self@,
                kept@ == spec_clear_used(s0.subrange(0, i as int)),
            decreases n - i,
        {
            proof {
                assert(s0.subrange(0, i as int + 1).drop_last() =~= s0.subrange(0, i as int));
                assert(s0.subrange(0, i as int + 1).last() == s0[i as int]);
            }
            let entry = self.attacks[i];
            if entry.attack.parallel_attacks != 0 {
                kept.push(entry);
            }
            i = i + 1;
        }
        proof {
            assert(s0.subrange(0, n as int) =~= s0);
            lemma_clear_used_wf(s0);
        }
        self.attacks = kept;
    }
}

/// The entries that remain when the spent ones (zero parallel attacks) are
/// removed, in order.
pub open spec fn spec_clear_used(s: Seq<TargetedAttack>) -> Seq<TargetedAttack>
    decreases s.len(),
{
    if s.len() == 0 {
        Seq::empty()
    } else if s.last().attack.parallel_attacks != 0 {
        spec_clear_used(s.drop_last()).push(s.last())
    } else {
        spec_clear_used(s.drop_last())
    }
}

/// Clearing spent entries keeps the pool well formed: each kept entry is an
/// entry of the original, in the original order.
pub proof fn lemma_clear_used_wf(s: Seq<TargetedAttack>)
    requires
        pool_wf(s),
    ensures
        pool_wf(spec_clear_used(s)),
        forall|k: int|
            0 <= k < spec_clear_used(s).len() ==> exists|j: int|
                0 <= j < s.len() && #[trigger] spec_clear_used(s)[k] == s[j],
    decreases s.len(),
{
    if s.len() > 0 {
        let rest = s.drop_last();
        assert(forall|i: int| 0 <= i < rest.len() ==> #[trigger] rest[i] == s[i]);
        assert(pool_wf(rest));
        lemma_clear_used_wf(rest);
        let c = spec_clear_used(s);
        let cr = spec_clear_used(rest);
        assert forall|k: int| 0 <= k < c.len() implies exists|j: int|
            0 <= j < s.len() && #[trigger] c[k] == s[j] by {
            if s.last().attack.parallel_attacks != 0 && k == c.len() - 1 {
                assert(c[k] == s[s.len() - 1]);
            } else {
                assert(c[k] == cr[k]);
                let j = choose|j: int| 0 <= j < rest.len() && cr[k] == rest[j];
                assert(c[k] == s[j]);
            }
        }
        assert forall|a: int, b: int| 0 <= a < b < c.len() implies key_lt(
            #[trigger] c[a],
            #[trigger] c[b],
        ) by {
            if s.last().attack.parallel_attacks != 0 && b == c.len() - 1 {
                assert(c[a] == cr[a]);
                let j = choose|j: int| 0 <= j < rest.len() && cr[a] == rest[j];
                assert(key_lt(s[j], s[s.len() - 1]));
            }
        }
        assert forall|k: int| 0 <= k < c.len() implies (#[trigger] c[k]).attack.damage_per_attack
            > 0 && c[k].attack.parallel_attacks * c[k].attack.damage_per_attack <= UINT_MAX by {
            let j = choose|j: int| 0 <= j < s.len() && c[k] == s[j];
            assert(s[j].attack.damage_per_attack > 0);
        }
    }
}

/// Exec comparison mirroring [`key_lt`].
fn key_lt_exec(a: &TargetedAttack, b: &TargetedAttack) -> (r: bool)
    ensures
        r == key_lt(*a, *b),
{
    a.smallest_target < b.smallest_target || (a.smallest_target == b.smallest_target
        && a.attack.damage_per_attack < b.attack.damage_per_attack)
}

/// Exec test that two entries share a bucket.
fn same_bucket_exec(a: &TargetedAttack, b: &TargetedAttack) -> (r: bool)
    ensures
        r == key_is(*a, b.smallest_target, b.attack.damage_per_attack),
{
    a.smallest_target == b.smallest_target && a.attack.damage_per_attack
        == b.attack.damage_per_attack
}

/// Updating one entry moves its contribution between buckets.
proof fn lemma_bucket_update(s: Seq<TargetedAttack>, i: int, x: TargetedAttack)
    requires
        0 <= i < s.len(),
    ensures
        forall|t: ShipSize, d: DamagePoint| #[trigger]
            bucket_total(s.update(i, x), t, d) == bucket_total(s, t, d) - bucket_part(s[i], t, d)
                + bucket_part(x, t, d),
{
    let pre = s.subrange(0, i);
    let mid = s.subrange(i, i + 1);
    let suf = s.subrange(i + 1, s.len() as int);
    let s1 = s.update(i, x);
    let mid1 = s1.subrange(i, i + 1);
    assert(s =~= (pre + mid) + suf);
    assert(s1 =~= (pre + mid1) + suf);
    assert forall|t: ShipSize, d: DamagePoint| #[trigger]
        bucket_total(s1, t, d) == bucket_total(s, t, d) - bucket_part(s[i], t, d) + bucket_part(
            x,
            t,
            d,
        ) by {
        lemma_bucket_total_concat(pre + mid, suf, t, d);
        lemma_bucket_total_concat(pre, mid, t, d);
        lemma_bucket_total_concat(pre + mid1, suf, t, d);
        lemma_bucket_total_concat(pre, mid1, t, d);
        assert(mid =~= seq![s[i]]);
        assert(mid1 =~= seq![x]);
        lemma_bucket_single(s[i], t, d);
        lemma_bucket_single(x, t, d);
    }
}

/// Inserting one entry adds its contribution to its bucket.
proof fn lemma_bucket_insert(s: Seq<TargetedAttack>, i: int, x: TargetedAttack)
    requires
        0 <= i <= s.len(),
    ensures
        forall|t: ShipSize, d: DamagePoint| #[trigger]
            bucket_total(s.insert(i, x), t, d) == bucket_total(s, t, d) + bucket_part(x, t, d),
{
    let pre = s.subrange(0, i);
    let suf = s.subrange(i, s.len() as int);
    let s1 = s.insert(i, x);
    assert(s =~= pre + suf);
    assert(s1 == pre.push(x) + suf);
    assert forall|t: ShipSize, d: DamagePoint| #[trigger]
        bucket_total(s1, t, d) == bucket_total(s, t, d) + bucket_part(x, t, d) by {
        lemma_bucket_total_concat(pre, suf, t, d);
        lemma_bucket_total_concat(pre.push(x), suf, t, d);
        assert(bucket_total(pre.push(x), t, d) == bucket_total(pre, t, d) + bucket_part(x, t, d)) by {
            assert(pre.push(x).drop_last() =~= pre);
            assert(pre.push(x).last() == x);
        }
    }
}

/// A prefix contributes no more to a bucket than the whole sequence.
pub proof fn lemma_bucket_prefix_bound(s: Seq<TargetedAttack>, k: int, t: ShipSize, d: DamagePoint)
    requires
        0 <= k <= s.len(),
    ensures
        bucket_total(s.subrange(0, k), t, d) <= bucket_total(s, t, d),
{
    let pre = s.subrange(0, k);
    let suf = s.subrange(k, s.len() as int);
    assert(s =~= pre + suf);
    lemma_bucket_total_concat(pre, suf, t, d);
    lemma_bucket_total_nonneg(suf, t, d);
}

/// Two well-formed pools with the same buckets and the same bucket totals are
/// the same pool: a pool is a canonical form, so building one from a list and
/// from any reordering or bucket-splitting of that list gives equal pools.
pub proof fn lemma_pool_canonical(s1: Seq<TargetedAttack>, s2: Seq<TargetedAttack>)
    requires
        pool_wf(s1),
        pool_wf(s2),
        forall|t: ShipSize, d: DamagePoint| #[trigger]
            bucket_total(s1, t, d) == bucket_total(s2, t, d),
        forall|t: ShipSize, d: DamagePoint| #[trigger]
            has_bucket(s1, t, d) == has_bucket(s2, t, d),
    ensures
        s1 == s2,
    decreases s1.len(),
{
    if s1.len() == 0 && s2.len() == 0 {
        assert(s1 =~= s2);
    } else if s1.len() == 0 {
        let t0 = s2[0].smallest_target;
        let d0 = s2[0].attack.damage_per_attack;
        assert(key_is(s2[0], t0, d0));
        assert(has_bucket(s2, t0, d0));
        assert(has_bucket(s1, t0, d0));
        let w = choose|k: int| 0 <= k < s1.len() && key_is(s1[k], t0, d0);
        assert(false);
    } else if s2.len() == 0 {
        let t0 = s1[0].smallest_target;
        let d0 = s1[0].attack.damage_per_attack;
        assert(key_is(s1[0], t0, d0));
        assert(has_bucket(s1, t0, d0));
        assert(has_bucket(s2, t0, d0));
        let w = choose|k: int| 0 <= k < s2.len() && key_is(s2[k], t0, d0);
        assert(false);
    } else {
        let a = s1[0];
        let b = s2[0];
        assert(key_is(a, a.smallest_target, a.attack.damage_per_attack));
        assert(has_bucket(s1, a.smallest_target, a.attack.damage_per_attack));
        let wa = choose|k: int|
            0 <= k < s2.len() && key_is(s2[k], a.smallest_target, a.attack.damage_per_attack);
        assert(key_is(b, b.smallest_target, b.attack.damage_per_attack));
        assert(has_bucket(s2, b.smallest_target, b.attack.damage_per_attack));
        assert(has_bucket(s1, b.smallest_target, b.attack.damage_per_attack));
        let wb = choose|k: int|
            0 <= k < s1.len() && key_is(s1[k], b.smallest_target, b.attack.damage_per_attack);
        // The least keys agree, so the heads share a bucket.
        assert(key_is(a, b.smallest_target, b.attack.damage_per_attack)) by {
            if key_lt(a, b) {
                if wa > 0 {
                    assert(key_lt(s2[0], s2[wa]));
                }
                assert(false);
            } else if key_lt(b, a) {
                if wb > 0 {
                    assert(key_lt(s1[0], s1[wb]));
                }
                assert(false);
            }
        }
        // Each head is the only entry of its bucket, so both heads carry the
        // whole bucket total.
        let t0 = a.smallest_target;
        let d0 = a.attack.damage_per_attack;
        lemma_bucket_head(s1, t0, d0);
        lemma_bucket_head(s2, t0, d0);
        assert(a == b);
        let r1 = s1.drop_first();
        let r2 = s2.drop_first();
        assert(forall|i: int| 0 <= i < r1.len() ==> #[trigger] r1[i] == s1[i + 1]);
        assert(forall|i: int| 0 <= i < r2.len() ==> #[trigger] r2[i] == s2[i + 1]);
        assert(pool_wf(r1));
        assert(pool_wf(r2));
        assert forall|t: ShipSize, d: DamagePoint| #[trigger]
            bucket_total(r1, t, d) == bucket_total(r2, t, d) by {
            lemma_bucket_total_drop_first(s1, t, d);
            lemma_bucket_total_drop_first(s2, t, d);
        }
        assert forall|t: ShipSize, d: DamagePoint| #[trigger]
            has_bucket(r1, t, d) == has_bucket(r2, t, d) by {
            lemma_has_bucket_tail(s1, t, d);
            lemma_has_bucket_tail(s2, t, d);
        }
        lemma_pool_canonical(r1, r2);
        assert forall|i: int| 0 <= i < s1.len() implies s1[i] == s2[i] by {
            if i > 0 {
                assert(r1[i - 1] == s1[i]);
                assert(r2[i - 1] == s2[i]);
            }
        }
        assert(s1 =~= s2);
    }
}

/// Dropping the head removes exactly its contribution from each bucket.
proof fn lemma_bucket_total_drop_first(s: Seq<TargetedAttack>, t: ShipSize, d: DamagePoint)
    requires
        s.len() > 0,
    ensures
        bucket_total(s.drop_first(), t, d) == bucket_total(s, t, d) - bucket_part(s[0], t, d),
{
    let r = s.drop_first();
    assert(s =~= seq![s[0]] + r);
    lemma_bucket_total_concat(seq![s[0]], r, t, d);
    lemma_bucket_single(s[0], t, d);
}

/// In a strictly sorted pool whose head lies in bucket `(t, d)`, the head is
/// the only such entry, so it carries the whole bucket total.
proof fn lemma_bucket_head(s: Seq<TargetedAttack>, t: ShipSize, d: DamagePoint)
    requires
        pool_wf(s),
        s.len() > 0,
        key_is(s[0], t, d),
    ensures
        bucket_total(s, t, d) == s[0].attack.parallel_attacks,
{
    let r = s.drop_first();
    assert(forall|i: int| 0 <= i < r.len() ==> #[trigger] r[i] == s[i + 1]);
    lemma_bucket_total_drop_first(s, t, d);
    assert forall|i: int| 0 <= i < r.len() implies !key_is(#[trigger] r[i], t, d) by {
        assert(key_lt(s[0], s[i + 1]));
    }
    lemma_bucket_total_absent(r, t, d);
}

/// For a strictly sorted pool, a bucket is present in the tail exactly when
/// it is present in the whole and is not the head's bucket.
proof fn lemma_has_bucket_tail(s: Seq<TargetedAttack>, t: ShipSize, d: DamagePoint)
    requires
        pool_wf(s),
        s.len() > 0,
    ensures
        has_bucket(s.drop_first(), t, d) == (has_bucket(s, t, d) && !key_is(s[0], t, d)),
{
    let r = s.drop_first();
    assert(forall|i: int| 0 <= i < r.len() ==> #[trigger] r[i] == s[i + 1]);
    if has_bucket(r, t, d) {
        let w = choose|k: int| 0 <= k < r.len() && key_is(r[k], t, d);
        assert(key_is(s[w + 1], t, d));
        assert(has_bucket(s, t, d));
        assert(key_lt(s[0], s[w + 1]));
        assert(!key_is(s[0], t, d));
    }
    if has_bucket(s, t, d) && !key_is(s[0], t, d) {
        let w = choose|k: int| 0 <= k < s.len() && key_is(s[k], t, d);
        assert(w != 0);
        assert(key_is(r[w - 1], t, d));
        assert(has_bucket(r, t, d));
    }
}

} // verus!
