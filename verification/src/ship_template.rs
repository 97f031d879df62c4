//! The immutable description of a type of ship, and a bounded cache of named
//! templates.

use vstd::prelude::*;
use std::rc::Rc;
use crate::ship_error::ShipError;
use crate::{DamagePoint, FuelUnit, HullPoint, Mass, ShieldPoint, ShipSize, UInt};

verus! {

/// A `ShipTemplate` is the immutable description of a type of ship: its size
/// class, its capacities and its attack profile.
///
/// Invariant (see [`ShipTemplate::valid`]): `fuel_use <= fuel_capacity` and
/// `shield_recovery <= shield_capacity`.  [`ShipTemplate::new`] refuses
/// parameters that violate either relation, so a malformed template is never
/// constructed through it.
#[derive(Debug, PartialEq, Eq, Copy, Clone, Structural)]
pub struct ShipTemplate {
    /// The size class of this ship type.
    pub ship_size_class: ShipSize,
    /// The maximum units of fuel carried by this ship type.
    pub fuel_capacity: FuelUnit,
    /// The units of fuel used by this ship type in one period.
    pub fuel_use: FuelUnit,
    /// The maximum hull points (health points) of this ship type.
    pub max_hull: HullPoint,
    /// The maximum shield points of this ship type.
    pub shield_capacity: ShieldPoint,
    /// The shield points regenerated by this ship type in one period.
    pub shield_recovery: ShieldPoint,
    /// The maximum units of mass this ship type can transport.
    pub cargo_capacity: Mass,
    /// The smallest size of ship this ship type can target.
    pub smallest_target: ShipSize,
    /// The damage dealt by this ship type in one attack.
    pub attack_damage: DamagePoint,
}

impl ShipTemplate {
    /// The capacity relations every constructed template satisfies.
    pub open spec fn valid(&self) -> bool {
        &&& self.fuel_use <= self.fuel_capacity
        &&& self.shield_recovery <= self.shield_capacity
    }

    /// Builds a `ShipTemplate` from raw parts without any checks.
    ///
    /// Used only by code paths that have already established the capacity
    /// relations; the checked entry point is [`ShipTemplate::new`].
    pub(crate) fn from_parts(
        ship_size_class: ShipSize,
        fuel_capacity: FuelUnit,
        fuel_use: FuelUnit,
        max_hull: HullPoint,
        shield_capacity: ShieldPoint,
        shield_recovery: ShieldPoint,
        cargo_capacity: Mass,
        smallest_target: ShipSize,
        attack_damage: DamagePoint,
    ) -> (r: Self)
        ensures
            r.ship_size_class == ship_size_class,
            r.fuel_capacity == fuel_capacity,
            r.fuel_use == fuel_use,
            r.max_hull == max_hull,
            r.shield_capacity == shield_capacity,
            r.shield_recovery == shield_recovery,
            r.cargo_capacity == cargo_capacity,
            r.smallest_target == smallest_target,
            r.attack_damage == attack_damage,
    {
        Self {
            ship_size_class,
            fuel_capacity,
            fuel_use,
            max_hull,
            shield_capacity,
            shield_recovery,
            cargo_capacity,
            smallest_target,
            attack_damage,
        }
    }

    /// Builds a `ShipTemplate`, checking the capacity relations.
    ///
    /// Returns `FuelError` when `fuel_use > fuel_capacity`, otherwise
    /// `ShieldError` when `shield_recovery > shield_points`, otherwise the
    /// template with exactly the given fields.
    pub fn new(
        ship_size_class: ShipSize,
        fuel_capacity: UInt,
        fuel_use: UInt,
        hull_points: UInt,
        shield_points: UInt,
        shield_recovery: UInt,
        cargo_capacity: Mass,
        smallest_target: ShipSize,
        attack_damage: HullPoint,
    ) -> (r: Result<Self, ShipError>)
        ensures
            fuel_use > fuel_capacity ==> r == Err::<Self, ShipError>(ShipError::FuelError),
            fuel_use <= fuel_capacity && shield_recovery > shield_points ==> r == Err::<
                Self,
                ShipError,
            >(ShipError::ShieldError),
            fuel_use <= fuel_capacity && shield_recovery <= shield_points ==> (r matches Ok(t)
                && t.ship_size_class == ship_size_class && t.fuel_capacity == fuel_capacity
                && t.fuel_use == fuel_use && t.max_hull == hull_points
                && t.shield_capacity == shield_points && t.shield_recovery
                == shield_recovery && t.cargo_capacity == cargo_capacity && t.smallest_target
                == smallest_target && t.attack_damage == attack_damage && t.valid()),
    {
        if fuel_use > fuel_capacity {
            Err(ShipError::FuelError)
        } else if shield_recovery > shield_points {
            Err(ShipError::ShieldError)
        } else {
            Ok(
                Self::from_parts(
                    ship_size_class,
                    fuel_capacity,
                    fuel_use,
                    hull_points,
                    shield_points,
                    shield_recovery,
                    cargo_capacity,
                    smallest_target,
                    attack_damage,
                ),
            )
        }
    }

    /// Returns the `fuel_capacity` of this `ShipTemplate`.
    pub fn get_fuel_capacity(&self) -> (r: FuelUnit)
        ensures
            r == self.fuel_capacity,
    {
        self.fuel_capacity
    }

    /// Attempts to set the `fuel_capacity` of this `ShipTemplate`; refused
    /// when the current fuel use would exceed it.
    pub fn set_fuel_capacity(&mut self, val: FuelUnit) -> (r: Result<(), ShipError>)
        ensures
            old(self).fuel_use > val ==> r == Err::<(), ShipError>(ShipError::FuelError)
                && *final(self) == *old(self),
            old(self).fuel_use <= val ==> r == Ok::<(), ShipError>(()) && *final(self) == (
            ShipTemplate { fuel_capacity: val, ..*old(self) }),
    {
        if self.fuel_use > val {
            Err(ShipError::FuelError)
        } else {
            self.fuel_capacity = val;
            Ok(())
        }
    }

    /// Returns the `fuel_use` of this `ShipTemplate`.
    pub fn get_fuel_use(&self) -> (r: FuelUnit)
        ensures
            r == self.fuel_use,
    {
        self.fuel_use
    }

    /// Attempts to set the `fuel_use` of this `ShipTemplate`; refused when it
    /// would exceed the fuel capacity.
    pub fn set_fuel_use(&mut self, val: FuelUnit) -> (r: Result<(), ShipError>)
        ensures
            val > old(self).fuel_capacity ==> r == Err::<(), ShipError>(
                ShipError::FuelError,
            ) && *final(self) == *old(self),
            val <= old(self).fuel_capacity ==> r == Ok::<(), ShipError>(()) && *final(self)
                == (ShipTemplate { fuel_use: val, ..*old(self) }),
    {
        if val > self.fuel_capacity {
            Err(ShipError::FuelError)
        } else {
            self.fuel_use = val;
            Ok(())
        }
    }

    /// Returns the `shield_capacity` of this `ShipTemplate`.
    pub fn get_shield_capacity(&self) -> (r: ShieldPoint)
        ensures
            r == self.shield_capacity,
    {
        self.shield_capacity
    }

    /// Attempts to set the `shield_capacity` of this `ShipTemplate`; refused
    /// when the current shield recovery would exceed it.
    pub fn set_shield_capacity(&mut self, val: ShieldPoint) -> (r: Result<(), ShipError>)
        ensures
            old(self).shield_recovery > val ==> r == Err::<(), ShipError>(
                ShipError::ShieldError,
            ) && *final(self) == *old(self),
            old(self).shield_recovery <= val ==> r == Ok::<(), ShipError>(()) && *final(self)
                == (ShipTemplate { shield_capacity: val, ..*old(self) }),
    {
        if self.shield_recovery > val {
            Err(ShipError::ShieldError)
        } else {
            self.shield_capacity = val;
            Ok(())
        }
    }

    /// Returns the `shield_recovery` of this `ShipTemplate`.
    pub fn get_shield_recovery(&self) -> (r: ShieldPoint)
        ensures
            r == self.shield_recovery,
    {
        self.shield_recovery
    }

    /// Attempts to set the `shield_recovery` of this `ShipTemplate`; refused
    /// when it would exceed the shield capacity.
    pub fn set_shield_recovery(&mut self, val: ShieldPoint) -> (r: Result<(), ShipError>)
        ensures
            val > old(self).shield_capacity ==> r == Err::<(), ShipError>(
                ShipError::ShieldError,
            ) && *final(self) == *old(self),
            val <= old(self).shield_capacity ==> r == Ok::<(), ShipError>(()) && *final(self)
                == (ShipTemplate { shield_recovery: val, ..*old(self) }),
    {
        if val > self.shield_capacity {
            Err(ShipError::ShieldError)
        } else {
            self.shield_recovery = val;
            Ok(())
        }
    }

    /// Returns true if this ship type's weapons may target the passed type.
    pub fn can_target(&self, target: &Self) -> (r: bool)
        ensures
            r == (self.smallest_target <= target.ship_size_class),
    {
        self.smallest_target <= target.ship_size_class
    }
}


/// A [`ShipTemplate`] under the name it was loaded as, shared by reference.
#[derive(Debug, Clone)]
pub struct NamedTemplate(pub String, pub Rc<ShipTemplate>);

/// The first index at or after `i` of a template loaded under `name`;
/// negative when there is none.
pub open spec fn find_name(s: Seq<NamedTemplate>, name: Seq<char>, i: int) -> int
    decreases s.len() - i,
{
    if i < 0 || i >= s.len() {
        -1
    } else if s[i].0@ == name {
        i
    } else {
        find_name(s, name, i + 1)
    }
}

/// A bounded cache of named templates: at most `max_loaded` are held at
/// once, and storing into a full cache evicts the oldest entry.
#[derive(Debug, Clone)]
pub struct TemplateBuf {
    /// The loaded templates, oldest first.
    pub templates: Vec<NamedTemplate>,
    /// The most templates held at once.
    pub max_loaded: usize,
}

impl TemplateBuf {
    /// The cache's invariant: within its bound, and no name held twice.
    pub open spec fn wf(&self) -> bool {
        &&& self.templates@.len() <= self.max_loaded
        &&& forall|i: int, j: int|
            0 <= i < j < self.templates@.len() ==> (#[trigger] self.templates@[i]).0@ != (
            #[trigger] self.templates@[j]).0@
    }

    /// Builds a `TemplateBuf` from parts without any checks; the checked
    /// entry point is [`TemplateBuf::new`].
    pub(crate) fn from_parts(templates: Vec<NamedTemplate>, max_loaded: usize) -> (r: Self)
        ensures
            r.templates@ == templates@,
            r.max_loaded == max_loaded,
    {
        Self { templates, max_loaded }
    }

    /// Creates an empty cache bounded at `max_loaded` templates.
    pub fn new(max_loaded: usize) -> (r: Self)
        ensures
            r.templates@ == Seq::<NamedTemplate>::empty(),
            r.max_loaded == max_loaded,
            r.wf(),
    {
        let r = Self::from_parts(Vec::with_capacity(max_loaded), max_loaded);
        proof {
            assert(r.templates@ =~= Seq::<NamedTemplate>::empty());
        }
        r
    }

    /// Returns the number of templates held.
    pub fn loaded(&self) -> (r: usize)
        ensures
            r == self.templates@.len(),
    {
        self.templates.len()
    }

    /// Returns the most templates held at once.
    pub fn max_loaded(&self) -> (r: usize)
        ensures
            r == self.max_loaded,
    {
        self.max_loaded
    }

    /// Lowers or raises the bound; templates beyond a lowered bound are
    /// unloaded, newest first.
    pub fn set_max_loaded(&mut self, max_loaded: usize)
        ensures
            final(self).max_loaded == max_loaded,
            final(self).templates@ == if old(self).templates@.len() <= max_loaded {
                old(self).templates@
            } else {
                old(self).templates@.subrange(0, max_loaded as int)
            },
            old(self).wf() ==> final(self).wf(),
    {
        self.templates.truncate(max_loaded);
        self.max_loaded = max_loaded;
        proof {
            if old(self).templates@.len() <= max_loaded {
                assert(self.templates@ =~= old(self).templates@);
            }
        }
    }

    /// Returns the template loaded under the passed name, if any.
    pub fn lookup(&self, name: &String) -> (r: Option<Rc<ShipTemplate>>)
        ensures
            find_name(self.templates@, name@, 0) >= 0 ==> (r matches Some(t) && t
                == self.templates@[find_name(self.templates@, name@, 0)].1),
            find_name(self.templates@, name@, 0) < 0 ==> r is None,
    {
        let ghost s = self.templates@;
        let n = self.templates.len();
        let mut i: usize = 0;
        while i < n
            invariant
                n == s.len(),
                i <= n,
                s == self.templates@,
                find_name(s, name@, 0) == find_name(s, name@, i as int),
            decreases n - i,
        {
            if self.templates[i].0.eq(name) {
                return Some(self.templates[i].1.clone());
            }
            i = i + 1;
        }
        None
    }

    /// Stores a template under a name not yet held: a full cache first
    /// evicts its oldest entry, and the new entry goes to the back.
    pub fn store(&mut self, name: String, template: ShipTemplate) -> (r: Rc<ShipTemplate>)
        requires
            old(self).wf(),
            old(self).max_loaded >= 1,
            find_name(old(self).templates@, name@, 0) < 0,
        ensures
            final(self).wf(),
            final(self).max_loaded == old(self).max_loaded,
            *r == template,
            ({
                let kept = if old(self).templates@.len() == old(self).max_loaded {
                    old(self).templates@.drop_first()
                } else {
                    old(self).templates@
                };
                &&& final(self).templates@.len() == kept.len() + 1
                &&& forall|i: int|
                    0 <= i < kept.len() ==> #[trigger] final(self).templates@[i] == kept[i]
                &&& final(self).templates@.last().0@ == name@
                &&& final(self).templates@.last().1 == template
            }),
    {
        let ghost s0 = self.templates@;
        let shared = Rc::new(template);
        if self.templates.len() == self.max_loaded {
            self.templates.remove(0);
            proof {
                assert(self.templates@ =~= s0.drop_first());
            }
        }
        let ghost kept = self.templates@;
        self.templates.push(NamedTemplate(name, shared.clone()));
        proof {
            let s1 = self.templates@;
            assert(s1.drop_last() =~= kept);
            assert forall|i: int, j: int| 0 <= i < j < s1.len() implies (#[trigger] s1[i]).0@
                != (#[trigger] s1[j]).0@ by {
                if j == s1.len() - 1 {
                    if s0.len() == old(self).max_loaded {
                        assert(s1[i] == s0[i + 1]);
                        lemma_find_name_absent(s0, name@, i + 1);
                    } else {
                        assert(s1[i] == s0[i]);
                        lemma_find_name_absent(s0, name@, i);
                    }
                } else {
                    if s0.len() == old(self).max_loaded {
                        assert(s1[i] == s0[i + 1] && s1[j] == s0[j + 1]);
                    } else {
                        assert(s1[i] == s0[i] && s1[j] == s0[j]);
                    }
                }
            }
        }
        shared
    }

    /// Unloads the template held under the passed name, if any; the other
    /// entries keep their order, so the cache stays oldest first and
    /// [`TemplateBuf::store`]'s eviction keeps taking the oldest entry.
    pub fn unload(&mut self, name: &String)
        ensures
            final(self).max_loaded == old(self).max_loaded,
            find_name(old(self).templates@, name@, 0) < 0 ==> final(self).templates@ == old(
                self,
            ).templates@,
            find_name(old(self).templates@, name@, 0) >= 0 ==> final(self).templates@ == old(
                self,
            ).templates@.remove(find_name(old(self).templates@, name@, 0)),
            old(self).wf() ==> final(self).wf(),
    {
        let ghost s = self.templates@;
        let n = self.templates.len();
        let mut i: usize = 0;
        while i < n
            invariant
                n == s.len(),
                i <= n,
                *self == *old(self),
                s == self.templates@,
                find_name(s, name@, 0) == find_name(s, name@, i as int),
            decreases n - i,
        {
            if self.templates[i].0.eq(name) {
                self.templates.remove(i);
                proof {
                    let s1 = self.templates@;
                    assert(find_name(s, name@, 0) == i as int);
                    s.remove_ensures(i as int);
                    if old(self).wf() {
                        assert forall|a: int, b: int| 0 <= a < b < s1.len() implies (
                        #[trigger] s1[a]).0@ != (#[trigger] s1[b]).0@ by {
                            assert(s1[a] == s[a] || s1[a] == s[a + 1]);
                            assert(s1[b] == s[b] || s1[b] == s[b + 1]);
                        }
                    }
                }
                return ;
            }
            i = i + 1;
        }
        proof {
            assert(find_name(s, name@, n as int) == -1);
        }
    }
}

/// When the scan from the front finds nothing, no index holds the name.
proof fn lemma_find_name_absent(s: Seq<NamedTemplate>, name: Seq<char>, i: int)
    requires
        0 <= i < s.len(),
        find_name(s, name, 0) < 0,
    ensures
        s[i].0@ != name,
{
    lemma_find_name_absent_from(s, name, 0, i);
}

/// Helper of [`lemma_find_name_absent`]: scanning from `k` finds nothing,
/// so no index at or after `k` matches.
proof fn lemma_find_name_absent_from(s: Seq<NamedTemplate>, name: Seq<char>, k: int, i: int)
    requires
        0 <= k <= i < s.len(),
        find_name(s, name, k) < 0,
    ensures
        s[i].0@ != name,
    decreases i - k,
{
    if k < i {
        lemma_find_name_absent_from(s, name, k + 1, i);
    }
}

} // verus!
