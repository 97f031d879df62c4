//! Factions and the relations between them.

use vstd::prelude::*;
use vstd::string::StrSliceExecFns;
use crate::text::push_char;

verus! {

/// The first character that `char::to_uppercase` yields for `c`.
pub uninterp spec fn upper_of(c: char) -> char;

/// Relies on char::to_uppercase: the mapping depends on the character alone,
/// and always yields at least one character; the first one is taken.
#[verifier::external_body]
fn upper_char(c: char) -> (r: char)
    ensures
        r == upper_of(c),
{
    c.to_uppercase().next().unwrap()
}

/// Scans the tail of a faction name root from index `i` on: ordinary
/// characters are dropped; each space must be followed by a character whose
/// uppercase form is not a space, which is kept uppercased (further spaces in
/// between are skipped).  `None` when a space runs off the end of the text:
/// such a root is not accepted.
pub open spec fn faction_scan(s: Seq<char>, i: int) -> Option<Seq<char>>
    decreases s.len() - i, 1int,
{
    if i < 0 || i >= s.len() {
        Some(Seq::empty())
    } else if s[i] != ' ' {
        faction_scan(s, i + 1)
    } else {
        faction_after_space(s, i + 1)
    }
}

/// Helper of [`faction_scan`]: looks for the first character after a space
/// whose uppercase form is not a space.
pub open spec fn faction_after_space(s: Seq<char>, j: int) -> Option<Seq<char>>
    decreases s.len() - j, 0int,
{
    if j < 0 || j >= s.len() {
        None
    } else if upper_of(s[j]) == ' ' {
        faction_after_space(s, j + 1)
    } else {
        match faction_scan(s, j + 1) {
            Some(rest) => Some(seq![upper_of(s[j])] + rest),
            None => None,
        }
    }
}

/// The standardised faction name formed from a non-empty name root: the
/// first character uppercased, followed by the uppercased first character
/// after each space; see [`faction_scan`].
pub open spec fn faction_name(s: Seq<char>) -> Option<Seq<char>> {
    match faction_scan(s, 1) {
        Some(rest) => Some(seq![upper_of(s[0])] + rest),
        None => None,
    }
}

/// A named faction in the game.
#[derive(Debug, Clone)]
pub struct Faction {
    /// The standardised name of the faction.
    pub name: String,
}

impl View for Faction {
    type V = Seq<char>;

    open spec fn view(&self) -> Seq<char> {
        self.name@
    }
}

impl Faction {
    /// Builds a new `Faction` from the passed string with standardised
    /// formatting: the first letter is uppercased, and so is the first
    /// letter following each run of spaces; other characters are dropped.
    ///
    /// An empty root is refused.  A root in which a space is not followed by
    /// any further character is outside this constructor's domain.
    pub fn new(name_root: &str) -> (r: Result<Faction, FactionError>)
        requires
            name_root@.len() > 0 ==> faction_scan(name_root@, 1) is Some,
        ensures
            name_root@.len() == 0 <==> r is Err,
            name_root@.len() > 0 ==> (r matches Ok(f) && Some(f@) == faction_name(name_root@)),
    {
        let ghost s = name_root@;
        let n = name_root.unicode_len();
        if n == 0 {
            return Err(FactionError);
        }
        let mut name = String::new();
        let first = upper_char(name_root.get_char(0));
        push_char(&mut name, first);
        proof {
            assert(name@ =~= seq![upper_of(s[0])]);
        }
        let mut i: usize = 1;
        while i < n
            invariant
                n == s.len(),
                s == name_root@,
                1 <= i <= n + 1,
                faction_scan(s, 1) is Some,
                faction_scan(s, i as int) is Some,
                seq![upper_of(s[0])] + faction_scan(s, 1)->Some_0 == name@ + faction_scan(
                    s,
                    i as int,
                )->Some_0,
            decreases n + 1 - i,
        {
            let c = name_root.get_char(i);
            if c == ' ' {
                let mut j = i + 1;
                let mut done = false;
                while !done
                    invariant
                        n == s.len(),
                        s == name_root@,
                        i < j <= n + 1,
                        faction_scan(s, 1) is Some,
                        !done ==> faction_after_space(s, j as int) is Some,
                        !done ==> seq![upper_of(s[0])] + faction_scan(s, 1)->Some_0 == name@
                            + faction_after_space(s, j as int)->Some_0,
                        done ==> faction_scan(s, j as int) is Some,
                        done ==> seq![upper_of(s[0])] + faction_scan(s, 1)->Some_0 == name@
                            + faction_scan(s, j as int)->Some_0,
                    decreases n + 1 - j,
                {
                    proof {
                        assert(j < n);
                    }
                    let ghost pre_name = name@;
                    let u = upper_char(name_root.get_char(j));
                    if u != ' ' {
                        push_char(&mut name, u);
                        done = true;
                        proof {
                            let rest = faction_scan(s, j as int + 1)->Some_0;
                            assert(faction_after_space(s, j as int)->Some_0 == seq![
                                upper_of(s[j as int]),
                            ] + rest);
                            assert(name@ + rest =~= pre_name + (seq![upper_of(s[j as int])]
                                + rest));
                        }
                    }
                    j = j + 1;
                }
                i = j;
            } else {
                i = i + 1;
            }
        }
        proof {
            assert(faction_scan(s, i as int)->Some_0 =~= Seq::<char>::empty());
            assert(name@ + Seq::<char>::empty() =~= name@);
            assert(name@ == seq![upper_of(s[0])] + faction_scan(s, 1)->Some_0);
        }
        Ok(Faction { name })
    }

    /// Decides whether a name root lies in the domain of
    /// [`Faction::new`]: it is empty, or every space in it is followed by
    /// some character whose uppercase form is not a space.  Callers that
    /// cannot establish this ahead of time test with this and only then
    /// construct.
    pub fn accepts_name_root(name_root: &str) -> (r: bool)
        ensures
            r == (name_root@.len() == 0 || faction_scan(name_root@, 1) is Some),
    {
        let ghost s = name_root@;
        let n = name_root.unicode_len();
        if n == 0 {
            return true;
        }
        let mut i: usize = 1;
        while i < n
            invariant
                n == s.len(),
                s == name_root@,
                1 <= i <= n + 1,
                faction_scan(s, 1) is Some <==> faction_scan(s, i as int) is Some,
            decreases n + 1 - i,
        {
            let c = name_root.get_char(i);
            if c == ' ' {
                let mut j = i + 1;
                let mut done = false;
                while !done
                    invariant
                        n == s.len(),
                        s == name_root@,
                        i < j <= n + 1,
                        !done ==> (faction_scan(s, 1) is Some <==> faction_after_space(
                            s,
                            j as int,
                        ) is Some),
                        done ==> (faction_scan(s, 1) is Some <==> faction_scan(
                            s,
                            j as int,
                        ) is Some),
                    decreases n + 1 - j,
                {
                    if j >= n {
                        proof {
                            assert(faction_after_space(s, j as int) is None);
                        }
                        return false;
                    }
                    let u = upper_char(name_root.get_char(j));
                    if u != ' ' {
                        done = true;
                    }
                    j = j + 1;
                }
                i = j;
            } else {
                i = i + 1;
            }
        }
        proof {
            assert(faction_scan(s, i as int) is Some);
        }
        true
    }

    /// Returns the faction's standardised name.
    pub fn name(&self) -> (r: &String)
        ensures
            r@ == self@,
    {
        &self.name
    }
}

impl PartialEq for Faction {
    /// Two factions are the same faction when their names agree.
    fn eq(&self, other: &Self) -> (r: bool) {
        self.name == other.name
    }
}

impl vstd::std_specs::cmp::PartialEqSpecImpl for Faction {
    open spec fn obeys_eq_spec() -> bool {
        true
    }

    open spec fn eq_spec(&self, other: &Self) -> bool {
        self@ == other@
    }
}

/// An error raised when the string a `Faction` is built from is refused.
#[derive(Debug, PartialEq, Eq, Clone, Copy, Structural)]
pub struct FactionError;

/// How one faction stands to another.
#[derive(Debug, PartialEq, Eq, Clone, Copy, Structural)]
pub enum Relation {
    /// The factions have never met.
    Unaware,
    /// The factions are one and the same.
    OwnFaction,
    /// The factions are allied.
    Allied,
    /// The factions are at war.
    AtWar,
}

/// A mapping from factions (by name) to relations, with each faction held at
/// most once.
#[derive(Debug, PartialEq, Clone)]
pub struct RelationMap {
    /// The entries, keyed by faction.
    pub pairs: Vec<(Faction, Relation)>,
}

/// The mapping a sequence of entries stands for; a later entry for the same
/// name overrides an earlier one.
pub open spec fn pairs_map(s: Seq<(Faction, Relation)>) -> Map<Seq<char>, Relation>
    decreases s.len(),
{
    if s.len() == 0 {
        Map::empty()
    } else {
        pairs_map(s.drop_last()).insert(s.last().0@, s.last().1)
    }
}

impl View for RelationMap {
    type V = Map<Seq<char>, Relation>;

    open spec fn view(&self) -> Map<Seq<char>, Relation> {
        pairs_map(self.pairs@)
    }
}

impl RelationMap {
    /// No faction appears twice.
    pub open spec fn wf(&self) -> bool {
        forall|i: int, j: int|
            0 <= i < j < self.pairs@.len() ==> (#[trigger] self.pairs@[i]).0@ != (
            #[trigger] self.pairs@[j]).0@
    }

    /// Creates an empty `RelationMap`.
    pub fn new() -> (r: Self)
        ensures
            r@ == Map::<Seq<char>, Relation>::empty(),
            r.wf(),
    {
        let r = Self { pairs: Vec::new() };
        proof {
            assert(r@ =~= Map::<Seq<char>, Relation>::empty());
        }
        r
    }

    /// Returns the relation recorded for the passed faction, if any.
    pub fn get(&self, faction: &Faction) -> (r: Option<Relation>)
        requires
            self.wf(),
        ensures
            self@.contains_key(faction@) ==> r == Some(self@[faction@]),
            !self@.contains_key(faction@) ==> r == None::<Relation>,
    {
        let ghost s = self.pairs@;
        let n = self.pairs.len();
        let mut i: usize = 0;
        while i < n
            invariant
                n == s.len(),
                i <= n,
                s == self.pairs@,
                self.wf(),
                forall|k: int| 0 <= k < i ==> (#[trigger] s[k]).0@ != faction@,
            decreases n - i,
        {
            if self.pairs[i].0.eq(faction) {
                proof {
                    lemma_pairs_map_found(s, i as int, faction@);
                }
                return Some(self.pairs[i].1);
            }
            i = i + 1;
        }
        proof {
            lemma_pairs_map_absent(s, faction@);
        }
        None
    }

    /// Records a relation for a faction, returning the relation previously
    /// recorded, if any.
    pub fn insert(&mut self, faction: Faction, relation: Relation) -> (r: Option<Relation>)
        requires
            old(self).wf(),
        ensures
            final(self).wf(),
            final(self)@ == old(self)@.insert(faction@, relation),
            old(self)@.contains_key(faction@) ==> r == Some(old(self)@[faction@]),
            !old(self)@.contains_key(faction@) ==> r == None::<Relation>,
    {
        let ghost s = self.pairs@;
        let n = self.pairs.len();
        let mut i: usize = 0;
        while i < n
            invariant
                n == s.len(),
                i <= n,
                *self == *old(self),
                s == self.pairs@,
                self.wf(),
                forall|k: int| 0 <= k < i ==> (#[trigger] s[k]).0@ != faction@,
            decreases n - i,
        {
            if self.pairs[i].0.eq(&faction) {
                let prev = self.pairs[i].1;
                proof {
                    lemma_pairs_map_found(s, i as int, faction@);
                }
                self.pairs[i] = (faction, relation);
                proof {
                    let s1 = self.pairs@;
                    assert(s1 == s.update(i as int, s1[i as int]));
                    lemma_pairs_map_update(s, i as int, s1[i as int]);
                    assert(pairs_map(s1) =~= pairs_map(s).insert(s1[i as int].0@, relation));
                }
                return Some(prev);
            }
            i = i + 1;
        }
        proof {
            lemma_pairs_map_absent(s, faction@);
        }
        self.pairs.push((faction, relation));
        proof {
            let s1 = self.pairs@;
            assert(s1.drop_last() =~= s);
            assert(pairs_map(s1) =~= pairs_map(s).insert(s1.last().0@, relation));
        }
        None
    }

    /// Removes the relation recorded for a faction, returning it if one was
    /// recorded; a faction with no record leaves the map untouched.
    pub fn remove(&mut self, faction: &Faction) -> (r: Option<Relation>)
        requires
            old(self).wf(),
        ensures
            final(self).wf(),
            final(self)@ == old(self)@.remove(faction@),
            old(self)@.contains_key(faction@) ==> r == Some(old(self)@[faction@]),
            !old(self)@.contains_key(faction@) ==> r == None::<Relation> && *final(self) == *old(
                self,
            ),
    {
        let ghost s = self.pairs@;
        let n = self.pairs.len();
        let mut i: usize = 0;
        while i < n
            invariant
                n == s.len(),
                i <= n,
                *self == *old(self),
                s == self.pairs@,
                self.wf(),
                forall|k: int| 0 <= k < i ==> (#[trigger] s[k]).0@ != faction@,
            decreases n - i,
        {
            if self.pairs[i].0.eq(faction) {
                proof {
                    lemma_pairs_map_found(s, i as int, faction@);
                }
                let pair = self.pairs.remove(i);
                proof {
                    let s1 = self.pairs@;
                    assert(s1 == s.remove(i as int));
                    s.remove_ensures(i as int);
                    lemma_pairs_map_remove(s, i as int);
                    assert(pairs_map(s1) =~= pairs_map(s).remove(faction@));
                }
                return Some(pair.1);
            }
            i = i + 1;
        }
        proof {
            lemma_pairs_map_absent(s, faction@);
            assert(pairs_map(s) =~= pairs_map(s).remove(faction@));
        }
        None
    }
}

/// With unique keys, the entry found at `i` is the map's value for its key.
proof fn lemma_pairs_map_found(s: Seq<(Faction, Relation)>, i: int, name: Seq<char>)
    requires
        0 <= i < s.len(),
        s[i].0@ == name,
        forall|a: int, b: int| 0 <= a < b < s.len() ==> (#[trigger] s[a]).0@ != (#[trigger] s[b]).0@,
    ensures
        pairs_map(s).contains_key(name),
        pairs_map(s)[name] == s[i].1,
    decreases s.len(),
{
    if i + 1 < s.len() {
        assert(forall|k: int| 0 <= k < s.drop_last().len() ==> #[trigger] s.drop_last()[k] == s[k]);
        lemma_pairs_map_found(s.drop_last(), i, name);
        assert(s.last().0@ != name);
    } else {
        assert(s.last() == s[i]);
    }
}

/// A name held by no entry is not in the map.
proof fn lemma_pairs_map_absent(s: Seq<(Faction, Relation)>, name: Seq<char>)
    requires
        forall|k: int| 0 <= k < s.len() ==> (#[trigger] s[k]).0@ != name,
    ensures
        !pairs_map(s).contains_key(name),
    decreases s.len(),
{
    if s.len() > 0 {
        assert(forall|k: int| 0 <= k < s.drop_last().len() ==> #[trigger] s.drop_last()[k] == s[k]);
        lemma_pairs_map_absent(s.drop_last(), name);
    }
}

/// Replacing the entry at `i`, under unique keys and an unchanged key,
/// updates exactly that key's value.
proof fn lemma_pairs_map_update(s: Seq<(Faction, Relation)>, i: int, x: (Faction, Relation))
    requires
        0 <= i < s.len(),
        x.0@ == s[i].0@,
        forall|a: int, b: int| 0 <= a < b < s.len() ==> (#[trigger] s[a]).0@ != (#[trigger] s[b]).0@,
    ensures
        pairs_map(s.update(i, x)) =~= pairs_map(s).insert(x.0@, x.1),
    decreases s.len(),
{
    let s1 = s.update(i, x);
    if i + 1 < s.len() {
        assert(forall|k: int| 0 <= k < s.drop_last().len() ==> #[trigger] s.drop_last()[k] == s[k]);
        lemma_pairs_map_update(s.drop_last(), i, x);
        assert(s1.drop_last() =~= s.drop_last().update(i, x));
        assert(s1.last() == s.last());
        assert(s.last().0@ != x.0@) by {
            assert(s[i].0@ == x.0@);
        }
        assert(pairs_map(s1) =~= pairs_map(s).insert(x.0@, x.1));
    } else {
        assert(s1.drop_last() =~= s.drop_last());
        assert(s1.last() == x);
        assert(pairs_map(s1) =~= pairs_map(s).insert(x.0@, x.1));
    }
}

/// Removing the entry at `i`, under unique keys, removes exactly that key.
proof fn lemma_pairs_map_remove(s: Seq<(Faction, Relation)>, i: int)
    requires
        0 <= i < s.len(),
        forall|a: int, b: int| 0 <= a < b < s.len() ==> (#[trigger] s[a]).0@ != (#[trigger] s[b]).0@,
    ensures
        pairs_map(s.remove(i)) =~= pairs_map(s).remove(s[i].0@),
    decreases s.len(),
{
    let s1 = s.remove(i);
    if i + 1 < s.len() {
        assert(forall|k: int| 0 <= k < s.drop_last().len() ==> #[trigger] s.drop_last()[k] == s[k]);
        lemma_pairs_map_remove(s.drop_last(), i);
        assert(s1.drop_last() =~= s.drop_last().remove(i));
        assert(s1.last() == s.last());
        assert(s.last().0@ != s[i].0@);
        assert(pairs_map(s1) =~= pairs_map(s).remove(s[i].0@));
    } else {
        assert(s1 =~= s.drop_last());
        assert(pairs_map(s1) =~= pairs_map(s).remove(s[i].0@)) by {
            lemma_pairs_map_absent_after(s, i);
        }
    }
}

/// With unique keys, the last entry's key is absent from the rest.
proof fn lemma_pairs_map_absent_after(s: Seq<(Faction, Relation)>, i: int)
    requires
        0 <= i < s.len(),
        i + 1 == s.len(),
        forall|a: int, b: int| 0 <= a < b < s.len() ==> (#[trigger] s[a]).0@ != (#[trigger] s[b]).0@,
    ensures
        !pairs_map(s.drop_last()).contains_key(s[i].0@),
{
    assert(forall|k: int| 0 <= k < s.drop_last().len() ==> #[trigger] s.drop_last()[k] == s[k]);
    lemma_pairs_map_absent(s.drop_last(), s[i].0@);
}

/// The relation a `FactionRelationships` value reports for a faction name:
/// the own faction, a recorded relation, or `Unaware`.
pub open spec fn rel_of(fr: FactionRelationships, name: Seq<char>) -> Relation {
    if name == fr.core@ {
        Relation::OwnFaction
    } else if fr.relationships@.contains_key(name) {
        fr.relationships@[name]
    } else {
        Relation::Unaware
    }
}

/// The relations from one faction, the core, to all others.
#[derive(Debug, PartialEq, Clone)]
pub struct FactionRelationships {
    /// The faction these relationships belong to.
    pub core: Faction,
    /// How the core faction relates to the others.
    pub relationships: RelationMap,
}

impl FactionRelationships {
    /// The relationships' invariant: the recorded map never names the core,
    /// and holds each faction at most once.
    pub open spec fn wf(&self) -> bool {
        &&& self.relationships.wf()
        &&& !self.relationships@.contains_key(self.core@)
    }

    /// Creates relationships around a faction that is unaware of any other.
    pub fn new(core: Faction) -> (r: FactionRelationships)
        ensures
            r.core == core,
            r.relationships@ == Map::<Seq<char>, Relation>::empty(),
            r.wf(),
    {
        FactionRelationships { core, relationships: RelationMap::new() }
    }

    /// Creates relationships around a faction with the passed recorded
    /// relations; a relation recorded for the core itself is discarded, and
    /// a map without one is taken over unchanged.
    pub fn from_parts(core: Faction, relationships: RelationMap) -> (r: FactionRelationships)
        requires
            relationships.wf(),
        ensures
            r.core == core,
            r.relationships@ == relationships@.remove(core@),
            !relationships@.contains_key(core@) ==> r.relationships == relationships,
            r.wf(),
    {
        let mut relationships = relationships;
        relationships.remove(&core);
        FactionRelationships { core, relationships }
    }

    /// Returns the relation the core faction has with the passed faction:
    /// itself, a recorded relation, or `Unaware`.
    pub fn get_relation(&self, faction: &Faction) -> (r: Relation)
        requires
            self.relationships.wf(),
        ensures
            r == rel_of(*self, faction@),
    {
        if faction.eq(&self.core) {
            Relation::OwnFaction
        } else {
            match self.relationships.get(faction) {
                None => Relation::Unaware,
                Some(relation) => relation,
            }
        }
    }

    /// Sets the relation of the core faction with the passed faction and
    /// returns the old one (`Unaware` when none was recorded); setting
    /// `Unaware` removes the record.  `None` is returned, and nothing
    /// changes, when the faction is the core itself.
    pub fn set_relation(&mut self, faction: Faction, relation: Relation) -> (r: Option<Relation>)
        requires
            old(self).wf(),
        ensures
            final(self).wf(),
            final(self).core == old(self).core,
            faction@ == old(self).core@ ==> r == None::<Relation> && *final(self) == *old(self),
            faction@ != old(self).core@ && relation == Relation::Unaware ==> final(self).relationships@ == old(self).relationships@.remove(faction@),
            faction@ != old(self).core@ && relation != Relation::Unaware ==> final(self).relationships@ == old(self).relationships@.insert(faction@, relation),
            faction@ != old(self).core@ ==> r == Some(rel_of(*old(self), faction@)),
    {
        if faction.eq(&self.core) {
            None
        } else if matches!(relation, Relation::Unaware) {
            match self.relationships.remove(&faction) {
                None => Some(Relation::Unaware),
                relation => relation,
            }
        } else {
            match self.relationships.insert(faction, relation) {
                None => Some(Relation::Unaware),
                relation => relation,
            }
        }
    }

    /// Two relationship tables are consistent when the two factions agree on
    /// their relation to each other, counting an `Unaware` side as agreeing
    /// with anything.
    pub fn are_consistent(left: &Self, right: &Self) -> (r: bool)
        requires
            left.relationships.wf(),
            right.relationships.wf(),
        ensures
            r == (rel_of(*left, right.core@) == Relation::Unaware || rel_of(*right, left.core@)
                == Relation::Unaware || rel_of(*left, right.core@) == rel_of(
                *right,
                left.core@,
            )),
    {
        let relation = left.get_relation(&right.core);
        if matches!(relation, Relation::Unaware) {
            true
        } else {
            let other_relation = right.get_relation(&left.core);
            if matches!(other_relation, Relation::Unaware) {
                true
            } else {
                relation_eq(relation, other_relation)
            }
        }
    }
}

/// Exec equality of two relations.
fn relation_eq(a: Relation, b: Relation) -> (r: bool)
    ensures
        r == (a == b),
{
    a == b
}


/// A value tagged with the faction it belongs to.
#[derive(Debug, Clone)]
pub struct AllignedInstance<T>(pub Faction, pub T);

} // verus!
