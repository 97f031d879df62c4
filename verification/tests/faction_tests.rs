//! Tests for factions and their relationships.

use the_brass::factions::{Faction, FactionRelationships, Relation};

#[test]
fn test_faction_relationships() {
    let core = if let Ok(_) = Faction::new("") {
        panic!("`test_faction_family` Failed to error on invalid Faction string.")
    } else {
        Faction::new("test faction")
            .expect("`test_faction_family` Failed to create Faction from valid string.")
    };
    let faction = Faction::new("second faction")
        .expect("`test_faction_family` Failed to create Faction from second valid string.");

    let mut relationships = FactionRelationships::new(core.clone());
    assert!(
        relationships.get_relation(&core) == Relation::OwnFaction,
        "`test_faction_family` Failed to recognise own Faction."
    );

    match relationships.set_relation(faction.clone(), Relation::Unaware) {
        None => panic!("`test_faction_family` Failed to recognise relation."),
        Some(x) => {
            if x != Relation::Unaware {
                panic!("`test_faction_family` Failed to return expect relation.")
            }
        },
    }

    relationships
        .set_relation(faction.clone(), Relation::Allied)
        .expect("`test_faction_family` Failed to set new relation.");

    assert!(
        relationships
            == FactionRelationships::from_parts(core.clone(), relationships.clone().relationships),
        "`test_faction_family` Failed to build `FactionRelationships` from parts."
    );

    let mut second_relationships = FactionRelationships::new(faction);
    second_relationships.set_relation(core.clone(), Relation::AtWar);

    assert!(
        !FactionRelationships::are_consistent(&relationships, &second_relationships),
        "`test_faction_family` Failed to check for consistent relationships."
    );

    assert!(
        second_relationships.set_relation(core.clone(), Relation::Allied)
            == Some(Relation::AtWar),
        "`test_faction_family` Failed to set new relationship."
    );

    assert!(
        FactionRelationships::are_consistent(&relationships, &second_relationships),
        "`test_faction_family` Failed to evaluate for consistent relationships."
    );
}

#[test]
fn test_faction_name_formatting() {
    // The first letter is uppercased and so is the first letter after each
    // run of spaces; everything else is dropped.
    let faction = Faction::new("test faction").unwrap();
    assert_eq!(faction.name().as_str(), "TF");

    let faction = Faction::new("the  grand  armada").unwrap();
    assert_eq!(faction.name().as_str(), "TGA");

    let faction = Faction::new("solo").unwrap();
    assert_eq!(faction.name().as_str(), "S");

    assert!(Faction::new("").is_err());
}

#[test]
fn test_faction_name_root_domain() {
    // A space must be followed by something that uppercases to a
    // non-space; a root failing that is outside `Faction::new`'s domain.
    assert!(Faction::accepts_name_root("grand fleet"));
    assert!(Faction::accepts_name_root("solo"));
    assert!(!Faction::accepts_name_root("grand "));
    assert!(!Faction::accepts_name_root("a   "));
}
