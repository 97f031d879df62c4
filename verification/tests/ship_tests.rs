//! Tests for ship templates, ships, and the template cache.

use std::rc::Rc;
use the_brass::ship::{build_game_ship, Ship};
use the_brass::ship_error::ShipError;
use the_brass::ship_template::{ShipTemplate, TemplateBuf};
use the_brass::factions::Faction;

#[test]
fn test_ship_template() {
    let template = ShipTemplate::new(1, 10, 1, 100, 100, 1, 0, 1, 0);
    let template = template.expect("`ShipTemplate::new` failed to create `ShipTemplate`.");
    assert!(
        template.ship_size_class == 1
            && template.get_fuel_capacity() == 10
            && template.get_fuel_use() == 1
            && template.max_hull == 100
            && template.get_shield_capacity() == 100
            && template.get_shield_recovery() == 1
            && template.cargo_capacity == 0
            && template.smallest_target == 1
            && template.attack_damage == 0,
        "`ShipTemplate::new` returned incorrect `ShipTemplate`."
    );

    let template = ShipTemplate::new(1, 10, 1, 100, 0, 1, 0, 1, 0);
    assert!(
        template.expect_err("`ShipTemplate::new` failed to error on invalid `shield_recovery`.")
            == ShipError::ShieldError,
        "`ShipTemplate::new` returned incorrect `ShipError`."
    );

    let template = ShipTemplate::new(1, 0, 1, 100, 100, 1, 0, 1, 0);
    assert!(
        template.expect_err("`ShipTemplate::new` failed to error on invalid `fuel_use`.")
            == ShipError::FuelError,
        "`ShipTemplate::new` returned incorrect `ShipError`."
    );
}

#[test]
fn test_ship() {
    let template = Rc::new(ShipTemplate::new(1, 10, 1, 100, 100, 1, 0, 1, 10).unwrap());

    assert_eq!(
        Ship::new(template.clone(), 11, 100, 100).expect_err("fuel over capacity accepted"),
        ShipError::FuelError
    );
    assert_eq!(
        Ship::new(template.clone(), 10, 200, 100).expect_err("hull over maximum accepted"),
        ShipError::HullError
    );
    assert_eq!(
        Ship::new(template.clone(), 10, 100, 200).expect_err("shield over capacity accepted"),
        ShipError::ShieldError
    );

    let mut ship = Ship::new(template.clone(), 10, 100, 100).expect("valid ship refused");

    let low_fuel = Rc::new(ShipTemplate::new(1, 5, 1, 100, 100, 1, 0, 1, 10).unwrap());
    assert_eq!(ship.set_template(low_fuel).expect_err("bad swap accepted"), ShipError::FuelError);
    let low_hull = Rc::new(ShipTemplate::new(1, 10, 1, 50, 100, 1, 0, 1, 10).unwrap());
    assert_eq!(ship.set_template(low_hull).expect_err("bad swap accepted"), ShipError::HullError);
    let low_shield = Rc::new(ShipTemplate::new(1, 10, 1, 100, 50, 1, 0, 1, 10).unwrap());
    assert_eq!(
        ship.set_template(low_shield).expect_err("bad swap accepted"),
        ShipError::ShieldError
    );
    let roomy = Rc::new(ShipTemplate::new(1, 20, 1, 200, 200, 1, 0, 1, 10).unwrap());
    ship.set_template(roomy).expect("roomier template refused");
    ship.set_template(template).expect("exact template refused");

    assert!(ship.is_alive(), "full ship not alive");

    ship.regenerate_shields();
    assert_eq!(ship.get_shield_points(), 100, "regeneration exceeded capacity");

    assert_eq!(ship.resolve_damage(50), 0, "first resolve returned damage");
    assert!(ship.get_shield_points() == 50 && ship.get_hull_points() == 100);

    ship.regenerate_shields();
    assert_eq!(ship.get_shield_points(), 51, "regeneration did not add recovery");

    ship.regenerate_shields();
    assert_eq!(ship.resolve_damage(100), 0, "second resolve returned damage");
    assert!(ship.get_shield_points() == 0 && ship.get_hull_points() == 52);

    assert_eq!(ship.resolve_damage(100), 48, "third resolve returned wrong leftover");
    assert!(ship.get_shield_points() == 0 && ship.get_hull_points() == 0);
    assert!(!ship.is_alive(), "destroyed ship still alive");
}

#[test]
fn test_template_cache() {
    let mut cache = TemplateBuf::new(2);
    assert_eq!(cache.loaded(), 0);
    assert_eq!(cache.max_loaded(), 2);

    let corvette = ShipTemplate::new(1, 10, 1, 100, 100, 1, 0, 1, 5).unwrap();
    let cruiser = ShipTemplate::new(2, 20, 2, 200, 150, 2, 0, 1, 9).unwrap();
    let carrier = ShipTemplate::new(3, 30, 3, 300, 50, 1, 10, 1, 2).unwrap();

    cache.store(String::from("corvette"), corvette);
    cache.store(String::from("cruiser"), cruiser);
    assert_eq!(cache.loaded(), 2);
    assert!(cache.lookup(&String::from("corvette")).is_some());

    // A full cache evicts its oldest entry.
    cache.store(String::from("carrier"), carrier);
    assert_eq!(cache.loaded(), 2);
    assert!(cache.lookup(&String::from("corvette")).is_none());
    assert_eq!(cache.lookup(&String::from("cruiser")).unwrap().max_hull, 200);
    assert_eq!(cache.lookup(&String::from("carrier")).unwrap().max_hull, 300);

    cache.unload(&String::from("cruiser"));
    assert!(cache.lookup(&String::from("cruiser")).is_none());
    assert_eq!(cache.loaded(), 1);
}

#[test]
fn test_template_cache_unload_keeps_order() {
    // Unloading keeps the remaining entries oldest first, so a later full
    // store still evicts the oldest entry, not the newest.
    let mut cache = TemplateBuf::new(3);
    let a = ShipTemplate::new(1, 10, 1, 100, 10, 1, 0, 1, 1).unwrap();
    let b = ShipTemplate::new(1, 10, 1, 200, 10, 1, 0, 1, 1).unwrap();
    let c = ShipTemplate::new(1, 10, 1, 300, 10, 1, 0, 1, 1).unwrap();
    let d = ShipTemplate::new(1, 10, 1, 400, 10, 1, 0, 1, 1).unwrap();
    let e = ShipTemplate::new(1, 10, 1, 500, 10, 1, 0, 1, 1).unwrap();
    cache.store(String::from("a"), a);
    cache.store(String::from("b"), b);
    cache.store(String::from("c"), c);
    cache.unload(&String::from("a"));
    cache.store(String::from("d"), d);
    // The cache is full with [b, c, d]; the next store evicts b, the oldest.
    cache.store(String::from("e"), e);
    assert!(cache.lookup(&String::from("b")).is_none());
    assert_eq!(cache.lookup(&String::from("c")).unwrap().max_hull, 300);
    assert_eq!(cache.lookup(&String::from("d")).unwrap().max_hull, 400);
    assert_eq!(cache.lookup(&String::from("e")).unwrap().max_hull, 500);
}

#[test]
fn test_build_game_ship() {
    let mut cache = TemplateBuf::new(4);
    let corvette = ShipTemplate::new(1, 10, 1, 100, 80, 1, 0, 1, 5).unwrap();
    cache.store(String::from("corvette"), corvette);

    let faction = Faction::new("home fleet").unwrap();
    let spawned = build_game_ship(&cache, &String::from("corvette"), faction.clone())
        .expect("known template produced no ship");
    assert_eq!(spawned.0.name().as_str(), faction.name().as_str());
    assert_eq!(spawned.1.get_fuel_units(), 10);
    assert_eq!(spawned.1.get_hull_points(), 100);
    assert_eq!(spawned.1.get_shield_points(), 80);

    assert!(build_game_ship(&cache, &String::from("battleship"), faction).is_none());
}
