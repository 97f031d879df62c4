//! Tests for aggregate groups, attack pools, and fleets.

use std::rc::Rc;
use the_brass::attacks::{Attack, ReducedAttacks, TargetedAttack};
use the_brass::factions::Faction;
use the_brass::fleets::{AllignedFleet, Fleet, RepeatedShip, ShipGroup};
use the_brass::reduced_ship::ReducedShip;
use the_brass::ship::Ship;
use the_brass::ship_template::ShipTemplate;

fn hull_template(max_hull: u32, shield_capacity: u32) -> Rc<ShipTemplate> {
    Rc::new(ShipTemplate::new(1, 10, 1, max_hull, shield_capacity, 1, 0, 1, 10).unwrap())
}

#[test]
fn test_ship_damage_conservation() {
    // Shields absorb first; hull plus shield plus leftover accounts for
    // every point of damage.
    let template = Rc::new(ShipTemplate::new(1, 10, 1, 100, 50, 1, 0, 1, 10).unwrap());
    let mut ship = Ship::new(template, 10, 100, 50).unwrap();

    assert_eq!(ship.resolve_damage(30), 0);
    assert_eq!(ship.get_shield_points(), 20);
    assert_eq!(ship.get_hull_points(), 100);

    assert_eq!(ship.resolve_damage(150), 30);
    assert_eq!(ship.get_shield_points(), 0);
    assert_eq!(ship.get_hull_points(), 0);
}

#[test]
fn test_group_resolve_scenario() {
    // Ten identical units at hull 100, shield 0, against 550 damage: the
    // pool is spread evenly, so every unit takes 55, survives, and the
    // averaged representative ends at hull 45 with nothing left over.
    let template = hull_template(100, 100);
    let ship = Ship::new(template, 10, 100, 0).unwrap();
    let mut group = ReducedShip::new(ship, 10);

    let leftover = group.resolve_damage(550);
    assert_eq!(leftover, 0);
    assert_eq!(group.number, 10);
    assert_eq!(group.average_ship().get_hull_points(), 45);
    assert_eq!(group.average_ship().get_shield_points(), 0);
}

#[test]
fn test_group_wiped_out_returns_leftover() {
    // Two units of 100 hull against 300 damage: both die and exactly the
    // 100 points they could not absorb come back.
    let template = hull_template(100, 100);
    let ship = Ship::new(template, 10, 100, 0).unwrap();
    let mut group = ReducedShip::new(ship, 2);

    let leftover = group.resolve_damage(300);
    assert_eq!(leftover, 100);
    assert_eq!(group.number, 0);
    assert!(!group.is_alive());
}

#[test]
fn test_group_count_monotonic() {
    // Damage below one unit's health never shrinks the count.
    let template = hull_template(100, 100);
    let ship = Ship::new(template, 10, 100, 20).unwrap();
    let mut group = ReducedShip::new(ship, 4);
    group.resolve_damage(119);
    assert_eq!(group.number, 4);
}

#[test]
fn test_group_regenerate_shields() {
    let template = hull_template(100, 30);
    let ship = Ship::new(template, 10, 100, 29).unwrap();
    let mut group = ReducedShip::new(ship, 3);
    group.regenerate_shields();
    assert_eq!(group.average_ship().get_shield_points(), 30);
    group.regenerate_shields();
    assert_eq!(group.average_ship().get_shield_points(), 30);
}

#[test]
fn test_pool_construction_canonical() {
    // A pool built from a list, and from that list shuffled with one
    // bucket's count split over two entries, are identical.
    let original = vec![
        TargetedAttack::new(Attack::new(3, 5), 2),
        TargetedAttack::new(Attack::new(2, 4), 1),
        TargetedAttack::new(Attack::new(1, 5), 2),
    ];
    let shuffled_duplicated = vec![
        TargetedAttack::new(Attack::new(1, 5), 2),
        TargetedAttack::new(Attack::new(1, 4), 1),
        TargetedAttack::new(Attack::new(3, 5), 2),
        TargetedAttack::new(Attack::new(1, 4), 1),
    ];

    let a = ReducedAttacks::new(original);
    let b = ReducedAttacks::new(shuffled_duplicated);
    assert_eq!(a, b);

    let entries = a.iter();
    assert_eq!(entries.len(), 2);
    assert_eq!(entries[0], TargetedAttack::new(Attack::new(2, 4), 1));
    assert_eq!(entries[1], TargetedAttack::new(Attack::new(4, 5), 2));
}

#[test]
fn test_pool_add_and_clear() {
    let mut pool = ReducedAttacks::new(Vec::new());
    pool.add_attack(TargetedAttack::new(Attack::new(2, 9), 3));
    pool.add_attack(TargetedAttack::new(Attack::new(1, 2), 1));
    pool.add_attack(TargetedAttack::new(Attack::new(4, 9), 3));
    pool.add_attack(TargetedAttack::new(Attack::new(0, 7), 2));

    let entries = pool.iter().clone();
    assert_eq!(entries.len(), 3);
    assert_eq!(entries[0], TargetedAttack::new(Attack::new(1, 2), 1));
    assert_eq!(entries[1], TargetedAttack::new(Attack::new(0, 7), 2));
    assert_eq!(entries[2], TargetedAttack::new(Attack::new(6, 9), 3));

    pool.clear_used_attacks();
    assert_eq!(pool.iter().len(), 2);
    assert_eq!(pool.iter()[0], TargetedAttack::new(Attack::new(1, 2), 1));
    assert_eq!(pool.iter()[1], TargetedAttack::new(Attack::new(6, 9), 3));
}

#[test]
fn test_group_resolve_attacks_consumes_pool() {
    // An attack the group survives is fully consumed; one it cannot target
    // is untouched.
    let template = hull_template(100, 100);
    let ship = Ship::new(template, 10, 100, 0).unwrap();
    let mut group = ReducedShip::new(ship, 2);

    let mut pool = ReducedAttacks::new(vec![
        TargetedAttack::new(Attack::new(10, 3), 1),
        TargetedAttack::new(Attack::new(4, 4), 2),
    ]);
    group.resolve_attacks(&mut pool);

    // The group's size class is 1, so the bucket needing size 2 is left.
    assert_eq!(pool.iter()[0].attack.parallel_attacks, 0);
    assert_eq!(pool.iter()[1].attack.parallel_attacks, 4);
    assert_eq!(group.number, 2);
    assert_eq!(group.average_ship().get_hull_points(), 85);
}

#[test]
fn test_get_attacks_scales_with_count() {
    let template = Rc::new(ShipTemplate::new(1, 10, 1, 100, 100, 1, 0, 2, 7).unwrap());
    let ship = Ship::new(template, 10, 100, 0).unwrap();
    let group = ReducedShip::new(ship, 3);
    let pool = group.get_attacks();
    assert_eq!(pool.iter().len(), 1);
    assert_eq!(pool.iter()[0], TargetedAttack::new(Attack::new(3, 7), 2));

    let unarmed = Rc::new(ShipTemplate::new(1, 10, 1, 100, 100, 1, 0, 2, 0).unwrap());
    let ship = Ship::new(unarmed, 10, 100, 0).unwrap();
    let group = ReducedShip::new(ship, 3);
    assert_eq!(group.get_attacks().iter().len(), 0);
}

#[test]
fn test_repeated_ship_merge() {
    let template = hull_template(100, 40);
    let a_ship = Ship::new(template.clone(), 10, 100, 40).unwrap();
    let b_ship = Ship::new(template, 4, 50, 20).unwrap();
    let mut a = RepeatedShip::new(a_ship, 2);
    let b = RepeatedShip::new(b_ship, 2);

    assert!(a.same_template(&b));
    assert!(a.checked_merge(b).is_none());
    assert_eq!(a.counter, 4);
    assert_eq!(a.ship_average.get_fuel_units(), 7);
    assert_eq!(a.ship_average.get_hull_points(), 75);
    assert_eq!(a.ship_average.get_shield_points(), 30);
}

#[test]
fn test_checked_merge_rejects_other_template() {
    let a_ship = Ship::new(hull_template(100, 40), 10, 100, 40).unwrap();
    let b_ship = Ship::new(hull_template(200, 40), 10, 200, 40).unwrap();
    let mut a = RepeatedShip::new(a_ship, 2);
    let b = RepeatedShip::new(b_ship.clone(), 2);
    let handed_back = a.checked_merge(b).expect("merge across templates accepted");
    assert_eq!(handed_back.counter, 2);
    assert_eq!(handed_back.ship_average.get_hull_points(), 200);
    assert_eq!(a.counter, 2);
}

#[test]
fn test_ship_group_new_merges_and_drops() {
    let template = hull_template(100, 40);
    let full = Ship::new(template.clone(), 10, 100, 40).unwrap();
    let other = Ship::new(hull_template(60, 10), 10, 60, 10).unwrap();

    let group = ShipGroup::new(vec![
        RepeatedShip::new(full.clone(), 2),
        RepeatedShip::new(other, 0),
        RepeatedShip::new(full, 3),
    ]);
    assert_eq!(group.types_count(), 1);
    assert_eq!(group.ships[0].counter, 5);
    assert_eq!(group.ships[0].ship_average.get_hull_points(), 100);
}

#[test]
fn test_fleet_ordering() {
    // A pool carrying more damage than the front group's whole health kills
    // the front group, and the back group absorbs exactly what is left.
    let template = hull_template(10, 10);
    let front_ship = Ship::new(template.clone(), 10, 10, 0).unwrap();
    let back_ship = Ship::new(template, 10, 10, 0).unwrap();
    let front = ShipGroup::new(vec![RepeatedShip::new(front_ship, 1)]);
    let back = ShipGroup::new(vec![RepeatedShip::new(back_ship, 1)]);
    let mut fleet = Fleet::new(vec![front, back]);

    // Fifteen points of damage against ten points of front-group health.
    let mut pool = ReducedAttacks::new(vec![TargetedAttack::new(Attack::new(3, 5), 1)]);
    fleet.resolve_attacks(&mut pool);

    assert_eq!(fleet.groups[0].types_count(), 0, "front group survived");
    assert_eq!(fleet.groups[1].types_count(), 1);
    assert_eq!(fleet.groups[1].ships[0].counter, 1);
    // The back group's health dropped by the fifteen original points minus
    // the front group's ten points of effective health.
    assert_eq!(fleet.groups[1].ships[0].ship_average.get_hull_points(), 5);
    assert_eq!(pool.iter()[0].attack.parallel_attacks, 0);
}

#[test]
fn test_alligned_fleet_resolves_like_its_fleet() {
    let template = hull_template(10, 10);
    let ship = Ship::new(template, 10, 10, 0).unwrap();
    let group = ShipGroup::new(vec![RepeatedShip::new(ship, 1)]);
    let fleet = Fleet::new(vec![group]);
    let faction = Faction::new("home fleet").unwrap();
    let mut alligned = AllignedFleet::new(fleet, faction);

    let mut pool = ReducedAttacks::new(vec![TargetedAttack::new(Attack::new(1, 4), 1)]);
    alligned.resolve_attacks(&mut pool);

    assert_eq!(alligned.faction.name().as_str(), "HF");
    assert_eq!(alligned.fleet.groups[0].ships[0].ship_average.get_hull_points(), 6);
    assert_eq!(pool.iter()[0].attack.parallel_attacks, 0);
}

#[test]
fn test_group_overwhelmed_by_split_pool() {
    // The damage that annihilates a group may arrive split over several
    // entries: ten points of health against two entries worth twelve.
    let template = hull_template(10, 10);
    let ship = Ship::new(template, 10, 10, 0).unwrap();
    let mut group = ReducedShip::new(ship, 1);
    let mut pool = ReducedAttacks::new(vec![
        TargetedAttack::new(Attack::new(2, 3), 1),
        TargetedAttack::new(Attack::new(1, 6), 1),
    ]);
    group.resolve_attacks(&mut pool);
    assert_eq!(group.number, 0);
    assert!(!group.is_alive());
}
