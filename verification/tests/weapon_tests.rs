//! Tests for weapons, weapon sets, and their record round trip.

use the_brass::weapons::distinct_weapon::DistinctWeapon;
use the_brass::weapons::distributed_damage::DistributedDamage;
use the_brass::weapons::reduced_weapon::ReducedWeapon;
use the_brass::weapons::targeted_damage::TargetedDamage;
use the_brass::weapons::weapon_error::WeaponError;

#[test]
fn test_targeted_damage() {
    let mut damage = TargetedDamage::new(0, 10);

    assert!(
        TargetedDamage::same_target(&damage, &damage.clone()),
        "`test_targeted_damage` Failed to compare same targets."
    );

    assert!(
        !TargetedDamage::same_target(&damage, &TargetedDamage::new(1, 0)),
        "`test_targeted_damage` Failed to compare different targets."
    );

    assert!(
        damage.add(&TargetedDamage::new(1, 10)).is_none(),
        "`test_targeted_damage` Failed to error on bad target."
    );

    assert!(
        damage.add(&TargetedDamage::new(0, 10)).expect(
            "`test_targeted_damage` Failed to add values on good input."
        ) == TargetedDamage::new(0, 20),
        "`test_targeted_damage` Failed to add values."
    );

    damage.fold(&TargetedDamage::new(0, 10));
    assert!(
        damage == TargetedDamage::new(0, 20),
        "`test_targeted_damage` Failed to add values."
    );
}

#[test]
fn test_distinct_weapon() {
    assert!(
        DistinctWeapon::new(0, 0, 0).err().unwrap() == WeaponError::DamageError,
        "`test_distinct_weapon` Failed to error on `damage_per_attack` while constructing `DistinctWeapon`."
    );

    assert!(
        DistinctWeapon::new(1, 1, 0).err().unwrap() == WeaponError::AttacksError,
        "`test_distinct_weapon` Failed to error on `simultainious_attacks` while constructing `DistinctWeapon`."
    );

    let mut weapon = DistinctWeapon::new(2, 2, 3).expect(
        "`test_distinct_weapon` Failed to construct `DistinctWeapon` on valid parts."
    );

    assert!(
        weapon == DistinctWeapon::from_parts(2, 2, 3),
        "`test_distinct_weapon` Failed to construct `DistinctWeapon`."
    );

    weapon.fold(&DistinctWeapon::from_parts(2, 3, 2));
    assert!(
        weapon == DistinctWeapon::from_parts(2, 2, 5),
        "`test_distinct_weapon` Failed to fold `DistinctWeapon`."
    );

    let mut targets = Vec::<DistributedDamage>::with_capacity(3);
    targets.push(DistributedDamage::new(TargetedDamage::new(1, 0), 3));
    targets.push(DistributedDamage::new(TargetedDamage::new(2, 0), 2));
    targets.push(DistributedDamage::new(TargetedDamage::new(3, 0), 1));
    weapon.distribute_attacks(&mut targets);
    assert!(
        targets == [
            DistributedDamage::new(TargetedDamage::new(1, 0), 3),
            DistributedDamage::new(TargetedDamage::new(2, 4), 2),
            DistributedDamage::new(TargetedDamage::new(3, 6), 1),
        ],
        "`test_distinct_weapon` Failed to distribute attacks."
    );

    let props = weapon.into_properties().props;
    for &(key, value) in [
        ("target_size", "2"),
        ("damage_per_attack", "2"),
        ("simultainious_attacks", "5"),
    ]
        .iter()
    {
        assert!(
            Some(value) == props.get(&String::from(key)).map(|s| s.as_str()),
            "`test_distinct_weapon` Failed to create `Properties` from `DistinctWeapon`."
        )
    }

    assert!(
        Ok(weapon) == DistinctWeapon::from_properties(&props),
        "`test_distinct_weapon` Failed to create `DistinctWeapon` from `Properties`."
    );
}

#[test]
fn test_reduced_weapon() {
    let mut weapons = ReducedWeapon::from_parts(
        [DistinctWeapon::from_parts(0, 1, 2), DistinctWeapon::from_parts(1, 2, 3)].to_vec(),
    );

    assert!(
        ReducedWeapon::new(
            [DistinctWeapon::from_parts(0, 1, 2), DistinctWeapon::from_parts(0, 2, 3)].to_vec()
        )
            .err()
            .expect("`test_reduced_weapon` Failed to error on bad target size.")
            == WeaponError::TargetError,
        "`test_reduced_weapon` Failed to raise `TargetError`."
    );

    assert!(
        ReducedWeapon::new(
            [DistinctWeapon::from_parts(0, 1, 2), DistinctWeapon::from_parts(1, 0, 3)].to_vec()
        )
            .err()
            .expect("`test_reduced_weapon` Failed to error on bad damage.")
            == WeaponError::DamageError,
        "`test_reduced_weapon` Failed to raise `DamageError`."
    );

    assert!(
        ReducedWeapon::new(
            [DistinctWeapon::from_parts(0, 1, 2), DistinctWeapon::from_parts(1, 2, 0)].to_vec()
        )
            .err()
            .expect("`test_reduced_weapon` Failed to error on bad attacks.")
            == WeaponError::AttacksError,
        "`test_reduced_weapon` Failed to raise `AttacksError`."
    );

    assert!(
        weapons
            == ReducedWeapon::new(
                [DistinctWeapon::from_parts(0, 1, 2), DistinctWeapon::from_parts(1, 2, 3)]
                    .to_vec()
            )
                .expect("`test_reduced_weapon` Failed on good input."),
        "`test_reduced_weapon` Failed to construct `ReducedWeapon` on good input."
    );

    weapons.add(&DistinctWeapon::from_parts(0, 1, 2));
    assert!(
        weapons
            == ReducedWeapon::from_parts(
                [DistinctWeapon::from_parts(0, 1, 4), DistinctWeapon::from_parts(1, 2, 3)]
                    .to_vec()
            ),
        "`test_reduced_weapon` Failed to add `DistinctWeapon`."
    );

    weapons.fold(
        &[DistinctWeapon::from_parts(0, 1, 2), DistinctWeapon::from_parts(1, 2, 3)].to_vec(),
    );
    assert!(
        weapons
            == ReducedWeapon::from_parts(
                [DistinctWeapon::from_parts(0, 1, 6), DistinctWeapon::from_parts(1, 2, 6)]
                    .to_vec()
            ),
        "`test_reduced_weapon` Failed to fold into `ReducedWeapon`."
    );

    let mut targets = Vec::<DistributedDamage>::with_capacity(3);
    targets.push(DistributedDamage::new(TargetedDamage::new(0, 0), 3));
    targets.push(DistributedDamage::new(TargetedDamage::new(1, 0), 2));
    targets.push(DistributedDamage::new(TargetedDamage::new(2, 0), 1));
    weapons.distribute_attacks(&mut targets);
    assert!(
        targets == [
            DistributedDamage::new(TargetedDamage::new(0, 3), 3),
            DistributedDamage::new(TargetedDamage::new(1, 10), 2),
            DistributedDamage::new(TargetedDamage::new(2, 5), 1),
        ],
        "`test_reduced_weapon` Failed to distribute attacks."
    );
}

#[test]
fn test_weapon_record_roundtrip() {
    // Reading back the written record restores the weapon exactly.
    let weapon = DistinctWeapon::new(7, 4294967295, 1).unwrap();
    let props = weapon.into_properties().props;
    assert_eq!(DistinctWeapon::from_properties(&props), Ok(weapon));

    // A malformed record names the field errors the constructor would.
    let zero_damage = DistinctWeapon::from_parts(1, 0, 5).into_properties().props;
    assert_eq!(DistinctWeapon::from_properties(&zero_damage), Err(WeaponError::DamageError));
    let zero_attacks = DistinctWeapon::from_parts(1, 5, 0).into_properties().props;
    assert_eq!(DistinctWeapon::from_properties(&zero_attacks), Err(WeaponError::AttacksError));

    // A record missing a field is refused.
    let mut partial = DistinctWeapon::from_parts(1, 2, 3).into_properties().props;
    partial.insert(String::from("damage_per_attack"), String::from("not a number"));
    assert_eq!(DistinctWeapon::from_properties(&partial), Err(WeaponError::TargetError));
}
