use pvp::intel::{intel_visibility, IntelVisibility, ShieldIntel, SystemIntel, WeaponIntel};
use pvp::nav::Cell;
use pvp::ship::SystemId;
use pvp::ship_state::{default_ship_state, ShipState};
use pvp::systems::SystemDamageIntel;
use pvp::weapon::{BeamWeaponId, ProjectileWeaponId, WeaponId};
use pvp::weapons::WeaponTarget;

type Ship = ShipState<usize, usize, f32>;

fn ship() -> Ship {
    default_ship_state(100.0, [1, 2, 3])
}

#[test]
fn basic_intel_of_default_ship() {
    let mut ship = ship();
    ship.request_power(SystemId::Shields).unwrap();
    ship.power_weapon(2).unwrap();
    ship.projectile_hit(3, 1, &vec![]);
    let intel = ship.basic_intel();
    assert_eq!(intel.ship_type, 0);
    assert_eq!(intel.hull, 29);
    assert_eq!(
        intel.system_locations,
        vec![(SystemId::Shields, 1), (SystemId::Weapons, 2), (SystemId::Engines, 3)]
    );
    assert_eq!(
        intel.shields,
        Some(ShieldIntel { max_layers: 1, layers: 0, damage: SystemDamageIntel::Undamaged })
    );
    assert_eq!(intel.engines, Some(SystemDamageIntel::Damaged));
    let weapons = intel.weapons.unwrap();
    assert_eq!(weapons.damage, SystemDamageIntel::Undamaged);
    assert_eq!(
        weapons.weapons,
        vec![
            WeaponIntel { weapon: WeaponId::Projectile(ProjectileWeaponId(0)), powered: false },
            WeaponIntel { weapon: WeaponId::Projectile(ProjectileWeaponId(2)), powered: false },
            WeaponIntel { weapon: WeaponId::Beam(BeamWeaponId(0)), powered: true },
        ]
    );
}

#[test]
fn destroyed_system_intel() {
    let mut ship = ship();
    ship.projectile_hit(3, 9, &vec![]);
    assert_eq!(ship.basic_intel().engines, Some(SystemDamageIntel::Destroyed));
}

#[test]
fn systems_intel_lists_installed_systems() {
    let mut ship = ship();
    ship.request_power(SystemId::Engines).unwrap();
    let intel = ship.systems_intel();
    assert_eq!(
        intel,
        vec![
            (SystemId::Shields, SystemIntel { upgrade_level: 4, damage: 0, current_power: 0 }),
            (SystemId::Weapons, SystemIntel { upgrade_level: 4, damage: 0, current_power: 0 }),
            (SystemId::Engines, SystemIntel { upgrade_level: 4, damage: 0, current_power: 1 }),
        ]
    );
}

#[test]
fn weapon_charge_grows_while_powered() {
    let mut ship = ship();
    assert_eq!(ship.weapon_charge_intel(), vec![0, 0, 0]);
    ship.power_weapon(0).unwrap();
    ship.update_weapons();
    ship.update_weapons();
    assert_eq!(ship.weapon_charge_intel(), vec![2, 0, 0]);
}

#[test]
fn self_intel_reports_power_and_targets() {
    let mut ship = ship();
    ship.power_weapon(0).unwrap();
    ship.set_projectile_weapon_target(0, Some(4), false).unwrap();
    ship.set_autofire(true).unwrap();
    let intel = ship.self_intel();
    assert_eq!(intel.max_power, 8);
    assert_eq!(intel.free_power, 7);
    assert_eq!(intel.missiles, 10);
    assert!(intel.autofire);
    assert_eq!(intel.weapon_targets.len(), 3);
    assert!(matches!(intel.weapon_targets[0], Some(WeaponTarget::Projectile(4))));
    assert!(intel.weapon_targets[1].is_none());
    assert!(intel.weapon_targets[2].is_none());
}

#[test]
fn self_intel_without_weapons() {
    let ship: Ship = ShipState::new();
    let intel = ship.self_intel();
    assert_eq!(intel.max_power, 0);
    assert!(intel.weapon_targets.is_empty());
    assert!(!intel.autofire);
}

#[test]
fn own_ship_visibility() {
    assert_eq!(
        intel_visibility(true, 0),
        IntelVisibility { self_intel: true, weapon_charge: true, systems: true, interior: false }
    );
    assert_eq!(
        intel_visibility(true, 1),
        IntelVisibility { self_intel: true, weapon_charge: true, systems: true, interior: true }
    );
}

#[test]
fn enemy_ship_visibility_grows_with_sensors() {
    assert_eq!(
        intel_visibility(false, 1),
        IntelVisibility { self_intel: false, weapon_charge: false, systems: false, interior: false }
    );
    assert_eq!(
        intel_visibility(false, 2),
        IntelVisibility { self_intel: false, weapon_charge: false, systems: false, interior: true }
    );
    assert_eq!(
        intel_visibility(false, 3),
        IntelVisibility { self_intel: false, weapon_charge: true, systems: false, interior: true }
    );
    assert_eq!(
        intel_visibility(false, 4),
        IntelVisibility { self_intel: false, weapon_charge: true, systems: true, interior: true }
    );
}

#[test]
fn interior_intel_of_empty_cells() {
    let ship = ship();
    let rooms = ship.interior_intel(&vec![Cell(99)]);
    assert_eq!(rooms.len(), 6);
    assert!(rooms.iter().all(|r| r.is_empty()));
}

#[test]
fn self_intel_lists_the_crew() {
    let ship = ship();
    let intel = ship.self_intel();
    let names: Vec<&str> = intel.crew.iter().map(|c| c.name.as_str()).collect();
    assert_eq!(names, vec!["Fish", "Virus", "Stick"]);
    let cells: Vec<Cell> = intel.crew.iter().map(|c| c.nav_status.occupied_cell()).collect();
    assert_eq!(cells, vec![Cell(2), Cell(6), Cell(10)]);
    assert_eq!(intel.crew[0].health, 100.0);
}

#[test]
fn basic_intel_shows_which_doors_are_open() {
    let mut ship = ship();
    assert!(ship.basic_intel().doors.is_empty());
    ship.doors = vec![true, false, true];
    assert_eq!(ship.basic_intel().doors, vec![true, false, true]);
}
