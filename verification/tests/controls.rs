use pvp::controls::{press_control, ControlAction, Controls, CrewStations, PowerDir};
use pvp::doors::SetDoorsOpen;
use pvp::intel::{WeaponIntel, WeaponsIntel};
use pvp::ship::SystemId;
use pvp::systems::SystemDamageIntel;
use pvp::weapon::{heavy_laser, pike_beam};

fn powered_laser_unpowered_beam() -> Option<WeaponsIntel> {
    Some(WeaponsIntel {
        weapons: vec![
            WeaponIntel { weapon: heavy_laser(), powered: true },
            WeaponIntel { weapon: pike_beam(), powered: false },
        ],
        damage: SystemDamageIntel::Undamaged,
    })
}

#[test]
fn system_power_keys_adjust_power() {
    let control = Controls::SystemPower { dir: PowerDir::Remove, system: SystemId::Shields };
    assert_eq!(
        press_control(control, &None, false),
        Some(ControlAction::AdjustPower { dir: PowerDir::Remove, system: SystemId::Shields })
    );
}

#[test]
fn powering_a_powered_weapon_starts_aiming_it() {
    let control = Controls::WeaponPower { dir: PowerDir::Request, weapon_index: 0 };
    assert_eq!(
        press_control(control, &powered_laser_unpowered_beam(), false),
        Some(ControlAction::StartTargeting { weapon_index: 0 })
    );
}

#[test]
fn powering_an_unpowered_weapon_asks_for_power() {
    let control = Controls::WeaponPower { dir: PowerDir::Request, weapon_index: 1 };
    assert_eq!(
        press_control(control, &powered_laser_unpowered_beam(), false),
        Some(ControlAction::WeaponPower { dir: PowerDir::Request, weapon_index: 1 })
    );
}

#[test]
fn depowering_a_powered_weapon_returns_power() {
    let control = Controls::WeaponPower { dir: PowerDir::Remove, weapon_index: 0 };
    assert_eq!(
        press_control(control, &powered_laser_unpowered_beam(), false),
        Some(ControlAction::WeaponPower { dir: PowerDir::Remove, weapon_index: 0 })
    );
}

#[test]
fn weapon_keys_without_a_weapon_do_nothing() {
    let control = Controls::WeaponPower { dir: PowerDir::Request, weapon_index: 2 };
    assert_eq!(press_control(control, &powered_laser_unpowered_beam(), false), None);
    let control = Controls::WeaponPower { dir: PowerDir::Request, weapon_index: 0 };
    assert_eq!(press_control(control, &None, false), None);
}

#[test]
fn autofire_key_toggles_autofire() {
    assert_eq!(press_control(Controls::Autofire, &None, false), Some(ControlAction::SetAutofire(true)));
    assert_eq!(press_control(Controls::Autofire, &None, true), Some(ControlAction::SetAutofire(false)));
}

#[test]
fn door_and_station_keys() {
    assert_eq!(
        press_control(Controls::AllDoors { open: true }, &None, false),
        Some(ControlAction::SetDoorsOpen(SetDoorsOpen::All { open: true }))
    );
    assert_eq!(
        press_control(Controls::SaveStations, &None, false),
        Some(ControlAction::CrewStations(CrewStations::Save))
    );
    assert_eq!(
        press_control(Controls::ReturnToStations, &None, false),
        Some(ControlAction::CrewStations(CrewStations::Return))
    );
}
