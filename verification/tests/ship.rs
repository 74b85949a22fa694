use pvp::combat::ShieldOutcome;
use pvp::crew::CrewTask;
use pvp::nav::{Cell, CrewNavStatus};
use pvp::ship::{ships, SystemId};
use pvp::ship_state::{default_ship_state, ShipError, ShipState};
use pvp::weapon::{BeamWeaponId, ProjectileWeaponId, WeaponId};

type Ship = ShipState<usize, usize, f32>;

fn ship() -> Ship {
    default_ship_state(100.0, [1, 2, 3])
}

fn crew_cells(ship: &Ship) -> Vec<Cell> {
    ship.crew.iter().map(|c| c.nav_status.occupied_cell()).collect()
}

#[test]
fn default_ship_is_ready_for_battle() {
    let ship = ship();
    assert_eq!(ship.ship_type, 0);
    assert_eq!(ship.reactor.upgrade_level, 8);
    assert_eq!(ship.reactor.available, 8);
    assert_eq!(ship.hull(), 30);
    assert!(!ship.is_dead());
    assert_eq!(ship.missiles, 10);
    let names: Vec<&str> = ship.crew.iter().map(|c| c.name.as_str()).collect();
    assert_eq!(names, vec!["Fish", "Virus", "Stick"]);
    assert_eq!(crew_cells(&ship), vec![Cell(2), Cell(6), Cell(10)]);
    assert!(ship.crew.iter().all(|c| c.health == 100.0 && c.task == CrewTask::Idle && c.station.is_none()));
    let weapons = &ship.systems.weapons.as_ref().unwrap().0;
    let kinds: Vec<WeaponId> = weapons.entries.iter().map(|e| e.weapon()).collect();
    assert_eq!(
        kinds,
        vec![
            WeaponId::Projectile(ProjectileWeaponId(0)),
            WeaponId::Projectile(ProjectileWeaponId(2)),
            WeaponId::Beam(BeamWeaponId(0)),
        ]
    );
    assert_eq!(ship.systems.system_room(SystemId::Shields), Some(1));
    assert_eq!(ship.systems.system_room(SystemId::Weapons), Some(2));
    assert_eq!(ship.systems.system_room(SystemId::Engines), Some(3));
}

#[test]
fn new_ship_has_no_systems() {
    let mut ship: Ship = ShipState::new();
    assert_eq!(ship.max_hull, 30);
    assert_eq!(ship.missiles, 10);
    assert!(ship.crew.is_empty());
    assert_eq!(ship.request_power(SystemId::Shields), Err(ShipError::SystemNotInstalled(SystemId::Shields)));
    assert_eq!(ship.remove_power(SystemId::Engines), Err(ShipError::SystemNotInstalled(SystemId::Engines)));
    assert_eq!(ship.power_weapon(0), Err(ShipError::WeaponsNotInstalled));
    assert_eq!(ship.depower_weapon(0), Err(ShipError::WeaponsNotInstalled));
    assert_eq!(ship.set_autofire(true), Err(ShipError::WeaponsNotInstalled));
    assert_eq!(ship.move_weapon(0, 1), Err(ShipError::WeaponsNotInstalled));
    assert_eq!(ship.set_projectile_weapon_target(0, Some(1), false), Err(ShipError::WeaponsNotInstalled));
    assert_eq!(ship.set_beam_weapon_target(0, Some(1)), Err(ShipError::WeaponsNotInstalled));
}

#[test]
fn installing_twice_is_refused() {
    let mut ship: Ship = ShipState::new();
    assert_eq!(ship.install_system(SystemId::Engines, 3), Ok(()));
    assert_eq!(ship.install_system(SystemId::Engines, 4), Err(ShipError::SystemAlreadyInstalled(SystemId::Engines)));
    assert_eq!(ship.systems.system_room(SystemId::Engines), Some(3));
}

#[test]
fn shield_power_comes_in_pairs_and_round_trips() {
    let mut ship = ship();
    assert_eq!(ship.request_power(SystemId::Shields), Ok(()));
    assert_eq!(ship.systems.current_power(SystemId::Shields), Some(2));
    assert_eq!(ship.reactor.available, 6);
    assert_eq!(ship.remove_power(SystemId::Shields), Ok(()));
    assert_eq!(ship.systems.current_power(SystemId::Shields), Some(0));
    assert_eq!(ship.reactor.available, 8);
}

#[test]
fn shield_power_is_capped_by_level() {
    let mut ship = ship();
    for _ in 0..5 {
        assert_eq!(ship.request_power(SystemId::Shields), Ok(()));
    }
    // Level 4 holds two layers: four units of power.
    assert_eq!(ship.systems.current_power(SystemId::Shields), Some(4));
    assert_eq!(ship.reactor.available, 4);
}

#[test]
fn engine_power_counts_each_unit() {
    let mut ship = ship();
    assert_eq!(ship.request_power(SystemId::Engines), Ok(()));
    assert_eq!(ship.request_power(SystemId::Engines), Ok(()));
    assert_eq!(ship.systems.current_power(SystemId::Engines), Some(2));
    assert_eq!(ship.dodge_chance(), 10);
    assert_eq!(ship.reactor.available, 6);
}

#[test]
fn reactor_power_is_conserved() {
    let mut ship = ship();
    ship.request_power(SystemId::Shields).unwrap();
    ship.request_power(SystemId::Engines).unwrap();
    ship.power_weapon(1).unwrap();
    let drawn = ship.systems.current_power(SystemId::Shields).unwrap()
        + ship.systems.current_power(SystemId::Engines).unwrap()
        + ship.systems.current_power(SystemId::Weapons).unwrap();
    assert_eq!(drawn, 5);
    assert_eq!(ship.reactor.available + drawn, ship.reactor.upgrade_level);
}

#[test]
fn weapon_power_round_trip() {
    let mut ship = ship();
    assert_eq!(ship.power_weapon(0), Ok(()));
    assert_eq!(ship.reactor.available, 7);
    assert!(ship.systems.weapons.as_ref().unwrap().0.entries[0].is_powered());
    assert_eq!(ship.depower_weapon(0), Ok(()));
    assert_eq!(ship.reactor.available, 8);
    assert!(!ship.systems.weapons.as_ref().unwrap().0.entries[0].is_powered());
}

#[test]
fn moving_a_weapon_reorders_hardpoints() {
    let mut ship = ship();
    ship.power_weapon(0).unwrap();
    assert_eq!(ship.move_weapon(0, 2), Ok(()));
    let weapons = &ship.systems.weapons.as_ref().unwrap().0;
    let kinds: Vec<WeaponId> = weapons.entries.iter().map(|e| e.weapon()).collect();
    assert_eq!(
        kinds,
        vec![
            WeaponId::Projectile(ProjectileWeaponId(2)),
            WeaponId::Beam(BeamWeaponId(0)),
            WeaponId::Projectile(ProjectileWeaponId(0)),
        ]
    );
    assert!(weapons.entries[2].is_powered());
    assert_eq!(ship.systems.current_power(SystemId::Weapons), Some(1));
    assert_eq!(ship.move_weapon(2, 0), Ok(()));
    let kinds: Vec<WeaponId> =
        ship.systems.weapons.as_ref().unwrap().0.entries.iter().map(|e| e.weapon()).collect();
    assert_eq!(kinds[0], WeaponId::Projectile(ProjectileWeaponId(0)));
}

#[test]
fn crew_goal_errors() {
    let mut ship = ship();
    assert_eq!(ship.set_crew_goal(0, 99), Err(ShipError::NoSuchRoom(99)));
    assert_eq!(ship.set_crew_goal(7, 0), Err(ShipError::NoSuchCrew(7)));
    assert_eq!(ship.set_crew_goal(0, 1), Err(ShipError::AlreadyInRoom(1)));
    assert_eq!(ship.set_crew_goal(0, 0), Ok(()));
    assert_eq!(ship.set_crew_goal(1, 0), Ok(()));
    assert_eq!(ship.set_crew_goal(2, 0), Err(ShipError::RoomFullyOccupied(0)));
}

#[test]
fn crew_goal_sends_crew_to_first_free_cell() {
    let mut ship = ship();
    assert_eq!(ship.set_crew_goal(0, 0), Ok(()));
    assert_eq!(ship.crew[0].nav_status.occupied_cell(), Cell(0));
    match &ship.crew[0].nav_status {
        CrewNavStatus::Navigating(nav) => {
            // Shortest route from cell 2: 2 -> 5 -> 8 -> 6 -> 1 -> 0.
            assert_eq!(nav.path.0, vec![Cell(0), Cell(1), Cell(6), Cell(8), Cell(5)]);
        }
        CrewNavStatus::At(_) => panic!("crew should be walking"),
    }
    assert_eq!(ship.set_crew_goal(1, 0), Ok(()));
    assert_eq!(ship.crew[1].nav_status.occupied_cell(), Cell(1));
}

#[test]
fn crew_walk_to_goal_and_stand() {
    let mut ship = ship();
    ship.set_crew_goal(1, 4).unwrap();
    let mut steps = 0;
    while matches!(ship.crew[1].nav_status, CrewNavStatus::Navigating(_)) {
        let arrived = vec![true; ship.crew.len()];
        let repairs = ship.update_crew(&arrived);
        assert_eq!(repairs.len(), 3);
        steps += 1;
        assert!(steps < 20);
    }
    assert!(matches!(ship.crew[1].nav_status, CrewNavStatus::At(Cell(14))));
}

#[test]
fn standing_crew_repair_the_damaged_system_of_their_room() {
    let mut ship = ship();
    ship.projectile_hit(1, 2, &crew_cells(&ship));
    let arrived = vec![false; ship.crew.len()];
    let repairs = ship.update_crew(&arrived);
    assert_eq!(repairs, vec![Some(SystemId::Shields), None, None]);
}

#[test]
fn saved_stations_are_the_occupied_cells() {
    let mut ship = ship();
    ship.set_crew_goal(0, 0).unwrap();
    ship.save_crew_stations();
    let stations: Vec<Option<Cell>> = ship.crew.iter().map(|c| c.station).collect();
    assert_eq!(stations, vec![Some(Cell(0)), Some(Cell(6)), Some(Cell(10))]);
}

#[test]
fn returning_to_stations_reports_unreachable_ones() {
    let mut ship = ship();
    ship.save_crew_stations();
    ship.set_crew_goal(0, 0).unwrap();
    // Crew 0 walks back toward cell 2; the others already stand on their station, from which
    // no route leads to the station itself.
    let unreachable = ship.crew_return_to_stations().unwrap();
    assert_eq!(unreachable, vec![1, 2]);
    assert_eq!(ship.crew[0].nav_status.occupied_cell(), Cell(2));
}

#[test]
fn crew_without_station_make_room() {
    let mut ship = ship();
    ship.crew[1].station = Some(Cell(2));
    ship.crew[0].station = None;
    // Crew 1 heads for cell 2, where crew 0 stands without a station: crew 0 moves aside.
    let unreachable = ship.crew_return_to_stations().unwrap();
    assert!(unreachable.is_empty());
    assert_eq!(ship.crew[1].nav_status.occupied_cell(), Cell(2));
    assert_eq!(ship.crew[0].nav_status.occupied_cell(), Cell(3));
}

#[test]
fn repairs_stop_in_rooms_without_crew() {
    let ship = ship();
    assert!(ship.update_repair_status(&vec![Cell(2), Cell(6), Cell(10)]).is_empty());
    let mut unattended = ship.update_repair_status(&vec![Cell(0)]);
    unattended.sort_by_key(|s| s.name());
    assert_eq!(unattended, vec![SystemId::Engines, SystemId::Shields, SystemId::Weapons]);
    assert_eq!(ship.update_repair_status(&vec![Cell(7), Cell(12)]), vec![SystemId::Shields]);
}

#[test]
fn interior_intel_groups_crew_by_room() {
    let ship = ship();
    let rooms = ship.interior_intel(&vec![Cell(2), Cell(6), Cell(10)]);
    assert_eq!(rooms, vec![vec![], vec![0], vec![1], vec![2], vec![], vec![]]);
    let rooms = ship.interior_intel(&vec![Cell(3), Cell(5), Cell(17)]);
    assert_eq!(rooms, vec![vec![], vec![0, 1], vec![], vec![], vec![], vec![2]]);
}

#[test]
fn layout_room_lookup() {
    let layouts = ships();
    let layout = &layouts[0];
    assert_eq!(layout.rooms.len(), 6);
    assert_eq!(layout.cell_room(Cell(7)), Some(2));
    assert_eq!(layout.cell_room(Cell(99)), None);
    assert!(layout.rooms[3].has_cell(Cell(12)));
    assert!(!layout.rooms[3].has_cell(Cell(14)));
    assert_eq!(layout.neighbors_of_room(0), vec![2]);
}

#[test]
fn beam_hits_each_room_once() {
    let layouts = ships();
    let layout = &layouts[0];
    let rooms = layout.beam_rooms(&vec![Cell(6), Cell(7), Cell(9), Cell(12), Cell(13), Cell(99)]);
    assert_eq!(rooms, vec![Some(2), None, None, Some(3), None, None]);
}

#[test]
fn shields_block_then_let_through() {
    let mut ship = ship();
    ship.systems.shields.as_mut().unwrap().0.layers = 1;
    assert_eq!(ship.shield_interact(0), ShieldOutcome::Blocked);
    assert_eq!(ship.systems.shields.as_ref().unwrap().0.layers, 0);
    assert_eq!(ship.shield_interact(0), ShieldOutcome::PassedThrough);
    let mut bare: Ship = ShipState::new();
    assert_eq!(bare.shield_interact(3), ShieldOutcome::NoShields);
}

#[test]
fn missiles_pierce_shields() {
    let mut ship = ship();
    ship.systems.shields.as_mut().unwrap().0.layers = 2;
    assert_eq!(ship.shield_interact(5), ShieldOutcome::PassedThrough);
    assert_eq!(ship.systems.shields.as_ref().unwrap().0.layers, 2);
}

#[test]
fn projectile_damages_hull_system_and_crew_in_room() {
    let mut ship = ship();
    ship.request_power(SystemId::Shields).unwrap();
    ship.request_power(SystemId::Shields).unwrap();
    let hurt = ship.projectile_hit(1, 3, &crew_cells(&ship));
    assert_eq!(hurt, vec![true, false, false]);
    assert_eq!(ship.damage, 3);
    assert_eq!(ship.hull(), 27);
    assert_eq!(ship.systems.system_status(SystemId::Shields).unwrap().damage, 3);
    // Only one unit of power is left to the shields: not enough for a layer pair of 2.
    assert_eq!(ship.systems.current_power(SystemId::Shields), Some(0));
    assert_eq!(ship.reactor.available, 8);
}

#[test]
fn hull_damage_is_capped_and_kills() {
    let mut ship = ship();
    ship.projectile_hit(0, 25, &vec![]);
    ship.projectile_hit(0, 25, &vec![]);
    assert_eq!(ship.damage, 30);
    assert_eq!(ship.hull(), 0);
    assert!(ship.is_dead());
}

#[test]
fn beam_damage_is_reduced_by_shield_layers() {
    let mut ship = ship();
    ship.systems.shields.as_mut().unwrap().0.layers = 1;
    let (left, hurt) = ship.beam_hit(Cell(6), Some(2), 3, &crew_cells(&ship));
    assert_eq!(left, 2);
    assert_eq!(hurt, vec![false, true, false]);
    assert_eq!(ship.damage, 2);
    assert_eq!(ship.systems.system_status(SystemId::Weapons).unwrap().damage, 2);
    let (left, _) = ship.beam_hit(Cell(7), None, 3, &crew_cells(&ship));
    assert_eq!(left, 2);
    assert_eq!(ship.damage, 2);
}

#[test]
fn dead_crew_are_removed() {
    let mut ship = ship();
    ship.retain_crew(&vec![true, false, true]);
    let names: Vec<&str> = ship.crew.iter().map(|c| c.name.as_str()).collect();
    assert_eq!(names, vec!["Fish", "Stick"]);
}

#[test]
fn no_dodge_without_engine_power() {
    let ship = ship();
    assert_eq!(ship.dodge_chance(), 0);
    for _ in 0..50 {
        assert!(!ship.test_dodge());
    }
}

#[test]
fn damage_depowers_the_last_powered_weapons() {
    let mut ship = ship();
    ship.power_weapon(0).unwrap();
    ship.power_weapon(1).unwrap();
    assert_eq!(ship.systems.current_power(SystemId::Weapons), Some(3));
    assert_eq!(ship.reactor.available, 5);
    ship.projectile_hit(2, 2, &vec![]);
    let weapons = &ship.systems.weapons.as_ref().unwrap().0;
    let powered: Vec<bool> = weapons.entries.iter().map(|e| e.is_powered()).collect();
    assert_eq!(powered, vec![true, false, false]);
    assert_eq!(ship.systems.current_power(SystemId::Weapons), Some(1));
    assert_eq!(ship.reactor.available, 7);
}

#[test]
fn damage_drops_shields_to_an_even_level() {
    let mut ship = ship();
    ship.request_power(SystemId::Shields).unwrap();
    ship.request_power(SystemId::Shields).unwrap();
    ship.projectile_hit(1, 1, &vec![]);
    assert_eq!(ship.systems.current_power(SystemId::Shields), Some(2));
    assert_eq!(ship.reactor.available, 6);
}

#[test]
fn damage_drops_engines_to_their_budget() {
    let mut ship = ship();
    for _ in 0..3 {
        ship.request_power(SystemId::Engines).unwrap();
    }
    ship.projectile_hit(3, 2, &vec![]);
    assert_eq!(ship.systems.current_power(SystemId::Engines), Some(2));
    assert_eq!(ship.reactor.available, 6);
    ship.projectile_hit(3, 1, &vec![]);
    assert_eq!(ship.systems.current_power(SystemId::Engines), Some(1));
}

#[test]
fn crowded_crew_move_to_the_nearest_room_with_space() {
    let mut ship = ship();
    ship.crew[0].nav_status = CrewNavStatus::At(Cell(0));
    ship.crew[0].station = None;
    ship.crew[1].station = Some(Cell(0));
    ship.crew[2].nav_status = CrewNavStatus::At(Cell(1));
    ship.crew[2].station = Some(Cell(1));
    // Crew 1 heads back to cell 0, where crew 0 stands; cell 1 is taken too, so crew 0 goes to
    // the first free cell of the room next door.
    let unreachable = ship.crew_return_to_stations().unwrap();
    assert_eq!(unreachable, vec![2]);
    assert_eq!(ship.crew[1].nav_status.occupied_cell(), Cell(0));
    assert_eq!(ship.crew[0].nav_status.occupied_cell(), Cell(6));
}

#[test]
fn stationless_crew_end_on_cells_of_their_own() {
    let mut ship = ship();
    for crew in ship.crew.iter_mut() {
        crew.nav_status = CrewNavStatus::At(Cell(2));
        crew.station = None;
    }
    let unreachable = ship.crew_return_to_stations().unwrap();
    assert!(unreachable.is_empty());
    assert_eq!(crew_cells(&ship), vec![Cell(3), Cell(4), Cell(2)]);
}

#[test]
fn equally_near_rooms_are_taken_in_room_order() {
    let mut ship = ship();
    let template = ship.crew[0].clone();
    ship.crew.clear();
    // Crew 0 has no station and shares cell 0; cell 1 and the whole of room 2 are taken by
    // crew standing on their stations. Rooms 1, 3 and 5 are all two rooms away: room 1 wins.
    for (cell, station) in [(0, None), (0, Some(0)), (1, Some(1)), (6, Some(6)), (7, Some(7)), (8, Some(8)), (9, Some(9))] {
        let mut crew = template.clone();
        crew.nav_status = CrewNavStatus::At(Cell(cell));
        crew.station = station.map(Cell);
        ship.crew.push(crew);
    }
    ship.crew_return_to_stations().unwrap();
    assert_eq!(ship.crew[0].nav_status.occupied_cell(), Cell(2));
}
