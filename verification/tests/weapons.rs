use pvp::pathing::{DoorIndex, Path, PathGraph};
use pvp::reactor::Reactor;
use pvp::weapon::{
    burst_laser_mk_i, halberd_beam, heavy_laser, hermes_missiles, pike_beam, BeamWeaponId,
    ProjectileWeaponId, Weapon, WeaponId,
};
use pvp::weapons::{pending_shots, Volley, VolleyInner, WeaponEntry};

#[test]
fn weapon_new_keeps_its_id() {
    for id in [heavy_laser(), hermes_missiles(), burst_laser_mk_i(), pike_beam(), halberd_beam()] {
        assert_eq!(Weapon::new(id).id(), id);
    }
}

#[test]
fn weapon_statistics() {
    assert_eq!(heavy_laser().common().power, 1);
    assert_eq!(heavy_laser().common().damage, 2);
    assert_eq!(hermes_missiles().common().power, 3);
    assert!(hermes_missiles().uses_missile());
    assert!(!heavy_laser().uses_missile());
    assert!(!pike_beam().uses_missile());
    assert_eq!(burst_laser_mk_i().common().charge_time, 704);
    assert_eq!(ProjectileWeaponId(2).stats().volley_size, 2);
    assert_eq!(BeamWeaponId(1).stats().length, 80);
    assert_eq!(halberd_beam().common().name, "Halberd Beam");
    assert_eq!(ProjectileWeaponId::new(1).get_index(), 1);
    assert_eq!(BeamWeaponId::new(0).get_index(), 0);
}

#[test]
fn new_entry_is_unpowered_and_uncharged() {
    let entry: WeaponEntry<usize, usize> = WeaponEntry::new(Weapon::new(pike_beam()));
    assert_eq!(entry.weapon(), pike_beam());
    assert!(!entry.is_powered());
    assert_eq!(entry.charge(), 0);
    assert!(entry.target().is_none());
}

#[test]
fn reactor_upgrades_one_unit_at_a_time() {
    let mut reactor = Reactor::new();
    assert_eq!((reactor.upgrade_level, reactor.available), (0, 0));
    reactor.upgrade();
    reactor.upgrade();
    assert_eq!((reactor.upgrade_level, reactor.available), (2, 2));
}

#[test]
fn pending_shots_spread_projectiles_and_delay_beams() {
    let volleys: Vec<Option<Volley<usize, usize>>> = vec![
        Some(Volley::Projectile(VolleyInner { weapon: ProjectileWeaponId(2), target: 7 })),
        None,
        Some(Volley::Beam(VolleyInner { weapon: BeamWeaponId(0), target: 9 })),
        Some(Volley::Projectile(VolleyInner { weapon: ProjectileWeaponId(0), target: 8 })),
    ];
    let shots = pending_shots(&volleys);
    let summary: Vec<(u64, usize)> = shots.iter().map(|s| (s.delay_ms, s.weapon_index)).collect();
    assert_eq!(summary, vec![(0, 0), (300, 0), (150, 2), (0, 3)]);
    assert!(matches!(shots[2].volley, Volley::Beam(VolleyInner { target: 9, .. })));
}

#[test]
fn no_volleys_no_shots() {
    let volleys: Vec<Option<Volley<usize, usize>>> = vec![None, None];
    assert!(pending_shots(&volleys).is_empty());
}

fn cell_graph() -> PathGraph {
    let edges = |ns: &[usize]| ns.iter().map(|&n| (n, Some(DoorIndex))).collect::<Vec<_>>();
    PathGraph {
        cells: vec![
            (0, edges(&[1, 2])),
            (1, edges(&[0, 3])),
            (2, edges(&[0, 3])),
            (3, edges(&[1, 2, 4])),
            (4, edges(&[3])),
            (5, edges(&[])),
        ],
    }
}

#[test]
fn breadth_first_path_between_cells() {
    let g = cell_graph();
    let path = g.find_path(0, 4).unwrap();
    assert_eq!(path.0.len(), 4);
    assert_eq!(path.0[0], 4);
    assert_eq!(path.0[1], 3);
    assert_eq!(path.0[3], 0);
    assert!(path.0[2] == 1 || path.0[2] == 2);
    assert_eq!(g.find_path(2, 2), Some(Path(vec![2])));
    assert_eq!(g.find_path(0, 5), None);
    assert_eq!(g.neighbors_of(3), vec![1, 2, 4]);
}

use pvp::crew::Crew;
use pvp::nav::{Cell, CrewNavStatus};
use pvp::ship::Room;
use pvp::weapons::Weapons;

#[test]
fn weapons_fire_once_charged() {
    let mut reactor = Reactor::new();
    for _ in 0..4 {
        reactor.upgrade();
    }
    let mut weapons: Weapons<usize, usize> = Weapons::default();
    weapons.status.upgrade_level = 3;
    weapons.install_weapon(0, Weapon::new(heavy_laser()));
    weapons.install_weapon(1, Weapon::new(pike_beam()));
    weapons.power_weapon(0, 0, &mut reactor);
    weapons.set_projectile_weapon_target(0, Some(5), false);
    assert_eq!(weapons.current_power(), 1);
    let mut missiles = 3;
    let mut fired = Vec::new();
    for _ in 0..576 {
        fired.extend(weapons.charge_and_fire_weapons(&mut missiles));
    }
    assert_eq!(fired.len(), 1);
    assert!(matches!(fired[0], Volley::Projectile(VolleyInner { target: 5, .. })));
    assert_eq!(missiles, 3);
    // Without autofire the weapon drops its target after firing.
    assert!(weapons.entries[0].target().is_none());
    assert_eq!(weapons.entries[0].charge(), 0);
}

#[test]
fn removing_a_weapon_returns_its_power() {
    let mut reactor = Reactor::new();
    for _ in 0..4 {
        reactor.upgrade();
    }
    let mut weapons: Weapons<usize, usize> = Weapons::default();
    weapons.status.upgrade_level = 4;
    weapons.install_weapon(0, Weapon::new(burst_laser_mk_i()));
    weapons.install_weapon(1, Weapon::new(heavy_laser()));
    weapons.power_weapon(0, 0, &mut reactor);
    assert_eq!(reactor.available, 2);
    let removed = weapons._remove_weapon(0, &mut reactor).unwrap();
    assert_eq!(removed.id(), burst_laser_mk_i());
    assert_eq!(reactor.available, 4);
    assert_eq!(weapons.entries.len(), 1);
    assert_eq!(weapons.entries[0].weapon(), heavy_laser());
    assert!(weapons._remove_weapon(5, &mut reactor).is_err());
}

#[test]
fn missile_weapons_need_missiles_to_power() {
    let mut reactor = Reactor::new();
    for _ in 0..4 {
        reactor.upgrade();
    }
    let mut weapons: Weapons<usize, usize> = Weapons::default();
    weapons.status.upgrade_level = 4;
    weapons.install_weapon(0, Weapon::new(hermes_missiles()));
    weapons.power_weapon(0, 0, &mut reactor);
    assert!(!weapons.entries[0].is_powered());
    weapons.power_weapon(0, 2, &mut reactor);
    assert!(weapons.entries[0].is_powered());
    assert_eq!(reactor.available, 1);
}

#[test]
fn crew_in_room_by_rounded_coordinates() {
    let crew: Crew<f32> = Crew {
        race: 0,
        name: "Fish".to_string(),
        nav_status: CrewNavStatus::At(Cell(3)),
        health: 100.0,
        task: pvp::crew::CrewTask::Idle,
        station: None,
    };
    let room = Room { cells: vec![Cell(2), Cell(3)] };
    assert!(crew.is_in_room(&room, 0, 0));
    let other = Room { cells: vec![Cell(4)] };
    assert!(!crew.is_in_room(&other, 1, 1));
}
