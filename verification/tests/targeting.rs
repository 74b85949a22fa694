use pvp::intel::{WeaponIntel, WeaponsIntel};
use pvp::systems::SystemDamageIntel;
use pvp::targeting::{targeting_step, TargetingEvent, TargetingRequest, TargetingWeapon};
use pvp::weapon::{heavy_laser, pike_beam};

type State = Option<TargetingWeapon<u32, (i32, i32)>>;
type Request = Option<TargetingRequest<u32, &'static str>>;
type Event = TargetingEvent<u32, (i32, i32), &'static str>;

fn laser_and_beam() -> Option<WeaponsIntel> {
    Some(WeaponsIntel {
        weapons: vec![
            WeaponIntel { weapon: heavy_laser(), powered: true },
            WeaponIntel { weapon: pike_beam(), powered: true },
        ],
        damage: SystemDamageIntel::Undamaged,
    })
}

fn step(state: State, event: Event) -> (State, Request) {
    targeting_step(state, &laser_and_beam(), event)
}

fn is_pick_start(state: &State, index: usize) -> bool {
    matches!(state, Some(TargetingWeapon::PickStart { weapon_index }) if *weapon_index == index)
}

#[test]
fn choosing_a_projectile_weapon_clears_its_target() {
    let (state, request) = step(None, TargetingEvent::Start { weapon_index: 0 });
    assert!(is_pick_start(&state, 0));
    assert!(matches!(request, Some(TargetingRequest::ClearProjectileTarget { weapon_index: 0 })));
}

#[test]
fn choosing_a_beam_weapon_clears_its_target() {
    let (state, request) = step(None, TargetingEvent::Start { weapon_index: 1 });
    assert!(is_pick_start(&state, 1));
    assert!(matches!(request, Some(TargetingRequest::ClearBeamTarget { weapon_index: 1 })));
}

#[test]
fn choosing_without_a_weapons_system_does_nothing() {
    let (state, request) =
        targeting_step::<u32, (i32, i32), &str>(None, &None, TargetingEvent::Start { weapon_index: 0 });
    assert!(state.is_none());
    assert!(request.is_none());
}

#[test]
fn projectile_targets_pressed_enemy_room() {
    let started = Some(TargetingWeapon::PickStart { weapon_index: 0 });
    let press = TargetingEvent::RoomPress { own_ship: false, ship: 7, room: 3, start: (1, 2) };
    let (state, request) = step(started, press);
    assert!(state.is_none());
    assert!(matches!(
        request,
        Some(TargetingRequest::TargetRoom { weapon_index: 0, ship: 7, room: 3 })
    ));
}

#[test]
fn projectile_ignores_press_on_own_ship() {
    let started = Some(TargetingWeapon::PickStart { weapon_index: 0 });
    let press = TargetingEvent::RoomPress { own_ship: true, ship: 1, room: 0, start: (0, 0) };
    let (state, request) = step(started, press);
    assert!(is_pick_start(&state, 0));
    assert!(request.is_none());
}

#[test]
fn beam_picks_start_then_direction() {
    let started = Some(TargetingWeapon::PickStart { weapon_index: 1 });
    let press = TargetingEvent::RoomPress { own_ship: false, ship: 7, room: 2, start: (4, 5) };
    let (state, request) = step(started, press);
    assert!(request.is_none());
    assert!(matches!(
        state,
        Some(TargetingWeapon::PickDir { weapon_index: 1, ship: 7, start: (4, 5) })
    ));
    let (state, request) = step(state, TargetingEvent::Aim { target: "sweep" });
    assert!(state.is_none());
    assert!(matches!(
        request,
        Some(TargetingRequest::TargetBeam { weapon_index: 1, target: "sweep" })
    ));
}

#[test]
fn aim_without_a_beam_start_does_nothing() {
    let started = Some(TargetingWeapon::PickStart { weapon_index: 1 });
    let (state, request) = step(started, TargetingEvent::Aim { target: "sweep" });
    assert!(is_pick_start(&state, 1));
    assert!(request.is_none());
}

#[test]
fn press_without_aiming_does_nothing() {
    let press = TargetingEvent::RoomPress { own_ship: false, ship: 7, room: 3, start: (1, 2) };
    let (state, request) = step(None, press);
    assert!(state.is_none());
    assert!(request.is_none());
}

#[test]
fn cancel_ends_aiming() {
    let aiming = Some(TargetingWeapon::PickDir { weapon_index: 1, ship: 7, start: (4, 5) });
    let (state, request) = step(aiming, TargetingEvent::Cancel);
    assert!(state.is_none());
    assert!(request.is_none());
}
