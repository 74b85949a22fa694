//! Weapon targeting as the player drives it: choose a weapon, then the room to fire at, and for a
//! beam the direction of its sweep. The client holds the state between pointer presses and sends
//! the requests that come out to the server.

use vstd::prelude::*;
use crate::intel::WeaponsIntel;
use crate::weapon::{WeaponId, projectile_table};

verus! {

/// Where the player is in aiming a weapon. `S` identifies a ship and `P` a point on it.
#[derive(Clone, Copy, Debug)]
pub enum TargetingWeapon<S, P> {
    /// The weapon at `weapon_index` waits for a room to be picked.
    PickStart { weapon_index: usize },
    /// The beam weapon at `weapon_index` starts its sweep at `start` on `ship` and waits for a
    /// direction.
    PickDir { weapon_index: usize, ship: S, start: P },
}

/// A targeting request for the server. `S` identifies a ship and `T` is a beam's sweep.
#[derive(Clone, Copy, Debug)]
pub enum TargetingRequest<S, T> {
    /// Clear the target of the projectile weapon at `weapon_index`.
    ClearProjectileTarget { weapon_index: usize },
    /// Clear the target of the beam weapon at `weapon_index`.
    ClearBeamTarget { weapon_index: usize },
    /// Fire the projectile weapon at `weapon_index` at room `room` of `ship`.
    TargetRoom { weapon_index: usize, ship: S, room: usize },
    /// Sweep the beam weapon at `weapon_index` along `target`.
    TargetBeam { weapon_index: usize, target: T },
}

/// What the player did.
#[derive(Clone, Copy, Debug)]
pub enum TargetingEvent<S, P, T> {
    /// Chose the weapon at `weapon_index` to aim.
    Start { weapon_index: usize },
    /// Pressed room `room` of `ship` at `start`; `own_ship` tells whether `ship` is the player's.
    RoomPress { own_ship: bool, ship: S, room: usize, start: P },
    /// Chose the sweep of the beam being aimed.
    Aim { target: T },
    /// Cancelled the aiming.
    Cancel,
}

/// Whether `weapon` may fire at the ship that carries it.
pub open spec fn can_target_self(weapon: WeaponId) -> bool {
    match weapon {
        WeaponId::Projectile(id) => projectile_table(id.index()).can_target_self,
        WeaponId::Beam(_) => false,
    }
}

/// The weapon being aimed, if any.
pub open spec fn pending_weapon<S, P>(state: Option<TargetingWeapon<S, P>>) -> Option<usize> {
    match state {
        Some(TargetingWeapon::PickStart { weapon_index }) => Some(weapon_index),
        Some(TargetingWeapon::PickDir { weapon_index, .. }) => Some(weapon_index),
        None => None,
    }
}

/// The weapon at `weapon_index` of the player's weapons system.
pub open spec fn weapon_at(weapons: Option<WeaponsIntel>, weapon_index: usize) -> WeaponId {
    weapons.unwrap().weapons@[weapon_index as int].weapon
}

/// The inputs on which a step is defined: the weapon that a step looks up exists and is a known
/// kind.
pub open spec fn step_defined<S, P, T>(
    state: Option<TargetingWeapon<S, P>>,
    weapons: Option<WeaponsIntel>,
    event: TargetingEvent<S, P, T>,
) -> bool {
    let looked_up = match event {
        TargetingEvent::Start { weapon_index } => if weapons is Some {
            Some(weapon_index)
        } else {
            None
        },
        TargetingEvent::RoomPress { .. } => match state {
            Some(TargetingWeapon::PickStart { weapon_index }) => Some(weapon_index),
            _ => None,
        },
        _ => None,
    };
    match looked_up {
        Some(i) => weapons is Some && i < weapons.unwrap().weapons@.len() && weapon_at(
            weapons,
            i,
        ).valid(),
        None => true,
    }
}

/// The state after `event` and the request it sends, if any.
///
/// Choosing a weapon clears its target at once, so that a weapon can be untargeted quickly, and
/// does nothing without a weapons system. A room press picks the target of a weapon waiting for
/// one: a projectile weapon is aimed there and the aiming ends, a beam starts its sweep there. A
/// weapon that cannot fire at its own ship ignores presses on that ship. Choosing the sweep of a
/// beam ends its aiming. Cancelling ends any aiming.
pub open spec fn targeting_next<S, P, T>(
    state: Option<TargetingWeapon<S, P>>,
    weapons: Option<WeaponsIntel>,
    event: TargetingEvent<S, P, T>,
) -> (Option<TargetingWeapon<S, P>>, Option<TargetingRequest<S, T>>) {
    match event {
        TargetingEvent::Start { weapon_index } => match weapons {
            None => (state, None),
            Some(_) => (
                Some(TargetingWeapon::PickStart { weapon_index }),
                Some(
                    match weapon_at(weapons, weapon_index) {
                        WeaponId::Projectile(_) => TargetingRequest::ClearProjectileTarget {
                            weapon_index,
                        },
                        WeaponId::Beam(_) => TargetingRequest::ClearBeamTarget { weapon_index },
                    },
                ),
            ),
        },
        TargetingEvent::RoomPress { own_ship, ship, room, start } => match state {
            Some(TargetingWeapon::PickStart { weapon_index }) => {
                let weapon = weapon_at(weapons, weapon_index);
                if own_ship && !can_target_self(weapon) {
                    (state, None)
                } else {
                    match weapon {
                        WeaponId::Projectile(_) => (
                            None,
                            Some(TargetingRequest::TargetRoom { weapon_index, ship, room }),
                        ),
                        WeaponId::Beam(_) => (
                            Some(TargetingWeapon::PickDir { weapon_index, ship, start }),
                            None,
                        ),
                    }
                }
            },
            _ => (state, None),
        },
        TargetingEvent::Aim { target } => match state {
            Some(TargetingWeapon::PickDir { weapon_index, .. }) => (
                None,
                Some(TargetingRequest::TargetBeam { weapon_index, target }),
            ),
            _ => (state, None),
        },
        TargetingEvent::Cancel => (None, None),
    }
}

/// Cancelling ends any aiming and sends nothing, whatever was being aimed.
pub proof fn lemma_cancel_ends_aiming<S, P, T>(state: Option<TargetingWeapon<S, P>>, weapons: Option<WeaponsIntel>)
    ensures
        targeting_next(state, weapons, TargetingEvent::<S, P, T>::Cancel).0 is None,
        targeting_next(state, weapons, TargetingEvent::<S, P, T>::Cancel).1 is None,
{
}

/// A step never aims a weapon other than the one the player chose: a request to fire names the
/// weapon being aimed before the step, and the weapon being aimed changes only when the player
/// chooses one. A press on the player's own ship never aims a weapon there that cannot fire at
/// its own ship.
pub proof fn lemma_targeting_aims_chosen_weapon<S, P, T>(
    state: Option<TargetingWeapon<S, P>>,
    weapons: Option<WeaponsIntel>,
    event: TargetingEvent<S, P, T>,
)
    requires
        step_defined(state, weapons, event),
    ensures
        targeting_next(state, weapons, event).1 matches Some(
            TargetingRequest::TargetRoom { weapon_index, .. },
        ) ==> pending_weapon(state) == Some(weapon_index),
        targeting_next(state, weapons, event).1 matches Some(
            TargetingRequest::TargetBeam { weapon_index, .. },
        ) ==> pending_weapon(state) == Some(weapon_index),
        !(event is Start) ==> {
            ||| pending_weapon(targeting_next(state, weapons, event).0) is None
            ||| pending_weapon(targeting_next(state, weapons, event).0) == pending_weapon(state)
        },
        event matches TargetingEvent::Start { weapon_index } ==> (weapons is Some ==> pending_weapon(
            targeting_next(state, weapons, event).0,
        ) == Some(weapon_index)),
        event matches TargetingEvent::RoomPress { own_ship, .. } ==> (own_ship ==> (
        pending_weapon(state) matches Some(i) ==> (!can_target_self(weapon_at(weapons, i))
            ==> targeting_next(state, weapons, event) == (state, None::<TargetingRequest<S, T>>)))),
{
}

/// Whether `weapon` may fire at the ship that carries it.
fn weapon_can_target_self(weapon: &WeaponId) -> (r: bool)
    requires
        weapon.valid(),
    ensures
        r == can_target_self(*weapon),
{
    match weapon {
        WeaponId::Projectile(id) => id.stats().can_target_self,
        WeaponId::Beam(_) => false,
    }
}

/// Applies `event` to the targeting `state` of a player whose weapons system shows `weapons`,
/// giving the next state and the request to send, if any.
pub fn targeting_step<S, P, T>(
    state: Option<TargetingWeapon<S, P>>,
    weapons: &Option<WeaponsIntel>,
    event: TargetingEvent<S, P, T>,
) -> (r: (Option<TargetingWeapon<S, P>>, Option<TargetingRequest<S, T>>))
    requires
        step_defined(state, *weapons, event),
    ensures
        r == targeting_next(state, *weapons, event),
{
    match event {
        TargetingEvent::Start { weapon_index } => match weapons {
            None => (state, None),
            Some(w) => {
                let request = match w.weapons[weapon_index].weapon {
                    WeaponId::Projectile(_) => TargetingRequest::ClearProjectileTarget {
                        weapon_index,
                    },
                    WeaponId::Beam(_) => TargetingRequest::ClearBeamTarget { weapon_index },
                };
                (Some(TargetingWeapon::PickStart { weapon_index }), Some(request))
            },
        },
        TargetingEvent::RoomPress { own_ship, ship, room, start } => match state {
            Some(TargetingWeapon::PickStart { weapon_index }) => {
                let w = weapons.as_ref().unwrap();
                let weapon = w.weapons[weapon_index].weapon;
                if own_ship && !weapon_can_target_self(&weapon) {
                    (state, None)
                } else {
                    match weapon {
                        WeaponId::Projectile(_) => (
                            None,
                            Some(TargetingRequest::TargetRoom { weapon_index, ship, room }),
                        ),
                        WeaponId::Beam(_) => (
                            Some(TargetingWeapon::PickDir { weapon_index, ship, start }),
                            None,
                        ),
                    }
                }
            },
            _ => (state, None),
        },
        TargetingEvent::Aim { target } => match state {
            Some(TargetingWeapon::PickDir { weapon_index, .. }) => (
                None,
                Some(TargetingRequest::TargetBeam { weapon_index, target }),
            ),
            _ => (state, None),
        },
        TargetingEvent::Cancel => (None, None),
    }
}

} // verus!
