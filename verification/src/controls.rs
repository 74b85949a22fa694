//! The keyboard controls of a player's own ship and the message that each press sends.

use vstd::prelude::*;
use crate::doors::SetDoorsOpen;
use crate::intel::WeaponsIntel;
use crate::ship::SystemId;

verus! {

/// Whether to request power from the reactor or return power to it.
#[derive(Clone, Copy, Debug, PartialEq, Eq, Structural, Hash)]
pub enum PowerDir {
    Request,
    Remove,
}

/// An order about the crew's stations.
#[derive(Clone, Copy, Debug, PartialEq, Eq, Structural)]
pub enum CrewStations {
    /// Make every crew member's current cell their station.
    Save,
    /// Send every crew member back to their station.
    Return,
}

/// A control bound to a key.
#[derive(Clone, Copy, Debug, PartialEq, Eq, Structural)]
pub enum Controls {
    SystemPower { dir: PowerDir, system: SystemId },
    WeaponPower { dir: PowerDir, weapon_index: usize },
    Autofire,
    AllDoors { open: bool },
    SaveStations,
    ReturnToStations,
}

/// What pressing a control does: a message to the server, or the start of aiming a weapon.
#[derive(Clone, Copy, Debug, PartialEq, Eq, Structural)]
pub enum ControlAction {
    AdjustPower { dir: PowerDir, system: SystemId },
    WeaponPower { dir: PowerDir, weapon_index: usize },
    /// Begin aiming the weapon at `weapon_index`.
    StartTargeting { weapon_index: usize },
    SetAutofire(bool),
    SetDoorsOpen(SetDoorsOpen),
    CrewStations(CrewStations),
}

/// The action of pressing `control` for a player whose weapons system shows `weapons` and whose
/// autofire is `autofire`.
///
/// A weapon key does nothing without a weapons system or a weapon at its index. Asking for power
/// for a weapon that is already powered starts aiming it instead. The autofire key toggles
/// autofire.
pub open spec fn control_action(
    control: Controls,
    weapons: Option<WeaponsIntel>,
    autofire: bool,
) -> Option<ControlAction> {
    match control {
        Controls::SystemPower { dir, system } => Some(ControlAction::AdjustPower { dir, system }),
        Controls::WeaponPower { dir, weapon_index } => match weapons {
            None => None,
            Some(w) => if weapon_index >= w.weapons@.len() {
                None
            } else if w.weapons@[weapon_index as int].powered && dir == PowerDir::Request {
                Some(ControlAction::StartTargeting { weapon_index })
            } else {
                Some(ControlAction::WeaponPower { dir, weapon_index })
            },
        },
        Controls::Autofire => Some(ControlAction::SetAutofire(!autofire)),
        Controls::AllDoors { open } => Some(ControlAction::SetDoorsOpen(SetDoorsOpen::All { open })),
        Controls::SaveStations => Some(ControlAction::CrewStations(CrewStations::Save)),
        Controls::ReturnToStations => Some(ControlAction::CrewStations(CrewStations::Return)),
    }
}

/// The all-doors keys order every door to the state they name: the open key opens, the close
/// key closes, whatever the weapons and autofire.
pub proof fn lemma_all_doors_keys(open: bool, weapons: Option<WeaponsIntel>, autofire: bool)
    ensures
        control_action(Controls::AllDoors { open }, weapons, autofire) matches Some(
            ControlAction::SetDoorsOpen(SetDoorsOpen::All { open: o }),
        ) && o == open,
        control_action(Controls::AllDoors { open: true }, weapons, autofire) != control_action(
            Controls::AllDoors { open: false },
            weapons,
            autofire,
        ),
{
}

/// The action of pressing `control`, if any.
pub fn press_control(control: Controls, weapons: &Option<WeaponsIntel>, autofire: bool) -> (r:
    Option<ControlAction>)
    ensures
        r == control_action(control, *weapons, autofire),
{
    match control {
        Controls::SystemPower { dir, system } => Some(ControlAction::AdjustPower { dir, system }),
        Controls::WeaponPower { dir, weapon_index } => match weapons {
            None => None,
            Some(w) => {
                if weapon_index >= w.weapons.len() {
                    None
                } else if w.weapons[weapon_index].powered && dir == PowerDir::Request {
                    Some(ControlAction::StartTargeting { weapon_index })
                } else {
                    Some(ControlAction::WeaponPower { dir, weapon_index })
                }
            },
        },
        Controls::Autofire => Some(ControlAction::SetAutofire(!autofire)),
        Controls::AllDoors { open } => Some(ControlAction::SetDoorsOpen(SetDoorsOpen::All { open })),
        Controls::SaveStations => Some(ControlAction::CrewStations(CrewStations::Save)),
        Controls::ReturnToStations => Some(ControlAction::CrewStations(CrewStations::Return)),
    }
}

} // verus!
