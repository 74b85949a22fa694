//! Crew members: where they are headed, what they do, and the station they return to.

use vstd::prelude::*;
use crate::nav::{Cell, CrewNavStatus};
use crate::ship::Room;

verus! {

/// What a crew member is busy with. Computed once from everything that bears on it (enemies,
/// fires, breaches, damaged systems) so that other rules can simply read it.
#[derive(Clone, Copy, Debug, PartialEq, Eq, Structural)]
pub enum CrewTask {
    Idle,
    RepairSystem,
}

/// A crew member. Its health is of type `H`: the rules here only carry it.
#[derive(Clone, Debug)]
pub struct Crew<H> {
    pub race: usize,
    pub name: String,
    pub nav_status: CrewNavStatus,
    /// Current health in `[0, max_health]`.
    pub health: H,
    pub task: CrewTask,
    /// The cell this crew member returns to when ordered back to stations.
    pub station: Option<Cell>,
}

impl<H> Crew<H> {
    /// Whether `other` is the same crew member: the same race, name, health, task and station,
    /// and the same navigation status (see [`CrewNavStatus::same_as`]).
    pub open spec fn same_as(self, other: Crew<H>) -> bool {
        &&& self.race == other.race
        &&& self.name@ == other.name@
        &&& self.nav_status.same_as(other.nav_status)
        &&& self.health == other.health
        &&& self.task == other.task
        &&& self.station == other.station
    }
}

impl<H: Copy> Crew<H> {
    /// A copy of this crew member.
    pub fn copy(&self) -> (r: Crew<H>)
        ensures
            r.same_as(*self),
    {
        let name = self.name.clone();
        let nav_status = self.nav_status.copy();
        Crew {
            race: self.race,
            name,
            nav_status,
            health: self.health,
            task: self.task,
            station: self.station,
        }
    }
}

impl<H> Crew<H> {
    /// Whether this crew member is in `room`, given its coordinates on the section it crosses
    /// rounded to whole numbers (see [`CrewNavStatus::current_cell`]).
    pub fn is_in_room(&self, room: &Room, x: usize, y: usize) -> (r: bool)
        requires
            x < 2,
            y < 2,
        ensures
            r == room.cells@.contains(self.nav_status.spec_current_cell(x, y)),
    {
        room.has_cell(self.nav_status.current_cell(x, y))
    }
}

/// The chance, in percent, that a ship dodges a projectile: five percent per unit of engine
/// power.
pub fn compute_dodge_chance(engine_power: usize) -> (r: usize)
    requires
        engine_power * 5 <= usize::MAX,
    ensures
        r == engine_power * 5,
{
    engine_power * 5
}

} // verus!
