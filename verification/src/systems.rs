//! Ship systems: their upgrade and damage status, and how they draw power from the reactor.

use vstd::prelude::*;
use crate::reactor::Reactor;

verus! {

/// Upgrade and damage status of a ship system.
#[derive(Clone, Copy, Debug)]
pub struct SystemStatus {
    pub upgrade_level: usize,
    pub damage: usize,
}

impl SystemStatus {
    /// Whether the damage does not exceed the upgrade level.
    pub open spec fn wf(self) -> bool {
        self.damage <= self.upgrade_level
    }

    /// The most power the system can take: its upgrade level less its damage.
    pub open spec fn spec_max_power(self) -> nat {
        (self.upgrade_level - self.damage) as nat
    }

    /// The most power the system can take: its upgrade level less its damage.
    pub fn max_power(&self) -> (r: usize)
        requires
            self.wf(),
        ensures
            r == self.spec_max_power(),
    {
        self.upgrade_level - self.damage
    }

    /// A fresh, undamaged system at upgrade level 1.
    pub fn default() -> (r: Self)
        ensures
            r.upgrade_level == 1,
            r.damage == 0,
    {
        Self { upgrade_level: 1, damage: 0 }
    }
}

/// The status `st` after `amount` of damage: the damage grows by `amount`, capped at the
/// upgrade level.
pub open spec fn damaged(st: SystemStatus, amount: usize) -> SystemStatus {
    SystemStatus {
        upgrade_level: st.upgrade_level,
        damage: (st.damage + vstd::math::min(amount as int, st.upgrade_level - st.damage)) as usize,
    }
}

/// The status `st` after `amount` of damage (see [`damaged`]).
pub fn damaged_status(st: SystemStatus, amount: usize) -> (r: SystemStatus)
    requires
        st.wf(),
    ensures
        r == damaged(st, amount),
        r.wf(),
{
    let room = st.upgrade_level - st.damage;
    let actual_amount = if amount < room {
        amount
    } else {
        room
    };
    SystemStatus { upgrade_level: st.upgrade_level, damage: st.damage + actual_amount }
}

/// Basic damage intel for a system. Even players without functioning sensors can see basic system
/// information such as whether a system is damaged or destroyed.
#[derive(Clone, Copy, Debug, PartialEq, Eq, Structural)]
pub enum SystemDamageIntel {
    Undamaged,
    Damaged,
    Destroyed,
}

/// Stuff that a [`ShipSystem`] impl might need to know to properly implement all trait items.
#[derive(Clone, Copy, Debug)]
pub struct PowerContext {
    pub missiles: usize,
}

/// A ship system: it has an upgrade and damage status, and draws power from the reactor. Every
/// power change moves power between the system and the reactor, so their sum stays the same.
pub trait ShipSystem {
    /// The system's upgrade and damage status.
    spec fn spec_status(&self) -> SystemStatus;

    /// The power the system currently draws.
    spec fn spec_power(&self) -> nat;

    /// The system's internal consistency. It includes a valid status and drawing no more power
    /// than the upgrade level (see [`ShipSystem::lemma_inv`]).
    spec fn inv(&self) -> bool;

    /// What every system's consistency includes.
    proof fn lemma_inv(&self)
        requires
            self.inv(),
        ensures
            self.spec_status().wf(),
            self.spec_power() <= self.spec_status().upgrade_level,
    ;

    /// The system's upgrade and damage status.
    fn system_status(&self) -> (r: SystemStatus)
        ensures
            r == self.spec_status(),
    ;

    /// Replaces the system's upgrade and damage status, keeping its power.
    fn set_system_status(&mut self, status: SystemStatus)
        requires
            old(self).inv(),
            status.wf(),
            old(self).spec_power() <= status.upgrade_level,
        ensures
            final(self).inv(),
            final(self).spec_status() == status,
            final(self).spec_power() == old(self).spec_power(),
    ;

    /// The power the system currently draws.
    fn current_power(&self) -> (r: usize)
        requires
            self.inv(),
        ensures
            r == self.spec_power(),
    ;

    /// Takes the next increment of power from the reactor, if the system's power budget and the
    /// reactor allow it.
    fn add_power(&mut self, reactor: &mut Reactor, context: PowerContext)
        requires
            old(self).inv(),
            old(self).spec_status().wf(),
            old(self).spec_power() <= old(self).spec_status().spec_max_power(),
        ensures
            final(self).inv(),
            final(self).spec_status() == old(self).spec_status(),
            final(self).spec_power() <= final(self).spec_status().spec_max_power(),
            final(self).spec_power() >= old(self).spec_power(),
            final(self).spec_power() + final(reactor).available == old(self).spec_power() + old(reactor).available,
            final(reactor).upgrade_level == old(reactor).upgrade_level,
    ;

    /// Returns the last increment of power to the reactor; does nothing without power.
    fn remove_power(&mut self, reactor: &mut Reactor)
        requires
            old(self).inv(),
            old(self).spec_power() + old(reactor).available <= usize::MAX,
        ensures
            final(self).inv(),
            final(self).spec_status() == old(self).spec_status(),
            old(self).spec_power() > 0 ==> final(self).spec_power() < old(self).spec_power(),
            old(self).spec_power() == 0 ==> final(self).spec_power() == 0,
            final(self).spec_power() + final(reactor).available == old(self).spec_power() + old(reactor).available,
            final(reactor).upgrade_level == old(reactor).upgrade_level,
    ;

    /// Whether the system is destroyed, damaged or undamaged.
    fn damage_intel(&self) -> (r: SystemDamageIntel)
        requires
            self.inv(),
        ensures
            r == (if self.spec_status().damage == self.spec_status().upgrade_level {
                SystemDamageIntel::Destroyed
            } else if self.spec_status().damage == 0 {
                SystemDamageIntel::Undamaged
            } else {
                SystemDamageIntel::Damaged
            }),
    {
        let status = self.system_status();
        if status.damage == status.upgrade_level {
            SystemDamageIntel::Destroyed
        } else if status.damage == 0 {
            SystemDamageIntel::Undamaged
        } else {
            SystemDamageIntel::Damaged
        }
    }

    /// Damages the system by `amount`, capped at its upgrade level, then returns power to the
    /// reactor, one [`ShipSystem::remove_power`] at a time, until the system is back within its
    /// reduced power budget.
    fn damage_system(&mut self, amount: usize, reactor: &mut Reactor)
        requires
            old(self).inv(),
            old(self).spec_status().wf(),
            old(self).spec_power() + old(reactor).available <= usize::MAX,
        ensures
            final(self).inv(),
            final(self).spec_status() == damaged(old(self).spec_status(), amount),
            final(self).spec_power() <= final(self).spec_status().spec_max_power(),
            old(self).spec_power() <= final(self).spec_status().spec_max_power()
                ==> final(self).spec_power() == old(self).spec_power(),
            final(self).spec_power() + final(reactor).available == old(self).spec_power() + old(reactor).available,
            final(reactor).upgrade_level == old(reactor).upgrade_level,
    ;

    /// Repairs up to `amount` of the system's damage.
    fn repair_system(&mut self, amount: usize)
        requires
            old(self).inv(),
            old(self).spec_status().wf(),
        ensures
            final(self).inv(),
            final(self).spec_status().upgrade_level == old(self).spec_status().upgrade_level,
            final(self).spec_status().damage == (if old(self).spec_status().damage > amount {
                old(self).spec_status().damage - amount
            } else {
                0
            }),
            final(self).spec_power() == old(self).spec_power(),
    {
        proof {
            self.lemma_inv();
        }
        let status = self.system_status();
        let damage = if status.damage > amount {
            status.damage - amount
        } else {
            0
        };
        self.set_system_status(SystemStatus { upgrade_level: status.upgrade_level, damage });
    }

    /// Raises the system's upgrade level by one.
    fn upgrade(&mut self)
        requires
            old(self).inv(),
            old(self).spec_status().wf(),
            old(self).spec_status().upgrade_level < usize::MAX,
        ensures
            final(self).inv(),
            final(self).spec_status().upgrade_level == old(self).spec_status().upgrade_level + 1,
            final(self).spec_status().damage == old(self).spec_status().damage,
            final(self).spec_power() == old(self).spec_power(),
    {
        proof {
            self.lemma_inv();
        }
        let status = self.system_status();
        self.set_system_status(
            SystemStatus { upgrade_level: status.upgrade_level + 1, damage: status.damage },
        );
    }

    /// The system's upgrade level.
    fn upgrade_level(&self) -> (r: usize)
        ensures
            r == self.spec_status().upgrade_level,
    {
        self.system_status().upgrade_level
    }

    /// The system's damage.
    fn damage(&self) -> (r: usize)
        ensures
            r == self.spec_status().damage,
    {
        self.system_status().damage
    }
}

/// Takes one unit of power from the reactor into `current_power`, if that stays within
/// `max_power` and the reactor has a unit available; otherwise changes nothing.
pub fn boring_add_power(max_power: usize, current_power: &mut usize, reactor: &mut Reactor)
    ensures
        *old(current_power) < max_power && old(reactor).available > 0 ==> *final(current_power)
            == *old(current_power) + 1 && final(reactor).available == old(reactor).available - 1,
        !(*old(current_power) < max_power && old(reactor).available > 0) ==> *final(current_power)
            == *old(current_power) && final(reactor).available == old(reactor).available,
        final(reactor).upgrade_level == old(reactor).upgrade_level,
{
    if *current_power >= max_power {
        return ;
    }
    if reactor.available == 0 {
        return ;
    }
    reactor.available = reactor.available - 1;
    *current_power = *current_power + 1;
}

/// Returns one unit of power from `current_power` to the reactor; does nothing without power.
pub fn boring_remove_power(current_power: &mut usize, reactor: &mut Reactor)
    requires
        *old(current_power) + old(reactor).available <= usize::MAX,
    ensures
        *old(current_power) > 0 ==> *final(current_power) == *old(current_power) - 1
            && final(reactor).available == old(reactor).available + 1,
        *old(current_power) == 0 ==> *final(current_power) == 0 && final(reactor).available
            == old(reactor).available,
        final(reactor).upgrade_level == old(reactor).upgrade_level,
{
    if *current_power == 0 {
        return ;
    }
    reactor.available = reactor.available + 1;
    *current_power = *current_power - 1;
}

} // verus!
