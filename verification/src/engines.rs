//! The engines system. Its power sets the ship's chance to dodge projectiles.

use vstd::prelude::*;
use crate::reactor::Reactor;
use crate::systems::{boring_add_power, boring_remove_power, damaged, damaged_status, PowerContext, ShipSystem, SystemStatus};

verus! {

/// The engines system, powered one unit at a time.
#[derive(Clone, Debug)]
pub struct Engines {
    pub status: SystemStatus,
    pub current_power: usize,
}

impl Engines {
    /// Undamaged engines at upgrade level 1, without power.
    pub fn default() -> (r: Self)
        ensures
            r.status.upgrade_level == 1,
            r.status.damage == 0,
            r.current_power == 0,
    {
        Engines { status: SystemStatus::default(), current_power: 0 }
    }
}

/// How a power request changes the engines `e0` into `e1` and the reactor's free power `a0` into
/// `a1`: one unit moves from the reactor to the engines if the power budget and the reactor
/// allow it, and nothing changes otherwise.
pub open spec fn engines_power_added(e0: Engines, e1: Engines, a0: usize, a1: usize) -> bool {
    &&& e1.status == e0.status
    &&& if e0.current_power < e0.status.spec_max_power() && a0 > 0 {
        e1.current_power == e0.current_power + 1 && a1 == a0 - 1
    } else {
        e1.current_power == e0.current_power && a1 == a0
    }
}

/// How a power release changes the engines `e0` into `e1` and the reactor's free power `a0` into
/// `a1`: one unit returns to the reactor; without power nothing changes.
pub open spec fn engines_power_removed(e0: Engines, e1: Engines, a0: usize, a1: usize) -> bool {
    &&& e1.status == e0.status
    &&& if e0.current_power > 0 {
        e1.current_power == e0.current_power - 1 && a1 == a0 + 1
    } else {
        e1.current_power == 0 && a1 == a0
    }
}

impl ShipSystem for Engines {
    open spec fn spec_status(&self) -> SystemStatus {
        self.status
    }

    open spec fn spec_power(&self) -> nat {
        self.current_power as nat
    }

    open spec fn inv(&self) -> bool {
        self.status.wf() && self.current_power <= self.status.upgrade_level
    }

    proof fn lemma_inv(&self) {
    }

    fn system_status(&self) -> (r: SystemStatus) {
        self.status
    }

    fn set_system_status(&mut self, status: SystemStatus) {
        self.status = status;
    }

    fn current_power(&self) -> (r: usize) {
        self.current_power
    }

    /// Takes one more unit of power, within the power budget and what the reactor has.
    fn add_power(&mut self, reactor: &mut Reactor, context: PowerContext)
        ensures
            engines_power_added(*old(self), *final(self), old(reactor).available, final(reactor).available),
    {
        let max = self.status.max_power();
        boring_add_power(max, &mut self.current_power, reactor);
    }

    /// Returns one unit of power to the reactor.
    fn remove_power(&mut self, reactor: &mut Reactor)
        ensures
            engines_power_removed(*old(self), *final(self), old(reactor).available, final(reactor).available),
    {
        boring_remove_power(&mut self.current_power, reactor);
    }

    /// Takes the damage, then gives back one unit at a time until within the reduced budget:
    /// the power ends at the smaller of what it was and the budget.
    fn damage_system(&mut self, amount: usize, reactor: &mut Reactor)
        ensures
            final(self).current_power == vstd::math::min(
                old(self).current_power as int,
                final(self).status.spec_max_power() as int,
            ),
    {
        let ghost p0 = self.current_power;
        let ghost sum = self.current_power + reactor.available;
        self.status = damaged_status(self.status, amount);
        let new_max = self.status.upgrade_level - self.status.damage;
        while self.current_power > new_max
            invariant
                self.inv(),
                self.status == damaged(old(self).status, amount),
                new_max == self.status.spec_max_power(),
                self.current_power + reactor.available == sum,
                sum == old(self).current_power + old(reactor).available,
                sum <= usize::MAX,
                reactor.upgrade_level == old(reactor).upgrade_level,
                p0 == old(self).current_power,
                self.current_power == p0 || (p0 > new_max && self.current_power >= new_max),
            decreases self.current_power,
        {
            self.remove_power(reactor);
        }
    }
}

} // verus!
