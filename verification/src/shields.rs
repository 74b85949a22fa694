//! The shields system. Shield power comes in pairs: every two units hold one shield layer.

use vstd::prelude::*;
use crate::reactor::Reactor;
use crate::systems::{damaged, damaged_status, PowerContext, ShipSystem, SystemStatus};

verus! {

/// The shields system.
#[derive(Clone, Debug)]
pub struct Shields {
    pub status: SystemStatus,
    /// Current reactor power allocated to shields.
    pub current_power: usize,
    /// Current number of shield layers.
    pub layers: usize,
}

impl Shields {
    /// Undamaged shields at upgrade level 1, without power or layers.
    pub fn default() -> (r: Self)
        ensures
            r.status.upgrade_level == 1,
            r.status.damage == 0,
            r.current_power == 0,
            r.layers == 0,
    {
        Shields { status: SystemStatus::default(), current_power: 0, layers: 0 }
    }

    /// The number of layers the current power holds.
    pub open spec fn spec_max_layers(self) -> nat {
        (self.current_power / 2) as nat
    }

    /// The number of layers the current power holds: one per two units of power.
    pub fn max_layers(&self) -> (r: usize)
        ensures
            r == self.spec_max_layers(),
    {
        self.current_power / 2
    }

    /// The first part of a charging step: layers that the current power can no longer hold
    /// collapse. Returns whether a layer is still missing; while one is, the recovery charge of
    /// the next layer grows, and otherwise it resets.
    pub fn charge_shield(&mut self) -> (charging: bool)
        ensures
            final(self).layers == vstd::math::min(
                old(self).layers as int,
                old(self).spec_max_layers() as int,
            ),
            final(self).status == old(self).status,
            final(self).current_power == old(self).current_power,
            charging == (final(self).layers < final(self).spec_max_layers()),
    {
        let target = self.current_power / 2;
        if self.layers > target {
            self.layers = target;
        }
        self.layers < target
    }

    /// Completes the recovery of the next layer, once its charge is full.
    pub fn recover_layer(&mut self)
        requires
            old(self).layers < old(self).spec_max_layers(),
        ensures
            final(self).layers == old(self).layers + 1,
            final(self).layers <= final(self).spec_max_layers(),
            final(self).status == old(self).status,
            final(self).current_power == old(self).current_power,
    {
        self.layers = self.layers + 1;
    }
}

/// How a power request changes the shields `s0` into `s1` and the reactor's free power `a0`
/// into `a1`: the power rises to the next even level (one more layer) if that stays within the
/// power budget and the reactor can supply the difference, and nothing changes otherwise.
pub open spec fn shields_power_added(s0: Shields, s1: Shields, a0: usize, a1: usize) -> bool {
    let next = (s0.current_power / 2 + 1) * 2;
    &&& s1.status == s0.status
    &&& s1.layers == s0.layers
    &&& if next <= s0.status.spec_max_power() && next - s0.current_power <= a0 {
        s1.current_power == next && a1 == a0 - (next - s0.current_power)
    } else {
        s1.current_power == s0.current_power && a1 == a0
    }
}

/// How a power release changes the shields `s0` into `s1` and the reactor's free power `a0`
/// into `a1`: the power drops to the previous even level (one layer less) and the difference
/// returns to the reactor; without power nothing changes.
pub open spec fn shields_power_removed(s0: Shields, s1: Shields, a0: usize, a1: usize) -> bool {
    &&& s1.status == s0.status
    &&& s1.layers == s0.layers
    &&& if s0.current_power > 0 {
        let prev = (s0.current_power - 1) as nat / 2 * 2;
        s1.current_power == prev && a1 == a0 + (s0.current_power - prev)
    } else {
        s1.current_power == 0 && a1 == a0
    }
}

impl ShipSystem for Shields {
    open spec fn spec_status(&self) -> SystemStatus {
        self.status
    }

    open spec fn spec_power(&self) -> nat {
        self.current_power as nat
    }

    open spec fn inv(&self) -> bool {
        self.status.wf() && self.current_power <= self.status.upgrade_level
    }

    proof fn lemma_inv(&self) {
    }

    fn system_status(&self) -> (r: SystemStatus) {
        self.status
    }

    fn set_system_status(&mut self, status: SystemStatus) {
        self.status = status;
    }

    fn current_power(&self) -> (r: usize) {
        self.current_power
    }

    /// Raises the power to the next even level (one more layer), if that stays within the power
    /// budget and the reactor can supply the difference; otherwise changes nothing.
    fn add_power(&mut self, reactor: &mut Reactor, context: PowerContext)
        ensures
            shields_power_added(*old(self), *final(self), old(reactor).available, final(reactor).available),
    {
        let max = self.status.max_power();
        if self.current_power / 2 + 1 > max / 2 {
            return ;
        }
        let next_level = (self.current_power / 2 + 1) * 2;
        let diff = next_level - self.current_power;
        if reactor.available < diff {
            return ;
        }
        reactor.available = reactor.available - diff;
        self.current_power = self.current_power + diff;
    }

    /// Lowers the power to the previous even level (one layer less); does nothing without power.
    fn remove_power(&mut self, reactor: &mut Reactor)
        ensures
            shields_power_removed(*old(self), *final(self), old(reactor).available, final(reactor).available),
    {
        if self.current_power == 0 {
            return ;
        }
        let prev_level = (self.current_power - 1) / 2 * 2;
        let diff = self.current_power - prev_level;
        reactor.available = reactor.available + diff;
        self.current_power = self.current_power - diff;
    }

    /// Takes the damage, then gives back power one layer at a time until within the reduced
    /// budget: power above the budget drops to the highest even level within it.
    fn damage_system(&mut self, amount: usize, reactor: &mut Reactor)
        ensures
            final(self).current_power == (if old(self).current_power <= final(self).status.spec_max_power() {
                old(self).current_power as int
            } else {
                (final(self).status.spec_max_power() / 2 * 2) as int
            }),
            final(self).layers == old(self).layers,
    {
        let ghost p0 = self.current_power;
        let ghost sum = self.current_power + reactor.available;
        self.status = damaged_status(self.status, amount);
        let new_max = self.status.upgrade_level - self.status.damage;
        while self.current_power > new_max
            invariant
                self.inv(),
                self.status == damaged(old(self).status, amount),
                self.layers == old(self).layers,
                new_max == self.status.spec_max_power(),
                self.current_power + reactor.available == sum,
                sum == old(self).current_power + old(reactor).available,
                sum <= usize::MAX,
                reactor.upgrade_level == old(reactor).upgrade_level,
                p0 == old(self).current_power,
                self.current_power == p0 || (p0 > new_max && self.current_power >= new_max / 2 * 2
                    && self.current_power % 2 == 0),
                p0 > new_max ==> self.current_power >= new_max / 2 * 2,
            decreases self.current_power,
        {
            self.remove_power(reactor);
        }
    }
}


/// Adding shield power and then removing it restores the shields and the reactor's free power,
/// whenever the power was even (whole layers) and the request was granted.
pub proof fn lemma_shields_power_round_trip(s0: Shields, s1: Shields, s2: Shields, a0: usize, a1: usize, a2: usize)
    requires
        s0.current_power % 2 == 0,
        shields_power_added(s0, s1, a0, a1),
        s1.current_power != s0.current_power,
        shields_power_removed(s1, s2, a1, a2),
    ensures
        s2 == s0,
        a2 == a0,
{
}

/// Shield power stays even: adding or removing power from an even level gives an even level.
pub proof fn lemma_shields_power_even(s0: Shields, s1: Shields, a0: usize, a1: usize)
    requires
        s0.current_power % 2 == 0,
        shields_power_added(s0, s1, a0, a1) || shields_power_removed(s0, s1, a0, a1),
    ensures
        s1.current_power % 2 == 0,
{
}

} // verus!
