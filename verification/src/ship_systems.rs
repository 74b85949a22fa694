//! The systems installed on a ship, each housed in a room, and the operations that reach a system
//! by its [`SystemId`].

use vstd::prelude::*;
use crate::engines::{engines_power_added, engines_power_removed, Engines};
use crate::reactor::Reactor;
use crate::shields::{shields_power_added, shields_power_removed, Shields};
use crate::ship::SystemId;
use crate::systems::{damaged, PowerContext, ShipSystem, SystemDamageIntel, SystemStatus};
use crate::weapons::{depowered_from, power_cut, weapons_power_added, weapons_power_removed, Weapons};

verus! {

/// Whether a system is consistent and draws no more power than its damage allows.
pub open spec fn system_ok<S: ShipSystem>(s: S) -> bool {
    s.inv() && s.spec_power() <= s.spec_status().spec_max_power()
}

/// The systems installed on a ship, each with the index of the room housing it.
#[derive(Debug)]
pub struct ShipSystems<R, B> {
    pub shields: Option<(Shields, usize)>,
    pub engines: Option<(Engines, usize)>,
    pub weapons: Option<(Weapons<R, B>, usize)>,
}

impl<R: Copy, B: Copy> ShipSystems<R, B> {
    /// Every installed system is consistent and within its power budget.
    pub open spec fn wf(self) -> bool {
        &&& (self.shields matches Some(s) ==> system_ok(s.0))
        &&& (self.engines matches Some(s) ==> system_ok(s.0))
        &&& (self.weapons matches Some(s) ==> system_ok(s.0))
    }

    /// The room housing `system`, if it is installed.
    pub open spec fn spec_room(self, system: SystemId) -> Option<usize> {
        match system {
            SystemId::Shields => match self.shields {
                Some(s) => Some(s.1),
                None => None,
            },
            SystemId::Engines => match self.engines {
                Some(s) => Some(s.1),
                None => None,
            },
            SystemId::Weapons => match self.weapons {
                Some(s) => Some(s.1),
                None => None,
            },
        }
    }

    /// Whether `system` is installed.
    pub open spec fn installed(self, system: SystemId) -> bool {
        self.spec_room(system) is Some
    }

    /// The status of `system`, if it is installed.
    pub open spec fn status(self, system: SystemId) -> Option<SystemStatus> {
        match system {
            SystemId::Shields => match self.shields {
                Some(s) => Some(s.0.spec_status()),
                None => None,
            },
            SystemId::Engines => match self.engines {
                Some(s) => Some(s.0.spec_status()),
                None => None,
            },
            SystemId::Weapons => match self.weapons {
                Some(s) => Some(s.0.spec_status()),
                None => None,
            },
        }
    }

    /// The power `system` draws (zero if it is not installed).
    pub open spec fn power(self, system: SystemId) -> nat {
        match system {
            SystemId::Shields => match self.shields {
                Some(s) => s.0.spec_power(),
                None => 0,
            },
            SystemId::Engines => match self.engines {
                Some(s) => s.0.spec_power(),
                None => 0,
            },
            SystemId::Weapons => match self.weapons {
                Some(s) => s.0.spec_power(),
                None => 0,
            },
        }
    }

    /// The power drawn by all installed systems together.
    pub open spec fn total_power(self) -> nat {
        self.power(SystemId::Shields) + self.power(SystemId::Weapons) + self.power(
            SystemId::Engines,
        )
    }

    /// Whether every system other than `system` is the same in `self` and `other`.
    pub open spec fn others_unchanged(self, other: Self, system: SystemId) -> bool {
        &&& system != SystemId::Shields ==> other.shields == self.shields
        &&& system != SystemId::Engines ==> other.engines == self.engines
        &&& system != SystemId::Weapons ==> other.weapons == self.weapons
    }

    /// The first system (in declaration order) housed in `room`, if any.
    pub open spec fn room_system(self, room: usize) -> Option<SystemId> {
        if self.spec_room(SystemId::Shields) == Some(room) {
            Some(SystemId::Shields)
        } else if self.spec_room(SystemId::Weapons) == Some(room) {
            Some(SystemId::Weapons)
        } else if self.spec_room(SystemId::Engines) == Some(room) {
            Some(SystemId::Engines)
        } else {
            None
        }
    }

    /// How a power request for `system` changes `self` into `new` and the reactor's free power
    /// `a0` into `a1`, as that system's own power request does (see [`shields_power_added`],
    /// [`engines_power_added`], [`weapons_power_added`]); a system that is not installed changes
    /// nothing.
    pub open spec fn power_added(
        self,
        new: Self,
        system: SystemId,
        missiles: usize,
        a0: usize,
        a1: usize,
    ) -> bool {
        &&& self.others_unchanged(new, system)
        &&& match system {
            SystemId::Shields => match (self.shields, new.shields) {
                (Some(s0), Some(s1)) => s1.1 == s0.1 && shields_power_added(s0.0, s1.0, a0, a1),
                (None, None) => a1 == a0,
                _ => false,
            },
            SystemId::Engines => match (self.engines, new.engines) {
                (Some(s0), Some(s1)) => s1.1 == s0.1 && engines_power_added(s0.0, s1.0, a0, a1),
                (None, None) => a1 == a0,
                _ => false,
            },
            SystemId::Weapons => match (self.weapons, new.weapons) {
                (Some(s0), Some(s1)) => s1.1 == s0.1 && weapons_power_added(
                    s0.0,
                    s1.0,
                    missiles,
                    a0,
                    a1,
                ),
                (None, None) => a1 == a0,
                _ => false,
            },
        }
    }

    /// How a power release for `system` changes `self` into `new` and the reactor's free power
    /// `a0` into `a1`, as that system's own power release does (see [`shields_power_removed`],
    /// [`engines_power_removed`], [`weapons_power_removed`]); a system that is not installed
    /// changes nothing.
    pub open spec fn power_removed(self, new: Self, system: SystemId, a0: usize, a1: usize) -> bool {
        &&& self.others_unchanged(new, system)
        &&& match system {
            SystemId::Shields => match (self.shields, new.shields) {
                (Some(s0), Some(s1)) => s1.1 == s0.1 && shields_power_removed(s0.0, s1.0, a0, a1),
                (None, None) => a1 == a0,
                _ => false,
            },
            SystemId::Engines => match (self.engines, new.engines) {
                (Some(s0), Some(s1)) => s1.1 == s0.1 && engines_power_removed(s0.0, s1.0, a0, a1),
                (None, None) => a1 == a0,
                _ => false,
            },
            SystemId::Weapons => match (self.weapons, new.weapons) {
                (Some(s0), Some(s1)) => s1.1 == s0.1 && weapons_power_removed(s0.0, s1.0, a0, a1),
                (None, None) => a1 == a0,
                _ => false,
            },
        }
    }

    /// Whether `new` is these systems after `system` took `amount` of damage (see
    /// [`ShipSystem::damage_system`]): its damage grows by `amount`, capped at its upgrade level,
    /// and power above its reduced budget goes back to the reactor. Shields drop to the highest
    /// even level within the budget, engines to the budget, and weapons are depowered from the
    /// last powered one until they fit (see [`power_cut`]). The other systems stay as they are.
    pub open spec fn took_damage(self, new: Self, system: SystemId, amount: usize) -> bool {
        let st0 = self.status(system).unwrap();
        let st1 = new.status(system).unwrap();
        &&& new.installed(system)
        &&& self.others_unchanged(new, system)
        &&& new.spec_room(system) == self.spec_room(system)
        &&& st1 == damaged(st0, amount)
        &&& new.power(system) <= st1.spec_max_power()
        &&& self.power(system) <= st1.spec_max_power() ==> new.power(system) == self.power(system)
        &&& match system {
            SystemId::Shields => {
                let s0 = self.shields.unwrap().0;
                let s1 = new.shields.unwrap().0;
                &&& s1.current_power == (if s0.current_power <= st1.spec_max_power() {
                    s0.current_power as int
                } else {
                    (st1.spec_max_power() / 2 * 2) as int
                })
                &&& s1.layers == s0.layers
            },
            SystemId::Engines => {
                let e0 = self.engines.unwrap().0;
                let e1 = new.engines.unwrap().0;
                e1.current_power == vstd::math::min(e0.current_power as int, st1.spec_max_power() as int)
            },
            SystemId::Weapons => {
                let w0 = self.weapons.unwrap().0;
                let w1 = new.weapons.unwrap().0;
                &&& exists|k: int|
                    power_cut(w0.entries@, st1.spec_max_power(), k) && w1.entries@ == depowered_from(
                        w0.entries@,
                        k,
                    )
                &&& w1.autofire == w0.autofire
            },
        }
    }

    /// Whether the installed `system` has no shield layers (for shields) or no weapons and no
    /// autofire (for weapons), as a freshly installed one.
    pub open spec fn fresh(self, system: SystemId) -> bool {
        match system {
            SystemId::Shields => self.shields matches Some(s) && s.0.layers == 0,
            SystemId::Engines => self.engines is Some,
            SystemId::Weapons => self.weapons matches Some(w) && w.0.entries@.len() == 0
                && !w.0.autofire,
        }
    }

    /// Whether `new` is `self` with the upgrade level of `system` one higher and nothing else
    /// changed.
    pub open spec fn upgraded(self, new: Self, system: SystemId) -> bool {
        &&& self.others_unchanged(new, system)
        &&& match system {
            SystemId::Shields => match (self.shields, new.shields) {
                (Some(s0), Some(s1)) => {
                    &&& s1.1 == s0.1
                    &&& s1.0.status.upgrade_level == s0.0.status.upgrade_level + 1
                    &&& s1.0.status.damage == s0.0.status.damage
                    &&& s1.0.current_power == s0.0.current_power
                    &&& s1.0.layers == s0.0.layers
                },
                (None, None) => true,
                _ => false,
            },
            SystemId::Engines => match (self.engines, new.engines) {
                (Some(s0), Some(s1)) => {
                    &&& s1.1 == s0.1
                    &&& s1.0.status.upgrade_level == s0.0.status.upgrade_level + 1
                    &&& s1.0.status.damage == s0.0.status.damage
                    &&& s1.0.current_power == s0.0.current_power
                },
                (None, None) => true,
                _ => false,
            },
            SystemId::Weapons => match (self.weapons, new.weapons) {
                (Some(s0), Some(s1)) => {
                    &&& s1.1 == s0.1
                    &&& s1.0.status.upgrade_level == s0.0.status.upgrade_level + 1
                    &&& s1.0.status.damage == s0.0.status.damage
                    &&& s1.0.entries@ == s0.0.entries@
                    &&& s1.0.autofire == s0.0.autofire
                },
                (None, None) => true,
                _ => false,
            },
        }
    }

    /// No system installed.
    pub fn default() -> (r: Self)
        ensures
            r.wf(),
            r.shields is None,
            r.engines is None,
            r.weapons is None,
            r.total_power() == 0,
    {
        ShipSystems { shields: None, engines: None, weapons: None }
    }

    /// The room housing `system`, if it is installed.
    pub fn system_room(&self, system: SystemId) -> (r: Option<usize>)
        ensures
            r == self.spec_room(system),
    {
        match system {
            SystemId::Shields => match &self.shields {
                Some(s) => Some(s.1),
                None => None,
            },
            SystemId::Engines => match &self.engines {
                Some(s) => Some(s.1),
                None => None,
            },
            SystemId::Weapons => match &self.weapons {
                Some(s) => Some(s.1),
                None => None,
            },
        }
    }

    /// Finds the system housed by `room` (there may not be a system in that room): the first one
    /// in declaration order.
    pub fn system_in_room(&self, room: usize) -> (r: Option<SystemId>)
        ensures
            r == self.room_system(room),
    {
        let all = SystemId::all();
        let mut i: usize = 0;
        while i < all.len()
            invariant
                all@ == crate::ship::all_systems(),
                i <= all@.len(),
                forall|j: int| 0 <= j < i ==> self.spec_room(all@[j]) != Some(room),
            decreases all.len() - i,
        {
            let system = all[i];
            if self.system_room(system) == Some(room) {
                return Some(system);
            }
            i = i + 1;
        }
        None
    }

    /// Installs a fresh `system` in `room`, unless it is already installed. Returns whether it
    /// was installed by this call.
    pub fn install(&mut self, system: SystemId, room: usize) -> (installed: bool)
        requires
            old(self).wf(),
        ensures
            final(self).wf(),
            installed == !old(self).installed(system),
            old(self).others_unchanged(*final(self), system),
            !installed ==> *final(self) == *old(self),
            installed ==> final(self).spec_room(system) == Some(room) && final(self).status(
                system,
            ) == Some(SystemStatus { upgrade_level: 1, damage: 0 }) && final(self).power(system)
                == 0 && final(self).fresh(system),
            final(self).total_power() == old(self).total_power(),
    {
        match system {
            SystemId::Shields => {
                if self.shields.is_some() {
                    return false;
                }
                self.shields = Some((Shields::default(), room));
            },
            SystemId::Engines => {
                if self.engines.is_some() {
                    return false;
                }
                self.engines = Some((Engines::default(), room));
            },
            SystemId::Weapons => {
                if self.weapons.is_some() {
                    return false;
                }
                self.weapons = Some((Weapons::default(), room));
            },
        }
        true
    }

    /// The power `system` draws, if it is installed.
    pub fn current_power(&self, system: SystemId) -> (r: Option<usize>)
        requires
            self.wf(),
        ensures
            r == (if self.installed(system) {
                Some(self.power(system) as usize)
            } else {
                None
            }),
    {
        match system {
            SystemId::Shields => match &self.shields {
                Some(s) => Some(s.0.current_power()),
                None => None,
            },
            SystemId::Engines => match &self.engines {
                Some(s) => Some(s.0.current_power()),
                None => None,
            },
            SystemId::Weapons => match &self.weapons {
                Some(s) => Some(s.0.current_power()),
                None => None,
            },
        }
    }

    /// The status of `system`, if it is installed.
    pub fn system_status(&self, system: SystemId) -> (r: Option<SystemStatus>)
        ensures
            r == self.status(system),
    {
        match system {
            SystemId::Shields => match &self.shields {
                Some(s) => Some(s.0.system_status()),
                None => None,
            },
            SystemId::Engines => match &self.engines {
                Some(s) => Some(s.0.system_status()),
                None => None,
            },
            SystemId::Weapons => match &self.weapons {
                Some(s) => Some(s.0.system_status()),
                None => None,
            },
        }
    }

    /// Whether `system`, if installed, is destroyed, damaged or undamaged.
    pub fn damage_intel(&self, system: SystemId) -> (r: Option<SystemDamageIntel>)
        requires
            self.wf(),
        ensures
            r == (match self.status(system) {
                Some(st) => Some(
                    if st.damage == st.upgrade_level {
                        SystemDamageIntel::Destroyed
                    } else if st.damage == 0 {
                        SystemDamageIntel::Undamaged
                    } else {
                        SystemDamageIntel::Damaged
                    },
                ),
                None => None,
            }),
    {
        match system {
            SystemId::Shields => match &self.shields {
                Some(s) => Some(s.0.damage_intel()),
                None => None,
            },
            SystemId::Engines => match &self.engines {
                Some(s) => Some(s.0.damage_intel()),
                None => None,
            },
            SystemId::Weapons => match &self.weapons {
                Some(s) => Some(s.0.damage_intel()),
                None => None,
            },
        }
    }

    /// Takes the next increment of power for `system` from the reactor (see
    /// [`ShipSystems::power_added`]). Returns whether the system is installed.
    pub fn add_power(&mut self, system: SystemId, reactor: &mut Reactor, context: PowerContext) -> (installed: bool)
        requires
            old(self).wf(),
        ensures
            final(self).wf(),
            installed == old(self).installed(system),
            old(self).power_added(
                *final(self),
                system,
                context.missiles,
                old(reactor).available,
                final(reactor).available,
            ),
            final(self).total_power() + final(reactor).available == old(self).total_power() + old(reactor).available,
            final(reactor).upgrade_level == old(reactor).upgrade_level,
    {
        match system {
            SystemId::Shields => match &mut self.shields {
                Some(s) => {
                    s.0.add_power(reactor, context);
                    true
                },
                None => false,
            },
            SystemId::Engines => match &mut self.engines {
                Some(s) => {
                    s.0.add_power(reactor, context);
                    true
                },
                None => false,
            },
            SystemId::Weapons => match &mut self.weapons {
                Some(s) => {
                    s.0.add_power(reactor, context);
                    true
                },
                None => false,
            },
        }
    }

    /// Returns the last increment of power of `system` to the reactor (see
    /// [`ShipSystems::power_removed`]). Returns whether the system is installed.
    pub fn remove_power(&mut self, system: SystemId, reactor: &mut Reactor) -> (installed: bool)
        requires
            old(self).wf(),
            old(self).total_power() + old(reactor).available <= usize::MAX,
        ensures
            final(self).wf(),
            installed == old(self).installed(system),
            old(self).power_removed(*final(self), system, old(reactor).available, final(reactor).available),
            final(self).total_power() + final(reactor).available == old(self).total_power() + old(reactor).available,
            final(reactor).upgrade_level == old(reactor).upgrade_level,
    {
        match system {
            SystemId::Shields => match &mut self.shields {
                Some(s) => {
                    s.0.remove_power(reactor);
                    true
                },
                None => false,
            },
            SystemId::Engines => match &mut self.engines {
                Some(s) => {
                    s.0.remove_power(reactor);
                    true
                },
                None => false,
            },
            SystemId::Weapons => match &mut self.weapons {
                Some(s) => {
                    s.0.remove_power(reactor);
                    true
                },
                None => false,
            },
        }
    }

    /// Damages `system` by `amount`, capped at its upgrade level, returning power to the reactor
    /// until the system is within its reduced budget (see [`ShipSystem::damage_system`]).
    /// Returns whether the system is installed; if it is not, nothing changes.
    pub fn damage_system(&mut self, system: SystemId, amount: usize, reactor: &mut Reactor) -> (installed: bool)
        requires
            old(self).wf(),
            old(self).total_power() + old(reactor).available <= usize::MAX,
        ensures
            final(self).wf(),
            installed == old(self).installed(system),
            old(self).others_unchanged(*final(self), system),
            final(self).spec_room(system) == old(self).spec_room(system),
            installed ==> old(self).took_damage(*final(self), system, amount),
            !installed ==> *final(self) == *old(self) && *final(reactor) == *old(reactor),
            final(self).total_power() + final(reactor).available == old(self).total_power() + old(reactor).available,
            final(reactor).upgrade_level == old(reactor).upgrade_level,
    {
        match system {
            SystemId::Shields => match &mut self.shields {
                Some(s) => {
                    s.0.damage_system(amount, reactor);
                    true
                },
                None => false,
            },
            SystemId::Engines => match &mut self.engines {
                Some(s) => {
                    s.0.damage_system(amount, reactor);
                    true
                },
                None => false,
            },
            SystemId::Weapons => match &mut self.weapons {
                Some(s) => {
                    s.0.damage_system(amount, reactor);
                    true
                },
                None => false,
            },
        }
    }

    /// Repairs up to `amount` of the damage of `system` (see [`ShipSystem::repair_system`]).
    /// Returns whether the system is installed; if it is not, nothing changes.
    pub fn repair_system(&mut self, system: SystemId, amount: usize) -> (installed: bool)
        requires
            old(self).wf(),
        ensures
            final(self).wf(),
            installed == old(self).installed(system),
            old(self).others_unchanged(*final(self), system),
            final(self).spec_room(system) == old(self).spec_room(system),
            installed ==> ({
                let st0 = old(self).status(system).unwrap();
                let st1 = final(self).status(system).unwrap();
                &&& final(self).installed(system)
                &&& st1.upgrade_level == st0.upgrade_level
                &&& st1.damage == (if st0.damage > amount {
                    st0.damage - amount
                } else {
                    0
                })
            }),
            !installed ==> *final(self) == *old(self),
            final(self).power(system) == old(self).power(system),
            final(self).total_power() == old(self).total_power(),
    {
        match system {
            SystemId::Shields => match &mut self.shields {
                Some(s) => {
                    s.0.repair_system(amount);
                    true
                },
                None => false,
            },
            SystemId::Engines => match &mut self.engines {
                Some(s) => {
                    s.0.repair_system(amount);
                    true
                },
                None => false,
            },
            SystemId::Weapons => match &mut self.weapons {
                Some(s) => {
                    s.0.repair_system(amount);
                    true
                },
                None => false,
            },
        }
    }

    /// Raises the upgrade level of `system` by one (see [`ShipSystem::upgrade`]). Returns
    /// whether the system is installed; if it is not, nothing changes.
    pub fn upgrade(&mut self, system: SystemId) -> (installed: bool)
        requires
            old(self).wf(),
            old(self).installed(system) ==> old(self).status(system).unwrap().upgrade_level
                < usize::MAX,
        ensures
            final(self).wf(),
            installed == old(self).installed(system),
            old(self).upgraded(*final(self), system),
            final(self).total_power() == old(self).total_power(),
    {
        match system {
            SystemId::Shields => match &mut self.shields {
                Some(s) => {
                    s.0.status.upgrade_level = s.0.status.upgrade_level + 1;
                    true
                },
                None => false,
            },
            SystemId::Engines => match &mut self.engines {
                Some(s) => {
                    s.0.status.upgrade_level = s.0.status.upgrade_level + 1;
                    true
                },
                None => false,
            },
            SystemId::Weapons => match &mut self.weapons {
                Some(s) => {
                    s.0.status.upgrade_level = s.0.status.upgrade_level + 1;
                    true
                },
                None => false,
            },
        }
    }
}

} // verus!
