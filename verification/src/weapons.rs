//! The weapons system: installed weapons, their power, targets and charge, and the volleys they
//! fire. Targets are carried through unchanged, so their types are parameters: `R` for a room
//! target of a projectile weapon and `B` for the target of a beam weapon.

use vstd::prelude::*;
use crate::reactor::Reactor;
use crate::systems::{damaged, damaged_status, PowerContext, ShipSystem, SystemStatus};
use crate::weapon::{
    projectile_table, BeamWeapon, BeamWeaponId, ProjectileWeapon, ProjectileWeaponId, Weapon, WeaponId, Weaponlike,
};

verus! {

/// Whether a weapon is powered and, if it is, what it aims at.
#[derive(Clone, Copy, Debug, PartialEq, Eq)]
pub enum PowerTargetingStatus<T> {
    Unpowered,
    Powered { target: Option<T> },
}

/// A volley fired by a weapon of kind `I` at a target of type `T`.
#[derive(Clone, Copy, Debug)]
pub struct VolleyInner<I, T> {
    pub weapon: I,
    pub target: T,
}

/// A volley fired by a projectile or beam weapon.
#[derive(Clone, Copy, Debug)]
pub enum Volley<R, B> {
    Projectile(VolleyInner<ProjectileWeaponId, R>),
    Beam(VolleyInner<BeamWeaponId, B>),
}

/// What a weapon aims at.
#[derive(Clone, Copy, Debug)]
pub enum WeaponTarget<R, B> {
    Projectile(R),
    Beam(B),
}

/// An installed weapon of kind `Kind` aiming at targets of type `T`.
#[derive(Debug)]
pub struct WeaponStatus<Kind, T> {
    /// The "physical" weapon. It can't be cloned; it can only be moved around and eventually
    /// destroyed.
    pub weapon: Kind,
    pub power_targeting: PowerTargetingStatus<T>,
    /// Charge in ticks of 1/64 s; the weapon can fire once it reaches the charge time.
    pub charge: u32,
}

/// What a charging step does to a weapon's charge: a powered weapon gains a tick, up to its
/// charge time; an unpowered one loses six ticks, down to zero.
pub open spec fn charged(powered: bool, charge: u32, charge_time: u32) -> u32 {
    if powered {
        if charge + 1 < charge_time {
            (charge + 1) as u32
        } else {
            charge_time
        }
    } else if charge >= 6 {
        (charge - 6) as u32
    } else {
        0
    }
}

impl<Kind: Weaponlike, T: Copy> WeaponStatus<Kind, T> {
    /// The weapon id of this weapon's kind.
    pub open spec fn weapon_id(&self) -> WeaponId {
        Kind::spec_weapon_id(self.weapon.spec_id())
    }

    /// Whether the weapon is powered.
    pub open spec fn spec_powered(&self) -> bool {
        self.power_targeting is Powered
    }

    /// The weapon's current target, if it is powered and aimed.
    pub open spec fn spec_target(&self) -> Option<T> {
        match self.power_targeting {
            PowerTargetingStatus::Unpowered => None,
            PowerTargetingStatus::Powered { target } => target,
        }
    }

    /// Whether the next charging step fires a volley: the weapon is powered, aimed, and reaches
    /// its charge time.
    pub open spec fn will_fire(&self) -> bool {
        &&& self.spec_powered()
        &&& self.spec_target() is Some
        &&& charged(true, self.charge, self.weapon_id().charge_time()) == self.weapon_id().charge_time()
    }

    /// The weapon after a charging step (see [`WeaponStatus::charge_and_fire`]).
    pub open spec fn after_charge(self, autofire: bool) -> Self {
        if self.will_fire() {
            WeaponStatus {
                weapon: self.weapon,
                power_targeting: PowerTargetingStatus::Powered {
                    target: if autofire {
                        self.spec_target()
                    } else {
                        None
                    },
                },
                charge: 0,
            }
        } else {
            WeaponStatus {
                weapon: self.weapon,
                power_targeting: self.power_targeting,
                charge: charged(self.spec_powered(), self.charge, self.weapon_id().charge_time()),
            }
        }
    }

    /// Whether the weapon is powered.
    pub fn is_powered(&self) -> (r: bool)
        ensures
            r == self.spec_powered(),
    {
        match self.power_targeting {
            PowerTargetingStatus::Powered { .. } => true,
            PowerTargetingStatus::Unpowered => false,
        }
    }

    /// The weapon's current target, if it is powered and aimed.
    pub fn target(&self) -> (r: Option<T>)
        ensures
            r == self.spec_target(),
    {
        match self.power_targeting {
            PowerTargetingStatus::Unpowered => None,
            PowerTargetingStatus::Powered { target } => target,
        }
    }

    /// Whether the next charging step fires a volley (see [`WeaponStatus::will_fire`]).
    pub fn will_fire_next(&self) -> (r: bool)
        requires
            self.weapon_id().valid(),
        ensures
            r == self.will_fire(),
    {
        let weapon = Kind::into_weapon_id(self.weapon.id());
        let charge_time = weapon.common().charge_time;
        match self.power_targeting {
            PowerTargetingStatus::Powered { target } => target.is_some() && (self.charge as u64) + 1
                >= charge_time as u64,
            PowerTargetingStatus::Unpowered => false,
        }
    }

    /// Advances the weapon's charge by one fixed update (see [`charged`]). A powered, aimed weapon
    /// that reaches its charge time fires: its charge resets, it uses up a missile if its kind
    /// needs one, and it keeps its target only under `autofire`.
    pub fn charge_and_fire(&mut self, missiles: &mut usize, autofire: bool) -> (r: Option<
        VolleyInner<Kind::Id, T>,
    >)
        requires
            old(self).weapon_id().valid(),
            old(self).will_fire() && old(self).weapon_id().spec_uses_missile() ==> *old(missiles)
                > 0,
        ensures
            *final(self) == old(self).after_charge(autofire),
            r == (if old(self).will_fire() {
                Some(
                    VolleyInner { weapon: old(self).weapon.spec_id(), target: old(self).spec_target().unwrap() },
                )
            } else {
                None
            }),
            *final(missiles) == *old(missiles) - (if old(self).will_fire() && old(self).weapon_id().spec_uses_missile() {
                1int
            } else {
                0int
            }),
    {
        let weapon = Kind::into_weapon_id(self.weapon.id());
        let common = weapon.common();
        let charge_time = common.charge_time;
        match self.power_targeting {
            PowerTargetingStatus::Powered { target } => {
                self.charge = if self.charge < charge_time - 1 {
                    self.charge + 1
                } else {
                    charge_time
                };
                if self.charge == charge_time {
                    if let Some(target_room) = target {
                        self.charge = 0;
                        if weapon.uses_missile() {
                            *missiles = *missiles - 1;
                        }
                        self.power_targeting = PowerTargetingStatus::Powered {
                            target: if autofire {
                                Some(target_room)
                            } else {
                                None
                            },
                        };
                        return Some(VolleyInner { weapon: self.weapon.id(), target: target_room });
                    }
                }
            },
            PowerTargetingStatus::Unpowered => {
                self.charge = if self.charge >= 6 {
                    self.charge - 6
                } else {
                    0
                };
            },
        }
        None
    }
}

/// A charging step that fires leaves the weapon powered with its charge reset. Under autofire
/// it stays aimed at the target it fired at, so it fires there again once recharged; without
/// autofire it drops its target. A step that does not fire changes neither whether the weapon is
/// powered nor its target.
pub proof fn lemma_charge_keeps_target<Kind: Weaponlike, T: Copy>(w: WeaponStatus<Kind, T>, autofire: bool)
    ensures
        w.will_fire() ==> w.after_charge(autofire).spec_powered() && w.after_charge(autofire).charge == 0,
        w.will_fire() && autofire ==> w.after_charge(autofire).spec_target() == w.spec_target(),
        w.will_fire() && autofire ==> w.after_charge(autofire).spec_target() is Some,
        w.will_fire() && !autofire ==> w.after_charge(autofire).spec_target() is None,
        !w.will_fire() ==> w.after_charge(autofire).spec_powered() == w.spec_powered()
            && w.after_charge(autofire).spec_target() == w.spec_target(),
        w.after_charge(autofire).weapon == w.weapon,
{
}

/// An installed weapon: a projectile weapon aiming at rooms (`R`) or a beam weapon (`B`).
#[derive(Debug)]
pub enum WeaponEntry<R, B> {
    Projectile(WeaponStatus<ProjectileWeapon, R>),
    Beam(WeaponStatus<BeamWeapon, B>),
}

impl<R: Copy, B: Copy> WeaponEntry<R, B> {
    /// The kind of the installed weapon.
    pub open spec fn spec_weapon(&self) -> WeaponId {
        match self {
            WeaponEntry::Projectile(s) => s.weapon_id(),
            WeaponEntry::Beam(s) => s.weapon_id(),
        }
    }

    /// Whether the weapon is powered.
    pub open spec fn spec_powered(&self) -> bool {
        match self {
            WeaponEntry::Projectile(s) => s.spec_powered(),
            WeaponEntry::Beam(s) => s.spec_powered(),
        }
    }

    /// The weapon's charge in ticks.
    pub open spec fn spec_charge(&self) -> u32 {
        match self {
            WeaponEntry::Projectile(s) => s.charge,
            WeaponEntry::Beam(s) => s.charge,
        }
    }

    /// The power the weapon draws: its kind's power when powered, none otherwise.
    pub open spec fn drawn_power(&self) -> nat {
        if self.spec_powered() {
            self.spec_weapon().power() as nat
        } else {
            0
        }
    }

    /// The weapon names a known kind and its charge does not exceed its charge time.
    pub open spec fn wf(&self) -> bool {
        &&& self.spec_weapon().valid()
        &&& self.spec_charge() <= self.spec_weapon().charge_time()
    }

    /// Whether the next charging step fires a volley.
    pub open spec fn will_fire(&self) -> bool {
        match self {
            WeaponEntry::Projectile(s) => s.will_fire(),
            WeaponEntry::Beam(s) => s.will_fire(),
        }
    }

    /// Whether the next charging step fires a volley that uses up a missile.
    pub open spec fn fires_missile(&self) -> bool {
        self.will_fire() && self.spec_weapon().spec_uses_missile()
    }

    /// The volley the next charging step fires, if any.
    pub open spec fn fired(self) -> Option<Volley<R, B>> {
        match self {
            WeaponEntry::Projectile(s) => if s.will_fire() {
                Some(
                    Volley::Projectile(
                        VolleyInner { weapon: s.weapon.spec_id(), target: s.spec_target().unwrap() },
                    ),
                )
            } else {
                None
            },
            WeaponEntry::Beam(s) => if s.will_fire() {
                Some(
                    Volley::Beam(
                        VolleyInner { weapon: s.weapon.spec_id(), target: s.spec_target().unwrap() },
                    ),
                )
            } else {
                None
            },
        }
    }

    /// The entry after a charging step.
    pub open spec fn after_charge(self, autofire: bool) -> Self {
        match self {
            WeaponEntry::Projectile(s) => WeaponEntry::Projectile(s.after_charge(autofire)),
            WeaponEntry::Beam(s) => WeaponEntry::Beam(s.after_charge(autofire)),
        }
    }

    /// This entry with its power switched on and no target.
    pub open spec fn powered_up(self) -> Self {
        match self {
            WeaponEntry::Projectile(s) => WeaponEntry::Projectile(
                WeaponStatus {
                    weapon: s.weapon,
                    power_targeting: PowerTargetingStatus::Powered { target: None },
                    charge: s.charge,
                },
            ),
            WeaponEntry::Beam(s) => WeaponEntry::Beam(
                WeaponStatus {
                    weapon: s.weapon,
                    power_targeting: PowerTargetingStatus::Powered { target: None },
                    charge: s.charge,
                },
            ),
        }
    }

    /// This entry with its power switched off.
    pub open spec fn powered_down(self) -> Self {
        match self {
            WeaponEntry::Projectile(s) => WeaponEntry::Projectile(
                WeaponStatus {
                    weapon: s.weapon,
                    power_targeting: PowerTargetingStatus::Unpowered,
                    charge: s.charge,
                },
            ),
            WeaponEntry::Beam(s) => WeaponEntry::Beam(
                WeaponStatus {
                    weapon: s.weapon,
                    power_targeting: PowerTargetingStatus::Unpowered,
                    charge: s.charge,
                },
            ),
        }
    }

    /// A newly installed, unpowered and uncharged entry for `weapon`.
    pub open spec fn installed(weapon: Weapon) -> Self {
        match weapon {
            Weapon::Projectile(w) => WeaponEntry::Projectile(
                WeaponStatus { weapon: w, power_targeting: PowerTargetingStatus::Unpowered, charge: 0 },
            ),
            Weapon::Beam(w) => WeaponEntry::Beam(
                WeaponStatus { weapon: w, power_targeting: PowerTargetingStatus::Unpowered, charge: 0 },
            ),
        }
    }

    /// Installs `weapon`, unpowered and uncharged.
    pub fn new(weapon: Weapon) -> (r: Self)
        ensures
            r == Self::installed(weapon),
            r.spec_weapon() == weapon.spec_id(),
            !r.spec_powered(),
            r.spec_charge() == 0,
    {
        match weapon {
            Weapon::Projectile(weapon) => WeaponEntry::Projectile(
                WeaponStatus { weapon, power_targeting: PowerTargetingStatus::Unpowered, charge: 0 },
            ),
            Weapon::Beam(weapon) => WeaponEntry::Beam(
                WeaponStatus { weapon, power_targeting: PowerTargetingStatus::Unpowered, charge: 0 },
            ),
        }
    }

    /// The kind of the installed weapon.
    pub fn weapon(&self) -> (r: WeaponId)
        ensures
            r == self.spec_weapon(),
    {
        match self {
            WeaponEntry::Projectile(status) => WeaponId::Projectile(status.weapon.id()),
            WeaponEntry::Beam(status) => WeaponId::Beam(status.weapon.id()),
        }
    }

    /// Whether the weapon is powered.
    pub fn is_powered(&self) -> (r: bool)
        ensures
            r == self.spec_powered(),
    {
        match self {
            WeaponEntry::Projectile(x) => x.is_powered(),
            WeaponEntry::Beam(x) => x.is_powered(),
        }
    }

    /// Switches the weapon's power on, without a target.
    pub fn add_power(&mut self)
        ensures
            *final(self) == old(self).powered_up(),
    {
        match self {
            WeaponEntry::Projectile(status) => {
                status.power_targeting = PowerTargetingStatus::Powered { target: None };
            },
            WeaponEntry::Beam(status) => {
                status.power_targeting = PowerTargetingStatus::Powered { target: None };
            },
        }
    }

    /// Switches the weapon's power off, dropping its target.
    pub fn remove_power(&mut self)
        ensures
            *final(self) == old(self).powered_down(),
    {
        match self {
            WeaponEntry::Projectile(status) => {
                status.power_targeting = PowerTargetingStatus::Unpowered;
            },
            WeaponEntry::Beam(status) => {
                status.power_targeting = PowerTargetingStatus::Unpowered;
            },
        }
    }

    /// Advances the weapon's charge by one fixed update, returning the volley it fires, if any
    /// (see [`WeaponStatus::charge_and_fire`]).
    pub fn charge_and_fire(&mut self, missiles: &mut usize, autofire: bool) -> (r: Option<
        Volley<R, B>,
    >)
        requires
            old(self).wf(),
            old(self).fires_missile() ==> *old(missiles) > 0,
        ensures
            *final(self) == old(self).after_charge(autofire),
            r == old(self).fired(),
            final(self).wf(),
            final(self).spec_weapon() == old(self).spec_weapon(),
            final(self).spec_powered() == old(self).spec_powered(),
            *final(missiles) == *old(missiles) - (if old(self).fires_missile() {
                1int
            } else {
                0int
            }),
    {
        match self {
            WeaponEntry::Projectile(status) => match status.charge_and_fire(missiles, autofire) {
                Some(v) => Some(Volley::Projectile(v)),
                None => None,
            },
            WeaponEntry::Beam(status) => match status.charge_and_fire(missiles, autofire) {
                Some(v) => Some(Volley::Beam(v)),
                None => None,
            },
        }
    }

    /// Whether the next charging step fires a volley that uses up a missile.
    pub fn fires_missile_next(&self) -> (r: bool)
        requires
            self.wf(),
        ensures
            r == self.fires_missile(),
    {
        let fires = match self {
            WeaponEntry::Projectile(status) => status.will_fire_next(),
            WeaponEntry::Beam(status) => status.will_fire_next(),
        };
        fires && self.weapon().uses_missile()
    }

    /// Aims a powered projectile weapon at `new_target` (or clears its target). Does nothing
    /// for a beam weapon, an unpowered weapon, or when targeting the own ship with a weapon
    /// that cannot target its own ship.
    pub fn set_room_target(&mut self, new_target: Option<R>, targeting_self: bool)
        requires
            old(self).wf(),
        ensures
            match *old(self) {
                WeaponEntry::Projectile(s) => if s.spec_powered() && !(targeting_self
                    && !crate::weapon::projectile_table(s.weapon.0).can_target_self) {
                    *final(self) == WeaponEntry::<R, B>::Projectile(
                        WeaponStatus {
                            weapon: s.weapon,
                            power_targeting: PowerTargetingStatus::Powered { target: new_target },
                            charge: s.charge,
                        },
                    )
                } else {
                    *final(self) == *old(self)
                },
                WeaponEntry::Beam(_) => *final(self) == *old(self),
            },
    {
        match self {
            WeaponEntry::Projectile(status) => {
                if let PowerTargetingStatus::Powered { .. } = status.power_targeting {
                    if targeting_self && !status.weapon.id().stats().can_target_self {
                        return ;
                    }
                    status.power_targeting = PowerTargetingStatus::Powered { target: new_target };
                }
            },
            WeaponEntry::Beam(_) => {},
        }
    }

    /// Aims a powered beam weapon at `new_target` (or clears its target). Does nothing for a
    /// projectile weapon or an unpowered weapon.
    pub fn set_beam_target(&mut self, new_target: Option<B>)
        ensures
            match *old(self) {
                WeaponEntry::Beam(s) => if s.spec_powered() {
                    *final(self) == WeaponEntry::<R, B>::Beam(
                        WeaponStatus {
                            weapon: s.weapon,
                            power_targeting: PowerTargetingStatus::Powered { target: new_target },
                            charge: s.charge,
                        },
                    )
                } else {
                    *final(self) == *old(self)
                },
                WeaponEntry::Projectile(_) => *final(self) == *old(self),
            },
    {
        match self {
            WeaponEntry::Beam(status) => {
                if let PowerTargetingStatus::Powered { .. } = status.power_targeting {
                    status.power_targeting = PowerTargetingStatus::Powered { target: new_target };
                }
            },
            WeaponEntry::Projectile(_) => {},
        }
    }

    /// What the weapon aims at, if it is powered and aimed.
    pub open spec fn aim(self) -> Option<WeaponTarget<R, B>> {
        match self {
            WeaponEntry::Projectile(s) => match s.spec_target() {
                Some(t) => Some(WeaponTarget::<R, B>::Projectile(t)),
                None => None,
            },
            WeaponEntry::Beam(s) => match s.spec_target() {
                Some(t) => Some(WeaponTarget::<R, B>::Beam(t)),
                None => None,
            },
        }
    }

    /// What the weapon aims at, if it is powered and aimed.
    pub fn target(&self) -> (r: Option<WeaponTarget<R, B>>)
        ensures
            r == self.aim(),
    {
        match self {
            WeaponEntry::Projectile(status) => match status.target() {
                Some(t) => Some(WeaponTarget::Projectile(t)),
                None => None,
            },
            WeaponEntry::Beam(status) => match status.target() {
                Some(t) => Some(WeaponTarget::Beam(t)),
                None => None,
            },
        }
    }

    /// The weapon's charge in ticks.
    pub fn charge(&self) -> (r: u32)
        ensures
            r == self.spec_charge(),
    {
        match self {
            WeaponEntry::Projectile(status) => status.charge,
            WeaponEntry::Beam(status) => status.charge,
        }
    }

    /// Uninstalls the weapon, handing back the "physical" weapon.
    pub fn take(self) -> (r: Weapon)
        ensures
            r.spec_id() == self.spec_weapon(),
            r == match self {
                WeaponEntry::Projectile(x) => Weapon::Projectile(x.weapon),
                WeaponEntry::Beam(x) => Weapon::Beam(x.weapon),
            },
    {
        match self {
            WeaponEntry::Projectile(x) => Weapon::Projectile(x.weapon),
            WeaponEntry::Beam(x) => Weapon::Beam(x.weapon),
        }
    }
}

/// The power drawn by all powered weapons of `s`.
pub open spec fn total_power<R, B>(s: Seq<WeaponEntry<R, B>>) -> nat
    decreases s.len(),
{
    if s.len() == 0 {
        0
    } else {
        total_power(s.drop_last()) + drawn(s.last())
    }
}

/// The power drawn by `e` (see [`WeaponEntry::drawn_power`]).
pub open spec fn drawn<R, B>(e: WeaponEntry<R, B>) -> nat {
    match e {
        WeaponEntry::Projectile(s) => match s.power_targeting {
            PowerTargetingStatus::Powered { .. } => crate::weapon::projectile_power(s.weapon.0) as nat,
            PowerTargetingStatus::Unpowered => 0,
        },
        WeaponEntry::Beam(s) => match s.power_targeting {
            PowerTargetingStatus::Powered { .. } => crate::weapon::beam_power(s.weapon.0) as nat,
            PowerTargetingStatus::Unpowered => 0,
        },
    }
}

/// The number of weapons of `s` whose next charging step fires a volley using a missile.
pub open spec fn missile_volleys<R, B>(s: Seq<WeaponEntry<R, B>>) -> nat
    decreases s.len(),
{
    if s.len() == 0 {
        0
    } else {
        missile_volleys(s.drop_last()) + if fires_missile(s.last()) {
            1nat
        } else {
            0nat
        }
    }
}

/// Whether the next charging step of `e` fires a volley using a missile.
pub open spec fn fires_missile<R, B>(e: WeaponEntry<R, B>) -> bool {
    match e {
        WeaponEntry::Projectile(s) => {
            &&& s.power_targeting matches PowerTargetingStatus::Powered { target: Some(_) }
            &&& charged(true, s.charge, crate::weapon::projectile_charge_time(s.weapon.0))
                == crate::weapon::projectile_charge_time(s.weapon.0)
            &&& crate::weapon::projectile_uses_missile(s.weapon.0)
        },
        WeaponEntry::Beam(_) => false,
    }
}

/// Replacing one entry changes the total by the difference of the entries' drawn power.
pub proof fn lemma_total_update<R, B>(s: Seq<WeaponEntry<R, B>>, i: int, e: WeaponEntry<R, B>)
    requires
        0 <= i < s.len(),
    ensures
        total_power(s.update(i, e)) + drawn(s[i]) == total_power(s) + drawn(e),
    decreases s.len(),
{
    let t = s.update(i, e);
    if i == s.len() - 1 {
        assert(t.drop_last() =~= s.drop_last());
    } else {
        assert(t.drop_last() =~= s.drop_last().update(i, e));
        lemma_total_update(s.drop_last(), i, e);
    }
}

/// Inserting an entry adds its drawn power to the total.
pub proof fn lemma_total_insert<R, B>(s: Seq<WeaponEntry<R, B>>, i: int, e: WeaponEntry<R, B>)
    requires
        0 <= i <= s.len(),
    ensures
        total_power(s.insert(i, e)) == total_power(s) + drawn(e),
    decreases s.len(),
{
    let t = s.insert(i, e);
    if i == s.len() {
        assert(t.drop_last() =~= s);
    } else {
        assert(t.drop_last() =~= s.drop_last().insert(i, e));
        lemma_total_insert(s.drop_last(), i, e);
    }
}

/// Removing an entry takes its drawn power from the total.
pub proof fn lemma_total_remove<R, B>(s: Seq<WeaponEntry<R, B>>, i: int)
    requires
        0 <= i < s.len(),
    ensures
        total_power(s.remove(i)) + drawn(s[i]) == total_power(s),
    decreases s.len(),
{
    let t = s.remove(i);
    if i == s.len() - 1 {
        assert(t =~= s.drop_last());
    } else {
        assert(t.drop_last() =~= s.drop_last().remove(i));
        lemma_total_remove(s.drop_last(), i);
    }
}

/// The total of a prefix grows entry by entry and never exceeds the whole total.
pub proof fn lemma_total_prefix<R, B>(s: Seq<WeaponEntry<R, B>>, i: int)
    requires
        0 <= i <= s.len(),
    ensures
        total_power(s.take(i)) <= total_power(s),
        i < s.len() ==> total_power(s.take(i + 1)) == total_power(s.take(i)) + drawn(s[i]),
    decreases s.len() - i,
{
    if i < s.len() {
        assert(s.take(i + 1).drop_last() =~= s.take(i));
        lemma_total_prefix(s, i + 1);
    } else {
        assert(s.take(i) =~= s);
    }
}

/// Without powered entries nothing is drawn.
pub proof fn lemma_total_unpowered<R, B>(s: Seq<WeaponEntry<R, B>>)
    requires
        forall|i: int| 0 <= i < s.len() ==> drawn(#[trigger] s[i]) == 0,
    ensures
        total_power(s) == 0,
    decreases s.len(),
{
    if s.len() > 0 {
        assert(forall|i: int| 0 <= i < s.len() - 1 ==> s.drop_last()[i] == s[i]);
        lemma_total_unpowered(s.drop_last());
        assert(drawn(s[s.len() - 1]) == 0);
    }
}

/// How [`Weapons::power_weapon`] changes the weapons `w0` into `w1` and the reactor's free power
/// `a0` into `a1`: the weapon at `index` is powered if [`Weapons::can_power`] allows it, and
/// nothing changes otherwise.
pub open spec fn weapon_powered<R: Copy, B: Copy>(
    w0: Weapons<R, B>,
    w1: Weapons<R, B>,
    index: usize,
    missiles: usize,
    a0: usize,
    a1: usize,
) -> bool {
    &&& w1.status == w0.status
    &&& w1.autofire == w0.autofire
    &&& if w0.can_power(index as int, missiles, a0) {
        &&& w1.entries@ == w0.entries@.update(index as int, w0.entries@[index as int].powered_up())
        &&& a1 == a0 - w0.entries@[index as int].spec_weapon().power()
    } else {
        w1.entries@ == w0.entries@ && a1 == a0
    }
}

/// How [`Weapons::depower_weapon`] changes the weapons `w0` into `w1` and the reactor's free
/// power `a0` into `a1`: a powered weapon at `index` is depowered and its power returns to the
/// reactor; otherwise nothing changes.
pub open spec fn weapon_depowered<R: Copy, B: Copy>(
    w0: Weapons<R, B>,
    w1: Weapons<R, B>,
    index: usize,
    a0: usize,
    a1: usize,
) -> bool {
    &&& w1.status == w0.status
    &&& w1.autofire == w0.autofire
    &&& if index < w0.entries@.len() && w0.entries@[index as int].spec_powered() {
        &&& w1.entries@ == w0.entries@.update(index as int, w0.entries@[index as int].powered_down())
        &&& a1 == a0 + w0.entries@[index as int].spec_weapon().power()
    } else {
        w1.entries@ == w0.entries@ && a1 == a0
    }
}

/// How [`Weapons::set_projectile_weapon_target`] changes the weapons `w0` into `w1`: a powered
/// projectile weapon at `weapon_index` takes `target`, unless it aims at its own ship
/// (`targeting_self`) and its kind cannot; everything else stays.
pub open spec fn room_target_set<R: Copy, B: Copy>(
    w0: Weapons<R, B>,
    w1: Weapons<R, B>,
    weapon_index: usize,
    target: Option<R>,
    targeting_self: bool,
) -> bool {
    &&& w1.status == w0.status
    &&& w1.autofire == w0.autofire
    &&& w1.entries@.len() == w0.entries@.len()
    &&& forall|i: int|
        0 <= i < w0.entries@.len() && i != weapon_index ==> w1.entries@[i] == w0.entries@[i]
    &&& weapon_index < w0.entries@.len() ==> {
        let e = w0.entries@[weapon_index as int];
        let f = w1.entries@[weapon_index as int];
        match e {
            WeaponEntry::Projectile(s) => if s.spec_powered() && !(targeting_self
                && !crate::weapon::projectile_table(s.weapon.0).can_target_self) {
                f == WeaponEntry::<R, B>::Projectile(
                    WeaponStatus {
                        weapon: s.weapon,
                        power_targeting: PowerTargetingStatus::Powered { target },
                        charge: s.charge,
                    },
                )
            } else {
                f == e
            },
            WeaponEntry::Beam(_) => f == e,
        }
    }
}

/// How [`Weapons::set_beam_weapon_target`] changes the weapons `w0` into `w1`: a powered beam
/// weapon at `weapon_index` takes `target`; everything else stays.
pub open spec fn beam_target_set<R: Copy, B: Copy>(
    w0: Weapons<R, B>,
    w1: Weapons<R, B>,
    weapon_index: usize,
    target: Option<B>,
) -> bool {
    &&& w1.status == w0.status
    &&& w1.autofire == w0.autofire
    &&& w1.entries@.len() == w0.entries@.len()
    &&& forall|i: int|
        0 <= i < w0.entries@.len() && i != weapon_index ==> w1.entries@[i] == w0.entries@[i]
    &&& weapon_index < w0.entries@.len() ==> {
        let e = w0.entries@[weapon_index as int];
        let f = w1.entries@[weapon_index as int];
        match e {
            WeaponEntry::Beam(s) => if s.spec_powered() {
                f == WeaponEntry::<R, B>::Beam(
                    WeaponStatus {
                        weapon: s.weapon,
                        power_targeting: PowerTargetingStatus::Powered { target },
                        charge: s.charge,
                    },
                )
            } else {
                f == e
            },
            WeaponEntry::Projectile(_) => f == e,
        }
    }
}

/// How [`Weapons::move_weapon`] changes the weapons `w0` into `w1`: with both indices in range,
/// the weapon at `index` moves to `target` and the others keep their order; otherwise nothing
/// changes.
pub open spec fn weapon_moved<R: Copy, B: Copy>(
    w0: Weapons<R, B>,
    w1: Weapons<R, B>,
    index: usize,
    target: usize,
) -> bool {
    &&& w1.status == w0.status
    &&& w1.autofire == w0.autofire
    &&& if index < w0.entries@.len() && target < w0.entries@.len() {
        w1.entries@ == w0.entries@.remove(index as int).insert(
            target as int,
            w0.entries@[index as int],
        )
    } else {
        w1.entries@ == w0.entries@
    }
}

/// The weapons system: installed weapons in hardpoint order.
#[derive(Debug)]
pub struct Weapons<R, B> {
    pub status: SystemStatus,
    pub entries: Vec<WeaponEntry<R, B>>,
    pub autofire: bool,
}

impl<R: Copy, B: Copy> Weapons<R, B> {
    /// The system's consistency: a valid status, well-formed entries, and no more power drawn
    /// than the upgrade level.
    pub open spec fn wf(&self) -> bool {
        &&& self.status.wf()
        &&& forall|i: int| 0 <= i < self.entries@.len() ==> (#[trigger] self.entries@[i]).wf()
        &&& total_power(self.entries@) <= self.status.upgrade_level
    }

    /// Undamaged weapons at upgrade level 1, with no weapon installed.
    pub fn default() -> (r: Self)
        ensures
            r.wf(),
            r.status.upgrade_level == 1,
            r.status.damage == 0,
            r.entries@.len() == 0,
            !r.autofire,
    {
        Weapons { status: SystemStatus::default(), entries: Vec::new(), autofire: false }
    }

    /// The installed weapons, in hardpoint order.
    pub fn weapons(&self) -> (r: &Vec<WeaponEntry<R, B>>)
        ensures
            r@ == self.entries@,
    {
        &self.entries
    }

    /// The power drawn by all powered weapons.
    pub fn current_power(&self) -> (r: usize)
        requires
            self.wf(),
        ensures
            r == total_power(self.entries@),
    {
        let mut sum: usize = 0;
        let mut i: usize = 0;
        while i < self.entries.len()
            invariant
                i <= self.entries@.len(),
                sum == total_power(self.entries@.take(i as int)),
                self.wf(),
            decreases self.entries.len() - i,
        {
            proof {
                lemma_total_prefix(self.entries@, i as int);
                lemma_total_prefix(self.entries@, i as int + 1);
                lemma_drawn(self.entries@[i as int]);
            }
            if self.entries[i].is_powered() {
                let power = self.entries[i].weapon().common().power;
                sum = sum + power;
            }
            i = i + 1;
        }
        proof {
            assert(self.entries@.take(self.entries@.len() as int) =~= self.entries@);
        }
        sum
    }
}

impl<R: Copy, B: Copy> Weapons<R, B> {
    /// Whether [`Weapons::power_weapon`] can power the weapon at `index`: it exists and is
    /// unpowered, its power fits within the system's power budget, a missile is in supply if the
    /// weapon uses missiles, and the reactor has the power available.
    pub open spec fn can_power(&self, index: int, missiles: usize, available: usize) -> bool {
        &&& 0 <= index < self.entries@.len()
        &&& !self.entries@[index].spec_powered()
        &&& total_power(self.entries@) + self.entries@[index].spec_weapon().power()
            <= self.status.spec_max_power()
        &&& !(self.entries@[index].spec_weapon().spec_uses_missile() && missiles == 0)
        &&& self.entries@[index].spec_weapon().power() <= available
    }

    /// Powers the weapon at `index` from the reactor, if [`Weapons::can_power`] allows it;
    /// otherwise changes nothing.
    pub fn power_weapon(&mut self, index: usize, missiles: usize, reactor: &mut Reactor)
        requires
            old(self).wf(),
        ensures
            weapon_powered(*old(self), *final(self), index, missiles, old(reactor).available, final(reactor).available),
            final(self).wf(),
            final(self).status == old(self).status,
            final(self).autofire == old(self).autofire,
            final(reactor).upgrade_level == old(reactor).upgrade_level,
            old(self).can_power(index as int, missiles, old(reactor).available) ==> {
                &&& final(self).entries@ == old(self).entries@.update(
                    index as int,
                    old(self).entries@[index as int].powered_up(),
                )
                &&& final(reactor).available == old(reactor).available - old(self).entries@[index as int].spec_weapon().power()
                &&& total_power(final(self).entries@) == total_power(old(self).entries@) + old(self).entries@[index as int].spec_weapon().power()
            },
            !old(self).can_power(index as int, missiles, old(reactor).available) ==> {
                &&& final(self).entries@ == old(self).entries@
                &&& final(reactor).available == old(reactor).available
            },
    {
        let used_power = self.current_power();
        if index >= self.entries.len() {
            return ;
        }
        if self.entries[index].is_powered() {
            return ;
        }
        let weapon = self.entries[index].weapon();
        let requested_power = weapon.common().power;
        let max = self.status.max_power();
        if used_power > max || requested_power > max - used_power {
            return ;
        }
        if weapon.uses_missile() && missiles == 0 {
            return ;
        }
        if reactor.available < requested_power {
            return ;
        }
        reactor.available = reactor.available - requested_power;
        let ghost s0 = self.entries@;
        self.entries[index].add_power();
        proof {
            lemma_total_update(s0, index as int, s0[index as int].powered_up());
            lemma_drawn(s0[index as int]);
            lemma_drawn(s0[index as int].powered_up());
            assert(self.entries@ == s0.update(index as int, s0[index as int].powered_up()));
            assert forall|i: int| 0 <= i < self.entries@.len() implies (
            #[trigger] self.entries@[i]).wf() by {
                if i != index {
                    assert(self.entries@[i] == s0[i]);
                }
            }
        }
    }

    /// Returns the power of the weapon at `index` to the reactor, if it exists and is powered;
    /// otherwise changes nothing. The weapon loses its target.
    pub fn depower_weapon(&mut self, index: usize, reactor: &mut Reactor)
        requires
            old(self).wf(),
            total_power(old(self).entries@) + old(reactor).available <= usize::MAX,
        ensures
            weapon_depowered(*old(self), *final(self), index, old(reactor).available, final(reactor).available),
            final(self).wf(),
            final(self).status == old(self).status,
            final(self).autofire == old(self).autofire,
            final(reactor).upgrade_level == old(reactor).upgrade_level,
            total_power(final(self).entries@) + final(reactor).available == total_power(
                old(self).entries@,
            ) + old(reactor).available,
            index < old(self).entries@.len() && old(self).entries@[index as int].spec_powered() ==> {
                &&& final(self).entries@ == old(self).entries@.update(
                    index as int,
                    old(self).entries@[index as int].powered_down(),
                )
                &&& final(reactor).available == old(reactor).available + old(self).entries@[index as int].spec_weapon().power()
            },
            !(index < old(self).entries@.len() && old(self).entries@[index as int].spec_powered())
                ==> {
                &&& final(self).entries@ == old(self).entries@
                &&& final(reactor).available == old(reactor).available
            },
    {
        if index >= self.entries.len() {
            return ;
        }
        if !self.entries[index].is_powered() {
            return ;
        }
        let ghost s0 = self.entries@;
        proof {
            lemma_total_update(s0, index as int, s0[index as int].powered_down());
            lemma_drawn(s0[index as int]);
            lemma_drawn(s0[index as int].powered_down());
        }
        let power = self.entries[index].weapon().common().power;
        reactor.available = reactor.available + power;
        self.entries[index].remove_power();
        proof {
            assert(self.entries@ == s0.update(index as int, s0[index as int].powered_down()));
            assert forall|i: int| 0 <= i < self.entries@.len() implies (
            #[trigger] self.entries@[i]).wf() by {
                if i != index {
                    assert(self.entries@[i] == s0[i]);
                }
            }
        }
    }

    /// Aims the projectile weapon at `weapon_index` (see [`WeaponEntry::set_room_target`]); does
    /// nothing if there is no such weapon.
    pub fn set_projectile_weapon_target(
        &mut self,
        weapon_index: usize,
        target: Option<R>,
        targeting_self: bool,
    )
        requires
            old(self).wf(),
        ensures
            room_target_set(*old(self), *final(self), weapon_index, target, targeting_self),
            final(self).wf(),
            final(self).status == old(self).status,
            final(self).autofire == old(self).autofire,
            total_power(final(self).entries@) == total_power(old(self).entries@),
            final(self).entries@.len() == old(self).entries@.len(),
            forall|i: int|
                0 <= i < old(self).entries@.len() && i != weapon_index ==> final(self).entries@[i]
                    == old(self).entries@[i],
            weapon_index < old(self).entries@.len() ==> {
                let e = old(self).entries@[weapon_index as int];
                let f = final(self).entries@[weapon_index as int];
                match e {
                    WeaponEntry::Projectile(s) => if s.spec_powered() && !(targeting_self
                        && !crate::weapon::projectile_table(s.weapon.0).can_target_self) {
                        f == WeaponEntry::<R, B>::Projectile(
                            WeaponStatus {
                                weapon: s.weapon,
                                power_targeting: PowerTargetingStatus::Powered { target },
                                charge: s.charge,
                            },
                        )
                    } else {
                        f == e
                    },
                    WeaponEntry::Beam(_) => f == e,
                }
            },
    {
        if weapon_index >= self.entries.len() {
            return ;
        }
        let ghost s0 = self.entries@;
        self.entries[weapon_index].set_room_target(target, targeting_self);
        proof {
            self.lemma_retarget(s0, weapon_index as int);
        }
    }

    /// Aims the beam weapon at `weapon_index` (see [`WeaponEntry::set_beam_target`]); does
    /// nothing if there is no such weapon.
    pub fn set_beam_weapon_target(&mut self, weapon_index: usize, target: Option<B>)
        requires
            old(self).wf(),
        ensures
            beam_target_set(*old(self), *final(self), weapon_index, target),
            final(self).wf(),
            final(self).status == old(self).status,
            final(self).autofire == old(self).autofire,
            total_power(final(self).entries@) == total_power(old(self).entries@),
            final(self).entries@.len() == old(self).entries@.len(),
            forall|i: int|
                0 <= i < old(self).entries@.len() && i != weapon_index ==> final(self).entries@[i]
                    == old(self).entries@[i],
            weapon_index < old(self).entries@.len() ==> {
                let e = old(self).entries@[weapon_index as int];
                let f = final(self).entries@[weapon_index as int];
                match e {
                    WeaponEntry::Beam(s) => if s.spec_powered() {
                        f == WeaponEntry::<R, B>::Beam(
                            WeaponStatus {
                                weapon: s.weapon,
                                power_targeting: PowerTargetingStatus::Powered { target },
                                charge: s.charge,
                            },
                        )
                    } else {
                        f == e
                    },
                    WeaponEntry::Projectile(_) => f == e,
                }
            },
    {
        if weapon_index >= self.entries.len() {
            return ;
        }
        let ghost s0 = self.entries@;
        self.entries[weapon_index].set_beam_target(target);
        proof {
            self.lemma_retarget(s0, weapon_index as int);
        }
    }

    /// Retargeting one entry (which keeps its kind, power and charge) keeps the system consistent.
    proof fn lemma_retarget(&self, s0: Seq<WeaponEntry<R, B>>, index: int)
        requires
            0 <= index < s0.len(),
            self.entries@.len() == s0.len(),
            forall|i: int| 0 <= i < s0.len() && i != index ==> self.entries@[i] == s0[i],
            self.entries@[index].spec_weapon() == s0[index].spec_weapon(),
            self.entries@[index].spec_powered() == s0[index].spec_powered(),
            self.entries@[index].spec_charge() == s0[index].spec_charge(),
            forall|i: int| 0 <= i < s0.len() ==> (#[trigger] s0[i]).wf(),
        ensures
            total_power(self.entries@) == total_power(s0),
            forall|i: int| 0 <= i < self.entries@.len() ==> (#[trigger] self.entries@[i]).wf(),
    {
        assert(self.entries@ =~= s0.update(index, self.entries@[index]));
        lemma_total_update(s0, index, self.entries@[index]);
        lemma_drawn(s0[index]);
        lemma_drawn(self.entries@[index]);
        assert forall|i: int| 0 <= i < self.entries@.len() implies (
        #[trigger] self.entries@[i]).wf() by {
            if i != index {
                assert(self.entries@[i] == s0[i]);
            }
        }
    }

    /// Installs `weapon`, unpowered, at hardpoint `index`, shifting later weapons back. Does
    /// nothing (the weapon is discarded) if `index` is past the last hardpoint plus one.
    pub fn install_weapon(&mut self, index: usize, weapon: Weapon)
        requires
            old(self).wf(),
            weapon.spec_id().valid(),
        ensures
            final(self).wf(),
            final(self).status == old(self).status,
            final(self).autofire == old(self).autofire,
            total_power(final(self).entries@) == total_power(old(self).entries@),
            index <= old(self).entries@.len() ==> final(self).entries@ == old(self).entries@.insert(
                index as int,
                WeaponEntry::<R, B>::installed(weapon),
            ),
            index > old(self).entries@.len() ==> final(self).entries@ == old(self).entries@,
    {
        if index > self.entries.len() {
            return ;
        }
        let ghost s0 = self.entries@;
        let entry = WeaponEntry::new(weapon);
        proof {
            lemma_total_insert(s0, index as int, entry);
            lemma_drawn(entry);
        }
        self.entries.insert(index, entry);
        proof {
            assert forall|i: int| 0 <= i < self.entries@.len() implies (
            #[trigger] self.entries@[i]).wf() by {
                if i < index {
                    assert(self.entries@[i] == s0[i]);
                } else if i > index {
                    assert(self.entries@[i] == s0[i - 1]);
                }
            }
        }
    }

    /// Uninstalls the weapon at `index`, first returning its power to the reactor, and hands it
    /// back; fails if there is no such weapon.
    pub fn _remove_weapon(&mut self, index: usize, reactor: &mut Reactor) -> (r: Result<Weapon, ()>)
        requires
            old(self).wf(),
            total_power(old(self).entries@) + old(reactor).available <= usize::MAX,
        ensures
            final(self).wf(),
            final(self).status == old(self).status,
            final(self).autofire == old(self).autofire,
            final(reactor).upgrade_level == old(reactor).upgrade_level,
            total_power(final(self).entries@) + final(reactor).available == total_power(
                old(self).entries@,
            ) + old(reactor).available,
            index >= old(self).entries@.len() ==> r is Err && final(self).entries@ == old(self).entries@ && final(reactor).available == old(reactor).available,
            index < old(self).entries@.len() ==> {
                &&& r is Ok
                &&& r->Ok_0.spec_id() == old(self).entries@[index as int].spec_weapon()
                &&& final(self).entries@ == old(self).entries@.remove(index as int)
                &&& final(reactor).available == old(reactor).available + old(self).entries@[index as int].drawn_power()
            },
    {
        if index >= self.entries.len() {
            return Err(());
        }
        let ghost s0 = self.entries@;
        if self.entries[index].is_powered() {
            self.depower_weapon(index, reactor);
        }
        let ghost s1 = self.entries@;
        proof {
            lemma_total_remove(s1, index as int);
            lemma_drawn(s1[index as int]);
            lemma_drawn(s0[index as int]);
        }
        let entry = self.entries.remove(index);
        proof {
            assert(s1.remove(index as int) =~= s0.remove(index as int));
            assert forall|i: int| 0 <= i < self.entries@.len() implies (
            #[trigger] self.entries@[i]).wf() by {
                if i < index {
                    assert(self.entries@[i] == s1[i]);
                } else {
                    assert(self.entries@[i] == s1[i + 1]);
                }
            }
        }
        Ok(entry.take())
    }

    /// Moves the weapon at `index` to hardpoint `target`, shifting the weapons between them.
    /// Does nothing if either slot is out of bounds.
    pub fn move_weapon(&mut self, index: usize, target: usize)
        requires
            old(self).wf(),
        ensures
            weapon_moved(*old(self), *final(self), index, target),
            final(self).wf(),
            final(self).status == old(self).status,
            final(self).autofire == old(self).autofire,
            total_power(final(self).entries@) == total_power(old(self).entries@),
            index < old(self).entries@.len() && target < old(self).entries@.len() ==> final(self).entries@ == old(self).entries@.remove(index as int).insert(
                target as int,
                old(self).entries@[index as int],
            ),
            !(index < old(self).entries@.len() && target < old(self).entries@.len()) ==> final(self).entries@ == old(self).entries@,
    {
        if index >= self.entries.len() {
            return ;
        }
        if target > self.entries.len() - 1 {
            return ;
        }
        let ghost s0 = self.entries@;
        let element = self.entries.remove(index);
        proof {
            lemma_total_remove(s0, index as int);
            lemma_total_insert(s0.remove(index as int), target as int, element);
        }
        self.entries.insert(target, element);
        proof {
            let s1 = s0.remove(index as int);
            assert forall|i: int| 0 <= i < self.entries@.len() implies (
            #[trigger] self.entries@[i]).wf() by {
                if i < target {
                    assert(self.entries@[i] == s1[i]);
                } else if i > target {
                    assert(self.entries@[i] == s1[i - 1]);
                }
                assert(forall|j: int| 0 <= j < s1.len() ==> s1[j] == s0[if j < index { j } else { j + 1 }]);
                if i < target && i >= index {
                    assert(s1[i] == s0[i + 1]);
                }
            }
        }
    }
}

/// The volleys that the next charging step of the weapons of `s` fires, in hardpoint order.
pub open spec fn fired_volleys<R: Copy, B: Copy>(s: Seq<WeaponEntry<R, B>>) -> Seq<Volley<R, B>>
    decreases s.len(),
{
    if s.len() == 0 {
        seq![]
    } else {
        fired_volleys(s.drop_last()) + match s.last().fired() {
            Some(v) => seq![v],
            None => seq![],
        }
    }
}

impl<R: Copy, B: Copy> Weapons<R, B> {
    /// Advances every weapon's charge by one fixed update and returns the volleys fired, in
    /// hardpoint order (see [`WeaponEntry::charge_and_fire`]). Missiles are used up for the
    /// volleys that need them.
    pub fn charge_and_fire_weapons(&mut self, missiles: &mut usize) -> (r: Vec<Volley<R, B>>)
        requires
            old(self).wf(),
            missile_volleys(old(self).entries@) <= *old(missiles),
        ensures
            final(self).wf(),
            final(self).status == old(self).status,
            final(self).autofire == old(self).autofire,
            total_power(final(self).entries@) == total_power(old(self).entries@),
            final(self).entries@ == old(self).entries@.map_values(
                |e: WeaponEntry<R, B>| e.after_charge(old(self).autofire),
            ),
            r@ == fired_volleys(old(self).entries@),
            *final(missiles) == *old(missiles) - missile_volleys(old(self).entries@),
    {
        let ghost s0 = self.entries@;
        let ghost m0 = *missiles;
        let autofire = self.autofire;
        let mut volleys: Vec<Volley<R, B>> = Vec::new();
        let mut i: usize = 0;
        proof {
            lemma_missile_prefix(s0, 0);
        }
        while i < self.entries.len()
            invariant
                self.status == old(self).status,
                self.autofire == autofire,
                autofire == old(self).autofire,
                s0 == old(self).entries@,
                m0 == *old(missiles),
                old(self).wf(),
                missile_volleys(s0) <= m0,
                self.entries@.len() == s0.len(),
                i <= s0.len(),
                forall|j: int| 0 <= j < i ==> self.entries@[j] == (#[trigger] s0[j]).after_charge(autofire),
                forall|j: int| i <= j < s0.len() ==> self.entries@[j] == s0[j],
                forall|j: int| 0 <= j < s0.len() ==> (#[trigger] self.entries@[j]).wf(),
                total_power(self.entries@) == total_power(s0),
                volleys@ == fired_volleys(s0.take(i as int)),
                *missiles == m0 - missile_volleys(s0.take(i as int)),
                missile_volleys(s0.take(i as int)) <= missile_volleys(s0),
            decreases self.entries.len() - i,
        {
            proof {
                lemma_missile_prefix(s0, i as int);
                lemma_missile_prefix(s0, i as int + 1);
                lemma_drawn(s0[i as int]);
                assert(s0.take(i as int + 1).drop_last() =~= s0.take(i as int));
            }
            let ghost e0 = self.entries@;
            let fired = self.entries[i].charge_and_fire(missiles, autofire);
            proof {
                lemma_total_update(e0, i as int, self.entries@[i as int]);
                lemma_drawn(self.entries@[i as int]);
                assert(self.entries@ =~= e0.update(i as int, self.entries@[i as int]));
            }
            match fired {
                Some(v) => {
                    volleys.push(v);
                },
                None => {},
            }
            i = i + 1;
        }
        proof {
            assert(s0.take(s0.len() as int) =~= s0);
            assert(self.entries@ =~= s0.map_values(
                |e: WeaponEntry<R, B>| e.after_charge(autofire),
            ));
        }
        volleys
    }
}

impl<R: Copy, B: Copy> Weapons<R, B> {
    /// The number of missiles the next charging step of all weapons uses up.
    pub fn missiles_needed(&self) -> (r: usize)
        requires
            self.wf(),
        ensures
            r == missile_volleys(self.entries@),
    {
        let mut n: usize = 0;
        let mut i: usize = 0;
        while i < self.entries.len()
            invariant
                self.wf(),
                i <= self.entries@.len(),
                n == missile_volleys(self.entries@.take(i as int)),
                n <= i,
            decreases self.entries.len() - i,
        {
            proof {
                lemma_missile_prefix(self.entries@, i as int);
                lemma_drawn(self.entries@[i as int]);
            }
            if self.entries[i].fires_missile_next() {
                n = n + 1;
            }
            i = i + 1;
        }
        proof {
            assert(self.entries@.take(self.entries@.len() as int) =~= self.entries@);
        }
        n
    }

    /// Advances every weapon's charge by one fixed update and returns, for each weapon in
    /// hardpoint order, the volley it fired, if any (see [`WeaponEntry::charge_and_fire`]).
    /// Missiles are used up for the volleys that need them.
    pub fn charge_and_fire_each(&mut self, missiles: &mut usize) -> (r: Vec<Option<Volley<R, B>>>)
        requires
            old(self).wf(),
            missile_volleys(old(self).entries@) <= *old(missiles),
        ensures
            final(self).wf(),
            final(self).status == old(self).status,
            final(self).autofire == old(self).autofire,
            total_power(final(self).entries@) == total_power(old(self).entries@),
            final(self).entries@ == old(self).entries@.map_values(
                |e: WeaponEntry<R, B>| e.after_charge(old(self).autofire),
            ),
            r@ == old(self).entries@.map_values(|e: WeaponEntry<R, B>| e.fired()),
            *final(missiles) == *old(missiles) - missile_volleys(old(self).entries@),
    {
        let ghost s0 = self.entries@;
        let ghost m0 = *missiles;
        let autofire = self.autofire;
        let mut volleys: Vec<Option<Volley<R, B>>> = Vec::new();
        let mut i: usize = 0;
        proof {
            lemma_missile_prefix(s0, 0);
        }
        while i < self.entries.len()
            invariant
                self.status == old(self).status,
                self.autofire == autofire,
                autofire == old(self).autofire,
                s0 == old(self).entries@,
                m0 == *old(missiles),
                old(self).wf(),
                missile_volleys(s0) <= m0,
                self.entries@.len() == s0.len(),
                i <= s0.len(),
                forall|j: int| 0 <= j < i ==> self.entries@[j] == (#[trigger] s0[j]).after_charge(autofire),
                forall|j: int| i <= j < s0.len() ==> self.entries@[j] == s0[j],
                forall|j: int| 0 <= j < s0.len() ==> (#[trigger] self.entries@[j]).wf(),
                total_power(self.entries@) == total_power(s0),
                volleys@ == s0.take(i as int).map_values(|e: WeaponEntry<R, B>| e.fired()),
                *missiles == m0 - missile_volleys(s0.take(i as int)),
                missile_volleys(s0.take(i as int)) <= missile_volleys(s0),
            decreases self.entries.len() - i,
        {
            proof {
                lemma_missile_prefix(s0, i as int);
                lemma_missile_prefix(s0, i as int + 1);
                lemma_drawn(s0[i as int]);
            }
            let ghost e0 = self.entries@;
            let fired = self.entries[i].charge_and_fire(missiles, autofire);
            proof {
                lemma_total_update(e0, i as int, self.entries@[i as int]);
                lemma_drawn(self.entries@[i as int]);
                assert(self.entries@ =~= e0.update(i as int, self.entries@[i as int]));
            }
            volleys.push(fired);
            i = i + 1;
            proof {
                assert(volleys@ =~= s0.take(i as int).map_values(|e: WeaponEntry<R, B>| e.fired()));
            }
        }
        proof {
            assert(s0.take(s0.len() as int) =~= s0);
            assert(self.entries@ =~= s0.map_values(
                |e: WeaponEntry<R, B>| e.after_charge(autofire),
            ));
        }
        volleys
    }
}

/// Counting missile volleys entry by entry: a prefix counts at most as many as the whole.
pub proof fn lemma_missile_prefix<R, B>(s: Seq<WeaponEntry<R, B>>, i: int)
    requires
        0 <= i <= s.len(),
    ensures
        missile_volleys(s.take(i)) <= missile_volleys(s),
        i < s.len() ==> missile_volleys(s.take(i + 1)) == missile_volleys(s.take(i)) + if fires_missile(
            s[i],
        ) {
            1nat
        } else {
            0nat
        },
    decreases s.len() - i,
{
    if i < s.len() {
        assert(s.take(i + 1).drop_last() =~= s.take(i));
        lemma_missile_prefix(s, i + 1);
    } else {
        assert(s.take(i) =~= s);
    }
}

/// The index of the first unpowered weapon of `s`, if any.
pub open spec fn first_unpowered<R: Copy, B: Copy>(s: Seq<WeaponEntry<R, B>>) -> Option<int> {
    if exists|i: int| 0 <= i < s.len() && !(#[trigger] s[i]).spec_powered() {
        Some(
            choose|i: int|
                0 <= i < s.len() && !s[i].spec_powered() && forall|j: int|
                    0 <= j < i ==> (#[trigger] s[j]).spec_powered(),
        )
    } else {
        None
    }
}

/// The index of the last powered weapon of `s`, if any.
pub open spec fn last_powered<R: Copy, B: Copy>(s: Seq<WeaponEntry<R, B>>) -> Option<int> {
    if exists|i: int| 0 <= i < s.len() && (#[trigger] s[i]).spec_powered() {
        Some(
            choose|i: int|
                0 <= i < s.len() && s[i].spec_powered() && forall|j: int|
                    i < j < s.len() ==> !(#[trigger] s[j]).spec_powered(),
        )
    } else {
        None
    }
}

/// How a power request changes the weapons `w0` into `w1` and the reactor's free power `a0` into
/// `a1`: the first unpowered weapon is powered as [`Weapons::power_weapon`] does (given the
/// ship's `missiles`); with every weapon powered nothing changes.
pub open spec fn weapons_power_added<R: Copy, B: Copy>(
    w0: Weapons<R, B>,
    w1: Weapons<R, B>,
    missiles: usize,
    a0: usize,
    a1: usize,
) -> bool {
    &&& w1.status == w0.status
    &&& w1.autofire == w0.autofire
    &&& match first_unpowered(w0.entries@) {
        Some(i) => if w0.can_power(i, missiles, a0) {
            &&& w1.entries@ == w0.entries@.update(i, w0.entries@[i].powered_up())
            &&& a1 == a0 - w0.entries@[i].spec_weapon().power()
        } else {
            w1.entries@ == w0.entries@ && a1 == a0
        },
        None => w1.entries@ == w0.entries@ && a1 == a0,
    }
}

/// How a power release changes the weapons `w0` into `w1` and the reactor's free power `a0` into
/// `a1`: the last powered weapon is depowered and its power returns to the reactor; with no
/// weapon powered nothing changes.
pub open spec fn weapons_power_removed<R: Copy, B: Copy>(
    w0: Weapons<R, B>,
    w1: Weapons<R, B>,
    a0: usize,
    a1: usize,
) -> bool {
    &&& w1.status == w0.status
    &&& w1.autofire == w0.autofire
    &&& match last_powered(w0.entries@) {
        Some(i) => {
            &&& w1.entries@ == w0.entries@.update(i, w0.entries@[i].powered_down())
            &&& a1 == a0 + w0.entries@[i].spec_weapon().power()
        },
        None => w1.entries@ == w0.entries@ && a1 == a0,
    }
}

/// [`first_unpowered`] picks the unpowered weapon that follows only powered ones.
proof fn lemma_first_unpowered<R: Copy, B: Copy>(s: Seq<WeaponEntry<R, B>>, i: int)
    requires
        0 <= i <= s.len(),
        forall|j: int| 0 <= j < i ==> (#[trigger] s[j]).spec_powered(),
        i < s.len() ==> !s[i].spec_powered(),
    ensures
        first_unpowered(s) == (if i < s.len() {
            Some(i)
        } else {
            None::<int>
        }),
{
    if i < s.len() {
        let k = choose|k: int|
            0 <= k < s.len() && !s[k].spec_powered() && forall|j: int|
                0 <= j < k ==> (#[trigger] s[j]).spec_powered();
        assert(!s[i].spec_powered());
        if k < i {
            assert(s[k].spec_powered());
        }
        if k > i {
            assert(s[i].spec_powered());
        }
    }
}

/// [`last_powered`] picks the powered weapon that only unpowered ones follow.
proof fn lemma_last_powered<R: Copy, B: Copy>(s: Seq<WeaponEntry<R, B>>, i: int)
    requires
        0 <= i <= s.len(),
        forall|j: int| i <= j < s.len() ==> !(#[trigger] s[j]).spec_powered(),
        i > 0 ==> s[i - 1].spec_powered(),
    ensures
        last_powered(s) == (if i > 0 {
            Some(i - 1)
        } else {
            None::<int>
        }),
{
    if i > 0 {
        let k = choose|k: int|
            0 <= k < s.len() && s[k].spec_powered() && forall|j: int|
                k < j < s.len() ==> !(#[trigger] s[j]).spec_powered();
        assert(s[i - 1].spec_powered());
        if k < i - 1 {
            assert(!s[i - 1].spec_powered());
        }
        if k > i - 1 {
            assert(!s[k].spec_powered());
        }
    }
}

impl<R: Copy, B: Copy> ShipSystem for Weapons<R, B> {
    open spec fn spec_status(&self) -> SystemStatus {
        self.status
    }

    open spec fn spec_power(&self) -> nat {
        total_power(self.entries@)
    }

    open spec fn inv(&self) -> bool {
        self.wf()
    }

    proof fn lemma_inv(&self) {
    }

    fn system_status(&self) -> (r: SystemStatus) {
        self.status
    }

    fn set_system_status(&mut self, status: SystemStatus) {
        self.status = status;
    }

    fn current_power(&self) -> (r: usize) {
        Weapons::current_power(self)
    }

    /// Powers the first unpowered weapon (see [`Weapons::power_weapon`]), if there is one.
    fn add_power(&mut self, reactor: &mut Reactor, context: PowerContext)
        ensures
            weapons_power_added(
                *old(self),
                *final(self),
                context.missiles,
                old(reactor).available,
                final(reactor).available,
            ),
    {
        let mut i: usize = 0;
        while i < self.entries.len()
            invariant
                i <= self.entries@.len(),
                forall|j: int| 0 <= j < i ==> (#[trigger] self.entries@[j]).spec_powered(),
            ensures
                i <= self.entries@.len(),
                forall|j: int| 0 <= j < i ==> (#[trigger] self.entries@[j]).spec_powered(),
                i < self.entries@.len() ==> !self.entries@[i as int].spec_powered(),
            decreases self.entries.len() - i,
        {
            if !self.entries[i].is_powered() {
                break ;
            }
            i = i + 1;
        }
        proof {
            lemma_first_unpowered(self.entries@, i as int);
        }
        if i == self.entries.len() {
            return ;
        }
        self.power_weapon(i, context.missiles, reactor);
    }

    /// Depowers the last powered weapon (see [`Weapons::depower_weapon`]), if there is one.
    fn remove_power(&mut self, reactor: &mut Reactor)
        ensures
            weapons_power_removed(*old(self), *final(self), old(reactor).available, final(reactor).available),
    {
        let mut i: usize = self.entries.len();
        while i > 0
            invariant
                i <= self.entries@.len(),
                forall|j: int| i <= j < self.entries@.len() ==> !(#[trigger] self.entries@[j]).spec_powered(),
            ensures
                i <= self.entries@.len(),
                forall|j: int| i <= j < self.entries@.len() ==> !(#[trigger] self.entries@[j]).spec_powered(),
                i > 0 ==> self.entries@[i - 1].spec_powered(),
            decreases i,
        {
            if self.entries[i - 1].is_powered() {
                break ;
            }
            i = i - 1;
        }
        proof {
            lemma_last_powered(self.entries@, i as int);
        }
        if i == 0 {
            proof {
                assert forall|j: int| 0 <= j < self.entries@.len() implies drawn(
                    #[trigger] self.entries@[j],
                ) == 0 by {
                    lemma_drawn(self.entries@[j]);
                }
                lemma_total_unpowered(self.entries@);
            }
            return ;
        }
        proof {
            lemma_drawn(self.entries@[i - 1]);
            lemma_power_positive(self.entries@[i - 1].spec_weapon());
        }
        self.depower_weapon(i - 1, reactor);
    }

    /// Takes the damage, then depowers the last powered weapon, one at a time, until within the
    /// reduced budget: the weapons that stay powered are the longest run of powered weapons from
    /// the first hardpoint whose power fits the budget (see [`power_cut`]).
    fn damage_system(&mut self, amount: usize, reactor: &mut Reactor)
        ensures
            exists|k: int|
                power_cut(old(self).entries@, final(self).status.spec_max_power(), k)
                    && final(self).entries@ == depowered_from(old(self).entries@, k),
            final(self).autofire == old(self).autofire,
    {
        let ghost s0 = self.entries@;
        let ghost sum = total_power(self.entries@) + reactor.available;
        self.status = damaged_status(self.status, amount);
        let new_max = self.status.upgrade_level - self.status.damage;
        let ghost mut j: int = s0.len() as int;
        proof {
            assert(depowered_from(s0, j) =~= s0);
        }
        while self.current_power() > new_max
            invariant
                self.inv(),
                self.status == damaged(old(self).status, amount),
                self.autofire == old(self).autofire,
                new_max == self.status.spec_max_power(),
                total_power(self.entries@) + reactor.available == sum,
                sum == total_power(old(self).entries@) + old(reactor).available,
                sum <= usize::MAX,
                reactor.upgrade_level == old(reactor).upgrade_level,
                s0 == old(self).entries@,
                forall|i: int| 0 <= i < s0.len() ==> (#[trigger] s0[i]).wf(),
                0 <= j <= s0.len(),
                self.entries@ == depowered_from(s0, j),
                j < s0.len() ==> total_power(s0.take(j + 1)) > new_max,
                total_power(s0) <= new_max ==> j == s0.len(),
            decreases total_power(self.entries@),
        {
            let ghost before = self.entries@;
            proof {
                lemma_total_depowered(s0, j);
                lemma_total_prefix(s0, j);
                assert(s0.take(s0.len() as int) =~= s0);
            }
            self.remove_power(reactor);
            proof {
                let i = last_powered(before).unwrap();
                lemma_depower_last(s0, j, i);
                j = i;
            }
        }
        proof {
            lemma_total_depowered(s0, j);
        }
    }
}

/// `s` with every entry from index `k` on switched off.
pub open spec fn depowered_from<R: Copy, B: Copy>(s: Seq<WeaponEntry<R, B>>, k: int) -> Seq<WeaponEntry<R, B>> {
    Seq::new(s.len(), |i: int| if i >= k { s[i].powered_down() } else { s[i] })
}

/// Whether the first `k` entries of `s` are the longest run from the first hardpoint whose
/// power fits within `max`.
pub open spec fn power_cut<R: Copy, B: Copy>(s: Seq<WeaponEntry<R, B>>, max: nat, k: int) -> bool {
    &&& 0 <= k <= s.len()
    &&& total_power(s.take(k)) <= max
    &&& k < s.len() ==> total_power(s.take(k + 1)) > max
}

/// Switching off the entries from `k` on leaves the power of the first `k`.
proof fn lemma_total_depowered<R: Copy, B: Copy>(s: Seq<WeaponEntry<R, B>>, k: int)
    requires
        0 <= k <= s.len(),
    ensures
        total_power(depowered_from(s, k)) == total_power(s.take(k)),
    decreases s.len(),
{
    if k == s.len() {
        assert(depowered_from(s, k) =~= s);
        assert(s.take(k) =~= s);
    } else {
        let t = depowered_from(s, k);
        assert(t.drop_last() =~= depowered_from(s.drop_last(), k));
        lemma_total_depowered(s.drop_last(), k);
        assert(s.drop_last().take(k) =~= s.take(k));
        lemma_drawn(t.last());
    }
}

/// Depowering the last powered entry of `depowered_from(s, j)`, at `i`, gives
/// `depowered_from(s, i)`, and the entries from `i + 1` to `j` draw nothing.
proof fn lemma_depower_last<R: Copy, B: Copy>(s: Seq<WeaponEntry<R, B>>, j: int, i: int)
    requires
        0 <= j <= s.len(),
        last_powered(depowered_from(s, j)) == Some(i),
    ensures
        0 <= i < j,
        depowered_from(s, j).update(i, depowered_from(s, j)[i].powered_down()) == depowered_from(s, i),
        total_power(s.take(i + 1)) == total_power(s.take(j)),
{
    let t = depowered_from(s, j);
    lemma_last_powered_props(t);
    assert(i < j) by {
        if i >= j {
            assert(!t[i].spec_powered());
        }
    }
    assert forall|q: int| i < q < j implies !(#[trigger] s[q]).spec_powered() by {
        assert(t[q] == s[q]);
    }
    assert forall|q: int| 0 <= q < s.len() implies #[trigger] t.update(i, t[i].powered_down())[q] == depowered_from(s, i)[q] by {
        if i < q < j {
            assert(!s[q].spec_powered());
        }
    }
    assert(t.update(i, t[i].powered_down()) =~= depowered_from(s, i));
    lemma_total_unpowered_run(s, i + 1, j);
}

/// The entries between `a` and `b` draw nothing, so the totals of the prefixes agree.
proof fn lemma_total_unpowered_run<R: Copy, B: Copy>(s: Seq<WeaponEntry<R, B>>, a: int, b: int)
    requires
        0 <= a <= b <= s.len(),
        forall|q: int| a <= q < b ==> !(#[trigger] s[q]).spec_powered(),
    ensures
        total_power(s.take(a)) == total_power(s.take(b)),
    decreases b - a,
{
    if a < b {
        lemma_total_unpowered_run(s, a, b - 1);
        lemma_total_prefix(s, b - 1);
        lemma_drawn(s[b - 1]);
    }
}

/// What [`last_powered`] picks.
proof fn lemma_last_powered_props<R: Copy, B: Copy>(s: Seq<WeaponEntry<R, B>>)
    ensures
        last_powered(s) matches Some(i) ==> 0 <= i < s.len() && s[i].spec_powered() && forall|q: int|
            i < q < s.len() ==> !(#[trigger] s[q]).spec_powered(),
{
    lemma_last_powered_below(s, s.len() as int);
}

/// [`lemma_last_powered_props`], looking for the last powered entry below `k`.
proof fn lemma_last_powered_below<R: Copy, B: Copy>(s: Seq<WeaponEntry<R, B>>, k: int)
    requires
        0 <= k <= s.len(),
        forall|q: int| k <= q < s.len() ==> !(#[trigger] s[q]).spec_powered(),
    ensures
        last_powered(s) matches Some(i) ==> 0 <= i < s.len() && s[i].spec_powered() && forall|q: int|
            i < q < s.len() ==> !(#[trigger] s[q]).spec_powered(),
    decreases k,
{
    if k == 0 {
        lemma_last_powered(s, 0);
    } else if s[k - 1].spec_powered() {
        lemma_last_powered(s, k);
    } else {
        lemma_last_powered_below(s, k - 1);
    }
}

/// Every weapon kind draws at least one unit of power.
pub proof fn lemma_power_positive(id: WeaponId)
    requires
        id.valid(),
    ensures
        id.power() >= 1,
{
}

/// [`drawn`] is the power [`WeaponEntry::drawn_power`] names.
pub proof fn lemma_drawn<R: Copy, B: Copy>(e: WeaponEntry<R, B>)
    ensures
        drawn(e) == e.drawn_power(),
        fires_missile(e) == e.fires_missile(),
{
}


/// A shot about to leave a weapon: the volley it belongs to, the hardpoint that fired it, and
/// how many milliseconds after the volley it leaves.
#[derive(Clone, Copy, Debug)]
pub struct PendingShot<R, B> {
    pub delay_ms: u64,
    pub weapon_index: usize,
    pub volley: Volley<R, B>,
}

/// Whether the weapon kinds of `volley`, if any, name entries of the statistics tables.
pub open spec fn volley_valid<R, B>(volley: Option<Volley<R, B>>) -> bool {
    match volley {
        Some(Volley::Projectile(v)) => v.weapon.valid(),
        Some(Volley::Beam(v)) => v.weapon.valid(),
        None => true,
    }
}

/// The shots of the volley fired by hardpoint `w`: the projectiles of a projectile volley
/// 300 ms apart, starting at once; a beam 150 ms after the volley.
pub open spec fn shots_of<R, B>(w: usize, volley: Option<Volley<R, B>>) -> Seq<PendingShot<R, B>> {
    match volley {
        Some(Volley::Projectile(v)) => Seq::new(
            projectile_table(v.weapon.index()).volley_size as nat,
            |i: int| PendingShot { delay_ms: (300 * i) as u64, weapon_index: w, volley: Volley::Projectile(v) },
        ),
        Some(Volley::Beam(v)) => seq![PendingShot { delay_ms: 150, weapon_index: w, volley: Volley::Beam(v) }],
        None => Seq::empty(),
    }
}

/// The shots of the first `n` volleys of `volleys`, hardpoint by hardpoint.
pub open spec fn shots_of_all<R, B>(volleys: Seq<Option<Volley<R, B>>>, n: nat) -> Seq<PendingShot<R, B>>
    decreases n,
{
    if n == 0 {
        Seq::empty()
    } else {
        shots_of_all(volleys, (n - 1) as nat) + shots_of((n - 1) as usize, volleys[n - 1])
    }
}

/// The shots to launch for the volleys fired in one update, given for each hardpoint the volley
/// it fired, if any (see [`ShipState::update_weapons`](crate::ship_state::ShipState::update_weapons)).
pub fn pending_shots<R: Copy, B: Copy>(volleys: &Vec<Option<Volley<R, B>>>) -> (r: Vec<PendingShot<R, B>>)
    requires
        forall|i: int| 0 <= i < volleys@.len() ==> volley_valid(#[trigger] volleys@[i]),
    ensures
        r@ == shots_of_all(volleys@, volleys@.len()),
{
    let mut r: Vec<PendingShot<R, B>> = Vec::new();
    let mut i: usize = 0;
    while i < volleys.len()
        invariant
            i <= volleys@.len(),
            forall|j: int| 0 <= j < volleys@.len() ==> volley_valid(#[trigger] volleys@[j]),
            r@ == shots_of_all(volleys@, i as nat),
        decreases volleys.len() - i,
    {
        let ghost r0 = r@;
        let volley = volleys[i];
        proof {
            assert(volley_valid(volleys@[i as int]));
        }
        match volley {
            Some(Volley::Projectile(v)) => {
                let size = v.weapon.stats().volley_size;
                proof {
                    assert(size <= 2);
                }
                let mut k: usize = 0;
                while k < size
                    invariant
                        k <= size,
                        size <= 2,
                        volley == volleys@[i as int],
                        volley == Some(Volley::<R, B>::Projectile(v)),
                        size == projectile_table(v.weapon.index()).volley_size,
                        r@ == r0 + shots_of(i, volley).take(k as int),
                    decreases size - k,
                {
                    r.push(PendingShot { delay_ms: 300 * (k as u64), weapon_index: i, volley: Volley::Projectile(v) });
                    proof {
                        assert(shots_of(i, volley).take(k + 1) =~= shots_of(i, volley).take(k as int).push(
                            shots_of(i, volley)[k as int],
                        ));
                    }
                    k = k + 1;
                }
                proof {
                    assert(shots_of(i, volley).take(size as int) =~= shots_of(i, volley));
                }
            },
            Some(Volley::Beam(v)) => {
                r.push(PendingShot { delay_ms: 150, weapon_index: i, volley: Volley::Beam(v) });
                proof {
                    assert(r@ =~= r0 + shots_of(i, volley));
                }
            },
            None => {
                proof {
                    assert(r@ =~= r0 + shots_of(i, volley));
                }
            },
        }
        i = i + 1;
    }
    r
}


/// Powering a weapon and then depowering it restores both the weapons and the reactor's free
/// power, whenever the weapon could be powered.
pub proof fn lemma_weapon_power_round_trip<R: Copy, B: Copy>(
    w0: Weapons<R, B>,
    w1: Weapons<R, B>,
    w2: Weapons<R, B>,
    index: usize,
    missiles: usize,
    a0: usize,
    a1: usize,
    a2: usize,
)
    requires
        w0.can_power(index as int, missiles, a0),
        weapon_powered(w0, w1, index, missiles, a0, a1),
        weapon_depowered(w1, w2, index, a1, a2),
    ensures
        w2.entries@ == w0.entries@,
        w2.status == w0.status,
        w2.autofire == w0.autofire,
        a2 == a0,
{
    let e = w0.entries@[index as int];
    assert(w1.entries@[index as int] == e.powered_up());
    assert(e.powered_up().powered_down() == e);
    assert(w2.entries@ =~= w0.entries@);
}

/// Moving a weapon from one hardpoint to another and back restores the hardpoints.
pub proof fn lemma_move_weapon_back<R: Copy, B: Copy>(
    w0: Weapons<R, B>,
    w1: Weapons<R, B>,
    w2: Weapons<R, B>,
    index: usize,
    target: usize,
)
    requires
        weapon_moved(w0, w1, index, target),
        weapon_moved(w1, w2, target, index),
    ensures
        w2.entries@ == w0.entries@,
        w2.status == w0.status,
        w2.autofire == w0.autofire,
{
    if index < w0.entries@.len() && target < w0.entries@.len() {
        let e = w0.entries@[index as int];
        assert(w1.entries@[target as int] == e);
        assert(w2.entries@ =~= w0.entries@);
    }
}

/// Moving a weapon keeps the power the weapons draw, and the multiset of installed weapons.
pub proof fn lemma_move_weapon_keeps_power<R: Copy, B: Copy>(
    w0: Weapons<R, B>,
    w1: Weapons<R, B>,
    index: usize,
    target: usize,
)
    requires
        weapon_moved(w0, w1, index, target),
    ensures
        total_power(w1.entries@) == total_power(w0.entries@),
        w1.entries@.to_multiset() == w0.entries@.to_multiset(),
{
    if index < w0.entries@.len() && target < w0.entries@.len() {
        let e = w0.entries@[index as int];
        let rest = w0.entries@.remove(index as int);
        lemma_total_remove(w0.entries@, index as int);
        lemma_total_insert(rest, target as int, e);
        vstd::seq_lib::to_multiset_remove(w0.entries@, index as int);
        vstd::seq_lib::to_multiset_insert(rest, target as int, e);
        assert(w0.entries@.to_multiset().contains(e)) by {
            broadcast use vstd::seq_lib::to_multiset_contains;
            assert(w0.entries@.contains(e));
        }
        assert(w1.entries@.to_multiset() =~= w0.entries@.to_multiset()) by {
            broadcast use vstd::multiset::group_multiset_axioms;
        }
    }
}

} // verus!
