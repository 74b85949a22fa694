//! Weapons: their identities and statistics.
//!
//! Times are counted in fixed update ticks of 1/64 s, and speeds in hundredths of the screen
//! traversal per second, so that every statistic is an exact integer.

use vstd::prelude::*;

verus! {

/// The number of projectile weapon kinds.
pub const PROJECTILE_WEAPON_COUNT: usize = 3;

/// The number of beam weapon kinds.
pub const BEAM_WEAPON_COUNT: usize = 2;

/// Statistics that all weapons have.
#[derive(Clone, Copy, Debug)]
pub struct CommonStats {
    pub name: &'static str,
    pub damage: usize,
    /// Reactor power the weapon draws while powered.
    pub power: usize,
    /// Ticks (1/64 s) of powered charging until the weapon can fire.
    pub charge_time: u32,
}

/// Statistics of a projectile weapon.
#[derive(Clone, Copy, Debug)]
pub struct ProjectileStats {
    pub common: CommonStats,
    /// Hundredths of the traversal to the target covered per second.
    pub shot_speed: u32,
    pub volley_size: usize,
    pub shield_pierce: usize,
    pub uses_missile: bool,
    pub can_target_self: bool,
}

/// Statistics of a beam weapon.
#[derive(Clone, Copy, Debug)]
pub struct BeamStats {
    pub common: CommonStats,
    /// Hundredths of the sweep covered per second.
    pub speed: u32,
    pub length: u32,
}

/// Power drawn by the projectile weapon of kind `i`.
pub open spec fn projectile_power(i: usize) -> usize {
    if i == 0 { 1 } else if i == 1 { 3 } else { 2 }
}

/// Charge time in ticks of the projectile weapon of kind `i`.
pub open spec fn projectile_charge_time(i: usize) -> u32 {
    if i == 0 { 576 } else if i == 1 { 896 } else { 704 }
}

/// Whether the projectile weapon of kind `i` consumes a missile per volley.
pub open spec fn projectile_uses_missile(i: usize) -> bool {
    i == 1
}

/// Power drawn by the beam weapon of kind `i`.
pub open spec fn beam_power(i: usize) -> usize {
    if i == 0 { 2 } else { 3 }
}

/// Charge time in ticks of the beam weapon of kind `i`.
pub open spec fn beam_charge_time(i: usize) -> u32 {
    if i == 0 { 1024 } else { 1088 }
}

/// The statistics table of the projectile weapons.
pub open spec fn projectile_table(i: usize) -> ProjectileStats {
    if i == 0 {
        ProjectileStats {
            common: CommonStats { name: "Heavy Laser", damage: 2, power: 1, charge_time: 576 },
            shot_speed: 35,
            volley_size: 1,
            shield_pierce: 0,
            uses_missile: false,
            can_target_self: false,
        }
    } else if i == 1 {
        ProjectileStats {
            common: CommonStats { name: "Hermes Missiles", damage: 3, power: 3, charge_time: 896 },
            shot_speed: 60,
            volley_size: 1,
            shield_pierce: 5,
            uses_missile: true,
            can_target_self: false,
        }
    } else {
        ProjectileStats {
            common: CommonStats { name: "Burst Laser Mk I", damage: 1, power: 2, charge_time: 704 },
            shot_speed: 60,
            volley_size: 2,
            shield_pierce: 0,
            uses_missile: false,
            can_target_self: false,
        }
    }
}

/// The statistics table of the beam weapons.
pub open spec fn beam_table(i: usize) -> BeamStats {
    if i == 0 {
        BeamStats {
            common: CommonStats { name: "Pike Beam", damage: 1, power: 2, charge_time: 1024 },
            speed: 80,
            length: 170,
        }
    } else {
        BeamStats {
            common: CommonStats { name: "Halberd Beam", damage: 2, power: 3, charge_time: 1088 },
            speed: 100,
            length: 80,
        }
    }
}

/// Identifies a projectile weapon kind: an index into the projectile statistics table.
#[derive(Clone, Copy, Debug, PartialEq, Eq, Structural)]
pub struct ProjectileWeaponId(pub usize);

/// Identifies a beam weapon kind: an index into the beam statistics table.
#[derive(Clone, Copy, Debug, PartialEq, Eq, Structural)]
pub struct BeamWeaponId(pub usize);

impl ProjectileWeaponId {
    /// The index of this kind in the projectile statistics table.
    pub open spec fn index(self) -> usize {
        self.0
    }

    /// Whether the index names a kind in the table.
    pub open spec fn valid(self) -> bool {
        self.0 < PROJECTILE_WEAPON_COUNT
    }

    /// The kind at `index` of the projectile statistics table.
    pub fn new(index: usize) -> (r: Self)
        requires
            index < PROJECTILE_WEAPON_COUNT,
        ensures
            r.index() == index,
            r.valid(),
    {
        ProjectileWeaponId(index)
    }

    /// The index of this kind in the projectile statistics table.
    pub fn get_index(&self) -> (r: usize)
        ensures
            r == self.index(),
    {
        self.0
    }

    /// The statistics of this weapon kind.
    pub fn stats(&self) -> (r: ProjectileStats)
        requires
            self.valid(),
        ensures
            r == projectile_table(self.index()),
            r.common.power == projectile_power(self.index()),
            r.common.charge_time == projectile_charge_time(self.index()),
            r.uses_missile == projectile_uses_missile(self.index()),
    {
        if self.0 == 0 {
            ProjectileStats {
                common: CommonStats { name: "Heavy Laser", damage: 2, power: 1, charge_time: 576 },
                shot_speed: 35,
                volley_size: 1,
                shield_pierce: 0,
                uses_missile: false,
                can_target_self: false,
            }
        } else if self.0 == 1 {
            ProjectileStats {
                common: CommonStats {
                    name: "Hermes Missiles",
                    damage: 3,
                    power: 3,
                    charge_time: 896,
                },
                shot_speed: 60,
                volley_size: 1,
                shield_pierce: 5,
                uses_missile: true,
                can_target_self: false,
            }
        } else {
            ProjectileStats {
                common: CommonStats {
                    name: "Burst Laser Mk I",
                    damage: 1,
                    power: 2,
                    charge_time: 704,
                },
                shot_speed: 60,
                volley_size: 2,
                shield_pierce: 0,
                uses_missile: false,
                can_target_self: false,
            }
        }
    }
}

impl BeamWeaponId {
    /// The index of this kind in the beam statistics table.
    pub open spec fn index(self) -> usize {
        self.0
    }

    /// Whether the index names a kind in the table.
    pub open spec fn valid(self) -> bool {
        self.0 < BEAM_WEAPON_COUNT
    }

    /// The kind at `index` of the beam statistics table.
    pub fn new(index: usize) -> (r: Self)
        requires
            index < BEAM_WEAPON_COUNT,
        ensures
            r.index() == index,
            r.valid(),
    {
        BeamWeaponId(index)
    }

    /// The index of this kind in the beam statistics table.
    pub fn get_index(&self) -> (r: usize)
        ensures
            r == self.index(),
    {
        self.0
    }

    /// The statistics of this weapon kind.
    pub fn stats(&self) -> (r: BeamStats)
        requires
            self.valid(),
        ensures
            r == beam_table(self.index()),
            r.common.power == beam_power(self.index()),
            r.common.charge_time == beam_charge_time(self.index()),
    {
        if self.0 == 0 {
            BeamStats {
                common: CommonStats { name: "Pike Beam", damage: 1, power: 2, charge_time: 1024 },
                speed: 80,
                length: 170,
            }
        } else {
            BeamStats {
                common: CommonStats { name: "Halberd Beam", damage: 2, power: 3, charge_time: 1088 },
                speed: 100,
                length: 80,
            }
        }
    }
}

/// Identifies a weapon kind.
#[derive(Clone, Copy, Debug, PartialEq, Eq, Structural)]
pub enum WeaponId {
    Projectile(ProjectileWeaponId),
    Beam(BeamWeaponId),
}

impl WeaponId {
    /// Whether the id names a kind in the statistics tables.
    pub open spec fn valid(self) -> bool {
        match self {
            WeaponId::Projectile(id) => id.valid(),
            WeaponId::Beam(id) => id.valid(),
        }
    }

    /// The statistics that all weapons have.
    pub open spec fn spec_common(self) -> CommonStats {
        match self {
            WeaponId::Projectile(id) => projectile_table(id.index()).common,
            WeaponId::Beam(id) => beam_table(id.index()).common,
        }
    }

    /// Power drawn by this weapon.
    pub open spec fn power(self) -> usize {
        match self {
            WeaponId::Projectile(id) => projectile_power(id.index()),
            WeaponId::Beam(id) => beam_power(id.index()),
        }
    }

    /// Charge time in ticks of this weapon.
    pub open spec fn charge_time(self) -> u32 {
        match self {
            WeaponId::Projectile(id) => projectile_charge_time(id.index()),
            WeaponId::Beam(id) => beam_charge_time(id.index()),
        }
    }

    /// Whether this weapon consumes a missile per volley.
    pub open spec fn spec_uses_missile(self) -> bool {
        match self {
            WeaponId::Projectile(id) => projectile_uses_missile(id.index()),
            WeaponId::Beam(_) => false,
        }
    }

    /// The statistics that all weapons have.
    pub fn common(&self) -> (r: CommonStats)
        requires
            self.valid(),
        ensures
            r == self.spec_common(),
            r.power == self.power(),
            r.charge_time == self.charge_time(),
    {
        match self {
            WeaponId::Projectile(id) => id.stats().common,
            WeaponId::Beam(id) => id.stats().common,
        }
    }

    /// Whether this weapon consumes a missile per volley.
    pub fn uses_missile(&self) -> (r: bool)
        requires
            self.valid(),
        ensures
            r == self.spec_uses_missile(),
    {
        match self {
            WeaponId::Projectile(weapon) => weapon.stats().uses_missile,
            WeaponId::Beam(_) => false,
        }
    }
}

/// The Heavy Laser.
pub fn heavy_laser() -> (r: WeaponId)
    ensures
        r == WeaponId::Projectile(ProjectileWeaponId(0)),
{
    WeaponId::Projectile(ProjectileWeaponId(0))
}

/// The Hermes Missiles.
pub fn hermes_missiles() -> (r: WeaponId)
    ensures
        r == WeaponId::Projectile(ProjectileWeaponId(1)),
{
    WeaponId::Projectile(ProjectileWeaponId(1))
}

/// The Burst Laser Mk I.
pub fn burst_laser_mk_i() -> (r: WeaponId)
    ensures
        r == WeaponId::Projectile(ProjectileWeaponId(2)),
{
    WeaponId::Projectile(ProjectileWeaponId(2))
}

/// The Pike Beam.
pub fn pike_beam() -> (r: WeaponId)
    ensures
        r == WeaponId::Beam(BeamWeaponId(0)),
{
    WeaponId::Beam(BeamWeaponId(0))
}

/// The Halberd Beam.
pub fn halberd_beam() -> (r: WeaponId)
    ensures
        r == WeaponId::Beam(BeamWeaponId(1)),
{
    WeaponId::Beam(BeamWeaponId(1))
}

/// A "physical" projectile weapon. The wrapped `usize` is the index into the projectile
/// statistics table.
#[derive(Debug)]
pub struct ProjectileWeapon(pub usize);

/// A "physical" beam weapon. The wrapped `usize` is the index into the beam statistics table.
#[derive(Debug)]
pub struct BeamWeapon(pub usize);

/// A "physical" weapon. It cannot be cloned: new instances come from a store or an event, and
/// they move between a store inventory, ship storage and hardpoints.
#[derive(Debug)]
pub enum Weapon {
    Projectile(ProjectileWeapon),
    Beam(BeamWeapon),
}

/// Weapons of one kind (projectile or beam) and the id type that names their kind.
pub trait Weaponlike {
    type Id: Copy;

    /// The id of this weapon's kind.
    spec fn spec_id(&self) -> Self::Id;

    /// The weapon id that `id` stands for.
    spec fn spec_weapon_id(id: Self::Id) -> WeaponId;

    /// The id of this weapon's kind.
    fn id(&self) -> (r: Self::Id)
        ensures
            r == self.spec_id(),
    ;

    /// The weapon id that `id` stands for.
    fn into_weapon_id(id: Self::Id) -> (r: WeaponId)
        ensures
            r == Self::spec_weapon_id(id),
    ;
}

impl Weaponlike for ProjectileWeapon {
    type Id = ProjectileWeaponId;

    open spec fn spec_id(&self) -> ProjectileWeaponId {
        ProjectileWeaponId(self.0)
    }

    open spec fn spec_weapon_id(id: ProjectileWeaponId) -> WeaponId {
        WeaponId::Projectile(id)
    }

    fn id(&self) -> (r: ProjectileWeaponId) {
        ProjectileWeaponId(self.0)
    }

    fn into_weapon_id(id: ProjectileWeaponId) -> (r: WeaponId) {
        WeaponId::Projectile(id)
    }
}

impl Weaponlike for BeamWeapon {
    type Id = BeamWeaponId;

    open spec fn spec_id(&self) -> BeamWeaponId {
        BeamWeaponId(self.0)
    }

    open spec fn spec_weapon_id(id: BeamWeaponId) -> WeaponId {
        WeaponId::Beam(id)
    }

    fn id(&self) -> (r: BeamWeaponId) {
        BeamWeaponId(self.0)
    }

    fn into_weapon_id(id: BeamWeaponId) -> (r: WeaponId) {
        WeaponId::Beam(id)
    }
}

impl Weapon {
    /// The kind of this weapon.
    pub open spec fn spec_id(&self) -> WeaponId {
        match self {
            Weapon::Projectile(w) => WeaponId::Projectile(w.spec_id()),
            Weapon::Beam(w) => WeaponId::Beam(w.spec_id()),
        }
    }

    /// A new weapon of kind `id`.
    pub fn new(id: WeaponId) -> (r: Weapon)
        ensures
            r.spec_id() == id,
    {
        match id {
            WeaponId::Projectile(id) => Weapon::Projectile(ProjectileWeapon(id.0)),
            WeaponId::Beam(id) => Weapon::Beam(BeamWeapon(id.0)),
        }
    }

    /// The kind of this weapon.
    pub fn id(&self) -> (r: WeaponId)
        ensures
            r == self.spec_id(),
    {
        match self {
            Weapon::Projectile(weapon) => WeaponId::Projectile(weapon.id()),
            Weapon::Beam(weapon) => WeaponId::Beam(weapon.id()),
        }
    }
}

} // verus!
