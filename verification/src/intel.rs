//! Intel: what players know about ships. Basic intel is visible without functioning sensors:
//! hull integrity, where systems are, shield layers, system damage and which weapons are
//! powered. Systems intel gives the full status of each system; weapon charge intel the exact
//! charge of each weapon.

use vstd::prelude::*;
use crate::ship::SystemId;
use crate::ship_state::ShipState;
use crate::ship_systems::ShipSystems;
use crate::systems::{SystemDamageIntel, SystemStatus};
use crate::weapon::WeaponId;
use crate::crew::Crew;
use crate::nav::Cell;
use crate::ship::{ships, Room};
use crate::weapons::{WeaponEntry, WeaponTarget};

verus! {

/// What only the player controlling a ship knows of it: its power, missiles, where its weapons
/// aim, whether they fire on their own, and its crew.
#[derive(Debug)]
pub struct SelfIntel<R, B, H> {
    pub max_power: usize,
    pub free_power: usize,
    pub missiles: usize,
    /// The target of each weapon, in hardpoint order (none without a weapons system).
    pub weapon_targets: Vec<Option<WeaponTarget<R, B>>>,
    pub autofire: bool,
    /// The ship's crew members, in order.
    pub crew: Vec<Crew<H>>,
}

/// Which intel chunks of a ship a player sees.
#[derive(Clone, Copy, Debug, PartialEq, Eq, Structural)]
pub struct IntelVisibility {
    pub self_intel: bool,
    pub weapon_charge: bool,
    pub systems: bool,
    pub interior: bool,
}

/// Which intel chunks of a ship a player sees, given whether the ship is the player's own and
/// the player's sensor level. Of their own ship players see self, weapon charge and systems
/// intel, and its interior with sensors of level 1 or more. Of another ship they never see self
/// intel; they see its interior from sensor level 2, its weapon charge from level 3 and its
/// systems from level 4.
pub open spec fn visibility(own_ship: bool, sensor_level: nat) -> IntelVisibility {
    if own_ship {
        IntelVisibility { self_intel: true, weapon_charge: true, systems: true, interior: sensor_level > 0 }
    } else {
        IntelVisibility {
            self_intel: false,
            weapon_charge: sensor_level > 2,
            systems: sensor_level > 3,
            interior: sensor_level > 1,
        }
    }
}

/// Which intel chunks of a ship a player sees (see [`visibility`]).
pub fn intel_visibility(own_ship: bool, sensor_level: usize) -> (r: IntelVisibility)
    ensures
        r == visibility(own_ship, sensor_level as nat),
{
    if own_ship {
        IntelVisibility { self_intel: true, weapon_charge: true, systems: true, interior: sensor_level > 0 }
    } else {
        IntelVisibility {
            self_intel: false,
            weapon_charge: sensor_level > 2,
            systems: sensor_level > 3,
            interior: sensor_level > 1,
        }
    }
}

/// A higher sensor level never hides an intel chunk that a lower one shows; and players see at
/// least as much of their own ship as of another at the same level.
pub proof fn lemma_visibility_monotonic(own_ship: bool, low: nat, high: nat)
    requires
        low <= high,
    ensures
        visibility(own_ship, low).self_intel ==> visibility(own_ship, high).self_intel,
        visibility(own_ship, low).weapon_charge ==> visibility(own_ship, high).weapon_charge,
        visibility(own_ship, low).systems ==> visibility(own_ship, high).systems,
        visibility(own_ship, low).interior ==> visibility(own_ship, high).interior,
        visibility(false, low).weapon_charge ==> visibility(true, low).weapon_charge,
        visibility(false, low).systems ==> visibility(true, low).systems,
        visibility(false, low).interior ==> visibility(true, low).interior,
{
}

/// The indices below `n` of the cells of `cells` that lie in `room`, in increasing order.
pub open spec fn indices_in(room: Seq<Cell>, cells: Seq<Cell>, n: nat) -> Seq<usize>
    decreases n,
{
    if n == 0 {
        Seq::empty()
    } else {
        let before = indices_in(room, cells, (n - 1) as nat);
        if room.contains(cells[n - 1]) {
            before.push((n - 1) as usize)
        } else {
            before
        }
    }
}

/// The indices of the cells of `cells` that lie in `room`, in increasing order.
pub fn members(room: &Room, cells: &Vec<Cell>) -> (r: Vec<usize>)
    ensures
        r@ == indices_in(room.cells@, cells@, cells@.len()),
{
    let mut r: Vec<usize> = Vec::new();
    let mut k: usize = 0;
    while k < cells.len()
        invariant
            k <= cells@.len(),
            r@ == indices_in(room.cells@, cells@, k as nat),
        decreases cells.len() - k,
    {
        if room.has_cell(cells[k]) {
            r.push(k);
        }
        k = k + 1;
    }
    r
}

/// Basic weapon status for a single weapon: its kind and whether it is powered.
#[derive(Clone, Copy, Debug, PartialEq, Eq, Structural)]
pub struct WeaponIntel {
    pub weapon: WeaponId,
    pub powered: bool,
}

/// Basic weapons system status: each weapon's status and the system's damage state.
#[derive(Clone, Debug)]
pub struct WeaponsIntel {
    pub weapons: Vec<WeaponIntel>,
    pub damage: SystemDamageIntel,
}

/// Basic shield system status: the layers the current power holds, the current layers and the
/// system's damage state.
#[derive(Clone, Copy, Debug, PartialEq, Eq, Structural)]
pub struct ShieldIntel {
    /// The number of layers the shields charge up to with their current power (not their
    /// upgrade level).
    pub max_layers: usize,
    /// Current number of shield layers around the ship.
    pub layers: usize,
    /// Basic system damage level.
    pub damage: SystemDamageIntel,
}

/// Everything about a ship that is visible even without functioning sensors.
#[derive(Clone, Debug)]
pub struct BasicIntel {
    pub ship_type: usize,
    /// Current hull integrity.
    pub hull: usize,
    /// The room of each installed system, in declaration order.
    pub system_locations: Vec<(SystemId, usize)>,
    pub shields: Option<ShieldIntel>,
    pub engines: Option<SystemDamageIntel>,
    pub weapons: Option<WeaponsIntel>,
    /// Whether each door of the layout is open.
    pub doors: Vec<bool>,
}

/// Full intel about one system: its upgrade level, damage and power.
#[derive(Clone, Copy, Debug, PartialEq, Eq, Structural)]
pub struct SystemIntel {
    pub upgrade_level: usize,
    pub damage: usize,
    pub current_power: usize,
}

/// The damage state of a system with status `st`.
pub open spec fn damage_state(st: SystemStatus) -> SystemDamageIntel {
    if st.damage == st.upgrade_level {
        SystemDamageIntel::Destroyed
    } else if st.damage == 0 {
        SystemDamageIntel::Undamaged
    } else {
        SystemDamageIntel::Damaged
    }
}

/// `system` alone if it is installed in `systems`, nothing otherwise.
pub open spec fn if_installed<R: Copy, B: Copy>(systems: ShipSystems<R, B>, system: SystemId) -> Seq<
    SystemId,
> {
    if systems.installed(system) {
        seq![system]
    } else {
        seq![]
    }
}

/// The systems installed in `systems`, in declaration order.
pub open spec fn installed_systems<R: Copy, B: Copy>(systems: ShipSystems<R, B>) -> Seq<SystemId> {
    if_installed(systems, SystemId::Shields) + if_installed(systems, SystemId::Weapons)
        + if_installed(systems, SystemId::Engines)
}

/// A copy of `v`.
fn copy_bools(v: &Vec<bool>) -> (r: Vec<bool>)
    ensures
        r@ == v@,
{
    let mut r: Vec<bool> = Vec::new();
    let mut i: usize = 0;
    while i < v.len()
        invariant
            i <= v@.len(),
            r@ == v@.subrange(0, i as int),
        decreases v.len() - i,
    {
        r.push(v[i]);
        i = i + 1;
        assert(r@ =~= v@.subrange(0, i as int));
    }
    assert(v@.subrange(0, v@.len() as int) =~= v@);
    r
}

/// No system is listed twice among the installed ones.
proof fn lemma_installed_systems_distinct<R: Copy, B: Copy>(systems: ShipSystems<R, B>)
    ensures
        installed_systems(systems).no_duplicates(),
{
    let s = installed_systems(systems);
    assert forall|a: int, b: int| 0 <= a < s.len() && 0 <= b < s.len() && a != b implies s[a] != s[b] by {
        let x = if_installed(systems, SystemId::Shields);
        let y = if_installed(systems, SystemId::Weapons);
        let z = if_installed(systems, SystemId::Engines);
        assert(s == x + y + z);
        assert forall|k: int| 0 <= k < s.len() implies (k < x.len() ==> s[k] == SystemId::Shields) && (x.len()
            <= k < x.len() + y.len() ==> s[k] == SystemId::Weapons) && (x.len() + y.len() <= k ==> s[k]
            == SystemId::Engines) by {
            if k < x.len() {
                assert(s[k] == x[k]);
            } else if k < x.len() + y.len() {
                assert(s[k] == y[k - x.len()]);
            } else {
                assert(s[k] == z[k - x.len() - y.len()]);
            }
        }
    }
}

/// The basic status of each weapon of `entries`.
pub open spec fn weapon_intels<R: Copy, B: Copy>(entries: Seq<WeaponEntry<R, B>>) -> Seq<WeaponIntel> {
    entries.map_values(
        |e: WeaponEntry<R, B>| WeaponIntel { weapon: e.spec_weapon(), powered: e.spec_powered() },
    )
}

impl<R: Copy, B: Copy, H> ShipState<R, B, H> {
    /// The installed systems, each with the room housing it, in declaration order.
    pub fn system_locations(&self) -> (r: Vec<(SystemId, usize)>)
        ensures
            r@.len() == installed_systems(self.systems).len(),
            forall|k: int|
                0 <= k < r@.len() ==> #[trigger] r@[k] == (
                    installed_systems(self.systems)[k],
                    self.systems.spec_room(installed_systems(self.systems)[k]).unwrap(),
                ),
            forall|a: int, b: int| 0 <= a < b < r@.len() ==> (#[trigger] r@[a]).0 != (#[trigger] r@[b]).0,
    {
        let all = SystemId::all();
        let mut r: Vec<(SystemId, usize)> = Vec::new();
        let mut i: usize = 0;
        let ghost mut done: Seq<SystemId> = seq![];
        while i < all.len()
            invariant
                all@ == crate::ship::all_systems(),
                i <= 3,
                done == (if i == 0 {
                    seq![]
                } else if i == 1 {
                    if_installed(self.systems, SystemId::Shields)
                } else if i == 2 {
                    if_installed(self.systems, SystemId::Shields) + if_installed(
                        self.systems,
                        SystemId::Weapons,
                    )
                } else {
                    installed_systems(self.systems)
                }),
                r@.len() == done.len(),
                forall|k: int|
                    0 <= k < r@.len() ==> #[trigger] r@[k] == (
                        done[k],
                        self.systems.spec_room(done[k]).unwrap(),
                    ),
            decreases 3 - i,
        {
            let system = all[i];
            let ghost d0 = done;
            match self.system_room_of(system) {
                Some(room) => {
                    r.push((system, room));
                    proof {
                        done = d0.push(system);
                        assert(if_installed(self.systems, system) =~= seq![system]);
                    }
                },
                None => {
                    proof {
                        assert(if_installed(self.systems, system) =~= seq![]);
                    }
                },
            }
            proof {
                assert(done =~= d0 + if_installed(self.systems, system));
            }
            i = i + 1;
        }
        proof {
            lemma_installed_systems_distinct(self.systems);
        }
        r
    }

    /// The room housing `system`, if it is installed.
    fn system_room_of(&self, system: SystemId) -> (r: Option<usize>)
        ensures
            r == self.systems.spec_room(system),
    {
        self.systems.system_room(system)
    }

    /// The basic status of each weapon, in hardpoint order, if the weapons system is installed.
    pub fn weapon_intel(&self) -> (r: Option<WeaponsIntel>)
        requires
            self.wf(),
        ensures
            match self.systems.weapons {
                None => r is None,
                Some(w) => r matches Some(i) && i.weapons@ == weapon_intels(w.0.entries@)
                    && i.damage == damage_state(w.0.status),
            },
    {
        match &self.systems.weapons {
            None => None,
            Some(w) => {
                let entries = w.0.weapons();
                let mut list: Vec<WeaponIntel> = Vec::new();
                let mut i: usize = 0;
                while i < entries.len()
                    invariant
                        i <= entries@.len(),
                        list@ =~= weapon_intels(entries@.subrange(0, i as int)),
                    decreases entries.len() - i,
                {
                    list.push(WeaponIntel { weapon: entries[i].weapon(), powered: entries[i].is_powered() });
                    i = i + 1;
                    proof {
                        assert(list@ =~= weapon_intels(entries@.subrange(0, i as int)));
                    }
                }
                proof {
                    assert(entries@.subrange(0, entries@.len() as int) =~= entries@);
                }
                let damage = self.systems.damage_intel(SystemId::Weapons).unwrap();
                Some(WeaponsIntel { weapons: list, damage })
            },
        }
    }

    /// Everything about this ship that is visible without functioning sensors.
    pub fn basic_intel(&self) -> (r: BasicIntel)
        requires
            self.wf(),
        ensures
            r.ship_type == self.ship_type,
            r.hull == self.max_hull - self.damage,
            r.system_locations@.len() == installed_systems(self.systems).len(),
            forall|k: int|
                0 <= k < r.system_locations@.len() ==> #[trigger] r.system_locations@[k] == (
                    installed_systems(self.systems)[k],
                    self.systems.spec_room(installed_systems(self.systems)[k]).unwrap(),
                ),
            match self.systems.shields {
                None => r.shields is None,
                Some(s) => r.shields == Some(
                    ShieldIntel {
                        max_layers: s.0.spec_max_layers() as usize,
                        layers: s.0.layers,
                        damage: damage_state(s.0.status),
                    },
                ),
            },
            match self.systems.engines {
                None => r.engines is None,
                Some(e) => r.engines == Some(damage_state(e.0.status)),
            },
            match self.systems.weapons {
                None => r.weapons is None,
                Some(w) => r.weapons matches Some(i) && i.weapons@ == weapon_intels(w.0.entries@)
                    && i.damage == damage_state(w.0.status),
            },
            r.doors@ == self.doors@,
    {
        let shields = match &self.systems.shields {
            Some(s) => Some(
                ShieldIntel {
                    max_layers: s.0.max_layers(),
                    layers: s.0.layers,
                    damage: self.systems.damage_intel(SystemId::Shields).unwrap(),
                },
            ),
            None => None,
        };
        BasicIntel {
            ship_type: self.ship_type,
            hull: self.hull(),
            system_locations: self.system_locations(),
            shields,
            engines: self.systems.damage_intel(SystemId::Engines),
            weapons: self.weapon_intel(),
            doors: copy_bools(&self.doors),
        }
    }

    /// The full status of each installed system, in declaration order.
    pub fn systems_intel(&self) -> (r: Vec<(SystemId, SystemIntel)>)
        requires
            self.wf(),
        ensures
            r@.len() == installed_systems(self.systems).len(),
            forall|k: int|
                0 <= k < r@.len() ==> {
                    let system = installed_systems(self.systems)[k];
                    let st = self.systems.status(system).unwrap();
                    #[trigger] r@[k] == (
                        system,
                        SystemIntel {
                            upgrade_level: st.upgrade_level,
                            damage: st.damage,
                            current_power: self.systems.power(system) as usize,
                        },
                    )
                },
            forall|a: int, b: int| 0 <= a < b < r@.len() ==> (#[trigger] r@[a]).0 != (#[trigger] r@[b]).0,
    {
        let all = SystemId::all();
        let mut r: Vec<(SystemId, SystemIntel)> = Vec::new();
        let mut i: usize = 0;
        let ghost mut done: Seq<SystemId> = seq![];
        while i < all.len()
            invariant
                self.wf(),
                all@ == crate::ship::all_systems(),
                i <= 3,
                done == (if i == 0 {
                    seq![]
                } else if i == 1 {
                    if_installed(self.systems, SystemId::Shields)
                } else if i == 2 {
                    if_installed(self.systems, SystemId::Shields) + if_installed(
                        self.systems,
                        SystemId::Weapons,
                    )
                } else {
                    installed_systems(self.systems)
                }),
                r@.len() == done.len(),
                forall|k: int|
                    0 <= k < r@.len() ==> {
                        let system = done[k];
                        let st = self.systems.status(system).unwrap();
                        #[trigger] r@[k] == (
                            system,
                            SystemIntel {
                                upgrade_level: st.upgrade_level,
                                damage: st.damage,
                                current_power: self.systems.power(system) as usize,
                            },
                        )
                    },
            decreases 3 - i,
        {
            let system = all[i];
            let ghost d0 = done;
            match self.systems.system_status(system) {
                Some(status) => {
                    let power = self.systems.current_power(system).unwrap();
                    r.push(
                        (
                            system,
                            SystemIntel {
                                upgrade_level: status.upgrade_level,
                                damage: status.damage,
                                current_power: power,
                            },
                        ),
                    );
                    proof {
                        done = d0.push(system);
                        assert(if_installed(self.systems, system) =~= seq![system]);
                    }
                },
                None => {
                    proof {
                        assert(if_installed(self.systems, system) =~= seq![]);
                    }
                },
            }
            proof {
                assert(done =~= d0 + if_installed(self.systems, system));
            }
            i = i + 1;
        }
        proof {
            lemma_installed_systems_distinct(self.systems);
        }
        r
    }

    /// What the player controlling this ship knows of it (see [`SelfIntel`]).
    pub fn self_intel(&self) -> (r: SelfIntel<R, B, H>) where H: Copy
        ensures
            r.crew@.len() == self.crew@.len(),
            forall|k: int| 0 <= k < r.crew@.len() ==> (#[trigger] r.crew@[k]).same_as(self.crew@[k]),
            r.max_power == self.reactor.upgrade_level,
            r.free_power == self.reactor.available,
            r.missiles == self.missiles,
            match self.systems.weapons {
                None => r.weapon_targets@.len() == 0 && !r.autofire,
                Some(w) => r.weapon_targets@ == w.0.entries@.map_values(|e: WeaponEntry<R, B>| e.aim())
                    && r.autofire == w.0.autofire,
            },
    {
        let mut weapon_targets: Vec<Option<WeaponTarget<R, B>>> = Vec::new();
        let mut autofire = false;
        match &self.systems.weapons {
            None => {},
            Some(w) => {
                autofire = w.0.autofire;
                let entries = w.0.weapons();
                let mut i: usize = 0;
                while i < entries.len()
                    invariant
                        i <= entries@.len(),
                        weapon_targets@ =~= entries@.subrange(0, i as int).map_values(
                            |e: WeaponEntry<R, B>| e.aim(),
                        ),
                    decreases entries.len() - i,
                {
                    weapon_targets.push(entries[i].target());
                    i = i + 1;
                    proof {
                        assert(weapon_targets@ =~= entries@.subrange(0, i as int).map_values(
                            |e: WeaponEntry<R, B>| e.aim(),
                        ));
                    }
                }
                proof {
                    assert(entries@.subrange(0, entries@.len() as int) =~= entries@);
                }
            },
        }
        let mut crew: Vec<Crew<H>> = Vec::new();
        let mut k: usize = 0;
        while k < self.crew.len()
            invariant
                k <= self.crew@.len(),
                crew@.len() == k,
                forall|j: int| 0 <= j < k ==> (#[trigger] crew@[j]).same_as(self.crew@[j]),
            decreases self.crew.len() - k,
        {
            crew.push(self.crew[k].copy());
            k = k + 1;
        }
        SelfIntel {
            max_power: self.reactor.upgrade_level,
            free_power: self.reactor.available,
            missiles: self.missiles,
            weapon_targets,
            autofire,
            crew,
        }
    }

    /// For each room of the ship's layout, the crew members in it, given the cell each crew
    /// member stands in (see [`CrewNavStatus::current_cell`](crate::nav::CrewNavStatus)): their
    /// indices in increasing order.
    pub fn interior_intel(&self, crew_cells: &Vec<Cell>) -> (r: Vec<Vec<usize>>)
        requires
            self.wf(),
        ensures
            r@.len() == self.rooms().len(),
            forall|i: int|
                0 <= i < r@.len() ==> #[trigger] r@[i]@ == indices_in(
                    self.rooms()[i],
                    crew_cells@,
                    crew_cells@.len(),
                ),
    {
        let layouts = ships();
        let layout = &layouts[self.ship_type];
        proof {
            assert(layout.room_cells() == self.rooms());
        }
        let mut rooms: Vec<Vec<usize>> = Vec::new();
        let mut i: usize = 0;
        while i < layout.rooms.len()
            invariant
                layout.room_cells() == self.rooms(),
                i <= layout.rooms@.len(),
                rooms@.len() == i,
                forall|j: int|
                    0 <= j < i ==> #[trigger] rooms@[j]@ == indices_in(
                        self.rooms()[j],
                        crew_cells@,
                        crew_cells@.len(),
                    ),
            decreases layout.rooms.len() - i,
        {
            let m = members(&layout.rooms[i], crew_cells);
            proof {
                assert(layout.rooms@[i as int].cells@ == self.rooms()[i as int]);
            }
            rooms.push(m);
            i = i + 1;
        }
        rooms
    }

    /// The charge of each weapon, in ticks of 1/64 s, in hardpoint order (none without a weapons
    /// system).
    pub fn weapon_charge_intel(&self) -> (r: Vec<u32>)
        ensures
            match self.systems.weapons {
                None => r@.len() == 0,
                Some(w) => r@ == w.0.entries@.map_values(|e: WeaponEntry<R, B>| e.spec_charge()),
            },
    {
        let mut levels: Vec<u32> = Vec::new();
        match &self.systems.weapons {
            None => {},
            Some(w) => {
                let entries = w.0.weapons();
                let mut i: usize = 0;
                while i < entries.len()
                    invariant
                        i <= entries@.len(),
                        levels@ =~= entries@.subrange(0, i as int).map_values(
                            |e: WeaponEntry<R, B>| e.spec_charge(),
                        ),
                    decreases entries.len() - i,
                {
                    levels.push(entries[i].charge());
                    i = i + 1;
                    proof {
                        assert(levels@ =~= entries@.subrange(0, i as int).map_values(
                            |e: WeaponEntry<R, B>| e.spec_charge(),
                        ));
                    }
                }
                proof {
                    assert(entries@.subrange(0, entries@.len() as int) =~= entries@);
                }
            },
        }
        levels
    }
}

} // verus!
