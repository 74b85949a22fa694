//! The state of one ship in battle: its reactor and systems, hull, crew and missiles, and the
//! player requests that change them. Every request that moves power keeps the reactor's free
//! power plus the power drawn by the systems equal to the reactor's level.

use vstd::prelude::*;
use crate::crew::{Crew, CrewTask};
use crate::nav::{
    can_route, first_nearest, lemma_reach_closed, nav_stepped, on_mesh, planned_route, routed, Cell, CrewLocation, CrewNav, CrewNavStatus,
    NavMesh, PathGraph,
};
use crate::reactor::Reactor;
use crate::ship::{
    first_room_with, first_ship_graph, first_ship_lines, first_ship_rooms, first_ship_squares,
    joined_below, layout_ok, lemma_first_room_with, lemma_first_ship_layout, lemma_joined_below,
    lemma_joined_below_increasing,
    lemma_rooms_joined_bounds,
    rooms_joined, ships, all_systems, Room,
    SystemId,
};
use std::collections::VecDeque;
use crate::ship_systems::ShipSystems;
use crate::systems::PowerContext;
use crate::weapon::{burst_laser_mk_i, heavy_laser, pike_beam, Weapon, WeaponId};
use crate::weapons::{
    beam_target_set, missile_volleys, room_target_set, weapon_depowered, weapon_moved,
    weapon_powered, Volley, Weapons, WeaponEntry,
};

verus! {

/// Why a request to a ship was refused.
#[derive(Clone, Copy, Debug, PartialEq, Eq, Structural)]
pub enum ShipError {
    /// The system is not installed.
    SystemNotInstalled(SystemId),
    /// The system is already installed.
    SystemAlreadyInstalled(SystemId),
    /// The weapons system is not installed.
    WeaponsNotInstalled,
    /// The room does not exist.
    NoSuchRoom(usize),
    /// Every cell of the room is taken.
    RoomFullyOccupied(usize),
    /// The crew member does not exist.
    NoSuchCrew(usize),
    /// The crew member is already in the room.
    AlreadyInRoom(usize),
    /// The crew member cannot reach the room.
    Unreachable,
    /// No room connected to the crew member's room has a free cell it can reach.
    Overstuffed(usize),
}

/// Whether some crew member of `crew` occupies `cell`.
#[verifier::opaque]
pub open spec fn occupied_by<H>(crew: Seq<Crew<H>>, cell: Cell) -> bool {
    exists|i: int| 0 <= i < crew.len() && (#[trigger] crew[i]).nav_status.occupied() == cell
}

/// The first cell of `cells` that no crew member of `crew` occupies, if any.
#[verifier::opaque]
pub open spec fn first_free<H>(cells: Seq<Cell>, crew: Seq<Crew<H>>) -> Option<Cell> {
    if exists|j: int| 0 <= j < cells.len() && !occupied_by(crew, #[trigger] cells[j]) {
        Some(
            cells[choose|j: int|
                0 <= j < cells.len() && !occupied_by(crew, cells[j]) && forall|k: int|
                    0 <= k < j ==> occupied_by(crew, #[trigger] cells[k])],
        )
    } else {
        None
    }
}

/// Whether a crew member with navigation status `s` can go on in a ship with the nav mesh
/// `mesh` and the path graph `graph`: it walks on a section of the mesh and can walk its path,
/// and the cell it occupies has an entry in the graph.
pub open spec fn crew_fits(mesh: NavMesh, graph: PathGraph, s: CrewNavStatus) -> bool {
    &&& on_mesh(mesh, s)
    &&& s.valid(mesh)
    &&& s.valid_path()
    &&& graph.has_node(s.occupied())
}

/// Among the cells of `cells` that no crew member occupies, one comes first.
proof fn lemma_first_free_exists<H>(cells: Seq<Cell>, crew: Seq<Crew<H>>, j: int)
    requires
        0 <= j < cells.len(),
        !occupied_by(crew, cells[j]),
    ensures
        exists|m: int|
            0 <= m < cells.len() && !occupied_by(crew, cells[m]) && forall|k: int|
                0 <= k < m ==> occupied_by(crew, #[trigger] cells[k]),
    decreases j,
{
    if exists|k: int| 0 <= k < j && !occupied_by(crew, #[trigger] cells[k]) {
        let k = choose|k: int| 0 <= k < j && !occupied_by(crew, #[trigger] cells[k]);
        lemma_first_free_exists(cells, crew, k);
    } else {
        assert forall|k: int| 0 <= k < j implies occupied_by(crew, #[trigger] cells[k]) by {}
    }
}

/// The first free cell of `cells` is one of them.
pub proof fn lemma_first_free_in<H>(cells: Seq<Cell>, crew: Seq<Crew<H>>)
    ensures
        first_free(cells, crew) matches Some(c) ==> cells.contains(c),
{
    reveal(first_free);
    if exists|j: int| 0 <= j < cells.len() && !occupied_by(crew, #[trigger] cells[j]) {
        let j0 = choose|j: int| 0 <= j < cells.len() && !occupied_by(crew, #[trigger] cells[j]);
        lemma_first_free_exists(cells, crew, j0);
        let j = choose|j: int|
            0 <= j < cells.len() && !occupied_by(crew, cells[j]) && forall|k: int|
                0 <= k < j ==> occupied_by(crew, #[trigger] cells[k]);
        assert(first_free(cells, crew) == Some(cells[j]));
        assert(cells.contains(cells[j]));
    }
}

/// Whether some crew member of `crew` other than `me` occupies `cell`.
#[verifier::opaque]
pub open spec fn occupied_by_other<H>(crew: Seq<Crew<H>>, me: int, cell: Cell) -> bool {
    exists|i: int| 0 <= i < crew.len() && i != me && (#[trigger] crew[i]).nav_status.occupied() == cell
}

/// The rooms of `s` that are not in `visited`, in order.
pub open spec fn fresh_rooms(s: Seq<usize>, visited: Set<int>) -> Seq<usize>
    decreases s.len(),
{
    if s.len() == 0 {
        seq![]
    } else {
        fresh_rooms(s.drop_last(), visited) + if visited.contains(s.last() as int) {
            seq![]
        } else {
            seq![s.last()]
        }
    }
}

/// The rooms of `s` as integers.
pub open spec fn room_ints(s: Seq<usize>) -> Seq<int> {
    s.map_values(|b: usize| b as int)
}

/// Every room of [`fresh_rooms`] is one of `s` and not in `visited`.
proof fn lemma_fresh_rooms(s: Seq<usize>, visited: Set<int>)
    ensures
        forall|i: int|
            0 <= i < fresh_rooms(s, visited).len() ==> s.contains(#[trigger] fresh_rooms(s, visited)[i])
                && !visited.contains(fresh_rooms(s, visited)[i] as int),
    decreases s.len(),
{
    if s.len() > 0 {
        lemma_fresh_rooms(s.drop_last(), visited);
        let prev = fresh_rooms(s.drop_last(), visited);
        let cur = fresh_rooms(s, visited);
        assert forall|i: int| 0 <= i < cur.len() implies s.contains(#[trigger] cur[i])
            && !visited.contains(cur[i] as int) by {
            if i < prev.len() {
                assert(cur[i] == prev[i]);
                let j = choose|j: int| 0 <= j < s.drop_last().len() && s.drop_last()[j] == prev[i];
                assert(s[j] == cur[i]);
            } else {
                assert(cur[i] == s.last());
                assert(s[s.len() - 1] == cur[i]);
            }
        }
    }
}

/// Scanning one more room of the increasing rooms `s`: it is met already exactly when it was
/// visited before the scan began, and it is kept exactly when it was not.
proof fn lemma_fresh_step(s: Seq<usize>, visited: Set<int>, added: Seq<usize>, m: int)
    requires
        0 <= m < s.len(),
        forall|i: int, j: int| 0 <= i < j < s.len() ==> #[trigger] s[i] < #[trigger] s[j],
        added == fresh_rooms(s.take(m), visited),
    ensures
        (visited + room_ints(added).to_set()).contains(s[m] as int) <==> visited.contains(s[m] as int),
        visited.contains(s[m] as int) ==> fresh_rooms(s.take(m + 1), visited) == added,
        !visited.contains(s[m] as int) ==> fresh_rooms(s.take(m + 1), visited) == added.push(s[m]),
        room_ints(added.push(s[m])).to_set() == room_ints(added).to_set().insert(s[m] as int),
{
    assert(s.take(m + 1).drop_last() =~= s.take(m));
    assert(s.take(m + 1).last() == s[m]);
    lemma_fresh_rooms(s.take(m), visited);
    if room_ints(added).to_set().contains(s[m] as int) {
        let i = choose|i: int| 0 <= i < room_ints(added).len() && room_ints(added)[i] == s[m] as int;
        assert(s.take(m).contains(added[i]));
        let j = choose|j: int| 0 <= j < s.take(m).len() && s.take(m)[j] == added[i];
        assert(s[j] < s[m]);
    }
    assert(room_ints(added.push(s[m])) =~= room_ints(added).push(s[m] as int));
    assert(room_ints(added.push(s[m])).to_set() =~= room_ints(added).to_set().insert(s[m] as int)) by {
        let a = room_ints(added);
        assert forall|x: int| #[trigger] a.push(s[m] as int).to_set().contains(x) <==> a.to_set().insert(s[m] as int).contains(x) by {
            if a.push(s[m] as int).contains(x) {
                let k = choose|k: int| 0 <= k < a.push(s[m] as int).len() && a.push(s[m] as int)[k] == x;
                if k < a.len() {
                    assert(a[k] == x);
                }
            }
            if a.contains(x) {
                let k = choose|k: int| 0 <= k < a.len() && a[k] == x;
                assert(a.push(s[m] as int)[k] == x);
            }
            if x == s[m] as int {
                assert(a.push(s[m] as int)[a.len() as int] == x);
            }
        }
    }
}

/// Adding a room of the range that was not yet visited leaves fewer rooms of the range
/// unvisited.
proof fn lemma_unvisited_shrinks(n: int, visited: Set<int>, more: Set<int>, x: int)
    requires
        0 <= x < n,
        !visited.contains(x),
        more.contains(x),
    ensures
        vstd::set_lib::set_int_range(0, n).difference(visited + more).len()
            < vstd::set_lib::set_int_range(0, n).difference(visited).len(),
{
    let range = vstd::set_lib::set_int_range(0, n);
    vstd::set_lib::lemma_int_range(0, n);
    let b = range.difference(visited);
    let a = range.difference(visited + more);
    assert(b.subset_of(range));
    vstd::set_lib::lemma_len_subset(b, range);
    assert(b.contains(x));
    assert(a.subset_of(b.remove(x)));
    vstd::set_lib::lemma_len_subset(a, b.remove(x));
}

/// The ship layouts have at most six rooms.
proof fn lemma_layout_rooms_len(ship_type: usize)
    ensures
        layout_rooms(ship_type).len() <= 6,
{
    reveal(first_ship_rooms);
}

/// The path graph entries of the ship layout with index `ship_type`.
pub open spec fn layout_graph(ship_type: usize) -> Seq<(Cell, Seq<Cell>)> {
    if ship_type == 0 {
        first_ship_graph()
    } else {
        Seq::empty()
    }
}

/// What sending a crew member with status `s0` back to its `station` leaves as its status `s1`:
/// routed to the station if it can be (see [`routed`]), unchanged otherwise or without a station.
pub open spec fn back_to_station(
    g: PathGraph,
    m: NavMesh,
    s0: CrewNavStatus,
    s1: CrewNavStatus,
    station: Option<Cell>,
) -> bool {
    match station {
        Some(t) => if can_route(g, s0, t) {
            routed(g, m, s0, s1, t)
        } else {
            s1 == s0
        },
        None => s1 == s0,
    }
}

/// After pushing `x`, a sequence holds what it held and `x`.
proof fn lemma_push_contains(s: Seq<usize>, x: usize, k: usize)
    ensures
        s.push(x).contains(k) == (s.contains(k) || k == x),
{
    if s.push(x).contains(k) {
        let q = choose|q: int| 0 <= q < s.push(x).len() && s.push(x)[q] == k;
        if q < s.len() {
            assert(s[q] == k);
        }
    }
    if s.contains(k) {
        let q = choose|q: int| 0 <= q < s.len() && s[q] == k;
        assert(s.push(x)[q] == k);
    }
    if k == x {
        assert(s.push(x)[s.len() as int] == k);
    }
}

/// Whether crew member `c` has a station it cannot be routed to.
pub open spec fn station_unreachable<H>(g: PathGraph, c: Crew<H>) -> bool {
    match c.station {
        Some(t) => !can_route(g, c.nav_status, t),
        None => false,
    }
}

/// The indices below `n` of the crew members in `crew` that cannot reach their station, in
/// increasing order.
pub open spec fn stranded<H>(g: PathGraph, crew: Seq<Crew<H>>, n: nat) -> Seq<usize>
    decreases n,
{
    if n == 0 {
        Seq::empty()
    } else {
        let before = stranded(g, crew, (n - 1) as nat);
        if station_unreachable(g, crew[n - 1]) {
            before.push((n - 1) as usize)
        } else {
            before
        }
    }
}

proof fn lemma_stranded<H>(g: PathGraph, crew: Seq<Crew<H>>, n: nat, k: int)
    requires
        n <= crew.len(),
        crew.len() <= usize::MAX,
        0 <= k < crew.len(),
    ensures
        stranded(g, crew, n).contains(k as usize) <==> (k < n && station_unreachable(g, crew[k])),
    decreases n,
{
    if n > 0 {
        lemma_stranded(g, crew, (n - 1) as nat, k);
        let before = stranded(g, crew, (n - 1) as nat);
        if station_unreachable(g, crew[n - 1]) {
            lemma_push_contains(before, (n - 1) as usize, k as usize);
        }
    }
}

/// The rooms of the ship layout with index `ship_type`.
pub open spec fn layout_rooms(ship_type: usize) -> Seq<Seq<Cell>> {
    if ship_type == 0 {
        first_ship_rooms()
    } else {
        Seq::empty()
    }
}

/// The state of one ship. `R` and `B` are the room and beam targets its weapons aim at, `H` the
/// health of its crew.
#[derive(Debug)]
pub struct ShipState<R, B, H> {
    /// The index of the ship's layout (see [`ships`]).
    pub ship_type: usize,
    pub reactor: Reactor,
    pub systems: ShipSystems<R, B>,
    pub max_hull: usize,
    pub damage: usize,
    pub crew: Vec<Crew<H>>,
    pub missiles: usize,
    pub nav_mesh: NavMesh,
    pub path_graph: PathGraph,
    /// Whether each door of the layout is open (a broken door is open whatever this says; the
    /// time a door stays broken is kept by the caller).
    pub doors: Vec<bool>,
}

impl<R: Copy, B: Copy, H> ShipState<R, B, H> {
    /// The cells of each room of the ship's layout.
    pub open spec fn rooms(&self) -> Seq<Seq<Cell>> {
        layout_rooms(self.ship_type)
    }

    /// Whether a crew member with navigation status `s` can go on in this ship (see
    /// [`crew_fits`]).
    pub open spec fn crew_ok(&self, s: CrewNavStatus) -> bool {
        crew_fits(self.nav_mesh, self.path_graph, s)
    }

    /// The ship's consistency: a known, consistent layout; consistent systems; the reactor's
    /// free power plus the power the systems draw equals the reactor's level; hull damage within
    /// the hull; and crew that can go on, with stations in the path graph.
    pub open spec fn wf(&self) -> bool {
        &&& self.ship_type == 0
        &&& layout_ok(self.rooms(), self.path_graph, self.nav_mesh)
        &&& self.systems.wf()
        &&& self.reactor.available + self.systems.total_power() == self.reactor.upgrade_level
        &&& self.damage <= self.max_hull
        &&& forall|i: int|
            0 <= i < self.crew@.len() ==> #[trigger] crew_fits(
                self.nav_mesh,
                self.path_graph,
                self.crew@[i].nav_status,
            )
        &&& forall|i: int|
            0 <= i < self.crew@.len() ==> (#[trigger] self.crew@[i].station matches Some(c)
                ==> self.path_graph.has_node(c))
    }

    /// What the consistency of the ship's layout gives (see [`layout_ok`]).
    pub proof fn lemma_layout(&self)
        requires
            self.wf(),
        ensures
            self.path_graph.wf(),
            self.path_graph.fits_mesh(self.nav_mesh),
            forall|a: Cell, b: Cell|
                self.path_graph.has_node(a) && self.path_graph.has_node(b)
                    ==> #[trigger] self.path_graph.reachable(a, b),
            forall|c: Cell| #[trigger] self.path_graph.has_node(c) ==> first_room_with(self.rooms(), c) is Some,
            forall|r: int, c: Cell|
                0 <= r < self.rooms().len() && #[trigger] self.rooms()[r].contains(c) ==> self.path_graph.has_node(c),
            forall|k: int, c: Cell|
                0 <= k < self.nav_mesh.section_seq().len() && #[trigger] self.nav_mesh.section_seq()[k].cell_seq().contains(c)
                    ==> self.path_graph.has_node(c),
    {
        reveal(layout_ok);
    }

    /// Replacing the navigation status of crew member `i` by one that can go on keeps the ship
    /// consistent.
    pub proof fn lemma_crew_status(&self, other: &Self, i: int)
        requires
            self.wf(),
            0 <= i < self.crew@.len(),
            other.crew@.len() == self.crew@.len(),
            forall|j: int| 0 <= j < self.crew@.len() && j != i ==> #[trigger] other.crew@[j] == self.crew@[j],
            other.crew@[i].station == self.crew@[i].station,
            other.crew_ok(other.crew@[i].nav_status),
            other.ship_type == self.ship_type,
            other.reactor == self.reactor,
            other.systems == self.systems,
            other.max_hull == self.max_hull,
            other.damage == self.damage,
            other.nav_mesh == self.nav_mesh,
            other.path_graph == self.path_graph,
        ensures
            other.wf(),
    {
        assert forall|j: int| 0 <= j < other.crew@.len() implies #[trigger] crew_fits(
            other.nav_mesh,
            other.path_graph,
            other.crew@[j].nav_status,
        ) by {
            if j != i {
                assert(other.crew@[j] == self.crew@[j]);
            }
        }
        assert forall|j: int| 0 <= j < other.crew@.len() implies (#[trigger] other.crew@[j].station matches Some(c)
            ==> other.path_graph.has_node(c)) by {
            if j != i {
                assert(other.crew@[j] == self.crew@[j]);
            }
        }
    }

    /// Whether `other` differs from `self` at most in its reactor and systems.
    pub open spec fn same_but_power(&self, other: &Self) -> bool {
        &&& other.ship_type == self.ship_type
        &&& other.max_hull == self.max_hull
        &&& other.damage == self.damage
        &&& other.crew@ == self.crew@
        &&& other.missiles == self.missiles
        &&& other.nav_mesh == self.nav_mesh
        &&& other.path_graph == self.path_graph
        &&& other.doors == self.doors
    }

    /// A fresh ship of the first layout: an unupgraded reactor, no systems, an undamaged hull of
    /// 30, no crew and 10 missiles.
    pub fn new() -> (r: Self)
        ensures
            r.wf(),
            r.ship_type == 0,
            r.reactor.upgrade_level == 0,
            r.reactor.available == 0,
            r.systems.shields is None,
            r.systems.engines is None,
            r.systems.weapons is None,
            r.max_hull == 30,
            r.damage == 0,
            r.crew@.len() == 0,
            r.missiles == 10,
            r.nav_mesh.lines@ == first_ship_lines(),
            r.nav_mesh.squares@ == first_ship_squares(),
            r.doors@ == Seq::<bool>::empty(),
    {
        let layouts = ships();
        let layout = &layouts[0];
        let nav_mesh = layout.nav_mesh();
        let path_graph = layout.path_graph();
        proof {
            lemma_first_ship_layout(first_ship_rooms(), path_graph, nav_mesh);
        }
        ShipState {
            ship_type: 0,
            reactor: Reactor::new(),
            systems: ShipSystems::default(),
            max_hull: 30,
            damage: 0,
            crew: Vec::new(),
            missiles: 10,
            nav_mesh,
            path_graph,
            doors: Vec::new(),
        }
    }

    /// Installs a fresh `system` in `room`. Refused if the system is already installed.
    pub fn install_system(&mut self, system: SystemId, room: usize) -> (r: Result<(), ShipError>)
        requires
            old(self).wf(),
        ensures
            final(self).wf(),
            old(self).same_but_power(&*final(self)),
            final(self).reactor == old(self).reactor,
            r == (if old(self).systems.installed(system) {
                Err::<(), ShipError>(ShipError::SystemAlreadyInstalled(system))
            } else {
                Ok(())
            }),
            r is Err ==> final(self).systems == old(self).systems,
            r is Ok ==> {
                &&& old(self).systems.others_unchanged(final(self).systems, system)
                &&& final(self).systems.spec_room(system) == Some(room)
                &&& final(self).systems.status(system) == Some(
                    crate::systems::SystemStatus { upgrade_level: 1, damage: 0 },
                )
                &&& final(self).systems.power(system) == 0
                &&& final(self).systems.fresh(system)
            },
    {
        if self.systems.system_room(system).is_some() {
            return Err(ShipError::SystemAlreadyInstalled(system));
        }
        self.systems.install(system, room);
        Ok(())
    }

    /// Adds power to `system` in its useful increment (see [`ShipSystems::add_power`]), using the
    /// ship's missile count for weapons that need missiles. Refused if the system is not
    /// installed.
    pub fn request_power(&mut self, system: SystemId) -> (r: Result<(), ShipError>)
        requires
            old(self).wf(),
        ensures
            final(self).wf(),
            old(self).same_but_power(&*final(self)),
            final(self).reactor.upgrade_level == old(self).reactor.upgrade_level,
            r == (if old(self).systems.installed(system) {
                Ok(())
            } else {
                Err::<(), ShipError>(ShipError::SystemNotInstalled(system))
            }),
            old(self).systems.power_added(
                final(self).systems,
                system,
                old(self).missiles,
                old(self).reactor.available,
                final(self).reactor.available,
            ),
    {
        let context = PowerContext { missiles: self.missiles };
        if self.systems.add_power(system, &mut self.reactor, context) {
            Ok(())
        } else {
            Err(ShipError::SystemNotInstalled(system))
        }
    }

    /// Takes power from `system` in its useful increment (see [`ShipSystems::remove_power`]).
    /// Refused if the system is not installed.
    pub fn remove_power(&mut self, system: SystemId) -> (r: Result<(), ShipError>)
        requires
            old(self).wf(),
        ensures
            final(self).wf(),
            old(self).same_but_power(&*final(self)),
            final(self).reactor.upgrade_level == old(self).reactor.upgrade_level,
            r == (if old(self).systems.installed(system) {
                Ok(())
            } else {
                Err::<(), ShipError>(ShipError::SystemNotInstalled(system))
            }),
            old(self).systems.power_removed(
                final(self).systems,
                system,
                old(self).reactor.available,
                final(self).reactor.available,
            ),
    {
        if self.systems.remove_power(system, &mut self.reactor) {
            Ok(())
        } else {
            Err(ShipError::SystemNotInstalled(system))
        }
    }

    /// Powers the weapon at `index` (see [`Weapons::power_weapon`]). Refused if the weapons
    /// system is not installed.
    pub fn power_weapon(&mut self, index: usize) -> (r: Result<(), ShipError>)
        requires
            old(self).wf(),
        ensures
            final(self).wf(),
            old(self).same_but_power(&*final(self)),
            final(self).reactor.upgrade_level == old(self).reactor.upgrade_level,
            final(self).systems.shields == old(self).systems.shields,
            final(self).systems.engines == old(self).systems.engines,
            match old(self).systems.weapons {
                None => r == Err::<(), ShipError>(ShipError::WeaponsNotInstalled)
                    && final(self).systems.weapons is None && final(self).reactor
                    == old(self).reactor,
                Some(w0) => r == Ok::<(), ShipError>(()) && (final(self).systems.weapons matches Some(
                    w1,
                ) && w1.1 == w0.1 && weapon_powered(
                    w0.0,
                    w1.0,
                    index,
                    old(self).missiles,
                    old(self).reactor.available,
                    final(self).reactor.available,
                )),
            },
    {
        let missiles = self.missiles;
        match &mut self.systems.weapons {
            Some(w) => {
                w.0.power_weapon(index, missiles, &mut self.reactor);
                Ok(())
            },
            None => Err(ShipError::WeaponsNotInstalled),
        }
    }

    /// Depowers the weapon at `index` (see [`Weapons::depower_weapon`]). Refused if the weapons
    /// system is not installed.
    pub fn depower_weapon(&mut self, index: usize) -> (r: Result<(), ShipError>)
        requires
            old(self).wf(),
        ensures
            final(self).wf(),
            old(self).same_but_power(&*final(self)),
            final(self).reactor.upgrade_level == old(self).reactor.upgrade_level,
            final(self).systems.shields == old(self).systems.shields,
            final(self).systems.engines == old(self).systems.engines,
            match old(self).systems.weapons {
                None => r == Err::<(), ShipError>(ShipError::WeaponsNotInstalled)
                    && final(self).systems.weapons is None && final(self).reactor
                    == old(self).reactor,
                Some(w0) => r == Ok::<(), ShipError>(()) && (final(self).systems.weapons matches Some(
                    w1,
                ) && w1.1 == w0.1 && weapon_depowered(
                    w0.0,
                    w1.0,
                    index,
                    old(self).reactor.available,
                    final(self).reactor.available,
                )),
            },
    {
        match &mut self.systems.weapons {
            Some(w) => {
                w.0.depower_weapon(index, &mut self.reactor);
                Ok(())
            },
            None => Err(ShipError::WeaponsNotInstalled),
        }
    }

    /// Aims the projectile weapon at `weapon_index` (see [`Weapons::set_projectile_weapon_target`]).
    /// Refused if the weapons system is not installed.
    pub fn set_projectile_weapon_target(
        &mut self,
        weapon_index: usize,
        target: Option<R>,
        targeting_self: bool,
    ) -> (r: Result<(), ShipError>)
        requires
            old(self).wf(),
        ensures
            final(self).wf(),
            old(self).same_but_power(&*final(self)),
            final(self).reactor == old(self).reactor,
            final(self).systems.shields == old(self).systems.shields,
            final(self).systems.engines == old(self).systems.engines,
            match old(self).systems.weapons {
                None => r == Err::<(), ShipError>(ShipError::WeaponsNotInstalled)
                    && final(self).systems.weapons is None,
                Some(w0) => r == Ok::<(), ShipError>(()) && (final(self).systems.weapons matches Some(
                    w1,
                ) && w1.1 == w0.1 && room_target_set(
                    w0.0,
                    w1.0,
                    weapon_index,
                    target,
                    targeting_self,
                )),
            },
    {
        match &mut self.systems.weapons {
            Some(w) => {
                w.0.set_projectile_weapon_target(weapon_index, target, targeting_self);
                Ok(())
            },
            None => Err(ShipError::WeaponsNotInstalled),
        }
    }

    /// Aims the beam weapon at `weapon_index` (see [`Weapons::set_beam_weapon_target`]). Refused
    /// if the weapons system is not installed.
    pub fn set_beam_weapon_target(&mut self, weapon_index: usize, target: Option<B>) -> (r: Result<
        (),
        ShipError,
    >)
        requires
            old(self).wf(),
        ensures
            final(self).wf(),
            old(self).same_but_power(&*final(self)),
            final(self).reactor == old(self).reactor,
            final(self).systems.shields == old(self).systems.shields,
            final(self).systems.engines == old(self).systems.engines,
            match old(self).systems.weapons {
                None => r == Err::<(), ShipError>(ShipError::WeaponsNotInstalled)
                    && final(self).systems.weapons is None,
                Some(w0) => r == Ok::<(), ShipError>(()) && (final(self).systems.weapons matches Some(
                    w1,
                ) && w1.1 == w0.1 && beam_target_set(w0.0, w1.0, weapon_index, target)),
            },
    {
        match &mut self.systems.weapons {
            Some(w) => {
                w.0.set_beam_weapon_target(weapon_index, target);
                Ok(())
            },
            None => Err(ShipError::WeaponsNotInstalled),
        }
    }

    /// Moves the weapon at `weapon_index` to hardpoint `target_index` (see
    /// [`Weapons::move_weapon`]). Refused if the weapons system is not installed.
    pub fn move_weapon(&mut self, weapon_index: usize, target_index: usize) -> (r: Result<
        (),
        ShipError,
    >)
        requires
            old(self).wf(),
        ensures
            final(self).wf(),
            old(self).same_but_power(&*final(self)),
            final(self).reactor == old(self).reactor,
            final(self).systems.shields == old(self).systems.shields,
            final(self).systems.engines == old(self).systems.engines,
            match old(self).systems.weapons {
                None => r == Err::<(), ShipError>(ShipError::WeaponsNotInstalled)
                    && final(self).systems.weapons is None,
                Some(w0) => r == Ok::<(), ShipError>(()) && (final(self).systems.weapons matches Some(
                    w1,
                ) && w1.1 == w0.1 && weapon_moved(w0.0, w1.0, weapon_index, target_index)),
            },
    {
        match &mut self.systems.weapons {
            Some(w) => {
                w.0.move_weapon(weapon_index, target_index);
                Ok(())
            },
            None => Err(ShipError::WeaponsNotInstalled),
        }
    }

    /// Turns autofire on or off: with it on, weapons keep their targets after firing. Refused if
    /// the weapons system is not installed.
    pub fn set_autofire(&mut self, autofire: bool) -> (r: Result<(), ShipError>)
        requires
            old(self).wf(),
        ensures
            final(self).wf(),
            old(self).same_but_power(&*final(self)),
            final(self).reactor == old(self).reactor,
            final(self).systems.shields == old(self).systems.shields,
            final(self).systems.engines == old(self).systems.engines,
            match old(self).systems.weapons {
                None => r == Err::<(), ShipError>(ShipError::WeaponsNotInstalled)
                    && final(self).systems.weapons is None,
                Some(w0) => r == Ok::<(), ShipError>(()) && (final(self).systems.weapons matches Some(
                    w1,
                ) && w1.1 == w0.1 && w1.0.autofire == autofire && w1.0.status == w0.0.status
                    && w1.0.entries@ == w0.0.entries@),
            },
    {
        match &mut self.systems.weapons {
            Some(w) => {
                w.0.autofire = autofire;
                Ok(())
            },
            None => Err(ShipError::WeaponsNotInstalled),
        }
    }

    /// Whether the missiles on board cover every missile volley the weapons fire next.
    pub open spec fn missiles_suffice(&self) -> bool {
        match self.systems.weapons {
            Some(w) => missile_volleys(w.0.entries@) <= self.missiles,
            None => true,
        }
    }

    /// The number of missiles the weapons' next charging step uses up.
    pub fn missiles_needed(&self) -> (r: usize)
        requires
            self.wf(),
        ensures
            r == (match self.systems.weapons {
                Some(w) => missile_volleys(w.0.entries@),
                None => 0,
            }),
    {
        match &self.systems.weapons {
            Some(w) => w.0.missiles_needed(),
            None => 0,
        }
    }

    /// Advances every weapon's charge by one fixed update. Returns, if the weapons system is
    /// installed, the volley each weapon fired (by hardpoint), using up missiles for the volleys
    /// that need them.
    pub fn update_weapons(&mut self) -> (r: Option<Vec<Option<Volley<R, B>>>>)
        requires
            old(self).wf(),
            old(self).missiles_suffice(),
        ensures
            final(self).wf(),
            final(self).reactor == old(self).reactor,
            final(self).systems.shields == old(self).systems.shields,
            final(self).systems.engines == old(self).systems.engines,
            final(self).ship_type == old(self).ship_type,
            final(self).max_hull == old(self).max_hull,
            final(self).damage == old(self).damage,
            final(self).crew == old(self).crew,
            final(self).nav_mesh == old(self).nav_mesh,
            final(self).path_graph == old(self).path_graph,
            final(self).doors == old(self).doors,
            match old(self).systems.weapons {
                None => r is None && final(self).systems.weapons is None && final(self).missiles
                    == old(self).missiles,
                Some(w0) => (r matches Some(v) && v@ == w0.0.entries@.map_values(
                    |e: WeaponEntry<R, B>| e.fired(),
                )) && (final(self).systems.weapons matches Some(w1) && w1.1 == w0.1
                    && w1.0.status == w0.0.status && w1.0.autofire == w0.0.autofire
                    && w1.0.entries@ == w0.0.entries@.map_values(
                    |e: WeaponEntry<R, B>| e.after_charge(w0.0.autofire),
                )) && final(self).missiles == old(self).missiles - missile_volleys(w0.0.entries@),
            },
    {
        match &mut self.systems.weapons {
            Some(w) => Some(w.0.charge_and_fire_each(&mut self.missiles)),
            None => None,
        }
    }

    /// Whether the hull is destroyed: its damage has reached the hull's maximum.
    pub fn is_dead(&self) -> (r: bool)
        ensures
            r == (self.damage == self.max_hull),
    {
        self.damage == self.max_hull
    }

    /// The remaining hull integrity.
    pub fn hull(&self) -> (r: usize)
        requires
            self.wf(),
        ensures
            r == self.max_hull - self.damage,
    {
        self.max_hull - self.damage
    }

    /// Saves each crew member's occupied cell as its station.
    pub fn save_crew_stations(&mut self)
        requires
            old(self).wf(),
        ensures
            final(self).wf(),
            final(self).crew@.len() == old(self).crew@.len(),
            forall|i: int|
                0 <= i < old(self).crew@.len() ==> {
                    let c0 = #[trigger] old(self).crew@[i];
                    let c1 = final(self).crew@[i];
                    &&& c1.station == Some(c0.nav_status.occupied())
                    &&& c1.nav_status == c0.nav_status
                    &&& c1.race == c0.race
                    &&& c1.name == c0.name
                    &&& c1.health == c0.health
                    &&& c1.task == c0.task
                },
            final(self).ship_type == old(self).ship_type,
            final(self).reactor == old(self).reactor,
            final(self).systems == old(self).systems,
            final(self).max_hull == old(self).max_hull,
            final(self).damage == old(self).damage,
            final(self).missiles == old(self).missiles,
            final(self).nav_mesh == old(self).nav_mesh,
            final(self).path_graph == old(self).path_graph,
            final(self).doors == old(self).doors,
    {
        let mut i: usize = 0;
        while i < self.crew.len()
            invariant
                self.wf(),
                i <= self.crew@.len(),
                self.crew@.len() == old(self).crew@.len(),
                forall|j: int|
                    0 <= j < old(self).crew@.len() ==> {
                        let c0 = #[trigger] old(self).crew@[j];
                        let c1 = self.crew@[j];
                        &&& c1.station == (if j < i {
                            Some(c0.nav_status.occupied())
                        } else {
                            c0.station
                        })
                        &&& c1.nav_status == c0.nav_status
                        &&& c1.race == c0.race
                        &&& c1.name == c0.name
                        &&& c1.health == c0.health
                        &&& c1.task == c0.task
                    },
                self.ship_type == old(self).ship_type,
                self.reactor == old(self).reactor,
                self.systems == old(self).systems,
                self.max_hull == old(self).max_hull,
                self.damage == old(self).damage,
                self.missiles == old(self).missiles,
                self.nav_mesh == old(self).nav_mesh,
                self.path_graph == old(self).path_graph,
                self.doors == old(self).doors,
            decreases self.crew.len() - i,
        {
            proof {
                assert(self.crew_ok(self.crew@[i as int].nav_status));
            }
            let cell = self.crew[i].nav_status.occupied_cell();
            self.crew[i].station = Some(cell);
            i = i + 1;
        }
    }

    /// Routes the crew member with status `crew` to `target_cell` (see [`routed`]). Fails,
    /// changing nothing, if it stands on a cell from which `target_cell` cannot be reached (or
    /// stands on `target_cell` already).
    fn path_crew_to(
        path_graph: &PathGraph,
        nav_mesh: &NavMesh,
        crew: &mut CrewNavStatus,
        target_cell: Cell,
    ) -> (r: Result<(), ()>)
        requires
            path_graph.fits_mesh(*nav_mesh),
            path_graph.has_node(target_cell),
            forall|k: int, c: Cell|
                0 <= k < nav_mesh.section_seq().len() && #[trigger] nav_mesh.section_seq()[k].cell_seq().contains(c)
                    ==> path_graph.has_node(c),
            old(crew).valid(*nav_mesh),
            old(crew).valid_path(),
            on_mesh(*nav_mesh, *old(crew)),
        ensures
            final(crew).valid(*nav_mesh),
            final(crew).valid_path(),
            on_mesh(*nav_mesh, *final(crew)),
            r is Ok ==> path_graph.has_node(final(crew).occupied()),
            r is Ok <==> can_route(*path_graph, *old(crew), target_cell),
            r is Ok ==> routed(*path_graph, *nav_mesh, *old(crew), *final(crew), target_cell),
            r is Err ==> *final(crew) == *old(crew),
    {
        proof {
            lemma_reach_closed(*path_graph, target_cell);
        }
        let pathing = path_graph.pathing_to(target_cell);
        let location = crew.current_location();
        proof {
            pathing.lemma_heads_to_goal(*path_graph, target_cell);
        }
        let path = match nav_mesh.find_path(&pathing, location) {
            Some(p) => p,
            None => {
                proof {
                    if let CrewLocation::NavSection(sec) = location {
                        assert forall|i: int| 0 <= i < sec.cell_seq().len() implies !path_graph.reachable(
                            target_cell,
                            #[trigger] sec.cell_seq()[i],
                        ) by {
                            assert(!pathing.heads_to_goal(sec.cell_seq()[i]));
                        }
                    }
                }
                return Err(());
            },
        };
        let section = match location {
            CrewLocation::Cell(cell) => {
                proof {
                    pathing.lemma_route_from_cell(*path_graph, target_cell, path@, cell);
                    nav_mesh.lemma_section_symmetric(path@.last(), cell);
                }
                let next = match path.next_waypoint() {
                    Some(c) => c,
                    None => {
                        return Err(());
                    },
                };
                match nav_mesh.section_with_cells(cell, next) {
                    Some(s) => s,
                    None => {
                        return Err(());
                    },
                }
            },
            CrewLocation::NavSection(s) => s,
        };
        proof {
            let p = path@;
            let first = p.last();
            match location {
                CrewLocation::Cell(cell) => {
                    assert(planned_route(*path_graph, p, target_cell, first));
                },
                CrewLocation::NavSection(sec) => {
                    let i = choose|i: int|
                        pathing.is_first_nearest(sec.cell_seq(), i) && pathing.leads_from(
                            p,
                            #[trigger] sec.cell_seq()[i],
                        );
                    pathing.lemma_planned_route(*path_graph, target_cell, p, sec.cell_seq()[i]);
                    assert(crate::nav::first_nearest(*path_graph, target_cell, sec.cell_seq(), i));
                    if !path_graph.reachable(target_cell, first) {
                        assert(p.len() == 1);
                        assert(sec.cell_seq().contains(first));
                        let k = choose|k: int| 0 <= k < nav_mesh.section_seq().len() && nav_mesh.section_seq()[k] == sec;
                        assert(nav_mesh.section_seq()[k].cell_seq().contains(first));
                    }
                },
            }
            assert forall|i: int| #![trigger p[i]] 0 <= i < p.len() - 1 implies nav_mesh.first_section_with(
                p[i + 1],
                p[i],
            ) is Some by {
                assert(path_graph.edge(p[i], p[i + 1]));
                nav_mesh.lemma_section_symmetric(p[i], p[i + 1]);
            }
        }
        *crew = CrewNavStatus::Navigating(CrewNav { path, section });
        Ok(())
    }

    /// The outcome of [`ShipState::set_crew_goal`]: the checks it makes, in order.
    pub open spec fn crew_goal_result(&self, crew_index: usize, room_index: usize) -> Result<(), ShipError> {
        let rooms = self.rooms();
        if room_index >= rooms.len() {
            Err(ShipError::NoSuchRoom(room_index))
        } else if first_free(rooms[room_index as int], self.crew@) is None {
            Err(ShipError::RoomFullyOccupied(room_index))
        } else if crew_index >= self.crew@.len() {
            Err(ShipError::NoSuchCrew(crew_index))
        } else if first_room_with(rooms, self.crew@[crew_index as int].nav_status.occupied()) == Some(
            room_index,
        ) {
            Err(ShipError::AlreadyInRoom(room_index))
        } else if !can_route(
            self.path_graph,
            self.crew@[crew_index as int].nav_status,
            first_free(rooms[room_index as int], self.crew@).unwrap(),
        ) {
            Err(ShipError::Unreachable)
        } else {
            Ok(())
        }
    }

    /// Whether no crew member occupies `cell`.
    fn cell_free(&self, cell: Cell) -> (r: bool)
        requires
            self.wf(),
        ensures
            r == !occupied_by(self.crew@, cell),
    {
        let mut i: usize = 0;
        while i < self.crew.len()
            invariant
                self.wf(),
                i <= self.crew@.len(),
                forall|j: int| 0 <= j < i ==> (#[trigger] self.crew@[j]).nav_status.occupied() != cell,
            decreases self.crew.len() - i,
        {
            proof {
                assert(self.crew_ok(self.crew@[i as int].nav_status));
            }
            if self.crew[i].nav_status.occupied_cell() == cell {
                proof {
                    reveal(occupied_by);
                }
                return false;
            }
            i = i + 1;
        }
        proof {
            reveal(occupied_by);
        }
        true
    }

    /// The first cell of `cells` that no crew member occupies, if any.
    fn first_free_cell(&self, cells: &Vec<Cell>) -> (r: Option<Cell>)
        requires
            self.wf(),
        ensures
            r == first_free(cells@, self.crew@),
    {
        let mut j: usize = 0;
        while j < cells.len()
            invariant
                self.wf(),
                j <= cells@.len(),
                forall|k: int| 0 <= k < j ==> occupied_by(self.crew@, #[trigger] cells@[k]),
            decreases cells.len() - j,
        {
            if self.cell_free(cells[j]) {
                let ghost m = choose|m: int|
                    0 <= m < cells@.len() && !occupied_by(self.crew@, cells@[m]) && forall|k: int|
                        0 <= k < m ==> occupied_by(self.crew@, #[trigger] cells@[k]);
                proof {
                    reveal(first_free);
                    assert(!occupied_by(self.crew@, cells@[j as int]));
                    if m < j {
                        assert(occupied_by(self.crew@, cells@[m]));
                    }
                    if m > j {
                        assert(occupied_by(self.crew@, cells@[j as int]));
                    }
                }
                return Some(cells[j]);
            }
            j = j + 1;
        }
        proof {
            reveal(first_free);
        }
        None
    }

    /// The cell [`ShipState::set_crew_goal`] sends crew member `crew_index` to, or why it
    /// refuses, short of trying to route it.
    fn crew_goal_target(&self, crew_index: usize, room_index: usize) -> (r: Result<Cell, ShipError>)
        requires
            self.wf(),
        ensures
            match r {
                Ok(target) => {
                    &&& self.crew_goal_result(crew_index, room_index) == (if can_route(
                        self.path_graph,
                        self.crew@[crew_index as int].nav_status,
                        target,
                    ) {
                        Ok::<(), ShipError>(())
                    } else {
                        Err(ShipError::Unreachable)
                    })
                    &&& room_index < self.rooms().len()
                    &&& crew_index < self.crew@.len()
                    &&& target == first_free(self.rooms()[room_index as int], self.crew@).unwrap()
                    &&& self.path_graph.has_node(target)
                },
                Err(e) => self.crew_goal_result(crew_index, room_index) == Err::<(), ShipError>(e),
            },
    {
        let layouts = ships();
        let layout = &layouts[self.ship_type];
        proof {
            assert(layout.room_cells() == self.rooms());
        }
        if room_index >= layout.rooms.len() {
            return Err(ShipError::NoSuchRoom(room_index));
        }
        let target = match self.first_free_cell(&layout.rooms[room_index].cells) {
            Some(c) => c,
            None => {
                return Err(ShipError::RoomFullyOccupied(room_index));
            },
        };
        if crew_index >= self.crew.len() {
            return Err(ShipError::NoSuchCrew(crew_index));
        }
        proof {
            assert(self.crew_ok(self.crew@[crew_index as int].nav_status));
        }
        let occupied = self.crew[crew_index].nav_status.occupied_cell();
        if layout.cell_room(occupied) == Some(room_index) {
            return Err(ShipError::AlreadyInRoom(room_index));
        }
        proof {
            self.lemma_layout();
            let cells = self.rooms()[room_index as int];
            lemma_first_free_in(cells, self.crew@);
            assert(cells.contains(target));
        }
        Ok(target)
    }

    /// Sends crew member `crew_index` to the first free cell of room `room_index` (see
    /// [`routed`]). Refused, changing nothing, if the room does not exist or is full, the crew
    /// member does not exist or already occupies a cell of the room, or it cannot reach the
    /// cell.
    pub fn set_crew_goal(&mut self, crew_index: usize, room_index: usize) -> (r: Result<(), ShipError>)
        requires
            old(self).wf(),
        ensures
            final(self).wf(),
            r == old(self).crew_goal_result(crew_index, room_index),
            r is Err ==> old(self).same_but_power(&*final(self)) && final(self).reactor == old(self).reactor && final(self).systems == old(self).systems,
            r is Ok ==> {
                &&& final(self).crew@.len() == old(self).crew@.len()
                &&& forall|i: int|
                    0 <= i < old(self).crew@.len() && i != crew_index ==> #[trigger] final(self).crew@[i]
                        == old(self).crew@[i]
                &&& routed(
                    old(self).path_graph,
                    old(self).nav_mesh,
                    old(self).crew@[crew_index as int].nav_status,
                    final(self).crew@[crew_index as int].nav_status,
                    first_free(old(self).rooms()[room_index as int], old(self).crew@).unwrap(),
                )
                &&& final(self).crew@[crew_index as int].station == old(self).crew@[crew_index as int].station
                &&& final(self).crew@[crew_index as int].race == old(self).crew@[crew_index as int].race
                &&& final(self).crew@[crew_index as int].name == old(self).crew@[crew_index as int].name
                &&& final(self).crew@[crew_index as int].health == old(self).crew@[crew_index as int].health
                &&& final(self).crew@[crew_index as int].task == old(self).crew@[crew_index as int].task
                &&& final(self).ship_type == old(self).ship_type
                &&& final(self).reactor == old(self).reactor
                &&& final(self).systems == old(self).systems
                &&& final(self).max_hull == old(self).max_hull
                &&& final(self).damage == old(self).damage
                &&& final(self).missiles == old(self).missiles
                &&& final(self).nav_mesh == old(self).nav_mesh
                &&& final(self).path_graph == old(self).path_graph
                &&& final(self).doors == old(self).doors
            },
    {
        let target = match self.crew_goal_target(crew_index, room_index) {
            Ok(t) => t,
            Err(e) => {
                return Err(e);
            },
        };
        proof {
            self.lemma_layout();
            assert(self.crew_ok(self.crew@[crew_index as int].nav_status));
        }
        let ghost s0 = *self;
        match Self::path_crew_to(
            &self.path_graph,
            &self.nav_mesh,
            &mut self.crew[crew_index].nav_status,
            target,
        ) {
            Ok(()) => {
                proof {
                    s0.lemma_crew_status(self, crew_index as int);
                }
                Ok(())
            },
            Err(()) => {
                proof {
                    assert(self.crew@ =~= s0.crew@);
                }
                Err(ShipError::Unreachable)
            },
        }
    }

    /// The damaged system that a crew member with status `s` repairs: one standing in the room
    /// housing it.
    pub open spec fn repair_target(&self, s: CrewNavStatus) -> Option<SystemId> {
        match s {
            CrewNavStatus::At(c) => match first_room_with(self.rooms(), c) {
                Some(room) => match self.systems.room_system(room) {
                    Some(system) => if self.systems.status(system).unwrap().damage > 0 {
                        Some(system)
                    } else {
                        None
                    },
                    None => None,
                },
                None => None,
            },
            CrewNavStatus::Navigating(_) => None,
        }
    }

    /// A crew member standing on a cell of the room that houses a system repairs it whenever it
    /// is damaged at all, up to and including destroyed; standing by an undamaged system, or
    /// walking, it repairs nothing.
    pub proof fn lemma_standing_crew_repair(&self, cell: Cell, room: usize, system: SystemId, nav: CrewNav)
        requires
            first_room_with(self.rooms(), cell) == Some(room),
            self.systems.room_system(room) == Some(system),
            self.systems.status(system) is Some,
        ensures
            self.systems.status(system).unwrap().damage > 0 ==> self.repair_target(CrewNavStatus::At(cell))
                == Some(system),
            self.systems.status(system).unwrap().damage == 0 ==> self.repair_target(CrewNavStatus::At(cell))
                is None,
            self.repair_target(CrewNavStatus::Navigating(nav)) is None,
    {
    }

    /// Advances every crew member by one fixed update step (see [`nav_stepped`]), given whether
    /// each `arrived` at its next waypoint. Returns, for each crew member, the damaged system it
    /// repairs now (see [`ShipState::repair_target`]).
    pub fn update_crew(&mut self, arrived: &Vec<bool>) -> (r: Vec<Option<SystemId>>)
        requires
            old(self).wf(),
            arrived@.len() == old(self).crew@.len(),
        ensures
            final(self).wf(),
            final(self).crew@.len() == old(self).crew@.len(),
            forall|i: int|
                0 <= i < old(self).crew@.len() ==> {
                    let c0 = #[trigger] old(self).crew@[i];
                    let c1 = final(self).crew@[i];
                    &&& nav_stepped(old(self).nav_mesh, c0.nav_status, c1.nav_status, arrived@[i])
                    &&& c1.station == c0.station
                    &&& c1.race == c0.race
                    &&& c1.name == c0.name
                    &&& c1.health == c0.health
                    &&& c1.task == c0.task
                },
            r@.len() == old(self).crew@.len(),
            forall|i: int|
                0 <= i < r@.len() ==> #[trigger] r@[i] == final(self).repair_target(
                    final(self).crew@[i].nav_status,
                ),
            final(self).ship_type == old(self).ship_type,
            final(self).reactor == old(self).reactor,
            final(self).systems == old(self).systems,
            final(self).max_hull == old(self).max_hull,
            final(self).damage == old(self).damage,
            final(self).missiles == old(self).missiles,
            final(self).nav_mesh == old(self).nav_mesh,
            final(self).path_graph == old(self).path_graph,
            final(self).doors == old(self).doors,
    {
        let layouts = ships();
        let layout = &layouts[self.ship_type];
        proof {
            assert(layout.room_cells() == self.rooms());
            self.lemma_layout();
        }
        let mut repairs: Vec<Option<SystemId>> = Vec::new();
        let mut i: usize = 0;
        while i < self.crew.len()
            invariant
                self.wf(),
                layout.room_cells() == self.rooms(),
                forall|c: Cell| #[trigger] self.path_graph.has_node(c) ==> first_room_with(self.rooms(), c) is Some,
                arrived@.len() == old(self).crew@.len(),
                i <= self.crew@.len(),
                self.crew@.len() == old(self).crew@.len(),
                repairs@.len() == i,
                forall|j: int|
                    0 <= j < old(self).crew@.len() ==> {
                        let c0 = #[trigger] old(self).crew@[j];
                        let c1 = self.crew@[j];
                        &&& (if j < i {
                            nav_stepped(old(self).nav_mesh, c0.nav_status, c1.nav_status, arrived@[j])
                        } else {
                            c1.nav_status == c0.nav_status
                        })
                        &&& c1.station == c0.station
                        &&& c1.race == c0.race
                        &&& c1.name == c0.name
                        &&& c1.health == c0.health
                        &&& c1.task == c0.task
                    },
                forall|j: int|
                    0 <= j < i ==> #[trigger] repairs@[j] == self.repair_target(self.crew@[j].nav_status),
                self.ship_type == old(self).ship_type,
                self.reactor == old(self).reactor,
                self.systems == old(self).systems,
                self.max_hull == old(self).max_hull,
                self.damage == old(self).damage,
                self.missiles == old(self).missiles,
                self.nav_mesh == old(self).nav_mesh,
                self.path_graph == old(self).path_graph,
                self.doors == old(self).doors,
            decreases self.crew.len() - i,
        {
            let ghost s0 = *self;
            proof {
                assert(self.crew_ok(self.crew@[i as int].nav_status));
            }
            self.crew[i].nav_status.step(&self.nav_mesh, arrived[i]);
            proof {
                s0.lemma_crew_status(self, i as int);
            }
            let repair = match self.crew[i].nav_status {
                CrewNavStatus::At(cell) => {
                    proof {
                        assert(self.crew_ok(self.crew@[i as int].nav_status));
                    }
                    match layout.cell_room(cell) {
                        Some(room) => match self.systems.system_in_room(room) {
                            Some(system) => {
                                proof {
                                    assert(self.systems.installed(system));
                                }
                                match self.systems.system_status(system) {
                                    Some(status) => if status.damage > 0 {
                                        Some(system)
                                    } else {
                                        None
                                    },
                                    None => None,
                                }
                            },
                            None => None,
                        },
                        None => None,
                    }
                },
                CrewNavStatus::Navigating(_) => None,
            };
            repairs.push(repair);
            i = i + 1;
        }
        repairs
    }
}

impl<R: Copy, B: Copy, H> ShipState<R, B, H> {
    /// Whether `system` is installed, and no cell of `crew_cells` lies in its room.
    pub open spec fn unattended(&self, crew_cells: Seq<Cell>, system: SystemId) -> bool {
        match self.systems.spec_room(system) {
            Some(room) => !(room < self.rooms().len() && exists|k: int|
                0 <= k < crew_cells.len() && self.rooms()[room as int].contains(#[trigger] crew_cells[k])),
            None => false,
        }
    }

    /// Whether system `s` is unattended (see [`ShipState::unattended`]), as a predicate.
    pub open spec fn unattended_pred(&self, crew_cells: Seq<Cell>) -> spec_fn(SystemId) -> bool {
        |s: SystemId| self.unattended(crew_cells, s)
    }

    /// The installed systems whose room holds no crew member, given the cell each crew member
    /// stands in (see [`CrewNavStatus::current_cell`]), in declaration order: the repairs under
    /// way on them are to be dropped.
    pub fn update_repair_status(&self, crew_cells: &Vec<Cell>) -> (r: Vec<SystemId>)
        requires
            self.wf(),
        ensures
            r@ == all_systems().filter(self.unattended_pred(crew_cells@)),
            forall|s: SystemId| r@.contains(s) <==> self.unattended(crew_cells@, s),
            r@.no_duplicates(),
    {
        let layouts = ships();
        let layout = &layouts[self.ship_type];
        proof {
            assert(layout.room_cells() == self.rooms());
        }
        let all = SystemId::all();
        let mut r: Vec<SystemId> = Vec::new();
        let mut i: usize = 0;
        proof {
            reveal(Seq::filter);
            assert(all_systems().take(0) =~= Seq::<SystemId>::empty());
        }
        while i < all.len()
            invariant
                all@ == all_systems(),
                i <= all@.len(),
                layout.room_cells() == self.rooms(),
                forall|s: SystemId|
                    r@.contains(s) <==> (all_systems().take(i as int).contains(s) && self.unattended(
                        crew_cells@,
                        s,
                    )),
                forall|k: int| 0 <= k < r@.len() ==> all_systems().take(i as int).contains(#[trigger] r@[k]),
                r@.no_duplicates(),
                r@ == all_systems().take(i as int).filter(self.unattended_pred(crew_cells@)),
            decreases all.len() - i,
        {
            let s = all[i];
            proof {
                reveal(Seq::filter);
                assert(all_systems().take(i + 1).drop_last() =~= all_systems().take(i as int));
                assert(all_systems().take(i + 1).last() == s);
            }
            let attended = match self.systems.system_room(s) {
                Some(room) => if room < layout.rooms.len() {
                    any_in_room(&layout.rooms[room], crew_cells)
                } else {
                    false
                },
                None => true,
            };
            let ghost r0 = r@;
            proof {
                if let Some(room) = self.systems.spec_room(s) {
                    if room < self.rooms().len() {
                        assert(layout.rooms@[room as int].cells@ == self.rooms()[room as int]);
                    }
                }
                assert(attended == !self.unattended(crew_cells@, s));
                assert(all_systems().take(i + 1) =~= all_systems().take(i as int).push(s));
                assert forall|t: SystemId| all_systems().take(i + 1).contains(t) <==> (all_systems().take(
                    i as int,
                ).contains(t) || t == s) by {
                    let a = all_systems().take(i as int);
                    if a.push(s).contains(t) {
                        let q = choose|q: int| 0 <= q < a.push(s).len() && a.push(s)[q] == t;
                        if q < a.len() {
                            assert(a[q] == t);
                        }
                    }
                    if a.contains(t) {
                        let q = choose|q: int| 0 <= q < a.len() && a[q] == t;
                        assert(a.push(s)[q] == t);
                    }
                    if t == s {
                        assert(a.push(s)[i as int] == t);
                    }
                }
                assert(!all_systems().take(i as int).contains(s)) by {
                    if all_systems().take(i as int).contains(s) {
                        let q = choose|q: int| 0 <= q < i && all_systems().take(i as int)[q] == s;
                        assert(all_systems()[q] == all_systems()[i as int]);
                    }
                }
            }
            if !attended {
                r.push(s);
                proof {
                    assert forall|t: SystemId| r@.contains(t) <==> (r0.contains(t) || t == s) by {
                        if r@.contains(t) {
                            let q = choose|q: int| 0 <= q < r@.len() && r@[q] == t;
                            if q < r0.len() {
                                assert(r0[q] == t);
                            }
                        }
                        if r0.contains(t) {
                            let q = choose|q: int| 0 <= q < r0.len() && r0[q] == t;
                            assert(r@[q] == t);
                        }
                        if t == s {
                            assert(r@[r0.len() as int] == t);
                        }
                    }
                    assert(!r0.contains(s));
                }
            }
            proof {
                assert forall|t: SystemId| r@.contains(t) <==> (all_systems().take(i + 1).contains(t)
                    && self.unattended(crew_cells@, t)) by {
                    if t != s {
                        assert(r@.contains(t) == r0.contains(t));
                    }
                }
            }
            i = i + 1;
        }
        proof {
            assert(all_systems().take(3) =~= all_systems());
            assert forall|s: SystemId| all_systems().contains(s) by {
                match s {
                    SystemId::Shields => assert(all_systems()[0] == s),
                    SystemId::Weapons => assert(all_systems()[1] == s),
                    SystemId::Engines => assert(all_systems()[2] == s),
                }
            }
        }
        r
    }
}

/// Whether any cell of `cells` lies in `room`.
fn any_in_room(room: &Room, cells: &Vec<Cell>) -> (r: bool)
    ensures
        r == exists|k: int| 0 <= k < cells@.len() && room.cells@.contains(#[trigger] cells@[k]),
{
    let mut k: usize = 0;
    while k < cells.len()
        invariant
            k <= cells@.len(),
            forall|j: int| 0 <= j < k ==> !room.cells@.contains(#[trigger] cells@[j]),
        decreases cells.len() - k,
    {
        if room.has_cell(cells[k]) {
            return true;
        }
        k = k + 1;
    }
    false
}

/// Whether `system` is installed in `room` at upgrade level `level`, undamaged, without power,
/// and otherwise as freshly installed.
pub open spec fn fresh_at<R: Copy, B: Copy>(
    systems: ShipSystems<R, B>,
    system: SystemId,
    room: usize,
    level: usize,
) -> bool {
    &&& systems.spec_room(system) == Some(room)
    &&& systems.status(system) == Some(crate::systems::SystemStatus { upgrade_level: level, damage: 0 })
    &&& systems.power(system) == 0
    &&& systems.fresh(system)
}

/// The ship each player starts with: the first layout with a reactor of 8; shields, weapons and
/// engines installed in the rooms `system_rooms` gives (in that order) and upgraded to level 4;
/// three crew members at full health (Fish, Virus and Stick, standing on cells 2, 6 and 10);
/// and a heavy laser, a burst laser and a pike beam on the weapons' hardpoints.
pub fn default_ship_state<R: Copy, B: Copy, H: Copy>(full_health: H, system_rooms: [usize; 3]) -> (r:
    ShipState<R, B, H>)
    ensures
        r.wf(),
        r.ship_type == 0,
        r.reactor.upgrade_level == 8,
        r.reactor.available == 8,
        r.max_hull == 30,
        r.damage == 0,
        r.missiles == 10,
        r.systems.shields matches Some(s) && s.1 == system_rooms[0] && s.0.status.upgrade_level == 4
            && s.0.status.damage == 0 && s.0.current_power == 0 && s.0.layers == 0,
        r.systems.weapons matches Some(w) && w.1 == system_rooms[1] && w.0.status.upgrade_level == 4
            && w.0.status.damage == 0 && !w.0.autofire && w.0.entries@.len() == 3 && w.0.entries@[0].spec_weapon()
            == WeaponId::Projectile(crate::weapon::ProjectileWeaponId(0)) && w.0.entries@[1].spec_weapon()
            == WeaponId::Projectile(crate::weapon::ProjectileWeaponId(2)) && w.0.entries@[2].spec_weapon()
            == WeaponId::Beam(crate::weapon::BeamWeaponId(0)) && (forall|k: int|
            0 <= k < 3 ==> !(#[trigger] w.0.entries@[k]).spec_powered() && w.0.entries@[k].spec_charge() == 0),
        r.systems.engines matches Some(e) && e.1 == system_rooms[2] && e.0.status.upgrade_level == 4
            && e.0.status.damage == 0 && e.0.current_power == 0,
        r.crew@.len() == 3,
        r.doors@ == Seq::<bool>::empty(),
        r.crew@[0].name@ == "Fish"@ && r.crew@[0].nav_status == CrewNavStatus::At(Cell(2)),
        r.crew@[1].name@ == "Virus"@ && r.crew@[1].nav_status == CrewNavStatus::At(Cell(6)),
        r.crew@[2].name@ == "Stick"@ && r.crew@[2].nav_status == CrewNavStatus::At(Cell(10)),
        forall|k: int|
            0 <= k < 3 ==> {
                let c = #[trigger] r.crew@[k];
                &&& c.race == 0
                &&& c.health == full_health
                &&& c.task == CrewTask::Idle
                &&& c.station is None
            },
{
    let mut ship: ShipState<R, B, H> = ShipState::new();
    let mut n: usize = 0;
    while n < 8
        invariant
            ship.wf(),
            ship.doors@ == Seq::<bool>::empty(),
            n <= 8,
            ship.reactor.upgrade_level == n,
            ship.reactor.available == n,
            ship.systems.shields is None,
            ship.systems.engines is None,
            ship.systems.weapons is None,
            ship.ship_type == 0,
            ship.max_hull == 30,
            ship.damage == 0,
            ship.crew@.len() == 0,
            ship.missiles == 10,
        decreases 8 - n,
    {
        ship.reactor.upgrade();
        n = n + 1;
    }
    let all = SystemId::all();
    let mut i: usize = 0;
    while i < all.len()
        invariant
            ship.wf(),
            ship.doors@ == Seq::<bool>::empty(),
            all@ == crate::ship::all_systems(),
            i <= 3,
            ship.reactor.upgrade_level == 8,
            ship.reactor.available == 8,
            ship.ship_type == 0,
            ship.max_hull == 30,
            ship.damage == 0,
            ship.crew@.len() == 0,
            ship.missiles == 10,
            ship.systems.installed(SystemId::Shields) == (i > 0),
            ship.systems.installed(SystemId::Weapons) == (i > 1),
            ship.systems.installed(SystemId::Engines) == (i > 2),
            forall|j: int|
                0 <= j < i ==> fresh_at(ship.systems, #[trigger] all@[j], system_rooms[j], 1),
        decreases 3 - i,
    {
        let system = all[i];
        let room = system_rooms[i];
        let _ = ship.install_system(system, room);
        i = i + 1;
    }
    proof {
        assert(fresh_at(ship.systems, all@[0], system_rooms[0], 1));
        assert(fresh_at(ship.systems, all@[1], system_rooms[1], 1));
        assert(fresh_at(ship.systems, all@[2], system_rooms[2], 1));
        reveal(first_ship_rooms);
        ship.lemma_layout();
        assert(ship.rooms()[1][0] == Cell(2));
        assert(ship.rooms()[2][0] == Cell(6));
        assert(ship.rooms()[3][0] == Cell(10));
        assert(ship.path_graph.has_node(Cell(2)));
        assert(ship.path_graph.has_node(Cell(6)));
        assert(ship.path_graph.has_node(Cell(10)));
    }
    ship.crew.push(
        Crew {
            race: 0,
            name: "Fish".to_owned(),
            nav_status: CrewNavStatus::At(Cell(2)),
            health: full_health,
            task: CrewTask::Idle,
            station: None,
        },
    );
    ship.crew.push(
        Crew {
            race: 0,
            name: "Virus".to_owned(),
            nav_status: CrewNavStatus::At(Cell(6)),
            health: full_health,
            task: CrewTask::Idle,
            station: None,
        },
    );
    ship.crew.push(
        Crew {
            race: 0,
            name: "Stick".to_owned(),
            nav_status: CrewNavStatus::At(Cell(10)),
            health: full_health,
            task: CrewTask::Idle,
            station: None,
        },
    );
    proof {
        assert(ship.wf());
    }
    let ghost crew0 = ship.crew@;
    let mut k: usize = 0;
    while k < 3
        invariant
            ship.wf(),
            ship.doors@ == Seq::<bool>::empty(),
            k <= 3,
            ship.reactor.upgrade_level == 8,
            ship.reactor.available == 8,
            ship.ship_type == 0,
            ship.max_hull == 30,
            ship.damage == 0,
            ship.missiles == 10,
            ship.crew@ == crew0,
            fresh_at(ship.systems, SystemId::Shields, system_rooms[0], (1 + k) as usize),
            fresh_at(ship.systems, SystemId::Weapons, system_rooms[1], (1 + k) as usize),
            fresh_at(ship.systems, SystemId::Engines, system_rooms[2], (1 + k) as usize),
        decreases 3 - k,
    {
        ship.systems.upgrade(SystemId::Shields);
        ship.systems.upgrade(SystemId::Engines);
        ship.systems.upgrade(SystemId::Weapons);
        k = k + 1;
    }
    match &mut ship.systems.weapons {
        Some(w) => {
            w.0.install_weapon(0, Weapon::new(heavy_laser()));
            w.0.install_weapon(1, Weapon::new(burst_laser_mk_i()));
            w.0.install_weapon(2, Weapon::new(pike_beam()));
        },
        None => {},
    }
    ship
}

impl<R: Copy, B: Copy, H> ShipState<R, B, H> {
    /// Whether rooms `a` and `b` of the ship are joined (see [`rooms_joined`]).
    pub open spec fn joined(&self, a: int, b: int) -> bool {
        rooms_joined(self.rooms(), layout_graph(self.ship_type), a, b)
    }

    /// Whether `w` is a walk through the ship's rooms, each joined to the one before.
    pub open spec fn room_walk(&self, w: Seq<int>) -> bool {
        &&& w.len() >= 1
        &&& forall|i: int| #![trigger w[i]] 0 <= i < w.len() - 1 ==> self.joined(w[i], w[i + 1])
    }

    /// Whether some walk through the ship's rooms leads from room `a` to room `b`.
    #[verifier::opaque]
    pub open spec fn rooms_connected(&self, a: int, b: int) -> bool {
        exists|w: Seq<int>| #[trigger] self.room_walk(w) && w[0] == a && w.last() == b
    }

    /// Whether some walk through the ship's rooms leads from room `a` to room `b` in `n` steps.
    #[verifier::opaque]
    pub open spec fn room_walk_of_len(&self, a: int, b: int, n: nat) -> bool {
        exists|w: Seq<int>| #[trigger] self.room_walk(w) && w[0] == a && w.last() == b && w.len() == n + 1
    }

    /// The rooms that a breadth-first search through joined rooms takes, in order, once it has
    /// `queue` still to take and has met the rooms `visited`: it takes the first room of the
    /// queue and queues the rooms joined to it that it has not met, in increasing order.
    pub closed spec fn bfs_rest(&self, queue: Seq<int>, visited: Set<int>) -> Seq<int>
        decreases
            vstd::set_lib::set_int_range(0, self.rooms().len() as int).difference(visited).len(),
            queue.len(),
    {
        if queue.len() == 0 {
            seq![]
        } else {
            let n = self.rooms().len() as int;
            let new = room_ints(
                fresh_rooms(joined_below(self.rooms(), layout_graph(self.ship_type), queue[0], n), visited),
            );
            if new.len() == 0 {
                seq![queue[0]] + self.bfs_rest(queue.drop_first(), visited)
            } else {
                proof {
                    lemma_layout_rooms_len(self.ship_type);
                    let s = joined_below(self.rooms(), layout_graph(self.ship_type), queue[0], n);
                    lemma_fresh_rooms(s, visited);
                    lemma_joined_below_increasing(self.rooms(), layout_graph(self.ship_type), queue[0], n);
                    let f = fresh_rooms(s, visited);
                    assert(s.contains(f[0]));
                    let j = choose|j: int| 0 <= j < s.len() && s[j] == f[0];
                    assert(new[0] == f[0] as int);
                    assert(new.to_set().contains(new[0]));
                    lemma_unvisited_shrinks(n, visited, new.to_set(), new[0]);
                }
                seq![queue[0]] + self.bfs_rest(queue.drop_first() + new, visited + new.to_set())
            }
        }
    }

    /// One step of the breadth-first search: it takes the first room of the queue and queues
    /// the rooms joined to it that it has not met.
    proof fn lemma_bfs_step(&self, queue: Seq<int>, visited: Set<int>)
        requires
            queue.len() > 0,
        ensures
            ({
                let new = room_ints(
                    fresh_rooms(
                        joined_below(self.rooms(), layout_graph(self.ship_type), queue[0], self.rooms().len() as int),
                        visited,
                    ),
                );
                self.bfs_rest(queue, visited) == seq![queue[0]] + self.bfs_rest(
                    queue.drop_first() + new,
                    visited + new.to_set(),
                )
            }),
    {
        let new = room_ints(
            fresh_rooms(
                joined_below(self.rooms(), layout_graph(self.ship_type), queue[0], self.rooms().len() as int),
                visited,
            ),
        );
        if new.len() == 0 {
            assert(queue.drop_first() + new =~= queue.drop_first());
            assert(visited + new.to_set() =~= visited);
        }
    }

    /// The rooms in the order a breadth-first search from room `from` takes them.
    pub open spec fn bfs_rooms(&self, from: int) -> Seq<int> {
        self.bfs_rest(seq![from], set![from])
    }

    /// Whether `c` is the first cell that suits crew member `me` (see [`ShipState::suits`]) in
    /// the first room with such a cell that a breadth-first search from room `from` takes.
    pub open spec fn first_found(&self, from: int, me: int, reachable_only: bool, c: Cell) -> bool {
        exists|k: int|
            0 <= k < self.bfs_rooms(from).len() && #[trigger] self.first_suitable_in(
                self.bfs_rooms(from)[k],
                me,
                reachable_only,
                c,
            ) && forall|j: int|
                0 <= j < k ==> !self.room_suits(#[trigger] self.bfs_rooms(from)[j], me, reachable_only)
    }

    /// Whether `c` is the first cell of room `rr` that suits crew member `me`.
    pub open spec fn first_suitable_in(&self, rr: int, me: int, reachable_only: bool, c: Cell) -> bool {
        &&& 0 <= rr < self.rooms().len()
        &&& self.suits(me, c, reachable_only)
        &&& exists|k: int|
            0 <= k < self.rooms()[rr].len() && self.rooms()[rr][k] == c && forall|k2: int|
                0 <= k2 < k ==> !self.suits(me, #[trigger] self.rooms()[rr][k2], reachable_only)
    }

    /// Whether `c` is the first cell of room `rr` that suits crew member `me` (see
    /// [`ShipState::suits`]), and `rr` is one of the rooms with such a cell that the fewest steps
    /// through joined rooms lead to from room `from`.
    #[verifier::opaque]
    pub open spec fn nearest_suitable(&self, from: int, rr: int, me: int, reachable_only: bool, c: Cell) -> bool {
        &&& 0 <= rr < self.rooms().len()
        &&& self.suits(me, c, reachable_only)
        &&& exists|k: int|
            0 <= k < self.rooms()[rr].len() && self.rooms()[rr][k] == c && forall|k2: int|
                0 <= k2 < k ==> !self.suits(me, #[trigger] self.rooms()[rr][k2], reachable_only)
        &&& exists|d: nat|
            self.room_walk_of_len(from, rr, d) && forall|r2: int, m: nat|
                #[trigger] self.room_suits(r2, me, reachable_only) && #[trigger] self.room_walk_of_len(from, r2, m)
                    ==> d <= m
    }

    /// Whether `c` is the first cell that suits crew member `me` in one of the rooms with such a
    /// cell nearest to room `from` (see [`ShipState::nearest_suitable`]).
    pub open spec fn nearest_cell(&self, from: int, me: int, reachable_only: bool, c: Cell) -> bool {
        exists|rr: int| #[trigger] self.nearest_suitable(from, rr, me, reachable_only, c)
    }

    /// In a breadth-first search from room `room` that has just taken `current`, with label
    /// `d`, off its queue: a walk from `room` whose rooms up to `w[j]` are processed, with
    /// `w[j]` labelled at most `j`, and which ends in an unprocessed room, has at least `d` steps.
    proof fn lemma_nearest_scan(
        &self,
        room: int,
        dist: Map<int, nat>,
        processed: Set<int>,
        rest: Seq<usize>,
        current: int,
        d: nat,
        w: Seq<int>,
        j: int,
    )
        requires
            self.room_walk(w),
            w[0] == room,
            0 <= j < w.len(),
            !processed.contains(w.last()),
            forall|i: int| 0 <= i < j ==> processed.contains(#[trigger] w[i]),
            dist.contains_key(w[j]),
            dist[w[j]] <= j,
            forall|x: int|
                #[trigger] dist.contains_key(x) ==> processed.contains(x) || rest.contains(x as usize)
                    || x == current,
            forall|x: int, y: int|
                #[trigger] processed.contains(x) && #[trigger] self.joined(x, y) ==> dist.contains_key(y)
                    && dist[y] <= dist[x] + 1,
            forall|i: int| 0 <= i < rest.len() ==> d <= dist[#[trigger] rest[i] as int],
            forall|x: int| #[trigger] dist.contains_key(x) ==> 0 <= x <= usize::MAX,
            dist.contains_key(current),
            dist[current] == d,
        ensures
            d <= w.len() - 1,
        decreases w.len() - j,
    {
        if !processed.contains(w[j]) {
            if w[j] != current {
                assert(rest.contains(w[j] as usize));
                let i = choose|i: int| 0 <= i < rest.len() && rest[i] == w[j] as usize;
                assert(rest[i] as int == w[j]);
            }
        } else {
            assert(j < w.len() - 1);
            assert(self.joined(w[j], w[j + 1]));
            self.lemma_nearest_scan(room, dist, processed, rest, current, d, w, j + 1);
        }
    }

    /// Whether `cell` suits crew member `me` as a place to go: no other crew member occupies it
    /// and, if `reachable_only`, `me` can be routed to it (see [`can_route`]).
    pub open spec fn suits(&self, me: int, cell: Cell, reachable_only: bool) -> bool {
        &&& reachable_only ==> can_route(self.path_graph, self.crew@[me].nav_status, cell)
        &&& !occupied_by_other(self.crew@, me, cell)
    }

    /// Whether room `r` has a cell that suits crew member `me` (see [`ShipState::suits`]).
    #[verifier::opaque]
    pub open spec fn room_suits(&self, r: int, me: int, reachable_only: bool) -> bool {
        exists|c: Cell| #[trigger] self.rooms()[r].contains(c) && self.suits(me, c, reachable_only)
    }

    /// Whether crew member `me` can be routed to `cell` (see [`can_route`]): plans the routes to
    /// `cell` and looks for one from where `me` is.
    fn can_reach(&self, me: usize, cell: Cell) -> (r: bool)
        requires
            self.wf(),
            me < self.crew@.len(),
            self.path_graph.has_node(cell),
        ensures
            r == can_route(self.path_graph, self.crew@[me as int].nav_status, cell),
    {
        proof {
            self.lemma_layout();
            lemma_reach_closed(self.path_graph, cell);
        }
        let pathing = self.path_graph.pathing_to(cell);
        let location = self.crew[me].nav_status.current_location();
        let found = self.nav_mesh.find_path(&pathing, location);
        proof {
            pathing.lemma_heads_to_goal(self.path_graph, cell);
            if let CrewNavStatus::Navigating(nav) = self.crew@[me as int].nav_status {
                let cells = nav.section.cell_seq();
                if let Some(p) = &found {
                    let i = choose|i: int| pathing.is_first_nearest(cells, i) && pathing.leads_from(
                        p@,
                        #[trigger] cells[i],
                    );
                    assert(self.path_graph.reachable(cell, cells[i]));
                } else {
                    assert forall|i: int| 0 <= i < cells.len() implies !self.path_graph.reachable(cell, #[trigger] cells[i]) by {
                        assert(!pathing.heads_to_goal(cells[i]));
                    }
                }
            }
        }
        found.is_some()
    }

    /// Whether no crew member other than `me` occupies `cell`.
    fn clear_besides(&self, me: usize, cell: Cell) -> (r: bool)
        requires
            self.wf(),
        ensures
            r == !occupied_by_other(self.crew@, me as int, cell),
    {
        let mut i: usize = 0;
        while i < self.crew.len()
            invariant
                self.wf(),
                i <= self.crew@.len(),
                forall|j: int|
                    0 <= j < i && j != me ==> (#[trigger] self.crew@[j]).nav_status.occupied() != cell,
            decreases self.crew.len() - i,
        {
            proof {
                assert(self.crew_ok(self.crew@[i as int].nav_status));
            }
            if i != me && self.crew[i].nav_status.occupied_cell() == cell {
                proof {
                    reveal(occupied_by_other);
                }
                return false;
            }
            i = i + 1;
        }
        proof {
            reveal(occupied_by_other);
        }
        true
    }

    /// A cell within room `room` that suits crew member `crew` (see [`ShipState::suits`]): the
    /// first one of the room if it has any, otherwise one of the first room with one met in a
    /// breadth-first search through the rooms joined to it. `reachable_only` asks that the crew
    /// member can be routed to the cell: for moving out of the way of other crew it should be
    /// set; for teleporting onto a ship it need not be, which may strand crew in unconnected
    /// islands of cells. `None` if no room connected to `room` has such a cell.
    #[verifier::spinoff_prover]
    #[verifier::rlimit(100)]
    fn room_or_nearby(&self, room: usize, crew: usize, reachable_only: bool) -> (r: Option<Cell>)
        requires
            self.wf(),
            room < self.rooms().len(),
            crew < self.crew@.len(),
        ensures
            r matches Some(c) ==> self.suits(crew as int, c, reachable_only) && exists|rr: int|
                self.rooms_connected(room as int, rr) && #[trigger] self.rooms()[rr].contains(c),
            r matches Some(c) ==> self.nearest_cell(room as int, crew as int, reachable_only, c),
            r matches Some(c) ==> self.first_found(room as int, crew as int, reachable_only, c),
            r is None ==> forall|rr: int|
                #[trigger] self.rooms_connected(room as int, rr) ==> !self.room_suits(
                    rr,
                    crew as int,
                    reachable_only,
                ),
            self.room_suits(room as int, crew as int, reachable_only) ==> (r matches Some(c) && (
            exists|k: int|
                0 <= k < self.rooms()[room as int].len() && self.rooms()[room as int][k] == c
                    && forall|k2: int|
                    0 <= k2 < k ==> !self.suits(
                        crew as int,
                        #[trigger] self.rooms()[room as int][k2],
                        reachable_only,
                    ))),
    {
        let layouts = ships();
        let layout = &layouts[self.ship_type];
        let ghost rooms = self.rooms();
        let ghost g = layout_graph(self.ship_type);
        proof {
            assert(layout.room_cells() == rooms);
            assert(layout.graph_view() == g);
            self.lemma_layout();
        }
        let n = layout.rooms.len();
        let mut visited: Vec<bool> = Vec::new();
        let mut v: usize = 0;
        while v < n
            invariant
                v <= n,
                visited@.len() == v,
                forall|x: int| 0 <= x < v ==> !visited@[x],
            decreases n - v,
        {
            visited.push(false);
            v = v + 1;
        }
        visited.set(room, true);
        let mut frontier: VecDeque<usize> = VecDeque::new();
        frontier.push_back(room);
        let ghost mut vset: Set<int> = set![room as int];
        let ghost mut processed: Set<int> = Set::empty();
        let ghost mut dist: Map<int, nat> = Map::empty().insert(room as int, 0nat);
        let ghost mut porder: Seq<int> = seq![];
        proof {
            assert(room_ints(frontier@) =~= seq![room as int]);
            assert(porder + self.bfs_rest(room_ints(frontier@), vset) =~= self.bfs_rooms(room as int));
            vstd::set_lib::lemma_int_range(0, n as int);
            let w = seq![room as int];
            assert(self.room_walk(w));
            reveal(ShipState::room_walk_of_len);
            assert(self.room_walk_of_len(room as int, room as int, 0));
            reveal(ShipState::rooms_connected);
            assert(self.rooms_connected(room as int, room as int));
            assert(frontier@[0] == room);
        }
        loop
            invariant
                self.wf(),
                layout.room_cells() == rooms,
                layout.graph_view() == g,
                rooms == self.rooms(),
                g == layout_graph(self.ship_type),
                n == rooms.len(),
                n <= usize::MAX,
                room < n,
                crew < self.crew@.len(),
                forall|c: Cell|
                    #[trigger] self.path_graph.has_node(c) ==> first_room_with(rooms, c) is Some,
                forall|r: int, c: Cell|
                    0 <= r < rooms.len() && #[trigger] rooms[r].contains(c) ==> self.path_graph.has_node(c),
                visited@.len() == n,
                forall|x: int| #[trigger] vset.contains(x) <==> (0 <= x < n && visited@[x]),
                vset.subset_of(vstd::set_lib::set_int_range(0, n as int)),
                vstd::set_lib::set_int_range(0, n as int).finite(),
                vstd::set_lib::set_int_range(0, n as int).len() == n,
                vset.contains(room as int),
                forall|x: int| #[trigger] vset.contains(x) ==> self.rooms_connected(room as int, x),
                forall|i: int|
                    0 <= i < frontier@.len() ==> #[trigger] vset.contains(frontier@[i] as int),
                forall|x: int|
                    #[trigger] vset.contains(x) ==> processed.contains(x) || frontier@.contains(
                        x as usize,
                    ),
                forall|x: int|
                    #[trigger] processed.contains(x) ==> vset.contains(x) && !self.room_suits(
                        x,
                        crew as int,
                        reachable_only,
                    ),
                forall|x: int, y: int|
                    #[trigger] processed.contains(x) && #[trigger] self.joined(x, y) ==> vset.contains(
                        y,
                    ),
                processed.len() == 0 ==> frontier@ == seq![room],
                processed.finite(),
                processed.len() > 0 ==> processed.contains(room as int),
                forall|x: int| #[trigger] dist.contains_key(x) <==> vset.contains(x),
                forall|x: int| #[trigger] dist.contains_key(x) ==> self.room_walk_of_len(room as int, x, dist[x]),
                dist[room as int] == 0,
                forall|x: int, y: int|
                    #[trigger] processed.contains(x) && #[trigger] self.joined(x, y) ==> dist.contains_key(y)
                        && dist[y] <= dist[x] + 1,
                forall|a: int, b: int|
                    0 <= a <= b < frontier@.len() ==> dist[#[trigger] frontier@[a] as int] <= dist[#[trigger] frontier@[b] as int],
                forall|a: int, b: int|
                    0 <= a < frontier@.len() && 0 <= b < frontier@.len() ==> dist[#[trigger] frontier@[b] as int]
                        <= dist[#[trigger] frontier@[a] as int] + 1,
                forall|x: int, i: int|
                    #[trigger] processed.contains(x) && 0 <= i < frontier@.len() ==> dist[x] <= dist[#[trigger] frontier@[i] as int],
                self.bfs_rooms(room as int) == porder + self.bfs_rest(room_ints(frontier@), vset),
                forall|j: int| 0 <= j < porder.len() ==> !self.room_suits(#[trigger] porder[j], crew as int, reachable_only),
            ensures
                forall|x: int|
                    #[trigger] vset.contains(x) ==> !self.room_suits(x, crew as int, reachable_only),
                forall|x: int, y: int|
                    #[trigger] vset.contains(x) && #[trigger] self.joined(x, y) ==> vset.contains(y),
                vset.contains(room as int),
            decreases n - vset.len(), frontier@.len(),
        {
            let ghost q0 = frontier@;
            let ghost first_iter = processed.len() == 0;
            let current = match frontier.pop_front() {
                Some(c) => c,
                None => {
                    proof {
                        assert forall|x: int| #[trigger] vset.contains(x) implies processed.contains(x) by {
                            if !processed.contains(x) {
                                assert(frontier@.contains(x as usize));
                            }
                        }
                    }
                    break ;
                },
            };
            proof {
                assert(q0[0] == current);
                assert(vset.contains(current as int));
                vstd::set_lib::lemma_len_subset(vset, vstd::set_lib::set_int_range(0, n as int));
                if !first_iter {
                    assert(processed.contains(room as int));
                }
            }
            let ghost v0 = vset.len();
            let ghost d: nat = dist[current as int];
            proof {
                assert forall|i: int| 0 <= i < frontier@.len() implies d <= dist[#[trigger] frontier@[i] as int]
                    && dist[frontier@[i] as int] <= d + 1 by {
                    assert(frontier@[i] == q0[i + 1]);
                }
                assert forall|x: int| #[trigger] processed.contains(x) implies dist[x] <= d by {
                    assert(dist[x] <= dist[q0[0] as int]);
                }
                assert forall|x: int| #[trigger] dist.contains_key(x) implies processed.contains(x)
                    || frontier@.contains(x as usize) || x == current as int by {
                    if !processed.contains(x) && x != current as int {
                        assert(q0.contains(x as usize));
                        let i = choose|i: int| 0 <= i < q0.len() && q0[i] == x as usize;
                        assert(i != 0);
                        assert(frontier@[i - 1] == x as usize);
                    }
                }
                assert forall|r2: int, m: nat|
                    #[trigger] self.room_suits(r2, crew as int, reachable_only) && #[trigger] self.room_walk_of_len(
                        room as int,
                        r2,
                        m,
                    ) implies d <= m by {
                    reveal(ShipState::room_walk_of_len);
                    let w = choose|w: Seq<int>|
                        #[trigger] self.room_walk(w) && w[0] == room as int && w.last() == r2 && w.len() == m + 1;
                    assert(!processed.contains(r2));
                    self.lemma_nearest_scan(room as int, dist, processed, frontier@, current as int, d, w, 0);
                }
            }
            let cells = &layout.rooms[current].cells;
            proof {
                assert(cells@ == rooms[current as int]);
                assert(dist.contains_key(current as int));
            }
            let mut k: usize = 0;
            while k < cells.len()
                invariant
                    self.wf(),
                    cells@ == rooms[current as int],
                    rooms == self.rooms(),
                    current < n,
                    n == rooms.len(),
                    crew < self.crew@.len(),
                    forall|r: int, c: Cell|
                        0 <= r < rooms.len() && #[trigger] rooms[r].contains(c) ==> self.path_graph.has_node(c),
                    k <= cells@.len(),
                    forall|k2: int| 0 <= k2 < k ==> !self.suits(crew as int, #[trigger] cells@[k2], reachable_only),
                    self.rooms_connected(room as int, current as int),
                    first_iter ==> current == room,
                    !first_iter ==> !self.room_suits(room as int, crew as int, reachable_only),
                    forall|r2: int, m: nat|
                        #[trigger] self.room_suits(r2, crew as int, reachable_only) && #[trigger] self.room_walk_of_len(
                            room as int,
                            r2,
                            m,
                        ) ==> d <= m,
                    self.room_walk_of_len(room as int, current as int, d),
                    self.bfs_rooms(room as int) == porder + self.bfs_rest(room_ints(q0), vset),
                    q0.len() > 0,
                    q0[0] == current,
                    forall|j: int| 0 <= j < porder.len() ==> !self.room_suits(#[trigger] porder[j], crew as int, reachable_only),
                decreases cells.len() - k,
            {
                let cell = cells[k];
                proof {
                    assert(rooms[current as int].contains(cell));
                }
                let ok = if reachable_only {
                    self.can_reach(crew, cell)
                } else {
                    true
                };
                if ok && self.clear_besides(crew, cell) {
                    proof {
                        assert(self.suits(crew as int, cell, reachable_only));
                        assert(self.rooms()[current as int].contains(cell));
                        if self.room_suits(room as int, crew as int, reachable_only) {
                            reveal(ShipState::room_suits);
                            assert(current == room);
                            assert(self.rooms()[room as int][k as int] == cell);
                        }
                        assert(self.rooms()[current as int][k as int] == cell);
                        reveal(ShipState::nearest_suitable);
                        assert(self.nearest_suitable(room as int, current as int, crew as int, reachable_only, cell));
                    }
                    assert(self.nearest_cell(room as int, crew as int, reachable_only, cell));
                    proof {
                        self.lemma_bfs_step(room_ints(q0), vset);
                        let bfs = self.bfs_rooms(room as int);
                        let kk = porder.len() as int;
                        assert(room_ints(q0)[0] == current as int);
                        assert(bfs[kk] == current as int);
                        assert(self.rooms()[current as int][k as int] == cell);
                        assert(self.first_suitable_in(current as int, crew as int, reachable_only, cell));
                        assert forall|j: int| 0 <= j < kk implies !self.room_suits(#[trigger] bfs[j], crew as int, reachable_only) by {
                            assert(bfs[j] == porder[j]);
                        }
                        assert(self.first_found(room as int, crew as int, reachable_only, cell));
                    }
                    return Some(cell);
                }
                k = k + 1;
            }
            proof {
                assert(!self.room_suits(current as int, crew as int, reachable_only)) by {
                    reveal(ShipState::room_suits);
                    if self.room_suits(current as int, crew as int, reachable_only) {
                        let c = choose|c: Cell| #[trigger] self.rooms()[current as int].contains(c) && self.suits(crew as int, c, reachable_only);
                        let k2 = choose|k2: int| 0 <= k2 < cells@.len() && cells@[k2] == c;
                        assert(!self.suits(crew as int, cells@[k2], reachable_only));
                    }
                }
                processed = processed.insert(current as int);
                self.lemma_bfs_step(room_ints(q0), vset);
                assert(room_ints(q0)[0] == current as int);
                assert(porder.push(current as int) + room_ints(q0).drop_first() == porder + room_ints(q0));
                porder = porder.push(current as int);
            }
            proof {
                assert forall|x: int| #[trigger] vset.contains(x) implies processed.contains(x)
                    || frontier@.contains(x as usize) by {
                    if !processed.contains(x) {
                        let i = choose|i: int| 0 <= i < q0.len() && q0[i] == x as usize;
                        assert(i != 0);
                        assert(frontier@[i - 1] == x as usize);
                    }
                }
            }
            let next_rooms = layout.neighbors_of_room(current);
            proof {
                lemma_joined_below(rooms, g, current as int, n as int);
                lemma_joined_below_increasing(rooms, g, current as int, n as int);
            }
            let ghost vset0 = vset;
            let ghost mut added: Seq<usize> = seq![];
            proof {
                assert(next_rooms@.take(0) =~= seq![]);
                assert(room_ints(added).to_set() =~= Set::empty());
                assert(vset0 + room_ints(added).to_set() =~= vset);
                assert(frontier@ =~= q0.drop_first() + added);
            }
            let mut m: usize = 0;
            while m < next_rooms.len()
                invariant
                    self.wf(),
                    rooms == self.rooms(),
                    g == layout_graph(self.ship_type),
                    n == rooms.len(),
                    room < n,
                    current < n,
                    next_rooms@ == joined_below(rooms, g, current as int, n as int),
                    forall|b: usize| #[trigger] next_rooms@.contains(b) <==> (b < n && rooms_joined(rooms, g, current as int, b as int)),
                    m <= next_rooms@.len(),
                    visited@.len() == n,
                    forall|x: int| #[trigger] vset.contains(x) <==> (0 <= x < n && visited@[x]),
                    vset.subset_of(vstd::set_lib::set_int_range(0, n as int)),
                    vstd::set_lib::set_int_range(0, n as int).finite(),
                    vstd::set_lib::set_int_range(0, n as int).len() == n,
                    vset.finite(),
                    vset.len() >= v0,
                    vset.len() == v0 ==> frontier@.len() == q0.len() - 1,
                    vset.contains(room as int),
                    vset.contains(current as int),
                    forall|x: int| #[trigger] vset.contains(x) ==> self.rooms_connected(room as int, x),
                    forall|i: int|
                        0 <= i < frontier@.len() ==> #[trigger] vset.contains(frontier@[i] as int),
                    forall|x: int|
                        #[trigger] vset.contains(x) ==> processed.contains(x) || frontier@.contains(
                            x as usize,
                        ),
                    forall|x: int|
                        #[trigger] processed.contains(x) ==> vset.contains(x) && !self.room_suits(
                            x,
                            crew as int,
                            reachable_only,
                        ),
                    forall|x: int, y: int|
                        #[trigger] processed.contains(x) && #[trigger] self.joined(x, y) && x != current ==> vset.contains(
                            y,
                        ),
                    forall|j: int| 0 <= j < m ==> #[trigger] vset.contains(next_rooms@[j] as int),
                    processed.contains(current as int),
                    processed.finite(),
                    processed.contains(room as int),
                    forall|x: int| #[trigger] dist.contains_key(x) <==> vset.contains(x),
                    forall|x: int| #[trigger] dist.contains_key(x) ==> self.room_walk_of_len(room as int, x, dist[x]),
                    forall|x: int| #[trigger] dist.contains_key(x) ==> dist[x] <= d + 1,
                    dist[room as int] == 0,
                    dist[current as int] == d,
                    forall|x: int, y: int|
                        #[trigger] processed.contains(x) && #[trigger] self.joined(x, y) && x != current
                            ==> dist.contains_key(y) && dist[y] <= dist[x] + 1,
                    forall|j: int| 0 <= j < m ==> dist[#[trigger] next_rooms@[j] as int] <= d + 1,
                    forall|x: int| #[trigger] processed.contains(x) ==> dist[x] <= d,
                    forall|i: int| 0 <= i < frontier@.len() ==> d <= dist[#[trigger] frontier@[i] as int],
                    forall|a: int, b: int|
                        0 <= a <= b < frontier@.len() ==> dist[#[trigger] frontier@[a] as int] <= dist[#[trigger] frontier@[b] as int],
                    frontier@ == q0.drop_first() + added,
                    added == fresh_rooms(next_rooms@.take(m as int), vset0),
                    vset == vset0 + room_ints(added).to_set(),
                    forall|i: int, j: int| 0 <= i < j < next_rooms@.len() ==> #[trigger] next_rooms@[i] < #[trigger] next_rooms@[j],
                    self.bfs_rooms(room as int) == porder + self.bfs_rest(
                        room_ints(q0).drop_first() + room_ints(fresh_rooms(next_rooms@, vset0)),
                        vset0 + room_ints(fresh_rooms(next_rooms@, vset0)).to_set(),
                    ),
                    forall|j: int| 0 <= j < porder.len() ==> !self.room_suits(#[trigger] porder[j], crew as int, reachable_only),
                decreases next_rooms.len() - m,
            {
                let next = next_rooms[m];
                proof {
                    assert(next_rooms@.contains(next));
                }
                proof {
                    assert(dist.contains_key(next as int) ==> dist[next as int] <= d + 1);
                    lemma_fresh_step(next_rooms@, vset0, added, m as int);
                }
                if !visited[next] {
                    let ghost q1 = frontier@;
                    frontier.push_back(next);
                    visited.set(next, true);
                    proof {
                        let old_vset = vset;
                        vset = vset.insert(next as int);
                        let old_dist = dist;
                        dist = dist.insert(next as int, d + 1);
                        assert(!old_vset.contains(next as int));
                        assert(!old_dist.contains_key(next as int));
                        reveal(ShipState::rooms_connected);
                        reveal(ShipState::room_walk_of_len);
                        assert(old_dist.contains_key(current as int));
                        let w = choose|w: Seq<int>|
                            #[trigger] self.room_walk(w) && w[0] == room as int && w.last() == current as int && w.len() == d + 1;
                        let w2 = w.push(next as int);
                        assert forall|i: int| #![trigger w2[i]] 0 <= i < w2.len() - 1 implies self.joined(w2[i], w2[i + 1]) by {
                            if i < w.len() - 1 {
                                assert(w2[i] == w[i] && w2[i + 1] == w[i + 1]);
                            }
                        }
                        assert(self.room_walk(w2));
                        assert(self.rooms_connected(room as int, next as int));
                        assert(self.room_walk_of_len(room as int, next as int, d + 1));
                        assert forall|x: int| #[trigger] dist.contains_key(x) implies self.room_walk_of_len(room as int, x, dist[x]) by {
                            if x != next as int {
                                assert(old_dist.contains_key(x));
                            }
                        }
                        assert forall|i: int| 0 <= i < frontier@.len() implies d <= dist[#[trigger] frontier@[i] as int] by {
                            if i < q1.len() {
                                assert(frontier@[i] == q1[i]);
                            }
                        }
                        assert forall|a: int, b: int| 0 <= a <= b < frontier@.len() implies dist[#[trigger] frontier@[a] as int]
                            <= dist[#[trigger] frontier@[b] as int] by {
                            if b < q1.len() {
                                assert(frontier@[a] == q1[a] && frontier@[b] == q1[b]);
                            } else if a < q1.len() {
                                assert(frontier@[a] == q1[a]);
                                assert(old_dist.contains_key(q1[a] as int));
                            }
                        }
                        assert forall|x: int| #[trigger] vset.contains(x) implies processed.contains(x) || frontier@.contains(x as usize) by {
                            if x != next as int && !processed.contains(x) {
                                let i = choose|i: int| 0 <= i < q1.len() && q1[i] == x as usize;
                                assert(frontier@[i] == x as usize);
                            } else if x == next as int {
                                assert(frontier@[frontier@.len() - 1] == next);
                            }
                        }
                        assert forall|i: int| 0 <= i < frontier@.len() implies #[trigger] vset.contains(frontier@[i] as int) by {
                            if i < q1.len() {
                                assert(frontier@[i] == q1[i]);
                            }
                        }
                        assert(frontier@ =~= q0.drop_first() + added.push(next));
                        added = added.push(next);
                    }
                }
                m = m + 1;
            }
            proof {
                assert(next_rooms@.take(next_rooms@.len() as int) =~= next_rooms@);
                assert(room_ints(frontier@) =~= room_ints(q0).drop_first() + room_ints(added));
            }
            proof {
                assert forall|x: int, y: int| #[trigger] processed.contains(x) && #[trigger] self.joined(x, y) implies vset.contains(y)
                    && dist.contains_key(y) && dist[y] <= dist[x] + 1 by {
                    if x == current as int {
                        lemma_rooms_joined_bounds(rooms, g, x, y);
                        assert(next_rooms@.contains(y as usize));
                        let j = choose|j: int| 0 <= j < next_rooms@.len() && next_rooms@[j] == y as usize;
                        assert(vset.contains(next_rooms@[j] as int));
                        assert(dist[next_rooms@[j] as int] <= d + 1);
                    }
                }
                assert forall|a: int, b: int|
                    0 <= a < frontier@.len() && 0 <= b < frontier@.len() implies dist[#[trigger] frontier@[b] as int]
                        <= dist[#[trigger] frontier@[a] as int] + 1 by {
                    assert(dist.contains_key(frontier@[b] as int));
                    assert(d <= dist[frontier@[a] as int]);
                }
                assert forall|x: int, i: int|
                    #[trigger] processed.contains(x) && 0 <= i < frontier@.len() implies dist[x] <= dist[#[trigger] frontier@[i] as int] by {
                    assert(d <= dist[frontier@[i] as int]);
                }
                vstd::set_lib::lemma_len_subset(vset, vstd::set_lib::set_int_range(0, n as int));
            }
        }
        proof {
            assert forall|rr: int| #[trigger] self.rooms_connected(room as int, rr) implies !self.room_suits(
                rr,
                crew as int,
                reachable_only,
            ) by {
                reveal(ShipState::rooms_connected);
                let w = choose|w: Seq<int>| #[trigger] self.room_walk(w) && w[0] == room as int && w.last() == rr;
                self.lemma_walk_visited(vset, w);
                assert(vset.contains(w[w.len() - 1]));
            }
        }
        None
    }

    /// A room connected to a room of the ship is a room of the ship.
    proof fn lemma_connected_in_range(&self, a: int, b: int)
        requires
            0 <= a < self.rooms().len(),
            self.rooms_connected(a, b),
        ensures
            0 <= b < self.rooms().len(),
    {
        reveal(ShipState::rooms_connected);
        let w = choose|w: Seq<int>| #[trigger] self.room_walk(w) && w[0] == a && w.last() == b;
        if w.len() > 1 {
            lemma_rooms_joined_bounds(self.rooms(), layout_graph(self.ship_type), w[w.len() - 2], w[w.len() - 1]);
        }
    }

    /// Every room of a room walk from a room of `vset` lies in `vset`, once every room joined to
    /// a room of `vset` does.
    proof fn lemma_walk_visited(&self, vset: Set<int>, w: Seq<int>)
        requires
            self.room_walk(w),
            vset.contains(w[0]),
            forall|x: int, y: int| #[trigger] vset.contains(x) && #[trigger] self.joined(x, y) ==> vset.contains(y),
        ensures
            forall|i: int| 0 <= i < w.len() ==> vset.contains(#[trigger] w[i]),
        decreases w.len(),
    {
        if w.len() > 1 {
            let w0 = w.drop_last();
            assert forall|i: int| #![trigger w0[i]] 0 <= i < w0.len() - 1 implies self.joined(w0[i], w0[i + 1]) by {
                assert(w0[i] == w[i] && w0[i + 1] == w[i + 1]);
            }
            self.lemma_walk_visited(vset, w0);
            let n = w.len() - 1;
            assert(w0[n - 1] == w[n - 1]);
            assert(vset.contains(w[n - 1]));
            assert(self.joined(w[n - 1], w[n]));
            assert forall|i: int| 0 <= i < w.len() implies vset.contains(#[trigger] w[i]) by {
                if i < n {
                    assert(w0[i] == w[i]);
                }
            }
        }
    }

    /// Sends crew member `i` back to its station, if it has one it can be routed to (see
    /// [`back_to_station`]). Returns whether it has a station it cannot be routed to.
    fn return_to_station(&mut self, i: usize) -> (missed: bool)
        requires
            old(self).wf(),
            i < old(self).crew@.len(),
        ensures
            final(self).wf(),
            final(self).crew@.len() == old(self).crew@.len(),
            forall|j: int|
                0 <= j < old(self).crew@.len() && j != i ==> #[trigger] final(self).crew@[j] == old(
                    self,
                ).crew@[j],
            final(self).crew@[i as int].station == old(self).crew@[i as int].station,
            final(self).crew@[i as int].race == old(self).crew@[i as int].race,
            final(self).crew@[i as int].name == old(self).crew@[i as int].name,
            final(self).crew@[i as int].health == old(self).crew@[i as int].health,
            final(self).crew@[i as int].task == old(self).crew@[i as int].task,
            back_to_station(
                old(self).path_graph,
                old(self).nav_mesh,
                old(self).crew@[i as int].nav_status,
                final(self).crew@[i as int].nav_status,
                old(self).crew@[i as int].station,
            ),
            missed == station_unreachable(old(self).path_graph, old(self).crew@[i as int]),
            final(self).ship_type == old(self).ship_type,
            final(self).reactor == old(self).reactor,
            final(self).systems == old(self).systems,
            final(self).max_hull == old(self).max_hull,
            final(self).damage == old(self).damage,
            final(self).missiles == old(self).missiles,
            final(self).nav_mesh == old(self).nav_mesh,
            final(self).path_graph == old(self).path_graph,
            final(self).doors == old(self).doors,
    {
        match self.crew[i].station {
            Some(target) => {
                proof {
                    self.lemma_layout();
                    assert(self.crew_ok(self.crew@[i as int].nav_status));
                    assert(self.crew@[i as int].station == Some(target));
                }
                let ghost before = *self;
                match Self::path_crew_to(
                    &self.path_graph,
                    &self.nav_mesh,
                    &mut self.crew[i].nav_status,
                    target,
                ) {
                    Ok(()) => {
                        proof {
                            before.lemma_crew_status(self, i as int);
                        }
                        false
                    },
                    Err(()) => {
                        proof {
                            assert(self.crew@ =~= before.crew@);
                        }
                        true
                    },
                }
            },
            None => false,
        }
    }

    /// Whether crew member `i` has no station and shares the cell it occupies with another crew
    /// member.
    pub open spec fn crowded(&self, i: int) -> bool {
        self.crew@[i].station is None && occupied_by_other(self.crew@, i, self.crew@[i].nav_status.occupied())
    }

    /// The room of the cell crew member `i` occupies, if any (the first, see [`first_room_with`]).
    pub open spec fn occupied_room(&self, i: int) -> Option<usize> {
        first_room_with(self.rooms(), self.crew@[i].nav_status.occupied())
    }

    /// Whether no room connected to the room of the cell crew member `i` occupies has a cell that
    /// suits it (one it can be routed to, see [`ShipState::suits`]).
    pub open spec fn no_room_for(&self, i: int) -> bool {
        match self.occupied_room(i) {
            Some(room) => forall|rr: int|
                #[trigger] self.rooms_connected(room as int, rr) ==> !self.room_suits(rr, i, true),
            None => true,
        }
    }

    /// Whether `s1` is the navigation status of crew member `i` once it made room: a crowded
    /// crew member (see [`ShipState::crowded`]) is routed to the first suitable cell of the
    /// first room with one that a breadth-first search from its room takes (see
    /// [`ShipState::first_found`]), which is one of the nearest such rooms (see
    /// [`ShipState::nearest_cell`]); any other stays as it is.
    pub open spec fn made_room(&self, i: int, s1: CrewNavStatus) -> bool {
        if self.crowded(i) {
            exists|c: Cell|
                #[trigger] self.nearest_cell(self.occupied_room(i).unwrap() as int, i, true, c)
                    && self.first_found(self.occupied_room(i).unwrap() as int, i, true, c) && routed(
                    self.path_graph,
                    self.nav_mesh,
                    self.crew@[i].nav_status,
                    s1,
                    c,
                )
        } else {
            s1 == self.crew@[i].nav_status
        }
    }

    /// If crew member `i` has no station and shares its cell with another crew member, sends it
    /// to a free cell of its room or the nearest one it can reach (see
    /// [`ShipState::room_or_nearby`]); fails with [`ShipError::Overstuffed`] if there is none.
    #[verifier::spinoff_prover]
    #[verifier::rlimit(60)]
    fn make_room(&mut self, i: usize) -> (r: Result<(), ShipError>)
        requires
            old(self).wf(),
            i < old(self).crew@.len(),
        ensures
            final(self).wf(),
            final(self).crew@.len() == old(self).crew@.len(),
            forall|j: int|
                0 <= j < old(self).crew@.len() && j != i ==> #[trigger] final(self).crew@[j] == old(
                    self,
                ).crew@[j],
            final(self).crew@[i as int].station == old(self).crew@[i as int].station,
            final(self).crew@[i as int].race == old(self).crew@[i as int].race,
            final(self).crew@[i as int].name == old(self).crew@[i as int].name,
            final(self).crew@[i as int].health == old(self).crew@[i as int].health,
            final(self).crew@[i as int].task == old(self).crew@[i as int].task,
            r is Ok ==> old(self).made_room(i as int, final(self).crew@[i as int].nav_status),
            r is Err <==> old(self).crowded(i as int) && old(self).no_room_for(i as int),
            r matches Err(e) ==> e == ShipError::Overstuffed(i) && final(self).crew@[i as int].nav_status
                == old(self).crew@[i as int].nav_status,
            final(self).ship_type == old(self).ship_type,
            final(self).reactor == old(self).reactor,
            final(self).systems == old(self).systems,
            final(self).max_hull == old(self).max_hull,
            final(self).damage == old(self).damage,
            final(self).missiles == old(self).missiles,
            final(self).nav_mesh == old(self).nav_mesh,
            final(self).path_graph == old(self).path_graph,
            final(self).doors == old(self).doors,
    {
        let layouts = ships();
        let layout = &layouts[self.ship_type];
        let n_rooms = layout.rooms.len();
        proof {
            assert(layout.room_cells() == self.rooms());
            assert(self.crew_ok(self.crew@[i as int].nav_status));
            self.lemma_layout();
        }
        let occupied = self.crew[i].nav_status.occupied_cell();
        if self.crew[i].station.is_some() || self.clear_besides(i, occupied) {
            return Ok(());
        }
        let room = match layout.cell_room(occupied) {
            Some(room) => room,
            None => {
                return Err(ShipError::Overstuffed(i));
            },
        };
        proof {
            lemma_first_room_with(self.rooms(), occupied);
            assert(room < self.rooms().len());
        }
        let new_cell = match self.room_or_nearby(room, i, true) {
            Some(c) => c,
            None => {
                return Err(ShipError::Overstuffed(i));
            },
        };
        proof {
            let rr = choose|rr: int| self.rooms_connected(room as int, rr) && #[trigger] self.rooms()[rr].contains(new_cell);
            self.lemma_connected_in_range(room as int, rr);
            assert(self.path_graph.has_node(new_cell));
            assert(!self.no_room_for(i as int)) by {
                reveal(ShipState::room_suits);
                assert(self.rooms()[rr].contains(new_cell) && self.suits(i as int, new_cell, true));
                assert(self.room_suits(rr, i as int, true));
            }
            assert(self.nearest_cell(room as int, i as int, true, new_cell));
        }
        let ghost before = *self;
        match Self::path_crew_to(
            &self.path_graph,
            &self.nav_mesh,
            &mut self.crew[i].nav_status,
            new_cell,
        ) {
            Ok(()) => {
                proof {
                    before.lemma_crew_status(self, i as int);
                }
                Ok(())
            },
            Err(()) => {
                proof {
                    assert(false);
                }
                Err(ShipError::Overstuffed(i))
            },
        }
    }

    /// Whether `mid` is this ship once every crew member with a saved station was sent back to it
    /// (see [`back_to_station`]); nothing else changes.
    pub open spec fn returned_to_stations(&self, mid: &Self) -> bool {
        &&& mid.crew@.len() == self.crew@.len()
        &&& forall|j: int|
            0 <= j < self.crew@.len() ==> {
                let c0 = #[trigger] self.crew@[j];
                let c1 = mid.crew@[j];
                &&& c1.station == c0.station
                &&& c1.race == c0.race
                &&& c1.name == c0.name
                &&& c1.health == c0.health
                &&& c1.task == c0.task
                &&& back_to_station(self.path_graph, self.nav_mesh, c0.nav_status, c1.nav_status, c0.station)
            }
        &&& mid.ship_type == self.ship_type
        &&& mid.nav_mesh == self.nav_mesh
        &&& mid.path_graph == self.path_graph
        &&& mid.doors == self.doors
    }

    /// Whether `next` is this ship once crew member `i` made room (see
    /// [`ShipState::made_room`]); nothing else changes.
    pub open spec fn room_made(&self, next: &Self, i: int) -> bool {
        &&& next.crew@.len() == self.crew@.len()
        &&& forall|j: int| 0 <= j < self.crew@.len() && j != i ==> #[trigger] next.crew@[j] == self.crew@[j]
        &&& next.crew@[i].station == self.crew@[i].station
        &&& next.crew@[i].race == self.crew@[i].race
        &&& next.crew@[i].name == self.crew@[i].name
        &&& next.crew@[i].health == self.crew@[i].health
        &&& next.crew@[i].task == self.crew@[i].task
        &&& self.made_room(i, next.crew@[i].nav_status)
        &&& next.ship_type == self.ship_type
        &&& next.nav_mesh == self.nav_mesh
        &&& next.path_graph == self.path_graph
        &&& next.doors == self.doors
    }

    /// Once crew member `i` made room, it stands on (or walks to) its old cell or one that no
    /// other crew member occupied before; without a station, no other crew member occupies its
    /// cell.
    proof fn lemma_room_made_alone(&self, next: &Self, i: int)
        requires
            self.wf(),
            0 <= i < self.crew@.len(),
            self.room_made(next, i),
        ensures
            next.crew@[i].nav_status.occupied() == self.crew@[i].nav_status.occupied()
                || !occupied_by_other(self.crew@, i, next.crew@[i].nav_status.occupied()),
            self.crew@[i].station is None ==> !occupied_by_other(
                next.crew@,
                i,
                next.crew@[i].nav_status.occupied(),
            ),
            forall|j: int|
                0 <= j < self.crew@.len() && j != i && !occupied_by_other(
                    self.crew@,
                    j,
                    #[trigger] self.crew@[j].nav_status.occupied(),
                ) ==> !occupied_by_other(next.crew@, j, next.crew@[j].nav_status.occupied()),
    {
        let s0 = self.crew@[i].nav_status;
        let s1 = next.crew@[i].nav_status;
        if self.crowded(i) {
            let from = self.occupied_room(i).unwrap() as int;
            let c = choose|c: Cell|
                #[trigger] self.nearest_cell(from, i, true, c) && routed(
                    self.path_graph,
                    self.nav_mesh,
                    s0,
                    s1,
                    c,
                );
            let rr = choose|rr: int| #[trigger] self.nearest_suitable(from, rr, i, true, c);
            reveal(ShipState::nearest_suitable);
            let k = choose|k: int|
                0 <= k < self.rooms()[rr].len() && self.rooms()[rr][k] == c && forall|k2: int|
                    0 <= k2 < k ==> !self.suits(i, #[trigger] self.rooms()[rr][k2], true);
            assert(self.rooms()[rr].contains(c));
            self.lemma_layout();
            assert(self.path_graph.has_node(c));
            match s0 {
                CrewNavStatus::At(cell) => {
                    let nav = s1->Navigating_0;
                    let p = nav.path@.push(cell);
                    assert(p[0] == c && p.last() == cell && cell != c);
                    assert(nav.path@[0] == p[0]);
                },
                CrewNavStatus::Navigating(nav0) => {
                    let nav = s1->Navigating_0;
                    let j = choose|j: int|
                        first_nearest(self.path_graph, c, nav0.section.cell_seq(), j) && planned_route(
                            self.path_graph,
                            nav.path@,
                            c,
                            #[trigger] nav0.section.cell_seq()[j],
                        );
                    let first = nav0.section.cell_seq()[j];
                    assert(crew_fits(self.nav_mesh, self.path_graph, self.crew@[i].nav_status));
                    assert(self.path_graph.has_node(first)) by {
                        let sk = choose|sk: int|
                            0 <= sk < self.nav_mesh.section_seq().len()
                                && self.nav_mesh.section_seq()[sk] == nav0.section;
                        assert(self.nav_mesh.section_seq()[sk].cell_seq().contains(first));
                    }
                    assert(self.path_graph.reachable(c, first));
                },
            }
            assert(s1.occupied() == c);
            assert(!occupied_by_other(self.crew@, i, c));
        }
        if self.crew@[i].station is None {
            assert(!occupied_by_other(self.crew@, i, s1.occupied()));
            reveal(occupied_by_other);
            assert forall|m: int| 0 <= m < next.crew@.len() && m != i implies (#[trigger] next.crew@[m]).nav_status.occupied()
                != s1.occupied() by {
                assert(next.crew@[m] == self.crew@[m]);
            }
        }
        assert forall|j: int|
            0 <= j < self.crew@.len() && j != i && !occupied_by_other(
                self.crew@,
                j,
                #[trigger] self.crew@[j].nav_status.occupied(),
            ) implies !occupied_by_other(next.crew@, j, next.crew@[j].nav_status.occupied()) by {
            reveal(occupied_by_other);
            assert(next.crew@[j] == self.crew@[j]);
            let cell = self.crew@[j].nav_status.occupied();
            assert forall|m: int| 0 <= m < next.crew@.len() && m != j implies (#[trigger] next.crew@[m]).nav_status.occupied()
                != cell by {
                if m != i {
                    assert(next.crew@[m] == self.crew@[m]);
                } else {
                    assert(self.crew@[i].nav_status.occupied() != cell);
                    if s1.occupied() != s0.occupied() {
                        assert(self.crew@[j].nav_status.occupied() != s1.occupied());
                    }
                }
            }
        }
    }

    /// Whether `states` are this ship as crew members return to their stations: first every
    /// crew member with a saved station is sent back (`states[0]`), then crew members `0`,
    /// `1`, ... make room in turn, `states[k + 1]` following `states[k]`, up to crew member `n`
    /// (excluded).
    pub open spec fn rooms_made(&self, states: Seq<Self>, n: int) -> bool {
        &&& states.len() == n + 1
        &&& self.returned_to_stations(&states[0])
        &&& forall|k: int| 0 <= k < n ==> #[trigger] states[k].room_made(&states[k + 1], k)
    }

    /// Sends every crew member with a saved station back to it (see [`back_to_station`]); the
    /// indices of those that cannot reach their station are returned. Then each crew member
    /// without a station that shares its cell with another crew member is sent to a free cell
    /// of its room or the nearest one it can reach (see [`ShipState::room_or_nearby`]); if
    /// there is none, this stops with [`ShipError::Overstuffed`] and that crew member's index.
    /// Once this succeeds, no crew member without a station shares its cell with another.
    pub fn crew_return_to_stations(&mut self) -> (r: Result<Vec<usize>, ShipError>)
        requires
            old(self).wf(),
        ensures
            final(self).wf(),
            final(self).crew@.len() == old(self).crew@.len(),
            forall|i: int|
                0 <= i < old(self).crew@.len() ==> {
                    let c0 = #[trigger] old(self).crew@[i];
                    let c1 = final(self).crew@[i];
                    &&& c1.station == c0.station
                    &&& c1.race == c0.race
                    &&& c1.name == c0.name
                    &&& c1.health == c0.health
                    &&& c1.task == c0.task
                    &&& c0.station is Some ==> back_to_station(
                        old(self).path_graph,
                        old(self).nav_mesh,
                        c0.nav_status,
                        c1.nav_status,
                        c0.station,
                    )
                    &&& (c0.station is None && r is Ok) ==> (c1.nav_status == c0.nav_status || exists|
                        c: Cell,
                    |
                        routed(
                            old(self).path_graph,
                            old(self).nav_mesh,
                            c0.nav_status,
                            c1.nav_status,
                            c,
                        ))
                },
            r matches Ok(unreachable) ==> forall|k: int|
                0 <= k < old(self).crew@.len() ==> (unreachable@.contains(k as usize)
                    <==> station_unreachable(old(self).path_graph, #[trigger] old(self).crew@[k])),
            r matches Err(e) ==> e matches ShipError::Overstuffed(i) && i < old(self).crew@.len()
                && old(self).crew@[i as int].station is None,
            r is Ok ==> exists|states: Seq<Self>|
                #[trigger] old(self).rooms_made(states, old(self).crew@.len() as int) && final(self).crew@
                    == states.last().crew@,
            r matches Err(e) ==> e matches ShipError::Overstuffed(i) && exists|states: Seq<Self>|
                #[trigger] old(self).rooms_made(states, i as int) && states.last().crowded(i as int)
                    && states.last().no_room_for(i as int) && final(self).crew@ == states.last().crew@,
            r is Ok ==> forall|k: int|
                0 <= k < final(self).crew@.len() && (#[trigger] final(self).crew@[k]).station is None
                    ==> !occupied_by_other(final(self).crew@, k, final(self).crew@[k].nav_status.occupied()),
            final(self).ship_type == old(self).ship_type,
            final(self).reactor == old(self).reactor,
            final(self).systems == old(self).systems,
            final(self).max_hull == old(self).max_hull,
            final(self).damage == old(self).damage,
            final(self).missiles == old(self).missiles,
            final(self).nav_mesh == old(self).nav_mesh,
            final(self).path_graph == old(self).path_graph,
            final(self).doors == old(self).doors,
    {
        let ghost s0 = *self;
        let mut unreachable: Vec<usize> = Vec::new();
        let mut i: usize = 0;
        while i < self.crew.len()
            invariant
                self.wf(),
                s0 == *old(self),
                i <= self.crew@.len(),
                self.crew@.len() == s0.crew@.len(),
                forall|j: int|
                    0 <= j < s0.crew@.len() ==> {
                        let c0 = #[trigger] s0.crew@[j];
                        let c1 = self.crew@[j];
                        &&& c1.station == c0.station
                        &&& c1.race == c0.race
                        &&& c1.name == c0.name
                        &&& c1.health == c0.health
                        &&& c1.task == c0.task
                        &&& (if j < i {
                            back_to_station(s0.path_graph, s0.nav_mesh, c0.nav_status, c1.nav_status, c0.station)
                        } else {
                            c1.nav_status == c0.nav_status
                        })
                    },
                unreachable@ == stranded(s0.path_graph, s0.crew@, i as nat),
                self.ship_type == s0.ship_type,
                self.reactor == s0.reactor,
                self.systems == s0.systems,
                self.max_hull == s0.max_hull,
                self.damage == s0.damage,
                self.missiles == s0.missiles,
                self.nav_mesh == s0.nav_mesh,
                self.path_graph == s0.path_graph,
                self.doors == s0.doors,
            decreases self.crew.len() - i,
        {
            let ghost pre = *self;
            let missed = self.return_to_station(i);
            if missed {
                unreachable.push(i);
            }
            proof {
                assert(pre.crew@[i as int] == s0.crew@[i as int]);
            }
            i = i + 1;
        }
        proof {
            assert forall|k: int| 0 <= k < s0.crew@.len() implies (unreachable@.contains(k as usize)
                <==> station_unreachable(s0.path_graph, #[trigger] s0.crew@[k])) by {
                lemma_stranded(s0.path_graph, s0.crew@, s0.crew@.len(), k);
            }
        }
        let ghost mut states: Seq<Self> = seq![*self];
        proof {
            assert(s0.returned_to_stations(&states[0]));
            assert(s0.rooms_made(states, 0));
        }
        let mut i: usize = 0;
        while i < self.crew.len()
            invariant
                self.wf(),
                s0 == *old(self),
                s0.rooms_made(states, i as int),
                states.last() == *self,
                i <= self.crew@.len(),
                self.crew@.len() == s0.crew@.len(),
                forall|j: int|
                    0 <= j < s0.crew@.len() ==> {
                        let c0 = #[trigger] s0.crew@[j];
                        let c1 = self.crew@[j];
                        &&& c1.station == c0.station
                        &&& c1.race == c0.race
                        &&& c1.name == c0.name
                        &&& c1.health == c0.health
                        &&& c1.task == c0.task
                        &&& c0.station is Some ==> back_to_station(
                            s0.path_graph,
                            s0.nav_mesh,
                            c0.nav_status,
                            c1.nav_status,
                            c0.station,
                        )
                        &&& c0.station is None ==> (c1.nav_status == c0.nav_status || exists|c: Cell|
                            routed(s0.path_graph, s0.nav_mesh, c0.nav_status, c1.nav_status, c))
                        &&& (c0.station is None && j >= i) ==> c1.nav_status == c0.nav_status
                        &&& (c0.station is None && j < i) ==> !occupied_by_other(
                            self.crew@,
                            j,
                            c1.nav_status.occupied(),
                        )
                    },
                self.ship_type == s0.ship_type,
                self.reactor == s0.reactor,
                self.systems == s0.systems,
                self.max_hull == s0.max_hull,
                self.damage == s0.damage,
                self.missiles == s0.missiles,
                self.nav_mesh == s0.nav_mesh,
                self.path_graph == s0.path_graph,
                self.doors == s0.doors,
            decreases self.crew.len() - i,
        {
            let ghost pre = *self;
            match self.make_room(i) {
                Ok(()) => {},
                Err(e) => {
                    proof {
                        assert(self.crew@ =~= pre.crew@);
                        assert(s0.rooms_made(states, i as int));
                    }
                    return Err(e);
                },
            }
            proof {
                assert forall|j: int| 0 <= j < s0.crew@.len() && j != i implies #[trigger] self.crew@[j] == pre.crew@[j] by {}
                if s0.crew@[i as int].station is None {
                    assert(pre.crew@[i as int].nav_status == s0.crew@[i as int].nav_status);
                }
                let old_states = states;
                states = states.push(*self);
                assert(old_states[i as int] == pre);
                assert(pre.room_made(&states[i + 1], i as int));
                pre.lemma_room_made_alone(&*self, i as int);
                assert forall|j: int| 0 <= j <= i && (#[trigger] s0.crew@[j]).station is None implies !occupied_by_other(
                    self.crew@,
                    j,
                    self.crew@[j].nav_status.occupied(),
                ) by {
                    assert(pre.crew@[j].station == s0.crew@[j].station);
                    if j < i {
                        assert(!occupied_by_other(pre.crew@, j, pre.crew@[j].nav_status.occupied()));
                    }
                }
                assert forall|k: int| 0 <= k < i + 1 implies #[trigger] states[k].room_made(&states[k + 1], k) by {
                    if k < i {
                        assert(states[k] == old_states[k] && states[k + 1] == old_states[k + 1]);
                        assert(old_states[k].room_made(&old_states[k + 1], k));
                    }
                }
            }
            i = i + 1;
        }
        proof {
            assert(states.last().crew@ == self.crew@);
            assert forall|k: int|
                0 <= k < self.crew@.len() && (#[trigger] self.crew@[k]).station is None implies !occupied_by_other(
                self.crew@,
                k,
                self.crew@[k].nav_status.occupied(),
            ) by {
                assert(s0.crew@[k].station == self.crew@[k].station);
            }
        }
        Ok(unreachable)
    }
}

} // verus!
