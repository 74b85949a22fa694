//! Ship layouts: rooms made of cells, the nav mesh crew walk on and the graph they plan paths on,
//! and the identifiers of the ship systems housed in rooms.

use vstd::prelude::*;
use crate::nav::{
    joins, lemma_reach_edge, lemma_reach_self, lemma_reach_trans, Cell, LineSection, NavMesh,
    NavSection, PathGraph, SquareSection,
};

verus! {

/// The ship systems, in declaration order.
#[derive(Clone, Copy, Debug, PartialEq, Eq, Structural, Hash)]
pub enum SystemId {
    Shields,
    Weapons,
    Engines,
}

/// Every system, in declaration order.
pub open spec fn all_systems() -> Seq<SystemId> {
    seq![SystemId::Shields, SystemId::Weapons, SystemId::Engines]
}

impl SystemId {
    /// The lowercase name of the system, as shown to players.
    pub open spec fn spec_name(self) -> Seq<char> {
        match self {
            SystemId::Shields => "shields"@,
            SystemId::Weapons => "weapons"@,
            SystemId::Engines => "engines"@,
        }
    }

    /// The lowercase name of the system, as shown to players.
    pub fn name(&self) -> (r: String)
        ensures
            r@ == self.spec_name(),
    {
        match self {
            SystemId::Shields => "shields".to_owned(),
            SystemId::Weapons => "weapons".to_owned(),
            SystemId::Engines => "engines".to_owned(),
        }
    }

    /// Every system, in declaration order.
    pub fn all() -> (r: Vec<SystemId>)
        ensures
            r@ == all_systems(),
    {
        let r = vec![SystemId::Shields, SystemId::Weapons, SystemId::Engines];
        assert(r@ =~= all_systems());
        r
    }
}

/// A room: the cells it spans.
#[derive(Clone, Debug)]
pub struct Room {
    pub cells: Vec<Cell>,
}

impl Room {
    /// Whether the room spans `cell`.
    pub fn has_cell(&self, cell: Cell) -> (r: bool)
        ensures
            r == self.cells@.contains(cell),
    {
        let mut i: usize = 0;
        while i < self.cells.len()
            invariant
                i <= self.cells@.len(),
                forall|j: int| 0 <= j < i ==> self.cells@[j] != cell,
            decreases self.cells.len() - i,
        {
            if self.cells[i] == cell {
                assert(self.cells@[i as int] == cell);
                return true;
            }
            i = i + 1;
        }
        false
    }
}

/// Marks a ship whose hull is destroyed.
#[derive(Clone, Copy, Debug, Default)]
pub struct Dead;

/// The layout of a kind of ship.
#[derive(Debug)]
pub struct ShipType {
    pub rooms: Vec<Room>,
    /// The line and square sections of the ship's nav mesh.
    pub nav_mesh: (Vec<LineSection>, Vec<SquareSection>),
    /// For each cell, the cells crew can step to from it.
    pub path_graph: Vec<(Cell, Vec<Cell>)>,
}

/// The index of the first room of `rooms` that spans `cell`, if any.
pub open spec fn first_room_with(rooms: Seq<Seq<Cell>>, cell: Cell) -> Option<usize> {
    if exists|i: int| 0 <= i < rooms.len() && rooms[i].contains(cell) {
        let i = choose|i: int|
            0 <= i < rooms.len() && rooms[i].contains(cell) && forall|j: int|
                0 <= j < i ==> !rooms[j].contains(cell);
        Some(i as usize)
    } else {
        None
    }
}

/// [`first_room_with`] finds a room exactly when some room spans the cell, and then the first.
pub proof fn lemma_first_room_with(rooms: Seq<Seq<Cell>>, cell: Cell)
    requires
        rooms.len() <= usize::MAX,
    ensures
        (first_room_with(rooms, cell) is Some) == (exists|i: int| 0 <= i < rooms.len() && rooms[i].contains(cell)),
        first_room_with(rooms, cell) matches Some(r) ==> r < rooms.len() && rooms[r as int].contains(cell)
            && forall|j: int| 0 <= j < r ==> !rooms[j].contains(cell),
{
    if exists|i: int| 0 <= i < rooms.len() && rooms[i].contains(cell) {
        let i = choose|i: int| 0 <= i < rooms.len() && rooms[i].contains(cell);
        lemma_first_room(rooms, cell, i);
    }
}

/// Some room spanning `cell` comes first among those spanning it.
proof fn lemma_first_room(rooms: Seq<Seq<Cell>>, cell: Cell, i: int)
    requires
        0 <= i < rooms.len(),
        rooms[i].contains(cell),
    ensures
        exists|m: int|
            0 <= m <= i && rooms[m].contains(cell) && forall|j: int| 0 <= j < m ==> !rooms[j].contains(cell),
    decreases i,
{
    if exists|j: int| 0 <= j < i && rooms[j].contains(cell) {
        let j = choose|j: int| 0 <= j < i && rooms[j].contains(cell);
        lemma_first_room(rooms, cell, j);
    }
}

/// Whether one of the first `n` entries of `rs` is `Some(room)`.
pub open spec fn some_before(rs: Seq<Option<usize>>, n: int, room: usize) -> bool {
    exists|j: int| 0 <= j < n && rs[j] == Some(room)
}

proof fn lemma_some_before_step(rs: Seq<Option<usize>>, i: int, room: usize)
    requires
        0 <= i < rs.len(),
    ensures
        some_before(rs, i + 1, room) == (some_before(rs, i, room) || rs[i] == Some(room)),
{
    if some_before(rs, i + 1, room) {
        let j = choose|j: int| 0 <= j < i + 1 && rs[j] == Some(room);
        if j < i {
            assert(some_before(rs, i, room));
        }
    }
}

/// Whether `v` holds `x`.
fn contains_usize(v: &Vec<usize>, x: usize) -> (r: bool)
    ensures
        r == v@.contains(x),
{
    let mut k: usize = 0;
    while k < v.len()
        invariant
            k <= v@.len(),
            forall|q: int| 0 <= q < k ==> v@[q] != x,
        decreases v.len() - k,
    {
        if v[k] == x {
            assert(v@[k as int] == x);
            return true;
        }
        k = k + 1;
    }
    false
}

proof fn lemma_push_contains_usize(s: Seq<usize>, x: Option<usize>, k: usize)
    ensures
        x matches Some(y) ==> (s.push(y).contains(k) == (s.contains(k) || k == y)),
{
    if let Some(y) = x {
        if s.push(y).contains(k) {
            let q = choose|q: int| 0 <= q < s.push(y).len() && s.push(y)[q] == k;
            if q < s.len() {
                assert(s[q] == k);
            }
        }
        if s.contains(k) {
            let q = choose|q: int| 0 <= q < s.len() && s[q] == k;
            assert(s.push(y)[q] == k);
        }
        if k == y {
            assert(s.push(y)[s.len() as int] == k);
        }
    }
}

impl ShipType {
    /// The cells of each room.
    pub open spec fn room_cells(self) -> Seq<Seq<Cell>> {
        self.rooms@.map_values(|r: Room| r.cells@)
    }

    /// The path graph entries with their neighbor lists as sequences.
    pub open spec fn graph_view(self) -> Seq<(Cell, Seq<Cell>)> {
        self.path_graph@.map_values(|e: (Cell, Vec<Cell>)| (e.0, e.1@))
    }

    /// The index of the room that spans `cell`, if any (the first one, should rooms overlap).
    pub fn cell_room(&self, cell: Cell) -> (r: Option<usize>)
        ensures
            r == first_room_with(self.room_cells(), cell),
    {
        let mut i: usize = 0;
        while i < self.rooms.len()
            invariant
                i <= self.rooms@.len(),
                forall|j: int| 0 <= j < i ==> !self.room_cells()[j].contains(cell),
            decreases self.rooms.len() - i,
        {
            if self.rooms[i].has_cell(cell) {
                let ghost rooms = self.room_cells();
                assert(rooms[i as int].contains(cell));
                let ghost k = choose|k: int|
                    0 <= k < rooms.len() && rooms[k].contains(cell) && forall|j: int|
                        0 <= j < k ==> !rooms[j].contains(cell);
                assert(k == i) by {
                    if k < i {
                        assert(!rooms[k].contains(cell));
                    }
                    if k > i {
                        assert(!rooms[i as int].contains(cell));
                    }
                }
                return Some(i);
            }
            i = i + 1;
        }
        None
    }

    /// The room of each cell of `cells` (the first room spanning it, see [`first_room_with`]).
    pub open spec fn rooms_of(self, cells: Seq<Cell>) -> Seq<Option<usize>> {
        cells.map_values(|c: Cell| first_room_with(self.room_cells(), c))
    }

    /// Whether one of the first `n` cells of `cells` lies in room `room`.
    pub open spec fn room_before(self, cells: Seq<Cell>, n: int, room: usize) -> bool {
        some_before(self.rooms_of(cells), n, room)
    }

    /// Which room a beam crossing `cells`, in that order, enters at `cells[i]`: the room of
    /// that cell, unless an earlier cell already lies in it (or the cell lies in no room).
    pub open spec fn entered_room(self, cells: Seq<Cell>, i: int) -> Option<usize> {
        match first_room_with(self.room_cells(), cells[i]) {
            Some(r) => if self.room_before(cells, i, r) {
                None
            } else {
                Some(r)
            },
            None => None,
        }
    }

    /// For the cells a beam crosses, in the order it crosses them, the room the beam enters at
    /// each (see [`ShipType::entered_room`]): each room is hit once, at its first cell.
    pub fn beam_rooms(&self, cells: &Vec<Cell>) -> (r: Vec<Option<usize>>)
        ensures
            r@.len() == cells@.len(),
            forall|i: int| 0 <= i < cells@.len() ==> #[trigger] r@[i] == self.entered_room(cells@, i),
    {
        let mut r: Vec<Option<usize>> = Vec::new();
        let mut seen: Vec<usize> = Vec::new();
        let mut i: usize = 0;
        while i < cells.len()
            invariant
                i <= cells@.len(),
                r@.len() == i,
                forall|k: int| 0 <= k < i ==> #[trigger] r@[k] == self.entered_room(cells@, k),
                forall|room: usize| #[trigger] seen@.contains(room) <==> self.room_before(cells@, i as int, room),
            decreases cells.len() - i,
        {
            let room = self.cell_room(cells[i]);
            let ghost s0 = seen@;
            let entered = match room {
                Some(x) => if contains_usize(&seen, x) {
                    None
                } else {
                    seen.push(x);
                    Some(x)
                },
                None => None,
            };
            proof {
                assert forall|room2: usize| #[trigger] seen@.contains(room2) <==> self.room_before(
                    cells@,
                    i + 1,
                    room2,
                ) by {
                    lemma_some_before_step(self.rooms_of(cells@), i as int, room2);
                    lemma_push_contains_usize(s0, room, room2);
                    if entered is None {
                        assert(seen@ == s0);
                    }
                }
            }
            r.push(entered);
            i = i + 1;
        }
        r
    }

    /// The nav mesh of this layout.
    pub fn nav_mesh(&self) -> (r: NavMesh)
        ensures
            r.lines@ == self.nav_mesh.0@,
            r.squares@ == self.nav_mesh.1@,
    {
        NavMesh { lines: self.nav_mesh.0.clone(), squares: self.nav_mesh.1.clone() }
    }

    /// The path graph of this layout.
    pub fn path_graph(&self) -> (r: PathGraph)
        ensures
            r.edges@.map_values(|e: (Cell, Vec<Cell>)| (e.0, e.1@)) == self.graph_view(),
    {
        let mut edges: Vec<(Cell, Vec<Cell>)> = Vec::new();
        let mut i: usize = 0;
        while i < self.path_graph.len()
            invariant
                i <= self.path_graph@.len(),
                edges@.len() == i,
                forall|j: int|
                    0 <= j < i ==> (#[trigger] edges@[j]).0 == self.path_graph@[j].0
                        && edges@[j].1@ == self.path_graph@[j].1@,
            decreases self.path_graph.len() - i,
        {
            let entry = &self.path_graph[i];
            edges.push((entry.0, entry.1.clone()));
            i = i + 1;
        }
        assert(edges@.map_values(|e: (Cell, Vec<Cell>)| (e.0, e.1@)) =~= self.graph_view());
        PathGraph { edges }
    }
}

/// The cells of each room of the first ship layout.
#[verifier::opaque]
pub open spec fn first_ship_rooms() -> Seq<Seq<Cell>> {
    seq![
        seq![Cell(0), Cell(1)],
        seq![Cell(2), Cell(3), Cell(4), Cell(5)],
        seq![Cell(6), Cell(7), Cell(8), Cell(9)],
        seq![Cell(10), Cell(11), Cell(12), Cell(13)],
        seq![Cell(14), Cell(15)],
        seq![Cell(16), Cell(17)],
    ]
}

/// The line sections of the first ship layout's nav mesh.
#[verifier::opaque]
pub open spec fn first_ship_lines() -> Seq<LineSection> {
    seq![
        LineSection([Cell(0), Cell(1)]),
        LineSection([Cell(1), Cell(6)]),
        LineSection([Cell(5), Cell(8)]),
        LineSection([Cell(8), Cell(17)]),
        LineSection([Cell(9), Cell(12)]),
        LineSection([Cell(13), Cell(15)]),
        LineSection([Cell(14), Cell(15)]),
        LineSection([Cell(16), Cell(17)]),
    ]
}

/// The square sections of the first ship layout's nav mesh.
#[verifier::opaque]
pub open spec fn first_ship_squares() -> Seq<SquareSection> {
    seq![
        SquareSection([[Cell(2), Cell(3)], [Cell(4), Cell(5)]]),
        SquareSection([[Cell(6), Cell(7)], [Cell(8), Cell(9)]]),
        SquareSection([[Cell(10), Cell(11)], [Cell(12), Cell(13)]]),
    ]
}

/// The path graph of the first ship layout.
#[verifier::opaque]
pub open spec fn first_ship_graph() -> Seq<(Cell, Seq<Cell>)> {
    seq![
        (Cell(0), seq![Cell(1)]),
        (Cell(1), seq![Cell(0), Cell(6)]),
        (Cell(2), seq![Cell(3), Cell(4), Cell(5)]),
        (Cell(3), seq![Cell(2), Cell(4), Cell(5)]),
        (Cell(4), seq![Cell(2), Cell(3), Cell(5)]),
        (Cell(5), seq![Cell(2), Cell(3), Cell(4), Cell(8)]),
        (Cell(6), seq![Cell(1), Cell(7), Cell(8), Cell(9)]),
        (Cell(7), seq![Cell(6), Cell(8), Cell(9)]),
        (Cell(8), seq![Cell(5), Cell(6), Cell(7), Cell(9), Cell(17)]),
        (Cell(9), seq![Cell(6), Cell(7), Cell(8), Cell(12)]),
        (Cell(10), seq![Cell(11), Cell(12), Cell(13)]),
        (Cell(11), seq![Cell(10), Cell(12), Cell(13)]),
        (Cell(12), seq![Cell(9), Cell(10), Cell(11), Cell(13)]),
        (Cell(13), seq![Cell(10), Cell(11), Cell(12), Cell(15)]),
        (Cell(14), seq![Cell(15)]),
        (Cell(15), seq![Cell(13), Cell(14)]),
        (Cell(16), seq![Cell(17)]),
        (Cell(17), seq![Cell(8), Cell(16)]),
    ]
}

/// The ship layouts. There is one so far: six rooms in a row of small and square rooms joined
/// by doors.
pub fn ships() -> (r: Vec<ShipType>)
    ensures
        r@.len() == 1,
        r@[0].room_cells() == first_ship_rooms(),
        r@[0].nav_mesh.0@ == first_ship_lines(),
        r@[0].nav_mesh.1@ == first_ship_squares(),
        r@[0].graph_view() == first_ship_graph(),
{
    reveal(first_ship_rooms);
    reveal(first_ship_lines);
    reveal(first_ship_squares);
    reveal(first_ship_graph);
    let rooms = vec![
        Room { cells: vec![Cell(0), Cell(1)] },
        Room { cells: vec![Cell(2), Cell(3), Cell(4), Cell(5)] },
        Room { cells: vec![Cell(6), Cell(7), Cell(8), Cell(9)] },
        Room { cells: vec![Cell(10), Cell(11), Cell(12), Cell(13)] },
        Room { cells: vec![Cell(14), Cell(15)] },
        Room { cells: vec![Cell(16), Cell(17)] },
    ];
    let lines = vec![
        LineSection([Cell(0), Cell(1)]),
        LineSection([Cell(1), Cell(6)]),
        LineSection([Cell(5), Cell(8)]),
        LineSection([Cell(8), Cell(17)]),
        LineSection([Cell(9), Cell(12)]),
        LineSection([Cell(13), Cell(15)]),
        LineSection([Cell(14), Cell(15)]),
        LineSection([Cell(16), Cell(17)]),
    ];
    let squares = vec![
        SquareSection([[Cell(2), Cell(3)], [Cell(4), Cell(5)]]),
        SquareSection([[Cell(6), Cell(7)], [Cell(8), Cell(9)]]),
        SquareSection([[Cell(10), Cell(11)], [Cell(12), Cell(13)]]),
    ];
    let path_graph = vec![
        (Cell(0), vec![Cell(1)]),
        (Cell(1), vec![Cell(0), Cell(6)]),
        (Cell(2), vec![Cell(3), Cell(4), Cell(5)]),
        (Cell(3), vec![Cell(2), Cell(4), Cell(5)]),
        (Cell(4), vec![Cell(2), Cell(3), Cell(5)]),
        (Cell(5), vec![Cell(2), Cell(3), Cell(4), Cell(8)]),
        (Cell(6), vec![Cell(1), Cell(7), Cell(8), Cell(9)]),
        (Cell(7), vec![Cell(6), Cell(8), Cell(9)]),
        (Cell(8), vec![Cell(5), Cell(6), Cell(7), Cell(9), Cell(17)]),
        (Cell(9), vec![Cell(6), Cell(7), Cell(8), Cell(12)]),
        (Cell(10), vec![Cell(11), Cell(12), Cell(13)]),
        (Cell(11), vec![Cell(10), Cell(12), Cell(13)]),
        (Cell(12), vec![Cell(9), Cell(10), Cell(11), Cell(13)]),
        (Cell(13), vec![Cell(10), Cell(11), Cell(12), Cell(15)]),
        (Cell(14), vec![Cell(15)]),
        (Cell(15), vec![Cell(13), Cell(14)]),
        (Cell(16), vec![Cell(17)]),
        (Cell(17), vec![Cell(8), Cell(16)]),
    ];
    let ship = ShipType { rooms, nav_mesh: (lines, squares), path_graph };
    assert(ship.room_cells() =~= first_ship_rooms());
    assert(ship.nav_mesh.0@ =~= first_ship_lines());
    assert(ship.nav_mesh.1@ =~= first_ship_squares());
    assert(ship.graph_view() =~~= first_ship_graph());
    let r = vec![ship];
    r
}


/// The cells of each section of the first ship layout's nav mesh: the lines, then the squares
/// in row-major order.
#[verifier::opaque]
pub open spec fn first_ship_section_cells() -> Seq<Seq<Cell>> {
    seq![
        seq![Cell(0), Cell(1)],
        seq![Cell(1), Cell(6)],
        seq![Cell(5), Cell(8)],
        seq![Cell(8), Cell(17)],
        seq![Cell(9), Cell(12)],
        seq![Cell(13), Cell(15)],
        seq![Cell(14), Cell(15)],
        seq![Cell(16), Cell(17)],
        seq![Cell(2), Cell(3), Cell(4), Cell(5)],
        seq![Cell(6), Cell(7), Cell(8), Cell(9)],
        seq![Cell(10), Cell(11), Cell(12), Cell(13)],
    ]
}

/// Whether section `k` of `secs` holds both `u` and `v`.
pub open spec fn joined_by(secs: Seq<Seq<Cell>>, u: Cell, v: Cell, k: int) -> bool {
    0 <= k < secs.len() && secs[k].contains(u) && secs[k].contains(v)
}

/// Whether entry `t` of `g` has key `c`.
pub open spec fn keyed_at(g: Seq<(Cell, Seq<Cell>)>, c: Cell, t: int) -> bool {
    0 <= t < g.len() && g[t].0 == c
}

/// Whether step `j` of entry `i` of the path graph entries `g` is joined by one of the
/// sections `secs` and leads to a cell that has an entry.
pub open spec fn step_on_sections(
    g: Seq<(Cell, Seq<Cell>)>,
    secs: Seq<Seq<Cell>>,
    i: int,
    j: int,
) -> bool {
    &&& exists|k: int| #[trigger] joined_by(secs, g[i].0, g[i].1[j], k)
    &&& exists|t: int| #[trigger] keyed_at(g, g[i].1[j], t)
}

/// Whether every step of the path graph entries `g` is joined by one of the sections `secs`
/// and leads to a cell that has an entry.
pub open spec fn steps_on_sections(g: Seq<(Cell, Seq<Cell>)>, secs: Seq<Seq<Cell>>) -> bool {
    forall|i: int, j: int|
        0 <= i < g.len() && 0 <= j < g[i].1.len() ==> #[trigger] step_on_sections(g, secs, i, j)
}

/// Every step of the first ship layout's path graph is joined by a section of its nav mesh and
/// leads to a cell with an entry.
proof fn lemma_first_ship_steps(g: Seq<(Cell, Seq<Cell>)>, secs: Seq<Seq<Cell>>)
    requires
        g == first_ship_graph(),
        secs == first_ship_section_cells(),
    ensures
        steps_on_sections(g, secs),
{
    reveal(first_ship_graph);
    reveal(first_ship_section_cells);
    assert(g.len() == 18 && secs.len() == 11);
    assert forall|i: int, j: int|
        0 <= i < g.len() && 0 <= j < g[i].1.len() implies #[trigger] step_on_sections(
        g,
        secs,
        i,
        j,
    ) by {
        if i == 0 {
            assert(g[0].0 == Cell(0) && g[0].1 == seq![Cell(1)]);
            if j == 0 {
                assert(secs[0][0] == Cell(0) && secs[0][1] == Cell(1) && g[1].0 == Cell(1));
                assert(g[i].1[j] == Cell(1));
                assert(joined_by(secs, g[i].0, g[i].1[j], 0) && keyed_at(g, g[i].1[j], 1));
            }
        } else if i == 1 {
            assert(g[1].0 == Cell(1) && g[1].1 == seq![Cell(0), Cell(6)]);
            if j == 0 {
                assert(secs[0][1] == Cell(1) && secs[0][0] == Cell(0) && g[0].0 == Cell(0));
                assert(g[i].1[j] == Cell(0));
                assert(joined_by(secs, g[i].0, g[i].1[j], 0) && keyed_at(g, g[i].1[j], 0));
            } else if j == 1 {
                assert(secs[1][0] == Cell(1) && secs[1][1] == Cell(6) && g[6].0 == Cell(6));
                assert(g[i].1[j] == Cell(6));
                assert(joined_by(secs, g[i].0, g[i].1[j], 1) && keyed_at(g, g[i].1[j], 6));
            }
        } else if i == 2 {
            assert(g[2].0 == Cell(2) && g[2].1 == seq![Cell(3), Cell(4), Cell(5)]);
            if j == 0 {
                assert(secs[8][0] == Cell(2) && secs[8][1] == Cell(3) && g[3].0 == Cell(3));
                assert(g[i].1[j] == Cell(3));
                assert(joined_by(secs, g[i].0, g[i].1[j], 8) && keyed_at(g, g[i].1[j], 3));
            } else if j == 1 {
                assert(secs[8][0] == Cell(2) && secs[8][2] == Cell(4) && g[4].0 == Cell(4));
                assert(g[i].1[j] == Cell(4));
                assert(joined_by(secs, g[i].0, g[i].1[j], 8) && keyed_at(g, g[i].1[j], 4));
            } else if j == 2 {
                assert(secs[8][0] == Cell(2) && secs[8][3] == Cell(5) && g[5].0 == Cell(5));
                assert(g[i].1[j] == Cell(5));
                assert(joined_by(secs, g[i].0, g[i].1[j], 8) && keyed_at(g, g[i].1[j], 5));
            }
        } else if i == 3 {
            assert(g[3].0 == Cell(3) && g[3].1 == seq![Cell(2), Cell(4), Cell(5)]);
            if j == 0 {
                assert(secs[8][1] == Cell(3) && secs[8][0] == Cell(2) && g[2].0 == Cell(2));
                assert(g[i].1[j] == Cell(2));
                assert(joined_by(secs, g[i].0, g[i].1[j], 8) && keyed_at(g, g[i].1[j], 2));
            } else if j == 1 {
                assert(secs[8][1] == Cell(3) && secs[8][2] == Cell(4) && g[4].0 == Cell(4));
                assert(g[i].1[j] == Cell(4));
                assert(joined_by(secs, g[i].0, g[i].1[j], 8) && keyed_at(g, g[i].1[j], 4));
            } else if j == 2 {
                assert(secs[8][1] == Cell(3) && secs[8][3] == Cell(5) && g[5].0 == Cell(5));
                assert(g[i].1[j] == Cell(5));
                assert(joined_by(secs, g[i].0, g[i].1[j], 8) && keyed_at(g, g[i].1[j], 5));
            }
        } else if i == 4 {
            assert(g[4].0 == Cell(4) && g[4].1 == seq![Cell(2), Cell(3), Cell(5)]);
            if j == 0 {
                assert(secs[8][2] == Cell(4) && secs[8][0] == Cell(2) && g[2].0 == Cell(2));
                assert(g[i].1[j] == Cell(2));
                assert(joined_by(secs, g[i].0, g[i].1[j], 8) && keyed_at(g, g[i].1[j], 2));
            } else if j == 1 {
                assert(secs[8][2] == Cell(4) && secs[8][1] == Cell(3) && g[3].0 == Cell(3));
                assert(g[i].1[j] == Cell(3));
                assert(joined_by(secs, g[i].0, g[i].1[j], 8) && keyed_at(g, g[i].1[j], 3));
            } else if j == 2 {
                assert(secs[8][2] == Cell(4) && secs[8][3] == Cell(5) && g[5].0 == Cell(5));
                assert(g[i].1[j] == Cell(5));
                assert(joined_by(secs, g[i].0, g[i].1[j], 8) && keyed_at(g, g[i].1[j], 5));
            }
        } else if i == 5 {
            assert(g[5].0 == Cell(5) && g[5].1 == seq![Cell(2), Cell(3), Cell(4), Cell(8)]);
            if j == 0 {
                assert(secs[8][3] == Cell(5) && secs[8][0] == Cell(2) && g[2].0 == Cell(2));
                assert(g[i].1[j] == Cell(2));
                assert(joined_by(secs, g[i].0, g[i].1[j], 8) && keyed_at(g, g[i].1[j], 2));
            } else if j == 1 {
                assert(secs[8][3] == Cell(5) && secs[8][1] == Cell(3) && g[3].0 == Cell(3));
                assert(g[i].1[j] == Cell(3));
                assert(joined_by(secs, g[i].0, g[i].1[j], 8) && keyed_at(g, g[i].1[j], 3));
            } else if j == 2 {
                assert(secs[8][3] == Cell(5) && secs[8][2] == Cell(4) && g[4].0 == Cell(4));
                assert(g[i].1[j] == Cell(4));
                assert(joined_by(secs, g[i].0, g[i].1[j], 8) && keyed_at(g, g[i].1[j], 4));
            } else if j == 3 {
                assert(secs[2][0] == Cell(5) && secs[2][1] == Cell(8) && g[8].0 == Cell(8));
                assert(g[i].1[j] == Cell(8));
                assert(joined_by(secs, g[i].0, g[i].1[j], 2) && keyed_at(g, g[i].1[j], 8));
            }
        } else if i == 6 {
            assert(g[6].0 == Cell(6) && g[6].1 == seq![Cell(1), Cell(7), Cell(8), Cell(9)]);
            if j == 0 {
                assert(secs[1][1] == Cell(6) && secs[1][0] == Cell(1) && g[1].0 == Cell(1));
                assert(g[i].1[j] == Cell(1));
                assert(joined_by(secs, g[i].0, g[i].1[j], 1) && keyed_at(g, g[i].1[j], 1));
            } else if j == 1 {
                assert(secs[9][0] == Cell(6) && secs[9][1] == Cell(7) && g[7].0 == Cell(7));
                assert(g[i].1[j] == Cell(7));
                assert(joined_by(secs, g[i].0, g[i].1[j], 9) && keyed_at(g, g[i].1[j], 7));
            } else if j == 2 {
                assert(secs[9][0] == Cell(6) && secs[9][2] == Cell(8) && g[8].0 == Cell(8));
                assert(g[i].1[j] == Cell(8));
                assert(joined_by(secs, g[i].0, g[i].1[j], 9) && keyed_at(g, g[i].1[j], 8));
            } else if j == 3 {
                assert(secs[9][0] == Cell(6) && secs[9][3] == Cell(9) && g[9].0 == Cell(9));
                assert(g[i].1[j] == Cell(9));
                assert(joined_by(secs, g[i].0, g[i].1[j], 9) && keyed_at(g, g[i].1[j], 9));
            }
        } else if i == 7 {
            assert(g[7].0 == Cell(7) && g[7].1 == seq![Cell(6), Cell(8), Cell(9)]);
            if j == 0 {
                assert(secs[9][1] == Cell(7) && secs[9][0] == Cell(6) && g[6].0 == Cell(6));
                assert(g[i].1[j] == Cell(6));
                assert(joined_by(secs, g[i].0, g[i].1[j], 9) && keyed_at(g, g[i].1[j], 6));
            } else if j == 1 {
                assert(secs[9][1] == Cell(7) && secs[9][2] == Cell(8) && g[8].0 == Cell(8));
                assert(g[i].1[j] == Cell(8));
                assert(joined_by(secs, g[i].0, g[i].1[j], 9) && keyed_at(g, g[i].1[j], 8));
            } else if j == 2 {
                assert(secs[9][1] == Cell(7) && secs[9][3] == Cell(9) && g[9].0 == Cell(9));
                assert(g[i].1[j] == Cell(9));
                assert(joined_by(secs, g[i].0, g[i].1[j], 9) && keyed_at(g, g[i].1[j], 9));
            }
        } else if i == 8 {
            assert(g[8].0 == Cell(8) && g[8].1 == seq![Cell(5), Cell(6), Cell(7), Cell(9), Cell(17)]);
            if j == 0 {
                assert(secs[2][1] == Cell(8) && secs[2][0] == Cell(5) && g[5].0 == Cell(5));
                assert(g[i].1[j] == Cell(5));
                assert(joined_by(secs, g[i].0, g[i].1[j], 2) && keyed_at(g, g[i].1[j], 5));
            } else if j == 1 {
                assert(secs[9][2] == Cell(8) && secs[9][0] == Cell(6) && g[6].0 == Cell(6));
                assert(g[i].1[j] == Cell(6));
                assert(joined_by(secs, g[i].0, g[i].1[j], 9) && keyed_at(g, g[i].1[j], 6));
            } else if j == 2 {
                assert(secs[9][2] == Cell(8) && secs[9][1] == Cell(7) && g[7].0 == Cell(7));
                assert(g[i].1[j] == Cell(7));
                assert(joined_by(secs, g[i].0, g[i].1[j], 9) && keyed_at(g, g[i].1[j], 7));
            } else if j == 3 {
                assert(secs[9][2] == Cell(8) && secs[9][3] == Cell(9) && g[9].0 == Cell(9));
                assert(g[i].1[j] == Cell(9));
                assert(joined_by(secs, g[i].0, g[i].1[j], 9) && keyed_at(g, g[i].1[j], 9));
            } else if j == 4 {
                assert(secs[3][0] == Cell(8) && secs[3][1] == Cell(17) && g[17].0 == Cell(17));
                assert(g[i].1[j] == Cell(17));
                assert(joined_by(secs, g[i].0, g[i].1[j], 3) && keyed_at(g, g[i].1[j], 17));
            }
        } else if i == 9 {
            assert(g[9].0 == Cell(9) && g[9].1 == seq![Cell(6), Cell(7), Cell(8), Cell(12)]);
            if j == 0 {
                assert(secs[9][3] == Cell(9) && secs[9][0] == Cell(6) && g[6].0 == Cell(6));
                assert(g[i].1[j] == Cell(6));
                assert(joined_by(secs, g[i].0, g[i].1[j], 9) && keyed_at(g, g[i].1[j], 6));
            } else if j == 1 {
                assert(secs[9][3] == Cell(9) && secs[9][1] == Cell(7) && g[7].0 == Cell(7));
                assert(g[i].1[j] == Cell(7));
                assert(joined_by(secs, g[i].0, g[i].1[j], 9) && keyed_at(g, g[i].1[j], 7));
            } else if j == 2 {
                assert(secs[9][3] == Cell(9) && secs[9][2] == Cell(8) && g[8].0 == Cell(8));
                assert(g[i].1[j] == Cell(8));
                assert(joined_by(secs, g[i].0, g[i].1[j], 9) && keyed_at(g, g[i].1[j], 8));
            } else if j == 3 {
                assert(secs[4][0] == Cell(9) && secs[4][1] == Cell(12) && g[12].0 == Cell(12));
                assert(g[i].1[j] == Cell(12));
                assert(joined_by(secs, g[i].0, g[i].1[j], 4) && keyed_at(g, g[i].1[j], 12));
            }
        } else if i == 10 {
            assert(g[10].0 == Cell(10) && g[10].1 == seq![Cell(11), Cell(12), Cell(13)]);
            if j == 0 {
                assert(secs[10][0] == Cell(10) && secs[10][1] == Cell(11) && g[11].0 == Cell(11));
                assert(g[i].1[j] == Cell(11));
                assert(joined_by(secs, g[i].0, g[i].1[j], 10) && keyed_at(g, g[i].1[j], 11));
            } else if j == 1 {
                assert(secs[10][0] == Cell(10) && secs[10][2] == Cell(12) && g[12].0 == Cell(12));
                assert(g[i].1[j] == Cell(12));
                assert(joined_by(secs, g[i].0, g[i].1[j], 10) && keyed_at(g, g[i].1[j], 12));
            } else if j == 2 {
                assert(secs[10][0] == Cell(10) && secs[10][3] == Cell(13) && g[13].0 == Cell(13));
                assert(g[i].1[j] == Cell(13));
                assert(joined_by(secs, g[i].0, g[i].1[j], 10) && keyed_at(g, g[i].1[j], 13));
            }
        } else if i == 11 {
            assert(g[11].0 == Cell(11) && g[11].1 == seq![Cell(10), Cell(12), Cell(13)]);
            if j == 0 {
                assert(secs[10][1] == Cell(11) && secs[10][0] == Cell(10) && g[10].0 == Cell(10));
                assert(g[i].1[j] == Cell(10));
                assert(joined_by(secs, g[i].0, g[i].1[j], 10) && keyed_at(g, g[i].1[j], 10));
            } else if j == 1 {
                assert(secs[10][1] == Cell(11) && secs[10][2] == Cell(12) && g[12].0 == Cell(12));
                assert(g[i].1[j] == Cell(12));
                assert(joined_by(secs, g[i].0, g[i].1[j], 10) && keyed_at(g, g[i].1[j], 12));
            } else if j == 2 {
                assert(secs[10][1] == Cell(11) && secs[10][3] == Cell(13) && g[13].0 == Cell(13));
                assert(g[i].1[j] == Cell(13));
                assert(joined_by(secs, g[i].0, g[i].1[j], 10) && keyed_at(g, g[i].1[j], 13));
            }
        } else if i == 12 {
            assert(g[12].0 == Cell(12) && g[12].1 == seq![Cell(9), Cell(10), Cell(11), Cell(13)]);
            if j == 0 {
                assert(secs[4][1] == Cell(12) && secs[4][0] == Cell(9) && g[9].0 == Cell(9));
                assert(g[i].1[j] == Cell(9));
                assert(joined_by(secs, g[i].0, g[i].1[j], 4) && keyed_at(g, g[i].1[j], 9));
            } else if j == 1 {
                assert(secs[10][2] == Cell(12) && secs[10][0] == Cell(10) && g[10].0 == Cell(10));
                assert(g[i].1[j] == Cell(10));
                assert(joined_by(secs, g[i].0, g[i].1[j], 10) && keyed_at(g, g[i].1[j], 10));
            } else if j == 2 {
                assert(secs[10][2] == Cell(12) && secs[10][1] == Cell(11) && g[11].0 == Cell(11));
                assert(g[i].1[j] == Cell(11));
                assert(joined_by(secs, g[i].0, g[i].1[j], 10) && keyed_at(g, g[i].1[j], 11));
            } else if j == 3 {
                assert(secs[10][2] == Cell(12) && secs[10][3] == Cell(13) && g[13].0 == Cell(13));
                assert(g[i].1[j] == Cell(13));
                assert(joined_by(secs, g[i].0, g[i].1[j], 10) && keyed_at(g, g[i].1[j], 13));
            }
        } else if i == 13 {
            assert(g[13].0 == Cell(13) && g[13].1 == seq![Cell(10), Cell(11), Cell(12), Cell(15)]);
            if j == 0 {
                assert(secs[10][3] == Cell(13) && secs[10][0] == Cell(10) && g[10].0 == Cell(10));
                assert(g[i].1[j] == Cell(10));
                assert(joined_by(secs, g[i].0, g[i].1[j], 10) && keyed_at(g, g[i].1[j], 10));
            } else if j == 1 {
                assert(secs[10][3] == Cell(13) && secs[10][1] == Cell(11) && g[11].0 == Cell(11));
                assert(g[i].1[j] == Cell(11));
                assert(joined_by(secs, g[i].0, g[i].1[j], 10) && keyed_at(g, g[i].1[j], 11));
            } else if j == 2 {
                assert(secs[10][3] == Cell(13) && secs[10][2] == Cell(12) && g[12].0 == Cell(12));
                assert(g[i].1[j] == Cell(12));
                assert(joined_by(secs, g[i].0, g[i].1[j], 10) && keyed_at(g, g[i].1[j], 12));
            } else if j == 3 {
                assert(secs[5][0] == Cell(13) && secs[5][1] == Cell(15) && g[15].0 == Cell(15));
                assert(g[i].1[j] == Cell(15));
                assert(joined_by(secs, g[i].0, g[i].1[j], 5) && keyed_at(g, g[i].1[j], 15));
            }
        } else if i == 14 {
            assert(g[14].0 == Cell(14) && g[14].1 == seq![Cell(15)]);
            if j == 0 {
                assert(secs[6][0] == Cell(14) && secs[6][1] == Cell(15) && g[15].0 == Cell(15));
                assert(g[i].1[j] == Cell(15));
                assert(joined_by(secs, g[i].0, g[i].1[j], 6) && keyed_at(g, g[i].1[j], 15));
            }
        } else if i == 15 {
            assert(g[15].0 == Cell(15) && g[15].1 == seq![Cell(13), Cell(14)]);
            if j == 0 {
                assert(secs[5][1] == Cell(15) && secs[5][0] == Cell(13) && g[13].0 == Cell(13));
                assert(g[i].1[j] == Cell(13));
                assert(joined_by(secs, g[i].0, g[i].1[j], 5) && keyed_at(g, g[i].1[j], 13));
            } else if j == 1 {
                assert(secs[6][1] == Cell(15) && secs[6][0] == Cell(14) && g[14].0 == Cell(14));
                assert(g[i].1[j] == Cell(14));
                assert(joined_by(secs, g[i].0, g[i].1[j], 6) && keyed_at(g, g[i].1[j], 14));
            }
        } else if i == 16 {
            assert(g[16].0 == Cell(16) && g[16].1 == seq![Cell(17)]);
            if j == 0 {
                assert(secs[7][0] == Cell(16) && secs[7][1] == Cell(17) && g[17].0 == Cell(17));
                assert(g[i].1[j] == Cell(17));
                assert(joined_by(secs, g[i].0, g[i].1[j], 7) && keyed_at(g, g[i].1[j], 17));
            }
        } else if i == 17 {
            assert(g[17].0 == Cell(17) && g[17].1 == seq![Cell(8), Cell(16)]);
            if j == 0 {
                assert(secs[3][1] == Cell(17) && secs[3][0] == Cell(8) && g[8].0 == Cell(8));
                assert(g[i].1[j] == Cell(8));
                assert(joined_by(secs, g[i].0, g[i].1[j], 3) && keyed_at(g, g[i].1[j], 8));
            } else if j == 1 {
                assert(secs[7][1] == Cell(17) && secs[7][0] == Cell(16) && g[16].0 == Cell(16));
                assert(g[i].1[j] == Cell(16));
                assert(joined_by(secs, g[i].0, g[i].1[j], 7) && keyed_at(g, g[i].1[j], 16));
            }
        }
    }
}


/// The sections of the first ship layout's nav mesh hold the cells
/// [`first_ship_section_cells`] lists.
proof fn lemma_first_ship_sections(m: NavMesh)
    requires
        m.lines@ == first_ship_lines(),
        m.squares@ == first_ship_squares(),
    ensures
        m.section_seq().len() == 11,
        forall|k: int|
            0 <= k < 11 ==> #[trigger] m.section_seq()[k].cell_seq()
                == first_ship_section_cells()[k],
{
    reveal(first_ship_lines);
    reveal(first_ship_squares);
    reveal(first_ship_section_cells);
    let secs = first_ship_section_cells();
    assert(m.section_seq().len() == 11);
    assert forall|k: int| 0 <= k < 11 implies #[trigger] m.section_seq()[k].cell_seq() == secs[k] by {
        if k < 8 {
            assert(m.section_seq()[k] == NavSection::Line(first_ship_lines()[k]));
        } else {
            assert(m.section_seq()[k] == NavSection::Square(first_ship_squares()[k - 8]));
        }
        if k == 0 {
        } else if k == 1 {
        } else if k == 2 {
        } else if k == 3 {
        } else if k == 4 {
        } else if k == 5 {
        } else if k == 6 {
        } else if k == 7 {
        } else if k == 8 {
        } else if k == 9 {
        } else if k == 10 {
        }
    }
}

/// The first ship layout's path graph fits its nav mesh (see [`PathGraph::fits_mesh`]): crew
/// can walk every step it plans.
pub proof fn lemma_first_ship_fits(g: PathGraph, m: NavMesh)
    requires
        g.edges@.map_values(|e: (Cell, Vec<Cell>)| (e.0, e.1@)) == first_ship_graph(),
        m.lines@ == first_ship_lines(),
        m.squares@ == first_ship_squares(),
    ensures
        g.fits_mesh(m),
{
    reveal(first_ship_graph);
    reveal(first_ship_section_cells);
    let gv = first_ship_graph();
    let secs = first_ship_section_cells();
    lemma_first_ship_steps(gv, secs);
    lemma_first_ship_sections(m);
    assert forall|u: Cell, v: Cell| #[trigger] g.edge(u, v) implies m.first_section_with(u, v) is Some
        && g.has_node(v) by {
        reveal(PathGraph::edge);
        g.lemma_node_index(u);
        let i = g.node_index(u);
        let ns = g.edges@[i].1@;
        let j = choose|j: int| 0 <= j < ns.len() && ns[j] == v;
        assert(gv[i] == (g.edges@[i].0, g.edges@[i].1@));
        assert(gv[i].1[j] == v);
        assert(step_on_sections(gv, secs, i, j));
        let k = choose|k: int| #[trigger] joined_by(secs, gv[i].0, gv[i].1[j], k);
        assert(joins(m.section_seq()[k], u, v));
        let t = choose|t: int| #[trigger] keyed_at(gv, gv[i].1[j], t);
        assert(gv[t] == (g.edges@[t].0, g.edges@[t].1@));
        assert(g.edges@[t].0 == v);
    }
}


/// Whether cell number `n` lies in section `k` of the first ship layout's nav mesh.
spec fn first_ship_section_has(k: int, n: usize) -> bool {
    if k == 0 {
        n == 0 || n == 1
    } else if k == 1 {
        n == 1 || n == 6
    } else if k == 2 {
        n == 5 || n == 8
    } else if k == 3 {
        n == 8 || n == 17
    } else if k == 4 {
        n == 9 || n == 12
    } else if k == 5 {
        n == 13 || n == 15
    } else if k == 6 {
        n == 14 || n == 15
    } else if k == 7 {
        n == 16 || n == 17
    } else if k == 8 {
        2 <= n <= 5
    } else if k == 9 {
        6 <= n <= 9
    } else {
        10 <= n <= 13
    }
}

/// Section `k` of the first ship layout's nav mesh holds exactly the cells
/// [`first_ship_section_has`] names.
proof fn lemma_first_ship_section_has(k: int, c: Cell)
    requires
        0 <= k < 11,
    ensures
        first_ship_section_cells()[k].contains(c) <==> first_ship_section_has(k, c.0),
{
    reveal(first_ship_section_cells);
    let sec = first_ship_section_cells()[k];
    if first_ship_section_has(k, c.0) {
        if k < 8 {
            if sec[0] == c {
                assert(sec[0] == c);
            } else {
                assert(sec[1] == c);
            }
        } else {
            let first: int = if k == 8 { 2 } else if k == 9 { 6 } else { 10 };
            assert(sec[c.0 - first] == c);
        }
    }
}

/// The first ship layout's nav mesh joins two distinct cells by at most one section, so the
/// section that holds the way between two cells is unique.
pub proof fn lemma_first_ship_sections_unique(m: NavMesh, a: Cell, b: Cell, i: int, j: int)
    requires
        m.lines@ == first_ship_lines(),
        m.squares@ == first_ship_squares(),
        a != b,
        0 <= i < m.section_seq().len(),
        0 <= j < m.section_seq().len(),
        joins(m.section_seq()[i], a, b),
        joins(m.section_seq()[j], a, b),
    ensures
        i == j,
{
    lemma_first_ship_sections(m);
    assert(m.section_seq()[i].cell_seq() == first_ship_section_cells()[i]);
    assert(m.section_seq()[j].cell_seq() == first_ship_section_cells()[j]);
    lemma_first_ship_section_has(i, a);
    lemma_first_ship_section_has(i, b);
    lemma_first_ship_section_has(j, a);
    lemma_first_ship_section_has(j, b);
}

/// Whether rooms `a` and `b` of `rooms` are joined: they differ, and the path graph entries `g`
/// hold a step from a cell of room `a` to a cell of room `b`.
#[verifier::opaque]
pub open spec fn rooms_joined(rooms: Seq<Seq<Cell>>, g: Seq<(Cell, Seq<Cell>)>, a: int, b: int) -> bool {
    &&& 0 <= a < rooms.len()
    &&& 0 <= b < rooms.len()
    &&& a != b
    &&& exists|i: int, j: int|
        0 <= i < g.len() && 0 <= j < g[i].1.len() && rooms[a].contains(g[i].0) && #[trigger] rooms[b].contains(
            g[i].1[j],
        )
}

/// Joined rooms are two different rooms.
pub proof fn lemma_rooms_joined_bounds(rooms: Seq<Seq<Cell>>, g: Seq<(Cell, Seq<Cell>)>, a: int, b: int)
    requires
        rooms_joined(rooms, g, a, b),
    ensures
        0 <= a < rooms.len(),
        0 <= b < rooms.len(),
        a != b,
{
    reveal(rooms_joined);
}

/// The rooms below `n` that are joined to room `a`, in increasing order.
pub open spec fn joined_below(rooms: Seq<Seq<Cell>>, g: Seq<(Cell, Seq<Cell>)>, a: int, n: int) -> Seq<usize>
    decreases n,
{
    if n <= 0 {
        seq![]
    } else {
        joined_below(rooms, g, a, n - 1) + if rooms_joined(rooms, g, a, n - 1) {
            seq![(n - 1) as usize]
        } else {
            seq![]
        }
    }
}

/// A room is among [`joined_below`] exactly when it is below the bound and joined.
pub proof fn lemma_joined_below(rooms: Seq<Seq<Cell>>, g: Seq<(Cell, Seq<Cell>)>, a: int, n: int)
    requires
        0 <= n <= usize::MAX,
    ensures
        forall|b: usize| #[trigger] joined_below(rooms, g, a, n).contains(b) <==> (b < n && rooms_joined(rooms, g, a, b as int)),
    decreases n,
{
    if n > 0 {
        lemma_joined_below(rooms, g, a, n - 1);
        let prev = joined_below(rooms, g, a, n - 1);
        let cur = joined_below(rooms, g, a, n);
        if rooms_joined(rooms, g, a, n - 1) {
            assert(cur =~= prev.push((n - 1) as usize));
        } else {
            assert(cur =~= prev);
        }
        assert forall|b: usize| #[trigger] cur.contains(b) <==> (b < n && rooms_joined(rooms, g, a, b as int)) by {
            if cur.contains(b) {
                let k = choose|k: int| 0 <= k < cur.len() && cur[k] == b;
                if k < prev.len() {
                    assert(prev[k] == b);
                    assert(prev.contains(b));
                }
            }
            if b < n && rooms_joined(rooms, g, a, b as int) {
                if b < n - 1 {
                    assert(prev.contains(b));
                    let k = choose|k: int| 0 <= k < prev.len() && prev[k] == b;
                    assert(cur[k] == b);
                } else {
                    assert(cur[prev.len() as int] == b);
                }
            }
        }
    }
}

/// The rooms of [`joined_below`] increase strictly and stay below the bound.
pub proof fn lemma_joined_below_increasing(rooms: Seq<Seq<Cell>>, g: Seq<(Cell, Seq<Cell>)>, a: int, n: int)
    requires
        0 <= n <= usize::MAX,
    ensures
        forall|i: int, j: int|
            0 <= i < j < joined_below(rooms, g, a, n).len() ==> #[trigger] joined_below(rooms, g, a, n)[i]
                < #[trigger] joined_below(rooms, g, a, n)[j],
        forall|i: int| 0 <= i < joined_below(rooms, g, a, n).len() ==> #[trigger] joined_below(rooms, g, a, n)[i] < n,
    decreases n,
{
    if n > 0 {
        lemma_joined_below_increasing(rooms, g, a, n - 1);
        let prev = joined_below(rooms, g, a, n - 1);
        let cur = joined_below(rooms, g, a, n);
        if rooms_joined(rooms, g, a, n - 1) {
            assert(cur =~= prev.push((n - 1) as usize));
        } else {
            assert(cur =~= prev);
        }
        assert forall|i: int| 0 <= i < cur.len() implies #[trigger] cur[i] < n by {
            if i < prev.len() {
                assert(cur[i] == prev[i]);
            }
        }
        assert forall|i: int, j: int| 0 <= i < j < cur.len() implies #[trigger] cur[i] < #[trigger] cur[j] by {
            assert(cur[i] == prev[i]);
            if j < prev.len() {
                assert(cur[j] == prev[j]);
            }
        }
    }
}

impl ShipType {
    /// Whether rooms `a` and `b` are joined by a step of the path graph (see [`rooms_joined`]).
    fn rooms_joined_exec(&self, a: usize, b: usize) -> (r: bool)
        requires
            a < self.rooms@.len(),
            b < self.rooms@.len(),
        ensures
            r == rooms_joined(self.room_cells(), self.graph_view(), a as int, b as int),
    {
        if a == b {
            proof {
                reveal(rooms_joined);
            }
            return false;
        }
        let ghost rooms = self.room_cells();
        let ghost g = self.graph_view();
        let mut i: usize = 0;
        while i < self.path_graph.len()
            invariant
                rooms == self.room_cells(),
                g == self.graph_view(),
                a < rooms.len(),
                b < rooms.len(),
                a != b,
                i <= g.len(),
                forall|i2: int, j2: int|
                    0 <= i2 < i && 0 <= j2 < g[i2].1.len() && rooms[a as int].contains(g[i2].0) ==> !(
                    #[trigger] rooms[b as int].contains(g[i2].1[j2])),
            decreases self.path_graph.len() - i,
        {
            let entry = &self.path_graph[i];
            assert(g[i as int] == (entry.0, entry.1@));
            if self.rooms[a].has_cell(entry.0) {
                assert(rooms[a as int] == self.rooms@[a as int].cells@);
                let mut j: usize = 0;
                while j < entry.1.len()
                    invariant
                        rooms == self.room_cells(),
                        g == self.graph_view(),
                        a < rooms.len(),
                        b < rooms.len(),
                        a != b,
                        i < g.len(),
                        g[i as int] == (entry.0, entry.1@),
                        rooms[a as int].contains(g[i as int].0),
                        j <= entry.1@.len(),
                        forall|j2: int| 0 <= j2 < j ==> !(#[trigger] rooms[b as int].contains(g[i as int].1[j2])),
                    decreases entry.1.len() - j,
                {
                    if self.rooms[b].has_cell(entry.1[j]) {
                        assert(rooms[b as int] == self.rooms@[b as int].cells@);
                        assert(rooms[b as int].contains(g[i as int].1[j as int]));
                        assert(exists|i2: int, j2: int|
                            0 <= i2 < g.len() && 0 <= j2 < g[i2].1.len() && rooms[a as int].contains(
                                g[i2].0,
                            ) && #[trigger] rooms[b as int].contains(g[i2].1[j2]));
                        proof {
                            reveal(rooms_joined);
                        }
                        return true;
                    }
                    j = j + 1;
                }
            }
            i = i + 1;
        }
        proof {
            reveal(rooms_joined);
        }
        false
    }

    /// The rooms joined to room `room` by a step of the path graph, in increasing order.
    pub fn neighbors_of_room(&self, room: usize) -> (r: Vec<usize>)
        requires
            room < self.rooms@.len(),
        ensures
            r@ == joined_below(self.room_cells(), self.graph_view(), room as int, self.rooms@.len() as int),
    {
        let mut r: Vec<usize> = Vec::new();
        let mut b: usize = 0;
        while b < self.rooms.len()
            invariant
                room < self.rooms@.len(),
                b <= self.rooms@.len(),
                r@ == joined_below(self.room_cells(), self.graph_view(), room as int, b as int),
            decreases self.rooms.len() - b,
        {
            if self.rooms_joined_exec(room, b) {
                r.push(b);
            }
            b = b + 1;
            proof {
                assert(r@ =~= joined_below(self.room_cells(), self.graph_view(), room as int, b as int));
            }
        }
        r
    }
}

/// Whether a ship layout is consistent: its path graph fits its nav mesh, every cell of the
/// graph lies in a room, every cell of a room or of a nav section has an entry in the graph,
/// every cell with an entry reaches every other, and the graph is well formed (see
/// [`PathGraph::wf`]).
#[verifier::opaque]
pub open spec fn layout_ok(rooms: Seq<Seq<Cell>>, g: PathGraph, m: NavMesh) -> bool {
    &&& g.wf()
    &&& g.fits_mesh(m)
    &&& forall|a: Cell, b: Cell| g.has_node(a) && g.has_node(b) ==> #[trigger] g.reachable(a, b)
    &&& forall|c: Cell| #[trigger] g.has_node(c) ==> first_room_with(rooms, c) is Some
    &&& forall|r: int, c: Cell|
        0 <= r < rooms.len() && #[trigger] rooms[r].contains(c) ==> g.has_node(c)
    &&& forall|k: int, c: Cell|
        0 <= k < m.section_seq().len() && #[trigger] m.section_seq()[k].cell_seq().contains(c)
            ==> g.has_node(c)
}

/// The cells of the first ship layout are the first eighteen.
proof fn lemma_first_ship_cells()
    ensures
        forall|i: int| 0 <= i < 18 ==> (#[trigger] first_ship_graph()[i]).0 == Cell(i as usize),
        forall|r: int, a: int|
            0 <= r < 6 && 0 <= a < first_ship_rooms()[r].len() ==> (
            #[trigger] first_ship_rooms()[r][a]).0 < 18,
        forall|k: int, a: int|
            0 <= k < 11 && 0 <= a < first_ship_section_cells()[k].len() ==> (
            #[trigger] first_ship_section_cells()[k][a]).0 < 18,
        forall|c: Cell| c.0 < 18 ==> #[trigger] first_room_with(first_ship_rooms(), c) is Some,
{
    reveal(first_ship_rooms);
    reveal(first_ship_graph);
    reveal(first_ship_section_cells);
    let g = first_ship_graph();
    let rooms = first_ship_rooms();
    let secs = first_ship_section_cells();
    assert forall|i: int| 0 <= i < 18 implies (#[trigger] g[i]).0 == Cell(i as usize) by {
        if i == 0 {
            assert(g[0].0 == Cell(0));
        } else if i == 1 {
            assert(g[1].0 == Cell(1));
        } else if i == 2 {
            assert(g[2].0 == Cell(2));
        } else if i == 3 {
            assert(g[3].0 == Cell(3));
        } else if i == 4 {
            assert(g[4].0 == Cell(4));
        } else if i == 5 {
            assert(g[5].0 == Cell(5));
        } else if i == 6 {
            assert(g[6].0 == Cell(6));
        } else if i == 7 {
            assert(g[7].0 == Cell(7));
        } else if i == 8 {
            assert(g[8].0 == Cell(8));
        } else if i == 9 {
            assert(g[9].0 == Cell(9));
        } else if i == 10 {
            assert(g[10].0 == Cell(10));
        } else if i == 11 {
            assert(g[11].0 == Cell(11));
        } else if i == 12 {
            assert(g[12].0 == Cell(12));
        } else if i == 13 {
            assert(g[13].0 == Cell(13));
        } else if i == 14 {
            assert(g[14].0 == Cell(14));
        } else if i == 15 {
            assert(g[15].0 == Cell(15));
        } else if i == 16 {
            assert(g[16].0 == Cell(16));
        } else if i == 17 {
            assert(g[17].0 == Cell(17));
        }
    }
    assert forall|r: int, a: int| 0 <= r < 6 && 0 <= a < rooms[r].len() implies (
    #[trigger] rooms[r][a]).0 < 18 by {
        if r == 0 {
            assert(rooms[0] == seq![Cell(0), Cell(1)]);
        } else if r == 1 {
            assert(rooms[1] == seq![Cell(2), Cell(3), Cell(4), Cell(5)]);
        } else if r == 2 {
            assert(rooms[2] == seq![Cell(6), Cell(7), Cell(8), Cell(9)]);
        } else if r == 3 {
            assert(rooms[3] == seq![Cell(10), Cell(11), Cell(12), Cell(13)]);
        } else if r == 4 {
            assert(rooms[4] == seq![Cell(14), Cell(15)]);
        } else if r == 5 {
            assert(rooms[5] == seq![Cell(16), Cell(17)]);
        }
    }
    assert forall|k: int, a: int| 0 <= k < 11 && 0 <= a < secs[k].len() implies (
    #[trigger] secs[k][a]).0 < 18 by {
        if k == 0 {
            assert(secs[0] == seq![Cell(0), Cell(1)]);
        } else if k == 1 {
            assert(secs[1] == seq![Cell(1), Cell(6)]);
        } else if k == 2 {
            assert(secs[2] == seq![Cell(5), Cell(8)]);
        } else if k == 3 {
            assert(secs[3] == seq![Cell(8), Cell(17)]);
        } else if k == 4 {
            assert(secs[4] == seq![Cell(9), Cell(12)]);
        } else if k == 5 {
            assert(secs[5] == seq![Cell(13), Cell(15)]);
        } else if k == 6 {
            assert(secs[6] == seq![Cell(14), Cell(15)]);
        } else if k == 7 {
            assert(secs[7] == seq![Cell(16), Cell(17)]);
        } else if k == 8 {
            assert(secs[8] == seq![Cell(2), Cell(3), Cell(4), Cell(5)]);
        } else if k == 9 {
            assert(secs[9] == seq![Cell(6), Cell(7), Cell(8), Cell(9)]);
        } else if k == 10 {
            assert(secs[10] == seq![Cell(10), Cell(11), Cell(12), Cell(13)]);
        }
    }
    assert forall|c: Cell| c.0 < 18 implies #[trigger] first_room_with(rooms, c) is Some by {
        let n = c.0;
        if n == 0 {
            assert(rooms[0][0] == c);
            assert(rooms[0].contains(c));
        } else if n == 1 {
            assert(rooms[0][1] == c);
            assert(rooms[0].contains(c));
        } else if n == 2 {
            assert(rooms[1][0] == c);
            assert(rooms[1].contains(c));
        } else if n == 3 {
            assert(rooms[1][1] == c);
            assert(rooms[1].contains(c));
        } else if n == 4 {
            assert(rooms[1][2] == c);
            assert(rooms[1].contains(c));
        } else if n == 5 {
            assert(rooms[1][3] == c);
            assert(rooms[1].contains(c));
        } else if n == 6 {
            assert(rooms[2][0] == c);
            assert(rooms[2].contains(c));
        } else if n == 7 {
            assert(rooms[2][1] == c);
            assert(rooms[2].contains(c));
        } else if n == 8 {
            assert(rooms[2][2] == c);
            assert(rooms[2].contains(c));
        } else if n == 9 {
            assert(rooms[2][3] == c);
            assert(rooms[2].contains(c));
        } else if n == 10 {
            assert(rooms[3][0] == c);
            assert(rooms[3].contains(c));
        } else if n == 11 {
            assert(rooms[3][1] == c);
            assert(rooms[3].contains(c));
        } else if n == 12 {
            assert(rooms[3][2] == c);
            assert(rooms[3].contains(c));
        } else if n == 13 {
            assert(rooms[3][3] == c);
            assert(rooms[3].contains(c));
        } else if n == 14 {
            assert(rooms[4][0] == c);
            assert(rooms[4].contains(c));
        } else if n == 15 {
            assert(rooms[4][1] == c);
            assert(rooms[4].contains(c));
        } else if n == 16 {
            assert(rooms[5][0] == c);
            assert(rooms[5].contains(c));
        } else if n == 17 {
            assert(rooms[5][1] == c);
            assert(rooms[5].contains(c));
        }
    }
}


/// Step `k` of entry `u` of the first ship layout's path graph is a step of a graph with
/// those entries.
proof fn lemma_first_ship_edge(g: PathGraph, u: usize, k: int)
    requires
        g.edges@.map_values(|e: (Cell, Vec<Cell>)| (e.0, e.1@)) == first_ship_graph(),
        u < 18,
        0 <= k < first_ship_graph()[u as int].1.len(),
    ensures
        g.edge(Cell(u), first_ship_graph()[u as int].1[k]),
{
    reveal(PathGraph::edge);
    lemma_first_ship_cells();
    let gv = first_ship_graph();
    assert(gv.len() == 18) by {
        reveal(first_ship_graph);
    }
    assert(gv[u as int] == (g.edges@[u as int].0, g.edges@[u as int].1@));
    assert(g.has_node(Cell(u)));
    g.lemma_node_index(Cell(u));
    let n = g.node_index(Cell(u));
    assert(gv[n] == (g.edges@[n].0, g.edges@[n].1@));
    assert(n == u);
    assert(g.neighbors(Cell(u))[k] == gv[u as int].1[k]);
}

/// A cell of the first ship layout reaches what the cell at step `k` from it reaches.
proof fn lemma_first_ship_reach_via(g: PathGraph, u: usize, k: int, b: Cell)
    requires
        g.edges@.map_values(|e: (Cell, Vec<Cell>)| (e.0, e.1@)) == first_ship_graph(),
        u < 18,
        0 <= k < first_ship_graph()[u as int].1.len(),
        g.reachable(first_ship_graph()[u as int].1[k], b),
    ensures
        g.reachable(Cell(u), b),
{
    lemma_first_ship_edge(g, u, k);
    lemma_reach_edge(g, Cell(u), first_ship_graph()[u as int].1[k]);
    lemma_reach_trans(g, Cell(u), first_ship_graph()[u as int].1[k], b);
}

/// What reaches a cell of the first ship layout reaches the cell at step `k` from it.
proof fn lemma_first_ship_reach_onto(g: PathGraph, a: Cell, u: usize, k: int)
    requires
        g.edges@.map_values(|e: (Cell, Vec<Cell>)| (e.0, e.1@)) == first_ship_graph(),
        u < 18,
        0 <= k < first_ship_graph()[u as int].1.len(),
        g.reachable(a, Cell(u)),
    ensures
        g.reachable(a, first_ship_graph()[u as int].1[k]),
{
    lemma_first_ship_edge(g, u, k);
    lemma_reach_edge(g, Cell(u), first_ship_graph()[u as int].1[k]);
    lemma_reach_trans(g, a, Cell(u), first_ship_graph()[u as int].1[k]);
}

/// The first ship layout's path graph has one entry per cell and no cell repeats among the
/// neighbors of an entry.
proof fn lemma_first_ship_graph_wf(g: PathGraph)
    requires
        g.edges@.map_values(|e: (Cell, Vec<Cell>)| (e.0, e.1@)) == first_ship_graph(),
    ensures
        g.wf(),
{
    reveal(PathGraph::wf);
    reveal(first_ship_graph);
    lemma_first_ship_cells();
    let gv = first_ship_graph();
    assert(gv.len() == 18);
    assert(g.edges@.map_values(|e: (Cell, Vec<Cell>)| (e.0, e.1@)).len() == g.edges@.len());
    assert(g.edges@.len() == 18);
    assert forall|i: int, j: int| 0 <= i < j < g.edges@.len() implies (#[trigger] g.edges@[i]).0 != (
    #[trigger] g.edges@[j]).0 by {
        assert(gv[i] == (g.edges@[i].0, g.edges@[i].1@));
        assert(gv[j] == (g.edges@[j].0, g.edges@[j].1@));
    }
    assert forall|i: int| 0 <= i < g.edges@.len() implies (#[trigger] g.edges@[i]).1@.no_duplicates() by {
        assert(gv[i] == (g.edges@[i].0, g.edges@[i].1@));
        if i == 0 {
            assert(gv[0].1.no_duplicates());
        } else if i == 1 {
            assert(gv[1].1.no_duplicates());
        } else if i == 2 {
            assert(gv[2].1.no_duplicates());
        } else if i == 3 {
            assert(gv[3].1.no_duplicates());
        } else if i == 4 {
            assert(gv[4].1.no_duplicates());
        } else if i == 5 {
            assert(gv[5].1.no_duplicates());
        } else if i == 6 {
            assert(gv[6].1.no_duplicates());
        } else if i == 7 {
            assert(gv[7].1.no_duplicates());
        } else if i == 8 {
            assert(gv[8].1.no_duplicates());
        } else if i == 9 {
            assert(gv[9].1.no_duplicates());
        } else if i == 10 {
            assert(gv[10].1.no_duplicates());
        } else if i == 11 {
            assert(gv[11].1.no_duplicates());
        } else if i == 12 {
            assert(gv[12].1.no_duplicates());
        } else if i == 13 {
            assert(gv[13].1.no_duplicates());
        } else if i == 14 {
            assert(gv[14].1.no_duplicates());
        } else if i == 15 {
            assert(gv[15].1.no_duplicates());
        } else if i == 16 {
            assert(gv[16].1.no_duplicates());
        } else {
            assert(gv[17].1.no_duplicates());
        }
    }
}

/// Every cell of the first ship layout's path graph reaches every other: crew can walk between
/// any two cells of the ship.
pub proof fn lemma_first_ship_connected(g: PathGraph)
    requires
        g.edges@.map_values(|e: (Cell, Vec<Cell>)| (e.0, e.1@)) == first_ship_graph(),
    ensures
        forall|a: Cell, b: Cell| g.has_node(a) && g.has_node(b) ==> #[trigger] g.reachable(a, b),
{
    reveal(first_ship_graph);
    lemma_first_ship_cells();
    let gv = first_ship_graph();
    let hub = Cell(8);
    lemma_reach_self(g, hub);
    lemma_first_ship_reach_via(g, 5, 3, hub);
    lemma_first_ship_reach_via(g, 6, 2, hub);
    lemma_first_ship_reach_via(g, 7, 1, hub);
    lemma_first_ship_reach_via(g, 9, 2, hub);
    lemma_first_ship_reach_via(g, 17, 0, hub);
    lemma_first_ship_reach_via(g, 1, 1, hub);
    lemma_first_ship_reach_via(g, 0, 0, hub);
    lemma_first_ship_reach_via(g, 2, 2, hub);
    lemma_first_ship_reach_via(g, 3, 2, hub);
    lemma_first_ship_reach_via(g, 4, 2, hub);
    lemma_first_ship_reach_via(g, 12, 0, hub);
    lemma_first_ship_reach_via(g, 10, 1, hub);
    lemma_first_ship_reach_via(g, 11, 1, hub);
    lemma_first_ship_reach_via(g, 13, 2, hub);
    lemma_first_ship_reach_via(g, 15, 0, hub);
    lemma_first_ship_reach_via(g, 14, 0, hub);
    lemma_first_ship_reach_via(g, 16, 0, hub);
    lemma_first_ship_reach_onto(g, hub, 8, 0);
    lemma_first_ship_reach_onto(g, hub, 8, 1);
    lemma_first_ship_reach_onto(g, hub, 8, 2);
    lemma_first_ship_reach_onto(g, hub, 8, 3);
    lemma_first_ship_reach_onto(g, hub, 8, 4);
    lemma_first_ship_reach_onto(g, hub, 6, 0);
    lemma_first_ship_reach_onto(g, hub, 1, 0);
    lemma_first_ship_reach_onto(g, hub, 5, 0);
    lemma_first_ship_reach_onto(g, hub, 5, 1);
    lemma_first_ship_reach_onto(g, hub, 5, 2);
    lemma_first_ship_reach_onto(g, hub, 9, 3);
    lemma_first_ship_reach_onto(g, hub, 12, 1);
    lemma_first_ship_reach_onto(g, hub, 12, 2);
    lemma_first_ship_reach_onto(g, hub, 12, 3);
    lemma_first_ship_reach_onto(g, hub, 13, 3);
    lemma_first_ship_reach_onto(g, hub, 15, 1);
    lemma_first_ship_reach_onto(g, hub, 17, 1);
    assert forall|x: usize| x < 18 implies #[trigger] g.reachable(Cell(x), hub) && g.reachable(hub, Cell(x)) by {
        if x == 0 {
        } else if x == 1 {
        } else if x == 2 {
        } else if x == 3 {
        } else if x == 4 {
        } else if x == 5 {
        } else if x == 6 {
        } else if x == 7 {
        } else if x == 8 {
        } else if x == 9 {
        } else if x == 10 {
        } else if x == 11 {
        } else if x == 12 {
        } else if x == 13 {
        } else if x == 14 {
        } else if x == 15 {
        } else if x == 16 {
        } else {
        }
    }
    assert forall|a: Cell, b: Cell| g.has_node(a) && g.has_node(b) implies #[trigger] g.reachable(a, b) by {
        let i = choose|i: int| 0 <= i < g.edges@.len() && g.edges@[i].0 == a;
        let j = choose|j: int| 0 <= j < g.edges@.len() && g.edges@[j].0 == b;
        assert(gv[i] == (g.edges@[i].0, g.edges@[i].1@));
        assert(gv[j] == (g.edges@[j].0, g.edges@[j].1@));
        assert(g.edges@.len() == gv.len());
        assert(gv[i].0 == Cell(i as usize) && gv[j].0 == Cell(j as usize));
        assert(a.0 < 18 && b.0 < 18);
        assert(g.reachable(Cell(a.0), hub) && g.reachable(hub, Cell(b.0)));
        lemma_reach_trans(g, a, hub, b);
    }
}

/// The first ship layout is consistent (see [`layout_ok`]).
pub proof fn lemma_first_ship_layout(rooms: Seq<Seq<Cell>>, g: PathGraph, m: NavMesh)
    requires
        rooms == first_ship_rooms(),
        g.edges@.map_values(|e: (Cell, Vec<Cell>)| (e.0, e.1@)) == first_ship_graph(),
        m.lines@ == first_ship_lines(),
        m.squares@ == first_ship_squares(),
    ensures
        layout_ok(rooms, g, m),
{
    reveal(layout_ok);
    reveal(first_ship_graph);
    reveal(first_ship_rooms);
    let gv = first_ship_graph();
    lemma_first_ship_fits(g, m);
    lemma_first_ship_connected(g);
    lemma_first_ship_graph_wf(g);
    lemma_first_ship_sections(m);
    lemma_first_ship_cells();
    assert(gv.len() == 18);
    assert forall|c: Cell| #[trigger] g.has_node(c) implies first_room_with(rooms, c) is Some by {
        let i = choose|i: int| 0 <= i < g.edges@.len() && g.edges@[i].0 == c;
        assert(gv[i] == (g.edges@[i].0, g.edges@[i].1@));
        assert(gv[i].0 == Cell(i as usize));
    }
    assert forall|c: Cell| c.0 < 18 implies #[trigger] g.has_node(c) by {
        let i = c.0 as int;
        assert(gv[i] == (g.edges@[i].0, g.edges@[i].1@));
        assert(gv[i].0 == Cell(i as usize));
    }
    assert forall|r: int, c: Cell| 0 <= r < rooms.len() && #[trigger] rooms[r].contains(c) implies g.has_node(c) by {
        let a = choose|a: int| 0 <= a < rooms[r].len() && rooms[r][a] == c;
        assert(rooms[r][a].0 < 18);
    }
    assert forall|k: int, c: Cell|
        0 <= k < m.section_seq().len() && #[trigger] m.section_seq()[k].cell_seq().contains(c) implies g.has_node(c) by {
        let a = choose|a: int| 0 <= a < m.section_seq()[k].cell_seq().len() && m.section_seq()[k].cell_seq()[a] == c;
        assert(first_ship_section_cells()[k][a].0 < 18);
    }
}

} // verus!
