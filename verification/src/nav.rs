//! Crew navigation: the nav mesh that crew walk on, the graph of cells used for path planning, and
//! the paths that crew follow.

use vstd::prelude::*;
use std::collections::VecDeque;

verus! {

/// A cell of a ship's interior, identified by its index.
#[derive(Clone, Copy, Debug, PartialEq, Eq, Hash, Structural)]
pub struct Cell(pub usize);

/// A [`NavMesh`] section with one dimension. A crew member on this section has a single coordinate
/// in `[0, 1]`; `0` and `1` correspond to `self.0[0]` and `self.0[1]`, respectively.
#[derive(Clone, Copy, Debug)]
pub struct LineSection(pub [Cell; 2]);

/// A [`NavMesh`] section with two dimensions, with a cell at each corner.
#[derive(Clone, Copy, Debug)]
pub struct SquareSection(pub [[Cell; 2]; 2]);

/// The coordinate of `cell` along `line`: the index of its first occurrence.
pub open spec fn line_coords(line: LineSection, cell: Cell) -> usize {
    if line.0[0] == cell {
        0
    } else {
        1
    }
}

/// The row and column of the first corner of `square` (in row-major order) holding `cell`.
pub open spec fn square_coords(square: SquareSection, cell: Cell) -> (usize, usize) {
    if square.0[0][0] == cell {
        (0, 0)
    } else if square.0[0][1] == cell {
        (0, 1)
    } else if square.0[1][0] == cell {
        (1, 0)
    } else {
        (1, 1)
    }
}

impl LineSection {
    /// The cells at the two ends of the line, in order.
    pub open spec fn cell_seq(self) -> Seq<Cell> {
        seq![self.0[0], self.0[1]]
    }

    /// The coordinate of `cell` within this section: the index of its first occurrence. The
    /// coordinate that a crew member standing on `cell` has is this index as a real number.
    pub fn coords_of(&self, cell: Cell) -> (r: usize)
        requires
            self.cell_seq().contains(cell),
        ensures
            r == line_coords(*self, cell),
            r < 2,
            self.0[r as int] == cell,
            forall|i: int| 0 <= i < r ==> self.0[i] != cell,
    {
        if self.0[0] == cell {
            0
        } else {
            1
        }
    }
}

impl SquareSection {
    /// The corner cells in row-major order.
    pub open spec fn cell_seq(self) -> Seq<Cell> {
        seq![self.0[0][0], self.0[0][1], self.0[1][0], self.0[1][1]]
    }

    /// The coordinates `(i, j)` of the first corner (in row-major order) holding `cell`: it sits
    /// in row `i` at column `j`.
    pub fn coords_of(&self, cell: Cell) -> (r: (usize, usize))
        requires
            self.cell_seq().contains(cell),
        ensures
            r == square_coords(*self, cell),
            r.0 < 2,
            r.1 < 2,
            self.0[r.0 as int][r.1 as int] == cell,
            forall|k: int|
                0 <= k < 2 * r.0 + r.1 ==> self.cell_seq()[k] != cell,
    {
        if self.0[0][0] == cell {
            (0, 0)
        } else if self.0[0][1] == cell {
            (0, 1)
        } else if self.0[1][0] == cell {
            (1, 0)
        } else {
            (1, 1)
        }
    }
}

/// A [`NavMesh`] section. Can either be a line spanning two cells or a square with a cell at each
/// corner. A crew member on a section is on one of its cells when its coordinates are those of
/// that cell; it can then also be considered to be on any other section containing that cell.
/// Crew traverse the nav mesh by moving along a section until they reach a shared cell, then
/// moving on to the next section, until they arrive at their destination.
#[derive(Clone, Copy, Debug)]
pub enum NavSection {
    Line(LineSection),
    Square(SquareSection),
}

impl NavSection {
    /// The cells of this section, in the order in which [`NavSection::cells`] lists them.
    pub open spec fn cell_seq(self) -> Seq<Cell> {
        match self {
            NavSection::Line(l) => l.cell_seq(),
            NavSection::Square(s) => s.cell_seq(),
        }
    }

    /// Whether this nav section extends to `cell`.
    pub fn contains(&self, cell: Cell) -> (r: bool)
        ensures
            r == self.cell_seq().contains(cell),
    {
        let cells = self.cells();
        let mut i: usize = 0;
        while i < cells.len()
            invariant
                cells@ == self.cell_seq(),
                i <= cells@.len(),
                forall|j: int| 0 <= j < i ==> cells@[j] != cell,
            decreases cells.len() - i,
        {
            if cells[i] == cell {
                assert(self.cell_seq()[i as int] == cell);
                return true;
            }
            i = i + 1;
        }
        false
    }

    /// The cells of this section: the two ends of a line, or the four corners of a square in
    /// row-major order.
    pub fn cells(&self) -> (r: Vec<Cell>)
        ensures
            r@ == self.cell_seq(),
    {
        match self {
            NavSection::Line(LineSection(c)) => {
                let mut v = Vec::new();
                v.push(c[0]);
                v.push(c[1]);
                assert(v@ =~= self.cell_seq());
                v
            },
            NavSection::Square(SquareSection(c)) => {
                let mut v = Vec::new();
                v.push(c[0][0]);
                v.push(c[0][1]);
                v.push(c[1][0]);
                v.push(c[1][1]);
                assert(v@ =~= self.cell_seq());
                v
            },
        }
    }
}

/// Where a crew member is when it starts navigating: either standing on a cell or somewhere on a
/// nav section.
#[derive(Clone, Copy, Debug)]
pub enum CrewLocation {
    Cell(Cell),
    NavSection(NavSection),
}

/// The sections that crew can walk on.
#[derive(Clone, Debug)]
pub struct NavMesh {
    pub lines: Vec<LineSection>,
    pub squares: Vec<SquareSection>,
}

/// Whether `s` contains both `a` and `b`.
pub open spec fn joins(s: NavSection, a: Cell, b: Cell) -> bool {
    s.cell_seq().contains(a) && s.cell_seq().contains(b)
}

impl NavMesh {
    /// All sections: the lines first, then the squares.
    pub open spec fn section_seq(self) -> Seq<NavSection> {
        self.lines@.map_values(|l: LineSection| NavSection::Line(l)) + self.squares@.map_values(
            |s: SquareSection| NavSection::Square(s),
        )
    }

    /// The first section (in [`NavMesh::section_seq`] order) that contains both `a` and `b`.
    pub open spec fn first_section_with(self, a: Cell, b: Cell) -> Option<NavSection> {
        if exists|i: int| 0 <= i < self.section_seq().len() && joins(self.section_seq()[i], a, b) {
            let i = choose|i: int|
                0 <= i < self.section_seq().len() && joins(self.section_seq()[i], a, b) && forall|
                    j: int,
                | 0 <= j < i ==> !joins(self.section_seq()[j], a, b);
            Some(self.section_seq()[i])
        } else {
            None
        }
    }

    /// All sections of the mesh: the lines first, then the squares.
    pub fn sections(&self) -> (r: Vec<NavSection>)
        ensures
            r@ == self.section_seq(),
    {
        let mut r: Vec<NavSection> = Vec::new();
        let mut i: usize = 0;
        while i < self.lines.len()
            invariant
                i <= self.lines@.len(),
                r@ =~= self.lines@.subrange(0, i as int).map_values(
                    |l: LineSection| NavSection::Line(l),
                ),
            decreases self.lines.len() - i,
        {
            r.push(NavSection::Line(self.lines[i]));
            i = i + 1;
            assert(r@ =~= self.lines@.subrange(0, i as int).map_values(
                |l: LineSection| NavSection::Line(l),
            ));
        }
        assert(self.lines@.subrange(0, self.lines@.len() as int) =~= self.lines@);
        let mut j: usize = 0;
        while j < self.squares.len()
            invariant
                j <= self.squares@.len(),
                r@ =~= self.lines@.map_values(|l: LineSection| NavSection::Line(l))
                    + self.squares@.subrange(0, j as int).map_values(
                    |s: SquareSection| NavSection::Square(s),
                ),
            decreases self.squares.len() - j,
        {
            r.push(NavSection::Square(self.squares[j]));
            j = j + 1;
            assert(r@ =~= self.lines@.map_values(|l: LineSection| NavSection::Line(l))
                + self.squares@.subrange(0, j as int).map_values(
                |s: SquareSection| NavSection::Square(s),
            ));
        }
        assert(self.squares@.subrange(0, self.squares@.len() as int) =~= self.squares@);
        r
    }

    /// Find the [`NavSection`] that contains the path between `a` and `b`: the first section
    /// holding both. If the mesh was constructed correctly, there will be at most one.
    pub fn section_with_cells(&self, a: Cell, b: Cell) -> (r: Option<NavSection>)
        ensures
            r == self.first_section_with(a, b),
            r matches Some(s) ==> self.section_seq().contains(s),
    {
        let sections = self.sections();
        let mut i: usize = 0;
        while i < sections.len()
            invariant
                sections@ == self.section_seq(),
                i <= sections@.len(),
                forall|j: int| 0 <= j < i ==> !joins(sections@[j], a, b),
            decreases sections.len() - i,
        {
            let s = sections[i];
            if s.contains(a) && s.contains(b) {
                assert(joins(self.section_seq()[i as int], a, b));
                let ghost k = choose|k: int|
                    0 <= k < self.section_seq().len() && joins(self.section_seq()[k], a, b)
                        && forall|j: int| 0 <= j < k ==> !joins(self.section_seq()[j], a, b);
                assert(k == i) by {
                    if k < i {
                        assert(!joins(sections@[k], a, b));
                    }
                    if k > i {
                        assert(!joins(self.section_seq()[i as int], a, b));
                    }
                }
                assert(self.section_seq()[i as int] == s);
                return Some(s);
            }
            i = i + 1;
        }
        None
    }
}

/// Responsible for planning paths. For each cell it stores the cells that crew can step to from it.
/// Only the first entry for a cell counts.
#[derive(Clone, Debug)]
pub struct PathGraph {
    pub edges: Vec<(Cell, Vec<Cell>)>,
}

impl PathGraph {
    /// Whether no two entries are for the same cell and no cell repeats among the neighbors of
    /// an entry.
    #[verifier::opaque]
    pub open spec fn wf(self) -> bool {
        &&& forall|i: int, j: int|
            0 <= i < j < self.edges@.len() ==> (#[trigger] self.edges@[i]).0 != (#[trigger] self.edges@[j]).0
        &&& forall|i: int| 0 <= i < self.edges@.len() ==> (#[trigger] self.edges@[i]).1@.no_duplicates()
    }

    /// Whether `c` has an entry in the graph.
    pub open spec fn has_node(self, c: Cell) -> bool {
        exists|i: int| 0 <= i < self.edges@.len() && self.edges@[i].0 == c
    }

    /// The index of the first entry for `c`.
    pub open spec fn node_index(self, c: Cell) -> int {
        choose|i: int|
            0 <= i < self.edges@.len() && self.edges@[i].0 == c && forall|j: int|
                0 <= j < i ==> self.edges@[j].0 != c
    }

    /// The cells that crew can step to from `c`.
    pub open spec fn neighbors(self, c: Cell) -> Seq<Cell> {
        self.edges@[self.node_index(c)].1@
    }

    /// Whether crew can step from `u` to `v`.
    #[verifier::opaque]
    pub open spec fn edge(self, u: Cell, v: Cell) -> bool {
        self.has_node(u) && self.neighbors(u).contains(v)
    }

    /// Whether `w` is a walk: a nonempty sequence of cells, each a step away from the one before.
    pub open spec fn is_walk(self, w: Seq<Cell>) -> bool {
        &&& w.len() >= 1
        &&& forall|i: int| #![trigger w[i]] 0 <= i < w.len() - 1 ==> self.edge(w[i], w[i + 1])
    }

    /// Whether some walk leads from `a` to `b`.
    pub open spec fn reachable(self, a: Cell, b: Cell) -> bool {
        exists|w: Seq<Cell>| #[trigger] self.is_walk(w) && w[0] == a && w.last() == b
    }

    /// The first entry for a cell that has one is where [`PathGraph::node_index`] points.
    pub proof fn lemma_node_index(self, c: Cell)
        requires
            self.has_node(c),
        ensures
            0 <= self.node_index(c) < self.edges@.len(),
            self.edges@[self.node_index(c)].0 == c,
            forall|j: int| 0 <= j < self.node_index(c) ==> self.edges@[j].0 != c,
    {
        let i = choose|i: int| 0 <= i < self.edges@.len() && self.edges@[i].0 == c;
        lemma_first_key(self.edges@, c, i);
    }

    /// Whether crew can walk every step of this graph on `mesh`: each step joins two cells of a
    /// section of the mesh and leads to a cell that has an entry.
    pub open spec fn fits_mesh(self, mesh: NavMesh) -> bool {
        forall|u: Cell, v: Cell|
            #[trigger] self.edge(u, v) ==> mesh.first_section_with(u, v) is Some && self.has_node(v)
    }

    /// What a breadth-first search toward `goal` records, once it has `queue` still to take,
    /// has recorded `came` and may take `fuel` more cells: it takes the first cell of the queue
    /// and scans its neighbors in order (see [`bfs_scan`]).
    pub open spec fn bfs_came(self, goal: Cell, queue: Seq<Cell>, came: Map<Cell, Cell>, fuel: nat) -> Map<Cell, Cell>
        decreases fuel,
    {
        if fuel == 0 || queue.len() == 0 {
            came
        } else {
            let (m, q) = bfs_scan(self.neighbors(queue[0]), goal, came, queue[0]);
            self.bfs_came(goal, queue.drop_first() + q, m, (fuel - 1) as nat)
        }
    }

    /// For each cell a breadth-first search from `goal` reaches, the cell it was reached from:
    /// the search takes cells in the order it queues them and scans the neighbors of each in
    /// the order the graph lists them. It takes each cell with an entry at most once, so it
    /// is done before taking one more cell than there are entries.
    #[verifier::opaque]
    pub open spec fn bfs_tree(self, goal: Cell) -> Map<Cell, Cell> {
        self.bfs_came(goal, seq![goal], Map::empty(), (self.node_set().len() + 1) as nat)
    }

    /// The cells that have an entry in the graph.
    pub open spec fn node_set(self) -> Set<Cell> {
        self.edges@.map_values(|e: (Cell, Vec<Cell>)| e.0).to_set()
    }

    /// The cells that crew can step to from `cell`.
    pub fn neighbors_of(&self, cell: Cell) -> (r: &Vec<Cell>)
        requires
            self.has_node(cell),
        ensures
            r@ == self.neighbors(cell),
            self.wf() ==> r@.no_duplicates(),
    {
        let mut i: usize = 0;
        while i < self.edges.len()
            invariant
                i <= self.edges@.len(),
                forall|j: int| 0 <= j < i ==> self.edges@[j].0 != cell,
            decreases self.edges.len() - i,
        {
            if self.edges[i].0 == cell {
                let ghost k = self.node_index(cell);
                assert(k == i) by {
                    if k < i {
                        assert(self.edges@[k].0 != cell);
                    }
                    if k > i {
                        assert(self.edges@[i as int].0 == cell);
                    }
                }
                proof {
                    reveal(PathGraph::wf);
                    if self.wf() {
                        assert(self.edges@[i as int].1@.no_duplicates());
                    }
                }
                return &self.edges[i].1;
            }
            i = i + 1;
        }
        proof {
            let k = choose|k: int| 0 <= k < self.edges@.len() && self.edges@[k].0 == cell;
            assert(self.edges@[k].0 != cell);
        }
        &self.edges[0].1
    }

    /// Breadth-first search outward from `goal`. The result records, for every cell from which
    /// `goal` can be reached, the cell to step to next on a shortest route to `goal`: the cell
    /// the search reached it from (see [`PathGraph::bfs_tree`]).
    #[verifier::spinoff_prover]
    #[verifier::rlimit(100)]
    pub fn pathing_to(&self, goal: Cell) -> (r: GoalPathing)
        requires
            forall|c: Cell| #[trigger] self.reachable(goal, c) ==> self.has_node(c),
        ensures
            r.wf(),
            r.target() == goal,
            forall|c: Cell|
                #[trigger] r.came_from().contains_key(c) <==> (c != goal && self.reachable(goal, c)),
            forall|c: Cell|
                #[trigger] r.came_from().contains_key(c) ==> self.edge(r.came_from()[c], c),
            r.steps(goal) == 0,
            forall|c: Cell|
                #[trigger] r.came_from().contains_key(c) ==> r.steps(c) == r.steps(
                    r.came_from()[c],
                ) + 1,
            forall|w: Seq<Cell>|
                #[trigger] self.is_walk(w) && w[0] == goal ==> r.steps(w.last()) <= w.len() - 1,
            forall|c: Cell|
                #[trigger] r.came_from().contains_key(c) ==> r.came_from()[c] == goal
                    || r.came_from().contains_key(r.came_from()[c]),
            forall|c: Cell| #[trigger] r.steps(c) == steps_from(*self, goal, c),
            r.plans(*self, goal),
            r.came_from() == self.bfs_tree(goal),
    {
        let mut frontier: VecDeque<Cell> = VecDeque::new();
        frontier.push_back(goal);
        let mut came_from: Vec<(Cell, Cell)> = Vec::new();
        let ghost mut dist: Map<Cell, nat> = Map::empty().insert(goal, 0nat);
        let ghost mut processed: Set<Cell> = Set::empty();
        let ghost mut iters: nat = 0;
        proof {
            reveal(PathGraph::bfs_tree);
            assert(assoc_map(came_from@) =~= Map::<Cell, Cell>::empty()) by {
                reveal(assoc_has);
            }
            assert(frontier@ =~= seq![goal]);
            assert(self.is_walk(seq![goal]));
            assert(self.reachable(goal, goal));
            assert(dist.dom() =~= set![goal]);
            assert(frontier@[0] == goal);
            reveal(assoc_has);
            self.lemma_node_set();
            assert(self.node_set().contains(goal));
            vstd::set_lib::lemma_len_subset(dist.dom(), self.node_set());
        }
        while frontier.len() > 0
            invariant
                forall|c: Cell| #[trigger] self.reachable(goal, c) ==> self.has_node(c),
                forall|c: Cell| #[trigger] self.has_node(c) ==> self.node_set().contains(c),
                self.node_set().finite(),
                bfs_inv(*self, goal, came_from@, dist, processed),
                queue_inv(dist, frontier@),
                forall|c: Cell|
                    #[trigger] dist.contains_key(c) ==> processed.contains(c) || frontier@.contains(
                        c,
                    ),
                dist.dom().finite(),
                dist.dom().subset_of(self.node_set()),
                self.bfs_tree(goal) == self.bfs_came(
                    goal,
                    frontier@,
                    assoc_map(came_from@),
                    (self.node_set().len() + 1 - iters) as nat,
                ),
                iters + frontier@.len() == dist.dom().len(),
            decreases self.node_set().len() - dist.dom().len(), frontier@.len(),
        {
            let ghost old_len = dist.dom().len();
            let ghost old_q = frontier@;
            let current = frontier.pop_front().unwrap();
            let ghost k = dist[current];
            let ghost came0 = assoc_map(came_from@);
            let ghost mut added: Seq<Cell> = seq![];
            proof {
                vstd::set_lib::lemma_len_subset(dist.dom(), self.node_set());
                assert(old_q[0] == current);
                iters = iters + 1;
                assert(frontier@ =~= old_q.drop_first() + added);
            }
            proof {
                processed = processed.insert(current);
                assert(forall|i: int| 0 <= i < frontier@.len() ==> frontier@[i] == old_q[i + 1]);
                assert forall|c: Cell| #[trigger] dist.contains_key(c) implies processed.contains(c)
                    || frontier@.contains(c) by {
                    if !processed.contains(c) {
                        let i = choose|i: int| 0 <= i < old_q.len() && old_q[i] == c;
                        assert(i != 0);
                        assert(frontier@[i - 1] == c);
                    }
                }
                assert(self.reachable(goal, current));
            }
            let neighbors = self.neighbors_of(current);
            let mut i: usize = 0;
            while i < neighbors.len()
                invariant
                    forall|c: Cell| #[trigger] self.reachable(goal, c) ==> self.has_node(c),
                    forall|c: Cell| #[trigger] self.has_node(c) ==> self.node_set().contains(c),
                    self.node_set().finite(),
                    neighbors@ == self.neighbors(current),
                    self.has_node(current),
                    i <= neighbors@.len(),
                    bfs_core(*self, goal, came_from@, dist),
                    dist.contains_key(current),
                    dist[current] == k,
                    processed.contains(current),
                    forall|c: Cell| #[trigger] dist.contains_key(c) ==> dist[c] <= k + 1,
                    forall|j: int|
                        0 <= j < frontier@.len() ==> dist.contains_key(#[trigger] frontier@[j])
                            && k <= dist[frontier@[j]] <= k + 1,
                    forall|a: int, b: int|
                        0 <= a <= b < frontier@.len() ==> dist[#[trigger] frontier@[a]]
                            <= dist[#[trigger] frontier@[b]],
                    forall|c: Cell|
                        #[trigger] dist.contains_key(c) ==> processed.contains(c)
                            || frontier@.contains(c),
                    forall|u: Cell| #[trigger] processed.contains(u) ==> dist.contains_key(u),
                    forall|u: Cell, v: Cell|
                        #[trigger] processed.contains(u) && #[trigger] self.edge(u, v) && u
                            != current ==> dist.contains_key(v) && dist[v] <= dist[u] + 1,
                    forall|j: int|
                        0 <= j < i ==> dist.contains_key(#[trigger] neighbors@[j]) && dist[neighbors@[j]]
                            <= k + 1,
                    dist.dom().finite(),
                    dist.dom().subset_of(self.node_set()),
                    dist.dom().len() >= old_len,
                    frontier@.len() + old_len == old_q.len() - 1 + dist.dom().len(),
                    iters + frontier@.len() == dist.dom().len(),
                    frontier@ == old_q.drop_first() + added,
                    bfs_scan(neighbors@.take(i as int), goal, came0, current) == (assoc_map(came_from@), added),
                    self.bfs_tree(goal) == self.bfs_came(
                        goal,
                        old_q.drop_first() + bfs_scan(neighbors@, goal, came0, current).1,
                        bfs_scan(neighbors@, goal, came0, current).0,
                        (self.node_set().len() + 1 - iters) as nat,
                    ),
                decreases neighbors.len() - i,
            {
                let next = neighbors[i];
                proof {
                    lemma_scan_step(neighbors@, goal, came0, current, i as int);
                }
                if next == goal {
                    i = i + 1;
                    continue;
                }
                if !assoc_contains(&came_from, next) {
                    proof {
                        assert(self.edge(current, next)) by {
                            reveal(PathGraph::edge);
                            assert(self.neighbors(current)[i as int] == next);
                        }
                        lemma_discover(*self, goal, came_from@, dist, current, next);
                    }
                    let ghost q0 = frontier@;
                    let ghost s_before = came_from@;
                    frontier.push_back(next);
                    came_from.push((next, current));
                    proof {
                        lemma_assoc_map_push(s_before, next, current);
                        added = added.push(next);
                        assert(frontier@ =~= old_q.drop_first() + added);
                        let old_dist = dist;
                        dist = dist.insert(next, k + 1);
                        assert(dist.dom() =~= old_dist.dom().insert(next));
                        assert(frontier@[frontier@.len() - 1] == next);
                        assert forall|c: Cell| #[trigger] dist.contains_key(c) implies processed.contains(c)
                            || frontier@.contains(c) by {
                            if c != next && !processed.contains(c) {
                                let j = choose|j: int| 0 <= j < q0.len() && q0[j] == c;
                                assert(frontier@[j] == c);
                            }
                        }
                    }
                }
                i = i + 1;
            }
            proof {
                assert(neighbors@.take(neighbors@.len() as int) =~= neighbors@);
                assert forall|v: Cell| #[trigger] self.edge(current, v) implies dist.contains_key(v)
                    && dist[v] <= dist[current] + 1 by {
                    reveal(PathGraph::edge);
                    let j = choose|j: int| 0 <= j < neighbors@.len() && neighbors@[j] == v;
                    assert(dist.contains_key(neighbors@[j]));
                }
                vstd::set_lib::lemma_len_subset(dist.dom(), self.node_set());
            }
        }
        proof {
            assert forall|w: Seq<Cell>| #[trigger] self.is_walk(w) && w[0] == goal implies dist.contains_key(w.last())
                && dist[w.last()] <= w.len() - 1 by {
                lemma_walk_bounded(*self, goal, dist, processed, w);
            }
        }
        let r = GoalPathing { came_from, goal, dist: Ghost(dist) };
        proof {
            assert forall|c: Cell| #[trigger] r.came_from().contains_key(c) <==> (c != goal
                && self.reachable(goal, c)) by {
                assert(r.came_from().contains_key(c) == assoc_has(came_from@, c));
                if self.reachable(goal, c) {
                    let w = choose|w: Seq<Cell>| #[trigger] self.is_walk(w) && w[0] == goal && w.last() == c;
                    assert(dist.contains_key(w.last()));
                }
            }
            assert forall|c: Cell| #[trigger] r.came_from().contains_key(c) implies self.edge(
                r.came_from()[c],
                c,
            ) && r.steps(c) == r.steps(r.came_from()[c]) + 1 by {
                let i = lemma_assoc_index(r.came_from@, c);
                assert(r.came_from@[i] == r.came_from@[i]);
                r.lemma_step(c);
            }
            assert forall|c: Cell| #[trigger] r.came_from().contains_key(c) implies r.came_from()[c]
                == goal || r.came_from().contains_key(r.came_from()[c]) by {
                let i = lemma_assoc_index(r.came_from@, c);
                let n = r.came_from@[i].1;
                assert(r.came_from()[c] == n);
                assert(dist.contains_key(n));
            }
            assert forall|w: Seq<Cell>| #[trigger] self.is_walk(w) && w[0] == goal implies r.steps(w.last())
                <= w.len() - 1 by {
                lemma_walk_bounded(*self, goal, dist, processed, w);
            }
            lemma_steps_from(*self, goal, r);
        }
        r
    }

    /// Every cell with an entry belongs to [`PathGraph::node_set`], which is finite.
    proof fn lemma_node_set(self)
        ensures
            self.node_set().finite(),
            forall|c: Cell| #[trigger] self.has_node(c) ==> self.node_set().contains(c),
    {
        let keys = self.edges@.map_values(|e: (Cell, Vec<Cell>)| e.0);
        vstd::seq_lib::seq_to_set_is_finite(keys);
        assert forall|c: Cell| #[trigger] self.has_node(c) implies self.node_set().contains(c) by {
            let i = choose|i: int| 0 <= i < self.edges@.len() && self.edges@[i].0 == c;
            assert(keys[i] == c);
        }
    }
}

/// Whether `p`, stored goal-first, is the route planned from `first` toward `goal`: it ends at
/// `first` and takes as few steps as any walk from `goal` to `first`; if `goal` reaches `first`,
/// it is such a walk (otherwise it is just `first`). It follows, back from `first`, the cells
/// that the breadth-first search from `goal` reached each waypoint from (see
/// [`PathGraph::bfs_tree`]).
pub open spec fn planned_route(g: PathGraph, p: Seq<Cell>, goal: Cell, first: Cell) -> bool {
    &&& p.len() == steps_from(g, goal, first) + 1
    &&& p.last() == first
    &&& g.reachable(goal, first) ==> walk_between(g, p, goal, first)
    &&& p == follow(g.bfs_tree(goal), first, steps_from(g, goal, first))
}

/// The cells met following `n` steps of `tree` back from `first`, stored last-met first and
/// ending at `first`.
pub open spec fn follow(tree: Map<Cell, Cell>, first: Cell, n: nat) -> Seq<Cell>
    decreases n,
{
    if n == 0 {
        seq![first]
    } else {
        follow(tree, tree[first], (n - 1) as nat).push(first)
    }
}

/// Whether `cells[i]` is the first of the cells of `cells` that `goal` reaches with the fewest
/// steps from `goal`.
pub open spec fn first_nearest(g: PathGraph, goal: Cell, cells: Seq<Cell>, i: int) -> bool {
    &&& 0 <= i < cells.len()
    &&& g.reachable(goal, cells[i])
    &&& forall|j: int|
        0 <= j < cells.len() && g.reachable(goal, cells[j]) ==> steps_from(g, goal, cells[i])
            <= steps_from(g, goal, #[trigger] cells[j])
    &&& forall|j: int|
        0 <= j < i && g.reachable(goal, cells[j]) ==> steps_from(g, goal, cells[i]) < steps_from(
            g,
            goal,
            #[trigger] cells[j],
        )
}

/// One step of a path that leads from `first`.
proof fn lemma_leads_step(r: GoalPathing, p: Seq<Cell>, first: Cell, i: int)
    requires
        r.leads_from(p, first),
        0 <= i < p.len() - 1,
    ensures
        r.came_from().contains_key(p[i + 1]),
        r.came_from()[p[i + 1]] == p[i],
{
    assert(p[i] == p[i]);
}

/// Whether a crew member with status `s` can be routed to `target` on `g`: one standing on a
/// cell needs a walk from `target` to that cell (and not to stand on `target` already); one
/// walking needs a walk from `target` to a cell of the section it crosses.
pub open spec fn can_route(g: PathGraph, s: CrewNavStatus, target: Cell) -> bool {
    match s {
        CrewNavStatus::At(c) => c != target && g.reachable(target, c),
        CrewNavStatus::Navigating(nav) => exists|i: int|
            0 <= i < nav.section.cell_seq().len() && g.reachable(target, #[trigger] nav.section.cell_seq()[i]),
    }
}

/// Whether routing a crew member with status `s0` to `target` on the graph `g` and the mesh `m`
/// gives the status `s1`. A standing crew member walks the planned route from its cell (see
/// [`planned_route`]), starting on the first section joining its cell to the next waypoint; a
/// walking one keeps its section and walks the route planned from the first of the section's
/// cells that `target` reaches with the fewest steps (see [`first_nearest`]).
pub open spec fn routed(g: PathGraph, m: NavMesh, s0: CrewNavStatus, s1: CrewNavStatus, target: Cell) -> bool {
    match s0 {
        CrewNavStatus::At(c) => s1 matches CrewNavStatus::Navigating(nav) && planned_route(
            g,
            nav.path@.push(c),
            target,
            c,
        ) && Some(nav.section) == m.first_section_with(c, nav.path@.last()),
        CrewNavStatus::Navigating(nav0) => s1 matches CrewNavStatus::Navigating(nav)
            && nav.section == nav0.section && exists|i: int|
            first_nearest(g, target, nav0.section.cell_seq(), i) && planned_route(
                g,
                nav.path@,
                target,
                #[trigger] nav0.section.cell_seq()[i],
            ),
    }
}

/// Whether `w` is a walk from `a` to `b`.
pub open spec fn walk_between(g: PathGraph, w: Seq<Cell>, a: Cell, b: Cell) -> bool {
    g.is_walk(w) && w[0] == a && w.last() == b
}

/// Whether some walk from `a` to `b` takes exactly `n` steps.
pub open spec fn walk_of_len(g: PathGraph, a: Cell, b: Cell, n: nat) -> bool {
    exists|w: Seq<Cell>| #[trigger] walk_between(g, w, a, b) && w.len() == n + 1
}

/// The fewest steps of a walk from `a` to `b`; zero if `b` is `a` or cannot be reached from
/// `a`.
pub open spec fn steps_from(g: PathGraph, a: Cell, b: Cell) -> nat {
    if b != a && g.reachable(a, b) {
        choose|n: nat| walk_of_len(g, a, b, n) && forall|m: nat| #[trigger] walk_of_len(g, a, b, m) ==> n <= m
    } else {
        0
    }
}

/// Following the recorded steps back from a cell that has one gives a walk from the goal to it
/// with as many steps as [`GoalPathing::steps`] counts.
proof fn lemma_chain_walk(g: PathGraph, goal: Cell, r: GoalPathing, c: Cell)
    requires
        r.wf(),
        r.target() == goal,
        r.came_from().contains_key(c),
        forall|x: Cell| #[trigger] r.came_from().contains_key(x) ==> g.edge(r.came_from()[x], x),
        forall|x: Cell|
            #[trigger] r.came_from().contains_key(x) ==> r.came_from()[x] == goal
                || r.came_from().contains_key(r.came_from()[x]),
    ensures
        walk_of_len(g, goal, c, r.steps(c)),
    decreases r.steps(c),
{
    r.lemma_step(c);
    let p = r.came_from()[c];
    if p == goal {
        let w = seq![goal, c];
        assert(r.steps(goal) == 0) by {
            assert(!r.came_from().contains_key(goal)) by {
                reveal(assoc_has);
            }
        }
        assert(g.is_walk(w));
        assert(walk_between(g, w, goal, c));
    } else {
        lemma_chain_walk(g, goal, r, p);
        let w = choose|w: Seq<Cell>| #[trigger] walk_between(g, w, goal, p) && w.len() == r.steps(p) + 1;
        let w2 = w.push(c);
        assert forall|i: int| #![trigger w2[i]] 0 <= i < w2.len() - 1 implies g.edge(w2[i], w2[i + 1]) by {
            if i < w.len() - 1 {
                assert(w2[i] == w[i] && w2[i + 1] == w[i + 1]);
            } else {
                assert(w2[i] == p && w2[i + 1] == c);
            }
        }
        assert(walk_between(g, w2, goal, c));
    }
}

/// The steps that [`PathGraph::pathing_to`] records are the fewest steps of a walk from the goal.
proof fn lemma_steps_from(g: PathGraph, goal: Cell, r: GoalPathing)
    requires
        r.wf(),
        r.target() == goal,
        forall|x: Cell|
            #[trigger] r.came_from().contains_key(x) <==> (x != goal && g.reachable(goal, x)),
        forall|x: Cell| #[trigger] r.came_from().contains_key(x) ==> g.edge(r.came_from()[x], x),
        forall|x: Cell|
            #[trigger] r.came_from().contains_key(x) ==> r.came_from()[x] == goal
                || r.came_from().contains_key(r.came_from()[x]),
        forall|w: Seq<Cell>|
            #[trigger] g.is_walk(w) && w[0] == goal ==> r.steps(w.last()) <= w.len() - 1,
    ensures
        forall|c: Cell| #[trigger] r.steps(c) == steps_from(g, goal, c),
{
    assert forall|c: Cell| #[trigger] r.steps(c) == steps_from(g, goal, c) by {
        if r.came_from().contains_key(c) {
            lemma_chain_walk(g, goal, r, c);
            let k = r.steps(c);
            assert forall|m: nat| #[trigger] walk_of_len(g, goal, c, m) implies k <= m by {
                let w = choose|w: Seq<Cell>| #[trigger] walk_between(g, w, goal, c) && w.len() == m + 1;
                assert(g.is_walk(w) && w[0] == goal);
            }
            let n = steps_from(g, goal, c);
            assert(walk_of_len(g, goal, c, n) && forall|m: nat| #[trigger] walk_of_len(g, goal, c, m) ==> n <= m);
            assert(n <= k);
            assert(k <= n);
        }
    }
}

/// Every cell reachable from a cell with an entry has an entry, once every step leads to a cell
/// with an entry.
pub proof fn lemma_reach_closed(g: PathGraph, a: Cell)
    requires
        g.has_node(a),
        forall|u: Cell, v: Cell| #[trigger] g.edge(u, v) ==> g.has_node(v),
    ensures
        forall|c: Cell| #[trigger] g.reachable(a, c) ==> g.has_node(c),
{
    assert forall|c: Cell| #[trigger] g.reachable(a, c) implies g.has_node(c) by {
        let w = choose|w: Seq<Cell>| #[trigger] g.is_walk(w) && w[0] == a && w.last() == c;
        lemma_walk_nodes(g, w);
    }
}

/// Every cell of a walk that starts at a cell with an entry has an entry, once every step leads
/// to a cell with an entry.
proof fn lemma_walk_nodes(g: PathGraph, w: Seq<Cell>)
    requires
        g.is_walk(w),
        g.has_node(w[0]),
        forall|u: Cell, v: Cell| #[trigger] g.edge(u, v) ==> g.has_node(v),
    ensures
        forall|i: int| 0 <= i < w.len() ==> g.has_node(#[trigger] w[i]),
    decreases w.len(),
{
    if w.len() > 1 {
        let w0 = w.drop_last();
        assert forall|j: int| #![trigger w0[j]] 0 <= j < w0.len() - 1 implies g.edge(w0[j], w0[j + 1]) by {
            assert(w0[j] == w[j] && w0[j + 1] == w[j + 1]);
        }
        lemma_walk_nodes(g, w0);
        let n = w.len() - 1;
        assert(w0[n - 1] == w[n - 1]);
        assert(g.edge(w[n - 1], w[n]));
        assert forall|i: int| 0 <= i < w.len() implies g.has_node(#[trigger] w[i]) by {
            if i < n {
                assert(w0[i] == w[i]);
            }
        }
    }
}

/// Walks compose: what `b` reaches, every cell that reaches `b` reaches too.
pub proof fn lemma_reach_trans(g: PathGraph, a: Cell, b: Cell, c: Cell)
    requires
        g.reachable(a, b),
        g.reachable(b, c),
    ensures
        g.reachable(a, c),
{
    let w1 = choose|w: Seq<Cell>| #[trigger] g.is_walk(w) && w[0] == a && w.last() == b;
    let w2 = choose|w: Seq<Cell>| #[trigger] g.is_walk(w) && w[0] == b && w.last() == c;
    let w = w1 + w2.drop_first();
    assert forall|i: int| #![trigger w[i]] 0 <= i < w.len() - 1 implies g.edge(w[i], w[i + 1]) by {
        if i < w1.len() - 1 {
            assert(w[i] == w1[i] && w[i + 1] == w1[i + 1]);
        } else if i == w1.len() - 1 {
            assert(w[i] == w2[0] && w[i + 1] == w2[1]);
        } else {
            let k = i - w1.len() + 1;
            assert(w[i] == w2[k] && w[i + 1] == w2[k + 1]);
        }
    }
    if w2.len() == 1 {
        assert(w =~= w1);
    } else {
        assert(w.last() == w2.last());
    }
    assert(g.is_walk(w) && w[0] == a && w.last() == c);
}

/// A step is a walk.
pub proof fn lemma_reach_edge(g: PathGraph, u: Cell, v: Cell)
    requires
        g.edge(u, v),
    ensures
        g.reachable(u, v),
{
    let w = seq![u, v];
    assert(g.is_walk(w) && w[0] == u && w.last() == v);
}

/// Every cell reaches itself.
pub proof fn lemma_reach_self(g: PathGraph, a: Cell)
    ensures
        g.reachable(a, a),
{
    let w = seq![a];
    assert(g.is_walk(w) && w[0] == a && w.last() == a);
}

impl NavMesh {
    /// Some section joins `a` and `b` exactly when one joins `b` and `a`.
    pub proof fn lemma_section_symmetric(self, a: Cell, b: Cell)
        ensures
            (self.first_section_with(a, b) is Some) == (self.first_section_with(b, a) is Some),
    {
        if exists|i: int| 0 <= i < self.section_seq().len() && joins(self.section_seq()[i], a, b) {
            let i = choose|i: int| 0 <= i < self.section_seq().len() && joins(self.section_seq()[i], a, b);
            assert(joins(self.section_seq()[i], b, a));
        }
        if exists|i: int| 0 <= i < self.section_seq().len() && joins(self.section_seq()[i], b, a) {
            let i = choose|i: int| 0 <= i < self.section_seq().len() && joins(self.section_seq()[i], b, a);
            assert(joins(self.section_seq()[i], a, b));
        }
    }
}

impl GoalPathing {
    /// The path planned from a standing crew member's next step, followed by the cell it stands
    /// on, is the route planned from that cell; the first step joins the two.
    pub proof fn lemma_route_from_cell(self, g: PathGraph, goal: Cell, p: Seq<Cell>, c: Cell)
        requires
            self.plans(g, goal),
            self.came_from().contains_key(c),
            self.leads_from(p, self.came_from()[c]),
        ensures
            planned_route(g, p, goal, self.came_from()[c]),
            planned_route(g, p.push(c), goal, c),
            g.edge(p.last(), c),
            g.reachable(goal, self.came_from()[c]),
    {
        let f = self.came_from()[c];
        self.lemma_step(c);
        if f == goal {
            assert(g.is_walk(seq![goal]));
            assert(walk_between(g, seq![goal], goal, goal));
        } else {
            assert(self.came_from().contains_key(f));
        }
        assert(g.reachable(goal, f));
        self.lemma_planned_route(g, goal, p, f);
        let q = p.push(c);
        assert(walk_between(g, p, goal, f));
        assert forall|i: int| #![trigger q[i]] 0 <= i < q.len() - 1 implies g.edge(q[i], q[i + 1]) by {
            if i < p.len() - 1 {
                assert(q[i] == p[i] && q[i + 1] == p[i + 1]);
            } else {
                assert(q[i] == f && q[i + 1] == c);
            }
        }
        assert(walk_between(g, q, goal, c));
    }
}

/// Some entry of `s` with key `c` comes first among those with that key.
proof fn lemma_first_key(s: Seq<(Cell, Vec<Cell>)>, c: Cell, i: int)
    requires
        0 <= i < s.len(),
        s[i].0 == c,
    ensures
        exists|m: int| 0 <= m <= i && s[m].0 == c && forall|j: int| 0 <= j < m ==> s[j].0 != c,
    decreases i,
{
    if exists|j: int| 0 <= j < i && s[j].0 == c {
        let j = choose|j: int| 0 <= j < i && s[j].0 == c;
        lemma_first_key(s, c, j);
    }
}

/// Whether `s` holds an entry with key `c`.
#[verifier::opaque]
pub open spec fn assoc_has(s: Seq<(Cell, Cell)>, c: Cell) -> bool {
    exists|i: int| 0 <= i < s.len() && s[i].0 == c
}

/// The value of an entry of `s` with key `c`.
pub open spec fn assoc_get(s: Seq<(Cell, Cell)>, c: Cell) -> Cell {
    s[choose|i: int| 0 <= i < s.len() && s[i].0 == c].1
}

/// Whether no two entries of `s` share a key.
pub open spec fn keys_unique(s: Seq<(Cell, Cell)>) -> bool {
    forall|i: int, j: int| 0 <= i < s.len() && 0 <= j < s.len() && i != j ==> s[i].0 != s[j].0
}

/// The map that the entries of `s` make: each key to the value of its entry.
pub open spec fn assoc_map(s: Seq<(Cell, Cell)>) -> Map<Cell, Cell> {
    Map::new(|c: Cell| assoc_has(s, c), |c: Cell| assoc_get(s, c))
}

/// Adding an entry for a new key adds it to the map.
proof fn lemma_assoc_map_push(s: Seq<(Cell, Cell)>, k: Cell, v: Cell)
    requires
        keys_unique(s),
        !assoc_has(s, k),
    ensures
        assoc_map(s.push((k, v))) == assoc_map(s).insert(k, v),
{
    lemma_assoc_push(s, k, v);
    let t = s.push((k, v));
    assert forall|c: Cell| #[trigger] assoc_has(t, c) implies assoc_get(t, c) == assoc_map(s).insert(k, v)[c] by {
        let i = lemma_assoc_index(t, c);
        if c == k {
            assert(t[s.len() as int].0 == k);
        } else {
            assert(i < s.len());
            assert(s[i].0 == c);
            assert(assoc_has(s, c)) by {
                reveal(assoc_has);
            }
            let j = lemma_assoc_index(s, c);
            assert(t[j] == s[j]);
        }
    }
    assert(assoc_map(t) =~= assoc_map(s).insert(k, v));
}

/// Scanning the neighbors `s` of `from` in a breadth-first search toward `goal` that has
/// recorded `came`: each neighbor that is neither the goal nor recorded gets recorded as reached
/// from `from` and joins the queue. The recorded map and the cells that join the queue, in order.
pub open spec fn bfs_scan(s: Seq<Cell>, goal: Cell, came: Map<Cell, Cell>, from: Cell) -> (Map<Cell, Cell>, Seq<Cell>)
    decreases s.len(),
{
    if s.len() == 0 {
        (came, seq![])
    } else {
        let (m, q) = bfs_scan(s.drop_last(), goal, came, from);
        let x = s.last();
        if x == goal || m.contains_key(x) {
            (m, q)
        } else {
            (m.insert(x, from), q.push(x))
        }
    }
}

/// Scanning one more neighbor.
proof fn lemma_scan_step(s: Seq<Cell>, goal: Cell, came: Map<Cell, Cell>, from: Cell, i: int)
    requires
        0 <= i < s.len(),
    ensures
        ({
            let (m, q) = bfs_scan(s.take(i), goal, came, from);
            bfs_scan(s.take(i + 1), goal, came, from) == if s[i] == goal || m.contains_key(s[i]) {
                (m, q)
            } else {
                (m.insert(s[i], from), q.push(s[i]))
            }
        }),
{
    assert(s.take(i + 1).drop_last() =~= s.take(i));
    assert(s.take(i + 1).last() == s[i]);
}

/// The facts about the search tree that hold throughout the search.
spec fn bfs_core(g: PathGraph, goal: Cell, s: Seq<(Cell, Cell)>, dist: Map<Cell, nat>) -> bool {
    &&& keys_unique(s)
    &&& !assoc_has(s, goal)
    &&& dist.contains_key(goal)
    &&& dist[goal] == 0
    &&& forall|c: Cell| #[trigger] dist.contains_key(c) <==> (c == goal || assoc_has(s, c))
    &&& forall|i: int|
        #![trigger s[i]]
        0 <= i < s.len() ==> dist.contains_key(s[i].1) && dist[s[i].0] == dist[s[i].1] + 1
            && g.edge(s[i].1, s[i].0)
    &&& forall|c: Cell| #[trigger] dist.contains_key(c) ==> g.reachable(goal, c)
    &&& forall|c: Cell| #[trigger] dist.contains_key(c) ==> dist[c] <= s.len()
}

spec fn bfs_inv(
    g: PathGraph,
    goal: Cell,
    s: Seq<(Cell, Cell)>,
    dist: Map<Cell, nat>,
    processed: Set<Cell>,
) -> bool {
    &&& bfs_core(g, goal, s, dist)
    &&& forall|u: Cell| #[trigger] processed.contains(u) ==> dist.contains_key(u)
    &&& forall|u: Cell, v: Cell|
        #[trigger] processed.contains(u) && #[trigger] g.edge(u, v) ==> dist.contains_key(v)
            && dist[v] <= dist[u] + 1
}

/// The frontier is ordered by distance and spans at most two consecutive distances, the larger
/// of which bounds every distance found so far.
spec fn queue_inv(dist: Map<Cell, nat>, q: Seq<Cell>) -> bool {
    &&& forall|i: int| 0 <= i < q.len() ==> dist.contains_key(#[trigger] q[i])
    &&& forall|a: int, b: int|
        0 <= a <= b < q.len() ==> dist[#[trigger] q[a]] <= dist[#[trigger] q[b]]
    &&& q.len() > 0 ==> dist[q.last()] <= dist[q[0]] + 1
    &&& q.len() > 0 ==> forall|c: Cell| #[trigger] dist.contains_key(c) ==> dist[c] <= dist[q[0]] + 1
}

/// Recording `next` as found from `current`, one step farther from the goal, keeps the search
/// tree consistent.
proof fn lemma_discover(
    g: PathGraph,
    goal: Cell,
    s: Seq<(Cell, Cell)>,
    dist: Map<Cell, nat>,
    current: Cell,
    next: Cell,
)
    requires
        bfs_core(g, goal, s, dist),
        dist.contains_key(current),
        g.edge(current, next),
        !assoc_has(s, next),
        next != goal,
    ensures
        bfs_core(g, goal, s.push((next, current)), dist.insert(next, dist[current] + 1)),
        !dist.contains_key(next),
{
    let w = choose|w: Seq<Cell>| #[trigger] g.is_walk(w) && w[0] == goal && w.last() == current;
    let w2 = w.push(next);
    assert forall|j: int| 0 <= j < w2.len() - 1 implies g.edge(#[trigger] w2[j], w2[j + 1]) by {
        if j < w.len() - 1 {
            assert(w2[j] == w[j] && w2[j + 1] == w[j + 1]);
        }
    }
    assert(g.is_walk(w2) && w2[0] == goal && w2.last() == next);
    lemma_assoc_push(s, next, current);
    let t = s.push((next, current));
    let d2 = dist.insert(next, dist[current] + 1);
    assert forall|i: int|
        #![trigger t[i]]
        0 <= i < t.len() implies d2.contains_key(t[i].1) && d2[t[i].0] == d2[t[i].1] + 1 && g.edge(
        t[i].1,
        t[i].0,
    ) by {
        if i < s.len() {
            assert(t[i] == s[i]);
            assert(assoc_has(s, s[i].0)) by {
                reveal(assoc_has);
            }
            assert(dist.contains_key(s[i].0));
        }
    }
}

/// Once every found cell has been expanded, each cell of a walk from `goal` has been found, no
/// farther than its position along the walk.
proof fn lemma_walk_bounded(
    g: PathGraph,
    goal: Cell,
    dist: Map<Cell, nat>,
    processed: Set<Cell>,
    w: Seq<Cell>,
)
    requires
        g.is_walk(w),
        w[0] == goal,
        dist.contains_key(goal),
        dist[goal] == 0,
        forall|c: Cell| #[trigger] dist.contains_key(c) ==> processed.contains(c),
        forall|u: Cell, v: Cell|
            #[trigger] processed.contains(u) && #[trigger] g.edge(u, v) ==> dist.contains_key(v)
                && dist[v] <= dist[u] + 1,
    ensures
        forall|i: int| 0 <= i < w.len() ==> dist.contains_key(#[trigger] w[i]) && dist[w[i]] <= i,
    decreases w.len(),
{
    if w.len() > 1 {
        let w0 = w.drop_last();
        assert(g.is_walk(w0)) by {
            assert forall|j: int| 0 <= j < w0.len() - 1 implies g.edge(#[trigger] w0[j], w0[j + 1]) by {
                assert(w0[j] == w[j] && w0[j + 1] == w[j + 1]);
            }
        }
        lemma_walk_bounded(g, goal, dist, processed, w0);
        let n = w.len() - 1;
        assert(w0[n - 1] == w[n - 1]);
        assert(dist.contains_key(w[n - 1]));
        assert(g.edge(w[n - 1], w[n]));
        assert forall|i: int| 0 <= i < w.len() implies dist.contains_key(#[trigger] w[i])
            && dist[w[i]] <= i by {
            if i < n {
                assert(w0[i] == w[i]);
            }
        }
    }
}

/// Pushing an entry whose key is new keeps the keys unique.
proof fn lemma_assoc_push(s: Seq<(Cell, Cell)>, k: Cell, v: Cell)
    requires
        keys_unique(s),
        !assoc_has(s, k),
    ensures
        keys_unique(s.push((k, v))),
        forall|c: Cell| #[trigger] assoc_has(s.push((k, v)), c) <==> (c == k || assoc_has(s, c)),
{
    reveal(assoc_has);
    let t = s.push((k, v));
    assert forall|c: Cell| #[trigger] assoc_has(t, c) <==> (c == k || assoc_has(s, c)) by {
        if assoc_has(t, c) {
            let i = choose|i: int| 0 <= i < t.len() && t[i].0 == c;
            if i < s.len() {
                assert(s[i].0 == c);
            }
        }
        if c == k {
            assert(t[s.len() as int].0 == c);
        }
        if assoc_has(s, c) {
            let i = choose|i: int| 0 <= i < s.len() && s[i].0 == c;
            assert(t[i].0 == c);
        }
    }
    assert forall|i: int, j: int| 0 <= i < t.len() && 0 <= j < t.len() && i != j implies t[i].0
        != t[j].0 by {
        if i == s.len() && j < s.len() {
            assert(s[j].0 == t[j].0);
        }
        if j == s.len() && i < s.len() {
            assert(s[i].0 == t[i].0);
        }
    }
}

/// With unique keys, [`assoc_get`] finds the value of the one entry holding the key.
proof fn lemma_assoc_index(s: Seq<(Cell, Cell)>, c: Cell) -> (i: int)
    requires
        keys_unique(s),
        assoc_has(s, c),
    ensures
        0 <= i < s.len(),
        s[i].0 == c,
        assoc_get(s, c) == s[i].1,
{
    reveal(assoc_has);
    let i = choose|i: int| 0 <= i < s.len() && s[i].0 == c;
    i
}

/// Whether `s` holds an entry with key `c`.
fn assoc_contains(s: &Vec<(Cell, Cell)>, c: Cell) -> (r: bool)
    ensures
        r == assoc_has(s@, c),
{
    reveal(assoc_has);
    let mut i: usize = 0;
    while i < s.len()
        invariant
            i <= s@.len(),
            forall|j: int| 0 <= j < i ==> s@[j].0 != c,
        decreases s.len() - i,
    {
        if s[i].0 == c {
            proof {
                reveal(assoc_has);
                assert(s@[i as int].0 == c);
            }
            return true;
        }
        i = i + 1;
    }
    false
}

/// A collection of info on how to get to a goal cell from anywhere in a ship, produced by
/// [`PathGraph::pathing_to`].
pub struct GoalPathing {
    came_from: Vec<(Cell, Cell)>,
    goal: Cell,
    dist: Ghost<Map<Cell, nat>>,
}

impl GoalPathing {
    /// The goal cell that this pathing leads to.
    pub closed spec fn target(self) -> Cell {
        self.goal
    }

    /// For each cell from which the goal is reachable (other than the goal), the cell to step to
    /// next.
    pub closed spec fn came_from(self) -> Map<Cell, Cell> {
        assoc_map(self.came_from@)
    }

    /// How many steps following [`GoalPathing::came_from`] lead from `c` to a cell that has no
    /// next step (zero for such a cell).
    pub closed spec fn steps(self, c: Cell) -> nat {
        if self.came_from().contains_key(c) {
            self.dist@[c]
        } else {
            0
        }
    }

    /// The internal consistency of the recorded steps: they lead to the goal, each getting one
    /// step closer.
    pub closed spec fn wf(self) -> bool {
        let s = self.came_from@;
        let d = self.dist@;
        &&& keys_unique(s)
        &&& !assoc_has(s, self.goal)
        &&& d.contains_key(self.goal)
        &&& d[self.goal] == 0
        &&& forall|c: Cell| #[trigger] d.contains_key(c) <==> (c == self.goal || assoc_has(s, c))
        &&& forall|i: int|
            #![trigger s[i]]
            0 <= i < s.len() ==> d.contains_key(s[i].1) && d[s[i].0] == d[s[i].1] + 1
        &&& forall|c: Cell| #[trigger] d.contains_key(c) ==> d[c] <= s.len()
    }
}

impl GoalPathing {
    /// Whether `p` is the path that crew standing at `first` follow to the goal, stored goal-first:
    /// its last waypoint is `first`, each waypoint is the recorded next step from the one after
    /// it, and its first waypoint has no next step.
    pub open spec fn leads_from(self, p: Seq<Cell>, first: Cell) -> bool {
        &&& p.len() == self.steps(first) + 1
        &&& p.last() == first
        &&& !self.came_from().contains_key(p[0])
        &&& forall|i: int|
            #![trigger p[i]]
            0 <= i < p.len() - 1 ==> self.came_from().contains_key(p[i + 1]) && self.came_from()[p[i
                + 1]] == p[i]
    }

    /// Whether this records, for the graph `g`, the next step toward `goal` on a shortest route
    /// from every cell that can reach it (see [`PathGraph::pathing_to`]).
    pub open spec fn plans(self, g: PathGraph, goal: Cell) -> bool {
        &&& self.wf()
        &&& self.target() == goal
        &&& forall|x: Cell|
            #[trigger] self.came_from().contains_key(x) <==> (x != goal && g.reachable(goal, x))
        &&& forall|x: Cell| #[trigger] self.came_from().contains_key(x) ==> g.edge(self.came_from()[x], x)
        &&& forall|x: Cell|
            #[trigger] self.came_from().contains_key(x) ==> self.came_from()[x] == goal
                || self.came_from().contains_key(self.came_from()[x])
        &&& forall|x: Cell| #[trigger] self.steps(x) == steps_from(g, goal, x)
        &&& self.came_from() == g.bfs_tree(goal)
    }

    /// A path that leads from `first` is the route [`planned_route`] describes.
    pub proof fn lemma_planned_route(self, g: PathGraph, goal: Cell, p: Seq<Cell>, first: Cell)
        requires
            self.plans(g, goal),
            self.leads_from(p, first),
        ensures
            planned_route(g, p, goal, first),
    {
        assert forall|i: int| #![trigger p[i]] 0 <= i < p.len() - 1 implies g.edge(p[i], p[i + 1]) by {
            lemma_leads_step(self, p, first, i);
            assert(g.edge(self.came_from()[p[i + 1]], p[i + 1]));
        }
        self.lemma_leads_follow(p, first);
        if g.reachable(goal, first) {
            if p.len() == 1 {
                assert(p[0] == first);
            } else {
                assert(self.came_from().contains_key(p[1]) && self.came_from()[p[1]] == p[0]);
            }
            assert(walk_between(g, p, goal, first));
        }
    }

    /// The waypoints of a path that leads from `first`, up to waypoint `k`, follow the recorded
    /// steps back from waypoint `k`.
    proof fn lemma_follow_prefix(self, p: Seq<Cell>, first: Cell, k: int)
        requires
            self.leads_from(p, first),
            0 <= k < p.len(),
        ensures
            p.subrange(0, k + 1) == follow(self.came_from(), p[k], k as nat),
        decreases k,
    {
        if k > 0 {
            self.lemma_follow_prefix(p, first, k - 1);
            lemma_leads_step(self, p, first, k - 1);
            assert(p.subrange(0, k + 1) =~= p.subrange(0, k).push(p[k]));
        } else {
            assert(p.subrange(0, 1) =~= seq![p[0]]);
        }
    }

    /// A path that leads from `first` follows the recorded steps back from `first`.
    proof fn lemma_leads_follow(self, p: Seq<Cell>, first: Cell)
        requires
            self.leads_from(p, first),
        ensures
            p == follow(self.came_from(), first, self.steps(first)),
    {
        let n = p.len() - 1;
        self.lemma_follow_prefix(p, first, n);
        assert(p.subrange(0, n + 1) =~= p);
    }

    /// Whether `c` is the goal or has a recorded next step: the goal can be reached from it.
    pub open spec fn heads_to_goal(self, c: Cell) -> bool {
        c == self.target() || self.came_from().contains_key(c)
    }

    /// Whether `cells[i]` is the first of the cells of `cells` from which the goal can be
    /// reached with the fewest steps to the goal.
    pub open spec fn is_first_nearest(self, cells: Seq<Cell>, i: int) -> bool {
        &&& 0 <= i < cells.len()
        &&& self.heads_to_goal(cells[i])
        &&& forall|j: int|
            0 <= j < cells.len() && self.heads_to_goal(cells[j]) ==> self.steps(cells[i]) <= self.steps(
                #[trigger] cells[j],
            )
        &&& forall|j: int|
            0 <= j < i && self.heads_to_goal(cells[j]) ==> self.steps(cells[i]) < self.steps(
                #[trigger] cells[j],
            )
    }

    /// For a pathing that plans the routes toward `goal` on `g`, the goal can be reached from a
    /// cell exactly when `goal` reaches it on `g`.
    pub proof fn lemma_heads_to_goal(self, g: PathGraph, goal: Cell)
        requires
            self.plans(g, goal),
        ensures
            forall|c: Cell| #[trigger] self.heads_to_goal(c) <==> g.reachable(goal, c),
    {
        assert(g.is_walk(seq![goal]) && seq![goal][0] == goal && seq![goal].last() == goal);
        assert(g.reachable(goal, goal));
    }

    /// Whether the goal can be reached from `c` (see [`GoalPathing::heads_to_goal`]).
    fn leads_to_goal(&self, c: Cell) -> (r: bool)
        requires
            self.wf(),
        ensures
            r == self.heads_to_goal(c),
    {
        c == self.goal || self.lookup(c).is_some()
    }

    /// The recorded next step from `cell`, if any.
    fn lookup(&self, cell: Cell) -> (r: Option<Cell>)
        requires
            self.wf(),
        ensures
            r == (if self.came_from().contains_key(cell) {
                Some(self.came_from()[cell])
            } else {
                None
            }),
    {
        let mut i: usize = 0;
        while i < self.came_from.len()
            invariant
                self.wf(),
                i <= self.came_from@.len(),
                forall|j: int| 0 <= j < i ==> self.came_from@[j].0 != cell,
            decreases self.came_from.len() - i,
        {
            if self.came_from[i].0 == cell {
                proof {
                    reveal(assoc_has);
                    let j = lemma_assoc_index(self.came_from@, cell);
                    assert(self.came_from@[i as int].0 == cell);
                }
                return Some(self.came_from[i].1);
            }
            i = i + 1;
        }
        proof {
            reveal(assoc_has);
        }
        None
    }

    /// Facts that follow from [`GoalPathing::wf`] about one recorded step.
    #[verifier::spinoff_prover]
    #[verifier::rlimit(50)]
    proof fn lemma_step(self, c: Cell)
        requires
            self.wf(),
            self.came_from().contains_key(c),
        ensures
            self.steps(c) == self.steps(self.came_from()[c]) + 1,
            self.steps(c) <= self.came_from@.len(),
    {
        let s = self.came_from@;
        let d = self.dist@;
        let i = lemma_assoc_index(s, c);
        assert(s[i].0 == c);
        let n = s[i].1;
        assert(self.came_from()[c] == n);
        assert(assoc_has(s, c));
        assert(d.contains_key(c));
        assert(d.contains_key(n) && d[c] == d[n] + 1);
        assert(d[c] <= s.len());
        if n != self.goal {
            assert(assoc_has(s, n));
        }
    }

    /// The number of steps from `cell` to a cell with no next step.
    fn cost_to_goal(&self, cell: Cell) -> (r: usize)
        requires
            self.wf(),
        ensures
            r == self.steps(cell),
    {
        let mut current = cell;
        let mut cost: usize = 0;
        let len = self.came_from.len();
        proof {
            if self.came_from().contains_key(cell) {
                self.lemma_step(cell);
            }
        }
        loop
            invariant
                self.wf(),
                cost + self.steps(current) == self.steps(cell),
                self.steps(cell) <= len,
                len == self.came_from@.len(),
            decreases self.steps(current),
        {
            match self.lookup(current) {
                Some(next) => {
                    proof {
                        self.lemma_step(current);
                    }
                    current = next;
                    cost = cost + 1;
                },
                None => {
                    return cost;
                },
            }
        }
    }

    /// The path crew standing at `first` follow to the goal, stored goal-first.
    fn path_from(&self, first: Cell) -> (r: Path)
        requires
            self.wf(),
        ensures
            self.leads_from(r@, first),
    {
        let mut path: Vec<Cell> = Vec::new();
        path.push(first);
        proof {
            if self.came_from().contains_key(first) {
                self.lemma_step(first);
            }
        }
        loop
            invariant
                self.wf(),
                path@.len() >= 1,
                path@[0] == first,
                path@.len() - 1 + self.steps(path@.last()) == self.steps(first),
                forall|i: int|
                    #![trigger path@[i]]
                    0 <= i < path@.len() - 1 ==> self.came_from().contains_key(path@[i])
                        && self.came_from()[path@[i]] == path@[i + 1],
            ensures
                path@.len() >= 1,
                path@[0] == first,
                path@.len() - 1 == self.steps(first),
                !self.came_from().contains_key(path@.last()),
                forall|i: int|
                    #![trigger path@[i]]
                    0 <= i < path@.len() - 1 ==> self.came_from().contains_key(path@[i])
                        && self.came_from()[path@[i]] == path@[i + 1],
            decreases self.steps(path@.last()),
        {
            let last = path[path.len() - 1];
            match self.lookup(last) {
                Some(next) => {
                    proof {
                        self.lemma_step(last);
                    }
                    let ghost p0 = path@;
                    path.push(next);
                    proof {
                        assert forall|i: int|
                            #![trigger path@[i]]
                            0 <= i < path@.len() - 1 implies self.came_from().contains_key(path@[i])
                            && self.came_from()[path@[i]] == path@[i + 1] by {
                            if i < p0.len() - 1 {
                                assert(p0[i] == path@[i] && p0[i + 1] == path@[i + 1]);
                            }
                        }
                    }
                },
                None => {
                    break ;
                },
            }
        }
        let r = reversed(&path);
        proof {
            let n = path@.len();
            assert(r@.last() == path@[0]);
            assert(r@[0] == path@[n - 1]);
            assert forall|i: int| #![trigger r@[i]] 0 <= i < r@.len() - 1 implies self.came_from().contains_key(r@[i + 1])
                && self.came_from()[r@[i + 1]] == r@[i] by {
                assert(r@[i] == path@[n - 1 - i]);
                assert(r@[i + 1] == path@[n - 1 - (i + 1)]);
                assert(path@[n - 2 - i] == path@[n - 2 - i]);
            }
        }
        Path(r)
    }
}

/// The elements of `v` in reverse order.
fn reversed(v: &Vec<Cell>) -> (r: Vec<Cell>)
    ensures
        r@ == v@.reverse(),
{
    let mut r: Vec<Cell> = Vec::new();
    let mut i: usize = v.len();
    while i > 0
        invariant
            i <= v@.len(),
            r@ =~= v@.subrange(i as int, v@.len() as int).reverse(),
        decreases i,
    {
        i = i - 1;
        r.push(v[i]);
        assert(r@ =~= v@.subrange(i as int, v@.len() as int).reverse());
    }
    assert(v@.subrange(0, v@.len() as int) =~= v@);
    r
}

impl NavMesh {
    /// Find the shortest path from `start` to the goal of `pathing`, or `None` if the goal is
    /// unreachable from the start (or the crew already stands on the goal). Starting on a cell,
    /// the first waypoint is that cell's next step; starting on a nav section, it is the first
    /// cell of the section (in [`NavSection::cells`] order) from which the goal can be reached
    /// with the fewest steps, and the result is `None` when the goal can be reached from no cell
    /// of the section.
    pub fn find_path(&self, pathing: &GoalPathing, start: CrewLocation) -> (r: Option<Path>)
        requires
            pathing.wf(),
        ensures
            match start {
                CrewLocation::Cell(c) => match r {
                    None => !pathing.came_from().contains_key(c),
                    Some(p) => pathing.came_from().contains_key(c) && pathing.leads_from(
                        p@,
                        pathing.came_from()[c],
                    ),
                },
                CrewLocation::NavSection(s) => match r {
                    None => forall|i: int|
                        0 <= i < s.cell_seq().len() ==> !pathing.heads_to_goal(#[trigger] s.cell_seq()[i]),
                    Some(p) => exists|i: int|
                        pathing.is_first_nearest(s.cell_seq(), i) && pathing.leads_from(
                            p@,
                            #[trigger] s.cell_seq()[i],
                        ),
                },
            },
    {
        match start {
            CrewLocation::Cell(cell) => {
                match pathing.lookup(cell) {
                    Some(first) => Some(pathing.path_from(first)),
                    None => None,
                }
            },
            CrewLocation::NavSection(section) => {
                let cells = section.cells();
                let mut best: Option<usize> = None;
                let mut best_cost: usize = 0;
                let mut i: usize = 0;
                while i < cells.len()
                    invariant
                        pathing.wf(),
                        cells@ == section.cell_seq(),
                        i <= cells@.len(),
                        best is None ==> forall|j: int| 0 <= j < i ==> !pathing.heads_to_goal(#[trigger] cells@[j]),
                        best matches Some(b) ==> {
                            &&& b < i
                            &&& pathing.heads_to_goal(cells@[b as int])
                            &&& best_cost == pathing.steps(cells@[b as int])
                            &&& forall|j: int|
                                0 <= j < i && pathing.heads_to_goal(cells@[j]) ==> best_cost <= pathing.steps(
                                    #[trigger] cells@[j],
                                )
                            &&& forall|j: int|
                                0 <= j < b && pathing.heads_to_goal(cells@[j]) ==> best_cost < pathing.steps(
                                    #[trigger] cells@[j],
                                )
                        },
                    decreases cells.len() - i,
                {
                    let c = cells[i];
                    if pathing.leads_to_goal(c) {
                        let cost = pathing.cost_to_goal(c);
                        match best {
                            None => {
                                best = Some(i);
                                best_cost = cost;
                            },
                            Some(_) => {
                                if cost < best_cost {
                                    best = Some(i);
                                    best_cost = cost;
                                }
                            },
                        }
                    }
                    i = i + 1;
                }
                match best {
                    None => None,
                    Some(b) => {
                        let p = pathing.path_from(cells[b]);
                        assert(pathing.is_first_nearest(s_cells(section), b as int));
                        Some(p)
                    },
                }
            },
        }
    }
}

spec fn s_cells(s: NavSection) -> Seq<Cell> {
    s.cell_seq()
}

/// A sequence of waypoints to get from the current cell to a target cell. The waypoints are
/// stored goal-first: the next waypoint is the last one.
#[derive(Clone, Debug, PartialEq, Eq)]
pub struct Path(pub Vec<Cell>);

impl View for Path {
    type V = Seq<Cell>;

    open spec fn view(&self) -> Seq<Cell> {
        self.0@
    }
}

impl Path {
    /// The final waypoint.
    pub fn goal(&self) -> (r: Cell)
        requires
            self@.len() > 0,
        ensures
            r == self@[0],
    {
        self.0[0]
    }

    /// The waypoint to walk to next, or `None` if the path is complete.
    pub fn next_waypoint(&self) -> (r: Option<Cell>)
        ensures
            r == (if self@.len() > 0 {
                Some(self@.last())
            } else {
                None
            }),
    {
        if self.0.len() > 0 {
            Some(self.0[self.0.len() - 1])
        } else {
            None
        }
    }

    /// A copy of this path.
    pub fn copy(&self) -> (r: Path)
        ensures
            r@ == self@,
    {
        let mut v: Vec<Cell> = Vec::new();
        let mut i: usize = 0;
        while i < self.0.len()
            invariant
                i <= self.0@.len(),
                v@ == self.0@.subrange(0, i as int),
            decreases self.0.len() - i,
        {
            v.push(self.0[i]);
            i = i + 1;
            assert(v@ =~= self.0@.subrange(0, i as int));
        }
        assert(self.0@.subrange(0, self.0@.len() as int) =~= self.0@);
        Path(v)
    }

    /// Marks the next waypoint as reached and returns it, or `None` if the path is empty. An
    /// empty path indicates path completion.
    pub fn step(&mut self) -> (r: Option<Cell>)
        ensures
            final(self)@ == (if old(self)@.len() > 0 {
                old(self)@.drop_last()
            } else {
                old(self)@
            }),
            r == (if old(self)@.len() > 0 {
                Some(old(self)@.last())
            } else {
                None
            }),
    {
        self.0.pop()
    }
}

/// The outcome of a navigation step, standing for `Poll<Cell>`: either the crew member has reached
/// the end of its path at the given cell, or it is still on its way.
#[derive(Clone, Copy, Debug, PartialEq, Eq, Structural)]
pub enum NavPoll {
    Ready(Cell),
    Pending,
}

/// A crew member on its way: the path still to walk and the section it is crossing toward the
/// next waypoint. Its coordinate on that section is kept by the caller.
#[derive(Clone, Debug)]
pub struct CrewNav {
    pub path: Path,
    pub section: NavSection,
}

/// Whether the waypoints of `p` can be walked one after another: each pair of consecutive
/// waypoints shares a section of `mesh`.
pub open spec fn walkable(mesh: NavMesh, p: Seq<Cell>) -> bool {
    forall|i: int|
        #![trigger p[i]]
        0 <= i < p.len() - 1 ==> mesh.first_section_with(p[i + 1], p[i]) is Some
}

impl CrewNav {
    /// Whether this navigation can proceed: there is a waypoint left and the waypoints are
    /// walkable on `mesh`.
    pub open spec fn valid(self, mesh: NavMesh) -> bool {
        self.path@.len() > 0 && walkable(mesh, self.path@)
    }

    /// Advance by one fixed update step, once the caller has moved the crew member along its
    /// section and found whether it `arrived` at the next waypoint. On arrival the waypoint is
    /// marked reached; if it was the last one, this returns [`NavPoll::Ready`] with that cell,
    /// otherwise the crew member continues on the section joining it to the following waypoint
    /// (where the caller places it at the reached cell's coordinates).
    pub fn step(&mut self, nav_mesh: &NavMesh, arrived: bool) -> (r: NavPoll)
        requires
            old(self).valid(*nav_mesh),
        ensures
            nav_mesh.section_seq().contains(old(self).section) ==> nav_mesh.section_seq().contains(
                final(self).section,
            ),
            !arrived ==> *final(self) == *old(self) && r == NavPoll::Pending,
            arrived ==> final(self).path@ == old(self).path@.drop_last(),
            arrived && old(self).path@.len() == 1 ==> r == NavPoll::Ready(old(self).path@.last())
                && final(self).section == old(self).section,
            arrived && old(self).path@.len() > 1 ==> r == NavPoll::Pending && Some(
                final(self).section,
            ) == nav_mesh.first_section_with(
                old(self).path@.last(),
                old(self).path@[old(self).path@.len() - 2],
            ) && final(self).valid(*nav_mesh),
    {
        let current_goal = match self.path.next_waypoint() {
            Some(c) => c,
            None => {
                return NavPoll::Pending;
            },
        };
        if !arrived {
            return NavPoll::Pending;
        }
        let ghost p0 = self.path@;
        let _ = self.path.step();
        let next_goal = match self.path.next_waypoint() {
            Some(c) => c,
            None => {
                return NavPoll::Ready(current_goal);
            },
        };
        proof {
            let n = p0.len();
            assert(p0[n - 2] == p0[n - 2]);
            assert(next_goal == p0[n - 2]);
        }
        match nav_mesh.section_with_cells(current_goal, next_goal) {
            Some(section) => {
                self.section = section;
            },
            None => {},
        }
        proof {
            let p1 = self.path@;
            assert forall|i: int| #![trigger p1[i]] 0 <= i < p1.len() - 1 implies nav_mesh.first_section_with(
                p1[i + 1],
                p1[i],
            ) is Some by {
                assert(p1[i] == p0[i] && p1[i + 1] == p0[i + 1]);
            }
        }
        NavPoll::Pending
    }
}

/// Whether a walking crew member crosses one of the sections of `mesh`.
pub open spec fn on_mesh(mesh: NavMesh, s: CrewNavStatus) -> bool {
    s matches CrewNavStatus::Navigating(nav) ==> mesh.section_seq().contains(nav.section)
}

/// How a fixed update step changes the navigation status `s0` into `s1` on `mesh`, given
/// whether the crew member `arrived` at its next waypoint: a standing crew member stays; a
/// walking one that has not arrived stays; one that arrived at its last waypoint comes to stand
/// on it; otherwise it marks the waypoint reached and crosses the first section joining it to
/// the following one.
pub open spec fn nav_stepped(mesh: NavMesh, s0: CrewNavStatus, s1: CrewNavStatus, arrived: bool) -> bool {
    match s0 {
        CrewNavStatus::At(c) => s1 == CrewNavStatus::At(c),
        CrewNavStatus::Navigating(nav) => if !arrived {
            s1 == s0
        } else if nav.path@.len() == 1 {
            s1 == CrewNavStatus::At(nav.path@[0])
        } else {
            s1 matches CrewNavStatus::Navigating(nav2) && nav2.path@ == nav.path@.drop_last()
                && Some(nav2.section) == mesh.first_section_with(
                nav.path@.last(),
                nav.path@[nav.path@.len() - 2],
            )
        },
    }
}

/// A crew member's navigation status: standing on a cell, or walking a path.
#[derive(Clone, Debug)]
pub enum CrewNavStatus {
    At(Cell),
    Navigating(CrewNav),
}

impl CrewNavStatus {
    /// Whether this status can proceed on `mesh`: a walking crew member has a valid navigation.
    pub open spec fn valid(self, mesh: NavMesh) -> bool {
        match self {
            CrewNavStatus::At(_) => true,
            CrewNavStatus::Navigating(nav) => nav.valid(mesh),
        }
    }

    /// The cell this crew member occupies: the one it stands on, or the goal it walks to.
    pub open spec fn occupied(self) -> Cell {
        match self {
            CrewNavStatus::At(c) => c,
            CrewNavStatus::Navigating(nav) => nav.path@[0],
        }
    }

    /// Advance by one fixed update step (see [`CrewNav::step`]); a crew member that reaches the
    /// end of its path comes to stand on the reached cell.
    pub fn step(&mut self, nav_mesh: &NavMesh, arrived: bool)
        requires
            old(self).valid(*nav_mesh),
        ensures
            final(self).valid(*nav_mesh),
            on_mesh(*nav_mesh, *old(self)) ==> on_mesh(*nav_mesh, *final(self)),
            final(self).occupied() == old(self).occupied(),
            nav_stepped(*nav_mesh, *old(self), *final(self), arrived),
    {
        match self {
            CrewNavStatus::At(_) => {},
            CrewNavStatus::Navigating(nav) => {
                match nav.step(nav_mesh, arrived) {
                    NavPoll::Ready(destination) => {
                        *self = CrewNavStatus::At(destination);
                    },
                    NavPoll::Pending => {},
                }
            },
        }
    }

    /// The cell this crew member occupies: the one it stands on, or the goal of its path.
    pub fn occupied_cell(&self) -> (r: Cell)
        requires
            self.valid_path(),
        ensures
            r == self.occupied(),
    {
        match self {
            CrewNavStatus::At(x) => *x,
            CrewNavStatus::Navigating(nav) => nav.path.goal(),
        }
    }

    /// The cell this crew member is on, given its coordinates on the section it crosses rounded
    /// to whole numbers: `x` along a line; row `x` and column `y` across a square, in the order
    /// [`SquareSection::coords_of`] gives them.
    pub open spec fn spec_current_cell(self, x: usize, y: usize) -> Cell {
        match self {
            CrewNavStatus::At(c) => c,
            CrewNavStatus::Navigating(nav) => match nav.section {
                NavSection::Line(l) => l.0@[x as int],
                NavSection::Square(s) => s.0@[x as int]@[y as int],
            },
        }
    }

    /// The cell this crew member is on, given its coordinates on the section it crosses rounded
    /// to whole numbers: `x` along a line; row `x` and column `y` across a square, in the order
    /// [`SquareSection::coords_of`] gives them.
    pub fn current_cell(&self, x: usize, y: usize) -> (r: Cell)
        requires
            x < 2,
            y < 2,
        ensures
            r == self.spec_current_cell(x, y),
    {
        match self {
            CrewNavStatus::At(cell) => *cell,
            CrewNavStatus::Navigating(nav) => match nav.section {
                NavSection::Line(line) => line.0[x],
                NavSection::Square(square) => square.0[x][y],
            },
        }
    }

    /// A crew member standing at the coordinates of a cell of the section it crosses (see
    /// [`LineSection::coords_of`] and [`SquareSection::coords_of`]) is on that cell.
    pub proof fn lemma_current_cell_at_coords(nav: CrewNav, c: Cell)
        requires
            nav.section.cell_seq().contains(c),
        ensures
            nav.section matches NavSection::Line(l) ==> CrewNavStatus::Navigating(nav).spec_current_cell(
                line_coords(l, c),
                0,
            ) == c,
            nav.section matches NavSection::Square(s) ==> CrewNavStatus::Navigating(nav).spec_current_cell(
                square_coords(s, c).0,
                square_coords(s, c).1,
            ) == c,
    {
        let cells = nav.section.cell_seq();
        let k = choose|k: int| 0 <= k < cells.len() && cells[k] == c;
        assert(cells[k] == c);
    }

    /// Whether `other` is the same status: standing on the same cell, or crossing the same
    /// section with the same waypoints.
    pub open spec fn same_as(self, other: CrewNavStatus) -> bool {
        match (self, other) {
            (CrewNavStatus::At(a), CrewNavStatus::At(b)) => a == b,
            (CrewNavStatus::Navigating(a), CrewNavStatus::Navigating(b)) => a.path@ == b.path@
                && a.section == b.section,
            _ => false,
        }
    }

    /// A copy of this status.
    pub fn copy(&self) -> (r: CrewNavStatus)
        ensures
            r.same_as(*self),
    {
        match self {
            CrewNavStatus::At(c) => CrewNavStatus::At(*c),
            CrewNavStatus::Navigating(nav) => {
                let path = nav.path.copy();
                CrewNavStatus::Navigating(CrewNav { path, section: nav.section })
            },
        }
    }

    /// Whether a walking crew member has a waypoint left.
    pub open spec fn valid_path(self) -> bool {
        match self {
            CrewNavStatus::At(_) => true,
            CrewNavStatus::Navigating(nav) => nav.path@.len() > 0,
        }
    }

    /// Where this crew member is, for path planning: its cell, or the section it is crossing.
    pub fn current_location(&self) -> (r: CrewLocation)
        ensures
            r == self.location(),
    {
        match self {
            CrewNavStatus::At(cell) => CrewLocation::Cell(*cell),
            CrewNavStatus::Navigating(nav) => CrewLocation::NavSection(nav.section),
        }
    }

    /// Where this crew member is, for path planning.
    pub open spec fn location(self) -> CrewLocation {
        match self {
            CrewNavStatus::At(cell) => CrewLocation::Cell(cell),
            CrewNavStatus::Navigating(nav) => CrewLocation::NavSection(nav.section),
        }
    }
}

} // verus!
