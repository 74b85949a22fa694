use pvp::nav::{
    Cell, CrewLocation, CrewNav, CrewNavStatus, LineSection, NavMesh, NavSection, Path, PathGraph,
    SquareSection,
};

fn nav_mesh() -> NavMesh {
    NavMesh {
        lines: vec![
            LineSection([Cell(4), Cell(5)]),
            LineSection([Cell(6), Cell(7)]),
            LineSection([Cell(3), Cell(5)]),
            LineSection([Cell(5), Cell(7)]),
            LineSection([Cell(8), Cell(9)]),
        ],
        squares: vec![SquareSection([[Cell(0), Cell(1)], [Cell(2), Cell(3)]])],
    }
}

fn path_graph() -> PathGraph {
    PathGraph {
        edges: vec![
            (Cell(0), vec![Cell(1), Cell(2), Cell(3)]),
            (Cell(1), vec![Cell(0), Cell(2), Cell(3)]),
            (Cell(2), vec![Cell(0), Cell(1), Cell(3)]),
            (Cell(3), vec![Cell(0), Cell(1), Cell(2), Cell(5)]),
            (Cell(4), vec![Cell(5)]),
            (Cell(5), vec![Cell(3), Cell(4), Cell(7)]),
            (Cell(6), vec![Cell(7)]),
            (Cell(7), vec![Cell(5), Cell(6)]),
            (Cell(8), vec![Cell(9)]),
            (Cell(9), vec![Cell(8)]),
        ],
    }
}

#[test]
fn line_coords_of() {
    let line = LineSection([Cell(3), Cell(7)]);
    assert_eq!(line.coords_of(Cell(3)) as f32, 0.0);
    assert_eq!(line.coords_of(Cell(7)) as f32, 1.0);
}

fn walk_to_end(mut crew: CrewNavStatus, nav_mesh: &NavMesh) -> Cell {
    let mut steps = 0;
    loop {
        match crew {
            CrewNavStatus::At(x) => return x,
            _ => {
                crew.step(nav_mesh, true);
                steps += 1;
                assert!(steps < 100);
            }
        }
    }
}

#[test]
fn nav_a_to_b() {
    let nav_mesh = nav_mesh();
    let path = Path(vec![Cell(6), Cell(7), Cell(5), Cell(3)]);
    let crew = CrewNavStatus::Navigating(CrewNav {
        path,
        section: NavSection::Square(SquareSection([[Cell(0), Cell(1)], [Cell(2), Cell(3)]])),
    });
    assert_eq!(walk_to_end(crew, &nav_mesh), Cell(6));
}

#[test]
fn nav_b_to_a() {
    let nav_mesh = nav_mesh();
    let path = Path(vec![Cell(6), Cell(7), Cell(5), Cell(3)]);
    let crew = CrewNavStatus::Navigating(CrewNav {
        path,
        section: NavSection::Square(SquareSection([[Cell(0), Cell(1)], [Cell(2), Cell(3)]])),
    });
    assert_eq!(walk_to_end(crew, &nav_mesh), Cell(6));
}

#[test]
fn path_to() {
    let nav_mesh = nav_mesh();
    let path_graph = path_graph();
    let pathing = path_graph.pathing_to(Cell(6));

    let path = nav_mesh.find_path(&pathing, CrewLocation::Cell(Cell(0)));
    assert_eq!(path, Some(Path(vec![Cell(6), Cell(7), Cell(5), Cell(3)])));
    let path = nav_mesh.find_path(
        &pathing,
        CrewLocation::NavSection(NavSection::Square(nav_mesh.squares[0])),
    );
    assert_eq!(path, Some(Path(vec![Cell(6), Cell(7), Cell(5), Cell(3)])));
    let path = nav_mesh.find_path(&pathing, CrewLocation::Cell(Cell(8)));
    assert_eq!(path, None);
    let path = nav_mesh.find_path(&pathing, CrewLocation::Cell(Cell(6)));
    assert_eq!(path, None);
}

#[test]
fn path_from_line_section_starts_at_nearest_end() {
    let nav_mesh = nav_mesh();
    let pathing = path_graph().pathing_to(Cell(6));
    // Cell 5 is two steps from the goal, cell 4 three: the path starts from cell 5.
    let path = nav_mesh.find_path(&pathing, CrewLocation::NavSection(NavSection::Line(nav_mesh.lines[0])));
    assert_eq!(path, Some(Path(vec![Cell(6), Cell(7), Cell(5)])));
}

#[test]
fn shortest_path_length_matches_breadth_first_distance() {
    let nav_mesh = nav_mesh();
    let pathing = path_graph().pathing_to(Cell(4));
    // From cell 0 the nearest route to 4 goes 0 -> 3 -> 5 -> 4: the path lists 4, 5, 3.
    let path = nav_mesh.find_path(&pathing, CrewLocation::Cell(Cell(0)));
    assert_eq!(path, Some(Path(vec![Cell(4), Cell(5), Cell(3)])));
}

#[test]
fn square_coords_of() {
    let square = SquareSection([[Cell(0), Cell(1)], [Cell(2), Cell(3)]]);
    assert_eq!(square.coords_of(Cell(0)), (0, 0));
    assert_eq!(square.coords_of(Cell(1)), (0, 1));
    assert_eq!(square.coords_of(Cell(2)), (1, 0));
    assert_eq!(square.coords_of(Cell(3)), (1, 1));
}

#[test]
fn section_with_cells_finds_joining_section() {
    let nav_mesh = nav_mesh();
    match nav_mesh.section_with_cells(Cell(7), Cell(5)) {
        Some(NavSection::Line(l)) => assert_eq!(l.0, [Cell(5), Cell(7)]),
        other => panic!("unexpected section {:?}", other),
    }
    assert!(nav_mesh.section_with_cells(Cell(0), Cell(9)).is_none());
}

#[test]
fn path_accessors() {
    let mut path = Path(vec![Cell(6), Cell(7), Cell(5)]);
    assert_eq!(path.goal(), Cell(6));
    assert_eq!(path.next_waypoint(), Some(Cell(5)));
    assert_eq!(path.step(), Some(Cell(5)));
    assert_eq!(path.next_waypoint(), Some(Cell(7)));
    assert_eq!(path.step(), Some(Cell(7)));
    assert_eq!(path.step(), Some(Cell(6)));
    assert_eq!(path.next_waypoint(), None);
    assert_eq!(path.step(), None);
}

#[test]
fn crew_at_a_cells_coordinates_is_on_that_cell() {
    let square = SquareSection([[Cell(0), Cell(1)], [Cell(2), Cell(3)]]);
    for cell in [Cell(0), Cell(1), Cell(2), Cell(3)] {
        let crew = CrewNavStatus::Navigating(CrewNav {
            path: Path(vec![cell]),
            section: NavSection::Square(square),
        });
        let (row, col) = square.coords_of(cell);
        assert_eq!(crew.current_cell(row, col), cell);
    }
    let line = LineSection([Cell(4), Cell(5)]);
    for cell in [Cell(4), Cell(5)] {
        let crew = CrewNavStatus::Navigating(CrewNav { path: Path(vec![cell]), section: NavSection::Line(line) });
        assert_eq!(crew.current_cell(line.coords_of(cell), 0), cell);
    }
}

#[test]
fn crew_not_arrived_stays() {
    let nav_mesh = nav_mesh();
    let mut crew = CrewNavStatus::Navigating(CrewNav {
        path: Path(vec![Cell(6), Cell(7)]),
        section: NavSection::Line(LineSection([Cell(6), Cell(7)])),
    });
    crew.step(&nav_mesh, false);
    assert_eq!(crew.occupied_cell(), Cell(6));
    match crew {
        CrewNavStatus::Navigating(nav) => assert_eq!(nav.path, Path(vec![Cell(6), Cell(7)])),
        CrewNavStatus::At(_) => panic!("crew should still be walking"),
    }
}

#[test]
fn neighbors_of_cell() {
    let g = path_graph();
    assert_eq!(g.neighbors_of(Cell(5)), &vec![Cell(3), Cell(4), Cell(7)]);
}

#[test]
fn equally_short_routes_follow_the_neighbor_order() {
    let mesh = NavMesh { lines: vec![], squares: vec![] };
    let diamond = |first: Cell, second: Cell| PathGraph {
        edges: vec![
            (Cell(0), vec![Cell(1), Cell(2)]),
            (Cell(1), vec![Cell(0), Cell(3)]),
            (Cell(2), vec![Cell(0), Cell(3)]),
            (Cell(3), vec![first, second]),
        ],
    };
    // Both 0 -> 1 -> 3 and 0 -> 2 -> 3 take two steps; the search from 3 reaches 0 through the
    // neighbor of 3 it lists first.
    let pathing = diamond(Cell(1), Cell(2)).pathing_to(Cell(3));
    assert_eq!(mesh.find_path(&pathing, CrewLocation::Cell(Cell(0))), Some(Path(vec![Cell(3), Cell(1)])));
    let pathing = diamond(Cell(2), Cell(1)).pathing_to(Cell(3));
    assert_eq!(mesh.find_path(&pathing, CrewLocation::Cell(Cell(0))), Some(Path(vec![Cell(3), Cell(2)])));
}

#[test]
fn path_from_section_ignores_cells_that_cannot_reach_the_goal() {
    let nav_mesh = nav_mesh();
    let pathing = path_graph().pathing_to(Cell(6));
    // Neither end of this line reaches cell 6.
    let cut_off = CrewLocation::NavSection(NavSection::Line(LineSection([Cell(8), Cell(9)])));
    assert_eq!(nav_mesh.find_path(&pathing, cut_off), None);
    // Cell 8 cannot reach cell 6, cell 5 can: the path starts from cell 5.
    let mixed = CrewLocation::NavSection(NavSection::Line(LineSection([Cell(8), Cell(5)])));
    assert_eq!(nav_mesh.find_path(&pathing, mixed), Some(Path(vec![Cell(6), Cell(7), Cell(5)])));
}
