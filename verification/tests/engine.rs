use gridpath::cell::DIRECTIONS;
use gridpath::{
    astar, heuristic, reconstruct, solve, Cell, ErrorKind, Grid, NodeTable, Search, SearchNode, Status,
};

fn grid(width: i64, height: i64, walls: &[(i64, i64)]) -> Grid {
    let walls: Vec<Cell> = walls.iter().map(|&(x, y)| Cell::new(x, y)).collect();
    match Grid::new(width, height, &walls) {
        Ok(g) => g,
        Err(e) => panic!("no grid: {:?}", e),
    }
}

fn node(cell: Cell, g: u64, parent: Option<Cell>) -> SearchNode {
    SearchNode { cell, g, h: 0, parent, closed: true }
}

#[test]
fn heuristic_is_manhattan_distance() {
    assert_eq!(heuristic(Cell::new(0, 0), Cell::new(2, 2)), 4);
    assert_eq!(heuristic(Cell::new(0, 0), Cell::new(1, 1)), 2);
    assert_eq!(heuristic(Cell::new(1, 1), Cell::new(2, 2)), 2);
    assert_eq!(heuristic(Cell::new(5, 7), Cell::new(5, 7)), 0);
    assert_eq!(heuristic(Cell::new(-3, 4), Cell::new(2, -1)), 10);
    assert_eq!(heuristic(Cell::new(2, -1), Cell::new(-3, 4)), 10);
    assert_eq!(heuristic(Cell::new(i64::MIN, 0), Cell::new(i64::MAX, 0)), u64::MAX);
}

#[test]
fn steps_go_down_right_up_left() {
    let c = Cell::new(4, 7);
    assert_eq!(DIRECTIONS, 4);
    assert_eq!(c.step(0), Cell::new(4, 8));
    assert_eq!(c.step(1), Cell::new(5, 7));
    assert_eq!(c.step(2), Cell::new(4, 6));
    assert_eq!(c.step(3), Cell::new(3, 7));
}

#[test]
fn grid_answers_queries() {
    let g = grid(3, 2, &[(1, 0), (2, 1), (7, 7), (-1, 0)]);
    assert_eq!(g.width(), 3);
    assert_eq!(g.height(), 2);
    assert_eq!(g.cell_count(), 6);
    assert!(g.in_bounds(Cell::new(0, 0)));
    assert!(g.in_bounds(Cell::new(2, 1)));
    assert!(!g.in_bounds(Cell::new(3, 0)));
    assert!(!g.in_bounds(Cell::new(0, 2)));
    assert!(!g.in_bounds(Cell::new(-1, 0)));
    assert!(g.is_blocked(Cell::new(1, 0)));
    assert!(g.is_blocked(Cell::new(2, 1)));
    assert!(!g.is_blocked(Cell::new(0, 0)));
    assert!(!g.is_blocked(Cell::new(7, 7)));
    assert!(!g.is_blocked(Cell::new(-1, 0)));
    assert!(g.is_walkable(Cell::new(0, 1)));
    assert!(!g.is_walkable(Cell::new(1, 0)));
    assert!(!g.is_walkable(Cell::new(7, 7)));
    assert_eq!(g.index_of(Cell::new(0, 0)), 0);
    assert_eq!(g.index_of(Cell::new(2, 0)), 2);
    assert_eq!(g.index_of(Cell::new(0, 1)), 3);
    assert_eq!(g.index_of(Cell::new(2, 1)), 5);
}

#[test]
fn grid_refuses_bad_sides() {
    for (w, h, text) in [
        (0, 1, "Invalid width or height"),
        (1, 0, "Invalid width or height"),
        (-1, 5, "Invalid width or height"),
        (31, 1, "Grid too large"),
        (1, 31, "Grid too large"),
    ] {
        match Grid::new(w, h, &Vec::new()) {
            Ok(_) => panic!("{}x{} accepted", w, h),
            Err(e) => {
                assert_eq!(e.kind(), ErrorKind::InvalidInput);
                assert_eq!(e.message(), text);
            }
        }
    }
    assert!(Grid::new(30, 30, &Vec::new()).is_ok());
    assert!(Grid::new(1, 1, &Vec::new()).is_ok());
}

#[test]
fn astar_finds_the_documented_route() {
    let g = grid(3, 3, &[(0, 1), (2, 1)]);
    let path = astar(&g, Cell::new(0, 0), Cell::new(2, 2));
    assert_eq!(
        path,
        Some(vec![Cell::new(0, 0), Cell::new(1, 0), Cell::new(1, 1), Cell::new(1, 2), Cell::new(2, 2)])
    );
}

#[test]
fn astar_returns_nothing_without_a_route() {
    let g = grid(3, 3, &[(1, 1), (2, 1), (1, 2)]);
    assert_eq!(astar(&g, Cell::new(0, 0), Cell::new(2, 2)), None);
}

#[test]
fn astar_returns_nothing_for_cells_that_cannot_be_stood_on() {
    let g = grid(3, 3, &[(1, 1)]);
    assert_eq!(astar(&g, Cell::new(1, 1), Cell::new(2, 2)), None);
    assert_eq!(astar(&g, Cell::new(0, 0), Cell::new(1, 1)), None);
    assert_eq!(astar(&g, Cell::new(1, 1), Cell::new(1, 1)), None);
    assert_eq!(astar(&g, Cell::new(0, 0), Cell::new(3, 3)), None);
    assert_eq!(astar(&g, Cell::new(-1, 0), Cell::new(0, 0)), None);
}

#[test]
fn astar_from_a_cell_to_itself() {
    let g = grid(3, 3, &[]);
    assert_eq!(astar(&g, Cell::new(2, 0), Cell::new(2, 0)), Some(vec![Cell::new(2, 0)]));
}

#[test]
fn search_passes_through_its_states() {
    let g = grid(2, 1, &[]);
    let mut s = Search::new(&g, Cell::new(0, 0), Cell::new(1, 0));
    assert_eq!(s.status(), Status::Initialized);
    assert!(!s.status().terminal());
    s.step();
    assert_eq!(s.status(), Status::Running);
    assert!(matches!(s.path(), Ok(path) if path.is_empty()));
    s.step();
    assert_eq!(s.status(), Status::Running);
    s.step();
    assert_eq!(s.status(), Status::Found);
    assert!(s.status().terminal());
    s.step();
    assert_eq!(s.status(), Status::Found);
    match s.path() {
        Ok(path) => assert_eq!(path, vec![Cell::new(0, 0), Cell::new(1, 0)]),
        Err(e) => panic!("{:?}", e),
    }
}

#[test]
fn search_from_a_cell_to_itself_ends_with_the_first_step() {
    let g = grid(3, 3, &[]);
    let mut s = Search::new(&g, Cell::new(1, 1), Cell::new(1, 1));
    s.step();
    assert_eq!(s.status(), Status::Found);
    match s.path() {
        Ok(path) => assert_eq!(path, vec![Cell::new(1, 1)]),
        Err(e) => panic!("{:?}", e),
    }
}

#[test]
fn search_runs_dry_when_the_goal_is_cut_off() {
    let g = grid(3, 1, &[(1, 0)]);
    let mut s = Search::new(&g, Cell::new(0, 0), Cell::new(2, 0));
    s.step();
    assert_eq!(s.status(), Status::Running);
    s.step();
    assert_eq!(s.status(), Status::Running);
    s.step();
    assert_eq!(s.status(), Status::Exhausted);
    assert!(s.status().terminal());
    match s.path() {
        Ok(path) => assert!(path.is_empty()),
        Err(e) => panic!("{:?}", e),
    }
}

#[test]
fn run_ends_the_search() {
    let g = grid(5, 5, &[(1, 0), (1, 1), (1, 2), (1, 3)]);
    let mut s = Search::new(&g, Cell::new(0, 0), Cell::new(2, 0));
    s.run();
    assert_eq!(s.status(), Status::Found);
    match s.path() {
        Ok(path) => {
            assert_eq!(path.len(), 11);
            assert_eq!(path[0], Cell::new(0, 0));
            assert_eq!(path[10], Cell::new(2, 0));
        }
        Err(e) => panic!("{:?}", e),
    }
}

#[test]
fn node_total_is_cost_plus_estimate() {
    let n = SearchNode { cell: Cell::new(0, 0), g: 7, h: 5, parent: None, closed: false };
    assert_eq!(n.f(), 12);
}

#[test]
fn table_keeps_records() {
    let g = grid(3, 2, &[]);
    let mut t = NodeTable::new(&g);
    assert_eq!(t.slot_count(), 6);
    assert!(t.has_slot(Cell::new(2, 1)));
    assert!(!t.has_slot(Cell::new(3, 1)));
    assert!(!t.has_slot(Cell::new(0, -1)));
    assert!(t.get(Cell::new(1, 1)).is_none());
    t.put(Cell::new(1, 1), node(Cell::new(1, 1), 3, Some(Cell::new(0, 1))));
    match t.get(Cell::new(1, 1)) {
        Some(n) => {
            assert_eq!(n.cell, Cell::new(1, 1));
            assert_eq!(n.g, 3);
            assert_eq!(n.parent, Some(Cell::new(0, 1)));
            assert!(n.closed);
        }
        None => panic!("record lost"),
    }
    assert!(t.get(Cell::new(0, 1)).is_none());
    assert!(t.get(Cell::new(1, 0)).is_none());
}

#[test]
fn reconstruct_follows_the_links() {
    let g = grid(3, 1, &[]);
    let mut t = NodeTable::new(&g);
    t.put(Cell::new(0, 0), node(Cell::new(0, 0), 0, None));
    t.put(Cell::new(1, 0), node(Cell::new(1, 0), 1, Some(Cell::new(0, 0))));
    t.put(Cell::new(2, 0), node(Cell::new(2, 0), 2, Some(Cell::new(1, 0))));
    match reconstruct(&t, Cell::new(2, 0)) {
        Ok(path) => assert_eq!(path, vec![Cell::new(0, 0), Cell::new(1, 0), Cell::new(2, 0)]),
        Err(e) => panic!("{:?}", e),
    }
    match reconstruct(&t, Cell::new(0, 0)) {
        Ok(path) => assert_eq!(path, vec![Cell::new(0, 0)]),
        Err(e) => panic!("{:?}", e),
    }
}

#[test]
fn reconstruct_rejects_a_cycle() {
    let g = grid(2, 2, &[]);
    let mut t = NodeTable::new(&g);
    t.put(Cell::new(0, 0), node(Cell::new(0, 0), 0, Some(Cell::new(1, 0))));
    t.put(Cell::new(1, 0), node(Cell::new(1, 0), 1, Some(Cell::new(0, 0))));
    match reconstruct(&t, Cell::new(1, 0)) {
        Ok(path) => panic!("cycle accepted: {:?}", path),
        Err(e) => {
            assert_eq!(e.kind(), ErrorKind::InternalFault);
            assert_eq!(e.message(), "");
        }
    }
}

#[test]
fn reconstruct_rejects_a_cell_that_points_to_itself() {
    let g = grid(1, 1, &[]);
    let mut t = NodeTable::new(&g);
    t.put(Cell::new(0, 0), node(Cell::new(0, 0), 0, Some(Cell::new(0, 0))));
    assert!(reconstruct(&t, Cell::new(0, 0)).is_err());
}

#[test]
fn reconstruct_rejects_a_broken_chain() {
    let g = grid(3, 1, &[]);
    let mut t = NodeTable::new(&g);
    t.put(Cell::new(2, 0), node(Cell::new(2, 0), 2, Some(Cell::new(1, 0))));
    match reconstruct(&t, Cell::new(2, 0)) {
        Ok(path) => panic!("broken chain accepted: {:?}", path),
        Err(e) => assert_eq!(e.kind(), ErrorKind::InternalFault),
    }
    assert!(reconstruct(&t, Cell::new(0, 0)).is_err());
    assert!(reconstruct(&t, Cell::new(5, 5)).is_err());
    let mut t = NodeTable::new(&g);
    t.put(Cell::new(0, 0), node(Cell::new(0, 0), 1, Some(Cell::new(-1, 0))));
    assert!(reconstruct(&t, Cell::new(0, 0)).is_err());
}

#[test]
fn reconstruct_accepts_the_longest_chain_of_distinct_cells() {
    let g = grid(4, 1, &[]);
    let mut t = NodeTable::new(&g);
    t.put(Cell::new(0, 0), node(Cell::new(0, 0), 0, None));
    for x in 1..4 {
        t.put(Cell::new(x, 0), node(Cell::new(x, 0), x as u64, Some(Cell::new(x - 1, 0))));
    }
    match reconstruct(&t, Cell::new(3, 0)) {
        Ok(path) => assert_eq!(path.len(), 4),
        Err(e) => panic!("{:?}", e),
    }
}

#[test]
fn solve_returns_the_route_or_an_empty_one() {
    let g = grid(3, 3, &[(0, 1), (2, 1)]);
    match solve(&g, Cell::new(0, 0), Cell::new(2, 2)) {
        Ok(path) => assert_eq!(
            path,
            vec![Cell::new(0, 0), Cell::new(1, 0), Cell::new(1, 1), Cell::new(1, 2), Cell::new(2, 2)]
        ),
        Err(e) => panic!("{:?}", e),
    }
    let g = grid(3, 3, &[(0, 1), (1, 1), (2, 1)]);
    match solve(&g, Cell::new(0, 0), Cell::new(2, 2)) {
        Ok(path) => assert!(path.is_empty()),
        Err(e) => panic!("{:?}", e),
    }
    match solve(&g, Cell::new(1, 2), Cell::new(1, 2)) {
        Ok(path) => assert_eq!(path, vec![Cell::new(1, 2)]),
        Err(e) => panic!("{:?}", e),
    }
}

#[test]
fn solve_goes_around_walls() {
    let g = grid(4, 3, &[(1, 0), (2, 1)]);
    let path = match solve(&g, Cell::new(0, 0), Cell::new(3, 0)) {
        Ok(path) => path,
        Err(e) => panic!("{:?}", e),
    };
    assert_eq!(
        path,
        vec![
            Cell::new(0, 0),
            Cell::new(0, 1),
            Cell::new(1, 1),
            Cell::new(1, 2),
            Cell::new(2, 2),
            Cell::new(3, 2),
            Cell::new(3, 1),
            Cell::new(3, 0),
        ]
    );
}
