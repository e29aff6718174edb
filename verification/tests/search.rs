use tower_defense::a_star::min_f;
use tower_defense::coords::{distance, GridCoord};
use tower_defense::grid::{Grid, Node, Visit, INFINITY};

fn step_cost(a: GridCoord, b: GridCoord) -> i32 {
    if a.0 != b.0 && a.1 != b.1 {
        14
    } else {
        10
    }
}

fn cost_of(path: &[GridCoord]) -> i32 {
    path.windows(2).map(|w| step_cost(w[0], w[1])).sum()
}

fn assert_is_path(grid: &Grid, path: &[GridCoord], start: GridCoord, end: GridCoord) {
    assert!(!path.is_empty());
    assert_eq!(path[0], start);
    assert_eq!(*path.last().unwrap(), end);
    for cell in path {
        assert!(grid.is_walkable(*cell));
    }
    for w in path.windows(2) {
        let dx = (w[0].0 - w[1].0).abs();
        let dy = (w[0].1 - w[1].1).abs();
        assert!(dx <= 1 && dy <= 1 && (dx, dy) != (0, 0));
    }
}

fn grid_of(lines: &[&str]) -> Grid {
    Grid::load(lines.join("\n")).unwrap()
}

fn node(f_cost: i32, h_cost: i32, x: i32) -> Node {
    Node {
        x,
        y: 0,
        walkable: true,
        g_cost: f_cost - h_cost,
        h_cost,
        f_cost,
        parent: None,
        visit: Visit::Open,
    }
}

#[test]
fn diagonal_across_an_open_grid() {
    let mut grid = Grid::new(5, 5);
    let path = grid.astar((0, 0), (4, 4)).unwrap();
    assert_eq!(path, vec![(0, 0), (1, 1), (2, 2), (3, 3), (4, 4)]);
    assert_eq!(cost_of(&path), 56);
    assert_eq!(grid.node((4, 4)).unwrap().g_cost, 56);
    assert_eq!(grid.find_path((0, 0), (4, 4)), Some(vec![(0, 0), (4, 4)]));
}

#[test]
fn a_blocked_column_leaves_no_path() {
    let mut grid = grid_of(&["00100", "00100", "00100", "00100", "00100"]);
    assert_eq!(grid.astar((0, 0), (4, 4)), None);
    assert_eq!(grid.find_path((0, 0), (4, 4)), None);
    assert_eq!(grid.astar((4, 4), (0, 0)), None);
}

#[test]
fn start_equal_to_end_is_a_single_cell() {
    let mut grid = Grid::new(3, 4);
    assert_eq!(grid.astar((1, 2), (1, 2)), Some(vec![(1, 2)]));
    assert_eq!(grid.find_path((2, 3), (2, 3)), Some(vec![(2, 3)]));
}

#[test]
fn an_enclosed_target_is_unreachable() {
    let mut grid = grid_of(&["00000", "01110", "01010", "01110", "00000"]);
    assert!(grid.is_walkable((2, 2)));
    assert_eq!(grid.astar((0, 0), (2, 2)), None);
    assert_eq!(grid.astar((2, 2), (0, 0)), None);
    assert!(grid.astar((0, 0), (4, 4)).is_some());
}

#[test]
fn blocked_or_outside_ends_give_no_path() {
    let mut grid = grid_of(&["010", "000"]);
    assert_eq!(grid.astar((1, 1), (0, 0)), None);
    assert_eq!(grid.astar((0, 0), (1, 1)), None);
    assert_eq!(grid.astar((-1, 0), (0, 0)), None);
    assert_eq!(grid.astar((0, 0), (3, 0)), None);
    assert_eq!(grid.astar((0, 0), (0, 2)), None);
    assert_eq!(grid.astar((i32::MAX, i32::MIN), (0, 0)), None);
}

#[test]
fn open_grid_cost_is_the_octile_distance() {
    let mut grid = Grid::new(7, 4);
    for sx in 0..7 {
        for sy in 0..4 {
            for (ex, ey) in [(0, 0), (6, 3), (3, 1), (6, 0), (0, 3)] {
                let path = grid.astar((sx, sy), (ex, ey)).unwrap();
                assert_is_path(&grid, &path, (sx, sy), (ex, ey));
                assert_eq!(cost_of(&path), distance((sx, sy), (ex, ey)));
            }
        }
    }
}

#[test]
fn the_path_goes_around_an_obstacle_at_the_least_cost() {
    let mut grid = grid_of(&["000", "010", "000"]);
    let path = grid.astar((0, 0), (2, 2)).unwrap();
    assert_is_path(&grid, &path, (0, 0), (2, 2));
    assert_eq!(cost_of(&path), 34);
    assert!(!path.contains(&(1, 1)));
}

#[test]
fn a_wall_with_a_gap_is_passed_through_the_gap() {
    // The first line is the top row: the gap is at column 3 of row 0.
    let mut grid = grid_of(&["0001000", "0001000", "0001000", "0000000"]);
    let path = grid.astar((0, 3), (6, 3)).unwrap();
    assert_is_path(&grid, &path, (0, 3), (6, 3));
    assert!(path.contains(&(3, 0)));
    assert_eq!(cost_of(&path), 14 * 3 + 14 * 3);
    assert_eq!(grid.node((6, 3)).unwrap().g_cost, cost_of(&path));
}

#[test]
fn a_second_search_starts_from_cleared_cells() {
    let mut grid = grid_of(&["00000", "01110", "00000"]);
    let first = grid.astar((0, 0), (4, 2)).unwrap();
    let second = grid.astar((4, 2), (0, 0)).unwrap();
    let third = grid.astar((0, 0), (4, 2)).unwrap();
    assert_eq!(first, third);
    assert_eq!(cost_of(&first), cost_of(&second));
    assert_is_path(&grid, &second, (4, 2), (0, 0));
    grid.reset_nodes();
    let cleared = grid.node((4, 2)).unwrap();
    assert_eq!(cleared.g_cost, 0);
    assert_eq!(cleared.h_cost, 0);
    assert_eq!(cleared.f_cost, INFINITY);
    assert_eq!(cleared.parent, None);
    assert_eq!(cleared.visit, Visit::Unseen);
}

#[test]
fn a_search_leaves_walkability_as_it_was() {
    let mut grid = grid_of(&["0010", "0000", "0100"]);
    let before: Vec<bool> = (0..4)
        .flat_map(|x| (0..3).map(move |y| (x, y)))
        .map(|c| grid.is_walkable(c))
        .collect();
    grid.astar((0, 0), (3, 2));
    let after: Vec<bool> = (0..4)
        .flat_map(|x| (0..3).map(move |y| (x, y)))
        .map(|c| grid.is_walkable(c))
        .collect();
    assert_eq!(before, after);
    assert_eq!(grid.width(), 4);
    assert_eq!(grid.height(), 3);
}

#[test]
fn find_path_keeps_the_turns_of_the_shortest_path() {
    let mut grid = grid_of(&["0001000", "0001000", "0001000", "0000000"]);
    let waypoints = grid.find_path((0, 3), (6, 3)).unwrap();
    assert_eq!(waypoints, vec![(0, 3), (3, 0), (6, 3)]);
}

#[test]
fn min_f_of_nothing_is_none() {
    assert!(min_f(&Vec::new()).is_none());
}

#[test]
fn min_f_takes_the_least_f_cost() {
    let nodes = vec![node(40, 10, 0), node(30, 30, 1), node(50, 0, 2)];
    let (index, least) = min_f(&nodes).unwrap();
    assert_eq!(index, 1);
    assert_eq!((least.x, least.f_cost), (1, 30));
}

#[test]
fn min_f_breaks_ties_by_the_least_h_cost() {
    let nodes = vec![node(30, 20, 0), node(30, 4, 1), node(30, 10, 2), node(44, 0, 3)];
    let (index, least) = min_f(&nodes).unwrap();
    assert_eq!(index, 1);
    assert_eq!(least.h_cost, 4);
}

#[test]
fn min_f_takes_the_first_of_equal_nodes() {
    let nodes = vec![node(50, 9, 0), node(30, 4, 1), node(30, 4, 2), node(30, 4, 3)];
    let (index, least) = min_f(&nodes).unwrap();
    assert_eq!(index, 1);
    assert_eq!(least.x, 1);
}

#[test]
fn distance_is_octile() {
    assert_eq!(distance((0, 0), (0, 0)), 0);
    assert_eq!(distance((0, 0), (4, 4)), 56);
    assert_eq!(distance((0, 0), (3, 1)), 34);
    assert_eq!(distance((1, 5), (1, 2)), 30);
    assert_eq!(distance((2, 0), (-2, 7)), 14 * 4 + 10 * 3);
    assert_eq!(distance((5, 5), (6, 6)), 14);
    assert_eq!(distance((5, 5), (5, 6)), 10);
    assert_eq!(distance((-3, 9), (4, -1)), distance((4, -1), (-3, 9)));
}

#[test]
fn the_parent_links_trace_the_path() {
    let mut grid = grid_of(&["0000", "0110", "0000"]);
    let path = grid.astar((0, 1), (3, 1)).unwrap();
    assert_is_path(&grid, &path, (0, 1), (3, 1));
    assert_eq!(cost_of(&path), 14 + 10 + 14);
    let first = grid.node(path[0]).unwrap();
    assert_eq!((first.parent, first.g_cost), (None, 0));
    for w in path.windows(2) {
        let before = grid.node(w[0]).unwrap();
        let node = grid.node(w[1]).unwrap();
        assert_eq!(node.parent, Some(w[0]));
        assert_eq!(node.g_cost, before.g_cost + step_cost(w[0], w[1]));
        assert_eq!(node.h_cost, distance(w[1], (3, 1)));
        assert_eq!(node.f_cost, node.g_cost + node.h_cost);
        assert_eq!(node.visit, Visit::Closed);
    }
}

#[test]
fn of_two_cheapest_paths_the_one_nearer_the_target_first_is_taken() {
    // Both (0,0) (1,1) (2,1) and (0,0) (1,0) (2,1) cost 24. After the start
    // the cells (1,0) and (1,1) share the f-cost 24, and (1,1) has the lower
    // h-cost.
    let mut grid = Grid::new(3, 2);
    assert_eq!(grid.astar((0, 0), (2, 1)), Some(vec![(0, 0), (1, 1), (2, 1)]));
    let passed_by = grid.node((1, 0)).unwrap();
    assert_eq!(passed_by.visit, Visit::Open);
    assert_eq!((passed_by.g_cost, passed_by.h_cost, passed_by.f_cost), (10, 14, 24));
    assert_eq!(passed_by.parent, Some((0, 0)));
    let untouched = Grid::new(3, 2).node((2, 0)).unwrap();
    let reached = grid.node((2, 0)).unwrap();
    assert_eq!(untouched.visit, Visit::Unseen);
    assert_eq!(reached.visit, Visit::Open);
    assert_eq!((reached.g_cost, reached.h_cost, reached.parent), (28, 10, Some((1, 1))));
}

#[test]
fn a_cheaper_way_to_an_open_cell_replaces_the_dearer_one() {
    // After the start, (1,1) and (1,0) share the f-cost 48 and (1,1) has the
    // lower h-cost, so (2,0) is first reached through (1,1) at cost 28. Then
    // (1,0) is closed and reaches it at cost 20.
    let mut grid = grid_of(&["11110", "10110", "00000"]);
    let path = grid.astar((0, 0), (4, 2)).unwrap();
    assert_eq!(path, vec![(0, 0), (1, 0), (2, 0), (3, 0), (4, 1), (4, 2)]);
    assert_eq!(cost_of(&path), 54);
    let improved = grid.node((2, 0)).unwrap();
    assert_eq!(improved.parent, Some((1, 0)));
    assert_eq!((improved.g_cost, improved.h_cost, improved.f_cost), (20, 28, 48));
    assert_eq!(grid.node((1, 1)).unwrap().visit, Visit::Closed);
}
