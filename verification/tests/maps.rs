use tower_defense::coords::sub_coords;
use tower_defense::grid::{Grid, Visit, INFINITY};
use tower_defense::map_text::{
    get_map_size, height, load_map_matrix, width, MalformedMapError, MapNodeType, Matrix,
    MAX_CELLS,
};

#[test]
fn map_size_is_first_row_length_and_row_count() {
    assert_eq!(get_map_size(&String::from("000\n010")), (3, 2));
    assert_eq!(get_map_size(&String::from("0000")), (4, 1));
    assert_eq!(get_map_size(&String::from("")), (0, 1));
    assert_eq!(get_map_size(&String::from("01\n\n0")), (2, 3));
    assert_eq!(get_map_size(&String::from("00\n00\n")), (2, 3));
}

#[test]
fn map_size_counts_characters() {
    assert_eq!(get_map_size(&String::from("é1ü\n000")), (3, 2));
}

#[test]
fn matrix_is_indexed_by_column_then_row_from_the_bottom() {
    let matrix = load_map_matrix(String::from("100\n000")).unwrap();
    assert_eq!(width(&matrix), 3);
    assert_eq!(height(&matrix), 2);
    assert_eq!(matrix[0][1], MapNodeType::Obstacle);
    assert_eq!(matrix[0][0], MapNodeType::Walkable);
    assert_eq!(matrix[1], vec![MapNodeType::Walkable, MapNodeType::Walkable]);
    assert_eq!(matrix[2], vec![MapNodeType::Walkable, MapNodeType::Walkable]);
}

#[test]
fn only_the_digit_one_is_an_obstacle() {
    let matrix = load_map_matrix(String::from("1 .x0")).unwrap();
    assert_eq!(width(&matrix), 5);
    assert_eq!(matrix[0], vec![MapNodeType::Obstacle]);
    for x in 1..5 {
        assert_eq!(matrix[x], vec![MapNodeType::Walkable]);
    }
}

#[test]
fn an_empty_first_row_is_malformed() {
    assert_eq!(load_map_matrix(String::new()), Err(MalformedMapError::Empty));
    assert_eq!(load_map_matrix(String::from("\n")), Err(MalformedMapError::Empty));
    assert_eq!(load_map_matrix(String::from("\n00")), Err(MalformedMapError::Empty));
    assert_eq!(Grid::load(String::new()).err(), Some(MalformedMapError::Empty));
}

#[test]
fn rows_of_different_lengths_are_malformed() {
    assert_eq!(load_map_matrix(String::from("00\n0")), Err(MalformedMapError::Ragged));
    assert_eq!(load_map_matrix(String::from("00\n000")), Err(MalformedMapError::Ragged));
    assert_eq!(load_map_matrix(String::from("00\n00\n")), Err(MalformedMapError::Ragged));
    assert_eq!(Grid::load(String::from("000\n00\n000")).err(), Some(MalformedMapError::Ragged));
}

#[test]
fn a_map_over_the_cell_limit_is_refused() {
    let side = 1890;
    assert!(side * side > MAX_CELLS);
    let row = "0".repeat(side);
    let text = vec![row; side].join("\n");
    assert_eq!(Grid::load(text).err(), Some(MalformedMapError::TooLarge));
}

#[test]
fn width_and_height_of_tables() {
    let empty: Matrix<u8> = Vec::new();
    assert_eq!(width(&empty), 0);
    assert_eq!(height(&empty), 0);
    let table: Matrix<u8> = vec![vec![1, 2, 3], vec![4, 5, 6]];
    assert_eq!(width(&table), 2);
    assert_eq!(height(&table), 3);
    let hollow: Matrix<u8> = vec![Vec::new()];
    assert_eq!(width(&hollow), 1);
    assert_eq!(height(&hollow), 0);
}

#[test]
fn a_loaded_grid_has_the_first_line_on_top() {
    let grid = Grid::load(String::from("100\n000")).unwrap();
    assert_eq!(grid.width(), 3);
    assert_eq!(grid.height(), 2);
    assert!(!grid.is_walkable((0, 1)));
    assert!(grid.is_walkable((0, 0)));
    assert!(grid.is_walkable((2, 1)));
}

#[test]
fn cells_outside_the_grid_are_not_walkable() {
    let grid = Grid::new(3, 2);
    assert!(grid.is_walkable((2, 1)));
    assert!(!grid.is_walkable((3, 1)));
    assert!(!grid.is_walkable((2, 2)));
    assert!(!grid.is_walkable((-1, 0)));
    assert!(!grid.is_walkable((0, -1)));
    assert!(!grid.is_walkable((i32::MAX, i32::MAX)));
    assert!(grid.node((3, 0)).is_none());
    assert!(grid.node((0, -1)).is_none());
}

#[test]
fn a_new_grid_is_walkable_and_untouched() {
    let grid = Grid::new(4, 6);
    assert_eq!(grid.width(), 4);
    assert_eq!(grid.height(), 6);
    for x in 0..4 {
        for y in 0..6 {
            let node = grid.node((x, y)).unwrap();
            assert_eq!((node.x, node.y), (x, y));
            assert!(node.walkable);
            assert_eq!((node.g_cost, node.h_cost, node.f_cost), (0, 0, INFINITY));
            assert_eq!(node.parent, None);
            assert_eq!(node.visit, Visit::Unseen);
        }
    }
}

#[test]
fn a_grid_from_a_table_keeps_its_cells() {
    let table = vec![
        vec![MapNodeType::Walkable, MapNodeType::Obstacle],
        vec![MapNodeType::Obstacle, MapNodeType::Walkable],
        vec![MapNodeType::Walkable, MapNodeType::Walkable],
    ];
    let grid = Grid::from_matrix(&table).unwrap();
    assert_eq!((grid.width(), grid.height()), (3, 2));
    assert!(grid.is_walkable((0, 0)));
    assert!(!grid.is_walkable((0, 1)));
    assert!(!grid.is_walkable((1, 0)));
    assert!(grid.is_walkable((1, 1)));
    assert_eq!(grid.node((1, 0)).unwrap().x, 1);
}

#[test]
fn a_table_without_cells_or_with_uneven_columns_is_no_grid() {
    let none: Matrix<MapNodeType> = Vec::new();
    assert_eq!(Grid::from_matrix(&none).err(), Some(MalformedMapError::Empty));
    let hollow: Matrix<MapNodeType> = vec![Vec::new(), Vec::new()];
    assert_eq!(Grid::from_matrix(&hollow).err(), Some(MalformedMapError::Empty));
    let uneven = vec![vec![MapNodeType::Walkable], vec![MapNodeType::Walkable; 2]];
    assert_eq!(Grid::from_matrix(&uneven).err(), Some(MalformedMapError::Ragged));
}

#[test]
fn neighbours_come_by_column_then_row() {
    let grid = Grid::load(String::from("000\n010\n000")).unwrap();
    assert_eq!(grid.get_neighbours((0, 0)), vec![(0, 1), (1, 0)]);
    assert_eq!(
        grid.get_neighbours((1, 1)),
        vec![(0, 0), (0, 1), (0, 2), (1, 0), (1, 2), (2, 0), (2, 1), (2, 2)]
    );
    assert_eq!(grid.get_neighbours((2, 2)), vec![(1, 2), (2, 1)]);
    assert_eq!(grid.get_neighbours((3, 3)), vec![(2, 2)]);
    assert_eq!(grid.get_neighbours((5, 5)), Vec::new());
    assert_eq!(grid.get_neighbours((i32::MAX, i32::MIN)), Vec::new());
}

#[test]
fn coordinates_are_clamped_into_the_grid() {
    let grid = Grid::new(30, 20);
    assert_eq!(grid.clamp_coords(5, 7), (5, 7));
    assert_eq!(grid.clamp_coords(-1, 20), (0, 19));
    assert_eq!(grid.clamp_coords(30, -5), (29, 0));
    assert_eq!(grid.clamp_coords(i64::MAX, i64::MIN), (29, 0));
    assert_eq!(grid.clamp_coords(0, 0), (0, 0));
    assert_eq!(grid.clamp_coords(29, 19), (29, 19));
}

#[test]
fn sub_coords_is_the_difference_by_component() {
    assert_eq!(sub_coords((3, 4), (1, 1)), (2, 3));
    assert_eq!(sub_coords((0, 0), (1, -1)), (-1, 1));
    assert_eq!(sub_coords((i32::MAX, i32::MIN), (i32::MIN, i32::MAX)), (4294967295, -4294967295));
}
