use nice_map_generator::squares::{Square, SquareGrid};
use nice_map_generator::stairs::{remove_stairs, ux_get_stair_coord_list, SquareStairDisplay};

type Rgb = (u8, u8, u8);

const STAIRS: Rgb = (0, 255, 0);
const FLOOR: Rgb = (255, 255, 255);

fn grid_with_stairs() -> SquareGrid {
    let mut squares = Vec::new();
    for i in 0..9 {
        let color = if i == 1 || i == 5 || i == 6 { STAIRS } else { FLOOR };
        squares.push(Square::new(i % 3, i / 3, 1, 1).with_color(color));
    }
    SquareGrid::from_squares(squares, 3, 3).expect("unit squares fit")
}

#[test]
fn default_stairs_are_a_square_of_nothing() {
    let stair = SquareStairDisplay::default();
    assert_eq!(stair.square, Square::new(0, 0, 0, 0));
    assert_eq!((stair.row_idx, stair.col_idx), (0, 0));
    assert_eq!(stair.clone(), stair);
}

#[test]
fn label_names_row_and_column() {
    let stair = SquareStairDisplay { square: Square::new(1, 2, 3, 4), row_idx: 7, col_idx: 11 };
    assert_eq!(stair.label(), "Row: 7, Col: 11");
}

#[test]
fn stairs_are_listed_row_by_row() {
    let stairs = ux_get_stair_coord_list(&grid_with_stairs());
    let found: Vec<(usize, usize, usize, usize)> =
        stairs.iter().map(|s| (s.row_idx, s.col_idx, *s.square.x(), *s.square.y())).collect();
    assert_eq!(found, vec![(0, 2, 0, 2), (1, 0, 1, 0), (2, 1, 2, 1)]);
    assert!(stairs.iter().all(|s| *s.square.color() == STAIRS));
}

#[test]
fn no_stairs_no_list() {
    let grid = SquareGrid::from_squares(vec![Square::new(0, 0, 1, 1)], 1, 1).expect("it fits");
    assert!(ux_get_stair_coord_list(&grid).is_empty());
}

#[test]
fn removed_stairs_take_the_given_color() {
    let mut grid = grid_with_stairs();
    let stairs = ux_get_stair_coord_list(&grid);
    let selected = vec![stairs[0].clone(), stairs[2].clone()];
    remove_stairs(&mut grid, &selected, (0, 0, 0));
    let colors: Vec<Rgb> = grid.iter().map(|s| *s.color()).collect();
    for (i, color) in colors.iter().enumerate() {
        let expected = if i == 1 { STAIRS } else if i == 5 || i == 6 { (0, 0, 0) } else { FLOOR };
        assert_eq!(*color, expected);
    }
    assert_eq!(ux_get_stair_coord_list(&grid).len(), 1);
}

#[test]
fn stairs_that_address_no_square_are_passed_over() {
    let mut grid = grid_with_stairs();
    let before = grid.clone();
    let astray = SquareStairDisplay { square: Square::new(0, 0, 1, 1), row_idx: 9, col_idx: 9 };
    remove_stairs(&mut grid, &vec![astray], (1, 2, 3));
    assert_eq!(grid, before);
}

#[test]
fn stairs_that_no_address_names_are_not_listed() {
    let squares = vec![
        Square::new(0, 0, 1, 1).with_color(STAIRS),
        Square::new(1, 0, 1, 1).with_color(STAIRS),
    ];
    let grid = SquareGrid::from_squares(squares, 2, 1).expect("both fit");
    let stairs = ux_get_stair_coord_list(&grid);
    let found: Vec<(usize, usize)> = stairs.iter().map(|s| (s.row_idx, s.col_idx)).collect();
    assert_eq!(found, vec![(0, 0)]);
}
