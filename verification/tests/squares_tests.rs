use nice_map_generator::squares::{Square, SquareGrid};

fn unit_grid(side: usize, color: (u8, u8, u8)) -> SquareGrid {
    let mut squares = Vec::new();
    for y in 0..side {
        for x in 0..side {
            squares.push(Square::new(x, y, 1, 1).with_color(color));
        }
    }
    SquareGrid::from_squares(squares, side, side).expect("unit squares fit")
}

#[test]
fn new_square_is_cyan() {
    let square = Square::new(3, 4, 5, 6);
    assert_eq!(*square.x(), 3);
    assert_eq!(*square.y(), 4);
    assert_eq!(*square.width(), 5);
    assert_eq!(*square.height(), 6);
    assert_eq!(*square.color(), (0, 255, 255));
}

#[test]
fn with_color_and_set_color_change_only_the_color() {
    let mut square = Square::new(1, 2, 3, 4).with_color((9, 8, 7));
    assert_eq!(*square.color(), (9, 8, 7));
    square.set_color((1, 1, 1));
    assert_eq!(*square.color(), (1, 1, 1));
    assert_eq!((*square.x(), *square.y(), *square.width(), *square.height()), (1, 2, 3, 4));
}

#[test]
fn from_squares_counts_distinct_origins() {
    let squares = vec![
        Square::new(0, 0, 2, 2),
        Square::new(2, 0, 2, 2),
        Square::new(4, 0, 2, 2),
        Square::new(0, 2, 2, 2),
        Square::new(2, 2, 2, 2),
        Square::new(4, 2, 2, 2),
    ];
    let grid = SquareGrid::from_squares(squares, 6, 4).expect("all squares fit");
    assert_eq!(*grid.rows(), 2);
    assert_eq!(*grid.cols(), 3);
    assert_eq!(*grid.img_width(), 6);
    assert_eq!(*grid.img_height(), 4);
    assert_eq!(grid.len(), 6);
    assert_eq!(grid.iter().count(), 6);
}

#[test]
fn from_squares_rejects_the_first_misfit() {
    let squares = vec![
        Square::new(0, 0, 2, 2),
        Square::new(3, 0, 2, 2).with_color((1, 2, 3)),
        Square::new(9, 9, 2, 2),
    ];
    let (square, complaint) = SquareGrid::from_squares(squares, 4, 4).expect_err("a square sticks out");
    assert_eq!(square, Square::new(3, 0, 2, 2).with_color((1, 2, 3)));
    assert_eq!(
        complaint,
        "Square with x:3, y:0, w:2, h:2 has invalid bounds.\nFurthest x,y reach of square is (5,2), while image has width of 4 and height of 4.\nThe color of this square is (1, 2, 3)."
    );
}

#[test]
fn from_squares_rejects_a_reach_past_the_largest_number() {
    let squares = vec![Square::new(usize::MAX, 0, 1, 1)];
    assert!(SquareGrid::from_squares(squares, 10, 10).is_err());
}

#[test]
fn from_squares_accepts_overlap_and_gaps() {
    let squares = vec![Square::new(0, 0, 2, 2), Square::new(1, 1, 2, 2)];
    let grid = SquareGrid::from_squares(squares, 10, 10).expect("both fit");
    assert_eq!(*grid.rows(), 2);
    assert_eq!(*grid.cols(), 2);
}

#[test]
fn get_addresses_by_col_times_width_plus_row() {
    let mut squares = Vec::new();
    for i in 0..9 {
        squares.push(Square::new(i % 3, i / 3, 1, 1).with_color((i as u8, 0, 0)));
    }
    let grid = SquareGrid::from_squares(squares, 3, 3).expect("all fit");
    assert!(grid.has_square(&1, &2));
    assert_eq!(*grid.get(&1, &2).color(), (7, 0, 0));
    assert_eq!(*grid.get(&2, &0).color(), (2, 0, 0));
    assert!(!grid.has_square(&0, &3));
    assert!(grid.has_square(&8, &0));
    assert!(!grid.has_square(&9, &0));
}

#[test]
fn has_square_with_wide_image() {
    let squares = vec![Square::new(0, 0, 2, 2), Square::new(2, 0, 2, 2), Square::new(0, 2, 2, 2), Square::new(2, 2, 2, 2)];
    let grid = SquareGrid::from_squares(squares, 4, 4).expect("all fit");
    assert!(grid.has_square(&0, &0));
    assert!(grid.has_square(&3, &0));
    assert!(!grid.has_square(&0, &1));
    assert!(!grid.has_square(&1, &1));
}

#[test]
fn get_mut_and_set_color_at_recolor_one_square() {
    let mut grid = unit_grid(3, (255, 255, 255));
    grid.get_mut(&1, &2).set_color((0, 0, 0));
    grid.set_color_at(0, (0, 255, 0));
    let colors: Vec<(u8, u8, u8)> = grid.iter().map(|s| *s.color()).collect();
    for (i, color) in colors.iter().enumerate() {
        let expected = if i == 7 { (0, 0, 0) } else if i == 0 { (0, 255, 0) } else { (255, 255, 255) };
        assert_eq!(*color, expected);
    }
    assert_eq!(*grid.square_at(7).color(), (0, 0, 0));
}

#[test]
fn iter_mut_changes_squares_in_place() {
    let mut grid = unit_grid(2, (255, 255, 255));
    for square in grid.iter_mut() {
        square.set_color((5, 5, 5));
    }
    assert!(grid.iter().all(|s| *s.color() == (5, 5, 5)));
    assert_eq!(*grid.rows(), 2);
    assert_eq!(*grid.cols(), 2);
}

#[test]
fn clone_is_equal() {
    let grid = unit_grid(2, (1, 2, 3));
    let copy = grid.clone();
    assert_eq!(grid, copy);
}
