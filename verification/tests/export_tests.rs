use nice_map_generator::export::generate_img_from_map;
use nice_map_generator::squares::{Square, SquareGrid};

type Rgb = (u8, u8, u8);

fn pixel(data: &[u8], width: usize, x: usize, y: usize) -> Rgb {
    let at = 3 * (y * width + x);
    (data[at], data[at + 1], data[at + 2])
}

#[test]
fn every_square_is_drawn_as_a_rectangle() {
    let squares = vec![
        Square::new(0, 0, 2, 2).with_color((10, 20, 30)),
        Square::new(2, 0, 2, 2).with_color((40, 50, 60)),
        Square::new(0, 2, 2, 1).with_color((70, 80, 90)),
    ];
    let grid = SquareGrid::from_squares(squares, 4, 3).expect("all fit");
    let raw = generate_img_from_map(&grid);
    assert_eq!((raw.width, raw.height, raw.depth), (4, 3, 3));
    assert_eq!(raw.data.len(), 36);
    for y in 0..3 {
        for x in 0..4 {
            let expected = if y < 2 && x < 2 {
                (10, 20, 30)
            } else if y < 2 {
                (40, 50, 60)
            } else if x < 2 {
                (70, 80, 90)
            } else {
                (0, 0, 0)
            };
            assert_eq!(pixel(&raw.data, 4, x, y), expected);
        }
    }
}

#[test]
fn a_later_square_is_drawn_over_an_earlier_one() {
    let squares = vec![
        Square::new(0, 0, 3, 3).with_color((1, 1, 1)),
        Square::new(1, 1, 2, 2).with_color((2, 2, 2)),
    ];
    let grid = SquareGrid::from_squares(squares, 3, 3).expect("all fit");
    let raw = generate_img_from_map(&grid);
    for y in 0..3 {
        for x in 0..3 {
            let expected = if x >= 1 && y >= 1 { (2, 2, 2) } else { (1, 1, 1) };
            assert_eq!(pixel(&raw.data, 3, x, y), expected);
        }
    }
}

#[test]
fn a_grid_without_squares_is_drawn_black() {
    let grid = SquareGrid::from_squares(Vec::new(), 2, 2).expect("nothing to fit");
    let raw = generate_img_from_map(&grid);
    assert_eq!((raw.width, raw.height, raw.depth), (2, 2, 3));
    assert_eq!(raw.data, vec![0; 12]);
    let grid = SquareGrid::from_squares(Vec::new(), 0, 5).expect("nothing to fit");
    let raw = generate_img_from_map(&grid);
    assert_eq!((raw.width, raw.height), (0, 5));
    assert!(raw.data.is_empty());
}

#[test]
fn a_square_moved_past_the_image_is_left_out() {
    let mut grid = SquareGrid::from_squares(vec![Square::new(0, 0, 1, 1)], 2, 1).expect("it fits");
    *grid.get_mut(&0, &0) = Square::new(1, 0, 3, 2).with_color((9, 9, 9));
    let raw = generate_img_from_map(&grid);
    assert_eq!(raw.data, vec![0, 0, 0, 9, 9, 9]);
}
