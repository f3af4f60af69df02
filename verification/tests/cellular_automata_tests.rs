use nice_map_generator::cellular_automata::{CA, CAC};
use nice_map_generator::squares::{Square, SquareGrid};

type Rgb = (u8, u8, u8);

const WALL: (u8, u8, u8) = (0, 0, 0);
const FLOOR: (u8, u8, u8) = (255, 255, 255);
const STAIRS: (u8, u8, u8) = (0, 255, 0);
const ODD: (u8, u8, u8) = (9, 9, 9);

fn grid_of(colors: &[(u8, u8, u8)], side: usize) -> SquareGrid {
    let squares = colors
        .iter()
        .enumerate()
        .map(|(i, color)| Square::new(i % side, i / side, 1, 1).with_color(*color))
        .collect();
    SquareGrid::from_squares(squares, side, colors.len() / side).expect("unit squares fit")
}

fn colors_of(grid: &SquareGrid) -> Vec<(u8, u8, u8)> {
    grid.iter().map(|square| *square.color()).collect()
}

fn mixed() -> Vec<(u8, u8, u8)> {
    vec![
        FLOOR, WALL, FLOOR, STAIRS, WALL, WALL, ODD, FLOOR, WALL, FLOOR, FLOOR, WALL, FLOOR, WALL,
        WALL, WALL,
    ]
}

#[test]
fn classify_knows_the_cave_palette() {
    assert_eq!(CAC::classify((0, 0, 0)), CAC::Wall);
    assert_eq!(CAC::classify((255, 255, 255)), CAC::Floor);
    assert_eq!(CAC::classify((0, 255, 0)), CAC::Stairs);
    assert_eq!(CAC::classify((1, 0, 0)), CAC::Other((1, 0, 0)));
    assert_eq!(CAC::classify((50, 50, 50)), CAC::Other((50, 50, 50)));
}

#[test]
fn color_is_the_inverse_of_classify() {
    assert_eq!(CAC::Wall.color(), (0, 0, 0));
    assert_eq!(CAC::Floor.color(), (255, 255, 255));
    assert_eq!(CAC::Stairs.color(), (0, 255, 0));
    assert_eq!(CAC::Other((50, 50, 50)).color(), (50, 50, 50));
    assert_eq!(CAC::Other((1, 2, 3)).color(), (1, 2, 3));
    for class in [CAC::Wall, CAC::Floor, CAC::Stairs, CAC::Other((7, 8, 9))] {
        assert_eq!(CAC::classify(class.color()), class);
    }
    for color in [WALL, FLOOR, STAIRS, ODD, (50, 50, 50), (254, 255, 255)] {
        assert_eq!(CAC::classify(color).color(), color);
    }
}

#[test]
fn same_as_compares_classes_and_kept_colors() {
    assert!(CAC::Wall.same_as(&CAC::Wall));
    assert!(!CAC::Wall.same_as(&CAC::Floor));
    assert!(CAC::Other((1, 2, 3)).same_as(&CAC::Other((1, 2, 3))));
    assert!(!CAC::Other((1, 2, 3)).same_as(&CAC::Other((1, 2, 4))));
    assert!(!CAC::Stairs.same_as(&CAC::Other((0, 255, 0))));
}

#[test]
fn colors_vec_lists_wall_floor_stairs() {
    assert_eq!(CAC::colors_vec(), vec![(0, 0, 0), (255, 255, 255), (0, 255, 0)]);
}

#[test]
fn new_and_default_hold_no_grid() {
    let ca = CA::new(2, 7);
    assert_eq!(ca.neighborhood_size, 2);
    assert_eq!(ca.neighborhood_threshold, 7);
    assert_eq!(ca.neighborhood_size(), 2);
    assert_eq!(ca.neighborhood_threshold(), 7);
    assert_eq!(*ca.generations_so_far(), 0);
    assert!(ca.squares().is_none());
    let ca = CA::default();
    assert_eq!(ca.neighborhood_size, 1);
    assert_eq!(ca.neighborhood_threshold, 5);
    assert_eq!(*ca.generations_so_far(), 0);
    assert!(ca.get_squares().is_none());
}

#[test]
fn set_squares_resets_the_generation_count() {
    let mut ca = CA::new(1, 5).with_squares(grid_of(&[WALL; 9], 3));
    assert!(ca.run_generation());
    assert!(ca.run_generation());
    assert_eq!(*ca.generations_so_far(), 2);
    ca.set_squares(grid_of(&[FLOOR; 4], 2));
    assert_eq!(*ca.generations_so_far(), 0);
    assert_eq!(colors_of(ca.get_squares().as_ref().expect("a grid is set")), vec![FLOOR; 4]);
}

#[test]
fn pop_squares_takes_the_grid_away() {
    let mut ca = CA::new(1, 5).with_squares(grid_of(&[WALL; 4], 2));
    let grid = ca.pop_squares().expect("a grid was set");
    assert_eq!(colors_of(&grid), vec![WALL; 4]);
    assert!(ca.squares().is_none());
    assert!(ca.pop_squares().is_none());
}

#[test]
fn clone_keeps_everything() {
    let mut ca = CA::new(3, 4).with_squares(grid_of(&mixed(), 4));
    ca.run_generation();
    let copy = ca.clone();
    assert_eq!(ca, copy);
}

#[test]
fn neighbor_count_without_grid_is_none() {
    let ca = CA::new(1, 5);
    assert_eq!(ca.neighbor_count(0, 0, CAC::Wall), None);
    assert_eq!(ca.all_neighbor_count(CAC::Wall), None);
}

#[test]
fn neighbor_count_adds_three_for_each_cut_side() {
    let ca = CA::new(1, 5).with_squares(grid_of(&[WALL; 9], 3));
    assert_eq!(ca.neighbor_count(0, 0, CAC::Wall), Some(9));
    assert_eq!(ca.neighbor_count(0, 1, CAC::Wall), Some(8));
    assert_eq!(ca.neighbor_count(1, 1, CAC::Wall), Some(8));
    assert_eq!(ca.neighbor_count(2, 2, CAC::Wall), Some(9));
    assert_eq!(ca.neighbor_count(1, 1, CAC::Floor), Some(0));
    assert_eq!(ca.neighbor_count(0, 0, CAC::Floor), Some(6));
    assert_eq!(ca.neighbor_count(1, 1, CAC::Other((9, 9, 9))), Some(0));
}

#[test]
fn neighbor_count_on_a_single_square_gets_all_four_bonuses() {
    let ca = CA::new(1, 5).with_squares(grid_of(&[FLOOR], 1));
    assert_eq!(ca.neighbor_count(0, 0, CAC::Wall), Some(12));
}

#[test]
fn all_neighbor_count_goes_row_by_row() {
    let ca = CA::new(1, 5).with_squares(grid_of(&mixed(), 4));
    assert_eq!(
        ca.all_neighbor_count(CAC::Wall),
        Some(vec![9, 6, 6, 8, 5, 3, 5, 5, 5, 3, 5, 6, 6, 4, 5, 8])
    );
    let ca = CA::new(2, 5).with_squares(grid_of(&mixed(), 4));
    assert_eq!(
        ca.all_neighbor_count(CAC::Wall),
        Some(vec![10, 11, 11, 11, 10, 13, 14, 12, 11, 14, 14, 12, 9, 12, 11, 10])
    );
}

#[test]
fn all_neighbor_count_on_squares_wider_than_a_pixel() {
    let squares = (0..6).map(|i| Square::new((i % 3) * 2, (i / 3) * 2, 2, 2).with_color(WALL)).collect();
    let grid = SquareGrid::from_squares(squares, 6, 4).expect("all fit");
    let ca = CA::new(1, 5).with_squares(grid);
    assert_eq!(ca.all_neighbor_count(CAC::Wall), Some(vec![7, 5, 6, 7, 5, 6]));
}

#[test]
fn run_generation_without_grid_fails() {
    let mut ca = CA::new(1, 5);
    assert!(!ca.run_generation());
    assert_eq!(*ca.generations_so_far(), 0);
    assert!(ca.squares().is_none());
}

#[test]
fn all_walls_stay_walls() {
    let mut ca = CA::new(1, 5).with_squares(grid_of(&[WALL; 9], 3));
    assert!(ca.run_generation());
    assert_eq!(*ca.generations_so_far(), 1);
    let grid = ca.get_squares().as_ref().expect("a grid is set");
    assert!(grid.iter().all(|square| CAC::classify(*square.color()) == CAC::Wall));
}

#[test]
fn corners_of_an_open_floor_turn_to_wall() {
    let mut ca = CA::new(1, 5).with_squares(grid_of(&[FLOOR; 25], 5));
    assert!(ca.run_generation());
    let colors = colors_of(ca.get_squares().as_ref().expect("a grid is set"));
    for (i, color) in colors.iter().enumerate() {
        let corner = i == 0 || i == 4 || i == 20 || i == 24;
        assert_eq!(*color, if corner { WALL } else { FLOOR });
    }
}

#[test]
fn generations_follow_the_majority_rule() {
    let mut ca = CA::new(1, 5).with_squares(grid_of(&mixed(), 4));
    assert!(ca.run_generation());
    assert_eq!(
        colors_of(ca.get_squares().as_ref().expect("a grid is set")),
        vec![
            WALL, WALL, WALL, STAIRS, WALL, FLOOR, ODD, FLOOR, WALL, WALL, WALL, WALL, WALL, WALL,
            WALL, WALL
        ]
    );
    assert!(ca.run_generation());
    assert_eq!(
        colors_of(ca.get_squares().as_ref().expect("a grid is set")),
        vec![
            WALL, WALL, FLOOR, STAIRS, WALL, WALL, ODD, WALL, WALL, WALL, WALL, WALL, WALL, WALL,
            WALL, WALL
        ]
    );
    assert_eq!(*ca.generations_so_far(), 2);
}

#[test]
fn stairs_and_other_colors_are_never_touched() {
    let mut ca = CA::new(1, 0).with_squares(grid_of(&mixed(), 4));
    for _ in 0..5 {
        assert!(ca.run_generation());
    }
    let colors = colors_of(ca.get_squares().as_ref().expect("a grid is set"));
    assert_eq!(colors[3], STAIRS);
    assert_eq!(colors[6], ODD);
    for (i, color) in colors.iter().enumerate() {
        if i != 3 && i != 6 {
            assert_eq!(*color, WALL);
        }
    }
}

#[test]
fn a_threshold_out_of_reach_turns_everything_to_floor() {
    let mut ca = CA::new(1, 100).with_squares(grid_of(&mixed(), 4));
    assert!(ca.run_generation());
    let colors = colors_of(ca.get_squares().as_ref().expect("a grid is set"));
    for (i, color) in colors.iter().enumerate() {
        let expected = if i == 3 { STAIRS } else if i == 6 { ODD } else { FLOOR };
        assert_eq!(*color, expected);
    }
}

#[test]
fn the_same_snapshot_gives_the_same_generation() {
    let mut first = CA::new(1, 5).with_squares(grid_of(&mixed(), 4));
    let mut second = CA::new(1, 5).with_squares(grid_of(&mixed(), 4));
    second.run_generation();
    second.set_squares(grid_of(&mixed(), 4));
    assert!(first.run_generation());
    assert!(second.run_generation());
    assert_eq!(first.get_squares(), second.get_squares());
}

#[test]
fn a_generation_keeps_the_layout() {
    let mut ca = CA::new(1, 5).with_squares(grid_of(&mixed(), 4));
    ca.run_generation();
    let grid = ca.get_squares().as_ref().expect("a grid is set");
    assert_eq!((*grid.rows(), *grid.cols(), *grid.img_width(), *grid.img_height()), (4, 4, 4, 4));
    for (i, square) in grid.iter().enumerate() {
        assert_eq!((*square.x(), *square.y(), *square.width(), *square.height()), (i % 4, i / 4, 1, 1));
    }
}

#[test]
fn every_square_is_judged_by_its_own_neighborhood() {
    let mut colors = vec![FLOOR; 9];
    colors[2] = WALL;
    let mut ca = CA::new(1, 4).with_squares(grid_of(&colors, 3));
    assert!(ca.run_generation());
    let after = colors_of(ca.get_squares().as_ref().expect("a grid is set"));
    for (i, color) in after.iter().enumerate() {
        let (x, y) = (i % 3, i / 3);
        let wall = matches!((x, y), (0, 0) | (1, 0) | (2, 0) | (2, 1) | (0, 2) | (2, 2));
        assert_eq!(*color, if wall { WALL } else { FLOOR });
    }
}

#[test]
fn squares_that_no_address_names_are_judged_by_the_count_at_their_place() {
    let squares = vec![Square::new(0, 0, 1, 1).with_color(FLOOR); 3];
    let grid = SquareGrid::from_squares(squares, 1, 1).expect("all fit");
    let mut ca = CA::new(1, 10).with_squares(grid);
    assert_eq!(ca.neighbor_count(0, 0, CAC::Wall), Some(12));
    assert_eq!(ca.neighbor_count(1, 0, CAC::Wall), Some(9));
    assert!(ca.run_generation());
    assert_eq!(*ca.generations_so_far(), 1);
    assert_eq!(
        colors_of(ca.get_squares().as_ref().expect("a grid is set")),
        vec![WALL, FLOOR, FLOOR]
    );
}

#[test]
fn a_generation_on_a_grid_that_is_not_square() {
    let squares = (0..6).map(|i| Square::new(i % 2, i / 2, 1, 1).with_color(FLOOR)).collect();
    let grid = SquareGrid::from_squares(squares, 2, 3).expect("all fit");
    let mut ca = CA::new(1, 5).with_squares(grid);
    assert!(ca.run_generation());
    assert_eq!(
        colors_of(ca.get_squares().as_ref().expect("a grid is set")),
        vec![WALL, FLOOR, WALL, FLOOR, WALL, WALL]
    );
}

fn wide_squares(colors: [Rgb; 4]) -> SquareGrid {
    let squares = colors
        .iter()
        .enumerate()
        .map(|(i, color)| Square::new((i % 2) * 2, (i / 2) * 2, 2, 2).with_color(*color))
        .collect();
    SquareGrid::from_squares(squares, 4, 4).expect("all fit")
}

#[test]
fn a_threshold_of_nought_turns_every_wall_and_floor_to_wall() {
    let mut ca = CA::new(1, 0).with_squares(wide_squares([FLOOR; 4]));
    assert!(ca.run_generation());
    assert_eq!(colors_of(ca.get_squares().as_ref().expect("a grid is set")), vec![WALL; 4]);
    let mut ca = CA::new(1, 0).with_squares(wide_squares([FLOOR, STAIRS, ODD, WALL]));
    assert!(ca.run_generation());
    assert_eq!(
        colors_of(ca.get_squares().as_ref().expect("a grid is set")),
        vec![WALL, STAIRS, ODD, WALL]
    );
    let squares = vec![Square::new(0, 0, 1, 1).with_color(FLOOR); 5];
    let grid = SquareGrid::from_squares(squares, 1, 1).expect("all fit");
    let mut ca = CA::new(3, 0).with_squares(grid);
    assert!(ca.run_generation());
    assert_eq!(colors_of(ca.get_squares().as_ref().expect("a grid is set")), vec![WALL; 5]);
}

#[test]
fn every_square_of_a_grid_of_wide_squares_is_judged() {
    let mut ca = CA::new(1, 7).with_squares(wide_squares([FLOOR, WALL, FLOOR, FLOOR]));
    assert_eq!(ca.all_neighbor_count(CAC::Wall), Some(vec![7, 7, 6, 7]));
    assert!(ca.run_generation());
    assert_eq!(
        colors_of(ca.get_squares().as_ref().expect("a grid is set")),
        vec![WALL, FLOOR, FLOOR, WALL]
    );
}

#[test]
fn an_empty_grid_runs_an_empty_generation() {
    let grid = SquareGrid::from_squares(Vec::new(), 0, 0).expect("nothing to fit");
    let mut ca = CA::new(1, 5).with_squares(grid);
    assert_eq!(ca.all_neighbor_count(CAC::Wall), Some(Vec::new()));
    assert_eq!(ca.neighbor_count(0, 0, CAC::Wall), Some(12));
    assert!(ca.run_generation());
    assert_eq!(*ca.generations_so_far(), 1);
}
