use nice_map_generator::room_growth::{
    empty_squares, place_room_starts, RoomFromStart, SquareClaim, CRG, CRGC,
};
use nice_map_generator::squares::{Square, SquareGrid};

type Rgb = (u8, u8, u8);

const WALL: Rgb = (0, 0, 0);
const EMPTY: Rgb = (255, 255, 255);
const FLOOR: Rgb = (140, 140, 140);
const START: Rgb = (255, 0, 0);
const DOOR: Rgb = (0, 0, 255);
const STAIRS: Rgb = (0, 255, 0);

fn unit_grid(side: usize, color: Rgb) -> SquareGrid {
    let mut squares = Vec::new();
    for y in 0..side {
        for x in 0..side {
            squares.push(Square::new(x, y, 1, 1).with_color(color));
        }
    }
    SquareGrid::from_squares(squares, side, side).expect("unit squares fit")
}

fn seeded(side: usize, starts: &[(usize, usize)]) -> SquareGrid {
    let mut grid = unit_grid(side, EMPTY);
    for (row, col) in starts {
        grid.get_mut(row, col).set_color(START);
    }
    grid
}

fn picture(grid: &SquareGrid) -> String {
    grid.iter()
        .map(|square| match CRGC::classify(*square.color()) {
            CRGC::Wall => '#',
            CRGC::Empty => '.',
            CRGC::Floor => 'f',
            CRGC::RoomStart => 'S',
            CRGC::Stairs => '>',
            CRGC::Door => 'D',
            CRGC::Other(_) => '?',
        })
        .collect()
}

fn grown(grid: SquareGrid) -> SquareGrid {
    let mut crg = CRG::default().with_squares(grid);
    assert_eq!(crg.grow_rooms_from_starts(), Ok(()));
    crg.pop_squares().expect("the grid is still set")
}

fn cells(claims: &[SquareClaim]) -> Vec<(usize, usize)> {
    claims.iter().map(|claim| (claim.x, claim.y)).collect()
}

#[test]
fn classify_knows_the_room_palette() {
    assert_eq!(CRGC::classify((0, 0, 0)), CRGC::Wall);
    assert_eq!(CRGC::classify((255, 255, 255)), CRGC::Empty);
    assert_eq!(CRGC::classify((0, 255, 0)), CRGC::Stairs);
    assert_eq!(CRGC::classify((255, 0, 0)), CRGC::RoomStart);
    assert_eq!(CRGC::classify((0, 0, 255)), CRGC::Door);
    assert_eq!(CRGC::classify((140, 140, 140)), CRGC::Floor);
    assert_eq!(CRGC::classify((230, 230, 230)), CRGC::Other((230, 230, 230)));
    assert_eq!(CRGC::classify((1, 2, 3)), CRGC::Other((1, 2, 3)));
}

#[test]
fn color_gives_every_class_its_color_back() {
    for color in [WALL, EMPTY, FLOOR, START, DOOR, STAIRS, (1, 2, 3), (230, 230, 230)] {
        assert_eq!(CRGC::classify(color).color(), color);
    }
    assert_eq!(CRGC::Door.color(), (0, 0, 255));
    assert_eq!(CRGC::Floor.color(), (140, 140, 140));
    assert_eq!(CRGC::Other((4, 5, 6)).color(), (4, 5, 6));
}

#[test]
fn colors_vec_lists_the_room_palette() {
    let colors = CRGC::colors_vec();
    assert_eq!(colors, vec![START, DOOR, WALL, EMPTY, STAIRS, FLOOR]);
    assert!(colors.iter().all(|color| CRGC::classify(*color) != CRGC::Other(*color)));
}

#[test]
fn a_new_claim_has_one_claimant() {
    let claim = SquareClaim::new(3, 4, 7);
    assert_eq!((claim.x, claim.y), (3, 4));
    assert_eq!(claim.claimants_indices, vec![7]);
    assert_eq!(claim.clone(), claim);
}

#[test]
fn update_claims_joins_or_adds() {
    let mut claims = Vec::new();
    assert!(!SquareClaim::update_claims(1, 1, &mut claims, 0));
    assert!(!SquareClaim::update_claims(2, 1, &mut claims, 0));
    assert!(SquareClaim::update_claims(1, 1, &mut claims, 5));
    assert!(!SquareClaim::update_claims(1, 2, &mut claims, 5));
    assert_eq!(cells(&claims), vec![(1, 1), (2, 1), (1, 2)]);
    assert_eq!(claims[0].claimants_indices, vec![0, 5]);
    assert_eq!(claims[1].claimants_indices, vec![0]);
    assert_eq!(claims[2].claimants_indices, vec![5]);
}

#[test]
fn update_claims_joins_every_claim_on_the_square() {
    let mut claims = vec![SquareClaim::new(1, 1, 0), SquareClaim::new(1, 1, 2)];
    assert!(SquareClaim::update_claims(1, 1, &mut claims, 9));
    assert_eq!(claims.len(), 2);
    assert_eq!(claims[0].claimants_indices, vec![0, 9]);
    assert_eq!(claims[1].claimants_indices, vec![2, 9]);
}

#[test]
fn a_room_starts_as_one_square() {
    let room = RoomFromStart::from_square_coord(3, 4, 2);
    assert_eq!((room.x, room.y, room.w, room.h), (3, 4, 1, 1));
    assert_eq!((room.index, room.init_x, room.init_y), (2, 3, 4));
    assert!(room.allowed_growth);
}

#[test]
fn rooms_are_equal_by_their_start() {
    let mut a = RoomFromStart::from_square_coord(3, 4, 2);
    let b = RoomFromStart::from_square_coord(3, 4, 5);
    a.w = 3;
    a.allowed_growth = false;
    assert!(a == b);
    assert!(a != RoomFromStart::from_square_coord(4, 3, 2));
}

#[test]
fn corners_lie_one_square_outside_the_room() {
    let mut room = RoomFromStart::from_square_coord(2, 3, 1);
    room.w = 2;
    let corners = room.get_corner_coords(9, 9);
    assert_eq!(cells(&corners), vec![(1, 2), (1, 4), (4, 2), (4, 4)]);
    assert!(corners.iter().all(|c| c.claimants_indices == vec![1]));
}

#[test]
fn corners_stop_at_the_edges_of_the_grid() {
    let room = RoomFromStart::from_square_coord(0, 0, 0);
    assert_eq!(cells(&room.get_corner_coords(4, 4)), vec![(0, 0), (0, 1), (1, 0), (1, 1)]);
    let room = RoomFromStart::from_square_coord(4, 4, 0);
    assert_eq!(cells(&room.get_corner_coords(4, 4)), vec![(3, 3), (3, 4), (4, 3), (4, 4)]);
}

#[test]
fn the_border_runs_along_the_edge_of_the_corners() {
    let room = RoomFromStart::from_square_coord(2, 2, 3);
    let border = RoomFromStart::corner_coords_to_square(&room.get_corner_coords(9, 9), 3);
    assert_eq!(
        cells(&border),
        vec![(1, 1), (1, 3), (2, 1), (2, 3), (3, 1), (3, 3), (1, 2), (3, 2)]
    );
    assert!(border.iter().all(|c| c.claimants_indices == vec![3]));
}

#[test]
fn the_border_of_a_corner_room_holds_the_room_itself() {
    let room = RoomFromStart::from_square_coord(0, 0, 0);
    let border = RoomFromStart::corner_coords_to_square(&room.get_corner_coords(4, 4), 0);
    assert_eq!(cells(&border), vec![(0, 0), (0, 1), (1, 0), (1, 1)]);
}

#[test]
fn the_border_of_no_corners_is_empty() {
    assert!(RoomFromStart::corner_coords_to_square(&Vec::new(), 0).is_empty());
}

#[test]
fn a_corner_that_lowers_the_least_does_not_raise_the_greatest() {
    let corners = vec![SquareClaim::new(5, 1, 0), SquareClaim::new(3, 7, 0)];
    let border = RoomFromStart::corner_coords_to_square(&corners, 0);
    let mut found = cells(&border);
    found.sort();
    let mut expected = Vec::new();
    for y in 1..=7 {
        expected.push((0, y));
        expected.push((3, y));
    }
    expected.sort();
    assert_eq!(found, expected);
}

#[test]
fn consume_claims_grows_to_the_bounding_box() {
    let mut room = RoomFromStart::from_square_coord(2, 2, 0);
    let claims = vec![SquareClaim::new(1, 2, 0), SquareClaim::new(4, 5, 0), SquareClaim::new(3, 0, 0)];
    room.consume_claims(&claims);
    assert_eq!((room.x, room.y, room.w, room.h), (1, 0, 4, 6));
    assert_eq!((room.index, room.init_x, room.init_y, room.allowed_growth), (0, 2, 2, true));
    room.consume_claims(&Vec::new());
    assert_eq!((room.x, room.y, room.w, room.h), (1, 0, 4, 6));
}

#[test]
fn two_rooms_in_opposite_corners() {
    let grid = grown(seeded(5, &[(0, 0), (4, 4)]));
    assert_eq!(picture(&grid), "ff#..ff#..#####..#ff..#ff");
    for (i, square) in grid.iter().enumerate() {
        let (x, y) = (i % 5, i / 5);
        let first = x < 2 && y < 2;
        let second = x > 2 && y > 2;
        assert_eq!(CRGC::classify(*square.color()) == CRGC::Floor, first || second);
        if x == 2 || y == 2 {
            assert_eq!(CRGC::classify(*square.color()), CRGC::Wall);
        }
    }
}

#[test]
fn a_lone_room_fills_the_grid() {
    let grid = grown(seeded(5, &[(2, 2)]));
    assert_eq!(picture(&grid), "f".repeat(25));
}

#[test]
fn three_rooms_share_walls() {
    let grid = grown(seeded(7, &[(1, 1), (1, 5), (5, 3)]));
    assert_eq!(picture(&grid), "fff#...fff####fff#fff####ffffff#ffffff####fff#...");
}

#[test]
fn a_room_that_grows_late_spreads_over_stopped_rooms() {
    let grid = grown(seeded(7, &[(0, 0), (0, 2), (6, 6)]));
    assert_eq!(picture(&grid), "f#fffff##ffffff#fffff##ffffffffffffffffffffffffff");
}

#[test]
fn growth_paints_over_empty_and_unknown_colors_only() {
    let mut grid = seeded(5, &[(2, 2)]);
    grid.get_mut(&0, &0).set_color(STAIRS);
    grid.get_mut(&1, &1).set_color(DOOR);
    grid.get_mut(&3, &3).set_color((9, 9, 9));
    grid.get_mut(&4, &4).set_color(WALL);
    grid.get_mut(&2, &1).set_color((7, 7, 7));
    let grid = grown(grid);
    let colors: Vec<Rgb> = grid.iter().map(|s| *s.color()).collect();
    for (i, color) in colors.iter().enumerate() {
        let expected = match i {
            0 => STAIRS,
            6 => DOOR,
            24 => WALL,
            _ => FLOOR,
        };
        assert_eq!(*color, expected);
    }
}

#[test]
fn growth_without_room_starts_changes_nothing() {
    let mut before = unit_grid(4, EMPTY);
    before.get_mut(&1, &1).set_color(DOOR);
    let after = grown(before.clone());
    assert_eq!(after, before);
}

#[test]
fn a_room_start_that_no_address_names_is_a_room_of_its_own_square() {
    let squares = vec![
        Square::new(0, 0, 1, 1).with_color(EMPTY),
        Square::new(1, 0, 1, 1).with_color(START),
    ];
    let grid = SquareGrid::from_squares(squares, 2, 1).expect("both fit");
    assert_eq!(picture(&grown(grid)), ".f");
}

#[test]
fn every_seed_on_a_grid_that_is_not_square_becomes_floor() {
    for wanted in 0..=6 {
        let mut crg = CRG::default().with_squares(tall_grid(&[EMPTY; 6]));
        assert_eq!(crg.add_random_room_starts(Some(wanted)), Ok(()));
        assert_eq!(crg.grow_rooms_from_starts(), Ok(()));
        let grid = crg.get_squares().expect("the grid is still set");
        assert!(grid.iter().all(|s| CRGC::classify(*s.color()) != CRGC::RoomStart));
    }
}

#[test]
fn no_room_start_is_left_on_a_square_grid() {
    for starts in [vec![(0, 0)], vec![(0, 0), (0, 1)], vec![(1, 1), (1, 5), (5, 3), (6, 6), (3, 3)]] {
        let after = grown(seeded(7, &starts));
        assert!(after.iter().all(|s| CRGC::classify(*s.color()) != CRGC::RoomStart));
    }
}

#[test]
fn growth_keeps_the_layout() {
    let grid = grown(seeded(7, &[(1, 1), (1, 5), (5, 3)]));
    assert_eq!((*grid.rows(), *grid.cols(), *grid.img_width(), *grid.img_height()), (7, 7, 7, 7));
    for (i, square) in grid.iter().enumerate() {
        assert_eq!((*square.x(), *square.y(), *square.width(), *square.height()), (i % 7, i / 7, 1, 1));
        assert!(*square.x() + *square.width() <= 7 && *square.y() + *square.height() <= 7);
    }
}

#[test]
fn growth_needs_a_grid() {
    let mut crg = CRG::default();
    assert_eq!(crg.grow_rooms_from_starts(), Err("No Squares Set".to_string()));
    assert!(crg.squares().is_none());
}

#[test]
fn the_grid_can_be_set_read_and_taken() {
    let mut crg = CRG::default();
    assert!(crg.get_squares().is_none());
    crg.set_squares(unit_grid(2, EMPTY));
    assert_eq!(crg.get_squares(), Some(&unit_grid(2, EMPTY)));
    assert_eq!(crg.squares(), &Some(unit_grid(2, EMPTY)));
    assert_eq!(crg.pop_squares(), Some(unit_grid(2, EMPTY)));
    assert!(crg.squares().is_none());
    assert!(crg.pop_squares().is_none());
}

fn tall_grid(colors: &[Rgb]) -> SquareGrid {
    let squares = colors
        .iter()
        .enumerate()
        .map(|(i, color)| Square::new(i % 2, i / 2, 1, 1).with_color(*color))
        .collect();
    SquareGrid::from_squares(squares, 2, 3).expect("unit squares fit")
}

#[test]
fn empty_squares_lists_the_places_in_order() {
    let mut grid = unit_grid(3, EMPTY);
    grid.set_color_at(0, WALL);
    grid.set_color_at(5, START);
    assert_eq!(empty_squares(&grid), vec![1, 2, 3, 4, 6, 7, 8]);
    assert!(empty_squares(&unit_grid(3, WALL)).is_empty());
    assert_eq!(empty_squares(&tall_grid(&[EMPTY; 6])), vec![0, 1, 2, 3, 4, 5]);
}

#[test]
fn place_room_starts_marks_the_picks() {
    let mut grid = unit_grid(3, EMPTY);
    place_room_starts(&mut grid, &vec![3, 8, 70]);
    assert_eq!(picture(&grid), "...S....S");
}

#[test]
fn every_empty_square_of_a_grid_that_is_not_square_can_be_seeded() {
    let mut crg = CRG::default().with_squares(tall_grid(&[EMPTY; 6]));
    assert_eq!(crg.add_random_room_starts(Some(6)), Ok(()));
    assert_eq!(picture(crg.get_squares().expect("the grid is still set")), "SSSSSS");
    let mut crg = CRG::default().with_squares(tall_grid(&[EMPTY; 6]));
    assert_eq!(crg.add_random_room_starts(Some(4)), Ok(()));
    let grid = crg.get_squares().expect("the grid is still set");
    assert_eq!(grid.iter().filter(|s| CRGC::classify(*s.color()) == CRGC::RoomStart).count(), 4);
    assert_eq!(grid.iter().filter(|s| CRGC::classify(*s.color()) == CRGC::Empty).count(), 2);
}

#[test]
fn one_empty_square_cannot_take_two_room_starts() {
    let grid = tall_grid(&[WALL, WALL, EMPTY, WALL, WALL, WALL]);
    let mut crg = CRG::default().with_squares(grid.clone());
    assert_eq!(
        crg.add_random_room_starts(Some(2)),
        Err("Room starts cannot be placed because we want to add 2 starts, but starts can only be places on Empty squares, and there are only 1 Empty squares!".to_string())
    );
    assert_eq!(crg.get_squares(), Some(&grid));
    assert_eq!(crg.add_random_room_starts(Some(1)), Ok(()));
    assert_eq!(picture(crg.get_squares().expect("the grid is still set")), "##S###");
}

#[test]
fn random_room_starts_as_many_as_asked_for() {
    for wanted in 0..=25 {
        let mut crg = CRG::default().with_squares(unit_grid(5, EMPTY));
        assert_eq!(crg.add_random_room_starts(Some(wanted)), Ok(()));
        let grid = crg.get_squares().expect("the grid is still set");
        let starts = grid.iter().filter(|s| CRGC::classify(*s.color()) == CRGC::RoomStart).count();
        let empties = grid.iter().filter(|s| CRGC::classify(*s.color()) == CRGC::Empty).count();
        assert_eq!(starts, wanted);
        assert_eq!(empties, 25 - wanted);
    }
}

#[test]
fn random_room_starts_land_on_empty_squares_only() {
    let mut grid = unit_grid(4, WALL);
    grid.get_mut(&1, &2).set_color(EMPTY);
    grid.get_mut(&3, &0).set_color(EMPTY);
    grid.get_mut(&0, &0).set_color(DOOR);
    let mut crg = CRG::default().with_squares(grid);
    assert_eq!(crg.add_random_room_starts(Some(2)), Ok(()));
    let after = crg.pop_squares().expect("the grid is still set");
    assert_eq!(picture(&after), "D##S#####S######");
}

#[test]
fn too_many_room_starts_fail_and_change_nothing() {
    let mut grid = unit_grid(3, EMPTY);
    grid.get_mut(&0, &0).set_color(WALL);
    let mut crg = CRG::default().with_squares(grid.clone());
    assert_eq!(
        crg.add_random_room_starts(Some(9)),
        Err("Room starts cannot be placed because we want to add 9 starts, but starts can only be places on Empty squares, and there are only 8 Empty squares!".to_string())
    );
    assert_eq!(crg.get_squares(), Some(&grid));
    assert_eq!(crg.add_random_room_starts(Some(8)), Ok(()));
}

#[test]
fn random_room_starts_need_a_grid() {
    let mut crg = CRG::default();
    assert_eq!(
        crg.add_random_room_starts(Some(1)),
        Err("Could not add random starts to squares because squares is None.".to_string())
    );
    assert!(crg.squares().is_none());
}

#[test]
fn a_random_number_of_room_starts_stays_in_its_range() {
    for _ in 0..50 {
        let mut crg = CRG::default().with_squares(unit_grid(8, EMPTY));
        assert_eq!(crg.add_random_room_starts(None), Ok(()));
        let grid = crg.get_squares().expect("the grid is still set");
        let starts = grid.iter().filter(|s| CRGC::classify(*s.color()) == CRGC::RoomStart).count();
        assert!((1..=6).contains(&starts));
    }
}

#[test]
fn a_random_number_of_room_starts_is_not_always_the_same() {
    let mut seen = Vec::new();
    for _ in 0..200 {
        let mut crg = CRG::default().with_squares(unit_grid(8, EMPTY));
        assert_eq!(crg.add_random_room_starts(None), Ok(()));
        let grid = crg.get_squares().expect("the grid is still set");
        let starts = grid.iter().filter(|s| CRGC::classify(*s.color()) == CRGC::RoomStart).count();
        if !seen.contains(&starts) {
            seen.push(starts);
        }
    }
    assert!(seen.len() > 1);
}

#[test]
fn random_room_starts_are_not_always_the_first_empty_squares() {
    let mut seen = Vec::new();
    for _ in 0..200 {
        let mut crg = CRG::default().with_squares(unit_grid(5, EMPTY));
        assert_eq!(crg.add_random_room_starts(Some(3)), Ok(()));
        let found = picture(crg.get_squares().expect("the grid is still set"));
        if !seen.contains(&found) {
            seen.push(found);
        }
    }
    assert!(seen.len() > 1);
}

#[test]
fn what_is_not_there_yet_says_so() {
    let mut crg = CRG::default().with_squares(unit_grid(2, EMPTY));
    assert_eq!(crg.grow_rooms_l_growth(), Err("Not implemented yet.".to_string()));
    assert_eq!(crg.calculate_connectivity(), Err("Not implemented yet.".to_string()));
    assert_eq!(crg.enforce_connectivity(3), Err("Not implemented yet.".to_string()));
    assert_eq!(crg.get_squares(), Some(&unit_grid(2, EMPTY)));
}
