use nice_map_generator::cellular_automata::CAC;
use nice_map_generator::squares::{Square, SquareGrid};
use nice_map_generator::squareularization::{
    squareularization_get_dominant_color, squareularization_get_rgb_pixels,
    squareularization_split_img_to_squares, ux_squareularize_canvas, RawImage,
};

type Rgb = (u8, u8, u8);

const WALL: Rgb = (0, 0, 0);
const FLOOR: Rgb = (255, 255, 255);
const STAIRS: Rgb = (0, 255, 0);
const MAGENTA: Rgb = (255, 0, 255);

fn raw(width: usize, height: usize, pixels: &[Rgb]) -> RawImage {
    let mut data = Vec::new();
    for (r, g, b) in pixels {
        data.push(*r);
        data.push(*g);
        data.push(*b);
    }
    RawImage { width, height, depth: 3, data }
}

fn places(grid: &SquareGrid) -> Vec<(usize, usize, usize, usize)> {
    grid.iter().map(|s| (*s.x(), *s.y(), *s.width(), *s.height())).collect()
}

fn colors(grid: &SquareGrid) -> Vec<Rgb> {
    grid.iter().map(|s| *s.color()).collect()
}

fn one_cell(preferred: Option<&Vec<Rgb>>, pixels: &[Rgb]) -> Rgb {
    let mut grid = squareularization_split_img_to_squares(&2, &2, &2, &2).expect("one square");
    squareularization_get_dominant_color(&mut grid, preferred, &pixels.to_vec(), &2, &2, &2);
    colors(&grid)[0]
}

fn sample_pixels() -> Vec<Rgb> {
    vec![
        (255, 255, 255), (250, 250, 250), (0, 0, 0), (30, 30, 30), (0, 0, 255),
        (200, 200, 200), (0, 0, 0), (0, 255, 0), (30, 30, 30), (0, 0, 255),
        (255, 0, 255), (255, 0, 255), (255, 0, 255), (90, 0, 0), (0, 0, 255),
    ]
}

#[test]
fn split_divides_evenly() {
    let grid = squareularization_split_img_to_squares(&4, &4, &2, &2).expect("the image splits");
    assert_eq!(places(&grid), vec![(0, 0, 2, 2), (2, 0, 2, 2), (0, 2, 2, 2), (2, 2, 2, 2)]);
    assert_eq!((*grid.rows(), *grid.cols()), (2, 2));
    assert_eq!((*grid.img_width(), *grid.img_height()), (4, 4));
    assert!(grid.iter().all(|s| *s.color() == (0, 255, 255)));
}

#[test]
fn split_moves_the_last_squares_back_into_the_image() {
    let grid = squareularization_split_img_to_squares(&5, &5, &2, &2).expect("the image splits");
    assert_eq!(
        places(&grid),
        vec![
            (0, 0, 2, 2), (2, 0, 2, 2), (3, 0, 2, 2),
            (0, 2, 2, 2), (2, 2, 2, 2), (3, 2, 2, 2),
            (0, 3, 2, 2), (2, 3, 2, 2), (3, 3, 2, 2),
        ]
    );
    assert_eq!((*grid.rows(), *grid.cols()), (3, 3));
    let grid = squareularization_split_img_to_squares(&7, &3, &3, &3).expect("the image splits");
    assert_eq!(places(&grid), vec![(0, 0, 3, 3), (3, 0, 3, 3), (4, 0, 3, 3)]);
    assert_eq!((*grid.rows(), *grid.cols()), (1, 3));
}

#[test]
fn split_keeps_every_square_inside_the_image() {
    for width in 1..8usize {
        for height in 1..8usize {
            for side in 1..=width.min(height) {
                let grid = squareularization_split_img_to_squares(&width, &height, &side, &side)
                    .expect("the image splits");
                for s in grid.iter() {
                    assert!(*s.x() + *s.width() <= width);
                    assert!(*s.y() + *s.height() <= height);
                }
                let mut covered = vec![false; width * height];
                for s in grid.iter() {
                    for y in *s.y()..*s.y() + *s.height() {
                        for x in *s.x()..*s.x() + *s.width() {
                            covered[y * width + x] = true;
                        }
                    }
                }
                assert!(covered.iter().all(|c| *c));
            }
        }
    }
}

#[test]
fn split_with_different_sides() {
    let grid = squareularization_split_img_to_squares(&4, &3, &3, &1).expect("the image splits");
    assert_eq!(
        places(&grid),
        vec![(0, 0, 3, 1), (1, 0, 3, 1), (0, 1, 3, 1), (1, 1, 3, 1), (0, 2, 3, 1), (1, 2, 3, 1)]
    );
}

#[test]
fn split_refuses_squares_that_cannot_be_cut() {
    assert!(squareularization_split_img_to_squares(&4, &4, &2, &0).is_none());
    assert!(squareularization_split_img_to_squares(&4, &4, &0, &2).is_none());
    assert!(squareularization_split_img_to_squares(&4, &4, &5, &2).is_none());
    assert!(squareularization_split_img_to_squares(&4, &4, &2, &5).is_none());
    assert!(squareularization_split_img_to_squares(&0, &0, &0, &0).is_none());
}

#[test]
fn split_of_an_image_without_pixels_is_empty() {
    let grid = squareularization_split_img_to_squares(&4, &0, &9, &9).expect("nothing to cut");
    assert_eq!(grid.len(), 0);
    assert_eq!((*grid.rows(), *grid.cols(), *grid.img_width(), *grid.img_height()), (0, 0, 4, 0));
    let grid = squareularization_split_img_to_squares(&0, &4, &2, &2).expect("nothing to cut");
    assert_eq!(grid.len(), 0);
    let grid = squareularization_split_img_to_squares(&4, &0, &0, &1).expect("nothing to cut");
    assert_eq!(grid.len(), 0);
}

#[test]
fn rgb_pixels_packs_three_bytes_to_a_pixel() {
    let image = RawImage { width: 2, height: 1, depth: 3, data: vec![1, 2, 3, 4, 5, 6] };
    assert_eq!(squareularization_get_rgb_pixels(Some(&image)), Some(vec![(1, 2, 3), (4, 5, 6)]));
    let image = RawImage { width: 2, height: 1, depth: 3, data: vec![1, 2, 3, 4, 5, 6, 7, 8] };
    assert_eq!(squareularization_get_rgb_pixels(Some(&image)), Some(vec![(1, 2, 3), (4, 5, 6)]));
    let image = RawImage { width: 0, height: 0, depth: 3, data: vec![] };
    assert_eq!(squareularization_get_rgb_pixels(Some(&image)), Some(vec![]));
}

#[test]
fn rgb_pixels_needs_an_image_of_depth_three() {
    assert_eq!(squareularization_get_rgb_pixels(None), None);
    for depth in [0, 1, 2, 4] {
        let image = RawImage { width: 1, height: 1, depth, data: vec![1, 2, 3, 4] };
        assert_eq!(squareularization_get_rgb_pixels(Some(&image)), None);
    }
}

#[test]
fn the_most_frequent_color_wins() {
    assert_eq!(one_cell(None, &[(1, 1, 1), (2, 2, 2), (2, 2, 2), (3, 3, 3)]), (2, 2, 2));
}

#[test]
fn among_equals_the_first_color_wins() {
    assert_eq!(one_cell(None, &[(10, 0, 0), (0, 0, 10), (0, 0, 10), (10, 0, 0)]), (10, 0, 0));
    assert_eq!(one_cell(None, &[(0, 0, 10), (10, 0, 0), (0, 0, 10), (10, 0, 0)]), (0, 0, 10));
}

#[test]
fn stairs_count_five_hundredfold() {
    assert_eq!(one_cell(None, &[(1, 1, 1), STAIRS, (1, 1, 1), (1, 1, 1)]), STAIRS);
}

#[test]
fn magenta_never_wins() {
    assert_eq!(one_cell(None, &[MAGENTA; 4]), (40, 40, 40));
    assert_eq!(one_cell(None, &[MAGENTA, MAGENTA, MAGENTA, (7, 7, 7)]), (7, 7, 7));
    let cave = CAC::colors_vec();
    assert_eq!(one_cell(Some(&cave), &[MAGENTA; 4]), (40, 40, 40));
}

#[test]
fn pixels_are_pulled_to_the_nearest_preferred_color() {
    let cave = CAC::colors_vec();
    assert_eq!(one_cell(Some(&cave), &[(128, 128, 128), (10, 10, 10), (20, 0, 0), (250, 250, 250)]), FLOOR);
    assert_eq!(one_cell(Some(&cave), &[(10, 10, 10), (20, 0, 0), (250, 250, 250), (1, 2, 3)]), WALL);
    let two = vec![(100, 0, 0), (0, 100, 0)];
    assert_eq!(one_cell(Some(&two), &[(50, 50, 0); 4]), (100, 0, 0));
}

#[test]
fn the_pull_reaches_a_mean_gap_of_150_and_no_further() {
    let black = vec![WALL];
    assert_eq!(
        one_cell(Some(&black), &[(150, 150, 150), (151, 150, 150), (151, 150, 150), (150, 150, 150)]),
        WALL
    );
    assert_eq!(
        one_cell(Some(&black), &[(151, 150, 150), (150, 150, 150), (151, 150, 150), (150, 150, 150)]),
        (151, 150, 150)
    );
    assert_eq!(one_cell(Some(&black), &[(151, 150, 150); 4]), (151, 150, 150));
}

#[test]
fn no_preferred_colors_pull_nothing() {
    let none: Vec<Rgb> = Vec::new();
    assert_eq!(one_cell(Some(&none), &[(50, 50, 0); 4]), (50, 50, 0));
    assert_eq!(one_cell(None, &[(1, 1, 1); 4]), (1, 1, 1));
}

#[test]
fn dominant_color_of_every_square() {
    let cave = CAC::colors_vec();
    let mut grid = squareularization_split_img_to_squares(&5, &3, &2, &2).expect("the image splits");
    squareularization_get_dominant_color(&mut grid, Some(&cave), &sample_pixels(), &5, &2, &2);
    assert_eq!(colors(&grid), vec![FLOOR, STAIRS, WALL, FLOOR, STAIRS, WALL]);
    assert_eq!(
        places(&grid),
        vec![(0, 0, 2, 2), (2, 0, 2, 2), (3, 0, 2, 2), (0, 1, 2, 2), (2, 1, 2, 2), (3, 1, 2, 2)]
    );
    let mut grid = squareularization_split_img_to_squares(&5, &3, &2, &2).expect("the image splits");
    squareularization_get_dominant_color(&mut grid, None, &sample_pixels(), &5, &2, &2);
    assert_eq!(
        colors(&grid),
        vec![FLOOR, STAIRS, (30, 30, 30), (200, 200, 200), STAIRS, (0, 0, 255)]
    );
}

#[test]
fn dominant_color_takes_the_cell_size_from_its_arguments() {
    let squares = vec![Square::new(0, 0, 1, 1), Square::new(1, 0, 1, 1)];
    let mut grid = SquareGrid::from_squares(squares, 3, 2).expect("all fit");
    let pixels = vec![(1, 1, 1), (2, 2, 2), (2, 2, 2), (1, 1, 1), (1, 1, 1), (3, 3, 3)];
    squareularization_get_dominant_color(&mut grid, None, &pixels, &3, &2, &2);
    assert_eq!(colors(&grid), vec![(1, 1, 1), (2, 2, 2)]);
}

#[test]
fn an_all_black_image_becomes_a_grid_of_walls() {
    let image = raw(4, 4, &[WALL; 16]);
    let cave = CAC::colors_vec();
    let grid = ux_squareularize_canvas(Some(&image), Some(&cave), &2, &1).expect("the image is fine");
    assert_eq!((*grid.rows(), *grid.cols()), (2, 2));
    assert_eq!(grid.len(), 4);
    assert!(grid.iter().all(|s| CAC::classify(*s.color()) == CAC::Wall));
}

#[test]
fn squareularize_multiplies_the_two_scales() {
    let image = raw(5, 3, &sample_pixels());
    let cave = CAC::colors_vec();
    let grid = ux_squareularize_canvas(Some(&image), Some(&cave), &1, &2).expect("the image is fine");
    assert_eq!(colors(&grid), vec![FLOOR, STAIRS, WALL, FLOOR, STAIRS, WALL]);
    assert_eq!((*grid.img_width(), *grid.img_height(), *grid.rows(), *grid.cols()), (5, 3, 2, 3));
    let grid = ux_squareularize_canvas(Some(&image), None, &1, &1).expect("the image is fine");
    let expected: Vec<Rgb> = sample_pixels()
        .into_iter()
        .map(|color| if color == MAGENTA { (40, 40, 40) } else { color })
        .collect();
    assert_eq!(colors(&grid), expected);
}

#[test]
fn squareularize_yields_nothing_without_a_fit_image() {
    let cave = CAC::colors_vec();
    assert!(ux_squareularize_canvas(None, Some(&cave), &2, &1).is_none());
    let mut image = raw(4, 4, &[WALL; 16]);
    image.depth = 4;
    assert!(ux_squareularize_canvas(Some(&image), Some(&cave), &2, &1).is_none());
    let image = raw(4, 4, &[WALL; 15]);
    assert!(ux_squareularize_canvas(Some(&image), Some(&cave), &2, &1).is_none());
    let image = raw(4, 4, &[WALL; 16]);
    assert!(ux_squareularize_canvas(Some(&image), Some(&cave), &0, &1).is_none());
    assert!(ux_squareularize_canvas(Some(&image), Some(&cave), &5, &1).is_none());
    assert!(ux_squareularize_canvas(Some(&image), Some(&cave), &usize::MAX, &2).is_none());
}

#[test]
fn squareularize_of_an_image_without_rows_is_empty() {
    let image = raw(4, 0, &[]);
    let grid = ux_squareularize_canvas(Some(&image), None, &usize::MAX, &2).expect("nothing to cut");
    assert_eq!(grid.len(), 0);
    assert_eq!((*grid.img_width(), *grid.img_height()), (4, 0));
}
