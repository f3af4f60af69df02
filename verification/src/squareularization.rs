//! Squareularization: cutting an image into squares and giving each square
//! the colour that dominates its pixels.

pub mod colors;
pub mod cutting;
pub mod voting;

pub use self::cutting::squareularization_split_img_to_squares;
pub use self::voting::squareularization_get_dominant_color;

use crate::squares::{Square, SquareGrid, SquareView, square_views};
use crate::squareularization::cutting::{
    can_split, lemma_no_columns_no_squares, lemma_split_squares, rows_of_squares,
};
use crate::squareularization::voting::{cell_inside, cell_votes, dominant, palette_of};
use vstd::prelude::*;

verus! {

/// An image as a drawing surface hands it over: its size in pixels, the
/// number of bytes that make up one pixel, and the bytes themselves, row
/// by row.
#[derive(Debug, PartialEq, Eq)]
pub struct RawImage {
    pub width: usize,
    pub height: usize,
    pub depth: usize,
    pub data: Vec<u8>,
}

/// The bytes of an image taken three at a time as red, green and blue;
/// one or two bytes left over at the end are dropped.
pub open spec fn packed(data: Seq<u8>) -> Seq<(u8, u8, u8)> {
    Seq::new(data.len() / 3, |i: int| (data[3 * i], data[3 * i + 1], data[3 * i + 2]))
}

/// The colour of each pixel of an image, row by row. `None` where there is
/// no image, or where its pixels are not made of exactly three bytes.
pub fn squareularization_get_rgb_pixels(image: Option<&RawImage>) -> (pixels: Option<
    Vec<(u8, u8, u8)>,
>)
    ensures
        pixels is Some <==> (image matches Some(img) && img.depth == 3),
        (image, pixels) matches (Some(img), Some(rgb)) ==> rgb@ == packed(img.data@),
{
    let cur_img = match image {
        Some(cur_img) => cur_img,
        None => {
            return None;
        },
    };
    if cur_img.depth != 3 {
        return None;
    }
    let raw_pixel_data = &cur_img.data;
    let mut rgb_pixel_vec: Vec<(u8, u8, u8)> = Vec::new();
    let mut i: usize = 0;
    while raw_pixel_data.len() - i >= 3
        invariant
            i <= raw_pixel_data@.len(),
            i == 3 * rgb_pixel_vec@.len(),
            forall|k: int|
                0 <= k < rgb_pixel_vec@.len() ==> #[trigger] rgb_pixel_vec@[k] == packed(
                    raw_pixel_data@,
                )[k],
        decreases raw_pixel_data@.len() - i,
    {
        let r = raw_pixel_data[i];
        let g = raw_pixel_data[i + 1];
        let b = raw_pixel_data[i + 2];
        rgb_pixel_vec.push((r, g, b));
        i += 3;
    }
    assert(rgb_pixel_vec@ =~= packed(raw_pixel_data@));
    Some(rgb_pixel_vec)
}

/// The squares that an image is turned into: cut by [`rows_of_squares`]
/// with both sides of a square `side` long, and each coloured with the
/// colour that dominates its cell.
pub open spec fn squareularized(
    pixels: Seq<(u8, u8, u8)>,
    palette: Option<Seq<(u8, u8, u8)>>,
    img_width: int,
    img_height: int,
    side: int,
) -> Seq<SquareView> {
    let cut = rows_of_squares(0, img_width, img_height, side, side);
    Seq::new(
        cut.len(),
        |i: int|
            cut[i].recolored(
                dominant(
                    cell_votes(
                        pixels,
                        palette,
                        img_width,
                        cut[i].x as int,
                        cut[i].y as int,
                        side,
                        side as nat,
                    ),
                ),
            ),
    )
}

/// An image can be turned into squares `side` long: it is there, its
/// pixels are made of three bytes, it holds at least as many pixels as its
/// size says, and it can be cut into such squares.
pub open spec fn can_squareularize(image: Option<&RawImage>, side: int) -> bool {
    &&& image matches Some(img)
    &&& img.depth == 3
    &&& img.width * img.height <= packed(img.data@).len()
    &&& can_split(img.width as int, img.height as int, side, side)
}

/// Turns an image into a grid of squares, each `pixel_scale` times
/// `sub_pixel_scale` pixels long and high and coloured with the colour
/// that dominates its part of the image. `None` where the image cannot be
/// turned into such squares; nothing is done by halves.
pub fn ux_squareularize_canvas(
    image: Option<&RawImage>,
    preferred_colors: Option<&Vec<(u8, u8, u8)>>,
    pixel_scale: &usize,
    sub_pixel_scale: &usize,
) -> (grid: Option<SquareGrid>)
    ensures
        grid is Some == can_squareularize(image, *pixel_scale * *sub_pixel_scale),
        (image, grid) matches (Some(img), Some(g)) ==> {
            &&& g@.squares == squareularized(
                packed(img.data@),
                palette_of(preferred_colors),
                img.width as int,
                img.height as int,
                *pixel_scale * *sub_pixel_scale,
            )
            &&& g@.img_width == img.width
            &&& g@.img_height == img.height
            &&& g@.wf()
        },
{
    let pixels = match squareularization_get_rgb_pixels(image) {
        Some(pixels) => pixels,
        None => {
            return None;
        },
    };
    let img = match image {
        Some(img) => img,
        None => {
            return None;
        },
    };
    let img_width = img.width;
    let img_height = img.height;
    let available = pixels.len();
    match img_width.checked_mul(img_height) {
        Some(needed) => {
            if available < needed {
                return None;
            }
        },
        None => {
            return None;
        },
    }
    let ghost side = *pixel_scale * *sub_pixel_scale;
    let square_scale = match pixel_scale.checked_mul(*sub_pixel_scale) {
        Some(square_scale) => square_scale,
        None => {
            if img_height == 0 {
                let empty: Vec<Square> = Vec::new();
                assert(square_views(empty@) =~= rows_of_squares(0, img_width as int, 0, side, side));
                assert(square_views(empty@) =~= squareularized(
                    pixels@,
                    palette_of(preferred_colors),
                    img_width as int,
                    0,
                    side,
                ));
                return match SquareGrid::from_squares(empty, img_width, img_height) {
                    Ok(grid) => Some(grid),
                    Err(_) => None,
                };
            }
            return None;
        },
    };
    let mut squares = match squareularization_split_img_to_squares(
        &img_width,
        &img_height,
        &square_scale,
        &square_scale,
    ) {
        Some(squares) => squares,
        None => {
            return None;
        },
    };
    let ghost cut = squares@;
    proof {
        assert forall|i: int| 0 <= i < cut.squares.len() implies cell_inside(
            #[trigger] cut.squares[i],
            pixels@.len() as int,
            img_width as int,
            square_scale as int,
            square_scale as int,
        ) by {
            if img_width > 0 {
                lemma_split_squares(
                    0,
                    img_width as int,
                    img_height as int,
                    square_scale as int,
                    square_scale as int,
                    i,
                );
                let square = cut.squares[i];
                assert((square.y + square_scale) * img_width <= img_height * img_width)
                    by (nonlinear_arith)
                    requires
                        square.y + square_scale <= img_height,
                        img_width >= 0,
                ;
                assert(img_height * img_width == img_width * img_height) by (nonlinear_arith);
            } else {
                lemma_no_columns_no_squares(0, img_height as int, square_scale as int, square_scale as int);
            }
        }
    }
    squareularization_get_dominant_color(
        &mut squares,
        preferred_colors,
        &pixels,
        &img_width,
        &square_scale,
        &square_scale,
    );
    proof {
        assert(squares@.squares =~= squareularized(
            pixels@,
            palette_of(preferred_colors),
            img_width as int,
            img_height as int,
            side,
        ));
        cut.lemma_same_layout_wf(squares@);
    }
    Some(squares)
}

} // verus!
