//! Turning a grid back into an image: one filled rectangle for every
//! square.

use crate::squareularization::RawImage;
use crate::squares::{SquareGrid, SquareView};
use image::{Rgb, RgbImage};
use vstd::prelude::*;

verus! {

/// An image of the `image` crate with three bytes to a pixel, still being
/// painted. Nothing is known of what is inside but what [`pixels_of`] and
/// [`size_of`] name.
#[verifier::external_body]
pub struct MapImage {
    image: RgbImage,
}

/// The pixels that an image holds: the colour at every column and row at
/// which the image has a pixel.
pub uninterp spec fn pixels_of(img: MapImage) -> Map<(int, int), (u8, u8, u8)>;

/// The width and the height that an image was made with.
pub uninterp spec fn size_of(img: MapImage) -> (int, int);

/// The pixels of a black image of the given size: one at every column
/// below `width` and row below `height`.
pub open spec fn black(width: int, height: int) -> Map<(int, int), (u8, u8, u8)> {
    Map::new(
        |at: (int, int)| 0 <= at.0 < width && 0 <= at.1 < height,
        |at: (int, int)| (0u8, 0u8, 0u8),
    )
}

/// A new image made with `ImageBuffer::new`: it holds a pixel at every
/// column below `width` and row below `height` and nowhere else, and all
/// of them are black. `new` panics where three bytes for every pixel are
/// more than a vector can hold, which is left out here.
#[verifier::external_body]
fn blank_image(width: u32, height: u32) -> (img: MapImage)
    requires
        3 * width * height <= isize::MAX,
    ensures
        pixels_of(img) == black(width as int, height as int),
        size_of(img) == (width as int, height as int),
{
    MapImage { image: RgbImage::new(width, height) }
}

/// Writes `color` to the pixel that `ImageBuffer::get_pixel_mut_checked`
/// finds at column `x` and row `y`, and says whether it found one. Where
/// it finds none, the image stays as it is. The size of the image stays
/// either way.
#[verifier::external_body]
fn paint_pixel(img: &mut MapImage, x: u32, y: u32, color: (u8, u8, u8)) -> (found: bool)
    ensures
        found == pixels_of(*old(img)).dom().contains((x as int, y as int)),
        found ==> pixels_of(*final(img)) == pixels_of(*old(img)).insert(
            (x as int, y as int),
            color,
        ),
        !found ==> pixels_of(*final(img)) == pixels_of(*old(img)),
        size_of(*final(img)) == size_of(*old(img)),
{
    match img.image.get_pixel_mut_checked(x, y) {
        Some(pixel) => {
            *pixel = Rgb([color.0, color.1, color.2]);
            true
        },
        None => false,
    }
}

/// `bytes` hold the pixels of an image of the given size: three for every
/// pixel, red, green and blue, the pixels row by row from the top and in
/// each row from the left.
pub open spec fn is_raster(
    bytes: Seq<u8>,
    width: int,
    height: int,
    pixels: Map<(int, int), (u8, u8, u8)>,
) -> bool {
    &&& bytes.len() == 3 * width * height
    &&& forall|x: int, y: int|
        0 <= x < width && 0 <= y < height ==> {
            let at = 3 * (y * width + x);
            bytes[at] == (#[trigger] pixels[(x, y)]).0 && bytes[at + 1] == pixels[(x, y)].1
                && bytes[at + 2] == pixels[(x, y)].2
        }
}

/// The bytes of an image as `ImageBuffer::into_raw` hands them out: those
/// of its pixels, laid out as [`is_raster`] says, for the size that the
/// image was made with.
#[verifier::external_body]
fn image_bytes(img: MapImage) -> (bytes: Vec<u8>)
    ensures
        is_raster(bytes@, size_of(img).0, size_of(img).1, pixels_of(img)),
{
    img.image.into_raw()
}

/// The square covers the pixel at column `px` and row `py`.
pub open spec fn covers(square: SquareView, px: int, py: int) -> bool {
    square.x <= px < square.x + square.width && square.y <= py < square.y + square.height
}

/// The pixels with one square drawn over them: every pixel that the
/// square covers takes the colour of the square.
pub open spec fn drawn(pixels: Map<(int, int), (u8, u8, u8)>, square: SquareView) -> Map<
    (int, int),
    (u8, u8, u8),
> {
    Map::new(
        |at: (int, int)| pixels.dom().contains(at),
        |at: (int, int)|
            if covers(square, at.0, at.1) {
                square.color
            } else {
                pixels[at]
            },
    )
}

/// The pixels of a black image of the given size with the squares drawn
/// over it, one after the other.
pub open spec fn rendered(squares: Seq<SquareView>, width: int, height: int) -> Map<
    (int, int),
    (u8, u8, u8),
>
    decreases squares.len(),
{
    if squares.len() == 0 {
        black(width, height)
    } else {
        drawn(rendered(squares.drop_last(), width, height), squares.last())
    }
}

/// The square covers the pixel at column `px` and row `py`, and the pixel
/// lies before column `col`, or in it before row `row`.
pub open spec fn covered_before(square: SquareView, col: int, row: int, px: int, py: int) -> bool {
    covers(square, px, py) && (px < col || (px == col && py < row))
}

/// The pixels with the part of a square drawn over them that lies before
/// column `col`, or in it before row `row`.
pub open spec fn drawn_before(
    pixels: Map<(int, int), (u8, u8, u8)>,
    square: SquareView,
    col: int,
    row: int,
) -> Map<(int, int), (u8, u8, u8)> {
    Map::new(
        |at: (int, int)| pixels.dom().contains(at),
        |at: (int, int)|
            if covered_before(square, col, row, at.0, at.1) {
                square.color
            } else {
                pixels[at]
            },
    )
}

/// Draws one square into the image: every pixel of the image that the
/// square covers takes its colour.
fn draw_square(img: &mut MapImage, x: usize, y: usize, width: usize, height: usize, color: (
    u8,
    u8,
    u8,
), Ghost(square): Ghost<SquareView>)
    requires
        square.x == x,
        square.y == y,
        square.width == width,
        square.height == height,
        square.color == color,
        x + width <= u32::MAX,
        y + height <= u32::MAX,
    ensures
        pixels_of(*final(img)) == drawn(pixels_of(*old(img)), square),
        size_of(*final(img)) == size_of(*old(img)),
{
    let ghost start = pixels_of(*img);
    let end_col = x + width;
    let end_row = y + height;
    let mut col: usize = x;
    proof {
        assert(pixels_of(*img) =~= drawn_before(start, square, col as int, y as int));
    }
    while col < end_col
        invariant
            x <= col,
            col <= end_col || width == 0,
            end_col == x + width <= u32::MAX,
            end_row == y + height <= u32::MAX,
            square.x == x,
            square.y == y,
            square.width == width,
            square.height == height,
            square.color == color,
            size_of(*img) == size_of(*old(img)),
            pixels_of(*img) == drawn_before(start, square, col as int, y as int),
        decreases end_col - col,
    {
        let mut row: usize = y;
        while row < end_row
            invariant
                x <= col < end_col,
                y <= row,
                row <= end_row || height == 0,
                end_col == x + width <= u32::MAX,
                end_row == y + height <= u32::MAX,
                square.x == x,
                square.y == y,
                square.width == width,
                square.height == height,
                square.color == color,
                size_of(*img) == size_of(*old(img)),
                pixels_of(*img) == drawn_before(start, square, col as int, row as int),
            decreases end_row - row,
        {
            paint_pixel(img, col as u32, row as u32, color);
            proof {
                assert(pixels_of(*img) =~= drawn_before(start, square, col as int, row + 1));
            }
            row += 1;
        }
        proof {
            assert(pixels_of(*img) =~= drawn_before(start, square, col + 1, y as int));
        }
        col += 1;
    }
    proof {
        assert(pixels_of(*img) =~= drawn(start, square));
    }
}

/// Draws the grid as an image of the size that the grid records: black,
/// with every square drawn over it in its colour, one after the other. A
/// part of a square that lies outside the image is left out. The size of
/// the image and the reach of every square must be numbers that an image
/// can hold, and the bytes of the image no more than a vector can.
pub fn generate_img_from_map(map: &SquareGrid) -> (raw: RawImage)
    requires
        map@.img_width <= u32::MAX,
        map@.img_height <= u32::MAX,
        3 * map@.img_width * map@.img_height <= isize::MAX,
        forall|i: int|
            0 <= i < map@.squares.len() ==> (#[trigger] map@.squares[i]).x + map@.squares[i].width
                <= u32::MAX && map@.squares[i].y + map@.squares[i].height <= u32::MAX,
    ensures
        raw.width == map@.img_width,
        raw.height == map@.img_height,
        raw.depth == 3,
        is_raster(
            raw.data@,
            raw.width as int,
            raw.height as int,
            rendered(map@.squares, raw.width as int, raw.height as int),
        ),
{
    let width = *map.img_width() as u32;
    let height = *map.img_height() as u32;
    let mut img = blank_image(width, height);
    let ghost squares = map@.squares;
    let mut k: usize = 0;
    assert(squares.take(0) =~= Seq::<SquareView>::empty());
    while k < map.len()
        invariant
            k <= squares.len(),
            squares == map@.squares,
            size_of(img) == (width as int, height as int),
            pixels_of(img) == rendered(squares.take(k as int), width as int, height as int),
            forall|i: int|
                0 <= i < squares.len() ==> (#[trigger] squares[i]).x + squares[i].width
                    <= u32::MAX && squares[i].y + squares[i].height <= u32::MAX,
        decreases squares.len() - k,
    {
        let square = map.square_at(k);
        let x = *square.x();
        let y = *square.y();
        let w = *square.width();
        let h = *square.height();
        let color = *square.color();
        proof {
            assert(squares.take(k + 1).drop_last() =~= squares.take(k as int));
            assert(squares.take(k + 1).last() == squares[k as int]);
        }
        draw_square(&mut img, x, y, w, h, color, Ghost(squares[k as int]));
        k += 1;
    }
    assert(squares.take(k as int) =~= squares);
    let data = image_bytes(img);
    RawImage { width: width as usize, height: height as usize, depth: 3, data }
}

} // verus!
