//! Cutting an image into squares.

use crate::squares::{Square, SquareGrid, SquareView, all_fit, square_views};
use vstd::prelude::*;

verus! {

/// The colour of a square that has not been given one yet.
pub open spec fn blank() -> (u8, u8, u8) {
    (0u8, 255u8, 255u8)
}

/// The origin of the square that starts at `offset` along a side of length
/// `extent`: `offset` itself, or, where a square of length `side` would
/// reach past the end there, as far back as lets it end at the end.
pub open spec fn fitted(offset: int, side: int, extent: int) -> int {
    if offset + side > extent {
        extent - side
    } else {
        offset
    }
}

/// How far `offset` lies before `extent`; nothing where it lies at or past it.
pub open spec fn left_over(offset: int, extent: int) -> nat {
    if offset < extent {
        (extent - offset) as nat
    } else {
        0
    }
}

/// One row of squares with upper edge `y`: origins `x`, `x + width`, and so
/// on while they lie left of `img_width`, each fitted into the image.
pub open spec fn row_of_squares(
    x: int,
    y: int,
    img_width: int,
    width: int,
    height: int,
) -> Seq<SquareView>
    decreases left_over(x, img_width),
{
    if x >= img_width || width <= 0 {
        seq![]
    } else {
        seq![
            SquareView {
                x: fitted(x, width, img_width) as nat,
                y: y as nat,
                width: width as nat,
                height: height as nat,
                color: blank(),
            },
        ] + row_of_squares(x + width, y, img_width, width, height)
    }
}

/// The rows of squares with upper edges `y`, `y + height`, and so on while
/// they lie above `img_height`, each fitted into the image.
pub open spec fn rows_of_squares(
    y: int,
    img_width: int,
    img_height: int,
    width: int,
    height: int,
) -> Seq<SquareView>
    decreases left_over(y, img_height),
{
    if y >= img_height || height <= 0 {
        seq![]
    } else {
        row_of_squares(0, fitted(y, height, img_height), img_width, width, height)
            + rows_of_squares(y + height, img_width, img_height, width, height)
    }
}

/// An image of the given size can be cut into squares of the given size:
/// the squares have a height, and unless the image has no rows at all,
/// they have a width, are no higher than the image, and are no wider than
/// an image that has columns.
pub open spec fn can_split(img_width: int, img_height: int, width: int, height: int) -> bool {
    &&& height >= 1
    &&& img_height == 0 || {
        &&& height <= img_height
        &&& width >= 1
        &&& (img_width == 0 || width <= img_width)
    }
}

/// Cuts an image of the given size into squares of the given size, row by
/// row from the top and in each row from the left, all in the placeholder
/// colour. Where the image does not divide evenly, the last square of a
/// row, and the squares of the last row, are moved back so far that they
/// end at the edge: they overlap their neighbours and stay inside the
/// image. `None` where the image cannot be cut so.
pub fn squareularization_split_img_to_squares(
    img_width: &usize,
    img_height: &usize,
    square_width: &usize,
    square_height: &usize,
) -> (grid: Option<SquareGrid>)
    ensures
        grid is Some == can_split(
            *img_width as int,
            *img_height as int,
            *square_width as int,
            *square_height as int,
        ),
        grid matches Some(g) ==> {
            &&& g@.squares == rows_of_squares(
                0,
                *img_width as int,
                *img_height as int,
                *square_width as int,
                *square_height as int,
            )
            &&& g@.img_width == *img_width
            &&& g@.img_height == *img_height
            &&& g@.wf()
        },
{
    let width = *square_width;
    let height = *square_height;
    let img_w = *img_width;
    let img_h = *img_height;
    if height == 0 {
        return None;
    }
    if img_h > 0 && (height > img_h || width == 0 || (img_w > 0 && width > img_w)) {
        return None;
    }
    let ghost whole = rows_of_squares(0, img_w as int, img_h as int, width as int, height as int);
    let mut squares: Vec<Square> = Vec::new();
    let mut y: usize = 0;
    while y < img_h
        invariant
            height >= 1,
            img_h == 0 || height <= img_h,
            img_h == 0 || width >= 1,
            img_h == 0 || img_w == 0 || width <= img_w,
            whole == rows_of_squares(0, img_w as int, img_h as int, width as int, height as int),
            square_views(squares@) + rows_of_squares(
                y as int,
                img_w as int,
                img_h as int,
                width as int,
                height as int,
            ) =~= whole,
            all_fit(square_views(squares@), img_w as nat, img_h as nat),
        decreases img_h - y,
    {
        let top = if height > img_h - y {
            img_h - height
        } else {
            y
        };
        let ghost done = square_views(squares@);
        let ghost row = row_of_squares(0, top as int, img_w as int, width as int, height as int);
        let ghost below = rows_of_squares(
            y + height,
            img_w as int,
            img_h as int,
            width as int,
            height as int,
        );
        assert(top == fitted(y as int, height as int, img_h as int));
        let mut x: usize = 0;
        while x < img_w
            invariant
                width >= 1,
                img_w == 0 || width <= img_w,
                top + height <= img_h,
                row == row_of_squares(0, top as int, img_w as int, width as int, height as int),
                square_views(squares@) + row_of_squares(
                    x as int,
                    top as int,
                    img_w as int,
                    width as int,
                    height as int,
                ) =~= done + row,
                all_fit(square_views(squares@), img_w as nat, img_h as nat),
            decreases img_w - x,
        {
            let left = if width > img_w - x {
                img_w - width
            } else {
                x
            };
            let square = Square::new(left, top, width, height);
            let ghost before = square_views(squares@);
            squares.push(square);
            proof {
                assert(square_views(squares@) =~= before.push(square@));
                assert(square@.fits(img_w as nat, img_h as nat));
                let rest = row_of_squares(
                    x + width,
                    top as int,
                    img_w as int,
                    width as int,
                    height as int,
                );
                assert(row_of_squares(
                    x as int,
                    top as int,
                    img_w as int,
                    width as int,
                    height as int,
                ) =~= seq![square@] + rest);
                assert(before.push(square@) + rest =~= before + (seq![square@] + rest));
            }
            if width >= img_w - x {
                x = img_w;
            } else {
                x += width;
            }
        }
        assert(square_views(squares@) =~= done + row);
        assert((done + row) + below =~= done + (row + below));
        if height >= img_h - y {
            y = img_h;
        } else {
            y += height;
        }
    }
    assert(square_views(squares@) =~= whole);
    match SquareGrid::from_squares(squares, img_w, img_h) {
        Ok(square_grid) => Some(square_grid),
        Err(_) => None,
    }
}

/// Every square cut by [`rows_of_squares`] has the size asked for and lies
/// inside the image.
pub proof fn lemma_split_squares(
    y: int,
    img_width: int,
    img_height: int,
    width: int,
    height: int,
    i: int,
)
    requires
        0 <= y,
        1 <= width <= img_width,
        1 <= height <= img_height,
        0 <= i < rows_of_squares(y, img_width, img_height, width, height).len(),
    ensures
        ({
            let square = rows_of_squares(y, img_width, img_height, width, height)[i];
            &&& square.width == width
            &&& square.height == height
            &&& square.x + width <= img_width
            &&& square.y + height <= img_height
        }),
    decreases left_over(y, img_height),
{
    let top = fitted(y, height, img_height);
    let row = row_of_squares(0, top, img_width, width, height);
    if i < row.len() {
        lemma_split_row(0, top, img_width, width, height, i);
    } else {
        lemma_split_squares(y + height, img_width, img_height, width, height, i - row.len());
    }
}

/// Every square of a row cut by [`row_of_squares`] has the size asked for,
/// the upper edge asked for, and ends no further right than the image.
proof fn lemma_split_row(x: int, y: int, img_width: int, width: int, height: int, i: int)
    requires
        0 <= x,
        0 <= y,
        1 <= width <= img_width,
        0 <= height,
        0 <= i < row_of_squares(x, y, img_width, width, height).len(),
    ensures
        ({
            let square = row_of_squares(x, y, img_width, width, height)[i];
            &&& square.width == width
            &&& square.height == height
            &&& square.y == y
            &&& square.x + width <= img_width
        }),
    decreases left_over(x, img_width),
{
    if i > 0 {
        lemma_split_row(x + width, y, img_width, width, height, i - 1);
    }
}

/// The square holds the pixel at column `px` and row `py`.
pub open spec fn holds_pixel(square: SquareView, px: int, py: int) -> bool {
    square.x <= px < square.x + square.width && square.y <= py < square.y + square.height
}

/// The squares of a row cut from column `x` on hold every column from `x`
/// to the right edge of the image: the place of one that holds column
/// `px`.
proof fn lemma_row_covers(x: int, y: int, img_width: int, width: int, height: int, px: int) -> (i:
    int)
    requires
        0 <= x <= px < img_width,
        0 <= y,
        1 <= width <= img_width,
        0 <= height,
    ensures
        0 <= i < row_of_squares(x, y, img_width, width, height).len(),
        row_of_squares(x, y, img_width, width, height)[i].x <= px < row_of_squares(
            x,
            y,
            img_width,
            width,
            height,
        )[i].x + width,
    decreases left_over(x, img_width),
{
    if px < x + width || x + width > img_width {
        0
    } else {
        let rest = lemma_row_covers(x + width, y, img_width, width, height, px);
        assert(row_of_squares(x, y, img_width, width, height)[rest + 1] == row_of_squares(
            x + width,
            y,
            img_width,
            width,
            height,
        )[rest]);
        rest + 1
    }
}

/// No pixel of the image is left out: where an image that has pixels is
/// cut into squares, every pixel lies in one of them. This is the place
/// of such a square.
pub proof fn lemma_split_covers(
    y: int,
    img_width: int,
    img_height: int,
    width: int,
    height: int,
    px: int,
    py: int,
) -> (i: int)
    requires
        0 <= px < img_width,
        0 <= y <= py < img_height,
        1 <= width <= img_width,
        1 <= height <= img_height,
    ensures
        0 <= i < rows_of_squares(y, img_width, img_height, width, height).len(),
        holds_pixel(rows_of_squares(y, img_width, img_height, width, height)[i], px, py),
    decreases left_over(y, img_height),
{
    let top = fitted(y, height, img_height);
    let row = row_of_squares(0, top, img_width, width, height);
    if py < y + height || y + height > img_height {
        let i = lemma_row_covers(0, top, img_width, width, height, px);
        lemma_split_row(0, top, img_width, width, height, i);
        i
    } else {
        let rest = lemma_split_covers(y + height, img_width, img_height, width, height, px, py);
        rest + row.len()
    }
}

/// An image with no columns is cut into no squares.
pub(crate) proof fn lemma_no_columns_no_squares(y: int, img_height: int, width: int, height: int)
    ensures
        rows_of_squares(y, 0, img_height, width, height) =~= seq![],
    decreases left_over(y, img_height),
{
    if y < img_height && height > 0 {
        lemma_no_columns_no_squares(y + height, img_height, width, height);
    }
}

} // verus!
