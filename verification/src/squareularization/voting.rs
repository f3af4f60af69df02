//! The votes of the pixels of a cell, and the colour that wins them.

use crate::squares::{GridView, SquareGrid, SquareView};
use crate::squareularization::colors::{
    debug_color, fallback_color, position_of, same_color, snap_color, snapped, stairs_color,
};
use vstd::prelude::*;

verus! {

/// The votes of `n` pixels in a row, from the pixel at place `start` on.
pub open spec fn row_votes(
    pixels: Seq<(u8, u8, u8)>,
    palette: Option<Seq<(u8, u8, u8)>>,
    start: int,
    n: int,
) -> Seq<(u8, u8, u8)> {
    Seq::new(n as nat, |i: int| snapped(palette, pixels[start + i]))
}

/// The votes of the pixels of a cell in the order in which they are
/// counted: the first `rows` rows of the cell from the top, each from the
/// left. The cell has its upper left corner at (`x`, `y`) and is `width`
/// pixels wide; the image holds `stride` pixels in a row.
pub open spec fn cell_votes(
    pixels: Seq<(u8, u8, u8)>,
    palette: Option<Seq<(u8, u8, u8)>>,
    stride: int,
    x: int,
    y: int,
    width: int,
    rows: nat,
) -> Seq<(u8, u8, u8)>
    decreases rows,
{
    if rows == 0 {
        seq![]
    } else {
        cell_votes(pixels, palette, stride, x, y, width, (rows - 1) as nat) + row_votes(
            pixels,
            palette,
            (y + rows - 1) * stride + x,
            width,
        )
    }
}

/// How many of the votes are for `color`.
pub open spec fn tally(votes: Seq<(u8, u8, u8)>, color: (u8, u8, u8)) -> nat
    decreases votes.len(),
{
    if votes.len() == 0 {
        0
    } else {
        tally(votes.drop_last(), color) + (if votes.last() == color {
            1nat
        } else {
            0
        })
    }
}

/// What a number of votes for `color` weighs: stairs count five
/// hundredfold, so that they are not lost among walls and floors, and
/// magenta counts for nothing.
pub open spec fn weigh(color: (u8, u8, u8), count: int) -> int {
    if color == stairs_color() {
        count * 500
    } else if color == debug_color() {
        0
    } else {
        count
    }
}

/// The weight of the votes for `color`.
pub open spec fn weight(votes: Seq<(u8, u8, u8)>, color: (u8, u8, u8)) -> int {
    weigh(color, tally(votes, color) as int)
}

/// `p` is the place of the first vote for `color`.
pub open spec fn is_first_vote(votes: Seq<(u8, u8, u8)>, color: (u8, u8, u8), p: int) -> bool {
    &&& 0 <= p < votes.len()
    &&& votes[p] == color
    &&& forall|q: int| 0 <= q < p ==> votes[q] != color
}

/// The place of the first vote for `color`.
pub open spec fn first_vote(votes: Seq<(u8, u8, u8)>, color: (u8, u8, u8)) -> int {
    choose|p: int| is_first_vote(votes, color, p)
}

/// `winner` dominates the votes: its votes weigh something, no colour's
/// weigh more, and of the colours whose votes weigh as much it was voted
/// for first.
pub open spec fn is_dominant(votes: Seq<(u8, u8, u8)>, winner: (u8, u8, u8)) -> bool {
    &&& votes.contains(winner)
    &&& weight(votes, winner) > 0
    &&& forall|c: (u8, u8, u8)| #[trigger]
        votes.contains(c) ==> weight(votes, c) <= weight(votes, winner)
    &&& forall|c: (u8, u8, u8)| #[trigger]
        votes.contains(c) && weight(votes, c) == weight(votes, winner) ==> first_vote(
            votes,
            winner,
        ) <= first_vote(votes, c)
}

/// The colour that dominates the votes, or the fallback colour where none
/// does.
pub open spec fn dominant(votes: Seq<(u8, u8, u8)>) -> (u8, u8, u8) {
    if exists|w: (u8, u8, u8)| is_dominant(votes, w) {
        choose|w: (u8, u8, u8)| is_dominant(votes, w)
    } else {
        fallback_color()
    }
}

/// The cell of a square lies inside the pixels: it ends no further right
/// than a row of the image, and its last row ends within `pixel_count`
/// pixels.
pub open spec fn cell_inside(
    square: SquareView,
    pixel_count: int,
    img_width: int,
    width: int,
    height: int,
) -> bool {
    square.x + width <= img_width && (square.y + height) * img_width <= pixel_count
}

/// A colour that was voted for has a first vote.
pub proof fn lemma_first_vote(votes: Seq<(u8, u8, u8)>, color: (u8, u8, u8))
    requires
        votes.contains(color),
    ensures
        is_first_vote(votes, color, first_vote(votes, color)),
    decreases votes.len(),
{
    let shorter = votes.drop_last();
    if shorter.contains(color) {
        lemma_first_vote(shorter, color);
        let p = first_vote(shorter, color);
        assert(votes[p] == shorter[p]);
        assert forall|q: int| 0 <= q < p implies votes[q] != color by {
            assert(votes[q] == shorter[q]);
        }
        assert(is_first_vote(votes, color, p));
    } else {
        let p = votes.len() - 1;
        let at = choose|i: int| 0 <= i < votes.len() && votes[i] == color;
        if at < p {
            assert(shorter[at] == color);
        }
        assert forall|q: int| 0 <= q < p implies votes[q] != color by {
            if votes[q] == color {
                assert(shorter[q] == color);
            }
        }
        assert(is_first_vote(votes, color, p));
    }
}

/// Only one place can be that of the first vote for a colour.
proof fn lemma_first_vote_unique(votes: Seq<(u8, u8, u8)>, color: (u8, u8, u8), p: int, q: int)
    requires
        is_first_vote(votes, color, p),
        is_first_vote(votes, color, q),
    ensures
        p == q,
{
}

/// Only one colour can dominate.
pub proof fn lemma_dominant_unique(votes: Seq<(u8, u8, u8)>, a: (u8, u8, u8), b: (u8, u8, u8))
    requires
        is_dominant(votes, a),
        is_dominant(votes, b),
    ensures
        a == b,
{
    lemma_first_vote(votes, a);
    lemma_first_vote(votes, b);
    assert(weight(votes, a) <= weight(votes, b));
    assert(weight(votes, b) <= weight(votes, a));
    assert(first_vote(votes, a) == first_vote(votes, b));
}

/// One more vote adds one to the tally of its colour and nothing to any
/// other.
proof fn lemma_tally_push(votes: Seq<(u8, u8, u8)>, vote: (u8, u8, u8), color: (u8, u8, u8))
    ensures
        tally(votes.push(vote), color) == tally(votes, color) + (if vote == color {
            1nat
        } else {
            0
        }),
{
    assert(votes.push(vote).drop_last() =~= votes);
}

/// A tally is no more than the number of votes, and is nothing for a
/// colour that was not voted for.
proof fn lemma_tally_bounds(votes: Seq<(u8, u8, u8)>, color: (u8, u8, u8))
    ensures
        tally(votes, color) <= votes.len(),
        !votes.contains(color) ==> tally(votes, color) == 0,
        votes.contains(color) ==> tally(votes, color) > 0,
    decreases votes.len(),
{
    if votes.len() > 0 {
        let shorter = votes.drop_last();
        lemma_tally_bounds(shorter, color);
        if shorter.contains(color) {
            let at = choose|i: int| 0 <= i < shorter.len() && shorter[i] == color;
            assert(votes[at] == color);
        }
        if votes.contains(color) && votes.last() != color {
            let at = choose|i: int| 0 <= i < votes.len() && votes[i] == color;
            assert(shorter[at] == color);
        }
        if votes.last() == color {
            assert(votes[votes.len() - 1] == color);
        }
    }
}

/// One more vote leaves the first vote for a colour already voted for
/// where it was, and is itself the first vote for a colour that was not.
proof fn lemma_first_vote_push(votes: Seq<(u8, u8, u8)>, vote: (u8, u8, u8), color: (u8, u8, u8))
    ensures
        votes.contains(color) ==> first_vote(votes.push(vote), color) == first_vote(votes, color),
        !votes.contains(color) && vote == color ==> first_vote(votes.push(vote), color)
            == votes.len(),
{
    let longer = votes.push(vote);
    if votes.contains(color) {
        lemma_first_vote(votes, color);
        let p = first_vote(votes, color);
        assert(longer[p] == color);
        assert forall|q: int| 0 <= q < p implies longer[q] != color by {
            assert(longer[q] == votes[q]);
        }
        assert(is_first_vote(longer, color, p));
        assert(longer.contains(color));
        lemma_first_vote(longer, color);
        lemma_first_vote_unique(longer, color, p, first_vote(longer, color));
    } else if vote == color {
        let p = votes.len() as int;
        assert(longer[p] == color);
        assert forall|q: int| 0 <= q < p implies longer[q] != color by {
            if longer[q] == color {
                assert(votes[q] == color);
            }
        }
        assert(is_first_vote(longer, color, p));
        assert(longer.contains(color));
        lemma_first_vote(longer, color);
        lemma_first_vote_unique(longer, color, p, first_vote(longer, color));
    }
}

/// `colors` and `counts` are the tally of `votes`: every colour voted for
/// stands in `colors` once, in the order of the colours' first votes, and
/// beside it in `counts` stands the number of its votes.
spec fn is_tally(colors: Seq<(u8, u8, u8)>, counts: Seq<u64>, votes: Seq<(u8, u8, u8)>) -> bool {
    &&& colors.len() == counts.len()
    &&& forall|i: int|
        0 <= i < colors.len() ==> votes.contains(#[trigger] colors[i]) && counts[i] == tally(
            votes,
            colors[i],
        )
    &&& forall|i: int, j: int|
        0 <= i < j < colors.len() ==> first_vote(votes, #[trigger] colors[i]) < first_vote(
            votes,
            #[trigger] colors[j],
        )
    &&& forall|p: int| 0 <= p < votes.len() ==> colors.contains(#[trigger] votes[p])
}

/// Counts one more vote in a tally.
fn count_vote(
    colors: &mut Vec<(u8, u8, u8)>,
    counts: &mut Vec<u64>,
    vote: (u8, u8, u8),
    Ghost(votes): Ghost<Seq<(u8, u8, u8)>>,
)
    requires
        is_tally(old(colors)@, old(counts)@, votes),
        votes.len() < u64::MAX,
    ensures
        is_tally(final(colors)@, final(counts)@, votes.push(vote)),
{
    let ghost longer = votes.push(vote);
    proof {
        assert forall|c: (u8, u8, u8)| votes.contains(c) implies longer.contains(c) by {
            let at = choose|i: int| 0 <= i < votes.len() && votes[i] == c;
            assert(longer[at] == c);
        }
        assert(longer[votes.len() as int] == vote);
        assert forall|i: int| 0 <= i < colors@.len() implies first_vote(longer, #[trigger] colors@[i])
            == first_vote(votes, colors@[i]) && tally(longer, colors@[i]) == tally(
            votes,
            colors@[i],
        ) + (if vote == colors@[i] {
            1nat
        } else {
            0
        }) by {
            lemma_first_vote_push(votes, vote, colors@[i]);
            lemma_tally_push(votes, vote, colors@[i]);
        }
    }
    match position_of(colors, vote) {
        Some(color_index) => {
            proof {
                lemma_tally_bounds(votes, vote);
            }
            let count = counts[color_index] + 1;
            counts[color_index] = count;
            proof {
                assert forall|i: int|
                    0 <= i < colors@.len() && i != color_index implies colors@[i] != vote by {
                    if colors@[i] == vote {
                        if i < color_index {
                            assert(first_vote(votes, colors@[i]) < first_vote(
                                votes,
                                colors@[color_index as int],
                            ));
                        } else {
                            assert(first_vote(votes, colors@[color_index as int]) < first_vote(
                                votes,
                                colors@[i],
                            ));
                        }
                    }
                }
                assert forall|p: int| 0 <= p < longer.len() implies colors@.contains(
                    #[trigger] longer[p],
                ) by {
                    if p < votes.len() {
                        assert(longer[p] == votes[p]);
                    }
                }
            }
        },
        None => {
            proof {
                if votes.contains(vote) {
                    let at = choose|i: int| 0 <= i < votes.len() && votes[i] == vote;
                    assert(colors@.contains(votes[at]));
                }
                lemma_tally_bounds(votes, vote);
                lemma_tally_push(votes, vote, vote);
                lemma_first_vote_push(votes, vote, vote);
            }
            let ghost before = colors@;
            colors.push(vote);
            counts.push(1);
            proof {
                assert forall|i: int| 0 <= i < before.len() implies first_vote(
                    votes,
                    #[trigger] before[i],
                ) < votes.len() by {
                    lemma_first_vote(votes, before[i]);
                }
                assert forall|p: int| 0 <= p < longer.len() implies colors@.contains(
                    #[trigger] longer[p],
                ) by {
                    if p < votes.len() {
                        assert(longer[p] == votes[p]);
                        assert(before.contains(votes[p]));
                        let at = choose|i: int| 0 <= i < before.len() && before[i] == votes[p];
                        assert(colors@[at] == votes[p]);
                    } else {
                        assert(colors@[before.len() as int] == vote);
                    }
                }
            }
        },
    }
}

/// What `count` votes for `color` weigh.
fn weigh_count(color: (u8, u8, u8), count: u64) -> (weighed: u128)
    ensures
        weighed == weigh(color, count as int),
{
    if same_color(color, (0, 255, 0)) {
        count as u128 * 500
    } else if same_color(color, (255, 0, 255)) {
        0
    } else {
        count as u128
    }
}

/// The colour that dominates a tally.
fn pick_dominant(
    colors: &Vec<(u8, u8, u8)>,
    counts: &Vec<u64>,
    Ghost(votes): Ghost<Seq<(u8, u8, u8)>>,
) -> (winner: (u8, u8, u8))
    requires
        is_tally(colors@, counts@, votes),
    ensures
        winner == dominant(votes),
{
    let mut running_most: ((u8, u8, u8), u128) = ((40, 40, 40), 0);
    let ghost mut best: int = 0;
    let mut i: usize = 0;
    while i < colors.len()
        invariant
            i <= colors@.len(),
            is_tally(colors@, counts@, votes),
            forall|j: int| 0 <= j < i ==> weight(votes, #[trigger] colors@[j]) <= running_most.1,
            running_most.1 == 0 ==> running_most.0 == fallback_color(),
            running_most.1 > 0 ==> {
                &&& 0 <= best < i
                &&& colors@[best] == running_most.0
                &&& weight(votes, colors@[best]) == running_most.1
                &&& forall|j: int|
                    0 <= j < best ==> weight(votes, #[trigger] colors@[j]) < running_most.1
            },
        decreases colors@.len() - i,
    {
        let weighed = weigh_count(colors[i], counts[i]);
        if weighed > running_most.1 {
            running_most = (colors[i], weighed);
            proof {
                best = i as int;
            }
        }
        i += 1;
    }
    proof {
        assert forall|c: (u8, u8, u8)| #[trigger] votes.contains(c) implies exists|j: int|
            0 <= j < colors@.len() && colors@[j] == c by {
            let at = choose|p: int| 0 <= p < votes.len() && votes[p] == c;
            assert(colors@.contains(votes[at]));
        }
        if running_most.1 > 0 {
            let winner = running_most.0;
            assert forall|c: (u8, u8, u8)| #[trigger] votes.contains(c) implies weight(votes, c)
                <= weight(votes, winner) by {
                let j = choose|j: int| 0 <= j < colors@.len() && colors@[j] == c;
                assert(weight(votes, colors@[j]) <= running_most.1);
            }
            assert forall|c: (u8, u8, u8)| #[trigger]
                votes.contains(c) && weight(votes, c) == weight(votes, winner) implies first_vote(
                votes,
                winner,
            ) <= first_vote(votes, c) by {
                let j = choose|j: int| 0 <= j < colors@.len() && colors@[j] == c;
                if j < best {
                    assert(weight(votes, colors@[j]) < running_most.1);
                } else if j > best {
                    assert(first_vote(votes, colors@[best]) < first_vote(votes, colors@[j]));
                }
            }
            assert(votes.contains(colors@[best]));
            assert(is_dominant(votes, winner));
            lemma_dominant_unique(votes, winner, dominant(votes));
        } else {
            assert forall|w: (u8, u8, u8)| !is_dominant(votes, w) by {
                if is_dominant(votes, w) {
                    let j = choose|j: int| 0 <= j < colors@.len() && colors@[j] == w;
                    assert(weight(votes, colors@[j]) <= running_most.1);
                }
            }
        }
    }
    running_most.0
}

/// A cell with no width holds no votes.
proof fn lemma_no_width_no_votes(
    pixels: Seq<(u8, u8, u8)>,
    palette: Option<Seq<(u8, u8, u8)>>,
    stride: int,
    x: int,
    y: int,
    rows: nat,
)
    ensures
        cell_votes(pixels, palette, stride, x, y, 0, rows) =~= seq![],
    decreases rows,
{
    if rows > 0 {
        lemma_no_width_no_votes(pixels, palette, stride, x, y, (rows - 1) as nat);
    }
}

/// The preferred colours as a sequence, where there are any.
pub open spec fn palette_of(preferred_colors: Option<&Vec<(u8, u8, u8)>>) -> Option<
    Seq<(u8, u8, u8)>,
> {
    match preferred_colors {
        Some(pcs) => Some(pcs@),
        None => None,
    }
}

/// The colour that dominates the cell with its upper left corner at
/// (`x`, `y`), `width` pixels wide and `height` pixels high.
fn dominant_in_cell(
    preferred_colors: Option<&Vec<(u8, u8, u8)>>,
    pixels: &Vec<(u8, u8, u8)>,
    img_width: usize,
    x: usize,
    y: usize,
    width: usize,
    height: usize,
) -> (winner: (u8, u8, u8))
    requires
        x + width <= img_width,
        (y + height) * img_width <= pixels@.len(),
    ensures
        winner == dominant(
            cell_votes(
                pixels@,
                palette_of(preferred_colors),
                img_width as int,
                x as int,
                y as int,
                width as int,
                height as nat,
            ),
        ),
{
    let ghost palette = palette_of(preferred_colors);
    let pixel_count = pixels.len();
    let mut color_counts_color: Vec<(u8, u8, u8)> = Vec::new();
    let mut color_counts_count: Vec<u64> = Vec::new();
    let ghost mut votes: Seq<(u8, u8, u8)> = seq![];
    if width == 0 {
        proof {
            lemma_no_width_no_votes(
                pixels@,
                palette,
                img_width as int,
                x as int,
                y as int,
                height as nat,
            );
        }
        return pick_dominant(&color_counts_color, &color_counts_count, Ghost(votes));
    }
    assert(y + height <= (y + height) * img_width) by (nonlinear_arith)
        requires
            img_width >= 1,
    ;
    let mut dy: usize = 0;
    while dy < height
        invariant
            dy <= height,
            1 <= width,
            x + width <= img_width,
            pixel_count == pixels@.len(),
            y + height <= pixel_count,
            (y + height) * img_width <= pixel_count,
            palette == palette_of(preferred_colors),
            is_tally(color_counts_color@, color_counts_count@, votes),
            votes == cell_votes(
                pixels@,
                palette,
                img_width as int,
                x as int,
                y as int,
                width as int,
                dy as nat,
            ),
            votes.len() == dy * width,
        decreases height - dy,
    {
        assert((y + dy) * img_width + img_width <= (y + height) * img_width) by (nonlinear_arith)
            requires
                dy < height,
        ;
        assert(dy * width + width <= (y + dy) * img_width + img_width) by (nonlinear_arith)
            requires
                width <= img_width,
        ;
        assert(0 <= (y + dy) * img_width) by (nonlinear_arith);
        let start = (y + dy) * img_width + x;
        let ghost above = votes;
        let mut dx: usize = 0;
        while dx < width
            invariant
                dx <= width,
                pixel_count == pixels@.len(),
                start + width <= pixel_count,
                above.len() + width <= pixel_count,
                votes.len() == above.len() + dx,
                palette == palette_of(preferred_colors),
                is_tally(color_counts_color@, color_counts_count@, votes),
                votes == above + row_votes(pixels@, palette, start as int, dx as int),
            decreases width - dx,
        {
            let this_rgb = pixels[start + dx];
            let this_color = snap_color(preferred_colors, this_rgb);
            count_vote(&mut color_counts_color, &mut color_counts_count, this_color, Ghost(votes));
            proof {
                assert(row_votes(pixels@, palette, start as int, dx + 1) =~= row_votes(
                    pixels@,
                    palette,
                    start as int,
                    dx as int,
                ).push(this_color));
                votes = votes.push(this_color);
                assert(votes =~= above + row_votes(pixels@, palette, start as int, dx + 1));
            }
            dx += 1;
        }
        assert((dy + 1) * width == dy * width + width) by (nonlinear_arith);
        dy += 1;
    }
    pick_dominant(&color_counts_color, &color_counts_count, Ghost(votes))
}

/// The colour that dominates the cell of each square of the grid, one by
/// one. The cell of a square has the square's upper left corner and is
/// `square_width` by `square_height` pixels; `pixels` holds the image row
/// by row, `img_width` pixels to a row.
pub open spec fn dominant_colors(
    grid: GridView,
    palette: Option<Seq<(u8, u8, u8)>>,
    pixels: Seq<(u8, u8, u8)>,
    img_width: int,
    square_width: int,
    square_height: int,
) -> Seq<(u8, u8, u8)> {
    Seq::new(
        grid.squares.len(),
        |i: int|
            dominant(
                cell_votes(
                    pixels,
                    palette,
                    img_width,
                    grid.squares[i].x as int,
                    grid.squares[i].y as int,
                    square_width,
                    square_height as nat,
                ),
            ),
    )
}

/// Gives each square of the grid the colour that dominates its cell of
/// the image. Every pixel of the cell votes, in rows from the top and in
/// each row from the left, for its own colour or, with preferred colours
/// given, for the preferred colour that it is near enough to. The votes of
/// each colour are weighed, and the colour with the heaviest votes wins;
/// among equals, the one voted for first.
pub fn squareularization_get_dominant_color(
    squares: &mut SquareGrid,
    preferred_colors: Option<&Vec<(u8, u8, u8)>>,
    pixels: &Vec<(u8, u8, u8)>,
    img_width: &usize,
    square_width: &usize,
    square_height: &usize,
)
    requires
        forall|i: int|
            0 <= i < old(squares)@.squares.len() ==> cell_inside(
                #[trigger] old(squares)@.squares[i],
                pixels@.len() as int,
                *img_width as int,
                *square_width as int,
                *square_height as int,
            ),
    ensures
        final(squares)@ == old(squares)@.recolored(
            dominant_colors(
                old(squares)@,
                palette_of(preferred_colors),
                pixels@,
                *img_width as int,
                *square_width as int,
                *square_height as int,
            ),
        ),
{
    let ghost grid = squares@;
    let ghost wanted = dominant_colors(
        grid,
        palette_of(preferred_colors),
        pixels@,
        *img_width as int,
        *square_width as int,
        *square_height as int,
    );
    let mut k: usize = 0;
    while k < squares.len()
        invariant
            k <= grid.squares.len(),
            grid.same_layout(squares@),
            wanted == dominant_colors(
                grid,
                palette_of(preferred_colors),
                pixels@,
                *img_width as int,
                *square_width as int,
                *square_height as int,
            ),
            forall|i: int|
                0 <= i < grid.squares.len() ==> cell_inside(
                    #[trigger] grid.squares[i],
                    pixels@.len() as int,
                    *img_width as int,
                    *square_width as int,
                    *square_height as int,
                ),
            forall|i: int|
                0 <= i < k ==> #[trigger] squares@.squares[i] == grid.squares[i].recolored(
                    wanted[i],
                ),
            forall|i: int|
                k <= i < grid.squares.len() ==> #[trigger] squares@.squares[i] == grid.squares[i],
        decreases grid.squares.len() - k,
    {
        let square = squares.square_at(k);
        let x = *square.x();
        let y = *square.y();
        assert(cell_inside(
            grid.squares[k as int],
            pixels@.len() as int,
            *img_width as int,
            *square_width as int,
            *square_height as int,
        ));
        let winner = dominant_in_cell(
            preferred_colors,
            pixels,
            *img_width,
            x,
            y,
            *square_width,
            *square_height,
        );
        let ghost before = squares@;
        squares.set_color_at(k, winner);
        proof {
            assert forall|i: int| 0 <= i < k implies #[trigger] squares@.squares[i]
                == grid.squares[i].recolored(wanted[i]) by {
                assert(squares@.squares[i] == before.squares[i]);
            }
            assert forall|i: int| 0 <= i < grid.squares.len() implies (
            #[trigger] grid.squares[i]).same_place(squares@.squares[i]) by {
                assert(grid.squares[i].same_place(before.squares[i]));
            }
        }
        k += 1;
    }
    assert(squares@.squares =~= grid.recolored(wanted).squares);
}

} // verus!
