//! The stairs of a grid: the squares that connect one level to another.

use crate::squares::{GridView, Square, SquareGrid, SquareView};
use crate::squareularization::colors::stairs_color;
use vstd::prelude::*;

verus! {

/// A square that holds stairs, and the row and column under which the
/// grid addresses it.
#[derive(Debug, PartialEq, PartialOrd)]
pub struct SquareStairDisplay {
    pub square: Square,
    pub row_idx: usize,
    pub col_idx: usize,
}

impl Clone for SquareStairDisplay {
    fn clone(&self) -> (copy: SquareStairDisplay)
        ensures
            copy == *self,
    {
        SquareStairDisplay { square: self.square, row_idx: self.row_idx, col_idx: self.col_idx }
    }
}

impl Default for SquareStairDisplay {
    /// A square without place or size, at row and column nought.
    fn default() -> (stair: SquareStairDisplay)
        ensures
            stair.square@ == (SquareView {
                x: 0,
                y: 0,
                width: 0,
                height: 0,
                color: (0u8, 255u8, 255u8),
            }),
            stair.row_idx == 0,
            stair.col_idx == 0,
    {
        SquareStairDisplay { square: Square::new(0, 0, 0, 0), row_idx: 0, col_idx: 0 }
    }
}

/// The text that names stairs by row and column, as [`stair_label`]
/// words it.
pub uninterp spec fn stair_text(row_idx: usize, col_idx: usize) -> Seq<char>;

/// A row and a column in words, put together with `format!`. The contract
/// only names the text: the same numbers give the same text.
#[verifier::external_body]
fn stair_label(row_idx: usize, col_idx: usize) -> (text: String)
    ensures
        text@ == stair_text(row_idx, col_idx),
{
    format!("Row: {}, Col: {}", row_idx, col_idx)
}

impl SquareStairDisplay {
    /// The row and the column of the stairs in words, as a list shows
    /// them.
    pub fn label(&self) -> (text: String)
        ensures
            text@ == stair_text(self.row_idx, self.col_idx),
    {
        stair_label(self.row_idx, self.col_idx)
    }
}

/// The stairs among the first `n` addresses of the grid, taken row by row
/// and in each row column by column: every address that names a square in
/// the colour of stairs, with that square.
pub open spec fn stairs_upto(grid: GridView, n: nat) -> Seq<(SquareView, int, int)>
    decreases n,
{
    if n == 0 {
        seq![]
    } else {
        let before = stairs_upto(grid, (n - 1) as nat);
        let row = (n - 1) / (grid.cols as int);
        let col = (n - 1) % (grid.cols as int);
        if grid.has(row, col) && grid.squares[grid.index_of(row, col)].color == stairs_color() {
            before.push((grid.squares[grid.index_of(row, col)], row, col))
        } else {
            before
        }
    }
}

/// The stairs of the grid.
pub open spec fn stairs_of(grid: GridView) -> Seq<(SquareView, int, int)> {
    stairs_upto(grid, grid.rows * grid.cols)
}

/// Stairs that one of the first `n` addresses names are listed: this is
/// the place in the list of the entry for that address.
proof fn lemma_stairs_listed_upto(grid: GridView, n: nat, row: int, col: int) -> (t: int)
    requires
        n <= grid.rows * grid.cols,
        0 <= row,
        0 <= col < grid.cols,
        row * grid.cols + col < n,
        grid.has(row, col),
        grid.squares[grid.index_of(row, col)].color == stairs_color(),
    ensures
        0 <= t < stairs_upto(grid, n).len(),
        stairs_upto(grid, n)[t] == (grid.squares[grid.index_of(row, col)], row, col),
    decreases n,
{
    let cols = grid.cols as int;
    let k = n - 1;
    let before = stairs_upto(grid, k as nat);
    if row * cols + col == k {
        vstd::arithmetic::div_mod::lemma_fundamental_div_mod_converse(k, cols, row, col);
        before.len() as int
    } else {
        let t = lemma_stairs_listed_upto(grid, k as nat, row, col);
        assert(stairs_upto(grid, n)[t] == before[t]);
        t
    }
}

/// No stairs that the grid names are missed: every address of the grid
/// that names a square with stairs has its entry in the list, with that
/// square. On a grid that is well addressed these are all the stairs.
pub proof fn lemma_stairs_listed(grid: GridView, row: int, col: int)
    requires
        grid.names(row, col),
        grid.squares[grid.index_of(row, col)].color == stairs_color(),
    ensures
        stairs_of(grid).contains((grid.squares[grid.index_of(row, col)], row, col)),
{
    assert(row * grid.cols + col < grid.rows * grid.cols) by (nonlinear_arith)
        requires
            0 <= row < grid.rows,
            0 <= col < grid.cols,
    ;
    assert(0 <= col * grid.img_width) by (nonlinear_arith)
        requires
            0 <= col,
            0 <= grid.img_width,
    ;
    let t = lemma_stairs_listed_upto(grid, grid.rows * grid.cols, row, col);
    assert(stairs_of(grid)[t] == (grid.squares[grid.index_of(row, col)], row, col));
}

/// The stairs as plain values: the square, the row and the column of each.
pub open spec fn stair_views(stairs: Seq<SquareStairDisplay>) -> Seq<(SquareView, int, int)> {
    stairs.map_values(|s: SquareStairDisplay| (s.square@, s.row_idx as int, s.col_idx as int))
}

/// Lists the stairs of the grid with the row and column of each, row by
/// row. The grid is gone through address by address, rows below the
/// number of rows and columns below the number of columns: on a grid that
/// is well addressed every square with stairs is listed once; on any
/// other grid one that no address names is passed over, and one that
/// several addresses name is listed under each.
pub fn ux_get_stair_coord_list(squares: &SquareGrid) -> (stairs_list: Vec<SquareStairDisplay>)
    ensures
        stair_views(stairs_list@) == stairs_of(squares@),
{
    let rows = *squares.rows();
    let cols = *squares.cols();
    let ghost grid = squares@;
    let mut stairs_list: Vec<SquareStairDisplay> = Vec::new();
    let mut row: usize = 0;
    while row < rows
        invariant
            row <= rows,
            grid == squares@,
            rows == grid.rows,
            cols == grid.cols,
            stair_views(stairs_list@) == stairs_upto(grid, (row * cols) as nat),
        decreases rows - row,
    {
        let mut col: usize = 0;
        while col < cols
            invariant
                row < rows,
                col <= cols,
                grid == squares@,
                rows == grid.rows,
                cols == grid.cols,
                stair_views(stairs_list@) == stairs_upto(grid, (row * cols + col) as nat),
            decreases cols - col,
        {
            proof {
                let n = row * cols + col;
                assert(0 <= row * cols) by (nonlinear_arith);
                vstd::arithmetic::div_mod::lemma_fundamental_div_mod_converse(
                    n,
                    cols as int,
                    row as int,
                    col as int,
                );
                assert((n + 1) as nat - 1 == n);
            }
            if squares.has_square(&row, &col) {
                let square = squares.get(&row, &col);
                let color = *square.color();
                if color.0 == 0 && color.1 == 255 && color.2 == 0 {
                    let ghost before = stair_views(stairs_list@);
                    let stair = SquareStairDisplay { square: *square, row_idx: row, col_idx: col };
                    stairs_list.push(stair);
                    assert(stair_views(stairs_list@) =~= before.push(
                        (stair.square@, row as int, col as int),
                    ));
                }
            }
            col += 1;
        }
        assert((row + 1) * cols == row * cols + cols) by (nonlinear_arith);
        row += 1;
    }
    stairs_list
}

/// The square at place `s` is addressed by one of the stairs.
pub open spec fn stair_at(grid: GridView, stairs: Seq<SquareStairDisplay>, s: int) -> bool {
    exists|t: int|
        0 <= t < stairs.len() && grid.index_of(
            (#[trigger] stairs[t]).row_idx as int,
            stairs[t].col_idx as int,
        ) == s
}

/// The grid with every square that one of the stairs addresses in the
/// colour `color`.
pub open spec fn without_stairs(
    grid: GridView,
    stairs: Seq<SquareStairDisplay>,
    color: (u8, u8, u8),
) -> GridView {
    grid.recolored(
        Seq::new(
            grid.squares.len(),
            |s: int|
                if stair_at(grid, stairs, s) {
                    color
                } else {
                    grid.squares[s].color
                },
        ),
    )
}

/// One more of the stairs seen adds the place that it addresses.
proof fn lemma_stair_at_step(grid: GridView, stairs: Seq<SquareStairDisplay>, t: int, s: int)
    requires
        0 <= t < stairs.len(),
    ensures
        stair_at(grid, stairs.take(t + 1), s) <==> (stair_at(grid, stairs.take(t), s) || s
            == grid.index_of(stairs[t].row_idx as int, stairs[t].col_idx as int)),
{
    let shorter = stairs.take(t);
    let longer = stairs.take(t + 1);
    if stair_at(grid, shorter, s) {
        let u = choose|u: int|
            0 <= u < shorter.len() && grid.index_of(
                (#[trigger] shorter[u]).row_idx as int,
                shorter[u].col_idx as int,
            ) == s;
        assert(grid.index_of(longer[u].row_idx as int, longer[u].col_idx as int) == s);
    }
    if s == grid.index_of(stairs[t].row_idx as int, stairs[t].col_idx as int) {
        assert(grid.index_of(longer[t].row_idx as int, longer[t].col_idx as int) == s);
    }
    if stair_at(grid, longer, s) {
        let u = choose|u: int|
            0 <= u < longer.len() && grid.index_of(
                (#[trigger] longer[u]).row_idx as int,
                longer[u].col_idx as int,
            ) == s;
        if u < t {
            assert(grid.index_of(shorter[u].row_idx as int, shorter[u].col_idx as int) == s);
        }
    }
}

/// Takes the selected stairs out of the grid: every square that one of
/// them addresses gets the colour `color`. One that addresses no square
/// is passed over.
pub fn remove_stairs(
    squares: &mut SquareGrid,
    selected: &Vec<SquareStairDisplay>,
    color: (u8, u8, u8),
)
    ensures
        final(squares)@ == without_stairs(old(squares)@, selected@, color),
{
    let ghost start = squares@;
    let mut t: usize = 0;
    while t < selected.len()
        invariant
            t <= selected@.len(),
            start.same_layout(squares@),
            forall|s: int|
                0 <= s < start.squares.len() ==> (#[trigger] squares@.squares[s]).color == (if stair_at(
                    start,
                    selected@.take(t as int),
                    s,
                ) {
                    color
                } else {
                    start.squares[s].color
                }),
        decreases selected@.len() - t,
    {
        let row = selected[t].row_idx;
        let col = selected[t].col_idx;
        let ghost before = squares@;
        let ghost here = start.index_of(row as int, col as int);
        proof {
            assert(before.index_of(row as int, col as int) == here);
            assert forall|s: int|
                stair_at(start, selected@.take(t + 1), s) <==> (stair_at(
                    start,
                    selected@.take(t as int),
                    s,
                ) || s == here) by {
                lemma_stair_at_step(start, selected@, t as int, s);
            }
        }
        if squares.has_square(&row, &col) {
            let this_square = squares.get_mut(&row, &col);
            this_square.set_color(color);
        }
        proof {
            assert forall|s: int| 0 <= s < start.squares.len() implies (
            #[trigger] squares@.squares[s]).color == (if stair_at(start, selected@.take(t + 1), s) {
                color
            } else {
                start.squares[s].color
            }) by {
                assert(before.squares[s].color == (if stair_at(start, selected@.take(t as int), s) {
                    color
                } else {
                    start.squares[s].color
                }));
            }
            assert forall|s: int| 0 <= s < start.squares.len() implies (
            #[trigger] start.squares[s]).same_place(squares@.squares[s]) by {
                assert(start.squares[s].same_place(before.squares[s]));
            }
        }
        t += 1;
    }
    proof {
        assert(selected@.take(t as int) =~= selected@);
        assert(squares@.squares =~= without_stairs(start, selected@, color).squares);
    }
}

} // verus!
