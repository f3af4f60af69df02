//! Cave smoothing: a cellular automaton over the walls and floors of a grid.

use crate::squares::{GridView, SquareGrid};
use vstd::prelude::*;

verus! {

/// What the automaton takes a square for, going by its colour. A colour
/// that stands for nothing is kept in `Other`.
#[derive(Debug, PartialEq, Eq, Copy, Clone, PartialOrd, Ord, Hash)]
pub enum CAC {
    Wall,
    Floor,
    Stairs,
    Other((u8, u8, u8)),
}

impl CAC {
    /// The class of a colour: black is wall, white is floor, green is
    /// stairs, and any other colour is `Other` and is kept.
    pub open spec fn of(color: (u8, u8, u8)) -> CAC {
        if color == (0u8, 0u8, 0u8) {
            CAC::Wall
        } else if color == (255u8, 255u8, 255u8) {
            CAC::Floor
        } else if color == (0u8, 255u8, 0u8) {
            CAC::Stairs
        } else {
            CAC::Other(color)
        }
    }

    /// The colour that stands for a class.
    pub open spec fn paint(self) -> (u8, u8, u8) {
        match self {
            CAC::Wall => (0u8, 0u8, 0u8),
            CAC::Floor => (255u8, 255u8, 255u8),
            CAC::Stairs => (0u8, 255u8, 0u8),
            CAC::Other(c) => c,
        }
    }

    /// Wall or floor: the two classes that a generation rewrites.
    pub open spec fn is_terrain(self) -> bool {
        self == CAC::Wall || self == CAC::Floor
    }

    /// The class of a colour.
    pub fn classify(color: (u8, u8, u8)) -> (class: CAC)
        ensures
            class == CAC::of(color),
    {
        if color.0 == 0 && color.1 == 0 && color.2 == 0 {
            CAC::Wall
        } else if color.0 == 255 && color.1 == 255 && color.2 == 255 {
            CAC::Floor
        } else if color.0 == 0 && color.1 == 255 && color.2 == 0 {
            CAC::Stairs
        } else {
            CAC::Other(color)
        }
    }

    /// The colour that stands for the class.
    pub fn color(&self) -> (color: (u8, u8, u8))
        ensures
            color == self.paint(),
    {
        match self {
            CAC::Wall => (0, 0, 0),
            CAC::Floor => (255, 255, 255),
            CAC::Stairs => (0, 255, 0),
            CAC::Other(c) => *c,
        }
    }

    /// Whether two classes are the same; two classes `Other` are the same
    /// where they keep the same colour.
    pub fn same_as(&self, other: &CAC) -> (same: bool)
        ensures
            same == (*self == *other),
    {
        match (self, other) {
            (CAC::Wall, CAC::Wall) => true,
            (CAC::Floor, CAC::Floor) => true,
            (CAC::Stairs, CAC::Stairs) => true,
            (CAC::Other(a), CAC::Other(b)) => a.0 == b.0 && a.1 == b.1 && a.2 == b.2,
            _ => false,
        }
    }

    /// The colours that carry a meaning for the automaton: wall, floor and
    /// stairs, in that order.
    pub fn colors_vec() -> (colors: Vec<(u8, u8, u8)>)
        ensures
            colors@ == seq![CAC::Wall.paint(), CAC::Floor.paint(), CAC::Stairs.paint()],
    {
        let mut color_vec = Vec::new();
        color_vec.push((0, 0, 0));
        color_vec.push((255, 255, 255));
        color_vec.push((0, 255, 0));
        assert(color_vec@ =~= seq![CAC::Wall.paint(), CAC::Floor.paint(), CAC::Stairs.paint()]);
        color_vec
    }

    /// Classifying a colour and painting the class gives the colour back.
    pub proof fn lemma_classify_then_paint(color: (u8, u8, u8))
        ensures
            CAC::of(color).paint() == color,
    {
    }

    /// Painting a class that comes of classifying and classifying the
    /// colour gives the class back: so it is for wall, floor and stairs,
    /// and for `Other` with any colour that stands for none of the three.
    pub proof fn lemma_paint_then_classify(class: CAC)
        requires
            class matches CAC::Other(c) ==> CAC::of(c) is Other,
        ensures
            CAC::of(class.paint()) == class,
    {
    }
}

/// The first row or column of the neighbourhood around `center`.
pub open spec fn window_start(center: int, size: int) -> int {
    if center < size {
        0
    } else {
        center - size
    }
}

/// One past the last row or column of the neighbourhood around `center`,
/// in a grid with `extent` rows or columns.
pub open spec fn window_end(center: int, size: int, extent: int) -> int {
    if center + size > extent - 1 {
        extent
    } else {
        center + size + 1
    }
}

/// Three votes for each side on which the neighbourhood of (`row`, `col`)
/// is cut off by the edge of the grid.
pub open spec fn edge_bonus(grid: GridView, size: int, row: int, col: int) -> int {
    (if row < size { 3int } else { 0 }) + (if col < size { 3int } else { 0 }) + (if row + size
        > grid.rows - 1 { 3int } else { 0 }) + (if col + size > grid.cols - 1 { 3int } else { 0 })
}

/// The square addressed as (`r`, `c`) exists, is not the centre
/// (`row`, `col`), and is of class `target`.
pub open spec fn votes(grid: GridView, row: int, col: int, r: int, c: int, target: CAC) -> bool {
    &&& !(r == row && c == col)
    &&& grid.has(r, c)
    &&& CAC::of(grid.squares[grid.index_of(r, c)].color) == target
}

/// The number of voting squares in column `c`, rows `from` up to but not
/// including `to`.
pub open spec fn column_votes(
    grid: GridView,
    row: int,
    col: int,
    c: int,
    from: int,
    to: int,
    target: CAC,
) -> int
    decreases to - from,
{
    if to <= from {
        0
    } else {
        column_votes(grid, row, col, c, from, to - 1, target) + (if votes(
            grid,
            row,
            col,
            to - 1,
            c,
            target,
        ) { 1int } else { 0 })
    }
}

/// The number of voting squares in columns `from` up to but not including
/// `to`, each taken over the rows of the neighbourhood of (`row`, `col`).
pub open spec fn window_votes(
    grid: GridView,
    size: int,
    row: int,
    col: int,
    from: int,
    to: int,
    target: CAC,
) -> int
    decreases to - from,
{
    if to <= from {
        0
    } else {
        window_votes(grid, size, row, col, from, to - 1, target) + column_votes(
            grid,
            row,
            col,
            to - 1,
            window_start(row, size),
            window_end(row, size, grid.rows as int),
            target,
        )
    }
}

/// The neighbour count of (`row`, `col`): the squares of class `target`
/// within `size` rows and columns of it, itself left out, and three more
/// for each side on which the grid's edge cuts that neighbourhood off.
pub open spec fn neighbor_total(grid: GridView, size: int, row: int, col: int, target: CAC) -> int {
    edge_bonus(grid, size, row, col) + window_votes(
        grid,
        size,
        row,
        col,
        window_start(col, size),
        window_end(col, size, grid.cols as int),
        target,
    )
}

/// A count as a machine word holds it: itself, or the largest word where
/// it is larger than that.
pub open spec fn capped(count: int) -> usize {
    if count > usize::MAX {
        usize::MAX
    } else {
        count as usize
    }
}

/// A count over a column is never negative.
proof fn lemma_column_nonnegative(
    grid: GridView,
    row: int,
    col: int,
    c: int,
    from: int,
    to: int,
    target: CAC,
)
    ensures
        column_votes(grid, row, col, c, from, to, target) >= 0,
    decreases to - from,
{
    if to > from {
        lemma_column_nonnegative(grid, row, col, c, from, to - 1, target);
    }
}

/// A count over a window is never negative.
proof fn lemma_window_nonnegative(
    grid: GridView,
    size: int,
    row: int,
    col: int,
    from: int,
    to: int,
    target: CAC,
)
    ensures
        window_votes(grid, size, row, col, from, to, target) >= 0,
    decreases to - from,
{
    if to > from {
        lemma_window_nonnegative(grid, size, row, col, from, to - 1, target);
        lemma_column_nonnegative(
            grid,
            row,
            col,
            to - 1,
            window_start(row, size),
            window_end(row, size, grid.rows as int),
            target,
        );
    }
}

/// A neighbour count is never negative.
pub proof fn lemma_neighbor_total_nonnegative(
    grid: GridView,
    size: int,
    row: int,
    col: int,
    target: CAC,
)
    ensures
        neighbor_total(grid, size, row, col, target) >= 0,
{
    lemma_window_nonnegative(
        grid,
        size,
        row,
        col,
        window_start(col, size),
        window_end(col, size, grid.cols as int),
        target,
    );
}

/// What a [`CA`] is, as plain mathematics.
pub struct CAView {
    pub neighborhood_size: nat,
    pub neighborhood_threshold: nat,
    pub generations_so_far: nat,
    pub squares: Option<GridView>,
}

/// The verdict on the square that the address (`row`, `col`) names: wall
/// where the count of wall neighbours around that address reaches the
/// threshold, floor where it does not.
pub open spec fn verdict(grid: GridView, size: nat, threshold: nat, row: int, col: int) -> (
    u8,
    u8,
    u8,
) {
    if neighbor_total(grid, size as int, row, col, CAC::Wall) >= threshold {
        CAC::Wall.paint()
    } else {
        CAC::Floor.paint()
    }
}

/// The address that judges the square at place `i`, among the first `n`
/// addresses of the grid taken row by row and in each row column by
/// column: the last of them that names the square, if any does.
pub open spec fn judge_upto(grid: GridView, i: int, n: nat) -> Option<(int, int)>
    decreases n,
{
    if n == 0 {
        None
    } else {
        let row = (n - 1) / (grid.cols as int);
        let col = (n - 1) % (grid.cols as int);
        if grid.index_of(row, col) == i {
            Some((row, col))
        } else {
            judge_upto(grid, i, (n - 1) as nat)
        }
    }
}

/// The address of the grid that names the square at place `i`: the one
/// that does, on a grid that is well addressed; the last that does, where
/// several do; none, where none does.
pub open spec fn judge(grid: GridView, i: int) -> Option<(int, int)> {
    judge_upto(grid, i, grid.rows * grid.cols)
}

/// The address that judges a square that no address of the grid names:
/// the one whose count stands at the square's own place among the counts
/// of all addresses taken row by row, row `i / cols` and column
/// `i % cols`.
pub open spec fn fallback_address(grid: GridView, i: int) -> (int, int) {
    if grid.cols > 0 {
        (i / (grid.cols as int), i % (grid.cols as int))
    } else {
        (i, 0)
    }
}

/// The address that judges the square at place `i` once the first `n`
/// addresses of the grid have been gone through: the last of them that
/// names the square; where none does, the address of
/// [`fallback_address`].
pub open spec fn judging_address_upto(grid: GridView, i: int, n: nat) -> (int, int) {
    match judge_upto(grid, i, n) {
        Some(address) => address,
        None => fallback_address(grid, i),
    }
}

/// The address that judges the square at place `i`: the address of the
/// grid that names it, the last one where several do; where none does,
/// the address of [`fallback_address`].
pub open spec fn judging_address(grid: GridView, i: int) -> (int, int) {
    judging_address_upto(grid, i, grid.rows * grid.cols)
}

/// The colour of the square at place `i` once the first `n` addresses of
/// the grid have been gone through: a wall or floor has the verdict of
/// the address that judges it so far; any other square has the colour
/// that it had.
pub open spec fn next_color_upto(
    grid: GridView,
    size: nat,
    threshold: nat,
    i: int,
    n: nat,
) -> (u8, u8, u8) {
    let color = grid.squares[i].color;
    if CAC::of(color).is_terrain() {
        let address = judging_address_upto(grid, i, n);
        verdict(grid, size, threshold, address.0, address.1)
    } else {
        color
    }
}

/// The colour that the square at place `i` takes in the next generation.
/// Every wall or floor turns to wall where the count of wall neighbours
/// around the address that judges it reaches the threshold, and to floor
/// where it does not. A square of another class keeps its colour.
pub open spec fn next_color(grid: GridView, size: nat, threshold: nat, i: int) -> (u8, u8, u8) {
    next_color_upto(grid, size, threshold, i, grid.rows * grid.cols)
}

/// The grid after one generation: every square recoloured by
/// [`next_color`], each from the grid as it was before.
pub open spec fn next_grid(grid: GridView, size: nat, threshold: nat) -> GridView {
    grid.recolored(Seq::new(grid.squares.len(), |i: int| next_color(grid, size, threshold, i)))
}

/// What [`judge_upto`] finds is an address among the first `n` that names
/// the square; where it finds none, none of them names it.
pub proof fn lemma_judge_upto(grid: GridView, i: int, n: nat)
    requires
        n <= grid.rows * grid.cols,
    ensures
        match judge_upto(grid, i, n) {
            Some((row, col)) => 0 <= row < grid.rows && 0 <= col < grid.cols && row * grid.cols
                + col < n && grid.index_of(row, col) == i,
            None => forall|row: int, col: int|
                0 <= row && 0 <= col < grid.cols && row * grid.cols + col < n
                    ==> #[trigger] grid.index_of(row, col) != i,
        },
    decreases n,
{
    if n > 0 {
        let cols = grid.cols as int;
        let k = n - 1;
        assert(cols > 0) by (nonlinear_arith)
            requires
                0 < n <= grid.rows * cols,
                0 <= grid.rows,
        ;
        let row = k / cols;
        let col = k % cols;
        vstd::arithmetic::div_mod::lemma_fundamental_div_mod(k, cols);
        assert(cols * row == row * cols) by (nonlinear_arith);
        assert(0 <= row < grid.rows) by (nonlinear_arith)
            requires
                k == row * cols + col,
                0 <= col < cols,
                0 <= k < grid.rows * cols,
        ;
        lemma_judge_upto(grid, i, k as nat);
        if grid.index_of(row, col) != i && judge_upto(grid, i, k as nat) is None {
            assert forall|r: int, c: int|
                0 <= r && 0 <= c < grid.cols && r * grid.cols + c < n implies #[trigger] grid.index_of(
                r,
                c,
            ) != i by {
                if r * cols + c == k {
                    vstd::arithmetic::div_mod::lemma_fundamental_div_mod_converse(k, cols, r, c);
                }
            }
        }
    }
}

/// An address of the grid that alone names its square judges it: among
/// all addresses, it is the one that [`judge`] finds.
pub proof fn lemma_judge_own_address(grid: GridView, row: int, col: int)
    requires
        grid.names(row, col),
        forall|other_row: int, other_col: int|
            grid.names(other_row, other_col) && #[trigger] grid.index_of(other_row, other_col)
                == grid.index_of(row, col) ==> other_row == row && other_col == col,
    ensures
        judge(grid, grid.index_of(row, col)) == Some((row, col)),
{
    let i = grid.index_of(row, col);
    let n = grid.rows * grid.cols;
    lemma_judge_upto(grid, i, n);
    assert(row * grid.cols + col < n) by (nonlinear_arith)
        requires
            0 <= row < grid.rows,
            0 <= col < grid.cols,
            n == grid.rows * grid.cols,
    ;
    match judge_upto(grid, i, n) {
        Some((r, c)) => {
            assert(grid.names(r, c));
        },
        None => {
            assert(grid.index_of(row, col) != i);
        },
    }
}

/// The colours of `after` are what a generation makes of `before` address
/// by address: the square that an address of the grid names is, where it
/// was a wall or a floor, a wall exactly where the count of wall
/// neighbours around that address reaches the threshold, and a floor
/// where it does not; where it was of another class, it has the colour
/// that it had.
pub open spec fn judged_by_address(
    before: GridView,
    after: GridView,
    size: nat,
    threshold: nat,
) -> bool {
    forall|row: int, col: int|
        before.names(row, col) ==> after.squares[#[trigger] before.index_of(row, col)].color == (
        if CAC::of(before.squares[before.index_of(row, col)].color).is_terrain() {
            verdict(before, size, threshold, row, col)
        } else {
            before.squares[before.index_of(row, col)].color
        })
}

/// Each square is judged by its own neighbourhood: on a grid that is well
/// addressed, the next generation is what the grid is made into address
/// by address, every square by the count around the one address that
/// names it.
pub proof fn lemma_generation_by_address(grid: GridView, size: nat, threshold: nat)
    requires
        grid.well_addressed(),
    ensures
        judged_by_address(grid, next_grid(grid, size, threshold), size, threshold),
{
    let after = next_grid(grid, size, threshold);
    assert forall|row: int, col: int| grid.names(row, col) implies after.squares[#[trigger] grid.index_of(
        row,
        col,
    )].color == (if CAC::of(grid.squares[grid.index_of(row, col)].color).is_terrain() {
        verdict(grid, size, threshold, row, col)
    } else {
        grid.squares[grid.index_of(row, col)].color
    }) by {
        assert(0 <= col * grid.img_width) by (nonlinear_arith)
            requires
                0 <= col,
                0 <= grid.img_width,
        ;
        lemma_judge_own_address(grid, row, col);
    }
}

/// The rule of a generation, square by square: every wall or floor is a
/// wall after it exactly where the count of wall neighbours around the
/// address that judges it reaches the threshold, and a floor exactly
/// where it does not; every other square is as it was.
pub proof fn lemma_generation_rule(grid: GridView, size: nat, threshold: nat, i: int)
    requires
        0 <= i < grid.squares.len(),
    ensures
        ({
            let before = grid.squares[i];
            let after = next_grid(grid, size, threshold).squares[i];
            let address = judging_address(grid, i);
            let count = neighbor_total(grid, size as int, address.0, address.1, CAC::Wall);
            &&& after.same_place(before)
            &&& CAC::of(before.color).is_terrain() ==> (CAC::of(after.color) == CAC::Wall <==> count
                >= threshold)
            &&& CAC::of(before.color).is_terrain() ==> (CAC::of(after.color) == CAC::Floor <==> count
                < threshold)
            &&& !CAC::of(before.color).is_terrain() ==> after == before
        }),
{
}

/// With a threshold of nought every wall and every floor is a wall after
/// a generation.
pub proof fn lemma_threshold_nought(grid: GridView, size: nat, i: int)
    requires
        0 <= i < grid.squares.len(),
        CAC::of(grid.squares[i].color).is_terrain(),
    ensures
        CAC::of(next_grid(grid, size, 0).squares[i].color) == CAC::Wall,
{
    let address = judging_address(grid, i);
    lemma_neighbor_total_nonnegative(grid, size as int, address.0, address.1, CAC::Wall);
}

/// A higher threshold never makes more walls: a square that is a wall
/// after a generation with the higher of two thresholds is one after a
/// generation with the lower.
pub proof fn lemma_threshold_monotone(grid: GridView, size: nat, lower: nat, higher: nat, i: int)
    requires
        0 <= i < grid.squares.len(),
        lower <= higher,
        CAC::of(grid.squares[i].color).is_terrain(),
        CAC::of(next_grid(grid, size, higher).squares[i].color) == CAC::Wall,
    ensures
        CAC::of(next_grid(grid, size, lower).squares[i].color) == CAC::Wall,
{
}

impl CAView {
    /// A generation can run: a grid is set.
    pub open spec fn can_step(self) -> bool {
        self.squares is Some
    }

    /// The automaton after one generation.
    pub open spec fn step(self) -> CAView {
        CAView {
            squares: Some(
                next_grid(
                    self.squares->Some_0,
                    self.neighborhood_size,
                    self.neighborhood_threshold,
                ),
            ),
            generations_so_far: self.generations_so_far + 1,
            ..self
        }
    }
}

/// One generation carried out square by square in a given order: each
/// place named in `order` is recoloured in turn, by [`next_color`] taken
/// from `snapshot`; a number that names no place is passed over.
pub open spec fn recolor_in_order(
    snapshot: GridView,
    current: GridView,
    size: nat,
    threshold: nat,
    order: Seq<int>,
) -> GridView
    decreases order.len(),
{
    if order.len() == 0 {
        current
    } else {
        let done = recolor_in_order(snapshot, current, size, threshold, order.drop_last());
        let i = order.last();
        if 0 <= i < done.squares.len() {
            GridView {
                squares: done.squares.update(
                    i,
                    done.squares[i].recolored(next_color(snapshot, size, threshold, i)),
                ),
                ..done
            }
        } else {
            done
        }
    }
}

/// After recolouring in some order, a place that the order names holds its
/// next colour, and any other place is as it was.
proof fn lemma_recolor_in_order(
    snapshot: GridView,
    size: nat,
    threshold: nat,
    order: Seq<int>,
)
    ensures
        ({
            let done = recolor_in_order(snapshot, snapshot, size, threshold, order);
            &&& snapshot.same_layout(done)
            &&& forall|k: int|
                0 <= k < snapshot.squares.len() ==> #[trigger] done.squares[k] == (if order.contains(
                    k,
                ) {
                    snapshot.squares[k].recolored(next_color(snapshot, size, threshold, k))
                } else {
                    snapshot.squares[k]
                })
        }),
    decreases order.len(),
{
    if order.len() > 0 {
        let shorter = order.drop_last();
        lemma_recolor_in_order(snapshot, size, threshold, shorter);
        let before = recolor_in_order(snapshot, snapshot, size, threshold, shorter);
        let done = recolor_in_order(snapshot, snapshot, size, threshold, order);
        assert forall|k: int| 0 <= k < snapshot.squares.len() implies #[trigger] done.squares[k]
            == (if order.contains(k) {
            snapshot.squares[k].recolored(next_color(snapshot, size, threshold, k))
        } else {
            snapshot.squares[k]
        }) by {
            assert(before.squares[k] == (if shorter.contains(k) {
                snapshot.squares[k].recolored(next_color(snapshot, size, threshold, k))
            } else {
                snapshot.squares[k]
            }));
            if shorter.contains(k) {
                let j = choose|j: int| 0 <= j < shorter.len() && shorter[j] == k;
                assert(order[j] == k);
            }
            if order.last() == k {
                assert(order[order.len() - 1] == k);
            }
            if order.contains(k) && order.last() != k {
                let j = choose|j: int| 0 <= j < order.len() && order[j] == k;
                assert(shorter[j] == k);
            }
        }
    }
}

/// The outcome of a generation does not depend on the order in which the
/// squares are taken: recolouring them one by one, in any order that names
/// every place at least once, gives the grid of [`next_grid`].
pub proof fn lemma_generation_order_free(
    grid: GridView,
    size: nat,
    threshold: nat,
    order: Seq<int>,
)
    requires
        forall|i: int| 0 <= i < grid.squares.len() ==> order.contains(i),
    ensures
        recolor_in_order(grid, grid, size, threshold, order) == next_grid(grid, size, threshold),
{
    lemma_recolor_in_order(grid, size, threshold, order);
    let done = recolor_in_order(grid, grid, size, threshold, order);
    assert(done.squares =~= next_grid(grid, size, threshold).squares);
}

/// A generation is determined by the grid and the two settings: automata
/// that agree on them can step on the same terms and reach the same grid,
/// however many generations each has run before.
pub proof fn lemma_generation_deterministic(a: CAView, b: CAView)
    requires
        a.squares == b.squares,
        a.neighborhood_size == b.neighborhood_size,
        a.neighborhood_threshold == b.neighborhood_threshold,
    ensures
        a.can_step() == b.can_step(),
        a.step().squares == b.step().squares,
{
}

/// A generation keeps the layout of the grid, leaves every square that is
/// neither wall nor floor as it was, and turns walls and floors into walls
/// and floors only.
pub proof fn lemma_generation_closed(grid: GridView, size: nat, threshold: nat, i: int)
    requires
        0 <= i < grid.squares.len(),
    ensures
        grid.same_layout(next_grid(grid, size, threshold)),
        !CAC::of(grid.squares[i].color).is_terrain() ==> next_grid(grid, size, threshold).squares[i]
            == grid.squares[i],
        CAC::of(grid.squares[i].color).is_terrain() ==> CAC::of(
            next_grid(grid, size, threshold).squares[i].color,
        ).is_terrain(),
{
}

impl CAView {
    /// The automaton after `n` generations.
    pub open spec fn after(self, n: nat) -> CAView
        decreases n,
    {
        if n == 0 {
            self
        } else {
            self.after((n - 1) as nat).step()
        }
    }

    /// Over any number of generations the automaton stays able to step, the
    /// grid keeps its layout, a square that was neither wall nor floor at
    /// the start is untouched, and one that was a wall or a floor is still
    /// a wall or a floor.
    pub proof fn lemma_generations_closed(self, n: nat, i: int)
        requires
            self.can_step(),
            0 <= i < self.squares->Some_0.squares.len(),
        ensures
            self.after(n).can_step(),
            self.after(n).generations_so_far == self.generations_so_far + n,
            self.squares->Some_0.same_layout(self.after(n).squares->Some_0),
            !CAC::of(self.squares->Some_0.squares[i].color).is_terrain() ==> self.after(
                n,
            ).squares->Some_0.squares[i] == self.squares->Some_0.squares[i],
            CAC::of(self.squares->Some_0.squares[i].color).is_terrain() ==> CAC::of(
                self.after(n).squares->Some_0.squares[i].color,
            ).is_terrain(),
        decreases n,
    {
        if n > 0 {
            let earlier = self.after((n - 1) as nat);
            self.lemma_generations_closed((n - 1) as nat, i);
            let grid = earlier.squares->Some_0;
            lemma_generation_closed(
                grid,
                earlier.neighborhood_size,
                earlier.neighborhood_threshold,
                i,
            );
            let later = next_grid(grid, earlier.neighborhood_size, earlier.neighborhood_threshold);
            assert(self.squares->Some_0.same_layout(later)) by {
                assert forall|k: int| 0 <= k < self.squares->Some_0.squares.len() implies (
                #[trigger] self.squares->Some_0.squares[k]).same_place(later.squares[k]) by {
                    assert(self.squares->Some_0.squares[k].same_place(grid.squares[k]));
                    assert(grid.squares[k].same_place(later.squares[k]));
                }
            }
        }
    }
}

/// What an automaton keeps to itself: the number of generations run on
/// the current grid, and the grid, if one is set.
#[derive(Debug, PartialEq, Eq, PartialOrd, Ord, Hash)]
pub struct CAState {
    generations_so_far: usize,
    squares: Option<SquareGrid>,
}

/// What a [`CAState`] is, as plain mathematics.
pub struct CAStateView {
    pub generations_so_far: nat,
    pub squares: Option<GridView>,
}

impl View for CAState {
    type V = CAStateView;

    closed spec fn view(&self) -> CAStateView {
        CAStateView {
            generations_so_far: self.generations_so_far as nat,
            squares: match self.squares {
                Some(grid) => Some(grid@),
                None => None,
            },
        }
    }
}

impl Clone for CAState {
    fn clone(&self) -> (copy: CAState)
        ensures
            copy@ == self@,
    {
        CAState {
            generations_so_far: self.generations_so_far,
            squares: match &self.squares {
                Some(grid) => Some(grid.clone()),
                None => None,
            },
        }
    }
}

/// A cellular automaton: its two settings, which are open to all, and
/// what it keeps to itself, the number of generations run on the current
/// grid and the grid.
#[derive(Debug, PartialEq, Eq, PartialOrd, Ord, Hash)]
pub struct CA {
    /// Moore neighbourhood size: squares within this distance count as
    /// neighbours.
    pub neighborhood_size: usize,
    /// Number of wall squares in the neighbourhood at which a square turns
    /// to wall.
    pub neighborhood_threshold: usize,
    /// The generations run and the grid, which only the automaton itself
    /// changes.
    pub state: CAState,
}

impl View for CA {
    type V = CAView;

    /// The two settings are the two fields; the rest is what the state
    /// holds.
    open spec fn view(&self) -> CAView {
        CAView {
            neighborhood_size: self.neighborhood_size as nat,
            neighborhood_threshold: self.neighborhood_threshold as nat,
            generations_so_far: self.state@.generations_so_far,
            squares: self.state@.squares,
        }
    }
}

impl Clone for CA {
    fn clone(&self) -> (copy: CA)
        ensures
            copy@ == self@,
    {
        CA {
            neighborhood_size: self.neighborhood_size,
            neighborhood_threshold: self.neighborhood_threshold,
            state: self.state.clone(),
        }
    }
}

impl Default for CA {
    /// Size 1 and threshold 5, with no grid.
    fn default() -> (ca: CA)
        ensures
            ca@ == (CAView {
                neighborhood_size: 1,
                neighborhood_threshold: 5,
                generations_so_far: 0,
                squares: None,
            }),
    {
        CA {
            neighborhood_size: 1,
            neighborhood_threshold: 5,
            state: CAState { generations_so_far: 0, squares: None },
        }
    }
}

impl CA {
    /// An automaton with the given settings and no grid.
    pub fn new(neighborhood_size: usize, neighborhood_threshold: usize) -> (ca: CA)
        ensures
            ca@ == (CAView {
                neighborhood_size: neighborhood_size as nat,
                neighborhood_threshold: neighborhood_threshold as nat,
                generations_so_far: 0,
                squares: None,
            }),
    {
        CA {
            neighborhood_size,
            neighborhood_threshold,
            state: CAState { generations_so_far: 0, squares: None },
        }
    }

    /// How many generations have run on the grid that is set.
    pub fn generations_so_far(&self) -> (n: &usize)
        ensures
            *n == self@.generations_so_far,
    {
        &self.state.generations_so_far
    }

    /// The grid, if one is set.
    pub fn squares(&self) -> (grid: &Option<SquareGrid>)
        ensures
            grid is Some == self@.squares is Some,
            grid matches Some(g) ==> self@.squares == Some(g@),
    {
        &self.state.squares
    }

    /// Sets the grid to work on and starts counting generations anew.
    pub fn set_squares(&mut self, squares: SquareGrid)
        ensures
            final(self)@ == (CAView {
                squares: Some(squares@),
                generations_so_far: 0,
                ..old(self)@
            }),
    {
        self.state.squares = Some(squares);
        self.state.generations_so_far = 0;
    }

    /// The automaton with the given grid set and no generation run.
    pub fn with_squares(self, squares: SquareGrid) -> (ca: CA)
        ensures
            ca@ == (CAView { squares: Some(squares@), generations_so_far: 0, ..self@ }),
    {
        CA {
            neighborhood_size: self.neighborhood_size,
            neighborhood_threshold: self.neighborhood_threshold,
            state: CAState { generations_so_far: 0, squares: Some(squares) },
        }
    }

    /// The grid, if one is set.
    pub fn get_squares(&self) -> (grid: &Option<SquareGrid>)
        ensures
            grid is Some == self@.squares is Some,
            grid matches Some(g) ==> self@.squares == Some(g@),
    {
        &self.state.squares
    }

    /// Counts the neighbours of (`row`, `col`) that are of class `target`;
    /// `None` only where no grid is set. The square at (`row`, `col`)
    /// itself is not counted. Where the edge of the grid cuts the
    /// neighbourhood off, three are added for each such side, so that the
    /// outermost squares tend to stay walls. An address in the
    /// neighbourhood that names no square is passed over.
    pub fn neighbor_count(&self, row: usize, col: usize, target: CAC) -> (count: Option<usize>)
        ensures
            count is Some == self@.squares is Some,
            self@.squares matches Some(grid) ==> count == Some(
                capped(
                    neighbor_total(
                        grid,
                        self@.neighborhood_size as int,
                        row as int,
                        col as int,
                        target,
                    ),
                ),
            ),
    {
        match &self.state.squares {
            Some(squares) => {
                let ghost grid = squares@;
                let ghost size = self.neighborhood_size as int;
                let size = self.neighborhood_size;
                let rows = *squares.rows();
                let cols = *squares.cols();
                let mut target_count: usize = 0;
                let low_row: usize = if row < size {
                    target_count += 3;
                    0
                } else {
                    row - size
                };
                let low_col: usize = if col < size {
                    target_count += 3;
                    0
                } else {
                    col - size
                };
                let end_row: usize = if size >= rows || row >= rows - size {
                    target_count += 3;
                    rows
                } else {
                    row + size + 1
                };
                let end_col: usize = if size >= cols || col >= cols - size {
                    target_count += 3;
                    cols
                } else {
                    col + size + 1
                };
                assert(target_count == edge_bonus(grid, size as int, row as int, col as int));
                assert(low_row == window_start(row as int, size as int));
                assert(low_col == window_start(col as int, size as int));
                assert(end_row == window_end(row as int, size as int, grid.rows as int));
                assert(end_col == window_end(col as int, size as int, grid.cols as int));
                let ghost bonus = target_count as int;
                let mut col_idx: usize = low_col;
                while col_idx < end_col
                    invariant
                        grid == squares@,
                        bonus >= 0,
                        low_col <= col_idx,
                        col_idx <= end_col || col_idx == low_col,
                        low_row == window_start(row as int, size as int),
                        end_row == window_end(row as int, size as int, grid.rows as int),
                        target_count == capped(
                            bonus + window_votes(
                                grid,
                                size as int,
                                row as int,
                                col as int,
                                low_col as int,
                                col_idx as int,
                                target,
                            ),
                        ),
                    decreases end_col - col_idx,
                {
                    let ghost before = bonus + window_votes(
                        grid,
                        size as int,
                        row as int,
                        col as int,
                        low_col as int,
                        col_idx as int,
                        target,
                    );
                    proof {
                        lemma_window_nonnegative(
                            grid,
                            size as int,
                            row as int,
                            col as int,
                            low_col as int,
                            col_idx as int,
                            target,
                        );
                    }
                    let mut row_idx: usize = low_row;
                    while row_idx < end_row
                        invariant
                            grid == squares@,
                            before >= 0,
                            low_row <= row_idx,
                            row_idx <= end_row || row_idx == low_row,
                            target_count == capped(
                                before + column_votes(
                                    grid,
                                    row as int,
                                    col as int,
                                    col_idx as int,
                                    low_row as int,
                                    row_idx as int,
                                    target,
                                ),
                            ),
                        decreases end_row - row_idx,
                    {
                        proof {
                            lemma_column_nonnegative(
                                grid,
                                row as int,
                                col as int,
                                col_idx as int,
                                low_row as int,
                                row_idx as int,
                                target,
                            );
                        }
                        if !(row_idx == row && col_idx == col) && squares.has_square(
                            &row_idx,
                            &col_idx,
                        ) {
                            let square = squares.get(&row_idx, &col_idx);
                            if CAC::classify(*square.color()).same_as(&target) {
                                if target_count < usize::MAX {
                                    target_count += 1;
                                }
                            }
                        }
                        row_idx += 1;
                    }
                    col_idx += 1;
                }
                Some(target_count)
            },
            None => None,
        }
    }

    /// The neighbour count of every address at once, row by row: the count
    /// for row `r` and column `c` stands at place `r * cols + c`. `None`
    /// only where no grid is set.
    pub fn all_neighbor_count(&self, target: CAC) -> (counts: Option<Vec<usize>>)
        ensures
            counts is Some == self@.squares is Some,
            (self@.squares, counts) matches (Some(grid), Some(list)) ==> {
                &&& list@.len() == grid.rows * grid.cols
                &&& forall|k: int|
                    0 <= k < list@.len() ==> #[trigger] list@[k] == capped(
                        neighbor_total(
                            grid,
                            self@.neighborhood_size as int,
                            k / (grid.cols as int),
                            k % (grid.cols as int),
                            target,
                        ),
                    )
            },
    {
        match &self.state.squares {
            Some(squares) => {
                let ghost grid = squares@;
                let ghost size = self.neighborhood_size as int;
                let rows = *squares.rows();
                let cols = *squares.cols();
                let mut neighbor_count_all: Vec<usize> = Vec::new();
                let mut row_idx: usize = 0;
                while row_idx < rows
                    invariant
                        self.state.squares == Some(*squares),
                        grid == squares@,
                        size == self@.neighborhood_size,
                        rows == grid.rows,
                        cols == grid.cols,
                        row_idx <= rows,
                        neighbor_count_all@.len() == row_idx * cols,
                        forall|k: int|
                            0 <= k < neighbor_count_all@.len() ==> #[trigger] neighbor_count_all@[k]
                                == capped(
                                neighbor_total(grid, size, k / (cols as int), k % (cols as int), target),
                            ),
                    decreases rows - row_idx,
                {
                    let mut col_idx: usize = 0;
                    while col_idx < cols
                        invariant
                            self.state.squares == Some(*squares),
                            grid == squares@,
                            size == self@.neighborhood_size,
                            rows == grid.rows,
                            cols == grid.cols,
                            row_idx < rows,
                            col_idx <= cols,
                            neighbor_count_all@.len() == row_idx * cols + col_idx,
                            forall|k: int|
                                0 <= k < neighbor_count_all@.len()
                                    ==> #[trigger] neighbor_count_all@[k] == capped(
                                    neighbor_total(
                                        grid,
                                        size,
                                        k / (cols as int),
                                        k % (cols as int),
                                        target,
                                    ),
                                ),
                        decreases cols - col_idx,
                    {
                        let count = match self.neighbor_count(row_idx, col_idx, target) {
                            Some(count) => count,
                            None => {
                                return None;
                            },
                        };
                        proof {
                            let k = row_idx * cols + col_idx;
                            vstd::arithmetic::div_mod::lemma_fundamental_div_mod_converse(
                                k,
                                cols as int,
                                row_idx as int,
                                col_idx as int,
                            );
                        }
                        neighbor_count_all.push(count);
                        col_idx += 1;
                    }
                    assert((row_idx + 1) * cols == row_idx * cols + cols) by (nonlinear_arith);
                    row_idx += 1;
                }
                Some(neighbor_count_all)
            },
            None => None,
        }
    }

    /// Runs a single generation on the grid and says whether it did: it
    /// does wherever a grid is set. Every wall or floor square is
    /// recoloured by the count of wall neighbours around the address that
    /// judges it, all counts being taken before any square changes;
    /// squares of other classes stay as they are. On a grid that is well
    /// addressed every square is judged by the one address that names it,
    /// and so by its own neighbourhood. On any other grid a square that
    /// several addresses name is judged by the last of them, and one that
    /// none names by the count that stands at its own place among the
    /// counts of all addresses.
    pub fn run_generation(&mut self) -> (ran: bool)
        requires
            old(self)@.generations_so_far < usize::MAX,
        ensures
            ran == old(self)@.can_step(),
            ran ==> final(self)@ == old(self)@.step(),
            !ran ==> final(self)@ == old(self)@,
            ran && old(self)@.squares->Some_0.well_addressed() ==> judged_by_address(
                old(self)@.squares->Some_0,
                final(self)@.squares->Some_0,
                old(self)@.neighborhood_size,
                old(self)@.neighborhood_threshold,
            ),
    {
        let counts = match self.all_neighbor_count(CAC::Wall) {
            Some(counts) => counts,
            None => {
                return false;
            },
        };
        let (mut cur_squares, rows, cols) = match &self.state.squares {
            Some(squares) => (squares.clone(), *squares.rows(), *squares.cols()),
            None => {
                return false;
            },
        };
        let ghost grid = cur_squares@;
        let ghost size = self@.neighborhood_size;
        let ghost threshold = self@.neighborhood_threshold;
        let threshold_word = self.neighborhood_threshold;
        let total = counts.len();
        let mut place: usize = 0;
        while place < cur_squares.len()
            invariant
                place <= grid.squares.len(),
                self@.squares == Some(grid),
                size == self@.neighborhood_size,
                rows == grid.rows,
                cols == grid.cols,
                total == rows * cols,
                counts@.len() == rows * cols,
                threshold_word == threshold,
                grid.same_layout(cur_squares@),
                forall|j: int|
                    0 <= j < counts@.len() ==> #[trigger] counts@[j] == capped(
                        neighbor_total(
                            grid,
                            size as int,
                            j / (grid.cols as int),
                            j % (grid.cols as int),
                            CAC::Wall,
                        ),
                    ),
                forall|i: int|
                    0 <= i < place ==> (#[trigger] cur_squares@.squares[i]).color
                        == next_color_upto(grid, size, threshold, i, 0),
                forall|i: int|
                    place <= i < grid.squares.len() ==> (#[trigger] cur_squares@.squares[i]).color
                        == grid.squares[i].color,
            decreases grid.squares.len() - place,
        {
            let ghost before = cur_squares@;
            let ghost address = fallback_address(grid, place as int);
            match CAC::classify(*cur_squares.square_at(place).color()) {
                CAC::Floor | CAC::Wall => {
                    let this_neighbor_count = if place < total {
                        assert(cols > 0) by (nonlinear_arith)
                            requires
                                place < rows * cols,
                        ;
                        counts[place]
                    } else {
                        let (row, col) = if cols > 0 {
                            (place / cols, place % cols)
                        } else {
                            (place, 0)
                        };
                        match self.neighbor_count(row, col, CAC::Wall) {
                            Some(count) => count,
                            None => 0,
                        }
                    };
                    proof {
                        lemma_neighbor_total_nonnegative(
                            grid,
                            size as int,
                            address.0,
                            address.1,
                            CAC::Wall,
                        );
                    }
                    if this_neighbor_count >= threshold_word {
                        cur_squares.set_color_at(place, CAC::Wall.color());
                    } else {
                        cur_squares.set_color_at(place, CAC::Floor.color());
                    }
                },
                _ => {},
            }
            proof {
                assert forall|i: int| 0 <= i < place implies (
                #[trigger] cur_squares@.squares[i]).color == next_color_upto(
                    grid,
                    size,
                    threshold,
                    i,
                    0,
                ) by {
                    assert(cur_squares@.squares[i] == before.squares[i]);
                }
                assert forall|i: int| 0 <= i < grid.squares.len() implies (
                #[trigger] grid.squares[i]).same_place(cur_squares@.squares[i]) by {
                    assert(grid.squares[i].same_place(before.squares[i]));
                }
            }
            place += 1;
        }
        let mut k: usize = 0;
        let mut row: usize = 0;
        while row < rows
            invariant
                row <= rows,
                rows == grid.rows,
                cols == grid.cols,
                k == row * cols,
                total == rows * cols,
                counts@.len() == rows * cols,
                threshold_word == threshold,
                grid.same_layout(cur_squares@),
                forall|j: int|
                    0 <= j < counts@.len() ==> #[trigger] counts@[j] == capped(
                        neighbor_total(
                            grid,
                            size as int,
                            j / (grid.cols as int),
                            j % (grid.cols as int),
                            CAC::Wall,
                        ),
                    ),
                forall|i: int|
                    0 <= i < grid.squares.len() ==> (#[trigger] cur_squares@.squares[i]).color
                        == next_color_upto(grid, size, threshold, i, k as nat),
            decreases rows - row,
        {
            let mut col: usize = 0;
            while col < cols
                invariant
                    row < rows,
                    col <= cols,
                    rows == grid.rows,
                    cols == grid.cols,
                    k == row * cols + col,
                    total == rows * cols,
                    counts@.len() == rows * cols,
                    threshold_word == threshold,
                    grid.same_layout(cur_squares@),
                    forall|j: int|
                        0 <= j < counts@.len() ==> #[trigger] counts@[j] == capped(
                            neighbor_total(
                                grid,
                                size as int,
                                j / (grid.cols as int),
                                j % (grid.cols as int),
                                CAC::Wall,
                            ),
                        ),
                    forall|i: int|
                        0 <= i < grid.squares.len() ==> (#[trigger] cur_squares@.squares[i]).color
                            == next_color_upto(grid, size, threshold, i, k as nat),
                decreases cols - col,
            {
                let ghost before = cur_squares@;
                let ghost here = grid.index_of(row as int, col as int);
                proof {
                    assert(0 <= row * cols) by (nonlinear_arith);
                    assert(row * cols + col < rows * cols) by (nonlinear_arith)
                        requires
                            row < rows,
                            col < cols,
                    ;
                    vstd::arithmetic::div_mod::lemma_fundamental_div_mod_converse(
                        k as int,
                        cols as int,
                        row as int,
                        col as int,
                    );
                    assert((k + 1) as nat - 1 == k);
                    assert(before.index_of(row as int, col as int) == here);
                    lemma_neighbor_total_nonnegative(
                        grid,
                        size as int,
                        row as int,
                        col as int,
                        CAC::Wall,
                    );
                }
                let this_neighbor_count = counts[k];
                if cur_squares.has_square(&row, &col) {
                    let square = cur_squares.get_mut(&row, &col);
                    match CAC::classify(*square.color()) {
                        CAC::Floor | CAC::Wall => {
                            if this_neighbor_count >= threshold_word {
                                square.set_color(CAC::Wall.color());
                            } else {
                                square.set_color(CAC::Floor.color());
                            }
                        },
                        _ => {},
                    }
                }
                proof {
                    assert forall|i: int| 0 <= i < grid.squares.len() implies (
                    #[trigger] cur_squares@.squares[i]).color == next_color_upto(
                        grid,
                        size,
                        threshold,
                        i,
                        (k + 1) as nat,
                    ) by {
                        assert(before.squares[i].color == next_color_upto(
                            grid,
                            size,
                            threshold,
                            i,
                            k as nat,
                        ));
                    }
                    assert forall|i: int| 0 <= i < grid.squares.len() implies (
                    #[trigger] grid.squares[i]).same_place(cur_squares@.squares[i]) by {
                        assert(grid.squares[i].same_place(before.squares[i]));
                    }
                }
                k += 1;
                col += 1;
            }
            assert((row + 1) * cols == row * cols + cols) by (nonlinear_arith);
            row += 1;
        }
        assert(cur_squares@ == next_grid(grid, size, threshold)) by {
            assert(cur_squares@.squares =~= next_grid(grid, size, threshold).squares);
        }
        proof {
            if grid.well_addressed() {
                lemma_generation_by_address(grid, size, threshold);
            }
        }
        self.state.squares = Some(cur_squares);
        self.state.generations_so_far += 1;
        true
    }

    /// The size of the neighbourhood: squares within this distance count
    /// as neighbours.
    pub fn neighborhood_size(&self) -> (n: usize)
        ensures
            n == self@.neighborhood_size,
    {
        self.neighborhood_size
    }

    /// The number of wall neighbours at which a square turns to wall.
    pub fn neighborhood_threshold(&self) -> (n: usize)
        ensures
            n == self@.neighborhood_threshold,
    {
        self.neighborhood_threshold
    }

    /// Hands the grid out and leaves the automaton without one.
    pub fn pop_squares(&mut self) -> (grid: Option<SquareGrid>)
        ensures
            grid is Some == old(self)@.squares is Some,
            grid matches Some(g) ==> old(self)@.squares == Some(g@),
            final(self)@ == (CAView { squares: None, ..old(self)@ }),
    {
        self.state.squares.take()
    }
}

} // verus!
