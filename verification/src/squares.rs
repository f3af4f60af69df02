//! The grid of squares that every generator works on.

use vstd::prelude::*;

verus! {

/// What a [`Square`] is, as plain mathematics: where it lies in the image,
/// how large it is, and the colour it carries.
pub struct SquareView {
    pub x: nat,
    pub y: nat,
    pub width: nat,
    pub height: nat,
    pub color: (u8, u8, u8),
}

impl SquareView {
    /// The square lies wholly inside an image of the given size.
    pub open spec fn fits(self, img_width: nat, img_height: nat) -> bool {
        self.x + self.width <= img_width && self.y + self.height <= img_height
    }

    /// The same square carrying another colour.
    pub open spec fn recolored(self, color: (u8, u8, u8)) -> SquareView {
        SquareView { color, ..self }
    }

    /// Both squares cover the same pixels; their colours may differ.
    pub open spec fn same_place(self, other: SquareView) -> bool {
        self.x == other.x && self.y == other.y && self.width == other.width && self.height
            == other.height
    }
}

/// An atomic rectangle of pixels. `x` and `y` are the pixel coordinates of its
/// upper left corner within the full image it is a part of.
#[derive(Debug, PartialEq, Eq, Copy, Clone, PartialOrd, Ord, Hash)]
pub struct Square {
    x: usize,
    y: usize,
    width: usize,
    height: usize,
    color: (u8, u8, u8),
}

impl View for Square {
    type V = SquareView;

    closed spec fn view(&self) -> SquareView {
        SquareView {
            x: self.x as nat,
            y: self.y as nat,
            width: self.width as nat,
            height: self.height as nat,
            color: self.color,
        }
    }
}

impl Square {
    /// A square at the given place, in the placeholder colour cyan.
    pub fn new(x: usize, y: usize, width: usize, height: usize) -> (s: Square)
        ensures
            s@ == (SquareView {
                x: x as nat,
                y: y as nat,
                width: width as nat,
                height: height as nat,
                color: (0u8, 255u8, 255u8),
            }),
    {
        Square { x, y, width, height, color: (0, 255, 255) }
    }

    /// The same square with its colour replaced.
    pub fn with_color(self, color: (u8, u8, u8)) -> (s: Square)
        ensures
            s@ == self@.recolored(color),
    {
        Square { color, ..self }
    }

    /// Replaces the colour; place and size stay as they are.
    pub fn set_color(&mut self, color: (u8, u8, u8))
        ensures
            final(self)@ == old(self)@.recolored(color),
    {
        self.color = color;
    }

    /// The column of the leftmost pixels of the square.
    pub fn x(&self) -> (r: &usize)
        ensures
            *r == self@.x,
    {
        &self.x
    }

    /// The row of the topmost pixels of the square.
    pub fn y(&self) -> (r: &usize)
        ensures
            *r == self@.y,
    {
        &self.y
    }

    /// How many pixels the square is wide.
    pub fn width(&self) -> (r: &usize)
        ensures
            *r == self@.width,
    {
        &self.width
    }

    /// How many pixels the square is high.
    pub fn height(&self) -> (r: &usize)
        ensures
            *r == self@.height,
    {
        &self.height
    }

    /// The colour of the square: red, green and blue.
    pub fn color(&self) -> (r: &(u8, u8, u8))
        ensures
            *r == self@.color,
    {
        &self.color
    }

    /// Two squares with the same view are the same square.
    pub proof fn lemma_view_injective(a: Square, b: Square)
        requires
            a@ == b@,
        ensures
            a == b,
    {
    }
}

/// The views of a run of squares, in the same order.
pub open spec fn square_views(squares: Seq<Square>) -> Seq<SquareView> {
    squares.map_values(|s: Square| s@)
}

/// Every square of the run lies inside an image of the given size.
pub open spec fn all_fit(squares: Seq<SquareView>, img_width: nat, img_height: nat) -> bool {
    forall|i: int| 0 <= i < squares.len() ==> #[trigger] squares[i].fits(img_width, img_height)
}

/// `i` is the place of the first square that does not fit.
pub open spec fn is_first_misfit(
    squares: Seq<SquareView>,
    img_width: nat,
    img_height: nat,
    i: int,
) -> bool {
    &&& 0 <= i < squares.len()
    &&& !squares[i].fits(img_width, img_height)
    &&& all_fit(squares.take(i), img_width, img_height)
}

/// The distinct x origins among the squares.
pub open spec fn origins_x(squares: Seq<SquareView>) -> Set<nat> {
    squares.map_values(|s: SquareView| s.x).to_set()
}

/// The distinct y origins among the squares.
pub open spec fn origins_y(squares: Seq<SquareView>) -> Set<nat> {
    squares.map_values(|s: SquareView| s.y).to_set()
}

/// What a [`SquareGrid`] is, as plain mathematics.
pub struct GridView {
    pub squares: Seq<SquareView>,
    pub img_width: nat,
    pub img_height: nat,
    pub rows: nat,
    pub cols: nat,
}

impl GridView {
    /// Every square lies inside the image, and the row and column counts are
    /// the numbers of distinct y and x origins.
    pub open spec fn wf(self) -> bool {
        &&& all_fit(self.squares, self.img_width, self.img_height)
        &&& self.rows == origins_y(self.squares).len()
        &&& self.cols == origins_x(self.squares).len()
    }

    /// Where the square addressed as (`row`, `col`) lies in `squares`.
    pub open spec fn index_of(self, row: int, col: int) -> int {
        col * self.img_width + row
    }

    /// (`row`, `col`) addresses a square of this grid.
    pub open spec fn has(self, row: int, col: int) -> bool {
        0 <= row && 0 <= col && self.index_of(row, col) < self.squares.len()
    }

    /// (`row`, `col`) is an address of this grid, a row below the number
    /// of rows and a column below the number of columns, and it names a
    /// square.
    pub open spec fn names(self, row: int, col: int) -> bool {
        0 <= row < self.rows && 0 <= col < self.cols && self.index_of(row, col)
            < self.squares.len()
    }

    /// Some address of the grid names the square at place `i`.
    pub open spec fn is_named(self, i: int) -> bool {
        exists|row: int, col: int| self.names(row, col) && #[trigger] self.index_of(row, col) == i
    }

    /// Every square of the grid is named by exactly one address of the
    /// grid. Where this does not hold, whatever goes through the grid
    /// address by address passes over the squares that no address names
    /// and meets more than once those that several name.
    pub open spec fn well_addressed(self) -> bool {
        &&& forall|i: int| 0 <= i < self.squares.len() ==> #[trigger] self.is_named(i)
        &&& forall|row: int, col: int, other_row: int, other_col: int|
            self.names(row, col) && self.names(other_row, other_col) && #[trigger] self.index_of(
                row,
                col,
            ) == #[trigger] self.index_of(other_row, other_col) ==> row == other_row && col
                == other_col
    }

    /// A grid with as many rows as its image is wide, and as many squares
    /// as rows times columns, is well addressed: so is every grid of
    /// squares one pixel wide that fills a square image.
    pub proof fn lemma_well_addressed(self)
        requires
            self.rows == self.img_width,
            self.squares.len() == self.rows * self.cols,
        ensures
            self.well_addressed(),
    {
        let rows = self.rows as int;
        let cols = self.cols as int;
        assert forall|i: int| 0 <= i < self.squares.len() implies #[trigger] self.is_named(i) by {
            assert(rows > 0) by (nonlinear_arith)
                requires
                    0 <= i < rows * cols,
                    0 <= rows,
            ;
            let row = i % rows;
            let col = i / rows;
            vstd::arithmetic::div_mod::lemma_fundamental_div_mod(i, rows);
            assert(rows * col == col * rows) by (nonlinear_arith);
            assert(0 <= col < cols) by (nonlinear_arith)
                requires
                    i == col * rows + row,
                    0 <= row < rows,
                    0 <= i < rows * cols,
            ;
            assert(self.names(row, col) && self.index_of(row, col) == i);
        }
        assert forall|row: int, col: int, other_row: int, other_col: int|
            self.names(row, col) && self.names(other_row, other_col) && #[trigger] self.index_of(
                row,
                col,
            ) == #[trigger] self.index_of(other_row, other_col) implies row == other_row && col
            == other_col by {
            let i = self.index_of(row, col);
            vstd::arithmetic::div_mod::lemma_fundamental_div_mod_converse(i, rows, col, row);
            vstd::arithmetic::div_mod::lemma_fundamental_div_mod_converse(
                i,
                rows,
                other_col,
                other_row,
            );
        }
    }

    /// The colours of the squares, in order.
    pub open spec fn colors(self) -> Seq<(u8, u8, u8)> {
        self.squares.map_values(|s: SquareView| s.color)
    }

    /// The same grid with the colour of each square replaced by the colour
    /// at the same place in `colors`.
    pub open spec fn recolored(self, colors: Seq<(u8, u8, u8)>) -> GridView {
        GridView {
            squares: Seq::new(self.squares.len(), |i: int| self.squares[i].recolored(colors[i])),
            ..self
        }
    }

    /// The two grids differ at most in the colours of their squares.
    pub open spec fn same_layout(self, other: GridView) -> bool {
        &&& self.img_width == other.img_width
        &&& self.img_height == other.img_height
        &&& self.rows == other.rows
        &&& self.cols == other.cols
        &&& self.squares.len() == other.squares.len()
        &&& forall|i: int|
            0 <= i < self.squares.len() ==> (#[trigger] self.squares[i]).same_place(
                other.squares[i],
            )
    }

    /// A grid that differs from a well-formed one only in colours is
    /// well-formed too.
    pub proof fn lemma_same_layout_wf(self, other: GridView)
        requires
            self.wf(),
            self.same_layout(other),
        ensures
            other.wf(),
    {
        assert(self.squares.map_values(|s: SquareView| s.x) =~= other.squares.map_values(
            |s: SquareView| s.x,
        ));
        assert(self.squares.map_values(|s: SquareView| s.y) =~= other.squares.map_values(
            |s: SquareView| s.y,
        ));
        assert forall|i: int| 0 <= i < other.squares.len() implies #[trigger] other.squares[i].fits(
            other.img_width,
            other.img_height,
        ) by {
            assert(self.squares[i].fits(self.img_width, self.img_height));
            assert(self.squares[i].same_place(other.squares[i]));
        }
    }

    /// Recolouring keeps the layout, and with it a well-formed grid
    /// well-formed.
    pub proof fn lemma_recolored_same_layout(self, colors: Seq<(u8, u8, u8)>)
        ensures
            self.same_layout(self.recolored(colors)),
            self.wf() ==> self.recolored(colors).wf(),
    {
        if self.wf() {
            self.lemma_same_layout_wf(self.recolored(colors));
        }
    }
}

/// The text of the complaint about a square that does not fit its image:
/// the square's place, size and colour, its furthest reach, and the image's
/// size, as [`describe_misfit`] words it.
pub uninterp spec fn misfit_text(
    x: usize,
    y: usize,
    width: usize,
    height: usize,
    reach_x: u128,
    reach_y: u128,
    img_width: usize,
    img_height: usize,
    red: u8,
    green: u8,
    blue: u8,
) -> Seq<char>;

/// Words the complaint about a square that does not fit, with `format!`.
/// The contract only names the text: the same numbers give the same text.
#[verifier::external_body]
fn describe_misfit(
    x: usize,
    y: usize,
    width: usize,
    height: usize,
    reach_x: u128,
    reach_y: u128,
    img_width: usize,
    img_height: usize,
    red: u8,
    green: u8,
    blue: u8,
) -> (text: String)
    ensures
        text@ == misfit_text(
            x,
            y,
            width,
            height,
            reach_x,
            reach_y,
            img_width,
            img_height,
            red,
            green,
            blue,
        ),
{
    format!(
        "Square with x:{0}, y:{1}, w:{2}, h:{3} has invalid bounds.\nFurthest x,y reach of square is ({4},{5}), while image has width of {6} and height of {7}.\nThe color of this square is {8:?}.",
        x, y, width, height, reach_x, reach_y, img_width, img_height, (red, green, blue)
    )
}

/// The values noted so far, as a set of naturals.
spec fn noted(track: Seq<usize>) -> Set<nat> {
    track.map_values(|v: usize| v as nat).to_set()
}

/// Noting a value only where it is new keeps the notes free of repeats, and
/// adds exactly that value to what was noted.
proof fn lemma_note(track: Seq<usize>, value: usize)
    requires
        track.no_duplicates(),
    ensures
        track.contains(value) ==> noted(track) =~= noted(track).insert(value as nat),
        !track.contains(value) ==> track.push(value).no_duplicates() && noted(track.push(value))
            =~= noted(track).insert(value as nat),
{
    let nats = track.map_values(|v: usize| v as nat);
    if track.contains(value) {
        let j = choose|j: int| 0 <= j < track.len() && track[j] == value;
        assert(nats[j] == value as nat);
        assert(nats.contains(value as nat));
    } else {
        let longer = track.push(value);
        let longer_nats = longer.map_values(|v: usize| v as nat);
        assert(longer_nats =~= nats.push(value as nat));
        nats.lemma_push_to_set_commute(value as nat);
    }
}

/// Notes free of repeats hold as many values as they are long.
proof fn lemma_noted_count(track: Seq<usize>)
    requires
        track.no_duplicates(),
    ensures
        noted(track).len() == track.len(),
{
    let nats = track.map_values(|v: usize| v as nat);
    assert(nats.no_duplicates()) by {
        assert forall|i: int, j: int|
            0 <= i < nats.len() && 0 <= j < nats.len() && i != j implies nats[i] != nats[j] by {
            assert(track[i] != track[j]);
        }
    }
    nats.unique_seq_to_set();
}

/// One more square adds its origins to the distinct origins.
proof fn lemma_origins_push(squares: Seq<SquareView>, square: SquareView)
    ensures
        origins_x(squares.push(square)) =~= origins_x(squares).insert(square.x),
        origins_y(squares.push(square)) =~= origins_y(squares).insert(square.y),
{
    let xs = squares.map_values(|s: SquareView| s.x);
    let ys = squares.map_values(|s: SquareView| s.y);
    assert(squares.push(square).map_values(|s: SquareView| s.x) =~= xs.push(square.x));
    assert(squares.push(square).map_values(|s: SquareView| s.y) =~= ys.push(square.y));
    xs.lemma_push_to_set_commute(square.x);
    ys.lemma_push_to_set_commute(square.y);
}

/// Whether `value` occurs in `seen`.
fn seen_before(seen: &Vec<usize>, value: usize) -> (found: bool)
    ensures
        found == seen@.contains(value),
{
    let mut i: usize = 0;
    while i < seen.len()
        invariant
            i <= seen.len(),
            forall|j: int| 0 <= j < i ==> seen@[j] != value,
        decreases seen.len() - i,
    {
        if seen[i] == value {
            return true;
        }
        i += 1;
    }
    false
}

/// All the squares that make up a full image. Once loaded into a
/// `SquareGrid`, the recorded image dimensions cannot change, nor can the
/// place of any square: a record is kept of the dimensions of the image at
/// the time the squares were taken.
#[derive(Debug, PartialEq, Eq, PartialOrd, Ord, Hash)]
pub struct SquareGrid {
    squares: Vec<Square>,
    img_width: usize,
    img_height: usize,
    rows: usize,
    cols: usize,
}

impl View for SquareGrid {
    type V = GridView;

    closed spec fn view(&self) -> GridView {
        GridView {
            squares: square_views(self.squares@),
            img_width: self.img_width as nat,
            img_height: self.img_height as nat,
            rows: self.rows as nat,
            cols: self.cols as nat,
        }
    }
}

impl Clone for SquareGrid {
    fn clone(&self) -> (copy: SquareGrid)
        ensures
            copy@ == self@,
    {
        let copy = SquareGrid {
            squares: self.squares.clone(),
            img_width: self.img_width,
            img_height: self.img_height,
            rows: self.rows,
            cols: self.cols,
        };
        assert(square_views(copy.squares@) =~= square_views(self.squares@));
        copy
    }
}

impl SquareGrid {
    /// Builds a grid from squares and the dimensions of the image they were
    /// taken from. Every square is checked against those dimensions, in
    /// order; the first one that reaches past them is handed back with a
    /// complaint. Overlap between squares and full cover of the image are
    /// not checked.
    pub fn from_squares(squares: Vec<Square>, img_width: usize, img_height: usize) -> (res: Result<
        SquareGrid,
        (Square, String),
    >)
        ensures
            res is Ok <==> all_fit(square_views(squares@), img_width as nat, img_height as nat),
            res matches Ok(grid) ==> {
                &&& grid@.squares == square_views(squares@)
                &&& grid@.img_width == img_width
                &&& grid@.img_height == img_height
                &&& grid@.wf()
            },
            res matches Err((square, complaint)) ==> exists|i: int|
                {
                    &&& #[trigger] is_first_misfit(
                        square_views(squares@),
                        img_width as nat,
                        img_height as nat,
                        i,
                    )
                    &&& square == squares@[i]
                    &&& complaint@ == misfit_text(
                        square@.x as usize,
                        square@.y as usize,
                        square@.width as usize,
                        square@.height as usize,
                        (square@.x + square@.width) as u128,
                        (square@.y + square@.height) as u128,
                        img_width,
                        img_height,
                        square@.color.0,
                        square@.color.1,
                        square@.color.2,
                    )
                },
    {
        let ghost views = square_views(squares@);
        let mut x_col_track: Vec<usize> = Vec::new();
        let mut y_row_track: Vec<usize> = Vec::new();
        let mut i: usize = 0;
        while i < squares.len()
            invariant
                i <= squares.len(),
                views == square_views(squares@),
                views.len() == squares.len(),
                all_fit(views.take(i as int), img_width as nat, img_height as nat),
                x_col_track@.no_duplicates(),
                y_row_track@.no_duplicates(),
                noted(x_col_track@) =~= origins_x(views.take(i as int)),
                noted(y_row_track@) =~= origins_y(views.take(i as int)),
            decreases squares.len() - i,
        {
            let square = squares[i];
            assert(views[i as int] == square@);
            let ghost before = views.take(i as int);
            let ghost after = views.take(i + 1);
            assert(after =~= before.push(square@));
            proof {
                lemma_note(x_col_track@, square.x);
                lemma_note(y_row_track@, square.y);
                lemma_origins_push(before, square@);
            }
            if !seen_before(&x_col_track, square.x) {
                x_col_track.push(square.x);
            }
            if !seen_before(&y_row_track, square.y) {
                y_row_track.push(square.y);
            }
            if square.width > img_width || square.x > img_width - square.width || square.height
                > img_height || square.y > img_height - square.height {
                let reach_x = square.x as u128 + square.width as u128;
                let reach_y = square.y as u128 + square.height as u128;
                let complaint = describe_misfit(
                    square.x,
                    square.y,
                    square.width,
                    square.height,
                    reach_x,
                    reach_y,
                    img_width,
                    img_height,
                    square.color.0,
                    square.color.1,
                    square.color.2,
                );
                assert(is_first_misfit(views, img_width as nat, img_height as nat, i as int));
                return Err((square, complaint));
            }
            assert(all_fit(after, img_width as nat, img_height as nat)) by {
                assert forall|j: int| 0 <= j < after.len() implies #[trigger] after[j].fits(
                    img_width as nat,
                    img_height as nat,
                ) by {
                    if j < i {
                        assert(before[j].fits(img_width as nat, img_height as nat));
                    }
                }
            }
            i += 1;
        }
        proof {
            assert(views.take(i as int) =~= views);
            lemma_noted_count(x_col_track@);
            lemma_noted_count(y_row_track@);
        }
        let col_count = x_col_track.len();
        let row_count = y_row_track.len();
        Ok(SquareGrid { squares, img_width, img_height, rows: row_count, cols: col_count })
    }

    /// The squares in order, for reading.
    pub fn iter(&self) -> (squares: std::slice::Iter<'_, Square>)
        ensures
            square_views(vstd::std_specs::slice::into_iter_elts(squares)) == self@.squares,
    {
        let squares = self.squares.iter();
        assert(vstd::std_specs::slice::into_iter_elts(squares) =~= self.squares@);
        squares
    }

    /// The squares in order, for changing them in place. The image
    /// dimensions and the row and column counts stay as they are; the grid
    /// stays well-formed as long as only colours are changed.
    pub fn iter_mut(&mut self) -> (squares: &mut [Square])
        ensures
            square_views(squares@) == old(self)@.squares,
            final(self)@ == (GridView { squares: square_views(final(squares)@), ..old(self)@ }),
    {
        self.squares.as_mut_slice()
    }

    /// How many squares the grid holds.
    pub fn len(&self) -> (n: usize)
        ensures
            n == self@.squares.len(),
    {
        self.squares.len()
    }

    /// The square at place `index` in the order of the squares.
    pub fn square_at(&self, index: usize) -> (square: &Square)
        requires
            index < self@.squares.len(),
        ensures
            square@ == self@.squares[index as int],
    {
        &self.squares[index]
    }

    /// Width of the image that the squares were taken from.
    pub fn img_width(&self) -> (w: &usize)
        ensures
            *w == self@.img_width,
    {
        &self.img_width
    }

    /// Height of the image that the squares were taken from.
    pub fn img_height(&self) -> (h: &usize)
        ensures
            *h == self@.img_height,
    {
        &self.img_height
    }

    /// Number of rows of squares: the number of distinct y origins at the
    /// time the grid was built.
    pub fn rows(&self) -> (n: &usize)
        ensures
            *n == self@.rows,
    {
        &self.rows
    }

    /// Number of columns of squares: the number of distinct x origins at
    /// the time the grid was built.
    pub fn cols(&self) -> (n: &usize)
        ensures
            *n == self@.cols,
    {
        &self.cols
    }

    /// Whether (`row`, `col`) addresses a square of this grid.
    pub fn has_square(&self, row: &usize, col: &usize) -> (found: bool)
        ensures
            found == self@.has(*row as int, *col as int),
    {
        let len = self.squares.len();
        let width = self.img_width;
        if *row >= len {
            assert(*col * width >= 0) by (nonlinear_arith);
            return false;
        }
        if width == 0 || *col == 0 {
            assert(*col * width == 0) by (nonlinear_arith)
                requires
                    width == 0 || *col == 0,
            ;
            return true;
        }
        let room = len - 1 - *row;
        let fits = *col <= room / width;
        proof {
            let c = *col as int;
            let w = width as int;
            let q = room as int / w;
            vstd::arithmetic::div_mod::lemma_fundamental_div_mod(room as int, w);
            if c <= q {
                vstd::arithmetic::mul::lemma_mul_inequality(c, q, w);
                assert(w * q == q * w) by (nonlinear_arith);
            } else {
                vstd::arithmetic::mul::lemma_mul_inequality(q + 1, c, w);
                assert((q + 1) * w == w * q + w) by (nonlinear_arith);
            }
        }
        fits
    }

    /// The square addressed as (`row`, `col`): the one at place
    /// `col * img_width + row` in the order of the squares.
    pub fn get(&self, row: &usize, col: &usize) -> (square: &Square)
        requires
            self@.has(*row as int, *col as int),
        ensures
            square@ == self@.squares[self@.index_of(*row as int, *col as int)],
    {
        assert(self@.squares.len() == self.squares.len());
        assert(0 <= *col * self.img_width <= self@.index_of(*row as int, *col as int)) by (nonlinear_arith)
            requires
                self@.index_of(*row as int, *col as int) == *col * self.img_width + *row,
        ;
        &self.squares[*col * self.img_width + *row]
    }

    /// The square addressed as (`row`, `col`), for changing it in place.
    /// The grid stays well-formed as long as only the colour of the square
    /// is changed.
    pub fn get_mut(&mut self, row: &usize, col: &usize) -> (square: &mut Square)
        requires
            old(self)@.has(*row as int, *col as int),
        ensures
            square@ == old(self)@.squares[old(self)@.index_of(*row as int, *col as int)],
            final(self)@ == (GridView {
                squares: old(self)@.squares.update(
                    old(self)@.index_of(*row as int, *col as int),
                    final(square)@,
                ),
                ..old(self)@
            }),
    {
        assert(self@.squares.len() == self.squares.len());
        assert(0 <= *col * self.img_width <= self@.index_of(*row as int, *col as int)) by (nonlinear_arith)
            requires
                self@.index_of(*row as int, *col as int) == *col * self.img_width + *row,
        ;
        let index = *col * self.img_width + *row;
        assert forall|square: Square|
            square_views(#[trigger] self.squares@.update(index as int, square)) == square_views(
                self.squares@,
            ).update(index as int, square@) by {
            assert(square_views(self.squares@.update(index as int, square)) =~= square_views(
                self.squares@,
            ).update(index as int, square@));
        }
        &mut self.squares[index]
    }

    /// Gives the square at place `index` in the order of the squares
    /// another colour.
    pub fn set_color_at(&mut self, index: usize, color: (u8, u8, u8))
        requires
            index < old(self)@.squares.len(),
        ensures
            final(self)@ == (GridView {
                squares: old(self)@.squares.update(
                    index as int,
                    old(self)@.squares[index as int].recolored(color),
                ),
                ..old(self)@
            }),
    {
        let square = self.squares[index].with_color(color);
        self.squares[index] = square;
        assert(square_views(self.squares@) =~= square_views(old(self).squares@).update(
            index as int,
            square@,
        ));
    }
}

} // verus!
