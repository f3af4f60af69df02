//! Room starts: finding them on a grid, and putting new ones on it.

use crate::room_growth::palette::CRGC;
use crate::room_growth::rooms::RoomFromStart;
use crate::room_growth::rounds::rooms_valid;
use crate::squares::{GridView, SquareGrid};
use vstd::prelude::*;

verus! {

/// The rooms started by the first `n` addresses of the grid, taken row by
/// row and in each row column by column: one room of one square for every
/// address that names a square classified as a room start, numbered in
/// the order in which they are found.
pub open spec fn room_starts_upto(grid: GridView, n: nat) -> Seq<RoomFromStart>
    decreases n,
{
    if n == 0 {
        seq![]
    } else {
        let before = room_starts_upto(grid, (n - 1) as nat);
        let row = (n - 1) / (grid.cols as int);
        let col = (n - 1) % (grid.cols as int);
        if grid.has(row, col) && CRGC::of(grid.squares[grid.index_of(row, col)].color)
            == CRGC::RoomStart {
            before.push(
                RoomFromStart {
                    x: col as usize,
                    y: row as usize,
                    w: 1,
                    h: 1,
                    index: before.len() as usize,
                    init_x: col as usize,
                    init_y: row as usize,
                    allowed_growth: true,
                },
            )
        } else {
            before
        }
    }
}

/// The rooms started by the room starts of the grid.
pub open spec fn room_starts(grid: GridView) -> Seq<RoomFromStart> {
    room_starts_upto(grid, grid.rows * grid.cols)
}

/// Finds the room starts of the grid and starts a room on each.
pub(crate) fn find_room_starts(squares: &SquareGrid) -> (rooms: Vec<RoomFromStart>)
    ensures
        rooms@ == room_starts(squares@),
        rooms_valid(rooms@, squares@.cols - 1, squares@.rows - 1),
{
    let rows = *squares.rows();
    let cols = *squares.cols();
    let ghost grid = squares@;
    let mut room_starts: Vec<RoomFromStart> = Vec::new();
    let mut row: usize = 0;
    while row < rows
        invariant
            row <= rows,
            grid == squares@,
            rows == grid.rows,
            cols == grid.cols,
            room_starts@ == room_starts_upto(grid, (row * cols) as nat),
            rooms_valid(room_starts@, cols - 1, rows - 1),
        decreases rows - row,
    {
        let mut col: usize = 0;
        while col < cols
            invariant
                row < rows,
                col <= cols,
                grid == squares@,
                rows == grid.rows,
                cols == grid.cols,
                room_starts@ == room_starts_upto(grid, (row * cols + col) as nat),
                rooms_valid(room_starts@, cols - 1, rows - 1),
            decreases cols - col,
        {
            proof {
                let n = row * cols + col;
                assert(0 <= row * cols) by (nonlinear_arith);
                vstd::arithmetic::div_mod::lemma_fundamental_div_mod_converse(
                    n,
                    cols as int,
                    row as int,
                    col as int,
                );
                assert((n + 1) as nat - 1 == n);
            }
            if squares.has_square(&row, &col) {
                let square = squares.get(&row, &col);
                match CRGC::classify(*square.color()) {
                    CRGC::RoomStart => {
                        let room = RoomFromStart::from_square_coord(col, row, room_starts.len());
                        room_starts.push(room);
                    },
                    _ => {},
                }
            }
            col += 1;
        }
        assert((row + 1) * cols == row * cols + cols) by (nonlinear_arith);
        row += 1;
    }
    room_starts
}

/// The places of the empty squares among the first `n` squares of the
/// grid, in order.
pub open spec fn empty_places_upto(grid: GridView, n: nat) -> Seq<usize>
    decreases n,
{
    if n == 0 {
        seq![]
    } else {
        let before = empty_places_upto(grid, (n - 1) as nat);
        if CRGC::of(grid.squares[n - 1].color) == CRGC::Empty {
            before.push((n - 1) as usize)
        } else {
            before
        }
    }
}

/// The places of the empty squares of the grid, in order.
pub open spec fn empty_places(grid: GridView) -> Seq<usize> {
    empty_places_upto(grid, grid.squares.len())
}

/// The square at place `s` is one of the picks.
pub open spec fn picked(picks: Seq<usize>, s: int) -> bool {
    exists|t: int| 0 <= t < picks.len() && #[trigger] picks[t] == s
}

/// The grid with a room start on every square whose place is one of the
/// picks.
pub open spec fn with_room_starts(grid: GridView, picks: Seq<usize>) -> GridView {
    grid.recolored(
        Seq::new(
            grid.squares.len(),
            |s: int|
                if picked(picks, s) {
                    CRGC::RoomStart.paint()
                } else {
                    grid.squares[s].color
                },
        ),
    )
}

/// The places of the empty squares are just the places of squares that
/// are empty, each once and in rising order.
pub proof fn lemma_empty_places(grid: GridView, n: nat)
    requires
        n <= grid.squares.len() <= usize::MAX,
    ensures
        empty_places_upto(grid, n).len() <= n,
        forall|t: int|
            0 <= t < empty_places_upto(grid, n).len() ==> {
                let place = #[trigger] empty_places_upto(grid, n)[t];
                place < n && CRGC::of(grid.squares[place as int].color) == CRGC::Empty
            },
        forall|t: int, u: int|
            0 <= t < u < empty_places_upto(grid, n).len() ==> #[trigger] empty_places_upto(
                grid,
                n,
            )[t] < #[trigger] empty_places_upto(grid, n)[u],
        forall|place: int|
            0 <= place < n && CRGC::of(#[trigger] grid.squares[place].color) == CRGC::Empty
                ==> empty_places_upto(grid, n).contains(place as usize),
        empty_places_upto(grid, n).no_duplicates(),
    decreases n,
{
    if n > 0 {
        let before = empty_places_upto(grid, (n - 1) as nat);
        let places = empty_places_upto(grid, n);
        lemma_empty_places(grid, (n - 1) as nat);
        assert forall|t: int| 0 <= t < places.len() implies {
            let place = #[trigger] places[t];
            place < n && CRGC::of(grid.squares[place as int].color) == CRGC::Empty
        } by {
            if t < before.len() {
                assert(places[t] == before[t]);
            }
        }
        assert forall|t: int, u: int| 0 <= t < u < places.len() implies #[trigger] places[t]
            < #[trigger] places[u] by {
            assert(places[t] == before[t]);
            if u < before.len() {
                assert(places[u] == before[u]);
            }
        }
        assert forall|place: int|
            0 <= place < n && CRGC::of(#[trigger] grid.squares[place].color)
                == CRGC::Empty implies places.contains(place as usize) by {
            if place < n - 1 {
                assert(before.contains(place as usize));
                let t = choose|t: int| 0 <= t < before.len() && before[t] == place as usize;
                assert(places[t] == place as usize);
            } else {
                assert(places[before.len() as int] == place as usize);
            }
        }
    }
}

/// What is drawn without repetition from items that are all different is
/// all different, and is among the items.
pub proof fn lemma_draw_distinct(picks: Seq<usize>, items: Seq<usize>)
    requires
        picks.to_multiset().subset_of(items.to_multiset()),
        items.no_duplicates(),
    ensures
        picks.no_duplicates(),
        forall|t: int| 0 <= t < picks.len() ==> items.contains(#[trigger] picks[t]),
{
    broadcast use vstd::multiset::group_multiset_axioms;

    items.lemma_multiset_has_no_duplicates();
    assert forall|x: usize| picks.to_multiset().contains(x) implies picks.to_multiset().count(x)
        == 1 by {
        assert(picks.to_multiset().count(x) <= items.to_multiset().count(x));
        assert(items.to_multiset().contains(x));
    }
    picks.lemma_multiset_has_no_duplicates_conv();
    assert forall|t: int| 0 <= t < picks.len() implies items.contains(#[trigger] picks[t]) by {
        let x = picks[t];
        assert(picks.contains(x));
        vstd::seq_lib::to_multiset_contains(picks, x);
        vstd::seq_lib::to_multiset_contains(items, x);
        assert(picks.to_multiset().count(x) <= items.to_multiset().count(x));
    }
}

/// The least number of room starts that is placed where none is asked
/// for: an eighth of the rows plus half the columns.
pub open spec fn least_room_count(grid: GridView) -> int {
    row_col_avg(grid) / 8
}

/// The greatest number of room starts that is placed where none is asked
/// for: half of the rows plus half the columns.
pub open spec fn greatest_room_count(grid: GridView) -> int {
    row_col_avg(grid) / 2
}

/// The rows plus half the columns, as far as a machine word holds it.
pub open spec fn row_col_avg(grid: GridView) -> int {
    if grid.rows + grid.cols / 2 > usize::MAX {
        usize::MAX as int
    } else {
        (grid.rows + grid.cols / 2) as int
    }
}

/// `wanted` room starts honour the request: the number asked for, or,
/// where none is asked for, a number between the least and the greatest
/// for the grid.
pub open spec fn honours(rooms: Option<usize>, grid: GridView, wanted: int) -> bool {
    match rooms {
        Some(r) => wanted == r,
        None => least_room_count(grid) <= wanted <= greatest_room_count(grid),
    }
}

/// The places of the empty squares of the grid, in order.
pub fn empty_squares(squares: &SquareGrid) -> (empties: Vec<usize>)
    ensures
        empties@ == empty_places(squares@),
{
    let ghost grid = squares@;
    let mut empt_sqr_vec: Vec<usize> = Vec::new();
    let mut place: usize = 0;
    while place < squares.len()
        invariant
            place <= grid.squares.len(),
            grid == squares@,
            empt_sqr_vec@ == empty_places_upto(grid, place as nat),
        decreases grid.squares.len() - place,
    {
        match CRGC::classify(*squares.square_at(place).color()) {
            CRGC::Empty => {
                empt_sqr_vec.push(place);
            },
            _ => {},
        }
        place += 1;
    }
    empt_sqr_vec
}

/// Puts a room start on every square whose place is one of the picks. A
/// pick that is the place of no square is passed over.
pub fn place_room_starts(squares: &mut SquareGrid, picks: &Vec<usize>)
    ensures
        final(squares)@ == with_room_starts(old(squares)@, picks@),
{
    let ghost start = squares@;
    let mut t: usize = 0;
    while t < picks.len()
        invariant
            t <= picks@.len(),
            start.same_layout(squares@),
            forall|s: int|
                0 <= s < start.squares.len() ==> (#[trigger] squares@.squares[s]).color == (if picked(
                    picks@.take(t as int),
                    s,
                ) {
                    CRGC::RoomStart.paint()
                } else {
                    start.squares[s].color
                }),
        decreases picks@.len() - t,
    {
        let place = picks[t];
        let ghost before = squares@;
        proof {
            assert forall|s: int|
                picked(picks@.take(t + 1), s) <==> (picked(picks@.take(t as int), s) || s
                    == place) by {
                let shorter = picks@.take(t as int);
                let longer = picks@.take(t + 1);
                if picked(shorter, s) {
                    let u = choose|u: int| 0 <= u < shorter.len() && #[trigger] shorter[u] == s;
                    assert(longer[u] == s);
                }
                if s == place {
                    assert(longer[t as int] == s);
                }
                if picked(longer, s) {
                    let u = choose|u: int| 0 <= u < longer.len() && #[trigger] longer[u] == s;
                    if u < t {
                        assert(shorter[u] == s);
                    }
                }
            }
        }
        if place < squares.len() {
            squares.set_color_at(place, CRGC::RoomStart.color());
        }
        proof {
            assert forall|s: int| 0 <= s < start.squares.len() implies (
            #[trigger] squares@.squares[s]).color == (if picked(picks@.take(t + 1), s) {
                CRGC::RoomStart.paint()
            } else {
                start.squares[s].color
            }) by {
                assert(before.squares[s].color == (if picked(picks@.take(t as int), s) {
                    CRGC::RoomStart.paint()
                } else {
                    start.squares[s].color
                }));
            }
            assert forall|s: int| 0 <= s < start.squares.len() implies (
            #[trigger] start.squares[s]).same_place(squares@.squares[s]) by {
                assert(start.squares[s].same_place(before.squares[s]));
            }
        }
        t += 1;
    }
    proof {
        assert(picks@.take(t as int) =~= picks@);
        assert(squares@.squares =~= with_room_starts(start, picks@).squares);
    }
}

} // verus!
