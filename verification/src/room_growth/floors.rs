//! Room starts turn to floor: a room holds the square that it started
//! from, and no room start is left once the rooms are grown and painted.

use crate::room_growth::apart::lemma_room_starts;
use crate::room_growth::painting::{
    in_room, lemma_painted_layout, lemma_same_addresses, painted, painted_room,
};
use crate::room_growth::palette::CRGC;
use crate::room_growth::rooms::RoomFromStart;
use crate::room_growth::rounds::{
    lemma_growth_settles, lemma_round_valid, lemma_settles_once, rooms_valid, round, rounds,
    settled_rooms, settles_after,
};
use crate::room_growth::seeds::{room_starts, room_starts_upto};
use crate::room_growth::{with_grown_rooms, with_painted_rooms};
use crate::squares::GridView;
use vstd::prelude::*;

verus! {

/// A room start that one of the first `n` addresses names starts a room
/// of one square at that address: this is the place of that room among
/// the rooms started.
proof fn lemma_room_start_found(grid: GridView, n: nat, row: int, col: int) -> (t: int)
    requires
        n <= grid.rows * grid.cols,
        grid.cols <= usize::MAX,
        grid.rows <= usize::MAX,
        0 <= row,
        0 <= col < grid.cols,
        row * grid.cols + col < n,
        grid.has(row, col),
        CRGC::of(grid.squares[grid.index_of(row, col)].color) == CRGC::RoomStart,
    ensures
        0 <= t < room_starts_upto(grid, n).len(),
        room_starts_upto(grid, n)[t].x == col,
        room_starts_upto(grid, n)[t].y == row,
        room_starts_upto(grid, n)[t].w == 1,
        room_starts_upto(grid, n)[t].h == 1,
    decreases n,
{
    let cols = grid.cols as int;
    let k = n - 1;
    let before = room_starts_upto(grid, k as nat);
    if row * cols + col == k {
        vstd::arithmetic::div_mod::lemma_fundamental_div_mod_converse(k, cols, row, col);
        assert(row < grid.rows) by (nonlinear_arith)
            requires
                row * cols + col < grid.rows * cols,
                0 <= col < cols,
                0 <= row,
        ;
        before.len() as int
    } else {
        let t = lemma_room_start_found(grid, k as nat, row, col);
        assert(room_starts_upto(grid, n)[t] == before[t]);
        t
    }
}

/// A room never gives up a square: what it holds before rounds of growth
/// it holds after them.
proof fn lemma_rounds_keep_squares(
    rooms: Seq<RoomFromStart>,
    max_x: int,
    max_y: int,
    n: nat,
    t: int,
    x: int,
    y: int,
)
    requires
        rooms_valid(rooms, max_x, max_y),
        0 <= max_x < usize::MAX,
        0 <= max_y < usize::MAX,
        0 <= t < rooms.len(),
        rooms[t].holds(x, y),
    ensures
        rounds(rooms, max_x, max_y, n).len() == rooms.len(),
        rooms_valid(rounds(rooms, max_x, max_y, n), max_x, max_y),
        rounds(rooms, max_x, max_y, n)[t].holds(x, y),
    decreases n,
{
    if n > 0 {
        let earlier = rounds(rooms, max_x, max_y, (n - 1) as nat);
        lemma_rounds_keep_squares(rooms, max_x, max_y, (n - 1) as nat, t, x, y);
        let later = round(earlier, max_x, max_y);
        assert forall|k: int| 0 <= k < later.len() implies (#[trigger] later[k]).valid(max_x, max_y)
            && later[k].index == k by {
            lemma_round_valid(earlier, max_x, max_y, k);
        }
        assert(earlier[t].valid(max_x, max_y));
    }
}

/// A square that is a room start after a room is painted was one before,
/// and the room does not hold it.
proof fn lemma_painted_room_start(
    grid: GridView,
    room: RoomFromStart,
    max_x: int,
    max_y: int,
    i: int,
)
    requires
        0 <= i < grid.squares.len(),
        CRGC::of(painted_room(grid, room, max_x, max_y).squares[i].color) is RoomStart,
    ensures
        CRGC::of(grid.squares[i].color) is RoomStart,
        !in_room(grid, room, i),
{
}

/// A square that is a room start after rooms are painted was one before,
/// and none of the rooms holds it.
proof fn lemma_painted_start(
    grid: GridView,
    rooms: Seq<RoomFromStart>,
    max_x: int,
    max_y: int,
    i: int,
)
    requires
        0 <= i < grid.squares.len(),
        CRGC::of(painted(grid, rooms, max_x, max_y).squares[i].color) is RoomStart,
    ensures
        CRGC::of(grid.squares[i].color) is RoomStart,
        forall|t: int| 0 <= t < rooms.len() ==> !in_room(grid, #[trigger] rooms[t], i),
    decreases rooms.len(),
{
    if rooms.len() > 0 {
        let shorter = rooms.drop_last();
        let before = painted(grid, shorter, max_x, max_y);
        lemma_painted_layout(grid, shorter, max_x, max_y);
        lemma_painted_room_start(before, rooms.last(), max_x, max_y, i);
        lemma_painted_start(grid, shorter, max_x, max_y, i);
        lemma_same_addresses(before, grid, rooms.last(), max_x, max_y, i);
        assert forall|t: int| 0 <= t < rooms.len() implies !in_room(grid, #[trigger] rooms[t], i) by {
            if t < shorter.len() {
                assert(rooms[t] == shorter[t]);
            }
        }
    }
}

/// A room holds the square that it started from: a room start that an
/// address of the grid names has a room among the grown rooms that holds
/// that address. This is the place of such a room among the rooms.
pub proof fn lemma_start_inside_room(grid: GridView, row: int, col: int) -> (t: int)
    requires
        grid.cols <= usize::MAX,
        grid.rows <= usize::MAX,
        room_starts(grid).len() <= usize::MAX,
        grid.names(row, col),
        CRGC::of(grid.squares[grid.index_of(row, col)].color) == CRGC::RoomStart,
    ensures
        0 <= t < settled_rooms(room_starts(grid), grid.cols - 1, grid.rows - 1).len(),
        settled_rooms(room_starts(grid), grid.cols - 1, grid.rows - 1)[t].holds(col, row),
{
    let rooms = room_starts(grid);
    let max_x = grid.cols - 1;
    let max_y = grid.rows - 1;
    assert(row * grid.cols + col < grid.rows * grid.cols) by (nonlinear_arith)
        requires
            0 <= row < grid.rows,
            0 <= col < grid.cols,
    ;
    assert(0 <= col * grid.img_width) by (nonlinear_arith)
        requires
            0 <= col,
            0 <= grid.img_width,
    ;
    let t = lemma_room_start_found(grid, grid.rows * grid.cols, row, col);
    lemma_room_starts(grid);
    assert(rooms[0].valid(max_x, max_y));
    let n = lemma_growth_settles(rooms, max_x, max_y);
    let chosen = choose|m: nat| settles_after(rooms, max_x, max_y, m);
    lemma_settles_once(rooms, max_x, max_y, n, chosen);
    lemma_rounds_keep_squares(rooms, max_x, max_y, n, t, col, row);
    t
}

/// No room start is left: once the rooms are grown and painted, no square
/// of the grid is a room start.
pub proof fn lemma_no_room_start_left(grid: GridView, i: int)
    requires
        0 <= i < grid.squares.len(),
    ensures
        !(CRGC::of(with_grown_rooms(grid).squares[i].color) is RoomStart),
{
    let rooms = room_starts(grid);
    let max_x = grid.cols - 1;
    let max_y = grid.rows - 1;
    let painted_grid = with_painted_rooms(grid);
    if rooms.len() > 0 {
        let settled = settled_rooms(rooms, max_x, max_y);
        lemma_painted_layout(grid, settled, max_x, max_y);
        if CRGC::of(painted_grid.squares[i].color) is RoomStart {
            lemma_painted_start(grid, settled, max_x, max_y, i);
        }
    }
}

} // verus!
