//! Rooms that grow together stay apart: what holds of overlap between
//! rooms, and what does not.

use crate::room_growth::rooms::RoomFromStart;
use crate::room_growth::rounds::{
    claims_square, contested, lemma_growth_settles, lemma_round_valid, lemma_settles_once,
    rooms_valid, round, rounds, settled_rooms, settles_after,
};
use crate::room_growth::seeds::{room_starts, room_starts_upto};
use crate::squares::GridView;
use vstd::prelude::*;

verus! {

/// The two rooms have no square in common.
pub open spec fn apart(a: RoomFromStart, b: RoomFromStart) -> bool {
    a.x + a.w <= b.x || b.x + b.w <= a.x || a.y + a.h <= b.y || b.y + b.h <= a.y
}

/// No two of the rooms have a square in common.
pub open spec fn all_apart(rooms: Seq<RoomFromStart>) -> bool {
    forall|i: int, j: int|
        0 <= i < rooms.len() && 0 <= j < rooms.len() && i != j ==> apart(
            #[trigger] rooms[i],
            #[trigger] rooms[j],
        )
}

/// Every room may still grow.
pub open spec fn all_growing(rooms: Seq<RoomFromStart>) -> bool {
    forall|i: int| 0 <= i < rooms.len() ==> (#[trigger] rooms[i]).allowed_growth
}

/// Two rooms that have no square in common, and whose claims have no
/// square in common either, reach for rectangles that have no square in
/// common.
proof fn lemma_reaches_apart(a: RoomFromStart, b: RoomFromStart, max_x: int, max_y: int)
    requires
        a.valid(max_x, max_y),
        b.valid(max_x, max_y),
        apart(a, b),
        forall|x: int, y: int|
            !(#[trigger] claims_square(a, max_x, max_y, x, y) && claims_square(
                b,
                max_x,
                max_y,
                x,
                y,
            )),
    ensures
        ({
            let p = a.reach(max_x, max_y);
            let q = b.reach(max_x, max_y);
            p.max_x < q.min_x || q.max_x < p.min_x || p.max_y < q.min_y || q.max_y < p.min_y
        }),
{
    let p = a.reach(max_x, max_y);
    let q = b.reach(max_x, max_y);
    if !(p.max_x < q.min_x || q.max_x < p.min_x || p.max_y < q.min_y || q.max_y < p.min_y) {
        let left = if p.min_x >= q.min_x {
            p.min_x
        } else {
            q.min_x
        };
        let right = if p.max_x <= q.max_x {
            p.max_x
        } else {
            q.max_x
        };
        let top = if p.min_y >= q.min_y {
            p.min_y
        } else {
            q.min_y
        };
        let bottom = if p.max_y <= q.max_y {
            p.max_y
        } else {
            q.max_y
        };
        assert(!(claims_square(a, max_x, max_y, left, top) && claims_square(
            b,
            max_x,
            max_y,
            left,
            top,
        )));
        assert(!(claims_square(a, max_x, max_y, right, top) && claims_square(
            b,
            max_x,
            max_y,
            right,
            top,
        )));
        assert(!(claims_square(a, max_x, max_y, left, bottom) && claims_square(
            b,
            max_x,
            max_y,
            left,
            bottom,
        )));
        assert(!(claims_square(a, max_x, max_y, right, bottom) && claims_square(
            b,
            max_x,
            max_y,
            right,
            bottom,
        )));
    }
}

/// Two rooms that have no square in common and may both grow have no
/// square in common after a round of growth, whatever the other rooms do.
pub proof fn lemma_round_keeps_apart(
    rooms: Seq<RoomFromStart>,
    max_x: int,
    max_y: int,
    i: int,
    j: int,
)
    requires
        rooms_valid(rooms, max_x, max_y),
        0 <= max_x < usize::MAX,
        0 <= max_y < usize::MAX,
        0 <= i < rooms.len(),
        0 <= j < rooms.len(),
        i != j,
        rooms[i].allowed_growth,
        rooms[j].allowed_growth,
        apart(rooms[i], rooms[j]),
    ensures
        apart(round(rooms, max_x, max_y)[i], round(rooms, max_x, max_y)[j]),
{
    let a = rooms[i];
    let b = rooms[j];
    assert(a.valid(max_x, max_y));
    assert(b.valid(max_x, max_y));
    if !contested(rooms, i, max_x, max_y) {
        assert forall|x: int, y: int|
            !(#[trigger] claims_square(a, max_x, max_y, x, y) && claims_square(
                b,
                max_x,
                max_y,
                x,
                y,
            )) by {
            if claims_square(a, max_x, max_y, x, y) && claims_square(b, max_x, max_y, x, y) {
                assert(claims_square(rooms[j], max_x, max_y, x, y));
            }
        }
        lemma_reaches_apart(a, b, max_x, max_y);
    } else if !contested(rooms, j, max_x, max_y) {
        assert forall|x: int, y: int|
            !(#[trigger] claims_square(a, max_x, max_y, x, y) && claims_square(
                b,
                max_x,
                max_y,
                x,
                y,
            )) by {
            if claims_square(a, max_x, max_y, x, y) && claims_square(b, max_x, max_y, x, y) {
                assert(claims_square(rooms[i], max_x, max_y, x, y));
            }
        }
        lemma_reaches_apart(a, b, max_x, max_y);
    }
}

/// As long as every room may grow, no two rooms come to have a square in
/// common: rooms that had none at the start have none after `n` rounds
/// before each of which every room could still grow.
pub proof fn lemma_growing_together_apart(
    rooms: Seq<RoomFromStart>,
    max_x: int,
    max_y: int,
    n: nat,
)
    requires
        rooms_valid(rooms, max_x, max_y),
        0 <= max_x < usize::MAX,
        0 <= max_y < usize::MAX,
        all_apart(rooms),
        forall|m: nat| m < n ==> all_growing(#[trigger] rounds(rooms, max_x, max_y, m)),
    ensures
        rounds(rooms, max_x, max_y, n).len() == rooms.len(),
        rooms_valid(rounds(rooms, max_x, max_y, n), max_x, max_y),
        all_apart(rounds(rooms, max_x, max_y, n)),
    decreases n,
{
    if n > 0 {
        let earlier = rounds(rooms, max_x, max_y, (n - 1) as nat);
        lemma_growing_together_apart(rooms, max_x, max_y, (n - 1) as nat);
        let later = round(earlier, max_x, max_y);
        assert forall|i: int| 0 <= i < later.len() implies (#[trigger] later[i]).valid(max_x, max_y)
            && later[i].index == i by {
            lemma_round_valid(earlier, max_x, max_y, i);
        }
        assert forall|i: int, j: int|
            0 <= i < later.len() && 0 <= j < later.len() && i != j implies apart(
            #[trigger] later[i],
            #[trigger] later[j],
        ) by {
            assert(all_growing(earlier));
            assert(apart(earlier[i], earlier[j]));
            lemma_round_keeps_apart(earlier, max_x, max_y, i, j);
        }
    }
}

/// Two rooms that grow side by side and stop in the same round are apart
/// after every round up to `m`, and from round `n` on neither may grow.
proof fn lemma_pair_rounds(
    rooms: Seq<RoomFromStart>,
    max_x: int,
    max_y: int,
    n: nat,
    i: int,
    j: int,
    m: nat,
)
    requires
        rooms_valid(rooms, max_x, max_y),
        0 <= max_x < usize::MAX,
        0 <= max_y < usize::MAX,
        0 <= i < rooms.len(),
        0 <= j < rooms.len(),
        i != j,
        apart(rooms[i], rooms[j]),
        forall|k: nat|
            k < n ==> (#[trigger] rounds(rooms, max_x, max_y, k))[i].allowed_growth && rounds(
                rooms,
                max_x,
                max_y,
                k,
            )[j].allowed_growth,
        !rounds(rooms, max_x, max_y, n)[i].allowed_growth,
        !rounds(rooms, max_x, max_y, n)[j].allowed_growth,
    ensures
        rounds(rooms, max_x, max_y, m).len() == rooms.len(),
        rooms_valid(rounds(rooms, max_x, max_y, m), max_x, max_y),
        apart(rounds(rooms, max_x, max_y, m)[i], rounds(rooms, max_x, max_y, m)[j]),
        m >= n ==> !rounds(rooms, max_x, max_y, m)[i].allowed_growth && !rounds(
            rooms,
            max_x,
            max_y,
            m,
        )[j].allowed_growth,
    decreases m,
{
    if m > 0 {
        let earlier = rounds(rooms, max_x, max_y, (m - 1) as nat);
        lemma_pair_rounds(rooms, max_x, max_y, n, i, j, (m - 1) as nat);
        let later = round(earlier, max_x, max_y);
        assert(later == rounds(rooms, max_x, max_y, m));
        assert forall|k: int| 0 <= k < later.len() implies (#[trigger] later[k]).valid(max_x, max_y)
            && later[k].index == k by {
            lemma_round_valid(earlier, max_x, max_y, k);
        }
        if m - 1 < n {
            assert(rounds(rooms, max_x, max_y, (m - 1) as nat)[i].allowed_growth);
            lemma_round_keeps_apart(earlier, max_x, max_y, i, j);
        }
    }
}

/// Two rooms that stop growing in the same round never have a square in
/// common, whatever the other rooms do: where the two have none at the
/// start, may both grow in every round before round `n` and may neither
/// grow after it, they have none after any number of rounds. A room
/// that still grows when another has stopped is what can bring rooms to
/// overlap.
pub proof fn lemma_stopped_together_apart(
    rooms: Seq<RoomFromStart>,
    max_x: int,
    max_y: int,
    n: nat,
    i: int,
    j: int,
)
    requires
        rooms_valid(rooms, max_x, max_y),
        0 <= max_x < usize::MAX,
        0 <= max_y < usize::MAX,
        0 <= i < rooms.len(),
        0 <= j < rooms.len(),
        i != j,
        apart(rooms[i], rooms[j]),
        forall|k: nat|
            k < n ==> (#[trigger] rounds(rooms, max_x, max_y, k))[i].allowed_growth && rounds(
                rooms,
                max_x,
                max_y,
                k,
            )[j].allowed_growth,
        !rounds(rooms, max_x, max_y, n)[i].allowed_growth,
        !rounds(rooms, max_x, max_y, n)[j].allowed_growth,
    ensures
        forall|m: nat|
            apart(
                (#[trigger] rounds(rooms, max_x, max_y, m))[i],
                rounds(rooms, max_x, max_y, m)[j],
            ),
{
    assert forall|m: nat|
        apart((#[trigger] rounds(rooms, max_x, max_y, m))[i], rounds(rooms, max_x, max_y, m)[j]) by {
        lemma_pair_rounds(rooms, max_x, max_y, n, i, j, m);
    }
}

/// The rooms started on a grid are valid, all may grow, each is one
/// square at an address of its own, and they stand in the order of their
/// addresses.
proof fn lemma_room_starts_upto(grid: GridView, n: nat)
    requires
        n <= grid.rows * grid.cols,
        grid.cols <= usize::MAX,
        grid.rows <= usize::MAX,
        room_starts_upto(grid, n).len() <= usize::MAX,
    ensures
        rooms_valid(room_starts_upto(grid, n), grid.cols - 1, grid.rows - 1),
        all_growing(room_starts_upto(grid, n)),
        forall|i: int|
            0 <= i < room_starts_upto(grid, n).len() ==> {
                let room = #[trigger] room_starts_upto(grid, n)[i];
                room.w == 1 && room.h == 1 && room.x < grid.cols && room.y * grid.cols + room.x < n
            },
        forall|i: int, j: int|
            0 <= i < j < room_starts_upto(grid, n).len() ==> {
                let a = #[trigger] room_starts_upto(grid, n)[i];
                let b = #[trigger] room_starts_upto(grid, n)[j];
                a.y * grid.cols + a.x < b.y * grid.cols + b.x
            },
    decreases n,
{
    if n > 0 {
        let before = room_starts_upto(grid, (n - 1) as nat);
        let rooms = room_starts_upto(grid, n);
        lemma_room_starts_upto(grid, (n - 1) as nat);
        let cols = grid.cols as int;
        let row = (n - 1) / cols;
        let col = (n - 1) % cols;
        assert(cols > 0) by (nonlinear_arith)
            requires
                0 < n <= grid.rows * cols,
                0 <= grid.rows,
        ;
        vstd::arithmetic::div_mod::lemma_fundamental_div_mod(n - 1, cols);
        assert(0 <= col < cols);
        assert(cols * row == row * cols) by (nonlinear_arith);
        assert(0 <= row < grid.rows) by (nonlinear_arith)
            requires
                n - 1 == row * cols + col,
                0 <= col < cols,
                0 <= n - 1 < grid.rows * cols,
        ;
        assert forall|i: int| 0 <= i < rooms.len() implies (#[trigger] rooms[i]).valid(
            grid.cols - 1,
            grid.rows - 1,
        ) && rooms[i].index == i && rooms[i].allowed_growth && rooms[i].w == 1 && rooms[i].h == 1
            && rooms[i].x < grid.cols && rooms[i].y * grid.cols + rooms[i].x < n by {
            if i < before.len() {
                assert(rooms[i] == before[i]);
            }
        }
        assert forall|i: int, j: int| 0 <= i < j < rooms.len() implies ({
            let a = #[trigger] rooms[i];
            let b = #[trigger] rooms[j];
            a.y * grid.cols + a.x < b.y * grid.cols + b.x
        }) by {
            assert(rooms[i] == before[i]);
            if j < before.len() {
                assert(rooms[j] == before[j]);
            }
        }
    }
}

/// The rooms started on a grid are valid, all may grow, and no two of
/// them have a square in common.
pub proof fn lemma_room_starts(grid: GridView)
    requires
        grid.cols <= usize::MAX,
        grid.rows <= usize::MAX,
        room_starts(grid).len() <= usize::MAX,
    ensures
        rooms_valid(room_starts(grid), grid.cols - 1, grid.rows - 1),
        all_growing(room_starts(grid)),
        all_apart(room_starts(grid)),
{
    let rooms = room_starts(grid);
    lemma_room_starts_upto(grid, grid.rows * grid.cols);
    assert forall|i: int, j: int|
        0 <= i < rooms.len() && 0 <= j < rooms.len() && i != j implies apart(
        #[trigger] rooms[i],
        #[trigger] rooms[j],
    ) by {
        let a = rooms[i];
        let b = rooms[j];
        if i < j {
            assert(a.y * grid.cols + a.x < b.y * grid.cols + b.x);
        } else {
            assert(b.y * grid.cols + b.x < a.y * grid.cols + a.x);
        }
        if a.x == b.x && a.y == b.y {
            assert(a.y * grid.cols + a.x == b.y * grid.cols + b.x);
        }
    }
}

/// Two rooms on their own stop growing in the same round: where both may
/// grow and they have no square in common, after a round of growth either
/// both may grow or neither may, and they still have no square in common.
pub proof fn lemma_pair_in_step(rooms: Seq<RoomFromStart>, max_x: int, max_y: int)
    requires
        rooms.len() == 2,
        rooms_valid(rooms, max_x, max_y),
        0 <= max_x < usize::MAX,
        0 <= max_y < usize::MAX,
        all_growing(rooms),
        apart(rooms[0], rooms[1]),
    ensures
        round(rooms, max_x, max_y)[0].allowed_growth == round(rooms, max_x, max_y)[1].allowed_growth,
        apart(round(rooms, max_x, max_y)[0], round(rooms, max_x, max_y)[1]),
{
    let a = rooms[0];
    let b = rooms[1];
    assert(a.valid(max_x, max_y) && b.valid(max_x, max_y));
    assert(a.allowed_growth && b.allowed_growth);
    lemma_round_keeps_apart(rooms, max_x, max_y, 0, 1);
    if contested(rooms, 0, max_x, max_y) {
        let (j, x, y) = choose|j: int, x: int, y: int|
            0 <= j < rooms.len() && j != 0 && rooms[j].allowed_growth && #[trigger] claims_square(
                rooms[j],
                max_x,
                max_y,
                x,
                y,
            ) && claims_square(rooms[0], max_x, max_y, x, y);
        assert(j == 1);
        assert(claims_square(rooms[0], max_x, max_y, x, y) && claims_square(
            rooms[1],
            max_x,
            max_y,
            x,
            y,
        ));
        assert(contested(rooms, 1, max_x, max_y));
    }
    if contested(rooms, 1, max_x, max_y) {
        let (j, x, y) = choose|j: int, x: int, y: int|
            0 <= j < rooms.len() && j != 1 && rooms[j].allowed_growth && #[trigger] claims_square(
                rooms[j],
                max_x,
                max_y,
                x,
                y,
            ) && claims_square(rooms[1], max_x, max_y, x, y);
        assert(j == 0);
        assert(claims_square(rooms[1], max_x, max_y, x, y) && claims_square(
            rooms[0],
            max_x,
            max_y,
            x,
            y,
        ));
        assert(contested(rooms, 0, max_x, max_y));
    }
}

/// Two rooms on their own never come to have a square in common: where
/// both may grow at the start and they have no square in common, they
/// have none after any number of rounds.
pub proof fn lemma_pair_apart(rooms: Seq<RoomFromStart>, max_x: int, max_y: int, n: nat)
    requires
        rooms.len() == 2,
        rooms_valid(rooms, max_x, max_y),
        0 <= max_x < usize::MAX,
        0 <= max_y < usize::MAX,
        all_growing(rooms),
        apart(rooms[0], rooms[1]),
    ensures
        rounds(rooms, max_x, max_y, n).len() == 2,
        rooms_valid(rounds(rooms, max_x, max_y, n), max_x, max_y),
        rounds(rooms, max_x, max_y, n)[0].allowed_growth == rounds(
            rooms,
            max_x,
            max_y,
            n,
        )[1].allowed_growth,
        apart(rounds(rooms, max_x, max_y, n)[0], rounds(rooms, max_x, max_y, n)[1]),
    decreases n,
{
    if n > 0 {
        let earlier = rounds(rooms, max_x, max_y, (n - 1) as nat);
        lemma_pair_apart(rooms, max_x, max_y, (n - 1) as nat);
        let later = round(earlier, max_x, max_y);
        assert forall|i: int| 0 <= i < later.len() implies (#[trigger] later[i]).valid(max_x, max_y)
            && later[i].index == i by {
            lemma_round_valid(earlier, max_x, max_y, i);
        }
        if earlier[0].allowed_growth {
            lemma_pair_in_step(earlier, max_x, max_y);
        }
    }
}

/// A grid with no more than two room starts grows rooms that have no
/// square in common.
pub proof fn lemma_two_starts_apart(grid: GridView)
    requires
        0 < room_starts(grid).len() <= 2,
        grid.cols <= usize::MAX,
        grid.rows <= usize::MAX,
    ensures
        all_apart(settled_rooms(room_starts(grid), grid.cols - 1, grid.rows - 1)),
{
    let rooms = room_starts(grid);
    let max_x = grid.cols - 1;
    let max_y = grid.rows - 1;
    lemma_room_starts(grid);
    assert(rooms[0].valid(max_x, max_y));
    let n = lemma_growth_settles(rooms, max_x, max_y);
    let chosen = choose|m: nat| settles_after(rooms, max_x, max_y, m);
    lemma_settles_once(rooms, max_x, max_y, n, chosen);
    let settled = settled_rooms(rooms, max_x, max_y);
    if rooms.len() == 2 {
        assert(apart(rooms[0], rooms[1]));
        lemma_pair_apart(rooms, max_x, max_y, n);
    } else {
        lemma_rounds_len(rooms, max_x, max_y, n);
    }
}

/// Rounds of growth keep the number of rooms.
proof fn lemma_rounds_len(rooms: Seq<RoomFromStart>, max_x: int, max_y: int, n: nat)
    ensures
        rounds(rooms, max_x, max_y, n).len() == rooms.len(),
    decreases n,
{
    if n > 0 {
        lemma_rounds_len(rooms, max_x, max_y, (n - 1) as nat);
    }
}

} // verus!
