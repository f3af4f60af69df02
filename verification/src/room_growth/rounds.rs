//! Rounds of growth as plain mathematics, and why they come to an end.

use crate::room_growth::rooms::RoomFromStart;
use vstd::prelude::*;

verus! {

/// The room claims the square at column `x` and row `y`: the square lies
/// on the edge of the rectangle that the room reaches for.
pub open spec fn claims_square(room: RoomFromStart, max_x: int, max_y: int, x: int, y: int) -> bool {
    room.reach(max_x, max_y).on_edge(x, y)
}

/// Every room has a width and a height, lies within the grid, and carries
/// its place among the rooms as its index.
pub open spec fn rooms_valid(rooms: Seq<RoomFromStart>, max_x: int, max_y: int) -> bool {
    forall|i: int|
        0 <= i < rooms.len() ==> (#[trigger] rooms[i]).valid(max_x, max_y) && rooms[i].index == i
}

/// Some room may still grow.
pub open spec fn any_growing(rooms: Seq<RoomFromStart>) -> bool {
    exists|i: int| 0 <= i < rooms.len() && (#[trigger] rooms[i]).allowed_growth
}

/// The room at place `i` is contested: a square that it claims is claimed
/// by another room that may still grow.
pub open spec fn contested(rooms: Seq<RoomFromStart>, i: int, max_x: int, max_y: int) -> bool {
    exists|j: int, x: int, y: int|
        0 <= j < rooms.len() && j != i && rooms[j].allowed_growth && #[trigger] claims_square(
            rooms[j],
            max_x,
            max_y,
            x,
            y,
        ) && claims_square(rooms[i], max_x, max_y, x, y)
}

/// The room grown to the rectangle that it reaches for.
pub open spec fn grown(room: RoomFromStart, max_x: int, max_y: int) -> RoomFromStart {
    let frame = room.reach(max_x, max_y);
    RoomFromStart {
        x: frame.min_x as usize,
        y: frame.min_y as usize,
        w: (frame.max_x - frame.min_x + 1) as usize,
        h: (frame.max_y - frame.min_y + 1) as usize,
        ..room
    }
}

/// The two rooms cover the same squares.
pub open spec fn same_rect(a: RoomFromStart, b: RoomFromStart) -> bool {
    a.x == b.x && a.y == b.y && a.w == b.w && a.h == b.h
}

/// The room at place `i` after one round of growth. A room that may not
/// grow stays as it is. A contested room stops growing, for good. Any
/// other room grows to the rectangle that it reaches for, and stops
/// growing where that is no larger than the room.
pub open spec fn after_round(rooms: Seq<RoomFromStart>, i: int, max_x: int, max_y: int) -> RoomFromStart {
    let room = rooms[i];
    if !room.allowed_growth {
        room
    } else if contested(rooms, i, max_x, max_y) {
        RoomFromStart { allowed_growth: false, ..room }
    } else {
        let larger = grown(room, max_x, max_y);
        RoomFromStart { allowed_growth: !same_rect(larger, room), ..larger }
    }
}

/// The rooms after one round of growth, in which all rooms make their
/// claims at once.
pub open spec fn round(rooms: Seq<RoomFromStart>, max_x: int, max_y: int) -> Seq<RoomFromStart> {
    Seq::new(rooms.len(), |i: int| after_round(rooms, i, max_x, max_y))
}

/// The rooms after `n` rounds of growth.
pub open spec fn rounds(rooms: Seq<RoomFromStart>, max_x: int, max_y: int, n: nat) -> Seq<
    RoomFromStart,
>
    decreases n,
{
    if n == 0 {
        rooms
    } else {
        round(rounds(rooms, max_x, max_y, (n - 1) as nat), max_x, max_y)
    }
}

/// Growth settles after exactly `n` rounds: before each of them some room
/// may still grow, and after them none may.
pub open spec fn settles_after(rooms: Seq<RoomFromStart>, max_x: int, max_y: int, n: nat) -> bool {
    &&& !any_growing(rounds(rooms, max_x, max_y, n))
    &&& forall|m: nat| m < n ==> any_growing(#[trigger] rounds(rooms, max_x, max_y, m))
}

/// How much a room may still grow: nothing where it has stopped; else one
/// more than the columns and rows of the grid that it does not span.
pub open spec fn room_slack(room: RoomFromStart, max_x: int, max_y: int) -> nat {
    if room.allowed_growth && room.valid(max_x, max_y) {
        ((max_x + 1 - room.w) + (max_y + 1 - room.h) + 1) as nat
    } else {
        0
    }
}

/// The largest slack of any room.
pub open spec fn slack(rooms: Seq<RoomFromStart>, max_x: int, max_y: int) -> nat
    decreases rooms.len(),
{
    if rooms.len() == 0 {
        0
    } else {
        let before = slack(rooms.drop_last(), max_x, max_y);
        let last = room_slack(rooms.last(), max_x, max_y);
        if before >= last {
            before
        } else {
            last
        }
    }
}

/// No room has more slack than the largest slack.
proof fn lemma_slack_bounds(rooms: Seq<RoomFromStart>, max_x: int, max_y: int, i: int)
    requires
        0 <= i < rooms.len(),
    ensures
        room_slack(rooms[i], max_x, max_y) <= slack(rooms, max_x, max_y),
    decreases rooms.len(),
{
    if i < rooms.len() - 1 {
        lemma_slack_bounds(rooms.drop_last(), max_x, max_y, i);
    }
}

/// Rooms that all have less slack than `bound` have a largest slack below
/// `bound`.
proof fn lemma_slack_below(rooms: Seq<RoomFromStart>, max_x: int, max_y: int, bound: nat)
    requires
        bound > 0,
        forall|i: int| 0 <= i < rooms.len() ==> room_slack(#[trigger] rooms[i], max_x, max_y) < bound,
    ensures
        slack(rooms, max_x, max_y) < bound,
    decreases rooms.len(),
{
    if rooms.len() > 0 {
        let shorter = rooms.drop_last();
        assert forall|i: int| 0 <= i < shorter.len() implies room_slack(
            #[trigger] shorter[i],
            max_x,
            max_y,
        ) < bound by {
            assert(shorter[i] == rooms[i]);
        }
        lemma_slack_below(shorter, max_x, max_y, bound);
        assert(rooms.last() == rooms[rooms.len() - 1]);
    }
}

/// A round of growth keeps the rooms valid, and a room that may grow
/// after it has grown in it.
pub proof fn lemma_round_valid(rooms: Seq<RoomFromStart>, max_x: int, max_y: int, i: int)
    requires
        rooms_valid(rooms, max_x, max_y),
        0 <= max_x < usize::MAX,
        0 <= max_y < usize::MAX,
        0 <= i < rooms.len(),
    ensures
        round(rooms, max_x, max_y)[i].valid(max_x, max_y),
        round(rooms, max_x, max_y)[i].index == i,
        round(rooms, max_x, max_y)[i].allowed_growth ==> rooms[i].allowed_growth && room_slack(
            round(rooms, max_x, max_y)[i],
            max_x,
            max_y,
        ) < room_slack(rooms[i], max_x, max_y),
{
    assert(rooms[i].valid(max_x, max_y));
}

/// As long as some room may grow, a round of growth lowers the largest
/// slack: growth comes to an end.
pub proof fn lemma_round_lowers_slack(rooms: Seq<RoomFromStart>, max_x: int, max_y: int)
    requires
        rooms_valid(rooms, max_x, max_y),
        0 <= max_x < usize::MAX,
        0 <= max_y < usize::MAX,
        any_growing(rooms),
    ensures
        rooms_valid(round(rooms, max_x, max_y), max_x, max_y),
        slack(round(rooms, max_x, max_y), max_x, max_y) < slack(rooms, max_x, max_y),
{
    let next = round(rooms, max_x, max_y);
    let growing = choose|i: int| 0 <= i < rooms.len() && (#[trigger] rooms[i]).allowed_growth;
    lemma_slack_bounds(rooms, max_x, max_y, growing);
    assert(rooms[growing].valid(max_x, max_y));
    assert forall|i: int| 0 <= i < next.len() implies room_slack(#[trigger] next[i], max_x, max_y)
        < slack(rooms, max_x, max_y) by {
        lemma_round_valid(rooms, max_x, max_y, i);
        lemma_slack_bounds(rooms, max_x, max_y, i);
    }
    lemma_slack_below(next, max_x, max_y, slack(rooms, max_x, max_y));
    assert forall|i: int| 0 <= i < next.len() implies (#[trigger] next[i]).valid(max_x, max_y)
        && next[i].index == i by {
        lemma_round_valid(rooms, max_x, max_y, i);
    }
}

/// Growth settles: after some number of rounds, no more than the largest
/// slack of the rooms, no room may grow any more.
pub proof fn lemma_growth_settles(rooms: Seq<RoomFromStart>, max_x: int, max_y: int) -> (n: nat)
    requires
        rooms_valid(rooms, max_x, max_y),
        0 <= max_x < usize::MAX,
        0 <= max_y < usize::MAX,
    ensures
        n <= slack(rooms, max_x, max_y),
        settles_after(rooms, max_x, max_y, n),
        rooms_valid(settled_rooms(rooms, max_x, max_y), max_x, max_y),
        !any_growing(settled_rooms(rooms, max_x, max_y)),
    decreases slack(rooms, max_x, max_y),
{
    if !any_growing(rooms) {
        assert(settles_after(rooms, max_x, max_y, 0));
        let chosen = choose|m: nat| settles_after(rooms, max_x, max_y, m);
        lemma_settles_once(rooms, max_x, max_y, 0, chosen);
        0
    } else {
        lemma_round_lowers_slack(rooms, max_x, max_y);
        let next = round(rooms, max_x, max_y);
        let rest = lemma_growth_settles(next, max_x, max_y);
        let n = rest + 1;
        assert forall|m: nat| m <= n implies #[trigger] rounds(rooms, max_x, max_y, m) == (if m
            == 0 {
            rooms
        } else {
            rounds(next, max_x, max_y, (m - 1) as nat)
        }) by {
            lemma_rounds_shift(rooms, max_x, max_y, m);
        }
        assert forall|m: nat| m < n implies any_growing(
            #[trigger] rounds(rooms, max_x, max_y, m),
        ) by {
            if m > 0 {
                assert(any_growing(rounds(next, max_x, max_y, (m - 1) as nat)));
            }
        }
        assert(rounds(rooms, max_x, max_y, n) == rounds(next, max_x, max_y, rest));
        assert(settles_after(rooms, max_x, max_y, n));
        let chosen = choose|m: nat| settles_after(rooms, max_x, max_y, m);
        lemma_settles_once(rooms, max_x, max_y, n, chosen);
        let chosen_next = choose|m: nat| settles_after(next, max_x, max_y, m);
        lemma_settles_once(next, max_x, max_y, rest, chosen_next);
        n
    }
}

/// The rounds after the first are the rounds of the rooms as they are
/// after the first.
proof fn lemma_rounds_shift(rooms: Seq<RoomFromStart>, max_x: int, max_y: int, m: nat)
    ensures
        rounds(rooms, max_x, max_y, m) == (if m == 0 {
            rooms
        } else {
            rounds(round(rooms, max_x, max_y), max_x, max_y, (m - 1) as nat)
        }),
    decreases m,
{
    if m > 1 {
        lemma_rounds_shift(rooms, max_x, max_y, (m - 1) as nat);
        assert(rounds(rooms, max_x, max_y, m) == round(
            rounds(rooms, max_x, max_y, (m - 1) as nat),
            max_x,
            max_y,
        ));
    } else if m == 1 {
        assert(rounds(rooms, max_x, max_y, 0) == rooms);
        assert(rounds(rooms, max_x, max_y, 1) == round(
            rounds(rooms, max_x, max_y, 0),
            max_x,
            max_y,
        ));
    }
}

/// The rooms once growth has settled.
pub open spec fn settled_rooms(rooms: Seq<RoomFromStart>, max_x: int, max_y: int) -> Seq<
    RoomFromStart,
> {
    let n = choose|n: nat| settles_after(rooms, max_x, max_y, n);
    rounds(rooms, max_x, max_y, n)
}

/// Growth settles after one number of rounds only.
pub proof fn lemma_settles_once(rooms: Seq<RoomFromStart>, max_x: int, max_y: int, n: nat, m: nat)
    requires
        settles_after(rooms, max_x, max_y, n),
        settles_after(rooms, max_x, max_y, m),
    ensures
        n == m,
{
    if n < m {
        assert(any_growing(rounds(rooms, max_x, max_y, n)));
    } else if m < n {
        assert(any_growing(rounds(rooms, max_x, max_y, m)));
    }
}

} // verus!
