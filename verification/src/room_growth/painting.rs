//! Painting grown rooms into the grid: floors, and the walls around them.

use crate::room_growth::claims::{ClaimView, claim_views, claimed_at};
use crate::room_growth::palette::CRGC;
use crate::room_growth::rooms::{RoomFromStart, lemma_corners_span};
use crate::room_growth::rounds::{claims_square, rooms_valid};
use crate::squares::{GridView, SquareGrid};
use vstd::prelude::*;

verus! {

/// A colour that the floor of a room is painted over: empty, a room
/// start, or a colour of no class.
pub open spec fn floorable(color: (u8, u8, u8)) -> bool {
    CRGC::of(color) is Empty || CRGC::of(color) is Other || CRGC::of(color) is RoomStart
}

/// A colour that the wall around a room is painted over: empty, or a
/// colour of no class.
pub open spec fn wallable(color: (u8, u8, u8)) -> bool {
    CRGC::of(color) is Empty || CRGC::of(color) is Other
}

/// The square at place `s` is addressed by a square of the room that comes
/// before column `col`, or in column `col` before row `row`.
pub open spec fn floor_seen(
    grid: GridView,
    room: RoomFromStart,
    col: int,
    row: int,
    s: int,
) -> bool {
    exists|r: int, c: int|
        room.holds(c, r) && (c < col || (c == col && r < row)) && #[trigger] grid.index_of(r, c)
            == s
}

/// The square at place `s` is addressed by a square of the room.
pub open spec fn in_room(grid: GridView, room: RoomFromStart, s: int) -> bool {
    exists|r: int, c: int| room.holds(c, r) && #[trigger] grid.index_of(r, c) == s
}

/// The square at place `s` is addressed by one of the claims.
pub open spec fn edge_seen(grid: GridView, claims: Seq<ClaimView>, s: int) -> bool {
    exists|t: int|
        0 <= t < claims.len() && grid.index_of((#[trigger] claims[t]).y, claims[t].x) == s
}

/// The square at place `s` is addressed by a square on the edge of the
/// rectangle that the room reaches for.
pub open spec fn on_room_edge(
    grid: GridView,
    room: RoomFromStart,
    max_x: int,
    max_y: int,
    s: int,
) -> bool {
    exists|r: int, c: int|
        claims_square(room, max_x, max_y, c, r) && #[trigger] grid.index_of(r, c) == s
}

/// A colour with floor painted over it where it takes floor.
pub open spec fn with_floor(color: (u8, u8, u8), wanted: bool) -> (u8, u8, u8) {
    if wanted && floorable(color) {
        CRGC::Floor.paint()
    } else {
        color
    }
}

/// A colour with wall painted over it where it takes wall.
pub open spec fn with_wall(color: (u8, u8, u8), wanted: bool) -> (u8, u8, u8) {
    if wanted && wallable(color) {
        CRGC::Wall.paint()
    } else {
        color
    }
}

/// The grid with one room painted into it: floor over the squares of the
/// room, then wall over the squares on the edge of the rectangle that the
/// room reaches for, each only where the colour takes it.
pub open spec fn painted_room(grid: GridView, room: RoomFromStart, max_x: int, max_y: int) -> GridView {
    grid.recolored(
        Seq::new(
            grid.squares.len(),
            |s: int|
                with_wall(
                    with_floor(grid.squares[s].color, in_room(grid, room, s)),
                    on_room_edge(grid, room, max_x, max_y, s),
                ),
        ),
    )
}

/// The grid with the rooms painted into it, one after the other.
pub open spec fn painted(grid: GridView, rooms: Seq<RoomFromStart>, max_x: int, max_y: int) -> GridView
    decreases rooms.len(),
{
    if rooms.len() == 0 {
        grid
    } else {
        painted_room(painted(grid, rooms.drop_last(), max_x, max_y), rooms.last(), max_x, max_y)
    }
}

/// Painting rooms changes colours only: the layout of the grid stays.
pub proof fn lemma_painted_layout(grid: GridView, rooms: Seq<RoomFromStart>, max_x: int, max_y: int)
    ensures
        grid.same_layout(painted(grid, rooms, max_x, max_y)),
    decreases rooms.len(),
{
    if rooms.len() > 0 {
        let before = painted(grid, rooms.drop_last(), max_x, max_y);
        lemma_painted_layout(grid, rooms.drop_last(), max_x, max_y);
        let after = painted_room(before, rooms.last(), max_x, max_y);
        assert forall|i: int| 0 <= i < grid.squares.len() implies (#[trigger] grid.squares[i]).same_place(
            after.squares[i],
        ) by {
            assert(grid.squares[i].same_place(before.squares[i]));
            assert(before.squares[i].same_place(after.squares[i]));
        }
    }
}

/// Paints the floor of a room: every square of the room that is empty, a
/// room start or of no class turns to floor.
fn paint_floor(grid: &mut SquareGrid, room: &RoomFromStart)
    requires
        room.x + room.w <= usize::MAX,
        room.y + room.h <= usize::MAX,
    ensures
        final(grid)@ == old(grid)@.recolored(
            Seq::new(
                old(grid)@.squares.len(),
                |s: int| with_floor(old(grid)@.squares[s].color, in_room(old(grid)@, *room, s)),
            ),
        ),
{
    let ghost start = grid@;
    let end_col = room.x + room.w;
    let end_row = room.y + room.h;
    let mut col: usize = room.x;
    while col < end_col
        invariant
            room.x <= col,
            col <= end_col || room.w == 0,
            end_col == room.x + room.w,
            end_row == room.y + room.h,
            start.same_layout(grid@),
            forall|s: int|
                0 <= s < start.squares.len() ==> (#[trigger] grid@.squares[s]).color == with_floor(
                    start.squares[s].color,
                    floor_seen(start, *room, col as int, room.y as int, s),
                ),
        decreases end_col - col,
    {
        let mut row: usize = room.y;
        while row < end_row
            invariant
                room.x <= col < end_col,
                room.y <= row,
                row <= end_row || room.h == 0,
                end_col == room.x + room.w,
                end_row == room.y + room.h,
                start.same_layout(grid@),
                forall|s: int|
                    0 <= s < start.squares.len() ==> (#[trigger] grid@.squares[s]).color
                        == with_floor(
                        start.squares[s].color,
                        floor_seen(start, *room, col as int, row as int, s),
                    ),
            decreases end_row - row,
        {
            let ghost before = grid@;
            let ghost here = start.index_of(row as int, col as int);
            proof {
                assert(before.index_of(row as int, col as int) == here);
                assert forall|s: int|
                    floor_seen(start, *room, col as int, row + 1, s) <==> (floor_seen(
                        start,
                        *room,
                        col as int,
                        row as int,
                        s,
                    ) || s == here) by {
                    lemma_floor_seen_step(start, *room, col as int, row as int, s);
                }
            }
            if grid.has_square(&row, &col) {
                let square = grid.get_mut(&row, &col);
                match CRGC::classify(*square.color()) {
                    CRGC::Empty | CRGC::Other(_) | CRGC::RoomStart => {
                        square.set_color(CRGC::Floor.color());
                    },
                    _ => {},
                }
            }
            proof {
                assert forall|s: int| 0 <= s < start.squares.len() implies (
                #[trigger] grid@.squares[s]).color == with_floor(
                    start.squares[s].color,
                    floor_seen(start, *room, col as int, row + 1, s),
                ) by {
                    assert(before.squares[s].color == with_floor(
                        start.squares[s].color,
                        floor_seen(start, *room, col as int, row as int, s),
                    ));
                }
                assert forall|s: int| 0 <= s < start.squares.len() implies (
                #[trigger] start.squares[s]).same_place(grid@.squares[s]) by {
                    assert(start.squares[s].same_place(before.squares[s]));
                }
            }
            row += 1;
        }
        proof {
            assert forall|s: int|
                floor_seen(start, *room, col as int, row as int, s) <==> floor_seen(
                    start,
                    *room,
                    col + 1,
                    room.y as int,
                    s,
                ) by {
                lemma_floor_seen_wrap(start, *room, col as int, row as int, s);
            }
        }
        col += 1;
    }
    proof {
        assert forall|s: int|
            floor_seen(start, *room, col as int, room.y as int, s) <==> in_room(start, *room, s) by {
            lemma_floor_seen_all(start, *room, col as int, s);
        }
        assert(grid@.squares =~= start.recolored(
            Seq::new(
                start.squares.len(),
                |s: int| with_floor(start.squares[s].color, in_room(start, *room, s)),
            ),
        ).squares);
    }
}

/// One more square of the room seen adds the place that it addresses.
proof fn lemma_floor_seen_step(grid: GridView, room: RoomFromStart, col: int, row: int, s: int)
    requires
        room.holds(col, row),
    ensures
        floor_seen(grid, room, col, row + 1, s) <==> (floor_seen(grid, room, col, row, s) || s
            == grid.index_of(row, col)),
{
    if floor_seen(grid, room, col, row, s) {
        let (r, c) = choose|r: int, c: int|
            room.holds(c, r) && (c < col || (c == col && r < row)) && #[trigger] grid.index_of(r, c)
                == s;
        assert(room.holds(c, r) && (c < col || (c == col && r < row + 1)) && grid.index_of(r, c)
            == s);
    }
    if s == grid.index_of(row, col) {
        assert(room.holds(col, row) && (col < col || (col == col && row < row + 1))
            && grid.index_of(row, col) == s);
    }
    if floor_seen(grid, room, col, row + 1, s) {
        let (r, c) = choose|r: int, c: int|
            room.holds(c, r) && (c < col || (c == col && r < row + 1)) && #[trigger] grid.index_of(
                r,
                c,
            ) == s;
        if !(c == col && r == row) {
            assert(room.holds(c, r) && (c < col || (c == col && r < row)) && grid.index_of(r, c)
                == s);
        }
    }
}

/// A column of the room seen to its end is the next column not yet begun.
proof fn lemma_floor_seen_wrap(grid: GridView, room: RoomFromStart, col: int, row: int, s: int)
    requires
        row >= room.y + room.h,
    ensures
        floor_seen(grid, room, col, row, s) <==> floor_seen(grid, room, col + 1, room.y as int, s),
{
    if floor_seen(grid, room, col, row, s) {
        let (r, c) = choose|r: int, c: int|
            room.holds(c, r) && (c < col || (c == col && r < row)) && #[trigger] grid.index_of(r, c)
                == s;
        assert(room.holds(c, r) && (c < col + 1 || (c == col + 1 && r < room.y))
            && grid.index_of(r, c) == s);
    }
    if floor_seen(grid, room, col + 1, room.y as int, s) {
        let (r, c) = choose|r: int, c: int|
            room.holds(c, r) && (c < col + 1 || (c == col + 1 && r < room.y))
                && #[trigger] grid.index_of(r, c) == s;
        assert(room.holds(c, r) && (c < col || (c == col && r < row)) && grid.index_of(r, c) == s);
    }
}

/// With all columns of the room seen, every square of the room is seen.
proof fn lemma_floor_seen_all(grid: GridView, room: RoomFromStart, col: int, s: int)
    requires
        col >= room.x + room.w,
    ensures
        floor_seen(grid, room, col, room.y as int, s) <==> in_room(grid, room, s),
{
    if floor_seen(grid, room, col, room.y as int, s) {
        let (r, c) = choose|r: int, c: int|
            room.holds(c, r) && (c < col || (c == col && r < room.y)) && #[trigger] grid.index_of(
                r,
                c,
            ) == s;
        assert(room.holds(c, r) && grid.index_of(r, c) == s);
    }
    if in_room(grid, room, s) {
        let (r, c) = choose|r: int, c: int| room.holds(c, r) && #[trigger] grid.index_of(r, c) == s;
        assert(room.holds(c, r) && (c < col || (c == col && r < room.y)) && grid.index_of(r, c)
            == s);
    }
}

/// With all claims of a room seen, every square on the edge of the
/// rectangle that the room reaches for is seen.
proof fn lemma_edge_seen_all(
    grid: GridView,
    room: RoomFromStart,
    max_x: int,
    max_y: int,
    edge: Seq<ClaimView>,
    s: int,
)
    requires
        forall|x: int, y: int| claimed_at(edge, x, y) <==> claims_square(room, max_x, max_y, x, y),
    ensures
        edge_seen(grid, edge, s) <==> on_room_edge(grid, room, max_x, max_y, s),
{
    if edge_seen(grid, edge, s) {
        let t = choose|t: int|
            0 <= t < edge.len() && grid.index_of((#[trigger] edge[t]).y, edge[t].x) == s;
        assert(edge[t].is_at(edge[t].x, edge[t].y));
        assert(claimed_at(edge, edge[t].x, edge[t].y));
        assert(claims_square(room, max_x, max_y, edge[t].x, edge[t].y) && grid.index_of(
            edge[t].y,
            edge[t].x,
        ) == s);
    }
    if on_room_edge(grid, room, max_x, max_y, s) {
        let (r, c) = choose|r: int, c: int|
            claims_square(room, max_x, max_y, c, r) && #[trigger] grid.index_of(r, c) == s;
        assert(claimed_at(edge, c, r));
        let t = choose|t: int| 0 <= t < edge.len() && (#[trigger] edge[t]).is_at(c, r);
        assert(grid.index_of(edge[t].y, edge[t].x) == s);
    }
}

/// One more claim seen adds the place that it addresses.
proof fn lemma_edge_seen_step(grid: GridView, edge: Seq<ClaimView>, t: int, s: int)
    requires
        0 <= t < edge.len(),
    ensures
        edge_seen(grid, edge.take(t + 1), s) <==> (edge_seen(grid, edge.take(t), s) || s
            == grid.index_of(edge[t].y, edge[t].x)),
{
    let shorter = edge.take(t);
    let longer = edge.take(t + 1);
    if edge_seen(grid, shorter, s) {
        let u = choose|u: int|
            0 <= u < shorter.len() && grid.index_of((#[trigger] shorter[u]).y, shorter[u].x) == s;
        assert(grid.index_of(longer[u].y, longer[u].x) == s);
    }
    if s == grid.index_of(edge[t].y, edge[t].x) {
        assert(grid.index_of(longer[t].y, longer[t].x) == s);
    }
    if edge_seen(grid, longer, s) {
        let u = choose|u: int|
            0 <= u < longer.len() && grid.index_of((#[trigger] longer[u]).y, longer[u].x) == s;
        if u < t {
            assert(grid.index_of(shorter[u].y, shorter[u].x) == s);
        }
    }
}

/// Paints the wall around a room: every square on the edge of the
/// rectangle that the room reaches for that is empty or of no class turns
/// to wall.
fn paint_walls(grid: &mut SquareGrid, room: &RoomFromStart, max_x: usize, max_y: usize)
    requires
        room.valid(max_x as int, max_y as int),
        max_x < usize::MAX,
        max_y < usize::MAX,
    ensures
        final(grid)@ == old(grid)@.recolored(
            Seq::new(
                old(grid)@.squares.len(),
                |s: int|
                    with_wall(
                        old(grid)@.squares[s].color,
                        on_room_edge(old(grid)@, *room, max_x as int, max_y as int, s),
                    ),
            ),
        ),
{
    let ghost start = grid@;
    let corners = room.get_corner_coords(max_x, max_y);
    let border_coords = RoomFromStart::corner_coords_to_square(&corners, room.index);
    let ghost edge = claim_views(border_coords@);
    proof {
        lemma_corners_span(*room, max_x as int, max_y as int, claim_views(corners@));
    }
    let mut t: usize = 0;
    while t < border_coords.len()
        invariant
            t <= border_coords@.len(),
            edge == claim_views(border_coords@),
            start.same_layout(grid@),
            forall|s: int|
                0 <= s < start.squares.len() ==> (#[trigger] grid@.squares[s]).color == with_wall(
                    start.squares[s].color,
                    edge_seen(start, edge.take(t as int), s),
                ),
        decreases border_coords@.len() - t,
    {
        let row = border_coords[t].y;
        let col = border_coords[t].x;
        let ghost before = grid@;
        let ghost here = start.index_of(row as int, col as int);
        proof {
            assert(edge[t as int] == border_coords@[t as int]@);
            assert(before.index_of(row as int, col as int) == here);
            assert forall|s: int|
                edge_seen(start, edge.take(t + 1), s) <==> (edge_seen(start, edge.take(t as int), s)
                    || s == here) by {
                lemma_edge_seen_step(start, edge, t as int, s);
            }
        }
        if grid.has_square(&row, &col) {
            let square = grid.get_mut(&row, &col);
            match CRGC::classify(*square.color()) {
                CRGC::Empty | CRGC::Other(_) => {
                    square.set_color(CRGC::Wall.color());
                },
                _ => {},
            }
        }
        proof {
            assert forall|s: int| 0 <= s < start.squares.len() implies (
            #[trigger] grid@.squares[s]).color == with_wall(
                start.squares[s].color,
                edge_seen(start, edge.take(t + 1), s),
            ) by {
                assert(before.squares[s].color == with_wall(
                    start.squares[s].color,
                    edge_seen(start, edge.take(t as int), s),
                ));
            }
            assert forall|s: int| 0 <= s < start.squares.len() implies (
            #[trigger] start.squares[s]).same_place(grid@.squares[s]) by {
                assert(start.squares[s].same_place(before.squares[s]));
            }
        }
        t += 1;
    }
    proof {
        assert(edge.take(t as int) =~= edge);
        assert forall|s: int|
            edge_seen(start, edge, s) <==> on_room_edge(
                start,
                *room,
                max_x as int,
                max_y as int,
                s,
            ) by {
            lemma_edge_seen_all(start, *room, max_x as int, max_y as int, edge, s);
        }
        assert(grid@.squares =~= start.recolored(
            Seq::new(
                start.squares.len(),
                |s: int|
                    with_wall(
                        start.squares[s].color,
                        on_room_edge(start, *room, max_x as int, max_y as int, s),
                    ),
            ),
        ).squares);
    }
}

/// What a square addresses depends on the width of the image alone.
pub(crate) proof fn lemma_same_addresses(
    a: GridView,
    b: GridView,
    room: RoomFromStart,
    max_x: int,
    max_y: int,
    s: int,
)
    requires
        a.img_width == b.img_width,
    ensures
        on_room_edge(a, room, max_x, max_y, s) == on_room_edge(b, room, max_x, max_y, s),
        in_room(a, room, s) == in_room(b, room, s),
{
    if on_room_edge(a, room, max_x, max_y, s) {
        let (r, c) = choose|r: int, c: int|
            claims_square(room, max_x, max_y, c, r) && #[trigger] a.index_of(r, c) == s;
        assert(claims_square(room, max_x, max_y, c, r) && b.index_of(r, c) == s);
    }
    if on_room_edge(b, room, max_x, max_y, s) {
        let (r, c) = choose|r: int, c: int|
            claims_square(room, max_x, max_y, c, r) && #[trigger] b.index_of(r, c) == s;
        assert(claims_square(room, max_x, max_y, c, r) && a.index_of(r, c) == s);
    }
    if in_room(a, room, s) {
        let (r, c) = choose|r: int, c: int| room.holds(c, r) && #[trigger] a.index_of(r, c) == s;
        assert(room.holds(c, r) && b.index_of(r, c) == s);
    }
    if in_room(b, room, s) {
        let (r, c) = choose|r: int, c: int| room.holds(c, r) && #[trigger] b.index_of(r, c) == s;
        assert(room.holds(c, r) && a.index_of(r, c) == s);
    }
}

/// Paints the rooms into the grid, one after the other: of each its floor
/// and then the wall around it.
pub(crate) fn paint_rooms(grid: &mut SquareGrid, rooms: &Vec<RoomFromStart>, max_x: usize, max_y: usize)
    requires
        rooms_valid(rooms@, max_x as int, max_y as int),
        max_x < usize::MAX,
        max_y < usize::MAX,
    ensures
        final(grid)@ == painted(old(grid)@, rooms@, max_x as int, max_y as int),
{
    let ghost start = grid@;
    let mut k: usize = 0;
    assert(rooms@.take(0) =~= Seq::<RoomFromStart>::empty());
    while k < rooms.len()
        invariant
            k <= rooms@.len(),
            rooms_valid(rooms@, max_x as int, max_y as int),
            max_x < usize::MAX,
            max_y < usize::MAX,
            grid@ == painted(start, rooms@.take(k as int), max_x as int, max_y as int),
        decreases rooms@.len() - k,
    {
        let room = rooms[k];
        assert(room.valid(max_x as int, max_y as int));
        let ghost before = grid@;
        paint_floor(grid, &room);
        let ghost floored = grid@;
        paint_walls(grid, &room, max_x, max_y);
        proof {
            assert(rooms@.take(k + 1).drop_last() =~= rooms@.take(k as int));
            assert(rooms@.take(k + 1).last() == room);
            assert forall|s: int| 0 <= s < before.squares.len() implies on_room_edge(
                floored,
                room,
                max_x as int,
                max_y as int,
                s,
            ) == on_room_edge(before, room, max_x as int, max_y as int, s) by {
                lemma_same_addresses(floored, before, room, max_x as int, max_y as int, s);
            }
            assert(grid@.squares =~= painted_room(
                before,
                room,
                max_x as int,
                max_y as int,
            ).squares);
        }
        k += 1;
    }
    assert(rooms@.take(k as int) =~= rooms@);
}

/// The grid `after` with floor on every square that was a room start in
/// `before` and is still one: a room start that no address of the grid
/// names has no square beside it to grow over, so that its room is the
/// square alone.
pub open spec fn floored_starts(before: GridView, after: GridView) -> GridView {
    after.recolored(
        Seq::new(
            after.squares.len(),
            |i: int|
                with_floor(after.squares[i].color, CRGC::of(before.squares[i].color) is RoomStart),
        ),
    )
}

/// Turns to floor every square that was a room start in `before` and has
/// not been painted as part of a grown room.
pub(crate) fn floor_room_starts(grid: &mut SquareGrid, before: &SquareGrid)
    requires
        before@.same_layout(old(grid)@),
    ensures
        final(grid)@ == floored_starts(before@, old(grid)@),
{
    let ghost start = grid@;
    let mut place: usize = 0;
    while place < grid.len()
        invariant
            place <= start.squares.len(),
            before@.squares.len() == start.squares.len(),
            start.same_layout(grid@),
            forall|i: int|
                0 <= i < place ==> (#[trigger] grid@.squares[i]).color == with_floor(
                    start.squares[i].color,
                    CRGC::of(before@.squares[i].color) is RoomStart,
                ),
            forall|i: int|
                place <= i < start.squares.len() ==> (#[trigger] grid@.squares[i]).color
                    == start.squares[i].color,
        decreases start.squares.len() - place,
    {
        let ghost earlier = grid@;
        match CRGC::classify(*before.square_at(place).color()) {
            CRGC::RoomStart => {
                match CRGC::classify(*grid.square_at(place).color()) {
                    CRGC::Empty | CRGC::Other(_) | CRGC::RoomStart => {
                        grid.set_color_at(place, CRGC::Floor.color());
                    },
                    _ => {},
                }
            },
            _ => {},
        }
        proof {
            assert forall|i: int| 0 <= i < place implies (#[trigger] grid@.squares[i]).color
                == with_floor(
                start.squares[i].color,
                CRGC::of(before@.squares[i].color) is RoomStart,
            ) by {
                assert(grid@.squares[i] == earlier.squares[i]);
            }
            assert forall|i: int| 0 <= i < start.squares.len() implies (
            #[trigger] start.squares[i]).same_place(grid@.squares[i]) by {
                assert(start.squares[i].same_place(earlier.squares[i]));
            }
        }
        place += 1;
    }
    assert(grid@.squares =~= floored_starts(before@, start).squares);
}

} // verus!
