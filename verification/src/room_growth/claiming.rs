//! Rounds of growth carried out: claims are gathered from all rooms, and
//! every room is settled by what its claims say.

use crate::room_growth::claims::{
    ClaimView, SquareClaim, claim_views, claimed_at, columns_of, distinct_cells, is_greatest,
    is_least, merged, rows_of,
};
use crate::room_growth::rooms::{RoomFromStart, lemma_corners_span};
use crate::room_growth::rounds::{
    after_round, any_growing, claims_square, contested, grown, lemma_round_lowers_slack,
    lemma_settles_once, rooms_valid, round, rounds, same_rect, settled_rooms, settles_after, slack,
};
use vstd::prelude::*;

verus! {

/// The room at place `j` stands before place `k`, may grow, and claims
/// the square at column `x` and row `y`.
pub open spec fn claimant_before(
    rooms: Seq<RoomFromStart>,
    max_x: int,
    max_y: int,
    j: int,
    k: int,
    x: int,
    y: int,
) -> bool {
    0 <= j < k && j < rooms.len() && rooms[j].allowed_growth && claims_square(
        rooms[j],
        max_x,
        max_y,
        x,
        y,
    )
}

/// The room at place `j` is a claimant of (`x`, `y`) when the claims of
/// the rooms before place `k` are in, and of the room at place `k` those
/// in `partial`.
pub open spec fn claimant_upto(
    rooms: Seq<RoomFromStart>,
    max_x: int,
    max_y: int,
    j: int,
    k: int,
    partial: Seq<ClaimView>,
    x: int,
    y: int,
) -> bool {
    claimant_before(rooms, max_x, max_y, j, k, x, y) || (j == k && claimed_at(partial, x, y))
}

/// `claims` holds the claims of the rooms before place `k` that may grow,
/// and of the room at place `k` those in `partial`: each claimed square
/// once, with exactly its claimants, each of them once.
pub open spec fn claims_cover(
    claims: Seq<ClaimView>,
    rooms: Seq<RoomFromStart>,
    max_x: int,
    max_y: int,
    k: int,
    partial: Seq<ClaimView>,
) -> bool {
    &&& distinct_cells(claims)
    &&& forall|a: int| 0 <= a < claims.len() ==> (#[trigger] claims[a]).claimants.no_duplicates()
    &&& forall|a: int, j: usize|
        0 <= a < claims.len() ==> (#[trigger] claims[a].claimants.contains(j) <==> claimant_upto(
            rooms,
            max_x,
            max_y,
            j as int,
            k,
            partial,
            claims[a].x,
            claims[a].y,
        ))
    &&& forall|j: int, x: int, y: int| #[trigger]
        claimant_before(rooms, max_x, max_y, j, k, x, y) ==> claimed_at(claims, x, y)
    &&& forall|t: int|
        0 <= t < partial.len() ==> claimed_at(claims, (#[trigger] partial[t]).x, partial[t].y)
}

/// One more claim of the room at place `k`, merged into the claims, keeps
/// them in order.
proof fn lemma_claim_merged(
    claims: Seq<ClaimView>,
    rooms: Seq<RoomFromStart>,
    max_x: int,
    max_y: int,
    k: int,
    border: Seq<ClaimView>,
    t: int,
)
    requires
        0 <= k <= usize::MAX,
        0 <= t < border.len(),
        distinct_cells(border),
        claims_cover(claims, rooms, max_x, max_y, k, border.take(t)),
    ensures
        claims_cover(
            merged(claims, border[t].x, border[t].y, k as usize),
            rooms,
            max_x,
            max_y,
            k,
            border.take(t + 1),
        ),
{
    let x = border[t].x;
    let y = border[t].y;
    let index = k as usize;
    let part = border.take(t);
    let longer = border.take(t + 1);
    let after = merged(claims, x, y, index);
    let joined = claims.map_values(|c: ClaimView| c.joined(x, y, index));
    assert(!claimed_at(part, x, y)) by {
        if claimed_at(part, x, y) {
            let at = choose|i: int| 0 <= i < part.len() && (#[trigger] part[i]).is_at(x, y);
            assert(border[at].x == border[t].x && border[at].y == border[t].y);
        }
    }
    assert forall|cx: int, cy: int| claimed_at(longer, cx, cy) <==> (claimed_at(part, cx, cy) || (cx
        == x && cy == y)) by {
        if claimed_at(part, cx, cy) {
            let at = choose|i: int| 0 <= i < part.len() && (#[trigger] part[i]).is_at(cx, cy);
            assert(longer[at].is_at(cx, cy));
        }
        if cx == x && cy == y {
            assert(longer[t].is_at(cx, cy));
        }
        if claimed_at(longer, cx, cy) {
            let at = choose|i: int| 0 <= i < longer.len() && (#[trigger] longer[i]).is_at(cx, cy);
            if at < t {
                assert(part[at].is_at(cx, cy));
            }
        }
    }
    assert forall|a: int| 0 <= a < claims.len() implies (#[trigger] after[a]).x == claims[a].x
        && after[a].y == claims[a].y && after[a] == claims[a].joined(x, y, index) by {
        assert(joined[a] == claims[a].joined(x, y, index));
    }
    assert forall|cx: int, cy: int| claimed_at(claims, cx, cy) implies claimed_at(after, cx, cy) by {
        let at = choose|i: int| 0 <= i < claims.len() && (#[trigger] claims[i]).is_at(cx, cy);
        assert(after[at].is_at(cx, cy));
    }
    if !claimed_at(claims, x, y) {
        assert(after[claims.len() as int].is_at(x, y));
        assert(after[claims.len() as int].claimants =~= seq![index]);
    }
    assert(claimed_at(after, x, y)) by {
        if claimed_at(claims, x, y) {
        } else {
            assert(after[claims.len() as int].is_at(x, y));
        }
    }
    assert(distinct_cells(after)) by {
        assert forall|i: int, j: int| 0 <= i < j < after.len() implies !((#[trigger] after[i]).x == (
        #[trigger] after[j]).x && after[i].y == after[j].y) by {
            if j < claims.len() {
                assert(!(claims[i].x == claims[j].x && claims[i].y == claims[j].y));
            } else {
                if after[i].x == x && after[i].y == y {
                    assert(claims[i].is_at(x, y));
                }
            }
        }
    }
    assert forall|a: int| 0 <= a < after.len() implies (#[trigger] after[a]).claimants.no_duplicates() by {
        if a < claims.len() {
            assert(claims[a].claimants.no_duplicates());
            if claims[a].is_at(x, y) {
                assert(!claims[a].claimants.contains(index)) by {
                    if claims[a].claimants.contains(index) {
                        assert(claimant_upto(rooms, max_x, max_y, index as int, k, part, x, y));
                    }
                }
                lemma_push_new_no_duplicates(claims[a].claimants, index);
            }
        }
    }
    assert forall|a: int, j: usize| 0 <= a < after.len() implies (
    #[trigger] after[a].claimants.contains(j) <==> claimant_upto(
        rooms,
        max_x,
        max_y,
        j as int,
        k,
        longer,
        after[a].x,
        after[a].y,
    )) by {
        if a < claims.len() {
            assert(claims[a].claimants.contains(j) <==> claimant_upto(
                rooms,
                max_x,
                max_y,
                j as int,
                k,
                part,
                claims[a].x,
                claims[a].y,
            ));
            if claims[a].is_at(x, y) {
                lemma_push_contains(claims[a].claimants, index, j);
            }
        } else {
            assert(after[a].claimants =~= seq![index]);
            assert(after[a].claimants[0] == index);
            if claimant_before(rooms, max_x, max_y, j as int, k, x, y) {
                assert(claimed_at(claims, x, y));
            }
        }
    }
    assert forall|j: int, cx: int, cy: int| #[trigger]
        claimant_before(rooms, max_x, max_y, j, k, cx, cy) implies claimed_at(after, cx, cy) by {
        assert(claimed_at(claims, cx, cy));
    }
    assert forall|u: int| 0 <= u < longer.len() implies claimed_at(
        after,
        (#[trigger] longer[u]).x,
        longer[u].y,
    ) by {
        if u < t {
            assert(part[u] == longer[u]);
            assert(claimed_at(claims, part[u].x, part[u].y));
        }
    }
}

/// A value pushed onto values free of repeats that do not hold it leaves
/// them free of repeats.
proof fn lemma_push_new_no_duplicates(values: Seq<usize>, value: usize)
    requires
        values.no_duplicates(),
        !values.contains(value),
    ensures
        values.push(value).no_duplicates(),
{
    let longer = values.push(value);
    assert forall|i: int, j: int|
        0 <= i < longer.len() && 0 <= j < longer.len() && i != j implies longer[i] != longer[j] by {
        if i < values.len() && j < values.len() {
            assert(values[i] != values[j]);
        } else if i < values.len() {
            assert(values.contains(values[i]));
        } else {
            assert(values.contains(values[j]));
        }
    }
}

/// Values with one more pushed hold what they held, and the one pushed.
proof fn lemma_push_contains(values: Seq<usize>, value: usize, other: usize)
    ensures
        values.push(value).contains(other) <==> (values.contains(other) || other == value),
{
    let longer = values.push(value);
    if values.contains(other) {
        let at = choose|i: int| 0 <= i < values.len() && values[i] == other;
        assert(longer[at] == other);
    }
    if other == value {
        assert(longer[values.len() as int] == other);
    }
    if longer.contains(other) {
        let at = choose|i: int| 0 <= i < longer.len() && longer[i] == other;
        if at < values.len() {
            assert(values[at] == other);
        }
    }
}

/// The claims of all rooms that may grow, merged: each claimed square
/// once, with the rooms that claim it.
fn collect_claims(rooms: &Vec<RoomFromStart>, max_x: usize, max_y: usize) -> (all_claims: Vec<
    SquareClaim,
>)
    requires
        rooms_valid(rooms@, max_x as int, max_y as int),
        max_x < usize::MAX,
        max_y < usize::MAX,
    ensures
        claims_cover(
            claim_views(all_claims@),
            rooms@,
            max_x as int,
            max_y as int,
            rooms@.len() as int,
            seq![],
        ),
{
    let mut all_claims: Vec<SquareClaim> = Vec::new();
    let mut k: usize = 0;
    while k < rooms.len()
        invariant
            k <= rooms@.len(),
            rooms_valid(rooms@, max_x as int, max_y as int),
            max_x < usize::MAX,
            max_y < usize::MAX,
            claims_cover(
                claim_views(all_claims@),
                rooms@,
                max_x as int,
                max_y as int,
                k as int,
                seq![],
            ),
        decreases rooms@.len() - k,
    {
        let room = rooms[k];
        assert(room.valid(max_x as int, max_y as int) && room.index == k);
        if room.allowed_growth {
            let corner_claims = room.get_corner_coords(max_x, max_y);
            let border = RoomFromStart::corner_coords_to_square(&corner_claims, room.index);
            let ghost edge = claim_views(border@);
            proof {
                lemma_corners_span(room, max_x as int, max_y as int, claim_views(corner_claims@));
                assert(edge.take(0) =~= Seq::<ClaimView>::empty());
            }
            let mut t: usize = 0;
            while t < border.len()
                invariant
                    t <= border@.len(),
                    k < rooms@.len(),
                    room == rooms@[k as int],
                    room.index == k,
                    edge == claim_views(border@),
                    distinct_cells(edge),
                    claims_cover(
                        claim_views(all_claims@),
                        rooms@,
                        max_x as int,
                        max_y as int,
                        k as int,
                        edge.take(t as int),
                    ),
                decreases border@.len() - t,
            {
                let claim = &border[t];
                proof {
                    lemma_claim_merged(
                        claim_views(all_claims@),
                        rooms@,
                        max_x as int,
                        max_y as int,
                        k as int,
                        edge,
                        t as int,
                    );
                    assert(edge[t as int] == claim@);
                }
                SquareClaim::update_claims(claim.x, claim.y, &mut all_claims, room.index);
                t += 1;
            }
            proof {
                assert(edge.take(t as int) =~= edge);
                lemma_room_claimed(
                    claim_views(all_claims@),
                    rooms@,
                    max_x as int,
                    max_y as int,
                    k as int,
                    edge,
                );
            }
        } else {
            proof {
                lemma_room_silent(
                    claim_views(all_claims@),
                    rooms@,
                    max_x as int,
                    max_y as int,
                    k as int,
                );
            }
        }
        k += 1;
    }
    all_claims
}

/// Once all the claims of the room at place `k` are in, the claims are
/// those of the rooms before place `k + 1`.
proof fn lemma_room_claimed(
    claims: Seq<ClaimView>,
    rooms: Seq<RoomFromStart>,
    max_x: int,
    max_y: int,
    k: int,
    edge: Seq<ClaimView>,
)
    requires
        0 <= k < rooms.len(),
        rooms[k].allowed_growth,
        forall|x: int, y: int| claimed_at(edge, x, y) <==> claims_square(rooms[k], max_x, max_y, x, y),
        claims_cover(claims, rooms, max_x, max_y, k, edge),
    ensures
        claims_cover(claims, rooms, max_x, max_y, k + 1, seq![]),
{
    let none = Seq::<ClaimView>::empty();
    assert forall|x: int, y: int| !claimed_at(none, x, y) by {}
    assert forall|a: int, j: usize| 0 <= a < claims.len() implies (
    #[trigger] claims[a].claimants.contains(j) <==> claimant_upto(
        rooms,
        max_x,
        max_y,
        j as int,
        k + 1,
        none,
        claims[a].x,
        claims[a].y,
    )) by {
        assert(claims[a].claimants.contains(j) <==> claimant_upto(
            rooms,
            max_x,
            max_y,
            j as int,
            k,
            edge,
            claims[a].x,
            claims[a].y,
        ));
    }
    assert forall|j: int, x: int, y: int| #[trigger]
        claimant_before(rooms, max_x, max_y, j, k + 1, x, y) implies claimed_at(claims, x, y) by {
        if j < k {
            assert(claimant_before(rooms, max_x, max_y, j, k, x, y));
        } else {
            assert(claimed_at(edge, x, y));
            let at = choose|i: int| 0 <= i < edge.len() && (#[trigger] edge[i]).is_at(x, y);
            assert(claimed_at(claims, edge[at].x, edge[at].y));
        }
    }
}

/// A room that may not grow makes no claim: the claims of the rooms
/// before place `k` are those of the rooms before place `k + 1`.
proof fn lemma_room_silent(
    claims: Seq<ClaimView>,
    rooms: Seq<RoomFromStart>,
    max_x: int,
    max_y: int,
    k: int,
)
    requires
        0 <= k < rooms.len(),
        !rooms[k].allowed_growth,
        claims_cover(claims, rooms, max_x, max_y, k, seq![]),
    ensures
        claims_cover(claims, rooms, max_x, max_y, k + 1, seq![]),
{
    let none = Seq::<ClaimView>::empty();
    assert forall|x: int, y: int| !claimed_at(none, x, y) by {}
    assert forall|a: int, j: usize| 0 <= a < claims.len() implies (
    #[trigger] claims[a].claimants.contains(j) <==> claimant_upto(
        rooms,
        max_x,
        max_y,
        j as int,
        k + 1,
        none,
        claims[a].x,
        claims[a].y,
    )) by {
        assert(claims[a].claimants.contains(j) <==> claimant_upto(
            rooms,
            max_x,
            max_y,
            j as int,
            k,
            none,
            claims[a].x,
            claims[a].y,
        ));
    }
    assert forall|j: int, x: int, y: int| #[trigger]
        claimant_before(rooms, max_x, max_y, j, k + 1, x, y) implies claimed_at(claims, x, y) by {
        assert(claimant_before(rooms, max_x, max_y, j, k, x, y));
    }
}

/// The claims that the room `index` is a claimant of, in order.
pub open spec fn held_by(claims: Seq<ClaimView>, index: usize) -> Seq<ClaimView>
    decreases claims.len(),
{
    if claims.len() == 0 {
        seq![]
    } else {
        let before = held_by(claims.drop_last(), index);
        if claims.last().claimants.contains(index) {
            before.push(claims.last())
        } else {
            before
        }
    }
}

/// The claims held by a room are the claims that it is a claimant of.
proof fn lemma_held_by(claims: Seq<ClaimView>, index: usize)
    ensures
        forall|t: int|
            0 <= t < held_by(claims, index).len() ==> (#[trigger] held_by(
                claims,
                index,
            )[t]).claimants.contains(index) && claims.contains(held_by(claims, index)[t]),
        forall|a: int|
            0 <= a < claims.len() && (#[trigger] claims[a]).claimants.contains(index) ==> held_by(
                claims,
                index,
            ).contains(claims[a]),
    decreases claims.len(),
{
    if claims.len() > 0 {
        let shorter = claims.drop_last();
        let before = held_by(shorter, index);
        let held = held_by(claims, index);
        lemma_held_by(shorter, index);
        assert forall|t: int| 0 <= t < held.len() implies (#[trigger] held[t]).claimants.contains(
            index,
        ) && claims.contains(held[t]) by {
            if t < before.len() {
                assert(held[t] == before[t]);
                assert(shorter.contains(before[t]));
                let at = choose|i: int| 0 <= i < shorter.len() && shorter[i] == before[t];
                assert(claims[at] == before[t]);
            } else {
                assert(held[t] == claims[claims.len() - 1]);
            }
        }
        assert forall|a: int|
            0 <= a < claims.len() && (#[trigger] claims[a]).claimants.contains(
                index,
            ) implies held.contains(claims[a]) by {
            if a < shorter.len() {
                assert(shorter[a] == claims[a]);
                assert(before.contains(shorter[a]));
                let at = choose|i: int| 0 <= i < before.len() && before[i] == shorter[a];
                assert(held[at] == claims[a]);
            } else {
                assert(held[before.len() as int] == claims[a]);
            }
        }
    }
}

/// Whether the room `index` is among the claimants.
fn is_claimant(claimants: &Vec<usize>, index: usize) -> (found: bool)
    ensures
        found == claimants@.contains(index),
{
    let mut i: usize = 0;
    while i < claimants.len()
        invariant
            i <= claimants@.len(),
            forall|j: int| 0 <= j < i ==> claimants@[j] != index,
        decreases claimants@.len() - i,
    {
        if claimants[i] == index {
            return true;
        }
        i += 1;
    }
    false
}

/// Copies of the claims that the room `room_index` is a claimant of.
fn claims_held_by(all_claims: &Vec<SquareClaim>, room_index: usize) -> (held: Vec<SquareClaim>)
    ensures
        claim_views(held@) == held_by(claim_views(all_claims@), room_index),
{
    let ghost all = claim_views(all_claims@);
    let mut held: Vec<SquareClaim> = Vec::new();
    let mut a: usize = 0;
    while a < all_claims.len()
        invariant
            a <= all_claims@.len(),
            all == claim_views(all_claims@),
            claim_views(held@) =~= held_by(all.take(a as int), room_index),
        decreases all_claims@.len() - a,
    {
        assert(all.take(a + 1).drop_last() =~= all.take(a as int));
        assert(all.take(a + 1).last() == all_claims@[a as int]@);
        if is_claimant(&all_claims[a].claimants_indices, room_index) {
            let ghost before = claim_views(held@);
            let copy = all_claims[a].clone();
            held.push(copy);
            assert(claim_views(held@) =~= before.push(copy@));
        }
        a += 1;
    }
    assert(all.take(a as int) =~= all);
    held
}

/// Whether none of the claims has more than one claimant.
fn none_shared(claims: &Vec<SquareClaim>) -> (alone: bool)
    ensures
        alone == forall|t: int|
            0 <= t < claims@.len() ==> (#[trigger] claim_views(claims@)[t]).claimants.len() <= 1,
{
    let mut t: usize = 0;
    while t < claims.len()
        invariant
            t <= claims@.len(),
            forall|u: int| 0 <= u < t ==> (#[trigger] claim_views(claims@)[u]).claimants.len() <= 1,
        decreases claims@.len() - t,
    {
        if claims[t].claimants_indices.len() > 1 {
            assert(claim_views(claims@)[t as int].claimants.len() > 1);
            return false;
        }
        t += 1;
    }
    true
}

/// What the claims held by a room say of it, once the claims of all rooms
/// are in. A room that may not grow holds none. A room that may grow
/// holds claims on just the squares that it reaches for, all of them
/// within the grid, and shares one of them where it is contested.
proof fn lemma_held_claims(
    claims: Seq<ClaimView>,
    rooms: Seq<RoomFromStart>,
    max_x: int,
    max_y: int,
    index: usize,
)
    requires
        rooms_valid(rooms, max_x, max_y),
        0 <= max_x,
        0 <= max_y,
        index < rooms.len(),
        claims_cover(claims, rooms, max_x, max_y, rooms.len() as int, seq![]),
    ensures
        !rooms[index as int].allowed_growth ==> held_by(claims, index).len() == 0,
        forall|t: int|
            0 <= t < held_by(claims, index).len() ==> claims_square(
                rooms[index as int],
                max_x,
                max_y,
                (#[trigger] held_by(claims, index)[t]).x,
                held_by(claims, index)[t].y,
            ),
        forall|x: int, y: int|
            rooms[index as int].allowed_growth && claims_square(
                rooms[index as int],
                max_x,
                max_y,
                x,
                y,
            ) ==> claimed_at(held_by(claims, index), x, y),
        rooms[index as int].allowed_growth ==> (contested(rooms, index as int, max_x, max_y)
            <==> !(forall|t: int|
            0 <= t < held_by(claims, index).len() ==> (#[trigger] held_by(
                claims,
                index,
            )[t]).claimants.len() <= 1)),
{
    let i = index as int;
    let held = held_by(claims, index);
    let none = Seq::<ClaimView>::empty();
    let count = rooms.len() as int;
    lemma_held_by(claims, index);
    assert forall|x: int, y: int| !claimed_at(none, x, y) by {}
    assert forall|t: int| 0 <= t < held.len() implies claimant_before(
        rooms,
        max_x,
        max_y,
        i,
        count,
        (#[trigger] held[t]).x,
        held[t].y,
    ) by {
        assert(claims.contains(held[t]));
        let a = choose|a: int| 0 <= a < claims.len() && claims[a] == held[t];
        assert(claims[a].claimants.contains(index));
        assert(claimant_upto(rooms, max_x, max_y, i, count, none, claims[a].x, claims[a].y));
    }
    if !rooms[index as int].allowed_growth && held.len() > 0 {
        assert(claimant_before(rooms, max_x, max_y, i, count, held[0].x, held[0].y));
    }
    assert forall|x: int, y: int|
        rooms[index as int].allowed_growth && claims_square(
            rooms[index as int],
            max_x,
            max_y,
            x,
            y,
        ) implies claimed_at(
        held,
        x,
        y,
    ) by {
        assert(claimant_before(rooms, max_x, max_y, i, count, x, y));
        assert(claimed_at(claims, x, y));
        let a = choose|a: int| 0 <= a < claims.len() && (#[trigger] claims[a]).is_at(x, y);
        assert(claimant_upto(rooms, max_x, max_y, i, count, none, claims[a].x, claims[a].y));
        assert(claims[a].claimants.contains(index));
        assert(held.contains(claims[a]));
        let t = choose|t: int| 0 <= t < held.len() && held[t] == claims[a];
        assert(held[t].is_at(x, y));
    }
    if rooms[index as int].allowed_growth {
        let alone = forall|t: int|
            0 <= t < held.len() ==> (#[trigger] held[t]).claimants.len() <= 1;
        if contested(rooms, index as int, max_x, max_y) {
            let (j, x, y) = choose|j: int, x: int, y: int|
                0 <= j < rooms.len() && j != i && rooms[j].allowed_growth && #[trigger] claims_square(
                    rooms[j],
                    max_x,
                    max_y,
                    x,
                    y,
                ) && claims_square(rooms[index as int], max_x, max_y, x, y);
            assert(claimant_before(rooms, max_x, max_y, i, count, x, y));
            assert(claimant_before(rooms, max_x, max_y, j, count, x, y));
            assert(claimed_at(claims, x, y));
            let a = choose|a: int| 0 <= a < claims.len() && (#[trigger] claims[a]).is_at(x, y);
            let other = j as usize;
            assert(claimant_upto(rooms, max_x, max_y, i, count, none, claims[a].x, claims[a].y));
            assert(claimant_upto(
                rooms,
                max_x,
                max_y,
                other as int,
                count,
                none,
                claims[a].x,
                claims[a].y,
            ));
            assert(claims[a].claimants.contains(index));
            assert(claims[a].claimants.contains(other));
            assert(held.contains(claims[a]));
            let t = choose|t: int| 0 <= t < held.len() && held[t] == claims[a];
            let p = choose|p: int| 0 <= p < held[t].claimants.len() && held[t].claimants[p] == index;
            let q = choose|q: int| 0 <= q < held[t].claimants.len() && held[t].claimants[q] == other;
            assert(p != q);
            assert(held[t].claimants.len() > 1);
            assert(!alone);
        }
        if !alone {
            let t = choose|t: int|
                0 <= t < held.len() && !((#[trigger] held[t]).claimants.len() <= 1);
            assert(claims.contains(held[t]));
            let a = choose|a: int| 0 <= a < claims.len() && claims[a] == held[t];
            let names = claims[a].claimants;
            assert(names.no_duplicates());
            assert(names[0] != names[1]);
            let other = if names[0] != index {
                names[0]
            } else {
                names[1]
            };
            assert(names.contains(other)) by {
                if names[0] != index {
                    assert(names[0] == other);
                } else {
                    assert(names[1] == other);
                }
            }
            assert(claimant_upto(
                rooms,
                max_x,
                max_y,
                other as int,
                count,
                none,
                claims[a].x,
                claims[a].y,
            ));
            assert(claimant_before(rooms, max_x, max_y, i, count, held[t].x, held[t].y));
            assert(claims_square(rooms[other as int], max_x, max_y, claims[a].x, claims[a].y));
            assert(contested(rooms, index as int, max_x, max_y));
        }
    }
}

/// The smallest rectangle that holds a valid room and every square that
/// it reaches for is the rectangle that it reaches for.
proof fn lemma_bounding_box(
    room: RoomFromStart,
    max_x: int,
    max_y: int,
    held: Seq<ClaimView>,
    larger: RoomFromStart,
)
    requires
        room.valid(max_x, max_y),
        0 <= max_x < usize::MAX,
        0 <= max_y < usize::MAX,
        forall|t: int|
            0 <= t < held.len() ==> claims_square(
                room,
                max_x,
                max_y,
                (#[trigger] held[t]).x,
                held[t].y,
            ),
        forall|x: int, y: int| claims_square(room, max_x, max_y, x, y) ==> claimed_at(held, x, y),
        larger.index == room.index,
        larger.init_x == room.init_x,
        larger.init_y == room.init_y,
        larger.allowed_growth == room.allowed_growth,
        is_least(larger.x as int, room.x as int, columns_of(held)),
        is_least(larger.y as int, room.y as int, rows_of(held)),
        is_greatest(larger.x + larger.w - 1, room.x + room.w - 1, columns_of(held)),
        is_greatest(larger.y + larger.h - 1, room.y + room.h - 1, rows_of(held)),
    ensures
        larger == grown(room, max_x, max_y),
{
    let frame = room.reach(max_x, max_y);
    let columns = columns_of(held);
    let rows = rows_of(held);
    assert(claims_square(room, max_x, max_y, frame.min_x, frame.min_y));
    assert(claims_square(room, max_x, max_y, frame.max_x, frame.max_y));
    assert(claimed_at(held, frame.min_x, frame.min_y));
    assert(claimed_at(held, frame.max_x, frame.max_y));
    let low = choose|t: int| 0 <= t < held.len() && (#[trigger] held[t]).is_at(frame.min_x, frame.min_y);
    let high = choose|t: int|
        0 <= t < held.len() && (#[trigger] held[t]).is_at(frame.max_x, frame.max_y);
    assert(columns[low] == frame.min_x);
    assert(rows[low] == frame.min_y);
    assert(columns[high] == frame.max_x);
    assert(rows[high] == frame.max_y);
    assert forall|t: int| 0 <= t < held.len() implies frame.min_x <= #[trigger] columns[t]
        <= frame.max_x && frame.min_y <= rows[t] <= frame.max_y by {
        assert(claims_square(room, max_x, max_y, held[t].x, held[t].y));
    }
    assert(larger.x == frame.min_x) by {
        if columns.contains(larger.x as int) {
            let t = choose|t: int| 0 <= t < columns.len() && columns[t] == larger.x as int;
            assert(frame.min_x <= columns[t]);
        }
    }
    assert(larger.y == frame.min_y) by {
        if rows.contains(larger.y as int) {
            let t = choose|t: int| 0 <= t < rows.len() && rows[t] == larger.y as int;
            assert(frame.min_y <= rows[t]);
        }
    }
    assert(larger.x + larger.w - 1 == frame.max_x) by {
        if columns.contains(larger.x + larger.w - 1) {
            let t = choose|t: int| 0 <= t < columns.len() && columns[t] == larger.x + larger.w - 1;
            assert(columns[t] <= frame.max_x);
        }
    }
    assert(larger.y + larger.h - 1 == frame.max_y) by {
        if rows.contains(larger.y + larger.h - 1) {
            let t = choose|t: int| 0 <= t < rows.len() && rows[t] == larger.y + larger.h - 1;
            assert(rows[t] <= frame.max_y);
        }
    }
}

/// One round of growth on claims that are all in: every room is stopped,
/// grown, or left as it is, by what its claims say.
fn settle_round(
    rooms: &mut Vec<RoomFromStart>,
    all_claims: &Vec<SquareClaim>,
    max_x: usize,
    max_y: usize,
)
    requires
        rooms_valid(old(rooms)@, max_x as int, max_y as int),
        max_x < usize::MAX,
        max_y < usize::MAX,
        claims_cover(
            claim_views(all_claims@),
            old(rooms)@,
            max_x as int,
            max_y as int,
            old(rooms)@.len() as int,
            seq![],
        ),
    ensures
        final(rooms)@ == round(old(rooms)@, max_x as int, max_y as int),
{
    let ghost before = rooms@;
    let ghost claims = claim_views(all_claims@);
    let count = rooms.len();
    let mut i: usize = 0;
    while i < count
        invariant
            i <= count,
            count == before.len(),
            rooms@.len() == before.len(),
            claims == claim_views(all_claims@),
            rooms_valid(before, max_x as int, max_y as int),
            max_x < usize::MAX,
            max_y < usize::MAX,
            claims_cover(claims, before, max_x as int, max_y as int, before.len() as int, seq![]),
            forall|j: int|
                0 <= j < i ==> #[trigger] rooms@[j] == after_round(
                    before,
                    j,
                    max_x as int,
                    max_y as int,
                ),
            forall|j: int| i <= j < before.len() ==> #[trigger] rooms@[j] == before[j],
        decreases count - i,
    {
        let mut room = rooms[i];
        let ghost start = room;
        assert(start == before[i as int]);
        assert(start.valid(max_x as int, max_y as int) && start.index == i);
        let room_index = room.index;
        let held = claims_held_by(all_claims, room_index);
        let allow_growth = none_shared(&held);
        let ghost mine = held_by(claims, i);
        proof {
            lemma_held_claims(claims, before, max_x as int, max_y as int, i);
            assert(mine == claim_views(held@));
            assert(allow_growth == forall|t: int|
                0 <= t < mine.len() ==> (#[trigger] mine[t]).claimants.len() <= 1);
        }
        room.allowed_growth = allow_growth;
        if room.allowed_growth {
            let prev = (room.x, room.y, room.w, room.h);
            proof {
                assert forall|t: int| 0 <= t < held@.len() implies (#[trigger] held@[t]).x
                    < usize::MAX && held@[t].y < usize::MAX by {
                    assert(mine[t] == held@[t]@);
                    assert(claims_square(start, max_x as int, max_y as int, mine[t].x, mine[t].y));
                }
            }
            room.consume_claims(&held);
            let cur = (room.x, room.y, room.w, room.h);
            proof {
                if start.allowed_growth {
                    assert(!contested(before, i as int, max_x as int, max_y as int));
                    lemma_bounding_box(
                        start,
                        max_x as int,
                        max_y as int,
                        mine,
                        RoomFromStart { allowed_growth: true, ..room },
                    );
                } else {
                    assert(mine.len() == 0);
                    assert(columns_of(mine).len() == 0);
                    assert(rows_of(mine).len() == 0);
                    assert(same_rect(room, start));
                }
            }
            if prev.0 == cur.0 && prev.1 == cur.1 && prev.2 == cur.2 && prev.3 == cur.3 {
                room.allowed_growth = false;
            }
        } else {
            assert(start.allowed_growth);
            assert(contested(before, i as int, max_x as int, max_y as int));
        }
        assert(room == after_round(before, i as int, max_x as int, max_y as int));
        rooms[i] = room;
        i += 1;
    }
    assert(rooms@ =~= round(before, max_x as int, max_y as int));
}

/// Whether some room may still grow.
fn any_growable(rooms: &Vec<RoomFromStart>) -> (growing: bool)
    ensures
        growing == any_growing(rooms@),
{
    let mut i: usize = 0;
    while i < rooms.len()
        invariant
            i <= rooms@.len(),
            forall|j: int| 0 <= j < i ==> !(#[trigger] rooms@[j]).allowed_growth,
        decreases rooms@.len() - i,
    {
        if rooms[i].allowed_growth {
            return true;
        }
        i += 1;
    }
    false
}

/// Grows the rooms round by round until none may grow any more.
pub(crate) fn grow_until_settled(rooms: Vec<RoomFromStart>, max_x: usize, max_y: usize) -> (settled: Vec<
    RoomFromStart,
>)
    requires
        rooms_valid(rooms@, max_x as int, max_y as int),
        max_x < usize::MAX,
        max_y < usize::MAX,
    ensures
        settled@ == settled_rooms(rooms@, max_x as int, max_y as int),
        rooms_valid(settled@, max_x as int, max_y as int),
        !any_growing(settled@),
{
    let ghost start = rooms@;
    let ghost mut n: nat = 0;
    let mut rooms = rooms;
    while any_growable(&rooms)
        invariant
            max_x < usize::MAX,
            max_y < usize::MAX,
            rooms_valid(rooms@, max_x as int, max_y as int),
            rooms@ == rounds(start, max_x as int, max_y as int, n),
            forall|m: nat| m < n ==> any_growing(#[trigger] rounds(start, max_x as int, max_y as int, m)),
        decreases slack(rooms@, max_x as int, max_y as int),
    {
        proof {
            lemma_round_lowers_slack(rooms@, max_x as int, max_y as int);
        }
        let all_claims = collect_claims(&rooms, max_x, max_y);
        settle_round(&mut rooms, &all_claims, max_x, max_y);
        proof {
            n = n + 1;
        }
    }
    proof {
        assert(settles_after(start, max_x as int, max_y as int, n));
        let chosen = choose|m: nat| settles_after(start, max_x as int, max_y as int, m);
        lemma_settles_once(start, max_x as int, max_y as int, n, chosen);
    }
    rooms
}

} // verus!
