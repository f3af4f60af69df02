//! Rooms as rectangles: what a room reaches for, and how it grows.

use crate::room_growth::claims::{
    ClaimView, Frame, SquareClaim, claim_if_new, claim_views, claimed_at, columns_of,
    distinct_cells, edge_claims, edge_columns, edge_rows, is_greatest, is_least, rows_of, span,
    span_with, spanned, stretch,
};

use vstd::prelude::*;

verus! {

/// A rectangular room grown from a room start: the columns `x` up to
/// `x + w` and the rows `y` up to `y + h`, the room's index among the
/// rooms, the square it started from, and whether it may still grow.
#[derive(Clone, Copy, Debug)]
pub struct RoomFromStart {
    pub x: usize,
    pub y: usize,
    pub w: usize,
    pub h: usize,
    pub index: usize,
    pub init_x: usize,
    pub init_y: usize,
    pub allowed_growth: bool,
}

impl PartialEq for RoomFromStart {
    /// Rooms are the same room where they started from the same square.
    fn eq(&self, other: &Self) -> (same: bool) {
        self.init_x == other.init_x && self.init_y == other.init_y
    }
}

impl vstd::std_specs::cmp::PartialEqSpecImpl for RoomFromStart {
    open spec fn obeys_eq_spec() -> bool {
        true
    }

    open spec fn eq_spec(&self, other: &Self) -> bool {
        self.init_x == other.init_x && self.init_y == other.init_y
    }
}

impl RoomFromStart {
    /// A room of one square at column `x` and row `y`, free to grow.
    pub fn from_square_coord(x: usize, y: usize, index: usize) -> (room: RoomFromStart)
        ensures
            room == (RoomFromStart {
                x,
                y,
                w: 1,
                h: 1,
                index,
                init_x: x,
                init_y: y,
                allowed_growth: true,
            }),
    {
        RoomFromStart { x, y, w: 1, h: 1, index, init_x: x, init_y: y, allowed_growth: true }
    }

    /// The room has a width and a height and lies within the columns up to
    /// `max_x` and the rows up to `max_y`.
    pub open spec fn valid(self, max_x: int, max_y: int) -> bool {
        &&& self.w >= 1
        &&& self.h >= 1
        &&& self.x + self.w - 1 <= max_x
        &&& self.y + self.h - 1 <= max_y
    }

    /// The square at column `x` and row `y` belongs to the room.
    pub open spec fn holds(self, x: int, y: int) -> bool {
        self.x <= x < self.x + self.w && self.y <= y < self.y + self.h
    }

    /// The rectangle that the room reaches for: the room and one more
    /// column or row on every side, as far as there is one, the last column
    /// being `max_x` and the last row `max_y`.
    pub open spec fn reach(self, max_x: int, max_y: int) -> Frame {
        Frame {
            min_x: if self.x >= 1 {
                self.x - 1
            } else {
                0
            },
            max_x: if max_x < self.x + self.w {
                max_x
            } else {
                self.x + self.w
            },
            min_y: if self.y >= 1 {
                self.y - 1
            } else {
                0
            },
            max_y: if max_y < self.y + self.h {
                max_y
            } else {
                self.y + self.h
            },
        }
    }

    /// The four corners of the rectangle that the room reaches for, each
    /// as a claim by the room: upper left, lower left, upper right, lower
    /// right. A corner may lie within the room.
    pub fn get_corner_coords(&self, max_x: usize, max_y: usize) -> (corners: Vec<SquareClaim>)
        requires
            self.x + self.w <= usize::MAX,
            self.y + self.h <= usize::MAX,
        ensures
            ({
                let frame = self.reach(max_x as int, max_y as int);
                let mine = seq![self.index];
                claim_views(corners@) == seq![
                    ClaimView { x: frame.min_x, y: frame.min_y, claimants: mine },
                    ClaimView { x: frame.min_x, y: frame.max_y, claimants: mine },
                    ClaimView { x: frame.max_x, y: frame.min_y, claimants: mine },
                    ClaimView { x: frame.max_x, y: frame.max_y, claimants: mine },
                ]
            }),
    {
        let mut corners = Vec::new();
        let low_x = if self.x >= 1 {
            self.x - 1
        } else {
            0
        };
        let low_y = if self.y >= 1 {
            self.y - 1
        } else {
            0
        };
        let hih_x = if max_x < self.x + self.w {
            max_x
        } else {
            self.x + self.w
        };
        let hih_y = if max_y < self.y + self.h {
            max_y
        } else {
            self.y + self.h
        };
        corners.push(SquareClaim::new(low_x, low_y, self.index));
        corners.push(SquareClaim::new(low_x, hih_y, self.index));
        corners.push(SquareClaim::new(hih_x, low_y, self.index));
        corners.push(SquareClaim::new(hih_x, hih_y, self.index));
        proof {
            let frame = self.reach(max_x as int, max_y as int);
            let mine = seq![self.index];
            assert(claim_views(corners@) =~= seq![
                ClaimView { x: frame.min_x, y: frame.min_y, claimants: mine },
                ClaimView { x: frame.min_x, y: frame.max_y, claimants: mine },
                ClaimView { x: frame.max_x, y: frame.min_y, claimants: mine },
                ClaimView { x: frame.max_x, y: frame.max_y, claimants: mine },
            ]);
        }
        corners
    }

    /// The claims of the room `room_index` on the squares along the edge
    /// of the rectangle spanned by `corners`, each square claimed once:
    /// first along the first and last row, column by column, then along
    /// the first and last column, row by row.
    pub fn corner_coords_to_square(corners: &Vec<SquareClaim>, room_index: usize) -> (square_claims:
        Vec<SquareClaim>)
        ensures
            claim_views(square_claims@) == edge_claims(
                spanned(claim_views(corners@)),
                room_index,
            ),
            distinct_cells(claim_views(square_claims@)),
            forall|i: int|
                0 <= i < square_claims@.len() ==> (#[trigger] claim_views(
                    square_claims@,
                )[i]).claimants == seq![room_index],
            forall|x: int, y: int|
                claimed_at(claim_views(square_claims@), x, y) <==> spanned(
                    claim_views(corners@),
                ).on_edge(x, y),
    {
        let ghost columns = columns_of(claim_views(corners@));
        let ghost rows = rows_of(claim_views(corners@));
        let mut min_x: usize = usize::MAX;
        let mut min_y: usize = usize::MAX;
        let mut max_x: usize = 0;
        let mut max_y: usize = 0;
        let mut k: usize = 0;
        while k < corners.len()
            invariant
                k <= corners@.len(),
                columns == columns_of(claim_views(corners@)),
                rows == rows_of(claim_views(corners@)),
                span(columns.take(k as int)) == (min_x as int, max_x as int),
                span(rows.take(k as int)) == (min_y as int, max_y as int),
            decreases corners@.len() - k,
        {
            assert(columns.take(k + 1).drop_last() =~= columns.take(k as int));
            assert(rows.take(k + 1).drop_last() =~= rows.take(k as int));
            assert(columns.take(k + 1).last() == corners@[k as int].x);
            assert(rows.take(k + 1).last() == corners@[k as int].y);
            let corner = &corners[k];
            if corner.x < min_x {
                min_x = corner.x
            } else if corner.x > max_x {
                max_x = corner.x
            }
            if corner.y < min_y {
                min_y = corner.y
            } else if corner.y > max_y {
                max_y = corner.y
            }
            k += 1;
        }
        assert(columns.take(k as int) =~= columns);
        assert(rows.take(k as int) =~= rows);
        let ghost frame = spanned(claim_views(corners@));
        assert(frame == (Frame {
            min_x: min_x as int,
            max_x: max_x as int,
            min_y: min_y as int,
            max_y: max_y as int,
        }));
        let mut square_claims: Vec<SquareClaim> = Vec::new();
        assert(claim_views(square_claims@) =~= edge_rows(frame, room_index, 0));
        if min_x <= max_x {
            let mut x: usize = min_x;
            loop
                invariant_except_break
                    min_x <= x <= max_x,
                    claim_views(square_claims@) == edge_rows(
                        frame,
                        room_index,
                        (x - min_x) as nat,
                    ),
                    distinct_cells(claim_views(square_claims@)),
                    forall|i: int|
                        0 <= i < square_claims@.len() ==> (#[trigger] claim_views(
                            square_claims@,
                        )[i]).claimants == seq![room_index],
                    forall|cx: int, cy: int|
                        claimed_at(claim_views(square_claims@), cx, cy) <==> (min_x <= cx < x && (cy
                            == min_y || cy == max_y)),
                    frame == (Frame {
                        min_x: min_x as int,
                        max_x: max_x as int,
                        min_y: min_y as int,
                        max_y: max_y as int,
                    }),
                ensures
                    claim_views(square_claims@) == edge_rows(
                        frame,
                        room_index,
                        stretch(min_x as int, max_x as int),
                    ),
                    distinct_cells(claim_views(square_claims@)),
                    forall|i: int|
                        0 <= i < square_claims@.len() ==> (#[trigger] claim_views(
                            square_claims@,
                        )[i]).claimants == seq![room_index],
                    forall|cx: int, cy: int|
                        claimed_at(claim_views(square_claims@), cx, cy) <==> (min_x <= cx <= max_x
                            && (cy == min_y || cy == max_y)),
                decreases max_x - x,
            {
                claim_if_new(&mut square_claims, x, min_y, room_index);
                claim_if_new(&mut square_claims, x, max_y, room_index);
                assert(claim_views(square_claims@) == edge_rows(
                    frame,
                    room_index,
                    (x - min_x + 1) as nat,
                ));
                if x == max_x {
                    break ;
                }
                x += 1;
            }
        } else {
            assert forall|cx: int, cy: int| !claimed_at(claim_views(square_claims@), cx, cy) by {}
        }
        assert(claim_views(square_claims@) == edge_columns(frame, room_index, 0));
        if min_y <= max_y {
            let mut y: usize = min_y;
            loop
                invariant_except_break
                    min_y <= y <= max_y,
                    claim_views(square_claims@) == edge_columns(
                        frame,
                        room_index,
                        (y - min_y) as nat,
                    ),
                    frame == (Frame {
                        min_x: min_x as int,
                        max_x: max_x as int,
                        min_y: min_y as int,
                        max_y: max_y as int,
                    }),
                    distinct_cells(claim_views(square_claims@)),
                    forall|i: int|
                        0 <= i < square_claims@.len() ==> (#[trigger] claim_views(
                            square_claims@,
                        )[i]).claimants == seq![room_index],
                    forall|cx: int, cy: int|
                        claimed_at(claim_views(square_claims@), cx, cy) <==> ((min_x <= cx <= max_x
                            && (cy == min_y || cy == max_y)) || (min_y <= cy < y && (cx == min_x
                            || cx == max_x))),
                ensures
                    claim_views(square_claims@) == edge_columns(
                        frame,
                        room_index,
                        stretch(min_y as int, max_y as int),
                    ),
                    distinct_cells(claim_views(square_claims@)),
                    forall|i: int|
                        0 <= i < square_claims@.len() ==> (#[trigger] claim_views(
                            square_claims@,
                        )[i]).claimants == seq![room_index],
                    forall|cx: int, cy: int|
                        claimed_at(claim_views(square_claims@), cx, cy) <==> ((min_x <= cx <= max_x
                            && (cy == min_y || cy == max_y)) || (min_y <= cy <= max_y && (cx
                            == min_x || cx == max_x))),
                decreases max_y - y,
            {
                claim_if_new(&mut square_claims, min_x, y, room_index);
                claim_if_new(&mut square_claims, max_x, y, room_index);
                assert(claim_views(square_claims@) == edge_columns(
                    frame,
                    room_index,
                    (y - min_y + 1) as nat,
                ));
                if y == max_y {
                    break ;
                }
                y += 1;
            }
        }
        square_claims
    }

    /// Grows the room to the smallest rectangle that holds it and every
    /// square claimed in `claims`.
    pub fn consume_claims(&mut self, claims: &Vec<SquareClaim>)
        requires
            old(self).w >= 1,
            old(self).h >= 1,
            old(self).x + old(self).w <= usize::MAX,
            old(self).y + old(self).h <= usize::MAX,
            forall|i: int|
                0 <= i < claims@.len() ==> (#[trigger] claims@[i]).x < usize::MAX && claims@[i].y
                    < usize::MAX,
        ensures
            final(self).index == old(self).index,
            final(self).init_x == old(self).init_x,
            final(self).init_y == old(self).init_y,
            final(self).allowed_growth == old(self).allowed_growth,
            final(self).w >= 1,
            final(self).h >= 1,
            is_least(
                final(self).x as int,
                old(self).x as int,
                columns_of(claim_views(claims@)),
            ),
            is_least(
                final(self).y as int,
                old(self).y as int,
                rows_of(claim_views(claims@)),
            ),
            is_greatest(
                final(self).x + final(self).w - 1,
                old(self).x + old(self).w - 1,
                columns_of(claim_views(claims@)),
            ),
            is_greatest(
                final(self).y + final(self).h - 1,
                old(self).y + old(self).h - 1,
                rows_of(claim_views(claims@)),
            ),
    {
        let ghost columns = columns_of(claim_views(claims@));
        let ghost rows = rows_of(claim_views(claims@));
        let mut min_x = self.x;
        let mut min_y = self.y;
        let mut max_x = self.x + self.w - 1;
        let mut max_y = self.y + self.h - 1;
        let mut k: usize = 0;
        while k < claims.len()
            invariant
                k <= claims@.len(),
                columns == columns_of(claim_views(claims@)),
                rows == rows_of(claim_views(claims@)),
                min_x <= max_x < usize::MAX,
                min_y <= max_y < usize::MAX,
                forall|i: int|
                    0 <= i < claims@.len() ==> (#[trigger] claims@[i]).x < usize::MAX
                        && claims@[i].y < usize::MAX,
                is_least(min_x as int, self.x as int, columns.take(k as int)),
                is_least(min_y as int, self.y as int, rows.take(k as int)),
                is_greatest(max_x as int, self.x + self.w - 1, columns.take(k as int)),
                is_greatest(max_y as int, self.y + self.h - 1, rows.take(k as int)),
            decreases claims@.len() - k,
        {
            let claim = &claims[k];
            proof {
                let shorter_x = columns.take(k as int);
                let longer_x = columns.take(k + 1);
                let shorter_y = rows.take(k as int);
                let longer_y = rows.take(k + 1);
                assert(longer_x =~= shorter_x.push(claim.x as int));
                assert(longer_y =~= shorter_y.push(claim.y as int));
                assert(longer_x[k as int] == claim.x);
                assert(longer_y[k as int] == claim.y);
                assert forall|v: int| shorter_x.contains(v) implies longer_x.contains(v) by {
                    let at = choose|i: int| 0 <= i < shorter_x.len() && shorter_x[i] == v;
                    assert(longer_x[at] == v);
                }
                assert forall|v: int| shorter_y.contains(v) implies longer_y.contains(v) by {
                    let at = choose|i: int| 0 <= i < shorter_y.len() && shorter_y[i] == v;
                    assert(longer_y[at] == v);
                }
            }
            if claim.x < min_x {
                min_x = claim.x
            } else if claim.x > max_x {
                max_x = claim.x
            }
            if claim.y < min_y {
                min_y = claim.y
            } else if claim.y > max_y {
                max_y = claim.y
            }
            k += 1;
        }
        assert(columns.take(k as int) =~= columns);
        assert(rows.take(k as int) =~= rows);
        self.x = min_x;
        self.y = min_y;
        self.w = max_x - self.x + 1;
        self.h = max_y - self.y + 1;
    }
}

/// The four corners that a valid room reaches for span the rectangle that
/// it reaches for.
pub(crate) proof fn lemma_corners_span(room: RoomFromStart, max_x: int, max_y: int, corners: Seq<ClaimView>)
    requires
        room.valid(max_x, max_y),
        0 <= max_x <= usize::MAX,
        0 <= max_y <= usize::MAX,
        ({
            let frame = room.reach(max_x, max_y);
            let mine = seq![room.index];
            corners == seq![
                ClaimView { x: frame.min_x, y: frame.min_y, claimants: mine },
                ClaimView { x: frame.min_x, y: frame.max_y, claimants: mine },
                ClaimView { x: frame.max_x, y: frame.min_y, claimants: mine },
                ClaimView { x: frame.max_x, y: frame.max_y, claimants: mine },
            ]
        }),
    ensures
        spanned(corners) == room.reach(max_x, max_y),
{
    let frame = room.reach(max_x, max_y);
    let columns = columns_of(corners);
    let rows = rows_of(corners);
    assert(columns =~= seq![frame.min_x, frame.min_x, frame.max_x, frame.max_x]);
    assert(rows =~= seq![frame.min_y, frame.max_y, frame.min_y, frame.max_y]);
    lemma_span_of_four(frame.min_x, frame.min_x, frame.max_x, frame.max_x);
    lemma_span_of_four(frame.min_y, frame.max_y, frame.min_y, frame.max_y);
}

/// What [`span`] finds over four values, one after the other.
proof fn lemma_span_of_four(a: int, b: int, c: int, d: int)
    ensures
        span(seq![a, b, c, d]) == span_with(
            span_with(span_with(span_with((usize::MAX as int, 0int), a), b), c),
            d,
        ),
{
    let four = seq![a, b, c, d];
    let three = seq![a, b, c];
    let two = seq![a, b];
    let one = seq![a];
    let none = Seq::<int>::empty();
    assert(four.drop_last() =~= three);
    assert(three.drop_last() =~= two);
    assert(two.drop_last() =~= one);
    assert(one.drop_last() =~= none);
    assert(span(none) == (usize::MAX as int, 0int));
    assert(span(one) == span_with(span(none), a));
    assert(span(two) == span_with(span(one), b));
    assert(span(three) == span_with(span(two), c));
    assert(span(four) == span_with(span(three), d));
}

} // verus!
