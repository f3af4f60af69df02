//! Claims: the squares that rooms reach for, and who reaches for them.

use vstd::prelude::*;

verus! {

/// A claim on the square at column `x` and row `y`, and the rooms that
/// make it, each named by its index.
#[derive(Debug, PartialEq, PartialOrd)]
pub struct SquareClaim {
    pub x: usize,
    pub y: usize,
    pub claimants_indices: Vec<usize>,
}

/// What a [`SquareClaim`] is, as plain mathematics.
pub struct ClaimView {
    pub x: int,
    pub y: int,
    pub claimants: Seq<usize>,
}

impl View for SquareClaim {
    type V = ClaimView;

    open spec fn view(&self) -> ClaimView {
        ClaimView { x: self.x as int, y: self.y as int, claimants: self.claimants_indices@ }
    }
}

/// The views of a run of claims, in the same order.
pub open spec fn claim_views(claims: Seq<SquareClaim>) -> Seq<ClaimView> {
    claims.map_values(|c: SquareClaim| c@)
}

impl Clone for SquareClaim {
    fn clone(&self) -> (copy: SquareClaim)
        ensures
            copy@ == self@,
    {
        let copy = SquareClaim {
            x: self.x,
            y: self.y,
            claimants_indices: self.claimants_indices.clone(),
        };
        assert(copy.claimants_indices@ =~= self.claimants_indices@);
        copy
    }
}

impl SquareClaim {
    /// Updates a list of claims with a new claim by the room
    /// `room_claim_index` on (`x_new`, `y_new`), and says whether the square
    /// was claimed already.
    pub fn update_claims(
        x_new: usize,
        y_new: usize,
        claims: &mut Vec<SquareClaim>,
        room_claim_index: usize,
    ) -> (found_same: bool)
        ensures
            found_same == claimed_at(claim_views(old(claims)@), x_new as int, y_new as int),
            claim_views(final(claims)@) == merged(
                claim_views(old(claims)@),
                x_new as int,
                y_new as int,
                room_claim_index,
            ),
    {
        let ghost before = claim_views(claims@);
        let mut found_same = false;
        let mut i: usize = 0;
        while i < claims.len()
            invariant
                i <= claims@.len(),
                claims@.len() == before.len(),
                found_same == claimed_at(before.take(i as int), x_new as int, y_new as int),
                forall|j: int|
                    0 <= j < i ==> #[trigger] claim_views(claims@)[j] == before[j].joined(
                        x_new as int,
                        y_new as int,
                        room_claim_index,
                    ),
                forall|j: int|
                    i <= j < before.len() ==> #[trigger] claim_views(claims@)[j] == before[j],
            decreases claims@.len() - i,
        {
            let ghost earlier = claim_views(claims@);
            proof {
                let shorter = before.take(i as int);
                let longer = before.take(i + 1);
                assert(longer[i as int] == before[i as int]);
                if claimed_at(shorter, x_new as int, y_new as int) {
                    let at = choose|j: int|
                        0 <= j < shorter.len() && (#[trigger] shorter[j]).is_at(
                            x_new as int,
                            y_new as int,
                        );
                    assert(longer[at].is_at(x_new as int, y_new as int));
                }
                if claimed_at(longer, x_new as int, y_new as int) {
                    let at = choose|j: int|
                        0 <= j < longer.len() && (#[trigger] longer[j]).is_at(
                            x_new as int,
                            y_new as int,
                        );
                    if at < i {
                        assert(shorter[at].is_at(x_new as int, y_new as int));
                    }
                }
                assert(earlier[i as int] == before[i as int]);
            }
            if claims[i].x == x_new && claims[i].y == y_new {
                found_same = true;
                claims[i].claimants_indices.push(room_claim_index);
            }
            proof {
                let later = claim_views(claims@);
                assert forall|j: int| 0 <= j < i + 1 implies #[trigger] later[j] == before[j].joined(
                    x_new as int,
                    y_new as int,
                    room_claim_index,
                ) by {
                    if j < i {
                        assert(later[j] == earlier[j]);
                    }
                }
                assert forall|j: int| i + 1 <= j < before.len() implies #[trigger] later[j]
                    == before[j] by {
                    assert(later[j] == earlier[j]);
                }
            }
            i += 1;
        }
        assert(before.take(i as int) =~= before);
        let ghost joined = before.map_values(
            |c: ClaimView| c.joined(x_new as int, y_new as int, room_claim_index),
        );
        assert(claim_views(claims@) =~= joined);
        if !found_same {
            let claim = SquareClaim::new(x_new, y_new, room_claim_index);
            claims.push(claim);
            assert(claim_views(claims@) =~= joined.push(claim@));
        }
        found_same
    }

    /// A claim on (`x`, `y`) by the one room `claim_index`.
    pub fn new(x: usize, y: usize, claim_index: usize) -> (claim: SquareClaim)
        ensures
            claim@ == (ClaimView { x: x as int, y: y as int, claimants: seq![claim_index] }),
    {
        let mut tmp_vec = Vec::new();
        tmp_vec.push(claim_index);
        assert(tmp_vec@ =~= seq![claim_index]);
        SquareClaim { x, y, claimants_indices: tmp_vec }
    }

}

impl ClaimView {
    /// The claim is on the square at column `x` and row `y`.
    pub open spec fn is_at(self, x: int, y: int) -> bool {
        self.x == x && self.y == y
    }

    /// The claim with the room `index` added to its claimants, where it is
    /// on (`x`, `y`); the claim itself, where it is on another square.
    pub open spec fn joined(self, x: int, y: int, index: usize) -> ClaimView {
        if self.is_at(x, y) {
            ClaimView { claimants: self.claimants.push(index), ..self }
        } else {
            self
        }
    }
}

/// The claims after the room `index` has claimed (`x`, `y`): the room is
/// added to every claim on that square; where there is none, a claim of
/// its own is added at the end.
pub open spec fn merged(claims: Seq<ClaimView>, x: int, y: int, index: usize) -> Seq<ClaimView> {
    let joined = claims.map_values(|c: ClaimView| c.joined(x, y, index));
    if claimed_at(claims, x, y) {
        joined
    } else {
        joined.push(ClaimView { x, y, claimants: seq![index] })
    }
}

/// Some claim of the run is on the square at column `x` and row `y`.
pub open spec fn claimed_at(claims: Seq<ClaimView>, x: int, y: int) -> bool {
    exists|i: int| 0 <= i < claims.len() && (#[trigger] claims[i]).is_at(x, y)
}

/// No two claims of the run are on the same square.
pub open spec fn distinct_cells(claims: Seq<ClaimView>) -> bool {
    forall|i: int, j: int|
        0 <= i < j < claims.len() ==> !((#[trigger] claims[i]).x == (#[trigger] claims[j]).x
            && claims[i].y == claims[j].y)
}

/// A rectangle of squares, given by its first and last column and its
/// first and last row.
pub struct Frame {
    pub min_x: int,
    pub max_x: int,
    pub min_y: int,
    pub max_y: int,
}

impl Frame {
    /// The square at column `x` and row `y` lies on the edge of the
    /// rectangle: in its first or last row between the two columns, or in
    /// its first or last column between the two rows.
    pub open spec fn on_edge(self, x: int, y: int) -> bool {
        ||| self.min_x <= x <= self.max_x && (y == self.min_y || y == self.max_y)
        ||| self.min_y <= y <= self.max_y && (x == self.min_x || x == self.max_x)
    }

    /// The square at column `x` and row `y` lies in the rectangle.
    pub open spec fn holds(self, x: int, y: int) -> bool {
        self.min_x <= x <= self.max_x && self.min_y <= y <= self.max_y
    }
}

/// The least and the greatest value so far, with one more value taken in:
/// a value that lowers the least is not held against the greatest.
pub open spec fn span_with(so_far: (int, int), value: int) -> (int, int) {
    if value < so_far.0 {
        (value, so_far.1)
    } else if value > so_far.1 {
        (so_far.0, value)
    } else {
        so_far
    }
}

/// The least and the greatest of some values as a single pass over them
/// finds them, starting from the largest machine word and from nothing.
pub open spec fn span(values: Seq<int>) -> (int, int)
    decreases values.len(),
{
    if values.len() == 0 {
        (usize::MAX as int, 0)
    } else {
        span_with(span(values.drop_last()), values.last())
    }
}

/// The columns of the claimed squares, claim by claim.
pub open spec fn columns_of(claims: Seq<ClaimView>) -> Seq<int> {
    claims.map_values(|c: ClaimView| c.x)
}

/// The rows of the claimed squares, claim by claim.
pub open spec fn rows_of(claims: Seq<ClaimView>) -> Seq<int> {
    claims.map_values(|c: ClaimView| c.y)
}

/// The rectangle that [`span`] finds over the columns and the rows of some
/// claims.
pub open spec fn spanned(corners: Seq<ClaimView>) -> Frame {
    let columns = span(columns_of(corners));
    let rows = span(rows_of(corners));
    Frame { min_x: columns.0, max_x: columns.1, min_y: rows.0, max_y: rows.1 }
}

/// `least` is the least of `start` and the `values`.
pub open spec fn is_least(least: int, start: int, values: Seq<int>) -> bool {
    &&& least <= start
    &&& forall|i: int| 0 <= i < values.len() ==> least <= #[trigger] values[i]
    &&& least == start || values.contains(least)
}

/// `greatest` is the greatest of `start` and the `values`.
pub open spec fn is_greatest(greatest: int, start: int, values: Seq<int>) -> bool {
    &&& greatest >= start
    &&& forall|i: int| 0 <= i < values.len() ==> greatest >= #[trigger] values[i]
    &&& greatest == start || values.contains(greatest)
}

/// The place of a claim on (`x`, `y`) among `claims`, if there is one.
fn position_of_claim(claims: &Vec<SquareClaim>, x: usize, y: usize) -> (place: Option<usize>)
    ensures
        place is Some == claimed_at(claim_views(claims@), x as int, y as int),
        place matches Some(i) ==> i < claims@.len() && claims@[i as int]@.is_at(x as int, y as int),
{
    let mut i: usize = 0;
    while i < claims.len()
        invariant
            i <= claims@.len(),
            forall|j: int| 0 <= j < i ==> !(#[trigger] claim_views(claims@)[j]).is_at(x as int, y as int),
        decreases claims@.len() - i,
    {
        if claims[i].x == x && claims[i].y == y {
            assert(claim_views(claims@)[i as int].is_at(x as int, y as int));
            return Some(i);
        }
        i += 1;
    }
    None
}

/// The claims with one by the room `index` on (`x`, `y`) added at the end,
/// unless that square is claimed already.
pub open spec fn with_claim(claims: Seq<ClaimView>, x: int, y: int, index: usize) -> Seq<ClaimView> {
    if claimed_at(claims, x, y) {
        claims
    } else {
        claims.push(ClaimView { x, y, claimants: seq![index] })
    }
}

/// How many columns or rows lie from `first` up to `last`.
pub open spec fn stretch(first: int, last: int) -> nat {
    if first <= last {
        (last - first + 1) as nat
    } else {
        0
    }
}

/// The claims of the room `index` along the first and the last row of a
/// rectangle, over its first `n` columns: for each column in turn the
/// square in the first row and then the one in the last, each claimed
/// once.
pub open spec fn edge_rows(frame: Frame, index: usize, n: nat) -> Seq<ClaimView>
    decreases n,
{
    if n == 0 {
        seq![]
    } else {
        let x = frame.min_x + n - 1;
        with_claim(
            with_claim(edge_rows(frame, index, (n - 1) as nat), x, frame.min_y, index),
            x,
            frame.max_y,
            index,
        )
    }
}

/// The claims of the room `index` along the first and the last row of a
/// rectangle, and after them those along its first and last column over
/// its first `n` rows: for each row in turn the square in the first
/// column and then the one in the last, each claimed once.
pub open spec fn edge_columns(frame: Frame, index: usize, n: nat) -> Seq<ClaimView>
    decreases n,
{
    if n == 0 {
        edge_rows(frame, index, stretch(frame.min_x, frame.max_x))
    } else {
        let y = frame.min_y + n - 1;
        with_claim(
            with_claim(edge_columns(frame, index, (n - 1) as nat), frame.min_x, y, index),
            frame.max_x,
            y,
            index,
        )
    }
}

/// The claims of the room `index` on the squares along the edge of a
/// rectangle, in the order in which they are made.
pub open spec fn edge_claims(frame: Frame, index: usize) -> Seq<ClaimView> {
    edge_columns(frame, index, stretch(frame.min_y, frame.max_y))
}

/// Adds a claim by `room_index` on (`x`, `y`) unless the square is claimed
/// already.
pub(crate) fn claim_if_new(claims: &mut Vec<SquareClaim>, x: usize, y: usize, room_index: usize)
    requires
        distinct_cells(claim_views(old(claims)@)),
        forall|i: int|
            0 <= i < old(claims)@.len() ==> (#[trigger] claim_views(old(claims)@)[i]).claimants
                == seq![room_index],
    ensures
        claim_views(final(claims)@) == with_claim(
            claim_views(old(claims)@),
            x as int,
            y as int,
            room_index,
        ),
        distinct_cells(claim_views(final(claims)@)),
        forall|i: int|
            0 <= i < final(claims)@.len() ==> (#[trigger] claim_views(final(claims)@)[i]).claimants
                == seq![room_index],
        forall|cx: int, cy: int|
            claimed_at(claim_views(final(claims)@), cx, cy) <==> (claimed_at(
                claim_views(old(claims)@),
                cx,
                cy,
            ) || (cx == x && cy == y)),
{
    let ghost before = claim_views(claims@);
    if position_of_claim(claims, x, y).is_none() {
        let claim = SquareClaim::new(x, y, room_index);
        claims.push(claim);
        proof {
            let after = claim_views(claims@);
            assert(after =~= before.push(claim@));
            assert forall|cx: int, cy: int| claimed_at(after, cx, cy) <==> (claimed_at(
                before,
                cx,
                cy,
            ) || (cx == x && cy == y)) by {
                if claimed_at(before, cx, cy) {
                    let i = choose|i: int| 0 <= i < before.len() && (#[trigger] before[i]).is_at(cx, cy);
                    assert(after[i].is_at(cx, cy));
                }
                if cx == x && cy == y {
                    assert(after[before.len() as int].is_at(cx, cy));
                }
                if claimed_at(after, cx, cy) {
                    let i = choose|i: int| 0 <= i < after.len() && (#[trigger] after[i]).is_at(cx, cy);
                    if i < before.len() {
                        assert(before[i].is_at(cx, cy));
                    }
                }
            }
            assert forall|i: int, j: int| 0 <= i < j < after.len() implies !((
            #[trigger] after[i]).x == (#[trigger] after[j]).x && after[i].y == after[j].y) by {
                if j == before.len() {
                    assert(before[i] == after[i]);
                    if after[i].x == x && after[i].y == y {
                        assert(before[i].is_at(x as int, y as int));
                    }
                } else {
                    assert(before[i] == after[i]);
                    assert(before[j] == after[j]);
                }
            }
        }
    }
}

} // verus!
