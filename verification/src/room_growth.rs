//! Constrained room growth: rooms seeded on a grid grow as rectangles, all
//! at once, until they get in each other's way.

pub mod apart;
pub mod claiming;
pub mod claims;
pub mod floors;
pub mod painting;
pub mod palette;
pub mod rooms;
pub mod rounds;
pub mod seeds;

pub use self::claims::SquareClaim;
pub use self::palette::CRGC;
pub use self::rooms::RoomFromStart;
pub use self::seeds::{empty_squares, place_room_starts};

use crate::room_growth::claiming::grow_until_settled;
use crate::room_growth::painting::{
    floor_room_starts, floored_starts, lemma_painted_layout, paint_rooms, painted,
};
use crate::room_growth::rounds::settled_rooms;
use crate::room_growth::seeds::{
    empty_places, find_room_starts, greatest_room_count, honours, lemma_draw_distinct,
    lemma_empty_places, least_room_count, room_starts, with_room_starts,
};
use crate::squares::{GridView, SquareGrid};
use rand::Rng;
use rand::rngs::ThreadRng;
use rand::seq::SliceRandom;
use vstd::prelude::*;

verus! {

/// The random number generator of the thread, as `rand` hands it out.
/// Nothing is known of what is inside.
#[verifier::external_type_specification]
#[verifier::external_body]
pub struct ExThreadRng(ThreadRng);

/// `rand::thread_rng`: a handle on the generator of the thread. Nothing is
/// claimed of it.
pub assume_specification[ rand::thread_rng ]() -> ThreadRng;

/// A number drawn with `Rng::gen_range` from `low..=high`. Whatever is
/// drawn lies in that range; the range must not be empty, as `gen_range`
/// panics on an empty one.
#[verifier::external_body]
fn random_in_range(rng: &mut ThreadRng, low: usize, high: usize) -> (drawn: usize)
    requires
        low <= high,
    ensures
        low <= drawn <= high,
{
    rng.gen_range(low..=high)
}

/// Items drawn with `SliceRandom::choose_multiple` from `cells`: `amount`
/// of them, or all where there are fewer, each from a place of its own in
/// `cells`, in whatever order. Which ones are drawn is left open.
#[verifier::external_body]
fn choose_cells(rng: &mut ThreadRng, cells: &Vec<usize>, amount: usize) -> (picked: Vec<usize>)
    ensures
        picked@.len() == (if amount <= cells@.len() {
            amount as int
        } else {
            cells@.len() as int
        }),
        picked@.to_multiset().subset_of(cells@.to_multiset()),
{
    cells.choose_multiple(rng, amount).cloned().collect()
}

/// The text of the complaint that `wanted` room starts were asked for
/// while only `available` squares are empty, as [`too_few_empty_message`]
/// words it.
pub uninterp spec fn too_few_empty_text(wanted: usize, available: usize) -> Seq<char>;

/// Words the complaint about too few empty squares, with `format!`. The
/// contract only names the text: the same numbers give the same text.
#[verifier::external_body]
fn too_few_empty_message(wanted: usize, available: usize) -> (text: String)
    ensures
        text@ == too_few_empty_text(wanted, available),
{
    format!(
        "Room starts cannot be placed because we want to add {} starts, but starts can only be places on Empty squares, and there are only {} Empty squares!",
        wanted, available
    )
}

/// What a [`CRG`] is, as plain mathematics: the grid, if one is set. The
/// random number generator has no part in it.
pub struct CRGView {
    pub squares: Option<GridView>,
}

/// Constrained room growth: the grid to work on, if one is set, and the
/// random number generator that places room starts.
pub struct CRG {
    squares: Option<SquareGrid>,
    rng: ThreadRng,
}

impl View for CRG {
    type V = CRGView;

    closed spec fn view(&self) -> CRGView {
        CRGView {
            squares: match self.squares {
                Some(grid) => Some(grid@),
                None => None,
            },
        }
    }
}

impl Default for CRG {
    /// No grid, and the random number generator of the thread.
    fn default() -> (crg: CRG)
        ensures
            crg@.squares is None,
    {
        CRG { squares: None, rng: rand::thread_rng() }
    }
}

impl CRG {
    /// The grid, if one is set.
    pub fn squares(&self) -> (grid: &Option<SquareGrid>)
        ensures
            grid is Some == self@.squares is Some,
            grid matches Some(g) ==> self@.squares == Some(g@),
    {
        &self.squares
    }

    /// Sets the grid to work on.
    pub fn set_squares(&mut self, squares: SquareGrid)
        ensures
            final(self)@.squares == Some(squares@),
    {
        self.squares = Some(squares)
    }

    /// The same with the given grid set.
    pub fn with_squares(self, squares: SquareGrid) -> (crg: CRG)
        ensures
            crg@.squares == Some(squares@),
    {
        CRG { squares: Some(squares), rng: self.rng }
    }

    /// The grid, if one is set.
    pub fn get_squares(&self) -> (grid: Option<&SquareGrid>)
        ensures
            grid is Some == self@.squares is Some,
            grid matches Some(g) ==> self@.squares == Some(g@),
    {
        match &self.squares {
            Some(sqrs) => Some(sqrs),
            None => None,
        }
    }

    /// Hands the grid out and leaves none set.
    pub fn pop_squares(&mut self) -> (grid: Option<SquareGrid>)
        ensures
            grid is Some == old(self)@.squares is Some,
            grid matches Some(g) ==> old(self)@.squares == Some(g@),
            final(self)@.squares is None,
    {
        self.squares.take()
    }

    /// Turns empty squares picked at random into room starts: as many as
    /// `rooms` says, or, where it says nothing, a number drawn at random
    /// between the least and the greatest for the grid. The squares are
    /// picked among all empty squares of the grid, no square twice. Fails,
    /// and leaves the grid as it is, where no grid is set or fewer squares
    /// are empty than room starts are wanted.
    pub fn add_random_room_starts(&mut self, rooms: Option<usize>) -> (res: Result<(), String>)
        ensures
            old(self)@.squares is None ==> final(self)@.squares is None && (res matches Err(text)
                && text@ == "Could not add random starts to squares because squares is None."@),
            old(self)@.squares matches Some(grid) ==> {
                let empties = empty_places(grid);
                &&& rooms matches Some(r) ==> (res is Err <==> empties.len() < r)
                &&& rooms is None && greatest_room_count(grid) <= empties.len() ==> res is Ok
                &&& rooms is None && empties.len() < least_room_count(grid) ==> res is Err
                &&& res matches Err(text) ==> final(self)@.squares == Some(grid) && exists|
                    wanted: usize,
                |
                    #![trigger too_few_empty_text(wanted, empties.len() as usize)]
                    honours(rooms, grid, wanted as int) && empties.len() < wanted && text@
                        == too_few_empty_text(wanted, empties.len() as usize)
                &&& res is Ok ==> exists|picks: Seq<usize>|
                    #![trigger with_room_starts(grid, picks)]
                    {
                        &&& honours(rooms, grid, picks.len() as int)
                        &&& picks.no_duplicates()
                        &&& forall|t: int|
                            0 <= t < picks.len() ==> empties.contains(#[trigger] picks[t])
                        &&& final(self)@.squares == Some(with_room_starts(grid, picks))
                    }
            },
    {
        let (rows, cols, count, empty_list) = match &self.squares {
            Some(squares) => (
                *squares.rows(),
                *squares.cols(),
                squares.len(),
                empty_squares(squares),
            ),
            None => {
                return Err(
                    "Could not add random starts to squares because squares is None.".to_owned(),
                );
            },
        };
        let ghost grid = self@.squares->Some_0;
        let room_num = match rooms {
            Some(r) => r,
            None => {
                let row_col_avg = rows.saturating_add(cols / 2);
                let r_min = row_col_avg / 8;
                let r_max = row_col_avg / 2;
                random_in_range(&mut self.rng, r_min, r_max)
            },
        };
        assert(honours(rooms, grid, room_num as int));
        if empty_list.len() < room_num {
            let complaint = too_few_empty_message(room_num, empty_list.len());
            assert(complaint@ == too_few_empty_text(room_num, empty_places(grid).len() as usize));
            return Err(complaint);
        }
        let picks = choose_cells(&mut self.rng, &empty_list, room_num);
        proof {
            assert(count == grid.squares.len());
            lemma_empty_places(grid, grid.squares.len());
            lemma_draw_distinct(picks@, empty_list@);
        }
        match &mut self.squares {
            Some(squares) => {
                place_room_starts(squares, &picks);
            },
            None => {},
        }
        assert(honours(rooms, grid, picks@.len() as int));
        assert(self@.squares == Some(with_room_starts(grid, picks@)));
        Ok(())
    }

    /// Grows rooms from the room starts of the grid, as rectangles, and
    /// paints them into the grid: all rooms that may grow claim the
    /// squares around them at once, round by round, until none may grow
    /// any more. Fails, with nothing changed, where no grid is set.
    ///
    /// Rooms that stop growing in the same round have no square in common.
    /// A room that still grows after others have stopped may grow over
    /// them: a stopped room makes no claim, so nothing holds the other
    /// back.
    ///
    /// Every room start starts a room, and none is left afterwards. Rooms
    /// that grow are looked for address by address, rows below the number
    /// of rows and columns below the number of columns: on a grid that is
    /// well addressed every room start is found so and grows. On any other
    /// grid a room start that several addresses name starts a room at
    /// each, and one that no address names has no square beside it to grow
    /// over: its room is the square alone, which turns to floor.
    pub fn grow_rooms_from_starts(&mut self) -> (res: Result<(), String>)
        ensures
            old(self)@.squares is None ==> final(self)@.squares is None && (res matches Err(text)
                && text@ == "No Squares Set"@),
            old(self)@.squares matches Some(grid) ==> {
                &&& res is Ok
                &&& final(self)@.squares == Some(with_grown_rooms(grid))
                &&& grid.same_layout(with_grown_rooms(grid))
                &&& grid.wf() ==> with_grown_rooms(grid).wf()
            },
    {
        match &self.squares {
            Some(squares) => {
                let ghost grid = squares@;
                let starts = find_room_starts(squares);
                let mut squares_clone = squares.clone();
                if starts.len() > 0 {
                    proof {
                        assert(starts@[0].valid(grid.cols - 1, grid.rows - 1));
                    }
                    let max_x = *squares.cols() - 1;
                    let max_y = *squares.rows() - 1;
                    let grown = grow_until_settled(starts, max_x, max_y);
                    paint_rooms(&mut squares_clone, &grown, max_x, max_y);
                }
                proof {
                    lemma_painted_layout(
                        grid,
                        settled_rooms(room_starts(grid), grid.cols - 1, grid.rows - 1),
                        grid.cols - 1,
                        grid.rows - 1,
                    );
                    assert(squares_clone@ == with_painted_rooms(grid));
                }
                floor_room_starts(&mut squares_clone, squares);
                proof {
                    assert forall|i: int| 0 <= i < grid.squares.len() implies (
                    #[trigger] grid.squares[i]).same_place(with_grown_rooms(grid).squares[i]) by {
                        assert(grid.squares[i].same_place(with_painted_rooms(grid).squares[i]));
                    }
                    if grid.wf() {
                        grid.lemma_same_layout_wf(with_grown_rooms(grid));
                    }
                }
                self.squares = Some(squares_clone);
                Ok(())
            },
            None => Err("No Squares Set".to_owned()),
        }
    }

    /// Growth of rooms in the shape of an L is not there yet: fails, and
    /// changes nothing.
    pub fn grow_rooms_l_growth(&mut self) -> (res: Result<(), String>)
        ensures
            final(self)@ == old(self)@,
            res matches Err(text) && text@ == "Not implemented yet."@,
    {
        Err("Not implemented yet.".to_owned())
    }

    /// The least number of rooms that one must pass through to cross the
    /// map is not worked out yet: fails, and changes nothing.
    pub fn calculate_connectivity(&mut self) -> (res: Result<usize, String>)
        ensures
            final(self)@ == old(self)@,
            res matches Err(text) && text@ == "Not implemented yet."@,
    {
        Err("Not implemented yet.".to_owned())
    }

    /// Adding doors until the connectivity is at least `min_connectivity`
    /// is not there yet: fails, and changes nothing.
    pub fn enforce_connectivity(&mut self, min_connectivity: usize) -> (res: Result<(), String>)
        ensures
            final(self)@ == old(self)@,
            res matches Err(text) && text@ == "Not implemented yet."@,
    {
        Err("Not implemented yet.".to_owned())
    }
}

/// The grid with the rooms that the addresses of the grid find grown and
/// painted: a room is started at every address that names a room start,
/// the rooms grow until growth has settled, and each is painted into the
/// grid, its floor and the wall around it.
pub open spec fn with_painted_rooms(grid: GridView) -> GridView {
    if room_starts(grid).len() == 0 {
        grid
    } else {
        painted(
            grid,
            settled_rooms(room_starts(grid), grid.cols - 1, grid.rows - 1),
            grid.cols - 1,
            grid.rows - 1,
        )
    }
}

/// The grid with its rooms grown and painted. Every room start starts a
/// room. A room start that an address of the grid names grows from that
/// address, and its room is painted into the grid with the wall around
/// it. A room start that no address names has no square beside it: its
/// room is the square alone, which turns to floor.
pub open spec fn with_grown_rooms(grid: GridView) -> GridView {
    floored_starts(grid, with_painted_rooms(grid))
}

} // verus!
