//! Sizes of the window and its widgets, in pixels, and numbers that some
//! interfaces want signed and others unsigned.

use vstd::prelude::*;

verus! {

/// The default width of the main window.
pub fn get_default_win_width() -> (w: i32)
    ensures
        w == 1000,
{
    1000
}

/// The default height of the main window.
pub fn get_default_win_height() -> (h: i32)
    ensures
        h == 700,
{
    700
}

/// The default height of the menu bar at the top of the main window.
pub fn get_default_menu_height() -> (h: i32)
    ensures
        h == 30,
{
    30
}

/// The default padding between the tabs and what they hold.
pub fn get_default_tab_padding() -> (p: i32)
    ensures
        p == 10,
{
    10
}

/// The default width of a grid of buttons: that of the window less 400.
pub fn get_default_grid_width() -> (w: i32)
    ensures
        w == 600,
{
    get_default_win_width() - 400
}

/// The default height of a grid of buttons: that of the window less the
/// menu bar, the padding and 225.
pub fn get_default_grid_height() -> (h: i32)
    ensures
        h == 435,
{
    get_default_win_height() - get_default_menu_height() - get_default_tab_padding() - 225
}

/// Rounds an unsigned number into a signed one: the number itself, or the
/// largest signed number where it is larger than that.
pub fn u_to_i(unsi: &usize) -> (signed: i32)
    ensures
        signed == (if *unsi <= i32::MAX {
            *unsi as int
        } else {
            i32::MAX as int
        }),
{
    if *unsi > i32::MAX as usize {
        i32::MAX
    } else {
        *unsi as i32
    }
}

/// Rounds a signed number into an unsigned one: the number itself, or
/// nought where it is negative.
pub fn i_to_u(signed: &i32) -> (u: usize)
    ensures
        u == (if *signed >= 0 {
            *signed as int
        } else {
            0
        }),
{
    if *signed < 0 {
        0
    } else {
        *signed as usize
    }
}

} // verus!
