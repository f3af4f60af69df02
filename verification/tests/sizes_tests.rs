use nice_map_generator::sizes::{
    get_default_grid_height, get_default_grid_width, get_default_menu_height,
    get_default_tab_padding, get_default_win_height, get_default_win_width, i_to_u, u_to_i,
};

#[test]
fn the_default_sizes_of_the_window() {
    assert_eq!(get_default_win_width(), 1000);
    assert_eq!(get_default_win_height(), 700);
    assert_eq!(get_default_menu_height(), 30);
    assert_eq!(get_default_tab_padding(), 10);
    assert_eq!(get_default_grid_width(), 600);
    assert_eq!(get_default_grid_height(), 435);
}

#[test]
fn unsigned_to_signed_stops_at_the_largest_signed_number() {
    assert_eq!(u_to_i(&0), 0);
    assert_eq!(u_to_i(&700), 700);
    assert_eq!(u_to_i(&(i32::MAX as usize)), i32::MAX);
    assert_eq!(u_to_i(&(i32::MAX as usize + 1)), i32::MAX);
    assert_eq!(u_to_i(&usize::MAX), i32::MAX);
}

#[test]
fn signed_to_unsigned_stops_at_nought() {
    assert_eq!(i_to_u(&0), 0);
    assert_eq!(i_to_u(&700), 700);
    assert_eq!(i_to_u(&i32::MAX), i32::MAX as usize);
    assert_eq!(i_to_u(&-1), 0);
    assert_eq!(i_to_u(&i32::MIN), 0);
}
