use guillotine::gaps::try_fill_gaps;
use guillotine::pieces::{ElementType, PlacedItem};

fn kind(width: u32, height: u32, count: u32, name: &str) -> ElementType {
    ElementType { width, height, count, name: name.to_string() }
}

fn at(x: u32, y: u32, width: u32, height: u32, name: &str, rotated: bool) -> PlacedItem {
    PlacedItem { x, y, width, height, name: name.to_string(), rotated }
}

#[test]
fn small_pieces_go_into_gaps_first() {
    let placed = vec![at(0, 0, 6, 6, "x", false)];
    let specs = vec![kind(4, 4, 1, "u"), kind(6, 4, 2, "v")];
    assert_eq!(
        try_fill_gaps(10, 10, &placed, &specs, &[1, 2]),
        Some(vec![at(6, 0, 4, 4, "u", false), at(0, 6, 6, 4, "v", false)])
    );
}

#[test]
fn a_piece_is_turned_where_that_helps() {
    let placed = vec![at(0, 0, 8, 10, "x", false)];
    let specs = vec![kind(9, 2, 1, "u")];
    assert_eq!(
        try_fill_gaps(10, 10, &placed, &specs, &[1]),
        Some(vec![at(8, 0, 2, 9, "u", true)])
    );
}

#[test]
fn no_gap_gives_no_pieces() {
    let placed = vec![at(0, 0, 10, 10, "x", false)];
    let specs = vec![kind(1, 1, 1, "u")];
    assert_eq!(try_fill_gaps(10, 10, &placed, &specs, &[1]), None);
    assert_eq!(try_fill_gaps(10, 10, &[], &specs, &[0]), None);
}

#[test]
fn a_piece_larger_than_the_sheet_is_left_out() {
    let specs = vec![kind(20, 5, 1, "u"), kind(2, 2, 1, "v")];
    assert_eq!(try_fill_gaps(10, 10, &[], &specs, &[1, 0]), None);
    assert_eq!(
        try_fill_gaps(10, 10, &[], &specs, &[1, 1]),
        Some(vec![at(0, 0, 2, 2, "v", false)])
    );
}

#[test]
fn a_piece_that_fits_only_turned_is_turned() {
    let specs = vec![kind(12, 3, 1, "u")];
    assert_eq!(
        try_fill_gaps(10, 14, &[], &specs, &[1]),
        Some(vec![at(0, 0, 3, 12, "u", true)])
    );
}

#[test]
fn pieces_are_added_in_the_order_of_their_areas() {
    let placed = vec![at(0, 0, 6, 6, "x", false), at(3, 3, 6, 6, "y", false)];
    let specs = vec![kind(3, 3, 1, "s"), kind(1, 10, 1, "v"), kind(2, 2, 1, "t")];
    assert_eq!(
        try_fill_gaps(10, 10, &placed, &specs, &[1, 1, 1]),
        Some(vec![
            at(6, 0, 2, 2, "t", false),
            at(0, 6, 3, 3, "s", false),
            at(9, 0, 1, 10, "v", false),
        ])
    );
}
