use guillotine::packing::{pack_remaining_items_backtracking, MAX_ITERS};
use guillotine::pieces::{ElementType, PlacedItem};

fn kind(width: u32, height: u32, count: u32, name: &str) -> ElementType {
    ElementType { width, height, count, name: name.to_string() }
}

fn at(x: u32, y: u32, width: u32, height: u32, name: &str, rotated: bool) -> PlacedItem {
    PlacedItem { x, y, width, height, name: name.to_string(), rotated }
}

#[test]
fn remaining_pieces_are_packed_last_one_first() {
    let placed = vec![at(0, 0, 6, 6, "x", false)];
    let specs = vec![kind(4, 10, 1, "u"), kind(6, 4, 1, "v")];
    let mut remaining = [1, 1];
    let mut iters = 0;
    let packed =
        pack_remaining_items_backtracking(10, 10, &placed, &specs, &mut remaining, &mut iters);
    assert_eq!(packed, Some(vec![at(0, 6, 6, 4, "v", false), at(6, 0, 4, 10, "u", false)]));
    assert_eq!(remaining, [1, 1]);
    assert_eq!(iters, 3);
}

#[test]
fn pieces_without_room_are_not_packed() {
    let specs = vec![kind(10, 6, 1, "u"), kind(6, 5, 1, "v")];
    let mut remaining = [1, 1];
    let mut iters = 0;
    let packed = pack_remaining_items_backtracking(10, 10, &[], &specs, &mut remaining, &mut iters);
    assert_eq!(packed, None);
    assert_eq!(remaining, [1, 1]);
    assert_eq!(iters, 3);
}

#[test]
fn nothing_left_is_packed_at_once() {
    let specs = vec![kind(4, 4, 0, "u")];
    let mut remaining = [0];
    let mut iters = 0;
    let packed = pack_remaining_items_backtracking(10, 10, &[], &specs, &mut remaining, &mut iters);
    assert_eq!(packed, Some(vec![]));
    assert_eq!(iters, 1);
}

#[test]
fn a_search_that_visits_too_many_nodes_gives_up() {
    let specs = vec![kind(4, 4, 1, "u")];
    let mut remaining = [1];
    let mut iters = MAX_ITERS;
    let packed = pack_remaining_items_backtracking(10, 10, &[], &specs, &mut remaining, &mut iters);
    assert_eq!(packed, None);
    assert_eq!(iters, MAX_ITERS + 1);
}

#[test]
fn packed_pieces_rise_in_area_and_squares_are_not_turned() {
    let specs = vec![kind(3, 3, 2, "s"), kind(10, 4, 1, "u"), kind(2, 5, 2, "v")];
    let mut remaining = [2, 1, 2];
    let mut iters = 0;
    let packed =
        pack_remaining_items_backtracking(10, 10, &[], &specs, &mut remaining, &mut iters).unwrap();
    let areas: Vec<u32> = packed.iter().map(|p| p.width * p.height).collect();
    assert_eq!(areas, vec![9, 9, 10, 10, 40]);
    assert!(packed.iter().all(|p| p.name != "s" || !p.rotated));
}

#[test]
fn packed_pieces_are_clear_of_pieces_that_overlap_each_other() {
    let placed = vec![at(0, 0, 6, 6, "x", false), at(3, 3, 6, 6, "y", false)];
    let specs = vec![kind(3, 3, 1, "s")];
    let mut remaining = [1];
    let mut iters = 0;
    assert_eq!(
        pack_remaining_items_backtracking(10, 10, &placed, &specs, &mut remaining, &mut iters),
        Some(vec![at(6, 0, 3, 3, "s", false)])
    );
}
