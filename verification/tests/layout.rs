use guillotine::layout::join_items;
use guillotine::pieces::{copy_items, sum_counts, PlacedItem};

fn at(x: u32, y: u32, width: u32, height: u32, name: &str, rotated: bool) -> PlacedItem {
    PlacedItem { x, y, width, height, name: name.to_string(), rotated }
}

#[test]
fn counts_add_up() {
    assert_eq!(sum_counts(&[1, 2, 3]), 6);
    assert_eq!(sum_counts(&[]), 0);
}

#[test]
fn parts_are_moved_to_their_places() {
    let first = vec![at(1, 2, 3, 4, "f", false)];
    let second = vec![at(5, 6, 7, 8, "s", true)];
    let upright = join_items(
        at(0, 0, 10, 20, "p", false),
        true,
        copy_items(&first),
        copy_items(&second),
    );
    assert_eq!(
        upright,
        vec![
            at(0, 0, 10, 20, "p", false),
            at(11, 2, 3, 4, "f", false),
            at(5, 26, 7, 8, "s", true),
        ]
    );
    let flat = join_items(at(0, 0, 10, 20, "p", false), false, first, second);
    assert_eq!(
        flat,
        vec![
            at(0, 0, 10, 20, "p", false),
            at(1, 22, 3, 4, "f", false),
            at(15, 6, 7, 8, "s", true),
        ]
    );
}
