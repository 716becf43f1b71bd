use guillotine::pieces::{ElementType, PlacedItem};
use guillotine::swap::{find_kind, swap_attempt, swap_over, try_local_swap, Window};

fn kind(width: u32, height: u32, count: u32, name: &str) -> ElementType {
    ElementType { width, height, count, name: name.to_string() }
}

fn at(x: u32, y: u32, width: u32, height: u32, name: &str, rotated: bool) -> PlacedItem {
    PlacedItem { x, y, width, height, name: name.to_string(), rotated }
}

#[test]
fn the_first_kind_with_a_name_is_found() {
    let specs = vec![kind(1, 1, 1, "a"), kind(2, 2, 1, "b"), kind(3, 3, 1, "b")];
    assert_eq!(find_kind(&specs, &"b".to_string()), Some(1));
    assert_eq!(find_kind(&specs, &"c".to_string()), None);
}

#[test]
fn a_cleared_window_is_packed_again() {
    let placed = vec![
        at(0, 0, 100, 100, "a", false),
        at(150, 0, 100, 100, "a", false),
        at(300, 300, 100, 100, "b", false),
    ];
    let specs = vec![kind(100, 100, 3, "a"), kind(100, 100, 1, "b"), kind(50, 400, 1, "c")];
    let window = Window { x: 120, y: 0, w: 100, h: 60 };
    assert_eq!(
        swap_attempt(400, 400, &placed, &specs, &[1, 0, 1], window),
        Some(vec![
            at(0, 0, 100, 100, "a", false),
            at(300, 300, 100, 100, "b", false),
            at(250, 0, 100, 100, "a", false),
            at(150, 0, 100, 100, "a", false),
            at(100, 0, 50, 400, "c", false),
        ])
    );
}

#[test]
fn too_many_pieces_are_not_repacked() {
    let specs = vec![kind(1, 1, 13, "a")];
    let window = Window { x: 0, y: 0, w: 50, h: 50 };
    assert_eq!(swap_attempt(100, 100, &[], &specs, &[13], window), None);
    assert!(swap_attempt(100, 100, &[], &specs, &[12], window).is_some());
}

#[test]
fn the_first_window_that_helps_is_taken() {
    let specs = vec![kind(330, 100, 1, "u"), kind(70, 100, 1, "v")];
    let placed = vec![at(100, 0, 70, 100, "v", false)];
    let beside = Window { x: 200, y: 0, w: 50, h: 50 };
    let across = Window { x: 120, y: 0, w: 50, h: 50 };
    let packed = vec![at(330, 0, 70, 100, "v", false), at(0, 0, 330, 100, "u", false)];
    assert_eq!(swap_over(400, 100, &placed, &specs, &[1, 0], &[]), None);
    assert_eq!(swap_over(400, 100, &placed, &specs, &[1, 0], &[beside, beside]), None);
    assert_eq!(
        swap_over(400, 100, &placed, &specs, &[1, 0], &[beside, across, beside]),
        Some(packed)
    );
}

#[test]
fn swapping_places_what_was_left() {
    let specs = vec![kind(6, 10, 1, "u"), kind(4, 10, 1, "v")];
    let mut placed = vec![at(3, 0, 4, 10, "v", false)];
    let mut remaining = vec![1, 0];
    assert!(try_local_swap(10, 10, &mut placed, &specs, &mut remaining));
    assert_eq!(placed, vec![at(6, 0, 4, 10, "v", false), at(0, 0, 6, 10, "u", false)]);
    assert_eq!(remaining, vec![0, 0]);
}

#[test]
fn swapping_does_nothing_without_pieces_or_room() {
    let specs = vec![kind(11, 10, 1, "u"), kind(4, 10, 1, "v")];
    let mut placed = vec![at(3, 0, 4, 10, "v", false)];
    let mut remaining = vec![0, 0];
    assert!(!try_local_swap(10, 10, &mut placed, &specs, &mut remaining));
    let flat = vec![kind(0, 10, 1, "u"), kind(4, 10, 1, "v")];
    assert!(!try_local_swap(10, 10, &mut placed, &flat, &mut remaining));
    remaining[0] = 1;
    assert!(!try_local_swap(10, 10, &mut placed, &specs, &mut remaining));
    assert_eq!(placed, vec![at(3, 0, 4, 10, "v", false)]);
    assert_eq!(remaining, vec![1, 0]);
}

#[test]
fn swapping_on_a_large_sheet_keeps_all_pieces() {
    let specs = vec![kind(100, 100, 3, "a"), kind(50, 400, 1, "c")];
    let mut placed = vec![at(0, 0, 100, 100, "a", false), at(150, 0, 100, 100, "a", false)];
    let mut remaining = vec![1, 1];
    assert!(try_local_swap(400, 400, &mut placed, &specs, &mut remaining));
    assert_eq!(placed.iter().filter(|p| p.name == "a").count(), 3);
    assert_eq!(placed.iter().filter(|p| p.name == "c").count(), 1);
    for (i, p) in placed.iter().enumerate() {
        assert!(p.x + p.width <= 400 && p.y + p.height <= 400);
        for q in &placed[i + 1..] {
            let apart = p.x >= q.x + q.width
                || p.x + p.width <= q.x
                || p.y >= q.y + q.height
                || p.y + p.height <= q.y;
            assert!(apart);
        }
    }
}
