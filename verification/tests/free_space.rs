use guillotine::free_space::{get_max_free_rects, Rect};
use guillotine::pieces::PlacedItem;

fn at(x: u32, y: u32, width: u32, height: u32, name: &str, rotated: bool) -> PlacedItem {
    PlacedItem { x, y, width, height, name: name.to_string(), rotated }
}

fn rect(x: u32, y: u32, w: u32, h: u32) -> Rect {
    Rect { x, y, w, h }
}

#[test]
fn an_empty_sheet_is_free() {
    assert_eq!(get_max_free_rects(10, 20, &[]), vec![rect(0, 0, 10, 20)]);
}

#[test]
fn a_piece_in_the_corner_leaves_two_strips() {
    let placed = vec![at(0, 0, 4, 3, "p", false)];
    assert_eq!(get_max_free_rects(10, 10, &placed), vec![rect(4, 0, 6, 10), rect(0, 3, 10, 7)]);
}

#[test]
fn a_piece_in_the_middle_leaves_four_strips() {
    let placed = vec![at(3, 3, 4, 4, "p", false)];
    assert_eq!(
        get_max_free_rects(10, 10, &placed),
        vec![rect(0, 0, 3, 10), rect(7, 0, 3, 10), rect(0, 0, 10, 3), rect(0, 7, 10, 3)]
    );
}

#[test]
fn covered_rectangles_are_dropped() {
    let placed = vec![at(3, 3, 4, 4, "p", false), at(0, 0, 3, 10, "q", false)];
    assert_eq!(
        get_max_free_rects(10, 10, &placed),
        vec![rect(7, 0, 3, 10), rect(3, 0, 7, 3), rect(3, 7, 7, 3)]
    );
}

#[test]
fn a_full_sheet_has_no_free_rectangle() {
    let placed = vec![at(0, 0, 10, 10, "p", false)];
    assert!(get_max_free_rects(10, 10, &placed).is_empty());
}

#[test]
fn free_rectangles_are_clear_of_all_pieces() {
    let placed = vec![at(1, 1, 3, 2, "p", false), at(5, 0, 2, 7, "q", false), at(0, 6, 4, 4, "r", true)];
    for f in get_max_free_rects(12, 11, &placed) {
        assert!(f.x + f.w <= 12 && f.y + f.h <= 11);
        for p in &placed {
            let apart = p.x >= f.x + f.w
                || p.x + p.width <= f.x
                || p.y >= f.y + f.h
                || p.y + p.height <= f.y;
            assert!(apart);
        }
    }
}

#[test]
fn every_free_square_lies_in_a_free_rectangle() {
    let placed = vec![at(1, 1, 3, 2, "p", false), at(5, 0, 2, 7, "q", false), at(0, 6, 4, 4, "r", true)];
    let free = get_max_free_rects(12, 11, &placed);
    for x in 0..12 {
        for y in 0..11 {
            let taken = placed
                .iter()
                .any(|p| p.x <= x && x < p.x + p.width && p.y <= y && y < p.y + p.height);
            let listed = free.iter().any(|f| f.x <= x && x < f.x + f.w && f.y <= y && y < f.y + f.h);
            assert_eq!(listed, !taken);
        }
    }
}

#[test]
fn the_order_of_pieces_does_not_change_what_is_free() {
    let a = at(0, 0, 4, 3, "p", false);
    let b = at(3, 2, 4, 4, "q", false);
    let c = at(8, 8, 2, 2, "r", false);
    let sorted = |placed: &[PlacedItem]| {
        let mut list: Vec<(u32, u32, u32, u32)> = get_max_free_rects(10, 10, placed)
            .iter()
            .map(|r| (r.x, r.y, r.w, r.h))
            .collect();
        list.sort();
        list
    };
    let once = sorted(&[a.clone(), b.clone(), c.clone()]);
    assert_eq!(once, sorted(&[c.clone(), b.clone(), a.clone()]));
    assert_eq!(once, sorted(&[b.clone(), a.clone(), c.clone(), b.clone()]));
    assert!(once.contains(&(7, 0, 3, 8)));
}
