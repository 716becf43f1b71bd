use guillotine::control::{Control, Signals};
use guillotine::memo::{MemoCache, Solution};
use guillotine::pieces::{ElementType, PlacedItem};
use guillotine::search::{follow_step, solve_recursive, Step};
use std::time::Instant;

fn kind(width: u32, height: u32, count: u32, name: &str) -> ElementType {
    ElementType { width, height, count, name: name.to_string() }
}

fn at(x: u32, y: u32, width: u32, height: u32, name: &str, rotated: bool) -> PlacedItem {
    PlacedItem { x, y, width, height, name: name.to_string(), rotated }
}

fn search(
    width: u32,
    height: u32,
    specs: &[ElementType],
    counts: &[u32],
    beam: usize,
    seed: u64,
    signals: &Signals,
) -> Option<Solution> {
    let start = Instant::now();
    let mut memo = MemoCache::new(specs, counts);
    let mut control = Control::new(signals, &start, 1000);
    solve_recursive(width, height, counts, specs, &mut memo, 0, &mut control, beam, seed)
}

fn kinds() -> Vec<ElementType> {
    vec![kind(100, 50, 2, "a"), kind(50, 50, 1, "b"), kind(30, 20, 3, "c")]
}

fn others() -> Vec<ElementType> {
    vec![kind(70, 40, 3, "p"), kind(35, 25, 4, "q"), kind(20, 15, 5, "r")]
}

#[test]
fn all_pieces_get_a_place() {
    let found = search(200, 100, &kinds(), &[2, 1, 3], 12, 0, &Signals::new()).unwrap();
    assert_eq!(
        found,
        Solution {
            items: vec![
                at(0, 0, 100, 50, "a", false),
                at(100, 0, 100, 50, "a", false),
                at(0, 50, 50, 50, "b", false),
                at(50, 50, 30, 20, "c", false),
                at(80, 50, 30, 20, "c", false),
                at(110, 50, 30, 20, "c", false),
            ],
            remaining_counts: vec![0, 0, 0],
            total_area: 14_300,
        }
    );
}

#[test]
fn a_narrow_beam_leaves_pieces() {
    let found = search(120, 80, &others(), &[3, 4, 5], 2, 0, &Signals::new()).unwrap();
    assert_eq!(found.total_area, 9_425);
    assert_eq!(found.remaining_counts, vec![1, 1, 1]);
    assert_eq!(
        found.items,
        vec![
            at(0, 0, 70, 40, "p", false),
            at(0, 40, 70, 40, "p", false),
            at(70, 0, 15, 20, "r", true),
            at(85, 0, 15, 20, "r", true),
            at(100, 0, 20, 15, "r", false),
            at(70, 20, 35, 25, "q", false),
            at(105, 20, 15, 20, "r", true),
            at(70, 45, 25, 35, "q", true),
            at(95, 45, 25, 35, "q", true),
        ]
    );
}

#[test]
fn a_seed_leads_to_another_layout() {
    let found = search(200, 100, &kinds(), &[2, 1, 3], 1, 1, &Signals::new()).unwrap();
    assert_eq!(found.items[0], at(0, 0, 50, 100, "a", true));
    assert_eq!(found.total_area, 14_300);
    let found = search(120, 80, &others(), &[3, 4, 5], 2, 7, &Signals::new()).unwrap();
    assert_eq!(found.items[0], at(0, 0, 20, 15, "r", false));
    assert_eq!(found.total_area, 8_850);
    assert_eq!(found.remaining_counts, vec![1, 2, 0]);
}

#[test]
fn a_stopped_search_finds_nothing() {
    let signals = Signals::new();
    signals.mark_found();
    assert_eq!(search(200, 100, &kinds(), &[2, 1, 3], 12, 0, &signals), None);
}

#[test]
fn without_pieces_that_fit_the_part_stays_empty() {
    let found = search(10, 10, &kinds(), &[2, 1, 3], 12, 0, &Signals::new());
    assert_eq!(
        found,
        Some(Solution { items: vec![], remaining_counts: vec![2, 1, 3], total_area: 0 })
    );
}

#[test]
fn a_full_part_ends_the_search() {
    let specs = vec![kind(50, 50, 4, "s")];
    let found = search(100, 100, &specs, &[4], 12, 0, &Signals::new()).unwrap();
    assert_eq!(found.total_area, 10_000);
    assert_eq!(found.remaining_counts, vec![0]);
}

#[test]
fn following_a_step_starts_with_its_piece() {
    let specs = others();
    let signals = Signals::new();
    let start = Instant::now();
    let mut memo = MemoCache::new(&specs, &[3, 4, 5]);
    let mut control = Control::new(&signals, &start, 1000);
    let step = Step { index: 0, width: 70, height: 40, rotated: false, vertical: true };
    let found =
        follow_step(120, 80, &[3, 4, 5], &specs, &mut memo, 0, &mut control, 2, 0, step).unwrap();
    assert_eq!(found.items[0], at(0, 0, 70, 40, "p", false));
    assert_eq!(found.items.len(), 9);
    assert_eq!(found.total_area, 8_850);
    assert_eq!(found.remaining_counts, vec![1, 2, 0]);
}

#[test]
fn pieces_without_width_are_no_obstacle() {
    let specs = vec![kind(0, 5, 2, "line"), kind(5, 5, 1, "s")];
    let found = search(5, 5, &specs, &[2, 1], 12, 0, &Signals::new()).unwrap();
    assert_eq!(found.total_area, 25);
}

#[test]
fn a_search_covers_at_least_each_piece_that_it_considers() {
    let specs = vec![kind(90, 60, 1, "p"), kind(100, 30, 1, "q"), kind(20, 20, 1, "r")];
    let found = search(100, 60, &specs, &[1, 1, 1], 12, 0, &Signals::new()).unwrap();
    assert!(found.total_area >= 90 * 60);
}

#[test]
fn a_search_fills_a_part_that_a_piece_fills() {
    let specs = vec![kind(60, 60, 3, "p"), kind(60, 100, 1, "exact")];
    let found = search(100, 60, &specs, &[3, 1], 12, 0, &Signals::new()).unwrap();
    assert_eq!(found.total_area, 6_000);
    assert_eq!(found.items, vec![at(0, 0, 100, 60, "exact", true)]);
}

#[test]
fn every_piece_of_a_search_is_placed_or_left() {
    let specs = others();
    let found = search(120, 80, &specs, &[3, 4, 5], 12, 3, &Signals::new()).unwrap();
    for (i, spec) in specs.iter().enumerate() {
        let placed = found.items.iter().filter(|p| p.name == spec.name).count();
        assert_eq!(placed as u32 + found.remaining_counts[i], spec.count);
    }
    for (i, p) in found.items.iter().enumerate() {
        assert!(p.x + p.width <= 120 && p.y + p.height <= 80);
        for q in &found.items[i + 1..] {
            let apart = p.x >= q.x + q.width
                || p.x + p.width <= q.x
                || p.y >= q.y + q.height
                || p.y + p.height <= q.y;
            assert!(apart);
        }
    }
}

#[test]
fn pieces_without_height_do_not_hold_up_a_search() {
    let specs = vec![kind(10, 0, 3, "z"), kind(10, 5, 1, "a")];
    let found = search(10, 5, &specs, &[3, 1], 12, 0, &Signals::new()).unwrap();
    assert_eq!(found.total_area, 50);
    let specs = vec![kind(10, 0, 3, "z"), kind(5, 5, 1, "a")];
    let found = search(10, 5, &specs, &[3, 1], 12, 0, &Signals::new()).unwrap();
    assert_eq!(found.total_area, 25);
}
