use guillotine::control::{Control, Signals};
use guillotine::forced::{
    force_rounds, goal_driven_forced, improves, is_record, list_forced, take_best, take_better,
};
use guillotine::memo::Solution;
use guillotine::pieces::{ElementType, PlacedItem};
use guillotine::search::Step;
use std::time::Instant;

fn kind(width: u32, height: u32, count: u32, name: &str) -> ElementType {
    ElementType { width, height, count, name: name.to_string() }
}

fn at(x: u32, y: u32, width: u32, height: u32, name: &str, rotated: bool) -> PlacedItem {
    PlacedItem { x, y, width, height, name: name.to_string(), rotated }
}

fn solution(pieces: usize, area: u64) -> Solution {
    Solution {
        items: (0..pieces).map(|_| at(0, 0, 1, 1, "p", false)).collect(),
        remaining_counts: vec![],
        total_area: area,
    }
}

#[test]
fn more_pieces_are_better_then_more_area() {
    assert!(improves(&solution(2, 1), &solution(1, 9)));
    assert!(improves(&solution(2, 3), &solution(2, 2)));
    assert!(!improves(&solution(2, 2), &solution(2, 2)));
    assert!(!improves(&solution(1, 9), &solution(2, 1)));
    assert!(is_record(&solution(1, 1), &None));
    assert!(is_record(&solution(2, 3), &Some(solution(2, 2))));
    assert!(!is_record(&solution(2, 2), &Some(solution(2, 2))));
}

#[test]
fn the_better_solution_is_taken() {
    assert_eq!(take_better(None, None), None);
    assert_eq!(take_better(None, Some(solution(1, 1))), Some(solution(1, 1)));
    assert_eq!(take_better(Some(solution(1, 1)), None), Some(solution(1, 1)));
    assert_eq!(
        take_better(Some(solution(1, 1)), Some(solution(1, 2))),
        Some(solution(1, 2))
    );
    let found = vec![None, Some(solution(2, 5)), Some(solution(3, 1)), Some(solution(2, 9)), None];
    assert_eq!(take_best(Some(solution(1, 1)), found), Some(solution(3, 1)));
    assert_eq!(take_best(None, vec![None, None]), None);
}

#[test]
fn hard_pieces_are_forced_in_every_way_that_fits() {
    let specs = vec![kind(30, 20, 1, "a"), kind(20, 20, 1, "s"), kind(90, 10, 1, "t")];
    let step = |index, width, height, rotated, vertical| Step {
        index,
        width,
        height,
        rotated,
        vertical,
    };
    assert_eq!(
        list_forced(40, 30, &specs, &[1, 0, 2]),
        vec![
            step(1, 20, 20, false, true),
            step(1, 20, 20, false, false),
            step(0, 30, 20, false, true),
            step(0, 30, 20, false, false),
            step(0, 20, 30, true, true),
            step(0, 20, 30, true, false),
        ]
    );
}

#[test]
fn forcing_places_all_pieces() {
    let specs = vec![kind(50, 50, 2, "s")];
    let signals = Signals::new();
    signals.mark_found();
    let found = goal_driven_forced(100, 50, &specs, &[2], &[0], 16, 10, &signals).unwrap();
    assert_eq!(
        found,
        Solution {
            items: vec![at(0, 0, 50, 50, "s", false), at(50, 0, 50, 50, "s", false)],
            remaining_counts: vec![0],
            total_area: 5_000,
        }
    );
    assert!(signals.is_found());
    assert!(signals.is_expired());
}

#[test]
fn the_forced_piece_lies_in_the_corner() {
    let specs = vec![kind(70, 40, 3, "p"), kind(35, 25, 4, "q"), kind(20, 15, 5, "r")];
    let signals = Signals::new();
    let found = goal_driven_forced(120, 80, &specs, &[3, 4, 5], &[1], 2, 1, &signals).unwrap();
    assert_eq!(found.items[0].name, "q");
    assert_eq!((found.items[0].x, found.items[0].y), (0, 0));
}

#[test]
fn without_room_or_time_nothing_is_forced() {
    let specs = vec![kind(50, 50, 2, "s")];
    let signals = Signals::new();
    assert_eq!(goal_driven_forced(40, 40, &specs, &[2], &[0], 16, 10, &signals), None);
    assert!(!signals.is_expired());
    assert_eq!(goal_driven_forced(100, 50, &specs, &[2], &[], 16, 10, &signals), None);
    assert_eq!(goal_driven_forced(100, 50, &specs, &[2], &[0], 16, 0, &signals), None);
    assert!(signals.is_expired());
}

#[test]
fn rounds_go_on_until_all_pieces_have_a_place() {
    let specs = vec![kind(50, 50, 2, "s")];
    let steps = list_forced(100, 50, &specs, &[0]);
    let signals = Signals::new();
    let start = Instant::now();
    let mut control = Control::new(&signals, &start, 10);
    let found =
        force_rounds(100, 50, &specs, &[2], &steps, 16, 10, &signals, &start, &mut control)
            .unwrap();
    assert_eq!(found.items.len(), 2);
    assert_eq!(found.total_area, 5_000);
    assert!(signals.is_found());
    let again = force_rounds(100, 50, &specs, &[2], &steps, 16, 10, &signals, &start, &mut control);
    assert_eq!(again, None);
}
