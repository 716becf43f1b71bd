use guillotine::candidates::rank_moves;
use guillotine::control::{Control, Signals};
use guillotine::finish::{fill_up, finish_layout};
use guillotine::limits::{can_finish, can_take_all, count_all, is_in_range};
use guillotine::memo::{MemoCache, Solution};
use guillotine::pieces::{ElementType, PlacedItem};
use guillotine::search::Step;
use guillotine::task::{
    add_pieces, first_steps, follow_first_move, is_nearly_full, list_unplaced, sum_areas,
    swap_pieces, take_record, wider_beam,
};
use std::time::Instant;

fn kind(width: u32, height: u32, count: u32, name: &str) -> ElementType {
    ElementType { width, height, count, name: name.to_string() }
}

fn at(x: u32, y: u32, width: u32, height: u32, name: &str, rotated: bool) -> PlacedItem {
    PlacedItem { x, y, width, height, name: name.to_string(), rotated }
}

fn gappy() -> (Vec<ElementType>, Solution) {
    let specs = vec![kind(6, 6, 1, "x"), kind(4, 4, 1, "u"), kind(6, 4, 2, "v")];
    let best = Solution {
        items: vec![at(0, 0, 6, 6, "x", false)],
        remaining_counts: vec![0, 1, 2],
        total_area: 36,
    };
    (specs, best)
}

#[test]
fn a_first_move_is_followed() {
    let specs = vec![kind(70, 40, 3, "p"), kind(35, 25, 4, "q"), kind(20, 15, 5, "r")];
    let counts = [3, 4, 5];
    let signals = Signals::new();
    let start = Instant::now();
    let moves = rank_moves(&specs, &counts, 120, 80, false);
    let steps = first_steps(&moves, &specs);
    let step = |vertical| {
        *steps.iter().find(|s| s.index == 0 && !s.rotated && s.vertical == vertical).unwrap()
    };
    let mut memo = MemoCache::new(&specs, &counts);
    let mut control = Control::new(&signals, &start, 1000);
    let found =
        follow_first_move(120, 80, &counts, &specs, &mut memo, &mut control, 2, step(true))
            .unwrap();
    assert_eq!(found.items[0], at(0, 0, 70, 40, "p", false));
    assert_eq!(found.total_area, 8_850);
    signals.expire();
    let stopped =
        follow_first_move(120, 80, &counts, &specs, &mut memo, &mut control, 2, step(false));
    assert_eq!(stopped, None);
}

#[test]
fn every_first_move_is_cut_both_ways() {
    let specs = vec![kind(100, 50, 2, "a"), kind(50, 50, 1, "b")];
    let moves = rank_moves(&specs, &[0, 1], 200, 100, false);
    let step = |vertical| Step { index: 1, width: 50, height: 50, rotated: false, vertical };
    assert_eq!(first_steps(&moves, &specs), vec![step(true), step(false)]);
    let moves = rank_moves(&specs, &[2, 1], 200, 100, false);
    let steps = first_steps(&moves, &specs);
    assert_eq!(steps.len(), 2 * moves.len());
    for (k, s) in steps.iter().enumerate() {
        let m = &moves[k / 2];
        assert_eq!((s.index, s.rotated, s.vertical), (m.index, m.rotated, k % 2 == 0));
        assert_eq!((s.width, s.height), (m.width, m.height));
    }
    assert!(first_steps(&vec![], &specs).is_empty());
}

#[test]
fn only_a_larger_layout_is_a_record() {
    let solution = |area| Solution { items: vec![], remaining_counts: vec![], total_area: area };
    let mut best = solution(10);
    assert!(!take_record(&mut best, &solution(10)));
    assert!(take_record(&mut best, &solution(11)));
    assert_eq!(best, solution(11));
}

#[test]
fn nearly_full_is_99_percent() {
    assert!(is_nearly_full(990, 1000));
    assert!(!is_nearly_full(989, 1000));
    assert!(is_nearly_full(148, 150));
    assert!(is_nearly_full(0, 0));
}

#[test]
fn added_pieces_are_taken_from_the_first_kind_with_their_name() {
    let specs = vec![kind(1, 1, 1, "a"), kind(2, 3, 1, "b"), kind(2, 3, 1, "b")];
    let mut solution = Solution {
        items: vec![at(0, 0, 1, 1, "a", false)],
        remaining_counts: vec![0, 1, 1],
        total_area: 1,
    };
    let more = vec![at(5, 5, 2, 3, "b", false)];
    assert!(can_take_all(&specs, &solution.remaining_counts, &more));
    add_pieces(&mut solution, more, &specs);
    assert_eq!(
        solution,
        Solution {
            items: vec![at(0, 0, 1, 1, "a", false), at(5, 5, 2, 3, "b", false)],
            remaining_counts: vec![0, 0, 1],
            total_area: 7,
        }
    );
    let again = vec![at(7, 7, 2, 3, "b", false)];
    assert!(!can_take_all(&specs, &solution.remaining_counts, &again));
    assert!(can_take_all(&specs, &solution.remaining_counts, &[at(0, 0, 1, 1, "z", false)]));
}

#[test]
fn filling_gaps_accounts_for_the_pieces() {
    let (specs, mut best) = gappy();
    assert_eq!(fill_up(10, 10, &mut best, &specs), 2);
    assert_eq!(
        best,
        Solution {
            items: vec![
                at(0, 0, 6, 6, "x", false),
                at(6, 0, 4, 4, "u", false),
                at(0, 6, 6, 4, "v", false),
            ],
            remaining_counts: vec![0, 0, 1],
            total_area: 76,
        }
    );
    assert_eq!(sum_areas(&best.items), 76);
}

#[test]
fn swapping_counts_the_area_anew() {
    let specs = vec![kind(6, 10, 1, "u"), kind(4, 10, 1, "v")];
    let mut solution = Solution {
        items: vec![at(3, 0, 4, 10, "v", false)],
        remaining_counts: vec![1, 0],
        total_area: 40,
    };
    assert!(swap_pieces(10, 10, &mut solution, &specs));
    assert_eq!(solution.total_area, 100);
    assert_eq!(solution.remaining_counts, vec![0, 0]);
    assert!(!swap_pieces(10, 10, &mut solution, &specs));
    assert_eq!(solution.total_area, 100);
}

#[test]
fn finishing_repacks_what_gaps_do_not_take() {
    let (specs, best) = gappy();
    assert!(can_finish(10, 10, &specs, &[1, 1, 2], &best));
    let finish = finish_layout(10, 10, &specs, &[1, 1, 2], best, 12, 1, &Signals::new());
    assert_eq!(finish.added, 2);
    assert_eq!(finish.filled_area, 76);
    assert!(finish.swapped);
    assert_eq!(finish.left, 0);
    assert_eq!(finish.forced, None);
    assert!(!finish.improved);
    assert_eq!(
        finish.solution,
        Solution {
            items: vec![
                at(6, 6, 4, 4, "u", false),
                at(6, 0, 4, 6, "v", true),
                at(0, 6, 6, 4, "v", false),
                at(0, 0, 6, 6, "x", false),
            ],
            remaining_counts: vec![0, 0, 0],
            total_area: 100,
        }
    );
}

#[test]
fn finishing_keeps_a_layout_that_cannot_be_improved() {
    let specs = vec![kind(6, 6, 2, "x")];
    let best = || Solution {
        items: vec![at(0, 0, 6, 6, "x", false)],
        remaining_counts: vec![1],
        total_area: 36,
    };
    let finish = finish_layout(10, 10, &specs, &[2], best(), 12, 0, &Signals::new());
    assert_eq!((finish.added, finish.swapped, finish.left), (0, false, 1));
    assert_eq!(finish.forced, None);
    assert_eq!(finish.solution, best());
    let finish = finish_layout(10, 10, &specs, &[2], best(), 12, 1, &Signals::new());
    assert_eq!(finish.forced, Some(best()));
    assert!(!finish.improved);
    assert_eq!(finish.solution, best());
}

#[test]
fn finishing_a_full_sheet_changes_nothing() {
    let specs = vec![kind(10, 10, 1, "x"), kind(0, 5, 0, "z")];
    let best = || Solution {
        items: vec![at(0, 0, 10, 10, "x", false)],
        remaining_counts: vec![0, 0],
        total_area: 100,
    };
    assert!(can_finish(10, 10, &specs, &[1, 0], &best()));
    let finish = finish_layout(10, 10, &specs, &[1, 0], best(), 12, 1, &Signals::new());
    assert_eq!((finish.added, finish.swapped, finish.left), (0, false, 0));
    assert_eq!(finish.forced, None);
    assert_eq!(finish.solution, best());
    let empty = Solution { items: vec![], remaining_counts: vec![0], total_area: 0 };
    let none = vec![kind(0, 5, 0, "z")];
    assert!(can_finish(10, 10, &none, &[0], &empty));
}

#[test]
fn finishing_leaves_a_piece_off_that_is_larger_than_the_sheet() {
    let specs = vec![kind(20, 5, 1, "u"), kind(10, 10, 1, "x")];
    let best = || Solution {
        items: vec![at(0, 0, 10, 10, "x", false)],
        remaining_counts: vec![1, 0],
        total_area: 100,
    };
    assert!(can_finish(10, 10, &specs, &[1, 1], &best()));
    let finish = finish_layout(10, 10, &specs, &[1, 1], best(), 12, 0, &Signals::new());
    assert_eq!((finish.added, finish.swapped, finish.left), (0, false, 1));
    assert_eq!(finish.solution, best());
}

#[test]
fn finishing_takes_a_better_layout_with_a_forced_piece() {
    let specs: Vec<ElementType> = (0..14).map(|i| kind(10, 10, 1, &format!("n{i}"))).collect();
    let best = Solution { items: vec![], remaining_counts: vec![1; 14], total_area: 0 };
    let counts = vec![1; 14];
    let finish = finish_layout(10, 10, &specs, &counts, best, 12, 1, &Signals::new());
    assert_eq!(finish.added, 1);
    assert!(!finish.swapped);
    assert_eq!(finish.solution.items.len(), 1);
    let specs = vec![kind(11, 10, 1, "w"), kind(7, 20, 3, "t")];
    let best = Solution {
        items: vec![at(0, 0, 11, 10, "w", false)],
        remaining_counts: vec![0, 3],
        total_area: 110,
    };
    let finish = finish_layout(21, 20, &specs, &[1, 3], best, 12, 1, &Signals::new());
    assert_eq!(finish.added, 1);
    assert!(!finish.swapped);
    assert_eq!(finish.solution.items.len(), 3);
    assert_eq!(finish.solution.total_area, 420);
    assert_eq!(finish.forced, Some(finish.solution.clone()));
    assert!(finish.improved);
}

#[test]
fn a_layout_that_breaks_the_limits_cannot_be_finished() {
    let (mut specs, best) = gappy();
    assert!(can_finish(10, 10, &specs, &[1, 1, 1], &best));
    assert!(!can_finish(10, 10, &specs, &[1, 1, 0], &best));
    specs[1].width = 0;
    assert!(!can_finish(10, 10, &specs, &[1, 1, 2], &best));
}

#[test]
fn numbers_in_range() {
    let specs = vec![kind(100, 50, 2, "a")];
    assert!(is_in_range(&specs, &[2], 200, 100));
    assert!(is_in_range(&specs, &[2], 100_000, 100_000));
    assert!(!is_in_range(&specs, &[2], 4_000_000_000, 4_000_000_000));
    assert!(is_in_range(&specs, &[0], 4_000_000_000, 4_000_000_000));
    assert!(is_in_range(&specs, &[2], 2_000_000_000, 2_000_000_000));
    let long = vec![kind(600_000, 600_000, 2, "l")];
    assert!(!is_in_range(&long, &[2], 2_000_000_000, 2_000_000_000));
    assert!(is_in_range(&long, &[2], 50_000, 2_000_000_000));
    assert!(!is_in_range(&specs, &[], 200, 100));
    assert!(!is_in_range(&specs, &[2, u32::MAX], 200, 100));
    assert_eq!(count_all(&[u32::MAX, u32::MAX]), 2 * u32::MAX as u128);
}

#[test]
fn kinds_with_pieces_left() {
    assert_eq!(list_unplaced(&[0, 2, 0, 1]), vec![1, 3]);
    assert!(list_unplaced(&[0, 0]).is_empty());
}

#[test]
fn the_beam_for_forcing_is_at_least_sixteen() {
    assert_eq!(wider_beam(12), 16);
    assert_eq!(wider_beam(20), 20);
}
