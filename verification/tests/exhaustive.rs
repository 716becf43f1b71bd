use guillotine::exhaustive::{list_openings, solve_guillotine_memoized};
use guillotine::exhaustive_memo::{MemoCache, MemoKey};
use guillotine::kinds::{counts_of, sort_by_size};
use guillotine::optimize::{
    can_open, find_scheme, get_default_elements, is_covered, optimize_layout_guillotine_parallel,
    solve_first_level,
};
use guillotine::pieces::{ElementType, PlacedItem};
use guillotine::tally::Tally;

fn kind(width: u32, height: u32, count: u32, name: &str) -> ElementType {
    ElementType { width, height, count, name: name.to_string() }
}

fn at(x: u32, y: u32, width: u32, height: u32, name: &str, rotated: bool) -> PlacedItem {
    PlacedItem { x, y, width, height, name: name.to_string(), rotated }
}

fn others() -> Vec<ElementType> {
    vec![kind(70, 40, 3, "p"), kind(35, 25, 4, "q"), kind(20, 15, 5, "r")]
}

fn listed(tally: &Tally) -> Vec<(String, u32)> {
    let mut list: Vec<(String, u32)> =
        tally.entries().iter().map(|e| (e.name.clone(), e.count)).collect();
    list.sort();
    list
}

#[test]
fn test_basic_optimization() {
    let elements = vec![
        ElementType { width: 100, height: 50, count: 2, name: "test1".to_string() },
        ElementType { width: 50, height: 50, count: 1, name: "test2".to_string() },
    ];

    let result = optimize_layout_guillotine_parallel(200, 100, &elements);
    let effective_area = f64::from(result.total_placed_area) / f64::from(200u32 * 100) * 100.0;

    assert!(result.total_placed_area > 0);
    assert!(effective_area > 0.0);
}

#[test]
fn the_last_of_the_best_schemes_is_taken() {
    let elements = vec![kind(100, 50, 2, "test1"), kind(50, 50, 1, "test2")];
    let result = optimize_layout_guillotine_parallel(200, 100, &elements);
    assert_eq!(result.total_placed_area, 12_500);
    assert_eq!(
        result.scheme,
        vec![
            at(0, 0, 50, 50, "test2", false),
            at(50, 0, 100, 50, "test1", false),
            at(50, 50, 100, 50, "test1", false),
        ]
    );
    assert_eq!(
        listed(&result.placed_elements),
        vec![("test1".to_string(), 2), ("test2".to_string(), 1)]
    );
    assert!(listed(&result.unplaced_elements).is_empty());
}

#[test]
fn pieces_without_room_are_listed() {
    let result = optimize_layout_guillotine_parallel(100, 50, &[kind(100, 50, 2, "test1")]);
    assert_eq!(result.total_placed_area, 5_000);
    assert_eq!(result.scheme, vec![at(0, 0, 100, 50, "test1", false)]);
    assert_eq!(listed(&result.placed_elements), vec![("test1".to_string(), 1)]);
    assert_eq!(listed(&result.unplaced_elements), vec![("test1".to_string(), 1)]);
    assert_eq!(result.unplaced_elements.get(&"test1".to_string()), Some(1));
    assert_eq!(result.unplaced_elements.get(&"test2".to_string()), None);
}

#[test]
fn where_nothing_fits_everything_is_listed() {
    let elements = vec![kind(20, 20, 3, "big"), kind(5, 5, 0, "none")];
    let result = optimize_layout_guillotine_parallel(10, 10, &elements);
    assert_eq!(result.total_placed_area, 0);
    assert!(result.scheme.is_empty());
    assert!(listed(&result.placed_elements).is_empty());
    assert_eq!(
        listed(&result.unplaced_elements),
        vec![("big".to_string(), 3), ("none".to_string(), 0)]
    );
    assert!(!can_open(10, 10, &elements));
    assert!(can_open(20, 20, &elements));
}

#[test]
fn schemes_of_a_first_piece() {
    let specs = others();
    let (items, area) = solve_first_level(120, 80, &specs, &[3, 4, 5], 0, false);
    assert_eq!(area, 9_425);
    assert_eq!(items[..2], [at(0, 0, 70, 40, "p", false), at(0, 40, 70, 40, "p", false)]);
    assert_eq!(items.len(), 9);
    let (items, area) = solve_first_level(120, 80, &specs, &[3, 4, 5], 0, true);
    assert_eq!(area, 8_550);
    assert_eq!(items[0], at(0, 0, 40, 70, "p", true));
    assert_eq!(solve_first_level(60, 30, &specs, &[3, 4, 5], 0, false), (vec![], 0));
}

#[test]
fn many_searches_are_as_good_as_one() {
    let elements = others();
    let (items, area) = find_scheme(120, 80, &elements);
    assert_eq!(area, 9_425);
    assert_eq!(items[0], at(0, 0, 15, 20, "r", true));
    assert_eq!(items.len(), 9);
    assert!(is_covered(&elements, &items));
    let specs = sort_by_size(&elements);
    let counts = counts_of(&specs);
    let mut memo = MemoCache::new();
    let whole = solve_guillotine_memoized(120, 80, &counts, &specs, &mut memo);
    assert_eq!(whole.total_area, area);
}

#[test]
fn what_is_remembered_does_not_change_the_result() {
    let specs = others();
    let mut memo = MemoCache::new();
    let once = solve_guillotine_memoized(120, 80, &[3, 4, 5], &specs, &mut memo);
    let again = solve_guillotine_memoized(120, 80, &[3, 4, 5], &specs, &mut memo);
    assert_eq!(once, again);
    let key = MemoKey { width: 120, height: 80, counts: vec![3, 4, 5] };
    assert_eq!(memo.get(&key), Some(once));
}

#[test]
fn what_is_remembered_is_kept() {
    let specs = others();
    let mut memo = MemoCache::new();
    let small = solve_guillotine_memoized(40, 30, &[0, 1, 1], &specs, &mut memo);
    solve_guillotine_memoized(120, 80, &[3, 4, 5], &specs, &mut memo);
    let key = MemoKey { width: 40, height: 30, counts: vec![0, 1, 1] };
    assert_eq!(memo.get(&key), Some(small));
}

#[test]
fn the_order_of_kinds_does_not_matter() {
    let elements = others();
    let once = optimize_layout_guillotine_parallel(120, 80, &elements);
    for order in [[0, 2, 1], [1, 0, 2], [1, 2, 0], [2, 0, 1], [2, 1, 0]] {
        let reordered: Vec<ElementType> = order.iter().map(|&i| elements[i].clone()).collect();
        let again = optimize_layout_guillotine_parallel(120, 80, &reordered);
        assert_eq!(again.scheme, once.scheme);
        assert_eq!(again.total_placed_area, once.total_placed_area);
        assert_eq!(listed(&again.placed_elements), listed(&once.placed_elements));
        assert_eq!(listed(&again.unplaced_elements), listed(&once.unplaced_elements));
    }
}

#[test]
fn every_piece_is_placed_or_left() {
    let specs = others();
    let mut memo = MemoCache::new();
    let found = solve_guillotine_memoized(120, 80, &[3, 4, 5], &specs, &mut memo);
    for (i, spec) in specs.iter().enumerate() {
        let placed = found.items.iter().filter(|p| p.name == spec.name).count();
        assert_eq!(placed as u32 + found.remaining_counts[i], spec.count);
    }
    let area: u32 = found.items.iter().map(|p| p.width * p.height).sum();
    assert_eq!(area, found.total_area);
}

#[test]
fn an_empty_part_holds_nothing() {
    let specs = others();
    let mut memo = MemoCache::new();
    for (w, h, counts) in [(0, 80, [3, 4, 5]), (120, 0, [3, 4, 5]), (120, 80, [0, 0, 0])] {
        let found = solve_guillotine_memoized(w, h, &counts, &specs, &mut memo);
        assert!(found.items.is_empty());
        assert_eq!(found.total_area, 0);
        assert_eq!(found.remaining_counts, counts.to_vec());
    }
}

#[test]
fn openings_are_listed_kind_by_kind() {
    let specs = vec![kind(70, 40, 3, "p"), kind(30, 30, 1, "s"), kind(90, 10, 1, "t")];
    assert_eq!(
        list_openings(&specs, &[1, 1, 1], 80, 70),
        vec![(0, false), (0, true), (1, false)]
    );
    assert_eq!(list_openings(&specs, &[0, 0, 1], 80, 100), vec![(2, true)]);
}

#[test]
fn names_that_come_up_twice_can_ask_for_too_much() {
    let elements = vec![kind(10, 10, 1, "x"), kind(5, 5, 1, "x")];
    let (items, _) = find_scheme(20, 10, &elements);
    assert_eq!(items.len(), 2);
    assert!(!is_covered(&elements, &items));
}

#[test]
fn the_default_pieces() {
    let list: Vec<(u32, u32, u32, String)> = get_default_elements()
        .into_iter()
        .map(|e| (e.width, e.height, e.count, e.name))
        .collect();
    assert_eq!(
        list,
        vec![
            (42, 32, 1, "40x30".to_string()),
            (87, 82, 2, "85x80".to_string()),
            (92, 52, 48, "90x50".to_string()),
            (102, 72, 1, "100x70".to_string()),
            (150, 107, 2, "148x105".to_string()),
            (170, 132, 1, "168x130".to_string()),
        ]
    );
}

#[test]
fn the_best_first_cut_is_taken() {
    let specs = others();
    let mut memo = MemoCache::new();
    let found = solve_guillotine_memoized(120, 80, &[3, 4, 5], &specs, &mut memo);
    let mut best = 0;
    for (i, rotated) in list_openings(&specs, &[3, 4, 5], 120, 80) {
        let (w, h) = if rotated {
            (specs[i].height, specs[i].width)
        } else {
            (specs[i].width, specs[i].height)
        };
        let mut counts = [3, 4, 5];
        counts[i] -= 1;
        let beside = |memo: &mut MemoCache, a: (u32, u32), b: (u32, u32)| {
            let first = solve_guillotine_memoized(a.0, a.1, &counts, &specs, memo);
            let left = &first.remaining_counts;
            let second = solve_guillotine_memoized(b.0, b.1, left, &specs, memo);
            w * h + first.total_area + second.total_area
        };
        best = best.max(beside(&mut memo, (120 - w, h), (120, 80 - h)));
        best = best.max(beside(&mut memo, (w, 80 - h), (120 - w, 80)));
    }
    assert_eq!(found.total_area, best);
}

#[test]
fn a_part_without_room_needs_no_counts() {
    let mut memo = MemoCache::new();
    let found = solve_guillotine_memoized(0, 80, &[7], &others(), &mut memo);
    assert_eq!((found.total_area, found.remaining_counts), (0, vec![7]));
    let large = vec![kind(10, 10, 2, "s")];
    let found = solve_guillotine_memoized(100_000, 100_000, &[2], &large, &mut MemoCache::new());
    assert_eq!(found.total_area, 200);
}
