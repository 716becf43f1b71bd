use guillotine::candidates::{beam_width_at, line_up, rank_moves, Candidate};
use guillotine::pieces::ElementType;

fn kind(width: u32, height: u32, count: u32, name: &str) -> ElementType {
    ElementType { width, height, count, name: name.to_string() }
}

fn kinds() -> Vec<ElementType> {
    vec![kind(100, 50, 2, "a"), kind(50, 50, 1, "b"), kind(30, 20, 3, "c")]
}

fn candidate(index: usize, width: u32, height: u32, rotated: bool, score: i64) -> Candidate {
    Candidate { index, width, height, rotated, score }
}

#[test]
fn the_most_promising_move_comes_first() {
    let moves = rank_moves(&kinds(), &[2, 1, 3], 200, 100, true);
    assert_eq!(
        moves,
        vec![
            candidate(0, 100, 50, false, 121_005_000),
            candidate(0, 50, 100, true, 116_005_000),
            candidate(1, 50, 50, false, 86_000_500),
            candidate(2, 30, 20, false, 16_001_220),
            candidate(2, 20, 30, true, 16_001_220),
        ]
    );
}

#[test]
fn small_pieces_are_favoured_among_the_last_ones() {
    let favoured = rank_moves(&kinds(), &[1, 1, 1], 200, 100, true);
    assert_eq!(favoured[0], candidate(1, 50, 50, false, 136_000_500));
    assert_eq!(favoured[3], candidate(2, 30, 20, false, 65_998_220));
    let plain = rank_moves(&kinds(), &[1, 1, 1], 200, 100, false);
    assert_eq!(plain[0], candidate(0, 100, 50, false, 121_003_500));
    assert_eq!(plain[3], candidate(2, 30, 20, false, 15_998_220));
}

#[test]
fn pieces_that_are_gone_or_too_large_make_no_move() {
    let moves = rank_moves(&kinds(), &[2, 0, 0], 60, 100, true);
    assert_eq!(moves.len(), 1);
    assert_eq!((moves[0].index, moves[0].rotated), (0, true));
    assert!(rank_moves(&kinds(), &[2, 0, 0], 40, 40, true).is_empty());
}

#[test]
fn some_seeds_put_the_best_move_off() {
    let plain = line_up(&kinds(), &[2, 1, 3], 200, 100, 0, 0);
    assert_eq!(line_up(&kinds(), &[2, 1, 3], 200, 100, 0, 2), plain);
    let mut turned = plain.clone();
    turned.rotate_left(1);
    assert_eq!(line_up(&kinds(), &[2, 1, 3], 200, 100, 0, 1), turned);
    assert_eq!(line_up(&kinds(), &[2, 1, 3], 200, 100, 0, 6), turned);
}

#[test]
fn the_beam_narrows_with_depth() {
    assert_eq!(beam_width_at(2, 12), 12);
    assert_eq!(beam_width_at(3, 12), 9);
    assert_eq!(beam_width_at(6, 4), 8);
    assert_eq!(beam_width_at(7, 12), 5);
    assert_eq!(beam_width_at(12, 12), 4);
    assert_eq!(beam_width_at(18, 12), 3);
}

#[test]
fn an_exact_fit_comes_first() {
    let specs = vec![kind(199, 99, 5, "big"), kind(100, 200, 1, "exact"), kind(200, 50, 5, "wide")];
    for favour in [true, false] {
        let moves = rank_moves(&specs, &[5, 1, 5], 200, 100, favour);
        assert_eq!(moves[0], candidate(1, 200, 100, true, i64::MAX / 4));
    }
}
