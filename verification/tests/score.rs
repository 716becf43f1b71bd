use guillotine::pieces::ElementType;
use guillotine::score::{score_move, splitmix64};

fn kind(width: u32, height: u32, count: u32, name: &str) -> ElementType {
    ElementType { width, height, count, name: name.to_string() }
}

fn kinds() -> Vec<ElementType> {
    vec![kind(100, 50, 2, "a"), kind(50, 50, 1, "b"), kind(30, 20, 3, "c")]
}

#[test]
fn mixing_gives_the_known_sequence() {
    assert_eq!(splitmix64(0), 0xE220A8397B1DCDAF);
    assert_eq!(splitmix64(0x9E3779B97F4A7C15), 0x6E789E6AA1B965F4);
}

#[test]
fn filling_the_part_scores_highest() {
    assert_eq!(score_move(100, 50, 100, 50, 2, &kinds(), &[2, 1, 3]), i64::MAX / 4);
}

#[test]
fn scores_of_moves() {
    let specs = kinds();
    let counts = [2, 1, 3];
    assert_eq!(score_move(200, 100, 100, 50, 2, &specs, &counts), 121_005_000);
    assert_eq!(score_move(200, 100, 200, 50, 1, &specs, &counts), 186_009_500);
    assert_eq!(score_move(120, 60, 100, 50, 2, &specs, &counts), 43_007_560);
    assert_eq!(score_move(40, 40, 30, 20, 3, &specs, &counts), 43_004_900);
}

#[test]
fn a_piece_larger_than_the_part_leaves_no_strips() {
    assert_eq!(score_move(10, 10, 30, 20, 3, &kinds(), &[2, 1, 3]), 5_100);
}

#[test]
fn useless_strips_are_penalised() {
    let specs = vec![kind(100, 50, 2, "a")];
    assert_eq!(score_move(101, 51, 100, 50, 2, &specs, &[2]), -300_144_030);
}

#[test]
fn useless_strips_of_a_large_sheet_are_penalised() {
    let specs = vec![kind(60_000, 60_000, 2, "a")];
    assert_eq!(
        score_move(100_000, 100_000, 60_000, 60_000, 2, &specs, &[2]),
        -7_997_979_997_000
    );
}

#[test]
fn the_score_depends_on_sizes_of_kinds_that_are_left() {
    let (specs, counts) = (kinds(), [2, 1, 3]);
    let score = score_move(200, 100, 100, 50, 2, &specs, &counts);
    let turned = vec![kind(50, 100, 2, "a"), kind(50, 50, 1, "b"), kind(20, 30, 3, "c")];
    assert_eq!(score_move(200, 100, 100, 50, 2, &turned, &counts), score);
    let reordered = vec![kind(30, 20, 3, "c"), kind(100, 50, 2, "a"), kind(50, 50, 1, "b")];
    assert_eq!(score_move(200, 100, 100, 50, 2, &reordered, &[3, 2, 1]), score);
    assert_eq!(score_move(200, 100, 100, 50, 2, &specs, &[7, 9, 1]), score);
    let mut more = kinds();
    more.insert(1, kind(10, 10, 4, "d"));
    assert_eq!(score_move(200, 100, 100, 50, 2, &more, &[2, 0, 1, 3]), score);
    assert_ne!(score_move(200, 100, 100, 50, 2, &more, &[2, 4, 1, 3]), score);
}

#[test]
fn a_huge_sheet_takes_many_pieces() {
    let specs = vec![kind(1_000, 2_000, 2, "a")];
    assert_eq!(
        score_move(2_000_000_000, 2_000_000_000, 1_000, 2_000, 2, &specs, &[2]),
        -799_999_999_997_597_000
    );
}

#[test]
fn a_quarter_turn_does_not_change_the_score() {
    let specs = kinds();
    for (w, h) in [(100, 50), (50, 100), (50, 50), (30, 20), (120, 60)] {
        assert_eq!(
            score_move(200, 100, w, h, 2, &specs, &[2, 1, 3]),
            score_move(100, 200, h, w, 2, &specs, &[2, 1, 3])
        );
    }
}
