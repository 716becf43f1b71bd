//! The moves to consider for a part of the sheet, the most promising first.

use crate::order::{
    comes_before, indices, key_values, lemma_order_exists, sort_order, sorts, stable_order,
    taken,
};
use crate::pieces::{lemma_total_prefix, lemma_total_within, sum_counts, total, within, ElementType};
use crate::score::{
    left_over, mixed, score, score_in_range, score_move, splitmix64, strips, Strips, BLINK_PCT,
    STRIP_LIMIT,
};
use vstd::prelude::*;

verus! {

/// A piece to put into the corner of a part of the sheet.
#[derive(Clone, Copy, Debug, PartialEq, Eq)]
pub struct Candidate {
    pub index: usize,
    pub width: u32,
    pub height: u32,
    pub rotated: bool,
    pub score: i64,
}

/// What a candidate stands for: a kind of piece, how it lies, and how promising that is.
pub struct Move {
    pub kind: int,
    pub rotated: bool,
    pub score: int,
}

impl View for Candidate {
    type V = Move;

    open spec fn view(&self) -> Move {
        Move { kind: self.index as int, rotated: self.rotated, score: self.score as int }
    }
}

/// The moves that a list of candidates stands for.
pub open spec fn moves_of(candidates: Seq<Candidate>) -> Seq<Move> {
    candidates.map_values(|c: Candidate| c@)
}

/// A candidate's sides are those of a piece of its kind.
pub open spec fn is_sized(c: Candidate, specs: Seq<ElementType>) -> bool {
    &&& c.index < specs.len()
    &&& c.width == specs[c.index as int].wide(c.rotated)
    &&& c.height == specs[c.index as int].high(c.rotated)
}

/// Every candidate's sides are those of a piece of its kind.
pub open spec fn all_sized(candidates: Seq<Candidate>, specs: Seq<ElementType>) -> bool {
    forall|i: int| 0 <= i < candidates.len() ==> is_sized(#[trigger] candidates[i], specs)
}

/// How promising a move is. With few pieces left small ones are preferred, if `favour` says so.
pub open spec fn worth(
    specs: Seq<ElementType>,
    counts: Seq<u32>,
    w: int,
    h: int,
    kind: int,
    rotated: bool,
    favour: bool,
) -> int {
    score(
        w,
        h,
        specs[kind].wide(rotated),
        specs[kind].high(rotated),
        counts[kind] as int,
        specs,
        counts,
    ) + (if favour && total(counts) <= 5 && specs[kind].area() < 4000 {
        50_000_000int
    } else {
        0int
    })
}

/// A piece of the kind fits into a `w` by `h` part.
pub open spec fn fits(spec: ElementType, rotated: bool, w: int, h: int) -> bool {
    spec.wide(rotated) <= w && spec.high(rotated) <= h
}

/// The moves with the first `n` kinds: with each that has pieces left, as it is where it fits,
/// then turned where it fits and is no square.
pub open spec fn offers(
    specs: Seq<ElementType>,
    counts: Seq<u32>,
    w: int,
    h: int,
    favour: bool,
    n: int,
) -> Seq<Move>
    decreases n,
{
    if n <= 0 {
        seq![]
    } else {
        let k = n - 1;
        let before = offers(specs, counts, w, h, favour, k);
        let spec = specs[k];
        if counts[k] == 0 {
            before
        } else {
            before + (if fits(spec, false, w, h) {
                seq![
                    Move {
                        kind: k,
                        rotated: false,
                        score: worth(specs, counts, w, h, k, false, favour),
                    },
                ]
            } else {
                seq![]
            }) + (if spec.width != spec.height && fits(spec, true, w, h) {
                seq![
                    Move {
                        kind: k,
                        rotated: true,
                        score: worth(specs, counts, w, h, k, true, favour),
                    },
                ]
            } else {
                seq![]
            })
        }
    }
}

/// The sort keys of moves: the higher the score, the smaller the key.
pub open spec fn rank_keys(moves: Seq<Move>) -> Seq<int> {
    moves.map_values(|m: Move| -m.score)
}

/// All moves, the most promising first, equally promising ones by kind.
pub open spec fn ranked(
    specs: Seq<ElementType>,
    counts: Seq<u32>,
    w: int,
    h: int,
    favour: bool,
) -> Seq<Move> {
    let all = offers(specs, counts, w, h, favour, specs.len() as int);
    taken(all, stable_order(rank_keys(all)))
}

/// The number that decides whether the best move of a node is put off.
pub open spec fn blink_number(seed: u64, w: int, h: int, depth: u32, pieces: nat) -> u64 {
    mixed(
        seed ^ (w as u64).wrapping_mul(0x9E3779B97F4A7C15) ^ (h as u64).wrapping_mul(
            0xC2B2AE3D27D4EB4F,
        ) ^ (depth as u64).wrapping_mul(0x165667B19E3779F9) ^ (pieces as u64),
    )
}

/// The best move of a node is put off. A seed of zero, and a single move, never are.
pub open spec fn blinks(
    seed: u64,
    w: int,
    h: int,
    depth: u32,
    pieces: nat,
    moves: Seq<Move>,
) -> bool {
    seed != 0 && moves.len() >= 2 && blink_number(seed, w, h, depth, pieces) % 100 < BLINK_PCT
}

/// The moves to consider for a `w` by `h` part, in order.
pub open spec fn lineup(
    specs: Seq<ElementType>,
    counts: Seq<u32>,
    w: int,
    h: int,
    depth: u32,
    seed: u64,
) -> Seq<Move> {
    let moves = ranked(specs, counts, w, h, true);
    if blinks(seed, w, h, depth, total(counts), moves) {
        moves.skip(1).push(moves[0])
    } else {
        moves
    }
}

/// How many moves are followed at a depth.
pub open spec fn beam_at(depth: u32, beam: nat) -> nat {
    if depth < 3 {
        beam
    } else if depth < 7 {
        if beam * 3 / 4 >= 8 {
            beam * 3 / 4
        } else {
            8
        }
    } else if depth < 12 {
        5
    } else if depth < 18 {
        4
    } else {
        3
    }
}

/// How large a piece may be that fits.
pub const PIECE_LIMIT: u64 = 0x1000_0000_0000_0000;

/// How long the sides of a piece may be that leaves large strips.
pub const SIDE_LIMIT: u32 = 0x8_0000;

/// At no depth does a search follow less than three moves, if it may follow three at the top; and
/// where it may follow any at the top, it follows some at every depth. The first three levels
/// have the full beam, the next ones three quarters of it but at least eight moves, and below
/// that five, four and three moves are followed.
pub proof fn lemma_beam(depth: u32, beam: nat)
    ensures
        beam >= 3 ==> beam_at(depth, beam) >= 3,
        beam > 0 ==> beam_at(depth, beam) > 0,
        depth >= 3 ==> beam_at(depth, beam) >= 3,
        depth <= 2 ==> beam_at(depth, beam) == beam,
        3 <= depth <= 6 ==> beam_at(depth, beam) >= 8 && 4 * beam_at(depth, beam) > 3 * beam - 4,
        3 <= depth <= 6 && beam_at(depth, beam) > 8 ==> 4 * beam_at(depth, beam) <= 3 * beam,
        7 <= depth <= 11 <==> depth >= 3 && beam_at(depth, beam) == 5,
        12 <= depth <= 17 <==> depth >= 3 && beam_at(depth, beam) == 4,
        18 <= depth <==> depth >= 3 && beam_at(depth, beam) == 3,
{
}

/// A beam of eight or more moves never widens on the way down, and a wider beam at the top is at
/// no depth the narrower one.
pub proof fn lemma_beam_narrows(upper: u32, lower: u32, narrow: nat, wide: nat)
    requires
        upper <= lower,
        narrow <= wide,
    ensures
        wide >= 8 ==> beam_at(lower, wide) <= beam_at(upper, wide),
        beam_at(upper, narrow) <= beam_at(upper, wide),
{
}

/// A piece that fits into a `w` by `h` part is not too large, and the strips that it leaves are
/// within their limit, or so large that the piece fits into them once more.
pub open spec fn move_in_range(spec: ElementType, rotated: bool, w: int, h: int) -> bool {
    let area = strips(w, h, spec.wide(rotated), spec.high(rotated)).double_area();
    fits(spec, rotated, w, h) ==> {
        &&& spec.area() <= PIECE_LIMIT
        &&& area <= i64::MAX
        &&& area <= STRIP_LIMIT || (spec.width <= SIDE_LIMIT && spec.height <= SIDE_LIMIT)
    }
}

/// A piece is in range whichever way it lies.
pub open spec fn piece_in_range(spec: ElementType, w: int, h: int) -> bool {
    move_in_range(spec, false, w, h) && move_in_range(spec, true, w, h)
}

/// The pieces of the stock and the strips that they leave on a `w` by `h` part are small enough
/// for the arithmetic of scores and areas.
pub open spec fn in_range(specs: Seq<ElementType>, stock: Seq<u32>, w: int, h: int) -> bool {
    &&& specs.len() <= stock.len()
    &&& total(stock) <= u32::MAX
    &&& forall|i: int|
        0 <= i < specs.len() && stock[i] > 0 ==> piece_in_range(#[trigger] specs[i], w, h)
}

/// Strips on a smaller part are no larger.
proof fn lemma_strips_shrink(w: int, h: int, w2: int, h2: int, iw: int, ih: int)
    requires
        0 <= w2 <= w,
        0 <= h2 <= h,
        0 <= iw,
        0 <= ih,
    ensures
        0 <= strips(w2, h2, iw, ih).double_area() <= strips(w, h, iw, ih).double_area(),
{
    let a = left_over(w, iw);
    let b = left_over(h, ih);
    let a2 = left_over(w2, iw);
    let b2 = left_over(h2, ih);
    assert(0 <= a2 * h2 <= a * h) by (nonlinear_arith)
        requires
            0 <= a2 <= a,
            0 <= h2 <= h,
    ;
    assert(0 <= w2 * b2 <= w * b) by (nonlinear_arith)
        requires
            0 <= b2 <= b,
            0 <= w2 <= w,
    ;
}

/// What is in range for a part and a stock is so for a smaller part and fewer pieces.
pub proof fn lemma_in_range_shrinks(
    specs: Seq<ElementType>,
    stock: Seq<u32>,
    counts: Seq<u32>,
    w: int,
    h: int,
    w2: int,
    h2: int,
)
    requires
        in_range(specs, stock, w, h),
        within(counts, stock),
        0 <= w2 <= w,
        0 <= h2 <= h,
    ensures
        in_range(specs, counts, w2, h2),
{
    lemma_total_within(counts, stock);
    assert forall|i: int| 0 <= i < specs.len() && counts[i] > 0 implies piece_in_range(
        #[trigger] specs[i],
        w2,
        h2,
    ) by {
        assert(counts[i] <= stock[i]);
        assert(piece_in_range(specs[i], w, h));
        lemma_strips_shrink(w, h, w2, h2, specs[i].wide(false), specs[i].high(false));
        lemma_strips_shrink(w, h, w2, h2, specs[i].wide(true), specs[i].high(true));
    }
}

/// The bonuses of the first `n` kinds are bounded by the number of pieces of those kinds.
proof fn lemma_tallies_bounded(s: Strips, specs: Seq<ElementType>, counts: Seq<u32>, n: int)
    requires
        0 <= n <= specs.len(),
        specs.len() <= counts.len(),
    ensures
        0 <= s.matches(specs, counts, n) <= 2 * total(counts.take(n)),
        0 <= s.small_ones(specs, counts, n) <= total(counts.take(n)),
    decreases n,
{
    if n > 0 {
        lemma_tallies_bounded(s, specs, counts, n - 1);
        assert(counts.take(n).drop_last() =~= counts.take(n - 1));
        assert(counts.take(n).last() == counts[n - 1]);
    }
}

/// Strips beyond their limit take a piece with short sides.
proof fn lemma_large_strips(s: Strips, spec: ElementType)
    requires
        0 <= s.rw <= s.w <= u32::MAX,
        0 <= s.rh <= s.h <= u32::MAX,
        s.double_area() > STRIP_LIMIT,
        spec.width <= SIDE_LIMIT,
        spec.height <= SIDE_LIMIT,
    ensures
        s.take(spec),
{
    if s.rw * s.h > STRIP_LIMIT / 2 {
        assert(s.rw >= SIDE_LIMIT && s.h >= SIDE_LIMIT) by (nonlinear_arith)
            requires
                s.rw * s.h > 0x8_0000_0000_0000,
                0 <= s.rw <= u32::MAX,
                0 <= s.h <= u32::MAX,
                SIDE_LIMIT == 0x8_0000,
        ;
    } else {
        assert(s.w >= SIDE_LIMIT && s.rh >= SIDE_LIMIT) by (nonlinear_arith)
            requires
                s.w * s.rh > 0x8_0000_0000_0000,
                0 <= s.w <= u32::MAX,
                0 <= s.rh <= u32::MAX,
                SIDE_LIMIT == 0x8_0000,
        ;
    }
}

/// The score of any move on a part that is in range can be computed, and is well inside the
/// range of an `i64`.
pub proof fn lemma_worth_in_range(
    specs: Seq<ElementType>,
    counts: Seq<u32>,
    w: int,
    h: int,
    kind: int,
    rotated: bool,
    favour: bool,
)
    requires
        in_range(specs, counts, w, h),
        0 <= w <= u32::MAX,
        0 <= h <= u32::MAX,
        0 <= kind < specs.len(),
        counts[kind] > 0,
        fits(specs[kind], rotated, w, h),
    ensures
        score_in_range(
            w,
            h,
            specs[kind].wide(rotated),
            specs[kind].high(rotated),
            counts[kind] as int,
            specs,
            counts,
        ),
        -0x5000_0000_0000_0000 <= worth(specs, counts, w, h, kind, rotated, favour)
            <= 0x3000_0000_0000_0000,
{
    let iw = specs[kind].wide(rotated);
    let ih = specs[kind].high(rotated);
    let s = strips(w, h, iw, ih);
    let n = specs.len() as int;
    assert(piece_in_range(specs[kind], w, h));
    assert(move_in_range(specs[kind], rotated, w, h));
    if s.double_area() > STRIP_LIMIT {
        lemma_large_strips(s, specs[kind]);
        assert(s.take_some(specs, counts, kind));
    }
    lemma_tallies_bounded(s, specs, counts, n);
    lemma_total_prefix(counts, n);
    assert(iw * ih == specs[kind].area()) by (nonlinear_arith)
        requires
            iw == specs[kind].wide(rotated),
            ih == specs[kind].high(rotated),
    ;
    assert(0 <= iw * ih) by (nonlinear_arith)
        requires
            0 <= iw,
            0 <= ih,
    ;
    lemma_strips_shrink(w, h, w, h, iw, ih);
    assert(0 <= s.rw * s.rh <= s.w * s.rh) by (nonlinear_arith)
        requires
            0 <= s.rw <= s.w,
            0 <= s.rh,
    ;
    assert(0 <= s.rw * s.h) by (nonlinear_arith)
        requires
            0 <= s.rw,
            0 <= s.h,
    ;
}

/// Move `k` is with the given kind, lying as told or, for a square, in any way.
pub open spec fn is_move(
    moves: Seq<Move>,
    specs: Seq<ElementType>,
    kind: int,
    rotated: bool,
    k: int,
) -> bool {
    &&& 0 <= k < moves.len()
    &&& moves[k].kind == kind
    &&& moves[k].rotated == rotated || specs[kind].width == specs[kind].height
}

/// There is a move with the given kind.
pub open spec fn has_move(
    moves: Seq<Move>,
    specs: Seq<ElementType>,
    kind: int,
    rotated: bool,
) -> bool {
    exists|k: int| is_move(moves, specs, kind, rotated, k)
}

/// What is known of the moves on offer.
pub proof fn lemma_offers(
    specs: Seq<ElementType>,
    counts: Seq<u32>,
    w: int,
    h: int,
    favour: bool,
    n: int,
)
    requires
        0 <= n <= specs.len(),
        specs.len() <= counts.len(),
    ensures
        forall|k: int|
            0 <= k < offers(specs, counts, w, h, favour, n).len() ==> {
                let m = #[trigger] offers(specs, counts, w, h, favour, n)[k];
                &&& 0 <= m.kind < n
                &&& counts[m.kind] > 0
                &&& fits(specs[m.kind], m.rotated, w, h)
                &&& m.score == worth(specs, counts, w, h, m.kind, m.rotated, favour)
            },
        forall|i: int, rotated: bool|
            #![trigger fits(specs[i], rotated, w, h)]
            0 <= i < n && counts[i] > 0 && fits(specs[i], rotated, w, h) ==> has_move(
                offers(specs, counts, w, h, favour, n),
                specs,
                i,
                rotated,
            ),
    decreases n,
{
    if n > 0 {
        lemma_offers(specs, counts, w, h, favour, n - 1);
        let before = offers(specs, counts, w, h, favour, n - 1);
        let s = offers(specs, counts, w, h, favour, n);
        assert forall|k: int| 0 <= k < s.len() implies {
            let m = #[trigger] s[k];
            &&& 0 <= m.kind < n
            &&& counts[m.kind] > 0
            &&& fits(specs[m.kind], m.rotated, w, h)
            &&& m.score == worth(specs, counts, w, h, m.kind, m.rotated, favour)
        } by {
            if k < before.len() {
                assert(s[k] == before[k]);
            }
        }
        assert forall|i: int, rotated: bool|
            #![trigger fits(specs[i], rotated, w, h)]
            0 <= i < n && counts[i] > 0 && fits(specs[i], rotated, w, h) implies has_move(
            s,
            specs,
            i,
            rotated,
        ) by {
            if i < n - 1 {
                assert(has_move(before, specs, i, rotated));
                let k = choose|k: int| is_move(before, specs, i, rotated, k);
                assert(s[k] == before[k]);
                assert(is_move(s, specs, i, rotated, k));
            } else if !rotated || specs[i].width == specs[i].height {
                assert(fits(specs[i], false, w, h));
                assert(is_move(s, specs, i, rotated, before.len() as int));
            } else {
                assert(is_move(s, specs, i, rotated, s.len() - 1));
            }
        }
    }
}

/// Ranking keeps the moves: it only changes their order.
pub proof fn lemma_ranked(
    specs: Seq<ElementType>,
    counts: Seq<u32>,
    w: int,
    h: int,
    favour: bool,
)
    requires
        specs.len() <= counts.len(),
    ensures
        ranked(specs, counts, w, h, favour).len() == offers(
            specs,
            counts,
            w,
            h,
            favour,
            specs.len() as int,
        ).len(),
        forall|k: int|
            0 <= k < ranked(specs, counts, w, h, favour).len() ==> {
                let m = #[trigger] ranked(specs, counts, w, h, favour)[k];
                &&& 0 <= m.kind < specs.len()
                &&& counts[m.kind] > 0
                &&& fits(specs[m.kind], m.rotated, w, h)
                &&& m.score == worth(specs, counts, w, h, m.kind, m.rotated, favour)
            },
        forall|a: int, b: int|
            0 <= a < b < ranked(specs, counts, w, h, favour).len() ==> (#[trigger] ranked(
                specs,
                counts,
                w,
                h,
                favour,
            )[a]).score >= (#[trigger] ranked(specs, counts, w, h, favour)[b]).score,
{
    let all = offers(specs, counts, w, h, favour, specs.len() as int);
    let keys = rank_keys(all);
    let order = stable_order(keys);
    lemma_order_exists(keys);
    lemma_offers(specs, counts, w, h, favour, specs.len() as int);
    let s = ranked(specs, counts, w, h, favour);
    assert forall|k: int| 0 <= k < s.len() implies {
        let m = #[trigger] s[k];
        &&& 0 <= m.kind < specs.len()
        &&& counts[m.kind] > 0
        &&& fits(specs[m.kind], m.rotated, w, h)
        &&& m.score == worth(specs, counts, w, h, m.kind, m.rotated, favour)
    } by {
        assert(s[k] == all[order[k]]);
    }
    assert forall|a: int, b: int| 0 <= a < b < s.len() implies (#[trigger] s[a]).score >= (
    #[trigger] s[b]).score by {
        assert(comes_before(keys, order[a], order[b]));
    }
}

/// A piece that fills the part exactly comes before all others.
pub proof fn lemma_exact_fit_first(
    specs: Seq<ElementType>,
    counts: Seq<u32>,
    w: int,
    h: int,
    favour: bool,
    kind: int,
    rotated: bool,
)
    requires
        in_range(specs, counts, w, h),
        0 <= w,
        0 <= h,
        0 <= kind < specs.len(),
        counts[kind] > 0,
        specs[kind].wide(rotated) == w,
        specs[kind].high(rotated) == h,
    ensures
        ranked(specs, counts, w, h, favour).len() > 0,
        ({
            let best = ranked(specs, counts, w, h, favour)[0];
            specs[best.kind].wide(best.rotated) == w && specs[best.kind].high(best.rotated) == h
        }),
{
    let n = specs.len() as int;
    let all = offers(specs, counts, w, h, favour, n);
    let keys = rank_keys(all);
    let order = stable_order(keys);
    let moves = ranked(specs, counts, w, h, favour);
    lemma_order_exists(keys);
    lemma_offers(specs, counts, w, h, favour, n);
    lemma_ranked(specs, counts, w, h, favour);
    assert(fits(specs[kind], rotated, w, h));
    let k = choose|k: int| is_move(all, specs, kind, rotated, k);
    assert(order.contains(k));
    let j = choose|j: int| 0 <= j < order.len() && order[j] == k;
    assert(moves[j] == all[k]);
    assert(moves[j].score >= i64::MAX / 4);
    let best = moves[0];
    assert(best.score >= moves[j].score);
    let iw = specs[best.kind].wide(best.rotated);
    let ih = specs[best.kind].high(best.rotated);
    if !(iw == w && ih == h) {
        let s = strips(w, h, iw, ih);
        assert(piece_in_range(specs[best.kind], w, h));
        assert(move_in_range(specs[best.kind], best.rotated, w, h));
        lemma_tallies_bounded(s, specs, counts, n);
        lemma_total_prefix(counts, n);
        assert(iw * ih == specs[best.kind].area()) by (nonlinear_arith)
            requires
                iw == specs[best.kind].wide(best.rotated),
                ih == specs[best.kind].high(best.rotated),
        ;
        lemma_strips_shrink(w, h, w, h, iw, ih);
        assert(0 <= s.rw * s.rh <= s.w * s.rh) by (nonlinear_arith)
            requires
                0 <= s.rw <= s.w,
                0 <= s.rh,
        ;
        assert(0 <= s.rw * s.h) by (nonlinear_arith)
            requires
                0 <= s.rw,
                0 <= s.h,
        ;
        assert(best.score == worth(specs, counts, w, h, best.kind, best.rotated, favour));
        assert(false);
    }
}

/// The lineup holds the ranked moves, each of which can be carried out.
pub proof fn lemma_lineup(
    specs: Seq<ElementType>,
    counts: Seq<u32>,
    w: int,
    h: int,
    depth: u32,
    seed: u64,
)
    requires
        specs.len() <= counts.len(),
    ensures
        lineup(specs, counts, w, h, depth, seed).to_multiset() == ranked(
            specs,
            counts,
            w,
            h,
            true,
        ).to_multiset(),
        lineup(specs, counts, w, h, depth, seed).len() == offers(
            specs,
            counts,
            w,
            h,
            true,
            specs.len() as int,
        ).len(),
        forall|k: int|
            0 <= k < lineup(specs, counts, w, h, depth, seed).len() ==> {
                let m = #[trigger] lineup(specs, counts, w, h, depth, seed)[k];
                &&& 0 <= m.kind < specs.len()
                &&& counts[m.kind] > 0
                &&& fits(specs[m.kind], m.rotated, w, h)
            },
{
    lemma_ranked(specs, counts, w, h, true);
    let moves = ranked(specs, counts, w, h, true);
    let s = lineup(specs, counts, w, h, depth, seed);
    if blinks(seed, w, h, depth, total(counts), moves) {
        broadcast use vstd::seq_lib::group_to_multiset_ensures;

        assert(moves =~= seq![moves[0]] + moves.skip(1));
        vstd::seq_lib::lemma_multiset_commutative(seq![moves[0]], moves.skip(1));
        assert(s =~= moves.skip(1) + seq![moves[0]]);
        vstd::seq_lib::lemma_multiset_commutative(moves.skip(1), seq![moves[0]]);
        assert forall|k: int| 0 <= k < s.len() implies {
            let m = #[trigger] s[k];
            &&& 0 <= m.kind < specs.len()
            &&& counts[m.kind] > 0
            &&& fits(specs[m.kind], m.rotated, w, h)
        } by {
            if k < s.len() - 1 {
                assert(s[k] == moves[k + 1]);
            } else {
                assert(s[k] == moves[0]);
            }
        }
    }
}

/// The moves with a `width` by `height` part, with each kind that has pieces left.
pub fn collect_offers(
    item_specs: &[ElementType],
    items_counts: &[u32],
    width: u32,
    height: u32,
    favour: bool,
) -> (candidates: Vec<Candidate>)
    requires
        in_range(item_specs@, items_counts@, width as int, height as int),
    ensures
        moves_of(candidates@) == offers(
            item_specs@,
            items_counts@,
            width as int,
            height as int,
            favour,
            item_specs.len() as int,
        ),
        all_sized(candidates@, item_specs@),
{
    let ghost w = width as int;
    let ghost h = height as int;
    let total_remaining: u32 = sum_counts(items_counts);
    let is_final_stage = total_remaining <= 5;
    let mut candidates: Vec<Candidate> = Vec::new();
    assert(moves_of(candidates@) =~= seq![]);
    let mut i: usize = 0;
    while i < item_specs.len()
        invariant
            i <= item_specs.len(),
            w == width,
            h == height,
            in_range(item_specs@, items_counts@, w, h),
            is_final_stage == (total(items_counts@) <= 5),
            moves_of(candidates@) == offers(item_specs@, items_counts@, w, h, favour, i as int),
            all_sized(candidates@, item_specs@),
        decreases item_specs.len() - i,
    {
        if items_counts[i] > 0 {
            let spec = &item_specs[i];
            proof {
                if fits(*spec, false, w, h) {
                    lemma_worth_in_range(item_specs@, items_counts@, w, h, i as int, false, favour);
                }
                if fits(*spec, true, w, h) {
                    lemma_worth_in_range(item_specs@, items_counts@, w, h, i as int, true, favour);
                }
                assert(0 <= spec.width * spec.height <= u32::MAX * u32::MAX) by (nonlinear_arith)
                    requires
                        0 <= spec.width <= u32::MAX,
                        0 <= spec.height <= u32::MAX,
                ;
            }
            let mut bonus: i64 = 0;
            if favour && is_final_stage {
                let item_area: u64 = spec.width as u64 * spec.height as u64;
                if item_area < 4000 {
                    bonus = 50_000_000;
                }
            }
            let ghost before = moves_of(candidates@);
            if spec.width <= width && spec.height <= height {
                let score: i64 = score_move(
                    width,
                    height,
                    spec.width,
                    spec.height,
                    items_counts[i],
                    item_specs,
                    items_counts,
                ) + bonus;
                candidates.push(
                    Candidate {
                        index: i,
                        width: spec.width,
                        height: spec.height,
                        rotated: false,
                        score,
                    },
                );
            }
            let ghost first: Seq<Move> = if fits(*spec, false, w, h) {
                seq![
                    Move {
                        kind: i as int,
                        rotated: false,
                        score: worth(item_specs@, items_counts@, w, h, i as int, false, favour),
                    },
                ]
            } else {
                seq![]
            };
            assert(moves_of(candidates@) =~= before + first);
            if spec.width != spec.height && spec.height <= width && spec.width <= height {
                let score: i64 = score_move(
                    width,
                    height,
                    spec.height,
                    spec.width,
                    items_counts[i],
                    item_specs,
                    items_counts,
                ) + bonus;
                candidates.push(
                    Candidate {
                        index: i,
                        width: spec.height,
                        height: spec.width,
                        rotated: true,
                        score,
                    },
                );
            }
            assert(moves_of(candidates@) =~= offers(
                item_specs@,
                items_counts@,
                w,
                h,
                favour,
                i + 1,
            ));
        }
        i = i + 1;
    }
    candidates
}

/// All moves with a `width` by `height` part, the most promising first.
pub fn rank_moves(
    item_specs: &[ElementType],
    items_counts: &[u32],
    width: u32,
    height: u32,
    favour: bool,
) -> (candidates: Vec<Candidate>)
    requires
        in_range(item_specs@, items_counts@, width as int, height as int),
    ensures
        moves_of(candidates@) == ranked(
            item_specs@,
            items_counts@,
            width as int,
            height as int,
            favour,
        ),
        all_sized(candidates@, item_specs@),
{
    let offered = collect_offers(item_specs, items_counts, width, height, favour);
    let ghost all = moves_of(offered@);
    let mut keys: Vec<i128> = Vec::new();
    let mut i: usize = 0;
    while i < offered.len()
        invariant
            i <= offered.len(),
            all == moves_of(offered@),
            key_values(keys@) == rank_keys(all).take(i as int),
        decreases offered.len() - i,
    {
        let ghost before = key_values(keys@);
        let key: i128 = -(offered[i].score as i128);
        keys.push(key);
        assert(all[i as int] == offered[i as int]@);
        assert(key_values(keys@) =~= before.push(key as int));
        assert(rank_keys(all).take(i + 1) =~= rank_keys(all).take(i as int).push(key as int));
        i = i + 1;
    }
    assert(rank_keys(all).take(i as int) =~= rank_keys(all));
    let order = sort_order(&keys);
    let ghost way = indices(order@);
    let mut candidates: Vec<Candidate> = Vec::new();
    let mut k: usize = 0;
    while k < order.len()
        invariant
            k <= order.len(),
            all == moves_of(offered@),
            way == indices(order@),
            sorts(way, rank_keys(all)),
            moves_of(candidates@) == taken(all, way).take(k as int),
            all_sized(offered@, item_specs@),
            all_sized(candidates@, item_specs@),
        decreases order.len() - k,
    {
        assert(way[k as int] == order[k as int]);
        let ghost before = moves_of(candidates@);
        candidates.push(offered[order[k]]);
        assert(moves_of(candidates@) =~= before.push(all[way[k as int]]));
        assert(taken(all, way).take(k + 1) =~= taken(all, way).take(k as int).push(
            all[way[k as int]],
        ));
        k = k + 1;
    }
    assert(taken(all, way).take(k as int) =~= taken(all, way));
    candidates
}

/// Whether the best of two or more moves of a node is put off.
fn decide_blink(seed: u64, width: u32, height: u32, depth: u32, pieces: u32) -> (r: bool)
    ensures
        r == (blink_number(seed, width as int, height as int, depth, pieces as nat) % 100
            < BLINK_PCT),
{
    let h: u64 = splitmix64(
        seed ^ (width as u64).wrapping_mul(0x9E3779B97F4A7C15) ^ (height as u64).wrapping_mul(
            0xC2B2AE3D27D4EB4F,
        ) ^ (depth as u64).wrapping_mul(0x165667B19E3779F9) ^ (pieces as u64),
    );
    h % 100 < BLINK_PCT
}

/// The moves to consider for a `width` by `height` part, in order.
pub fn line_up(
    item_specs: &[ElementType],
    items_counts: &[u32],
    width: u32,
    height: u32,
    depth: u32,
    blink_seed: u64,
) -> (candidates: Vec<Candidate>)
    requires
        in_range(item_specs@, items_counts@, width as int, height as int),
    ensures
        moves_of(candidates@) == lineup(
            item_specs@,
            items_counts@,
            width as int,
            height as int,
            depth,
            blink_seed,
        ),
        all_sized(candidates@, item_specs@),
{
    let mut candidates = rank_moves(item_specs, items_counts, width, height, true);
    let ghost moves = moves_of(candidates@);
    if blink_seed != 0 && candidates.len() >= 2 {
        let total_remaining: u32 = sum_counts(items_counts);
        if decide_blink(blink_seed, width, height, depth, total_remaining) {
            let first = candidates.remove(0);
            candidates.push(first);
            assert(moves_of(candidates@) =~= moves.skip(1).push(moves[0]));
        }
    }
    candidates
}

/// How many moves are followed at a depth.
pub fn beam_width_at(depth: u32, beam_width: usize) -> (r: usize)
    ensures
        r == beam_at(depth, beam_width as nat),
{
    if depth < 3 {
        beam_width
    } else if depth < 7 {
        let narrowed: usize = (beam_width as u128 * 3 / 4) as usize;
        if narrowed >= 8 {
            narrowed
        } else {
            8
        }
    } else if depth < 12 {
        5
    } else if depth < 18 {
        4
    } else {
        3
    }
}

} // verus!
