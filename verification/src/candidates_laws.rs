//! Which moves are considered, and in which order.

use crate::candidates::{
    blink_number, in_range, lineup, move_in_range, offers, piece_in_range, rank_keys, ranked,
    worth, Move,
};
use crate::order::{comes_before, lemma_order_exists, stable_order};
use crate::pieces::{total, ElementType};
use crate::score::{score, strips};
use vstd::prelude::*;

verus! {

/// A move with a piece of the kind can be made on a `w` by `h` part: there is such a piece, and it
/// fits as it lies. A square is not turned.
pub open spec fn can_move(
    specs: Seq<ElementType>,
    counts: Seq<u32>,
    w: int,
    h: int,
    kind: int,
    rotated: bool,
) -> bool {
    &&& 0 <= kind < specs.len()
    &&& counts[kind] > 0
    &&& if rotated {
        specs[kind].height <= w && specs[kind].width <= h && specs[kind].width
            != specs[kind].height
    } else {
        specs[kind].width <= w && specs[kind].height <= h
    }
}

/// Of two moves the first has the earlier kind, or the same kind and is not turned while the
/// other one is.
pub open spec fn is_earlier(a: Move, b: Move) -> bool {
    a.kind < b.kind || (a.kind == b.kind && !a.rotated && b.rotated)
}

/// Every move that can be made is on offer once, and no other, kind by kind.
proof fn lemma_offers_exact(
    specs: Seq<ElementType>,
    counts: Seq<u32>,
    w: int,
    h: int,
    favour: bool,
    n: int,
)
    requires
        0 <= n <= specs.len(),
    ensures
        forall|k: int|
            0 <= k < offers(specs, counts, w, h, favour, n).len() ==> {
                let m = #[trigger] offers(specs, counts, w, h, favour, n)[k];
                &&& m.kind < n
                &&& can_move(specs, counts, w, h, m.kind, m.rotated)
                &&& m.score == worth(specs, counts, w, h, m.kind, m.rotated, favour)
            },
        forall|kind: int, rotated: bool|
            kind < n && #[trigger] can_move(specs, counts, w, h, kind, rotated) ==> offers(
                specs,
                counts,
                w,
                h,
                favour,
                n,
            ).contains(
                (Move {
                    kind,
                    rotated,
                    score: worth(specs, counts, w, h, kind, rotated, favour),
                }),
            ),
        forall|a: int, b: int|
            0 <= a < b < offers(specs, counts, w, h, favour, n).len() ==> is_earlier(
                #[trigger] offers(specs, counts, w, h, favour, n)[a],
                #[trigger] offers(specs, counts, w, h, favour, n)[b],
            ),
    decreases n,
{
    if n > 0 {
        lemma_offers_exact(specs, counts, w, h, favour, n - 1);
        let before = offers(specs, counts, w, h, favour, n - 1);
        let s = offers(specs, counts, w, h, favour, n);
        assert forall|k: int| 0 <= k < s.len() implies {
            let m = #[trigger] s[k];
            &&& m.kind < n
            &&& can_move(specs, counts, w, h, m.kind, m.rotated)
            &&& m.score == worth(specs, counts, w, h, m.kind, m.rotated, favour)
        } by {
            if k < before.len() {
                assert(s[k] == before[k]);
            }
        }
        assert forall|kind: int, rotated: bool|
            kind < n && #[trigger] can_move(specs, counts, w, h, kind, rotated) implies s.contains(
            (Move { kind, rotated, score: worth(specs, counts, w, h, kind, rotated, favour) }),
        ) by {
            let m = Move {
                kind,
                rotated,
                score: worth(specs, counts, w, h, kind, rotated, favour),
            };
            if kind < n - 1 {
                let k = choose|k: int| 0 <= k < before.len() && before[k] == m;
                assert(s[k] == m);
            } else if rotated {
                assert(s[s.len() - 1] == m);
            } else {
                assert(s[before.len() as int] == m);
            }
        }
        assert forall|a: int, b: int| 0 <= a < b < s.len() implies is_earlier(
            #[trigger] s[a],
            #[trigger] s[b],
        ) by {
            if a < before.len() {
                assert(s[a] == before[a]);
            }
            if b < before.len() {
                assert(s[b] == before[b]);
            }
        }
    }
}

/// Every move that can be made is ranked, and no other, each once. A move with a higher score
/// comes first; of moves with the same score the one with the earlier kind does, and of those the
/// one that is not turned.
pub proof fn lemma_ranked_exact(
    specs: Seq<ElementType>,
    counts: Seq<u32>,
    w: int,
    h: int,
    favour: bool,
)
    ensures
        forall|k: int|
            0 <= k < ranked(specs, counts, w, h, favour).len() ==> {
                let m = #[trigger] ranked(specs, counts, w, h, favour)[k];
                &&& can_move(specs, counts, w, h, m.kind, m.rotated)
                &&& m.score == worth(specs, counts, w, h, m.kind, m.rotated, favour)
            },
        forall|kind: int, rotated: bool|
            #[trigger] can_move(specs, counts, w, h, kind, rotated) ==> ranked(
                specs,
                counts,
                w,
                h,
                favour,
            ).contains(
                (Move {
                    kind,
                    rotated,
                    score: worth(specs, counts, w, h, kind, rotated, favour),
                }),
            ),
        forall|a: int, b: int|
            0 <= a < b < ranked(specs, counts, w, h, favour).len() ==> {
                let m = #[trigger] ranked(specs, counts, w, h, favour)[a];
                let o = #[trigger] ranked(specs, counts, w, h, favour)[b];
                m.score > o.score || (m.score == o.score && is_earlier(m, o))
            },
{
    let n = specs.len() as int;
    let all = offers(specs, counts, w, h, favour, n);
    let keys = rank_keys(all);
    let order = stable_order(keys);
    lemma_order_exists(keys);
    lemma_offers_exact(specs, counts, w, h, favour, n);
    let s = ranked(specs, counts, w, h, favour);
    assert forall|k: int| 0 <= k < s.len() implies {
        let m = #[trigger] s[k];
        &&& can_move(specs, counts, w, h, m.kind, m.rotated)
        &&& m.score == worth(specs, counts, w, h, m.kind, m.rotated, favour)
    } by {
        assert(s[k] == all[order[k]]);
    }
    assert forall|kind: int, rotated: bool| #[trigger]
        can_move(specs, counts, w, h, kind, rotated) implies s.contains(
        (Move { kind, rotated, score: worth(specs, counts, w, h, kind, rotated, favour) }),
    ) by {
        let m = Move { kind, rotated, score: worth(specs, counts, w, h, kind, rotated, favour) };
        let k = choose|k: int| 0 <= k < all.len() && all[k] == m;
        assert(order.contains(k));
        let a = choose|a: int| 0 <= a < order.len() && order[a] == k;
        assert(s[a] == m);
    }
    assert forall|a: int, b: int| 0 <= a < b < s.len() implies {
        let m = #[trigger] s[a];
        let o = #[trigger] s[b];
        m.score > o.score || (m.score == o.score && is_earlier(m, o))
    } by {
        assert(comes_before(keys, order[a], order[b]));
        assert(s[a] == all[order[a]] && s[b] == all[order[b]]);
        assert(keys[order[a]] == -s[a].score && keys[order[b]] == -s[b].score);
        if s[a].score == s[b].score {
            assert(is_earlier(all[order[a]], all[order[b]]));
        }
    }
}

/// A move is worth its score. Small pieces are worth more when at most five pieces are left, if
/// that is asked for.
pub proof fn lemma_worth(
    specs: Seq<ElementType>,
    counts: Seq<u32>,
    w: int,
    h: int,
    kind: int,
    rotated: bool,
)
    ensures
        ({
            let e = specs[kind];
            let plain = worth(specs, counts, w, h, kind, rotated, false);
            let favoured = worth(specs, counts, w, h, kind, rotated, true);
            &&& !rotated ==> plain == score(
                w,
                h,
                e.width as int,
                e.height as int,
                counts[kind] as int,
                specs,
                counts,
            )
            &&& rotated ==> plain == score(
                w,
                h,
                e.height as int,
                e.width as int,
                counts[kind] as int,
                specs,
                counts,
            )
            &&& total(counts) <= 5 && e.width * e.height < 4000 ==> favoured == plain + 50_000_000
            &&& total(counts) > 5 || e.width * e.height >= 4000 ==> favoured == plain
        }),
{
}

/// The moves are considered as they are ranked, but with a seed and two moves or more the best one
/// is put off to the end in fifteen of a hundred cases, as a number decides that depends on the
/// seed, the part, the depth and the pieces.
pub proof fn lemma_lineup_exact(
    specs: Seq<ElementType>,
    counts: Seq<u32>,
    w: int,
    h: int,
    depth: u32,
    seed: u64,
)
    ensures
        ({
            let moves = ranked(specs, counts, w, h, true);
            let put_off = seed != 0 && moves.len() >= 2 && blink_number(
                seed,
                w,
                h,
                depth,
                total(counts),
            ) % 100 <= 14;
            &&& !put_off ==> lineup(specs, counts, w, h, depth, seed) == moves
            &&& put_off ==> {
                let line = lineup(specs, counts, w, h, depth, seed);
                &&& line.len() == moves.len()
                &&& line.last() == moves[0]
                &&& forall|k: int| 0 <= k < moves.len() - 1 ==> #[trigger] line[k] == moves[k + 1]
            }
        }),
{
}

/// Ordinary numbers are in range: sheets with sides of up to two thousand million units and pieces
/// with sides of up to half a million. So is every piece that does not fit on the sheet.
pub proof fn lemma_ordinary_in_range(
    specs: Seq<ElementType>,
    stock: Seq<u32>,
    w: int,
    h: int,
)
    requires
        specs.len() <= stock.len(),
        total(stock) <= u32::MAX,
        0 <= w <= 2_000_000_000,
        0 <= h <= 2_000_000_000,
        forall|i: int|
            0 <= i < specs.len() && stock[i] > 0 ==> {
                let e = #[trigger] specs[i];
                ||| e.width <= 500_000 && e.height <= 500_000
                ||| (e.width > w || e.height > h) && (e.height > w || e.width > h)
            },
    ensures
        in_range(specs, stock, w, h),
{
    assert forall|i: int| 0 <= i < specs.len() && stock[i] > 0 implies piece_in_range(
        #[trigger] specs[i],
        w,
        h,
    ) by {
        let e = specs[i];
        lemma_ordinary_piece(e, false, w, h);
        lemma_ordinary_piece(e, true, w, h);
    }
}

proof fn lemma_ordinary_piece(e: ElementType, rotated: bool, w: int, h: int)
    requires
        0 <= w <= 2_000_000_000,
        0 <= h <= 2_000_000_000,
        (e.width <= 500_000 && e.height <= 500_000) || ((e.width > w || e.height > h) && (e.height
            > w || e.width > h)),
    ensures
        move_in_range(e, rotated, w, h),
{
    let s = strips(w, h, e.wide(rotated), e.high(rotated));
    if e.wide(rotated) <= w && e.high(rotated) <= h {
        assert(s.rw * s.h + s.w * s.rh <= 8_000_000_000_000_000_000) by (nonlinear_arith)
            requires
                0 <= s.rw <= 2_000_000_000,
                0 <= s.h <= 2_000_000_000,
                0 <= s.w <= 2_000_000_000,
                0 <= s.rh <= 2_000_000_000,
        ;
        assert(e.width * e.height <= 250_000_000_000) by (nonlinear_arith)
            requires
                0 <= e.width <= 500_000,
                0 <= e.height <= 500_000,
        ;
    }
}

} // verus!
