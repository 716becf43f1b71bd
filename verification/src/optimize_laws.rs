//! Which scheme is taken for a sheet.

use crate::candidates_laws::can_move;
use crate::exhaustive::{attempt, is_choice, lemma_attempt, Opening};
use crate::exhaustive_laws::{lemma_openings_exact, opens_earlier};
use crate::kinds::{largest_first, wanted};
use crate::layout::{lemma_accounted_within, lemma_guillotine_packing};
use crate::optimize::{first_level, first_openings, last_best, optimum, scheme_of};
use crate::pieces::ElementType;
use crate::search::Plan;
use vstd::prelude::*;

verus! {

/// A scheme that starts with a piece is the better one of the two that cut beside it, down and
/// across; if both are as good, it is the one that cuts across.
pub proof fn lemma_first_level_exact(
    specs: Seq<ElementType>,
    w: int,
    h: int,
    counts: Seq<u32>,
    o: Opening,
)
    ensures
        ({
            let found = first_level(specs, w, h, counts, o);
            let e = specs[o.kind];
            let down = attempt(
                specs,
                w,
                h,
                counts,
                Plan { kind: o.kind, rotated: o.rotated, vertical: true },
            );
            let across = attempt(
                specs,
                w,
                h,
                counts,
                Plan { kind: o.kind, rotated: o.rotated, vertical: false },
            );
            let goes = if o.rotated {
                e.height <= w && e.width <= h
            } else {
                e.width <= w && e.height <= h
            };
            &&& goes ==> found.area >= down.area && found.area >= across.area
            &&& goes && found.area == across.area ==> found == scheme_of(across)
            &&& goes && found.area != across.area ==> found == scheme_of(down)
            &&& !goes ==> found.area == 0 && found.tiles.len() == 0
        }),
{
}

/// A scheme covers no less than nothing.
proof fn lemma_first_level_area(
    specs: Seq<ElementType>,
    w: int,
    h: int,
    counts: Seq<u32>,
    o: Opening,
)
    requires
        0 <= w,
        0 <= h,
        specs.len() <= counts.len(),
        can_move(specs, counts, w, h, o.kind, o.rotated),
    ensures
        first_level(specs, w, h, counts, o).area >= 0,
{
    let v = Plan { kind: o.kind, rotated: o.rotated, vertical: true };
    let u = Plan { kind: o.kind, rotated: o.rotated, vertical: false };
    assert(is_choice(specs, w, h, counts, v) && is_choice(specs, w, h, counts, u));
    lemma_attempt(specs, w, h, counts, v);
    lemma_attempt(specs, w, h, counts, u);
    let one = attempt(specs, w, h, counts, v);
    let two = attempt(specs, w, h, counts, u);
    lemma_accounted_within(specs, w, h, counts, one);
    lemma_accounted_within(specs, w, h, counts, two);
    lemma_guillotine_packing(specs, w, h, one);
    lemma_guillotine_packing(specs, w, h, two);
}

/// The best of some schemes is the last one of those that cover the most.
proof fn lemma_last_best_exact(
    specs: Seq<ElementType>,
    w: int,
    h: int,
    counts: Seq<u32>,
    list: Seq<Opening>,
    n: int,
)
    requires
        0 <= w,
        0 <= h,
        specs.len() <= counts.len(),
        0 <= n <= list.len(),
        forall|k: int|
            0 <= k < list.len() ==> can_move(
                specs,
                counts,
                w,
                h,
                (#[trigger] list[k]).kind,
                list[k].rotated,
            ),
    ensures
        ({
            let best = last_best(specs, w, h, counts, list, n);
            &&& n == 0 ==> best.area == 0 && best.tiles.len() == 0
            &&& n > 0 ==> exists|k: int|
                {
                    &&& 0 <= k < n
                    &&& best == first_level(specs, w, h, counts, #[trigger] list[k])
                    &&& forall|j: int|
                        0 <= j < n ==> first_level(specs, w, h, counts, #[trigger] list[j]).area
                            <= best.area
                    &&& forall|j: int|
                        k < j < n ==> first_level(specs, w, h, counts, #[trigger] list[j]).area
                            < best.area
                }
        }),
    decreases n,
{
    if n > 0 {
        lemma_last_best_exact(specs, w, h, counts, list, n - 1);
        let before = last_best(specs, w, h, counts, list, n - 1);
        let found = first_level(specs, w, h, counts, list[n - 1]);
        lemma_first_level_area(specs, w, h, counts, list[n - 1]);
        if found.area >= before.area {
            assert(last_best(specs, w, h, counts, list, n) == first_level(
                specs,
                w,
                h,
                counts,
                list[n - 1],
            ));
        } else {
            let k = choose|k: int|
                {
                    &&& 0 <= k < n - 1
                    &&& before == first_level(specs, w, h, counts, #[trigger] list[k])
                    &&& forall|j: int|
                        0 <= j < n - 1 ==> first_level(specs, w, h, counts, #[trigger] list[j]).area
                            <= before.area
                    &&& forall|j: int|
                        k < j < n - 1 ==> first_level(specs, w, h, counts, #[trigger] list[j]).area
                            < before.area
                };
            assert(before == first_level(specs, w, h, counts, list[k]));
        }
    }
}

/// The scheme for a sheet starts with a piece that fits, taken from the kinds with the largest
/// first. No scheme that starts with another piece covers more, and every one that starts with a
/// later piece covers less.
pub proof fn lemma_optimum_last(elements: Seq<ElementType>, w: int, h: int) -> (o: Opening)
    requires
        0 <= w,
        0 <= h,
        first_openings(elements, w, h).len() > 0,
    ensures
        ({
            let specs = largest_first(elements);
            let counts = wanted(specs);
            let found = optimum(elements, w, h);
            &&& can_move(specs, counts, w, h, o.kind, o.rotated)
            &&& found == first_level(specs, w, h, counts, o)
            &&& forall|p: Opening|
                can_move(specs, counts, w, h, p.kind, p.rotated) ==> (#[trigger] first_level(
                    specs,
                    w,
                    h,
                    counts,
                    p,
                )).area <= found.area
            &&& forall|p: Opening|
                can_move(specs, counts, w, h, p.kind, p.rotated) && opens_earlier(o, p) ==> (
                #[trigger] first_level(specs, w, h, counts, p)).area < found.area
        }),
{
    let specs = largest_first(elements);
    let counts = wanted(specs);
    let n = specs.len() as int;
    let list = first_openings(elements, w, h);
    let found = optimum(elements, w, h);
    lemma_openings_exact(specs, counts, w, h, n);
    lemma_last_best_exact(specs, w, h, counts, list, list.len() as int);
    let k = choose|k: int|
        {
            &&& 0 <= k < list.len()
            &&& found == first_level(specs, w, h, counts, #[trigger] list[k])
            &&& forall|j: int|
                0 <= j < list.len() ==> first_level(specs, w, h, counts, #[trigger] list[j]).area
                    <= found.area
            &&& forall|j: int|
                k < j < list.len() ==> first_level(specs, w, h, counts, #[trigger] list[j]).area
                    < found.area
        };
    let o = list[k];
    assert forall|p: Opening| can_move(specs, counts, w, h, p.kind, p.rotated) implies (
    #[trigger] first_level(specs, w, h, counts, p)).area <= found.area && (opens_earlier(o, p)
        ==> first_level(specs, w, h, counts, p).area < found.area) by {
        assert(list.contains(Opening { kind: p.kind, rotated: p.rotated }));
        let j = choose|j: int|
            0 <= j < list.len() && list[j] == (Opening { kind: p.kind, rotated: p.rotated });
        assert(list[j] == p);
        if j < k {
            assert(opens_earlier(list[j], list[k]));
        }
    }
    o
}

/// A sheet has an opening exactly if a piece is wanted that fits, turned or not.
pub proof fn lemma_first_openings(elements: Seq<ElementType>, w: int, h: int)
    ensures
        first_openings(elements, w, h).len() > 0 <==> exists|i: int|
            {
                &&& 0 <= i < largest_first(elements).len()
                &&& (#[trigger] largest_first(elements)[i]).count > 0
                &&& {
                    let e = largest_first(elements)[i];
                    (e.width <= w && e.height <= h) || (e.height <= w && e.width <= h)
                }
            },
{
    let specs = largest_first(elements);
    let counts = wanted(specs);
    let list = first_openings(elements, w, h);
    lemma_openings_exact(specs, counts, w, h, specs.len() as int);
    if list.len() > 0 {
        assert(can_move(specs, counts, w, h, list[0].kind, list[0].rotated));
        assert(specs[list[0].kind].count > 0);
    }
    if exists|i: int|
        {
            &&& 0 <= i < specs.len()
            &&& (#[trigger] specs[i]).count > 0
            &&& (specs[i].width <= w && specs[i].height <= h) || (specs[i].height <= w
                && specs[i].width <= h)
        } {
        let i = choose|i: int|
            {
                &&& 0 <= i < specs.len()
                &&& (#[trigger] specs[i]).count > 0
                &&& (specs[i].width <= w && specs[i].height <= h) || (specs[i].height <= w
                    && specs[i].width <= h)
            };
        let e = specs[i];
        if e.width <= w && e.height <= h {
            assert(can_move(specs, counts, w, h, i, false));
        } else {
            assert(can_move(specs, counts, w, h, i, true));
        }
    }
}

} // verus!
