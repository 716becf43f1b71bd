//! The search that tries every piece in the corner of every part of the sheet.

use crate::candidates::fits;
use crate::exhaustive_memo::{MemoCache, MemoKey, Part, Solution};
use crate::layout::{
    accounted, blank, first_part, join_items, joined, lemma_accounted_area,
    lemma_accounted_joined, lemma_accounted_within, lemma_blank, lemma_guillotine_packing,
    second_part, stock_area, Layout,
};
use crate::pieces::{
    lemma_less_one, lemma_total_within, lemma_total_zero, less_one, total, ElementType,
    PlacedItem,
};
use crate::search::{lemma_inside_grows, Plan};
use vstd::prelude::*;
use vstd::slice::slice_to_vec;

verus! {

/// A piece that can go into the corner of a part of the sheet.
pub struct Opening {
    pub kind: int,
    pub rotated: bool,
}

/// The pieces of the first `n` kinds that can go into the corner of a `w` by `h` part: each that
/// is left, as it is where it fits, then turned where it fits and is no square.
pub open spec fn openings(
    specs: Seq<ElementType>,
    counts: Seq<u32>,
    w: int,
    h: int,
    n: int,
) -> Seq<Opening>
    decreases n,
{
    if n <= 0 {
        seq![]
    } else {
        let k = n - 1;
        let before = openings(specs, counts, w, h, k);
        let spec = specs[k];
        if counts[k] == 0 {
            before
        } else {
            before + (if fits(spec, false, w, h) {
                seq![Opening { kind: k, rotated: false }]
            } else {
                seq![]
            }) + (if spec.width != spec.height && fits(spec, true, w, h) {
                seq![Opening { kind: k, rotated: true }]
            } else {
                seq![]
            })
        }
    }
}

/// Each opening with a vertical cut beside the piece, then with a horizontal one.
pub open spec fn choices(list: Seq<Opening>) -> Seq<Plan> {
    Seq::new(
        2 * list.len(),
        |k: int|
            Plan { kind: list[k / 2].kind, rotated: list[k / 2].rotated, vertical: k % 2 == 0 },
    )
}

/// The layout that the search finds for a `w` by `h` part with the given pieces.
pub open spec fn best_cut(specs: Seq<ElementType>, w: int, h: int, counts: Seq<u32>) -> Layout
    decreases total(counts), 2int, 0int,
{
    if total(counts) == 0 || w == 0 || h == 0 {
        blank(counts)
    } else {
        let plans = choices(openings(specs, counts, w, h, specs.len() as int));
        best_of(specs, w, h, counts, plans, plans.len() as int)
    }
}

/// The best of the layouts that the first `n` plans yield. The first of equally good ones
/// counts, and one that covers nothing does not count.
pub open spec fn best_of(
    specs: Seq<ElementType>,
    w: int,
    h: int,
    counts: Seq<u32>,
    plans: Seq<Plan>,
    n: int,
) -> Layout
    decreases total(counts), 1int, n,
{
    if n <= 0 {
        blank(counts)
    } else {
        let before = best_of(specs, w, h, counts, plans, n - 1);
        let found = attempt(specs, w, h, counts, plans[n - 1]);
        if found.area > before.area {
            found
        } else {
            before
        }
    }
}

/// What a plan yields: the first part is filled, then the second with the pieces that this
/// leaves, and the two layouts are joined with the piece in the corner.
pub open spec fn attempt(
    specs: Seq<ElementType>,
    w: int,
    h: int,
    counts: Seq<u32>,
    plan: Plan,
) -> Layout
    decreases total(counts), 0int, 0int,
{
    let piece = specs[plan.kind].tile(0, 0, plan.rotated);
    let a = first_part(w, h, piece.w, piece.h, plan.vertical);
    let b = second_part(w, h, piece.w, piece.h, plan.vertical);
    let rest = less_one(counts, plan.kind);
    if total(rest) >= total(counts) {
        blank(counts)
    } else {
        let first = best_cut(specs, a.w, a.h, rest);
        if total(first.remaining) >= total(counts) {
            blank(counts)
        } else {
            joined(piece, plan.vertical, first, best_cut(specs, b.w, b.h, first.remaining))
        }
    }
}

/// A plan that can be carried out on a `w` by `h` part with the given pieces.
pub open spec fn is_choice(
    specs: Seq<ElementType>,
    w: int,
    h: int,
    counts: Seq<u32>,
    plan: Plan,
) -> bool {
    &&& 0 <= plan.kind < specs.len()
    &&& specs.len() <= counts.len()
    &&& counts[plan.kind] > 0
    &&& fits(specs[plan.kind], plan.rotated, w, h)
}

/// Whatever the search can do with the pieces on a `w` by `h` part, the area that it counts is
/// a number that a `u32` can hold.
pub open spec fn areas_fit(specs: Seq<ElementType>, w: int, h: int, counts: Seq<u32>) -> bool {
    forall|layout: Layout| #[trigger]
        accounted(specs, w, h, counts, layout) ==> layout.area <= u32::MAX
}

/// All that is remembered is what the search finds.
pub open spec fn is_true_memo(specs: Seq<ElementType>, memo: Map<Part, Layout>) -> bool {
    forall|p: Part| #[trigger]
        memo.contains_key(p) ==> memo[p] == best_cut(specs, p.w, p.h, p.counts)
}

/// All that was remembered still is.
pub open spec fn keeps(before: Map<Part, Layout>, after: Map<Part, Layout>) -> bool {
    forall|p: Part| #[trigger]
        before.contains_key(p) ==> after.contains_key(p) && after[p] == before[p]
}

/// A part that is known can be searched, and one without room or pieces. Otherwise there has to
/// be a count for each kind, and the areas have to be numbers that a `u32` can hold.
pub open spec fn can_solve(
    specs: Seq<ElementType>,
    part: Part,
    memo: Map<Part, Layout>,
) -> bool {
    ||| memo.contains_key(part)
    ||| total(part.counts) == 0 || part.w == 0 || part.h == 0
    ||| specs.len() <= part.counts.len() && (part.w * part.h <= u32::MAX || areas_fit(
        specs,
        part.w,
        part.h,
        part.counts,
    ))
}

/// What a search of a part does: it finds the layout, and adds to what is remembered only what
/// searches find, this layout among it. Where the part is known, it adds nothing.
pub open spec fn is_solved(
    specs: Seq<ElementType>,
    part: Part,
    before: Map<Part, Layout>,
    found: Layout,
    after: Map<Part, Layout>,
) -> bool {
    &&& found == best_cut(specs, part.w, part.h, part.counts)
    &&& is_true_memo(specs, after)
    &&& keeps(before, after)
    &&& after.contains_key(part)
    &&& before.contains_key(part) ==> after == before
}

/// What earlier searches have remembered does not change what a search finds. The search adds
/// what it finds and keeps all that was remembered, and searching the part once more finds the
/// same and changes nothing.
pub proof fn lemma_memo_transparent(
    specs: Seq<ElementType>,
    part: Part,
    before: Map<Part, Layout>,
    found: Layout,
    after: Map<Part, Layout>,
    again: Layout,
    last: Map<Part, Layout>,
    alone: Layout,
    own: Map<Part, Layout>,
)
    requires
        is_solved(specs, part, before, found, after),
        is_solved(specs, part, after, again, last),
        is_solved(specs, part, Map::empty(), alone, own),
    ensures
        is_true_memo(specs, Map::empty()),
        is_true_memo(specs, after),
        found == alone,
        after[part] == found,
        keeps(before, after),
        again == found,
        last == after,
{
}

/// The openings can be taken, and every piece that fits has one.
pub proof fn lemma_openings(
    specs: Seq<ElementType>,
    counts: Seq<u32>,
    w: int,
    h: int,
    n: int,
)
    requires
        0 <= n <= specs.len(),
    ensures
        forall|k: int|
            0 <= k < openings(specs, counts, w, h, n).len() ==> {
                let o = #[trigger] openings(specs, counts, w, h, n)[k];
                &&& 0 <= o.kind < n
                &&& counts[o.kind] > 0
                &&& fits(specs[o.kind], o.rotated, w, h)
            },
        forall|kind: int, rotated: bool|
            0 <= kind < n && counts[kind] > 0 && #[trigger] fits(specs[kind], rotated, w, h)
                ==> exists|k: int|
                0 <= k < openings(specs, counts, w, h, n).len() && (#[trigger] openings(
                    specs,
                    counts,
                    w,
                    h,
                    n,
                )[k]).kind == kind && (openings(specs, counts, w, h, n)[k].rotated == rotated
                    || specs[kind].width == specs[kind].height),
    decreases n,
{
    if n > 0 {
        let k = n - 1;
        lemma_openings(specs, counts, w, h, k);
        let before = openings(specs, counts, w, h, k);
        let all = openings(specs, counts, w, h, n);
        let spec = specs[k];
        let straight = if fits(spec, false, w, h) {
            seq![Opening { kind: k, rotated: false }]
        } else {
            seq![]
        };
        let turned = if spec.width != spec.height && fits(spec, true, w, h) {
            seq![Opening { kind: k, rotated: true }]
        } else {
            seq![]
        };
        if counts[k] > 0 {
            assert(all == before + straight + turned);
        }
        assert forall|i: int| 0 <= i < all.len() implies ({
            let o = #[trigger] all[i];
            &&& 0 <= o.kind < n
            &&& counts[o.kind] > 0
            &&& fits(specs[o.kind], o.rotated, w, h)
        }) by {
            if i < before.len() {
                assert(all[i] == before[i]);
            } else if i < before.len() + straight.len() {
                assert(all[i] == straight[i - before.len()]);
            } else {
                assert(all[i] == turned[i - before.len() - straight.len()]);
            }
        }
        assert forall|kind: int, rotated: bool|
            0 <= kind < n && counts[kind] > 0 && #[trigger] fits(
                specs[kind],
                rotated,
                w,
                h,
            ) implies exists|i: int|
            0 <= i < all.len() && (#[trigger] all[i]).kind == kind && (all[i].rotated == rotated
                || specs[kind].width == specs[kind].height) by {
            if kind < k {
                let i = choose|i: int|
                    0 <= i < before.len() && (#[trigger] before[i]).kind == kind && (
                    before[i].rotated == rotated || specs[kind].width == specs[kind].height);
                assert(all[i] == before[i]);
            } else if !rotated || spec.width == spec.height {
                assert(fits(spec, false, w, h));
                assert(all[before.len() as int] == straight[0]);
            } else {
                assert(all[(before.len() + straight.len()) as int] == turned[0]);
            }
        }
    }
}

/// The plans of a node can be carried out.
pub proof fn lemma_choices(specs: Seq<ElementType>, counts: Seq<u32>, w: int, h: int)
    requires
        specs.len() <= counts.len(),
    ensures
        ({
            let plans = choices(openings(specs, counts, w, h, specs.len() as int));
            forall|k: int|
                0 <= k < plans.len() ==> is_choice(specs, w, h, counts, #[trigger] plans[k])
        }),
{
    let list = openings(specs, counts, w, h, specs.len() as int);
    lemma_openings(specs, counts, w, h, specs.len() as int);
    let plans = choices(list);
    assert forall|k: int| 0 <= k < plans.len() implies is_choice(
        specs,
        w,
        h,
        counts,
        #[trigger] plans[k],
    ) by {
        assert(0 <= k / 2 < list.len());
        assert(0 <= list[k / 2].kind < specs.len());
    }
}

/// The layout that the search finds can be cut with cuts from edge to edge, and accounts for
/// every piece.
pub proof fn lemma_best_cut(specs: Seq<ElementType>, w: int, h: int, counts: Seq<u32>)
    requires
        specs.len() <= counts.len(),
    ensures
        accounted(specs, w, h, counts, best_cut(specs, w, h, counts)),
    decreases total(counts), 2int, 0int,
{
    if total(counts) == 0 || w == 0 || h == 0 {
        lemma_blank(specs, w, h, counts);
    } else {
        let plans = choices(openings(specs, counts, w, h, specs.len() as int));
        lemma_choices(specs, counts, w, h);
        lemma_best_of(specs, w, h, counts, plans, plans.len() as int);
    }
}

proof fn lemma_best_of(
    specs: Seq<ElementType>,
    w: int,
    h: int,
    counts: Seq<u32>,
    plans: Seq<Plan>,
    n: int,
)
    requires
        specs.len() <= counts.len(),
        n <= plans.len(),
        forall|k: int| 0 <= k < plans.len() ==> is_choice(specs, w, h, counts, #[trigger] plans[k]),
    ensures
        accounted(specs, w, h, counts, best_of(specs, w, h, counts, plans, n)),
    decreases total(counts), 1int, n,
{
    if n <= 0 {
        lemma_blank(specs, w, h, counts);
    } else {
        lemma_best_of(specs, w, h, counts, plans, n - 1);
        lemma_attempt(specs, w, h, counts, plans[n - 1]);
    }
}

/// What a plan yields can be cut with cuts from edge to edge, and accounts for every piece. It
/// is the piece in the corner together with what the search finds for the two parts.
pub proof fn lemma_attempt(
    specs: Seq<ElementType>,
    w: int,
    h: int,
    counts: Seq<u32>,
    plan: Plan,
)
    requires
        is_choice(specs, w, h, counts, plan),
    ensures
        accounted(specs, w, h, counts, attempt(specs, w, h, counts, plan)),
        ({
            let piece = specs[plan.kind].tile(0, 0, plan.rotated);
            let a = first_part(w, h, piece.w, piece.h, plan.vertical);
            let b = second_part(w, h, piece.w, piece.h, plan.vertical);
            let rest = less_one(counts, plan.kind);
            let first = best_cut(specs, a.w, a.h, rest);
            let second = best_cut(specs, b.w, b.h, first.remaining);
            &&& attempt(specs, w, h, counts, plan) == joined(piece, plan.vertical, first, second)
            &&& accounted(specs, a.w, a.h, rest, first)
            &&& accounted(specs, b.w, b.h, first.remaining, second)
            &&& total(rest) < total(counts)
            &&& total(first.remaining) < total(counts)
            &&& first.remaining.len() == counts.len()
        }),
    decreases total(counts), 0int, 0int,
{
    let piece = specs[plan.kind].tile(0, 0, plan.rotated);
    let a = first_part(w, h, piece.w, piece.h, plan.vertical);
    let b = second_part(w, h, piece.w, piece.h, plan.vertical);
    let rest = less_one(counts, plan.kind);
    lemma_less_one(counts, plan.kind);
    let first = best_cut(specs, a.w, a.h, rest);
    lemma_best_cut(specs, a.w, a.h, rest);
    lemma_accounted_within(specs, a.w, a.h, rest, first);
    lemma_total_within(first.remaining, rest);
    let second = best_cut(specs, b.w, b.h, first.remaining);
    lemma_best_cut(specs, b.w, b.h, first.remaining);
    lemma_accounted_joined(
        specs,
        w,
        h,
        counts,
        plan.kind,
        plan.rotated,
        plan.vertical,
        first,
        second,
    );
}

/// The best of the first `n` plans is no worse than any of them.
proof fn lemma_best_of_max(
    specs: Seq<ElementType>,
    w: int,
    h: int,
    counts: Seq<u32>,
    plans: Seq<Plan>,
    n: int,
)
    ensures
        best_of(specs, w, h, counts, plans, n).area >= 0,
        forall|k: int|
            0 <= k < n ==> best_of(specs, w, h, counts, plans, n).area >= attempt(
                specs,
                w,
                h,
                counts,
                #[trigger] plans[k],
            ).area,
        best_of(specs, w, h, counts, plans, n).area == 0 || exists|k: int|
            0 <= k < n && best_of(specs, w, h, counts, plans, n) == attempt(
                specs,
                w,
                h,
                counts,
                #[trigger] plans[k],
            ),
    decreases n,
{
    if n > 0 {
        lemma_best_of_max(specs, w, h, counts, plans, n - 1);
    }
}

/// The area that a plan covers: the piece in the corner, what the search finds for the first
/// part, and what it finds for the second one with the pieces that this leaves.
pub open spec fn choice_area(
    specs: Seq<ElementType>,
    w: int,
    h: int,
    counts: Seq<u32>,
    plan: Plan,
) -> int {
    let piece = specs[plan.kind].tile(0, 0, plan.rotated);
    let a = first_part(w, h, piece.w, piece.h, plan.vertical);
    let b = second_part(w, h, piece.w, piece.h, plan.vertical);
    let first = best_cut(specs, a.w, a.h, less_one(counts, plan.kind));
    let second = best_cut(specs, b.w, b.h, first.remaining);
    piece.w * piece.h + first.area + second.area
}

/// No plan with a piece in the corner covers more than what the search finds.
pub proof fn lemma_best_cut_max(
    specs: Seq<ElementType>,
    w: int,
    h: int,
    counts: Seq<u32>,
    plan: Plan,
)
    requires
        is_choice(specs, w, h, counts, plan),
        0 <= w,
        0 <= h,
    ensures
        best_cut(specs, w, h, counts).area >= attempt(specs, w, h, counts, plan).area,
        best_cut(specs, w, h, counts).area >= choice_area(specs, w, h, counts, plan),
        best_cut(specs, w, h, counts).area >= specs[plan.kind].area(),
{
    lemma_less_one(counts, plan.kind);
    lemma_attempt(specs, w, h, counts, plan);
    lemma_attempt_area(specs, w, h, counts, plan);
    if w == 0 || h == 0 {
        lemma_accounted_within(specs, w, h, counts, attempt(specs, w, h, counts, plan));
        lemma_guillotine_packing(specs, w, h, attempt(specs, w, h, counts, plan));
        assert(w * h == 0) by (nonlinear_arith)
            requires
                w == 0 || h == 0,
        ;
    } else {
        let list = openings(specs, counts, w, h, specs.len() as int);
        let plans = choices(list);
        lemma_openings(specs, counts, w, h, specs.len() as int);
        lemma_choices(specs, counts, w, h);
        lemma_best_of_max(specs, w, h, counts, plans, plans.len() as int);
        let spec = specs[plan.kind];
        assert(fits(specs[plan.kind], plan.rotated, w, h));
        let i = choose|i: int|
            0 <= i < list.len() && (#[trigger] list[i]).kind == plan.kind && (list[i].rotated
                == plan.rotated || spec.width == spec.height);
        let k = if plan.vertical {
            2 * i
        } else {
            2 * i + 1
        };
        assert(k / 2 == i);
        assert(plans[k].kind == plan.kind && plans[k].vertical == plan.vertical);
        assert(is_choice(specs, w, h, counts, plans[k]));
        lemma_attempt(specs, w, h, counts, plans[k]);
    }
}

/// What the search finds, if it covers anything, is what some plan with a piece in the corner
/// yields.
pub proof fn lemma_best_cut_attained(
    specs: Seq<ElementType>,
    w: int,
    h: int,
    counts: Seq<u32>,
) -> (plan: Plan)
    requires
        specs.len() <= counts.len(),
        best_cut(specs, w, h, counts).area > 0,
    ensures
        is_choice(specs, w, h, counts, plan),
        best_cut(specs, w, h, counts) == attempt(specs, w, h, counts, plan),
        best_cut(specs, w, h, counts).area == choice_area(specs, w, h, counts, plan),
{
    let plans = choices(openings(specs, counts, w, h, specs.len() as int));
    lemma_choices(specs, counts, w, h);
    lemma_best_of_max(specs, w, h, counts, plans, plans.len() as int);
    let k = choose|k: int|
        0 <= k < plans.len() && best_of(specs, w, h, counts, plans, plans.len() as int) == attempt(
            specs,
            w,
            h,
            counts,
            #[trigger] plans[k],
        );
    lemma_attempt(specs, w, h, counts, plans[k]);
    plans[k]
}

/// What a plan yields covers at least the piece in the corner.
proof fn lemma_attempt_area(
    specs: Seq<ElementType>,
    w: int,
    h: int,
    counts: Seq<u32>,
    plan: Plan,
)
    requires
        is_choice(specs, w, h, counts, plan),
    ensures
        attempt(specs, w, h, counts, plan).area >= specs[plan.kind].area() >= 0,
{
    let piece = specs[plan.kind].tile(0, 0, plan.rotated);
    let a = first_part(w, h, piece.w, piece.h, plan.vertical);
    let b = second_part(w, h, piece.w, piece.h, plan.vertical);
    let rest = less_one(counts, plan.kind);
    let first = best_cut(specs, a.w, a.h, rest);
    let second = best_cut(specs, b.w, b.h, first.remaining);
    lemma_attempt(specs, w, h, counts, plan);
    lemma_accounted_within(specs, a.w, a.h, rest, first);
    lemma_accounted_within(specs, b.w, b.h, first.remaining, second);
    lemma_guillotine_packing(specs, a.w, a.h, first);
    lemma_guillotine_packing(specs, b.w, b.h, second);
    let pw = piece.w;
    let ph = piece.h;
    let width = specs[plan.kind].width;
    let height = specs[plan.kind].height;
    assert(pw * ph == width * height && width * height >= 0) by (nonlinear_arith)
        requires
            (pw == width && ph == height) || (pw == height && ph == width),
            width >= 0,
            height >= 0,
    ;
}

/// Areas on a small sheet are numbers that a `u32` can hold, and so are the areas of few pieces.
pub proof fn lemma_areas_fit(specs: Seq<ElementType>, w: int, h: int, counts: Seq<u32>)
    requires
        0 <= w,
        0 <= h,
        specs.len() <= counts.len(),
        w * h <= u32::MAX || stock_area(specs, counts, specs.len() as int) <= u32::MAX,
    ensures
        areas_fit(specs, w, h, counts),
{
    assert forall|layout: Layout| #[trigger]
        accounted(specs, w, h, counts, layout) implies layout.area <= u32::MAX by {
        lemma_accounted_within(specs, w, h, counts, layout);
        lemma_guillotine_packing(specs, w, h, layout);
        lemma_accounted_area(specs, w, h, counts, layout);
        lemma_stock_area(specs, layout.remaining, specs.len() as int);
    }
}

proof fn lemma_stock_area(specs: Seq<ElementType>, counts: Seq<u32>, n: int)
    ensures
        stock_area(specs, counts, n) >= 0,
    decreases n,
{
    if n > 0 {
        lemma_stock_area(specs, counts, n - 1);
        let c = counts[n - 1];
        let a = specs[n - 1].width;
        let b = specs[n - 1].height;
        assert(c * (a * b) >= 0) by (nonlinear_arith)
            requires
                a >= 0,
                b >= 0,
                c >= 0,
        ;
    }
}

/// Where the areas of a node are numbers that a `u32` can hold, so are those of its parts.
proof fn lemma_areas_fit_parts(
    specs: Seq<ElementType>,
    w: int,
    h: int,
    counts: Seq<u32>,
    plan: Plan,
)
    requires
        is_choice(specs, w, h, counts, plan),
        areas_fit(specs, w, h, counts),
    ensures
        ({
            let piece = specs[plan.kind].tile(0, 0, plan.rotated);
            let a = first_part(w, h, piece.w, piece.h, plan.vertical);
            let b = second_part(w, h, piece.w, piece.h, plan.vertical);
            let rest = less_one(counts, plan.kind);
            let first = best_cut(specs, a.w, a.h, rest);
            &&& areas_fit(specs, a.w, a.h, rest)
            &&& areas_fit(specs, b.w, b.h, first.remaining)
        }),
{
    let piece = specs[plan.kind].tile(0, 0, plan.rotated);
    let a = first_part(w, h, piece.w, piece.h, plan.vertical);
    let b = second_part(w, h, piece.w, piece.h, plan.vertical);
    let rest = less_one(counts, plan.kind);
    let first = best_cut(specs, a.w, a.h, rest);
    lemma_attempt(specs, w, h, counts, plan);
    lemma_accounted_within(specs, a.w, a.h, rest, first);
    lemma_guillotine_packing(specs, a.w, a.h, first);
    let pw = piece.w;
    let ph = piece.h;
    assert(pw * ph >= 0) by (nonlinear_arith)
        requires
            pw >= 0,
            ph >= 0,
    ;
    assert forall|layout: Layout| #[trigger]
        accounted(specs, a.w, a.h, rest, layout) implies layout.area <= u32::MAX by {
        let last = blank(layout.remaining);
        lemma_blank(specs, b.w, b.h, layout.remaining);
        lemma_accounted_joined(
            specs,
            w,
            h,
            counts,
            plan.kind,
            plan.rotated,
            plan.vertical,
            layout,
            last,
        );
        assert(accounted(specs, w, h, counts, joined(piece, plan.vertical, layout, last)));
    }
    assert forall|layout: Layout| #[trigger]
        accounted(specs, b.w, b.h, first.remaining, layout) implies layout.area <= u32::MAX by {
        lemma_accounted_joined(
            specs,
            w,
            h,
            counts,
            plan.kind,
            plan.rotated,
            plan.vertical,
            first,
            layout,
        );
        assert(accounted(specs, w, h, counts, joined(piece, plan.vertical, first, layout)));
    }
}

/// Puts a piece into the corner of a `width` by `height` part, fills the two parts that this
/// leaves, and joins the layouts.
pub(crate) fn try_cut(
    width: u32,
    height: u32,
    items_counts: &[u32],
    item_specs: &[ElementType],
    memo: &mut MemoCache,
    index: usize,
    rotated: bool,
    vertical: bool,
) -> (found: Solution)
    requires
        is_choice(
            item_specs@,
            width as int,
            height as int,
            items_counts@,
            (Plan { kind: index as int, rotated, vertical }),
        ),
        areas_fit(item_specs@, width as int, height as int, items_counts@),
        is_true_memo(item_specs@, old(memo)@),
    ensures
        found@ == attempt(
            item_specs@,
            width as int,
            height as int,
            items_counts@,
            (Plan { kind: index as int, rotated, vertical }),
        ),
        is_true_memo(item_specs@, final(memo)@),
        keeps(old(memo)@, final(memo)@),
    decreases total(items_counts@), 0int,
{
    let ghost specs = item_specs@;
    let ghost w = width as int;
    let ghost h = height as int;
    let ghost counts = items_counts@;
    let ghost plan = Plan { kind: index as int, rotated, vertical };
    let ghost piece = specs[plan.kind].tile(0, 0, rotated);
    let ghost a = first_part(w, h, piece.w, piece.h, vertical);
    let ghost b = second_part(w, h, piece.w, piece.h, vertical);
    let ghost rest = less_one(counts, plan.kind);
    proof {
        lemma_attempt(specs, w, h, counts, plan);
        lemma_areas_fit_parts(specs, w, h, counts, plan);
        lemma_less_one(counts, plan.kind);
    }
    let spec = &item_specs[index];
    let item_w: u32 = if rotated {
        spec.height
    } else {
        spec.width
    };
    let item_h: u32 = if rotated {
        spec.width
    } else {
        spec.height
    };
    let mut new_counts: Vec<u32> = slice_to_vec(items_counts);
    let left: u32 = new_counts[index];
    new_counts.set(index, left - 1);
    assert(new_counts@ =~= rest);
    let first = solve_guillotine_memoized(
        if vertical {
            width - item_w
        } else {
            item_w
        },
        if vertical {
            item_h
        } else {
            height - item_h
        },
        new_counts.as_slice(),
        item_specs,
        memo,
    );
    let second = solve_guillotine_memoized(
        if vertical {
            width
        } else {
            width - item_w
        },
        if vertical {
            height - item_h
        } else {
            height
        },
        first.remaining_counts.as_slice(),
        item_specs,
        memo,
    );
    let ghost one = first@;
    let ghost two = second@;
    proof {
        lemma_accounted_within(specs, a.w, a.h, rest, one);
        lemma_accounted_within(specs, b.w, b.h, one.remaining, two);
        lemma_guillotine_packing(specs, a.w, a.h, one);
        lemma_guillotine_packing(specs, b.w, b.h, two);
        lemma_inside_grows(one.tiles, a.w, a.h, u32::MAX - a.x, u32::MAX - a.y);
        lemma_inside_grows(two.tiles, b.w, b.h, u32::MAX - b.x, u32::MAX - b.y);
        assert(accounted(specs, w, h, counts, joined(piece, vertical, one, two)));
        assert(item_w * item_h >= 0) by (nonlinear_arith)
            requires
                item_w >= 0,
                item_h >= 0,
        ;
    }
    let item_area: u32 = item_w * item_h;
    let total_area: u32 = item_area + first.total_area + second.total_area;
    let corner = PlacedItem {
        x: 0,
        y: 0,
        width: item_w,
        height: item_h,
        name: spec.name.clone(),
        rotated,
    };
    assert(corner@ == piece);
    let items = join_items(corner, vertical, first.items, second.items);
    let found = Solution { items, remaining_counts: second.remaining_counts, total_area };
    assert(found@ == joined(piece, vertical, one, two));
    found
}

/// Whether no piece is left.
fn none_left(counts: &[u32]) -> (r: bool)
    ensures
        r == (total(counts@) == 0),
{
    let mut i: usize = 0;
    while i < counts.len()
        invariant
            i <= counts.len(),
            forall|k: int| 0 <= k < i ==> counts[k] == 0,
        decreases counts.len() - i,
    {
        if counts[i] != 0 {
            proof {
                lemma_total_zero(counts@);
            }
            return false;
        }
        i = i + 1;
    }
    proof {
        lemma_total_zero(counts@);
    }
    true
}

/// The pieces that can go into the corner of a `width` by `height` part.
pub fn list_openings(
    item_specs: &[ElementType],
    items_counts: &[u32],
    width: u32,
    height: u32,
) -> (list: Vec<(usize, bool)>)
    requires
        item_specs.len() <= items_counts.len(),
    ensures
        openings_of(list@) == openings(
            item_specs@,
            items_counts@,
            width as int,
            height as int,
            item_specs.len() as int,
        ),
{
    let mut list: Vec<(usize, bool)> = Vec::new();
    let mut i: usize = 0;
    assert(openings_of(list@) =~= seq![]);
    while i < item_specs.len()
        invariant
            i <= item_specs.len() <= items_counts.len(),
            openings_of(list@) == openings(
                item_specs@,
                items_counts@,
                width as int,
                height as int,
                i as int,
            ),
        decreases item_specs.len() - i,
    {
        let ghost before = openings_of(list@);
        if items_counts[i] > 0 {
            let w: u32 = item_specs[i].width;
            let h: u32 = item_specs[i].height;
            let ghost straight = if w <= width && h <= height {
                seq![Opening { kind: i as int, rotated: false }]
            } else {
                seq![]
            };
            if w <= width && h <= height {
                list.push((i, false));
            }
            assert(openings_of(list@) =~= before + straight);
            let ghost turned = if w != h && h <= width && w <= height {
                seq![Opening { kind: i as int, rotated: true }]
            } else {
                seq![]
            };
            if w != h && h <= width && w <= height {
                list.push((i, true));
            }
            assert(openings_of(list@) =~= before + straight + turned);
        }
        i = i + 1;
    }
    list
}

/// What a list of kinds and turns stands for.
pub open spec fn openings_of(list: Seq<(usize, bool)>) -> Seq<Opening> {
    list.map_values(|o: (usize, bool)| Opening { kind: o.0 as int, rotated: o.1 })
}

/// The best layout of a `width` by `height` part that starts with any of the given pieces in
/// the corner, one direction of cutting after the other.
///
/// What is remembered does not change the result, only how soon it is found.
pub fn solve_guillotine_memoized(
    width: u32,
    height: u32,
    items_counts: &[u32],
    item_specs: &[ElementType],
    memo: &mut MemoCache,
) -> (found: Solution)
    requires
        is_true_memo(item_specs@, old(memo)@),
        can_solve(
            item_specs@,
            (Part { w: width as int, h: height as int, counts: items_counts@ }),
            old(memo)@,
        ),
    ensures
        is_solved(
            item_specs@,
            (Part { w: width as int, h: height as int, counts: items_counts@ }),
            old(memo)@,
            found@,
            final(memo)@,
        ),
    decreases total(items_counts@), 1int,
{
    let ghost specs = item_specs@;
    let ghost w = width as int;
    let ghost h = height as int;
    let ghost counts = items_counts@;
    let memo_key = MemoKey { width, height, counts: slice_to_vec(items_counts) };
    let ghost part = Part { w, h, counts };
    assert(memo_key@ == part);
    match memo.get(&memo_key) {
        Some(cached) => {
            return cached;
        },
        None => {},
    }
    let mut best = Solution {
        items: Vec::new(),
        remaining_counts: slice_to_vec(items_counts),
        total_area: 0,
    };
    assert(best@.tiles =~= blank(counts).tiles);
    if none_left(items_counts) || width == 0 || height == 0 {
        memo.insert(memo_key, best.clone());
        return best;
    }
    proof {
        if width * height <= u32::MAX {
            lemma_areas_fit(specs, w, h, counts);
        }
        lemma_choices(specs, counts, w, h);
    }
    let list = list_openings(item_specs, items_counts, width, height);
    let ghost all = openings_of(list@);
    let ghost plans = choices(all);
    let mut i: usize = 0;
    while i < list.len()
        invariant
            i <= list.len(),
            specs == item_specs@,
            counts == items_counts@,
            w == width,
            h == height,
            specs.len() <= counts.len(),
            all == openings_of(list@),
            plans == choices(all),
            forall|k: int|
                0 <= k < plans.len() ==> is_choice(specs, w, h, counts, #[trigger] plans[k]),
            areas_fit(specs, w, h, counts),
            is_true_memo(specs, memo@),
            keeps(old(memo)@, memo@),
            !old(memo)@.contains_key(part),
            part == (Part { w, h, counts }),
            memo_key@ == part,
            best@ == best_of(specs, w, h, counts, plans, 2 * i),
        decreases list.len() - i,
    {
        let (index, rotated) = list[i];
        proof {
            assert(all[i as int].kind == index && all[i as int].rotated == rotated);
            assert((2 * i) / 2 == i && (2 * i + 1) / 2 == i);
            assert(plans[2 * i] == (Plan { kind: index as int, rotated, vertical: true }));
            assert(plans[2 * i + 1] == (Plan { kind: index as int, rotated, vertical: false }));
        }
        let one = try_cut(
            width,
            height,
            items_counts,
            item_specs,
            memo,
            index,
            rotated,
            true,
        );
        if one.total_area > best.total_area {
            best = one;
        }
        assert(best@ == best_of(specs, w, h, counts, plans, 2 * i + 1));
        let two = try_cut(
            width,
            height,
            items_counts,
            item_specs,
            memo,
            index,
            rotated,
            false,
        );
        if two.total_area > best.total_area {
            best = two;
        }
        assert(best@ == best_of(specs, w, h, counts, plans, 2 * i + 2));
        i = i + 1;
    }
    memo.insert(memo_key, best.clone());
    best
}

} // verus!
