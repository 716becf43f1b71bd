//! What the exhaustive search prefers, and what it leaves.

use crate::candidates_laws::can_move;
use crate::exhaustive::{
    attempt, best_cut, best_of, choice_area, choices, is_choice, lemma_attempt, lemma_best_cut,
    lemma_best_cut_attained, lemma_best_cut_max, lemma_choices, openings, Opening,
};
use crate::layout::{blank, first_part, lemma_accounted_within, realises, second_part, CutTree};
use crate::pieces::{lemma_less_one, less_one, total, within, ElementType};
use crate::search::Plan;
use crate::search_laws::{has_no_room, leaves_no_room, lemma_no_room_joined};
use vstd::prelude::*;

verus! {

/// Of two openings the first has the earlier kind, or the same kind and is not turned while the
/// other one is.
pub open spec fn opens_earlier(a: Opening, b: Opening) -> bool {
    a.kind < b.kind || (a.kind == b.kind && !a.rotated && b.rotated)
}

/// Of two plans the first is tried before the second: its opening is earlier, or the same and it
/// cuts down beside the piece while the other one cuts across.
pub open spec fn is_sooner(a: Plan, b: Plan) -> bool {
    ||| a.kind < b.kind
    ||| a.kind == b.kind && !a.rotated && b.rotated
    ||| a.kind == b.kind && a.rotated == b.rotated && a.vertical && !b.vertical
}

/// Exactly the pieces that are left and fit are openings, each once, kind by kind.
pub proof fn lemma_openings_exact(
    specs: Seq<ElementType>,
    counts: Seq<u32>,
    w: int,
    h: int,
    n: int,
)
    requires
        0 <= n <= specs.len(),
    ensures
        forall|k: int|
            0 <= k < openings(specs, counts, w, h, n).len() ==> {
                let o = #[trigger] openings(specs, counts, w, h, n)[k];
                o.kind < n && can_move(specs, counts, w, h, o.kind, o.rotated)
            },
        forall|kind: int, rotated: bool|
            kind < n && #[trigger] can_move(specs, counts, w, h, kind, rotated) ==> openings(
                specs,
                counts,
                w,
                h,
                n,
            ).contains((Opening { kind, rotated })),
        forall|a: int, b: int|
            0 <= a < b < openings(specs, counts, w, h, n).len() ==> opens_earlier(
                #[trigger] openings(specs, counts, w, h, n)[a],
                #[trigger] openings(specs, counts, w, h, n)[b],
            ),
    decreases n,
{
    if n > 0 {
        lemma_openings_exact(specs, counts, w, h, n - 1);
        let before = openings(specs, counts, w, h, n - 1);
        let s = openings(specs, counts, w, h, n);
        assert forall|k: int| 0 <= k < s.len() implies {
            let o = #[trigger] s[k];
            o.kind < n && can_move(specs, counts, w, h, o.kind, o.rotated)
        } by {
            if k < before.len() {
                assert(s[k] == before[k]);
            }
        }
        assert forall|kind: int, rotated: bool|
            kind < n && #[trigger] can_move(specs, counts, w, h, kind, rotated) implies s.contains(
            (Opening { kind, rotated }),
        ) by {
            let o = Opening { kind, rotated };
            if kind < n - 1 {
                let k = choose|k: int| 0 <= k < before.len() && before[k] == o;
                assert(s[k] == o);
            } else if rotated {
                assert(s[s.len() - 1] == o);
            } else {
                assert(s[before.len() as int] == o);
            }
        }
        assert forall|a: int, b: int| 0 <= a < b < s.len() implies opens_earlier(
            #[trigger] s[a],
            #[trigger] s[b],
        ) by {
            if a < before.len() {
                assert(s[a] == before[a]);
            }
            if b < before.len() {
                assert(s[b] == before[b]);
            }
        }
    }
}

/// The best of some plans is the first one of those that cover the most.
proof fn lemma_best_of_first(
    specs: Seq<ElementType>,
    w: int,
    h: int,
    counts: Seq<u32>,
    plans: Seq<Plan>,
    n: int,
)
    requires
        0 <= n <= plans.len(),
    ensures
        ({
            let best = best_of(specs, w, h, counts, plans, n);
            best.area > 0 ==> exists|k: int|
                {
                    &&& 0 <= k < n
                    &&& best == attempt(specs, w, h, counts, #[trigger] plans[k])
                    &&& forall|j: int|
                        0 <= j < k ==> attempt(specs, w, h, counts, #[trigger] plans[j]).area
                            < best.area
                }
        }),
        best_of(specs, w, h, counts, plans, n).area >= 0,
        forall|j: int|
            0 <= j < n ==> attempt(specs, w, h, counts, #[trigger] plans[j]).area <= best_of(
                specs,
                w,
                h,
                counts,
                plans,
                n,
            ).area,
    decreases n,
{
    if n > 0 {
        lemma_best_of_first(specs, w, h, counts, plans, n - 1);
        let before = best_of(specs, w, h, counts, plans, n - 1);
        let found = attempt(specs, w, h, counts, plans[n - 1]);
        if found.area > before.area {
            assert(best_of(specs, w, h, counts, plans, n) == attempt(
                specs,
                w,
                h,
                counts,
                plans[n - 1],
            ));
        } else if before.area > 0 {
            let k = choose|k: int|
                {
                    &&& 0 <= k < n - 1
                    &&& before == attempt(specs, w, h, counts, #[trigger] plans[k])
                    &&& forall|j: int|
                        0 <= j < k ==> attempt(specs, w, h, counts, #[trigger] plans[j]).area
                            < before.area
                };
            assert(before == attempt(specs, w, h, counts, plans[k]));
        }
    }
}

/// What the search finds is what the first one of the plans yields that cover the most: every
/// plan that is tried sooner covers less.
pub proof fn lemma_best_cut_first(
    specs: Seq<ElementType>,
    w: int,
    h: int,
    counts: Seq<u32>,
) -> (plan: Plan)
    requires
        specs.len() <= counts.len(),
        best_cut(specs, w, h, counts).area > 0,
    ensures
        can_move(specs, counts, w, h, plan.kind, plan.rotated),
        best_cut(specs, w, h, counts) == attempt(specs, w, h, counts, plan),
        best_cut(specs, w, h, counts).area == choice_area(specs, w, h, counts, plan),
        forall|q: Plan|
            {
                &&& can_move(specs, counts, w, h, q.kind, q.rotated)
                &&& #[trigger] is_sooner(q, plan)
            } ==> choice_area(specs, w, h, counts, q) < choice_area(specs, w, h, counts, plan),
{
    let n = specs.len() as int;
    let list = openings(specs, counts, w, h, n);
    let plans = choices(list);
    lemma_openings_exact(specs, counts, w, h, n);
    lemma_choices(specs, counts, w, h);
    lemma_best_of_first(specs, w, h, counts, plans, plans.len() as int);
    let best = best_cut(specs, w, h, counts);
    let k = choose|k: int|
        {
            &&& 0 <= k < plans.len()
            &&& best == attempt(specs, w, h, counts, #[trigger] plans[k])
            &&& forall|j: int|
                0 <= j < k ==> attempt(specs, w, h, counts, #[trigger] plans[j]).area < best.area
        };
    let plan = plans[k];
    assert(is_choice(specs, w, h, counts, plans[k]));
    lemma_attempt(specs, w, h, counts, plan);
    assert(0 <= k / 2 < list.len());
    assert(can_move(specs, counts, w, h, list[k / 2].kind, list[k / 2].rotated));
    assert forall|q: Plan|
        {
            &&& can_move(specs, counts, w, h, q.kind, q.rotated)
            &&& #[trigger] is_sooner(q, plan)
        } implies choice_area(specs, w, h, counts, q) < choice_area(
        specs,
        w,
        h,
        counts,
        plan,
    ) by {
        let o = Opening { kind: q.kind, rotated: q.rotated };
        assert(list.contains(o));
        let i = choose|i: int| 0 <= i < list.len() && list[i] == o;
        let j = if q.vertical {
            2 * i
        } else {
            2 * i + 1
        };
        assert(j / 2 == i && (j % 2 == 0) == q.vertical);
        assert(plans[j] == q);
        if i > k / 2 {
            assert(opens_earlier(list[k / 2], list[i]));
        }
        if i < k / 2 {
            assert(opens_earlier(list[i], list[k / 2]));
        }
        assert(j < k);
        assert(is_choice(specs, w, h, counts, plans[j]));
        lemma_attempt(specs, w, h, counts, q);
    }
    plan
}

/// Every piece that is left has an area.
pub open spec fn counts_have_area(specs: Seq<ElementType>, counts: Seq<u32>) -> bool {
    forall|i: int|
        0 <= i < specs.len() && counts[i] > 0 ==> (#[trigger] specs[i]).width > 0
            && specs[i].height > 0
}

/// The exhaustive search leaves no part empty into which a piece fits that it leaves over, if every
/// piece has an area.
pub proof fn lemma_best_cut_no_room(
    specs: Seq<ElementType>,
    w: int,
    h: int,
    counts: Seq<u32>,
)
    requires
        specs.len() <= counts.len(),
        0 <= w,
        0 <= h,
        counts_have_area(specs, counts),
    ensures
        has_no_room(specs, w, h, best_cut(specs, w, h, counts)),
    decreases total(counts),
{
    let best = best_cut(specs, w, h, counts);
    lemma_best_cut(specs, w, h, counts);
    if best.area > 0 {
        let plan = lemma_best_cut_attained(specs, w, h, counts);
        let piece = specs[plan.kind].tile(0, 0, plan.rotated);
        let a = first_part(w, h, piece.w, piece.h, plan.vertical);
        let b = second_part(w, h, piece.w, piece.h, plan.vertical);
        let rest = less_one(counts, plan.kind);
        lemma_less_one(counts, plan.kind);
        lemma_attempt(specs, w, h, counts, plan);
        let first = best_cut(specs, a.w, a.h, rest);
        let second = best_cut(specs, b.w, b.h, first.remaining);
        lemma_accounted_within(specs, a.w, a.h, rest, first);
        lemma_accounted_within(specs, b.w, b.h, first.remaining, second);
        lemma_fewer_have_area(specs, counts, rest);
        lemma_fewer_have_area(specs, rest, first.remaining);
        lemma_best_cut_no_room(specs, a.w, a.h, rest);
        lemma_best_cut_no_room(specs, b.w, b.h, first.remaining);
        lemma_no_room_joined(specs, w, h, plan, first, second);
    } else {
        lemma_nothing_covered(specs, w, h, counts);
        assert forall|i: int| 0 <= i < specs.len() && counts[i] > 0 implies {
            let e = #[trigger] specs[i];
            &&& e.width > w || e.height > h
            &&& e.height > w || e.width > h
        } by {
            let e = specs[i];
            assert(e.width * e.height > 0) by (nonlinear_arith)
                requires
                    e.width > 0,
                    e.height > 0,
            ;
            if e.width <= w && e.height <= h {
                let plan = Plan { kind: i, rotated: false, vertical: true };
                assert(is_choice(specs, w, h, counts, plan));
                lemma_best_cut_max(specs, w, h, counts, plan);
            }
            if e.height <= w && e.width <= h {
                let plan = Plan { kind: i, rotated: true, vertical: true };
                assert(is_choice(specs, w, h, counts, plan));
                lemma_best_cut_max(specs, w, h, counts, plan);
            }
        }
        let tree = CutTree::Leave;
        assert(realises(tree, specs, w, h, blank(counts)));
        assert(leaves_no_room(tree, specs, w, h, counts));
    }
}

proof fn lemma_fewer_have_area(specs: Seq<ElementType>, many: Seq<u32>, few: Seq<u32>)
    requires
        counts_have_area(specs, many),
        within(few, many),
        specs.len() <= many.len(),
    ensures
        counts_have_area(specs, few),
{
    assert forall|i: int| 0 <= i < specs.len() && few[i] > 0 implies (#[trigger] specs[i]).width
        > 0 && specs[i].height > 0 by {
        assert(few[i] <= many[i]);
    }
}

/// Where the search covers nothing, it places nothing.
proof fn lemma_nothing_covered(
    specs: Seq<ElementType>,
    w: int,
    h: int,
    counts: Seq<u32>,
)
    requires
        best_cut(specs, w, h, counts).area <= 0,
    ensures
        best_cut(specs, w, h, counts) == blank(counts),
{
    if total(counts) == 0 || w == 0 || h == 0 {
    } else {
        let plans = choices(openings(specs, counts, w, h, specs.len() as int));
        lemma_best_of_blank(specs, w, h, counts, plans, plans.len() as int);
    }
}

proof fn lemma_best_of_blank(
    specs: Seq<ElementType>,
    w: int,
    h: int,
    counts: Seq<u32>,
    plans: Seq<Plan>,
    n: int,
)
    requires
        n <= plans.len(),
    ensures
        best_of(specs, w, h, counts, plans, n).area >= 0,
        best_of(specs, w, h, counts, plans, n).area == 0 ==> best_of(
            specs,
            w,
            h,
            counts,
            plans,
            n,
        ) == blank(counts),
    decreases n,
{
    if n > 0 {
        lemma_best_of_blank(specs, w, h, counts, plans, n - 1);
    }
}

} // verus!
