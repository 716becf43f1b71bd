//! Searches that start with a piece that is hard to place, again and again with other seeds.

use crate::candidates::{fits, in_range};
use crate::control::{now, Control, Log, Signals, Source};
use crate::layout::Layout;
use crate::memo::{MemoCache, MemoKey, Solution};
use crate::order::indices;
use crate::parallel::map_in_parallel;
use crate::pieces::{sum_counts, total, ElementType};
use crate::search::{
    extends, follow_step, followed, is_part, is_plan, is_sized_step, is_sound, layout_of,
    lemma_followed_finds, plans_of, Plan, Setting, Step,
};
use std::time::Instant;
use vstd::prelude::*;

verus! {

/// How many seeds are tried before the clock is looked at again.
pub const BATCH: u64 = 48;

/// A piece in the corner of a `w` by `h` sheet, with both directions to cut in. There is none
/// where the piece does not fit, nor for a square that is turned.
pub open spec fn both_cuts(
    specs: Seq<ElementType>,
    w: int,
    h: int,
    kind: int,
    rotated: bool,
) -> Seq<Plan> {
    if !fits(specs[kind], rotated, w, h) || (rotated && specs[kind].width == specs[kind].height) {
        seq![]
    } else {
        seq![
            Plan { kind, rotated, vertical: true },
            Plan { kind, rotated, vertical: false },
        ]
    }
}

/// The plans that start with one of the first `n` of the given kinds.
pub open spec fn forced_plans(
    specs: Seq<ElementType>,
    w: int,
    h: int,
    forced: Seq<int>,
    n: int,
) -> Seq<Plan>
    decreases n,
{
    if n <= 0 {
        seq![]
    } else {
        let kind = forced[n - 1];
        forced_plans(specs, w, h, forced, n - 1) + both_cuts(specs, w, h, kind, false) + both_cuts(
            specs,
            w,
            h,
            kind,
            true,
        )
    }
}

/// The layout is what following the plan on a `w` by `h` sheet comes to, for some answers to
/// the question whether to stop.
pub open spec fn is_outcome(s: Setting, w: int, h: int, plan: Plan, layout: Layout) -> bool {
    exists|polls: Seq<bool>, at: int| #[trigger]
        followed(s, w, h, s.stock, 0, plan, Map::<MemoKey, Layout>::empty(), polls, at).result
            == Some(layout)
}

/// The layout is what following plan `k` with the given seed comes to.
pub open spec fn is_try(
    specs: Seq<ElementType>,
    stock: Seq<u32>,
    beam: nat,
    w: int,
    h: int,
    plans: Seq<Plan>,
    seed: u64,
    k: int,
    layout: Layout,
) -> bool {
    let s = Setting { specs, stock, beam, seed };
    &&& seed >= 1
    &&& 0 <= k < plans.len()
    &&& is_outcome(s, w, h, plans[k], layout)
    &&& is_sound(s, w, h, stock, layout)
}

/// The layout is what following one of the plans comes to, with one of the seeds.
pub open spec fn is_forced(
    specs: Seq<ElementType>,
    stock: Seq<u32>,
    beam: nat,
    w: int,
    h: int,
    plans: Seq<Plan>,
    layout: Layout,
) -> bool {
    exists|seed: u64, k: int| #[trigger]
        is_try(specs, stock, beam, w, h, plans, seed, k, layout)
}

/// What a number of rounds come to: each round tries `BATCH` seeds, each of them with every
/// plan. A try that is stopped, or need not begin, comes to nothing.
pub open spec fn are_tries(
    specs: Seq<ElementType>,
    stock: Seq<u32>,
    beam: nat,
    w: int,
    h: int,
    plans: Seq<Plan>,
    rounds: int,
    tries: Seq<Option<Layout>>,
) -> bool {
    let n = plans.len() as int;
    &&& 0 <= rounds
    &&& tries.len() == rounds * BATCH * n
    &&& forall|k: int|
        0 <= k < tries.len() ==> (#[trigger] tries[k] matches Some(layout) ==> is_try(
            specs,
            stock,
            beam,
            w,
            h,
            plans,
            (1 + k / n) as u64,
            k % n,
            layout,
        ))
}

/// A round tries every plan with forty-eight seeds, and the seeds go on from round to round.
pub proof fn lemma_round_size(
    specs: Seq<ElementType>,
    stock: Seq<u32>,
    beam: nat,
    w: int,
    h: int,
    plans: Seq<Plan>,
    rounds: int,
    tries: Seq<Option<Layout>>,
)
    requires
        are_tries(specs, stock, beam, w, h, plans, rounds, tries),
    ensures
        tries.len() == rounds * 48 * plans.len(),
{
}

/// What a search that starts with a plan comes to, with these answers to the question whether to
/// stop: nothing, if it need not begin; else what following the plan yields.
pub open spec fn is_tried(log: Log, s: Setting, w: int, h: int, plan: Plan, outcome: Option<
    Layout,
>) -> bool {
    let polls = log.polls();
    let run = followed(s, w, h, s.stock, 0, plan, Map::<MemoKey, Layout>::empty(), polls, 1);
    &&& polls.len() > 0
    &&& polls[0] ==> outcome is None && polls.len() == 1
    &&& !polls[0] ==> outcome == run.result && polls.len() == run.at
}

/// A control with the given flags and clock gave answers with which the search comes to this.
pub open spec fn was_tried(
    source: Source,
    s: Setting,
    w: int,
    h: int,
    plan: Plan,
    outcome: Option<Layout>,
) -> bool {
    exists|log: Log| #[trigger] is_tried(log, s, w, h, plan, outcome) && log.source() == source
}

/// Every try was made: each seed with every plan.
pub open spec fn all_tried(
    source: Source,
    specs: Seq<ElementType>,
    stock: Seq<u32>,
    beam: nat,
    w: int,
    h: int,
    plans: Seq<Plan>,
    tries: Seq<Option<Layout>>,
) -> bool {
    let n = plans.len() as int;
    forall|k: int|
        0 <= k < tries.len() ==> was_tried(
            source,
            Setting { specs, stock, beam, seed: (1 + k / n) as u64 },
            w,
            h,
            plans[k % n],
            #[trigger] tries[k],
        )
}

/// The result is the best of what the rounds came to, all tries of which were made.
pub open spec fn is_best_made(
    source: Source,
    specs: Seq<ElementType>,
    stock: Seq<u32>,
    beam: nat,
    w: int,
    h: int,
    plans: Seq<Plan>,
    rounds: int,
    result: Option<Layout>,
) -> bool {
    exists|tries: Seq<Option<Layout>>|
        {
            &&& #[trigger] are_tries(specs, stock, beam, w, h, plans, rounds, tries)
            &&& all_tried(source, specs, stock, beam, w, h, plans, tries)
            &&& result == best_so_far(None, tries, tries.len() as int)
        }
}

/// The result is the best of what the rounds came to that there was time for: a control with the
/// given flags and time said before every round that it may begin, and then that none may.
pub open spec fn is_best_in_time(
    signals: Signals,
    seconds: u64,
    specs: Seq<ElementType>,
    stock: Seq<u32>,
    beam: nat,
    w: int,
    h: int,
    plans: Seq<Plan>,
    result: Option<Layout>,
) -> bool {
    exists|log: Log, rounds: int|
        {
            &&& #[trigger] led_to(log.polls(), rounds)
            &&& log.source().signals == signals
            &&& log.source().timeout == seconds * 1_000_000_000
            &&& is_best_made(log.source(), specs, stock, beam, w, h, plans, rounds, result)
        }
}

/// A search that starts with a plan and is never told to stop finds a layout with the piece of
/// the plan in the corner, turned as the plan says.
pub proof fn lemma_unstopped_try(
    log: Log,
    s: Setting,
    w: int,
    h: int,
    plan: Plan,
    outcome: Option<Layout>,
)
    requires
        is_tried(log, s, w, h, plan, outcome),
        is_part(s, w, h, s.stock),
        is_plan(s, w, h, s.stock, plan),
        forall|i: int| 0 <= i < log.polls().len() ==> !#[trigger] log.polls()[i],
    ensures
        outcome matches Some(layout) && {
            &&& layout.tiles.len() > 0
            &&& layout.tiles[0] == s.specs[plan.kind].tile(0, 0, plan.rotated)
            &&& layout.area >= s.specs[plan.kind].area()
        },
{
    let empty = Map::<MemoKey, Layout>::empty();
    lemma_followed_finds(s, w, h, s.stock, 0, plan, empty, log.polls(), 1);
}

/// Whatever else is tried, the result of some rounds is no worse than what any of the tries came
/// to, and there is one if any of the tries came to something. A try comes to nothing only where
/// an answer was to stop. So with all answers no every plan, turned or not, counts with every
/// seed.
pub proof fn lemma_no_try_is_lost(
    source: Source,
    specs: Seq<ElementType>,
    stock: Seq<u32>,
    beam: nat,
    w: int,
    h: int,
    plans: Seq<Plan>,
    rounds: int,
    result: Option<Layout>,
    i: int,
    k: int,
) -> (way: (Log, Option<Layout>))
    requires
        is_best_made(source, specs, stock, beam, w, h, plans, rounds, result),
        0 <= i < rounds * 48,
        i < u64::MAX,
        0 <= k < plans.len(),
        specs.len() <= stock.len(),
        0 <= w <= u32::MAX,
        0 <= h <= u32::MAX,
        0 <= plans[k].kind < specs.len(),
        stock[plans[k].kind] > 0,
        specs[plans[k].kind].wide(plans[k].rotated) <= w,
        specs[plans[k].kind].high(plans[k].rotated) <= h,
    ensures
        ({
            let s = Setting { specs, stock, beam, seed: (1 + i) as u64 };
            let (log, found) = way;
            &&& log.source() == source
            &&& is_tried(log, s, w, h, plans[k], found)
            &&& found is None ==> exists|j: int|
                0 <= j < log.polls().len() && #[trigger] log.polls()[j]
            &&& found is Some ==> result is Some && !is_better(found.unwrap(), result.unwrap())
        }),
{
    let tries = choose|tries: Seq<Option<Layout>>|
        {
            &&& #[trigger] are_tries(specs, stock, beam, w, h, plans, rounds, tries)
            &&& all_tried(source, specs, stock, beam, w, h, plans, tries)
            &&& result == best_so_far(None, tries, tries.len() as int)
        };
    let n = plans.len() as int;
    let at = i * n + k;
    assert(at / n == i && at % n == k && 0 <= at && at < rounds * BATCH * n) by (nonlinear_arith)
        requires
            at == i * n + k,
            0 <= k < n,
            0 <= i,
            i < rounds * BATCH,
    ;
    lemma_best_so_far(None, tries, tries.len() as int);
    let s = Setting { specs, stock, beam, seed: (1 + i) as u64 };
    let found = tries[at];
    assert(was_tried(source, s, w, h, plans[k], found));
    let log = choose|log: Log| #[trigger]
        is_tried(log, s, w, h, plans[k], found) && log.source() == source;
    if found is None {
        if forall|j: int| 0 <= j < log.polls().len() ==> !#[trigger] log.polls()[j] {
            lemma_unstopped_try(log, s, w, h, plans[k], found);
        }
    }
    (log, found)
}

/// There are enough seeds for one more round.
pub open spec fn has_seeds(rounds: int) -> bool {
    1 + rounds * BATCH <= u64::MAX - BATCH
}

/// The answers to the question whether to stop led to this number of rounds: before every round
/// the answer was no, and after the last one it was yes. Only where the seeds are used up is the
/// question not asked again.
pub open spec fn led_to(answers: Seq<bool>, rounds: int) -> bool {
    &&& 0 <= rounds <= answers.len() <= rounds + 1
    &&& forall|i: int| 0 <= i < rounds ==> !#[trigger] answers[i]
    &&& has_seeds(rounds) ==> answers.len() == rounds + 1
    &&& answers.len() == rounds + 1 ==> answers[rounds]
}

/// The answers leave no choice of how many rounds there are: there is one more for every answer
/// up to the first that says to stop.
pub proof fn lemma_led_to(answers: Seq<bool>, rounds: int, other: int)
    requires
        led_to(answers, rounds),
        has_seeds(rounds),
    ensures
        rounds == answers.len() - 1,
        answers[rounds],
        forall|i: int| 0 <= i < rounds ==> !#[trigger] answers[i],
        led_to(answers, other) ==> other == rounds,
{
    if led_to(answers, other) {
        if rounds < other {
            assert(!answers[rounds]);
        }
        if other < rounds {
            assert(!answers[other]);
        }
    }
}

/// The result is the best of what the rounds came to.
pub open spec fn is_best_try(
    specs: Seq<ElementType>,
    stock: Seq<u32>,
    beam: nat,
    w: int,
    h: int,
    plans: Seq<Plan>,
    rounds: int,
    result: Option<Layout>,
) -> bool {
    exists|tries: Seq<Option<Layout>>|
        #[trigger] are_tries(specs, stock, beam, w, h, plans, rounds, tries) && result
            == best_so_far(None, tries, tries.len() as int)
}

/// The result is the best of what some number of rounds came to.
pub open spec fn is_best_of_rounds(
    specs: Seq<ElementType>,
    stock: Seq<u32>,
    beam: nat,
    w: int,
    h: int,
    plans: Seq<Plan>,
    result: Option<Layout>,
) -> bool {
    exists|rounds: int| #[trigger]
        is_best_try(specs, stock, beam, w, h, plans, rounds, result)
}

/// The first layout is better: it places more pieces, or as many and covers more.
pub open spec fn is_better(a: Layout, b: Layout) -> bool {
    a.tiles.len() > b.tiles.len() || (a.tiles.len() == b.tiles.len() && a.area > b.area)
}

/// More pieces are always better. Of layouts with as many pieces the one that covers more is, and
/// of two layouts neither is better only if they place as many pieces and cover as much.
pub proof fn lemma_better(a: Layout, b: Layout)
    ensures
        a.tiles.len() > b.tiles.len() ==> is_better(a, b) && !is_better(b, a),
        a.tiles.len() == b.tiles.len() && a.area > b.area ==> is_better(a, b) && !is_better(b, a),
        a.tiles.len() == b.tiles.len() && a.area == b.area ==> !is_better(a, b),
{
}

/// The better one of what there is and what was found. What there is counts if both are as
/// good.
pub open spec fn better_of(best: Option<Layout>, found: Option<Layout>) -> Option<Layout> {
    match found {
        None => best,
        Some(f) => match best {
            None => Some(f),
            Some(b) => if is_better(f, b) {
                Some(f)
            } else {
                Some(b)
            },
        },
    }
}

/// The best one of what there is and the first `n` of what was found.
pub open spec fn best_so_far(best: Option<Layout>, found: Seq<Option<Layout>>, n: int) -> Option<
    Layout,
>
    decreases n,
{
    if n <= 0 {
        best
    } else {
        better_of(best_so_far(best, found, n - 1), found[n - 1])
    }
}

/// The best one is one of those that it was chosen from, and none of them is better.
pub proof fn lemma_best_so_far(best: Option<Layout>, found: Seq<Option<Layout>>, n: int)
    requires
        0 <= n <= found.len(),
    ensures
        best_so_far(best, found, n) == best || exists|k: int|
            0 <= k < n && best_so_far(best, found, n) == #[trigger] found[k],
        best_so_far(best, found, n) is None <==> best is None && forall|k: int|
            0 <= k < n ==> #[trigger] found[k] is None,
        best is Some ==> !is_better(best.unwrap(), best_so_far(best, found, n).unwrap()),
        forall|k: int|
            0 <= k < n && #[trigger] found[k] is Some ==> !is_better(
                found[k].unwrap(),
                best_so_far(best, found, n).unwrap(),
            ),
    decreases n,
{
    if n > 0 {
        lemma_best_so_far(best, found, n - 1);
        assert(best_so_far(best, found, n) == better_of(
            best_so_far(best, found, n - 1),
            found[n - 1],
        ));
    }
}

/// Of what is equally good, the first counts: whatever comes before the best one is worse.
pub proof fn lemma_best_is_first(found: Seq<Option<Layout>>, n: int) -> (k: int)
    requires
        0 <= n <= found.len(),
        best_so_far(None, found, n) is Some,
    ensures
        0 <= k < n,
        best_so_far(None, found, n) == found[k],
        forall|j: int|
            0 <= j < k && #[trigger] found[j] is Some ==> is_better(
                found[k].unwrap(),
                found[j].unwrap(),
            ),
    decreases n,
{
    let before = best_so_far(None, found, n - 1);
    if n == 0 {
        0
    } else if best_so_far(None, found, n) == before && before is Some {
        lemma_best_is_first(found, n - 1)
    } else {
        lemma_best_so_far(None, found, n - 1);
        assert forall|j: int| 0 <= j < n - 1 && #[trigger] found[j] is Some implies is_better(
            found[n - 1].unwrap(),
            found[j].unwrap(),
        ) by {
            assert(!is_better(found[j].unwrap(), before.unwrap()));
        }
        n - 1
    }
}

/// The best of two lists, one after the other, is the best of both together.
proof fn lemma_best_concat(
    best: Option<Layout>,
    a: Seq<Option<Layout>>,
    b: Seq<Option<Layout>>,
    n: int,
)
    requires
        0 <= n <= b.len(),
    ensures
        best_so_far(best, a + b, a.len() + n) == best_so_far(
            best_so_far(best, a, a.len() as int),
            b,
            n,
        ),
    decreases n,
{
    if n > 0 {
        lemma_best_concat(best, a, b, n - 1);
        assert((a + b)[a.len() + n - 1] == b[n - 1]);
    } else {
        lemma_best_prefix(best, a, b, a.len() as int);
    }
}

proof fn lemma_best_prefix(
    best: Option<Layout>,
    a: Seq<Option<Layout>>,
    b: Seq<Option<Layout>>,
    n: int,
)
    requires
        0 <= n <= a.len(),
    ensures
        best_so_far(best, a + b, n) == best_so_far(best, a, n),
    decreases n,
{
    if n > 0 {
        lemma_best_prefix(best, a, b, n - 1);
        assert((a + b)[n - 1] == a[n - 1]);
    }
}

/// One more round: its tries go on where the seeds of the rounds before ended.
proof fn lemma_more_tries(
    source: Source,
    specs: Seq<ElementType>,
    stock: Seq<u32>,
    beam: nat,
    w: int,
    h: int,
    plans: Seq<Plan>,
    rounds: int,
    tries: Seq<Option<Layout>>,
    found: Seq<Option<Layout>>,
)
    requires
        plans.len() > 0,
        are_tries(specs, stock, beam, w, h, plans, rounds, tries),
        has_seeds(rounds),
        found.len() == BATCH * plans.len(),
        forall|k: int|
            0 <= k < found.len() ==> (#[trigger] found[k] matches Some(layout) ==> is_try(
                specs,
                stock,
                beam,
                w,
                h,
                plans,
                (1 + rounds * BATCH + k / (plans.len() as int)) as u64,
                k % (plans.len() as int),
                layout,
            )),
        all_tried(source, specs, stock, beam, w, h, plans, tries),
        forall|k: int|
            0 <= k < found.len() ==> was_tried(
                source,
                Setting {
                    specs,
                    stock,
                    beam,
                    seed: (1 + rounds * BATCH + k / (plans.len() as int)) as u64,
                },
                w,
                h,
                plans[k % (plans.len() as int)],
                #[trigger] found[k],
            ),
    ensures
        are_tries(specs, stock, beam, w, h, plans, rounds + 1, tries + found),
        all_tried(source, specs, stock, beam, w, h, plans, tries + found),
{
    let n = plans.len() as int;
    let all = tries + found;
    let seen = rounds * BATCH;
    assert((rounds + 1) * BATCH * n == rounds * BATCH * n + BATCH * n) by (nonlinear_arith);
    assert forall|k: int| 0 <= k < all.len() implies (#[trigger] all[k] matches Some(layout)
        ==> is_try(
        specs,
        stock,
        beam,
        w,
        h,
        plans,
        (1 + k / n) as u64,
        k % n,
        layout,
    )) && was_tried(
        source,
        Setting { specs, stock, beam, seed: (1 + k / n) as u64 },
        w,
        h,
        plans[k % n],
        all[k],
    ) by {
        if k < tries.len() {
            assert(all[k] == tries[k]);
        } else {
            let j = k - tries.len();
            assert(all[k] == found[j]);
            assert(k == seen * n + j);
            assert(k / n == seen + j / n && k % n == j % n) by (nonlinear_arith)
                requires
                    k == seen * n + j,
                    n > 0,
                    j >= 0,
                    seen >= 0,
            ;
        }
    }
}

/// What is found in any number of rounds starts with one of the plans.
proof fn lemma_best_try_forced(
    specs: Seq<ElementType>,
    stock: Seq<u32>,
    beam: nat,
    w: int,
    h: int,
    plans: Seq<Plan>,
    rounds: int,
    result: Option<Layout>,
)
    requires
        is_best_try(specs, stock, beam, w, h, plans, rounds, result),
    ensures
        result matches Some(layout) ==> is_forced(specs, stock, beam, w, h, plans, layout),
        rounds == 0 ==> result is None,
{
    let tries = choose|tries: Seq<Option<Layout>>|
        #[trigger] are_tries(specs, stock, beam, w, h, plans, rounds, tries) && result
            == best_so_far(None, tries, tries.len() as int);
    lemma_best_so_far(None, tries, tries.len() as int);
    if rounds == 0 {
        let n = plans.len();
        assert(0 * BATCH * n == 0) by (nonlinear_arith);
    }
    if result is Some {
        let k = choose|k: int| 0 <= k < tries.len() && result == #[trigger] tries[k];
        let n = plans.len() as int;
        assert(is_try(
            specs,
            stock,
            beam,
            w,
            h,
            plans,
            (1 + k / n) as u64,
            k % n,
            result.unwrap(),
        ));
    }
}

/// Whatever comes of a search that starts with a piece, the piece lies in the corner.
pub proof fn lemma_forced_corner(s: Setting, w: int, h: int, plan: Plan, layout: Layout)
    requires
        is_outcome(s, w, h, plan, layout),
    ensures
        layout.tiles.len() > 0,
        layout.tiles[0] == s.specs[plan.kind].tile(0, 0, plan.rotated),
{
}

/// The plans that start with the given kinds can be carried out.
proof fn lemma_forced_plans(
    specs: Seq<ElementType>,
    w: int,
    h: int,
    forced: Seq<int>,
    n: int,
)
    requires
        0 <= n <= forced.len(),
        forall|k: int| 0 <= k < forced.len() ==> 0 <= #[trigger] forced[k] < specs.len(),
    ensures
        forall|k: int|
            0 <= k < forced_plans(specs, w, h, forced, n).len() ==> {
                let plan = #[trigger] forced_plans(specs, w, h, forced, n)[k];
                &&& 0 <= plan.kind < specs.len()
                &&& forced.contains(plan.kind)
                &&& fits(specs[plan.kind], plan.rotated, w, h)
            },
    decreases n,
{
    if n > 0 {
        lemma_forced_plans(specs, w, h, forced, n - 1);
        let kind = forced[n - 1];
        let before = forced_plans(specs, w, h, forced, n - 1);
        let straight = both_cuts(specs, w, h, kind, false);
        let turned = both_cuts(specs, w, h, kind, true);
        let all = forced_plans(specs, w, h, forced, n);
        assert(all == before + straight + turned);
        assert(0 <= forced[n - 1] < specs.len());
        assert forall|k: int| 0 <= k < all.len() implies ({
            let plan = #[trigger] all[k];
            &&& 0 <= plan.kind < specs.len()
            &&& forced.contains(plan.kind)
            &&& fits(specs[plan.kind], plan.rotated, w, h)
        }) by {
            if k < before.len() {
                assert(all[k] == before[k]);
            } else if k < before.len() + straight.len() {
                assert(all[k] == straight[k - before.len()]);
            } else {
                assert(all[k] == turned[k - before.len() - straight.len()]);
            }
        }
    }
}

/// Every kind to be forced is tried in each way in which it fits, with both cuts, and nothing
/// else is. A square is not turned.
pub proof fn lemma_forced_plans_complete(
    specs: Seq<ElementType>,
    w: int,
    h: int,
    forced: Seq<int>,
    n: int,
    plan: Plan,
)
    requires
        0 <= n <= forced.len(),
    ensures
        forced_plans(specs, w, h, forced, n).contains(plan) <==> {
            let e = specs[plan.kind];
            &&& exists|i: int| 0 <= i < n && #[trigger] forced[i] == plan.kind
            &&& if plan.rotated {
                e.height <= w && e.width <= h && e.width != e.height
            } else {
                e.width <= w && e.height <= h
            }
        },
    decreases n,
{
    if n > 0 {
        lemma_forced_plans_complete(specs, w, h, forced, n - 1, plan);
        let kind = forced[n - 1];
        let before = forced_plans(specs, w, h, forced, n - 1);
        let straight = both_cuts(specs, w, h, kind, false);
        let turned = both_cuts(specs, w, h, kind, true);
        let all = forced_plans(specs, w, h, forced, n);
        assert(all == before + straight + turned);
        let e = specs[plan.kind];
        let goes = if plan.rotated {
            e.height <= w && e.width <= h && e.width != e.height
        } else {
            e.width <= w && e.height <= h
        };
        if all.contains(plan) {
            let k = choose|k: int| 0 <= k < all.len() && all[k] == plan;
            if k < before.len() {
                assert(before[k] == plan);
            } else {
                assert(forced[n - 1] == plan.kind);
            }
        }
        if (exists|i: int| 0 <= i < n && #[trigger] forced[i] == plan.kind) && goes {
            let i = choose|i: int| 0 <= i < n && #[trigger] forced[i] == plan.kind;
            if i < n - 1 {
                let k = choose|k: int| 0 <= k < before.len() && before[k] == plan;
                assert(all[k] == plan);
            } else {
                let j: int = if plan.vertical {
                    0
                } else {
                    1
                };
                let start = if plan.rotated {
                    before.len() + straight.len()
                } else {
                    before.len()
                };
                assert(all[start as int + j] == plan);
            }
        }
    }
}

/// Appends both directions to cut in beside a piece, if it fits.
fn add_cuts(
    steps: &mut Vec<Step>,
    page_w: u32,
    page_h: u32,
    specs: &[ElementType],
    index: usize,
    rotated: bool,
)
    requires
        index < specs.len(),
        forall|k: int| 0 <= k < old(steps).len() ==> is_sized_step(#[trigger] old(steps)[k], specs@),
    ensures
        plans_of(final(steps)@) == plans_of(old(steps)@) + both_cuts(
            specs@,
            page_w as int,
            page_h as int,
            index as int,
            rotated,
        ),
        forall|k: int|
            0 <= k < final(steps).len() ==> is_sized_step(#[trigger] final(steps)[k], specs@),
{
    let ghost before = steps@;
    let spec = &specs[index];
    let width: u32 = if rotated {
        spec.height
    } else {
        spec.width
    };
    let height: u32 = if rotated {
        spec.width
    } else {
        spec.height
    };
    if width <= page_w && height <= page_h && !(rotated && spec.width == spec.height) {
        steps.push(Step { index, width, height, rotated, vertical: true });
        steps.push(Step { index, width, height, rotated, vertical: false });
    }
    assert(plans_of(steps@) =~= plans_of(before) + both_cuts(
        specs@,
        page_w as int,
        page_h as int,
        index as int,
        rotated,
    ));
}

/// The steps that start with one of the given kinds.
pub fn list_forced(
    page_w: u32,
    page_h: u32,
    specs: &[ElementType],
    forced_indices: &[usize],
) -> (steps: Vec<Step>)
    requires
        forall|k: int| 0 <= k < forced_indices.len() ==> #[trigger] forced_indices[k] < specs.len(),
    ensures
        plans_of(steps@) == forced_plans(
            specs@,
            page_w as int,
            page_h as int,
            indices(forced_indices@),
            forced_indices.len() as int,
        ),
        forall|k: int| 0 <= k < steps.len() ==> is_sized_step(#[trigger] steps[k], specs@),
{
    let mut steps: Vec<Step> = Vec::new();
    assert(plans_of(steps@) =~= seq![]);
    let mut i: usize = 0;
    while i < forced_indices.len()
        invariant
            i <= forced_indices.len(),
            forall|k: int|
                0 <= k < forced_indices.len() ==> #[trigger] forced_indices[k] < specs.len(),
            plans_of(steps@) == forced_plans(
                specs@,
                page_w as int,
                page_h as int,
                indices(forced_indices@),
                i as int,
            ),
            forall|k: int| 0 <= k < steps.len() ==> is_sized_step(#[trigger] steps[k], specs@),
        decreases forced_indices.len() - i,
    {
        let index: usize = forced_indices[i];
        add_cuts(&mut steps, page_w, page_h, specs, index, false);
        add_cuts(&mut steps, page_w, page_h, specs, index, true);
        i = i + 1;
    }
    steps
}

/// The better one of what there is and what was found.
pub fn take_better(best: Option<Solution>, found: Option<Solution>) -> (r: Option<Solution>)
    ensures
        layout_of(r) == better_of(layout_of(best), layout_of(found)),
        r == best || r == found,
{
    match found {
        None => best,
        Some(f) => match best {
            None => Some(f),
            Some(b) => {
                assert(f@.tiles.len() == f.items.len() && b@.tiles.len() == b.items.len());
                if improves(&f, &b) {
                    Some(f)
                } else {
                    Some(b)
                }
            },
        },
    }
}

/// Whether the first layout is better than the second.
pub fn improves(a: &Solution, b: &Solution) -> (r: bool)
    ensures
        r == is_better(a@, b@),
{
    assert(a@.tiles.len() == a.items.len() && b@.tiles.len() == b.items.len());
    a.items.len() > b.items.len() || (a.items.len() == b.items.len() && a.total_area
        > b.total_area)
}

/// Whether a layout is better than what there is, if there is anything.
pub fn is_record(a: &Solution, best: &Option<Solution>) -> (r: bool)
    ensures
        r == (match *best {
            Some(b) => is_better(a@, b@),
            None => true,
        }),
{
    match best {
        Some(b) => improves(a, b),
        None => true,
    }
}

/// The layouts that a list of solutions stands for.
pub open spec fn layouts_of(list: Seq<Option<Solution>>) -> Seq<Option<Layout>> {
    list.map_values(|r: Option<Solution>| layout_of(r))
}

/// The best one of what there is and all that was found.
pub fn take_best(best: Option<Solution>, found: Vec<Option<Solution>>) -> (r: Option<Solution>)
    ensures
        layout_of(r) == best_so_far(layout_of(best), layouts_of(found@), found.len() as int),
{
    let ghost start = layout_of(best);
    let ghost all = layouts_of(found@);
    let mut r = best;
    for one in it: found
        invariant
            it.seq() == found@,
            all == layouts_of(found@),
            layout_of(r) == best_so_far(start, all, it.index() as int),
    {
        assert(layout_of(one) == all[it.index() as int]);
        r = take_better(r, one);
    }
    r
}

/// Whether a layout of `placed` pieces has all pieces.
fn has_all(placed: usize, total_items: u32) -> (r: bool)
    ensures
        r == (placed == total_items),
{
    placed as u64 == total_items as u64
}

/// Follows a step on a fresh sheet with a fresh memory, unless the time is up or nothing better
/// is needed. Where all pieces get a place in a layout that is better than the best one of the
/// rounds before, all searches are told.
fn try_step(
    page_w: u32,
    page_h: u32,
    specs: &[ElementType],
    full_counts: &[u32],
    step: Step,
    beam_width: usize,
    seed: u64,
    total_items: u32,
    best: &Option<Solution>,
    signals: &Signals,
    control: &mut Control,
) -> (r: Option<Solution>)
    requires
        in_range(specs@, full_counts@, page_w as int, page_h as int),
        is_sized_step(step, specs@),
        full_counts[step.index as int] > 0,
        step.width <= page_w,
        step.height <= page_h,
    ensures
        extends(old(control).polls(), final(control).polls()),
        final(control).timeout() == old(control).timeout(),
        final(control).source() == old(control).source(),
        ({
            let s = Setting {
                specs: specs@,
                stock: full_counts@,
                beam: beam_width as nat,
                seed,
            };
            let polls = final(control).polls();
            let at = old(control).polls().len() as int;
            let run = followed(
                s,
                page_w as int,
                page_h as int,
                full_counts@,
                0,
                step@,
                Map::<MemoKey, Layout>::empty(),
                polls,
                at + 1,
            );
            &&& polls.len() > at
            &&& polls[at] ==> r is None && polls.len() == at + 1
            &&& !polls[at] ==> layout_of(r) == run.result && polls.len() == run.at
            &&& at == 0 ==> is_tried(
                final(control).log(),
                s,
                page_w as int,
                page_h as int,
                step@,
                layout_of(r),
            )
            &&& r matches Some(found) ==> is_sound(
                s,
                page_w as int,
                page_h as int,
                full_counts@,
                found@,
            )
        }),
{
    if control.poll_start() {
        return None;
    }
    let mut memo = MemoCache::new(specs, full_counts);
    let found = follow_step(
        page_w,
        page_h,
        full_counts,
        specs,
        &mut memo,
        0,
        control,
        beam_width,
        seed,
        step,
    );
    match &found {
        Some(solution) => {
            if has_all(solution.items.len(), total_items) && is_record(solution, best) {
                signals.mark_found();
            }
        },
        None => {},
    }
    found
}

/// Every seed from `base` on, `BATCH` of them, with every one of `n` steps.
fn list_jobs(base: u64, n: usize) -> (jobs: Vec<(u64, usize)>)
    requires
        base <= u64::MAX - BATCH,
    ensures
        jobs.len() == BATCH * n,
        forall|k: int|
            0 <= k < jobs.len() ==> (#[trigger] jobs[k]).0 == base + k / (n as int) && jobs[k].1
                == k % (n as int),
{
    let mut jobs: Vec<(u64, usize)> = Vec::new();
    let mut i: u64 = 0;
    while i < BATCH
        invariant
            i <= BATCH,
            base <= u64::MAX - BATCH,
            jobs.len() == i * n,
            forall|k: int|
                0 <= k < jobs.len() ==> (#[trigger] jobs[k]).0 == base + k / (n as int)
                    && jobs[k].1 == k % (n as int),
        decreases BATCH - i,
    {
        let mut j: usize = 0;
        while j < n
            invariant
                i < BATCH,
                j <= n,
                base <= u64::MAX - BATCH,
                jobs.len() == i * n + j,
                forall|k: int|
                    0 <= k < jobs.len() ==> (#[trigger] jobs[k]).0 == base + k / (n as int)
                        && jobs[k].1 == k % (n as int),
            decreases n - j,
        {
            proof {
                let at = i * n + j;
                assert(at / (n as int) == i && at % (n as int) == j) by (nonlinear_arith)
                    requires
                        at == i * n + j,
                        0 <= j < n,
                        0 <= i,
                ;
            }
            jobs.push((base + i, j));
            j = j + 1;
        }
        proof {
            assert((i + 1) * n == i * n + n) by (nonlinear_arith);
        }
        i = i + 1;
    }
    jobs
}

/// A step that can be followed on the whole sheet with the given pieces.
pub open spec fn can_follow(
    step: Step,
    specs: Seq<ElementType>,
    counts: Seq<u32>,
    page_w: u32,
    page_h: u32,
) -> bool {
    &&& is_sized_step(step, specs)
    &&& counts[step.index as int] > 0
    &&& step.width <= page_w
    &&& step.height <= page_h
}

/// Tries the given steps with one seed after the other, on as many threads as there are, until
/// the control says to stop before another round. Each try has time until `deadline_seconds`
/// after `start`. Returns the best layout.
pub fn force_rounds(
    page_w: u32,
    page_h: u32,
    specs: &[ElementType],
    full_counts: &[u32],
    steps: &Vec<Step>,
    beam_width: usize,
    deadline_seconds: u64,
    signals: &Signals,
    start: &Instant,
    control: &mut Control,
) -> (r: Option<Solution>)
    requires
        in_range(specs@, full_counts@, page_w as int, page_h as int),
        steps.len() > 0,
        forall|k: int|
            0 <= k < steps.len() ==> can_follow(
                #[trigger] steps[k],
                specs@,
                full_counts@,
                page_w,
                page_h,
            ),
    ensures
        extends(old(control).polls(), final(control).polls()),
        final(control).timeout() == old(control).timeout(),
        final(control).source() == old(control).source(),
        exists|rounds: int|
            {
                &&& #[trigger] is_best_try(
                    specs@,
                    full_counts@,
                    beam_width as nat,
                    page_w as int,
                    page_h as int,
                    plans_of(steps@),
                    rounds,
                    layout_of(r),
                )
                &&& is_best_made(
                    (Source {
                        signals: *signals,
                        start: *start,
                        timeout: (deadline_seconds * 1_000_000_000) as nat,
                    }),
                    specs@,
                    full_counts@,
                    beam_width as nat,
                    page_w as int,
                    page_h as int,
                    plans_of(steps@),
                    rounds,
                    layout_of(r),
                )
                &&& led_to(final(control).polls().skip(old(control).polls().len() as int), rounds)
            },
        old(control).timeout() == 0 ==> r is None,
{
    let ghost w = page_w as int;
    let ghost h = page_h as int;
    let ghost plans = plans_of(steps@);
    let ghost before = control.polls();
    let ghost source = Source {
        signals: *signals,
        start: *start,
        timeout: (deadline_seconds * 1_000_000_000) as nat,
    };
    let total_items: u32 = sum_counts(full_counts);
    let mut best: Option<Solution> = None;
    let mut seed_base: u64 = 1;
    let ghost mut rounds: int = 0;
    let ghost mut tries: Seq<Option<Layout>> = Seq::empty();
    proof {
        let n = plans.len();
        assert(0 * BATCH * n == 0) by (nonlinear_arith);
    }
    while seed_base <= u64::MAX - BATCH
        invariant_except_break
            control.polls().len() == before.len() + rounds,
        invariant
            w == page_w,
            h == page_h,
            before == old(control).polls(),
            plans == plans_of(steps@),
            steps.len() > 0,
            in_range(specs@, full_counts@, w, h),
            forall|k: int|
                0 <= k < steps.len() ==> can_follow(
                    #[trigger] steps[k],
                    specs@,
                    full_counts@,
                    page_w,
                    page_h,
                ),
            0 <= rounds,
            seed_base == 1 + rounds * BATCH,
            extends(before, control.polls()),
            control.timeout() == old(control).timeout(),
            control.source() == old(control).source(),
            before.len() + rounds <= control.polls().len() <= before.len() + rounds + 1,
            forall|i: int|
                before.len() <= i < before.len() + rounds ==> !#[trigger] control.polls()[i],
            rounds > 0 ==> old(control).timeout() > 0,
            are_tries(specs@, full_counts@, beam_width as nat, w, h, plans, rounds, tries),
            source == (Source {
                signals: *signals,
                start: *start,
                timeout: (deadline_seconds * 1_000_000_000) as nat,
            }),
            all_tried(source, specs@, full_counts@, beam_width as nat, w, h, plans, tries),
            layout_of(best) == best_so_far(None, tries, tries.len() as int),
        ensures
            has_seeds(rounds) ==> control.polls().len() == before.len() + rounds + 1,
            control.polls().len() == before.len() + rounds + 1 ==> control.polls()[before.len()
                + rounds],
        decreases u64::MAX - seed_base,
    {
        if control.poll_round() {
            break;
        }
        let jobs = list_jobs(seed_base, steps.len());
        let run = |job: &(u64, usize)| -> (out: Option<Solution>)
            requires
                job.0 >= 1,
                job.1 < steps@.len(),
            ensures
                out matches Some(found) ==> is_try(
                    specs@,
                    full_counts@,
                    beam_width as nat,
                    page_w as int,
                    page_h as int,
                    plans_of(steps@),
                    job.0,
                    job.1 as int,
                    found@,
                ),
                was_tried(
                    (Source {
                        signals: *signals,
                        start: *start,
                        timeout: (deadline_seconds * 1_000_000_000) as nat,
                    }),
                    (Setting {
                        specs: specs@,
                        stock: full_counts@,
                        beam: beam_width as nat,
                        seed: job.0,
                    }),
                    page_w as int,
                    page_h as int,
                    plans_of(steps@)[job.1 as int],
                    layout_of(out),
                ),
            {
                let mut own = Control::new(signals, start, deadline_seconds);
                try_step(
                    page_w,
                    page_h,
                    specs,
                    full_counts,
                    steps[job.1],
                    beam_width,
                    job.0,
                    total_items,
                    &best,
                    signals,
                    &mut own,
                )
            };
        assert forall|k: int| 0 <= k < jobs.len() implies call_requires(
            run,
            (&#[trigger] jobs[k],),
        ) by {
            let n = steps.len() as int;
            assert(0 <= k % n < n && k / n >= 0) by (nonlinear_arith)
                requires
                    n > 0,
                    k >= 0,
            ;
        }
        let results = map_in_parallel(&jobs, run);
        let ghost found = layouts_of(results@);
        proof {
            assert forall|k: int| 0 <= k < found.len() implies (#[trigger] found[k] matches Some(
                layout,
            ) ==> is_try(
                specs@,
                full_counts@,
                beam_width as nat,
                w,
                h,
                plans,
                (1 + rounds * BATCH + k / (plans.len() as int)) as u64,
                k % (plans.len() as int),
                layout,
            )) by {
                assert(jobs[k].0 == 1 + rounds * BATCH + k / (plans.len() as int));
                assert(layout_of(results[k]) == found[k]);
            }
            assert forall|k: int| 0 <= k < found.len() implies was_tried(
                source,
                Setting {
                    specs: specs@,
                    stock: full_counts@,
                    beam: beam_width as nat,
                    seed: (1 + rounds * BATCH + k / (plans.len() as int)) as u64,
                },
                w,
                h,
                plans[k % (plans.len() as int)],
                #[trigger] found[k],
            ) by {
                assert(jobs[k].0 == 1 + rounds * BATCH + k / (plans.len() as int));
                assert(layout_of(results[k]) == found[k]);
            }
            lemma_more_tries(
                source,
                specs@,
                full_counts@,
                beam_width as nat,
                w,
                h,
                plans,
                rounds,
                tries,
                found,
            );
            lemma_best_concat(None, tries, found, found.len() as int);
        }
        best = take_best(best, results);
        proof {
            tries = tries + found;
            assert((rounds + 1) * BATCH == rounds * BATCH + BATCH) by (nonlinear_arith);
            rounds = rounds + 1;
        }
        seed_base = seed_base + BATCH;
    }
    proof {
        let answers = control.polls().skip(before.len() as int);
        assert forall|i: int| 0 <= i < rounds implies !#[trigger] answers[i] by {
            assert(!control.polls()[before.len() + i]);
        }
        assert(led_to(answers, rounds));
        assert(is_best_made(
            source,
            specs@,
            full_counts@,
            beam_width as nat,
            w,
            h,
            plans,
            rounds,
            layout_of(best),
        ));
        assert(is_best_try(
            specs@,
            full_counts@,
            beam_width as nat,
            w,
            h,
            plans,
            rounds,
            layout_of(best),
        ));
        lemma_best_try_forced(
            specs@,
            full_counts@,
            beam_width as nat,
            w,
            h,
            plans,
            rounds,
            layout_of(best),
        );
    }
    best
}

/// Places hard pieces: each of the given kinds is put into the corner of the sheet in each way
/// that it fits, and the rest of the sheet is searched with one seed after the other, until the
/// time is up or all pieces have a place. Returns the best layout, which depends on how far the
/// searches get. There is none where none of the pieces fits.
pub fn goal_driven_forced(
    page_w: u32,
    page_h: u32,
    specs: &[ElementType],
    full_counts: &[u32],
    forced_indices: &[usize],
    beam_width: usize,
    deadline_seconds: u64,
    signals: &Signals,
) -> (r: Option<Solution>)
    requires
        total(full_counts@) <= u32::MAX,
        forall|k: int| 0 <= k < forced_indices.len() ==> #[trigger] forced_indices[k] < specs.len(),
        forced_plans(
            specs@,
            page_w as int,
            page_h as int,
            indices(forced_indices@),
            forced_indices.len() as int,
        ).len() > 0 ==> in_range(specs@, full_counts@, page_w as int, page_h as int) && forall|
            k: int,
        |
            0 <= k < forced_indices.len() ==> full_counts[#[trigger] forced_indices[k] as int] > 0,
    ensures
        ({
            let plans = forced_plans(
                specs@,
                page_w as int,
                page_h as int,
                indices(forced_indices@),
                forced_indices.len() as int,
            );
            &&& plans.len() == 0 || deadline_seconds == 0 ==> r is None
            &&& plans.len() > 0 ==> is_best_of_rounds(
                specs@,
                full_counts@,
                beam_width as nat,
                page_w as int,
                page_h as int,
                plans,
                layout_of(r),
            )
            &&& plans.len() > 0 ==> is_best_in_time(
                *signals,
                deadline_seconds,
                specs@,
                full_counts@,
                beam_width as nat,
                page_w as int,
                page_h as int,
                plans,
                layout_of(r),
            )
            &&& r matches Some(found) ==> is_forced(
                specs@,
                full_counts@,
                beam_width as nat,
                page_w as int,
                page_h as int,
                plans,
                found@,
            )
        }),
{
    let ghost w = page_w as int;
    let ghost h = page_h as int;
    let steps = list_forced(page_w, page_h, specs, forced_indices);
    let ghost plans = plans_of(steps@);
    if steps.len() == 0 {
        return None;
    }
    proof {
        lemma_forced_plans(specs@, w, h, indices(forced_indices@), forced_indices.len() as int);
        assert forall|k: int| 0 <= k < steps.len() implies ({
            let step = #[trigger] steps[k];
            can_follow(step, specs@, full_counts@, page_w, page_h)
        }) by {
            let plan = plans[k];
            let kinds = indices(forced_indices@);
            assert(kinds.contains(plan.kind));
            let i = choose|i: int| 0 <= i < kinds.len() && kinds[i] == plan.kind;
            assert(full_counts[forced_indices[i] as int] > 0);
        }
    }
    signals.reopen();
    let start = now();
    let mut control = Control::new(signals, &start, deadline_seconds);
    let best = force_rounds(
        page_w,
        page_h,
        specs,
        full_counts,
        &steps,
        beam_width,
        deadline_seconds,
        signals,
        &start,
        &mut control,
    );
    proof {
        let rounds = choose|rounds: int|
            {
                &&& #[trigger] is_best_try(
                    specs@,
                    full_counts@,
                    beam_width as nat,
                    w,
                    h,
                    plans,
                    rounds,
                    layout_of(best),
                )
                &&& is_best_made(
                    control.source(),
                    specs@,
                    full_counts@,
                    beam_width as nat,
                    w,
                    h,
                    plans,
                    rounds,
                    layout_of(best),
                )
                &&& led_to(control.polls().skip(0), rounds)
            };
        assert(control.polls().skip(0) =~= control.polls());
        assert(led_to(control.log().polls(), rounds));
        lemma_best_try_forced(
            specs@,
            full_counts@,
            beam_width as nat,
            w,
            h,
            plans,
            rounds,
            layout_of(best),
        );
    }
    signals.expire();
    best
}

} // verus!
