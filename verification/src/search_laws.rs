//! What a beam search leaves and what it takes.

use crate::candidates::{
    beam_at, fits, has_move, lemma_beam, lemma_lineup, lemma_offers, lineup, offers, Move,
};
use crate::layout::{
    blank, first_part, joined, lemma_accounted_within, lemma_area_joined, realises, second_part,
    CutTree, Layout,
};
use crate::memo::{memo_key, tells_apart, MemoKey};
use crate::pieces::{lemma_less_one, lemma_total_within, less_one, total, within, ElementType, Tile};
use crate::search::{
    deeper, explored, followed, is_part, is_plan, is_sound_memo, lemma_explored_grows,
    lemma_explored_sound, lemma_followed_finds, lemma_followed_grows, lemma_node_plans,
    lemma_parts, lemma_search_grows, lemma_search_sound, node_plans, plans, search, Plan,
    Setting,
};
use vstd::prelude::*;

verus! {

/// No piece that is left fits into a `w` by `h` part, neither as it is nor turned.
pub open spec fn none_fits(
    specs: Seq<ElementType>,
    remaining: Seq<u32>,
    w: int,
    h: int,
) -> bool {
    forall|i: int|
        0 <= i < specs.len() && remaining[i] > 0 ==> {
            let e = #[trigger] specs[i];
            &&& e.width > w || e.height > h
            &&& e.height > w || e.width > h
        }
}

/// Into no part of a `w` by `h` sheet that a plan of cuts leaves empty does a piece fit that is
/// left.
pub open spec fn leaves_no_room(
    tree: CutTree,
    specs: Seq<ElementType>,
    w: int,
    h: int,
    remaining: Seq<u32>,
) -> bool
    decreases tree,
{
    match tree {
        CutTree::Leave => none_fits(specs, remaining, w, h),
        CutTree::Cut { kind, rotated, vertical, first, second } => {
            let pw = specs[kind].wide(rotated);
            let ph = specs[kind].high(rotated);
            let a = first_part(w, h, pw, ph, vertical);
            let b = second_part(w, h, pw, ph, vertical);
            &&& leaves_no_room(*first, specs, a.w, a.h, remaining)
            &&& leaves_no_room(*second, specs, b.w, b.h, remaining)
        },
    }
}

/// The layout can be cut with cuts from edge to edge such that none of the pieces that it leaves
/// fits into a part that it leaves empty.
pub open spec fn has_no_room(specs: Seq<ElementType>, w: int, h: int, layout: Layout) -> bool {
    exists|tree: CutTree| #[trigger]
        realises(tree, specs, w, h, layout) && leaves_no_room(
            tree,
            specs,
            w,
            h,
            layout.remaining,
        )
}

/// Every layout that is remembered has no room for what it leaves.
pub open spec fn memo_has_no_room(specs: Seq<ElementType>, memo: Map<MemoKey, Layout>) -> bool {
    forall|key: MemoKey| #[trigger]
        memo.contains_key(key) ==> has_no_room(
            specs,
            key.width as int,
            key.height as int,
            memo[key],
        )
}

/// Every piece in the stock has an area.
pub open spec fn stock_has_area(specs: Seq<ElementType>, stock: Seq<u32>) -> bool {
    forall|i: int|
        0 <= i < specs.len() && stock[i] > 0 ==> (#[trigger] specs[i]).width > 0
            && specs[i].height > 0
}

/// Where there is no room for some pieces, there is none for fewer.
proof fn lemma_no_room_for_fewer(
    tree: CutTree,
    specs: Seq<ElementType>,
    w: int,
    h: int,
    many: Seq<u32>,
    few: Seq<u32>,
)
    requires
        leaves_no_room(tree, specs, w, h, many),
        within(few, many),
        specs.len() <= many.len(),
    ensures
        leaves_no_room(tree, specs, w, h, few),
    decreases tree,
{
    match tree {
        CutTree::Leave => {
            assert forall|i: int| 0 <= i < specs.len() && few[i] > 0 implies {
                let e = #[trigger] specs[i];
                &&& e.width > w || e.height > h
                &&& e.height > w || e.width > h
            } by {
                assert(few[i] <= many[i]);
            }
        },
        CutTree::Cut { kind, rotated, vertical, first, second } => {
            let pw = specs[kind].wide(rotated);
            let ph = specs[kind].high(rotated);
            let a = first_part(w, h, pw, ph, vertical);
            let b = second_part(w, h, pw, ph, vertical);
            lemma_no_room_for_fewer(*first, specs, a.w, a.h, many, few);
            lemma_no_room_for_fewer(*second, specs, b.w, b.h, many, few);
        },
    }
}

/// Two layouts without room for what they leave, joined beside a piece, have none either.
pub proof fn lemma_no_room_joined(
    specs: Seq<ElementType>,
    w: int,
    h: int,
    plan: Plan,
    first: Layout,
    second: Layout,
)
    requires
        0 <= plan.kind < specs.len(),
        specs[plan.kind].wide(plan.rotated) <= w,
        specs[plan.kind].high(plan.rotated) <= h,
        within(second.remaining, first.remaining),
        specs.len() <= first.remaining.len(),
        ({
            let piece = specs[plan.kind].tile(0, 0, plan.rotated);
            let a = first_part(w, h, piece.w, piece.h, plan.vertical);
            let b = second_part(w, h, piece.w, piece.h, plan.vertical);
            has_no_room(specs, a.w, a.h, first) && has_no_room(specs, b.w, b.h, second)
        }),
    ensures
        has_no_room(
            specs,
            w,
            h,
            joined(specs[plan.kind].tile(0, 0, plan.rotated), plan.vertical, first, second),
        ),
{
    let piece = specs[plan.kind].tile(0, 0, plan.rotated);
    let a = first_part(w, h, piece.w, piece.h, plan.vertical);
    let b = second_part(w, h, piece.w, piece.h, plan.vertical);
    let t1 = choose|tree: CutTree| #[trigger]
        realises(tree, specs, a.w, a.h, first) && leaves_no_room(
            tree,
            specs,
            a.w,
            a.h,
            first.remaining,
        );
    let t2 = choose|tree: CutTree| #[trigger]
        realises(tree, specs, b.w, b.h, second) && leaves_no_room(
            tree,
            specs,
            b.w,
            b.h,
            second.remaining,
        );
    lemma_no_room_for_fewer(t1, specs, a.w, a.h, first.remaining, second.remaining);
    let tree = CutTree::Cut {
        kind: plan.kind,
        rotated: plan.rotated,
        vertical: plan.vertical,
        first: Box::new(t1),
        second: Box::new(t2),
    };
    lemma_area_joined(piece, plan.vertical, first.tiles, second.tiles);
    assert(realises(tree, specs, w, h, joined(piece, plan.vertical, first, second)));
}

/// A node without moves is one into which no piece fits.
proof fn lemma_no_moves(s: Setting, w: int, h: int, counts: Seq<u32>, depth: u32)
    requires
        is_part(s, w, h, counts),
        lineup(s.specs, counts, w, h, depth, s.seed).len() == 0,
    ensures
        none_fits(s.specs, counts, w, h),
{
    let n = s.specs.len() as int;
    lemma_lineup(s.specs, counts, w, h, depth, s.seed);
    lemma_offers(s.specs, counts, w, h, true, n);
    let all = offers(s.specs, counts, w, h, true, n);
    assert forall|i: int| 0 <= i < s.specs.len() && counts[i] > 0 implies {
        let e = #[trigger] s.specs[i];
        &&& e.width > w || e.height > h
        &&& e.height > w || e.width > h
    } by {
        if fits(s.specs[i], false, w, h) {
            assert(has_move(all, s.specs, i, false));
        }
        if fits(s.specs[i], true, w, h) {
            assert(has_move(all, s.specs, i, true));
        }
    }
}

/// A search that is not stopped leaves no part of the sheet empty into which a piece fits that it
/// leaves over, however deep the part lies. This is so where every piece has an area, at least
/// one move is followed at the top, the hash of the memory tells all counts apart, and what was
/// remembered before is of this kind too.
pub proof fn lemma_search_leaves_no_room(
    s: Setting,
    w: int,
    h: int,
    counts: Seq<u32>,
    memo: Map<MemoKey, Layout>,
    depth: u32,
    polls: Seq<bool>,
    at: int,
)
    requires
        is_part(s, w, h, counts),
        is_sound_memo(s, memo),
        memo_has_no_room(s.specs, memo),
        tells_apart(s.stock),
        stock_has_area(s.specs, s.stock),
        s.beam > 0,
        depth + total(counts) <= u32::MAX,
        forall|i: int|
            at <= i < search(s, w, h, counts, memo, depth, polls, at).at ==> !#[trigger] polls[i],
    ensures
        memo_has_no_room(s.specs, search(s, w, h, counts, memo, depth, polls, at).memo),
        search(s, w, h, counts, memo, depth, polls, at).result matches Some(layout)
            && has_no_room(s.specs, w, h, layout),
    decreases u32::MAX - depth, 2int, 0int,
{
    let key = memo_key(w, h, counts);
    lemma_search_grows(s, w, h, counts, memo, depth, polls, at);
    assert(!polls[at]);
    if depth > 1 && memo.contains_key(key) {
    } else if lineup(s.specs, counts, w, h, depth, s.seed).len() == 0 {
        lemma_no_moves(s, w, h, counts, depth);
        let tree = CutTree::Leave;
        assert(realises(tree, s.specs, w, h, blank(counts)));
        assert(leaves_no_room(tree, s.specs, w, h, counts));
    } else {
        let todo = node_plans(s, w, h, counts, depth);
        lemma_node_plans(s, w, h, counts, depth);
        lemma_beam(depth, s.beam);
        lemma_some_plans(s, w, h, counts, depth);
        lemma_explored_no_room(
            s,
            w,
            h,
            counts,
            depth,
            todo,
            todo.len() as int,
            memo,
            polls,
            at + 1,
        );
    }
}

/// Where there is a move, there is a plan.
proof fn lemma_some_plans(s: Setting, w: int, h: int, counts: Seq<u32>, depth: u32)
    requires
        is_part(s, w, h, counts),
        lineup(s.specs, counts, w, h, depth, s.seed).len() > 0,
        beam_at(depth, s.beam) > 0,
    ensures
        node_plans(s, w, h, counts, depth).len() > 0,
{
    let moves = lineup(s.specs, counts, w, h, depth, s.seed);
    let beam = beam_at(depth, s.beam);
    let n = if beam < moves.len() {
        beam as int
    } else {
        moves.len() as int
    };
    lemma_lineup(s.specs, counts, w, h, depth, s.seed);
    assert(plans(s.specs, w, h, moves, n).len() > 0);
}

proof fn lemma_explored_no_room(
    s: Setting,
    w: int,
    h: int,
    counts: Seq<u32>,
    depth: u32,
    todo: Seq<Plan>,
    n: int,
    memo: Map<MemoKey, Layout>,
    polls: Seq<bool>,
    at: int,
)
    requires
        is_part(s, w, h, counts),
        is_sound_memo(s, memo),
        memo_has_no_room(s.specs, memo),
        tells_apart(s.stock),
        stock_has_area(s.specs, s.stock),
        s.beam > 0,
        depth + total(counts) <= u32::MAX,
        0 <= n <= todo.len(),
        forall|k: int| 0 <= k < todo.len() ==> is_plan(s, w, h, counts, #[trigger] todo[k]),
        forall|i: int|
            at <= i < explored(s, w, h, counts, depth, todo, n, memo, polls, at).at
                ==> !#[trigger] polls[i],
    ensures
        ({
            let done = explored(s, w, h, counts, depth, todo, n, memo, polls, at);
            &&& memo_has_no_room(s.specs, done.memo)
            &&& n == 0 ==> done.best.area == 0 && !done.full
            &&& n > 0 ==> done.best.area > 0 && has_no_room(s.specs, w, h, done.best)
        }),
    decreases u32::MAX - depth, 1int, n,
{
    if n > 0 {
        lemma_explored_sound(s, w, h, counts, depth, todo, n - 1, memo, polls, at);
        lemma_explored_grows(s, w, h, counts, depth, todo, n - 1, memo, polls, at);
        let before = explored(s, w, h, counts, depth, todo, n - 1, memo, polls, at);
        let plan = todo[n - 1];
        lemma_followed_grows(s, w, h, counts, depth, plan, before.memo, polls, before.at);
        lemma_explored_no_room(s, w, h, counts, depth, todo, n - 1, memo, polls, at);
        assert(is_plan(s, w, h, counts, plan));
        if !before.full {
            lemma_followed_no_room(s, w, h, counts, depth, plan, before.memo, polls, before.at);
        }
    }
}

proof fn lemma_followed_no_room(
    s: Setting,
    w: int,
    h: int,
    counts: Seq<u32>,
    depth: u32,
    plan: Plan,
    memo: Map<MemoKey, Layout>,
    polls: Seq<bool>,
    at: int,
)
    requires
        is_part(s, w, h, counts),
        is_sound_memo(s, memo),
        memo_has_no_room(s.specs, memo),
        tells_apart(s.stock),
        stock_has_area(s.specs, s.stock),
        s.beam > 0,
        depth + total(counts) <= u32::MAX,
        is_plan(s, w, h, counts, plan),
        forall|i: int|
            at <= i < followed(s, w, h, counts, depth, plan, memo, polls, at).at
                ==> !#[trigger] polls[i],
    ensures
        memo_has_no_room(
            s.specs,
            followed(s, w, h, counts, depth, plan, memo, polls, at).memo,
        ),
        followed(s, w, h, counts, depth, plan, memo, polls, at).result matches Some(layout)
            && layout.area > 0 && has_no_room(s.specs, w, h, layout),
    decreases u32::MAX - depth, 0int, 0int,
{
    let piece = s.specs[plan.kind].tile(0, 0, plan.rotated);
    let a = first_part(w, h, piece.w, piece.h, plan.vertical);
    let b = second_part(w, h, piece.w, piece.h, plan.vertical);
    let rest = less_one(counts, plan.kind);
    lemma_less_one(counts, plan.kind);
    assert(depth < u32::MAX);
    lemma_parts(s, w, h, counts, plan);
    lemma_followed_finds(s, w, h, counts, depth, plan, memo, polls, at);
    let one = search(s, a.w, a.h, rest, memo, deeper(depth), polls, at);
    lemma_search_sound(s, a.w, a.h, rest, memo, deeper(depth), polls, at);
    lemma_search_grows(s, a.w, a.h, rest, memo, deeper(depth), polls, at);
    let first = one.result.unwrap();
    lemma_accounted_within(s.specs, a.w, a.h, rest, first);
    lemma_total_within(first.remaining, rest);
    lemma_search_grows(
        s,
        b.w,
        b.h,
        first.remaining,
        one.memo,
        deeper(depth),
        polls,
        one.at,
    );
    lemma_search_leaves_no_room(s, a.w, a.h, rest, memo, deeper(depth), polls, at);
    lemma_search_leaves_no_room(
        s,
        b.w,
        b.h,
        first.remaining,
        one.memo,
        deeper(depth),
        polls,
        one.at,
    );
    lemma_search_sound(
        s,
        b.w,
        b.h,
        first.remaining,
        one.memo,
        deeper(depth),
        polls,
        one.at,
    );
    let two = search(
        s,
        b.w,
        b.h,
        first.remaining,
        one.memo,
        deeper(depth),
        polls,
        one.at,
    );
    let second = two.result.unwrap();
    lemma_accounted_within(s.specs, b.w, b.h, first.remaining, second);
    lemma_no_room_joined(s.specs, w, h, plan, first, second);
    let spec = s.specs[plan.kind];
    assert(s.stock[plan.kind] > 0) by {
        assert(counts[plan.kind] <= s.stock[plan.kind]);
    }
    assert(spec.width * spec.height > 0) by (nonlinear_arith)
        requires
            spec.width > 0,
            spec.height > 0,
    ;
}

/// More moves only add plans behind those of the first moves.
pub proof fn lemma_plans_grow(
    specs: Seq<ElementType>,
    w: int,
    h: int,
    moves: Seq<Move>,
    few: int,
    many: int,
)
    requires
        0 <= few <= many,
    ensures
        plans(specs, w, h, moves, few).len() <= plans(specs, w, h, moves, many).len(),
        plans(specs, w, h, moves, few) == plans(specs, w, h, moves, many).take(
            plans(specs, w, h, moves, few).len() as int,
        ),
    decreases many,
{
    let a = plans(specs, w, h, moves, few);
    let b = plans(specs, w, h, moves, many);
    if few < many {
        lemma_plans_grow(specs, w, h, moves, few, many - 1);
        let before = plans(specs, w, h, moves, many - 1);
        assert(b.take(a.len() as int) =~= before.take(a.len() as int));
    } else {
        assert(b.take(a.len() as int) =~= b);
    }
}

/// The last of some moves is followed with a vertical cut and then with a horizontal one. A
/// piece as wide as the part has only the vertical cut, and else one as high as the part only the
/// horizontal one.
pub proof fn lemma_last_plans(
    specs: Seq<ElementType>,
    w: int,
    h: int,
    moves: Seq<Move>,
    n: int,
)
    requires
        n > 0,
    ensures
        ({
            let m = moves[n - 1];
            let e = specs[m.kind];
            let pw = if m.rotated {
                e.height
            } else {
                e.width
            };
            let ph = if m.rotated {
                e.width
            } else {
                e.height
            };
            let before = plans(specs, w, h, moves, n - 1);
            let across = Plan { kind: m.kind, rotated: m.rotated, vertical: false };
            let down = Plan { kind: m.kind, rotated: m.rotated, vertical: true };
            plans(specs, w, h, moves, n) == (if pw == w {
                before.push(down)
            } else if ph == h {
                before.push(across)
            } else {
                before.push(down).push(across)
            })
        }),
{
    let m = moves[n - 1];
    let before = plans(specs, w, h, moves, n - 1);
    let across = Plan { kind: m.kind, rotated: m.rotated, vertical: false };
    let down = Plan { kind: m.kind, rotated: m.rotated, vertical: true };
    let all = plans(specs, w, h, moves, n);
    assert(all =~= before.push(down) || all =~= before.push(across) || all =~= before.push(
        down,
    ).push(across));
}

/// Every move within the beam is followed: with both cuts, unless the piece spans the part.
pub proof fn lemma_moves_followed(
    s: Setting,
    w: int,
    h: int,
    counts: Seq<u32>,
    depth: u32,
    k: int,
    vertical: bool,
)
    requires
        0 <= k < lineup(s.specs, counts, w, h, depth, s.seed).len(),
        k < beam_at(depth, s.beam),
        ({
            let m = lineup(s.specs, counts, w, h, depth, s.seed)[k];
            let e = s.specs[m.kind];
            let pw = if m.rotated {
                e.height
            } else {
                e.width
            };
            let ph = if m.rotated {
                e.width
            } else {
                e.height
            };
            (vertical && (pw == w || ph != h)) || (!vertical && pw != w)
        }),
    ensures
        ({
            let m = lineup(s.specs, counts, w, h, depth, s.seed)[k];
            node_plans(s, w, h, counts, depth).contains(
                Plan { kind: m.kind, rotated: m.rotated, vertical },
            )
        }),
{
    let moves = lineup(s.specs, counts, w, h, depth, s.seed);
    let m = moves[k];
    let plan = Plan { kind: m.kind, rotated: m.rotated, vertical };
    let beam = beam_at(depth, s.beam);
    let n = if beam < moves.len() {
        beam as int
    } else {
        moves.len() as int
    };
    let part = plans(s.specs, w, h, moves, k + 1);
    let all = plans(s.specs, w, h, moves, n);
    lemma_last_plans(s.specs, w, h, moves, k + 1);
    lemma_plans_grow(s.specs, w, h, moves, k + 1, n);
    let last = part.len() - 1;
    if part[last] == plan {
        assert(all[last] == plan);
    } else {
        assert(part[last - 1] == plan);
        assert(all[last - 1] == plan);
    }
}

/// A node takes the largest of the layouts that its plans yield, the first one of those that are
/// equally large.
pub proof fn lemma_node_best(
    s: Setting,
    w: int,
    h: int,
    counts: Seq<u32>,
    depth: u32,
    todo: Seq<Plan>,
    n: int,
    memo: Map<MemoKey, Layout>,
    polls: Seq<bool>,
    at: int,
    k: int,
    found: Layout,
)
    requires
        0 <= k < n,
        !explored(s, w, h, counts, depth, todo, k, memo, polls, at).full,
        ({
            let before = explored(s, w, h, counts, depth, todo, k, memo, polls, at);
            followed(
                s,
                w,
                h,
                counts,
                depth,
                todo[k],
                before.memo,
                polls,
                before.at,
            ).result == Some(found)
        }),
    ensures
        ({
            let before = explored(s, w, h, counts, depth, todo, k, memo, polls, at).best;
            let best = explored(s, w, h, counts, depth, todo, n, memo, polls, at).best;
            &&& best.area >= found.area
            &&& best.area >= before.area
            &&& found.area > before.area && best.area == found.area ==> best == found
            &&& best.area == before.area ==> best == before
        }),
    decreases n - k,
{
    if k < n - 1 {
        lemma_node_best(s, w, h, counts, depth, todo, n - 1, memo, polls, at, k, found);
    }
}

/// Below the second level a part that was searched before with the same pieces is looked up, and
/// nothing else is done. What is found there and does not fill the part is remembered.
pub proof fn lemma_search_recalls(
    s: Setting,
    w: int,
    h: int,
    counts: Seq<u32>,
    memo: Map<MemoKey, Layout>,
    depth: u32,
    polls: Seq<bool>,
    at: int,
)
    ensures
        ({
            let key = memo_key(w, h, counts);
            let run = search(s, w, h, counts, memo, depth, polls, at);
            &&& polls[at] ==> run.result is None && run.memo == memo && run.at == at + 1
            &&& !polls[at] ==> run.result is Some
            &&& !polls[at] && depth >= 2 && memo.contains_key(key) ==> run.result == Some(memo[key])
                && run.memo == memo && run.at == at + 1
            &&& !polls[at] && depth >= 2 && run.result.unwrap().area != w * h && lineup(
                s.specs,
                counts,
                w,
                h,
                depth,
                s.seed,
            ).len() > 0 ==> run.memo.contains_key(key) && run.memo[key] == run.result.unwrap()
        }),
{
    let todo = node_plans(s, w, h, counts, depth);
    lemma_full_area(s, w, h, counts, depth, todo, todo.len() as int, memo, polls, at + 1);
}

/// A node that is full has a layout that fills the part.
proof fn lemma_full_area(
    s: Setting,
    w: int,
    h: int,
    counts: Seq<u32>,
    depth: u32,
    todo: Seq<Plan>,
    n: int,
    memo: Map<MemoKey, Layout>,
    polls: Seq<bool>,
    at: int,
)
    ensures
        explored(s, w, h, counts, depth, todo, n, memo, polls, at).full ==> explored(
            s,
            w,
            h,
            counts,
            depth,
            todo,
            n,
            memo,
            polls,
            at,
        ).best.area == w * h,
    decreases n,
{
    if n > 0 {
        lemma_full_area(s, w, h, counts, depth, todo, n - 1, memo, polls, at);
    }
}

/// A plan comes to the piece in the corner, then what a search one level deeper finds for the strip
/// beside or below it, then what such a search finds for the rest of the part with the pieces that
/// are left then. If either search is stopped, it comes to nothing.
pub proof fn lemma_plan_followed(
    s: Setting,
    w: int,
    h: int,
    counts: Seq<u32>,
    depth: u32,
    plan: Plan,
    memo: Map<MemoKey, Layout>,
    polls: Seq<bool>,
    at: int,
)
    requires
        depth < u32::MAX,
        0 <= plan.kind < counts.len(),
    ensures
        ({
            let e = s.specs[plan.kind];
            let pw = if plan.rotated {
                e.height as int
            } else {
                e.width as int
            };
            let ph = if plan.rotated {
                e.width as int
            } else {
                e.height as int
            };
            let piece = Tile {
                x: 0,
                y: 0,
                w: pw,
                h: ph,
                name: e.name@,
                rotated: plan.rotated,
            };
            let (w1, h1) = if plan.vertical {
                (w - pw, ph)
            } else {
                (pw, h - ph)
            };
            let (w2, h2) = if plan.vertical {
                (w, h - ph)
            } else {
                (w - pw, h)
            };
            let rest = counts.update(plan.kind, (counts[plan.kind] - 1) as u32);
            let next = (depth + 1) as u32;
            let one = search(s, w1, h1, rest, memo, next, polls, at);
            let run = followed(s, w, h, counts, depth, plan, memo, polls, at);
            match one.result {
                None => run == one,
                Some(first) => {
                    let two = search(
                        s,
                        w2,
                        h2,
                        first.remaining,
                        one.memo,
                        next,
                        polls,
                        one.at,
                    );
                    match two.result {
                        None => run == two,
                        Some(second) => {
                            &&& run.memo == two.memo && run.at == two.at
                            &&& run.result matches Some(found) && {
                                &&& found.remaining == second.remaining
                                &&& found.area == pw * ph + first.area + second.area
                                &&& found.tiles.len() == 1 + first.tiles.len()
                                    + second.tiles.len()
                                &&& found.tiles[0] == piece
                                &&& forall|k: int|
                                    0 <= k < first.tiles.len() ==> #[trigger] found.tiles[1 + k]
                                        == (if plan.vertical {
                                        Tile { x: first.tiles[k].x + pw, ..first.tiles[k] }
                                    } else {
                                        Tile { y: first.tiles[k].y + ph, ..first.tiles[k] }
                                    })
                                &&& forall|k: int|
                                    0 <= k < second.tiles.len() ==> #[trigger] found.tiles[1
                                        + first.tiles.len() + k] == (if plan.vertical {
                                        Tile { y: second.tiles[k].y + ph, ..second.tiles[k] }
                                    } else {
                                        Tile { x: second.tiles[k].x + pw, ..second.tiles[k] }
                                    })
                            }
                        },
                    }
                },
            }
        }),
{
}

} // verus!
