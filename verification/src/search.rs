//! The beam search for a guillotine layout.

use crate::candidates::{
    all_sized, beam_at, beam_width_at, fits, in_range, is_sized, lemma_exact_fit_first,
    lemma_in_range_shrinks, lemma_lineup, line_up, lineup, moves_of, Candidate, Move,
};
use crate::control::Control;
use crate::layout::{
    accounted, all_inside, blank, first_part, guillotine, inside, join_items, joined,
    lemma_accounted_joined, lemma_blank, lemma_guillotine_joined, lemma_guillotine_packing,
    second_part, Layout,
};
use crate::memo::{counts_hash, memo_key, tells_apart, MemoCache, MemoKey, Solution};
use crate::pieces::{
    lemma_less_one, lemma_within_trans, less_one, within, ElementType, PlacedItem, Tile,
};
use vstd::prelude::*;
use vstd::slice::slice_to_vec;

verus! {

/// What stays the same throughout a search: the kinds of pieces, how many of each there are in
/// all, how many moves are followed at the top, and the seed that puts moves off.
pub struct Setting {
    pub specs: Seq<ElementType>,
    pub stock: Seq<u32>,
    pub beam: nat,
    pub seed: u64,
}

/// A step of the search: a piece for the corner, and the direction of the cut beside it.
pub struct Plan {
    pub kind: int,
    pub rotated: bool,
    pub vertical: bool,
}

/// How a search ends: the layout that it found, unless it was stopped; what is remembered by
/// then; and how many answers of the control it has used.
pub struct Run {
    pub result: Option<Layout>,
    pub memo: Map<MemoKey, Layout>,
    pub at: int,
}

/// How far a node has come: the best layout so far, and whether it fills the whole part.
pub struct Progress {
    pub best: Layout,
    pub memo: Map<MemoKey, Layout>,
    pub at: int,
    pub full: bool,
}

/// One level deeper.
pub open spec fn deeper(depth: u32) -> u32
    recommends
        depth < u32::MAX,
{
    (depth + 1) as u32
}

/// Going one level deeper is counted.
pub proof fn lemma_deeper(depth: u32)
    requires
        depth < u32::MAX,
    ensures
        deeper(depth) == depth + 1,
{
}

/// The directions to cut in. A piece that spans the part leaves only one strip.
pub open spec fn cuts(spec: ElementType, rotated: bool, w: int, h: int) -> Seq<bool> {
    if spec.wide(rotated) == w {
        seq![true]
    } else if spec.high(rotated) == h {
        seq![false]
    } else {
        seq![true, false]
    }
}

/// A move with each of the given directions.
pub open spec fn with_cuts(m: Move, directions: Seq<bool>) -> Seq<Plan> {
    directions.map_values(
        |vertical: bool| Plan { kind: m.kind, rotated: m.rotated, vertical },
    )
}

/// The plans that the first `n` moves give rise to, in order.
pub open spec fn plans(
    specs: Seq<ElementType>,
    w: int,
    h: int,
    moves: Seq<Move>,
    n: int,
) -> Seq<Plan>
    decreases n,
{
    if n <= 0 {
        seq![]
    } else {
        let m = moves[n - 1];
        plans(specs, w, h, moves, n - 1) + with_cuts(m, cuts(specs[m.kind], m.rotated, w, h))
    }
}

/// The plans that are followed at a node.
pub open spec fn node_plans(s: Setting, w: int, h: int, counts: Seq<u32>, depth: u32) -> Seq<
    Plan,
> {
    let moves = lineup(s.specs, counts, w, h, depth, s.seed);
    let beam = beam_at(depth, s.beam);
    plans(
        s.specs,
        w,
        h,
        moves,
        if beam < moves.len() {
            beam as int
        } else {
            moves.len() as int
        },
    )
}

/// The search for a layout of a `w` by `h` part with the given pieces. `polls` are the answers
/// to the question whether to stop, of which the search uses those from `at` on.
pub open spec fn search(
    s: Setting,
    w: int,
    h: int,
    counts: Seq<u32>,
    memo: Map<MemoKey, Layout>,
    depth: u32,
    polls: Seq<bool>,
    at: int,
) -> Run
    decreases u32::MAX - depth, 2int, 0int,
{
    let key = memo_key(w, h, counts);
    if polls[at] {
        Run { result: None, memo, at: at + 1 }
    } else if depth > 1 && memo.contains_key(key) {
        Run { result: Some(memo[key]), memo, at: at + 1 }
    } else if lineup(s.specs, counts, w, h, depth, s.seed).len() == 0 {
        Run { result: Some(blank(counts)), memo, at: at + 1 }
    } else {
        let todo = node_plans(s, w, h, counts, depth);
        let done = explored(s, w, h, counts, depth, todo, todo.len() as int, memo, polls, at + 1);
        Run {
            result: Some(done.best),
            memo: if depth > 1 && !done.full {
                done.memo.insert(key, done.best)
            } else {
                done.memo
            },
            at: done.at,
        }
    }
}

/// How far a node has come after the first `n` plans. A better layout replaces the best one,
/// and one that fills the whole part ends the search of the node.
pub open spec fn explored(
    s: Setting,
    w: int,
    h: int,
    counts: Seq<u32>,
    depth: u32,
    todo: Seq<Plan>,
    n: int,
    memo: Map<MemoKey, Layout>,
    polls: Seq<bool>,
    at: int,
) -> Progress
    decreases u32::MAX - depth, 1int, n,
{
    if n <= 0 {
        Progress { best: blank(counts), memo, at, full: false }
    } else {
        let before = explored(s, w, h, counts, depth, todo, n - 1, memo, polls, at);
        if before.full {
            before
        } else {
            let run = followed(
                s,
                w,
                h,
                counts,
                depth,
                todo[n - 1],
                before.memo,
                polls,
                before.at,
            );
            match run.result {
                Some(found) => if found.area > before.best.area {
                    Progress {
                        best: found,
                        memo: run.memo,
                        at: run.at,
                        full: found.area == w * h,
                    }
                } else {
                    Progress { memo: run.memo, at: run.at, ..before }
                },
                None => Progress { memo: run.memo, at: run.at, ..before },
            }
        }
    }
}

/// Following a plan: the first part is filled, then the second with the pieces that this
/// leaves, and the two layouts are joined with the piece in the corner. Counts with the same
/// hash share what is remembered of them, so the first part may leave more pieces than there
/// were. Below the last level that can be numbered no part is searched, and the plan is given
/// up.
pub open spec fn followed(
    s: Setting,
    w: int,
    h: int,
    counts: Seq<u32>,
    depth: u32,
    plan: Plan,
    memo: Map<MemoKey, Layout>,
    polls: Seq<bool>,
    at: int,
) -> Run
    decreases u32::MAX - depth, 0int, 0int,
{
    let piece = s.specs[plan.kind].tile(0, 0, plan.rotated);
    let a = first_part(w, h, piece.w, piece.h, plan.vertical);
    let b = second_part(w, h, piece.w, piece.h, plan.vertical);
    let rest = less_one(counts, plan.kind);
    if depth == u32::MAX {
        Run { result: None, memo, at }
    } else {
        let one = search(s, a.w, a.h, rest, memo, deeper(depth), polls, at);
        match one.result {
            None => one,
            Some(first) => {
                let two = search(
                    s,
                    b.w,
                    b.h,
                    first.remaining,
                    one.memo,
                    deeper(depth),
                    polls,
                    one.at,
                );
                match two.result {
                    None => two,
                    Some(second) => Run {
                        result: Some(joined(piece, plan.vertical, first, second)),
                        ..two
                    },
                }
            },
        }
    }
}

/// A layout of a `w` by `h` part that was made with the given pieces: it can be cut with cuts
/// from edge to edge, and leaves no more than the stock. If the hash of the memo tells all
/// counts apart, it accounts for every piece.
pub open spec fn is_sound(s: Setting, w: int, h: int, counts: Seq<u32>, layout: Layout) -> bool {
    &&& guillotine(s.specs, w, h, layout)
    &&& within(layout.remaining, s.stock)
    &&& tells_apart(s.stock) ==> accounted(s.specs, w, h, counts, layout)
}

/// What is remembered under a key is a sound layout for all counts with that key.
pub open spec fn is_sound_entry(s: Setting, key: MemoKey, layout: Layout) -> bool {
    &&& guillotine(s.specs, key.width as int, key.height as int, layout)
    &&& within(layout.remaining, s.stock)
    &&& tells_apart(s.stock) ==> forall|counts: Seq<u32>|
        within(counts, s.stock) && #[trigger] counts_hash(counts) == key.counts_hash ==> accounted(
            s.specs,
            key.width as int,
            key.height as int,
            counts,
            layout,
        )
}

/// All that is remembered is sound.
pub open spec fn is_sound_memo(s: Setting, memo: Map<MemoKey, Layout>) -> bool {
    forall|key: MemoKey| #[trigger]
        memo.contains_key(key) ==> is_sound_entry(s, key, memo[key])
}

/// A part of the sheet and pieces out of the stock that can be searched.
pub open spec fn is_part(s: Setting, w: int, h: int, counts: Seq<u32>) -> bool {
    &&& 0 <= w <= u32::MAX
    &&& 0 <= h <= u32::MAX
    &&& within(counts, s.stock)
    &&& s.specs.len() <= s.stock.len()
}

/// A plan that can be carried out.
pub open spec fn is_plan(s: Setting, w: int, h: int, counts: Seq<u32>, plan: Plan) -> bool {
    &&& 0 <= plan.kind < s.specs.len()
    &&& counts[plan.kind] > 0
    &&& fits(s.specs[plan.kind], plan.rotated, w, h)
}

/// The plans of the first `n` moves can be carried out if the moves can, and every move has a
/// plan.
proof fn lemma_plans(s: Setting, w: int, h: int, counts: Seq<u32>, moves: Seq<Move>, n: int)
    requires
        0 <= n <= moves.len(),
        forall|k: int|
            0 <= k < moves.len() ==> {
                let m = #[trigger] moves[k];
                &&& 0 <= m.kind < s.specs.len()
                &&& counts[m.kind] > 0
                &&& fits(s.specs[m.kind], m.rotated, w, h)
            },
    ensures
        forall|k: int|
            0 <= k < plans(s.specs, w, h, moves, n).len() ==> is_plan(
                s,
                w,
                h,
                counts,
                #[trigger] plans(s.specs, w, h, moves, n)[k],
            ),
        forall|k: int|
            0 <= k < n ==> exists|j: int|
                0 <= j < plans(s.specs, w, h, moves, n).len() && (#[trigger] plans(
                    s.specs,
                    w,
                    h,
                    moves,
                    n,
                )[j]).kind == (#[trigger] moves[k]).kind,
    decreases n,
{
    if n > 0 {
        lemma_plans(s, w, h, counts, moves, n - 1);
        let m = moves[n - 1];
        let before = plans(s.specs, w, h, moves, n - 1);
        let more = with_cuts(m, cuts(s.specs[m.kind], m.rotated, w, h));
        let all = plans(s.specs, w, h, moves, n);
        assert(all == before + more);
        assert forall|k: int| 0 <= k < all.len() implies is_plan(
            s,
            w,
            h,
            counts,
            #[trigger] all[k],
        ) by {
            if k < before.len() {
                assert(all[k] == before[k]);
            } else {
                assert(all[k] == more[k - before.len()]);
            }
        }
        assert forall|k: int| 0 <= k < n implies exists|j: int|
            0 <= j < all.len() && (#[trigger] all[j]).kind == (#[trigger] moves[k]).kind by {
            if k < n - 1 {
                let j = choose|j: int|
                    0 <= j < before.len() && (#[trigger] before[j]).kind == moves[k].kind;
                assert(all[j] == before[j]);
            } else {
                assert(all[before.len() as int] == more[0]);
            }
        }
    }
}

/// The plans of a node can be carried out.
pub proof fn lemma_node_plans(s: Setting, w: int, h: int, counts: Seq<u32>, depth: u32)
    requires
        is_part(s, w, h, counts),
    ensures
        forall|k: int|
            0 <= k < node_plans(s, w, h, counts, depth).len() ==> is_plan(
                s,
                w,
                h,
                counts,
                #[trigger] node_plans(s, w, h, counts, depth)[k],
            ),
{
    let moves = lineup(s.specs, counts, w, h, depth, s.seed);
    lemma_lineup(s.specs, counts, w, h, depth, s.seed);
    let beam = beam_at(depth, s.beam);
    let n = if beam < moves.len() {
        beam as int
    } else {
        moves.len() as int
    };
    lemma_plans(s, w, h, counts, moves, n);
}

/// Searching uses up at least one answer.
pub proof fn lemma_search_grows(
    s: Setting,
    w: int,
    h: int,
    counts: Seq<u32>,
    memo: Map<MemoKey, Layout>,
    depth: u32,
    polls: Seq<bool>,
    at: int,
)
    ensures
        search(s, w, h, counts, memo, depth, polls, at).at >= at + 1,
    decreases u32::MAX - depth, 2int, 0int,
{
    let todo = node_plans(s, w, h, counts, depth);
    lemma_explored_grows(s, w, h, counts, depth, todo, todo.len() as int, memo, polls, at + 1);
}

/// Following plans gives no answer back.
pub proof fn lemma_explored_grows(
    s: Setting,
    w: int,
    h: int,
    counts: Seq<u32>,
    depth: u32,
    todo: Seq<Plan>,
    n: int,
    memo: Map<MemoKey, Layout>,
    polls: Seq<bool>,
    at: int,
)
    ensures
        explored(s, w, h, counts, depth, todo, n, memo, polls, at).at >= at,
    decreases u32::MAX - depth, 1int, n,
{
    if n > 0 {
        lemma_explored_grows(s, w, h, counts, depth, todo, n - 1, memo, polls, at);
        let before = explored(s, w, h, counts, depth, todo, n - 1, memo, polls, at);
        lemma_followed_grows(
            s,
            w,
            h,
            counts,
            depth,
            todo[n - 1],
            before.memo,
            polls,
            before.at,
        );
    }
}

/// Following a plan gives no answer back.
pub proof fn lemma_followed_grows(
    s: Setting,
    w: int,
    h: int,
    counts: Seq<u32>,
    depth: u32,
    plan: Plan,
    memo: Map<MemoKey, Layout>,
    polls: Seq<bool>,
    at: int,
)
    ensures
        followed(s, w, h, counts, depth, plan, memo, polls, at).at >= at,
    decreases u32::MAX - depth, 0int, 0int,
{
    let piece = s.specs[plan.kind].tile(0, 0, plan.rotated);
    let a = first_part(w, h, piece.w, piece.h, plan.vertical);
    let b = second_part(w, h, piece.w, piece.h, plan.vertical);
    let rest = less_one(counts, plan.kind);
    if depth < u32::MAX {
        lemma_search_grows(s, a.w, a.h, rest, memo, deeper(depth), polls, at);
        let one = search(s, a.w, a.h, rest, memo, deeper(depth), polls, at);
        if let Some(first) = one.result {
            lemma_search_grows(
                s,
                b.w,
                b.h,
                first.remaining,
                one.memo,
                deeper(depth),
                polls,
                one.at,
            );
        }
    }
}

/// `long` begins with `short`.
pub open spec fn extends(short: Seq<bool>, long: Seq<bool>) -> bool {
    short.len() <= long.len() && forall|i: int| 0 <= i < short.len() ==> short[i] == long[i]
}

/// Answers that a search does not use do not change how it ends.
proof fn lemma_search_extends(
    s: Setting,
    w: int,
    h: int,
    counts: Seq<u32>,
    memo: Map<MemoKey, Layout>,
    depth: u32,
    short: Seq<bool>,
    long: Seq<bool>,
    at: int,
)
    requires
        0 <= at,
        extends(short, long),
        search(s, w, h, counts, memo, depth, short, at).at <= short.len(),
    ensures
        search(s, w, h, counts, memo, depth, long, at) == search(
            s,
            w,
            h,
            counts,
            memo,
            depth,
            short,
            at,
        ),
    decreases u32::MAX - depth, 2int, 0int,
{
    lemma_search_grows(s, w, h, counts, memo, depth, short, at);
    assert(short[at] == long[at]);
    let key = memo_key(w, h, counts);
    if short[at] || (depth > 1 && memo.contains_key(key)) || lineup(
        s.specs,
        counts,
        w,
        h,
        depth,
        s.seed,
    ).len() == 0 {
    } else {
        let todo = node_plans(s, w, h, counts, depth);
        lemma_explored_extends(
            s,
            w,
            h,
            counts,
            depth,
            todo,
            todo.len() as int,
            memo,
            short,
            long,
            at + 1,
        );
    }
}

proof fn lemma_explored_extends(
    s: Setting,
    w: int,
    h: int,
    counts: Seq<u32>,
    depth: u32,
    todo: Seq<Plan>,
    n: int,
    memo: Map<MemoKey, Layout>,
    short: Seq<bool>,
    long: Seq<bool>,
    at: int,
)
    requires
        0 <= at,
        extends(short, long),
        explored(s, w, h, counts, depth, todo, n, memo, short, at).at <= short.len(),
    ensures
        explored(s, w, h, counts, depth, todo, n, memo, long, at) == explored(
            s,
            w,
            h,
            counts,
            depth,
            todo,
            n,
            memo,
            short,
            at,
        ),
    decreases u32::MAX - depth, 1int, n,
{
    if n > 0 {
        let before = explored(s, w, h, counts, depth, todo, n - 1, memo, short, at);
        lemma_explored_grows(s, w, h, counts, depth, todo, n - 1, memo, short, at);
        lemma_followed_grows(
            s,
            w,
            h,
            counts,
            depth,
            todo[n - 1],
            before.memo,
            short,
            before.at,
        );
        lemma_explored_extends(s, w, h, counts, depth, todo, n - 1, memo, short, long, at);
        if !before.full {
            lemma_followed_extends(
                s,
                w,
                h,
                counts,
                depth,
                todo[n - 1],
                before.memo,
                short,
                long,
                before.at,
            );
        }
    }
}

proof fn lemma_followed_extends(
    s: Setting,
    w: int,
    h: int,
    counts: Seq<u32>,
    depth: u32,
    plan: Plan,
    memo: Map<MemoKey, Layout>,
    short: Seq<bool>,
    long: Seq<bool>,
    at: int,
)
    requires
        0 <= at,
        extends(short, long),
        followed(s, w, h, counts, depth, plan, memo, short, at).at <= short.len(),
    ensures
        followed(s, w, h, counts, depth, plan, memo, long, at) == followed(
            s,
            w,
            h,
            counts,
            depth,
            plan,
            memo,
            short,
            at,
        ),
    decreases u32::MAX - depth, 0int, 0int,
{
    let piece = s.specs[plan.kind].tile(0, 0, plan.rotated);
    let a = first_part(w, h, piece.w, piece.h, plan.vertical);
    let b = second_part(w, h, piece.w, piece.h, plan.vertical);
    let rest = less_one(counts, plan.kind);
    if depth < u32::MAX {
        let one = search(s, a.w, a.h, rest, memo, deeper(depth), short, at);
        lemma_search_grows(s, a.w, a.h, rest, memo, deeper(depth), short, at);
        if let Some(first) = one.result {
            lemma_search_grows(
                s,
                b.w,
                b.h,
                first.remaining,
                one.memo,
                deeper(depth),
                short,
                one.at,
            );
        }
        lemma_search_extends(s, a.w, a.h, rest, memo, deeper(depth), short, long, at);
        if let Some(first) = one.result {
            lemma_search_extends(
                s,
                b.w,
                b.h,
                first.remaining,
                one.memo,
                deeper(depth),
                short,
                long,
                one.at,
            );
        }
    }
}

/// Whatever the answers, a search that starts from sound memories ends with sound memories, and
/// a layout that it finds is sound.
pub proof fn lemma_search_sound(
    s: Setting,
    w: int,
    h: int,
    counts: Seq<u32>,
    memo: Map<MemoKey, Layout>,
    depth: u32,
    polls: Seq<bool>,
    at: int,
)
    requires
        is_part(s, w, h, counts),
        is_sound_memo(s, memo),
    ensures
        is_sound_memo(s, search(s, w, h, counts, memo, depth, polls, at).memo),
        search(s, w, h, counts, memo, depth, polls, at).result matches Some(layout) ==> is_sound(
            s,
            w,
            h,
            counts,
            layout,
        ),
    decreases u32::MAX - depth, 2int, 0int,
{
    let key = memo_key(w, h, counts);
    let run = search(s, w, h, counts, memo, depth, polls, at);
    if polls[at] {
    } else if depth > 1 && memo.contains_key(key) {
        assert(is_sound_entry(s, key, memo[key]));
        assert(counts_hash(counts) == key.counts_hash);
    } else if lineup(s.specs, counts, w, h, depth, s.seed).len() == 0 {
        lemma_blank(s.specs, w, h, counts);
    } else {
        let todo = node_plans(s, w, h, counts, depth);
        lemma_node_plans(s, w, h, counts, depth);
        lemma_explored_sound(s, w, h, counts, depth, todo, todo.len() as int, memo, polls, at + 1);
        let done = explored(s, w, h, counts, depth, todo, todo.len() as int, memo, polls, at + 1);
        assert(is_sound_entry(s, key, done.best)) by {
            if tells_apart(s.stock) {
                assert forall|c: Seq<u32>|
                    within(c, s.stock) && #[trigger] counts_hash(c)
                        == key.counts_hash implies accounted(
                    s.specs,
                    key.width as int,
                    key.height as int,
                    c,
                    done.best,
                ) by {
                    assert(counts_hash(c) == counts_hash(counts));
                    assert(c == counts);
                }
            }
        }
    }
}

/// Following plans from sound memories ends with sound memories and a sound layout.
pub proof fn lemma_explored_sound(
    s: Setting,
    w: int,
    h: int,
    counts: Seq<u32>,
    depth: u32,
    todo: Seq<Plan>,
    n: int,
    memo: Map<MemoKey, Layout>,
    polls: Seq<bool>,
    at: int,
)
    requires
        is_part(s, w, h, counts),
        is_sound_memo(s, memo),
        n <= todo.len(),
        forall|k: int| 0 <= k < todo.len() ==> is_plan(s, w, h, counts, #[trigger] todo[k]),
    ensures
        is_sound_memo(s, explored(s, w, h, counts, depth, todo, n, memo, polls, at).memo),
        is_sound(
            s,
            w,
            h,
            counts,
            explored(s, w, h, counts, depth, todo, n, memo, polls, at).best,
        ),
    decreases u32::MAX - depth, 1int, n,
{
    if n <= 0 {
        lemma_blank(s.specs, w, h, counts);
    } else {
        lemma_explored_sound(s, w, h, counts, depth, todo, n - 1, memo, polls, at);
        let before = explored(s, w, h, counts, depth, todo, n - 1, memo, polls, at);
        lemma_followed_sound(
            s,
            w,
            h,
            counts,
            depth,
            todo[n - 1],
            before.memo,
            polls,
            before.at,
        );
    }
}

/// Whatever the answers, following a plan from sound memories ends with sound memories, and a
/// layout that it yields is sound.
pub proof fn lemma_followed_sound(
    s: Setting,
    w: int,
    h: int,
    counts: Seq<u32>,
    depth: u32,
    plan: Plan,
    memo: Map<MemoKey, Layout>,
    polls: Seq<bool>,
    at: int,
)
    requires
        is_part(s, w, h, counts),
        is_sound_memo(s, memo),
        is_plan(s, w, h, counts, plan),
    ensures
        is_sound_memo(s, followed(s, w, h, counts, depth, plan, memo, polls, at).memo),
        followed(s, w, h, counts, depth, plan, memo, polls, at).result matches Some(layout)
            ==> is_sound(s, w, h, counts, layout),
    decreases u32::MAX - depth, 0int, 0int,
{
    let piece = s.specs[plan.kind].tile(0, 0, plan.rotated);
    let a = first_part(w, h, piece.w, piece.h, plan.vertical);
    let b = second_part(w, h, piece.w, piece.h, plan.vertical);
    let rest = less_one(counts, plan.kind);
    lemma_less_one(counts, plan.kind);
    lemma_within_trans(rest, counts, s.stock);
    if depth < u32::MAX {
        let one = search(s, a.w, a.h, rest, memo, deeper(depth), polls, at);
        lemma_search_sound(s, a.w, a.h, rest, memo, deeper(depth), polls, at);
        if let Some(first) = one.result {
            let two = search(
                s,
                b.w,
                b.h,
                first.remaining,
                one.memo,
                deeper(depth),
                polls,
                one.at,
            );
            lemma_search_sound(
                s,
                b.w,
                b.h,
                first.remaining,
                one.memo,
                deeper(depth),
                polls,
                one.at,
            );
            if let Some(second) = two.result {
                lemma_guillotine_joined(
                    s.specs,
                    w,
                    h,
                    plan.kind,
                    plan.rotated,
                    plan.vertical,
                    first,
                    second,
                );
                if tells_apart(s.stock) {
                    lemma_accounted_joined(
                        s.specs,
                        w,
                        h,
                        counts,
                        plan.kind,
                        plan.rotated,
                        plan.vertical,
                        first,
                        second,
                    );
                }
            }
        }
    }
}

/// The parts that a plan leaves can be searched: the first one with the pieces that are left,
/// the second one with what a sound layout of the first one leaves.
pub proof fn lemma_parts(s: Setting, w: int, h: int, counts: Seq<u32>, plan: Plan)
    requires
        is_part(s, w, h, counts),
        is_plan(s, w, h, counts, plan),
    ensures
        ({
            let piece = s.specs[plan.kind].tile(0, 0, plan.rotated);
            let a = first_part(w, h, piece.w, piece.h, plan.vertical);
            let b = second_part(w, h, piece.w, piece.h, plan.vertical);
            let rest = less_one(counts, plan.kind);
            &&& is_part(s, a.w, a.h, rest)
            &&& a.w <= w && a.h <= h && b.w <= w && b.h <= h
            &&& forall|first: Layout| #[trigger]
                is_sound(s, a.w, a.h, rest, first) ==> is_part(s, b.w, b.h, first.remaining)
        }),
{
    lemma_less_one(counts, plan.kind);
    lemma_within_trans(less_one(counts, plan.kind), counts, s.stock);
}

/// A search that no answer stops finds a layout.
pub proof fn lemma_search_finds(
    s: Setting,
    w: int,
    h: int,
    counts: Seq<u32>,
    memo: Map<MemoKey, Layout>,
    depth: u32,
    polls: Seq<bool>,
    at: int,
)
    requires
        forall|i: int|
            at <= i < search(s, w, h, counts, memo, depth, polls, at).at ==> !#[trigger] polls[i],
    ensures
        search(s, w, h, counts, memo, depth, polls, at).result is Some,
{
}

/// Following a plan in a search that is never stopped yields a layout, above the last level.
pub proof fn lemma_followed_finds(
    s: Setting,
    w: int,
    h: int,
    counts: Seq<u32>,
    depth: u32,
    plan: Plan,
    memo: Map<MemoKey, Layout>,
    polls: Seq<bool>,
    at: int,
)
    requires
        is_part(s, w, h, counts),
        is_sound_memo(s, memo),
        is_plan(s, w, h, counts, plan),
        depth < u32::MAX,
        forall|i: int|
            at <= i < followed(s, w, h, counts, depth, plan, memo, polls, at).at ==> !#[trigger] polls[i],
    ensures
        followed(s, w, h, counts, depth, plan, memo, polls, at).result matches Some(layout)
            && layout.area >= s.specs[plan.kind].area(),
{
    let piece = s.specs[plan.kind].tile(0, 0, plan.rotated);
    let a = first_part(w, h, piece.w, piece.h, plan.vertical);
    let b = second_part(w, h, piece.w, piece.h, plan.vertical);
    let rest = less_one(counts, plan.kind);
    lemma_parts(s, w, h, counts, plan);
    let one = search(s, a.w, a.h, rest, memo, deeper(depth), polls, at);
    lemma_search_sound(s, a.w, a.h, rest, memo, deeper(depth), polls, at);
    lemma_search_grows(s, a.w, a.h, rest, memo, deeper(depth), polls, at);
    assert(one.result is Some);
    let first = one.result.unwrap();
    assert(is_sound(s, a.w, a.h, rest, first));
    let two = search(s, b.w, b.h, first.remaining, one.memo, deeper(depth), polls, one.at);
    lemma_search_sound(
        s,
        b.w,
        b.h,
        first.remaining,
        one.memo,
        deeper(depth),
        polls,
        one.at,
    );
    lemma_search_grows(
        s,
        b.w,
        b.h,
        first.remaining,
        one.memo,
        deeper(depth),
        polls,
        one.at,
    );
    lemma_search_finds(s, a.w, a.h, rest, memo, deeper(depth), polls, at);
    lemma_search_finds(
        s,
        b.w,
        b.h,
        first.remaining,
        one.memo,
        deeper(depth),
        polls,
        one.at,
    );
    let second = two.result.unwrap();
    lemma_guillotine_packing(s.specs, a.w, a.h, first);
    lemma_guillotine_packing(s.specs, b.w, b.h, second);
    let spec = s.specs[plan.kind];
    assert(piece.w * piece.h == spec.area()) by (nonlinear_arith)
        requires
            piece.w == spec.wide(plan.rotated),
            piece.h == spec.high(plan.rotated),
            spec.area() == spec.width * spec.height,
    ;
}

/// The best layout of a node is no worse than what any of the plans so far yields, when the
/// search is never stopped.
proof fn lemma_explored_best(
    s: Setting,
    w: int,
    h: int,
    counts: Seq<u32>,
    depth: u32,
    todo: Seq<Plan>,
    n: int,
    memo: Map<MemoKey, Layout>,
    polls: Seq<bool>,
    at: int,
)
    requires
        is_part(s, w, h, counts),
        is_sound_memo(s, memo),
        depth < u32::MAX,
        0 <= n <= todo.len(),
        forall|k: int| 0 <= k < todo.len() ==> is_plan(s, w, h, counts, #[trigger] todo[k]),
        forall|i: int|
            at <= i < explored(s, w, h, counts, depth, todo, n, memo, polls, at).at
                ==> !#[trigger] polls[i],
    ensures
        forall|k: int|
            0 <= k < n ==> explored(
                s,
                w,
                h,
                counts,
                depth,
                todo,
                n,
                memo,
                polls,
                at,
            ).best.area >= s.specs[(#[trigger] todo[k]).kind].area(),
        explored(s, w, h, counts, depth, todo, n, memo, polls, at).full ==> explored(
            s,
            w,
            h,
            counts,
            depth,
            todo,
            n,
            memo,
            polls,
            at,
        ).best.area == w * h,
    decreases n,
{
    if n > 0 {
        lemma_explored_sound(s, w, h, counts, depth, todo, n - 1, memo, polls, at);
        lemma_explored_grows(s, w, h, counts, depth, todo, n - 1, memo, polls, at);
        let before = explored(s, w, h, counts, depth, todo, n - 1, memo, polls, at);
        let plan = todo[n - 1];
        lemma_followed_grows(s, w, h, counts, depth, plan, before.memo, polls, before.at);
        lemma_explored_best(s, w, h, counts, depth, todo, n - 1, memo, polls, at);
        assert(is_plan(s, w, h, counts, plan));
        if before.full {
            let spec = s.specs[plan.kind];
            assert(spec.width * spec.height <= w * h) by (nonlinear_arith)
                requires
                    (0 <= spec.width <= w && 0 <= spec.height <= h) || (0 <= spec.height <= w && 0
                        <= spec.width <= h),
            ;
        } else {
            lemma_followed_finds(s, w, h, counts, depth, plan, before.memo, polls, before.at);
        }
    }
}

/// A search that no answer stops and that looks nothing up finds a layout at least
/// as good as each of the pieces that it considers for the corner.
pub proof fn lemma_search_places(
    s: Setting,
    w: int,
    h: int,
    counts: Seq<u32>,
    memo: Map<MemoKey, Layout>,
    depth: u32,
    polls: Seq<bool>,
    at: int,
    k: int,
)
    requires
        is_part(s, w, h, counts),
        is_sound_memo(s, memo),
        depth < u32::MAX,
        forall|i: int|
            at <= i < search(s, w, h, counts, memo, depth, polls, at).at ==> !#[trigger] polls[i],
        depth <= 1 || !memo.contains_key(memo_key(w, h, counts)),
        0 <= k < lineup(s.specs, counts, w, h, depth, s.seed).len(),
        k < beam_at(depth, s.beam),
    ensures
        search(s, w, h, counts, memo, depth, polls, at).result matches Some(layout)
            && layout.area >= s.specs[lineup(s.specs, counts, w, h, depth, s.seed)[k].kind].area(),
{
    let moves = lineup(s.specs, counts, w, h, depth, s.seed);
    let todo = node_plans(s, w, h, counts, depth);
    lemma_node_plans(s, w, h, counts, depth);
    lemma_lineup(s.specs, counts, w, h, depth, s.seed);
    let beam = beam_at(depth, s.beam);
    let n = if beam < moves.len() {
        beam as int
    } else {
        moves.len() as int
    };
    lemma_plans(s, w, h, counts, moves, n);
    lemma_search_grows(s, w, h, counts, memo, depth, polls, at);
    assert(!polls[at]);
    lemma_explored_best(s, w, h, counts, depth, todo, todo.len() as int, memo, polls, at + 1);
    let j = choose|j: int|
        0 <= j < todo.len() && (#[trigger] todo[j]).kind == moves[k].kind;
    assert(0 <= k < n);
}

/// A search that no answer stops and that looks nothing up fills a part that some piece fills
/// exactly, if no move is put off.
pub proof fn lemma_search_fills(
    s: Setting,
    w: int,
    h: int,
    counts: Seq<u32>,
    memo: Map<MemoKey, Layout>,
    depth: u32,
    polls: Seq<bool>,
    at: int,
    kind: int,
    rotated: bool,
)
    requires
        is_part(s, w, h, counts),
        in_range(s.specs, counts, w, h),
        is_sound_memo(s, memo),
        depth < u32::MAX,
        forall|i: int|
            at <= i < search(s, w, h, counts, memo, depth, polls, at).at ==> !#[trigger] polls[i],
        depth <= 1 || !memo.contains_key(memo_key(w, h, counts)),
        s.seed == 0,
        beam_at(depth, s.beam) > 0,
        0 <= kind < s.specs.len(),
        counts[kind] > 0,
        s.specs[kind].wide(rotated) == w,
        s.specs[kind].high(rotated) == h,
    ensures
        search(s, w, h, counts, memo, depth, polls, at).result matches Some(layout) && layout.area
            == w * h,
{
    lemma_exact_fit_first(s.specs, counts, w, h, true, kind, rotated);
    lemma_search_places(s, w, h, counts, memo, depth, polls, at, 0);
    lemma_search_sound(s, w, h, counts, memo, depth, polls, at);
    let layout = search(s, w, h, counts, memo, depth, polls, at).result.unwrap();
    lemma_guillotine_packing(s.specs, w, h, layout);
    let best = lineup(s.specs, counts, w, h, depth, s.seed)[0];
    let width = s.specs[best.kind].width;
    let height = s.specs[best.kind].height;
    assert(width * height == w * h) by (nonlinear_arith)
        requires
            (width == w && height == h) || (height == w && width == h),
    ;
}

/// The layout that a solution stands for, if there is one.
pub open spec fn layout_of(r: Option<Solution>) -> Option<Layout> {
    match r {
        Some(s) => Some(s@),
        None => None,
    }
}

/// The setting of a search with the given memories.
pub open spec fn setting(memo: MemoCache, beam_width: usize, blink_seed: u64) -> Setting {
    Setting {
        specs: memo.specs(),
        stock: memo.stock(),
        beam: beam_width as nat,
        seed: blink_seed,
    }
}

/// A search of a `w` by `h` part can start: the memories are sound and belong to these kinds,
/// the pieces are out of their stock, and the numbers are in range.
pub open spec fn can_start(
    memo: MemoCache,
    beam_width: usize,
    blink_seed: u64,
    specs: Seq<ElementType>,
    counts: Seq<u32>,
    w: int,
    h: int,
) -> bool {
    let s = setting(memo, beam_width, blink_seed);
    &&& memo.specs() == specs
    &&& within(counts, memo.stock())
    &&& in_range(specs, memo.stock(), w, h)
    &&& is_sound_memo(s, memo@)
}

/// A step of the search, with the sides of the piece.
#[derive(Clone, Copy, Debug, PartialEq, Eq)]
pub struct Step {
    pub index: usize,
    pub width: u32,
    pub height: u32,
    pub rotated: bool,
    pub vertical: bool,
}

impl View for Step {
    type V = Plan;

    open spec fn view(&self) -> Plan {
        Plan { kind: self.index as int, rotated: self.rotated, vertical: self.vertical }
    }
}

/// A step's sides are those of a piece of its kind.
pub open spec fn is_sized_step(step: Step, specs: Seq<ElementType>) -> bool {
    &&& step.index < specs.len()
    &&& step.width == specs[step.index as int].wide(step.rotated)
    &&& step.height == specs[step.index as int].high(step.rotated)
}

/// The plans that a list of steps stands for.
pub open spec fn plans_of(steps: Seq<Step>) -> Seq<Plan> {
    steps.map_values(|s: Step| s@)
}

/// The steps that are taken at a node of `width` by `height`, from the given candidates.
fn list_steps(
    item_specs: &[ElementType],
    width: u32,
    height: u32,
    candidates: &Vec<Candidate>,
    beam: usize,
) -> (steps: Vec<Step>)
    requires
        all_sized(candidates@, item_specs@),
    ensures
        plans_of(steps@) == plans(
            item_specs@,
            width as int,
            height as int,
            moves_of(candidates@),
            if beam < candidates.len() {
                beam as int
            } else {
                candidates.len() as int
            },
        ),
        forall|k: int| 0 <= k < steps.len() ==> is_sized_step(#[trigger] steps[k], item_specs@),
{
    let n: usize = if beam < candidates.len() {
        beam
    } else {
        candidates.len()
    };
    let ghost moves = moves_of(candidates@);
    let mut steps: Vec<Step> = Vec::new();
    assert(plans_of(steps@) =~= seq![]);
    let mut i: usize = 0;
    while i < n
        invariant
            i <= n,
            n <= candidates.len(),
            moves == moves_of(candidates@),
            all_sized(candidates@, item_specs@),
            plans_of(steps@) == plans(
                item_specs@,
                width as int,
                height as int,
                moves,
                i as int,
            ),
            forall|k: int|
                0 <= k < steps.len() ==> is_sized_step(#[trigger] steps[k], item_specs@),
        decreases n - i,
    {
        let c = candidates[i];
        let ghost before = plans_of(steps@);
        assert(moves[i as int] == c@);
        assert(is_sized(c, item_specs@));
        let step = Step {
            index: c.index,
            width: c.width,
            height: c.height,
            rotated: c.rotated,
            vertical: true,
        };
        let ghost more = with_cuts(
            c@,
            cuts(item_specs[c.index as int], c.rotated, width as int, height as int),
        );
        if c.width == width {
            steps.push(step);
            assert(more =~= seq![step@]);
            assert(plans_of(steps@) =~= before + more);
        } else if c.height == height {
            let other = Step { vertical: false, ..step };
            steps.push(other);
            assert(more =~= seq![other@]);
            assert(plans_of(steps@) =~= before + more);
        } else {
            let other = Step { vertical: false, ..step };
            steps.push(step);
            steps.push(other);
            assert(more =~= seq![step@, other@]);
            assert(plans_of(steps@) =~= before + more);
        }
        i = i + 1;
    }
    steps
}

/// How many pieces are placed, as far as the figure that is reported can tell.
fn count_items(items: &Vec<PlacedItem>) -> (n: u32)
    ensures
        n == items.len() as u32,
{
    items.len() as u32
}

/// Follows one step on a `width` by `height` part: puts the piece into the corner, fills the
/// two parts that this leaves, and joins the layouts. Ends without a layout where the search is
/// stopped, and at the last level that can be numbered.
pub fn follow_step(
    width: u32,
    height: u32,
    items_counts: &[u32],
    item_specs: &[ElementType],
    memo: &mut MemoCache,
    depth: u32,
    control: &mut Control,
    beam_width: usize,
    blink_seed: u64,
    step: Step,
) -> (r: Option<Solution>)
    requires
        can_start(
            *old(memo),
            beam_width,
            blink_seed,
            item_specs@,
            items_counts@,
            width as int,
            height as int,
        ),
        is_sized_step(step, item_specs@),
        items_counts[step.index as int] > 0,
        step.width <= width,
        step.height <= height,
    ensures
        final(memo).specs() == old(memo).specs(),
        final(memo).stock() == old(memo).stock(),
        extends(old(control).polls(), final(control).polls()),
        final(control).timeout() == old(control).timeout(),
        final(control).source() == old(control).source(),
        ({
            let s = setting(*old(memo), beam_width, blink_seed);
            let run = followed(
                s,
                width as int,
                height as int,
                items_counts@,
                depth,
                step@,
                old(memo)@,
                final(control).polls(),
                old(control).polls().len() as int,
            );
            &&& run.result == layout_of(r)
            &&& run.memo == final(memo)@
            &&& run.at == final(control).polls().len()
            &&& is_sound_memo(s, final(memo)@)
            &&& r matches Some(found) ==> is_sound(
                s,
                width as int,
                height as int,
                items_counts@,
                found@,
            )
        }),
    decreases u32::MAX - depth, 0int,
{
    let ghost s = setting(*memo, beam_width, blink_seed);
    let ghost w = width as int;
    let ghost h = height as int;
    let ghost counts = items_counts@;
    let ghost plan = step@;
    let ghost start = *memo;
    let ghost answers = control.polls();
    let ghost piece = s.specs[plan.kind].tile(0, 0, plan.rotated);
    let ghost a = first_part(w, h, piece.w, piece.h, plan.vertical);
    let ghost b = second_part(w, h, piece.w, piece.h, plan.vertical);
    let ghost rest = less_one(counts, plan.kind);
    proof {
        lemma_parts(s, w, h, counts, plan);
        lemma_in_range_shrinks(s.specs, s.stock, s.stock, w, h, a.w, a.h);
        lemma_in_range_shrinks(s.specs, s.stock, s.stock, w, h, b.w, b.h);
    }
    if depth == u32::MAX {
        return None;
    }
    let mut new_counts: Vec<u32> = slice_to_vec(items_counts);
    let left: u32 = new_counts[step.index];
    new_counts.set(step.index, left - 1);
    assert(new_counts@ =~= rest);
    let first_w: u32 = if step.vertical {
        width - step.width
    } else {
        step.width
    };
    let first_h: u32 = if step.vertical {
        step.height
    } else {
        height - step.height
    };
    let one = solve_recursive(
        first_w,
        first_h,
        new_counts.as_slice(),
        item_specs,
        memo,
        depth + 1,
        control,
        beam_width,
        blink_seed,
    );
    let ghost polls_one = control.polls();
    let first = match one {
        Some(first) => first,
        None => {
            return None;
        },
    };
    let ghost layout_one = first@;
    let ghost memo_one = *memo;
    assert(is_sound(s, a.w, a.h, rest, layout_one));
    let second_w: u32 = if step.vertical {
        width
    } else {
        width - step.width
    };
    let second_h: u32 = if step.vertical {
        height - step.height
    } else {
        height
    };
    let two = solve_recursive(
        second_w,
        second_h,
        first.remaining_counts.as_slice(),
        item_specs,
        memo,
        depth + 1,
        control,
        beam_width,
        blink_seed,
    );
    proof {
        lemma_search_extends(
            s,
            a.w,
            a.h,
            rest,
            start@,
            deeper(depth),
            polls_one,
            control.polls(),
            answers.len() as int,
        );
    }
    let second = match two {
        Some(second) => second,
        None => {
            return None;
        },
    };
    let ghost layout_two = second@;
    let ghost whole = joined(piece, plan.vertical, layout_one, layout_two);
    proof {
        lemma_followed_sound(
            s,
            w,
            h,
            counts,
            depth,
            plan,
            start@,
            control.polls(),
            answers.len() as int,
        );
        lemma_guillotine_packing(s.specs, a.w, a.h, layout_one);
        lemma_guillotine_packing(s.specs, b.w, b.h, layout_two);
        lemma_guillotine_packing(s.specs, w, h, whole);
        assert(w * h <= u32::MAX * u32::MAX) by (nonlinear_arith)
            requires
                0 <= w <= u32::MAX,
                0 <= h <= u32::MAX,
        ;
        assert(0 <= piece.w * piece.h) by (nonlinear_arith)
            requires
                0 <= piece.w,
                0 <= piece.h,
        ;
        lemma_inside_grows(layout_one.tiles, a.w, a.h, u32::MAX - a.x, u32::MAX - a.y);
        lemma_inside_grows(layout_two.tiles, b.w, b.h, u32::MAX - b.x, u32::MAX - b.y);
    }
    let item_area: u64 = step.width as u64 * step.height as u64;
    let total_area: u64 = item_area + first.total_area + second.total_area;
    let corner = PlacedItem {
        x: 0,
        y: 0,
        width: step.width,
        height: step.height,
        name: item_specs[step.index].name.clone(),
        rotated: step.rotated,
    };
    assert(corner@ == piece);
    let items = join_items(corner, step.vertical, first.items, second.items);
    let found = Solution { items, remaining_counts: second.remaining_counts, total_area };
    assert(found@ == whole);
    Some(found)
}

/// What lies on a smaller sheet lies on a larger one.
pub proof fn lemma_inside_grows(tiles: Seq<Tile>, w: int, h: int, w2: int, h2: int)
    requires
        all_inside(tiles, w, h),
        w <= w2,
        h <= h2,
    ensures
        all_inside(tiles, w2, h2),
{
    assert forall|i: int| 0 <= i < tiles.len() implies inside(#[trigger] tiles[i], w2, h2) by {
        assert(inside(tiles[i], w, h));
    }
}

/// Searches for a layout of a `width` by `height` part with the given pieces. Ends without a
/// layout where the search is stopped.
pub fn solve_recursive(
    width: u32,
    height: u32,
    items_counts: &[u32],
    item_specs: &[ElementType],
    memo: &mut MemoCache,
    depth: u32,
    control: &mut Control,
    beam_width: usize,
    blink_seed: u64,
) -> (r: Option<Solution>)
    requires
        can_start(
            *old(memo),
            beam_width,
            blink_seed,
            item_specs@,
            items_counts@,
            width as int,
            height as int,
        ),
    ensures
        final(memo).specs() == old(memo).specs(),
        final(memo).stock() == old(memo).stock(),
        extends(old(control).polls(), final(control).polls()),
        final(control).timeout() == old(control).timeout(),
        final(control).source() == old(control).source(),
        ({
            let s = setting(*old(memo), beam_width, blink_seed);
            let run = search(
                s,
                width as int,
                height as int,
                items_counts@,
                old(memo)@,
                depth,
                final(control).polls(),
                old(control).polls().len() as int,
            );
            &&& run.result == layout_of(r)
            &&& run.memo == final(memo)@
            &&& run.at == final(control).polls().len()
            &&& is_sound_memo(s, final(memo)@)
            &&& r matches Some(found) ==> is_sound(
                s,
                width as int,
                height as int,
                items_counts@,
                found@,
            )
        }),
    decreases u32::MAX - depth, 1int,
{
    let ghost s = setting(*memo, beam_width, blink_seed);
    let ghost w = width as int;
    let ghost h = height as int;
    let ghost counts = items_counts@;
    let ghost start = *memo;
    let ghost answers = control.polls();
    let ghost at = answers.len() as int;
    let stop = control.poll(depth);
    if stop {
        return None;
    }
    let key = MemoKey::new(width, height, items_counts);
    if depth > 1 {
        match memo.get(&key) {
            Some(cached) => {
                proof {
                    lemma_search_sound(s, w, h, counts, start@, depth, control.polls(), at);
                }
                return Some(cached);
            },
            None => {},
        }
    }
    proof {
        lemma_in_range_shrinks(s.specs, s.stock, counts, w, h, w, h);
    }
    let mut best = Solution {
        items: Vec::new(),
        remaining_counts: slice_to_vec(items_counts),
        total_area: 0,
    };
    assert(best@.tiles =~= blank(counts).tiles);
    let candidates = line_up(item_specs, items_counts, width, height, depth, blink_seed);
    if candidates.len() == 0 {
        proof {
            assert(moves_of(candidates@).len() == 0);
            lemma_search_sound(s, w, h, counts, start@, depth, control.polls(), at);
        }
        return Some(best);
    }
    let beam: usize = beam_width_at(depth, beam_width);
    let steps = list_steps(item_specs, width, height, &candidates, beam);
    let ghost todo = plans_of(steps@);
    proof {
        assert(moves_of(candidates@).len() == candidates.len());
        assert(todo == node_plans(s, w, h, counts, depth));
        lemma_node_plans(s, w, h, counts, depth);
        assert(w * h <= u32::MAX * u32::MAX) by (nonlinear_arith)
            requires
                0 <= w <= u32::MAX,
                0 <= h <= u32::MAX,
        ;
    }
    let mut n: usize = 0;
    while n < steps.len()
        invariant
            n <= steps.len(),
            w == width,
            h == height,
            w * h <= u32::MAX * u32::MAX,
            counts == items_counts@,
            s == setting(start, beam_width, blink_seed),
            start == *old(memo),
            answers == old(control).polls(),
            at == answers.len(),
            memo.specs() == start.specs(),
            memo.stock() == start.stock(),
            key == memo_key(w, h, counts),
            can_start(*memo, beam_width, blink_seed, item_specs@, counts, w, h),
            todo == plans_of(steps@),
            todo == node_plans(s, w, h, counts, depth),
            forall|k: int| 0 <= k < todo.len() ==> is_plan(s, w, h, counts, #[trigger] todo[k]),
            forall|k: int|
                0 <= k < steps.len() ==> is_sized_step(#[trigger] steps[k], item_specs@),
            extends(answers, control.polls()),
            control.timeout() == old(control).timeout(),
            control.source() == old(control).source(),
            answers.len() < control.polls().len(),
            !control.polls()[at],
            depth > 1 ==> !start@.contains_key(key),
            lineup(s.specs, counts, w, h, depth, s.seed).len() > 0,
            is_sound_memo(s, start@),
            is_part(s, w, h, counts),
            explored(
                s,
                w,
                h,
                counts,
                depth,
                todo,
                n as int,
                start@,
                control.polls(),
                at + 1,
            ) == (Progress {
                best: best@,
                memo: memo@,
                at: control.polls().len() as int,
                full: false,
            }),
        decreases steps.len() - n,
    {
        let ghost polls_before = control.polls();
        let ghost memo_before = memo@;
        let step = steps[n];
        assert(todo[n as int] == step@);
        assert(is_plan(s, w, h, counts, todo[n as int]));
        let found = follow_step(
            width,
            height,
            items_counts,
            item_specs,
            memo,
            depth,
            control,
            beam_width,
            blink_seed,
            step,
        );
        proof {
            lemma_explored_extends(
                s,
                w,
                h,
                counts,
                depth,
                todo,
                n as int,
                start@,
                polls_before,
                control.polls(),
                at + 1,
            );
        }
        match found {
            Some(solution) => {
                if solution.total_area > best.total_area {
                    best = solution;
                    control.report(best.total_area, count_items(&best.items));
                    if best.total_area == width as u64 * height as u64 {
                        proof {
                            lemma_explored_full(
                                s,
                                w,
                                h,
                                counts,
                                depth,
                                todo,
                                n + 1,
                                todo.len() as int,
                                start@,
                                control.polls(),
                                at + 1,
                            );
                            lemma_search_sound(
                                s,
                                w,
                                h,
                                counts,
                                start@,
                                depth,
                                control.polls(),
                                at,
                            );
                        }
                        return Some(best);
                    }
                }
            },
            None => {},
        }
        n = n + 1;
    }
    if depth > 1 {
        memo.insert(key, best.clone());
    }
    proof {
        lemma_search_sound(s, w, h, counts, start@, depth, control.polls(), at);
    }
    Some(best)
}

/// Once a layout fills the whole part, the plans that are left change nothing.
proof fn lemma_explored_full(
    s: Setting,
    w: int,
    h: int,
    counts: Seq<u32>,
    depth: u32,
    todo: Seq<Plan>,
    n: int,
    m: int,
    memo: Map<MemoKey, Layout>,
    polls: Seq<bool>,
    at: int,
)
    requires
        0 <= n <= m,
        explored(s, w, h, counts, depth, todo, n, memo, polls, at).full,
    ensures
        explored(s, w, h, counts, depth, todo, m, memo, polls, at) == explored(
            s,
            w,
            h,
            counts,
            depth,
            todo,
            n,
            memo,
            polls,
            at,
        ),
    decreases m - n,
{
    if n < m {
        lemma_explored_full(s, w, h, counts, depth, todo, n, m - 1, memo, polls, at);
    }
}

} // verus!
