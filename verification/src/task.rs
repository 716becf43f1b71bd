//! The stages of a task: the search that starts with each first move, and what is done with the
//! best layout afterwards.

use crate::candidates::{all_sized, is_sized, moves_of, Candidate, Move};
use crate::control::Control;
use crate::gaps::{gap_fill, kinds_left, lemma_gap_fill_kinds};
use crate::layout::{area_of, Layout};
use crate::memo::{MemoCache, Solution};
use crate::order::indices;
use crate::packing::{area_in_range, is_piece, Packing};
use crate::pieces::{less_one, tiles_of, total, ElementType, PlacedItem, Tile};
use crate::search::{
    can_start, extends, follow_step, followed, is_sized_step, is_sound, is_sound_memo,
    layout_of, plans_of, setting, Plan, Step,
};
use crate::swap::{
    drawn_on, find_kind, is_swap_by_dice, kind_named, lemma_kind_named, lemma_repacked_complete,
    lemma_repacked_pieces, may_move, moves_in_range, never_stuck, repacked, try_local_swap,
    Window,
};
use crate::tally::{distinct_names, lemma_named_concat, named};
use vstd::prelude::*;

verus! {

/// Each move with a vertical cut beside the piece, then with a horizontal one.
pub open spec fn both_ways(moves: Seq<Move>) -> Seq<Plan> {
    Seq::new(
        2 * moves.len(),
        |k: int|
            Plan { kind: moves[k / 2].kind, rotated: moves[k / 2].rotated, vertical: k % 2 == 0 },
    )
}

/// Every move is made both ways, one after the other, and nothing else is.
pub proof fn lemma_both_ways(moves: Seq<Move>, k: int)
    requires
        0 <= k < moves.len(),
    ensures
        both_ways(moves).len() == 2 * moves.len(),
        both_ways(moves)[2 * k] == (Plan {
            kind: moves[k].kind,
            rotated: moves[k].rotated,
            vertical: true,
        }),
        both_ways(moves)[2 * k + 1] == (Plan {
            kind: moves[k].kind,
            rotated: moves[k].rotated,
            vertical: false,
        }),
{
    assert((2 * k) / 2 == k && (2 * k + 1) / 2 == k);
}

/// The steps to start with: each first move with a vertical cut, then with a horizontal one.
pub fn first_steps(moves: &Vec<Candidate>, item_specs: &[ElementType]) -> (steps: Vec<Step>)
    requires
        all_sized(moves@, item_specs@),
    ensures
        plans_of(steps@) == both_ways(moves_of(moves@)),
        forall|k: int| 0 <= k < steps.len() ==> is_sized_step(#[trigger] steps[k], item_specs@),
{
    let mut steps: Vec<Step> = Vec::new();
    let mut i: usize = 0;
    while i < moves.len()
        invariant
            i <= moves.len(),
            all_sized(moves@, item_specs@),
            steps.len() == 2 * i,
            forall|k: int| 0 <= k < steps.len() ==> is_sized_step(#[trigger] steps[k], item_specs@),
            forall|k: int|
                0 <= k < steps.len() ==> (#[trigger] steps[k])@ == both_ways(moves_of(moves@))[k],
        decreases moves.len() - i,
    {
        let m = &moves[i];
        assert(is_sized(moves[i as int], item_specs@));
        assert((2 * i) / 2 == i && (2 * i + 1) / 2 == i);
        let step = Step {
            index: m.index,
            width: m.width,
            height: m.height,
            rotated: m.rotated,
            vertical: true,
        };
        steps.push(step);
        steps.push(Step { vertical: false, ..step });
        i = i + 1;
    }
    assert(plans_of(steps@) =~= both_ways(moves_of(moves@)));
    steps
}

/// Follows a first step on the whole sheet: puts the piece into the corner, fills the two parts
/// that this leaves, and joins the layouts.
pub fn follow_first_move(
    page_width: u32,
    page_height: u32,
    counts: &[u32],
    item_specs: &[ElementType],
    memo: &mut MemoCache,
    control: &mut Control,
    beam_width: usize,
    step: Step,
) -> (r: Option<Solution>)
    requires
        can_start(
            *old(memo),
            beam_width,
            0,
            item_specs@,
            counts@,
            page_width as int,
            page_height as int,
        ),
        is_sized_step(step, item_specs@),
        counts[step.index as int] > 0,
        step.width <= page_width,
        step.height <= page_height,
    ensures
        final(memo).specs() == old(memo).specs(),
        final(memo).stock() == old(memo).stock(),
        extends(old(control).polls(), final(control).polls()),
        final(control).timeout() == old(control).timeout(),
        final(control).source() == old(control).source(),
        ({
            let s = setting(*old(memo), beam_width, 0);
            let run = followed(
                s,
                page_width as int,
                page_height as int,
                counts@,
                0,
                step@,
                old(memo)@,
                final(control).polls(),
                old(control).polls().len() as int,
            );
            &&& run.result == layout_of(r)
            &&& run.memo == final(memo)@
            &&& run.at == final(control).polls().len()
            &&& is_sound_memo(s, final(memo)@)
            &&& r matches Some(found) ==> is_sound(
                s,
                page_width as int,
                page_height as int,
                counts@,
                found@,
            )
        }),
{
    follow_step(
        page_width,
        page_height,
        counts,
        item_specs,
        memo,
        0,
        control,
        beam_width,
        0,
        step,
    )
}

/// The best layout after another one was found.
pub open spec fn after_record(best: Layout, found: Layout) -> Layout {
    if found.area > best.area {
        found
    } else {
        best
    }
}

/// The best layout never covers less than before, nor less than what was found. It changes only for
/// one that covers more, and it is always one of the two.
pub proof fn lemma_after_record(best: Layout, found: Layout)
    ensures
        after_record(best, found).area >= best.area,
        after_record(best, found).area >= found.area,
        after_record(best, found) == best || after_record(best, found) == found,
        found.area <= best.area ==> after_record(best, found) == best,
{
}

/// Takes over a layout if it covers more than the best one so far.
pub fn take_record(best: &mut Solution, found: &Solution) -> (is_record: bool)
    ensures
        final(best)@ == after_record(old(best)@, found@),
        is_record <==> after_record(old(best)@, found@).area != old(best)@.area,
        is_record == (found@.area > old(best)@.area),
        final(best)@ == (if found@.area > old(best)@.area {
            found@
        } else {
            old(best)@
        }),
{
    if found.total_area > best.total_area {
        *best = found.clone();
        true
    } else {
        false
    }
}

/// An area is so much of a sheet that nothing better is needed.
pub open spec fn nearly_full(area: int, target: int) -> bool {
    area >= target * 99 / 100
}

/// Nothing better is needed exactly if less than one unit of area is missing to 99 percent. So a
/// full sheet needs nothing better, a larger area needs no more than a smaller one, and an area
/// of less than 99 percent by a unit or more does.
pub proof fn lemma_nearly_full(area: int, target: int)
    requires
        0 <= area,
        0 <= target,
    ensures
        nearly_full(area, target) <==> 100 * (area + 1) > 99 * target,
        nearly_full(target, target),
        nearly_full(area, target) ==> nearly_full(area + 1, target),
{
}

/// Whether a layout covers so much of the sheet that nothing better is needed: 99 percent,
/// rounded down to whole units of area.
pub fn is_nearly_full(area: u64, target_area: u64) -> (r: bool)
    requires
        target_area * 99 <= u64::MAX,
    ensures
        r == (area >= target_area * 99 / 100),
        r == nearly_full(area as int, target_area as int),
{
    area >= target_area * 99 / 100
}

/// One piece less of the kind with the given name, if there is such a kind.
pub open spec fn take_off(specs: Seq<ElementType>, counts: Seq<u32>, name: Seq<char>) -> Seq<u32> {
    match kind_named(specs, name, 0) {
        Some(k) => less_one(counts, k),
        None => counts,
    }
}

/// The counts after the first `n` of the given pieces have been taken off.
pub open spec fn all_taken_off(
    specs: Seq<ElementType>,
    counts: Seq<u32>,
    tiles: Seq<Tile>,
    n: int,
) -> Seq<u32>
    decreases n,
{
    if n <= 0 {
        counts
    } else {
        take_off(specs, all_taken_off(specs, counts, tiles, n - 1), tiles[n - 1].name)
    }
}

/// Piece `n` can be taken off after those before it.
pub open spec fn can_take_off(
    specs: Seq<ElementType>,
    counts: Seq<u32>,
    tiles: Seq<Tile>,
    n: int,
) -> bool {
    kind_named(specs, tiles[n].name, 0) matches Some(k) ==> k < counts.len() && all_taken_off(
        specs,
        counts,
        tiles,
        n,
    )[k] > 0
}

/// All pieces can be taken off, one after the other.
pub open spec fn takes_fit(specs: Seq<ElementType>, counts: Seq<u32>, tiles: Seq<Tile>) -> bool {
    forall|n: int| 0 <= n < tiles.len() ==> #[trigger] can_take_off(specs, counts, tiles, n)
}

/// A layout with more pieces. Each of them is taken from the first kind that has its name.
pub open spec fn with_added(specs: Seq<ElementType>, layout: Layout, added: Seq<Tile>) -> Layout {
    Layout {
        tiles: layout.tiles + added,
        remaining: all_taken_off(specs, layout.remaining, added, added.len() as int),
        area: layout.area + area_of(added),
    }
}

/// Taking pieces off keeps the number of kinds.
pub proof fn lemma_taken_off_len(specs: Seq<ElementType>, counts: Seq<u32>, tiles: Seq<Tile>, n: int)
    requires
        takes_fit(specs, counts, tiles),
        n <= tiles.len(),
    ensures
        all_taken_off(specs, counts, tiles, n).len() == counts.len(),
    decreases n,
{
    if n > 0 {
        lemma_taken_off_len(specs, counts, tiles, n - 1);
        lemma_kind_named(specs, tiles[n - 1].name, 0);
        assert(can_take_off(specs, counts, tiles, n - 1));
    }
}

/// The areas of pieces add up to more with every piece.
proof fn lemma_area_prefix(tiles: Seq<Tile>, n: int)
    requires
        0 <= n <= tiles.len(),
        forall|k: int| 0 <= k < tiles.len() ==> 0 <= (#[trigger] tiles[k]).w && 0 <= tiles[k].h,
    ensures
        0 <= area_of(tiles.take(n)) <= area_of(tiles),
    decreases tiles.len(),
{
    if tiles.len() > 0 {
        let shorter = tiles.drop_last();
        let m = if n < tiles.len() {
            n
        } else {
            n - 1
        };
        assert(shorter.take(m) =~= tiles.take(m));
        assert(tiles.take(tiles.len() as int) =~= tiles);
        assert(shorter.take(shorter.len() as int) =~= shorter);
        assert forall|k: int| 0 <= k < shorter.len() implies 0 <= (#[trigger] shorter[k]).w && 0
            <= shorter[k].h by {
            assert(shorter[k] == tiles[k]);
        }
        lemma_area_prefix(shorter, m);
        let w = tiles.last().w;
        let h = tiles.last().h;
        assert(0 <= w && 0 <= h);
        assert(0 <= w * h) by (nonlinear_arith)
            requires
                0 <= w,
                0 <= h,
        ;
    } else {
        assert(tiles.take(n) =~= tiles);
    }
}

/// The areas of the pieces, added up.
pub fn sum_areas(items: &[PlacedItem]) -> (sum: u64)
    requires
        area_of(tiles_of(items@)) <= u64::MAX,
    ensures
        sum == area_of(tiles_of(items@)),
{
    let ghost tiles = tiles_of(items@);
    let mut sum: u64 = 0;
    let mut i: usize = 0;
    assert(tiles.take(0) =~= seq![]);
    while i < items.len()
        invariant
            i <= items.len(),
            tiles == tiles_of(items@),
            area_of(tiles) <= u64::MAX,
            sum == area_of(tiles.take(i as int)),
        decreases items.len() - i,
    {
        let w: u32 = items[i].width;
        let h: u32 = items[i].height;
        proof {
            assert(tiles.take(i + 1).drop_last() =~= tiles.take(i as int));
            assert(tiles.take(i + 1).last() == items[i as int]@);
            lemma_area_prefix(tiles, i + 1);
            assert(0 <= w * h <= u32::MAX * u32::MAX) by (nonlinear_arith)
                requires
                    0 <= w <= u32::MAX,
                    0 <= h <= u32::MAX,
            ;
        }
        sum = sum + w as u64 * h as u64;
        i = i + 1;
    }
    assert(tiles.take(i as int) =~= tiles);
    sum
}

/// Adds pieces to a layout.
pub fn add_pieces(solution: &mut Solution, additional: Vec<PlacedItem>, specs: &[ElementType])
    requires
        takes_fit(specs@, old(solution)@.remaining, tiles_of(additional@)),
        old(solution)@.area + area_of(tiles_of(additional@)) <= u64::MAX,
    ensures
        final(solution)@ == with_added(specs@, old(solution)@, tiles_of(additional@)),
{
    let ghost start = solution@;
    let ghost added = tiles_of(additional@);
    let ghost there = solution.items@;
    let added_area: u64 = sum_areas(additional.as_slice());
    let mut i: usize = 0;
    while i < additional.len()
        invariant
            i <= additional.len(),
            added == tiles_of(additional@),
            takes_fit(specs@, start.remaining, added),
            solution.remaining_counts@ == all_taken_off(
                specs@,
                start.remaining,
                added,
                i as int,
            ),
            solution.items@ == there,
            solution.total_area == start.area,
        decreases additional.len() - i,
    {
        assert(added[i as int] == additional[i as int]@);
        assert(can_take_off(specs@, start.remaining, added, i as int));
        proof {
            lemma_taken_off_len(specs@, start.remaining, added, i as int);
            lemma_kind_named(specs@, additional[i as int].name@, 0);
        }
        match find_kind(specs, &additional[i].name) {
            Some(k) => {
                let left: u32 = solution.remaining_counts[k];
                solution.remaining_counts.set(k, left - 1);
                assert(solution.remaining_counts@ =~= all_taken_off(
                    specs@,
                    start.remaining,
                    added,
                    i + 1,
                ));
            },
            None => {},
        }
        i = i + 1;
    }
    let mut more = additional;
    solution.items.append(&mut more);
    solution.total_area = solution.total_area + added_area;
    assert(tiles_of(solution.items@) =~= tiles_of(there) + added);
}

/// Filling gaps takes each piece from the kind that it is of, if no two kinds have the same
/// name. So the pieces of a kind that are on the sheet and those that are left are as many as
/// before.
pub proof fn lemma_gap_fill_accounts(
    pw: int,
    ph: int,
    specs: Seq<ElementType>,
    layout: Layout,
)
    requires
        0 <= pw,
        0 <= ph,
        distinct_names(specs),
        area_in_range(specs, layout.remaining),
        specs.len() <= layout.remaining.len(),
    ensures
        ({
            let added = gap_fill(pw, ph, layout.tiles, specs, layout.remaining);
            let after = with_added(specs, layout, added);
            &&& takes_fit(specs, layout.remaining, added)
            &&& forall|i: int|
                0 <= i < specs.len() ==> named(after.tiles, (#[trigger] specs[i]).name@)
                    + after.remaining[i] == named(layout.tiles, specs[i].name@)
                    + layout.remaining[i]
        }),
{
    let added = gap_fill(pw, ph, layout.tiles, specs, layout.remaining);
    let after = with_added(specs, layout, added);
    let kinds = lemma_gap_fill_kinds(pw, ph, layout.tiles, specs, layout.remaining);
    assert forall|n: int| 0 <= n < added.len() implies #[trigger] can_take_off(
        specs,
        layout.remaining,
        added,
        n,
    ) by {
        lemma_taken_off(specs, layout.remaining, added, kinds, n);
        lemma_name_of_kind(specs, layout.remaining, added, kinds, n);
        if kinds.take(n).contains(kinds[n]) {
            let m = choose|m: int| 0 <= m < n && kinds.take(n)[m] == kinds[n];
            assert(kinds[m] != kinds[n]);
        }
    }
    assert forall|i: int| 0 <= i < specs.len() implies named(
        after.tiles,
        (#[trigger] specs[i]).name@,
    ) + after.remaining[i] == named(layout.tiles, specs[i].name@) + layout.remaining[i] by {
        lemma_taken_off(specs, layout.remaining, added, kinds, added.len() as int);
        assert(added.take(added.len() as int) =~= added);
        lemma_named_concat(layout.tiles, added, specs[i].name@);
    }
}

/// A piece of a kind has that kind's name, which leads back to the kind.
proof fn lemma_name_of_kind(
    specs: Seq<ElementType>,
    remaining: Seq<u32>,
    added: Seq<Tile>,
    kinds: Seq<int>,
    n: int,
)
    requires
        distinct_names(specs),
        area_in_range(specs, remaining),
        0 <= n < added.len() == kinds.len(),
        0 <= kinds[n] < remaining.len(),
        remaining[kinds[n]] > 0,
        is_piece(added[n], specs[kinds[n]]),
    ensures
        kinds[n] < specs.len(),
        added[n].name == specs[kinds[n]].name@,
        kind_named(specs, added[n].name, 0) == Some(kinds[n]),
{
    let name = added[n].name;
    assert(remaining[kinds[n]] > 0);
    lemma_kind_named(specs, name, 0);
    assert(specs[kinds[n]].name@ == name);
    match kind_named(specs, name, 0) {
        Some(k) => {
            if k < kinds[n] {
                assert(specs[k].name@ != specs[kinds[n]].name@);
            }
        },
        None => {},
    }
}

/// The counts after some of the added pieces have been taken off.
proof fn lemma_taken_off(
    specs: Seq<ElementType>,
    remaining: Seq<u32>,
    added: Seq<Tile>,
    kinds: Seq<int>,
    n: int,
)
    requires
        distinct_names(specs),
        area_in_range(specs, remaining),
        0 <= n <= added.len() == kinds.len(),
        specs.len() <= remaining.len(),
        forall|k: int|
            0 <= k < kinds.len() ==> 0 <= #[trigger] kinds[k] < remaining.len()
                && remaining[kinds[k]] > 0 && is_piece(added[k], specs[kinds[k]]),
        forall|a: int, b: int|
            0 <= a < b < kinds.len() ==> #[trigger] kinds[a] != #[trigger] kinds[b],
    ensures
        all_taken_off(specs, remaining, added, n).len() == remaining.len(),
        forall|i: int|
            0 <= i < remaining.len() && !kinds.take(n).contains(i) ==> #[trigger] all_taken_off(
                specs,
                remaining,
                added,
                n,
            )[i] == remaining[i],
        forall|i: int|
            0 <= i < specs.len() ==> named(added.take(n), (#[trigger] specs[i]).name@)
                + all_taken_off(specs, remaining, added, n)[i] == remaining[i],
    decreases n,
{
    if n <= 0 {
        assert(added.take(n) =~= seq![]);
    } else {
        lemma_taken_off(specs, remaining, added, kinds, n - 1);
        let m = n - 1;
        assert(0 <= kinds[m] < remaining.len() && remaining[kinds[m]] > 0 && is_piece(
            added[m],
            specs[kinds[m]],
        ));
        lemma_name_of_kind(specs, remaining, added, kinds, m);
        let before = all_taken_off(specs, remaining, added, m);
        let after = all_taken_off(specs, remaining, added, n);
        let kind = kinds[m];
        assert(after == less_one(before, kind));
        assert(!kinds.take(m).contains(kind)) by {
            if kinds.take(m).contains(kind) {
                let a = choose|a: int| 0 <= a < m && kinds.take(m)[a] == kind;
                assert(kinds[a] != kinds[m]);
            }
        }
        assert(before[kind] == remaining[kind]);
        assert forall|i: int|
            0 <= i < remaining.len() && !kinds.take(n).contains(i) implies #[trigger] after[i]
            == remaining[i] by {
            assert(kinds.take(n)[m] == kind);
            if kinds.take(m).contains(i) {
                let a = choose|a: int| 0 <= a < m && kinds.take(m)[a] == i;
                assert(kinds.take(n)[a] == i);
            }
            assert(before[i] == remaining[i]);
        }
        assert forall|i: int| 0 <= i < specs.len() implies named(
            added.take(n),
            (#[trigger] specs[i]).name@,
        ) + after[i] == remaining[i] by {
            assert(added.take(n).drop_last() =~= added.take(m));
            assert(added.take(n).last() == added[m]);
            if i < kind {
                assert(specs[i].name@ != specs[kind].name@);
            } else if kind < i {
                assert(specs[kind].name@ != specs[i].name@);
            }
        }
    }
}

/// The area of every piece is a number that a `u32` can hold.
pub open spec fn all_small(tiles: Seq<Tile>) -> bool {
    forall|k: int| 0 <= k < tiles.len() ==> (#[trigger] tiles[k]).w * tiles[k].h <= u32::MAX
}

/// A list of small pieces covers at most the largest area for each piece.
pub proof fn lemma_small_areas(tiles: Seq<Tile>)
    requires
        all_small(tiles),
    ensures
        area_of(tiles) <= tiles.len() * u32::MAX,
    decreases tiles.len(),
{
    if tiles.len() > 0 {
        let shorter = tiles.drop_last();
        assert forall|k: int| 0 <= k < shorter.len() implies (#[trigger] shorter[k]).w
            * shorter[k].h <= u32::MAX by {
            assert(shorter[k] == tiles[k]);
        }
        lemma_small_areas(shorter);
        assert(tiles.last().w * tiles.last().h <= u32::MAX);
    }
}

/// Pieces that are repacked are small if they were small before.
proof fn lemma_repacked_small(
    pw: int,
    ph: int,
    specs: Seq<ElementType>,
    placed: Seq<Tile>,
    remaining: Seq<u32>,
    win: Window,
)
    requires
        0 <= pw <= u32::MAX,
        0 <= ph <= u32::MAX,
        moves_in_range(specs, placed, remaining),
        all_small(placed),
    ensures
        repacked(pw, ph, specs, placed, remaining, win) matches Packing::Packed(tiles)
            ==> all_small(tiles) && area_of(tiles) <= u64::MAX,
{
    if let Packing::Packed(tiles) = repacked(pw, ph, specs, placed, remaining, win) {
        assert forall|k: int| 0 <= k < tiles.len() implies (#[trigger] tiles[k]).w * tiles[k].h
            <= u32::MAX by {
            lemma_repacked_pieces(pw, ph, specs, placed, remaining, win, k);
            if placed.contains(tiles[k]) {
                let i = choose|i: int| 0 <= i < placed.len() && placed[i] == tiles[k];
                assert(placed[i].w * placed[i].h <= u32::MAX);
            } else {
                let i = choose|i: int|
                    0 <= i < specs.len() && #[trigger] may_move(specs, placed, remaining, i)
                        && is_piece(tiles[k], specs[i]);
                let w = tiles[k].w;
                let h = tiles[k].h;
                let a = specs[i].width;
                let b = specs[i].height;
                assert(a * b <= u32::MAX);
                assert(w * h == a * b) by (nonlinear_arith)
                    requires
                        (w == a && h == b) || (w == b && h == a),
                ;
            }
        }
        lemma_small_areas(tiles);
        lemma_repacked_complete(pw, ph, specs, placed, remaining, win);
        let n = tiles.len();
        assert(n * u32::MAX <= u32::MAX * u32::MAX) by (nonlinear_arith)
            requires
                0 <= n <= u32::MAX,
        ;
    }
}

/// Tries to place all pieces that are left by clearing one window of the sheet after the other.
/// Where that succeeds, the area is counted anew.
pub fn swap_pieces(
    page_width: u32,
    page_height: u32,
    solution: &mut Solution,
    specs: &[ElementType],
) -> (swapped: bool)
    requires
        total(old(solution)@.remaining) == 0 || {
            &&& moves_in_range(specs@, old(solution)@.tiles, old(solution)@.remaining)
            &&& all_small(old(solution)@.tiles)
            &&& never_stuck(
                page_width as int,
                page_height as int,
                specs@,
                old(solution)@.tiles,
                old(solution)@.remaining,
            )
        },
    ensures
        total(old(solution)@.remaining) == 0 ==> !swapped,
        !swapped ==> final(solution)@ == old(solution)@,
        total(old(solution)@.remaining) > 0 ==> is_swap_by_dice(
            page_width as int,
            page_height as int,
            specs@,
            old(solution)@.tiles,
            old(solution)@.remaining,
            if swapped {
                Some(final(solution)@.tiles)
            } else {
                None
            },
        ),
        !swapped ==> total(old(solution)@.remaining) == 0 || exists|win: Window|
            {
                &&& drawn_on(win, page_width as int, page_height as int)
                &&& #[trigger] repacked(
                    page_width as int,
                    page_height as int,
                    specs@,
                    old(solution)@.tiles,
                    old(solution)@.remaining,
                    win,
                ) is Failed
            },
        swapped ==> exists|win: Window|
            {
                &&& drawn_on(win, page_width as int, page_height as int)
                &&& #[trigger] repacked(
                    page_width as int,
                    page_height as int,
                    specs@,
                    old(solution)@.tiles,
                    old(solution)@.remaining,
                    win,
                ) == Packing::Packed(final(solution)@.tiles)
            },
        swapped ==> final(solution)@.remaining == Seq::new(
            old(solution)@.remaining.len(),
            |i: int| 0u32,
        ),
        swapped ==> final(solution)@.area == area_of(final(solution)@.tiles),
{
    let ghost start = solution@;
    let swapped = try_local_swap(
        page_width,
        page_height,
        &mut solution.items,
        specs,
        &mut solution.remaining_counts,
    );
    if swapped {
        proof {
            let win = choose|win: Window|
                {
                    &&& drawn_on(win, page_width as int, page_height as int)
                    &&& #[trigger] repacked(
                        page_width as int,
                        page_height as int,
                        specs@,
                        start.tiles,
                        start.remaining,
                        win,
                    ) == Packing::Packed(tiles_of(solution.items@))
                };
            lemma_repacked_small(
                page_width as int,
                page_height as int,
                specs@,
                start.tiles,
                start.remaining,
                win,
            );
        }
        solution.total_area = sum_areas(solution.items.as_slice());
    }
    swapped
}

/// The kinds of which pieces are left.
pub fn list_unplaced(remaining: &[u32]) -> (kinds: Vec<usize>)
    ensures
        indices(kinds@) == kinds_left(remaining@, remaining.len() as int),
{
    let mut kinds: Vec<usize> = Vec::new();
    let mut i: usize = 0;
    assert(indices(kinds@) =~= seq![]);
    while i < remaining.len()
        invariant
            i <= remaining.len(),
            indices(kinds@) == kinds_left(remaining@, i as int),
        decreases remaining.len() - i,
    {
        let ghost before = indices(kinds@);
        if remaining[i] > 0 {
            kinds.push(i);
            assert(indices(kinds@) =~= before.push(i as int));
        }
        i = i + 1;
    }
    kinds
}

/// How many moves are followed when hard pieces are placed: at least sixteen.
pub open spec fn widened(beam: nat) -> nat {
    if beam < 16 {
        16
    } else {
        beam
    }
}

/// The beam for hard pieces is no narrower than the one that was asked for, and sixteen moves wide
/// at least. It is no wider than it has to be.
pub proof fn lemma_widened(beam: nat)
    ensures
        widened(beam) >= 16,
        widened(beam) >= beam,
        widened(beam) == 16 || widened(beam) == beam,
{
}

/// How many moves are followed when hard pieces are placed.
pub fn wider_beam(beam_width: usize) -> (r: usize)
    ensures
        r == widened(beam_width as nat),
{
    if beam_width < 16 {
        16
    } else {
        beam_width
    }
}

} // verus!
