//! What is done with the best layout of a task: gaps are filled, windows are repacked, and hard
//! pieces are placed by force.

use crate::candidates::in_range;
use crate::control::Signals;
use crate::forced::{
    better_of, forced_plans, goal_driven_forced, improves, is_best_in_time, is_best_of_rounds,
    is_better, is_forced, is_try,
};
use crate::free_space::all_have_edges;
use crate::gaps::{
    gap_fill, kinds_left, lemma_gap_fill_apart, lemma_gap_fill_inside, lemma_gap_fill_kinds,
    lemma_kinds_left, try_fill_gaps,
};
use crate::layout::{
    all_apart, all_inside, area_of, first_part, guillotine, inside, is_packing,
    lemma_guillotine_packing, realises, second_part, CutTree, Layout,
};
use crate::memo::{tells_apart, Solution};
use crate::order::indices;
use crate::packing::{area_in_range, Packing};
use crate::pieces::{sum_counts, tiles_of, total, within, ElementType, Tile};
use crate::search::{is_sound, layout_of, Setting};
use crate::swap::{
    drawn_on, is_swap_by_dice, kind_named, lemma_kind_named, lemma_repacked_complete,
    lemma_repacked_names, lemma_repacked_packing, may_move, moves_in_range, never_stuck,
    repacked, Window,
};
use crate::tally::{distinct_names, lemma_named_accounted, named};
use crate::task::{
    add_pieces, all_small, lemma_gap_fill_accounts, list_unplaced, swap_pieces, takes_fit,
    widened, wider_beam, with_added,
};
use vstd::prelude::*;

verus! {

/// The layout with its gaps filled, as far as pieces are left.
pub open spec fn filled_up(pw: int, ph: int, specs: Seq<ElementType>, layout: Layout) -> Layout {
    let added = gap_fill(pw, ph, layout.tiles, specs, layout.remaining);
    if total(layout.remaining) > 0 && added.len() > 0 {
        with_added(specs, layout, added)
    } else {
        layout
    }
}

/// Filling up adds the pieces that go into gaps behind those that are there, and their areas to
/// what is covered. Where no piece is left it changes nothing.
pub proof fn lemma_filled_up(pw: int, ph: int, specs: Seq<ElementType>, layout: Layout)
    ensures
        ({
            let filled = filled_up(pw, ph, specs, layout);
            let added = gap_fill(pw, ph, layout.tiles, specs, layout.remaining);
            &&& total(layout.remaining) > 0 ==> filled.tiles == layout.tiles + added
                && filled.area == layout.area + area_of(added)
            &&& total(layout.remaining) == 0 ==> filled == layout
        }),
{
    let added = gap_fill(pw, ph, layout.tiles, specs, layout.remaining);
    if added.len() == 0 {
        assert(layout.tiles + added =~= layout.tiles);
    }
}

/// The gaps of a layout can be filled.
pub open spec fn can_fill(pw: int, ph: int, specs: Seq<ElementType>, layout: Layout) -> bool {
    let added = gap_fill(pw, ph, layout.tiles, specs, layout.remaining);
    &&& total(layout.remaining) <= u32::MAX
    &&& total(layout.remaining) > 0 ==> {
        &&& all_have_edges(layout.tiles)
        &&& area_in_range(specs, layout.remaining)
        &&& takes_fit(specs, layout.remaining, added)
        &&& layout.area + area_of(added) <= u64::MAX
    }
}

/// Windows of a layout can be repacked, or need not be.
pub open spec fn can_swap(pw: int, ph: int, specs: Seq<ElementType>, layout: Layout) -> bool {
    total(layout.remaining) == 0 || {
        &&& moves_in_range(specs, layout.tiles, layout.remaining)
        &&& all_small(layout.tiles)
        &&& never_stuck(pw, ph, specs, layout.tiles, layout.remaining)
    }
}

/// The layout is what repacking some window comes to.
pub open spec fn is_swap(
    pw: int,
    ph: int,
    specs: Seq<ElementType>,
    before: Layout,
    after: Layout,
) -> bool {
    &&& total(before.remaining) > 0
    &&& exists|win: Window|
        {
            &&& drawn_on(win, pw, ph)
            &&& #[trigger] repacked(pw, ph, specs, before.tiles, before.remaining, win)
                == Packing::Packed(after.tiles)
        }
    &&& after.remaining == Seq::new(before.remaining.len(), |i: int| 0u32)
    &&& after.area == area_of(after.tiles)
}

/// The layout places pieces by force that another one leaves, and is better.
pub open spec fn is_leap(
    pw: int,
    ph: int,
    specs: Seq<ElementType>,
    counts: Seq<u32>,
    beam: nat,
    before: Layout,
    after: Layout,
) -> bool {
    let kinds = kinds_left(before.remaining, before.remaining.len() as int);
    &&& is_better(after, before)
    &&& is_forced(
        specs,
        counts,
        widened(beam),
        pw,
        ph,
        forced_plans(specs, pw, ph, kinds, kinds.len() as int),
        after,
    )
}

/// How a task can end: with the gaps of its layout filled, or with all pieces placed by
/// repacking a window, or with a better layout that places pieces by force.
pub open spec fn is_finish(
    pw: int,
    ph: int,
    specs: Seq<ElementType>,
    counts: Seq<u32>,
    beam: nat,
    layout: Layout,
    result: Layout,
) -> bool {
    let filled = filled_up(pw, ph, specs, layout);
    ||| result == filled
    ||| is_swap(pw, ph, specs, filled, result)
    ||| is_leap(pw, ph, specs, counts, beam, filled, result)
}

/// Every piece has the name of a kind.
pub open spec fn all_known(specs: Seq<ElementType>, tiles: Seq<Tile>) -> bool {
    forall|k: int|
        0 <= k < tiles.len() ==> kind_named(specs, (#[trigger] tiles[k]).name, 0) is Some
}

/// The pieces of a layout that can be cut have the names of kinds.
pub proof fn lemma_all_known(specs: Seq<ElementType>, w: int, h: int, layout: Layout)
    requires
        guillotine(specs, w, h, layout),
    ensures
        all_known(specs, layout.tiles),
{
    let tree = choose|tree: CutTree| realises(tree, specs, w, h, layout);
    lemma_tree_known(tree, specs, w, h);
}

proof fn lemma_tree_known(tree: CutTree, specs: Seq<ElementType>, w: int, h: int)
    requires
        tree.fits(specs, w, h),
    ensures
        all_known(specs, tree.tiles(specs)),
    decreases tree,
{
    match tree {
        CutTree::Leave => {},
        CutTree::Cut { kind, rotated, vertical, first, second } => {
            let piece = specs[kind].tile(0, 0, rotated);
            let a = first_part(w, h, piece.w, piece.h, vertical);
            let b = second_part(w, h, piece.w, piece.h, vertical);
            lemma_tree_known(*first, specs, a.w, a.h);
            lemma_tree_known(*second, specs, b.w, b.h);
            let one = first.tiles(specs);
            let two = second.tiles(specs);
            let all = tree.tiles(specs);
            assert forall|k: int| 0 <= k < all.len() implies kind_named(
                specs,
                (#[trigger] all[k]).name,
                0,
            ) is Some by {
                if k == 0 {
                    assert(all[0] == piece);
                    lemma_known(specs, kind);
                } else if k < 1 + one.len() {
                    assert(all[k].name == one[k - 1].name);
                } else {
                    assert(all[k].name == two[k - 1 - one.len()].name);
                }
            }
        },
    }
}

/// The name of a kind leads to a kind.
proof fn lemma_known(specs: Seq<ElementType>, kind: int)
    requires
        0 <= kind < specs.len(),
    ensures
        kind_named(specs, specs[kind].name@, 0) is Some,
{
    lemma_kind_named(specs, specs[kind].name@, 0);
    if kind_named(specs, specs[kind].name@, 0) is None {
        assert(specs[kind].name@ != specs[kind].name@);
    }
}

/// However a task ends, it ends with no fewer pieces than the search found. The pieces lie on the
/// sheet and do not overlap, if those of the search do so.
pub proof fn lemma_finish(
    pw: int,
    ph: int,
    specs: Seq<ElementType>,
    counts: Seq<u32>,
    beam: nat,
    layout: Layout,
    result: Layout,
)
    requires
        0 <= pw <= u32::MAX,
        0 <= ph <= u32::MAX,
        all_known(specs, layout.tiles),
        can_fill(pw, ph, specs, layout),
        can_swap(pw, ph, specs, filled_up(pw, ph, specs, layout)),
        is_finish(pw, ph, specs, counts, beam, layout, result),
    ensures
        result.tiles.len() >= layout.tiles.len(),
        all_apart(layout.tiles) ==> all_apart(result.tiles),
        is_packing(layout.tiles, pw, ph) ==> is_packing(result.tiles, pw, ph),
{
    let filled = filled_up(pw, ph, specs, layout);
    let added = gap_fill(pw, ph, layout.tiles, specs, layout.remaining);
    assert(filled.tiles.len() >= layout.tiles.len());
    assert(all_known(specs, filled.tiles)) by {
        let kinds = lemma_gap_fill_kinds(pw, ph, layout.tiles, specs, layout.remaining);
        let n = layout.tiles.len() as int;
        assert forall|k: int| 0 <= k < filled.tiles.len() implies kind_named(
            specs,
            (#[trigger] filled.tiles[k]).name,
            0,
        ) is Some by {
            if k < n {
                assert(filled.tiles[k] == layout.tiles[k]);
            } else {
                let i = kinds[k - n];
                assert(filled.tiles[k] == added[k - n]);
                assert(layout.remaining[i] > 0);
                lemma_known(specs, i);
            }
        }
    }
    if all_apart(layout.tiles) {
        lemma_gap_fill_apart(pw, ph, layout.tiles, specs, layout.remaining);
        assert(all_apart(filled.tiles));
    }
    if all_inside(layout.tiles, pw, ph) {
        lemma_gap_fill_inside(pw, ph, layout.tiles, specs, layout.remaining);
        let n = layout.tiles.len() as int;
        assert forall|k: int| 0 <= k < filled.tiles.len() implies inside(
            #[trigger] filled.tiles[k],
            pw,
            ph,
        ) by {
            if k < n {
                assert(filled.tiles[k] == layout.tiles[k]);
            } else {
                assert(filled.tiles[k] == added[k - n]);
            }
        }
    }
    if is_swap(pw, ph, specs, filled, result) {
        let win = choose|win: Window|
            {
                &&& drawn_on(win, pw, ph)
                &&& #[trigger] repacked(pw, ph, specs, filled.tiles, filled.remaining, win)
                    == Packing::Packed(result.tiles)
            };
        lemma_repacked_complete(pw, ph, specs, filled.tiles, filled.remaining, win);
        lemma_repacked_packing(pw, ph, specs, filled.tiles, filled.remaining, win);
    } else if is_leap(pw, ph, specs, counts, beam, filled, result) {
        let kinds = kinds_left(filled.remaining, filled.remaining.len() as int);
        let plans = forced_plans(specs, pw, ph, kinds, kinds.len() as int);
        let wide = widened(beam);
        let (seed, k) = choose|seed: u64, k: int| #[trigger]
            is_try(specs, counts, wide, pw, ph, plans, seed, k, result);
        let s = Setting { specs, stock: counts, beam: wide, seed };
        assert(is_sound(s, pw, ph, counts, result));
        lemma_guillotine_packing(specs, pw, ph, result);
    }
}

/// However a task ends, the pieces of a kind that are on the sheet and those that are left are
/// the pieces that the kind wants, if this is so for the layout that the search found. No two
/// kinds may have the same name, and the hash of the memo has to tell all counts apart.
pub proof fn lemma_finish_accounts(
    pw: int,
    ph: int,
    specs: Seq<ElementType>,
    counts: Seq<u32>,
    beam: nat,
    layout: Layout,
    result: Layout,
    i: int,
)
    requires
        0 <= pw <= u32::MAX,
        0 <= ph <= u32::MAX,
        can_fill(pw, ph, specs, layout),
        can_swap(pw, ph, specs, filled_up(pw, ph, specs, layout)),
        is_finish(pw, ph, specs, counts, beam, layout, result),
        distinct_names(specs),
        tells_apart(counts),
        specs.len() <= layout.remaining.len() == counts.len(),
        0 <= i < specs.len(),
        named(layout.tiles, specs[i].name@) + layout.remaining[i] == counts[i],
    ensures
        named(result.tiles, specs[i].name@) + result.remaining[i] == counts[i],
{
    let filled = filled_up(pw, ph, specs, layout);
    if total(layout.remaining) > 0 {
        lemma_gap_fill_accounts(pw, ph, specs, layout);
    }
    assert(named(filled.tiles, specs[i].name@) + filled.remaining[i] == counts[i]);
    if is_swap(pw, ph, specs, filled, result) {
        let win = choose|win: Window|
            {
                &&& drawn_on(win, pw, ph)
                &&& #[trigger] repacked(pw, ph, specs, filled.tiles, filled.remaining, win)
                    == Packing::Packed(result.tiles)
            };
        lemma_repacked_names(pw, ph, specs, filled.tiles, filled.remaining, win, i);
    } else if is_leap(pw, ph, specs, counts, beam, filled, result) {
        let kinds = kinds_left(filled.remaining, filled.remaining.len() as int);
        let plans = forced_plans(specs, pw, ph, kinds, kinds.len() as int);
        let wide = widened(beam);
        let (seed, k) = choose|seed: u64, k: int| #[trigger]
            is_try(specs, counts, wide, pw, ph, plans, seed, k, result);
        let s = Setting { specs, stock: counts, beam: wide, seed };
        assert(is_sound(s, pw, ph, counts, result));
        lemma_named_accounted(specs, pw, ph, counts, result, i);
    }
}

/// How a task ended: the layout, how many pieces went into gaps, the area covered after that,
/// whether repacking placed all pieces, how many pieces were left after that, the layout with
/// pieces placed by force, if that was tried and gave one, and whether that layout is the better
/// one.
#[derive(Debug, PartialEq, Eq)]
pub struct Finish {
    pub solution: Solution,
    pub added: usize,
    pub filled_area: u64,
    pub swapped: bool,
    pub left: u32,
    pub forced: Option<Solution>,
    pub improved: bool,
}

/// Fills the gaps of a layout, and says how many pieces that added.
pub fn fill_up(
    page_width: u32,
    page_height: u32,
    solution: &mut Solution,
    specs: &[ElementType],
) -> (added: usize)
    requires
        can_fill(page_width as int, page_height as int, specs@, old(solution)@),
    ensures
        final(solution)@ == filled_up(
            page_width as int,
            page_height as int,
            specs@,
            old(solution)@,
        ),
        added == final(solution)@.tiles.len() - old(solution)@.tiles.len(),
{
    let ghost start = solution@;
    if sum_counts(solution.remaining_counts.as_slice()) == 0 {
        return 0;
    }
    match try_fill_gaps(
        page_width,
        page_height,
        solution.items.as_slice(),
        specs,
        solution.remaining_counts.as_slice(),
    ) {
        Some(additional) => {
            let added: usize = additional.len();
            assert(tiles_of(additional@).len() == added);
            add_pieces(solution, additional, specs);
            added
        },
        None => 0,
    }
}

/// Finishes a task: fills the gaps of the best layout, tries to place what is then left by
/// repacking, and, if something is still left and there is time for it, by force.
pub fn finish_layout(
    page_width: u32,
    page_height: u32,
    specs: &[ElementType],
    counts: &[u32],
    best: Solution,
    beam_width: usize,
    goal_driven_seconds: u64,
    signals: &Signals,
) -> (r: Finish)
    requires
        can_fill(page_width as int, page_height as int, specs@, best@),
        can_swap(
            page_width as int,
            page_height as int,
            specs@,
            filled_up(page_width as int, page_height as int, specs@, best@),
        ),
        goal_driven_seconds > 0 && total(
            filled_up(page_width as int, page_height as int, specs@, best@).remaining,
        ) > 0 ==> in_range(specs@, counts@, page_width as int, page_height as int) && within(
            filled_up(page_width as int, page_height as int, specs@, best@).remaining,
            counts@,
        ),
    ensures
        is_finish(
            page_width as int,
            page_height as int,
            specs@,
            counts@,
            beam_width as nat,
            best@,
            r.solution@,
        ),
        r.added == filled_up(
            page_width as int,
            page_height as int,
            specs@,
            best@,
        ).tiles.len() - best@.tiles.len(),
        r.filled_area == filled_up(page_width as int, page_height as int, specs@, best@).area,
        total(filled_up(page_width as int, page_height as int, specs@, best@).remaining) == 0
            ==> r.solution@ == filled_up(page_width as int, page_height as int, specs@, best@),
        r.swapped ==> is_swap(
            page_width as int,
            page_height as int,
            specs@,
            filled_up(page_width as int, page_height as int, specs@, best@),
            r.solution@,
        ),
        ({
            let filled = filled_up(page_width as int, page_height as int, specs@, best@);
            total(filled.remaining) > 0 ==> is_swap_by_dice(
                page_width as int,
                page_height as int,
                specs@,
                filled.tiles,
                filled.remaining,
                if r.swapped {
                    Some(r.solution@.tiles)
                } else {
                    None
                },
            )
        }),
        !r.swapped ==> ({
            let filled = filled_up(page_width as int, page_height as int, specs@, best@);
            total(filled.remaining) == 0 || exists|win: Window|
                {
                    &&& drawn_on(win, page_width as int, page_height as int)
                    &&& #[trigger] repacked(
                        page_width as int,
                        page_height as int,
                        specs@,
                        filled.tiles,
                        filled.remaining,
                        win,
                    ) is Failed
                }
        }),
        r.left == (if r.swapped {
            0
        } else {
            total(filled_up(page_width as int, page_height as int, specs@, best@).remaining)
        }),
        r.improved == (match r.forced {
            Some(forced) => is_better(
                forced@,
                filled_up(page_width as int, page_height as int, specs@, best@),
            ),
            None => false,
        }),
        !r.swapped ==> better_of(
            Some(filled_up(page_width as int, page_height as int, specs@, best@)),
            layout_of(r.forced),
        ) == Some(r.solution@),
        r.left > 0 && goal_driven_seconds > 0 ==> ({
            let left = filled_up(
                page_width as int,
                page_height as int,
                specs@,
                best@,
            ).remaining;
            let kinds = kinds_left(left, left.len() as int);
            let plans = forced_plans(
                specs@,
                page_width as int,
                page_height as int,
                kinds,
                kinds.len() as int,
            );
            &&& plans.len() == 0 ==> r.forced is None
            &&& plans.len() > 0 ==> is_best_of_rounds(
                specs@,
                counts@,
                widened(beam_width as nat),
                page_width as int,
                page_height as int,
                plans,
                layout_of(r.forced),
            )
            &&& plans.len() > 0 ==> is_best_in_time(
                *signals,
                goal_driven_seconds,
                specs@,
                counts@,
                widened(beam_width as nat),
                page_width as int,
                page_height as int,
                plans,
                layout_of(r.forced),
            )
        }),
        r.left == 0 || goal_driven_seconds == 0 ==> r.forced is None,
        r.forced matches Some(forced) ==> !r.swapped && goal_driven_seconds > 0 && ({
            let left = filled_up(
                page_width as int,
                page_height as int,
                specs@,
                best@,
            ).remaining;
            let kinds = kinds_left(left, left.len() as int);
            is_forced(
                specs@,
                counts@,
                widened(beam_width as nat),
                page_width as int,
                page_height as int,
                forced_plans(
                    specs@,
                    page_width as int,
                    page_height as int,
                    kinds,
                    kinds.len() as int,
                ),
                forced@,
            )
        }),
{
    let ghost w = page_width as int;
    let ghost h = page_height as int;
    let ghost filled = filled_up(w, h, specs@, best@);
    let mut solution = best;
    let added: usize = fill_up(page_width, page_height, &mut solution, specs);
    let filled_area: u64 = solution.total_area;
    let swapped = swap_pieces(page_width, page_height, &mut solution, specs);
    if swapped {
        return Finish {
            solution,
            added,
            filled_area,
            swapped,
            left: 0,
            forced: None,
            improved: false,
        };
    }
    let left: u32 = sum_counts(solution.remaining_counts.as_slice());
    if left == 0 || goal_driven_seconds == 0 {
        return Finish {
            solution,
            added,
            filled_area,
            swapped,
            left,
            forced: None,
            improved: false,
        };
    }
    let kinds = list_unplaced(solution.remaining_counts.as_slice());
    proof {
        lemma_kinds_left(filled.remaining, filled.remaining.len() as int);
        assert forall|k: int| 0 <= k < kinds.len() implies #[trigger] kinds[k] < specs.len()
            && counts[kinds[k] as int] > 0 by {
            let i = indices(kinds@)[k];
            assert(filled.remaining[i] > 0);
            assert(may_move(specs@, filled.tiles, filled.remaining, i));
            assert(filled.remaining[i] <= counts[i]);
        }
    }
    let beam: usize = wider_beam(beam_width);
    let found = goal_driven_forced(
        page_width,
        page_height,
        specs,
        counts,
        kinds.as_slice(),
        beam,
        goal_driven_seconds,
        signals,
    );
    match found {
        Some(forced) => {
            if improves(&forced, &solution) {
                let copy = forced.clone();
                Finish {
                    solution: copy,
                    added,
                    filled_area,
                    swapped,
                    left,
                    forced: Some(forced),
                    improved: true,
                }
            } else {
                Finish {
                    solution,
                    added,
                    filled_area,
                    swapped,
                    left,
                    forced: Some(forced),
                    improved: false,
                }
            }
        },
        None => Finish {
            solution,
            added,
            filled_area,
            swapped,
            left,
            forced: None,
            improved: false,
        },
    }
}

} // verus!
