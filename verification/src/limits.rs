//! Checks that the numbers of a task are small enough for the arithmetic of its stages.

use crate::candidates::{in_range, move_in_range, piece_in_range, PIECE_LIMIT, SIDE_LIMIT};
use crate::finish::{can_fill, filled_up};
use crate::free_space::{all_have_edges, has_edges};
use crate::gaps::{gap_fill, lemma_gap_fill_inside, lemma_gap_fill_kinds, try_fill_gaps};
use crate::layout::{area_of, inside, Layout};
use crate::memo::Solution;
use crate::packing::{area_in_range, lemma_piece_area};
use crate::pieces::{
    lemma_total_within, lemma_within_trans, tiles_of, total, within, ElementType, PlacedItem,
    Tile,
};
use crate::score::{strips, STRIP_LIMIT};
use crate::swap::{find_kind, may_move, moves_have_area, moves_in_range};
use crate::tally::{distinct_names, lemma_named_concat, named};
use crate::task::{
    add_pieces, all_small, all_taken_off, can_take_off, lemma_gap_fill_accounts,
    lemma_small_areas, lemma_taken_off_len, takes_fit,
};
use vstd::prelude::*;
use vstd::slice::slice_to_vec;

verus! {

/// How many pieces a vector of counts holds in all.
pub fn count_all(counts: &[u32]) -> (sum: u128)
    ensures
        sum == total(counts@),
{
    let mut sum: u128 = 0;
    let mut i: usize = 0;
    while i < counts.len()
        invariant
            i <= counts.len(),
            sum == total(counts@.take(i as int)),
            sum <= i * u32::MAX,
        decreases counts.len() - i,
    {
        assert(counts@.take(i + 1).drop_last() =~= counts@.take(i as int));
        assert((i + 1) * u32::MAX == i * u32::MAX + u32::MAX) by (nonlinear_arith);
        assert(i * u32::MAX <= u64::MAX * u32::MAX) by (nonlinear_arith)
            requires
                0 <= i <= u64::MAX,
        ;
        sum = sum + counts[i] as u128;
        i = i + 1;
    }
    assert(counts@.take(i as int) =~= counts@);
    sum
}

/// The area of a piece.
fn area_between(w: u32, h: u32) -> (r: u64)
    ensures
        r == w * h,
{
    assert(0 <= w * h <= u32::MAX * u32::MAX) by (nonlinear_arith)
        requires
            0 <= w <= u32::MAX,
            0 <= h <= u32::MAX,
    ;
    w as u64 * h as u64
}

/// The areas of the pieces, added up.
fn sum_all_areas(items: &[PlacedItem]) -> (sum: u128)
    ensures
        sum == area_of(tiles_of(items@)),
{
    let ghost tiles = tiles_of(items@);
    let mut sum: u128 = 0;
    let mut i: usize = 0;
    assert(tiles.take(0) =~= seq![]);
    while i < items.len()
        invariant
            i <= items.len(),
            tiles == tiles_of(items@),
            sum == area_of(tiles.take(i as int)),
            sum <= i * u64::MAX,
        decreases items.len() - i,
    {
        assert(tiles.take(i + 1).drop_last() =~= tiles.take(i as int));
        assert(tiles.take(i + 1).last() == items[i as int]@);
        assert((i + 1) * u64::MAX == i * u64::MAX + u64::MAX) by (nonlinear_arith);
        assert(i * u64::MAX <= (u64::MAX - 1) * u64::MAX) by (nonlinear_arith)
            requires
                0 <= i <= u64::MAX - 1,
        ;
        let area: u64 = area_between(items[i].width, items[i].height);
        sum = sum + area as u128;
        i = i + 1;
    }
    assert(tiles.take(i as int) =~= tiles);
    sum
}

/// Whether the far edges of every piece are numbers that a `u32` can hold.
fn have_edges(items: &[PlacedItem]) -> (r: bool)
    ensures
        r == all_have_edges(tiles_of(items@)),
{
    let ghost tiles = tiles_of(items@);
    let limit: u64 = u32::MAX as u64;
    let mut i: usize = 0;
    while i < items.len()
        invariant
            i <= items.len(),
            limit == u32::MAX,
            tiles == tiles_of(items@),
            forall|k: int| 0 <= k < i ==> has_edges(#[trigger] tiles[k]),
        decreases items.len() - i,
    {
        let p = &items[i];
        assert(tiles[i as int] == p@);
        if p.x as u64 + p.width as u64 > limit || p.y as u64 + p.height as u64 > limit {
            assert(!has_edges(tiles[i as int]));
            return false;
        }
        i = i + 1;
    }
    true
}

/// Whether the area of every piece is a number that a `u32` can hold.
fn are_small(items: &[PlacedItem]) -> (r: bool)
    ensures
        r == all_small(tiles_of(items@)),
{
    let ghost tiles = tiles_of(items@);
    let mut i: usize = 0;
    while i < items.len()
        invariant
            i <= items.len(),
            tiles == tiles_of(items@),
            forall|k: int| 0 <= k < i ==> (#[trigger] tiles[k]).w * tiles[k].h <= u32::MAX,
        decreases items.len() - i,
    {
        let p = &items[i];
        assert(tiles[i as int] == p@);
        if area_between(p.width, p.height) > u32::MAX as u64 {
            assert(tiles[i as int].w * tiles[i as int].h > u32::MAX);
            return false;
        }
        i = i + 1;
    }
    true
}

/// Whether every piece that is left is of a known kind, and its area is a number that a `u32`
/// can hold.
fn are_areas_in_range(specs: &[ElementType], remaining: &[u32]) -> (r: bool)
    ensures
        r == area_in_range(specs@, remaining@),
{
    let mut i: usize = 0;
    while i < remaining.len()
        invariant
            i <= remaining.len(),
            forall|k: int|
                0 <= k < i && #[trigger] remaining[k] > 0 ==> k < specs.len() && specs[k].area()
                    <= u32::MAX,
        decreases remaining.len() - i,
    {
        if remaining[i] > 0 && (i >= specs.len() || area_between(specs[i].width, specs[i].height)
            > u32::MAX as u64) {
            assert(remaining@[i as int] > 0);
            return false;
        }
        i = i + 1;
    }
    true
}

/// Whether the first counts have no more pieces of any kind than the second.
fn are_within(low: &[u32], high: &[u32]) -> (r: bool)
    ensures
        r == within(low@, high@),
{
    if low.len() != high.len() {
        return false;
    }
    let mut i: usize = 0;
    while i < low.len()
        invariant
            i <= low.len() == high.len(),
            forall|k: int| 0 <= k < i ==> #[trigger] low[k] <= high[k],
        decreases low.len() - i,
    {
        if low[i] > high[i] {
            assert(low@[i as int] > high@[i as int]);
            return false;
        }
        i = i + 1;
    }
    true
}

/// The areas of the two strips that a piece leaves, added up as if each had the full length.
fn strip_areas(width: u32, height: u32, item_w: u32, item_h: u32) -> (sum: u128)
    ensures
        sum == strips(width as int, height as int, item_w as int, item_h as int).double_area(),
{
    let rem_w: u32 = if item_w <= width {
        width - item_w
    } else {
        0
    };
    let rem_h: u32 = if item_h <= height {
        height - item_h
    } else {
        0
    };
    assert(0 <= rem_w * height <= u32::MAX * u32::MAX && 0 <= width * rem_h <= u32::MAX
        * u32::MAX) by (nonlinear_arith)
        requires
            0 <= rem_w <= u32::MAX,
            0 <= height <= u32::MAX,
            0 <= width <= u32::MAX,
            0 <= rem_h <= u32::MAX,
    ;
    rem_w as u128 * height as u128 + width as u128 * rem_h as u128
}

/// Whether a piece and the strips that it leaves are small enough, if it fits.
fn is_move_in_range(spec: &ElementType, rotated: bool, width: u32, height: u32) -> (r: bool)
    ensures
        r == move_in_range(*spec, rotated, width as int, height as int),
{
    let item_w: u32 = if rotated {
        spec.height
    } else {
        spec.width
    };
    let item_h: u32 = if rotated {
        spec.width
    } else {
        spec.height
    };
    if item_w > width || item_h > height {
        return true;
    }
    let area: u128 = strip_areas(width, height, item_w, item_h);
    let is_short = spec.width <= SIDE_LIMIT && spec.height <= SIDE_LIMIT;
    area_between(spec.width, spec.height) <= PIECE_LIMIT && area <= i64::MAX as u128 && (area
        <= STRIP_LIMIT as u128 || is_short)
}

/// Whether the pieces and the strips that they leave on the sheet are small enough for the
/// arithmetic of scores and areas.
pub fn is_in_range(
    item_specs: &[ElementType],
    stock: &[u32],
    width: u32,
    height: u32,
) -> (r: bool)
    ensures
        r == in_range(item_specs@, stock@, width as int, height as int),
{
    if item_specs.len() > stock.len() {
        return false;
    }
    if count_all(stock) > u32::MAX as u128 {
        return false;
    }
    let mut k: usize = 0;
    while k < item_specs.len()
        invariant
            k <= item_specs.len() <= stock.len(),
            total(stock@) <= u32::MAX,
            forall|j: int|
                0 <= j < k && stock[j] > 0 ==> piece_in_range(
                    #[trigger] item_specs[j],
                    width as int,
                    height as int,
                ),
        decreases item_specs.len() - k,
    {
        let spec = &item_specs[k];
        let fine = is_move_in_range(spec, false, width, height) && is_move_in_range(
            spec,
            true,
            width,
            height,
        );
        if stock[k] > 0 && !fine {
            return false;
        }
        k = k + 1;
    }
    true
}

/// Whether all pieces can be taken off the counts, one after the other.
pub fn can_take_all(specs: &[ElementType], remaining: &[u32], items: &[PlacedItem]) -> (r: bool)
    ensures
        r == takes_fit(specs@, remaining@, tiles_of(items@)),
{
    let ghost tiles = tiles_of(items@);
    let mut counts: Vec<u32> = slice_to_vec(remaining);
    let mut i: usize = 0;
    while i < items.len()
        invariant
            i <= items.len(),
            tiles == tiles_of(items@),
            counts@ == all_taken_off(specs@, remaining@, tiles, i as int),
            counts.len() == remaining.len(),
            forall|n: int|
                0 <= n < i ==> #[trigger] can_take_off(specs@, remaining@, tiles, n),
        decreases items.len() - i,
    {
        assert(tiles[i as int] == items[i as int]@);
        match find_kind(specs, &items[i].name) {
            Some(k) => {
                if k >= counts.len() || counts[k] == 0 {
                    assert(!can_take_off(specs@, remaining@, tiles, i as int));
                    return false;
                }
                let left: u32 = counts[k];
                counts.set(k, left - 1);
                assert(counts@ =~= all_taken_off(specs@, remaining@, tiles, i + 1));
            },
            None => {},
        }
        i = i + 1;
    }
    true
}

/// Whether a piece with the name is on the sheet.
fn is_on_sheet(items: &[PlacedItem], name: &String) -> (r: bool)
    ensures
        r == exists|k: int| 0 <= k < items.len() && (#[trigger] tiles_of(items@)[k]).name == name@,
{
    let ghost tiles = tiles_of(items@);
    let mut i: usize = 0;
    while i < items.len()
        invariant
            i <= items.len(),
            tiles == tiles_of(items@),
            forall|k: int| 0 <= k < i ==> (#[trigger] tiles[k]).name != name@,
        decreases items.len() - i,
    {
        assert(tiles[i as int] == items[i as int]@);
        if items[i].name == *name {
            return true;
        }
        i = i + 1;
    }
    false
}

/// Whether every piece that may have to be packed is of a known kind and has an area, which is a
/// number that a `u32` can hold.
fn can_repack(solution: &Solution, specs: &[ElementType]) -> (r: bool)
    ensures
        r == (moves_have_area(specs@, solution@.tiles, solution@.remaining) && forall|i: int|
            0 <= i < solution@.remaining.len() && #[trigger] may_move(
                specs@,
                solution@.tiles,
                solution@.remaining,
                i,
            ) ==> i < specs.len() && specs[i].area() <= u32::MAX),
{
    let ghost tiles = solution@.tiles;
    let ghost remaining = solution@.remaining;
    let mut i: usize = 0;
    while i < solution.remaining_counts.len()
        invariant
            i <= solution.remaining_counts.len(),
            tiles == solution@.tiles,
            remaining == solution@.remaining,
            forall|k: int|
                0 <= k < i && #[trigger] may_move(specs@, tiles, remaining, k) ==> k < specs.len()
                    && 0 < specs[k].area() <= u32::MAX,
        decreases solution.remaining_counts.len() - i,
    {
        let moves = solution.remaining_counts[i] > 0 || (i < specs.len() && is_on_sheet(
            solution.items.as_slice(),
            &specs[i].name,
        ));
        assert(moves == may_move(specs@, tiles, remaining, i as int));
        if moves {
            if i >= specs.len() {
                return false;
            }
            let area: u64 = area_between(specs[i].width, specs[i].height);
            if area == 0 || area > u32::MAX as u64 {
                return false;
            }
        }
        i = i + 1;
    }
    true
}

/// A layout can be finished.
pub open spec fn is_finishable(
    pw: int,
    ph: int,
    specs: Seq<ElementType>,
    counts: Seq<u32>,
    layout: Layout,
) -> bool {
    let filled = filled_up(pw, ph, specs, layout);
    &&& can_fill(pw, ph, specs, layout)
    &&& total(filled.remaining) == 0 || {
        &&& moves_in_range(specs, filled.tiles, filled.remaining)
        &&& all_small(filled.tiles)
        &&& moves_have_area(specs, filled.tiles, filled.remaining)
        &&& in_range(specs, counts, pw, ph)
        &&& within(filled.remaining, counts)
    }
}

/// A layout of an ordinary task can be finished: no two kinds have the same name, every piece has
/// an area that a `u32` can hold, and the numbers are in range.
pub proof fn lemma_ordinary_finishable(
    pw: int,
    ph: int,
    specs: Seq<ElementType>,
    counts: Seq<u32>,
    layout: Layout,
)
    requires
        0 <= pw <= u32::MAX,
        0 <= ph <= u32::MAX,
        distinct_names(specs),
        specs.len() == layout.remaining.len(),
        forall|i: int| 0 <= i < specs.len() ==> 0 < (#[trigger] specs[i]).area() <= u32::MAX,
        all_have_edges(layout.tiles),
        all_small(layout.tiles),
        total(layout.remaining) + layout.tiles.len() + specs.len() <= u32::MAX,
        layout.area + specs.len() * u32::MAX <= u64::MAX,
        in_range(specs, counts, pw, ph),
        within(layout.remaining, counts),
    ensures
        is_finishable(pw, ph, specs, counts, layout),
{
    let remaining = layout.remaining;
    let added = gap_fill(pw, ph, layout.tiles, specs, remaining);
    let filled = filled_up(pw, ph, specs, layout);
    assert forall|i: int| 0 <= i < remaining.len() && #[trigger] remaining[i] > 0 implies i
        < specs.len() && specs[i].area() <= u32::MAX by {
        assert(specs[i].area() <= u32::MAX);
    }
    lemma_gap_fill_accounts(pw, ph, specs, layout);
    lemma_gap_fill_inside(pw, ph, layout.tiles, specs, remaining);
    let kinds = lemma_gap_fill_kinds(pw, ph, layout.tiles, specs, remaining);
    lemma_few_kinds(kinds, remaining.len() as int);
    assert forall|k: int| 0 <= k < added.len() implies (#[trigger] added[k]).w * added[k].h
        <= u32::MAX by {
        lemma_piece_area(added[k], specs[kinds[k]]);
        assert(specs[kinds[k]].area() <= u32::MAX);
    }
    lemma_small_areas(added);
    let n = added.len();
    let m = specs.len();
    assert(n * u32::MAX <= m * u32::MAX) by (nonlinear_arith)
        requires
            0 <= n <= m,
    ;
    assert(can_fill(pw, ph, specs, layout));
    if total(remaining) > 0 && added.len() > 0 {
        lemma_taken_off_len(specs, remaining, added, added.len() as int);
        assert forall|i: int| 0 <= i < remaining.len() implies #[trigger] filled.remaining[i]
            <= remaining[i] by {
            assert(named(filled.tiles, specs[i].name@) + filled.remaining[i] == named(
                layout.tiles,
                specs[i].name@,
            ) + remaining[i]);
            lemma_named_concat(layout.tiles, added, specs[i].name@);
        }
    }
    lemma_total_within(filled.remaining, remaining);
    lemma_within_trans(filled.remaining, remaining, counts);
    assert forall|k: int| 0 <= k < filled.tiles.len() implies has_edges(#[trigger] filled.tiles[k])
        && filled.tiles[k].w * filled.tiles[k].h <= u32::MAX by {
        if k < layout.tiles.len() {
            assert(filled.tiles[k] == layout.tiles[k]);
            assert(has_edges(layout.tiles[k]));
        } else {
            assert(filled.tiles[k] == added[k - layout.tiles.len()]);
            assert(inside(added[k - layout.tiles.len()], pw, ph));
        }
    }
    assert forall|i: int|
        0 <= i < filled.remaining.len() && #[trigger] may_move(
            specs,
            filled.tiles,
            filled.remaining,
            i,
        ) implies i < specs.len() && 0 < specs[i].area() <= u32::MAX by {
        assert(specs[i].area() > 0);
    }
}

/// Different numbers up to `n` are at most `n`.
proof fn lemma_few_kinds(kinds: Seq<int>, n: int)
    requires
        0 <= n,
        forall|k: int| 0 <= k < kinds.len() ==> 0 <= #[trigger] kinds[k] < n,
        forall|a: int, b: int|
            0 <= a < b < kinds.len() ==> #[trigger] kinds[a] != #[trigger] kinds[b],
    ensures
        kinds.len() <= n,
{
    assert(kinds.no_duplicates());
    kinds.unique_seq_to_set();
    let all = vstd::set_lib::set_int_range(0, n);
    vstd::set_lib::lemma_int_range(0, n);
    assert(kinds.to_set().subset_of(all));
    vstd::set_lib::lemma_len_subset(kinds.to_set(), all);
}

/// Whether a layout can be finished: its gaps can be filled, and if pieces are left then, what
/// comes of that can be repacked, and the pieces that are left are among those of the task. A
/// piece without area that would have to be packed rules this out.
pub fn can_finish(
    page_width: u32,
    page_height: u32,
    specs: &[ElementType],
    counts: &[u32],
    best: &Solution,
) -> (r: bool)
    ensures
        r == ({
            let filled = filled_up(page_width as int, page_height as int, specs@, best@);
            &&& can_fill(page_width as int, page_height as int, specs@, best@)
            &&& total(filled.remaining) == 0 || {
                &&& moves_in_range(specs@, filled.tiles, filled.remaining)
                &&& all_small(filled.tiles)
                &&& moves_have_area(specs@, filled.tiles, filled.remaining)
                &&& in_range(specs@, counts@, page_width as int, page_height as int)
                &&& within(filled.remaining, counts@)
            }
        }),
        r == is_finishable(page_width as int, page_height as int, specs@, counts@, best@),
{
    let ghost w = page_width as int;
    let ghost h = page_height as int;
    let ghost filled = filled_up(w, h, specs@, best@);
    let limit: u128 = u32::MAX as u128;
    let left: u128 = count_all(best.remaining_counts.as_slice());
    if left > limit {
        return false;
    }
    let mut solution = best.clone();
    if left > 0 {
        if !have_edges(best.items.as_slice()) || !are_areas_in_range(
            specs,
            best.remaining_counts.as_slice(),
        ) {
            return false;
        }
        match try_fill_gaps(
            page_width,
            page_height,
            best.items.as_slice(),
            specs,
            best.remaining_counts.as_slice(),
        ) {
            Some(additional) => {
                if !can_take_all(
                    specs,
                    best.remaining_counts.as_slice(),
                    additional.as_slice(),
                ) || sum_all_areas(additional.as_slice()) > u64::MAX as u128
                    - best.total_area as u128 {
                    return false;
                }
                add_pieces(&mut solution, additional, specs);
            },
            None => {
                assert(area_of(Seq::<Tile>::empty()) == 0);
                assert(gap_fill(w, h, best@.tiles, specs@, best@.remaining) =~= seq![]);
            },
        }
    }
    assert(solution@ == filled);
    assert(solution@.tiles.len() == solution.items.len());
    let still_left: u128 = count_all(solution.remaining_counts.as_slice());
    if still_left == 0 {
        return true;
    }
    let items = solution.items.as_slice();
    is_in_range(specs, counts, page_width, page_height) && still_left <= limit
        && items.len() as u128 <= limit - still_left && specs.len()
        <= solution.remaining_counts.len() && have_edges(items) && are_small(items)
        && can_repack(&solution, specs) && are_within(
        solution.remaining_counts.as_slice(),
        counts,
    )
}

} // verus!
