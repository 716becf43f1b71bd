//! Making room by taking some pieces off the sheet and packing them again.

use crate::dice::{Dice, Roll};
use crate::free_space::{all_have_edges, has_edges};
use crate::layout::{all_apart, all_inside, inside, overlap};
use crate::packing::{
    area_in_range, is_piece, lemma_never_stuck, lemma_packed, made_of,
    pack_remaining_items_backtracking, packing, Packing,
};
use crate::pieces::{
    lemma_count_le_total, lemma_total_update, lemma_total_zero, less_one, sum_counts, tiles_of,
    total, ElementType, PlacedItem, Tile,
};
use crate::score::left_over;
use crate::tally::{distinct_names, lemma_named_concat, named};
use rand::Rng;
use rand::rngs::ThreadRng;
use vstd::prelude::*;
use vstd::slice::slice_to_vec;

verus! {

/// How many windows are tried.
pub const MAX_ATTEMPTS: u32 = 1000;

/// How many pieces are packed again at most.
pub const MAX_REPACKED: u32 = 12;

/// A window on the sheet. The pieces that it touches are taken off.
#[derive(Clone, Copy, Debug, PartialEq, Eq)]
pub struct Window {
    pub x: u32,
    pub y: u32,
    pub w: u32,
    pub h: u32,
}

/// A window that can be drawn on a `pw` by `ph` sheet. Its sides are from 50 to 349 long, and
/// it lies on the sheet where the sheet is large enough.
pub open spec fn drawn_on(win: Window, pw: int, ph: int) -> bool {
    &&& 50 <= win.w < 350
    &&& 50 <= win.h < 350
    &&& win.x <= left_over(pw, win.w as int)
    &&& win.y <= left_over(ph, win.h as int)
}

/// A rectangle lies in part in the window.
pub open spec fn touches(t: Tile, win: Window) -> bool {
    &&& t.x < win.x + win.w
    &&& t.x + t.w > win.x
    &&& t.y < win.y + win.h
    &&& t.y + t.h > win.y
}

/// Of the first `n` rectangles, those that touch the window, or those that do not.
pub open spec fn sifted(tiles: Seq<Tile>, win: Window, touching: bool, n: int) -> Seq<Tile>
    decreases n,
{
    if n <= 0 {
        seq![]
    } else {
        let before = sifted(tiles, win, touching, n - 1);
        if touches(tiles[n - 1], win) == touching {
            before.push(tiles[n - 1])
        } else {
            before
        }
    }
}

/// The pieces that stay on the sheet.
pub open spec fn kept(tiles: Seq<Tile>, win: Window) -> Seq<Tile> {
    sifted(tiles, win, false, tiles.len() as int)
}

/// The pieces that are taken off the sheet.
pub open spec fn removed(tiles: Seq<Tile>, win: Window) -> Seq<Tile> {
    sifted(tiles, win, true, tiles.len() as int)
}

/// The first kind from `i` on that has the given name.
pub open spec fn kind_named(specs: Seq<ElementType>, name: Seq<char>, i: int) -> Option<int>
    decreases specs.len() - i,
{
    if i < 0 || i >= specs.len() {
        None
    } else if specs[i].name@ == name {
        Some(i)
    } else {
        kind_named(specs, name, i + 1)
    }
}

/// One piece more of the kind with the given name, if there is such a kind.
pub open spec fn put_back(specs: Seq<ElementType>, counts: Seq<u32>, name: Seq<char>) -> Seq<u32> {
    match kind_named(specs, name, 0) {
        Some(k) => counts.update(k, (counts[k] + 1) as u32),
        None => counts,
    }
}

/// The counts after the first `n` of the given rectangles have been put back.
pub open spec fn all_put_back(
    specs: Seq<ElementType>,
    counts: Seq<u32>,
    tiles: Seq<Tile>,
    n: int,
) -> Seq<u32>
    decreases n,
{
    if n <= 0 {
        counts
    } else {
        put_back(specs, all_put_back(specs, counts, tiles, n - 1), tiles[n - 1].name)
    }
}

/// The pieces that have to be packed when the window is cleared.
pub open spec fn to_repack(
    specs: Seq<ElementType>,
    placed: Seq<Tile>,
    remaining: Seq<u32>,
    win: Window,
) -> Seq<u32> {
    let off = removed(placed, win);
    all_put_back(specs, remaining, off, off.len() as int)
}

/// What becomes of the sheet when a window is cleared and everything that is off the sheet is
/// packed again. More than twelve pieces are not tried.
pub open spec fn repacked(
    pw: int,
    ph: int,
    specs: Seq<ElementType>,
    placed: Seq<Tile>,
    remaining: Seq<u32>,
    win: Window,
) -> Packing {
    if total(remaining) + removed(placed, win).len() > MAX_REPACKED {
        Packing::Failed
    } else {
        match packing(
            pw,
            ph,
            specs,
            kept(placed, win),
            to_repack(specs, placed, remaining, win),
            0,
        ).outcome {
            Packing::Packed(tiles) => Packing::Packed(kept(placed, win) + tiles),
            Packing::Failed => Packing::Failed,
            Packing::Stuck => Packing::Stuck,
        }
    }
}

/// A piece of kind `i` is off the sheet, or is named like one that is on it.
pub open spec fn may_move(
    specs: Seq<ElementType>,
    placed: Seq<Tile>,
    remaining: Seq<u32>,
    i: int,
) -> bool {
    remaining[i] > 0 || exists|k: int|
        0 <= k < placed.len() && i < specs.len() && (#[trigger] placed[k]).name == specs[i].name@
}

/// Every piece that may have to be packed is of a known kind, and its area is a number that a
/// `u32` can hold.
pub open spec fn moves_in_range(
    specs: Seq<ElementType>,
    placed: Seq<Tile>,
    remaining: Seq<u32>,
) -> bool {
    &&& specs.len() <= remaining.len()
    &&& total(remaining) + placed.len() <= u32::MAX
    &&& all_have_edges(placed)
    &&& forall|i: int|
        0 <= i < remaining.len() && #[trigger] may_move(specs, placed, remaining, i) ==> i
            < specs.len() && specs[i].area() <= u32::MAX
}

/// Every piece that may have to be packed has an area.
pub open spec fn moves_have_area(
    specs: Seq<ElementType>,
    placed: Seq<Tile>,
    remaining: Seq<u32>,
) -> bool {
    forall|i: int|
        0 <= i < remaining.len() && #[trigger] may_move(specs, placed, remaining, i) ==> i
            < specs.len() && specs[i].area() > 0
}

/// What `sifted` yields comes from the list, in order, and all of it.
proof fn lemma_sifted(tiles: Seq<Tile>, win: Window, touching: bool, n: int) -> (source: Seq<int>)
    requires
        0 <= n <= tiles.len(),
    ensures
        source.len() == sifted(tiles, win, touching, n).len(),
        forall|k: int|
            0 <= k < source.len() ==> 0 <= #[trigger] source[k] < n && tiles[source[k]] == sifted(
                tiles,
                win,
                touching,
                n,
            )[k],
        forall|a: int, b: int|
            0 <= a < b < source.len() ==> #[trigger] source[a] < #[trigger] source[b],
        sifted(tiles, win, true, n).len() + sifted(tiles, win, false, n).len() == n,
    decreases n,
{
    if n <= 0 {
        seq![]
    } else {
        let before = lemma_sifted(tiles, win, touching, n - 1);
        if touches(tiles[n - 1], win) == touching {
            before.push(n - 1)
        } else {
            before
        }
    }
}

/// What stays on the sheet lies as it did.
proof fn lemma_kept(tiles: Seq<Tile>, win: Window, w: int, h: int)
    ensures
        all_apart(tiles) ==> all_apart(kept(tiles, win)),
        all_inside(tiles, w, h) ==> all_inside(kept(tiles, win), w, h),
        all_have_edges(tiles) ==> all_have_edges(kept(tiles, win)),
{
    let source = lemma_sifted(tiles, win, false, tiles.len() as int);
    let s = kept(tiles, win);
    assert forall|k: int| 0 <= k < s.len() && all_inside(tiles, w, h) implies inside(
        #[trigger] s[k],
        w,
        h,
    ) by {
        assert(inside(tiles[source[k]], w, h));
    }
    assert forall|k: int| 0 <= k < s.len() && all_have_edges(tiles) implies has_edges(
        #[trigger] s[k],
    ) by {
        assert(has_edges(tiles[source[k]]));
    }
    assert forall|a: int, b: int| 0 <= a < b < s.len() && all_apart(tiles) implies !overlap(
        #[trigger] s[a],
        #[trigger] s[b],
    ) by {
        assert(!overlap(tiles[source[a]], tiles[source[b]]));
    }
}

/// What is known of the kind that has a name.
pub proof fn lemma_kind_named(specs: Seq<ElementType>, name: Seq<char>, i: int)
    requires
        0 <= i,
    ensures
        match kind_named(specs, name, i) {
            Some(k) => i <= k < specs.len() && specs[k].name@ == name && forall|j: int|
                i <= j < k ==> (#[trigger] specs[j]).name@ != name,
            None => forall|j: int| i <= j < specs.len() ==> (#[trigger] specs[j]).name@ != name,
        },
    decreases specs.len() - i,
{
    if i < specs.len() && specs[i].name@ != name {
        lemma_kind_named(specs, name, i + 1);
    }
}

/// What putting pieces back does to the counts.
proof fn lemma_put_back(
    specs: Seq<ElementType>,
    counts: Seq<u32>,
    tiles: Seq<Tile>,
    n: int,
)
    requires
        specs.len() <= counts.len(),
        0 <= n <= tiles.len(),
        total(counts) + n <= u32::MAX,
    ensures
        all_put_back(specs, counts, tiles, n).len() == counts.len(),
        total(all_put_back(specs, counts, tiles, n)) <= total(counts) + n,
        (forall|k: int|
            0 <= k < n ==> kind_named(specs, (#[trigger] tiles[k]).name, 0) is Some) ==> total(
            all_put_back(specs, counts, tiles, n),
        ) == total(counts) + n,
        forall|i: int|
            0 <= i < counts.len() && #[trigger] all_put_back(specs, counts, tiles, n)[i] > 0
                ==> counts[i] > 0 || exists|k: int|
                0 <= k < n && i < specs.len() && (#[trigger] tiles[k]).name == specs[i].name@,
    decreases n,
{
    if n > 0 {
        lemma_put_back(specs, counts, tiles, n - 1);
        let before = all_put_back(specs, counts, tiles, n - 1);
        let after = all_put_back(specs, counts, tiles, n);
        let name = tiles[n - 1].name;
        lemma_kind_named(specs, name, 0);
        match kind_named(specs, name, 0) {
            Some(k) => {
                lemma_count_le_total(before, k);
                lemma_total_update(before, k, (before[k] + 1) as u32);
            },
            None => {},
        }
        if forall|k: int| 0 <= k < n ==> kind_named(specs, (#[trigger] tiles[k]).name, 0) is Some {
            assert(kind_named(specs, tiles[n - 1].name, 0) is Some);
        }
        assert forall|i: int| 0 <= i < counts.len() && #[trigger] after[i] > 0 implies counts[i] > 0
            || exists|k: int|
            0 <= k < n && i < specs.len() && (#[trigger] tiles[k]).name == specs[i].name@ by {
            if before[i] > 0 {
                if counts[i] == 0 {
                    let k = choose|k: int|
                        0 <= k < n - 1 && i < specs.len() && (#[trigger] tiles[k]).name
                            == specs[i].name@;
                    assert(tiles[k].name == specs[i].name@);
                }
            } else {
                assert(tiles[n - 1].name == specs[i].name@);
            }
        }
    }
}

/// The pieces that have to be packed are pieces that may move.
proof fn lemma_to_repack(
    specs: Seq<ElementType>,
    placed: Seq<Tile>,
    remaining: Seq<u32>,
    win: Window,
)
    requires
        specs.len() <= remaining.len(),
        total(remaining) + placed.len() <= u32::MAX,
    ensures
        to_repack(specs, placed, remaining, win).len() == remaining.len(),
        total(to_repack(specs, placed, remaining, win)) <= total(remaining) + removed(
            placed,
            win,
        ).len(),
        forall|i: int|
            0 <= i < remaining.len() && #[trigger] to_repack(specs, placed, remaining, win)[i] > 0
                ==> may_move(specs, placed, remaining, i),
        (forall|k: int|
            0 <= k < placed.len() ==> kind_named(specs, (#[trigger] placed[k]).name, 0) is Some)
            ==> total(to_repack(specs, placed, remaining, win)) == total(remaining) + removed(
            placed,
            win,
        ).len(),
{
    let source = lemma_sifted(placed, win, true, placed.len() as int);
    let off = removed(placed, win);
    lemma_put_back(specs, remaining, off, off.len() as int);
    let counts = to_repack(specs, placed, remaining, win);
    assert forall|i: int| 0 <= i < remaining.len() && #[trigger] counts[i] > 0 implies may_move(
        specs,
        placed,
        remaining,
        i,
    ) by {
        if remaining[i] == 0 {
            let k = choose|k: int|
                0 <= k < off.len() && i < specs.len() && (#[trigger] off[k]).name == specs[i].name@;
            assert(placed[source[k]].name == specs[i].name@);
        }
    }
    if forall|k: int|
        0 <= k < placed.len() ==> kind_named(specs, (#[trigger] placed[k]).name, 0) is Some {
        assert forall|k: int| 0 <= k < off.len() implies kind_named(
            specs,
            (#[trigger] off[k]).name,
            0,
        ) is Some by {
            assert(kind_named(specs, placed[source[k]].name, 0) is Some);
        }
    }
}

/// Clearing a window never gets stuck when every piece that may move has an area.
pub proof fn lemma_repacked_never_stuck(
    pw: int,
    ph: int,
    specs: Seq<ElementType>,
    placed: Seq<Tile>,
    remaining: Seq<u32>,
    win: Window,
)
    requires
        specs.len() <= remaining.len(),
        total(remaining) + placed.len() <= u32::MAX,
        moves_have_area(specs, placed, remaining),
    ensures
        !(repacked(pw, ph, specs, placed, remaining, win) is Stuck),
{
    lemma_to_repack(specs, placed, remaining, win);
    let counts = to_repack(specs, placed, remaining, win);
    assert forall|i: int| 0 <= i < counts.len() && #[trigger] counts[i] > 0 implies i < specs.len()
        && specs[i].area() > 0 by {
        assert(may_move(specs, placed, remaining, i));
    }
    lemma_never_stuck(pw, ph, specs, kept(placed, win), counts, 0);
}

/// What a cleared window comes to: the pieces that stay, then the pieces packed.
proof fn lemma_repacked_split(
    pw: int,
    ph: int,
    specs: Seq<ElementType>,
    placed: Seq<Tile>,
    remaining: Seq<u32>,
    win: Window,
) -> (packed: Seq<Tile>)
    requires
        0 <= pw <= u32::MAX,
        0 <= ph <= u32::MAX,
        moves_in_range(specs, placed, remaining),
    ensures
        repacked(pw, ph, specs, placed, remaining, win) matches Packing::Packed(tiles) ==> {
            &&& tiles == kept(placed, win) + packed
            &&& all_inside(packed, pw, ph)
            &&& all_apart(kept(placed, win)) ==> all_apart(tiles)
            &&& made_of(packed, specs, to_repack(specs, placed, remaining, win))
            &&& packed.len() == total(to_repack(specs, placed, remaining, win))
        },
{
    lemma_kept(placed, win, pw, ph);
    lemma_to_repack(specs, placed, remaining, win);
    let counts = to_repack(specs, placed, remaining, win);
    assert(area_in_range(specs, counts)) by {
        assert forall|i: int| 0 <= i < counts.len() && #[trigger] counts[i] > 0 implies i
            < specs.len() && specs[i].area() <= u32::MAX by {
            assert(may_move(specs, placed, remaining, i));
        }
    }
    lemma_packed(pw, ph, specs, kept(placed, win), counts, 0);
    match packing(pw, ph, specs, kept(placed, win), counts, 0).outcome {
        Packing::Packed(tiles) => tiles,
        _ => seq![],
    }
}

/// Repacking keeps pieces apart that do not overlap, and on the sheet if they lie on it.
pub proof fn lemma_repacked_packing(
    pw: int,
    ph: int,
    specs: Seq<ElementType>,
    placed: Seq<Tile>,
    remaining: Seq<u32>,
    win: Window,
)
    requires
        0 <= pw <= u32::MAX,
        0 <= ph <= u32::MAX,
        moves_in_range(specs, placed, remaining),
    ensures
        repacked(pw, ph, specs, placed, remaining, win) matches Packing::Packed(tiles) ==> {
            &&& all_apart(placed) ==> all_apart(tiles)
            &&& all_inside(placed, pw, ph) ==> all_inside(tiles, pw, ph)
        },
{
    lemma_kept(placed, win, pw, ph);
    let packed = lemma_repacked_split(pw, ph, specs, placed, remaining, win);
    if let Packing::Packed(tiles) = repacked(pw, ph, specs, placed, remaining, win) {
        let stay = kept(placed, win);
        assert forall|i: int|
            0 <= i < tiles.len() && all_inside(placed, pw, ph) implies inside(
            #[trigger] tiles[i],
            pw,
            ph,
        ) by {
            if i < stay.len() {
                assert(tiles[i] == stay[i]);
            } else {
                assert(tiles[i] == packed[i - stay.len()]);
            }
        }
    }
}

/// Repacking leaves no piece out: where every piece on the sheet is of a known name, there are
/// afterwards as many pieces on the sheet as there were on it and off it before.
pub proof fn lemma_repacked_complete(
    pw: int,
    ph: int,
    specs: Seq<ElementType>,
    placed: Seq<Tile>,
    remaining: Seq<u32>,
    win: Window,
)
    requires
        0 <= pw <= u32::MAX,
        0 <= ph <= u32::MAX,
        moves_in_range(specs, placed, remaining),
    ensures
        repacked(pw, ph, specs, placed, remaining, win) matches Packing::Packed(tiles) ==> {
            &&& tiles.len() <= placed.len() + total(remaining)
            &&& (forall|k: int|
                0 <= k < placed.len() ==> kind_named(specs, (#[trigger] placed[k]).name, 0) is Some)
                ==> tiles.len() == placed.len() + total(remaining)
        },
{
    let packed = lemma_repacked_split(pw, ph, specs, placed, remaining, win);
    lemma_to_repack(specs, placed, remaining, win);
    let source = lemma_sifted(placed, win, true, placed.len() as int);
}

/// What is sifted out and what is not are all pieces, by name.
proof fn lemma_sifted_named(tiles: Seq<Tile>, win: Window, n: int, name: Seq<char>)
    requires
        0 <= n <= tiles.len(),
    ensures
        named(sifted(tiles, win, true, n), name) + named(sifted(tiles, win, false, n), name)
            == named(tiles.take(n), name),
    decreases n,
{
    if n > 0 {
        lemma_sifted_named(tiles, win, n - 1, name);
        let seen = tiles.take(n);
        assert(seen.drop_last() =~= tiles.take(n - 1));
        let off = sifted(tiles, win, true, n - 1);
        let stay = sifted(tiles, win, false, n - 1);
        assert(off.push(tiles[n - 1]).drop_last() =~= off);
        assert(stay.push(tiles[n - 1]).drop_last() =~= stay);
    }
}

/// If no two kinds have the same name, a kind gets back the pieces that have its name.
pub proof fn lemma_put_back_named(
    specs: Seq<ElementType>,
    counts: Seq<u32>,
    tiles: Seq<Tile>,
    n: int,
    i: int,
)
    requires
        specs.len() <= counts.len(),
        0 <= n <= tiles.len(),
        total(counts) + n <= u32::MAX,
        distinct_names(specs),
        0 <= i < specs.len(),
    ensures
        all_put_back(specs, counts, tiles, n)[i] == counts[i] + named(
            tiles.take(n),
            specs[i].name@,
        ),
    decreases n,
{
    if n > 0 {
        lemma_put_back_named(specs, counts, tiles, n - 1, i);
        lemma_put_back(specs, counts, tiles, n - 1);
        let before = all_put_back(specs, counts, tiles, n - 1);
        let seen = tiles.take(n);
        assert(seen.drop_last() =~= tiles.take(n - 1));
        let name = tiles[n - 1].name;
        lemma_kind_named(specs, name, 0);
        match kind_named(specs, name, 0) {
            Some(k) => {
                lemma_count_le_total(before, k);
                if k < i {
                    assert(specs[k].name@ != specs[i].name@);
                } else if i < k {
                    assert(specs[i].name@ != specs[k].name@);
                }
            },
            None => {
                assert(specs[i].name@ != name);
            },
        }
    } else {
        assert(tiles.take(0) =~= seq![]);
    }
}

/// If no two kinds have the same name, pieces made of the given counts have as many of a name as
/// the counts say.
proof fn lemma_made_of_named(
    tiles: Seq<Tile>,
    specs: Seq<ElementType>,
    counts: Seq<u32>,
    i: int,
)
    requires
        made_of(tiles, specs, counts),
        distinct_names(specs),
        0 <= i < specs.len() <= counts.len(),
    ensures
        named(tiles, specs[i].name@) == counts[i],
    decreases tiles.len(),
{
    if tiles.len() == 0 {
        lemma_total_zero(counts);
    } else {
        let kind = choose|kind: int|
            0 <= kind < counts.len() && #[trigger] counts[kind] > 0 && kind < specs.len()
                && is_piece(tiles.last(), specs[kind]) && made_of(
                tiles.drop_last(),
                specs,
                less_one(counts, kind),
            );
        lemma_made_of_named(tiles.drop_last(), specs, less_one(counts, kind), i);
        if kind < i {
            assert(specs[kind].name@ != specs[i].name@);
        } else if i < kind {
            assert(specs[i].name@ != specs[kind].name@);
        }
    }
}

/// If no two kinds have the same name, repacking brings every piece of every kind onto the
/// sheet: those that were on it and those that were off it.
pub proof fn lemma_repacked_names(
    pw: int,
    ph: int,
    specs: Seq<ElementType>,
    placed: Seq<Tile>,
    remaining: Seq<u32>,
    win: Window,
    i: int,
)
    requires
        0 <= pw <= u32::MAX,
        0 <= ph <= u32::MAX,
        moves_in_range(specs, placed, remaining),
        distinct_names(specs),
        0 <= i < specs.len(),
    ensures
        repacked(pw, ph, specs, placed, remaining, win) matches Packing::Packed(tiles) ==> named(
            tiles,
            specs[i].name@,
        ) == named(placed, specs[i].name@) + remaining[i],
{
    let packed = lemma_repacked_split(pw, ph, specs, placed, remaining, win);
    if let Packing::Packed(tiles) = repacked(pw, ph, specs, placed, remaining, win) {
        let name = specs[i].name@;
        let off = removed(placed, win);
        lemma_sifted_named(placed, win, placed.len() as int, name);
        let source = lemma_sifted(placed, win, true, placed.len() as int);
        assert(placed.take(placed.len() as int) =~= placed);
        assert(off.take(off.len() as int) =~= off);
        lemma_put_back_named(specs, remaining, off, off.len() as int, i);
        lemma_to_repack(specs, placed, remaining, win);
        lemma_made_of_named(packed, specs, to_repack(specs, placed, remaining, win), i);
        lemma_named_concat(kept(placed, win), packed, name);
    }
}

/// Every piece on the sheet after repacking lay there before, or is of a kind that may move.
pub proof fn lemma_repacked_pieces(
    pw: int,
    ph: int,
    specs: Seq<ElementType>,
    placed: Seq<Tile>,
    remaining: Seq<u32>,
    win: Window,
    k: int,
)
    requires
        0 <= pw <= u32::MAX,
        0 <= ph <= u32::MAX,
        moves_in_range(specs, placed, remaining),
    ensures
        repacked(pw, ph, specs, placed, remaining, win) matches Packing::Packed(tiles) ==> (0 <= k
            < tiles.len() ==> placed.contains(tiles[k]) || exists|i: int|
            0 <= i < specs.len() && #[trigger] may_move(specs, placed, remaining, i) && is_piece(
                tiles[k],
                specs[i],
            )),
{
    let packed = lemma_repacked_split(pw, ph, specs, placed, remaining, win);
    if let Packing::Packed(tiles) = repacked(pw, ph, specs, placed, remaining, win) {
        if 0 <= k < tiles.len() {
            let stay = kept(placed, win);
            if k < stay.len() {
                let source = lemma_sifted(placed, win, false, placed.len() as int);
                assert(tiles[k] == stay[k] && placed[source[k]] == stay[k]);
            } else {
                assert(tiles[k] == packed[k - stay.len()]);
                let counts = to_repack(specs, placed, remaining, win);
                let i = lemma_made_of_at(packed, specs, counts, k - stay.len());
                lemma_to_repack(specs, placed, remaining, win);
                assert(counts[i] > 0);
                assert(may_move(specs, placed, remaining, i));
            }
        }
    }
}

/// A piece of those made of the given counts is of a kind that the counts have.
proof fn lemma_made_of_at(
    tiles: Seq<Tile>,
    specs: Seq<ElementType>,
    counts: Seq<u32>,
    k: int,
) -> (i: int)
    requires
        made_of(tiles, specs, counts),
        0 <= k < tiles.len(),
    ensures
        0 <= i < counts.len(),
        i < specs.len(),
        counts[i] > 0,
        is_piece(tiles[k], specs[i]),
    decreases tiles.len(),
{
    let kind = choose|kind: int|
        0 <= kind < counts.len() && #[trigger] counts[kind] > 0 && kind < specs.len() && is_piece(
            tiles.last(),
            specs[kind],
        ) && made_of(tiles.drop_last(), specs, less_one(counts, kind));
    if k == tiles.len() - 1 {
        kind
    } else {
        lemma_made_of_at(tiles.drop_last(), specs, less_one(counts, kind), k)
    }
}

/// The random number generator of the current thread, out of `rand`.
#[verifier::external_type_specification]
#[verifier::external_body]
pub struct ExThreadRng(ThreadRng);

/// `rand::thread_rng` hands out the generator of the current thread. Nothing is claimed of the
/// numbers that it will give. Where the system has no randomness to seed it with, it panics.
pub assume_specification[ rand::thread_rng ]() -> ThreadRng
;

/// `rand::Rng::gen_range` on an inclusive range: some number from `low` to `high`. It panics
/// where the range is empty.
#[verifier::external_body]
pub(crate) fn draw(rng: &mut ThreadRng, low: u32, high: u32) -> (n: u32)
    requires
        low <= high,
    ensures
        low <= n <= high,
{
    rng.gen_range(low..=high)
}

/// Splits the items into those that touch the window and those that do not.
fn sift(items: &[PlacedItem], win: Window) -> (r: (Vec<PlacedItem>, Vec<PlacedItem>))
    requires
        all_have_edges(tiles_of(items@)),
        win.x + win.w <= u32::MAX,
        win.y + win.h <= u32::MAX,
    ensures
        tiles_of(r.0@) == removed(tiles_of(items@), win),
        tiles_of(r.1@) == kept(tiles_of(items@), win),
{
    let ghost tiles = tiles_of(items@);
    let mut off: Vec<PlacedItem> = Vec::new();
    let mut stay: Vec<PlacedItem> = Vec::new();
    assert(tiles_of(off@) =~= seq![]);
    assert(tiles_of(stay@) =~= seq![]);
    let mut i: usize = 0;
    while i < items.len()
        invariant
            i <= items.len(),
            tiles == tiles_of(items@),
            all_have_edges(tiles),
            win.x + win.w <= u32::MAX,
            win.y + win.h <= u32::MAX,
            tiles_of(off@) == sifted(tiles, win, true, i as int),
            tiles_of(stay@) == sifted(tiles, win, false, i as int),
        decreases items.len() - i,
    {
        let item = &items[i];
        assert(tiles[i as int] == item@);
        let ghost old_off = tiles_of(off@);
        let ghost old_stay = tiles_of(stay@);
        if item.x < win.x + win.w && item.x + item.width > win.x && item.y < win.y + win.h
            && item.y + item.height > win.y {
            off.push(item.clone());
            assert(tiles_of(off@) =~= old_off.push(item@));
        } else {
            stay.push(item.clone());
            assert(tiles_of(stay@) =~= old_stay.push(item@));
        }
        i = i + 1;
    }
    (off, stay)
}

/// The first kind that has the given name.
pub fn find_kind(specs: &[ElementType], name: &String) -> (r: Option<usize>)
    ensures
        kind_named(specs@, name@, 0) == (match r {
            Some(k) => Some(k as int),
            None => None,
        }),
{
    let mut i: usize = 0;
    while i < specs.len()
        invariant
            i <= specs.len(),
            kind_named(specs@, name@, 0) == kind_named(specs@, name@, i as int),
        decreases specs.len() - i,
    {
        if specs[i].name == *name {
            return Some(i);
        }
        i = i + 1;
    }
    None
}

/// Clears a window of the sheet and tries to pack all that is then off the sheet. Returns the
/// new layout if that succeeds.
pub fn swap_attempt(
    page_width: u32,
    page_height: u32,
    placed: &[PlacedItem],
    specs: &[ElementType],
    remaining: &[u32],
    window: Window,
) -> (r: Option<Vec<PlacedItem>>)
    requires
        moves_in_range(specs@, tiles_of(placed@), remaining@),
        window.x + window.w <= u32::MAX,
        window.y + window.h <= u32::MAX,
        moves_have_area(specs@, tiles_of(placed@), remaining@) || !(repacked(
            page_width as int,
            page_height as int,
            specs@,
            tiles_of(placed@),
            remaining@,
            window,
        ) is Stuck),
    ensures
        ({
            let outcome = repacked(
                page_width as int,
                page_height as int,
                specs@,
                tiles_of(placed@),
                remaining@,
                window,
            );
            match r {
                Some(items) => outcome == Packing::Packed(tiles_of(items@)),
                None => outcome is Failed,
            }
        }),
{
    let ghost pw = page_width as int;
    let ghost ph = page_height as int;
    let ghost there = tiles_of(placed@);
    proof {
        if moves_have_area(specs@, there, remaining@) {
            lemma_repacked_never_stuck(pw, ph, specs@, there, remaining@, window);
        }
    }
    let unplaced: u32 = sum_counts(remaining);
    let (off, stay) = sift(placed, window);
    let ghost source = lemma_sifted(there, window, true, there.len() as int);
    let ghost kept_source = lemma_sifted(there, window, false, there.len() as int);
    assert(tiles_of(off@).len() == off.len());
    assert(there.len() == placed.len());
    let current_unplaced: u32 = unplaced + off.len() as u32;
    if current_unplaced > MAX_REPACKED {
        return None;
    }
    let mut counts: Vec<u32> = slice_to_vec(remaining);
    let ghost gone = tiles_of(off@);
    let mut i: usize = 0;
    while i < off.len()
        invariant
            i <= off.len(),
            gone == tiles_of(off@),
            gone.len() == off.len(),
            specs.len() <= remaining.len(),
            total(remaining@) + gone.len() <= MAX_REPACKED,
            counts@ == all_put_back(specs@, remaining@, gone, i as int),
            counts.len() == remaining.len(),
        decreases off.len() - i,
    {
        assert(gone[i as int] == off[i as int]@);
        proof {
            lemma_put_back(specs@, remaining@, gone, i as int);
            lemma_kind_named(specs@, off[i as int].name@, 0);
        }
        match find_kind(specs, &off[i].name) {
            Some(k) => {
                proof {
                    lemma_count_le_total(counts@, k as int);
                }
                let more: u32 = counts[k] + 1;
                counts.set(k, more);
            },
            None => {},
        }
        i = i + 1;
    }
    proof {
        lemma_to_repack(specs@, there, remaining@, window);
        assert(counts@ == to_repack(specs@, there, remaining@, window));
        assert forall|k: int| 0 <= k < counts.len() && #[trigger] counts@[k] > 0 implies k
            < specs.len() && specs[k].area() <= u32::MAX by {
            assert(may_move(specs@, there, remaining@, k));
        }
        let on = kept(there, window);
        assert forall|k: int| 0 <= k < on.len() implies has_edges(#[trigger] on[k]) by {
            assert(has_edges(there[kept_source[k]]));
        }
    }
    let mut iters: u32 = 0;
    let found = pack_remaining_items_backtracking(
        page_width,
        page_height,
        stay.as_slice(),
        specs,
        counts.as_mut_slice(),
        &mut iters,
    );
    match found {
        Some(mut packed) => {
            let ghost on = tiles_of(stay@);
            let ghost new = tiles_of(packed@);
            let mut items = stay;
            items.append(&mut packed);
            assert(tiles_of(items@) =~= on + new);
            Some(items)
        },
        None => None,
    }
}

/// No window that can be drawn leaves only pieces without area to choose from.
pub open spec fn never_stuck(
    pw: int,
    ph: int,
    specs: Seq<ElementType>,
    placed: Seq<Tile>,
    remaining: Seq<u32>,
) -> bool {
    moves_have_area(specs, placed, remaining) || forall|win: Window|
        drawn_on(win, pw, ph) ==> !(#[trigger] repacked(pw, ph, specs, placed, remaining, win)
            is Stuck)
}

/// Every window can be drawn on a `pw` by `ph` sheet.
pub open spec fn all_drawn_on(windows: Seq<Window>, pw: int, ph: int) -> bool {
    forall|k: int| 0 <= k < windows.len() ==> drawn_on(#[trigger] windows[k], pw, ph)
}

/// What the first window from `from` on comes to with which everything can be packed.
pub open spec fn first_packed(
    pw: int,
    ph: int,
    specs: Seq<ElementType>,
    placed: Seq<Tile>,
    remaining: Seq<u32>,
    windows: Seq<Window>,
    from: int,
) -> Option<Seq<Tile>>
    decreases windows.len() - from,
{
    if from < 0 || from >= windows.len() {
        None
    } else {
        match repacked(pw, ph, specs, placed, remaining, windows[from]) {
            Packing::Packed(tiles) => Some(tiles),
            _ => first_packed(pw, ph, specs, placed, remaining, windows, from + 1),
        }
    }
}

/// What the first window comes to is what some window comes to. Without one no window of the
/// list can be packed.
proof fn lemma_first_packed(
    pw: int,
    ph: int,
    specs: Seq<ElementType>,
    placed: Seq<Tile>,
    remaining: Seq<u32>,
    windows: Seq<Window>,
    from: int,
)
    requires
        0 <= from <= windows.len(),
    ensures
        match first_packed(pw, ph, specs, placed, remaining, windows, from) {
            Some(tiles) => exists|k: int|
                from <= k < windows.len() && repacked(
                    pw,
                    ph,
                    specs,
                    placed,
                    remaining,
                    #[trigger] windows[k],
                ) == Packing::Packed(tiles),
            None => forall|k: int|
                from <= k < windows.len() ==> !(repacked(
                    pw,
                    ph,
                    specs,
                    placed,
                    remaining,
                    #[trigger] windows[k],
                ) is Packed),
        },
    decreases windows.len() - from,
{
    if from < windows.len() {
        lemma_first_packed(pw, ph, specs, placed, remaining, windows, from + 1);
        if repacked(pw, ph, specs, placed, remaining, windows[from]) is Packed {
            assert(windows[from] == windows[from]);
        }
    }
}

/// Clears one of the given windows after the other, until all that is off the sheet can be
/// packed. Returns the new layout if there is such a window.
pub fn swap_over(
    page_width: u32,
    page_height: u32,
    placed: &[PlacedItem],
    specs: &[ElementType],
    remaining: &[u32],
    windows: &[Window],
) -> (r: Option<Vec<PlacedItem>>)
    requires
        moves_in_range(specs@, tiles_of(placed@), remaining@),
        all_drawn_on(windows@, page_width as int, page_height as int),
        never_stuck(
            page_width as int,
            page_height as int,
            specs@,
            tiles_of(placed@),
            remaining@,
        ),
    ensures
        first_packed(
            page_width as int,
            page_height as int,
            specs@,
            tiles_of(placed@),
            remaining@,
            windows@,
            0,
        ) == (match r {
            Some(items) => Some(tiles_of(items@)),
            None => None,
        }),
{
    let ghost pw = page_width as int;
    let ghost ph = page_height as int;
    let ghost there = tiles_of(placed@);
    let mut k: usize = 0;
    while k < windows.len()
        invariant
            k <= windows.len(),
            pw == page_width,
            ph == page_height,
            there == tiles_of(placed@),
            moves_in_range(specs@, there, remaining@),
            all_drawn_on(windows@, pw, ph),
            never_stuck(pw, ph, specs@, there, remaining@),
            first_packed(pw, ph, specs@, there, remaining@, windows@, 0) == first_packed(
                pw,
                ph,
                specs@,
                there,
                remaining@,
                windows@,
                k as int,
            ),
        decreases windows.len() - k,
    {
        assert(drawn_on(windows[k as int], pw, ph));
        match swap_attempt(page_width, page_height, placed, specs, remaining, windows[k]) {
            Some(items) => {
                return Some(items);
            },
            None => {},
        }
        k = k + 1;
    }
    None
}

/// Window `k` was drawn with four rolls: its width and its height from 50 to 349, then where it
/// lies, anywhere on the sheet. Where the sheet is too small for it, it lies at the edge.
pub open spec fn is_rolled(
    rolls: Seq<Roll>,
    k: int,
    win: Window,
    pw: int,
    ph: int,
) -> bool {
    &&& rolls[4 * k] == (Roll { low: 50, high: 349, n: win.w as int })
    &&& rolls[4 * k + 1] == (Roll { low: 50, high: 349, n: win.h as int })
    &&& rolls[4 * k + 2] == (Roll {
        low: 0,
        high: if win.w <= pw {
            pw - win.w
        } else {
            0
        },
        n: win.x as int,
    })
    &&& rolls[4 * k + 3] == (Roll {
        low: 0,
        high: if win.h <= ph {
            ph - win.h
        } else {
            0
        },
        n: win.y as int,
    })
}

/// The windows are what the dice gave, one roll after the other.
pub open spec fn all_rolled(dice: Dice, windows: Seq<Window>, pw: int, ph: int) -> bool {
    &&& dice.rolls().len() == 4 * windows.len()
    &&& forall|k: int|
        0 <= k < windows.len() ==> is_rolled(dice.rolls(), k, #[trigger] windows[k], pw, ph)
}

/// The result is what the first of a thousand windows comes to that were rolled, and with which
/// everything can be packed; there is none if there is no such window.
pub open spec fn is_swap_by_dice(
    pw: int,
    ph: int,
    specs: Seq<ElementType>,
    placed: Seq<Tile>,
    remaining: Seq<u32>,
    result: Option<Seq<Tile>>,
) -> bool {
    exists|dice: Dice, windows: Seq<Window>|
        {
            &&& #[trigger] all_rolled(dice, windows, pw, ph)
            &&& windows.len() == 1000
            &&& first_packed(pw, ph, specs, placed, remaining, windows, 0) == result
        }
}

/// Draws the windows to clear, at random.
fn draw_windows(page_width: u32, page_height: u32, dice: &mut Dice) -> (windows: Vec<Window>)
    requires
        old(dice).rolls().len() == 0,
    ensures
        windows.len() == MAX_ATTEMPTS,
        all_drawn_on(windows@, page_width as int, page_height as int),
        all_rolled(*final(dice), windows@, page_width as int, page_height as int),
{
    let mut windows: Vec<Window> = Vec::new();
    let mut attempt: u32 = 0;
    while attempt < MAX_ATTEMPTS
        invariant
            attempt <= MAX_ATTEMPTS,
            windows.len() == attempt,
            all_drawn_on(windows@, page_width as int, page_height as int),
            all_rolled(*dice, windows@, page_width as int, page_height as int),
        decreases MAX_ATTEMPTS - attempt,
    {
        let ghost before = dice.rolls();
        let ghost old_windows = windows@;
        let w: u32 = dice.roll(50, 349);
        let h: u32 = dice.roll(50, 349);
        let limit_x: u32 = if w <= page_width {
            page_width - w
        } else {
            0
        };
        let limit_y: u32 = if h <= page_height {
            page_height - h
        } else {
            0
        };
        let x: u32 = dice.roll(0, limit_x);
        let y: u32 = dice.roll(0, limit_y);
        windows.push(Window { x, y, w, h });
        proof {
            let rolls = dice.rolls();
            assert forall|k: int| 0 <= k < windows.len() implies is_rolled(
                rolls,
                k,
                #[trigger] windows[k],
                page_width as int,
                page_height as int,
            ) by {
                if k < old_windows.len() {
                    assert(windows[k] == old_windows[k]);
                    assert(is_rolled(
                        before,
                        k,
                        old_windows[k],
                        page_width as int,
                        page_height as int,
                    ));
                }
            }
        }
        attempt = attempt + 1;
    }
    windows
}

/// Tries to place all pieces that are left by clearing one window of the sheet after the
/// other. The windows are drawn at random, so which one succeeds is open.
pub fn try_local_swap(
    page_width: u32,
    page_height: u32,
    placed: &mut Vec<PlacedItem>,
    specs: &[ElementType],
    remaining: &mut Vec<u32>,
) -> (swapped: bool)
    requires
        total(old(remaining)@) == 0 || {
            &&& moves_in_range(specs@, tiles_of(old(placed)@), old(remaining)@)
            &&& never_stuck(
                page_width as int,
                page_height as int,
                specs@,
                tiles_of(old(placed)@),
                old(remaining)@,
            )
        },
    ensures
        total(old(remaining)@) == 0 ==> !swapped,
        total(old(remaining)@) > 0 ==> exists|windows: Seq<Window>|
            {
                &&& windows.len() == MAX_ATTEMPTS
                &&& all_drawn_on(windows, page_width as int, page_height as int)
                &&& #[trigger] first_packed(
                    page_width as int,
                    page_height as int,
                    specs@,
                    tiles_of(old(placed)@),
                    old(remaining)@,
                    windows,
                    0,
                ) == (if swapped {
                    Some(tiles_of(final(placed)@))
                } else {
                    None
                })
            },
        total(old(remaining)@) > 0 ==> is_swap_by_dice(
            page_width as int,
            page_height as int,
            specs@,
            tiles_of(old(placed)@),
            old(remaining)@,
            if swapped {
                Some(tiles_of(final(placed)@))
            } else {
                None
            },
        ),
        swapped ==> exists|win: Window|
            {
                &&& drawn_on(win, page_width as int, page_height as int)
                &&& #[trigger] repacked(
                    page_width as int,
                    page_height as int,
                    specs@,
                    tiles_of(old(placed)@),
                    old(remaining)@,
                    win,
                ) == Packing::Packed(tiles_of(final(placed)@))
            },
        swapped ==> final(remaining)@ == Seq::new(old(remaining)@.len(), |i: int| 0u32),
        !swapped ==> final(placed)@ == old(placed)@ && final(remaining)@ == old(remaining)@,
        !swapped ==> total(old(remaining)@) == 0 || exists|win: Window|
            {
                &&& drawn_on(win, page_width as int, page_height as int)
                &&& #[trigger] repacked(
                    page_width as int,
                    page_height as int,
                    specs@,
                    tiles_of(old(placed)@),
                    old(remaining)@,
                    win,
                ) is Failed
            },
{
    let ghost pw = page_width as int;
    let ghost ph = page_height as int;
    let ghost there = tiles_of(placed@);
    let ghost left = remaining@;
    let unplaced: u32 = sum_counts(remaining.as_slice());
    if unplaced == 0 {
        return false;
    }
    let mut dice = Dice::new();
    let windows = draw_windows(page_width, page_height, &mut dice);
    let found = swap_over(
        page_width,
        page_height,
        placed.as_slice(),
        specs,
        remaining.as_slice(),
        windows.as_slice(),
    );
    proof {
        lemma_first_packed(pw, ph, specs@, there, left, windows@, 0);
        assert(all_rolled(dice, windows@, pw, ph));
        assert(drawn_on(windows[0], pw, ph));
        if moves_have_area(specs@, there, left) {
            lemma_repacked_never_stuck(pw, ph, specs@, there, left, windows[0]);
        }
        assert(!(repacked(pw, ph, specs@, there, left, windows[0]) is Stuck));
    }
    match found {
        Some(items) => {
            proof {
                let k = choose|k: int|
                    0 <= k < windows.len() && repacked(
                        pw,
                        ph,
                        specs@,
                        there,
                        left,
                        #[trigger] windows[k],
                    ) == Packing::Packed(tiles_of(items@));
                assert(drawn_on(windows[k], pw, ph));
            }
            *placed = items;
            let n: usize = remaining.len();
            let mut cleared: Vec<u32> = Vec::new();
            while cleared.len() < n
                invariant
                    cleared.len() <= n,
                    forall|i: int| 0 <= i < cleared.len() ==> cleared[i] == 0u32,
                decreases n - cleared.len(),
            {
                cleared.push(0);
            }
            *remaining = cleared;
            assert(remaining@ =~= Seq::new(left.len(), |i: int| 0u32));
            true
        },
        None => false,
    }
}

} // verus!
