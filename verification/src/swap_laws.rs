//! What clearing a window takes off the sheet, and when everything can be packed again.

use crate::layout::overlap;
use crate::packing::{packing, Packing};
use crate::packing_laws::{lemma_packing_decides, packable};
use crate::pieces::{total, ElementType, Tile};
use crate::swap::{
    drawn_on, first_packed, kept, lemma_put_back_named, removed, repacked, sifted, to_repack,
    Window,
};
use crate::tally::{distinct_names, named};
use vstd::prelude::*;

verus! {

/// A window as a rectangle.
pub open spec fn area_in(win: Window) -> Tile {
    Tile {
        x: win.x as int,
        y: win.y as int,
        w: win.w as int,
        h: win.h as int,
        name: seq![],
        rotated: false,
    }
}

/// The pieces of a list that overlap the window, in their order.
pub open spec fn under(tiles: Seq<Tile>, win: Window) -> Seq<Tile> {
    tiles.filter(|t: Tile| overlap(t, area_in(win)))
}

/// The pieces of a list that do not overlap the window, in their order.
pub open spec fn beside(tiles: Seq<Tile>, win: Window) -> Seq<Tile> {
    tiles.filter(|t: Tile| !overlap(t, area_in(win)))
}

/// Exactly the pieces that overlap the window are taken off the sheet. All others stay, in their
/// order.
pub proof fn lemma_window_cleared(tiles: Seq<Tile>, win: Window)
    ensures
        removed(tiles, win) == under(tiles, win),
        kept(tiles, win) == beside(tiles, win),
        forall|k: int|
            0 <= k < removed(tiles, win).len() ==> overlap(
                #[trigger] removed(tiles, win)[k],
                area_in(win),
            ),
        forall|k: int|
            0 <= k < kept(tiles, win).len() ==> !overlap(
                #[trigger] kept(tiles, win)[k],
                area_in(win),
            ),
        forall|k: int|
            0 <= k < tiles.len() ==> if overlap(#[trigger] tiles[k], area_in(win)) {
                removed(tiles, win).contains(tiles[k])
            } else {
                kept(tiles, win).contains(tiles[k])
            },
{
    let n = tiles.len() as int;
    lemma_sifted_filter(tiles, win, n);
    assert(tiles.take(n) =~= tiles);
    let on = |t: Tile| overlap(t, area_in(win));
    let off = |t: Tile| !overlap(t, area_in(win));
    assert forall|k: int| 0 <= k < removed(tiles, win).len() implies overlap(
        #[trigger] removed(tiles, win)[k],
        area_in(win),
    ) by {
        tiles.lemma_filter_pred(on, k);
    }
    assert forall|k: int| 0 <= k < kept(tiles, win).len() implies !overlap(
        #[trigger] kept(tiles, win)[k],
        area_in(win),
    ) by {
        tiles.lemma_filter_pred(off, k);
    }
    assert forall|k: int| 0 <= k < tiles.len() implies if overlap(
        #[trigger] tiles[k],
        area_in(win),
    ) {
        removed(tiles, win).contains(tiles[k])
    } else {
        kept(tiles, win).contains(tiles[k])
    } by {
        if overlap(tiles[k], area_in(win)) {
            tiles.lemma_filter_contains(on, k);
        } else {
            tiles.lemma_filter_contains(off, k);
        }
    }
}

proof fn lemma_sifted_filter(tiles: Seq<Tile>, win: Window, n: int)
    requires
        0 <= n <= tiles.len(),
    ensures
        sifted(tiles, win, true, n) == under(tiles.take(n), win),
        sifted(tiles, win, false, n) == beside(tiles.take(n), win),
    decreases n,
{
    reveal(Seq::filter);
    if n > 0 {
        lemma_sifted_filter(tiles, win, n - 1);
        assert(tiles.take(n).drop_last() =~= tiles.take(n - 1));
        assert(tiles.take(n).last() == tiles[n - 1]);
    }
}

/// If no two kinds have the same name, what has to be packed of a kind is what was off the sheet
/// and what overlaps the window.
pub proof fn lemma_off_the_sheet(
    specs: Seq<ElementType>,
    placed: Seq<Tile>,
    remaining: Seq<u32>,
    win: Window,
    i: int,
)
    requires
        specs.len() <= remaining.len(),
        total(remaining) + placed.len() <= u32::MAX,
        distinct_names(specs),
        0 <= i < specs.len(),
    ensures
        to_repack(specs, placed, remaining, win)[i] == remaining[i] + named(
            under(placed, win),
            specs[i].name@,
        ),
{
    lemma_window_cleared(placed, win);
    let off = removed(placed, win);
    placed.lemma_filter_len(|t: Tile| overlap(t, area_in(win)));
    lemma_put_back_named(specs, remaining, off, off.len() as int, i);
    assert(off.take(off.len() as int) =~= off);
}

/// Clearing a window succeeds only where at most twelve pieces are then off the sheet and can all
/// be packed among those that stay, which keep their places. It fails only where there are more,
/// where they cannot be packed, or where the search has visited fifty thousand nodes.
pub proof fn lemma_repacked_decides(
    pw: int,
    ph: int,
    specs: Seq<ElementType>,
    placed: Seq<Tile>,
    remaining: Seq<u32>,
    win: Window,
)
    ensures
        ({
            let stay = beside(placed, win);
            let counts = to_repack(specs, placed, remaining, win);
            let few = total(remaining) + under(placed, win).len() <= 12;
            match repacked(pw, ph, specs, placed, remaining, win) {
                Packing::Packed(tiles) => {
                    &&& few
                    &&& packable(pw, ph, specs, stay, counts)
                    &&& tiles.len() >= stay.len()
                    &&& tiles.take(stay.len() as int) == stay
                },
                Packing::Failed => few && packing(pw, ph, specs, stay, counts, 0).iters <= 50_000
                    ==> !packable(pw, ph, specs, stay, counts),
                Packing::Stuck => few,
            }
        }),
{
    lemma_window_cleared(placed, win);
    let stay = kept(placed, win);
    let counts = to_repack(specs, placed, remaining, win);
    lemma_packing_decides(pw, ph, specs, stay, counts, 0);
    if let Packing::Packed(tiles) = repacked(pw, ph, specs, placed, remaining, win) {
        assert(tiles.take(stay.len() as int) =~= stay);
    }
}

/// A window is from 50 to 349 wide and high. It may lie anywhere on the sheet; only where the
/// sheet is too small for it does it lie at the edge.
pub proof fn lemma_drawn_on(win: Window, pw: int, ph: int)
    requires
        0 <= pw,
        0 <= ph,
    ensures
        drawn_on(win, pw, ph) <==> {
            &&& 50 <= win.w <= 349
            &&& 50 <= win.h <= 349
            &&& win.x + win.w <= pw || (win.w >= pw && win.x == 0)
            &&& win.y + win.h <= ph || (win.h >= ph && win.y == 0)
        },
{
}

/// Of some windows the first one counts with which everything can be packed; without one, none of
/// them can be.
pub proof fn lemma_first_packed_exact(
    pw: int,
    ph: int,
    specs: Seq<ElementType>,
    placed: Seq<Tile>,
    remaining: Seq<u32>,
    windows: Seq<Window>,
    from: int,
)
    requires
        0 <= from <= windows.len(),
    ensures
        match first_packed(pw, ph, specs, placed, remaining, windows, from) {
            Some(tiles) => exists|k: int|
                {
                    &&& from <= k < windows.len()
                    &&& repacked(pw, ph, specs, placed, remaining, #[trigger] windows[k])
                        == Packing::Packed(tiles)
                    &&& forall|j: int|
                        from <= j < k ==> !(repacked(
                            pw,
                            ph,
                            specs,
                            placed,
                            remaining,
                            #[trigger] windows[j],
                        ) is Packed)
                },
            None => forall|j: int|
                from <= j < windows.len() ==> !(repacked(
                    pw,
                    ph,
                    specs,
                    placed,
                    remaining,
                    #[trigger] windows[j],
                ) is Packed),
        },
    decreases windows.len() - from,
{
    if from < windows.len() {
        lemma_first_packed_exact(pw, ph, specs, placed, remaining, windows, from + 1);
        if repacked(pw, ph, specs, placed, remaining, windows[from]) is Packed {
            assert(windows[from] == windows[from]);
        } else if let Some(tiles) = first_packed(
            pw,
            ph,
            specs,
            placed,
            remaining,
            windows,
            from + 1,
        ) {
            let k = choose|k: int|
                {
                    &&& from + 1 <= k < windows.len()
                    &&& repacked(pw, ph, specs, placed, remaining, #[trigger] windows[k])
                        == Packing::Packed(tiles)
                    &&& forall|j: int|
                        from + 1 <= j < k ==> !(repacked(
                            pw,
                            ph,
                            specs,
                            placed,
                            remaining,
                            #[trigger] windows[j],
                        ) is Packed)
                };
            assert(repacked(pw, ph, specs, placed, remaining, windows[k]) == Packing::Packed(
                tiles,
            ));
        }
    }
}

} // verus!
