//! Packing the pieces that are left into the free space of a sheet, by backtracking.

use crate::free_space::{
    all_have_edges, clear_of, covered, free_regions, get_max_free_rects, has_edges,
    lemma_free_regions_clear, lemma_free_regions_shape, meets, regions_of, sheet, Rect,
};
use crate::layout::{
    all_apart, all_inside, apart_from, inside, lemma_apart_from, overlap, rises, squares_lie,
    Region,
};
use crate::order::{indices, key_values, lemma_order_exists, sort_order, sorts, stable_order, taken};
use crate::pieces::{
    copy_items, lemma_less_one, lemma_total_zero, less_one, sum_counts, tiles_of, total,
    ElementType, PlacedItem, Tile,
};
use vstd::prelude::*;

verus! {

/// How many nodes a search may visit.
pub const MAX_ITERS: u32 = 50_000;

/// How a search for places ends: the pieces were placed, the last one of the list first; or
/// they were not; or it came to a point where only pieces without area were left to choose
/// from.
pub enum Packing {
    Stuck,
    Failed,
    Packed(Seq<Tile>),
}

/// How a search ends, and how many nodes have been visited by then.
pub struct PackRun {
    pub outcome: Packing,
    pub iters: int,
}

/// One node more, as far as the counter can tell.
pub open spec fn counted(iters: int) -> int {
    if iters < u32::MAX {
        iters + 1
    } else {
        iters
    }
}

/// The first kind of the largest pieces that are left, among the first `n` kinds.
pub open spec fn largest(specs: Seq<ElementType>, remaining: Seq<u32>, n: int) -> Option<int>
    decreases n,
{
    if n <= 0 {
        None
    } else {
        let best = largest(specs, remaining, n - 1);
        if remaining[n - 1] > 0 && specs[n - 1].area() > (match best {
            Some(i) => specs[i].area(),
            None => 0,
        }) {
            Some(n - 1)
        } else {
            best
        }
    }
}

/// Where a region comes when regions are taken from the top, and in a row from the left.
pub open spec fn row_key(r: Region) -> int {
    r.y * 0x1_0000_0000 + r.x
}

/// The keys of a list of regions.
pub open spec fn row_keys(fs: Seq<Region>) -> Seq<int> {
    fs.map_values(|r: Region| row_key(r))
}

/// The maximal free regions, from the top and from the left.
pub open spec fn free_by_rows(w: int, h: int, tiles: Seq<Tile>) -> Seq<Region> {
    let fs = free_regions(w, h, tiles);
    taken(fs, stable_order(row_keys(fs)))
}

/// The places of a piece in the corners of the first `n` regions, where it fits.
pub open spec fn spots(spec: ElementType, rotated: bool, fs: Seq<Region>, n: int) -> Seq<Tile>
    decreases n,
{
    if n <= 0 {
        seq![]
    } else {
        let before = spots(spec, rotated, fs, n - 1);
        let f = fs[n - 1];
        if spec.wide(rotated) <= f.w && spec.high(rotated) <= f.h {
            before.push(spec.tile(f.x, f.y, rotated))
        } else {
            before
        }
    }
}

/// The places to try for a piece: first as it is, then turned unless it is a square.
pub open spec fn all_spots(spec: ElementType, fs: Seq<Region>) -> Seq<Tile> {
    spots(spec, false, fs, fs.len() as int) + (if spec.width == spec.height {
        seq![]
    } else {
        spots(spec, true, fs, fs.len() as int)
    })
}

/// The search for places for the remaining pieces on a `w` by `h` sheet. It takes a largest
/// piece, tries its places one after the other, and goes on with the rest of the pieces.
pub open spec fn packing(
    w: int,
    h: int,
    specs: Seq<ElementType>,
    placed: Seq<Tile>,
    remaining: Seq<u32>,
    iters: int,
) -> PackRun
    decreases total(remaining), 1int, 0int,
{
    let visited = counted(iters);
    if visited > MAX_ITERS {
        PackRun { outcome: Packing::Failed, iters: visited }
    } else if total(remaining) == 0 {
        PackRun { outcome: Packing::Packed(seq![]), iters: visited }
    } else {
        match largest(specs, remaining, remaining.len() as int) {
            None => PackRun { outcome: Packing::Stuck, iters: visited },
            Some(kind) => trying(
                w,
                h,
                specs,
                placed,
                remaining,
                kind,
                all_spots(specs[kind], free_by_rows(w, h, placed)),
                0,
                visited,
            ),
        }
    }
}

/// The search from place `next` on for a piece of the given kind.
pub open spec fn trying(
    w: int,
    h: int,
    specs: Seq<ElementType>,
    placed: Seq<Tile>,
    remaining: Seq<u32>,
    kind: int,
    places: Seq<Tile>,
    next: int,
    iters: int,
) -> PackRun
    decreases total(remaining), 0int, places.len() - next,
{
    if next < 0 || next >= places.len() || kind < 0 || kind >= remaining.len() || remaining[kind]
        == 0 {
        PackRun { outcome: Packing::Failed, iters }
    } else {
        proof {
            lemma_less_one(remaining, kind);
        }
        let run = packing(
            w,
            h,
            specs,
            placed.push(places[next]),
            less_one(remaining, kind),
            iters,
        );
        match run.outcome {
            Packing::Stuck => run,
            Packing::Packed(rest) => PackRun {
                outcome: Packing::Packed(rest.push(places[next])),
                iters: run.iters,
            },
            Packing::Failed => trying(
                w,
                h,
                specs,
                placed,
                remaining,
                kind,
                places,
                next + 1,
                run.iters,
            ),
        }
    }
}

/// Every piece that is left has an area.
pub open spec fn has_area(specs: Seq<ElementType>, remaining: Seq<u32>) -> bool {
    forall|i: int|
        0 <= i < remaining.len() && #[trigger] remaining[i] > 0 ==> i < specs.len()
            && specs[i].area() > 0
}

/// Every piece that is left is of a known kind, and its area is a number that a `u32` can hold.
pub open spec fn area_in_range(specs: Seq<ElementType>, remaining: Seq<u32>) -> bool {
    forall|i: int|
        0 <= i < remaining.len() && #[trigger] remaining[i] > 0 ==> i < specs.len()
            && specs[i].area() <= u32::MAX
}

/// A rectangle is a piece of the given kind, turned or not.
pub open spec fn is_piece(t: Tile, spec: ElementType) -> bool {
    t == spec.tile(t.x, t.y, t.rotated)
}

/// The rectangles are pieces of the given kinds, exactly as many of each as `counts` says.
pub open spec fn made_of(tiles: Seq<Tile>, specs: Seq<ElementType>, counts: Seq<u32>) -> bool
    decreases tiles.len(),
{
    if tiles.len() == 0 {
        total(counts) == 0
    } else {
        exists|kind: int|
            0 <= kind < counts.len() && #[trigger] counts[kind] > 0 && kind < specs.len()
                && is_piece(tiles.last(), specs[kind]) && made_of(
                tiles.drop_last(),
                specs,
                less_one(counts, kind),
            )
    }
}

/// What `largest` finds is a kind that is left, and no other kind that is left is larger.
pub proof fn lemma_largest(specs: Seq<ElementType>, remaining: Seq<u32>, n: int)
    requires
        0 <= n <= remaining.len(),
    ensures
        match largest(specs, remaining, n) {
            Some(k) => {
                &&& 0 <= k < n
                &&& remaining[k] > 0
                &&& specs[k].area() > 0
                &&& forall|i: int|
                    0 <= i < n && #[trigger] remaining[i] > 0 ==> specs[i].area()
                        <= specs[k].area()
                &&& forall|i: int|
                    0 <= i < k && #[trigger] remaining[i] > 0 ==> specs[i].area()
                        < specs[k].area()
            },
            None => forall|i: int|
                0 <= i < n && #[trigger] remaining[i] > 0 ==> specs[i].area() <= 0,
        },
    decreases n,
{
    if n > 0 {
        lemma_largest(specs, remaining, n - 1);
    }
}

/// A search for pieces that all have an area never gets stuck.
pub proof fn lemma_never_stuck(
    w: int,
    h: int,
    specs: Seq<ElementType>,
    placed: Seq<Tile>,
    remaining: Seq<u32>,
    iters: int,
)
    requires
        has_area(specs, remaining),
    ensures
        !(packing(w, h, specs, placed, remaining, iters).outcome is Stuck),
    decreases total(remaining), 1int, 0int,
{
    lemma_largest(specs, remaining, remaining.len() as int);
    if total(remaining) > 0 {
        match largest(specs, remaining, remaining.len() as int) {
            None => {
                lemma_total_zero(remaining);
            },
            Some(kind) => {
                let places = all_spots(specs[kind], free_by_rows(w, h, placed));
                lemma_trying_never_stuck(
                    w,
                    h,
                    specs,
                    placed,
                    remaining,
                    kind,
                    places,
                    0,
                    counted(iters),
                );
            },
        }
    }
}

proof fn lemma_trying_never_stuck(
    w: int,
    h: int,
    specs: Seq<ElementType>,
    placed: Seq<Tile>,
    remaining: Seq<u32>,
    kind: int,
    places: Seq<Tile>,
    next: int,
    iters: int,
)
    requires
        has_area(specs, remaining),
        0 <= kind < remaining.len(),
        remaining[kind] > 0,
        0 <= next,
    ensures
        !(trying(w, h, specs, placed, remaining, kind, places, next, iters).outcome is Stuck),
    decreases total(remaining), 0int, places.len() - next,
{
    if next < places.len() {
        let rest = less_one(remaining, kind);
        lemma_less_one(remaining, kind);
        assert(has_area(specs, rest)) by {
            assert forall|i: int| 0 <= i < rest.len() && #[trigger] rest[i] > 0 implies i
                < specs.len() && specs[i].area() > 0 by {
                assert(remaining[i] > 0);
            }
        }
        lemma_never_stuck(w, h, specs, placed.push(places[next]), rest, iters);
        let run = packing(w, h, specs, placed.push(places[next]), rest, iters);
        if run.outcome is Failed {
            lemma_trying_never_stuck(
                w,
                h,
                specs,
                placed,
                remaining,
                kind,
                places,
                next + 1,
                run.iters,
            );
        }
    }
}

/// Each region in row order is one of the free regions.
pub proof fn lemma_rows_are_free(w: int, h: int, tiles: Seq<Tile>)
    requires
        0 <= w,
        0 <= h,
        all_have_edges(tiles),
    ensures
        forall|k: int|
            0 <= k < free_by_rows(w, h, tiles).len() ==> {
                let r = #[trigger] free_by_rows(w, h, tiles)[k];
                covered(r, sheet(w, h)) && clear_of(r, tiles) && 0 <= r.w && 0 <= r.h
            },
{
    let fs = free_regions(w, h, tiles);
    lemma_order_exists(row_keys(fs));
    lemma_free_regions_shape(w, h, tiles);
    lemma_free_regions_clear(w, h, tiles);
    let order = stable_order(row_keys(fs));
    assert forall|k: int| 0 <= k < free_by_rows(w, h, tiles).len() implies {
        let r = #[trigger] free_by_rows(w, h, tiles)[k];
        covered(r, sheet(w, h)) && clear_of(r, tiles) && 0 <= r.w && 0 <= r.h
    } by {
        assert(free_by_rows(w, h, tiles)[k] == fs[order[k]]);
    }
}

/// Each place of a piece lies on the sheet and is clear of the pieces that are there.
proof fn lemma_spots(
    spec: ElementType,
    rotated: bool,
    fs: Seq<Region>,
    n: int,
    w: int,
    h: int,
    tiles: Seq<Tile>,
)
    requires
        0 <= n <= fs.len(),
        forall|k: int|
            0 <= k < fs.len() ==> {
                let r = #[trigger] fs[k];
                covered(r, sheet(w, h)) && clear_of(r, tiles)
            },
    ensures
        forall|k: int|
            0 <= k < spots(spec, rotated, fs, n).len() ==> {
                let t = #[trigger] spots(spec, rotated, fs, n)[k];
                &&& is_piece(t, spec)
                &&& inside(t, w, h)
                &&& forall|i: int| 0 <= i < tiles.len() ==> !overlap(#[trigger] tiles[i], t)
            },
    decreases n,
{
    if n > 0 {
        lemma_spots(spec, rotated, fs, n - 1, w, h, tiles);
        let f = fs[n - 1];
        let before = spots(spec, rotated, fs, n - 1);
        let s = spots(spec, rotated, fs, n);
        assert forall|k: int| 0 <= k < s.len() implies {
            let t = #[trigger] s[k];
            &&& is_piece(t, spec)
            &&& inside(t, w, h)
            &&& forall|i: int| 0 <= i < tiles.len() ==> !overlap(#[trigger] tiles[i], t)
        } by {
            if k < before.len() {
                assert(s[k] == before[k]);
            } else {
                assert forall|i: int| 0 <= i < tiles.len() implies !overlap(
                    #[trigger] tiles[i],
                    s[k],
                ) by {
                    assert(!meets(f, tiles[i]));
                }
            }
        }
    }
}

/// Each place to try for a piece lies on the sheet and is clear of the pieces that are there.
pub proof fn lemma_all_spots(spec: ElementType, w: int, h: int, tiles: Seq<Tile>)
    requires
        0 <= w,
        0 <= h,
        all_have_edges(tiles),
    ensures
        forall|k: int|
            0 <= k < all_spots(spec, free_by_rows(w, h, tiles)).len() ==> {
                let t = #[trigger] all_spots(spec, free_by_rows(w, h, tiles))[k];
                &&& is_piece(t, spec)
                &&& inside(t, w, h)
                &&& forall|i: int| 0 <= i < tiles.len() ==> !overlap(#[trigger] tiles[i], t)
            },
{
    let fs = free_by_rows(w, h, tiles);
    lemma_rows_are_free(w, h, tiles);
    lemma_spots(spec, false, fs, fs.len() as int, w, h, tiles);
    lemma_spots(spec, true, fs, fs.len() as int, w, h, tiles);
    let a = spots(spec, false, fs, fs.len() as int);
    let b = spots(spec, true, fs, fs.len() as int);
    let s = all_spots(spec, fs);
    assert forall|k: int| 0 <= k < s.len() implies {
        let t = #[trigger] s[k];
        &&& is_piece(t, spec)
        &&& inside(t, w, h)
        &&& forall|i: int| 0 <= i < tiles.len() ==> !overlap(#[trigger] tiles[i], t)
    } by {
        if k < a.len() {
            assert(s[k] == a[k]);
        } else {
            assert(s[k] == b[k - a.len()]);
        }
    }
}

/// If a new piece overlaps none of those on the sheet, and what is packed after it overlaps
/// nothing before it, then neither does what is packed in all.
proof fn lemma_apart_reordered(placed: Seq<Tile>, p: Tile, rest: Seq<Tile>)
    requires
        apart_from(placed.push(p) + rest, placed.len() as int + 1),
        forall|i: int| 0 <= i < placed.len() ==> !overlap(#[trigger] placed[i], p),
    ensures
        apart_from(placed + rest.push(p), placed.len() as int),
{
    let a = placed.push(p) + rest;
    let b = placed + rest.push(p);
    let n = placed.len() as int;
    let last = b.len() - 1;
    assert forall|i: int, j: int| 0 <= i < j < b.len() && n <= j implies !overlap(
        #[trigger] b[i],
        #[trigger] b[j],
    ) by {
        let ia = if i < n {
            i
        } else {
            i + 1
        };
        let ja = if j < last {
            j + 1
        } else {
            n
        };
        assert(b[i] == a[ia] && b[j] == a[ja]);
        if ia < n && ja == n {
            assert(!overlap(placed[i], p));
        } else if ia < ja {
            assert(!overlap(a[ia], a[ja]));
        } else {
            assert(!overlap(a[ja], a[ia]));
        }
    }
}

/// What a search packs is exactly the remaining pieces, all of them on the sheet. They overlap
/// neither each other nor the pieces that were there.
pub proof fn lemma_packed(
    w: int,
    h: int,
    specs: Seq<ElementType>,
    placed: Seq<Tile>,
    remaining: Seq<u32>,
    iters: int,
)
    requires
        0 <= w <= u32::MAX,
        0 <= h <= u32::MAX,
        remaining.len() <= specs.len() || area_in_range(specs, remaining),
        all_have_edges(placed),
    ensures
        packing(w, h, specs, placed, remaining, iters).outcome matches Packing::Packed(tiles) ==> {
            &&& all_inside(tiles, w, h)
            &&& apart_from(placed + tiles, placed.len() as int)
            &&& all_apart(placed) ==> all_apart(placed + tiles)
            &&& made_of(tiles, specs, remaining)
            &&& tiles.len() == total(remaining)
        },
    decreases total(remaining), 1int, 0int,
{
    if counted(iters) > MAX_ITERS {
    } else if total(remaining) == 0 {
        assert(placed + Seq::<Tile>::empty() =~= placed);
    } else {
        lemma_largest(specs, remaining, remaining.len() as int);
        match largest(specs, remaining, remaining.len() as int) {
            None => {},
            Some(kind) => {
                lemma_all_spots(specs[kind], w, h, placed);
                let places = all_spots(specs[kind], free_by_rows(w, h, placed));
                lemma_trying_packed(
                    w,
                    h,
                    specs,
                    placed,
                    remaining,
                    kind,
                    places,
                    0,
                    counted(iters),
                );
                if let Packing::Packed(tiles) = packing(
                    w,
                    h,
                    specs,
                    placed,
                    remaining,
                    iters,
                ).outcome {
                    if all_apart(placed) {
                        lemma_apart_from(placed, tiles);
                    }
                }
            },
        }
    }
}

proof fn lemma_trying_packed(
    w: int,
    h: int,
    specs: Seq<ElementType>,
    placed: Seq<Tile>,
    remaining: Seq<u32>,
    kind: int,
    places: Seq<Tile>,
    next: int,
    iters: int,
)
    requires
        0 <= w <= u32::MAX,
        0 <= h <= u32::MAX,
        remaining.len() <= specs.len() || area_in_range(specs, remaining),
        all_have_edges(placed),
        0 <= kind < remaining.len(),
        remaining[kind] > 0,
        0 <= next,
        forall|k: int|
            0 <= k < places.len() ==> {
                let t = #[trigger] places[k];
                &&& is_piece(t, specs[kind])
                &&& inside(t, w, h)
                &&& forall|i: int| 0 <= i < placed.len() ==> !overlap(#[trigger] placed[i], t)
            },
    ensures
        trying(
            w,
            h,
            specs,
            placed,
            remaining,
            kind,
            places,
            next,
            iters,
        ).outcome matches Packing::Packed(tiles) ==> {
            &&& all_inside(tiles, w, h)
            &&& apart_from(placed + tiles, placed.len() as int)
            &&& made_of(tiles, specs, remaining)
            &&& tiles.len() == total(remaining)
        },
    decreases total(remaining), 0int, places.len() - next,
{
    if next < places.len() {
        let p = places[next];
        let rest = less_one(remaining, kind);
        lemma_less_one(remaining, kind);
        let more = placed.push(p);
        assert(all_have_edges(more)) by {
            assert forall|i: int| 0 <= i < more.len() implies has_edges(#[trigger] more[i]) by {
                if i < placed.len() {
                    assert(more[i] == placed[i]);
                }
            }
        }
        assert(rest.len() <= specs.len() || area_in_range(specs, rest)) by {
            if remaining.len() > specs.len() {
                assert forall|i: int| 0 <= i < rest.len() && #[trigger] rest[i] > 0 implies i
                    < specs.len() && specs[i].area() <= u32::MAX by {
                    assert(remaining[i] > 0);
                }
            }
        }
        lemma_packed(w, h, specs, more, rest, iters);
        let run = packing(w, h, specs, more, rest, iters);
        match run.outcome {
            Packing::Stuck => {},
            Packing::Packed(tiles) => {
                lemma_apart_reordered(placed, p, tiles);
                let out = tiles.push(p);
                assert forall|i: int| 0 <= i < out.len() implies inside(#[trigger] out[i], w, h) by {
                    if i < tiles.len() {
                        assert(out[i] == tiles[i]);
                    }
                }
                assert(out.drop_last() =~= tiles);
                assert(remaining[kind] > 0 && is_piece(out.last(), specs[kind]) && made_of(
                    out.drop_last(),
                    specs,
                    less_one(remaining, kind),
                ));
                assert(made_of(out, specs, remaining));
            },
            Packing::Failed => {
                lemma_trying_packed(
                    w,
                    h,
                    specs,
                    placed,
                    remaining,
                    kind,
                    places,
                    next + 1,
                    run.iters,
                );
            },
        }
    }
}

/// A piece covers the area of its kind.
pub proof fn lemma_piece_area(t: Tile, spec: ElementType)
    requires
        is_piece(t, spec),
    ensures
        t.w * t.h == spec.area(),
{
    assert(t.w * t.h == spec.area()) by (nonlinear_arith)
        requires
            t.w == spec.wide(t.rotated),
            t.h == spec.high(t.rotated),
            spec.area() == spec.width * spec.height,
    ;
}

/// The places of a piece are of that piece, lying as told.
proof fn lemma_spots_lie(spec: ElementType, rotated: bool, fs: Seq<Region>, n: int)
    ensures
        forall|k: int|
            0 <= k < spots(spec, rotated, fs, n).len() ==> {
                let t = #[trigger] spots(spec, rotated, fs, n)[k];
                is_piece(t, spec) && t.rotated == rotated
            },
    decreases n,
{
    if n > 0 {
        lemma_spots_lie(spec, rotated, fs, n - 1);
        let before = spots(spec, rotated, fs, n - 1);
        let s = spots(spec, rotated, fs, n);
        assert forall|k: int| 0 <= k < s.len() implies is_piece(#[trigger] s[k], spec)
            && s[k].rotated == rotated by {
            if k < before.len() {
                assert(s[k] == before[k]);
            }
        }
    }
}

/// No kind of which pieces are left is larger than `limit`.
spec fn up_to(specs: Seq<ElementType>, remaining: Seq<u32>, limit: int) -> bool {
    forall|i: int|
        0 <= i < remaining.len() && #[trigger] remaining[i] > 0 ==> specs[i].area() <= limit
}

/// The rectangles come in the order of their areas, none is larger than `limit`, and no square
/// is turned.
spec fn in_order(tiles: Seq<Tile>, limit: int) -> bool {
    &&& rises(tiles)
    &&& squares_lie(tiles)
    &&& forall|i: int| 0 <= i < tiles.len() ==> (#[trigger] tiles[i]).w * tiles[i].h <= limit
}

/// What a search packs comes in the order of its area, the smallest first, and no square is
/// turned.
pub proof fn lemma_packed_order(
    w: int,
    h: int,
    specs: Seq<ElementType>,
    placed: Seq<Tile>,
    remaining: Seq<u32>,
    iters: int,
)
    ensures
        packing(w, h, specs, placed, remaining, iters).outcome matches Packing::Packed(tiles) ==> {
            &&& rises(tiles)
            &&& squares_lie(tiles)
        },
{
    let limit = u32::MAX * u32::MAX;
    assert forall|i: int| 0 <= i < remaining.len() && #[trigger] remaining[i]
        > 0 implies specs[i].area() <= limit by {
        let a = specs[i].width;
        let b = specs[i].height;
        assert(a * b <= u32::MAX * u32::MAX) by (nonlinear_arith)
            requires
                0 <= a <= u32::MAX,
                0 <= b <= u32::MAX,
        ;
    }
    lemma_packing_in_order(w, h, specs, placed, remaining, iters, limit);
}

proof fn lemma_packing_in_order(
    w: int,
    h: int,
    specs: Seq<ElementType>,
    placed: Seq<Tile>,
    remaining: Seq<u32>,
    iters: int,
    limit: int,
)
    requires
        up_to(specs, remaining, limit),
    ensures
        packing(w, h, specs, placed, remaining, iters).outcome matches Packing::Packed(tiles)
            ==> in_order(tiles, limit),
    decreases total(remaining), 1int, 0int,
{
    if counted(iters) > MAX_ITERS || total(remaining) == 0 {
    } else {
        lemma_largest(specs, remaining, remaining.len() as int);
        match largest(specs, remaining, remaining.len() as int) {
            None => {},
            Some(kind) => {
                let spec = specs[kind];
                let fs = free_by_rows(w, h, placed);
                let places = all_spots(spec, fs);
                let a = spots(spec, false, fs, fs.len() as int);
                let b = spots(spec, true, fs, fs.len() as int);
                lemma_spots_lie(spec, false, fs, fs.len() as int);
                lemma_spots_lie(spec, true, fs, fs.len() as int);
                assert forall|k: int| 0 <= k < places.len() implies is_piece(
                    #[trigger] places[k],
                    spec,
                ) && (spec.width == spec.height ==> !places[k].rotated) by {
                    if k < a.len() {
                        assert(places[k] == a[k]);
                    } else {
                        assert(places[k] == b[k - a.len()]);
                    }
                }
                lemma_trying_in_order(
                    w,
                    h,
                    specs,
                    placed,
                    remaining,
                    kind,
                    places,
                    0,
                    counted(iters),
                );
                assert(remaining[kind] > 0);
            },
        }
    }
}

proof fn lemma_trying_in_order(
    w: int,
    h: int,
    specs: Seq<ElementType>,
    placed: Seq<Tile>,
    remaining: Seq<u32>,
    kind: int,
    places: Seq<Tile>,
    next: int,
    iters: int,
)
    requires
        0 <= kind < remaining.len(),
        remaining[kind] > 0,
        up_to(specs, remaining, specs[kind].area()),
        0 <= next,
        forall|k: int|
            0 <= k < places.len() ==> is_piece(#[trigger] places[k], specs[kind]) && (
            specs[kind].width == specs[kind].height ==> !places[k].rotated),
    ensures
        trying(
            w,
            h,
            specs,
            placed,
            remaining,
            kind,
            places,
            next,
            iters,
        ).outcome matches Packing::Packed(tiles) ==> in_order(tiles, specs[kind].area()),
    decreases total(remaining), 0int, places.len() - next,
{
    if next < places.len() {
        let limit = specs[kind].area();
        let p = places[next];
        let rest = less_one(remaining, kind);
        lemma_less_one(remaining, kind);
        assert forall|i: int| 0 <= i < rest.len() && #[trigger] rest[i] > 0 implies specs[i].area()
            <= limit by {
            assert(remaining[i] > 0);
        }
        lemma_packing_in_order(w, h, specs, placed.push(p), rest, iters, limit);
        let run = packing(w, h, specs, placed.push(p), rest, iters);
        match run.outcome {
            Packing::Stuck => {},
            Packing::Packed(tiles) => {
                lemma_piece_area(p, specs[kind]);
                let out = tiles.push(p);
                assert forall|i: int| 0 <= i < out.len() implies (#[trigger] out[i]).w * out[i].h
                    <= limit && (out[i].w == out[i].h ==> !out[i].rotated) by {
                    if i < tiles.len() {
                        assert(out[i] == tiles[i]);
                    }
                }
                assert forall|i: int, j: int| 0 <= i < j < out.len() implies (#[trigger] out[i]).w
                    * out[i].h <= (#[trigger] out[j]).w * out[j].h by {
                    assert(out[i] == tiles[i]);
                    if j < tiles.len() {
                        assert(out[j] == tiles[j]);
                    }
                }
            },
            Packing::Failed => {
                lemma_trying_in_order(
                    w,
                    h,
                    specs,
                    placed,
                    remaining,
                    kind,
                    places,
                    next + 1,
                    run.iters,
                );
            },
        }
    }
}

/// The maximal free rectangles, from the top and from the left.
fn rects_by_rows(page_width: u32, page_height: u32, placed: &[PlacedItem]) -> (rects: Vec<Rect>)
    requires
        all_have_edges(tiles_of(placed@)),
    ensures
        regions_of(rects@) == free_by_rows(
            page_width as int,
            page_height as int,
            tiles_of(placed@),
        ),
{
    let found = get_max_free_rects(page_width, page_height, placed);
    let ghost fs = regions_of(found@);
    let mut keys: Vec<i128> = Vec::new();
    let mut i: usize = 0;
    while i < found.len()
        invariant
            i <= found.len(),
            fs == regions_of(found@),
            key_values(keys@) == row_keys(fs).take(i as int),
        decreases found.len() - i,
    {
        let f = found[i];
        let ghost before = key_values(keys@);
        keys.push(f.y as i128 * 0x1_0000_0000 + f.x as i128);
        assert(fs[i as int] == f@);
        assert(key_values(keys@) =~= before.push(row_key(f@)));
        assert(row_keys(fs).take(i + 1) =~= row_keys(fs).take(i as int).push(row_key(f@)));
        i = i + 1;
    }
    assert(row_keys(fs).take(i as int) =~= row_keys(fs));
    let order = sort_order(&keys);
    let mut rects: Vec<Rect> = Vec::new();
    let mut k: usize = 0;
    while k < order.len()
        invariant
            k <= order.len(),
            fs == regions_of(found@),
            sorts(indices(order@), row_keys(fs)),
            regions_of(rects@) == taken(fs, indices(order@)).take(k as int),
        decreases order.len() - k,
    {
        assert(indices(order@)[k as int] == order[k as int]);
        let ghost before = regions_of(rects@);
        rects.push(found[order[k]]);
        assert(regions_of(rects@) =~= before.push(fs[order[k as int] as int]));
        assert(taken(fs, indices(order@)).take(k + 1) =~= taken(fs, indices(order@)).take(
            k as int,
        ).push(fs[order[k as int] as int]));
        k = k + 1;
    }
    assert(taken(fs, indices(order@)).take(k as int) =~= taken(fs, indices(order@)));
    rects
}

/// The first kind of the largest pieces that are left.
fn find_largest(specs: &[ElementType], remaining: &[u32]) -> (r: Option<usize>)
    requires
        area_in_range(specs@, remaining@),
    ensures
        largest(specs@, remaining@, remaining.len() as int) == (match r {
            Some(i) => Some(i as int),
            None => None,
        }),
{
    let mut best: Option<usize> = None;
    let mut best_area: u32 = 0;
    let mut i: usize = 0;
    while i < remaining.len()
        invariant
            i <= remaining.len(),
            area_in_range(specs@, remaining@),
            largest(specs@, remaining@, i as int) == (match best {
                Some(k) => Some(k as int),
                None => None,
            }),
            match best {
                Some(k) => k < i && best_area == specs[k as int].area(),
                None => best_area == 0,
            },
        decreases remaining.len() - i,
    {
        if remaining[i] > 0 {
            assert(0 <= specs[i as int].width * specs[i as int].height) by (nonlinear_arith);
            let area: u32 = specs[i].width * specs[i].height;
            if area > best_area {
                best_area = area;
                best = Some(i);
            }
        }
        i = i + 1;
    }
    best
}

/// The places of a piece in the corners of the free rectangles, where it fits.
fn push_spots(places: &mut Vec<PlacedItem>, spec: &ElementType, rotated: bool, rects: &Vec<Rect>)
    ensures
        tiles_of(final(places)@) == tiles_of(old(places)@) + spots(
            *spec,
            rotated,
            regions_of(rects@),
            rects.len() as int,
        ),
{
    let w: u32 = if rotated {
        spec.height
    } else {
        spec.width
    };
    let h: u32 = if rotated {
        spec.width
    } else {
        spec.height
    };
    let ghost start = tiles_of(places@);
    let ghost fs = regions_of(rects@);
    assert(start + spots(*spec, rotated, fs, 0) =~= start);
    let mut i: usize = 0;
    while i < rects.len()
        invariant
            i <= rects.len(),
            fs == regions_of(rects@),
            w == spec.wide(rotated),
            h == spec.high(rotated),
            tiles_of(places@) == start + spots(*spec, rotated, fs, i as int),
        decreases rects.len() - i,
    {
        let f = rects[i];
        assert(fs[i as int] == f@);
        let ghost before = tiles_of(places@);
        if w <= f.w && h <= f.h {
            places.push(
                PlacedItem { x: f.x, y: f.y, width: w, height: h, name: spec.name.clone(), rotated },
            );
            assert(tiles_of(places@) =~= before.push(spec.tile(f.x as int, f.y as int, rotated)));
            assert(start + spots(*spec, rotated, fs, i + 1) =~= before.push(
                spec.tile(f.x as int, f.y as int, rotated),
            ));
        }
        i = i + 1;
    }
}

/// Looks for places for all remaining pieces in the free space that the placed pieces leave.
/// `remaining` is the same afterwards as before; `iters` counts the nodes that were visited.
pub fn pack_remaining_items_backtracking(
    page_width: u32,
    page_height: u32,
    placed: &[PlacedItem],
    specs: &[ElementType],
    remaining: &mut [u32],
    iters: &mut u32,
) -> (packed: Option<Vec<PlacedItem>>)
    requires
        all_have_edges(tiles_of(placed@)),
        total(old(remaining)@) <= u32::MAX,
        area_in_range(specs@, old(remaining)@),
        has_area(specs@, old(remaining)@) || !(packing(
            page_width as int,
            page_height as int,
            specs@,
            tiles_of(placed@),
            old(remaining)@,
            *old(iters) as int,
        ).outcome is Stuck),
    ensures
        final(remaining)@ == old(remaining)@,
        ({
            let run = packing(
                page_width as int,
                page_height as int,
                specs@,
                tiles_of(placed@),
                old(remaining)@,
                *old(iters) as int,
            );
            &&& *final(iters) == run.iters
            &&& match packed {
                Some(items) => run.outcome == Packing::Packed(tiles_of(items@)),
                None => run.outcome is Failed,
            }
        }),
    decreases total(old(remaining)@),
{
    let ghost w = page_width as int;
    let ghost h = page_height as int;
    let ghost there = tiles_of(placed@);
    let ghost left = remaining@;
    let ghost whole = packing(w, h, specs@, there, left, *iters as int);
    proof {
        if has_area(specs@, left) {
            lemma_never_stuck(w, h, specs@, there, left, *iters as int);
        }
    }
    if *iters < u32::MAX {
        *iters = *iters + 1;
    }
    if *iters > MAX_ITERS {
        return None;
    }
    let unplaced: u32 = sum_counts(remaining);
    if unplaced == 0 {
        let none: Vec<PlacedItem> = Vec::new();
        assert(tiles_of(none@) =~= seq![]);
        return Some(none);
    }
    let rects = rects_by_rows(page_width, page_height, placed);
    let spec_idx: usize = match find_largest(specs, remaining) {
        Some(i) => i,
        None => {
            assert(false);
            return None;
        },
    };
    proof {
        lemma_largest(specs@, left, left.len() as int);
        lemma_less_one(left, spec_idx as int);
        lemma_all_spots(specs[spec_idx as int], w, h, there);
    }
    let spec = &specs[spec_idx];
    let mut places: Vec<PlacedItem> = Vec::new();
    assert(tiles_of(places@) =~= seq![]);
    push_spots(&mut places, spec, false, &rects);
    if spec.width != spec.height {
        push_spots(&mut places, spec, true, &rects);
    }
    let ghost spots_seq = all_spots(*spec, free_by_rows(w, h, there));
    assert(tiles_of(places@) =~= spots_seq);
    let ghost rest = less_one(left, spec_idx as int);
    assert(area_in_range(specs@, rest)) by {
        assert forall|i: int| 0 <= i < rest.len() && #[trigger] rest[i] > 0 implies i < specs.len()
            && specs[i].area() <= u32::MAX by {
            assert(left[i] > 0);
        }
    }
    let mut next: usize = 0;
    while next < places.len()
        invariant
            next <= places.len(),
            w == page_width,
            h == page_height,
            there == tiles_of(placed@),
            all_have_edges(there),
            left == old(remaining)@,
            remaining@ == left,
            spec_idx < left.len(),
            spec_idx < specs.len(),
            left[spec_idx as int] > 0,
            rest == less_one(left, spec_idx as int),
            total(rest) < total(left),
            total(left) <= u32::MAX,
            area_in_range(specs@, rest),
            spots_seq == tiles_of(places@),
            forall|k: int|
                0 <= k < spots_seq.len() ==> inside(#[trigger] spots_seq[k], w, h),
            !(whole.outcome is Stuck),
            whole == packing(w, h, specs@, there, left, *old(iters) as int),
            whole == trying(
                w,
                h,
                specs@,
                there,
                left,
                spec_idx as int,
                spots_seq,
                next as int,
                *iters as int,
            ),
        decreases places.len() - next,
    {
        let mut new_placed = copy_items(placed);
        new_placed.push(places[next].clone());
        let ghost p = spots_seq[next as int];
        proof {
            assert(p == places[next as int]@);
            assert(tiles_of(new_placed@) =~= there.push(p));
            assert forall|i: int| 0 <= i < there.push(p).len() implies has_edges(
                #[trigger] there.push(p)[i],
            ) by {
                if i < there.len() {
                    assert(has_edges(there[i]));
                }
            }
        }
        let before = remaining[spec_idx];
        remaining[spec_idx] = before - 1;
        let found = pack_remaining_items_backtracking(
            page_width,
            page_height,
            new_placed.as_slice(),
            specs,
            remaining,
            iters,
        );
        remaining[spec_idx] = before;
        assert(remaining@ =~= left);
        match found {
            Some(mut items) => {
                let ghost packed = tiles_of(items@);
                items.push(places[next].clone());
                assert(tiles_of(items@) =~= packed.push(p));
                return Some(items);
            },
            None => {},
        }
        next = next + 1;
    }
    None
}

} // verus!
