//! The maximal free rectangles of a sheet on which some pieces lie.

use crate::layout::Region;
use crate::pieces::{tiles_of, PlacedItem, Tile};
use vstd::prelude::*;

verus! {

/// A free rectangle, with its upper left corner at `(x, y)`.
#[derive(Clone, Copy, Debug, PartialEq, Eq)]
pub struct Rect {
    pub x: u32,
    pub y: u32,
    pub w: u32,
    pub h: u32,
}

impl View for Rect {
    type V = Region;

    open spec fn view(&self) -> Region {
        Region { x: self.x as int, y: self.y as int, w: self.w as int, h: self.h as int }
    }
}

/// The regions that a list of rectangles stands for.
pub open spec fn regions_of(rects: Seq<Rect>) -> Seq<Region> {
    rects.map_values(|r: Rect| r@)
}

/// The far edges of a placed piece are numbers that a `u32` can hold.
pub open spec fn has_edges(t: Tile) -> bool {
    &&& 0 <= t.x
    &&& 0 <= t.y
    &&& 0 <= t.w
    &&& 0 <= t.h
    &&& t.x + t.w <= u32::MAX
    &&& t.y + t.h <= u32::MAX
}

/// The far edges of every placed piece are numbers that a `u32` can hold.
pub open spec fn all_have_edges(tiles: Seq<Tile>) -> bool {
    forall|i: int| 0 <= i < tiles.len() ==> has_edges(#[trigger] tiles[i])
}

/// A piece lies in part on a region.
pub open spec fn meets(f: Region, p: Tile) -> bool {
    &&& p.x < f.x + f.w
    &&& p.x + p.w > f.x
    &&& p.y < f.y + f.h
    &&& p.y + p.h > f.y
}

/// A region clear of every piece.
pub open spec fn clear_of(f: Region, tiles: Seq<Tile>) -> bool {
    forall|i: int| 0 <= i < tiles.len() ==> !meets(f, #[trigger] tiles[i])
}

/// The first region lies in the second.
pub open spec fn covered(a: Region, b: Region) -> bool {
    &&& a.x >= b.x
    &&& a.y >= b.y
    &&& a.x + a.w <= b.x + b.w
    &&& a.y + a.h <= b.y + b.h
}

/// The whole sheet.
pub open spec fn sheet(w: int, h: int) -> Region {
    Region { x: 0, y: 0, w, h }
}

/// What a piece leaves of a region: the full-height strips to its left and right, then the
/// full-width strips above and below it.
pub open spec fn split_by(f: Region, p: Tile) -> Seq<Region> {
    if meets(f, p) {
        (if p.x > f.x {
            seq![Region { w: p.x - f.x, ..f }]
        } else {
            seq![]
        }) + (if p.x + p.w < f.x + f.w {
            seq![Region { x: p.x + p.w, w: f.x + f.w - (p.x + p.w), ..f }]
        } else {
            seq![]
        }) + (if p.y > f.y {
            seq![Region { h: p.y - f.y, ..f }]
        } else {
            seq![]
        }) + (if p.y + p.h < f.y + f.h {
            seq![Region { y: p.y + p.h, h: f.y + f.h - (p.y + p.h), ..f }]
        } else {
            seq![]
        })
    } else {
        seq![f]
    }
}

/// What a piece leaves of each region, in order.
pub open spec fn split_all(fs: Seq<Region>, p: Tile) -> Seq<Region>
    decreases fs.len(),
{
    if fs.len() == 0 {
        seq![]
    } else {
        split_all(fs.drop_last(), p) + split_by(fs.last(), p)
    }
}

/// Region `i` lies in another region of the list.
pub open spec fn covered_in(fs: Seq<Region>, i: int) -> bool {
    exists|j: int| 0 <= j < fs.len() && j != i && covered(fs[i], #[trigger] fs[j])
}

/// Those of the first `n` regions that lie in no other region of the list, in order.
pub open spec fn uncovered(fs: Seq<Region>, n: int) -> Seq<Region>
    decreases n,
{
    if n <= 0 {
        seq![]
    } else if covered_in(fs, n - 1) {
        uncovered(fs, n - 1)
    } else {
        uncovered(fs, n - 1).push(fs[n - 1])
    }
}

/// The free regions of a `w` by `h` sheet, narrowed down piece by piece.
pub open spec fn free_regions(w: int, h: int, tiles: Seq<Tile>) -> Seq<Region>
    decreases tiles.len(),
{
    if tiles.len() == 0 {
        seq![sheet(w, h)]
    } else {
        let parts = split_all(free_regions(w, h, tiles.drop_last()), tiles.last());
        uncovered(parts, parts.len() as int)
    }
}

/// No region of the list lies in another one.
pub open spec fn antichain(fs: Seq<Region>) -> bool {
    forall|i: int, j: int|
        0 <= i < fs.len() && 0 <= j < fs.len() && i != j ==> !covered(
            #[trigger] fs[i],
            #[trigger] fs[j],
        )
}

/// `e` is one of the parts that `p` leaves of `f`.
spec fn is_part(f: Region, p: Tile, e: Region) -> bool {
    if meets(f, p) {
        ||| p.x > f.x && e == (Region { w: p.x - f.x, ..f })
        ||| p.x + p.w < f.x + f.w && e == (Region {
            x: p.x + p.w,
            w: f.x + f.w - (p.x + p.w),
            ..f
        })
        ||| p.y > f.y && e == (Region { h: p.y - f.y, ..f })
        ||| p.y + p.h < f.y + f.h && e == (Region {
            y: p.y + p.h,
            h: f.y + f.h - (p.y + p.h),
            ..f
        })
    } else {
        e == f
    }
}

proof fn lemma_split_parts(f: Region, p: Tile)
    requires
        has_edges(p),
    ensures
        forall|k: int| 0 <= k < split_by(f, p).len() ==> is_part(f, p, #[trigger] split_by(f, p)[k]),
        forall|k: int, l: int|
            0 <= k < l < split_by(f, p).len() ==> #[trigger] split_by(f, p)[k]
                != #[trigger] split_by(f, p)[l],
        forall|e: Region| is_part(f, p, e) ==> #[trigger] split_by(f, p).contains(e),
{
    if meets(f, p) {
        let a: Seq<Region> = if p.x > f.x {
            seq![Region { w: p.x - f.x, ..f }]
        } else {
            seq![]
        };
        let b: Seq<Region> = if p.x + p.w < f.x + f.w {
            seq![Region { x: p.x + p.w, w: f.x + f.w - (p.x + p.w), ..f }]
        } else {
            seq![]
        };
        let c: Seq<Region> = if p.y > f.y {
            seq![Region { h: p.y - f.y, ..f }]
        } else {
            seq![]
        };
        let d: Seq<Region> = if p.y + p.h < f.y + f.h {
            seq![Region { y: p.y + p.h, h: f.y + f.h - (p.y + p.h), ..f }]
        } else {
            seq![]
        };
        let s = split_by(f, p);
        assert(s =~= a + b + c + d);
        assert forall|e: Region| is_part(f, p, e) implies #[trigger] s.contains(e) by {
            if a.len() > 0 && e == a[0] {
                assert(s[0] == e);
            } else if b.len() > 0 && e == b[0] {
                assert(s[a.len() as int] == e);
            } else if c.len() > 0 && e == c[0] {
                assert(s[(a + b).len() as int] == e);
            } else {
                assert(d.len() > 0 && e == d[0]);
                assert(s[(a + b + c).len() as int] == e);
            }
        }
    } else {
        assert(split_by(f, p)[0] == f);
    }
}

/// Two regions neither of which lies in the other have no part in common.
proof fn lemma_parts_differ(f: Region, g: Region, p: Tile, e: Region)
    requires
        has_edges(p),
        !covered(f, g),
        !covered(g, f),
        is_part(f, p, e),
    ensures
        !is_part(g, p, e),
{
}

/// Every part comes from some region of the list, and every part of a region is there.
proof fn lemma_split_all(fs: Seq<Region>, p: Tile)
    requires
        has_edges(p),
    ensures
        forall|k: int|
            0 <= k < split_all(fs, p).len() ==> exists|i: int|
                0 <= i < fs.len() && is_part(#[trigger] fs[i], p, #[trigger] split_all(fs, p)[k]),
        forall|i: int, e: Region|
            0 <= i < fs.len() && #[trigger] is_part(fs[i], p, e) ==> split_all(fs, p).contains(e),
    decreases fs.len(),
{
    if fs.len() > 0 {
        let head = fs.drop_last();
        let a = split_all(head, p);
        let b = split_by(fs.last(), p);
        lemma_split_all(head, p);
        lemma_split_parts(fs.last(), p);
        let s = split_all(fs, p);
        assert(s == a + b);
        assert forall|k: int| 0 <= k < s.len() implies exists|i: int|
            0 <= i < fs.len() && is_part(#[trigger] fs[i], p, #[trigger] s[k]) by {
            if k < a.len() {
                assert(s[k] == a[k]);
                let i = choose|i: int| 0 <= i < head.len() && is_part(#[trigger] head[i], p, a[k]);
                assert(fs[i] == head[i]);
            } else {
                assert(s[k] == b[k - a.len()]);
                assert(is_part(fs[fs.len() - 1], p, s[k]));
            }
        }
        assert forall|i: int, e: Region|
            0 <= i < fs.len() && #[trigger] is_part(fs[i], p, e) implies s.contains(e) by {
            if i < head.len() {
                assert(is_part(head[i], p, e));
                let k = choose|k: int| 0 <= k < a.len() && a[k] == e;
                assert(s[k] == e);
            } else {
                assert(b.contains(e));
                let k = choose|k: int| 0 <= k < b.len() && b[k] == e;
                assert(s[a.len() + k] == e);
            }
        }
    }
}

/// What a piece leaves of regions that lie in a region lies in it too.
proof fn lemma_split_covered(fs: Seq<Region>, p: Tile, whole: Region)
    requires
        has_edges(p),
        forall|i: int| 0 <= i < fs.len() ==> covered(#[trigger] fs[i], whole),
    ensures
        forall|k: int|
            0 <= k < split_all(fs, p).len() ==> covered(#[trigger] split_all(fs, p)[k], whole),
{
    lemma_split_all(fs, p);
    let s = split_all(fs, p);
    assert forall|k: int| 0 <= k < s.len() implies covered(#[trigger] s[k], whole) by {
        let f = choose|f: int| 0 <= f < fs.len() && is_part(#[trigger] fs[f], p, s[k]);
        assert(covered(fs[f], whole));
    }
}

/// Splitting regions none of which lies in another gives no region twice.
proof fn lemma_split_distinct(fs: Seq<Region>, p: Tile)
    requires
        has_edges(p),
        antichain(fs),
    ensures
        forall|k: int, l: int|
            0 <= k < l < split_all(fs, p).len() ==> #[trigger] split_all(fs, p)[k]
                != #[trigger] split_all(fs, p)[l],
    decreases fs.len(),
{
    if fs.len() > 0 {
        let head = fs.drop_last();
        let a = split_all(head, p);
        let b = split_by(fs.last(), p);
        assert forall|i: int, j: int|
            0 <= i < head.len() && 0 <= j < head.len() && i != j implies !covered(
            #[trigger] head[i],
            #[trigger] head[j],
        ) by {
            assert(!covered(fs[i], fs[j]));
        }
        lemma_split_distinct(head, p);
        lemma_split_all(head, p);
        lemma_split_parts(fs.last(), p);
        let s = split_all(fs, p);
        assert forall|k: int, l: int| 0 <= k < l < s.len() implies #[trigger] s[k]
            != #[trigger] s[l] by {
            if l < a.len() {
                assert(a[k] != a[l]);
            } else if k >= a.len() {
                assert(b[k - a.len()] != b[l - a.len()]);
            } else {
                let i = choose|i: int| 0 <= i < head.len() && is_part(#[trigger] head[i], p, a[k]);
                assert(is_part(fs.last(), p, b[l - a.len()]));
                assert(!covered(fs[i], fs[fs.len() - 1]));
                assert(!covered(fs[fs.len() - 1], fs[i]));
                lemma_parts_differ(head[i], fs.last(), p, a[k]);
            }
        }
    }
}

/// What is kept comes from the list and lies in no other region of it; what is not kept
/// lies in another one.
proof fn lemma_uncovered(fs: Seq<Region>, n: int)
    requires
        0 <= n <= fs.len(),
    ensures
        forall|k: int|
            0 <= k < uncovered(fs, n).len() ==> exists|i: int|
                0 <= i < n && #[trigger] fs[i] == #[trigger] uncovered(fs, n)[k] && !covered_in(
                    fs,
                    i,
                ),
        forall|i: int|
            0 <= i < n && !covered_in(fs, i) ==> uncovered(fs, n).contains(#[trigger] fs[i]),
    decreases n,
{
    if n > 0 {
        lemma_uncovered(fs, n - 1);
        let a = uncovered(fs, n - 1);
        let s = uncovered(fs, n);
        assert forall|k: int| 0 <= k < s.len() implies exists|i: int|
            0 <= i < n && #[trigger] fs[i] == #[trigger] s[k] && !covered_in(fs, i) by {
            if k < a.len() {
                assert(s[k] == a[k]);
            } else {
                assert(fs[n - 1] == s[k]);
            }
        }
        assert forall|i: int| 0 <= i < n && !covered_in(fs, i) implies s.contains(
            #[trigger] fs[i],
        ) by {
            if i < n - 1 {
                let k = choose|k: int| 0 <= k < a.len() && a[k] == fs[i];
                assert(s[k] == fs[i]);
            } else {
                assert(s[a.len() as int] == fs[i]);
            }
        }
    }
}

/// What is kept of a list without repetitions has no region that lies in another one.
proof fn lemma_uncovered_antichain(fs: Seq<Region>, n: int)
    requires
        0 <= n <= fs.len(),
        forall|k: int, l: int|
            0 <= k < l < fs.len() ==> #[trigger] fs[k] != #[trigger] fs[l],
    ensures
        antichain(uncovered(fs, n)),
    decreases n,
{
    if n > 0 {
        lemma_uncovered_antichain(fs, n - 1);
        lemma_uncovered(fs, n - 1);
        let a = uncovered(fs, n - 1);
        let s = uncovered(fs, n);
        if !covered_in(fs, n - 1) {
            assert forall|i: int, j: int|
                0 <= i < s.len() && 0 <= j < s.len() && i != j implies !covered(
                #[trigger] s[i],
                #[trigger] s[j],
            ) by {
                if i < a.len() && j < a.len() {
                    assert(!covered(a[i], a[j]));
                } else if i < a.len() {
                    let k = choose|k: int|
                        0 <= k < n - 1 && #[trigger] fs[k] == a[i] && !covered_in(fs, k);
                    assert(s[j] == fs[n - 1]);
                } else {
                    let k = choose|k: int|
                        0 <= k < n - 1 && #[trigger] fs[k] == a[j] && !covered_in(fs, k);
                    assert(s[i] == fs[n - 1]);
                }
            }
        }
    }
}

/// In a list without repetitions every region lies in one that is kept.
proof fn lemma_covered_by_kept(fs: Seq<Region>, i: int, size: int)
    requires
        0 <= i < fs.len(),
        forall|k: int, l: int|
            0 <= k < l < fs.len() ==> #[trigger] fs[k] != #[trigger] fs[l],
        forall|k: int| 0 <= k < fs.len() ==> (#[trigger] fs[k]).w + fs[k].h <= size,
    ensures
        exists|j: int|
            0 <= j < fs.len() && !covered_in(fs, j) && covered(fs[i], #[trigger] fs[j]),
    decreases size - fs[i].w - fs[i].h,
{
    if !covered_in(fs, i) {
        assert(covered(fs[i], fs[i]));
    } else {
        let j = choose|j: int| 0 <= j < fs.len() && j != i && covered(fs[i], #[trigger] fs[j]);
        assert(fs[i] != fs[j]);
        lemma_covered_by_kept(fs, j, size);
        let m = choose|m: int|
            0 <= m < fs.len() && !covered_in(fs, m) && covered(fs[j], #[trigger] fs[m]);
        assert(covered(fs[i], fs[m]));
    }
}

/// A region that was found is what the last piece leaves of one that was found without it.
proof fn lemma_found_part(w: int, h: int, tiles: Seq<Tile>, k: int) -> (f: int)
    requires
        tiles.len() > 0,
        has_edges(tiles.last()),
        0 <= k < free_regions(w, h, tiles).len(),
    ensures
        0 <= f < free_regions(w, h, tiles.drop_last()).len(),
        is_part(
            free_regions(w, h, tiles.drop_last())[f],
            tiles.last(),
            free_regions(w, h, tiles)[k],
        ),
{
    let p = tiles.last();
    let fs = free_regions(w, h, tiles.drop_last());
    let parts = split_all(fs, p);
    lemma_uncovered(parts, parts.len() as int);
    lemma_split_all(fs, p);
    let s = free_regions(w, h, tiles);
    let i = choose|i: int|
        0 <= i < parts.len() && #[trigger] parts[i] == s[k] && !covered_in(parts, i);
    choose|f: int| 0 <= f < fs.len() && is_part(#[trigger] fs[f], p, parts[i])
}

/// The regions found lie on the sheet, and none of them lies in another.
pub proof fn lemma_free_regions_shape(w: int, h: int, tiles: Seq<Tile>)
    requires
        0 <= w,
        0 <= h,
        all_have_edges(tiles),
    ensures
        antichain(free_regions(w, h, tiles)),
        forall|k: int|
            0 <= k < free_regions(w, h, tiles).len() ==> {
                let r = #[trigger] free_regions(w, h, tiles)[k];
                covered(r, sheet(w, h)) && 0 <= r.w && 0 <= r.h
            },
        forall|k: int|
            0 <= k < free_regions(w, h, tiles).len() && 0 < w && 0 < h ==> {
                let r = #[trigger] free_regions(w, h, tiles)[k];
                0 < r.w && 0 < r.h
            },
    decreases tiles.len(),
{
    if tiles.len() > 0 {
        let head = tiles.drop_last();
        assert forall|i: int| 0 <= i < head.len() implies has_edges(#[trigger] head[i]) by {
            assert(has_edges(tiles[i]));
        }
        lemma_free_regions_shape(w, h, head);
        let p = tiles.last();
        assert(has_edges(tiles[tiles.len() - 1]));
        let fs = free_regions(w, h, head);
        let parts = split_all(fs, p);
        lemma_split_distinct(fs, p);
        lemma_uncovered_antichain(parts, parts.len() as int);
        let s = free_regions(w, h, tiles);
        assert forall|k: int| 0 <= k < s.len() implies {
            let r = #[trigger] s[k];
            covered(r, sheet(w, h)) && 0 <= r.w && 0 <= r.h && (0 < w && 0 < h ==> 0 < r.w && 0
                < r.h)
        } by {
            let f = lemma_found_part(w, h, tiles, k);
            assert(covered(fs[f], sheet(w, h)));
        }
    }
}

/// On a part of a region that a piece leaves neither that piece lies nor one that does not lie on
/// the region.
proof fn lemma_part_clear(f: Region, p: Tile, e: Region, q: Tile)
    requires
        has_edges(p),
        is_part(f, p, e),
        q == p || !meets(f, q),
    ensures
        !meets(e, q),
{
}

/// No piece lies on a region that was found.
pub proof fn lemma_free_regions_clear(w: int, h: int, tiles: Seq<Tile>)
    requires
        0 <= w,
        0 <= h,
        all_have_edges(tiles),
    ensures
        forall|k: int|
            0 <= k < free_regions(w, h, tiles).len() ==> clear_of(
                #[trigger] free_regions(w, h, tiles)[k],
                tiles,
            ),
    decreases tiles.len(),
{
    if tiles.len() > 0 {
        let head = tiles.drop_last();
        assert forall|i: int| 0 <= i < head.len() implies has_edges(#[trigger] head[i]) by {
            assert(has_edges(tiles[i]));
        }
        lemma_free_regions_clear(w, h, head);
        let p = tiles.last();
        assert(has_edges(tiles[tiles.len() - 1]));
        let fs = free_regions(w, h, head);
        let s = free_regions(w, h, tiles);
        assert forall|k: int| 0 <= k < s.len() implies clear_of(#[trigger] s[k], tiles) by {
            let f = lemma_found_part(w, h, tiles, k);
            assert(clear_of(fs[f], head));
            assert forall|j: int| 0 <= j < tiles.len() implies !meets(s[k], #[trigger] tiles[j]) by {
                if j < head.len() {
                    assert(!meets(fs[f], head[j]));
                    assert(head[j] == tiles[j]);
                }
                lemma_part_clear(fs[f], p, s[k], tiles[j]);
            }
        }
    }
}

/// Every rectangle on the sheet that no piece lies on is part of a region that was found.
pub proof fn lemma_free_regions_complete(w: int, h: int, tiles: Seq<Tile>, q: Region)
    requires
        0 <= w,
        0 <= h,
        all_have_edges(tiles),
        0 < q.w,
        0 < q.h,
        covered(q, sheet(w, h)),
        clear_of(q, tiles),
    ensures
        exists|k: int|
            0 <= k < free_regions(w, h, tiles).len() && covered(
                q,
                #[trigger] free_regions(w, h, tiles)[k],
            ),
    decreases tiles.len(),
{
    if tiles.len() == 0 {
        assert(covered(q, free_regions(w, h, tiles)[0]));
    } else {
        let head = tiles.drop_last();
        assert forall|i: int| 0 <= i < head.len() implies has_edges(#[trigger] head[i]) && !meets(
            q,
            head[i],
        ) by {
            assert(has_edges(tiles[i]));
            assert(!meets(q, tiles[i]));
        }
        lemma_free_regions_complete(w, h, head, q);
        lemma_free_regions_shape(w, h, head);
        let p = tiles.last();
        assert(has_edges(tiles[tiles.len() - 1]));
        assert(!meets(q, tiles[tiles.len() - 1]));
        let fs = free_regions(w, h, head);
        let parts = split_all(fs, p);
        let f = choose|f: int| 0 <= f < fs.len() && covered(q, #[trigger] fs[f]);
        let e = if !meets(fs[f], p) {
            fs[f]
        } else if q.x + q.w <= p.x {
            Region { w: p.x - fs[f].x, ..fs[f] }
        } else if p.x + p.w <= q.x {
            Region { x: p.x + p.w, w: fs[f].x + fs[f].w - (p.x + p.w), ..fs[f] }
        } else if q.y + q.h <= p.y {
            Region { h: p.y - fs[f].y, ..fs[f] }
        } else {
            Region { y: p.y + p.h, h: fs[f].y + fs[f].h - (p.y + p.h), ..fs[f] }
        };
        assert(is_part(fs[f], p, e));
        lemma_split_all(fs, p);
        lemma_split_distinct(fs, p);
        let i = choose|i: int| 0 <= i < parts.len() && parts[i] == e;
        assert forall|k: int| 0 <= k < parts.len() implies (#[trigger] parts[k]).w + parts[k].h
            <= w + h by {
            let g = choose|g: int| 0 <= g < fs.len() && is_part(#[trigger] fs[g], p, parts[k]);
        }
        lemma_covered_by_kept(parts, i, w + h);
        let j = choose|j: int|
            0 <= j < parts.len() && !covered_in(parts, j) && covered(parts[i], #[trigger] parts[j]);
        lemma_uncovered(parts, parts.len() as int);
        let s = free_regions(w, h, tiles);
        let k = choose|k: int| 0 <= k < s.len() && s[k] == parts[j];
        assert(covered(q, s[k]));
    }
}

/// A region that was found cannot be enlarged: a rectangle that holds it, lies on the sheet
/// and is clear of every piece is that region itself.
pub proof fn lemma_free_regions_maximal(w: int, h: int, tiles: Seq<Tile>, k: int, q: Region)
    requires
        0 < w,
        0 < h,
        all_have_edges(tiles),
        0 <= k < free_regions(w, h, tiles).len(),
        covered(free_regions(w, h, tiles)[k], q),
        covered(q, sheet(w, h)),
        clear_of(q, tiles),
    ensures
        q == free_regions(w, h, tiles)[k],
{
    lemma_free_regions_shape(w, h, tiles);
    let s = free_regions(w, h, tiles);
    assert(0 < s[k].w && 0 < s[k].h);
    lemma_free_regions_complete(w, h, tiles, q);
    let j = choose|j: int| 0 <= j < s.len() && covered(q, #[trigger] s[j]);
    assert(covered(s[k], s[j]));
    assert(j == k);
}

/// On a sheet without width or height no piece lies.
proof fn lemma_free_regions_flat(w: int, h: int, tiles: Seq<Tile>)
    requires
        w == 0 || h == 0,
        all_have_edges(tiles),
    ensures
        free_regions(w, h, tiles) == seq![sheet(w, h)],
    decreases tiles.len(),
{
    if tiles.len() > 0 {
        let head = tiles.drop_last();
        assert forall|i: int| 0 <= i < head.len() implies has_edges(#[trigger] head[i]) by {
            assert(has_edges(tiles[i]));
        }
        lemma_free_regions_flat(w, h, head);
        let p = tiles.last();
        assert(has_edges(tiles[tiles.len() - 1]));
        let fs = seq![sheet(w, h)];
        assert(fs.drop_last() =~= seq![]);
        assert(split_all(fs.drop_last(), p) == Seq::<Region>::empty());
        assert(!meets(sheet(w, h), p));
        assert(split_all(fs, p) =~= fs);
        assert(!covered_in(fs, 0));
        assert(uncovered(fs, 0) == Seq::<Region>::empty());
        assert(uncovered(fs, 1) =~= fs);
    }
}

/// A region that is found among some pieces is found among the same pieces in another order.
proof fn lemma_free_region_found(w: int, h: int, a: Seq<Tile>, b: Seq<Tile>, r: Region)
    requires
        0 < w,
        0 < h,
        all_have_edges(a),
        all_have_edges(b),
        forall|t: Tile| #[trigger] a.contains(t) == b.contains(t),
        free_regions(w, h, a).contains(r),
    ensures
        free_regions(w, h, b).contains(r),
{
    let fa = free_regions(w, h, a);
    let fb = free_regions(w, h, b);
    let i = choose|i: int| 0 <= i < fa.len() && fa[i] == r;
    lemma_free_regions_shape(w, h, a);
    lemma_free_regions_shape(w, h, b);
    lemma_free_regions_clear(w, h, a);
    lemma_free_regions_clear(w, h, b);
    assert(clear_of(r, a));
    assert(0 < fa[i].w && 0 < fa[i].h && covered(fa[i], sheet(w, h)));
    assert forall|k: int| 0 <= k < b.len() implies !meets(r, #[trigger] b[k]) by {
        assert(b.contains(b[k]));
        assert(a.contains(b[k]));
    }
    lemma_free_regions_complete(w, h, b, r);
    let j = choose|j: int| 0 <= j < fb.len() && covered(r, #[trigger] fb[j]);
    let q = fb[j];
    assert(clear_of(q, b));
    assert forall|k: int| 0 <= k < a.len() implies !meets(q, #[trigger] a[k]) by {
        assert(a.contains(a[k]));
        assert(b.contains(a[k]));
    }
    lemma_free_regions_maximal(w, h, a, i, q);
}

/// The free regions do not depend on the order of the pieces, nor on pieces that lie there more
/// than once. Only the order in which they are found does.
pub proof fn lemma_free_regions_reordered(w: int, h: int, a: Seq<Tile>, b: Seq<Tile>)
    requires
        0 <= w,
        0 <= h,
        all_have_edges(a),
        forall|t: Tile| #[trigger] a.contains(t) == b.contains(t),
    ensures
        free_regions(w, h, a).to_multiset() == free_regions(w, h, b).to_multiset(),
{
    let fa = free_regions(w, h, a);
    let fb = free_regions(w, h, b);
    assert forall|k: int| 0 <= k < b.len() implies has_edges(#[trigger] b[k]) by {
        assert(b.contains(b[k]));
        assert(a.contains(b[k]));
    }
    if w == 0 || h == 0 {
        lemma_free_regions_flat(w, h, a);
        lemma_free_regions_flat(w, h, b);
    } else {
        assert forall|r: Region| #[trigger] fa.contains(r) == fb.contains(r) by {
            if fa.contains(r) {
                lemma_free_region_found(w, h, a, b, r);
            }
            if fb.contains(r) {
                lemma_free_region_found(w, h, b, a, r);
            }
        }
        lemma_antichain_distinct(w, h, a);
        lemma_antichain_distinct(w, h, b);
        fa.to_multiset_ensures();
        fb.to_multiset_ensures();
        fa.lemma_multiset_has_no_duplicates();
        fb.lemma_multiset_has_no_duplicates();
        let ma = fa.to_multiset();
        let mb = fb.to_multiset();
        assert forall|r: Region| #[trigger] ma.count(r) == mb.count(r) by {
            assert(fa.contains(r) == (ma.count(r) > 0));
            assert(fb.contains(r) == (mb.count(r) > 0));
            if fa.contains(r) {
                assert(ma.contains(r) && mb.contains(r));
            }
        }
        assert(ma =~= mb);
    }
}

/// No region is found twice.
proof fn lemma_antichain_distinct(w: int, h: int, tiles: Seq<Tile>)
    requires
        0 <= w,
        0 <= h,
        all_have_edges(tiles),
    ensures
        free_regions(w, h, tiles).no_duplicates(),
{
    lemma_free_regions_shape(w, h, tiles);
    let fs = free_regions(w, h, tiles);
    assert forall|i: int, j: int| 0 <= i < fs.len() && 0 <= j < fs.len() && i != j implies fs[i]
        != fs[j] by {
        assert(!covered(fs[i], fs[j]));
    }
}

/// Appends to `parts` what a piece leaves of a free rectangle.
fn push_parts(parts: &mut Vec<Rect>, f: Rect, p: &PlacedItem)
    requires
        has_edges(p@),
        f.x + f.w <= u32::MAX,
        f.y + f.h <= u32::MAX,
    ensures
        regions_of(final(parts)@) == regions_of(old(parts)@) + split_by(f@, p@),
{
    let ghost start = regions_of(parts@);
    if p.x < f.x + f.w && p.x + p.width > f.x && p.y < f.y + f.h && p.y + p.height > f.y {
        let mut rest: Vec<Rect> = Vec::new();
        assert(regions_of(rest@) =~= seq![]);
        if p.x > f.x {
            rest.push(Rect { x: f.x, y: f.y, w: p.x - f.x, h: f.h });
        }
        let ghost a: Seq<Region> = if p.x > f.x {
            seq![Region { w: p.x - f.x, ..f@ }]
        } else {
            seq![]
        };
        assert(regions_of(rest@) =~= a);
        if p.x + p.width < f.x + f.w {
            rest.push(
                Rect { x: p.x + p.width, y: f.y, w: f.x + f.w - (p.x + p.width), h: f.h },
            );
        }
        let ghost b: Seq<Region> = if p.x + p.width < f.x + f.w {
            seq![Region { x: p.x + p.width, w: f.x + f.w - (p.x + p.width), ..f@ }]
        } else {
            seq![]
        };
        assert(regions_of(rest@) =~= a + b);
        if p.y > f.y {
            rest.push(Rect { x: f.x, y: f.y, w: f.w, h: p.y - f.y });
        }
        let ghost c: Seq<Region> = if p.y > f.y {
            seq![Region { h: p.y - f.y, ..f@ }]
        } else {
            seq![]
        };
        assert(regions_of(rest@) =~= a + b + c);
        if p.y + p.height < f.y + f.h {
            rest.push(
                Rect { x: f.x, y: p.y + p.height, w: f.w, h: f.y + f.h - (p.y + p.height) },
            );
        }
        assert(regions_of(rest@) =~= split_by(f@, p@));
        let ghost more = rest@;
        parts.append(&mut rest);
        assert(regions_of(parts@) =~= start + regions_of(more));
    } else {
        parts.push(f);
        assert(regions_of(parts@) =~= start + split_by(f@, p@));
    }
}

/// Whether rectangle `i` lies in another one of the list.
fn is_covered(rects: &Vec<Rect>, i: usize) -> (r: bool)
    requires
        i < rects.len(),
        forall|k: int| 0 <= k < rects.len() ==> (#[trigger] rects[k]).x + rects[k].w <= u32::MAX,
        forall|k: int| 0 <= k < rects.len() ==> (#[trigger] rects[k]).y + rects[k].h <= u32::MAX,
    ensures
        r == covered_in(regions_of(rects@), i as int),
{
    let ghost fs = regions_of(rects@);
    let mut j: usize = 0;
    while j < rects.len()
        invariant
            j <= rects.len(),
            i < rects.len(),
            fs == regions_of(rects@),
            forall|k: int|
                0 <= k < rects.len() ==> (#[trigger] rects[k]).x + rects[k].w <= u32::MAX,
            forall|k: int|
                0 <= k < rects.len() ==> (#[trigger] rects[k]).y + rects[k].h <= u32::MAX,
            forall|k: int| 0 <= k < j && k != i ==> !covered(fs[i as int], #[trigger] fs[k]),
        decreases rects.len() - j,
    {
        if i != j {
            let r1 = &rects[i];
            let r2 = &rects[j];
            if r1.x >= r2.x && r1.y >= r2.y && r1.x + r1.w <= r2.x + r2.w && r1.y + r1.h <= r2.y
                + r2.h {
                assert(covered(fs[i as int], fs[j as int]));
                return true;
            }
        }
        j = j + 1;
    }
    false
}

/// The maximal free rectangles of a sheet on which the given pieces lie.
pub fn get_max_free_rects(page_width: u32, page_height: u32, placed: &[PlacedItem]) -> (rects: Vec<
    Rect,
>)
    requires
        all_have_edges(tiles_of(placed@)),
    ensures
        regions_of(rects@) == free_regions(
            page_width as int,
            page_height as int,
            tiles_of(placed@),
        ),
{
    let ghost w = page_width as int;
    let ghost h = page_height as int;
    let mut free_rects: Vec<Rect> = vec![Rect { x: 0, y: 0, w: page_width, h: page_height }];
    assert(regions_of(free_rects@) =~= seq![sheet(w, h)]);
    assert(tiles_of(placed@.take(0)) =~= seq![]);
    let mut n: usize = 0;
    while n < placed.len()
        invariant
            n <= placed.len(),
            w == page_width,
            h == page_height,
            all_have_edges(tiles_of(placed@)),
            regions_of(free_rects@) == free_regions(w, h, tiles_of(placed@.take(n as int))),
        decreases placed.len() - n,
    {
        let p = &placed[n];
        let ghost seen = tiles_of(placed@.take(n as int));
        let ghost fs = regions_of(free_rects@);
        proof {
            assert(tiles_of(placed@)[n as int] == p@);
            assert(tiles_of(placed@.take(n + 1)).drop_last() =~= seen);
            assert forall|i: int| 0 <= i < seen.len() implies has_edges(#[trigger] seen[i]) by {
                assert(seen[i] == tiles_of(placed@)[i]);
            }
            lemma_free_regions_shape(w, h, seen);
        }
        let mut new_free: Vec<Rect> = Vec::new();
        assert(regions_of(new_free@) =~= split_all(fs.take(0), p@));
        let mut k: usize = 0;
        while k < free_rects.len()
            invariant
                k <= free_rects.len(),
                has_edges(p@),
                fs == regions_of(free_rects@),
                w <= u32::MAX,
                h <= u32::MAX,
                forall|i: int|
                    0 <= i < fs.len() ==> covered(#[trigger] fs[i], sheet(w, h)),
                regions_of(new_free@) == split_all(fs.take(k as int), p@),
            decreases free_rects.len() - k,
        {
            let f = free_rects[k];
            assert(fs[k as int] == f@);
            assert(fs.take(k + 1).drop_last() =~= fs.take(k as int));
            push_parts(&mut new_free, f, p);
            k = k + 1;
        }
        assert(fs.take(k as int) =~= fs);
        let ghost parts = regions_of(new_free@);
        proof {
            lemma_split_covered(fs, p@, sheet(w, h));
            assert forall|i: int| 0 <= i < new_free.len() implies (#[trigger] new_free[i]).x
                + new_free[i].w <= u32::MAX && new_free[i].y + new_free[i].h <= u32::MAX by {
                assert(parts[i] == new_free[i]@);
                assert(covered(parts[i], sheet(w, h)));
            }
        }
        let mut maximal: Vec<Rect> = Vec::new();
        assert(regions_of(maximal@) =~= uncovered(parts, 0));
        let mut i: usize = 0;
        while i < new_free.len()
            invariant
                i <= new_free.len(),
                parts == regions_of(new_free@),
                forall|k: int|
                    0 <= k < new_free.len() ==> (#[trigger] new_free[k]).x + new_free[k].w
                        <= u32::MAX,
                forall|k: int|
                    0 <= k < new_free.len() ==> (#[trigger] new_free[k]).y + new_free[k].h
                        <= u32::MAX,
                regions_of(maximal@) == uncovered(parts, i as int),
            decreases new_free.len() - i,
        {
            let ghost kept = regions_of(maximal@);
            if !is_covered(&new_free, i) {
                maximal.push(new_free[i]);
                assert(regions_of(maximal@) =~= kept.push(parts[i as int]));
            }
            i = i + 1;
        }
        free_rects = maximal;
        assert(tiles_of(placed@.take(n + 1)).last() == p@);
        n = n + 1;
    }
    assert(placed@.take(n as int) =~= placed@);
    free_rects
}

} // verus!
