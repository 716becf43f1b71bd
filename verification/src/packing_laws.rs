//! What can be packed, and that the search finds it.

use crate::free_space::{all_have_edges, covered, free_regions, lemma_free_regions_shape, sheet};
use crate::layout::Region;
use crate::order::{comes_before, lemma_order_exists, stable_order};
use crate::packing::{
    all_spots, counted, free_by_rows, largest, lemma_largest, packing, row_key, row_keys, spots,
    trying, Packing, MAX_ITERS,
};
use crate::pieces::{lemma_less_one, less_one, total, ElementType, Tile};
use vstd::prelude::*;

verus! {

/// The kind is the first one of the largest pieces that are left, and they have an area.
pub open spec fn is_next(specs: Seq<ElementType>, remaining: Seq<u32>, kind: int) -> bool {
    &&& 0 <= kind < remaining.len()
    &&& remaining[kind] > 0
    &&& specs[kind].width * specs[kind].height > 0
    &&& forall|i: int|
        0 <= i < remaining.len() && #[trigger] remaining[i] > 0 ==> specs[i].width
            * specs[i].height <= specs[kind].width * specs[kind].height
    &&& forall|i: int|
        0 <= i < kind && #[trigger] remaining[i] > 0 ==> specs[i].width * specs[i].height
            < specs[kind].width * specs[kind].height
}

/// A piece, turned or not, fits into a region. A square is not turned.
pub open spec fn goes_into(spec: ElementType, rotated: bool, r: Region) -> bool {
    if rotated {
        spec.height <= r.w && spec.width <= r.h && spec.width != spec.height
    } else {
        spec.width <= r.w && spec.height <= r.h
    }
}

/// A piece in the upper left corner of a region.
pub open spec fn in_corner(spec: ElementType, rotated: bool, r: Region) -> Tile {
    Tile {
        x: r.x,
        y: r.y,
        w: if rotated {
            spec.height as int
        } else {
            spec.width as int
        },
        h: if rotated {
            spec.width as int
        } else {
            spec.height as int
        },
        name: spec.name@,
        rotated,
    }
}

/// The remaining pieces can be packed one after the other, always the next largest one into the
/// corner of some maximal free region.
pub open spec fn packable(
    w: int,
    h: int,
    specs: Seq<ElementType>,
    placed: Seq<Tile>,
    remaining: Seq<u32>,
) -> bool
    decreases total(remaining),
{
    total(remaining) == 0 || exists|kind: int, rotated: bool, r: Region|
        {
            &&& is_next(specs, remaining, kind)
            &&& free_regions(w, h, placed).contains(r)
            &&& #[trigger] goes_into(specs[kind], rotated, r)
            &&& total(less_one(remaining, kind)) < total(remaining)
            &&& packable(
                w,
                h,
                specs,
                placed.push(in_corner(specs[kind], rotated, r)),
                less_one(remaining, kind),
            )
        }
}

/// The first of two places is tried before the second: a piece as it is before it is turned, then
/// from the top and from the left.
pub open spec fn tried_before(rotated: bool, r: Region, later: bool, q: Region) -> bool {
    if rotated == later {
        r.y < q.y || (r.y == q.y && r.x < q.x)
    } else {
        !rotated
    }
}

/// Every maximal free region comes once in the order of rows, and no other, from the top and
/// from the left.
pub proof fn lemma_rows(w: int, h: int, tiles: Seq<Tile>)
    ensures
        free_by_rows(w, h, tiles).len() == free_regions(w, h, tiles).len(),
        forall|r: Region| #[trigger]
            free_by_rows(w, h, tiles).contains(r) == free_regions(w, h, tiles).contains(r),
        forall|a: int, b: int|
            0 <= a < b < free_by_rows(w, h, tiles).len() ==> {
                let p = #[trigger] free_by_rows(w, h, tiles)[a];
                let q = #[trigger] free_by_rows(w, h, tiles)[b];
                row_key(p) <= row_key(q)
            },
{
    let fs = free_regions(w, h, tiles);
    let keys = row_keys(fs);
    let order = stable_order(keys);
    lemma_order_exists(keys);
    let s = free_by_rows(w, h, tiles);
    assert forall|r: Region| #[trigger] s.contains(r) == fs.contains(r) by {
        if s.contains(r) {
            let k = choose|k: int| 0 <= k < s.len() && s[k] == r;
            assert(fs[order[k]] == r);
        }
        if fs.contains(r) {
            let k = choose|k: int| 0 <= k < fs.len() && fs[k] == r;
            assert(order.contains(k));
            let a = choose|a: int| 0 <= a < order.len() && order[a] == k;
            assert(s[a] == r);
        }
    }
    assert forall|a: int, b: int| 0 <= a < b < s.len() implies row_key(#[trigger] s[a]) <= row_key(
        #[trigger] s[b],
    ) by {
        assert(comes_before(keys, order[a], order[b]));
    }
}

/// The places of a piece are the corners of the regions that it goes into, in their order.
proof fn lemma_spots_found(spec: ElementType, rotated: bool, fs: Seq<Region>, n: int)
    requires
        0 <= n <= fs.len(),
        !rotated || spec.width != spec.height,
    ensures
        forall|i: int|
            0 <= i < n && goes_into(spec, rotated, #[trigger] fs[i]) ==> spots(
                spec,
                rotated,
                fs,
                n,
            ).contains(in_corner(spec, rotated, fs[i])),
        forall|k: int|
            0 <= k < spots(spec, rotated, fs, n).len() ==> exists|i: int|
                {
                    &&& 0 <= i < n
                    &&& goes_into(spec, rotated, #[trigger] fs[i])
                    &&& in_corner(spec, rotated, fs[i]) == #[trigger] spots(
                        spec,
                        rotated,
                        fs,
                        n,
                    )[k]
                },
    decreases n,
{
    if n > 0 {
        lemma_spots_found(spec, rotated, fs, n - 1);
        let before = spots(spec, rotated, fs, n - 1);
        let s = spots(spec, rotated, fs, n);
        assert forall|i: int|
            0 <= i < n && goes_into(spec, rotated, #[trigger] fs[i]) implies s.contains(
            in_corner(spec, rotated, fs[i]),
        ) by {
            if i < n - 1 {
                let k = choose|k: int|
                    0 <= k < before.len() && before[k] == in_corner(spec, rotated, fs[i]);
                assert(s[k] == before[k]);
            } else {
                assert(s[s.len() - 1] == in_corner(spec, rotated, fs[i]));
            }
        }
        assert forall|k: int| 0 <= k < s.len() implies exists|i: int|
            {
                &&& 0 <= i < n
                &&& goes_into(spec, rotated, #[trigger] fs[i])
                &&& in_corner(spec, rotated, fs[i]) == #[trigger] s[k]
            } by {
            if k < before.len() {
                assert(s[k] == before[k]);
                let i = choose|i: int|
                    {
                        &&& 0 <= i < n - 1
                        &&& goes_into(spec, rotated, #[trigger] fs[i])
                        &&& in_corner(spec, rotated, fs[i]) == before[k]
                    };
                assert(goes_into(spec, rotated, fs[i]));
            } else {
                assert(goes_into(spec, rotated, fs[n - 1]));
            }
        }
    }
}

/// For every maximal free region and each way in which a piece goes into it, the corner of the
/// region is among the places that are tried, and there are no others.
pub proof fn lemma_every_region_tried(
    w: int,
    h: int,
    tiles: Seq<Tile>,
    spec: ElementType,
    t: Tile,
)
    ensures
        all_spots(spec, free_by_rows(w, h, tiles)).contains(t) <==> exists|
            rotated: bool,
            r: Region,
        |
            {
                &&& free_regions(w, h, tiles).contains(r)
                &&& #[trigger] goes_into(spec, rotated, r)
                &&& t == in_corner(spec, rotated, r)
            },
{
    let fs = free_by_rows(w, h, tiles);
    let n = fs.len() as int;
    lemma_rows(w, h, tiles);
    lemma_spots_found(spec, false, fs, n);
    let a = spots(spec, false, fs, n);
    let b = if spec.width == spec.height {
        seq![]
    } else {
        spots(spec, true, fs, n)
    };
    if spec.width != spec.height {
        lemma_spots_found(spec, true, fs, n);
    }
    let all = all_spots(spec, fs);
    assert(all == a + b);
    if all.contains(t) {
        let k = choose|k: int| 0 <= k < all.len() && all[k] == t;
        if k < a.len() {
            assert(a[k] == t);
            let i = choose|i: int|
                {
                    &&& 0 <= i < n
                    &&& goes_into(spec, false, #[trigger] fs[i])
                    &&& in_corner(spec, false, fs[i]) == a[k]
                };
            assert(fs.contains(fs[i]));
            assert(goes_into(spec, false, fs[i]));
        } else {
            assert(b[k - a.len()] == t);
            let i = choose|i: int|
                {
                    &&& 0 <= i < n
                    &&& goes_into(spec, true, #[trigger] fs[i])
                    &&& in_corner(spec, true, fs[i]) == b[k - a.len()]
                };
            assert(fs.contains(fs[i]));
            assert(goes_into(spec, true, fs[i]));
        }
    }
    if exists|rotated: bool, r: Region|
        {
            &&& free_regions(w, h, tiles).contains(r)
            &&& #[trigger] goes_into(spec, rotated, r)
            &&& t == in_corner(spec, rotated, r)
        } {
        let (rotated, r) = choose|rotated: bool, r: Region|
            {
                &&& free_regions(w, h, tiles).contains(r)
                &&& #[trigger] goes_into(spec, rotated, r)
                &&& t == in_corner(spec, rotated, r)
            };
        assert(fs.contains(r));
        let i = choose|i: int| 0 <= i < fs.len() && fs[i] == r;
        if rotated {
            let k = choose|k: int| 0 <= k < b.len() && b[k] == t;
            assert(all[a.len() + k] == t);
        } else {
            let k = choose|k: int| 0 <= k < a.len() && a[k] == t;
            assert(all[k] == t);
        }
    }
}

/// Visiting nodes is counted.
proof fn lemma_packing_counts(
    w: int,
    h: int,
    specs: Seq<ElementType>,
    placed: Seq<Tile>,
    remaining: Seq<u32>,
    iters: int,
)
    requires
        0 <= iters <= u32::MAX,
    ensures
        iters <= packing(w, h, specs, placed, remaining, iters).iters <= u32::MAX,
        packing(w, h, specs, placed, remaining, iters).iters > 0,
        iters > MAX_ITERS ==> packing(w, h, specs, placed, remaining, iters).outcome is Failed,
        packing(w, h, specs, placed, remaining, iters).outcome is Packed ==> packing(
            w,
            h,
            specs,
            placed,
            remaining,
            iters,
        ).iters <= MAX_ITERS,
    decreases total(remaining), 1int, 0int,
{
    if counted(iters) > MAX_ITERS || total(remaining) == 0 {
    } else {
        match largest(specs, remaining, remaining.len() as int) {
            None => {},
            Some(kind) => {
                lemma_trying_counts(
                    w,
                    h,
                    specs,
                    placed,
                    remaining,
                    kind,
                    all_spots(specs[kind], free_by_rows(w, h, placed)),
                    0,
                    counted(iters),
                );
            },
        }
    }
}

proof fn lemma_trying_counts(
    w: int,
    h: int,
    specs: Seq<ElementType>,
    placed: Seq<Tile>,
    remaining: Seq<u32>,
    kind: int,
    places: Seq<Tile>,
    next: int,
    iters: int,
)
    requires
        0 <= iters <= u32::MAX,
    ensures
        ({
            let run = trying(w, h, specs, placed, remaining, kind, places, next, iters);
            &&& iters <= run.iters <= u32::MAX
            &&& run.outcome is Packed ==> run.iters <= MAX_ITERS
        }),
    decreases total(remaining), 0int, places.len() - next,
{
    if next < 0 || next >= places.len() || kind < 0 || kind >= remaining.len() || remaining[kind]
        == 0 {
    } else {
        lemma_less_one(remaining, kind);
        let rest = less_one(remaining, kind);
        lemma_packing_counts(w, h, specs, placed.push(places[next]), rest, iters);
        let run = packing(w, h, specs, placed.push(places[next]), rest, iters);
        if run.outcome is Failed {
            lemma_trying_counts(
                w,
                h,
                specs,
                placed,
                remaining,
                kind,
                places,
                next + 1,
                run.iters,
            );
        }
    }
}

/// There is only one kind that comes next, and it is the one that the search takes.
proof fn lemma_next(specs: Seq<ElementType>, remaining: Seq<u32>, kind: int)
    ensures
        is_next(specs, remaining, kind) <==> largest(specs, remaining, remaining.len() as int)
            == Some(kind),
{
    lemma_largest(specs, remaining, remaining.len() as int);
    if is_next(specs, remaining, kind) {
        assert(remaining[kind] > 0);
        let k = largest(specs, remaining, remaining.len() as int);
        assert(k is Some);
        let k = k.unwrap();
        assert(remaining[k] > 0);
    }
}

/// A search packs the pieces only where they can be packed. It fails only where they cannot, or
/// where it has visited fifty thousand nodes.
pub proof fn lemma_packing_decides(
    w: int,
    h: int,
    specs: Seq<ElementType>,
    placed: Seq<Tile>,
    remaining: Seq<u32>,
    iters: int,
)
    requires
        0 <= iters <= u32::MAX,
    ensures
        ({
            let run = packing(w, h, specs, placed, remaining, iters);
            &&& run.outcome is Packed ==> packable(w, h, specs, placed, remaining)
            &&& run.outcome is Failed && run.iters <= 50_000 ==> !packable(
                w,
                h,
                specs,
                placed,
                remaining,
            )
            &&& iters >= 50_000 ==> run.outcome is Failed
            &&& iters < 50_000 && total(remaining) == 0 ==> run.outcome == Packing::Packed(seq![])
        }),
    decreases total(remaining), 1int, 0int,
{
    let run = packing(w, h, specs, placed, remaining, iters);
    if counted(iters) > MAX_ITERS || total(remaining) == 0 {
    } else {
        match largest(specs, remaining, remaining.len() as int) {
            None => {},
            Some(kind) => {
                lemma_next(specs, remaining, kind);
                let spec = specs[kind];
                let places = all_spots(spec, free_by_rows(w, h, placed));
                lemma_less_one(remaining, kind);
                lemma_trying_decides(
                    w,
                    h,
                    specs,
                    placed,
                    remaining,
                    kind,
                    places,
                    0,
                    counted(iters),
                );
                if run.outcome is Packed {
                    let k = choose|k: int|
                        0 <= k < places.len() && packable(
                            w,
                            h,
                            specs,
                            placed.push(#[trigger] places[k]),
                            less_one(remaining, kind),
                        );
                    lemma_every_region_tried(w, h, placed, spec, places[k]);
                    assert(places.contains(places[k]));
                    let (rotated, r) = choose|rotated: bool, r: Region|
                        {
                            &&& free_regions(w, h, placed).contains(r)
                            &&& #[trigger] goes_into(spec, rotated, r)
                            &&& places[k] == in_corner(spec, rotated, r)
                        };
                    assert(goes_into(specs[kind], rotated, r));
                }
                if run.outcome is Failed && run.iters <= MAX_ITERS && packable(
                    w,
                    h,
                    specs,
                    placed,
                    remaining,
                ) {
                    let (other, rotated, r) = choose|other: int, rotated: bool, r: Region|
                        {
                            &&& is_next(specs, remaining, other)
                            &&& free_regions(w, h, placed).contains(r)
                            &&& #[trigger] goes_into(specs[other], rotated, r)
                            &&& total(less_one(remaining, other)) < total(remaining)
                            &&& packable(
                                w,
                                h,
                                specs,
                                placed.push(in_corner(specs[other], rotated, r)),
                                less_one(remaining, other),
                            )
                        };
                    lemma_next(specs, remaining, other);
                    let t = in_corner(spec, rotated, r);
                    lemma_every_region_tried(w, h, placed, spec, t);
                    assert(goes_into(spec, rotated, r));
                    let k = choose|k: int| 0 <= k < places.len() && places[k] == t;
                    assert(packable(
                        w,
                        h,
                        specs,
                        placed.push(places[k]),
                        less_one(remaining, kind),
                    ));
                }
            },
        }
    }
}

proof fn lemma_trying_decides(
    w: int,
    h: int,
    specs: Seq<ElementType>,
    placed: Seq<Tile>,
    remaining: Seq<u32>,
    kind: int,
    places: Seq<Tile>,
    next: int,
    iters: int,
)
    requires
        0 <= iters <= u32::MAX,
        0 <= kind < remaining.len(),
        remaining[kind] > 0,
        0 <= next,
    ensures
        ({
            let run = trying(w, h, specs, placed, remaining, kind, places, next, iters);
            let rest = less_one(remaining, kind);
            &&& run.outcome matches Packing::Packed(tiles) ==> exists|k: int|
                {
                    &&& next <= k < places.len()
                    &&& packable(w, h, specs, placed.push(#[trigger] places[k]), rest)
                    &&& tiles.len() > 0 && tiles.last() == places[k]
                    &&& forall|j: int|
                        next <= j < k ==> !packable(
                            w,
                            h,
                            specs,
                            placed.push(#[trigger] places[j]),
                            rest,
                        )
                }
            &&& run.outcome is Failed && run.iters <= 50_000 ==> forall|k: int|
                next <= k < places.len() ==> !packable(
                    w,
                    h,
                    specs,
                    placed.push(#[trigger] places[k]),
                    rest,
                )
        }),
    decreases total(remaining), 0int, places.len() - next,
{
    if next < places.len() {
        let rest = less_one(remaining, kind);
        lemma_less_one(remaining, kind);
        let more = placed.push(places[next]);
        lemma_packing_decides(w, h, specs, more, rest, iters);
        lemma_packing_counts(w, h, specs, more, rest, iters);
        let one = packing(w, h, specs, more, rest, iters);
        let run = trying(w, h, specs, placed, remaining, kind, places, next, iters);
        match one.outcome {
            Packing::Stuck => {},
            Packing::Packed(tiles) => {
                assert(packable(w, h, specs, placed.push(places[next]), rest));
                assert(tiles.push(places[next]).last() == places[next]);
            },
            Packing::Failed => {
                lemma_trying_decides(
                    w,
                    h,
                    specs,
                    placed,
                    remaining,
                    kind,
                    places,
                    next + 1,
                    one.iters,
                );
                lemma_trying_counts(
                    w,
                    h,
                    specs,
                    placed,
                    remaining,
                    kind,
                    places,
                    next + 1,
                    one.iters,
                );
                if run.outcome is Packed {
                    let k = choose|k: int|
                        {
                            &&& next + 1 <= k < places.len()
                            &&& packable(w, h, specs, placed.push(#[trigger] places[k]), rest)
                            &&& (run.outcome matches Packing::Packed(tiles) && tiles.len() > 0
                                && tiles.last() == places[k])
                            &&& forall|j: int|
                                next + 1 <= j < k ==> !packable(
                                    w,
                                    h,
                                    specs,
                                    placed.push(#[trigger] places[j]),
                                    rest,
                                )
                        };
                    assert(packable(w, h, specs, placed.push(places[k]), rest));
                    assert(!packable(w, h, specs, placed.push(places[next]), rest));
                }
            },
        }
    }
}

/// The places of a piece that lies in one way come from the top and from the left.
proof fn lemma_spots_rise(spec: ElementType, rotated: bool, fs: Seq<Region>, n: int)
    requires
        0 <= n <= fs.len(),
        forall|a: int, b: int|
            0 <= a < b < fs.len() ==> row_key(#[trigger] fs[a]) <= row_key(#[trigger] fs[b]),
    ensures
        forall|k: int|
            0 <= k < spots(spec, rotated, fs, n).len() ==> {
                let t = #[trigger] spots(spec, rotated, fs, n)[k];
                t.rotated == rotated && exists|i: int|
                    0 <= i < n && (#[trigger] fs[i]).x == t.x && fs[i].y == t.y
            },
        forall|a: int, b: int|
            0 <= a < b < spots(spec, rotated, fs, n).len() ==> {
                let s = #[trigger] spots(spec, rotated, fs, n)[a];
                let t = #[trigger] spots(spec, rotated, fs, n)[b];
                s.y * 0x1_0000_0000 + s.x <= t.y * 0x1_0000_0000 + t.x
            },
    decreases n,
{
    if n > 0 {
        lemma_spots_rise(spec, rotated, fs, n - 1);
        let before = spots(spec, rotated, fs, n - 1);
        let s = spots(spec, rotated, fs, n);
        assert forall|k: int| 0 <= k < s.len() implies {
            let t = #[trigger] s[k];
            t.rotated == rotated && exists|i: int|
                0 <= i < n && (#[trigger] fs[i]).x == t.x && fs[i].y == t.y
        } by {
            if k < before.len() {
                assert(s[k] == before[k]);
                let i = choose|i: int|
                    0 <= i < n - 1 && (#[trigger] fs[i]).x == before[k].x && fs[i].y == before[k].y;
                assert(fs[i].x == s[k].x);
            } else {
                assert(fs[n - 1].x == s[k].x);
            }
        }
        assert forall|a: int, b: int| 0 <= a < b < s.len() implies (#[trigger] s[a]).y
            * 0x1_0000_0000 + s[a].x <= (#[trigger] s[b]).y * 0x1_0000_0000 + s[b].x by {
            assert(s[a] == before[a]);
            if b < before.len() {
                assert(s[b] == before[b]);
            } else {
                let i = choose|i: int|
                    0 <= i < n - 1 && (#[trigger] fs[i]).x == before[a].x && fs[i].y == before[a].y;
                assert(row_key(fs[i]) <= row_key(fs[n - 1]));
            }
        }
    }
}

/// What is packed has the largest piece last, in the first place after which the rest can be
/// packed: in no place that is tried before could it lie.
pub proof fn lemma_packed_first(
    w: int,
    h: int,
    specs: Seq<ElementType>,
    placed: Seq<Tile>,
    remaining: Seq<u32>,
    iters: int,
    tiles: Seq<Tile>,
) -> (way: (int, bool, Region))
    requires
        0 <= w <= u32::MAX,
        0 <= h <= u32::MAX,
        0 <= iters <= u32::MAX,
        all_have_edges(placed),
        total(remaining) > 0,
        packing(w, h, specs, placed, remaining, iters).outcome == Packing::Packed(tiles),
    ensures
        ({
            let (kind, rotated, r) = way;
            let rest = less_one(remaining, kind);
            &&& is_next(specs, remaining, kind)
            &&& free_regions(w, h, placed).contains(r)
            &&& goes_into(specs[kind], rotated, r)
            &&& tiles.len() > 0
            &&& tiles.last() == in_corner(specs[kind], rotated, r)
            &&& packable(w, h, specs, placed.push(in_corner(specs[kind], rotated, r)), rest)
            &&& forall|turned: bool, q: Region|
                {
                    &&& free_regions(w, h, placed).contains(q)
                    &&& #[trigger] goes_into(specs[kind], turned, q)
                    &&& tried_before(turned, q, rotated, r)
                } ==> !packable(
                    w,
                    h,
                    specs,
                    placed.push(in_corner(specs[kind], turned, q)),
                    rest,
                )
        }),
{
    let n = remaining.len() as int;
    lemma_largest(specs, remaining, n);
    let kind = largest(specs, remaining, n).unwrap();
    lemma_next(specs, remaining, kind);
    let spec = specs[kind];
    let fs = free_by_rows(w, h, placed);
    let places = all_spots(spec, fs);
    let rest = less_one(remaining, kind);
    lemma_less_one(remaining, kind);
    lemma_trying_decides(w, h, specs, placed, remaining, kind, places, 0, counted(iters));
    let k = choose|k: int|
        {
            &&& 0 <= k < places.len()
            &&& packable(w, h, specs, placed.push(#[trigger] places[k]), rest)
            &&& tiles.len() > 0 && tiles.last() == places[k]
            &&& forall|j: int|
                0 <= j < k ==> !packable(w, h, specs, placed.push(#[trigger] places[j]), rest)
        };
    lemma_every_region_tried(w, h, placed, spec, places[k]);
    assert(places.contains(places[k]));
    let (rotated, r) = choose|rotated: bool, r: Region|
        {
            &&& free_regions(w, h, placed).contains(r)
            &&& #[trigger] goes_into(spec, rotated, r)
            &&& places[k] == in_corner(spec, rotated, r)
        };
    lemma_rows(w, h, placed);
    lemma_spots_rise(spec, false, fs, fs.len() as int);
    lemma_spots_rise(spec, true, fs, fs.len() as int);
    lemma_free_regions_shape(w, h, placed);
    let free = free_regions(w, h, placed);
    let a = spots(spec, false, fs, fs.len() as int);
    let b = spots(spec, true, fs, fs.len() as int);
    assert forall|turned: bool, q: Region|
        {
            &&& free.contains(q)
            &&& #[trigger] goes_into(spec, turned, q)
            &&& tried_before(turned, q, rotated, r)
        } implies !packable(w, h, specs, placed.push(in_corner(spec, turned, q)), rest) by {
        let t = in_corner(spec, turned, q);
        lemma_every_region_tried(w, h, placed, spec, t);
        assert(goes_into(spec, turned, q));
        let j = choose|j: int| 0 <= j < places.len() && places[j] == t;
        let iq = choose|i: int| 0 <= i < free.len() && free[i] == q;
        let ir = choose|i: int| 0 <= i < free.len() && free[i] == r;
        assert(covered(free[iq], sheet(w, h)) && covered(free[ir], sheet(w, h)));
        assert(0 <= q.x < 0x1_0000_0000 && 0 <= r.x < 0x1_0000_0000);
        if j >= k {
            if k < a.len() && j < a.len() {
                assert(places[k] == a[k] && places[j] == a[j]);
            } else if k < a.len() {
                assert(places[k] == a[k] && places[j] == b[j - a.len()]);
            } else {
                assert(places[k] == b[k - a.len()] && places[j] == b[j - a.len()]);
            }
            assert(false);
        }
        assert(!packable(w, h, specs, placed.push(places[j]), rest));
    }
    (kind, rotated, r)
}

} // verus!
