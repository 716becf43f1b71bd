//! What the free regions of a sheet are.

use crate::free_space::{
    all_have_edges, clear_of, covered, free_regions, lemma_free_regions_clear,
    lemma_free_regions_complete, lemma_free_regions_maximal, lemma_free_regions_shape, meets,
    sheet,
};
use crate::layout::{inside, overlap, Region};
use crate::pieces::Tile;
use vstd::prelude::*;

verus! {

/// A region as a rectangle.
pub open spec fn as_tile(r: Region) -> Tile {
    Tile { x: r.x, y: r.y, w: r.w, h: r.h, name: seq![], rotated: false }
}

/// The free regions of a sheet are exactly the largest rectangles with an area that lie on it and
/// overlap no piece: those that are part of no other such rectangle.
pub proof fn lemma_free_regions_exact(w: int, h: int, tiles: Seq<Tile>, r: Region)
    requires
        0 < w,
        0 < h,
        all_have_edges(tiles),
    ensures
        free_regions(w, h, tiles).contains(r) <==> {
            &&& 0 < r.w && 0 < r.h
            &&& inside(as_tile(r), w, h)
            &&& forall|i: int| 0 <= i < tiles.len() ==> !overlap(as_tile(r), #[trigger] tiles[i])
            &&& forall|q: Region|
                {
                    &&& #[trigger] inside(as_tile(q), w, h)
                    &&& q.x <= r.x && q.y <= r.y
                    &&& r.x + r.w <= q.x + q.w && r.y + r.h <= q.y + q.h
                    &&& forall|i: int|
                        0 <= i < tiles.len() ==> !overlap(as_tile(q), #[trigger] tiles[i])
                } ==> q == r
        },
{
    let fs = free_regions(w, h, tiles);
    lemma_free_regions_shape(w, h, tiles);
    lemma_free_regions_clear(w, h, tiles);
    if fs.contains(r) {
        let k = choose|k: int| 0 <= k < fs.len() && fs[k] == r;
        assert(clear_of(fs[k], tiles) && covered(fs[k], sheet(w, h)));
        assert(0 < fs[k].w && 0 < fs[k].h);
        assert forall|i: int| 0 <= i < tiles.len() implies !overlap(
            as_tile(r),
            #[trigger] tiles[i],
        ) by {
            assert(!meets(r, tiles[i]));
        }
        assert forall|q: Region|
            {
                &&& #[trigger] inside(as_tile(q), w, h)
                &&& q.x <= r.x && q.y <= r.y
                &&& r.x + r.w <= q.x + q.w && r.y + r.h <= q.y + q.h
                &&& forall|i: int|
                    0 <= i < tiles.len() ==> !overlap(as_tile(q), #[trigger] tiles[i])
            } implies q == r by {
            assert forall|i: int| 0 <= i < tiles.len() implies !meets(q, #[trigger] tiles[i]) by {
                assert(!overlap(as_tile(q), tiles[i]));
            }
            lemma_free_regions_maximal(w, h, tiles, k, q);
        }
    }
    if {
        &&& 0 < r.w && 0 < r.h
        &&& inside(as_tile(r), w, h)
        &&& forall|i: int| 0 <= i < tiles.len() ==> !overlap(as_tile(r), #[trigger] tiles[i])
        &&& forall|q: Region|
            {
                &&& #[trigger] inside(as_tile(q), w, h)
                &&& q.x <= r.x && q.y <= r.y
                &&& r.x + r.w <= q.x + q.w && r.y + r.h <= q.y + q.h
                &&& forall|i: int|
                    0 <= i < tiles.len() ==> !overlap(as_tile(q), #[trigger] tiles[i])
            } ==> q == r
    } {
        assert forall|i: int| 0 <= i < tiles.len() implies !meets(r, #[trigger] tiles[i]) by {
            assert(!overlap(as_tile(r), tiles[i]));
        }
        lemma_free_regions_complete(w, h, tiles, r);
        let k = choose|k: int| 0 <= k < fs.len() && covered(r, #[trigger] fs[k]);
        let q = fs[k];
        assert(clear_of(q, tiles) && covered(q, sheet(w, h)));
        assert(0 < fs[k].w && 0 < fs[k].h);
        assert forall|i: int| 0 <= i < tiles.len() implies !overlap(
            as_tile(q),
            #[trigger] tiles[i],
        ) by {
            assert(!meets(q, tiles[i]));
        }
        assert(inside(as_tile(q), w, h));
        assert(q == r);
    }
}

} // verus!
