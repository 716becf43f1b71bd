//! Layouts of rectangles on a sheet, and the cuts that yield them.

use crate::pieces::{less_one, tiles_of, within, ElementType, PlacedItem, Tile};
use vstd::prelude::*;

verus! {

/// Two rectangles have interior points in common.
pub open spec fn overlap(a: Tile, b: Tile) -> bool {
    &&& a.x < b.x + b.w
    &&& a.x + a.w > b.x
    &&& a.y < b.y + b.h
    &&& a.y + a.h > b.y
}

/// A rectangle lies on the sheet from `(0, 0)` to `(w, h)`.
pub open spec fn inside(t: Tile, w: int, h: int) -> bool {
    &&& 0 <= t.x
    &&& 0 <= t.y
    &&& 0 <= t.w
    &&& 0 <= t.h
    &&& t.x + t.w <= w
    &&& t.y + t.h <= h
}

/// The square with sides of one whose upper left corner is at `(x, y)` is part of the rectangle.
pub open spec fn has_cell(t: Tile, x: int, y: int) -> bool {
    t.x <= x < t.x + t.w && t.y <= y < t.y + t.h
}

/// Rectangles with an area overlap exactly if they have a square of the grid in common.
pub proof fn lemma_overlap_cells(a: Tile, b: Tile)
    requires
        0 < a.w,
        0 < a.h,
        0 < b.w,
        0 < b.h,
    ensures
        overlap(a, b) <==> exists|x: int, y: int| #[trigger] has_cell(a, x, y) && has_cell(b, x, y),
        overlap(a, b) == overlap(b, a),
{
    if overlap(a, b) {
        let x = if a.x >= b.x {
            a.x
        } else {
            b.x
        };
        let y = if a.y >= b.y {
            a.y
        } else {
            b.y
        };
        assert(has_cell(a, x, y) && has_cell(b, x, y));
    }
}

/// A rectangle with an area lies on the sheet exactly if all squares of the grid do that are part
/// of it.
pub proof fn lemma_inside_cells(t: Tile, w: int, h: int)
    requires
        0 < t.w,
        0 < t.h,
    ensures
        inside(t, w, h) <==> forall|x: int, y: int| #[trigger]
            has_cell(t, x, y) ==> 0 <= x < w && 0 <= y < h,
{
    assert(has_cell(t, t.x, t.y));
    assert(has_cell(t, t.x + t.w - 1, t.y + t.h - 1));
}

/// Every rectangle lies on the sheet.
pub open spec fn all_inside(tiles: Seq<Tile>, w: int, h: int) -> bool {
    forall|i: int| 0 <= i < tiles.len() ==> inside(#[trigger] tiles[i], w, h)
}

/// No two rectangles overlap.
pub open spec fn all_apart(tiles: Seq<Tile>) -> bool {
    forall|i: int, j: int|
        0 <= i < j < tiles.len() ==> !overlap(#[trigger] tiles[i], #[trigger] tiles[j])
}

/// None of the rectangles from `n` on overlaps one that comes before it.
pub open spec fn apart_from(tiles: Seq<Tile>, n: int) -> bool {
    forall|i: int, j: int|
        0 <= i < j < tiles.len() && n <= j ==> !overlap(#[trigger] tiles[i], #[trigger] tiles[j])
}

/// Rectangles that overlap nothing that comes before them leave those apart that were so.
pub proof fn lemma_apart_from(placed: Seq<Tile>, added: Seq<Tile>)
    requires
        all_apart(placed),
        apart_from(placed + added, placed.len() as int),
    ensures
        all_apart(placed + added),
{
    let all = placed + added;
    assert forall|i: int, j: int| 0 <= i < j < all.len() implies !overlap(
        #[trigger] all[i],
        #[trigger] all[j],
    ) by {
        if j < placed.len() {
            assert(all[i] == placed[i] && all[j] == placed[j]);
        }
    }
}

/// No rectangle is smaller than one that comes before it.
pub open spec fn rises(tiles: Seq<Tile>) -> bool {
    forall|i: int, j: int|
        0 <= i < j < tiles.len() ==> (#[trigger] tiles[i]).w * tiles[i].h <= (
        #[trigger] tiles[j]).w * tiles[j].h
}

/// No square is turned.
pub open spec fn squares_lie(tiles: Seq<Tile>) -> bool {
    forall|i: int|
        0 <= i < tiles.len() && (#[trigger] tiles[i]).w == tiles[i].h ==> !tiles[i].rotated
}

/// The rectangles lie on the sheet and no two of them overlap.
pub open spec fn is_packing(tiles: Seq<Tile>, w: int, h: int) -> bool {
    all_inside(tiles, w, h) && all_apart(tiles)
}

/// The areas of the rectangles, added up.
pub open spec fn area_of(tiles: Seq<Tile>) -> int
    decreases tiles.len(),
{
    if tiles.len() == 0 {
        0
    } else {
        area_of(tiles.drop_last()) + tiles.last().w * tiles.last().h
    }
}

/// A rectangle moved by `(dx, dy)`.
pub open spec fn moved(t: Tile, dx: int, dy: int) -> Tile {
    Tile { x: t.x + dx, y: t.y + dy, ..t }
}

/// All rectangles moved by `(dx, dy)`.
pub open spec fn all_moved(tiles: Seq<Tile>, dx: int, dy: int) -> Seq<Tile> {
    Seq::new(tiles.len(), |i: int| moved(tiles[i], dx, dy))
}

/// What a search for a layout yields: the rectangles, the pieces that are left, and the
/// area that the search counted.
#[verifier::ext_equal]
pub struct Layout {
    pub tiles: Seq<Tile>,
    pub remaining: Seq<u32>,
    pub area: int,
}

/// Nothing placed.
pub open spec fn blank(counts: Seq<u32>) -> Layout {
    Layout { tiles: Seq::empty(), remaining: counts, area: 0 }
}

/// A rectangular part of the sheet, with its upper left corner at `(x, y)`.
pub struct Region {
    pub x: int,
    pub y: int,
    pub w: int,
    pub h: int,
}

/// A piece of `pw` by `ph` in the upper left corner of a `w` by `h` sheet leaves two parts.
/// This is the one that is filled first. After a vertical cut that is the strip to the right
/// of the piece, as high as the piece; else it is the strip below, as wide as the piece.
pub open spec fn first_part(w: int, h: int, pw: int, ph: int, vertical: bool) -> Region {
    if vertical {
        Region { x: pw, y: 0, w: w - pw, h: ph }
    } else {
        Region { x: 0, y: ph, w: pw, h: h - ph }
    }
}

/// The part that is filled second: all that the piece and the first part leave over.
pub open spec fn second_part(w: int, h: int, pw: int, ph: int, vertical: bool) -> Region {
    if vertical {
        Region { x: 0, y: ph, w, h: h - ph }
    } else {
        Region { x: pw, y: 0, w: w - pw, h }
    }
}

/// A piece in the corner and the two parts that it leaves cover the sheet: every square of the
/// grid on the sheet is part of exactly one of the three.
pub proof fn lemma_parts_cover(
    w: int,
    h: int,
    pw: int,
    ph: int,
    vertical: bool,
    x: int,
    y: int,
)
    requires
        0 <= pw <= w,
        0 <= ph <= h,
    ensures
        ({
            let a = first_part(w, h, pw, ph, vertical);
            let b = second_part(w, h, pw, ph, vertical);
            let piece = x < pw && y < ph;
            let first = a.x <= x < a.x + a.w && a.y <= y < a.y + a.h;
            let second = b.x <= x < b.x + b.w && b.y <= y < b.y + b.h;
            &&& 0 <= x < w && 0 <= y < h ==> piece || first || second
            &&& first || second ==> 0 <= x < w && 0 <= y < h
            &&& !(first && second)
            &&& 0 <= x && 0 <= y && piece ==> !first && !second
            &&& vertical ==> a.w == w - pw && a.h == ph && b.w == w && b.h == h - ph
            &&& !vertical ==> a.w == pw && a.h == h - ph && b.w == w - pw && b.h == h
        }),
{
}

/// The piece in the corner, followed by what fills the first part and what fills the second.
pub open spec fn joined_tiles(
    piece: Tile,
    vertical: bool,
    first: Seq<Tile>,
    second: Seq<Tile>,
) -> Seq<Tile> {
    let a = first_part(0, 0, piece.w, piece.h, vertical);
    let b = second_part(0, 0, piece.w, piece.h, vertical);
    seq![piece] + all_moved(first, a.x, a.y) + all_moved(second, b.x, b.y)
}

/// A layout put together from the piece in the corner and the layouts of the two parts.
pub open spec fn joined(piece: Tile, vertical: bool, first: Layout, second: Layout) -> Layout {
    Layout {
        tiles: joined_tiles(piece, vertical, first.tiles, second.tiles),
        remaining: second.remaining,
        area: piece.w * piece.h + first.area + second.area,
    }
}

/// A plan of cuts from edge to edge. It either leaves a part of the sheet as it is, or puts a
/// piece into the corner of the part, cuts along two of its sides and goes on with the two
/// parts that this leaves.
pub enum CutTree {
    Leave,
    Cut {
        kind: int,
        rotated: bool,
        vertical: bool,
        first: Box<CutTree>,
        second: Box<CutTree>,
    },
}

impl CutTree {
    /// The plan can be carried out on a `w` by `h` sheet, with pieces out of `specs`.
    pub open spec fn fits(self, specs: Seq<ElementType>, w: int, h: int) -> bool
        decreases self,
    {
        match self {
            CutTree::Leave => true,
            CutTree::Cut { kind, rotated, vertical, first, second } => {
                let pw = specs[kind].wide(rotated);
                let ph = specs[kind].high(rotated);
                let a = first_part(w, h, pw, ph, vertical);
                let b = second_part(w, h, pw, ph, vertical);
                &&& 0 <= kind < specs.len()
                &&& pw <= w
                &&& ph <= h
                &&& first.fits(specs, a.w, a.h)
                &&& second.fits(specs, b.w, b.h)
            },
        }
    }

    /// The rectangles that the plan cuts out.
    pub open spec fn tiles(self, specs: Seq<ElementType>) -> Seq<Tile>
        decreases self,
    {
        match self {
            CutTree::Leave => Seq::empty(),
            CutTree::Cut { kind, rotated, vertical, first, second } => joined_tiles(
                specs[kind].tile(0, 0, rotated),
                vertical,
                first.tiles(specs),
                second.tiles(specs),
            ),
        }
    }

    /// How many pieces of a kind the plan cuts out.
    pub open spec fn uses(self, i: int) -> nat
        decreases self,
    {
        match self {
            CutTree::Leave => 0,
            CutTree::Cut { kind, rotated, vertical, first, second } => (if kind == i {
                1nat
            } else {
                0nat
            }) + first.uses(i) + second.uses(i),
        }
    }
}

/// The layout is what the plan of cuts yields on a `w` by `h` sheet.
pub open spec fn realises(
    tree: CutTree,
    specs: Seq<ElementType>,
    w: int,
    h: int,
    layout: Layout,
) -> bool {
    &&& tree.fits(specs, w, h)
    &&& layout.tiles == tree.tiles(specs)
    &&& layout.area == area_of(layout.tiles)
}

/// The layout can be cut out of a `w` by `h` sheet with cuts from edge to edge.
pub open spec fn guillotine(specs: Seq<ElementType>, w: int, h: int, layout: Layout) -> bool {
    exists|tree: CutTree| realises(tree, specs, w, h, layout)
}

/// The plan uses up what `remaining` has less than `counts`.
pub open spec fn uses_up(tree: CutTree, counts: Seq<u32>, remaining: Seq<u32>) -> bool {
    &&& remaining.len() == counts.len()
    &&& forall|i: int|
        0 <= i < counts.len() ==> counts[i] == #[trigger] remaining[i] + tree.uses(i)
}

/// The layout can be cut with cuts from edge to edge, and the pieces that it places together
/// with those that it leaves are the pieces that were given.
pub open spec fn accounted(
    specs: Seq<ElementType>,
    w: int,
    h: int,
    counts: Seq<u32>,
    layout: Layout,
) -> bool {
    exists|tree: CutTree|
        #[trigger] realises(tree, specs, w, h, layout) && uses_up(tree, counts, layout.remaining)
}

/// The area of two lists of rectangles is the sum of their areas.
pub proof fn lemma_area_concat(a: Seq<Tile>, b: Seq<Tile>)
    ensures
        area_of(a + b) == area_of(a) + area_of(b),
    decreases b.len(),
{
    if b.len() == 0 {
        assert(a + b =~= a);
    } else {
        assert((a + b).drop_last() =~= a + b.drop_last());
        lemma_area_concat(a, b.drop_last());
    }
}

/// Moving rectangles does not change their area.
pub proof fn lemma_area_moved(tiles: Seq<Tile>, dx: int, dy: int)
    ensures
        area_of(all_moved(tiles, dx, dy)) == area_of(tiles),
    decreases tiles.len(),
{
    if tiles.len() > 0 {
        assert(all_moved(tiles, dx, dy).drop_last() =~= all_moved(tiles.drop_last(), dx, dy));
        lemma_area_moved(tiles.drop_last(), dx, dy);
    }
}

/// The area of a joined layout is that of the piece and of the two parts.
pub proof fn lemma_area_joined(piece: Tile, vertical: bool, first: Seq<Tile>, second: Seq<Tile>)
    ensures
        area_of(joined_tiles(piece, vertical, first, second)) == piece.w * piece.h + area_of(first)
            + area_of(second),
{
    let a = first_part(0, 0, piece.w, piece.h, vertical);
    let b = second_part(0, 0, piece.w, piece.h, vertical);
    lemma_area_concat(seq![piece] + all_moved(first, a.x, a.y), all_moved(second, b.x, b.y));
    lemma_area_concat(seq![piece], all_moved(first, a.x, a.y));
    lemma_area_moved(first, a.x, a.y);
    lemma_area_moved(second, b.x, b.y);
    assert(seq![piece].drop_last() =~= Seq::<Tile>::empty());
    assert(area_of(Seq::<Tile>::empty()) == 0);
    assert(area_of(seq![piece]) == piece.w * piece.h);
}

/// Two packings moved to places that have no interior point in common are a packing.
proof fn lemma_packing_concat(a: Seq<Tile>, b: Seq<Tile>, w: int, h: int)
    requires
        is_packing(a, w, h),
        is_packing(b, w, h),
        forall|i: int, j: int|
            0 <= i < a.len() && 0 <= j < b.len() ==> !overlap(#[trigger] a[i], #[trigger] b[j]),
    ensures
        is_packing(a + b, w, h),
{
    let c = a + b;
    assert forall|i: int| 0 <= i < c.len() implies inside(#[trigger] c[i], w, h) by {
        if i < a.len() {
            assert(c[i] == a[i]);
        } else {
            assert(c[i] == b[i - a.len()]);
        }
    }
    assert forall|i: int, j: int| 0 <= i < j < c.len() implies !overlap(
        #[trigger] c[i],
        #[trigger] c[j],
    ) by {
        if j < a.len() {
            assert(c[i] == a[i] && c[j] == a[j]);
        } else if i >= a.len() {
            assert(c[i] == b[i - a.len()] && c[j] == b[j - a.len()]);
        } else {
            assert(c[i] == a[i] && c[j] == b[j - a.len()]);
        }
    }
}

/// A packing of a part of the sheet, moved to where the part is, is a packing of the sheet
/// whose rectangles lie in the part.
proof fn lemma_packing_moved(tiles: Seq<Tile>, part: Region, w: int, h: int)
    requires
        is_packing(tiles, part.w, part.h),
        0 <= part.x,
        0 <= part.y,
        part.x + part.w <= w,
        part.y + part.h <= h,
    ensures
        is_packing(all_moved(tiles, part.x, part.y), w, h),
        forall|i: int|
            0 <= i < tiles.len() ==> {
                let t = #[trigger] all_moved(tiles, part.x, part.y)[i];
                part.x <= t.x && part.y <= t.y && t.x + t.w <= part.x + part.w && t.y + t.h
                    <= part.y + part.h && 0 <= t.w && 0 <= t.h
            },
{
    let m = all_moved(tiles, part.x, part.y);
    assert forall|i: int| 0 <= i < m.len() implies inside(#[trigger] m[i], w, h) && part.x
        <= m[i].x && part.y <= m[i].y && m[i].x + m[i].w <= part.x + part.w && m[i].y + m[i].h
        <= part.y + part.h by {
        assert(inside(tiles[i], part.w, part.h));
    }
    assert forall|i: int, j: int| 0 <= i < j < m.len() implies !overlap(
        #[trigger] m[i],
        #[trigger] m[j],
    ) by {
        assert(!overlap(tiles[i], tiles[j]));
    }
}

/// Packings of the two parts, joined with the piece in the corner, pack the sheet.
pub proof fn lemma_packing_joined(
    piece: Tile,
    vertical: bool,
    first: Seq<Tile>,
    second: Seq<Tile>,
    w: int,
    h: int,
)
    requires
        piece.x == 0,
        piece.y == 0,
        0 <= piece.w <= w,
        0 <= piece.h <= h,
        is_packing(
            first,
            first_part(w, h, piece.w, piece.h, vertical).w,
            first_part(w, h, piece.w, piece.h, vertical).h,
        ),
        is_packing(
            second,
            second_part(w, h, piece.w, piece.h, vertical).w,
            second_part(w, h, piece.w, piece.h, vertical).h,
        ),
    ensures
        is_packing(joined_tiles(piece, vertical, first, second), w, h),
{
    let a = first_part(w, h, piece.w, piece.h, vertical);
    let b = second_part(w, h, piece.w, piece.h, vertical);
    let p = seq![piece];
    let f = all_moved(first, a.x, a.y);
    let s = all_moved(second, b.x, b.y);
    lemma_packing_moved(first, a, w, h);
    lemma_packing_moved(second, b, w, h);
    lemma_packing_concat(p, f, w, h);
    assert forall|i: int, j: int| 0 <= i < (p + f).len() && 0 <= j < s.len() implies !overlap(
        #[trigger] (p + f)[i],
        #[trigger] s[j],
    ) by {
        if i > 0 {
            assert((p + f)[i] == f[i - 1]);
        }
    }
    lemma_packing_concat(p + f, s, w, h);
}

/// What a plan of cuts yields is a packing, and its area is at most that of the sheet.
pub proof fn lemma_tree_packing(tree: CutTree, specs: Seq<ElementType>, w: int, h: int)
    requires
        tree.fits(specs, w, h),
        0 <= w,
        0 <= h,
    ensures
        is_packing(tree.tiles(specs), w, h),
        0 <= area_of(tree.tiles(specs)) <= w * h,
    decreases tree,
{
    match tree {
        CutTree::Leave => {
            assert(0 <= w * h) by (nonlinear_arith)
                requires
                    0 <= w,
                    0 <= h,
            ;
        },
        CutTree::Cut { kind, rotated, vertical, first, second } => {
            let piece = specs[kind].tile(0, 0, rotated);
            let a = first_part(w, h, piece.w, piece.h, vertical);
            let b = second_part(w, h, piece.w, piece.h, vertical);
            lemma_tree_packing(*first, specs, a.w, a.h);
            lemma_tree_packing(*second, specs, b.w, b.h);
            lemma_packing_joined(piece, vertical, first.tiles(specs), second.tiles(specs), w, h);
            lemma_area_joined(piece, vertical, first.tiles(specs), second.tiles(specs));
            let pw = piece.w;
            let ph = piece.h;
            assert(0 <= pw * ph) by (nonlinear_arith)
                requires
                    0 <= pw,
                    0 <= ph,
            ;
            if vertical {
                assert(pw * ph + (w - pw) * ph + w * (h - ph) == w * h) by (nonlinear_arith);
            } else {
                assert(pw * ph + pw * (h - ph) + (w - pw) * h == w * h) by (nonlinear_arith);
            }
        },
    }
}

/// A layout that can be cut with cuts from edge to edge lies on the sheet, no two of its
/// pieces overlap, and the area that was counted is the area that the pieces cover.
pub proof fn lemma_guillotine_packing(specs: Seq<ElementType>, w: int, h: int, layout: Layout)
    requires
        guillotine(specs, w, h, layout),
        0 <= w,
        0 <= h,
    ensures
        is_packing(layout.tiles, w, h),
        layout.area == area_of(layout.tiles),
        0 <= layout.area <= w * h,
{
    let tree = choose|tree: CutTree| realises(tree, specs, w, h, layout);
    lemma_tree_packing(tree, specs, w, h);
}

/// Leaving the sheet as it is accounts for all pieces.
pub proof fn lemma_blank(specs: Seq<ElementType>, w: int, h: int, counts: Seq<u32>)
    ensures
        accounted(specs, w, h, counts, blank(counts)),
        guillotine(specs, w, h, blank(counts)),
{
    let tree = CutTree::Leave;
    assert(tree.fits(specs, w, h));
    assert(realises(tree, specs, w, h, blank(counts)));
    assert(uses_up(tree, counts, blank(counts).remaining));
}

/// Joining cuttable layouts of the two parts gives a cuttable layout.
pub proof fn lemma_guillotine_joined(
    specs: Seq<ElementType>,
    w: int,
    h: int,
    kind: int,
    rotated: bool,
    vertical: bool,
    first: Layout,
    second: Layout,
)
    requires
        0 <= kind < specs.len(),
        specs[kind].wide(rotated) <= w,
        specs[kind].high(rotated) <= h,
        ({
            let piece = specs[kind].tile(0, 0, rotated);
            let a = first_part(w, h, piece.w, piece.h, vertical);
            let b = second_part(w, h, piece.w, piece.h, vertical);
            guillotine(specs, a.w, a.h, first) && guillotine(specs, b.w, b.h, second)
        }),
    ensures
        guillotine(specs, w, h, joined(specs[kind].tile(0, 0, rotated), vertical, first, second)),
{
    let piece = specs[kind].tile(0, 0, rotated);
    let a = first_part(w, h, piece.w, piece.h, vertical);
    let b = second_part(w, h, piece.w, piece.h, vertical);
    let t1 = choose|tree: CutTree| realises(tree, specs, a.w, a.h, first);
    let t2 = choose|tree: CutTree| realises(tree, specs, b.w, b.h, second);
    let tree = CutTree::Cut { kind, rotated, vertical, first: Box::new(t1), second: Box::new(t2) };
    lemma_area_joined(piece, vertical, first.tiles, second.tiles);
    assert(realises(tree, specs, w, h, joined(piece, vertical, first, second)));
}

/// Joining layouts that account for their pieces gives a layout that accounts for its own.
pub proof fn lemma_accounted_joined(
    specs: Seq<ElementType>,
    w: int,
    h: int,
    counts: Seq<u32>,
    kind: int,
    rotated: bool,
    vertical: bool,
    first: Layout,
    second: Layout,
)
    requires
        0 <= kind < specs.len(),
        kind < counts.len(),
        counts[kind] > 0,
        specs[kind].wide(rotated) <= w,
        specs[kind].high(rotated) <= h,
        ({
            let piece = specs[kind].tile(0, 0, rotated);
            let a = first_part(w, h, piece.w, piece.h, vertical);
            let b = second_part(w, h, piece.w, piece.h, vertical);
            accounted(specs, a.w, a.h, less_one(counts, kind), first) && accounted(
                specs,
                b.w,
                b.h,
                first.remaining,
                second,
            )
        }),
    ensures
        accounted(
            specs,
            w,
            h,
            counts,
            joined(specs[kind].tile(0, 0, rotated), vertical, first, second),
        ),
{
    let piece = specs[kind].tile(0, 0, rotated);
    let a = first_part(w, h, piece.w, piece.h, vertical);
    let b = second_part(w, h, piece.w, piece.h, vertical);
    let rest = less_one(counts, kind);
    let t1 = choose|tree: CutTree| #[trigger]
        realises(tree, specs, a.w, a.h, first) && uses_up(tree, rest, first.remaining);
    let t2 = choose|tree: CutTree| #[trigger]
        realises(tree, specs, b.w, b.h, second) && uses_up(
            tree,
            first.remaining,
            second.remaining,
        );
    let tree = CutTree::Cut { kind, rotated, vertical, first: Box::new(t1), second: Box::new(t2) };
    let whole = joined(piece, vertical, first, second);
    lemma_area_joined(piece, vertical, first.tiles, second.tiles);
    assert(realises(tree, specs, w, h, whole));
    assert forall|i: int| 0 <= i < counts.len() implies counts[i] == #[trigger] whole.remaining[i]
        + tree.uses(i) by {
        assert(rest[i] == first.remaining[i] + t1.uses(i));
        assert(first.remaining[i] == second.remaining[i] + t2.uses(i));
    }
    assert(uses_up(tree, counts, whole.remaining));
}

/// A layout that accounts for its pieces can be cut, and leaves no more than was given.
pub proof fn lemma_accounted_within(
    specs: Seq<ElementType>,
    w: int,
    h: int,
    counts: Seq<u32>,
    layout: Layout,
)
    requires
        accounted(specs, w, h, counts, layout),
    ensures
        guillotine(specs, w, h, layout),
        within(layout.remaining, counts),
{
    let tree = choose|tree: CutTree| #[trigger]
        realises(tree, specs, w, h, layout) && uses_up(tree, counts, layout.remaining);
    assert forall|i: int| 0 <= i < counts.len() implies #[trigger] layout.remaining[i]
        <= counts[i] by {
        assert(counts[i] == layout.remaining[i] + tree.uses(i));
    }
}

/// The areas of all pieces of the first `n` kinds, added up.
pub open spec fn stock_area(specs: Seq<ElementType>, counts: Seq<u32>, n: int) -> int
    decreases n,
{
    if n <= 0 {
        0
    } else {
        stock_area(specs, counts, n - 1) + counts[n - 1] * specs[n - 1].area()
    }
}

/// The areas of the pieces of the first `n` kinds that a plan cuts out, added up.
spec fn used_area(tree: CutTree, specs: Seq<ElementType>, n: int) -> int
    decreases n,
{
    if n <= 0 {
        0
    } else {
        used_area(tree, specs, n - 1) + tree.uses(n - 1) * specs[n - 1].area()
    }
}

/// The pieces used by a plan that starts with a cut are the first piece and those of both parts.
proof fn lemma_used_area_cut(
    specs: Seq<ElementType>,
    kind: int,
    rotated: bool,
    vertical: bool,
    first: CutTree,
    second: CutTree,
    n: int,
)
    requires
        0 <= n <= specs.len(),
    ensures
        used_area(
            CutTree::Cut {
                kind,
                rotated,
                vertical,
                first: Box::new(first),
                second: Box::new(second),
            },
            specs,
            n,
        ) == used_area(first, specs, n) + used_area(second, specs, n) + (if 0 <= kind < n {
            specs[kind].area()
        } else {
            0
        }),
    decreases n,
{
    if n > 0 {
        lemma_used_area_cut(specs, kind, rotated, vertical, first, second, n - 1);
        let area = specs[n - 1].area();
        let a = first.uses(n - 1);
        let b = second.uses(n - 1);
        assert((a + b) * area == a * area + b * area) by (nonlinear_arith);
        assert((1 + a + b) * area == area + a * area + b * area) by (nonlinear_arith);
    }
}

/// What a plan cuts out covers the areas of the pieces that it uses.
proof fn lemma_used_area(tree: CutTree, specs: Seq<ElementType>, w: int, h: int)
    requires
        tree.fits(specs, w, h),
    ensures
        area_of(tree.tiles(specs)) == used_area(tree, specs, specs.len() as int),
    decreases tree,
{
    match tree {
        CutTree::Leave => {
            lemma_used_area_leave(specs, specs.len() as int);
        },
        CutTree::Cut { kind, rotated, vertical, first, second } => {
            let piece = specs[kind].tile(0, 0, rotated);
            let a = first_part(w, h, piece.w, piece.h, vertical);
            let b = second_part(w, h, piece.w, piece.h, vertical);
            lemma_used_area(*first, specs, a.w, a.h);
            lemma_used_area(*second, specs, b.w, b.h);
            lemma_area_joined(piece, vertical, first.tiles(specs), second.tiles(specs));
            lemma_used_area_cut(
                specs,
                kind,
                rotated,
                vertical,
                *first,
                *second,
                specs.len() as int,
            );
            let pw = piece.w;
            let ph = piece.h;
            let width = specs[kind].width;
            let height = specs[kind].height;
            assert(pw * ph == width * height) by (nonlinear_arith)
                requires
                    (pw == width && ph == height) || (pw == height && ph == width),
            ;
        },
    }
}

proof fn lemma_used_area_leave(specs: Seq<ElementType>, n: int)
    ensures
        used_area(CutTree::Leave, specs, n) == 0,
    decreases n,
{
    if n > 0 {
        lemma_used_area_leave(specs, n - 1);
        let area = specs[n - 1].area();
        assert(0 * area == 0) by (nonlinear_arith);
    }
}

/// What is used up and what is left over is what was given, by area.
proof fn lemma_used_area_left(
    tree: CutTree,
    specs: Seq<ElementType>,
    counts: Seq<u32>,
    remaining: Seq<u32>,
    n: int,
)
    requires
        uses_up(tree, counts, remaining),
        0 <= n <= specs.len(),
        n <= counts.len(),
    ensures
        used_area(tree, specs, n) + stock_area(specs, remaining, n) == stock_area(
            specs,
            counts,
            n,
        ),
    decreases n,
{
    if n > 0 {
        lemma_used_area_left(tree, specs, counts, remaining, n - 1);
        let area = specs[n - 1].area();
        let used = tree.uses(n - 1);
        let left = remaining[n - 1];
        let given = counts[n - 1];
        assert(given == left + used);
        assert(used * area + left * area == given * area) by (nonlinear_arith)
            requires
                given == left + used,
        ;
    }
}

/// A layout that accounts for its pieces covers the area of the pieces that were given less
/// that of the pieces that are left.
pub proof fn lemma_accounted_area(
    specs: Seq<ElementType>,
    w: int,
    h: int,
    counts: Seq<u32>,
    layout: Layout,
)
    requires
        accounted(specs, w, h, counts, layout),
        specs.len() <= counts.len(),
    ensures
        layout.area + stock_area(specs, layout.remaining, specs.len() as int) == stock_area(
            specs,
            counts,
            specs.len() as int,
        ),
{
    let tree = choose|tree: CutTree| #[trigger]
        realises(tree, specs, w, h, layout) && uses_up(tree, counts, layout.remaining);
    lemma_used_area(tree, specs, w, h);
    lemma_used_area_left(tree, specs, counts, layout.remaining, specs.len() as int);
}

/// Appends the pieces of `more` to `items`, each moved by `(dx, dy)`.
fn append_moved(items: &mut Vec<PlacedItem>, more: Vec<PlacedItem>, dx: u32, dy: u32)
    requires
        all_inside(tiles_of(more@), u32::MAX - dx, u32::MAX - dy),
    ensures
        tiles_of(final(items)@) == tiles_of(old(items)@) + all_moved(
            tiles_of(more@),
            dx as int,
            dy as int,
        ),
{
    let ghost start = items@;
    let mut i: usize = 0;
    while i < more.len()
        invariant
            i <= more.len(),
            all_inside(tiles_of(more@), u32::MAX - dx, u32::MAX - dy),
            tiles_of(items@) == tiles_of(start) + all_moved(
                tiles_of(more@.take(i as int)),
                dx as int,
                dy as int,
            ),
        decreases more.len() - i,
    {
        let p = &more[i];
        assert(tiles_of(more@)[i as int] == p@);
        let ghost before = tiles_of(items@);
        items.push(
            PlacedItem {
                x: p.x + dx,
                y: p.y + dy,
                width: p.width,
                height: p.height,
                name: p.name.clone(),
                rotated: p.rotated,
            },
        );
        assert(tiles_of(items@) =~= before.push(moved(p@, dx as int, dy as int)));
        assert(all_moved(tiles_of(more@.take(i + 1)), dx as int, dy as int) =~= all_moved(
            tiles_of(more@.take(i as int)),
            dx as int,
            dy as int,
        ).push(moved(p@, dx as int, dy as int)));
        i = i + 1;
    }
    assert(more@.take(i as int) =~= more@);
}

/// Puts a layout together from the piece in the corner and the pieces of the two parts.
pub fn join_items(
    piece: PlacedItem,
    vertical: bool,
    first: Vec<PlacedItem>,
    second: Vec<PlacedItem>,
) -> (items: Vec<PlacedItem>)
    requires
        all_inside(
            tiles_of(first@),
            u32::MAX - first_part(0, 0, piece.width as int, piece.height as int, vertical).x,
            u32::MAX - first_part(0, 0, piece.width as int, piece.height as int, vertical).y,
        ),
        all_inside(
            tiles_of(second@),
            u32::MAX - second_part(0, 0, piece.width as int, piece.height as int, vertical).x,
            u32::MAX - second_part(0, 0, piece.width as int, piece.height as int, vertical).y,
        ),
    ensures
        tiles_of(items@) == joined_tiles(piece@, vertical, tiles_of(first@), tiles_of(second@)),
{
    let pw: u32 = piece.width;
    let ph: u32 = piece.height;
    let ghost corner = piece@;
    let mut items: Vec<PlacedItem> = Vec::new();
    items.push(piece);
    assert(tiles_of(items@) =~= seq![corner]);
    if vertical {
        append_moved(&mut items, first, pw, 0);
        append_moved(&mut items, second, 0, ph);
    } else {
        append_moved(&mut items, first, 0, ph);
        append_moved(&mut items, second, pw, 0);
    }
    items
}

} // verus!
