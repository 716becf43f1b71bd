//! Filling the gaps of a layout with pieces that are left.

use crate::free_space::{all_have_edges, has_edges};
use crate::layout::{
    all_apart, all_inside, apart_from, inside, lemma_apart_from, overlap, rises, squares_lie,
};
use crate::order::{
    comes_before, indices, key_values, lemma_order_exists, sort_order, sorts, stable_order,
    taken,
};
use crate::packing::{area_in_range, is_piece, lemma_piece_area};
use crate::pieces::{tiles_of, ElementType, PlacedItem, Tile};
use vstd::prelude::*;

verus! {

/// The first `n` kinds of which pieces are left, in order.
pub open spec fn kinds_left(remaining: Seq<u32>, n: int) -> Seq<int>
    decreases n,
{
    if n <= 0 {
        seq![]
    } else if remaining[n - 1] > 0 {
        kinds_left(remaining, n - 1).push(n - 1)
    } else {
        kinds_left(remaining, n - 1)
    }
}

/// The areas of the given kinds.
pub open spec fn areas(specs: Seq<ElementType>, kinds: Seq<int>) -> Seq<int> {
    kinds.map_values(|k: int| specs[k].area())
}

/// The kinds of which pieces are left, from the smallest area to the largest.
pub open spec fn by_size(specs: Seq<ElementType>, remaining: Seq<u32>) -> Seq<int> {
    let kinds = kinds_left(remaining, remaining.len() as int);
    taken(kinds, stable_order(areas(specs, kinds)))
}

/// A `w` by `h` rectangle at `(x, y)` overlaps none of the given ones.
pub open spec fn is_gap(tiles: Seq<Tile>, w: int, h: int, x: int, y: int) -> bool {
    forall|i: int|
        0 <= i < tiles.len() ==> !overlap(
            Tile { x, y, w, h, name: seq![], rotated: false },
            #[trigger] tiles[i],
        )
}

/// The places that are looked at: those where the rectangle lies on the sheet.
pub open spec fn in_scan(pw: int, ph: int, w: int, h: int, x: int, y: int) -> bool {
    0 <= x && x + w <= pw && 0 <= y && y + h <= ph
}

/// No place that is looked at before `(x, y)` is a gap. They are looked at row by row.
pub open spec fn no_gap_before(
    pw: int,
    ph: int,
    tiles: Seq<Tile>,
    w: int,
    h: int,
    x: int,
    y: int,
) -> bool {
    forall|a: int, b: int|
        in_scan(pw, ph, w, h, a, b) && (b < y || (b == y && a < x)) ==> !#[trigger] is_gap(
            tiles,
            w,
            h,
            a,
            b,
        )
}

/// `(x, y)` is the first gap for a `w` by `h` rectangle.
pub open spec fn is_first_gap(
    pw: int,
    ph: int,
    tiles: Seq<Tile>,
    w: int,
    h: int,
    x: int,
    y: int,
) -> bool {
    &&& in_scan(pw, ph, w, h, x, y)
    &&& is_gap(tiles, w, h, x, y)
    &&& no_gap_before(pw, ph, tiles, w, h, x, y)
}

/// The first gap for a `w` by `h` rectangle on a `pw` by `ph` sheet, if there is one.
pub open spec fn first_gap(pw: int, ph: int, tiles: Seq<Tile>, w: int, h: int) -> Option<
    (int, int),
> {
    if exists|x: int, y: int| is_first_gap(pw, ph, tiles, w, h, x, y) {
        Some(choose|x: int, y: int| is_first_gap(pw, ph, tiles, w, h, x, y))
    } else {
        None
    }
}

/// Where a piece goes: into the first gap for it as it is, else into the first gap for it
/// when it is turned.
pub open spec fn place_for(pw: int, ph: int, tiles: Seq<Tile>, spec: ElementType) -> Option<Tile> {
    match first_gap(pw, ph, tiles, spec.wide(false), spec.high(false)) {
        Some((x, y)) => Some(spec.tile(x, y, false)),
        None => match first_gap(pw, ph, tiles, spec.wide(true), spec.high(true)) {
            Some((x, y)) => Some(spec.tile(x, y, true)),
            None => None,
        },
    }
}

/// The pieces that are added for the first `n` of the given kinds, one of each that has a
/// place.
pub open spec fn filled(
    pw: int,
    ph: int,
    placed: Seq<Tile>,
    specs: Seq<ElementType>,
    kinds: Seq<int>,
    n: int,
) -> Seq<Tile>
    decreases n,
{
    if n <= 0 {
        seq![]
    } else {
        let added = filled(pw, ph, placed, specs, kinds, n - 1);
        match place_for(pw, ph, placed + added, specs[kinds[n - 1]]) {
            Some(t) => added.push(t),
            None => added,
        }
    }
}

/// The pieces that are added to a layout, the smallest kinds first.
pub open spec fn gap_fill(
    pw: int,
    ph: int,
    placed: Seq<Tile>,
    specs: Seq<ElementType>,
    remaining: Seq<u32>,
) -> Seq<Tile> {
    let kinds = by_size(specs, remaining);
    filled(pw, ph, placed, specs, kinds, kinds.len() as int)
}

/// There is only one first gap.
proof fn lemma_first_gap_unique(
    pw: int,
    ph: int,
    tiles: Seq<Tile>,
    w: int,
    h: int,
    x: int,
    y: int,
)
    requires
        is_first_gap(pw, ph, tiles, w, h, x, y),
    ensures
        first_gap(pw, ph, tiles, w, h) == Some((x, y)),
{
    let (a, b) = choose|a: int, b: int| is_first_gap(pw, ph, tiles, w, h, a, b);
    assert(is_first_gap(pw, ph, tiles, w, h, a, b));
    assert(is_gap(tiles, w, h, a, b));
    assert(is_gap(tiles, w, h, x, y));
}

/// Where there is a gap at all, there is a first one.
pub proof fn lemma_first_gap_found(
    pw: int,
    ph: int,
    tiles: Seq<Tile>,
    w: int,
    h: int,
    x: int,
    y: int,
)
    requires
        in_scan(pw, ph, w, h, x, y),
        is_gap(tiles, w, h, x, y),
    ensures
        first_gap(pw, ph, tiles, w, h) is Some,
    decreases y, x,
{
    if no_gap_before(pw, ph, tiles, w, h, x, y) {
        assert(is_first_gap(pw, ph, tiles, w, h, x, y));
    } else {
        let (a, b) = choose|a: int, b: int|
            in_scan(pw, ph, w, h, a, b) && (b < y || (b == y && a < x)) && #[trigger] is_gap(
                tiles,
                w,
                h,
                a,
                b,
            );
        lemma_first_gap_found(pw, ph, tiles, w, h, a, b);
    }
}

/// The kinds that are left are those with a count above zero, each once.
pub proof fn lemma_kinds_left(remaining: Seq<u32>, n: int)
    requires
        0 <= n <= remaining.len(),
    ensures
        forall|k: int|
            0 <= k < kinds_left(remaining, n).len() ==> 0 <= #[trigger] kinds_left(remaining, n)[k]
                < n && remaining[kinds_left(remaining, n)[k]] > 0,
        forall|i: int|
            0 <= i < n && #[trigger] remaining[i] > 0 ==> kinds_left(remaining, n).contains(i),
        forall|a: int, b: int|
            0 <= a < b < kinds_left(remaining, n).len() ==> #[trigger] kinds_left(remaining, n)[a]
                < #[trigger] kinds_left(remaining, n)[b],
    decreases n,
{
    if n > 0 {
        lemma_kinds_left(remaining, n - 1);
        let before = kinds_left(remaining, n - 1);
        let s = kinds_left(remaining, n);
        assert forall|i: int| 0 <= i < n && #[trigger] remaining[i] > 0 implies s.contains(i) by {
            if i < n - 1 {
                let k = choose|k: int| 0 <= k < before.len() && before[k] == i;
                assert(s[k] == i);
            } else {
                assert(s[s.len() - 1] == i);
            }
        }
    }
}

/// Sorting the kinds by size keeps them: each kind that is left comes once, and no other.
pub proof fn lemma_by_size(specs: Seq<ElementType>, remaining: Seq<u32>)
    ensures
        forall|k: int|
            0 <= k < by_size(specs, remaining).len() ==> 0 <= #[trigger] by_size(
                specs,
                remaining,
            )[k] < remaining.len() && remaining[by_size(specs, remaining)[k]] > 0,
        forall|i: int|
            0 <= i < remaining.len() && #[trigger] remaining[i] > 0 ==> by_size(
                specs,
                remaining,
            ).contains(i),
        forall|a: int, b: int|
            0 <= a < b < by_size(specs, remaining).len() ==> #[trigger] by_size(specs, remaining)[a]
                != #[trigger] by_size(specs, remaining)[b],
{
    let kinds = kinds_left(remaining, remaining.len() as int);
    let keys = areas(specs, kinds);
    let order = stable_order(keys);
    lemma_kinds_left(remaining, remaining.len() as int);
    lemma_order_exists(keys);
    let s = by_size(specs, remaining);
    assert forall|i: int| 0 <= i < remaining.len() && #[trigger] remaining[i] > 0 implies s.contains(
        i,
    ) by {
        let k = choose|k: int| 0 <= k < kinds.len() && kinds[k] == i;
        assert(order.contains(k));
        let a = choose|a: int| 0 <= a < order.len() && order[a] == k;
        assert(s[a] == i);
    }
    assert forall|a: int, b: int| 0 <= a < b < s.len() implies #[trigger] s[a]
        != #[trigger] s[b] by {
        assert(s[a] == kinds[order[a]] && s[b] == kinds[order[b]]);
        if order[a] < order[b] {
            assert(kinds[order[a]] < kinds[order[b]]);
        } else {
            assert(kinds[order[b]] < kinds[order[a]]);
        }
    }
}

/// What is known of a place that was found for a piece.
proof fn lemma_place_for(pw: int, ph: int, tiles: Seq<Tile>, spec: ElementType)
    requires
        0 <= pw,
        0 <= ph,
    ensures
        match place_for(pw, ph, tiles, spec) {
            Some(t) => {
                &&& is_piece(t, spec)
                &&& inside(t, pw, ph)
                &&& forall|i: int| 0 <= i < tiles.len() ==> !overlap(t, #[trigger] tiles[i])
            },
            None => {
                forall|x: int, y: int, rotated: bool|
                    #![trigger is_gap(tiles, spec.wide(rotated), spec.high(rotated), x, y)]
                    in_scan(pw, ph, spec.wide(rotated), spec.high(rotated), x, y) ==> !is_gap(
                        tiles,
                        spec.wide(rotated),
                        spec.high(rotated),
                        x,
                        y,
                    )
            },
        },
{
    match place_for(pw, ph, tiles, spec) {
        Some(t) => {
            let w = t.w;
            let h = t.h;
            assert(is_first_gap(pw, ph, tiles, w, h, t.x, t.y));
            assert(is_gap(tiles, w, h, t.x, t.y));
            assert forall|i: int| 0 <= i < tiles.len() implies !overlap(t, #[trigger] tiles[i]) by {
                assert(!overlap(
                    Tile { x: t.x, y: t.y, w, h, name: seq![], rotated: false },
                    tiles[i],
                ));
            }
        },
        None => {
            assert forall|x: int, y: int, rotated: bool|
                #![trigger is_gap(tiles, spec.wide(rotated), spec.high(rotated), x, y)]
                in_scan(pw, ph, spec.wide(rotated), spec.high(rotated), x, y) implies !is_gap(
                tiles,
                spec.wide(rotated),
                spec.high(rotated),
                x,
                y,
            ) by {
                if is_gap(tiles, spec.wide(rotated), spec.high(rotated), x, y) {
                    lemma_first_gap_found(
                        pw,
                        ph,
                        tiles,
                        spec.wide(rotated),
                        spec.high(rotated),
                        x,
                        y,
                    );
                }
            }
        },
    }
}

/// A piece of the given kind has no place among the rectangles, turned or not.
pub open spec fn no_place(pw: int, ph: int, tiles: Seq<Tile>, spec: ElementType) -> bool {
    forall|x: int, y: int, rotated: bool|
        #![trigger is_gap(tiles, spec.wide(rotated), spec.high(rotated), x, y)]
        in_scan(pw, ph, spec.wide(rotated), spec.high(rotated), x, y) ==> !is_gap(
            tiles,
            spec.wide(rotated),
            spec.high(rotated),
            x,
            y,
        )
}

/// A gap among more rectangles is a gap among fewer.
proof fn lemma_no_place_extends(
    pw: int,
    ph: int,
    tiles: Seq<Tile>,
    more: Seq<Tile>,
    spec: ElementType,
)
    requires
        no_place(pw, ph, tiles, spec),
    ensures
        no_place(pw, ph, tiles + more, spec),
{
    assert forall|x: int, y: int, rotated: bool|
        #![trigger is_gap(tiles + more, spec.wide(rotated), spec.high(rotated), x, y)]
        in_scan(pw, ph, spec.wide(rotated), spec.high(rotated), x, y) implies !is_gap(
        tiles + more,
        spec.wide(rotated),
        spec.high(rotated),
        x,
        y,
    ) by {
        assert(!is_gap(tiles, spec.wide(rotated), spec.high(rotated), x, y));
        let i = choose|i: int|
            0 <= i < tiles.len() && overlap(
                Tile {
                    x,
                    y,
                    w: spec.wide(rotated),
                    h: spec.high(rotated),
                    name: seq![],
                    rotated: false,
                },
                #[trigger] tiles[i],
            );
        assert((tiles + more)[i] == tiles[i]);
    }
}

/// What filling does, for the first `n` of the given kinds.
proof fn lemma_filled(
    pw: int,
    ph: int,
    placed: Seq<Tile>,
    specs: Seq<ElementType>,
    kinds: Seq<int>,
    n: int,
) -> (source: Seq<int>)
    requires
        0 <= pw,
        0 <= ph,
        0 <= n <= kinds.len(),
    ensures
        ({
            let added = filled(pw, ph, placed, specs, kinds, n);
            &&& apart_from(placed + added, placed.len() as int)
            &&& source.len() == added.len()
            &&& forall|k: int|
                0 <= k < source.len() ==> 0 <= #[trigger] source[k] < n && is_piece(
                    added[k],
                    specs[kinds[source[k]]],
                )
            &&& forall|a: int, b: int|
                0 <= a < b < source.len() ==> #[trigger] source[a] < #[trigger] source[b]
            &&& all_inside(added, pw, ph)
            &&& forall|m: int|
                0 <= m < n ==> source.contains(m) || no_place(
                    pw,
                    ph,
                    placed + added,
                    specs[#[trigger] kinds[m]],
                )
        }),
    decreases n,
{
    if n <= 0 {
        assert(placed + Seq::<Tile>::empty() =~= placed);
        seq![]
    } else {
        let before = lemma_filled(pw, ph, placed, specs, kinds, n - 1);
        let old_added = filled(pw, ph, placed, specs, kinds, n - 1);
        let added = filled(pw, ph, placed, specs, kinds, n);
        let there = placed + old_added;
        lemma_place_for(pw, ph, there, specs[kinds[n - 1]]);
        match place_for(pw, ph, there, specs[kinds[n - 1]]) {
            Some(t) => {
                let source = before.push(n - 1);
                assert(placed + added =~= there.push(t));
                assert(there.push(t) =~= there + seq![t]);
                let c = there.push(t);
                assert forall|i: int, j: int|
                    0 <= i < j < c.len() && placed.len() <= j implies !overlap(
                    #[trigger] c[i],
                    #[trigger] c[j],
                ) by {
                    assert(c[i] == there[i]);
                    if j < there.len() {
                        assert(c[j] == there[j]);
                    } else {
                        assert(!overlap(t, there[i]));
                    }
                }
                assert forall|m: int| 0 <= m < n implies source.contains(m) || no_place(
                    pw,
                    ph,
                    placed + added,
                    specs[#[trigger] kinds[m]],
                ) by {
                    if m == n - 1 {
                        assert(source[source.len() - 1] == m);
                    } else if before.contains(m) {
                        let k = choose|k: int| 0 <= k < before.len() && before[k] == m;
                        assert(source[k] == m);
                    } else {
                        lemma_no_place_extends(pw, ph, there, seq![t], specs[kinds[m]]);
                    }
                }
                source
            },
            None => { before },
        }
    }
}

/// Pieces that are added overlap neither each other nor those that were there.
pub proof fn lemma_gap_fill_apart(
    pw: int,
    ph: int,
    placed: Seq<Tile>,
    specs: Seq<ElementType>,
    remaining: Seq<u32>,
)
    requires
        0 <= pw,
        0 <= ph,
    ensures
        apart_from(
            placed + gap_fill(pw, ph, placed, specs, remaining),
            placed.len() as int,
        ),
        all_apart(placed) ==> all_apart(placed + gap_fill(pw, ph, placed, specs, remaining)),
{
    let kinds = by_size(specs, remaining);
    let source = lemma_filled(pw, ph, placed, specs, kinds, kinds.len() as int);
    if all_apart(placed) {
        lemma_apart_from(placed, gap_fill(pw, ph, placed, specs, remaining));
    }
}

/// Of the kinds by size, a smaller one comes before a larger one, and equally large ones come as
/// they stand.
proof fn lemma_by_size_rises(specs: Seq<ElementType>, remaining: Seq<u32>)
    ensures
        forall|a: int, b: int|
            0 <= a < b < by_size(specs, remaining).len() ==> {
                let i = #[trigger] by_size(specs, remaining)[a];
                let j = #[trigger] by_size(specs, remaining)[b];
                specs[i].area() < specs[j].area() || (specs[i].area() == specs[j].area() && i < j)
            },
{
    let kinds = kinds_left(remaining, remaining.len() as int);
    let keys = areas(specs, kinds);
    let order = stable_order(keys);
    lemma_order_exists(keys);
    lemma_kinds_left(remaining, remaining.len() as int);
    let s = by_size(specs, remaining);
    assert forall|a: int, b: int| 0 <= a < b < s.len() implies {
        let i = #[trigger] s[a];
        let j = #[trigger] s[b];
        specs[i].area() < specs[j].area() || (specs[i].area() == specs[j].area() && i < j)
    } by {
        assert(comes_before(keys, order[a], order[b]));
        assert(keys[order[a]] == specs[s[a]].area() && keys[order[b]] == specs[s[b]].area());
        if order[a] < order[b] {
            assert(kinds[order[a]] < kinds[order[b]]);
        }
    }
}

/// The pieces that are added come in the order of their areas, the smallest first, and no square
/// is turned.
pub proof fn lemma_gap_fill_order(
    pw: int,
    ph: int,
    placed: Seq<Tile>,
    specs: Seq<ElementType>,
    remaining: Seq<u32>,
)
    requires
        0 <= pw,
        0 <= ph,
    ensures
        rises(gap_fill(pw, ph, placed, specs, remaining)),
        squares_lie(gap_fill(pw, ph, placed, specs, remaining)),
{
    let kinds = by_size(specs, remaining);
    let added = gap_fill(pw, ph, placed, specs, remaining);
    let source = lemma_filled(pw, ph, placed, specs, kinds, kinds.len() as int);
    lemma_by_size_rises(specs, remaining);
    assert forall|a: int, b: int| 0 <= a < b < added.len() implies (#[trigger] added[a]).w
        * added[a].h <= (#[trigger] added[b]).w * added[b].h by {
        assert(source[a] < source[b]);
        lemma_piece_area(added[a], specs[kinds[source[a]]]);
        lemma_piece_area(added[b], specs[kinds[source[b]]]);
    }
    lemma_filled_squares(pw, ph, placed, specs, kinds, kinds.len() as int);
}

proof fn lemma_filled_squares(
    pw: int,
    ph: int,
    placed: Seq<Tile>,
    specs: Seq<ElementType>,
    kinds: Seq<int>,
    n: int,
)
    ensures
        squares_lie(filled(pw, ph, placed, specs, kinds, n)),
    decreases n,
{
    if n > 0 {
        lemma_filled_squares(pw, ph, placed, specs, kinds, n - 1);
        let before = filled(pw, ph, placed, specs, kinds, n - 1);
        let added = filled(pw, ph, placed, specs, kinds, n);
        assert forall|i: int| 0 <= i < added.len() && (#[trigger] added[i]).w
            == added[i].h implies !added[i].rotated by {
            if i < before.len() {
                assert(added[i] == before[i]);
            }
        }
    }
}

/// Every piece that is added lies on the sheet.
pub proof fn lemma_gap_fill_inside(
    pw: int,
    ph: int,
    placed: Seq<Tile>,
    specs: Seq<ElementType>,
    remaining: Seq<u32>,
)
    requires
        0 <= pw,
        0 <= ph,
    ensures
        all_inside(gap_fill(pw, ph, placed, specs, remaining), pw, ph),
{
    let kinds = by_size(specs, remaining);
    let source = lemma_filled(pw, ph, placed, specs, kinds, kinds.len() as int);
}

/// At most one piece of each kind is added, and only of kinds that have pieces left. Of a kind
/// that has pieces left and of which none is added, none could be: it has no place.
pub proof fn lemma_gap_fill_kinds(
    pw: int,
    ph: int,
    placed: Seq<Tile>,
    specs: Seq<ElementType>,
    remaining: Seq<u32>,
) -> (kinds: Seq<int>)
    requires
        0 <= pw,
        0 <= ph,
    ensures
        ({
            let added = gap_fill(pw, ph, placed, specs, remaining);
            &&& kinds.len() == added.len()
            &&& forall|k: int|
                0 <= k < kinds.len() ==> 0 <= #[trigger] kinds[k] < remaining.len()
                    && remaining[kinds[k]] > 0 && is_piece(added[k], specs[kinds[k]])
            &&& forall|a: int, b: int|
                0 <= a < b < kinds.len() ==> #[trigger] kinds[a] != #[trigger] kinds[b]
            &&& forall|i: int|
                0 <= i < remaining.len() && #[trigger] remaining[i] > 0 ==> kinds.contains(i)
                    || no_place(pw, ph, placed + added, specs[i])
        }),
{
    let all = by_size(specs, remaining);
    let added = gap_fill(pw, ph, placed, specs, remaining);
    let source = lemma_filled(pw, ph, placed, specs, all, all.len() as int);
    lemma_by_size(specs, remaining);
    let kinds = source.map_values(|m: int| all[m]);
    assert forall|k: int| 0 <= k < kinds.len() implies 0 <= #[trigger] kinds[k] < remaining.len()
        && remaining[kinds[k]] > 0 && is_piece(added[k], specs[kinds[k]]) by {
        assert(kinds[k] == all[source[k]]);
    }
    assert forall|a: int, b: int| 0 <= a < b < kinds.len() implies #[trigger] kinds[a]
        != #[trigger] kinds[b] by {
        assert(source[a] < source[b]);
        assert(all[source[a]] != all[source[b]]);
    }
    assert forall|i: int| 0 <= i < remaining.len() && #[trigger] remaining[i]
        > 0 implies kinds.contains(i) || no_place(pw, ph, placed + added, specs[i]) by {
        let m = choose|m: int| 0 <= m < all.len() && all[m] == i;
        if source.contains(m) {
            let k = choose|k: int| 0 <= k < source.len() && source[k] == m;
            assert(kinds[k] == i);
        }
    }
    kinds
}

/// A piece of the kind overlaps none of the given ones and lies on the sheet.
pub open spec fn has_room(
    pw: int,
    ph: int,
    tiles: Seq<Tile>,
    spec: ElementType,
    t: Tile,
) -> bool {
    &&& t.name == spec.name@
    &&& t.w == (if t.rotated {
        spec.height
    } else {
        spec.width
    })
    &&& t.h == (if t.rotated {
        spec.width
    } else {
        spec.height
    })
    &&& inside(t, pw, ph)
    &&& forall|i: int| 0 <= i < tiles.len() ==> !overlap(t, #[trigger] tiles[i])
}

/// A piece goes where there is room for it: it stays as it is unless there is room for it only
/// when it is turned, and of the places in that way it has the topmost one, and of these the
/// leftmost one. Only where there is no room at all is no piece added.
pub proof fn lemma_place_exact(pw: int, ph: int, tiles: Seq<Tile>, spec: ElementType)
    requires
        0 <= pw,
        0 <= ph,
    ensures
        match place_for(pw, ph, tiles, spec) {
            Some(t) => {
                &&& has_room(pw, ph, tiles, spec, t)
                &&& forall|u: Tile| #[trigger]
                    has_room(pw, ph, tiles, spec, u) ==> {
                        &&& t.rotated ==> u.rotated
                        &&& u.rotated == t.rotated ==> t.y < u.y || (t.y == u.y && t.x <= u.x)
                    }
            },
            None => forall|u: Tile| !#[trigger] has_room(pw, ph, tiles, spec, u),
        },
{
    assert forall|u: Tile| #[trigger] has_room(pw, ph, tiles, spec, u) implies in_scan(
        pw,
        ph,
        u.w,
        u.h,
        u.x,
        u.y,
    ) && is_gap(tiles, u.w, u.h, u.x, u.y) && u.w == spec.wide(u.rotated) && u.h == spec.high(
        u.rotated,
    ) && first_gap(pw, ph, tiles, u.w, u.h) is Some by {
        assert forall|i: int| 0 <= i < tiles.len() implies !overlap(
            Tile { x: u.x, y: u.y, w: u.w, h: u.h, name: seq![], rotated: false },
            #[trigger] tiles[i],
        ) by {
            assert(!overlap(u, tiles[i]));
        }
        lemma_first_gap_found(pw, ph, tiles, u.w, u.h, u.x, u.y);
    }
    lemma_place_for(pw, ph, tiles, spec);
    if let Some(t) = place_for(pw, ph, tiles, spec) {
        assert(is_first_gap(pw, ph, tiles, t.w, t.h, t.x, t.y));
        assert forall|u: Tile| #[trigger] has_room(pw, ph, tiles, spec, u) implies {
            &&& t.rotated ==> u.rotated
            &&& u.rotated == t.rotated ==> t.y < u.y || (t.y == u.y && t.x <= u.x)
        } by {
            assert(is_gap(tiles, u.w, u.h, u.x, u.y));
        }
    }
}

/// What filling does, piece by piece.
proof fn lemma_filled_exact(
    pw: int,
    ph: int,
    placed: Seq<Tile>,
    specs: Seq<ElementType>,
    kinds: Seq<int>,
    n: int,
)
    requires
        0 <= pw,
        0 <= ph,
        0 <= n <= kinds.len(),
    ensures
        forall|m: int, u: Tile|
            0 <= m < n && !(exists|k: int|
                0 <= k < filled(pw, ph, placed, specs, kinds, n).len() && is_piece(
                    #[trigger] filled(pw, ph, placed, specs, kinds, n)[k],
                    specs[kinds[m]],
                )) ==> !#[trigger] has_room(
                pw,
                ph,
                placed + filled(pw, ph, placed, specs, kinds, n),
                specs[#[trigger] kinds[m]],
                u,
            ),
    decreases n,
{
    if n > 0 {
        lemma_filled_exact(pw, ph, placed, specs, kinds, n - 1);
        let before = filled(pw, ph, placed, specs, kinds, n - 1);
        let added = filled(pw, ph, placed, specs, kinds, n);
        let there = placed + before;
        let all = placed + added;
        lemma_place_exact(pw, ph, there, specs[kinds[n - 1]]);
        assert forall|m: int, u: Tile|
            0 <= m < n && !(exists|k: int|
                0 <= k < added.len() && is_piece(#[trigger] added[k], specs[kinds[m]]))
                implies !#[trigger] has_room(pw, ph, all, specs[#[trigger] kinds[m]], u) by {
            if has_room(pw, ph, all, specs[kinds[m]], u) {
                assert forall|i: int| 0 <= i < there.len() implies !overlap(
                    u,
                    #[trigger] there[i],
                ) by {
                    assert(all[i] == there[i]);
                }
                assert(has_room(pw, ph, there, specs[kinds[m]], u));
                if m == n - 1 {
                    assert(is_piece(added[before.len() as int], specs[kinds[m]]));
                } else if exists|k: int|
                    0 <= k < before.len() && is_piece(#[trigger] before[k], specs[kinds[m]]) {
                    let k = choose|k: int|
                        0 <= k < before.len() && is_piece(#[trigger] before[k], specs[kinds[m]]);
                    assert(added[k] == before[k]);
                }
            }
        }
    }
}

/// The pieces that are added are of different kinds that have pieces left. Smaller pieces come
/// before larger ones, and equally large ones in the order of their kinds.
pub proof fn lemma_gap_fill_sequence(
    pw: int,
    ph: int,
    placed: Seq<Tile>,
    specs: Seq<ElementType>,
    remaining: Seq<u32>,
) -> (kinds: Seq<int>)
    requires
        0 <= pw,
        0 <= ph,
    ensures
        kinds.len() == gap_fill(pw, ph, placed, specs, remaining).len(),
        forall|k: int|
            0 <= k < kinds.len() ==> {
                let t = gap_fill(pw, ph, placed, specs, remaining)[k];
                &&& 0 <= #[trigger] kinds[k] < remaining.len()
                &&& remaining[kinds[k]] > 0
                &&& t == specs[kinds[k]].tile(t.x, t.y, t.rotated)
            },
        forall|a: int, b: int|
            0 <= a < b < kinds.len() ==> {
                let d = specs[#[trigger] kinds[a]];
                let e = specs[#[trigger] kinds[b]];
                ||| d.width * d.height < e.width * e.height
                ||| d.width * d.height == e.width * e.height && kinds[a] < kinds[b]
            },
{
    let all = by_size(specs, remaining);
    let added = gap_fill(pw, ph, placed, specs, remaining);
    let source = lemma_filled(pw, ph, placed, specs, all, all.len() as int);
    lemma_by_size(specs, remaining);
    lemma_by_size_rises(specs, remaining);
    let kinds = source.map_values(|m: int| all[m]);
    assert forall|k: int| 0 <= k < kinds.len() implies {
        let t = added[k];
        &&& 0 <= #[trigger] kinds[k] < remaining.len()
        &&& remaining[kinds[k]] > 0
        &&& t == specs[kinds[k]].tile(t.x, t.y, t.rotated)
    } by {
        assert(kinds[k] == all[source[k]]);
        assert(is_piece(added[k], specs[all[source[k]]]));
    }
    assert forall|a: int, b: int| 0 <= a < b < kinds.len() implies {
        let d = specs[#[trigger] kinds[a]];
        let e = specs[#[trigger] kinds[b]];
        ||| d.width * d.height < e.width * e.height
        ||| d.width * d.height == e.width * e.height && kinds[a] < kinds[b]
    } by {
        assert(source[a] < source[b]);
        assert(kinds[a] == all[source[a]] && kinds[b] == all[source[b]]);
    }
    kinds
}

/// A piece that is added was put in its place when those before it lay there.
proof fn lemma_filled_at(
    pw: int,
    ph: int,
    placed: Seq<Tile>,
    specs: Seq<ElementType>,
    kinds: Seq<int>,
    n: int,
    k: int,
) -> (m: int)
    requires
        0 <= n <= kinds.len(),
        0 <= k < filled(pw, ph, placed, specs, kinds, n).len(),
    ensures
        0 <= m < n,
        place_for(
            pw,
            ph,
            placed + filled(pw, ph, placed, specs, kinds, n).take(k),
            specs[kinds[m]],
        ) == Some(filled(pw, ph, placed, specs, kinds, n)[k]),
    decreases n,
{
    let before = filled(pw, ph, placed, specs, kinds, n - 1);
    let added = filled(pw, ph, placed, specs, kinds, n);
    if k < before.len() {
        assert(added.take(k) =~= before.take(k));
        assert(added[k] == before[k]);
        lemma_filled_at(pw, ph, placed, specs, kinds, n - 1, k)
    } else {
        assert(added.take(k) =~= before);
        n - 1
    }
}

/// Each piece that is added is of a kind that has pieces left and lies where there was room for it
/// among those that were there and those added before it. There was no room further up, nor as far
/// up and further to the left, and it is turned only if there was no room for it as it is.
pub proof fn lemma_gap_fill_places(
    pw: int,
    ph: int,
    placed: Seq<Tile>,
    specs: Seq<ElementType>,
    remaining: Seq<u32>,
    k: int,
) -> (i: int)
    requires
        0 <= pw,
        0 <= ph,
        0 <= k < gap_fill(pw, ph, placed, specs, remaining).len(),
    ensures
        0 <= i < remaining.len(),
        remaining[i] > 0,
        ({
            let added = gap_fill(pw, ph, placed, specs, remaining);
            let there = placed + added.take(k);
            let t = added[k];
            &&& has_room(pw, ph, there, specs[i], t)
            &&& forall|u: Tile| #[trigger]
                has_room(pw, ph, there, specs[i], u) ==> {
                    &&& t.rotated ==> u.rotated
                    &&& u.rotated == t.rotated ==> t.y < u.y || (t.y == u.y && t.x <= u.x)
                }
        }),
{
    let kinds = by_size(specs, remaining);
    lemma_by_size(specs, remaining);
    let m = lemma_filled_at(pw, ph, placed, specs, kinds, kinds.len() as int, k);
    let added = gap_fill(pw, ph, placed, specs, remaining);
    lemma_place_exact(pw, ph, placed + added.take(k), specs[kinds[m]]);
    kinds[m]
}

/// Of a kind that has pieces left and of which none is added, none could be: wherever on the
/// sheet and whichever way it lay, it would overlap a piece that is there.
pub proof fn lemma_gap_fill_complete(
    pw: int,
    ph: int,
    placed: Seq<Tile>,
    specs: Seq<ElementType>,
    remaining: Seq<u32>,
    i: int,
    u: Tile,
)
    requires
        0 <= pw,
        0 <= ph,
        0 <= i < remaining.len(),
        remaining[i] > 0,
        forall|k: int|
            0 <= k < gap_fill(pw, ph, placed, specs, remaining).len() ==> {
                let t = #[trigger] gap_fill(pw, ph, placed, specs, remaining)[k];
                t != specs[i].tile(t.x, t.y, t.rotated)
            },
    ensures
        !has_room(
            pw,
            ph,
            placed + gap_fill(pw, ph, placed, specs, remaining),
            specs[i],
            u,
        ),
{
    let kinds = by_size(specs, remaining);
    lemma_by_size(specs, remaining);
    lemma_filled_exact(pw, ph, placed, specs, kinds, kinds.len() as int);
    let m = choose|m: int| 0 <= m < kinds.len() && kinds[m] == i;
    assert(0 <= kinds[m]);
}

/// Whether a `w` by `h` rectangle at `(x, y)` overlaps none of the items.
fn overlaps_none(items: &[PlacedItem], x: u32, y: u32, w: u32, h: u32) -> (r: bool)
    requires
        all_have_edges(tiles_of(items@)),
        x + w <= u32::MAX,
        y + h <= u32::MAX,
    ensures
        r == is_gap(tiles_of(items@), w as int, h as int, x as int, y as int),
{
    let ghost tiles = tiles_of(items@);
    let ghost probe = Tile {
        x: x as int,
        y: y as int,
        w: w as int,
        h: h as int,
        name: seq![],
        rotated: false,
    };
    let mut i: usize = 0;
    while i < items.len()
        invariant
            i <= items.len(),
            tiles == tiles_of(items@),
            all_have_edges(tiles),
            x + w <= u32::MAX,
            y + h <= u32::MAX,
            probe == (Tile {
                x: x as int,
                y: y as int,
                w: w as int,
                h: h as int,
                name: seq![],
                rotated: false,
            }),
            forall|k: int| 0 <= k < i ==> !overlap(probe, #[trigger] tiles[k]),
        decreases items.len() - i,
    {
        let item = &items[i];
        assert(tiles[i as int] == item@);
        if x < item.x + item.width && x + w > item.x && y < item.y + item.height && y + h
            > item.y {
            assert(overlap(probe, tiles[i as int]));
            return false;
        }
        i = i + 1;
    }
    true
}

/// The first gap for a `w` by `h` rectangle among the placed and the added pieces.
fn find_gap(
    page_width: u32,
    page_height: u32,
    placed: &[PlacedItem],
    added: &[PlacedItem],
    w: u32,
    h: u32,
) -> (r: Option<(u32, u32)>)
    requires
        all_have_edges(tiles_of(placed@)),
        all_have_edges(tiles_of(added@)),
    ensures
        first_gap(
            page_width as int,
            page_height as int,
            tiles_of(placed@) + tiles_of(added@),
            w as int,
            h as int,
        ) == (match r {
            Some((x, y)) => Some((x as int, y as int)),
            None => None,
        }),
{
    let ghost pw = page_width as int;
    let ghost ph = page_height as int;
    let ghost tiles = tiles_of(placed@) + tiles_of(added@);
    if w > page_width || h > page_height {
        assert forall|a: int, b: int| !is_first_gap(pw, ph, tiles, w as int, h as int, a, b) by {}
        return None;
    }
    let limit_x: u32 = page_width - w;
    let limit_y: u32 = page_height - h;
    let mut y: u64 = 0;
    while y <= limit_y as u64
        invariant
            y <= limit_y + 1,
            pw == page_width,
            ph == page_height,
            limit_x == pw - w,
            limit_y == ph - h,
            tiles == tiles_of(placed@) + tiles_of(added@),
            all_have_edges(tiles_of(placed@)),
            all_have_edges(tiles_of(added@)),
            no_gap_before(pw, ph, tiles, w as int, h as int, 0, y as int),
        decreases limit_y + 1 - y,
    {
        let mut x: u64 = 0;
        while x <= limit_x as u64
            invariant
                x <= limit_x + 1,
                y <= limit_y,
                pw == page_width,
                ph == page_height,
                limit_x == pw - w,
                limit_y == ph - h,
                tiles == tiles_of(placed@) + tiles_of(added@),
                all_have_edges(tiles_of(placed@)),
                all_have_edges(tiles_of(added@)),
                no_gap_before(pw, ph, tiles, w as int, h as int, x as int, y as int),
            decreases limit_x + 1 - x,
        {
            let px: u32 = x as u32;
            let py: u32 = y as u32;
            let clear_placed = overlaps_none(placed, px, py, w, h);
            let clear_added = overlaps_none(added, px, py, w, h);
            proof {
                lemma_gap_concat(
                    tiles_of(placed@),
                    tiles_of(added@),
                    w as int,
                    h as int,
                    x as int,
                    y as int,
                );
            }
            if clear_placed && clear_added {
                proof {
                    assert(is_first_gap(
                        pw,
                        ph,
                        tiles,
                        w as int,
                        h as int,
                        px as int,
                        py as int,
                    ));
                    lemma_first_gap_unique(
                        pw,
                        ph,
                        tiles,
                        w as int,
                        h as int,
                        px as int,
                        py as int,
                    );
                }
                return Some((px, py));
            }
            x = x + 1;
        }
        y = y + 1;
    }
    proof {
        assert forall|a: int, b: int| !is_first_gap(
            pw,
            ph,
            tiles,
            w as int,
            h as int,
            a,
            b,
        ) by {
            if is_first_gap(pw, ph, tiles, w as int, h as int, a, b) {
                assert(is_gap(tiles, w as int, h as int, a, b));
            }
        }
    }
    None
}

/// A gap among two lists of rectangles is a gap in both.
proof fn lemma_gap_concat(a: Seq<Tile>, b: Seq<Tile>, w: int, h: int, x: int, y: int)
    ensures
        is_gap(a + b, w, h, x, y) == (is_gap(a, w, h, x, y) && is_gap(b, w, h, x, y)),
{
    let c = a + b;
    let probe = Tile { x, y, w, h, name: seq![], rotated: false };
    if is_gap(c, w, h, x, y) {
        assert forall|i: int| 0 <= i < a.len() implies !overlap(probe, #[trigger] a[i]) by {
            assert(c[i] == a[i]);
        }
        assert forall|i: int| 0 <= i < b.len() implies !overlap(probe, #[trigger] b[i]) by {
            assert(c[a.len() + i] == b[i]);
        }
    }
}

/// The kinds of which pieces are left, from the smallest area to the largest.
fn sorted_kinds(specs: &[ElementType], remaining: &[u32]) -> (kinds: Vec<usize>)
    requires
        area_in_range(specs@, remaining@),
    ensures
        indices(kinds@) == by_size(specs@, remaining@),
{
    let ghost all = kinds_left(remaining@, remaining.len() as int);
    let mut left: Vec<usize> = Vec::new();
    let mut keys: Vec<i128> = Vec::new();
    let mut i: usize = 0;
    while i < remaining.len()
        invariant
            i <= remaining.len(),
            area_in_range(specs@, remaining@),
            indices(left@) == kinds_left(remaining@, i as int),
            key_values(keys@) == areas(specs@, kinds_left(remaining@, i as int)),
        decreases remaining.len() - i,
    {
        if remaining[i] > 0 {
            let ghost before = indices(left@);
            let ghost old_keys = key_values(keys@);
            assert(0 <= specs[i as int].width * specs[i as int].height) by (nonlinear_arith);
            let area: u32 = specs[i].width * specs[i].height;
            left.push(i);
            keys.push(area as i128);
            assert(indices(left@) =~= before.push(i as int));
            assert(key_values(keys@) =~= old_keys.push(specs[i as int].area()));
            assert(areas(specs@, kinds_left(remaining@, i + 1)) =~= old_keys.push(
                specs[i as int].area(),
            ));
        }
        i = i + 1;
    }
    let order = sort_order(&keys);
    let mut kinds: Vec<usize> = Vec::new();
    let mut k: usize = 0;
    while k < order.len()
        invariant
            k <= order.len(),
            all == indices(left@),
            sorts(indices(order@), areas(specs@, all)),
            indices(kinds@) == taken(all, indices(order@)).take(k as int),
        decreases order.len() - k,
    {
        assert(indices(order@)[k as int] == order[k as int]);
        let ghost before = indices(kinds@);
        kinds.push(left[order[k]]);
        assert(indices(kinds@) =~= before.push(all[order[k as int] as int]));
        assert(taken(all, indices(order@)).take(k + 1) =~= taken(all, indices(order@)).take(
            k as int,
        ).push(all[order[k as int] as int]));
        k = k + 1;
    }
    assert(taken(all, indices(order@)).take(k as int) =~= taken(all, indices(order@)));
    kinds
}

/// Tries to fill the gaps of a layout with pieces that are left, at most one of each kind, the
/// smallest kinds first. Returns the pieces that were added, if there are any.
pub fn try_fill_gaps(
    page_width: u32,
    page_height: u32,
    placed: &[PlacedItem],
    specs: &[ElementType],
    remaining: &[u32],
) -> (r: Option<Vec<PlacedItem>>)
    requires
        all_have_edges(tiles_of(placed@)),
        area_in_range(specs@, remaining@),
    ensures
        ({
            let added = gap_fill(
                page_width as int,
                page_height as int,
                tiles_of(placed@),
                specs@,
                remaining@,
            );
            match r {
                Some(items) => tiles_of(items@) == added && added.len() > 0,
                None => added.len() == 0,
            }
        }),
        r matches Some(items) ==> all_inside(
            tiles_of(items@),
            page_width as int,
            page_height as int,
        ),
{
    let ghost pw = page_width as int;
    let ghost ph = page_height as int;
    let ghost there = tiles_of(placed@);
    let kinds = sorted_kinds(specs, remaining);
    let ghost order = indices(kinds@);
    proof {
        lemma_by_size(specs@, remaining@);
    }
    let mut added: Vec<PlacedItem> = Vec::new();
    assert(tiles_of(added@) =~= seq![]);
    let mut n: usize = 0;
    while n < kinds.len()
        invariant
            n <= kinds.len(),
            pw == page_width,
            ph == page_height,
            there == tiles_of(placed@),
            all_have_edges(there),
            area_in_range(specs@, remaining@),
            order == indices(kinds@),
            forall|k: int|
                0 <= k < order.len() ==> 0 <= #[trigger] order[k] < remaining.len()
                    && remaining[order[k]] > 0,
            tiles_of(added@) == filled(pw, ph, there, specs@, order, n as int),
            all_have_edges(tiles_of(added@)),
        decreases kinds.len() - n,
    {
        let i: usize = kinds[n];
        assert(order[n as int] == i);
        assert(remaining[i as int] > 0);
        let spec = &specs[i];
        let ghost before = tiles_of(added@);
        let mut rotated = false;
        let mut place = find_gap(
            page_width,
            page_height,
            placed,
            added.as_slice(),
            spec.width,
            spec.height,
        );
        if place.is_none() {
            rotated = true;
            place = find_gap(
                page_width,
                page_height,
                placed,
                added.as_slice(),
                spec.height,
                spec.width,
            );
        }
        proof {
            lemma_place_for(pw, ph, there + before, *spec);
        }
        match place {
            Some((x, y)) => {
                let w: u32 = if rotated {
                    spec.height
                } else {
                    spec.width
                };
                let h: u32 = if rotated {
                    spec.width
                } else {
                    spec.height
                };
                added.push(
                    PlacedItem { x, y, width: w, height: h, name: spec.name.clone(), rotated },
                );
                proof {
                    let t = spec.tile(x as int, y as int, rotated);
                    assert(tiles_of(added@) =~= before.push(t));
                    assert(place_for(pw, ph, there + before, *spec) == Some(t));
                    assert forall|k: int| 0 <= k < before.push(t).len() implies has_edges(
                        #[trigger] before.push(t)[k],
                    ) by {
                        if k < before.len() {
                            assert(has_edges(before[k]));
                        }
                    }
                }
            },
            None => {},
        }
        n = n + 1;
    }
    proof {
        lemma_gap_fill_inside(pw, ph, there, specs@, remaining@);
    }
    if added.len() > 0 {
        Some(added)
    } else {
        None
    }
}

} // verus!
