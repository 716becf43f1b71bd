//! The exhaustive search of a whole sheet, one piece in the corner per thread.

use crate::candidates::fits;
use crate::exhaustive::{
    areas_fit, attempt, best_cut, best_of, choices, lemma_areas_fit, lemma_attempt,
    lemma_best_cut, lemma_openings, list_openings, openings, openings_of, try_cut, Opening,
};
use crate::exhaustive_memo::MemoCache;
use crate::kinds::{
    counts_of, distinct_areas, largest_first, lemma_largest_first_reordered, lemma_ordered,
    lemma_ordered_from, lemma_ordered_to, lemma_reordered_distinct, size_keys, sort_by_size,
    wanted,
};
use crate::layout::{
    accounted, area_of, blank, is_packing, lemma_accounted_within, lemma_blank,
    lemma_guillotine_packing, Layout,
};
use crate::parallel::map_in_parallel;
use crate::pieces::{lemma_total_zero, tiles_of, total, ElementType, PlacedItem, Tile};
use crate::search::Plan;
use crate::tally::{
    distinct_names, lemma_named_accounted, lemma_named_foreign, named, placed_counts,
    tally_placed, tally_unplaced, tally_wanted, unplaced_counts, wanted_counts, Tally,
};
use vstd::prelude::*;

verus! {

/// The pieces on a sheet, and the area that they cover.
pub struct Scheme {
    pub tiles: Seq<Tile>,
    pub area: int,
}

/// The scheme of a layout.
pub open spec fn scheme_of(layout: Layout) -> Scheme {
    Scheme { tiles: layout.tiles, area: layout.area }
}

/// The better of the two schemes that start with the given piece in the corner of a `w` by `h`
/// sheet. Of equally good ones it is the one with the horizontal cut.
pub open spec fn first_level(
    specs: Seq<ElementType>,
    w: int,
    h: int,
    counts: Seq<u32>,
    o: Opening,
) -> Scheme {
    if !fits(specs[o.kind], o.rotated, w, h) {
        Scheme { tiles: Seq::empty(), area: 0 }
    } else {
        let one = attempt(
            specs,
            w,
            h,
            counts,
            Plan { kind: o.kind, rotated: o.rotated, vertical: true },
        );
        let two = attempt(
            specs,
            w,
            h,
            counts,
            Plan { kind: o.kind, rotated: o.rotated, vertical: false },
        );
        if one.area > two.area {
            scheme_of(one)
        } else {
            scheme_of(two)
        }
    }
}

/// The best of the schemes that start with the first `n` of the given pieces. Of equally good
/// ones the last one counts.
pub open spec fn last_best(
    specs: Seq<ElementType>,
    w: int,
    h: int,
    counts: Seq<u32>,
    list: Seq<Opening>,
    n: int,
) -> Scheme
    decreases n,
{
    if n <= 0 {
        Scheme { tiles: Seq::empty(), area: 0 }
    } else {
        let before = last_best(specs, w, h, counts, list, n - 1);
        let found = first_level(specs, w, h, counts, list[n - 1]);
        if found.area >= before.area {
            found
        } else {
            before
        }
    }
}

/// The pieces that can go into the corner of the sheet.
pub open spec fn first_openings(elements: Seq<ElementType>, w: int, h: int) -> Seq<Opening> {
    let specs = largest_first(elements);
    openings(specs, wanted(specs), w, h, specs.len() as int)
}

/// The scheme that is found for a `w` by `h` sheet.
pub open spec fn optimum(elements: Seq<ElementType>, w: int, h: int) -> Scheme {
    let specs = largest_first(elements);
    let list = first_openings(elements, w, h);
    last_best(specs, w, h, wanted(specs), list, list.len() as int)
}

/// A scheme that can be cut with cuts from edge to edge, with no more pieces of any kind than
/// are wanted.
pub open spec fn is_feasible(
    specs: Seq<ElementType>,
    w: int,
    h: int,
    counts: Seq<u32>,
    scheme: Scheme,
) -> bool {
    exists|layout: Layout|
        #[trigger] accounted(specs, w, h, counts, layout) && scheme_of(layout) == scheme
}

/// A scheme that starts with a piece that fits is feasible.
proof fn lemma_first_level(
    specs: Seq<ElementType>,
    w: int,
    h: int,
    counts: Seq<u32>,
    o: Opening,
)
    requires
        0 <= o.kind < specs.len() <= counts.len(),
        counts[o.kind] > 0,
    ensures
        is_feasible(specs, w, h, counts, first_level(specs, w, h, counts, o)),
{
    if fits(specs[o.kind], o.rotated, w, h) {
        let v = Plan { kind: o.kind, rotated: o.rotated, vertical: true };
        let u = Plan { kind: o.kind, rotated: o.rotated, vertical: false };
        lemma_attempt(specs, w, h, counts, v);
        lemma_attempt(specs, w, h, counts, u);
    } else {
        lemma_blank(specs, w, h, counts);
        assert(scheme_of(blank(counts)) == first_level(specs, w, h, counts, o));
    }
}

/// The best of the schemes is feasible, and no worse than any of them.
proof fn lemma_last_best(
    specs: Seq<ElementType>,
    w: int,
    h: int,
    counts: Seq<u32>,
    list: Seq<Opening>,
    n: int,
)
    requires
        specs.len() <= counts.len(),
        0 <= n <= list.len(),
        forall|k: int|
            0 <= k < list.len() ==> 0 <= (#[trigger] list[k]).kind < specs.len()
                && counts[list[k].kind] > 0,
    ensures
        is_feasible(specs, w, h, counts, last_best(specs, w, h, counts, list, n)),
        forall|k: int|
            0 <= k < n ==> last_best(specs, w, h, counts, list, n).area >= first_level(
                specs,
                w,
                h,
                counts,
                #[trigger] list[k],
            ).area,
        n == 0 || last_best(specs, w, h, counts, list, n).area == 0 || exists|k: int|
            0 <= k < n && last_best(specs, w, h, counts, list, n) == first_level(
                specs,
                w,
                h,
                counts,
                #[trigger] list[k],
            ),
        last_best(specs, w, h, counts, list, n).area >= 0,
    decreases n,
{
    if n <= 0 {
        lemma_blank(specs, w, h, counts);
        assert(scheme_of(blank(counts)) == last_best(specs, w, h, counts, list, n));
    } else {
        lemma_last_best(specs, w, h, counts, list, n - 1);
        lemma_first_level(specs, w, h, counts, list[n - 1]);
    }
}

/// The area of the best of the plans is the area of the best of the schemes.
proof fn lemma_same_area(
    specs: Seq<ElementType>,
    w: int,
    h: int,
    counts: Seq<u32>,
    list: Seq<Opening>,
    n: int,
)
    requires
        0 <= n <= list.len(),
        forall|k: int|
            0 <= k < list.len() ==> fits(
                specs[(#[trigger] list[k]).kind],
                list[k].rotated,
                w,
                h,
            ),
    ensures
        best_of(specs, w, h, counts, choices(list), 2 * n).area == last_best(
            specs,
            w,
            h,
            counts,
            list,
            n,
        ).area,
    decreases n,
{
    if n > 0 {
        lemma_same_area(specs, w, h, counts, list, n - 1);
        let plans = choices(list);
        let o = list[n - 1];
        assert((2 * n - 2) / 2 == n - 1 && (2 * n - 1) / 2 == n - 1);
        assert(plans[2 * n - 2] == (Plan { kind: o.kind, rotated: o.rotated, vertical: true }));
        assert(plans[2 * n - 1] == (Plan { kind: o.kind, rotated: o.rotated, vertical: false }));
        reveal_with_fuel(best_of, 3);
    }
}

/// What is found for a sheet can be cut with cuts from edge to edge, with no more pieces than
/// are wanted. It is as good as what one search of the whole sheet finds.
pub proof fn lemma_optimum(elements: Seq<ElementType>, w: int, h: int)
    requires
        0 <= w,
        0 <= h,
    ensures
        ({
            let specs = largest_first(elements);
            let found = optimum(elements, w, h);
            &&& is_feasible(specs, w, h, wanted(specs), found)
            &&& is_packing(found.tiles, w, h)
            &&& found.area == area_of(found.tiles)
            &&& 0 <= found.area <= w * h
            &&& found.area == best_cut(specs, w, h, wanted(specs)).area
        }),
{
    let specs = largest_first(elements);
    let counts = wanted(specs);
    let list = first_openings(elements, w, h);
    let found = optimum(elements, w, h);
    lemma_openings(specs, counts, w, h, specs.len() as int);
    lemma_last_best(specs, w, h, counts, list, list.len() as int);
    let layout = choose|layout: Layout| #[trigger]
        accounted(specs, w, h, counts, layout) && scheme_of(layout) == found;
    lemma_accounted_within(specs, w, h, counts, layout);
    lemma_guillotine_packing(specs, w, h, layout);
    lemma_same_area(specs, w, h, counts, list, list.len() as int);
    let whole = best_cut(specs, w, h, counts);
    lemma_best_cut(specs, w, h, counts);
    lemma_accounted_within(specs, w, h, counts, whole);
    lemma_guillotine_packing(specs, w, h, whole);
    if w == 0 || h == 0 {
        assert(w * h == 0) by (nonlinear_arith)
            requires
                w == 0 || h == 0,
        ;
    } else if total(counts) == 0 {
        lemma_total_zero(counts);
        if list.len() > 0 {
            assert(counts[list[0].kind] > 0);
        }
    }
}

/// If no two kinds have the same name, what is found for a sheet has no more pieces with the
/// name of a kind than that kind wants.
pub proof fn lemma_optimum_names(elements: Seq<ElementType>, w: int, h: int, i: int)
    requires
        0 <= w,
        0 <= h,
        distinct_names(elements),
        0 <= i < elements.len(),
    ensures
        named(optimum(elements, w, h).tiles, elements[i].name@) <= elements[i].count,
{
    let specs = largest_first(elements);
    let counts = wanted(specs);
    let found = optimum(elements, w, h);
    lemma_ordered(elements, size_keys(elements));
    lemma_optimum(elements, w, h);
    let layout = choose|layout: Layout| #[trigger]
        accounted(specs, w, h, counts, layout) && scheme_of(layout) == found;
    let j = lemma_ordered_to(elements, size_keys(elements), i);
    lemma_named_accounted(specs, w, h, counts, layout, j);
}

/// Every name that comes up on the sheet is the name of a kind.
proof fn lemma_optimum_foreign(elements: Seq<ElementType>, w: int, h: int, name: Seq<char>)
    requires
        0 <= w,
        0 <= h,
        forall|i: int| 0 <= i < elements.len() ==> (#[trigger] elements[i]).name@ != name,
    ensures
        named(optimum(elements, w, h).tiles, name) == 0,
{
    let specs = largest_first(elements);
    let counts = wanted(specs);
    let found = optimum(elements, w, h);
    lemma_ordered(elements, size_keys(elements));
    lemma_optimum(elements, w, h);
    let layout = choose|layout: Layout| #[trigger]
        accounted(specs, w, h, counts, layout) && scheme_of(layout) == found;
    assert forall|j: int| 0 <= j < specs.len() implies (#[trigger] specs[j]).name@ != name by {
        let i = lemma_ordered_from(elements, size_keys(elements), j);
        assert(elements[i].name@ != name);
    }
    lemma_named_foreign(specs, w, h, counts, layout, name);
}

/// If no two kinds have the same name, the pieces of a kind that are placed and those that are
/// listed as not placed are the pieces that the kind wants.
pub proof fn lemma_unplaced(elements: Seq<ElementType>, tiles: Seq<Tile>, n: int, i: int)
    requires
        distinct_names(elements),
        0 <= i < n <= elements.len(),
    ensures
        ({
            let list = unplaced_counts(elements, tiles, n);
            let e = elements[i];
            &&& list.contains_key(e.name@) == (named(tiles, e.name@) < e.count)
            &&& list.contains_key(e.name@) ==> named(tiles, e.name@) + list[e.name@] == e.count
        }),
    decreases n,
{
    if i < n - 1 {
        lemma_unplaced(elements, tiles, n - 1, i);
        assert(elements[i].name@ != elements[n - 1].name@);
    } else {
        lemma_unplaced_before(elements, tiles, n - 1, i);
    }
}

proof fn lemma_unplaced_before(elements: Seq<ElementType>, tiles: Seq<Tile>, n: int, i: int)
    requires
        distinct_names(elements),
        0 <= n <= i < elements.len(),
    ensures
        !unplaced_counts(elements, tiles, n).contains_key(elements[i].name@),
    decreases n,
{
    if n > 0 {
        lemma_unplaced_before(elements, tiles, n - 1, i);
        assert(elements[n - 1].name@ != elements[i].name@);
    }
}

/// A name that is listed as not placed, or as wanted, is the name of a kind.
proof fn lemma_listed(elements: Seq<ElementType>, tiles: Seq<Tile>, n: int, name: Seq<char>)
    requires
        0 <= n <= elements.len(),
    ensures
        unplaced_counts(elements, tiles, n).contains_key(name) || wanted_counts(
            elements,
            n,
        ).contains_key(name) ==> exists|i: int|
            0 <= i < n && (#[trigger] elements[i]).name@ == name,
    decreases n,
{
    if n > 0 {
        lemma_listed(elements, tiles, n - 1, name);
        if elements[n - 1].name@ == name {
            assert(elements[n - 1].name@ == name);
        }
    }
}

/// If no two kinds have the same name, each is listed as wanted with its count.
proof fn lemma_wanted(elements: Seq<ElementType>, n: int, i: int)
    requires
        distinct_names(elements),
        0 <= i < n <= elements.len(),
    ensures
        wanted_counts(elements, n).contains_key(elements[i].name@),
        wanted_counts(elements, n)[elements[i].name@] == elements[i].count,
    decreases n,
{
    if i < n - 1 {
        lemma_wanted(elements, n - 1, i);
        assert(elements[i].name@ != elements[n - 1].name@);
    }
}

/// The places of the kind of the given name in two orders of the same kinds.
proof fn lemma_found_again(a: Seq<ElementType>, b: Seq<ElementType>, name: Seq<char>) -> (places: (
    int,
    int,
))
    requires
        a.to_multiset() == b.to_multiset(),
        distinct_areas(a),
        exists|i: int| 0 <= i < a.len() && (#[trigger] a[i]).name@ == name,
    ensures
        0 <= places.0 < a.len(),
        0 <= places.1 < b.len(),
        a[places.0] == b[places.1],
        a[places.0].name@ == name,
{
    lemma_reordered_distinct(a, b);
    let i = choose|i: int| 0 <= i < a.len() && (#[trigger] a[i]).name@ == name;
    assert(a.contains(a[i]));
    assert(b.contains(a[i]));
    let j = choose|j: int| 0 <= j < b.len() && b[j] == a[i];
    (i, j)
}

/// What is listed for the same kinds in another order is listed here too.
proof fn lemma_lists_include(a: Seq<ElementType>, b: Seq<ElementType>, tiles: Seq<Tile>)
    requires
        a.to_multiset() == b.to_multiset(),
        distinct_areas(a),
        distinct_names(a),
    ensures
        ({
            let m = unplaced_counts(a, tiles, a.len() as int);
            let n = unplaced_counts(b, tiles, b.len() as int);
            let x = wanted_counts(a, a.len() as int);
            let y = wanted_counts(b, b.len() as int);
            &&& forall|name: Seq<char>| #[trigger]
                m.contains_key(name) ==> n.contains_key(name) && n[name] == m[name]
            &&& forall|name: Seq<char>| #[trigger]
                x.contains_key(name) ==> y.contains_key(name) && y[name] == x[name]
        }),
{
    lemma_reordered_distinct(a, b);
    let m = unplaced_counts(a, tiles, a.len() as int);
    let n = unplaced_counts(b, tiles, b.len() as int);
    let x = wanted_counts(a, a.len() as int);
    let y = wanted_counts(b, b.len() as int);
    assert forall|name: Seq<char>| #[trigger] m.contains_key(name) implies n.contains_key(name)
        && n[name] == m[name] by {
        lemma_listed(a, tiles, a.len() as int, name);
        let (i, j) = lemma_found_again(a, b, name);
        lemma_unplaced(a, tiles, a.len() as int, i);
        lemma_unplaced(b, tiles, b.len() as int, j);
    }
    assert forall|name: Seq<char>| #[trigger] x.contains_key(name) implies y.contains_key(name)
        && y[name] == x[name] by {
        lemma_listed(a, tiles, a.len() as int, name);
        let (i, j) = lemma_found_again(a, b, name);
        lemma_wanted(a, a.len() as int, i);
        lemma_wanted(b, b.len() as int, j);
    }
}

/// The order in which kinds of different sizes are given does not matter: the scheme, its area
/// and the counts of what is placed are the same, and, where no two kinds have the same name, so
/// is what is listed as not placed and as wanted.
pub proof fn lemma_optimum_reordered(a: Seq<ElementType>, b: Seq<ElementType>, w: int, h: int)
    requires
        a.to_multiset() == b.to_multiset(),
        distinct_areas(a),
    ensures
        optimum(a, w, h) == optimum(b, w, h),
        first_openings(a, w, h) == first_openings(b, w, h),
        placed_counts(optimum(a, w, h).tiles) == placed_counts(optimum(b, w, h).tiles),
        distinct_names(a) ==> unplaced_counts(a, optimum(a, w, h).tiles, a.len() as int)
            == unplaced_counts(b, optimum(b, w, h).tiles, b.len() as int),
        distinct_names(a) ==> wanted_counts(a, a.len() as int) == wanted_counts(
            b,
            b.len() as int,
        ),
{
    lemma_largest_first_reordered(a, b);
    lemma_reordered_distinct(a, b);
    if distinct_names(a) {
        let tiles = optimum(a, w, h).tiles;
        lemma_lists_include(a, b, tiles);
        lemma_lists_include(b, a, tiles);
        assert(unplaced_counts(a, tiles, a.len() as int) =~= unplaced_counts(
            b,
            tiles,
            b.len() as int,
        ));
        assert(wanted_counts(a, a.len() as int) =~= wanted_counts(b, b.len() as int));
    }
}

/// The better of the two schemes that start with the given piece in the corner of the sheet,
/// and the area that it covers. Without a place for the piece the scheme is empty.
pub fn solve_first_level(
    page_width: u32,
    page_height: u32,
    item_specs: &[ElementType],
    initial_counts: &[u32],
    first_item_idx: usize,
    first_item_rotated: bool,
) -> (r: (Vec<PlacedItem>, u32))
    requires
        first_item_idx < item_specs.len() <= initial_counts.len(),
        fits(
            item_specs[first_item_idx as int],
            first_item_rotated,
            page_width as int,
            page_height as int,
        ) ==> initial_counts[first_item_idx as int] > 0 && (page_width * page_height <= u32::MAX
            || areas_fit(
            item_specs@,
            page_width as int,
            page_height as int,
            initial_counts@,
        )),
    ensures
        (Scheme { tiles: tiles_of(r.0@), area: r.1 as int }) == first_level(
            item_specs@,
            page_width as int,
            page_height as int,
            initial_counts@,
            (Opening { kind: first_item_idx as int, rotated: first_item_rotated }),
        ),
{
    let spec = &item_specs[first_item_idx];
    let item_w: u32 = if first_item_rotated {
        spec.height
    } else {
        spec.width
    };
    let item_h: u32 = if first_item_rotated {
        spec.width
    } else {
        spec.height
    };
    if item_w > page_width || item_h > page_height {
        let none: Vec<PlacedItem> = Vec::new();
        assert(tiles_of(none@) =~= Seq::<Tile>::empty());
        return (none, 0);
    }
    proof {
        if page_width * page_height <= u32::MAX {
            lemma_areas_fit(
                item_specs@,
                page_width as int,
                page_height as int,
                initial_counts@,
            );
        }
    }
    let mut memo = MemoCache::new();
    let one = try_cut(
        page_width,
        page_height,
        initial_counts,
        item_specs,
        &mut memo,
        first_item_idx,
        first_item_rotated,
        true,
    );
    let two = try_cut(
        page_width,
        page_height,
        initial_counts,
        item_specs,
        &mut memo,
        first_item_idx,
        first_item_rotated,
        false,
    );
    if one.total_area > two.total_area {
        (one.items, one.total_area)
    } else {
        (two.items, two.total_area)
    }
}

/// What came out for a sheet: the pieces on it, the pieces placed and not placed by name, and
/// the area covered.
#[derive(Debug, PartialEq, Eq)]
pub struct OptimizationResult {
    pub scheme: Vec<PlacedItem>,
    pub placed_elements: Tally,
    pub unplaced_elements: Tally,
    pub total_placed_area: u32,
}

/// Whether some piece can go into the corner of the sheet.
pub fn can_open(page_width: u32, page_height: u32, element_types: &[ElementType]) -> (r: bool)
    ensures
        r == (first_openings(element_types@, page_width as int, page_height as int).len() > 0),
{
    let ghost w = page_width as int;
    let ghost h = page_height as int;
    let ghost keys = size_keys(element_types@);
    let ghost specs = largest_first(element_types@);
    let mut i: usize = 0;
    proof {
        lemma_ordered(element_types@, keys);
        lemma_openings(specs, wanted(specs), w, h, specs.len() as int);
    }
    while i < element_types.len()
        invariant
            i <= element_types.len(),
            w == page_width,
            h == page_height,
            keys == size_keys(element_types@),
            specs == largest_first(element_types@),
            forall|k: int|
                0 <= k < i && (#[trigger] element_types[k]).count > 0 ==> !fits(
                    element_types[k],
                    false,
                    w,
                    h,
                ) && !fits(element_types[k], true, w, h),
        decreases element_types.len() - i,
    {
        let e = &element_types[i];
        if e.count > 0 && ((e.width <= page_width && e.height <= page_height) || (e.height
            <= page_width && e.width <= page_height)) {
            proof {
                lemma_ordered(element_types@, keys);
                lemma_openings(specs, wanted(specs), w, h, specs.len() as int);
                let j = lemma_ordered_to(element_types@, keys, i as int);
                let turned = !(e.width <= page_width && e.height <= page_height);
                assert(fits(specs[j], turned, w, h));
                assert(wanted(specs)[j] > 0);
            }
            return true;
        }
        i = i + 1;
    }
    proof {
        let list = first_openings(element_types@, w, h);
        if list.len() > 0 {
            let o = list[0];
            assert(fits(specs[o.kind], o.rotated, w, h));
            let k = lemma_ordered_from(element_types@, keys, o.kind);
            assert(element_types[k].count > 0);
        }
    }
    false
}

/// How many pieces have the name.
fn count_named(items: &[PlacedItem], name: &String) -> (n: usize)
    ensures
        n == named(tiles_of(items@), name@),
{
    let ghost tiles = tiles_of(items@);
    let mut n: usize = 0;
    let mut i: usize = 0;
    assert(tiles.take(0) =~= seq![]);
    while i < items.len()
        invariant
            i <= items.len(),
            n <= i,
            tiles == tiles_of(items@),
            n == named(tiles.take(i as int), name@),
        decreases items.len() - i,
    {
        assert(tiles.take(i + 1).drop_last() =~= tiles.take(i as int));
        assert(tiles.take(i + 1).last() == items[i as int]@);
        if items[i].name == *name {
            n = n + 1;
        }
        i = i + 1;
    }
    assert(tiles.take(i as int) =~= tiles);
    n
}

/// Whether no name comes up more often on the sheet than each kind with that name wants.
pub fn is_covered(element_types: &[ElementType], items: &[PlacedItem]) -> (r: bool)
    ensures
        r == forall|i: int|
            0 <= i < element_types.len() ==> named(
                tiles_of(items@),
                (#[trigger] element_types[i]).name@,
            ) <= element_types[i].count,
{
    let ghost tiles = tiles_of(items@);
    let mut i: usize = 0;
    while i < element_types.len()
        invariant
            i <= element_types.len(),
            tiles == tiles_of(items@),
            forall|k: int|
                0 <= k < i ==> named(tiles, (#[trigger] element_types[k]).name@)
                    <= element_types[k].count,
        decreases element_types.len() - i,
    {
        let n: usize = count_named(items, &element_types[i].name);
        if n as u64 > element_types[i].count as u64 {
            assert(named(tiles, element_types[i as int].name@) > element_types[i as int].count);
            return false;
        }
        i = i + 1;
    }
    true
}

/// Finds a scheme for a sheet: every piece that fits is tried in the corner, on as many threads
/// as there are, and the last of the best schemes is taken.
pub fn find_scheme(page_width: u32, page_height: u32, element_types: &[ElementType]) -> (r: (
    Vec<PlacedItem>,
    u32,
))
    requires
        element_types.len() >= 2 ==> forall|i: int|
            0 <= i < element_types.len() ==> (#[trigger] element_types[i]).area() <= u32::MAX,
        page_width * page_height <= u32::MAX || first_openings(
            element_types@,
            page_width as int,
            page_height as int,
        ).len() == 0,
    ensures
        (Scheme { tiles: tiles_of(r.0@), area: r.1 as int }) == optimum(
            element_types@,
            page_width as int,
            page_height as int,
        ),
{
    let ghost w = page_width as int;
    let ghost h = page_height as int;
    let item_specs = sort_by_size(element_types);
    let initial_counts = counts_of(item_specs.as_slice());
    let ghost specs = item_specs@;
    let ghost counts = initial_counts@;
    let tasks = list_openings(
        item_specs.as_slice(),
        initial_counts.as_slice(),
        page_width,
        page_height,
    );
    let ghost list = openings_of(tasks@);
    assert(list == first_openings(element_types@, w, h));
    if tasks.len() == 0 {
        let none: Vec<PlacedItem> = Vec::new();
        assert(tiles_of(none@) =~= Seq::<Tile>::empty());
        return (none, 0);
    }
    proof {
        lemma_openings(specs, counts, w, h, specs.len() as int);
        assert forall|k: int| 0 <= k < tasks.len() implies ({
            let t = #[trigger] tasks[k];
            &&& t.0 < specs.len()
            &&& counts[t.0 as int] > 0
        }) by {
            let o = list[k];
        }
    }
    let kinds: &[ElementType] = item_specs.as_slice();
    let stock: &[u32] = initial_counts.as_slice();
    let solve = |task: &(usize, bool)| -> (out: (Vec<PlacedItem>, u32))
        requires
            task.0 < kinds@.len() <= stock@.len(),
            stock@[task.0 as int] > 0,
        ensures
            (Scheme { tiles: tiles_of(out.0@), area: out.1 as int }) == first_level(
                kinds@,
                page_width as int,
                page_height as int,
                stock@,
                (Opening { kind: task.0 as int, rotated: task.1 }),
            ),
        { solve_first_level(page_width, page_height, kinds, stock, task.0, task.1) };
    let mut results = map_in_parallel(&tasks, solve);
    let mut best: usize = 0;
    let mut i: usize = 1;
    assert forall|k: int| 0 <= k < results.len() implies (Scheme {
        tiles: tiles_of((#[trigger] results[k]).0@),
        area: results[k].1 as int,
    }) == first_level(specs, w, h, counts, list[k]) by {}
    assert(last_best(specs, w, h, counts, list, 0).area == 0);
    assert(last_best(specs, w, h, counts, list, 1) == first_level(specs, w, h, counts, list[0])) by {
        assert(results[0].1 >= 0);
    }
    while i < results.len()
        invariant
            1 <= i <= results.len(),
            best < i,
            results.len() == list.len(),
            forall|k: int|
                0 <= k < results.len() ==> (Scheme {
                    tiles: tiles_of((#[trigger] results[k]).0@),
                    area: results[k].1 as int,
                }) == first_level(specs, w, h, counts, list[k]),
            last_best(specs, w, h, counts, list, i as int) == first_level(
                specs,
                w,
                h,
                counts,
                list[best as int],
            ),
        decreases results.len() - i,
    {
        assert(results[i as int].1 == first_level(specs, w, h, counts, list[i as int]).area);
        assert(results[best as int].1 == first_level(specs, w, h, counts, list[best as int]).area);
        if results[i].1 >= results[best].1 {
            best = i;
        }
        i = i + 1;
    }
    results.swap_remove(best)
}

/// Finds a scheme for a sheet, and counts the pieces that it places and those that it does not
/// place by name. Where no piece fits, all pieces are listed as not placed, even of kinds that
/// want none.
pub fn optimize_layout_guillotine_parallel(
    page_width: u32,
    page_height: u32,
    element_types: &[ElementType],
) -> (r: OptimizationResult)
    requires
        element_types.len() >= 2 ==> forall|i: int|
            0 <= i < element_types.len() ==> (#[trigger] element_types[i]).area() <= u32::MAX,
        page_width * page_height <= u32::MAX || first_openings(
            element_types@,
            page_width as int,
            page_height as int,
        ).len() == 0,
        distinct_names(element_types@) || forall|i: int|
            0 <= i < element_types.len() ==> named(
                optimum(element_types@, page_width as int, page_height as int).tiles,
                (#[trigger] element_types[i]).name@,
            ) <= element_types[i].count,
    ensures
        ({
            let found = optimum(element_types@, page_width as int, page_height as int);
            &&& tiles_of(r.scheme@) == found.tiles
            &&& r.total_placed_area == found.area
            &&& r.placed_elements.wf()
            &&& r.placed_elements@ == placed_counts(found.tiles)
            &&& r.unplaced_elements.wf()
            &&& r.unplaced_elements@ == (if first_openings(
                element_types@,
                page_width as int,
                page_height as int,
            ).len() == 0 {
                wanted_counts(element_types@, element_types.len() as int)
            } else {
                unplaced_counts(element_types@, found.tiles, element_types.len() as int)
            })
        }),
{
    let ghost w = page_width as int;
    let ghost h = page_height as int;
    let ghost found = optimum(element_types@, w, h);
    let (scheme, total_placed_area) = find_scheme(page_width, page_height, element_types);
    assert(tiles_of(scheme@) == found.tiles);
    proof {
        assert forall|k: int| 0 <= k < element_types.len() implies named(
            found.tiles,
            (#[trigger] element_types[k]).name@,
        ) <= element_types[k].count by {
            if distinct_names(element_types@) {
                lemma_optimum_names(element_types@, w, h, k);
            }
        }
        assert forall|name: Seq<char>| #[trigger] named(found.tiles, name) <= u32::MAX by {
            if forall|k: int|
                0 <= k < element_types.len() ==> (#[trigger] element_types[k]).name@ != name {
                lemma_optimum_foreign(element_types@, w, h, name);
            } else {
                let k = choose|k: int|
                    0 <= k < element_types.len() && (#[trigger] element_types[k]).name@ == name;
                assert(named(found.tiles, element_types[k].name@) <= element_types[k].count);
            }
        }
    }
    let placed_elements = tally_placed(scheme.as_slice());
    let unplaced_elements = if can_open(page_width, page_height, element_types) {
        tally_unplaced(element_types, &placed_elements, scheme.as_slice())
    } else {
        tally_wanted(element_types)
    };
    OptimizationResult { scheme, placed_elements, unplaced_elements, total_placed_area }
}

/// A kind of piece with these sides, this count and this name.
pub open spec fn is_element(
    e: ElementType,
    width: int,
    height: int,
    count: int,
    name: Seq<char>,
) -> bool {
    e.width == width && e.height == height && e.count == count && e.name@ == name
}

fn element(width: u32, height: u32, count: u32, name: &str) -> (e: ElementType)
    ensures
        is_element(e, width as int, height as int, count as int, name@),
{
    ElementType { width, height, count, name: name.to_owned() }
}

/// The pieces to cut if none are given.
pub fn get_default_elements() -> (elements: Vec<ElementType>)
    ensures
        elements.len() == 6,
        is_element(elements[0], 42, 32, 1, "40x30"@),
        is_element(elements[1], 87, 82, 2, "85x80"@),
        is_element(elements[2], 92, 52, 48, "90x50"@),
        is_element(elements[3], 102, 72, 1, "100x70"@),
        is_element(elements[4], 150, 107, 2, "148x105"@),
        is_element(elements[5], 170, 132, 1, "168x130"@),
{
    let mut elements: Vec<ElementType> = Vec::new();
    elements.push(element(42, 32, 1, "40x30"));
    elements.push(element(87, 82, 2, "85x80"));
    elements.push(element(92, 52, 48, "90x50"));
    elements.push(element(102, 72, 1, "100x70"));
    elements.push(element(150, 107, 2, "148x105"));
    elements.push(element(170, 132, 1, "168x130"));
    elements
}

} // verus!
