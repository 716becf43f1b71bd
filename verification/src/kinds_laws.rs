//! The order of kinds, and counts by name.

use crate::kinds::{difficulty_keys, hardest_first, largest_first, size_keys, wanted};
use crate::order::{comes_before, lemma_order_exists, stable_order};
use crate::pieces::{ElementType, Tile};
use crate::tally::{named, placed_counts, unplaced_counts, wanted_counts};
use vstd::prelude::*;

verus! {

/// `order` lists every index up to `n` once.
pub open spec fn is_order(order: Seq<int>, n: int) -> bool {
    &&& order.len() == n
    &&& forall|k: int| 0 <= k < n ==> 0 <= #[trigger] order[k] < n
    &&& forall|i: int| 0 <= i < n ==> #[trigger] order.contains(i)
    &&& forall|a: int, b: int| 0 <= a < b < n ==> #[trigger] order[a] != #[trigger] order[b]
}

/// Sorting by size keeps every kind once. A larger piece comes before a smaller one, and of equally
/// large ones the one that stood first.
pub proof fn lemma_largest_first_exact(elements: Seq<ElementType>) -> (order: Seq<int>)
    ensures
        is_order(order, elements.len() as int),
        largest_first(elements).len() == elements.len(),
        forall|k: int|
            0 <= k < elements.len() ==> #[trigger] largest_first(elements)[k]
                == elements[order[k]],
        forall|a: int, b: int|
            0 <= a < b < elements.len() ==> {
                let d = #[trigger] largest_first(elements)[a];
                let e = #[trigger] largest_first(elements)[b];
                ||| d.width * d.height > e.width * e.height
                ||| d.width * d.height == e.width * e.height && order[a] < order[b]
            },
{
    let keys = size_keys(elements);
    lemma_order_exists(keys);
    let order = stable_order(keys);
    assert forall|a: int, b: int| 0 <= a < b < elements.len() implies #[trigger] order[a]
        != #[trigger] order[b] by {
        assert(comes_before(keys, order[a], order[b]));
    }
    assert forall|a: int, b: int| 0 <= a < b < elements.len() implies {
        let d = #[trigger] largest_first(elements)[a];
        let e = #[trigger] largest_first(elements)[b];
        ||| d.width * d.height > e.width * e.height
        ||| d.width * d.height == e.width * e.height && order[a] < order[b]
    } by {
        assert(comes_before(keys, order[a], order[b]));
        assert(keys[order[a]] == -elements[order[a]].area());
        assert(keys[order[b]] == -elements[order[b]].area());
    }
    order
}

/// Sorting by difficulty keeps every kind once. A larger piece comes before a smaller one, of
/// equally large ones the odder one, and of equally odd ones the one that stood first.
pub proof fn lemma_hardest_first_exact(elements: Seq<ElementType>, oddity: Seq<u32>) -> (order: Seq<
    int,
>)
    requires
        oddity.len() == elements.len(),
    ensures
        is_order(order, elements.len() as int),
        hardest_first(elements, oddity).len() == elements.len(),
        forall|k: int|
            0 <= k < elements.len() ==> #[trigger] hardest_first(elements, oddity)[k]
                == elements[order[k]],
        forall|a: int, b: int|
            0 <= a < b < elements.len() ==> {
                let d = #[trigger] hardest_first(elements, oddity)[a];
                let e = #[trigger] hardest_first(elements, oddity)[b];
                let x = oddity[order[a]];
                let y = oddity[order[b]];
                ||| d.width * d.height > e.width * e.height
                ||| d.width * d.height == e.width * e.height && x > y
                ||| d.width * d.height == e.width * e.height && x == y && order[a] < order[b]
            },
{
    let keys = difficulty_keys(elements, oddity);
    lemma_order_exists(keys);
    let order = stable_order(keys);
    assert forall|a: int, b: int| 0 <= a < b < elements.len() implies #[trigger] order[a]
        != #[trigger] order[b] by {
        assert(comes_before(keys, order[a], order[b]));
    }
    assert forall|a: int, b: int| 0 <= a < b < elements.len() implies {
        let d = #[trigger] hardest_first(elements, oddity)[a];
        let e = #[trigger] hardest_first(elements, oddity)[b];
        let x = oddity[order[a]];
        let y = oddity[order[b]];
        ||| d.width * d.height > e.width * e.height
        ||| d.width * d.height == e.width * e.height && x > y
        ||| d.width * d.height == e.width * e.height && x == y && order[a] < order[b]
    } by {
        assert(comes_before(keys, order[a], order[b]));
        assert(keys[order[a]] == -(elements[order[a]].area() * 0x1_0000_0000 + oddity[order[a]]));
        assert(keys[order[b]] == -(elements[order[b]].area() * 0x1_0000_0000 + oddity[order[b]]));
    }
    order
}

/// Every kind wants its own count.
pub proof fn lemma_wanted_exact(specs: Seq<ElementType>, i: int)
    requires
        0 <= i < specs.len(),
    ensures
        wanted(specs).len() == specs.len(),
        wanted(specs)[i] == specs[i].count,
{
}

/// The number of pieces with a name is the number of those in the list that have it.
pub proof fn lemma_named_exact(tiles: Seq<Tile>, name: Seq<char>)
    ensures
        named(tiles, name) == tiles.filter(|t: Tile| t.name == name).len(),
        named(tiles, name) > 0 <==> exists|k: int|
            0 <= k < tiles.len() && (#[trigger] tiles[k]).name == name,
    decreases tiles.len(),
{
    reveal(Seq::filter);
    if tiles.len() > 0 {
        lemma_named_exact(tiles.drop_last(), name);
        if tiles.last().name == name {
            assert(tiles[tiles.len() - 1].name == name);
        } else {
            if exists|k: int| 0 <= k < tiles.len() && (#[trigger] tiles[k]).name == name {
                let k = choose|k: int| 0 <= k < tiles.len() && (#[trigger] tiles[k]).name == name;
                assert(tiles.drop_last()[k].name == name);
            }
            if exists|k: int|
                0 <= k < tiles.drop_last().len() && (#[trigger] tiles.drop_last()[k]).name
                    == name {
                let k = choose|k: int|
                    0 <= k < tiles.drop_last().len() && (#[trigger] tiles.drop_last()[k]).name
                        == name;
                assert(tiles[k].name == name);
            }
        }
    }
}

/// Exactly the names that come up on the sheet are listed as placed, each with the number of its
/// pieces.
pub proof fn lemma_placed_exact(tiles: Seq<Tile>, name: Seq<char>)
    requires
        tiles.len() <= u32::MAX,
    ensures
        placed_counts(tiles).contains_key(name) <==> exists|k: int|
            0 <= k < tiles.len() && (#[trigger] tiles[k]).name == name,
        placed_counts(tiles).contains_key(name) ==> placed_counts(tiles)[name] == tiles.filter(
            |t: Tile| t.name == name,
        ).len(),
{
    lemma_named_exact(tiles, name);
    tiles.lemma_filter_len(|t: Tile| t.name == name);
}

/// Every name of a kind is listed as wanted, with the count of the last kind that has it, and no
/// other name is.
pub proof fn lemma_wanted_counts_exact(elements: Seq<ElementType>, n: int, name: Seq<char>)
    requires
        0 <= n <= elements.len(),
    ensures
        wanted_counts(elements, n).contains_key(name) <==> exists|i: int|
            0 <= i < n && (#[trigger] elements[i]).name@ == name,
        forall|i: int|
            {
                &&& 0 <= i < n
                &&& (#[trigger] elements[i]).name@ == name
                &&& forall|j: int| i < j < n ==> (#[trigger] elements[j]).name@ != name
            } ==> wanted_counts(elements, n)[name] == elements[i].count,
    decreases n,
{
    if n > 0 {
        lemma_wanted_counts_exact(elements, n - 1, name);
        if elements[n - 1].name@ == name {
            assert(elements[n - 1].name@ == name);
        }
    }
}

/// A name is listed as not placed exactly if a kind that has it wants more pieces than lie on the
/// sheet with it. It is listed with the difference, for the last such kind.
pub proof fn lemma_unplaced_exact(
    elements: Seq<ElementType>,
    tiles: Seq<Tile>,
    n: int,
    name: Seq<char>,
)
    requires
        0 <= n <= elements.len(),
    ensures
        ({
            let placed = tiles.filter(|t: Tile| t.name == name).len();
            let list = unplaced_counts(elements, tiles, n);
            &&& list.contains_key(name) <==> exists|i: int|
                0 <= i < n && (#[trigger] elements[i]).name@ == name && elements[i].count > placed
            &&& forall|i: int|
                {
                    &&& 0 <= i < n
                    &&& (#[trigger] elements[i]).name@ == name
                    &&& elements[i].count > placed
                    &&& forall|j: int|
                        i < j < n ==> (#[trigger] elements[j]).name@ != name || elements[j].count
                            <= placed
                } ==> list[name] == elements[i].count - placed
        }),
    decreases n,
{
    lemma_named_exact(tiles, name);
    if n > 0 {
        lemma_unplaced_exact(elements, tiles, n - 1, name);
        if elements[n - 1].name@ == name {
            assert(elements[n - 1].name@ == name);
        }
    }
}

} // verus!
