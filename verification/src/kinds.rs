//! Lists of kinds of pieces: their order, and how many pieces they want.

use crate::order::{
    comes_before, indices, key_values, lemma_order_exists, sort_order, sorts, stable_order,
    taken,
};
use crate::pieces::ElementType;
use crate::tally::distinct_names;
use vstd::prelude::*;

verus! {

/// How many pieces of each kind are wanted.
pub open spec fn wanted(specs: Seq<ElementType>) -> Seq<u32> {
    specs.map_values(|e: ElementType| e.count)
}

/// The kinds in the order of a stable sort by rising key.
pub open spec fn ordered(elements: Seq<ElementType>, keys: Seq<int>) -> Seq<ElementType> {
    taken(elements, stable_order(keys))
}

/// The sort keys of kinds: the larger the piece, the smaller the key.
pub open spec fn size_keys(elements: Seq<ElementType>) -> Seq<int> {
    elements.map_values(|e: ElementType| -e.area())
}

/// The kinds of pieces, the largest first, equally large ones as they stand.
pub open spec fn largest_first(elements: Seq<ElementType>) -> Seq<ElementType> {
    ordered(elements, size_keys(elements))
}

/// The sort keys of kinds by how hard they are to place: the larger the piece, the smaller the
/// key; of equally large ones, the odder its shape, the smaller the key.
pub open spec fn difficulty_keys(elements: Seq<ElementType>, oddity: Seq<u32>) -> Seq<int> {
    Seq::new(elements.len(), |i: int| -(elements[i].area() * 0x1_0000_0000 + oddity[i]))
}

/// The kinds of pieces, those first that are the hardest to place.
pub open spec fn hardest_first(elements: Seq<ElementType>, oddity: Seq<u32>) -> Seq<ElementType> {
    ordered(elements, difficulty_keys(elements, oddity))
}

/// A piece is harder to place than another one if it is larger, or as large and of an odder
/// shape.
pub proof fn lemma_difficulty(elements: Seq<ElementType>, oddity: Seq<u32>, i: int, j: int)
    requires
        0 <= i < elements.len(),
        0 <= j < elements.len(),
        oddity.len() == elements.len(),
    ensures
        difficulty_keys(elements, oddity)[i] < difficulty_keys(elements, oddity)[j] <==> {
            ||| elements[i].area() > elements[j].area()
            ||| elements[i].area() == elements[j].area() && oddity[i] > oddity[j]
        },
{
}

/// Sorting keeps the number of kinds, and names that differ.
pub proof fn lemma_ordered(elements: Seq<ElementType>, keys: Seq<int>)
    requires
        keys.len() == elements.len(),
    ensures
        ordered(elements, keys).len() == elements.len(),
        sorts(stable_order(keys), keys),
        distinct_names(elements) ==> distinct_names(ordered(elements, keys)),
{
    lemma_order_exists(keys);
    let order = stable_order(keys);
    let specs = ordered(elements, keys);
    if distinct_names(elements) {
        assert forall|i: int, j: int| 0 <= i < j < specs.len() implies (
        #[trigger] specs[i]).name@ != (#[trigger] specs[j]).name@ by {
            let a = order[i];
            let b = order[j];
            assert(specs[i] == elements[a] && specs[j] == elements[b]);
            if a < b {
                assert(elements[a].name@ != elements[b].name@);
            } else if b < a {
                assert(elements[b].name@ != elements[a].name@);
            }
        }
    }
}

/// Where a kind gets to when the kinds are sorted.
pub proof fn lemma_ordered_to(elements: Seq<ElementType>, keys: Seq<int>, i: int) -> (j: int)
    requires
        keys.len() == elements.len(),
        0 <= i < elements.len(),
    ensures
        0 <= j < ordered(elements, keys).len(),
        ordered(elements, keys)[j] == elements[i],
{
    lemma_ordered(elements, keys);
    let order = stable_order(keys);
    assert(order.contains(i));
    choose|j: int| 0 <= j < order.len() && order[j] == i
}

/// Where a kind was before the kinds were sorted.
pub proof fn lemma_ordered_from(elements: Seq<ElementType>, keys: Seq<int>, j: int) -> (i: int)
    requires
        keys.len() == elements.len(),
        0 <= j < ordered(elements, keys).len(),
    ensures
        0 <= i < elements.len(),
        ordered(elements, keys)[j] == elements[i],
{
    lemma_ordered(elements, keys);
    stable_order(keys)[j]
}

/// No two kinds are equally large.
pub open spec fn distinct_areas(elements: Seq<ElementType>) -> bool {
    forall|i: int, j: int|
        0 <= i < j < elements.len() ==> (#[trigger] elements[i]).area() != (
        #[trigger] elements[j]).area()
}

/// The same kinds in another order are as different from each other.
pub proof fn lemma_reordered_distinct(a: Seq<ElementType>, b: Seq<ElementType>)
    requires
        a.to_multiset() == b.to_multiset(),
        distinct_areas(a),
    ensures
        a.len() == b.len(),
        forall|x: ElementType| #[trigger] a.contains(x) == b.contains(x),
        distinct_areas(b),
        distinct_names(a) ==> distinct_names(b),
{
    a.to_multiset_ensures();
    b.to_multiset_ensures();
    assert(a.no_duplicates()) by {
        assert forall|i: int, j: int| 0 <= i < a.len() && 0 <= j < a.len() && i != j implies a[i]
            != a[j] by {
            if i < j {
                assert(a[i].area() != a[j].area());
            } else {
                assert(a[j].area() != a[i].area());
            }
        }
    }
    a.lemma_multiset_has_no_duplicates();
    b.lemma_multiset_has_no_duplicates_conv();
    assert forall|x: ElementType| #[trigger] a.contains(x) == b.contains(x) by {
        assert(a.contains(x) == (a.to_multiset().count(x) > 0));
        assert(b.contains(x) == (b.to_multiset().count(x) > 0));
    }
    assert forall|i: int, j: int| 0 <= i < j < b.len() implies (#[trigger] b[i]).area() != (
    #[trigger] b[j]).area() && (distinct_names(a) ==> b[i].name@ != b[j].name@) by {
        assert(b.contains(b[i]) && b.contains(b[j]));
        assert(a.contains(b[i]) && a.contains(b[j]));
        let k = choose|k: int| 0 <= k < a.len() && a[k] == b[i];
        let l = choose|l: int| 0 <= l < a.len() && a[l] == b[j];
        assert(b[i] != b[j]);
        if k < l {
            assert(a[k].area() != a[l].area());
        } else {
            assert(a[l].area() != a[k].area());
        }
    }
}

/// Kinds of different sizes come out the larger before the smaller.
proof fn lemma_strictly_falling(elements: Seq<ElementType>)
    requires
        distinct_areas(elements),
    ensures
        forall|x: int, y: int|
            0 <= x < y < elements.len() ==> (#[trigger] largest_first(elements)[x]).area() > (
            #[trigger] largest_first(elements)[y]).area(),
        forall|e: ElementType| #[trigger]
            largest_first(elements).contains(e) == elements.contains(e),
{
    let keys = size_keys(elements);
    lemma_ordered(elements, keys);
    let order = stable_order(keys);
    let specs = largest_first(elements);
    assert forall|x: int, y: int| 0 <= x < y < elements.len() implies (
    #[trigger] specs[x]).area() > (#[trigger] specs[y]).area() by {
        let i = order[x];
        let j = order[y];
        assert(comes_before(keys, i, j));
        assert(keys[i] == -elements[i].area() && keys[j] == -elements[j].area());
        if i < j {
            assert(elements[i].area() != elements[j].area());
        }
    }
    assert forall|e: ElementType| #[trigger] specs.contains(e) == elements.contains(e) by {
        if specs.contains(e) {
            let j = choose|j: int| 0 <= j < specs.len() && specs[j] == e;
            let i = lemma_ordered_from(elements, keys, j);
            assert(elements[i] == e);
        }
        if elements.contains(e) {
            let i = choose|i: int| 0 <= i < elements.len() && elements[i] == e;
            let j = lemma_ordered_to(elements, keys, i);
            assert(specs[j] == e);
        }
    }
}

/// The order in which kinds of different sizes are given does not matter: the largest first is
/// the same order for all.
pub proof fn lemma_largest_first_reordered(a: Seq<ElementType>, b: Seq<ElementType>)
    requires
        a.to_multiset() == b.to_multiset(),
        distinct_areas(a),
    ensures
        largest_first(a) == largest_first(b),
{
    lemma_reordered_distinct(a, b);
    lemma_strictly_falling(a);
    lemma_strictly_falling(b);
    lemma_ordered(a, size_keys(a));
    lemma_ordered(b, size_keys(b));
    lemma_falling_agree(a, b, a.len() as int);
    assert(largest_first(a) =~= largest_first(b));
}

proof fn lemma_falling_agree(a: Seq<ElementType>, b: Seq<ElementType>, n: int)
    requires
        a.to_multiset() == b.to_multiset(),
        distinct_areas(a),
        0 <= n <= a.len(),
    ensures
        forall|k: int| 0 <= k < n ==> largest_first(a)[k] == largest_first(b)[k],
    decreases n,
{
    if n > 0 {
        lemma_falling_agree(a, b, n - 1);
        lemma_reordered_distinct(a, b);
        lemma_strictly_falling(a);
        lemma_strictly_falling(b);
        lemma_ordered(a, size_keys(a));
        lemma_ordered(b, size_keys(b));
        let s = largest_first(a);
        let t = largest_first(b);
        let k = n - 1;
        if s[k] != t[k] {
            assert(s.contains(s[k]) && t.contains(t[k]));
            assert(a.contains(s[k]) && b.contains(t[k]));
            assert(t.contains(s[k]) && s.contains(t[k]));
            let m = choose|m: int| 0 <= m < t.len() && t[m] == s[k];
            let l = choose|l: int| 0 <= l < s.len() && s[l] == t[k];
            if m < k {
                assert(s[m] == t[m]);
                assert(s[m].area() > s[k].area());
            } else if l < k {
                assert(t[l] == s[l]);
                assert(t[l].area() > t[k].area());
            } else {
                assert(t[k].area() > t[m].area());
                assert(s[k].area() > s[l].area());
            }
        }
    }
}

/// The area of a piece.
fn area(e: &ElementType) -> (r: u64)
    ensures
        r == e.area(),
{
    let w: u32 = e.width;
    let h: u32 = e.height;
    assert(0 <= w * h <= u32::MAX * u32::MAX) by (nonlinear_arith)
        requires
            0 <= w <= u32::MAX,
            0 <= h <= u32::MAX,
    ;
    w as u64 * h as u64
}

/// The kinds in the order of a stable sort by rising key.
fn take_in_order(elements: &[ElementType], keys: &Vec<i128>) -> (specs: Vec<ElementType>)
    requires
        keys.len() == elements.len(),
    ensures
        specs@ == ordered(elements@, key_values(keys@)),
{
    let order = sort_order(keys);
    let mut specs: Vec<ElementType> = Vec::new();
    let mut j: usize = 0;
    while j < order.len()
        invariant
            j <= order.len(),
            specs.len() == j,
            keys.len() == elements.len(),
            sorts(indices(order@), key_values(keys@)),
            forall|k: int| 0 <= k < j ==> #[trigger] specs[k] == elements[indices(order@)[k]],
        decreases order.len() - j,
    {
        assert(indices(order@)[j as int] == order[j as int]);
        specs.push(elements[order[j]].clone());
        j = j + 1;
    }
    assert(specs@ =~= ordered(elements@, key_values(keys@)));
    specs
}

/// The kinds of pieces, the largest first.
pub fn sort_by_size(elements: &[ElementType]) -> (specs: Vec<ElementType>)
    ensures
        specs@ == largest_first(elements@),
{
    let mut keys: Vec<i128> = Vec::new();
    let mut i: usize = 0;
    while i < elements.len()
        invariant
            i <= elements.len(),
            keys.len() == i,
            forall|k: int| 0 <= k < i ==> keys[k] == -(#[trigger] elements[k]).area(),
        decreases elements.len() - i,
    {
        keys.push(-(area(&elements[i]) as i128));
        i = i + 1;
    }
    assert(key_values(keys@) =~= size_keys(elements@));
    take_in_order(elements, &keys)
}

/// The kinds of pieces, those first that are the hardest to place. How odd the shape of a kind
/// is, is given by a number.
pub fn sort_by_difficulty(elements: &[ElementType], oddity: &[u32]) -> (specs: Vec<ElementType>)
    requires
        oddity.len() == elements.len(),
        elements.len() >= 2 ==> forall|i: int|
            0 <= i < elements.len() ==> (#[trigger] elements[i]).area() <= u32::MAX,
    ensures
        specs@ == hardest_first(elements@, oddity@),
{
    let mut keys: Vec<i128> = Vec::new();
    let mut i: usize = 0;
    while i < elements.len()
        invariant
            i <= elements.len(),
            oddity.len() == elements.len(),
            keys.len() == i,
            forall|k: int|
                0 <= k < i ==> keys[k] == -((#[trigger] elements[k]).area() * 0x1_0000_0000
                    + oddity[k]),
        decreases elements.len() - i,
    {
        keys.push(-(area(&elements[i]) as i128 * 0x1_0000_0000 + oddity[i] as i128));
        i = i + 1;
    }
    assert(key_values(keys@) =~= difficulty_keys(elements@, oddity@));
    take_in_order(elements, &keys)
}

/// How many pieces of each kind are wanted.
pub fn counts_of(specs: &[ElementType]) -> (counts: Vec<u32>)
    ensures
        counts@ == wanted(specs@),
{
    let mut counts: Vec<u32> = Vec::new();
    let mut i: usize = 0;
    while i < specs.len()
        invariant
            i <= specs.len(),
            counts.len() == i,
            forall|k: int| 0 <= k < i ==> counts[k] == (#[trigger] specs[k]).count,
        decreases specs.len() - i,
    {
        counts.push(specs[i].count);
        i = i + 1;
    }
    assert(counts@ =~= wanted(specs@));
    counts
}

} // verus!
