//! The pieces to cut, the places they are given, and counts of pieces.

use vstd::prelude::*;

verus! {

/// A kind of piece: its sides, how many are wanted, and what it is called.
#[derive(Debug, PartialEq, Eq)]
pub struct ElementType {
    pub width: u32,
    pub height: u32,
    pub count: u32,
    pub name: String,
}

/// A piece put on the sheet, with its upper left corner at `(x, y)`.
#[derive(Debug, PartialEq, Eq)]
pub struct PlacedItem {
    pub x: u32,
    pub y: u32,
    pub width: u32,
    pub height: u32,
    pub name: String,
    pub rotated: bool,
}

/// What a placed piece stands for: a named rectangle in the plane.
pub struct Tile {
    pub x: int,
    pub y: int,
    pub w: int,
    pub h: int,
    pub name: Seq<char>,
    pub rotated: bool,
}

impl View for PlacedItem {
    type V = Tile;

    open spec fn view(&self) -> Tile {
        Tile {
            x: self.x as int,
            y: self.y as int,
            w: self.width as int,
            h: self.height as int,
            name: self.name@,
            rotated: self.rotated,
        }
    }
}

impl Clone for ElementType {
    fn clone(&self) -> (copy: Self)
        ensures
            copy == *self,
    {
        ElementType {
            width: self.width,
            height: self.height,
            count: self.count,
            name: self.name.clone(),
        }
    }
}

impl Clone for PlacedItem {
    fn clone(&self) -> (copy: Self)
        ensures
            copy == *self,
    {
        PlacedItem {
            x: self.x,
            y: self.y,
            width: self.width,
            height: self.height,
            name: self.name.clone(),
            rotated: self.rotated,
        }
    }
}

impl ElementType {
    /// The area of one piece of this kind.
    pub open spec fn area(self) -> int {
        self.width * self.height
    }

    /// How wide a piece of this kind lies, turned by a quarter or not.
    pub open spec fn wide(self, rotated: bool) -> int {
        if rotated {
            self.height as int
        } else {
            self.width as int
        }
    }

    /// How high a piece of this kind lies, turned by a quarter or not.
    pub open spec fn high(self, rotated: bool) -> int {
        if rotated {
            self.width as int
        } else {
            self.height as int
        }
    }

    /// A piece of this kind put down at `(x, y)`.
    pub open spec fn tile(self, x: int, y: int, rotated: bool) -> Tile {
        Tile { x, y, w: self.wide(rotated), h: self.high(rotated), name: self.name@, rotated }
    }
}

/// The rectangles that a list of placed pieces stands for.
pub open spec fn tiles_of(items: Seq<PlacedItem>) -> Seq<Tile> {
    items.map_values(|p: PlacedItem| p@)
}

/// How many pieces a vector of counts holds in all.
pub open spec fn total(counts: Seq<u32>) -> nat
    decreases counts.len(),
{
    if counts.len() == 0 {
        0
    } else {
        total(counts.drop_last()) + counts.last() as nat
    }
}

/// `low` has no more pieces of any kind than `high`.
pub open spec fn within(low: Seq<u32>, high: Seq<u32>) -> bool {
    &&& low.len() == high.len()
    &&& forall|i: int| 0 <= i < low.len() ==> #[trigger] low[i] <= high[i]
}

/// The counts that are left after taking one piece of kind `kind`.
pub open spec fn less_one(counts: Seq<u32>, kind: int) -> Seq<u32> {
    counts.update(kind, (counts[kind] - 1) as u32)
}

/// Changing one count changes the total by the difference.
pub proof fn lemma_total_update(counts: Seq<u32>, i: int, v: u32)
    requires
        0 <= i < counts.len(),
    ensures
        total(counts.update(i, v)) == total(counts) - counts[i] + v,
    decreases counts.len(),
{
    let changed = counts.update(i, v);
    if i == counts.len() - 1 {
        assert(changed.drop_last() =~= counts.drop_last());
    } else {
        assert(changed.drop_last() =~= counts.drop_last().update(i, v));
        lemma_total_update(counts.drop_last(), i, v);
    }
}

/// No count exceeds the total.
pub proof fn lemma_count_le_total(counts: Seq<u32>, i: int)
    requires
        0 <= i < counts.len(),
    ensures
        counts[i] <= total(counts),
    decreases counts.len(),
{
    if i < counts.len() - 1 {
        lemma_count_le_total(counts.drop_last(), i);
    }
}

/// The total of a prefix grows with the prefix.
pub proof fn lemma_total_prefix(counts: Seq<u32>, n: int)
    requires
        0 <= n <= counts.len(),
    ensures
        total(counts.take(n)) <= total(counts),
    decreases counts.len(),
{
    if n < counts.len() {
        assert(counts.drop_last().take(n) =~= counts.take(n));
        lemma_total_prefix(counts.drop_last(), n);
    } else {
        assert(counts.take(n) =~= counts);
    }
}

/// Fewer pieces of every kind are fewer pieces in all.
pub proof fn lemma_total_within(low: Seq<u32>, high: Seq<u32>)
    requires
        within(low, high),
    ensures
        total(low) <= total(high),
    decreases low.len(),
{
    if low.len() > 0 {
        assert(low.last() <= high.last());
        assert(within(low.drop_last(), high.drop_last())) by {
            assert forall|i: int| 0 <= i < low.drop_last().len() implies #[trigger]
            low.drop_last()[i] <= high.drop_last()[i] by {
                assert(low[i] <= high[i]);
            }
        }
        lemma_total_within(low.drop_last(), high.drop_last());
    }
}

/// A total of zero means that no kind has a piece left.
pub proof fn lemma_total_zero(counts: Seq<u32>)
    ensures
        total(counts) == 0 <==> forall|i: int| 0 <= i < counts.len() ==> counts[i] == 0,
    decreases counts.len(),
{
    if counts.len() > 0 {
        lemma_total_zero(counts.drop_last());
        if total(counts) == 0 {
            assert forall|i: int| 0 <= i < counts.len() implies counts[i] == 0 by {
                lemma_count_le_total(counts, i);
            }
        } else if forall|i: int| 0 <= i < counts.len() ==> counts[i] == 0 {
            assert(forall|i: int|
                0 <= i < counts.drop_last().len() ==> counts.drop_last()[i] == counts[i]);
            assert(counts.last() == 0);
        }
    }
}

/// Taking one piece away lowers the total by one.
pub proof fn lemma_less_one(counts: Seq<u32>, kind: int)
    requires
        0 <= kind < counts.len(),
        counts[kind] > 0,
    ensures
        total(less_one(counts, kind)) == total(counts) - 1,
        within(less_one(counts, kind), counts),
        less_one(counts, kind).len() == counts.len(),
{
    lemma_total_update(counts, kind, (counts[kind] - 1) as u32);
}

/// `within` can be chained.
pub proof fn lemma_within_trans(a: Seq<u32>, b: Seq<u32>, c: Seq<u32>)
    requires
        within(a, b),
        within(b, c),
    ensures
        within(a, c),
{
    assert forall|i: int| 0 <= i < a.len() implies #[trigger] a[i] <= c[i] by {
        assert(a[i] <= b[i]);
        assert(b[i] <= c[i]);
    }
}

/// The number of pieces that a vector of counts holds in all.
pub fn sum_counts(counts: &[u32]) -> (sum: u32)
    requires
        total(counts@) <= u32::MAX,
    ensures
        sum == total(counts@),
{
    let mut sum: u32 = 0;
    let mut i: usize = 0;
    while i < counts.len()
        invariant
            i <= counts.len(),
            total(counts@) <= u32::MAX,
            sum == total(counts@.take(i as int)),
        decreases counts.len() - i,
    {
        proof {
            assert(counts@.take(i + 1).drop_last() =~= counts@.take(i as int));
            lemma_total_prefix(counts@, i + 1);
        }
        sum = sum + counts[i];
        i = i + 1;
    }
    assert(counts@.take(i as int) =~= counts@);
    sum
}

/// Copies a list of placed pieces.
pub fn copy_items(items: &[PlacedItem]) -> (copy: Vec<PlacedItem>)
    ensures
        copy@ == items@,
{
    let mut copy: Vec<PlacedItem> = Vec::new();
    let mut i: usize = 0;
    while i < items.len()
        invariant
            i <= items.len(),
            copy@ == items@.take(i as int),
        decreases items.len() - i,
    {
        copy.push(items[i].clone());
        assert(items@.take(i + 1) =~= items@.take(i as int).push(items@[i as int]));
        i = i + 1;
    }
    assert(items@.take(i as int) =~= items@);
    copy
}

} // verus!
