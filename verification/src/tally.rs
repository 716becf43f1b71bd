//! Counts of pieces by name.

use crate::layout::{
    accounted, all_moved, first_part, joined_tiles, realises, second_part, uses_up, CutTree,
    Layout,
};
use crate::pieces::{tiles_of, ElementType, PlacedItem, Tile};
use vstd::prelude::*;

verus! {

/// A name and how many pieces have it.
#[derive(Debug, PartialEq, Eq)]
pub struct NamedCount {
    pub name: String,
    pub count: u32,
}

/// Counts of pieces by name, in the order in which the names came up.
#[derive(Debug, PartialEq, Eq)]
pub struct Tally {
    entries: Vec<NamedCount>,
}

/// Entry `k` is the one for the name.
pub open spec fn is_entry(entries: Seq<NamedCount>, name: Seq<char>, k: int) -> bool {
    0 <= k < entries.len() && entries[k].name@ == name
}

/// The map that a list of entries stands for.
pub open spec fn map_of(entries: Seq<NamedCount>) -> Map<Seq<char>, u32> {
    Map::new(
        |name: Seq<char>| exists|k: int| is_entry(entries, name, k),
        |name: Seq<char>| entries[choose|k: int| is_entry(entries, name, k)].count,
    )
}

/// No name comes up twice.
pub open spec fn all_distinct(entries: Seq<NamedCount>) -> bool {
    forall|i: int, j: int|
        0 <= i < j < entries.len() ==> (#[trigger] entries[i]).name@ != (
        #[trigger] entries[j]).name@
}

impl View for Tally {
    type V = Map<Seq<char>, u32>;

    closed spec fn view(&self) -> Map<Seq<char>, u32> {
        map_of(self.entries@)
    }
}

impl Tally {
    /// No name comes up twice.
    pub closed spec fn wf(self) -> bool {
        all_distinct(self.entries@)
    }

    /// No names.
    pub fn new() -> (tally: Tally)
        ensures
            tally.wf(),
            tally@ == Map::<Seq<char>, u32>::empty(),
    {
        let tally = Tally { entries: Vec::new() };
        assert(tally@ =~= Map::<Seq<char>, u32>::empty());
        tally
    }

    /// The entries, one for each name.
    pub fn entries(&self) -> (list: &[NamedCount])
        requires
            self.wf(),
        ensures
            all_distinct(list@),
            map_of(list@) == self@,
    {
        self.entries.as_slice()
    }

    /// Where the entry for a name is.
    fn find(&self, name: &String) -> (r: Option<usize>)
        ensures
            match r {
                Some(k) => is_entry(self.entries@, name@, k as int),
                None => forall|k: int| !#[trigger] is_entry(self.entries@, name@, k),
            },
    {
        let mut i: usize = 0;
        while i < self.entries.len()
            invariant
                i <= self.entries.len(),
                forall|k: int| 0 <= k < i ==> !#[trigger] is_entry(self.entries@, name@, k),
            decreases self.entries.len() - i,
        {
            if self.entries[i].name == *name {
                return Some(i);
            }
            i = i + 1;
        }
        None
    }

    /// The count for a name.
    pub fn get(&self, name: &String) -> (count: Option<u32>)
        requires
            self.wf(),
        ensures
            match count {
                Some(n) => self@.contains_key(name@) && n == self@[name@],
                None => !self@.contains_key(name@),
            },
    {
        match self.find(name) {
            Some(k) => {
                let ghost found = choose|j: int| is_entry(self.entries@, name@, j);
                assert(is_entry(self.entries@, name@, k as int));
                assert(found == k);
                Some(self.entries[k].count)
            },
            None => None,
        }
    }

    /// Sets the count for a name.
    pub fn set(&mut self, name: &String, count: u32)
        requires
            old(self).wf(),
        ensures
            final(self).wf(),
            final(self)@ == old(self)@.insert(name@, count),
    {
        let ghost before = self.entries@;
        let at: usize = match self.find(name) {
            Some(k) => {
                self.entries.set(k, NamedCount { name: name.clone(), count });
                k
            },
            None => {
                self.entries.push(NamedCount { name: name.clone(), count });
                self.entries.len() - 1
            },
        };
        proof {
            let after = self.entries@;
            assert(is_entry(after, name@, at as int));
            assert forall|i: int, j: int| 0 <= i < j < after.len() implies (
            #[trigger] after[i]).name@ != (#[trigger] after[j]).name@ by {
                if j == before.len() {
                    assert(!is_entry(before, name@, i));
                } else {
                    assert(before[i].name@ != before[j].name@);
                }
            }
            assert(all_distinct(after));
            assert forall|other: Seq<char>, k: int| other != name@ implies #[trigger] is_entry(
                after,
                other,
                k,
            ) == is_entry(before, other, k) by {}
            assert forall|other: Seq<char>| #[trigger]
                map_of(after).contains_key(other) == map_of(before).insert(
                name@,
                count,
            ).contains_key(other) by {
                if other != name@ {
                    if map_of(after).contains_key(other) {
                        let k = choose|k: int| is_entry(after, other, k);
                        assert(is_entry(before, other, k));
                    }
                    if map_of(before).contains_key(other) {
                        let k = choose|k: int| is_entry(before, other, k);
                        assert(is_entry(after, other, k));
                    }
                }
            }
            assert forall|other: Seq<char>| #[trigger]
                map_of(after).contains_key(other) implies map_of(after)[other] == map_of(
                before,
            ).insert(name@, count)[other] by {
                let k = choose|k: int| is_entry(after, other, k);
                if other == name@ {
                    assert(k == at);
                } else {
                    assert(is_entry(before, other, k));
                    let j = choose|j: int| is_entry(before, other, j);
                    assert(is_entry(after, other, j));
                    assert(j == k);
                }
            }
            assert(map_of(after) =~= map_of(before).insert(name@, count));
        }
    }
}

/// How many pieces have the name.
pub open spec fn named(tiles: Seq<Tile>, name: Seq<char>) -> nat
    decreases tiles.len(),
{
    if tiles.len() == 0 {
        0
    } else {
        named(tiles.drop_last(), name) + (if tiles.last().name == name {
            1nat
        } else {
            0nat
        })
    }
}

/// The pieces of a layout by name.
pub open spec fn placed_counts(tiles: Seq<Tile>) -> Map<Seq<char>, u32> {
    Map::new(
        |name: Seq<char>| named(tiles, name) > 0,
        |name: Seq<char>| named(tiles, name) as u32,
    )
}

/// The pieces that the first `n` kinds want and a layout does not place, by name. Of kinds with
/// the same name the last one with pieces left counts.
pub open spec fn unplaced_counts(elements: Seq<ElementType>, tiles: Seq<Tile>, n: int) -> Map<
    Seq<char>,
    u32,
>
    decreases n,
{
    if n <= 0 {
        Map::empty()
    } else {
        let e = elements[n - 1];
        let before = unplaced_counts(elements, tiles, n - 1);
        if e.count > named(tiles, e.name@) {
            before.insert(e.name@, (e.count - named(tiles, e.name@)) as u32)
        } else {
            before
        }
    }
}

/// The pieces that the first `n` kinds want, by name. Of kinds with the same name the last one
/// counts.
pub open spec fn wanted_counts(elements: Seq<ElementType>, n: int) -> Map<Seq<char>, u32>
    decreases n,
{
    if n <= 0 {
        Map::empty()
    } else {
        wanted_counts(elements, n - 1).insert(elements[n - 1].name@, elements[n - 1].count)
    }
}

/// No two kinds have the same name.
pub open spec fn distinct_names(specs: Seq<ElementType>) -> bool {
    forall|i: int, j: int|
        0 <= i < j < specs.len() ==> (#[trigger] specs[i]).name@ != (#[trigger] specs[j]).name@
}

/// Names are counted list by list.
pub proof fn lemma_named_concat(a: Seq<Tile>, b: Seq<Tile>, name: Seq<char>)
    ensures
        named(a + b, name) == named(a, name) + named(b, name),
    decreases b.len(),
{
    if b.len() == 0 {
        assert(a + b =~= a);
    } else {
        assert((a + b).drop_last() =~= a + b.drop_last());
        lemma_named_concat(a, b.drop_last(), name);
    }
}

/// Moving pieces does not change their names.
proof fn lemma_named_moved(tiles: Seq<Tile>, dx: int, dy: int, name: Seq<char>)
    ensures
        named(all_moved(tiles, dx, dy), name) == named(tiles, name),
    decreases tiles.len(),
{
    if tiles.len() > 0 {
        assert(all_moved(tiles, dx, dy).drop_last() =~= all_moved(tiles.drop_last(), dx, dy));
        lemma_named_moved(tiles.drop_last(), dx, dy, name);
    }
}

proof fn lemma_named_joined(
    piece: Tile,
    vertical: bool,
    first: Seq<Tile>,
    second: Seq<Tile>,
    name: Seq<char>,
)
    ensures
        named(joined_tiles(piece, vertical, first, second), name) == (if piece.name == name {
            1nat
        } else {
            0nat
        }) + named(first, name) + named(second, name),
{
    let a = first_part(0, 0, piece.w, piece.h, vertical);
    let b = second_part(0, 0, piece.w, piece.h, vertical);
    lemma_named_concat(
        seq![piece] + all_moved(first, a.x, a.y),
        all_moved(second, b.x, b.y),
        name,
    );
    lemma_named_concat(seq![piece], all_moved(first, a.x, a.y), name);
    lemma_named_moved(first, a.x, a.y, name);
    lemma_named_moved(second, b.x, b.y, name);
    assert(seq![piece].drop_last() =~= Seq::<Tile>::empty());
    assert(named(Seq::<Tile>::empty(), name) == 0);
    assert(named(seq![piece], name) == (if piece.name == name {
        1nat
    } else {
        0nat
    }));
}

/// If no two kinds have the same name, a plan of cuts yields as many pieces with a name as it
/// uses of the kind.
proof fn lemma_named_tree(tree: CutTree, specs: Seq<ElementType>, w: int, h: int, i: int)
    requires
        tree.fits(specs, w, h),
        distinct_names(specs),
        0 <= i < specs.len(),
    ensures
        named(tree.tiles(specs), specs[i].name@) == tree.uses(i),
    decreases tree,
{
    match tree {
        CutTree::Leave => {},
        CutTree::Cut { kind, rotated, vertical, first, second } => {
            let piece = specs[kind].tile(0, 0, rotated);
            let a = first_part(w, h, piece.w, piece.h, vertical);
            let b = second_part(w, h, piece.w, piece.h, vertical);
            lemma_named_tree(*first, specs, a.w, a.h, i);
            lemma_named_tree(*second, specs, b.w, b.h, i);
            lemma_named_joined(
                piece,
                vertical,
                first.tiles(specs),
                second.tiles(specs),
                specs[i].name@,
            );
            if kind < i {
                assert(specs[kind].name@ != specs[i].name@);
            } else if i < kind {
                assert(specs[i].name@ != specs[kind].name@);
            }
        },
    }
}

/// If no two kinds have the same name, a layout that accounts for its pieces places as many
/// pieces with the name of a kind as it takes from that kind.
pub proof fn lemma_named_accounted(
    specs: Seq<ElementType>,
    w: int,
    h: int,
    counts: Seq<u32>,
    layout: Layout,
    i: int,
)
    requires
        accounted(specs, w, h, counts, layout),
        specs.len() <= counts.len(),
        distinct_names(specs),
        0 <= i < specs.len(),
    ensures
        named(layout.tiles, specs[i].name@) + layout.remaining[i] == counts[i],
{
    let tree = choose|tree: CutTree| #[trigger]
        realises(tree, specs, w, h, layout) && uses_up(tree, counts, layout.remaining);
    lemma_named_tree(tree, specs, w, h, i);
    assert(counts[i] == layout.remaining[i] + tree.uses(i));
}

/// A layout that can be cut has no piece with a name that no kind has.
pub proof fn lemma_named_foreign(
    specs: Seq<ElementType>,
    w: int,
    h: int,
    counts: Seq<u32>,
    layout: Layout,
    name: Seq<char>,
)
    requires
        accounted(specs, w, h, counts, layout),
        forall|i: int| 0 <= i < specs.len() ==> (#[trigger] specs[i]).name@ != name,
    ensures
        named(layout.tiles, name) == 0,
{
    let tree = choose|tree: CutTree| #[trigger]
        realises(tree, specs, w, h, layout) && uses_up(tree, counts, layout.remaining);
    lemma_tree_foreign(tree, specs, w, h, name);
}

proof fn lemma_tree_foreign(
    tree: CutTree,
    specs: Seq<ElementType>,
    w: int,
    h: int,
    name: Seq<char>,
)
    requires
        tree.fits(specs, w, h),
        forall|i: int| 0 <= i < specs.len() ==> (#[trigger] specs[i]).name@ != name,
    ensures
        named(tree.tiles(specs), name) == 0,
    decreases tree,
{
    match tree {
        CutTree::Leave => {},
        CutTree::Cut { kind, rotated, vertical, first, second } => {
            let piece = specs[kind].tile(0, 0, rotated);
            let a = first_part(w, h, piece.w, piece.h, vertical);
            let b = second_part(w, h, piece.w, piece.h, vertical);
            lemma_tree_foreign(*first, specs, a.w, a.h, name);
            lemma_tree_foreign(*second, specs, b.w, b.h, name);
            lemma_named_joined(piece, vertical, first.tiles(specs), second.tiles(specs), name);
        },
    }
}

/// Counting on to more pieces does not lower a count.
proof fn lemma_named_prefix(tiles: Seq<Tile>, n: int, name: Seq<char>)
    requires
        0 <= n <= tiles.len(),
    ensures
        named(tiles.take(n), name) <= named(tiles, name),
    decreases tiles.len(),
{
    if n < tiles.len() {
        assert(tiles.drop_last().take(n) =~= tiles.take(n));
        lemma_named_prefix(tiles.drop_last(), n, name);
    } else {
        assert(tiles.take(n) =~= tiles);
    }
}

/// Counts the pieces of a layout by name.
pub fn tally_placed(items: &[PlacedItem]) -> (tally: Tally)
    requires
        forall|name: Seq<char>| #[trigger] named(tiles_of(items@), name) <= u32::MAX,
    ensures
        tally.wf(),
        tally@ == placed_counts(tiles_of(items@)),
{
    let ghost tiles = tiles_of(items@);
    let mut tally = Tally::new();
    let mut i: usize = 0;
    assert(tally@ =~= placed_counts(tiles.take(0)));
    while i < items.len()
        invariant
            i <= items.len(),
            tiles == tiles_of(items@),
            forall|name: Seq<char>| #[trigger] named(tiles, name) <= u32::MAX,
            tally.wf(),
            tally@ == placed_counts(tiles.take(i as int)),
        decreases items.len() - i,
    {
        let item = &items[i];
        let ghost before = tiles.take(i as int);
        let ghost after = tiles.take(i + 1);
        proof {
            assert(after.drop_last() =~= before);
            assert(after.last() == item@);
            lemma_named_prefix(tiles, i + 1, item.name@);
        }
        let so_far: u32 = match tally.get(&item.name) {
            Some(n) => n,
            None => 0,
        };
        assert(named(tiles, item.name@) <= u32::MAX);
        assert(so_far == named(before, item.name@));
        tally.set(&item.name, so_far + 1);
        assert(tally@ =~= placed_counts(after));
        i = i + 1;
    }
    assert(tiles.take(i as int) =~= tiles);
    tally
}

/// Counts the pieces that are wanted and that a layout does not place.
pub fn tally_unplaced(element_types: &[ElementType], placed: &Tally, items: &[PlacedItem]) -> (
tally: Tally)
    requires
        placed.wf(),
        placed@ == placed_counts(tiles_of(items@)),
        forall|i: int|
            0 <= i < element_types.len() ==> named(
                tiles_of(items@),
                (#[trigger] element_types[i]).name@,
            ) <= element_types[i].count,
    ensures
        tally.wf(),
        tally@ == unplaced_counts(
            element_types@,
            tiles_of(items@),
            element_types.len() as int,
        ),
{
    let ghost tiles = tiles_of(items@);
    let mut tally = Tally::new();
    let mut i: usize = 0;
    while i < element_types.len()
        invariant
            i <= element_types.len(),
            placed.wf(),
            placed@ == placed_counts(tiles),
            forall|k: int|
                0 <= k < element_types.len() ==> named(tiles, (#[trigger] element_types[k]).name@)
                    <= element_types[k].count,
            tally.wf(),
            tally@ == unplaced_counts(element_types@, tiles, i as int),
        decreases element_types.len() - i,
    {
        let spec = &element_types[i];
        assert(named(tiles, element_types[i as int].name@) <= spec.count);
        let done: u32 = match placed.get(&spec.name) {
            Some(n) => n,
            None => 0,
        };
        let unplaced: u32 = spec.count - done;
        if unplaced > 0 {
            tally.set(&spec.name, unplaced);
        }
        i = i + 1;
    }
    tally
}

/// Counts the pieces that are wanted.
pub fn tally_wanted(element_types: &[ElementType]) -> (tally: Tally)
    ensures
        tally.wf(),
        tally@ == wanted_counts(element_types@, element_types.len() as int),
{
    let mut tally = Tally::new();
    let mut i: usize = 0;
    while i < element_types.len()
        invariant
            i <= element_types.len(),
            tally.wf(),
            tally@ == wanted_counts(element_types@, i as int),
        decreases element_types.len() - i,
    {
        tally.set(&element_types[i].name, element_types[i].count);
        i = i + 1;
    }
    tally
}

} // verus!
