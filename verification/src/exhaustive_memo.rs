//! What the exhaustive search has found out about parts of the sheet, by size and by the pieces
//! that were left.

use crate::layout::Layout;
use crate::memo::{counts_hash, hash_counts, lemma_packed_key, pack_key, packed_key};
use crate::pieces::{copy_items, tiles_of, PlacedItem};
use std::collections::HashMap;
use vstd::prelude::*;
use vstd::slice::slice_to_vec;

verus! {

/// A layout of a part of the sheet: the pieces placed, those left, and the area covered.
#[derive(Debug, PartialEq, Eq)]
pub struct Solution {
    pub items: Vec<PlacedItem>,
    pub remaining_counts: Vec<u32>,
    pub total_area: u32,
}

impl View for Solution {
    type V = Layout;

    open spec fn view(&self) -> Layout {
        Layout {
            tiles: tiles_of(self.items@),
            remaining: self.remaining_counts@,
            area: self.total_area as int,
        }
    }
}

impl Clone for Solution {
    fn clone(&self) -> (copy: Self)
        ensures
            copy@ == self@,
            copy.items@ == self.items@,
    {
        Solution {
            items: copy_items(self.items.as_slice()),
            remaining_counts: slice_to_vec(self.remaining_counts.as_slice()),
            total_area: self.total_area,
        }
    }
}

/// A part of the sheet by its size, and the pieces that were left.
#[derive(Debug, PartialEq, Eq)]
pub struct MemoKey {
    pub width: u32,
    pub height: u32,
    pub counts: Vec<u32>,
}

/// What a key stands for: the sides of a part of the sheet, and how many pieces of each kind
/// there are for it.
pub struct Part {
    pub w: int,
    pub h: int,
    pub counts: Seq<u32>,
}

impl View for MemoKey {
    type V = Part;

    open spec fn view(&self) -> Part {
        Part { w: self.width as int, h: self.height as int, counts: self.counts@ }
    }
}

/// A key with what is kept under it.
struct Entry {
    key: MemoKey,
    solution: Solution,
}

/// What a list of entries holds for a part: the latest entry counts.
spec fn latest(entries: Seq<Entry>, part: Part) -> Option<Layout>
    decreases entries.len(),
{
    if entries.len() == 0 {
        None
    } else if entries.last().key@ == part {
        Some(entries.last().solution@)
    } else {
        latest(entries.drop_last(), part)
    }
}

/// The number of the list that holds the entries for a part.
spec fn shelf(part: Part) -> u128 {
    packed_key(part.w as u32, part.h as u32, counts_hash(part.counts)) as u128
}

/// The layouts found so far. Parts whose counts have the same hash share a list.
pub struct MemoCache {
    shelves: HashMap<u128, Vec<Entry>>,
}

impl View for MemoCache {
    type V = Map<Part, Layout>;

    closed spec fn view(&self) -> Map<Part, Layout> {
        Map::new(
            |part: Part| latest(self.on_shelf(shelf(part)), part) is Some,
            |part: Part| latest(self.on_shelf(shelf(part)), part).unwrap(),
        )
    }
}

/// Whether two vectors of counts are the same.
fn same_counts(a: &[u32], b: &[u32]) -> (same: bool)
    ensures
        same == (a@ == b@),
{
    if a.len() != b.len() {
        return false;
    }
    let mut i: usize = 0;
    while i < a.len()
        invariant
            i <= a.len(),
            a.len() == b.len(),
            forall|k: int| 0 <= k < i ==> a[k] == b[k],
        decreases a.len() - i,
    {
        if a[i] != b[i] {
            return false;
        }
        i = i + 1;
    }
    assert(a@ =~= b@);
    true
}

impl MemoCache {
    /// The list with the given number.
    closed spec fn on_shelf(self, code: u128) -> Seq<Entry> {
        if self.shelves@.contains_key(code) {
            self.shelves@[code]@
        } else {
            Seq::empty()
        }
    }

    /// Nothing found yet.
    pub fn new() -> (memo: MemoCache)
        ensures
            memo@ == Map::<Part, Layout>::empty(),
    {
        let memo = MemoCache { shelves: HashMap::new() };
        assert(memo@ =~= Map::<Part, Layout>::empty());
        memo
    }

    /// A copy of what is kept under a key.
    pub fn get(&self, key: &MemoKey) -> (found: Option<Solution>)
        ensures
            match found {
                Some(s) => self@.contains_key(key@) && s@ == self@[key@],
                None => !self@.contains_key(key@),
            },
    {
        broadcast use vstd::std_specs::hash::group_hash_axioms;

        let code = pack_key(key.width, key.height, hash_counts(key.counts.as_slice()));
        proof {
            lemma_packed_key(
                key.width,
                key.height,
                counts_hash(key.counts@),
                key.width,
                key.height,
                counts_hash(key.counts@),
            );
        }
        match self.shelves.get(&code) {
            None => None,
            Some(entries) => {
                let mut n: usize = entries.len();
                assert(entries@.take(n as int) =~= entries@);
                while n > 0
                    invariant
                        n <= entries.len(),
                        latest(entries@, key@) == latest(entries@.take(n as int), key@),
                        self.on_shelf(shelf(key@)) == entries@,
                    decreases n,
                {
                    let entry = &entries[n - 1];
                    let ghost seen = entries@.take(n as int);
                    assert(seen.last() == *entry);
                    assert(seen.drop_last() =~= entries@.take(n - 1));
                    if entry.key.width == key.width && entry.key.height == key.height
                        && same_counts(entry.key.counts.as_slice(), key.counts.as_slice()) {
                        return Some(entry.solution.clone());
                    }
                    n = n - 1;
                }
                None
            },
        }
    }

    /// Keeps a layout under a key.
    pub fn insert(&mut self, key: MemoKey, solution: Solution)
        ensures
            final(self)@ == old(self)@.insert(key@, solution@),
    {
        broadcast use vstd::std_specs::hash::group_hash_axioms;

        let ghost start = *self;
        let ghost part = key@;
        let ghost layout = solution@;
        let code = pack_key(key.width, key.height, hash_counts(key.counts.as_slice()));
        proof {
            lemma_packed_key(
                key.width,
                key.height,
                counts_hash(key.counts@),
                key.width,
                key.height,
                counts_hash(key.counts@),
            );
            assert(code == shelf(part));
        }
        let mut entries = match self.shelves.remove(&code) {
            Some(entries) => entries,
            None => Vec::new(),
        };
        assert(entries@ =~= start.on_shelf(code));
        entries.push(Entry { key, solution });
        self.shelves.insert(code, entries);
        proof {
            let before = start.on_shelf(code);
            let after = self.on_shelf(code);
            assert(after.drop_last() =~= before);
            assert forall|c: u128| c != code implies #[trigger] self.on_shelf(c)
                == start.on_shelf(c) by {}
            assert forall|p: Part| #[trigger]
                latest(self.on_shelf(shelf(p)), p) == (if p == part {
                Some(layout)
            } else {
                latest(start.on_shelf(shelf(p)), p)
            }) by {
                if shelf(p) == code {
                    assert(self.on_shelf(shelf(p)) == after);
                }
            }
            assert(self@ =~= start@.insert(part, layout));
        }
    }
}

} // verus!
