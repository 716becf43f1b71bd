//! What the beam search has found out about parts of the sheet, by size and by the pieces that
//! were left.

use crate::layout::Layout;
use crate::pieces::{copy_items, tiles_of, within, ElementType, PlacedItem};
use std::collections::HashMap;
use std::collections::hash_map::DefaultHasher;
use std::hash::Hasher;
use vstd::bytes::{spec_u32_to_le_bytes, spec_u64_to_le_bytes, u32_to_le_bytes, u64_to_le_bytes};
use vstd::prelude::*;
use vstd::slice::slice_to_vec;
use vstd::std_specs::hash::DefaultHasherAdditionalSpecFns;

verus! {

/// A layout of a part of the sheet: the pieces placed, those left, and the area covered.
#[derive(Debug, PartialEq, Eq)]
pub struct Solution {
    pub items: Vec<PlacedItem>,
    pub remaining_counts: Vec<u32>,
    pub total_area: u64,
}

impl View for Solution {
    type V = Layout;

    open spec fn view(&self) -> Layout {
        Layout {
            tiles: tiles_of(self.items@),
            remaining: self.remaining_counts@,
            area: self.total_area as int,
        }
    }
}

impl Clone for Solution {
    fn clone(&self) -> (copy: Self)
        ensures
            copy@ == self@,
            copy.items@ == self.items@,
    {
        Solution {
            items: copy_items(self.items.as_slice()),
            remaining_counts: slice_to_vec(self.remaining_counts.as_slice()),
            total_area: self.total_area,
        }
    }
}

/// The bytes of the first `n` counts, one after the other.
pub open spec fn count_bytes(counts: Seq<u32>, n: int) -> Seq<u8>
    decreases n,
{
    if n <= 0 {
        seq![]
    } else {
        count_bytes(counts, n - 1) + spec_u32_to_le_bytes(counts[n - 1])
    }
}

/// What the hasher is given for a vector of counts: its length, then its counts.
pub open spec fn hash_input(counts: Seq<u32>) -> Seq<Seq<u8>> {
    seq![
        spec_u64_to_le_bytes(counts.len() as u64),
        count_bytes(counts, counts.len() as int),
    ]
}

/// The hash of a vector of counts.
pub open spec fn counts_hash(counts: Seq<u32>) -> u64 {
    DefaultHasher::spec_finish(hash_input(counts))
}

/// The hash tells all vectors of counts apart that have no more pieces than `stock`.
pub open spec fn tells_apart(stock: Seq<u32>) -> bool {
    forall|a: Seq<u32>, b: Seq<u32>|
        within(a, stock) && within(b, stock) && #[trigger] counts_hash(
            a,
        ) == #[trigger] counts_hash(b) ==> a == b
}

/// Hashes a vector of counts.
pub fn hash_counts(counts: &[u32]) -> (hash: u64)
    ensures
        hash == counts_hash(counts@),
{
    let mut bytes: Vec<u8> = Vec::new();
    let mut i: usize = 0;
    while i < counts.len()
        invariant
            i <= counts.len(),
            bytes@ == count_bytes(counts@, i as int),
        decreases counts.len() - i,
    {
        let mut more = u32_to_le_bytes(counts[i]);
        bytes.append(&mut more);
        i = i + 1;
    }
    let length = u64_to_le_bytes(counts.len() as u64);
    let mut hasher = DefaultHasher::new();
    hasher.write(length.as_slice());
    hasher.write(bytes.as_slice());
    assert(hasher@ =~= hash_input(counts@));
    hasher.finish()
}

/// A part of the sheet by its size, and the pieces that were left by their hash.
#[derive(Clone, Copy, Debug, PartialEq, Eq)]
pub struct MemoKey {
    pub width: u32,
    pub height: u32,
    pub counts_hash: u64,
}

/// The key of a `w` by `h` part with the given pieces left.
pub open spec fn memo_key(w: int, h: int, counts: Seq<u32>) -> MemoKey {
    MemoKey { width: w as u32, height: h as u32, counts_hash: counts_hash(counts) }
}

/// Parts of different size have different keys, and so have different pieces that the hash tells
/// apart.
pub proof fn lemma_memo_key(
    w1: int,
    h1: int,
    a: Seq<u32>,
    w2: int,
    h2: int,
    b: Seq<u32>,
    stock: Seq<u32>,
)
    requires
        0 <= w1 <= u32::MAX,
        0 <= h1 <= u32::MAX,
        0 <= w2 <= u32::MAX,
        0 <= h2 <= u32::MAX,
        memo_key(w1, h1, a) == memo_key(w2, h2, b),
    ensures
        w1 == w2,
        h1 == h2,
        tells_apart(stock) && within(a, stock) && within(b, stock) ==> a == b,
{
}

/// Two sides and a hash as one number.
pub open spec fn packed_key(width: u32, height: u32, hash: u64) -> int {
    (width * 0x1_0000_0000 + height) * 0x1_0000_0000_0000_0000 + hash
}

/// Different sides or hashes make different numbers, all of which a `u128` can hold.
pub proof fn lemma_packed_key(w1: u32, h1: u32, c1: u64, w2: u32, h2: u32, c2: u64)
    ensures
        0 <= packed_key(w1, h1, c1) <= u128::MAX,
        packed_key(w1, h1, c1) == packed_key(w2, h2, c2) ==> w1 == w2 && h1 == h2 && c1 == c2,
{
    let a = w1 * 0x1_0000_0000 + h1;
    let b = w2 * 0x1_0000_0000 + h2;
    if packed_key(w1, h1, c1) == packed_key(w2, h2, c2) {
        assert(a == b);
    }
}

/// Two sides and a hash as one number.
pub fn pack_key(width: u32, height: u32, hash: u64) -> (code: u128)
    ensures
        code == packed_key(width, height, hash),
{
    (width as u128 * 0x1_0000_0000 + height as u128) * 0x1_0000_0000_0000_0000 + hash as u128
}

impl MemoKey {
    /// The key of a part with the given pieces left.
    pub fn new(width: u32, height: u32, counts: &[u32]) -> (key: MemoKey)
        ensures
            key == memo_key(width as int, height as int, counts@),
    {
        MemoKey { width, height, counts_hash: hash_counts(counts) }
    }

    /// The number under which the entry for a key is kept.
    pub open spec fn code(self) -> u128 {
        packed_key(self.width, self.height, self.counts_hash) as u128
    }
}

/// The layouts found so far, for one list of kinds and one stock of pieces.
pub struct MemoCache {
    entries: HashMap<u128, Solution>,
    specs: Ghost<Seq<ElementType>>,
    stock: Ghost<Seq<u32>>,
}

impl View for MemoCache {
    type V = Map<MemoKey, Layout>;

    closed spec fn view(&self) -> Map<MemoKey, Layout> {
        Map::new(
            |key: MemoKey| self.entries@.contains_key(key.code()),
            |key: MemoKey| self.entries@[key.code()]@,
        )
    }
}

impl MemoCache {
    /// The kinds of pieces that the layouts are made of.
    pub closed spec fn specs(self) -> Seq<ElementType> {
        self.specs@
    }

    /// The pieces there are in all.
    pub closed spec fn stock(self) -> Seq<u32> {
        self.stock@
    }

    /// Nothing found yet.
    pub fn new(item_specs: &[ElementType], stock: &[u32]) -> (memo: MemoCache)
        ensures
            memo@ == Map::<MemoKey, Layout>::empty(),
            memo.specs() == item_specs@,
            memo.stock() == stock@,
    {
        let memo = MemoCache {
            entries: HashMap::new(),
            specs: Ghost(item_specs@),
            stock: Ghost(stock@),
        };
        assert(memo@ =~= Map::<MemoKey, Layout>::empty());
        memo
    }

    /// A copy of what is kept under a key.
    pub fn get(&self, key: &MemoKey) -> (found: Option<Solution>)
        ensures
            match found {
                Some(s) => self@.contains_key(*key) && s@ == self@[*key],
                None => !self@.contains_key(*key),
            },
    {
        broadcast use vstd::std_specs::hash::group_hash_axioms;

        let code = pack_key(key.width, key.height, key.counts_hash);
        match self.entries.get(&code) {
            Some(s) => Some(s.clone()),
            None => None,
        }
    }

    /// Keeps a layout under a key.
    pub fn insert(&mut self, key: MemoKey, solution: Solution)
        ensures
            final(self)@ == old(self)@.insert(key, solution@),
            final(self).specs() == old(self).specs(),
            final(self).stock() == old(self).stock(),
    {
        broadcast use vstd::std_specs::hash::group_hash_axioms;

        let ghost before = self@;
        let ghost layout = solution@;
        let code = pack_key(key.width, key.height, key.counts_hash);
        self.entries.insert(code, solution);
        proof {
            assert forall|k: MemoKey| #[trigger] k.code() == key.code() implies k == key by {
                lemma_packed_key(
                    k.width,
                    k.height,
                    k.counts_hash,
                    key.width,
                    key.height,
                    key.counts_hash,
                );
                lemma_packed_key(
                    key.width,
                    key.height,
                    key.counts_hash,
                    k.width,
                    k.height,
                    k.counts_hash,
                );
            }
            assert(self@ =~= before.insert(key, layout));
        }
    }
}

} // verus!
