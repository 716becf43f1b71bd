//! What the score of a move does not depend on.

use crate::pieces::ElementType;
use crate::score::{score, strips, Strips};
use vstd::prelude::*;
use vstd::seq_lib::{lemma_fold_left_permutation, to_multiset_build, to_multiset_insert};

verus! {

/// Each kind together with how many of its pieces are left.
pub open spec fn pairs(specs: Seq<ElementType>, counts: Seq<u32>) -> Seq<(ElementType, u32)> {
    Seq::new(specs.len(), |i: int| (specs[i], counts[i]))
}

/// Two kinds count the same for a score: their sides are the same, in any order, and either both
/// have pieces left or neither.
pub open spec fn alike(a: (ElementType, u32), b: (ElementType, u32)) -> bool {
    &&& a.1 > 0 <==> b.1 > 0
    &&& (a.0.width == b.0.width && a.0.height == b.0.height) || (a.0.width == b.0.height
        && a.0.height == b.0.width)
}

/// What a kind adds to the matching sides.
spec fn sides_of(s: Strips, p: (ElementType, u32)) -> int {
    if p.1 > 0 && s.take(p.0) {
        s.matching_sides(p.0)
    } else {
        0
    }
}

/// What a kind adds to the small pieces that fit.
spec fn small_of(s: Strips, p: (ElementType, u32)) -> int {
    if p.1 > 0 && s.take(p.0) && p.0.area() < 4000 {
        1
    } else {
        0
    }
}

/// Some kind of the list has a piece left that fits.
spec fn some_fits(s: Strips, list: Seq<(ElementType, u32)>) -> bool {
    exists|p: (ElementType, u32)| #[trigger] list.contains(p) && p.1 > 0 && s.take(p.0)
}

spec fn add_sides(s: Strips) -> spec_fn(int, (ElementType, u32)) -> int {
    |sum: int, p: (ElementType, u32)| sum + sides_of(s, p)
}

spec fn add_small(s: Strips) -> spec_fn(int, (ElementType, u32)) -> int {
    |sum: int, p: (ElementType, u32)| sum + small_of(s, p)
}

/// The tallies of the first `n` kinds are sums over the list of pairs.
proof fn lemma_tallies_fold(s: Strips, specs: Seq<ElementType>, counts: Seq<u32>, n: int)
    requires
        0 <= n <= specs.len(),
    ensures
        s.matches(specs, counts, n) == pairs(specs, counts).take(n).fold_left(0, add_sides(s)),
        s.small_ones(specs, counts, n) == pairs(specs, counts).take(n).fold_left(0, add_small(s)),
    decreases n,
{
    let list = pairs(specs, counts);
    if n > 0 {
        lemma_tallies_fold(s, specs, counts, n - 1);
        assert(list.take(n).drop_last() =~= list.take(n - 1));
        assert(list.take(n).last() == (specs[n - 1], counts[n - 1]));
    }
}

proof fn lemma_usable_pairs(s: Strips, specs: Seq<ElementType>, counts: Seq<u32>)
    ensures
        s.usable(specs, counts) == some_fits(s, pairs(specs, counts)),
{
    let list = pairs(specs, counts);
    if s.usable(specs, counts) {
        let i = choose|i: int| 0 <= i < specs.len() && #[trigger] s.take_some(specs, counts, i);
        assert(list[i] == (specs[i], counts[i]));
        assert(list.contains((specs[i], counts[i])));
    }
    if some_fits(s, list) {
        let p = choose|p: (ElementType, u32)| #[trigger]
            list.contains(p) && p.1 > 0 && s.take(p.0);
        let i = choose|i: int| 0 <= i < list.len() && list[i] == p;
        assert(s.take_some(specs, counts, i));
    }
}

/// A score does not depend on the order of the kinds.
pub proof fn lemma_score_reordered(
    w: int,
    h: int,
    iw: int,
    ih: int,
    left: int,
    specs: Seq<ElementType>,
    counts: Seq<u32>,
    specs2: Seq<ElementType>,
    counts2: Seq<u32>,
)
    requires
        pairs(specs, counts).to_multiset() == pairs(specs2, counts2).to_multiset(),
    ensures
        score(w, h, iw, ih, left, specs, counts) == score(w, h, iw, ih, left, specs2, counts2),
{
    broadcast use vstd::seq_lib::group_to_multiset_ensures;

    let s = strips(w, h, iw, ih);
    let a = pairs(specs, counts);
    let b = pairs(specs2, counts2);
    lemma_tallies_fold(s, specs, counts, specs.len() as int);
    lemma_tallies_fold(s, specs2, counts2, specs2.len() as int);
    assert(a.take(specs.len() as int) =~= a);
    assert(b.take(specs2.len() as int) =~= b);
    lemma_fold_left_permutation(a, b, add_sides(s), 0);
    lemma_fold_left_permutation(a, b, add_small(s), 0);
    lemma_usable_pairs(s, specs, counts);
    lemma_usable_pairs(s, specs2, counts2);
    assert forall|p: (ElementType, u32)| a.contains(p) == b.contains(p) by {
        assert(a.to_multiset().count(p) == b.to_multiset().count(p));
    }
    assert(some_fits(s, a) == some_fits(s, b)) by {
        if some_fits(s, a) {
            let p = choose|p: (ElementType, u32)| #[trigger]
                a.contains(p) && p.1 > 0 && s.take(p.0);
            assert(b.contains(p));
        }
        if some_fits(s, b) {
            let p = choose|p: (ElementType, u32)| #[trigger]
                b.contains(p) && p.1 > 0 && s.take(p.0);
            assert(a.contains(p));
        }
    }
}

/// The tallies of kinds that count the same are the same.
proof fn lemma_tallies_alike(
    s: Strips,
    specs: Seq<ElementType>,
    counts: Seq<u32>,
    specs2: Seq<ElementType>,
    counts2: Seq<u32>,
    n: int,
)
    requires
        forall|k: int|
            0 <= k < n ==> alike(
                (#[trigger] specs[k], counts[k]),
                (specs2[k], counts2[k]),
            ),
    ensures
        s.matches(specs, counts, n) == s.matches(specs2, counts2, n),
        s.small_ones(specs, counts, n) == s.small_ones(specs2, counts2, n),
        forall|k: int|
            0 <= k < n ==> #[trigger] s.take_some(specs, counts, k) == s.take_some(
                specs2,
                counts2,
                k,
            ),
    decreases n,
{
    if n > 0 {
        lemma_tallies_alike(s, specs, counts, specs2, counts2, n - 1);
        let a = specs[n - 1];
        let b = specs2[n - 1];
        assert(alike((specs[n - 1], counts[n - 1]), (specs2[n - 1], counts2[n - 1])));
        let (aw, ah, bw, bh) = (a.width, a.height, b.width, b.height);
        assert(aw * ah == bw * bh) by (nonlinear_arith)
            requires
                (aw == bw && ah == bh) || (aw == bh && ah == bw),
        ;
    }
}

/// A score stays the same when the sides of kinds are swapped, and when positive counts are
/// replaced by other positive counts.
pub proof fn lemma_score_alike(
    w: int,
    h: int,
    iw: int,
    ih: int,
    left: int,
    specs: Seq<ElementType>,
    counts: Seq<u32>,
    specs2: Seq<ElementType>,
    counts2: Seq<u32>,
)
    requires
        specs.len() == specs2.len(),
        forall|k: int|
            0 <= k < specs.len() ==> alike(
                (#[trigger] specs[k], counts[k]),
                (specs2[k], counts2[k]),
            ),
    ensures
        score(w, h, iw, ih, left, specs, counts) == score(w, h, iw, ih, left, specs2, counts2),
{
    let s = strips(w, h, iw, ih);
    let n = specs.len() as int;
    lemma_tallies_alike(s, specs, counts, specs2, counts2, n);
    if s.usable(specs, counts) {
        let k = choose|k: int| 0 <= k < n && #[trigger] s.take_some(specs, counts, k);
        assert(s.take_some(specs2, counts2, k));
    }
    if s.usable(specs2, counts2) {
        let k = choose|k: int| 0 <= k < n && #[trigger] s.take_some(specs2, counts2, k);
        assert(s.take_some(specs, counts, k));
    }
}

/// A score stays the same when the sides of one kind are swapped.
pub proof fn lemma_score_turned(
    w: int,
    h: int,
    iw: int,
    ih: int,
    left: int,
    specs: Seq<ElementType>,
    counts: Seq<u32>,
    i: int,
)
    requires
        0 <= i < specs.len(),
    ensures
        score(w, h, iw, ih, left, specs, counts) == score(
            w,
            h,
            iw,
            ih,
            left,
            specs.update(
                i,
                ElementType { width: specs[i].height, height: specs[i].width, ..specs[i] },
            ),
            counts,
        ),
{
    let turned = ElementType { width: specs[i].height, height: specs[i].width, ..specs[i] };
    lemma_score_alike(w, h, iw, ih, left, specs, counts, specs.update(i, turned), counts);
}

/// A score stays the same when a positive count is replaced by another positive one.
pub proof fn lemma_score_count(
    w: int,
    h: int,
    iw: int,
    ih: int,
    left: int,
    specs: Seq<ElementType>,
    counts: Seq<u32>,
    i: int,
    count: u32,
)
    requires
        0 <= i < counts.len(),
        specs.len() <= counts.len(),
        counts[i] > 0,
        count > 0,
    ensures
        score(w, h, iw, ih, left, specs, counts) == score(
            w,
            h,
            iw,
            ih,
            left,
            specs,
            counts.update(i, count),
        ),
{
    lemma_score_alike(w, h, iw, ih, left, specs, counts, specs, counts.update(i, count));
}

/// A score stays the same when a kind without pieces is added, at any place in the list.
pub proof fn lemma_score_absent(
    w: int,
    h: int,
    iw: int,
    ih: int,
    left: int,
    specs: Seq<ElementType>,
    counts: Seq<u32>,
    at: int,
    extra: ElementType,
)
    requires
        0 <= at <= specs.len(),
        specs.len() == counts.len(),
    ensures
        score(w, h, iw, ih, left, specs, counts) == score(
            w,
            h,
            iw,
            ih,
            left,
            specs.insert(at, extra),
            counts.insert(at, 0),
        ),
{
    let s = strips(w, h, iw, ih);
    let n = specs.len() as int;
    let list = pairs(specs, counts);
    let none = (extra, 0u32);
    let specs2 = specs.push(extra);
    let counts2 = counts.push(0);
    assert(pairs(specs.insert(at, extra), counts.insert(at, 0)) =~= list.insert(at, none));
    assert(pairs(specs2, counts2) =~= list.push(none));
    to_multiset_insert(list, at, none);
    to_multiset_build(list, none);
    lemma_score_reordered(
        w,
        h,
        iw,
        ih,
        left,
        specs.insert(at, extra),
        counts.insert(at, 0),
        specs2,
        counts2,
    );
    lemma_tallies_alike(s, specs, counts, specs2, counts2, n);
    if s.usable(specs, counts) {
        let k = choose|k: int| 0 <= k < n && #[trigger] s.take_some(specs, counts, k);
        assert(s.take_some(specs2, counts2, k));
    }
    if s.usable(specs2, counts2) {
        let k = choose|k: int| 0 <= k < n + 1 && #[trigger] s.take_some(specs2, counts2, k);
        assert(s.take_some(specs, counts, k));
    }
}

/// Strips that are turned by a quarter have the same tallies.
proof fn lemma_tallies_quarter(
    s: Strips,
    t: Strips,
    specs: Seq<ElementType>,
    counts: Seq<u32>,
    n: int,
)
    requires
        t == (Strips { w: s.h, h: s.w, rw: s.rh, rh: s.rw }),
    ensures
        s.matches(specs, counts, n) == t.matches(specs, counts, n),
        s.small_ones(specs, counts, n) == t.small_ones(specs, counts, n),
    decreases n,
{
    if n > 0 {
        lemma_tallies_quarter(s, t, specs, counts, n - 1);
    }
}

/// A score stays the same when the part and the piece are turned by a quarter.
pub proof fn lemma_score_quarter_turn(
    w: int,
    h: int,
    iw: int,
    ih: int,
    left: int,
    specs: Seq<ElementType>,
    counts: Seq<u32>,
)
    ensures
        score(h, w, ih, iw, left, specs, counts) == score(w, h, iw, ih, left, specs, counts),
{
    let s = strips(w, h, iw, ih);
    let t = strips(h, w, ih, iw);
    lemma_tallies_quarter(s, t, specs, counts, specs.len() as int);
    if s.usable(specs, counts) {
        let k = choose|k: int| 0 <= k < specs.len() && #[trigger] s.take_some(specs, counts, k);
        assert(t.take_some(specs, counts, k));
    }
    if t.usable(specs, counts) {
        let k = choose|k: int| 0 <= k < specs.len() && #[trigger] t.take_some(specs, counts, k);
        assert(s.take_some(specs, counts, k));
    }
    assert(t.double_area() == s.double_area() && t.rw * t.rh == s.rw * s.rh && iw * ih == ih * iw)
        by (nonlinear_arith)
        requires
            t.w == s.h,
            t.h == s.w,
            t.rw == s.rh,
            t.rh == s.rw,
            s.double_area() == s.rw * s.h + s.w * s.rh,
            t.double_area() == t.rw * t.h + t.w * t.rh,
    ;
}

/// A piece of a kind goes into the strip to the right or into the one below, each of full length,
/// turned or not.
pub open spec fn goes_beside(e: ElementType, w: int, h: int, rw: int, rh: int) -> bool {
    ||| e.width <= rw && e.height <= h
    ||| e.height <= rw && e.width <= h
    ||| e.width <= w && e.height <= rh
    ||| e.height <= w && e.width <= rh
}

/// The score without any kind to go on with: the area of the piece, a bonus for each side of the
/// part that it spans, and a bonus for each piece that is left, less a fifth of the area that is
/// not covered, and less the penalty for strips that nothing goes into. A piece that fills the
/// part has the highest score.
pub proof fn lemma_score_alone(w: int, h: int, iw: int, ih: int, left: int)
    ensures
        ({
            let rw = if iw <= w {
                w - iw
            } else {
                0
            };
            let rh = if ih <= h {
                h - ih
            } else {
                0
            };
            let strips = rw * h + w * rh;
            score(w, h, iw, ih, left, seq![], seq![]) == (if iw == w && ih == h {
                2_305_843_009_213_693_951
            } else {
                iw * ih + (if iw == w {
                    100_000_000int
                } else {
                    0
                }) + (if ih == h {
                    100_000_000int
                } else {
                    0
                }) - (strips - rw * rh) / 5 - (if rw > 0 || rh > 0 {
                    300_000_000 + 1000 * strips
                } else {
                    0
                }) + 1500 * left
            })
        }),
{
    let s = strips(w, h, iw, ih);
    assert(!s.usable(seq![], seq![]));
    assert(s.matches(seq![], seq![], 0) == 0 && s.small_ones(seq![], seq![], 0) == 0);
}

/// What one more kind adds to a score: nothing if none of its pieces is left or goes into a strip.
/// Else it adds a bonus for each strip that is as wide as a side of the piece, one if the piece
/// is small, and it takes back the penalty if nothing else went into a strip.
pub proof fn lemma_score_one_more(
    w: int,
    h: int,
    iw: int,
    ih: int,
    left: int,
    specs: Seq<ElementType>,
    counts: Seq<u32>,
    e: ElementType,
    count: u32,
)
    requires
        specs.len() == counts.len(),
        iw != w || ih != h,
    ensures
        ({
            let rw = if iw <= w {
                w - iw
            } else {
                0
            };
            let rh = if ih <= h {
                h - ih
            } else {
                0
            };
            let some = exists|i: int|
                0 <= i < specs.len() && counts[i] > 0 && goes_beside(
                    #[trigger] specs[i],
                    w,
                    h,
                    rw,
                    rh,
                );
            let before = score(w, h, iw, ih, left, specs, counts);
            let after = score(w, h, iw, ih, left, specs.push(e), counts.push(count));
            after - before == (if count == 0 || !goes_beside(e, w, h, rw, rh) {
                0int
            } else {
                (if e.width == rw || e.height == rw {
                    35_000_000int
                } else {
                    0
                }) + (if e.width == rh || e.height == rh {
                    35_000_000int
                } else {
                    0
                }) + (if e.width * e.height < 4000 {
                    8_000_000int
                } else {
                    0
                }) + (if !some && (rw > 0 || rh > 0) {
                    300_000_000 + 1000 * (rw * h + w * rh)
                } else {
                    0
                })
            })
        }),
{
    let s = strips(w, h, iw, ih);
    let n = specs.len() as int;
    let more = specs.push(e);
    let longer = counts.push(count);
    lemma_tallies_alike(s, specs, counts, more, longer, n);
    assert(s.take_some(more, longer, n) == (count > 0 && goes_beside(e, w, h, s.rw, s.rh)));
    if s.usable(specs, counts) {
        let k = choose|k: int| 0 <= k < n && #[trigger] s.take_some(specs, counts, k);
        assert(s.take_some(more, longer, k));
        assert(goes_beside(specs[k], w, h, s.rw, s.rh));
    }
    if s.usable(more, longer) {
        let k = choose|k: int| 0 <= k < n + 1 && #[trigger] s.take_some(more, longer, k);
        if k < n {
            assert(s.take_some(specs, counts, k));
        }
    }
    if exists|i: int|
        0 <= i < specs.len() && counts[i] > 0 && goes_beside(
            #[trigger] specs[i],
            w,
            h,
            s.rw,
            s.rh,
        ) {
        let i = choose|i: int|
            0 <= i < specs.len() && counts[i] > 0 && goes_beside(
                #[trigger] specs[i],
                w,
                h,
                s.rw,
                s.rh,
            );
        assert(s.take_some(specs, counts, i));
    }
}

/// A piece that fills the part has the highest score, whatever else is left. Any other score grows
/// by fifteen hundred with every piece that is left of the kind.
pub proof fn lemma_score_left(
    w: int,
    h: int,
    iw: int,
    ih: int,
    left: int,
    specs: Seq<ElementType>,
    counts: Seq<u32>,
)
    ensures
        iw == w && ih == h ==> score(w, h, iw, ih, left, specs, counts)
            == 2_305_843_009_213_693_951,
        iw != w || ih != h ==> score(w, h, iw, ih, left + 1, specs, counts) == score(
            w,
            h,
            iw,
            ih,
            left,
            specs,
            counts,
        ) + 1500,
{
}

} // verus!
