//! How promising it is to put a piece into the corner of a part of the sheet.

use crate::pieces::ElementType;
use vstd::prelude::*;

verus! {

/// In how many of a hundred nodes the best candidate is sent to the end of the beam.
pub const BLINK_PCT: u64 = 15;

/// How large the strips beside a piece may be, added up as if each had the full length.
pub const STRIP_LIMIT: u64 = 0x10_0000_0000_0000;

/// The finaliser of the SplitMix64 generator, after one step of its counter.
pub open spec fn mixed(x: u64) -> u64 {
    let a = x.wrapping_add(0x9E3779B97F4A7C15);
    let b = (a ^ (a >> 30)).wrapping_mul(0xBF58476D1CE4E5B9);
    let c = (b ^ (b >> 27)).wrapping_mul(0x94D049BB133111EB);
    c ^ (c >> 31)
}

/// A fast deterministic hash of a number.
pub fn splitmix64(x: u64) -> (r: u64)
    ensures
        r == mixed(x),
{
    let a: u64 = x.wrapping_add(0x9E3779B97F4A7C15);
    let b: u64 = (a ^ (a >> 30)).wrapping_mul(0xBF58476D1CE4E5B9);
    let c: u64 = (b ^ (b >> 27)).wrapping_mul(0x94D049BB133111EB);
    c ^ (c >> 31)
}

/// What a length leaves of another, or nothing where it is longer.
pub open spec fn left_over(whole: int, part: int) -> int {
    if part <= whole {
        whole - part
    } else {
        0
    }
}

/// A part of the sheet, `w` by `h`, and the widths `rw` and `rh` of the strips that a piece in
/// its corner leaves to the right and below.
pub struct Strips {
    pub w: int,
    pub h: int,
    pub rw: int,
    pub rh: int,
}

/// The strips that an `iw` by `ih` piece leaves of a `w` by `h` part.
pub open spec fn strips(w: int, h: int, iw: int, ih: int) -> Strips {
    Strips { w, h, rw: left_over(w, iw), rh: left_over(h, ih) }
}

impl Strips {
    /// The areas of the two strips, added up as if each had the full length.
    pub open spec fn double_area(self) -> int {
        self.rw * self.h + self.w * self.rh
    }

    /// The area that the two strips cover.
    pub open spec fn waste(self) -> int {
        self.double_area() - self.rw * self.rh
    }

    /// A piece fits into one of the two full-length strips, turned or not.
    pub open spec fn take(self, spec: ElementType) -> bool {
        ||| spec.width <= self.rw && spec.height <= self.h
        ||| spec.height <= self.rw && spec.width <= self.h
        ||| spec.width <= self.w && spec.height <= self.rh
        ||| spec.height <= self.w && spec.width <= self.rh
    }

    /// Of a kind that has pieces left, some piece fits into one of the strips.
    pub open spec fn take_some(self, specs: Seq<ElementType>, counts: Seq<u32>, i: int) -> bool {
        counts[i] > 0 && self.take(specs[i])
    }

    /// Some piece that is left fits into one of the strips.
    pub open spec fn usable(self, specs: Seq<ElementType>, counts: Seq<u32>) -> bool {
        exists|i: int| 0 <= i < specs.len() && #[trigger] self.take_some(specs, counts, i)
    }

    /// How many of the two strip widths are a side of the piece.
    pub open spec fn matching_sides(self, spec: ElementType) -> int {
        (if spec.width == self.rw || spec.height == self.rw {
            1int
        } else {
            0int
        }) + (if spec.width == self.rh || spec.height == self.rh {
            1int
        } else {
            0int
        })
    }

    /// The matching sides of the first `n` kinds, of those that fit.
    pub open spec fn matches(self, specs: Seq<ElementType>, counts: Seq<u32>, n: int) -> int
        decreases n,
    {
        if n <= 0 {
            0
        } else {
            self.matches(specs, counts, n - 1) + if self.take_some(specs, counts, n - 1) {
                self.matching_sides(specs[n - 1])
            } else {
                0
            }
        }
    }

    /// How many of the first `n` kinds fit and are small.
    pub open spec fn small_ones(self, specs: Seq<ElementType>, counts: Seq<u32>, n: int) -> int
        decreases n,
    {
        if n <= 0 {
            0
        } else {
            self.small_ones(specs, counts, n - 1) + if self.take_some(specs, counts, n - 1)
                && specs[n - 1].area() < 4000 {
                1int
            } else {
                0int
            }
        }
    }
}

/// The bonus for a piece that spans the part in one direction.
pub open spec fn span_bonus(w: int, h: int, iw: int, ih: int) -> int {
    (if iw == w {
        100_000_000int
    } else {
        0int
    }) + (if ih == h {
        100_000_000int
    } else {
        0int
    })
}

/// The bonus for pieces that the strips can still take.
pub open spec fn strip_bonus(s: Strips, specs: Seq<ElementType>, counts: Seq<u32>) -> int {
    35_000_000 * s.matches(specs, counts, specs.len() as int) + 8_000_000 * s.small_ones(
        specs,
        counts,
        specs.len() as int,
    )
}

/// The penalty for strips that no piece fits into.
pub open spec fn dead_penalty(s: Strips, specs: Seq<ElementType>, counts: Seq<u32>) -> int {
    if !s.usable(specs, counts) && (s.rw > 0 || s.rh > 0) {
        300_000_000 + s.double_area() * 1000
    } else {
        0
    }
}

/// The score of putting an `iw` by `ih` piece, of which `left` are left, into the corner of a
/// `w` by `h` part.
pub open spec fn score(
    w: int,
    h: int,
    iw: int,
    ih: int,
    left: int,
    specs: Seq<ElementType>,
    counts: Seq<u32>,
) -> int {
    let s = strips(w, h, iw, ih);
    if iw == w && ih == h {
        (i64::MAX / 4) as int
    } else {
        iw * ih + span_bonus(w, h, iw, ih) - s.waste() / 5 + strip_bonus(s, specs, counts)
            - dead_penalty(s, specs, counts) + left * 1500
    }
}

/// All that the score of a piece is computed from stays in the range of its machine type.
pub open spec fn score_in_range(
    w: int,
    h: int,
    iw: int,
    ih: int,
    left: int,
    specs: Seq<ElementType>,
    counts: Seq<u32>,
) -> bool {
    let s = strips(w, h, iw, ih);
    &&& iw * ih <= i64::MAX
    &&& iw == w && ih == h || {
        &&& s.double_area() <= i64::MAX
        &&& iw * ih + span_bonus(w, h, iw, ih) + strip_bonus(s, specs, counts) + left * 1500
            <= i64::MAX
        &&& !s.usable(specs, counts) ==> s.double_area() <= STRIP_LIMIT
    }
}

/// The counts of matching sides and small pieces only grow with the number of kinds.
proof fn lemma_tallies_grow(s: Strips, specs: Seq<ElementType>, counts: Seq<u32>, n: int, m: int)
    requires
        0 <= n <= m,
    ensures
        0 <= s.matches(specs, counts, n) <= s.matches(specs, counts, m),
        0 <= s.small_ones(specs, counts, n) <= s.small_ones(specs, counts, m),
    decreases m,
{
    if n < m {
        lemma_tallies_grow(s, specs, counts, n, m - 1);
    } else if n > 0 {
        lemma_tallies_grow(s, specs, counts, n - 1, n - 1);
    }
}

/// Scores putting an `item_w` by `item_h` piece into the corner of a part of the sheet.
pub fn score_move(
    container_w: u32,
    container_h: u32,
    item_w: u32,
    item_h: u32,
    count_left: u32,
    all_specs: &[ElementType],
    all_counts: &[u32],
) -> (r: i64)
    requires
        all_specs.len() <= all_counts.len(),
        score_in_range(
            container_w as int,
            container_h as int,
            item_w as int,
            item_h as int,
            count_left as int,
            all_specs@,
            all_counts@,
        ),
    ensures
        r == score(
            container_w as int,
            container_h as int,
            item_w as int,
            item_h as int,
            count_left as int,
            all_specs@,
            all_counts@,
        ),
{
    let ghost s = strips(
        container_w as int,
        container_h as int,
        item_w as int,
        item_h as int,
    );
    let ghost kinds = all_specs.len() as int;
    assert(0 <= item_w * item_h) by (nonlinear_arith);
    let mut score: i64 = item_w as i64 * item_h as i64;

    let exact_w = item_w == container_w;
    let exact_h = item_h == container_h;

    if exact_w && exact_h {
        return i64::MAX / 4;
    }
    proof {
        lemma_tallies_grow(s, all_specs@, all_counts@, 0, kinds);
    }
    if exact_w {
        score = score + 100_000_000;
    }
    if exact_h {
        score = score + 100_000_000;
    }
    let rem_w: u32 = if item_w <= container_w {
        container_w - item_w
    } else {
        0
    };
    let rem_h: u32 = if item_h <= container_h {
        container_h - item_h
    } else {
        0
    };
    proof {
        assert(0 <= rem_w * container_h) by (nonlinear_arith);
        assert(0 <= container_w * rem_h) by (nonlinear_arith);
        assert(0 <= rem_w * rem_h) by (nonlinear_arith);
        assert(rem_w * rem_h <= container_w * rem_h) by (nonlinear_arith)
            requires
                rem_w <= container_w,
        ;
    }
    let waste_area: i64 = (rem_w as i64 * container_h as i64) + (container_w as i64 * rem_h as i64)
        - (rem_w as i64 * rem_h as i64);
    score = score - waste_area / 5;
    let ghost base = score as int;

    let mut can_fit_any = false;
    let mut exact_fit_count: i64 = 0;
    let mut i: usize = 0;
    while i < all_specs.len()
        invariant
            i <= all_specs.len(),
            kinds == all_specs.len(),
            all_specs.len() <= all_counts.len(),
            s.w == container_w,
            s.h == container_h,
            s.rw == rem_w,
            s.rh == rem_h,
            -(i64::MAX / 5) <= base,
            base + strip_bonus(s, all_specs@, all_counts@) + count_left * 1500 <= i64::MAX,
            can_fit_any == exists|k: int|
                0 <= k < i && #[trigger] s.take_some(all_specs@, all_counts@, k),
            exact_fit_count == s.matches(all_specs@, all_counts@, i as int),
            score == base + 25_000_000 * s.matches(all_specs@, all_counts@, i as int) + 8_000_000
                * s.small_ones(all_specs@, all_counts@, i as int),
        decreases all_specs.len() - i,
    {
        let spec = &all_specs[i];
        proof {
            lemma_tallies_grow(s, all_specs@, all_counts@, i as int, i + 1);
            lemma_tallies_grow(s, all_specs@, all_counts@, i + 1, kinds);
        }
        if all_counts[i] > 0 {
            if (spec.width <= rem_w && spec.height <= container_h) || (spec.height <= rem_w
                && spec.width <= container_h) || (spec.width <= container_w && spec.height
                <= rem_h) || (spec.height <= container_w && spec.width <= rem_h) {
                assert(s.take_some(all_specs@, all_counts@, i as int));
                can_fit_any = true;
                if spec.width == rem_w || spec.height == rem_w {
                    score = score + 25_000_000;
                    exact_fit_count = exact_fit_count + 1;
                }
                if spec.width == rem_h || spec.height == rem_h {
                    score = score + 25_000_000;
                    exact_fit_count = exact_fit_count + 1;
                }
                let w: u32 = spec.width;
                let h: u32 = spec.height;
                assert(0 <= w * h <= u32::MAX * u32::MAX) by (nonlinear_arith)
                    requires
                        0 <= w <= u32::MAX,
                        0 <= h <= u32::MAX,
                ;
                if (w as u64 * h as u64) < 4000 {
                    score = score + 8_000_000;
                }
            }
        }
        i = i + 1;
    }
    assert(can_fit_any == s.usable(all_specs@, all_counts@));

    if !can_fit_any && (rem_w > 0 || rem_h > 0) {
        let waste: i64 = rem_w as i64 * container_h as i64 + container_w as i64 * rem_h as i64;
        score = score - (300_000_000 + waste * 1000);
    }
    score = score + count_left as i64 * 1500;
    score = score + exact_fit_count * 10_000_000;
    score
}

} // verus!
