//! That mixing numbers loses nothing.

use crate::candidates::blink_number;
use crate::score::mixed;
use vstd::prelude::*;

verus! {

/// Multiplying by a number that has an inverse, and cutting the product off at 64 bits, loses
/// nothing.
proof fn lemma_times(a: u64, b: u64, c: u64, inverse: u64, q: int)
    requires
        c * inverse == 1 + q * 0x1_0000_0000_0000_0000,
        a.wrapping_mul(c) == b.wrapping_mul(c),
    ensures
        a == b,
{
    let m: int = 0x1_0000_0000_0000_0000;
    let x = a * c;
    let y = b * c;
    assert(0 <= x && 0 <= y) by (nonlinear_arith)
        requires
            x == a * c,
            y == b * c,
            0 <= a,
            0 <= b,
            0 <= c,
    ;
    assert(x % m == y % m);
    let k = x / m - y / m;
    assert(x - y == k * m) by (nonlinear_arith)
        requires
            x % m == y % m,
            k == x / m - y / m,
            m == 0x1_0000_0000_0000_0000,
    ;
    let d = a - b;
    let z = k * inverse - d * q;
    assert(d == m * z) by (nonlinear_arith)
        requires
            x - y == k * m,
            x == a * c,
            y == b * c,
            d == a - b,
            c * inverse == 1 + q * m,
            z == k * inverse - d * q,
    {
        assert(d * c == k * m);
        assert((d * c) * inverse == d * (c * inverse));
        assert((k * m) * inverse == m * (k * inverse));
        assert(d * (1 + q * m) == d + m * (d * q));
    }
    assert(z == 0) by (nonlinear_arith)
        requires
            d == m * z,
            -m < d < m,
            m > 0,
    ;
}

/// Mixing loses nothing: different numbers stay different.
pub proof fn lemma_mixed(x: u64, y: u64)
    requires
        mixed(x) == mixed(y),
    ensures
        x == y,
{
    let a = x.wrapping_add(0x9E3779B97F4A7C15);
    let b = y.wrapping_add(0x9E3779B97F4A7C15);
    let c = (a ^ (a >> 30)).wrapping_mul(0xBF58476D1CE4E5B9);
    let d = (b ^ (b >> 30)).wrapping_mul(0xBF58476D1CE4E5B9);
    let e = (c ^ (c >> 27)).wrapping_mul(0x94D049BB133111EB);
    let f = (d ^ (d >> 27)).wrapping_mul(0x94D049BB133111EB);
    assert(e ^ (e >> 31) == f ^ (f >> 31) ==> e == f) by (bit_vector);
    lemma_times(
        c ^ (c >> 27),
        d ^ (d >> 27),
        0x94d049bb133111eb,
        0x319642b2d24d8ec3,
        0x1cd336eda85f1453,
    );
    assert(c ^ (c >> 27) == d ^ (d >> 27) ==> c == d) by (bit_vector);
    lemma_times(
        a ^ (a >> 30),
        b ^ (b >> 30),
        0xbf58476d1ce4e5b9,
        0x96de1b173f119089,
        0x70c3bca78f27f46c,
    );
    assert(a ^ (a >> 30) == b ^ (b >> 30) ==> a == b) by (bit_vector);
}

/// The number that decides whether the best move of a node is put off depends on all that it is
/// made from: it changes whenever the seed, one side of the part, the depth or the number of
/// pieces changes alone.
pub proof fn lemma_blink_number(
    seed: u64,
    w: int,
    h: int,
    depth: u32,
    pieces: nat,
    seed2: u64,
    w2: int,
    h2: int,
    depth2: u32,
    pieces2: nat,
)
    requires
        0 <= w <= u32::MAX,
        0 <= w2 <= u32::MAX,
        0 <= h <= u32::MAX,
        0 <= h2 <= u32::MAX,
        pieces <= u32::MAX,
        pieces2 <= u32::MAX,
    ensures
        seed != seed2 ==> blink_number(seed, w, h, depth, pieces) != blink_number(
            seed2,
            w,
            h,
            depth,
            pieces,
        ),
        w != w2 ==> blink_number(seed, w, h, depth, pieces) != blink_number(
            seed,
            w2,
            h,
            depth,
            pieces,
        ),
        h != h2 ==> blink_number(seed, w, h, depth, pieces) != blink_number(
            seed,
            w,
            h2,
            depth,
            pieces,
        ),
        depth != depth2 ==> blink_number(seed, w, h, depth, pieces) != blink_number(
            seed,
            w,
            h,
            depth2,
            pieces,
        ),
        pieces != pieces2 ==> blink_number(seed, w, h, depth, pieces) != blink_number(
            seed,
            w,
            h,
            depth,
            pieces2,
        ),
{
    let a = (w as u64).wrapping_mul(0x9E3779B97F4A7C15);
    let a2 = (w2 as u64).wrapping_mul(0x9E3779B97F4A7C15);
    let b = (h as u64).wrapping_mul(0xC2B2AE3D27D4EB4F);
    let b2 = (h2 as u64).wrapping_mul(0xC2B2AE3D27D4EB4F);
    let c = (depth as u64).wrapping_mul(0x165667B19E3779F9);
    let c2 = (depth2 as u64).wrapping_mul(0x165667B19E3779F9);
    let d = pieces as u64;
    let d2 = pieces2 as u64;
    assert(seed ^ a ^ b ^ c ^ d == seed2 ^ a ^ b ^ c ^ d ==> seed == seed2) by (bit_vector);
    assert(seed ^ a ^ b ^ c ^ d == seed ^ a2 ^ b ^ c ^ d ==> a == a2) by (bit_vector);
    assert(seed ^ a ^ b ^ c ^ d == seed ^ a ^ b2 ^ c ^ d ==> b == b2) by (bit_vector);
    assert(seed ^ a ^ b ^ c ^ d == seed ^ a ^ b ^ c2 ^ d ==> c == c2) by (bit_vector);
    assert(seed ^ a ^ b ^ c ^ d == seed ^ a ^ b ^ c ^ d2 ==> d == d2) by (bit_vector);
    if blink_number(seed, w, h, depth, pieces) == blink_number(seed2, w, h, depth, pieces) {
        lemma_mixed(seed ^ a ^ b ^ c ^ d, seed2 ^ a ^ b ^ c ^ d);
    }
    if blink_number(seed, w, h, depth, pieces) == blink_number(seed, w2, h, depth, pieces) {
        lemma_mixed(seed ^ a ^ b ^ c ^ d, seed ^ a2 ^ b ^ c ^ d);
        lemma_times(
            w as u64,
            w2 as u64,
            0x9e3779b97f4a7c15,
            0xf1de83e19937733d,
            0x957bbf35006ed677,
        );
    }
    if blink_number(seed, w, h, depth, pieces) == blink_number(seed, w, h2, depth, pieces) {
        lemma_mixed(seed ^ a ^ b ^ c ^ d, seed ^ a ^ b2 ^ c ^ d);
        lemma_times(
            h as u64,
            h2 as u64,
            0xc2b2ae3d27d4eb4f,
            0xba79078168d4baf,
            0x8dd1dec21860607,
        );
    }
    if blink_number(seed, w, h, depth, pieces) == blink_number(seed, w, h, depth2, pieces) {
        lemma_mixed(seed ^ a ^ b ^ c ^ d, seed ^ a ^ b ^ c2 ^ d);
        lemma_times(
            depth as u64,
            depth2 as u64,
            0x165667b19e3779f9,
            0xe9e9f4c41d6df849,
            0x14690e6081378f7f,
        );
    }
    if blink_number(seed, w, h, depth, pieces) == blink_number(seed, w, h, depth, pieces2) {
        lemma_mixed(seed ^ a ^ b ^ c ^ d, seed ^ a ^ b ^ c ^ d2);
    }
}

} // verus!
