//! How far the side fill of a wide line reaches.
//!
//! A wide line of width `w` along a segment that reaches `dx` by `dy` fills
//! sideways while its error term stays below `sqrt(dx² + dy²) · (w + 1) / 2`.
//! Peers must agree on every pixel, so the bound is fixed to the value that
//! IEEE 754 single precision gives it: the root is rounded to 24 significant
//! bits, the product is rounded to 24 significant bits with ties to even, and
//! an integer error term is below the product exactly when it is below the
//! least integer that is not below it. [`fill_threshold`] is that integer,
//! computed in integer arithmetic alone.

use vstd::prelude::*;

verus! {

/// Whether `r` is the square root of `n`, rounded down.
pub open spec fn is_floor_sqrt(n: int, r: int) -> bool {
    0 <= r && r * r <= n < (r + 1) * (r + 1)
}

/// The square root of `n`, rounded down.
pub open spec fn floor_sqrt(n: int) -> int {
    choose|r: int| is_floor_sqrt(n, r)
}

/// The integer nearest to the square root of `n`. No square root of an
/// integer lies half way between two integers, so there is no tie.
pub open spec fn nearest_sqrt(n: int) -> int {
    let r = floor_sqrt(n);
    if n - r * r > r {
        r + 1
    } else {
        r
    }
}

/// For `4^e <= d < 4^(e+1)`, the factor `4^(23-e)`: it scales `d` into
/// `[2^46, 2^48)`, where the nearest integer to the root is the root's
/// 24-bit significand.
pub open spec fn root_scale(d: int) -> int {
    if d < 4 {
        0x4000_0000_0000
    } else if d < 16 {
        0x1000_0000_0000
    } else if d < 64 {
        0x400_0000_0000
    } else if d < 256 {
        0x100_0000_0000
    } else if d < 1024 {
        0x40_0000_0000
    } else if d < 4096 {
        0x10_0000_0000
    } else if d < 16384 {
        0x4_0000_0000
    } else if d < 65536 {
        0x1_0000_0000
    } else {
        0x4000_0000
    }
}

/// For `4^e <= d < 4^(e+1)`, the divisor `2^(24-e)`: the significand of the
/// root of `d`, times `w + 1`, is the product in units of one over this.
pub open spec fn product_denominator(d: int) -> int {
    if d < 4 {
        0x100_0000
    } else if d < 16 {
        0x80_0000
    } else if d < 64 {
        0x40_0000
    } else if d < 256 {
        0x20_0000
    } else if d < 1024 {
        0x10_0000
    } else if d < 4096 {
        0x8_0000
    } else if d < 16384 {
        0x4_0000
    } else if d < 65536 {
        0x2_0000
    } else {
        0x1_0000
    }
}

/// The power of two in whose multiples a number `p < 2^33` has 24
/// significant bits.
pub open spec fn rounding_unit(p: int) -> int {
    if p < 0x100_0000 {
        1
    } else if p < 0x200_0000 {
        2
    } else if p < 0x400_0000 {
        4
    } else if p < 0x800_0000 {
        8
    } else if p < 0x1000_0000 {
        16
    } else if p < 0x2000_0000 {
        32
    } else if p < 0x4000_0000 {
        64
    } else if p < 0x8000_0000 {
        128
    } else if p < 0x1_0000_0000 {
        256
    } else {
        512
    }
}

/// `p` rounded to the nearest multiple of `u`, a tie going to the even
/// multiple.
pub open spec fn round_to_unit(p: int, u: int) -> int {
    let q = p / u;
    let rem = p % u;
    if 2 * rem > u || (2 * rem == u && q % 2 == 1) {
        (q + 1) * u
    } else {
        q * u
    }
}

/// The least integer not below `sqrt(dx² + dy²) · (w + 1) / 2` as single
/// precision evaluates it: an integer error term continues a side fill
/// exactly while it is below this.
pub open spec fn fill_threshold(dx: int, dy: int, w: u8) -> int {
    let d = dx * dx + dy * dy;
    if d == 0 {
        0
    } else {
        let significand = nearest_sqrt(d * root_scale(d));
        let product = significand * (w + 1);
        let rounded = round_to_unit(product, rounding_unit(product));
        let denominator = product_denominator(d);
        (rounded + denominator - 1) / denominator
    }
}

/// Only one integer is the square root of `n` rounded down.
pub proof fn lemma_floor_sqrt_unique(n: int, r1: int, r2: int)
    requires
        is_floor_sqrt(n, r1),
        is_floor_sqrt(n, r2),
    ensures
        r1 == r2,
{
    if r1 < r2 {
        assert((r1 + 1) * (r1 + 1) <= r2 * r2) by (nonlinear_arith)
            requires
                0 <= r1 + 1 <= r2,
        ;
    }
    if r2 < r1 {
        assert((r2 + 1) * (r2 + 1) <= r1 * r1) by (nonlinear_arith)
            requires
                0 <= r2 + 1 <= r1,
        ;
    }
}

/// The square root of `n < 2^48`, rounded down.
fn floor_sqrt_u64(n: u64) -> (r: u64)
    requires
        n < 0x1_0000_0000_0000,
    ensures
        r == floor_sqrt(n as int),
        is_floor_sqrt(n as int, r as int),
        r < 0x100_0000,
{
    let mut lo: u64 = 0;
    let mut hi: u64 = 0x100_0000;
    assert(0x100_0000 * 0x100_0000 == 0x1_0000_0000_0000) by (nonlinear_arith);
    while hi - lo > 1
        invariant
            lo < hi <= 0x100_0000,
            lo * lo <= n < hi * hi,
        decreases hi - lo,
    {
        let mid: u64 = lo + (hi - lo) / 2;
        assert(mid * mid <= 0x100_0000 * 0x100_0000) by (nonlinear_arith)
            requires
                0 <= mid <= 0x100_0000,
        ;
        if mid * mid <= n {
            lo = mid;
        } else {
            hi = mid;
        }
    }
    proof {
        assert(is_floor_sqrt(n as int, lo as int));
        lemma_floor_sqrt_unique(n as int, lo as int, floor_sqrt(n as int));
    }
    lo
}

/// Computes [`fill_threshold`] for a segment that reaches `dx` by `dy`.
pub fn compute_fill_threshold(dx: u8, dy: u8, w: u8) -> (t: i32)
    ensures
        t == fill_threshold(dx as int, dy as int, w),
        0 <= t <= 0x4_0000,
{
    let dx: u64 = dx as u64;
    let dy: u64 = dy as u64;
    assert(dx * dx <= 255 * 255) by (nonlinear_arith)
        requires
            0 <= dx <= 255,
    ;
    assert(dy * dy <= 255 * 255) by (nonlinear_arith)
        requires
            0 <= dy <= 255,
    ;
    let d: u64 = dx * dx + dy * dy;
    if d == 0 {
        return 0;
    }
    let (scale, denominator): (u64, u64) = if d < 4 {
        (0x4000_0000_0000, 0x100_0000)
    } else if d < 16 {
        (0x1000_0000_0000, 0x80_0000)
    } else if d < 64 {
        (0x400_0000_0000, 0x40_0000)
    } else if d < 256 {
        (0x100_0000_0000, 0x20_0000)
    } else if d < 1024 {
        (0x40_0000_0000, 0x10_0000)
    } else if d < 4096 {
        (0x10_0000_0000, 0x8_0000)
    } else if d < 16384 {
        (0x4_0000_0000, 0x4_0000)
    } else if d < 65536 {
        (0x1_0000_0000, 0x2_0000)
    } else {
        (0x4000_0000, 0x1_0000)
    };
    assert(d * scale < 0x1_0000_0000_0000 && scale == root_scale(d as int) && denominator
        == product_denominator(d as int)) by (nonlinear_arith)
        requires
            0 < d <= 130050,
            scale == root_scale(d as int),
            denominator == product_denominator(d as int),
    ;
    let n: u64 = d * scale;
    let r: u64 = floor_sqrt_u64(n);
    assert(r * r <= 0x100_0000 * 0x100_0000) by (nonlinear_arith)
        requires
            0 <= r <= 0x100_0000,
    ;
    let significand: u64 = if n - r * r > r {
        r + 1
    } else {
        r
    };
    assert(significand * (w + 1) <= 0x100_0000 * 256) by (nonlinear_arith)
        requires
            0 <= significand <= 0x100_0000,
            0 <= w + 1 <= 256,
    ;
    assert(significand * (w + 1) >= 0) by (nonlinear_arith)
        requires
            0 <= significand,
            0 <= w + 1,
    ;
    let product: u64 = significand * (w as u64 + 1);
    let unit: u64 = if product < 0x100_0000 {
        1
    } else if product < 0x200_0000 {
        2
    } else if product < 0x400_0000 {
        4
    } else if product < 0x800_0000 {
        8
    } else if product < 0x1000_0000 {
        16
    } else if product < 0x2000_0000 {
        32
    } else if product < 0x4000_0000 {
        64
    } else if product < 0x8000_0000 {
        128
    } else if product < 0x1_0000_0000 {
        256
    } else {
        512
    };
    let q: u64 = product / unit;
    let rem: u64 = product % unit;
    assert(q * unit <= product && q <= product) by (nonlinear_arith)
        requires
            q == product / unit,
            unit >= 1,
            product >= 0,
    ;
    assert((q + 1) * unit <= 0x2_0000_0000 && q * unit >= 0) by (nonlinear_arith)
        requires
            q * unit <= product,
            product <= 0x1_0000_0000,
            1 <= unit <= 512,
            q >= 0,
    ;
    let rounded: u64 = if 2 * rem > unit || (2 * rem == unit && q % 2 == 1) {
        (q + 1) * unit
    } else {
        q * unit
    };
    let t: u64 = (rounded + denominator - 1) / denominator;
    assert(t <= 0x4_0000) by {
        assert(rounded + denominator - 1 < 0x4_0000 * denominator) by (nonlinear_arith)
            requires
                rounded <= 0x2_0000_0000,
                denominator >= 0x1_0000,
        ;
        assert((rounded + denominator - 1) / (denominator as int) <= 0x4_0000) by (nonlinear_arith)
            requires
                0 <= rounded + denominator - 1 < 0x4_0000 * denominator,
                denominator >= 0x1_0000,
        ;
    }
    t as i32
}

} // verus!
