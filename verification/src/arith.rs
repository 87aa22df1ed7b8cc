//! Integer helpers for the engine: a floor square root for the linear seeding
//! weights, and an exact comparison of the weighted snapping ratios
//! `d_a / w_a^2 <= d_b / w_b^2`, carried out as `d_a * w_b^2 <= d_b * w_a^2`
//! in 192-bit precision so that no weight is ever too large.

use vstd::prelude::*;
use vstd::arithmetic::div_mod::lemma_fundamental_div_mod;

verus! {

/// The floor of the real square root, as a function of the radicand.
pub open spec fn floor_sqrt(n: int) -> int
    decreases n,
{
    if n <= 0 {
        0
    } else {
        let p = floor_sqrt(n - 1);
        if (p + 1) * (p + 1) <= n {
            p + 1
        } else {
            p
        }
    }
}

/// The floor square root brackets its radicand between consecutive squares.
pub proof fn lemma_floor_sqrt_bounds(n: int)
    requires
        n >= 0,
    ensures
        0 <= floor_sqrt(n),
        floor_sqrt(n) * floor_sqrt(n) <= n,
        n < (floor_sqrt(n) + 1) * (floor_sqrt(n) + 1),
    decreases n,
{
    if n > 0 {
        lemma_floor_sqrt_bounds(n - 1);
        let p = floor_sqrt(n - 1);
        if (p + 1) * (p + 1) <= n {
            assert(n - 1 < (p + 1) * (p + 1));
            assert(n < ((p + 1) + 1) * ((p + 1) + 1)) by (nonlinear_arith)
                requires
                    p >= 0,
                    n <= (p + 1) * (p + 1),
            ;
        }
    }
}

/// Only one value brackets the radicand that way.
pub proof fn lemma_floor_sqrt_unique(r: int, n: int)
    requires
        0 <= r,
        r * r <= n,
        n < (r + 1) * (r + 1),
    ensures
        r == floor_sqrt(n),
{
    lemma_floor_sqrt_bounds(n);
    let f = floor_sqrt(n);
    assert(r == f) by (nonlinear_arith)
        requires
            0 <= r,
            0 <= f,
            r * r <= n < (r + 1) * (r + 1),
            f * f <= n < (f + 1) * (f + 1),
    ;
}

/// The floor of the square root of `n`.
pub(crate) fn isqrt(n: u64) -> (r: u64)
    requires
        n < 0x1_0000_0000,
    ensures
        r * r <= n < (r + 1) * (r + 1),
        r == floor_sqrt(n as int),
{
    let mut r: u64 = 0;
    loop
        invariant
            n < 0x1_0000_0000,
            r < 0x1_0000,
            r * r <= n,
        ensures
            r * r <= n < (r + 1) * (r + 1),
        decreases n - r * r,
    {
        assert((r + 1) * (r + 1) <= 0x1_0000_0000) by (nonlinear_arith)
            requires
                r < 0x1_0000,
        ;
        let s: u64 = (r + 1) * (r + 1);
        if s > n {
            break;
        }
        assert((r + 1) * (r + 1) <= n ==> r + 1 < 0x1_0000) by (nonlinear_arith)
            requires
                n < 0x1_0000_0000,
        ;
        assert((r + 1) * (r + 1) > r * r) by (nonlinear_arith);
        r = r + 1;
    }
    proof {
        lemma_floor_sqrt_unique(r as int, n as int);
    }
    r
}

/// Splits the 192-bit product `d * w` into `2^64` digits: the pair `(hi, lo)`
/// with `d * w == hi * 2^64 + lo` and `lo < 2^64`.
fn mul_split(d: u64, w: u128) -> (p: (u128, u128))
    ensures
        p.0 * 0x1_0000_0000_0000_0000 + p.1 == d * w,
        p.1 < 0x1_0000_0000_0000_0000,
{
    let h: u128 = w / 0x1_0000_0000_0000_0000u128;
    let l: u128 = w % 0x1_0000_0000_0000_0000u128;
    proof {
        lemma_fundamental_div_mod(w as int, 0x1_0000_0000_0000_0000int);
        assert(h < 0x1_0000_0000_0000_0000) by (nonlinear_arith)
            requires
                h == w as int / 0x1_0000_0000_0000_0000int,
                w <= u128::MAX,
        ;
    }
    assert((d as int) * (l as int) < 0x1_0000_0000_0000_0000 * 0x1_0000_0000_0000_0000)
        by (nonlinear_arith)
        requires
            d < 0x1_0000_0000_0000_0000,
            0 <= l < 0x1_0000_0000_0000_0000,
    ;
    let t: u128 = (d as u128) * l;
    let lo: u128 = t % 0x1_0000_0000_0000_0000u128;
    let carry: u128 = t / 0x1_0000_0000_0000_0000u128;
    proof {
        lemma_fundamental_div_mod(t as int, 0x1_0000_0000_0000_0000int);
        assert(carry < 0x1_0000_0000_0000_0000) by (nonlinear_arith)
            requires
                carry == t as int / 0x1_0000_0000_0000_0000int,
                t <= u128::MAX,
        ;
        assert((d as int) * (h as int) + carry < 0x1_0000_0000_0000_0000 * 0x1_0000_0000_0000_0000)
            by (nonlinear_arith)
            requires
                d < 0x1_0000_0000_0000_0000,
                0 <= h < 0x1_0000_0000_0000_0000,
                carry < 0x1_0000_0000_0000_0000,
                d * h == (d as int) * (h as int),
        ;
    }
    let hi: u128 = (d as u128) * h + carry;
    proof {
        // d * w == d * (h * B + l) == (d * h + carry) * B + lo.
        assert((d as int) * (w as int) == (hi as int) * 0x1_0000_0000_0000_0000 + lo)
            by (nonlinear_arith)
            requires
                w == (h as int) * 0x1_0000_0000_0000_0000 + (l as int),
                (d as int) * (l as int) == (carry as int) * 0x1_0000_0000_0000_0000 + (lo as int),
                hi == (d as int) * (h as int) + carry,
        ;
    }
    (hi, lo)
}

/// Compares two numbers given as `2^64` digit pairs with low digits below `2^64`.
proof fn lemma_digit_pair_le(ahi: int, alo: int, bhi: int, blo: int)
    requires
        0 <= alo < 0x1_0000_0000_0000_0000,
        0 <= blo < 0x1_0000_0000_0000_0000,
        0 <= ahi,
        0 <= bhi,
    ensures
        (ahi * 0x1_0000_0000_0000_0000 + alo <= bhi * 0x1_0000_0000_0000_0000 + blo) <==> (ahi
            < bhi || (ahi == bhi && alo <= blo)),
{
    assert((ahi * 0x1_0000_0000_0000_0000 + alo <= bhi * 0x1_0000_0000_0000_0000 + blo) <==> (ahi
        < bhi || (ahi == bhi && alo <= blo))) by (nonlinear_arith)
        requires
            0 <= alo < 0x1_0000_0000_0000_0000,
            0 <= blo < 0x1_0000_0000_0000_0000,
            0 <= ahi,
            0 <= bhi,
    ;
}

/// Whether the ratio `da / wa^2` is at most `db / wb^2`, written without
/// division. A larger weight shrinks a member's effective distance.
pub open spec fn ratio_le_spec(da: int, wa: int, db: int, wb: int) -> bool {
    da * (wb * wb) <= db * (wa * wa)
}

/// Decides `da / wa^2 <= db / wb^2` exactly, by comparing the cross products
/// `da * wb^2` and `db * wa^2` in full precision.
pub(crate) fn ratio_le(da: u64, wa: u64, db: u64, wb: u64) -> (r: bool)
    ensures
        r == ratio_le_spec(da as int, wa as int, db as int, wb as int),
{
    assert((wb as int) * (wb as int) <= u128::MAX && (wa as int) * (wa as int) <= u128::MAX)
        by (nonlinear_arith)
        requires
            wa <= u64::MAX,
            wb <= u64::MAX,
    ;
    let wb2: u128 = (wb as u128) * (wb as u128);
    let wa2: u128 = (wa as u128) * (wa as u128);
    let a = mul_split(da, wb2);
    let b = mul_split(db, wa2);
    proof {
        lemma_digit_pair_le(a.0 as int, a.1 as int, b.0 as int, b.1 as int);
    }
    a.0 < b.0 || (a.0 == b.0 && a.1 <= b.1)
}

} // verus!
