//! The atomic color value, its quantization, and its squared-distance metric.

use vstd::prelude::*;
use vstd::arithmetic::div_mod::lemma_fundamental_div_mod;
use vstd::arithmetic::div_mod::lemma_mod_division_less_than_divisor;
use vstd::arithmetic::div_mod::lemma_mod_bound;
use vstd::arithmetic::div_mod::lemma_div_by_multiple;

verus! {

/// An RGB color with one byte per channel.
#[derive(Clone, Copy, Debug, Eq, Hash, PartialEq, Structural)]
pub struct Color {
    /// The red component of the color.
    pub r: u8,
    /// The green component of the color.
    pub g: u8,
    /// The blue component of the color.
    pub b: u8,
}

impl Color {
    /// Builds a color from its three channels.
    pub fn new(r: u8, g: u8, b: u8) -> (c: Color)
        ensures
            c == (Color { r, g, b }),
    {
        Color { r, g, b }
    }
}

/// The all-black color used as the fallback center of an empty cluster.
pub open spec fn black() -> Color {
    Color { r: 0, g: 0, b: 0 }
}

/// The squared Euclidean distance between two colors in (r, g, b) space.
pub open spec fn sq_dist(p: Color, q: Color) -> int {
    let dr = p.r as int - q.r as int;
    let dg = p.g as int - q.g as int;
    let db = p.b as int - q.b as int;
    dr * dr + dg * dg + db * db
}

/// Computes the squared Euclidean distance between two colors.
pub fn calc_squared_dist(p: &Color, q: &Color) -> (d: u64)
    ensures
        d == sq_dist(*p, *q),
{
    let dr: i32 = p.r as i32 - q.r as i32;
    let dg: i32 = p.g as i32 - q.g as i32;
    let db: i32 = p.b as i32 - q.b as i32;
    assert(dr * dr <= 255 * 255 && dg * dg <= 255 * 255 && db * db <= 255 * 255) by (nonlinear_arith)
        requires
            -255 <= dr <= 255,
            -255 <= dg <= 255,
            -255 <= db <= 255,
    ;
    assert(dr * dr >= 0 && dg * dg >= 0 && db * db >= 0) by (nonlinear_arith);
    (dr * dr + dg * dg + db * db) as u64
}

/// The quantization factor that is actually applied: a factor at or below
/// zero is invalid and is treated as one, which leaves the color unchanged.
pub open spec fn eff_factor(factor: int) -> int {
    if factor <= 0 {
        1
    } else {
        factor
    }
}

/// One channel quantized: rounded down to the nearest multiple of the factor.
pub open spec fn quantize_channel(v: int, factor: int) -> int {
    (v / eff_factor(factor)) * eff_factor(factor)
}

/// A color with every channel quantized by the factor.
pub open spec fn quantize_spec(c: Color, factor: int) -> Color {
    Color {
        r: quantize_channel(c.r as int, factor) as u8,
        g: quantize_channel(c.g as int, factor) as u8,
        b: quantize_channel(c.b as int, factor) as u8,
    }
}

/// A quantized channel stays between zero and the channel it came from.
pub proof fn lemma_quantize_channel_bounds(v: int, factor: int)
    requires
        0 <= v,
    ensures
        0 <= quantize_channel(v, factor) <= v,
{
    let f = eff_factor(factor);
    lemma_fundamental_div_mod(v, f);
    lemma_mod_bound(v, f);
    assert((v / f) * f == v - v % f) by (nonlinear_arith)
        requires
            v == f * (v / f) + v % f,
    ;
}

fn quantize_one(v: u8, f: u32) -> (q: u8)
    requires
        f >= 1,
    ensures
        q as int == quantize_channel(v as int, f as int),
{
    proof {
        lemma_quantize_channel_bounds(v as int, f as int);
    }
    let d: u32 = (v as u32) / f;
    let q: u32 = d * f;
    q as u8
}

/// Quantizes a color: each channel is rounded down to a multiple of the
/// factor. A factor at or below zero is treated as one.
pub fn quantize(color: &Color, factor: i32) -> (q: Color)
    ensures
        q == quantize_spec(*color, factor as int),
{
    let f: u32 = if factor <= 0 {
        1
    } else {
        factor as u32
    };
    Color {
        r: quantize_one(color.r, f),
        g: quantize_one(color.g, f),
        b: quantize_one(color.b, f),
    }
}

/// Quantization is idempotent: quantizing an already-quantized color with the
/// same factor gives the same color back.
pub proof fn lemma_quantize_idempotent(c: Color, factor: int)
    ensures
        quantize_spec(quantize_spec(c, factor), factor) == quantize_spec(c, factor),
{
    let f = eff_factor(factor);
    lemma_quantize_one_idempotent(c.r as int, factor);
    lemma_quantize_one_idempotent(c.g as int, factor);
    lemma_quantize_one_idempotent(c.b as int, factor);
}

proof fn lemma_quantize_one_idempotent(v: int, factor: int)
    requires
        0 <= v <= 255,
    ensures
        quantize_channel(quantize_channel(v, factor) as u8 as int, factor) == quantize_channel(
            v,
            factor,
        ),
{
    let f = eff_factor(factor);
    lemma_quantize_channel_bounds(v, factor);
    let w = quantize_channel(v, factor);
    assert(w as u8 as int == w);
    lemma_div_by_multiple(v / f, f);
    assert((w / f) * f == w);
}

/// With a factor of one, quantization changes nothing.
pub proof fn lemma_quantize_identity(c: Color)
    ensures
        quantize_spec(c, 1) == c,
{
    assert(c.r as int / 1 * 1 == c.r as int);
    assert(c.g as int / 1 * 1 == c.g as int);
    assert(c.b as int / 1 * 1 == c.b as int);
}

/// The squared distance of two byte-channel colors stays below `3 * 255^2`.
pub proof fn lemma_sq_dist_bounds(a: Color, b: Color)
    ensures
        0 <= sq_dist(a, b) <= 195075,
{
    let dr = a.r as int - b.r as int;
    let dg = a.g as int - b.g as int;
    let db = a.b as int - b.b as int;
    assert(0 <= dr * dr <= 255 * 255 && 0 <= dg * dg <= 255 * 255 && 0 <= db * db <= 255 * 255)
        by (nonlinear_arith)
        requires
            -255 <= dr <= 255,
            -255 <= dg <= 255,
            -255 <= db <= 255,
    ;
}

/// The distance is symmetric, and a color is at distance zero exactly
/// from itself.
pub proof fn lemma_distance_symmetry(a: Color, b: Color)
    ensures
        sq_dist(a, b) == sq_dist(b, a),
        sq_dist(a, a) == 0,
        sq_dist(a, b) == 0 <==> a == b,
{
    let dr = a.r as int - b.r as int;
    let dg = a.g as int - b.g as int;
    let db = a.b as int - b.b as int;
    assert(dr * dr == (-dr) * (-dr) && dg * dg == (-dg) * (-dg) && db * db == (-db) * (-db))
        by (nonlinear_arith);
    assert(dr * dr >= 0 && dg * dg >= 0 && db * db >= 0) by (nonlinear_arith);
    assert(dr != 0 ==> dr * dr > 0) by (nonlinear_arith);
    assert(dg != 0 ==> dg * dg > 0) by (nonlinear_arith);
    assert(db != 0 ==> db * db > 0) by (nonlinear_arith);
}

} // verus!
