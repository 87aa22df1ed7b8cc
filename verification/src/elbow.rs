//! The elbow heuristic of the ten-run sweep: each run's sum of squares is a
//! point `(k, wcss)`, a reference chord runs from `(1, wcss[0])` to
//! `(11, wcss[9])` — its right end one past the largest `k`, a deliberate
//! asymmetry — and the run whose point lies farthest from the chord wins.

use vstd::prelude::*;
use vstd::math::abs;

verus! {

/// The sums of squares as plain integers.
pub open spec fn ints_of(s: Seq<u128>) -> Seq<int> {
    Seq::new(s.len(), |i: int| s[i] as int)
}

/// The unnormalized distance of the point `(i + 1, ys[i])` from the
/// reference chord through `(1, ys[0])` and `(11, ys[ys.len() - 1])`. The
/// common positive denominator of the true point-to-line distances is
/// dropped: it does not change which index attains the maximum.
pub open spec fn chord_gap(ys: Seq<int>, i: int) -> int {
    let y1 = ys[0];
    let y2 = ys[ys.len() - 1];
    abs((y2 - y1) * (i + 1) - 10 * ys[i] + 11 * y1 - y2) as int
}

/// The first index among `0..n` whose chord gap is largest.
pub open spec fn elbow_index_upto(ys: Seq<int>, n: int) -> int
    decreases n,
{
    if n <= 1 {
        0
    } else {
        let prev = elbow_index_upto(ys, n - 1);
        if chord_gap(ys, n - 1) > chord_gap(ys, prev) {
            n - 1
        } else {
            prev
        }
    }
}

/// The first index whose chord gap is largest.
pub open spec fn elbow_index(ys: Seq<int>) -> int {
    elbow_index_upto(ys, ys.len() as int)
}

/// Computes one point's chord gap.
fn chord_gap_exec(ys: &Vec<u128>, i: usize) -> (g: i128)
    requires
        ys@.len() == 10,
        i < 10,
        forall|j: int| 0 <= j < ys@.len() ==> (#[trigger] ys@[j]) < 0x10000000000000000000000000,
    ensures
        g == chord_gap(ints_of(ys@), i as int),
        g >= 0,
{
    let y1: i128 = ys[0] as i128;
    let y2: i128 = ys[9] as i128;
    let y0: i128 = ys[i] as i128;
    let x0: i128 = (i as i128) + 1;
    proof {
        assert(-0x100000000000000000000000000 < (y2 - y1) * x0
            < 0x100000000000000000000000000) by (nonlinear_arith)
            requires
                -0x10000000000000000000000000 < y2 - y1 < 0x10000000000000000000000000,
                1 <= x0 <= 10,
        ;
        assert(0 <= 10 * y0 < 0x100000000000000000000000000) by (nonlinear_arith)
            requires
                0 <= y0 < 0x10000000000000000000000000,
        ;
        assert(0 <= 11 * y1 < 0x100000000000000000000000000) by (nonlinear_arith)
            requires
                0 <= y1 < 0x10000000000000000000000000,
        ;
    }
    let num: i128 = (y2 - y1) * x0 - 10 * y0 + 11 * y1 - y2;
    proof {
        let ints = ints_of(ys@);
        assert(ints[0] == y1 && ints[9] == y2 && ints[i as int] == y0);
    }
    if num < 0 {
        -num
    } else {
        num
    }
}

/// Picks the sweep run whose point lies farthest from the reference chord;
/// the earliest such run on a tie. The maximum is found by exact integer
/// comparison: with no floating-point rounding to absorb, no tolerance of a
/// tenth widens the tie.
pub(crate) fn elbow_select(wcss: &Vec<u128>) -> (e: usize)
    requires
        wcss@.len() == 10,
        forall|j: int| 0 <= j < wcss@.len() ==> (#[trigger] wcss@[j]) < 0x10000000000000000000000000,
    ensures
        e < 10,
        e as int == elbow_index(ints_of(wcss@)),
{
    let ghost ints = ints_of(wcss@);
    let mut best: usize = 0;
    let mut bg: i128 = chord_gap_exec(wcss, 0);
    let mut i: usize = 1;
    while i < 10
        invariant
            1 <= i <= 10,
            best < i,
            wcss@.len() == 10,
            forall|j: int|
                0 <= j < wcss@.len() ==> (#[trigger] wcss@[j]) < 0x10000000000000000000000000,
            ints == ints_of(wcss@),
            best as int == elbow_index_upto(ints, i as int),
            bg == chord_gap(ints, best as int),
        decreases 10 - i,
    {
        let g = chord_gap_exec(wcss, i);
        if g > bg {
            best = i;
            bg = g;
        }
        i = i + 1;
    }
    best
}

} // verus!
