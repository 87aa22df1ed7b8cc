//! The two seeding strategies. Both pick distinct colors from the working
//! color list: uniform reservoir sampling without replacement, and a greedy
//! probabilistic strategy that draws each next center with probability
//! proportional to its distance (not squared distance) from the centers
//! chosen so far, falling back to a uniform pick when every remaining
//! candidate sits on a chosen center.

use vstd::prelude::*;
use vstd::math::min;
use vstd::pervasive::VecAdditionalExecFns;
use crate::arith::floor_sqrt;
use crate::arith::isqrt;
use crate::color::Color;
use crate::color::calc_squared_dist;
use crate::color::lemma_sq_dist_bounds;
use crate::color::sq_dist;
use crate::refine::nearest_center;
use crate::refine::nearest_index;
use crate::rng::RandomSource;
use crate::weighted::distinct_keys;
use crate::weighted::has_key;

verus! {

/// No color appears twice.
pub open spec fn distinct_colors(s: Seq<Color>) -> bool {
    forall|i: int, j: int| 0 <= i < j < s.len() ==> (#[trigger] s[i]) != (#[trigger] s[j])
}

/// Every color in `s` is carried by some working-list entry.
pub open spec fn all_from(s: Seq<Color>, wl: Seq<(Color, usize)>) -> bool {
    forall|i: int| 0 <= i < s.len() ==> has_key(wl, #[trigger] s[i])
}

/// No color of `a` occurs in `b`.
spec fn disjoint_from(a: Seq<Color>, b: Seq<Color>) -> bool {
    forall|i: int, j: int|
        0 <= i < a.len() && 0 <= j < b.len() ==> (#[trigger] a[i]) != (#[trigger] b[j])
}

/// Removing a color keeps the pool distinct, keeps its colors, and removes
/// every occurrence of the color taken when the pool was distinct.
proof fn lemma_remove_color(s: Seq<Color>, j: int)
    requires
        0 <= j < s.len(),
    ensures
        forall|q: Color| #[trigger] s.remove(j).contains(q) ==> s.contains(q),
        distinct_colors(s) ==> distinct_colors(s.remove(j)),
        distinct_colors(s) ==> forall|p: int|
            0 <= p < s.remove(j).len() ==> (#[trigger] s.remove(j)[p]) != s[j],
{
    let rem = s.remove(j);
    s.remove_ensures(j);
    assert forall|q: Color| #[trigger] rem.contains(q) implies s.contains(q) by {
        let i = choose|i: int| 0 <= i < rem.len() && rem[i] == q;
        if i < j {
            assert(s[i] == q);
        } else {
            assert(s[i + 1] == q);
        }
    }
    if distinct_colors(s) {
        assert forall|p: int, q: int| 0 <= p < q < rem.len() implies (#[trigger] rem[p]) != (
        #[trigger] rem[q]) by {
            let p0 = if p < j {
                p
            } else {
                p + 1
            };
            let q0 = if q < j {
                q
            } else {
                q + 1
            };
            assert(rem[p] == s[p0] && rem[q] == s[q0]);
        }
        assert forall|p: int| 0 <= p < rem.len() implies (#[trigger] rem[p]) != s[j] by {
            let p0 = if p < j {
                p
            } else {
                p + 1
            };
            assert(rem[p] == s[p0]);
        }
    }
}

/// Selects colors uniformly without replacement, by reservoir sampling: the
/// result has one entry per working color up to the requested number, with
/// no repeats.
pub(crate) fn sample_uniform(wl: &Vec<(Color, usize)>, a: usize, rng: &mut RandomSource) -> (seeds:
    Vec<Color>)
    requires
        distinct_keys(wl@),
    ensures
        seeds@.len() == min(a as int, wl@.len() as int),
        distinct_colors(seeds@),
        all_from(seeds@, wl@),
{
    let m: usize = if a <= wl.len() {
        a
    } else {
        wl.len()
    };
    let mut seeds: Vec<Color> = Vec::new();
    let ghost mut idxs: Seq<int> = Seq::empty();
    let mut t: usize = 0;
    while t < m
        invariant
            t <= m <= wl@.len(),
            seeds@.len() == t,
            idxs.len() == t,
            forall|p: int| 0 <= p < t ==> (#[trigger] idxs[p]) == p,
            forall|p: int| 0 <= p < t ==> (#[trigger] seeds@[p]) == wl@[idxs[p]].0,
        decreases m - t,
    {
        seeds.push(wl[t].0);
        proof {
            idxs = idxs.push(t as int);
        }
        t = t + 1;
    }
    let mut i: usize = m;
    while i < wl.len()
        invariant
            m <= i <= wl@.len(),
            seeds@.len() == m,
            idxs.len() == m,
            forall|p: int| 0 <= p < m ==> 0 <= (#[trigger] idxs[p]) < i,
            forall|p: int, q: int| 0 <= p < q < m ==> (#[trigger] idxs[p]) != (#[trigger] idxs[q]),
            forall|p: int| 0 <= p < m ==> (#[trigger] seeds@[p]) == wl@[idxs[p]].0,
        decreases wl@.len() - i,
    {
        let j128 = rng.next_below((i as u128) + 1);
        let j = j128 as usize;
        if j < m {
            seeds.set(j, wl[i].0);
            proof {
                idxs = idxs.update(j as int, i as int);
            }
        }
        i = i + 1;
    }
    proof {
        assert forall|p: int, q: int| 0 <= p < q < m implies (#[trigger] seeds@[p]) != (
        #[trigger] seeds@[q]) by {
            assert(seeds@[p] == wl@[idxs[p]].0 && seeds@[q] == wl@[idxs[q]].0);
            assert(idxs[p] != idxs[q]);
        }
        assert forall|p: int| 0 <= p < m implies has_key(wl@, #[trigger] seeds@[p]) by {
            assert(wl@[idxs[p]].0 == seeds@[p]);
        }
    }
    seeds
}

/// The total of a weight list.
spec fn sum_weights(ws: Seq<u64>) -> int
    decreases ws.len(),
{
    if ws.len() == 0 {
        0
    } else {
        sum_weights(ws.drop_last()) + ws.last()
    }
}

/// The total of a spec-level weight list.
pub open spec fn sum_ints(ws: Seq<int>) -> int
    decreases ws.len(),
{
    if ws.len() == 0 {
        0
    } else {
        sum_ints(ws.drop_last()) + ws.last()
    }
}

/// The smallest squared distance from `c` to any of the centers.
pub open spec fn min_sq_dist(centers: Seq<Color>, c: Color) -> int {
    sq_dist(centers[nearest_index(centers, c)], c)
}

/// One candidate's seeding weight: the floor of its true distance to the
/// nearest chosen center — a linear weight, not a squared one.
pub open spec fn greedy_weight(seeds: Seq<Color>, c: Color) -> int {
    floor_sqrt(min_sq_dist(seeds, c))
}

/// Every candidate's weight against the chosen centers.
pub open spec fn greedy_weights_spec(seeds: Seq<Color>, pool: Seq<Color>) -> Seq<int> {
    Seq::new(pool.len(), |p: int| greedy_weight(seeds, pool[p]))
}

/// Whether `c` is the first index whose cumulative weight exceeds `t`.
pub open spec fn picked_by(ws: Seq<int>, c: int, t: int) -> bool {
    &&& t < sum_ints(ws.take(c + 1))
    &&& forall|p: int| 0 <= p < c ==> sum_ints(#[trigger] ws.take(p + 1)) <= t
}

/// How one greedy round may choose its candidate: when some candidate is at
/// positive distance from the chosen centers, a value drawn below the total
/// weight picked the first candidate whose cumulative weight exceeds it;
/// with a zero total the pick was uniform and any candidate is possible.
pub open spec fn greedy_choice_ok(seeds: Seq<Color>, pool: Seq<Color>, c: int) -> bool {
    let ws = greedy_weights_spec(seeds, pool);
    sum_ints(ws) > 0 ==> exists|t: int| 0 <= t < sum_ints(ws) && #[trigger] picked_by(ws, c, t)
}

/// Equal weight lists have equal totals.
proof fn lemma_sums_eq(wu: Seq<u64>, wi: Seq<int>)
    requires
        wi.len() == wu.len(),
        forall|p: int| 0 <= p < wu.len() ==> (#[trigger] wi[p]) == wu[p] as int,
    ensures
        sum_ints(wi) == sum_weights(wu),
    decreases wu.len(),
{
    if wu.len() > 0 {
        assert forall|p: int| 0 <= p < wu.drop_last().len() implies (#[trigger] wi.drop_last()[p])
            == wu.drop_last()[p] as int by {
            assert(wi.drop_last()[p] == wi[p]);
            assert(wu.drop_last()[p] == wu[p]);
        }
        lemma_sums_eq(wu.drop_last(), wi.drop_last());
    }
}

/// Equal weight lists have equal prefix totals.
proof fn lemma_prefix_sums_eq(wu: Seq<u64>, wi: Seq<int>, j: int)
    requires
        wi.len() == wu.len(),
        forall|p: int| 0 <= p < wu.len() ==> (#[trigger] wi[p]) == wu[p] as int,
        0 <= j <= wu.len(),
    ensures
        sum_ints(wi.take(j)) == sum_weights(wu.take(j)),
{
    assert forall|p: int| 0 <= p < wu.take(j).len() implies (#[trigger] wi.take(j)[p]) == wu.take(
        j,
    )[p] as int by {
        assert(wi.take(j)[p] == wi[p]);
        assert(wu.take(j)[p] == wu[p]);
    }
    lemma_sums_eq(wu.take(j), wi.take(j));
}

/// The smallest squared distance from `c` to any of the centers.
fn min_sq_dist_to(centers: &Vec<Color>, c: &Color) -> (d: u64)
    requires
        centers@.len() >= 1,
    ensures
        d == min_sq_dist(centers@, *c),
        d <= 195075,
{
    let k = nearest_center(centers, c);
    let d = calc_squared_dist(&centers[k], c);
    proof {
        lemma_sq_dist_bounds(centers@[k as int], *c);
    }
    d
}

/// Computes every candidate's weight and the total.
fn greedy_weights(seeds: &Vec<Color>, pool: &Vec<Color>) -> (r: (Vec<u64>, u128))
    requires
        seeds@.len() >= 1,
    ensures
        r.0@.len() == pool@.len(),
        forall|p: int|
            0 <= p < pool@.len() ==> (#[trigger] r.0@[p]) as int == greedy_weight(
                seeds@,
                pool@[p],
            ),
        r.1 == sum_weights(r.0@),
{
    let mut ws: Vec<u64> = Vec::new();
    let mut total: u128 = 0;
    let mut p: usize = 0;
    while p < pool.len()
        invariant
            p <= pool@.len(),
            seeds@.len() >= 1,
            ws@.len() == p,
            forall|q: int|
                0 <= q < p ==> (#[trigger] ws@[q]) as int == greedy_weight(seeds@, pool@[q]),
            total == sum_weights(ws@),
            total <= p * 0x10000,
        decreases pool@.len() - p,
    {
        let md = min_sq_dist_to(seeds, &pool[p]);
        let w = isqrt(md);
        proof {
            assert(w <= 0x10000) by (nonlinear_arith)
                requires
                    w * w <= md,
                    md <= 195075,
            ;
            assert(ws@.push(w).drop_last() =~= ws@);
            assert(p * 0x10000 + 0x10000 == (p + 1) * 0x10000) by (nonlinear_arith);
        }
        ws.push(w);
        total = total + (w as u128);
        p = p + 1;
    }
    (ws, total)
}

/// Picks the first index whose cumulative weight exceeds the drawn value.
fn pick_weighted(weights: &Vec<u64>, total: u128, t: u128) -> (idx: usize)
    requires
        total == sum_weights(weights@),
        t < total,
    ensures
        idx < weights@.len(),
        t < sum_weights(weights@.take(idx as int + 1)),
        forall|p: int| 0 <= p < idx ==> sum_weights(#[trigger] weights@.take(p + 1)) <= t,
{
    let mut acc: u128 = 0;
    let mut idx: usize = 0;
    proof {
        assert(weights@.take(0) =~= Seq::<u64>::empty());
    }
    while idx < weights.len()
        invariant
            idx <= weights@.len(),
            acc == sum_weights(weights@.take(idx as int)),
            t < total,
            total == sum_weights(weights@),
            acc <= t,
            forall|p: int| 0 <= p < idx ==> sum_weights(#[trigger] weights@.take(p + 1)) <= t,
        decreases weights@.len() - idx,
    {
        proof {
            assert(weights@.take(idx as int + 1).drop_last() =~= weights@.take(idx as int));
            assert(weights@.take(idx as int + 1).last() == weights@[idx as int]);
            lemma_sum_weights_prefix(weights@, idx as int + 1);
        }
        acc = acc + (weights[idx] as u128);
        if t < acc {
            return idx;
        }
        idx = idx + 1;
    }
    proof {
        assert(weights@.take(weights@.len() as int) =~= weights@);
        assert(false);
    }
    0
}

/// One round of the greedy strategy: the chosen candidate moves from the
/// pool to the end of the centers, picked as `greedy_choice_ok` says — by a
/// drawn value and the cumulative linear-distance weights, or uniformly when
/// every candidate sits on a chosen center.
fn greedy_extend(seeds: &mut Vec<Color>, pool: &mut Vec<Color>, rng: &mut RandomSource)
    requires
        old(seeds)@.len() >= 1,
        old(pool)@.len() >= 1,
    ensures
        exists|c: int|
            {
                &&& 0 <= c < old(pool)@.len()
                &&& final(seeds)@ == old(seeds)@.push(old(pool)@[c])
                &&& final(pool)@ == old(pool)@.remove(c)
                &&& #[trigger] greedy_choice_ok(old(seeds)@, old(pool)@, c)
            },
{
    let wt = greedy_weights(seeds, pool);
    let ws = wt.0;
    let total = wt.1;
    let ghost wsi = greedy_weights_spec(seeds@, pool@);
    proof {
        assert(forall|q: int| 0 <= q < wsi.len() ==> (#[trigger] wsi[q]) == ws@[q] as int);
        lemma_sums_eq(ws@, wsi);
    }
    let ghost mut tw: int = 0;
    let chosen: usize = if total == 0 {
        rng.next_below(pool.len() as u128) as usize
    } else {
        let t = rng.next_below(total);
        let idx = pick_weighted(&ws, total, t);
        proof {
            tw = t as int;
            lemma_prefix_sums_eq(ws@, wsi, idx as int + 1);
            assert forall|p: int| 0 <= p < idx as int implies sum_ints(
                #[trigger] wsi.take(p + 1),
            ) <= tw by {
                assert(sum_weights(ws@.take(p + 1)) <= t);
                lemma_prefix_sums_eq(ws@, wsi, p + 1);
            }
            assert(picked_by(wsi, idx as int, tw));
        }
        idx
    };
    proof {
        if sum_ints(wsi) > 0 {
            assert(picked_by(wsi, chosen as int, tw) && 0 <= tw < sum_ints(wsi));
        }
        assert(greedy_choice_ok(seeds@, pool@, chosen as int));
    }
    let ghost pre_seeds = seeds@;
    let ghost pre_pool = pool@;
    let next = pool.remove(chosen);
    seeds.push(next);
    proof {
        assert(seeds@ == pre_seeds.push(pre_pool[chosen as int]));
        assert(pool@ == pre_pool.remove(chosen as int));
    }
}

/// A prefix of the weights never outweighs them all.
proof fn lemma_sum_weights_prefix(ws: Seq<u64>, j: int)
    requires
        0 <= j <= ws.len(),
    ensures
        sum_weights(ws.take(j)) <= sum_weights(ws),
    decreases ws.len() - j,
{
    if j == ws.len() {
        assert(ws.take(j) =~= ws);
    } else {
        assert(ws.take(j + 1).drop_last() =~= ws.take(j));
        assert(ws.take(j + 1).last() == ws[j]);
        lemma_sum_weights_prefix(ws, j + 1);
    }
}

/// Greedy probabilistic seeding: the first center is drawn uniformly; each
/// further center moves from the pool to the centers as `greedy_choice_ok`
/// prescribes — drawn with probability proportional to its distance to the
/// nearest chosen center — until the requested number of centers is reached
/// or the pool is exhausted. Which colors come back depends on the random
/// draws; every outcome is a list of distinct working colors of the full
/// requested length or the pool's.
pub(crate) fn seed_greedy(wl: &Vec<(Color, usize)>, a: usize, rng: &mut RandomSource) -> (seeds:
    Vec<Color>)
    requires
        distinct_keys(wl@),
        wl@.len() >= 1,
    ensures
        seeds@.len() == min(a as int, wl@.len() as int),
        distinct_colors(seeds@),
        all_from(seeds@, wl@),
{
    if a == 0 {
        return Vec::new();
    }
    let first = rng.next_below(wl.len() as u128) as usize;
    let mut seeds: Vec<Color> = Vec::new();
    seeds.push(wl[first].0);
    let mut pool: Vec<Color> = Vec::new();
    let ghost mut pidx: Seq<int> = Seq::empty();
    let mut t: usize = 0;
    while t < wl.len()
        invariant
            t <= wl@.len(),
            first < wl@.len(),
            distinct_keys(wl@),
            seeds@ == seq![wl@[first as int].0],
            pool@.len() == if t <= first {
                t as int
            } else {
                (t - 1) as int
            },
            pidx.len() == pool@.len(),
            forall|p: int| 0 <= p < pidx.len() ==> 0 <= (#[trigger] pidx[p]) < t,
            forall|p: int| 0 <= p < pidx.len() ==> (#[trigger] pidx[p]) != first,
            forall|p: int, q: int| 0 <= p < q < pidx.len() ==> (#[trigger] pidx[p]) != (
            #[trigger] pidx[q]),
            forall|p: int| 0 <= p < pool@.len() ==> (#[trigger] pool@[p]) == wl@[pidx[p]].0,
        decreases wl@.len() - t,
    {
        if t != first {
            pool.push(wl[t].0);
            proof {
                pidx = pidx.push(t as int);
            }
        }
        t = t + 1;
    }
    proof {
        assert forall|p: int, q: int| 0 <= p < q < pool@.len() implies (#[trigger] pool@[p]) != (
        #[trigger] pool@[q]) by {
            assert(pool@[p] == wl@[pidx[p]].0 && pool@[q] == wl@[pidx[q]].0);
            assert(pidx[p] != pidx[q]);
        }
        assert forall|p: int| 0 <= p < pool@.len() implies has_key(wl@, #[trigger] pool@[p]) by {
            assert(wl@[pidx[p]].0 == pool@[p]);
        }
        assert forall|i: int, j: int|
            0 <= i < seeds@.len() && 0 <= j < pool@.len() implies (#[trigger] seeds@[i]) != (
        #[trigger] pool@[j]) by {
            assert(seeds@[i] == wl@[first as int].0);
            assert(pool@[j] == wl@[pidx[j]].0);
            assert(pidx[j] != first);
        }
        assert(seeds@.len() + pool@.len() == wl@.len());
    }
    while seeds.len() < a
        invariant
            1 <= seeds@.len() <= a,
            distinct_colors(seeds@),
            all_from(seeds@, wl@),
            distinct_colors(pool@),
            all_from(pool@, wl@),
            disjoint_from(seeds@, pool@),
            seeds@.len() + pool@.len() <= wl@.len(),
            seeds@.len() == a || seeds@.len() + pool@.len() == wl@.len(),
        ensures
            seeds@.len() == min(a as int, wl@.len() as int),
        decreases a - seeds@.len(),
    {
        if pool.len() == 0 {
            break;
        }
        let ghost pre_pool = pool@;
        let ghost old_seeds = seeds@;
        greedy_extend(&mut seeds, &mut pool, rng);
        proof {
            let c = choose|c: int|
                {
                    &&& 0 <= c < pre_pool.len()
                    &&& seeds@ == old_seeds.push(pre_pool[c])
                    &&& pool@ == pre_pool.remove(c)
                    &&& #[trigger] greedy_choice_ok(old_seeds, pre_pool, c)
                };
            lemma_remove_color(pre_pool, c);
            pre_pool.remove_ensures(c);
            let next = pre_pool[c];
            assert(forall|i: int|
                0 <= i < old_seeds.len() ==> (#[trigger] seeds@[i]) == old_seeds[i]);
            assert(seeds@[seeds@.len() - 1] == next);
            // the new seed list stays distinct and keeps to working colors
            assert forall|i: int, j: int| 0 <= i < j < seeds@.len() implies (#[trigger] seeds@[i])
                != (#[trigger] seeds@[j]) by {
                if j == seeds@.len() - 1 {
                    assert(old_seeds[i] != pre_pool[c]);
                }
            }
            assert(has_key(wl@, next));
            // the shrunk pool keeps its colors and stays clear of the seeds
            assert forall|i: int| 0 <= i < pool@.len() implies has_key(wl@, #[trigger] pool@[i]) by {
                if i < c {
                    assert(pool@[i] == pre_pool[i]);
                } else {
                    assert(pool@[i] == pre_pool[i + 1]);
                }
            }
            assert forall|i: int, j: int|
                0 <= i < seeds@.len() && 0 <= j < pool@.len() implies (#[trigger] seeds@[i]) != (
            #[trigger] pool@[j]) by {
                let j0 = if j < c {
                    j
                } else {
                    j + 1
                };
                assert(pool@[j] == pre_pool[j0]);
                if i < old_seeds.len() {
                    assert(old_seeds[i] != pre_pool[j0]);
                }
            }
        }
    }
    proof {
        if seeds@.len() < a {
            assert(seeds@.len() + pool@.len() == wl@.len());
        }
    }
    seeds
}

} // verus!
