//! One refinement round of the clustering engine: every working color is
//! assigned to its nearest center, each cluster's new center is the member
//! color closest to the cluster's weighted mean relative to its own weight
//! (an empty cluster falls back to black), and the within-cluster sum of
//! squares is taken against the new centers.

use vstd::prelude::*;
use crate::arith::ratio_le;
use crate::arith::ratio_le_spec;
use crate::color::Color;
use crate::color::black;
use crate::color::calc_squared_dist;
use crate::color::lemma_sq_dist_bounds;
use crate::color::sq_dist;
use crate::weighted::has_key;
use crate::weighted::lemma_sum_counts_prefix;
use crate::weighted::sum_counts;

verus! {

/// The index of the center nearest to `c` by squared distance; the earliest
/// of the nearest centers on a tie. The comparison is deliberately exact:
/// distances here are integers with no rounding for a tolerance to absorb,
/// so no tolerance of a tenth widens the tie, and candidates tie only when
/// their distances are equal.
pub open spec fn nearest_index(centers: Seq<Color>, c: Color) -> int
    decreases centers.len(),
{
    if centers.len() <= 1 {
        0
    } else {
        let prev = nearest_index(centers.drop_last(), c);
        if sq_dist(centers.last(), c) < sq_dist(centers[prev], c) {
            centers.len() - 1
        } else {
            prev
        }
    }
}

/// The nearest index is in range and realizes the minimum distance.
pub proof fn lemma_nearest_index_min(centers: Seq<Color>, c: Color)
    requires
        centers.len() >= 1,
    ensures
        0 <= nearest_index(centers, c) < centers.len(),
        forall|j: int|
            0 <= j < centers.len() ==> sq_dist(centers[nearest_index(centers, c)], c) <= sq_dist(
                #[trigger] centers[j],
                c,
            ),
    decreases centers.len(),
{
    if centers.len() > 1 {
        lemma_nearest_index_min(centers.drop_last(), c);
        let dl = centers.drop_last();
        let prev = nearest_index(dl, c);
        let n = nearest_index(centers, c);
        assert(forall|i: int| 0 <= i < centers.len() - 1 ==> (#[trigger] dl[i]) == centers[i]);
        assert forall|j: int|
            0 <= j < centers.len() implies sq_dist(centers[n], c) <= sq_dist(
            #[trigger] centers[j],
            c,
        ) by {
            if j < centers.len() - 1 {
                assert(sq_dist(dl[prev], c) <= sq_dist(dl[j], c));
            }
        }
    }
}

/// Finds the nearest center, scanning in center-list order.
pub(crate) fn nearest_center(centers: &Vec<Color>, c: &Color) -> (k: usize)
    requires
        centers@.len() >= 1,
    ensures
        k as int == nearest_index(centers@, *c),
        k < centers@.len(),
{
    let mut best: usize = 0;
    let mut bd: u64 = calc_squared_dist(&centers[0], c);
    let mut i: usize = 1;
    proof {
        assert(centers@.take(1).len() == 1);
        assert(centers@.take(1)[0] == centers@[0]);
        lemma_nearest_index_min(centers@.take(1), *c);
    }
    while i < centers.len()
        invariant
            1 <= i <= centers@.len(),
            best as int == nearest_index(centers@.take(i as int), *c),
            best < i,
            bd == sq_dist(centers@[best as int], *c),
        decreases centers@.len() - i,
    {
        let d = calc_squared_dist(&centers[i], c);
        proof {
            let pre = centers@.take(i as int);
            let cur = centers@.take(i as int + 1);
            assert(cur.drop_last() =~= pre);
            assert(cur.last() == centers@[i as int]);
            assert(forall|j: int| 0 <= j < i ==> (#[trigger] pre[j]) == centers@[j]);
        }
        if d < bd {
            best = i;
            bd = d;
        }
        i = i + 1;
    }
    proof {
        assert(centers@.take(centers@.len() as int) =~= centers@);
    }
    best
}

/// The working colors assigned to cluster `k`: those whose nearest center is
/// the `k`-th, in working-list order.
pub open spec fn members_of(centers: Seq<Color>, wl: Seq<(Color, usize)>, k: int) -> Seq<
    (Color, usize),
>
    decreases wl.len(),
{
    if wl.len() == 0 {
        Seq::empty()
    } else {
        let rest = members_of(centers, wl.drop_last(), k);
        if nearest_index(centers, wl.last().0) == k {
            rest.push(wl.last())
        } else {
            rest
        }
    }
}

/// Cluster members come from the working list; they are no more numerous and
/// weigh no more than the whole list.
pub proof fn lemma_members_sub(centers: Seq<Color>, wl: Seq<(Color, usize)>, k: int)
    ensures
        forall|q: (Color, usize)| #[trigger]
            members_of(centers, wl, k).contains(q) ==> wl.contains(q),
        sum_counts(members_of(centers, wl, k)) <= sum_counts(wl),
        0 <= sum_counts(members_of(centers, wl, k)),
        members_of(centers, wl, k).len() <= wl.len(),
    decreases wl.len(),
{
    let ms = members_of(centers, wl, k);
    if wl.len() == 0 {
    } else {
        lemma_members_sub(centers, wl.drop_last(), k);
        let rest = members_of(centers, wl.drop_last(), k);
        assert forall|q: (Color, usize)| #[trigger] ms.contains(q) implies wl.contains(q) by {
            if rest.contains(q) {
                let i = choose|i: int| 0 <= i < wl.drop_last().len() && wl.drop_last()[i] == q;
                assert(wl[i] == q);
            } else {
                if ms.contains(q) {
                    let i = choose|i: int| 0 <= i < ms.len() && ms[i] == q;
                    assert(ms == rest.push(wl.last()));
                    if i < rest.len() {
                        assert(rest[i] == q);
                        assert(rest.contains(q));
                        let j = choose|j: int|
                            0 <= j < wl.drop_last().len() && wl.drop_last()[j] == q;
                        assert(wl[j] == q);
                    } else {
                        assert(q == wl.last());
                        assert(wl[wl.len() - 1] == q);
                    }
                }
            }
        }
        if nearest_index(centers, wl.last().0) == k {
            assert(ms.drop_last() =~= rest);
            assert(sum_counts(ms) == sum_counts(rest) + wl.last().1);
        }
    }
}

/// The weighted sum of one channel over the members.
pub open spec fn sum_weighted(ms: Seq<(Color, usize)>, f: spec_fn(Color) -> int) -> int
    decreases ms.len(),
{
    if ms.len() == 0 {
        0
    } else {
        sum_weighted(ms.drop_last(), f) + f(ms.last().0) * ms.last().1
    }
}

/// The occurrence-weighted mean color of a cluster, each channel rounded
/// down.
pub open spec fn mean_of(ms: Seq<(Color, usize)>) -> Color {
    let t = sum_counts(ms);
    Color {
        r: (sum_weighted(ms, |c: Color| c.r as int) / t) as u8,
        g: (sum_weighted(ms, |c: Color| c.g as int) / t) as u8,
        b: (sum_weighted(ms, |c: Color| c.b as int) / t) as u8,
    }
}

/// The member that minimizes squared distance to the mean scaled down by its
/// own squared weight; the first such member, in member order, on a tie.
pub open spec fn snap_to(ms: Seq<(Color, usize)>, mean: Color) -> (Color, usize)
    decreases ms.len(),
{
    if ms.len() <= 1 {
        ms[0]
    } else {
        let prev = snap_to(ms.drop_last(), mean);
        let cur = ms.last();
        if ratio_le_spec(sq_dist(prev.0, mean), prev.1 as int, sq_dist(cur.0, mean), cur.1 as int) {
            prev
        } else {
            cur
        }
    }
}

/// The snapped center is one of the members.
pub proof fn lemma_snap_in(ms: Seq<(Color, usize)>, mean: Color)
    requires
        ms.len() >= 1,
    ensures
        ms.contains(snap_to(ms, mean)),
    decreases ms.len(),
{
    if ms.len() == 1 {
        assert(ms[0] == snap_to(ms, mean));
    } else {
        lemma_snap_in(ms.drop_last(), mean);
        let prev = snap_to(ms.drop_last(), mean);
        let i = choose|i: int| 0 <= i < ms.drop_last().len() && ms.drop_last()[i] == prev;
        assert(ms[i] == prev);
        assert(ms[ms.len() - 1] == ms.last());
    }
}

/// The new center of cluster `k`: the snapped member, or black for an empty
/// cluster.
pub open spec fn new_center(centers: Seq<Color>, wl: Seq<(Color, usize)>, k: int) -> Color {
    let ms = members_of(centers, wl, k);
    if ms.len() == 0 {
        black()
    } else {
        snap_to(ms, mean_of(ms)).0
    }
}

/// All new centers of one refinement round.
pub open spec fn new_centers(centers: Seq<Color>, wl: Seq<(Color, usize)>) -> Seq<Color> {
    Seq::new(centers.len(), |k: int| new_center(centers, wl, k))
}

/// The within-cluster sum of squares: every working color counted once,
/// against the new center of the cluster it was assigned to.
pub open spec fn wcss_of(centers: Seq<Color>, ncs: Seq<Color>, wl: Seq<(Color, usize)>) -> int
    decreases wl.len(),
{
    if wl.len() == 0 {
        0
    } else {
        wcss_of(centers, ncs, wl.drop_last()) + sq_dist(
            wl.last().0,
            ncs[nearest_index(centers, wl.last().0)],
        )
    }
}

/// The sum of squares of one refinement round, zero when there are no
/// centers.
pub open spec fn refine_wcss(centers: Seq<Color>, wl: Seq<(Color, usize)>) -> int {
    if centers.len() == 0 {
        0
    } else {
        wcss_of(centers, new_centers(centers, wl), wl)
    }
}

/// Collects the members of cluster `k`, in working-list order.
fn collect_members(centers: &Vec<Color>, wl: &Vec<(Color, usize)>, k: usize) -> (ms: Vec<
    (Color, usize),
>)
    requires
        centers@.len() >= 1,
    ensures
        ms@ == members_of(centers@, wl@, k as int),
{
    let mut ms: Vec<(Color, usize)> = Vec::new();
    let mut j: usize = 0;
    proof {
        assert(wl@.take(0) =~= Seq::<(Color, usize)>::empty());
    }
    while j < wl.len()
        invariant
            j <= wl@.len(),
            centers@.len() >= 1,
            ms@ == members_of(centers@, wl@.take(j as int), k as int),
        decreases wl@.len() - j,
    {
        proof {
            assert(wl@.take(j as int + 1).drop_last() =~= wl@.take(j as int));
            assert(wl@.take(j as int + 1).last() == wl@[j as int]);
        }
        let sel = nearest_center(centers, &wl[j].0);
        if sel == k {
            ms.push(wl[j]);
        }
        j = j + 1;
    }
    proof {
        assert(wl@.take(wl@.len() as int) =~= wl@);
    }
    ms
}

/// Computes the occurrence-weighted mean color of a nonempty cluster.
fn weighted_mean(ms: &Vec<(Color, usize)>) -> (mean: Color)
    requires
        ms@.len() >= 1,
        forall|i: int| 0 <= i < ms@.len() ==> (#[trigger] ms@[i]).1 >= 1,
        sum_counts(ms@) <= usize::MAX,
    ensures
        mean == mean_of(ms@),
{
    let ghost fr = |c: Color| c.r as int;
    let ghost fg = |c: Color| c.g as int;
    let ghost fb = |c: Color| c.b as int;
    let mut rs: u128 = 0;
    let mut gs: u128 = 0;
    let mut bs: u128 = 0;
    let mut tot: u128 = 0;
    let mut j: usize = 0;
    proof {
        assert(ms@.take(0) =~= Seq::<(Color, usize)>::empty());
    }
    while j < ms.len()
        invariant
            j <= ms@.len(),
            forall|i: int| 0 <= i < ms@.len() ==> (#[trigger] ms@[i]).1 >= 1,
            sum_counts(ms@) <= usize::MAX,
            tot == sum_counts(ms@.take(j as int)),
            rs == sum_weighted(ms@.take(j as int), fr),
            gs == sum_weighted(ms@.take(j as int), fg),
            bs == sum_weighted(ms@.take(j as int), fb),
            fr == (|c: Color| c.r as int),
            fg == (|c: Color| c.g as int),
            fb == (|c: Color| c.b as int),
            0 <= rs <= 255 * tot,
            0 <= gs <= 255 * tot,
            0 <= bs <= 255 * tot,
        decreases ms@.len() - j,
    {
        proof {
            assert(ms@.take(j as int + 1).drop_last() =~= ms@.take(j as int));
            assert(ms@.take(j as int + 1).last() == ms@[j as int]);
            lemma_sum_counts_prefix(ms@, j as int + 1);
            let w = ms@[j as int].1 as int;
            assert(0 <= (ms@[j as int].0.r as int) * w <= 255 * w) by (nonlinear_arith)
                requires
                    0 <= ms@[j as int].0.r as int <= 255,
                    w >= 0,
            ;
            assert(0 <= (ms@[j as int].0.g as int) * w <= 255 * w) by (nonlinear_arith)
                requires
                    0 <= ms@[j as int].0.g as int <= 255,
                    w >= 0,
            ;
            assert(0 <= (ms@[j as int].0.b as int) * w <= 255 * w) by (nonlinear_arith)
                requires
                    0 <= ms@[j as int].0.b as int <= 255,
                    w >= 0,
            ;
            assert(255 * (tot + w) == 255 * tot + 255 * w) by (nonlinear_arith);
        }
        let e = ms[j];
        let w128: u128 = e.1 as u128;
        rs = rs + (e.0.r as u128) * w128;
        gs = gs + (e.0.g as u128) * w128;
        bs = bs + (e.0.b as u128) * w128;
        tot = tot + w128;
        j = j + 1;
    }
    proof {
        assert(ms@.take(ms@.len() as int) =~= ms@);
        lemma_sum_counts_prefix(ms@, 1);
        assert(ms@.take(1).drop_last() =~= Seq::<(Color, usize)>::empty());
        assert(ms@.take(1).last() == ms@[0]);
        assert(sum_counts(Seq::<(Color, usize)>::empty()) == 0);
        assert(sum_counts(ms@.take(1)) == ms@[0].1);
        assert(tot >= 1);
        lemma_channel_div_bound(rs as int, tot as int);
        lemma_channel_div_bound(gs as int, tot as int);
        lemma_channel_div_bound(bs as int, tot as int);
    }
    let mr: u128 = rs / tot;
    let mg: u128 = gs / tot;
    let mb: u128 = bs / tot;
    Color { r: mr as u8, g: mg as u8, b: mb as u8 }
}

/// A weighted channel sum divided by the total weight is a channel value.
proof fn lemma_channel_div_bound(s: int, t: int)
    requires
        t >= 1,
        0 <= s <= 255 * t,
    ensures
        0 <= s / t <= 255,
{
    assert(0 <= s / t <= 255) by (nonlinear_arith)
        requires
            t >= 1,
            0 <= s <= 255 * t,
    ;
}

/// Picks the member closest to the mean relative to its own weight; the
/// first such member on a tie, as everywhere a minimum is scanned for.
fn snap(ms: &Vec<(Color, usize)>, mean: Color) -> (s: Color)
    requires
        ms@.len() >= 1,
    ensures
        s == snap_to(ms@, mean).0,
{
    let mut best: (Color, usize) = ms[0];
    let mut bd: u64 = calc_squared_dist(&ms[0].0, &mean);
    let mut j: usize = 1;
    proof {
        assert(ms@.take(1).len() == 1);
        assert(ms@.take(1)[0] == ms@[0]);
        assert(snap_to(ms@.take(1), mean) == ms@[0]);
    }
    while j < ms.len()
        invariant
            1 <= j <= ms@.len(),
            best == snap_to(ms@.take(j as int), mean),
            bd == sq_dist(best.0, mean),
        decreases ms@.len() - j,
    {
        proof {
            assert(ms@.take(j as int + 1).drop_last() =~= ms@.take(j as int));
            assert(ms@.take(j as int + 1).last() == ms@[j as int]);
        }
        let cur = ms[j];
        let cd = calc_squared_dist(&cur.0, &mean);
        if !ratio_le(bd, best.1 as u64, cd, cur.1 as u64) {
            best = cur;
            bd = cd;
        }
        j = j + 1;
    }
    proof {
        assert(ms@.take(ms@.len() as int) =~= ms@);
    }
    best.0
}

/// Computes one refinement round: the new center of every cluster and the
/// within-cluster sum of squares against those new centers.
pub(crate) fn calc_new_clusters(centers: &Vec<Color>, wl: &Vec<(Color, usize)>) -> (out: (
    Vec<Color>,
    u128,
))
    requires
        forall|i: int| 0 <= i < wl@.len() ==> (#[trigger] wl@[i]).1 >= 1,
        sum_counts(wl@) <= usize::MAX,
    ensures
        out.0@ == new_centers(centers@, wl@),
        out.1 == refine_wcss(centers@, wl@),
        out.1 <= wl@.len() * 195075,
{
    if centers.len() == 0 {
        proof {
            assert(new_centers(centers@, wl@) =~= Seq::<Color>::empty());
            assert(wl@.len() * 195075 >= 0) by (nonlinear_arith);
        }
        return (Vec::new(), 0);
    }
    let mut ncs: Vec<Color> = Vec::new();
    let mut k: usize = 0;
    while k < centers.len()
        invariant
            k <= centers@.len(),
            centers@.len() >= 1,
            forall|i: int| 0 <= i < wl@.len() ==> (#[trigger] wl@[i]).1 >= 1,
            sum_counts(wl@) <= usize::MAX,
            ncs@.len() == k,
            forall|i: int| 0 <= i < k ==> (#[trigger] ncs@[i]) == new_center(centers@, wl@, i),
        decreases centers@.len() - k,
    {
        let ms = collect_members(centers, wl, k);
        proof {
            lemma_members_sub(centers@, wl@, k as int);
            assert forall|i: int| 0 <= i < ms@.len() implies (#[trigger] ms@[i]).1 >= 1 by {
                assert(ms@.contains(ms@[i]));
                assert(wl@.contains(ms@[i]));
                let j = choose|j: int| 0 <= j < wl@.len() && wl@[j] == ms@[i];
            }
        }
        if ms.len() == 0 {
            ncs.push(Color { r: 0, g: 0, b: 0 });
        } else {
            let mean = weighted_mean(&ms);
            let snapped = snap(&ms, mean);
            ncs.push(snapped);
        }
        k = k + 1;
    }
    proof {
        assert(ncs@ =~= new_centers(centers@, wl@));
    }
    let mut acc: u128 = 0;
    let mut j: usize = 0;
    proof {
        assert(wl@.take(0) =~= Seq::<(Color, usize)>::empty());
    }
    while j < wl.len()
        invariant
            j <= wl@.len(),
            centers@.len() >= 1,
            ncs@ == new_centers(centers@, wl@),
            acc == wcss_of(centers@, ncs@, wl@.take(j as int)),
            acc <= j * 195075,
        decreases wl@.len() - j,
    {
        proof {
            assert(wl@.take(j as int + 1).drop_last() =~= wl@.take(j as int));
            assert(wl@.take(j as int + 1).last() == wl@[j as int]);
            lemma_nearest_index_min(centers@, wl@[j as int].0);
        }
        let sel = nearest_center(centers, &wl[j].0);
        let d = calc_squared_dist(&wl[j].0, &ncs[sel]);
        proof {
            lemma_sq_dist_bounds(wl@[j as int].0, ncs@[sel as int]);
            assert(j * 195075 + 195075 == (j + 1) * 195075) by (nonlinear_arith);
        }
        acc = acc + (d as u128);
        j = j + 1;
    }
    proof {
        assert(wl@.take(wl@.len() as int) =~= wl@);
    }
    (ncs, acc)
}

/// A round's sum of squares is nonnegative and at most `3 * 255^2` per
/// working color.
pub proof fn lemma_wcss_bounds(centers: Seq<Color>, ncs: Seq<Color>, wl: Seq<(Color, usize)>)
    ensures
        0 <= wcss_of(centers, ncs, wl) <= wl.len() * 195075,
    decreases wl.len(),
{
    if wl.len() == 0 {
    } else {
        lemma_wcss_bounds(centers, ncs, wl.drop_last());
        let k = nearest_index(centers, wl.last().0);
        lemma_sq_dist_bounds(wl.last().0, ncs[k]);
        assert((wl.len() - 1) * 195075 + 195075 == wl.len() * 195075) by (nonlinear_arith);
    }
}

/// The centers after `n` refinement rounds from the given seeds.
pub open spec fn iterate_centers(seeds: Seq<Color>, wl: Seq<(Color, usize)>, n: nat) -> Seq<Color>
    decreases n,
{
    if n == 0 {
        seeds
    } else {
        new_centers(iterate_centers(seeds, wl, (n - 1) as nat), wl)
    }
}

/// Refinement never changes how many centers there are.
pub proof fn lemma_iterate_len(seeds: Seq<Color>, wl: Seq<(Color, usize)>, n: nat)
    ensures
        iterate_centers(seeds, wl, n).len() == seeds.len(),
    decreases n,
{
    if n > 0 {
        lemma_iterate_len(seeds, wl, (n - 1) as nat);
    }
}

/// The centers a run returns: eleven refinement rounds from the seeds.
pub open spec fn run_clusters(seeds: Seq<Color>, wl: Seq<(Color, usize)>) -> Seq<Color> {
    iterate_centers(seeds, wl, 11)
}

/// The sum of squares a run returns: the one computed by the last round.
pub open spec fn run_wcss(seeds: Seq<Color>, wl: Seq<(Color, usize)>) -> int {
    refine_wcss(iterate_centers(seeds, wl, 10), wl)
}

/// Every new center is the black fallback or a working color.
pub proof fn lemma_new_centers_membership(centers: Seq<Color>, wl: Seq<(Color, usize)>)
    ensures
        forall|i: int|
            0 <= i < new_centers(centers, wl).len() ==> (#[trigger] new_centers(centers, wl)[i])
                == black() || has_key(wl, new_centers(centers, wl)[i]),
{
    let ncs = new_centers(centers, wl);
    assert forall|i: int| 0 <= i < ncs.len() implies (#[trigger] ncs[i]) == black() || has_key(
        wl,
        ncs[i],
    ) by {
        let ms = members_of(centers, wl, i);
        if ms.len() > 0 {
            lemma_snap_in(ms, mean_of(ms));
            lemma_members_sub(centers, wl, i);
            let s = snap_to(ms, mean_of(ms));
            assert(wl.contains(s));
            let j = choose|j: int| 0 <= j < wl.len() && wl[j] == s;
            assert(wl[j].0 == s.0);
        }
    }
}

/// Every center a run returns is the black fallback or a working color.
pub proof fn lemma_run_centers_real(seeds: Seq<Color>, wl: Seq<(Color, usize)>)
    ensures
        forall|i: int|
            0 <= i < run_clusters(seeds, wl).len() ==> (#[trigger] run_clusters(seeds, wl)[i])
                == black() || has_key(wl, run_clusters(seeds, wl)[i]),
{
    lemma_new_centers_membership(iterate_centers(seeds, wl, 10), wl);
    assert(run_clusters(seeds, wl) == new_centers(iterate_centers(seeds, wl, 10), wl));
}

/// A run's sum of squares is never negative, and never more than `3 * 255^2`
/// for each working color.
pub proof fn lemma_run_wcss_bounds(seeds: Seq<Color>, wl: Seq<(Color, usize)>)
    ensures
        0 <= run_wcss(seeds, wl) <= wl.len() * 195075,
{
    let mid = iterate_centers(seeds, wl, 10);
    if mid.len() == 0 {
        assert(wl.len() * 195075 >= 0) by (nonlinear_arith);
    } else {
        lemma_wcss_bounds(mid, new_centers(mid, wl), wl);
    }
}

/// The total squared distance from every working color to one center.
pub open spec fn total_sq_dist(wl: Seq<(Color, usize)>, c: Color) -> int
    decreases wl.len(),
{
    if wl.len() == 0 {
        0
    } else {
        total_sq_dist(wl.drop_last(), c) + sq_dist(wl.last().0, c)
    }
}

/// With a single center, every working color is that center's member.
proof fn lemma_members_single(centers: Seq<Color>, wl: Seq<(Color, usize)>)
    requires
        centers.len() == 1,
    ensures
        members_of(centers, wl, 0) == wl,
    decreases wl.len(),
{
    if wl.len() > 0 {
        lemma_members_single(centers, wl.drop_last());
        assert(wl.drop_last().push(wl.last()) =~= wl);
    }
}

/// With a single center, the round's sum of squares is the total squared
/// distance to the new center.
proof fn lemma_wcss_single(centers: Seq<Color>, ncs: Seq<Color>, wl: Seq<(Color, usize)>)
    requires
        centers.len() == 1,
    ensures
        wcss_of(centers, ncs, wl) == total_sq_dist(wl, ncs[0]),
    decreases wl.len(),
{
    if wl.len() > 0 {
        lemma_wcss_single(centers, ncs, wl.drop_last());
    }
}

/// A run with one seed returns exactly one cluster, centered on a working
/// color, and its sum of squares is the total squared distance of every
/// working color to that centroid.
pub proof fn lemma_single_seed_run(seeds: Seq<Color>, wl: Seq<(Color, usize)>)
    requires
        seeds.len() == 1,
        wl.len() >= 1,
    ensures
        run_clusters(seeds, wl).len() == 1,
        has_key(wl, run_clusters(seeds, wl)[0]),
        run_wcss(seeds, wl) == total_sq_dist(wl, run_clusters(seeds, wl)[0]),
{
    let mid = iterate_centers(seeds, wl, 10);
    lemma_iterate_len(seeds, wl, 10);
    lemma_iterate_len(seeds, wl, 11);
    assert(run_clusters(seeds, wl) == new_centers(mid, wl));
    lemma_members_single(mid, wl);
    lemma_wcss_single(mid, new_centers(mid, wl), wl);
    let ms = members_of(mid, wl, 0);
    lemma_snap_in(ms, mean_of(ms));
    let s = snap_to(ms, mean_of(ms));
    let j = choose|j: int| 0 <= j < wl.len() && wl[j] == s;
    assert(wl[j].0 == s.0);
    assert(run_clusters(seeds, wl)[0] == s.0);
}

} // verus!
