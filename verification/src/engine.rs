//! The clustering engine and its orchestrator: building the working set,
//! seeding it, running the bounded refinement, and sweeping over several `k`
//! values to pick the most elbow-like run.

use vstd::prelude::*;
use vstd::math::min;
use crate::color::Color;
use crate::color::black;
use crate::elbow::elbow_index;
use crate::elbow::elbow_select;
use crate::elbow::ints_of;
use crate::refine::calc_new_clusters;
use crate::refine::iterate_centers;
use crate::refine::lemma_iterate_len;
use crate::refine::lemma_run_centers_real;
use crate::refine::run_clusters;
use crate::refine::run_wcss;
use crate::rng::RandomSource;
use crate::seeding::all_from;
use crate::seeding::distinct_colors;
use crate::seeding::sample_uniform;
use crate::seeding::seed_greedy;
use crate::weighted::distinct_keys;
use crate::weighted::eff_top;
use crate::weighted::has_key;
use crate::weighted::occurrences;
use crate::weighted::quantized_view;
use crate::weighted::select_working;
use crate::weighted::sorted_desc;
use crate::weighted::stable_sort_desc;
use crate::weighted::sum_counts;
use crate::weighted::tally_colors;
use crate::weighted::tally_spec;
use crate::weighted::weight_in;

verus! {

/// Each run of the cluster calculation produces a result carrying the `k`
/// requested, the centroid colors found, and the within-cluster sum of
/// squares (WCSS).
#[derive(Clone, Debug)]
pub struct RunResult {
    /// The number of `k` clusters requested for this run.
    pub ks: usize,
    /// The cluster centroids found in this run.
    pub clusters: Vec<Color>,
    /// The within-cluster sum of squares for this run.
    pub wcss: u128,
}

/// Configuration options for a run of the k-means algorithm.
#[derive(Clone, Copy, Debug)]
pub struct Config {
    /// An optional factor to quantize the colors by before running; a value
    /// at or below one leaves the colors unchanged.
    pub quantize_fact: Option<i32>,
    /// Only consider this number of the most frequent colors for clustering.
    pub top_num: Option<usize>,
}

/// The method used to pick the initial `k` cluster centers.
#[derive(Clone, Copy, Debug)]
pub enum InitMethod {
    /// Select the initial centers uniformly at random.
    Random,
    /// Select the initial centers with the greedy probabilistic strategy.
    KmeansPlusPlus,
}

/// What a run can be refused for: an empty color source leaves the engine
/// nothing to cluster.
#[derive(Clone, Copy, Debug, PartialEq, Eq, Structural)]
pub enum KmeansError {
    /// The input leaves the engine nothing to cluster.
    InvalidInput,
}

/// The quantization factor a configuration asks for, before clamping.
pub open spec fn factor_of(quantize_fact: Option<i32>) -> int {
    match quantize_fact {
        Option::None => 1,
        Option::Some(f) => f as int,
    }
}

/// The sums of squares of a result list, as plain integers.
pub open spec fn wcss_ints(rs: Seq<RunResult>) -> Seq<int> {
    Seq::new(rs.len(), |i: int| rs[i].wcss as int)
}

/// The engine instance: the image's pixel colors, the session's working set,
/// the last seed list, and the last run results.
pub struct ImageKmeans {
    /// The raw input colors; a run never mutates them.
    pub colors: Vec<Color>,
    /// The working color list with each color's occurrence count, sorted by
    /// descending count and truncated to the configured top entries.
    pub working_colors: Option<Vec<(Color, usize)>>,
    /// The full tally of quantized input colors.
    pub working_colors_counts: Option<Vec<(Color, usize)>>,
    /// The seed centers of the last seeding.
    pub initial_ks: Vec<Color>,
    /// The results of the last run or sweep.
    pub results: Vec<RunResult>,
}

impl ImageKmeans {
    /// The working color list, empty until one is built.
    pub open spec fn working_list(self) -> Seq<(Color, usize)> {
        match self.working_colors {
            Option::Some(wl) => wl@,
            Option::None => Seq::empty(),
        }
    }

    /// The tally of quantized colors, empty until one is built.
    pub open spec fn tally(self) -> Seq<(Color, usize)> {
        match self.working_colors_counts {
            Option::Some(t) => t@,
            Option::None => Seq::empty(),
        }
    }

    /// What every engine state satisfies: a built working list has distinct
    /// keys, positive counts, and a total count a machine word can hold.
    pub open spec fn wf(self) -> bool {
        match self.working_colors {
            Option::Some(wl) => {
                &&& distinct_keys(wl@)
                &&& (forall|i: int| 0 <= i < wl@.len() ==> (#[trigger] wl@[i]).1 >= 1)
                &&& sum_counts(wl@) <= usize::MAX
            },
            Option::None => true,
        }
    }

    /// Whether the session's working set was built from the given colors and
    /// configuration: the tally counts exactly the occurrences of each
    /// quantized color, in first-occurrence order, and the working list is
    /// the truncated stable descending-count sort of the tally — ties in
    /// count keep their tally order.
    pub open spec fn working_set_built_from(
        self,
        colors: Seq<Color>,
        quantize_fact: Option<i32>,
        top_num: Option<usize>,
    ) -> bool {
        &&& self.working_colors is Some
        &&& self.working_colors_counts is Some
        &&& self.tally() == tally_spec(quantized_view(colors, factor_of(quantize_fact)))
        &&& self.working_list() == stable_sort_desc(self.tally()).take(
            eff_top(top_num, self.tally().len() as int),
        )
        &&& distinct_keys(self.tally())
        &&& (forall|c: Color| #[trigger]
            weight_in(self.tally(), c) == occurrences(
                quantized_view(colors, factor_of(quantize_fact)),
                c,
            ))
        &&& (forall|i: int| 0 <= i < self.tally().len() ==> (#[trigger] self.tally()[i]).1 >= 1)
        &&& sum_counts(self.tally()) == colors.len()
        &&& self.tally().len() <= colors.len()
        &&& distinct_keys(self.working_list())
        &&& sorted_desc(self.working_list())
        &&& self.working_list().len() == eff_top(top_num, self.tally().len() as int)
        &&& (forall|q: (Color, usize)| #[trigger]
            self.working_list().contains(q) ==> self.tally().contains(q))
        &&& (forall|i: int|
            0 <= i < self.working_list().len() ==> (#[trigger] self.working_list()[i]).1 >= 1)
        &&& sum_counts(self.working_list()) <= sum_counts(self.tally())
        &&& (forall|q: (Color, usize), i: int|
            self.tally().contains(q) && !(#[trigger] self.working_list().contains(q)) && 0 <= i
                < self.working_list().len() ==> (#[trigger] self.working_list()[i]).1 >= q.1)
    }

    /// Builds an engine instance from an ordered sequence of pixel colors.
    pub fn new(colors: Vec<Color>) -> (s: Self)
        ensures
            s.colors@ == colors@,
            s.working_colors is None,
            s.working_colors_counts is None,
            s.initial_ks@.len() == 0,
            s.results@.len() == 0,
            s.wf(),
    {
        ImageKmeans {
            colors,
            working_colors: None,
            working_colors_counts: None,
            initial_ks: Vec::new(),
            results: Vec::new(),
        }
    }

    /// Builds an engine instance from flat RGBA pixel data, one color per
    /// four bytes; the alpha byte is ignored.
    pub fn from_rgba(data: &Vec<u8>) -> (s: Self)
        ensures
            s.colors@.len() == data@.len() / 4,
            forall|i: int|
                0 <= i < s.colors@.len() ==> (#[trigger] s.colors@[i]) == (Color {
                    r: data@[4 * i],
                    g: data@[4 * i + 1],
                    b: data@[4 * i + 2],
                }),
            s.working_colors is None,
            s.working_colors_counts is None,
            s.initial_ks@.len() == 0,
            s.results@.len() == 0,
            s.wf(),
    {
        let n: usize = data.len() / 4;
        proof {
            vstd::arithmetic::div_mod::lemma_fundamental_div_mod(data@.len() as int, 4);
            vstd::arithmetic::div_mod::lemma_mod_bound(data@.len() as int, 4);
            assert(4 * (data@.len() / 4) <= data@.len());
        }
        let mut colors: Vec<Color> = Vec::new();
        let mut i: usize = 0;
        let mut base: usize = 0;
        while i < n
            invariant
                i <= n,
                n == data@.len() / 4,
                4 * n <= data@.len(),
                data@.len() <= usize::MAX,
                base == 4 * i,
                colors@.len() == i,
                forall|j: int|
                    0 <= j < i ==> (#[trigger] colors@[j]) == (Color {
                        r: data@[4 * j],
                        g: data@[4 * j + 1],
                        b: data@[4 * j + 2],
                    }),
            decreases n - i,
        {
            proof {
                assert(4 * (i as int) + 4 <= 4 * (n as int) && 4 * ((i + 1) as int) == 4 * (
                i as int) + 4) by (nonlinear_arith)
                    requires
                        i < n,
                ;
            }
            colors.push(Color { r: data[base], g: data[base + 1], b: data[base + 2] });
            base = base + 4;
            i = i + 1;
        }
        Self::new(colors)
    }

    /// Builds the working set for this session: quantizes every input color
    /// by the configured factor, tallies the occurrences, and keeps the most
    /// frequent distinct colors.
    pub fn set_working_colors(&mut self, quantize_fact: Option<i32>, top_num: Option<usize>)
        ensures
            final(self).working_set_built_from(old(self).colors@, quantize_fact, top_num),
            final(self).wf(),
            final(self).colors == old(self).colors,
            final(self).initial_ks == old(self).initial_ks,
            final(self).results == old(self).results,
    {
        let qf: i32 = match quantize_fact {
            None => 1,
            Some(f) => f,
        };
        let t = tally_colors(&self.colors, qf);
        let wl = select_working(&t, top_num);
        self.working_colors_counts = Some(t);
        self.working_colors = Some(wl);
        proof {
            vstd::std_specs::vec::axiom_spec_len(&self.colors);
            assert(distinct_keys(self.working_list()));
            assert(forall|i: int|
                0 <= i < self.working_list().len() ==> (#[trigger] self.working_list()[i]).1 >= 1);
            assert(sum_counts(self.working_list()) <= usize::MAX);
        }
    }

    /// Seeds the next runs with colors drawn uniformly, without replacement,
    /// from the working color list.
    pub fn use_random_ks(&mut self, a: usize, rng: &mut RandomSource)
        requires
            old(self).wf(),
            old(self).working_colors is Some,
        ensures
            final(self).wf(),
            final(self).colors == old(self).colors,
            final(self).working_colors == old(self).working_colors,
            final(self).working_colors_counts == old(self).working_colors_counts,
            final(self).results == old(self).results,
            final(self).initial_ks@.len() == min(a as int, old(self).working_list().len() as int),
            distinct_colors(final(self).initial_ks@),
            all_from(final(self).initial_ks@, old(self).working_list()),
    {
        let seeds = match &self.working_colors {
            Some(wl) => sample_uniform(wl, a, rng),
            None => Vec::new(),
        };
        self.initial_ks = seeds;
    }

    /// Seeds the next runs with the greedy probabilistic strategy over the
    /// working color list.
    pub fn use_kmeans_plus_plus(&mut self, a: usize, rng: &mut RandomSource)
        requires
            old(self).wf(),
            old(self).working_colors is Some,
            old(self).working_list().len() >= 1,
        ensures
            final(self).wf(),
            final(self).colors == old(self).colors,
            final(self).working_colors == old(self).working_colors,
            final(self).working_colors_counts == old(self).working_colors_counts,
            final(self).results == old(self).results,
            final(self).initial_ks@.len() == min(a as int, old(self).working_list().len() as int),
            distinct_colors(final(self).initial_ks@),
            all_from(final(self).initial_ks@, old(self).working_list()),
    {
        let seeds = match &self.working_colors {
            Some(wl) => seed_greedy(wl, a, rng),
            None => Vec::new(),
        };
        self.initial_ks = seeds;
    }

    /// Performs one run: takes the first `num_ks` seed centers and refines
    /// them through exactly eleven assign-and-recompute rounds, with the
    /// within-cluster sum of squares of the last round.
    pub fn do_run(&self, num_ks: usize) -> (r: RunResult)
        requires
            self.wf(),
            self.working_colors is Some,
        ensures
            r.ks == num_ks,
            r.clusters@.len() == min(num_ks as int, self.initial_ks@.len() as int),
            r.clusters@ == run_clusters(
                self.initial_ks@.take(min(num_ks as int, self.initial_ks@.len() as int)),
                self.working_list(),
            ),
            r.wcss == run_wcss(
                self.initial_ks@.take(min(num_ks as int, self.initial_ks@.len() as int)),
                self.working_list(),
            ),
            r.wcss <= self.working_list().len() * 195075,
    {
        let max_ks: usize = if num_ks <= self.initial_ks.len() {
            num_ks
        } else {
            self.initial_ks.len()
        };
        let mut clusters = prefix_colors(&self.initial_ks, max_ks);
        let ghost seeds0 = clusters@;
        let mut wcss: u128 = 0;
        match &self.working_colors {
            Some(wl) => {
                let mut it: usize = 0;
                while it < 11
                    invariant
                        it <= 11,
                        distinct_keys(wl@),
                        forall|i: int| 0 <= i < wl@.len() ==> (#[trigger] wl@[i]).1 >= 1,
                        sum_counts(wl@) <= usize::MAX,
                        clusters@ == iterate_centers(seeds0, wl@, it as nat),
                        it >= 1 ==> wcss as int == run_one_round_wcss(seeds0, wl@, it as nat),
                        wcss <= wl@.len() * 195075,
                    decreases 11 - it,
                {
                    let round = calc_new_clusters(&clusters, wl);
                    clusters = round.0;
                    wcss = round.1;
                    it = it + 1;
                }
                proof {
                    lemma_iterate_len(seeds0, wl@, 11);
                }
                RunResult { ks: num_ks, clusters, wcss }
            },
            None => {
                proof {
                    assert(false);
                }
                RunResult { ks: num_ks, clusters: Vec::new(), wcss: 0 }
            },
        }
    }

    /// Does a run with a fixed number of `k` clusters: rebuilds the working
    /// set from the configuration, seeds `k` centers with the chosen
    /// strategy, refines them, and returns the single result. An empty color
    /// source is rejected; a request for zero clusters yields by definition
    /// an empty cluster list with a sum of squares of zero.
    pub fn with_fixed_k_number(
        &mut self,
        k_number: usize,
        init_method: InitMethod,
        config: Config,
        rng: &mut RandomSource,
    ) -> (r: Result<RunResult, KmeansError>)
        requires
            old(self).wf(),
            (match config.top_num {
                Option::Some(t) => t >= 1,
                Option::None => true,
            }),
        ensures
            final(self).wf(),
            final(self).colors == old(self).colors,
            r is Err <==> old(self).colors@.len() == 0,
            r is Err ==> r == Err::<RunResult, KmeansError>(KmeansError::InvalidInput)
                && *final(self) == *old(self),
            (r matches Ok(res) ==> {
                let wl = final(self).working_list();
                &&& final(self).working_set_built_from(
                    old(self).colors@,
                    config.quantize_fact,
                    config.top_num,
                )
                &&& wl.len() >= 1
                &&& final(self).initial_ks@.len() == min(k_number as int, wl.len() as int)
                &&& distinct_colors(final(self).initial_ks@)
                &&& all_from(final(self).initial_ks@, wl)
                &&& res.ks == k_number
                &&& res.clusters@.len() == min(k_number as int, wl.len() as int)
                &&& res.clusters@ == run_clusters(final(self).initial_ks@, wl)
                &&& res.wcss == run_wcss(final(self).initial_ks@, wl)
                &&& res.wcss <= wl.len() * 195075
                &&& (k_number == 0 ==> res.clusters@.len() == 0 && res.wcss == 0)
                &&& (forall|i: int|
                    0 <= i < res.clusters@.len() ==> (#[trigger] res.clusters@[i]) == black()
                        || has_key(wl, res.clusters@[i]))
                &&& final(self).results@.len() == 1
                &&& final(self).results@[0].ks == res.ks
                &&& final(self).results@[0].clusters@ == res.clusters@
                &&& final(self).results@[0].wcss == res.wcss
            }),
    {
        if self.colors.len() == 0 {
            return Err(KmeansError::InvalidInput);
        }
        self.set_working_colors(config.quantize_fact, config.top_num);
        proof {
            lemma_nonempty_working(*self, old(self).colors@, config.quantize_fact, config.top_num);
        }
        match init_method {
            InitMethod::Random => self.use_random_ks(k_number, rng),
            InitMethod::KmeansPlusPlus => self.use_kmeans_plus_plus(k_number, rng),
        }
        let result = self.do_run(k_number);
        proof {
            assert(self.initial_ks@.take(
                min(k_number as int, self.initial_ks@.len() as int),
            ) =~= self.initial_ks@);
            lemma_run_centers_real(self.initial_ks@, self.working_list());
            if k_number == 0 {
                lemma_iterate_len(self.initial_ks@, self.working_list(), 10);
            }
        }
        let stored = copy_result(&result);
        let mut rs: Vec<RunResult> = Vec::new();
        rs.push(stored);
        self.results = rs;
        Ok(result)
    }

    /// Performs runs for every `k` from one to ten over one working set and
    /// one ten-center seeding, and returns the run whose sum of squares lies
    /// farthest from the reference chord of the sweep (the elbow heuristic).
    /// An empty color source is rejected.
    pub fn with_derived_k_number(
        &mut self,
        init_method: InitMethod,
        config: Config,
        rng: &mut RandomSource,
    ) -> (r: Result<RunResult, KmeansError>)
        requires
            old(self).wf(),
            (match config.top_num {
                Option::Some(t) => t >= 1,
                Option::None => true,
            }),
        ensures
            final(self).wf(),
            final(self).colors == old(self).colors,
            r is Err <==> old(self).colors@.len() == 0,
            r is Err ==> r == Err::<RunResult, KmeansError>(KmeansError::InvalidInput)
                && *final(self) == *old(self),
            (r matches Ok(res) ==> {
                let wl = final(self).working_list();
                let seeds = final(self).initial_ks@;
                let rs = final(self).results@;
                &&& final(self).working_set_built_from(
                    old(self).colors@,
                    config.quantize_fact,
                    config.top_num,
                )
                &&& wl.len() >= 1
                &&& seeds.len() == min(10, wl.len() as int)
                &&& distinct_colors(seeds)
                &&& all_from(seeds, wl)
                &&& rs.len() == 10
                &&& (forall|j: int| 0 <= j < 10 ==> (#[trigger] rs[j]).ks == j + 1)
                &&& (forall|j: int|
                    0 <= j < 10 ==> (#[trigger] rs[j]).clusters@ == run_clusters(
                        seeds.take(min(j + 1, seeds.len() as int)),
                        wl,
                    ) && rs[j].wcss == run_wcss(seeds.take(min(j + 1, seeds.len() as int)), wl))
                &&& ({
                    let e = elbow_index(wcss_ints(rs));
                    &&& 0 <= e < 10
                    &&& res.ks == rs[e].ks
                    &&& res.clusters@ == rs[e].clusters@
                    &&& res.wcss == rs[e].wcss
                })
            }),
    {
        if self.colors.len() == 0 {
            return Err(KmeansError::InvalidInput);
        }
        self.set_working_colors(config.quantize_fact, config.top_num);
        proof {
            lemma_nonempty_working(*self, old(self).colors@, config.quantize_fact, config.top_num);
        }
        match init_method {
            InitMethod::Random => self.use_random_ks(10, rng),
            InitMethod::KmeansPlusPlus => self.use_kmeans_plus_plus(10, rng),
        }
        self.results = Vec::new();
        let ghost snap = *self;
        let mut i: usize = 1;
        while i <= 10
            invariant
                1 <= i <= 11,
                self.wf(),
                self.working_colors is Some,
                self.colors == snap.colors,
                self.working_colors == snap.working_colors,
                self.working_colors_counts == snap.working_colors_counts,
                self.initial_ks == snap.initial_ks,
                self.results@.len() == i - 1,
                forall|j: int| 0 <= j < i - 1 ==> (#[trigger] self.results@[j]).ks == j + 1,
                forall|j: int|
                    0 <= j < i - 1 ==> (#[trigger] self.results@[j]).clusters@ == run_clusters(
                        snap.initial_ks@.take(min(j + 1, snap.initial_ks@.len() as int)),
                        snap.working_list(),
                    ) && self.results@[j].wcss == run_wcss(
                        snap.initial_ks@.take(min(j + 1, snap.initial_ks@.len() as int)),
                        snap.working_list(),
                    ) && self.results@[j].wcss <= snap.working_list().len() * 195075,
            decreases 11 - i,
        {
            let r = self.do_run(i);
            self.results.push(r);
            i = i + 1;
        }
        let mut wcss_vec: Vec<u128> = Vec::new();
        let mut j: usize = 0;
        while j < 10
            invariant
                j <= 10,
                self.results@.len() == 10,
                self.working_colors == snap.working_colors,
                forall|p: int|
                    0 <= p < 10 ==> (#[trigger] self.results@[p]).wcss <= snap.working_list().len()
                        * 195075,
                wcss_vec@.len() == j,
                forall|p: int| 0 <= p < j ==> (#[trigger] wcss_vec@[p]) == self.results@[p].wcss,
            decreases 10 - j,
        {
            wcss_vec.push(self.results[j].wcss);
            j = j + 1;
        }
        proof {
            assert forall|p: int| 0 <= p < 10 implies (#[trigger] wcss_vec@[p])
                < 0x10000000000000000000000000 by {
                assert(snap.working_list().len() * 195075 < 0x10000000000000000000000000)
                    by (nonlinear_arith)
                    requires
                        snap.working_list().len() <= 0xffff_ffff_ffff_ffffu64,
                ;
            }
        }
        let e = elbow_select(&wcss_vec);
        proof {
            assert(ints_of(wcss_vec@) =~= wcss_ints(self.results@));
        }
        let res = copy_result(&self.results[e]);
        Ok(res)
    }
}

/// One round short of a full run: the sum of squares after `n` rounds, which
/// the `n`-th round computed against the centers it produced.
pub open spec fn run_one_round_wcss(seeds: Seq<Color>, wl: Seq<(Color, usize)>, n: nat) -> int {
    crate::refine::refine_wcss(iterate_centers(seeds, wl, (n - 1) as nat), wl)
}

/// A working set built from a nonempty color source with a positive cap
/// keeps at least one working color.
proof fn lemma_nonempty_working(
    s: ImageKmeans,
    colors: Seq<Color>,
    quantize_fact: Option<i32>,
    top_num: Option<usize>,
)
    requires
        s.working_set_built_from(colors, quantize_fact, top_num),
        colors.len() >= 1,
        (match top_num {
            Option::Some(t) => t >= 1,
            Option::None => true,
        }),
    ensures
        s.tally().len() >= 1,
        s.working_list().len() >= 1,
{
    if s.tally().len() == 0 {
        assert(sum_counts(s.tally()) == 0);
    }
}

/// Copies a color list.
fn copy_colors(v: &Vec<Color>) -> (out: Vec<Color>)
    ensures
        out@ == v@,
{
    let mut out: Vec<Color> = Vec::new();
    let mut i: usize = 0;
    while i < v.len()
        invariant
            i <= v@.len(),
            out@ == v@.take(i as int),
        decreases v@.len() - i,
    {
        out.push(v[i]);
        proof {
            assert(v@.take(i as int + 1) =~= v@.take(i as int).push(v@[i as int]));
        }
        i = i + 1;
    }
    proof {
        assert(v@.take(v@.len() as int) =~= v@);
    }
    out
}

/// Copies the first `m` colors.
fn prefix_colors(v: &Vec<Color>, m: usize) -> (out: Vec<Color>)
    requires
        m <= v@.len(),
    ensures
        out@ == v@.take(m as int),
{
    let mut out: Vec<Color> = Vec::new();
    let mut i: usize = 0;
    while i < m
        invariant
            i <= m <= v@.len(),
            out@ == v@.take(i as int),
        decreases m - i,
    {
        out.push(v[i]);
        proof {
            assert(v@.take(i as int + 1) =~= v@.take(i as int).push(v@[i as int]));
        }
        i = i + 1;
    }
    out
}

/// Copies a run result.
fn copy_result(r: &RunResult) -> (out: RunResult)
    ensures
        out.ks == r.ks,
        out.clusters@ == r.clusters@,
        out.wcss == r.wcss,
{
    RunResult { ks: r.ks, clusters: copy_colors(&r.clusters), wcss: r.wcss }
}

} // verus!
