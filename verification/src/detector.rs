//! Cut decisions on pairs of frames and on runs of scores.

use crate::cli;
use crate::double;
use crate::double::{sum_at_most_epsilon, Double};
use crate::error::{SCuiseiError, SCuiseiResult};
use crate::meanalysis;
use crate::meanalysis::{meanalysis_xvid_like, MotionPlanCache};
use crate::order;
use crate::sums;
use crate::text::joined;
use crate::validation;
use crate::validation::{
    validate_finite_nonnegative, validate_nonnegative_i32, validate_positive_usize,
    validate_unit_interval,
};
use std::collections::VecDeque;
use vstd::prelude::*;

verus! {

/// Fewer scores than this say nothing about the scores to come.
pub const MIN_SAMPLES_FOR_ADAPTIVE_THRESHOLD: usize = 5;

/// Settings of the motion-based detector.
#[derive(Clone, Copy, Debug)]
pub struct XvidDetectorConfig {
    pub search_radius: i32,
    pub intra_thresh: i32,
    pub intra_thresh2: Double,
}

impl XvidDetectorConfig {
    pub open spec fn defaults() -> XvidDetectorConfig {
        XvidDetectorConfig {
            search_radius: cli::DEFAULT_ME_SEARCH_RADIUS,
            intra_thresh: cli::DEFAULT_ME_INTRA_THRESH,
            intra_thresh2: Double { bits: cli::DEFAULT_ME_INTRA_THRESH2 },
        }
    }

    /// What [`XvidDetectorConfig::validate`] looks at, in its order.
    pub open spec fn checks(self) -> Seq<validation::Check> {
        seq![
            validation::nonnegative_check("xvid_config.search_radius"@, self.search_radius),
            validation::nonnegative_check("xvid_config.intra_thresh"@, self.intra_thresh),
            validation::finite_nonnegative_check("xvid_config.intra_thresh2"@, self.intra_thresh2),
        ]
    }

    pub fn validate(&self) -> (r: SCuiseiResult<()>)
        ensures
            validation::passes(r, self.checks()),
    {
        let ghost checks = self.checks();
        let checked = validate_nonnegative_i32("xvid_config.search_radius", self.search_radius);
        assert(checks[0].agrees(checked));
        if checked.is_err() {
            return checked;
        }
        let checked = validate_nonnegative_i32("xvid_config.intra_thresh", self.intra_thresh);
        assert(checks[1].agrees(checked));
        if checked.is_err() {
            return checked;
        }
        let checked = validate_finite_nonnegative("xvid_config.intra_thresh2", self.intra_thresh2);
        assert(checks[2].agrees(checked));
        checked
    }
}

impl Default for XvidDetectorConfig {
    fn default() -> (r: XvidDetectorConfig)
        ensures
            r == XvidDetectorConfig::defaults(),
    {
        XvidDetectorConfig {
            search_radius: cli::DEFAULT_ME_SEARCH_RADIUS,
            intra_thresh: cli::DEFAULT_ME_INTRA_THRESH,
            intra_thresh2: Double::from_bits(cli::DEFAULT_ME_INTRA_THRESH2),
        }
    }
}

/// A decision and what it rests on.
#[derive(Clone, Copy, Debug)]
pub struct XvidDecision {
    pub is_cut: bool,
    pub score: Double,
    pub threshold: Double,
    pub intra_blocks: usize,
    pub total_blocks: usize,
    pub mc_sad: u64,
}

/// How much more a block may differ before it counts as new, `since` frames after a cut.
pub open spec fn warmed_intra_thresh(intra_thresh: int, since: int) -> int {
    if since < 10 {
        sums::saturate(intra_thresh + 15 * (10 - since) * (10 - since), i32::MAX as int)
    } else {
        intra_thresh
    }
}

/// What is added to the score threshold, `since` frames after a cut.
pub open spec fn warm_up_raise(since: int) -> int {
    if since < 30 {
        4 * (30 - since)
    } else {
        0
    }
}

/// The decision on two frames, `since` frames after a cut.
pub open spec fn decision(
    config: XvidDetectorConfig,
    since: int,
    prev: Seq<u8>,
    curr: Seq<u8>,
    width: usize,
    height: usize,
    threshold: Double,
) -> XvidDecision {
    let analysis = meanalysis::analysis(
        prev,
        curr,
        width,
        height,
        config.search_radius,
        warmed_intra_thresh(config.intra_thresh as int, since) as i32,
    );
    let score = double::integer(analysis.score as int);
    XvidDecision {
        is_cut: 2 * analysis.intra_blocks > analysis.total_blocks || threshold.below(score),
        score,
        threshold,
        intra_blocks: analysis.intra_blocks,
        total_blocks: analysis.total_blocks,
        mc_sad: analysis.mc_sad,
    }
}

/// How many frames the scene has after a decision.
pub open spec fn scene_length_after(since: int, is_cut: bool) -> int {
    if is_cut {
        1
    } else {
        sums::saturate(since + 1, usize::MAX as int)
    }
}

/// How many frames the current scene has after a run of decisions, from a fresh start.
pub open spec fn scene_length(decisions: Seq<bool>) -> int
    decreases decisions.len(),
{
    if decisions.len() == 0 {
        1
    } else {
        scene_length_after(scene_length(decisions.drop_last()), decisions.last())
    }
}

/// After a fresh start or a cut, and `quiet` decisions without a cut, the score threshold is
/// raised by 4 for each of them that is missing to 29, and the block threshold by 15 times the
/// square of what is missing to 9.
pub proof fn warm_up_fades(decisions: Seq<bool>, quiet: int, intra_thresh: int)
    requires
        0 <= quiet <= decisions.len(),
        quiet < decisions.len() ==> decisions[decisions.len() - quiet - 1],
        forall|i: int| decisions.len() - quiet <= i < decisions.len() ==> !#[trigger] decisions[i],
    ensures
        scene_length(decisions) == sums::saturate(quiet + 1, usize::MAX as int),
        warm_up_raise(scene_length(decisions)) == 4 * sums::maximum(0, 29 - quiet),
        intra_thresh <= i32::MAX ==> warmed_intra_thresh(intra_thresh, scene_length(decisions))
            == sums::saturate(
            intra_thresh + 15 * sums::maximum(0, 9 - quiet) * sums::maximum(0, 9 - quiet),
            i32::MAX as int,
        ),
    decreases quiet,
{
    if quiet > 0 {
        let before = decisions.drop_last();
        assert forall|i: int| before.len() - (quiet - 1) <= i < before.len() implies !(
        #[trigger] before[i]) by {
            assert(!decisions[i]);
        }
        assert(!decisions[decisions.len() - 1]);
        warm_up_fades(before, quiet - 1, intra_thresh);
    }
    let since = scene_length(decisions);
    let missing = sums::maximum(0, 9 - quiet);
    if quiet < 9 {
        assert(15 * (10 - since) * (10 - since) == 15 * missing * missing) by (nonlinear_arith)
            requires
                10 - since == missing,
        ;
    } else {
        assert(15 * missing * missing == 0) by (nonlinear_arith)
            requires
                missing == 0,
        ;
    }
}

/// The motion-based detector.
pub struct XvidDetector {
    config: XvidDetectorConfig,
    intra_count: usize,
    plans: MotionPlanCache,
}

impl XvidDetector {
    pub closed spec fn config(self) -> XvidDetectorConfig {
        self.config
    }

    /// How many frames the current scene has.
    pub closed spec fn intra_count(self) -> int {
        self.intra_count as int
    }

    /// A detector at the start of a scene, on a machine that can run `workers` threads at once.
    pub fn new(config: XvidDetectorConfig, workers: usize) -> (r: XvidDetector)
        ensures
            r.config() == config,
            r.intra_count() == 1,
    {
        XvidDetector { config, intra_count: 1, plans: MotionPlanCache::new(workers) }
    }

    /// Starts a new scene.
    pub fn reset(&mut self)
        ensures
            final(self).config() == old(self).config(),
            final(self).intra_count() == 1,
    {
        self.intra_count = 1;
    }

    /// What is to be added to the configured score threshold for the next decision.
    pub fn threshold_raise(&self) -> (r: u32)
        ensures
            r == warm_up_raise(self.intra_count()),
    {
        if self.intra_count < 30 {
            4 * (30 - self.intra_count) as u32
        } else {
            0
        }
    }

    /// Decides whether a scene starts at `curr`.
    ///
    /// `threshold` is the configured score threshold plus [`XvidDetector::threshold_raise`].
    pub fn decide(
        &mut self,
        prev: &[u8],
        curr: &[u8],
        width: usize,
        height: usize,
        threshold: Double,
    ) -> (r: XvidDecision)
        requires
            meanalysis::analysable(width, height) ==> old(self).config().search_radius > i32::MIN
                && meanalysis::frames_present(prev@, curr@, width, height),
        ensures
            r == decision(
                old(self).config(),
                old(self).intra_count(),
                prev@,
                curr@,
                width,
                height,
                threshold,
            ),
            r.score.finite(),
            r.is_cut <==> 2 * r.intra_blocks > r.total_blocks || threshold.below(r.score),
            final(self).config() == old(self).config(),
            final(self).intra_count() == scene_length_after(old(self).intra_count(), r.is_cut),
    {
        let mut intra_thresh: i32 = self.config.intra_thresh;
        if self.intra_count < 10 {
            let d: i32 = 10 - self.intra_count as i32;
            proof {
                assert(0 <= 15 * d * d <= 1500 && d * d <= 100) by (nonlinear_arith)
                    requires
                        1 <= d <= 10,
                ;
                assert(15 * (d * d) == 15 * d * d) by (nonlinear_arith);
            }
            intra_thresh = match intra_thresh.checked_add(15 * (d * d)) {
                Some(raised) => raised,
                None => i32::MAX,
            };
        }
        let analysis = meanalysis_xvid_like(
            prev,
            curr,
            width,
            height,
            self.config.search_radius,
            intra_thresh,
            &mut self.plans,
        );
        let score = Double::from_u64(analysis.score);
        // More than half of the blocks are new.
        let mut is_cut = analysis.intra_blocks > analysis.total_blocks / 2;
        if score.gt(threshold) {
            is_cut = true;
        }
        self.intra_count = if is_cut {
            1
        } else {
            match self.intra_count.checked_add(1) {
                Some(next) => next,
                None => usize::MAX,
            }
        };
        XvidDecision {
            is_cut,
            score,
            threshold,
            intra_blocks: analysis.intra_blocks,
            total_blocks: analysis.total_blocks,
            mc_sad: analysis.mc_sad,
        }
    }
}

/// Settings of the adaptive detector.
#[derive(Clone, Copy, Debug)]
pub struct DetectorConfig {
    pub window_size: usize,
    pub sigma: Double,
    pub base_threshold: Double,
    pub min_hist_distance: Double,
    pub min_score: Double,
    pub sad_weight: Double,
    pub hist_weight: Double,
}

impl DetectorConfig {
    pub open spec fn defaults() -> DetectorConfig {
        DetectorConfig {
            window_size: cli::DEFAULT_WINDOW_SIZE,
            sigma: Double { bits: cli::DEFAULT_SIGMA },
            base_threshold: Double { bits: cli::DEFAULT_BASE_THRESHOLD },
            min_hist_distance: Double { bits: cli::DEFAULT_MIN_HIST_DISTANCE },
            min_score: Double { bits: cli::DEFAULT_MIN_SCORE },
            sad_weight: Double { bits: cli::DEFAULT_SAD_WEIGHT },
            hist_weight: Double { bits: cli::DEFAULT_HIST_WEIGHT },
        }
    }

    /// What [`DetectorConfig::validate`] looks at, in its order.
    pub open spec fn checks(self) -> Seq<validation::Check> {
        seq![
            validation::positive_check("adaptive_config.window_size"@, self.window_size),
            validation::finite_nonnegative_check("adaptive_config.sigma"@, self.sigma),
            validation::unit_interval_check("adaptive_config.base_threshold"@, self.base_threshold),
            validation::unit_interval_check(
                "adaptive_config.min_hist_distance"@,
                self.min_hist_distance,
            ),
            validation::unit_interval_check("adaptive_config.min_score"@, self.min_score),
            validation::finite_nonnegative_check("adaptive_config.sad_weight"@, self.sad_weight),
            validation::finite_nonnegative_check("adaptive_config.hist_weight"@, self.hist_weight),
            validation::Check {
                valid: !double::sum_is_tiny(self.sad_weight, self.hist_weight),
                name: "adaptive_config.sad_weight + adaptive_config.hist_weight"@,
                complaint: " must be greater than 0"@,
            },
        ]
    }

    pub fn validate(&self) -> (r: SCuiseiResult<()>)
        ensures
            validation::passes(r, self.checks()),
    {
        let ghost checks = self.checks();
        let checked = validate_positive_usize("adaptive_config.window_size", self.window_size);
        assert(checks[0].agrees(checked));
        if checked.is_err() {
            return checked;
        }
        let checked = validate_finite_nonnegative("adaptive_config.sigma", self.sigma);
        assert(checks[1].agrees(checked));
        if checked.is_err() {
            return checked;
        }
        let checked = validate_unit_interval("adaptive_config.base_threshold", self.base_threshold);
        assert(checks[2].agrees(checked));
        if checked.is_err() {
            return checked;
        }
        let checked = validate_unit_interval(
            "adaptive_config.min_hist_distance",
            self.min_hist_distance,
        );
        assert(checks[3].agrees(checked));
        if checked.is_err() {
            return checked;
        }
        let checked = validate_unit_interval("adaptive_config.min_score", self.min_score);
        assert(checks[4].agrees(checked));
        if checked.is_err() {
            return checked;
        }
        let checked = validate_finite_nonnegative("adaptive_config.sad_weight", self.sad_weight);
        assert(checks[5].agrees(checked));
        if checked.is_err() {
            return checked;
        }
        let checked = validate_finite_nonnegative("adaptive_config.hist_weight", self.hist_weight);
        assert(checks[6].agrees(checked));
        if checked.is_err() {
            return checked;
        }
        if sum_at_most_epsilon(self.sad_weight, self.hist_weight) {
            let refused: SCuiseiResult<()> = Err(
                SCuiseiError::Config(
                    joined(
                        "adaptive_config.sad_weight + adaptive_config.hist_weight",
                        " must be greater than 0",
                    ),
                ),
            );
            assert(checks[7].agrees(refused));
            return refused;
        }
        assert(checks[7].valid);
        Ok(())
    }
}

impl Default for DetectorConfig {
    fn default() -> (r: DetectorConfig)
        ensures
            r == DetectorConfig::defaults(),
    {
        DetectorConfig {
            window_size: cli::DEFAULT_WINDOW_SIZE,
            sigma: Double::from_bits(cli::DEFAULT_SIGMA),
            base_threshold: Double::from_bits(cli::DEFAULT_BASE_THRESHOLD),
            min_hist_distance: Double::from_bits(cli::DEFAULT_MIN_HIST_DISTANCE),
            min_score: Double::from_bits(cli::DEFAULT_MIN_SCORE),
            sad_weight: Double::from_bits(cli::DEFAULT_SAD_WEIGHT),
            hist_weight: Double::from_bits(cli::DEFAULT_HIST_WEIGHT),
        }
    }
}

/// How many scores are left out at either end of `len` scores.
pub open spec fn trimmed_at_each_end(len: int) -> int {
    sums::minimum(sums::maximum(len / 10, 1), len / 4)
}

/// `middle` are the scores of the window, in order, without the smallest and the largest.
pub open spec fn middle_of(middle: Seq<Double>, window: Seq<Double>) -> bool {
    let trim = trimmed_at_each_end(window.len() as int);
    exists|ordered: Seq<Double>| #[trigger]
        order::sorted_from(ordered, window) && middle == ordered.subrange(
            trim,
            ordered.len() - trim,
        )
}

/// The larger of two numbers; one that is not a number gives way to the other.
pub open spec fn larger(a: Double, b: Double) -> Double {
    if a.nan() || a.below(b) {
        b
    } else {
        a
    }
}

/// The threshold for the score after a window of scores, where `statistic` belongs to them.
pub open spec fn adaptive_threshold(
    config: DetectorConfig,
    window: Seq<Double>,
    statistic: Double,
) -> Double {
    if window.len() < MIN_SAMPLES_FOR_ADAPTIVE_THRESHOLD {
        config.base_threshold
    } else {
        larger(statistic, config.base_threshold)
    }
}

/// A frame with the given score and histogram distance is a cut.
pub open spec fn adaptive_cut(
    config: DetectorConfig,
    window: Seq<Double>,
    score: Double,
    hist_distance: Double,
    statistic: Double,
) -> bool {
    &&& !score.below(config.min_score)
    &&& !hist_distance.below(config.min_hist_distance)
    &&& adaptive_threshold(config, window, statistic).at_most(score)
}

/// The adaptive detector.
pub struct Detector {
    config: DetectorConfig,
    window: VecDeque<Double>,
}

impl Detector {
    pub closed spec fn config(self) -> DetectorConfig {
        self.config
    }

    /// The scores that the next threshold rests on, oldest first.
    pub closed spec fn window(self) -> Seq<Double> {
        self.window@
    }

    pub fn new(config: DetectorConfig) -> (r: Detector)
        ensures
            r.config() == config,
            r.window() == Seq::<Double>::empty(),
    {
        Detector { config, window: VecDeque::new() }
    }

    /// Forgets all scores.
    pub fn reset(&mut self)
        ensures
            final(self).config() == old(self).config(),
            final(self).window() == Seq::<Double>::empty(),
    {
        self.window.clear();
    }

    /// The scores that the statistic of the window is taken of, if there are enough.
    pub fn middle_scores(&self) -> (r: Option<Vec<Double>>)
        ensures
            r is Some <==> self.window().len() >= MIN_SAMPLES_FOR_ADAPTIVE_THRESHOLD,
            r matches Some(middle) ==> middle_of(middle@, self.window()) && middle@.len() >= 2,
    {
        let len: usize = self.window.len();
        if len < MIN_SAMPLES_FOR_ADAPTIVE_THRESHOLD {
            return None;
        }
        let mut scores: Vec<Double> = Vec::new();
        let mut i: usize = 0;
        while i < len
            invariant
                i <= len,
                len == self.window@.len(),
                scores@ == self.window@.take(i as int),
            decreases len - i,
        {
            scores.push(self.window[i]);
            i = i + 1;
            assert(scores@ =~= self.window@.take(i as int));
        }
        assert(scores@ =~= self.window@);
        let ordered = order::sort(scores.as_slice());
        let tenth: usize = len / 10;
        let quarter: usize = len / 4;
        let at_least: usize = if tenth < 1 {
            1
        } else {
            tenth
        };
        let trim: usize = if at_least < quarter {
            at_least
        } else {
            quarter
        };
        let mut middle: Vec<Double> = Vec::new();
        let mut k: usize = trim;
        while k < len - trim
            invariant
                trim <= k <= len - trim,
                len == ordered@.len(),
                2 * trim <= len,
                middle@ == ordered@.subrange(trim as int, k as int),
            decreases len - trim - k,
        {
            middle.push(ordered[k]);
            k = k + 1;
            assert(middle@ =~= ordered@.subrange(trim as int, k as int));
        }
        assert(order::sorted_from(ordered@, self.window()));
        Some(middle)
    }

    /// The threshold for the next score.
    ///
    /// `statistic` is the mean of [`Detector::middle_scores`] plus their standard deviation times
    /// the configured factor; it is not used where there are too few scores.
    pub fn threshold(&self, statistic: Double) -> (r: Double)
        ensures
            r == adaptive_threshold(self.config(), self.window(), statistic),
    {
        if self.window.len() < MIN_SAMPLES_FOR_ADAPTIVE_THRESHOLD {
            return self.config.base_threshold;
        }
        if statistic.is_nan() || statistic.lt(self.config.base_threshold) {
            self.config.base_threshold
        } else {
            statistic
        }
    }

    /// Whether a frame with the given score is a cut, and the threshold that was used.
    pub fn decide_with_threshold(
        &self,
        score: Double,
        hist_distance: Double,
        statistic: Double,
    ) -> (r: (bool, Double))
        ensures
            r.0 == adaptive_cut(self.config(), self.window(), score, hist_distance, statistic),
            r.1 == adaptive_threshold(self.config(), self.window(), statistic),
            r.0 <==> !score.below(self.config().min_score) && !hist_distance.below(
                self.config().min_hist_distance,
            ) && r.1.at_most(score),
    {
        let threshold = self.threshold(statistic);
        if score.lt(self.config.min_score) {
            return (false, threshold);
        }
        if hist_distance.lt(self.config.min_hist_distance) {
            return (false, threshold);
        }
        (score.ge(threshold), threshold)
    }

    /// Takes note of a score; the oldest is forgotten when the window is full.
    pub fn observe(&mut self, score: Double)
        ensures
            final(self).config() == old(self).config(),
            final(self).window() == observed(
                old(self).window(),
                old(self).config().window_size as int,
                score,
            ),
    {
        if self.config.window_size == 0 {
            return;
        }
        if self.window.len() == self.config.window_size {
            let forgotten = self.window.pop_front();
            assert(self.window@ =~= old(self).window@.drop_first());
        }
        self.window.push_back(score);
    }
}

/// The window after one more score.
pub open spec fn observed(window: Seq<Double>, size: int, score: Double) -> Seq<Double> {
    if size == 0 {
        window
    } else if window.len() == size {
        window.drop_first().push(score)
    } else {
        window.push(score)
    }
}

/// The window after a run of scores, from a fresh start.
pub open spec fn window_after(scores: Seq<Double>, size: int) -> Seq<Double>
    decreases scores.len(),
{
    if scores.len() == 0 {
        Seq::empty()
    } else {
        observed(window_after(scores.drop_last(), size), size, scores.last())
    }
}

/// The window holds the last scores, as many as it has room for.
pub proof fn window_holds_the_last_scores(scores: Seq<Double>, size: int)
    requires
        0 <= size,
    ensures
        window_after(scores, size) == scores.skip(
            scores.len() - sums::minimum(scores.len() as int, size),
        ),
    decreases scores.len(),
{
    if scores.len() == 0 {
        assert(window_after(scores, size) =~= scores.skip(0));
    } else {
        let before = scores.drop_last();
        window_holds_the_last_scores(before, size);
        assert(window_after(scores, size) =~= scores.skip(
            scores.len() - sums::minimum(scores.len() as int, size),
        ));
    }
}

/// The threshold rests on the last scores, as many as the window has room for. It is the base
/// threshold where there are fewer than five of them, and else the larger of the base threshold
/// and the statistic of those that are left without the smallest and the largest tenth (at least
/// one at either end). It is never below the base threshold.
pub proof fn threshold_rests_on_the_last_scores(
    config: DetectorConfig,
    scores: Seq<Double>,
    middle: Seq<Double>,
    statistic: Double,
)
    requires
        config.window_size >= 1,
    ensures
        ({
            let size = config.window_size as int;
            let window = window_after(scores, size);
            let trim = sums::maximum(window.len() as int / 10, 1);
            let threshold = adaptive_threshold(config, window, statistic);
            &&& window == scores.skip(scores.len() - sums::minimum(scores.len() as int, size))
            &&& window.len() < 5 ==> threshold == config.base_threshold
            &&& window.len() >= 5 ==> threshold == larger(statistic, config.base_threshold)
            &&& window.len() >= 5 && middle_of(middle, window) ==> {
                &&& middle.len() == window.len() - 2 * trim
                &&& middle.len() >= 2
                &&& order::in_order(middle)
                &&& exists|smallest: Seq<Double>, largest: Seq<Double>|
                    smallest.len() == trim && largest.len() == trim && #[trigger]
                    order::sorted_from(smallest + middle + largest, window)
            }
            &&& !config.base_threshold.nan() ==> config.base_threshold.at_most(threshold)
        }),
{
    let size = config.window_size as int;
    let window = window_after(scores, size);
    let len = window.len() as int;
    let trim = sums::maximum(len / 10, 1);
    window_holds_the_last_scores(scores, size);
    if len >= 5 && middle_of(middle, window) {
        assert(trimmed_at_each_end(len) == trim);
        let ordered = choose|ordered: Seq<Double>| #[trigger]
            order::sorted_from(ordered, window) && middle == ordered.subrange(
                trim,
                ordered.len() - trim,
            );
        ordered.to_multiset_ensures();
        window.to_multiset_ensures();
        let smallest = ordered.take(trim);
        let largest = ordered.skip(len - trim);
        assert(smallest + middle + largest =~= ordered);
        assert(order::sorted_from(smallest + middle + largest, window));
        assert forall|i: int, j: int|
            #![trigger middle[i], middle[j]]
            0 <= i <= j < middle.len() implies middle[i].total_rank()
            <= middle[j].total_rank() by {
            assert(ordered[i + trim].total_rank() <= ordered[j + trim].total_rank());
        }
    }
}

/// There is one middle to a window, whatever way it is put in order.
pub proof fn middle_is_determined(one: Seq<Double>, other: Seq<Double>, window: Seq<Double>)
    requires
        middle_of(one, window),
        middle_of(other, window),
    ensures
        one == other,
{
    let trim = trimmed_at_each_end(window.len() as int);
    let a = choose|ordered: Seq<Double>| #[trigger]
        order::sorted_from(ordered, window) && one == ordered.subrange(trim, ordered.len() - trim);
    let b = choose|ordered: Seq<Double>| #[trigger]
        order::sorted_from(ordered, window) && other == ordered.subrange(
            trim,
            ordered.len() - trim,
        );
    lemma_one_order(a, b);
}

/// Two lists of the same numbers in the total order are the same.
proof fn lemma_one_order(a: Seq<Double>, b: Seq<Double>)
    requires
        order::in_order(a),
        order::in_order(b),
        a.to_multiset() == b.to_multiset(),
    ensures
        a == b,
    decreases a.len(),
{
    broadcast use vstd::multiset::group_multiset_axioms;

    a.to_multiset_ensures();
    b.to_multiset_ensures();
    if a.len() == 0 {
        assert(a =~= b);
    } else {
        let x = a.last();
        let y = b.last();
        assert(a[a.len() - 1] == x && b[b.len() - 1] == y);
        assert(b.to_multiset().count(x) > 0) by {
            assert(a.contains(x));
        }
        assert(a.to_multiset().count(y) > 0) by {
            assert(b.contains(y));
        }
        let i = choose|i: int| 0 <= i < b.len() && b[i] == x;
        let j = choose|j: int| 0 <= j < a.len() && a[j] == y;
        assert(b[i].total_rank() <= b[b.len() - 1].total_rank());
        assert(a[j].total_rank() <= a[a.len() - 1].total_rank());
        double::total_order_refines_comparison(x, y);
        let shorter_a = a.drop_last();
        let shorter_b = b.drop_last();
        assert(a =~= shorter_a.push(x));
        assert(b =~= shorter_b.push(x));
        vstd::seq_lib::to_multiset_build(shorter_a, x);
        vstd::seq_lib::to_multiset_build(shorter_b, x);
        let rest_a = shorter_a.to_multiset();
        let rest_b = shorter_b.to_multiset();
        assert(rest_a.insert(x) == rest_b.insert(x));
        assert forall|v: Double| #[trigger] rest_a.count(v) == rest_b.count(v) by {
            let with_a = rest_a.insert(x).count(v);
            let with_b = rest_b.insert(x).count(v);
        }
        assert(rest_a =~= rest_b);
        assert forall|p: int, q: int|
            #![trigger shorter_a[p], shorter_a[q]]
            0 <= p <= q < shorter_a.len() implies shorter_a[p].total_rank()
            <= shorter_a[q].total_rank() by {
            assert(a[p].total_rank() <= a[q].total_rank());
        }
        assert forall|p: int, q: int|
            #![trigger shorter_b[p], shorter_b[q]]
            0 <= p <= q < shorter_b.len() implies shorter_b[p].total_rank()
            <= shorter_b[q].total_rank() by {
            assert(b[p].total_rank() <= b[q].total_rank());
        }
        lemma_one_order(shorter_a, shorter_b);
    }
}

/// The default settings pass their own checks.
pub proof fn defaults_are_valid()
    ensures
        validation::passes(Ok(()), XvidDetectorConfig::defaults().checks()),
        validation::passes(Ok(()), DetectorConfig::defaults().checks()),
{
    let sad_weight = DetectorConfig::defaults().sad_weight;
    let hist_weight = DetectorConfig::defaults().hist_weight;
    double::numbers_from_a_half_are_not_tiny(sad_weight, hist_weight);
}

/// A motion-based decision is a cut where more than half of the blocks are intra, or where the
/// score exceeds the threshold, and nowhere else.
pub proof fn motion_cuts_take_a_majority_or_a_high_score(
    config: XvidDetectorConfig,
    since: int,
    prev: Seq<u8>,
    curr: Seq<u8>,
    width: usize,
    height: usize,
    threshold: Double,
)
    ensures
        ({
            let made = decision(config, since, prev, curr, width, height, threshold);
            &&& 2 * made.intra_blocks > made.total_blocks ==> made.is_cut
            &&& threshold.below(made.score) ==> made.is_cut
            &&& 2 * made.intra_blocks <= made.total_blocks && !threshold.below(made.score)
                ==> !made.is_cut
            &&& made.threshold == threshold
        }),
{
}

/// A decision reports what the motion analysis of the two frames finds with the configured radius
/// and with the block threshold of this place in the scene: 15 times the square of the frames
/// that are missing to ten is added to the configured one.
pub proof fn decisions_report_the_motion_analysis(
    config: XvidDetectorConfig,
    since: int,
    prev: Seq<u8>,
    curr: Seq<u8>,
    width: usize,
    height: usize,
    threshold: Double,
    raised: i32,
)
    requires
        raised == if since >= 10 {
            config.intra_thresh as int
        } else if config.intra_thresh + 15 * ((10 - since) * (10 - since)) <= i32::MAX {
            config.intra_thresh + 15 * ((10 - since) * (10 - since))
        } else {
            i32::MAX as int
        },
    ensures
        ({
            let made = decision(config, since, prev, curr, width, height, threshold);
            let found = meanalysis::analysis(
                prev,
                curr,
                width,
                height,
                config.search_radius,
                raised,
            );
            &&& made.intra_blocks == found.intra_blocks
            &&& made.total_blocks == found.total_blocks
            &&& made.mc_sad == found.mc_sad
            &&& made.score == double::integer(found.score as int)
        }),
{
    if since < 10 {
        let missing = 10 - since;
        assert(15 * (missing * missing) == 15 * missing * missing) by (nonlinear_arith);
    }
}

/// A frame is an adaptive cut only where its score is at least what was learned from the window,
/// at least the configured score, and its histogram distance at least the configured one. With
/// five or more scores in the window and a statistic above the score there is no cut, and below
/// five scores the base threshold alone decides.
pub proof fn adaptive_cuts_reach_what_was_learned(
    config: DetectorConfig,
    window: Seq<Double>,
    score: Double,
    hist_distance: Double,
    statistic: Double,
)
    ensures
        ({
            let cut = adaptive_cut(config, window, score, hist_distance, statistic);
            let allowed = !score.below(config.min_score) && !hist_distance.below(
                config.min_hist_distance,
            );
            &&& cut ==> allowed
            &&& cut ==> adaptive_threshold(config, window, statistic).at_most(score)
            &&& window.len() >= 5 && score.below(statistic) ==> !cut
            &&& window.len() >= 5 && !config.base_threshold.nan() && score.below(
                config.base_threshold,
            ) ==> !cut
            &&& window.len() < 5 ==> (cut <==> allowed && config.base_threshold.at_most(score))
            &&& window.len() >= 5 && !statistic.nan() && !config.base_threshold.nan() ==> (cut
                <==> allowed && config.base_threshold.at_most(score) && statistic.at_most(score))
        }),
{
}

/// A higher score or a larger histogram distance does not undo an adaptive cut, and a higher
/// statistic does not bring one about.
pub proof fn adaptive_cuts_are_monotone(
    config: DetectorConfig,
    window: Seq<Double>,
    score: Double,
    higher_score: Double,
    hist_distance: Double,
    larger_distance: Double,
    statistic: Double,
    lower_statistic: Double,
)
    requires
        score.at_most(higher_score),
        hist_distance.at_most(larger_distance),
        lower_statistic.at_most(statistic),
        adaptive_cut(config, window, score, hist_distance, statistic),
    ensures
        adaptive_cut(config, window, higher_score, larger_distance, lower_statistic),
{
}

/// A scene is one frame longer after a decision without a cut, and starts anew with a cut.
pub proof fn scenes_grow_until_a_cut(decisions: Seq<bool>, is_cut: bool)
    requires
        decisions.len() < usize::MAX - 1,
    ensures
        ({
            let before = scene_length(decisions);
            let after = scene_length(decisions.push(is_cut));
            &&& 1 <= before <= decisions.len() + 1
            &&& after == if is_cut {
                1
            } else {
                before + 1
            }
        }),
{
    lemma_scene_length_bounds(decisions);
    assert(decisions.push(is_cut).drop_last() =~= decisions);
}

proof fn lemma_scene_length_bounds(decisions: Seq<bool>)
    ensures
        1 <= scene_length(decisions) <= decisions.len() + 1,
    decreases decisions.len(),
{
    if decisions.len() > 0 {
        lemma_scene_length_bounds(decisions.drop_last());
    }
}

/// The settings of the motion-based detector pass where none of the numbers is negative and the
/// score threshold is finite, and only there.
pub proof fn motion_settings_in_range_pass(config: XvidDetectorConfig)
    ensures
        validation::passes(Ok(()), config.checks()) <==> {
            &&& config.search_radius >= 0
            &&& config.intra_thresh >= 0
            &&& config.intra_thresh2.finite()
            &&& !config.intra_thresh2.below(Double { bits: 0 })
        },
{
    let checks = config.checks();
    assert(checks[0].valid == (config.search_radius >= 0));
    assert(checks[1].valid == (config.intra_thresh >= 0));
    assert(checks[2].valid == config.intra_thresh2.finite_nonnegative());
}

/// The settings of the adaptive detector pass where there is a window, the thresholds lie between
/// 0 and 1, the factor and the weights are finite and not negative, and the weights do not vanish
/// together, and only there.
pub proof fn adaptive_settings_in_range_pass(config: DetectorConfig)
    ensures
        validation::passes(Ok(()), config.checks()) <==> {
            let zero = Double { bits: 0 };
            let one = Double { bits: double::ONE_BITS };
            &&& config.window_size >= 1
            &&& config.sigma.finite() && zero.at_most(config.sigma)
            &&& zero.at_most(config.base_threshold) && config.base_threshold.at_most(one)
            &&& zero.at_most(config.min_hist_distance) && config.min_hist_distance.at_most(one)
            &&& zero.at_most(config.min_score) && config.min_score.at_most(one)
            &&& config.sad_weight.finite() && zero.at_most(config.sad_weight)
            &&& config.hist_weight.finite() && zero.at_most(config.hist_weight)
            &&& !double::sum_is_tiny(config.sad_weight, config.hist_weight)
        },
{
    let checks = config.checks();
    assert(checks.len() == 8);
    assert(checks[0].valid == (config.window_size >= 1));
    assert(checks[1].valid == config.sigma.finite_nonnegative());
    assert(checks[2].valid == config.base_threshold.in_unit_interval());
    assert(checks[3].valid == config.min_hist_distance.in_unit_interval());
    assert(checks[4].valid == config.min_score.in_unit_interval());
    assert(checks[5].valid == config.sad_weight.finite_nonnegative());
    assert(checks[6].valid == config.hist_weight.finite_nonnegative());
    assert(checks[7].valid == !double::sum_is_tiny(config.sad_weight, config.hist_weight));
}

/// A frame that repeats the one before it is a motion-based cut only where its score exceeds the
/// threshold.
pub proof fn repeated_frames_are_no_cuts_of_blocks(
    config: XvidDetectorConfig,
    since: int,
    frame: Seq<u8>,
    width: usize,
    height: usize,
    threshold: Double,
)
    requires
        config.search_radius >= 0,
        meanalysis::frames_present(frame, frame, width, height),
        frame.len() <= usize::MAX,
        width <= i32::MAX,
        height <= i32::MAX,
    ensures
        ({
            let made = decision(config, since, frame, frame, width, height, threshold);
            made.intra_blocks == 0 && (made.is_cut <==> threshold.below(made.score))
        }),
{
    meanalysis::repeated_frames_have_no_intra_blocks(
        frame,
        width,
        height,
        config.search_radius,
        warmed_intra_thresh(config.intra_thresh as int, since) as i32,
    );
}

} // verus!
