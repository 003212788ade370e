//! Keyframes from the per-frame statistics of a whole run.

use crate::double::Double;
use crate::error::SCuiseiResult;
use crate::order;
use crate::order::Ranked;
use crate::sums;
use crate::validation;
use crate::validation::{
    validate_finite_nonnegative, validate_positive_usize, validate_unit_interval,
};
use vstd::prelude::*;
use vstd::std_specs::cmp::PartialEqSpec;

verus! {

/// Thresholds for the choice of keyframes.
#[derive(Clone, Copy, Debug)]
pub struct PostprocessConfig {
    pub hist_blend_threshold: Double,
    pub structure_hist_max: Double,
    pub structure_grid_hist_min: Double,
    pub frames_score_min: Double,
    pub candidate_peak_radius: usize,
    pub cluster_gap_frames: usize,
    pub min_postprocess_frames: usize,
    pub dense_recovery_min_gap_frames: usize,
    pub dense_recovery_min_candidates: usize,
    pub dense_recovery_margin_frames: usize,
    pub dense_recovery_blend_min: Double,
    pub dense_recovery_score_min: Double,
    pub dense_recovery_target_span_frames: usize,
    pub temporal_burst_window_frames: usize,
    pub temporal_burst_activity_blend_min: Double,
    pub temporal_burst_min_count: usize,
    pub temporal_burst_raw_hist_max: Double,
    pub temporal_burst_raw_score_max: Double,
    pub temporal_burst_nonraw_score_max: Double,
    pub temporal_burst_nonraw_blend_max: Double,
    pub temporal_burst_dense_min_count: usize,
    pub temporal_burst_dense_nonraw_score_max: Double,
    pub temporal_burst_cut_fallback_hist_max: Double,
    pub temporal_burst_cut_fallback_score_min: Double,
    pub grid_hist_median_weight: Double,
}

impl PostprocessConfig {
    /// The thresholds in use where none are given.
    pub open spec fn defaults() -> PostprocessConfig {
        PostprocessConfig {
            hist_blend_threshold: Double { bits: 0x3fb9_9999_9999_999a },
            structure_hist_max: Double { bits: 0x3fa9_9999_9999_999a },
            structure_grid_hist_min: Double { bits: 0x3fcc_28f5_c28f_5c29 },
            frames_score_min: Double { bits: 0x4051_8000_0000_0000 },
            candidate_peak_radius: 1,
            cluster_gap_frames: 12,
            min_postprocess_frames: 24,
            dense_recovery_min_gap_frames: 24,
            dense_recovery_min_candidates: 4,
            dense_recovery_margin_frames: 12,
            dense_recovery_blend_min: Double { bits: 0x3fc7_0a3d_70a3_d70a },
            dense_recovery_score_min: Double { bits: 0x4054_0000_0000_0000 },
            dense_recovery_target_span_frames: 26,
            temporal_burst_window_frames: 12,
            temporal_burst_activity_blend_min: Double { bits: 0x3fb4_7ae1_47ae_147b },
            temporal_burst_min_count: 6,
            temporal_burst_raw_hist_max: Double { bits: 0x3fd3_3333_3333_3333 },
            temporal_burst_raw_score_max: Double { bits: 0x405e_0000_0000_0000 },
            temporal_burst_nonraw_score_max: Double { bits: 0x4056_8000_0000_0000 },
            temporal_burst_nonraw_blend_max: Double { bits: 0x3fc9_9999_9999_999a },
            temporal_burst_dense_min_count: 20,
            temporal_burst_dense_nonraw_score_max: Double { bits: 0x4056_8000_0000_0000 },
            temporal_burst_cut_fallback_hist_max: Double { bits: 0x3fc9_9999_9999_999a },
            temporal_burst_cut_fallback_score_min: Double { bits: 0x405e_0000_0000_0000 },
            grid_hist_median_weight: Double { bits: 0x3fb9_9999_9999_999a },
        }
    }

    /// What [`PostprocessConfig::validate`] looks at, in its order.
    pub open spec fn checks(self) -> Seq<validation::Check> {
        seq![
            validation::unit_interval_check(
                "postprocess_config.hist_blend_threshold"@,
                self.hist_blend_threshold,
            ),
            validation::unit_interval_check(
                "postprocess_config.structure_hist_max"@,
                self.structure_hist_max,
            ),
            validation::unit_interval_check(
                "postprocess_config.structure_grid_hist_min"@,
                self.structure_grid_hist_min,
            ),
            validation::finite_nonnegative_check(
                "postprocess_config.frames_score_min"@,
                self.frames_score_min,
            ),
            validation::finite_nonnegative_check(
                "postprocess_config.dense_recovery_blend_min"@,
                self.dense_recovery_blend_min,
            ),
            validation::finite_nonnegative_check(
                "postprocess_config.dense_recovery_score_min"@,
                self.dense_recovery_score_min,
            ),
            validation::positive_check(
                "postprocess_config.dense_recovery_target_span_frames"@,
                self.dense_recovery_target_span_frames,
            ),
            validation::unit_interval_check(
                "postprocess_config.temporal_burst_activity_blend_min"@,
                self.temporal_burst_activity_blend_min,
            ),
            validation::unit_interval_check(
                "postprocess_config.temporal_burst_raw_hist_max"@,
                self.temporal_burst_raw_hist_max,
            ),
            validation::finite_nonnegative_check(
                "postprocess_config.temporal_burst_raw_score_max"@,
                self.temporal_burst_raw_score_max,
            ),
            validation::finite_nonnegative_check(
                "postprocess_config.temporal_burst_nonraw_score_max"@,
                self.temporal_burst_nonraw_score_max,
            ),
            validation::unit_interval_check(
                "postprocess_config.temporal_burst_nonraw_blend_max"@,
                self.temporal_burst_nonraw_blend_max,
            ),
            validation::finite_nonnegative_check(
                "postprocess_config.temporal_burst_dense_nonraw_score_max"@,
                self.temporal_burst_dense_nonraw_score_max,
            ),
            validation::unit_interval_check(
                "postprocess_config.temporal_burst_cut_fallback_hist_max"@,
                self.temporal_burst_cut_fallback_hist_max,
            ),
            validation::finite_nonnegative_check(
                "postprocess_config.temporal_burst_cut_fallback_score_min"@,
                self.temporal_burst_cut_fallback_score_min,
            ),
            validation::finite_nonnegative_check(
                "postprocess_config.grid_hist_median_weight"@,
                self.grid_hist_median_weight,
            ),
        ]
    }

    pub fn validate(&self) -> (r: SCuiseiResult<()>)
        ensures
            validation::passes(r, self.checks()),
    {
        let ghost checks = self.checks();
        let checked = validate_unit_interval(
            "postprocess_config.hist_blend_threshold",
            self.hist_blend_threshold,
        );
        assert(checks[0].agrees(checked));
        if checked.is_err() {
            return checked;
        }
        let checked = validate_unit_interval(
            "postprocess_config.structure_hist_max",
            self.structure_hist_max,
        );
        assert(checks[1].agrees(checked));
        if checked.is_err() {
            return checked;
        }
        let checked = validate_unit_interval(
            "postprocess_config.structure_grid_hist_min",
            self.structure_grid_hist_min,
        );
        assert(checks[2].agrees(checked));
        if checked.is_err() {
            return checked;
        }
        let checked = validate_finite_nonnegative(
            "postprocess_config.frames_score_min",
            self.frames_score_min,
        );
        assert(checks[3].agrees(checked));
        if checked.is_err() {
            return checked;
        }
        let checked = validate_finite_nonnegative(
            "postprocess_config.dense_recovery_blend_min",
            self.dense_recovery_blend_min,
        );
        assert(checks[4].agrees(checked));
        if checked.is_err() {
            return checked;
        }
        let checked = validate_finite_nonnegative(
            "postprocess_config.dense_recovery_score_min",
            self.dense_recovery_score_min,
        );
        assert(checks[5].agrees(checked));
        if checked.is_err() {
            return checked;
        }
        let checked = validate_positive_usize(
            "postprocess_config.dense_recovery_target_span_frames",
            self.dense_recovery_target_span_frames,
        );
        assert(checks[6].agrees(checked));
        if checked.is_err() {
            return checked;
        }
        let checked = validate_unit_interval(
            "postprocess_config.temporal_burst_activity_blend_min",
            self.temporal_burst_activity_blend_min,
        );
        assert(checks[7].agrees(checked));
        if checked.is_err() {
            return checked;
        }
        let checked = validate_unit_interval(
            "postprocess_config.temporal_burst_raw_hist_max",
            self.temporal_burst_raw_hist_max,
        );
        assert(checks[8].agrees(checked));
        if checked.is_err() {
            return checked;
        }
        let checked = validate_finite_nonnegative(
            "postprocess_config.temporal_burst_raw_score_max",
            self.temporal_burst_raw_score_max,
        );
        assert(checks[9].agrees(checked));
        if checked.is_err() {
            return checked;
        }
        let checked = validate_finite_nonnegative(
            "postprocess_config.temporal_burst_nonraw_score_max",
            self.temporal_burst_nonraw_score_max,
        );
        assert(checks[10].agrees(checked));
        if checked.is_err() {
            return checked;
        }
        let checked = validate_unit_interval(
            "postprocess_config.temporal_burst_nonraw_blend_max",
            self.temporal_burst_nonraw_blend_max,
        );
        assert(checks[11].agrees(checked));
        if checked.is_err() {
            return checked;
        }
        let checked = validate_finite_nonnegative(
            "postprocess_config.temporal_burst_dense_nonraw_score_max",
            self.temporal_burst_dense_nonraw_score_max,
        );
        assert(checks[12].agrees(checked));
        if checked.is_err() {
            return checked;
        }
        let checked = validate_unit_interval(
            "postprocess_config.temporal_burst_cut_fallback_hist_max",
            self.temporal_burst_cut_fallback_hist_max,
        );
        assert(checks[13].agrees(checked));
        if checked.is_err() {
            return checked;
        }
        let checked = validate_finite_nonnegative(
            "postprocess_config.temporal_burst_cut_fallback_score_min",
            self.temporal_burst_cut_fallback_score_min,
        );
        assert(checks[14].agrees(checked));
        if checked.is_err() {
            return checked;
        }
        let checked = validate_finite_nonnegative(
            "postprocess_config.grid_hist_median_weight",
            self.grid_hist_median_weight,
        );
        assert(checks[15].agrees(checked));
        if checked.is_err() {
            return checked;
        }
        Ok(())
    }
}

impl PartialEq for PostprocessConfig {
    fn eq(&self, other: &PostprocessConfig) -> (r: bool) {
        self.hist_blend_threshold == other.hist_blend_threshold
            && self.structure_hist_max == other.structure_hist_max
            && self.structure_grid_hist_min == other.structure_grid_hist_min
            && self.frames_score_min == other.frames_score_min
            && self.candidate_peak_radius == other.candidate_peak_radius
            && self.cluster_gap_frames == other.cluster_gap_frames
            && self.min_postprocess_frames == other.min_postprocess_frames
            && self.dense_recovery_min_gap_frames == other.dense_recovery_min_gap_frames
            && self.dense_recovery_min_candidates == other.dense_recovery_min_candidates
            && self.dense_recovery_margin_frames == other.dense_recovery_margin_frames
            && self.dense_recovery_blend_min == other.dense_recovery_blend_min
            && self.dense_recovery_score_min == other.dense_recovery_score_min
            && self.dense_recovery_target_span_frames == other.dense_recovery_target_span_frames
            && self.temporal_burst_window_frames == other.temporal_burst_window_frames
            && self.temporal_burst_activity_blend_min == other.temporal_burst_activity_blend_min
            && self.temporal_burst_min_count == other.temporal_burst_min_count
            && self.temporal_burst_raw_hist_max == other.temporal_burst_raw_hist_max
            && self.temporal_burst_raw_score_max == other.temporal_burst_raw_score_max
            && self.temporal_burst_nonraw_score_max == other.temporal_burst_nonraw_score_max
            && self.temporal_burst_nonraw_blend_max == other.temporal_burst_nonraw_blend_max
            && self.temporal_burst_dense_min_count == other.temporal_burst_dense_min_count
            && self.temporal_burst_dense_nonraw_score_max == other.temporal_burst_dense_nonraw_score_max
            && self.temporal_burst_cut_fallback_hist_max == other.temporal_burst_cut_fallback_hist_max
            && self.temporal_burst_cut_fallback_score_min == other.temporal_burst_cut_fallback_score_min
            && self.grid_hist_median_weight == other.grid_hist_median_weight
    }
}

impl vstd::std_specs::cmp::PartialEqSpecImpl for PostprocessConfig {
    open spec fn obeys_eq_spec() -> bool {
        true
    }

    open spec fn eq_spec(&self, other: &PostprocessConfig) -> bool {
        &&& self.hist_blend_threshold.same_number(other.hist_blend_threshold)
        &&& self.structure_hist_max.same_number(other.structure_hist_max)
        &&& self.structure_grid_hist_min.same_number(other.structure_grid_hist_min)
        &&& self.frames_score_min.same_number(other.frames_score_min)
        &&& self.candidate_peak_radius == other.candidate_peak_radius
        &&& self.cluster_gap_frames == other.cluster_gap_frames
        &&& self.min_postprocess_frames == other.min_postprocess_frames
        &&& self.dense_recovery_min_gap_frames == other.dense_recovery_min_gap_frames
        &&& self.dense_recovery_min_candidates == other.dense_recovery_min_candidates
        &&& self.dense_recovery_margin_frames == other.dense_recovery_margin_frames
        &&& self.dense_recovery_blend_min.same_number(other.dense_recovery_blend_min)
        &&& self.dense_recovery_score_min.same_number(other.dense_recovery_score_min)
        &&& self.dense_recovery_target_span_frames == other.dense_recovery_target_span_frames
        &&& self.temporal_burst_window_frames == other.temporal_burst_window_frames
        &&& self.temporal_burst_activity_blend_min.same_number(other.temporal_burst_activity_blend_min)
        &&& self.temporal_burst_min_count == other.temporal_burst_min_count
        &&& self.temporal_burst_raw_hist_max.same_number(other.temporal_burst_raw_hist_max)
        &&& self.temporal_burst_raw_score_max.same_number(other.temporal_burst_raw_score_max)
        &&& self.temporal_burst_nonraw_score_max.same_number(other.temporal_burst_nonraw_score_max)
        &&& self.temporal_burst_nonraw_blend_max.same_number(other.temporal_burst_nonraw_blend_max)
        &&& self.temporal_burst_dense_min_count == other.temporal_burst_dense_min_count
        &&& self.temporal_burst_dense_nonraw_score_max.same_number(other.temporal_burst_dense_nonraw_score_max)
        &&& self.temporal_burst_cut_fallback_hist_max.same_number(other.temporal_burst_cut_fallback_hist_max)
        &&& self.temporal_burst_cut_fallback_score_min.same_number(other.temporal_burst_cut_fallback_score_min)
        &&& self.grid_hist_median_weight.same_number(other.grid_hist_median_weight)
    }
}

impl Default for PostprocessConfig {
    fn default() -> (r: PostprocessConfig)
        ensures
            r == PostprocessConfig::defaults(),
    {
        PostprocessConfig {
            hist_blend_threshold: Double::from_bits(0x3fb9_9999_9999_999a),  // 0.1
            structure_hist_max: Double::from_bits(0x3fa9_9999_9999_999a),  // 0.05
            structure_grid_hist_min: Double::from_bits(0x3fcc_28f5_c28f_5c29),  // 0.22
            frames_score_min: Double::from_bits(0x4051_8000_0000_0000),  // 70.0
            candidate_peak_radius: 1,
            cluster_gap_frames: 12,
            min_postprocess_frames: 24,
            dense_recovery_min_gap_frames: 24,
            dense_recovery_min_candidates: 4,
            dense_recovery_margin_frames: 12,
            dense_recovery_blend_min: Double::from_bits(0x3fc7_0a3d_70a3_d70a),  // 0.18
            dense_recovery_score_min: Double::from_bits(0x4054_0000_0000_0000),  // 80.0
            dense_recovery_target_span_frames: 26,
            temporal_burst_window_frames: 12,
            temporal_burst_activity_blend_min: Double::from_bits(0x3fb4_7ae1_47ae_147b),  // 0.08
            temporal_burst_min_count: 6,
            temporal_burst_raw_hist_max: Double::from_bits(0x3fd3_3333_3333_3333),  // 0.3
            temporal_burst_raw_score_max: Double::from_bits(0x405e_0000_0000_0000),  // 120.0
            temporal_burst_nonraw_score_max: Double::from_bits(0x4056_8000_0000_0000),  // 90.0
            temporal_burst_nonraw_blend_max: Double::from_bits(0x3fc9_9999_9999_999a),  // 0.2
            temporal_burst_dense_min_count: 20,
            temporal_burst_dense_nonraw_score_max: Double::from_bits(0x4056_8000_0000_0000),  // 90.0
            temporal_burst_cut_fallback_hist_max: Double::from_bits(0x3fc9_9999_9999_999a),  // 0.2
            temporal_burst_cut_fallback_score_min: Double::from_bits(0x405e_0000_0000_0000),  // 120.0
            grid_hist_median_weight: Double::from_bits(0x3fb9_9999_9999_999a),  // 0.1
        }
    }
}

/// The default thresholds pass their own checks.
pub proof fn defaults_are_valid()
    ensures
        validation::passes(Ok(()), PostprocessConfig::defaults().checks()),
{
}

/// What was measured on one frame.
#[derive(Clone, Copy, Debug)]
pub struct FrameCutStats {
    pub frame_index: usize,
    pub is_cut: bool,
    pub score: Double,
    pub hist_distance: Double,
    pub grid_hist_distance: Double,
    pub grid_hist_median: Double,
}

/// A frame that may become a keyframe, by its place among the statistics.
#[derive(Clone, Copy, Debug)]
pub struct CandidateMeta {
    pub index: usize,
    pub is_cut_fallback: bool,
}

/// What the choice of keyframes rests on.
pub struct Evidence {
    pub stats: Seq<FrameCutStats>,
    /// For each frame, its histogram distance blended with its median cell distance.
    pub blended: Seq<Double>,
    pub config: PostprocessConfig,
}

/// `a - b`, or 0 below.
pub open spec fn excess(a: int, b: int) -> int {
    sums::maximum(a - b, 0)
}

/// The value at `index` is larger than all others within `radius`.
pub open spec fn local_peak(values: Seq<Double>, index: int, radius: int) -> bool {
    &&& 0 <= index < values.len()
    &&& forall|i: int|
        0 <= i < values.len() && i != index && index - radius <= i <= index + radius
            ==> !values[index].at_most(#[trigger] values[i])
}

fn is_local_peak(values: &[Double], index: usize, radius: usize) -> (r: bool)
    ensures
        r == local_peak(values@, index as int, radius as int),
{
    let len: usize = values.len();
    if index >= len {
        return false;
    }
    let value = values[index];
    let start: usize = index.saturating_sub(radius);
    let end: usize = if radius < len - index {
        index + radius
    } else {
        len - 1
    };
    let mut i: usize = start;
    while i <= end
        invariant
            start <= i <= end + 1,
            index < len,
            end < len,
            len == values@.len(),
            value == values@[index as int],
            start == excess(index as int, radius as int),
            end == sums::minimum(index + radius, len - 1),
            forall|k: int|
                start <= k < i && k != index ==> !value.at_most(#[trigger] values@[k]),
        decreases end + 1 - i,
    {
        if i != index && values[i].ge(value) {
            return false;
        }
        i = i + 1;
    }
    true
}

impl Evidence {
    pub open spec fn frame(self, candidate: CandidateMeta) -> int {
        self.stats[candidate.index as int].frame_index as int
    }

    pub open spec fn frames_of(self, indices: Seq<usize>) -> Seq<usize> {
        Seq::new(indices.len(), |i: int| self.stats[indices[i] as int].frame_index)
    }

    /// Frame 0, and those of the first `n` frames that are cuts or have a large histogram distance.
    pub open spec fn baseline(self, n: int) -> Seq<usize>
        decreases n,
    {
        if n <= 0 {
            seq![0]
        } else {
            let others = self.baseline(n - 1);
            let stat = self.stats[n - 1];
            if stat.is_cut || self.config.hist_blend_threshold.at_most(stat.hist_distance) {
                others.push(stat.frame_index)
            } else {
                others
            }
        }
    }

    /// Frames with some activity.
    pub open spec fn active(self) -> spec_fn(int) -> bool {
        |i: int| self.config.temporal_burst_activity_blend_min.at_most(self.blended[i])
    }

    /// The number of active frames around a frame.
    pub open spec fn burst_count(self, i: int) -> int {
        let window = self.config.temporal_burst_window_frames as int;
        sums::count(sums::minimum(i + window, self.blended.len() - 1) + 1, self.active())
            - sums::count(excess(i, window), self.active())
    }

    pub open spec fn in_activity_burst(self, i: int) -> bool {
        self.burst_count(i) >= self.config.temporal_burst_min_count
    }

    pub open spec fn weak_cut(self, i: int) -> bool {
        &&& self.stats[i].is_cut
        &&& self.in_activity_burst(i)
        &&& self.stats[i].hist_distance.below(self.config.temporal_burst_raw_hist_max)
        &&& self.stats[i].score.below(self.config.temporal_burst_raw_score_max)
    }

    pub open spec fn weak_noncut(self, i: int) -> bool {
        &&& !self.stats[i].is_cut
        &&& self.in_activity_burst(i)
        &&& self.stats[i].score.below(self.config.temporal_burst_nonraw_score_max)
        &&& self.blended[i].below(self.config.temporal_burst_nonraw_blend_max)
    }

    pub open spec fn dense_noncut(self, i: int) -> bool {
        &&& !self.stats[i].is_cut
        &&& self.burst_count(i) >= self.config.temporal_burst_dense_min_count
        &&& self.stats[i].score.below(self.config.temporal_burst_dense_nonraw_score_max)
    }

    pub open spec fn followup_cut(self, i: int) -> bool {
        self.stats[i].is_cut && !self.in_activity_burst(i) && i > 0 && self.stats[i - 1].is_cut
    }

    pub open spec fn suppressed(self, i: int) -> bool {
        self.weak_cut(i) || self.weak_noncut(i) || self.dense_noncut(i) || self.followup_cut(i)
    }

    pub open spec fn primary(self, i: int) -> bool {
        &&& self.config.hist_blend_threshold.at_most(self.blended[i])
        &&& self.config.frames_score_min.at_most(self.stats[i].score)
        &&& local_peak(self.blended, i, self.config.candidate_peak_radius as int)
    }

    pub open spec fn grid_distances(self) -> Seq<Double> {
        Seq::new(self.stats.len(), |i: int| self.stats[i].grid_hist_distance)
    }

    pub open spec fn structural(self, i: int) -> bool {
        &&& self.stats[i].hist_distance.at_most(self.config.structure_hist_max)
        &&& self.config.structure_grid_hist_min.at_most(self.stats[i].grid_hist_distance)
        &&& local_peak(self.grid_distances(), i, self.config.candidate_peak_radius as int)
    }

    pub open spec fn cut_fallback(self, i: int) -> bool {
        &&& self.stats[i].is_cut
        &&& self.in_activity_burst(i)
        &&& self.config.temporal_burst_cut_fallback_score_min.at_most(self.stats[i].score)
        &&& self.stats[i].hist_distance.at_most(self.config.temporal_burst_cut_fallback_hist_max)
    }

    pub open spec fn qualifies(self, i: int) -> bool {
        !self.suppressed(i) && (self.primary(i) || self.structural(i) || self.cut_fallback(i))
    }

    /// The candidates among the first `n` frames.
    pub open spec fn candidates(self, n: int) -> Seq<CandidateMeta>
        decreases n,
    {
        if n <= 0 {
            Seq::empty()
        } else {
            let others = self.candidates(n - 1);
            if self.qualifies(n - 1) {
                others.push(
                    CandidateMeta {
                        index: (n - 1) as usize,
                        is_cut_fallback: self.cut_fallback(n - 1),
                    },
                )
            } else {
                others
            }
        }
    }

    pub open spec fn strength(self, candidate: CandidateMeta) -> int {
        self.blended[candidate.index as int].total_rank()
    }

    /// The candidate at `p` is the one to take: the earliest cut fallback, or, where there is
    /// none, the strongest (the last of several that are equally strong).
    pub open spec fn is_best(self, candidates: Seq<CandidateMeta>, p: int) -> bool {
        &&& 0 <= p < candidates.len()
        &&& if exists|q: int|
            0 <= q < candidates.len() && (#[trigger] candidates[q]).is_cut_fallback {
            &&& candidates[p].is_cut_fallback
            &&& forall|q: int|
                0 <= q < candidates.len() && (#[trigger] candidates[q]).is_cut_fallback
                    ==> self.frame(candidates[p]) < self.frame(candidates[q]) || (self.frame(
                    candidates[p],
                ) == self.frame(candidates[q]) && p <= q)
        } else {
            forall|q: int|
                0 <= q < candidates.len() ==> self.strength(#[trigger] candidates[q])
                    < self.strength(candidates[p]) || (self.strength(candidates[q])
                    == self.strength(candidates[p]) && q <= p)
        }
    }

    /// The place among the statistics of the candidate to take.
    pub open spec fn best(self, candidates: Seq<CandidateMeta>) -> usize {
        candidates[choose|p: int| self.is_best(candidates, p)].index
    }
}

/// The candidates lie within the first `n` frames.
pub open spec fn within(candidates: Seq<CandidateMeta>, n: int) -> bool {
    forall|q: int| 0 <= q < candidates.len() ==> (#[trigger] candidates[q]).index < n
}

/// What the given arguments stand for together.
pub open spec fn evidence(
    stats: &[FrameCutStats],
    blended: &[Double],
    config: &PostprocessConfig,
) -> Evidence {
    Evidence { stats: stats@, blended: blended@, config: *config }
}

fn initial_keyframes(
    stats: &[FrameCutStats],
    config: &PostprocessConfig,
    Ghost(blended): Ghost<Seq<Double>>,
) -> (r: Vec<usize>)
    ensures
        r@ == (Evidence { stats: stats@, blended, config: *config }).baseline(stats@.len() as int),
{
    let ghost given = Evidence { stats: stats@, blended, config: *config };
    let mut baseline: Vec<usize> = Vec::new();
    baseline.push(0);
    let mut i: usize = 0;
    while i < stats.len()
        invariant
            i <= stats@.len(),
            given == (Evidence { stats: stats@, blended, config: *config }),
            baseline@ == given.baseline(i as int),
        decreases stats@.len() - i,
    {
        let stat = stats[i];
        if stat.is_cut || stat.hist_distance.ge(config.hist_blend_threshold) {
            baseline.push(stat.frame_index);
        }
        i = i + 1;
    }
    baseline
}

/// The number of active frames before each place.
fn burst_activity_prefix(
    stats: &[FrameCutStats],
    blended: &[Double],
    config: &PostprocessConfig,
) -> (r: Vec<usize>)
    requires
        blended@.len() < usize::MAX,
    ensures
        r@.len() == blended@.len() + 1,
        forall|k: int|
            0 <= k < r@.len() ==> #[trigger] r@[k] == sums::count(
                k,
                evidence(stats, blended, config).active(),
            ),
{
    let ghost active = evidence(stats, blended, config).active();
    let mut prefix: Vec<usize> = Vec::new();
    prefix.push(0);
    let mut total: usize = 0;
    let mut i: usize = 0;
    while i < blended.len()
        invariant
            i <= blended@.len(),
            active == evidence(stats, blended, config).active(),
            prefix@.len() == i + 1,
            total == sums::count(i as int, active),
            total <= i,
            forall|k: int| 0 <= k <= i ==> #[trigger] prefix@[k] == sums::count(k, active),
        decreases blended@.len() - i,
    {
        assert(active(i as int) == config.temporal_burst_activity_blend_min.at_most(
            blended@[i as int],
        ));
        if blended[i].ge(config.temporal_burst_activity_blend_min) {
            total = total + 1;
        }
        prefix.push(total);
        i = i + 1;
    }
    prefix
}

fn burst_count_at_index(
    burst_prefix: &[usize],
    index: usize,
    len: usize,
    config: &PostprocessConfig,
    Ghost(given): Ghost<Evidence>,
) -> (r: usize)
    requires
        index < len,
        len == given.blended.len(),
        *config == given.config,
        burst_prefix@.len() == len + 1,
        forall|k: int|
            0 <= k <= len ==> #[trigger] burst_prefix@[k] == sums::count(k, given.active()),
    ensures
        r == given.burst_count(index as int),
{
    let window: usize = config.temporal_burst_window_frames;
    let burst_start: usize = index.saturating_sub(window);
    let burst_end: usize = if window < len - index {
        index + window
    } else {
        len - 1
    };
    proof {
        sums::lemma_count_monotone(burst_start as int, burst_end + 1, given.active());
        assert(burst_prefix@[burst_end + 1] == sums::count(burst_end + 1, given.active()));
        assert(burst_prefix@[burst_start as int] == sums::count(
            burst_start as int,
            given.active(),
        ));
        assert(burst_end + 1 <= usize::MAX) by {
            assert(burst_prefix.len() == burst_prefix@.len());
        }
    }
    burst_prefix[burst_end + 1] - burst_prefix[burst_start]
}

fn is_cut_fallback_candidate(
    stat: &FrameCutStats,
    in_activity_burst: bool,
    config: &PostprocessConfig,
) -> (r: bool)
    ensures
        r == (stat.is_cut && in_activity_burst
            && config.temporal_burst_cut_fallback_score_min.at_most(stat.score)
            && stat.hist_distance.at_most(config.temporal_burst_cut_fallback_hist_max)),
{
    stat.is_cut && in_activity_burst && stat.score.ge(config.temporal_burst_cut_fallback_score_min)
        && stat.hist_distance.le(config.temporal_burst_cut_fallback_hist_max)
}

fn collect_candidates(
    stats: &[FrameCutStats],
    blended: &[Double],
    grid_hist: &[Double],
    burst_prefix: &[usize],
    config: &PostprocessConfig,
) -> (r: Vec<CandidateMeta>)
    requires
        stats@.len() == blended@.len(),
        grid_hist@ == evidence(stats, blended, config).grid_distances(),
        burst_prefix@.len() == blended@.len() + 1,
        forall|k: int|
            0 <= k <= blended@.len() ==> #[trigger] burst_prefix@[k] == sums::count(
                k,
                evidence(stats, blended, config).active(),
            ),
    ensures
        r@ == evidence(stats, blended, config).candidates(stats@.len() as int),
{
    let ghost given = evidence(stats, blended, config);
    let mut candidates: Vec<CandidateMeta> = Vec::new();
    let mut index: usize = 0;
    while index < stats.len()
        invariant
            index <= stats@.len(),
            given == evidence(stats, blended, config),
            stats@.len() == blended@.len(),
            grid_hist@ == given.grid_distances(),
            burst_prefix@.len() == blended@.len() + 1,
            forall|k: int|
                0 <= k <= blended@.len() ==> #[trigger] burst_prefix@[k] == sums::count(
                    k,
                    given.active(),
                ),
            candidates@ == given.candidates(index as int),
        decreases stats@.len() - index,
    {
        let stat = stats[index];
        let burst_count: usize = burst_count_at_index(
            burst_prefix,
            index,
            blended.len(),
            config,
            Ghost(given),
        );
        let in_activity_burst = burst_count >= config.temporal_burst_min_count;
        let suppress_weak_cut = stat.is_cut && in_activity_burst && stat.hist_distance.lt(
            config.temporal_burst_raw_hist_max,
        ) && stat.score.lt(config.temporal_burst_raw_score_max);
        let suppress_weak_noncut = !stat.is_cut && in_activity_burst && stat.score.lt(
            config.temporal_burst_nonraw_score_max,
        ) && blended[index].lt(config.temporal_burst_nonraw_blend_max);
        let suppress_dense_noncut = !stat.is_cut && burst_count
            >= config.temporal_burst_dense_min_count && stat.score.lt(
            config.temporal_burst_dense_nonraw_score_max,
        );
        let suppress_followup_cut = stat.is_cut && !in_activity_burst && index > 0 && stats[index
            - 1].is_cut;
        let suppressed = suppress_weak_cut || suppress_weak_noncut || suppress_dense_noncut
            || suppress_followup_cut;
        assert(suppressed == given.suppressed(index as int));
        if !suppressed {
            let primary = blended[index].ge(config.hist_blend_threshold) && stat.score.ge(
                config.frames_score_min,
            ) && is_local_peak(blended, index, config.candidate_peak_radius);
            let structural = stat.hist_distance.le(config.structure_hist_max)
                && stat.grid_hist_distance.ge(config.structure_grid_hist_min) && is_local_peak(
                grid_hist,
                index,
                config.candidate_peak_radius,
            );
            let cut_fallback = is_cut_fallback_candidate(&stat, in_activity_burst, config);
            if primary || structural || cut_fallback {
                candidates.push(CandidateMeta { index, is_cut_fallback: cut_fallback });
            }
        }
        index = index + 1;
    }
    candidates
}

/// There is at most one candidate to take.
proof fn lemma_best_is_unique(given: Evidence, candidates: Seq<CandidateMeta>, p: int, q: int)
    requires
        given.is_best(candidates, p),
        given.is_best(candidates, q),
    ensures
        p == q,
{
    let one = candidates[p];
    let other = candidates[q];
}

/// The candidate to take, if there is one.
fn best_candidate_index(
    candidates: &[CandidateMeta],
    stats: &[FrameCutStats],
    blended: &[Double],
    Ghost(config): Ghost<PostprocessConfig>,
) -> (r: Option<usize>)
    requires
        within(candidates@, stats@.len() as int),
        stats@.len() == blended@.len(),
    ensures
        r is None <==> candidates@.len() == 0,
        r matches Some(index) ==> index == evidence(stats, blended, &config).best(candidates@)
            && index < stats@.len(),
{
    let ghost given = evidence(stats, blended, &config);
    let len: usize = candidates.len();
    if len == 0 {
        return None;
    }
    let mut earliest: Option<usize> = None;
    let mut strongest: usize = 0;
    let mut i: usize = 0;
    while i < len
        invariant
            i <= len,
            len == candidates@.len(),
            0 < len,
            strongest < len,
            i == 0 ==> strongest == 0,
            0 < i ==> strongest < i,
            within(candidates@, stats@.len() as int),
            stats@.len() == blended@.len(),
            given == evidence(stats, blended, &config),
            forall|q: int|
                0 <= q < i ==> given.strength(#[trigger] candidates@[q]) < given.strength(
                    candidates@[strongest as int],
                ) || (given.strength(candidates@[q]) == given.strength(
                    candidates@[strongest as int],
                ) && q <= strongest),
            match earliest {
                Some(p) => p < i && candidates@[p as int].is_cut_fallback && forall|q: int|
                    0 <= q < i && (#[trigger] candidates@[q]).is_cut_fallback ==> given.frame(
                        candidates@[p as int],
                    ) < given.frame(candidates@[q]) || (given.frame(candidates@[p as int])
                        == given.frame(candidates@[q]) && p <= q),
                None => forall|q: int|
                    0 <= q < i ==> !(#[trigger] candidates@[q]).is_cut_fallback,
            },
        decreases len - i,
    {
        let candidate = candidates[i];
        if candidate.is_cut_fallback {
            match earliest {
                None => {
                    earliest = Some(i);
                },
                Some(p) => {
                    if stats[candidate.index].frame_index < stats[candidates[p].index].frame_index {
                        earliest = Some(i);
                    }
                },
            }
        }
        if !blended[candidate.index].total_lt(blended[candidates[strongest].index]) {
            strongest = i;
        }
        i = i + 1;
    }
    let best: usize = match earliest {
        Some(p) => p,
        None => strongest,
    };
    proof {
        assert(given.is_best(candidates@, best as int));
        let p = choose|p: int| given.is_best(candidates@, p);
        lemma_best_is_unique(given, candidates@, best as int, p);
    }
    Some(candidates[best].index)
}

impl Evidence {
    /// The candidate at `i` is too far from the one before it to belong to the same cluster.
    pub open spec fn starts_cluster(self, candidates: Seq<CandidateMeta>, i: int) -> bool {
        i <= 0 || excess(self.frame(candidates[i]), self.frame(candidates[i - 1]))
            >= self.config.cluster_gap_frames
    }

    /// Where the cluster of the candidate at `i` starts.
    pub open spec fn cluster_start(self, candidates: Seq<CandidateMeta>, i: int) -> int
        decreases i,
    {
        if self.starts_cluster(candidates, i) {
            i
        } else {
            self.cluster_start(candidates, i - 1)
        }
    }

    /// Frame 0 and the best frame of each cluster, where `n` is the end of a cluster.
    pub open spec fn peaks(self, candidates: Seq<CandidateMeta>, n: int) -> Seq<usize>
        decreases n,
        via Self::peaks_decreases
    {
        if n <= 0 {
            seq![0]
        } else {
            let start = self.cluster_start(candidates, n - 1);
            let best = self.best(candidates.subrange(start, n));
            self.peaks(candidates, start).push(self.stats[best as int].frame_index)
        }
    }

    #[via_fn]
    proof fn peaks_decreases(self, candidates: Seq<CandidateMeta>, n: int) {
        if n > 0 {
            self.lemma_cluster_start_bounds(candidates, n - 1);
        }
    }

    proof fn lemma_cluster_start_bounds(self, candidates: Seq<CandidateMeta>, i: int)
        requires
            0 <= i,
        ensures
            0 <= self.cluster_start(candidates, i) <= i,
        decreases i,
    {
        if !self.starts_cluster(candidates, i) {
            self.lemma_cluster_start_bounds(candidates, i - 1);
        }
    }

    /// The first place from `from` on that holds a candidate after frame `bound`, or the end.
    pub open spec fn first_after(
        self,
        candidates: Seq<CandidateMeta>,
        from: int,
        bound: int,
    ) -> int
        decreases candidates.len() - from,
    {
        if from >= candidates.len() || self.frame(candidates[from]) > bound {
            from
        } else {
            self.first_after(candidates, from + 1, bound)
        }
    }

    /// A candidate strong enough, and far enough from both ends, to be added in a gap.
    pub open spec fn fits_gap(self, candidate: CandidateMeta, left: int, right: int) -> bool {
        let frame = self.frame(candidate);
        &&& excess(frame, left) >= self.config.dense_recovery_margin_frames
        &&& excess(right, frame) >= self.config.dense_recovery_margin_frames
        &&& self.config.dense_recovery_blend_min.at_most(self.blended[candidate.index as int])
        &&& self.config.dense_recovery_score_min.at_most(self.stats[candidate.index as int].score)
    }

    /// Those among `candidates` that fit into a gap.
    pub open spec fn fitting(
        self,
        candidates: Seq<CandidateMeta>,
        left: int,
        right: int,
    ) -> Seq<CandidateMeta>
        decreases candidates.len(),
    {
        if candidates.len() == 0 {
            Seq::empty()
        } else {
            let others = self.fitting(candidates.drop_last(), left, right);
            if self.fits_gap(candidates.last(), left, right) {
                others.push(candidates.last())
            } else {
                others
            }
        }
    }

    /// `candidate` takes the place of what was the best so far in its slot.
    pub open spec fn replaces(
        self,
        candidate: CandidateMeta,
        current_best: Option<CandidateMeta>,
    ) -> bool {
        match current_best {
            None => true,
            Some(best) => if candidate.is_cut_fallback != best.is_cut_fallback {
                candidate.is_cut_fallback
            } else if candidate.is_cut_fallback {
                self.frame(candidate) < self.frame(best)
            } else {
                self.blended[best.index as int].below(self.blended[candidate.index as int])
            },
        }
    }

    /// The best of the first `n` candidates that belong to a slot.
    pub open spec fn slot_winner(
        self,
        candidates: Seq<CandidateMeta>,
        n: int,
        left: int,
        gap: int,
        slots: int,
        slot: int,
    ) -> Option<CandidateMeta>
        decreases n,
    {
        if n <= 0 {
            None
        } else {
            let before = self.slot_winner(candidates, n - 1, left, gap, slots, slot);
            let candidate = candidates[n - 1];
            if in_slot(self.frame(candidate), left, gap, slots, slot) && self.replaces(
                candidate,
                before,
            ) {
                Some(candidate)
            } else {
                before
            }
        }
    }

    /// The winners of the first `n` slots.
    pub open spec fn winners(
        self,
        candidates: Seq<CandidateMeta>,
        left: int,
        gap: int,
        slots: int,
        n: int,
    ) -> Seq<usize>
        decreases n,
    {
        if n <= 0 {
            Seq::empty()
        } else {
            let others = self.winners(candidates, left, gap, slots, n - 1);
            match self.slot_winner(
                candidates,
                candidates.len() as int,
                left,
                gap,
                slots,
                n - 1,
            ) {
                Some(best) if !others.contains(best.index) => others.push(best.index),
                _ => others,
            }
        }
    }

    /// The strongest of the first `n` candidates that are not among `chosen`.
    pub open spec fn strongest_left(
        self,
        candidates: Seq<CandidateMeta>,
        n: int,
        chosen: Seq<usize>,
    ) -> Option<CandidateMeta>
        decreases n,
    {
        if n <= 0 {
            None
        } else {
            let before = self.strongest_left(candidates, n - 1, chosen);
            let candidate = candidates[n - 1];
            if chosen.contains(candidate.index) {
                before
            } else {
                match before {
                    None => Some(candidate),
                    Some(best) => if self.blended[best.index as int].below(
                        self.blended[candidate.index as int],
                    ) {
                        Some(candidate)
                    } else {
                        before
                    },
                }
            }
        }
    }

    /// `chosen`, filled up with the strongest candidates that are left.
    pub open spec fn filled(
        self,
        candidates: Seq<CandidateMeta>,
        chosen: Seq<usize>,
        limit: int,
    ) -> Seq<usize>
        decreases limit - chosen.len(),
    {
        if chosen.len() >= limit {
            chosen
        } else {
            match self.strongest_left(candidates, candidates.len() as int, chosen) {
                None => chosen,
                Some(best) => self.filled(candidates, chosen.push(best.index), limit),
            }
        }
    }

    /// How many frames may be added in a gap.
    pub open spec fn allowance(self, gap: int) -> int {
        sums::maximum(gap / (self.config.dense_recovery_target_span_frames as int), 1)
    }

    /// The frames that are added in a gap for which the given candidates are fit.
    pub open spec fn additions(
        self,
        candidates: Seq<CandidateMeta>,
        left: int,
        gap: int,
    ) -> Seq<usize> {
        let limit = self.allowance(gap);
        if candidates.len() == 0 {
            Seq::empty()
        } else if limit == 1 {
            self.frames_of(seq![self.best(candidates)])
        } else {
            self.frames_of(
                self.filled(
                    candidates,
                    self.winners(candidates, left, gap, limit + 1, limit),
                    limit,
                ),
            )
        }
    }
}

/// A slot of a gap that is cut into `slots` equal parts starts here.
pub open spec fn slot_start(left: int, gap: int, slots: int, slot: int) -> int {
    left + sums::saturate(gap * slot, usize::MAX as int) / slots
}

pub open spec fn slot_covers(frame: int, left: int, gap: int, slots: int, slot: int) -> bool {
    slot_start(left, gap, slots, slot) <= frame <= slot_start(left, gap, slots, slot + 1)
}

/// The slot is the first that covers the frame.
pub open spec fn in_slot(frame: int, left: int, gap: int, slots: int, slot: int) -> bool {
    slot_covers(frame, left, gap, slots, slot) && forall|other: int|
        0 <= other < slot ==> !#[trigger] slot_covers(frame, left, gap, slots, other)
}

/// How far the search for frames to add has come.
pub struct Recovery {
    pub recovered: Seq<usize>,
    pub interval_start: int,
    pub interval_end: int,
}

impl Evidence {
    /// The search after one more gap between keyframes.
    pub open spec fn recover_in_gap(
        self,
        candidates: Seq<CandidateMeta>,
        before: Recovery,
        left: int,
        right: int,
    ) -> Recovery {
        let gap = excess(right, left);
        if gap < self.config.dense_recovery_min_gap_frames {
            before
        } else {
            let start = self.first_after(candidates, before.interval_start, left);
            let end = self.first_after(
                candidates,
                sums::maximum(before.interval_end, start),
                right - 1,
            );
            let interval = candidates.subrange(start, end);
            let added = if interval.len() < self.config.dense_recovery_min_candidates {
                Seq::empty()
            } else {
                self.additions(self.fitting(interval, left, right), left, gap)
            };
            Recovery {
                recovered: before.recovered + added,
                interval_start: start,
                interval_end: end,
            }
        }
    }

    /// The search after the first `n` gaps between the given keyframes.
    pub open spec fn recovery(
        self,
        candidates: Seq<CandidateMeta>,
        keyframes: Seq<usize>,
        n: int,
    ) -> Recovery
        decreases n,
    {
        if n <= 0 {
            Recovery { recovered: Seq::empty(), interval_start: 0, interval_end: 0 }
        } else {
            self.recover_in_gap(
                candidates,
                self.recovery(candidates, keyframes, n - 1),
                keyframes[n - 1] as int,
                keyframes[n] as int,
            )
        }
    }

    /// The best frames of the clusters, then the frames added in the gaps between them.
    pub open spec fn selection(self) -> Seq<usize> {
        let candidates = self.candidates(self.stats.len() as int);
        let peaks = self.peaks(candidates, candidates.len() as int);
        peaks + self.recovery(candidates, peaks, peaks.len() - 1).recovered
    }

    /// There are too few frames, or no candidate, to choose from.
    pub open spec fn unrefined(self) -> bool {
        self.stats.len() < self.config.min_postprocess_frames || self.candidates(
            self.stats.len() as int,
        ).len() == 0
    }

    /// Frame 0, or a frame with statistics.
    pub open spec fn known(self, frame: usize) -> bool {
        frame == 0 || exists|i: int|
            0 <= i < self.stats.len() && (#[trigger] self.stats[i]).frame_index == frame
    }

    pub open spec fn all_known(self, frames: Seq<usize>) -> bool {
        forall|k: int| 0 <= k < frames.len() ==> self.known(#[trigger] frames[k])
    }

    /// The statistics follow frame 0 in the order of the frames.
    pub open spec fn in_frame_order(self) -> bool {
        &&& forall|i: int| 0 <= i < self.stats.len() ==> 0 < (#[trigger] self.stats[i]).frame_index
        &&& forall|i: int, j: int|
            0 <= i < j < self.stats.len() ==> (#[trigger] self.stats[i]).frame_index < (
            #[trigger] self.stats[j]).frame_index
    }

    /// `keyframes` are the ones to report.
    pub open spec fn settles(self, keyframes: Seq<usize>) -> bool {
        if self.unrefined() {
            keyframes == self.baseline(self.stats.len() as int)
        } else {
            &&& ascending(keyframes)
            &&& forall|frame: usize| #[trigger]
                keyframes.contains(frame) <==> self.selection().contains(frame)
        }
    }
}

/// Each item is larger than those before it.
pub open spec fn ascending(frames: Seq<usize>) -> bool {
    forall|i: int, j: int| 0 <= i < j < frames.len() ==> frames[i] < frames[j]
}

/// Frame 0 and the best frame of each cluster of candidates.
fn select_cluster_peaks(
    stats: &[FrameCutStats],
    candidate_indices: &[CandidateMeta],
    blended: &[Double],
    config: &PostprocessConfig,
) -> (r: Vec<usize>)
    requires
        within(candidate_indices@, stats@.len() as int),
        stats@.len() == blended@.len(),
    ensures
        r@ == evidence(stats, blended, config).peaks(
            candidate_indices@,
            candidate_indices@.len() as int,
        ),
        evidence(stats, blended, config).all_known(r@),
{
    let ghost given = evidence(stats, blended, config);
    let ghost candidates = candidate_indices@;
    let mut refined: Vec<usize> = Vec::new();
    refined.push(0);
    let mut cluster: Vec<CandidateMeta> = Vec::new();
    let mut previous_frame: usize = 0;
    let mut i: usize = 0;
    let ghost mut start: int = 0;
    assert(refined@ =~= given.peaks(candidates, 0));
    while i < candidate_indices.len()
        invariant
            i <= candidates.len(),
            candidates == candidate_indices@,
            given == evidence(stats, blended, config),
            within(candidates, stats@.len() as int),
            stats@.len() == blended@.len(),
            0 <= start <= i,
            i > 0 ==> start == given.cluster_start(candidates, i - 1) && start < i,
            i > 0 ==> previous_frame == given.frame(candidates[i - 1]),
            cluster@ == candidates.subrange(start, i as int),
            refined@ == given.peaks(candidates, start),
            given.all_known(refined@),
        decreases candidates.len() - i,
    {
        let candidate = candidate_indices[i];
        let frame: usize = stats[candidate.index].frame_index;
        let joins = i > 0 && frame.saturating_sub(previous_frame) < config.cluster_gap_frames;
        assert(joins == !given.starts_cluster(candidates, i as int));
        if !joins {
            match best_candidate_index(cluster.as_slice(), stats, blended, Ghost(*config)) {
                Some(best) => {
                    refined.push(stats[best].frame_index);
                },
                None => {},
            }
            proof {
                start = i as int;
            }
            cluster.clear();
        }
        cluster.push(candidate);
        previous_frame = frame;
        i = i + 1;
        assert(cluster@ =~= candidates.subrange(start, i as int));
    }
    match best_candidate_index(cluster.as_slice(), stats, blended, Ghost(*config)) {
        Some(best) => {
            refined.push(stats[best].frame_index);
        },
        None => {},
    }
    refined
}

/// Moves on to the candidates between two keyframes.
fn dense_recovery_interval<'a>(
    stats: &[FrameCutStats],
    candidate_indices: &'a [CandidateMeta],
    interval_start: &mut usize,
    interval_end: &mut usize,
    left: usize,
    right: usize,
    Ghost(given): Ghost<Evidence>,
) -> (r: &'a [CandidateMeta])
    requires
        given.stats == stats@,
        within(candidate_indices@, stats@.len() as int),
        *old(interval_start) <= candidate_indices@.len(),
        *old(interval_end) <= candidate_indices@.len(),
    ensures
        *final(interval_start) == given.first_after(
            candidate_indices@,
            *old(interval_start) as int,
            left as int,
        ),
        *final(interval_end) == given.first_after(
            candidate_indices@,
            sums::maximum(*old(interval_end) as int, *final(interval_start) as int),
            right - 1,
        ),
        *final(interval_start) <= *final(interval_end) <= candidate_indices@.len(),
        r@ == candidate_indices@.subrange(
            *final(interval_start) as int,
            *final(interval_end) as int,
        ),
{
    let ghost candidates = candidate_indices@;
    let ghost first = *interval_start as int;
    let mut start: usize = *interval_start;
    while start < candidate_indices.len() && stats[candidate_indices[start].index].frame_index
        <= left
        invariant
            start <= candidates.len(),
            candidates == candidate_indices@,
            given.stats == stats@,
            within(candidates, stats@.len() as int),
            given.first_after(candidates, start as int, left as int) == given.first_after(
                candidates,
                first,
                left as int,
            ),
        decreases candidates.len() - start,
    {
        start = start + 1;
    }
    let mut end: usize = *interval_end;
    if end < start {
        end = start;
    }
    let ghost second = end as int;
    while end < candidate_indices.len() && stats[candidate_indices[end].index].frame_index < right
        invariant
            start <= end <= candidates.len(),
            candidates == candidate_indices@,
            given.stats == stats@,
            within(candidates, stats@.len() as int),
            given.first_after(candidates, end as int, right - 1) == given.first_after(
                candidates,
                second,
                right - 1,
            ),
        decreases candidates.len() - end,
    {
        end = end + 1;
    }
    *interval_start = start;
    *interval_end = end;
    vstd::slice::slice_subrange(candidate_indices, start, end)
}

/// Keeps the candidates that fit into the gap.
fn collect_filtered_dense_candidates(
    interval_candidates: &[CandidateMeta],
    stats: &[FrameCutStats],
    blended: &[Double],
    left: usize,
    right: usize,
    config: &PostprocessConfig,
) -> (r: Vec<CandidateMeta>)
    requires
        within(interval_candidates@, stats@.len() as int),
        stats@.len() == blended@.len(),
    ensures
        r@ == evidence(stats, blended, config).fitting(
            interval_candidates@,
            left as int,
            right as int,
        ),
{
    let ghost given = evidence(stats, blended, config);
    let ghost all = interval_candidates@;
    let mut filtered: Vec<CandidateMeta> = Vec::new();
    let mut i: usize = 0;
    assert(all.take(0) =~= Seq::<CandidateMeta>::empty());
    while i < interval_candidates.len()
        invariant
            i <= all.len(),
            all == interval_candidates@,
            given == evidence(stats, blended, config),
            within(all, stats@.len() as int),
            stats@.len() == blended@.len(),
            filtered@ == given.fitting(all.take(i as int), left as int, right as int),
        decreases all.len() - i,
    {
        let candidate = interval_candidates[i];
        let frame: usize = stats[candidate.index].frame_index;
        proof {
            assert(all.take(i + 1).drop_last() =~= all.take(i as int));
        }
        if frame.saturating_sub(left) >= config.dense_recovery_margin_frames
            && right.saturating_sub(frame) >= config.dense_recovery_margin_frames
            && blended[candidate.index].ge(config.dense_recovery_blend_min)
            && stats[candidate.index].score.ge(config.dense_recovery_score_min) {
            filtered.push(candidate);
        }
        i = i + 1;
    }
    assert(all.take(all.len() as int) =~= all);
    filtered
}

fn should_replace_slot_candidate(
    candidate: CandidateMeta,
    current_best: Option<CandidateMeta>,
    stats: &[FrameCutStats],
    blended: &[Double],
    Ghost(config): Ghost<PostprocessConfig>,
) -> (r: bool)
    requires
        candidate.index < stats@.len(),
        current_best matches Some(best) ==> best.index < stats@.len(),
        stats@.len() == blended@.len(),
    ensures
        r == evidence(stats, blended, &config).replaces(candidate, current_best),
{
    match current_best {
        None => true,
        Some(best) => {
            if candidate.is_cut_fallback != best.is_cut_fallback {
                candidate.is_cut_fallback
            } else if candidate.is_cut_fallback {
                stats[candidate.index].frame_index < stats[best.index].frame_index
            } else {
                blended[candidate.index].gt(blended[best.index])
            }
        },
    }
}

/// Where each candidate stands among all candidates.
pub open spec fn places(positions: Seq<usize>, candidates: Seq<CandidateMeta>) -> bool {
    forall|q: int|
        0 <= q < candidates.len() ==> positions[(#[trigger] candidates[q]).index as int] == q
}

/// `filtered` is taken from `candidates`.
pub open spec fn taken_from(
    filtered: Seq<CandidateMeta>,
    candidates: Seq<CandidateMeta>,
    positions: Seq<usize>,
) -> bool {
    forall|i: int| #![trigger filtered[i]]
        0 <= i < filtered.len() ==> {
            let position = positions[filtered[i].index as int];
            position < candidates.len() && candidates[position as int] == filtered[i]
        }
}

/// The candidates marked with the current generation are those chosen.
pub open spec fn marked(
    chosen: Seq<usize>,
    candidates: Seq<CandidateMeta>,
    chosen_generation: Seq<u32>,
    generation: u32,
) -> bool {
    &&& chosen_generation.len() == candidates.len()
    &&& forall|q: int|
        0 <= q < candidates.len() ==> (#[trigger] chosen_generation[q] == generation
            <==> chosen.contains(candidates[q].index))
}

/// The frame at `left`, the gap after it, and what is known of the candidates.
struct DenseRecoverySlotParams<'a> {
    stats: &'a [FrameCutStats],
    blended: &'a [Double],
    left: usize,
    gap: usize,
    max_additions: usize,
    candidate_positions: &'a [usize],
    generation: u32,
}

impl<'a> DenseRecoverySlotParams<'a> {
    spec fn well_formed(self, candidates: Seq<CandidateMeta>) -> bool {
        &&& self.stats@.len() == self.blended@.len()
        &&& self.candidate_positions@.len() == self.stats@.len()
        &&& within(candidates, self.stats@.len() as int)
        &&& places(self.candidate_positions@, candidates)
        &&& self.left + self.gap <= usize::MAX
        &&& self.max_additions < usize::MAX
    }
}

proof fn lemma_mark_one_more(
    chosen: Seq<usize>,
    candidates: Seq<CandidateMeta>,
    positions: Seq<usize>,
    chosen_generation: Seq<u32>,
    generation: u32,
    position: int,
)
    requires
        places(positions, candidates),
        marked(chosen, candidates, chosen_generation, generation),
        0 <= position < candidates.len(),
    ensures
        marked(
            chosen.push(candidates[position].index),
            candidates,
            chosen_generation.update(position, generation),
            generation,
        ),
{
    let index = candidates[position].index;
    let after = chosen.push(index);
    let marks = chosen_generation.update(position, generation);
    assert forall|q: int| 0 <= q < candidates.len() implies (#[trigger] marks[q] == generation
        <==> after.contains(candidates[q].index)) by {
        if q == position {
            assert(after[chosen.len() as int] == index);
        } else {
            assert(positions[candidates[q].index as int] == q);
            assert(positions[candidates[position].index as int] == position);
            assert(marks[q] == chosen_generation[q]);
            if chosen.contains(candidates[q].index) {
                let k = choose|k: int| 0 <= k < chosen.len() && chosen[k] == candidates[q].index;
                assert(after[k] == candidates[q].index);
            }
            if after.contains(candidates[q].index) {
                let k = choose|k: int| 0 <= k < after.len() && after[k] == candidates[q].index;
                assert(chosen[k] == candidates[q].index);
            }
        }
    }
}

/// The bounds of a slot stay within the gap.
proof fn lemma_slot_start_bounds(left: int, gap: int, slots: int, slot: int)
    requires
        0 <= gap,
        0 <= slot <= slots,
        0 < slots,
    ensures
        left <= slot_start(left, gap, slots, slot) <= left + gap,
{
    let product = sums::saturate(gap * slot, usize::MAX as int);
    assert(0 <= gap * slot <= gap * slots) by (nonlinear_arith)
        requires
            0 <= gap,
            0 <= slot <= slots,
    ;
    assert(0 <= product / slots <= gap) by (nonlinear_arith)
        requires
            0 <= product <= gap * slots,
            0 < slots,
    ;
}

fn slot_bound(left: usize, gap: usize, slots: usize, slot: usize) -> (r: usize)
    requires
        slot <= slots,
        0 < slots,
        left + gap <= usize::MAX,
    ensures
        r == slot_start(left as int, gap as int, slots as int, slot as int),
{
    proof {
        lemma_slot_start_bounds(left as int, gap as int, slots as int, slot as int);
    }
    let product: usize = match gap.checked_mul(slot) {
        Some(product) => product,
        None => usize::MAX,
    };
    left + product / slots
}

/// Takes the best candidate of each slot.
fn select_dense_slot_candidates(
    filtered: &[CandidateMeta],
    params: &DenseRecoverySlotParams<'_>,
    chosen_generation: &mut Vec<u32>,
    Ghost(candidates): Ghost<Seq<CandidateMeta>>,
    Ghost(config): Ghost<PostprocessConfig>,
) -> (r: Vec<usize>)
    requires
        params.well_formed(candidates),
        within(filtered@, params.stats@.len() as int),
        taken_from(filtered@, candidates, params.candidate_positions@),
        marked(Seq::empty(), candidates, old(chosen_generation)@, params.generation),
    ensures
        r@ == evidence(params.stats, params.blended, &config).winners(
            filtered@,
            params.left as int,
            params.gap as int,
            params.max_additions + 1,
            params.max_additions as int,
        ),
        marked(r@, candidates, final(chosen_generation)@, params.generation),
        forall|k: int| 0 <= k < r@.len() ==> #[trigger] r@[k] < params.stats@.len(),
        forall|q: int|
            0 <= q < candidates.len() ==> #[trigger] final(chosen_generation)@[q] == old(
                chosen_generation,
            )@[q] || final(chosen_generation)@[q] == params.generation,
{
    let ghost given = evidence(params.stats, params.blended, &config);
    let ghost left = params.left as int;
    let ghost gap = params.gap as int;
    let slots: usize = params.max_additions + 1;
    let mut slot_best: Vec<Option<CandidateMeta>> = Vec::new();
    let mut fill: usize = 0;
    while fill < params.max_additions
        invariant
            fill <= params.max_additions,
            slot_best@.len() == fill,
            forall|t: int| 0 <= t < fill ==> (#[trigger] slot_best@[t]) is None,
        decreases params.max_additions - fill,
    {
        slot_best.push(None);
        fill = fill + 1;
    }
    let mut i: usize = 0;
    while i < filtered.len()
        invariant
            i <= filtered@.len(),
            params.well_formed(candidates),
            slots == params.max_additions + 1,
            within(filtered@, params.stats@.len() as int),
            taken_from(filtered@, candidates, params.candidate_positions@),
            marked(Seq::empty(), candidates, chosen_generation@, params.generation),
            chosen_generation@ == old(chosen_generation)@,
            given == evidence(params.stats, params.blended, &config),
            left == params.left,
            gap == params.gap,
            slot_best@.len() == params.max_additions,
            forall|t: int|
                0 <= t < params.max_additions ==> #[trigger] slot_best@[t] == given.slot_winner(
                    filtered@,
                    i as int,
                    left,
                    gap,
                    slots as int,
                    t,
                ),
            forall|t: int|
                0 <= t < params.max_additions ==> ((#[trigger] slot_best@[t]) matches Some(best)
                    ==> best.index < params.stats@.len()),
        decreases filtered@.len() - i,
    {
        let candidate = filtered[i];
        let frame: usize = params.stats[candidate.index].frame_index;
        let ghost before = slot_best@;
        let mut slot: usize = 0;
        let mut searching = true;
        while searching && slot < params.max_additions
            invariant
                slot <= params.max_additions,
                params.well_formed(candidates),
                slots == params.max_additions + 1,
                given == evidence(params.stats, params.blended, &config),
                left == params.left,
                gap == params.gap,
                candidate.index < params.stats@.len(),
                frame == given.frame(candidate),
                before.len() == params.max_additions,
                slot_best@.len() == params.max_additions,
                forall|t: int|
                    0 <= t < params.max_additions ==> ((#[trigger] before[t]) matches Some(best)
                        ==> best.index < params.stats@.len()),
                forall|t: int|
                    0 <= t < slot && (searching || t != slot - 1) ==> !#[trigger] slot_covers(
                        frame as int,
                        left,
                        gap,
                        slots as int,
                        t,
                    ),
                searching ==> slot_best@ == before,
                !searching ==> 0 < slot && slot_covers(
                    frame as int,
                    left,
                    gap,
                    slots as int,
                    slot - 1,
                ) && slot_best@ == before.update(
                    slot - 1,
                    if given.replaces(candidate, before[slot - 1]) {
                        Some(candidate)
                    } else {
                        before[slot - 1]
                    },
                ),
            decreases params.max_additions - slot,
        {
            let start: usize = slot_bound(params.left, params.gap, slots, slot);
            let end: usize = slot_bound(params.left, params.gap, slots, slot + 1);
            if start <= frame && frame <= end {
                assert(slot_covers(frame as int, left, gap, slots as int, slot as int));
                assert(before[slot as int] == slot_best@[slot as int]);
                if should_replace_slot_candidate(
                    candidate,
                    slot_best[slot],
                    params.stats,
                    params.blended,
                    Ghost(config),
                ) {
                    slot_best.set(slot, Some(candidate));
                } else {
                    assert(slot_best@ =~= before.update(slot as int, before[slot as int]));
                }
                searching = false;
            }
            slot = slot + 1;
        }
        proof {
            assert forall|t: int| 0 <= t < params.max_additions implies #[trigger] slot_best@[t]
                == given.slot_winner(filtered@, i + 1, left, gap, slots as int, t) by {
                assert(before[t] == given.slot_winner(
                    filtered@,
                    i as int,
                    left,
                    gap,
                    slots as int,
                    t,
                ));
                let here = slot_covers(frame as int, left, gap, slots as int, t);
                if !searching && t > slot - 1 {
                    assert(slot_covers(frame as int, left, gap, slots as int, slot - 1));
                }
            }
            assert forall|t: int| 0 <= t < params.max_additions implies ((
            #[trigger] slot_best@[t]) matches Some(best) ==> best.index < params.stats@.len()) by {
                let same = before[t];
            }
        }
        i = i + 1;
    }
    let mut chosen: Vec<usize> = Vec::new();
    let mut slot: usize = 0;
    assert(chosen@ =~= Seq::<usize>::empty());
    while slot < params.max_additions
        invariant
            slot <= params.max_additions,
            params.well_formed(candidates),
            slots == params.max_additions + 1,
            within(filtered@, params.stats@.len() as int),
            taken_from(filtered@, candidates, params.candidate_positions@),
            given == evidence(params.stats, params.blended, &config),
            left == params.left,
            gap == params.gap,
            slot_best@.len() == params.max_additions,
            forall|t: int|
                0 <= t < params.max_additions ==> #[trigger] slot_best@[t] == given.slot_winner(
                    filtered@,
                    filtered@.len() as int,
                    left,
                    gap,
                    slots as int,
                    t,
                ),
            chosen@ == given.winners(filtered@, left, gap, slots as int, slot as int),
            marked(chosen@, candidates, chosen_generation@, params.generation),
            forall|k: int| 0 <= k < chosen@.len() ==> #[trigger] chosen@[k] < params.stats@.len(),
            old(chosen_generation)@.len() == candidates.len(),
            forall|q: int|
                0 <= q < candidates.len() ==> #[trigger] chosen_generation@[q] == old(
                    chosen_generation,
                )@[q] || chosen_generation@[q] == params.generation,
        decreases params.max_additions - slot,
    {
        match slot_best[slot] {
            Some(best) => {
                proof {
                    lemma_winner_is_listed(
                        given,
                        filtered@,
                        filtered@.len() as int,
                        left,
                        gap,
                        slots as int,
                        slot as int,
                    );
                }
                let position: usize = params.candidate_positions[best.index];
                assert(candidates[position as int] == best);
                if chosen_generation[position] != params.generation {
                    proof {
                        lemma_mark_one_more(
                            chosen@,
                            candidates,
                            params.candidate_positions@,
                            chosen_generation@,
                            params.generation,
                            position as int,
                        );
                    }
                    chosen.push(best.index);
                    chosen_generation.set(position, params.generation);
                }
            },
            None => {},
        }
        slot = slot + 1;
    }
    chosen
}

/// The winner of a slot is one of the candidates.
proof fn lemma_winner_is_listed(
    given: Evidence,
    candidates: Seq<CandidateMeta>,
    n: int,
    left: int,
    gap: int,
    slots: int,
    slot: int,
)
    requires
        0 <= n <= candidates.len(),
    ensures
        given.slot_winner(candidates, n, left, gap, slots, slot) matches Some(best)
            ==> exists|i: int| 0 <= i < n && #[trigger] candidates[i] == best,
    decreases n,
{
    if n > 0 {
        lemma_winner_is_listed(given, candidates, n - 1, left, gap, slots, slot);
        assert(candidates[n - 1] == candidates[n - 1]);
    }
}

/// Fills up with the strongest candidates that are left.
fn fill_remaining_dense_candidates(
    chosen: &mut Vec<usize>,
    filtered: &[CandidateMeta],
    params: &DenseRecoverySlotParams<'_>,
    chosen_generation: &mut Vec<u32>,
    Ghost(candidates): Ghost<Seq<CandidateMeta>>,
    Ghost(config): Ghost<PostprocessConfig>,
)
    requires
        params.well_formed(candidates),
        within(filtered@, params.stats@.len() as int),
        taken_from(filtered@, candidates, params.candidate_positions@),
        marked(old(chosen)@, candidates, old(chosen_generation)@, params.generation),
        forall|k: int| 0 <= k < old(chosen)@.len() ==> #[trigger] old(chosen)@[k]
            < params.stats@.len(),
    ensures
        final(chosen)@ == evidence(params.stats, params.blended, &config).filled(
            filtered@,
            old(chosen)@,
            params.max_additions as int,
        ),
        forall|k: int| 0 <= k < final(chosen)@.len() ==> #[trigger] final(chosen)@[k]
            < params.stats@.len(),
        final(chosen_generation)@.len() == candidates.len(),
        forall|q: int|
            0 <= q < candidates.len() ==> #[trigger] final(chosen_generation)@[q] == old(
                chosen_generation,
            )@[q] || final(chosen_generation)@[q] == params.generation,
{
    let ghost given = evidence(params.stats, params.blended, &config);
    let mut exhausted = false;
    while !exhausted && chosen.len() < params.max_additions
        invariant
            params.well_formed(candidates),
            within(filtered@, params.stats@.len() as int),
            taken_from(filtered@, candidates, params.candidate_positions@),
            given == evidence(params.stats, params.blended, &config),
            marked(chosen@, candidates, chosen_generation@, params.generation),
            forall|k: int| 0 <= k < chosen@.len() ==> #[trigger] chosen@[k] < params.stats@.len(),
            old(chosen_generation)@.len() == candidates.len(),
            forall|q: int|
                0 <= q < candidates.len() ==> #[trigger] chosen_generation@[q] == old(
                    chosen_generation,
                )@[q] || chosen_generation@[q] == params.generation,
            given.filled(filtered@, chosen@, params.max_additions as int) == given.filled(
                filtered@,
                old(chosen)@,
                params.max_additions as int,
            ),
            exhausted ==> chosen@ == given.filled(
                filtered@,
                chosen@,
                params.max_additions as int,
            ),
        decreases
            params.max_additions - chosen@.len(),
            if exhausted {
                0int
            } else {
                1int
            },
    {
        let mut best_remaining: Option<CandidateMeta> = None;
        let mut i: usize = 0;
        while i < filtered.len()
            invariant
                i <= filtered@.len(),
                params.well_formed(candidates),
                within(filtered@, params.stats@.len() as int),
                taken_from(filtered@, candidates, params.candidate_positions@),
                given == evidence(params.stats, params.blended, &config),
                marked(chosen@, candidates, chosen_generation@, params.generation),
                best_remaining == given.strongest_left(filtered@, i as int, chosen@),
                best_remaining matches Some(best) ==> best.index < params.stats@.len()
                    && !chosen@.contains(best.index) && exists|k: int|
                    0 <= k < i && #[trigger] filtered@[k] == best,
            decreases filtered@.len() - i,
        {
            let candidate = filtered[i];
            let position: usize = params.candidate_positions[candidate.index];
            assert(candidates[position as int] == filtered@[i as int]);
            if chosen_generation[position] != params.generation {
                assert(!chosen@.contains(candidate.index));
                match best_remaining {
                    None => {
                        best_remaining = Some(candidate);
                    },
                    Some(current_best) => {
                        if params.blended[candidate.index].gt(
                            params.blended[current_best.index],
                        ) {
                            best_remaining = Some(candidate);
                        }
                    },
                }
            }
            i = i + 1;
        }
        match best_remaining {
            None => {
                exhausted = true;
            },
            Some(best) => {
                let position: usize = params.candidate_positions[best.index];
                proof {
                    assert(candidates[position as int] == best);
                    lemma_mark_one_more(
                        chosen@,
                        candidates,
                        params.candidate_positions@,
                        chosen_generation@,
                        params.generation,
                        position as int,
                    );
                }
                chosen.push(best.index);
                chosen_generation.set(position, params.generation);
            },
        }
    }
}

/// No two candidates stand for the same frame.
pub open spec fn indices_differ(candidates: Seq<CandidateMeta>) -> bool {
    forall|i: int, j: int|
        0 <= i < j < candidates.len() ==> (#[trigger] candidates[i]).index != (
        #[trigger] candidates[j]).index
}

/// `position` is where the last of the first `n` candidates for the frame at `index` stands, or
/// the largest number if there is none.
pub open spec fn last_position(
    position: usize,
    candidates: Seq<CandidateMeta>,
    n: int,
    index: int,
) -> bool {
    if position == usize::MAX {
        forall|q: int| 0 <= q < n ==> (#[trigger] candidates[q]).index != index
    } else {
        &&& position < n
        &&& candidates[position as int].index == index
        &&& forall|q: int| position < q < n ==> (#[trigger] candidates[q]).index != index
    }
}

/// Where the candidate for each frame stands.
fn build_candidate_positions(stats_len: usize, candidates: &[CandidateMeta]) -> (r: Vec<usize>)
    requires
        within(candidates@, stats_len as int),
    ensures
        r@.len() == stats_len,
        forall|i: int|
            0 <= i < stats_len ==> last_position(
                #[trigger] r@[i],
                candidates@,
                candidates@.len() as int,
                i,
            ),
        indices_differ(candidates@) ==> places(r@, candidates@),
{
    let mut positions: Vec<usize> = vec![usize::MAX; stats_len];
    let mut i: usize = 0;
    while i < candidates.len()
        invariant
            i <= candidates@.len(),
            positions@.len() == stats_len,
            within(candidates@, stats_len as int),
            forall|k: int|
                0 <= k < stats_len ==> last_position(
                    #[trigger] positions@[k],
                    candidates@,
                    i as int,
                    k,
                ),
        decreases candidates@.len() - i,
    {
        assert(candidates.len() == candidates@.len());
        let index: usize = candidates[i].index;
        positions.set(index, i);
        i = i + 1;
    }
    proof {
        if indices_differ(candidates@) {
            assert forall|q: int| 0 <= q < candidates@.len() implies positions@[(
            #[trigger] candidates@[q]).index as int] == q by {
                let index = candidates@[q].index as int;
                assert(last_position(
                    positions@[index],
                    candidates@,
                    candidates@.len() as int,
                    index,
                ));
            }
        }
    }
    positions
}

/// What fits into a gap is taken from the candidates.
proof fn lemma_fitting_is_listed(
    given: Evidence,
    candidates: Seq<CandidateMeta>,
    left: int,
    right: int,
    i: int,
)
    requires
        0 <= i < given.fitting(candidates, left, right).len(),
    ensures
        exists|k: int|
            0 <= k < candidates.len() && #[trigger] candidates[k] == given.fitting(
                candidates,
                left,
                right,
            )[i],
    decreases candidates.len(),
{
    let shorter = candidates.drop_last();
    let others = given.fitting(shorter, left, right);
    if i < others.len() {
        lemma_fitting_is_listed(given, shorter, left, right, i);
        let k = choose|k: int| 0 <= k < shorter.len() && #[trigger] shorter[k] == others[i];
        assert(candidates[k] == others[i]);
    } else {
        assert(candidates[candidates.len() - 1] == given.fitting(candidates, left, right)[i]);
    }
}

/// The frames to add in the gaps between keyframes.
fn recover_dense_candidates(
    stats: &[FrameCutStats],
    candidate_indices: &[CandidateMeta],
    blended: &[Double],
    refined: &[usize],
    config: &PostprocessConfig,
) -> (r: Vec<usize>)
    requires
        stats@.len() == blended@.len(),
        within(candidate_indices@, stats@.len() as int),
        indices_differ(candidate_indices@),
        0 < refined@.len(),
        forall|k: int| 0 <= k < refined@.len() ==> #[trigger] refined@[k] < usize::MAX,
        0 < config.dense_recovery_target_span_frames,
    ensures
        r@ == evidence(stats, blended, config).recovery(
            candidate_indices@,
            refined@,
            refined@.len() - 1,
        ).recovered,
        evidence(stats, blended, config).all_known(r@),
{
    let ghost given = evidence(stats, blended, config);
    let ghost candidates = candidate_indices@;
    let mut recovered: Vec<usize> = Vec::new();
    let mut chosen_generation: Vec<u32> = vec![0u32; candidate_indices.len()];
    let mut generation: u32 = 1;
    let candidate_positions = build_candidate_positions(stats.len(), candidate_indices);
    let mut interval_start: usize = 0;
    let mut interval_end: usize = 0;
    let mut window: usize = 0;
    assert(recovered@ =~= given.recovery(candidates, refined@, 0).recovered);
    while window < refined.len() - 1
        invariant
            window < refined@.len(),
            given == evidence(stats, blended, config),
            candidates == candidate_indices@,
            stats@.len() == blended@.len(),
            within(candidates, stats@.len() as int),
            candidate_positions@.len() == stats@.len(),
            places(candidate_positions@, candidates),
            forall|k: int| 0 <= k < refined@.len() ==> #[trigger] refined@[k] < usize::MAX,
            0 < config.dense_recovery_target_span_frames,
            chosen_generation@.len() == candidates.len(),
            forall|q: int|
                0 <= q < candidates.len() ==> #[trigger] chosen_generation@[q] <= generation,
            interval_start <= candidates.len(),
            interval_end <= candidates.len(),
            given.recovery(candidates, refined@, window as int) == (Recovery {
                recovered: recovered@,
                interval_start: interval_start as int,
                interval_end: interval_end as int,
            }),
            given.all_known(recovered@),
        decreases refined@.len() - window,
    {
        let ghost before = given.recovery(candidates, refined@, window as int);
        let ghost earlier = recovered@;
        let left: usize = refined[window];
        let right: usize = refined[window + 1];
        let gap: usize = right.saturating_sub(left);
        proof {
            assert(refined@[window + 1] < usize::MAX);
            assert(gap == excess(right as int, left as int));
            assert(given.recovery(candidates, refined@, window + 1) == given.recover_in_gap(
                candidates,
                before,
                left as int,
                right as int,
            ));
        }
        if gap >= config.dense_recovery_min_gap_frames {
            let interval_candidates = dense_recovery_interval(
                stats,
                candidate_indices,
                &mut interval_start,
                &mut interval_end,
                left,
                right,
                Ghost(given),
            );
            if interval_candidates.len() >= config.dense_recovery_min_candidates {
                let filtered = collect_filtered_dense_candidates(
                    interval_candidates,
                    stats,
                    blended,
                    left,
                    right,
                    config,
                );
                proof {
                    assert forall|i: int| #![trigger filtered@[i]] 0 <= i < filtered@.len() implies {
                        let position = candidate_positions@[filtered@[i].index as int];
                        &&& filtered@[i].index < stats@.len()
                        &&& position < candidates.len()
                        &&& candidates[position as int] == filtered@[i]
                    } by {
                        let interval = interval_candidates@;
                        lemma_fitting_is_listed(given, interval, left as int, right as int, i);
                        let k = choose|k: int|
                            0 <= k < interval.len() && #[trigger] interval[k] == filtered@[i];
                        assert(candidates[interval_start + k] == filtered@[i]);
                    }
                }
                if filtered.len() > 0 {
                    let quota: usize = gap / config.dense_recovery_target_span_frames;
                    proof {
                        let target = config.dense_recovery_target_span_frames as int;
                        assert(gap as int / target <= gap) by (nonlinear_arith)
                            requires
                                0 < target,
                                0 <= gap,
                        ;
                    }
                    if quota <= 1 {
                        match best_candidate_index(
                            filtered.as_slice(),
                            stats,
                            blended,
                            Ghost(*config),
                        ) {
                            Some(best) => {
                                recovered.push(stats[best].frame_index);
                                assert(recovered@ =~= earlier + given.frames_of(
                                    seq![given.best(filtered@)],
                                ));
                            },
                            None => {},
                        }
                    } else {
                        generation = generation.wrapping_add(1);
                        if generation == 0 {
                            chosen_generation = vec![0u32; candidate_indices.len()];
                            generation = 1;
                        }
                        let params = DenseRecoverySlotParams {
                            stats,
                            blended,
                            left,
                            gap,
                            max_additions: quota,
                            candidate_positions: candidate_positions.as_slice(),
                            generation,
                        };
                        let mut chosen = select_dense_slot_candidates(
                            filtered.as_slice(),
                            &params,
                            &mut chosen_generation,
                            Ghost(candidates),
                            Ghost(*config),
                        );
                        if chosen.len() < quota {
                            fill_remaining_dense_candidates(
                                &mut chosen,
                                filtered.as_slice(),
                                &params,
                                &mut chosen_generation,
                                Ghost(candidates),
                                Ghost(*config),
                            );
                        }
                        append_frames(&mut recovered, chosen.as_slice(), stats, Ghost(given));
                    }
                }
            }
        }
        window = window + 1;
        proof {
            let after = given.recovery(candidates, refined@, window as int);
            assert(recovered@ =~= after.recovered);
        }
    }
    recovered
}

/// Appends the frames of the given places.
fn append_frames(
    frames: &mut Vec<usize>,
    indices: &[usize],
    stats: &[FrameCutStats],
    Ghost(given): Ghost<Evidence>,
)
    requires
        given.stats == stats@,
        forall|k: int| 0 <= k < indices@.len() ==> #[trigger] indices@[k] < stats@.len(),
        given.all_known(old(frames)@),
    ensures
        final(frames)@ == old(frames)@ + given.frames_of(indices@),
        given.all_known(final(frames)@),
{
    let mut i: usize = 0;
    assert(frames@ =~= old(frames)@ + given.frames_of(indices@.take(0)));
    while i < indices.len()
        invariant
            i <= indices@.len(),
            given.stats == stats@,
            forall|k: int| 0 <= k < indices@.len() ==> #[trigger] indices@[k] < stats@.len(),
            frames@ == old(frames)@ + given.frames_of(indices@.take(i as int)),
            given.all_known(frames@),
        decreases indices@.len() - i,
    {
        let index: usize = indices[i];
        frames.push(stats[index].frame_index);
        i = i + 1;
        assert(frames@ =~= old(frames)@ + given.frames_of(indices@.take(i as int)));
    }
    assert(indices@.take(indices@.len() as int) =~= indices@);
}

impl Ranked for usize {
    open spec fn no_later(self, other: usize) -> bool {
        self <= other
    }

    proof fn no_later_is_total(a: usize, b: usize) {
    }

    proof fn no_later_is_transitive(a: usize, b: usize, c: usize) {
    }

    fn is_no_later(self, other: usize) -> (r: bool) {
        self <= other
    }
}

/// The same frames, each once, in order.
fn sorted_unique(frames: &[usize]) -> (r: Vec<usize>)
    ensures
        ascending(r@),
        forall|frame: usize| #[trigger] r@.contains(frame) <==> frames@.contains(frame),
{
    let sorted = order::sort(frames);
    let mut unique: Vec<usize> = Vec::new();
    let mut i: usize = 0;
    while i < sorted.len()
        invariant
            i <= sorted@.len(),
            order::in_order(sorted@),
            ascending(unique@),
            forall|k: int| 0 <= k < i ==> unique@.contains(#[trigger] sorted@[k]),
            forall|k: int| 0 <= k < unique@.len() ==> sorted@.contains(#[trigger] unique@[k]),
            unique@.len() == 0 <==> i == 0,
            i > 0 ==> unique@.last() == sorted@[i - 1],
        decreases sorted@.len() - i,
    {
        let frame: usize = sorted[i];
        let repeated = unique.len() > 0 && unique[unique.len() - 1] == frame;
        let ghost before = unique@;
        if !repeated {
            proof {
                assert forall|k: int| 0 <= k < before.len() implies #[trigger] before[k] < frame by {
                    if i > 0 {
                        assert(sorted@[i - 1].no_later(sorted@[i as int]));
                    }
                }
            }
            unique.push(frame);
            proof {
                assert(unique@.last() == frame);
                assert forall|k: int| 0 <= k < i implies unique@.contains(#[trigger] sorted@[k]) by {
                    let at = choose|at: int| 0 <= at < before.len() && before[at] == sorted@[k];
                    assert(unique@[at] == sorted@[k]);
                }
            }
        }
        i = i + 1;
    }
    proof {
        sorted@.to_multiset_ensures();
        frames@.to_multiset_ensures();
        assert forall|frame: usize| #[trigger] unique@.contains(frame) <==> frames@.contains(
            frame,
        ) by {
            assert(sorted@.contains(frame) <==> sorted@.to_multiset().count(frame) > 0);
            assert(frames@.contains(frame) <==> frames@.to_multiset().count(frame) > 0);
            if sorted@.contains(frame) {
                let k = choose|k: int| 0 <= k < sorted@.len() && sorted@[k] == frame;
                assert(unique@.contains(sorted@[k]));
            }
        }
    }
    unique
}

proof fn lemma_candidates_differ(given: Evidence, n: int)
    requires
        0 <= n <= given.stats.len() <= usize::MAX,
    ensures
        within(given.candidates(n), n),
        indices_differ(given.candidates(n)),
    decreases n,
{
    if n > 0 {
        lemma_candidates_differ(given, n - 1);
    }
}

proof fn lemma_peaks_start_with_zero(given: Evidence, candidates: Seq<CandidateMeta>, n: int)
    ensures
        given.peaks(candidates, n).len() > 0,
        given.peaks(candidates, n)[0] == 0,
    decreases n,
{
    if n > 0 {
        given.lemma_cluster_start_bounds(candidates, n - 1);
        lemma_peaks_start_with_zero(given, candidates, given.cluster_start(candidates, n - 1));
    }
}

proof fn lemma_baseline(given: Evidence, n: int)
    requires
        0 <= n <= given.stats.len(),
    ensures
        given.baseline(n).len() > 0,
        given.baseline(n)[0] == 0,
        given.all_known(given.baseline(n)),
        given.in_frame_order() ==> ascending(given.baseline(n)) && forall|k: int, i: int|
            0 <= k < given.baseline(n).len() && n <= i < given.stats.len()
                ==> #[trigger] given.baseline(n)[k] < (#[trigger] given.stats[i]).frame_index,
    decreases n,
{
    if n > 0 {
        lemma_baseline(given, n - 1);
        let here = given.stats[n - 1];
    }
}

/// The keyframes of a run.
///
/// `blended` holds, for each frame, the histogram distance plus the configured weight times the
/// median cell distance.
pub fn refine_frame_keyframes_with_config(
    stats: &[FrameCutStats],
    blended: &[Double],
    config: &PostprocessConfig,
) -> (r: Vec<usize>)
    requires
        stats@.len() == blended@.len(),
        stats@.len() < usize::MAX,
        forall|i: int| 0 <= i < stats@.len() ==> (#[trigger] stats@[i]).frame_index < usize::MAX,
        stats@.len() >= config.min_postprocess_frames ==> 0
            < config.dense_recovery_target_span_frames,
    ensures
        evidence(stats, blended, config).settles(r@),
        r@.len() > 0,
        r@[0] == 0,
        evidence(stats, blended, config).all_known(r@),
        evidence(stats, blended, config).in_frame_order() ==> ascending(r@) && forall|k: int|
            0 <= k < r@.len() ==> #[trigger] r@[k] <= if stats@.len() == 0 {
                0
            } else {
                stats@.last().frame_index
            },
{
    let ghost given = evidence(stats, blended, config);
    let ghost candidates = given.candidates(stats@.len() as int);
    let baseline_keyframes = initial_keyframes(stats, config, Ghost(blended@));
    proof {
        lemma_baseline(given, stats@.len() as int);
        lemma_candidates_differ(given, stats@.len() as int);
        lemma_peaks_start_with_zero(given, candidates, candidates.len() as int);
        lemma_known_frames_are_bounded(given, baseline_keyframes@);
    }
    if stats.len() < config.min_postprocess_frames {
        return baseline_keyframes;
    }
    let mut grid_hist: Vec<Double> = Vec::new();
    let mut i: usize = 0;
    while i < stats.len()
        invariant
            i <= stats@.len(),
            grid_hist@.len() == i,
            forall|k: int| 0 <= k < i ==> #[trigger] grid_hist@[k] == stats@[k].grid_hist_distance,
        decreases stats@.len() - i,
    {
        grid_hist.push(stats[i].grid_hist_distance);
        i = i + 1;
    }
    assert(grid_hist@ =~= given.grid_distances());
    let burst_prefix = burst_activity_prefix(stats, blended, config);
    let candidate_indices = collect_candidates(
        stats,
        blended,
        grid_hist.as_slice(),
        burst_prefix.as_slice(),
        config,
    );
    if candidate_indices.len() == 0 {
        return baseline_keyframes;
    }
    let mut refined = select_cluster_peaks(stats, candidate_indices.as_slice(), blended, config);
    let ghost peaks = refined@;
    let mut recovered = recover_dense_candidates(
        stats,
        candidate_indices.as_slice(),
        blended,
        refined.as_slice(),
        config,
    );
    refined.append(&mut recovered);
    let keyframes = sorted_unique(refined.as_slice());
    proof {
        assert(refined@ == given.selection());
        assert forall|k: int| 0 <= k < keyframes@.len() implies given.known(
            #[trigger] keyframes@[k],
        ) by {
            assert(keyframes@.contains(keyframes@[k]));
            let at = choose|at: int| 0 <= at < refined@.len() && refined@[at] == keyframes@[k];
            assert(given.known(refined@[at]));
        }
        assert(refined@[0] == 0);
        assert(refined@.contains(0));
        assert(keyframes@.contains(0));
        lemma_known_frames_are_bounded(given, keyframes@);
    }
    keyframes
}

proof fn lemma_known_frames_are_bounded(given: Evidence, frames: Seq<usize>)
    requires
        given.all_known(frames),
    ensures
        given.in_frame_order() ==> forall|k: int|
            0 <= k < frames.len() ==> #[trigger] frames[k] <= if given.stats.len() == 0 {
                0
            } else {
                given.stats.last().frame_index
            },
{
    if given.in_frame_order() {
        assert forall|k: int| 0 <= k < frames.len() implies #[trigger] frames[k]
            <= if given.stats.len() == 0 {
            0
        } else {
            given.stats.last().frame_index
        } by {
            assert(given.known(frames[k]));
            if frames[k] != 0 {
                let i = choose|i: int|
                    0 <= i < given.stats.len() && (#[trigger] given.stats[i]).frame_index
                        == frames[k];
                if i < given.stats.len() - 1 {
                    assert(given.stats[i].frame_index < given.stats[given.stats.len()
                        - 1].frame_index);
                }
            }
        }
    }
}

/// Candidates come in the order of their frames.
pub open spec fn frames_ascend(given: Evidence, candidates: Seq<CandidateMeta>) -> bool {
    forall|i: int, j: int|
        0 <= i < j < candidates.len() ==> given.frame(#[trigger] candidates[i]) < given.frame(
            #[trigger] candidates[j],
        )
}

/// The search for frames to add looks, in each gap, at the candidates between its two keyframes
/// and at no others.
pub proof fn gaps_are_searched_from_end_to_end(
    given: Evidence,
    candidates: Seq<CandidateMeta>,
    keyframes: Seq<usize>,
    n: int,
    q: int,
)
    requires
        frames_ascend(given, candidates),
        ascending(keyframes),
        0 <= n < keyframes.len() - 1,
        0 <= q < candidates.len(),
    ensures
        ({
            let before = given.recovery(candidates, keyframes, n);
            let start = given.first_after(
                candidates,
                before.interval_start,
                keyframes[n] as int,
            );
            let end = given.first_after(
                candidates,
                sums::maximum(before.interval_end, start),
                keyframes[n + 1] - 1,
            );
            start <= q < end <==> keyframes[n] < given.frame(candidates[q]) < keyframes[n + 1]
        }),
{
    let before = given.recovery(candidates, keyframes, n);
    lemma_search_is_behind(given, candidates, keyframes, n);
    lemma_first_after(given, candidates, before.interval_start, keyframes[n] as int);
    let start = given.first_after(candidates, before.interval_start, keyframes[n] as int);
    lemma_first_after(
        given,
        candidates,
        sums::maximum(before.interval_end, start),
        keyframes[n + 1] - 1,
    );
    let end = given.first_after(
        candidates,
        sums::maximum(before.interval_end, start),
        keyframes[n + 1] - 1,
    );
    let here = candidates[q];
    if start < candidates.len() && q > start {
        assert(given.frame(candidates[start]) < given.frame(candidates[q]));
    }
    if end < candidates.len() && q > end {
        assert(given.frame(candidates[end]) < given.frame(candidates[q]));
    }
}

proof fn lemma_first_after(given: Evidence, candidates: Seq<CandidateMeta>, from: int, bound: int)
    requires
        0 <= from <= candidates.len(),
    ensures
        from <= given.first_after(candidates, from, bound) <= candidates.len(),
        forall|k: int|
            from <= k < given.first_after(candidates, from, bound) ==> given.frame(
                #[trigger] candidates[k],
            ) <= bound,
        given.first_after(candidates, from, bound) < candidates.len() ==> given.frame(
            candidates[given.first_after(candidates, from, bound)],
        ) > bound,
    decreases candidates.len() - from,
{
    if from < candidates.len() && given.frame(candidates[from]) <= bound {
        lemma_first_after(given, candidates, from + 1, bound);
    }
}

/// Before a gap is searched, the search has not gone past its left end.
proof fn lemma_search_is_behind(
    given: Evidence,
    candidates: Seq<CandidateMeta>,
    keyframes: Seq<usize>,
    n: int,
)
    requires
        ascending(keyframes),
        0 <= n < keyframes.len(),
    ensures
        ({
            let before = given.recovery(candidates, keyframes, n);
            &&& 0 <= before.interval_start <= before.interval_end <= candidates.len()
            &&& forall|k: int|
                0 <= k < before.interval_end ==> given.frame(#[trigger] candidates[k])
                    < keyframes[n]
        }),
    decreases n,
{
    if n > 0 {
        lemma_search_is_behind(given, candidates, keyframes, n - 1);
        let before = given.recovery(candidates, keyframes, n - 1);
        let left = keyframes[n - 1] as int;
        let right = keyframes[n] as int;
        assert(left < right);
        lemma_first_after(given, candidates, before.interval_start, left);
        let start = given.first_after(candidates, before.interval_start, left);
        lemma_first_after(
            given,
            candidates,
            sums::maximum(before.interval_end, start),
            right - 1,
        );
    }
}

/// Among candidates there is one to take.
proof fn lemma_best_exists(given: Evidence, candidates: Seq<CandidateMeta>)
    requires
        candidates.len() > 0,
    ensures
        exists|p: int| given.is_best(candidates, p),
    decreases candidates.len(),
{
    let last = candidates.len() - 1;
    if last == 0 {
        let here = candidates[0];
        assert(given.is_best(candidates, 0));
    } else {
        let shorter = candidates.drop_last();
        lemma_best_exists(given, shorter);
        let p = choose|p: int| given.is_best(shorter, p);
        assert(shorter[p] == candidates[p]);
        assert forall|q: int| 0 <= q < shorter.len() implies shorter[q] == #[trigger] candidates[q] by {}
        let newest = candidates[last];
        if newest.is_cut_fallback {
            if !shorter[p].is_cut_fallback {
                assert forall|q: int| 0 <= q < shorter.len() implies !(
                #[trigger] candidates[q]).is_cut_fallback by {
                    assert(shorter[q] == candidates[q]);
                }
                assert(given.is_best(candidates, last));
            } else if given.frame(newest) < given.frame(candidates[p]) {
                assert forall|q: int|
                    0 <= q < candidates.len() && (#[trigger] candidates[q]).is_cut_fallback implies given.frame(newest)
                    < given.frame(candidates[q]) || (given.frame(newest) == given.frame(
                    candidates[q],
                ) && last <= q) by {
                    if q < last {
                        assert(shorter[q].is_cut_fallback);
                    }
                }
                assert(given.is_best(candidates, last));
            } else {
                assert forall|q: int|
                    0 <= q < candidates.len() && (#[trigger] candidates[q]).is_cut_fallback implies given.frame(
                candidates[p]) < given.frame(candidates[q]) || (given.frame(candidates[p])
                    == given.frame(candidates[q]) && p <= q) by {
                    if q < last {
                        assert(shorter[q].is_cut_fallback);
                    }
                }
                assert(given.is_best(candidates, p));
            }
        } else if shorter[p].is_cut_fallback {
            assert forall|q: int|
                0 <= q < candidates.len() && (#[trigger] candidates[q]).is_cut_fallback implies given.frame(
            candidates[p]) < given.frame(candidates[q]) || (given.frame(candidates[p])
                == given.frame(candidates[q]) && p <= q) by {
                assert(shorter[q].is_cut_fallback);
            }
            assert(given.is_best(candidates, p));
        } else {
            assert forall|q: int| 0 <= q < candidates.len() implies !(
            #[trigger] candidates[q]).is_cut_fallback by {
                if q < last {
                    assert(!shorter[q].is_cut_fallback);
                }
            }
            let winner = if given.strength(newest) >= given.strength(candidates[p]) {
                last
            } else {
                p
            };
            assert forall|q: int| 0 <= q < candidates.len() implies given.strength(
                #[trigger] candidates[q],
            ) < given.strength(candidates[winner]) || (given.strength(candidates[q])
                == given.strength(candidates[winner]) && q <= winner) by {
                if q < last {
                    assert(given.strength(shorter[q]) <= given.strength(shorter[p]));
                }
            }
            assert(given.is_best(candidates, winner));
        }
    }
}

/// Among candidates there is exactly one to take.
pub proof fn one_candidate_is_best(given: Evidence, candidates: Seq<CandidateMeta>) -> (p: int)
    requires
        candidates.len() > 0,
    ensures
        given.is_best(candidates, p),
        given.best(candidates) == candidates[p].index,
        forall|q: int| #[trigger] given.is_best(candidates, q) ==> q == p,
{
    lemma_best_exists(given, candidates);
    let p = choose|p: int| given.is_best(candidates, p);
    assert forall|q: int| #[trigger] given.is_best(candidates, q) implies q == p by {
        lemma_best_is_unique(given, candidates, q, p);
    }
    p
}

/// Ascending lists of the same items are the same.
proof fn lemma_ascending_lists_agree(a: Seq<usize>, b: Seq<usize>)
    requires
        ascending(a),
        ascending(b),
        forall|frame: usize| a.contains(frame) <==> #[trigger] b.contains(frame),
    ensures
        a == b,
    decreases a.len(),
{
    if a.len() == 0 {
        if b.len() > 0 {
            assert(b.contains(b[0]));
            assert(a.contains(b[0]));
        }
        assert(a =~= b);
    } else {
        let last = a.last();
        assert(a[a.len() - 1] == last);
        assert(a.contains(last));
        assert(b.contains(last));
        let at = choose|k: int| 0 <= k < b.len() && b[k] == last;
        if at < b.len() - 1 {
            let beyond = b[b.len() - 1];
            assert(b.contains(beyond));
            assert(a.contains(beyond));
            let k = choose|k: int| 0 <= k < a.len() && a[k] == beyond;
            assert(b[at] < beyond);
            assert(a[k] <= last);
        }
        let shorter_a = a.drop_last();
        let shorter_b = b.drop_last();
        assert forall|frame: usize| shorter_a.contains(frame)
            <==> #[trigger] shorter_b.contains(frame) by {
            if shorter_a.contains(frame) {
                let k = choose|k: int| 0 <= k < shorter_a.len() && shorter_a[k] == frame;
                assert(a[k] == frame);
                assert(a.contains(frame));
                assert(b.contains(frame));
                let m = choose|m: int| 0 <= m < b.len() && b[m] == frame;
                assert(a[k] < last);
                assert(shorter_b[m] == frame);
            }
            if shorter_b.contains(frame) {
                let k = choose|k: int| 0 <= k < shorter_b.len() && shorter_b[k] == frame;
                assert(b[k] == frame);
                assert(b.contains(frame));
                assert(a.contains(frame));
                let m = choose|m: int| 0 <= m < a.len() && a[m] == frame;
                assert(b[k] < last);
                assert(shorter_a[m] == frame);
            }
        }
        lemma_ascending_lists_agree(shorter_a, shorter_b);
        assert(a =~= shorter_a.push(last));
        assert(b =~= shorter_b.push(last));
    }
}

/// There is one list of keyframes to report, whoever computes it.
pub proof fn keyframes_are_determined(given: Evidence, a: Seq<usize>, b: Seq<usize>)
    requires
        given.settles(a),
        given.settles(b),
    ensures
        a == b,
{
    if !given.unrefined() {
        assert forall|frame: usize| a.contains(frame) <==> #[trigger] b.contains(frame) by {
            assert(a.contains(frame) <==> given.selection().contains(frame));
        }
        lemma_ascending_lists_agree(a, b);
    }
}

/// Each of `indices` is that of a candidate.
pub open spec fn point_at(indices: Seq<usize>, candidates: Seq<CandidateMeta>) -> bool {
    forall|k: int|
        0 <= k < indices.len() ==> exists|i: int|
            0 <= i < candidates.len() && (#[trigger] candidates[i]).index == #[trigger] indices[k]
}

proof fn lemma_winners(
    given: Evidence,
    candidates: Seq<CandidateMeta>,
    left: int,
    gap: int,
    slots: int,
    n: int,
)
    requires
        0 <= n,
    ensures
        given.winners(candidates, left, gap, slots, n).len() <= n,
        given.winners(candidates, left, gap, slots, n).no_duplicates(),
        point_at(given.winners(candidates, left, gap, slots, n), candidates),
    decreases n,
{
    if n > 0 {
        lemma_winners(given, candidates, left, gap, slots, n - 1);
        lemma_winner_is_listed(
            given,
            candidates,
            candidates.len() as int,
            left,
            gap,
            slots,
            n - 1,
        );
    }
}

proof fn lemma_strongest_left(
    given: Evidence,
    candidates: Seq<CandidateMeta>,
    n: int,
    chosen: Seq<usize>,
)
    requires
        0 <= n <= candidates.len(),
    ensures
        given.strongest_left(candidates, n, chosen) matches Some(best) ==> !chosen.contains(
            best.index,
        ) && exists|i: int| 0 <= i < candidates.len() && #[trigger] candidates[i] == best,
    decreases n,
{
    if n > 0 {
        lemma_strongest_left(given, candidates, n - 1, chosen);
        let here = candidates[n - 1];
    }
}

proof fn lemma_filled(
    given: Evidence,
    candidates: Seq<CandidateMeta>,
    chosen: Seq<usize>,
    limit: int,
)
    requires
        chosen.len() <= limit,
        chosen.no_duplicates(),
        point_at(chosen, candidates),
    ensures
        given.filled(candidates, chosen, limit).len() <= limit,
        given.filled(candidates, chosen, limit).no_duplicates(),
        point_at(given.filled(candidates, chosen, limit), candidates),
    decreases limit - chosen.len(),
{
    if chosen.len() < limit {
        lemma_strongest_left(given, candidates, candidates.len() as int, chosen);
        match given.strongest_left(candidates, candidates.len() as int, chosen) {
            None => {},
            Some(best) => {
                lemma_filled(given, candidates, chosen.push(best.index), limit);
            },
        }
    }
}

/// In each gap at most as many frames are added as the target span allows, each the frame of a
/// candidate that fits.
pub proof fn additions_are_few_and_fit(
    given: Evidence,
    candidates: Seq<CandidateMeta>,
    left: int,
    gap: int,
)
    ensures
        given.additions(candidates, left, gap).len() <= given.allowance(gap),
        forall|k: int|
            0 <= k < given.additions(candidates, left, gap).len() ==> exists|i: int|
                0 <= i < candidates.len() && given.frame(#[trigger] candidates[i])
                    == #[trigger] given.additions(candidates, left, gap)[k],
{
    let limit = given.allowance(gap);
    if candidates.len() > 0 {
        let chosen = if limit == 1 {
            lemma_best_exists(given, candidates);
            let p = choose|p: int| given.is_best(candidates, p);
            let only = seq![given.best(candidates)];
            assert(candidates[p].index == only[0]);
            only
        } else {
            let winners = given.winners(candidates, left, gap, limit + 1, limit);
            lemma_winners(given, candidates, left, gap, limit + 1, limit);
            lemma_filled(given, candidates, winners, limit);
            given.filled(candidates, winners, limit)
        };
        assert(point_at(chosen, candidates));
        let added = given.additions(candidates, left, gap);
        assert forall|k: int| 0 <= k < added.len() implies exists|i: int|
            0 <= i < candidates.len() && given.frame(#[trigger] candidates[i])
                == #[trigger] added[k] by {
            let index = chosen[k];
            let i = choose|i: int|
                0 <= i < candidates.len() && (#[trigger] candidates[i]).index == index;
            assert(given.frame(candidates[i]) == added[k]);
        }
    }
}

/// The active frames around a frame are counted one by one: those within the window whose blended
/// value is high enough.
proof fn lemma_active_frames_are_counted(given: Evidence, i: int, n: int)
    requires
        0 <= i < given.blended.len(),
        0 <= n <= given.blended.len(),
    ensures
        ({
            let window = given.config.temporal_burst_window_frames as int;
            let first = excess(i, window);
            let end = sums::minimum(i + window, given.blended.len() - 1) + 1;
            sums::count(
                n,
                |k: int|
                    sums::distance(k, i) <= window
                        && given.config.temporal_burst_activity_blend_min.at_most(
                        given.blended[k],
                    ),
            ) == sums::count(sums::minimum(n, end), given.active()) - sums::count(
                sums::minimum(n, first),
                given.active(),
            )
        }),
    decreases n,
{
    let window = given.config.temporal_burst_window_frames as int;
    let near = |k: int|
        sums::distance(k, i) <= window
            && given.config.temporal_burst_activity_blend_min.at_most(given.blended[k]);
    if n > 0 {
        lemma_active_frames_are_counted(given, i, n - 1);
        assert(sums::count(n, near) == sums::count(n - 1, near) + sums::indicator(near)(n - 1));
        assert(sums::count(n, given.active()) == sums::count(n - 1, given.active())
            + sums::indicator(given.active())(n - 1));
    }
}

/// A candidate stands for a frame that qualifies, and each frame that qualifies has one.
proof fn lemma_candidates_qualify(given: Evidence, n: int)
    requires
        0 <= n <= given.stats.len() <= usize::MAX,
    ensures
        forall|p: int|
            0 <= p < given.candidates(n).len() ==> {
                let candidate = #[trigger] given.candidates(n)[p];
                &&& candidate.index < n
                &&& given.qualifies(candidate.index as int)
                &&& candidate.is_cut_fallback == given.cut_fallback(candidate.index as int)
            },
        forall|i: int|
            0 <= i < n && #[trigger] given.qualifies(i) ==> exists|p: int|
                0 <= p < given.candidates(n).len() && (#[trigger] given.candidates(n)[p]).index
                    == i,
    decreases n,
{
    if n > 0 {
        lemma_candidates_qualify(given, n - 1);
        let shorter = given.candidates(n - 1);
        let longer = given.candidates(n);
        assert forall|i: int| 0 <= i < n && #[trigger] given.qualifies(i) implies exists|p: int|
            0 <= p < longer.len() && (#[trigger] longer[p]).index == i by {
            if i == n - 1 {
                assert(longer[longer.len() - 1].index == i);
            } else {
                let p = choose|p: int|
                    0 <= p < shorter.len() && (#[trigger] shorter[p]).index == i;
                assert(longer[p].index == i);
            }
        }
    }
}

/// No candidate is a weak frame in a burst of activity. The burst of a frame are the frames within
/// the window around it whose blended value is high enough. Where it is large enough, a cut with a
/// small histogram distance and a low score is weak, and so is a frame that is no cut with a low
/// score and a low blended value; where it is larger still, a low score alone makes a frame weak
/// that is no cut. Nor is a candidate a cut right after a cut outside of a burst.
pub proof fn weak_frames_are_no_candidates(given: Evidence, n: int, p: int, i: int)
    requires
        0 <= n <= given.stats.len() <= usize::MAX,
        given.stats.len() == given.blended.len(),
        0 <= p < given.candidates(n).len(),
        given.candidates(n)[p].index == i,
    ensures
        ({
            let stat = given.stats[i];
            let blended = given.blended[i];
            let config = given.config;
            let near = sums::count(
                given.blended.len() as int,
                |k: int|
                    sums::distance(k, i) <= config.temporal_burst_window_frames
                        && config.temporal_burst_activity_blend_min.at_most(given.blended[k]),
            );
            &&& 0 <= i < n
            &&& !(stat.is_cut && near >= config.temporal_burst_min_count && stat.hist_distance.below(
                config.temporal_burst_raw_hist_max,
            ) && stat.score.below(config.temporal_burst_raw_score_max))
            &&& !(!stat.is_cut && near >= config.temporal_burst_min_count && stat.score.below(
                config.temporal_burst_nonraw_score_max,
            ) && blended.below(config.temporal_burst_nonraw_blend_max))
            &&& !(!stat.is_cut && near >= config.temporal_burst_dense_min_count && stat.score.below(
                config.temporal_burst_dense_nonraw_score_max,
            ))
            &&& !(stat.is_cut && near < config.temporal_burst_min_count && i > 0 && given.stats[i
                - 1].is_cut)
        }),
{
    lemma_candidates_qualify(given, n);
    lemma_active_frames_are_counted(given, i, given.blended.len() as int);
    let candidate = given.candidates(n)[p];
}

/// A candidate stands out: its blended value is high enough and larger than those around it, with
/// a score that is high enough; or its histogram distance is small while its grid distance is
/// large and larger than those around it; or it is a clear cut in a burst, and marked as one.
pub proof fn candidates_stand_out(given: Evidence, n: int, p: int, i: int)
    requires
        0 <= n <= given.stats.len() <= usize::MAX,
        given.stats.len() == given.blended.len(),
        0 <= p < given.candidates(n).len(),
        given.candidates(n)[p].index == i,
    ensures
        ({
            let stat = given.stats[i];
            let blended = given.blended[i];
            let config = given.config;
            let near = sums::count(
                given.blended.len() as int,
                |k: int|
                    sums::distance(k, i) <= config.temporal_burst_window_frames
                        && config.temporal_burst_activity_blend_min.at_most(given.blended[k]),
            );
            let radius = config.candidate_peak_radius as int;
            let clear_cut = stat.is_cut && near >= config.temporal_burst_min_count
                && config.temporal_burst_cut_fallback_score_min.at_most(stat.score)
                && stat.hist_distance.at_most(config.temporal_burst_cut_fallback_hist_max);
            let peak = config.hist_blend_threshold.at_most(blended)
                && config.frames_score_min.at_most(stat.score) && forall|k: int|
                0 <= k < given.blended.len() && k != i && sums::distance(k, i) <= radius
                    ==> !blended.at_most(#[trigger] given.blended[k]);
            let structure = stat.hist_distance.at_most(config.structure_hist_max)
                && config.structure_grid_hist_min.at_most(stat.grid_hist_distance) && forall|k: int|
                0 <= k < given.stats.len() && k != i && sums::distance(k, i) <= radius
                    ==> !stat.grid_hist_distance.at_most(
                    (#[trigger] given.stats[k]).grid_hist_distance,
                );
            &&& peak || structure || clear_cut
            &&& given.candidates(n)[p].is_cut_fallback <==> clear_cut
        }),
{
    lemma_candidates_qualify(given, n);
    lemma_active_frames_are_counted(given, i, given.blended.len() as int);
    let candidate = given.candidates(n)[p];
    if given.structural(i) {
        assert forall|k: int|
            0 <= k < given.stats.len() && k != i && sums::distance(k, i)
                <= given.config.candidate_peak_radius implies !given.stats[i].grid_hist_distance.at_most(
            (#[trigger] given.stats[k]).grid_hist_distance) by {
            assert(!given.grid_distances()[i].at_most(given.grid_distances()[k]));
        }
    }
}

/// A frame that stands out and is not weak is a candidate.
pub proof fn frames_that_stand_out_are_candidates(given: Evidence, n: int, i: int)
    requires
        0 <= i < n <= given.stats.len() <= usize::MAX,
        given.stats.len() == given.blended.len(),
        ({
            let stat = given.stats[i];
            let blended = given.blended[i];
            let config = given.config;
            let near = sums::count(
                given.blended.len() as int,
                |k: int|
                    sums::distance(k, i) <= config.temporal_burst_window_frames
                        && config.temporal_burst_activity_blend_min.at_most(given.blended[k]),
            );
            let radius = config.candidate_peak_radius as int;
            let clear_cut = stat.is_cut && near >= config.temporal_burst_min_count
                && config.temporal_burst_cut_fallback_score_min.at_most(stat.score)
                && stat.hist_distance.at_most(config.temporal_burst_cut_fallback_hist_max);
            let peak = config.hist_blend_threshold.at_most(blended)
                && config.frames_score_min.at_most(stat.score) && forall|k: int|
                0 <= k < given.blended.len() && k != i && sums::distance(k, i) <= radius
                    ==> !blended.at_most(#[trigger] given.blended[k]);
            let structure = stat.hist_distance.at_most(config.structure_hist_max)
                && config.structure_grid_hist_min.at_most(stat.grid_hist_distance) && forall|k: int|
                0 <= k < given.stats.len() && k != i && sums::distance(k, i) <= radius
                    ==> !stat.grid_hist_distance.at_most(
                    (#[trigger] given.stats[k]).grid_hist_distance,
                );
            let weak_cut = near >= config.temporal_burst_min_count && stat.hist_distance.below(
                config.temporal_burst_raw_hist_max,
            ) && stat.score.below(config.temporal_burst_raw_score_max);
            let second_cut = near < config.temporal_burst_min_count && i > 0 && given.stats[i
                - 1].is_cut;
            let weak = near >= config.temporal_burst_min_count && stat.score.below(
                config.temporal_burst_nonraw_score_max,
            ) && blended.below(config.temporal_burst_nonraw_blend_max);
            let crowded = near >= config.temporal_burst_dense_min_count && stat.score.below(
                config.temporal_burst_dense_nonraw_score_max,
            );
            &&& peak || structure || clear_cut
            &&& if stat.is_cut {
                !weak_cut && !second_cut
            } else {
                !weak && !crowded
            }
        }),
    ensures
        exists|p: int|
            0 <= p < given.candidates(n).len() && (#[trigger] given.candidates(n)[p]).index == i,
{
    lemma_candidates_qualify(given, n);
    lemma_active_frames_are_counted(given, i, given.blended.len() as int);
    let distances = given.grid_distances();
    if !given.primary(i) && !given.cut_fallback(i) {
        assert forall|k: int|
            0 <= k < distances.len() && k != i && i - given.config.candidate_peak_radius <= k <= i
                + given.config.candidate_peak_radius implies !distances[i].at_most(
            #[trigger] distances[k],
        ) by {
            let here = given.stats[k];
        }
    }
    assert(given.qualifies(i));
}

/// Where there are too few frames, or no frame stands out, the keyframes are frame 0, the cuts,
/// and the frames with a large histogram distance.
pub proof fn short_runs_report_cuts_and_large_distances(
    given: Evidence,
    keyframes: Seq<usize>,
    i: int,
)
    requires
        given.settles(keyframes),
        given.in_frame_order(),
        given.stats.len() < given.config.min_postprocess_frames || given.candidates(
            given.stats.len() as int,
        ).len() == 0,
        0 <= i < given.stats.len(),
    ensures
        keyframes.contains(0),
        keyframes.contains(given.stats[i].frame_index) <==> given.stats[i].is_cut
            || given.config.hist_blend_threshold.at_most(given.stats[i].hist_distance),
        given.all_known(keyframes),
        ascending(keyframes),
{
    let n = given.stats.len() as int;
    lemma_baseline(given, n);
    lemma_baseline_holds(given, n, i);
    assert(keyframes[0] == 0);
}

proof fn lemma_baseline_holds(given: Evidence, n: int, i: int)
    requires
        given.in_frame_order(),
        0 <= n <= given.stats.len(),
        0 <= i < given.stats.len(),
    ensures
        given.baseline(n).contains(given.stats[i].frame_index) <==> i < n && (given.stats[i].is_cut
            || given.config.hist_blend_threshold.at_most(given.stats[i].hist_distance)),
    decreases n,
{
    let frame = given.stats[i].frame_index;
    if n > 0 {
        lemma_baseline_holds(given, n - 1, i);
        let shorter = given.baseline(n - 1);
        let longer = given.baseline(n);
        let newest = given.stats[n - 1];
        if longer.contains(frame) && !shorter.contains(frame) {
            let k = choose|k: int| 0 <= k < longer.len() && longer[k] == frame;
            assert(k == shorter.len());
            assert(newest.frame_index == frame);
            assert(i == n - 1);
        }
        if shorter.contains(frame) {
            let k = choose|k: int| 0 <= k < shorter.len() && shorter[k] == frame;
            assert(longer[k] == frame);
        }
        if i == n - 1 && longer.len() > shorter.len() {
            assert(longer[longer.len() - 1] == frame);
        }
    } else {
        assert(given.baseline(n) =~= seq![0usize]);
    }
}

/// Otherwise the keyframes are the frames of the clusters and the frames added between them, and
/// no others, in ascending order.
pub proof fn longer_runs_report_clusters_and_additions(
    given: Evidence,
    keyframes: Seq<usize>,
    frame: usize,
)
    requires
        given.settles(keyframes),
        given.stats.len() >= given.config.min_postprocess_frames,
        given.candidates(given.stats.len() as int).len() > 0,
    ensures
        ({
            let candidates = given.candidates(given.stats.len() as int);
            let peaks = given.peaks(candidates, candidates.len() as int);
            let added = given.recovery(candidates, peaks, peaks.len() - 1).recovered;
            &&& ascending(keyframes)
            &&& keyframes.contains(frame) <==> peaks.contains(frame) || added.contains(frame)
        }),
{
    let candidates = given.candidates(given.stats.len() as int);
    let peaks = given.peaks(candidates, candidates.len() as int);
    let added = given.recovery(candidates, peaks, peaks.len() - 1).recovered;
    let all = peaks + added;
    assert(keyframes.contains(frame) <==> given.selection().contains(frame));
    if all.contains(frame) {
        let k = choose|k: int| 0 <= k < all.len() && all[k] == frame;
        if k < peaks.len() {
            assert(peaks[k] == frame);
        } else {
            assert(added[k - peaks.len()] == frame);
        }
    }
    if peaks.contains(frame) {
        let k = choose|k: int| 0 <= k < peaks.len() && peaks[k] == frame;
        assert(all[k] == frame);
    }
    if added.contains(frame) {
        let k = choose|k: int| 0 <= k < added.len() && added[k] == frame;
        assert(all[peaks.len() + k] == frame);
    }
}

/// Of some candidates the one is taken that is marked as a clear cut and comes first, or, where
/// none is marked, the one with the highest blended value, the last of several.
pub proof fn the_first_clear_cut_or_the_highest_is_taken(
    given: Evidence,
    candidates: Seq<CandidateMeta>,
) -> (p: int)
    requires
        candidates.len() > 0,
    ensures
        0 <= p < candidates.len(),
        given.best(candidates) == candidates[p].index,
        forall|q: int|
            0 <= q < candidates.len() && (#[trigger] candidates[q]).is_cut_fallback ==> {
                &&& candidates[p].is_cut_fallback
                &&& given.stats[candidates[p].index as int].frame_index
                    <= given.stats[candidates[q].index as int].frame_index
            },
        !candidates[p].is_cut_fallback ==> forall|q: int|
            0 <= q < candidates.len() ==> {
                let own = given.blended[candidates[p].index as int].total_rank();
                let other = given.blended[(#[trigger] candidates[q]).index as int].total_rank();
                other < own || (other == own && q <= p)
            },
{
    let p = one_candidate_is_best(given, candidates);
    assert forall|q: int|
        0 <= q < candidates.len() && (#[trigger] candidates[q]).is_cut_fallback implies {
        &&& candidates[p].is_cut_fallback
        &&& given.stats[candidates[p].index as int].frame_index
            <= given.stats[candidates[q].index as int].frame_index
    } by {
        assert(given.frame(candidates[p]) <= given.frame(candidates[q]));
    }
    if !candidates[p].is_cut_fallback {
        assert forall|q: int| 0 <= q < candidates.len() implies {
            let own = given.blended[candidates[p].index as int].total_rank();
            let other = given.blended[(#[trigger] candidates[q]).index as int].total_rank();
            other < own || (other == own && q <= p)
        } by {
            assert(given.strength(candidates[q]) <= given.strength(candidates[p]));
        }
    }
    p
}

/// The candidates from `s` up to `e` make up a cluster: each follows the one before it in less
/// than the configured gap, and the cluster is that far from its neighbours.
pub open spec fn is_cluster(given: Evidence, candidates: Seq<CandidateMeta>, s: int, e: int) -> bool {
    let frame = |q: int| given.stats[candidates[q].index as int].frame_index as int;
    let gap = given.config.cluster_gap_frames as int;
    &&& 0 <= s < e <= candidates.len()
    &&& s == 0 || frame(s) - frame(s - 1) >= gap
    &&& e == candidates.len() || frame(e) - frame(e - 1) >= gap
    &&& forall|q: int| #![trigger candidates[q]] s < q < e ==> frame(q) - frame(q - 1) < gap
}

proof fn lemma_cluster_starts(given: Evidence, candidates: Seq<CandidateMeta>, s: int, e: int, q: int)
    requires
        frames_ascend(given, candidates),
        is_cluster(given, candidates, s, e),
        s <= q < e,
    ensures
        given.cluster_start(candidates, q) == s,
    decreases q - s,
{
    let here = candidates[q];
    if q > s {
        assert(given.frame(candidates[q - 1]) < given.frame(candidates[q]));
        assert(!given.starts_cluster(candidates, q));
        lemma_cluster_starts(given, candidates, s, e, q - 1);
    } else if s > 0 {
        assert(given.frame(candidates[s - 1]) < given.frame(candidates[s]));
    }
}

proof fn lemma_later_clusters_keep_peaks(
    given: Evidence,
    candidates: Seq<CandidateMeta>,
    e: int,
    n: int,
    frame: usize,
)
    requires
        0 <= e <= n <= candidates.len(),
        e == n || given.starts_cluster(candidates, e),
        given.peaks(candidates, e).contains(frame),
    ensures
        given.peaks(candidates, n).contains(frame),
    decreases n,
{
    if e < n {
        lemma_start_is_not_before(given, candidates, e, n - 1);
        let start = given.cluster_start(candidates, n - 1);
        given.lemma_cluster_start_bounds(candidates, n - 1);
        lemma_later_clusters_keep_peaks(given, candidates, e, start, frame);
        let shorter = given.peaks(candidates, start);
        let longer = given.peaks(candidates, n);
        let k = choose|k: int| 0 <= k < shorter.len() && shorter[k] == frame;
        assert(longer[k] == frame);
    }
}

proof fn lemma_start_is_not_before(
    given: Evidence,
    candidates: Seq<CandidateMeta>,
    e: int,
    q: int,
)
    requires
        0 <= e <= q,
        given.starts_cluster(candidates, e),
    ensures
        e <= given.cluster_start(candidates, q) <= q,
        given.starts_cluster(candidates, given.cluster_start(candidates, q)),
    decreases q,
{
    if !given.starts_cluster(candidates, q) {
        lemma_start_is_not_before(given, candidates, e, q - 1);
    }
}

/// The candidate at `p` is the one to take among those from `s` up to `e`.
proof fn lemma_best_of_range(
    given: Evidence,
    candidates: Seq<CandidateMeta>,
    s: int,
    e: int,
    p: int,
)
    requires
        frames_ascend(given, candidates),
        0 <= s <= p < e <= candidates.len(),
        ({
            let own = candidates[p];
            if exists|q: int| s <= q < e && (#[trigger] candidates[q]).is_cut_fallback {
                own.is_cut_fallback && forall|q: int|
                    s <= q < p ==> !(#[trigger] candidates[q]).is_cut_fallback
            } else {
                forall|q: int|
                    s <= q < e ==> {
                        let rank = given.blended[own.index as int].total_rank();
                        let other =
                            given.blended[(#[trigger] candidates[q]).index as int].total_rank();
                        other < rank || (other == rank && q <= p)
                    }
            }
        }),
    ensures
        given.best(candidates.subrange(s, e)) == candidates[p].index,
{
    let cluster = candidates.subrange(s, e);
    let best = the_first_clear_cut_or_the_highest_is_taken(given, cluster);
    assert(cluster[best] == candidates[s + best]);
    assert(cluster[p - s] == candidates[p]);
    if exists|q: int| s <= q < e && (#[trigger] candidates[q]).is_cut_fallback {
        assert(cluster[p - s].is_cut_fallback);
        assert(cluster[best].is_cut_fallback);
        assert(candidates[s + best].is_cut_fallback);
        assert(s + best >= p);
        if s + best > p {
            assert(given.frame(candidates[p]) < given.frame(candidates[s + best]));
            assert(given.stats[cluster[best].index as int].frame_index
                <= given.stats[cluster[p - s].index as int].frame_index);
        }
    } else {
        assert(!candidates[s + best].is_cut_fallback);
        assert(given.blended[cluster[p - s].index as int].total_rank()
            <= given.blended[cluster[best].index as int].total_rank());
        let here = candidates[s + best];
    }
    assert(s + best == p);
}

/// Each cluster of candidates gives one keyframe: that of its first clear cut, or, without one,
/// of its highest blended value.
pub proof fn each_cluster_gives_a_keyframe(
    given: Evidence,
    keyframes: Seq<usize>,
    s: int,
    e: int,
    p: int,
)
    requires
        given.settles(keyframes),
        given.in_frame_order(),
        given.stats.len() <= usize::MAX,
        given.stats.len() >= given.config.min_postprocess_frames,
        is_cluster(given, given.candidates(given.stats.len() as int), s, e),
        s <= p < e,
        ({
            let candidates = given.candidates(given.stats.len() as int);
            let own = candidates[p];
            if exists|q: int| s <= q < e && (#[trigger] candidates[q]).is_cut_fallback {
                own.is_cut_fallback && forall|q: int|
                    s <= q < p ==> !(#[trigger] candidates[q]).is_cut_fallback
            } else {
                forall|q: int|
                    s <= q < e ==> {
                        let rank = given.blended[own.index as int].total_rank();
                        let other =
                            given.blended[(#[trigger] candidates[q]).index as int].total_rank();
                        other < rank || (other == rank && q <= p)
                    }
            }
        }),
    ensures
        keyframes.contains(
            given.stats[given.candidates(
                given.stats.len() as int,
            )[p].index as int].frame_index,
        ),
{
    let candidates = given.candidates(given.stats.len() as int);
    let frame = given.stats[candidates[p].index as int].frame_index;
    lemma_candidates_ascend(given, given.stats.len() as int);
    lemma_cluster_starts(given, candidates, s, e, e - 1);
    lemma_best_of_range(given, candidates, s, e, p);
    let peaks = given.peaks(candidates, e);
    assert(peaks == given.peaks(candidates, s).push(frame));
    assert(peaks[peaks.len() - 1] == frame);
    if e < candidates.len() {
        assert(given.frame(candidates[e - 1]) < given.frame(candidates[e]));
    }
    lemma_later_clusters_keep_peaks(given, candidates, e, candidates.len() as int, frame);
    longer_runs_report_clusters_and_additions(given, keyframes, frame);
}

/// Candidates come in the order of their frames.
proof fn lemma_candidates_ascend(given: Evidence, n: int)
    requires
        given.in_frame_order(),
        0 <= n <= given.stats.len() <= usize::MAX,
    ensures
        frames_ascend(given, given.candidates(n)),
        within(given.candidates(n), n),
    decreases n,
{
    lemma_candidates_differ(given, n);
    if n > 0 {
        lemma_candidates_ascend(given, n - 1);
        let shorter = given.candidates(n - 1);
        let longer = given.candidates(n);
        assert forall|i: int, j: int| 0 <= i < j < longer.len() implies given.frame(
            #[trigger] longer[i],
        ) < given.frame(#[trigger] longer[j]) by {
            assert(longer[i] == shorter[i]);
            if j < shorter.len() {
                assert(longer[j] == shorter[j]);
            } else {
                assert(given.stats[shorter[i].index as int].frame_index < given.stats[n
                    - 1].frame_index);
            }
        }
    }
}

proof fn lemma_starts_are_clusters(given: Evidence, candidates: Seq<CandidateMeta>, n: int, q: int)
    requires
        frames_ascend(given, candidates),
        0 <= q < n <= candidates.len(),
        n == candidates.len() || given.starts_cluster(candidates, n),
        forall|k: int| q < k < n ==> !#[trigger] given.starts_cluster(candidates, k),
    ensures
        is_cluster(given, candidates, given.cluster_start(candidates, q), n),
        given.starts_cluster(candidates, given.cluster_start(candidates, q)),
    decreases q,
{
    if given.starts_cluster(candidates, q) {
        if q > 0 {
            assert(given.frame(candidates[q - 1]) < given.frame(candidates[q]));
        }
        if n < candidates.len() {
            assert(given.frame(candidates[n - 1]) < given.frame(candidates[n]));
        }
        assert forall|k: int| #![trigger candidates[k]] q < k < n implies given.frame(candidates[k])
            - given.frame(candidates[k - 1]) < given.config.cluster_gap_frames by {
            assert(!given.starts_cluster(candidates, k));
            assert(given.frame(candidates[k - 1]) < given.frame(candidates[k]));
        }
    } else {
        lemma_starts_are_clusters(given, candidates, n, q - 1);
    }
}

/// Besides frame 0 and what is added in gaps, each keyframe is the one that a cluster of candidates
/// gives.
pub proof fn peaks_are_given_by_clusters(
    given: Evidence,
    candidates: Seq<CandidateMeta>,
    n: int,
    frame: usize,
)
    requires
        frames_ascend(given, candidates),
        0 <= n <= candidates.len(),
        n == candidates.len() || given.starts_cluster(candidates, n),
        given.peaks(candidates, n).contains(frame),
    ensures
        frame == 0 || exists|s: int, e: int| #[trigger]
            is_cluster(given, candidates, s, e) && frame == given.stats[given.best(
                candidates.subrange(s, e),
            ) as int].frame_index,
    decreases n,
{
    let peaks = given.peaks(candidates, n);
    let k = choose|k: int| 0 <= k < peaks.len() && peaks[k] == frame;
    if n > 0 {
        lemma_starts_are_clusters(given, candidates, n, n - 1);
        let start = given.cluster_start(candidates, n - 1);
        given.lemma_cluster_start_bounds(candidates, n - 1);
        let shorter = given.peaks(candidates, start);
        if k < shorter.len() {
            assert(shorter[k] == frame);
            peaks_are_given_by_clusters(given, candidates, start, frame);
        } else {
            assert(is_cluster(given, candidates, start, n));
        }
    }
}

proof fn lemma_fitting_fit(
    given: Evidence,
    candidates: Seq<CandidateMeta>,
    left: int,
    right: int,
)
    ensures
        forall|i: int|
            0 <= i < given.fitting(candidates, left, right).len() ==> given.fits_gap(
                #[trigger] given.fitting(candidates, left, right)[i],
                left,
                right,
            ),
    decreases candidates.len(),
{
    if candidates.len() > 0 {
        lemma_fitting_fit(given, candidates.drop_last(), left, right);
        let others = given.fitting(candidates.drop_last(), left, right);
        let all = given.fitting(candidates, left, right);
        assert forall|i: int| 0 <= i < all.len() implies given.fits_gap(
            #[trigger] all[i],
            left,
            right,
        ) by {
            if i < others.len() {
                assert(all[i] == others[i]);
            }
        }
    }
}

/// A frame is added only in a long enough gap between two neighbouring keyframes with enough
/// candidates in it, far enough from both of them, and only where a candidate stands for it whose
/// blended value and score are high enough.
pub proof fn additions_fit_into_a_long_gap(
    given: Evidence,
    candidates: Seq<CandidateMeta>,
    keyframes: Seq<usize>,
    n: int,
    frame: usize,
)
    requires
        frames_ascend(given, candidates),
        ascending(keyframes),
        0 <= n < keyframes.len(),
        given.recovery(candidates, keyframes, n).recovered.contains(frame),
    ensures
        exists|m: int, q: int|
            #![trigger keyframes[m], candidates[q]]
            0 <= m < n && 0 <= q < candidates.len() && {
                let stat = given.stats[candidates[q].index as int];
                let margin = given.config.dense_recovery_margin_frames as int;
                &&& stat.frame_index == frame
                &&& keyframes[m + 1] - keyframes[m] >= given.config.dense_recovery_min_gap_frames
                &&& keyframes[m] < frame < keyframes[m + 1]
                &&& keyframes[m] + margin <= frame <= keyframes[m + 1] - margin
                &&& given.config.dense_recovery_blend_min.at_most(
                    given.blended[candidates[q].index as int],
                )
                &&& given.config.dense_recovery_score_min.at_most(stat.score)
                &&& sums::count(
                    candidates.len() as int,
                    |c: int| keyframes[m] < given.frame(candidates[c]) < keyframes[m + 1],
                ) >= given.config.dense_recovery_min_candidates
            },
    decreases n,
{
    if n > 0 {
        let before = given.recovery(candidates, keyframes, n - 1);
        let after = given.recovery(candidates, keyframes, n);
        let left = keyframes[n - 1] as int;
        let right = keyframes[n] as int;
        let k = choose|k: int| 0 <= k < after.recovered.len() && after.recovered[k] == frame;
        assert(left < right);
        if k < before.recovered.len() {
            assert(before.recovered[k] == frame);
            additions_fit_into_a_long_gap(given, candidates, keyframes, n - 1, frame);
        } else {
            let gap = excess(right, left);
            let start = given.first_after(candidates, before.interval_start, left);
            let end = given.first_after(
                candidates,
                sums::maximum(before.interval_end, start),
                right - 1,
            );
            lemma_search_is_behind(given, candidates, keyframes, n - 1);
            lemma_first_after(given, candidates, before.interval_start, left);
            lemma_first_after(
                given,
                candidates,
                sums::maximum(before.interval_end, start),
                right - 1,
            );
            let interval = candidates.subrange(start, end);
            let fit = given.fitting(interval, left, right);
            let added = given.additions(fit, left, gap);
            assert(added[k - before.recovered.len()] == frame);
            additions_are_few_and_fit(given, fit, left, gap);
            let i = choose|i: int|
                0 <= i < fit.len() && given.frame(#[trigger] fit[i]) == frame;
            lemma_fitting_fit(given, interval, left, right);
            assert(given.fits_gap(fit[i], left, right));
            lemma_fitting_is_listed(given, interval, left, right, i);
            let at = choose|at: int|
                0 <= at < interval.len() && #[trigger] interval[at] == fit[i];
            let q = start + at;
            assert(candidates[q] == fit[i]);
            gaps_are_searched_from_end_to_end(given, candidates, keyframes, n - 1, q);
            let inside = |c: int| left < given.frame(candidates[c]) < right;
            assert forall|c: int| 0 <= c < candidates.len() implies (#[trigger] inside(c)
                <==> start <= c < end) by {
                gaps_are_searched_from_end_to_end(given, candidates, keyframes, n - 1, c);
            }
            lemma_range_is_counted(candidates.len() as int, inside, start, end);
            let m = n - 1;
            assert(keyframes[m + 1] == right && keyframes[m] == left);
            sums::lemma_sum_same(
                candidates.len() as int,
                sums::indicator(inside),
                sums::indicator(
                    |c: int| keyframes[m] < given.frame(candidates[c]) < keyframes[m + 1],
                ),
            );
            assert(candidates[q] == fit[i] && keyframes[m] == left);
        }
    }
}

proof fn lemma_range_is_counted(n: int, p: spec_fn(int) -> bool, start: int, end: int)
    requires
        0 <= start <= end,
        0 <= n,
        forall|c: int| 0 <= c < n ==> (#[trigger] p(c) <==> start <= c < end),
    ensures
        sums::count(n, p) == sums::minimum(n, end) - sums::minimum(n, start),
    decreases n,
{
    if n > 0 {
        lemma_range_is_counted(n - 1, p, start, end);
        assert(sums::count(n, p) == sums::count(n - 1, p) + sums::indicator(p)(n - 1));
        assert(p(n - 1) <==> start <= n - 1 < end);
    }
}

proof fn lemma_peaks_ascend(given: Evidence, candidates: Seq<CandidateMeta>, n: int)
    requires
        given.in_frame_order(),
        frames_ascend(given, candidates),
        within(candidates, given.stats.len() as int),
        0 <= n <= candidates.len(),
    ensures
        ascending(given.peaks(candidates, n)),
        given.peaks(candidates, n).len() > 0,
        forall|k: int, q: int|
            0 <= k < given.peaks(candidates, n).len() && n <= q < candidates.len()
                ==> #[trigger] given.peaks(candidates, n)[k] < given.frame(
                #[trigger] candidates[q],
            ),
    decreases n,
{
    if n > 0 {
        let start = given.cluster_start(candidates, n - 1);
        given.lemma_cluster_start_bounds(candidates, n - 1);
        lemma_peaks_ascend(given, candidates, start);
        let cluster = candidates.subrange(start, n);
        let p = the_first_clear_cut_or_the_highest_is_taken(given, cluster);
        assert(cluster[p] == candidates[start + p]);
        let shorter = given.peaks(candidates, start);
        let longer = given.peaks(candidates, n);
        assert(longer == shorter.push(given.stats[cluster[p].index as int].frame_index));
        assert forall|k: int, q: int|
            0 <= k < longer.len() && n <= q < candidates.len() implies #[trigger] longer[k]
            < given.frame(#[trigger] candidates[q]) by {
            if k < shorter.len() {
                assert(shorter[k] < given.frame(candidates[q]));
            } else {
                assert(given.frame(candidates[start + p]) < given.frame(candidates[q]));
            }
        }
        assert forall|i: int, j: int| 0 <= i < j < longer.len() implies longer[i] < longer[j] by {
            if j == shorter.len() {
                assert(shorter[i] < given.frame(candidates[start + p]));
            }
        }
    } else {
        assert forall|q: int| 0 <= q < candidates.len() implies 0 < given.frame(
            #[trigger] candidates[q],
        ) by {
            assert(0 < given.stats[candidates[q].index as int].frame_index);
        }
    }
}

/// Where there are enough frames and candidates to choose from, each keyframe but frame 0 is the
/// frame of a candidate.
pub proof fn keyframes_are_candidates(given: Evidence, keyframes: Seq<usize>, frame: usize)
    requires
        given.settles(keyframes),
        given.in_frame_order(),
        given.stats.len() <= usize::MAX,
        given.stats.len() >= given.config.min_postprocess_frames,
        given.candidates(given.stats.len() as int).len() > 0,
        keyframes.contains(frame),
    ensures
        frame == 0 || exists|q: int|
            0 <= q < given.candidates(given.stats.len() as int).len() && given.stats[(
            #[trigger] given.candidates(given.stats.len() as int)[q]).index as int].frame_index
                == frame,
{
    let candidates = given.candidates(given.stats.len() as int);
    let n = candidates.len() as int;
    let peaks = given.peaks(candidates, n);
    lemma_candidates_ascend(given, given.stats.len() as int);
    lemma_peaks_ascend(given, candidates, n);
    longer_runs_report_clusters_and_additions(given, keyframes, frame);
    if peaks.contains(frame) {
        peaks_are_given_by_clusters(given, candidates, n, frame);
        if frame != 0 {
            let (s, e) = choose|s: int, e: int| #[trigger]
                is_cluster(given, candidates, s, e) && frame == given.stats[given.best(
                    candidates.subrange(s, e),
                ) as int].frame_index;
            let cluster = candidates.subrange(s, e);
            let p = the_first_clear_cut_or_the_highest_is_taken(given, cluster);
            assert(candidates[s + p] == cluster[p]);
        }
    } else {
        additions_fit_into_a_long_gap(given, candidates, peaks, peaks.len() - 1, frame);
        let (m, q) = choose|m: int, q: int|
            #![trigger peaks[m], candidates[q]]
            0 <= m < peaks.len() - 1 && 0 <= q < candidates.len() && {
                let stat = given.stats[candidates[q].index as int];
                let margin = given.config.dense_recovery_margin_frames as int;
                &&& stat.frame_index == frame
                &&& peaks[m + 1] - peaks[m] >= given.config.dense_recovery_min_gap_frames
                &&& peaks[m] < frame < peaks[m + 1]
                &&& peaks[m] + margin <= frame <= peaks[m + 1] - margin
                &&& given.config.dense_recovery_blend_min.at_most(
                    given.blended[candidates[q].index as int],
                )
                &&& given.config.dense_recovery_score_min.at_most(stat.score)
                &&& sums::count(
                    candidates.len() as int,
                    |c: int| peaks[m] < given.frame(candidates[c]) < peaks[m + 1],
                ) >= given.config.dense_recovery_min_candidates
            };
        assert(given.stats[candidates[q].index as int].frame_index == frame);
    }
}

/// Where there are enough frames and candidates to choose from, no weak frame in a burst of
/// activity is a keyframe.
pub proof fn weak_frames_are_no_keyframes(given: Evidence, keyframes: Seq<usize>, i: int)
    requires
        given.settles(keyframes),
        given.in_frame_order(),
        given.stats.len() == given.blended.len(),
        given.stats.len() <= usize::MAX,
        given.stats.len() >= given.config.min_postprocess_frames,
        given.candidates(given.stats.len() as int).len() > 0,
        0 <= i < given.stats.len(),
        ({
            let stat = given.stats[i];
            let blended = given.blended[i];
            let config = given.config;
            let near = sums::count(
                given.blended.len() as int,
                |k: int|
                    sums::distance(k, i) <= config.temporal_burst_window_frames
                        && config.temporal_burst_activity_blend_min.at_most(given.blended[k]),
            );
            ||| stat.is_cut && near >= config.temporal_burst_min_count && stat.hist_distance.below(
                config.temporal_burst_raw_hist_max,
            ) && stat.score.below(config.temporal_burst_raw_score_max)
            ||| !stat.is_cut && near >= config.temporal_burst_min_count && stat.score.below(
                config.temporal_burst_nonraw_score_max,
            ) && blended.below(config.temporal_burst_nonraw_blend_max)
            ||| !stat.is_cut && near >= config.temporal_burst_dense_min_count && stat.score.below(
                config.temporal_burst_dense_nonraw_score_max,
            )
            ||| stat.is_cut && near < config.temporal_burst_min_count && i > 0 && given.stats[i
                - 1].is_cut
        }),
    ensures
        !keyframes.contains(given.stats[i].frame_index),
{
    let n = given.stats.len() as int;
    let frame = given.stats[i].frame_index;
    let candidates = given.candidates(n);
    if keyframes.contains(frame) {
        keyframes_are_candidates(given, keyframes, frame);
        let q = choose|q: int|
            0 <= q < candidates.len() && given.stats[(
            #[trigger] candidates[q]).index as int].frame_index == frame;
        lemma_candidates_differ(given, n);
        let at = candidates[q].index as int;
        if at < i {
            assert(given.stats[at].frame_index < given.stats[i].frame_index);
        } else if at > i {
            assert(given.stats[i].frame_index < given.stats[at].frame_index);
        }
        weak_frames_are_no_candidates(given, n, q, i);
    }
}

/// Whatever is strong enough and far enough from both ends fits into a gap, and nothing else
/// does.
pub proof fn what_fits_is_strong_and_apart(
    given: Evidence,
    candidates: Seq<CandidateMeta>,
    left: int,
    right: int,
    q: int,
)
    requires
        0 <= q < candidates.len(),
        indices_differ(candidates),
        left <= given.stats[candidates[q].index as int].frame_index <= right,
    ensures
        given.fitting(candidates, left, right).contains(candidates[q]) <==> {
            let stat = given.stats[candidates[q].index as int];
            let margin = given.config.dense_recovery_margin_frames as int;
            &&& left + margin <= stat.frame_index <= right - margin
            &&& given.config.dense_recovery_blend_min.at_most(
                given.blended[candidates[q].index as int],
            )
            &&& given.config.dense_recovery_score_min.at_most(stat.score)
        },
{
    let all = given.fitting(candidates, left, right);
    lemma_fitting_fit(given, candidates, left, right);
    if all.contains(candidates[q]) {
        let i = choose|i: int| 0 <= i < all.len() && all[i] == candidates[q];
        assert(given.fits_gap(all[i], left, right));
    }
    if given.fits_gap(candidates[q], left, right) {
        lemma_fitting_takes_all(given, candidates, left, right, q);
    }
}

proof fn lemma_fitting_takes_all(
    given: Evidence,
    candidates: Seq<CandidateMeta>,
    left: int,
    right: int,
    q: int,
)
    requires
        0 <= q < candidates.len(),
        given.fits_gap(candidates[q], left, right),
    ensures
        given.fitting(candidates, left, right).contains(candidates[q]),
    decreases candidates.len(),
{
    let shorter = candidates.drop_last();
    let others = given.fitting(shorter, left, right);
    let all = given.fitting(candidates, left, right);
    if q == candidates.len() - 1 {
        assert(all[all.len() - 1] == candidates[q]);
    } else {
        assert(shorter[q] == candidates[q]);
        lemma_fitting_takes_all(given, shorter, left, right, q);
        let i = choose|i: int| 0 <= i < others.len() && others[i] == candidates[q];
        assert(all[i] == candidates[q]);
    }
}

proof fn lemma_fitting_indices_differ(
    given: Evidence,
    candidates: Seq<CandidateMeta>,
    left: int,
    right: int,
)
    requires
        indices_differ(candidates),
    ensures
        indices_differ(given.fitting(candidates, left, right)),
    decreases candidates.len(),
{
    if candidates.len() > 0 {
        let shorter = candidates.drop_last();
        let others = given.fitting(shorter, left, right);
        let all = given.fitting(candidates, left, right);
        assert forall|i: int, j: int| 0 <= i < j < shorter.len() implies (
        #[trigger] shorter[i]).index != (#[trigger] shorter[j]).index by {
            assert(candidates[i].index != candidates[j].index);
        }
        lemma_fitting_indices_differ(given, shorter, left, right);
        assert forall|i: int, j: int| 0 <= i < j < all.len() implies (#[trigger] all[i]).index != (
        #[trigger] all[j]).index by {
            assert(all[i] == others[i]);
            if j < others.len() {
                assert(all[j] == others[j]);
            } else {
                lemma_fitting_is_listed(given, shorter, left, right, i);
                let k = choose|k: int|
                    0 <= k < shorter.len() && #[trigger] shorter[k] == others[i];
                assert(candidates[k].index != candidates[candidates.len() - 1].index);
            }
        }
    }
}

/// Slots split a gap evenly: slot `k` of `n` reaches from `k / n` of the gap, which belongs to the
/// slot before it, to `(k + 1) / n`, rounded down.
pub proof fn slots_split_a_gap_evenly(frame: int, left: int, gap: int, slots: int, slot: int)
    requires
        0 <= slot < slots,
        0 <= gap,
        gap * slots <= usize::MAX,
    ensures
        in_slot(frame, left, gap, slots, slot) <==> {
            &&& frame <= left + gap * (slot + 1) / slots
            &&& if slot == 0 {
                left <= frame
            } else {
                left + gap * slot / slots < frame
            }
        },
{
    lemma_slots_ascend(left, gap, slots, slot, slot + 1);
    assert(gap * 0 == 0) by (nonlinear_arith);
    assert(0int / slots == 0) by (nonlinear_arith)
        requires
            0 < slots,
    ;
    if slot > 0 {
        lemma_slots_ascend(left, gap, slots, slot - 1, slot);
        if in_slot(frame, left, gap, slots, slot) {
            assert(!slot_covers(frame, left, gap, slots, slot - 1));
        }
        if left + gap * slot / slots < frame {
            assert forall|other: int| 0 <= other < slot implies !#[trigger] slot_covers(
                frame,
                left,
                gap,
                slots,
                other,
            ) by {
                lemma_slots_ascend(left, gap, slots, other + 1, slot);
            }
        }
    }
}

proof fn lemma_slots_ascend(left: int, gap: int, slots: int, a: int, b: int)
    requires
        0 <= a <= b <= slots,
        0 < slots,
        0 <= gap,
        gap * slots <= usize::MAX,
    ensures
        slot_start(left, gap, slots, a) == left + gap * a / slots,
        slot_start(left, gap, slots, b) == left + gap * b / slots,
        slot_start(left, gap, slots, a) <= slot_start(left, gap, slots, b),
{
    assert(0 <= gap * a <= gap * b <= gap * slots) by (nonlinear_arith)
        requires
            0 <= a <= b <= slots,
            0 <= gap,
    ;
    let x = gap * a;
    let y = gap * b;
    assert(x / slots <= y / slots) by (nonlinear_arith)
        requires
            x <= y,
            0 < slots,
    ;
}

/// The winner of a slot lies in it, and none of the candidates in the slot should have won
/// instead: a clear cut wins over what is none, of two clear cuts the earlier one wins, and else
/// no blended value is higher.
pub proof fn slots_are_won_by_the_best(
    given: Evidence,
    candidates: Seq<CandidateMeta>,
    n: int,
    left: int,
    gap: int,
    slots: int,
    slot: int,
    q: int,
)
    requires
        0 <= q < n <= candidates.len(),
        in_slot(
            given.stats[candidates[q].index as int].frame_index as int,
            left,
            gap,
            slots,
            slot,
        ),
    ensures
        given.slot_winner(candidates, n, left, gap, slots, slot) is Some,
        ({
            let best = given.slot_winner(candidates, n, left, gap, slots, slot)->0;
            let won = given.stats[best.index as int].frame_index as int;
            let lost = given.stats[candidates[q].index as int].frame_index as int;
            &&& in_slot(won, left, gap, slots, slot)
            &&& candidates[q].is_cut_fallback ==> best.is_cut_fallback && won <= lost
            &&& !best.is_cut_fallback ==> !given.blended[best.index as int].below(
                given.blended[candidates[q].index as int],
            )
        }),
    decreases n,
{
    let newest = candidates[n - 1];
    if q < n - 1 {
        slots_are_won_by_the_best(given, candidates, n - 1, left, gap, slots, slot, q);
    } else if given.slot_winner(candidates, n - 1, left, gap, slots, slot) is Some {
        lemma_winner_is_in_slot(given, candidates, n - 1, left, gap, slots, slot);
    }
}

proof fn lemma_winner_is_in_slot(
    given: Evidence,
    candidates: Seq<CandidateMeta>,
    n: int,
    left: int,
    gap: int,
    slots: int,
    slot: int,
)
    ensures
        given.slot_winner(candidates, n, left, gap, slots, slot) matches Some(best) ==> in_slot(
            given.stats[best.index as int].frame_index as int,
            left,
            gap,
            slots,
            slot,
        ),
    decreases n,
{
    if n > 0 {
        lemma_winner_is_in_slot(given, candidates, n - 1, left, gap, slots, slot);
    }
}

/// The winner of each slot is among the winners.
pub proof fn each_slot_has_its_winner(
    given: Evidence,
    candidates: Seq<CandidateMeta>,
    left: int,
    gap: int,
    slots: int,
    n: int,
    slot: int,
)
    requires
        0 <= slot < n,
        given.slot_winner(candidates, candidates.len() as int, left, gap, slots, slot) is Some,
    ensures
        given.winners(candidates, left, gap, slots, n).contains(
            (given.slot_winner(
                candidates,
                candidates.len() as int,
                left,
                gap,
                slots,
                slot,
            )->0).index,
        ),
    decreases n,
{
    let index = (given.slot_winner(
        candidates,
        candidates.len() as int,
        left,
        gap,
        slots,
        slot,
    )->0).index;
    let others = given.winners(candidates, left, gap, slots, n - 1);
    let all = given.winners(candidates, left, gap, slots, n);
    if slot < n - 1 {
        each_slot_has_its_winner(given, candidates, left, gap, slots, n - 1, slot);
    }
    if others.contains(index) {
        let k = choose|k: int| 0 <= k < others.len() && others[k] == index;
        assert(all[k] == index);
    } else {
        assert(all[all.len() - 1] == index);
    }
}

/// What is filled in is not yet chosen, and nothing that is left has a higher blended value; where
/// nothing is filled in, nothing is left.
pub proof fn the_strongest_that_is_left_is_filled_in(
    given: Evidence,
    candidates: Seq<CandidateMeta>,
    n: int,
    chosen: Seq<usize>,
    q: int,
)
    requires
        0 <= q < n <= candidates.len(),
        !chosen.contains(candidates[q].index),
    ensures
        given.strongest_left(candidates, n, chosen) is Some,
        ({
            let best = given.strongest_left(candidates, n, chosen)->0;
            &&& !chosen.contains(best.index)
            &&& !given.blended[best.index as int].below(given.blended[candidates[q].index as int])
        }),
    decreases n,
{
    let newest = candidates[n - 1];
    if q < n - 1 {
        the_strongest_that_is_left_is_filled_in(given, candidates, n - 1, chosen, q);
    } else {
        lemma_strongest_left(given, candidates, n - 1, chosen);
    }
}

proof fn lemma_unchosen_candidate(candidates: Seq<CandidateMeta>, chosen: Seq<usize>) -> (q: int)
    requires
        indices_differ(candidates),
        chosen.len() < candidates.len(),
    ensures
        0 <= q < candidates.len(),
        !chosen.contains(candidates[q].index),
{
    let indices = Seq::new(candidates.len(), |k: int| candidates[k].index);
    if forall|k: int| 0 <= k < candidates.len() ==> chosen.contains((
    #[trigger] candidates[k]).index) {
        assert forall|i: int, j: int| 0 <= i < j < indices.len() implies indices[i]
            != indices[j] by {
            assert(candidates[i].index != candidates[j].index);
        }
        assert(indices.no_duplicates());
        indices.unique_seq_to_set();
        chosen.lemma_cardinality_of_set();
        assert(indices.to_set().subset_of(chosen.to_set())) by {
            assert forall|index: usize| indices.to_set().contains(
                index,
            ) implies chosen.to_set().contains(index) by {
                let k = choose|k: int| 0 <= k < indices.len() && indices[k] == index;
                assert(chosen.contains(candidates[k].index));
            }
        }
        vstd::seq_lib::seq_to_set_is_finite(chosen);
        vstd::set_lib::lemma_len_subset(indices.to_set(), chosen.to_set());
        0
    } else {
        choose|q: int|
            0 <= q < candidates.len() && !chosen.contains((#[trigger] candidates[q]).index)
    }
}

proof fn lemma_filled_up(
    given: Evidence,
    candidates: Seq<CandidateMeta>,
    chosen: Seq<usize>,
    limit: int,
)
    requires
        indices_differ(candidates),
        chosen.len() <= limit,
        chosen.len() <= candidates.len(),
    ensures
        given.filled(candidates, chosen, limit).len() >= sums::minimum(
            limit,
            candidates.len() as int,
        ),
        chosen.is_prefix_of(given.filled(candidates, chosen, limit)),
    decreases limit - chosen.len(),
{
    if chosen.len() < limit {
        if chosen.len() < candidates.len() {
            let q = lemma_unchosen_candidate(candidates, chosen);
            the_strongest_that_is_left_is_filled_in(
                given,
                candidates,
                candidates.len() as int,
                chosen,
                q,
            );
            let best = given.strongest_left(candidates, candidates.len() as int, chosen)->0;
            lemma_filled_up(given, candidates, chosen.push(best.index), limit);
        } else {
            match given.strongest_left(candidates, candidates.len() as int, chosen) {
                None => {},
                Some(best) => {
                    lemma_filled_grows(given, candidates, chosen.push(best.index), limit);
                    assert(chosen.is_prefix_of(chosen.push(best.index)));
                },
            }
        }
    }
}

proof fn lemma_filled_grows(
    given: Evidence,
    candidates: Seq<CandidateMeta>,
    chosen: Seq<usize>,
    limit: int,
)
    ensures
        chosen.is_prefix_of(given.filled(candidates, chosen, limit)),
    decreases limit - chosen.len(),
{
    if chosen.len() < limit {
        match given.strongest_left(candidates, candidates.len() as int, chosen) {
            None => {},
            Some(best) => {
                lemma_filled_grows(given, candidates, chosen.push(best.index), limit);
            },
        }
    }
}

/// In a gap as many frames are added as it has room for, one for each target span but at least
/// one, or all candidates that fit where there are fewer. Where there is room for several, the
/// winners of the slots come first.
pub proof fn gaps_are_filled_up(
    given: Evidence,
    candidates: Seq<CandidateMeta>,
    left: int,
    gap: int,
)
    requires
        indices_differ(candidates),
        0 <= gap,
        0 < given.config.dense_recovery_target_span_frames,
    ensures
        ({
            let span = given.config.dense_recovery_target_span_frames as int;
            let room = if gap < 2 * span {
                1
            } else {
                gap / span
            };
            let added = given.additions(candidates, left, gap);
            &&& added.len() == sums::minimum(room, candidates.len() as int)
            &&& candidates.len() > 0 && gap < 2 * span ==> added[0]
                == given.stats[given.best(candidates) as int].frame_index
            &&& gap >= 2 * span ==> given.frames_of(
                given.winners(candidates, left, gap, room + 1, room),
            ).is_prefix_of(added)
        }),
{
    let span = given.config.dense_recovery_target_span_frames as int;
    let room = if gap < 2 * span {
        1
    } else {
        gap / span
    };
    let limit = given.allowance(gap);
    assert(gap < 2 * span ==> gap / span <= 1) by (nonlinear_arith)
        requires
            0 <= gap,
            0 < span,
    ;
    assert(gap >= 2 * span ==> gap / span >= 2) by (nonlinear_arith)
        requires
            0 <= gap,
            0 < span,
    ;
    assert(limit == room);
    if candidates.len() > 0 && limit > 1 {
        let winners = given.winners(candidates, left, gap, limit + 1, limit);
        lemma_winners(given, candidates, left, gap, limit + 1, limit);
        lemma_listed_are_few(winners, candidates);
        lemma_filled(given, candidates, winners, limit);
        lemma_filled_up(given, candidates, winners, limit);
        let filled = given.filled(candidates, winners, limit);
        lemma_listed_are_few(filled, candidates);
        assert(filled.len() == sums::minimum(limit, candidates.len() as int));
        assert forall|k: int| 0 <= k < winners.len() implies winners[k] == #[trigger] filled[k] by {
            assert(winners =~= filled.subrange(0, winners.len() as int));
        }
        assert(given.frames_of(winners) =~= given.frames_of(filled).subrange(
            0,
            winners.len() as int,
        ));
        assert(given.frames_of(winners).is_prefix_of(given.frames_of(filled)));
        assert(given.additions(candidates, left, gap) == given.frames_of(filled));
    } else if candidates.len() == 0 && limit > 1 {
        let winners = given.winners(candidates, left, gap, limit + 1, limit);
        lemma_winners(given, candidates, left, gap, limit + 1, limit);
        if winners.len() > 0 {
            let index = winners[0];
            assert(exists|i: int|
                0 <= i < candidates.len() && (#[trigger] candidates[i]).index == winners[0]);
        }
        assert(given.frames_of(winners).len() == 0);
        assert(given.frames_of(winners) =~= given.additions(candidates, left, gap).subrange(0, 0));
    } else if candidates.len() > 0 {
        assert(given.additions(candidates, left, gap) == given.frames_of(
            seq![given.best(candidates)],
        ));
    }
}

proof fn lemma_listed_are_few(indices: Seq<usize>, candidates: Seq<CandidateMeta>)
    requires
        indices.no_duplicates(),
        point_at(indices, candidates),
    ensures
        indices.len() <= candidates.len(),
{
    let all = Seq::new(candidates.len(), |k: int| candidates[k].index);
    indices.unique_seq_to_set();
    all.lemma_cardinality_of_set();
    assert(indices.to_set().subset_of(all.to_set())) by {
        assert forall|index: usize| indices.to_set().contains(index) implies all.to_set().contains(
            index,
        ) by {
            let k = choose|k: int| 0 <= k < indices.len() && indices[k] == index;
            let i = choose|i: int|
                0 <= i < candidates.len() && (#[trigger] candidates[i]).index == indices[k];
            assert(all[i] == index);
        }
    }
    vstd::seq_lib::seq_to_set_is_finite(all);
    vstd::set_lib::lemma_len_subset(indices.to_set(), all.to_set());
}

proof fn lemma_fitting_are_counted(
    given: Evidence,
    candidates: Seq<CandidateMeta>,
    start: int,
    end: int,
    left: int,
    right: int,
    p: spec_fn(int) -> bool,
    n: int,
)
    requires
        0 <= start <= end <= candidates.len(),
        0 <= n <= candidates.len(),
        forall|c: int|
            0 <= c < candidates.len() ==> (#[trigger] p(c) <==> start <= c < end && given.fits_gap(
                candidates[c],
                left,
                right,
            )),
    ensures
        sums::count(n, p) == if n <= start {
            0
        } else {
            given.fitting(
                candidates.subrange(start, sums::minimum(n, end)),
                left,
                right,
            ).len() as int
        },
    decreases n,
{
    if n > 0 {
        lemma_fitting_are_counted(given, candidates, start, end, left, right, p, n - 1);
        assert(sums::count(n, p) == sums::count(n - 1, p) + sums::indicator(p)(n - 1));
        assert(p(n - 1) <==> start <= n - 1 < end && given.fits_gap(
            candidates[n - 1],
            left,
            right,
        ));
        if start < n <= end {
            let now = candidates.subrange(start, n);
            assert(now.drop_last() =~= candidates.subrange(start, n - 1));
            assert(now.last() == candidates[n - 1]);
            if n - 1 == start {
                assert(now.drop_last().len() == 0);
                assert(given.fitting(now.drop_last(), left, right).len() == 0);
            }
        } else if n > end && n - 1 <= start {
            assert(candidates.subrange(start, end).len() == 0);
            assert(given.fitting(candidates.subrange(start, end), left, right).len() == 0);
        }
    }
}

/// Each gap between neighbouring keyframes that is long enough and holds enough candidates is
/// filled: as many frames are added as it has room for, or all candidates in it that are strong
/// enough and far enough from both ends. In any other gap nothing is added.
pub proof fn long_gaps_with_candidates_are_filled(
    given: Evidence,
    candidates: Seq<CandidateMeta>,
    keyframes: Seq<usize>,
    n: int,
)
    requires
        frames_ascend(given, candidates),
        indices_differ(candidates),
        ascending(keyframes),
        0 <= n < keyframes.len() - 1,
        0 < given.config.dense_recovery_target_span_frames,
    ensures
        ({
            let before = given.recovery(candidates, keyframes, n).recovered;
            let after = given.recovery(candidates, keyframes, n + 1).recovered;
            let left = keyframes[n] as int;
            let right = keyframes[n + 1] as int;
            let gap = right - left;
            let config = given.config;
            let span = config.dense_recovery_target_span_frames as int;
            let margin = config.dense_recovery_margin_frames as int;
            let room = if gap < 2 * span {
                1
            } else {
                gap / span
            };
            let inside = sums::count(
                candidates.len() as int,
                |c: int| left < given.frame(candidates[c]) < right,
            );
            let fit = sums::count(
                candidates.len() as int,
                |c: int|
                    {
                        let frame = given.frame(candidates[c]);
                        let index = candidates[c].index as int;
                        &&& left < frame < right
                        &&& left + margin <= frame <= right - margin
                        &&& config.dense_recovery_blend_min.at_most(given.blended[index])
                        &&& config.dense_recovery_score_min.at_most(given.stats[index].score)
                    },
            );
            &&& before.is_prefix_of(after)
            &&& after.len() - before.len() == if gap >= config.dense_recovery_min_gap_frames
                && inside >= config.dense_recovery_min_candidates {
                sums::minimum(room, fit)
            } else {
                0
            }
        }),
{
    let before = given.recovery(candidates, keyframes, n);
    let after = given.recovery(candidates, keyframes, n + 1);
    let left = keyframes[n] as int;
    let right = keyframes[n + 1] as int;
    let config = given.config;
    let margin = config.dense_recovery_margin_frames as int;
    let gap = right - left;
    assert(left < right);
    assert(excess(right, left) == gap);
    let start = given.first_after(candidates, before.interval_start, left);
    let end = given.first_after(candidates, sums::maximum(before.interval_end, start), right - 1);
    lemma_search_is_behind(given, candidates, keyframes, n);
    lemma_first_after(given, candidates, before.interval_start, left);
    lemma_first_after(given, candidates, sums::maximum(before.interval_end, start), right - 1);
    let len = candidates.len() as int;
    let inside = |c: int| left < given.frame(candidates[c]) < right;
    assert forall|c: int| 0 <= c < len implies (#[trigger] inside(c) <==> start <= c < end) by {
        gaps_are_searched_from_end_to_end(given, candidates, keyframes, n, c);
    }
    lemma_range_is_counted(len, inside, start, end);
    let interval = candidates.subrange(start, end);
    let fit = |c: int|
        {
            let frame = given.frame(candidates[c]);
            let index = candidates[c].index as int;
            &&& left < frame < right
            &&& left + margin <= frame <= right - margin
            &&& config.dense_recovery_blend_min.at_most(given.blended[index])
            &&& config.dense_recovery_score_min.at_most(given.stats[index].score)
        };
    assert forall|c: int| 0 <= c < len implies (#[trigger] fit(c) <==> start <= c < end
        && given.fits_gap(candidates[c], left, right)) by {
        assert(inside(c) <==> start <= c < end);
    }
    lemma_fitting_are_counted(given, candidates, start, end, left, right, fit, len);
    if start == len {
        assert(interval.len() == 0);
    }
    let fitting = given.fitting(interval, left, right);
    assert(sums::count(len, fit) == fitting.len());
    assert forall|i: int, j: int| 0 <= i < j < interval.len() implies (#[trigger] interval[i]).index
        != (#[trigger] interval[j]).index by {
        assert(candidates[start + i].index != candidates[start + j].index);
    }
    lemma_fitting_indices_differ(given, interval, left, right);
    gaps_are_filled_up(given, fitting, left, gap);
    assert(after.recovered.len() - before.recovered.len() == if gap
        >= config.dense_recovery_min_gap_frames && interval.len()
        >= config.dense_recovery_min_candidates {
        given.additions(fitting, left, gap).len() as int
    } else {
        0int
    });
}

/// The settings pass where all shares lie between 0 and 1, all other amounts are finite and not
/// negative, and the target span is at least one frame, and only there.
pub proof fn settings_in_range_pass(config: PostprocessConfig)
    ensures
        validation::passes(Ok(()), config.checks()) <==> {
            let zero = Double { bits: 0 };
            let one = Double { bits: crate::double::ONE_BITS };
            let share = |value: Double| zero.at_most(value) && value.at_most(one);
            let amount = |value: Double| value.finite() && zero.at_most(value);
            &&& share(config.hist_blend_threshold)
            &&& share(config.structure_hist_max)
            &&& share(config.structure_grid_hist_min)
            &&& share(config.temporal_burst_activity_blend_min)
            &&& share(config.temporal_burst_raw_hist_max)
            &&& share(config.temporal_burst_nonraw_blend_max)
            &&& share(config.temporal_burst_cut_fallback_hist_max)
            &&& amount(config.frames_score_min)
            &&& amount(config.dense_recovery_blend_min)
            &&& amount(config.dense_recovery_score_min)
            &&& amount(config.temporal_burst_raw_score_max)
            &&& amount(config.temporal_burst_nonraw_score_max)
            &&& amount(config.temporal_burst_dense_nonraw_score_max)
            &&& amount(config.temporal_burst_cut_fallback_score_min)
            &&& amount(config.grid_hist_median_weight)
            &&& config.dense_recovery_target_span_frames >= 1
        },
{
    let checks = config.checks();
    assert(checks.len() == 16);
    assert(checks[0].valid == config.hist_blend_threshold.in_unit_interval());
    assert(checks[1].valid == config.structure_hist_max.in_unit_interval());
    assert(checks[2].valid == config.structure_grid_hist_min.in_unit_interval());
    assert(checks[3].valid == config.frames_score_min.finite_nonnegative());
    assert(checks[4].valid == config.dense_recovery_blend_min.finite_nonnegative());
    assert(checks[5].valid == config.dense_recovery_score_min.finite_nonnegative());
    assert(checks[6].valid == (config.dense_recovery_target_span_frames > 0));
    assert(checks[7].valid == config.temporal_burst_activity_blend_min.in_unit_interval());
    assert(checks[8].valid == config.temporal_burst_raw_hist_max.in_unit_interval());
    assert(checks[9].valid == config.temporal_burst_raw_score_max.finite_nonnegative());
    assert(checks[10].valid == config.temporal_burst_nonraw_score_max.finite_nonnegative());
    assert(checks[11].valid == config.temporal_burst_nonraw_blend_max.in_unit_interval());
    assert(checks[12].valid == config.temporal_burst_dense_nonraw_score_max.finite_nonnegative());
    assert(checks[13].valid == config.temporal_burst_cut_fallback_hist_max.in_unit_interval());
    assert(checks[14].valid == config.temporal_burst_cut_fallback_score_min.finite_nonnegative());
    assert(checks[15].valid == config.grid_hist_median_weight.finite_nonnegative());
}

/// Settings are equal where every one of them is: counts of frames as they are, and numbers where
/// neither is larger than the other.
pub proof fn settings_are_equal_one_by_one(one: PostprocessConfig, other: PostprocessConfig)
    ensures
        one.eq_spec(&other) <==> {
            &&& one.hist_blend_threshold.at_most(other.hist_blend_threshold) && other.hist_blend_threshold.at_most(one.hist_blend_threshold)
            &&& one.structure_hist_max.at_most(other.structure_hist_max) && other.structure_hist_max.at_most(one.structure_hist_max)
            &&& one.structure_grid_hist_min.at_most(other.structure_grid_hist_min) && other.structure_grid_hist_min.at_most(one.structure_grid_hist_min)
            &&& one.frames_score_min.at_most(other.frames_score_min) && other.frames_score_min.at_most(one.frames_score_min)
            &&& one.candidate_peak_radius == other.candidate_peak_radius
            &&& one.cluster_gap_frames == other.cluster_gap_frames
            &&& one.min_postprocess_frames == other.min_postprocess_frames
            &&& one.dense_recovery_min_gap_frames == other.dense_recovery_min_gap_frames
            &&& one.dense_recovery_min_candidates == other.dense_recovery_min_candidates
            &&& one.dense_recovery_margin_frames == other.dense_recovery_margin_frames
            &&& one.dense_recovery_blend_min.at_most(other.dense_recovery_blend_min) && other.dense_recovery_blend_min.at_most(one.dense_recovery_blend_min)
            &&& one.dense_recovery_score_min.at_most(other.dense_recovery_score_min) && other.dense_recovery_score_min.at_most(one.dense_recovery_score_min)
            &&& one.dense_recovery_target_span_frames == other.dense_recovery_target_span_frames
            &&& one.temporal_burst_window_frames == other.temporal_burst_window_frames
            &&& one.temporal_burst_activity_blend_min.at_most(other.temporal_burst_activity_blend_min) && other.temporal_burst_activity_blend_min.at_most(one.temporal_burst_activity_blend_min)
            &&& one.temporal_burst_min_count == other.temporal_burst_min_count
            &&& one.temporal_burst_raw_hist_max.at_most(other.temporal_burst_raw_hist_max) && other.temporal_burst_raw_hist_max.at_most(one.temporal_burst_raw_hist_max)
            &&& one.temporal_burst_raw_score_max.at_most(other.temporal_burst_raw_score_max) && other.temporal_burst_raw_score_max.at_most(one.temporal_burst_raw_score_max)
            &&& one.temporal_burst_nonraw_score_max.at_most(other.temporal_burst_nonraw_score_max) && other.temporal_burst_nonraw_score_max.at_most(one.temporal_burst_nonraw_score_max)
            &&& one.temporal_burst_nonraw_blend_max.at_most(other.temporal_burst_nonraw_blend_max) && other.temporal_burst_nonraw_blend_max.at_most(one.temporal_burst_nonraw_blend_max)
            &&& one.temporal_burst_dense_min_count == other.temporal_burst_dense_min_count
            &&& one.temporal_burst_dense_nonraw_score_max.at_most(other.temporal_burst_dense_nonraw_score_max) && other.temporal_burst_dense_nonraw_score_max.at_most(one.temporal_burst_dense_nonraw_score_max)
            &&& one.temporal_burst_cut_fallback_hist_max.at_most(other.temporal_burst_cut_fallback_hist_max) && other.temporal_burst_cut_fallback_hist_max.at_most(one.temporal_burst_cut_fallback_hist_max)
            &&& one.temporal_burst_cut_fallback_score_min.at_most(other.temporal_burst_cut_fallback_score_min) && other.temporal_burst_cut_fallback_score_min.at_most(one.temporal_burst_cut_fallback_score_min)
            &&& one.grid_hist_median_weight.at_most(other.grid_hist_median_weight) && other.grid_hist_median_weight.at_most(one.grid_hist_median_weight)
        },
{
}

} // verus!
