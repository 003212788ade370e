//! A detection run: options, per-frame state, and results.

use crate::cli::{Cli, OutputFormat};
use crate::decoder::{FrameInfo, LumaView};
use crate::detector;
use crate::detector::{Detector, DetectorConfig, XvidDetector, XvidDetectorConfig};
use crate::double;
use crate::double::Double;
use crate::error::{SCuiseiError, SCuiseiResult};
use crate::meanalysis;
use crate::order;
use crate::postprocess;
use crate::postprocess::{refine_frame_keyframes_with_config, FrameCutStats, PostprocessConfig};
use crate::simd_metrics;
use crate::simd_metrics::{
    extract_packed8, grid_histogram_distance_16_from_hists,
    grid_histogram_median_cell_distance_16_from_hists, histogram_distance_16_from_hists,
    Dissimilarity, DownscalePlan, FrameMetrics, GridHistogramPlan, MedianDissimilarity,
    GRID_HIST_LEN,
};
use crate::sums;
use crate::validation;
use std::path::PathBuf;
use vstd::prelude::*;

verus! {

/// What a run is made for.
#[derive(Clone, Copy, Debug, PartialEq, Eq, Structural)]
pub enum AnalysisTarget {
    Keyframes,
    PassDecisions,
    Both,
}

impl AnalysisTarget {
    pub open spec fn wants_keyframes(self) -> bool {
        self is Keyframes || self is Both
    }

    pub open spec fn wants_pass_decisions(self) -> bool {
        self is PassDecisions || self is Both
    }

    pub fn needs_keyframes(self) -> (r: bool)
        ensures
            r == self.wants_keyframes(),
    {
        matches!(self, AnalysisTarget::Keyframes | AnalysisTarget::Both)
    }

    pub fn needs_pass_decisions(self) -> (r: bool)
        ensures
            r == self.wants_pass_decisions(),
    {
        matches!(self, AnalysisTarget::PassDecisions | AnalysisTarget::Both)
    }

    /// What has to be found out to write the given format.
    pub open spec fn of_format(format: OutputFormat) -> AnalysisTarget {
        match format {
            OutputFormat::Xvid => AnalysisTarget::PassDecisions,
            _ => AnalysisTarget::Keyframes,
        }
    }

    pub fn for_format(format: OutputFormat) -> (r: AnalysisTarget)
        ensures
            r == AnalysisTarget::of_format(format),
    {
        match format {
            OutputFormat::Agi => AnalysisTarget::Keyframes,
            OutputFormat::Xvid => AnalysisTarget::PassDecisions,
            OutputFormat::Frames => AnalysisTarget::Keyframes,
        }
    }
}

/// Parameters of a detection run.
#[derive(Debug)]
pub struct AnalyzeOptions {
    /// Input media path to decode.
    pub input: PathBuf,
    /// Analyse at source resolution instead of the downscaled working resolution.
    pub native_res: bool,
    /// Hardware decoding device name.
    pub hwdec: Option<String>,
    /// Emit scores for each frame.
    pub dump_scores: bool,
    /// Motion-based detector settings.
    pub xvid_config: XvidDetectorConfig,
    /// Adaptive detector settings.
    pub adaptive_config: DetectorConfig,
    /// Keyframe selection settings.
    pub postprocess_config: PostprocessConfig,
}

/// `std::path::PathBuf::clone`: the same path once more.
#[verifier::external_body]
fn cloned_path(path: &PathBuf) -> (r: PathBuf)
    ensures
        r == *path,
{
    path.clone()
}

fn cloned_name(name: &Option<String>) -> (r: Option<String>)
    ensures
        r == *name,
{
    match name {
        Some(name) => Some(name.clone()),
        None => None,
    }
}

impl Clone for AnalyzeOptions {
    fn clone(&self) -> (r: AnalyzeOptions)
        ensures
            r == *self,
    {
        AnalyzeOptions {
            input: cloned_path(&self.input),
            native_res: self.native_res,
            hwdec: cloned_name(&self.hwdec),
            dump_scores: self.dump_scores,
            xvid_config: self.xvid_config,
            adaptive_config: self.adaptive_config,
            postprocess_config: self.postprocess_config,
        }
    }
}

fn build_xvid_config(cli: &Cli) -> (r: XvidDetectorConfig)
    ensures
        r.search_radius == cli.me_search_radius,
        r.intra_thresh == cli.me_intra_thresh,
        r.intra_thresh2 == cli.me_intra_thresh2,
{
    XvidDetectorConfig {
        search_radius: cli.me_search_radius,
        intra_thresh: cli.me_intra_thresh,
        intra_thresh2: cli.me_intra_thresh2,
    }
}

fn build_adaptive_config(cli: &Cli) -> (r: DetectorConfig)
    ensures
        r.window_size == cli.window_size,
        r.sigma == cli.sigma,
        r.base_threshold == cli.base_threshold,
        r.min_hist_distance == cli.min_hist_distance,
        r.min_score == cli.min_score,
        r.sad_weight == cli.sad_weight,
        r.hist_weight == cli.hist_weight,
{
    DetectorConfig {
        window_size: cli.window_size,
        sigma: cli.sigma,
        base_threshold: cli.base_threshold,
        min_hist_distance: cli.min_hist_distance,
        min_score: cli.min_score,
        sad_weight: cli.sad_weight,
        hist_weight: cli.hist_weight,
    }
}

impl AnalyzeOptions {
    /// The options that a command line stands for.
    pub open spec fn of_cli(cli: Cli, dump_scores: bool) -> AnalyzeOptions {
        AnalyzeOptions {
            input: cli.input,
            native_res: cli.native_res,
            hwdec: cli.hwdec,
            dump_scores,
            xvid_config: XvidDetectorConfig {
                search_radius: cli.me_search_radius,
                intra_thresh: cli.me_intra_thresh,
                intra_thresh2: cli.me_intra_thresh2,
            },
            adaptive_config: DetectorConfig {
                window_size: cli.window_size,
                sigma: cli.sigma,
                base_threshold: cli.base_threshold,
                min_hist_distance: cli.min_hist_distance,
                min_score: cli.min_score,
                sad_weight: cli.sad_weight,
                hist_weight: cli.hist_weight,
            },
            postprocess_config: PostprocessConfig::defaults(),
        }
    }

    /// The settings of both detectors.
    pub open spec fn settings(self) -> Settings {
        Settings { xvid: self.xvid_config, adaptive: self.adaptive_config }
    }

    pub fn from_cli(cli: &Cli, dump_scores: bool) -> (r: AnalyzeOptions)
        ensures
            r == AnalyzeOptions::of_cli(*cli, dump_scores),
    {
        AnalyzeOptions {
            input: cloned_path(&cli.input),
            native_res: cli.native_res,
            hwdec: cloned_name(&cli.hwdec),
            dump_scores,
            xvid_config: build_xvid_config(cli),
            adaptive_config: build_adaptive_config(cli),
            postprocess_config: PostprocessConfig::default(),
        }
    }

    pub fn defaults_for_input<P: Into<PathBuf>>(input: P) -> (r: AnalyzeOptions)
        ensures
            call_ensures(P::into, (input,), r.input),
            !r.native_res,
            r.hwdec is None,
            !r.dump_scores,
            r.xvid_config == XvidDetectorConfig::defaults(),
            r.adaptive_config == DetectorConfig::defaults(),
            r.postprocess_config == PostprocessConfig::defaults(),
    {
        AnalyzeOptions {
            input: input.into(),
            native_res: false,
            hwdec: None,
            dump_scores: false,
            xvid_config: XvidDetectorConfig::default(),
            adaptive_config: DetectorConfig::default(),
            postprocess_config: PostprocessConfig::default(),
        }
    }

    /// What is checked for the given target, in order.
    pub open spec fn checks(self, target: AnalysisTarget) -> Seq<validation::Check> {
        if target is PassDecisions {
            self.xvid_config.checks() + self.adaptive_config.checks()
        } else {
            self.xvid_config.checks() + self.adaptive_config.checks()
                + self.postprocess_config.checks()
        }
    }

    pub fn validate(&self) -> (r: SCuiseiResult<()>)
        ensures
            validation::passes(r, self.checks(AnalysisTarget::Both)),
    {
        self.validate_for(AnalysisTarget::Both)
    }

    /// Checks what matters for the given target.
    pub fn validate_for(&self, target: AnalysisTarget) -> (r: SCuiseiResult<()>)
        ensures
            validation::passes(r, self.checks(target)),
    {
        let ghost xvid = self.xvid_config.checks();
        let ghost adaptive = self.adaptive_config.checks();
        let ghost rest = self.postprocess_config.checks();
        let checked = self.xvid_config.validate();
        if checked.is_err() {
            proof {
                validation::lemma_fails_early(checked, xvid, self.checks(target));
            }
            return checked;
        }
        let checked = self.adaptive_config.validate();
        proof {
            validation::lemma_passes_on(checked, xvid, adaptive);
        }
        if checked.is_err() {
            proof {
                validation::lemma_fails_early(checked, xvid + adaptive, self.checks(target));
            }
            return checked;
        }
        if let AnalysisTarget::PassDecisions = target {
            return Ok(());
        }
        let checked = self.postprocess_config.validate();
        proof {
            validation::lemma_passes_on(checked, xvid + adaptive, rest);
        }
        checked
    }
}

/// What a run finds out.
#[derive(Debug, PartialEq, Eq)]
pub struct AnalysisResult {
    /// Indices of the keyframes.
    pub keyframes: Vec<usize>,
    /// For each frame, whether a scene starts at it.
    pub pass_decisions: Vec<bool>,
}

impl AnalysisResult {
    pub fn frame_count(&self) -> (r: usize)
        ensures
            r == self.pass_decisions@.len(),
    {
        self.pass_decisions.len()
    }
}

impl Clone for AnalysisResult {
    fn clone(&self) -> (r: AnalysisResult)
        ensures
            r.keyframes@ == self.keyframes@,
            r.pass_decisions@ == self.pass_decisions@,
    {
        let keyframes = self.keyframes.clone();
        let pass_decisions = self.pass_decisions.clone();
        assert(keyframes@ =~= self.keyframes@);
        assert(pass_decisions@ =~= self.pass_decisions@);
        AnalysisResult { keyframes, pass_decisions }
    }
}

/// Largest width of a plane at working resolution.
pub const MAX_WORKING_WIDTH: usize = 160;

/// Largest height of a plane at working resolution.
pub const MAX_WORKING_HEIGHT: usize = 96;

/// `a` times `b / c`, rounded down, but at least 1.
pub open spec fn scaled_extent(a: int, b: int, c: int) -> int {
    sums::maximum(sums::saturate(a * b, usize::MAX as int) / c, 1)
}

/// The working resolution: no wider than the largest width, and where that is still too high, no
/// higher than the largest height.
pub open spec fn working_size(width: int, height: int) -> (int, int) {
    let out_width = sums::minimum(width, MAX_WORKING_WIDTH as int);
    let out_height = sums::minimum(height, MAX_WORKING_HEIGHT as int);
    if width == 0 || height == 0 {
        (0, 0)
    } else if scaled_extent(height, out_width, width) > MAX_WORKING_HEIGHT {
        (scaled_extent(width, out_height, height), out_height)
    } else {
        (out_width, scaled_extent(height, out_width, width))
    }
}

fn scale_extent(a: usize, b: usize, c: usize) -> (r: usize)
    requires
        0 < c,
    ensures
        r == scaled_extent(a as int, b as int, c as int),
{
    let product: usize = match a.checked_mul(b) {
        Some(product) => product,
        None => usize::MAX,
    };
    let extent: usize = product / c;
    if extent == 0 {
        1
    } else {
        extent
    }
}

pub fn compute_downscale_dims(width: usize, height: usize) -> (r: (usize, usize))
    ensures
        r.0 == working_size(width as int, height as int).0,
        r.1 == working_size(width as int, height as int).1,
{
    if width == 0 || height == 0 {
        return (0, 0);
    }
    let out_width: usize = if width < MAX_WORKING_WIDTH {
        width
    } else {
        MAX_WORKING_WIDTH
    };
    let out_height: usize = scale_extent(height, out_width, width);
    if out_height > MAX_WORKING_HEIGHT {
        let out_height: usize = if height < MAX_WORKING_HEIGHT {
            height
        } else {
            MAX_WORKING_HEIGHT
        };
        return (scale_extent(width, out_height, height), out_height);
    }
    (out_width, out_height)
}

/// A plane with pixels has some left at working resolution, no more either way than it had, and
/// no more than the largest width and height.
pub proof fn working_size_is_bounded(width: int, height: int)
    requires
        0 < width,
        0 < height,
    ensures
        1 <= working_size(width, height).0 <= sums::minimum(width, MAX_WORKING_WIDTH as int),
        1 <= working_size(width, height).1 <= sums::minimum(height, MAX_WORKING_HEIGHT as int),
{
    let out_width = sums::minimum(width, MAX_WORKING_WIDTH as int);
    let out_height = sums::minimum(height, MAX_WORKING_HEIGHT as int);
    lemma_scaled_extent(height, out_width, width);
    lemma_scaled_extent(width, out_height, height);
    if scaled_extent(height, out_width, width) > MAX_WORKING_HEIGHT {
        let too_high = sums::saturate(height * out_width, usize::MAX as int);
        let wide = sums::saturate(width * out_height, usize::MAX as int);
        assert(wide / height <= MAX_WORKING_WIDTH) by (nonlinear_arith)
            requires
                0 < width,
                0 < height,
                out_height <= 96,
                0 <= out_height,
                out_width <= 160,
                wide <= width * out_height,
                too_high <= height * out_width,
                too_high / width >= 97,
                MAX_WORKING_WIDTH == 160,
        {
            assert(97 * width <= too_high);
            assert(97 * width <= height * 160);
            assert(wide <= width * 96);
            assert(wide <= height * 160);
        }
    }
}

proof fn lemma_scaled_extent(a: int, b: int, c: int)
    requires
        0 < a,
        0 <= b <= c,
        0 < c,
    ensures
        1 <= scaled_extent(a, b, c) <= a,
{
    let product = sums::saturate(a * b, usize::MAX as int);
    assert(a * b <= a * c && 0 <= a * b) by (nonlinear_arith)
        requires
            0 < a,
            0 <= b <= c,
    ;
    assert(product / c <= a) by (nonlinear_arith)
        requires
            product <= a * c,
            0 < c,
    ;
}

/// A frame at the resolution it is analysed at.
pub struct Frame {
    pub pixels: Seq<u8>,
    pub width: usize,
    pub height: usize,
}

/// The frame that is analysed, of a plane of the given size.
pub open spec fn analysed_frame(
    data: Seq<u8>,
    stride: int,
    info: FrameInfo,
    native_res: bool,
) -> Frame {
    let (width, height) = working_size(info.width as int, info.height as int);
    if native_res {
        Frame {
            pixels: simd_metrics::packed(data, stride, info.width as int, info.height as int),
            width: info.width,
            height: info.height,
        }
    } else if width == 0 || height == 0 {
        Frame { pixels: Seq::empty(), width: width as usize, height: height as usize }
    } else {
        Frame {
            pixels: simd_metrics::sampled(
                data,
                stride,
                info.width as int,
                info.height as int,
                width,
                height,
            ),
            width: width as usize,
            height: height as usize,
        }
    }
}

/// Plans for the last frame size, kept for the next frame.
pub struct PlanCache {
    downscale: Option<((usize, usize), DownscalePlan)>,
    grid: Option<GridHistogramPlan>,
}

impl PlanCache {
    /// The plans that are held are those of the sizes they are kept for.
    pub closed spec fn well_formed(self) -> bool {
        self.downscale matches Some(kept) ==> {
            let ((width, height), plan) = kept;
            let (dst_width, dst_height) = working_size(width as int, height as int);
            &&& plan.src_width() == width
            &&& plan.src_height() == height
            &&& plan.dst_width() == dst_width
            &&& plan.dst_height() == dst_height
        }
    }

    /// The plan that is kept to bring a plane to working resolution, and the plane's size.
    pub closed spec fn kept_downscale(self) -> Option<((usize, usize), DownscalePlan)> {
        self.downscale
    }

    /// The plan that is kept to measure a frame.
    pub closed spec fn kept_grid(self) -> Option<GridHistogramPlan> {
        self.grid
    }

    pub fn new() -> (r: PlanCache)
        ensures
            r.well_formed(),
            r.kept_downscale() is None,
            r.kept_grid() is None,
    {
        PlanCache { downscale: None, grid: None }
    }

    /// The plan to bring a plane to working resolution.
    pub fn downscale_plan(&mut self, width: usize, height: usize) -> (r: &DownscalePlan)
        requires
            old(self).well_formed(),
        ensures
            final(self).well_formed(),
            r.src_width() == width,
            r.src_height() == height,
            r.dst_width() == working_size(width as int, height as int).0,
            r.dst_height() == working_size(width as int, height as int).1,
            final(self).kept_downscale() == Some(((width, height), *r)),
            old(self).kept_downscale() matches Some(kept) ==> kept.0 == (width, height)
                ==> *r == kept.1,
            final(self).kept_grid() == old(self).kept_grid(),
    {
        let fits = match &self.downscale {
            Some(kept) => kept.0.0 == width && kept.0.1 == height,
            None => false,
        };
        if !fits {
            let (work_w, work_h) = compute_downscale_dims(width, height);
            self.downscale = Some(
                ((width, height), DownscalePlan::new(width, height, work_w, work_h)),
            );
        }
        &self.downscale.as_ref().unwrap().1
    }

    /// The plan to measure a frame.
    pub fn grid_plan(&mut self, width: usize, height: usize) -> (r: &GridHistogramPlan)
        requires
            old(self).well_formed(),
            width > 0 && height > 0 ==> 4 * (width - 1) <= usize::MAX && 4 * (height - 1)
                <= usize::MAX,
        ensures
            final(self).well_formed(),
            r.width() == width,
            r.height() == if width == 0 {
                0
            } else {
                height as int
            },
            final(self).kept_grid() == Some(*r),
            old(self).kept_grid() matches Some(kept) ==> kept.width() == width && kept.height()
                == height ==> *r == kept,
            final(self).kept_downscale() == old(self).kept_downscale(),
    {
        let fits = match &self.grid {
            Some(plan) => {
                let (plan_width, plan_height) = plan.dimensions();
                plan_width == width && plan_height == height
            },
            None => false,
        };
        if !fits {
            self.grid = Some(GridHistogramPlan::new(width, height));
        }
        self.grid.as_ref().unwrap()
    }
}

proof fn lemma_plane_covers_samples(
    plan: DownscalePlan,
    len: int,
    stride: int,
    width: int,
    height: int,
)
    requires
        !plan.empty(),
        plan.src_width() == width,
        plan.src_height() == height,
        0 <= stride,
        simd_metrics::plane_fits(len, stride, width, height),
    ensures
        plan.last_read(stride) < len,
{
    simd_metrics::lemma_sample_in_range(
        plan.dst_height() - 1,
        height,
        plan.dst_height() as int,
    );
    simd_metrics::lemma_sample_in_range(plan.dst_width() - 1, width, plan.dst_width() as int);
    let row = simd_metrics::sample_index(plan.dst_height() - 1, height, plan.dst_height() as int);
    assert(row * stride <= stride * (height - 1)) by (nonlinear_arith)
        requires
            0 <= row <= height - 1,
            0 <= stride,
    ;
}

/// Copies or reduces a luma plane to the resolution it is analysed at.
pub fn prepare_analysis_pixels(
    view: LumaView<'_>,
    info: FrameInfo,
    native_res: bool,
    plans: &mut PlanCache,
    pixels: &mut Vec<u8>,
) -> (r: (usize, usize))
    requires
        old(plans).well_formed(),
        simd_metrics::plane_fits(
            view.data@.len() as int,
            view.stride as int,
            info.width as int,
            info.height as int,
        ),
    ensures
        final(plans).well_formed(),
        final(plans).kept_grid() == old(plans).kept_grid(),
        native_res ==> *final(plans) == *old(plans),
        ({
            let frame = analysed_frame(view.data@, view.stride as int, info, native_res);
            &&& final(pixels)@ == frame.pixels
            &&& r == (frame.width, frame.height)
        }),
{
    if native_res {
        extract_packed8(view.data, view.stride, info.width, info.height, pixels);
        return (info.width, info.height);
    }
    let plan = plans.downscale_plan(info.width, info.height);
    proof {
        if info.width > 0 && info.height > 0 {
            working_size_is_bounded(info.width as int, info.height as int);
            assert(plan.dst_width() * plan.dst_height() <= 160 * 96) by (nonlinear_arith)
                requires
                    plan.dst_width() <= 160,
                    plan.dst_height() <= 96,
            ;
            lemma_plane_covers_samples(
                *plan,
                view.data@.len() as int,
                view.stride as int,
                info.width as int,
                info.height as int,
            );
        } else {
            assert(plan.dst_width() * plan.dst_height() == 0) by (nonlinear_arith)
                requires
                    plan.dst_width() == 0,
            ;
        }
    }
    plan.run_packed8(view.data, view.stride, pixels);
    plan.dst_dimensions()
}

/// The record of one frame.
#[derive(Clone, Copy, Debug)]
pub struct DetectionRecord {
    pub is_cut: bool,
    pub score: Double,
    pub threshold: Double,
    pub intra_blocks: usize,
    pub total_blocks: usize,
    pub mc_sad: u64,
    pub hist_distance: Double,
    pub grid_hist_distance: Double,
    pub grid_hist_median: Double,
}

/// The record of a frame that cannot be compared with the one before it.
pub open spec fn new_scene_record() -> DetectionRecord {
    DetectionRecord {
        is_cut: true,
        score: Double { bits: crate::double::INFINITE_MAGNITUDE },
        threshold: Double { bits: crate::double::INFINITE_MAGNITUDE },
        intra_blocks: 0,
        total_blocks: 0,
        mc_sad: 0,
        hist_distance: Double { bits: crate::double::ONE_BITS },
        grid_hist_distance: Double { bits: crate::double::ONE_BITS },
        grid_hist_median: Double { bits: crate::double::ONE_BITS },
    }
}

/// What is counted over two frames that can be compared.
#[derive(Debug)]
pub struct FrameMeasures {
    pub hist: Dissimilarity,
    pub grid_hist: Dissimilarity,
    pub grid_hist_median: MedianDissimilarity,
    /// Sum of absolute differences, and the size of the planes it was taken of.
    pub sad: u64,
    pub width: usize,
    pub height: usize,
    /// What is to be added to the configured score threshold.
    pub threshold_raise: u32,
    /// The scores that the adaptive threshold rests on, if there are enough.
    pub middle_scores: Option<Vec<Double>>,
}

/// The numbers that follow from [`FrameMeasures`].
#[derive(Clone, Copy, Debug)]
pub struct FrameValues {
    /// The configured score threshold plus its raise.
    pub threshold: Double,
    /// The score from which on the adaptive detector may turn a frame into a cut.
    pub promotion_threshold: Double,
    pub hist_distance: Double,
    pub grid_hist_distance: Double,
    pub grid_hist_median: Double,
    /// The blend of the difference of the planes with the histogram distance.
    pub adaptive_score: Double,
    /// The mean of the middle scores plus their weighted standard deviation.
    pub statistic: Double,
}

/// What became of a frame.
#[derive(Debug)]
pub enum FrameArrival {
    /// It is the first.
    First,
    /// It cannot be compared with the one before it, and starts a scene.
    NewScene(DetectionRecord),
    /// It can be compared, and waits for the numbers that follow from the measures.
    Compared(FrameMeasures),
}

/// The histogram of a frame.
pub open spec fn frame_hist(frame: Frame) -> Seq<u32> {
    let pixels = frame.width * frame.height;
    Seq::new(
        16,
        |v: int|
            sums::value_counts(pixels, simd_metrics::brightness_classes(frame.pixels))(v) as u32,
    )
}

/// The grid histogram of a frame.
pub open spec fn frame_grid_hist(frame: Frame) -> Seq<u32> {
    let pixels = frame.width * frame.height;
    Seq::new(
        GRID_HIST_LEN as nat,
        |v: int|
            sums::value_counts(
                pixels,
                simd_metrics::grid_slots(frame.pixels, frame.width as int, frame.height as int),
            )(v) as u32,
    )
}

/// Settings of both detectors.
pub struct Settings {
    pub xvid: XvidDetectorConfig,
    pub adaptive: DetectorConfig,
}

/// How far a run has come.
pub struct Progress {
    /// How many frames the current scene has.
    pub intra_count: int,
    /// The scores that the adaptive threshold rests on.
    pub window: Seq<Double>,
    /// The last frame, if there was one, and its histograms.
    pub prev_dims: Option<(usize, usize)>,
    pub prev_small: Seq<u8>,
    pub prev_hist: Seq<u32>,
    pub prev_grid_hist: Seq<u32>,
    /// How many frames there were.
    pub frame_index: int,
    pub frame_stats: Seq<FrameCutStats>,
    pub pass_decisions: Seq<bool>,
}

impl Progress {
    pub open spec fn start() -> Progress {
        Progress {
            intra_count: 1,
            window: Seq::empty(),
            prev_dims: None,
            prev_small: Seq::empty(),
            prev_hist: Seq::new(16, |v: int| 0u32),
            prev_grid_hist: Seq::new(GRID_HIST_LEN as nat, |v: int| 0u32),
            frame_index: 0,
            frame_stats: Seq::empty(),
            pass_decisions: Seq::empty(),
        }
    }

    /// The frame cannot be compared with the last one.
    pub open spec fn broken_by(self, frame: Frame) -> bool {
        ||| self.prev_dims != Some((frame.width, frame.height))
        ||| self.prev_small.len() != frame.pixels.len()
        ||| self.prev_small.len() == 0
    }

    /// The frame becomes the last one.
    pub open spec fn absorb(self, frame: Frame) -> Progress {
        Progress {
            prev_dims: Some((frame.width, frame.height)),
            prev_small: frame.pixels,
            prev_hist: frame_hist(frame),
            prev_grid_hist: frame_grid_hist(frame),
            frame_index: self.frame_index + 1,
            ..self
        }
    }

    /// The frame is noted for the given target.
    pub open spec fn note(self, target: AnalysisTarget, record: DetectionRecord) -> Progress {
        let stat = FrameCutStats {
            frame_index: self.frame_index as usize,
            is_cut: record.is_cut,
            score: record.score,
            hist_distance: record.hist_distance,
            grid_hist_distance: record.grid_hist_distance,
            grid_hist_median: record.grid_hist_median,
        };
        Progress {
            frame_stats: if target.wants_keyframes() {
                self.frame_stats.push(stat)
            } else {
                self.frame_stats
            },
            pass_decisions: if target.wants_pass_decisions() {
                self.pass_decisions.push(record.is_cut)
            } else {
                self.pass_decisions
            },
            ..self
        }
    }

    /// The motion-based decision on a frame.
    pub open spec fn motion_decision(
        self,
        settings: Settings,
        frame: Frame,
        values: FrameValues,
    ) -> detector::XvidDecision {
        detector::decision(
            settings.xvid,
            self.intra_count,
            self.prev_small,
            frame.pixels,
            frame.width,
            frame.height,
            values.threshold,
        )
    }

    /// The adaptive detector may turn a frame with this motion-based decision into a cut.
    pub open spec fn nearly_cut(
        motion: detector::XvidDecision,
        values: FrameValues,
    ) -> bool {
        &&& motion.threshold.finite()
        &&& (Double { bits: 0 }).below(motion.threshold)
        &&& values.promotion_threshold.at_most(motion.score)
    }

    /// The record of a frame that is not the first.
    pub open spec fn judge(
        self,
        settings: Settings,
        frame: Frame,
        values: FrameValues,
    ) -> DetectionRecord {
        let motion = self.motion_decision(settings, frame, values);
        let adaptive_cut = detector::adaptive_cut(
            settings.adaptive,
            self.window,
            values.adaptive_score,
            values.hist_distance,
            values.statistic,
        );
        if self.broken_by(frame) {
            new_scene_record()
        } else {
            DetectionRecord {
                is_cut: motion.is_cut || (Self::nearly_cut(motion, values) && adaptive_cut),
                score: motion.score,
                threshold: motion.threshold,
                intra_blocks: motion.intra_blocks,
                total_blocks: motion.total_blocks,
                mc_sad: motion.mc_sad,
                hist_distance: values.hist_distance,
                grid_hist_distance: values.grid_hist_distance,
                grid_hist_median: values.grid_hist_median,
            }
        }
    }

    /// What the detectors keep of a frame that is not the first.
    pub open spec fn remember(
        self,
        settings: Settings,
        frame: Frame,
        values: FrameValues,
    ) -> Progress {
        if self.broken_by(frame) {
            Progress { intra_count: 1, window: Seq::empty(), ..self }
        } else {
            Progress {
                intra_count: detector::scene_length_after(
                    self.intra_count,
                    self.motion_decision(settings, frame, values).is_cut,
                ),
                window: detector::observed(
                    self.window,
                    settings.adaptive.window_size as int,
                    values.adaptive_score,
                ),
                ..self
            }
        }
    }

    /// One frame more.
    pub open spec fn advance(
        self,
        settings: Settings,
        target: AnalysisTarget,
        frame: Frame,
        values: FrameValues,
    ) -> Progress {
        if self.frame_index == 0 {
            let pass_decisions = if target.wants_pass_decisions() {
                self.pass_decisions.push(true)
            } else {
                self.pass_decisions
            };
            (Progress { pass_decisions, ..self }).absorb(frame)
        } else {
            self.remember(settings, frame, values).note(
                target,
                self.judge(settings, frame, values),
            ).absorb(frame)
        }
    }

    /// A whole run.
    pub open spec fn after(
        settings: Settings,
        target: AnalysisTarget,
        frames: Seq<(Frame, FrameValues)>,
    ) -> Progress
        decreases frames.len(),
    {
        if frames.len() == 0 {
            Progress::start()
        } else {
            let (frame, values) = frames.last();
            Progress::after(settings, target, frames.drop_last()).advance(
                settings,
                target,
                frame,
                values,
            )
        }
    }

    /// Everything but what is noted for a target is the same.
    pub open spec fn same_but_for_notes(self, other: Progress) -> bool {
        self == Progress {
            frame_stats: self.frame_stats,
            pass_decisions: self.pass_decisions,
            ..other
        }
    }

    /// The notes are complete, one for each frame.
    pub open spec fn complete(self, target: AnalysisTarget) -> bool {
        &&& 0 <= self.frame_index
        &&& self.pass_decisions.len() == if target.wants_pass_decisions() {
            self.frame_index
        } else {
            0
        }
        &&& self.pass_decisions.len() > 0 ==> self.pass_decisions[0]
        &&& self.frame_stats.len() == if target.wants_keyframes() && self.frame_index > 0 {
            self.frame_index - 1
        } else {
            0
        }
        &&& forall|i: int|
            0 <= i < self.frame_stats.len() ==> (#[trigger] self.frame_stats[i]).frame_index == i
                + 1
        &&& target.wants_pass_decisions() ==> forall|i: int|
            0 <= i < self.frame_stats.len() ==> (#[trigger] self.frame_stats[i]).is_cut
                == self.pass_decisions[i + 1]
    }
}

proof fn lemma_advance_keeps_complete(
    progress: Progress,
    settings: Settings,
    target: AnalysisTarget,
    frame: Frame,
    values: FrameValues,
)
    requires
        progress.complete(target),
        progress.frame_index < usize::MAX,
    ensures
        progress.advance(settings, target, frame, values).complete(target),
{
}

/// A run is made frame by frame: taking one frame more advances it by that frame.
pub proof fn runs_advance_frame_by_frame(
    settings: Settings,
    target: AnalysisTarget,
    frames: Seq<(Frame, FrameValues)>,
    frame: Frame,
    values: FrameValues,
)
    ensures
        Progress::after(settings, target, Seq::empty()) == Progress::start(),
        Progress::after(settings, target, frames.push((frame, values))) == Progress::after(
            settings,
            target,
            frames,
        ).advance(settings, target, frame, values),
{
    let longer = frames.push((frame, values));
    assert(longer.drop_last() =~= frames);
    assert(longer.last() == (frame, values));
}

/// A run for one target finds what a full run finds for it.
pub proof fn targets_agree(settings: Settings, frames: Seq<(Frame, FrameValues)>)
    ensures
        ({
            let full = Progress::after(settings, AnalysisTarget::Both, frames);
            let keyframes = Progress::after(settings, AnalysisTarget::Keyframes, frames);
            let passes = Progress::after(settings, AnalysisTarget::PassDecisions, frames);
            &&& keyframes.frame_stats == full.frame_stats
            &&& passes.pass_decisions == full.pass_decisions
            &&& keyframes.same_but_for_notes(full)
            &&& passes.same_but_for_notes(full)
        }),
    decreases frames.len(),
{
    if frames.len() > 0 {
        targets_agree(settings, frames.drop_last());
    }
}

/// A run notes a decision for every frame, the first of them a cut, and statistics for every
/// frame after the first, in the order of the frames. A full run notes the same decision both
/// times.
pub proof fn every_frame_is_noted(
    settings: Settings,
    target: AnalysisTarget,
    frames: Seq<(Frame, FrameValues)>,
)
    requires
        frames.len() <= usize::MAX,
    ensures
        Progress::after(settings, target, frames).complete(target),
        Progress::after(settings, target, frames).frame_index == frames.len(),
    decreases frames.len(),
{
    if frames.len() > 0 {
        every_frame_is_noted(settings, target, frames.drop_last());
        let (frame, values) = frames.last();
        lemma_advance_keeps_complete(
            Progress::after(settings, target, frames.drop_last()),
            settings,
            target,
            frame,
            values,
        );
    }
}

/// `result` is what a run that has come this far finds for the given target.
///
/// `blended` holds, for each of the noted statistics, the histogram distance plus the configured
/// weight times the median cell distance.
pub open spec fn found(
    result: AnalysisResult,
    options: AnalyzeOptions,
    target: AnalysisTarget,
    progress: Progress,
    blended: Seq<Double>,
) -> bool {
    let given = postprocess::Evidence {
        stats: progress.frame_stats,
        blended,
        config: options.postprocess_config,
    };
    &&& result.pass_decisions@ == progress.pass_decisions
    &&& if target.wants_keyframes() {
        given.settles(result.keyframes@)
    } else {
        result.keyframes@.len() == 0
    }
}

/// The analysis fails exactly where a check or the decoder does, with that error.
pub open spec fn goes_ahead(
    outcome: SCuiseiResult<AnalysisResult>,
    checks: Seq<validation::Check>,
    decoded: SCuiseiResult<()>,
) -> bool {
    match outcome {
        Ok(_) => validation::passes(Ok(()), checks) && decoded is Ok,
        Err(error) => {
            ||| validation::passes(Err(error), checks)
            ||| validation::passes(Ok(()), checks) && decoded == Err::<(), SCuiseiError>(error)
        },
    }
}

/// `outcome` is what an analysis comes to: the complaint about the options, or else the error of
/// the decoder, or else what the run over all decoded frames finds.
pub open spec fn comes_to(
    outcome: SCuiseiResult<AnalysisResult>,
    options: AnalyzeOptions,
    target: AnalysisTarget,
    decoded: SCuiseiResult<()>,
    frames: Seq<(Frame, FrameValues)>,
    blended: Seq<Double>,
) -> bool {
    &&& goes_ahead(outcome, options.checks(target), decoded)
    &&& outcome matches Ok(result) ==> found(
        result,
        options,
        target,
        Progress::after(options.settings(), target, frames),
        blended,
    )
}

/// An analysis for keyframes alone comes to what a full analysis of the same input comes to: the
/// same keyframes, or the same error. All options are checked either way.
pub proof fn keyframe_analysis_agrees(
    options: AnalyzeOptions,
    decoded: SCuiseiResult<()>,
    frames: Seq<(Frame, FrameValues)>,
    blended: Seq<Double>,
    full: SCuiseiResult<AnalysisResult>,
    own: SCuiseiResult<AnalysisResult>,
)
    requires
        comes_to(full, options, AnalysisTarget::Both, decoded, frames, blended),
        comes_to(own, options, AnalysisTarget::Keyframes, decoded, frames, blended),
    ensures
        match full {
            Ok(result) => own matches Ok(part) && part.keyframes@ == result.keyframes@,
            Err(error) => own matches Err(other) && other.same_as(error),
        },
        options.checks(AnalysisTarget::Keyframes) == options.checks(AnalysisTarget::Both),
        !validation::passes(Ok(()), options.checks(AnalysisTarget::Both)) ==> (own matches Err(
            error,
        ) && error is Config),
{
    targets_agree(options.settings(), frames);
    let checks = options.checks(AnalysisTarget::Both);
    lemma_refusals_agree(full, own, checks, decoded);
    if full is Ok && own is Ok {
        let given = postprocess::Evidence {
            stats: Progress::after(options.settings(), AnalysisTarget::Both, frames).frame_stats,
            blended,
            config: options.postprocess_config,
        };
        postprocess::keyframes_are_determined(
            given,
            full->Ok_0.keyframes@,
            own->Ok_0.keyframes@,
        );
    }
}

/// An analysis for pass decisions alone comes to the decisions of a full analysis of the same
/// input, and neither checks nor uses the settings for the choice of keyframes.
pub proof fn pass_analysis_agrees(
    options: AnalyzeOptions,
    other_config: PostprocessConfig,
    decoded: SCuiseiResult<()>,
    frames: Seq<(Frame, FrameValues)>,
    blended: Seq<Double>,
    full: SCuiseiResult<AnalysisResult>,
    own: SCuiseiResult<AnalysisResult>,
    tuned: SCuiseiResult<AnalysisResult>,
)
    requires
        comes_to(full, options, AnalysisTarget::Both, decoded, frames, blended),
        comes_to(own, options, AnalysisTarget::PassDecisions, decoded, frames, blended),
        comes_to(
            tuned,
            AnalyzeOptions { postprocess_config: other_config, ..options },
            AnalysisTarget::PassDecisions,
            decoded,
            frames,
            blended,
        ),
    ensures
        full matches Ok(result) ==> own matches Ok(part) && part.pass_decisions@
            == result.pass_decisions@,
        match own {
            Ok(part) => tuned matches Ok(other) && other.pass_decisions@ == part.pass_decisions@
                && other.keyframes@ == part.keyframes@,
            Err(error) => tuned matches Err(other) && other.same_as(error),
        },
        !validation::passes(Ok(()), options.xvid_config.checks() + options.adaptive_config.checks())
            ==> (own matches Err(error) && error is Config),
{
    targets_agree(options.settings(), frames);
    let checks = options.checks(AnalysisTarget::PassDecisions);
    let rest = options.postprocess_config.checks();
    let retuned = AnalyzeOptions { postprocess_config: other_config, ..options };
    assert(retuned.settings() == options.settings());
    assert(retuned.checks(AnalysisTarget::PassDecisions) == checks);
    lemma_refusals_agree(own, tuned, checks, decoded);
    if full is Ok {
        validation::lemma_fails_before(Ok(()), checks, rest);
        if own is Err {
            if validation::passes(Err(own->Err_0), checks) {
                validation::checks_are_decided(Err(own->Err_0), Ok(()), checks);
            }
        }
    }
    if own is Ok && tuned is Ok {
        assert(own->Ok_0.keyframes@ =~= tuned->Ok_0.keyframes@);
    }
}

/// Two analyses that check the same and decode the same fail together, and alike.
pub proof fn lemma_refusals_agree(
    one: SCuiseiResult<AnalysisResult>,
    other: SCuiseiResult<AnalysisResult>,
    checks: Seq<validation::Check>,
    decoded: SCuiseiResult<()>,
)
    requires
        goes_ahead(one, checks, decoded),
        goes_ahead(other, checks, decoded),
    ensures
        one is Ok <==> other is Ok,
        one matches Err(a) ==> other matches Err(b) && b.same_as(a),
        !validation::passes(Ok(()), checks) ==> (one matches Err(a) && a is Config),
{
    let a: SCuiseiResult<()> = match one {
        Err(error) if validation::passes(Err(error), checks) => Err(error),
        _ => Ok(()),
    };
    let b: SCuiseiResult<()> = match other {
        Err(error) if validation::passes(Err(error), checks) => Err(error),
        _ => Ok(()),
    };
    if validation::passes(a, checks) {
        if validation::passes(b, checks) {
            validation::checks_are_decided(a, b, checks);
        }
        validation::checks_are_decided(a, a, checks);
    }
}

/// The size and the histograms of the frame at hand.
#[derive(Clone, Copy, Debug)]
pub struct CurrentFrameSnapshot {
    pub width: usize,
    pub height: usize,
    pub hist: [u32; 16],
    pub grid_hist: [u32; GRID_HIST_LEN],
}

impl CurrentFrameSnapshot {
    /// The snapshot is that of the given frame.
    pub open spec fn shows(self, frame: Frame) -> bool {
        &&& self.width == frame.width
        &&& self.height == frame.height
        &&& self.hist@ == frame_hist(frame)
        &&& self.grid_hist@ == frame_grid_hist(frame)
        &&& frame.pixels.len() == frame.width * frame.height
    }
}

/// The last frame.
#[derive(Debug)]
pub struct DetectionState {
    pub prev_small: Vec<u8>,
    pub prev_hist: [u32; 16],
    pub prev_grid_hist: [u32; GRID_HIST_LEN],
    pub prev_dims: Option<(usize, usize)>,
    pub frame_index: usize,
}

impl DetectionState {
    pub fn new() -> (r: DetectionState)
        ensures
            r.prev_small@ == Seq::<u8>::empty(),
            simd_metrics::untouched(r.prev_hist@),
            simd_metrics::untouched(r.prev_grid_hist@),
            r.prev_dims is None,
            r.frame_index == 0,
    {
        DetectionState {
            prev_small: Vec::new(),
            prev_hist: [0u32; 16],
            prev_grid_hist: [0u32; 256],
            prev_dims: None,
            frame_index: 0,
        }
    }

    pub fn is_first_frame(&self) -> (r: bool)
        ensures
            r == (self.frame_index == 0),
    {
        self.frame_index == 0
    }

    /// Makes the frame at hand the last one, and hands back the buffer of the one before it.
    pub fn absorb(&mut self, curr_small: &mut Vec<u8>, snapshot: &CurrentFrameSnapshot)
        ensures
            final(self).prev_small@ == old(curr_small)@,
            final(curr_small)@ == old(self).prev_small@,
            final(self).prev_hist == snapshot.hist,
            final(self).prev_grid_hist == snapshot.grid_hist,
            final(self).prev_dims == Some((snapshot.width, snapshot.height)),
            final(self).frame_index == sums::saturate(
                old(self).frame_index + 1,
                usize::MAX as int,
            ),
    {
        self.prev_dims = Some((snapshot.width, snapshot.height));
        self.prev_hist = snapshot.hist;
        self.prev_grid_hist = snapshot.grid_hist;
        self.frame_index = match self.frame_index.checked_add(1) {
            Some(next) => next,
            None => usize::MAX,
        };
        std::mem::swap(&mut self.prev_small, curr_small);
    }
}

/// A run over the frames of a video.
///
/// Each frame is handed to [`DetectionRun::process_frame`]; where that asks for the numbers that
/// follow from its measures, [`DetectionRun::settle_frame`] takes them before the next frame.
pub struct DetectionRun<'a> {
    options: &'a AnalyzeOptions,
    target: AnalysisTarget,
    xvid_detector: XvidDetector,
    adaptive_detector: Detector,
    state: DetectionState,
    plans: PlanCache,
    curr_small: Vec<u8>,
    waiting: Option<CurrentFrameSnapshot>,
    frame_stats: Vec<FrameCutStats>,
    pass_decisions: Vec<bool>,
}

/// `measures` are those of a frame that can be compared with the last one.
pub open spec fn measured(measures: FrameMeasures, progress: Progress, frame: Frame) -> bool {
    let pixels = frame.pixels.len() as int;
    &&& measures.hist == simd_metrics::dissimilarity(progress.prev_hist, frame_hist(frame), pixels)
    &&& measures.grid_hist == simd_metrics::dissimilarity(
        progress.prev_grid_hist,
        frame_grid_hist(frame),
        pixels,
    )
    &&& exists|ordered: Seq<Dissimilarity>| #[trigger]
        crate::order::sorted_from(
            ordered,
            simd_metrics::occupied_cells(progress.prev_grid_hist, frame_grid_hist(frame), 16),
        ) && measures.grid_hist_median == simd_metrics::median(ordered)
    &&& measures.sad == simd_metrics::frame_difference(progress.prev_small, frame.pixels)
    &&& measures.width == frame.width
    &&& measures.height == frame.height
    &&& measures.threshold_raise == detector::warm_up_raise(progress.intra_count)
    &&& match measures.middle_scores {
        Some(middle) => progress.window.len() >= detector::MIN_SAMPLES_FOR_ADAPTIVE_THRESHOLD
            && detector::middle_of(middle@, progress.window),
        None => progress.window.len() < detector::MIN_SAMPLES_FOR_ADAPTIVE_THRESHOLD,
    }
}

proof fn lemma_snapshot(
    plan: GridHistogramPlan,
    metrics: FrameMetrics,
    prev: Option<Seq<u8>>,
    frame: Frame,
)
    requires
        plan.width() == frame.width,
        plan.height() == if frame.width == 0 {
            0
        } else {
            frame.height as int
        },
        frame.pixels.len() == frame.width * frame.height,
        plan.measures(metrics, prev, frame.pixels),
    ensures
        metrics.hist@ == frame_hist(frame),
        metrics.grid_hist@ == frame_grid_hist(frame),
        prev matches Some(last) ==> last.len() == frame.pixels.len() ==> last.len() > 0
            ==> metrics.sad == simd_metrics::frame_difference(last, frame.pixels),
{
    let pixels = frame.width * frame.height;
    let classes = simd_metrics::brightness_classes(frame.pixels);
    let slots = simd_metrics::grid_slots(frame.pixels, frame.width as int, frame.height as int);
    if frame.width == 0 || frame.height == 0 {
        assert(pixels == 0) by (nonlinear_arith)
            requires
                pixels == frame.width * frame.height,
                frame.width == 0 || frame.height == 0,
        ;
    }
    assert(metrics.hist@ =~= frame_hist(frame)) by {
        assert forall|v: int| 0 <= v < 16 implies metrics.hist@[v] == sums::value_counts(
            pixels,
            classes,
        )(v) as u32 by {}
    }
    assert(metrics.grid_hist@ =~= frame_grid_hist(frame)) by {
        assert forall|v: int| 0 <= v < GRID_HIST_LEN implies metrics.grid_hist@[v]
            == sums::value_counts(pixels, slots)(v) as u32 by {}
    }
}

proof fn lemma_frame_is_full(data: Seq<u8>, stride: int, info: FrameInfo, native_res: bool)
    ensures
        ({
            let frame = analysed_frame(data, stride, info, native_res);
            &&& frame.pixels.len() == frame.width * frame.height
            &&& !native_res ==> frame.width <= MAX_WORKING_WIDTH && frame.height
                <= MAX_WORKING_HEIGHT && frame.pixels.len() <= 15360
        }),
{
    let frame = analysed_frame(data, stride, info, native_res);
    if info.width > 0 && info.height > 0 {
        working_size_is_bounded(info.width as int, info.height as int);
    }
    assert(0 <= frame.width * frame.height) by (nonlinear_arith);
    if !native_res {
        assert(frame.width * frame.height <= 160 * 96) by (nonlinear_arith)
            requires
                frame.width <= 160,
                frame.height <= 96,
        ;
    }
}

impl<'a> DetectionRun<'a> {
    pub closed spec fn options(self) -> AnalyzeOptions {
        *self.options
    }

    pub closed spec fn target(self) -> AnalysisTarget {
        self.target
    }

    pub open spec fn settings(self) -> Settings {
        self.options().settings()
    }

    pub closed spec fn progress(self) -> Progress {
        Progress {
            intra_count: self.xvid_detector.intra_count(),
            window: self.adaptive_detector.window(),
            prev_dims: self.state.prev_dims,
            prev_small: self.state.prev_small@,
            prev_hist: self.state.prev_hist@,
            prev_grid_hist: self.state.prev_grid_hist@,
            frame_index: self.state.frame_index as int,
            frame_stats: self.frame_stats@,
            pass_decisions: self.pass_decisions@,
        }
    }

    /// The frame that waits for its numbers.
    pub closed spec fn waiting(self) -> Option<Frame> {
        match self.waiting {
            Some(snapshot) => Some(
                Frame {
                    pixels: self.curr_small@,
                    width: snapshot.width,
                    height: snapshot.height,
                },
            ),
            None => None,
        }
    }

    pub closed spec fn well_formed(self) -> bool {
        &&& self.options.xvid_config.search_radius > i32::MIN
        &&& self.xvid_detector.config() == self.options.xvid_config
        &&& self.adaptive_detector.config() == self.options.adaptive_config
        &&& self.plans.well_formed()
        &&& self.progress().complete(self.target)
        &&& self.waiting matches Some(snapshot) ==> {
            let frame = self.waiting()->0;
            &&& snapshot.shows(frame)
            &&& self.state.frame_index > 0
            &&& !self.progress().broken_by(frame)
        }
    }

    /// A run on a machine that can run `workers` threads at once.
    pub fn new(options: &'a AnalyzeOptions, target: AnalysisTarget, workers: usize) -> (r:
        DetectionRun<'a>)
        requires
            options.xvid_config.search_radius > i32::MIN,
        ensures
            r.well_formed(),
            r.options() == *options,
            r.target() == target,
            r.progress() == Progress::start(),
            r.waiting() is None,
    {
        let run = DetectionRun {
            options,
            target,
            xvid_detector: XvidDetector::new(options.xvid_config, workers),
            adaptive_detector: Detector::new(options.adaptive_config),
            state: DetectionState::new(),
            plans: PlanCache::new(),
            curr_small: Vec::new(),
            waiting: None,
            frame_stats: Vec::new(),
            pass_decisions: Vec::new(),
        };
        assert(run.progress().prev_hist =~= Progress::start().prev_hist);
        assert(run.progress().prev_grid_hist =~= Progress::start().prev_grid_hist);
        run
    }

    /// Notes a frame for the target.
    fn note_frame(&mut self, record: &DetectionRecord)
        ensures
            final(self).progress() == old(self).progress().note(old(self).target, *record),
            final(self).options == old(self).options,
            final(self).target == old(self).target,
            final(self).xvid_detector == old(self).xvid_detector,
            final(self).adaptive_detector == old(self).adaptive_detector,
            final(self).state == old(self).state,
            final(self).plans == old(self).plans,
            final(self).curr_small == old(self).curr_small,
            final(self).waiting == old(self).waiting,
    {
        if self.target.needs_pass_decisions() {
            self.pass_decisions.push(record.is_cut);
        }
        if self.target.needs_keyframes() {
            self.frame_stats.push(
                FrameCutStats {
                    frame_index: self.state.frame_index,
                    is_cut: record.is_cut,
                    score: record.score,
                    hist_distance: record.hist_distance,
                    grid_hist_distance: record.grid_hist_distance,
                    grid_hist_median: record.grid_hist_median,
                },
            );
        }
    }

    /// Takes the next frame.
    pub fn process_frame(&mut self, view: LumaView<'_>, info: FrameInfo) -> (r: FrameArrival)
        requires
            old(self).well_formed(),
            old(self).waiting() is None,
            old(self).progress().frame_index < usize::MAX,
            simd_metrics::plane_fits(
                view.data@.len() as int,
                view.stride as int,
                info.width as int,
                info.height as int,
            ),
            old(self).options().native_res ==> {
                let frame = analysed_frame(view.data@, view.stride as int, info, true);
                &&& info.width > 0 && info.height > 0 ==> 4 * (info.width - 1) <= usize::MAX && 4
                    * (info.height - 1) <= usize::MAX
                &&& simd_metrics::counters_hold(
                    info.width * info.height,
                    simd_metrics::brightness_classes(frame.pixels),
                )
            },
        ensures
            final(self).well_formed(),
            final(self).options() == old(self).options(),
            final(self).target() == old(self).target(),
            ({
                let before = old(self).progress();
                let frame = analysed_frame(
                    view.data@,
                    view.stride as int,
                    info,
                    old(self).options().native_res,
                );
                match r {
                    FrameArrival::First => before.frame_index == 0,
                    FrameArrival::NewScene(record) => before.frame_index > 0 && before.broken_by(
                        frame,
                    ) && record == new_scene_record(),
                    FrameArrival::Compared(measures) => before.frame_index > 0
                        && !before.broken_by(frame) && measured(measures, before, frame)
                        && final(self).progress() == before && final(self).waiting() == Some(frame),
                }
            }),
            !(r is Compared) ==> final(self).waiting() is None && forall|values: FrameValues|
                #![trigger old(self).progress().advance(
                    old(self).settings(),
                    old(self).target(),
                    analysed_frame(
                        view.data@,
                        view.stride as int,
                        info,
                        old(self).options().native_res,
                    ),
                    values,
                )]
                final(self).progress() == old(self).progress().advance(
                    old(self).settings(),
                    old(self).target(),
                    analysed_frame(
                        view.data@,
                        view.stride as int,
                        info,
                        old(self).options().native_res,
                    ),
                    values,
                ),
    {
        let ghost native_res = self.options.native_res;
        let ghost frame = analysed_frame(view.data@, view.stride as int, info, native_res);
        proof {
            lemma_frame_is_full(view.data@, view.stride as int, info, native_res);
        }
        let (width, height) = prepare_analysis_pixels(
            view,
            info,
            self.options.native_res,
            &mut self.plans,
            &mut self.curr_small,
        );
        proof {
            if !native_res {
                simd_metrics::few_places_can_be_counted(
                    frame.width * frame.height,
                    simd_metrics::brightness_classes(frame.pixels),
                );
            }
        }
        let prev: Option<&[u8]> = if self.state.is_first_frame() {
            None
        } else {
            Some(self.state.prev_small.as_slice())
        };
        let plan = self.plans.grid_plan(width, height);
        let metrics = plan.accumulate_frame_metrics(prev, self.curr_small.as_slice());
        proof {
            lemma_snapshot(*plan, metrics, simd_metrics::plane_view(prev), frame);
        }
        let snapshot = CurrentFrameSnapshot {
            width,
            height,
            hist: metrics.hist,
            grid_hist: metrics.grid_hist,
        };
        if self.state.is_first_frame() {
            if self.target.needs_pass_decisions() {
                self.pass_decisions.push(true);
            }
            self.state.absorb(&mut self.curr_small, &snapshot);
            return FrameArrival::First;
        }
        let same_dims = match self.state.prev_dims {
            Some(dims) => dims.0 == width && dims.1 == height,
            None => false,
        };
        let dims_changed = !same_dims || self.state.prev_small.len() != self.curr_small.len();
        if dims_changed || self.state.prev_small.len() == 0 {
            self.xvid_detector.reset();
            self.adaptive_detector.reset();
            let record = DetectionRecord {
                is_cut: true,
                score: Double::infinity(),
                threshold: Double::infinity(),
                intra_blocks: 0,
                total_blocks: 0,
                mc_sad: 0,
                hist_distance: Double::one(),
                grid_hist_distance: Double::one(),
                grid_hist_median: Double::one(),
            };
            self.note_frame(&record);
            self.state.absorb(&mut self.curr_small, &snapshot);
            return FrameArrival::NewScene(record);
        }
        let measures = FrameMeasures {
            hist: histogram_distance_16_from_hists(
                &self.state.prev_hist,
                &snapshot.hist,
                self.curr_small.len(),
            ),
            grid_hist: grid_histogram_distance_16_from_hists(
                &self.state.prev_grid_hist,
                &snapshot.grid_hist,
                self.curr_small.len(),
            ),
            grid_hist_median: grid_histogram_median_cell_distance_16_from_hists(
                &self.state.prev_grid_hist,
                &snapshot.grid_hist,
            ),
            sad: metrics.sad,
            width,
            height,
            threshold_raise: self.xvid_detector.threshold_raise(),
            middle_scores: self.adaptive_detector.middle_scores(),
        };
        self.waiting = Some(snapshot);
        FrameArrival::Compared(measures)
    }

    /// Takes the numbers that follow from the measures of the frame that waits for them.
    pub fn settle_frame(&mut self, values: FrameValues) -> (r: DetectionRecord)
        requires
            old(self).well_formed(),
            old(self).waiting() is Some,
            old(self).progress().frame_index < usize::MAX,
        ensures
            final(self).well_formed(),
            final(self).options() == old(self).options(),
            final(self).target() == old(self).target(),
            final(self).waiting() is None,
            r == old(self).progress().judge(
                old(self).settings(),
                old(self).waiting()->0,
                values,
            ),
            final(self).progress() == old(self).progress().advance(
                old(self).settings(),
                old(self).target(),
                old(self).waiting()->0,
                values,
            ),
    {
        let snapshot = self.waiting.unwrap();
        let motion = self.xvid_detector.decide(
            self.state.prev_small.as_slice(),
            self.curr_small.as_slice(),
            snapshot.width,
            snapshot.height,
            values.threshold,
        );
        let (adaptive_cut, _) = self.adaptive_detector.decide_with_threshold(
            values.adaptive_score,
            values.hist_distance,
            values.statistic,
        );
        self.adaptive_detector.observe(values.adaptive_score);
        let near_motion_cut = motion.threshold.is_finite() && motion.threshold.gt(Double::zero())
            && motion.score.ge(values.promotion_threshold);
        let record = DetectionRecord {
            is_cut: motion.is_cut || (near_motion_cut && adaptive_cut),
            score: motion.score,
            threshold: motion.threshold,
            intra_blocks: motion.intra_blocks,
            total_blocks: motion.total_blocks,
            mc_sad: motion.mc_sad,
            hist_distance: values.hist_distance,
            grid_hist_distance: values.grid_hist_distance,
            grid_hist_median: values.grid_hist_median,
        };
        self.note_frame(&record);
        self.waiting = None;
        self.state.absorb(&mut self.curr_small, &snapshot);
        record
    }

    /// How many frames there were.
    pub fn frames(&self) -> (r: usize)
        ensures
            r == self.progress().frame_index,
    {
        self.state.frame_index
    }

    /// The statistics noted so far.
    pub fn frame_stats(&self) -> (r: &Vec<FrameCutStats>)
        ensures
            r@ == self.progress().frame_stats,
    {
        &self.frame_stats
    }

    /// Ends the run.
    ///
    /// `blended` holds, for each of the noted statistics, the histogram distance plus the
    /// configured weight times the median cell distance.
    pub fn finish(self, blended: &[Double]) -> (r: AnalysisResult)
        requires
            self.well_formed(),
            self.progress().frame_index < usize::MAX,
            blended@.len() == self.progress().frame_stats.len(),
            self.target().wants_keyframes() ==> self.progress().frame_stats.len()
                >= self.options().postprocess_config.min_postprocess_frames ==> 0
                < self.options().postprocess_config.dense_recovery_target_span_frames,
        ensures
            found(r, self.options(), self.target(), self.progress(), blended@),
            r.pass_decisions@.len() == if self.target().wants_pass_decisions() {
                self.progress().frame_index
            } else {
                0
            },
            r.pass_decisions@.len() > 0 ==> r.pass_decisions@[0],
            self.target().wants_keyframes() ==> {
                &&& r.keyframes@.len() > 0
                &&& r.keyframes@[0] == 0
                &&& postprocess::ascending(r.keyframes@)
                &&& forall|k: int|
                    0 <= k < r.keyframes@.len() ==> #[trigger] r.keyframes@[k] < sums::maximum(
                        self.progress().frame_index,
                        1,
                    )
            },
    {
        let keyframes: Vec<usize> = if self.target.needs_keyframes() {
            refine_frame_keyframes_with_config(
                self.frame_stats.as_slice(),
                blended,
                &self.options.postprocess_config,
            )
        } else {
            Vec::new()
        };
        AnalysisResult { keyframes, pass_decisions: self.pass_decisions }
    }

    /// Ends the run once the decoder has come to an end, in one way or the other.
    pub fn conclude(self, decoded: SCuiseiResult<()>, blended: &[Double]) -> (r: SCuiseiResult<
        AnalysisResult,
    >)
        requires
            self.well_formed(),
            self.progress().frame_index < usize::MAX,
            blended@.len() == self.progress().frame_stats.len(),
            self.target().wants_keyframes() ==> self.progress().frame_stats.len()
                >= self.options().postprocess_config.min_postprocess_frames ==> 0
                < self.options().postprocess_config.dense_recovery_target_span_frames,
        ensures
            match decoded {
                Ok(_) => r matches Ok(result) && found(
                    result,
                    self.options(),
                    self.target(),
                    self.progress(),
                    blended@,
                ),
                Err(error) => r == Err::<AnalysisResult, SCuiseiError>(error),
            },
            forall|frames: Seq<(Frame, FrameValues)>|
                validation::passes(Ok(()), self.options().checks(self.target()))
                    && self.progress() == #[trigger] Progress::after(
                    self.settings(),
                    self.target(),
                    frames,
                ) ==> comes_to(r, self.options(), self.target(), decoded, frames, blended@),
    {
        match decoded {
            Ok(_) => Ok(self.finish(blended)),
            Err(error) => Err(error),
        }
    }
}

/// After each frame a run holds that frame as the last one, cut or not: its pixels, its size, and
/// how often each brightness occurs in it, in the whole frame and in each cell of its grid.
pub proof fn runs_keep_the_last_frame(
    settings: Settings,
    target: AnalysisTarget,
    frames: Seq<(Frame, FrameValues)>,
)
    requires
        frames.len() > 0,
    ensures
        ({
            let kept = Progress::after(settings, target, frames);
            let last = frames.last().0;
            let pixels = last.width * last.height;
            let width = last.width as int;
            let height = last.height as int;
            &&& kept.prev_small == last.pixels
            &&& kept.prev_dims == Some((last.width, last.height))
            &&& kept.prev_hist == Seq::new(
                16,
                |v: int| sums::count(pixels, |i: int| last.pixels[i] as int / 16 == v) as u32,
            )
            &&& kept.prev_grid_hist == Seq::new(
                256,
                |v: int|
                    sums::count(
                        pixels,
                        |i: int|
                            64 * ((i / width) * 4 / height) + 16 * ((i % width) * 4 / width)
                                + last.pixels[i] as int / 16 == v,
                    ) as u32,
            )
            &&& kept.frame_index == frames.len()
        }),
{
    let kept = Progress::after(settings, target, frames);
    let last = frames.last().0;
    let pixels = last.width * last.height;
    let width = last.width as int;
    let height = last.height as int;
    lemma_frames_are_counted(settings, target, frames);
    let hist = Seq::new(
        16,
        |v: int| sums::count(pixels, |i: int| last.pixels[i] as int / 16 == v) as u32,
    );
    assert forall|v: int| 0 <= v < 16 implies #[trigger] kept.prev_hist[v] == hist[v] by {
        let one = sums::places_of(simd_metrics::brightness_classes(last.pixels), v);
        let other = |i: int| last.pixels[i] as int / 16 == v;
        sums::lemma_sum_same(pixels, sums::indicator(one), sums::indicator(other));
    }
    assert(kept.prev_hist =~= hist);
    let grid = Seq::new(
        256,
        |v: int|
            sums::count(
                pixels,
                |i: int|
                    64 * ((i / width) * 4 / height) + 16 * ((i % width) * 4 / width)
                        + last.pixels[i] as int / 16 == v,
            ) as u32,
    );
    assert forall|v: int| 0 <= v < 256 implies #[trigger] kept.prev_grid_hist[v] == grid[v] by {
        let one = sums::places_of(simd_metrics::grid_slots(last.pixels, width, height), v);
        let other = |i: int|
            64 * ((i / width) * 4 / height) + 16 * ((i % width) * 4 / width)
                + last.pixels[i] as int / 16 == v;
        sums::lemma_sum_same(pixels, sums::indicator(one), sums::indicator(other));
    }
    assert(kept.prev_grid_hist =~= grid);
}

proof fn lemma_frames_are_counted(
    settings: Settings,
    target: AnalysisTarget,
    frames: Seq<(Frame, FrameValues)>,
)
    ensures
        Progress::after(settings, target, frames).frame_index == frames.len(),
    decreases frames.len(),
{
    if frames.len() > 0 {
        lemma_frames_are_counted(settings, target, frames.drop_last());
    }
}

/// A frame is judged by comparison with the frame right before it. It is a cut where the
/// motion-based decision on the two is one, or comes near to one while the adaptive detector
/// finds a cut. Where the two frames differ in size, or have no pixels, it is a cut outright.
pub proof fn frames_are_judged_by_the_one_before(
    settings: Settings,
    target: AnalysisTarget,
    frames: Seq<(Frame, FrameValues)>,
    frame: Frame,
    values: FrameValues,
)
    requires
        frames.len() > 0,
    ensures
        ({
            let before = Progress::after(settings, target, frames);
            let last = frames.last().0;
            let judged = before.judge(settings, frame, values);
            let motion = detector::decision(
                settings.xvid,
                before.intra_count,
                last.pixels,
                frame.pixels,
                frame.width,
                frame.height,
                values.threshold,
            );
            let comparable = last.width == frame.width && last.height == frame.height
                && last.pixels.len() == frame.pixels.len() && frame.pixels.len() > 0;
            let promoted = values.threshold.finite() && (Double { bits: 0 }).below(
                values.threshold,
            ) && values.promotion_threshold.at_most(judged.score) && detector::adaptive_cut(
                settings.adaptive,
                before.window,
                values.adaptive_score,
                values.hist_distance,
                values.statistic,
            );
            &&& !comparable ==> {
                &&& judged.is_cut
                &&& !judged.score.finite() && !judged.score.nan() && !judged.score.negative()
                &&& judged.threshold == judged.score
                &&& judged.intra_blocks == 0 && judged.total_blocks == 0 && judged.mc_sad == 0
                &&& judged.hist_distance == double::integer(1)
                &&& judged.grid_hist_distance == double::integer(1)
                &&& judged.grid_hist_median == double::integer(1)
            }
            &&& comparable ==> {
                &&& judged.is_cut <==> 2 * judged.intra_blocks > judged.total_blocks
                    || values.threshold.below(judged.score) || promoted
                &&& judged.score == motion.score
                &&& judged.threshold == values.threshold
                &&& judged.intra_blocks == motion.intra_blocks
                &&& judged.total_blocks == motion.total_blocks
                &&& judged.mc_sad == motion.mc_sad
                &&& judged.hist_distance == values.hist_distance
                &&& judged.grid_hist_distance == values.grid_hist_distance
                &&& judged.grid_hist_median == values.grid_hist_median
            }
        }),
{
    runs_keep_the_last_frame(settings, target, frames);
    double::one_is_an_integer();
}

/// The detectors go on with each comparable frame: the motion-based one counts the frame to the
/// scene, or starts a scene where it found a cut itself, and the adaptive one takes the score
/// into its window. A frame that cannot be compared starts both anew.
pub proof fn detectors_go_on_with_each_frame(
    settings: Settings,
    target: AnalysisTarget,
    frames: Seq<(Frame, FrameValues)>,
    frame: Frame,
    values: FrameValues,
)
    requires
        frames.len() > 0,
    ensures
        ({
            let before = Progress::after(settings, target, frames);
            let after = Progress::after(settings, target, frames.push((frame, values)));
            let last = frames.last().0;
            let judged = before.judge(settings, frame, values);
            let comparable = last.width == frame.width && last.height == frame.height
                && last.pixels.len() == frame.pixels.len() && frame.pixels.len() > 0;
            let motion_cut = 2 * judged.intra_blocks > judged.total_blocks
                || values.threshold.below(judged.score);
            let longer = before.window.push(values.adaptive_score);
            let size = settings.adaptive.window_size as int;
            &&& !comparable ==> after.intra_count == 1 && after.window.len() == 0
            &&& comparable && motion_cut ==> after.intra_count == 1
            &&& comparable && !motion_cut && before.intra_count < usize::MAX ==> after.intra_count
                == before.intra_count + 1
            &&& comparable && 0 < size && before.window.len() <= size ==> {
                &&& after.window.len() == if before.window.len() < size {
                    before.window.len() as int + 1
                } else {
                    size
                }
                &&& after.window == longer.skip(longer.len() - after.window.len())
            }
            &&& comparable && size == 0 ==> after.window == before.window
        }),
{
    let before = Progress::after(settings, target, frames);
    let after = Progress::after(settings, target, frames.push((frame, values)));
    let longer = before.window.push(values.adaptive_score);
    let size = settings.adaptive.window_size as int;
    runs_advance_frame_by_frame(settings, target, frames, frame, values);
    runs_keep_the_last_frame(settings, target, frames);
    if after.window.len() > 0 && before.window.len() <= size {
        assert(after.window =~= longer.skip(longer.len() - after.window.len()));
    }
}

/// The first frame starts both detectors, and is noted as a cut.
pub proof fn the_first_frame_starts_a_scene(
    settings: Settings,
    target: AnalysisTarget,
    frame: Frame,
    values: FrameValues,
)
    ensures
        ({
            let after = Progress::after(settings, target, seq![(frame, values)]);
            &&& after.intra_count == 1
            &&& after.window.len() == 0
            &&& after.frame_stats.len() == 0
            &&& after.pass_decisions == if target is Keyframes {
                Seq::empty()
            } else {
                seq![true]
            }
        }),
{
    assert(seq![(frame, values)] =~= Seq::empty().push((frame, values)));
    runs_advance_frame_by_frame(settings, target, Seq::empty(), frame, values);
    let after = Progress::after(settings, target, seq![(frame, values)]);
    assert(after.pass_decisions =~= if target is Keyframes {
        Seq::empty()
    } else {
        seq![true]
    });
}

/// Each later frame adds the judgement on it to what was noted before: whether it is a cut to the
/// decisions, and its place and its numbers to the statistics.
pub proof fn judgements_are_noted_as_they_are(
    settings: Settings,
    target: AnalysisTarget,
    frames: Seq<(Frame, FrameValues)>,
    frame: Frame,
    values: FrameValues,
)
    requires
        0 < frames.len() <= usize::MAX,
    ensures
        ({
            let before = Progress::after(settings, target, frames);
            let after = Progress::after(settings, target, frames.push((frame, values)));
            let judged = before.judge(settings, frame, values);
            &&& target is PassDecisions ==> after.frame_stats == before.frame_stats
            &&& target !is PassDecisions ==> {
                let stat = after.frame_stats.last();
                &&& after.frame_stats.len() == before.frame_stats.len() + 1
                &&& after.frame_stats.drop_last() == before.frame_stats
                &&& stat.frame_index == frames.len()
                &&& stat.is_cut == judged.is_cut
                &&& stat.score == judged.score
                &&& stat.hist_distance == judged.hist_distance
                &&& stat.grid_hist_distance == judged.grid_hist_distance
                &&& stat.grid_hist_median == judged.grid_hist_median
            }
            &&& target is Keyframes ==> after.pass_decisions == before.pass_decisions
            &&& target !is Keyframes ==> after.pass_decisions == before.pass_decisions.push(
                judged.is_cut,
            )
        }),
{
    let before = Progress::after(settings, target, frames);
    let after = Progress::after(settings, target, frames.push((frame, values)));
    runs_advance_frame_by_frame(settings, target, frames, frame, values);
    lemma_frames_are_counted(settings, target, frames);
    if target !is PassDecisions {
        assert(after.frame_stats.drop_last() =~= before.frame_stats);
    }
}

/// What is measured of a frame is measured against the frame right before it.
pub proof fn measures_compare_neighbouring_frames(
    settings: Settings,
    target: AnalysisTarget,
    frames: Seq<(Frame, FrameValues)>,
    frame: Frame,
    measures: FrameMeasures,
)
    requires
        frames.len() > 0,
        frames.last().0.pixels.len() == frame.pixels.len(),
        0 < frame.pixels.len() <= usize::MAX,
        measured(measures, Progress::after(settings, target, frames), frame),
    ensures
        ({
            let before = Progress::after(settings, target, frames);
            let last = frames.last().0;
            let own = frame_hist(frame);
            let own_grid = frame_grid_hist(frame);
            let least = |a: u32, b: u32|
                if a <= b {
                    a as int
                } else {
                    b as int
                };
            &&& measures.hist.total == frame.pixels.len()
            &&& measures.hist.overlap == sums::sum(
                16,
                |v: int| least(before.prev_hist[v], own[v]),
            )
            &&& measures.grid_hist.total == frame.pixels.len()
            &&& measures.grid_hist.overlap == sums::sum(
                256,
                |v: int| least(before.prev_grid_hist[v], own_grid[v]),
            )
            &&& measures.sad == simd_metrics::frame_difference(last.pixels, frame.pixels)
            &&& measures.sad == 0 <==> last.pixels == frame.pixels
            &&& measures.width == frame.width && measures.height == frame.height
            &&& measures.middle_scores is Some <==> before.window.len() >= 5
            &&& measures.middle_scores matches Some(scores) ==> exists|ordered: Seq<Double>| #[trigger]
                order::sorted_from(ordered, before.window) && scores@ == ordered.subrange(
                    sums::maximum(before.window.len() as int / 10, 1),
                    before.window.len() - sums::maximum(before.window.len() as int / 10, 1),
                )
            &&& exists|ordered: Seq<Dissimilarity>| #[trigger]
                order::sorted_from(
                    ordered,
                    simd_metrics::occupied_cells(before.prev_grid_hist, own_grid, 16),
                ) && match measures.grid_hist_median {
                    MedianDissimilarity::Absent => ordered.len() == 0,
                    MedianDissimilarity::Middle(middle) => ordered.len() % 2 == 1 && middle
                        == ordered[ordered.len() as int / 2],
                    MedianDissimilarity::Between(lower, upper) => 0 < ordered.len()
                        && ordered.len() % 2 == 0 && upper == ordered[ordered.len() as int / 2]
                        && lower == ordered[ordered.len() as int / 2 - 1],
                }
            &&& before.intra_count >= 30 ==> measures.threshold_raise == 0
            &&& before.intra_count < 30 ==> measures.threshold_raise == 120 - 4
                * before.intra_count
        }),
{
    let before = Progress::after(settings, target, frames);
    let last = frames.last().0;
    let own = frame_hist(frame);
    let own_grid = frame_grid_hist(frame);
    let least = |a: u32, b: u32|
        if a <= b {
            a as int
        } else {
            b as int
        };
    let pixels = frame.pixels.len() as int;
    runs_keep_the_last_frame(settings, target, frames);
    simd_metrics::difference_is_a_metric(last.pixels, frame.pixels);
    if measures.middle_scores is Some {
        let len = before.window.len() as int;
        let trim = detector::trimmed_at_each_end(len);
        assert(trim == sums::maximum(len / 10, 1));
        let ordered = choose|ordered: Seq<Double>| #[trigger]
            order::sorted_from(ordered, before.window) && measures.middle_scores->0@
                == ordered.subrange(trim, ordered.len() - trim);
        ordered.to_multiset_ensures();
        before.window.to_multiset_ensures();
        assert(order::sorted_from(ordered, before.window));
        assert(ordered.len() == len);
    }
    simd_metrics::unlikeness_is_what_is_not_counted_alike(before.prev_hist, own, pixels);
    simd_metrics::unlikeness_is_what_is_not_counted_alike(before.prev_grid_hist, own_grid, pixels);
    sums::lemma_sum_same(
        16,
        |v: int|
            if before.prev_hist[v] <= own[v] {
                before.prev_hist[v] as int
            } else {
                own[v] as int
            },
        |v: int| least(before.prev_hist[v], own[v]),
    );
    sums::lemma_sum_same(
        256,
        |v: int|
            if before.prev_grid_hist[v] <= own_grid[v] {
                before.prev_grid_hist[v] as int
            } else {
                own_grid[v] as int
            },
        |v: int| least(before.prev_grid_hist[v], own_grid[v]),
    );
}

/// The working resolution keeps the shape of a plane, up to a pixel: one side is as long as it may
/// be, and the other in proportion. What fits is not reduced.
pub proof fn working_size_keeps_the_shape(width: int, height: int)
    requires
        0 < width,
        0 < height,
        width * 96 <= usize::MAX,
        height * 160 <= usize::MAX,
    ensures
        ({
            let (out_width, out_height) = working_size(width, height);
            &&& width <= 160 && height <= 96 ==> out_width == width && out_height == height
            &&& {
                ||| {
                    &&& out_width == sums::minimum(width, 160)
                    &&& out_height == 1 || out_height * width <= height * out_width
                    &&& height * out_width < (out_height + 1) * width
                }
                ||| {
                    &&& out_height == sums::minimum(height, 96)
                    &&& out_width == 1 || out_width * height <= width * out_height
                    &&& width * out_height < (out_width + 1) * height
                }
            }
        }),
{
    let full_width = sums::minimum(width, 160);
    let full_height = sums::minimum(height, 96);
    assert(height * full_width <= height * 160) by (nonlinear_arith)
        requires
            0 < height,
            full_width <= 160,
    ;
    assert(width * full_height <= width * 96) by (nonlinear_arith)
        requires
            0 < width,
            full_height <= 96,
    ;
    lemma_division(height * full_width, width);
    lemma_division(width * full_height, height);
    if width <= 160 {
        assert(height * width / width == height) by (nonlinear_arith)
            requires
                0 < width,
        ;
    }
}

proof fn lemma_division(n: int, d: int)
    requires
        0 < d,
        0 <= n,
    ensures
        (n / d) * d <= n < (n / d + 1) * d,
        n / d == 0 ==> n < 2 * d,
{
    assert((n / d) * d <= n < (n / d + 1) * d) by (nonlinear_arith)
        requires
            0 < d,
    ;
}

/// A frame is analysed at its own resolution where that is asked for, and else at the working
/// resolution.
pub proof fn frames_are_analysed_at_the_asked_resolution(
    data: Seq<u8>,
    stride: int,
    info: FrameInfo,
    x: int,
    y: int,
)
    requires
        0 < info.width,
        0 < info.height,
        info.width * 160 <= usize::MAX,
        info.height * 160 <= usize::MAX,
        0 <= x,
        0 <= y,
    ensures
        ({
            let native = analysed_frame(data, stride, info, true);
            let reduced = analysed_frame(data, stride, info, false);
            let size = working_size(info.width as int, info.height as int);
            &&& native.width == info.width && native.height == info.height
            &&& reduced.width == size.0 && reduced.height == size.1
            &&& x < native.width && y < native.height ==> native.pixels[y * native.width + x]
                == data[y * stride + x]
            &&& x < reduced.width && y < reduced.height ==> reduced.pixels[y * reduced.width + x]
                == data[(y * info.height / (reduced.height as int)) * stride + x * info.width / (
            reduced.width as int)]
        }),
{
    let width = info.width as int;
    let height = info.height as int;
    let size = working_size(width, height);
    working_size_is_bounded(width, height);
    if x < width && y < height {
        simd_metrics::packed_planes_keep_pixels(data, stride, width, height, x, y);
    }
    if x < size.0 && y < size.1 {
        assert(size.0 * width <= width * 160) by (nonlinear_arith)
            requires
                0 <= size.0 <= 160,
                0 < width,
        ;
        assert(size.1 * height <= height * 160) by (nonlinear_arith)
            requires
                0 <= size.1 <= 160,
                0 < height,
        ;
        simd_metrics::reduced_planes_keep_positions(
            data,
            stride,
            width,
            height,
            size.0,
            size.1,
            x,
            y,
        );
    }
}

/// The options pass where the settings of both detectors do and, unless decisions alone are asked
/// for, the settings for the choice of keyframes as well.
pub proof fn options_pass_with_their_settings(options: AnalyzeOptions, target: AnalysisTarget)
    ensures
        validation::passes(Ok(()), options.checks(target)) <==> {
            &&& validation::passes(Ok(()), options.xvid_config.checks())
            &&& validation::passes(Ok(()), options.adaptive_config.checks())
            &&& target is PassDecisions || validation::passes(
                Ok(()),
                options.postprocess_config.checks(),
            )
        },
{
    let xvid = options.xvid_config.checks();
    let adaptive = options.adaptive_config.checks();
    let rest = options.postprocess_config.checks();
    let both = xvid + adaptive;
    if validation::passes(Ok(()), options.checks(target)) {
        if target !is PassDecisions {
            validation::lemma_fails_before(Ok(()), both, rest);
            assert forall|i: int| 0 <= i < rest.len() implies (#[trigger] rest[i]).valid by {
                assert(rest[i] == (both + rest)[both.len() + i]);
            }
        }
        validation::lemma_fails_before(Ok(()), xvid, adaptive);
        assert forall|i: int| 0 <= i < adaptive.len() implies (#[trigger] adaptive[i]).valid by {
            assert(adaptive[i] == both[xvid.len() + i]);
        }
    } else {
        if validation::passes(Ok(()), xvid) && validation::passes(Ok(()), adaptive) {
            validation::lemma_passes_on(Ok(()), xvid, adaptive);
            if target !is PassDecisions && validation::passes(Ok(()), rest) {
                validation::lemma_passes_on(Ok(()), both, rest);
            }
        }
    }
}

/// The settings of the motion-based detector are checked first, then those of the adaptive one,
/// then those for the choice of keyframes.
pub proof fn options_are_checked_in_order(
    options: AnalyzeOptions,
    target: AnalysisTarget,
    result: SCuiseiResult<()>,
)
    requires
        validation::passes(result, options.checks(target)),
    ensures
        ({
            let motion = validation::passes(Ok(()), options.xvid_config.checks());
            let adaptive = validation::passes(Ok(()), options.adaptive_config.checks());
            &&& !motion ==> validation::passes(result, options.xvid_config.checks())
            &&& motion && !adaptive ==> validation::passes(
                result,
                options.adaptive_config.checks(),
            )
            &&& motion && adaptive && target !is PassDecisions ==> validation::passes(
                result,
                options.postprocess_config.checks(),
            )
            &&& motion && adaptive && target is PassDecisions ==> result is Ok
        }),
{
    let first = options.xvid_config.checks();
    let second = options.adaptive_config.checks();
    let third = options.postprocess_config.checks();
    let all = options.checks(target);
    options_pass_with_their_settings(options, target);
    if result is Err {
        let k = choose|k: int|
            0 <= k < all.len() && (#[trigger] all[k]).agrees(result) && forall|j: int|
                0 <= j < k ==> (#[trigger] all[j]).valid;
        let a = first.len() as int;
        let b = a + second.len();
        assert(forall|j: int| 0 <= j < a ==> all[j] == #[trigger] first[j]);
        assert(forall|j: int| 0 <= j < second.len() ==> all[a + j] == #[trigger] second[j]);
        if k < a {
            assert(first[k].agrees(result));
            assert forall|j: int| 0 <= j < k implies (#[trigger] first[j]).valid by {
                assert(all[j].valid);
            }
            assert(validation::passes(result, first));
            assert(!first[k].valid);
        } else {
            assert forall|j: int| 0 <= j < a implies (#[trigger] first[j]).valid by {
                assert(all[j].valid);
            }
            if k < b {
                assert(second[k - a] == all[k]);
                assert(second[k - a].agrees(result));
                assert forall|j: int| 0 <= j < k - a implies (#[trigger] second[j]).valid by {
                    assert(all[a + j].valid);
                }
                assert(validation::passes(result, second));
                assert(!second[k - a].valid);
            } else {
                assert(forall|j: int|
                    0 <= j < third.len() && b + j < all.len() ==> all[b + j]
                        == #[trigger] third[j]);
                assert(third[k - b] == all[k]);
                assert(third[k - b].agrees(result));
                assert forall|j: int| 0 <= j < second.len() implies (
                #[trigger] second[j]).valid by {
                    assert(all[a + j].valid);
                }
                assert forall|j: int| 0 <= j < k - b implies (#[trigger] third[j]).valid by {
                    assert(all[b + j].valid);
                }
                assert(validation::passes(result, third));
            }
        }
    } else {
        assert(validation::passes(Ok(()), all));
    }
}

/// The options take over each setting of the command line under its own name, and the settings
/// that it cannot give are the defaults.
pub proof fn options_take_over_the_command_line(cli: Cli, dump_scores: bool)
    ensures
        ({
            let options = AnalyzeOptions::of_cli(cli, dump_scores);
            &&& options.input == cli.input
            &&& options.native_res == cli.native_res
            &&& options.hwdec == cli.hwdec
            &&& options.dump_scores == dump_scores
            &&& options.xvid_config.search_radius == cli.me_search_radius
            &&& options.xvid_config.intra_thresh == cli.me_intra_thresh
            &&& options.xvid_config.intra_thresh2 == cli.me_intra_thresh2
            &&& options.adaptive_config.window_size == cli.window_size
            &&& options.adaptive_config.sigma == cli.sigma
            &&& options.adaptive_config.base_threshold == cli.base_threshold
            &&& options.adaptive_config.min_hist_distance == cli.min_hist_distance
            &&& options.adaptive_config.min_score == cli.min_score
            &&& options.adaptive_config.sad_weight == cli.sad_weight
            &&& options.adaptive_config.hist_weight == cli.hist_weight
            &&& options.postprocess_config == PostprocessConfig::defaults()
        }),
{
}

} // verus!
