//! Frame-level motion analysis: how badly the previous frame predicts the current one.

use crate::motion;
use crate::motion::{
    dev_block, find_best_match_for_block, search_superblock_matches, MotionMatch,
    Search, SuperblockEvalContext, BLOCK_EDGE,
};
use crate::sums;
use rayon::iter::{IntoParallelRefIterator, ParallelIterator};
use vstd::prelude::*;

verus! {

pub const MIN_DEV: u32 = 300;

pub const DEV_STATIC: u32 = 1000;

pub const SAD_STATIC: u32 = 1000;

pub const DEV_BIAS: u32 = 512;

pub const DEV_HALF: u32 = 3000;

pub const PARALLEL_SUPERBLOCK_THRESHOLD: usize = 24;

/// Result of the analysis of one frame pair.
#[derive(Clone, Copy, Debug)]
pub struct MeAnalysis {
    pub score: u64,
    pub intra_blocks: usize,
    pub total_blocks: usize,
    pub mc_sad: u64,
}

/// What is summed up over the blocks of a frame.
#[derive(Clone, Copy, Debug)]
pub struct BlockTotals {
    pub intra: usize,
    pub ssad: u64,
    pub complexity: u64,
}

/// One of the three totals.
pub enum Measure {
    Intra,
    Ssad,
    Complexity,
}

/// The largest number a total can hold.
pub open spec fn measure_limit(measure: Measure) -> int {
    match measure {
        Measure::Intra => usize::MAX as int,
        Measure::Ssad => u64::MAX as int,
        Measure::Complexity => u64::MAX as int,
    }
}

impl BlockTotals {
    pub open spec fn of(self, measure: Measure) -> int {
        match measure {
            Measure::Intra => self.intra as int,
            Measure::Ssad => self.ssad as int,
            Measure::Complexity => self.complexity as int,
        }
    }

    pub fn zero() -> (r: BlockTotals)
        ensures
            r == (BlockTotals { intra: 0, ssad: 0, complexity: 0 }),
            forall|measure: Measure| #[trigger] r.of(measure) == 0,
    {
        BlockTotals { intra: 0, ssad: 0, complexity: 0 }
    }

    /// Adds the totals of two groups of blocks.
    pub fn plus(self, other: BlockTotals) -> (r: BlockTotals)
        ensures
            forall|measure: Measure| #[trigger]
                r.of(measure) == sums::saturate(
                    self.of(measure) + other.of(measure),
                    measure_limit(measure),
                ),
    {
        BlockTotals {
            intra: self.intra.saturating_add(other.intra),
            ssad: self.ssad.saturating_add(other.ssad),
            complexity: self.complexity.saturating_add(other.complexity),
        }
    }
}

/// What a block with the given deviation and motion match adds to a total.
pub open spec fn block_contribution(
    measure: Measure,
    dev: int,
    best: MotionMatch,
    intra_thresh: int,
) -> int {
    match measure {
        Measure::Intra => if sums::saturate(dev + intra_thresh, u32::MAX as int) < best.sad {
            1
        } else {
            0
        },
        Measure::Ssad => {
            let bias: int = if best.dx == 0 && best.dy == 0 && dev > DEV_STATIC && best.sad
                < SAD_STATIC {
                DEV_BIAS as int
            } else {
                0
            };
            bias + if dev < DEV_HALF {
                best.sad as int
            } else {
                best.sad as int / 2
            }
        },
        Measure::Complexity => sums::maximum(dev, MIN_DEV as int),
    }
}

/// The contribution of a block.
fn weigh_block(dev: u32, best: MotionMatch, intra_thresh: u32) -> (r: BlockTotals)
    ensures
        forall|measure: Measure| #[trigger]
            r.of(measure) == block_contribution(measure, dev as int, best, intra_thresh as int),
{
    let intra: usize = if dev.saturating_add(intra_thresh) < best.sad { 1 } else { 0 };
    let adjusted: u32 = if dev < DEV_HALF { best.sad } else { best.sad / 2 };
    let bias: u64 = if best.dx == 0 && best.dy == 0 && dev > DEV_STATIC && best.sad < SAD_STATIC {
        DEV_BIAS as u64
    } else {
        0
    };
    BlockTotals {
        intra,
        ssad: bias + adjusted as u64,
        complexity: if dev > MIN_DEV { dev as u64 } else { MIN_DEV as u64 },
    }
}

/// The deviation of the block at `(x, y)`.
pub open spec fn deviation_at(context: Search, x: int, y: int) -> int {
    motion::block_deviation(
        motion::block_pixels(context.curr, context.width as int, x, y, 16),
        256,
    )
}

/// What each quadrant of the superblock at `(base_x, base_y)` adds to a total.
pub open spec fn quadrant_contributions(
    context: Search,
    measure: Measure,
    base_x: int,
    base_y: int,
) -> spec_fn(int) -> int {
    |k: int|
        block_contribution(
            measure,
            deviation_at(
                context,
                base_x + motion::quadrant_x(k),
                base_y + motion::quadrant_y(k),
            ),
            context.best_match(base_x, base_y, k),
            context.intra_thresh_u32 as int,
        )
}

/// What each of the superblocks of a row adds to a total.
pub open spec fn superblock_contributions(
    context: Search,
    measure: Measure,
    x_indices: Seq<usize>,
    macroblock_y: int,
) -> spec_fn(int) -> int {
    |i: int|
        sums::sum(
            4,
            quadrant_contributions(context, measure, x_indices[i] * 16, macroblock_y * 16),
        )
}

/// What each row of superblocks adds to a total.
pub open spec fn row_contributions(
    context: Search,
    measure: Measure,
    x_indices: Seq<usize>,
    y_indices: Seq<usize>,
) -> spec_fn(int) -> int {
    |j: int|
        sums::sum(
            x_indices.len() as int,
            superblock_contributions(context, measure, x_indices, y_indices[j] as int),
        )
}

/// What each row adds, after it was held down to what a total can hold.
pub open spec fn saturated_rows(
    context: Search,
    measure: Measure,
    x_indices: Seq<usize>,
    y_indices: Seq<usize>,
) -> spec_fn(int) -> int {
    |j: int|
        sums::saturate(
            row_contributions(context, measure, x_indices, y_indices)(j),
            measure_limit(measure),
        )
}

/// Every listed superblock lies within the limits.
pub open spec fn positions_within(indices: Seq<usize>, limit: int) -> bool {
    forall|i: int| 0 <= i < indices.len() ==> #[trigger] indices[i] * 16 <= limit
}

proof fn lemma_contribution_bounds(measure: Measure, dev: int, best: MotionMatch, intra_thresh: int)
    requires
        0 <= dev <= u32::MAX,
        0 <= intra_thresh,
    ensures
        0 <= block_contribution(measure, dev, best, intra_thresh) <= u32::MAX,
{
}

proof fn lemma_deviation_bounds(context: Search, x: int, y: int)
    ensures
        0 <= deviation_at(context, x, y) <= u32::MAX,
{
    let pixels = motion::block_pixels(context.curr, context.width as int, x, y, 16);
    let mean = motion::pixel_mean(pixels, 256);
    let terms = motion::value_deviation(pixels, 256, mean);
    assert forall|v: int| 0 <= v < 256 implies 0 <= #[trigger] terms(v) by {
        let c = sums::saturate(sums::count(256, sums::places_of(pixels, v)), u16::MAX as int);
        sums::lemma_count_bounds(256, sums::places_of(pixels, v));
        let d = sums::distance(v, mean);
        assert(0 <= c * d) by (nonlinear_arith)
            requires
                0 <= c,
                0 <= d,
        ;
    }
    sums::lemma_sum_monotone(0, 256, terms);
}

proof fn lemma_quadrants_natural(
    context: Search,
    measure: Measure,
    base_x: int,
    base_y: int,
)
    ensures
        forall|k: int|
            0 <= #[trigger] quadrant_contributions(context, measure, base_x, base_y)(k) <= u32::MAX,
{
    assert forall|k: int|
        0 <= #[trigger] quadrant_contributions(context, measure, base_x, base_y)(k) <= u32::MAX by {
        let x = base_x + motion::quadrant_x(k);
        let y = base_y + motion::quadrant_y(k);
        lemma_deviation_bounds(context, x, y);
        lemma_contribution_bounds(
            measure,
            deviation_at(context, x, y),
            context.best_match(base_x, base_y, k),
            context.intra_thresh_u32 as int,
        );
    }
}

proof fn lemma_superblocks_natural(
    context: Search,
    measure: Measure,
    x_indices: Seq<usize>,
    macroblock_y: int,
)
    ensures
        forall|i: int|
            0 <= #[trigger] superblock_contributions(context, measure, x_indices, macroblock_y)(i)
                <= 4 * u32::MAX,
{
    assert forall|i: int|
        0 <= #[trigger] superblock_contributions(context, measure, x_indices, macroblock_y)(i) <= 4
            * u32::MAX by {
        let f = quadrant_contributions(context, measure, x_indices[i] * 16, macroblock_y * 16);
        lemma_quadrants_natural(context, measure, x_indices[i] * 16, macroblock_y * 16);
        sums::lemma_sum_bounds(4, f, 0, u32::MAX as int);
    }
}

/// Sums up the four quadrants of the superblock at `(base_x, base_y)`.
fn accumulate_superblock_metrics(
    context: &SuperblockEvalContext<'_>,
    base_x: usize,
    base_y: usize,
    search_results: [MotionMatch; 4],
) -> (r: BlockTotals)
    requires
        context@.covers(32),
        base_x <= context.max_horizontal_limit,
        base_y <= context.max_vertical_limit,
        forall|k: int|
            0 <= k < 4 ==> #[trigger] search_results@[k] == context@.best_match(
                base_x as int,
                base_y as int,
                k,
            ),
    ensures
        forall|measure: Measure| #[trigger]
            r.of(measure) == sums::sum(
                4,
                quadrant_contributions(context@, measure, base_x as int, base_y as int),
            ),
{
    let mut totals = BlockTotals::zero();
    let mut k: usize = 0;
    while k < 4
        invariant
            k <= 4,
            context@.covers(32),
            base_x <= context.max_horizontal_limit,
            base_y <= context.max_vertical_limit,
            forall|j: int|
                0 <= j < 4 ==> #[trigger] search_results@[j] == context@.best_match(
                    base_x as int,
                    base_y as int,
                    j,
                ),
            forall|measure: Measure| #[trigger]
                totals.of(measure) == sums::sum(
                    k as int,
                    quadrant_contributions(context@, measure, base_x as int, base_y as int),
                ),
            totals.intra <= k,
            totals.ssad <= k * 0x1_0000_0000,
            totals.complexity <= k * 0x1_0000_0000,
        decreases 4 - k,
    {
        let offset_x: usize = (k % 2) * BLOCK_EDGE;
        let offset_y: usize = (k / 2) * BLOCK_EDGE;
        proof {
            motion::lemma_block_within(context@, 32, base_x + offset_x, base_y + offset_y);
        }
        let dev: u32 = dev_block(
            context.curr,
            context.width,
            base_x + offset_x,
            base_y + offset_y,
            BLOCK_EDGE,
            BLOCK_EDGE,
        );
        let best = search_results[k];
        let weight = weigh_block(dev, best, context.intra_thresh_u32);
        let ghost before = totals;
        totals = totals.plus(weight);
        proof {
            assert(best == search_results@[k as int]);
            assert forall|measure: Measure| #[trigger]
                totals.of(measure) == sums::sum(
                    k + 1,
                    quadrant_contributions(context@, measure, base_x as int, base_y as int),
                ) by {
                let f = quadrant_contributions(context@, measure, base_x as int, base_y as int);
                assert(f(k as int) == weight.of(measure));
                assert(before.of(measure) == sums::sum(k as int, f));
                assert(sums::sum(k + 1, f) == sums::sum(k as int, f) + f(k as int));
                lemma_contribution_bounds(
                    measure,
                    dev as int,
                    best,
                    context.intra_thresh_u32 as int,
                );
            }
            assert(weight.of(Measure::Intra) <= 1);
            assert(totals.of(Measure::Intra) <= k + 1);
            assert(totals.of(Measure::Ssad) <= (k + 1) * 0x1_0000_0000) by {
                lemma_contribution_bounds(
                    Measure::Ssad,
                    dev as int,
                    best,
                    context.intra_thresh_u32 as int,
                );
            }
            assert(totals.of(Measure::Complexity) <= (k + 1) * 0x1_0000_0000);
        }
        k = k + 1;
    }
    totals
}

/// Sums up a row of superblocks.
pub fn analyze_superblock_row(
    context: &SuperblockEvalContext<'_>,
    x_indices: &Vec<usize>,
    macroblock_y: usize,
) -> (r: BlockTotals)
    requires
        context@.covers(32),
        positions_within(x_indices@, context.max_horizontal_limit as int),
        macroblock_y * 16 <= context.max_vertical_limit,
    ensures
        forall|measure: Measure| #[trigger]
            r.of(measure) == sums::saturate(
                sums::sum(
                    x_indices@.len() as int,
                    superblock_contributions(
                        context@,
                        measure,
                        x_indices@,
                        macroblock_y as int,
                    ),
                ),
                measure_limit(measure),
            ),
{
    let base_y: usize = macroblock_y * BLOCK_EDGE;
    let mut totals = BlockTotals::zero();
    let mut i: usize = 0;
    while i < x_indices.len()
        invariant
            i <= x_indices@.len(),
            context@.covers(32),
            positions_within(x_indices@, context.max_horizontal_limit as int),
            base_y == macroblock_y * 16,
            base_y <= context.max_vertical_limit,
            forall|measure: Measure| #[trigger]
                totals.of(measure) == sums::saturate(
                    sums::sum(
                        i as int,
                        superblock_contributions(
                            context@,
                            measure,
                            x_indices@,
                            macroblock_y as int,
                        ),
                    ),
                    measure_limit(measure),
                ),
        decreases x_indices@.len() - i,
    {
        assert(x_indices@[i as int] * 16 <= context.max_horizontal_limit);
        let base_x: usize = x_indices[i] * BLOCK_EDGE;
        let search_results = search_superblock_matches(context, base_x, base_y);
        let delta = accumulate_superblock_metrics(context, base_x, base_y, search_results);
        let ghost before = totals;
        totals = totals.plus(delta);
        proof {
            assert forall|measure: Measure| #[trigger]
                totals.of(measure) == sums::saturate(
                    sums::sum(
                        i + 1,
                        superblock_contributions(
                            context@,
                            measure,
                            x_indices@,
                            macroblock_y as int,
                        ),
                    ),
                    measure_limit(measure),
                ) by {
                let f = superblock_contributions(
                    context@,
                    measure,
                    x_indices@,
                    macroblock_y as int,
                );
                lemma_superblocks_natural(context@, measure, x_indices@, macroblock_y as int);
                sums::lemma_sum_monotone(0, i as int, f);
                assert(before.of(measure) == sums::saturate(sums::sum(i as int, f), measure_limit(measure)));
                assert(f(i as int) == delta.of(measure));
                assert(sums::sum(i + 1, f) == sums::sum(i as int, f) + f(i as int));
            }
        }
        i = i + 1;
    }
    totals
}

/// Sums up rows of superblocks on a pool of threads, through
/// `rayon::iter::ParallelIterator::map` and `reduce` over `par_iter().copied()`: the result is
/// what adding up the mapped items gives, in whatever grouping, since [`BlockTotals::plus`] is
/// associative and has [`BlockTotals::zero`] as its identity.
#[verifier::external_body]
fn sum_rows_in_parallel(
    context: &SuperblockEvalContext<'_>,
    x_indices: &Vec<usize>,
    y_indices: &Vec<usize>,
) -> (r: BlockTotals)
    requires
        context@.covers(32),
        positions_within(x_indices@, context.max_horizontal_limit as int),
        positions_within(y_indices@, context.max_vertical_limit as int),
    ensures
        forall|measure: Measure| #[trigger]
            r.of(measure) == sums::saturate(
                sums::sum(
                    y_indices@.len() as int,
                    saturated_rows(context@, measure, x_indices@, y_indices@),
                ),
                measure_limit(measure),
            ),
{
    y_indices
        .par_iter()
        .copied()
        .map(|macroblock_y| analyze_superblock_row(context, x_indices, macroblock_y))
        .reduce(BlockTotals::zero, |left, right| left.plus(right))
}

/// Sums up rows of superblocks one after the other.
fn sum_rows(
    context: &SuperblockEvalContext<'_>,
    x_indices: &Vec<usize>,
    y_indices: &Vec<usize>,
) -> (r: BlockTotals)
    requires
        context@.covers(32),
        positions_within(x_indices@, context.max_horizontal_limit as int),
        positions_within(y_indices@, context.max_vertical_limit as int),
    ensures
        forall|measure: Measure| #[trigger]
            r.of(measure) == sums::saturate(
                sums::sum(
                    y_indices@.len() as int,
                    row_contributions(context@, measure, x_indices@, y_indices@),
                ),
                measure_limit(measure),
            ),
{
    let mut totals = BlockTotals::zero();
    let mut j: usize = 0;
    while j < y_indices.len()
        invariant
            j <= y_indices@.len(),
            context@.covers(32),
            positions_within(x_indices@, context.max_horizontal_limit as int),
            positions_within(y_indices@, context.max_vertical_limit as int),
            forall|measure: Measure| #[trigger]
                totals.of(measure) == sums::saturate(
                    sums::sum(
                        j as int,
                        row_contributions(context@, measure, x_indices@, y_indices@),
                    ),
                    measure_limit(measure),
                ),
        decreases y_indices@.len() - j,
    {
        assert(y_indices@[j as int] * 16 <= context.max_vertical_limit);
        let row = analyze_superblock_row(context, x_indices, y_indices[j]);
        let ghost before = totals;
        totals = totals.plus(row);
        proof {
            assert forall|measure: Measure| #[trigger]
                totals.of(measure) == sums::saturate(
                    sums::sum(
                        j + 1,
                        row_contributions(context@, measure, x_indices@, y_indices@),
                    ),
                    measure_limit(measure),
                ) by {
                let f = row_contributions(context@, measure, x_indices@, y_indices@);
                lemma_rows_natural(context@, measure, x_indices@, y_indices@);
                sums::lemma_sum_monotone(0, j as int, f);
                assert(before.of(measure) == sums::saturate(
                    sums::sum(j as int, f),
                    measure_limit(measure),
                ));
                assert(row.of(measure) == sums::saturate(f(j as int), measure_limit(measure)));
                assert(sums::sum(j + 1, f) == sums::sum(j as int, f) + f(j as int));
                sums::lemma_saturate_sum(
                    sums::sum(j as int, f),
                    f(j as int),
                    measure_limit(measure),
                );
            }
        }
        j = j + 1;
    }
    totals
}

proof fn lemma_rows_natural(
    context: Search,
    measure: Measure,
    x_indices: Seq<usize>,
    y_indices: Seq<usize>,
)
    ensures
        forall|j: int|
            0 <= #[trigger] row_contributions(context, measure, x_indices, y_indices)(j)
                <= x_indices.len() * (4 * u32::MAX),
{
    assert forall|j: int|
        0 <= #[trigger] row_contributions(context, measure, x_indices, y_indices)(j)
            <= x_indices.len() * (4 * u32::MAX) by {
        let f = superblock_contributions(context, measure, x_indices, y_indices[j] as int);
        lemma_superblocks_natural(context, measure, x_indices, y_indices[j] as int);
        sums::lemma_sum_bounds(x_indices.len() as int, f, 0, 4 * u32::MAX);
        assert((4 * u32::MAX) * x_indices.len() == x_indices.len() * (4 * u32::MAX))
            by (nonlinear_arith);
    }
}

/// Holding the rows down before they are added up changes nothing.
proof fn lemma_saturated_rows(
    context: Search,
    measure: Measure,
    x_indices: Seq<usize>,
    y_indices: Seq<usize>,
    n: int,
)
    requires
        0 <= n,
    ensures
        0 <= sums::sum(n, row_contributions(context, measure, x_indices, y_indices)),
        0 <= sums::sum(n, saturated_rows(context, measure, x_indices, y_indices)),
        sums::saturate(
            sums::sum(n, saturated_rows(context, measure, x_indices, y_indices)),
            measure_limit(measure),
        ) == sums::saturate(
            sums::sum(n, row_contributions(context, measure, x_indices, y_indices)),
            measure_limit(measure),
        ),
    decreases n,
{
    if n > 0 {
        lemma_saturated_rows(context, measure, x_indices, y_indices, n - 1);
        lemma_rows_natural(context, measure, x_indices, y_indices);
        let f = row_contributions(context, measure, x_indices, y_indices);
        assert(0 <= f(n - 1));
    }
}

/// Adding up totals is associative, and zero is its identity.
pub proof fn totals_can_be_regrouped(
    measure: Measure,
    a: BlockTotals,
    b: BlockTotals,
    c: BlockTotals,
)
    ensures
        ({
            let limit = measure_limit(measure);
            let left = sums::saturate(a.of(measure) + b.of(measure), limit);
            let right = sums::saturate(b.of(measure) + c.of(measure), limit);
            &&& sums::saturate(left + c.of(measure), limit) == sums::saturate(
                a.of(measure) + right,
                limit,
            )
            &&& sums::saturate(0 + a.of(measure), limit) == a.of(measure)
            &&& sums::saturate(a.of(measure) + 0, limit) == a.of(measure)
        }),
{
}

/// How many macroblocks it takes to cover `extent` pixels.
pub open spec fn macroblocks(extent: int) -> int {
    (extent + 15) / 16
}

fn macroblock_count(extent: usize) -> (r: usize)
    ensures
        r == macroblocks(extent as int),
{
    if extent % BLOCK_EDGE == 0 {
        extent / BLOCK_EDGE
    } else {
        extent / BLOCK_EDGE + 1
    }
}

/// First macroblock of each superblock along an extent of `count` macroblocks: every second one,
/// leaving a border of one macroblock.
pub open spec fn superblock_positions(count: int) -> Seq<usize> {
    let n: int = if count <= 2 {
        0
    } else if count == 3 {
        1
    } else {
        (count - 2) / 2
    };
    Seq::new(n as nat, |i: int| (1 + 2 * i) as usize)
}

pub fn superblock_indices(macroblock_count: usize) -> (r: Vec<usize>)
    ensures
        r@ == superblock_positions(macroblock_count as int),
{
    let mut positions: Vec<usize> = Vec::new();
    let count: usize = if macroblock_count <= 2 {
        0
    } else if macroblock_count == 3 {
        1
    } else {
        (macroblock_count - 2) / 2
    };
    let mut i: usize = 0;
    while i < count
        invariant
            i <= count,
            2 * count <= macroblock_count || count == 1,
            positions@.len() == i,
            count == superblock_positions(macroblock_count as int).len(),
            forall|j: int| 0 <= j < i ==> #[trigger] positions@[j] == 1 + 2 * j,
        decreases count - i,
    {
        positions.push(1 + 2 * i);
        i = i + 1;
    }
    positions
}

/// `a * b`, held down to the largest number.
fn saturating_product(a: usize, b: usize) -> (r: usize)
    ensures
        r == sums::saturate(a * b, usize::MAX as int),
{
    match a.checked_mul(b) {
        Some(product) => product,
        None => usize::MAX,
    }
}

/// `10 + 10 * count`, in 64-bit arithmetic that saturates.
pub open spec fn budget(count: int) -> int {
    sums::saturate(10 + 10 * count, u64::MAX as int)
}

fn superblock_budget(superblock_count: usize) -> (r: u64)
    ensures
        r == budget(superblock_count as int),
{
    let scaled: u64 = match (superblock_count as u64).checked_mul(10) {
        Some(product) => product,
        None => u64::MAX,
    };
    scaled.saturating_add(10)
}

/// How much motion compensation leaves over, relative to the complexity of the frame.
pub open spec fn score_of(ssad: int, complexity: int, blocks: int) -> int {
    let denom = sums::saturate(
        complexity / 128 + sums::saturate(4 * blocks, u64::MAX as int),
        u64::MAX as int,
    );
    if denom == 0 {
        0
    } else {
        ssad / denom
    }
}

fn motion_score(ssad: u64, complexity: u64, blocks: u64) -> (r: u64)
    ensures
        r == score_of(ssad as int, complexity as int, blocks as int),
{
    let scaled: u64 = match blocks.checked_mul(4) {
        Some(product) => product,
        None => u64::MAX,
    };
    let denom: u64 = (complexity / 128).saturating_add(scaled);
    if denom == 0 {
        0
    } else {
        ssad / denom
    }
}

/// What depends on the frame size and the search radius alone.
#[derive(Debug)]
pub struct MotionAnalysisPlan {
    pub width: usize,
    pub height: usize,
    pub search_radius: i32,
    pub total_blocks: usize,
    pub blocks: u64,
    pub x_indices: Vec<usize>,
    pub y_indices: Vec<usize>,
    pub should_parallelize: bool,
    pub max_horizontal_limit: usize,
    pub max_vertical_limit: usize,
}

impl MotionAnalysisPlan {
    /// The plan is that of its frame size and search radius on a machine with `workers` threads.
    pub open spec fn made_for(
        self,
        width: usize,
        height: usize,
        search_radius: i32,
        workers: usize,
    ) -> bool {
        &&& self.width == width
        &&& self.height == height
        &&& self.search_radius == search_radius
        &&& self.consistent()
        &&& self.should_parallelize <==> self.x_indices@.len() * self.y_indices@.len()
            >= PARALLEL_SUPERBLOCK_THRESHOLD && workers > 1
    }

    /// The positions, counts and limits are those of the frame size.
    pub open spec fn consistent(self) -> bool {
        let across = macroblocks(self.width as int);
        let down = macroblocks(self.height as int);
        let superblocks = sums::saturate(
            (superblock_positions(across).len() * superblock_positions(down).len()) as int,
            usize::MAX as int,
        );
        &&& across >= 3
        &&& down >= 3
        &&& self.total_blocks == sums::saturate((across - 2) * (down - 2), usize::MAX as int)
        &&& self.x_indices@ == superblock_positions(across)
        &&& self.y_indices@ == superblock_positions(down)
        &&& self.blocks == budget(superblocks)
        &&& self.max_horizontal_limit == sums::maximum(self.width - 32, 0)
        &&& self.max_vertical_limit == sums::maximum(self.height - 32, 0)
    }
}

/// Builds the plan for a frame size, unless the frame has no block inside its border. `workers`
/// is how many threads the machine can run at once.
pub fn build_motion_analysis_plan(
    width: usize,
    height: usize,
    search_radius: i32,
    workers: usize,
) -> (r: Option<MotionAnalysisPlan>)
    ensures
        r is Some <==> analysable(width, height),
        r matches Some(plan) ==> plan.made_for(width, height, search_radius, workers),
{
    let mb_width: usize = macroblock_count(width);
    let mb_height: usize = macroblock_count(height);
    let interior_width: usize = mb_width.saturating_sub(2);
    let interior_height: usize = mb_height.saturating_sub(2);
    let total_blocks: usize = saturating_product(interior_width, interior_height);
    if interior_width == 0 || interior_height == 0 {
        return None;
    }
    let x_indices = superblock_indices(mb_width);
    let y_indices = superblock_indices(mb_height);
    let superblock_count: usize = saturating_product(x_indices.len(), y_indices.len());
    Some(
        MotionAnalysisPlan {
            width,
            height,
            search_radius,
            total_blocks,
            blocks: superblock_budget(superblock_count),
            should_parallelize: superblock_count >= PARALLEL_SUPERBLOCK_THRESHOLD && workers > 1,
            x_indices,
            y_indices,
            max_horizontal_limit: width.saturating_sub(32),
            max_vertical_limit: height.saturating_sub(32),
        },
    )
}

/// Both planes hold a frame of the given size.
pub open spec fn frames_present(prev: Seq<u8>, curr: Seq<u8>, width: usize, height: usize) -> bool {
    width * height <= prev.len() && width * height <= curr.len()
}

/// The search for superblocks.
pub open spec fn superblock_context(
    prev: Seq<u8>,
    curr: Seq<u8>,
    width: usize,
    height: usize,
    search_radius: i32,
    intra_thresh: u32,
) -> Search {
    Search {
        prev,
        curr,
        width,
        search_radius,
        intra_thresh_u32: intra_thresh,
        max_horizontal_limit: (width - 32) as usize,
        max_vertical_limit: (height - 32) as usize,
    }
}

/// A total over all superblocks of a frame.
pub open spec fn superblock_total(
    context: Search,
    measure: Measure,
    across: int,
    down: int,
) -> int {
    let xs = superblock_positions(across);
    let ys = superblock_positions(down);
    sums::saturate(
        sums::sum(ys.len() as int, row_contributions(context, measure, xs, ys)),
        measure_limit(measure),
    )
}

/// The analysis of a frame of at least four by four macroblocks.
pub open spec fn superblock_analysis(
    prev: Seq<u8>,
    curr: Seq<u8>,
    width: usize,
    height: usize,
    search_radius: i32,
    intra_thresh: u32,
) -> MeAnalysis {
    let context = superblock_context(prev, curr, width, height, search_radius, intra_thresh);
    let across = macroblocks(width as int);
    let down = macroblocks(height as int);
    let ssad = superblock_total(context, Measure::Ssad, across, down);
    let complexity = superblock_total(context, Measure::Complexity, across, down);
    let superblocks = superblock_positions(across).len() * superblock_positions(down).len();
    MeAnalysis {
        score: score_of(ssad, complexity, budget(superblocks as int)) as u64,
        intra_blocks: superblock_total(context, Measure::Intra, across, down) as usize,
        total_blocks: ((across - 2) * (down - 2)) as usize,
        mc_sad: ssad as u64,
    }
}

proof fn lemma_positions_within(count: int, extent: int)
    requires
        count == macroblocks(extent),
        count >= 4,
        extent <= usize::MAX,
    ensures
        positions_within(superblock_positions(count), extent - 32),
        extent >= 49,
{
}

proof fn lemma_counts_fit(width: int, height: int, across: int, down: int)
    requires
        across == macroblocks(width),
        down == macroblocks(height),
        across >= 3,
        down >= 3,
        width * height <= usize::MAX,
    ensures
        0 < (across - 2) * (down - 2) <= usize::MAX,
        0 <= superblock_positions(across).len() * superblock_positions(down).len() <= usize::MAX,
        superblock_positions(across).len() * superblock_positions(down).len() <= (across - 2) * (
        down - 2),
{
    let xs = superblock_positions(across).len() as int;
    let ys = superblock_positions(down).len() as int;
    assert(0 < (across - 2) * (down - 2) <= width * height) by (nonlinear_arith)
        requires
            3 <= across <= width,
            3 <= down <= height,
    ;
    assert(0 <= xs * ys <= (across - 2) * (down - 2)) by (nonlinear_arith)
        requires
            0 <= xs <= across - 2,
            0 <= ys <= down - 2,
    ;
}

/// Analyses a frame of at least four by four macroblocks.
pub fn run_superblock_motion_analysis(
    prev: &[u8],
    curr: &[u8],
    intra_thresh_u32: u32,
    plan: &MotionAnalysisPlan,
) -> (r: MeAnalysis)
    requires
        plan.consistent(),
        plan.search_radius > i32::MIN,
        macroblocks(plan.width as int) >= 4,
        macroblocks(plan.height as int) >= 4,
        frames_present(prev@, curr@, plan.width, plan.height),
    ensures
        r == superblock_analysis(
            prev@,
            curr@,
            plan.width,
            plan.height,
            plan.search_radius,
            intra_thresh_u32,
        ),
{
    let context = SuperblockEvalContext {
        prev,
        curr,
        width: plan.width,
        search_radius: plan.search_radius,
        intra_thresh_u32,
        max_horizontal_limit: plan.max_horizontal_limit,
        max_vertical_limit: plan.max_vertical_limit,
    };
    let ghost across = macroblocks(plan.width as int);
    let ghost down = macroblocks(plan.height as int);
    proof {
        assert(prev.len() == prev@.len());
        assert(curr.len() == curr@.len());
        lemma_positions_within(across, plan.width as int);
        lemma_positions_within(down, plan.height as int);
        lemma_counts_fit(plan.width as int, plan.height as int, across, down);
        assert(context@.covers(32));
        assert(context@ == superblock_context(
            prev@,
            curr@,
            plan.width,
            plan.height,
            plan.search_radius,
            intra_thresh_u32,
        ));
    }
    let totals = if plan.should_parallelize {
        sum_rows_in_parallel(&context, &plan.x_indices, &plan.y_indices)
    } else {
        sum_rows(&context, &plan.x_indices, &plan.y_indices)
    };
    proof {
        assert forall|measure: Measure| #[trigger]
            totals.of(measure) == superblock_total(context@, measure, across, down) by {
            lemma_saturated_rows(
                context@,
                measure,
                plan.x_indices@,
                plan.y_indices@,
                plan.y_indices@.len() as int,
            );
        }
        assert(totals.of(Measure::Intra) == superblock_total(context@, Measure::Intra, across, down));
        assert(totals.of(Measure::Ssad) == superblock_total(context@, Measure::Ssad, across, down));
        assert(totals.of(Measure::Complexity) == superblock_total(
            context@,
            Measure::Complexity,
            across,
            down,
        ));
    }
    MeAnalysis {
        score: motion_score(totals.ssad, totals.complexity, plan.blocks),
        intra_blocks: totals.intra,
        total_blocks: plan.total_blocks,
        mc_sad: totals.ssad,
    }
}

/// The search for single blocks.
pub open spec fn block_context(
    prev: Seq<u8>,
    curr: Seq<u8>,
    width: usize,
    height: usize,
    search_radius: i32,
    intra_thresh: u32,
) -> Search {
    Search {
        prev,
        curr,
        width,
        search_radius,
        intra_thresh_u32: intra_thresh,
        max_horizontal_limit: (width - 16) as usize,
        max_vertical_limit: (height - 16) as usize,
    }
}

/// What each block inside the border adds to a total, along the row of macroblocks `1 + j`.
pub open spec fn inner_blocks(
    context: Search,
    measure: Measure,
    j: int,
) -> spec_fn(int) -> int {
    |i: int| quadrant_contributions(context, measure, (1 + i) * 16, (1 + j) * 16)(0)
}

/// What each row of blocks inside the border adds to a total.
pub open spec fn inner_rows(
    context: Search,
    measure: Measure,
    inner_width: int,
) -> spec_fn(int) -> int {
    |j: int| sums::sum(inner_width, inner_blocks(context, measure, j))
}

/// A total over all blocks inside the border.
pub open spec fn inner_total(
    context: Search,
    measure: Measure,
    inner_width: int,
    inner_height: int,
) -> int {
    sums::saturate(
        sums::sum(inner_height, inner_rows(context, measure, inner_width)),
        measure_limit(measure),
    )
}

/// The analysis of a frame that is three macroblocks wide or high.
pub open spec fn small_frame_analysis(
    prev: Seq<u8>,
    curr: Seq<u8>,
    width: usize,
    height: usize,
    search_radius: i32,
    intra_thresh: u32,
) -> MeAnalysis {
    let context = block_context(prev, curr, width, height, search_radius, intra_thresh);
    let inner_width = macroblocks(width as int) - 2;
    let inner_height = macroblocks(height as int) - 2;
    let ssad = inner_total(context, Measure::Ssad, inner_width, inner_height);
    let complexity = inner_total(context, Measure::Complexity, inner_width, inner_height);
    let blocks = inner_width * inner_height;
    MeAnalysis {
        score: score_of(ssad, complexity, budget(blocks)) as u64,
        intra_blocks: inner_total(context, Measure::Intra, inner_width, inner_height) as usize,
        total_blocks: blocks as usize,
        mc_sad: ssad as u64,
    }
}

proof fn lemma_inner_natural(context: Search, measure: Measure, j: int, n: int)
    requires
        0 <= n,
    ensures
        0 <= sums::sum(n, inner_blocks(context, measure, j)) <= n * u32::MAX,
{
    let f = inner_blocks(context, measure, j);
    assert forall|i: int| 0 <= i < n implies 0 <= #[trigger] f(i) <= u32::MAX by {
        lemma_quadrants_natural(context, measure, (1 + i) * 16, (1 + j) * 16);
    }
    sums::lemma_sum_bounds(n, f, 0, u32::MAX as int);
    assert(u32::MAX * n == n * u32::MAX) by (nonlinear_arith);
}

proof fn lemma_inner_rows_natural(
    context: Search,
    measure: Measure,
    inner_width: int,
    n: int,
)
    requires
        0 <= n,
        0 <= inner_width,
    ensures
        0 <= sums::sum(n, inner_rows(context, measure, inner_width)) <= n * (inner_width
            * u32::MAX),
{
    let f = inner_rows(context, measure, inner_width);
    assert forall|j: int| 0 <= j < n implies 0 <= #[trigger] f(j) <= inner_width * u32::MAX by {
        lemma_inner_natural(context, measure, j, inner_width);
    }
    sums::lemma_sum_bounds(n, f, 0, inner_width * u32::MAX);
    assert((inner_width * u32::MAX) * n == n * (inner_width * u32::MAX)) by (nonlinear_arith);
}

/// Analyses a frame block by block.
pub fn small_frame_meanalysis(
    prev: &[u8],
    curr: &[u8],
    width: usize,
    height: usize,
    search_radius: i32,
    intra_thresh_u32: u32,
) -> (r: MeAnalysis)
    requires
        macroblocks(width as int) >= 3,
        macroblocks(height as int) >= 3,
        search_radius > i32::MIN,
        frames_present(prev@, curr@, width, height),
    ensures
        r == small_frame_analysis(prev@, curr@, width, height, search_radius, intra_thresh_u32),
{
    let inner_width: usize = macroblock_count(width) - 2;
    let inner_height: usize = macroblock_count(height) - 2;
    let context = SuperblockEvalContext {
        prev,
        curr,
        width,
        search_radius,
        intra_thresh_u32,
        max_horizontal_limit: width - 16,
        max_vertical_limit: height - 16,
    };
    proof {
        assert(curr.len() == curr@.len());
    }
    let mut totals = BlockTotals::zero();
    let mut j: usize = 0;
    while j < inner_height
        invariant
            j <= inner_height,
            inner_width == macroblocks(width as int) - 2,
            inner_height == macroblocks(height as int) - 2,
            1 <= inner_width,
            context@.covers(16),
            context.curr == curr,
            context.width == width,
            context.max_horizontal_limit == width - 16,
            context.max_vertical_limit == height - 16,
            context.intra_thresh_u32 == intra_thresh_u32,
            forall|measure: Measure| #[trigger]
                totals.of(measure) == sums::saturate(
                    sums::sum(j as int, inner_rows(context@, measure, inner_width as int)),
                    measure_limit(measure),
                ),
        decreases inner_height - j,
    {
        let block_y: usize = (1 + j) * BLOCK_EDGE;
        let mut i: usize = 0;
        while i < inner_width
            invariant
                i <= inner_width,
                j < inner_height,
                inner_width == macroblocks(width as int) - 2,
                inner_height == macroblocks(height as int) - 2,
                context@.covers(16),
                context.curr == curr,
                context.width == width,
                context.max_horizontal_limit == width - 16,
                context.max_vertical_limit == height - 16,
                context.intra_thresh_u32 == intra_thresh_u32,
                block_y == (1 + j) * 16,
                forall|measure: Measure| #[trigger]
                    totals.of(measure) == sums::saturate(
                        sums::sum(j as int, inner_rows(context@, measure, inner_width as int))
                            + sums::sum(i as int, inner_blocks(context@, measure, j as int)),
                        measure_limit(measure),
                    ),
            decreases inner_width - i,
        {
            let block_x: usize = (1 + i) * BLOCK_EDGE;
            proof {
                motion::lemma_block_within(context@, 16, block_x as int, block_y as int);
            }
            let best = find_best_match_for_block(&context, block_x, block_y);
            let dev: u32 = dev_block(curr, width, block_x, block_y, BLOCK_EDGE, BLOCK_EDGE);
            let weight = weigh_block(dev, best, intra_thresh_u32);
            let ghost before = totals;
            totals = totals.plus(weight);
            proof {
                assert forall|measure: Measure| #[trigger]
                    totals.of(measure) == sums::saturate(
                        sums::sum(j as int, inner_rows(context@, measure, inner_width as int))
                            + sums::sum(i + 1, inner_blocks(context@, measure, j as int)),
                        measure_limit(measure),
                    ) by {
                    let f = inner_blocks(context@, measure, j as int);
                    lemma_inner_rows_natural(context@, measure, inner_width as int, j as int);
                    lemma_inner_natural(context@, measure, j as int, i as int);
                    lemma_contribution_bounds(measure, dev as int, best, intra_thresh_u32 as int);
                    assert(f(i as int) == weight.of(measure));
                    assert(sums::sum(i + 1, f) == sums::sum(i as int, f) + f(i as int));
                    assert(before.of(measure) == sums::saturate(
                        sums::sum(j as int, inner_rows(context@, measure, inner_width as int))
                            + sums::sum(i as int, f),
                        measure_limit(measure),
                    ));
                }
            }
            i = i + 1;
        }
        proof {
            assert forall|measure: Measure| #[trigger]
                totals.of(measure) == sums::saturate(
                    sums::sum(j + 1, inner_rows(context@, measure, inner_width as int)),
                    measure_limit(measure),
                ) by {
                let f = inner_rows(context@, measure, inner_width as int);
                assert(sums::sum(j + 1, f) == sums::sum(j as int, f) + f(j as int));
            }
        }
        j = j + 1;
    }
    proof {
        assert(prev.len() == prev@.len());
        lemma_counts_fit(
            width as int,
            height as int,
            macroblocks(width as int),
            macroblocks(height as int),
        );
        assert(context@ == block_context(prev@, curr@, width, height, search_radius, intra_thresh_u32));
        assert(totals.of(Measure::Intra) == inner_total(
            context@,
            Measure::Intra,
            inner_width as int,
            inner_height as int,
        ));
        assert(totals.of(Measure::Ssad) == inner_total(
            context@,
            Measure::Ssad,
            inner_width as int,
            inner_height as int,
        ));
        assert(totals.of(Measure::Complexity) == inner_total(
            context@,
            Measure::Complexity,
            inner_width as int,
            inner_height as int,
        ));
    }
    let total_blocks: usize = inner_width * inner_height;
    MeAnalysis {
        score: motion_score(totals.ssad, totals.complexity, superblock_budget(total_blocks)),
        intra_blocks: totals.intra,
        total_blocks,
        mc_sad: totals.ssad,
    }
}

/// The analysis of a frame without blocks.
pub open spec fn no_analysis() -> MeAnalysis {
    MeAnalysis { score: 0, intra_blocks: 0, total_blocks: 0, mc_sad: 0 }
}

fn empty_me_analysis() -> (r: MeAnalysis)
    ensures
        r == no_analysis(),
{
    MeAnalysis { score: 0, intra_blocks: 0, total_blocks: 0, mc_sad: 0 }
}

/// A frame has blocks to analyse: there is at least one macroblock inside its border.
pub open spec fn analysable(width: usize, height: usize) -> bool {
    macroblocks(width as int) >= 3 && macroblocks(height as int) >= 3
}

/// The analysis of a frame pair.
pub open spec fn analysis(
    prev: Seq<u8>,
    curr: Seq<u8>,
    width: usize,
    height: usize,
    search_radius: i32,
    intra_thresh: i32,
) -> MeAnalysis {
    let threshold = sums::maximum(intra_thresh as int, 0) as u32;
    if !analysable(width, height) {
        no_analysis()
    } else if macroblocks(width as int) == 3 || macroblocks(height as int) == 3 {
        small_frame_analysis(prev, curr, width, height, search_radius, threshold)
    } else {
        superblock_analysis(prev, curr, width, height, search_radius, threshold)
    }
}

proof fn lemma_score_bound(ssad: int, complexity: int, n: int)
    requires
        0 <= n,
        0 <= complexity,
        0 <= ssad <= u64::MAX,
        ssad <= n * (4 * u32::MAX),
    ensures
        0 <= score_of(ssad, complexity, budget(n)) <= u32::MAX,
{
    let denom = sums::saturate(
        complexity / 128 + sums::saturate(4 * budget(n), u64::MAX as int),
        u64::MAX as int,
    );
    let score = ssad / denom;
    if denom == u64::MAX {
        assert(0 <= score <= 1) by (nonlinear_arith)
            requires
                0 <= ssad <= denom,
                0 < denom,
                score == ssad / denom,
        ;
    } else {
        assert(denom >= 40 + 40 * n);
        assert(0 <= score <= u32::MAX) by (nonlinear_arith)
            requires
                0 <= n,
                0 <= ssad <= n * (4 * u32::MAX),
                denom >= 40 + 40 * n,
                score == ssad / denom,
        ;
    }
}

proof fn lemma_superblock_sums(
    context: Search,
    measure: Measure,
    xs: Seq<usize>,
    ys: Seq<usize>,
)
    ensures
        0 <= sums::sum(ys.len() as int, row_contributions(context, measure, xs, ys)) <= (xs.len()
            * ys.len()) * (4 * u32::MAX),
        measure is Intra ==> sums::sum(
            ys.len() as int,
            row_contributions(context, measure, xs, ys),
        ) <= 4 * (xs.len() * ys.len()),
{
    let f = row_contributions(context, measure, xs, ys);
    lemma_rows_natural(context, measure, xs, ys);
    let per_row: int = xs.len() * (4 * u32::MAX);
    sums::lemma_sum_bounds(ys.len() as int, f, 0, per_row);
    assert(per_row * ys.len() == (xs.len() * ys.len()) * (4 * u32::MAX)) by (nonlinear_arith)
        requires
            per_row == xs.len() * (4 * u32::MAX),
    ;
    if measure is Intra {
        assert forall|j: int| 0 <= #[trigger] f(j) <= 4 * xs.len() by {
            let g = superblock_contributions(context, measure, xs, ys[j] as int);
            assert forall|i: int| 0 <= #[trigger] g(i) <= 4 by {
                let h = quadrant_contributions(context, measure, xs[i] * 16, ys[j] * 16);
                assert forall|k: int| 0 <= #[trigger] h(k) <= 1 by {}
                sums::lemma_sum_bounds(4, h, 0, 1);
            }
            sums::lemma_sum_bounds(xs.len() as int, g, 0, 4);
        }
        sums::lemma_sum_bounds(ys.len() as int, f, 0, 4 * xs.len() as int);
        assert((4 * xs.len()) * ys.len() == 4 * (xs.len() * ys.len())) by (nonlinear_arith);
    }
}

proof fn lemma_inner_intra(context: Search, inner_width: int, n: int)
    requires
        0 <= n,
        0 <= inner_width,
    ensures
        sums::sum(n, inner_rows(context, Measure::Intra, inner_width)) <= inner_width * n,
{
    let f = inner_rows(context, Measure::Intra, inner_width);
    assert forall|j: int| 0 <= #[trigger] f(j) <= inner_width by {
        let g = inner_blocks(context, Measure::Intra, j);
        assert forall|i: int| 0 <= #[trigger] g(i) <= 1 by {}
        sums::lemma_sum_bounds(inner_width, g, 0, 1);
    }
    sums::lemma_sum_bounds(n, f, 0, inner_width);
}

/// No frame has more intra blocks than blocks, and the score always fits 32 bits.
pub proof fn analysis_is_bounded(
    prev: Seq<u8>,
    curr: Seq<u8>,
    width: usize,
    height: usize,
    search_radius: i32,
    intra_thresh: i32,
)
    requires
        analysable(width, height) ==> frames_present(prev, curr, width, height) && curr.len()
            <= usize::MAX,
    ensures
        ({
            let r = analysis(prev, curr, width, height, search_radius, intra_thresh);
            r.score <= u32::MAX && r.intra_blocks <= r.total_blocks
        }),
{
    if analysable(width, height) {
        let threshold = sums::maximum(intra_thresh as int, 0) as u32;
        let across = macroblocks(width as int);
        let down = macroblocks(height as int);
        lemma_counts_fit(width as int, height as int, across, down);
        if across == 3 || down == 3 {
            let context = block_context(prev, curr, width, height, search_radius, threshold);
            let inner_width = across - 2;
            let inner_height = down - 2;
            lemma_inner_rows_natural(context, Measure::Ssad, inner_width, inner_height);
            lemma_inner_rows_natural(context, Measure::Complexity, inner_width, inner_height);
            lemma_inner_rows_natural(context, Measure::Intra, inner_width, inner_height);
            lemma_inner_intra(context, inner_width, inner_height);
            let ssad = inner_total(context, Measure::Ssad, inner_width, inner_height);
            let n = inner_width * inner_height;
            assert(inner_height * (inner_width * u32::MAX) <= n * (4 * u32::MAX)) by (nonlinear_arith)
                requires
                    n == inner_width * inner_height,
                    0 <= inner_width,
                    0 <= inner_height,
            ;
            lemma_score_bound(
                ssad,
                inner_total(context, Measure::Complexity, inner_width, inner_height),
                n,
            );
        } else {
            let context = superblock_context(prev, curr, width, height, search_radius, threshold);
            let xs = superblock_positions(across);
            let ys = superblock_positions(down);
            lemma_superblock_sums(context, Measure::Ssad, xs, ys);
            lemma_superblock_sums(context, Measure::Complexity, xs, ys);
            lemma_superblock_sums(context, Measure::Intra, xs, ys);
            assert(4 * (xs.len() * ys.len()) <= (across - 2) * (down - 2)) by (nonlinear_arith)
                requires
                    2 * xs.len() <= across - 2,
                    2 * ys.len() <= down - 2,
            ;
            lemma_score_bound(
                superblock_total(context, Measure::Ssad, across, down),
                superblock_total(context, Measure::Complexity, across, down),
                (xs.len() * ys.len()) as int,
            );
        }
    }
}

/// The plan of the last frame size, kept for the next frame.
pub struct MotionPlanCache {
    plan: Option<MotionAnalysisPlan>,
    workers: usize,
}

impl MotionPlanCache {
    /// The plan that is held is that of its frame size and search radius.
    #[verifier::type_invariant]
    spec fn holds_fitting_plan(self) -> bool {
        self.plan matches Some(plan) ==> plan.made_for(
            plan.width,
            plan.height,
            plan.search_radius,
            self.workers,
        )
    }

    /// How many threads the machine can run at once.
    pub closed spec fn workers(self) -> usize {
        self.workers
    }

    /// The plan that is held.
    pub closed spec fn held(self) -> Option<MotionAnalysisPlan> {
        self.plan
    }

    /// An empty cache on a machine that can run `workers` threads at once.
    pub fn new(workers: usize) -> (r: MotionPlanCache)
        ensures
            r.held() is None,
            r.workers() == workers,
    {
        MotionPlanCache { plan: None, workers }
    }

    /// The plan for a frame size and search radius: the one that is held, where it fits.
    pub fn plan_for(&mut self, width: usize, height: usize, search_radius: i32) -> (r: Option<
        &MotionAnalysisPlan,
    >)
        ensures
            r is Some <==> analysable(width, height),
            r matches Some(plan) ==> plan.made_for(
                width,
                height,
                search_radius,
                old(self).workers(),
            ),
            final(self).workers() == old(self).workers(),
            final(self).held() is Some <==> r is Some,
            r matches Some(plan) ==> final(self).held() == Some(*plan),
            old(self).held() matches Some(plan) && plan.width == width && plan.height == height
                && plan.search_radius == search_radius ==> final(self).held() == old(self).held(),
    {
        proof {
            use_type_invariant(&*self);
        }
        let fits = match &self.plan {
            Some(plan) => plan.width == width && plan.height == height && plan.search_radius
                == search_radius,
            None => false,
        };
        if !fits {
            self.plan = build_motion_analysis_plan(width, height, search_radius, self.workers);
        }
        self.plan.as_ref()
    }
}

/// Estimates the motion between two frames in the manner of an XviD first pass.
pub fn meanalysis_xvid_like(
    prev: &[u8],
    curr: &[u8],
    width: usize,
    height: usize,
    search_radius: i32,
    intra_thresh: i32,
    plans: &mut MotionPlanCache,
) -> (r: MeAnalysis)
    requires
        analysable(width, height) ==> search_radius > i32::MIN && frames_present(
            prev@,
            curr@,
            width,
            height,
        ),
    ensures
        r == analysis(prev@, curr@, width, height, search_radius, intra_thresh),
        r.score <= u32::MAX,
        r.intra_blocks <= r.total_blocks,
        final(plans).workers() == old(plans).workers(),
{
    proof {
        assert(curr.len() == curr@.len());
        analysis_is_bounded(prev@, curr@, width, height, search_radius, intra_thresh);
    }
    let mb_width: usize = macroblock_count(width);
    let mb_height: usize = macroblock_count(height);
    if mb_width < 3 || mb_height < 3 {
        return empty_me_analysis();
    }
    let threshold: u32 = if intra_thresh < 0 { 0 } else { intra_thresh as u32 };
    if mb_width == 3 || mb_height == 3 {
        return small_frame_meanalysis(prev, curr, width, height, search_radius, threshold);
    }
    match plans.plan_for(width, height, search_radius) {
        Some(plan) => run_superblock_motion_analysis(prev, curr, threshold, plan),
        None => empty_me_analysis(),
    }
}

/// A block is intra exactly where its best match differs by more than its own deviation plus the
/// threshold. Where it differs by no more than that deviation, no threshold makes it intra.
pub proof fn blocks_are_intra_where_prediction_does_not_pay(
    dev: int,
    best: MotionMatch,
    intra_thresh: int,
)
    requires
        0 <= dev,
        0 <= intra_thresh,
    ensures
        block_contribution(Measure::Intra, dev, best, intra_thresh) == if best.sad > dev
            + intra_thresh {
            1int
        } else {
            0int
        },
        best.sad <= dev ==> block_contribution(Measure::Intra, dev, best, intra_thresh) == 0,
{
}

/// A block adds the difference of its best match, halved where the block deviates by 3000 or
/// more. A block that did not move, deviates by more than 1000 and differs by less than 1000
/// costs 512 more.
pub proof fn blocks_add_what_prediction_leaves(dev: int, best: MotionMatch, intra_thresh: int)
    ensures
        ({
            let added = block_contribution(Measure::Ssad, dev, best, intra_thresh);
            let left = if dev >= 3000 {
                best.sad as int / 2
            } else {
                best.sad as int
            };
            let still = best.dx == 0 && best.dy == 0;
            &&& !still || dev <= 1000 || best.sad >= 1000 ==> added == left
            &&& still && dev > 1000 && best.sad < 1000 ==> added == left + 512
        }),
{
}

/// A block is as complex as it deviates, but at least 300.
pub proof fn blocks_are_as_complex_as_they_deviate(dev: int, best: MotionMatch, intra_thresh: int)
    ensures
        block_contribution(Measure::Complexity, dev, best, intra_thresh) >= dev,
        block_contribution(Measure::Complexity, dev, best, intra_thresh) >= 300,
        block_contribution(Measure::Complexity, dev, best, intra_thresh) == dev
            || block_contribution(Measure::Complexity, dev, best, intra_thresh) == 300,
{
}

/// The deviation of a block is the sum of the distances of its 256 pixels to their mean.
pub proof fn deviation_is_taken_over_the_block(search: Search, x: int, y: int)
    ensures
        ({
            let width = search.width as int;
            let pixel = |i: int| search.curr[(y + i / 16) * width + x + i % 16] as int;
            let mean = sums::sum(256, pixel) / 256;
            deviation_at(search, x, y) == sums::sum(256, |i: int| sums::distance(pixel(i), mean))
        }),
{
    let width = search.width as int;
    let pixel = |i: int| search.curr[(y + i / 16) * width + x + i % 16] as int;
    let mean = sums::sum(256, pixel) / 256;
    let pixels = motion::block_pixels(search.curr, width, x, y, 16);
    motion::deviation_is_sum_of_distances(search.curr, width, x, y, 16, 16);
    sums::lemma_sum_same(256, pixels, pixel);
    let one = motion::pixel_distances(pixels, mean);
    let other = |i: int| sums::distance(pixel(i), mean);
    sums::lemma_sum_same(256, one, other);
}

/// The score is what prediction leaves over, divided by a part of the complexity and by 40 for
/// each group of blocks and once more.
pub proof fn scores_weigh_residue_against_complexity(ssad: int, complexity: int, groups: int)
    requires
        0 <= ssad,
        0 <= complexity,
        0 <= groups,
        complexity / 128 + 40 + 40 * groups <= u64::MAX,
    ensures
        score_of(ssad, complexity, budget(groups)) == ssad / (complexity / 128 + 40 + 40 * groups),
{
}

/// More residue never lowers the score, and more complexity never raises it.
pub proof fn scores_are_monotone(
    ssad: int,
    more_ssad: int,
    complexity: int,
    less_complexity: int,
    groups: int,
)
    requires
        0 <= ssad <= more_ssad,
        0 <= less_complexity <= complexity,
        0 <= groups,
    ensures
        score_of(ssad, complexity, budget(groups)) <= score_of(
            more_ssad,
            less_complexity,
            budget(groups),
        ),
        score_of(0, complexity, budget(groups)) == 0,
{
    let limit = u64::MAX as int;
    let weight = sums::saturate(4 * budget(groups), limit);
    let larger = sums::saturate(complexity / 128 + weight, limit);
    let smaller = sums::saturate(less_complexity / 128 + weight, limit);
    assert(0 < smaller <= larger);
    assert(ssad / larger <= more_ssad / smaller) by (nonlinear_arith)
        requires
            0 <= ssad <= more_ssad,
            0 < smaller <= larger,
    ;
    assert(0int / larger == 0) by (nonlinear_arith)
        requires
            0 < larger,
    ;
}

/// A total over all superblocks adds up, over their rows and columns, what their four blocks
/// add.
proof fn lemma_superblock_total_is(
    context: Search,
    measure: Measure,
    across: int,
    down: int,
    part: spec_fn(int, int, int) -> int,
)
    requires
        across >= 4,
        down >= 4,
        across <= usize::MAX,
        down <= usize::MAX,
        forall|i: int, j: int, k: int|
            #![trigger part(i, j, k)]
            part(i, j, k) == block_contribution(
                measure,
                deviation_at(
                    context,
                    16 * (1 + 2 * i) + 16 * (k % 2),
                    16 * (1 + 2 * j) + 16 * (k / 2),
                ),
                context.best_match(16 * (1 + 2 * i), 16 * (1 + 2 * j), k),
                context.intra_thresh_u32 as int,
            ),
    ensures
        sums::sum(
            superblock_positions(down).len() as int,
            row_contributions(
                context,
                measure,
                superblock_positions(across),
                superblock_positions(down),
            ),
        ) == sums::sum(
            (down - 2) / 2,
            |j: int|
                sums::sum((across - 2) / 2, |i: int| sums::sum(4, |k: int| part(i, j, k))),
        ),
{
    let xs = superblock_positions(across);
    let ys = superblock_positions(down);
    let rows = |j: int|
        sums::sum((across - 2) / 2, |i: int| sums::sum(4, |k: int| part(i, j, k)));
    let given = row_contributions(context, measure, xs, ys);
    assert forall|j: int| 0 <= j < ys.len() implies #[trigger] given(j) == rows(j) by {
        let columns = |i: int| sums::sum(4, |k: int| part(i, j, k));
        let inner = superblock_contributions(context, measure, xs, ys[j] as int);
        assert forall|i: int| 0 <= i < xs.len() implies #[trigger] inner(i) == columns(i) by {
            let blocks = |k: int| part(i, j, k);
            let quadrants = quadrant_contributions(context, measure, xs[i] * 16, ys[j] * 16);
            assert forall|k: int| 0 <= k < 4 implies #[trigger] quadrants(k) == blocks(k) by {
                assert(blocks(k) == part(i, j, k));
            }
            sums::lemma_sum_same(4, quadrants, blocks);
        }
        sums::lemma_sum_same(xs.len() as int, inner, columns);
    }
    sums::lemma_sum_same(ys.len() as int, given, rows);
}

/// The analysis of a frame of at least four by four macroblocks looks at the four blocks of each
/// superblock inside the border. It counts those whose best match differs by more than their
/// deviation plus the threshold, adds up what prediction leaves, and weighs that against the
/// complexity of the frame.
pub proof fn large_frames_are_analysed_block_by_block(
    prev: Seq<u8>,
    curr: Seq<u8>,
    width: usize,
    height: usize,
    search_radius: i32,
    intra_thresh: i32,
)
    requires
        width > 48,
        height > 48,
        frames_present(prev, curr, width, height),
        curr.len() <= usize::MAX,
    ensures
        ({
            let found = analysis(prev, curr, width, height, search_radius, intra_thresh);
            let threshold: int = if intra_thresh < 0 {
                0
            } else {
                intra_thresh as int
            };
            let search = Search {
                prev,
                curr,
                width,
                search_radius,
                intra_thresh_u32: threshold as u32,
                max_horizontal_limit: (width - 32) as usize,
                max_vertical_limit: (height - 32) as usize,
            };
            let across = (width + 15) / 16;
            let down = (height + 15) / 16;
            let dev = |i: int, j: int, k: int|
                deviation_at(
                    search,
                    16 * (1 + 2 * i) + 16 * (k % 2),
                    16 * (1 + 2 * j) + 16 * (k / 2),
                );
            let best = |i: int, j: int, k: int|
                search.best_match(16 * (1 + 2 * i), 16 * (1 + 2 * j), k);
            let total = |part: spec_fn(int, int, int) -> int|
                sums::sum(
                    (down - 2) / 2,
                    |j: int|
                        sums::sum((across - 2) / 2, |i: int| sums::sum(4, |k: int| part(i, j, k))),
                );
            let residue = sums::saturate(
                total(
                    |i: int, j: int, k: int|
                        {
                            let m = best(i, j, k);
                            let d = dev(i, j, k);
                            (if d < 3000 {
                                m.sad as int
                            } else {
                                m.sad as int / 2
                            }) + (if m.dx == 0 && m.dy == 0 && d > 1000 && m.sad < 1000 {
                                512int
                            } else {
                                0int
                            })
                        },
                ),
                u64::MAX as int,
            );
            let complexity = sums::saturate(
                total(
                    |i: int, j: int, k: int|
                        if dev(i, j, k) > 300 {
                            dev(i, j, k)
                        } else {
                            300
                        },
                ),
                u64::MAX as int,
            );
            let weight = sums::saturate(
                complexity / 128 + sums::saturate(
                    40 + 40 * (((across - 2) / 2) * ((down - 2) / 2)),
                    u64::MAX as int,
                ),
                u64::MAX as int,
            );
            &&& found.total_blocks == (across - 2) * (down - 2)
            &&& found.intra_blocks == total(
                |i: int, j: int, k: int|
                    if best(i, j, k).sad > dev(i, j, k) + threshold {
                        1int
                    } else {
                        0int
                    },
            )
            &&& found.mc_sad == residue
            &&& found.score == residue / weight
        }),
{
    let threshold: int = if intra_thresh < 0 {
        0
    } else {
        intra_thresh as int
    };
    let search = superblock_context(
        prev,
        curr,
        width,
        height,
        search_radius,
        threshold as u32,
    );
    let across = macroblocks(width as int);
    let down = macroblocks(height as int);
    let xs = superblock_positions(across);
    let ys = superblock_positions(down);
    let dev = |i: int, j: int, k: int|
        deviation_at(
            search,
            16 * (1 + 2 * i) + 16 * (k % 2),
            16 * (1 + 2 * j) + 16 * (k / 2),
        );
    let best = |i: int, j: int, k: int| search.best_match(16 * (1 + 2 * i), 16 * (1 + 2 * j), k);
    let intra = |i: int, j: int, k: int|
        if best(i, j, k).sad > dev(i, j, k) + threshold {
            1int
        } else {
            0int
        };
    let left = |i: int, j: int, k: int|
        {
            let m = best(i, j, k);
            let d = dev(i, j, k);
            (if d < 3000 {
                m.sad as int
            } else {
                m.sad as int / 2
            }) + (if m.dx == 0 && m.dy == 0 && d > 1000 && m.sad < 1000 {
                512int
            } else {
                0int
            })
        };
    let complex = |i: int, j: int, k: int|
        if dev(i, j, k) > 300 {
            dev(i, j, k)
        } else {
            300
        };
    lemma_counts_fit(width as int, height as int, across, down);
    lemma_superblock_total_is(search, Measure::Intra, across, down, intra);
    lemma_superblock_total_is(search, Measure::Ssad, across, down, left);
    lemma_superblock_total_is(search, Measure::Complexity, across, down, complex);
    lemma_superblock_sums(search, Measure::Intra, xs, ys);
    lemma_superblock_sums(search, Measure::Ssad, xs, ys);
    lemma_superblock_sums(search, Measure::Complexity, xs, ys);
    assert(4 * (xs.len() * ys.len()) <= (across - 2) * (down - 2)) by (nonlinear_arith)
        requires
            2 * xs.len() <= across - 2,
            2 * ys.len() <= down - 2,
    ;
    lemma_score_bound(
        superblock_total(search, Measure::Ssad, across, down),
        superblock_total(search, Measure::Complexity, across, down),
        (xs.len() * ys.len()) as int,
    );
}

/// A total over all blocks inside the border adds up what they add, row by row.
proof fn lemma_inner_total_is(
    context: Search,
    measure: Measure,
    inner_width: int,
    inner_height: int,
    part: spec_fn(int, int) -> int,
)
    requires
        forall|i: int, j: int|
            #![trigger part(i, j)]
            part(i, j) == block_contribution(
                measure,
                deviation_at(context, 16 * (1 + i), 16 * (1 + j)),
                context.best_match(16 * (1 + i), 16 * (1 + j), 0),
                context.intra_thresh_u32 as int,
            ),
    ensures
        sums::sum(inner_height, inner_rows(context, measure, inner_width)) == sums::sum(
            inner_height,
            |j: int| sums::sum(inner_width, |i: int| part(i, j)),
        ),
{
    let rows = |j: int| sums::sum(inner_width, |i: int| part(i, j));
    let given = inner_rows(context, measure, inner_width);
    assert forall|j: int| 0 <= j < inner_height implies #[trigger] given(j) == rows(j) by {
        let columns = |i: int| part(i, j);
        let blocks = inner_blocks(context, measure, j);
        assert forall|i: int| 0 <= i < inner_width implies #[trigger] blocks(i) == columns(i) by {
            assert(columns(i) == part(i, j));
        }
        sums::lemma_sum_same(inner_width, blocks, columns);
    }
    sums::lemma_sum_same(inner_height, given, rows);
}

/// The analysis of a frame that is three macroblocks wide or high looks at each block inside the
/// border. It counts and weighs them like the blocks of larger frames.
pub proof fn small_frames_are_analysed_block_by_block(
    prev: Seq<u8>,
    curr: Seq<u8>,
    width: usize,
    height: usize,
    search_radius: i32,
    intra_thresh: i32,
)
    requires
        width > 32,
        height > 32,
        width <= 48 || height <= 48,
        frames_present(prev, curr, width, height),
        curr.len() <= usize::MAX,
    ensures
        ({
            let found = analysis(prev, curr, width, height, search_radius, intra_thresh);
            let threshold: int = if intra_thresh < 0 {
                0
            } else {
                intra_thresh as int
            };
            let search = Search {
                prev,
                curr,
                width,
                search_radius,
                intra_thresh_u32: threshold as u32,
                max_horizontal_limit: (width - 16) as usize,
                max_vertical_limit: (height - 16) as usize,
            };
            let across = (width + 15) / 16 - 2;
            let down = (height + 15) / 16 - 2;
            let dev = |i: int, j: int| deviation_at(search, 16 * (1 + i), 16 * (1 + j));
            let best = |i: int, j: int| search.best_match(16 * (1 + i), 16 * (1 + j), 0);
            let total = |part: spec_fn(int, int) -> int|
                sums::sum(down, |j: int| sums::sum(across, |i: int| part(i, j)));
            let residue = sums::saturate(
                total(
                    |i: int, j: int|
                        {
                            let m = best(i, j);
                            let d = dev(i, j);
                            (if d < 3000 {
                                m.sad as int
                            } else {
                                m.sad as int / 2
                            }) + (if m.dx == 0 && m.dy == 0 && d > 1000 && m.sad < 1000 {
                                512int
                            } else {
                                0int
                            })
                        },
                ),
                u64::MAX as int,
            );
            let complexity = sums::saturate(
                total(
                    |i: int, j: int|
                        if dev(i, j) > 300 {
                            dev(i, j)
                        } else {
                            300
                        },
                ),
                u64::MAX as int,
            );
            let weight = sums::saturate(
                complexity / 128 + sums::saturate(40 + 40 * (across * down), u64::MAX as int),
                u64::MAX as int,
            );
            &&& found.total_blocks == across * down
            &&& found.intra_blocks == total(
                |i: int, j: int|
                    if best(i, j).sad > dev(i, j) + threshold {
                        1int
                    } else {
                        0int
                    },
            )
            &&& found.mc_sad == residue
            &&& found.score == residue / weight
        }),
{
    let threshold: int = if intra_thresh < 0 {
        0
    } else {
        intra_thresh as int
    };
    let search = block_context(prev, curr, width, height, search_radius, threshold as u32);
    let across = macroblocks(width as int) - 2;
    let down = macroblocks(height as int) - 2;
    let dev = |i: int, j: int| deviation_at(search, 16 * (1 + i), 16 * (1 + j));
    let best = |i: int, j: int| search.best_match(16 * (1 + i), 16 * (1 + j), 0);
    let intra = |i: int, j: int|
        if best(i, j).sad > dev(i, j) + threshold {
            1int
        } else {
            0int
        };
    let left = |i: int, j: int|
        {
            let m = best(i, j);
            let d = dev(i, j);
            (if d < 3000 {
                m.sad as int
            } else {
                m.sad as int / 2
            }) + (if m.dx == 0 && m.dy == 0 && d > 1000 && m.sad < 1000 {
                512int
            } else {
                0int
            })
        };
    let complex = |i: int, j: int|
        if dev(i, j) > 300 {
            dev(i, j)
        } else {
            300
        };
    lemma_counts_fit(
        width as int,
        height as int,
        macroblocks(width as int),
        macroblocks(height as int),
    );
    lemma_inner_total_is(search, Measure::Intra, across, down, intra);
    lemma_inner_total_is(search, Measure::Ssad, across, down, left);
    lemma_inner_total_is(search, Measure::Complexity, across, down, complex);
    lemma_inner_rows_natural(search, Measure::Intra, across, down);
    lemma_inner_rows_natural(search, Measure::Ssad, across, down);
    lemma_inner_rows_natural(search, Measure::Complexity, across, down);
    lemma_inner_intra(search, across, down);
    let n = across * down;
    assert(down * (across * u32::MAX) <= n * (4 * u32::MAX)) by (nonlinear_arith)
        requires
            n == across * down,
            0 <= across,
            0 <= down,
    ;
    lemma_score_bound(
        inner_total(search, Measure::Ssad, across, down),
        inner_total(search, Measure::Complexity, across, down),
        n,
    );
}

/// A frame without a macroblock inside its border is not analysed.
pub proof fn frames_without_inner_blocks_are_not_analysed(
    prev: Seq<u8>,
    curr: Seq<u8>,
    width: usize,
    height: usize,
    search_radius: i32,
    intra_thresh: i32,
)
    requires
        width <= 32 || height <= 32,
    ensures
        ({
            let found = analysis(prev, curr, width, height, search_radius, intra_thresh);
            found.score == 0 && found.intra_blocks == 0 && found.total_blocks == 0 && found.mc_sad
                == 0
        }),
{
}

/// The best match does not depend on the threshold, nor does the deviation of a block.
proof fn lemma_threshold_apart(one: Search, other: Search)
    requires
        one == (Search { intra_thresh_u32: one.intra_thresh_u32, ..other }),
    ensures
        forall|x: int, y: int, k: int| #[trigger]
            one.best_match(x, y, k) == other.best_match(x, y, k),
        forall|x: int, y: int| #[trigger] deviation_at(one, x, y) == deviation_at(other, x, y),
{
    assert(one.frames() == other.frames());
}

/// A higher threshold makes no block intra that was not, and changes nothing else.
pub proof fn higher_thresholds_leave_fewer_intra_blocks(
    prev: Seq<u8>,
    curr: Seq<u8>,
    width: usize,
    height: usize,
    search_radius: i32,
    intra_thresh: i32,
    higher_thresh: i32,
)
    requires
        intra_thresh <= higher_thresh,
        frames_present(prev, curr, width, height),
        curr.len() <= usize::MAX,
    ensures
        ({
            let one = analysis(prev, curr, width, height, search_radius, intra_thresh);
            let other = analysis(prev, curr, width, height, search_radius, higher_thresh);
            &&& other.intra_blocks <= one.intra_blocks
            &&& other.score == one.score
            &&& other.mc_sad == one.mc_sad
            &&& other.total_blocks == one.total_blocks
        }),
{
    if width > 32 && height > 32 {
        let low = sums::maximum(intra_thresh as int, 0) as u32;
        let high = sums::maximum(higher_thresh as int, 0) as u32;
        let across = macroblocks(width as int);
        let down = macroblocks(height as int);
        lemma_counts_fit(width as int, height as int, across, down);
        if across == 3 || down == 3 {
            let one = block_context(prev, curr, width, height, search_radius, low);
            let other = block_context(prev, curr, width, height, search_radius, high);
            lemma_threshold_apart(one, other);
            lemma_inner_totals_compare(one, other, across - 2, down - 2);
        } else {
            let one = superblock_context(prev, curr, width, height, search_radius, low);
            let other = superblock_context(prev, curr, width, height, search_radius, high);
            let xs = superblock_positions(across);
            let ys = superblock_positions(down);
            lemma_threshold_apart(one, other);
            lemma_superblock_totals_compare(one, other, xs, ys);
            lemma_superblock_sums(one, Measure::Intra, xs, ys);
            lemma_superblock_sums(other, Measure::Intra, xs, ys);
            assert(4 * (xs.len() * ys.len()) <= (across - 2) * (down - 2)) by (nonlinear_arith)
                requires
                    2 * xs.len() <= across - 2,
                    2 * ys.len() <= down - 2,
            ;
        }
    }
}

proof fn lemma_inner_totals_compare(one: Search, other: Search, across: int, down: int)
    requires
        one == (Search { intra_thresh_u32: one.intra_thresh_u32, ..other }),
        one.intra_thresh_u32 <= other.intra_thresh_u32,
        0 <= across,
        0 <= down,
        across * down <= usize::MAX,
    ensures
        inner_total(other, Measure::Intra, across, down) <= inner_total(
            one,
            Measure::Intra,
            across,
            down,
        ) <= across * down,
        0 <= inner_total(other, Measure::Intra, across, down),
        inner_total(other, Measure::Ssad, across, down) == inner_total(
            one,
            Measure::Ssad,
            across,
            down,
        ),
        inner_total(other, Measure::Complexity, across, down) == inner_total(
            one,
            Measure::Complexity,
            across,
            down,
        ),
{
    lemma_threshold_apart(one, other);
    lemma_inner_intra(one, across, down);
    lemma_inner_rows_natural(other, Measure::Intra, across, down);
    assert forall|measure: Measure, j: int|
        sums::sum(across, inner_blocks(other, measure, j)) <= #[trigger] sums::sum(
            across,
            inner_blocks(one, measure, j),
        ) && (measure !is Intra ==> sums::sum(across, inner_blocks(other, measure, j))
            == sums::sum(across, inner_blocks(one, measure, j))) by {
        let f = inner_blocks(one, measure, j);
        let g = inner_blocks(other, measure, j);
        assert forall|i: int| 0 <= i < across implies #[trigger] g(i) <= f(i) by {
            let x = (1 + i) * 16;
            let y = (1 + j) * 16;
            assert(one.best_match(x, y, 0) == other.best_match(x, y, 0));
        }
        sums::lemma_sum_at_most(across, g, f);
        if measure !is Intra {
            assert forall|i: int| 0 <= i < across implies #[trigger] g(i) == f(i) by {
                let x = (1 + i) * 16;
                let y = (1 + j) * 16;
                assert(one.best_match(x, y, 0) == other.best_match(x, y, 0));
            }
            sums::lemma_sum_same(across, g, f);
        }
    }
    assert forall|measure: Measure|
        sums::sum(down, inner_rows(other, measure, across)) <= #[trigger] sums::sum(
            down,
            inner_rows(one, measure, across),
        ) && (measure !is Intra ==> sums::sum(down, inner_rows(other, measure, across))
            == sums::sum(down, inner_rows(one, measure, across))) by {
        let f = inner_rows(one, measure, across);
        let g = inner_rows(other, measure, across);
        assert forall|j: int| 0 <= j < down implies #[trigger] g(j) <= f(j) by {
            let here = sums::sum(across, inner_blocks(one, measure, j));
        }
        sums::lemma_sum_at_most(down, g, f);
        if measure !is Intra {
            assert forall|j: int| 0 <= j < down implies #[trigger] g(j) == f(j) by {
                let here = sums::sum(across, inner_blocks(one, measure, j));
            }
            sums::lemma_sum_same(down, g, f);
        }
    }
    let intra = sums::sum(down, inner_rows(one, Measure::Intra, across));
    let ssad = sums::sum(down, inner_rows(one, Measure::Ssad, across));
    let complexity = sums::sum(down, inner_rows(one, Measure::Complexity, across));
}

proof fn lemma_superblock_totals_compare(one: Search, other: Search, xs: Seq<usize>, ys: Seq<usize>)
    requires
        one == (Search { intra_thresh_u32: one.intra_thresh_u32, ..other }),
        one.intra_thresh_u32 <= other.intra_thresh_u32,
    ensures
        sums::sum(ys.len() as int, row_contributions(other, Measure::Intra, xs, ys)) <= sums::sum(
            ys.len() as int,
            row_contributions(one, Measure::Intra, xs, ys),
        ),
        sums::sum(ys.len() as int, row_contributions(other, Measure::Ssad, xs, ys)) == sums::sum(
            ys.len() as int,
            row_contributions(one, Measure::Ssad, xs, ys),
        ),
        sums::sum(ys.len() as int, row_contributions(other, Measure::Complexity, xs, ys))
            == sums::sum(ys.len() as int, row_contributions(one, Measure::Complexity, xs, ys)),
{
    lemma_threshold_apart(one, other);
    assert forall|measure: Measure, j: int|
        #![trigger row_contributions(one, measure, xs, ys)(j)]
        row_contributions(other, measure, xs, ys)(j) <= row_contributions(one, measure, xs, ys)(j)
            && (measure !is Intra ==> row_contributions(other, measure, xs, ys)(j)
            == row_contributions(one, measure, xs, ys)(j)) by {
        let f = superblock_contributions(one, measure, xs, ys[j] as int);
        let g = superblock_contributions(other, measure, xs, ys[j] as int);
        assert forall|i: int| #![trigger f(i)] #![trigger g(i)] g(i) <= f(i) && (measure !is Intra
            ==> g(i) == f(i)) by {
            let p = quadrant_contributions(one, measure, xs[i] * 16, ys[j] * 16);
            let q = quadrant_contributions(other, measure, xs[i] * 16, ys[j] * 16);
            assert forall|k: int| 0 <= k < 4 implies #[trigger] q(k) <= p(k) by {
                assert(one.best_match(xs[i] * 16, ys[j] * 16, k) == other.best_match(
                    xs[i] * 16,
                    ys[j] * 16,
                    k,
                ));
            }
            sums::lemma_sum_at_most(4, q, p);
            if measure !is Intra {
                assert forall|k: int| 0 <= k < 4 implies #[trigger] q(k) == p(k) by {
                    assert(one.best_match(xs[i] * 16, ys[j] * 16, k) == other.best_match(
                        xs[i] * 16,
                        ys[j] * 16,
                        k,
                    ));
                }
                sums::lemma_sum_same(4, q, p);
            }
        }
        sums::lemma_sum_at_most(xs.len() as int, g, f);
        if measure !is Intra {
            sums::lemma_sum_same(xs.len() as int, g, f);
        }
    }
    assert forall|measure: Measure|
        sums::sum(ys.len() as int, row_contributions(other, measure, xs, ys))
            <= #[trigger] sums::sum(ys.len() as int, row_contributions(one, measure, xs, ys)) && (
        measure !is Intra ==> sums::sum(ys.len() as int, row_contributions(other, measure, xs, ys))
            == sums::sum(ys.len() as int, row_contributions(one, measure, xs, ys))) by {
        let f = row_contributions(one, measure, xs, ys);
        let g = row_contributions(other, measure, xs, ys);
        assert forall|j: int| 0 <= j < ys.len() implies #[trigger] g(j) <= f(j) by {
            let here = row_contributions(one, measure, xs, ys)(j);
        }
        sums::lemma_sum_at_most(ys.len() as int, g, f);
        if measure !is Intra {
            assert forall|j: int| 0 <= j < ys.len() implies #[trigger] g(j) == f(j) by {
                let here = row_contributions(one, measure, xs, ys)(j);
            }
            sums::lemma_sum_same(ys.len() as int, g, f);
        }
    }
    let intra = sums::sum(ys.len() as int, row_contributions(one, Measure::Intra, xs, ys));
    let ssad = sums::sum(ys.len() as int, row_contributions(one, Measure::Ssad, xs, ys));
    let complexity = sums::sum(
        ys.len() as int,
        row_contributions(one, Measure::Complexity, xs, ys),
    );
}

/// A block that the previous frame holds at the same place differs by nothing from its best
/// match.
proof fn lemma_unmoved_block_matches(search: Search, edge: int, x: int, y: int, k: int)
    requires
        search.prev == search.curr,
        search.covers(edge),
        search.search_radius >= 0,
        0 <= x <= search.max_horizontal_limit,
        0 <= y <= search.max_vertical_limit,
        search.max_horizontal_limit + edge <= i32::MAX,
        search.max_vertical_limit + edge <= i32::MAX,
        16 <= edge,
        0 <= k < 4,
        k == 0 || edge == 32,
    ensures
        search.best_match(x, y, k).sad == 0,
{
    motion::best_match_is_the_least_difference(search, edge, x, y, k, 0, 0);
    let width = search.width as int;
    let left = x + 16 * (k % 2);
    let top = y + 16 * (k / 2);
    let rows = |row: int|
        sums::sum(
            16,
            |col: int|
                sums::distance(
                    search.curr[(top + row) * width + left + col] as int,
                    search.prev[(top + 0 + row) * width + left + 0 + col] as int,
                ),
        );
    assert forall|row: int| 0 <= row < 16 implies 0 <= #[trigger] rows(row) <= 0 by {
        let f = |col: int|
            sums::distance(
                search.curr[(top + row) * width + left + col] as int,
                search.prev[(top + 0 + row) * width + left + 0 + col] as int,
            );
        assert forall|col: int| 0 <= col < 16 implies 0 <= #[trigger] f(col) <= 0 by {}
        sums::lemma_sum_bounds(16, f, 0, 0);
    }
    sums::lemma_sum_bounds(16, rows, 0, 0);
}

/// A frame that repeats the one before it has no intra block, whatever the threshold.
pub proof fn repeated_frames_have_no_intra_blocks(
    frame: Seq<u8>,
    width: usize,
    height: usize,
    search_radius: i32,
    intra_thresh: i32,
)
    requires
        search_radius >= 0,
        frames_present(frame, frame, width, height),
        frame.len() <= usize::MAX,
        width <= i32::MAX,
        height <= i32::MAX,
    ensures
        analysis(frame, frame, width, height, search_radius, intra_thresh).intra_blocks == 0,
{
    if width > 32 && height > 32 {
        let threshold = sums::maximum(intra_thresh as int, 0) as u32;
        let across = macroblocks(width as int);
        let down = macroblocks(height as int);
        lemma_counts_fit(width as int, height as int, across, down);
        if across == 3 || down == 3 {
            let search = block_context(frame, frame, width, height, search_radius, threshold);
            let rows = inner_rows(search, Measure::Intra, across - 2);
            assert forall|j: int| 0 <= j < down - 2 implies 0 <= #[trigger] rows(j) <= 0 by {
                let blocks = inner_blocks(search, Measure::Intra, j);
                assert forall|i: int| 0 <= i < across - 2 implies 0 <= #[trigger] blocks(i)
                    <= 0 by {
                    lemma_unmoved_block_matches(search, 16, (1 + i) * 16, (1 + j) * 16, 0);
                    lemma_deviation_bounds(search, (1 + i) * 16, (1 + j) * 16);
                }
                sums::lemma_sum_bounds(across - 2, blocks, 0, 0);
            }
            sums::lemma_sum_bounds(down - 2, rows, 0, 0);
        } else {
            let search = superblock_context(
                frame,
                frame,
                width,
                height,
                search_radius,
                threshold,
            );
            let xs = superblock_positions(across);
            let ys = superblock_positions(down);
            lemma_positions_within(across, width as int);
            lemma_positions_within(down, height as int);
            let rows = row_contributions(search, Measure::Intra, xs, ys);
            assert forall|j: int| 0 <= j < ys.len() implies 0 <= #[trigger] rows(j) <= 0 by {
                let columns = superblock_contributions(
                    search,
                    Measure::Intra,
                    xs,
                    ys[j] as int,
                );
                assert(ys[j] * 16 <= height - 32);
                assert forall|i: int| 0 <= i < xs.len() implies 0 <= #[trigger] columns(i)
                    <= 0 by {
                    assert(xs[i] * 16 <= width - 32);
                    let blocks = quadrant_contributions(
                        search,
                        Measure::Intra,
                        xs[i] * 16,
                        ys[j] * 16,
                    );
                    assert forall|k: int| 0 <= k < 4 implies 0 <= #[trigger] blocks(k) <= 0 by {
                        lemma_unmoved_block_matches(search, 32, xs[i] * 16, ys[j] * 16, k);
                        lemma_deviation_bounds(
                            search,
                            xs[i] * 16 + motion::quadrant_x(k),
                            ys[j] * 16 + motion::quadrant_y(k),
                        );
                    }
                    sums::lemma_sum_bounds(4, blocks, 0, 0);
                }
                sums::lemma_sum_bounds(xs.len() as int, columns, 0, 0);
            }
            sums::lemma_sum_bounds(ys.len() as int, rows, 0, 0);
        }
    }
}

} // verus!
