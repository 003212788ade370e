//! Block motion search and the frame statistics derived from it.

use crate::lanes;
use crate::sums;
use vstd::prelude::*;

verus! {

/// Edge length of a macroblock, in pixels.
pub const BLOCK_EDGE: usize = 16;

/// The best displacement found for one block.
#[derive(Clone, Copy, Debug)]
pub struct MotionMatch {
    pub sad: u32,
    pub dx: i32,
    pub dy: i32,
}

/// A block of the current frame and the block of the previous frame it is held against.
#[derive(Clone, Copy, Debug)]
pub struct BlockPair {
    pub curr_x: usize,
    pub curr_y: usize,
    pub prev_x: usize,
    pub prev_y: usize,
}

/// Displacements to try, both ends included.
#[derive(Clone, Copy, Debug)]
pub struct SearchWindow {
    pub min_offset_x: i32,
    pub max_offset_x: i32,
    pub min_offset_y: i32,
    pub max_offset_y: i32,
}

/// Two planes of equal width.
pub struct FramePair {
    pub prev: Seq<u8>,
    pub curr: Seq<u8>,
    pub width: int,
}

/// Row `y` of the comparison of two blocks.
pub open spec fn row_differences(frames: FramePair, pair: BlockPair) -> spec_fn(int) -> int {
    |y: int|
        sums::sum(
            16,
            lanes::differences(
                frames.curr,
                (pair.curr_y + y) * frames.width + pair.curr_x,
                frames.prev,
                (pair.prev_y + y) * frames.width + pair.prev_x,
            ),
        )
}

/// Sum of absolute differences of two blocks.
pub open spec fn block_sad(frames: FramePair, pair: BlockPair) -> int {
    sums::sum(16, row_differences(frames, pair))
}

/// A whole block at `(x, y)` lies inside a plane of `len` bytes.
pub open spec fn block_fits(len: int, width: int, x: int, y: int) -> bool {
    0 < width && (y + 15) * width + x + 16 <= len
}

/// Both blocks of `pair` lie inside their planes.
pub open spec fn pair_fits(frames: FramePair, pair: BlockPair) -> bool {
    &&& block_fits(frames.curr.len() as int, frames.width, pair.curr_x as int, pair.curr_y as int)
    &&& block_fits(frames.prev.len() as int, frames.width, pair.prev_x as int, pair.prev_y as int)
}

proof fn lemma_row_differences_bounds(frames: FramePair, pair: BlockPair, y: int)
    ensures
        0 <= row_differences(frames, pair)(y) <= 16 * 255,
{
    let f = lanes::differences(
        frames.curr,
        (pair.curr_y + y) * frames.width + pair.curr_x,
        frames.prev,
        (pair.prev_y + y) * frames.width + pair.prev_x,
    );
    assert forall|i: int| 0 <= i < 16 implies 0 <= #[trigger] f(i) <= 255 by {}
    sums::lemma_sum_bounds(16, f, 0, 255);
}

pub proof fn lemma_block_sad_bounds(frames: FramePair, pair: BlockPair)
    ensures
        0 <= block_sad(frames, pair) <= 256 * 255,
{
    let f = row_differences(frames, pair);
    assert forall|y: int| 0 <= y < 16 implies 0 <= #[trigger] f(y) <= 16 * 255 by {
        lemma_row_differences_bounds(frames, pair, y);
    }
    sums::lemma_sum_bounds(16, f, 0, 4080);
}

/// Compares two blocks row by row and stops after the first row that takes the total past
/// `cutoff`.
pub fn sad16x16_with_cutoff(
    prev: &[u8],
    curr: &[u8],
    width: usize,
    pair: BlockPair,
    cutoff: u32,
) -> (r: u32)
    requires
        pair_fits(FramePair { prev: prev@, curr: curr@, width: width as int }, pair),
    ensures
        ({
            let f = row_differences(FramePair { prev: prev@, curr: curr@, width: width as int }, pair);
            exists|rows: int|
                0 < rows <= 16 && r == #[trigger] sums::sum(rows, f) && (rows == 16 || r > cutoff)
                    && (forall|k: int| 0 <= k < rows ==> #[trigger] sums::sum(k, f) <= cutoff)
        }),
        ({
            let full = block_sad(FramePair { prev: prev@, curr: curr@, width: width as int }, pair);
            if full <= cutoff {
                r == full
            } else {
                r > cutoff
            }
        }),
{
    let ghost frames = FramePair { prev: prev@, curr: curr@, width: width as int };
    let ghost f = row_differences(frames, pair);
    let mut total: u32 = 0;
    let mut y: usize = 0;
    while y < 16
        invariant
            y <= 16,
            frames == (FramePair { prev: prev@, curr: curr@, width: width as int }),
            f == row_differences(frames, pair),
            pair_fits(frames, pair),
            total == sums::sum(y as int, f),
            total <= y * 16 * 255,
            forall|k: int| 0 <= k <= y ==> #[trigger] sums::sum(k, f) <= cutoff,
        decreases 16 - y,
    {
        proof {
            assert(curr.len() == curr@.len() && prev.len() == prev@.len());
            lemma_row_in_block(
                curr@.len() as int,
                width as int,
                pair.curr_x as int,
                pair.curr_y as int,
                y as int,
            );
            lemma_row_in_block(
                prev@.len() as int,
                width as int,
                pair.prev_x as int,
                pair.prev_y as int,
                y as int,
            );
        }
        let curr_from: usize = (pair.curr_y + y) * width + pair.curr_x;
        let prev_from: usize = (pair.prev_y + y) * width + pair.prev_x;
        let row: u64 = lanes::sad_16(curr, curr_from, prev, prev_from);
        assert(row == f(y as int));
        assert(sums::sum(y + 1, f) == sums::sum(y as int, f) + f(y as int));
        total = total + row as u32;
        y = y + 1;
        if total > cutoff {
            proof {
                cutoff_keeps_small_totals(frames, pair, cutoff as int, y as int);
            }
            return total;
        }
    }
    total
}

proof fn lemma_row_in_block(len: int, width: int, x: int, y: int, row: int)
    requires
        block_fits(len, width, x, y),
        0 <= x,
        0 <= y,
        0 <= row < 16,
    ensures
        0 <= y + row <= len,
        0 <= (y + row) * width <= len,
        (y + row) * width + x + 16 <= len,
{
    assert(0 <= y + row <= (y + row) * width <= (y + 15) * width) by (nonlinear_arith)
        requires
            0 <= y,
            0 <= row < 16,
            0 < width,
    ;
}

/// Stopping early leaves a block whose total stays within the cutoff untouched, and a block
/// beyond it beyond it.
pub proof fn cutoff_keeps_small_totals(frames: FramePair, pair: BlockPair, cutoff: int, rows: int)
    requires
        0 < rows <= 16,
        rows == 16 || sums::sum(rows, row_differences(frames, pair)) > cutoff,
    ensures
        block_sad(frames, pair) <= cutoff ==> sums::sum(rows, row_differences(frames, pair))
            == block_sad(frames, pair),
        block_sad(frames, pair) > cutoff ==> sums::sum(rows, row_differences(frames, pair))
            > cutoff,
{
    let f = row_differences(frames, pair);
    assert forall|y: int| 0 <= y < 16 implies 0 <= #[trigger] f(y) by {
        lemma_row_differences_bounds(frames, pair, y);
    }
    sums::lemma_sum_monotone(rows, 16, f);
}

/// `base + offset` in 32-bit arithmetic that saturates.
pub open spec fn shifted(base: int, offset: int) -> int {
    sums::saturate(sums::saturate(base, i32::MAX as int) + offset, i32::MAX as int)
}

/// Horizontal position of quadrant `k` inside a superblock.
pub open spec fn quadrant_x(k: int) -> int {
    (k % 2) * 16
}

/// Vertical position of quadrant `k` inside a superblock.
pub open spec fn quadrant_y(k: int) -> int {
    (k / 2) * 16
}

/// Quadrant `k` of the superblock at `(base_x, base_y)`, and the same quadrant displaced by
/// `(dx, dy)` in the previous frame.
pub open spec fn quadrant_pair(base_x: int, base_y: int, k: int, dx: int, dy: int) -> BlockPair {
    BlockPair {
        curr_x: (base_x + quadrant_x(k)) as usize,
        curr_y: (base_y + quadrant_y(k)) as usize,
        prev_x: (shifted(base_x, dx) + quadrant_x(k)) as usize,
        prev_y: (shifted(base_y, dy) + quadrant_y(k)) as usize,
    }
}

/// What each displacement costs quadrant `k`.
pub open spec fn match_cost(frames: FramePair, base_x: int, base_y: int, k: int) -> spec_fn(
    int,
    int,
) -> int {
    |dx: int, dy: int| block_sad(frames, quadrant_pair(base_x, base_y, k, dx, dy))
}

/// `(dx, dy)` belongs to the window and comes before `(stop_dx, stop_dy)` in row order.
pub open spec fn visited(
    window: SearchWindow,
    stop_dx: int,
    stop_dy: int,
    dx: int,
    dy: int,
) -> bool {
    &&& window.min_offset_x <= dx <= window.max_offset_x
    &&& window.min_offset_y <= dy <= window.max_offset_y
    &&& dy < stop_dy || (dy == stop_dy && dx < stop_dx)
}

/// `m` is the first of the cheapest displacements before `(stop_dx, stop_dy)`; with no
/// displacement at all it is the zero displacement at the largest cost.
pub open spec fn cheapest_before(
    m: MotionMatch,
    window: SearchWindow,
    stop_dx: int,
    stop_dy: int,
    cost: spec_fn(int, int) -> int,
) -> bool {
    if exists|dx: int, dy: int| visited(window, stop_dx, stop_dy, dx, dy) {
        &&& visited(window, stop_dx, stop_dy, m.dx as int, m.dy as int)
        &&& m.sad == cost(m.dx as int, m.dy as int)
        &&& forall|dx: int, dy: int| #[trigger]
            visited(window, stop_dx, stop_dy, dx, dy) ==> {
                ||| m.sad < cost(dx, dy)
                ||| m.sad == cost(dx, dy) && !visited(window, m.dx as int, m.dy as int, dx, dy)
            }
    } else {
        m.sad == u32::MAX && m.dx == 0 && m.dy == 0
    }
}

/// The first of the cheapest displacements of the window.
pub open spec fn cheapest(window: SearchWindow, cost: spec_fn(int, int) -> int) -> MotionMatch {
    choose|m: MotionMatch| cheapest_before(m, window, 0, 0x8000_0000, cost)
}

proof fn lemma_cheapest_is(
    m: MotionMatch,
    window: SearchWindow,
    stop_dx: int,
    stop_dy: int,
    cost: spec_fn(int, int) -> int,
)
    requires
        cheapest_before(m, window, stop_dx, stop_dy, cost),
        stop_dy > window.max_offset_y,
    ensures
        cheapest(window, cost) == m,
{
    let end: int = 0x8000_0000;
    assert forall|dx: int, dy: int|
        visited(window, stop_dx, stop_dy, dx, dy) == #[trigger] visited(window, 0, end, dx, dy) by {}
    if exists|dx: int, dy: int| visited(window, stop_dx, stop_dy, dx, dy) {
        let (dx, dy) = choose|dx: int, dy: int| visited(window, stop_dx, stop_dy, dx, dy);
        assert(visited(window, 0, end, dx, dy));
    }
    assert(cheapest_before(m, window, 0, end, cost));
    let other = cheapest(window, cost);
    assert(cheapest_before(other, window, 0, end, cost));
    if exists|dx: int, dy: int| visited(window, 0, end, dx, dy) {
        assert(visited(window, 0, end, m.dx as int, m.dy as int));
        assert(visited(window, 0, end, other.dx as int, other.dy as int));
    }
}

proof fn lemma_cheapest_step(
    before: MotionMatch,
    after: MotionMatch,
    window: SearchWindow,
    dx: int,
    dy: int,
    cost: spec_fn(int, int) -> int,
)
    requires
        cheapest_before(before, window, dx, dy, cost),
        window.min_offset_x <= dx <= window.max_offset_x,
        window.min_offset_y <= dy <= window.max_offset_y,
        cost(dx, dy) < u32::MAX,
        if cost(dx, dy) < before.sad {
            after.sad == cost(dx, dy) && after.dx == dx && after.dy == dy
        } else {
            after == before
        },
    ensures
        cheapest_before(after, window, dx + 1, dy, cost),
{
    assert(visited(window, dx + 1, dy, dx, dy));
    assert forall|x: int, y: int| #[trigger] visited(window, dx + 1, dy, x, y) implies visited(
        window,
        dx,
        dy,
        x,
        y,
    ) || (x == dx && y == dy) by {}
    if exists|x: int, y: int| visited(window, dx, dy, x, y) {
        assert(visited(window, dx, dy, before.dx as int, before.dy as int));
        assert(visited(window, dx + 1, dy, before.dx as int, before.dy as int));
        assert forall|x: int, y: int| #[trigger] visited(window, dx + 1, dy, x, y) implies {
            ||| after.sad < cost(x, y)
            ||| after.sad == cost(x, y) && !visited(window, after.dx as int, after.dy as int, x, y)
        } by {
            if visited(window, dx, dy, x, y) {
            } else {
                assert(x == dx && y == dy);
            }
        }
    } else {
        assert forall|x: int, y: int| #[trigger] visited(window, dx + 1, dy, x, y) implies x == dx
            && y == dy by {}
    }
}

proof fn lemma_cheapest_next_row(
    m: MotionMatch,
    window: SearchWindow,
    dx: int,
    dy: int,
    cost: spec_fn(int, int) -> int,
)
    requires
        cheapest_before(m, window, dx, dy, cost),
        dx > window.max_offset_x,
    ensures
        cheapest_before(m, window, window.min_offset_x as int, dy + 1, cost),
{
    let first = window.min_offset_x as int;
    assert forall|x: int, y: int| visited(window, dx, dy, x, y) == #[trigger] visited(
        window,
        first,
        dy + 1,
        x,
        y,
    ) by {}
    if exists|x: int, y: int| visited(window, dx, dy, x, y) {
        let (x, y) = choose|x: int, y: int| visited(window, dx, dy, x, y);
        assert(visited(window, first, dy + 1, x, y));
        assert(visited(window, first, dy + 1, m.dx as int, m.dy as int));
    }
}

/// Takes the displacement `(dx, dy)` over if it is cheaper than `best`.
fn consider(
    prev: &[u8],
    curr: &[u8],
    width: usize,
    pair: BlockPair,
    dx: i32,
    dy: i32,
    best: MotionMatch,
) -> (r: MotionMatch)
    requires
        pair_fits(FramePair { prev: prev@, curr: curr@, width: width as int }, pair),
    ensures
        ({
            let full = block_sad(FramePair { prev: prev@, curr: curr@, width: width as int }, pair);
            if full < best.sad {
                r.sad == full && r.dx == dx && r.dy == dy
            } else {
                r == best
            }
        }),
{
    let sad: u32 = sad16x16_with_cutoff(prev, curr, width, pair, best.sad);
    if sad < best.sad {
        MotionMatch { sad, dx, dy }
    } else {
        best
    }
}

/// `x` as a 32-bit number that saturates.
fn to_i32(x: usize) -> (r: i32)
    ensures
        r == sums::saturate(x as int, i32::MAX as int),
{
    if x > i32::MAX as usize {
        i32::MAX
    } else {
        x as i32
    }
}

/// The displacements within `radius` that keep a block at `(base_x, base_y)` between the origin
/// and the given limits.
pub open spec fn window_around(
    base_x: int,
    base_y: int,
    radius: int,
    max_horizontal_limit: int,
    max_vertical_limit: int,
) -> SearchWindow {
    let most = i32::MAX as int;
    let right = sums::saturate(sums::maximum(max_horizontal_limit - base_x, 0), most);
    let down = sums::saturate(sums::maximum(max_vertical_limit - base_y, 0), most);
    SearchWindow {
        min_offset_x: sums::maximum(-radius, -sums::saturate(base_x, most)) as i32,
        max_offset_x: sums::minimum(radius, right) as i32,
        min_offset_y: sums::maximum(-radius, -sums::saturate(base_y, most)) as i32,
        max_offset_y: sums::minimum(radius, down) as i32,
    }
}

pub fn superblock_search_window(
    base_x: usize,
    base_y: usize,
    search_radius: i32,
    max_horizontal_limit: usize,
    max_vertical_limit: usize,
) -> (r: SearchWindow)
    requires
        search_radius > i32::MIN,
    ensures
        r == window_around(
            base_x as int,
            base_y as int,
            search_radius as int,
            max_horizontal_limit as int,
            max_vertical_limit as int,
        ),
{
    let left: i32 = -to_i32(base_x);
    let right: i32 = to_i32(max_horizontal_limit.saturating_sub(base_x));
    let up: i32 = -to_i32(base_y);
    let down: i32 = to_i32(max_vertical_limit.saturating_sub(base_y));
    SearchWindow {
        min_offset_x: if -search_radius >= left { -search_radius } else { left },
        max_offset_x: if search_radius <= right { search_radius } else { right },
        min_offset_y: if -search_radius >= up { -search_radius } else { up },
        max_offset_y: if search_radius <= down { search_radius } else { down },
    }
}

/// Everything a search needs besides the position of the block: `edge` is the edge length of the
/// area searched for, so that the limits are the last positions where it still fits.
#[derive(Clone, Copy, Debug)]
pub struct SuperblockEvalContext<'a> {
    pub prev: &'a [u8],
    pub curr: &'a [u8],
    pub width: usize,
    pub search_radius: i32,
    pub intra_thresh_u32: u32,
    pub max_horizontal_limit: usize,
    pub max_vertical_limit: usize,
}

/// What a [`SuperblockEvalContext`] holds.
pub struct Search {
    pub prev: Seq<u8>,
    pub curr: Seq<u8>,
    pub width: usize,
    pub search_radius: i32,
    pub intra_thresh_u32: u32,
    pub max_horizontal_limit: usize,
    pub max_vertical_limit: usize,
}

impl<'a> View for SuperblockEvalContext<'a> {
    type V = Search;

    open spec fn view(&self) -> Search {
        Search {
            prev: self.prev@,
            curr: self.curr@,
            width: self.width,
            search_radius: self.search_radius,
            intra_thresh_u32: self.intra_thresh_u32,
            max_horizontal_limit: self.max_horizontal_limit,
            max_vertical_limit: self.max_vertical_limit,
        }
    }
}

impl Search {
    pub open spec fn frames(self) -> FramePair {
        FramePair { prev: self.prev, curr: self.curr, width: self.width as int }
    }

    pub open spec fn window(self, base_x: int, base_y: int) -> SearchWindow {
        window_around(
            base_x,
            base_y,
            self.search_radius as int,
            self.max_horizontal_limit as int,
            self.max_vertical_limit as int,
        )
    }

    /// Both planes hold every position up to the limits, for an area of the given edge.
    pub open spec fn covers(self, edge: int) -> bool {
        &&& self.search_radius > i32::MIN
        &&& self.width == self.max_horizontal_limit + edge
        &&& self.width * (self.max_vertical_limit + edge) <= self.prev.len()
        &&& self.width * (self.max_vertical_limit + edge) <= self.curr.len() <= usize::MAX
    }

    /// The first of the cheapest displacements of quadrant `k`.
    pub open spec fn best_match(self, base_x: int, base_y: int, k: int) -> MotionMatch {
        cheapest(self.window(base_x, base_y), match_cost(self.frames(), base_x, base_y, k))
    }
}

proof fn lemma_block_in_frame(len: int, width: int, height: int, x: int, y: int)
    requires
        0 <= x,
        0 <= y,
        x + 16 <= width,
        y + 16 <= height,
        width * height <= len,
    ensures
        block_fits(len, width, x, y),
{
    assert((y + 15) * width + width <= width * height) by (nonlinear_arith)
        requires
            y + 16 <= height,
            0 < width,
    ;
}

proof fn lemma_quadrant_fits(
    context: Search,
    edge: int,
    base_x: int,
    base_y: int,
    k: int,
    dx: int,
    dy: int,
)
    requires
        context.covers(edge),
        0 <= base_x <= context.max_horizontal_limit,
        0 <= base_y <= context.max_vertical_limit,
        0 <= quadrant_x(k) <= edge - 16,
        0 <= quadrant_y(k) <= edge - 16,
        context.window(base_x, base_y).min_offset_x <= dx <= context.window(
            base_x,
            base_y,
        ).max_offset_x,
        context.window(base_x, base_y).min_offset_y <= dy <= context.window(
            base_x,
            base_y,
        ).max_offset_y,
    ensures
        0 <= shifted(base_x, dx) <= context.max_horizontal_limit,
        0 <= shifted(base_y, dy) <= context.max_vertical_limit,
        pair_fits(context.frames(), quadrant_pair(base_x, base_y, k, dx, dy)),
        base_x + edge <= usize::MAX,
        base_y + edge <= usize::MAX,
        shifted(base_x, dx) + edge <= usize::MAX,
        shifted(base_y, dy) + edge <= usize::MAX,
{
    let width = context.width as int;
    let height = context.max_vertical_limit + edge;
    assert(height <= width * height) by (nonlinear_arith)
        requires
            0 < width,
            0 <= height,
    ;
    lemma_block_in_frame(
        context.curr.len() as int,
        width,
        height,
        base_x + quadrant_x(k),
        base_y + quadrant_y(k),
    );
    lemma_block_in_frame(
        context.prev.len() as int,
        width,
        height,
        shifted(base_x, dx) + quadrant_x(k),
        shifted(base_y, dy) + quadrant_y(k),
    );
}

/// A block inside the limits can be read from the current plane.
pub proof fn lemma_block_within(context: Search, edge: int, x: int, y: int)
    requires
        context.covers(edge),
        0 <= x <= context.width - 16,
        0 <= y <= context.max_vertical_limit + edge - 16,
    ensures
        (y + 16 - 1) * context.width + x + 16 <= context.curr.len(),
        x <= usize::MAX,
        y + 16 - 1 <= usize::MAX,
{
    let width = context.width as int;
    let height = context.max_vertical_limit + edge;
    lemma_block_in_frame(context.curr.len() as int, width, height, x, y);
    assert(height <= width * height) by (nonlinear_arith)
        requires
            0 < width,
            0 <= height,
    ;
}

/// A position displaced by an offset that does not lead below zero.
fn shift(base: usize, offset: i32) -> (r: usize)
    requires
        shifted(base as int, offset as int) >= 0,
    ensures
        r == shifted(base as int, offset as int),
{
    let moved: i64 = to_i32(base) as i64 + offset as i64;
    if moved > i32::MAX as i64 {
        i32::MAX as usize
    } else {
        moved as usize
    }
}

/// Finds the best displacement of each quadrant of the superblock at `(base_x, base_y)`.
pub fn search_superblock_matches(
    context: &SuperblockEvalContext<'_>,
    base_x: usize,
    base_y: usize,
) -> (r: [MotionMatch; 4])
    requires
        context@.covers(32),
        base_x <= context.max_horizontal_limit,
        base_y <= context.max_vertical_limit,
    ensures
        forall|k: int|
            0 <= k < 4 ==> #[trigger] r@[k] == context@.best_match(base_x as int, base_y as int, k),
{
    let window = superblock_search_window(
        base_x,
        base_y,
        context.search_radius,
        context.max_horizontal_limit,
        context.max_vertical_limit,
    );
    let ghost frames = context@.frames();
    let ghost bx = base_x as int;
    let ghost by = base_y as int;
    let unmatched = MotionMatch { sad: u32::MAX, dx: 0, dy: 0 };
    let mut result: [MotionMatch; 4] = [unmatched, unmatched, unmatched, unmatched];
    let mut dy: i64 = window.min_offset_y as i64;
    while dy <= window.max_offset_y as i64
        invariant
            context@.covers(32),
            base_x <= context.max_horizontal_limit,
            base_y <= context.max_vertical_limit,
            window == context@.window(base_x as int, base_y as int),
            frames == context@.frames(),
            bx == base_x,
            by == base_y,
            window.min_offset_y <= dy <= i32::MAX + 1,
            forall|k: int|
                0 <= k < 4 ==> cheapest_before(
                    #[trigger] result@[k],
                    window,
                    window.min_offset_x as int,
                    dy as int,
                    match_cost(frames, bx, by, k),
                ),
        decreases window.max_offset_y + 1 - dy,
    {
        let mut dx: i64 = window.min_offset_x as i64;
        while dx <= window.max_offset_x as i64
            invariant
                context@.covers(32),
                base_x <= context.max_horizontal_limit,
                base_y <= context.max_vertical_limit,
                window == context@.window(base_x as int, base_y as int),
                frames == context@.frames(),
                bx == base_x,
                by == base_y,
                window.min_offset_y <= dy <= window.max_offset_y,
                window.min_offset_x <= dx <= i32::MAX + 1,
                forall|k: int|
                    0 <= k < 4 ==> cheapest_before(
                        #[trigger] result@[k],
                        window,
                        dx as int,
                        dy as int,
                        match_cost(frames, bx, by, k),
                    ),
            decreases window.max_offset_x + 1 - dx,
        {
            proof {
                lemma_quadrant_fits(context@, 32, bx, by, 0, dx as int, dy as int);
            }
            let col: usize = shift(base_x, dx as i32);
            let row: usize = shift(base_y, dy as i32);
            let mut k: usize = 0;
            while k < 4
                invariant
                    k <= 4,
                    context@.covers(32),
                    base_x <= context.max_horizontal_limit,
                    base_y <= context.max_vertical_limit,
                    window == context@.window(base_x as int, base_y as int),
                    frames == context@.frames(),
                    bx == base_x,
                    by == base_y,
                    window.min_offset_y <= dy <= window.max_offset_y,
                    window.min_offset_x <= dx <= window.max_offset_x,
                    col == shifted(bx, dx as int),
                    row == shifted(by, dy as int),
                    forall|j: int|
                        0 <= j < 4 ==> cheapest_before(
                            #[trigger] result@[j],
                            window,
                            if j < k { dx + 1 } else { dx as int },
                            dy as int,
                            match_cost(frames, bx, by, j),
                        ),
                decreases 4 - k,
            {
                proof {
                    lemma_quadrant_fits(context@, 32, bx, by, k as int, dx as int, dy as int);
                    lemma_block_sad_bounds(frames, quadrant_pair(bx, by, k as int, dx as int, dy as int));
                }
                let offset_x: usize = (k % 2) * BLOCK_EDGE;
                let offset_y: usize = (k / 2) * BLOCK_EDGE;
                let pair = BlockPair {
                    curr_x: base_x + offset_x,
                    curr_y: base_y + offset_y,
                    prev_x: col + offset_x,
                    prev_y: row + offset_y,
                };
                let before = result[k];
                let after = consider(
                    context.prev,
                    context.curr,
                    context.width,
                    pair,
                    dx as i32,
                    dy as i32,
                    before,
                );
                proof {
                    assert(before == result@[k as int]);
                    lemma_cheapest_step(
                        before,
                        after,
                        window,
                        dx as int,
                        dy as int,
                        match_cost(frames, bx, by, k as int),
                    );
                }
                result[k] = after;
                k = k + 1;
            }
            dx = dx + 1;
        }
        proof {
            assert forall|k: int| 0 <= k < 4 implies cheapest_before(
                #[trigger] result@[k],
                window,
                window.min_offset_x as int,
                dy + 1,
                match_cost(frames, bx, by, k),
            ) by {
                lemma_cheapest_next_row(
                    result@[k],
                    window,
                    dx as int,
                    dy as int,
                    match_cost(frames, bx, by, k),
                );
            }
        }
        dy = dy + 1;
    }
    proof {
        assert forall|k: int| 0 <= k < 4 implies #[trigger] result@[k] == context@.best_match(
            bx,
            by,
            k,
        ) by {
            lemma_cheapest_is(
                result@[k],
                window,
                window.min_offset_x as int,
                dy as int,
                match_cost(frames, bx, by, k),
            );
        }
    }
    result
}

/// Finds the best displacement of the single block at `(block_x, block_y)`.
pub fn find_best_match_for_block(
    context: &SuperblockEvalContext<'_>,
    block_x: usize,
    block_y: usize,
) -> (r: MotionMatch)
    requires
        context@.covers(16),
        block_x <= context.max_horizontal_limit,
        block_y <= context.max_vertical_limit,
    ensures
        r == context@.best_match(block_x as int, block_y as int, 0),
{
    let window = superblock_search_window(
        block_x,
        block_y,
        context.search_radius,
        context.max_horizontal_limit,
        context.max_vertical_limit,
    );
    let ghost frames = context@.frames();
    let ghost cost = match_cost(frames, block_x as int, block_y as int, 0);
    let mut best = MotionMatch { sad: u32::MAX, dx: 0, dy: 0 };
    let mut dy: i64 = window.min_offset_y as i64;
    while dy <= window.max_offset_y as i64
        invariant
            context@.covers(16),
            block_x <= context.max_horizontal_limit,
            block_y <= context.max_vertical_limit,
            window == context@.window(block_x as int, block_y as int),
            frames == context@.frames(),
            cost == match_cost(frames, block_x as int, block_y as int, 0),
            window.min_offset_y <= dy <= i32::MAX + 1,
            cheapest_before(best, window, window.min_offset_x as int, dy as int, cost),
        decreases window.max_offset_y + 1 - dy,
    {
        let mut dx: i64 = window.min_offset_x as i64;
        while dx <= window.max_offset_x as i64
            invariant
                context@.covers(16),
                block_x <= context.max_horizontal_limit,
                block_y <= context.max_vertical_limit,
                window == context@.window(block_x as int, block_y as int),
                frames == context@.frames(),
                cost == match_cost(frames, block_x as int, block_y as int, 0),
                window.min_offset_y <= dy <= window.max_offset_y,
                window.min_offset_x <= dx <= i32::MAX + 1,
                cheapest_before(best, window, dx as int, dy as int, cost),
            decreases window.max_offset_x + 1 - dx,
        {
            let ghost before = best;
            let ghost expected = quadrant_pair(block_x as int, block_y as int, 0, dx as int, dy as int);
            proof {
                lemma_quadrant_fits(
                    context@,
                    16,
                    block_x as int,
                    block_y as int,
                    0,
                    dx as int,
                    dy as int,
                );
                lemma_block_sad_bounds(frames, expected);
            }
            let pair = BlockPair {
                curr_x: block_x,
                curr_y: block_y,
                prev_x: shift(block_x, dx as i32),
                prev_y: shift(block_y, dy as i32),
            };
            assert(pair == expected);
            best = consider(
                context.prev,
                context.curr,
                context.width,
                pair,
                dx as i32,
                dy as i32,
                best,
            );
            proof {
                lemma_cheapest_step(before, best, window, dx as int, dy as int, cost);
            }
            dx = dx + 1;
        }
        proof {
            lemma_cheapest_next_row(best, window, dx as int, dy as int, cost);
        }
        dy = dy + 1;
    }
    proof {
        lemma_cheapest_is(best, window, window.min_offset_x as int, dy as int, cost);
    }
    best
}

/// Before any place of a window some displacement is the first of the cheapest.
proof fn lemma_cheapest_before_exists(
    window: SearchWindow,
    dx: int,
    dy: int,
    cost: spec_fn(int, int) -> int,
) -> (m: MotionMatch)
    requires
        window.min_offset_x <= dx <= window.max_offset_x + 1,
        window.min_offset_y <= dy <= window.max_offset_y,
        forall|x: int, y: int| 0 <= #[trigger] cost(x, y) < u32::MAX,
    ensures
        cheapest_before(m, window, dx, dy, cost),
    decreases dy - window.min_offset_y, dx - window.min_offset_x,
{
    if dx > window.min_offset_x {
        let before = lemma_cheapest_before_exists(window, dx - 1, dy, cost);
        let here = cost(dx - 1, dy);
        let after = if here < before.sad {
            MotionMatch { sad: here as u32, dx: (dx - 1) as i32, dy: dy as i32 }
        } else {
            before
        };
        lemma_cheapest_step(before, after, window, dx - 1, dy, cost);
        after
    } else if dy > window.min_offset_y {
        let before = lemma_cheapest_before_exists(window, window.max_offset_x + 1, dy - 1, cost);
        lemma_cheapest_next_row(before, window, window.max_offset_x + 1, dy - 1, cost);
        before
    } else {
        MotionMatch { sad: u32::MAX, dx: 0, dy: 0 }
    }
}

/// Whatever the displacements of a window cost, one of them is the first of the cheapest.
pub proof fn cheapest_is_first_and_cheapest(window: SearchWindow, cost: spec_fn(int, int) -> int)
    requires
        forall|x: int, y: int| 0 <= #[trigger] cost(x, y) < u32::MAX,
    ensures
        cheapest_before(cheapest(window, cost), window, 0, 0x8000_0000, cost),
        forall|m: MotionMatch| #[trigger]
            cheapest_before(m, window, 0, 0x8000_0000, cost) ==> m == cheapest(window, cost),
{
    let end: int = 0x8000_0000;
    if window.min_offset_x <= window.max_offset_x && window.min_offset_y <= window.max_offset_y {
        let past_row = window.max_offset_x + 1;
        let last_row = window.max_offset_y as int;
        let m = lemma_cheapest_before_exists(window, past_row, last_row, cost);
        lemma_cheapest_next_row(m, window, past_row, last_row, cost);
        let first = window.min_offset_x as int;
        lemma_cheapest_is(m, window, first, last_row + 1, cost);
        assert forall|dx: int, dy: int|
            visited(window, first, last_row + 1, dx, dy) == #[trigger] visited(
                window,
                0,
                end,
                dx,
                dy,
            ) by {}
        assert(visited(window, first, last_row + 1, first, last_row));
        assert(visited(window, 0, end, first, last_row));
        assert(cheapest_before(m, window, 0, end, cost));
    } else {
        assert(cheapest_before(
            MotionMatch { sad: u32::MAX, dx: 0, dy: 0 },
            window,
            0,
            end,
            cost,
        ));
    }
    assert forall|m: MotionMatch| #[trigger]
        cheapest_before(m, window, 0, end, cost) implies m == cheapest(window, cost) by {
        lemma_cheapest_is(m, window, 0, end, cost);
    }
}

/// The best match of a quadrant is the first of its cheapest displacements.
pub proof fn best_match_is_cheapest(search: Search, base_x: int, base_y: int, k: int)
    ensures
        cheapest_before(
            search.best_match(base_x, base_y, k),
            search.window(base_x, base_y),
            0,
            0x8000_0000,
            match_cost(search.frames(), base_x, base_y, k),
        ),
{
    let cost = match_cost(search.frames(), base_x, base_y, k);
    assert forall|x: int, y: int| 0 <= #[trigger] cost(x, y) < u32::MAX by {
        lemma_block_sad_bounds(search.frames(), quadrant_pair(base_x, base_y, k, x, y));
    }
    cheapest_is_first_and_cheapest(search.window(base_x, base_y), cost);
}

/// Pixel `i` of a block that is `block_w` pixels wide, in row order.
pub open spec fn block_pixels(
    curr: Seq<u8>,
    width: int,
    x: int,
    y: int,
    block_w: int,
) -> spec_fn(int) -> int {
    |i: int| curr[(y + i / block_w) * width + x + i % block_w] as int
}

/// How far value `v` contributes to the deviation from `mean`, with counters that stop at the
/// largest 16-bit number.
pub open spec fn value_deviation(pixels: spec_fn(int) -> int, area: int, mean: int) -> spec_fn(
    int,
) -> int {
    |v: int|
        sums::saturate(sums::count(area, sums::places_of(pixels, v)), u16::MAX as int) * sums::distance(
            v,
            mean,
        )
}

/// Integer mean of `area` pixels, in 32-bit arithmetic that saturates.
pub open spec fn pixel_mean(pixels: spec_fn(int) -> int, area: int) -> int {
    sums::saturate(sums::sum(area, pixels), u32::MAX as int) / sums::saturate(area, u32::MAX as int)
}

/// Sum of the distances of a block's pixels to their mean, by way of a histogram of the block.
pub open spec fn block_deviation(pixels: spec_fn(int) -> int, area: int) -> int {
    if area <= 0 {
        0
    } else {
        sums::saturate(
            sums::sum(256, value_deviation(pixels, area, pixel_mean(pixels, area))),
            u32::MAX as int,
        )
    }
}

proof fn lemma_position_in_block(row: int, col: int, block_w: int)
    requires
        0 <= row,
        0 <= col < block_w,
    ensures
        (row * block_w + col) / block_w == row,
        (row * block_w + col) % block_w == col,
{
    assert((row * block_w + col) / block_w == row && (row * block_w + col) % block_w == col)
        by (nonlinear_arith)
        requires
            0 <= row,
            0 <= col < block_w,
    ;
}

/// Deviation of the `block_w` by `block_h` block at `(curr_x, curr_y)` from its mean.
pub fn dev_block(
    curr: &[u8],
    width: usize,
    curr_x: usize,
    curr_y: usize,
    block_w: usize,
    block_h: usize,
) -> (r: u32)
    requires
        block_w > 0 && block_h > 0 ==> {
            &&& (curr_y + block_h - 1) * width + curr_x + block_w <= curr@.len()
            &&& curr_y + block_h - 1 <= usize::MAX
        },
    ensures
        r == block_deviation(
            block_pixels(curr@, width as int, curr_x as int, curr_y as int, block_w as int),
            block_w * block_h,
        ),
{
    if block_w == 0 || block_h == 0 {
        proof {
            assert(block_w * block_h == 0) by (nonlinear_arith)
                requires
                    block_w == 0 || block_h == 0,
            ;
        }
        return 0;
    }
    let ghost pixels = block_pixels(
        curr@,
        width as int,
        curr_x as int,
        curr_y as int,
        block_w as int,
    );
    proof {
        assert(0 < block_w * block_h) by (nonlinear_arith)
            requires
                0 < block_w,
                0 < block_h,
        ;
        assert(curr.len() == curr@.len());
    }
    let ghost pixel_count = block_w * block_h;
    let mut total: u32 = 0;
    let mut histogram: [u16; 256] = [0u16; 256];
    let mut y: usize = 0;
    let ghost mut seen: int = 0;
    while y < block_h
        invariant
            0 < block_w,
            0 < block_h,
            y <= block_h,
            (curr_y + block_h - 1) * width + curr_x + block_w <= curr@.len(),
            curr_y + block_h - 1 <= usize::MAX,
            pixels == block_pixels(
                curr@,
                width as int,
                curr_x as int,
                curr_y as int,
                block_w as int,
            ),
            seen == y * block_w,
            total == sums::saturate(sums::sum(seen, pixels), u32::MAX as int),
            forall|v: int|
                0 <= v < 256 ==> #[trigger] histogram@[v] == sums::saturate(
                    sums::count(seen, sums::places_of(pixels, v)),
                    u16::MAX as int,
                ),
        decreases block_h - y,
    {
        proof {
            assert(curr.len() == curr@.len());
            assert((curr_y + y) * width <= (curr_y + block_h - 1) * width) by (nonlinear_arith)
                requires
                    0 <= curr_y + y <= curr_y + block_h - 1,
                    0 <= width,
            ;
        }
        let row: usize = (curr_y + y) * width;
        let mut x: usize = 0;
        while x < block_w
            invariant
                x <= block_w,
                y < block_h,
                row == (curr_y + y) * width,
                row + curr_x + block_w <= curr@.len(),
                pixels == block_pixels(
                    curr@,
                    width as int,
                    curr_x as int,
                    curr_y as int,
                    block_w as int,
                ),
                seen == y * block_w + x,
                total == sums::saturate(sums::sum(seen, pixels), u32::MAX as int),
                forall|v: int|
                    0 <= v < 256 ==> #[trigger] histogram@[v] == sums::saturate(
                        sums::count(seen, sums::places_of(pixels, v)),
                        u16::MAX as int,
                    ),
            decreases block_w - x,
        {
            assert(curr.len() == curr@.len());
            let pixel: u8 = curr[row + curr_x + x];
            let ghost before = histogram@;
            proof {
                lemma_position_in_block(y as int, x as int, block_w as int);
                assert(pixels(seen) == pixel);
                assert(sums::sum(seen + 1, pixels) == sums::sum(seen, pixels) + pixel);
                lemma_pixel_sum_is_natural(
                    seen,
                    pixels,
                    curr@,
                    width as int,
                    curr_x as int,
                    curr_y as int,
                    block_w as int,
                );
            }
            total = total.saturating_add(pixel as u32);
            histogram[pixel as usize] = histogram[pixel as usize].saturating_add(1);
            proof {
                assert forall|v: int| 0 <= v < 256 implies #[trigger] histogram@[v]
                    == sums::saturate(
                    sums::count(seen + 1, sums::places_of(pixels, v)),
                    u16::MAX as int,
                ) by {
                    let p = sums::places_of(pixels, v);
                    assert(before[v] == sums::saturate(sums::count(seen, p), u16::MAX as int));
                    assert(sums::indicator(p)(seen) == if pixel == v { 1int } else { 0int });
                    assert(sums::count(seen + 1, p) == sums::count(seen, p) + sums::indicator(p)(seen));
                    sums::lemma_count_bounds(seen, p);
                }
                seen = seen + 1;
            }
            x = x + 1;
        }
        proof {
            assert((y + 1) * block_w == y * block_w + block_w) by (nonlinear_arith);
        }
        y = y + 1;
    }
    proof {
        assert(seen == block_w * block_h) by (nonlinear_arith)
            requires
                seen == y * block_w,
                y == block_h,
        ;
    }
    let ghost mean_spec = pixel_mean(pixels, pixel_count);
    let divisor: u32 = match block_w.checked_mul(block_h) {
        Some(area) => if area > u32::MAX as usize { u32::MAX } else { area as u32 },
        None => u32::MAX,
    };
    let mean: u32 = total / divisor;
    proof {
        lemma_pixel_sum_is_natural(
            pixel_count,
            pixels,
            curr@,
            width as int,
            curr_x as int,
            curr_y as int,
            block_w as int,
        );
        assert(total <= 255 * divisor);
        assert(total / divisor <= 255) by (nonlinear_arith)
            requires
                total <= 255 * divisor,
                0 < divisor,
        ;
        assert(mean == mean_spec);
    }
    let mut dev: u32 = 0;
    let mut v: usize = 0;
    let ghost terms = value_deviation(pixels, pixel_count, mean_spec);
    while v < 256
        invariant
            v <= 256,
            mean == mean_spec,
            mean <= 255,
            terms == value_deviation(pixels, pixel_count, mean_spec),
            forall|u: int|
                0 <= u < 256 ==> #[trigger] histogram@[u] == sums::saturate(
                    sums::count(pixel_count, sums::places_of(pixels, u)),
                    u16::MAX as int,
                ),
            0 <= sums::sum(v as int, terms),
            dev == sums::saturate(sums::sum(v as int, terms), u32::MAX as int),
        decreases 256 - v,
    {
        let count: u32 = histogram[v] as u32;
        let value: u32 = v as u32;
        let apart: u32 = if value >= mean { value - mean } else { mean - value };
        proof {
            assert(histogram@[v as int] == count);
            assert(terms(v as int) == count * apart);
            assert(0 <= count * apart <= 65535 * 255) by (nonlinear_arith)
                requires
                    0 <= count <= 65535,
                    0 <= apart <= 255,
            ;
            assert(sums::sum(v + 1, terms) == sums::sum(v as int, terms) + terms(v as int));
        }
        dev = dev.saturating_add(count * apart);
        v = v + 1;
    }
    dev
}

proof fn lemma_pixel_sum_is_natural(
    n: int,
    pixels: spec_fn(int) -> int,
    curr: Seq<u8>,
    width: int,
    x: int,
    y: int,
    block_w: int,
)
    requires
        0 <= n,
        pixels == block_pixels(curr, width, x, y, block_w),
    ensures
        0 <= sums::sum(n, pixels) <= 255 * n,
{
    assert forall|i: int| 0 <= i < n implies 0 <= #[trigger] pixels(i) <= 255 by {}
    sums::lemma_sum_bounds(n, pixels, 0, 255);
}

/// Distances of the pixels to `mean`.
pub open spec fn pixel_distances(pixels: spec_fn(int) -> int, mean: int) -> spec_fn(int) -> int {
    |i: int| sums::distance(pixels(i), mean)
}

spec fn counted_distances(pixels: spec_fn(int) -> int, n: int, mean: int) -> spec_fn(int) -> int {
    |v: int| sums::count(n, sums::places_of(pixels, v)) * sums::distance(v, mean)
}

proof fn lemma_histogram_regroups(pixels: spec_fn(int) -> int, n: int, mean: int)
    requires
        0 <= n,
        forall|i: int| 0 <= i < n ==> 0 <= #[trigger] pixels(i) < 256,
    ensures
        sums::sum(256, counted_distances(pixels, n, mean)) == sums::sum(
            n,
            pixel_distances(pixels, mean),
        ),
    decreases n,
{
    let after = counted_distances(pixels, n, mean);
    if n == 0 {
        assert forall|v: int| 0 <= v < 256 implies 0 <= #[trigger] after(v) <= 0 by {
            assert(0 * sums::distance(v, mean) == 0) by (nonlinear_arith);
        }
        sums::lemma_sum_bounds(256, after, 0, 0);
    } else {
        lemma_histogram_regroups(pixels, n - 1, mean);
        let before = counted_distances(pixels, n - 1, mean);
        let last = pixels(n - 1);
        assert forall|v: int| 0 <= v < 256 && v != last implies #[trigger] before(v) == after(v) by {
            assert(sums::indicator(sums::places_of(pixels, v))(n - 1) == 0);
        }
        sums::lemma_sum_changed_at(256, last, before, after);
        let p = sums::places_of(pixels, last);
        assert(sums::indicator(p)(n - 1) == 1);
        let c = sums::count(n - 1, p);
        let d = sums::distance(last, mean);
        assert((c + 1) * d == c * d + d) by (nonlinear_arith);
        assert(pixel_distances(pixels, mean)(n - 1) == d);
    }
}

/// For a block of fewer than 65536 pixels the deviation is the sum of the distances of its pixels
/// to their mean.
pub proof fn deviation_is_sum_of_distances(
    curr: Seq<u8>,
    width: int,
    x: int,
    y: int,
    block_w: int,
    block_h: int,
)
    requires
        0 < block_w,
        0 < block_h,
        block_w * block_h <= u16::MAX,
    ensures
        ({
            let pixels = block_pixels(curr, width, x, y, block_w);
            let area = block_w * block_h;
            let mean = sums::sum(area, pixels) / area;
            block_deviation(pixels, area) == sums::sum(area, pixel_distances(pixels, mean))
        }),
{
    let pixels = block_pixels(curr, width, x, y, block_w);
    let area = block_w * block_h;
    assert(0 < area) by (nonlinear_arith)
        requires
            0 < block_w,
            0 < block_h,
            area == block_w * block_h,
    ;
    lemma_pixel_sum_is_natural(area, pixels, curr, width, x, y, block_w);
    let total = sums::sum(area, pixels);
    let mean = total / area;
    assert(mean == pixel_mean(pixels, area));
    assert(0 <= mean <= 255) by (nonlinear_arith)
        requires
            0 <= total <= 255 * area,
            0 < area,
            mean == total / area,
    ;
    assert forall|i: int| 0 <= i < area implies 0 <= #[trigger] pixels(i) < 256 by {}
    lemma_histogram_regroups(pixels, area, mean);
    let capped = value_deviation(pixels, area, mean);
    let counted = counted_distances(pixels, area, mean);
    assert forall|v: int| 0 <= v < 256 implies #[trigger] capped(v) == counted(v) by {
        sums::lemma_count_bounds(area, sums::places_of(pixels, v));
    }
    sums::lemma_sum_same(256, capped, counted);
    let distances = pixel_distances(pixels, mean);
    assert forall|i: int| 0 <= i < area implies 0 <= #[trigger] distances(i) <= 255 by {
        assert(0 <= pixels(i) < 256);
    }
    sums::lemma_sum_bounds(area, distances, 0, 255);
}

/// The match of a block costs what its pixels differ from those of the displaced block, lies
/// within the search radius and inside the frame, and no other displacement that does so costs
/// less.
pub proof fn best_match_is_the_least_difference(
    search: Search,
    edge: int,
    base_x: int,
    base_y: int,
    k: int,
    dx: int,
    dy: int,
)
    requires
        search.covers(edge),
        0 <= base_x <= search.max_horizontal_limit,
        0 <= base_y <= search.max_vertical_limit,
        search.max_horizontal_limit + edge <= i32::MAX,
        search.max_vertical_limit + edge <= i32::MAX,
        16 <= edge,
        0 <= k < 4,
        k == 0 || edge == 32,
        -search.search_radius <= dx <= search.search_radius,
        -search.search_radius <= dy <= search.search_radius,
        0 <= base_x + dx <= search.max_horizontal_limit,
        0 <= base_y + dy <= search.max_vertical_limit,
    ensures
        ({
            let best = search.best_match(base_x, base_y, k);
            let width = search.width as int;
            let x = base_x + 16 * (k % 2);
            let y = base_y + 16 * (k / 2);
            let difference = |by_x: int, by_y: int|
                sums::sum(
                    16,
                    |row: int|
                        sums::sum(
                            16,
                            |col: int|
                                sums::distance(
                                    search.curr[(y + row) * width + x + col] as int,
                                    search.prev[(y + by_y + row) * width + x + by_x + col] as int,
                                ),
                        ),
                );
            &&& best.sad == difference(best.dx as int, best.dy as int)
            &&& best.sad <= difference(dx, dy)
            &&& -search.search_radius <= best.dx <= search.search_radius
            &&& -search.search_radius <= best.dy <= search.search_radius
            &&& 0 <= base_x + best.dx <= search.max_horizontal_limit
            &&& 0 <= base_y + best.dy <= search.max_vertical_limit
            &&& best.sad == difference(dx, dy) ==> best.dy < dy || (best.dy == dy && best.dx <= dx)
        }),
{
    let window = search.window(base_x, base_y);
    let cost = match_cost(search.frames(), base_x, base_y, k);
    let best = search.best_match(base_x, base_y, k);
    let end: int = 0x8000_0000;
    best_match_is_cheapest(search, base_x, base_y, k);
    assert(visited(window, 0, end, dx, dy));
    assert(visited(window, 0, end, best.dx as int, best.dy as int));
    lemma_cost_is_difference(search, base_x, base_y, k, dx, dy);
    lemma_cost_is_difference(search, base_x, base_y, k, best.dx as int, best.dy as int);
}

proof fn lemma_cost_is_difference(
    search: Search,
    base_x: int,
    base_y: int,
    k: int,
    dx: int,
    dy: int,
)
    requires
        0 <= base_x <= i32::MAX,
        0 <= base_y <= i32::MAX,
        0 <= k < 4,
        0 <= base_x + dx <= i32::MAX,
        0 <= base_y + dy <= i32::MAX,
    ensures
        ({
            let width = search.width as int;
            let x = base_x + 16 * (k % 2);
            let y = base_y + 16 * (k / 2);
            match_cost(search.frames(), base_x, base_y, k)(dx, dy) == sums::sum(
                16,
                |row: int|
                    sums::sum(
                        16,
                        |col: int|
                            sums::distance(
                                search.curr[(y + row) * width + x + col] as int,
                                search.prev[(y + dy + row) * width + x + dx + col] as int,
                            ),
                    ),
            )
        }),
{
    let width = search.width as int;
    let x = base_x + 16 * (k % 2);
    let y = base_y + 16 * (k / 2);
    let pair = quadrant_pair(base_x, base_y, k, dx, dy);
    assert(pair.curr_x == x && pair.curr_y == y);
    assert(pair.prev_x == x + dx && pair.prev_y == y + dy);
    let rows = |row: int|
        sums::sum(
            16,
            |col: int|
                sums::distance(
                    search.curr[(y + row) * width + x + col] as int,
                    search.prev[(y + dy + row) * width + x + dx + col] as int,
                ),
        );
    let given = row_differences(search.frames(), pair);
    assert forall|row: int| 0 <= row < 16 implies #[trigger] given(row) == rows(row) by {
        let f = lanes::differences(
            search.curr,
            (pair.curr_y + row) * width + pair.curr_x,
            search.prev,
            (pair.prev_y + row) * width + pair.prev_x,
        );
        let g = |col: int|
            sums::distance(
                search.curr[(y + row) * width + x + col] as int,
                search.prev[(y + dy + row) * width + x + dx + col] as int,
            );
        sums::lemma_sum_same(16, f, g);
        assert(given(row) == sums::sum(16, f));
    }
    sums::lemma_sum_same(16, given, rows);
}

} // verus!
