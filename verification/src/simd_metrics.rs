//! Plane sampling, histograms and frame differences.

use crate::lanes;
use crate::order;
use crate::order::Ranked;
use crate::sums;
use vstd::prelude::*;
use vstd::std_specs::cmp::PartialEqSpec;

pub use crate::meanalysis::{meanalysis_xvid_like, MeAnalysis, MotionPlanCache};

verus! {

pub const GRID_HIST_X: usize = 4;

pub const GRID_HIST_Y: usize = 4;

pub const GRID_HIST_LEN: usize = 256;

/// How 16-bit planar samples are to be read.
#[derive(Clone, Copy, Debug)]
pub struct Planar16Params {
    pub bit_depth: u8,
    pub little_endian: bool,
    pub full_range: bool,
}

/// The sample that stands for place `i` of `places`, out of `extent` samples.
pub open spec fn sample_index(i: int, extent: int, places: int) -> int {
    sums::saturate(i * extent, usize::MAX as int) / places
}

fn sample_at(i: usize, extent: usize, places: usize) -> (r: usize)
    requires
        i < places,
        0 < extent,
    ensures
        r == sample_index(i as int, extent as int, places as int),
        r < extent,
{
    let product: usize = match i.checked_mul(extent) {
        Some(product) => product,
        None => usize::MAX,
    };
    proof {
        lemma_sample_in_range(i as int, extent as int, places as int);
    }
    product / places
}

/// Samples are taken from within the source.
pub proof fn lemma_sample_in_range(i: int, extent: int, places: int)
    requires
        0 <= i < places,
        0 < extent,
    ensures
        0 <= sample_index(i, extent, places) < extent,
{
    let product = sums::saturate(i * extent, usize::MAX as int);
    assert(0 <= i * extent < extent * places) by (nonlinear_arith)
        requires
            0 <= i < places,
            0 < extent,
    ;
    assert(0 <= product / places < extent) by (nonlinear_arith)
        requires
            0 <= product < extent * places,
            0 < places,
    ;
}

/// A plane of `height` rows of `width` bytes, `stride` bytes apart, lies inside `len` bytes.
pub open spec fn plane_fits(len: int, stride: int, width: int, height: int) -> bool {
    height > 0 ==> stride * (height - 1) + width <= len
}

proof fn lemma_samples_ascend(i: int, j: int, extent: int, places: int)
    requires
        0 <= i <= j < places,
        0 < extent,
    ensures
        sample_index(i, extent, places) <= sample_index(j, extent, places),
{
    assert(i * extent <= j * extent) by (nonlinear_arith)
        requires
            0 <= i <= j,
            0 < extent,
    ;
    let a = sums::saturate(i * extent, usize::MAX as int);
    let b = sums::saturate(j * extent, usize::MAX as int);
    assert(a / places <= b / places) by (nonlinear_arith)
        requires
            a <= b,
            0 < places,
    ;
}

/// The rows of a plane, without what lies between them.
pub open spec fn packed(data: Seq<u8>, stride: int, width: int, height: int) -> Seq<u8> {
    Seq::new((width * height) as nat, |i: int| data[(i / width) * stride + i % width])
}

/// A plane of `src_width` by `src_height` pixels whose rows lie `stride` bytes apart, reduced to
/// `dst_width` by `dst_height` pixels by taking the nearest pixel above and to the left.
pub open spec fn sampled(
    data: Seq<u8>,
    stride: int,
    src_width: int,
    src_height: int,
    dst_width: int,
    dst_height: int,
) -> Seq<u8> {
    Seq::new(
        (dst_width * dst_height) as nat,
        |i: int|
            data[sample_index(i / dst_width, src_height, dst_height) * stride + sample_index(
                i % dst_width,
                src_width,
                dst_width,
            )],
    )
}

/// `old`, cut off or filled up with zeros to `len` bytes.
pub open spec fn resized(old: Seq<u8>, len: int) -> Seq<u8> {
    Seq::new(
        len as nat,
        |i: int|
            if i < old.len() {
                old[i]
            } else {
                0u8
            },
    )
}

proof fn lemma_row_column(y: int, x: int, width: int)
    requires
        0 <= y,
        0 <= x < width,
    ensures
        (y * width + x) / width == y,
        (y * width + x) % width == x,
{
    assert((y * width + x) / width == y && (y * width + x) % width == x) by (nonlinear_arith)
        requires
            0 <= y,
            0 <= x < width,
    ;
}

proof fn lemma_place_in_plane(y: int, x: int, stride: int, width: int, height: int, len: int)
    requires
        0 <= y < height,
        0 <= x < width,
        0 <= stride,
        plane_fits(len, stride, width, height),
    ensures
        0 <= y * stride,
        y * stride + x < len,
{
    assert(0 <= y * stride <= stride * (height - 1)) by (nonlinear_arith)
        requires
            0 <= y <= height - 1,
            0 <= stride,
    ;
}

/// Where row `y` starts in a plane whose rows of `width` bytes follow one another.
pub open spec fn row_offset(y: int, width: int) -> int {
    sums::saturate(y * width, usize::MAX as int)
}

fn offset_of_row(y: usize, width: usize) -> (r: usize)
    ensures
        r == row_offset(y as int, width as int),
{
    match y.checked_mul(width) {
        Some(product) => product,
        None => usize::MAX,
    }
}

/// Which source pixels a reduced plane is made of.
///
/// Two plans are equal if they give planes of the same size and take the same bytes of a plane
/// whose rows follow one another; the source planes may differ in size.
#[derive(Debug)]
pub struct DownscalePlan {
    src_width: usize,
    src_height: usize,
    dst_width: usize,
    dst_height: usize,
    x_indices: Vec<usize>,
    y_indices: Vec<usize>,
}

impl DownscalePlan {
    #[verifier::type_invariant]
    spec fn holds_sample_indices(self) -> bool {
        if self.empty() {
            self.x_indices@.len() == 0 && self.y_indices@.len() == 0
        } else {
            &&& self.x_indices@.len() == self.dst_width
            &&& self.y_indices@.len() == self.dst_height
            &&& forall|x: int|
                0 <= x < self.dst_width ==> #[trigger] self.x_indices@[x] == sample_index(
                    x,
                    self.src_width as int,
                    self.dst_width as int,
                )
            &&& forall|y: int|
                0 <= y < self.dst_height ==> #[trigger] self.y_indices@[y] == sample_index(
                    y,
                    self.src_height as int,
                    self.dst_height as int,
                )
        }
    }

    pub closed spec fn src_width(self) -> usize {
        self.src_width
    }

    pub closed spec fn src_height(self) -> usize {
        self.src_height
    }

    pub closed spec fn dst_width(self) -> usize {
        self.dst_width
    }

    pub closed spec fn dst_height(self) -> usize {
        self.dst_height
    }

    /// One of the planes has no pixel.
    pub open spec fn empty(self) -> bool {
        self.src_width() == 0 || self.src_height() == 0 || self.dst_width() == 0
            || self.dst_height() == 0
    }

    /// The column of the source that each column is taken from.
    pub open spec fn columns(self) -> Seq<int> {
        if self.empty() {
            Seq::empty()
        } else {
            Seq::new(
                self.dst_width() as nat,
                |x: int| sample_index(x, self.src_width() as int, self.dst_width() as int),
            )
        }
    }

    /// Where the row of the source that each row is taken from starts, if rows follow one another.
    pub open spec fn row_offsets(self) -> Seq<int> {
        if self.empty() {
            Seq::empty()
        } else {
            Seq::new(
                self.dst_height() as nat,
                |y: int|
                    row_offset(
                        sample_index(y, self.src_height() as int, self.dst_height() as int),
                        self.src_width() as int,
                    ),
            )
        }
    }

    /// The last byte that is read from a plane with the given stride.
    pub open spec fn last_read(self, stride: int) -> int {
        let dst_width = self.dst_width() as int;
        let dst_height = self.dst_height() as int;
        sample_index(dst_height - 1, self.src_height() as int, dst_height) * stride + sample_index(
            dst_width - 1,
            self.src_width() as int,
            dst_width,
        )
    }

    /// What a buffer holds after a plane with the given stride was reduced into it.
    pub open spec fn outcome(self, data: Seq<u8>, stride: int, before: Seq<u8>) -> Seq<u8> {
        if self.dst_width() == 0 || self.dst_height() == 0 {
            Seq::empty()
        } else if self.empty() {
            resized(before, self.dst_width() * self.dst_height())
        } else {
            sampled(
                data,
                stride,
                self.src_width() as int,
                self.src_height() as int,
                self.dst_width() as int,
                self.dst_height() as int,
            )
        }
    }

    proof fn lemma_reads_in_range(self, y: int, x: int, stride: int)
        requires
            !self.empty(),
            0 <= y < self.dst_height(),
            0 <= x < self.dst_width(),
            0 <= stride,
        ensures
            ({
                let row = sample_index(y, self.src_height() as int, self.dst_height() as int);
                let col = sample_index(x, self.src_width() as int, self.dst_width() as int);
                0 <= col && 0 <= row * stride && row * stride + col <= self.last_read(stride)
            }),
    {
        let dst_width = self.dst_width() as int;
        let dst_height = self.dst_height() as int;
        let src_width = self.src_width() as int;
        let src_height = self.src_height() as int;
        let row = sample_index(y, src_height, dst_height);
        let last_row = sample_index(dst_height - 1, src_height, dst_height);
        lemma_sample_in_range(y, src_height, dst_height);
        lemma_sample_in_range(x, src_width, dst_width);
        lemma_samples_ascend(y, dst_height - 1, src_height, dst_height);
        lemma_samples_ascend(x, dst_width - 1, src_width, dst_width);
        assert(0 <= row * stride <= last_row * stride) by (nonlinear_arith)
            requires
                0 <= row <= last_row,
                0 <= stride,
        ;
    }

    pub fn new(
        src_width: usize,
        src_height: usize,
        dst_width: usize,
        dst_height: usize,
    ) -> (r: DownscalePlan)
        ensures
            r.src_width() == src_width,
            r.src_height() == src_height,
            r.dst_width() == dst_width,
            r.dst_height() == dst_height,
    {
        let mut x_indices: Vec<usize> = Vec::new();
        let mut y_indices: Vec<usize> = Vec::new();
        if src_width != 0 && src_height != 0 && dst_width != 0 && dst_height != 0 {
            let mut x: usize = 0;
            while x < dst_width
                invariant
                    x <= dst_width,
                    0 < src_width,
                    x_indices@.len() == x,
                    forall|k: int|
                        0 <= k < x ==> #[trigger] x_indices@[k] == sample_index(
                            k,
                            src_width as int,
                            dst_width as int,
                        ),
                decreases dst_width - x,
            {
                x_indices.push(sample_at(x, src_width, dst_width));
                x = x + 1;
            }
            let mut y: usize = 0;
            while y < dst_height
                invariant
                    y <= dst_height,
                    0 < src_height,
                    y_indices@.len() == y,
                    forall|k: int|
                        0 <= k < y ==> #[trigger] y_indices@[k] == sample_index(
                            k,
                            src_height as int,
                            dst_height as int,
                        ),
                decreases dst_height - y,
            {
                y_indices.push(sample_at(y, src_height, dst_height));
                y = y + 1;
            }
        }
        DownscalePlan { src_width, src_height, dst_width, dst_height, x_indices, y_indices }
    }

    pub fn dst_dimensions(&self) -> (r: (usize, usize))
        ensures
            r == (self.dst_width(), self.dst_height()),
    {
        (self.dst_width, self.dst_height)
    }

    /// Reduces a plane whose rows follow one another.
    pub fn run(&self, src: &[u8], dst: &mut Vec<u8>)
        requires
            self.dst_width() * self.dst_height() <= usize::MAX,
            !self.empty() ==> self.last_read(self.src_width() as int) < src@.len(),
        ensures
            final(dst)@ == self.outcome(src@, self.src_width() as int, old(dst)@),
    {
        self.run_packed8(src, self.src_width, dst)
    }

    /// Reduces a plane whose rows lie `stride` bytes apart.
    pub fn run_packed8(&self, data: &[u8], stride: usize, dst: &mut Vec<u8>)
        requires
            self.dst_width() * self.dst_height() <= usize::MAX,
            !self.empty() ==> self.last_read(stride as int) < data@.len(),
        ensures
            final(dst)@ == self.outcome(data@, stride as int, old(dst)@),
    {
        proof {
            use_type_invariant(self);
        }
        if self.dst_width == 0 || self.dst_height == 0 {
            dst.clear();
            return;
        }
        if self.src_width == 0 || self.src_height == 0 {
            dst.resize(self.dst_width * self.dst_height, 0);
            proof {
                let before = old(dst)@;
                let len = self.dst_width * self.dst_height;
                assert forall|i: int| 0 <= i < len implies #[trigger] dst@[i] == resized(before, len)[i] by {
                    if i < before.len() && len > before.len() {
                        assert(dst@.subrange(0, before.len() as int)[i] == dst@[i]);
                    }
                }
                assert(dst@ =~= resized(before, len));
            }
            return;
        }
        let ghost target = self.outcome(data@, stride as int, old(dst)@);
        dst.clear();
        let mut y: usize = 0;
        while y < self.dst_height
            invariant
                y <= self.dst_height,
                self.holds_sample_indices(),
                !self.empty(),
                self.last_read(stride as int) < data@.len(),
                target == self.outcome(data@, stride as int, old(dst)@),
                dst@.len() == y * self.dst_width,
                target.len() == self.dst_width * self.dst_height,
                forall|i: int| 0 <= i < dst@.len() ==> #[trigger] dst@[i] == target[i],
            decreases self.dst_height - y,
        {
            assert(self.y_indices@[y as int] == sample_index(
                y as int,
                self.src_height as int,
                self.dst_height as int,
            ));
            let row_in: usize = self.y_indices[y];
            proof {
                assert(data.len() == data@.len());
                self.lemma_reads_in_range(y as int, 0, stride as int);
            }
            let from: usize = row_in * stride;
            let mut x: usize = 0;
            while x < self.dst_width
                invariant
                    x <= self.dst_width,
                    y < self.dst_height,
                    self.holds_sample_indices(),
                    !self.empty(),
                    self.last_read(stride as int) < data@.len(),
                    target == self.outcome(data@, stride as int, old(dst)@),
                    row_in == sample_index(
                        y as int,
                        self.src_height as int,
                        self.dst_height as int,
                    ),
                    from == row_in * stride,
                    dst@.len() == y * self.dst_width + x,
                    target.len() == self.dst_width * self.dst_height,
                    forall|i: int| 0 <= i < dst@.len() ==> #[trigger] dst@[i] == target[i],
                decreases self.dst_width - x,
            {
                assert(self.x_indices@[x as int] == sample_index(
                    x as int,
                    self.src_width as int,
                    self.dst_width as int,
                ));
                let col: usize = self.x_indices[x];
                proof {
                    assert(data.len() == data@.len());
                    self.lemma_reads_in_range(y as int, x as int, stride as int);
                    lemma_row_column(y as int, x as int, self.dst_width as int);
                    assert(y * self.dst_width + x < self.dst_width * self.dst_height)
                        by (nonlinear_arith)
                        requires
                            y < self.dst_height,
                            x < self.dst_width,
                    ;
                }
                dst.push(data[from + col]);
                x = x + 1;
            }
            proof {
                assert((y + 1) * self.dst_width == y * self.dst_width + self.dst_width)
                    by (nonlinear_arith);
            }
            y = y + 1;
        }
        proof {
            assert(dst@.len() == target.len()) by (nonlinear_arith)
                requires
                    dst@.len() == y * self.dst_width,
                    y == self.dst_height,
                    target.len() == self.dst_width * self.dst_height,
            ;
            assert(dst@ =~= target);
        }
    }
}

impl PartialEq for DownscalePlan {
    fn eq(&self, other: &DownscalePlan) -> (r: bool) {
        proof {
            use_type_invariant(self);
            use_type_invariant(other);
        }
        if self.dst_width != other.dst_width || self.dst_height != other.dst_height
            || self.x_indices.len() != other.x_indices.len() || self.y_indices.len()
            != other.y_indices.len() {
            assert(self.columns().len() == self.x_indices@.len());
            assert(other.columns().len() == other.x_indices@.len());
            assert(self.row_offsets().len() == self.y_indices@.len());
            assert(other.row_offsets().len() == other.y_indices@.len());
            return false;
        }
        let mut x: usize = 0;
        while x < self.x_indices.len()
            invariant
                self.holds_sample_indices(),
                other.holds_sample_indices(),
                self.dst_width == other.dst_width,
                self.x_indices@.len() == other.x_indices@.len(),
                x <= self.x_indices@.len(),
                forall|k: int| 0 <= k < x ==> #[trigger] self.columns()[k] == other.columns()[k],
            decreases self.x_indices@.len() - x,
        {
            assert(self.columns()[x as int] == self.x_indices@[x as int]);
            assert(other.columns()[x as int] == other.x_indices@[x as int]);
            if self.x_indices[x] != other.x_indices[x] {
                return false;
            }
            x = x + 1;
        }
        assert(self.columns() =~= other.columns());
        let mut y: usize = 0;
        while y < self.y_indices.len()
            invariant
                self.holds_sample_indices(),
                other.holds_sample_indices(),
                self.dst_height == other.dst_height,
                self.y_indices@.len() == other.y_indices@.len(),
                y <= self.y_indices@.len(),
                forall|k: int|
                    0 <= k < y ==> #[trigger] self.row_offsets()[k] == other.row_offsets()[k],
            decreases self.y_indices@.len() - y,
        {
            let mine: usize = offset_of_row(self.y_indices[y], self.src_width);
            let theirs: usize = offset_of_row(other.y_indices[y], other.src_width);
            assert(self.row_offsets()[y as int] == mine);
            assert(other.row_offsets()[y as int] == theirs);
            if mine != theirs {
                return false;
            }
            y = y + 1;
        }
        assert(self.row_offsets() =~= other.row_offsets());
        true
    }
}

impl vstd::std_specs::cmp::PartialEqSpecImpl for DownscalePlan {
    open spec fn obeys_eq_spec() -> bool {
        true
    }

    open spec fn eq_spec(&self, other: &DownscalePlan) -> bool {
        &&& self.dst_width() == other.dst_width()
        &&& self.dst_height() == other.dst_height()
        &&& self.columns() == other.columns()
        &&& self.row_offsets() == other.row_offsets()
    }
}

impl Eq for DownscalePlan {

}

/// Plans for planes of the same sizes are equal.
pub proof fn sizes_determine_plan(a: DownscalePlan, b: DownscalePlan)
    requires
        a.src_width() == b.src_width(),
        a.src_height() == b.src_height(),
        a.dst_width() == b.dst_width(),
        a.dst_height() == b.dst_height(),
    ensures
        a.eq_spec(&b),
        forall|data: Seq<u8>, stride: int, before: Seq<u8>| #[trigger]
            a.outcome(data, stride, before) == b.outcome(data, stride, before),
{
    assert(a.columns() =~= b.columns());
    assert(a.row_offsets() =~= b.row_offsets());
}

impl Clone for DownscalePlan {
    fn clone(&self) -> (r: DownscalePlan)
        ensures
            r.src_width() == self.src_width(),
            r.src_height() == self.src_height(),
            r.dst_width() == self.dst_width(),
            r.dst_height() == self.dst_height(),
    {
        proof {
            use_type_invariant(self);
        }
        let x_indices = self.x_indices.clone();
        let y_indices = self.y_indices.clone();
        assert(x_indices@ =~= self.x_indices@);
        assert(y_indices@ =~= self.y_indices@);
        DownscalePlan {
            src_width: self.src_width,
            src_height: self.src_height,
            dst_width: self.dst_width,
            dst_height: self.dst_height,
            x_indices,
            y_indices,
        }
    }
}

/// Reduces a plane to `dst_width` by `dst_height` pixels.
pub fn downscale_gray8_nearest(
    src: &[u8],
    src_width: usize,
    src_height: usize,
    dst_width: usize,
    dst_height: usize,
    dst: &mut Vec<u8>,
)
    requires
        dst_width * dst_height <= usize::MAX,
        src_width > 0 && src_height > 0 && dst_width > 0 && dst_height > 0 ==> sample_index(
            dst_height - 1,
            src_height as int,
            dst_height as int,
        ) * src_width + sample_index(dst_width - 1, src_width as int, dst_width as int)
            < src@.len(),
    ensures
        final(dst)@ == if dst_width == 0 || dst_height == 0 {
            Seq::<u8>::empty()
        } else if src_width == 0 || src_height == 0 {
            resized(old(dst)@, dst_width * dst_height)
        } else {
            sampled(
                src@,
                src_width as int,
                src_width as int,
                src_height as int,
                dst_width as int,
                dst_height as int,
            )
        },
{
    let plan = DownscalePlan::new(src_width, src_height, dst_width, dst_height);
    plan.run(src, dst);
}

/// Copies the rows of a plane next to one another.
pub fn extract_packed8(data: &[u8], stride: usize, width: usize, height: usize, dst: &mut Vec<u8>)
    requires
        plane_fits(data@.len() as int, stride as int, width as int, height as int),
    ensures
        final(dst)@ == packed(data@, stride as int, width as int, height as int),
{
    let ghost target = packed(data@, stride as int, width as int, height as int);
    dst.clear();
    let mut y: usize = 0;
    proof {
        assert(width * height >= 0) by (nonlinear_arith);
    }
    while y < height
        invariant
            y <= height,
            plane_fits(data@.len() as int, stride as int, width as int, height as int),
            target == packed(data@, stride as int, width as int, height as int),
            dst@.len() == y * width,
            target.len() == width * height,
            forall|i: int| 0 <= i < dst@.len() ==> #[trigger] dst@[i] == target[i],
        decreases height - y,
    {
        let mut x: usize = 0;
        while x < width
            invariant
                x <= width,
                y < height,
                plane_fits(data@.len() as int, stride as int, width as int, height as int),
                target == packed(data@, stride as int, width as int, height as int),
                dst@.len() == y * width + x,
                target.len() == width * height,
                forall|i: int| 0 <= i < dst@.len() ==> #[trigger] dst@[i] == target[i],
            decreases width - x,
        {
            proof {
                assert(data.len() == data@.len());
                lemma_place_in_plane(
                    y as int,
                    x as int,
                    stride as int,
                    width as int,
                    height as int,
                    data@.len() as int,
                );
                lemma_row_column(y as int, x as int, width as int);
                assert(y * width + x < width * height) by (nonlinear_arith)
                    requires
                        y < height,
                        x < width,
                ;
            }
            dst.push(data[y * stride + x]);
            x = x + 1;
        }
        proof {
            assert((y + 1) * width == y * width + width) by (nonlinear_arith);
        }
        y = y + 1;
    }
    proof {
        assert(dst@.len() == target.len()) by (nonlinear_arith)
            requires
                dst@.len() == y * width,
                y == height,
                target.len() == width * height,
        ;
        assert(dst@ =~= target);
    }
}

/// Reducing a plane with a stride gives what reducing its packed copy gives.
pub proof fn sampling_ignores_stride(
    data: Seq<u8>,
    stride: int,
    src_width: int,
    src_height: int,
    dst_width: int,
    dst_height: int,
)
    requires
        0 < src_width,
        0 < src_height,
        0 < dst_width,
        0 < dst_height,
    ensures
        sampled(data, stride, src_width, src_height, dst_width, dst_height) == sampled(
            packed(data, stride, src_width, src_height),
            src_width,
            src_width,
            src_height,
            dst_width,
            dst_height,
        ),
{
    let copy = packed(data, stride, src_width, src_height);
    let left = sampled(data, stride, src_width, src_height, dst_width, dst_height);
    let right = sampled(copy, src_width, src_width, src_height, dst_width, dst_height);
    assert forall|i: int| 0 <= i < left.len() implies left[i] == #[trigger] right[i] by {
        assert(0 <= i / dst_width < dst_height) by (nonlinear_arith)
            requires
                0 <= i < dst_width * dst_height,
                0 < dst_width,
        ;
        let y = sample_index(i / dst_width, src_height, dst_height);
        let x = sample_index(i % dst_width, src_width, dst_width);
        lemma_sample_in_range(i / dst_width, src_height, dst_height);
        lemma_sample_in_range(i % dst_width, src_width, dst_width);
        lemma_row_column(y, x, src_width);
        assert(0 <= y * src_width + x < src_width * src_height) by (nonlinear_arith)
            requires
                0 <= y < src_height,
                0 <= x < src_width,
        ;
    }
    assert(left =~= right);
}

/// The brightness class of each pixel: sixteen classes of sixteen levels.
pub open spec fn brightness_classes(frame: Seq<u8>) -> spec_fn(int) -> int {
    |i: int| frame[i] as int / 16
}

/// The slot of each pixel in a grid histogram: the cell of a 4 by 4 grid, then the brightness
/// class.
pub open spec fn grid_slots(frame: Seq<u8>, width: int, height: int) -> spec_fn(int) -> int {
    |i: int|
        ((i / width) * 4 / height) * 64 + ((i % width) * 4 / width) * 16 + frame[i] as int / 16
}

/// No value is taken so often that a counter overflows.
pub open spec fn counters_hold(places: int, f: spec_fn(int) -> int) -> bool {
    forall|v: int| #[trigger] sums::value_counts(places, f)(v) <= u32::MAX
}

/// Each counter holds how often its value is taken.
pub open spec fn counted(counters: Seq<u32>, places: int, f: spec_fn(int) -> int) -> bool {
    forall|v: int|
        0 <= v < counters.len() ==> #[trigger] counters[v] == sums::value_counts(places, f)(v)
}

/// Every counter is zero.
pub open spec fn untouched(counters: Seq<u32>) -> bool {
    forall|v: int| 0 <= v < counters.len() ==> #[trigger] counters[v] == 0
}

/// Counters hold whatever happens among fewer than 2^32 places.
pub proof fn few_places_can_be_counted(places: int, f: spec_fn(int) -> int)
    requires
        0 <= places <= u32::MAX,
    ensures
        counters_hold(places, f),
{
    assert forall|v: int| #[trigger] sums::value_counts(places, f)(v) <= u32::MAX by {
        sums::lemma_count_bounds(places, sums::places_of(f, v));
    }
}

/// The sum of the absolute differences of two frames, or 0 if they differ in length.
pub open spec fn frame_difference(prev: Seq<u8>, curr: Seq<u8>) -> int {
    if prev.len() != curr.len() {
        0
    } else {
        sums::sum(prev.len() as int, lanes::differences(prev, 0, curr, 0))
    }
}

/// What is added up over a frame: its difference from the frame before it, and its histograms.
#[derive(Clone, Copy, Debug, PartialEq, Eq)]
pub struct FrameMetrics {
    pub sad: u64,
    pub hist: [u32; 16],
    pub grid_hist: [u32; GRID_HIST_LEN],
}

/// Which grid cell each row and each column of a frame belongs to.
#[derive(Debug, PartialEq, Eq)]
pub struct GridHistogramPlan {
    width: usize,
    row_cell_bases: Vec<usize>,
    x_cell_offsets: Vec<usize>,
}

/// The `len` bytes from `from` on are compared.
fn sad_span(prev: &[u8], curr: &[u8], from: usize, len: usize) -> (r: u64)
    requires
        from + len <= prev@.len(),
        from + len <= curr@.len(),
        sums::sum(len as int, lanes::differences(prev@, from as int, curr@, from as int))
            <= u64::MAX,
    ensures
        r == sums::sum(len as int, lanes::differences(prev@, from as int, curr@, from as int)),
{
    let ghost f = lanes::differences(prev@, from as int, curr@, from as int);
    let mut total: u64 = 0;
    let mut i: usize = 0;
    proof {
        assert(prev.len() == prev@.len());
    }
    while len - i >= 16
        invariant
            i <= len,
            from + len <= prev@.len(),
            from + len <= curr@.len(),
            from + len <= usize::MAX,
            f == lanes::differences(prev@, from as int, curr@, from as int),
            sums::sum(len as int, f) <= u64::MAX,
            total == sums::sum(i as int, f),
        decreases len - i,
    {
        let block: u64 = lanes::sad_16(prev, from + i, curr, from + i);
        proof {
            sums::lemma_sum_split(
                i as int,
                16,
                f,
                lanes::differences(prev@, from + i, curr@, from + i),
            );
            sums::lemma_sum_monotone(i + 16, len as int, f);
        }
        total = total + block;
        i = i + 16;
    }
    while i < len
        invariant
            i <= len,
            from + len <= prev@.len(),
            from + len <= curr@.len(),
            from + len <= usize::MAX,
            f == lanes::differences(prev@, from as int, curr@, from as int),
            sums::sum(len as int, f) <= u64::MAX,
            total == sums::sum(i as int, f),
        decreases len - i,
    {
        proof {
            sums::lemma_sum_monotone(i + 1, len as int, f);
            assert(f(i as int) == sums::distance(
                prev@[from + i] as int,
                curr@[from + i] as int,
            ));
        }
        let a: u8 = prev[from + i];
        let b: u8 = curr[from + i];
        let difference: u8 = if a >= b {
            a - b
        } else {
            b - a
        };
        total = total + difference as u64;
        i = i + 1;
    }
    total
}

/// The sum of the absolute differences of two frames of the same length.
pub fn sad_u8(prev: &[u8], curr: &[u8]) -> (r: u64)
    requires
        frame_difference(prev@, curr@) <= u64::MAX,
    ensures
        r == frame_difference(prev@, curr@),
{
    if prev.len() != curr.len() {
        return 0;
    }
    sad_span(prev, curr, 0, prev.len())
}

/// The number of pixels in each brightness class.
pub fn histogram_16(frame: &[u8]) -> (r: [u32; 16])
    requires
        counters_hold(frame@.len() as int, brightness_classes(frame@)),
    ensures
        counted(r@, frame@.len() as int, brightness_classes(frame@)),
{
    let mut hist: [u32; 16] = [0u32; 16];
    count_classes(frame, 0, frame.len(), frame.len(), &mut hist);
    hist
}

/// Counting one place more raises the counter of its value by one.
proof fn lemma_count_one_more(
    counters: Seq<u32>,
    at: int,
    places: int,
    f: spec_fn(int) -> int,
    value: int,
)
    requires
        0 <= at < places,
        0 <= value < counters.len(),
        f(at) == value,
        counters_hold(places, f),
        counted(counters, at, f),
    ensures
        counters[value] < u32::MAX,
        counted(counters.update(value, (counters[value] + 1) as u32), at + 1, f),
{
    let p = sums::places_of(f, value);
    assert(sums::value_counts(places, f)(value) <= u32::MAX);
    sums::lemma_count_monotone(at + 1, places, p);
    assert(sums::count(at + 1, p) == sums::count(at, p) + sums::indicator(p)(at));
    assert(counters[value] == sums::value_counts(at, f)(value));
    let after = counters.update(value, (counters[value] + 1) as u32);
    assert forall|v: int| 0 <= v < after.len() implies #[trigger] after[v]
        == sums::value_counts(at + 1, f)(v) by {
        let q = sums::places_of(f, v);
        assert(sums::count(at + 1, q) == sums::count(at, q) + sums::indicator(q)(at));
        assert(counters[v] == sums::value_counts(at, f)(v));
    }
}

/// A quarter of `extent`, of which place `i` is a part.
proof fn lemma_quarter(i: int, extent: int)
    requires
        0 <= i < extent,
    ensures
        0 <= i * 4 / extent < 4,
{
    assert(0 <= i * 4 / extent < 4) by (nonlinear_arith)
        requires
            0 <= i < extent,
    ;
}

impl GridHistogramPlan {
    #[verifier::type_invariant]
    spec fn holds_cells(self) -> bool {
        self.row_cell_bases@.len() > 0 ==> {
            &&& 0 < self.width
            &&& self.x_cell_offsets@.len() == self.width
            &&& forall|x: int|
                0 <= x < self.width ==> #[trigger] self.x_cell_offsets@[x] == (x * 4 / (
                self.width as int)) * 16
            &&& forall|y: int|
                0 <= y < self.row_cell_bases@.len() ==> #[trigger] self.row_cell_bases@[y] == (y
                    * 4 / (self.row_cell_bases@.len() as int)) * 64
        }
    }

    pub closed spec fn width(self) -> int {
        self.width as int
    }

    pub closed spec fn height(self) -> int {
        self.row_cell_bases@.len() as int
    }

    /// A frame of `len` pixels has all the pixels that the plan looks at.
    pub open spec fn covered_by(self, len: int) -> bool {
        self.width() > 0 && self.height() > 0 && self.width() * self.height() <= len
    }

    pub fn new(width: usize, height: usize) -> (r: GridHistogramPlan)
        requires
            width > 0 && height > 0 ==> 4 * (width - 1) <= usize::MAX && 4 * (height - 1)
                <= usize::MAX,
        ensures
            r.width() == width,
            r.height() == if width == 0 {
                0
            } else {
                height as int
            },
    {
        let mut x_cell_offsets: Vec<usize> = Vec::new();
        let mut row_cell_bases: Vec<usize> = Vec::new();
        if width != 0 && height != 0 {
            let mut x: usize = 0;
            while x < width
                invariant
                    x <= width,
                    4 * (width - 1) <= usize::MAX,
                    x_cell_offsets@.len() == x,
                    forall|k: int|
                        0 <= k < x ==> #[trigger] x_cell_offsets@[k] == (k * 4 / (width as int))
                            * 16,
                decreases width - x,
            {
                proof {
                    lemma_quarter(x as int, width as int);
                }
                x_cell_offsets.push((x * GRID_HIST_X) / width * 16);
                x = x + 1;
            }
            let mut y: usize = 0;
            while y < height
                invariant
                    y <= height,
                    4 * (height - 1) <= usize::MAX,
                    row_cell_bases@.len() == y,
                    forall|k: int|
                        0 <= k < y ==> #[trigger] row_cell_bases@[k] == (k * 4 / (height as int))
                            * 64,
                decreases height - y,
            {
                proof {
                    lemma_quarter(y as int, height as int);
                }
                row_cell_bases.push((y * GRID_HIST_Y) / height * (GRID_HIST_X * 16));
                y = y + 1;
            }
        }
        GridHistogramPlan { width, row_cell_bases, x_cell_offsets }
    }

    pub fn dimensions(&self) -> (r: (usize, usize))
        ensures
            r.0 == self.width(),
            r.1 == self.height(),
            r.0 == 0 ==> r.1 == 0,
    {
        proof {
            use_type_invariant(self);
        }
        (self.width, self.row_cell_bases.len())
    }

    /// The number of pixels that the plan looks at, or `None` if a frame of `len` pixels lacks
    /// some.
    fn pixels_within(&self, len: usize) -> (r: Option<usize>)
        ensures
            match r {
                Some(pixels) => self.covered_by(len as int) && pixels == self.width()
                    * self.height(),
                None => !self.covered_by(len as int),
            },
    {
        let height: usize = self.row_cell_bases.len();
        if self.width == 0 || height == 0 {
            return None;
        }
        match self.width.checked_mul(height) {
            Some(pixels) if pixels <= len => Some(pixels),
            _ => None,
        }
    }

    /// The number of pixels in each brightness class of each cell.
    pub fn run(&self, frame: &[u8]) -> (r: [u32; GRID_HIST_LEN])
        requires
            self.covered_by(frame@.len() as int) ==> counters_hold(
                self.width() * self.height(),
                grid_slots(frame@, self.width(), self.height()),
            ),
        ensures
            if self.covered_by(frame@.len() as int) {
                counted(
                    r@,
                    self.width() * self.height(),
                    grid_slots(frame@, self.width(), self.height()),
                )
            } else {
                untouched(r@)
            },
    {
        let mut hist: [u32; 256] = [0u32; 256];
        match self.pixels_within(frame.len()) {
            None => {},
            Some(pixels) => {
                let height: usize = self.row_cell_bases.len();
                let mut y: usize = 0;
                while y < height
                    invariant
                        y <= height,
                        height == self.height(),
                        pixels == self.width() * self.height(),
                        self.covered_by(frame@.len() as int),
                        counters_hold(
                            pixels as int,
                            grid_slots(frame@, self.width(), self.height()),
                        ),
                        counted(
                            hist@,
                            y * self.width(),
                            grid_slots(frame@, self.width(), self.height()),
                        ),
                    decreases height - y,
                {
                    self.count_row(frame, y, &mut hist);
                    y = y + 1;
                }
                proof {
                    assert(y * self.width() == pixels) by (nonlinear_arith)
                        requires
                            y == self.height(),
                            pixels == self.width() * self.height(),
                    ;
                }
            },
        }
        hist
    }

    /// Counts the pixels of row `y`.
    fn count_row(&self, frame: &[u8], y: usize, hist: &mut [u32; GRID_HIST_LEN])
        requires
            y < self.height(),
            self.covered_by(frame@.len() as int),
            counters_hold(
                self.width() * self.height(),
                grid_slots(frame@, self.width(), self.height()),
            ),
            counted(
                old(hist)@,
                y * self.width(),
                grid_slots(frame@, self.width(), self.height()),
            ),
        ensures
            counted(
                final(hist)@,
                (y + 1) * self.width(),
                grid_slots(frame@, self.width(), self.height()),
            ),
    {
        proof {
            use_type_invariant(self);
            assert(frame.len() == frame@.len());
            assert(y * self.width() + self.width() <= self.width() * self.height())
                by (nonlinear_arith)
                requires
                    y + 1 <= self.height(),
                    0 <= self.width(),
            ;
            assert(0 <= y * self.width()) by (nonlinear_arith)
                requires
                    0 <= y,
                    0 <= self.width(),
            ;
        }
        let ghost slots = grid_slots(frame@, self.width(), self.height());
        let row: usize = y * self.width;
        let row_cell_base: usize = self.row_cell_bases[y];
        let mut x: usize = 0;
        while x < self.width
            invariant
                x <= self.width,
                self.holds_cells(),
                y < self.height(),
                row == y * self.width,
                row + self.width <= self.width() * self.height(),
                self.width() * self.height() <= frame@.len() <= usize::MAX,
                row_cell_base == self.row_cell_bases@[y as int],
                slots == grid_slots(frame@, self.width(), self.height()),
                counters_hold(self.width() * self.height(), slots),
                counted(hist@, row + x, slots),
            decreases self.width - x,
        {
            let class: usize = (frame[row + x] / 16) as usize;
            proof {
                lemma_row_column(y as int, x as int, self.width());
                lemma_quarter(x as int, self.width());
                lemma_quarter(y as int, self.height());
                assert(self.x_cell_offsets@[x as int] == (x * 4 / self.width()) * 16);
                assert(self.row_cell_bases@[y as int] == (y * 4 / self.height()) * 64);
                assert(slots(row + x) == row_cell_base + self.x_cell_offsets@[x as int] + class);
                lemma_count_one_more(
                    hist@,
                    row + x,
                    self.width() * self.height(),
                    slots,
                    row_cell_base + self.x_cell_offsets@[x as int] + class,
                );
            }
            let slot: usize = row_cell_base + self.x_cell_offsets[x] + class;
            hist[slot] = hist[slot] + 1;
            x = x + 1;
        }
        proof {
            assert((y + 1) * self.width() == y * self.width() + self.width()) by (nonlinear_arith);
        }
    }

    /// The difference that [`FrameMetrics`] states: 0 without a frame before, or with a short one.
    pub open spec fn difference_from(self, prev: Option<Seq<u8>>, curr: Seq<u8>) -> int {
        match prev {
            Some(frame) if self.covered_by(frame.len() as int) => sums::sum(
                self.width() * self.height(),
                lanes::differences(frame, 0, curr, 0),
            ),
            _ => 0,
        }
    }

    /// `metrics` are what the plan adds up over `curr`, after `prev`.
    pub open spec fn measures(
        self,
        metrics: FrameMetrics,
        prev: Option<Seq<u8>>,
        curr: Seq<u8>,
    ) -> bool {
        let pixels = self.width() * self.height();
        if self.covered_by(curr.len() as int) {
            &&& metrics.sad == self.difference_from(prev, curr)
            &&& counted(metrics.hist@, pixels, brightness_classes(curr))
            &&& counted(metrics.grid_hist@, pixels, grid_slots(curr, self.width(), self.height()))
        } else {
            metrics.sad == 0 && untouched(metrics.hist@) && untouched(metrics.grid_hist@)
        }
    }

    /// Adds up the difference and both histograms of a frame, row by row.
    pub fn accumulate_frame_metrics(&self, prev: Option<&[u8]>, curr: &[u8]) -> (r: FrameMetrics)
        requires
            self.covered_by(curr@.len() as int) ==> counters_hold(
                self.width() * self.height(),
                brightness_classes(curr@),
            ),
        ensures
            self.measures(r, plane_view(prev), curr@),
    {
        let mut hist: [u32; 16] = [0u32; 16];
        let mut grid_hist: [u32; 256] = [0u32; 256];
        let mut sad: u64 = 0;
        let pixels: usize = match self.pixels_within(curr.len()) {
            None => {
                return FrameMetrics { sad, hist, grid_hist };
            },
            Some(pixels) => pixels,
        };
        let before: Option<&[u8]> = match prev {
            Some(frame) => if frame.len() >= pixels {
                Some(frame)
            } else {
                None
            },
            None => None,
        };
        let ghost classes = brightness_classes(curr@);
        let ghost slots = grid_slots(curr@, self.width(), self.height());
        let ghost differences = match before {
            Some(frame) => lanes::differences(frame@, 0, curr@, 0),
            None => |i: int| 0int,
        };
        proof {
            lemma_class_counters_are_enough(curr@, self.width(), self.height());
            lemma_counters_bound_places(pixels as int, curr@);
            sums::lemma_sum_bounds(pixels as int, differences, 0, 255);
        }
        let height: usize = self.row_cell_bases.len();
        let mut y: usize = 0;
        while y < height
            invariant
                y <= height,
                height == self.height(),
                pixels == self.width() * self.height(),
                self.covered_by(curr@.len() as int),
                match before {
                    Some(frame) => pixels <= frame@.len() && differences == lanes::differences(
                        frame@,
                        0,
                        curr@,
                        0,
                    ),
                    None => differences == (|i: int| 0int),
                },
                sums::sum(pixels as int, differences) <= u64::MAX,
                classes == brightness_classes(curr@),
                slots == grid_slots(curr@, self.width(), self.height()),
                counters_hold(pixels as int, classes),
                counters_hold(pixels as int, slots),
                sad == sums::sum(y * self.width(), differences),
                counted(hist@, y * self.width(), classes),
                counted(grid_hist@, y * self.width(), slots),
            decreases height - y,
        {
            proof {
                use_type_invariant(self);
                assert(curr.len() == curr@.len());
                assert((y + 1) * self.width() == y * self.width() + self.width())
                    by (nonlinear_arith);
                assert((y + 1) * self.width() <= self.width() * self.height()) by (nonlinear_arith)
                    requires
                        y + 1 <= self.height(),
                        0 <= self.width(),
                ;
                assert(0 <= y * self.width()) by (nonlinear_arith)
                    requires
                        0 <= y,
                        0 <= self.width(),
                ;
                sums::lemma_sum_monotone((y + 1) * self.width(), pixels as int, differences);
            }
            let row: usize = y * self.width;
            match before {
                Some(frame) => {
                    proof {
                        let here = lanes::differences(frame@, row as int, curr@, row as int);
                        sums::lemma_sum_split(row as int, self.width(), differences, here);
                        sums::lemma_sum_monotone(row as int, pixels as int, differences);
                    }
                    sad = sad + sad_span(frame, curr, row, self.width);
                },
                None => {
                    proof {
                        sums::lemma_sum_bounds((y + 1) * self.width(), differences, 0, 0);
                        sums::lemma_sum_bounds(y * self.width(), differences, 0, 0);
                    }
                },
            }
            count_classes(curr, row, self.width, pixels, &mut hist);
            self.count_row(curr, y, &mut grid_hist);
            y = y + 1;
        }
        proof {
            assert(y * self.width() == pixels) by (nonlinear_arith)
                requires
                    y == self.height(),
                    pixels == self.width() * self.height(),
            ;
            if before is None {
                sums::lemma_sum_bounds(pixels as int, differences, 0, 0);
            }
        }
        FrameMetrics { sad, hist, grid_hist }
    }
}

impl Clone for GridHistogramPlan {
    fn clone(&self) -> (r: GridHistogramPlan)
        ensures
            r.width() == self.width(),
            r.height() == self.height(),
    {
        proof {
            use_type_invariant(self);
        }
        let row_cell_bases = self.row_cell_bases.clone();
        let x_cell_offsets = self.x_cell_offsets.clone();
        assert(row_cell_bases@ =~= self.row_cell_bases@);
        assert(x_cell_offsets@ =~= self.x_cell_offsets@);
        GridHistogramPlan { width: self.width, row_cell_bases, x_cell_offsets }
    }
}

/// The pixels behind a borrowed plane.
pub open spec fn plane_view(plane: Option<&[u8]>) -> Option<Seq<u8>> {
    match plane {
        Some(pixels) => Some(pixels@),
        None => None,
    }
}

/// Counts the pixels from `from` to `from + len`, out of `places`.
fn count_classes(frame: &[u8], from: usize, len: usize, places: usize, hist: &mut [u32; 16])
    requires
        from + len <= places <= frame@.len(),
        counters_hold(places as int, brightness_classes(frame@)),
        counted(old(hist)@, from as int, brightness_classes(frame@)),
    ensures
        counted(final(hist)@, from + len, brightness_classes(frame@)),
{
    let ghost classes = brightness_classes(frame@);
    let mut i: usize = from;
    while i < from + len
        invariant
            from <= i <= from + len <= places <= frame@.len(),
            classes == brightness_classes(frame@),
            counters_hold(places as int, classes),
            counted(hist@, i as int, classes),
        decreases from + len - i,
    {
        let class: usize = (frame[i] / 16) as usize;
        proof {
            lemma_count_one_more(hist@, i as int, places as int, classes, class as int);
        }
        hist[class] = hist[class] + 1;
        i = i + 1;
    }
}

/// Counters that hold the brightness classes of a frame hold those of its cells.
proof fn lemma_class_counters_are_enough(frame: Seq<u8>, width: int, height: int)
    requires
        0 < width,
        0 < height,
        width * height <= frame.len(),
        counters_hold(width * height, brightness_classes(frame)),
    ensures
        counters_hold(width * height, grid_slots(frame, width, height)),
{
    let pixels = width * height;
    let classes = brightness_classes(frame);
    let slots = grid_slots(frame, width, height);
    assert forall|v: int| #[trigger] sums::value_counts(pixels, slots)(v) <= u32::MAX by {
        let p = sums::places_of(slots, v);
        let q = sums::places_of(classes, v % 16);
        assert forall|i: int| 0 <= i < pixels && #[trigger] p(i) implies q(i) by {
            let row = (i / width) * 4 / height;
            let column = (i % width) * 4 / width;
            assert(v == row * 64 + column * 16 + frame[i] as int / 16);
            assert(v % 16 == frame[i] as int / 16);
        }
        sums::lemma_count_implies(pixels, p, q);
        assert(sums::value_counts(pixels, classes)(v % 16) <= u32::MAX);
    }
}

/// Sixteen counters count no more than sixteen times what one of them can hold.
proof fn lemma_counters_bound_places(places: int, frame: Seq<u8>)
    requires
        0 <= places <= frame.len(),
        counters_hold(places, brightness_classes(frame)),
    ensures
        places <= 16 * u32::MAX,
{
    let classes = brightness_classes(frame);
    let counts = sums::value_counts(places, classes);
    sums::lemma_counts_add_up(places, classes, 16);
    assert forall|v: int| 0 <= v < 16 implies 0 <= #[trigger] counts(v) <= u32::MAX by {
        sums::lemma_count_bounds(places, sums::places_of(classes, v));
    }
    sums::lemma_sum_bounds(16, counts, 0, u32::MAX as int);
}

pub fn frame_pair_metrics(
    prev: Option<&[u8]>,
    curr: &[u8],
    grid_plan: &GridHistogramPlan,
) -> (r: FrameMetrics)
    requires
        grid_plan.covered_by(curr@.len() as int) ==> counters_hold(
            grid_plan.width() * grid_plan.height(),
            brightness_classes(curr@),
        ),
    ensures
        grid_plan.measures(r, plane_view(prev), curr@),
{
    grid_plan.accumulate_frame_metrics(prev, curr)
}

/// The grid histogram of a frame of the given size.
pub fn grid_histogram_16(frame: &[u8], width: usize, height: usize) -> (r: [u32; GRID_HIST_LEN])
    requires
        width > 0 && height > 0 ==> 4 * (width - 1) <= usize::MAX && 4 * (height - 1)
            <= usize::MAX,
        width > 0 && height > 0 && width * height <= frame@.len() ==> counters_hold(
            width * height,
            grid_slots(frame@, width as int, height as int),
        ),
    ensures
        if width > 0 && height > 0 && width * height <= frame@.len() {
            counted(r@, width * height, grid_slots(frame@, width as int, height as int))
        } else {
            untouched(r@)
        },
{
    let plan = GridHistogramPlan::new(width, height);
    plan.run(frame)
}

/// How unlike two histograms are: of `total` pixels, `overlap` are counted alike.
///
/// The distance it stands for is `1 - overlap / total`, held between 0 and 1, and 0 if `total`
/// is 0.
#[derive(Clone, Copy, Debug, PartialEq, Eq, Structural)]
pub struct Dissimilarity {
    pub overlap: u64,
    pub total: u64,
}

impl Dissimilarity {
    /// What the overlap is divided by; a total of nothing counts as one.
    pub open spec fn divisor(self) -> int {
        sums::maximum(1, self.total as int)
    }

    /// The two histograms are alike in all they count.
    pub open spec fn vanishes(self) -> bool {
        self.total == 0 || self.overlap >= self.total
    }
}

/// A smaller distance comes first: `1 - a / b <= 1 - c / d` where `c * b <= a * d`.
impl Ranked for Dissimilarity {
    open spec fn no_later(self, other: Self) -> bool {
        other.overlap * self.divisor() <= self.overlap * other.divisor()
    }

    proof fn no_later_is_total(a: Self, b: Self) {
    }

    proof fn no_later_is_transitive(a: Self, b: Self, c: Self) {
        let (x, y, z) = (a.overlap as int, b.overlap as int, c.overlap as int);
        let (p, q, r) = (a.divisor(), b.divisor(), c.divisor());
        assert(z * p <= x * r) by (nonlinear_arith)
            requires
                y * p <= x * q,
                z * q <= y * r,
                0 <= x,
                0 <= y,
                0 <= z,
                1 <= p,
                1 <= q,
                1 <= r,
        {
            assert(z * q * p <= y * r * p);
            assert(y * p * r <= x * q * r);
            assert(y * r * p == y * p * r);
            assert((z * p) * q <= (x * r) * q);
        }
    }

    fn is_no_later(self, other: Self) -> (r: bool) {
        let own: u128 = if self.total == 0 {
            1
        } else {
            self.total as u128
        };
        let others: u128 = if other.total == 0 {
            1
        } else {
            other.total as u128
        };
        proof {
            let (a, b) = (other.overlap as int, self.overlap as int);
            let (c, d) = (own as int, others as int);
            assert(0 <= a * c <= u64::MAX * u64::MAX && 0 <= b * d <= u64::MAX * u64::MAX)
                by (nonlinear_arith)
                requires
                    0 <= a <= u64::MAX,
                    0 <= b <= u64::MAX,
                    0 <= c <= u64::MAX,
                    0 <= d <= u64::MAX,
            ;
        }
        other.overlap as u128 * own <= self.overlap as u128 * others
    }
}

/// How unlike two histograms of `total_pixels` pixels are; of no pixels, nothing is said.
pub open spec fn dissimilarity(
    prev: Seq<u32>,
    curr: Seq<u32>,
    total_pixels: int,
) -> Dissimilarity {
    if total_pixels == 0 {
        Dissimilarity { overlap: 0, total: 0 }
    } else {
        Dissimilarity {
            overlap: sums::sum(prev.len() as int, lanes::overlaps(prev, curr)) as u64,
            total: total_pixels as u64,
        }
    }
}

/// How unlike two histograms of `total_pixels` pixels are.
pub fn histogram_distance_16_from_hists(
    prev: &[u32; 16],
    curr: &[u32; 16],
    total_pixels: usize,
) -> (r: Dissimilarity)
    ensures
        r == dissimilarity(prev@, curr@, total_pixels as int),
        total_pixels > 0 ==> r.overlap == sums::sum(16, lanes::overlaps(prev@, curr@)),
{
    if total_pixels == 0 {
        return Dissimilarity { overlap: 0, total: 0 };
    }
    Dissimilarity { overlap: lanes::overlap_16(prev, curr), total: total_pixels as u64 }
}

/// How unlike two grid histograms of `total_pixels` pixels are.
pub fn grid_histogram_distance_16_from_hists(
    prev: &[u32; GRID_HIST_LEN],
    curr: &[u32; GRID_HIST_LEN],
    total_pixels: usize,
) -> (r: Dissimilarity)
    ensures
        r == dissimilarity(prev@, curr@, total_pixels as int),
        total_pixels > 0 ==> r.overlap == sums::sum(
            GRID_HIST_LEN as int,
            lanes::overlaps(prev@, curr@),
        ),
{
    if total_pixels == 0 {
        return Dissimilarity { overlap: 0, total: 0 };
    }
    let ghost f = lanes::overlaps(prev@, curr@);
    let mut overlap: u64 = 0;
    let mut i: usize = 0;
    while i < GRID_HIST_LEN
        invariant
            i <= GRID_HIST_LEN,
            f == lanes::overlaps(prev@, curr@),
            overlap == sums::sum(i as int, f),
            overlap <= i * u32::MAX,
        decreases GRID_HIST_LEN - i,
    {
        let a: u32 = prev[i];
        let b: u32 = curr[i];
        overlap = overlap + if a <= b {
            a as u64
        } else {
            b as u64
        };
        i = i + 1;
    }
    Dissimilarity { overlap, total: total_pixels as u64 }
}

/// The counters of one cell of a grid histogram.
pub open spec fn cell_counters(hist: Seq<u32>, cell: int) -> Seq<u32> {
    hist.subrange(cell * 16, cell * 16 + 16)
}

/// Counters as numbers.
pub open spec fn counts(counters: Seq<u32>) -> spec_fn(int) -> int {
    |i: int| counters[i] as int
}

/// How unlike two frames are in one cell, measured by the pixels of the first.
pub open spec fn cell_dissimilarity(prev: Seq<u32>, curr: Seq<u32>, cell: int) -> Dissimilarity {
    let before = cell_counters(prev, cell);
    Dissimilarity {
        overlap: sums::sum(16, lanes::overlaps(before, cell_counters(curr, cell))) as u64,
        total: sums::sum(16, counts(before)) as u64,
    }
}

/// The first `cells` cells, without those in which the first frame has no pixel.
pub open spec fn occupied_cells(prev: Seq<u32>, curr: Seq<u32>, cells: int) -> Seq<Dissimilarity>
    decreases cells,
{
    if cells <= 0 {
        Seq::empty()
    } else {
        let others = occupied_cells(prev, curr, cells - 1);
        let last = cell_dissimilarity(prev, curr, cells - 1);
        if last.total == 0 {
            others
        } else {
            others.push(last)
        }
    }
}

/// The median of a list of distances.
#[derive(Clone, Copy, Debug, PartialEq, Eq, Structural)]
pub enum MedianDissimilarity {
    /// There is none: the distance is 0.
    Absent,
    /// The one in the middle.
    Middle(Dissimilarity),
    /// The mean of the two in the middle.
    Between(Dissimilarity, Dissimilarity),
}

/// The median of distances that come in order.
pub open spec fn median(ordered: Seq<Dissimilarity>) -> MedianDissimilarity {
    let mid = ordered.len() as int / 2;
    if ordered.len() == 0 {
        MedianDissimilarity::Absent
    } else if ordered.len() % 2 == 1 {
        MedianDissimilarity::Middle(ordered[mid])
    } else {
        MedianDissimilarity::Between(ordered[mid - 1], ordered[mid])
    }
}

fn measure_cell(
    prev: &[u32; GRID_HIST_LEN],
    curr: &[u32; GRID_HIST_LEN],
    cell: usize,
) -> (r: Dissimilarity)
    requires
        cell < 16,
    ensures
        r == cell_dissimilarity(prev@, curr@, cell as int),
        r.overlap <= r.total,
{
    let ghost before = cell_counters(prev@, cell as int);
    let ghost after = cell_counters(curr@, cell as int);
    let base: usize = cell * 16;
    let mut overlap: u64 = 0;
    let mut total: u64 = 0;
    let mut class: usize = 0;
    while class < 16
        invariant
            class <= 16,
            cell < 16,
            base == cell * 16,
            before == cell_counters(prev@, cell as int),
            after == cell_counters(curr@, cell as int),
            overlap == sums::sum(class as int, lanes::overlaps(before, after)),
            total == sums::sum(class as int, counts(before)),
            overlap <= total <= class * u32::MAX,
        decreases 16 - class,
    {
        let a: u32 = prev[base + class];
        let b: u32 = curr[base + class];
        assert(before[class as int] == a && after[class as int] == b);
        overlap = overlap + if a <= b {
            a as u64
        } else {
            b as u64
        };
        total = total + a as u64;
        class = class + 1;
    }
    Dissimilarity { overlap, total }
}

/// The median of the distances of the cells.
pub fn grid_histogram_median_cell_distance_16_from_hists(
    prev: &[u32; GRID_HIST_LEN],
    curr: &[u32; GRID_HIST_LEN],
) -> (r: MedianDissimilarity)
    ensures
        exists|ordered: Seq<Dissimilarity>| #[trigger]
            order::sorted_from(ordered, occupied_cells(prev@, curr@, 16)) && r == median(ordered),
{
    let mut distances: Vec<Dissimilarity> = Vec::new();
    let cells: usize = GRID_HIST_X * GRID_HIST_Y;
    let mut cell: usize = 0;
    while cell < cells
        invariant
            cell <= cells,
            cells == 16,
            distances@ == occupied_cells(prev@, curr@, cell as int),
        decreases cells - cell,
    {
        let distance = measure_cell(prev, curr, cell);
        if distance.total != 0 {
            distances.push(distance);
        }
        cell = cell + 1;
    }
    let ordered = order::sort(distances.as_slice());
    assert(order::sorted_from(ordered@, occupied_cells(prev@, curr@, 16)));
    let len: usize = ordered.len();
    let mid: usize = len / 2;
    if len == 0 {
        MedianDissimilarity::Absent
    } else if len % 2 == 1 {
        MedianDissimilarity::Middle(ordered[mid])
    } else {
        MedianDissimilarity::Between(ordered[mid - 1], ordered[mid])
    }
}

/// The difference of two frames is the same both ways, and 0 only between equal frames of one
/// length.
pub proof fn difference_is_a_metric(prev: Seq<u8>, curr: Seq<u8>)
    ensures
        frame_difference(prev, curr) == frame_difference(curr, prev),
        0 <= frame_difference(prev, curr) <= 255 * prev.len(),
        prev.len() == curr.len() ==> (frame_difference(prev, curr) == 0 <==> prev == curr),
{
    if prev.len() == curr.len() {
        let n = prev.len() as int;
        let f = lanes::differences(prev, 0, curr, 0);
        let g = lanes::differences(curr, 0, prev, 0);
        sums::lemma_sum_same(n, f, g);
        sums::lemma_sum_bounds(n, f, 0, 255);
        if prev == curr {
            sums::lemma_sum_bounds(n, f, 0, 0);
        }
        if sums::sum(n, f) == 0 {
            assert forall|i: int| 0 <= i < n implies prev[i] == curr[i] by {
                lemma_summand_is_at_most_the_sum(n, f, i);
                assert(f(i) == 0);
            }
            assert(prev =~= curr);
        }
    }
}

proof fn lemma_summand_is_at_most_the_sum(n: int, f: spec_fn(int) -> int, i: int)
    requires
        0 <= i < n,
        forall|k: int| 0 <= k < n ==> 0 <= #[trigger] f(k),
    ensures
        f(i) <= sums::sum(n, f),
{
    sums::lemma_sum_monotone(i, n, f);
    sums::lemma_sum_monotone(i + 1, n, f);
}

/// A histogram counts every pixel once.
pub proof fn histogram_counts_every_pixel(hist: Seq<u32>, frame: Seq<u8>)
    requires
        hist.len() == 16,
        counted(hist, frame.len() as int, brightness_classes(frame)),
    ensures
        sums::sum(16, counts(hist)) == frame.len(),
{
    let classes = brightness_classes(frame);
    let n = frame.len() as int;
    sums::lemma_counts_add_up(n, classes, 16);
    sums::lemma_sum_same(16, counts(hist), sums::value_counts(n, classes));
}

/// A grid histogram counts every pixel once.
pub proof fn grid_histogram_counts_every_pixel(
    hist: Seq<u32>,
    frame: Seq<u8>,
    width: int,
    height: int,
)
    requires
        hist.len() == GRID_HIST_LEN,
        0 < width,
        0 < height,
        width * height <= frame.len(),
        counted(hist, width * height, grid_slots(frame, width, height)),
    ensures
        sums::sum(GRID_HIST_LEN as int, counts(hist)) == width * height,
{
    let slots = grid_slots(frame, width, height);
    let n = width * height;
    assert(0 <= n) by (nonlinear_arith)
        requires
            0 < width,
            0 < height,
            n == width * height,
    ;
    assert forall|i: int| 0 <= i < n implies 0 <= #[trigger] slots(i) < GRID_HIST_LEN by {
        assert(0 <= i / width < height && 0 <= i % width < width) by (nonlinear_arith)
            requires
                0 <= i < width * height,
                0 < width,
        ;
        lemma_quarter(i / width, height);
        lemma_quarter(i % width, width);
    }
    sums::lemma_counts_add_up(n, slots, GRID_HIST_LEN as int);
    sums::lemma_sum_same(GRID_HIST_LEN as int, counts(hist), sums::value_counts(n, slots));
}

/// Histograms overlap in no more than either of them counts, and wholly where they are the same.
pub proof fn overlap_is_bounded(n: int, prev: Seq<u32>, curr: Seq<u32>)
    requires
        0 <= n,
    ensures
        sums::sum(n, lanes::overlaps(prev, curr)) == sums::sum(n, lanes::overlaps(curr, prev)),
        sums::sum(n, lanes::overlaps(prev, curr)) <= sums::sum(n, counts(prev)),
        sums::sum(n, lanes::overlaps(prev, prev)) == sums::sum(n, counts(prev)),
    decreases n,
{
    if n > 0 {
        overlap_is_bounded(n - 1, prev, curr);
    }
}

/// A frame is at distance 0 from itself: whole frame, grid, and every cell.
pub proof fn identical_frames_do_not_differ(
    hist: Seq<u32>,
    grid_hist: Seq<u32>,
    frame: Seq<u8>,
    width: int,
    height: int,
    cell: int,
)
    requires
        hist.len() == 16,
        grid_hist.len() == GRID_HIST_LEN,
        0 < width,
        0 < height,
        width * height == frame.len(),
        0 <= cell < 16,
        counted(hist, frame.len() as int, brightness_classes(frame)),
        counted(grid_hist, frame.len() as int, grid_slots(frame, width, height)),
    ensures
        sums::sum(16, lanes::overlaps(hist, hist)) == frame.len(),
        sums::sum(GRID_HIST_LEN as int, lanes::overlaps(grid_hist, grid_hist)) == frame.len(),
        cell_dissimilarity(grid_hist, grid_hist, cell).vanishes(),
{
    histogram_counts_every_pixel(hist, frame);
    grid_histogram_counts_every_pixel(grid_hist, frame, width, height);
    overlap_is_bounded(16, hist, hist);
    overlap_is_bounded(GRID_HIST_LEN as int, grid_hist, grid_hist);
    let counters = cell_counters(grid_hist, cell);
    overlap_is_bounded(16, counters, counters);
}

/// What is added up in one pass over two frames is what the separate passes give.
pub proof fn one_pass_agrees_with_separate_passes(
    plan: GridHistogramPlan,
    metrics: FrameMetrics,
    prev: Seq<u8>,
    curr: Seq<u8>,
)
    requires
        prev.len() == curr.len(),
        curr.len() == plan.width() * plan.height(),
        plan.covered_by(curr.len() as int),
        plan.measures(metrics, Some(prev), curr),
    ensures
        metrics.sad == frame_difference(prev, curr),
        counted(metrics.hist@, curr.len() as int, brightness_classes(curr)),
        counted(
            metrics.grid_hist@,
            curr.len() as int,
            grid_slots(curr, plan.width(), plan.height()),
        ),
{
}

/// Brightness is told apart in steps of sixteen levels: two pixels are counted together exactly
/// where their levels lie in the same step.
pub proof fn brightness_is_told_apart_in_sixteen_steps(frame: Seq<u8>, i: int, j: int)
    requires
        0 <= i < frame.len(),
        0 <= j < frame.len(),
    ensures
        0 <= brightness_classes(frame)(i) < 16,
        16 * brightness_classes(frame)(i) <= frame[i] < 16 * brightness_classes(frame)(i) + 16,
        brightness_classes(frame)(i) == brightness_classes(frame)(j) <==> frame[i] / 16 == frame[j]
            / 16,
{
}

/// Pixels are counted together in a grid histogram exactly where they lie in the same quarter of
/// the height, in the same quarter of the width, and in the same step of brightness.
pub proof fn grid_cells_are_quarters(
    frame: Seq<u8>,
    width: int,
    height: int,
    x: int,
    y: int,
    other_x: int,
    other_y: int,
)
    requires
        0 <= x < width,
        0 <= y < height,
        0 <= other_x < width,
        0 <= other_y < height,
        width * height <= frame.len(),
    ensures
        ({
            let one = frame[y * width + x];
            let other = frame[other_y * width + other_x];
            let slots = grid_slots(frame, width, height);
            &&& slots(y * width + x) == slots(other_y * width + other_x) <==> {
                &&& 4 * y / height == 4 * other_y / height
                &&& 4 * x / width == 4 * other_x / width
                &&& one / 16 == other / 16
            }
            &&& slots(y * width + x) == 64 * (4 * y / height) + 16 * (4 * x / width) + one / 16
        }),
{
    lemma_row_column(y, x, width);
    lemma_row_column(other_y, other_x, width);
    lemma_quarter(y, height);
    lemma_quarter(x, width);
    lemma_quarter(other_y, height);
    lemma_quarter(other_x, width);
    assert(4 * y == y * 4 && 4 * x == x * 4);
    assert(4 * other_y == other_y * 4 && 4 * other_x == other_x * 4);
}

/// Histograms are as unlike as the pixels that they do not count alike: each class counts as
/// often as it occurs in both.
pub proof fn unlikeness_is_what_is_not_counted_alike(
    prev: Seq<u32>,
    curr: Seq<u32>,
    total_pixels: int,
)
    requires
        prev.len() <= GRID_HIST_LEN,
        0 < total_pixels <= u64::MAX,
    ensures
        dissimilarity(prev, curr, total_pixels).total == total_pixels,
        dissimilarity(prev, curr, total_pixels).overlap == sums::sum(
            prev.len() as int,
            |v: int|
                if prev[v] <= curr[v] {
                    prev[v] as int
                } else {
                    curr[v] as int
                },
        ),
        dissimilarity(prev, curr, 0).overlap == 0,
        dissimilarity(prev, curr, 0).total == 0,
{
    let n = prev.len() as int;
    let f = lanes::overlaps(prev, curr);
    let g = |v: int|
        if prev[v] <= curr[v] {
            prev[v] as int
        } else {
            curr[v] as int
        };
    sums::lemma_sum_same(n, f, g);
    sums::lemma_sum_bounds(n, f, 0, u32::MAX as int);
    assert(u32::MAX * n <= u32::MAX * 256) by (nonlinear_arith)
        requires
            0 <= n <= 256,
    ;
}

/// A cell is as unlike as the pixels that it holds in the first frame and that are not counted
/// alike in the second.
pub proof fn cells_are_measured_by_the_first_frame(prev: Seq<u32>, curr: Seq<u32>, cell: int)
    requires
        prev.len() == 256,
        curr.len() == 256,
        0 <= cell < 16,
    ensures
        cell_dissimilarity(prev, curr, cell).total == sums::sum(
            16,
            |v: int| prev[16 * cell + v] as int,
        ),
        cell_dissimilarity(prev, curr, cell).overlap == sums::sum(
            16,
            |v: int|
                if prev[16 * cell + v] <= curr[16 * cell + v] {
                    prev[16 * cell + v] as int
                } else {
                    curr[16 * cell + v] as int
                },
        ),
{
    let before = cell_counters(prev, cell);
    let after = cell_counters(curr, cell);
    let whole = |v: int| prev[16 * cell + v] as int;
    let least = |v: int|
        if prev[16 * cell + v] <= curr[16 * cell + v] {
            prev[16 * cell + v] as int
        } else {
            curr[16 * cell + v] as int
        };
    sums::lemma_sum_same(16, counts(before), whole);
    sums::lemma_sum_same(16, lanes::overlaps(before, after), least);
    sums::lemma_sum_bounds(16, counts(before), 0, u32::MAX as int);
    sums::lemma_sum_bounds(16, lanes::overlaps(before, after), 0, u32::MAX as int);
}

/// The cells that count are those in which the first frame has a pixel, in their order.
pub proof fn cells_without_pixels_do_not_count(prev: Seq<u32>, curr: Seq<u32>, cells: int, cell: int)
    requires
        0 <= cell < cells,
    ensures
        cell_dissimilarity(prev, curr, cell).total > 0 ==> occupied_cells(
            prev,
            curr,
            cells,
        ).contains(cell_dissimilarity(prev, curr, cell)),
        forall|k: int|
            0 <= k < occupied_cells(prev, curr, cells).len() ==> (#[trigger] occupied_cells(
                prev,
                curr,
                cells,
            )[k]).total > 0,
        occupied_cells(prev, curr, cells).len() == sums::count(
            cells,
            |c: int| cell_dissimilarity(prev, curr, c).total > 0,
        ),
    decreases cells,
{
    let occupied = |c: int| cell_dissimilarity(prev, curr, c).total > 0;
    let listed = occupied_cells(prev, curr, cells);
    let others = occupied_cells(prev, curr, cells - 1);
    let last = cell_dissimilarity(prev, curr, cells - 1);
    if cells == 1 {
        assert(sums::count(0, occupied) == 0);
        assert(others.len() == 0);
    } else if cell < cells - 1 {
        cells_without_pixels_do_not_count(prev, curr, cells - 1, cell);
        if others.contains(cell_dissimilarity(prev, curr, cell)) {
            let k = choose|k: int|
                0 <= k < others.len() && others[k] == cell_dissimilarity(prev, curr, cell);
            assert(listed[k] == others[k]);
        }
    } else {
        cells_without_pixels_do_not_count(prev, curr, cells - 1, 0);
    }
    assert(sums::count(cells, occupied) == sums::count(cells - 1, occupied) + sums::indicator(
        occupied,
    )(cells - 1));
    if last.total > 0 {
        assert(listed[listed.len() - 1] == last);
        assert(listed.contains(last));
    }
}

/// Half of the distances come before the median, and half behind it.
pub proof fn medians_lie_in_the_middle(ordered: Seq<Dissimilarity>)
    requires
        order::in_order(ordered),
        ordered.len() > 0,
    ensures
        match median(ordered) {
            MedianDissimilarity::Absent => false,
            MedianDissimilarity::Middle(middle) => exists|k: int|
                2 * k + 1 == ordered.len() && #[trigger] ordered[k] == middle,
            MedianDissimilarity::Between(lower, upper) => exists|k: int|
                2 * k == ordered.len() && #[trigger] ordered[k] == upper && ordered[k - 1] == lower
                    && lower.no_later(upper),
        },
        median(Seq::empty()) == MedianDissimilarity::Absent,
{
    let mid = ordered.len() as int / 2;
    let here = ordered[mid];
    if ordered.len() % 2 == 0 {
        assert(ordered[mid - 1].no_later(ordered[mid]));
    }
}

/// The pixel at `(x, y)` of a reduced plane is that of the source at the same share of its width
/// and height, rounded down.
pub proof fn reduced_planes_keep_positions(
    data: Seq<u8>,
    stride: int,
    src_width: int,
    src_height: int,
    dst_width: int,
    dst_height: int,
    x: int,
    y: int,
)
    requires
        0 <= x < dst_width,
        0 <= y < dst_height,
        0 < src_width,
        0 < src_height,
        dst_width * src_width <= usize::MAX,
        dst_height * src_height <= usize::MAX,
    ensures
        sampled(data, stride, src_width, src_height, dst_width, dst_height).len() == dst_width
            * dst_height,
        sampled(data, stride, src_width, src_height, dst_width, dst_height)[y * dst_width + x]
            == data[(y * src_height / dst_height) * stride + x * src_width / dst_width],
{
    lemma_row_column(y, x, dst_width);
    assert(0 <= y * dst_width + x < dst_width * dst_height) by (nonlinear_arith)
        requires
            0 <= x < dst_width,
            0 <= y < dst_height,
    ;
    assert(0 <= x * src_width <= dst_width * src_width) by (nonlinear_arith)
        requires
            0 <= x < dst_width,
            0 < src_width,
    ;
    assert(0 <= y * src_height <= dst_height * src_height) by (nonlinear_arith)
        requires
            0 <= y < dst_height,
            0 < src_height,
    ;
}

/// The pixel at `(x, y)` of a packed plane is that of the source.
pub proof fn packed_planes_keep_pixels(
    data: Seq<u8>,
    stride: int,
    width: int,
    height: int,
    x: int,
    y: int,
)
    requires
        0 <= x < width,
        0 <= y < height,
    ensures
        packed(data, stride, width, height).len() == width * height,
        packed(data, stride, width, height)[y * width + x] == data[y * stride + x],
{
    lemma_row_column(y, x, width);
    assert(0 <= y * width + x < width * height) by (nonlinear_arith)
        requires
            0 <= x < width,
            0 <= y < height,
    ;
}

/// Frames differ by the sum of the distances of their pixels.
pub proof fn difference_is_taken_pixel_by_pixel(prev: Seq<u8>, curr: Seq<u8>)
    requires
        prev.len() == curr.len(),
    ensures
        frame_difference(prev, curr) == sums::sum(
            prev.len() as int,
            |i: int|
                if prev[i] >= curr[i] {
                    prev[i] - curr[i]
                } else {
                    curr[i] - prev[i]
                },
        ),
{
    let g = |i: int|
        if prev[i] >= curr[i] {
            prev[i] - curr[i]
        } else {
            curr[i] - prev[i]
        };
    sums::lemma_sum_same(prev.len() as int, lanes::differences(prev, 0, curr, 0), g);
}

/// Of two cells with pixels the one comes first of which a larger share is counted alike.
pub proof fn cells_are_ordered_by_what_is_alike(one: Dissimilarity, other: Dissimilarity)
    requires
        one.total > 0,
        other.total > 0,
    ensures
        one.no_later(other) <==> one.overlap * other.total >= other.overlap * one.total,
{
}

} // verus!
