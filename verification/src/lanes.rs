//! Sixteen-lane byte arithmetic and eight-lane word arithmetic.
//!
//! The lane-wise operations are those of the `wide` crate; vectors cross into it and back as
//! plain arrays.

use crate::sums;
use vstd::prelude::*;

verus! {

/// `wide::u8x16::max`: each lane of the result is the larger of the two lanes.
#[verifier::external_body]
fn max_u8x16(a: [u8; 16], b: [u8; 16]) -> (r: [u8; 16])
    ensures
        forall|i: int|
            0 <= i < 16 ==> #[trigger] r@[i] == sums::maximum(a@[i] as int, b@[i] as int),
{
    wide::u8x16::new(a).max(wide::u8x16::new(b)).to_array()
}

/// `wide::u8x16::min`: each lane of the result is the smaller of the two lanes.
#[verifier::external_body]
fn min_u8x16(a: [u8; 16], b: [u8; 16]) -> (r: [u8; 16])
    ensures
        forall|i: int|
            0 <= i < 16 ==> #[trigger] r@[i] == sums::minimum(a@[i] as int, b@[i] as int),
{
    wide::u8x16::new(a).min(wide::u8x16::new(b)).to_array()
}

/// Subtraction of `wide::u8x16`: each lane is the difference of the two lanes, modulo 256.
#[verifier::external_body]
fn sub_u8x16(a: [u8; 16], b: [u8; 16]) -> (r: [u8; 16])
    ensures
        forall|i: int| 0 <= i < 16 ==> #[trigger] r@[i] == (a@[i] - b@[i]) % 256,
{
    (wide::u8x16::new(a) - wide::u8x16::new(b)).to_array()
}

/// `wide::u16x8::from_u8x16_low`: the lower eight lanes, widened.
#[verifier::external_body]
fn widen_low_u8x16(a: [u8; 16]) -> (r: [u16; 8])
    ensures
        forall|i: int| 0 <= i < 8 ==> #[trigger] r@[i] == a@[i],
{
    wide::u16x8::from_u8x16_low(wide::u8x16::new(a)).to_array()
}

/// `wide::u16x8::from_u8x16_high`: the upper eight lanes, widened.
#[verifier::external_body]
fn widen_high_u8x16(a: [u8; 16]) -> (r: [u16; 8])
    ensures
        forall|i: int| 0 <= i < 8 ==> #[trigger] r@[i] == a@[8 + i],
{
    wide::u16x8::from_u8x16_high(wide::u8x16::new(a)).to_array()
}

/// `wide::u32x8::min`: each lane of the result is the smaller of the two lanes.
#[verifier::external_body]
fn min_u32x8(a: [u32; 8], b: [u32; 8]) -> (r: [u32; 8])
    ensures
        forall|i: int| 0 <= i < 8 ==> #[trigger] r@[i] == sums::minimum(a@[i] as int, b@[i] as int),
{
    wide::u32x8::new(a).min(wide::u32x8::new(b)).to_array()
}

/// Absolute differences of two byte runs, lane by lane.
pub open spec fn differences(a: Seq<u8>, a_from: int, b: Seq<u8>, b_from: int) -> spec_fn(
    int,
) -> int {
    |i: int| sums::distance(a[a_from + i] as int, b[b_from + i] as int)
}

/// Pairwise minima of two runs of counters.
pub open spec fn overlaps(a: Seq<u32>, b: Seq<u32>) -> spec_fn(int) -> int {
    |i: int| sums::minimum(a[i] as int, b[i] as int)
}

fn load_u8x16(bytes: &[u8], from: usize) -> (r: [u8; 16])
    requires
        from + 16 <= bytes@.len(),
    ensures
        forall|i: int| 0 <= i < 16 ==> #[trigger] r@[i] == bytes@[from + i],
{
    [
        bytes[from],
        bytes[from + 1],
        bytes[from + 2],
        bytes[from + 3],
        bytes[from + 4],
        bytes[from + 5],
        bytes[from + 6],
        bytes[from + 7],
        bytes[from + 8],
        bytes[from + 9],
        bytes[from + 10],
        bytes[from + 11],
        bytes[from + 12],
        bytes[from + 13],
        bytes[from + 14],
        bytes[from + 15],
    ]
}

fn sum_u16x8(v: [u16; 8]) -> (r: u64)
    ensures
        r == v@[0] + v@[1] + v@[2] + v@[3] + v@[4] + v@[5] + v@[6] + v@[7],
{
    v[0] as u64 + v[1] as u64 + v[2] as u64 + v[3] as u64 + v[4] as u64 + v[5] as u64 + v[6] as u64
        + v[7] as u64
}

fn sum_u32x8(v: [u32; 8]) -> (r: u64)
    ensures
        r == v@[0] + v@[1] + v@[2] + v@[3] + v@[4] + v@[5] + v@[6] + v@[7],
{
    v[0] as u64 + v[1] as u64 + v[2] as u64 + v[3] as u64 + v[4] as u64 + v[5] as u64 + v[6] as u64
        + v[7] as u64
}

/// Sum of absolute differences of sixteen bytes of `a` and sixteen bytes of `b`.
pub fn sad_16(a: &[u8], a_from: usize, b: &[u8], b_from: usize) -> (r: u64)
    requires
        a_from + 16 <= a@.len(),
        b_from + 16 <= b@.len(),
    ensures
        r == sums::sum(16, differences(a@, a_from as int, b@, b_from as int)),
        r <= 16 * 255,
{
    let left = load_u8x16(a, a_from);
    let right = load_u8x16(b, b_from);
    let diff = sub_u8x16(max_u8x16(left, right), min_u8x16(left, right));
    let ghost f = differences(a@, a_from as int, b@, b_from as int);
    assert forall|i: int| 0 <= i < 16 implies #[trigger] diff@[i] == f(i) by {
        assert(left@[i] == a@[a_from + i]);
        assert(right@[i] == b@[b_from + i]);
    }
    let low = widen_low_u8x16(diff);
    let high = widen_high_u8x16(diff);
    proof {
        reveal_with_fuel(sums::sum, 17);
        assert(low@[0] == f(0) && low@[1] == f(1) && low@[2] == f(2) && low@[3] == f(3));
        assert(low@[4] == f(4) && low@[5] == f(5) && low@[6] == f(6) && low@[7] == f(7));
        assert(high@[0] == f(8) && high@[1] == f(9) && high@[2] == f(10) && high@[3] == f(11));
        assert(high@[4] == f(12) && high@[5] == f(13) && high@[6] == f(14) && high@[7] == f(15));
    }
    sum_u16x8(low) + sum_u16x8(high)
}

/// Sum of the pairwise minima of sixteen counters.
pub fn overlap_16(a: &[u32; 16], b: &[u32; 16]) -> (r: u64)
    ensures
        r == sums::sum(16, overlaps(a@, b@)),
{
    let low = min_u32x8(
        [a[0], a[1], a[2], a[3], a[4], a[5], a[6], a[7]],
        [b[0], b[1], b[2], b[3], b[4], b[5], b[6], b[7]],
    );
    let high = min_u32x8(
        [a[8], a[9], a[10], a[11], a[12], a[13], a[14], a[15]],
        [b[8], b[9], b[10], b[11], b[12], b[13], b[14], b[15]],
    );
    proof {
        let f = overlaps(a@, b@);
        reveal_with_fuel(sums::sum, 17);
        assert(low@[0] == f(0) && low@[1] == f(1) && low@[2] == f(2) && low@[3] == f(3));
        assert(low@[4] == f(4) && low@[5] == f(5) && low@[6] == f(6) && low@[7] == f(7));
        assert(high@[0] == f(8) && high@[1] == f(9) && high@[2] == f(10) && high@[3] == f(11));
        assert(high@[4] == f(12) && high@[5] == f(13) && high@[6] == f(14) && high@[7] == f(15));
    }
    sum_u32x8(low) + sum_u32x8(high)
}

} // verus!
