//! Decisions about decoded frames: which plane to use, and what to do next.

use crate::error::{displayed, SCuiseiError, SCuiseiResult};
use crate::formatter;
use crate::simd_metrics;
use crate::simd_metrics::Planar16Params;
use crate::text;
use crate::text::{append_number, joined};
use std::fmt::Display;
use vstd::prelude::*;
use vstd::string::*;

verus! {

/// The size of a frame, in pixels.
#[derive(Clone, Copy, Debug)]
pub struct FrameInfo {
    pub width: usize,
    pub height: usize,
}

/// An 8-bit luma plane whose rows lie `stride` bytes apart.
#[derive(Clone, Copy, Debug)]
pub struct LumaView<'a> {
    pub data: &'a [u8],
    pub stride: usize,
}

/// A luma plane of 16-bit samples whose rows lie `stride` bytes apart.
#[derive(Clone, Copy, Debug)]
pub struct Luma16View<'a> {
    pub data: &'a [u8],
    pub stride: usize,
    pub params: Planar16Params,
}

#[derive(Clone, Copy, Debug)]
pub enum LumaSource<'a> {
    Packed8(LumaView<'a>),
    Planar16(Luma16View<'a>),
}

/// The layout of a frame, as far as it matters here.
#[derive(Clone, Copy, Debug, PartialEq, Eq, Structural)]
pub enum PixelFormat {
    Gray8,
    Yuv420P,
    Yuv422P,
    Yuv444P,
    Yuv410P,
    Yuv411P,
    Yuv440P,
    Yuvj420P,
    Yuvj422P,
    Yuvj444P,
    Nv12,
    Nv21,
    Nv16,
    Nv24,
    Nv42,
    Yuv420P9Le,
    Yuv420P9Be,
    Yuv422P9Le,
    Yuv422P9Be,
    Yuv444P9Le,
    Yuv444P9Be,
    Yuv420P10Le,
    Yuv420P10Be,
    Yuv422P10Le,
    Yuv422P10Be,
    Yuv440P10Le,
    Yuv440P10Be,
    Yuv444P10Le,
    Yuv444P10Be,
    Yuv420P12Le,
    Yuv420P12Be,
    Yuv422P12Le,
    Yuv422P12Be,
    Yuv440P12Le,
    Yuv440P12Be,
    Yuv444P12Le,
    Yuv444P12Be,
    Yuv420P14Le,
    Yuv420P14Be,
    Yuv422P14Le,
    Yuv422P14Be,
    Yuv444P14Le,
    Yuv444P14Be,
    Yuv420P16Le,
    Yuv420P16Be,
    Yuv422P16Le,
    Yuv422P16Be,
    Yuv444P16Le,
    Yuv444P16Be,
    Other,
}

impl PixelFormat {
    /// The first plane holds one byte of luma for each pixel.
    pub open spec fn direct_luma(self) -> bool {
        match self {
            PixelFormat::Gray8
            | PixelFormat::Yuv420P
            | PixelFormat::Yuv422P
            | PixelFormat::Yuv444P
            | PixelFormat::Yuv410P
            | PixelFormat::Yuv411P
            | PixelFormat::Yuv440P
            | PixelFormat::Yuvj420P
            | PixelFormat::Yuvj422P
            | PixelFormat::Yuvj444P
            | PixelFormat::Nv12
            | PixelFormat::Nv21
            | PixelFormat::Nv16
            | PixelFormat::Nv24
            | PixelFormat::Nv42 => true,
            _ => false,
        }
    }

    /// The first plane holds luma samples of this many bits, of two bytes each.
    pub open spec fn sample_bits(self) -> Option<u8> {
        match self {
            PixelFormat::Yuv420P9Le
            | PixelFormat::Yuv420P9Be
            | PixelFormat::Yuv422P9Le
            | PixelFormat::Yuv422P9Be
            | PixelFormat::Yuv444P9Le
            | PixelFormat::Yuv444P9Be => Some(9),
            PixelFormat::Yuv420P10Le
            | PixelFormat::Yuv420P10Be
            | PixelFormat::Yuv422P10Le
            | PixelFormat::Yuv422P10Be
            | PixelFormat::Yuv440P10Le
            | PixelFormat::Yuv440P10Be
            | PixelFormat::Yuv444P10Le
            | PixelFormat::Yuv444P10Be => Some(10),
            PixelFormat::Yuv420P12Le
            | PixelFormat::Yuv420P12Be
            | PixelFormat::Yuv422P12Le
            | PixelFormat::Yuv422P12Be
            | PixelFormat::Yuv440P12Le
            | PixelFormat::Yuv440P12Be
            | PixelFormat::Yuv444P12Le
            | PixelFormat::Yuv444P12Be => Some(12),
            PixelFormat::Yuv420P14Le
            | PixelFormat::Yuv420P14Be
            | PixelFormat::Yuv422P14Le
            | PixelFormat::Yuv422P14Be
            | PixelFormat::Yuv444P14Le
            | PixelFormat::Yuv444P14Be => Some(14),
            PixelFormat::Yuv420P16Le
            | PixelFormat::Yuv420P16Be
            | PixelFormat::Yuv422P16Le
            | PixelFormat::Yuv422P16Be
            | PixelFormat::Yuv444P16Le
            | PixelFormat::Yuv444P16Be => Some(16),
            _ => None,
        }
    }

    /// The low byte of each sample comes first.
    pub open spec fn low_byte_first(self) -> bool {
        match self {
            PixelFormat::Yuv420P9Le
            | PixelFormat::Yuv422P9Le
            | PixelFormat::Yuv444P9Le
            | PixelFormat::Yuv420P10Le
            | PixelFormat::Yuv422P10Le
            | PixelFormat::Yuv440P10Le
            | PixelFormat::Yuv444P10Le
            | PixelFormat::Yuv420P12Le
            | PixelFormat::Yuv422P12Le
            | PixelFormat::Yuv440P12Le
            | PixelFormat::Yuv444P12Le
            | PixelFormat::Yuv420P14Le
            | PixelFormat::Yuv422P14Le
            | PixelFormat::Yuv444P14Le
            | PixelFormat::Yuv420P16Le
            | PixelFormat::Yuv422P16Le
            | PixelFormat::Yuv444P16Le => true,
            _ => false,
        }
    }
}

/// How high-bit luma samples are stored.
#[derive(Clone, Copy, Debug, PartialEq, Eq, Structural)]
pub struct HighBitLumaFormat {
    pub bit_depth: u8,
    pub little_endian: bool,
}

pub fn is_direct_luma_format(format: PixelFormat) -> (r: bool)
    ensures
        r == format.direct_luma(),
{
    matches!(
        format,
        PixelFormat::Gray8
        | PixelFormat::Yuv420P
        | PixelFormat::Yuv422P
        | PixelFormat::Yuv444P
        | PixelFormat::Yuv410P
        | PixelFormat::Yuv411P
        | PixelFormat::Yuv440P
        | PixelFormat::Yuvj420P
        | PixelFormat::Yuvj422P
        | PixelFormat::Yuvj444P
        | PixelFormat::Nv12
        | PixelFormat::Nv21
        | PixelFormat::Nv16
        | PixelFormat::Nv24
        | PixelFormat::Nv42
    )
}

pub fn high_bit_luma_format(format: PixelFormat) -> (r: Option<HighBitLumaFormat>)
    ensures
        match r {
            Some(found) => format.sample_bits() == Some(found.bit_depth) && found.little_endian
                == format.low_byte_first(),
            None => format.sample_bits() is None,
        },
{
    let little_endian = matches!(
        format,
        PixelFormat::Yuv420P9Le
        | PixelFormat::Yuv422P9Le
        | PixelFormat::Yuv444P9Le
        | PixelFormat::Yuv420P10Le
        | PixelFormat::Yuv422P10Le
        | PixelFormat::Yuv440P10Le
        | PixelFormat::Yuv444P10Le
        | PixelFormat::Yuv420P12Le
        | PixelFormat::Yuv422P12Le
        | PixelFormat::Yuv440P12Le
        | PixelFormat::Yuv444P12Le
        | PixelFormat::Yuv420P14Le
        | PixelFormat::Yuv422P14Le
        | PixelFormat::Yuv444P14Le
        | PixelFormat::Yuv420P16Le
        | PixelFormat::Yuv422P16Le
        | PixelFormat::Yuv444P16Le
    );
    let bit_depth: u8 = match format {
        PixelFormat::Yuv420P9Le
        | PixelFormat::Yuv420P9Be
        | PixelFormat::Yuv422P9Le
        | PixelFormat::Yuv422P9Be
        | PixelFormat::Yuv444P9Le
        | PixelFormat::Yuv444P9Be => 9,
        PixelFormat::Yuv420P10Le
        | PixelFormat::Yuv420P10Be
        | PixelFormat::Yuv422P10Le
        | PixelFormat::Yuv422P10Be
        | PixelFormat::Yuv440P10Le
        | PixelFormat::Yuv440P10Be
        | PixelFormat::Yuv444P10Le
        | PixelFormat::Yuv444P10Be => 10,
        PixelFormat::Yuv420P12Le
        | PixelFormat::Yuv420P12Be
        | PixelFormat::Yuv422P12Le
        | PixelFormat::Yuv422P12Be
        | PixelFormat::Yuv440P12Le
        | PixelFormat::Yuv440P12Be
        | PixelFormat::Yuv444P12Le
        | PixelFormat::Yuv444P12Be => 12,
        PixelFormat::Yuv420P14Le
        | PixelFormat::Yuv420P14Be
        | PixelFormat::Yuv422P14Le
        | PixelFormat::Yuv422P14Be
        | PixelFormat::Yuv444P14Le
        | PixelFormat::Yuv444P14Be => 14,
        PixelFormat::Yuv420P16Le
        | PixelFormat::Yuv420P16Be
        | PixelFormat::Yuv422P16Le
        | PixelFormat::Yuv422P16Be
        | PixelFormat::Yuv444P16Le
        | PixelFormat::Yuv444P16Be => 16,
        _ => {
            return None;
        },
    };
    Some(HighBitLumaFormat { bit_depth, little_endian })
}

/// Where the luma of a frame is taken from.
#[derive(Clone, Copy, Debug, PartialEq, Eq, Structural)]
pub enum LumaRoute {
    /// The first plane, with samples of two bytes.
    HighBit(HighBitLumaFormat),
    /// The first plane, with samples of one byte.
    Direct,
    /// A conversion to 8-bit gray.
    Convert,
}

/// The cheapest way to the luma of a frame.
pub fn luma_route(format: PixelFormat, allow_direct_high_bit: bool) -> (r: LumaRoute)
    ensures
        match r {
            LumaRoute::HighBit(found) => allow_direct_high_bit && format.sample_bits() == Some(
                found.bit_depth,
            ) && found.little_endian == format.low_byte_first(),
            LumaRoute::Direct => (!allow_direct_high_bit || format.sample_bits() is None)
                && format.direct_luma(),
            LumaRoute::Convert => (!allow_direct_high_bit || format.sample_bits() is None)
                && !format.direct_luma(),
        },
{
    if allow_direct_high_bit {
        match high_bit_luma_format(format) {
            Some(found) => {
                return LumaRoute::HighBit(found);
            },
            None => {},
        }
    }
    if is_direct_luma_format(format) {
        LumaRoute::Direct
    } else {
        LumaRoute::Convert
    }
}

/// What is wrong with a plane.
#[derive(Clone, Copy, Debug, PartialEq, Eq, Structural)]
pub enum PlaneFault {
    NarrowStride { stride: usize, row_bytes: usize },
    Overflow,
    ShortData { have: usize, needed: usize },
}

/// The bytes from the start of a plane to the end of its last row.
pub open spec fn plane_extent(stride: int, row_bytes: int, height: int) -> int {
    stride * (if height > 0 {
        height - 1
    } else {
        0
    }) + row_bytes
}

/// What is wrong with a plane of `len` bytes, if anything is.
pub open spec fn plane_fault(
    len: int,
    stride: int,
    row_bytes: int,
    height: int,
) -> Option<PlaneFault> {
    let extent = plane_extent(stride, row_bytes, height);
    if stride < row_bytes {
        Some(
            PlaneFault::NarrowStride { stride: stride as usize, row_bytes: row_bytes as usize },
        )
    } else if extent > usize::MAX {
        Some(PlaneFault::Overflow)
    } else if len < extent {
        Some(PlaneFault::ShortData { have: len as usize, needed: extent as usize })
    } else {
        None
    }
}

impl PlaneFault {
    pub open spec fn text(self) -> Seq<char> {
        match self {
            PlaneFault::NarrowStride { stride, row_bytes } => "unexpected luma stride ("@
                + text::number_text(stride as int) + ") for row size ("@ + text::number_text(
                row_bytes as int,
            ) + ")"@,
            PlaneFault::Overflow => "stride multiplication overflow"@,
            PlaneFault::ShortData { have, needed } => "insufficient luma data (have "@
                + text::number_text(have as int) + ", need "@ + text::number_text(needed as int)
                + ")"@,
        }
    }

    pub fn message(self) -> (r: String)
        ensures
            r@ == self.text(),
    {
        match self {
            PlaneFault::NarrowStride { stride, row_bytes } => {
                let mut message = "unexpected luma stride (".to_owned();
                append_number(&mut message, stride);
                message.append(") for row size (");
                append_number(&mut message, row_bytes);
                message.append(")");
                message
            },
            PlaneFault::Overflow => "stride multiplication overflow".to_owned(),
            PlaneFault::ShortData { have, needed } => {
                let mut message = "insufficient luma data (have ".to_owned();
                append_number(&mut message, have);
                message.append(", need ");
                append_number(&mut message, needed);
                message.append(")");
                message
            },
        }
    }
}

/// Looks whether a plane holds all its rows.
pub fn validate_plane(data: &[u8], stride: usize, row_bytes: usize, height: usize) -> (r: Result<
    (),
    PlaneFault,
>)
    ensures
        match r {
            Ok(_) => plane_fault(
                data@.len() as int,
                stride as int,
                row_bytes as int,
                height as int,
            ) is None,
            Err(fault) => plane_fault(
                data@.len() as int,
                stride as int,
                row_bytes as int,
                height as int,
            ) == Some(fault),
        },
{
    if stride < row_bytes {
        return Err(PlaneFault::NarrowStride { stride, row_bytes });
    }
    let rows_before_last: usize = height.saturating_sub(1);
    let before_last: usize = match stride.checked_mul(rows_before_last) {
        Some(bytes) => bytes,
        None => {
            return Err(PlaneFault::Overflow);
        },
    };
    let needed: usize = match before_last.checked_add(row_bytes) {
        Some(bytes) => bytes,
        None => {
            return Err(PlaneFault::Overflow);
        },
    };
    if data.len() < needed {
        return Err(PlaneFault::ShortData { have: data.len(), needed });
    }
    Ok(())
}

/// `result` is a plane that holds all its rows, or says what is wrong with it.
pub open spec fn borrowed<T>(result: SCuiseiResult<T>, fault: Option<PlaneFault>) -> bool {
    match result {
        Ok(_) => fault is None,
        Err(error) => fault matches Some(fault) && error is Decode && error.message()
            == fault.text(),
    }
}

/// The first plane of a frame with one byte of luma for each pixel.
pub fn borrow_packed8<'a>(
    data: &'a [u8],
    stride: usize,
    width: usize,
    height: usize,
) -> (r: SCuiseiResult<LumaView<'a>>)
    ensures
        borrowed(
            r,
            plane_fault(data@.len() as int, stride as int, width as int, height as int),
        ),
        r matches Ok(view) ==> view.data == data && view.stride == stride
            && simd_metrics::plane_fits(
            data@.len() as int,
            stride as int,
            width as int,
            height as int,
        ),
{
    match validate_plane(data, stride, width, height) {
        Ok(_) => Ok(LumaView { data, stride }),
        Err(fault) => Err(SCuiseiError::Decode(fault.message())),
    }
}

/// The first plane of a frame with two bytes of luma for each pixel.
pub fn borrow_planar16<'a>(
    data: &'a [u8],
    stride: usize,
    width: usize,
    height: usize,
    format: HighBitLumaFormat,
    full_range: bool,
) -> (r: SCuiseiResult<Luma16View<'a>>)
    ensures
        borrowed(
            r,
            plane_fault(
                data@.len() as int,
                stride as int,
                crate::sums::saturate(2 * width, usize::MAX as int),
                height as int,
            ),
        ),
        r matches Ok(view) ==> {
            &&& view.data == data
            &&& view.stride == stride
            &&& view.params.bit_depth == format.bit_depth
            &&& view.params.little_endian == format.little_endian
            &&& view.params.full_range == full_range
        },
{
    let row_bytes: usize = match width.checked_mul(2) {
        Some(bytes) => bytes,
        None => usize::MAX,
    };
    match validate_plane(data, stride, row_bytes, height) {
        Ok(_) => Ok(
            Luma16View {
                data,
                stride,
                params: Planar16Params {
                    bit_depth: format.bit_depth,
                    little_endian: format.little_endian,
                    full_range,
                },
            },
        ),
        Err(fault) => Err(SCuiseiError::Decode(fault.message())),
    }
}

/// What went wrong while decoding, told by an outside error.
pub fn decode_anyhow(error: &anyhow::Error) -> (r: SCuiseiError)
    ensures
        r matches SCuiseiError::Decode(message) && displayed(error, message),
{
    SCuiseiError::Decode(error.to_string())
}

/// An input that cannot be opened.
pub fn open_error<T: Display>(path: &str, error: &T) -> (r: SCuiseiError)
    ensures
        r is Io,
        crate::error::in_context(r.message(), "failed to open input: "@ + path@, error),
{
    let context = joined("failed to open input: ", path);
    SCuiseiError::io_with(context.as_str(), error)
}

/// A hardware device that cannot be used.
pub fn hw_attach_error<T: Display>(name: &str, error: &T) -> (r: SCuiseiError)
    ensures
        r is Unsupported,
        crate::error::in_context(
            r.message(),
            "failed to enable hardware decoding (--hwdec "@ + name@ + ")"@,
            error,
        ),
{
    let mut context = joined("failed to enable hardware decoding (--hwdec ", name);
    context.append(")");
    SCuiseiError::unsupported_with(context.as_str(), error)
}

pub fn validate_hw_frame_requirement(require_hw: bool, is_hw: bool) -> (r: SCuiseiResult<()>)
    ensures
        match r {
            Ok(_) => require_hw ==> is_hw,
            Err(error) => require_hw && !is_hw && error is Unsupported && error.message()
                == "--hwdec set but decoder produced software frames"@,
        },
{
    if require_hw && !is_hw {
        return Err(SCuiseiError::unsupported("--hwdec set but decoder produced software frames"));
    }
    Ok(())
}

/// The first zero byte is at `at`.
pub open spec fn first_zero_at(bytes: Seq<u8>, at: int) -> bool {
    &&& 0 <= at < bytes.len()
    &&& bytes[at] == 0
    &&& forall|i: int| 0 <= i < at ==> #[trigger] bytes[i] != 0
}

/// The device type with the given name, where `found` is what is registered under it.
pub fn parse_hw_device_type(name: &str, found: Option<i32>) -> (r: SCuiseiResult<i32>)
    ensures
        match r {
            Ok(device) => found == Some(device) && !formatter::bytes_of(name@).contains(0),
            Err(error) => error is Config && if formatter::bytes_of(name@).contains(0) {
                exists|at: int|
                    #![trigger first_zero_at(formatter::bytes_of(name@), at)]
                    first_zero_at(formatter::bytes_of(name@), at) && error.message()
                        == "invalid --hwdec value: nul byte found in provided data at position: "@
                        + text::number_text(at)
            } else {
                found is None && error.message() == "unknown --hwdec: "@ + name@
            },
        },
{
    let bytes = name.as_bytes();
    let mut i: usize = 0;
    while i < bytes.len()
        invariant
            i <= bytes@.len(),
            bytes@ == formatter::bytes_of(name@),
            forall|k: int| 0 <= k < i ==> #[trigger] bytes@[k] != 0,
        decreases bytes@.len() - i,
    {
        if bytes[i] == 0 {
            let mut message =
                "invalid --hwdec value: nul byte found in provided data at position: ".to_owned();
            append_number(&mut message, i);
            assert(first_zero_at(formatter::bytes_of(name@), i as int));
            return Err(SCuiseiError::Config(message));
        }
        i = i + 1;
    }
    match found {
        Some(device) => Ok(device),
        None => Err(SCuiseiError::Config(joined("unknown --hwdec: ", name))),
    }
}

/// A hardware configuration that offers the wanted method for the wanted device.
pub fn hw_config_is_usable(
    methods: i32,
    wanted_method: i32,
    device_type: i32,
    wanted_device: i32,
) -> (r: bool)
    ensures
        r == ((methods & wanted_method) != 0 && device_type == wanted_device),
{
    (methods & wanted_method) != 0 && device_type == wanted_device
}

/// The desired pixel format if it is offered, else the one that stands for none.
pub fn choose_hw_format(desired: i32, offered: &[i32], none: i32) -> (r: i32)
    ensures
        r == if offered@.contains(desired) {
            desired
        } else {
            none
        },
{
    let mut i: usize = 0;
    while i < offered.len()
        invariant
            i <= offered@.len(),
            forall|k: int| 0 <= k < i ==> #[trigger] offered@[k] != desired,
        decreases offered@.len() - i,
    {
        if offered[i] == desired {
            return desired;
        }
        i = i + 1;
    }
    none
}

/// How many decoding threads to ask for on a machine that can run `available` at once.
pub fn decoder_threads(available: Option<usize>) -> (r: usize)
    ensures
        r == match available {
            Some(workers) => crate::sums::minimum(2 * workers, 64),
            None => 0,
        },
{
    match available {
        Some(workers) => if workers < 32 {
            2 * workers
        } else {
            64
        },
        None => 0,
    }
}

/// What came back when a frame was asked for.
#[derive(Debug)]
pub enum ReceiveOutcome {
    Frame { is_hw: bool },
    /// The decoder wants more data first.
    Starved,
    /// The stream is over.
    Finished,
    /// The decoder failed, and says why.
    Failed(String),
}

/// What to do with it.
#[derive(Clone, Copy, Debug, PartialEq, Eq, Structural)]
pub enum ReceiveStep {
    /// Ask for no more frames for now.
    Stop,
    /// Hand the frame on, out of hardware memory first where it is there.
    Forward { from_hardware: bool },
}

pub fn receive_step(outcome: &ReceiveOutcome, require_hw: bool) -> (r: SCuiseiResult<ReceiveStep>)
    ensures
        match *outcome {
            ReceiveOutcome::Frame { is_hw } => if require_hw && !is_hw {
                r matches Err(error) && error is Unsupported && error.message()
                    == "--hwdec set but decoder produced software frames"@
            } else {
                r == SCuiseiResult::<ReceiveStep>::Ok(
                    ReceiveStep::Forward { from_hardware: is_hw },
                )
            },
            ReceiveOutcome::Starved | ReceiveOutcome::Finished => r == SCuiseiResult::<
                ReceiveStep,
            >::Ok(ReceiveStep::Stop),
            ReceiveOutcome::Failed(reason) => r matches Err(error) && error is Decode
                && error.message() == "failed to receive frame: "@ + reason@,
        },
{
    match outcome {
        ReceiveOutcome::Frame { is_hw } => {
            match validate_hw_frame_requirement(require_hw, *is_hw) {
                Ok(_) => Ok(ReceiveStep::Forward { from_hardware: *is_hw }),
                Err(error) => Err(error),
            }
        },
        ReceiveOutcome::Starved => Ok(ReceiveStep::Stop),
        ReceiveOutcome::Finished => Ok(ReceiveStep::Stop),
        ReceiveOutcome::Failed(reason) => Err(
            SCuiseiError::Decode(joined("failed to receive frame: ", reason.as_str())),
        ),
    }
}

/// What a conversion to gray was set up for.
#[derive(Clone, Copy, Debug, PartialEq, Eq, Structural)]
pub struct ScalerInput {
    pub format: i32,
    pub width: u32,
    pub height: u32,
}

/// Whether the conversion has to be set up anew for a frame.
pub fn needs_new_scaler(
    has_scaler: bool,
    made_for: Option<ScalerInput>,
    current: ScalerInput,
) -> (r: bool)
    ensures
        r <==> !has_scaler || made_for != Some(current),
{
    if !has_scaler {
        return true;
    }
    match made_for {
        Some(previous) => previous != current,
        None => true,
    }
}

/// The format that differs in the order of bytes alone.
pub open spec fn with_other_byte_order(format: PixelFormat) -> PixelFormat {
    match format {
        PixelFormat::Yuv420P9Le => PixelFormat::Yuv420P9Be,
        PixelFormat::Yuv420P9Be => PixelFormat::Yuv420P9Le,
        PixelFormat::Yuv422P9Le => PixelFormat::Yuv422P9Be,
        PixelFormat::Yuv422P9Be => PixelFormat::Yuv422P9Le,
        PixelFormat::Yuv444P9Le => PixelFormat::Yuv444P9Be,
        PixelFormat::Yuv444P9Be => PixelFormat::Yuv444P9Le,
        PixelFormat::Yuv420P10Le => PixelFormat::Yuv420P10Be,
        PixelFormat::Yuv420P10Be => PixelFormat::Yuv420P10Le,
        PixelFormat::Yuv422P10Le => PixelFormat::Yuv422P10Be,
        PixelFormat::Yuv422P10Be => PixelFormat::Yuv422P10Le,
        PixelFormat::Yuv440P10Le => PixelFormat::Yuv440P10Be,
        PixelFormat::Yuv440P10Be => PixelFormat::Yuv440P10Le,
        PixelFormat::Yuv444P10Le => PixelFormat::Yuv444P10Be,
        PixelFormat::Yuv444P10Be => PixelFormat::Yuv444P10Le,
        PixelFormat::Yuv420P12Le => PixelFormat::Yuv420P12Be,
        PixelFormat::Yuv420P12Be => PixelFormat::Yuv420P12Le,
        PixelFormat::Yuv422P12Le => PixelFormat::Yuv422P12Be,
        PixelFormat::Yuv422P12Be => PixelFormat::Yuv422P12Le,
        PixelFormat::Yuv440P12Le => PixelFormat::Yuv440P12Be,
        PixelFormat::Yuv440P12Be => PixelFormat::Yuv440P12Le,
        PixelFormat::Yuv444P12Le => PixelFormat::Yuv444P12Be,
        PixelFormat::Yuv444P12Be => PixelFormat::Yuv444P12Le,
        PixelFormat::Yuv420P14Le => PixelFormat::Yuv420P14Be,
        PixelFormat::Yuv420P14Be => PixelFormat::Yuv420P14Le,
        PixelFormat::Yuv422P14Le => PixelFormat::Yuv422P14Be,
        PixelFormat::Yuv422P14Be => PixelFormat::Yuv422P14Le,
        PixelFormat::Yuv444P14Le => PixelFormat::Yuv444P14Be,
        PixelFormat::Yuv444P14Be => PixelFormat::Yuv444P14Le,
        PixelFormat::Yuv420P16Le => PixelFormat::Yuv420P16Be,
        PixelFormat::Yuv420P16Be => PixelFormat::Yuv420P16Le,
        PixelFormat::Yuv422P16Le => PixelFormat::Yuv422P16Be,
        PixelFormat::Yuv422P16Be => PixelFormat::Yuv422P16Le,
        PixelFormat::Yuv444P16Le => PixelFormat::Yuv444P16Be,
        PixelFormat::Yuv444P16Be => PixelFormat::Yuv444P16Le,
        _ => format,
    }
}

/// The format that has as much color as luma and is the same in all else.
pub open spec fn with_full_color(format: PixelFormat) -> PixelFormat {
    match format {
        PixelFormat::Yuv420P9Le => PixelFormat::Yuv444P9Le,
        PixelFormat::Yuv420P9Be => PixelFormat::Yuv444P9Be,
        PixelFormat::Yuv422P9Le => PixelFormat::Yuv444P9Le,
        PixelFormat::Yuv422P9Be => PixelFormat::Yuv444P9Be,
        PixelFormat::Yuv420P10Le => PixelFormat::Yuv444P10Le,
        PixelFormat::Yuv420P10Be => PixelFormat::Yuv444P10Be,
        PixelFormat::Yuv422P10Le => PixelFormat::Yuv444P10Le,
        PixelFormat::Yuv422P10Be => PixelFormat::Yuv444P10Be,
        PixelFormat::Yuv440P10Le => PixelFormat::Yuv444P10Le,
        PixelFormat::Yuv440P10Be => PixelFormat::Yuv444P10Be,
        PixelFormat::Yuv420P12Le => PixelFormat::Yuv444P12Le,
        PixelFormat::Yuv420P12Be => PixelFormat::Yuv444P12Be,
        PixelFormat::Yuv422P12Le => PixelFormat::Yuv444P12Le,
        PixelFormat::Yuv422P12Be => PixelFormat::Yuv444P12Be,
        PixelFormat::Yuv440P12Le => PixelFormat::Yuv444P12Le,
        PixelFormat::Yuv440P12Be => PixelFormat::Yuv444P12Be,
        PixelFormat::Yuv420P14Le => PixelFormat::Yuv444P14Le,
        PixelFormat::Yuv420P14Be => PixelFormat::Yuv444P14Be,
        PixelFormat::Yuv422P14Le => PixelFormat::Yuv444P14Le,
        PixelFormat::Yuv422P14Be => PixelFormat::Yuv444P14Be,
        PixelFormat::Yuv420P16Le => PixelFormat::Yuv444P16Le,
        PixelFormat::Yuv420P16Be => PixelFormat::Yuv444P16Be,
        PixelFormat::Yuv422P16Le => PixelFormat::Yuv444P16Le,
        PixelFormat::Yuv422P16Be => PixelFormat::Yuv444P16Be,
        _ => format,
    }
}

/// Each format that is known has luma of one byte or of two, and not of both.
pub proof fn known_formats_have_one_kind_of_luma(format: PixelFormat)
    ensures
        format.direct_luma() ==> format.sample_bits() is None,
        format is Other <==> !format.direct_luma() && format.sample_bits() is None,
        format.sample_bits() matches Some(bits) ==> 8 < bits <= 16,
{
}

/// The order of bytes does not change how many bits a sample has, nor does the amount of color;
/// and of two byte orders one has the low byte first.
pub proof fn luma_does_not_depend_on_byte_order_or_color(format: PixelFormat)
    ensures
        with_other_byte_order(format).sample_bits() == format.sample_bits(),
        with_full_color(format).sample_bits() == format.sample_bits(),
        with_full_color(format).low_byte_first() == format.low_byte_first(),
        format.sample_bits() is Some ==> with_other_byte_order(format).low_byte_first()
            != format.low_byte_first(),
        format.sample_bits() is None ==> !format.low_byte_first(),
{
}

/// A plane without a fault holds every byte of every row, and rows do not overlap. A plane with a
/// fault has rows that overlap, or lacks the end of its last row.
pub proof fn planes_without_fault_hold_every_row(
    len: int,
    stride: int,
    row_bytes: int,
    height: int,
    y: int,
    x: int,
)
    requires
        0 <= len <= usize::MAX,
        0 <= stride <= usize::MAX,
        0 <= row_bytes <= usize::MAX,
        0 < height,
        0 <= y < height,
        0 <= x < row_bytes,
    ensures
        plane_fault(len, stride, row_bytes, height) is None ==> y * stride + x < len && row_bytes
            <= stride,
        plane_fault(len, stride, row_bytes, height) is Some ==> stride < row_bytes || (height - 1)
            * stride + row_bytes > len,
{
    assert(y * stride <= (height - 1) * stride) by (nonlinear_arith)
        requires
            y <= height - 1,
            0 <= stride,
    ;
    assert((height - 1) * stride == stride * (height - 1)) by (nonlinear_arith);
}

} // verus!
