//! Command-line settings: defaults, and how their values are read.

use crate::double::Double;
use std::path::PathBuf;
use vstd::prelude::*;

verus! {

pub const DEFAULT_WINDOW_SIZE: usize = 30;

/// Bits of 3.0.
pub const DEFAULT_SIGMA: u64 = 0x4008_0000_0000_0000;

/// Bits of 0.2.
pub const DEFAULT_BASE_THRESHOLD: u64 = 0x3fc9_9999_9999_999a;

/// Bits of 0.03.
pub const DEFAULT_MIN_HIST_DISTANCE: u64 = 0x3f9e_b851_eb85_1eb8;

/// Bits of 0.0.
pub const DEFAULT_MIN_SCORE: u64 = 0x0000_0000_0000_0000;

/// Bits of 0.7.
pub const DEFAULT_SAD_WEIGHT: u64 = 0x3fe6_6666_6666_6666;

/// Bits of 0.3.
pub const DEFAULT_HIST_WEIGHT: u64 = 0x3fd3_3333_3333_3333;

pub const DEFAULT_ME_SEARCH_RADIUS: i32 = 4;

pub const DEFAULT_ME_INTRA_THRESH: i32 = 2000;

/// Bits of 90.0.
pub const DEFAULT_ME_INTRA_THRESH2: u64 = 0x4056_8000_0000_0000;

/// `std::path::PathBuf`, carried through; nothing is known of what it holds.
#[verifier::external_type_specification]
#[verifier::external_body]
pub struct ExPathBuf(PathBuf);

#[derive(Clone, Copy, Debug, PartialEq, Eq, Structural)]
pub enum OutputFormat {
    Agi,
    Xvid,
    Frames,
}

/// The command line.
#[derive(Debug)]
pub struct Cli {
    /// Input media file.
    pub input: PathBuf,
    /// Output file, or standard output.
    pub output: Option<PathBuf>,
    pub format: OutputFormat,
    /// Analyse at native resolution instead of the downscaled working resolution.
    pub native_res: bool,
    /// Sliding window size, in frames, for adaptive thresholding.
    pub window_size: usize,
    /// The threshold is the mean plus this many standard deviations of the window.
    pub sigma: Double,
    /// Lower bound of the adaptive threshold.
    pub base_threshold: Double,
    /// Least histogram distance of a cut.
    pub min_hist_distance: Double,
    /// Least combined score of a cut.
    pub min_score: Double,
    pub sad_weight: Double,
    pub hist_weight: Double,
    /// Motion search radius, in pixels of the analysed plane.
    pub me_search_radius: i32,
    pub me_intra_thresh: i32,
    pub me_intra_thresh2: Double,
    /// Hardware decoding device that must be used.
    pub hwdec: Option<String>,
}

pub open spec fn is_digit(c: char) -> bool {
    '0' <= c && c <= '9'
}

/// The number that a row of digits stands for.
pub open spec fn digits_value(text: Seq<char>) -> int
    decreases text.len(),
{
    if text.len() == 0 {
        0
    } else {
        digits_value(text.drop_last()) * 10 + (text.last() as int - '0' as int)
    }
}

/// A row of digits, and nothing else.
pub open spec fn all_digits(text: Seq<char>) -> bool {
    text.len() > 0 && forall|i: int| 0 <= i < text.len() ==> is_digit(#[trigger] text[i])
}

/// The number that `text` stands for: digits, after a plus sign or, where allowed, a minus sign.
pub open spec fn decimal_value(text: Seq<char>, signed: bool) -> Option<int> {
    if all_digits(text) {
        Some(digits_value(text))
    } else if text.len() > 0 && all_digits(text.drop_first()) && text[0] == '+' {
        Some(digits_value(text.drop_first()))
    } else if text.len() > 0 && all_digits(text.drop_first()) && text[0] == '-' && signed {
        Some(-digits_value(text.drop_first()))
    } else {
        None
    }
}

/// What `std::num::ParseIntError` displays where `str::parse::<usize>` refuses a text.
pub uninterp spec fn usize_refusal(text: Seq<char>) -> Seq<char>;

/// What `std::num::ParseIntError` displays where `str::parse::<i32>` refuses a text.
pub uninterp spec fn i32_refusal(text: Seq<char>) -> Seq<char>;

/// `str::parse::<usize>`: an optional plus sign and then only digits, of a number that fits. The
/// text of the error follows from the text that is refused.
#[verifier::external_body]
fn parse_usize(raw: &str) -> (r: Result<usize, String>)
    ensures
        match r {
            Ok(value) => decimal_value(raw@, false) == Some(value as int),
            Err(message) => {
                &&& decimal_value(raw@, false) matches Some(value) ==> value > usize::MAX
                &&& message@ == usize_refusal(raw@)
            },
        },
{
    raw.parse::<usize>().map_err(|error| error.to_string())
}

/// `str::parse::<i32>`: an optional plus or minus sign and then only digits, of a number that
/// fits. The text of the error follows from the text that is refused.
#[verifier::external_body]
fn parse_i32(raw: &str) -> (r: Result<i32, String>)
    ensures
        match r {
            Ok(value) => decimal_value(raw@, true) == Some(value as int),
            Err(message) => {
                &&& decimal_value(raw@, true) matches Some(value) ==> value > i32::MAX || value
                    < i32::MIN
                &&& message@ == i32_refusal(raw@)
            },
        },
{
    raw.parse::<i32>().map_err(|error| error.to_string())
}

pub fn parse_positive_usize(raw: &str) -> (r: Result<usize, String>)
    ensures
        match r {
            Ok(value) => value > 0 && decimal_value(raw@, false) == Some(value as int),
            Err(message) => match decimal_value(raw@, false) {
                Some(value) if value <= usize::MAX => value == 0 && message@
                    == "must be greater than 0"@,
                _ => message@ == usize_refusal(raw@),
            },
        },
{
    let value: usize = match parse_usize(raw) {
        Ok(value) => value,
        Err(message) => {
            return Err(message);
        },
    };
    if value == 0 {
        return Err("must be greater than 0".to_owned());
    }
    Ok(value)
}

pub fn parse_nonnegative_i32(raw: &str) -> (r: Result<i32, String>)
    ensures
        match r {
            Ok(value) => value >= 0 && decimal_value(raw@, true) == Some(value as int),
            Err(message) => match decimal_value(raw@, true) {
                Some(value) if i32::MIN <= value <= i32::MAX => value < 0 && message@
                    == "must be greater than or equal to 0"@,
                _ => message@ == i32_refusal(raw@),
            },
        },
{
    let value: i32 = match parse_i32(raw) {
        Ok(value) => value,
        Err(message) => {
            return Err(message);
        },
    };
    if value < 0 {
        return Err("must be greater than or equal to 0".to_owned());
    }
    Ok(value)
}

/// Accepts a number, read from the command line, that is finite and not below zero.
pub fn accept_nonnegative_f64(value: Double) -> (r: Result<Double, String>)
    ensures
        match r {
            Ok(accepted) => value.finite_nonnegative() && accepted == value,
            Err(message) => !value.finite_nonnegative() && message@
                == "must be a finite number greater than or equal to 0"@,
        },
{
    if !value.is_finite() || value.lt(Double::zero()) {
        return Err("must be a finite number greater than or equal to 0".to_owned());
    }
    Ok(value)
}

/// Accepts a number, read from the command line, from zero to one.
pub fn accept_unit_interval_f64(value: Double) -> (r: Result<Double, String>)
    ensures
        match r {
            Ok(accepted) => value.in_unit_interval() && accepted == value,
            Err(message) => !value.in_unit_interval() && message@ == if value.finite_nonnegative() {
                "must be a finite number between 0 and 1"@
            } else {
                "must be a finite number greater than or equal to 0"@
            },
        },
{
    match accept_nonnegative_f64(value) {
        Ok(accepted) => {
            if accepted.gt(Double::one()) {
                return Err("must be a finite number between 0 and 1".to_owned());
            }
            Ok(accepted)
        },
        Err(message) => Err(message),
    }
}

} // verus!
