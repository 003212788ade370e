//! Scene-change detection on decoded luma planes.

pub mod analysis;
pub mod cli;
pub mod decoder;
pub mod detector;
pub mod double;
pub mod error;
pub mod formatter;
pub mod lanes;
pub mod meanalysis;
pub mod motion;
pub mod order;
pub mod postprocess;
pub mod simd_metrics;
pub mod sums;
pub mod text;
pub mod validation;

pub use analysis::{AnalysisResult, AnalyzeOptions};
pub use detector::{DetectorConfig, XvidDetectorConfig};
pub use error::{SCuiseiError, SCuiseiResult};
pub use formatter::{write_agi, write_frames_csv, write_pass_log};
pub use postprocess::PostprocessConfig;
