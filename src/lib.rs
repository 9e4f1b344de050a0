//! Batch loudness-range (LRA) bookkeeping: selection of audio files, the
//! decisions taken on each analyzer run, aggregation of the outcomes, and the
//! line-oriented result file with its two-key sort.
//!
//! Loudness-range values are carried as signed integers in tenths of a
//! loudness unit (`125` stands for `12.5 LU`), which is the precision of the
//! result file.

pub mod text;
pub mod decimal;
pub mod error;
pub mod audio;
pub mod processor;
pub mod utils;

pub use audio::{
    check_environment, check_ffmpeg_availability, extract_file_extension,
    is_supported_audio_format, select_audio_files, SUPPORTED_EXTENSIONS,
};
pub use error::{AppError, FileErrorType, ProcessFileError};
pub use processor::{analyze_results, collect_outcomes, ProcessingStats};
pub use utils::{parse_result_line, sort_entries_by_lra, sort_results_text};

use vstd::prelude::*;

verus! {

/// Library version.
pub const VERSION: &'static str = "1.0.0";

/// Library name.
pub const NAME: &'static str = "LRA-Calculator-Rust";

/// The library's name and version: `<name> v<version>`.
pub fn get_version_info() -> (r: String)
    ensures
        r@ == NAME@ + " v"@ + VERSION@,
{
    let mut out = String::from_str(NAME);
    out.append(" v");
    out.append(VERSION);
    out
}

} // verus!
