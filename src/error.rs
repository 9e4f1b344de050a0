//! Error types: the per-file failure with its category, and the errors that
//! stop the whole run.

use vstd::prelude::*;

verus! {

/// Relies on nothing of `std::io::Error` but its existence: values of it are
/// carried through, never inspected.
#[verifier::external_type_specification]
#[verifier::external_body]
pub struct ExIoError(std::io::Error);

/// Category of a per-file failure.
#[derive(Debug, Clone, Copy, PartialEq, Eq, Structural)]
pub enum FileErrorType {
    /// The analyzer could not be run, or it failed.
    FfmpegExecution,
    /// The analyzer ran but no loudness-range value could be read from it.
    LraParsingFailed,
    /// The file could not be accessed.
    FileAccess,
    /// Anything else.
    Other,
}

/// Why one file could not be analysed.
#[derive(Debug, Clone)]
pub struct ProcessFileError {
    /// Display path of the file.
    pub file_path: String,
    /// What went wrong.
    pub message: String,
    /// Category of the failure.
    pub error_type: FileErrorType,
}

/// The description shown for each category.
pub open spec fn type_description(t: FileErrorType) -> Seq<char> {
    match t {
        FileErrorType::FfmpegExecution => "FFmpeg 执行失败"@,
        FileErrorType::LraParsingFailed => "LRA 值解析失败"@,
        FileErrorType::FileAccess => "文件访问失败"@,
        FileErrorType::Other => "其他错误"@,
    }
}

/// How a per-file failure reads: `文件 '<path>' 处理失败 [<category>]: <message>`.
pub open spec fn file_error_text(path: Seq<char>, t: FileErrorType, message: Seq<char>) -> Seq<
    char,
> {
    "文件 '"@ + path + "' 处理失败 ["@ + type_description(t) + "]: "@ + message
}

impl ProcessFileError {
    pub fn new(file_path: String, message: String, error_type: FileErrorType) -> (r: Self)
        ensures
            r.file_path@ == file_path@,
            r.message@ == message@,
            r.error_type == error_type,
    {
        ProcessFileError { file_path, message, error_type }
    }

    pub fn ffmpeg_error(file_path: String, message: String) -> (r: Self)
        ensures
            r.file_path@ == file_path@,
            r.message@ == message@,
            r.error_type == FileErrorType::FfmpegExecution,
    {
        Self::new(file_path, message, FileErrorType::FfmpegExecution)
    }

    pub fn lra_parsing_error(file_path: String, message: String) -> (r: Self)
        ensures
            r.file_path@ == file_path@,
            r.message@ == message@,
            r.error_type == FileErrorType::LraParsingFailed,
    {
        Self::new(file_path, message, FileErrorType::LraParsingFailed)
    }

    pub fn file_access_error(file_path: String, message: String) -> (r: Self)
        ensures
            r.file_path@ == file_path@,
            r.message@ == message@,
            r.error_type == FileErrorType::FileAccess,
    {
        Self::new(file_path, message, FileErrorType::FileAccess)
    }

    /// The description of this failure's category.
    pub fn error_type_description(&self) -> (r: &'static str)
        ensures
            r@ == type_description(self.error_type),
    {
        match self.error_type {
            FileErrorType::FfmpegExecution => "FFmpeg 执行失败",
            FileErrorType::LraParsingFailed => "LRA 值解析失败",
            FileErrorType::FileAccess => "文件访问失败",
            FileErrorType::Other => "其他错误",
        }
    }

    /// The failure as one line of text.
    pub fn to_string(&self) -> (r: String)
        ensures
            r@ == file_error_text(self.file_path@, self.error_type, self.message@),
    {
        let mut out = String::from_str("文件 '");
        out.append(self.file_path.as_str());
        out.append("' 处理失败 [");
        out.append(self.error_type_description());
        out.append("]: ");
        out.append(self.message.as_str());
        out
    }
}

/// Errors that stop the run.
#[derive(Debug)]
pub enum AppError {
    Io(std::io::Error),
    FileProcessing(ProcessFileError),
    Ffmpeg(String),
    Path(String),
    Configuration(String),
}

impl AppError {
    /// The error as text.
    pub fn to_string(&self) -> (r: String)
        ensures
            match self {
                AppError::Io(_) => r@.len() >= "输入/输出错误: "@.len() && r@.subrange(
                    0,
                    "输入/输出错误: "@.len() as int,
                ) == "输入/输出错误: "@,
                AppError::FileProcessing(e) => r@ == file_error_text(
                    e.file_path@,
                    e.error_type,
                    e.message@,
                ),
                AppError::Ffmpeg(m) => r@ == "FFmpeg 错误: "@ + m@,
                AppError::Path(m) => r@ == "路径错误: "@ + m@,
                AppError::Configuration(m) => r@ == "配置错误: "@ + m@,
            },
    {
        match self {
            AppError::Io(e) => {
                let mut out = String::from_str("输入/输出错误: ");
                let detail = e.to_string();
                out.append(detail.as_str());
                proof {
                    assert(out@.subrange(0, "输入/输出错误: "@.len() as int) =~= "输入/输出错误: "@);
                }
                out
            },
            AppError::FileProcessing(e) => e.to_string(),
            AppError::Ffmpeg(m) => String::from_str("FFmpeg 错误: ").concat(m.as_str()),
            AppError::Path(m) => String::from_str("路径错误: ").concat(m.as_str()),
            AppError::Configuration(m) => String::from_str("配置错误: ").concat(m.as_str()),
        }
    }
}

impl From<ProcessFileError> for AppError {
    fn from(err: ProcessFileError) -> (r: AppError)
        ensures
            r == AppError::FileProcessing(err),
    {
        AppError::FileProcessing(err)
    }
}

impl vstd::std_specs::convert::FromSpecImpl<ProcessFileError> for AppError {
    open spec fn obeys_from_spec() -> bool {
        true
    }

    open spec fn from_spec(err: ProcessFileError) -> AppError {
        AppError::FileProcessing(err)
    }
}

impl From<std::io::Error> for AppError {
    fn from(err: std::io::Error) -> (r: AppError)
        ensures
            r == AppError::Io(err),
    {
        AppError::Io(err)
    }
}

impl vstd::std_specs::convert::FromSpecImpl<std::io::Error> for AppError {
    open spec fn obeys_from_spec() -> bool {
        true
    }

    open spec fn from_spec(err: std::io::Error) -> AppError {
        AppError::Io(err)
    }
}

} // verus!
