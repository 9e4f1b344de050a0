//! Audio files and the external analyzer: which files are analysed, under
//! what display path, and what a run of the analyzer yields.

use vstd::prelude::*;
use crate::decimal::{decimal_of, int_text, parse_decimal, push_int, Decimal};
use crate::error::{AppError, FileErrorType};
use crate::text::{
    char_is_space, chars_of, excerpt, excerpt_of, find_line_end, is_space, lines, push_chars,
    push_str, string_of, strip_cr,
};

verus! {

/// The pattern that carries the loudness range in the analyzer's
/// diagnostic output; its first group is the value.
pub const LRA_PATTERN: &'static str = "LRA:\\s*([\\d\\.-]+)\\s*LU";

/// Group 1 of the last match of `pattern` in `text`: `None` where the
/// pattern does not compile, `Some(None)` where it does not match.
pub uninterp spec fn last_group_of(pattern: Seq<char>, text: Seq<char>) -> Option<Option<Seq<char>>>;

/// Relies on `regex::Regex::new` (compiles the pattern, or fails),
/// `Regex::captures_iter` (successive non-overlapping matches, leftmost
/// first), `Captures::get` and `Match::as_str`: the text of group 1 of the
/// last match, which depends on the pattern and the text alone.
#[verifier::external_body]
fn last_group(pattern: &str, text: &str) -> (r: Option<Option<String>>)
    ensures
        match r {
            None => last_group_of(pattern@, text@) is None,
            Some(None) => last_group_of(pattern@, text@) == Some(None::<Seq<char>>),
            Some(Some(g)) => last_group_of(pattern@, text@) == Some(Some(g@)),
        },
{
    let re = match regex::Regex::new(pattern) {
        Ok(re) => re,
        Err(_) => return None,
    };
    match re.captures_iter(text).last() {
        Some(caps) => match caps.get(1) {
            Some(m) => Some(Some(m.as_str().to_string())),
            None => Some(None),
        },
        None => Some(None),
    }
}

/// Why the analysis of one file failed.
#[derive(Debug)]
pub struct AnalysisError {
    /// `FfmpegExecution` or `LraParsingFailed`.
    pub kind: FileErrorType,
    pub message: String,
}

/// An analysis result as the contracts see it.
pub type AnalysisView = Result<i64, (FileErrorType, Seq<char>)>;

pub open spec fn analysis_view(r: Result<i64, AnalysisError>) -> AnalysisView {
    match r {
        Ok(v) => Ok(v),
        Err(e) => Err((e.kind, e.message@)),
    }
}

/// How one run of the analyzer ended.
#[derive(Debug)]
pub enum AnalyzerRun {
    /// The process could not be started.
    SpawnFailed { reason: String },
    /// The process ran to its end.
    Exited { success: bool, code: Option<i32>, stderr: String },
}

/// The message for a value that does not read as a number.
pub open spec fn value_error(value: Seq<char>, path: Seq<char>, reason: Seq<char>) -> Seq<char> {
    "解析 LRA 值 '"@ + value + "' 失败 (来自文件 "@ + path + "): "@ + reason
}

/// The message for output that holds no loudness range.
pub open spec fn missing_value_error(path: Seq<char>, output: Seq<char>) -> Seq<char> {
    "无法从 FFmpeg 输出中解析文件 "@ + path
        + " 的 LRA 值。\n这可能是因为：\n1. 音频文件格式不支持或已损坏\n2. 音频文件时长过短（需要至少几秒钟）\n3. FFmpeg 版本不兼容\n\nFFmpeg 输出摘要: "@
        + excerpt_of(output, 5)
}

/// The reason given for text that is not a number.
pub open spec fn malformed_reason(value: Seq<char>) -> Seq<char> {
    if value.len() == 0 {
        "cannot parse float from empty string"@
    } else {
        "invalid float literal"@
    }
}

/// What the analysis yields, given group 1 of the last match of the pattern
/// (`None` where there is no match): the value in tenths, signed.
pub open spec fn capture_outcome(capture: Option<Seq<char>>, output: Seq<char>, path: Seq<char>) -> AnalysisView {
    match capture {
        None => Err((FileErrorType::LraParsingFailed, missing_value_error(path, output))),
        Some(c) => match decimal_of(c) {
            Decimal::Finite { negative, tenths } => Ok(
                if negative {
                    -(tenths as int)
                } else {
                    tenths as int
                } as i64,
            ),
            Decimal::Malformed => Err(
                (FileErrorType::LraParsingFailed, value_error(c, path, malformed_reason(c))),
            ),
            Decimal::NonFinite => Err(
                (FileErrorType::LraParsingFailed, value_error(c, path, "number out of range"@)),
            ),
        },
    }
}

/// What the analyzer's diagnostic `output` yields for the file at `path`.
pub open spec fn output_outcome(output: Seq<char>, path: Seq<char>) -> AnalysisView {
    match last_group_of(LRA_PATTERN@, output) {
        None => Err(
            (FileErrorType::LraParsingFailed, "正则表达式编译失败: "@ + LRA_PATTERN@),
        ),
        Some(c) => capture_outcome(c, output, path),
    }
}

fn err(kind: FileErrorType, message: Vec<char>) -> (r: Result<i64, AnalysisError>)
    ensures
        analysis_view(r) == Err::<i64, (FileErrorType, Seq<char>)>((kind, message@)),
{
    Err(AnalysisError { kind, message: string_of(message.as_slice()) })
}

/// Reads the loudness range from group 1 of the last match of the pattern
/// in `output` (`capture`; `None` where nothing matched), for the file at
/// `file_path`.
pub fn lra_from_capture(capture: Option<&str>, output: &str, file_path: &str) -> (r: Result<
    i64,
    AnalysisError,
>)
    ensures
        analysis_view(r) == capture_outcome(
            match capture {
                Some(c) => Some(c@),
                None => None,
            },
            output@,
            file_path@,
        ),
{
    match capture {
        None => {
            let mut m: Vec<char> = Vec::new();
            push_str(&mut m, "无法从 FFmpeg 输出中解析文件 ");
            push_str(&mut m, file_path);
            push_str(
                &mut m,
                " 的 LRA 值。\n这可能是因为：\n1. 音频文件格式不支持或已损坏\n2. 音频文件时长过短（需要至少几秒钟）\n3. FFmpeg 版本不兼容\n\nFFmpeg 输出摘要: ",
            );
            let text = chars_of(output);
            let ex = excerpt(&text, 5);
            push_chars(&mut m, &ex);
            proof {
                assert(m@ =~= missing_value_error(file_path@, output@));
            }
            err(FileErrorType::LraParsingFailed, m)
        },
        Some(c) => {
            let cs = chars_of(c);
            match parse_decimal(&cs) {
                Decimal::Finite { negative, tenths } => {
                    if negative {
                        Ok(0 - (tenths as i64))
                    } else {
                        Ok(tenths as i64)
                    }
                },
                Decimal::Malformed => {
                    let mut m: Vec<char> = Vec::new();
                    push_str(&mut m, "解析 LRA 值 '");
                    push_str(&mut m, c);
                    push_str(&mut m, "' 失败 (来自文件 ");
                    push_str(&mut m, file_path);
                    push_str(&mut m, "): ");
                    if cs.len() == 0 {
                        push_str(&mut m, "cannot parse float from empty string");
                    } else {
                        push_str(&mut m, "invalid float literal");
                    }
                    proof {
                        assert(m@ =~= value_error(c@, file_path@, malformed_reason(c@)));
                    }
                    err(FileErrorType::LraParsingFailed, m)
                },
                Decimal::NonFinite => {
                    let mut m: Vec<char> = Vec::new();
                    push_str(&mut m, "解析 LRA 值 '");
                    push_str(&mut m, c);
                    push_str(&mut m, "' 失败 (来自文件 ");
                    push_str(&mut m, file_path);
                    push_str(&mut m, "): ");
                    push_str(&mut m, "number out of range");
                    proof {
                        assert(m@ =~= value_error(c@, file_path@, "number out of range"@));
                    }
                    err(FileErrorType::LraParsingFailed, m)
                },
            }
        },
    }
}

/// Reads the loudness range from the analyzer's diagnostic output: the
/// value of the last `LRA: <value> LU` in it.
pub fn parse_lra_from_ffmpeg_output(ffmpeg_output: &str, file_path: &str) -> (r: Result<
    i64,
    AnalysisError,
>)
    ensures
        analysis_view(r) == output_outcome(ffmpeg_output@, file_path@),
{
    match last_group(LRA_PATTERN, ffmpeg_output) {
        None => {
            let mut m: Vec<char> = Vec::new();
            push_str(&mut m, "正则表达式编译失败: ");
            push_str(&mut m, LRA_PATTERN);
            err(FileErrorType::LraParsingFailed, m)
        },
        Some(None) => lra_from_capture(None, ffmpeg_output, file_path),
        Some(Some(g)) => lra_from_capture(Some(g.as_str()), ffmpeg_output, file_path),
    }
}

/// The exit code shown in a message; `-1` where the process gave none.
pub open spec fn code_value(code: Option<i32>) -> int {
    match code {
        Some(c) => c as int,
        None => -1,
    }
}

/// What a run of the analyzer on the file at `path` yields.
pub open spec fn run_outcome(path: Seq<char>, run: AnalyzerRun) -> AnalysisView {
    match run {
        AnalyzerRun::SpawnFailed { reason } => Err(
            (
                FileErrorType::FfmpegExecution,
                "执行 FFmpeg 命令失败 (文件: "@ + path + "): "@ + reason@
                    + ". 请确保 FFmpeg 已正确安装。"@,
            ),
        ),
        AnalyzerRun::Exited { success, code, stderr } => if !success {
            Err(
                (
                    FileErrorType::FfmpegExecution,
                    "FFmpeg 分析文件 "@ + path + " 失败 (退出码: "@ + int_text(code_value(code))
                        + "). 错误信息: "@ + excerpt_of(stderr@, 3),
                ),
            )
        } else {
            output_outcome(stderr@, path)
        },
    }
}

/// Decides what a run of the analyzer on the file at `file_path` yields:
/// a process that could not start or that failed is an execution error;
/// otherwise the value is read from its diagnostic output.
pub fn lra_from_run(file_path: &str, run: &AnalyzerRun) -> (r: Result<i64, AnalysisError>)
    ensures
        analysis_view(r) == run_outcome(file_path@, *run),
{
    match run {
        AnalyzerRun::SpawnFailed { reason } => {
            let mut m: Vec<char> = Vec::new();
            push_str(&mut m, "执行 FFmpeg 命令失败 (文件: ");
            push_str(&mut m, file_path);
            push_str(&mut m, "): ");
            push_str(&mut m, reason.as_str());
            push_str(&mut m, ". 请确保 FFmpeg 已正确安装。");
            err(FileErrorType::FfmpegExecution, m)
        },
        AnalyzerRun::Exited { success, code, stderr } => {
            if !*success {
                let mut m: Vec<char> = Vec::new();
                push_str(&mut m, "FFmpeg 分析文件 ");
                push_str(&mut m, file_path);
                push_str(&mut m, " 失败 (退出码: ");
                let c: i64 = match code {
                    Some(c) => *c as i64,
                    None => -1,
                };
                push_int(c, &mut m);
                push_str(&mut m, "). 错误信息: ");
                let text = chars_of(stderr.as_str());
                let ex = excerpt(&text, 3);
                push_chars(&mut m, &ex);
                err(FileErrorType::FfmpegExecution, m)
            } else {
                parse_lra_from_ffmpeg_output(stderr.as_str(), file_path)
            }
        },
    }
}

/// The audio formats that are analysed, by lower-case file extension.
pub const SUPPORTED_EXTENSIONS: [&'static str; 10] = [
    "wav",
    "mp3",
    "m4a",
    "flac",
    "aac",
    "ogg",
    "opus",
    "wma",
    "aiff",
    "alac",
];

/// `ext` is one of `SUPPORTED_EXTENSIONS`.
pub open spec fn is_supported_ext(ext: Seq<char>) -> bool {
    exists|i: int| 0 <= i < 10 && ext == (#[trigger] SUPPORTED_EXTENSIONS@[i])@
}

fn same_chars(a: &Vec<char>, b: &Vec<char>) -> (r: bool)
    ensures
        r == (a@ == b@),
{
    if a.len() != b.len() {
        return false;
    }
    let mut i: usize = 0;
    while i < a.len()
        invariant
            i <= a.len(),
            a.len() == b.len(),
            forall|k: int| 0 <= k < i ==> a@[k] == b@[k],
        decreases a.len() - i,
    {
        if a[i] != b[i] {
            return false;
        }
        i = i + 1;
    }
    assert(a@ =~= b@);
    true
}

/// Whether `extension` (already in lower case) names a supported format.
pub fn is_supported_audio_format(extension: &str) -> (r: bool)
    ensures
        r == is_supported_ext(extension@),
{
    let e = chars_of(extension);
    let mut i: usize = 0;
    while i < SUPPORTED_EXTENSIONS.len()
        invariant
            i <= 10,
            e@ == extension@,
            forall|k: int| 0 <= k < i ==> extension@ != (#[trigger] SUPPORTED_EXTENSIONS@[k])@,
        decreases 10 - i,
    {
        let candidate = chars_of(SUPPORTED_EXTENSIONS[i]);
        if same_chars(&e, &candidate) {
            assert(extension@ == SUPPORTED_EXTENSIONS@[i as int]@);
            return true;
        }
        i = i + 1;
    }
    false
}

/// Index of the last `c` in `s`, or `-1`.
pub open spec fn last_index(s: Seq<char>, c: char) -> int
    decreases s.len(),
{
    if s.len() == 0 {
        -1
    } else if s.last() == c {
        s.len() - 1
    } else {
        last_index(s.drop_last(), c)
    }
}

proof fn lemma_last_index(s: Seq<char>, c: char, j: int)
    requires
        0 <= j <= s.len(),
        forall|k: int| j <= k < s.len() ==> s[k] != c,
    ensures
        last_index(s, c) == last_index(s.subrange(0, j), c),
        -1 <= last_index(s, c) < j,
        last_index(s, c) >= 0 ==> s[last_index(s, c)] == c,
    decreases s.len(),
{
    if j < s.len() {
        assert(s.drop_last().subrange(0, j) =~= s.subrange(0, j));
        lemma_last_index(s.drop_last(), c, j);
    } else {
        assert(s.subrange(0, j) =~= s);
        if s.len() > 0 && s.last() != c {
            lemma_last_index(s.drop_last(), c, j - 1);
        }
    }
}

/// `s` ends with a separator or a `.` component.
pub open spec fn ends_with_empty_part(s: Seq<char>) -> bool {
    s.len() > 0 && (s.last() == '/' || (s.last() == '.' && (s.len() == 1 || s[s.len() - 2]
        == '/')))
}

/// `s` starts with a separator or a `.` component.
pub open spec fn starts_with_empty_part(s: Seq<char>) -> bool {
    s.len() > 0 && (s[0] == '/' || (s[0] == '.' && (s.len() == 1 || s[1] == '/')))
}

/// A path without the separators and `.` components that end it, as path
/// components see it.
pub open spec fn path_trim_back(s: Seq<char>) -> Seq<char>
    decreases s.len(),
{
    if ends_with_empty_part(s) {
        path_trim_back(s.drop_last())
    } else {
        s
    }
}

/// A path without the separators and `.` components that start it.
pub open spec fn path_trim_front(s: Seq<char>) -> Seq<char>
    decreases s.len(),
{
    if starts_with_empty_part(s) {
        path_trim_front(s.drop_first())
    } else {
        s
    }
}

/// `r` such that `s[..r]` is `path_trim_back(s[..end])`.
fn path_end(s: &Vec<char>, end: usize) -> (r: usize)
    requires
        end <= s.len(),
    ensures
        r <= end,
        s@.subrange(0, r as int) == path_trim_back(s@.subrange(0, end as int)),
{
    let mut j: usize = end;
    while j > 0 && (s[j - 1] == '/' || (s[j - 1] == '.' && (j == 1 || s[j - 2] == '/')))
        invariant
            j <= end <= s.len(),
            path_trim_back(s@.subrange(0, end as int)) == path_trim_back(s@.subrange(0, j as int)),
        decreases j,
    {
        proof {
            let t = s@.subrange(0, j as int);
            assert(t.last() == s@[j - 1]);
            if j >= 2 {
                assert(t[t.len() - 2] == s@[j - 2]);
            }
            assert(t.drop_last() =~= s@.subrange(0, j - 1));
        }
        j = j - 1;
    }
    proof {
        let t = s@.subrange(0, j as int);
        if j > 0 {
            assert(t.last() == s@[j - 1]);
            if j >= 2 {
                assert(t[t.len() - 2] == s@[j - 2]);
            }
        }
    }
    j
}

/// `r` such that `s[r..]` is `path_trim_front(s[from..])`.
fn path_start(s: &Vec<char>, from: usize) -> (r: usize)
    requires
        from <= s.len(),
    ensures
        from <= r <= s.len(),
        s@.subrange(r as int, s.len() as int) == path_trim_front(
            s@.subrange(from as int, s.len() as int),
        ),
{
    let mut i: usize = from;
    while i < s.len() && (s[i] == '/' || (s[i] == '.' && (i + 1 == s.len() || s[i + 1] == '/')))
        invariant
            from <= i <= s.len(),
            path_trim_front(s@.subrange(from as int, s.len() as int)) == path_trim_front(
                s@.subrange(i as int, s.len() as int),
            ),
        decreases s.len() - i,
    {
        proof {
            let t = s@.subrange(i as int, s.len() as int);
            assert(t[0] == s@[i as int]);
            if i + 1 < s.len() {
                assert(t[1] == s@[i + 1]);
            }
            assert(t.drop_first() =~= s@.subrange(i + 1, s.len() as int));
        }
        i = i + 1;
    }
    proof {
        let t = s@.subrange(i as int, s.len() as int);
        if i < s.len() {
            assert(t[0] == s@[i as int]);
            if i + 1 < s.len() {
                assert(t[1] == s@[i + 1]);
            }
        }
    }
    i
}

/// The last component of a `/`-separated path, once trailing separators
/// and `.` components are set aside.
pub open spec fn file_name(path: Seq<char>) -> Seq<char> {
    let t = path_trim_back(path);
    t.subrange(last_index(t, '/') + 1, t.len() as int)
}

/// The extension of a path as `Path::extension` gives it: what follows the
/// last `'.'` of the file name, where that dot is not its first character;
/// none for `..`.
pub open spec fn extension_of(path: Seq<char>) -> Option<Seq<char>> {
    let n = file_name(path);
    let d = last_index(n, '.');
    if n == seq!['.', '.'] || d <= 0 {
        None
    } else {
        Some(n.subrange(d + 1, n.len() as int))
    }
}

/// Text in lower case.
pub uninterp spec fn lower_of(s: Seq<char>) -> Seq<char>;

/// Relies on `str::to_lowercase`: the result depends on the characters
/// alone.
#[verifier::external_body]
fn lowercase(s: &str) -> (r: String)
    ensures
        r@ == lower_of(s@),
{
    s.to_lowercase()
}

fn last_index_before(s: &Vec<char>, c: char, end: usize) -> (r: usize)
    requires
        end <= s.len(),
    ensures
        r <= end,
        r as int - 1 == last_index(s@.subrange(0, end as int), c),
{
    let mut j: usize = end;
    while j > 0 && s[j - 1] != c
        invariant
            j <= end <= s.len(),
            forall|k: int| j <= k < end ==> s@[k] != c,
        decreases j,
    {
        j = j - 1;
    }
    proof {
        let t = s@.subrange(0, end as int);
        lemma_last_index(t, c, j as int);
        assert(t.subrange(0, j as int) =~= s@.subrange(0, j as int));
        if j > 0 {
            assert(s@.subrange(0, j as int).last() == c);
        } else {
            assert(s@.subrange(0, 0) =~= Seq::<char>::empty());
        }
    }
    j
}

/// The extension of `file_path`, in lower case.
pub fn extract_file_extension(file_path: &str) -> (r: Option<String>)
    ensures
        r is Some <==> extension_of(file_path@) is Some,
        r is Some ==> r->0@ == lower_of(extension_of(file_path@)->0),
{
    let cs = chars_of(file_path);
    proof {
        assert(cs@.subrange(0, cs.len() as int) =~= cs@);
    }
    let e = path_end(&cs, cs.len());
    let ghost t = cs@.subrange(0, e as int);
    assert(path_trim_back(file_path@) == t);
    let start = last_index_before(&cs, '/', e);
    let name = crate::utils::sub_chars(&cs, start, e);
    assert(name@ == file_name(file_path@));
    let d = last_index_before(&name, '.', name.len());
    assert(name@.subrange(0, name.len() as int) =~= name@);
    if d <= 1 || (name.len() == 2 && name[0] == '.' && name[1] == '.') {
        proof {
            if name@ == seq!['.', '.'] {
            } else if name.len() == 2 && name@[0] == '.' && name@[1] == '.' {
                assert(name@ =~= seq!['.', '.']);
            }
        }
        None
    } else {
        proof {
            assert(name@ != seq!['.', '.']);
        }
        let ext = crate::utils::sub_chars(&name, d, name.len());
        let ext_text = string_of(ext.as_slice());
        Some(lowercase(ext_text.as_str()))
    }
}

/// `s` starts at the root.
pub open spec fn starts_at_root(s: Seq<char>) -> bool {
    s.len() > 0 && s[0] == '/'
}

/// `s` starts with a `.` component.
pub open spec fn starts_at_current(s: Seq<char>) -> bool {
    s.len() > 0 && s[0] == '.' && (s.len() == 1 || s[1] == '/')
}

/// Matches the components of `b` against those at the start of `p`, as
/// `Path::strip_prefix` does: separators may repeat and `.` components do
/// not count. `inside` is set while a component of `b` is being compared.
/// Gives what follows the matched components, without separators and `.`
/// components at either end.
pub open spec fn match_rest(p: Seq<char>, b: Seq<char>, inside: bool) -> Option<Seq<char>>
    decreases p.len() + b.len(), if inside {
        0nat
    } else {
        1nat
    },
{
    if !inside {
        if starts_with_empty_part(b) {
            match_rest(p, b.drop_first(), false)
        } else if b.len() == 0 {
            Some(path_trim_back(path_trim_front(p)))
        } else if starts_with_empty_part(p) {
            match_rest(p.drop_first(), b, false)
        } else {
            match_rest(p, b, true)
        }
    } else if b.len() == 0 {
        if p.len() == 0 || p[0] == '/' {
            Some(path_trim_back(path_trim_front(p)))
        } else {
            None
        }
    } else if b[0] == '/' {
        if p.len() == 0 {
            match_rest(p, b.drop_first(), false)
        } else if p[0] == '/' {
            match_rest(p.drop_first(), b.drop_first(), false)
        } else {
            None
        }
    } else if p.len() > 0 && p[0] == b[0] {
        match_rest(p.drop_first(), b.drop_first(), true)
    } else {
        None
    }
}

/// The path shown for a file: relative to `base` where the components of
/// `base` start it, otherwise the path itself.
pub open spec fn display_path_of(path: Seq<char>, base: Seq<char>) -> Seq<char> {
    if base.len() > 0 && starts_at_root(path) == starts_at_root(base) && starts_at_current(path)
        == starts_at_current(base) {
        match match_rest(path, base, false) {
            Some(r) => r,
            None => path,
        }
    } else {
        path
    }
}

/// `path_trim_back(path_trim_front(p[i..]))`.
fn trimmed_rest(p: &Vec<char>, i: usize) -> (r: Vec<char>)
    requires
        i <= p.len(),
    ensures
        r@ == path_trim_back(path_trim_front(p@.subrange(i as int, p.len() as int))),
{
    let a = path_start(p, i);
    let q = crate::utils::sub_chars(p, a, p.len());
    let e = path_end(&q, q.len());
    assert(q@.subrange(0, q.len() as int) =~= q@);
    crate::utils::sub_chars(&q, 0, e)
}

/// What follows the components of `b` at the start of `p`.
fn strip_components(p: &Vec<char>, b: &Vec<char>) -> (r: Option<Vec<char>>)
    ensures
        match r {
            Some(v) => match_rest(p@, b@, false) == Some(v@),
            None => match_rest(p@, b@, false) is None,
        },
{
    let mut i: usize = 0;
    let mut j: usize = 0;
    let mut inside = false;
    proof {
        assert(p@.subrange(0, p.len() as int) =~= p@);
        assert(b@.subrange(0, b.len() as int) =~= b@);
    }
    loop
        invariant
            i <= p.len(),
            j <= b.len(),
            match_rest(p@, b@, false) == match_rest(
                p@.subrange(i as int, p.len() as int),
                b@.subrange(j as int, b.len() as int),
                inside,
            ),
        decreases (p.len() - i) + (b.len() - j), if inside {
            0nat
        } else {
            1nat
        },
    {
        let ghost pp = p@.subrange(i as int, p.len() as int);
        let ghost bb = b@.subrange(j as int, b.len() as int);
        proof {
            if i < p.len() {
                assert(pp[0] == p@[i as int]);
                assert(pp.drop_first() =~= p@.subrange(i + 1, p.len() as int));
            }
            if i + 1 < p.len() {
                assert(pp[1] == p@[i + 1]);
            }
            if j < b.len() {
                assert(bb[0] == b@[j as int]);
                assert(bb.drop_first() =~= b@.subrange(j + 1, b.len() as int));
            }
            if j + 1 < b.len() {
                assert(bb[1] == b@[j + 1]);
            }
        }
        if !inside {
            if j < b.len() && (b[j] == '/' || (b[j] == '.' && (j + 1 == b.len() || b[j + 1]
                == '/'))) {
                j = j + 1;
            } else if j == b.len() {
                return Some(trimmed_rest(p, i));
            } else if i < p.len() && (p[i] == '/' || (p[i] == '.' && (i + 1 == p.len() || p[i
                + 1] == '/'))) {
                i = i + 1;
            } else {
                inside = true;
            }
        } else {
            if j == b.len() {
                if i == p.len() || p[i] == '/' {
                    return Some(trimmed_rest(p, i));
                } else {
                    return None;
                }
            } else if b[j] == '/' {
                if i == p.len() {
                    j = j + 1;
                    inside = false;
                } else if p[i] == '/' {
                    i = i + 1;
                    j = j + 1;
                    inside = false;
                } else {
                    return None;
                }
            } else if i < p.len() && p[i] == b[j] {
                i = i + 1;
                j = j + 1;
            } else {
                return None;
            }
        }
    }
}

fn starts_with_chars(s: &Vec<char>, prefix: &Vec<char>) -> (r: bool)
    ensures
        r == (s.len() >= prefix.len() && s@.subrange(0, prefix.len() as int) == prefix@),
{
    if s.len() < prefix.len() {
        return false;
    }
    let mut i: usize = 0;
    while i < prefix.len()
        invariant
            i <= prefix.len() <= s.len(),
            forall|k: int| 0 <= k < i ==> s@[k] == prefix@[k],
        decreases prefix.len() - i,
    {
        if s[i] != prefix[i] {
            assert(s@.subrange(0, prefix.len() as int)[i as int] != prefix@[i as int]);
            return false;
        }
        i = i + 1;
    }
    assert(s@.subrange(0, prefix.len() as int) =~= prefix@);
    true
}

/// The path shown for `file_path`: relative to `base_path` where the
/// components of `base_path` start it, otherwise the full path.
pub fn generate_display_path(file_path: &str, base_path: &str) -> (r: String)
    ensures
        r@ == display_path_of(file_path@, base_path@),
{
    let f = chars_of(file_path);
    let b = chars_of(base_path);
    if b.len() == 0 {
        return String::from_str(file_path);
    }
    let f_root = f.len() > 0 && f[0] == '/';
    let b_root = b[0] == '/';
    let f_current = f.len() > 0 && f[0] == '.' && (f.len() == 1 || f[1] == '/');
    let b_current = b[0] == '.' && (b.len() == 1 || b[1] == '/');
    if f_root != b_root || f_current != b_current {
        return String::from_str(file_path);
    }
    match strip_components(&f, &b) {
        Some(rest) => string_of(rest.as_slice()),
        None => String::from_str(file_path),
    }
}

/// A path of the walk is analysed: it is not the excluded path, and its
/// extension, in lower case, names a supported format.
pub open spec fn is_selected(path: Seq<char>, exclude: Option<Seq<char>>) -> bool {
    exclude != Some(path) && extension_of(path) is Some && is_supported_ext(
        lower_of(extension_of(path)->0),
    )
}

/// For the paths of a walk that are analysed, in walk order: the index of
/// the path and its display path.
pub open spec fn selection(paths: Seq<Seq<char>>, base: Seq<char>, exclude: Option<Seq<char>>) -> Seq<
    (int, Seq<char>),
>
    decreases paths.len(),
{
    if paths.len() == 0 {
        Seq::empty()
    } else {
        let r = selection(paths.drop_last(), base, exclude);
        if is_selected(paths.last(), exclude) {
            r.push((paths.len() as int - 1, display_path_of(paths.last(), base)))
        } else {
            r
        }
    }
}

pub open spec fn selection_view(v: Seq<(usize, String)>) -> Seq<(int, Seq<char>)> {
    Seq::new(v.len(), |i: int| (v[i].0 as int, v[i].1@))
}

/// Chooses, among the regular files that a walk of `base_path` found (in
/// walk order), those to analyse: each path other than `exclude` whose
/// extension names a supported format, in any case. Returns the index of
/// each in `paths`, with its display path.
pub fn select_audio_files(base_path: &str, exclude: Option<&str>, paths: &Vec<String>) -> (r: Vec<
    (usize, String),
>)
    ensures
        selection_view(r@) == selection(
            Seq::new(paths.len() as nat, |i: int| paths@[i]@),
            base_path@,
            match exclude {
                Some(x) => Some(x@),
                None => None,
            },
        ),
{
    let ghost ps = Seq::new(paths.len() as nat, |i: int| paths@[i]@);
    let ghost ex: Option<Seq<char>> = match exclude {
        Some(x) => Some(x@),
        None => None,
    };
    let excluded: Option<Vec<char>> = match exclude {
        Some(x) => Some(chars_of(x)),
        None => None,
    };
    let mut out: Vec<(usize, String)> = Vec::new();
    let mut i: usize = 0;
    while i < paths.len()
        invariant
            i <= paths.len(),
            ps == Seq::new(paths.len() as nat, |i: int| paths@[i]@),
            excluded is Some <==> ex is Some,
            excluded is Some ==> excluded->0@ == ex->0,
            selection_view(out@) == selection(ps.take(i as int), base_path@, ex),
        decreases paths.len() - i,
    {
        let path = paths[i].as_str();
        let is_excluded = match &excluded {
            Some(x) => {
                let p = chars_of(path);
                same_chars(&p, x)
            },
            None => false,
        };
        let keep = if is_excluded {
            false
        } else {
            match extract_file_extension(path) {
                Some(ext) => is_supported_audio_format(ext.as_str()),
                None => false,
            }
        };
        proof {
            assert(ps.take(i + 1).drop_last() =~= ps.take(i as int));
            assert(ps.take(i + 1).last() == path@);
            assert(keep == is_selected(path@, ex));
        }
        if keep {
            let shown = generate_display_path(path, base_path);
            out.push((i, shown));
        }
        proof {
            assert(selection_view(out@) =~= selection(ps.take(i + 1), base_path@, ex));
        }
        i = i + 1;
    }
    proof {
        assert(ps.take(i as int) =~= ps);
    }
    out
}

/// The words of `s`, as `split_whitespace` yields them.
pub open spec fn words(s: Seq<char>) -> Seq<Seq<char>>
    decreases s.len(),
{
    if s.len() == 0 {
        Seq::empty()
    } else {
        let w = words(s.drop_last());
        let c = s.last();
        if is_space(c) {
            w
        } else if s.len() >= 2 && !is_space(s[s.len() - 2]) {
            w.drop_last().push(w.last().push(c))
        } else {
            w.push(seq![c])
        }
    }
}

/// The words of `s`.
fn split_words(s: &Vec<char>) -> (r: Vec<Vec<char>>)
    ensures
        Seq::new(r.len() as nat, |i: int| r@[i]@) == words(s@),
{
    let mut done: Vec<Vec<char>> = Vec::new();
    let mut cur: Vec<char> = Vec::new();
    let mut i: usize = 0;
    while i < s.len()
        invariant
            i <= s.len(),
            cur.len() > 0 <==> (i > 0 && !is_space(s@[i - 1])),
            words(s@.take(i as int)) == Seq::new(done.len() as nat, |k: int| done@[k]@) + (if cur.len()
                > 0 {
                seq![cur@]
            } else {
                Seq::empty()
            }),
        decreases s.len() - i,
    {
        let ghost before = Seq::new(done.len() as nat, |k: int| done@[k]@);
        let ghost old_cur = cur@;
        proof {
            assert(s@.take(i + 1).drop_last() =~= s@.take(i as int));
            assert(s@.take(i + 1).last() == s@[i as int]);
            if i > 0 {
                assert(s@.take(i + 1)[i - 1] == s@[i - 1]);
            }
        }
        if char_is_space(s[i]) {
            if cur.len() > 0 {
                done.push(cur);
                cur = Vec::new();
                proof {
                    assert(Seq::new(done.len() as nat, |k: int| done@[k]@) =~= before.push(old_cur));
                }
            }
            proof {
                assert(words(s@.take(i + 1)) =~= Seq::new(done.len() as nat, |k: int| done@[k]@));
            }
        } else {
            cur.push(s[i]);
            proof {
                let w = words(s@.take(i as int));
                assert(cur@ =~= old_cur.push(s@[i as int]));
                if old_cur.len() > 0 {
                    assert(w =~= before.push(old_cur));
                    assert(w.drop_last() =~= before);
                    assert(w.last() == old_cur);
                    assert(words(s@.take(i + 1)) =~= w.drop_last().push(w.last().push(s@[i as int])));
                    assert(words(s@.take(i + 1)) =~= before.push(cur@));
                } else {
                    assert(w =~= before);
                    assert(words(s@.take(i + 1)) =~= w.push(seq![s@[i as int]]));
                    assert(cur@ =~= seq![s@[i as int]]);
                    assert(words(s@.take(i + 1)) =~= before.push(cur@));
                }
                assert(Seq::new(done.len() as nat, |k: int| done@[k]@) =~= before);
                assert(before.push(cur@) =~= before + seq![cur@]);
            }
        }
        i = i + 1;
    }
    if cur.len() > 0 {
        let ghost before = Seq::new(done.len() as nat, |k: int| done@[k]@);
        let ghost c = cur@;
        done.push(cur);
        proof {
            assert(Seq::new(done.len() as nat, |k: int| done@[k]@) =~= before.push(c));
        }
    }
    proof {
        assert(s@.take(i as int) =~= s@);
        assert(Seq::new(done.len() as nat, |k: int| done@[k]@) =~= words(s@));
    }
    done
}

/// The note on the analyzer's version that its version output gives:
/// ` (版本: <third word>)` where the first line starts with
/// `ffmpeg version` and has a third word; otherwise empty.
pub open spec fn version_note_of(output: Seq<char>) -> Seq<char> {
    let ls = lines(output);
    if ls.len() == 0 {
        Seq::empty()
    } else {
        let first = ls[0];
        let w = words(first);
        if first.len() >= 14 && first.subrange(0, 14) == "ffmpeg version"@ && w.len() >= 3 {
            " (版本: "@ + w[2] + ")"@
        } else {
            Seq::empty()
        }
    }
}

/// The note on the analyzer's version, from the text of its version output.
pub fn version_note(version_output: &str) -> (r: String)
    ensures
        r@ == version_note_of(version_output@),
{
    let cs = chars_of(version_output);
    if cs.len() == 0 {
        return String::new();
    }
    let k = find_line_end(&cs, 0);
    proof {
        assert(cs@.subrange(0, cs.len() as int) =~= cs@);
    }
    let e: usize = if k < cs.len() && k > 0 && cs[k - 1] == '\r' {
        k - 1
    } else {
        k
    };
    let first = crate::utils::sub_chars(&cs, 0, e);
    proof {
        let t = cs@.subrange(0, cs.len() as int);
        assert(t.subrange(0, k as int) =~= cs@.subrange(0, k as int));
        if k < cs.len() {
        } else {
            assert(t =~= cs@.subrange(0, k as int));
        }
        if k < cs.len() {
            assert(first@ =~= strip_cr(cs@.subrange(0, k as int)));
        } else {
            assert(first@ =~= cs@.subrange(0, k as int));
        }
        assert(first@ == lines(version_output@)[0]);
    }
    let prefix = chars_of("ffmpeg version");
    let w = split_words(&first);
    proof {
        reveal_strlit("ffmpeg version");
    }
    if starts_with_chars(&first, &prefix) && w.len() >= 3 {
        assert(w@[2]@ == words(first@)[2]);
        let mut out = String::from_str(" (版本: ");
        let word = string_of(w[2].as_slice());
        out.append(word.as_str());
        out.append(")");
        out
    } else {
        String::new()
    }
}

/// Text decoded from UTF-8, each invalid sequence replaced by U+FFFD.
pub uninterp spec fn utf8_lossy_of(b: Seq<u8>) -> Seq<char>;

/// Relies on `String::from_utf8_lossy`: the text depends on the bytes alone.
#[verifier::external_body]
fn decode_lossy(b: &[u8]) -> (r: String)
    ensures
        r@ == utf8_lossy_of(b@),
{
    String::from_utf8_lossy(b).into_owned()
}

/// The note on the analyzer's version, from the bytes of its version output.
pub fn extract_ffmpeg_version(version_output: &[u8]) -> (r: String)
    ensures
        r@ == version_note_of(utf8_lossy_of(version_output@)),
{
    let text = decode_lossy(version_output);
    version_note(text.as_str())
}

/// How the analyzer's availability probe (`<analyzer> -version`) ended.
#[derive(Debug)]
pub enum VersionProbe {
    /// The process could not be started.
    SpawnFailed,
    /// The process ran to its end, with this status and standard output.
    Exited { success: bool, stdout: Vec<u8> },
}

/// The error where the analyzer runs but fails.
pub const BROKEN_ANALYZER: &'static str = "FFmpeg 存在但无法正常运行。可能的原因：\n1. FFmpeg 文件损坏或不完整\n2. 缺少必要的系统依赖库\n3. 权限不足\n请尝试重新安装 FFmpeg。";

/// The error where the analyzer cannot be started.
pub const MISSING_ANALYZER: &'static str = "未找到 FFmpeg，请确保已安装并添加到 PATH 环境变量中。\n\n安装方法：\n• macOS: brew install ffmpeg\n• Ubuntu/Debian: sudo apt install ffmpeg\n• Windows: choco install ffmpeg 或从官网下载\n• 其他系统: 请访问 https://ffmpeg.org/download.html";

/// Decides from the availability probe whether the analyzer can be used:
/// on success, returns the note on its version.
pub fn check_ffmpeg_availability(probe: &VersionProbe) -> (r: Result<String, AppError>)
    ensures
        match probe {
            VersionProbe::SpawnFailed => r matches Err(AppError::Ffmpeg(m)) && m@
                == MISSING_ANALYZER@,
            VersionProbe::Exited { success, stdout } => if *success {
                r matches Ok(note) && note@ == version_note_of(utf8_lossy_of(stdout@))
            } else {
                r matches Err(AppError::Ffmpeg(m)) && m@ == BROKEN_ANALYZER@
            },
        },
{
    match probe {
        VersionProbe::SpawnFailed => Err(AppError::Ffmpeg(String::from_str(MISSING_ANALYZER))),
        VersionProbe::Exited { success, stdout } => {
            if *success {
                Ok(extract_ffmpeg_version(stdout.as_slice()))
            } else {
                Err(AppError::Ffmpeg(String::from_str(BROKEN_ANALYZER)))
            }
        },
    }
}

/// Checks the environment before any processing: the analyzer must be
/// available.
pub fn check_environment(probe: &VersionProbe) -> (r: Result<(), AppError>)
    ensures
        r is Ok <==> (probe matches VersionProbe::Exited { success, .. } && *success),
        match probe {
            VersionProbe::SpawnFailed => r matches Err(AppError::Ffmpeg(m)) && m@
                == MISSING_ANALYZER@,
            VersionProbe::Exited { success, .. } => !*success ==> (r matches Err(
                AppError::Ffmpeg(m),
            ) && m@ == BROKEN_ANALYZER@),
        },
{
    match check_ffmpeg_availability(probe) {
        Ok(_) => Ok(()),
        Err(e) => Err(e),
    }
}

/// Index of the first count for `e` in `r`, or `-1`.
pub open spec fn format_index(r: Seq<(Seq<char>, nat)>, e: Seq<char>) -> int
    decreases r.len(),
{
    if r.len() == 0 {
        -1
    } else {
        let k = format_index(r.drop_last(), e);
        if k >= 0 {
            k
        } else if r.last().0 == e {
            r.len() - 1
        } else {
            -1
        }
    }
}

/// Each distinct extension of `exts` with the number of times it occurs, in
/// order of first occurrence.
pub open spec fn count_formats(exts: Seq<Seq<char>>) -> Seq<(Seq<char>, nat)>
    decreases exts.len(),
{
    if exts.len() == 0 {
        Seq::empty()
    } else {
        let r = count_formats(exts.drop_last());
        let e = exts.last();
        let k = format_index(r, e);
        if k >= 0 {
            r.update(k, (e, r[k].1 + 1))
        } else {
            r.push((e, 1))
        }
    }
}

/// `x` put into `s` after every count at least as large.
pub open spec fn insert_by_count(x: (Seq<char>, nat), s: Seq<(Seq<char>, nat)>) -> Seq<
    (Seq<char>, nat),
>
    decreases s.len(),
{
    if s.len() == 0 {
        seq![x]
    } else if s.last().1 >= x.1 {
        s.push(x)
    } else {
        insert_by_count(x, s.drop_last()).push(s.last())
    }
}

/// The counts of `s` from the largest down; equal counts keep their order.
pub open spec fn sort_by_count(s: Seq<(Seq<char>, nat)>) -> Seq<(Seq<char>, nat)>
    decreases s.len(),
{
    if s.len() == 0 {
        s
    } else {
        insert_by_count(s.last(), sort_by_count(s.drop_last()))
    }
}

pub open spec fn counts_view(v: Seq<(String, usize)>) -> Seq<(Seq<char>, nat)> {
    Seq::new(v.len(), |i: int| (v[i].0@, v[i].1 as nat))
}

proof fn lemma_format_index(r: Seq<(Seq<char>, nat)>, e: Seq<char>, k: int)
    requires
        0 <= k <= r.len(),
        forall|m: int| 0 <= m < k ==> (#[trigger] r[m]).0 != e,
        k < r.len() ==> r[k].0 == e,
    ensures
        format_index(r, e) == if k < r.len() {
            k
        } else {
            -1
        },
    decreases r.len(),
{
    if r.len() > 0 {
        if k < r.len() - 1 {
            lemma_format_index(r.drop_last(), e, k);
        } else if k == r.len() - 1 {
            lemma_format_index(r.drop_last(), e, k);
        } else {
            lemma_format_index(r.drop_last(), e, k - 1);
        }
    }
}

proof fn lemma_insert_by_count_at(x: (Seq<char>, nat), s: Seq<(Seq<char>, nat)>, j: int)
    requires
        0 <= j <= s.len(),
        forall|m: int| j <= m < s.len() ==> (#[trigger] s[m]).1 < x.1,
        j > 0 ==> s[j - 1].1 >= x.1,
    ensures
        insert_by_count(x, s) == s.insert(j, x),
    decreases s.len() - j,
{
    if j < s.len() {
        lemma_insert_by_count_at(x, s.drop_last(), j);
        assert(s.drop_last().insert(j, x).push(s.last()) =~= s.insert(j, x));
    } else if s.len() > 0 {
        assert(s.push(x) =~= s.insert(j, x));
    } else {
        assert(seq![x] =~= s.insert(j, x));
    }
}

/// How many files of each format there are: each distinct extension with
/// its number of occurrences, the largest count first, equal counts in
/// order of first occurrence.
pub fn format_statistics(extensions: &Vec<String>) -> (r: Vec<(String, usize)>)
    ensures
        counts_view(r@) == sort_by_count(
            count_formats(Seq::new(extensions.len() as nat, |i: int| extensions@[i]@)),
        ),
{
    let ghost exts = Seq::new(extensions.len() as nat, |i: int| extensions@[i]@);
    let mut counts: Vec<(String, usize)> = Vec::new();
    let mut keys: Vec<Vec<char>> = Vec::new();
    let mut i: usize = 0;
    while i < extensions.len()
        invariant
            i <= extensions.len(),
            exts == Seq::new(extensions.len() as nat, |i: int| extensions@[i]@),
            counts_view(counts@) == count_formats(exts.take(i as int)),
            keys.len() == counts.len(),
            forall|m: int| 0 <= m < keys.len() ==> (#[trigger] keys@[m])@ == counts@[m].0@,
            forall|m: int| 0 <= m < counts.len() ==> (#[trigger] counts@[m]).1 <= i,
        decreases extensions.len() - i,
    {
        let e = chars_of(extensions[i].as_str());
        let ghost r = counts_view(counts@);
        proof {
            assert(exts.take(i + 1).drop_last() =~= exts.take(i as int));
            assert(exts.take(i + 1).last() == e@);
        }
        let mut k: usize = 0;
        while k < keys.len() && !same_chars(&keys[k], &e)
            invariant
                k <= keys.len(),
                keys.len() == counts.len(),
                r == counts_view(counts@),
                forall|m: int| 0 <= m < keys.len() ==> (#[trigger] keys@[m])@ == counts@[m].0@,
                forall|m: int| 0 <= m < k ==> (#[trigger] r[m]).0 != e@,
            decreases keys.len() - k,
        {
            k = k + 1;
        }
        proof {
            lemma_format_index(r, e@, k as int);
        }
        if k < keys.len() {
            let n = counts[k].1 + 1;
            let name = counts[k].0.clone();
            counts.set(k, (name, n));
            proof {
                assert(counts_view(counts@) =~= r.update(k as int, (e@, r[k as int].1 + 1)));
            }
        } else {
            counts.push((extensions[i].clone(), 1));
            keys.push(e);
            proof {
                assert(counts_view(counts@) =~= r.push((e@, 1)));
            }
        }
        i = i + 1;
    }
    proof {
        assert(exts.take(i as int) =~= exts);
    }
    let ghost unsorted = counts_view(counts@);
    let mut out: Vec<(String, usize)> = Vec::new();
    let mut j: usize = 0;
    while j < counts.len()
        invariant
            j <= counts.len(),
            unsorted == counts_view(counts@),
            counts_view(out@) == sort_by_count(unsorted.take(j as int)),
        decreases counts.len() - j,
    {
        let x = (counts[j].0.clone(), counts[j].1);
        let ghost xv = (x.0@, x.1 as nat);
        assert(xv == unsorted[j as int]);
        let ghost cur = counts_view(out@);
        let mut p: usize = out.len();
        while p > 0 && out[p - 1].1 < x.1
            invariant
                p <= out.len(),
                cur == counts_view(out@),
                xv == (x.0@, x.1 as nat),
                forall|m: int| p <= m < cur.len() ==> (#[trigger] cur[m]).1 < xv.1,
            decreases p,
        {
            p = p - 1;
        }
        proof {
            lemma_insert_by_count_at(xv, cur, p as int);
            assert(unsorted.take(j + 1).drop_last() =~= unsorted.take(j as int));
            assert(unsorted.take(j + 1).last() == xv);
        }
        out.insert(p, x);
        proof {
            assert(counts_view(out@) =~= cur.insert(p as int, xv));
        }
        j = j + 1;
    }
    proof {
        assert(unsorted.take(j as int) =~= unsorted);
    }
    out
}

} // verus!
