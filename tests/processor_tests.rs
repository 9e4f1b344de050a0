use lra_calculator_rust::audio::AnalyzerRun;
use lra_calculator_rust::error::{FileErrorType, ProcessFileError};
use lra_calculator_rust::processor::{
    analyze_results, collect_outcomes, process_single_file, ProcessingStats,
};

fn lra(tenths: i64) -> f64 {
    tenths as f64 / 10.0
}

fn tenths(value: f64) -> i64 {
    (value * 10.0).round() as i64
}

#[test]
fn test_processing_stats_creation() {
    let error_messages = vec!["错误1".to_string(), "错误2".to_string()];
    let stats = ProcessingStats {
        successful: 10,
        failed: 2,
        error_messages: error_messages.clone(),
    };
    assert_eq!(stats.successful, 10);
    assert_eq!(stats.failed, 2);
    assert_eq!(stats.error_messages.len(), 2);
    assert_eq!(stats.error_messages, error_messages);
}

#[test]
fn test_processing_stats_methods() {
    let stats = ProcessingStats::new(
        15,
        3,
        vec!["错误1".to_string(), "错误2".to_string(), "错误3".to_string()],
    );
    assert_eq!(stats.total(), 18);
    let expected_rate = (15.0 / 18.0) * 100.0;
    assert!((stats.success_rate() as f64 / 100.0 - expected_rate).abs() < 0.01);
    assert!(stats.has_failures());
    let no_failure_stats = ProcessingStats::new(10, 0, vec![]);
    assert!(!no_failure_stats.has_failures());
    assert_eq!(no_failure_stats.success_rate() as f64 / 100.0, 100.0);
    let empty_stats = ProcessingStats::new(0, 0, vec![]);
    assert_eq!(empty_stats.total(), 0);
    assert_eq!(empty_stats.success_rate() as f64 / 100.0, 0.0);
    assert!(!empty_stats.has_failures());
}

#[test]
fn success_rate_in_hundredths_of_a_percent() {
    assert_eq!(ProcessingStats::new(15, 3, vec![]).success_rate(), 8333);
    assert_eq!(ProcessingStats::new(1, 2, vec![]).success_rate(), 3333);
    assert_eq!(ProcessingStats::new(2, 1, vec![]).success_rate(), 6666);
}

#[test]
fn test_analyze_results() {
    let test_results = vec![
        Ok(("file1.mp3".to_string(), tenths(12.5))),
        Ok(("file2.wav".to_string(), tenths(8.3))),
        Err(ProcessFileError::ffmpeg_error("file3.flac".to_string(), "FFmpeg 执行失败".to_string())),
        Ok(("file4.m4a".to_string(), tenths(15.7))),
        Err(ProcessFileError::lra_parsing_error("file5.mp3".to_string(), "LRA 解析失败".to_string())),
        Ok(("file6.ogg".to_string(), tenths(9.1))),
    ];
    let (stats, successful_results) = analyze_results(test_results);
    assert_eq!(stats.successful, 4);
    assert_eq!(stats.failed, 2);
    assert_eq!(stats.error_messages.len(), 2);
    assert_eq!(successful_results.len(), 4);
    assert_eq!(successful_results[0], ("file1.mp3".to_string(), tenths(12.5)));
    assert_eq!(successful_results[1], ("file2.wav".to_string(), tenths(8.3)));
    assert_eq!(successful_results[2], ("file4.m4a".to_string(), tenths(15.7)));
    assert_eq!(successful_results[3], ("file6.ogg".to_string(), tenths(9.1)));
    assert!(stats.error_messages[0].contains("file3.flac"));
    assert!(stats.error_messages[0].contains("FFmpeg 执行失败"));
    assert!(stats.error_messages[1].contains("file5.mp3"));
    assert!(stats.error_messages[1].contains("LRA 解析失败"));
    assert_eq!(stats.error_messages[0], "file3.flac [FFmpeg 执行失败]: FFmpeg 执行失败");
    assert_eq!(stats.error_messages[1], "file5.mp3 [LRA 值解析失败]: LRA 解析失败");
}

#[test]
fn test_analyze_empty_results() {
    let empty_results = vec![];
    let (stats, successful_results) = analyze_results(empty_results);
    assert_eq!(stats.successful, 0);
    assert_eq!(stats.failed, 0);
    assert!(stats.error_messages.is_empty());
    assert!(successful_results.is_empty());
}

#[test]
fn test_analyze_only_successful_results() {
    let success_only_results = vec![
        Ok(("file1.mp3".to_string(), tenths(12.5))),
        Ok(("file2.wav".to_string(), tenths(8.3))),
        Ok(("file3.flac".to_string(), tenths(15.7))),
    ];
    let (stats, successful_results) = analyze_results(success_only_results);
    assert_eq!(stats.successful, 3);
    assert_eq!(stats.failed, 0);
    assert!(stats.error_messages.is_empty());
    assert_eq!(successful_results.len(), 3);
}

#[test]
fn test_analyze_only_failed_results() {
    let failure_only_results = vec![
        Err(ProcessFileError::ffmpeg_error("file1.mp3".to_string(), "错误1".to_string())),
        Err(ProcessFileError::lra_parsing_error("file2.wav".to_string(), "错误2".to_string())),
    ];
    let (stats, successful_results) = analyze_results(failure_only_results);
    assert_eq!(stats.successful, 0);
    assert_eq!(stats.failed, 2);
    assert_eq!(stats.error_messages.len(), 2);
    assert!(successful_results.is_empty());
}

#[test]
fn test_result_analysis() {
    let mock_results = vec![
        Ok(("file1.mp3".to_string(), tenths(12.5))),
        Ok(("file2.wav".to_string(), tenths(8.3))),
        Err(ProcessFileError::ffmpeg_error("file3.flac".to_string(), "模拟的 FFmpeg 错误".to_string())),
        Ok(("file4.m4a".to_string(), tenths(15.7))),
        Err(ProcessFileError::lra_parsing_error("file5.mp3".to_string(), "模拟的解析错误".to_string())),
    ];
    let (stats, successful_results) = analyze_results(mock_results);
    assert_eq!(stats.successful, 3);
    assert_eq!(stats.failed, 2);
    assert_eq!(stats.error_messages.len(), 2);
    assert_eq!(successful_results.len(), 3);
    assert_eq!(successful_results[0].0, "file1.mp3");
    assert_eq!(lra(successful_results[0].1), 12.5);
    assert!(stats.error_messages.iter().any(|msg| msg.contains("file3.flac")));
    assert!(stats.error_messages.iter().any(|msg| msg.contains("file5.mp3")));
}

#[test]
fn test_process_empty_file_list() {
    let empty_files: Vec<(String, String)> = vec![];
    let runs: Vec<AnalyzerRun> = vec![];
    let results = collect_outcomes(&empty_files, &runs);
    assert!(results.is_empty());
}

#[test]
fn test_process_single_file_error_classification() {
    let ffmpeg_error = ProcessFileError::ffmpeg_error("test.mp3".to_string(), "ffmpeg 命令执行失败".to_string());
    let lra_error = ProcessFileError::lra_parsing_error("test.wav".to_string(), "无法解析 LRA 值".to_string());
    let other_error = ProcessFileError::new(
        "test.flac".to_string(),
        "其他类型的错误".to_string(),
        FileErrorType::Other,
    );
    assert_eq!(ffmpeg_error.error_type_description(), "FFmpeg 执行失败");
    assert_eq!(lra_error.error_type_description(), "LRA 值解析失败");
    assert_eq!(other_error.error_type_description(), "其他错误");
}

#[test]
fn file_errors_read_as_text() {
    let e = ProcessFileError::file_access_error("a.mp3".to_string(), "denied".to_string());
    assert_eq!(e.error_type, FileErrorType::FileAccess);
    assert_eq!(e.to_string(), "文件 'a.mp3' 处理失败 [文件访问失败]: denied");
}

fn ok_run(value: &str) -> AnalyzerRun {
    AnalyzerRun::Exited { success: true, code: Some(0), stderr: format!("LRA: {} LU\n", value) }
}

fn files(n: usize) -> Vec<(String, String)> {
    (0..n).map(|i| (format!("/m/f{}.mp3", i), format!("f{}.mp3", i))).collect()
}

#[test]
fn one_outcome_per_file() {
    let runs = vec![ok_run("1.0"), AnalyzerRun::SpawnFailed { reason: "gone".to_string() }, ok_run("3.5")];
    let outcomes = collect_outcomes(&files(3), &runs);
    assert_eq!(outcomes.len(), 3);
}

#[test]
fn one_failure_leaves_other_outcomes_alone() {
    let good = vec![ok_run("1.0"), ok_run("2.0"), ok_run("3.5")];
    let with_failure = vec![
        ok_run("1.0"),
        AnalyzerRun::Exited { success: false, code: Some(1), stderr: "boom".to_string() },
        ok_run("3.5"),
    ];
    let a = collect_outcomes(&files(3), &good);
    let b = collect_outcomes(&files(3), &with_failure);
    assert_eq!(a[0].as_ref().unwrap(), b[0].as_ref().unwrap());
    assert_eq!(a[2].as_ref().unwrap(), b[2].as_ref().unwrap());
    assert_eq!(b[0].as_ref().unwrap(), &("f0.mp3".to_string(), 10));
    assert_eq!(b[2].as_ref().unwrap(), &("f2.mp3".to_string(), 35));
    let e = b[1].as_ref().unwrap_err();
    assert_eq!(e.file_path, "f1.mp3");
    assert_eq!(e.error_type, FileErrorType::FfmpegExecution);
    assert_eq!(e.message, "分析失败: FFmpeg 分析文件 /m/f1.mp3 失败 (退出码: 1). 错误信息: boom");
}

#[test]
fn single_file_outcome_keeps_the_category() {
    let a = process_single_file("x.mp3", Ok(42));
    assert_eq!(a.unwrap(), ("x.mp3".to_string(), 42));
    let runs = vec![ok_run("abc")];
    let b = collect_outcomes(&files(1), &runs);
    assert!(b[0].is_ok() == false || b[0].as_ref().unwrap().1 >= 0);
    let runs = vec![AnalyzerRun::Exited { success: true, code: Some(0), stderr: "nothing".to_string() }];
    let c = collect_outcomes(&files(1), &runs);
    assert_eq!(c[0].as_ref().unwrap_err().error_type, FileErrorType::LraParsingFailed);
}

#[test]
fn empty_directory_gives_header_only_file_and_no_failures() {
    let walked: Vec<String> = vec![];
    let selected = lra_calculator_rust::select_audio_files("/music", None, &walked);
    assert!(selected.is_empty());
    let files: Vec<(String, String)> = vec![];
    let runs: Vec<AnalyzerRun> = vec![];
    let (stats, records) = analyze_results(collect_outcomes(&files, &runs));
    assert_eq!(stats.failed, 0);
    assert_eq!(stats.success_rate(), 0);
    let content = lra_calculator_rust::utils::render_results("header", &records);
    assert_eq!(content, "header\n");
}

#[test]
fn failures_are_listed_as_path_kind_message() {
    let results = vec![Err(ProcessFileError::new(
        "dir/a.ogg".to_string(),
        "boom".to_string(),
        FileErrorType::Other,
    ))];
    let (stats, _) = analyze_results(results);
    assert_eq!(stats.error_messages, vec!["dir/a.ogg [其他错误]: boom".to_string()]);
}
