use lra_calculator_rust::audio::{
    check_environment, check_ffmpeg_availability, extract_ffmpeg_version, extract_file_extension,
    format_statistics,
    generate_display_path, is_supported_audio_format, lra_from_capture, lra_from_run,
    parse_lra_from_ffmpeg_output, select_audio_files, version_note, AnalyzerRun, VersionProbe,
    SUPPORTED_EXTENSIONS,
};
use lra_calculator_rust::error::{AppError, FileErrorType};

fn lra(tenths: i64) -> f64 {
    tenths as f64 / 10.0
}

#[test]
fn test_supported_extensions() {
    assert!(SUPPORTED_EXTENSIONS.contains(&"mp3"));
    assert!(SUPPORTED_EXTENSIONS.contains(&"wav"));
    assert!(SUPPORTED_EXTENSIONS.contains(&"flac"));
    assert!(SUPPORTED_EXTENSIONS.contains(&"m4a"));
    assert!(SUPPORTED_EXTENSIONS.contains(&"aac"));
    assert!(!SUPPORTED_EXTENSIONS.contains(&"txt"));
    assert!(!SUPPORTED_EXTENSIONS.contains(&"doc"));
    assert!(!SUPPORTED_EXTENSIONS.contains(&"pdf"));
    assert_eq!(SUPPORTED_EXTENSIONS.len(), 10);
}

#[test]
fn test_extract_file_extension() {
    assert_eq!(extract_file_extension("test.mp3"), Some("mp3".to_string()));
    assert_eq!(extract_file_extension("music.FLAC"), Some("flac".to_string()));
    assert_eq!(extract_file_extension("filename"), None);
    assert_eq!(extract_file_extension(".hidden"), None);
    assert_eq!(extract_file_extension("file.name.mp3"), Some("mp3".to_string()));
}

#[test]
fn extension_of_paths_with_directories() {
    assert_eq!(extract_file_extension("/music/a.b/track.WaV"), Some("wav".to_string()));
    assert_eq!(extract_file_extension("/music/a.b/track"), None);
    assert_eq!(extract_file_extension("dir/.."), None);
    assert_eq!(extract_file_extension("dir/..hidden"), Some("hidden".to_string()));
    assert_eq!(extract_file_extension("dir/name."), Some("".to_string()));
    assert_eq!(extract_file_extension("dir/song.mp3/"), Some("mp3".to_string()));
    assert_eq!(extract_file_extension(""), None);
}

#[test]
fn test_is_supported_audio_format() {
    assert!(is_supported_audio_format("mp3"));
    assert!(is_supported_audio_format("wav"));
    assert!(is_supported_audio_format("flac"));
    assert!(!is_supported_audio_format("txt"));
    assert!(!is_supported_audio_format("doc"));
    assert!(!is_supported_audio_format(""));
}

#[test]
fn every_listed_format_is_supported() {
    for ext in SUPPORTED_EXTENSIONS.iter() {
        assert!(is_supported_audio_format(ext));
    }
    assert!(!is_supported_audio_format("MP3"));
    assert!(!is_supported_audio_format("mp"));
}

#[test]
fn test_generate_display_path() {
    let base_path = "/music/library";
    let file_path = "/music/library/artist/album/song.mp3";
    let display_path = generate_display_path(file_path, base_path);
    assert_eq!(display_path, "artist/album/song.mp3");
    let unrelated_path = "/other/path/file.mp3";
    let display_path2 = generate_display_path(unrelated_path, base_path);
    assert_eq!(display_path2, "/other/path/file.mp3");
}

#[test]
fn display_path_edge_cases() {
    assert_eq!(generate_display_path("/music/x.mp3", "/music/"), "x.mp3");
    assert_eq!(generate_display_path("/music/libraryX/a.mp3", "/music/library"), "/music/libraryX/a.mp3");
    assert_eq!(generate_display_path("/music", "/music"), "");
}

#[test]
fn extension_filter_keeps_audio_in_any_case() {
    let paths = vec!["/d/x.mp3".to_string(), "/d/x.txt".to_string(), "/d/x.FLAC".to_string()];
    let found = select_audio_files("/d", None, &paths);
    assert_eq!(found.len(), 2);
    assert_eq!(found[0], (0, "x.mp3".to_string()));
    assert_eq!(found[1], (2, "x.FLAC".to_string()));
}

#[test]
fn selection_skips_the_excluded_path() {
    let paths = vec![
        "/d/audio1.mp3".to_string(),
        "/d/audio2.wav".to_string(),
        "/d/exclude.mp3".to_string(),
        "/d/lra_results.txt".to_string(),
        "/d/sub/song.ogg".to_string(),
    ];
    assert_eq!(select_audio_files("/d", None, &paths).len(), 4);
    let found = select_audio_files("/d", Some("/d/exclude.mp3"), &paths);
    assert_eq!(
        found,
        vec![(0, "audio1.mp3".to_string()), (1, "audio2.wav".to_string()), (4, "sub/song.ogg".to_string())]
    );
}

#[test]
fn empty_scan_selects_nothing() {
    let paths: Vec<String> = vec![];
    assert!(select_audio_files("/empty", None, &paths).is_empty());
}

#[test]
fn test_extract_ffmpeg_version() {
    let version_output = b"ffmpeg version 4.4.2 Copyright (c) 2000-2021 the FFmpeg developers\n";
    let version_info = extract_ffmpeg_version(version_output);
    assert_eq!(version_info, " (版本: 4.4.2)");
    let invalid_output = b"some other output\n";
    let version_info2 = extract_ffmpeg_version(invalid_output);
    assert_eq!(version_info2, "");
    let empty_output = b"";
    let version_info3 = extract_ffmpeg_version(empty_output);
    assert_eq!(version_info3, "");
}

#[test]
fn version_note_needs_a_third_word() {
    assert_eq!(version_note("ffmpeg version"), "");
    assert_eq!(version_note("ffmpeg version\t n6.1 \r\nnext"), " (版本: n6.1)");
    assert_eq!(version_note("second line\nffmpeg version 1.0"), "");
    assert_eq!(extract_ffmpeg_version(b"ffmpeg version \xff2 x"), " (版本: \u{fffd}2)");
}

#[test]
fn test_parse_lra_from_ffmpeg_output() {
    let test_path = "test.mp3";
    let normal_output = r#"
[Parsed_ebur128_0 @ 0x7f8b8c000000] Summary:
[Parsed_ebur128_0 @ 0x7f8b8c000000] Integrated loudness: -23.0 LUFS
[Parsed_ebur128_0 @ 0x7f8b8c000000] LRA: 12.3 LU
[Parsed_ebur128_0 @ 0x7f8b8c000000] LRA low: -33.2 LUFS
"#;
    let result = parse_lra_from_ffmpeg_output(normal_output, test_path);
    assert!(result.is_ok());
    assert_eq!(lra(result.unwrap()), 12.3);
    let no_lra_output = r#"
[Parsed_ebur128_0 @ 0x7f8b8c000000] Summary:
[Parsed_ebur128_0 @ 0x7f8b8c000000] Integrated loudness: -23.0 LUFS
"#;
    let result2 = parse_lra_from_ffmpeg_output(no_lra_output, test_path);
    assert!(result2.is_err());
    let multiple_lra_output = r#"
[Parsed_ebur128_0 @ 0x7f8b8c000000] LRA: 10.5 LU
[Parsed_ebur128_0 @ 0x7f8b8c000000] Summary:
[Parsed_ebur128_0 @ 0x7f8b8c000000] LRA: 15.7 LU
"#;
    let result3 = parse_lra_from_ffmpeg_output(multiple_lra_output, test_path);
    assert!(result3.is_ok());
    assert_eq!(lra(result3.unwrap()), 15.7);
}

#[test]
fn last_lra_occurrence_wins() {
    let out = "LRA: 10.5 LU\nLRA: 15.7 LU\n";
    assert_eq!(parse_lra_from_ffmpeg_output(out, "a.mp3").unwrap(), 157);
}

#[test]
fn missing_lra_is_a_parsing_error_with_excerpt() {
    let out = "\nline one\n  \nline two\nthree\nfour\nfive\nsix\n";
    let e = parse_lra_from_ffmpeg_output(out, "/m/a.mp3").unwrap_err();
    assert_eq!(e.kind, FileErrorType::LraParsingFailed);
    assert!(e.message.starts_with("无法从 FFmpeg 输出中解析文件 /m/a.mp3 的 LRA 值。"));
    assert!(e.message.ends_with("FFmpeg 输出摘要: line one; line two; three; four; five"));
}

#[test]
fn captured_values_are_read_to_tenths() {
    assert_eq!(lra_from_capture(Some("12.34"), "", "f").unwrap(), 123);
    assert_eq!(lra_from_capture(Some("12.35"), "", "f").unwrap(), 124);
    assert_eq!(lra_from_capture(Some("-5.0"), "", "f").unwrap(), -50);
    assert_eq!(lra_from_capture(Some("7"), "", "f").unwrap(), 70);
    let e = lra_from_capture(Some("1.2.3"), "", "f").unwrap_err();
    assert_eq!(e.kind, FileErrorType::LraParsingFailed);
    assert_eq!(e.message, "解析 LRA 值 '1.2.3' 失败 (来自文件 f): invalid float literal");
    let e = lra_from_capture(Some("-"), "", "f").unwrap_err();
    assert_eq!(e.message, "解析 LRA 值 '-' 失败 (来自文件 f): invalid float literal");
    let e = lra_from_capture(None, "x", "f").unwrap_err();
    assert_eq!(e.kind, FileErrorType::LraParsingFailed);
}

#[test]
fn analyzer_runs_are_classified() {
    let spawn = AnalyzerRun::SpawnFailed { reason: "No such file or directory".to_string() };
    let e = lra_from_run("/m/a.mp3", &spawn).unwrap_err();
    assert_eq!(e.kind, FileErrorType::FfmpegExecution);
    assert_eq!(
        e.message,
        "执行 FFmpeg 命令失败 (文件: /m/a.mp3): No such file or directory. 请确保 FFmpeg 已正确安装。"
    );
    let failed = AnalyzerRun::Exited {
        success: false,
        code: Some(1),
        stderr: "a\n\nb\nc\nd\n".to_string(),
    };
    let e = lra_from_run("/m/a.mp3", &failed).unwrap_err();
    assert_eq!(e.kind, FileErrorType::FfmpegExecution);
    assert_eq!(e.message, "FFmpeg 分析文件 /m/a.mp3 失败 (退出码: 1). 错误信息: a; b; c");
    let killed = AnalyzerRun::Exited { success: false, code: None, stderr: String::new() };
    let e = lra_from_run("x", &killed).unwrap_err();
    assert_eq!(e.message, "FFmpeg 分析文件 x 失败 (退出码: -1). 错误信息: ");
    let ok = AnalyzerRun::Exited {
        success: true,
        code: Some(0),
        stderr: "[x] LRA: 6.4 LU\n".to_string(),
    };
    assert_eq!(lra_from_run("x", &ok).unwrap(), 64);
}

#[test]
fn test_environment_check() {
    match check_environment(&VersionProbe::SpawnFailed) {
        Ok(()) => println!("✅ 环境检查通过"),
        Err(e) => println!("⚠️ 环境检查失败: {} (这在没有 FFmpeg 的环境中是正常的)", e.to_string()),
    }
    let probe = VersionProbe::Exited { success: true, stdout: b"ffmpeg version 6.0 x\n".to_vec() };
    assert!(check_environment(&probe).is_ok());
}

#[test]
fn availability_probe_outcomes() {
    let probe = VersionProbe::Exited { success: true, stdout: b"ffmpeg version 6.0 x\n".to_vec() };
    assert_eq!(check_ffmpeg_availability(&probe).unwrap(), " (版本: 6.0)");
    let broken = VersionProbe::Exited { success: false, stdout: vec![] };
    match check_ffmpeg_availability(&broken) {
        Err(AppError::Ffmpeg(m)) => assert!(m.starts_with("FFmpeg 存在但无法正常运行")),
        _ => panic!("expected an analyzer error"),
    }
    match check_environment(&VersionProbe::SpawnFailed) {
        Err(AppError::Ffmpeg(m)) => assert!(m.starts_with("未找到 FFmpeg")),
        _ => panic!("expected an analyzer error"),
    }
}

#[test]
fn formats_are_counted_largest_first() {
    let exts: Vec<String> = ["mp3", "wav", "flac", "wav", "mp3", "wav", "ogg"]
        .iter()
        .map(|s| s.to_string())
        .collect();
    let stats = format_statistics(&exts);
    assert_eq!(
        stats,
        vec![
            ("wav".to_string(), 3),
            ("mp3".to_string(), 2),
            ("flac".to_string(), 1),
            ("ogg".to_string(), 1)
        ]
    );
    assert!(format_statistics(&vec![]).is_empty());
}

#[test]
fn extension_ignores_trailing_current_components() {
    assert_eq!(extract_file_extension("a.mp3/."), Some("mp3".to_string()));
    assert_eq!(extract_file_extension("dir/a.FLAC/./"), Some("flac".to_string()));
    assert_eq!(extract_file_extension("."), None);
    assert_eq!(extract_file_extension("/"), None);
    assert_eq!(extract_file_extension("a/../."), None);
}

#[test]
fn display_path_compares_components() {
    assert_eq!(generate_display_path("/m//lib/x.mp3", "/m/lib"), "x.mp3");
    assert_eq!(generate_display_path("/m/lib//a//b.mp3", "/m/lib"), "a//b.mp3");
    assert_eq!(generate_display_path("/m/lib/./x.mp3", "/m/lib/."), "x.mp3");
    assert_eq!(generate_display_path("./a/x.mp3", "a"), "./a/x.mp3");
    assert_eq!(generate_display_path("./a/x.mp3", "./a"), "x.mp3");
    assert_eq!(generate_display_path("/music", "/music/"), "");
    assert_eq!(generate_display_path("m/lib/x.mp3", "/m/lib"), "m/lib/x.mp3");
}

#[test]
fn last_line_keeps_its_carriage_return() {
    let failed = AnalyzerRun::Exited { success: false, code: Some(2), stderr: "a\r\nb\r".to_string() };
    let e = lra_from_run("x", &failed).unwrap_err();
    assert_eq!(e.message, "FFmpeg 分析文件 x 失败 (退出码: 2). 错误信息: a; b\r");
}
