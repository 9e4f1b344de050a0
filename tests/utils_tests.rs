use lra_calculator_rust::utils::{
    parse_result_line, parse_results_text, render_results, sort_entries_by_lra, sort_results_text,
};

const HEADER: &str = "文件路径 (相对) - LRA 数值 (LU)";

fn lra(tenths: i64) -> f64 {
    tenths as f64 / 10.0
}

#[test]
fn test_parse_result_line() {
    let normal_line = "music/song.mp3 - 12.5";
    let result = parse_result_line(normal_line);
    assert!(result.is_ok());
    let (path, value) = result.unwrap();
    assert_eq!(path, "music/song.mp3");
    assert_eq!(lra(value), 12.5);
    let spaced_line = "  music/song with spaces.wav  -  8.3  ";
    let result = parse_result_line(spaced_line);
    assert!(result.is_ok());
    let (path, value) = result.unwrap();
    assert_eq!(path, "  music/song with spaces.wav ");
    assert_eq!(lra(value), 8.3);
    let invalid_line = "invalid format";
    let result = parse_result_line(invalid_line);
    assert!(result.is_err());
    assert!(result.unwrap_err().contains("行格式不正确"));
    let invalid_lra = "music/song.mp3 - not_a_number";
    let result = parse_result_line(invalid_lra);
    assert!(result.is_err());
    assert!(result.unwrap_err().contains("无法解析 LRA 值"));
    let negative_lra = "music/song.mp3 - -5.0";
    let result = parse_result_line(negative_lra);
    assert!(result.is_err());
    assert!(result.unwrap_err().contains("超出合理范围"));
    let infinite_lra = "music/song.mp3 - inf";
    let result = parse_result_line(infinite_lra);
    assert!(result.is_err());
}

#[test]
fn record_line_scenarios() {
    assert_eq!(parse_result_line("music/song.mp3 - 12.5"), Ok(("music/song.mp3".to_string(), 125)));
    assert!(parse_result_line("x - -5.0").is_err());
    assert!(parse_result_line("no separator").is_err());
}

#[test]
fn record_line_errors() {
    assert_eq!(
        parse_result_line("no separator"),
        Err("行格式不正确: 'no separator' (期望格式: '文件路径 - LRA值')".to_string())
    );
    assert_eq!(
        parse_result_line("a - x1"),
        Err("无法解析 LRA 值 'x1': invalid float literal".to_string())
    );
    assert_eq!(
        parse_result_line("a -5"),
        Err("行格式不正确: 'a -5' (期望格式: '文件路径 - LRA值')".to_string())
    );
    assert_eq!(
        parse_result_line("a - \t"),
        Err("无法解析 LRA 值 '': cannot parse float from empty string".to_string())
    );
    assert_eq!(
        parse_result_line("a - NaN"),
        Err("LRA 值 'NaN' 超出合理范围 (应为非负有限数)".to_string())
    );
    assert_eq!(
        parse_result_line("a - 99999999999999999999"),
        Err("LRA 值 '99999999999999999999' 超出合理范围 (应为非负有限数)".to_string())
    );
}

#[test]
fn record_line_values() {
    assert_eq!(parse_result_line("a - b - 3.04").unwrap(), ("a - b".to_string(), 30));
    assert_eq!(parse_result_line("a - 3.05").unwrap().1, 31);
    assert_eq!(parse_result_line("a - .5").unwrap().1, 5);
    assert_eq!(parse_result_line("a - 7.").unwrap().1, 70);
    assert_eq!(parse_result_line("a - +2").unwrap().1, 20);
    assert_eq!(parse_result_line("a - -0.0").unwrap().1, 0);
    assert!(parse_result_line("a - -0.04").is_err());
}

#[test]
fn test_sort_entries_by_lra() {
    let entries = vec![
        ("file1.mp3".to_string(), 85),
        ("file2.wav".to_string(), 152),
        ("file3.flac".to_string(), 121),
        ("file4.m4a".to_string(), 152),
        ("file5.ogg".to_string(), 53),
    ];
    let sorted = sort_entries_by_lra(entries);
    assert_eq!(lra(sorted[0].1), 15.2);
    assert_eq!(lra(sorted[1].1), 15.2);
    assert_eq!(lra(sorted[2].1), 12.1);
    assert_eq!(lra(sorted[3].1), 8.5);
    assert_eq!(lra(sorted[4].1), 5.3);
    assert!(sorted[0].0 < sorted[1].0);
}

#[test]
fn sort_orders_by_value_then_path() {
    let entries = vec![
        ("b.mp3".to_string(), 85),
        ("c.flac".to_string(), 152),
        ("a.wav".to_string(), 152),
        ("a.wav".to_string(), 152),
        ("Z.ogg".to_string(), 152),
    ];
    let sorted = sort_entries_by_lra(entries);
    let names: Vec<&str> = sorted.iter().map(|e| e.0.as_str()).collect();
    assert_eq!(names, vec!["Z.ogg", "a.wav", "a.wav", "c.flac", "b.mp3"]);
    assert!(sort_entries_by_lra(vec![]).is_empty());
}

#[test]
fn test_write_results_file() {
    let entries = vec![
        ("file1.mp3".to_string(), 125),
        ("file2.wav".to_string(), 83),
        ("file3.flac".to_string(), 157),
    ];
    let content = render_results(HEADER, &entries);
    let lines: Vec<&str> = content.lines().collect();
    assert_eq!(lines.len(), 4);
    assert_eq!(lines[0], HEADER);
    assert_eq!(lines[1], "file1.mp3 - 12.5");
    assert_eq!(lines[2], "file2.wav - 8.3");
    assert_eq!(lines[3], "file3.flac - 15.7");
}

#[test]
fn written_values_have_one_decimal() {
    let entries = vec![("a".to_string(), 0), ("b".to_string(), 1234), ("c".to_string(), -5)];
    assert_eq!(render_results("h", &entries), "h\na - 0.0\nb - 123.4\nc - -0.5\n");
}

#[test]
fn test_read_and_parse_results_file() {
    let content = "文件路径 (相对) - LRA 数值 (LU)
file1.mp3 - 12.5
file2.wav - 8.3
file3.flac - 15.7
invalid line format
file4.m4a - not_a_number
file5.ogg - 9.1";
    let (entries, warnings) = parse_results_text(content);
    assert_eq!(entries.len(), 4);
    assert_eq!(entries[0], ("file1.mp3".to_string(), 125));
    assert_eq!(entries[1], ("file2.wav".to_string(), 83));
    assert_eq!(entries[2], ("file3.flac".to_string(), 157));
    assert_eq!(entries[3], ("file5.ogg".to_string(), 91));
    assert_eq!(warnings.len(), 2);
    assert_eq!(warnings[0].0, 5);
    assert_eq!(warnings[1].0, 6);
}

#[test]
fn blank_lines_and_carriage_returns_are_ignored() {
    let content = "header\r\n\r\n a - 1.0\r\n   \nb - 2.0";
    let (entries, warnings) = parse_results_text(content);
    assert_eq!(entries, vec![(" a".to_string(), 10), ("b".to_string(), 20)]);
    assert!(warnings.is_empty());
    let (none, _) = parse_results_text("");
    assert!(none.is_empty());
}

#[test]
fn test_sort_lra_results_file() {
    let content = "文件路径 (相对) - LRA 数值 (LU)
file1.mp3 - 8.5
file2.wav - 15.2
file3.flac - 12.1
file4.m4a - 20.0
file5.ogg - 5.3";
    let (sorted_content, _) = sort_results_text(content, HEADER);
    let lines: Vec<&str> = sorted_content.lines().collect();
    assert_eq!(lines.len(), 6);
    assert_eq!(lines[0], HEADER);
    assert!(lines[1].contains("file4.m4a - 20.0"));
    assert!(lines[2].contains("file2.wav - 15.2"));
    assert!(lines[3].contains("file3.flac - 12.1"));
    assert!(lines[4].contains("file1.mp3 - 8.5"));
    assert!(lines[5].contains("file5.ogg - 5.3"));
}

#[test]
fn test_sort_empty_results_file() {
    let (content, warnings) = sort_results_text(HEADER, HEADER);
    assert_eq!(content.trim(), HEADER);
    assert!(warnings.is_empty());
    let (empty, _) = sort_results_text("", HEADER);
    assert_eq!(empty, format!("{}\n", HEADER));
}

#[test]
fn ties_sort_by_path() {
    let content = format!("{}\nb.mp3 - 8.5\na.wav - 15.2\nc.flac - 15.2\n", HEADER);
    let (sorted, _) = sort_results_text(&content, HEADER);
    assert_eq!(sorted, format!("{}\na.wav - 15.2\nc.flac - 15.2\nb.mp3 - 8.5\n", HEADER));
}

#[test]
fn sorting_twice_changes_nothing() {
    let content = format!("{}\nz - 1.0\nm - 3.3\na - 3.3\nbad line\n\nq - 12.0\n", HEADER);
    let (once, _) = sort_results_text(&content, HEADER);
    let (twice, warnings) = sort_results_text(&once, HEADER);
    assert_eq!(once, twice);
    assert!(warnings.is_empty());
    assert_eq!(once, format!("{}\nq - 12.0\na - 3.3\nm - 3.3\nz - 1.0\n", HEADER));
}

#[test]
fn written_records_read_back() {
    let entries = vec![
        ("dir/a - b.mp3".to_string(), 0),
        ("c.flac".to_string(), 999),
        (" spaced ".to_string(), 105),
    ];
    let content = render_results(HEADER, &entries);
    let (read, warnings) = parse_results_text(&content);
    assert_eq!(read, entries);
    assert!(warnings.is_empty());
}

#[test]
fn empty_scan_gives_header_only_file() {
    assert_eq!(render_results(HEADER, &vec![]), format!("{}\n", HEADER));
}

#[test]
fn record_values_with_exponents() {
    assert_eq!(parse_result_line("a - 1.5e1").unwrap().1, 150);
    assert_eq!(parse_result_line("a - 15E-1").unwrap().1, 15);
    assert_eq!(parse_result_line("a - 2.5e-2").unwrap().1, 0);
    assert_eq!(parse_result_line("a - 5e-2").unwrap().1, 1);
    assert_eq!(parse_result_line("a - 1e-999999999999999999999").unwrap().1, 0);
    assert_eq!(parse_result_line("a - 0e999999999999999999999").unwrap().1, 0);
    assert_eq!(
        parse_result_line("a - 1e400"),
        Err("LRA 值 '1e400' 超出合理范围 (应为非负有限数)".to_string())
    );
    assert_eq!(
        parse_result_line("a - 1e"),
        Err("无法解析 LRA 值 '1e': invalid float literal".to_string())
    );
    assert!(parse_result_line("a - e5").is_err());
    assert!(parse_result_line("a - 1e+").is_err());
}

#[test]
fn sorted_file_reads_back_sorted() {
    let content = format!("{}\nb - 1.0\n\nc - 9.9\nnot a record\na - 9.9", HEADER);
    let (sorted, warnings) = sort_results_text(&content, HEADER);
    assert_eq!(warnings.len(), 1);
    let (read, _) = parse_results_text(&sorted);
    assert_eq!(read, vec![("a".to_string(), 99), ("c".to_string(), 99), ("b".to_string(), 10)]);
}
