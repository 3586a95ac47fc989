use chrono::Datelike;
use clicky::logs::{
    cleanup_targets, expired_log_files, format_log_line, level_enabled, log_file_name, parse_log_file_name,
    today_log_file_names, LogLevel,
};

fn day(y: i32, m: u32, d: u32) -> i32 {
    chrono::NaiveDate::from_ymd_opt(y, m, d).unwrap().num_days_from_ce()
}

#[test]
fn levels_and_file_names() {
    assert!(level_enabled(LogLevel::Info));
    assert!(level_enabled(LogLevel::Warn));
    assert!(level_enabled(LogLevel::Error));
    assert!(!level_enabled(LogLevel::Debug));
    assert!(!level_enabled(LogLevel::Trace));
    let date = "2024-03-09".to_string();
    assert_eq!(log_file_name(&date, LogLevel::Warn), Ok("2024-03-09-warn.log".to_string()));
    assert_eq!(log_file_name(&date, LogLevel::Debug), Err("unsupported log level".to_string()));
    assert_eq!(
        today_log_file_names(&date),
        vec!["2024-03-09-info.log".to_string(), "2024-03-09-warn.log".to_string(), "2024-03-09-error.log".to_string()]
    );
}

#[test]
fn log_lines() {
    let r = format_log_line(
        &"2024-03-09".to_string(),
        &"2024-03-09 10:11:12.345".to_string(),
        LogLevel::Error,
        &"clicky::app".to_string(),
        &"boom".to_string(),
    )
    .expect("line");
    assert_eq!(r.0, "2024-03-09-error.log");
    assert_eq!(r.1, "[2024-03-09 10:11:12.345][ERROR][clicky::app] boom\n");
    let r = format_log_line(&"d".to_string(), &"t".to_string(), LogLevel::Trace, &"x".to_string(), &"m".to_string());
    assert_eq!(r.err(), Some("unsupported log level".to_string()));
}

#[test]
fn parses_log_file_names() {
    assert_eq!(parse_log_file_name("2024-03-09-info.log"), Some((day(2024, 3, 9), "info".to_string())));
    assert_eq!(parse_log_file_name("2024-12-31-error.log"), Some((day(2024, 12, 31), "error".to_string())));
    assert_eq!(parse_log_file_name("2024-03-09-debug.log"), None);
    assert_eq!(parse_log_file_name("2024-03-09-info.txt"), None);
    assert_eq!(parse_log_file_name("2024-02-30-info.log"), None);
    assert_eq!(parse_log_file_name("noinfo.log"), None);
    assert_eq!(parse_log_file_name("x-info.log"), None);
}

#[test]
fn expired_files_are_older_than_the_cutoff() {
    let names = vec![
        "2024-01-01-info.log".to_string(),
        "2024-01-10-warn.log".to_string(),
        "notes.txt".to_string(),
        "2023-12-31-error.log".to_string(),
    ];
    let removed = expired_log_files(&names, day(2024, 1, 10));
    assert_eq!(removed, vec!["2024-01-01-info.log".to_string(), "2023-12-31-error.log".to_string()]);
}

#[test]
fn cleanup_cutoff_and_negative_retention() {
    let names = vec!["2024-01-01-info.log".to_string(), "2024-01-05-info.log".to_string()];
    let today = day(2024, 1, 10);
    assert_eq!(cleanup_targets(&names, today, 5), Ok(vec!["2024-01-01-info.log".to_string()]));
    assert_eq!(cleanup_targets(&names, today, 0), Ok(names.clone()));
    assert_eq!(cleanup_targets(&names, today, -1), Err("log retention days cannot be negative".to_string()));
}

#[test]
fn chrono_date_range_in_day_numbers() {
    assert_eq!(chrono::NaiveDate::MIN.num_days_from_ce(), -95746129);
    assert_eq!(chrono::NaiveDate::MAX.num_days_from_ce(), 95745399);
}

#[test]
fn cleanup_keeps_files_within_retention() {
    let today = day(2024, 3, 1);
    let names = vec![
        "2024-02-29-info.log".to_string(),
        "2024-01-31-warn.log".to_string(),
        "2024-01-30-error.log".to_string(),
    ];
    assert_eq!(cleanup_targets(&names, today, 30), Ok(vec!["2024-01-30-error.log".to_string()]));
}
