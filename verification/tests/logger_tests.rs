use sze_rs::logger::{compose_log_line, format_log_line, get_log_level, LogLevel};

#[test]
fn level_names() {
    assert_eq!(get_log_level(LogLevel::Debug), "DEBUG");
    assert_eq!(get_log_level(LogLevel::Info), "INFO");
    assert_eq!(get_log_level(LogLevel::Warn), "WARN");
    assert_eq!(get_log_level(LogLevel::Error), "ERROR");
}

#[test]
fn log_line_layout() {
    assert_eq!(
        format_log_line("2024\u{5e74}01\u{6708}02\u{65e5} 03:04:05", LogLevel::Warn, "hello"),
        "2024\u{5e74}01\u{6708}02\u{65e5} 03:04:05:WARN:hello\n"
    );
    assert_eq!(format_log_line("", LogLevel::Error, ""), ":ERROR:\n");
}

#[test]
fn composed_line_has_a_timestamp() {
    let line = compose_log_line(LogLevel::Info, "started");
    assert!(line.ends_with(":INFO:started\n"));
    let time: Vec<char> = line.strip_suffix(":INFO:started\n").unwrap().chars().collect();
    let n = time.len();
    assert!(n >= 20);
    assert_eq!(time[n - 16], '\u{5e74}');
    assert_eq!(time[n - 13], '\u{6708}');
    assert_eq!(time[n - 10], '\u{65e5}');
    assert_eq!(time[n - 9], ' ');
    assert_eq!(time[n - 6], ':');
    assert_eq!(time[n - 3], ':');
    for i in [n - 15, n - 14, n - 12, n - 11, n - 8, n - 7, n - 5, n - 4, n - 2, n - 1] {
        assert!(time[i].is_ascii_digit());
    }
}
