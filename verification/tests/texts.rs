use process_manager::manager::monitoring::{
    count_lines_with, get_hz, get_num_cores, word_at, RefreshError, Sighting,
};
use process_manager::manager::operations::{OpError, SignalKind};
use process_manager::platform::Platform;
use process_manager::process::{Process, RawRecord};
use process_manager::text::{decimal, digit_str, parse_seconds, push_decimal};

fn with_uptime(seconds: u64) -> Process {
    let raw = RawRecord {
        ppid: 1,
        ruid: 0,
        name: "p".to_string(),
        state: 'S',
        rss_pages: 0,
        nice: 0,
        utime: 0,
        stime: 0,
        starttime: 0,
    };
    Process::from_raw(2, &raw, &Platform::new(100, 1, 4096), seconds * 100)
}

#[test]
fn decimal_numerals() {
    assert_eq!(decimal(0), "0");
    assert_eq!(decimal(7), "7");
    assert_eq!(decimal(10), "10");
    assert_eq!(decimal(1234567890), "1234567890");
    assert_eq!(decimal(u64::MAX), "18446744073709551615");
    assert_eq!(digit_str(3), "3");
    let mut text = String::from("pid ");
    push_decimal(&mut text, 405);
    assert_eq!(text, "pid 405");
}

#[test]
fn uptime_with_hours() {
    assert_eq!(with_uptime(5025).format_uptime(), "1h 23m 45s");
    assert_eq!(with_uptime(3600).format_uptime(), "1h 0m 0s");
}

#[test]
fn uptime_with_minutes() {
    assert_eq!(with_uptime(330).format_uptime(), "5m 30s");
    assert_eq!(with_uptime(3599).format_uptime(), "59m 59s");
}

#[test]
fn uptime_with_seconds_only() {
    assert_eq!(with_uptime(0).format_uptime(), "0s");
    assert_eq!(with_uptime(59).format_uptime(), "59s");
}

#[test]
fn tick_rate_falls_back_to_one_hundred() {
    assert_eq!(get_hz(250), 250);
    assert_eq!(get_hz(1), 1);
    assert_eq!(get_hz(0), 100);
    assert_eq!(get_hz(-1), 100);
    assert_eq!(get_hz(i64::MAX), i64::MAX as u64);
}

#[test]
fn cores_are_the_processor_lines_of_the_cpu_listing() {
    let cpuinfo = b"processor\t: 0\nmodel name\t: x\nprocessor\t: 1\n\nprocessor\t: 2\nflags: processor\n";
    assert_eq!(get_num_cores(Some(&cpuinfo[..]), None), 3);
    let stat = b"cpu  1 2 3\ncpu0 1 2 3\n";
    assert_eq!(get_num_cores(Some(&cpuinfo[..]), Some(&stat[..])), 3);
}

#[test]
fn cores_are_the_numbered_cpu_lines_of_the_statistics() {
    let stat = b"cpu  10 20 30\ncpu0 1 2 3\ncpu1 1 2 3\ncpu2 1 2 3\ncpu3 1 2 3\nintr 5\nctxt cpu9\n";
    assert_eq!(get_num_cores(None, Some(&stat[..])), 4);
}

#[test]
fn cores_fall_back_to_one() {
    assert_eq!(get_num_cores(None, None), 1);
    assert_eq!(get_num_cores(Some(&b"model name: x\n"[..]), None), 1);
    assert_eq!(get_num_cores(Some(&b""[..]), Some(&b"cpu0 1\ncpu1 2\n"[..])), 1);
    assert_eq!(get_num_cores(None, Some(&b"cpu  1 2 3\n"[..])), 1);
}

#[test]
fn words_are_found_where_they_stand() {
    let text = b"ab\ncpu";
    assert!(word_at(&text[..], 3, b"cpu"));
    assert!(!word_at(&text[..], 3, b"cpu "));
    assert!(!word_at(&text[..], 2, b"cpu"));
    assert!(word_at(&text[..], 6, b""));
    assert!(!word_at(&text[..], 7, b""));
    assert_eq!(count_lines_with(&b"cpu\ncpu\nxcpu\ncp"[..], b"cpu"), 2);
    assert_eq!(count_lines_with(&b""[..], b"cpu"), 0);
}

#[test]
fn messages_of_the_errors_without_error_number() {
    assert_eq!(
        OpError::PermissionDenied.message(),
        "Permission denied: Admin privileges required to perform this action."
    );
    assert_eq!(OpError::TreeUnavailable.message(), "Failed to build process tree.");
    assert_eq!(OpError::NotFound { pid: 4242 }.message(), "PID 4242 not found in active processes.");
    assert_eq!(
        OpError::PartialFailure { succeeded: 2, failed: 1 }.message(),
        "Successfully killed 2 processes, but failed to kill 1 descendants."
    );
    assert_eq!(OpError::Unfinished { remaining: 3 }.message(), "3 targets of the batch were not attempted.");
}

#[test]
fn messages_of_refused_calls_name_target_and_reason() {
    let kill = OpError::SignalFailed { pid: 9, signal: SignalKind::Kill, errno: 3 };
    assert_eq!(kill.message_with("gone"), "Failed to send SIGKILL to PID 9: gone");
    let term = OpError::SignalFailed { pid: 10, signal: SignalKind::Terminate, errno: 3 };
    assert_eq!(term.message_with("gone"), "Failed to send SIGTERM to PID 10: gone");
    let stop = OpError::SignalFailed { pid: 11, signal: SignalKind::Stop, errno: 1 };
    assert_eq!(stop.message_with("no"), "Failed to pause PID 11: no");
    let cont = OpError::SignalFailed { pid: 12, signal: SignalKind::Continue, errno: 1 };
    assert_eq!(cont.message_with("no"), "Failed to resume PID 12: no");
    let nice = OpError::PriorityFailed { pid: 13, nice: -30, errno: 13 };
    assert_eq!(nice.message_with("denied"), "Failed to set nice value for PID 13: denied");
}

#[test]
fn refused_calls_are_described_by_their_error_number() {
    let kill = OpError::SignalFailed { pid: 9, signal: SignalKind::Kill, errno: 3 };
    assert_eq!(kill.message(), "Failed to send SIGKILL to PID 9: ESRCH: No such process");
    let nice = OpError::PriorityFailed { pid: 13, nice: -30, errno: 13 };
    assert_eq!(nice.message(), "Failed to set nice value for PID 13: EACCES: Permission denied");
    let perm = OpError::SignalFailed { pid: 1, signal: SignalKind::Stop, errno: 1 };
    assert_eq!(perm.message(), "Failed to pause PID 1: EPERM: Operation not permitted");
}

#[test]
fn message_of_a_failed_enumeration() {
    let error = RefreshError::EnumerationFailed { reason: "no /proc".to_string() };
    assert_eq!(error.message(), "Failed to read process list: no /proc");
    assert_eq!(
        error.initial_load_message(),
        "Failed initial process load: Failed to read process list: no /proc"
    );
}

#[test]
fn seconds_are_read_in_hundredths() {
    assert_eq!(parse_seconds(b"12345.67 54321.00\n"), Some(1_234_567));
    assert_eq!(parse_seconds(b"0.05"), Some(5));
    assert_eq!(parse_seconds(b"7"), Some(700));
    assert_eq!(parse_seconds(b"7."), Some(700));
    assert_eq!(parse_seconds(b"7.5"), Some(750));
    assert_eq!(parse_seconds(b"7.509"), Some(750));
    assert_eq!(parse_seconds(b"  \t42.10\n"), Some(4_210));
    assert_eq!(parse_seconds(b"184467440737095516.15"), Some(u64::MAX));
}

#[test]
fn what_is_no_numeral_is_not_read() {
    assert_eq!(parse_seconds(b""), None);
    assert_eq!(parse_seconds(b"   "), None);
    assert_eq!(parse_seconds(b".5"), None);
    assert_eq!(parse_seconds(b"abc"), None);
    assert_eq!(parse_seconds(b"12x"), None);
    assert_eq!(parse_seconds(b"12.3x"), None);
    assert_eq!(parse_seconds(b"-3"), None);
    assert_eq!(parse_seconds(b"184467440737095516.16"), None);
    assert_eq!(parse_seconds(b"99999999999999999999999"), None);
}

#[test]
fn a_read_counts_only_with_the_uptime() {
    let raw = || RawRecord {
        ppid: 1,
        ruid: 0,
        name: "p".to_string(),
        state: 'S',
        rss_pages: 0,
        nice: 0,
        utime: 0,
        stime: 0,
        starttime: 0,
    };
    assert!(matches!(Sighting::of(4, Some(raw()), true), Sighting::Read { pid: 4, .. }));
    assert!(matches!(Sighting::of(4, Some(raw()), false), Sighting::Unreadable { pid: 4 }));
    assert!(matches!(Sighting::of(4, None, true), Sighting::Unreadable { pid: 4 }));
}
