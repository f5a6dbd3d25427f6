use wasteday::probe::{build_snapshot, idle_seconds_from_ticks};

#[test]
fn idle_seconds_is_elapsed_ticks_in_whole_seconds() {
    assert_eq!(idle_seconds_from_ticks(true, 5000, 2000), 3);
    assert_eq!(idle_seconds_from_ticks(true, 1999, 0), 1);
    assert_eq!(idle_seconds_from_ticks(true, 999, 0), 0);
    assert_eq!(idle_seconds_from_ticks(true, 2000, 2000), 0);
}

#[test]
fn idle_seconds_failure_and_wraparound_clamp_to_zero() {
    // the last-input query failed: no evidence of idleness
    assert_eq!(idle_seconds_from_ticks(false, 99999, 0), 0);
    // the 32-bit tick counter wrapped: clamp instead of a huge difference
    assert_eq!(idle_seconds_from_ticks(true, 2000, 4294000000), 0);
}

#[test]
fn idle_seconds_is_non_decreasing_while_input_is_absent() {
    let a = idle_seconds_from_ticks(true, 10000, 1000);
    let b = idle_seconds_from_ticks(true, 25000, 1000);
    assert!(a <= b);
}

#[test]
fn snapshot_resolves_executable_file_name() {
    let info = build_snapshot(1234, "Inbox - Mail".to_string(), Some("C:\\Apps\\chrome.exe"));
    assert_eq!(info.process_id, 1234);
    assert_eq!(info.window_title, "Inbox - Mail");
    assert_eq!(info.exe, "chrome.exe");
}

#[test]
fn snapshot_handles_forward_slashes_and_bare_names() {
    let with_slash = build_snapshot(9, "t".to_string(), Some("/usr/bin/app"));
    assert_eq!(with_slash.exe, "app");
    let bare = build_snapshot(9, "t".to_string(), Some("plain.exe"));
    assert_eq!(bare.exe, "plain.exe");
}

#[test]
fn snapshot_falls_back_to_whole_path_without_a_file_name() {
    let info = build_snapshot(7, "t".to_string(), Some("C:\\Apps\\"));
    assert_eq!(info.exe, "C:\\Apps\\");
}

#[test]
fn snapshot_is_total_under_denied_process_queries() {
    // the owning process could not be opened or queried
    let denied = build_snapshot(1234, "Protected".to_string(), None);
    assert_eq!(denied.process_id, 1234);
    assert_eq!(denied.window_title, "Protected");
    assert_eq!(denied.exe, "unknown.exe");
    // no foreground process was resolved at all
    let no_pid = build_snapshot(0, "".to_string(), Some("C:\\Apps\\chrome.exe"));
    assert_eq!(no_pid.exe, "unknown.exe");
}
