use ssh_tui_rs::console::{
    DOUBLE_CLICK_INTERVAL_MS, MAX_CAPTURED_STDERR, capture_chunk, osc52_clipboard_sequence,
    register_host_click, ssh_exit_failure, summarize_stderr, summary_of_text,
};

#[test]
fn sanitizes_and_limits_ssh_error_output() {
    let captured = b"\x1b[31mfirst\x1b[0m\nsecond\nthird\nfourth\nfifth\nssh: final error\n";

    let summary = summarize_stderr(captured);

    assert!(!summary.contains('\u{1b}'));
    assert!(!summary.contains("first"));
    assert!(summary.contains("ssh: final error"));
    assert_eq!(summary.lines().count(), 5);
}

#[test]
fn encodes_selected_text_for_the_terminal_clipboard() {
    assert_eq!(osc52_clipboard_sequence("copy"), "\u{1b}]52;c;Y29weQ==\u{1b}\\");
}

#[test]
fn double_click_requires_the_same_host_within_the_interval() {
    let start: u64 = 0;
    let mut previous = None;

    assert!(!register_host_click(&mut previous, start, 1));
    assert!(!register_host_click(&mut previous, start + 100, 2));
    assert!(!register_host_click(&mut previous, start + DOUBLE_CLICK_INTERVAL_MS + 101, 2));
    assert!(register_host_click(&mut previous, start + DOUBLE_CLICK_INTERVAL_MS + 200, 2));
    assert!(previous.is_none());
}

#[test]
fn a_third_click_starts_over() {
    let mut previous = None;
    assert!(!register_host_click(&mut previous, 1_000, 7));
    assert!(register_host_click(&mut previous, 1_500, 7));
    assert!(!register_host_click(&mut previous, 1_600, 7));
    assert_eq!(previous, Some((1_600, 7)));
}

#[test]
fn an_empty_error_stream_gets_a_message() {
    assert_eq!(summarize_stderr(b""), "SSH exited without an error message.");
    assert_eq!(summarize_stderr(b"\n  \n\t\n"), "SSH exited without an error message.");
}

#[test]
fn long_error_lines_are_cut() {
    let line = "x".repeat(200);
    let summary = summarize_stderr(line.as_bytes());
    assert_eq!(summary, format!("{}...", "x".repeat(177)));
    let exact = "y".repeat(180);
    assert_eq!(summarize_stderr(exact.as_bytes()), exact);
}

#[test]
fn invalid_utf8_is_replaced_and_controls_dropped() {
    let summary = summarize_stderr(b"bad \xff byte\x07 here\r\n");
    assert_eq!(summary, "bad \u{fffd} byte here");
    let tabs = summarize_stderr(b"\tkey:\tvalue\t\n");
    assert_eq!(tabs, "key:value");
}

#[test]
fn capture_keeps_the_last_bytes() {
    let mut captured = Vec::new();
    capture_chunk(&mut captured, b"ssh: connection failed");
    assert_eq!(captured, b"ssh: connection failed");

    let mut captured = vec![1u8; MAX_CAPTURED_STDERR - 2];
    capture_chunk(&mut captured, &[2, 3, 4, 5]);
    assert_eq!(captured.len(), MAX_CAPTURED_STDERR);
    assert_eq!(&captured[captured.len() - 4..], &[2, 3, 4, 5]);
    assert_eq!(captured[0], 1);
}

#[test]
fn only_ssh_errors_are_failures() {
    assert_eq!(ssh_exit_failure("web", Some(0), b"ignored"), None);
    assert_eq!(ssh_exit_failure("web", Some(1), b"remote command failed"), None);
    let failure = ssh_exit_failure("web", Some(255), b"ssh: connect to host web port 22: Connection refused\n").unwrap();
    assert_eq!(failure.alias, "web");
    assert_eq!(failure.message, "ssh: connect to host web port 22: Connection refused");
    assert_eq!(failure.exit_status, Some(255));
    let killed = ssh_exit_failure("web", None, b"").unwrap();
    assert_eq!(killed.message, "SSH exited without an error message.");
    assert_eq!(killed.exit_status, None);
}

#[test]
fn decoded_error_text_is_summed_up() {
    assert_eq!(summary_of_text(""), "SSH exited without an error message.");
    assert_eq!(summary_of_text("  \n\t\n"), "SSH exited without an error message.");
    assert_eq!(summary_of_text("a\nb\nc\nd\ne\nf\n"), "b\nc\nd\ne\nf");
    assert_eq!(summary_of_text("\tkey:\tvalue\t\r\n\n"), "key:\tvalue");
    let long = "x".repeat(200);
    let short = summary_of_text(&long);
    assert_eq!(short.chars().count(), 180);
    assert!(short.ends_with("..."));
    assert_eq!(summary_of_text("bell\u{7}ed"), "belled");
}
