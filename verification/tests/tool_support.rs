use teams_core::ax::script_output;
use teams_core::clipboard::ClipboardError;
use teams_core::location::{latest_time, pick_newest};
use teams_core::server::{bearer_ok, ReadMessagesArgs, SearchArgs};

#[test]
fn tool_limits_default() {
    let read = ReadMessagesArgs { chat: "x".to_string(), limit: None, before_ms: None };
    assert_eq!(read.limit_or_default(), 30);
    let read = ReadMessagesArgs { chat: "x".to_string(), limit: Some(5), before_ms: Some(1) };
    assert_eq!(read.limit_or_default(), 5);
    assert_eq!(SearchArgs { query: "q".to_string(), limit: None }.limit_or_default(), 20);
    assert_eq!(SearchArgs { query: "q".to_string(), limit: Some(0) }.limit_or_default(), 0);
}

#[test]
fn script_output_trims_and_reports_failures() {
    assert_eq!(script_output(true, b"Chat | Teams\n\n", b""), Ok("Chat | Teams".to_string()));
    assert_eq!(script_output(true, b"  a\nb  \n", b""), Ok("  a\nb".to_string()));
    assert_eq!(
        script_output(false, b"", b"  not allowed\n"),
        Err("osascript 실패: not allowed".to_string())
    );
    assert_eq!(script_output(true, &[0x61, 0xFF], b""), Ok("a\u{FFFD}".to_string()));
}

#[test]
fn newest_candidate_wins_and_ties_keep_the_first() {
    assert_eq!(pick_newest(&vec![Some(10), Some(20), Some(20), None]), Some(1));
    assert_eq!(pick_newest(&vec![None, Some(3)]), Some(1));
    assert_eq!(pick_newest(&vec![None, None]), None);
    assert_eq!(pick_newest(&vec![]), None);
    assert_eq!(latest_time(&vec![3, 9, 4]), Some(9));
    assert_eq!(latest_time(&vec![]), None);
}

#[test]
fn clipboard_error_messages() {
    assert_eq!(ClipboardError::Open("busy".to_string()).message(), "클립보드를 열지 못함: busy");
    assert_eq!(ClipboardError::Write("x".to_string()).message(), "클립보드 쓰기 실패: x");
}

#[test]
fn bearer_token_must_match_exactly() {
    assert!(bearer_ok(Some("Bearer s3cret"), "s3cret"));
    assert!(!bearer_ok(Some("Bearer s3cret2"), "s3cret"));
    assert!(!bearer_ok(Some("bearer s3cret"), "s3cret"));
    assert!(!bearer_ok(Some("s3cret"), "s3cret"));
    assert!(!bearer_ok(None, "s3cret"));
}
