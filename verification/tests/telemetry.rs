use smart_quiz::telemetry::redact_path;

#[test]
fn redact_path_hides_account() {
    assert_eq!(redact_path(r"C:\Users\张三\AppData\Roaming\com.smartquiz.app"),
        r"C:\Users\~\AppData\Roaming\com.smartquiz.app");
    assert_eq!(redact_path(r"C:\Users\public"), r"C:\Users\~");
    assert_eq!(redact_path(r"D:\PLC\data"), r"D:\PLC\data");
}

#[test]
fn redaction_is_stable() {
    let once = redact_path(r"C:\Users\bob\x\Users\eve\y");
    assert_eq!(once, r"C:\Users\~\x\Users\eve\y");
    assert_eq!(redact_path(&once), once);
    assert_eq!(redact_path(r"\Users\"), r"\Users\~");
}

use smart_quiz::telemetry::{cmd_log, tail_lines, timed, LogLevel};

#[test]
fn command_log_entries() {
    let ok: Result<(), String> = Ok(());
    let l = cmd_log("dashboard", false, 12, &ok);
    assert_eq!(l.level, LogLevel::Debug);
    assert_eq!(l.message, "dashboard ok 12ms");
    let q = cmd_log("save_draft", true, 0, &ok);
    assert_eq!(q.level, LogLevel::Trace);
    assert_eq!(q.message, "save_draft ok 0ms");
    let err: Result<i32, String> = Err("boom".to_string());
    let e = cmd_log("finish_session", true, 7, &err);
    assert_eq!(e.level, LogLevel::Error);
    assert_eq!(e.message, "finish_session 失败(7ms): boom");
}

#[test]
fn timed_runs_the_command_once() {
    let (r, l) = timed("compose_blueprint", false, || Ok::<i32, String>(3));
    assert_eq!(r, Ok(3));
    assert_eq!(l.level, LogLevel::Debug);
    assert!(l.message.starts_with("compose_blueprint ok "));
    assert!(l.message.ends_with("ms"));
    let (r2, l2) = timed("x", true, || Err::<i32, String>("bad".into()));
    assert_eq!(r2, Err("bad".to_string()));
    assert_eq!(l2.level, LogLevel::Error);
    assert!(l2.message.ends_with("ms): bad"));
}

#[test]
fn log_tail_keeps_the_last_lines() {
    assert_eq!(tail_lines("l1\nl2\nl3\n", 2), vec!["l2".to_string(), "l3".to_string()]);
    assert_eq!(tail_lines("l1\nl2\nl3\n", 10).len(), 3);
    assert_eq!(tail_lines("a\r\nb", 5), vec!["a".to_string(), "b".to_string()]);
    assert!(tail_lines("", 5).is_empty());
    assert_eq!(tail_lines("x\n\ny", 5), vec!["x".to_string(), String::new(), "y".to_string()]);
    assert!(tail_lines("x\ny", 0).is_empty());
}
