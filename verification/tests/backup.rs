use smart_quiz::backup::{backup_as_zip, diag_entry_name, diagnostic_logs, extension, file_name, PRIVACY_NOTE};

fn ext(s: &str) -> Option<String> {
    extension(&s.chars().collect()).map(|e| e.iter().collect())
}

#[test]
fn extensions_follow_file_name_rules() {
    assert_eq!(ext("a.log"), Some("log".to_string()));
    assert_eq!(ext("a.b.zip"), Some("zip".to_string()));
    assert_eq!(ext(".log"), None);
    assert_eq!(ext("noext"), None);
    assert_eq!(ext("a."), Some(String::new()));
    assert_eq!(file_name("/tmp/x/bk.zip").iter().collect::<String>(), "bk.zip");
    assert_eq!(file_name("dir.zip/").iter().collect::<String>(), "dir.zip");
}

#[test]
fn zip_backups_are_chosen_by_extension() {
    assert!(backup_as_zip("/tmp/bk.zip"));
    assert!(!backup_as_zip("/tmp/bk.db"));
    assert!(!backup_as_zip("/tmp/.zip"));
    assert!(!backup_as_zip("/tmp/bk.ZIP"));
    assert!(backup_as_zip("out/bk.zip/"));
}

#[test]
fn diagnostics_take_sorted_log_files() {
    let names: Vec<String> = ["smart-quiz-app_旧.log", "notes.txt", "smart-quiz-app.log", ".log", "a.LOG"]
        .iter().map(|s| s.to_string()).collect();
    assert_eq!(diagnostic_logs(&names), vec!["smart-quiz-app.log".to_string(), "smart-quiz-app_旧.log".to_string()]);
    assert!(diagnostic_logs(&vec![]).is_empty());
    assert_eq!(diag_entry_name("smart-quiz-app.log"), "logs/smart-quiz-app.log");
    assert!(PRIVACY_NOTE.starts_with("This diagnostics package contains NO personal data."));
}
