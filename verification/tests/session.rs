use smart_quiz::session::{grade, norm_letters};

#[test]
fn grading_rules() {
    assert_eq!(grade("single", "B", "B", "all_or_nothing"), Some(true));
    assert_eq!(grade("single", "B", "C", "all_or_nothing"), Some(false));
    assert_eq!(grade("single", "B", "", "all_or_nothing"), Some(false));
    assert_eq!(grade("multi", "ABD", "ABD", "all_or_nothing"), Some(true));
    assert_eq!(grade("multi", "ABD", "AB", "all_or_nothing"), Some(false));
    assert_eq!(grade("multi", "ABD", "ABDE", "all_or_nothing"), Some(false));
    assert_eq!(grade("multi", "DBA", "ABD", "all_or_nothing"), Some(true));
    assert_eq!(grade("single", "", "B", "all_or_nothing"), None);
}

#[test]
fn norm_letters_sorts_dedups_and_filters() {
    assert_eq!(norm_letters("D,B,A"), "ABD");
    assert_eq!(norm_letters("a b C c E F"), "CE");
    assert_eq!(norm_letters("EEAA"), "AE");
    assert_eq!(norm_letters(""), "");
    assert_eq!(norm_letters(&norm_letters("BDA, A")), "ABD");
}

#[test]
fn grading_ignores_non_letter_noise() {
    assert_eq!(grade("multi", "A、B、D", "ABD", "partial"), Some(true));
    assert_eq!(grade("single", "x", "A", "all_or_nothing"), None);
    assert_eq!(grade("single", "B", "?", "all_or_nothing"), Some(false));
}

use smart_quiz::bank::QuestionRow;
use smart_quiz::session::{check_mode, draft_key, grade_session, is_srs_mode, match_questions, topic_stats,
    wrong_active, Draft, DraftPick};

fn q(qid: &str, answer: &str, conf: &str) -> QuestionRow {
    QuestionRow {
        bank_id: "smart-core".into(), qid: qid.into(), qtype: "single".into(), stem: String::new(), img_path: None,
        options: vec![], answer: answer.into(), answer_conf: conf.into(), explain: String::new(),
        source: String::new(), status: "active".into(), topics: vec![],
    }
}

fn pick(qid: &str, picked: &str, t: Option<i64>) -> (String, DraftPick) {
    (draft_key("smart-core", qid), DraftPick { picked: picked.into(), t })
}

#[test]
fn session_modes() {
    assert_eq!(check_mode("exam"), Ok(()));
    assert_eq!(check_mode("practice"), Ok(()));
    assert_eq!(check_mode("test"), Err("非法模式 test".to_string()));
    assert!(is_srs_mode("wrong"));
    assert!(!is_srs_mode("exam"));
    assert!(!is_srs_mode("recite"));
    assert!(wrong_active(1));
    assert!(!wrong_active(2));
    assert_eq!(draft_key("smart-core", "Q7"), "smart-core::Q7");
}

#[test]
fn finishing_grades_every_question() {
    let qs = vec![q("Q1", "B", "high"), q("Q2", "A", "high"), q("Q3", "C", "high"), q("Q4", "D", "low"),
        q("Q5", "", "high")];
    let draft = Draft {
        picks: vec![pick("Q1", "B", Some(1200)), pick("Q2", "C", None), pick("Q4", "D", None)],
        marks: vec![],
        remaining_sec: None,
        idx: None,
    };
    let p = grade_session(&qs, &draft, "practice", "all_or_nothing");
    assert_eq!(p.scored, 3);
    assert_eq!(p.correct, 1);
    let graded: Vec<Option<bool>> = p.records.iter().map(|r| r.is_correct).collect();
    assert_eq!(graded, vec![Some(true), Some(false), Some(false), None, None]);
    assert_eq!(p.records[0].time_cost_ms, Some(1200));
    assert_eq!(p.records[2].picked, "");
    let wrong: Vec<&str> = p.wrong.iter().map(|w| w.1.as_str()).collect();
    assert_eq!(wrong, vec!["Q2", "Q3"]);
    let srs: Vec<(&str, bool)> = p.srs.iter().map(|s| (s.1.as_str(), s.2)).collect();
    assert_eq!(srs, vec![("Q1", true), ("Q2", false), ("Q3", false)]);
    let exam = grade_session(&qs, &draft, "exam", "all_or_nothing");
    assert!(exam.srs.is_empty());
    assert_eq!(exam.wrong.len(), 2);
}

fn rec(qid: &str, right: bool) -> (String, String, bool) {
    ("b".to_string(), qid.to_string(), right)
}

fn trow(qid: &str, t: &str) -> (String, String, String) {
    ("b".to_string(), qid.to_string(), t.to_string())
}

#[test]
fn dashboard_topics_are_summed_and_ranked() {
    let recs = vec![rec("q1", true), rec("q1", false), rec("q2", true)];
    let rows = vec![trow("q2", "通信"), trow("q1", "硬件"), trow("q2", "硬件"), trow("q3", "空")];
    let stats = topic_stats(&recs, &rows);
    let got: Vec<(&str, i64, i64)> = stats.iter().map(|s| (s.topic.as_str(), s.a, s.c)).collect();
    assert_eq!(got, vec![("硬件", 3, 2), ("通信", 1, 1)]);
    assert!(topic_stats(&vec![], &rows).is_empty());
}

#[test]
fn records_find_their_questions() {
    let qs = vec![q("Q1", "A", "high"), q("Q2", "A", "high")];
    let keys = vec![("smart-core".to_string(), "Q2".to_string()), ("other".to_string(), "Q1".to_string()),
        ("smart-core".to_string(), "Q1".to_string())];
    assert_eq!(match_questions(&keys, &qs), vec![Some(1), None, Some(0)]);
}
