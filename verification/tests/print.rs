use smart_quiz::bank::QuestionRow;
use smart_quiz::print::group_by_type;

fn q(qid: &str, t: &str) -> QuestionRow {
    QuestionRow {
        bank_id: "b".into(), qid: qid.into(), qtype: t.into(), stem: String::new(), img_path: None,
        options: vec![], answer: "A".into(), answer_conf: "high".into(), explain: String::new(),
        source: String::new(), status: "active".into(), topics: vec![],
    }
}

#[test]
fn paper_questions_are_grouped_by_type() {
    let gs = group_by_type(vec![q("1", "single"), q("2", "multi"), q("3", "single"), q("4", "judge")]);
    let got: Vec<(String, Vec<String>)> = gs.iter()
        .map(|g| (g.qtype.clone(), g.questions.iter().map(|x| x.qid.clone()).collect()))
        .collect();
    assert_eq!(got, vec![
        ("single".to_string(), vec!["1".to_string(), "3".to_string()]),
        ("multi".to_string(), vec!["2".to_string()]),
        ("judge".to_string(), vec!["4".to_string()]),
    ]);
    assert_eq!(gs.iter().map(|g| g.questions.len()).sum::<usize>(), 4);
    assert!(group_by_type(vec![]).is_empty());
}
