use smart_quiz::excel::{excel_preview, norm_answer, norm_type, parse_workbook, plan_excel_import, score_summary,
    score_sheet_rows, TEMPLATE_HEADERS};
use smart_quiz::bank::QuestionRow;
use smart_quiz::session::AnswerRow;

fn sheet(rows: &[&[&str]]) -> Vec<Vec<String>> {
    let mut out: Vec<Vec<String>> = vec![TEMPLATE_HEADERS.iter().map(|h| h.to_string()).collect()];
    for r in rows {
        out.push(r.iter().map(|c| c.to_string()).collect());
    }
    out
}

fn sample_rows() -> Vec<Vec<String>> {
    sheet(&[
        &["标准型CPU最多几个EM？", "单选", "3", "6", "", "", "", "", "B", "SR/ST最多6个", "选型手册", "硬件", "", "3", "high"],
        &["通信需要设置哪些参数？", "多选", "波特率", "校验", "IP", "", "", "", "A,B,C", "IP属于以太网", "技术参考", "通信", "串口", "3", "high"],
        &["此题答案越界", "单选", "x", "y", "", "", "", "", "D", "", "", "", "", "", ""],
        &["此题题干为空", "", "", "", "", "", "", "", "", "", "", "", "", "", ""],
        &["SR是继电器输出", "判断", "", "", "", "", "", "", "√", "", "", "硬件", "", "2", "medium"],
        &["标准型cpu最多几个EM?", "单选", "3", "6", "", "", "", "", "B", "", "", "硬件", "", "3", "high"],
    ])
}

#[test]
fn preview_counts_valid_rows_and_errors() {
    let pv = excel_preview(sample_rows());
    assert_eq!(pv.valid, 4);
    assert_eq!(pv.errors.len(), 2);
    assert!(pv.errors.iter().any(|e| e.msg.contains("超出选项范围")));
    assert_eq!(pv.errors[0].row, 4);
    assert_eq!(pv.errors[0].msg, "答案错误：答案 D 超出选项范围（共2项）");
    assert_eq!(pv.errors[1].row, 5);
    assert_eq!(pv.errors[1].msg, "答案为空");
    assert_eq!(pv.total, 6);
    assert_eq!(pv.sample.len(), 4);
}

#[test]
fn parsed_questions_are_normalised() {
    let (qs, _errs) = parse_workbook(sample_rows());
    assert_eq!(qs.len(), 4);
    assert_eq!(qs[0].qtype, "single");
    assert_eq!(qs[0].answer, "B");
    assert_eq!(qs[0].options, vec!["A、3".to_string(), "B、6".to_string()]);
    assert_eq!(qs[0].topic1, "硬件");
    assert_eq!(qs[1].qtype, "multi");
    assert_eq!(qs[1].answer, "ABC");
    assert_eq!(qs[1].topic2, "串口");
    assert_eq!(qs[2].qtype, "judge");
    assert_eq!(qs[2].answer, "T");
    assert_eq!(qs[2].options, vec!["A、对".to_string(), "B、错".to_string()]);
    assert_eq!(qs[2].difficulty, 2);
    assert_eq!(qs[2].conf, "medium");
}

#[test]
fn import_plan_builds_chapters_and_ids() {
    let (qs, _errs) = parse_workbook(sample_rows());
    let plan = plan_excel_import(&qs).unwrap();
    assert_eq!(plan.topics.len(), 3);
    assert_eq!(plan.topics[0].name, "硬件");
    assert_eq!(plan.topics[0].parent, None);
    assert_eq!(plan.topics[1].name, "通信");
    assert_eq!(plan.topics[1].parent, None);
    assert_eq!(plan.topics[2].name, "串口");
    assert_eq!(plan.topics[2].parent, Some(1));
    let ids: Vec<&str> = plan.questions.iter().map(|q| q.qid.as_str()).collect();
    assert_eq!(ids, vec!["X0000", "X0001", "X0002", "X0003"]);
    let topics: Vec<usize> = plan.questions.iter().map(|q| q.topic).collect();
    assert_eq!(topics, vec![0, 2, 0, 0]);
    assert!(plan.questions.iter().all(|q| q.status == "active"));
    assert_eq!(plan_excel_import(&Vec::new()).err().unwrap(), "没有可导入的有效题目（请查看预览中的错误行）");
}

#[test]
fn low_confidence_questions_await_review() {
    let rows = sheet(&[&["题", "单选", "a", "b", "", "", "", "", "A", "", "", "", "", "9", "低"]]);
    let (qs, errs) = parse_workbook(rows);
    assert!(errs.is_empty());
    assert_eq!(qs[0].difficulty, 5);
    assert_eq!(qs[0].conf, "low");
    assert_eq!(qs[0].topic1, "未分类");
    let plan = plan_excel_import(&qs).unwrap();
    assert_eq!(plan.questions[0].status, "pending_review");
}

#[test]
fn row_errors_are_reported() {
    let rows = sheet(&[
        &["题1", "问答", "a", "b", "", "", "", "", "A", "", "", "", "", "", ""],
        &["题2", "单选", "a", "", "c", "", "", "", "A", "", "", "", "", "", ""],
        &["题3", "单选", "a", "b", "", "", "", "", "", "", "", "", "", "", ""],
        &["题4", "单选", "a", "", "", "", "", "", "A", "", "", "", "", "", ""],
        &["", "", "", "", "", "", "", "", "", "", "", "", "", "", ""],
        &["题5", "多选", "a", "b", "c", "", "", "", "A", "", "", "", "", "", ""],
    ]);
    let (qs, errs) = parse_workbook(rows);
    let msgs: Vec<(usize, &str)> = errs.iter().map(|e| (e.row, e.msg.as_str())).collect();
    assert_eq!(msgs, vec![
        (2, "题型「问答」无法识别（单选/多选/判断/填空）"),
        (3, "选项中间存在空档（如A、C有值B为空）"),
        (4, "答案为空"),
        (5, "选择题至少需要2个选项"),
        (7, "答案错误：多选题答案至少两个字母"),
    ]);
    // the row with a gap is still accepted, with its options up to the last filled one
    assert_eq!(qs.len(), 1);
    assert_eq!(qs[0].options, vec!["A、a".to_string(), "B、".to_string(), "C、c".to_string()]);
}

#[test]
fn answers_and_types_are_recognised() {
    assert_eq!(norm_type(" 多选题 "), Some("multi".to_string()));
    assert_eq!(norm_type(""), Some("single".to_string()));
    assert_eq!(norm_type("填空"), Some("fill".to_string()));
    assert_eq!(norm_type("问答"), None);
    assert_eq!(norm_answer("b, a", "multi", 4), Ok("AB".to_string()));
    assert_eq!(norm_answer("AB", "single", 4), Err("单选题答案只能一个字母".to_string()));
    assert_eq!(norm_answer("错误", "judge", 2), Ok("F".to_string()));
    assert_eq!(norm_answer("maybe", "judge", 2), Err("判断题答案须为 对/错/√/×/T/F".to_string()));
    assert_eq!(norm_answer(" 任意 ", "fill", 8), Ok("任意".to_string()));
    assert_eq!(norm_answer("？", "single", 4), Err("无法从「？」解析答案字母".to_string()));
}

fn question(qtype: &str, topics: &[&str]) -> QuestionRow {
    QuestionRow {
        bank_id: "b".into(), qid: "q".into(), qtype: qtype.into(), stem: "题干".into(), img_path: None,
        options: vec![], answer: "AB".into(), answer_conf: "high".into(), explain: "解析".into(),
        source: "出处".into(), status: "active".into(), topics: topics.iter().map(|t| t.to_string()).collect(),
    }
}

#[test]
fn score_sheet_rows_and_summary() {
    let recs = vec![
        AnswerRow { bank_id: "b".into(), qid: "q".into(), picked: Some("AB".into()), is_correct: Some(true),
            time_cost_ms: None, question: Some(question("multi", &["通信", "串口"])) },
        AnswerRow { bank_id: "b".into(), qid: "r".into(), picked: None, is_correct: None,
            time_cost_ms: None, question: None },
        AnswerRow { bank_id: "b".into(), qid: "s".into(), picked: Some("C".into()), is_correct: Some(false),
            time_cost_ms: Some(5), question: Some(question("single", &[])) },
    ];
    let rows = score_sheet_rows(&recs);
    assert_eq!(rows[0], vec!["多选", "通信/串口", "题干", "AB", "AB", "✓", "解析", "出处"]);
    assert_eq!(rows[1], vec!["单选", "", "", "", "", "不计分", "", ""]);
    assert_eq!(rows[2], vec!["单选", "", "题干", "C", "AB", "✗", "解析", "出处"]);
    assert_eq!(score_summary(1, 2), "答对 1/2（计分题）");
}
