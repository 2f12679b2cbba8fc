use smart_quiz::bank::{asset_rel_path, check_manifest_format, like_pattern, list_questions_sql, plan_topics,
    question_defaults, question_topic_links, topic_names, QuestionIn, TopicIn, QUESTION_SELECT};

fn topic(key: &str, parent: Option<&str>) -> TopicIn {
    TopicIn { topic_key: key.to_string(), name: format!("名{key}"), parent: parent.map(|p| p.to_string()) }
}

fn qin(topics: &[&str], status: &str, conf: &str) -> QuestionIn {
    QuestionIn {
        qid: "Q1".into(), qtype: "single".into(), stem: "s".into(), img_path: None, options: vec![],
        answer: "A".into(), answer_conf: conf.into(), explain: String::new(), source: String::new(),
        difficulty: 0, topics: topics.iter().map(|t| t.to_string()).collect(), status: status.into(),
    }
}

#[test]
fn manifest_format_is_checked() {
    assert_eq!(check_manifest_format("smartbank", 1), Ok(()));
    assert_eq!(check_manifest_format("zip", 2), Err("不支持的格式 zip v2".to_string()));
    assert_eq!(check_manifest_format("smartbank", -1), Err("不支持的格式 smartbank v-1".to_string()));
}

#[test]
fn asset_entries_stay_inside_the_asset_directory() {
    assert_eq!(asset_rel_path("assets/img/a.png"), Some("img/a.png".to_string()));
    assert_eq!(asset_rel_path("assets/"), None);
    assert_eq!(asset_rel_path("index.json"), None);
    assert_eq!(asset_rel_path("assets/../x"), None);
    assert_eq!(asset_rel_path("assets/a\\..\\b"), None);
    assert_eq!(asset_rel_path("assets/.."), None);
    assert_eq!(asset_rel_path("assets/a..b"), Some("a..b".to_string()));
    assert_eq!(asset_rel_path("Assets/a.png"), None);
    assert_eq!(asset_rel_path("assets//x"), None);
    assert_eq!(asset_rel_path("assets/\\x"), None);
    assert_eq!(asset_rel_path("assets/C:/Windows/x"), None);
    assert_eq!(asset_rel_path("assets/d:x"), None);
    assert_eq!(asset_rel_path("assets/img/C:x.png"), Some("img/C:x.png".to_string()));
}

#[test]
fn chapters_are_inserted_roots_first() {
    let ts = vec![topic("c1", Some("p")), topic("p", None), topic("c2", Some("missing")), topic("q", None),
        topic("c3", Some("p"))];
    let plan = plan_topics(&ts);
    let idx: Vec<usize> = plan.iter().map(|t| t.index).collect();
    assert_eq!(idx, vec![1, 3, 0, 2, 4]);
    let parents: Vec<Option<usize>> = plan.iter().map(|t| t.parent).collect();
    assert_eq!(parents, vec![None, None, Some(0), None, Some(0)]);
    let orders: Vec<usize> = plan.iter().map(|t| t.sort_order).collect();
    assert_eq!(orders, vec![0, 1, 2, 3, 4]);
}

#[test]
fn repeated_chapter_keys_link_to_the_latest() {
    let ts = vec![topic("p", None), topic("p", None), topic("c", Some("p"))];
    let plan = plan_topics(&ts);
    let orders: Vec<usize> = plan.iter().map(|t| t.sort_order).collect();
    assert_eq!(orders, vec![0, 1, 1]);
    assert_eq!(plan[2].parent, Some(1));
    let links = question_topic_links(&ts, &plan, &qin(&["p", "c", "zz"], "", ""));
    assert_eq!(links, vec![1, 2]);
}

#[test]
fn question_links_and_defaults() {
    let ts = vec![topic("c1", Some("p")), topic("p", None)];
    let plan = plan_topics(&ts);
    assert_eq!(question_topic_links(&ts, &plan, &qin(&["c1", "nope", "p"], "", "")), vec![1, 0]);
    assert_eq!(question_defaults(&qin(&[], "", "")), ("active".to_string(), "high".to_string()));
    assert_eq!(question_defaults(&qin(&[], "retired", "low")), ("retired".to_string(), "low".to_string()));
}

#[test]
fn question_rows_and_queries() {
    assert_eq!(topic_names(&Some("硬件/通信".to_string())), vec!["硬件".to_string(), "通信".to_string()]);
    assert_eq!(topic_names(&Some("a//b".to_string())), vec!["a".to_string(), String::new(), "b".to_string()]);
    assert!(topic_names(&None).is_empty());
    assert_eq!(list_questions_sql(false, false, false, false),
        format!("{QUESTION_SELECT} FROM questions q WHERE 1=1 AND q.status!='retired' ORDER BY q.qid LIMIT ? OFFSET ?"));
    assert_eq!(list_questions_sql(true, true, true, true),
        format!("{QUESTION_SELECT} FROM questions q WHERE 1=1 AND q.qid IN (SELECT qid FROM question_topics WHERE topic_id=?) AND q.type=? AND q.status=? AND (q.stem LIKE ? OR q.explain LIKE ?) ORDER BY q.qid LIMIT ? OFFSET ?"));
    assert_eq!(like_pattern("VW0"), "%VW0%");
}
