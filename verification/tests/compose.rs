use smart_quiz::compose::{count_sql, diff_clause, draw_sql, plan_section, topic_clause, validate_blueprint,
    Blueprint, Composition, SectionDraw, SectionSpec, SectionStep};

const BASE: &str = " FROM questions q WHERE q.bank_id=(SELECT bank_id FROM banks WHERE is_enabled=1 ORDER BY is_builtin DESC LIMIT 1) AND q.status='active' AND q.answer_conf='high' AND q.type=?1";

fn spec(t: &str, qty: i64, diff: Option<(i64, i64)>) -> SectionSpec {
    SectionSpec { qtype: t.to_string(), qty, from_topics: vec![], difficulty: diff }
}

fn draw(step: SectionStep) -> SectionDraw {
    match step {
        SectionStep::Draw(d) => d,
        _ => panic!("expected a draw"),
    }
}

#[test]
fn blueprint_types_are_checked() {
    let ok = Blueprint { sections: vec![spec("single", 1, None), spec("multi", 1, None)], allow_fallback: false };
    assert_eq!(validate_blueprint(&ok), Ok(()));
    let bad = Blueprint { sections: vec![spec("single", 1, None), spec("judge", 1, None), spec("x", 1, None)],
        allow_fallback: true };
    assert_eq!(validate_blueprint(&bad), Err("非法题型 judge".to_string()));
}

#[test]
fn sections_with_enough_candidates_draw_as_asked() {
    let d = draw(plan_section(&spec("single", 10, Some((1, 3))), false, 12, None));
    assert!(!d.relax_difficulty);
    assert_eq!(d.qty, 10);
    assert!(d.fallback.is_none());
}

#[test]
fn short_sections_are_refused_without_fallback() {
    match plan_section(&spec("single", 10000, None), false, 694, None) {
        SectionStep::Refuse(e) => assert_eq!(e, "候选不足：题型single 需要10000题，可用694题。可在组卷设置中开启降级策略"),
        _ => panic!("expected a refusal"),
    }
}

#[test]
fn short_sections_relax_then_shrink() {
    let s = spec("single", 10, Some((4, 5)));
    assert!(matches!(plan_section(&s, true, 5, None), SectionStep::CountRelaxed));
    let d = draw(plan_section(&s, true, 5, Some(15)));
    assert!(d.relax_difficulty);
    assert_eq!(d.qty, 10);
    assert_eq!(d.fallback.as_deref(), Some("已放宽难度范围"));
    let d = draw(plan_section(&s, true, 5, Some(7)));
    assert!(d.relax_difficulty);
    assert_eq!(d.qty, 5);
    assert_eq!(d.fallback.as_deref(), Some("题量 10→5"));
    let d = draw(plan_section(&spec("single", 10000, None), true, 694, None));
    assert!(!d.relax_difficulty);
    assert_eq!(d.qty, 694);
    assert_eq!(d.fallback.as_deref(), Some("题量 10000→694"));
}

#[test]
fn candidate_queries() {
    assert_eq!(diff_clause(Some((2, 4))), " AND q.difficulty BETWEEN 2 AND 4");
    assert_eq!(diff_clause(None), "");
    assert_eq!(topic_clause(0), "");
    assert_eq!(topic_clause(3), " AND q.qid IN (SELECT qid FROM question_topics WHERE topic_id IN (?2,?3,?4))");
    assert_eq!(count_sql(1, Some((1, 2))),
        format!("SELECT COUNT(*){BASE} AND q.difficulty BETWEEN 1 AND 2 AND q.qid IN (SELECT qid FROM question_topics WHERE topic_id IN (?2))"));
    assert_eq!(draw_sql(0, Some((1, 3)), false),
        format!("SELECT q.bank_id,q.qid{BASE} AND q.difficulty BETWEEN 1 AND 3 AND q.qid NOT IN (SELECT value FROM json_each(?2)) ORDER BY RANDOM() LIMIT ?3"));
    assert_eq!(draw_sql(2, Some((1, 3)), true),
        format!("SELECT q.bank_id,q.qid{BASE} AND q.qid IN (SELECT qid FROM question_topics WHERE topic_id IN (?2,?3)) AND q.qid NOT IN (SELECT value FROM json_each(?4)) ORDER BY RANDOM() LIMIT ?5"));
}

fn ids(n: usize, p: &str) -> Vec<(String, String)> {
    (0..n).map(|i| ("smart-core".to_string(), format!("{p}{i}"))).collect()
}

#[test]
fn drawn_sections_accumulate() {
    let mut c = Composition::new();
    let s1 = spec("single", 3, None);
    let d1 = draw(plan_section(&s1, false, 40, None));
    assert_eq!(c.accept_draw(&s1, d1, ids(3, "S")), Ok(()));
    let s2 = spec("multi", 5, None);
    let d2 = draw(plan_section(&s2, true, 2, None));
    assert_eq!(c.accept_draw(&s2, d2, ids(2, "M")), Ok(()));
    assert_eq!(c.used_qids(), vec!["S0", "S1", "S2", "M0", "M1"]);
    let s3 = spec("single", 3, None);
    let d3 = draw(plan_section(&s3, false, 3, None));
    assert_eq!(c.accept_draw(&s3, d3, ids(2, "T")), Err("组卷抽题异常：需3实得2".to_string()));
    let r = c.finish();
    assert_eq!(r.total, 5);
    assert_eq!(r.sections.len(), 2);
    assert_eq!(r.sections[0].actual, 3);
    assert_eq!(r.sections[1].requested, 5);
    assert_eq!(r.sections[1].actual, 2);
    assert_eq!(r.sections[1].fallback.as_deref(), Some("题量 5→2"));
    assert_eq!(r.qids[3], ("smart-core".to_string(), "M0".to_string()));
}
