//! Blueprint exam composition: validation of the blueprint, the per-section decision
//! (draw as asked, relax the difficulty range, shrink the section, or refuse), the
//! queries that count and draw candidates, and the accumulation of the drawn questions.
//!
//! The database work stays with the caller, which runs the loop: for each section it
//! counts the candidates, asks [`plan_section`] what to do (counting again without the
//! difficulty range when asked to), draws, and hands the drawn ids to
//! [`Composition::accept_draw`].
use vstd::prelude::*;
use crate::text::{decimal, decimal_int, i64_to_string, push_str, str_eq, string_from_chars, usize_to_string};

verus! {

broadcast use vstd::string::group_string_axioms;

/// A composition request: the sections in order, and whether a section short of
/// candidates may be relaxed instead of refused.
pub struct Blueprint {
    pub sections: Vec<SectionSpec>,
    pub allow_fallback: bool,
}

/// One section: question type (`single` or `multi`), how many questions, the chapters
/// to draw from (empty: all) and an optional inclusive difficulty range.
pub struct SectionSpec {
    pub qtype: String,
    pub qty: i64,
    pub from_topics: Vec<i64>,
    pub difficulty: Option<(i64, i64)>,
}

/// The composed exam: a report per section and the drawn questions in order.
pub struct ComposeReport {
    pub sections: Vec<SectionReport>,
    pub total: usize,
    pub qids: Vec<(String, String)>,
}

/// What one section asked for and got, and how it was relaxed if it was.
pub struct SectionReport {
    pub qtype: String,
    pub requested: i64,
    pub actual: i64,
    pub fallback: Option<String>,
}

/// The question types a section may ask for.
pub open spec fn valid_qtype(t: Seq<char>) -> bool {
    t == "single"@ || t == "multi"@
}

/// The first section whose type is not a valid one.
pub open spec fn first_invalid(ss: Seq<SectionSpec>, k: int) -> Option<int>
    decreases ss.len() - k,
{
    if k < 0 || k >= ss.len() {
        None
    } else if !valid_qtype(ss[k].qtype@) {
        Some(k)
    } else {
        first_invalid(ss, k + 1)
    }
}

/// Refuses a blueprint with a section of unknown type, naming the first such type.
pub fn validate_blueprint(bp: &Blueprint) -> (r: Result<(), String>)
    ensures
        match r {
            Ok(()) => first_invalid(bp.sections@, 0) is None,
            Err(e) => match first_invalid(bp.sections@, 0) {
                Some(k) => e@ == "非法题型 "@ + bp.sections@[k].qtype@,
                None => false,
            },
        },
{
    let mut k: usize = 0;
    while k < bp.sections.len()
        invariant
            0 <= k <= bp.sections.len(),
            first_invalid(bp.sections@, 0) == first_invalid(bp.sections@, k as int),
        decreases bp.sections.len() - k,
    {
        let t = bp.sections[k].qtype.as_str();
        if !(str_eq(t, "single") || str_eq(t, "multi")) {
            let mut v: Vec<char> = Vec::new();
            push_str(&mut v, "非法题型 ");
            push_str(&mut v, t);
            return Err(string_from_chars(&v));
        }
        k += 1;
    }
    Ok(())
}

/// How a section is drawn: with or without its difficulty range, how many questions,
/// and the note recorded when the section was relaxed.
pub struct SectionDraw {
    pub relax_difficulty: bool,
    pub qty: i64,
    pub fallback: Option<String>,
}

/// The decision for one section.
pub enum SectionStep {
    /// The section cannot be served; the message says why.
    Refuse(String),
    /// Count the candidates again without the difficulty range, then decide again.
    CountRelaxed,
    /// Draw as described.
    Draw(SectionDraw),
}

/// The refusal when a section is short of candidates and relaxing is not allowed.
pub open spec fn shortage_msg(qtype: Seq<char>, qty: int, pool: int) -> Seq<char> {
    "候选不足：题型"@ + qtype + " 需要"@ + decimal_int(qty) + "题，可用"@ + decimal_int(pool)
        + "题。可在组卷设置中开启降级策略"@
}

/// The note for a section whose size was cut to the candidates available.
pub open spec fn shrink_msg(qty: int, pool: int) -> Seq<char> {
    "题量 "@ + decimal_int(qty) + "→"@ + decimal_int(pool)
}

/// The decision for a section with `pool` candidates (`relaxed`: the count without the
/// difficulty range, once known). Enough candidates: draw as asked. Too few and no
/// relaxing allowed: refuse. Too few with a difficulty range: count without it; then
/// draw without the range, as many as asked when that count suffices, else only
/// `pool`. Too few without a range: draw `pool`.
pub open spec fn section_step_spec(s: SectionSpec, allow: bool, pool: int, relaxed: Option<i64>) -> SectionStep {
    let qty = s.qty as int;
    if pool >= qty {
        SectionStep::Draw(SectionDraw { relax_difficulty: false, qty: s.qty, fallback: None })
    } else if !allow {
        SectionStep::Refuse(arbitrary())
    } else if s.difficulty is Some && relaxed is None {
        SectionStep::CountRelaxed
    } else if s.difficulty is Some && relaxed.unwrap() >= qty {
        SectionStep::Draw(SectionDraw { relax_difficulty: true, qty: s.qty, fallback: None })
    } else {
        SectionStep::Draw(SectionDraw { relax_difficulty: s.difficulty is Some, qty: pool as i64, fallback: None })
    }
}

/// The decision for one section (see [`section_step_spec`]); the notes are
/// `已放宽难度范围` when the relaxed range suffices and `题量 {qty}→{pool}` when the
/// section is cut.
pub fn plan_section(s: &SectionSpec, allow_fallback: bool, pool: i64, relaxed: Option<i64>) -> (r: SectionStep)
    ensures
        match (r, section_step_spec(*s, allow_fallback, pool as int, relaxed)) {
            (SectionStep::Refuse(e), SectionStep::Refuse(_)) => e@ == shortage_msg(s.qtype@, s.qty as int, pool as int),
            (SectionStep::CountRelaxed, SectionStep::CountRelaxed) => true,
            (SectionStep::Draw(d), SectionStep::Draw(w)) => {
                &&& d.relax_difficulty == w.relax_difficulty
                &&& d.qty == w.qty
                &&& match d.fallback {
                    None => pool >= s.qty,
                    Some(f) => pool < s.qty && if d.qty == s.qty {
                        f@ == "已放宽难度范围"@
                    } else {
                        f@ == shrink_msg(s.qty as int, pool as int)
                    },
                }
            },
            _ => false,
        },
{
    if pool >= s.qty {
        return SectionStep::Draw(SectionDraw { relax_difficulty: false, qty: s.qty, fallback: None });
    }
    if !allow_fallback {
        let mut v: Vec<char> = Vec::new();
        push_str(&mut v, "候选不足：题型");
        push_str(&mut v, s.qtype.as_str());
        push_str(&mut v, " 需要");
        let a = i64_to_string(s.qty);
        push_str(&mut v, a.as_str());
        push_str(&mut v, "题，可用");
        let b = i64_to_string(pool);
        push_str(&mut v, b.as_str());
        push_str(&mut v, "题。可在组卷设置中开启降级策略");
        return SectionStep::Refuse(string_from_chars(&v));
    }
    let has_diff = s.difficulty.is_some();
    if has_diff {
        match relaxed {
            None => {
                return SectionStep::CountRelaxed;
            },
            Some(cnt) => {
                if cnt >= s.qty {
                    return SectionStep::Draw(SectionDraw {
                        relax_difficulty: true,
                        qty: s.qty,
                        fallback: Some("已放宽难度范围".to_string()),
                    });
                }
            },
        }
    }
    let mut v: Vec<char> = Vec::new();
    push_str(&mut v, "题量 ");
    let a = i64_to_string(s.qty);
    push_str(&mut v, a.as_str());
    push_str(&mut v, "→");
    let b = i64_to_string(pool);
    push_str(&mut v, b.as_str());
    SectionStep::Draw(SectionDraw { relax_difficulty: has_diff, qty: pool, fallback: Some(string_from_chars(&v)) })
}

// ---------------------------------------------------------------- queries

/// The filter on difficulty written into a query: ` AND q.difficulty BETWEEN lo AND hi`,
/// or nothing.
pub open spec fn diff_clause_spec(d: Option<(i64, i64)>) -> Seq<char> {
    match d {
        Some((lo, hi)) => " AND q.difficulty BETWEEN "@ + decimal_int(lo as int) + " AND "@ + decimal_int(hi as int),
        None => Seq::empty(),
    }
}

/// The difficulty filter of a count or draw query.
pub fn diff_clause(d: Option<(i64, i64)>) -> (r: String)
    ensures
        r@ == diff_clause_spec(d),
{
    let mut v: Vec<char> = Vec::new();
    match d {
        Some((lo, hi)) => {
            push_str(&mut v, " AND q.difficulty BETWEEN ");
            let a = i64_to_string(lo);
            push_str(&mut v, a.as_str());
            push_str(&mut v, " AND ");
            let b = i64_to_string(hi);
            push_str(&mut v, b.as_str());
        },
        None => {},
    }
    string_from_chars(&v)
}

/// `?2,?3,…,?{n+1}`: the placeholders of `n` chapter ids (the type takes `?1`).
pub open spec fn placeholders(n: nat) -> Seq<char>
    decreases n,
{
    if n == 0 {
        Seq::empty()
    } else if n == 1 {
        "?2"@
    } else {
        placeholders((n - 1) as nat) + ",?"@ + decimal(n + 1)
    }
}

/// The chapter filter for `n` chapter ids, or nothing when `n` is 0.
pub open spec fn topic_clause_spec(n: nat) -> Seq<char> {
    if n == 0 {
        Seq::empty()
    } else {
        " AND q.qid IN (SELECT qid FROM question_topics WHERE topic_id IN ("@ + placeholders(n) + "))"@
    }
}

/// The chapter filter of a count or draw query over `n` chapter ids.
pub fn topic_clause(n: usize) -> (r: String)
    requires
        n < usize::MAX,
    ensures
        r@ == topic_clause_spec(n as nat),
{
    let mut v: Vec<char> = Vec::new();
    if n == 0 {
        return string_from_chars(&v);
    }
    push_str(&mut v, " AND q.qid IN (SELECT qid FROM question_topics WHERE topic_id IN (");
    let ghost v0 = v@;
    push_str(&mut v, "?2");
    proof {
        reveal_with_fuel(placeholders, 2);
    }
    let mut k: usize = 1;
    while k < n
        invariant
            1 <= k <= n,
            n < usize::MAX,
            v@ == v0 + placeholders(k as nat),
        decreases n - k,
    {
        push_str(&mut v, ",?");
        let d = usize_to_string(k + 2);
        push_str(&mut v, d.as_str());
        proof {
            assert(placeholders((k + 1) as nat) == placeholders(k as nat) + ",?"@ + decimal((k + 2) as nat));
            assert(v@ =~= v0 + placeholders((k + 1) as nat));
        }
        k += 1;
    }
    push_str(&mut v, "))");
    string_from_chars(&v)
}

/// The candidate filter shared by the count and draw queries: active, high-confidence
/// questions of the first enabled bank (built-in first), of the type bound to `?1`.
pub open spec fn candidate_base(head: Seq<char>) -> Seq<char> {
    head + " FROM questions q WHERE q.bank_id=(SELECT bank_id FROM banks WHERE is_enabled=1 ORDER BY is_builtin DESC LIMIT 1) AND q.status='active' AND q.answer_conf='high' AND q.type=?1"@
}

/// The query counting candidates of a type over `n_topics` chapters (their ids bound
/// to `?2`…) within the difficulty range `d`, if any.
pub open spec fn count_sql_spec(n_topics: nat, d: Option<(i64, i64)>) -> Seq<char> {
    candidate_base("SELECT COUNT(*)"@) + diff_clause_spec(d) + topic_clause_spec(n_topics)
}

/// The query counting the candidates of a section.
pub fn count_sql(n_topics: usize, d: Option<(i64, i64)>) -> (r: String)
    requires
        n_topics < usize::MAX,
    ensures
        r@ == count_sql_spec(n_topics as nat, d),
{
    let mut v: Vec<char> = Vec::new();
    push_str(&mut v, "SELECT COUNT(*)");
    push_str(&mut v, " FROM questions q WHERE q.bank_id=(SELECT bank_id FROM banks WHERE is_enabled=1 ORDER BY is_builtin DESC LIMIT 1) AND q.status='active' AND q.answer_conf='high' AND q.type=?1");
    let dc = diff_clause(d);
    push_str(&mut v, dc.as_str());
    let tc = topic_clause(n_topics);
    push_str(&mut v, tc.as_str());
    proof {
        assert(v@ =~= count_sql_spec(n_topics as nat, d));
    }
    string_from_chars(&v)
}

/// The query drawing a section at random: the candidate filter (with the difficulty
/// range unless relaxed), excluding the question ids bound as a JSON list to the
/// parameter after the chapter ids, limited by the next parameter.
pub open spec fn draw_sql_spec(n_topics: nat, d: Option<(i64, i64)>, relax: bool) -> Seq<char> {
    let k: nat = if n_topics == 0 { 2 } else { n_topics + 2 };
    candidate_base("SELECT q.bank_id,q.qid"@) + (if relax { Seq::empty() } else { diff_clause_spec(d) })
        + topic_clause_spec(n_topics) + " AND q.qid NOT IN (SELECT value FROM json_each(?"@ + decimal(k)
        + ")) ORDER BY RANDOM() LIMIT ?"@ + decimal(k + 1)
}

/// The query drawing the questions of a section.
pub fn draw_sql(n_topics: usize, d: Option<(i64, i64)>, relax: bool) -> (r: String)
    requires
        n_topics < usize::MAX - 3,
    ensures
        r@ == draw_sql_spec(n_topics as nat, d, relax),
{
    let mut v: Vec<char> = Vec::new();
    push_str(&mut v, "SELECT q.bank_id,q.qid");
    push_str(&mut v, " FROM questions q WHERE q.bank_id=(SELECT bank_id FROM banks WHERE is_enabled=1 ORDER BY is_builtin DESC LIMIT 1) AND q.status='active' AND q.answer_conf='high' AND q.type=?1");
    if !relax {
        let dc = diff_clause(d);
        push_str(&mut v, dc.as_str());
    }
    let tc = topic_clause(n_topics);
    push_str(&mut v, tc.as_str());
    let k: usize = if n_topics == 0 { 2 } else { n_topics + 2 };
    push_str(&mut v, " AND q.qid NOT IN (SELECT value FROM json_each(?");
    let a = usize_to_string(k);
    push_str(&mut v, a.as_str());
    push_str(&mut v, ")) ORDER BY RANDOM() LIMIT ?");
    let b = usize_to_string(k + 1);
    push_str(&mut v, b.as_str());
    proof {
        assert(v@ =~= draw_sql_spec(n_topics as nat, d, relax));
    }
    string_from_chars(&v)
}

// ---------------------------------------------------------------- accumulation

/// The exam being composed: the questions drawn so far and a report per section.
pub struct Composition {
    pub qids: Vec<(String, String)>,
    pub sections: Vec<SectionReport>,
}

/// The sum of the sizes reported for the sections.
pub open spec fn actual_sum(rs: Seq<SectionReport>) -> int
    decreases rs.len(),
{
    if rs.len() == 0 { 0 } else { actual_sum(rs.drop_last()) + rs.last().actual as int }
}

impl Composition {
    /// The drawn questions number as many as the sections report.
    pub open spec fn wf(&self) -> bool {
        self.qids@.len() == actual_sum(self.sections@)
    }

    /// An empty composition.
    pub fn new() -> (c: Composition)
        ensures
            c.wf(),
            c.qids@.len() == 0,
            c.sections@.len() == 0,
    {
        Composition { qids: Vec::new(), sections: Vec::new() }
    }

    /// The ids (without bank) of the questions drawn so far, to exclude from later draws.
    pub fn used_qids(&self) -> (r: Vec<String>)
        ensures
            r@.len() == self.qids@.len(),
            forall|k: int| 0 <= k < r@.len() ==> (#[trigger] r@[k])@ == self.qids@[k].1@,
    {
        let mut r: Vec<String> = Vec::new();
        let mut k: usize = 0;
        while k < self.qids.len()
            invariant
                0 <= k <= self.qids.len(),
                r@.len() == k,
                forall|x: int| 0 <= x < k ==> (#[trigger] r@[x])@ == self.qids@[x].1@,
            decreases self.qids.len() - k,
        {
            r.push(self.qids[k].1.clone());
            k += 1;
        }
        r
    }

    /// Records the questions drawn for section `s` under the decision `d`: refused when
    /// fewer than `d.qty` came back (`组卷抽题异常：需{qty}实得{n}`), otherwise appended
    /// in order, with a report of what was asked and drawn.
    pub fn accept_draw(&mut self, s: &SectionSpec, d: SectionDraw, picked: Vec<(String, String)>) -> (r: Result<(), String>)
        requires
            old(self).wf(),
            old(self).qids@.len() + picked@.len() <= usize::MAX,
            picked@.len() <= i64::MAX,
        ensures
            final(self).wf(),
            match r {
                Ok(()) => {
                    &&& picked@.len() >= d.qty
                    &&& final(self).qids@ == old(self).qids@ + picked@
                    &&& final(self).sections@.len() == old(self).sections@.len() + 1
                    &&& final(self).sections@.drop_last() == old(self).sections@
                    &&& final(self).sections@.last().qtype@ == s.qtype@
                    &&& final(self).sections@.last().requested == s.qty
                    &&& final(self).sections@.last().actual == picked@.len()
                    &&& final(self).sections@.last().fallback == d.fallback
                },
                Err(e) => {
                    &&& picked@.len() < d.qty
                    &&& e@ == "组卷抽题异常：需"@ + decimal_int(d.qty as int) + "实得"@ + decimal(picked@.len())
                    &&& *final(self) == *old(self)
                },
            },
    {
        let n = picked.len();
        if (n as i64) < d.qty {
            let mut v: Vec<char> = Vec::new();
            push_str(&mut v, "组卷抽题异常：需");
            let a = i64_to_string(d.qty);
            push_str(&mut v, a.as_str());
            push_str(&mut v, "实得");
            let b = usize_to_string(n);
            push_str(&mut v, b.as_str());
            return Err(string_from_chars(&v));
        }
        let ghost q0 = self.qids@;
        let ghost s0 = self.sections@;
        let mut i: usize = 0;
        while i < picked.len()
            invariant
                0 <= i <= picked.len(),
                self.qids@ == q0 + picked@.take(i as int),
                self.sections@ == s0,
                q0.len() + picked@.len() <= usize::MAX,
            decreases picked.len() - i,
        {
            let (b, q) = (picked[i].0.clone(), picked[i].1.clone());
            self.qids.push((b, q));
            proof {
                assert(self.qids@ =~= q0 + picked@.take(i + 1));
            }
            i += 1;
        }
        proof {
            assert(picked@.take(picked@.len() as int) =~= picked@);
        }
        self.sections.push(SectionReport { qtype: s.qtype.clone(), requested: s.qty, actual: n as i64, fallback: d.fallback });
        proof {
            assert(self.sections@.drop_last() =~= s0);
        }
        Ok(())
    }

    /// The composed exam.
    pub fn finish(self) -> (r: ComposeReport)
        ensures
            r.qids@ == self.qids@,
            r.sections@ == self.sections@,
            r.total == self.qids@.len(),
    {
        let total = self.qids.len();
        ComposeReport { sections: self.sections, total, qids: self.qids }
    }
}

/// The number of questions of a composed exam is the sum of its sections' sizes.
pub proof fn law_total_is_sum_of_sections(c: Composition)
    requires
        c.wf(),
    ensures
        c.qids@.len() == actual_sum(c.sections@),
{
}

} // verus!
