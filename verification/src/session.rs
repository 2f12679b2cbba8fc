//! Practice sessions: answer grading (letter normalisation and the all-or-nothing
//! rule), session modes, drafts, what finishing a session records, and the per-chapter
//! statistics of the dashboard.
use vstd::prelude::*;
use crate::bank::QuestionRow;
use crate::text::{chars_of, i64_to_string, push_str, str_eq, string_from_chars};

verus! {

/// `seq![c]` when `present`, the empty sequence otherwise.
pub open spec fn letter_if(present: bool, c: char) -> Seq<char> {
    if present { seq![c] } else { Seq::empty() }
}

/// The option letters `A`..=`E` that occur in `s`, each once, in alphabetical order.
pub open spec fn norm_letters_spec(s: Seq<char>) -> Seq<char> {
    letter_if(s.contains('A'), 'A') + letter_if(s.contains('B'), 'B') + letter_if(s.contains('C'), 'C')
        + letter_if(s.contains('D'), 'D') + letter_if(s.contains('E'), 'E')
}

/// Grading of a picked answer against the reference answer, both read as letter sets:
/// no reference letters means the question is not scored (`None`); an empty pick is
/// wrong; otherwise the pick is right exactly when the two letter sets coincide.
pub open spec fn grade_spec(answer: Seq<char>, picked: Seq<char>) -> Option<bool> {
    let a = norm_letters_spec(answer);
    let p = norm_letters_spec(picked);
    if a.len() == 0 {
        None
    } else if p.len() == 0 {
        Some(false)
    } else {
        Some(p == a)
    }
}

/// Which of the letters `A`..=`E` occur in `s`.
pub open spec fn letter_flags_spec(s: Seq<char>) -> (bool, bool, bool, bool, bool) {
    (s.contains('A'), s.contains('B'), s.contains('C'), s.contains('D'), s.contains('E'))
}

/// The normalised letters determine, and are determined by, the letter flags.
pub proof fn lemma_norm_letters_flags(s: Seq<char>, t: Seq<char>)
    ensures
        (norm_letters_spec(s) == norm_letters_spec(t)) <==> (letter_flags_spec(s) == letter_flags_spec(t)),
        norm_letters_spec(s).len() == 0 <==> !(s.contains('A') || s.contains('B') || s.contains('C')
            || s.contains('D') || s.contains('E')),
{
    lemma_norm_letters_contains(s);
    lemma_norm_letters_contains(t);
    if norm_letters_spec(s) == norm_letters_spec(t) {
        assert(norm_letters_spec(s).contains('A') == norm_letters_spec(t).contains('A'));
        assert(norm_letters_spec(s).contains('B') == norm_letters_spec(t).contains('B'));
        assert(norm_letters_spec(s).contains('C') == norm_letters_spec(t).contains('C'));
        assert(norm_letters_spec(s).contains('D') == norm_letters_spec(t).contains('D'));
        assert(norm_letters_spec(s).contains('E') == norm_letters_spec(t).contains('E'));
    }
    if norm_letters_spec(s).len() == 0 {
        assert(!norm_letters_spec(s).contains('A'));
        assert(!norm_letters_spec(s).contains('B'));
        assert(!norm_letters_spec(s).contains('C'));
        assert(!norm_letters_spec(s).contains('D'));
        assert(!norm_letters_spec(s).contains('E'));
    }
}

/// A letter `A`..=`E` occurs in the normalised form exactly when it occurs in `s`.
pub proof fn lemma_norm_letters_contains(s: Seq<char>)
    ensures
        norm_letters_spec(s).contains('A') == s.contains('A'),
        norm_letters_spec(s).contains('B') == s.contains('B'),
        norm_letters_spec(s).contains('C') == s.contains('C'),
        norm_letters_spec(s).contains('D') == s.contains('D'),
        norm_letters_spec(s).contains('E') == s.contains('E'),
        forall|c: char| #[trigger] norm_letters_spec(s).contains(c) ==> 'A' <= c <= 'E',
{
    let a = letter_if(s.contains('A'), 'A');
    let b = letter_if(s.contains('B'), 'B');
    let c = letter_if(s.contains('C'), 'C');
    let d = letter_if(s.contains('D'), 'D');
    let e = letter_if(s.contains('E'), 'E');
    let n = norm_letters_spec(s);
    assert(n == a + b + c + d + e);
    assert forall|x: char| #[trigger] n.contains(x) <==> (a.contains(x) || b.contains(x) || c.contains(x)
        || d.contains(x) || e.contains(x)) by {
        broadcast use vstd::seq_lib::lemma_seq_concat_contains_all_elements;
    }
    assert(letter_if(true, 'A').contains('A')) by { assert(seq!['A'][0] == 'A'); }
    assert(letter_if(true, 'B').contains('B')) by { assert(seq!['B'][0] == 'B'); }
    assert(letter_if(true, 'C').contains('C')) by { assert(seq!['C'][0] == 'C'); }
    assert(letter_if(true, 'D').contains('D')) by { assert(seq!['D'][0] == 'D'); }
    assert(letter_if(true, 'E').contains('E')) by { assert(seq!['E'][0] == 'E'); }
}

/// Scans `s` once and reports which of the letters `A`..=`E` occur in it.
fn letter_flags(s: &str) -> (f: (bool, bool, bool, bool, bool))
    ensures
        f == letter_flags_spec(s@),
{
    let cs = chars_of(s);
    let mut fa = false;
    let mut fb = false;
    let mut fc = false;
    let mut fd = false;
    let mut fe = false;
    let mut i: usize = 0;
    while i < cs.len()
        invariant
            0 <= i <= cs.len(),
            cs@ == s@,
            fa == cs@.take(i as int).contains('A'),
            fb == cs@.take(i as int).contains('B'),
            fc == cs@.take(i as int).contains('C'),
            fd == cs@.take(i as int).contains('D'),
            fe == cs@.take(i as int).contains('E'),
        decreases cs.len() - i,
    {
        let c = cs[i];
        proof {
            let pre = cs@.take(i as int);
            let post = cs@.take(i + 1);
            assert(post == pre.push(c));
            assert forall|x: char| post.contains(x) <==> (pre.contains(x) || x == c) by {
                vstd::seq_lib::lemma_seq_contains_after_push(pre, c, x);
            }
        }
        if c == 'A' { fa = true; }
        if c == 'B' { fb = true; }
        if c == 'C' { fc = true; }
        if c == 'D' { fd = true; }
        if c == 'E' { fe = true; }
        i += 1;
    }
    proof {
        assert(cs@.take(cs@.len() as int) == cs@);
    }
    (fa, fb, fc, fd, fe)
}

/// Normalises an answer string to its option letters `A`..=`E`: other characters are
/// dropped, repeats collapse, and the letters come out in alphabetical order
/// (so `"D,B,A"` and `"ABD"` both give `"ABD"`).
pub fn norm_letters(s: &str) -> (r: String)
    ensures
        r@ == norm_letters_spec(s@),
{
    let f = letter_flags(s);
    let mut v: Vec<char> = Vec::new();
    if f.0 { v.push('A'); }
    if f.1 { v.push('B'); }
    if f.2 { v.push('C'); }
    if f.3 { v.push('D'); }
    if f.4 { v.push('E'); }
    proof {
        let s2 = s@;
        assert(v@ =~= norm_letters_spec(s2));
    }
    string_from_chars(&v)
}

/// Grades one answer. `qtype` and `policy` select among rules that currently all
/// coincide (all-or-nothing): the pick scores only when its letter set equals the
/// answer's. A question whose answer has no letters is not scored (`None`); an
/// empty pick is graded wrong.
pub fn grade(qtype: &str, answer: &str, picked: &str, policy: &str) -> (r: Option<bool>)
    ensures
        r == grade_spec(answer@, picked@),
{
    let a = letter_flags(answer);
    let p = letter_flags(picked);
    proof {
        lemma_norm_letters_flags(answer@, picked@);
        lemma_norm_letters_flags(picked@, picked@);
    }
    if !(a.0 || a.1 || a.2 || a.3 || a.4) {
        return None;
    }
    if !(p.0 || p.1 || p.2 || p.3 || p.4) {
        return Some(false);
    }
    Some(a.0 == p.0 && a.1 == p.1 && a.2 == p.2 && a.3 == p.3 && a.4 == p.4)
}

// ---------------------------------------------------------------- sessions

/// The session modes.
pub open spec fn valid_mode(m: Seq<char>) -> bool {
    m == "practice"@ || m == "random"@ || m == "recite"@ || m == "review"@ || m == "wrong"@
        || m == "fav"@ || m == "exam"@
}

/// The modes whose results drive the spaced-repetition schedule (not exams, not
/// recitation).
pub open spec fn srs_mode(m: Seq<char>) -> bool {
    m == "practice"@ || m == "random"@ || m == "review"@ || m == "wrong"@ || m == "fav"@
}

/// Refuses an unknown session mode with `非法模式 {mode}`.
pub fn check_mode(mode: &str) -> (r: Result<(), String>)
    ensures
        match r {
            Ok(()) => valid_mode(mode@),
            Err(e) => !valid_mode(mode@) && e@ == "非法模式 "@ + mode@,
        },
{
    if str_eq(mode, "practice") || str_eq(mode, "random") || str_eq(mode, "recite") || str_eq(mode, "review")
        || str_eq(mode, "wrong") || str_eq(mode, "fav") || str_eq(mode, "exam") {
        return Ok(());
    }
    let mut v: Vec<char> = Vec::new();
    push_str(&mut v, "非法模式 ");
    push_str(&mut v, mode);
    Err(string_from_chars(&v))
}

/// Whether results in `mode` update the review schedule.
pub fn is_srs_mode(mode: &str) -> (r: bool)
    ensures
        r == srs_mode(mode@),
{
    str_eq(mode, "practice") || str_eq(mode, "random") || str_eq(mode, "review") || str_eq(mode, "wrong")
        || str_eq(mode, "fav")
}

/// A wrong-book entry stays active until it has been answered right twice in a row.
pub open spec fn wrong_active_spec(repetitions: int) -> bool {
    repetitions < 2
}

/// Whether a wrong-book entry with `repetitions` consecutive correct reviews is active.
pub fn wrong_active(repetitions: i64) -> (r: bool)
    ensures
        r == wrong_active_spec(repetitions as int),
{
    repetitions < 2
}

/// An answer saved in a draft, with the time spent in milliseconds.
pub struct DraftPick {
    pub picked: String,
    pub t: Option<i64>,
}

/// The saved state of an unfinished session: answers and marks by [`draft_key`], the
/// remaining time and the current position. Where a key occurs more than once, its
/// first entry is the one read.
pub struct Draft {
    pub picks: Vec<(String, DraftPick)>,
    pub marks: Vec<(String, bool)>,
    pub remaining_sec: Option<i64>,
    pub idx: Option<i64>,
}

/// The key of a question in a draft: `{bank_id}::{qid}`.
pub open spec fn draft_key_spec(bank_id: Seq<char>, qid: Seq<char>) -> Seq<char> {
    bank_id + "::"@ + qid
}

/// The key of a question in a draft.
pub fn draft_key(bank_id: &str, qid: &str) -> (r: String)
    ensures
        r@ == draft_key_spec(bank_id@, qid@),
{
    let mut v: Vec<char> = Vec::new();
    push_str(&mut v, bank_id);
    push_str(&mut v, "::");
    push_str(&mut v, qid);
    string_from_chars(&v)
}

/// The position of the answer saved under `key`.
pub open spec fn find_pick(picks: Seq<(String, DraftPick)>, key: Seq<char>) -> Option<int>
    decreases picks.len(),
{
    if picks.len() == 0 {
        None
    } else {
        match find_pick(picks.drop_last(), key) {
            Some(k) => Some(k),
            None => if picks.last().0@ == key { Some(picks.len() - 1) } else { None },
        }
    }
}

proof fn lemma_find_pick(picks: Seq<(String, DraftPick)>, key: Seq<char>)
    ensures
        match find_pick(picks, key) {
            Some(k) => 0 <= k < picks.len() && picks[k].0@ == key
                && forall|x: int| 0 <= x < k ==> (#[trigger] picks[x]).0@ != key,
            None => forall|x: int| 0 <= x < picks.len() ==> (#[trigger] picks[x]).0@ != key,
        },
    decreases picks.len(),
{
    if picks.len() > 0 {
        let d = picks.drop_last();
        lemma_find_pick(d, key);
        assert forall|x: int| 0 <= x < d.len() implies d[x] == picks[x] by {}
    }
}

/// What was picked for question `q` in the draft (empty when unanswered).
pub open spec fn picked_of(picks: Seq<(String, DraftPick)>, q: QuestionRow) -> Seq<char> {
    match find_pick(picks, draft_key_spec(q.bank_id@, q.qid@)) {
        Some(k) => picks[k].1.picked@,
        None => Seq::empty(),
    }
}

/// The time recorded for question `q` in the draft.
pub open spec fn time_of(picks: Seq<(String, DraftPick)>, q: QuestionRow) -> Option<i64> {
    match find_pick(picks, draft_key_spec(q.bank_id@, q.qid@)) {
        Some(k) => picks[k].1.t,
        None => None,
    }
}

/// How a question is graded when a session finishes: not scored when it has no answer
/// or its answer is not of high confidence, otherwise by [`grade_spec`] (so an
/// unanswered question counts as wrong).
pub open spec fn graded_spec(q: QuestionRow, picked: Seq<char>) -> Option<bool> {
    if q.answer@.len() == 0 || q.answer_conf@ != "high"@ { None } else { grade_spec(q.answer@, picked) }
}

/// The grading of question `i` of a finishing session.
pub open spec fn graded_at(qs: Seq<QuestionRow>, picks: Seq<(String, DraftPick)>, i: int) -> Option<bool> {
    graded_spec(qs[i], picked_of(picks, qs[i]))
}

/// How many of the first `n` questions are scored.
pub open spec fn scored_upto(qs: Seq<QuestionRow>, picks: Seq<(String, DraftPick)>, n: int) -> int
    decreases n,
{
    if n <= 0 { 0 } else { scored_upto(qs, picks, n - 1) + if graded_at(qs, picks, n - 1) is Some { 1int } else { 0 } }
}

/// How many of the first `n` questions are answered right.
pub open spec fn correct_upto(qs: Seq<QuestionRow>, picks: Seq<(String, DraftPick)>, n: int) -> int
    decreases n,
{
    if n <= 0 { 0 } else { correct_upto(qs, picks, n - 1) + if graded_at(qs, picks, n - 1) == Some(true) { 1int } else { 0 } }
}

/// The questions among the first `n` that go to the wrong book: scored and wrong.
pub open spec fn wrong_upto(qs: Seq<QuestionRow>, picks: Seq<(String, DraftPick)>, n: int) -> Seq<int>
    decreases n,
{
    if n <= 0 {
        Seq::empty()
    } else if graded_at(qs, picks, n - 1) == Some(false) {
        wrong_upto(qs, picks, n - 1).push(n - 1)
    } else {
        wrong_upto(qs, picks, n - 1)
    }
}

/// The questions among the first `n` whose review schedule is updated: the scored ones.
pub open spec fn srs_upto(qs: Seq<QuestionRow>, picks: Seq<(String, DraftPick)>, n: int) -> Seq<int>
    decreases n,
{
    if n <= 0 {
        Seq::empty()
    } else if graded_at(qs, picks, n - 1) is Some {
        srs_upto(qs, picks, n - 1).push(n - 1)
    } else {
        srs_upto(qs, picks, n - 1)
    }
}

/// The answer record written for one question of a finished session.
pub struct AnswerRecord {
    pub bank_id: String,
    pub qid: String,
    pub picked: String,
    pub is_correct: Option<bool>,
    pub time_cost_ms: Option<i64>,
}

/// What finishing a session writes: an answer record per question in order, the
/// questions to add to the wrong book, the review-schedule updates (question, whether
/// right), and the numbers of scored and correct questions.
pub struct FinishPlan {
    pub records: Vec<AnswerRecord>,
    pub wrong: Vec<(String, String)>,
    pub srs: Vec<(String, String, bool)>,
    pub scored: i64,
    pub correct: i64,
}

/// The plan for finishing a session over `qs` with the answers in `picks` in `mode`.
pub open spec fn finish_plan_ok(qs: Seq<QuestionRow>, picks: Seq<(String, DraftPick)>, mode: Seq<char>, p: FinishPlan) -> bool {
    let n = qs.len() as int;
    let w = wrong_upto(qs, picks, n);
    let u = if srs_mode(mode) { srs_upto(qs, picks, n) } else { Seq::empty() };
    &&& p.records@.len() == n
    &&& forall|i: int| 0 <= i < n ==> {
        let r = #[trigger] p.records@[i];
        &&& r.bank_id@ == qs[i].bank_id@
        &&& r.qid@ == qs[i].qid@
        &&& r.picked@ == picked_of(picks, qs[i])
        &&& r.is_correct == graded_at(qs, picks, i)
        &&& r.time_cost_ms == time_of(picks, qs[i])
    }
    &&& p.wrong@.len() == w.len()
    &&& forall|k: int| 0 <= k < w.len() ==> (#[trigger] p.wrong@[k]).0@ == qs[w[k]].bank_id@
        && p.wrong@[k].1@ == qs[w[k]].qid@
    &&& p.srs@.len() == u.len()
    &&& forall|k: int| 0 <= k < u.len() ==> (#[trigger] p.srs@[k]).0@ == qs[u[k]].bank_id@
        && p.srs@[k].1@ == qs[u[k]].qid@ && Some(p.srs@[k].2) == graded_at(qs, picks, u[k])
    &&& p.scored == scored_upto(qs, picks, n)
    &&& p.correct == correct_upto(qs, picks, n)
}

proof fn lemma_counts_bounded(qs: Seq<QuestionRow>, picks: Seq<(String, DraftPick)>, n: int)
    requires
        0 <= n,
    ensures
        0 <= correct_upto(qs, picks, n) <= scored_upto(qs, picks, n) <= n,
        wrong_upto(qs, picks, n).len() == scored_upto(qs, picks, n) - correct_upto(qs, picks, n),
        srs_upto(qs, picks, n).len() == scored_upto(qs, picks, n),
    decreases n,
{
    if n > 0 {
        lemma_counts_bounded(qs, picks, n - 1);
    }
}

proof fn lemma_wrong_bounds(qs: Seq<QuestionRow>, picks: Seq<(String, DraftPick)>, n: int)
    requires
        0 <= n,
    ensures
        forall|k: int| 0 <= k < wrong_upto(qs, picks, n).len() ==> 0 <= #[trigger] wrong_upto(qs, picks, n)[k] < n,
        forall|k: int| 0 <= k < srs_upto(qs, picks, n).len() ==> 0 <= #[trigger] srs_upto(qs, picks, n)[k] < n,
    decreases n,
{
    if n > 0 {
        lemma_wrong_bounds(qs, picks, n - 1);
        let w0 = wrong_upto(qs, picks, n - 1);
        let w = wrong_upto(qs, picks, n);
        assert forall|k: int| 0 <= k < w.len() implies 0 <= #[trigger] w[k] < n by {
            if k < w0.len() {
                assert(w[k] == w0[k]);
            }
        }
        let u0 = srs_upto(qs, picks, n - 1);
        let u = srs_upto(qs, picks, n);
        assert forall|k: int| 0 <= k < u.len() implies 0 <= #[trigger] u[k] < n by {
            if k < u0.len() {
                assert(u[k] == u0[k]);
            }
        }
    }
}

/// The answer saved for question `q`: its position in `picks`.
fn find_pick_exec(picks: &Vec<(String, DraftPick)>, key: &str) -> (r: Option<usize>)
    ensures
        match r {
            Some(k) => find_pick(picks@, key@) == Some(k as int),
            None => find_pick(picks@, key@) is None,
        },
{
    proof {
        lemma_find_pick(picks@, key@);
    }
    let mut k: usize = 0;
    while k < picks.len()
        invariant
            0 <= k <= picks.len(),
            forall|x: int| 0 <= x < k ==> (#[trigger] picks@[x]).0@ != key@,
        decreases picks.len() - k,
    {
        if str_eq(picks[k].0.as_str(), key) {
            proof {
                lemma_find_pick(picks@, key@);
                match find_pick(picks@, key@) {
                    Some(f) => {
                        if f < k {
                            assert(picks@[f].0@ != key@);
                        }
                        if f > k {
                            assert(picks@[k as int].0@ != key@);
                        }
                    },
                    None => {
                        assert(picks@[k as int].0@ != key@);
                    },
                }
            }
            return Some(k);
        }
        k += 1;
    }
    proof {
        lemma_find_pick(picks@, key@);
        if find_pick(picks@, key@) is Some {
            let f = find_pick(picks@, key@)->0;
            assert(picks@[f].0@ == key@);
        }
    }
    None
}

/// Grades a finishing session: for each question in order its answer record (what was
/// picked, whether right, the time spent), the wrong answers for the wrong book, the
/// review-schedule updates when `mode` drives the schedule, and the scored and correct
/// counts (see [`finish_plan_ok`]).
pub fn grade_session(qs: &Vec<QuestionRow>, draft: &Draft, mode: &str, policy: &str) -> (p: FinishPlan)
    requires
        qs@.len() <= i64::MAX,
    ensures
        finish_plan_ok(qs@, draft.picks@, mode@, p),
        0 <= p.correct <= p.scored <= qs@.len(),
{
    let ghost picks = draft.picks@;
    let srs = is_srs_mode(mode);
    let mut records: Vec<AnswerRecord> = Vec::new();
    let mut wrong: Vec<(String, String)> = Vec::new();
    let mut sched: Vec<(String, String, bool)> = Vec::new();
    let mut scored: i64 = 0;
    let mut correct: i64 = 0;
    let mut i: usize = 0;
    while i < qs.len()
        invariant
            0 <= i <= qs.len(),
            qs@.len() <= i64::MAX,
            picks == draft.picks@,
            srs == srs_mode(mode@),
            records@.len() == i,
            forall|x: int| 0 <= x < i ==> {
                let r = #[trigger] records@[x];
                &&& r.bank_id@ == qs@[x].bank_id@
                &&& r.qid@ == qs@[x].qid@
                &&& r.picked@ == picked_of(picks, qs@[x])
                &&& r.is_correct == graded_at(qs@, picks, x)
                &&& r.time_cost_ms == time_of(picks, qs@[x])
            },
            wrong@.len() == wrong_upto(qs@, picks, i as int).len(),
            forall|k: int| 0 <= k < wrong@.len() ==> (#[trigger] wrong@[k]).0@ == qs@[wrong_upto(qs@, picks, i as int)[k]].bank_id@
                && wrong@[k].1@ == qs@[wrong_upto(qs@, picks, i as int)[k]].qid@,
            srs ==> sched@.len() == srs_upto(qs@, picks, i as int).len(),
            !srs ==> sched@.len() == 0,
            srs ==> forall|k: int| 0 <= k < sched@.len() ==> (#[trigger] sched@[k]).0@ == qs@[srs_upto(qs@, picks, i as int)[k]].bank_id@
                && sched@[k].1@ == qs@[srs_upto(qs@, picks, i as int)[k]].qid@
                && Some(sched@[k].2) == graded_at(qs@, picks, srs_upto(qs@, picks, i as int)[k]),
            scored == scored_upto(qs@, picks, i as int),
            correct == correct_upto(qs@, picks, i as int),
        decreases qs.len() - i,
    {
        let q = &qs[i];
        proof {
            lemma_counts_bounded(qs@, picks, i as int);
        }
        let key = draft_key(q.bank_id.as_str(), q.qid.as_str());
        proof {
            lemma_find_pick(draft.picks@, key@);
            lemma_wrong_bounds(qs@, picks, i as int);
            lemma_wrong_bounds(qs@, picks, i + 1);
        }
        let (picked, t) = match find_pick_exec(&draft.picks, key.as_str()) {
            Some(k) => (draft.picks[k].1.picked.clone(), draft.picks[k].1.t),
            None => (string_from_chars(&Vec::new()), None),
        };
        let graded = if q.answer.as_str().unicode_len() == 0 || !str_eq(q.answer_conf.as_str(), "high") {
            None
        } else {
            grade(q.qtype.as_str(), q.answer.as_str(), picked.as_str(), policy)
        };
        proof {
            assert(picked@ == picked_of(picks, qs@[i as int]));
            assert(graded == graded_at(qs@, picks, i as int));
        }
        records.push(AnswerRecord {
            bank_id: q.bank_id.clone(),
            qid: q.qid.clone(),
            picked,
            is_correct: graded,
            time_cost_ms: t,
        });
        match graded {
            Some(g) => {
                scored = scored + 1;
                if g {
                    correct = correct + 1;
                } else {
                    wrong.push((q.bank_id.clone(), q.qid.clone()));
                }
                if srs {
                    sched.push((q.bank_id.clone(), q.qid.clone(), g));
                }
            },
            None => {},
        }
        i += 1;
    }
    proof {
        lemma_counts_bounded(qs@, picks, qs@.len() as int);
    }
    FinishPlan { records, wrong, srs: sched, scored, correct }
}

/// Finishing a session scores no more questions than it has, counts no more right
/// answers than scored ones, and puts exactly the scored wrong answers in the wrong book.
pub proof fn law_finish_counts(qs: Seq<QuestionRow>, picks: Seq<(String, DraftPick)>, mode: Seq<char>, p: FinishPlan)
    requires
        finish_plan_ok(qs, picks, mode, p),
    ensures
        0 <= p.correct <= p.scored <= qs.len(),
        p.wrong@.len() == p.scored - p.correct,
        srs_mode(mode) ==> p.srs@.len() == p.scored,
        !srs_mode(mode) ==> p.srs@.len() == 0,
{
    lemma_counts_bounded(qs, picks, qs.len() as int);
}

// ---------------------------------------------------------------- dashboard

/// Scored answers and right answers of one chapter name.
pub struct TopicStat {
    pub topic: String,
    pub a: i64,
    pub c: i64,
}

/// How many of the first `n` scored records are for question `(b, q)` (`right`: and
/// were right).
pub open spec fn answered(recs: Seq<(String, String, bool)>, b: Seq<char>, q: Seq<char>, right: bool, n: int) -> int
    decreases n,
{
    if n <= 0 {
        0
    } else {
        let r = recs[n - 1];
        answered(recs, b, q, right, n - 1) + if r.0@ == b && r.1@ == q && (!right || r.2) { 1int } else { 0 }
    }
}

/// Scored answers (`right`: right answers) of the question of chapter row `row`.
pub open spec fn row_count(recs: Seq<(String, String, bool)>, row: (String, String, String), right: bool) -> int {
    answered(recs, row.0@, row.1@, right, recs.len() as int)
}

/// The sum over the first `m` chapter rows named `t` of their questions' counts.
pub open spec fn topic_sum(recs: Seq<(String, String, bool)>, rows: Seq<(String, String, String)>, t: Seq<char>, right: bool, m: int) -> int
    decreases m,
{
    if m <= 0 {
        0
    } else {
        topic_sum(recs, rows, t, right, m - 1) + if rows[m - 1].2@ == t { row_count(recs, rows[m - 1], right) } else { 0 }
    }
}

/// Some chapter row among the first `m` named `t` has a question with scored answers.
pub open spec fn topic_present(recs: Seq<(String, String, bool)>, rows: Seq<(String, String, String)>, t: Seq<char>, m: int) -> bool {
    exists|k: int| 0 <= k < m && (#[trigger] rows[k]).2@ == t && row_count(recs, rows[k], false) > 0
}

/// The per-chapter statistics of the dashboard, from the scored answer records
/// `(bank, qid, right)` and the chapter rows `(bank, qid, chapter name)`: one entry per
/// chapter name with a scored answer, holding the numbers of scored and right answers
/// summed over its rows, most answered first.
pub open spec fn topic_stats_ok(recs: Seq<(String, String, bool)>, rows: Seq<(String, String, String)>, out: Seq<TopicStat>) -> bool {
    let m = rows.len() as int;
    &&& forall|i: int, j: int| 0 <= i < j < out.len() ==> (#[trigger] out[i]).a >= (#[trigger] out[j]).a
    &&& forall|i: int, j: int| 0 <= i < j < out.len() ==> (#[trigger] out[i]).topic@ != (#[trigger] out[j]).topic@
    &&& forall|j: int| 0 <= j < out.len() ==> {
        let e = #[trigger] out[j];
        &&& topic_present(recs, rows, e.topic@, m)
        &&& e.a == topic_sum(recs, rows, e.topic@, false, m)
        &&& e.c == topic_sum(recs, rows, e.topic@, true, m)
    }
    &&& forall|k: int| 0 <= k < m && row_count(recs, #[trigger] rows[k], false) > 0
        ==> exists|j: int| 0 <= j < out.len() && (#[trigger] out[j]).topic@ == rows[k].2@
}

proof fn lemma_answered_bounds(recs: Seq<(String, String, bool)>, b: Seq<char>, q: Seq<char>, n: int)
    requires
        0 <= n,
    ensures
        0 <= answered(recs, b, q, true, n) <= answered(recs, b, q, false, n) <= n,
    decreases n,
{
    if n > 0 {
        lemma_answered_bounds(recs, b, q, n - 1);
    }
}

proof fn lemma_topic_sum_bounds(recs: Seq<(String, String, bool)>, rows: Seq<(String, String, String)>, t: Seq<char>, m: int)
    requires
        0 <= m <= rows.len(),
    ensures
        0 <= topic_sum(recs, rows, t, true, m) <= topic_sum(recs, rows, t, false, m) <= m * recs.len(),
        !topic_present(recs, rows, t, m) ==> topic_sum(recs, rows, t, false, m) == 0
            && topic_sum(recs, rows, t, true, m) == 0,
    decreases m,
{
    if m > 0 {
        lemma_topic_sum_bounds(recs, rows, t, m - 1);
        let r = rows[m - 1];
        lemma_answered_bounds(recs, r.0@, r.1@, recs.len() as int);
        assert((m - 1) * recs.len() + recs.len() == m * recs.len()) by (nonlinear_arith);
        if !topic_present(recs, rows, t, m) {
            assert(!topic_present(recs, rows, t, m - 1)) by {
                if topic_present(recs, rows, t, m - 1) {
                    let k = choose|k: int| 0 <= k < m - 1 && (#[trigger] rows[k]).2@ == t && row_count(recs, rows[k], false) > 0;
                    assert(0 <= k < m && rows[k].2@ == t && row_count(recs, rows[k], false) > 0);
                }
            }
            if r.2@ == t {
                assert(row_count(recs, r, false) <= 0);
            }
        }
    }
}

/// Scored and right answers of question `(b, q)`.
fn question_counts(recs: &Vec<(String, String, bool)>, b: &str, q: &str) -> (r: (i64, i64))
    requires
        recs@.len() <= i64::MAX,
    ensures
        r.0 == answered(recs@, b@, q@, false, recs@.len() as int),
        r.1 == answered(recs@, b@, q@, true, recs@.len() as int),
{
    let mut a: i64 = 0;
    let mut c: i64 = 0;
    let mut i: usize = 0;
    while i < recs.len()
        invariant
            0 <= i <= recs.len(),
            recs@.len() <= i64::MAX,
            a == answered(recs@, b@, q@, false, i as int),
            c == answered(recs@, b@, q@, true, i as int),
        decreases recs.len() - i,
    {
        proof {
            lemma_answered_bounds(recs@, b@, q@, i as int);
        }
        if str_eq(recs[i].0.as_str(), b) && str_eq(recs[i].1.as_str(), q) {
            a = a + 1;
            if recs[i].2 {
                c = c + 1;
            }
        }
        i += 1;
    }
    (a, c)
}

/// Some position of `src` holds `k`.
pub open spec fn hits(src: Seq<int>, k: int) -> bool {
    exists|j: int| 0 <= j < src.len() && #[trigger] src[j] == k
}

/// Adds up scored and right answers per chapter name, in order of first appearance.
fn aggregate_topics(recs: &Vec<(String, String, bool)>, rows: &Vec<(String, String, String)>) -> (acc: Vec<TopicStat>)
    requires
        recs@.len() <= i64::MAX,
        rows@.len() * recs@.len() <= i64::MAX,
    ensures
        forall|i: int, j: int| 0 <= i < j < acc@.len() ==> (#[trigger] acc@[i]).topic@ != (#[trigger] acc@[j]).topic@,
        forall|j: int| 0 <= j < acc@.len() ==> {
            let e = #[trigger] acc@[j];
            &&& topic_present(recs@, rows@, e.topic@, rows@.len() as int)
            &&& e.a == topic_sum(recs@, rows@, e.topic@, false, rows@.len() as int)
            &&& e.c == topic_sum(recs@, rows@, e.topic@, true, rows@.len() as int)
        },
        forall|k: int| 0 <= k < rows@.len() && row_count(recs@, #[trigger] rows@[k], false) > 0
            ==> exists|j: int| 0 <= j < acc@.len() && (#[trigger] acc@[j]).topic@ == rows@[k].2@,
{
    let mut acc: Vec<TopicStat> = Vec::new();
    let mut m: usize = 0;
    while m < rows.len()
        invariant
            0 <= m <= rows.len(),
            recs@.len() <= i64::MAX,
            rows@.len() * recs@.len() <= i64::MAX,
            forall|i: int, j: int| 0 <= i < j < acc@.len() ==> (#[trigger] acc@[i]).topic@ != (#[trigger] acc@[j]).topic@,
            forall|j: int| 0 <= j < acc@.len() ==> {
                let e = #[trigger] acc@[j];
                &&& topic_present(recs@, rows@, e.topic@, m as int)
                &&& e.a == topic_sum(recs@, rows@, e.topic@, false, m as int)
                &&& e.c == topic_sum(recs@, rows@, e.topic@, true, m as int)
            },
            forall|k: int| 0 <= k < m && row_count(recs@, #[trigger] rows@[k], false) > 0
                ==> exists|j: int| 0 <= j < acc@.len() && (#[trigger] acc@[j]).topic@ == rows@[k].2@,
        decreases rows.len() - m,
    {
        let row = &rows[m];
        let (a, c) = question_counts(recs, row.0.as_str(), row.1.as_str());
        let ghost t = row.2@;
        let ghost a0 = acc@;
        proof {
            lemma_answered_bounds(recs@, row.0@, row.1@, recs@.len() as int);
            assert forall|u: Seq<char>| #![auto] u != t implies topic_sum(recs@, rows@, u, false, m + 1)
                == topic_sum(recs@, rows@, u, false, m as int)
                && topic_sum(recs@, rows@, u, true, m + 1) == topic_sum(recs@, rows@, u, true, m as int) by {}
            assert(topic_sum(recs@, rows@, t, false, m + 1) == topic_sum(recs@, rows@, t, false, m as int) + a);
            assert(topic_sum(recs@, rows@, t, true, m + 1) == topic_sum(recs@, rows@, t, true, m as int) + c);
            assert forall|u: Seq<char>| #[trigger] topic_present(recs@, rows@, u, m as int)
                implies topic_present(recs@, rows@, u, m + 1) by {
                let k = choose|k: int| 0 <= k < m && (#[trigger] rows@[k]).2@ == u && row_count(recs@, rows@[k], false) > 0;
                assert(0 <= k < m + 1 && rows@[k].2@ == u);
            }
            lemma_topic_sum_bounds(recs@, rows@, t, m + 1);
            assert((m + 1) * recs@.len() <= rows@.len() * recs@.len()) by (nonlinear_arith)
                requires m + 1 <= rows@.len();
        }
        if a > 0 {
            let mut j: usize = 0;
            let mut found = false;
            while j < acc.len() && !found
                invariant
                    0 <= j <= acc.len(),
                    acc@ == a0,
                    t == row.2@,
                    !found ==> forall|x: int| 0 <= x < j ==> (#[trigger] acc@[x]).topic@ != t,
                    found ==> j < acc.len() && acc@[j as int].topic@ == t,
                decreases acc.len() - j + if found { 0int } else { 1int },
            {
                if str_eq(acc[j].topic.as_str(), row.2.as_str()) {
                    found = true;
                } else {
                    j += 1;
                }
            }
            if found {
                let e = TopicStat { topic: acc[j].topic.clone(), a: acc[j].a + a, c: acc[j].c + c };
                acc.set(j, e);
                proof {
                    assert forall|x: int| 0 <= x < acc@.len() && x != j implies (#[trigger] acc@[x]).topic@ != t by {
                        assert(a0[x].topic@ != a0[j as int].topic@ || x == j);
                    }
                }
            } else {
                acc.push(TopicStat { topic: row.2.clone(), a, c });
                proof {
                    assert(!topic_present(recs@, rows@, t, m as int)) by {
                        if topic_present(recs@, rows@, t, m as int) {
                            let k = choose|k: int| 0 <= k < m && (#[trigger] rows@[k]).2@ == t && row_count(recs@, rows@[k], false) > 0;
                            let x = choose|x: int| 0 <= x < a0.len() && (#[trigger] a0[x]).topic@ == rows@[k].2@;
                            assert(a0[x].topic@ != t);
                        }
                    }
                    lemma_topic_sum_bounds(recs@, rows@, t, m as int);
                }
            }
            proof {
                assert(row_count(recs@, rows@[m as int], false) == a);
                assert(topic_present(recs@, rows@, t, m + 1)) by {
                    assert(rows@[m as int].2@ == t && row_count(recs@, rows@[m as int], false) > 0);
                }
                assert forall|k: int| 0 <= k < m + 1 && row_count(recs@, #[trigger] rows@[k], false) > 0
                    implies exists|x: int| 0 <= x < acc@.len() && (#[trigger] acc@[x]).topic@ == rows@[k].2@ by {
                    if k < m {
                        let x = choose|x: int| 0 <= x < a0.len() && (#[trigger] a0[x]).topic@ == rows@[k].2@;
                        assert(acc@[x].topic@ == a0[x].topic@);
                    } else {
                        if found {
                            assert(acc@[j as int].topic@ == t);
                        } else {
                            assert(acc@[a0.len() as int].topic@ == t);
                        }
                    }
                }
            }
        } else {
            proof {
                assert(c == 0);
                assert forall|k: int| 0 <= k < m + 1 && row_count(recs@, #[trigger] rows@[k], false) > 0
                    implies exists|x: int| 0 <= x < acc@.len() && (#[trigger] acc@[x]).topic@ == rows@[k].2@ by {
                    if k == m {
                        assert(row_count(recs@, rows@[k], false) == a);
                    }
                }
            }
        }
        m += 1;
    }
    acc
}

/// Per-chapter statistics for the dashboard (see [`topic_stats_ok`]): `recs` are the
/// scored answers `(bank, qid, right)`, `rows` the chapter rows `(bank, qid, name)`.
pub fn topic_stats(recs: &Vec<(String, String, bool)>, rows: &Vec<(String, String, String)>) -> (out: Vec<TopicStat>)
    requires
        recs@.len() <= i64::MAX,
        rows@.len() * recs@.len() <= i64::MAX,
    ensures
        topic_stats_ok(recs@, rows@, out@),
{
    let acc = aggregate_topics(recs, rows);
    let mut out: Vec<TopicStat> = Vec::new();
    let ghost mut src: Seq<int> = Seq::empty();
    let mut i: usize = 0;
    while i < acc.len()
        invariant
            0 <= i <= acc.len(),
            out@.len() == i,
            src.len() == i,
            forall|j: int| 0 <= j < i ==> 0 <= #[trigger] src[j] < i && out@[j] == acc@[src[j]],
            forall|j1: int, j2: int| 0 <= j1 < j2 < i ==> #[trigger] src[j1] != #[trigger] src[j2],
            forall|k: int| 0 <= k < i ==> #[trigger] hits(src, k),
            forall|x: int, y: int| 0 <= x < y < out@.len() ==> (#[trigger] out@[x]).a >= (#[trigger] out@[y]).a,
        decreases acc.len() - i,
    {
        let x = TopicStat { topic: acc[i].topic.clone(), a: acc[i].a, c: acc[i].c };
        let mut p: usize = 0;
        while p < out.len() && out[p].a >= x.a
            invariant
                0 <= p <= out@.len(),
                forall|y: int| 0 <= y < p ==> (#[trigger] out@[y]).a >= x.a,
            decreases out@.len() - p,
        {
            p += 1;
        }
        let ghost o0 = out@;
        let ghost s0 = src;
        out.insert(p, x);
        proof {
            src = s0.insert(p as int, i as int);
            assert forall|j: int| 0 <= j < i + 1 implies 0 <= #[trigger] src[j] < i + 1 && out@[j] == acc@[src[j]] by {
                if j < p {
                    assert(out@[j] == o0[j] && src[j] == s0[j]);
                } else if j > p {
                    assert(out@[j] == o0[j - 1] && src[j] == s0[j - 1]);
                }
            }
            assert forall|j1: int, j2: int| 0 <= j1 < j2 < i + 1 implies #[trigger] src[j1] != #[trigger] src[j2] by {
                let a1 = if j1 < p { j1 } else { j1 - 1 };
                let a2 = if j2 < p { j2 } else { j2 - 1 };
                if j1 != p && j2 != p {
                    assert(src[j1] == s0[a1] && src[j2] == s0[a2]);
                    if a1 < a2 {
                        assert(s0[a1] != s0[a2]);
                    }
                } else if j1 == p {
                    assert(src[j2] == s0[a2] && s0[a2] < i);
                } else {
                    assert(src[j1] == s0[a1] && s0[a1] < i);
                }
            }
            assert forall|k: int| 0 <= k < i + 1 implies #[trigger] hits(src, k) by {
                if k == i {
                    assert(src[p as int] == k);
                } else {
                    assert(hits(s0, k));
                    let j = choose|j: int| 0 <= j < s0.len() && #[trigger] s0[j] == k;
                    if j < p {
                        assert(src[j] == k);
                    } else {
                        assert(src[j + 1] == k);
                    }
                }
            }
            assert forall|a: int, b: int| 0 <= a < b < out@.len() implies (#[trigger] out@[a]).a >= (#[trigger] out@[b]).a by {
                if b < p {
                    assert(out@[a] == o0[a] && out@[b] == o0[b]);
                } else if b == p {
                    assert(out@[a] == o0[a]);
                } else if a < p {
                    assert(out@[a] == o0[a] && out@[b] == o0[b - 1]);
                } else if a == p {
                    assert(out@[b] == o0[b - 1]);
                    if p < o0.len() {
                        assert(o0[p as int].a < x.a);
                        if b - 1 > p {
                            assert(o0[p as int].a >= o0[b - 1].a);
                        }
                    }
                } else {
                    assert(out@[a] == o0[a - 1] && out@[b] == o0[b - 1]);
                }
            }
        }
        i += 1;
    }
    proof {
        let m = rows@.len() as int;
        assert forall|a: int, b: int| 0 <= a < b < out@.len() implies (#[trigger] out@[a]).topic@ != (#[trigger] out@[b]).topic@ by {
            assert(src[a] != src[b]);
            if src[a] < src[b] {
                assert(acc@[src[a]].topic@ != acc@[src[b]].topic@);
            } else {
                assert(acc@[src[b]].topic@ != acc@[src[a]].topic@);
            }
        }
        assert forall|j: int| 0 <= j < out@.len() implies {
            let e = #[trigger] out@[j];
            &&& topic_present(recs@, rows@, e.topic@, m)
            &&& e.a == topic_sum(recs@, rows@, e.topic@, false, m)
            &&& e.c == topic_sum(recs@, rows@, e.topic@, true, m)
        } by {
            assert(out@[j] == acc@[src[j]]);
        }
        assert forall|k: int| 0 <= k < m && row_count(recs@, #[trigger] rows@[k], false) > 0
            implies exists|j: int| 0 <= j < out@.len() && (#[trigger] out@[j]).topic@ == rows@[k].2@ by {
            let x = choose|x: int| 0 <= x < acc@.len() && (#[trigger] acc@[x]).topic@ == rows@[k].2@;
            assert(hits(src, x));
            let j = choose|j: int| 0 <= j < src.len() && #[trigger] src[j] == x;
            assert(out@[j] == acc@[x]);
        }
    }
    out
}

// ---------------------------------------------------------------- records

/// One answer of a finished session, with its question when it still exists.
pub struct AnswerRow {
    pub bank_id: String,
    pub qid: String,
    pub picked: Option<String>,
    pub is_correct: Option<bool>,
    pub time_cost_ms: Option<i64>,
    pub question: Option<QuestionRow>,
}

/// An entry of the wrong book with its question.
pub struct WrongRow {
    pub bank_id: String,
    pub qid: String,
    pub wrong_count: i64,
    pub last_wrong_at: String,
    pub repetitions: i64,
    pub due_date: Option<String>,
    pub question: QuestionRow,
}

/// How many answers were given on one day.
pub struct DayCount {
    pub date: String,
    pub count: i64,
}

/// The first question of `qs` that is question `(b, q)`.
pub open spec fn find_question(qs: Seq<QuestionRow>, b: Seq<char>, q: Seq<char>, k: int) -> Option<int>
    decreases qs.len() - k,
{
    if k < 0 || k >= qs.len() {
        None
    } else if qs[k].bank_id@ == b && qs[k].qid@ == q {
        Some(k)
    } else {
        find_question(qs, b, q, k + 1)
    }
}

/// For each answer record `(bank, qid)`, the position in `qs` of its question (the
/// first match), if any.
pub fn match_questions(keys: &Vec<(String, String)>, qs: &Vec<QuestionRow>) -> (r: Vec<Option<usize>>)
    ensures
        r@.len() == keys@.len(),
        forall|i: int| 0 <= i < r@.len() ==> match #[trigger] r@[i] {
            Some(k) => find_question(qs@, keys@[i].0@, keys@[i].1@, 0) == Some(k as int),
            None => find_question(qs@, keys@[i].0@, keys@[i].1@, 0) is None,
        },
{
    let mut r: Vec<Option<usize>> = Vec::new();
    let mut i: usize = 0;
    while i < keys.len()
        invariant
            0 <= i <= keys.len(),
            r@.len() == i,
            forall|x: int| 0 <= x < i ==> match #[trigger] r@[x] {
                Some(k) => find_question(qs@, keys@[x].0@, keys@[x].1@, 0) == Some(k as int),
                None => find_question(qs@, keys@[x].0@, keys@[x].1@, 0) is None,
            },
        decreases keys.len() - i,
    {
        let b = keys[i].0.as_str();
        let q = keys[i].1.as_str();
        let mut k: usize = 0;
        let mut hit: Option<usize> = None;
        while k < qs.len() && hit.is_none()
            invariant
                0 <= k <= qs.len(),
                hit is None ==> find_question(qs@, b@, q@, 0) == find_question(qs@, b@, q@, k as int),
                hit matches Some(h) ==> find_question(qs@, b@, q@, 0) == Some(h as int),
            decreases qs.len() - k + if hit is None { 1int } else { 0int },
        {
            if str_eq(qs[k].bank_id.as_str(), b) && str_eq(qs[k].qid.as_str(), q) {
                hit = Some(k);
            } else {
                k += 1;
            }
        }
        r.push(hit);
        i += 1;
    }
    r
}

// ---------------------------------------------------------------- laws

/// Normalising an answer twice gives what normalising it once gives.
pub proof fn law_norm_letters_idempotent(s: Seq<char>)
    ensures
        norm_letters_spec(norm_letters_spec(s)) == norm_letters_spec(s),
{
    lemma_norm_letters_contains(s);
    lemma_norm_letters_contains(norm_letters_spec(s));
}

/// Grading reads the answer and the pick only as sets of option letters: order, repeats,
/// separators and other characters do not matter.
pub proof fn law_grade_by_letter_sets(answer: Seq<char>, picked: Seq<char>, answer2: Seq<char>, picked2: Seq<char>)
    requires
        letter_flags_spec(answer) == letter_flags_spec(answer2),
        letter_flags_spec(picked) == letter_flags_spec(picked2),
    ensures
        grade_spec(answer, picked) == grade_spec(answer2, picked2),
{
    lemma_norm_letters_flags(answer, answer2);
    lemma_norm_letters_flags(picked, picked2);
}

/// A question is scored exactly when its answer has an option letter; picking the
/// answer itself is then graded right.
pub proof fn law_grade_self(answer: Seq<char>, picked: Seq<char>)
    ensures
        grade_spec(answer, picked) is Some <==> norm_letters_spec(answer).len() > 0,
        norm_letters_spec(answer).len() > 0 ==> grade_spec(answer, answer) == Some(true),
{
}

/// Finishing a session reads back the answer saved in its draft under the question's
/// key (the first entry with that key).
pub proof fn law_draft_answer_read_back(picks: Seq<(String, DraftPick)>, q: QuestionRow, i: int)
    requires
        0 <= i < picks.len(),
        picks[i].0@ == draft_key_spec(q.bank_id@, q.qid@),
        forall|x: int| 0 <= x < i ==> (#[trigger] picks[x]).0@ != draft_key_spec(q.bank_id@, q.qid@),
    ensures
        picked_of(picks, q) == picks[i].1.picked@,
        time_of(picks, q) == picks[i].1.t,
{
    lemma_find_pick(picks, draft_key_spec(q.bank_id@, q.qid@));
    match find_pick(picks, draft_key_spec(q.bank_id@, q.qid@)) {
        Some(k) => {
            if k < i {
                assert(picks[k].0@ != draft_key_spec(q.bank_id@, q.qid@));
            }
            if k > i {
                assert(picks[i].0@ != draft_key_spec(q.bank_id@, q.qid@));
            }
        },
        None => {
            assert(picks[i].0@ != draft_key_spec(q.bank_id@, q.qid@));
        },
    }
}

/// On the dashboard, a chapter never counts more right answers than scored ones.
pub proof fn law_topic_right_le_answered(recs: Seq<(String, String, bool)>, rows: Seq<(String, String, String)>, out: Seq<TopicStat>)
    requires
        topic_stats_ok(recs, rows, out),
    ensures
        forall|j: int| 0 <= j < out.len() ==> 0 <= (#[trigger] out[j]).c <= out[j].a,
{
    assert forall|j: int| 0 <= j < out.len() implies 0 <= (#[trigger] out[j]).c <= out[j].a by {
        lemma_topic_sum_bounds(recs, rows, out[j].topic@, rows.len() as int);
    }
}

/// Every session mode except exams and recitation drives the review schedule:
/// practice, random, review, wrong-answer and favourites sessions do; and finishing a
/// session in one of them updates the schedule of every scored question.
pub proof fn law_schedule_modes(mode: Seq<char>, qs: Seq<QuestionRow>, picks: Seq<(String, DraftPick)>, p: FinishPlan)
    ensures
        valid_mode(mode) ==> (srs_mode(mode) <==> !(mode == "exam"@ || mode == "recite"@)),
        (mode == "practice"@ || mode == "random"@ || mode == "review"@ || mode == "wrong"@ || mode == "fav"@)
            ==> srs_mode(mode),
        (mode == "practice"@ || mode == "random"@ || mode == "review"@ || mode == "wrong"@ || mode == "fav"@)
            && finish_plan_ok(qs, picks, mode, p) ==> p.srs@.len() == p.scored,
        (mode == "exam"@ || mode == "recite"@) && finish_plan_ok(qs, picks, mode, p) ==> p.srs@.len() == 0,
{
    reveal_strlit("practice");
    reveal_strlit("random");
    reveal_strlit("review");
    reveal_strlit("wrong");
    reveal_strlit("fav");
    reveal_strlit("exam");
    reveal_strlit("recite");
    assert("practice"@.len() == 8 && "random"@.len() == 6 && "review"@.len() == 6 && "wrong"@.len() == 5
        && "fav"@.len() == 3 && "exam"@.len() == 4 && "recite"@.len() == 6);
    assert("random"@[1] == 'a' && "recite"@[1] == 'e' && "review"@[2] == 'v' && "recite"@[2] == 'c');
    assert("random"@ != "recite"@ && "review"@ != "recite"@);
    if finish_plan_ok(qs, picks, mode, p) {
        lemma_counts_bounded(qs, picks, qs.len() as int);
    }
}

/// An answer is counted for a question only when both its bank and its question id
/// match: answers for the same id in another bank, or for another question of the same
/// bank, count nothing; a matching answer always counts (and a matching right answer
/// counts as right).
pub proof fn law_answers_match_bank_and_question(recs: Seq<(String, String, bool)>, b: Seq<char>, q: Seq<char>, n: int)
    requires
        0 <= n <= recs.len(),
    ensures
        (forall|i: int| 0 <= i < n ==> (#[trigger] recs[i]).0@ != b || recs[i].1@ != q)
            ==> answered(recs, b, q, false, n) == 0 && answered(recs, b, q, true, n) == 0,
        (exists|i: int| 0 <= i < n && (#[trigger] recs[i]).0@ == b && recs[i].1@ == q)
            ==> answered(recs, b, q, false, n) >= 1,
        (exists|i: int| 0 <= i < n && (#[trigger] recs[i]).0@ == b && recs[i].1@ == q && recs[i].2)
            ==> answered(recs, b, q, true, n) >= 1,
    decreases n,
{
    if n > 0 {
        law_answers_match_bank_and_question(recs, b, q, n - 1);
        lemma_answered_bounds(recs, b, q, n - 1);
        if exists|i: int| 0 <= i < n && (#[trigger] recs[i]).0@ == b && recs[i].1@ == q {
            let i = choose|i: int| 0 <= i < n && (#[trigger] recs[i]).0@ == b && recs[i].1@ == q;
            if i < n - 1 {
                assert(exists|j: int| 0 <= j < n - 1 && (#[trigger] recs[j]).0@ == b && recs[j].1@ == q);
            }
        }
        if exists|i: int| 0 <= i < n && (#[trigger] recs[i]).0@ == b && recs[i].1@ == q && recs[i].2 {
            let i = choose|i: int| 0 <= i < n && (#[trigger] recs[i]).0@ == b && recs[i].1@ == q && recs[i].2;
            if i < n - 1 {
                assert(exists|j: int| 0 <= j < n - 1 && (#[trigger] recs[j]).0@ == b && recs[j].1@ == q && recs[j].2);
            }
        }
    }
}

/// Dashboard statistics are per bank: answers recorded for banks that none of the
/// chapter rows belongs to give no chapter entry at all.
pub proof fn law_topic_stats_bank_scoped(recs: Seq<(String, String, bool)>, rows: Seq<(String, String, String)>, out: Seq<TopicStat>)
    requires
        topic_stats_ok(recs, rows, out),
        forall|i: int, k: int| 0 <= i < recs.len() && 0 <= k < rows.len() ==> (#[trigger] recs[i]).0@ != (#[trigger] rows[k]).0@,
    ensures
        out.len() == 0,
{
    if out.len() > 0 {
        let e = out[0];
        assert(topic_present(recs, rows, e.topic@, rows.len() as int));
        let k = choose|k: int| 0 <= k < rows.len() && (#[trigger] rows[k]).2@ == e.topic@ && row_count(recs, rows[k], false) > 0;
        law_answers_match_bank_and_question(recs, rows[k].0@, rows[k].1@, recs.len() as int);
        assert forall|i: int| 0 <= i < recs.len() implies (#[trigger] recs[i]).0@ != rows[k].0@ || recs[i].1@ != rows[k].1@ by {
            assert(recs[i].0@ != rows[k].0@);
        }
    }
}

} // verus!
