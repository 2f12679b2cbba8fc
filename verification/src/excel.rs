//! Spreadsheet exchange: validation and normalisation of the rows of the first
//! worksheet (the workbook itself is read by the caller), the plan for importing the
//! accepted questions as a new bank, and the rows of a session's score sheet.
use vstd::prelude::*;
use crate::bank::str_views;
use crate::docs::{join_strings, join_with};
use crate::session::AnswerRow;
use crate::text::{chars_of, chars_eq, decimal, decimal_int, i64_to_string, parse_i64, parse_i64_spec, push_chars, push_str,
    str_eq, string_from_chars, to_uppercase, trim_chars, trim_spec, unicode_uppercase, usize_to_string};

verus! {

broadcast use vstd::string::group_string_axioms;

/// Column headers of the import template, in column order.
pub const TEMPLATE_HEADERS: [&'static str; 15] = [
    "题干", "题型", "选项A", "选项B", "选项C", "选项D", "选项E", "选项F",
    "答案", "解析", "出处", "一级章节", "二级章节", "难度(1-5)", "置信度",
];

/// A question accepted from a spreadsheet row.
pub struct ParsedQ {
    pub stem: String,
    pub qtype: String,
    pub options: Vec<String>,
    pub answer: String,
    pub explain: String,
    pub source: String,
    pub topic1: String,
    pub topic2: String,
    pub difficulty: i64,
    pub conf: String,
}

/// The content of a [`ParsedQ`].
pub struct ParsedQModel {
    pub stem: Seq<char>,
    pub qtype: Seq<char>,
    pub options: Seq<Seq<char>>,
    pub answer: Seq<char>,
    pub explain: Seq<char>,
    pub source: Seq<char>,
    pub topic1: Seq<char>,
    pub topic2: Seq<char>,
    pub difficulty: int,
    pub conf: Seq<char>,
}

impl View for ParsedQ {
    type V = ParsedQModel;

    open spec fn view(&self) -> ParsedQModel {
        ParsedQModel {
            stem: self.stem@,
            qtype: self.qtype@,
            options: Seq::new(self.options@.len(), |k: int| self.options@[k]@),
            answer: self.answer@,
            explain: self.explain@,
            source: self.source@,
            topic1: self.topic1@,
            topic2: self.topic2@,
            difficulty: self.difficulty as int,
            conf: self.conf@,
        }
    }
}

/// A rejected (or partly rejected) row: its 1-based row number and the reason.
pub struct RowError {
    pub row: usize,
    pub msg: String,
}

/// Result of checking a workbook before import.
pub struct ExcelPreview {
    pub total: usize,
    pub valid: usize,
    pub errors: Vec<RowError>,
    pub sample: Vec<ParsedQ>,
}

/// Result of importing a workbook as a new bank.
pub struct ExcelImportReport {
    pub bank_id: String,
    pub bank_name: String,
    pub imported: usize,
    pub skipped: usize,
    pub topics: usize,
    pub errors: Vec<RowError>,
}

// ---------------------------------------------------------------- cells and types

/// The trimmed text of cell `i` of a row, empty when the row is shorter.
pub open spec fn cell_spec(r: Seq<String>, i: int) -> Seq<char> {
    if 0 <= i < r.len() { trim_spec(r[i]@) } else { Seq::empty() }
}

/// Trimmed text of cell `i`, or empty when the row has no such cell.
pub fn cell(r: &Vec<String>, i: usize) -> (c: String)
    ensures
        c@ == cell_spec(r@, i as int),
{
    if i < r.len() {
        let cs = chars_of(r[i].as_str());
        let t = trim_chars(&cs);
        string_from_chars(&t)
    } else {
        string_from_chars(&Vec::new())
    }
}

/// The question type named by a type cell (empty means single choice).
pub open spec fn norm_type_spec(s: Seq<char>) -> Option<Seq<char>> {
    let t = trim_spec(s);
    if t == ""@ || t == "单选"@ || t == "single"@ || t == "单选题"@ {
        Some("single"@)
    } else if t == "多选"@ || t == "multi"@ || t == "多选题"@ {
        Some("multi"@)
    } else if t == "判断"@ || t == "judge"@ || t == "判断题"@ {
        Some("judge"@)
    } else if t == "填空"@ || t == "fill"@ || t == "填空题"@ {
        Some("fill"@)
    } else {
        None
    }
}

/// Recognises a question-type cell: 单选/多选/判断/填空 (with or without 题), their
/// English names, or empty for single choice.
pub fn norm_type(s: &str) -> (r: Option<String>)
    ensures
        match r {
            Some(t) => norm_type_spec(s@) == Some(t@),
            None => norm_type_spec(s@) is None,
        },
{
    let t0 = trim_chars(&chars_of(s));
    let ts = string_from_chars(&t0);
    let t = ts.as_str();
    if str_eq(t, "") || str_eq(t, "单选") || str_eq(t, "single") || str_eq(t, "单选题") {
        Some("single".to_string())
    } else if str_eq(t, "多选") || str_eq(t, "multi") || str_eq(t, "多选题") {
        Some("multi".to_string())
    } else if str_eq(t, "判断") || str_eq(t, "judge") || str_eq(t, "判断题") {
        Some("judge".to_string())
    } else if str_eq(t, "填空") || str_eq(t, "fill") || str_eq(t, "填空题") {
        Some("fill".to_string())
    } else {
        None
    }
}

// ---------------------------------------------------------------- answers

/// `seq![c]` when `present`, else empty.
pub open spec fn opt_letter(present: bool, c: char) -> Seq<char> {
    if present { seq![c] } else { Seq::empty() }
}

/// The option letters `A`..=`H` occurring in `t`, once each, alphabetically.
pub open spec fn answer_letters(t: Seq<char>) -> Seq<char> {
    opt_letter(t.contains('A'), 'A') + opt_letter(t.contains('B'), 'B') + opt_letter(t.contains('C'), 'C')
        + opt_letter(t.contains('D'), 'D') + opt_letter(t.contains('E'), 'E') + opt_letter(t.contains('F'), 'F')
        + opt_letter(t.contains('G'), 'G') + opt_letter(t.contains('H'), 'H')
}

/// The first letter of `ls` whose option index (`A` = 0) is not below `n`.
pub open spec fn first_out_of_range(ls: Seq<char>, n: nat) -> Option<char>
    decreases ls.len(),
{
    if ls.len() == 0 {
        None
    } else if ls[0] as int - 65 >= n {
        Some(ls[0])
    } else {
        first_out_of_range(ls.skip(1), n)
    }
}

pub open spec fn judge_answer_msg() -> Seq<char> {
    "判断题答案须为 对/错/√/×/T/F"@
}

pub open spec fn single_answer_msg() -> Seq<char> {
    "单选题答案只能一个字母"@
}

pub open spec fn multi_answer_msg() -> Seq<char> {
    "多选题答案至少两个字母"@
}

/// Normalisation of an answer cell for a question of type `qtype` with `opt_count`
/// options: fill answers are kept (trimmed); judge answers map to `T`/`F`; choice
/// answers become their sorted distinct letters, each within the options, exactly one
/// for single choice and at least two for multiple choice.
pub open spec fn norm_answer_spec(raw: Seq<char>, qtype: Seq<char>, opt_count: nat) -> Result<Seq<char>, Seq<char>> {
    let t = unicode_uppercase(trim_spec(raw));
    if qtype == "fill"@ {
        Ok(trim_spec(raw))
    } else if qtype == "judge"@ {
        if t == "对"@ || t == "T"@ || t == "TRUE"@ || t == "√"@ || t == "正确"@ {
            Ok("T"@)
        } else if t == "错"@ || t == "F"@ || t == "FALSE"@ || t == "×"@ || t == "X"@ || t == "错误"@ {
            Ok("F"@)
        } else {
            Err(judge_answer_msg())
        }
    } else {
        let ls = answer_letters(t);
        if ls.len() == 0 {
            Err("无法从「"@ + raw + "」解析答案字母"@)
        } else if first_out_of_range(ls, opt_count) is Some {
            Err("答案 "@ + seq![first_out_of_range(ls, opt_count)->0] + " 超出选项范围（共"@ + decimal(opt_count)
                + "项）"@)
        } else if qtype == "single"@ && ls.len() != 1 {
            Err(single_answer_msg())
        } else if qtype == "multi"@ && ls.len() < 2 {
            Err(multi_answer_msg())
        } else {
            Ok(ls)
        }
    }
}

/// Which of the letters `A`..=`H` occur in `cs`.
fn letter_presence(cs: &Vec<char>) -> (f: Vec<bool>)
    ensures
        f@.len() == 8,
        forall|k: int| 0 <= k < 8 ==> f@[k] == cs@.contains(((65 + k) as u8) as char),
{
    let mut f: Vec<bool> = vec![false, false, false, false, false, false, false, false];
    let mut i: usize = 0;
    while i < cs.len()
        invariant
            0 <= i <= cs.len(),
            f@.len() == 8,
            forall|k: int| 0 <= k < 8 ==> f@[k] == cs@.take(i as int).contains(((65 + k) as u8) as char),
        decreases cs.len() - i,
    {
        let c = cs[i];
        proof {
            assert(cs@.take(i + 1) == cs@.take(i as int).push(c));
            broadcast use vstd::seq_lib::lemma_seq_contains_after_push;
        }
        if 'A' <= c && c <= 'H' {
            let k = (c as u8 - 65) as usize;
            f.set(k, true);
            proof {
                assert(((65 + k) as u8) as char == c);
            }
        }
        i += 1;
    }
    proof {
        assert(cs@.take(cs@.len() as int) == cs@);
    }
    f
}

proof fn lemma_answer_letters(t: Seq<char>, f: Seq<bool>)
    requires
        f.len() == 8,
        forall|k: int| 0 <= k < 8 ==> f[k] == t.contains(((65 + k) as u8) as char),
    ensures
        answer_letters(t) == opt_letter(f[0], 'A') + opt_letter(f[1], 'B') + opt_letter(f[2], 'C')
            + opt_letter(f[3], 'D') + opt_letter(f[4], 'E') + opt_letter(f[5], 'F') + opt_letter(f[6], 'G')
            + opt_letter(f[7], 'H'),
{
    assert(((65 + 0int) as u8) as char == 'A');
    assert(((65 + 1int) as u8) as char == 'B');
    assert(((65 + 2int) as u8) as char == 'C');
    assert(((65 + 3int) as u8) as char == 'D');
    assert(((65 + 4int) as u8) as char == 'E');
    assert(((65 + 5int) as u8) as char == 'F');
    assert(((65 + 6int) as u8) as char == 'G');
    assert(((65 + 7int) as u8) as char == 'H');
}

/// Normalises an answer cell for a question type (`single`/`multi`/`judge`/`fill`):
/// judge answers 对/错/√/×/T/F become `T`/`F`; choice answers such as `"A,B,D"`,
/// `"A、B、D"` or `"ABD"` become `"ABD"`. Errors explain the rejection.
#[verifier::spinoff_prover]
#[verifier::rlimit(40)]
pub fn norm_answer(raw: &str, qtype: &str, opt_count: usize) -> (r: Result<String, String>)
    ensures
        match r {
            Ok(a) => norm_answer_spec(raw@, qtype@, opt_count as nat) == Ok::<Seq<char>, Seq<char>>(a@),
            Err(e) => norm_answer_spec(raw@, qtype@, opt_count as nat) == Err::<Seq<char>, Seq<char>>(e@),
        },
{
    let trimmed = string_from_chars(&trim_chars(&chars_of(raw)));
    let up = to_uppercase(trimmed.as_str());
    let t = up.as_str();
    if str_eq(qtype, "fill") {
        return Ok(trimmed);
    }
    if str_eq(qtype, "judge") {
        if str_eq(t, "对") || str_eq(t, "T") || str_eq(t, "TRUE") || str_eq(t, "√") || str_eq(t, "正确") {
            return Ok("T".to_string());
        } else if str_eq(t, "错") || str_eq(t, "F") || str_eq(t, "FALSE") || str_eq(t, "×") || str_eq(t, "X")
            || str_eq(t, "错误") {
            return Ok("F".to_string());
        } else {
            return Err("判断题答案须为 对/错/√/×/T/F".to_string());
        }
    }
    let tc = chars_of(t);
    let f = letter_presence(&tc);
    let mut ls: Vec<char> = Vec::new();
    let mut k: usize = 0;
    let ghost spec_ls = answer_letters(t@);
    proof {
        lemma_answer_letters(t@, f@);
    }
    while k < 8
        invariant
            0 <= k <= 8,
            f@.len() == 8,
            ls@ == opt_letter_prefix(f@, k as int),
            forall|x: int| 0 <= x < ls@.len() ==> 'A' <= #[trigger] ls@[x] <= 'H',
        decreases 8 - k,
    {
        if f[k] {
            ls.push(((65 + k) as u8) as char);
        }
        proof {
            assert(ls@ =~= opt_letter_prefix(f@, k + 1));
        }
        k += 1;
    }
    proof {
        lemma_prefix_all(f@);
        assert(ls@ == spec_ls);
    }
    if ls.len() == 0 {
        let mut m: Vec<char> = Vec::new();
        push_str(&mut m, "无法从「");
        push_str(&mut m, raw);
        push_str(&mut m, "」解析答案字母");
        return Err(string_from_chars(&m));
    }
    let mut j: usize = 0;
    proof {
        assert(ls@.skip(0) == ls@);
    }
    while j < ls.len()
        invariant
            0 <= j <= ls.len(),
            first_out_of_range(ls@, opt_count as nat) == first_out_of_range(ls@.skip(j as int), opt_count as nat),
            ls@ == answer_letters(t@),
            ls@.len() > 0,
            t@ == unicode_uppercase(trim_spec(raw@)),
            qtype@ != "fill"@,
            qtype@ != "judge"@,
            forall|x: int| 0 <= x < ls@.len() ==> 'A' <= #[trigger] ls@[x] <= 'H',
        decreases ls.len() - j,
    {
        let c = ls[j];
        let idx = (c as u8 - 65) as usize;
        proof {
            assert(ls@.skip(j as int)[0] == c);
            assert(ls@.skip(j as int).skip(1) == ls@.skip(j + 1));
            assert('A' <= c <= 'H');
            assert((c as u8) as int == c as int);
            assert(idx as int == c as int - 65);
        }
        if idx >= opt_count {
            let mut m: Vec<char> = Vec::new();
            push_str(&mut m, "答案 ");
            m.push(c);
            push_str(&mut m, " 超出选项范围（共");
            let n = usize_to_string(opt_count);
            push_str(&mut m, n.as_str());
            push_str(&mut m, "项）");
            proof {
                assert(m@ =~= "答案 "@ + seq![c] + " 超出选项范围（共"@ + decimal(opt_count as nat) + "项）"@);
                assert(first_out_of_range(ls@.skip(j as int), opt_count as nat) == Some(c));
                assert(first_out_of_range(ls@, opt_count as nat) == Some(c));
            }
            return Err(string_from_chars(&m));
        }
        j += 1;
    }
    proof {
        assert(ls@.skip(ls@.len() as int).len() == 0);
    }
    if str_eq(qtype, "single") && ls.len() != 1 {
        return Err("单选题答案只能一个字母".to_string());
    }
    if str_eq(qtype, "multi") && ls.len() < 2 {
        return Err("多选题答案至少两个字母".to_string());
    }
    Ok(string_from_chars(&ls))
}

/// Letters for the first `k` flags.
pub open spec fn opt_letter_prefix(f: Seq<bool>, k: int) -> Seq<char>
    decreases k,
{
    if k <= 0 {
        Seq::empty()
    } else {
        opt_letter_prefix(f, k - 1) + opt_letter(f[k - 1], ((65 + (k - 1)) as u8) as char)
    }
}

proof fn lemma_prefix_all(f: Seq<bool>)
    requires
        f.len() == 8,
    ensures
        opt_letter_prefix(f, 8) == opt_letter(f[0], 'A') + opt_letter(f[1], 'B') + opt_letter(f[2], 'C')
            + opt_letter(f[3], 'D') + opt_letter(f[4], 'E') + opt_letter(f[5], 'F') + opt_letter(f[6], 'G')
            + opt_letter(f[7], 'H'),
{
    assert(((65 + 0int) as u8) as char == 'A');
    assert(((65 + 1int) as u8) as char == 'B');
    assert(((65 + 2int) as u8) as char == 'C');
    assert(((65 + 3int) as u8) as char == 'D');
    assert(((65 + 4int) as u8) as char == 'E');
    assert(((65 + 5int) as u8) as char == 'F');
    assert(((65 + 6int) as u8) as char == 'G');
    assert(((65 + 7int) as u8) as char == 'H');
    reveal_with_fuel(opt_letter_prefix, 9);
    assert(opt_letter_prefix(f, 0) == Seq::<char>::empty());
    assert(opt_letter_prefix(f, 1) =~= opt_letter(f[0], 'A'));
}

// ---------------------------------------------------------------- rows

pub open spec fn empty_stem_msg() -> Seq<char> {
    "题干为空"@
}

pub open spec fn gap_msg() -> Seq<char> {
    "选项中间存在空档（如A、C有值B为空）"@
}

pub open spec fn empty_answer_msg() -> Seq<char> {
    "答案为空"@
}

pub open spec fn few_options_msg() -> Seq<char> {
    "选择题至少需要2个选项"@
}

/// Message for an unrecognised question-type cell.
pub open spec fn bad_type_msg(t: Seq<char>) -> Seq<char> {
    "题型「"@ + t + "」无法识别（单选/多选/判断/填空）"@
}

/// Every cell of the row is blank after trimming.
pub open spec fn blank_row(r: Seq<String>) -> bool {
    forall|i: int| 0 <= i < r.len() ==> trim_spec(#[trigger] r[i]@).len() == 0
}

/// The six option cells (columns 2..8) of a row.
pub open spec fn option_cells(r: Seq<String>) -> Seq<Seq<char>> {
    Seq::new(6, |k: int| cell_spec(r, k + 2))
}

/// The position of the last non-empty entry among the first `m`.
pub open spec fn last_nonempty(xs: Seq<Seq<char>>, m: int) -> Option<int>
    decreases m,
{
    if m <= 0 {
        None
    } else if xs[m - 1].len() > 0 {
        Some(m - 1)
    } else {
        last_nonempty(xs, m - 1)
    }
}

/// The option letter for position `k` (`A` for 0).
pub open spec fn option_letter(k: int) -> char {
    ((65 + k) as u8) as char
}

/// The displayed form of the options: `"A、…"`, `"B、…"`, ...
pub open spec fn labelled_options(opts: Seq<Seq<char>>) -> Seq<Seq<char>> {
    Seq::new(opts.len(), |k: int| seq![option_letter(k)] + "、"@ + opts[k])
}

/// `v` clamped to `1..=5`.
pub open spec fn clamp_difficulty(v: int) -> int {
    if v < 1 { 1 } else if v > 5 { 5 } else { v }
}

/// Difficulty from its cell: a parsed integer clamped to `1..=5`, else 3.
pub open spec fn difficulty_spec(c: Seq<char>) -> int {
    match parse_i64_spec(c) {
        Some(v) => clamp_difficulty(v),
        None => 3,
    }
}

/// Confidence from its cell: `medium`/中, `low`/低, anything else counts as `high`.
pub open spec fn conf_spec(c: Seq<char>) -> Seq<char> {
    if c == ""@ || c == "high"@ || c == "高"@ {
        "high"@
    } else if c == "medium"@ || c == "中"@ {
        "medium"@
    } else if c == "low"@ || c == "低"@ {
        "low"@
    } else {
        "high"@
    }
}

/// The checks applied to one non-blank row: the error messages it produces (a gap in
/// the options is reported without rejecting the row) and the question it yields.
pub open spec fn parse_row_spec(r: Seq<String>) -> (Seq<Seq<char>>, Option<ParsedQModel>) {
    let stem = cell_spec(r, 0);
    if stem.len() == 0 {
        (seq![empty_stem_msg()], None)
    } else {
        match norm_type_spec(cell_spec(r, 1)) {
            None => (seq![bad_type_msg(cell_spec(r, 1))], None),
            Some(qt) => {
                let raw = option_cells(r);
                let last = last_nonempty(raw, 6);
                let gap = match last {
                    Some(l) => exists|k: int| 0 <= k <= l && (#[trigger] raw[k]).len() == 0,
                    None => false,
                };
                let opts0 = match last {
                    Some(l) => raw.take(l + 1),
                    None => Seq::empty(),
                };
                let errs0: Seq<Seq<char>> = if gap { seq![gap_msg()] } else { Seq::empty() };
                let ans_raw = cell_spec(r, 8);
                if ans_raw.len() == 0 && qt != "fill"@ {
                    (errs0.push(empty_answer_msg()), None)
                } else {
                    let opts = if qt == "judge"@ { seq!["对"@, "错"@] } else { opts0 };
                    let n: nat = if qt == "fill"@ { 8 } else { opts.len() };
                    match norm_answer_spec(ans_raw, qt, n) {
                        Err(e) => (errs0.push("答案错误："@ + e), None),
                        Ok(a) => {
                            if (qt == "single"@ || qt == "multi"@) && opts.len() < 2 {
                                (errs0.push(few_options_msg()), None)
                            } else {
                                let t1 = cell_spec(r, 11);
                                (errs0, Some(ParsedQModel {
                                    stem,
                                    qtype: qt,
                                    options: labelled_options(opts),
                                    answer: a,
                                    explain: cell_spec(r, 9),
                                    source: cell_spec(r, 10),
                                    topic1: if t1.len() == 0 { "未分类"@ } else { t1 },
                                    topic2: cell_spec(r, 12),
                                    difficulty: difficulty_spec(cell_spec(r, 13)),
                                    conf: conf_spec(cell_spec(r, 14)),
                                }))
                            }
                        },
                    }
                }
            },
        }
    }
}

/// The cell strings of each row.
pub open spec fn rows_view(rows: Seq<Vec<String>>) -> Seq<Seq<String>> {
    Seq::new(rows.len(), |i: int| rows[i]@)
}

/// The questions and the (row number, message) errors from rows `1 .. m` (row 0 is the
/// header); blank rows are ignored.
pub open spec fn parse_rows_upto(rows: Seq<Seq<String>>, m: int) -> (Seq<ParsedQModel>, Seq<(int, Seq<char>)>)
    decreases m,
{
    if m <= 1 {
        (Seq::empty(), Seq::empty())
    } else {
        let (qs, es) = parse_rows_upto(rows, m - 1);
        let r = rows[m - 1];
        if blank_row(r) {
            (qs, es)
        } else {
            let (errs, q) = parse_row_spec(r);
            let es2 = es + Seq::new(errs.len(), |k: int| (m, errs[k]));
            match q {
                Some(x) => (qs.push(x), es2),
                None => (qs, es2),
            }
        }
    }
}

/// The questions and errors of a whole sheet.
pub open spec fn parse_workbook_spec(rows: Seq<Seq<String>>) -> (Seq<ParsedQModel>, Seq<(int, Seq<char>)>) {
    parse_rows_upto(rows, rows.len() as int)
}

/// The views of parsed questions.
pub open spec fn questions_view(qs: Seq<ParsedQ>) -> Seq<ParsedQModel> {
    Seq::new(qs.len(), |i: int| qs[i]@)
}

/// The (row, message) pairs of row errors.
pub open spec fn errors_view(es: Seq<RowError>) -> Seq<(int, Seq<char>)> {
    Seq::new(es.len(), |i: int| (es[i].row as int, es[i].msg@))
}

fn blank(r: &Vec<String>) -> (b: bool)
    ensures
        b == blank_row(r@),
{
    let mut i: usize = 0;
    while i < r.len()
        invariant
            0 <= i <= r.len(),
            forall|k: int| 0 <= k < i ==> trim_spec(#[trigger] r@[k]@).len() == 0,
        decreases r.len() - i,
    {
        let t = trim_chars(&chars_of(r[i].as_str()));
        if t.len() > 0 {
            return false;
        }
        i += 1;
    }
    true
}

fn msg(s: &str) -> (r: String)
    ensures
        r@ == s@,
{
    s.to_string()
}

/// Applies the row checks to one non-blank row.
fn parse_row(r: &Vec<String>) -> (out: (Vec<String>, Option<ParsedQ>))
    ensures
        Seq::new(out.0@.len(), |k: int| out.0@[k]@) == parse_row_spec(r@).0,
        match (out.1, parse_row_spec(r@).1) {
            (Some(q), Some(m)) => q@ == m,
            (None, None) => true,
            _ => false,
        },
{
    let ghost spec = parse_row_spec(r@);
    let mut errs: Vec<String> = Vec::new();
    let stem = cell(r, 0);
    if stem.as_str().unicode_len() == 0 {
        errs.push(msg("题干为空"));
        proof {
            assert(Seq::new(errs@.len(), |k: int| errs@[k]@) =~= spec.0);
        }
        return (errs, None);
    }
    let c1 = cell(r, 1);
    let qt = match norm_type(c1.as_str()) {
        Some(t) => t,
        None => {
            let mut m: Vec<char> = Vec::new();
            push_str(&mut m, "题型「");
            push_str(&mut m, c1.as_str());
            push_str(&mut m, "」无法识别（单选/多选/判断/填空）");
            errs.push(string_from_chars(&m));
            proof {
                assert(Seq::new(errs@.len(), |k: int| errs@[k]@) =~= spec.0);
            }
            return (errs, None);
        },
    };
    let ghost raw_spec = option_cells(r@);
    let mut raw: Vec<String> = Vec::new();
    let mut k: usize = 0;
    while k < 6
        invariant
            0 <= k <= 6,
            raw_spec == option_cells(r@),
            raw@.len() == k,
            forall|x: int| 0 <= x < k ==> (#[trigger] raw@[x])@ == raw_spec[x],
        decreases 6 - k,
    {
        raw.push(cell(r, k + 2));
        k += 1;
    }
    // last non-empty option cell
    let mut last: usize = 6;
    let mut found = false;
    while last > 0 && !found
        invariant
            0 <= last <= 6,
            raw@.len() == 6,
            forall|x: int| 0 <= x < 6 ==> (#[trigger] raw@[x])@ == raw_spec[x],
            found ==> last >= 1 && raw_spec[last - 1].len() > 0,
            !found ==> last_nonempty(raw_spec, 6) == last_nonempty(raw_spec, last as int),
            found ==> last_nonempty(raw_spec, 6) == Some(last - 1),
        decreases last + if found { 0int } else { 1int },
    {
        if raw[last - 1].as_str().unicode_len() > 0 {
            found = true;
        } else {
            last -= 1;
        }
    }
    let mut errs0: Vec<String> = Vec::new();
    let mut opts: Vec<String> = Vec::new();
    let mut gap = false;
    if found {
        let mut x: usize = 0;
        while x < last
            invariant
                0 <= x <= last <= 6,
                raw@.len() == 6,
                forall|y: int| 0 <= y < 6 ==> (#[trigger] raw@[y])@ == raw_spec[y],
                opts@.len() == x,
                forall|y: int| 0 <= y < x ==> (#[trigger] opts@[y])@ == raw_spec[y],
                gap == exists|y: int| 0 <= y < x && (#[trigger] raw_spec[y]).len() == 0,
            decreases last - x,
        {
            if raw[x].as_str().unicode_len() == 0 {
                gap = true;
            }
            opts.push(raw[x].clone());
            x += 1;
        }
        if gap {
            errs0.push(msg("选项中间存在空档（如A、C有值B为空）"));
        }
    }
    proof {
        let l = last_nonempty(raw_spec, 6);
        if found {
            assert(Seq::new(opts@.len(), |y: int| opts@[y]@) =~= raw_spec.take(last as int));
        } else {
            assert(last == 0);
            assert(l is None);
        }
    }
    let ghost opts0 = Seq::new(opts@.len(), |y: int| opts@[y]@);
    let ans_raw = cell(r, 8);
    if ans_raw.as_str().unicode_len() == 0 && !str_eq(qt.as_str(), "fill") {
        errs0.push(msg("答案为空"));
        proof {
            assert(Seq::new(errs0@.len(), |k: int| errs0@[k]@) =~= spec.0);
        }
        return (errs0, None);
    }
    let is_judge = str_eq(qt.as_str(), "judge");
    if is_judge {
        opts = vec![msg("对"), msg("错")];
    }
    let is_fill = str_eq(qt.as_str(), "fill");
    let n: usize = if is_fill { 8 } else { opts.len() };
    let ghost opts_s = Seq::new(opts@.len(), |y: int| opts@[y]@);
    proof {
        if is_judge {
            assert(opts_s =~= seq!["对"@, "错"@]);
        } else {
            assert(opts_s =~= opts0);
        }
    }
    let answer = match norm_answer(ans_raw.as_str(), qt.as_str(), n) {
        Ok(a) => a,
        Err(e) => {
            let mut m: Vec<char> = Vec::new();
            push_str(&mut m, "答案错误：");
            push_str(&mut m, e.as_str());
            errs0.push(string_from_chars(&m));
            proof {
                assert(Seq::new(errs0@.len(), |k: int| errs0@[k]@) =~= spec.0);
            }
            return (errs0, None);
        },
    };
    if (str_eq(qt.as_str(), "single") || str_eq(qt.as_str(), "multi")) && opts.len() < 2 {
        errs0.push(msg("选择题至少需要2个选项"));
        proof {
            assert(Seq::new(errs0@.len(), |k: int| errs0@[k]@) =~= spec.0);
        }
        return (errs0, None);
    }
    let c13 = cell(r, 13);
    let difficulty: i64 = match parse_i64(c13.as_str()) {
        Some(v) => if v < 1 { 1 } else if v > 5 { 5 } else { v },
        None => 3,
    };
    let c14 = cell(r, 14);
    let cs = c14.as_str();
    let conf = if str_eq(cs, "") || str_eq(cs, "high") || str_eq(cs, "高") {
        msg("high")
    } else if str_eq(cs, "medium") || str_eq(cs, "中") {
        msg("medium")
    } else if str_eq(cs, "low") || str_eq(cs, "低") {
        msg("low")
    } else {
        msg("high")
    };
    let mut labelled: Vec<String> = Vec::new();
    let mut y: usize = 0;
    while y < opts.len()
        invariant
            0 <= y <= opts.len() <= 6,
            opts_s == Seq::new(opts@.len(), |z: int| opts@[z]@),
            labelled@.len() == y,
            forall|z: int| 0 <= z < y ==> (#[trigger] labelled@[z])@ == labelled_options(opts_s)[z],
        decreases opts.len() - y,
    {
        let mut m: Vec<char> = Vec::new();
        m.push(((65 + y) as u8) as char);
        push_str(&mut m, "、");
        push_str(&mut m, opts[y].as_str());
        proof {
            assert(m@ =~= labelled_options(opts_s)[y as int]);
        }
        labelled.push(string_from_chars(&m));
        y += 1;
    }
    let t1 = cell(r, 11);
    let topic1 = if t1.as_str().unicode_len() == 0 { msg("未分类") } else { t1 };
    let q = ParsedQ {
        stem,
        qtype: qt,
        options: labelled,
        answer,
        explain: cell(r, 9),
        source: cell(r, 10),
        topic1,
        topic2: cell(r, 12),
        difficulty,
        conf,
    };
    proof {
        assert(Seq::new(errs0@.len(), |k: int| errs0@[k]@) =~= spec.0);
        assert(q@.options =~= labelled_options(opts_s));
        assert(q@ == spec.1->0);
    }
    (errs0, Some(q))
}

proof fn lemma_parse_rows_len(rows: Seq<Seq<String>>, m: int)
    requires
        0 <= m <= rows.len(),
    ensures
        parse_rows_upto(rows, m).0.len() + parse_rows_upto(rows, m).1.len() <= 2 * m,
        forall|k: int| 0 <= k < parse_rows_upto(rows, m).1.len() ==> 2 <= #[trigger] parse_rows_upto(rows, m).1[k].0 <= m,
    decreases m,
{
    if m > 1 {
        lemma_parse_rows_len(rows, m - 1);
        let r = rows[m - 1];
        if !blank_row(r) {
            let (errs, q) = parse_row_spec(r);
            assert(errs.len() + if q is Some { 1int } else { 0int } <= 2);
        }
    }
}

/// Checks every row after the header: returns the accepted questions and, in row
/// order, the errors found (with 1-based row numbers). Blank rows are skipped.
pub fn parse_workbook(rows: Vec<Vec<String>>) -> (out: (Vec<ParsedQ>, Vec<RowError>))
    requires
        rows@.len() <= usize::MAX / 2,
    ensures
        (questions_view(out.0@), errors_view(out.1@)) == parse_workbook_spec(rows_view(rows@)),
        out.0@.len() + out.1@.len() <= 2 * rows@.len(),
{
    let ghost rv = rows_view(rows@);
    let mut qs: Vec<ParsedQ> = Vec::new();
    let mut errs: Vec<RowError> = Vec::new();
    if rows.len() <= 1 {
        proof {
            assert(questions_view(qs@) =~= Seq::<ParsedQModel>::empty());
            assert(errors_view(errs@) =~= Seq::<(int, Seq<char>)>::empty());
        }
        return (qs, errs);
    }
    let mut ri: usize = 1;
    proof {
        assert(questions_view(qs@) =~= parse_rows_upto(rv, 1).0);
        assert(errors_view(errs@) =~= parse_rows_upto(rv, 1).1);
    }
    while ri < rows.len()
        invariant
            1 <= ri <= rows.len(),
            rows@.len() <= usize::MAX / 2,
            rv == rows_view(rows@),
            questions_view(qs@) == parse_rows_upto(rv, ri as int).0,
            errors_view(errs@) == parse_rows_upto(rv, ri as int).1,
        decreases rows.len() - ri,
    {
        let r = &rows[ri];
        proof {
            assert(rv[ri as int] == r@);
            lemma_parse_rows_len(rv, ri as int);
        }
        if !blank(r) {
            let (row_errs, q) = parse_row(r);
            let ghost es0 = errors_view(errs@);
            let mut k: usize = 0;
            while k < row_errs.len()
                invariant
                    0 <= k <= row_errs.len(),
                    ri + 1 <= usize::MAX,
                    errors_view(errs@) == es0 + Seq::new(k as nat, |x: int| ((ri + 1) as int, row_errs@[x]@)),
                decreases row_errs.len() - k,
            {
                let ghost before = errs@;
                let m = row_errs[k].clone();
                errs.push(RowError { row: ri + 1, msg: m });
                proof {
                    assert(m@ == row_errs@[k as int]@);
                    assert(errs@ == before.push(RowError { row: (ri + 1) as usize, msg: m }));
                    assert(errors_view(before) == es0 + Seq::new(k as nat, |x: int| ((ri + 1) as int, row_errs@[x]@)));
                    assert(errors_view(before).len() == before.len());
                    assert(before.len() == es0.len() + k);
                    let lhs = errors_view(errs@);
                    let rhs = es0 + Seq::new((k + 1) as nat, |x: int| ((ri + 1) as int, row_errs@[x]@));
                    assert(lhs.len() == rhs.len());
                    assert forall|y: int| 0 <= y < lhs.len() implies lhs[y] == rhs[y] by {
                        if y < before.len() {
                            assert(lhs[y] == errors_view(before)[y]);
                        }
                    }
                    assert(lhs =~= rhs);
                }
                k += 1;
            }
            proof {
                let sp = parse_row_spec(r@);
                assert(Seq::new(row_errs@.len(), |x: int| ((ri + 1) as int, row_errs@[x]@))
                    =~= Seq::new(sp.0.len(), |x: int| ((ri + 1) as int, sp.0[x])));
            }
            match q {
                Some(x) => {
                    let ghost qs0 = questions_view(qs@);
                    qs.push(x);
                    proof {
                        assert(questions_view(qs@) =~= qs0.push(x@));
                    }
                },
                None => {},
            }
        }
        ri += 1;
    }
    proof {
        lemma_parse_rows_len(rv, rows@.len() as int);
    }
    (qs, errs)
}

/// Preview of a sheet before import: how many rows were examined (accepted questions
/// plus error entries), how many questions are valid, every error, and the first five
/// accepted questions.
pub fn excel_preview(rows: Vec<Vec<String>>) -> (p: ExcelPreview)
    requires
        rows@.len() <= usize::MAX / 2,
    ensures
        questions_view(p.sample@) == parse_workbook_spec(rows_view(rows@)).0.take(
            if parse_workbook_spec(rows_view(rows@)).0.len() < 5 { parse_workbook_spec(rows_view(rows@)).0.len() as int } else { 5 }),
        errors_view(p.errors@) == parse_workbook_spec(rows_view(rows@)).1,
        p.valid == parse_workbook_spec(rows_view(rows@)).0.len(),
        p.total == parse_workbook_spec(rows_view(rows@)).0.len() + parse_workbook_spec(rows_view(rows@)).1.len(),
{
    let (qs, errs) = parse_workbook(rows);
    let total = qs.len() + errs.len();
    let valid = qs.len();
    let mut sample: Vec<ParsedQ> = Vec::new();
    let mut it = qs;
    let keep: usize = if valid < 5 { valid } else { 5 };
    let ghost all = questions_view(it@);
    it.truncate(keep);
    proof {
        assert(questions_view(it@) =~= all.take(keep as int));
    }
    sample = it;
    ExcelPreview { total, valid, errors: errs, sample }
}

// ---------------------------------------------------------------- import plan

/// A chapter to create for an imported bank. `parent` is the position of the parent
/// chapter in the same plan; `topic1`/`topic2` is the (level 1, level 2) key it stands for
/// (`topic2` empty for a level-1 chapter).
pub struct TopicPlan {
    pub name: String,
    pub parent: Option<usize>,
    pub topic1: String,
    pub topic2: String,
}

/// A question row to insert: its generated id, its status and its chapter (position in
/// the topic plan).
pub struct QuestionPlan {
    pub qid: String,
    pub status: String,
    pub topic: usize,
}

/// What importing a set of parsed questions creates.
pub struct ImportPlan {
    pub topics: Vec<TopicPlan>,
    pub questions: Vec<QuestionPlan>,
}

/// The content of a [`TopicPlan`].
pub struct TopicModel {
    pub key: (Seq<char>, Seq<char>),
    pub name: Seq<char>,
    pub parent: Option<int>,
}

/// The first position in `ts` whose key is `key`.
pub open spec fn find_topic(ts: Seq<TopicModel>, key: (Seq<char>, Seq<char>)) -> Option<int>
    decreases ts.len(),
{
    if ts.len() == 0 {
        None
    } else {
        match find_topic(ts.drop_last(), key) {
            Some(j) => Some(j),
            None => if ts.last().key == key { Some(ts.len() - 1) } else { None },
        }
    }
}

/// The chapters created for the first `m` questions: each new (level 1, level 2) key
/// gets a chapter, created after its level-1 parent (which is created on demand).
pub open spec fn topics_upto(qs: Seq<ParsedQModel>, m: int) -> Seq<TopicModel>
    decreases m,
{
    if m <= 0 {
        Seq::empty()
    } else {
        let p = topics_upto(qs, m - 1);
        let q = qs[m - 1];
        let key = (q.topic1, q.topic2);
        if find_topic(p, key) is Some {
            p
        } else if q.topic2.len() > 0 {
            let pkey = (q.topic1, Seq::<char>::empty());
            let (p2, pidx) = match find_topic(p, pkey) {
                Some(j) => (p, j),
                None => (p.push(TopicModel { key: pkey, name: q.topic1, parent: None }), p.len() as int),
            };
            p2.push(TopicModel { key, name: q.topic2, parent: Some(pidx) })
        } else {
            p.push(TopicModel { key, name: q.topic1, parent: None })
        }
    }
}

/// `X` followed by the index, zero-padded to at least four digits.
pub open spec fn generated_qid(i: nat) -> Seq<char> {
    let d = decimal(i);
    let zeros = Seq::new(if d.len() < 4 { (4 - d.len()) as nat } else { 0 }, |k: int| '0');
    seq!['X'] + zeros + d
}

/// The status of an imported question: low-confidence ones await review.
pub open spec fn import_status(conf: Seq<char>) -> Seq<char> {
    if conf == "low"@ { "pending_review"@ } else { "active"@ }
}

pub open spec fn topic_view(t: TopicPlan) -> TopicModel {
    TopicModel {
        key: (t.topic1@, t.topic2@),
        name: t.name@,
        parent: match t.parent { Some(p) => Some(p as int), None => None },
    }
}

/// The plan for importing `qs`: the chapter tree, then one row per question in order.
pub open spec fn import_plan_ok(qs: Seq<ParsedQModel>, plan: ImportPlan) -> bool {
    let ts = topics_upto(qs, qs.len() as int);
    &&& plan.topics@.len() == ts.len()
    &&& forall|k: int| 0 <= k < ts.len() ==> topic_view(#[trigger] plan.topics@[k]) == ts[k]
    &&& plan.questions@.len() == qs.len()
    &&& forall|i: int| 0 <= i < qs.len() ==> {
        let qp = #[trigger] plan.questions@[i];
        &&& qp.qid@ == generated_qid(i as nat)
        &&& qp.status@ == import_status(qs[i].conf)
        &&& find_topic(ts, (qs[i].topic1, qs[i].topic2)) == Some(qp.topic as int)
    }
}

proof fn lemma_find_topic_push(ts: Seq<TopicModel>, t: TopicModel, key: (Seq<char>, Seq<char>))
    ensures
        find_topic(ts.push(t), key) == match find_topic(ts, key) {
            Some(j) => Some(j),
            None => if t.key == key { Some(ts.len() as int) } else { None },
        },
{
    assert(ts.push(t).drop_last() == ts);
}

proof fn lemma_find_topic_bounds(ts: Seq<TopicModel>, key: (Seq<char>, Seq<char>))
    ensures
        match find_topic(ts, key) {
            Some(j) => 0 <= j < ts.len() && ts[j].key == key && forall|x: int| 0 <= x < j ==> ts[x].key != key,
            None => forall|x: int| 0 <= x < ts.len() ==> ts[x].key != key,
        },
    decreases ts.len(),
{
    if ts.len() > 0 {
        let d = ts.drop_last();
        lemma_find_topic_bounds(d, key);
        assert forall|x: int| 0 <= x < d.len() implies d[x] == ts[x] by {}
    }
}

/// Once a key has a chapter, later questions keep finding it at the same position.
proof fn lemma_topics_stable(qs: Seq<ParsedQModel>, m: int, n: int, key: (Seq<char>, Seq<char>))
    requires
        0 <= m <= n <= qs.len(),
        find_topic(topics_upto(qs, m), key) is Some,
    ensures
        find_topic(topics_upto(qs, n), key) == find_topic(topics_upto(qs, m), key),
    decreases n - m,
{
    if n > m {
        lemma_topics_stable(qs, m, n - 1, key);
        let p = topics_upto(qs, n - 1);
        let q = qs[n - 1];
        let k2 = (q.topic1, q.topic2);
        if find_topic(p, k2) is None {
            if q.topic2.len() > 0 {
                let pkey = (q.topic1, Seq::<char>::empty());
                match find_topic(p, pkey) {
                    Some(j) => {
                        lemma_find_topic_push(p, TopicModel { key: k2, name: q.topic2, parent: Some(j) }, key);
                    },
                    None => {
                        let p1 = p.push(TopicModel { key: pkey, name: q.topic1, parent: None });
                        lemma_find_topic_push(p, TopicModel { key: pkey, name: q.topic1, parent: None }, key);
                        lemma_find_topic_push(p1, TopicModel { key: k2, name: q.topic2, parent: Some(p.len() as int) }, key);
                    },
                }
            } else {
                lemma_find_topic_push(p, TopicModel { key: k2, name: q.topic1, parent: None }, key);
            }
        }
    }
}

/// The position of the chapter with key `(t1, t2)` in `plan`.
fn find_topic_exec(plan: &Vec<TopicPlan>, t1: &String, t2: &String) -> (r: Option<usize>)
    ensures
        match r {
            Some(j) => find_topic(Seq::new(plan@.len(), |k: int| topic_view(plan@[k])), (t1@, t2@)) == Some(j as int),
            None => find_topic(Seq::new(plan@.len(), |k: int| topic_view(plan@[k])), (t1@, t2@)) is None,
        },
{
    let ghost ts = Seq::new(plan@.len(), |k: int| topic_view(plan@[k]));
    proof {
        lemma_find_topic_bounds(ts, (t1@, t2@));
    }
    let mut j: usize = 0;
    while j < plan.len()
        invariant
            0 <= j <= plan.len(),
            ts == Seq::new(plan@.len(), |k: int| topic_view(plan@[k])),
            forall|x: int| 0 <= x < j ==> ts[x].key != (t1@, t2@),
        decreases plan.len() - j,
    {
        if str_eq(plan[j].topic1.as_str(), t1.as_str()) && str_eq(plan[j].topic2.as_str(), t2.as_str()) {
            proof {
                assert(ts[j as int].key == (t1@, t2@));
                lemma_find_topic_bounds(ts, (t1@, t2@));
                match find_topic(ts, (t1@, t2@)) {
                    Some(f) => {
                        if f < j {
                            assert(ts[f].key != (t1@, t2@));
                        }
                        if f > j {
                            assert(ts[j as int].key != (t1@, t2@));
                        }
                    },
                    None => {
                        assert(ts[j as int].key != (t1@, t2@));
                    },
                }
            }
            return Some(j);
        }
        j += 1;
    }
    proof {
        lemma_find_topic_bounds(ts, (t1@, t2@));
        if find_topic(ts, (t1@, t2@)) is Some {
            let f = find_topic(ts, (t1@, t2@))->0;
            assert(ts[f].key == (t1@, t2@));
        }
    }
    None
}

/// The id of the `i`-th imported question: `X` and `i` zero-padded to four digits.
fn qid_for(i: usize) -> (r: String)
    ensures
        r@ == generated_qid(i as nat),
{
    let d = usize_to_string(i);
    let dc = chars_of(d.as_str());
    let mut v: Vec<char> = Vec::new();
    v.push('X');
    let mut z: usize = 0;
    let pad: usize = if dc.len() < 4 { 4 - dc.len() } else { 0 };
    while z < pad
        invariant
            0 <= z <= pad,
            v@ == seq!['X'] + Seq::new(z as nat, |k: int| '0'),
        decreases pad - z,
    {
        v.push('0');
        proof {
            assert(v@ =~= seq!['X'] + Seq::new((z + 1) as nat, |k: int| '0'));
        }
        z += 1;
    }
    push_chars(&mut v, &dc);
    string_from_chars(&v)
}

/// Plans the import of accepted questions into a new bank: the chapter tree (a chapter
/// per distinct (level 1, level 2) pair, level-1 parents created first) and, per
/// question in order, its generated id `X0000`, `X0001`, …, its status and its chapter.
/// Refused when there is nothing to import.
pub fn plan_excel_import(qs: &Vec<ParsedQ>) -> (r: Result<ImportPlan, String>)
    ensures
        match r {
            Ok(plan) => qs@.len() > 0 && import_plan_ok(questions_view(qs@), plan),
            Err(e) => qs@.len() == 0 && e@ == "没有可导入的有效题目（请查看预览中的错误行）"@,
        },
{
    if qs.len() == 0 {
        return Err("没有可导入的有效题目（请查看预览中的错误行）".to_string());
    }
    let ghost qv = questions_view(qs@);
    let mut topics: Vec<TopicPlan> = Vec::new();
    let mut i: usize = 0;
    while i < qs.len()
        invariant
            0 <= i <= qs.len(),
            qv == questions_view(qs@),
            Seq::new(topics@.len(), |k: int| topic_view(topics@[k])) == topics_upto(qv, i as int),
        decreases qs.len() - i,
    {
        let q = &qs[i];
        let ghost p = topics_upto(qv, i as int);
        let ghost key = (q.topic1@, q.topic2@);
        proof {
            assert(qv[i as int] == q@);
        }
        if find_topic_exec(&topics, &q.topic1, &q.topic2).is_none() {
            if q.topic2.as_str().unicode_len() > 0 {
                let empty = string_from_chars(&Vec::new());
                let pidx = match find_topic_exec(&topics, &q.topic1, &empty) {
                    Some(j) => j,
                    None => {
                        let n = topics.len();
                        topics.push(TopicPlan { name: q.topic1.clone(), parent: None, topic1: q.topic1.clone(), topic2: empty });
                        n
                    },
                };
                topics.push(TopicPlan { name: q.topic2.clone(), parent: Some(pidx), topic1: q.topic1.clone(), topic2: q.topic2.clone() });
            } else {
                topics.push(TopicPlan { name: q.topic1.clone(), parent: None, topic1: q.topic1.clone(), topic2: q.topic2.clone() });
            }
        }
        proof {
            assert(Seq::new(topics@.len(), |k: int| topic_view(topics@[k])) =~= topics_upto(qv, i + 1));
        }
        i += 1;
    }
    let ghost ts = topics_upto(qv, qv.len() as int);
    let mut questions: Vec<QuestionPlan> = Vec::new();
    let mut i: usize = 0;
    while i < qs.len()
        invariant
            0 <= i <= qs.len(),
            qv == questions_view(qs@),
            ts == topics_upto(qv, qv.len() as int),
            Seq::new(topics@.len(), |k: int| topic_view(topics@[k])) == ts,
            questions@.len() == i,
            forall|x: int| 0 <= x < i ==> {
                let qp = #[trigger] questions@[x];
                &&& qp.qid@ == generated_qid(x as nat)
                &&& qp.status@ == import_status(qv[x].conf)
                &&& find_topic(ts, (qv[x].topic1, qv[x].topic2)) == Some(qp.topic as int)
            },
        decreases qs.len() - i,
    {
        let q = &qs[i];
        proof {
            assert(qv[i as int] == q@);
            // the key of question i got its chapter while planning question i
            let key = (q.topic1@, q.topic2@);
            assert(find_topic(topics_upto(qv, i + 1), key) is Some) by {
                let p = topics_upto(qv, i as int);
                if find_topic(p, key) is None {
                    if q.topic2@.len() > 0 {
                        let pkey = (q.topic1@, Seq::<char>::empty());
                        match find_topic(p, pkey) {
                            Some(j) => {
                                lemma_find_topic_push(p, TopicModel { key, name: q.topic2@, parent: Some(j) }, key);
                            },
                            None => {
                                let p1 = p.push(TopicModel { key: pkey, name: q.topic1@, parent: None });
                                lemma_find_topic_push(p1, TopicModel { key, name: q.topic2@, parent: Some(p.len() as int) }, key);
                            },
                        }
                    } else {
                        lemma_find_topic_push(p, TopicModel { key, name: q.topic1@, parent: None }, key);
                    }
                }
            }
            lemma_topics_stable(qv, i + 1, qv.len() as int, key);
        }
        let t = find_topic_exec(&topics, &q.topic1, &q.topic2);
        let topic = match t {
            Some(j) => j,
            None => 0,
        };
        let status = if str_eq(q.conf.as_str(), "low") { "pending_review".to_string() } else { "active".to_string() };
        questions.push(QuestionPlan { qid: qid_for(i), status, topic });
        i += 1;
    }
    Ok(ImportPlan { topics, questions })
}

// ---------------------------------------------------------------- score sheet

/// Column headers of the score sheet, in column order.
pub const SCORE_SHEET_HEADERS: [&'static str; 9] = ["#", "题型", "主题", "题干", "你的答案", "正确答案", "结果", "解析", "出处"];

/// The label of a graded answer: right, wrong, or not scored.
pub open spec fn result_label(c: Option<bool>) -> Seq<char> {
    match c {
        Some(true) => "✓"@,
        Some(false) => "✗"@,
        None => "不计分"@,
    }
}

/// The cells after the number column of the score-sheet row of one answer: question
/// type (multiple or single choice), chapters joined with `/`, stem, the answer given,
/// the right answer, the result, the explanation and the source; the question's cells
/// are empty when it no longer exists.
pub open spec fn sheet_cells(r: AnswerRow) -> Seq<Seq<char>> {
    let q = r.question;
    seq![
        match q { Some(q) => if q.qtype@ == "multi"@ { "多选"@ } else { "单选"@ }, None => "单选"@ },
        match q { Some(q) => join_with(str_views(q.topics@), "/"@), None => Seq::empty() },
        match q { Some(q) => q.stem@, None => Seq::empty() },
        match r.picked { Some(p) => p@, None => Seq::empty() },
        match q { Some(q) => q.answer@, None => Seq::empty() },
        result_label(r.is_correct),
        match q { Some(q) => q.explain@, None => Seq::empty() },
        match q { Some(q) => q.source@, None => Seq::empty() },
    ]
}

/// The score-sheet cells (columns 2 to 9) of each answer, in order.
pub fn score_sheet_rows(records: &Vec<AnswerRow>) -> (rows: Vec<Vec<String>>)
    ensures
        rows@.len() == records@.len(),
        forall|i: int| 0 <= i < rows@.len() ==> str_views((#[trigger] rows@[i])@) == sheet_cells(records@[i]),
{
    let mut rows: Vec<Vec<String>> = Vec::new();
    let mut i: usize = 0;
    while i < records.len()
        invariant
            0 <= i <= records.len(),
            rows@.len() == i,
            forall|x: int| 0 <= x < i ==> str_views((#[trigger] rows@[x])@) == sheet_cells(records@[x]),
        decreases records.len() - i,
    {
        let r = &records[i];
        let empty = string_from_chars(&Vec::new());
        let mut cells: Vec<String> = Vec::new();
        match &r.question {
            Some(q) => {
                cells.push(if str_eq(q.qtype.as_str(), "multi") { "多选".to_string() } else { "单选".to_string() });
                cells.push(join_strings(&q.topics, "/"));
                cells.push(q.stem.clone());
            },
            None => {
                cells.push("单选".to_string());
                cells.push(empty.clone());
                cells.push(empty.clone());
            },
        }
        cells.push(match &r.picked { Some(p) => p.clone(), None => empty.clone() });
        match &r.question {
            Some(q) => cells.push(q.answer.clone()),
            None => cells.push(empty.clone()),
        }
        cells.push(match r.is_correct {
            Some(true) => "✓".to_string(),
            Some(false) => "✗".to_string(),
            None => "不计分".to_string(),
        });
        match &r.question {
            Some(q) => {
                cells.push(q.explain.clone());
                cells.push(q.source.clone());
            },
            None => {
                cells.push(empty.clone());
                cells.push(empty);
            },
        }
        proof {
            assert(str_views(cells@) =~= sheet_cells(records@[i as int]));
        }
        rows.push(cells);
        i += 1;
    }
    rows
}

/// The summary line of the score sheet: right answers out of scored ones.
pub fn score_summary(correct: i64, scored: i64) -> (r: String)
    ensures
        r@ == "答对 "@ + decimal_int(correct as int) + "/"@ + decimal_int(scored as int) + "（计分题）"@,
{
    let mut v: Vec<char> = Vec::new();
    push_str(&mut v, "答对 ");
    let a = i64_to_string(correct);
    push_str(&mut v, a.as_str());
    push_str(&mut v, "/");
    let b = i64_to_string(scored);
    push_str(&mut v, b.as_str());
    push_str(&mut v, "（计分题）");
    string_from_chars(&v)
}

// ---------------------------------------------------------------- laws

/// Option `i` is shown with its letter: `A、…`, `B、…`, …
pub open spec fn options_labelled(opts: Seq<Seq<char>>) -> bool {
    forall|i: int| 0 <= i < opts.len() ==> (#[trigger] opts[i]).len() >= 2 && opts[i][0] == option_letter(i)
        && opts[i][1] == '、'
}

/// `a` is a strictly ascending run of option letters, each naming one of `n` options.
pub open spec fn letters_within(a: Seq<char>, n: int) -> bool {
    &&& forall|i: int, j: int| 0 <= i < j < a.len() ==> #[trigger] a[i] < #[trigger] a[j]
    &&& forall|i: int| 0 <= i < a.len() ==> 'A' <= #[trigger] a[i] && (a[i] as int) - 65 < n
}

/// What every accepted question satisfies: a stem; a known type; options shown with
/// their letters; a choice question has 2 to 6 options and an answer of ascending
/// letters among them (one for single choice, at least two for multiple choice); a
/// judge question has the options 对/错 and the answer `T` or `F`; a difficulty in
/// `1..=5`; a confidence of `high`, `medium` or `low`; a first-level chapter.
pub open spec fn parsed_valid(q: ParsedQModel) -> bool {
    &&& q.stem.len() > 0
    &&& (q.qtype == "single"@ || q.qtype == "multi"@ || q.qtype == "judge"@ || q.qtype == "fill"@)
    &&& options_labelled(q.options)
    &&& (q.qtype == "single"@ || q.qtype == "multi"@) ==> 2 <= q.options.len() <= 6
        && letters_within(q.answer, q.options.len() as int)
    &&& q.qtype == "single"@ ==> q.answer.len() == 1
    &&& q.qtype == "multi"@ ==> q.answer.len() >= 2
    &&& q.qtype == "judge"@ ==> q.options.len() == 2 && q.options[0] == "A、对"@ && q.options[1] == "B、错"@
        && (q.answer == "T"@ || q.answer == "F"@)
    &&& 1 <= q.difficulty <= 5
    &&& (q.conf == "high"@ || q.conf == "medium"@ || q.conf == "low"@)
    &&& q.topic1.len() > 0
}

proof fn lemma_last_nonempty_bound(xs: Seq<Seq<char>>, m: int)
    ensures
        match last_nonempty(xs, m) {
            Some(l) => 0 <= l < m,
            None => true,
        },
    decreases m,
{
    if m > 0 {
        lemma_last_nonempty_bound(xs, m - 1);
    }
}

proof fn lemma_in_range(ls: Seq<char>, n: nat)
    requires
        first_out_of_range(ls, n) is None,
    ensures
        forall|i: int| 0 <= i < ls.len() ==> (#[trigger] ls[i] as int) - 65 < n,
    decreases ls.len(),
{
    if ls.len() > 0 {
        lemma_in_range(ls.skip(1), n);
        assert forall|i: int| 0 <= i < ls.len() implies (#[trigger] ls[i] as int) - 65 < n by {
            if i > 0 {
                assert(ls[i] == ls.skip(1)[i - 1]);
            }
        }
    }
}

/// The letters `A`..=`H`.
pub open spec fn letter_row() -> Seq<char> {
    seq!['A', 'B', 'C', 'D', 'E', 'F', 'G', 'H']
}

/// The letters among the first `k` of [`letter_row`] that occur in `t`, in order.
pub open spec fn letters_upto(t: Seq<char>, k: int) -> Seq<char>
    decreases k,
{
    if k <= 0 {
        Seq::empty()
    } else {
        letters_upto(t, k - 1) + opt_letter(t.contains(letter_row()[k - 1]), letter_row()[k - 1])
    }
}

proof fn lemma_letters_upto_asc(t: Seq<char>, k: int)
    requires
        0 <= k <= 8,
    ensures
        forall|i: int, j: int| 0 <= i < j < letters_upto(t, k).len()
            ==> #[trigger] letters_upto(t, k)[i] < #[trigger] letters_upto(t, k)[j],
        forall|i: int| 0 <= i < letters_upto(t, k).len()
            ==> 'A' <= #[trigger] letters_upto(t, k)[i] && (k > 0 ==> letters_upto(t, k)[i] <= letter_row()[k - 1]),
    decreases k,
{
    if k > 0 {
        lemma_letters_upto_asc(t, k - 1);
        let s = letters_upto(t, k - 1);
        let c = letter_row()[k - 1];
        let u = letters_upto(t, k);
        if t.contains(c) {
            assert(u == s.push(c));
        } else {
            assert(u =~= s);
        }
    }
}

proof fn lemma_answer_letters_asc(t: Seq<char>)
    ensures
        forall|i: int, j: int| 0 <= i < j < answer_letters(t).len() ==> #[trigger] answer_letters(t)[i] < #[trigger] answer_letters(t)[j],
        forall|i: int| 0 <= i < answer_letters(t).len() ==> 'A' <= #[trigger] answer_letters(t)[i],
{
    reveal_with_fuel(letters_upto, 9);
    lemma_letters_upto_asc(t, 8);
    assert(answer_letters(t) =~= letters_upto(t, 8));
}

proof fn lemma_answer_shape(raw: Seq<char>, qt: Seq<char>, n: nat)
    requires
        qt == "single"@ || qt == "multi"@ || qt == "judge"@,
    ensures
        match norm_answer_spec(raw, qt, n) {
            Ok(a) => {
                &&& (qt == "single"@ || qt == "multi"@) ==> letters_within(a, n as int)
                &&& qt == "single"@ ==> a.len() == 1
                &&& qt == "multi"@ ==> a.len() >= 2
                &&& qt == "judge"@ ==> (a == "T"@ || a == "F"@)
            },
            Err(_) => true,
        },
{
    reveal_strlit("single");
    reveal_strlit("multi");
    reveal_strlit("judge");
    reveal_strlit("fill");
    assert("single"@.len() == 6 && "multi"@.len() == 5 && "judge"@.len() == 5 && "fill"@.len() == 4);
    assert(qt != "fill"@);
    assert("multi"@[0] != "judge"@[0]);
    assert(qt == "judge"@ ==> qt != "single"@ && qt != "multi"@);
    if qt != "judge"@ {
        let t = unicode_uppercase(trim_spec(raw));
        let ls = answer_letters(t);
        lemma_answer_letters_asc(t);
        if first_out_of_range(ls, n) is None {
            lemma_in_range(ls, n);
        }
    }
}

proof fn lemma_parse_row_valid(r: Seq<String>)
    ensures
        match parse_row_spec(r).1 {
            Some(q) => parsed_valid(q),
            None => true,
        },
{
    reveal_strlit("未分类");
    reveal_strlit("、");
    reveal_strlit("对");
    reveal_strlit("错");
    reveal_strlit("A、对");
    reveal_strlit("B、错");
    assert("未分类"@.len() > 0);
    match parse_row_spec(r).1 {
        Some(q) => {
            let qt = q.qtype;
            let raw = option_cells(r);
            lemma_last_nonempty_bound(raw, 6);
            let opts0 = match last_nonempty(raw, 6) {
                Some(l) => raw.take(l + 1),
                None => Seq::empty(),
            };
            let opts = if qt == "judge"@ { seq!["对"@, "错"@] } else { opts0 };
            assert(q.options == labelled_options(opts));
            assert forall|i: int| 0 <= i < q.options.len() implies (#[trigger] q.options[i]).len() >= 2
                && q.options[i][0] == option_letter(i) && q.options[i][1] == '、' by {
                assert(q.options[i] == seq![option_letter(i)] + "、"@ + opts[i]);
            }
            if qt == "judge"@ {
                assert(q.options[0] =~= "A、对"@);
                assert(q.options[1] =~= "B、错"@);
            }
            if qt == "single"@ || qt == "multi"@ || qt == "judge"@ {
                reveal_strlit("fill");
                reveal_strlit("single");
                reveal_strlit("multi");
                reveal_strlit("judge");
                assert("single"@.len() == 6 && "multi"@.len() == 5 && "judge"@.len() == 5 && "fill"@.len() == 4);
                assert(qt != "fill"@);
                let ans_raw = cell_spec(r, 8);
                assert(norm_answer_spec(ans_raw, qt, opts.len()) == Ok::<Seq<char>, Seq<char>>(q.answer));
                lemma_answer_shape(ans_raw, qt, opts.len());
            }
        },
        None => {},
    }
}

proof fn lemma_parse_rows_valid(rows: Seq<Seq<String>>, m: int)
    ensures
        forall|k: int| 0 <= k < parse_rows_upto(rows, m).0.len() ==> parsed_valid(#[trigger] parse_rows_upto(rows, m).0[k]),
    decreases m,
{
    if m > 1 {
        lemma_parse_rows_valid(rows, m - 1);
        lemma_parse_row_valid(rows[m - 1]);
        let p = parse_rows_upto(rows, m - 1).0;
        let n = parse_rows_upto(rows, m).0;
        assert forall|k: int| 0 <= k < n.len() implies parsed_valid(#[trigger] n[k]) by {
            if k < p.len() {
                assert(n[k] == p[k]);
            }
        }
    }
}

/// Every question accepted from a sheet is well formed (see [`parsed_valid`]).
pub proof fn law_parsed_questions_valid(rows: Seq<Seq<String>>)
    ensures
        forall|k: int| 0 <= k < parse_workbook_spec(rows).0.len() ==> parsed_valid(#[trigger] parse_workbook_spec(rows).0[k]),
{
    lemma_parse_rows_valid(rows, rows.len() as int);
}

/// The chapter tree of an import: keys are distinct, a chapter has a parent exactly
/// when it is a second-level one, and its parent comes before it and is the first-level
/// chapter of the same name.
pub open spec fn chapter_tree_ok(ts: Seq<TopicModel>) -> bool {
    &&& forall|a: int, b: int| 0 <= a < b < ts.len() ==> (#[trigger] ts[a]).key != (#[trigger] ts[b]).key
    &&& forall|k: int| 0 <= k < ts.len() ==> ((#[trigger] ts[k]).parent is None <==> ts[k].key.1.len() == 0)
    &&& forall|k: int| 0 <= k < ts.len() ==> match (#[trigger] ts[k]).parent {
        Some(p) => 0 <= p < k && ts[p].key == (ts[k].key.0, Seq::<char>::empty()),
        None => true,
    }
}

proof fn lemma_tree_push(ts: Seq<TopicModel>, t: TopicModel)
    requires
        chapter_tree_ok(ts),
        find_topic(ts, t.key) is None,
        t.parent is None <==> t.key.1.len() == 0,
        match t.parent {
            Some(p) => 0 <= p < ts.len() && ts[p].key == (t.key.0, Seq::<char>::empty()),
            None => true,
        },
    ensures
        chapter_tree_ok(ts.push(t)),
{
    lemma_find_topic_bounds(ts, t.key);
    let n = ts.push(t);
    assert forall|a: int, b: int| 0 <= a < b < n.len() implies (#[trigger] n[a]).key != (#[trigger] n[b]).key by {
        if b == ts.len() {
            assert(ts[a].key != t.key);
        } else {
            assert(n[a] == ts[a] && n[b] == ts[b]);
        }
    }
    assert forall|k: int| 0 <= k < n.len() implies ((#[trigger] n[k]).parent is None <==> n[k].key.1.len() == 0) by {
        if k < ts.len() {
            assert(n[k] == ts[k]);
        }
    }
    assert forall|k: int| 0 <= k < n.len() implies match (#[trigger] n[k]).parent {
        Some(p) => 0 <= p < k && n[p].key == (n[k].key.0, Seq::<char>::empty()),
        None => true,
    } by {
        if k < ts.len() {
            assert(n[k] == ts[k]);
            match ts[k].parent {
                Some(p) => {
                    assert(n[p] == ts[p]);
                },
                None => {},
            }
        } else {
            match t.parent {
                Some(p) => {
                    assert(n[p] == ts[p]);
                },
                None => {},
            }
        }
    }
}

/// Importing questions builds a well-formed two-level chapter tree (see
/// [`chapter_tree_ok`]), whatever the questions.
pub proof fn law_import_chapter_tree(qs: Seq<ParsedQModel>, m: int)
    ensures
        chapter_tree_ok(topics_upto(qs, m)),
    decreases m,
{
    if m > 0 {
        law_import_chapter_tree(qs, m - 1);
        let p = topics_upto(qs, m - 1);
        let q = qs[m - 1];
        let key = (q.topic1, q.topic2);
        if find_topic(p, key) is None {
            if q.topic2.len() > 0 {
                let pkey = (q.topic1, Seq::<char>::empty());
                match find_topic(p, pkey) {
                    Some(j) => {
                        lemma_find_topic_bounds(p, pkey);
                        lemma_tree_push(p, TopicModel { key, name: q.topic2, parent: Some(j) });
                    },
                    None => {
                        let par = TopicModel { key: pkey, name: q.topic1, parent: None };
                        lemma_tree_push(p, par);
                        let p1 = p.push(par);
                        lemma_find_topic_push(p, par, key);
                        assert(par.key != key);
                        lemma_tree_push(p1, TopicModel { key, name: q.topic2, parent: Some(p.len() as int) });
                    },
                }
            } else {
                lemma_tree_push(p, TopicModel { key, name: q.topic1, parent: None });
            }
        }
    }
}

/// A row's options leave a gap (an empty option before a filled one) and the row gets
/// as far as checking its options (it has a stem and a known type).
pub open spec fn row_gap(r: Seq<String>) -> bool {
    let raw = option_cells(r);
    &&& cell_spec(r, 0).len() > 0
    &&& norm_type_spec(cell_spec(r, 1)) is Some
    &&& match last_nonempty(raw, 6) {
        Some(l) => exists|k: int| 0 <= k <= l && (#[trigger] raw[k]).len() == 0,
        None => false,
    }
}

/// Each non-blank row has exactly one outcome, a question or an error, preceded by a
/// gap error when its options leave a gap.
pub proof fn law_row_outcome(r: Seq<String>)
    ensures
        ({
            let (errs, q) = parse_row_spec(r);
            &&& errs.len() + (if q is Some { 1int } else { 0 }) == 1 + (if row_gap(r) { 1int } else { 0 })
            &&& row_gap(r) ==> errs[0] == gap_msg()
            &&& q is Some ==> errs.len() == (if row_gap(r) { 1int } else { 0 })
        }),
{
}

/// The number of outcomes of rows `1 .. m`: one per non-blank row, plus one per gap.
pub open spec fn outcomes_upto(rows: Seq<Seq<String>>, m: int) -> int
    decreases m,
{
    if m <= 1 {
        0
    } else {
        outcomes_upto(rows, m - 1) + if blank_row(rows[m - 1]) { 0int } else { 1 + if row_gap(rows[m - 1]) { 1int } else { 0 } }
    }
}

/// Over a whole sheet: the header row and blank rows yield nothing, every other row
/// yields its outcome (plus a gap error), and errors carry their 1-based row numbers in
/// row order.
pub proof fn law_sheet_outcomes(rows: Seq<Seq<String>>, m: int)
    requires
        m <= rows.len(),
    ensures
        parse_rows_upto(rows, m).0.len() + parse_rows_upto(rows, m).1.len() == outcomes_upto(rows, m),
        forall|k: int| 0 <= k < parse_rows_upto(rows, m).1.len() ==> 2 <= (#[trigger] parse_rows_upto(rows, m).1[k]).0 <= m
            && !blank_row(rows[parse_rows_upto(rows, m).1[k].0 - 1]),
        forall|a: int, b: int| 0 <= a < b < parse_rows_upto(rows, m).1.len()
            ==> (#[trigger] parse_rows_upto(rows, m).1[a]).0 <= (#[trigger] parse_rows_upto(rows, m).1[b]).0,
    decreases m,
{
    if m > 1 {
        law_sheet_outcomes(rows, m - 1);
        let r = rows[m - 1];
        law_row_outcome(r);
        let (qs, es) = parse_rows_upto(rows, m - 1);
        let (qs2, es2) = parse_rows_upto(rows, m);
        if !blank_row(r) {
            let (errs, q) = parse_row_spec(r);
            let add = Seq::new(errs.len(), |k: int| (m, errs[k]));
            assert(es2 == es + add);
            assert forall|k: int| 0 <= k < es2.len() implies 2 <= (#[trigger] es2[k]).0 <= m
                && !blank_row(rows[es2[k].0 - 1]) by {
                if k < es.len() {
                    assert(es2[k] == es[k]);
                } else {
                    assert(es2[k] == add[k - es.len()]);
                }
            }
            assert forall|a: int, b: int| 0 <= a < b < es2.len() implies (#[trigger] es2[a]).0 <= (#[trigger] es2[b]).0 by {
                if b < es.len() {
                    assert(es2[a] == es[a] && es2[b] == es[b]);
                } else if a < es.len() {
                    assert(es2[a] == es[a] && es2[b] == add[b - es.len()]);
                } else {
                    assert(es2[a] == add[a - es.len()] && es2[b] == add[b - es.len()]);
                }
            }
        }
    }
}

/// A judge answer written as one of the words for "false" (错, F, FALSE, ×, X, 错误,
/// any letter case, surrounding spaces ignored) is stored as `F`, one of the words for
/// "true" (对, T, TRUE, √, 正确) as `T`, and any other answer is refused.
pub proof fn law_judge_answers(raw: Seq<char>, n: nat)
    ensures
        ({
            let t = unicode_uppercase(trim_spec(raw));
            &&& (t == "错"@ || t == "F"@ || t == "FALSE"@ || t == "×"@ || t == "X"@ || t == "错误"@)
                ==> norm_answer_spec(raw, "judge"@, n) == Ok::<Seq<char>, Seq<char>>("F"@)
            &&& (t == "对"@ || t == "T"@ || t == "TRUE"@ || t == "√"@ || t == "正确"@)
                ==> norm_answer_spec(raw, "judge"@, n) == Ok::<Seq<char>, Seq<char>>("T"@)
            &&& !(t == "错"@ || t == "F"@ || t == "FALSE"@ || t == "×"@ || t == "X"@ || t == "错误"@
                || t == "对"@ || t == "T"@ || t == "TRUE"@ || t == "√"@ || t == "正确"@)
                ==> norm_answer_spec(raw, "judge"@, n) is Err
        }),
{
    reveal_strlit("judge");
    reveal_strlit("fill");
    reveal_strlit("错");
    reveal_strlit("F");
    reveal_strlit("FALSE");
    reveal_strlit("×");
    reveal_strlit("X");
    reveal_strlit("错误");
    reveal_strlit("对");
    reveal_strlit("T");
    reveal_strlit("TRUE");
    reveal_strlit("√");
    reveal_strlit("正确");
    assert("judge"@.len() == 5 && "fill"@.len() == 4);
    assert("judge"@ != "fill"@);
    assert("错"@.len() == 1 && "F"@.len() == 1 && "×"@.len() == 1 && "X"@.len() == 1
        && "对"@.len() == 1 && "T"@.len() == 1 && "√"@.len() == 1);
    assert("FALSE"@.len() == 5 && "TRUE"@.len() == 4 && "错误"@.len() == 2 && "正确"@.len() == 2);
    assert("错"@[0] != "对"@[0] && "错"@[0] != "T"@[0] && "错"@[0] != "√"@[0]);
    assert("F"@[0] != "对"@[0] && "F"@[0] != "T"@[0] && "F"@[0] != "√"@[0]);
    assert("×"@[0] != "对"@[0] && "×"@[0] != "T"@[0] && "×"@[0] != "√"@[0]);
    assert("X"@[0] != "对"@[0] && "X"@[0] != "T"@[0] && "X"@[0] != "√"@[0]);
    assert("错误"@[0] != "正确"@[0]);
    assert("错"@ != "对"@ && "错"@ != "T"@ && "错"@ != "√"@);
    assert("F"@ != "对"@ && "F"@ != "T"@ && "F"@ != "√"@);
    assert("×"@ != "对"@ && "×"@ != "T"@ && "×"@ != "√"@);
    assert("X"@ != "对"@ && "X"@ != "T"@ && "X"@ != "√"@);
    assert("错误"@ != "正确"@);
}

} // verus!
