//! Question banks: the records of a bank package and of stored questions, and the
//! decisions taken while importing a package (format check, which archive entries
//! are assets, chapter insertion order and parent links, field defaults).
use vstd::prelude::*;
use crate::protocol::{absolute_like, has_dotdot, is_absolute_like, lemma_no_dotdot_never_above, segments, stays_inside};
use crate::text::{chars_of, chars_eq, i64_to_string, push_str, split_char, split_on, str_eq, string_from_chars,
    decimal_int};

verus! {

broadcast use vstd::string::group_string_axioms;

/// The bank described by a package manifest.
pub struct BankMeta {
    pub bank_id: String,
    pub name: String,
    pub version: i64,
    pub description: String,
}

/// A chapter of a package; `parent` is the key of its parent chapter.
pub struct TopicIn {
    pub topic_key: String,
    pub name: String,
    pub parent: Option<String>,
}

/// A question of a package, as listed in its manifest.
pub struct QuestionIn {
    pub qid: String,
    pub qtype: String,
    pub stem: String,
    pub img_path: Option<String>,
    pub options: Vec<String>,
    pub answer: String,
    pub answer_conf: String,
    pub explain: String,
    pub source: String,
    pub difficulty: i64,
    pub topics: Vec<String>,
    pub status: String,
}

/// What importing a package did (`skipped` when that bank version was already there).
pub struct ImportReport {
    pub bank_id: String,
    pub bank_name: String,
    pub questions: usize,
    pub papers: usize,
    pub images: usize,
    pub skipped: bool,
}

/// Counts per enabled bank and per chapter.
pub struct Overview {
    pub banks: Vec<BankStat>,
    pub topics: Vec<TopicStat>,
}

/// Question counts of one bank.
pub struct BankStat {
    pub bank_id: String,
    pub name: String,
    pub version: i64,
    pub total: i64,
    pub active: i64,
    pub pending: i64,
    pub papers: i64,
}

/// Question counts of one chapter.
pub struct TopicStat {
    pub topic_id: i64,
    pub name: String,
    pub total: i64,
    pub active: i64,
}

/// A stored question as shown to the user; `topics` are its chapter names.
#[derive(Clone)]
pub struct QuestionRow {
    pub bank_id: String,
    pub qid: String,
    pub qtype: String,
    pub stem: String,
    pub img_path: Option<String>,
    pub options: Vec<String>,
    pub answer: String,
    pub answer_conf: String,
    pub explain: String,
    pub source: String,
    pub status: String,
    pub topics: Vec<String>,
}

/// The character sequences of a list of strings.
pub open spec fn str_views(v: Seq<String>) -> Seq<Seq<char>> {
    Seq::new(v.len(), |x: int| v[x]@)
}

/// A test paper of a bank, with its number of questions.
pub struct PaperInfo {
    pub paper_id: i64,
    pub bank_id: String,
    pub name: String,
    pub title: String,
    pub count: i64,
}

// ---------------------------------------------------------------- manifest

/// The message for a package whose format or schema version is not supported.
pub open spec fn unsupported_format_msg(format: Seq<char>, schema_ver: int) -> Seq<char> {
    "不支持的格式 "@ + format + " v"@ + decimal_int(schema_ver)
}

/// Accepts only packages of format `smartbank`, schema version 1.
pub fn check_manifest_format(format: &str, schema_ver: i64) -> (r: Result<(), String>)
    ensures
        match r {
            Ok(()) => format@ == "smartbank"@ && schema_ver == 1,
            Err(e) => !(format@ == "smartbank"@ && schema_ver == 1)
                && e@ == unsupported_format_msg(format@, schema_ver as int),
        },
{
    if str_eq(format, "smartbank") && schema_ver == 1 {
        return Ok(());
    }
    let mut v: Vec<char> = Vec::new();
    push_str(&mut v, "不支持的格式 ");
    push_str(&mut v, format);
    push_str(&mut v, " v");
    let n = i64_to_string(schema_ver);
    push_str(&mut v, n.as_str());
    Err(string_from_chars(&v))
}

// ---------------------------------------------------------------- assets

/// Where an archive entry named `name` goes under the bank's asset directory: the part
/// after `assets/`, unless it is empty, has a `..` segment, starts with a separator or
/// has a drive prefix (any of which would leave the directory).
pub open spec fn asset_rel_spec(name: Seq<char>) -> Option<Seq<char>> {
    let pre = "assets/"@;
    if name.len() >= pre.len() && name.take(pre.len() as int) == pre {
        let rel = name.skip(pre.len() as int);
        if rel.len() == 0 || segments(rel).contains(".."@) || absolute_like(rel) { None } else { Some(rel) }
    } else {
        None
    }
}

/// The relative path under the bank's asset directory for the archive entry `name`,
/// or `None` for entries outside `assets/`, the bare directory, and names that would
/// escape the directory (a `..` segment, a leading separator, a drive prefix).
pub fn asset_rel_path(name: &str) -> (r: Option<String>)
    ensures
        match r {
            Some(p) => asset_rel_spec(name@) == Some(p@),
            None => asset_rel_spec(name@) is None,
        },
{
    let s = chars_of(name);
    let pre = chars_of("assets/");
    proof {
        reveal_strlit("assets/");
    }
    if s.len() < pre.len() {
        return None;
    }
    let mut head: Vec<char> = Vec::new();
    let mut i: usize = 0;
    while i < pre.len()
        invariant
            0 <= i <= pre.len(),
            pre.len() <= s.len(),
            head@ == s@.take(i as int),
        decreases pre.len() - i,
    {
        head.push(s[i]);
        proof {
            assert(head@ =~= s@.take(i + 1));
        }
        i += 1;
    }
    if !chars_eq(&head, &pre) {
        return None;
    }
    let mut rel: Vec<char> = Vec::new();
    let mut j: usize = pre.len();
    while j < s.len()
        invariant
            pre.len() <= j <= s.len(),
            rel@ == s@.subrange(pre.len() as int, j as int),
        decreases s.len() - j,
    {
        rel.push(s[j]);
        proof {
            assert(rel@ =~= s@.subrange(pre.len() as int, j + 1));
        }
        j += 1;
    }
    proof {
        assert(rel@ =~= s@.skip(pre.len() as int));
    }
    if rel.len() == 0 || has_dotdot(&rel) || is_absolute_like(&rel) {
        return None;
    }
    Some(string_from_chars(&rel))
}

// ---------------------------------------------------------------- chapters

/// Where one chapter of a package is inserted: `index` into the package's chapter list,
/// `parent` the position (in this plan) of the chapter row it hangs under, and
/// `sort_order` its display order.
pub struct TopicInsert {
    pub index: usize,
    pub parent: Option<usize>,
    pub sort_order: usize,
}

/// The positions among the first `k` chapters that are roots (`want_root`) or have a
/// parent (otherwise), in order.
pub open spec fn root_filter(ts: Seq<TopicIn>, want_root: bool, k: int) -> Seq<int>
    decreases k,
{
    if k <= 0 {
        Seq::empty()
    } else {
        let p = root_filter(ts, want_root, k - 1);
        if (ts[k - 1].parent is None) == want_root { p.push(k - 1) } else { p }
    }
}

/// Insertion order of the chapters: those without a parent first, each group in
/// package order.
pub open spec fn insert_order(ts: Seq<TopicIn>) -> Seq<int> {
    root_filter(ts, true, ts.len() as int) + root_filter(ts, false, ts.len() as int)
}

/// The last position before `j` holding `key`.
pub open spec fn last_pos(keys: Seq<Seq<char>>, key: Seq<char>, j: int) -> Option<int>
    decreases j,
{
    if j <= 0 {
        None
    } else if keys[j - 1] == key {
        Some(j - 1)
    } else {
        last_pos(keys, key, j - 1)
    }
}

/// How many distinct keys occur before position `j`.
pub open spec fn distinct_upto(keys: Seq<Seq<char>>, j: int) -> nat
    decreases j,
{
    if j <= 0 {
        0
    } else {
        distinct_upto(keys, j - 1) + if keys.take(j - 1).contains(keys[j - 1]) { 0nat } else { 1nat }
    }
}

/// The chapter keys in insertion order.
pub open spec fn ordered_keys(ts: Seq<TopicIn>) -> Seq<Seq<char>> {
    let order = insert_order(ts);
    Seq::new(order.len(), |j: int| ts[order[j]].topic_key@)
}

/// The insertion plan of the chapters `ts`: roots first; a chapter's parent is the most
/// recently inserted chapter with the parent key (none if no such chapter came before);
/// the display order is the number of distinct keys inserted before it.
pub open spec fn topic_plan_ok(ts: Seq<TopicIn>, plan: Seq<TopicInsert>) -> bool {
    let order = insert_order(ts);
    let keys = ordered_keys(ts);
    &&& plan.len() == order.len()
    &&& forall|j: int| 0 <= j < plan.len() ==> {
        let ti = #[trigger] plan[j];
        &&& ti.index as int == order[j]
        &&& ti.sort_order as int == distinct_upto(keys, j)
        &&& match ts[order[j]].parent {
            None => ti.parent is None,
            Some(pk) => match ti.parent {
                None => last_pos(keys, pk@, j) is None,
                Some(x) => last_pos(keys, pk@, j) == Some(x as int),
            },
        }
    }
}

proof fn lemma_root_filter_bounds(ts: Seq<TopicIn>, want_root: bool, k: int)
    requires
        0 <= k <= ts.len(),
    ensures
        root_filter(ts, want_root, k).len() <= k,
        forall|j: int| 0 <= j < root_filter(ts, want_root, k).len()
            ==> 0 <= #[trigger] root_filter(ts, want_root, k)[j] < k,
    decreases k,
{
    if k > 0 {
        lemma_root_filter_bounds(ts, want_root, k - 1);
    }
}

/// The positions of `ts` that are roots (`want_root`) or not, in order.
fn collect_roots(ts: &Vec<TopicIn>, want_root: bool, out: &mut Vec<usize>)
    ensures
        final(out)@.len() == old(out)@.len() + root_filter(ts@, want_root, ts@.len() as int).len(),
        forall|j: int| 0 <= j < old(out)@.len() ==> #[trigger] final(out)@[j] == old(out)@[j],
        forall|j: int| 0 <= j < root_filter(ts@, want_root, ts@.len() as int).len()
            ==> final(out)@[old(out)@.len() + j] as int == #[trigger] root_filter(ts@, want_root, ts@.len() as int)[j],
{
    let ghost o0 = out@;
    let mut k: usize = 0;
    while k < ts.len()
        invariant
            0 <= k <= ts.len(),
            out@.len() == o0.len() + root_filter(ts@, want_root, k as int).len(),
            forall|j: int| 0 <= j < o0.len() ==> #[trigger] out@[j] == o0[j],
            forall|j: int| 0 <= j < root_filter(ts@, want_root, k as int).len()
                ==> out@[o0.len() + j] as int == #[trigger] root_filter(ts@, want_root, k as int)[j],
        decreases ts.len() - k,
    {
        if ts[k].parent.is_none() == want_root {
            out.push(k);
        }
        k += 1;
    }
}

/// Whether `key` occurs among `keys[..j]`.
fn contains_before(keys: &Vec<String>, key: &str, j: usize) -> (r: bool)
    requires
        j <= keys@.len(),
    ensures
        r == str_views(keys@).take(j as int).contains(key@),
{
    let ghost ks = str_views(keys@);
    let mut p: usize = 0;
    while p < j
        invariant
            0 <= p <= j <= keys@.len(),
            ks == str_views(keys@),
            forall|x: int| 0 <= x < p ==> ks[x] != key@,
        decreases j - p,
    {
        if str_eq(keys[p].as_str(), key) {
            proof {
                assert(ks.take(j as int)[p as int] == key@);
            }
            return true;
        }
        p += 1;
    }
    proof {
        if ks.take(j as int).contains(key@) {
            let x = choose|x: int| 0 <= x < j && ks.take(j as int)[x] == key@;
            assert(ks[x] == key@);
        }
    }
    false
}

/// The last position before `j` whose key is `key`.
fn last_pos_exec(keys: &Vec<String>, key: &str, j: usize) -> (r: Option<usize>)
    requires
        j <= keys@.len(),
    ensures
        match r {
            None => last_pos(str_views(keys@), key@, j as int) is None,
            Some(p) => last_pos(str_views(keys@), key@, j as int) == Some(p as int),
        },
{
    let ghost ks = str_views(keys@);
    let mut p: usize = j;
    while p > 0
        invariant
            0 <= p <= j <= keys@.len(),
            ks == str_views(keys@),
            last_pos(ks, key@, j as int) == last_pos(ks, key@, p as int),
        decreases p,
    {
        if str_eq(keys[p - 1].as_str(), key) {
            return Some(p - 1);
        }
        p -= 1;
    }
    None
}

/// Plans the insertion of a package's chapters (see [`topic_plan_ok`]).
pub fn plan_topics(ts: &Vec<TopicIn>) -> (plan: Vec<TopicInsert>)
    ensures
        topic_plan_ok(ts@, plan@),
{
    let mut order: Vec<usize> = Vec::new();
    collect_roots(ts, true, &mut order);
    collect_roots(ts, false, &mut order);
    let ghost ord = insert_order(ts@);
    proof {
        lemma_root_filter_bounds(ts@, true, ts@.len() as int);
        lemma_root_filter_bounds(ts@, false, ts@.len() as int);
        assert forall|j: int| 0 <= j < ord.len() implies order@[j] as int == ord[j] && 0 <= ord[j] < ts@.len() by {
            let r = root_filter(ts@, true, ts@.len() as int);
            if j >= r.len() {
                assert(order@[r.len() + (j - r.len())] as int == root_filter(ts@, false, ts@.len() as int)[j - r.len()]);
            }
        }
    }
    let mut keys: Vec<String> = Vec::new();
    let mut k: usize = 0;
    while k < order.len()
        invariant
            0 <= k <= order.len(),
            order@.len() == ord.len(),
            ord == insert_order(ts@),
            forall|j: int| 0 <= j < ord.len() ==> #[trigger] order@[j] as int == ord[j] && 0 <= ord[j] < ts@.len(),
            keys@.len() == k,
            forall|j: int| 0 <= j < k ==> (#[trigger] keys@[j])@ == ts@[ord[j]].topic_key@,
        decreases order.len() - k,
    {
        keys.push(ts[order[k]].topic_key.clone());
        k += 1;
    }
    let ghost ks = ordered_keys(ts@);
    proof {
        assert(str_views(keys@) =~= ks);
    }
    let mut plan: Vec<TopicInsert> = Vec::new();
    let mut distinct: usize = 0;
    let mut j: usize = 0;
    while j < order.len()
        invariant
            0 <= j <= order.len(),
            order@.len() == ord.len(),
            ord == insert_order(ts@),
            ks == ordered_keys(ts@),
            forall|x: int| 0 <= x < ord.len() ==> #[trigger] order@[x] as int == ord[x] && 0 <= ord[x] < ts@.len(),
            keys@.len() == ord.len(),
            str_views(keys@) == ks,
            distinct as int == distinct_upto(ks, j as int),
            distinct <= j,
            plan@.len() == j,
            forall|x: int| 0 <= x < j ==> {
                let ti = #[trigger] plan@[x];
                &&& ti.index as int == ord[x]
                &&& ti.sort_order as int == distinct_upto(ks, x)
                &&& match ts@[ord[x]].parent {
                    None => ti.parent is None,
                    Some(pk) => match ti.parent {
                        None => last_pos(ks, pk@, x) is None,
                        Some(y) => last_pos(ks, pk@, x) == Some(y as int),
                    },
                }
            },
        decreases order.len() - j,
    {
        let t = &ts[order[j]];
        let parent = match &t.parent {
            None => None,
            Some(pk) => last_pos_exec(&keys, pk.as_str(), j),
        };
        plan.push(TopicInsert { index: order[j], parent, sort_order: distinct });
        let seen = contains_before(&keys, keys[j].as_str(), j);
        proof {
            assert(ks[j as int] == keys@[j as int]@);
        }
        if !seen {
            distinct = distinct + 1;
        }
        j += 1;
    }
    plan
}

/// The status stored for a package question: `active` unless the package says otherwise.
pub open spec fn default_status(s: Seq<char>) -> Seq<char> {
    if s.len() == 0 { "active"@ } else { s }
}

/// The answer confidence stored for a package question: `high` unless the package says
/// otherwise.
pub open spec fn default_conf(s: Seq<char>) -> Seq<char> {
    if s.len() == 0 { "high"@ } else { s }
}

/// The stored status and answer confidence of a package question.
pub fn question_defaults(q: &QuestionIn) -> (r: (String, String))
    ensures
        r.0@ == default_status(q.status@),
        r.1@ == default_conf(q.answer_conf@),
{
    let status = if q.status.as_str().unicode_len() == 0 { "active".to_string() } else { q.status.clone() };
    let conf = if q.answer_conf.as_str().unicode_len() == 0 { "high".to_string() } else { q.answer_conf.clone() };
    (status, conf)
}

/// The chapter rows a package question is linked to: for each of its chapter keys that
/// some chapter has, the last inserted chapter with that key (keys naming no chapter
/// are dropped), in the question's order.
pub open spec fn topic_links(keys: Seq<Seq<char>>, qtopics: Seq<Seq<char>>) -> Seq<int>
    decreases qtopics.len(),
{
    if qtopics.len() == 0 {
        Seq::empty()
    } else {
        let p = topic_links(keys, qtopics.drop_last());
        match last_pos(keys, qtopics.last(), keys.len() as int) {
            Some(x) => p.push(x),
            None => p,
        }
    }
}

/// The plan positions of the chapters that question `q` is linked to (see [`topic_links`]).
pub fn question_topic_links(ts: &Vec<TopicIn>, plan: &Vec<TopicInsert>, q: &QuestionIn) -> (r: Vec<usize>)
    requires
        topic_plan_ok(ts@, plan@),
    ensures
        r@.len() == topic_links(ordered_keys(ts@), str_views(q.topics@)).len(),
        forall|x: int| 0 <= x < r@.len() ==> r@[x] as int
            == #[trigger] topic_links(ordered_keys(ts@), str_views(q.topics@))[x],
{
    let ghost ks = ordered_keys(ts@);
    let ghost qk = str_views(q.topics@);
    let mut keys: Vec<String> = Vec::new();
    let mut k: usize = 0;
    while k < plan.len()
        invariant
            0 <= k <= plan.len(),
            topic_plan_ok(ts@, plan@),
            ks == ordered_keys(ts@),
            keys@.len() == k,
            forall|j: int| 0 <= j < k ==> (#[trigger] keys@[j])@ == ks[j],
        decreases plan.len() - k,
    {
        let idx = plan[k].index;
        proof {
            let ti = plan@[k as int];
            lemma_root_filter_bounds(ts@, true, ts@.len() as int);
            lemma_root_filter_bounds(ts@, false, ts@.len() as int);
            let order = insert_order(ts@);
            let r = root_filter(ts@, true, ts@.len() as int);
            if k < r.len() {
                assert(order[k as int] == r[k as int]);
            } else {
                assert(order[k as int] == root_filter(ts@, false, ts@.len() as int)[k - r.len()]);
            }
        }
        keys.push(ts[idx].topic_key.clone());
        k += 1;
    }
    proof {
        assert(str_views(keys@) =~= ks);
    }
    let mut r: Vec<usize> = Vec::new();
    let mut i: usize = 0;
    while i < q.topics.len()
        invariant
            0 <= i <= q.topics.len(),
            keys@.len() == ks.len(),
            str_views(keys@) == ks,
            qk == str_views(q.topics@),
            r@.len() == topic_links(ks, qk.take(i as int)).len(),
            forall|x: int| 0 <= x < r@.len() ==> r@[x] as int == #[trigger] topic_links(ks, qk.take(i as int))[x],
        decreases q.topics.len() - i,
    {
        proof {
            assert(qk.take(i + 1).drop_last() =~= qk.take(i as int));
            assert(qk.take(i + 1).last() == q.topics@[i as int]@);
        }
        match last_pos_exec(&keys, q.topics[i].as_str(), keys.len()) {
            Some(p) => r.push(p),
            None => {},
        }
        i += 1;
    }
    proof {
        assert(qk.take(qk.len() as int) =~= qk);
    }
    r
}

// ---------------------------------------------------------------- queries

/// The columns of a question row; the last one joins its chapter names with `/`.
pub const QUESTION_SELECT: &'static str = "SELECT q.bank_id,q.qid,q.type,q.stem,q.img_path,q.options,q.answer,q.answer_conf,q.explain,q.source,q.status,
    (SELECT group_concat(t.name,'/') FROM question_topics qt JOIN topics t ON t.topic_id=qt.topic_id WHERE qt.bank_id=q.bank_id AND qt.qid=q.qid)";

/// The chapter names of a question row, from their `/`-joined list (none when absent).
pub open spec fn topic_names_spec(joined: Option<Seq<char>>) -> Seq<Seq<char>> {
    match joined {
        Some(s) => split_on(s, '/'),
        None => Seq::empty(),
    }
}

/// The chapter names of a question row.
pub fn topic_names(joined: &Option<String>) -> (r: Vec<String>)
    ensures
        str_views(r@) == topic_names_spec(match joined { Some(s) => Some(s@), None => None }),
{
    let mut r: Vec<String> = Vec::new();
    match joined {
        Some(s) => {
            let parts = split_char(s.as_str(), '/');
            let mut i: usize = 0;
            while i < parts.len()
                invariant
                    0 <= i <= parts.len(),
                    parts@.len() == split_on(s@, '/').len(),
                    forall|k: int| 0 <= k < parts@.len() ==> (#[trigger] parts@[k])@ == split_on(s@, '/')[k],
                    str_views(r@) == split_on(s@, '/').take(i as int),
                decreases parts.len() - i,
            {
                let ghost r0 = str_views(r@);
                r.push(string_from_chars(&parts[i]));
                proof {
                    assert(str_views(r@) =~= r0.push(parts@[i as int]@));
                    assert(split_on(s@, '/').take(i + 1) =~= split_on(s@, '/').take(i as int).push(split_on(s@, '/')[i as int]));
                }
                i += 1;
            }
            proof {
                assert(split_on(s@, '/').take(parts@.len() as int) =~= split_on(s@, '/'));
            }
        },
        None => {
            proof {
                assert(str_views(r@) =~= Seq::<Seq<char>>::empty());
            }
        },
    }
    r
}

/// The query listing questions, filtered by chapter, type, status (retired ones hidden
/// unless a status is asked for) and a text search in stem or explanation, ordered by
/// id, with its parameters bound in that order and then the limit and offset.
pub open spec fn list_questions_sql_spec(topic: bool, qtype: bool, status: bool, search: bool) -> Seq<char> {
    QUESTION_SELECT@ + " FROM questions q WHERE 1=1"@
        + (if topic { " AND q.qid IN (SELECT qid FROM question_topics WHERE topic_id=?)"@ } else { Seq::empty() })
        + (if qtype { " AND q.type=?"@ } else { Seq::empty() })
        + (if status { " AND q.status=?"@ } else { " AND q.status!='retired'"@ })
        + (if search { " AND (q.stem LIKE ? OR q.explain LIKE ?)"@ } else { Seq::empty() })
        + " ORDER BY q.qid LIMIT ? OFFSET ?"@
}

/// The query listing questions with the given filters present.
pub fn list_questions_sql(topic: bool, qtype: bool, status: bool, search: bool) -> (r: String)
    ensures
        r@ == list_questions_sql_spec(topic, qtype, status, search),
{
    let mut v: Vec<char> = Vec::new();
    push_str(&mut v, QUESTION_SELECT);
    push_str(&mut v, " FROM questions q WHERE 1=1");
    if topic {
        push_str(&mut v, " AND q.qid IN (SELECT qid FROM question_topics WHERE topic_id=?)");
    }
    if qtype {
        push_str(&mut v, " AND q.type=?");
    }
    if status {
        push_str(&mut v, " AND q.status=?");
    } else {
        push_str(&mut v, " AND q.status!='retired'");
    }
    if search {
        push_str(&mut v, " AND (q.stem LIKE ? OR q.explain LIKE ?)");
    }
    push_str(&mut v, " ORDER BY q.qid LIMIT ? OFFSET ?");
    proof {
        assert(v@ =~= list_questions_sql_spec(topic, qtype, status, search));
    }
    string_from_chars(&v)
}

/// The `LIKE` pattern matching text that contains `s`.
pub fn like_pattern(s: &str) -> (r: String)
    ensures
        r@ == seq!['%'] + s@ + seq!['%'],
{
    let mut v: Vec<char> = Vec::new();
    v.push('%');
    push_str(&mut v, s);
    v.push('%');
    string_from_chars(&v)
}

proof fn lemma_last_pos_bounds(keys: Seq<Seq<char>>, key: Seq<char>, j: int)
    ensures
        match last_pos(keys, key, j) {
            Some(p) => 0 <= p < j && keys[p] == key,
            None => true,
        },
    decreases j,
{
    if j > 0 {
        lemma_last_pos_bounds(keys, key, j - 1);
    }
}

/// A chapter is inserted after the chapter it hangs under, and under a chapter with its
/// parent key.
pub proof fn law_parent_before_child(ts: Seq<TopicIn>, plan: Seq<TopicInsert>, j: int)
    requires
        topic_plan_ok(ts, plan),
        0 <= j < plan.len(),
    ensures
        match (plan[j].parent, ts[plan[j].index as int].parent) {
            (Some(p), Some(pk)) => p < j && ts[plan[p as int].index as int].topic_key@ == pk@,
            (Some(_), None) => false,
            _ => true,
        },
{
    let order = insert_order(ts);
    let keys = ordered_keys(ts);
    lemma_root_filter_bounds(ts, true, ts.len() as int);
    lemma_root_filter_bounds(ts, false, ts.len() as int);
    let r = root_filter(ts, true, ts.len() as int);
    assert forall|x: int| 0 <= x < order.len() implies 0 <= #[trigger] order[x] < ts.len() by {
        if x >= r.len() {
            assert(order[x] == root_filter(ts, false, ts.len() as int)[x - r.len()]);
        }
    }
    assert(plan[j].index as int == order[j]);
    match ts[order[j]].parent {
        Some(pk) => {
            lemma_last_pos_bounds(keys, pk@, j);
            match last_pos(keys, pk@, j) {
                Some(p) => {
                    assert(plan[p].index as int == order[p]);
                    assert(keys[p] == ts[order[p]].topic_key@);
                },
                None => {},
            }
        },
        None => {},
    }
}

/// An asset entry that is unpacked stays inside the bank's asset directory.
pub proof fn law_asset_entries_stay_inside(name: Seq<char>)
    ensures
        match asset_rel_spec(name) {
            Some(rel) => stays_inside(rel),
            None => true,
        },
{
    match asset_rel_spec(name) {
        Some(rel) => {
            lemma_no_dotdot_never_above(segments(rel), 0);
        },
        None => {},
    }
}

} // verus!
