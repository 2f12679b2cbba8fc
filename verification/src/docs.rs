//! The reference-document corpus: where the document package is found, how each text
//! is titled and cut into chunks of about 1200 characters at paragraph boundaries,
//! how chunks and queries are segmented into words (jieba), the full-text match
//! expression of a query, and the snippet shown for a hit.
use vstd::prelude::*;
use crate::bank::str_views;
use crate::text::{chars_of, find_char, find_sub, find_sub_from, is_whitespace, lemma_find_char,
    lemma_find_sub_from, push_chars, push_str, string_from_chars, trim_chars, trim_spec, unicode_white_space};

verus! {

broadcast use vstd::string::group_string_axioms;

/// A search hit: the chunk's document title and path, and a snippet around the match.
pub struct DocHit {
    pub title: String,
    pub path: String,
    pub snippet: String,
}

/// The state of the search index.
pub struct DocsStatus {
    pub chunks: i64,
    pub built_at: String,
}

// ---------------------------------------------------------------- package location

/// `rel` under the directory `base`.
pub open spec fn join_path_spec(base: Seq<char>, rel: Seq<char>) -> Seq<char> {
    if base.len() == 0 {
        rel
    } else if base.last() == '/' {
        base + rel
    } else {
        base + seq!['/'] + rel
    }
}

/// `rel` under the directory `base`.
pub fn join_path(base: &str, rel: &str) -> (r: String)
    ensures
        r@ == join_path_spec(base@, rel@),
{
    let b = chars_of(base);
    let mut v: Vec<char> = Vec::new();
    push_chars(&mut v, &b);
    if b.len() > 0 && b[b.len() - 1] != '/' {
        v.push('/');
    }
    push_str(&mut v, rel);
    string_from_chars(&v)
}

/// Where the document package may be, in order of preference: imported by the user
/// into the data directory, shipped with the installed application, or in the
/// development tree.
pub open spec fn docpack_candidates_spec(data_dir: Seq<char>, resource_dir: Option<Seq<char>>, dev_dir: Seq<char>) -> Seq<Seq<char>> {
    let user = seq![join_path_spec(data_dir, "docs/docs.docpack"@)];
    let shipped = match resource_dir {
        Some(r) => seq![join_path_spec(r, "resources/docs/docs.docpack"@)],
        None => Seq::empty(),
    };
    user + shipped + seq![join_path_spec(dev_dir, "resources/docs/docs.docpack"@)]
}

/// The places to look for the document package, in order of preference.
pub fn docpack_candidates(data_dir: &str, resource_dir: Option<&str>, dev_dir: &str) -> (r: Vec<String>)
    ensures
        str_views(r@) == docpack_candidates_spec(data_dir@, match resource_dir { Some(x) => Some(x@), None => None }, dev_dir@),
{
    let mut r: Vec<String> = Vec::new();
    r.push(join_path(data_dir, "docs/docs.docpack"));
    match resource_dir {
        Some(res) => r.push(join_path(res, "resources/docs/docs.docpack")),
        None => {},
    }
    r.push(join_path(dev_dir, "resources/docs/docs.docpack"));
    proof {
        assert(str_views(r@) =~= docpack_candidates_spec(data_dir@, match resource_dir { Some(x) => Some(x@), None => None }, dev_dir@));
    }
    r
}

/// The first candidate that exists.
pub open spec fn first_existing(exists: Seq<bool>, k: int) -> Option<int>
    decreases exists.len() - k,
{
    if k < 0 || k >= exists.len() {
        None
    } else if exists[k] {
        Some(k)
    } else {
        first_existing(exists, k + 1)
    }
}

/// Picks the document package: the first candidate that exists (`exists[k]` tells
/// whether `candidates[k]` does), or the instruction to import one when none does.
pub fn resolve_docpack(candidates: &Vec<String>, exists: &Vec<bool>) -> (r: Result<String, String>)
    requires
        exists@.len() == candidates@.len(),
    ensures
        match r {
            Ok(p) => match first_existing(exists@, 0) {
                Some(k) => p@ == candidates@[k]@,
                None => false,
            },
            Err(e) => first_existing(exists@, 0) is None
                && e@ == "docs.docpack 未找到——请先在「资料速查」导入语料包，或将其放入 resources/docs/"@,
        },
{
    let mut k: usize = 0;
    while k < candidates.len()
        invariant
            0 <= k <= candidates.len(),
            exists@.len() == candidates@.len(),
            first_existing(exists@, 0) == first_existing(exists@, k as int),
        decreases candidates.len() - k,
    {
        if exists[k] {
            return Ok(candidates[k].clone());
        }
        k += 1;
    }
    Err("docs.docpack 未找到——请先在「资料速查」导入语料包，或将其放入 resources/docs/".to_string())
}

// ---------------------------------------------------------------- titles and chunks

/// The first line of `s` (`str::lines`): up to the first `\n`, without a `\r` just
/// before it; empty for empty text.
pub open spec fn first_line(s: Seq<char>) -> Seq<char> {
    match find_char(s, '\n') {
        Some(i) => {
            let l = s.take(i);
            if l.len() > 0 && l.last() == '\r' { l.drop_last() } else { l }
        },
        None => s,
    }
}

/// `s` without its leading `#` characters.
pub open spec fn strip_hashes(s: Seq<char>) -> Seq<char>
    decreases s.len(),
{
    if s.len() > 0 && s[0] == '#' { strip_hashes(s.skip(1)) } else { s }
}

/// The last `/`-separated component of `p` (all of `p` when it has no `/`).
pub open spec fn last_component(p: Seq<char>) -> Seq<char>
    decreases p.len(),
{
    if p.len() == 0 {
        p
    } else if p.last() == '/' {
        Seq::empty()
    } else {
        last_component(p.drop_last()).push(p.last())
    }
}

/// The title of a document: its first line, trimmed, without leading `#`s (a Markdown
/// heading); the file name of its path when that is empty.
pub open spec fn doc_title_spec(path: Seq<char>, content: Seq<char>) -> Seq<char> {
    let t = strip_hashes(trim_spec(first_line(content)));
    if t.len() == 0 { last_component(path) } else { t }
}

/// The title of the document at `path` with text `content`.
pub fn doc_title(path: &str, content: &str) -> (r: String)
    ensures
        r@ == doc_title_spec(path@, content@),
{
    let cs = chars_of(content);
    proof {
        lemma_find_char(cs@, '\n');
    }
    let mut e: usize = 0;
    while e < cs.len() && cs[e] != '\n'
        invariant
            0 <= e <= cs.len(),
            forall|j: int| 0 <= j < e ==> cs@[j] != '\n',
        decreases cs.len() - e,
    {
        e += 1;
    }
    let mut line: Vec<char> = Vec::new();
    let mut i: usize = 0;
    while i < e
        invariant
            0 <= i <= e <= cs.len(),
            line@ == cs@.take(i as int),
        decreases e - i,
    {
        line.push(cs[i]);
        proof {
            assert(line@ =~= cs@.take(i + 1));
        }
        i += 1;
    }
    proof {
        if e < cs.len() {
            assert(find_char(cs@, '\n') == Some(e as int)) by {
                let f = find_char(cs@, '\n');
                if f is Some && f->0 < e {
                    assert(cs@[f->0] != '\n');
                }
            }
        } else {
            assert(find_char(cs@, '\n') is None) by {
                if find_char(cs@, '\n') is Some {
                    assert(cs@[find_char(cs@, '\n')->0] == '\n');
                }
            }
            assert(cs@.take(e as int) =~= cs@);
        }
    }
    if e < cs.len() && line.len() > 0 && line[line.len() - 1] == '\r' {
        line.pop();
    }
    proof {
        assert(line@ == first_line(content@));
    }
    let t = trim_chars(&line);
    let mut h: usize = 0;
    proof {
        assert(t@.skip(0) =~= t@);
    }
    while h < t.len() && t[h] == '#'
        invariant
            0 <= h <= t.len(),
            strip_hashes(t@) == strip_hashes(t@.skip(h as int)),
        decreases t.len() - h,
    {
        proof {
            assert(t@.skip(h as int).skip(1) =~= t@.skip(h + 1));
        }
        h += 1;
    }
    let mut title: Vec<char> = Vec::new();
    let mut x: usize = h;
    while x < t.len()
        invariant
            h <= x <= t.len(),
            title@ == t@.subrange(h as int, x as int),
        decreases t.len() - x,
    {
        title.push(t[x]);
        proof {
            assert(title@ =~= t@.subrange(h as int, x + 1));
        }
        x += 1;
    }
    proof {
        assert(title@ =~= t@.skip(h as int));
    }
    if title.len() > 0 {
        return string_from_chars(&title);
    }
    let ps = chars_of(path);
    let mut b: usize = ps.len();
    proof {
        assert(ps@.take(ps@.len() as int) =~= ps@);
        assert(ps@.skip(ps@.len() as int) =~= Seq::<char>::empty());
        assert(last_component(ps@) =~= last_component(ps@.take(b as int)) + ps@.skip(b as int));
    }
    while b > 0 && ps[b - 1] != '/'
        invariant
            0 <= b <= ps.len(),
            last_component(ps@) == last_component(ps@.take(b as int)) + ps@.skip(b as int),
        decreases b,
    {
        proof {
            let pre = ps@.take(b as int);
            assert(pre.drop_last() =~= ps@.take(b - 1));
            assert(seq![pre.last()] + ps@.skip(b as int) =~= ps@.skip(b - 1));
            assert(last_component(pre) == last_component(pre.drop_last()).push(pre.last()));
            assert(last_component(pre.drop_last()).push(pre.last()) + ps@.skip(b as int)
                =~= last_component(pre.drop_last()) + ps@.skip(b - 1));
        }
        b -= 1;
    }
    proof {
        assert(ps@.take(ps@.len() as int) =~= ps@);
        assert(ps@.skip(ps@.len() as int) =~= Seq::<char>::empty());
        assert(last_component(ps@.take(b as int)) =~= Seq::<char>::empty());
    }
    let mut name: Vec<char> = Vec::new();
    let mut y: usize = b;
    while y < ps.len()
        invariant
            b <= y <= ps.len(),
            name@ == ps@.subrange(b as int, y as int),
        decreases ps.len() - y,
    {
        name.push(ps[y]);
        proof {
            assert(name@ =~= ps@.subrange(b as int, y + 1));
        }
        y += 1;
    }
    proof {
        assert(name@ =~= ps@.skip(b as int));
    }
    string_from_chars(&name)
}

/// The paragraphs of `s`: the pieces between occurrences of a blank line `\n\n`,
/// matched from the left (`str::split("\n\n")`).
pub open spec fn paragraphs(s: Seq<char>) -> Seq<Seq<char>>
    decreases s.len(),
{
    if s.len() < 2 {
        seq![s]
    } else if s[0] == '\n' && s[1] == '\n' {
        seq![Seq::<char>::empty()] + paragraphs(s.skip(2))
    } else {
        let p = paragraphs(s.skip(1));
        p.update(0, seq![s[0]] + p[0])
    }
}

proof fn lemma_paragraphs_nonempty(s: Seq<char>)
    ensures
        paragraphs(s).len() >= 1,
    decreases s.len(),
{
    if s.len() >= 2 {
        if s[0] == '\n' && s[1] == '\n' {
            lemma_paragraphs_nonempty(s.skip(2));
        } else {
            lemma_paragraphs_nonempty(s.skip(1));
        }
    }
}

/// The paragraphs of `s`.
fn split_paragraphs(s: &Vec<char>) -> (r: Vec<Vec<char>>)
    ensures
        r@.len() == paragraphs(s@).len(),
        forall|k: int| 0 <= k < r@.len() ==> (#[trigger] r@[k])@ == paragraphs(s@)[k],
{
    let n = s.len();
    let mut done: Vec<Vec<char>> = Vec::new();
    let mut cur: Vec<char> = Vec::new();
    let mut i: usize = 0;
    proof {
        lemma_paragraphs_nonempty(s@);
        assert(s@.skip(0) =~= s@);
        assert(paragraphs(s@) =~= Seq::<Seq<char>>::empty() + seq![Seq::<char>::empty() + paragraphs(s@.skip(0))[0]]
            + paragraphs(s@.skip(0)).skip(1));
    }
    while i < n
        invariant
            0 <= i <= n,
            n == s.len(),
            paragraphs(s@) == Seq::new(done@.len(), |k: int| done@[k]@) + seq![cur@ + paragraphs(s@.skip(i as int))[0]]
                + paragraphs(s@.skip(i as int)).skip(1),
        decreases n - i,
    {
        let ghost rest = s@.skip(i as int);
        let ghost dv = Seq::new(done@.len(), |k: int| done@[k]@);
        proof {
            lemma_paragraphs_nonempty(rest);
        }
        if i + 1 < n && s[i] == '\n' && s[i + 1] == '\n' {
            proof {
                let r2 = rest.skip(2);
                assert(r2 =~= s@.skip(i + 2));
                lemma_paragraphs_nonempty(r2);
                assert(paragraphs(rest) == seq![Seq::<char>::empty()] + paragraphs(r2));
            }
            let old_cur = cur;
            done.push(old_cur);
            cur = Vec::new();
            i += 2;
            proof {
                let r2 = s@.skip(i as int);
                assert(Seq::new(done@.len(), |k: int| done@[k]@) =~= dv.push(done@.last()@));
                assert(paragraphs(rest).skip(1) =~= paragraphs(r2));
                assert(paragraphs(s@) =~= Seq::new(done@.len(), |k: int| done@[k]@)
                    + seq![cur@ + paragraphs(r2)[0]] + paragraphs(r2).skip(1));
            }
        } else {
            let c = s[i];
            let ghost oc = cur@;
            cur.push(c);
            i += 1;
            proof {
                let r1 = s@.skip(i as int);
                assert(rest.skip(1) =~= r1);
                lemma_paragraphs_nonempty(r1);
                let pr = paragraphs(rest);
                let p1 = paragraphs(r1);
                if rest.len() >= 2 {
                    assert(pr == p1.update(0, seq![c] + p1[0]));
                    assert(pr[0] == seq![c] + p1[0]);
                    assert(pr.skip(1) =~= p1.skip(1));
                } else {
                    assert(r1.len() == 0);
                    assert(pr == seq![rest]);
                    assert(p1 == seq![r1]);
                    assert(rest =~= seq![c]);
                    assert(pr.skip(1) =~= p1.skip(1));
                }
                assert(cur@ == oc.push(c));
                assert(cur@ + p1[0] =~= oc + pr[0]);
                assert(Seq::new(done@.len(), |k: int| done@[k]@) =~= dv);
                assert(paragraphs(s@) == dv + seq![oc + pr[0]] + pr.skip(1));
                assert(seq![oc + pr[0]] =~= seq![cur@ + p1[0]]);
                assert(paragraphs(s@) =~= Seq::new(done@.len(), |k: int| done@[k]@)
                    + seq![cur@ + p1[0]] + p1.skip(1));
            }
        }
    }
    proof {
        let rest = s@.skip(i as int);
        assert(rest.len() == 0);
        assert(paragraphs(rest) == seq![rest]);
        assert(paragraphs(rest).skip(1) =~= Seq::<Seq<char>>::empty());
        assert(cur@ + paragraphs(rest)[0] =~= cur@);
    }
    let ghost dv = Seq::new(done@.len(), |k: int| done@[k]@);
    done.push(cur);
    proof {
        assert(Seq::new(done@.len(), |k: int| done@[k]@) =~= paragraphs(s@));
        assert forall|k: int| 0 <= k < done@.len() implies (#[trigger] done@[k])@ == paragraphs(s@)[k] by {
            assert(Seq::new(done@.len(), |k: int| done@[k]@)[k] == done@[k]@);
        }
    }
    done
}

/// The chunks closed while reading the paragraphs `ps` in order, and the open chunk:
/// each paragraph is trimmed and appended with a `\n`; a chunk closes once it holds at
/// least 1200 characters.
pub open spec fn chunk_fold(ps: Seq<Seq<char>>) -> (Seq<Seq<char>>, Seq<char>)
    decreases ps.len(),
{
    if ps.len() == 0 {
        (Seq::empty(), Seq::empty())
    } else {
        let (out, cur) = chunk_fold(ps.drop_last());
        let c2 = cur + trim_spec(ps.last()) + seq!['\n'];
        if c2.len() >= 1200 { (out.push(c2), Seq::empty()) } else { (out, c2) }
    }
}

/// The chunks of a document: those closed at 1200 characters, and the rest when it
/// holds more than 80 characters once trimmed.
pub open spec fn chunks_spec(content: Seq<char>) -> Seq<Seq<char>> {
    let (out, cur) = chunk_fold(paragraphs(content));
    if trim_spec(cur).len() > 80 { out.push(cur) } else { out }
}

/// The chunks of a document (see [`chunks_spec`]).
pub fn chunk_document(content: &str) -> (r: Vec<Vec<char>>)
    ensures
        r@.len() == chunks_spec(content@).len(),
        forall|k: int| 0 <= k < r@.len() ==> (#[trigger] r@[k])@ == chunks_spec(content@)[k],
{
    let cs = chars_of(content);
    let ps = split_paragraphs(&cs);
    let ghost pv = paragraphs(content@);
    let mut out: Vec<Vec<char>> = Vec::new();
    let mut cur: Vec<char> = Vec::new();
    let mut i: usize = 0;
    while i < ps.len()
        invariant
            0 <= i <= ps.len(),
            pv == paragraphs(content@),
            ps@.len() == pv.len(),
            forall|k: int| 0 <= k < ps@.len() ==> (#[trigger] ps@[k])@ == pv[k],
            chunk_fold(pv.take(i as int)).1 == cur@,
            out@.len() == chunk_fold(pv.take(i as int)).0.len(),
            forall|k: int| 0 <= k < out@.len() ==> (#[trigger] out@[k])@ == chunk_fold(pv.take(i as int)).0[k],
        decreases ps.len() - i,
    {
        proof {
            assert(pv.take(i + 1).drop_last() =~= pv.take(i as int));
            assert(pv.take(i + 1).last() == ps@[i as int]@);
        }
        let t = trim_chars(&ps[i]);
        push_chars(&mut cur, &t);
        cur.push('\n');
        if cur.len() >= 1200 {
            let closed = cur;
            out.push(closed);
            cur = Vec::new();
        }
        i += 1;
    }
    proof {
        assert(pv.take(pv.len() as int) =~= pv);
    }
    let t = trim_chars(&cur);
    if t.len() > 80 {
        out.push(cur);
    }
    out
}

// ---------------------------------------------------------------- segmentation

#[verifier::external_type_specification]
#[verifier::external_body]
pub struct ExJieba(jieba_rs::Jieba);

/// The words jieba cuts `text` into with its default dictionary and HMM recognition of
/// unknown words, in order.
pub uninterp spec fn jieba_words(text: Seq<char>) -> Seq<Seq<char>>;

/// A word segmenter loaded with jieba's default dictionary.
struct Segmenter {
    jb: jieba_rs::Jieba,
}

impl Segmenter {
    /// `jieba_rs::Jieba::new`: a segmenter with the default dictionary.
    #[verifier::external_body]
    fn new() -> Segmenter {
        Segmenter { jb: jieba_rs::Jieba::new() }
    }

    /// `jieba_rs::Jieba::cut` with HMM on: the words of `text`, taken as owned strings.
    #[verifier::external_body]
    fn words(&self, text: &str) -> (r: Vec<String>)
        ensures
            str_views(r@) == jieba_words(text@),
    {
        self.jb.cut(text, true).iter().map(|t| t.word.to_string()).collect()
    }
}

/// `ws` joined with `sep` between consecutive items.
pub open spec fn join_with(ws: Seq<Seq<char>>, sep: Seq<char>) -> Seq<char>
    decreases ws.len(),
{
    if ws.len() == 0 {
        Seq::empty()
    } else if ws.len() == 1 {
        ws[0]
    } else {
        join_with(ws.drop_last(), sep) + sep + ws.last()
    }
}

/// The strings of `ws` joined with `sep`.
pub fn join_strings(ws: &Vec<String>, sep: &str) -> (r: String)
    ensures
        r@ == join_with(str_views(ws@), sep@),
{
    let mut v: Vec<char> = Vec::new();
    let mut i: usize = 0;
    while i < ws.len()
        invariant
            0 <= i <= ws.len(),
            v@ == join_with(str_views(ws@).take(i as int), sep@),
        decreases ws.len() - i,
    {
        proof {
            assert(str_views(ws@).take(i + 1).drop_last() =~= str_views(ws@).take(i as int));
        }
        if i > 0 {
            push_str(&mut v, sep);
        }
        push_str(&mut v, ws[i].as_str());
        proof {
            if i == 0 {
                assert(str_views(ws@).take(1) =~= seq![ws@[0]@]);
            }
        }
        i += 1;
    }
    proof {
        assert(str_views(ws@).take(ws@.len() as int) =~= str_views(ws@));
    }
    string_from_chars(&v)
}

/// A chunk ready for the index: its document's path and title, its trimmed text, and
/// its words separated by spaces.
pub struct ChunkRow {
    pub path: String,
    pub title: String,
    pub raw: String,
    pub seg: String,
}

/// The index rows of one document.
pub open spec fn chunk_rows_ok(path: Seq<char>, content: Seq<char>, rows: Seq<ChunkRow>) -> bool {
    let cs = chunks_spec(content);
    &&& rows.len() == cs.len()
    &&& forall|k: int| 0 <= k < rows.len() ==> {
        let r = #[trigger] rows[k];
        &&& r.path@ == path
        &&& r.title@ == doc_title_spec(path, content)
        &&& r.raw@ == trim_spec(cs[k])
        &&& r.seg@ == join_with(jieba_words(cs[k]), " "@)
    }
}

/// The index rows of the documents `(path, text)`, document after document, chunk after
/// chunk (see [`chunk_rows_ok`]).
pub fn index_documents(texts: &Vec<(String, String)>) -> (r: Vec<Vec<ChunkRow>>)
    ensures
        r@.len() == texts@.len(),
        forall|d: int| 0 <= d < texts@.len() ==> chunk_rows_ok(texts@[d].0@, texts@[d].1@, (#[trigger] r@[d])@),
{
    let sg = Segmenter::new();
    let mut all: Vec<Vec<ChunkRow>> = Vec::new();
    let mut d: usize = 0;
    while d < texts.len()
        invariant
            0 <= d <= texts.len(),
            all@.len() == d,
            forall|x: int| 0 <= x < d ==> chunk_rows_ok(texts@[x].0@, texts@[x].1@, (#[trigger] all@[x])@),
        decreases texts.len() - d,
    {
        let path = &texts[d].0;
        let content = &texts[d].1;
        let title = doc_title(path.as_str(), content.as_str());
        let chunks = chunk_document(content.as_str());
        let mut rows: Vec<ChunkRow> = Vec::new();
        let mut k: usize = 0;
        while k < chunks.len()
            invariant
                0 <= k <= chunks.len(),
                title@ == doc_title_spec(path@, content@),
                chunks@.len() == chunks_spec(content@).len(),
                forall|x: int| 0 <= x < chunks@.len() ==> (#[trigger] chunks@[x])@ == chunks_spec(content@)[x],
                rows@.len() == k,
                forall|x: int| 0 <= x < k ==> {
                    let r = #[trigger] rows@[x];
                    &&& r.path@ == path@
                    &&& r.title@ == doc_title_spec(path@, content@)
                    &&& r.raw@ == trim_spec(chunks_spec(content@)[x])
                    &&& r.seg@ == join_with(jieba_words(chunks_spec(content@)[x]), " "@)
                },
            decreases chunks.len() - k,
        {
            let text = string_from_chars(&chunks[k]);
            let raw = string_from_chars(&trim_chars(&chunks[k]));
            let words = sg.words(text.as_str());
            let seg = join_strings(&words, " ");
            rows.push(ChunkRow { path: path.clone(), title: title.clone(), raw, seg });
            k += 1;
        }
        all.push(rows);
        d += 1;
    }
    all
}

/// The words of `s` joined with spaces: the text stored for full-text matching.
pub fn segment_text(s: &str) -> (r: String)
    ensures
        r@ == join_with(jieba_words(s@), " "@),
{
    let sg = Segmenter::new();
    let words = sg.words(s);
    join_strings(&words, " ")
}

// ---------------------------------------------------------------- queries

/// Whether `w` holds something besides whitespace.
pub open spec fn not_blank(w: Seq<char>) -> bool {
    trim_spec(w).len() > 0
}

/// The words of `ws` that are not blank, in order.
pub open spec fn non_blank(ws: Seq<Seq<char>>) -> Seq<Seq<char>>
    decreases ws.len(),
{
    if ws.len() == 0 {
        Seq::empty()
    } else if not_blank(ws.last()) {
        non_blank(ws.drop_last()).push(ws.last())
    } else {
        non_blank(ws.drop_last())
    }
}

/// The search terms of a query: its jieba words that are not blank.
pub fn query_tokens(query: &str) -> (r: Vec<String>)
    ensures
        str_views(r@) == non_blank(jieba_words(query@)),
{
    let sg = Segmenter::new();
    let words = sg.words(query);
    let ghost wv = jieba_words(query@);
    let mut r: Vec<String> = Vec::new();
    let mut i: usize = 0;
    while i < words.len()
        invariant
            0 <= i <= words.len(),
            str_views(words@) == wv,
            str_views(r@) == non_blank(wv.take(i as int)),
        decreases words.len() - i,
    {
        proof {
            assert(wv.take(i + 1).drop_last() =~= wv.take(i as int));
            assert(wv.take(i + 1).last() == words@[i as int]@);
        }
        let cs = chars_of(words[i].as_str());
        let t = trim_chars(&cs);
        if t.len() > 0 {
            r.push(words[i].clone());
            proof {
                assert(str_views(r@) =~= non_blank(wv.take(i as int)).push(words@[i as int]@));
            }
        }
        i += 1;
    }
    proof {
        assert(wv.take(wv.len() as int) =~= wv);
    }
    r
}

/// Each term in double quotes.
pub open spec fn quoted(ts: Seq<Seq<char>>) -> Seq<Seq<char>> {
    Seq::new(ts.len(), |k: int| seq!['"'] + ts[k] + seq!['"'])
}

/// The full-text match expression of some terms: each quoted, all required.
pub open spec fn match_expr_spec(ts: Seq<Seq<char>>) -> Seq<char> {
    join_with(quoted(ts), " AND "@)
}

/// The full-text match expression requiring every term of `toks`.
pub fn match_expr(toks: &Vec<String>) -> (r: String)
    ensures
        r@ == match_expr_spec(str_views(toks@)),
{
    let mut q: Vec<String> = Vec::new();
    let mut i: usize = 0;
    while i < toks.len()
        invariant
            0 <= i <= toks.len(),
            str_views(q@) == quoted(str_views(toks@)).take(i as int),
        decreases toks.len() - i,
    {
        let mut v: Vec<char> = Vec::new();
        v.push('"');
        push_str(&mut v, toks[i].as_str());
        v.push('"');
        proof {
            assert(v@ =~= seq!['"'] + toks@[i as int]@ + seq!['"']);
        }
        let ghost q0 = str_views(q@);
        q.push(string_from_chars(&v));
        proof {
            let tv = str_views(toks@);
            assert(str_views(q@) =~= q0.push(v@));
            assert(quoted(tv)[i as int] == seq!['"'] + tv[i as int] + seq!['"']);
            assert(quoted(tv).take(i + 1) =~= quoted(tv).take(i as int).push(quoted(tv)[i as int]));
            assert(str_views(q@) =~= quoted(str_views(toks@)).take(i + 1));
        }
        i += 1;
    }
    proof {
        assert(quoted(str_views(toks@)).take(toks@.len() as int) =~= quoted(str_views(toks@)));
    }
    join_strings(&q, " AND ")
}

/// The match expression of a benchmark query: its terms as in a search, or the whole
/// query quoted when it has no term.
pub fn benchmark_match_expr(query: &str) -> (r: String)
    ensures
        non_blank(jieba_words(query@)).len() == 0 ==> r@ == seq!['"'] + query@ + seq!['"'],
        non_blank(jieba_words(query@)).len() > 0 ==> r@ == match_expr_spec(non_blank(jieba_words(query@))),
{
    let toks = query_tokens(query);
    if toks.len() == 0 {
        let mut v: Vec<char> = Vec::new();
        v.push('"');
        push_str(&mut v, query);
        v.push('"');
        return string_from_chars(&v);
    }
    match_expr(&toks)
}

// ---------------------------------------------------------------- snippets

/// The earliest position in `raw` where one of the first `k` terms occurs.
pub open spec fn first_hit(raw: Seq<char>, toks: Seq<Seq<char>>, k: int) -> Option<int>
    decreases k,
{
    if k <= 0 {
        None
    } else {
        let p = first_hit(raw, toks, k - 1);
        match find_sub_from(raw, toks[k - 1], 0) {
            None => p,
            Some(x) => match p {
                None => Some(x),
                Some(y) => Some(if x < y { x } else { y }),
            },
        }
    }
}

/// `s` with each `\n` replaced by a space.
pub open spec fn newlines_to_spaces(s: Seq<char>) -> Seq<char> {
    Seq::new(s.len(), |i: int| if s[i] == '\n' { ' ' } else { s[i] })
}

/// The snippet of a hit: a window of at most 160 characters starting 30 characters
/// before the earliest term occurrence (the start of the text when no term occurs),
/// with `…` marking a cut on either side and line breaks shown as spaces.
pub open spec fn snippet_spec(raw: Seq<char>, toks: Seq<Seq<char>>) -> Seq<char> {
    let pos = match first_hit(raw, toks, toks.len() as int) { Some(p) => p, None => 0 };
    let start = if pos >= 30 { pos - 30 } else { 0 };
    let end = if start + 160 <= raw.len() { start + 160 } else { raw.len() as int };
    let body = newlines_to_spaces(raw.subrange(start, end));
    (if start > 0 { seq!['…'] } else { Seq::empty() }) + body + (if end < raw.len() { seq!['…'] } else { Seq::empty() })
}

proof fn lemma_first_hit_bounds(raw: Seq<char>, toks: Seq<Seq<char>>, k: int)
    requires
        0 <= k <= toks.len(),
    ensures
        match first_hit(raw, toks, k) {
            Some(p) => 0 <= p <= raw.len(),
            None => true,
        },
    decreases k,
{
    if k > 0 {
        lemma_first_hit_bounds(raw, toks, k - 1);
        lemma_find_sub_from(raw, toks[k - 1], 0);
    }
}

/// The snippet shown for a hit on the chunk text `raw` (see [`snippet_spec`]).
pub fn make_snippet(raw: &str, toks: &Vec<String>) -> (r: String)
    ensures
        r@ == snippet_spec(raw@, str_views(toks@)),
{
    let cs = chars_of(raw);
    let ghost tv = str_views(toks@);
    let mut best: Option<usize> = None;
    let mut k: usize = 0;
    while k < toks.len()
        invariant
            0 <= k <= toks.len(),
            tv == str_views(toks@),
            cs@ == raw@,
            match best {
                Some(b) => first_hit(raw@, tv, k as int) == Some(b as int),
                None => first_hit(raw@, tv, k as int) is None,
            },
        decreases toks.len() - k,
    {
        let t = chars_of(toks[k].as_str());
        proof {
            assert(tv[k as int] == t@);
        }
        match find_sub(&cs, &t) {
            Some(x) => {
                best = match best {
                    None => Some(x),
                    Some(y) => Some(if x < y { x } else { y }),
                };
            },
            None => {},
        }
        k += 1;
    }
    proof {
        lemma_first_hit_bounds(raw@, tv, tv.len() as int);
    }
    let pos: usize = match best { Some(p) => p, None => 0 };
    let n = cs.len();
    let start: usize = if pos >= 30 { pos - 30 } else { 0 };
    let end: usize = if start <= n && n - start >= 160 { start + 160 } else { n };
    let mut v: Vec<char> = Vec::new();
    if start > 0 {
        v.push('…');
    }
    let ghost v0 = v@;
    let mut i: usize = start;
    while i < end
        invariant
            start <= i <= end <= n,
            n == cs.len(),
            v@ == v0 + newlines_to_spaces(cs@.subrange(start as int, i as int)),
        decreases end - i,
    {
        let c = cs[i];
        v.push(if c == '\n' { ' ' } else { c });
        proof {
            assert(v@ =~= v0 + newlines_to_spaces(cs@.subrange(start as int, i + 1)));
        }
        i += 1;
    }
    if end < n {
        v.push('…');
    }
    proof {
        assert(v@ =~= snippet_spec(raw@, tv));
    }
    string_from_chars(&v)
}

// ---------------------------------------------------------------- laws

proof fn lemma_chunk_fold_sizes(ps: Seq<Seq<char>>)
    ensures
        forall|k: int| 0 <= k < chunk_fold(ps).0.len() ==> (#[trigger] chunk_fold(ps).0[k]).len() >= 1200,
        chunk_fold(ps).1.len() < 1200,
    decreases ps.len(),
{
    if ps.len() > 0 {
        lemma_chunk_fold_sizes(ps.drop_last());
        let (out, cur) = chunk_fold(ps.drop_last());
        let c2 = cur + trim_spec(ps.last()) + seq!['\n'];
        if c2.len() >= 1200 {
            assert forall|k: int| 0 <= k < out.push(c2).len() implies (#[trigger] out.push(c2)[k]).len() >= 1200 by {
                if k < out.len() {
                    assert(out.push(c2)[k] == out[k]);
                }
            }
        }
    }
}

/// Every chunk of a document holds at least 1200 characters, except the last one,
/// which holds more than 80 characters once trimmed (text shorter than that at the
/// end of a document is not indexed).
pub proof fn law_chunk_sizes(content: Seq<char>)
    ensures
        forall|k: int| 0 <= k < chunks_spec(content).len() ==> (#[trigger] chunks_spec(content)[k]).len() >= 1200
            || (k == chunks_spec(content).len() - 1 && trim_spec(chunks_spec(content)[k]).len() > 80),
{
    let ps = paragraphs(content);
    lemma_chunk_fold_sizes(ps);
    let (out, cur) = chunk_fold(ps);
    if trim_spec(cur).len() > 80 {
        assert forall|k: int| 0 <= k < out.push(cur).len() implies (#[trigger] out.push(cur)[k]).len() >= 1200
            || (k == out.push(cur).len() - 1 && trim_spec(out.push(cur)[k]).len() > 80) by {
            if k < out.len() {
                assert(out.push(cur)[k] == out[k]);
            }
        }
    }
}

/// A snippet is at most 160 characters of the text plus an ellipsis on each side.
pub proof fn law_snippet_length(raw: Seq<char>, toks: Seq<Seq<char>>)
    ensures
        snippet_spec(raw, toks).len() <= 162,
{
    lemma_first_hit_bounds(raw, toks, toks.len() as int);
}

proof fn lemma_first_hit_earliest(raw: Seq<char>, toks: Seq<Seq<char>>, m: int)
    requires
        0 <= m <= toks.len(),
    ensures
        match first_hit(raw, toks, m) {
            Some(p) => (exists|k: int| 0 <= k < m && p + toks[k].len() <= raw.len()
                    && #[trigger] raw.subrange(p, p + toks[k].len()) == toks[k])
                && forall|k: int, x: int| 0 <= k < m && 0 <= x < p && x + toks[k].len() <= raw.len()
                    ==> #[trigger] raw.subrange(x, x + toks[k].len()) != toks[k],
            None => forall|k: int, x: int| 0 <= k < m && 0 <= x && x + toks[k].len() <= raw.len()
                ==> #[trigger] raw.subrange(x, x + toks[k].len()) != toks[k],
        },
    decreases m,
{
    if m > 0 {
        lemma_first_hit_earliest(raw, toks, m - 1);
        let t = toks[m - 1];
        lemma_find_sub_from(raw, t, 0);
        match first_hit(raw, toks, m - 1) {
            Some(y) => {
                match find_sub_from(raw, t, 0) {
                    Some(x) => {
                        if x < y {
                            assert(raw.subrange(x, x + t.len()) == t);
                        } else {
                            let k0 = choose|k: int| 0 <= k < m - 1 && y + toks[k].len() <= raw.len()
                                && #[trigger] raw.subrange(y, y + toks[k].len()) == toks[k];
                            assert(0 <= k0 < m);
                        }
                    },
                    None => {
                        let k0 = choose|k: int| 0 <= k < m - 1 && y + toks[k].len() <= raw.len()
                            && #[trigger] raw.subrange(y, y + toks[k].len()) == toks[k];
                        assert(0 <= k0 < m);
                    },
                }
            },
            None => {
                match find_sub_from(raw, t, 0) {
                    Some(x) => {
                        assert(raw.subrange(x, x + t.len()) == t);
                    },
                    None => {},
                }
            },
        }
    }
}

/// A snippet is anchored at the earliest place any search term occurs: some term
/// starts there, and no term occurs anywhere before it; when no term occurs at all, or
/// some term occurs within the first 30 characters, the snippet starts at the beginning
/// of the text.
pub proof fn law_snippet_anchor(raw: Seq<char>, toks: Seq<Seq<char>>)
    ensures
        match first_hit(raw, toks, toks.len() as int) {
            Some(p) => (exists|k: int| 0 <= k < toks.len() && p + toks[k].len() <= raw.len()
                    && #[trigger] raw.subrange(p, p + toks[k].len()) == toks[k])
                && forall|k: int, x: int| 0 <= k < toks.len() && 0 <= x < p && x + toks[k].len() <= raw.len()
                    ==> #[trigger] raw.subrange(x, x + toks[k].len()) != toks[k],
            None => forall|k: int, x: int| 0 <= k < toks.len() && 0 <= x && x + toks[k].len() <= raw.len()
                ==> #[trigger] raw.subrange(x, x + toks[k].len()) != toks[k],
        },
        first_hit(raw, toks, toks.len() as int) is None ==> snippet_spec(raw, toks)
            == newlines_to_spaces(raw.take(if raw.len() >= 160 { 160 } else { raw.len() as int }))
                + (if raw.len() > 160 { seq!['…'] } else { Seq::empty() }),
        forall|k: int, x: int| 0 <= k < toks.len() && 0 <= x <= 30 && x + toks[k].len() <= raw.len()
            && #[trigger] raw.subrange(x, x + toks[k].len()) == toks[k]
            ==> snippet_spec(raw, toks)
            == newlines_to_spaces(raw.take(if raw.len() >= 160 { 160 } else { raw.len() as int }))
                + (if raw.len() > 160 { seq!['…'] } else { Seq::empty() }),
{
    lemma_first_hit_earliest(raw, toks, toks.len() as int);
    lemma_first_hit_bounds(raw, toks, toks.len() as int);
    let end = if raw.len() >= 160 { 160 } else { raw.len() as int };
    assert(raw.subrange(0, end) =~= raw.take(end));
    let starts_at_front = match first_hit(raw, toks, toks.len() as int) { Some(p) => p <= 30, None => true };
    if starts_at_front {
        assert(snippet_spec(raw, toks) =~= newlines_to_spaces(raw.take(end))
            + (if raw.len() > 160 { seq!['…'] } else { Seq::<char>::empty() }));
    }
    assert forall|k: int, x: int| 0 <= k < toks.len() && 0 <= x <= 30 && x + toks[k].len() <= raw.len()
        && #[trigger] raw.subrange(x, x + toks[k].len()) == toks[k]
        implies snippet_spec(raw, toks)
        == newlines_to_spaces(raw.take(end)) + (if raw.len() > 160 { seq!['…'] } else { Seq::<char>::empty() }) by {
        match first_hit(raw, toks, toks.len() as int) {
            Some(p) => {
                if p > x {
                    assert(raw.subrange(x, x + toks[k].len()) != toks[k]);
                }
            },
            None => {},
        }
    }
}

} // verus!
