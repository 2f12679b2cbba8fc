//! Backups and the diagnostics package: whether a backup is written as a zip, which
//! log files go into the diagnostics package and under which names, in which order.
use vstd::prelude::*;
use crate::bank::str_views;
use crate::text::{chars_of, push_str, string_from_chars};

verus! {

broadcast use vstd::string::group_string_axioms;

/// What a backup holds, checked before restoring it.
pub struct RestoreInfo {
    pub sessions: i64,
    pub records: i64,
    pub created_at: String,
}

/// The extension of a file name: what follows its last `.`, unless that dot is the
/// first character (a hidden file such as `.log` has none).
pub open spec fn extension_spec(name: Seq<char>) -> Option<Seq<char>>
    decreases name.len(),
{
    if name.len() == 0 {
        None
    } else if name.last() == '.' {
        if name.len() == 1 { None } else { Some(Seq::empty()) }
    } else {
        match extension_spec(name.drop_last()) {
            Some(e) => Some(e.push(name.last())),
            None => None,
        }
    }
}

/// The file name of a path: its last `/`-separated component, trailing `/`s ignored.
pub open spec fn file_name_spec(p: Seq<char>) -> Seq<char>
    decreases p.len(),
{
    if p.len() == 0 {
        p
    } else if p.last() == '/' {
        let q = p.drop_last();
        if q.len() > 0 && q.last() != '/' { last_part(q) } else { file_name_spec(q) }
    } else {
        last_part(p)
    }
}

/// The part of `p` after its last `/`.
pub open spec fn last_part(p: Seq<char>) -> Seq<char>
    decreases p.len(),
{
    if p.len() == 0 {
        p
    } else if p.last() == '/' {
        Seq::empty()
    } else {
        last_part(p.drop_last()).push(p.last())
    }
}

/// The extension of file name `name`.
pub fn extension(name: &Vec<char>) -> (r: Option<Vec<char>>)
    ensures
        match r {
            Some(e) => extension_spec(name@) == Some(e@),
            None => extension_spec(name@) is None,
        },
{
    let n = name.len();
    let mut d: usize = n;
    while d > 0 && name[d - 1] != '.'
        invariant
            0 <= d <= n,
            n == name@.len(),
            forall|j: int| d <= j < n ==> name@[j] != '.',
        decreases d,
    {
        d -= 1;
    }
    proof {
        lemma_extension_tail(name@, d as int);
    }
    if d <= 1 {
        return None;
    }
    let mut e: Vec<char> = Vec::new();
    let mut i: usize = d;
    while i < n
        invariant
            d <= i <= n,
            n == name@.len(),
            e@ == name@.subrange(d as int, i as int),
        decreases n - i,
    {
        e.push(name[i]);
        proof {
            assert(e@ =~= name@.subrange(d as int, i + 1));
        }
        i += 1;
    }
    proof {
        assert(e@ =~= name@.skip(d as int));
    }
    Some(e)
}

proof fn lemma_extension_tail(name: Seq<char>, d: int)
    requires
        0 <= d <= name.len(),
        forall|j: int| d <= j < name.len() ==> name[j] != '.',
        d > 0 ==> name[d - 1] == '.',
    ensures
        d <= 1 ==> extension_spec(name) is None,
        d > 1 ==> extension_spec(name) == Some(name.skip(d)),
    decreases name.len() - d,
{
    if name.len() > d {
        let p = name.drop_last();
        assert forall|j: int| d <= j < p.len() implies p[j] != '.' by {
            assert(p[j] == name[j]);
        }
        if d > 0 {
            assert(p[d - 1] == name[d - 1]);
        }
        lemma_extension_tail(p, d);
        if d > 1 {
            assert(p.skip(d).push(name.last()) =~= name.skip(d));
        }
    } else if d == name.len() && d > 1 {
        assert(name.skip(d) =~= Seq::<char>::empty());
    } else if d == 0 {
        assert(name.len() == 0);
    }
}

/// Whether a backup to `dest` is written as a zip archive (a manifest and a snapshot of
/// the user database) rather than as a bare database snapshot: when the file name has
/// the extension `zip`.
pub open spec fn backup_as_zip_spec(dest: Seq<char>) -> bool {
    extension_spec(file_name_spec(dest)) == Some("zip"@)
}

/// The file name of path `p`.
pub fn file_name(p: &str) -> (r: Vec<char>)
    ensures
        r@ == file_name_spec(p@),
{
    let cs = chars_of(p);
    let mut e: usize = cs.len();
    proof {
        assert(cs@.take(cs@.len() as int) =~= cs@);
    }
    while e > 0 && cs[e - 1] == '/'
        invariant
            0 <= e <= cs@.len(),
            file_name_spec(cs@) == file_name_spec(cs@.take(e as int)),
        decreases e,
    {
        proof {
            let q = cs@.take(e as int);
            assert(q.drop_last() =~= cs@.take(e - 1));
            lemma_file_name_trailing(q);
        }
        e -= 1;
    }
    let mut b: usize = e;
    while b > 0 && cs[b - 1] != '/'
        invariant
            0 <= b <= e <= cs@.len(),
            forall|j: int| b <= j < e ==> cs@[j] != '/',
        decreases b,
    {
        b -= 1;
    }
    let mut r: Vec<char> = Vec::new();
    let mut i: usize = b;
    while i < e
        invariant
            b <= i <= e <= cs@.len(),
            r@ == cs@.subrange(b as int, i as int),
        decreases e - i,
    {
        r.push(cs[i]);
        proof {
            assert(r@ =~= cs@.subrange(b as int, i + 1));
        }
        i += 1;
    }
    proof {
        assert(cs@.take(cs@.len() as int) =~= cs@);
        let q = cs@.take(e as int);
        lemma_last_part(q, b as int);
        if e > 0 {
            assert(q.last() != '/');
        }
        assert(file_name_spec(q) == last_part(q));
        assert(q.skip(b as int) =~= cs@.subrange(b as int, e as int));
    }
    r
}

proof fn lemma_file_name_trailing(q: Seq<char>)
    requires
        q.len() > 0,
        q.last() == '/',
    ensures
        file_name_spec(q) == file_name_spec(q.drop_last()),
{
    let p = q.drop_last();
    if p.len() > 0 && p.last() != '/' {
        assert(file_name_spec(p) == last_part(p));
    }
}

proof fn lemma_last_part(q: Seq<char>, b: int)
    requires
        0 <= b <= q.len(),
        forall|j: int| b <= j < q.len() ==> q[j] != '/',
        b > 0 ==> q[b - 1] == '/',
    ensures
        last_part(q) == q.skip(b),
    decreases q.len() - b,
{
    if q.len() > b {
        let p = q.drop_last();
        assert forall|j: int| b <= j < p.len() implies p[j] != '/' by {
            assert(p[j] == q[j]);
        }
        if b > 0 {
            assert(p[b - 1] == q[b - 1]);
        }
        lemma_last_part(p, b);
        assert(p.skip(b).push(q.last()) =~= q.skip(b));
    } else {
        assert(q.skip(b) =~= Seq::<char>::empty());
        if b > 0 {
            assert(q.last() == '/');
        }
    }
}

/// Whether a backup to `dest` is written as a zip archive.
pub fn backup_as_zip(dest: &str) -> (r: bool)
    ensures
        r == backup_as_zip_spec(dest@),
{
    let f = file_name(dest);
    proof {
        reveal_strlit("zip");
    }
    let ext = extension(&f);
    let r = match &ext {
        Some(e) => e.len() == 3 && e[0] == 'z' && e[1] == 'i' && e[2] == 'p',
        None => false,
    };
    proof {
        match ext {
            Some(e) => {
                if r {
                    assert(e@ =~= "zip"@);
                }
                if e@ == "zip"@ {
                    assert(e@.len() == 3 && e@[0] == 'z' && e@[1] == 'i' && e@[2] == 'p');
                }
            },
            None => {},
        }
    }
    r
}

// ---------------------------------------------------------------- diagnostics

/// Lexicographic order of character sequences (the order of `str` and of file names).
pub open spec fn seq_le(a: Seq<char>, b: Seq<char>) -> bool
    decreases a.len(),
{
    if a.len() == 0 {
        true
    } else if b.len() == 0 {
        false
    } else if a[0] != b[0] {
        a[0] < b[0]
    } else {
        seq_le(a.skip(1), b.skip(1))
    }
}

proof fn lemma_seq_le_total(a: Seq<char>, b: Seq<char>)
    ensures
        seq_le(a, b) || seq_le(b, a),
    decreases a.len(),
{
    if a.len() > 0 && b.len() > 0 && a[0] == b[0] {
        lemma_seq_le_total(a.skip(1), b.skip(1));
    }
}

proof fn lemma_seq_le_trans(a: Seq<char>, b: Seq<char>, c: Seq<char>)
    requires
        seq_le(a, b),
        seq_le(b, c),
    ensures
        seq_le(a, c),
    decreases a.len(),
{
    if a.len() > 0 && b.len() > 0 && c.len() > 0 && a[0] == b[0] && b[0] == c[0] {
        lemma_seq_le_trans(a.skip(1), b.skip(1), c.skip(1));
    }
}

/// Whether `a` comes no later than `b`.
fn chars_le(a: &Vec<char>, b: &Vec<char>) -> (r: bool)
    ensures
        r == seq_le(a@, b@),
{
    let mut i: usize = 0;
    proof {
        assert(a@.skip(0) =~= a@);
        assert(b@.skip(0) =~= b@);
    }
    while i < a.len() && i < b.len() && a[i] == b[i]
        invariant
            0 <= i <= a.len(),
            i <= b.len(),
            seq_le(a@, b@) == seq_le(a@.skip(i as int), b@.skip(i as int)),
        decreases a.len() - i,
    {
        proof {
            assert(a@.skip(i as int).skip(1) =~= a@.skip(i + 1));
            assert(b@.skip(i as int).skip(1) =~= b@.skip(i + 1));
        }
        i += 1;
    }
    if i == a.len() {
        return true;
    }
    if i == b.len() {
        return false;
    }
    proof {
        assert(a@.skip(i as int)[0] == a@[i as int]);
        assert(b@.skip(i as int)[0] == b@[i as int]);
    }
    a[i] < b[i]
}

/// The log files among the file names `names`: those with the extension `log`, in order.
pub open spec fn log_files(names: Seq<Seq<char>>) -> Seq<Seq<char>>
    decreases names.len(),
{
    if names.len() == 0 {
        Seq::empty()
    } else if extension_spec(names.last()) == Some("log"@) {
        log_files(names.drop_last()).push(names.last())
    } else {
        log_files(names.drop_last())
    }
}

/// The log files of a log directory listing, in file-name order: `out` is the list of
/// `.log` names of `names` (with repeats as often as they occur), sorted.
pub open spec fn sorted_logs_ok(names: Seq<Seq<char>>, out: Seq<Seq<char>>) -> bool {
    let logs = log_files(names);
    &&& out.len() == logs.len()
    &&& forall|i: int, j: int| 0 <= i < j < out.len() ==> seq_le(#[trigger] out[i], #[trigger] out[j])
    &&& exists|src: Seq<int>| {
        &&& src.len() == out.len()
        &&& forall|j: int| 0 <= j < src.len() ==> 0 <= #[trigger] src[j] < logs.len() && out[j] == logs[src[j]]
        &&& forall|j1: int, j2: int| 0 <= j1 < j2 < src.len() ==> #[trigger] src[j1] != #[trigger] src[j2]
    }
}

/// The log files to put in a diagnostics package, from the names in the log directory:
/// the `.log` files, sorted by name (see [`sorted_logs_ok`]).
pub fn diagnostic_logs(names: &Vec<String>) -> (out: Vec<String>)
    ensures
        sorted_logs_ok(str_views(names@), str_views(out@)),
{
    let ghost nv = str_views(names@);
    let mut logs: Vec<Vec<char>> = Vec::new();
    let mut i: usize = 0;
    while i < names.len()
        invariant
            0 <= i <= names.len(),
            nv == str_views(names@),
            logs@.len() == log_files(nv.take(i as int)).len(),
            forall|k: int| 0 <= k < logs@.len() ==> (#[trigger] logs@[k])@ == log_files(nv.take(i as int))[k],
        decreases names.len() - i,
    {
        let cs = chars_of(names[i].as_str());
        proof {
            assert(nv.take(i + 1).drop_last() =~= nv.take(i as int));
            assert(nv.take(i + 1).last() == cs@);
            reveal_strlit("log");
        }
        let ext = extension(&cs);
        let is_log = match &ext {
            Some(e) => e.len() == 3 && e[0] == 'l' && e[1] == 'o' && e[2] == 'g',
            None => false,
        };
        proof {
            match ext {
                Some(e) => {
                    if is_log {
                        assert(e@ =~= "log"@);
                    }
                    if e@ == "log"@ {
                        assert(e@.len() == 3 && e@[0] == 'l' && e@[1] == 'o' && e@[2] == 'g');
                    }
                },
                None => {},
            }
        }
        if is_log {
            logs.push(cs);
        }
        i += 1;
    }
    proof {
        assert(nv.take(nv.len() as int) =~= nv);
    }
    let ghost lv = log_files(nv);
    let mut out: Vec<Vec<char>> = Vec::new();
    let ghost mut src: Seq<int> = Seq::empty();
    let mut k: usize = 0;
    while k < logs.len()
        invariant
            0 <= k <= logs.len(),
            logs@.len() == lv.len(),
            forall|x: int| 0 <= x < logs@.len() ==> (#[trigger] logs@[x])@ == lv[x],
            out@.len() == k,
            src.len() == k,
            forall|j: int| 0 <= j < k ==> 0 <= #[trigger] src[j] < k && out@[j]@ == lv[src[j]],
            forall|j1: int, j2: int| 0 <= j1 < j2 < k ==> #[trigger] src[j1] != #[trigger] src[j2],
            forall|x: int, y: int| 0 <= x < y < out@.len() ==> seq_le((#[trigger] out@[x])@, (#[trigger] out@[y])@),
        decreases logs.len() - k,
    {
        let x = &logs[k];
        let mut p: usize = 0;
        while p < out.len() && chars_le(&out[p], x)
            invariant
                0 <= p <= out@.len(),
                forall|y: int| 0 <= y < p ==> seq_le((#[trigger] out@[y])@, x@),
            decreases out@.len() - p,
        {
            p += 1;
        }
        let ghost o0 = out@;
        let ghost s0 = src;
        let mut copy: Vec<char> = Vec::new();
        let mut z: usize = 0;
        while z < x.len()
            invariant
                0 <= z <= x.len(),
                copy@ == x@.take(z as int),
            decreases x.len() - z,
        {
            copy.push(x[z]);
            proof {
                assert(copy@ =~= x@.take(z + 1));
            }
            z += 1;
        }
        proof {
            assert(x@.take(x@.len() as int) =~= x@);
        }
        out.insert(p, copy);
        proof {
            src = s0.insert(p as int, k as int);
            assert forall|j: int| 0 <= j < k + 1 implies 0 <= #[trigger] src[j] < k + 1 && out@[j]@ == lv[src[j]] by {
                if j < p {
                    assert(out@[j] == o0[j] && src[j] == s0[j]);
                } else if j > p {
                    assert(out@[j] == o0[j - 1] && src[j] == s0[j - 1]);
                }
            }
            assert forall|j1: int, j2: int| 0 <= j1 < j2 < k + 1 implies #[trigger] src[j1] != #[trigger] src[j2] by {
                let a1 = if j1 < p { j1 } else { j1 - 1 };
                let a2 = if j2 < p { j2 } else { j2 - 1 };
                if j1 != p && j2 != p {
                    assert(src[j1] == s0[a1] && src[j2] == s0[a2]);
                    if a1 < a2 {
                        assert(s0[a1] != s0[a2]);
                    }
                } else if j1 == p {
                    assert(src[j2] == s0[a2] && s0[a2] < k);
                } else {
                    assert(src[j1] == s0[a1] && s0[a1] < k);
                }
            }
            assert forall|a: int, b: int| 0 <= a < b < out@.len() implies seq_le((#[trigger] out@[a])@, (#[trigger] out@[b])@) by {
                if b < p {
                    assert(out@[a] == o0[a] && out@[b] == o0[b]);
                } else if b == p {
                    assert(out@[a] == o0[a]);
                } else if a < p {
                    assert(out@[a] == o0[a] && out@[b] == o0[b - 1]);
                    assert(seq_le(o0[a]@, x@));
                    if p < o0.len() {
                        assert(!seq_le(o0[p as int]@, x@));
                        lemma_seq_le_total(o0[p as int]@, x@);
                        if b - 1 > p {
                            assert(seq_le(o0[p as int]@, o0[b - 1]@));
                            lemma_seq_le_trans(x@, o0[p as int]@, o0[b - 1]@);
                        }
                        lemma_seq_le_trans(o0[a]@, x@, o0[b - 1]@);
                    }
                } else if a == p {
                    assert(out@[b] == o0[b - 1]);
                    assert(!seq_le(o0[p as int]@, x@));
                    lemma_seq_le_total(o0[p as int]@, x@);
                    if b - 1 > p {
                        assert(seq_le(o0[p as int]@, o0[b - 1]@));
                        lemma_seq_le_trans(x@, o0[p as int]@, o0[b - 1]@);
                    }
                } else {
                    assert(out@[a] == o0[a - 1] && out@[b] == o0[b - 1]);
                }
            }
        }
        k += 1;
    }
    let mut r: Vec<String> = Vec::new();
    let mut j: usize = 0;
    while j < out.len()
        invariant
            0 <= j <= out.len(),
            r@.len() == j,
            forall|x: int| 0 <= x < j ==> (#[trigger] r@[x])@ == out@[x]@,
        decreases out.len() - j,
    {
        r.push(string_from_chars(&out[j]));
        j += 1;
    }
    proof {
        let rv = str_views(r@);
        assert forall|a: int, b: int| 0 <= a < b < rv.len() implies seq_le(#[trigger] rv[a], #[trigger] rv[b]) by {
            assert(rv[a] == out@[a]@ && rv[b] == out@[b]@);
        }
        assert forall|x: int| 0 <= x < src.len() implies 0 <= #[trigger] src[x] < lv.len() && rv[x] == lv[src[x]] by {
            assert(rv[x] == out@[x]@);
        }
        assert(sorted_logs_ok(nv, rv));
    }
    r
}

/// The name of a log file inside the diagnostics package.
pub fn diag_entry_name(name: &str) -> (r: String)
    ensures
        r@ == "logs/"@ + name@,
{
    let mut v: Vec<char> = Vec::new();
    push_str(&mut v, "logs/");
    push_str(&mut v, name);
    string_from_chars(&v)
}

/// The note shipped in every diagnostics package.
pub const PRIVACY_NOTE: &'static str = "This diagnostics package contains NO personal data.\nContains app version, OS, local counts and log files\n(command names, timings and error messages only - no question content,\nno user input; file paths are redacted to hide the OS account name).\n";

} // verus!
