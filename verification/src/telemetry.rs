//! Telemetry: the log entry of each command (level and message, never its
//! arguments), account-name redaction in paths, and the tail of a log file.
use vstd::prelude::*;
use crate::bank::str_views;
use crate::text::{chars_of, decimal, find_char, find_sub_from, lemma_find_char, lemma_find_sub_from, lemma_split_on_nonempty,
    push_str, split_char, split_on, string_from_chars, u128_to_string};

verus! {

broadcast use vstd::string::group_string_axioms;

/// The directory marker that precedes a Windows account name.
pub open spec fn users_marker() -> Seq<char> {
    "\\Users\\"@
}

/// Redaction of a path: the first `\Users\<account>` becomes `\Users\~`, keeping
/// whatever follows the account component; other paths are unchanged.
pub open spec fn redact_spec(s: Seq<char>) -> Seq<char> {
    let m = users_marker();
    match find_sub_from(s, m, 0) {
        None => s,
        Some(i) => {
            let rest = s.skip(i + m.len());
            match find_char(rest, '\\') {
                Some(j) => s.take(i) + m + seq!['~'] + rest.skip(j),
                None => s.take(i) + m + seq!['~'],
            }
        }
    }
}

/// Hides the Windows account name in a path (`C:\Users\<account>\…` becomes
/// `C:\Users\~\…`), since paths end up in logs that leave the machine.
pub fn redact_path(p: &str) -> (r: String)
    ensures
        r@ == redact_spec(p@),
{
    let s = chars_of(p);
    let m = chars_of("\\Users\\");
    let n = s.len();
    let ml = m.len();
    let ghost ms = users_marker();
    proof {
        reveal_strlit("\\Users\\");
        assert(ms.len() == 7);
        lemma_find_sub_from(s@, ms, 0);
    }
    let mut i: usize = 0;
    let mut found = false;
    while i < n && !found
        invariant
            0 <= i <= n,
            n == s.len(),
            ml == m.len(),
            m@ == ms,
            s@ == p@,
            forall|x: int| 0 <= x < i && x + ml <= n ==> #[trigger] s@.subrange(x, x + ml) != ms,
            found ==> i + ml <= n && s@.subrange(i as int, i + ml) == ms,
        decreases n - i + if found { 0int } else { 1int },
    {
        if ml <= n - i {
            let mut k: usize = 0;
            let mut eq = true;
            while k < ml
                invariant
                    0 <= k <= ml,
                    i + ml <= n,
                    n == s.len(),
                    ml == m.len(),
                    eq == forall|y: int| 0 <= y < k ==> s@[i + y] == m@[y],
                decreases ml - k,
            {
                if s[i + k] != m[k] {
                    eq = false;
                }
                k += 1;
            }
            if eq {
                proof {
                    assert(s@.subrange(i as int, i + ml) =~= ms);
                }
                found = true;
            } else {
                proof {
                    assert(s@.subrange(i as int, i + ml) != ms) by {
                        let y = choose|y: int| 0 <= y < ml && s@[i + y] != m@[y];
                        assert(s@.subrange(i as int, i + ml)[y] == s@[i + y]);
                    }
                }
                i += 1;
            }
        } else {
            i += 1;
        }
    }
    if !found {
        proof {
            assert(find_sub_from(s@, ms, 0) is None) by {
                if find_sub_from(s@, ms, 0) is Some {
                    let k = find_sub_from(s@, ms, 0)->0;
                    assert(s@.subrange(k, k + ml) == ms);
                }
            }
        }
        return string_from_chars(&s);
    }
    proof {
        assert(find_sub_from(s@, ms, 0) == Some(i as int)) by {
            let f = find_sub_from(s@, ms, 0);
            if f is Some {
                let k = f->0;
                if k < i {
                    assert(s@.subrange(k, k + ml) == ms);
                }
            }
        }
    }
    let start = i + ml;
    let ghost rest = s@.skip(start as int);
    proof {
        lemma_find_char(rest, '\\');
    }
    let mut out: Vec<char> = Vec::new();
    let mut x: usize = 0;
    while x < i
        invariant
            0 <= x <= i <= n,
            n == s.len(),
            out@ == s@.take(x as int),
        decreases i - x,
    {
        out.push(s[x]);
        proof {
            assert(out@ =~= s@.take(x + 1));
        }
        x += 1;
    }
    let mut y: usize = 0;
    while y < ml
        invariant
            0 <= y <= ml,
            ml == m.len(),
            out@ == s@.take(i as int) + m@.take(y as int),
        decreases ml - y,
    {
        out.push(m[y]);
        proof {
            assert(out@ =~= s@.take(i as int) + m@.take(y + 1));
        }
        y += 1;
    }
    proof {
        assert(m@.take(ml as int) == m@);
    }
    out.push('~');
    let mut j: usize = start;
    while j < n && s[j] != '\\'
        invariant
            start <= j <= n,
            n == s.len(),
            rest == s@.skip(start as int),
            forall|y: int| start <= y < j ==> s@[y] != '\\',
        decreases n - j,
    {
        j += 1;
    }
    proof {
        if j < n {
            assert(rest[j - start] == s@[j as int]);
            assert(find_char(rest, '\\') == Some(j - start)) by {
                let f = find_char(rest, '\\');
                if f is Some {
                    let fv = f->0;
                    if fv < j - start {
                        assert(rest[fv] == s@[start + fv]);
                    }
                } else {
                    assert(rest[j - start] == s@[j as int]);
                }
            }
        } else {
            assert(find_char(rest, '\\') is None) by {
                let f = find_char(rest, '\\');
                if f is Some {
                    let fv = f->0;
                    assert(rest[fv] == s@[start + fv]);
                }
            }
        }
    }
    let ghost mid = out@;
    let ghost j0 = j as int;
    while j < n
        invariant
            start <= j0 <= j <= n,
            n == s.len(),
            out@ == mid + s@.subrange(j0, j as int),
        decreases n - j,
    {
        out.push(s[j]);
        proof {
            assert(out@ =~= mid + s@.subrange(j0, j + 1));
        }
        j += 1;
    }
    proof {
        assert(rest.skip(j0 - start) =~= s@.subrange(j0, n as int));
        assert(mid == s@.take(i as int) + ms + seq!['~']);
    }
    string_from_chars(&out)
}

// ---------------------------------------------------------------- command log

/// The level a log entry is written at.
#[derive(PartialEq, Eq, Structural, Clone, Copy, Debug)]
pub enum LogLevel {
    Trace,
    Debug,
    Error,
}

/// The log entry of one command.
pub struct CmdLog {
    pub level: LogLevel,
    pub message: String,
}

/// The log entry of a command `cmd` that took `ms` milliseconds: a success at debug
/// level (trace for the quiet, frequent ones) as `{cmd} ok {ms}ms`, a failure at error
/// level as `{cmd} 失败({ms}ms): {error}`. Arguments are never logged.
pub open spec fn cmd_log_spec(cmd: Seq<char>, quiet: bool, ms: nat, err: Option<Seq<char>>) -> (LogLevel, Seq<char>) {
    match err {
        None => (if quiet { LogLevel::Trace } else { LogLevel::Debug }, cmd + " ok "@ + decimal(ms) + "ms"@),
        Some(e) => (LogLevel::Error, cmd + " 失败("@ + decimal(ms) + "ms): "@ + e),
    }
}

/// The error of a result, if any.
pub open spec fn err_of<T>(r: Result<T, String>) -> Option<Seq<char>> {
    match r {
        Ok(_) => None,
        Err(e) => Some(e@),
    }
}

/// The log entry of command `cmd` that took `ms` milliseconds and ended with `r`.
pub fn cmd_log<T>(cmd: &str, quiet: bool, ms: u128, r: &Result<T, String>) -> (l: CmdLog)
    ensures
        (l.level, l.message@) == cmd_log_spec(cmd@, quiet, ms as nat, err_of(*r)),
{
    let mut v: Vec<char> = Vec::new();
    push_str(&mut v, cmd);
    let d = u128_to_string(ms);
    match r {
        Ok(_) => {
            push_str(&mut v, " ok ");
            push_str(&mut v, d.as_str());
            push_str(&mut v, "ms");
            CmdLog { level: if quiet { LogLevel::Trace } else { LogLevel::Debug }, message: string_from_chars(&v) }
        },
        Err(e) => {
            push_str(&mut v, " 失败(");
            push_str(&mut v, d.as_str());
            push_str(&mut v, "ms): ");
            push_str(&mut v, e.as_str());
            CmdLog { level: LogLevel::Error, message: string_from_chars(&v) }
        },
    }
}

#[verifier::external_type_specification]
#[verifier::external_body]
pub struct ExInstant(std::time::Instant);

/// `std::time::Instant::now`: the current instant (nothing is claimed of it).
#[verifier::external_body]
fn instant_now() -> std::time::Instant {
    std::time::Instant::now()
}

/// `std::time::Instant::elapsed`: the time since `t` (nothing is claimed of it).
#[verifier::external_body]
fn instant_elapsed(t: &std::time::Instant) -> core::time::Duration {
    t.elapsed()
}

/// `core::time::Duration::as_millis`: whole milliseconds (nothing is claimed of them).
#[verifier::external_body]
fn duration_millis(d: &core::time::Duration) -> u128 {
    d.as_millis()
}

/// Runs command `cmd` and returns its result together with its log entry (see
/// [`cmd_log_spec`]), for the caller to write; the duration is measured around the call.
pub fn timed<T, F: FnOnce() -> Result<T, String>>(cmd: &str, quiet: bool, f: F) -> (out: (Result<T, String>, CmdLog))
    requires
        f.requires(()),
    ensures
        f.ensures((), out.0),
        exists|ms: nat| (out.1.level, out.1.message@) == cmd_log_spec(cmd@, quiet, ms, err_of(out.0)),
{
    let t0 = instant_now();
    let r = f();
    let d = instant_elapsed(&t0);
    let ms = duration_millis(&d);
    let l = cmd_log(cmd, quiet, ms, &r);
    (r, l)
}

// ---------------------------------------------------------------- log viewing

/// The latest log file's path and its last lines.
pub struct LogView {
    pub path: Option<String>,
    pub lines: Vec<String>,
}

/// One line without the `\r` of a `\r\n` ending.
pub open spec fn strip_cr(l: Seq<char>) -> Seq<char> {
    if l.len() > 0 && l.last() == '\r' { l.drop_last() } else { l }
}

/// The lines of `s` (`str::lines`): split at `\n`, a `\r` before the `\n` removed, and
/// no empty last line after a final line break.
pub open spec fn lines_spec(s: Seq<char>) -> Seq<Seq<char>> {
    let ps = split_on(s, '\n');
    let n = ps.len() - 1;
    let kept = if ps[n].len() == 0 { ps.take(n) } else { ps };
    Seq::new(kept.len(), |k: int| if k < n { strip_cr(kept[k]) } else { kept[k] })
}

/// The last `tail` lines of `content` (all of them when there are fewer), in order.
pub fn tail_lines(content: &str, tail: usize) -> (r: Vec<String>)
    ensures
        str_views(r@) == lines_spec(content@).skip(
            if lines_spec(content@).len() > tail { lines_spec(content@).len() - tail } else { 0 }),
{
    let ps = split_char(content, '\n');
    proof {
        lemma_split_on_nonempty(content@, '\n');
    }
    let ghost ls = lines_spec(content@);
    let n = ps.len() - 1;
    let count: usize = if ps[n].len() == 0 { n } else { n + 1 };
    let skip: usize = if count > tail { count - tail } else { 0 };
    let mut r: Vec<String> = Vec::new();
    let mut k: usize = skip;
    while k < count
        invariant
            skip <= k <= count,
            count == ls.len(),
            count <= ps@.len(),
            n == ps@.len() - 1,
            ls == lines_spec(content@),
            ps@.len() == split_on(content@, '\n').len(),
            forall|x: int| 0 <= x < ps@.len() ==> (#[trigger] ps@[x])@ == split_on(content@, '\n')[x],
            str_views(r@) == ls.subrange(skip as int, k as int),
        decreases count - k,
    {
        let mut line: Vec<char> = Vec::new();
        let piece = &ps[k];
        let mut j: usize = 0;
        while j < piece.len()
            invariant
                0 <= j <= piece.len(),
                line@ == piece@.take(j as int),
            decreases piece.len() - j,
        {
            line.push(piece[j]);
            proof {
                assert(line@ =~= piece@.take(j + 1));
            }
            j += 1;
        }
        proof {
            assert(piece@.take(piece@.len() as int) =~= piece@);
        }
        if k < n && line.len() > 0 && line[line.len() - 1] == '\r' {
            line.pop();
        }
        let ghost r0 = str_views(r@);
        r.push(string_from_chars(&line));
        proof {
            assert(line@ == ls[k as int]);
            assert(str_views(r@) =~= r0.push(line@));
            assert(str_views(r@) =~= ls.subrange(skip as int, k + 1));
        }
        k += 1;
    }
    proof {
        assert(ls.subrange(skip as int, count as int) =~= ls.skip(skip as int));
    }
    r
}

// ---------------------------------------------------------------- laws

/// Redacting a path that was already redacted changes nothing.
pub proof fn law_redact_idempotent(s: Seq<char>)
    ensures
        redact_spec(redact_spec(s)) == redact_spec(s),
{
    let m = users_marker();
    reveal_strlit("\\Users\\");
    assert(m.len() == 7);
    lemma_find_sub_from(s, m, 0);
    match find_sub_from(s, m, 0) {
        None => {},
        Some(i) => {
            let rest = s.skip(i + 7);
            lemma_find_char(rest, '\\');
            let tail = match find_char(rest, '\\') {
                Some(j) => rest.skip(j),
                None => Seq::empty(),
            };
            let r = s.take(i) + m + seq!['~'] + tail;
            assert(redact_spec(s) == r);
            assert(r.subrange(i, i + 7) =~= m);
            assert forall|x: int| 0 <= x < i implies #[trigger] r.subrange(x, x + m.len()) != m by {
                assert(r.subrange(x, x + 7) =~= s.subrange(x, x + 7));
            }
            lemma_find_sub_from(r, m, 0);
            assert(find_sub_from(r, m, 0) == Some(i)) by {
                match find_sub_from(r, m, 0) {
                    Some(k) => {
                        if k < i {
                            assert(r.subrange(k, k + m.len()) != m);
                        }
                        if k > i {
                            assert(r.subrange(i, i + m.len()) != m);
                        }
                    },
                    None => {
                        assert(r.subrange(i, i + m.len()) != m);
                    },
                }
            }
            let rest2 = r.skip(i + 7);
            assert(rest2 =~= seq!['~'] + tail);
            lemma_find_char(rest2, '\\');
            match find_char(rest, '\\') {
                Some(j) => {
                    assert(tail.len() > 0 && tail[0] == '\\');
                    assert(rest2[1] == '\\');
                    assert(find_char(rest2, '\\') == Some(1int)) by {
                        match find_char(rest2, '\\') {
                            Some(k) => {
                                if k > 1 {
                                    assert(rest2[1] != '\\');
                                }
                                assert(rest2[0] == '~');
                            },
                            None => {
                                assert(rest2[1] != '\\');
                            },
                        }
                    }
                    assert(rest2.skip(1) =~= tail);
                    assert(redact_spec(r) =~= r.take(i) + m + seq!['~'] + rest2.skip(1));
                    assert(r.take(i) =~= s.take(i));
                },
                None => {
                    assert(rest2 =~= seq!['~']);
                    assert(find_char(rest2, '\\') is None) by {
                        if find_char(rest2, '\\') is Some {
                            let k = find_char(rest2, '\\')->0;
                            assert(rest2[k] == '\\');
                        }
                    }
                    assert(r.take(i) =~= s.take(i));
                    assert(redact_spec(r) =~= r.take(i) + m + seq!['~']);
                },
            }
        },
    }
}

} // verus!
