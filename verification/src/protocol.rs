//! Request-path handling for the bank asset scheme `bankasset://<bank_id>/<path>`:
//! percent-decoding, the legacy `assets/` prefix, path-traversal refusal and the
//! content type by file extension.
use vstd::prelude::*;
use crate::text::{chars_of, find_char, lemma_find_char, from_utf8_lossy, str_eq, string_from_chars, strip_prefix};
use vstd::string::StringSliceAdditionalSpecFns;

verus! {

broadcast use vstd::string::group_string_axioms;

/// `rel` without one leading `"assets/"`, if it has one.
pub open spec fn strip_assets_prefix_spec(rel: Seq<char>) -> Seq<char> {
    if "assets/"@.is_prefix_of(rel) { rel.skip("assets/"@.len() as int) } else { rel }
}

/// Image paths were once stored with an `assets/` prefix while the scheme already
/// resolves below the bank's `assets` directory: drop that redundant prefix.
pub fn strip_assets_prefix(rel: &str) -> (r: &str)
    ensures
        r@ == strip_assets_prefix_spec(rel@),
{
    match strip_prefix(rel, "assets/") {
        Some(t) => t,
        None => rel,
    }
}

/// The value of an ASCII hexadecimal digit.
pub open spec fn hex_val(c: u8) -> Option<u8> {
    if 48 <= c <= 57 {
        Some((c - 48) as u8)
    } else if 97 <= c <= 102 {
        Some((c - 97 + 10) as u8)
    } else if 65 <= c <= 70 {
        Some((c - 65 + 10) as u8)
    } else {
        None
    }
}

/// Percent-decoding of a byte string: `%` followed by two hex digits becomes that
/// byte; every other byte, including a `%` not followed by two hex digits, is kept.
pub open spec fn pct_decode_bytes(b: Seq<u8>) -> Seq<u8>
    decreases b.len(),
{
    if b.len() == 0 {
        Seq::empty()
    } else if b[0] == 37u8 && 2 < b.len() && hex_val(b[1]) is Some && hex_val(b[2]) is Some {
        seq![(hex_val(b[1])->0 * 16 + hex_val(b[2])->0) as u8] + pct_decode_bytes(b.skip(3))
    } else {
        seq![b[0]] + pct_decode_bytes(b.skip(1))
    }
}

fn hex(c: u8) -> (r: Option<u8>)
    ensures
        r == hex_val(c),
{
    if 48u8 <= c && c <= 57u8 {
        Some(c - 48u8)
    } else if 97u8 <= c && c <= 102u8 {
        Some(c - 97u8 + 10)
    } else if 65u8 <= c && c <= 70u8 {
        Some(c - 65u8 + 10)
    } else {
        None
    }
}

/// Decodes `%XX` sequences of a URI path into bytes and reads the result as UTF-8
/// (invalid sequences replaced); malformed `%` sequences are kept as they are.
pub fn percent_decode(s: &str) -> (r: String)
    ensures
        r@ == crate::text::utf8_lossy(pct_decode_bytes(s.spec_bytes())),
        vstd::utf8::valid_utf8(pct_decode_bytes(s.spec_bytes())) ==> r@ == vstd::utf8::decode_utf8(
            pct_decode_bytes(s.spec_bytes()),
        ),
{
    let b = s.as_bytes();
    let mut out: Vec<u8> = Vec::new();
    let mut i: usize = 0;
    proof {
        assert(b@.skip(0) == b@);
        assert(out@ + pct_decode_bytes(b@) == pct_decode_bytes(b@));
    }
    while i < b.len()
        invariant
            0 <= i <= b.len(),
            b@ == s.spec_bytes(),
            out@ + pct_decode_bytes(b@.skip(i as int)) == pct_decode_bytes(b@),
        decreases b.len() - i,
    {
        let ghost rest = b@.skip(i as int);
        if b[i] == 37u8 && b.len() > 2 && i < b.len() - 2 {
            let h = hex(b[i + 1]);
            let l = hex(b[i + 2]);
            if h.is_some() && l.is_some() {
                let hv = h.unwrap();
                let lv = l.unwrap();
                proof {
                    assert(rest[0] == b@[i as int] && rest[1] == b@[i + 1] && rest[2] == b@[i + 2]);
                    assert(rest.skip(3) == b@.skip(i + 3));
                    assert(out@.push((hv * 16 + lv) as u8) + pct_decode_bytes(b@.skip(i + 3))
                        == out@ + pct_decode_bytes(rest));
                }
                out.push(hv * 16 + lv);
                i += 3;
                continue;
            }
        }
        proof {
            assert(rest[0] == b@[i as int]);
            assert(rest.skip(1) == b@.skip(i + 1));
            assert(out@.push(b@[i as int]) + pct_decode_bytes(b@.skip(i + 1)) == out@ + pct_decode_bytes(rest));
        }
        out.push(b[i]);
        i += 1;
    }
    proof {
        assert(out@ == pct_decode_bytes(b@)) by {
            assert(b@.skip(b@.len() as int) == Seq::<u8>::empty());
            assert(out@ + Seq::<u8>::empty() == out@);
        }
    }
    from_utf8_lossy(&out)
}

/// Why an asset request is refused.
#[derive(PartialEq, Eq, Structural, Clone, Copy, Debug)]
pub enum AssetError {
    /// The path does not have the form `/<bank_id>/<relative path>`.
    BadRequest,
    /// The path tries to leave the bank's asset directory (`..`).
    Forbidden,
}

/// `s` without its leading `/` characters.
pub open spec fn trim_leading_slashes(s: Seq<char>) -> Seq<char>
    decreases s.len(),
{
    if s.len() > 0 && s[0] == '/' { trim_leading_slashes(s.skip(1)) } else { s }
}

/// A path separator for traversal checks (`/` or `\`).
pub open spec fn is_sep(c: char) -> bool {
    c == '/' || c == '\\'
}

/// An ASCII letter.
pub open spec fn ascii_letter(c: char) -> bool {
    ('A' <= c && c <= 'Z') || ('a' <= c && c <= 'z')
}

/// A path that joining under a directory would not keep under it: it starts with a
/// separator (a root or network path) or with a drive prefix `X:`.
pub open spec fn absolute_like(s: Seq<char>) -> bool {
    (s.len() > 0 && is_sep(s[0])) || (s.len() >= 2 && ascii_letter(s[0]) && s[1] == ':')
}

/// Whether `s` starts with a separator or a drive prefix.
pub fn is_absolute_like(s: &Vec<char>) -> (r: bool)
    ensures
        r == absolute_like(s@),
{
    if s.len() > 0 && (s[0] == '/' || s[0] == '\\') {
        return true;
    }
    s.len() >= 2 && (('A' <= s[0] && s[0] <= 'Z') || ('a' <= s[0] && s[0] <= 'z')) && s[1] == ':'
}

/// Resolving the segments `segs` one by one from depth `d` below a directory (`..`
/// goes up, an empty segment or `.` stays, any other name goes down) never climbs
/// above that directory.
pub open spec fn never_above(segs: Seq<Seq<char>>, d: int) -> bool
    decreases segs.len(),
{
    if segs.len() == 0 {
        true
    } else {
        let s = segs[0];
        let d2 = if s == ".."@ { d - 1 } else if s.len() == 0 || s == "."@ { d } else { d + 1 };
        d2 >= 0 && never_above(segs.skip(1), d2)
    }
}

/// `rel`, joined under a directory, names something inside it: the join appends it
/// (it is neither rooted nor drive-prefixed) and resolving its segments never climbs
/// above the directory.
pub open spec fn stays_inside(rel: Seq<char>) -> bool {
    !absolute_like(rel) && never_above(segments(rel), 0)
}

/// Segments other than `..` never climb.
pub proof fn lemma_no_dotdot_never_above(segs: Seq<Seq<char>>, d: int)
    requires
        d >= 0,
        !segs.contains(".."@),
    ensures
        never_above(segs, d),
    decreases segs.len(),
{
    if segs.len() > 0 {
        assert(segs[0] != ".."@);
        assert(!segs.skip(1).contains(".."@)) by {
            if segs.skip(1).contains(".."@) {
                let k = choose|k: int| 0 <= k < segs.skip(1).len() && segs.skip(1)[k] == ".."@;
                assert(segs[k + 1] == ".."@);
            }
        }
        let s = segs[0];
        let d2 = if s.len() == 0 || s == "."@ { d } else { d + 1 };
        lemma_no_dotdot_never_above(segs.skip(1), d2);
    }
}

/// The last segment of `s` is the end of `s`.
proof fn lemma_last_segment_suffix(s: Seq<char>)
    ensures
        segments(s).len() >= 1,
        segments(s).last().len() <= s.len(),
        segments(s).last() == s.skip(s.len() - segments(s).last().len()),
    decreases s.len(),
{
    lemma_segments_nonempty(s);
    if s.len() == 0 {
        assert(s.skip(0) =~= s);
    } else {
        let d = s.drop_last();
        lemma_last_segment_suffix(d);
        let p = segments(d);
        if is_sep(s.last()) {
            assert(segments(s).last() =~= Seq::<char>::empty());
            assert(s.skip(s.len() as int) =~= Seq::<char>::empty());
        } else {
            let l = p.last();
            assert(segments(s).last() == l.push(s.last()));
            assert(l.push(s.last()) =~= s.skip(s.len() - (l.len() + 1)));
        }
    }
}

/// A `..` segment is a `..` somewhere in the text.
pub proof fn lemma_dotdot_segment_contains(s: Seq<char>)
    ensures
        segments(s).contains(".."@) ==> contains_dotdot(s),
    decreases s.len(),
{
    reveal_strlit("..");
    let dd = ".."@;
    assert(dd.len() == 2 && dd[0] == '.' && dd[1] == '.');
    if s.len() > 0 && segments(s).contains(".."@) {
        let d = s.drop_last();
        let p = segments(d);
        lemma_segments_nonempty(d);
        lemma_dotdot_segment_contains(d);
        let segs = segments(s);
        let k = choose|k: int| 0 <= k < segs.len() && segs[k] == ".."@;
        if is_sep(s.last()) {
            assert(segs == p.push(Seq::<char>::empty()));
            if k == p.len() {
                assert(segs[k].len() == 0);
            }
            assert(k < p.len());
            assert(p[k] == ".."@);
            assert(p.contains(".."@));
            let x = choose|x: int| 0 <= x && x + 1 < d.len() && #[trigger] d[x] == '.' && d[x + 1] == '.';
            assert(s[x] == '.' && s[x + 1] == '.');
        } else {
            assert(segs == p.update(p.len() - 1, p.last().push(s.last())));
            if k < p.len() - 1 {
                assert(p[k] == ".."@);
                assert(p.contains(".."@));
                let x = choose|x: int| 0 <= x && x + 1 < d.len() && #[trigger] d[x] == '.' && d[x + 1] == '.';
                assert(s[x] == '.' && s[x + 1] == '.');
            } else {
                let l = p.last();
                assert(segs[k] == l.push(s.last()));
                assert(l.push(s.last()) == dd);
                assert(l.len() == 1);
                assert(l.push(s.last())[0] == l[0]);
                assert(l.push(s.last())[1] == s.last());
                assert(l[0] == '.' && s.last() == '.');
                lemma_last_segment_suffix(d);
                assert(d[d.len() - 1] == l[0]);
                assert(s[s.len() - 2] == '.' && s[s.len() - 1] == '.');
            }
        }
    }
}

/// The path segments of `s`, split at `/` and `\`.
pub open spec fn segments(s: Seq<char>) -> Seq<Seq<char>>
    decreases s.len(),
{
    if s.len() == 0 {
        seq![Seq::empty()]
    } else {
        let p = segments(s.drop_last());
        let c = s.last();
        if c == '/' || c == '\\' {
            p.push(Seq::empty())
        } else {
            p.update(p.len() - 1, p.last().push(c))
        }
    }
}

/// There is always at least one segment.
pub proof fn lemma_segments_nonempty(s: Seq<char>)
    ensures
        segments(s).len() >= 1,
    decreases s.len(),
{
    if s.len() > 0 {
        lemma_segments_nonempty(s.drop_last());
    }
}

/// Whether a segment of `s` is `..`, scanning segment by segment.
pub fn has_dotdot(s: &Vec<char>) -> (r: bool)
    ensures
        r == segments(s@).contains(".."@),
{
    let ghost dd = ".."@;
    proof {
        reveal_strlit("..");
        assert(dd.len() == 2 && dd[0] == '.' && dd[1] == '.');
    }
    let mut found = false;
    let mut cur: Vec<char> = Vec::new();
    let mut i: usize = 0;
    while i < s.len()
        invariant
            0 <= i <= s.len(),
            dd == ".."@,
            dd.len() == 2 && dd[0] == '.' && dd[1] == '.',
            segments(s@.take(i as int)).len() >= 1,
            cur@ == segments(s@.take(i as int)).last(),
            found == segments(s@.take(i as int)).drop_last().contains(dd),
        decreases s.len() - i,
    {
        let c = s[i];
        let ghost pre = s@.take(i as int);
        let ghost segs = segments(pre);
        proof {
            assert(s@.take(i + 1).drop_last() =~= pre);
            assert(s@.take(i + 1).last() == c);
            lemma_segments_nonempty(pre);
        }
        if c == '/' || c == '\\' {
            let is_dd = cur.len() == 2 && cur[0] == '.' && cur[1] == '.';
            proof {
                assert(is_dd == (cur@ == dd)) by {
                    if cur@ == dd {
                        assert(cur@[0] == dd[0] && cur@[1] == dd[1]);
                    }
                    if is_dd {
                        assert(cur@ =~= dd);
                    }
                }
                let nsegs = segments(s@.take(i + 1));
                assert(nsegs == segs.push(Seq::empty()));
                assert(nsegs.drop_last() == segs);
                assert(segs == segs.drop_last().push(cur@));
                assert(segs.contains(dd) == (segs.drop_last().contains(dd) || cur@ == dd)) by {
                    if segs.contains(dd) {
                        let k = choose|k: int| 0 <= k < segs.len() && segs[k] == dd;
                        if k < segs.len() - 1 {
                            assert(segs.drop_last()[k] == dd);
                        }
                    }
                    if segs.drop_last().contains(dd) {
                        let k = choose|k: int| 0 <= k < segs.drop_last().len() && segs.drop_last()[k] == dd;
                        assert(segs[k] == dd);
                    }
                    if cur@ == dd {
                        assert(segs[segs.len() - 1] == dd);
                    }
                }
            }
            found = found || is_dd;
            cur = Vec::new();
        } else {
            proof {
                let nsegs = segments(s@.take(i + 1));
                assert(nsegs == segs.update(segs.len() - 1, segs.last().push(c)));
                assert(nsegs.drop_last() =~= segs.drop_last());
            }
            cur.push(c);
        }
        i += 1;
    }
    let last_dd = cur.len() == 2 && cur[0] == '.' && cur[1] == '.';
    proof {
        assert(s@.take(s@.len() as int) =~= s@);
        let segs = segments(s@);
        assert(last_dd == (cur@ == dd)) by {
            if cur@ == dd {
                assert(cur@[0] == dd[0] && cur@[1] == dd[1]);
            }
            if last_dd {
                assert(cur@ =~= dd);
            }
        }
        assert(segs == segs.drop_last().push(cur@));
        assert(segs.contains(dd) == (segs.drop_last().contains(dd) || cur@ == dd)) by {
            if segs.contains(dd) {
                let k = choose|k: int| 0 <= k < segs.len() && segs[k] == dd;
                if k < segs.len() - 1 {
                    assert(segs.drop_last()[k] == dd);
                }
            }
            if segs.drop_last().contains(dd) {
                let k = choose|k: int| 0 <= k < segs.drop_last().len() && segs.drop_last()[k] == dd;
                assert(segs[k] == dd);
            }
            if cur@ == dd {
                assert(segs[segs.len() - 1] == dd);
            }
        }
    }
    found || last_dd
}

/// `s` contains `..` anywhere.
pub open spec fn contains_dotdot(s: Seq<char>) -> bool {
    exists|k: int| 0 <= k && k + 1 < s.len() && #[trigger] s[k] == '.' && s[k + 1] == '.'
}

/// Routing of a decoded request path `/<bank_id>/<rel>`: both parts must be non-empty,
/// `rel` loses a redundant `assets/` prefix, and neither part may escape its directory
/// (no `..` segment in `rel`, no `..` in the bank, neither rooted nor drive-prefixed).
pub open spec fn asset_route_spec(path: Seq<char>) -> Result<(Seq<char>, Seq<char>), AssetError> {
    let t = trim_leading_slashes(path);
    match find_char(t, '/') {
        None => Err(AssetError::BadRequest),
        Some(k) => {
            let bank = t.take(k);
            let rel0 = t.skip(k + 1);
            if bank.len() == 0 || rel0.len() == 0 {
                Err(AssetError::BadRequest)
            } else {
                let rel = strip_assets_prefix_spec(rel0);
                if segments(rel).contains(".."@) || contains_dotdot(bank) || absolute_like(rel) || absolute_like(bank) {
                    Err(AssetError::Forbidden)
                } else {
                    Ok((bank, rel))
                }
            }
        }
    }
}

/// Splits a decoded request path `/<bank_id>/<rel>` into the bank and the path inside
/// the bank's asset directory, or says why the request is refused.
pub fn asset_route(path: &str) -> (r: Result<(String, String), AssetError>)
    ensures
        match (r, asset_route_spec(path@)) {
            (Ok((b, p)), Ok((sb, sp))) => b@ == sb && p@ == sp,
            (Err(e), Err(se)) => e == se,
            _ => false,
        },
{
    let cs = chars_of(path);
    let mut s: usize = 0;
    proof {
        assert(cs@.skip(0) == cs@);
    }
    while s < cs.len() && cs[s] == '/'
        invariant
            0 <= s <= cs.len(),
            trim_leading_slashes(cs@.skip(s as int)) == trim_leading_slashes(cs@),
        decreases cs.len() - s,
    {
        proof {
            assert(cs@.skip(s as int).skip(1) == cs@.skip(s + 1));
        }
        s += 1;
    }
    let ghost t = cs@.skip(s as int);
    proof {
        assert(trim_leading_slashes(t) == t);
        assert(cs@ == path@);
        lemma_find_char(t, '/');
    }
    let mut k: usize = s;
    while k < cs.len() && cs[k] != '/'
        invariant
            s <= k <= cs.len(),
            t == cs@.skip(s as int),
            forall|j: int| s <= j < k ==> cs@[j] != '/',
        decreases cs.len() - k,
    {
        k += 1;
    }
    if k == cs.len() {
        proof {
            if find_char(t, '/') is Some {
                let x = find_char(t, '/')->0;
                assert(t[x] == cs@[s + x]);
            }
        }
        return Err(AssetError::BadRequest);
    }
    proof {
        assert(t[k - s] == '/');
        assert(find_char(t, '/') == Some(k - s)) by {
            let x = find_char(t, '/');
            if x is Some {
                let xv = x->0;
                if xv < k - s {
                    assert(t[xv] == cs@[s + xv]);
                }
            }
        }
    }
    let mut bank: Vec<char> = Vec::new();
    let mut j: usize = s;
    while j < k
        invariant
            s <= j <= k < cs.len(),
            bank@ == cs@.subrange(s as int, j as int),
        decreases k - j,
    {
        bank.push(cs[j]);
        j += 1;
    }
    let mut rel0: Vec<char> = Vec::new();
    let mut j: usize = k + 1;
    while j < cs.len()
        invariant
            k + 1 <= j <= cs.len(),
            rel0@ == cs@.subrange(k + 1, j as int),
        decreases cs.len() - j,
    {
        rel0.push(cs[j]);
        j += 1;
    }
    proof {
        assert(bank@ == t.take(k - s));
        assert(rel0@ == t.skip(k - s + 1));
    }
    if bank.len() == 0 || rel0.len() == 0 {
        return Err(AssetError::BadRequest);
    }
    let rel0s = string_from_chars(&rel0);
    let rel_str = strip_assets_prefix(rel0s.as_str());
    let rel = chars_of(rel_str);
    let mut bad = has_dotdot(&rel) || is_absolute_like(&rel) || is_absolute_like(&bank);
    let mut q: usize = 0;
    while q < bank.len()
        invariant
            0 <= q <= bank.len(),
            bad == (segments(rel@).contains(".."@) || absolute_like(rel@) || absolute_like(bank@)
                || exists|x: int| 0 <= x < q && x + 1 < bank@.len() && #[trigger] bank@[x] == '.' && bank@[x + 1] == '.'),
        decreases bank.len() - q,
    {
        if q + 1 < bank.len() && bank[q] == '.' && bank[q + 1] == '.' {
            bad = true;
        }
        q += 1;
    }
    if bad {
        return Err(AssetError::Forbidden);
    }
    Ok((string_from_chars(&bank), string_from_chars(&rel)))
}

/// `s` with ASCII uppercase letters mapped to lowercase.
pub open spec fn ascii_lower(s: Seq<char>) -> Seq<char> {
    Seq::new(s.len(), |i: int| if 'A' <= s[i] <= 'Z' { (((s[i] as u8) + 32) as u8) as char } else { s[i] })
}

/// Content type served for a file extension (compared case-insensitively).
pub open spec fn content_type_spec(ext: Seq<char>) -> Seq<char> {
    let e = ascii_lower(ext);
    if e == "png"@ {
        "image/png"@
    } else if e == "jpg"@ || e == "jpeg"@ {
        "image/jpeg"@
    } else if e == "gif"@ {
        "image/gif"@
    } else if e == "webp"@ {
        "image/webp"@
    } else if e == "bmp"@ {
        "image/bmp"@
    } else if e == "svg"@ {
        "image/svg+xml"@
    } else {
        "application/octet-stream"@
    }
}

/// The content type for an asset with extension `ext` (without the dot).
pub fn content_type(ext: &str) -> (r: &'static str)
    ensures
        r@ == content_type_spec(ext@),
{
    let cs = chars_of(ext);
    let mut low: Vec<char> = Vec::new();
    let mut i: usize = 0;
    while i < cs.len()
        invariant
            0 <= i <= cs.len(),
            low@ == ascii_lower(cs@).take(i as int),
        decreases cs.len() - i,
    {
        let c = cs[i];
        if 'A' <= c && c <= 'Z' {
            low.push(((c as u8) + 32) as char);
        } else {
            low.push(c);
        }
        proof {
            assert(low@ =~= ascii_lower(cs@).take(i + 1));
        }
        i += 1;
    }
    proof {
        assert(ascii_lower(cs@).take(cs@.len() as int) == ascii_lower(cs@));
    }
    let e = string_from_chars(&low);
    let e = e.as_str();
    if str_eq(e, "png") {
        "image/png"
    } else if str_eq(e, "jpg") || str_eq(e, "jpeg") {
        "image/jpeg"
    } else if str_eq(e, "gif") {
        "image/gif"
    } else if str_eq(e, "webp") {
        "image/webp"
    } else if str_eq(e, "bmp") {
        "image/bmp"
    } else if str_eq(e, "svg") {
        "image/svg+xml"
    } else {
        "application/octet-stream"
    }
}

/// A routed request reads only inside the bank's asset directory: the bank and the
/// path each stay inside the directory they are joined under.
pub proof fn law_routed_paths_stay_inside(path: Seq<char>)
    ensures
        match asset_route_spec(path) {
            Ok((bank, rel)) => stays_inside(bank) && stays_inside(rel),
            Err(_) => true,
        },
{
    match asset_route_spec(path) {
        Ok((bank, rel)) => {
            lemma_dotdot_segment_contains(bank);
            lemma_no_dotdot_never_above(segments(bank), 0);
            lemma_no_dotdot_never_above(segments(rel), 0);
        },
        Err(_) => {},
    }
}

// ---------------------------------------------------------------- laws

proof fn lemma_pct_plain(b: Seq<u8>)
    requires
        !b.contains(37u8),
    ensures
        pct_decode_bytes(b) == b,
    decreases b.len(),
{
    if b.len() > 0 {
        assert(b[0] != 37u8);
        assert(!b.skip(1).contains(37u8)) by {
            if b.skip(1).contains(37u8) {
                let k = choose|k: int| 0 <= k < b.skip(1).len() && b.skip(1)[k] == 37u8;
                assert(b[k + 1] == 37u8);
            }
        }
        lemma_pct_plain(b.skip(1));
        assert(seq![b[0]] + b.skip(1) =~= b);
    }
}

/// A path with no `%` decodes to itself.
pub proof fn law_percent_decode_plain(s: &str)
    requires
        !s.spec_bytes().contains(37u8),
    ensures
        pct_decode_bytes(s.spec_bytes()) == s.spec_bytes(),
        vstd::utf8::valid_utf8(pct_decode_bytes(s.spec_bytes())),
        vstd::utf8::decode_utf8(pct_decode_bytes(s.spec_bytes())) == s@,
{
    lemma_pct_plain(s.spec_bytes());
    vstd::utf8::encode_utf8_valid_utf8(s@);
    vstd::utf8::encode_utf8_decode_utf8(s@);
}

/// The hexadecimal digit for `v` in `0..16`, upper- or lowercase.
pub open spec fn hex_digit(v: int, lower: bool) -> u8 {
    if v < 10 { (48 + v) as u8 } else if lower { (87 + v) as u8 } else { (55 + v) as u8 }
}

/// Percent-encoding of every byte: `%` and its two hex digits.
pub open spec fn pct_encode(b: Seq<u8>, lower: bool) -> Seq<u8>
    decreases b.len(),
{
    if b.len() == 0 {
        Seq::empty()
    } else {
        seq![37u8, hex_digit(b[0] as int / 16, lower), hex_digit(b[0] as int % 16, lower)] + pct_encode(b.skip(1), lower)
    }
}

proof fn lemma_pct_round_trip(b: Seq<u8>, lower: bool)
    ensures
        pct_decode_bytes(pct_encode(b, lower)) == b,
    decreases b.len(),
{
    if b.len() > 0 {
        let e = pct_encode(b, lower);
        let hi = b[0] as int / 16;
        let lo = b[0] as int % 16;
        assert(hex_val(hex_digit(hi, lower)) == Some(hi as u8));
        assert(hex_val(hex_digit(lo, lower)) == Some(lo as u8));
        assert(e[0] == 37u8 && e[1] == hex_digit(hi, lower) && e[2] == hex_digit(lo, lower));
        assert(e.skip(3) =~= pct_encode(b.skip(1), lower));
        lemma_pct_round_trip(b.skip(1), lower);
        assert(((hi * 16 + lo) as u8) == b[0]);
        assert(seq![b[0]] + b.skip(1) =~= b);
    }
}

/// Decoding a fully percent-encoded string (hex digits in either case) gives the string
/// back.
pub proof fn law_percent_decode_round_trip(s: &str, lower: bool)
    ensures
        pct_decode_bytes(pct_encode(s.spec_bytes(), lower)) == s.spec_bytes(),
        vstd::utf8::valid_utf8(pct_decode_bytes(pct_encode(s.spec_bytes(), lower))),
        vstd::utf8::decode_utf8(pct_decode_bytes(pct_encode(s.spec_bytes(), lower))) == s@,
{
    lemma_pct_round_trip(s.spec_bytes(), lower);
    vstd::utf8::encode_utf8_valid_utf8(s@);
    vstd::utf8::encode_utf8_decode_utf8(s@);
}

} // verus!
