//! Duplicate detection in a question bank: exact duplicates after normalisation,
//! and near duplicates by 64-bit SimHash over character bigrams.
use vstd::prelude::*;
use crate::text::{chars_of, string_from_chars, is_alphanumeric, to_lowercase, unicode_alphanumeric,
    unicode_lowercase};

verus! {

// ---------------------------------------------------------------- normalisation

/// The characters of `s` that are Unicode alphanumeric, in order.
pub open spec fn alnum_filter(s: Seq<char>) -> Seq<char>
    decreases s.len(),
{
    if s.len() == 0 {
        Seq::empty()
    } else {
        let rest = alnum_filter(s.drop_last());
        if unicode_alphanumeric(s.last()) { rest.push(s.last()) } else { rest }
    }
}

/// Normalised stem: alphanumeric characters only, then lowercased.
pub open spec fn norm_stem_spec(s: Seq<char>) -> Seq<char> {
    unicode_lowercase(alnum_filter(s))
}

/// Normalises a question stem for duplicate comparison: punctuation and spaces are
/// dropped and letters are lowercased.
pub fn norm_stem(s: &str) -> (r: String)
    ensures
        r@ == norm_stem_spec(s@),
{
    let cs = chars_of(s);
    let mut kept: Vec<char> = Vec::new();
    let mut i: usize = 0;
    while i < cs.len()
        invariant
            0 <= i <= cs.len(),
            cs@ == s@,
            kept@ == alnum_filter(cs@.take(i as int)),
        decreases cs.len() - i,
    {
        let c = cs[i];
        proof {
            assert(cs@.take(i + 1).drop_last() == cs@.take(i as int));
        }
        if is_alphanumeric(c) {
            kept.push(c);
        }
        i += 1;
    }
    proof {
        assert(cs@.take(cs@.len() as int) == cs@);
    }
    let filtered = string_from_chars(&kept);
    to_lowercase(filtered.as_str())
}

// ---------------------------------------------------------------- FNV-1a

pub open spec fn fnv_offset() -> u64 {
    0xcbf29ce484222325u64
}

pub open spec fn fnv_prime() -> u64 {
    0x100000001b3u64
}

/// FNV-1a over the low `n` bytes of `x` (least significant first), from `hash`.
pub open spec fn fnv1a_rounds(hash: u64, x: u64, n: nat) -> u64
    decreases n,
{
    if n == 0 {
        hash
    } else {
        fnv1a_rounds((hash ^ (x & 0xff)).wrapping_mul(fnv_prime()), x >> 8u64, (n - 1) as nat)
    }
}

/// 64-bit FNV-1a of the eight bytes of `x`, least significant byte first.
pub open spec fn fnv1a_spec(x: u64) -> u64 {
    fnv1a_rounds(fnv_offset(), x, 8)
}

/// 64-bit FNV-1a hash of the eight little-endian bytes of `x`.
pub fn fnv1a(x: u64) -> (h: u64)
    ensures
        h == fnv1a_spec(x),
{
    let ghost x0 = x;
    let mut hash: u64 = 0xcbf29ce484222325;
    let mut x = x;
    let mut k: u64 = 0;
    while k < 8
        invariant
            0 <= k <= 8,
            fnv1a_rounds(hash, x, (8 - k) as nat) == fnv1a_spec(x0),
        decreases 8 - k,
    {
        hash ^= x & 0xFF;
        hash = hash.wrapping_mul(0x100000001b3);
        x >>= 8;
        k += 1;
    }
    hash
}

// ---------------------------------------------------------------- SimHash

/// Whether bit `b` (0 = least significant) of `x` is set.
pub open spec fn bit_set(x: u64, b: u64) -> bool {
    (x >> b) & 1u64 == 1u64
}

/// The 64-bit feature word of the character bigram `(a, b)`: code point of `a` in the
/// high half, code point of `b` in the low half.
pub open spec fn bigram(a: char, b: char) -> u64 {
    ((a as u64) << 32u64) | (b as u64)
}

/// SimHash features of a character sequence: the FNV-1a hash of every adjacent bigram;
/// a single character contributes the hash of its own code point; no characters, none.
pub open spec fn features_spec(cs: Seq<char>) -> Seq<u64> {
    if cs.len() == 0 {
        Seq::empty()
    } else if cs.len() == 1 {
        seq![fnv1a_spec(cs[0] as u64)]
    } else {
        Seq::new((cs.len() - 1) as nat, |i: int| fnv1a_spec(bigram(cs[i], cs[i + 1])))
    }
}

/// The vote of the features on bit `b`: +1 for each feature with the bit set, -1 otherwise.
pub open spec fn bit_vote(fs: Seq<u64>, b: u64) -> int
    decreases fs.len(),
{
    if fs.len() == 0 {
        0
    } else {
        bit_vote(fs.drop_last(), b) + if bit_set(fs.last(), b) { 1int } else { -1int }
    }
}

/// The number of features with bit `b` set.
pub open spec fn bit_count(fs: Seq<u64>, b: u64) -> int
    decreases fs.len(),
{
    if fs.len() == 0 {
        0
    } else {
        bit_count(fs.drop_last(), b) + if bit_set(fs.last(), b) { 1int } else { 0int }
    }
}

/// The low `n` bits of the SimHash of `cs`: bit `b` is set when the vote on it is positive.
pub open spec fn simhash_bits_upto(cs: Seq<char>, n: nat) -> u64
    decreases n,
{
    if n == 0 {
        0u64
    } else {
        let b = (n - 1) as u64;
        let rest = simhash_bits_upto(cs, (n - 1) as nat);
        if bit_vote(features_spec(cs), b) > 0 { rest | (1u64 << b) } else { rest }
    }
}

/// The SimHash of the characters `cs`.
pub open spec fn simhash_spec(cs: Seq<char>) -> u64 {
    simhash_bits_upto(cs, 64)
}

/// `h` is the SimHash of the characters `cs`: bit `b` of `h` is set exactly when the
/// features' vote on bit `b` is positive.
pub open spec fn is_simhash_of(cs: Seq<char>, h: u64) -> bool {
    forall|b: u64| b < 64 ==> (#[trigger] bit_set(h, b) <==> bit_vote(features_spec(cs), b) > 0)
}

proof fn lemma_vote_count(fs: Seq<u64>, b: u64)
    ensures
        bit_vote(fs, b) == 2 * bit_count(fs, b) - fs.len(),
        0 <= bit_count(fs, b) <= fs.len(),
    decreases fs.len(),
{
    if fs.len() > 0 {
        lemma_vote_count(fs.drop_last(), b);
    }
}

proof fn lemma_or_bit(h: u64, b: u64, k: u64)
    requires
        b < 64,
        k < 64,
    ensures
        bit_set(h | (1u64 << b), k) == (bit_set(h, k) || k == b),
{
    assert((((h | (1u64 << b)) >> k) & 1u64 == 1u64) == ((((h >> k) & 1u64) == 1u64) || k == b))
        by (bit_vector)
        requires
            b < 64,
            k < 64,
    ;
}

proof fn lemma_zero_bits(k: u64)
    requires
        k < 64,
    ensures
        !bit_set(0u64, k),
{
    assert(((0u64 >> k) & 1u64) != 1u64) by (bit_vector);
}

/// 64-bit SimHash of `text` over character-bigram features hashed with FNV-1a.
/// The empty text hashes to 0.
pub fn simhash64(text: &str) -> (h: u64)
    ensures
        h == simhash_spec(text@),
        is_simhash_of(text@, h),
{
    let cs = chars_of(text);
    let n = cs.len();
    let mut feats: Vec<u64> = Vec::new();
    let mut i: usize = 0;
    let bound: usize = if n > 0 { n - 1 } else { 0 };
    while i < bound
        invariant
            0 <= i <= bound,
            n == cs.len(),
            cs@ == text@,
            bound == if n > 0 { n - 1 } else { 0 },
            feats@.len() == i,
            forall|k: int| 0 <= k < i ==> feats@[k] == fnv1a_spec(bigram(cs@[k], cs@[k + 1])),
        decreases bound - i,
    {
        let a = cs[i] as u64;
        let b = cs[i + 1] as u64;
        let g: u64 = a << 32 | b;
        let f = fnv1a(g);
        feats.push(f);
        i += 1;
    }
    if n == 1 {
        let f = fnv1a(cs[0] as u64);
        feats.push(f);
    }
    proof {
        assert(feats@ =~= features_spec(cs@));
    }
    let m = feats.len();
    let mut ones: Vec<usize> = Vec::new();
    let mut b: usize = 0;
    while b < 64
        invariant
            0 <= b <= 64,
            ones@.len() == b,
            forall|k: int| 0 <= k < b ==> ones@[k] == 0,
        decreases 64 - b,
    {
        ones.push(0);
        b += 1;
    }
    let mut t: usize = 0;
    while t < m
        invariant
            0 <= t <= m,
            m == feats.len(),
            ones@.len() == 64,
            forall|k: int| 0 <= k < 64 ==> ones@[k] == bit_count(#[trigger] feats@.take(t as int), k as u64),
        decreases m - t,
    {
        let f = feats[t];
        let mut bb: usize = 0;
        while bb < 64
            invariant
                0 <= bb <= 64,
                0 <= t < m,
                m == feats.len(),
                f == feats@[t as int],
                ones@.len() == 64,
                forall|k: int| 0 <= k < bb ==> ones@[k] == bit_count(#[trigger] feats@.take(t + 1), k as u64),
                forall|k: int| bb <= k < 64 ==> ones@[k] == bit_count(#[trigger] feats@.take(t as int), k as u64),
            decreases 64 - bb,
        {
            proof {
                let pre = feats@.take(t as int);
                let post = feats@.take(t + 1);
                assert(post.drop_last() == pre);
                assert(post.last() == f);
                lemma_vote_count(pre, bb as u64);
            }
            if (f >> (bb as u64)) & 1 == 1 {
                ones.set(bb, ones[bb] + 1);
            }
            bb += 1;
        }
        t += 1;
    }
    proof {
        assert(feats@.take(m as int) == feats@);
    }
    let mut h: u64 = 0;
    proof {
        assert forall|k: u64| 0 <= k < 64 implies !#[trigger] bit_set(h, k) by {
            lemma_zero_bits(k);
        }
    }
    let mut b: usize = 0;
    while b < 64
        invariant
            0 <= b <= 64,
            m == feats.len(),
            feats@ == features_spec(text@),
            ones@.len() == 64,
            forall|k: int| 0 <= k < 64 ==> ones@[k] == bit_count(feats@, k as u64),
            forall|k: u64| k < b ==> (#[trigger] bit_set(h, k) <==> bit_vote(features_spec(text@), k) > 0),
            forall|k: u64| b <= k < 64 ==> !#[trigger] bit_set(h, k),
            h == simhash_bits_upto(text@, b as nat),
        decreases 64 - b,
    {
        proof {
            lemma_vote_count(feats@, b as u64);
        }
        let pos = ones[b] > m - ones[b];
        if pos {
            let old_h = h;
            h = h | (1u64 << (b as u64));
            proof {
                assert forall|k: u64| k < 64 implies #[trigger] bit_set(h, k) == (bit_set(old_h, k) || k == b as u64) by {
                    lemma_or_bit(old_h, b as u64, k);
                }
            }
        }
        b += 1;
    }
    h
}

/// The number of set bits of `x` among bits `0..n`.
pub open spec fn popcount_upto(x: u64, n: nat) -> nat
    decreases n,
{
    if n == 0 {
        0
    } else {
        popcount_upto(x, (n - 1) as nat) + if bit_set(x, (n - 1) as u64) { 1nat } else { 0nat }
    }
}

/// Hamming distance: the number of bit positions where `a` and `b` differ.
pub open spec fn hamming_spec(a: u64, b: u64) -> nat {
    popcount_upto(a ^ b, 64)
}

/// Hamming distance between two 64-bit hashes.
pub fn hamming(a: u64, b: u64) -> (d: u32)
    ensures
        d == hamming_spec(a, b),
        d <= 64,
{
    let x = a ^ b;
    let mut d: u32 = 0;
    let mut k: u64 = 0;
    while k < 64
        invariant
            0 <= k <= 64,
            x == a ^ b,
            d == popcount_upto(x, k as nat),
            d <= k,
        decreases 64 - k,
    {
        if (x >> k) & 1 == 1 {
            d += 1;
        }
        k += 1;
    }
    d
}

// ---------------------------------------------------------------- exact groups

/// The character sequences held by a vector of character vectors.
pub open spec fn seqs_of(v: Seq<Vec<char>>) -> Seq<Seq<char>> {
    Seq::new(v.len(), |i: int| v[i]@)
}

/// The index sequences held by a vector of index vectors.
pub open spec fn idx_seqs(v: Seq<Vec<usize>>) -> Seq<Seq<usize>> {
    Seq::new(v.len(), |i: int| v[i]@)
}

/// The positions `k < m` with `ns[k] == x`, ascending.
pub open spec fn indices_eq(ns: Seq<Seq<char>>, x: Seq<char>, m: int) -> Seq<usize>
    decreases m,
{
    if m <= 0 {
        Seq::empty()
    } else {
        let r = indices_eq(ns, x, m - 1);
        if ns[m - 1] == x { r.push((m - 1) as usize) } else { r }
    }
}

/// Position `i` holds the first occurrence of its value.
pub open spec fn is_first(ns: Seq<Seq<char>>, i: int) -> bool {
    forall|j: int| 0 <= j < i ==> ns[j] != ns[i]
}

/// The exact-duplicate groups whose first member is below `m`: for each value that
/// occurs at least twice, all its positions, groups ordered by first occurrence.
pub open spec fn exact_groups_upto(ns: Seq<Seq<char>>, m: int) -> Seq<Seq<usize>>
    decreases m,
{
    if m <= 0 {
        Seq::empty()
    } else {
        let r = exact_groups_upto(ns, m - 1);
        let g = indices_eq(ns, ns[m - 1], ns.len() as int);
        if is_first(ns, m - 1) && g.len() > 1 { r.push(g) } else { r }
    }
}

/// All exact-duplicate groups of `ns`.
pub open spec fn exact_groups(ns: Seq<Seq<char>>) -> Seq<Seq<usize>> {
    exact_groups_upto(ns, ns.len() as int)
}

/// Position `k` shares its value with some other position.
pub open spec fn in_exact_group(ns: Seq<Seq<char>>, k: int) -> bool {
    indices_eq(ns, ns[k], ns.len() as int).len() > 1
}

proof fn lemma_indices_eq_bounds(ns: Seq<Seq<char>>, x: Seq<char>, m: int)
    requires
        0 <= m <= ns.len(),
        ns.len() <= usize::MAX,
    ensures
        forall|t: int| 0 <= t < indices_eq(ns, x, m).len() ==> {
            let k = #[trigger] indices_eq(ns, x, m)[t];
            &&& k < m
            &&& ns[k as int] == x
        },
        forall|k: int| 0 <= k < m && ns[k] == x ==> indices_eq(ns, x, m).contains(k as usize),
        indices_eq(ns, x, m).len() <= m,
    decreases m,
{
    if m > 0 {
        lemma_indices_eq_bounds(ns, x, m - 1);
        let r = indices_eq(ns, x, m - 1);
        if ns[m - 1] == x {
            assert forall|k: int| 0 <= k < m && ns[k] == x implies indices_eq(ns, x, m).contains(k as usize) by {
                if k < m - 1 {
                    let t = choose|t: int| 0 <= t < r.len() && r[t] == k as usize;
                    assert(indices_eq(ns, x, m)[t] == k as usize);
                } else {
                    assert(indices_eq(ns, x, m)[r.len() as int] == k as usize);
                }
            }
        }
    }
}

/// The positions of `x` in `norms`, ascending.
fn positions_of(norms: &Vec<Vec<char>>, x: &Vec<char>) -> (r: Vec<usize>)
    ensures
        r@ == indices_eq(seqs_of(norms@), x@, norms.len() as int),
{
    let ghost ns = seqs_of(norms@);
    let mut r: Vec<usize> = Vec::new();
    let mut k: usize = 0;
    while k < norms.len()
        invariant
            0 <= k <= norms.len(),
            ns == seqs_of(norms@),
            r@ == indices_eq(ns, x@, k as int),
        decreases norms.len() - k,
    {
        if crate::text::chars_eq(&norms[k], x) {
            r.push(k);
        }
        k += 1;
    }
    r
}

/// Whether no position before `i` holds the same value as position `i`.
fn first_occurrence(norms: &Vec<Vec<char>>, i: usize) -> (b: bool)
    requires
        i < norms.len(),
    ensures
        b == is_first(seqs_of(norms@), i as int),
{
    let ghost ns = seqs_of(norms@);
    let mut j: usize = 0;
    while j < i
        invariant
            0 <= j <= i < norms.len(),
            ns == seqs_of(norms@),
            forall|k: int| 0 <= k < j ==> ns[k] != ns[i as int],
        decreases i - j,
    {
        if crate::text::chars_eq(&norms[j], &norms[i]) {
            assert(ns[j as int] == ns[i as int]);
            return false;
        }
        j += 1;
    }
    true
}

/// Groups positions holding equal values: one group per value occurring at least
/// twice, with all of its positions ascending; groups in order of first occurrence.
pub fn exact_duplicate_groups(norms: &Vec<Vec<char>>) -> (groups: Vec<Vec<usize>>)
    ensures
        idx_seqs(groups@) == exact_groups(seqs_of(norms@)),
{
    let ghost ns = seqs_of(norms@);
    let mut groups: Vec<Vec<usize>> = Vec::new();
    let mut i: usize = 0;
    while i < norms.len()
        invariant
            0 <= i <= norms.len(),
            ns == seqs_of(norms@),
            idx_seqs(groups@) == exact_groups_upto(ns, i as int),
        decreases norms.len() - i,
    {
        if first_occurrence(norms, i) {
            let g = positions_of(norms, &norms[i]);
            if g.len() > 1 {
                let ghost before = idx_seqs(groups@);
                groups.push(g);
                proof {
                    assert(idx_seqs(groups@) =~= before.push(g@));
                }
            }
        }
        i += 1;
    }
    groups
}

// ---------------------------------------------------------------- similar clusters

/// Greedy sweep for head `i` over candidates `i+1 .. j-1`: returns the updated
/// used-marks and the cluster (head first, then every unused candidate within
/// Hamming distance 3 of the head, ascending).
pub open spec fn sweep(hs: Seq<u64>, used: Seq<bool>, i: int, j: int) -> (Seq<bool>, Seq<usize>)
    decreases j - i,
{
    if j <= i + 1 {
        (used, seq![i as usize])
    } else {
        let (u, c) = sweep(hs, used, i, j - 1);
        let k = j - 1;
        if !u[k] && hamming_spec(hs[i], hs[k]) <= 3 {
            (u.update(k, true), c.push(k as usize))
        } else {
            (u, c)
        }
    }
}

/// State of the greedy clustering after considering heads `0 .. m-1`: every unused
/// head gathers its sweep; clusters of at least two members are kept and mark their head.
pub open spec fn clusters_upto(hs: Seq<u64>, m: int) -> (Seq<bool>, Seq<Seq<usize>>)
    decreases m,
{
    if m <= 0 {
        (Seq::new(hs.len(), |k: int| false), Seq::empty())
    } else {
        let (u, cl) = clusters_upto(hs, m - 1);
        let i = m - 1;
        if u[i] {
            (u, cl)
        } else {
            let (u2, c) = sweep(hs, u, i, hs.len() as int);
            if c.len() > 1 { (u2.update(i, true), cl.push(c)) } else { (u2, cl) }
        }
    }
}

/// The near-duplicate clusters of `hs` (greedy, Hamming distance at most 3 to the head).
pub open spec fn similar_clusters_spec(hs: Seq<u64>) -> Seq<Seq<usize>> {
    clusters_upto(hs, hs.len() as int).1
}

proof fn lemma_sweep_len(hs: Seq<u64>, used: Seq<bool>, i: int, j: int)
    requires
        0 <= i < j <= hs.len(),
        used.len() == hs.len(),
    ensures
        sweep(hs, used, i, j).0.len() == used.len(),
    decreases j - i,
{
    if j > i + 1 {
        lemma_sweep_len(hs, used, i, j - 1);
    }
}

proof fn lemma_clusters_len(hs: Seq<u64>, m: int)
    requires
        0 <= m <= hs.len(),
    ensures
        clusters_upto(hs, m).0.len() == hs.len(),
    decreases m,
{
    if m > 0 {
        lemma_clusters_len(hs, m - 1);
        let (u, cl) = clusters_upto(hs, m - 1);
        if !u[m - 1] {
            lemma_sweep_len(hs, u, m - 1, hs.len() as int);
        }
    }
}

/// Greedy near-duplicate clustering of hashes: scanning heads in order, an unused head
/// takes every later unused hash within Hamming distance 3; clusters of two or more are
/// reported (head first, members ascending) and their members are not reused.
pub fn similar_clusters(hs: &Vec<u64>) -> (clusters: Vec<Vec<usize>>)
    ensures
        idx_seqs(clusters@) == similar_clusters_spec(hs@),
{
    let n = hs.len();
    let mut used: Vec<bool> = Vec::new();
    let mut k: usize = 0;
    while k < n
        invariant
            0 <= k <= n,
            n == hs.len(),
            used@.len() == k,
            forall|t: int| 0 <= t < k ==> !used@[t],
        decreases n - k,
    {
        used.push(false);
        k += 1;
    }
    proof {
        assert(used@ =~= clusters_upto(hs@, 0).0);
    }
    let mut clusters: Vec<Vec<usize>> = Vec::new();
    let mut i: usize = 0;
    while i < n
        invariant
            0 <= i <= n,
            n == hs.len(),
            used@ == clusters_upto(hs@, i as int).0,
            idx_seqs(clusters@) == clusters_upto(hs@, i as int).1,
        decreases n - i,
    {
        proof {
            lemma_clusters_len(hs@, i as int);
        }
        if !used[i] {
            let ghost u0 = used@;
            let mut cluster: Vec<usize> = Vec::new();
            cluster.push(i);
            let mut j: usize = i + 1;
            proof {
                assert(cluster@ =~= seq![i as usize]);
            }
            while j < n
                invariant
                    i < j <= n,
                    n == hs.len(),
                    u0.len() == n,
                    (used@, cluster@) == sweep(hs@, u0, i as int, j as int),
                decreases n - j,
            {
                proof {
                    lemma_sweep_len(hs@, u0, i as int, j as int);
                }
                if !used[j] && hamming(hs[i], hs[j]) <= 3 {
                    cluster.push(j);
                    used.set(j, true);
                }
                j += 1;
            }
            proof {
                lemma_sweep_len(hs@, u0, i as int, n as int);
            }
            if cluster.len() > 1 {
                used.set(i, true);
                let ghost before = idx_seqs(clusters@);
                clusters.push(cluster);
                proof {
                    assert(idx_seqs(clusters@) =~= before.push(cluster@));
                }
            }
        }
        i += 1;
    }
    clusters
}

/// What one sweep produces: the head first, then later unused candidates near the head
/// in ascending order, all of which become used.
pub open spec fn sweep_facts(hs: Seq<u64>, used: Seq<bool>, i: int, j: int, u: Seq<bool>, c: Seq<usize>) -> bool {
    &&& c.len() >= 1
    &&& c[0] == i
    &&& u.len() == used.len()
    &&& forall|t: int| 1 <= t < c.len() ==> {
        &&& i < #[trigger] c[t] < j
        &&& !used[c[t] as int]
        &&& u[c[t] as int]
        &&& hamming_spec(hs[i], hs[c[t] as int]) <= 3
    }
    &&& forall|t1: int, t2: int| 0 <= t1 < t2 < c.len() ==> #[trigger] c[t1] < #[trigger] c[t2]
    &&& forall|k: int| 0 <= k < used.len() && #[trigger] used[k] ==> u[k]
    &&& forall|k: int| 0 <= k < used.len() && #[trigger] u[k] && !used[k] ==> c.contains(k as usize) && k != i
}

proof fn lemma_sweep_facts(hs: Seq<u64>, used: Seq<bool>, i: int, j: int)
    requires
        0 <= i < j <= hs.len(),
        used.len() == hs.len(),
        hs.len() <= usize::MAX,
    ensures
        sweep_facts(hs, used, i, j, sweep(hs, used, i, j).0, sweep(hs, used, i, j).1),
    decreases j - i,
{
    if j > i + 1 {
        lemma_sweep_facts(hs, used, i, j - 1);
        let (u, c) = sweep(hs, used, i, j - 1);
        let k = j - 1;
        if !u[k] && hamming_spec(hs[i], hs[k]) <= 3 {
            let u2 = u.update(k, true);
            let c2 = c.push(k as usize);
            assert(!used[k]);
            assert forall|x: int| 0 <= x < used.len() && #[trigger] u2[x] && !used[x] implies c2.contains(x as usize) && x != i by {
                if x == k {
                    assert(c2[c.len() as int] == k as usize);
                } else {
                    assert(u[x]);
                    let t = choose|t: int| 0 <= t < c.len() && c[t] == x as usize;
                    assert(c2[t] == x as usize);
                }
            }
            assert forall|t1: int, t2: int| 0 <= t1 < t2 < c2.len() implies #[trigger] c2[t1] < #[trigger] c2[t2] by {
                if t2 == c.len() {
                    if t1 >= 1 {
                        assert(c[t1] < j - 1);
                    }
                } else {
                    assert(c[t1] < c[t2]);
                }
            }
            assert(sweep_facts(hs, used, i, j, u2, c2));
        } else {
            assert(sweep_facts(hs, used, i, j, u, c));
        }
    } else {
        assert(seq![i as usize][0] == i as usize);
        assert forall|k: int| 0 <= k < used.len() && #[trigger] used[k] implies used[k] by {}
    }
}

/// Invariant of the greedy clustering state: every cluster has at least two members,
/// ascending, in range, near its head; clusters are pairwise disjoint; and every member
/// is marked used.
pub open spec fn clusters_facts(hs: Seq<u64>, u: Seq<bool>, cl: Seq<Seq<usize>>) -> bool {
    &&& u.len() == hs.len()
    &&& forall|a: int| 0 <= a < cl.len() ==> (#[trigger] cl[a]).len() >= 2
    &&& forall|a: int, t: int| 0 <= a < cl.len() && 0 <= t < cl[a].len() ==> {
        &&& #[trigger] cl[a][t] < hs.len()
        &&& u[cl[a][t] as int]
    }
    &&& forall|a: int, t: int| 0 <= a < cl.len() && 1 <= t < cl[a].len() ==>
        hamming_spec(hs[cl[a][0] as int], hs[#[trigger] cl[a][t] as int]) <= 3
    &&& forall|a: int, t1: int, t2: int| 0 <= a < cl.len() && 0 <= t1 < t2 < cl[a].len() ==>
        #[trigger] cl[a][t1] < #[trigger] cl[a][t2]
    &&& forall|a: int, b: int, t: int, v: int| 0 <= a < b < cl.len() && 0 <= t < cl[a].len() && 0 <= v < cl[b].len()
        ==> #[trigger] cl[a][t] != #[trigger] cl[b][v]
}

proof fn lemma_clusters_facts(hs: Seq<u64>, m: int)
    requires
        0 <= m <= hs.len(),
        hs.len() <= usize::MAX,
    ensures
        clusters_facts(hs, clusters_upto(hs, m).0, clusters_upto(hs, m).1),
    decreases m,
{
    if m > 0 {
        lemma_clusters_facts(hs, m - 1);
        let (u, cl) = clusters_upto(hs, m - 1);
        let i = m - 1;
        if !u[i] {
            lemma_sweep_facts(hs, u, i, hs.len() as int);
            let (u2, c) = sweep(hs, u, i, hs.len() as int);
            if c.len() > 1 {
                let u3 = u2.update(i, true);
                let cl2 = cl.push(c);
                assert forall|a: int, t: int| 0 <= a < cl2.len() && 0 <= t < cl2[a].len() implies {
                    &&& #[trigger] cl2[a][t] < hs.len()
                    &&& u3[cl2[a][t] as int]
                } by {
                    if a < cl.len() {
                        assert(cl2[a] == cl[a]);
                        assert(u[cl[a][t] as int]);
                    } else {
                        assert(cl2[a] == c);
                        if t >= 1 {
                            assert(u2[c[t] as int]);
                        }
                    }
                }
                assert forall|a: int, t: int| 0 <= a < cl2.len() && 1 <= t < cl2[a].len() implies
                    hamming_spec(hs[cl2[a][0] as int], hs[#[trigger] cl2[a][t] as int]) <= 3 by {
                    if a < cl.len() {
                        assert(cl2[a] == cl[a]);
                    } else {
                        assert(cl2[a] == c);
                    }
                }
                assert forall|a: int, t1: int, t2: int| 0 <= a < cl2.len() && 0 <= t1 < t2 < cl2[a].len() implies
                    #[trigger] cl2[a][t1] < #[trigger] cl2[a][t2] by {
                    if a < cl.len() {
                        assert(cl2[a] == cl[a]);
                    } else {
                        assert(cl2[a] == c);
                    }
                }
                assert forall|a: int, b: int, t: int, v: int| 0 <= a < b < cl2.len() && 0 <= t < cl2[a].len() && 0 <= v < cl2[b].len()
                    implies #[trigger] cl2[a][t] != #[trigger] cl2[b][v] by {
                    assert(cl2[a] == cl[a]);
                    if b < cl.len() {
                        assert(cl2[b] == cl[b]);
                    } else {
                        assert(cl2[b] == c);
                        assert(u[cl[a][t] as int]);
                        if v >= 1 {
                            assert(!u[c[v] as int]);
                        }
                    }
                }
                assert forall|a: int| 0 <= a < cl2.len() implies (#[trigger] cl2[a]).len() >= 2 by {
                    if a < cl.len() {
                        assert(cl2[a] == cl[a]);
                    }
                }
            } else {
                assert forall|a: int, t: int| 0 <= a < cl.len() && 0 <= t < cl[a].len() implies {
                    &&& #[trigger] cl[a][t] < hs.len()
                    &&& u2[cl[a][t] as int]
                } by {
                    assert(u[cl[a][t] as int]);
                }
            }
        }
    }
}

/// Law: the near-duplicate clusters are pairwise disjoint, each has at least two
/// members listed in ascending order, and every member lies within Hamming distance 3
/// of the cluster's head (its first member).
pub proof fn law_similar_clusters_disjoint(hs: Seq<u64>)
    requires
        hs.len() <= usize::MAX,
    ensures
        clusters_facts(hs, clusters_upto(hs, hs.len() as int).0, similar_clusters_spec(hs)),
{
    lemma_clusters_facts(hs, hs.len() as int);
}

// ---------------------------------------------------------------- scan

/// One question in a duplicate group.
pub struct DupItem {
    pub qid: String,
    pub stem: String,
    pub status: String,
}

/// A duplicate group: `kind` is `"exact"` (equal normalised stems) or `"similar"`
/// (near-equal SimHash).
pub struct DupGroup {
    pub kind: String,
    pub items: Vec<DupItem>,
}

/// The normalised stems of the rows `(qid, stem, status)`.
pub open spec fn row_norms(rows: Seq<(String, String, String)>) -> Seq<Seq<char>> {
    Seq::new(rows.len(), |i: int| norm_stem_spec(rows[i].1@))
}

/// Positions below `m` that belong to no exact group, ascending.
pub open spec fn ungrouped_upto(ns: Seq<Seq<char>>, m: int) -> Seq<usize>
    decreases m,
{
    if m <= 0 {
        Seq::empty()
    } else {
        let r = ungrouped_upto(ns, m - 1);
        if !in_exact_group(ns, m - 1) { r.push((m - 1) as usize) } else { r }
    }
}

/// Positions that belong to no exact group.
pub open spec fn ungrouped(ns: Seq<Seq<char>>) -> Seq<usize> {
    ungrouped_upto(ns, ns.len() as int)
}

/// The SimHashes of the normalised stems at the given positions.
pub open spec fn hashes_at(ns: Seq<Seq<char>>, pos: Seq<usize>) -> Seq<u64> {
    Seq::new(pos.len(), |t: int| simhash_spec(ns[pos[t] as int]))
}

/// The item lists the rows at `pos`.
pub open spec fn items_are(items: Seq<DupItem>, rows: Seq<(String, String, String)>, pos: Seq<usize>) -> bool {
    &&& items.len() == pos.len()
    &&& forall|t: int| 0 <= t < pos.len() ==> {
        let r = rows[#[trigger] pos[t] as int];
        &&& items[t].qid == r.0
        &&& items[t].stem == r.1
        &&& items[t].status == r.2
    }
}

/// The full result of a duplicate scan over `rows`: first the exact groups, then the
/// similar clusters among the rows outside every exact group.
pub open spec fn dedup_scan_result(rows: Seq<(String, String, String)>, groups: Seq<DupGroup>) -> bool {
    let ns = row_norms(rows);
    let ex = exact_groups(ns);
    let ung = ungrouped(ns);
    let sim = similar_clusters_spec(hashes_at(ns, ung));
    &&& groups.len() == ex.len() + sim.len()
    &&& forall|g: int| 0 <= g < ex.len() ==> {
        &&& (#[trigger] groups[g]).kind@ == "exact"@
        &&& items_are(groups[g].items@, rows, ex[g])
    }
    &&& forall|g: int| 0 <= g < sim.len() ==> {
        &&& (#[trigger] groups[ex.len() + g]).kind@ == "similar"@
        &&& items_are(groups[ex.len() + g].items@, rows, Seq::new(sim[g].len(), |t: int| ung[sim[g][t] as int]))
    }
}

proof fn lemma_ungrouped_bounds(ns: Seq<Seq<char>>, m: int)
    requires
        0 <= m <= ns.len(),
        ns.len() <= usize::MAX,
    ensures
        ungrouped_upto(ns, m).len() <= m,
        forall|t: int| 0 <= t < ungrouped_upto(ns, m).len() ==> #[trigger] ungrouped_upto(ns, m)[t] < m,
    decreases m,
{
    if m > 0 {
        lemma_ungrouped_bounds(ns, m - 1);
    }
}

proof fn lemma_exact_bounds(ns: Seq<Seq<char>>, m: int)
    requires
        0 <= m <= ns.len(),
        ns.len() <= usize::MAX,
    ensures
        forall|g: int, t: int| 0 <= g < exact_groups_upto(ns, m).len() && 0 <= t < exact_groups_upto(ns, m)[g].len()
            ==> #[trigger] exact_groups_upto(ns, m)[g][t] < ns.len(),
    decreases m,
{
    if m > 0 {
        lemma_exact_bounds(ns, m - 1);
        lemma_indices_eq_bounds(ns, ns[m - 1], ns.len() as int);
        let r = exact_groups_upto(ns, m - 1);
        let gg = indices_eq(ns, ns[m - 1], ns.len() as int);
        if is_first(ns, m - 1) && gg.len() > 1 {
            assert forall|g: int, t: int| 0 <= g < exact_groups_upto(ns, m).len() && 0 <= t < exact_groups_upto(ns, m)[g].len()
                implies #[trigger] exact_groups_upto(ns, m)[g][t] < ns.len() by {
                if g < r.len() {
                    assert(exact_groups_upto(ns, m)[g] == r[g]);
                } else {
                    assert(exact_groups_upto(ns, m)[g] == gg);
                    assert(gg[t] < ns.len());
                }
            }
        }
    }
}

/// Builds the items of one group from the rows at the given positions.
fn items_at(rows: &Vec<(String, String, String)>, pos: &Vec<usize>) -> (items: Vec<DupItem>)
    requires
        forall|t: int| 0 <= t < pos@.len() ==> #[trigger] pos@[t] < rows@.len(),
    ensures
        items_are(items@, rows@, pos@),
{
    let mut items: Vec<DupItem> = Vec::new();
    let mut t: usize = 0;
    while t < pos.len()
        invariant
            0 <= t <= pos.len(),
            forall|u: int| 0 <= u < pos@.len() ==> #[trigger] pos@[u] < rows@.len(),
            items@.len() == t,
            forall|u: int| 0 <= u < t ==> {
                let r = rows@[#[trigger] pos@[u] as int];
                &&& items@[u].qid == r.0
                &&& items@[u].stem == r.1
                &&& items@[u].status == r.2
            },
        decreases pos.len() - t,
    {
        let k = pos[t];
        let r = &rows[k];
        items.push(DupItem { qid: r.0.clone(), stem: r.1.clone(), status: r.2.clone() });
        t += 1;
    }
    items
}

/// Scans the questions of one bank, given as rows `(qid, stem, status)`, for duplicates.
/// Exact groups (equal normalised stems, every occurrence, in order of first occurrence)
/// come first; then, among the remaining rows, greedy clusters of SimHash distance at
/// most 3 from their head.
pub fn dedup_scan(rows: &Vec<(String, String, String)>) -> (groups: Vec<DupGroup>)
    ensures
        dedup_scan_result(rows@, groups@),
{
    let n = rows.len();
    let ghost ns = row_norms(rows@);
    let mut norm_strs: Vec<String> = Vec::new();
    let mut norms: Vec<Vec<char>> = Vec::new();
    let mut i: usize = 0;
    while i < n
        invariant
            0 <= i <= n,
            n == rows.len(),
            ns == row_norms(rows@),
            norms@.len() == i,
            norm_strs@.len() == i,
            forall|k: int| 0 <= k < i ==> (#[trigger] norms@[k])@ == ns[k],
            forall|k: int| 0 <= k < i ==> (#[trigger] norm_strs@[k])@ == ns[k],
        decreases n - i,
    {
        let s = norm_stem(rows[i].1.as_str());
        let cs = chars_of(s.as_str());
        proof {
            assert(cs@ == ns[i as int]);
        }
        norms.push(cs);
        norm_strs.push(s);
        i += 1;
    }
    proof {
        assert(seqs_of(norms@) =~= ns);
    }
    let exact = exact_duplicate_groups(&norms);
    let mut ung: Vec<usize> = Vec::new();
    let mut hs: Vec<u64> = Vec::new();
    let mut k: usize = 0;
    while k < n
        invariant
            0 <= k <= n,
            n == rows.len(),
            n == norms.len(),
            n == norm_strs.len(),
            ns == row_norms(rows@),
            seqs_of(norms@) == ns,
            forall|j: int| 0 <= j < n ==> (#[trigger] norm_strs@[j])@ == ns[j],
            ung@ == ungrouped_upto(ns, k as int),
            hs@ == hashes_at(ns, ung@),
        decreases n - k,
    {
        let pos = positions_of(&norms, &norms[k]);
        if pos.len() <= 1 {
            let h = simhash64(norm_strs[k].as_str());
            let ghost before = ung@;
            ung.push(k);
            hs.push(h);
            proof {
                assert(hs@ =~= hashes_at(ns, ung@));
            }
        }
        k += 1;
    }
    let sim = similar_clusters(&hs);
    proof {
        lemma_exact_bounds(ns, n as int);
        lemma_ungrouped_bounds(ns, n as int);
    }
    let mut groups: Vec<DupGroup> = Vec::new();
    let mut g: usize = 0;
    while g < exact.len()
        invariant
            0 <= g <= exact.len(),
            n == rows.len(),
            ns == row_norms(rows@),
            idx_seqs(exact@) == exact_groups(ns),
            forall|a: int, t: int| 0 <= a < exact_groups(ns).len() && 0 <= t < exact_groups(ns)[a].len()
                ==> #[trigger] exact_groups(ns)[a][t] < ns.len(),
            groups@.len() == g,
            forall|a: int| 0 <= a < g ==> {
                &&& (#[trigger] groups@[a]).kind@ == "exact"@
                &&& items_are(groups@[a].items@, rows@, exact_groups(ns)[a])
            },
        decreases exact.len() - g,
    {
        proof {
            assert(exact@[g as int]@ == exact_groups(ns)[g as int]);
        }
        let items = items_at(rows, &exact[g]);
        groups.push(DupGroup { kind: "exact".to_string(), items });
        g += 1;
    }
    let ghost ex_len = exact.len() as int;
    let mut c: usize = 0;
    while c < sim.len()
        invariant
            0 <= c <= sim.len(),
            n == rows.len(),
            ns == row_norms(rows@),
            ex_len == exact_groups(ns).len(),
            ung@ == ungrouped(ns),
            hs@ == hashes_at(ns, ung@),
            idx_seqs(sim@) == similar_clusters_spec(hs@),
            forall|t: int| 0 <= t < ung@.len() ==> #[trigger] ung@[t] < n,
            ung@.len() <= n,
            groups@.len() == ex_len + c,
            forall|a: int| 0 <= a < ex_len ==> {
                &&& (#[trigger] groups@[a]).kind@ == "exact"@
                &&& items_are(groups@[a].items@, rows@, exact_groups(ns)[a])
            },
            forall|a: int| 0 <= a < c ==> {
                let cl = similar_clusters_spec(hs@)[a];
                &&& (#[trigger] groups@[ex_len + a]).kind@ == "similar"@
                &&& items_are(groups@[ex_len + a].items@, rows@, Seq::new(cl.len(), |t: int| ung@[cl[t] as int]))
            },
        decreases sim.len() - c,
    {
        let cl = &sim[c];
        let mut pos: Vec<usize> = Vec::new();
        let mut t: usize = 0;
        proof {
            assert(sim@[c as int]@ == similar_clusters_spec(hs@)[c as int]);
            lemma_cluster_members_bounded(hs@, c as int);
        }
        while t < cl.len()
            invariant
                0 <= t <= cl.len(),
                cl@ == similar_clusters_spec(hs@)[c as int],
                forall|u: int| 0 <= u < cl@.len() ==> #[trigger] cl@[u] < ung@.len(),
                forall|u: int| 0 <= u < ung@.len() ==> #[trigger] ung@[u] < n,
                pos@.len() == t,
                forall|u: int| 0 <= u < t ==> pos@[u] == ung@[#[trigger] cl@[u] as int],
            decreases cl.len() - t,
        {
            pos.push(ung[cl[t]]);
            t += 1;
        }
        proof {
            assert(pos@ =~= Seq::new(cl@.len(), |u: int| ung@[cl@[u] as int]));
        }
        let items = items_at(rows, &pos);
        let ghost before = groups@;
        groups.push(DupGroup { kind: "similar".to_string(), items });
        c += 1;
    }
    groups
}

proof fn lemma_sweep_members(hs: Seq<u64>, used: Seq<bool>, i: int, j: int)
    requires
        0 <= i < j <= hs.len(),
        used.len() == hs.len(),
        hs.len() <= usize::MAX,
    ensures
        forall|t: int| 0 <= t < sweep(hs, used, i, j).1.len() ==> #[trigger] sweep(hs, used, i, j).1[t] < hs.len(),
    decreases j - i,
{
    if j > i + 1 {
        lemma_sweep_members(hs, used, i, j - 1);
        lemma_sweep_len(hs, used, i, j - 1);
    }
}

proof fn lemma_clusters_members(hs: Seq<u64>, m: int)
    requires
        0 <= m <= hs.len(),
        hs.len() <= usize::MAX,
    ensures
        forall|a: int, t: int| 0 <= a < clusters_upto(hs, m).1.len() && 0 <= t < clusters_upto(hs, m).1[a].len()
            ==> #[trigger] clusters_upto(hs, m).1[a][t] < hs.len(),
    decreases m,
{
    if m > 0 {
        lemma_clusters_members(hs, m - 1);
        lemma_clusters_len(hs, m - 1);
        let (u, cl) = clusters_upto(hs, m - 1);
        if !u[m - 1] {
            lemma_sweep_members(hs, u, m - 1, hs.len() as int);
        }
    }
}

proof fn lemma_cluster_members_bounded(hs: Seq<u64>, a: int)
    requires
        0 <= a < similar_clusters_spec(hs).len(),
        hs.len() <= usize::MAX,
    ensures
        forall|t: int| 0 <= t < similar_clusters_spec(hs)[a].len() ==> #[trigger] similar_clusters_spec(hs)[a][t] < hs.len(),
{
    lemma_clusters_members(hs, hs.len() as int);
    assert forall|t: int| 0 <= t < similar_clusters_spec(hs)[a].len() implies #[trigger] similar_clusters_spec(hs)[a][t] < hs.len() by {
        assert(clusters_upto(hs, hs.len() as int).1[a][t] < hs.len());
    }
}

// ---------------------------------------------------------------- laws

proof fn lemma_popcount_zero(n: nat)
    requires
        n <= 64,
    ensures
        popcount_upto(0u64, n) == 0,
    decreases n,
{
    if n > 0 {
        let k = (n - 1) as u64;
        assert(!bit_set(0u64, k)) by (bit_vector)
            requires k < 64;
        lemma_popcount_zero((n - 1) as nat);
    }
}

/// The Hamming distance is symmetric, and zero from a hash to itself.
pub proof fn law_hamming_metric(a: u64, b: u64)
    ensures
        hamming_spec(a, b) == hamming_spec(b, a),
        hamming_spec(a, a) == 0,
{
    assert(a ^ b == b ^ a) by (bit_vector);
    assert(a ^ a == 0u64) by (bit_vector);
    lemma_popcount_zero(64);
}

/// The first positions below `m` of the values that occur at least twice.
pub open spec fn group_firsts(ns: Seq<Seq<char>>, m: int) -> Seq<int>
    decreases m,
{
    if m <= 0 {
        Seq::empty()
    } else {
        let r = group_firsts(ns, m - 1);
        if is_first(ns, m - 1) && indices_eq(ns, ns[m - 1], ns.len() as int).len() > 1 { r.push(m - 1) } else { r }
    }
}

proof fn lemma_group_firsts(ns: Seq<Seq<char>>, m: int)
    requires
        0 <= m <= ns.len(),
    ensures
        group_firsts(ns, m).len() == exact_groups_upto(ns, m).len(),
        forall|g: int| 0 <= g < group_firsts(ns, m).len() ==> {
            let f = #[trigger] group_firsts(ns, m)[g];
            &&& 0 <= f < m
            &&& is_first(ns, f)
            &&& exact_groups_upto(ns, m)[g] == indices_eq(ns, ns[f], ns.len() as int)
            &&& indices_eq(ns, ns[f], ns.len() as int).len() > 1
        },
        forall|g1: int, g2: int| 0 <= g1 < g2 < group_firsts(ns, m).len()
            ==> #[trigger] group_firsts(ns, m)[g1] < #[trigger] group_firsts(ns, m)[g2],
    decreases m,
{
    if m > 0 {
        lemma_group_firsts(ns, m - 1);
    }
}

/// The exact-duplicate groups: each has at least two members, all with the same
/// normalised stem, and different groups have different stems (so no question is in
/// two groups).
pub proof fn law_exact_groups(ns: Seq<Seq<char>>)
    requires
        ns.len() <= usize::MAX,
    ensures
        forall|g: int| 0 <= g < exact_groups(ns).len() ==> (#[trigger] exact_groups(ns)[g]).len() >= 2,
        forall|g: int, t: int| 0 <= g < exact_groups(ns).len() && 0 <= t < exact_groups(ns)[g].len() ==> {
            let k = #[trigger] exact_groups(ns)[g][t];
            &&& k < ns.len()
            &&& ns[k as int] == ns[exact_groups(ns)[g][0] as int]
        },
        forall|g1: int, g2: int| 0 <= g1 < g2 < exact_groups(ns).len()
            ==> ns[(#[trigger] exact_groups(ns)[g1])[0] as int] != ns[(#[trigger] exact_groups(ns)[g2])[0] as int],
{
    let n = ns.len() as int;
    let ex = exact_groups(ns);
    let fs = group_firsts(ns, n);
    lemma_group_firsts(ns, n);
    assert forall|g: int| 0 <= g < ex.len() implies ns[(#[trigger] ex[g])[0] as int] == ns[fs[g]] && ex[g].len() >= 2 by {
        let f = fs[g];
        lemma_indices_eq_bounds(ns, ns[f], n);
        let e = indices_eq(ns, ns[f], n);
        assert(ex[g] == e);
        let k = e[0];
        assert(ns[k as int] == ns[f]);
    }
    assert forall|g: int, t: int| 0 <= g < ex.len() && 0 <= t < ex[g].len() implies {
        let k = #[trigger] ex[g][t];
        &&& k < ns.len()
        &&& ns[k as int] == ns[ex[g][0] as int]
    } by {
        let f = fs[g];
        lemma_indices_eq_bounds(ns, ns[f], n);
        assert(ex[g] == indices_eq(ns, ns[f], n));
        assert(ns[ex[g][0] as int] == ns[f]);
    }
    assert forall|g1: int, g2: int| 0 <= g1 < g2 < ex.len()
        implies ns[(#[trigger] ex[g1])[0] as int] != ns[(#[trigger] ex[g2])[0] as int] by {
        let f1 = fs[g1];
        let f2 = fs[g2];
        assert(f1 < f2);
        assert(is_first(ns, f2));
        assert(ns[ex[g1][0] as int] == ns[f1]);
        assert(ns[ex[g2][0] as int] == ns[f2]);
    }
}

proof fn lemma_indices_eq_sorted(ns: Seq<Seq<char>>, x: Seq<char>, m: int)
    requires
        0 <= m <= ns.len(),
        ns.len() <= usize::MAX,
    ensures
        forall|a: int, b: int| 0 <= a < b < indices_eq(ns, x, m).len()
            ==> #[trigger] indices_eq(ns, x, m)[a] < #[trigger] indices_eq(ns, x, m)[b],
    decreases m,
{
    if m > 0 {
        lemma_indices_eq_sorted(ns, x, m - 1);
        lemma_indices_eq_bounds(ns, x, m - 1);
    }
}

proof fn lemma_ungrouped_members(ns: Seq<Seq<char>>, m: int)
    requires
        0 <= m <= ns.len(),
        ns.len() <= usize::MAX,
    ensures
        forall|u: int| 0 <= u < ungrouped_upto(ns, m).len()
            ==> !in_exact_group(ns, #[trigger] ungrouped_upto(ns, m)[u] as int),
    decreases m,
{
    if m > 0 {
        lemma_ungrouped_members(ns, m - 1);
        lemma_ungrouped_bounds(ns, m - 1);
    }
}

proof fn lemma_first_in_firsts(ns: Seq<Seq<char>>, f: int, m: int)
    requires
        0 <= f < m <= ns.len(),
        is_first(ns, f),
        indices_eq(ns, ns[f], ns.len() as int).len() > 1,
    ensures
        group_firsts(ns, m).contains(f),
    decreases m,
{
    if m - 1 == f {
        let r = group_firsts(ns, m - 1);
        assert(group_firsts(ns, m) == r.push(f));
        assert(group_firsts(ns, m)[r.len() as int] == f);
    } else {
        lemma_first_in_firsts(ns, f, m - 1);
        let r = group_firsts(ns, m - 1);
        let x = choose|x: int| 0 <= x < r.len() && r[x] == f;
        if is_first(ns, m - 1) && indices_eq(ns, ns[m - 1], ns.len() as int).len() > 1 {
            assert(group_firsts(ns, m)[x] == f);
        }
    }
}

/// The exact groups are complete and apart from the similar clusters: every question
/// whose normalised stem another question shares is in an exact group, every member of
/// an exact group shares its stem, and the questions searched for near-duplicates
/// (those the similar clusters are drawn from) are exactly the others.
pub proof fn law_exact_groups_complete(ns: Seq<Seq<char>>)
    requires
        ns.len() <= usize::MAX,
    ensures
        forall|k: int| 0 <= k < ns.len() && #[trigger] in_exact_group(ns, k) ==> exists|g: int, t: int|
            0 <= g < exact_groups(ns).len() && 0 <= t < exact_groups(ns)[g].len() && exact_groups(ns)[g][t] == k,
        forall|g: int, t: int| 0 <= g < exact_groups(ns).len() && 0 <= t < exact_groups(ns)[g].len()
            ==> in_exact_group(ns, #[trigger] exact_groups(ns)[g][t] as int),
        forall|u: int| 0 <= u < ungrouped(ns).len() ==> !in_exact_group(ns, #[trigger] ungrouped(ns)[u] as int),
{
    let n = ns.len() as int;
    let ex = exact_groups(ns);
    let fs = group_firsts(ns, n);
    lemma_group_firsts(ns, n);
    lemma_ungrouped_members(ns, n);
    assert forall|k: int| 0 <= k < ns.len() && #[trigger] in_exact_group(ns, k) implies exists|g: int, t: int|
        0 <= g < ex.len() && 0 <= t < ex[g].len() && ex[g][t] == k by {
        let e = indices_eq(ns, ns[k], n);
        lemma_indices_eq_bounds(ns, ns[k], n);
        lemma_indices_eq_sorted(ns, ns[k], n);
        let f = e[0] as int;
        assert(ns[f] == ns[k]);
        assert(is_first(ns, f)) by {
            assert forall|j: int| 0 <= j < f implies ns[j] != ns[f] by {
                if ns[j] == ns[f] {
                    assert(e.contains(j as usize));
                    let t = choose|t: int| 0 <= t < e.len() && e[t] == j as usize;
                    if t > 0 {
                        assert(e[0] < e[t]);
                    }
                }
            }
        }
        lemma_first_in_firsts(ns, f, n);
        let g = choose|g: int| 0 <= g < fs.len() && fs[g] == f;
        assert(ex[g] == e);
        let t = choose|t: int| 0 <= t < e.len() && e[t] == k as usize;
        assert(ex[g][t] == k);
    }
    assert forall|g: int, t: int| 0 <= g < ex.len() && 0 <= t < ex[g].len()
        implies in_exact_group(ns, #[trigger] ex[g][t] as int) by {
        let f = fs[g];
        lemma_indices_eq_bounds(ns, ns[f], n);
        let k = ex[g][t] as int;
        assert(ns[k] == ns[f]);
    }
}

/// Normalising a stem drops exactly the characters that are not alphanumeric (letters
/// and digits, in the Unicode sense): a stem made only of alphanumeric characters
/// keeps all of them, one with none keeps nothing, and every alphanumeric character of
/// a stem survives.
pub proof fn law_norm_keeps_alphanumerics(s: Seq<char>)
    ensures
        (forall|i: int| 0 <= i < s.len() ==> unicode_alphanumeric(#[trigger] s[i]))
            ==> alnum_filter(s) == s && norm_stem_spec(s) == unicode_lowercase(s),
        (forall|i: int| 0 <= i < s.len() ==> !unicode_alphanumeric(#[trigger] s[i])) ==> alnum_filter(s).len() == 0,
        forall|i: int| 0 <= i < s.len() && unicode_alphanumeric(#[trigger] s[i]) ==> alnum_filter(s).contains(s[i]),
        forall|c: char| #[trigger] alnum_filter(s).contains(c) ==> s.contains(c) && unicode_alphanumeric(c),
    decreases s.len(),
{
    if s.len() > 0 {
        let d = s.drop_last();
        law_norm_keeps_alphanumerics(d);
        let r = alnum_filter(d);
        let f = alnum_filter(s);
        assert(forall|i: int| 0 <= i < d.len() ==> d[i] == s[i]);
        if forall|i: int| 0 <= i < s.len() ==> unicode_alphanumeric(#[trigger] s[i]) {
            assert(forall|i: int| 0 <= i < d.len() ==> unicode_alphanumeric(#[trigger] d[i])) by {
                assert forall|i: int| 0 <= i < d.len() implies unicode_alphanumeric(#[trigger] d[i]) by {
                    assert(d[i] == s[i]);
                }
            }
            assert(unicode_alphanumeric(s[s.len() - 1]));
            assert(f == r.push(s.last()));
            assert(d.push(s.last()) =~= s);
        }
        if forall|i: int| 0 <= i < s.len() ==> !unicode_alphanumeric(#[trigger] s[i]) {
            assert forall|i: int| 0 <= i < d.len() implies !unicode_alphanumeric(#[trigger] d[i]) by {
                assert(d[i] == s[i]);
            }
            assert(!unicode_alphanumeric(s[s.len() - 1]));
        }
        assert forall|i: int| 0 <= i < s.len() && unicode_alphanumeric(#[trigger] s[i]) implies f.contains(s[i]) by {
            if i < s.len() - 1 {
                assert(d[i] == s[i]);
                assert(r.contains(d[i]));
                let j = choose|j: int| 0 <= j < r.len() && r[j] == d[i];
                if unicode_alphanumeric(s.last()) {
                    assert(f[j] == r[j]);
                }
            } else {
                assert(f == r.push(s.last()));
                assert(f[r.len() as int] == s[i]);
            }
        }
        assert forall|c: char| #[trigger] f.contains(c) implies s.contains(c) && unicode_alphanumeric(c) by {
            let j = choose|j: int| 0 <= j < f.len() && f[j] == c;
            if j < r.len() {
                assert(r[j] == c);
                assert(r.contains(c));
                let x = choose|x: int| 0 <= x < d.len() && d[x] == c;
                assert(s[x] == c);
            } else {
                assert(c == s.last());
                assert(s[s.len() - 1] == c);
            }
        }
    }
}

} // verus!
