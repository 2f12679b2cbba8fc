use smart_quiz::dedup::{dedup_scan, fnv1a, hamming, norm_stem, simhash64};

#[test]
fn dedup_simhash_sanity() {
    let a = simhash64(&norm_stem("s7200smart标准型cpu最多扩展6个模块"));
    let b = simhash64(&norm_stem("s7200smart标准型CPU最多扩展6个模块！"));
    let c = simhash64(&norm_stem("modbusrtu通信需要设置波特率与校验位"));
    assert_eq!(a, b, "归一化后相同文本应完全一致");
    assert!(hamming(a, c) > 10, "无关文本不应相似");
}

#[test]
fn m3_simhash_sanity() {
    let a = simhash64(&norm_stem("s7200smart标准型cpu最多扩展6个模块"));
    let b = simhash64(&norm_stem("s7200smart标准型CPU最多扩展6个模块！"));
    let c = simhash64(&norm_stem("modbusrtu通信需要设置波特率与校验位"));
    assert_eq!(a, b, "归一化后相同文本应完全一致");
    assert!(hamming(a, c) > 10, "无关文本不应相似");
}

#[test]
fn fnv1a_known_values() {
    // FNV-1a 64 over the eight little-endian bytes of the input
    let mut z: u64 = 0xcbf29ce484222325;
    for _ in 0..8 { z = z.wrapping_mul(0x100000001b3); }
    assert_eq!(fnv1a(0), z);
    let mut h: u64 = 0xcbf29ce484222325;
    let mut x: u64 = 0x0102030405060708;
    for _ in 0..8 { h ^= x & 0xff; h = h.wrapping_mul(0x100000001b3); x >>= 8; }
    assert_eq!(fnv1a(0x0102030405060708), h);
}

#[test]
fn simhash_edge_cases() {
    assert_eq!(simhash64(""), 0);
    assert_eq!(simhash64("a"), fnv1a('a' as u64));
    assert_eq!(hamming(0, u64::MAX), 64);
    assert_eq!(hamming(5, 5), 0);
    assert_eq!(hamming(0b1010, 0b0110), 2);
    assert_eq!(hamming(0b0110, 0b1010), 2);
}

#[test]
fn norm_stem_drops_punctuation_and_lowercases() {
    assert_eq!(norm_stem("标准型CPU最多几个EM？"), "标准型cpu最多几个em");
    assert_eq!(norm_stem("A-b C!"), "abc");
}

fn row(q: &str, s: &str) -> (String, String, String) {
    (q.to_string(), s.to_string(), "active".to_string())
}

#[test]
fn scan_finds_exact_then_similar_groups() {
    let rows = vec![
        row("X0000", "标准型CPU最多几个EM？"),
        row("X0001", "通信需要设置哪些参数？"),
        row("X0002", "SR是继电器输出"),
        row("X0003", "标准型cpu最多几个EM?"),
        row("X0004", "通信需要设置哪些参数"),
    ];
    let groups = dedup_scan(&rows);
    assert_eq!(groups.len(), 2);
    assert_eq!(groups[0].kind, "exact");
    let q0: Vec<&str> = groups[0].items.iter().map(|i| i.qid.as_str()).collect();
    assert_eq!(q0, vec!["X0000", "X0003"]);
    assert_eq!(groups[1].kind, "exact");
    let q1: Vec<&str> = groups[1].items.iter().map(|i| i.qid.as_str()).collect();
    assert_eq!(q1, vec!["X0001", "X0004"]);
    assert_eq!(groups[0].items[1].stem, "标准型cpu最多几个EM?");
    assert_eq!(groups[0].items[1].status, "active");
}

#[test]
fn scan_clusters_near_duplicates() {
    let base = "s7200smart标准型cpu最多扩展6个模块可以扩展信号板吗";
    let near = "s7200smart标准型cpu最多扩展6个模块可以扩展信号版吗";
    let rows = vec![row("a", base), row("b", "modbusrtu通信需要设置波特率与校验位"), row("c", near)];
    let ha = simhash64(&norm_stem(base));
    let hc = simhash64(&norm_stem(near));
    let groups = dedup_scan(&rows);
    if hamming(ha, hc) <= 3 {
        assert_eq!(groups.len(), 1);
        assert_eq!(groups[0].kind, "similar");
        assert_eq!(groups[0].items.len(), 2);
        assert_eq!(groups[0].items[0].qid, "a");
        assert_eq!(groups[0].items[1].qid, "c");
    } else {
        assert!(groups.is_empty());
    }
    assert!(dedup_scan(&Vec::new()).is_empty());
}
