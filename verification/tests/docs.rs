use smart_quiz::docs::{benchmark_match_expr, chunk_document, doc_title, docpack_candidates, index_documents,
    join_path, make_snippet, match_expr, query_tokens, resolve_docpack, segment_text};

#[test]
fn package_candidates_in_order_of_preference() {
    assert_eq!(join_path("/data", "docs/docs.docpack"), "/data/docs/docs.docpack");
    assert_eq!(join_path("/data/", "docs/docs.docpack"), "/data/docs/docs.docpack");
    assert_eq!(join_path("", "x"), "x");
    assert_eq!(docpack_candidates("/u", Some("/r"), "/d"), vec![
        "/u/docs/docs.docpack".to_string(),
        "/r/resources/docs/docs.docpack".to_string(),
        "/d/resources/docs/docs.docpack".to_string(),
    ]);
    assert_eq!(docpack_candidates("/u", None, "/d").len(), 2);
}

#[test]
fn user_package_wins_over_shipped_one() {
    let c = docpack_candidates("/u", Some("/r"), "/d");
    assert_eq!(resolve_docpack(&c, &vec![false, true, true]), Ok("/r/resources/docs/docs.docpack".to_string()));
    assert_eq!(resolve_docpack(&c, &vec![true, true, false]), Ok("/u/docs/docs.docpack".to_string()));
    let c2 = docpack_candidates("/u", None, "/d");
    assert_eq!(resolve_docpack(&c2, &vec![true, false]), Ok("/u/docs/docs.docpack".to_string()));
    assert_eq!(resolve_docpack(&c2, &vec![false, false]),
        Err("docs.docpack 未找到——请先在「资料速查」导入语料包，或将其放入 resources/docs/".to_string()));
}

#[test]
fn documents_are_titled_by_first_line_or_file_name() {
    assert_eq!(doc_title("a/b/c.txt", "# 标题\n正文"), " 标题");
    assert_eq!(doc_title("a/b/c.txt", "  ##Modbus  \r\n正文"), "Modbus");
    assert_eq!(doc_title("a/b/c.txt", "\n正文"), "c.txt");
    assert_eq!(doc_title("x.txt", "###"), "x.txt");
    assert_eq!(doc_title("x.txt", ""), "x.txt");
    assert_eq!(doc_title("dir/", ""), "");
    assert_eq!(doc_title("p", "Title\r\nBody"), "Title");
}

#[test]
fn chunks_close_at_1200_characters() {
    assert!(chunk_document("a\n\nb").is_empty());
    let para = "x".repeat(100);
    let one = chunk_document(&para);
    assert_eq!(one.len(), 1);
    assert_eq!(one[0].iter().collect::<String>(), format!("{para}\n"));
    let big = "y".repeat(1300);
    let doc = format!("  {big}  \n\ntail");
    let chunks = chunk_document(&doc);
    assert_eq!(chunks.len(), 1);
    assert_eq!(chunks[0].iter().collect::<String>(), format!("{big}\n"));
    let doc2 = format!("{}\n\n{}\n\n{}", "a".repeat(700), "b".repeat(700), "c".repeat(90));
    let chunks2 = chunk_document(&doc2);
    assert_eq!(chunks2.len(), 2);
    assert_eq!(chunks2[0].len(), 1402);
    assert_eq!(chunks2[1].iter().collect::<String>(), format!("{}\n", "c".repeat(90)));
}

#[test]
fn queries_become_quoted_terms() {
    let toks = query_tokens("Modbus 地址");
    assert!(toks.iter().all(|t| !t.trim().is_empty()));
    assert_eq!(toks.concat(), "Modbus地址");
    assert_eq!(match_expr(&vec!["Modbus".to_string(), "地址".to_string()]), "\"Modbus\" AND \"地址\"");
    assert_eq!(match_expr(&vec![]), "");
    assert!(query_tokens("   ").is_empty());
    assert_eq!(benchmark_match_expr("   "), "\"   \"");
    assert_eq!(benchmark_match_expr("PID"), "\"PID\"");
}

#[test]
fn snippets_window_the_first_hit() {
    let raw = format!("{}PID{}", "x".repeat(50), "y".repeat(200));
    let s = make_snippet(&raw, &vec!["PID".to_string(), "zz".to_string()]);
    let body: String = raw.chars().skip(20).take(160).collect();
    assert_eq!(s, format!("…{body}…"));
    let short = "第一行\n含 PID 的第二行";
    assert_eq!(make_snippet(short, &vec!["PID".to_string()]), "第一行 含 PID 的第二行");
    assert_eq!(make_snippet("abc", &vec!["none".to_string()]), "abc");
    let later = format!("{}B{}A", "-".repeat(40), "-".repeat(10));
    let s2 = make_snippet(&later, &vec!["A".to_string(), "B".to_string()]);
    assert_eq!(s2, format!("…{}B{}A", "-".repeat(30), "-".repeat(10)));
}

#[test]
fn documents_are_indexed_chunk_by_chunk() {
    let body = "PID 回路".repeat(20);
    let texts = vec![("docs/a.txt".to_string(), format!("# PID\n\n{body}")), ("docs/b.txt".to_string(), "短".to_string())];
    let rows = index_documents(&texts);
    assert_eq!(rows.len(), 2);
    assert_eq!(rows[0].len(), 1);
    assert_eq!(rows[0][0].path, "docs/a.txt");
    assert_eq!(rows[0][0].title, " PID");
    assert_eq!(rows[0][0].raw, format!("# PID\n{body}"));
    assert_eq!(rows[0][0].seg.replace(' ', ""), format!("#PID\n{body}\n").replace(' ', ""));
    assert!(rows[1].is_empty());
    assert_eq!(segment_text("abc"), "abc");
}

#[test]
fn snippets_stay_short() {
    let raw = "长".repeat(1000);
    let s = make_snippet(&format!("{raw}PID{raw}"), &vec!["PID".to_string()]);
    assert_eq!(s.chars().count(), 162);
    assert!(s.starts_with('…') && s.ends_with('…'));
}
