// Scenarios of the search pipeline on in-memory files: each file is indexed
// with `index_entry`, candidates are the files whose n-grams include every
// gram of the query plan (what the index's AND query selects), each candidate
// is verified with `verify_candidate`, and `finish_search` caps the result.

use indexify::builder::index_entry;
use indexify::encoding::TextEncoding;
use indexify::searcher::{
    finish_search, plan_search, verify_candidate, Hit, SearchError, SearchOutcome,
};

struct File {
    path: String,
    bytes: Vec<u8>,
    enc: TextEncoding,
}

fn utf8(path: &str, text: &[u8]) -> File {
    File { path: format!("/ws/{path}"), bytes: text.to_vec(), enc: TextEncoding::Utf8 }
}

fn shift_jis(path: &str, text: &str) -> File {
    let bytes = encoding_rs::SHIFT_JIS.encode(text).0.into_owned();
    File { path: format!("/ws/{path}"), bytes, enc: TextEncoding::ShiftJis }
}

fn euc_jp(path: &str, text: &str) -> File {
    let bytes = encoding_rs::EUC_JP.encode(text).0.into_owned();
    File { path: format!("/ws/{path}"), bytes, enc: TextEncoding::EucJp }
}

fn run(
    files: &[File],
    query: &str,
    regex: bool,
    max: usize,
    case_sensitive: bool,
) -> Result<SearchOutcome, SearchError> {
    let plan = match plan_search(query, regex, case_sensitive)? {
        Some(p) => p,
        None => return Ok(SearchOutcome::empty()),
    };
    let mut per_file = Vec::new();
    let mut candidates = 0usize;
    for f in files {
        let grams = match index_entry(f.bytes.len() as u64, 1, &f.bytes, f.enc) {
            Some((_, g)) => g,
            None => continue,
        };
        if plan.grams.iter().any(|entry| entry.iter().all(|g| grams.contains(g))) {
            candidates += 1;
            per_file.push(verify_candidate(&plan, &f.path, f.enc, &f.bytes));
        }
    }
    Ok(finish_search(per_file, candidates, max))
}

fn hits(files: &[File], query: &str, regex: bool, max: usize, case_sensitive: bool) -> Vec<Hit> {
    match run(files, query, regex, max, case_sensitive) {
        Ok(o) => o.hits,
        Err(_) => panic!("search of {query:?} failed"),
    }
}

fn has_hit(hits: &[Hit], file: &str, line: usize) -> bool {
    hits.iter().any(|h| h.file.ends_with(file) && h.line == line)
}

fn has_file(hits: &[Hit], file: &str) -> bool {
    hits.iter().any(|h| h.file.ends_with(file))
}

// --- substring ---

#[test]
fn pipeline_substring_case_insensitive() {
    let fs = [utf8("a.txt", b"calculateTotal(x, y)")];
    let h = hits(&fs, "calculatetotal", false, 300, false);
    assert_eq!(h.len(), 1);
    assert_eq!(h[0].file, "/ws/a.txt");
    assert_eq!(h[0].line, 1);
    assert_eq!(h[0].text, "calculateTotal(x, y)");
    assert!(has_hit(&hits(&fs, "CALCULATETOTAL", false, 300, false), "a.txt", 1));
}

#[test]
fn pipeline_substring_case_sensitive() {
    let fs = [utf8("a.txt", b"calculateTotal(x, y)")];
    assert!(has_hit(&hits(&fs, "calculateTotal", false, 300, true), "a.txt", 1));
    assert!(hits(&fs, "CALCULATETOTAL", false, 300, true).is_empty());
}

#[test]
fn pipeline_query_lengths() {
    let fs = [utf8("a.txt", b"abcdef")];
    assert!(hits(&fs, "a", false, 300, false).is_empty());
    assert!(matches!(plan_search("a", false, false), Ok(None)));
    assert!(has_hit(&hits(&fs, "ab", false, 300, false), "a.txt", 1));
    assert!(has_hit(&hits(&fs, "abc", false, 300, false), "a.txt", 1));
    let cjk = [utf8("a.txt", "保険契約の状態区分\n".as_bytes())];
    assert!(has_hit(&hits(&cjk, "契約", false, 300, false), "a.txt", 1));
}

#[test]
fn pipeline_line_numbers() {
    let first = [utf8("a.txt", b"TARGET line\nsecond line\n")];
    assert!(has_hit(&hits(&first, "TARGET", false, 300, false), "a.txt", 1));
    let last = [utf8("a.txt", b"first\nTARGET")];
    assert!(has_hit(&hits(&last, "TARGET", false, 300, false), "a.txt", 2));
    let many = [utf8("a.txt", b"TARGET one\nother\nTARGET two\n")];
    let h = hits(&many, "TARGET", false, 300, false);
    assert_eq!(h.iter().map(|x| x.line).collect::<Vec<_>>(), vec![1, 3]);
    assert_eq!(h[1].text, "TARGET two");
}

#[test]
fn pipeline_same_line_reported_once() {
    let fs = [utf8("a.txt", b"foo foo foo\n")];
    let h = hits(&fs, "foo", false, 300, false);
    assert_eq!(h.iter().filter(|x| x.file.ends_with("a.txt") && x.line == 1).count(), 1);
}

#[test]
fn pipeline_crlf_lines() {
    let fs = [utf8("a.txt", b"first\r\nTARGET\r\nthird\r\n")];
    assert!(has_hit(&hits(&fs, "TARGET", false, 300, false), "a.txt", 2));
    let one = [utf8("a.txt", b"TARGET line\r\n")];
    let h = hits(&one, "TARGET", false, 300, false);
    assert!(!h.is_empty());
    assert!(!h[0].text.contains('\r'));
    assert_eq!(h[0].text, "TARGET line");
}

#[test]
fn pipeline_cobol_columns() {
    let fs = [utf8(
        "prog.cbl",
        b"      *COMMENT\n       MOVE WS-AMOUNT TO TS-TOTAL.\n       STOP RUN.\n",
    )];
    let h = hits(&fs, "WS-AMOUNT", false, 300, false);
    assert!(has_hit(&h, "prog.cbl", 2));
    assert_eq!(h[0].text, "       MOVE WS-AMOUNT TO TS-TOTAL.");
}

// --- encodings ---

#[test]
fn pipeline_shift_jis() {
    let fs = [shift_jis("sjis.cbl", "検索テスト用ファイル\nマッチすべき行\n")];
    let h = hits(&fs, "マッチすべき", false, 300, false);
    assert!(has_hit(&h, "sjis.cbl", 2));
    assert_eq!(h[0].text, "マッチすべき行");
    let ascii = [shift_jis("prog.cbl", "PROCEDURE DIVISION.\n    MOVE 0 TO COUNTER.\n")];
    assert!(has_hit(&hits(&ascii, "PROCEDURE", false, 300, false), "prog.cbl", 1));
}

#[test]
fn pipeline_euc_jp() {
    let fs = [euc_jp("eucjp.cbl", "データ処理プログラム\n結果を出力する\n")];
    assert!(has_hit(&hits(&fs, "データ処理", false, 300, false), "eucjp.cbl", 1));
}

#[test]
fn pipeline_mixed_encodings() {
    let fs = [
        utf8("utf8.rs", b"fn calculate_total() { }"),
        shift_jis("sjis.cbl", "マッチする行\n計算処理\n"),
        utf8("only_utf8.rs", b"unique_utf8_identifier"),
        shift_jis("only_sjis.cbl", "固有の識別子テキスト\n"),
    ];
    assert!(has_hit(&hits(&fs, "calculate_total", false, 300, false), "utf8.rs", 1));
    assert!(has_hit(&hits(&fs, "計算処理", false, 300, false), "sjis.cbl", 2));
    let h = hits(&fs, "unique_utf8_identifier", false, 300, false);
    assert!(has_hit(&h, "only_utf8.rs", 1));
    assert!(!has_file(&h, "only_sjis.cbl"));
}

// --- regex ---

#[test]
fn pipeline_regex_matches() {
    let a = [utf8("a.txt", b"calculateTotal(100)\n")];
    assert!(has_hit(&hits(&a, r"calc.*Total", true, 300, false), "a.txt", 1));
    let b = [utf8("a.txt", b"foo123bar\n")];
    assert!(has_hit(&hits(&b, r"foo\d+bar", true, 300, false), "a.txt", 1));
    let c = [utf8("a.txt", "契約者の登録情報\n".as_bytes())];
    assert!(has_hit(&hits(&c, "契約.*情報", true, 300, false), "a.txt", 1));
}

#[test]
fn pipeline_regex_without_literal_is_refused() {
    let fs = [utf8("a.txt", b"123\nABCDEF\n")];
    assert!(matches!(run(&fs, r"\d{3}", true, 300, false), Err(SearchError::NoLiteral)));
    assert!(matches!(run(&fs, r"[A-Z]+", true, 300, false), Err(SearchError::NoLiteral)));
}

#[test]
fn pipeline_regex_that_does_not_compile() {
    let fs = [utf8("a.txt", b"foo(bar\n")];
    assert!(matches!(run(&fs, "foo(bar", true, 300, false), Err(SearchError::BadRegex(_))));
}

#[test]
fn pipeline_regex_case() {
    let fs = [utf8("a.txt", b"calculateTotal\n")];
    assert!(has_hit(&hits(&fs, "CALCULATETOTAL", true, 300, false), "a.txt", 1));
    assert!(has_hit(&hits(&fs, "calculateTotal", true, 300, true), "a.txt", 1));
    assert!(hits(&fs, "CALCULATETOTAL", true, 300, true).is_empty());
}

#[test]
fn pipeline_regex_lines_trimmed() {
    let fs = [utf8("a.txt", b"x\r\nfoo_bar  \t\nfoo\n")];
    let h = hits(&fs, "foo_b", true, 300, false);
    assert_eq!(h.len(), 1);
    assert_eq!(h[0].line, 2);
    assert_eq!(h[0].text, "foo_bar");
}

// --- caps ---

#[test]
fn pipeline_per_file_cap() {
    let content: String = (0..60).map(|i| format!("TARGET line {i}\n")).collect();
    let fs = [utf8("big.txt", content.as_bytes())];
    let h = hits(&fs, "TARGET", false, 300, false);
    assert_eq!(h.len(), 50);
    assert_eq!(h.iter().map(|x| x.line).collect::<Vec<_>>(), (1..=50).collect::<Vec<_>>());
    let r = hits(&fs, "TARGET", true, 300, false);
    assert_eq!(r.len(), 50);
}

#[test]
fn pipeline_max_truncates_in_candidate_order() {
    let fs: Vec<File> = (0..20).map(|i| utf8(&format!("f{i}.txt"), b"TARGET\n")).collect();
    let o = match run(&fs, "TARGET", false, 5, false) {
        Ok(o) => o,
        Err(_) => panic!("search failed"),
    };
    assert_eq!(o.hits.len(), 5);
    assert!(!o.candidates_truncated);
    let files: Vec<&str> = o.hits.iter().map(|h| h.file.as_str()).collect();
    assert_eq!(files, vec!["/ws/f0.txt", "/ws/f1.txt", "/ws/f2.txt", "/ws/f3.txt", "/ws/f4.txt"]);
}

#[test]
fn pipeline_candidate_limit_flag() {
    let h = Hit { file: "f".to_string(), line: 1, text: "t".to_string() };
    let o = finish_search(vec![vec![h.clone()], vec![h.clone(), h]], 2000, 2);
    assert!(o.candidates_truncated);
    assert_eq!(o.hits.len(), 2);
    let p = finish_search(Vec::new(), 1999, 10);
    assert!(!p.candidates_truncated);
    assert!(p.hits.is_empty());
}

// --- what is not indexed ---

#[test]
fn pipeline_binary_file_skipped() {
    let mut content = b"TARGET".to_vec();
    content.push(0x00);
    content.extend_from_slice(b"rest");
    let fs = [utf8("binary.bin", &content)];
    assert!(!has_file(&hits(&fs, "TARGET", false, 300, false), "binary.bin"));
}

#[test]
fn pipeline_oversized_file_skipped() {
    let fs = [utf8("huge.txt", &vec![b'A'; 2_000_001]), utf8("small.txt", b"AAA")];
    let h = hits(&fs, "AAA", false, 300, false);
    assert!(!has_file(&h, "huge.txt"));
    assert!(has_hit(&h, "small.txt", 1));
}

// --- the pre-filter never loses a match ---

#[test]
fn pipeline_prefilter_keeps_every_match() {
    let fs = [utf8("a.txt", b"xx Abcd yy\n")];
    let plan = match plan_search("bCd", false, false) {
        Ok(Some(p)) => p,
        _ => panic!("no plan"),
    };
    let direct = verify_candidate(&plan, &fs[0].path, fs[0].enc, &fs[0].bytes);
    assert_eq!(direct.len(), 1);
    let grams = match index_entry(fs[0].bytes.len() as u64, 7, &fs[0].bytes, fs[0].enc) {
        Some((mt, g)) => {
            assert_eq!(mt, 7);
            g
        }
        None => panic!("not indexed"),
    };
    assert_eq!(plan.grams.len(), 1);
    assert!(plan.grams[0].iter().all(|g| grams.contains(g)));
}

#[test]
fn pipeline_overlapping_occurrences_one_line() {
    // "aa" occurs at 0 and 1 (overlapping) and at 4: lines 1 and 2 are reported once each
    let fs = [utf8("a.txt", b"aaa\naa\nb\n")];
    let h = hits(&fs, "aa", false, 300, false);
    assert_eq!(h.iter().map(|x| x.line).collect::<Vec<_>>(), vec![1, 2]);
}

#[test]
fn pipeline_needle_spanning_lines() {
    // occurrences are found left to right without overlap, so with a needle that holds a line
    // break the overlapping occurrence that starts on line 2 is not reported
    let fs = [utf8("a.txt", b"a\na\na")];
    let h = hits(&fs, "a\na", false, 300, false);
    assert_eq!(h.iter().map(|x| x.line).collect::<Vec<_>>(), vec![1]);
}

#[test]
fn pipeline_regex_alternation_finds_each_branch() {
    let fs = [utf8("a.txt", b"foo\nbar\n"), utf8("b.txt", b"only bar here\n")];
    let h = hits(&fs, "foo|bar", true, 300, false);
    let got: Vec<(&str, usize)> = h.iter().map(|x| (x.file.as_str(), x.line)).collect();
    assert_eq!(got, vec![("/ws/a.txt", 1), ("/ws/a.txt", 2), ("/ws/b.txt", 1)]);
}

#[test]
fn pipeline_regex_group_and_optional_runs() {
    let fs = [utf8("a.txt", b"xabcx\nay\n")];
    let g = hits(&fs, "(abc)", true, 300, false);
    assert_eq!(g.iter().map(|x| x.line).collect::<Vec<_>>(), vec![1]);
    let o = hits(&fs, "ab?", true, 300, false);
    assert_eq!(o.iter().map(|x| x.line).collect::<Vec<_>>(), vec![1, 2]);
}

#[test]
fn pipeline_regex_kelvin_sign() {
    // (?i)k matches U+212A KELVIN SIGN, which the index keeps as it is
    let fs = [utf8("a.txt", "\u{212A}elvin\n".as_bytes())];
    let h = hits(&fs, "kelvin", true, 300, false);
    assert_eq!(h.len(), 1);
    assert!(hits(&fs, "kelvin", true, 300, true).is_empty());
}

#[test]
fn pipeline_regex_optional_run_still_found() {
    // the optional `u` is not required of the candidates, so "color" is found
    let fs = [utf8("a.txt", b"the colour\nthe color\n")];
    let h = hits(&fs, "colou?r", true, 300, false);
    assert_eq!(h.iter().map(|x| x.line).collect::<Vec<_>>(), vec![1, 2]);
}

#[test]
fn pipeline_upper_and_lower_case_queries_agree() {
    let fs = [utf8("a.txt", b"calculateTotal(x)\nCALCULATETOTAL\nother\n")];
    let a = hits(&fs, "calculatetotal", false, 300, false);
    let b = hits(&fs, "CALCULATETOTAL", false, 300, false);
    let key = |v: &Vec<Hit>| v.iter().map(|h| (h.file.clone(), h.line, h.text.clone())).collect::<Vec<_>>();
    assert_eq!(key(&a), key(&b));
    assert_eq!(a.len(), 2);
}
