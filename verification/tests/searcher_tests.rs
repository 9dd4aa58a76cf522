use indexify::searcher::{extract_literals, line_starts, matched_line_hits, ngrams_of, required_literals};

// --- extract_literals ---

#[test]
fn extract_literals_simple() {
    assert_eq!(extract_literals("foobar"), vec!["foobar"]);
}

#[test]
fn extract_literals_two_runs() {
    let mut v = extract_literals("foo.*bar");
    v.sort();
    assert_eq!(v, vec!["bar", "foo"]);
}

#[test]
fn extract_literals_underscore_included() {
    assert_eq!(extract_literals("foo_bar"), vec!["foo_bar"]);
}

#[test]
fn extract_literals_one_char_runs_excluded() {
    // single-char runs can't be pre-filtered → dropped
    assert!(extract_literals("a.b").is_empty());
    assert!(extract_literals("x+y").is_empty());
}

#[test]
fn extract_literals_two_char_runs_included() {
    // 2-char runs are usable (their bigram pre-filters)
    let mut v = extract_literals("ab.cd");
    v.sort();
    assert_eq!(v, vec!["ab", "cd"]);
}

#[test]
fn extract_literals_cjk_run() {
    // non-ASCII chars are literal (never regex metacharacters); a 2-char CJK run is kept
    assert_eq!(extract_literals("契約.*者"), vec!["契約"]);
}

#[test]
fn extract_literals_cjk_single_char_excluded() {
    // a lone CJK char (1 char) can't be pre-filtered → dropped
    assert!(extract_literals("a.者.b").is_empty());
}

#[test]
fn extract_literals_pure_metachar_pattern_empty() {
    assert!(extract_literals(r"\d{3}").is_empty());
    assert!(extract_literals(r"[A-Z]+").is_empty());
    assert!(extract_literals(r"\s+").is_empty());
}

#[test]
fn extract_literals_mixed_long_and_short() {
    // "foo\d+bar" → ["foo", "bar"]
    let mut v = extract_literals(r"foo\d+bar");
    v.sort();
    assert_eq!(v, vec!["bar", "foo"]);
}

#[test]
fn extract_literals_trailing_run() {
    // trailing run that reaches end of string without a separator
    assert_eq!(extract_literals("abc"), vec!["abc"]);
}

#[test]
fn extract_literals_lowercased() {
    let v = extract_literals("FooBar");
    assert_eq!(v, vec!["foobar"]);
}

#[test]
fn extract_literals_in_pattern_order() {
    // runs come out in the order they occur; the `d` between `\` and `+` is a run of one
    assert_eq!(extract_literals(r"zz\d+aa_1"), vec!["zz", "aa_1"]);
}

// --- ngrams_of ---

#[test]
fn ngrams_of_basic() {
    // a >=3-char literal contributes trigrams only (more selective than bigrams)
    let g: std::collections::HashSet<_> = ngrams_of(&["abcd"]).into_iter().collect();
    assert!(g.contains("abc"));
    assert!(g.contains("bcd"));
    assert_eq!(g.len(), 2);
}

#[test]
fn ngrams_of_two_char_literal_is_bigram() {
    // a 2-char literal contributes exactly its bigram
    assert_eq!(ngrams_of(&["ab"]), vec!["ab"]);
}

#[test]
fn ngrams_of_two_char_cjk_literal_is_bigram() {
    assert_eq!(ngrams_of(&["契約"]), vec!["契約"]);
}

#[test]
fn ngrams_of_one_char_literal_empty() {
    // 0/1-char literals can't be pre-filtered
    assert!(ngrams_of(&["a", ""]).is_empty());
}

#[test]
fn ngrams_of_mixed_lengths_across_strings() {
    // a 2-char run gives a bigram; a >=3-char run gives trigrams; unioned
    let g: std::collections::HashSet<_> = ngrams_of(&["ab", "wxyz"]).into_iter().collect();
    assert!(g.contains("ab"));
    assert!(g.contains("wxy"));
    assert!(g.contains("xyz"));
    assert_eq!(g.len(), 3);
}

#[test]
fn ngrams_of_multibyte_chars() {
    // "検索テスト" (5 chars) → trigrams only (>=3) → 3
    let v = ngrams_of(&["検索テスト"]);
    assert_eq!(v.len(), 3);
}

#[test]
fn ngrams_of_deduplicates_across_strings() {
    let mut v = ngrams_of(&["abcabc", "cab"]);
    v.sort();
    assert_eq!(v, vec!["abc", "bca", "cab"]);
}

// --- line_starts ---

#[test]
fn line_starts_empty() {
    assert_eq!(line_starts(b""), vec![0]);
}

#[test]
fn line_starts_no_newline() {
    assert_eq!(line_starts(b"hello"), vec![0]);
}

#[test]
fn line_starts_single_newline() {
    assert_eq!(line_starts(b"hello\nworld"), vec![0, 6]);
}

#[test]
fn line_starts_trailing_newline() {
    assert_eq!(line_starts(b"hello\n"), vec![0, 6]);
}

#[test]
fn line_starts_crlf() {
    // \r\n: the \n at index 6 → next line starts at 7
    assert_eq!(line_starts(b"hello\r\nworld"), vec![0, 7]);
}

#[test]
fn line_starts_consecutive_newlines() {
    assert_eq!(line_starts(b"a\n\nb"), vec![0, 2, 3]);
}

#[test]
fn line_starts_multiple_lines() {
    assert_eq!(line_starts(b"a\nb\nc"), vec![0, 2, 4]);
}

#[test]
fn extract_literals_takes_every_run() {
    // the runs that decide whether a regex can use the index at all
    assert_eq!(extract_literals("foo|bar"), vec!["foo", "bar"]);
    assert_eq!(extract_literals("(abc)"), vec!["abc"]);
    assert_eq!(extract_literals("ab?"), vec!["ab"]);
    assert_eq!(extract_literals("café"), vec!["café"]);
}

fn req(p: &str, fold: bool) -> Vec<Vec<String>> {
    required_literals(p, fold)
}

#[test]
fn required_literals_per_alternative() {
    assert_eq!(req("foo|bar", false), vec![vec!["foo"], vec!["bar"]]);
    // an alternation inside a group only removes the group
    assert_eq!(req("(foo|bar)baz", false), vec![vec!["baz"]]);
    assert_eq!(req("foo.*bar", false), vec![vec!["foo", "bar"]]);
    assert_eq!(req("foo|x", false), vec![vec!["foo"], Vec::<&str>::new()]);
}

#[test]
fn required_literals_optional_parts_left_out() {
    assert_eq!(req("abc?", false), vec![vec!["ab"]]);
    assert_eq!(req("ab*cd", false), vec![vec!["cd"]]);
    assert_eq!(req("xyz{0,2}uv", false), vec![vec!["xy", "uv"]]);
    assert_eq!(req("(foo)?bar", false), vec![vec!["bar"]]);
    assert_eq!(req("foo+", false), vec![vec!["foo"]]);
}

#[test]
fn required_literals_escapes_and_classes() {
    assert_eq!(req(r"\dfoo", false), vec![vec!["foo"]]);
    assert_eq!(req(r"\x41zzz", false), vec![vec!["zzz"]]);
    assert_eq!(req(r"\p{Greek}ab", false), vec![vec!["ab"]]);
    assert_eq!(req(r"\pLab", false), vec![vec!["ab"]]);
    assert_eq!(req("[abc]de", false), vec![vec!["de"]]);
    assert_eq!(req("[]ab]cd", false), vec![vec!["cd"]]);
    assert_eq!(req("[a|b]cd", false), vec![vec!["cd"]]);
    assert_eq!(req("(?i)foo", false), vec![vec!["foo"]]);
    assert_eq!(req("foo#bar", false), vec![vec!["foo"]]);
}

#[test]
fn required_literals_case_folding() {
    // a case-insensitive regex can match another case of these letters
    assert_eq!(req("café", false), vec![vec!["caf"]]);
    assert_eq!(req("ΣΊΣΥΦΟΣ", false), vec![Vec::<String>::new()]);
    assert_eq!(req("ｶﾀｶﾅ", true), vec![vec!["ｶﾀｶﾅ"]]);
    // k and s also match the KELVIN SIGN and the LONG S when case is ignored
    assert_eq!(req("kelvin", true), vec![vec!["elvin"]]);
    assert_eq!(req("kelvin", false), vec![vec!["kelvin"]]);
    assert_eq!(req("Task", true), vec![vec!["ta"]]);
}

#[test]
fn matched_line_hits_from_verdicts() {
    let text = "a  \r\nb\nc\td\n\ne";
    let h = matched_line_hits("/f", text, &[true, false, true, true, true]);
    let got: Vec<(usize, &str)> = h.iter().map(|x| (x.line, x.text.as_str())).collect();
    assert_eq!(got, vec![(1, "a"), (3, "c\td"), (4, ""), (5, "e")]);
    assert!(h.iter().all(|x| x.file == "/f"));
    // verdicts for a prefix of the lines only
    let p = matched_line_hits("/f", text, &[false, true]);
    assert_eq!(p.len(), 1);
    assert_eq!(p[0].line, 2);
    assert_eq!(p[0].text, "b");
    // at most 50 accepted lines are reported
    let many: String = (0..60).map(|i| format!("l{i}\n")).collect();
    let all = vec![true; 60];
    let r = matched_line_hits("/g", &many, &all);
    assert_eq!(r.len(), 50);
    assert_eq!(r[49].line, 50);
}
