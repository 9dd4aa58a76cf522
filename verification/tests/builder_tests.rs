use indexify::builder::{
    distinct_ngrams, index_entry, is_binary, is_current, next_backoff_ms, progress_due,
    retry_allowed, within_size_limit, SyncStats, MAX_FILE_BYTES,
};
use indexify::encoding::TextEncoding;

// --- distinct_ngrams ---

#[test]
fn distinct_ngrams_basic() {
    // "abcd" → bigrams ab,bc,cd + trigrams abc,bcd
    let mut v = distinct_ngrams("abcd");
    v.sort();
    assert_eq!(v, vec!["ab", "abc", "bc", "bcd", "cd"]);
}

#[test]
fn distinct_ngrams_deduplicates() {
    // "aaa" → bigram "aa" + trigram "aaa"
    let mut v = distinct_ngrams("aaa");
    v.sort();
    assert_eq!(v, vec!["aa", "aaa"]);
}

#[test]
fn distinct_ngrams_two_chars_yields_bigram() {
    assert_eq!(distinct_ngrams("ab"), vec!["ab"]);
}

#[test]
fn distinct_ngrams_empty_string() {
    assert!(distinct_ngrams("").is_empty());
}

#[test]
fn distinct_ngrams_single_char() {
    assert!(distinct_ngrams("a").is_empty());
}

#[test]
fn distinct_ngrams_exactly_three_chars() {
    // "abc" → bigrams ab,bc + trigram abc
    let mut v = distinct_ngrams("abc");
    v.sort();
    assert_eq!(v, vec!["ab", "abc", "bc"]);
}

#[test]
fn distinct_ngrams_japanese() {
    // "検索テスト" → 5 chars → 4 bigrams + 3 trigrams = 7
    assert_eq!(distinct_ngrams("検索テスト").len(), 7);
}

#[test]
fn distinct_ngrams_two_char_japanese_word() {
    assert_eq!(distinct_ngrams("契約"), vec!["契約"]);
}

#[test]
fn distinct_ngrams_mixed_ascii_japanese() {
    // "ab検索テ" → 5 chars → 4 bigrams + 3 trigrams = 7, char-based windows
    let v = distinct_ngrams("ab検索テ");
    assert_eq!(v.len(), 7);
    let set: std::collections::HashSet<_> = v.into_iter().collect();
    assert!(set.contains("ab"));
    assert!(set.contains("ab検"));
}

#[test]
fn distinct_ngrams_lowercases_ascii_only() {
    let mut v = distinct_ngrams("ABc");
    v.sort();
    assert_eq!(v, vec!["ab", "abc", "bc"]);
    // non-ASCII letters keep their case
    let mut w = distinct_ngrams("ÄÖ");
    w.sort();
    assert_eq!(w, vec!["ÄÖ"]);
}

#[test]
fn distinct_ngrams_repeated_text() {
    let mut v = distinct_ngrams("abab");
    v.sort();
    assert_eq!(v, vec!["ab", "aba", "ba", "bab"]);
}

// --- is_binary ---

#[test]
fn is_binary_plain_text() {
    assert!(!is_binary(b"hello world\nthis is text\n"));
}

#[test]
fn is_binary_with_null_byte() {
    let mut data = b"hello world".to_vec();
    data.push(0);
    assert!(is_binary(&data));
}

#[test]
fn is_binary_empty() {
    assert!(!is_binary(b""));
}

#[test]
fn is_binary_null_at_8192_boundary() {
    // null at exactly index 8192 → outside the scan window → not binary
    let mut data = vec![b'a'; 8193];
    data[8192] = 0;
    assert!(!is_binary(&data));

    // null at index 8191 → inside → binary
    let mut data2 = vec![b'a'; 8193];
    data2[8191] = 0;
    assert!(is_binary(&data2));
}

#[test]
fn is_binary_null_at_first_byte() {
    let data = [0u8, b'a', b'b'];
    assert!(is_binary(&data));
}

// --- what gets indexed ---

#[test]
fn index_entry_text_file() {
    let (mt, mut grams) = index_entry(6, 42, b"abcd", TextEncoding::Utf8).unwrap();
    assert_eq!(mt, 42);
    grams.sort();
    assert_eq!(grams, vec!["ab", "abc", "bc", "bcd", "cd"]);
}

#[test]
fn index_entry_skips_binary_file() {
    assert!(index_entry(4, 1, b"ab\0c", TextEncoding::Utf8).is_none());
}

#[test]
fn index_entry_skips_oversized_file() {
    assert!(index_entry(MAX_FILE_BYTES + 1, 1, b"AAA", TextEncoding::Utf8).is_none());
    assert!(index_entry(MAX_FILE_BYTES, 1, b"AAA", TextEncoding::Utf8).is_some());
}

#[test]
fn index_entry_decodes_shift_jis() {
    // "検索" in Shift_JIS
    let sjis: &[u8] = &[0x8c, 0x9f, 0x8d, 0xf5];
    let (_, grams) = index_entry(4, 0, sjis, TextEncoding::ShiftJis).unwrap();
    assert_eq!(grams, vec!["検索"]);
}

#[test]
fn index_entry_decodes_euc_jp() {
    // "検索" in EUC-JP
    let euc: &[u8] = &[0xb8, 0xa1, 0xba, 0xf7];
    let (_, grams) = index_entry(4, 0, euc, TextEncoding::EucJp).unwrap();
    assert_eq!(grams, vec!["検索"]);
}

#[test]
fn size_limit_boundary() {
    assert!(within_size_limit(2_000_000));
    assert!(!within_size_limit(2_000_001));
}

// --- sync decisions ---

#[test]
fn unchanged_file_is_current() {
    assert!(is_current(100, 5, Some(5)));
}

#[test]
fn modified_or_new_file_is_reindexed() {
    assert!(!is_current(100, 6, Some(5)));
    assert!(!is_current(100, 5, None));
}

#[test]
fn oversized_file_is_never_current() {
    assert!(!is_current(2_000_001, 5, Some(5)));
}

#[test]
fn sync_stats_changed() {
    let mut s = SyncStats::new();
    assert!(!s.changed());
    s.removed = 1;
    assert!(s.changed());
    let t = SyncStats { updated: 3, removed: 0 };
    assert!(t.changed());
}

#[test]
fn progress_every_5000() {
    assert!(progress_due(5000));
    assert!(progress_due(10000));
    assert!(!progress_due(4999));
}

#[test]
fn at_most_six_attempts() {
    assert!(retry_allowed(1));
    assert!(retry_allowed(5));
    assert!(!retry_allowed(6));
}

#[test]
fn writer_lock_backoff_doubles_up_to_five_seconds() {
    assert_eq!(next_backoff_ms(600), 1200);
    assert_eq!(next_backoff_ms(1200), 2400);
    assert_eq!(next_backoff_ms(2400), 4800);
    assert_eq!(next_backoff_ms(4800), 5000);
    assert_eq!(next_backoff_ms(5000), 5000);
}

#[test]
fn rebuilding_unchanged_file_gives_same_entry() {
    let bytes = "plan: 契約 stays\n".as_bytes();
    let (m1, mut g1) = index_entry(bytes.len() as u64, 77, bytes, TextEncoding::Utf8).unwrap();
    let (m2, mut g2) = index_entry(bytes.len() as u64, 77, bytes, TextEncoding::Utf8).unwrap();
    g1.sort();
    g2.sort();
    assert_eq!((m1, g1), (m2, g2));
    assert!(is_current(bytes.len() as u64, 77, Some(m1)));
}
