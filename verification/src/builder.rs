//! What the index stores for a file: its distinct character bigrams and
//! trigrams, and when a file is skipped or reindexed.
use vstd::prelude::*;
use std::collections::HashSet;
use crate::ngram::{
    add_gram, grams_only, is_ngram_of, key2, key3, keys_of, lemma_ngrams_push, window,
};
use crate::encoding::{decode, decoded_text, TextEncoding};
use crate::text::{all_distinct, ascii_lower, chars_of, lower_chars, strings_view};

verus! {

/// Only the first `BINARY_SCAN_BYTES` bytes are scanned for a NUL byte.
pub const BINARY_SCAN_BYTES: usize = 8192;

/// True when the byte at `i` is a NUL inside the scanned prefix.
pub open spec fn nul_in_scan_window(bytes: Seq<u8>) -> bool {
    exists|i: int| 0 <= i < bytes.len() && i < BINARY_SCAN_BYTES && bytes[i] == 0u8
}

/// A file is treated as binary when a NUL byte occurs in its first 8192 bytes.
pub fn is_binary(bytes: &[u8]) -> (r: bool)
    ensures
        r == nul_in_scan_window(bytes@),
{
    let n = if bytes.len() < BINARY_SCAN_BYTES { bytes.len() } else { BINARY_SCAN_BYTES };
    let mut i: usize = 0;
    while i < n
        invariant
            n <= bytes.len(),
            n <= BINARY_SCAN_BYTES,
            n == bytes.len() || n == BINARY_SCAN_BYTES,
            i <= n,
            forall|k: int| 0 <= k < i ==> bytes@[k] != 0u8,
        decreases n - i,
    {
        if bytes[i] == 0 {
            return true;
        }
        i = i + 1;
    }
    false
}

/// The ASCII-lowercased characters of `text`.
pub fn lowered_chars(text: &str) -> (r: Vec<char>)
    ensures
        r@ == lower_chars(text@),
{
    let cs = chars_of(text);
    let mut out: Vec<char> = Vec::new();
    let mut i: usize = 0;
    while i < cs.len()
        invariant
            cs@ == text@,
            i <= cs.len(),
            out@ == lower_chars(cs@.subrange(0, i as int)),
        decreases cs.len() - i,
    {
        out.push(ascii_lower(cs[i]));
        i = i + 1;
        assert(out@ =~= lower_chars(cs@.subrange(0, i as int)));
    }
    assert(cs@.subrange(0, cs@.len() as int) =~= cs@);
    out
}

/// Distinct char n-grams (length 2 and 3) of the ASCII-lowercased text: the
/// candidate-filter terms stored for a document. Bigrams make 2-char queries
/// searchable; trigrams are the more selective term for longer queries.
/// Each gram appears once.
pub fn distinct_ngrams(text: &str) -> (r: Vec<String>)
    ensures
        all_distinct(strings_view(r@)),
        forall|g: Seq<char>|
            strings_view(r@).contains(g) <==> is_ngram_of(lower_chars(text@), g),
{
    broadcast use vstd::std_specs::hash::group_hash_axioms;

    let lt = lowered_chars(text);
    let mut seen: HashSet<u64> = HashSet::new();
    let mut out: Vec<String> = Vec::new();
    assert(seen@ =~= keys_of(strings_view(out@)));
    let mut i: usize = 0;
    while i < lt.len()
        invariant
            lt@ == lower_chars(text@),
            i <= lt.len(),
            all_distinct(strings_view(out@)),
            grams_only(strings_view(out@)),
            forall|g: Seq<char>|
                strings_view(out@).contains(g) <==> is_ngram_of(lt@.subrange(0, i as int), g),
            seen@ == keys_of(strings_view(out@)),
        decreases lt.len() - i,
    {
        let ghost t = lt@.subrange(0, i as int);
        let ghost t2 = lt@.subrange(0, i + 1);
        let ghost before = strings_view(out@);
        assert(t2 =~= t.push(lt@[i as int]));
        if i >= 1 {
            let pair = [lt[i - 1], lt[i]];
            let k = key2(lt[i - 1], lt[i]);
            assert(pair@ =~= seq![lt@[i - 1], lt@[i as int]]);
            assert(pair@ =~= window(t2, t.len() - 1, 2));
            add_gram(&mut out, &mut seen, &pair, k);
        }
        let ghost mid = strings_view(out@);
        if i >= 2 {
            let triple = [lt[i - 2], lt[i - 1], lt[i]];
            let k = key3(lt[i - 2], lt[i - 1], lt[i]);
            assert(triple@ =~= seq![lt@[i - 2], lt@[i - 1], lt@[i as int]]);
            assert(triple@ =~= window(t2, t.len() - 2, 3));
            add_gram(&mut out, &mut seen, &triple, k);
        }
        assert forall|g: Seq<char>|
            strings_view(out@).contains(g) <==> is_ngram_of(t2, g) by {
            lemma_ngrams_push(t, lt@[i as int], g);
        }
        i = i + 1;
    }
    assert(lt@.subrange(0, lt@.len() as int) =~= lt@);
    out
}

} // verus!

verus! {

/// Files larger than this many bytes are not indexed.
pub const MAX_FILE_BYTES: u64 = 2_000_000;

/// Index entries are reported in steps of this many files.
pub const PROGRESS_EVERY: u64 = 5000;

/// Whether a file of `size` bytes is small enough to be read and indexed.
pub fn within_size_limit(size: u64) -> (r: bool)
    ensures
        r == (size <= MAX_FILE_BYTES),
{
    size <= MAX_FILE_BYTES
}

/// Whether a file of `size` bytes with contents `bytes` gets an index entry:
/// it is within the size limit and not binary.
pub open spec fn indexable(size: u64, bytes: Seq<u8>) -> bool {
    size <= MAX_FILE_BYTES && !nul_in_scan_window(bytes)
}

/// A file that a sync leaves alone: within the size limit and recorded in the
/// index at exactly its modification time.
pub open spec fn file_is_current(size: u64, mtime: u64, indexed: Option<u64>) -> bool {
    size <= MAX_FILE_BYTES && indexed == Some(mtime)
}

/// The set of n-grams that the index stores for a file with contents `bytes`
/// in encoding `enc`: those of its ASCII-lowercased decoded text.
pub open spec fn indexed_grams(enc: TextEncoding, bytes: Seq<u8>) -> Set<Seq<char>> {
    Set::new(|g: Seq<char>| is_ngram_of(lower_chars(decoded_text(enc, bytes)), g))
}

/// What the index stores for a file, given its size, modification time (ms)
/// and bytes: nothing for a file over the size limit or a binary file;
/// otherwise the modification time and the distinct n-grams of the decoded
/// text.
pub fn index_entry(size: u64, mtime: u64, bytes: &[u8], enc: TextEncoding) -> (r: Option<(u64, Vec<String>)>)
    requires
        bytes@.len() <= usize::MAX / 8,
    ensures
        !indexable(size, bytes@) <==> r is None,
        r matches Some((mt, grams)) ==> {
            &&& mt == mtime
            &&& strings_view(grams@).to_set() == indexed_grams(enc, bytes@)
            &&& all_distinct(strings_view(grams@))
            &&& forall|g: Seq<char>|
                strings_view(grams@).contains(g) <==> is_ngram_of(
                    lower_chars(decoded_text(enc, bytes@)),
                    g,
                )
        },
{
    if !within_size_limit(size) {
        return None;
    }
    if is_binary(bytes) {
        return None;
    }
    let text = decode(enc, bytes);
    let grams = distinct_ngrams(text.as_str());
    assert(strings_view(grams@).to_set() =~= indexed_grams(enc, bytes@));
    Some((mtime, grams))
}

/// A file is current when it is within the size limit and the index holds it
/// at exactly its modification time; every other file is (re)indexed.
pub fn is_current(size: u64, mtime: u64, indexed: Option<u64>) -> (r: bool)
    ensures
        r == file_is_current(size, mtime, indexed),
{
    size <= MAX_FILE_BYTES && match indexed {
        Some(m) => m == mtime,
        None => false,
    }
}

/// Whether progress is reported after `n` indexed files.
pub fn progress_due(n: u64) -> (r: bool)
    ensures
        r == (n % PROGRESS_EVERY == 0),
{
    n % PROGRESS_EVERY == 0
}

/// Outcome of a sync pass.
pub struct SyncStats {
    pub updated: u64,
    pub removed: u64,
}

impl SyncStats {
    /// A pass that has changed nothing yet.
    pub fn new() -> (r: SyncStats)
        ensures
            r.updated == 0,
            r.removed == 0,
    {
        SyncStats { updated: 0, removed: 0 }
    }

    /// Whether the pass changed the index.
    pub fn changed(&self) -> (r: bool)
        ensures
            r == (self.updated > 0 || self.removed > 0),
    {
        self.updated > 0 || self.removed > 0
    }
}

/// Build and sync are attempted at most this many times.
pub const MAX_ATTEMPTS: u32 = 6;

/// Whether another attempt may follow attempt number `attempt` (1-based).
pub fn retry_allowed(attempt: u32) -> (r: bool)
    ensures
        r == (attempt < MAX_ATTEMPTS),
{
    attempt < MAX_ATTEMPTS
}

/// The longest wait, in ms, between probes of the writer lock.
pub const MAX_BACKOFF_MS: u64 = 5000;

/// The next wait between writer-lock probes: double the last, at most 5 s.
pub fn next_backoff_ms(delay: u64) -> (r: u64)
    requires
        delay <= u64::MAX / 2,
    ensures
        r == if 2 * delay < MAX_BACKOFF_MS { 2 * delay } else { MAX_BACKOFF_MS as int },
{
    let d = delay * 2;
    if d < MAX_BACKOFF_MS {
        d
    } else {
        MAX_BACKOFF_MS
    }
}

} // verus!
