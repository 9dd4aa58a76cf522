# indexify

Indexed full-text code search: every file under the configured roots is
decoded with its root's encoding (UTF-8, Shift_JIS or EUC-JP) and stored in a
Tantivy index as the set of its character bigrams and trigrams. A query is
turned into n-grams, the index returns the files holding all of them, and each
candidate file is checked line by line (substring or regex).

## Layout

- `src/` — the verified library (Verus):
  - `builder.rs` — what the index stores for a file (size limit, binary
    detection, distinct n-grams), the incremental-sync rule, retry and backoff.
  - `searcher.rs` — query planning (literal runs, filter n-grams), line-level
    verification of candidates, and the capped result list.
  - `lines.rs`, `ngram.rs`, `text.rs` — line structure of UTF-8 text, n-gram
    keys, character helpers.
  - `encoding.rs`, `pattern.rs`, `paths.rs` — the calls into `encoding_rs`,
    `regex` and `std::path`, behind small trusted wrappers.
  - `protocol.rs` — routing of sidecar and MCP requests, result formatting.
  - `watcher.rs` — which file events matter, the set of pending paths and
    the watcher's next step.
  - `laws.rs` — properties relating indexing and searching: the pre-filter
    never drops a file with a substring match, and for a regex it keeps every
    file whose text holds the required literal runs of one of its
    alternatives; reported lines are exactly the lines that hold a substring
    match, up to the per-file cap; a case-insensitive query does not depend on
    letter case; rebuilding an unchanged file gives the same entry, and sync
    reindexes only what changed.
- `app/` — the command-line program: Tantivy, the file-system walk, the
  watcher thread, JSON over stdio.
- `tests/` — tests of the library on concrete inputs.
