//! Properties that relate indexing and searching.
use vstd::prelude::*;
use vstd::utf8::{
    char_is_scalar, encode_scalar, encode_utf8, has_width_1_encoding, leading_byte_width_1,
    leading_byte_width_2, leading_byte_width_3, leading_byte_width_4, last_continuation_byte,
    second_last_continuation_byte, third_last_continuation_byte, valid_utf8, is_char_boundary,
    length_of_first_scalar, pop_first_scalar, decode_utf8, encode_utf8_first_scalar,
    is_char_boundary_iff_not_is_continuation_byte, valid_utf8_split, decode_utf8_split,
    encode_utf8_valid_utf8, encode_utf8_decode_utf8, is_continuation_byte,
};
use crate::ngram::{is_ngram_of, is_trigram_of, window};
use crate::searcher::{
    required_runs, regex_source, lit_scan, lit_step, LitScan, drop_last_char, flush_run, is_caseless_char,
    distinct_lines, first_n, greedy_matches, haystack_of, is_filter_gram, is_filter_gram_of,
    matches_at, needle_of, query_literals, substring_hits, HitView, line_hit, regex_hits,
    regex_matching_lines, line_content, line_count, PER_FILE_MATCH_CAP,
};
use crate::pattern::regex_is_match;
use crate::lines::{line_breaks, increasing, is_line_of, lemma_line_starts, line_index, spec_line_starts};
use crate::text::{is_white_space, is_word_char, trim_end_chars};
use crate::text::{lower_byte, lower_bytes, lower_char, lower_chars};
use crate::builder::{
    file_is_current, indexable, indexed_grams, nul_in_scan_window, BINARY_SCAN_BYTES, MAX_FILE_BYTES,
};
use crate::encoding::TextEncoding;
use crate::protocol::{decimal, digit_char};

verus! {

proof fn lemma_high_bytes(x: u8)
    ensures
        (0xC0u8 | x) >= 0x80,
        (0xE0u8 | x) >= 0x80,
        (0xF0u8 | x) >= 0x80,
        (0x80u8 | x) >= 0x80,
{
    assert((0xC0u8 | x) >= 0x80) by (bit_vector);
    assert((0xE0u8 | x) >= 0x80) by (bit_vector);
    assert((0xF0u8 | x) >= 0x80) by (bit_vector);
    assert((0x80u8 | x) >= 0x80) by (bit_vector);
}

/// ASCII lowercasing commutes with UTF-8 encoding of one character.
proof fn lemma_lower_encode_scalar(c: char)
    ensures
        lower_bytes(encode_scalar(c as u32)) == encode_scalar(lower_char(c) as u32),
{
    let u = c as u32;
    char_is_scalar(c);
    if u <= 0x7F {
        assert(leading_byte_width_1(u) == u as u8) by (bit_vector)
            requires
                u <= 0x7f,
        ;
        let l = lower_char(c);
        if 'A' <= c && c <= 'Z' {
            assert(l as u32 == u + 32);
            assert((l as u32) <= 0x7f);
            let lu = l as u32;
            assert(leading_byte_width_1(lu) == lu as u8) by (bit_vector)
                requires
                    lu <= 0x7f,
            ;
        }
        assert(lower_bytes(encode_scalar(u)) =~= encode_scalar(l as u32));
    } else {
        assert(lower_char(c) == c);
        let e = encode_scalar(u);
        lemma_high_bytes(((u >> 6) & 0x1F) as u8);
        lemma_high_bytes(((u >> 12) & 0x0F) as u8);
        lemma_high_bytes(((u >> 18) & 0x7) as u8);
        lemma_high_bytes((u & 0x3F) as u8);
        lemma_high_bytes(((u >> 6) & 0x3F) as u8);
        lemma_high_bytes(((u >> 12) & 0x3F) as u8);
        assert forall|i: int| 0 <= i < e.len() implies e[i] >= 0x80 by {}
        assert(lower_bytes(e) =~= e);
    }
}

/// ASCII lowercasing commutes with UTF-8 encoding.
pub proof fn lemma_lower_encode(t: Seq<char>)
    ensures
        lower_bytes(encode_utf8(t)) == encode_utf8(lower_chars(t)),
    decreases t.len(),
{
    if t.len() > 0 {
        lemma_lower_encode(t.drop_first());
        lemma_lower_encode_scalar(t[0]);
        assert(lower_chars(t).drop_first() =~= lower_chars(t.drop_first()));
        let a = encode_scalar(t[0] as u32);
        let b = encode_utf8(t.drop_first());
        assert(lower_bytes(a + b) =~= lower_bytes(a) + lower_bytes(b));
    }
}

} // verus!

verus! {

/// `s` occurs in `t` starting at `i`.
pub open spec fn occurs_at<T>(t: Seq<T>, s: Seq<T>, i: int) -> bool {
    0 <= i && i + s.len() <= t.len() && t.subrange(i, i + s.len()) == s
}

/// After a valid UTF-8 prefix comes a character boundary.
proof fn lemma_prefix_boundary(x: Seq<u8>, y: Seq<u8>)
    requires
        valid_utf8(x),
        valid_utf8(x + y),
    ensures
        is_char_boundary(x + y, x.len() as int),
    decreases x.len(),
{
    if x.len() > 0 {
        let xy = x + y;
        let l = length_of_first_scalar(x);
        reveal_with_fuel(valid_utf8, 2);
        assert(xy[0] == x[0]);
        assert(length_of_first_scalar(xy) == l);
        assert(pop_first_scalar(xy) =~= pop_first_scalar(x) + y);
        lemma_prefix_boundary(pop_first_scalar(x), y);
        reveal_with_fuel(is_char_boundary, 2);
    }
}

/// An occurrence of the encoding of `s` in the encoding of `t` is an
/// occurrence of `s` in `t`.
proof fn lemma_encoded_occurrence(t: Seq<char>, s: Seq<char>, p: int)
    requires
        s.len() > 0,
        occurs_at(encode_utf8(t), encode_utf8(s), p),
    ensures
        exists|i: int| occurs_at(t, s, i),
{
    let tb = encode_utf8(t);
    let n = encode_utf8(s);
    encode_utf8_valid_utf8(t);
    encode_utf8_valid_utf8(s);
    encode_utf8_first_scalar(s);
    encode_utf8_decode_utf8(t);
    encode_utf8_decode_utf8(s);
    reveal_with_fuel(valid_utf8, 2);
    assert(n.len() > 0);
    assert(tb[p] == n[0]);
    assert(!is_continuation_byte(n[0]));
    is_char_boundary_iff_not_is_continuation_byte(tb, p);
    valid_utf8_split(tb, p);
    let suf = tb.subrange(p, tb.len() as int);
    let rest = tb.subrange(p + n.len(), tb.len() as int);
    assert(suf =~= n + rest);
    lemma_prefix_boundary(n, rest);
    decode_utf8_split(tb, p);
    decode_utf8_split(suf, n.len() as int);
    assert(suf.subrange(0, n.len() as int) =~= n);
    let a = decode_utf8(tb.subrange(0, p));
    let c = decode_utf8(suf.subrange(n.len() as int, suf.len() as int));
    assert(t =~= a + s + c);
    assert(t.subrange(a.len() as int, (a.len() + s.len()) as int) =~= s);
    assert(occurs_at(t, s, a.len() as int));
}

/// Every offset of a greedy scan is a match.
proof fn lemma_greedy_matches_are_matches(h: Seq<u8>, n: Seq<u8>, pos: int)
    ensures
        forall|k: int|
            0 <= k < greedy_matches(h, n, pos).len() ==> matches_at(h, n, #[trigger] greedy_matches(h, n, pos)[k]),
    decreases h.len() + 1 - pos,
{
    if pos < 0 || pos + n.len() > h.len() {
    } else if matches_at(h, n, pos) {
        let step = if n.len() == 0 { 1 } else { n.len() as int };
        lemma_greedy_matches_are_matches(h, n, pos + step);
        let r = greedy_matches(h, n, pos);
        let r2 = greedy_matches(h, n, pos + step);
        assert(r == seq![pos] + r2);
        assert forall|k: int| 0 <= k < r.len() implies matches_at(h, n, #[trigger] r[k]) by {
            if k > 0 {
                assert(r[k] == r2[k - 1]);
            } else {
                assert(r[0] == pos);
            }
        }
    } else {
        lemma_greedy_matches_are_matches(h, n, pos + 1);
        assert(greedy_matches(h, n, pos) == greedy_matches(h, n, pos + 1));
    }
}

/// Pre-filter completeness for substring search: whenever the verifier reports
/// a hit for a query in a file's text, every candidate-filter gram of the query
/// is among the n-grams indexed for that text. The n-gram pre-filter thus never
/// drops a file that verification would report.
pub proof fn law_substring_prefilter_complete(
    query: Seq<char>,
    case_sensitive: bool,
    path: Seq<char>,
    text: Seq<char>,
    g: Seq<char>,
)
    requires
        substring_hits(
            path,
            encode_utf8(text),
            haystack_of(encode_utf8(text), case_sensitive),
            needle_of(query, case_sensitive),
        ).len() > 0,
        is_filter_gram(query_literals(query), g),
    ensures
        is_ngram_of(lower_chars(text), g),
{
    let tb = encode_utf8(text);
    let hay = haystack_of(tb, case_sensitive);
    let needle = needle_of(query, case_sensitive);
    let occ = greedy_matches(hay, needle, 0);
    let lines = distinct_lines(spec_line_starts(tb), occ, None);
    if occ.len() == 0 {
        assert(lines.len() == 0);
        assert(first_n(lines, 50).len() == 0);
    }
    lemma_greedy_matches_are_matches(hay, needle, 0);
    let p = occ[0];
    assert(matches_at(hay, needle, p));
    let lq = lower_chars(query);
    let lt = lower_chars(text);
    let lits = query_literals(query);
    assert(lits[0] == lq);
    assert(is_filter_gram_of(lq, g));
    assert(lq.len() >= 2) by {
        if lq.len() < 2 {
            assert(!is_trigram_of(lq, g));
        }
    }
    lemma_lower_encode(text);
    lemma_lower_encode(query);
    if case_sensitive {
        lemma_encoded_occurrence(text, query, p);
        let i = choose|i: int| occurs_at(text, query, i);
        assert(lt.subrange(i, i + lq.len()) =~= lq);
        assert(occurs_at(lt, lq, i));
    } else {
        lemma_encoded_occurrence(lt, lq, p);
    }
    let i = choose|i: int| occurs_at(lt, lq, i);
    if lq.len() == 2 {
        assert(window(lt, i, 2) =~= g);
    } else {
        let j = choose|j: int| 0 <= j && j + 3 <= lq.len() && #[trigger] window(lq, j, 3) == g;
        assert(window(lt, i + j, 3) =~= window(lq, j, 3));
    }
}

/// Pre-filter completeness for regex search, on the index side: when the
/// ASCII-lowercased text contains every required run of one top-level
/// alternative of the pattern, it holds every filter gram of that
/// alternative, so the file is a candidate. Required runs are taken only
/// outside optional parts, classes, escapes and groups, and without `k` and
/// `s` when matching ignores case (they also match the KELVIN SIGN and the
/// LONG S), so that a line matching an alternative contains each of its
/// runs, lowercased; that a regex match does so rests on the regex's syntax
/// and is not proved here.
pub proof fn law_regex_prefilter_complete(pattern: Seq<char>, fold: bool, text: Seq<char>, b: int, g: Seq<char>)
    requires
        0 <= b < required_runs(pattern, fold).len(),
        forall|k: int|
            0 <= k < required_runs(pattern, fold)[b].len() ==> exists|i: int|
                occurs_at(lower_chars(text), #[trigger] required_runs(pattern, fold)[b][k], i),
        is_filter_gram(required_runs(pattern, fold)[b], g),
    ensures
        is_ngram_of(lower_chars(text), g),
{
    let runs = required_runs(pattern, fold)[b];
    let lt = lower_chars(text);
    let k = choose|k: int| 0 <= k < runs.len() && is_filter_gram_of(#[trigger] runs[k], g);
    let r = runs[k];
    let i = choose|i: int| occurs_at(lt, r, i);
    if r.len() == 2 {
        assert(window(lt, i, 2) =~= g);
    } else {
        let j = choose|j: int| 0 <= j && j + 3 <= r.len() && #[trigger] window(r, j, 3) == g;
        assert(window(lt, i + j, 3) =~= window(r, j, 3));
    }
}

} // verus!

verus! {

/// Some line holds every offset at or after the first line start.
proof fn lemma_line_of_exists(starts: Seq<int>, off: int)
    requires
        starts.len() >= 1,
        starts[0] <= off,
    ensures
        is_line_of(starts, off, line_index(starts, off)),
    decreases starts.len(),
{
    let n = starts.len() as int;
    if starts[n - 1] <= off {
        assert(is_line_of(starts, off, n - 1));
    } else {
        let d = starts.drop_last();
        lemma_line_of_exists(d, off);
        let i = line_index(d, off);
        assert(is_line_of(starts, off, i));
    }
}

/// Later offsets lie on the same or a later line.
proof fn lemma_line_monotone(starts: Seq<int>, o1: int, o2: int, i: int, j: int)
    requires
        increasing(starts),
        is_line_of(starts, o1, i),
        is_line_of(starts, o2, j),
        o1 <= o2,
    ensures
        i <= j,
{
    if j < i {
        assert(starts[j + 1] <= starts[i]);
    }
}

/// A greedy scan yields increasing offsets, none before `pos`.
proof fn lemma_greedy_increasing(h: Seq<u8>, n: Seq<u8>, pos: int)
    ensures
        increasing(greedy_matches(h, n, pos)),
        forall|k: int|
            0 <= k < greedy_matches(h, n, pos).len() ==> pos <= #[trigger] greedy_matches(h, n, pos)[k],
    decreases h.len() + 1 - pos,
{
    if pos < 0 || pos + n.len() > h.len() {
    } else if matches_at(h, n, pos) {
        let step = if n.len() == 0 { 1 } else { n.len() as int };
        lemma_greedy_increasing(h, n, pos + step);
        let r = greedy_matches(h, n, pos);
        let r2 = greedy_matches(h, n, pos + step);
        assert(r == seq![pos] + r2);
        assert forall|k: int| 0 <= k < r.len() implies pos <= #[trigger] r[k] by {
            if k > 0 {
                assert(r[k] == r2[k - 1]);
            }
        }
        assert forall|a: int, b: int| 0 <= a < b < r.len() implies r[a] < r[b] by {
            assert(r[b] == r2[b - 1]);
            if a > 0 {
                assert(r[a] == r2[a - 1]);
            }
        }
    } else {
        lemma_greedy_increasing(h, n, pos + 1);
        assert(greedy_matches(h, n, pos) == greedy_matches(h, n, pos + 1));
    }
}

/// Facts about the lines reported for increasing match offsets: each is the
/// line of some offset, they strictly increase, and all follow `last`.
proof fn lemma_distinct_lines(starts: Seq<int>, occ: Seq<int>, last: Option<int>)
    requires
        starts.len() >= 1,
        starts[0] == 0,
        increasing(starts),
        increasing(occ),
        forall|k: int| 0 <= k < occ.len() ==> 0 <= #[trigger] occ[k],
        occ.len() > 0 && last is Some ==> last->0 <= line_index(starts, occ[0]),
    ensures
        increasing(distinct_lines(starts, occ, last)),
        forall|k: int|
            0 <= k < distinct_lines(starts, occ, last).len() ==> exists|m: int|
                0 <= m < occ.len() && is_line_of(starts, occ[m], #[trigger] distinct_lines(starts, occ, last)[k]),
        last is Some ==> forall|k: int|
            0 <= k < distinct_lines(starts, occ, last).len() ==> last->0 < #[trigger] distinct_lines(starts, occ, last)[k],
    decreases occ.len(),
{
    if occ.len() > 0 {
        let li = line_index(starts, occ[0]);
        lemma_line_of_exists(starts, occ[0]);
        let rest = occ.drop_first();
        if rest.len() > 0 {
            lemma_line_of_exists(starts, rest[0]);
            lemma_line_monotone(starts, occ[0], rest[0], li, line_index(starts, rest[0]));
        }
        let r = distinct_lines(starts, occ, last);
        if last == Some(li) {
            lemma_distinct_lines(starts, rest, last);
            let r2 = distinct_lines(starts, rest, last);
            assert(r == r2);
            assert forall|k: int| 0 <= k < r.len() implies exists|m: int|
                0 <= m < occ.len() && is_line_of(starts, occ[m], #[trigger] r[k]) by {
                let m = choose|m: int| 0 <= m < rest.len() && is_line_of(starts, rest[m], r2[k]);
                assert(occ[m + 1] == rest[m]);
            }
        } else {
            lemma_distinct_lines(starts, rest, Some(li));
            let r2 = distinct_lines(starts, rest, Some(li));
            assert(r == seq![li] + r2);
            assert forall|k: int| 0 <= k < r.len() implies exists|m: int|
                0 <= m < occ.len() && is_line_of(starts, occ[m], #[trigger] r[k]) by {
                if k == 0 {
                    assert(is_line_of(starts, occ[0], r[0]));
                } else {
                    assert(r[k] == r2[k - 1]);
                    let m = choose|m: int| 0 <= m < rest.len() && is_line_of(starts, rest[m], r2[k - 1]);
                    assert(occ[m + 1] == rest[m]);
                }
            }
            assert forall|a: int, b: int| 0 <= a < b < r.len() implies r[a] < r[b] by {
                assert(r[b] == r2[b - 1]);
                if a > 0 {
                    assert(r[a] == r2[a - 1]);
                }
            }
            if last is Some {
                assert forall|k: int| 0 <= k < r.len() implies last->0 < #[trigger] r[k] by {
                    if k > 0 {
                        assert(r[k] == r2[k - 1]);
                    }
                }
            }
        }
    }
}

/// Substring search reports each line at most once, in increasing line order,
/// at most `PER_FILE_MATCH_CAP` lines per file, and every reported line holds
/// the start of an occurrence of the needle.
pub proof fn law_substring_hits_sound(path: Seq<char>, b: Seq<u8>, hay: Seq<u8>, needle: Seq<u8>)
    requires
        hay.len() == b.len(),
    ensures
        ({
            let hits = substring_hits(path, b, hay, needle);
            &&& hits.len() <= PER_FILE_MATCH_CAP
            &&& forall|i: int, j: int| 0 <= i < j < hits.len() ==> hits[i].line < hits[j].line
            &&& forall|k: int|
                0 <= k < hits.len() ==> exists|off: int|
                    matches_at(hay, needle, off) && is_line_of(
                        spec_line_starts(b),
                        off,
                        #[trigger] hits[k].line - 1,
                    )
        }),
{
    let starts = spec_line_starts(b);
    let occ = greedy_matches(hay, needle, 0);
    lemma_line_starts(b);
    lemma_greedy_increasing(hay, needle, 0);
    lemma_greedy_matches_are_matches(hay, needle, 0);
    lemma_distinct_lines(starts, occ, None);
    let lines = distinct_lines(starts, occ, None);
    let kept = first_n(lines, PER_FILE_MATCH_CAP as int);
    let hits = substring_hits(path, b, hay, needle);
    assert forall|k: int| 0 <= k < hits.len() implies exists|off: int|
        matches_at(hay, needle, off) && is_line_of(starts, off, #[trigger] hits[k].line - 1) by {
        assert(kept[k] == lines[k]);
        assert(hits[k].line - 1 == lines[k]);
        let m = choose|m: int| 0 <= m < occ.len() && is_line_of(starts, occ[m], #[trigger] lines[k]);
        assert(matches_at(hay, needle, occ[m]));
    }
    assert forall|i: int, j: int| 0 <= i < j < hits.len() implies hits[i].line < hits[j].line by {
        assert(kept[i] == lines[i] && kept[j] == lines[j]);
    }
}

/// The greedy scan from `pos` meets every occurrence at or after `pos`: some
/// reported match starts at it or overlaps it.
proof fn lemma_greedy_covers(h: Seq<u8>, n: Seq<u8>, pos: int, off: int)
    requires
        n.len() > 0,
        0 <= pos <= off,
        matches_at(h, n, off),
    ensures
        exists|k: int|
            0 <= k < greedy_matches(h, n, pos).len() && #[trigger] greedy_matches(h, n, pos)[k] <= off
                < greedy_matches(h, n, pos)[k] + n.len(),
    decreases h.len() + 1 - pos,
{
    let g = greedy_matches(h, n, pos);
    if matches_at(h, n, pos) {
        let rest = greedy_matches(h, n, pos + n.len());
        assert(g == seq![pos] + rest);
        if off < pos + n.len() {
            assert(g[0] <= off < g[0] + n.len());
        } else {
            lemma_greedy_covers(h, n, pos + n.len(), off);
            let k = choose|k: int| 0 <= k < rest.len() && #[trigger] rest[k] <= off < rest[k] + n.len();
            assert(g[k + 1] == rest[k]);
        }
    } else {
        assert(pos != off);
        lemma_greedy_covers(h, n, pos + 1, off);
        assert(g == greedy_matches(h, n, pos + 1));
    }
}

/// An occurrence of a needle without a `\n` lies on one line: an offset inside
/// it is on the line of its start.
proof fn lemma_occurrence_on_one_line(b: Seq<u8>, h: Seq<u8>, n: Seq<u8>, m: int, off: int, i: int)
    requires
        h.len() == b.len(),
        forall|p: int| 0 <= p < b.len() && b[p] == 10u8 ==> h[p] == 10u8,
        forall|k: int| 0 <= k < n.len() ==> n[k] != 10u8,
        matches_at(h, n, m),
        m <= off < m + n.len(),
        is_line_of(spec_line_starts(b), m, i),
    ensures
        is_line_of(spec_line_starts(b), off, i),
{
    let starts = spec_line_starts(b);
    lemma_line_starts(b);
    if i + 1 < starts.len() && off >= starts[i + 1] {
        let p = starts[i + 1] - 1;
        assert(b[p] == 10u8);
        assert(m <= p < m + n.len());
        assert(h.subrange(m, m + n.len())[p - m] == h[p]);
        assert(n[p - m] != 10u8);
    }
}

/// Every offset of a sequence has its line among the distinct lines, unless
/// it is the line already reported (`last`).
proof fn lemma_distinct_lines_contain(starts: Seq<int>, occ: Seq<int>, last: Option<int>, k: int)
    requires
        0 <= k < occ.len(),
    ensures
        distinct_lines(starts, occ, last).contains(line_index(starts, occ[k])) || last == Some(
            line_index(starts, occ[k]),
        ),
    decreases occ.len(),
{
    let li = line_index(starts, occ[0]);
    let rest = occ.drop_first();
    let r = distinct_lines(starts, occ, last);
    if k == 0 {
        if last != Some(li) {
            assert(r[0] == li);
        }
    } else {
        assert(occ[k] == rest[k - 1]);
        let target = line_index(starts, occ[k]);
        if last == Some(li) {
            lemma_distinct_lines_contain(starts, rest, last, k - 1);
        } else {
            lemma_distinct_lines_contain(starts, rest, Some(li), k - 1);
            let r2 = distinct_lines(starts, rest, Some(li));
            assert(r == seq![li] + r2);
            if r2.contains(target) {
                let j = choose|j: int| 0 <= j < r2.len() && r2[j] == target;
                assert(r[j + 1] == target);
            } else {
                assert(r[0] == target);
            }
        }
    }
}

/// Substring search misses no line: for a needle without a line break, every
/// line that holds the start of an occurrence is reported, unless
/// `PER_FILE_MATCH_CAP` lines before it were reported already. Together with
/// `law_substring_hits_sound`, the reported lines are exactly the first lines
/// that hold an occurrence.
pub proof fn law_substring_hits_complete(
    path: Seq<char>,
    b: Seq<u8>,
    case_sensitive: bool,
    needle: Seq<u8>,
    off: int,
    li: int,
)
    requires
        needle.len() > 0,
        forall|k: int| 0 <= k < needle.len() ==> needle[k] != 10u8,
        matches_at(haystack_of(b, case_sensitive), needle, off),
        is_line_of(spec_line_starts(b), off, li),
    ensures
        ({
            let hits = substring_hits(path, b, haystack_of(b, case_sensitive), needle);
            ||| exists|k: int| 0 <= k < hits.len() && #[trigger] hits[k].line == li + 1
            ||| (hits.len() == PER_FILE_MATCH_CAP && forall|k: int|
                0 <= k < hits.len() ==> #[trigger] hits[k].line < li + 1)
        }),
{
    let h = haystack_of(b, case_sensitive);
    let starts = spec_line_starts(b);
    let occ = greedy_matches(h, needle, 0);
    lemma_line_starts(b);
    assert(h.len() == b.len());
    assert forall|p: int| 0 <= p < b.len() && b[p] == 10u8 implies h[p] == 10u8 by {
        if !case_sensitive {
            assert(h[p] == lower_byte(b[p]));
        }
    }
    lemma_greedy_covers(h, needle, 0, off);
    let k = choose|k: int| 0 <= k < occ.len() && #[trigger] occ[k] <= off < occ[k] + needle.len();
    let m = occ[k];
    lemma_greedy_matches_are_matches(h, needle, 0);
    assert(matches_at(h, needle, m));
    lemma_greedy_increasing(h, needle, 0);
    assert(0 <= m);
    lemma_line_of_exists(starts, m);
    let i = line_index(starts, m);
    lemma_occurrence_on_one_line(b, h, needle, m, off, i);
    crate::lines::lemma_line_of_unique(starts, off, i, li);
    lemma_distinct_lines_contain(starts, occ, None, k);
    let lines = distinct_lines(starts, occ, None);
    assert(lines.contains(li));
    let j = choose|j: int| 0 <= j < lines.len() && lines[j] == li;
    lemma_distinct_lines(starts, occ, None);
    let hits = substring_hits(path, b, h, needle);
    let kept = first_n(lines, PER_FILE_MATCH_CAP as int);
    if j < PER_FILE_MATCH_CAP {
        assert(kept[j] == lines[j]);
        assert(hits[j].line == li + 1);
    } else {
        assert(kept == lines.subrange(0, PER_FILE_MATCH_CAP as int));
        assert forall|q: int| 0 <= q < hits.len() implies #[trigger] hits[q].line < li + 1 by {
            assert(kept[q] == lines[q]);
            assert(lines[q] < lines[j]);
        }
    }
}

/// A trimmed string has no trailing white space.
pub proof fn lemma_trim_end(s: Seq<char>)
    ensures
        trim_end_chars(s).len() == 0 || !is_white_space(trim_end_chars(s).last()),
        trim_end_chars(s).len() <= s.len(),
    decreases s.len(),
{
    if s.len() > 0 && is_white_space(s.last()) {
        lemma_trim_end(s.drop_last());
    }
}

/// Every hit's text (substring or regex search) ends without white space, so
/// in particular without the `\r` of a CRLF line ending; line numbers start
/// at 1.
pub proof fn law_hit_text_trimmed(path: Seq<char>, b: Seq<u8>, hay: Seq<u8>, needle: Seq<u8>, pattern: Seq<char>)
    ensures
        forall|k: int|
            0 <= k < substring_hits(path, b, hay, needle).len() ==> {
                let t = (#[trigger] substring_hits(path, b, hay, needle)[k]).text;
                t.len() == 0 || !is_white_space(t.last())
            },
        forall|k: int|
            0 <= k < regex_hits(path, b, pattern).len() ==> {
                let h = #[trigger] regex_hits(path, b, pattern)[k];
                &&& h.line >= 1
                &&& h.text.len() == 0 || !is_white_space(h.text.last())
            },
{
    let starts = spec_line_starts(b);
    assert forall|k: int| 0 <= k < substring_hits(path, b, hay, needle).len() implies {
        let t = (#[trigger] substring_hits(path, b, hay, needle)[k]).text;
        t.len() == 0 || !is_white_space(t.last())
    } by {
        let lines = distinct_lines(starts, greedy_matches(hay, needle, 0), None);
        let li = first_n(lines, PER_FILE_MATCH_CAP as int)[k];
        let e = if li + 1 < starts.len() { starts[li + 1] } else { b.len() as int };
        lemma_trim_end(decode_utf8(b.subrange(starts[li], e)));
    }
    assert forall|k: int| 0 <= k < regex_hits(path, b, pattern).len() implies {
        let h = #[trigger] regex_hits(path, b, pattern)[k];
        &&& h.line >= 1
        &&& h.text.len() == 0 || !is_white_space(h.text.last())
    } by {
        let ml = regex_matching_lines(b, pattern, line_count(b));
        let j = first_n(ml, PER_FILE_MATCH_CAP as int)[k];
        lemma_matching_lines_nonneg(b, pattern, line_count(b));
        lemma_trim_end(line_content(b, j));
    }
}

/// Matching-line indices are non-negative.
proof fn lemma_matching_lines_nonneg(b: Seq<u8>, pattern: Seq<char>, n: int)
    ensures
        forall|k: int|
            0 <= k < regex_matching_lines(b, pattern, n).len() ==> #[trigger] regex_matching_lines(b, pattern, n)[k] >= 0,
    decreases n,
{
    if n > 0 {
        lemma_matching_lines_nonneg(b, pattern, n - 1);
        let prev = regex_matching_lines(b, pattern, n - 1);
        let cur = regex_matching_lines(b, pattern, n);
        assert forall|k: int| 0 <= k < cur.len() implies #[trigger] cur[k] >= 0 by {
            if k < prev.len() {
                assert(cur[k] == prev[k]);
            }
        }
    }
}

/// Incremental sync touches only what changed. A file that was given an
/// index entry is recorded at its modification time, so while its size and
/// modification time stay the same a sync finds it current and leaves it
/// alone; a file that is not recorded, or recorded at another modification
/// time, or now over the size limit, is indexed again.
pub proof fn law_sync_reindexes_only_changed(
    size: u64,
    mtime: u64,
    bytes: Seq<u8>,
    now_size: u64,
    now_mtime: u64,
    indexed: Option<u64>,
)
    ensures
        indexable(size, bytes) ==> file_is_current(size, mtime, Some(mtime)),
        file_is_current(now_size, now_mtime, indexed) <==> (indexed == Some(now_mtime)
            && now_size <= MAX_FILE_BYTES),
        indexed is None ==> !file_is_current(now_size, now_mtime, indexed),
        now_size > MAX_FILE_BYTES ==> !file_is_current(now_size, now_mtime, indexed),
{
}

/// A case-insensitive substring search does not depend on the case of the
/// ASCII letters of its query: two queries that agree after ASCII
/// lowercasing are both too short or both planned, with the same filter
/// literals and the same needle, so every file gives the same hits for both.
pub proof fn law_case_insensitive_query(q1: Seq<char>, q2: Seq<char>, path: Seq<char>, text: Seq<char>)
    requires
        lower_chars(q1) == lower_chars(q2),
    ensures
        q1.len() < 2 <==> q2.len() < 2,
        query_literals(q1) == query_literals(q2),
        needle_of(q1, false) == needle_of(q2, false),
        substring_hits(path, encode_utf8(text), haystack_of(encode_utf8(text), false), needle_of(q1, false))
            == substring_hits(path, encode_utf8(text), haystack_of(encode_utf8(text), false), needle_of(q2, false)),
{
    assert(q1.len() == lower_chars(q1).len());
    assert(q2.len() == lower_chars(q2).len());
    lemma_lower_encode(q1);
    lemma_lower_encode(q2);
}

/// Rebuilding an unchanged file gives the same index entry: the entry of a
/// file depends on its size, modification time, bytes and encoding alone, so
/// equal inputs are indexed (or skipped) alike, with the same modification
/// time and the same n-grams; and the file, recorded at its modification
/// time, is current for a following sync.
pub proof fn law_rebuild_same_entry(
    size: u64,
    mtime: u64,
    bytes: Seq<u8>,
    enc: TextEncoding,
    size2: u64,
    mtime2: u64,
    bytes2: Seq<u8>,
    enc2: TextEncoding,
)
    requires
        size2 == size,
        mtime2 == mtime,
        bytes2 == bytes,
        enc2 == enc,
    ensures
        indexable(size, bytes) == indexable(size2, bytes2),
        indexed_grams(enc, bytes) == indexed_grams(enc2, bytes2),
        indexable(size, bytes) ==> file_is_current(size2, mtime2, Some(mtime)),
{
}

/// The number that a string of decimal digits denotes.
pub open spec fn digits_value(s: Seq<char>) -> int
    decreases s.len(),
{
    if s.len() == 0 {
        0
    } else {
        digits_value(s.drop_last()) * 10 + ((s.last() as u32) - ('0' as u32))
    }
}

/// Every character is one of `0`..`9`.
pub open spec fn all_digits(s: Seq<char>) -> bool {
    forall|k: int| 0 <= k < s.len() ==> '0' <= #[trigger] s[k] && s[k] <= '9'
}

/// The numbers in result reports (line numbers, result counts) are written
/// in base 10: `decimal(n)` is a non-empty string of digits that denotes `n`,
/// with no leading zero unless `n` is 0.
pub proof fn law_decimal_numeral(n: nat)
    ensures
        decimal(n).len() >= 1,
        all_digits(decimal(n)),
        digits_value(decimal(n)) == n,
        decimal(n)[0] == '0' ==> n == 0 && decimal(n).len() == 1,
    decreases n,
{
    if n >= 10 {
        law_decimal_numeral(n / 10);
        let d = decimal(n / 10);
        let r = decimal(n);
        assert(r == d.push(digit_char(n % 10)));
        assert(r.drop_last() =~= d);
        assert(r[0] == d[0]);
        assert forall|k: int| 0 <= k < r.len() implies '0' <= #[trigger] r[k] && r[k] <= '9' by {
            if k < d.len() {
                assert(r[k] == d[k]);
            }
        }
        assert(n == (n / 10) * 10 + n % 10);
        assert((digit_char(n % 10) as u32) == ('0' as u32) + n % 10);
        assert(r.last() == digit_char(n % 10));
        assert(digits_value(r) == digits_value(d) * 10 + ((digit_char(n % 10) as u32) - ('0' as u32)));
    } else {
        let r = decimal(n);
        assert((digit_char(n) as u32) == ('0' as u32) + n);
        assert(r.drop_last() =~= Seq::<char>::empty());
        assert(digits_value(r) == digits_value(r.drop_last()) * 10 + ((r.last() as u32) - ('0' as u32)));
    }
}

/// The regex compiled for a search is the query itself when the search is
/// case-sensitive, and otherwise exactly the flag group `(?i)` followed by
/// the query, so that it matches a line exactly when the query does with
/// case ignored, and no other flag is set.
pub proof fn law_regex_source(query: Seq<char>)
    ensures
        regex_source(query, true) == query,
        regex_source(query, false) == "(?i)"@ + query,
        regex_source(query, false).len() == query.len() + 4,
        regex_source(query, false).subrange(4, query.len() as int + 4) == query,
{
    reveal_strlit("(?i)");
    assert(regex_source(query, false) =~= "(?i)"@ + query);
    assert(regex_source(query, false).subrange(4, query.len() as int + 4) =~= query);
}

/// Which files count as binary: a file within the size limit is indexed
/// unless a 0 byte occurs among its first 8192 bytes. A 0 byte there
/// always keeps it out, no other byte does (a byte-order mark, say), and the
/// bytes after the first 8192 play no part.
pub proof fn law_binary_detection(size: u64, bytes: Seq<u8>, other: Seq<u8>, i: int)
    ensures
        size <= MAX_FILE_BYTES && (forall|j: int| 0 <= j < bytes.len() && j < 8192 ==> bytes[j] != 0u8)
            ==> indexable(size, bytes),
        0 <= i < bytes.len() && i < 8192 && bytes[i] == 0u8 ==> !indexable(size, bytes),
        size > MAX_FILE_BYTES ==> !indexable(size, bytes),
        (other.len() >= 8192 && bytes.len() >= 8192 || other.len() == bytes.len()) && (forall|j: int|
            0 <= j < bytes.len() && j < 8192 ==> other[j] == bytes[j]) ==> indexable(size, other)
            == indexable(size, bytes),
{
    if (other.len() >= 8192 && bytes.len() >= 8192 || other.len() == bytes.len()) && (forall|j: int|
        0 <= j < bytes.len() && j < 8192 ==> other[j] == bytes[j]) {
        if nul_in_scan_window(other) {
            let j = choose|j: int| 0 <= j < other.len() && j < BINARY_SCAN_BYTES && other[j] == 0u8;
            assert(bytes[j] == 0u8);
        }
        if nul_in_scan_window(bytes) {
            let j = choose|j: int| 0 <= j < bytes.len() && j < BINARY_SCAN_BYTES && bytes[j] == 0u8;
            assert(other[j] == 0u8);
        }
    }
}

/// How many times the byte `x` occurs in `b`.
pub open spec fn count_byte(b: Seq<u8>, x: u8) -> nat
    decreases b.len(),
{
    if b.len() == 0 {
        0
    } else {
        count_byte(b.drop_last(), x) + if b.last() == x { 1nat } else { 0nat }
    }
}

/// One line break per `\n` byte; the last one is at the end exactly when
/// the text ends with `\n`.
proof fn lemma_line_breaks_count(b: Seq<u8>)
    ensures
        line_breaks(b).len() == count_byte(b, 10u8),
        b.len() > 0 && b.last() == 10u8 ==> line_breaks(b).len() > 0 && line_breaks(b).last() == b.len(),
        line_breaks(b).len() > 0 ==> line_breaks(b).last() <= b.len(),
        line_breaks(b).len() > 0 && line_breaks(b).last() == b.len() ==> b.last() == 10u8,
    decreases b.len(),
{
    if b.len() > 0 {
        lemma_line_breaks_count(b.drop_last());
        crate::lines::lemma_line_breaks(b);
    }
}

/// The lines that a regex search checks are those that `str::lines` yields:
/// one per `\n`, plus a last line that does not end in `\n`; empty text
/// has none.
pub proof fn law_line_count(b: Seq<u8>)
    ensures
        line_count(b) == count_byte(b, 10u8) + if b.len() > 0 && b.last() != 10u8 { 1int } else { 0int },
{
    lemma_line_breaks_count(b);
    let lb = line_breaks(b);
    let starts = spec_line_starts(b);
    assert(starts.len() == lb.len() + 1);
    if lb.len() > 0 {
        assert(starts.last() == lb.last());
    } else {
        assert(starts.last() == 0);
    }
}

/// The matching lines among the first `n` are increasing indices below `n`,
/// and every line below `n` that the pattern matches is among them.
proof fn lemma_matching_lines_all(b: Seq<u8>, pattern: Seq<char>, n: int, k: int)
    requires
        0 <= n,
    ensures
        forall|i: int, j: int|
            0 <= i < j < regex_matching_lines(b, pattern, n).len() ==> regex_matching_lines(b, pattern, n)[i]
                < regex_matching_lines(b, pattern, n)[j],
        forall|i: int|
            0 <= i < regex_matching_lines(b, pattern, n).len() ==> #[trigger] regex_matching_lines(b, pattern, n)[i]
                < n,
        0 <= k < n && regex_is_match(pattern, line_content(b, k)) ==> regex_matching_lines(b, pattern, n).contains(k),
    decreases n,
{
    if n > 0 {
        lemma_matching_lines_all(b, pattern, n - 1, k);
        let prev = regex_matching_lines(b, pattern, n - 1);
        let cur = regex_matching_lines(b, pattern, n);
        if regex_is_match(pattern, line_content(b, n - 1)) {
            assert(cur == prev.push(n - 1));
            assert forall|i: int| 0 <= i < cur.len() implies #[trigger] cur[i] < n by {
                if i < prev.len() {
                    assert(cur[i] == prev[i]);
                }
            }
            assert forall|i: int, j: int| 0 <= i < j < cur.len() implies cur[i] < cur[j] by {
                assert(cur[i] == prev[i]);
                if j < prev.len() {
                    assert(cur[j] == prev[j]);
                }
            }
            if 0 <= k < n && regex_is_match(pattern, line_content(b, k)) {
                if k == n - 1 {
                    assert(cur[cur.len() - 1] == k);
                } else {
                    let m = choose|m: int| 0 <= m < prev.len() && prev[m] == k;
                    assert(cur[m] == k);
                }
            }
        }
    }
}

/// Regex search misses no line: every line (as `str::lines` gives it) whose
/// content the regex matches is reported, unless `PER_FILE_MATCH_CAP` lines
/// before it were reported already.
pub proof fn law_regex_hits_complete(path: Seq<char>, b: Seq<u8>, pattern: Seq<char>, k: int)
    requires
        0 <= k < line_count(b),
        regex_is_match(pattern, line_content(b, k)),
    ensures
        ({
            let hits = regex_hits(path, b, pattern);
            ||| exists|j: int| 0 <= j < hits.len() && #[trigger] hits[j].line == k + 1
            ||| (hits.len() == PER_FILE_MATCH_CAP && forall|j: int|
                0 <= j < hits.len() ==> #[trigger] hits[j].line < k + 1)
        }),
{
    let n = line_count(b);
    lemma_matching_lines_all(b, pattern, n, k);
    let ml = regex_matching_lines(b, pattern, n);
    let j = choose|j: int| 0 <= j < ml.len() && ml[j] == k;
    let kept = first_n(ml, PER_FILE_MATCH_CAP as int);
    let hits = regex_hits(path, b, pattern);
    if j < PER_FILE_MATCH_CAP {
        assert(kept[j] == ml[j]);
        assert(hits[j].line == k + 1);
    } else {
        assert(kept == ml.subrange(0, PER_FILE_MATCH_CAP as int));
        assert forall|q: int| 0 <= q < hits.len() implies #[trigger] hits[q].line < k + 1 by {
            assert(kept[q] == ml[q]);
            assert(ml[q] < ml[j]);
        }
    }
}

/// A character that a required run may hold once lowercased: an ASCII
/// lowercase letter, digit or underscore, or a caseless non-ASCII character.
pub open spec fn is_lowered_run_char(c: char) -> bool {
    (is_word_char(c) && !('A' <= c && c <= 'Z')) || is_caseless_char(c)
}

/// `r` is a piece of `t` of at least two run characters.
pub open spec fn run_in(t: Seq<char>, r: Seq<char>) -> bool {
    &&& r.len() >= 2
    &&& exists|i: int| occurs_at(t, r, i)
    &&& forall|j: int| 0 <= j < r.len() ==> is_lowered_run_char(#[trigger] r[j])
}

/// Every run of `rs` is a piece of `t`.
pub open spec fn runs_in(t: Seq<char>, rs: Seq<Seq<char>>) -> bool {
    forall|k: int| 0 <= k < rs.len() ==> run_in(t, #[trigger] rs[k])
}

/// What holds of the scan state after reading `p`: the run in progress is the
/// end of the lowercased pattern read so far (and empty inside escapes,
/// comments, counts and classes), and every finished run is a piece of it.
pub open spec fn scan_ok(p: Seq<char>, st: LitScan) -> bool {
    &&& st.cur.len() <= p.len()
    &&& st.cur == lower_chars(p).subrange(p.len() - st.cur.len(), p.len() as int)
    &&& forall|j: int| 0 <= j < st.cur.len() ==> is_lowered_run_char(#[trigger] st.cur[j])
    &&& (st.esc || st.comment || st.brace || st.class > 0 || st.hex || st.name) ==> st.cur.len() == 0
    &&& runs_in(lower_chars(p), st.runs)
    &&& forall|b: int| 0 <= b < st.branches.len() ==> runs_in(lower_chars(p), #[trigger] st.branches[b])
}

/// Pieces of a text stay pieces when the text grows.
proof fn lemma_runs_in_push(t: Seq<char>, c: char, rs: Seq<Seq<char>>)
    requires
        runs_in(t, rs),
    ensures
        runs_in(t.push(c), rs),
{
    assert forall|k: int| 0 <= k < rs.len() implies run_in(t.push(c), #[trigger] rs[k]) by {
        let r = rs[k];
        assert(run_in(t, r));
        let i = choose|i: int| occurs_at(t, r, i);
        assert(t.push(c).subrange(i, i + r.len()) =~= t.subrange(i, i + r.len()));
        assert(occurs_at(t.push(c), r, i));
    }
}

/// The run in progress, or all of it but its last character, may be kept.
proof fn lemma_flush_in(p: Seq<char>, runs: Seq<Seq<char>>, cur: Seq<char>, keep: Seq<char>)
    requires
        runs_in(lower_chars(p), runs),
        cur.len() <= p.len(),
        cur == lower_chars(p).subrange(p.len() - cur.len(), p.len() as int),
        forall|j: int| 0 <= j < cur.len() ==> is_lowered_run_char(#[trigger] cur[j]),
        keep == cur || keep == drop_last_char(cur),
    ensures
        runs_in(lower_chars(p), flush_run(runs, keep)),
{
    let t = lower_chars(p);
    if keep.len() >= 2 {
        let i = p.len() - cur.len();
        assert(t.subrange(i, i + keep.len()) =~= keep);
        assert(occurs_at(t, keep, i));
        assert forall|j: int| 0 <= j < keep.len() implies is_lowered_run_char(#[trigger] keep[j]) by {
            assert(keep[j] == cur[j]);
        }
        assert(run_in(t, keep));
        let f = flush_run(runs, keep);
        assert forall|k: int| 0 <= k < f.len() implies run_in(t, #[trigger] f[k]) by {
            if k < runs.len() {
                assert(f[k] == runs[k]);
            }
        }
    }
}

/// `scan_ok` holds after every prefix of the pattern.
proof fn lemma_scan_ok(p: Seq<char>, fold: bool)
    ensures
        scan_ok(p, lit_scan(p, fold)),
    decreases p.len(),
{
    if p.len() == 0 {
        assert(lower_chars(p).subrange(0, 0) =~= Seq::<char>::empty());
    } else {
        let q = p.drop_last();
        let c = p.last();
        lemma_scan_ok(q, fold);
        let st = lit_scan(q, fold);
        let nst = lit_scan(p, fold);
        assert(nst == lit_step(st, c, fold));
        let tq = lower_chars(q);
        let tp = lower_chars(p);
        assert(tp =~= tq.push(lower_char(c)));
        lemma_runs_in_push(tq, lower_char(c), st.runs);
        assert forall|b: int| 0 <= b < st.branches.len() implies runs_in(tp, #[trigger] st.branches[b]) by {
            lemma_runs_in_push(tq, lower_char(c), st.branches[b]);
        }
        lemma_flush_in(q, st.runs, st.cur, st.cur);
        lemma_runs_in_push(tq, lower_char(c), flush_run(st.runs, st.cur));
        lemma_flush_in(q, st.runs, st.cur, drop_last_char(st.cur));
        lemma_runs_in_push(tq, lower_char(c), flush_run(st.runs, drop_last_char(st.cur)));
        lemma_runs_in_push(tq, lower_char(c), Seq::<Seq<char>>::empty());
        if nst.cur.len() == 0 {
            assert(tp.subrange(p.len() - 0, p.len() as int) =~= nst.cur);
        } else {
            assert(nst.cur == st.cur.push(lower_char(c)));
            assert(tp.subrange(p.len() - nst.cur.len(), p.len() as int) =~= nst.cur);
            assert forall|j: int| 0 <= j < nst.cur.len() implies is_lowered_run_char(#[trigger] nst.cur[j]) by {
                if j < st.cur.len() {
                    assert(nst.cur[j] == st.cur[j]);
                }
            }
        }
        assert forall|b: int| 0 <= b < nst.branches.len() implies runs_in(tp, #[trigger] nst.branches[b]) by {
            if b < st.branches.len() {
                assert(nst.branches[b] == st.branches[b]);
            }
        }
    }
}

/// Every run that a regex plan filters on is a piece of the lowercased
/// pattern itself, of at least two lowercase letters, digits, underscores
/// or caseless characters: a run never joins characters from both sides of
/// an escape, a class, a group, a repetition count or any other
/// metacharacter, and every filter gram of the plan is a piece of such a run.
pub proof fn law_required_runs_in_pattern(p: Seq<char>, fold: bool, b: int, k: int)
    requires
        0 <= b < required_runs(p, fold).len(),
        0 <= k < required_runs(p, fold)[b].len(),
    ensures
        required_runs(p, fold)[b][k].len() >= 2,
        exists|i: int| occurs_at(lower_chars(p), required_runs(p, fold)[b][k], i),
        forall|j: int|
            0 <= j < required_runs(p, fold)[b][k].len() ==> is_lowered_run_char(
                #[trigger] required_runs(p, fold)[b][k][j],
            ),
{
    lemma_scan_ok(p, fold);
    let st = lit_scan(p, fold);
    lemma_flush_in(p, st.runs, st.cur, st.cur);
    let rr = required_runs(p, fold);
    if b < st.branches.len() {
        assert(rr[b] == st.branches[b]);
    } else {
        assert(rr[b] == flush_run(st.runs, st.cur));
    }
    assert(run_in(lower_chars(p), rr[b][k]));
}

} // verus!
