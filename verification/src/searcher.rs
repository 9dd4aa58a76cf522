//! Turning a query into candidate-filter n-grams, and checking candidate files
//! line by line.
use vstd::prelude::*;
use std::collections::HashSet;
use vstd::string::StringSliceAdditionalSpecFns;
use vstd::utf8::{decode_utf8, encode_utf8_valid_utf8, is_char_boundary, valid_utf8};
use crate::lines::{
    find_line, increasing, is_line_of, lemma_line_starts, lemma_line_starts_boundaries,
    line_index, offsets_view, spec_line_starts, sub_str,
};
use crate::encoding::{decode, decoded_text, TextEncoding};
use crate::pattern::{regex_compiles, regex_is_match, CompiledRegex};
use vstd::std_specs::iter::IteratorSpec;
use vstd::utf8::encode_utf8;
use crate::ngram::{add_gram, gram_key, grams_only, is_trigram_of, key2, key3, keys_of, window};
use crate::text::{
    all_distinct, chars_of, ascii_lower_bytes, lower_chars, is_non_ascii, is_word_char, lower_char, non_ascii, ascii_lower,
    str_to_string, string_of_chars, strings_view, trim_end_chars, word_char, lower_bytes,
};

verus! {

/// Candidate sets are capped at this many documents.
pub const CANDIDATE_LIMIT: usize = 2000;

/// At most this many matching lines are reported per file.
pub const PER_FILE_MATCH_CAP: usize = 50;

/// A character that is literal in a regex pattern: an ASCII letter, digit or
/// underscore, or any non-ASCII character (never a regex metacharacter).
pub open spec fn is_literal_char(c: char) -> bool {
    is_word_char(c) || is_non_ascii(c)
}

/// Keeps the current run when it has at least two characters.
pub open spec fn flush_run(runs: Seq<Seq<char>>, cur: Seq<char>) -> Seq<Seq<char>> {
    if cur.len() >= 2 {
        runs.push(cur)
    } else {
        runs
    }
}

/// Scanning state after reading `p`: the finished runs and the run in progress.
pub open spec fn scan_runs(p: Seq<char>) -> (Seq<Seq<char>>, Seq<char>)
    decreases p.len(),
{
    if p.len() == 0 {
        (seq![], seq![])
    } else {
        let (runs, cur) = scan_runs(p.drop_last());
        let c = p.last();
        if is_literal_char(c) {
            (runs, cur.push(lower_char(c)))
        } else {
            (flush_run(runs, cur), seq![])
        }
    }
}

/// The lowercased maximal literal runs of length >= 2 in `p`, in order.
pub open spec fn literal_runs(p: Seq<char>) -> Seq<Seq<char>> {
    flush_run(scan_runs(p).0, scan_runs(p).1)
}

/// Extracts the lowercased literal runs from a regex pattern: maximal runs of
/// ASCII `[A-Za-z0-9_]` or non-ASCII characters, of at least two characters.
/// A pattern without such a run cannot use the index.
pub fn extract_literals(pattern: &str) -> (r: Vec<String>)
    ensures
        strings_view(r@) == literal_runs(pattern@),
{
    let cs = chars_of(pattern);
    let mut runs: Vec<String> = Vec::new();
    let mut cur: Vec<char> = Vec::new();
    let mut i: usize = 0;
    while i < cs.len()
        invariant
            cs@ == pattern@,
            i <= cs.len(),
            strings_view(runs@) == scan_runs(cs@.subrange(0, i as int)).0,
            cur@ == scan_runs(cs@.subrange(0, i as int)).1,
        decreases cs.len() - i,
    {
        let c = cs[i];
        let ghost p = cs@.subrange(0, i + 1);
        assert(p.drop_last() =~= cs@.subrange(0, i as int));
        if word_char(c) || non_ascii(c) {
            cur.push(ascii_lower(c));
        } else {
            if cur.len() >= 2 {
                let s = string_of_chars(&cur);
                runs.push(s);
                assert(strings_view(runs@) =~= scan_runs(p).0);
            }
            cur = Vec::new();
            assert(cur@ =~= scan_runs(p).1);
        }
        i = i + 1;
    }
    assert(cs@.subrange(0, cs@.len() as int) =~= cs@);
    if cur.len() >= 2 {
        let s = string_of_chars(&cur);
        runs.push(s);
        assert(strings_view(runs@) =~= literal_runs(pattern@));
    }
    runs
}

/// A non-ASCII character in a block without case (kana, CJK ideographs,
/// Hangul syllables, half-width katakana): no case-insensitive match can
/// replace it by another character.
pub open spec fn is_caseless_char(c: char) -> bool {
    let u = c as u32;
    ||| (0x3040 <= u && u <= 0x30ff)
    ||| (0x3400 <= u && u <= 0x4dbf)
    ||| (0x4e00 <= u && u <= 0x9fff)
    ||| (0xac00 <= u && u <= 0xd7a3)
    ||| (0xf900 <= u && u <= 0xfaff)
    ||| (0xff66 <= u && u <= 0xff9f)
}

/// `k` or `s` in either case: case-insensitive matching also takes them for
/// the KELVIN SIGN and the LONG S, which ASCII lowercasing leaves as they are.
pub open spec fn is_folding_letter(c: char) -> bool {
    c == 'k' || c == 'K' || c == 's' || c == 'S'
}

/// A character that a required run may hold: an ASCII letter, digit or
/// underscore (but not `k` or `s` when matching ignores case), or a caseless
/// non-ASCII character.
pub open spec fn is_required_char(c: char, fold: bool) -> bool {
    (is_word_char(c) && !(fold && is_folding_letter(c))) || is_caseless_char(c)
}

/// An ASCII hexadecimal digit.
pub open spec fn is_hex_char(c: char) -> bool {
    ('0' <= c && c <= '9') || ('a' <= c && c <= 'f') || ('A' <= c && c <= 'F')
}

/// `s` without its last character (unchanged when empty).
pub open spec fn drop_last_char(s: Seq<char>) -> Seq<char> {
    if s.len() == 0 {
        s
    } else {
        s.drop_last()
    }
}

/// The state of a left-to-right scan of a regex pattern for the literal runs
/// that every match of one of its top-level alternatives contains.
pub struct LitScan {
    /// The runs of the finished top-level alternatives.
    pub branches: Seq<Seq<Seq<char>>>,
    /// Finished runs of the current alternative.
    pub runs: Seq<Seq<char>>,
    /// The run in progress (lowercased).
    pub cur: Seq<char>,
    /// Open groups.
    pub depth: nat,
    /// Open character classes.
    pub class: nat,
    /// Just after `[` (or `[^`), where `]` is a member, not the end.
    pub class_start: bool,
    /// Just after a backslash.
    pub esc: bool,
    /// Skipping the hex digits of a `\x`, `\u` or `\U` escape.
    pub hex: bool,
    /// Just after `\p` or `\P`: a class name follows.
    pub name: bool,
    /// Inside `{...}`.
    pub brace: bool,
    /// After a `#` (a comment in verbose mode), up to the line's end.
    pub comment: bool,
}

/// The scan state before any character.
pub open spec fn lit_start() -> LitScan {
    LitScan {
        branches: seq![],
        runs: seq![],
        cur: seq![],
        depth: 0,
        class: 0,
        class_start: false,
        esc: false,
        hex: false,
        name: false,
        brace: false,
        comment: false,
    }
}

/// One step of the scan. Outside groups and classes, a required character
/// extends the current run; a character followed by `?`, `*` or `{` is
/// optional and leaves the run; escapes, classes, groups, repetition counts
/// and everything after `#` break runs and add nothing; a `|` outside any
/// group ends the current alternative.
pub open spec fn lit_step(st: LitScan, c: char, fold: bool) -> LitScan {
    if st.esc {
        LitScan { esc: false, hex: c == 'x' || c == 'u' || c == 'U', name: c == 'p' || c == 'P', ..st }
    } else if st.comment {
        LitScan { comment: c != '\n', ..st }
    } else if st.brace {
        LitScan { brace: c != '}', ..st }
    } else if st.class > 0 {
        if c == '\\' {
            LitScan { esc: true, class_start: false, ..st }
        } else if c == '[' {
            LitScan { class: st.class + 1, class_start: true, ..st }
        } else if c == ']' && !st.class_start {
            LitScan { class: (st.class - 1) as nat, ..st }
        } else if c == '^' && st.class_start {
            st
        } else {
            LitScan { class_start: false, ..st }
        }
    } else if st.hex && is_hex_char(c) {
        st
    } else if st.name && c != '{' {
        LitScan { hex: false, name: false, ..st }
    } else {
        let s = LitScan { hex: false, name: false, ..st };
        let f = LitScan { runs: flush_run(s.runs, s.cur), cur: seq![], ..s };
        if c == '\\' {
            LitScan { esc: true, ..f }
        } else if c == '[' {
            LitScan { class: 1, class_start: true, ..f }
        } else if c == '(' {
            LitScan { depth: s.depth + 1, ..f }
        } else if c == ')' {
            LitScan { depth: if s.depth > 0 { (s.depth - 1) as nat } else { 0 }, ..f }
        } else if c == '|' && s.depth == 0 {
            LitScan { branches: s.branches.push(f.runs), runs: seq![], ..f }
        } else if c == '#' {
            LitScan { comment: true, ..f }
        } else if c == '{' {
            LitScan { runs: flush_run(s.runs, drop_last_char(s.cur)), cur: seq![], brace: true, ..s }
        } else if c == '?' || c == '*' {
            LitScan { runs: flush_run(s.runs, drop_last_char(s.cur)), cur: seq![], ..s }
        } else if is_required_char(c, fold) && s.depth == 0 {
            LitScan { cur: s.cur.push(lower_char(c)), ..s }
        } else {
            f
        }
    }
}

/// The scan state after reading `p`.
pub open spec fn lit_scan(p: Seq<char>, fold: bool) -> LitScan
    decreases p.len(),
{
    if p.len() == 0 {
        lit_start()
    } else {
        lit_step(lit_scan(p.drop_last(), fold), p.last(), fold)
    }
}

/// For each top-level alternative of the pattern, the lowercased literal runs
/// of at least two characters that every match of it contains, in order.
/// With `fold` (case-insensitive matching) no run holds `k` or `s`.
pub open spec fn required_runs(p: Seq<char>, fold: bool) -> Seq<Seq<Seq<char>>> {
    let st = lit_scan(p, fold);
    st.branches.push(flush_run(st.runs, st.cur))
}

/// Moves the current run to `runs` when it has at least two characters, and
/// empties it.
fn flush_cur(runs: &mut Vec<String>, cur: &mut Vec<char>)
    ensures
        strings_view(final(runs)@) == flush_run(strings_view(old(runs)@), old(cur)@),
        final(cur)@ == Seq::<char>::empty(),
{
    if cur.len() >= 2 {
        let s = string_of_chars(cur.as_slice());
        let ghost prev = runs@;
        runs.push(s);
        assert(strings_view(runs@) =~= strings_view(prev).push(s@));
    }
    *cur = Vec::new();
}

/// Whether `c` may stand in a required run (see `is_required_char`).
fn required_char(c: char, fold: bool) -> (r: bool)
    ensures
        r == is_required_char(c, fold),
{
    let u = c as u32;
    let caseless = (0x3040 <= u && u <= 0x30ff) || (0x3400 <= u && u <= 0x4dbf) || (0x4e00 <= u && u
        <= 0x9fff) || (0xac00 <= u && u <= 0xd7a3) || (0xf900 <= u && u <= 0xfaff) || (0xff66 <= u
        && u <= 0xff9f);
    let folding = c == 'k' || c == 'K' || c == 's' || c == 'S';
    (word_char(c) && !(fold && folding)) || caseless
}

/// The views of a sequence of string lists.
pub open spec fn string_lists_view(v: Seq<Vec<String>>) -> Seq<Seq<Seq<char>>> {
    v.map_values(|w: Vec<String>| strings_view(w@))
}

/// For each top-level alternative of a regex pattern, the lowercased literal
/// runs that every match of it contains: maximal runs of ASCII
/// `[A-Za-z0-9_]` or caseless non-ASCII characters, of at least two
/// characters, outside groups, classes, escapes, repetition counts and
/// comments, each without a last character that `?`, `*` or `{` makes
/// optional. With `fold` (case-insensitive matching), `k` and `s` break runs.
/// Each such run is contiguous in any match of its alternative, so its
/// n-grams can pre-filter.
pub fn required_literals(pattern: &str, fold: bool) -> (r: Vec<Vec<String>>)
    ensures
        string_lists_view(r@) == required_runs(pattern@, fold),
{
    let cs = chars_of(pattern);
    let mut branches: Vec<Vec<String>> = Vec::new();
    let mut runs: Vec<String> = Vec::new();
    let mut cur: Vec<char> = Vec::new();
    let mut depth: usize = 0;
    let mut class: usize = 0;
    let mut class_start = false;
    let mut esc = false;
    let mut hex = false;
    let mut name = false;
    let mut brace = false;
    let mut comment = false;
    let mut i: usize = 0;
    while i < cs.len()
        invariant
            cs@ == pattern@,
            i <= cs.len(),
            depth <= i,
            class <= i,
            lit_scan(cs@.subrange(0, i as int), fold).branches == string_lists_view(branches@),
            lit_scan(cs@.subrange(0, i as int), fold).runs == strings_view(runs@),
            lit_scan(cs@.subrange(0, i as int), fold).cur == cur@,
            lit_scan(cs@.subrange(0, i as int), fold).depth == depth as nat,
            lit_scan(cs@.subrange(0, i as int), fold).class == class as nat,
            lit_scan(cs@.subrange(0, i as int), fold).class_start == class_start,
            lit_scan(cs@.subrange(0, i as int), fold).esc == esc,
            lit_scan(cs@.subrange(0, i as int), fold).hex == hex,
            lit_scan(cs@.subrange(0, i as int), fold).name == name,
            lit_scan(cs@.subrange(0, i as int), fold).brace == brace,
            lit_scan(cs@.subrange(0, i as int), fold).comment == comment,
        decreases cs.len() - i,
    {
        let c = cs[i];
        let ghost p = cs@.subrange(0, i + 1);
        assert(p.drop_last() =~= cs@.subrange(0, i as int));
        assert(p.last() == c);
        let ghost before = lit_scan(cs@.subrange(0, i as int), fold);
        assert(lit_scan(p, fold) == lit_step(before, c, fold));
        if esc {
            esc = false;
            hex = c == 'x' || c == 'u' || c == 'U';
            name = c == 'p' || c == 'P';
        } else if comment {
            comment = c != '\n';
        } else if brace {
            brace = c != '}';
        } else if class > 0 {
            if c == '\\' {
                esc = true;
                class_start = false;
            } else if c == '[' {
                class = class + 1;
                class_start = true;
            } else if c == ']' && !class_start {
                class = class - 1;
            } else if c == '^' && class_start {
            } else {
                class_start = false;
            }
        } else if hex && (('0' <= c && c <= '9') || ('a' <= c && c <= 'f') || ('A' <= c && c <= 'F')) {
        } else if name && c != '{' {
            hex = false;
            name = false;
        } else {
            hex = false;
            name = false;
            if c == '\\' {
                flush_cur(&mut runs, &mut cur);
                esc = true;
            } else if c == '[' {
                flush_cur(&mut runs, &mut cur);
                class = 1;
                class_start = true;
            } else if c == '(' {
                flush_cur(&mut runs, &mut cur);
                depth = depth + 1;
            } else if c == ')' {
                flush_cur(&mut runs, &mut cur);
                if depth > 0 {
                    depth = depth - 1;
                }
            } else if c == '|' && depth == 0 {
                flush_cur(&mut runs, &mut cur);
                let ghost prev_b = branches@;
                let mut done: Vec<String> = Vec::new();
                std::mem::swap(&mut done, &mut runs);
                branches.push(done);
                assert(string_lists_view(branches@) =~= string_lists_view(prev_b).push(strings_view(done@)));
                assert(strings_view(runs@) =~= Seq::<Seq<char>>::empty());
            } else if c == '#' {
                flush_cur(&mut runs, &mut cur);
                comment = true;
            } else if c == '{' || c == '?' || c == '*' {
                let ghost old_cur = cur@;
                if cur.len() > 0 {
                    cur.pop();
                }
                assert(cur@ =~= drop_last_char(old_cur));
                flush_cur(&mut runs, &mut cur);
                brace = c == '{';
            } else if required_char(c, fold) && depth == 0 {
                cur.push(ascii_lower(c));
            } else {
                flush_cur(&mut runs, &mut cur);
            }
        }
        i = i + 1;
    }
    assert(cs@.subrange(0, cs@.len() as int) =~= cs@);
    flush_cur(&mut runs, &mut cur);
    let ghost prev_b = branches@;
    branches.push(runs);
    assert(string_lists_view(branches@) =~= string_lists_view(prev_b).push(strings_view(runs@)));
    branches
}

/// Whether the pattern opens a group with `(?`, which may set inline flags
/// such as `i`.
pub open spec fn has_flag_group(p: Seq<char>) -> bool {
    exists|j: int| 0 <= j && j + 1 < p.len() && p[j] == '(' && #[trigger] p[j + 1] == '?'
}

/// Whether `pattern` holds `(?` (see `has_flag_group`).
pub fn flag_group(pattern: &str) -> (r: bool)
    ensures
        r == has_flag_group(pattern@),
{
    let cs = chars_of(pattern);
    let mut j: usize = 0;
    while j < cs.len()
        invariant
            cs@ == pattern@,
            j <= cs.len(),
            forall|k: int| 0 <= k < j && k + 1 < cs@.len() ==> !(cs@[k] == '(' && #[trigger] cs@[k + 1] == '?'),
        decreases cs.len() - j,
    {
        if j + 1 < cs.len() && cs[j] == '(' && cs[j + 1] == '?' {
            return true;
        }
        j = j + 1;
    }
    false
}

/// `g` is a filter gram of the literal `s`: the whole of a 2-char literal, or a
/// trigram of a longer one.
pub open spec fn is_filter_gram_of(s: Seq<char>, g: Seq<char>) -> bool {
    if s.len() == 2 {
        g == s
    } else {
        is_trigram_of(s, g)
    }
}

/// `g` is a filter gram of one of the literals.
pub open spec fn is_filter_gram(strs: Seq<Seq<char>>, g: Seq<char>) -> bool {
    exists|k: int| 0 <= k < strs.len() && is_filter_gram_of(#[trigger] strs[k], g)
}

/// `g` is the trigram of `s` starting before `n`.
pub open spec fn trigram_before(s: Seq<char>, n: int, g: Seq<char>) -> bool {
    g.len() == 3 && exists|j: int| 0 <= j < n && #[trigger] window(s, j, 3) == g
}

/// The views of a sequence of string slices.
pub open spec fn strs_view(v: Seq<&str>) -> Seq<Seq<char>> {
    v.map_values(|s: &str| s@)
}

/// The distinct candidate-filter n-grams for a set of literals: a 2-char
/// literal contributes its bigram, a longer literal its trigrams, and 0/1-char
/// literals nothing. These are terms that `distinct_ngrams` stores.
pub fn ngrams_of(strs: &[&str]) -> (r: Vec<String>)
    ensures
        all_distinct(strings_view(r@)),
        forall|g: Seq<char>| strings_view(r@).contains(g) <==> is_filter_gram(strs_view(strs@), g),
{
    let mut seen: HashSet<u64> = HashSet::new();
    let mut out: Vec<String> = Vec::new();
    assert(seen@ =~= keys_of(strings_view(out@)));
    let ghost sv = strs_view(strs@);
    let mut k: usize = 0;
    while k < strs.len()
        invariant
            sv == strs_view(strs@),
            k <= strs.len(),
            all_distinct(strings_view(out@)),
            grams_only(strings_view(out@)),
            seen@ == keys_of(strings_view(out@)),
            forall|g: Seq<char>|
                strings_view(out@).contains(g) <==> is_filter_gram(sv.subrange(0, k as int), g),
        decreases strs.len() - k,
    {
        let cs = chars_of(strs[k]);
        let ghost before = strings_view(out@);
        let ghost s = sv[k as int];
        assert(cs@ == s);
        if cs.len() == 2 {
            let pair = [cs[0], cs[1]];
            assert(pair@ =~= cs@);
            let key = key2(cs[0], cs[1]);
            add_gram(&mut out, &mut seen, &pair, key);
            assert forall|g: Seq<char>|
                strings_view(out@).contains(g) <==> (before.contains(g) || is_filter_gram_of(s, g)) by {
            }
        } else {
            let mut i: usize = 0;
            while cs.len() >= 3 && i <= cs.len() - 3
                invariant
                    cs@ == s,
                    i == 0 || i + 2 <= cs.len(),
                    s.len() != 2,
                    all_distinct(strings_view(out@)),
                    grams_only(strings_view(out@)),
                    seen@ == keys_of(strings_view(out@)),
                    forall|g: Seq<char>|
                        #![trigger strings_view(out@).contains(g)]
                        #![trigger trigram_before(s, i as int, g)]
                        strings_view(out@).contains(g) <==> (before.contains(g) || trigram_before(s, i as int, g)),
                decreases cs.len() - i,
            {
                let triple = [cs[i], cs[i + 1], cs[i + 2]];
                assert(triple@ =~= window(s, i as int, 3));
                let key = key3(cs[i], cs[i + 1], cs[i + 2]);
                let ghost mid = strings_view(out@);
                add_gram(&mut out, &mut seen, &triple, key);
                let ghost old_i = i as int;
                i = i + 1;
                assert forall|g: Seq<char>|
                    strings_view(out@).contains(g) <==> (before.contains(g) || trigram_before(s, i as int, g)) by {
                    if g == triple@ {
                        assert(window(s, old_i, 3) == g);
                    }
                    if mid.contains(g) && !before.contains(g) {
                        let j = choose|j: int| 0 <= j < old_i && #[trigger] window(s, j, 3) == g;
                        assert(window(s, j, 3) == g);
                    }
                    if trigram_before(s, i as int, g) {
                        let j = choose|j: int| 0 <= j < i && #[trigger] window(s, j, 3) == g;
                        if j < old_i {
                            assert(trigram_before(s, old_i, g));
                            assert(mid.contains(g));
                        } else {
                            assert(g == triple@);
                        }
                    }
                }
            }
            assert forall|g: Seq<char>|
                trigram_before(s, i as int, g) <==> is_trigram_of(s, g) by {
                if is_trigram_of(s, g) {
                    let j = choose|j: int| 0 <= j && j + 3 <= s.len() && #[trigger] window(s, j, 3) == g;
                    assert(j < i);
                }
            }
            assert forall|g: Seq<char>|
                strings_view(out@).contains(g) <==> (before.contains(g) || is_filter_gram_of(s, g)) by {
            }
        }
        assert forall|g: Seq<char>|
            strings_view(out@).contains(g) <==> is_filter_gram(sv.subrange(0, k + 1), g) by {
            let p0 = sv.subrange(0, k as int);
            let p1 = sv.subrange(0, k + 1);
            if is_filter_gram(p1, g) {
                let m = choose|m: int| 0 <= m < p1.len() && is_filter_gram_of(#[trigger] p1[m], g);
                if m < k {
                    assert(p0[m] == p1[m]);
                    assert(is_filter_gram(p0, g));
                }
            }
            if is_filter_gram(p0, g) {
                let m = choose|m: int| 0 <= m < p0.len() && is_filter_gram_of(#[trigger] p0[m], g);
                assert(p0[m] == p1[m]);
            }
            if is_filter_gram_of(s, g) {
                assert(p1[k as int] == s);
            }
        }
        k = k + 1;
    }
    assert(sv.subrange(0, strs@.len() as int) =~= sv);
    out
}

/// Byte offsets at which lines start: 0 and every offset just after a `\n`.
pub fn line_starts(bytes: &[u8]) -> (r: Vec<usize>)
    ensures
        offsets_view(r@) == spec_line_starts(bytes@),
{
    let mut v: Vec<usize> = Vec::new();
    v.push(0);
    let mut i: usize = 0;
    while i < bytes.len()
        invariant
            i <= bytes.len(),
            offsets_view(v@) == spec_line_starts(bytes@.subrange(0, i as int)),
        decreases bytes.len() - i,
    {
        let ghost p = bytes@.subrange(0, i + 1);
        assert(p.drop_last() =~= bytes@.subrange(0, i as int));
        let ghost before = v@;
        assert(p.last() == bytes@[i as int]);
        if bytes[i] == 10u8 {
            v.push(i + 1);
            assert(offsets_view(v@) =~= offsets_view(before).push(i + 1));
        }
        i = i + 1;
        assert(offsets_view(v@) =~= spec_line_starts(p));
    }
    assert(bytes@.subrange(0, bytes@.len() as int) =~= bytes@);
    v
}

} // verus!

verus! {

/// One matching line: the file, the 1-based line number and the line's text
/// without trailing white space.
#[derive(Clone)]
pub struct Hit {
    pub file: String,
    pub line: usize,
    pub text: String,
}

/// The mathematical value of a `Hit`.
pub struct HitView {
    pub file: Seq<char>,
    pub line: int,
    pub text: Seq<char>,
}

impl View for Hit {
    type V = HitView;

    open spec fn view(&self) -> HitView {
        HitView { file: self.file@, line: self.line as int, text: self.text@ }
    }
}

/// The views of a sequence of hits.
pub open spec fn hits_view(v: Seq<Hit>) -> Seq<HitView> {
    v.map_values(|h: Hit| h@)
}

/// The first `n` entries of `s` (all of `s` when it is shorter).
pub open spec fn first_n<T>(s: Seq<T>, n: int) -> Seq<T> {
    if s.len() <= n {
        s
    } else {
        s.subrange(0, n)
    }
}

/// `n` occurs in `h` at offset `i`.
pub open spec fn matches_at(h: Seq<u8>, n: Seq<u8>, i: int) -> bool {
    0 <= i && i + n.len() <= h.len() && h.subrange(i, i + n.len()) == n
}

/// Offsets of the leftmost non-overlapping occurrences of `n` in `h` at or
/// after `pos`: after a match at `i` the scan resumes at `i + n.len()` (or
/// `i + 1` for an empty needle).
pub open spec fn greedy_matches(h: Seq<u8>, n: Seq<u8>, pos: int) -> Seq<int>
    decreases h.len() + 1 - pos,
{
    if pos < 0 || pos + n.len() > h.len() {
        seq![]
    } else if matches_at(h, n, pos) {
        seq![pos] + greedy_matches(h, n, pos + if n.len() == 0 { 1 } else { n.len() as int })
    } else {
        greedy_matches(h, n, pos + 1)
    }
}

/// All non-overlapping occurrences of `needle` in `haystack`, leftmost first
/// (`memchr::memmem::find_iter`, collected).
#[verifier::external_body]
fn find_all(haystack: &[u8], needle: &[u8]) -> (r: Vec<usize>)
    ensures
        offsets_view(r@) == greedy_matches(haystack@, needle@, 0),
{
    memchr::memmem::find_iter(haystack, needle).collect()
}

/// Lines of the given match offsets, skipping a line equal to the previous one.
pub open spec fn distinct_lines(starts: Seq<int>, occ: Seq<int>, last: Option<int>) -> Seq<int>
    decreases occ.len(),
{
    if occ.len() == 0 {
        seq![]
    } else {
        let li = line_index(starts, occ[0]);
        if last == Some(li) {
            distinct_lines(starts, occ.drop_first(), last)
        } else {
            seq![li] + distinct_lines(starts, occ.drop_first(), Some(li))
        }
    }
}

/// The byte offset where line `li` ends (just after its `\n`, or the end).
pub open spec fn line_end(starts: Seq<int>, len: int, li: int) -> int {
    if li + 1 < starts.len() {
        starts[li + 1]
    } else {
        len
    }
}

/// The hit reported for line `li` of the UTF-8 bytes `b`.
pub open spec fn line_hit(path: Seq<char>, b: Seq<u8>, li: int) -> HitView {
    let starts = spec_line_starts(b);
    HitView {
        file: path,
        line: li + 1,
        text: trim_end_chars(decode_utf8(b.subrange(starts[li], line_end(starts, b.len() as int, li)))),
    }
}

/// Hits of a substring search: the lines (of `b`) holding the start of a
/// non-overlapping occurrence of `needle` in `hay`, each once, at most
/// `PER_FILE_MATCH_CAP` of them.
pub open spec fn substring_hits(path: Seq<char>, b: Seq<u8>, hay: Seq<u8>, needle: Seq<u8>) -> Seq<HitView> {
    let lines = distinct_lines(spec_line_starts(b), greedy_matches(hay, needle, 0), None);
    first_n(lines, PER_FILE_MATCH_CAP as int).map_values(|li: int| line_hit(path, b, li))
}

/// The bytes searched for a needle: the text's UTF-8 bytes, ASCII-lowercased
/// unless the search is case-sensitive.
pub open spec fn haystack_of(b: Seq<u8>, case_sensitive: bool) -> Seq<u8> {
    if case_sensitive {
        b
    } else {
        lower_bytes(b)
    }
}

/// Checks one decoded file for `needle`: reports each line holding the start
/// of an occurrence once, in order, up to `PER_FILE_MATCH_CAP` lines.
pub fn verify_substring(path: &str, text: &str, needle: &[u8], case_sensitive: bool) -> (r: Vec<Hit>)
    ensures
        hits_view(r@) == substring_hits(path@, text.spec_bytes(), haystack_of(text.spec_bytes(), case_sensitive), needle@),
{
    let orig: &[u8] = text.as_bytes();
    let ghost b = orig@;
    proof {
        encode_utf8_valid_utf8(text@);
        lemma_line_starts(b);
        lemma_line_starts_boundaries(b);
    }
    let lowered = if case_sensitive { Vec::new() } else { crate::text::ascii_lower_bytes(orig) };
    let hay: &[u8] = if case_sensitive { orig } else { lowered.as_slice() };
    assert(hay@ == haystack_of(b, case_sensitive));
    let occ = find_all(hay, needle);
    let starts = line_starts(orig);
    let ghost sv = offsets_view(starts@);
    let ghost ov = offsets_view(occ@);
    let ghost all = distinct_lines(sv, ov, None);
    let ghost mut done: Seq<int> = seq![];
    let ghost mut last_g: Option<int> = None;
    let mut last: Option<usize> = None;
    let mut out: Vec<Hit> = Vec::new();
    let mut q: usize = 0;
    assert(ov.subrange(0, ov.len() as int) =~= ov);
    while q < occ.len() && out.len() < PER_FILE_MATCH_CAP
        invariant
            b == orig@,
            b == text.spec_bytes(),
            valid_utf8(b),
            sv == offsets_view(starts@),
            sv == spec_line_starts(b),
            sv.len() >= 1,
            sv[0] == 0,
            increasing(sv),
            forall|k: int| 0 <= k < sv.len() ==> 0 <= #[trigger] sv[k] <= b.len(),
            forall|k: int| 0 <= k < sv.len() ==> is_char_boundary(b, #[trigger] sv[k]),
            ov == offsets_view(occ@),
            all == distinct_lines(sv, ov, None),
            q <= occ.len(),
            done + distinct_lines(sv, ov.subrange(q as int, ov.len() as int), last_g) == all,
            out.len() == done.len(),
            out.len() <= PER_FILE_MATCH_CAP,
            hits_view(out@) == done.map_values(|li: int| line_hit(path@, b, li)),
            last_g == (match last {
                Some(x) => Some(x as int),
                None => None::<int>,
            }),
        decreases occ.len() - q,
    {
        let off = occ[q];
        let li = find_line(starts.as_slice(), off);
        let ghost rest = ov.subrange(q as int, ov.len() as int);
        assert(rest[0] == off as int);
        assert(rest.drop_first() =~= ov.subrange(q + 1, ov.len() as int));
        let same = match last {
            Some(x) => x == li,
            None => false,
        };
        if same {
            q = q + 1;
        } else {
            let s = starts[li];
            let e = if li < starts.len() - 1 { starts[li + 1] } else { orig.len() };
            assert(sv[li as int] == s as int);
            assert(is_char_boundary(b, e as int)) by {
                vstd::utf8::is_char_boundary_start_end_of_seq(b);
                if li + 1 < starts.len() {
                    assert(sv[li + 1] == e as int);
                }
            }
            assert(s <= e) by {
                if li + 1 < starts.len() {
                    assert(sv[li as int] < sv[li + 1]);
                }
            }
            let piece = sub_str(text, s, e);
            let line_text = crate::text::trim_end_string(piece);
            let h = Hit { file: str_to_string(path), line: li + 1, text: line_text };
            let ghost prev_out = out@;
            let ghost prev_done = done;
            out.push(h);
            proof {
                let lv = li as int;
                assert(line_hit(path@, b, lv) == h@);
                assert(hits_view(out@) =~= hits_view(prev_out).push(h@));
                assert(prev_done.push(lv).map_values(|li: int| line_hit(path@, b, li)) =~= prev_done.map_values(
                    |li: int| line_hit(path@, b, li),
                ).push(line_hit(path@, b, lv)));
                done = done.push(lv);
                last_g = Some(lv);
                assert(hits_view(out@) =~= done.map_values(|li: int| line_hit(path@, b, li)));
            }
            last = Some(li);
            q = q + 1;
        }
    }
    proof {
        if q == occ.len() {
            assert(ov.subrange(q as int, ov.len() as int) =~= Seq::<int>::empty());
            assert(done =~= all);
        } else {
            assert(done.len() == PER_FILE_MATCH_CAP);
            assert(all.subrange(0, PER_FILE_MATCH_CAP as int) =~= done);
        }
        assert(first_n(all, PER_FILE_MATCH_CAP as int) == done);
    }
    out
}

} // verus!

verus! {

/// Number of lines of `b` in the sense of `str::lines`: a final line ending
/// does not start another line, and empty text has no lines.
pub open spec fn line_count(b: Seq<u8>) -> int {
    let starts = spec_line_starts(b);
    if starts.last() == b.len() {
        starts.len() - 1
    } else {
        starts.len() as int
    }
}

/// Where the content of line `k` ends: before its `\n`, and before a `\r`
/// just ahead of that `\n`; the last line runs to the end of the text.
pub open spec fn line_content_end(b: Seq<u8>, k: int) -> int {
    let starts = spec_line_starts(b);
    if k + 1 < starts.len() {
        let nl = starts[k + 1] - 1;
        if nl > starts[k] && b[nl - 1] == 13u8 {
            nl - 1
        } else {
            nl
        }
    } else {
        b.len() as int
    }
}

/// The characters of line `k` without its line ending (as `str::lines` gives it).
pub open spec fn line_content(b: Seq<u8>, k: int) -> Seq<char> {
    decode_utf8(b.subrange(spec_line_starts(b)[k], line_content_end(b, k)))
}

/// The indices, among the first `k` lines, of lines that `pattern` matches.
pub open spec fn regex_matching_lines(b: Seq<u8>, pattern: Seq<char>, k: int) -> Seq<int>
    decreases k,
{
    if k <= 0 {
        seq![]
    } else {
        let prev = regex_matching_lines(b, pattern, k - 1);
        if regex_is_match(pattern, line_content(b, k - 1)) {
            prev.push(k - 1)
        } else {
            prev
        }
    }
}

/// Hits of a regex search over one file: the matching lines, at most
/// `PER_FILE_MATCH_CAP` of them, each with its trimmed text.
pub open spec fn regex_hits(path: Seq<char>, b: Seq<u8>, pattern: Seq<char>) -> Seq<HitView> {
    first_n(regex_matching_lines(b, pattern, line_count(b)), PER_FILE_MATCH_CAP as int).map_values(
        |k: int| HitView { file: path, line: k + 1, text: trim_end_chars(line_content(b, k)) },
    )
}

/// Matching lines among fewer lines are a prefix of those among more.
pub proof fn lemma_matching_lines_prefix(b: Seq<u8>, pattern: Seq<char>, k: int, m: int)
    requires
        0 <= k <= m,
    ensures
        regex_matching_lines(b, pattern, k).len() <= regex_matching_lines(b, pattern, m).len(),
        regex_matching_lines(b, pattern, k) == regex_matching_lines(b, pattern, m).subrange(
            0,
            regex_matching_lines(b, pattern, k).len() as int,
        ),
    decreases m - k,
{
    if k < m {
        lemma_matching_lines_prefix(b, pattern, k, m - 1);
        let a = regex_matching_lines(b, pattern, k);
        let c = regex_matching_lines(b, pattern, m - 1);
        let d = regex_matching_lines(b, pattern, m);
        assert(d.subrange(0, c.len() as int) =~= c);
        assert(d.subrange(0, a.len() as int) =~= c.subrange(0, a.len() as int));
    } else {
        let a = regex_matching_lines(b, pattern, k);
        assert(a.subrange(0, a.len() as int) =~= a);
    }
}

/// The indices of the accepted lines, in order: `m[k]` tells whether line `k`
/// was accepted.
pub open spec fn accepted_lines(m: Seq<bool>) -> Seq<int>
    decreases m.len(),
{
    if m.len() == 0 {
        seq![]
    } else {
        let p = accepted_lines(m.drop_last());
        if m.last() {
            p.push(m.len() - 1)
        } else {
            p
        }
    }
}

/// The hit for line `k` of a regex search: its content without trailing
/// white space.
pub open spec fn content_hit(path: Seq<char>, b: Seq<u8>, k: int) -> HitView {
    HitView { file: path, line: k + 1, text: trim_end_chars(line_content(b, k)) }
}

/// Reports the lines of `text` that a line matcher accepted: `matched[k]`
/// is the verdict on line `k` (lines as `str::lines` gives them), for the
/// first `matched.len()` lines. The first `PER_FILE_MATCH_CAP` accepted lines
/// are reported in order, each with its content without trailing white space.
pub fn matched_line_hits(path: &str, text: &str, matched: &[bool]) -> (r: Vec<Hit>)
    requires
        matched@.len() <= line_count(text.spec_bytes()),
    ensures
        hits_view(r@) == first_n(accepted_lines(matched@), PER_FILE_MATCH_CAP as int).map_values(
            |k: int| content_hit(path@, text.spec_bytes(), k),
        ),
{
    let orig: &[u8] = text.as_bytes();
    let ghost b = orig@;
    let ghost m = matched@;
    proof {
        encode_utf8_valid_utf8(text@);
        lemma_line_starts(b);
        lemma_line_starts_boundaries(b);
        vstd::utf8::is_char_boundary_start_end_of_seq(b);
    }
    let starts = line_starts(orig);
    let ghost sv = offsets_view(starts@);
    let n = matched.len();
    assert(n <= starts.len());
    let mut out: Vec<Hit> = Vec::new();
    let mut k: usize = 0;
    while k < n
        invariant
            b == orig@,
            b == text.spec_bytes(),
            valid_utf8(b),
            m == matched@,
            sv == offsets_view(starts@),
            sv == spec_line_starts(b),
            n == m.len(),
            n <= line_count(b),
            n <= starts.len(),
            sv.len() >= 1,
            increasing(sv),
            forall|j: int| 0 <= j < sv.len() ==> 0 <= #[trigger] sv[j] <= b.len(),
            forall|j: int| 1 <= j < sv.len() ==> b[#[trigger] sv[j] - 1] == 10u8,
            forall|j: int| 0 <= j < sv.len() ==> is_char_boundary(b, #[trigger] sv[j]),
            is_char_boundary(b, b.len() as int),
            k <= n,
            hits_view(out@) == first_n(accepted_lines(m.subrange(0, k as int)), PER_FILE_MATCH_CAP as int).map_values(
                |j: int| content_hit(path@, b, j),
            ),
        decreases n - k,
    {
        let ghost prev = accepted_lines(m.subrange(0, k as int));
        let ghost prev_out = out@;
        assert(m.subrange(0, k + 1).drop_last() =~= m.subrange(0, k as int));
        assert(m.subrange(0, k + 1).last() == m[k as int]);
        assert(out@.len() == hits_view(out@).len());
        assert(out@.len() == first_n(prev, PER_FILE_MATCH_CAP as int).len());
        if matched[k] && out.len() < PER_FILE_MATCH_CAP {
            assert(prev.len() < PER_FILE_MATCH_CAP);
            let s = starts[k];
            let e = if k < starts.len() - 1 {
                assert(sv[k as int] < sv[k + 1]);
                let nl = starts[k + 1] - 1;
                if nl > s && orig[nl - 1] == 13u8 {
                    nl - 1
                } else {
                    nl
                }
            } else {
                orig.len()
            };
            assert(e as int == line_content_end(b, k as int));
            assert(s <= e);
            assert(is_char_boundary(b, e as int)) by {
                if k < starts.len() - 1 {
                    let nl = sv[k + 1] - 1;
                    assert(b[nl] == 10u8);
                    vstd::utf8::is_char_boundary_iff_not_is_continuation_byte(b, nl);
                    if e as int == nl - 1 {
                        vstd::utf8::is_char_boundary_iff_not_is_continuation_byte(b, nl - 1);
                    }
                }
            }
            let line = sub_str(text, s, e);
            assert(line@ == line_content(b, k as int));
            let h = Hit { file: str_to_string(path), line: k + 1, text: crate::text::trim_end_string(line) };
            out.push(h);
            proof {
                let cur = accepted_lines(m.subrange(0, k + 1));
                assert(cur =~= prev.push(k as int));
                assert(first_n(prev, PER_FILE_MATCH_CAP as int) =~= prev);
                assert(first_n(cur, PER_FILE_MATCH_CAP as int) =~= cur);
                assert(hits_view(out@) =~= hits_view(prev_out).push(h@));
                assert(h@ == content_hit(path@, b, k as int));
                assert(cur.map_values(|j: int| content_hit(path@, b, j)) =~= prev.map_values(
                    |j: int| content_hit(path@, b, j),
                ).push(content_hit(path@, b, k as int)));
            }
        } else {
            proof {
                let cur = accepted_lines(m.subrange(0, k + 1));
                if matched@[k as int] {
                    assert(cur =~= prev.push(k as int));
                    assert(prev.len() >= PER_FILE_MATCH_CAP);
                    assert(first_n(cur, PER_FILE_MATCH_CAP as int) =~= first_n(prev, PER_FILE_MATCH_CAP as int));
                } else {
                    assert(cur == prev);
                }
            }
        }
        k = k + 1;
    }
    assert(m.subrange(0, n as int) =~= m);
    out
}

/// Checks each line of one decoded file against a compiled regex, reporting
/// matching lines in order, up to `PER_FILE_MATCH_CAP` of them: the regex is
/// run on the lines in order until that many have matched, and the verdicts
/// go to `matched_line_hits`.
pub fn verify_regex(path: &str, text: &str, re: &CompiledRegex) -> (r: Vec<Hit>)
    ensures
        hits_view(r@) == regex_hits(path@, text.spec_bytes(), re.pattern()),
{
    let orig: &[u8] = text.as_bytes();
    let ghost b = orig@;
    let ghost pat = re.pattern();
    proof {
        encode_utf8_valid_utf8(text@);
        lemma_line_starts(b);
        lemma_line_starts_boundaries(b);
        vstd::utf8::is_char_boundary_start_end_of_seq(b);
    }
    let starts = line_starts(orig);
    let ghost sv = offsets_view(starts@);
    let n = if starts[starts.len() - 1] == orig.len() { starts.len() - 1 } else { starts.len() };
    assert(n == line_count(b));
    let mut matched: Vec<bool> = Vec::new();
    let mut count: usize = 0;
    let mut k: usize = 0;
    while k < n && count < PER_FILE_MATCH_CAP
        invariant
            b == orig@,
            b == text.spec_bytes(),
            valid_utf8(b),
            pat == re.pattern(),
            sv == offsets_view(starts@),
            sv == spec_line_starts(b),
            n == line_count(b),
            n <= starts.len(),
            sv.len() >= 1,
            increasing(sv),
            forall|j: int| 0 <= j < sv.len() ==> 0 <= #[trigger] sv[j] <= b.len(),
            forall|j: int| 1 <= j < sv.len() ==> b[#[trigger] sv[j] - 1] == 10u8,
            forall|j: int| 0 <= j < sv.len() ==> is_char_boundary(b, #[trigger] sv[j]),
            is_char_boundary(b, b.len() as int),
            k <= n,
            matched@.len() == k,
            accepted_lines(matched@) == regex_matching_lines(b, pat, k as int),
            count == accepted_lines(matched@).len(),
            count <= PER_FILE_MATCH_CAP,
        decreases n - k,
    {
        let s = starts[k];
        let e = if k < starts.len() - 1 {
            assert(sv[k as int] < sv[k + 1]);
            let nl = starts[k + 1] - 1;
            if nl > s && orig[nl - 1] == 13u8 {
                nl - 1
            } else {
                nl
            }
        } else {
            orig.len()
        };
        assert(e as int == line_content_end(b, k as int));
        assert(s <= e);
        assert(is_char_boundary(b, e as int)) by {
            if k < starts.len() - 1 {
                let nl = sv[k + 1] - 1;
                assert(b[nl] == 10u8);
                vstd::utf8::is_char_boundary_iff_not_is_continuation_byte(b, nl);
                if e as int == nl - 1 {
                    vstd::utf8::is_char_boundary_iff_not_is_continuation_byte(b, nl - 1);
                }
            }
        }
        let line = sub_str(text, s, e);
        assert(line@ == line_content(b, k as int));
        let ghost prev = matched@;
        let v = re.is_match(line);
        matched.push(v);
        assert(matched@.drop_last() =~= prev);
        if v {
            count = count + 1;
        }
        k = k + 1;
    }
    let r = matched_line_hits(path, text, matched.as_slice());
    proof {
        let all = regex_matching_lines(b, pat, n as int);
        let cur = regex_matching_lines(b, pat, k as int);
        lemma_matching_lines_prefix(b, pat, k as int, n as int);
        if k < n {
            assert(cur.len() == PER_FILE_MATCH_CAP);
            assert(first_n(cur, PER_FILE_MATCH_CAP as int) =~= cur);
        }
        assert(first_n(all, PER_FILE_MATCH_CAP as int) =~= first_n(cur, PER_FILE_MATCH_CAP as int));
        assert(hits_view(r@) =~= regex_hits(path@, b, pat));
    }
    r
}

} // verus!

verus! {

/// How candidate lines are verified.
pub enum Matcher {
    /// Byte substring search; the needle is ASCII-lowercased (and so is the
    /// text) unless the search is case-sensitive.
    Substring { needle: Vec<u8>, case_sensitive: bool },
    /// Line-by-line regex match.
    Pattern(CompiledRegex),
}

/// A query turned into candidate-filter n-grams and a line verifier. A file
/// is a candidate when, for some entry of `grams`, it holds every n-gram of
/// that entry; an empty entry admits every file.
pub struct SearchPlan {
    pub grams: Vec<Vec<String>>,
    pub matcher: Matcher,
}

/// Why a query cannot be run.
pub enum SearchError {
    /// A regex pattern without a literal run of at least two characters
    /// cannot use the index.
    NoLiteral,
    /// The regex does not compile.
    BadRegex(regex::Error),
}

/// The regex actually compiled: the pattern, prefixed with `(?i)` unless the
/// search is case-sensitive.
pub open spec fn regex_source(query: Seq<char>, case_sensitive: bool) -> Seq<char> {
    if case_sensitive {
        query
    } else {
        seq!['(', '?', 'i', ')'] + query
    }
}

/// The substring needle: the query's UTF-8 bytes, ASCII-lowercased unless the
/// search is case-sensitive.
pub open spec fn needle_of(query: Seq<char>, case_sensitive: bool) -> Seq<u8> {
    haystack_of(encode_utf8(query), case_sensitive)
}

/// `grams` are exactly the distinct filter grams of `strs`.
pub open spec fn grams_for(grams: Seq<String>, strs: Seq<Seq<char>>) -> bool {
    &&& all_distinct(strings_view(grams))
    &&& forall|g: Seq<char>| strings_view(grams).contains(g) <==> is_filter_gram(strs, g)
}

/// The literal whose grams pre-filter a substring query: the lowercased
/// query itself.
pub open spec fn query_literals(query: Seq<char>) -> Seq<Seq<char>> {
    seq![lower_chars(query)]
}

/// Whether a regex search ignores case: unless the search is case-sensitive,
/// or when the pattern may set inline flags.
pub open spec fn regex_folds(query: Seq<char>, case_sensitive: bool) -> bool {
    !case_sensitive || has_flag_group(query)
}

/// `grams` holds, entry by entry, exactly the distinct filter grams of the
/// literal lists of `lists`.
pub open spec fn plan_filter(grams: Seq<Vec<String>>, lists: Seq<Seq<Seq<char>>>) -> bool {
    &&& grams.len() == lists.len()
    &&& forall|b: int| 0 <= b < grams.len() ==> grams_for(#[trigger] grams[b]@, lists[b])
}

/// The distinct filter grams of a list of literals.
fn literal_grams(runs: &Vec<String>) -> (r: Vec<String>)
    ensures
        grams_for(r@, strings_view(runs@)),
{
    let mut refs: Vec<&str> = Vec::new();
    let mut k: usize = 0;
    while k < runs.len()
        invariant
            k <= runs.len(),
            strs_view(refs@) == strings_view(runs@).subrange(0, k as int),
        decreases runs.len() - k,
    {
        let ghost prev = refs@;
        let r = runs[k].as_str();
        assert(r@ == strings_view(runs@)[k as int]);
        refs.push(r);
        assert(strs_view(refs@) =~= strs_view(prev).push(r@));
        k = k + 1;
        assert(strs_view(refs@) =~= strings_view(runs@).subrange(0, k as int));
    }
    assert(strings_view(runs@).subrange(0, runs@.len() as int) =~= strings_view(runs@));
    ngrams_of(refs.as_slice())
}

/// The filter grams of each literal list, in order.
fn branch_grams(lists: &Vec<Vec<String>>) -> (r: Vec<Vec<String>>)
    ensures
        plan_filter(r@, string_lists_view(lists@)),
{
    let mut out: Vec<Vec<String>> = Vec::new();
    let mut b: usize = 0;
    while b < lists.len()
        invariant
            b <= lists.len(),
            out@.len() == b,
            forall|j: int| 0 <= j < b ==> grams_for(#[trigger] out@[j]@, string_lists_view(lists@)[j]),
        decreases lists.len() - b,
    {
        let g = literal_grams(&lists[b]);
        out.push(g);
        b = b + 1;
    }
    out
}

/// Turns a query into its candidate-filter n-grams and line verifier.
///
/// Regex mode: a pattern without a literal run of at least two characters is
/// refused; the regex (with `(?i)` unless case-sensitive) must compile.
/// Substring mode: a query of fewer than two characters has nothing to
/// pre-filter on and matches nothing (`Ok(None)`).
pub fn plan_search(query: &str, regex_mode: bool, case_sensitive: bool) -> (r: Result<
    Option<SearchPlan>,
    SearchError,
>)
    ensures
        regex_mode ==> {
            &&& (literal_runs(query@).len() == 0 <==> r matches Err(SearchError::NoLiteral))
            &&& literal_runs(query@).len() > 0 ==> (r is Err <==> !regex_compiles(
                regex_source(query@, case_sensitive),
            ))
            &&& r matches Ok(p) ==> (p matches Some(plan) && (plan.matcher matches Matcher::Pattern(c)
                && c.pattern() == regex_source(query@, case_sensitive)) && plan_filter(
                plan.grams@,
                required_runs(query@, regex_folds(query@, case_sensitive)),
            ))
        },
        !regex_mode ==> {
            &&& r is Ok
            &&& (query@.len() < 2 <==> r matches Ok(None))
            &&& r matches Ok(Some(plan)) ==> (plan_filter(plan.grams@, seq![query_literals(query@)])
                && (plan.matcher matches Matcher::Substring { needle, case_sensitive: cs } && cs
                == case_sensitive && needle@ == needle_of(query@, case_sensitive)))
        },
{
    if regex_mode {
        let runs = extract_literals(query);
        if runs.len() == 0 {
            return Err(SearchError::NoLiteral);
        }
        let mut src: Vec<char> = Vec::new();
        if !case_sensitive {
            src.push('(');
            src.push('?');
            src.push('i');
            src.push(')');
        }
        let qc = chars_of(query);
        let mut i: usize = 0;
        let ghost prefix = src@;
        while i < qc.len()
            invariant
                qc@ == query@,
                i <= qc.len(),
                src@ == prefix + qc@.subrange(0, i as int),
            decreases qc.len() - i,
        {
            src.push(qc[i]);
            i = i + 1;
            assert(src@ =~= prefix + qc@.subrange(0, i as int));
        }
        assert(qc@.subrange(0, qc@.len() as int) =~= qc@);
        assert(src@ =~= regex_source(query@, case_sensitive));
        let source = string_of_chars(&src);
        let re = match CompiledRegex::compile(source.as_str()) {
            Ok(re) => re,
            Err(e) => {
                return Err(SearchError::BadRegex(e));
            },
        };
        let fold = !case_sensitive || flag_group(query);
        let lists = required_literals(query, fold);
        let grams = branch_grams(&lists);
        Ok(Some(SearchPlan { grams, matcher: Matcher::Pattern(re) }))
    } else {
        let lowered = crate::builder::lowered_chars(query);
        if lowered.len() < 2 {
            return Ok(None);
        }
        let lowered_text = string_of_chars(&lowered);
        let refs = [lowered_text.as_str()];
        assert(strs_view(refs@) =~= seq![lower_chars(query@)]);
        let grams = ngrams_of(&refs);
        let needle = if case_sensitive {
            vstd::slice::slice_to_vec(query.as_bytes())
        } else {
            ascii_lower_bytes(query.as_bytes())
        };
        let grams = vec![grams];
        assert(grams@[0]@ == grams@[0]@);
        Ok(Some(SearchPlan { grams, matcher: Matcher::Substring { needle, case_sensitive } }))
    }
}

/// The hits of a plan's verifier on one file's decoded text.
pub open spec fn candidate_hits(matcher: Matcher, path: Seq<char>, text: Seq<char>) -> Seq<HitView> {
    let b = encode_utf8(text);
    match matcher {
        Matcher::Substring { needle, case_sensitive } => substring_hits(
            path,
            b,
            haystack_of(b, case_sensitive),
            needle@,
        ),
        Matcher::Pattern(c) => regex_hits(path, b, c.pattern()),
    }
}

/// Decodes one candidate file and verifies its lines with the plan's matcher.
pub fn verify_candidate(plan: &SearchPlan, path: &str, enc: TextEncoding, bytes: &[u8]) -> (r: Vec<
    Hit,
>)
    requires
        bytes@.len() <= usize::MAX / 8,
    ensures
        hits_view(r@) == candidate_hits(plan.matcher, path@, decoded_text(enc, bytes@)),
{
    let text = decode(enc, bytes);
    match &plan.matcher {
        Matcher::Substring { needle, case_sensitive } => verify_substring(
            path,
            text.as_str(),
            needle.as_slice(),
            *case_sensitive,
        ),
        Matcher::Pattern(re) => verify_regex(path, text.as_str(), re),
    }
}

/// Result of a search: the hits, and whether the candidate set reached
/// `CANDIDATE_LIMIT` (so some matching files may not have been verified).
#[derive(Clone)]
pub struct SearchOutcome {
    pub hits: Vec<Hit>,
    pub candidates_truncated: bool,
}

impl SearchOutcome {
    /// No hits, nothing truncated.
    pub fn empty() -> (r: SearchOutcome)
        ensures
            r.hits@.len() == 0,
            !r.candidates_truncated,
    {
        SearchOutcome { hits: Vec::new(), candidates_truncated: false }
    }
}

impl Default for SearchOutcome {
    fn default() -> (r: SearchOutcome)
        ensures
            r.hits@.len() == 0,
            !r.candidates_truncated,
    {
        SearchOutcome::empty()
    }
}

/// The views of per-file hit lists, concatenated in order.
pub open spec fn all_hits(per_file: Seq<Vec<Hit>>) -> Seq<HitView> {
    per_file.map_values(|v: Vec<Hit>| hits_view(v@)).flatten()
}

/// Concatenates the per-file hits in candidate order, keeps the first `max`,
/// and flags whether the candidate set was capped.
pub fn finish_search(per_file: Vec<Vec<Hit>>, candidate_count: usize, max: usize) -> (r: SearchOutcome)
    ensures
        hits_view(r.hits@) == first_n(all_hits(per_file@), max as int),
        r.candidates_truncated == (candidate_count >= CANDIDATE_LIMIT),
{
    broadcast use vstd::std_specs::vec::group_vec_axioms;

    let ghost whole = per_file@;
    let mut out: Vec<Hit> = Vec::new();
    for v in it: per_file
        invariant
            it.seq() == whole,
            hits_view(out@) == all_hits(whole.subrange(0, it.index())),
    {
        let mut v = v;
        let ghost vvec = v;
        let ghost prev = out@;
        let ghost done = whole.subrange(0, it.index());
        out.append(&mut v);
        proof {
            assert(whole[it.index()] == vvec);
            assert(hits_view(out@) =~= hits_view(prev) + hits_view(vvec@));
            let d2 = whole.subrange(0, it.index() + 1);
            assert(d2 =~= done.push(vvec));
            assert(d2.map_values(|w: Vec<Hit>| hits_view(w@)) =~= done.map_values(
                |w: Vec<Hit>| hits_view(w@),
            ).push(hits_view(vvec@)));
            done.map_values(|w: Vec<Hit>| hits_view(w@)).lemma_flatten_push(hits_view(vvec@));
        }
    }
    assert(whole.subrange(0, whole.len() as int) =~= whole);
    if out.len() > max {
        out.truncate(max);
    }
    proof {
        assert(hits_view(out@) =~= first_n(all_hits(whole), max as int));
    }
    SearchOutcome { hits: out, candidates_truncated: candidate_count >= CANDIDATE_LIMIT }
}

} // verus!
