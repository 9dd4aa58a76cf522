//! Character n-grams (bigrams and trigrams) and their integer keys.
use vstd::prelude::*;
use std::collections::HashSet;
use crate::text::{all_distinct, string_of_chars, strings_view};

verus! {

/// The `n` characters of `t` starting at `i`.
pub open spec fn window(t: Seq<char>, i: int, n: int) -> Seq<char> {
    t.subrange(i, i + n)
}

/// `g` is a bigram or trigram occurring (contiguously) in `t`.
pub open spec fn is_ngram_of(t: Seq<char>, g: Seq<char>) -> bool {
    &&& (g.len() == 2 || g.len() == 3)
    &&& exists|i: int| 0 <= i && i + g.len() <= t.len() && #[trigger] window(t, i, g.len() as int) == g
}

/// `g` is a trigram occurring in `t`.
pub open spec fn is_trigram_of(t: Seq<char>, g: Seq<char>) -> bool {
    &&& g.len() == 3
    &&& exists|i: int| 0 <= i && i + 3 <= t.len() && #[trigger] window(t, i, 3) == g
}

/// An injective integer key for a bigram or trigram (chars are below 2^21).
pub open spec fn gram_key(g: Seq<char>) -> int {
    if g.len() == 2 {
        (g[0] as int) * 0x200000 + (g[1] as int)
    } else {
        ((g[0] as int) + 1) * 0x40000000000 + (g[1] as int) * 0x200000 + (g[2] as int)
    }
}

/// The keys of the grams in `s`.
pub open spec fn keys_of(s: Seq<Seq<char>>) -> Set<u64> {
    Set::new(|k: u64| exists|j: int| 0 <= j < s.len() && gram_key(#[trigger] s[j]) == k as int)
}

/// A character's code is below 0x110000.
pub proof fn lemma_char_bound(c: char)
    ensures
        0 <= (c as int) < 0x110000,
{
}

/// Distinct grams have distinct keys.
pub proof fn lemma_gram_key_injective(g1: Seq<char>, g2: Seq<char>)
    requires
        g1.len() == 2 || g1.len() == 3,
        g2.len() == 2 || g2.len() == 3,
        gram_key(g1) == gram_key(g2),
    ensures
        g1 == g2,
{
    lemma_char_bound(g1[0]);
    lemma_char_bound(g1[1]);
    lemma_char_bound(g2[0]);
    lemma_char_bound(g2[1]);
    if g1.len() == 3 {
        lemma_char_bound(g1[2]);
    }
    if g2.len() == 3 {
        lemma_char_bound(g2[2]);
    }
    assert(g1.len() == g2.len());
    assert(g1[0] as int == g2[0] as int);
    assert(g1[1] as int == g2[1] as int);
    if g1.len() == 3 {
        assert(g1[2] as int == g2[2] as int);
    }
    assert(g1 =~= g2);
}

/// The key of the bigram `[a, b]`.
pub fn key2(a: char, b: char) -> (k: u64)
    ensures
        k as int == gram_key(seq![a, b]),
{
    proof {
        lemma_char_bound(a);
        lemma_char_bound(b);
    }
    (a as u64) * 0x200000 + (b as u64)
}

/// The key of the trigram `[a, b, c]`.
pub fn key3(a: char, b: char, c: char) -> (k: u64)
    ensures
        k as int == gram_key(seq![a, b, c]),
{
    proof {
        lemma_char_bound(a);
        lemma_char_bound(b);
        lemma_char_bound(c);
    }
    ((a as u64) + 1) * 0x40000000000 + (b as u64) * 0x200000 + (c as u64)
}

/// The grams of `t.push(c)` are those of `t` plus the ones ending at the new character.
pub proof fn lemma_ngrams_push(t: Seq<char>, c: char, g: Seq<char>)
    ensures
        is_ngram_of(t.push(c), g) <==> (is_ngram_of(t, g) || (t.len() >= 1 && g == window(
            t.push(c),
            t.len() - 1,
            2,
        )) || (t.len() >= 2 && g == window(t.push(c), t.len() - 2, 3))),
{
    let tc = t.push(c);
    if is_ngram_of(tc, g) {
        let i = choose|i: int|
            0 <= i && i + g.len() <= tc.len() && #[trigger] window(tc, i, g.len() as int) == g;
        if i + g.len() <= t.len() {
            assert(window(t, i, g.len() as int) =~= window(tc, i, g.len() as int));
        }
    }
    if is_ngram_of(t, g) {
        let i = choose|i: int|
            0 <= i && i + g.len() <= t.len() && #[trigger] window(t, i, g.len() as int) == g;
        assert(window(t, i, g.len() as int) =~= window(tc, i, g.len() as int));
    }
    if t.len() >= 1 && g == window(tc, t.len() - 1, 2) {
        assert(window(tc, t.len() - 1, g.len() as int) == g);
    }
    if t.len() >= 2 && g == window(tc, t.len() - 2, 3) {
        assert(window(tc, t.len() - 2, g.len() as int) == g);
    }
}

} // verus!

verus! {

/// Every entry is a bigram or a trigram (by length).
pub open spec fn grams_only(s: Seq<Seq<char>>) -> bool {
    forall|j: int| 0 <= j < s.len() ==> (#[trigger] s[j]).len() == 2 || s[j].len() == 3
}

} // verus!

verus! {

/// Adds the gram `cs` to `out` unless a gram with the same key was added before.
pub fn add_gram(out: &mut Vec<String>, seen: &mut HashSet<u64>, cs: &[char], key: u64)
    requires
        cs@.len() == 2 || cs@.len() == 3,
        key as int == gram_key(cs@),
        all_distinct(strings_view(old(out)@)),
        grams_only(strings_view(old(out)@)),
        old(seen)@ == keys_of(strings_view(old(out)@)),
    ensures
        all_distinct(strings_view(final(out)@)),
        grams_only(strings_view(final(out)@)),
        final(seen)@ == keys_of(strings_view(final(out)@)),
        forall|g: Seq<char>|
            strings_view(final(out)@).contains(g) <==> (strings_view(old(out)@).contains(g) || g
                == cs@),
{
    broadcast use vstd::std_specs::hash::group_hash_axioms;

    let ghost prev = strings_view(out@);
    let fresh = seen.insert(key);
    if fresh {
        let s = string_of_chars(cs);
        out.push(s);
        let ghost now = strings_view(out@);
        assert(now =~= prev.push(cs@));
        assert forall|i: int, j: int| 0 <= i < now.len() && 0 <= j < now.len() && i != j implies now[i]
            != now[j] by {
            if i == prev.len() && now[i] == now[j] {
                assert(gram_key(prev[j]) == key as int);
                assert(keys_of(prev).contains(key));
            }
            if j == prev.len() && now[i] == now[j] {
                assert(gram_key(prev[i]) == key as int);
                assert(keys_of(prev).contains(key));
            }
        }
        assert forall|k: u64| #![auto] final(seen)@.contains(k) <==> keys_of(now).contains(k) by {
            if k == key {
                assert(gram_key(now[prev.len() as int]) == k as int);
            } else if keys_of(now).contains(k) {
                let j = choose|j: int| 0 <= j < now.len() && gram_key(#[trigger] now[j]) == k as int;
                assert(gram_key(prev[j]) == k as int);
            } else if final(seen)@.contains(k) {
                assert(keys_of(prev).contains(k));
                let j = choose|j: int| 0 <= j < prev.len() && gram_key(#[trigger] prev[j]) == k as int;
                assert(gram_key(now[j]) == k as int);
            }
        }
        assert(final(seen)@ =~= keys_of(now));
        assert forall|g: Seq<char>|
            now.contains(g) <==> (prev.contains(g) || g == cs@) by {
            if now.contains(g) {
                let j = choose|j: int| 0 <= j < now.len() && now[j] == g;
                if j < prev.len() {
                    assert(prev[j] == g);
                }
            }
            if prev.contains(g) {
                let j = choose|j: int| 0 <= j < prev.len() && prev[j] == g;
                assert(now[j] == g);
            }
            if g == cs@ {
                assert(now[prev.len() as int] == g);
            }
        }
    } else {
        assert(keys_of(prev).contains(key));
        let ghost j = choose|j: int| 0 <= j < prev.len() && gram_key(#[trigger] prev[j]) == key as int;
        proof {
            lemma_gram_key_injective(prev[j], cs@);
        }
        assert(final(seen)@ =~= old(seen)@);
    }
}

} // verus!
