//! Line structure of UTF-8 text: where lines start, which line holds a byte
//! offset, and the text of a line.
use vstd::prelude::*;
use vstd::string::StringSliceAdditionalSpecFns;
use vstd::utf8::{
    decode_utf8, encode_utf8, is_char_boundary, is_char_boundary_iff_not_is_continuation_byte,
    is_char_boundary_start_end_of_seq, length_of_first_scalar, pop_first_scalar, valid_utf8,
    valid_utf8_split,
};

verus! {

broadcast use vstd::utf8::group_utf8_lib;

/// Offsets just after each `\n` byte, in order.
pub open spec fn line_breaks(b: Seq<u8>) -> Seq<int>
    decreases b.len(),
{
    if b.len() == 0 {
        seq![]
    } else {
        let r = line_breaks(b.drop_last());
        if b.last() == 10u8 {
            r.push(b.len() as int)
        } else {
            r
        }
    }
}

/// Byte offsets at which lines start: 0, then just after each `\n`.
pub open spec fn spec_line_starts(b: Seq<u8>) -> Seq<int> {
    seq![0int] + line_breaks(b)
}

/// Strictly increasing.
pub open spec fn increasing(s: Seq<int>) -> bool {
    forall|i: int, j: int| 0 <= i < j < s.len() ==> s[i] < s[j]
}

/// Every line break follows a `\n` byte, and they increase.
pub proof fn lemma_line_breaks(b: Seq<u8>)
    ensures
        increasing(line_breaks(b)),
        forall|k: int|
            0 <= k < line_breaks(b).len() ==> 1 <= #[trigger] line_breaks(b)[k] <= b.len() && b[line_breaks(b)[k] - 1] == 10u8,
        forall|p: int| 0 <= p < b.len() && b[p] == 10u8 ==> line_breaks(b).contains(p + 1),
    decreases b.len(),
{
    if b.len() > 0 {
        let d = b.drop_last();
        lemma_line_breaks(d);
        let r = line_breaks(d);
        assert forall|p: int| 0 <= p < b.len() && b[p] == 10u8 implies line_breaks(b).contains(p + 1) by {
            if p < d.len() {
                assert(d[p] == b[p]);
                let k = choose|k: int| 0 <= k < r.len() && r[k] == p + 1;
                assert(line_breaks(b)[k] == p + 1);
            } else {
                assert(line_breaks(b)[line_breaks(b).len() - 1] == p + 1);
            }
        }
    }
}

/// Line starts are strictly increasing, start at 0 and stay within the text.
pub proof fn lemma_line_starts(b: Seq<u8>)
    ensures
        spec_line_starts(b).len() >= 1,
        spec_line_starts(b)[0] == 0,
        increasing(spec_line_starts(b)),
        forall|k: int|
            0 <= k < spec_line_starts(b).len() ==> 0 <= #[trigger] spec_line_starts(b)[k] <= b.len(),
        forall|k: int|
            1 <= k < spec_line_starts(b).len() ==> b[#[trigger] spec_line_starts(b)[k] - 1] == 10u8,
{
    lemma_line_breaks(b);
    let s = spec_line_starts(b);
    let r = line_breaks(b);
    assert forall|k: int| 1 <= k < s.len() implies b[#[trigger] s[k] - 1] == 10u8 by {
        assert(s[k] == r[k - 1]);
    }
    assert forall|k: int| 0 <= k < s.len() implies 0 <= #[trigger] s[k] <= b.len() by {
        if k > 0 {
            assert(s[k] == r[k - 1]);
        }
    }
    assert forall|i: int, j: int| 0 <= i < j < s.len() implies s[i] < s[j] by {
        if i > 0 {
            assert(s[i] == r[i - 1] && s[j] == r[j - 1]);
        } else {
            assert(s[j] == r[j - 1]);
        }
    }
}

/// The position just after an ASCII byte at a character boundary is a boundary.
pub proof fn lemma_boundary_after_ascii(b: Seq<u8>, p: int)
    requires
        valid_utf8(b),
        0 <= p < b.len(),
        b[p] < 0x80,
    ensures
        is_char_boundary(b, p + 1),
    decreases b.len(),
{
    is_char_boundary_iff_not_is_continuation_byte(b, p);
    let l = length_of_first_scalar(b);
    let t = pop_first_scalar(b);
    reveal_with_fuel(is_char_boundary, 2);
    reveal_with_fuel(valid_utf8, 2);
    if p == 0 {
        assert(l == 1);
        assert(is_char_boundary(t, 0));
    } else {
        assert(p >= l);
        assert(t[p - l] == b[p]);
        lemma_boundary_after_ascii(t, p - l);
    }
}

/// Boundaries carry over to the suffix that starts at a boundary.
pub proof fn lemma_boundary_in_suffix(b: Seq<u8>, start: int, end: int)
    requires
        valid_utf8(b),
        0 <= start <= end <= b.len(),
        is_char_boundary(b, start),
        is_char_boundary(b, end),
    ensures
        valid_utf8(b.subrange(start, b.len() as int)),
        is_char_boundary(b.subrange(start, b.len() as int), end - start),
{
    let suf = b.subrange(start, b.len() as int);
    valid_utf8_split(b, start);
    is_char_boundary_start_end_of_seq(suf);
    if end < b.len() {
        is_char_boundary_iff_not_is_continuation_byte(b, end);
        assert(suf[end - start] == b[end]);
        if end - start < suf.len() {
            is_char_boundary_iff_not_is_continuation_byte(suf, end - start);
        }
    } else {
        assert(end - start == suf.len());
    }
}

/// Every line start of valid UTF-8 text is a character boundary.
pub proof fn lemma_line_starts_boundaries(b: Seq<u8>)
    requires
        valid_utf8(b),
    ensures
        forall|k: int|
            0 <= k < spec_line_starts(b).len() ==> is_char_boundary(b, #[trigger] spec_line_starts(b)[k]),
{
    lemma_line_starts(b);
    is_char_boundary_start_end_of_seq(b);
    assert forall|k: int| 0 <= k < spec_line_starts(b).len() implies is_char_boundary(
        b,
        #[trigger] spec_line_starts(b)[k],
    ) by {
        if k > 0 {
            lemma_boundary_after_ascii(b, spec_line_starts(b)[k] - 1);
        }
    }
}

/// The part of `s` between two character boundaries (byte offsets).
pub fn sub_str<'a>(s: &'a str, start: usize, end: usize) -> (r: &'a str)
    requires
        start <= end <= s.spec_bytes().len(),
        is_char_boundary(s.spec_bytes(), start as int),
        is_char_boundary(s.spec_bytes(), end as int),
    ensures
        r.spec_bytes() == s.spec_bytes().subrange(start as int, end as int),
        r@ == decode_utf8(s.spec_bytes().subrange(start as int, end as int)),
{
    let ghost b = s.spec_bytes();
    proof {
        lemma_boundary_in_suffix(b, start as int, end as int);
    }
    let (_, rest) = s.split_at(start);
    assert(rest.spec_bytes() =~= b.subrange(start as int, b.len() as int));
    let (mid, _) = rest.split_at(end - start);
    assert(mid.spec_bytes() =~= b.subrange(start as int, end as int));
    mid
}

} // verus!

verus! {

/// The integer values of a sequence of offsets.
pub open spec fn offsets_view(v: Seq<usize>) -> Seq<int> {
    v.map_values(|x: usize| x as int)
}

/// Line `i` (0-based) is the one holding byte offset `off`.
pub open spec fn is_line_of(starts: Seq<int>, off: int, i: int) -> bool {
    &&& 0 <= i < starts.len()
    &&& starts[i] <= off
    &&& (i + 1 < starts.len() ==> off < starts[i + 1])
}

/// The 0-based index of the line holding byte offset `off`.
pub open spec fn line_index(starts: Seq<int>, off: int) -> int {
    choose|i: int| is_line_of(starts, off, i)
}

/// At most one line holds a given offset.
pub proof fn lemma_line_of_unique(starts: Seq<int>, off: int, i: int, j: int)
    requires
        increasing(starts),
        is_line_of(starts, off, i),
        is_line_of(starts, off, j),
    ensures
        i == j,
{
    if i < j {
        assert(starts[i + 1] <= starts[j]);
    } else if j < i {
        assert(starts[j + 1] <= starts[i]);
    }
}

/// The line holding `off`, found by binary search over the line starts.
pub fn find_line(starts: &[usize], off: usize) -> (r: usize)
    requires
        starts@.len() >= 1,
        starts@[0] <= off,
        increasing(offsets_view(starts@)),
    ensures
        is_line_of(offsets_view(starts@), off as int, r as int),
        r as int == line_index(offsets_view(starts@), off as int),
{
    let ghost sv = offsets_view(starts@);
    let mut lo: usize = 0;
    let mut hi: usize = starts.len();
    while hi - lo > 1
        invariant
            sv == offsets_view(starts@),
            0 <= lo < hi <= starts.len(),
            starts@[lo as int] <= off,
            hi < starts.len() ==> off < starts@[hi as int],
        decreases hi - lo,
    {
        let mid = lo + (hi - lo) / 2;
        if starts[mid] <= off {
            lo = mid;
        } else {
            hi = mid;
        }
    }
    assert(is_line_of(sv, off as int, lo as int));
    proof {
        let w = line_index(sv, off as int);
        lemma_line_of_unique(sv, off as int, w, lo as int);
    }
    lo
}

} // verus!
