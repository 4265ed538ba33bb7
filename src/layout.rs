//! The segment layout of a line: which segments a list of byte-range
//! matches cuts it into, stated over the line's UTF-8 bytes.
use vstd::prelude::*;
use vstd::utf8::*;

use crate::segment::SegmentView;

verus! {

broadcast use group_utf8_lib;

/// The characters encoded by bytes `lo..hi` of `b`.
pub open spec fn chars_in(b: Seq<u8>, lo: int, hi: int) -> Seq<char> {
    decode_utf8(b.subrange(lo, hi))
}

/// Each range lies in `b`, starts and ends on character boundaries, and ends
/// no later than the next one starts.
pub open spec fn valid_ranges(ms: Seq<(usize, usize)>, b: Seq<u8>) -> bool {
    &&& forall|i: int|
        0 <= i < ms.len() ==> {
            &&& (#[trigger] ms[i]).0 <= ms[i].1 <= b.len()
            &&& is_char_boundary(b, ms[i].0 as int)
            &&& is_char_boundary(b, ms[i].1 as int)
        }
    &&& forall|i: int| 0 < i < ms.len() ==> ms[i - 1].1 <= (#[trigger] ms[i]).0
}

/// The keyword segment for the match `m`: its characters, and one more than
/// the number of characters before it.
pub open spec fn keyword_at(b: Seq<u8>, m: (usize, usize)) -> SegmentView {
    SegmentView::Keyword {
        text: chars_in(b, m.0 as int, m.1 as int),
        char_start: chars_in(b, 0, m.0 as int).len() + 1int,
    }
}

/// The text segment for bytes `lo..hi`, or nothing when the span is empty.
pub open spec fn gap(b: Seq<u8>, lo: int, hi: int) -> Seq<SegmentView> {
    if lo < hi {
        seq![SegmentView::Text(chars_in(b, lo, hi))]
    } else {
        seq![]
    }
}

/// Where the first `k` matches end (0 when `k` is 0).
pub open spec fn end_of(ms: Seq<(usize, usize)>, k: int) -> int {
    if k <= 0 {
        0
    } else {
        ms[k - 1].1 as int
    }
}

/// The segments that cover the line up to the end of the first `k` matches.
pub open spec fn segments_through(b: Seq<u8>, ms: Seq<(usize, usize)>, k: nat) -> Seq<SegmentView>
    decreases k,
{
    if k == 0 {
        seq![]
    } else {
        segments_through(b, ms, (k - 1) as nat) + gap(b, end_of(ms, k - 1), ms[k - 1].0 as int)
            + seq![keyword_at(b, ms[k - 1])]
    }
}

/// The segments of the whole line: those of every match, then the text after
/// the last one.
pub open spec fn layout(b: Seq<u8>, ms: Seq<(usize, usize)>) -> Seq<SegmentView> {
    segments_through(b, ms, ms.len()) + gap(b, end_of(ms, ms.len() as int), b.len() as int)
}

/// A span between two character boundaries is valid UTF-8, and a boundary
/// inside it stays a boundary of the span.
pub proof fn lemma_sub_boundary(b: Seq<u8>, lo: int, x: int, hi: int)
    requires
        valid_utf8(b),
        0 <= lo <= x <= hi <= b.len(),
        is_char_boundary(b, lo),
        is_char_boundary(b, x),
        is_char_boundary(b, hi),
    ensures
        valid_utf8(b.subrange(lo, hi)),
        is_char_boundary(b.subrange(lo, hi), x - lo),
{
    let s = b.subrange(lo, b.len() as int);
    assert(valid_utf8(s));
    if hi < b.len() {
        assert(s[hi - lo] == b[hi]);
        is_char_boundary_iff_not_is_continuation_byte(b, hi);
        is_char_boundary_iff_not_is_continuation_byte(s, hi - lo);
    } else {
        assert(is_char_boundary(s, s.len() as int));
    }
    let c = s.subrange(0, hi - lo);
    assert(valid_utf8(c));
    assert(c =~= b.subrange(lo, hi));
    if x < hi {
        assert(c[x - lo] == b[x]);
        is_char_boundary_iff_not_is_continuation_byte(b, x);
        is_char_boundary_iff_not_is_continuation_byte(c, x - lo);
    } else {
        assert(is_char_boundary(c, c.len() as int));
    }
}

/// The characters of adjacent spans join into those of the whole span.
pub proof fn lemma_chars_concat(b: Seq<u8>, lo: int, mid: int, hi: int)
    requires
        valid_utf8(b),
        0 <= lo <= mid <= hi <= b.len(),
        is_char_boundary(b, lo),
        is_char_boundary(b, mid),
        is_char_boundary(b, hi),
    ensures
        chars_in(b, lo, hi) == chars_in(b, lo, mid) + chars_in(b, mid, hi),
{
    lemma_sub_boundary(b, lo, mid, hi);
    let c = b.subrange(lo, hi);
    assert(decode_utf8(c) =~= decode_utf8(c.subrange(0, mid - lo)) + decode_utf8(
        c.subrange(mid - lo, c.len() as int),
    ));
    assert(c.subrange(0, mid - lo) =~= b.subrange(lo, mid));
    assert(c.subrange(mid - lo, c.len() as int) =~= b.subrange(mid, hi));
}

/// Every character takes at least one byte.
pub proof fn lemma_encode_len(cs: Seq<char>)
    ensures
        cs.len() <= encode_utf8(cs).len(),
    decreases cs.len(),
{
    if cs.len() > 0 {
        lemma_encode_len(cs.drop_first());
    }
}

/// A span holds no more characters than bytes.
pub proof fn lemma_chars_len(b: Seq<u8>, lo: int, hi: int)
    requires
        valid_utf8(b),
        0 <= lo <= hi <= b.len(),
        is_char_boundary(b, lo),
        is_char_boundary(b, hi),
    ensures
        chars_in(b, lo, hi).len() <= hi - lo,
{
    lemma_sub_boundary(b, lo, lo, hi);
    let c = b.subrange(lo, hi);
    assert(encode_utf8(decode_utf8(c)) == c);
    lemma_encode_len(decode_utf8(c));
}

} // verus!
