//! Cutting a line into segments around a list of byte-range matches.
use vstd::prelude::*;
use vstd::string::StringSliceAdditionalSpecFns;
use vstd::utf8::*;

use crate::layout::{
    chars_in, end_of, gap, layout, lemma_chars_concat, lemma_chars_len, lemma_sub_boundary, segments_through,
    valid_ranges,
};
use crate::segment::{Keyword, Segment, SegmentView};

verus! {

broadcast use group_utf8_lib;

/// The views of a sequence of segments.
pub open spec fn views<'a>(v: Seq<Segment<'a>>) -> Seq<SegmentView> {
    v.map_values(|s: Segment<'a>| s@)
}

/// The part of `s` between two byte offsets that fall on character boundaries.
fn slice<'a>(s: &'a str, lo: usize, hi: usize) -> (r: &'a str)
    requires
        lo <= hi <= s.spec_bytes().len(),
        is_char_boundary(s.spec_bytes(), lo as int),
        is_char_boundary(s.spec_bytes(), hi as int),
    ensures
        r@ == chars_in(s.spec_bytes(), lo as int, hi as int),
{
    let ghost b = s.spec_bytes();
    proof {
        lemma_sub_boundary(b, lo as int, hi as int, b.len() as int);
    }
    let (_, rest) = s.split_at(lo);
    assert(rest.spec_bytes() =~= b.subrange(lo as int, b.len() as int));
    let (mid, _) = rest.split_at(hi - lo);
    assert(mid.spec_bytes() =~= b.subrange(lo as int, hi as int));
    assert(decode_utf8(encode_utf8(mid@)) == mid@);
    mid
}

/// Cuts `input` into segments around `matches`, byte ranges in increasing
/// order. Returns `None` when there is no match; otherwise the text before,
/// between and after the matches as text segments (empty ones left out), and
/// each match as a keyword carrying the 1-based index of its first character.
/// The bound on the byte length only rules out a size that no `str` reaches.
pub fn decompose<'a>(matches: &Vec<(usize, usize)>, input: &'a str) -> (r: Option<Vec<Segment<'a>>>)
    requires
        valid_ranges(matches@, input.spec_bytes()),
        input.spec_bytes().len() < usize::MAX,
    ensures
        r is None <==> matches@.len() == 0,
        r matches Some(v) ==> views(v@) == layout(input.spec_bytes(), matches@),
{
    let ghost b = input.spec_bytes();
    let ghost ms = matches@;
    if matches.len() == 0 {
        return None;
    }
    proof {
        assert(is_char_boundary(b, 0));
        assert(b.subrange(0, 0) =~= Seq::<u8>::empty());
    }
    let mut v: Vec<Segment<'a>> = Vec::new();
    let mut last: usize = 0;
    let mut char_last: usize = 0;
    let mut i: usize = 0;
    while i < matches.len()
        invariant
            valid_ranges(ms, b),
            ms == matches@,
            b == input.spec_bytes(),
            b.len() < usize::MAX,
            i <= ms.len(),
            last == end_of(ms, i as int),
            last <= b.len(),
            is_char_boundary(b, last as int),
            char_last == chars_in(b, 0, last as int).len(),
            views(v@) == segments_through(b, ms, i as nat),
        decreases ms.len() - i,
    {
        let (start, end) = matches[i];
        assert(ms[i as int] == (start, end));
        proof {
            if i > 0 {
                assert(ms[i - 1].1 <= ms[i as int].0);
            }
        }
        let ghost before = v@;
        if start > last {
            let text = slice(input, last, start);
            proof {
                lemma_chars_concat(b, 0, last as int, start as int);
                lemma_chars_len(b, 0, start as int);
            }
            v.push(Segment::Text(text));
            char_last = char_last + text.unicode_len();
        }
        assert(views(v@) == segments_through(b, ms, i as nat) + gap(b, last as int, start as int));
        assert(char_last == chars_in(b, 0, start as int).len());
        let keyword = slice(input, start, end);
        proof {
            lemma_chars_len(b, 0, start as int);
            lemma_chars_concat(b, 0, start as int, end as int);
            lemma_chars_len(b, 0, end as int);
        }
        v.push(Segment::Keyword(Keyword { text: keyword, char_start: char_last + 1 }));
        char_last = char_last + keyword.unicode_len();
        last = end;
        i = i + 1;
        assert(views(v@) =~= segments_through(b, ms, i as nat));
    }
    if last < input.len() {
        proof {
            assert(is_char_boundary(b, b.len() as int));
        }
        let text = slice(input, last, input.len());
        v.push(Segment::Text(text));
    }
    assert(views(v@) =~= layout(b, ms));
    Some(v)
}

} // verus!
