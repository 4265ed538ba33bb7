//! What holds of every segment layout.
use vstd::prelude::*;
use vstd::string::StringSliceAdditionalSpecFns;
use vstd::utf8::*;

use crate::layout::{
    chars_in, end_of, gap, keyword_at, layout, lemma_chars_concat, segments_through, valid_ranges,
};
use crate::segment::{joined, SegmentView};

verus! {

broadcast use group_utf8_lib;

proof fn lemma_joined_single(x: SegmentView)
    ensures
        joined(seq![x]) == x.text(),
{
    let s = seq![x];
    assert(s.drop_last() =~= Seq::<SegmentView>::empty());
    assert(joined(s.drop_last()) =~= Seq::<char>::empty());
    assert(joined(s) =~= x.text());
}

proof fn lemma_joined_append(a: Seq<SegmentView>, c: Seq<SegmentView>)
    ensures
        joined(a + c) == joined(a) + joined(c),
    decreases c.len(),
{
    if c.len() == 0 {
        assert(a + c =~= a);
        assert(joined(a) + joined(c) =~= joined(a));
    } else {
        lemma_joined_append(a, c.drop_last());
        assert((a + c).drop_last() =~= a + c.drop_last());
        assert(joined(a) + joined(c) =~= joined(a) + joined(c.drop_last()) + c.last().text());
    }
}

/// The ends of the matches up to `k` are character boundaries, and none lies
/// after the start of match `k`.
proof fn lemma_end_of(b: Seq<u8>, ms: Seq<(usize, usize)>, k: int)
    requires
        valid_utf8(b),
        valid_ranges(ms, b),
        0 <= k <= ms.len(),
    ensures
        0 <= end_of(ms, k) <= b.len(),
        is_char_boundary(b, end_of(ms, k)),
        k < ms.len() ==> end_of(ms, k) <= ms[k].0,
{
    if k > 0 {
        assert(ms[k - 1].1 <= b.len());
    }
    if 0 < k < ms.len() {
        assert(ms[k - 1].1 <= ms[k].0);
    }
}

proof fn lemma_joined_through(b: Seq<u8>, ms: Seq<(usize, usize)>, k: nat)
    requires
        valid_utf8(b),
        valid_ranges(ms, b),
        k <= ms.len(),
    ensures
        joined(segments_through(b, ms, k)) == chars_in(b, 0, end_of(ms, k as int)),
    decreases k,
{
    if k == 0 {
        assert(b.subrange(0, 0) =~= Seq::<u8>::empty());
    } else {
        let j = k - 1;
        lemma_joined_through(b, ms, j as nat);
        lemma_end_of(b, ms, j);
        let lo = end_of(ms, j);
        let (s, e) = ms[j];
        assert(s <= e <= b.len() && is_char_boundary(b, s as int) && is_char_boundary(b, e as int));
        let prev = segments_through(b, ms, j as nat);
        let g = gap(b, lo, s as int);
        let kw = seq![keyword_at(b, ms[j])];
        lemma_joined_append(prev + g, kw);
        lemma_joined_append(prev, g);
        lemma_joined_single(keyword_at(b, ms[j]));
        assert(joined(g) =~= chars_in(b, lo, s as int)) by {
            if lo < s {
                lemma_joined_single(SegmentView::Text(chars_in(b, lo, s as int)));
            } else {
                assert(b.subrange(lo, s as int) =~= Seq::<u8>::empty());
            }
        }
        lemma_chars_concat(b, 0, lo, s as int);
        lemma_chars_concat(b, 0, s as int, e as int);
    }
}

/// Joining the characters of every segment, in order, gives back the line.
pub proof fn law_reconstruction(input: &str, ms: Seq<(usize, usize)>)
    requires
        valid_ranges(ms, input.spec_bytes()),
    ensures
        joined(layout(input.spec_bytes(), ms)) == input@,
{
    let b = input.spec_bytes();
    let n = ms.len();
    lemma_joined_through(b, ms, n);
    lemma_end_of(b, ms, n as int);
    let lo = end_of(ms, n as int);
    let g = gap(b, lo, b.len() as int);
    lemma_joined_append(segments_through(b, ms, n), g);
    assert(joined(g) =~= chars_in(b, lo, b.len() as int)) by {
        if lo < b.len() {
            lemma_joined_single(SegmentView::Text(chars_in(b, lo, b.len() as int)));
        } else {
            assert(b.subrange(lo, b.len() as int) =~= Seq::<u8>::empty());
        }
    }
    assert(is_char_boundary(b, b.len() as int));
    lemma_chars_concat(b, 0, lo, b.len() as int);
    assert(b.subrange(0, b.len() as int) =~= b);
    assert(decode_utf8(encode_utf8(input@)) == input@);
}


/// Keywords among `segs` are numbered from 1, each ends before the next one
/// starts, and all end by character `n`.
pub open spec fn offsets_ordered(segs: Seq<SegmentView>, n: int) -> bool {
    &&& forall|i: int|
        0 <= i < segs.len() && (#[trigger] segs[i]).is_keyword() ==> 1 <= segs[i].offset()
            && segs[i].offset() + segs[i].text().len() <= n + 1
    &&& forall|i: int, j: int|
        0 <= i < j < segs.len() && (#[trigger] segs[i]).is_keyword() && (#[trigger] segs[j]).is_keyword()
            ==> segs[i].offset() + segs[i].text().len() <= segs[j].offset()
}

proof fn lemma_offsets_through(b: Seq<u8>, ms: Seq<(usize, usize)>, k: nat)
    requires
        valid_utf8(b),
        valid_ranges(ms, b),
        k <= ms.len(),
    ensures
        offsets_ordered(segments_through(b, ms, k), chars_in(b, 0, end_of(ms, k as int)).len() as int),
    decreases k,
{
    if k > 0 {
        let j = k - 1;
        lemma_offsets_through(b, ms, j as nat);
        lemma_end_of(b, ms, j);
        let lo = end_of(ms, j);
        let (s, e) = ms[j];
        assert(s <= e <= b.len() && is_char_boundary(b, s as int) && is_char_boundary(b, e as int));
        lemma_chars_concat(b, 0, lo, s as int);
        lemma_chars_concat(b, 0, s as int, e as int);
        let prev = segments_through(b, ms, j as nat);
        let g = gap(b, lo, s as int);
        let kw = keyword_at(b, ms[j]);
        let st = segments_through(b, ms, k);
        let n_prev = chars_in(b, 0, lo).len() as int;
        let n = chars_in(b, 0, e as int).len() as int;
        assert(st == prev + g + seq![kw]);
        assert(kw.offset() + kw.text().len() == n + 1);
        assert(n_prev + 1 <= kw.offset());
        assert forall|i: int| 0 <= i < st.len() && (#[trigger] st[i]).is_keyword() implies 1 <= st[i].offset()
            && st[i].offset() + st[i].text().len() <= n + 1 by {
            if i < prev.len() {
                assert(st[i] == prev[i]);
            }
        }
        assert forall|i: int, i2: int|
            0 <= i < i2 < st.len() && (#[trigger] st[i]).is_keyword() && (#[trigger] st[i2]).is_keyword()
            implies st[i].offset() + st[i].text().len() <= st[i2].offset() by {
            assert(st[i] == prev[i]);
            if i2 < prev.len() {
                assert(st[i2] == prev[i2]);
            } else {
                assert(st[i2] == kw);
            }
        }
    }
}

/// Keyword offsets count from 1: every keyword starts at character 1 or later.
pub proof fn law_offsets_from_one(input: &str, ms: Seq<(usize, usize)>, i: int)
    requires
        valid_ranges(ms, input.spec_bytes()),
        0 <= i < layout(input.spec_bytes(), ms).len(),
        layout(input.spec_bytes(), ms)[i].is_keyword(),
    ensures
        1 <= layout(input.spec_bytes(), ms)[i].offset(),
{
    let b = input.spec_bytes();
    let n = ms.len();
    lemma_offsets_through(b, ms, n);
    let st = segments_through(b, ms, n);
    let l = layout(b, ms);
    assert(i < st.len()) by {
        if i >= st.len() {
            assert(!l[i].is_keyword());
        }
    }
    assert(l[i] == st[i]);
}

/// Each keyword starts at character 1 or later, and ends before the next
/// keyword starts: its offset plus its length is at most the next offset.
pub proof fn law_offsets_increase(input: &str, ms: Seq<(usize, usize)>, i: int, j: int)
    requires
        valid_ranges(ms, input.spec_bytes()),
        0 <= i < j < layout(input.spec_bytes(), ms).len(),
        layout(input.spec_bytes(), ms)[i].is_keyword(),
        layout(input.spec_bytes(), ms)[j].is_keyword(),
    ensures
        1 <= layout(input.spec_bytes(), ms)[i].offset(),
        layout(input.spec_bytes(), ms)[i].offset() + layout(input.spec_bytes(), ms)[i].text().len()
            <= layout(input.spec_bytes(), ms)[j].offset(),
{
    let b = input.spec_bytes();
    let n = ms.len();
    lemma_offsets_through(b, ms, n);
    let st = segments_through(b, ms, n);
    let l = layout(b, ms);
    assert(j < st.len()) by {
        if j >= st.len() {
            assert(!l[j].is_keyword());
        }
    }
    assert(l[i] == st[i]);
    assert(l[j] == st[j]);
}


proof fn lemma_through_prefix(b: Seq<u8>, ms: Seq<(usize, usize)>, k: nat, k2: nat)
    requires
        k <= k2 <= ms.len(),
    ensures
        segments_through(b, ms, k).len() <= segments_through(b, ms, k2).len(),
        segments_through(b, ms, k2).subrange(0, segments_through(b, ms, k).len() as int)
            == segments_through(b, ms, k),
    decreases k2,
{
    if k < k2 {
        lemma_through_prefix(b, ms, k, (k2 - 1) as nat);
        let st = segments_through(b, ms, k).len() as int;
        let prev = segments_through(b, ms, (k2 - 1) as nat);
        let big = segments_through(b, ms, k2);
        assert(big.subrange(0, st) =~= prev.subrange(0, st));
    } else {
        let big = segments_through(b, ms, k2);
        assert(big.subrange(0, big.len() as int) =~= big);
    }
}

/// A match at the very start of the line gives no leading text: the first
/// segment is its keyword, at offset 1.
pub proof fn law_match_at_start(input: &str, ms: Seq<(usize, usize)>)
    requires
        valid_ranges(ms, input.spec_bytes()),
        ms.len() > 0,
        ms[0].0 == 0,
    ensures
        layout(input.spec_bytes(), ms).len() > 0,
        layout(input.spec_bytes(), ms)[0] == keyword_at(input.spec_bytes(), ms[0]),
        layout(input.spec_bytes(), ms)[0].offset() == 1,
{
    let b = input.spec_bytes();
    lemma_through_prefix(b, ms, 1, ms.len());
    let one = segments_through(b, ms, 1);
    assert(segments_through(b, ms, 0) =~= Seq::<SegmentView>::empty());
    assert(gap(b, 0, 0) =~= Seq::<SegmentView>::empty());
    assert(one =~= seq![keyword_at(b, ms[0])]);
    let st = segments_through(b, ms, ms.len());
    assert(st[0] == st.subrange(0, 1)[0]);
    assert(b.subrange(0, 0) =~= Seq::<u8>::empty());
}

/// A match that reaches the end of the line gives no trailing text: the last
/// segment is its keyword.
pub proof fn law_match_at_end(input: &str, ms: Seq<(usize, usize)>)
    requires
        valid_ranges(ms, input.spec_bytes()),
        ms.len() > 0,
        ms.last().1 == input.spec_bytes().len(),
    ensures
        layout(input.spec_bytes(), ms).len() > 0,
        layout(input.spec_bytes(), ms).last() == keyword_at(input.spec_bytes(), ms.last()),
{
    let b = input.spec_bytes();
    let st = segments_through(b, ms, ms.len());
    assert(layout(b, ms) =~= st);
}

/// Two matches with nothing between them give two keywords side by side,
/// with no text segment between: the keyword of match `k` stands at index
/// `p`, the one of match `k + 1` at `p + 1`.
pub proof fn law_adjacent_matches(input: &str, ms: Seq<(usize, usize)>, k: int)
    requires
        valid_ranges(ms, input.spec_bytes()),
        0 <= k,
        k + 1 < ms.len(),
        ms[k].1 == ms[k + 1].0,
    ensures
        ({
            let p = segments_through(input.spec_bytes(), ms, (k + 1) as nat).len() - 1;
            &&& 0 <= p
            &&& p + 1 < layout(input.spec_bytes(), ms).len()
            &&& layout(input.spec_bytes(), ms)[p] == keyword_at(input.spec_bytes(), ms[k])
            &&& layout(input.spec_bytes(), ms)[p + 1] == keyword_at(input.spec_bytes(), ms[k + 1])
        }),
{
    let b = input.spec_bytes();
    let first = segments_through(b, ms, (k + 1) as nat);
    let second = segments_through(b, ms, (k + 2) as nat);
    assert(gap(b, end_of(ms, k + 1), ms[k + 1].0 as int) =~= Seq::<SegmentView>::empty());
    assert(second =~= first.push(keyword_at(b, ms[k + 1])));
    lemma_through_prefix(b, ms, (k + 2) as nat, ms.len());
    let p = first.len() - 1;
    let l = layout(b, ms);
    let st = segments_through(b, ms, ms.len());
    assert(l[p] == st[p]);
    assert(l[p + 1] == st[p + 1]);
    assert(st[p] == st.subrange(0, second.len() as int)[p]);
    assert(st[p + 1] == st.subrange(0, second.len() as int)[p + 1]);
}

} // verus!
