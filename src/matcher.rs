//! Finding a pattern's matches in a line, and cutting the line around them.
use regex::Regex;
use vstd::prelude::*;
use vstd::string::StringSliceAdditionalSpecFns;

use crate::laws::{
    law_adjacent_matches, law_match_at_end, law_match_at_start, law_offsets_from_one,
    law_offsets_increase, law_reconstruction,
};
use crate::layout::{keyword_at, layout, segments_through, valid_ranges};
use crate::segment::{joined, Segment, SegmentView};
use crate::segmenter::{decompose, views};

verus! {

#[verifier::external_type_specification]
#[verifier::external_body]
pub struct ExRegex(Regex);

/// The byte ranges of the successive non-overlapping matches of the regular
/// expression `pattern`, compiled with the default options, in `hay`.
pub uninterp spec fn regex_matches(pattern: Seq<char>, hay: Seq<char>) -> Seq<(usize, usize)>;

/// A compiled regular expression, with the text it was compiled from.
pub struct Pattern {
    re: Regex,
    source: Ghost<Seq<char>>,
}

impl Pattern {
    /// The text the pattern was compiled from.
    pub closed spec fn source(&self) -> Seq<char> {
        self.source@
    }

    /// Relies on `regex::Regex::new`: compiles `pattern` with the default
    /// options, or fails on a pattern it cannot compile.
    #[verifier::external_body]
    pub fn new(pattern: &str) -> (r: Option<Pattern>)
        ensures
            r matches Some(p) ==> p.source() == pattern@,
    {
        match Regex::new(pattern) {
            Ok(re) => Some(Pattern { re, source: Ghost(pattern@) }),
            Err(_) => None,
        }
    }

    /// Relies on `regex::Regex::find_iter` with `Match::start` and
    /// `Match::end`: the matches depend on the pattern and the haystack
    /// alone, come in order and do not overlap, each has `start <= end`, and
    /// both offsets fall on character boundaries of the haystack, so that
    /// slicing it with them is valid.
    #[verifier::external_body]
    fn find_ranges(&self, input: &str) -> (r: Vec<(usize, usize)>)
        ensures
            r@ == regex_matches(self.source(), input@),
            valid_ranges(r@, input.spec_bytes()),
    {
        self.re.find_iter(input).map(|m| (m.start(), m.end())).collect()
    }
}

/// Keywords count from 1, and each ends before the next one starts.
pub open spec fn keywords_ordered(segs: Seq<SegmentView>) -> bool {
    &&& forall|i: int| 0 <= i < segs.len() && (#[trigger] segs[i]).is_keyword() ==> 1 <= segs[i].offset()
    &&& forall|i: int, j: int|
        0 <= i < j < segs.len() && (#[trigger] segs[i]).is_keyword() && (#[trigger] segs[j]).is_keyword()
            ==> segs[i].offset() + segs[i].text().len() <= segs[j].offset()
}

/// Finds the matches of `p` in `input` and cuts the line around them: `None`
/// exactly when there is no match, and otherwise the segment layout of the
/// matches. The segments join back into the line; keywords count from 1 and
/// come in order; a match at the start or at the end of the line, and two
/// matches with nothing between them, leave no text segment there. The
/// bound on the byte length only rules out a size that no `str` reaches.
pub fn grep<'b>(p: &Pattern, input: &'b str) -> (r: Option<Vec<Segment<'b>>>)
    requires
        input.spec_bytes().len() < usize::MAX,
    ensures
        r is None <==> regex_matches(p.source(), input@).len() == 0,
        r matches Some(v) ==> views(v@) == layout(input.spec_bytes(), regex_matches(p.source(), input@)),
        r matches Some(v) ==> joined(views(v@)) == input@,
        r matches Some(v) ==> keywords_ordered(views(v@)),
        r matches Some(v) ==> ({
            let ms = regex_matches(p.source(), input@);
            ms[0].0 == 0 ==> v@.len() > 0 && v@[0]@ == keyword_at(input.spec_bytes(), ms[0]) && v@[0]@.offset() == 1
        }),
        r matches Some(v) ==> ({
            let ms = regex_matches(p.source(), input@);
            ms.last().1 == input.spec_bytes().len() ==> v@.len() > 0 && v@.last()@ == keyword_at(
                input.spec_bytes(),
                ms.last(),
            )
        }),
        r matches Some(v) ==> ({
            let ms = regex_matches(p.source(), input@);
            forall|k: int|
                0 <= k && k + 1 < ms.len() && (#[trigger] ms[k]).1 == ms[k + 1].0 ==> {
                    let i = segments_through(input.spec_bytes(), ms, (k + 1) as nat).len() - 1;
                    &&& 0 <= i && i + 1 < v@.len()
                    &&& v@[i]@ == keyword_at(input.spec_bytes(), ms[k])
                    &&& v@[i + 1]@ == keyword_at(input.spec_bytes(), ms[k + 1])
                }
        }),
{
    let ranges = p.find_ranges(input);
    let r = decompose(&ranges, input);
    proof {
        let ms = ranges@;
        let b = input.spec_bytes();
        if r is Some {
            let v = r->0;
            let l = views(v@);
            assert(l.len() == v@.len());
            law_reconstruction(input, ms);
            assert forall|i: int| 0 <= i < l.len() && (#[trigger] l[i]).is_keyword() implies 1 <= l[i].offset() by {
                law_offsets_from_one(input, ms, i);
            }
            assert forall|i: int, j: int|
                0 <= i < j < l.len() && (#[trigger] l[i]).is_keyword() && (#[trigger] l[j]).is_keyword()
                implies l[i].offset() + l[i].text().len() <= l[j].offset() by {
                law_offsets_increase(input, ms, i, j);
            }
            if ms[0].0 == 0 {
                law_match_at_start(input, ms);
                assert(l[0] == v@[0]@);
            }
            if ms.last().1 == b.len() {
                law_match_at_end(input, ms);
                assert(l[l.len() - 1] == v@[v@.len() - 1]@);
            }
            assert forall|k: int|
                0 <= k && k + 1 < ms.len() && (#[trigger] ms[k]).1 == ms[k + 1].0 implies ({
                    let i = segments_through(b, ms, (k + 1) as nat).len() - 1;
                    &&& 0 <= i && i + 1 < v@.len()
                    &&& v@[i]@ == keyword_at(b, ms[k])
                    &&& v@[i + 1]@ == keyword_at(b, ms[k + 1])
                }) by {
                law_adjacent_matches(input, ms, k);
                let i = segments_through(b, ms, (k + 1) as nat).len() - 1;
                assert(l[i] == v@[i]@);
                assert(l[i + 1] == v@[i + 1]@);
            }
        }
    }
    r
}

} // verus!
