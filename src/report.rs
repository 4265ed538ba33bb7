//! What the line reporter needs from a line's segments.
use vstd::prelude::*;

use crate::segment::{keyword_starts, Segment};
use crate::segmenter::views;

verus! {

/// The character offsets of the keyword segments, in order.
pub fn keyword_offsets(segments: &Vec<Segment>) -> (r: Vec<usize>)
    ensures
        r@.map_values(|x: usize| x as int) == keyword_starts(views(segments@)),
{
    let mut r: Vec<usize> = Vec::new();
    let mut i: usize = 0;
    while i < segments.len()
        invariant
            i <= segments@.len(),
            r@.map_values(|x: usize| x as int) == keyword_starts(views(segments@.subrange(0, i as int))),
        decreases segments@.len() - i,
    {
        let ghost seen = views(segments@.subrange(0, i as int + 1));
        assert(seen.drop_last() =~= views(segments@.subrange(0, i as int)));
        assert(seen.last() == segments@[i as int]@);
        match &segments[i] {
            Segment::Keyword(k) => {
                r.push(k.char_start);
            },
            Segment::Text(_) => {},
        }
        i = i + 1;
        assert(r@.map_values(|x: usize| x as int) =~= keyword_starts(seen));
    }
    assert(segments@.subrange(0, i as int) =~= segments@);
    r
}

} // verus!
