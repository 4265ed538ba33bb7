//! The segments a line is cut into, and their mathematical view.
use vstd::prelude::*;

verus! {

/// A matched piece of a line, with the 1-based index of its first character.
#[derive(Debug, PartialEq, Eq)]
pub struct Keyword<'a> {
    pub text: &'a str,
    pub char_start: usize,
}

/// One piece of a line: unmatched text, or a keyword matched by the pattern.
#[derive(Debug, PartialEq, Eq)]
pub enum Segment<'a> {
    Text(&'a str),
    Keyword(Keyword<'a>),
}

/// What a segment stands for: its characters and, for a keyword, its offset.
pub enum SegmentView {
    Text(Seq<char>),
    Keyword { text: Seq<char>, char_start: int },
}

impl SegmentView {
    pub open spec fn text(self) -> Seq<char> {
        match self {
            SegmentView::Text(t) => t,
            SegmentView::Keyword { text, .. } => text,
        }
    }

    pub open spec fn is_keyword(self) -> bool {
        self is Keyword
    }

    /// The character offset of a keyword (0 for text).
    pub open spec fn offset(self) -> int {
        match self {
            SegmentView::Text(_) => 0,
            SegmentView::Keyword { char_start, .. } => char_start,
        }
    }
}

/// The characters of a sequence of segments, one after another.
pub open spec fn joined(segs: Seq<SegmentView>) -> Seq<char>
    decreases segs.len(),
{
    if segs.len() == 0 {
        seq![]
    } else {
        joined(segs.drop_last()) + segs.last().text()
    }
}

/// The offsets of the keywords among `segs`, in order.
pub open spec fn keyword_starts(segs: Seq<SegmentView>) -> Seq<int>
    decreases segs.len(),
{
    if segs.len() == 0 {
        seq![]
    } else if segs.last().is_keyword() {
        keyword_starts(segs.drop_last()).push(segs.last().offset())
    } else {
        keyword_starts(segs.drop_last())
    }
}

impl<'a> View for Segment<'a> {
    type V = SegmentView;

    open spec fn view(&self) -> SegmentView {
        match self {
            Segment::Text(t) => SegmentView::Text(t@),
            Segment::Keyword(k) => SegmentView::Keyword { text: k.text@, char_start: k.char_start as int },
        }
    }
}

} // verus!
