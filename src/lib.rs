//! Splits a line of text into plain and highlighted segments around the
//! matches of a pattern, reporting each match's 1-based character offset.

pub mod laws;
pub mod layout;
pub mod matcher;
pub mod report;
pub mod segment;
pub mod segmenter;

pub use matcher::{grep, Pattern};
pub use report::keyword_offsets;
pub use segment::{Keyword, Segment};
pub use segmenter::decompose;
