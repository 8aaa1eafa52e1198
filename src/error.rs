//! What can go wrong when an outline is made.
use vstd::prelude::*;

verus! {

/// The errors of the outline pipeline.
#[derive(Debug, PartialEq, Eq)]
pub enum FreeoutError {
    /// The reader could not parse the source.
    Format { message: String },
    /// The ids are not exactly `1..=N`: in ascending order, the first id that is
    /// not the one expected.
    IdDiscontinuity { expected: usize, found: usize },
    /// A block lists a child that the set does not hold under that id after
    /// its parent: absent, not greater than the parent's id, or holding
    /// another id.
    MissingChild { parent: usize, child: usize },
    /// A root is held under a key other than its id.
    IdMismatch { key: usize, found: usize },
    /// A header starts past the end of the text or inside a character.
    HeaderOutOfText,
    /// More events than the block ids can number.
    TooManyEvents,
}

} // verus!
