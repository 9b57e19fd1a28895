use vstd::prelude::*;

verus! {

/// Why a source-map document could not be loaded.
///
/// Positions are byte offsets into the `mappings` string.
#[derive(Debug, PartialEq, Eq)]
pub enum SourceMapError {
    /// The input text is not well-formed JSON; carries the parser's message.
    InvalidJson(String),
    /// A required top-level field is missing or has the wrong shape.
    MalformedSourceMap(String),
    /// A byte outside the 64-symbol alphabet where a VLQ digit was expected.
    InvalidVlqCharacter(u8, usize),
    /// A continuation bit with no following digit.
    TruncatedVlq(usize),
    /// A VLQ value that needs more than six digits.
    VlqTooLong(usize),
    /// A segment whose field count is not 1, 4 or 5; the position is where it ends.
    InvalidSegment(usize),
    /// An accumulated line, column or table index left the range of `u32`;
    /// the position is where the segment or line ends.
    PositionOutOfRange(usize),
}

} // verus!
