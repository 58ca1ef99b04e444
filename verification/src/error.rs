use vstd::prelude::*;

verus! {

/// The errors the codecs and the address tree report.
///
/// Every operation that can reject its input returns one of these as a typed
/// result; none of the operations panics on malformed input.
#[derive(Debug, Clone, PartialEq, Eq)]
pub enum OscQueryError {
    /// A lookup walked the tree and found no child for a path segment.
    /// Carries the path as it was given.
    BadAddress(String),
    /// A type-tag decode saw a character outside the tag alphabet.
    UnknownTag(char),
    /// A unit decode saw a category or member token outside the known sets.
    /// Carries the offending token.
    UnknownUnitVariant(String),
    /// A range decode saw a bound key other than `MIN`, `MAX` or `VALS`.
    UnknownRangeKey(String),
    /// A type-tag decode was handed an empty string where a non-empty tag
    /// string was expected.
    InvalidEmptyTypeString,
}

} // verus!
