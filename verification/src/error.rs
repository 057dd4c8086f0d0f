use vstd::prelude::*;

verus! {

/// Why an event body could not be parsed.
#[derive(Debug, Clone, Copy, PartialEq, Eq, Structural)]
pub enum BinlogError {
    /// The buffer ended before the field was complete.
    UnexpectedEof,
    /// A relative seek led before the start of the buffer, or past the largest position.
    InvalidSeek,
    /// Bytes that hold a string are not UTF-8.
    InvalidUtf8,
    /// A packed number began with this byte, which is neither a value nor a length marker.
    InvalidPackedNumber(u8),
    /// The status variables of a query event lead back to themselves and never reach the end
    /// of their block.
    EndlessStatusVars,
}

} // verus!
