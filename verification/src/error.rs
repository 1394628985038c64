use vstd::prelude::*;

verus! {

/// Failures of the incremental decoder.
///
/// Every failure is detected before the offending collection allocates in the
/// destination arena, and is propagated unchanged through every nesting level.
#[derive(Clone, Copy, Debug, PartialEq, Eq, Structural)]
pub enum DecodeError {
    /// A length field exceeds the platform's addressable size.
    LengthOverflow,
    /// A length field claims more bytes than remain in the input.
    BudgetExceeded,
    /// The reader was exhausted in the middle of an element.
    UnexpectedEnd,
    /// An element payload is malformed.
    FormatError,
}

} // verus!
