use vstd::prelude::*;

verus! {

/// Why an extraction failed. Every failure leaves the items already pulled consumed.
#[derive(Debug, Clone, Copy, PartialEq, Eq, Structural)]
pub enum PatternError {
    /// The source ran out before the requested items (or the anchor) were found.
    NotFound,
    /// An examined item differed from the value expected at its position.
    IncorrectValue,
    /// A raw run was pulled but could not be decoded; carries the cursor's
    /// total consumed count at that point.
    FailedDeserialize(usize),
}

} // verus!
