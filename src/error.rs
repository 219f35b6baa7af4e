use vstd::prelude::*;

verus! {

/// Why a synthesis run did not produce an image.
#[derive(Clone, Copy, Debug, PartialEq, Eq, Structural)]
pub enum SynthesisError {
    /// A pattern dimension is zero or exceeds the exemplar's, or a target
    /// dimension is zero.
    InvalidConfiguration,
    /// Some output cell was left without any candidate pattern.
    Contradiction,
}

} // verus!
