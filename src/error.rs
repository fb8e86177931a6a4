use vstd::prelude::*;

verus! {

/// Why an encode or decode call was refused.
#[derive(Clone, Copy, Debug, PartialEq, Eq, Structural)]
pub enum CodecError {
    /// A wrap width of zero was asked for.
    InvalidConfiguration,
    /// The encoded input holds a byte outside the alphabet, misplaced padding,
    /// or a second final group.
    InvalidInput,
}

} // verus!
