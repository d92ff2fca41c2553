use vstd::prelude::*;

verus! {

/// Failures that decoding an encoded chain can surface.
///
/// These are the decoder's diagnostic channel; the string-based query entry
/// points collapse all of them into "no value".
#[derive(Clone, Copy, PartialEq, Eq, Structural, Debug)]
pub enum DecodeError {
    /// A byte outside the base62 alphabet stood where digits were expected.
    InvalidCharacter { byte: u8 },
    /// A token had no digits after its sign hyphens (stray or trailing hyphens).
    MalformedToken,
    /// A decoded magnitude is too large for the fixed-point range that this
    /// library represents exactly.
    PrecisionLoss,
}

} // verus!
