use vstd::prelude::*;

verus! {

/// Failure taxonomy for every fallible operation of the library.
#[derive(Debug, Clone, Copy, PartialEq, Eq, Structural)]
pub enum PngError {
    /// The byte stream is malformed: bad signature or truncated chunk framing.
    Format,
    /// A chunk's stored CRC disagrees with the CRC computed over type + payload.
    CrcMismatch,
    /// A caller-supplied chunk-type string is not four ASCII letters.
    Validation,
    /// A chunk payload was requested as text but is not valid UTF-8.
    Encoding,
}

} // verus!
