use vstd::prelude::*;

verus! {

/// Why decoding an entry failed.
#[derive(Debug, Clone, Copy, PartialEq, Eq, Structural)]
pub enum Error {
    /// The source ran out of bytes where more were required.
    UnexpectedEnd,
    /// A name or MIME type is not valid UTF-8.
    InvalidEncoding,
    /// A packed payload expands beyond the size its header declares.
    Overrun,
}

} // verus!
