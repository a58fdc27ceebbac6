use vstd::prelude::*;

verus! {

/// The conditions under which building or reading a message fails.
///
/// Every one of them is local and recoverable: buffers may come from
/// untrusted sources, so no operation aborts on bad input.
#[derive(Clone, Copy, Debug, PartialEq, Eq, Structural)]
pub enum Error {
    /// An allocation, padding included, does not fit in what is left of the
    /// arena.
    OutOfSpace,
    /// A value is larger than the fixed-width field that has to encode it.
    ValueTooLarge,
    /// Following a reference would read outside the buffer: the reference
    /// leads out of it, or the value it leads to declares a length that
    /// runs past its end.
    OutOfBounds,
    /// A byte range is shorter than the layout it is said to hold.
    Truncated,
    /// A payload is not well-formed text in its declared encoding.
    InvalidEncoding,
}

} // verus!
