use vstd::prelude::*;

verus! {

/// The errors the library reports.
#[derive(Clone, Copy, PartialEq, Eq, Debug)]
pub enum Error {
    /// An input or output error occurred: here, data that should be text
    /// is not valid UTF-8.
    Io,
    /// An internal error occurred.
    Internal,
    /// The operation needs input that is still arriving.
    InProgress,
    /// The operation is not implemented.
    Unimplemented,
}

} // verus!
