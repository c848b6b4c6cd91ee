//! The error taxonomy of the driver.

use vstd::prelude::*;

verus! {

/// Everything that can go wrong in one exchange with the module.
#[derive(Debug, PartialEq, Eq, Structural, Clone, Copy)]
pub enum Error {
    /// The transport failed while a byte was being read.
    SerialRead,
    /// The transport failed while a byte was being written.
    SerialWrite,
    /// The module answered `ERROR`: the command or its parameters were malformed.
    CommandError,
    /// The module answered `FAIL`: the command was well formed but could not be carried out.
    CommandFailed,
    /// The module did not read back what the exchange required.
    CommandReadFail,
}

/// A `Result` whose error is an [`Error`].
pub type EResult<T> = Result<T, Error>;

} // verus!
