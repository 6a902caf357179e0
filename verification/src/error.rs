use vstd::prelude::*;

verus! {

/// Declares std's `std::io::Error` so that `UnixError` can carry one. Nothing
/// inside such a value is seen or claimed; it is only passed along.
#[verifier::external_type_specification]
#[verifier::external_body]
pub struct ExIoError(std::io::Error);

/// Represents error that can occur when reading from a Unix domain socket.
#[derive(Debug)]
pub enum UnixError {
    /// The message was too large.
    TooLarge,
    /// Malformed request
    Malformed,
    /// I/O error
    Io(std::io::Error),
}

} // verus!
