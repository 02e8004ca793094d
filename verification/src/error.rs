//! Errors of the listening sockets, as far as the accept loop tells them apart.
use std::io;
use vstd::prelude::*;

verus! {

/// `std::io::Error` is carried through the library unopened.
#[verifier::external_type_specification]
#[verifier::external_body]
pub struct ExIoError(std::io::Error);

/// The kinds of I/O error that the accept loop treats differently.
#[derive(Debug, Clone, Copy, PartialEq, Eq, Structural)]
pub enum ErrorKind {
    /// The connection was refused by the remote side.
    ConnectionRefused,
    /// The connection was aborted by the remote side.
    ConnectionAborted,
    /// The connection was reset by the remote side.
    ConnectionReset,
    /// The operation would have to block.
    WouldBlock,
    /// The operation was interrupted by a signal.
    Interrupted,
    /// Anything else.
    Other,
}

/// The kind that `std::io::Error::kind` reports for an error.
pub uninterp spec fn error_kind_of(e: io::Error) -> ErrorKind;

/// Calls `std::io::Error::kind` and carries its answer over, variant by variant, into
/// [`ErrorKind`]; every kind that the loop does not tell apart becomes `Other`. Claimed of the
/// call: the kind belongs to the error, so asking the same error again gives the same kind.
#[verifier::external_body]
fn error_kind(e: &io::Error) -> (kind: ErrorKind)
    ensures
        kind == error_kind_of(*e),
{
    match e.kind() {
        io::ErrorKind::ConnectionRefused => ErrorKind::ConnectionRefused,
        io::ErrorKind::ConnectionAborted => ErrorKind::ConnectionAborted,
        io::ErrorKind::ConnectionReset => ErrorKind::ConnectionReset,
        io::ErrorKind::WouldBlock => ErrorKind::WouldBlock,
        io::ErrorKind::Interrupted => ErrorKind::Interrupted,
        _ => ErrorKind::Other,
    }
}

impl ErrorKind {
    /// The error belongs to one connection and says nothing about the listening socket.
    pub open spec fn per_connection(self) -> bool {
        ||| self is ConnectionRefused
        ||| self is ConnectionAborted
        ||| self is ConnectionReset
    }

    /// The kind of an I/O error.
    pub fn of(e: &io::Error) -> (kind: ErrorKind)
        ensures
            kind == error_kind_of(*e),
    {
        error_kind(e)
    }

    /// Tells whether the operation was interrupted and may simply be done again.
    pub fn is_interrupted(&self) -> (r: bool)
        ensures
            r == (self is Interrupted),
    {
        matches!(self, ErrorKind::Interrupted)
    }

    /// Tells whether errors of this kind belong to one connection only.
    pub fn is_connection_error(&self) -> (r: bool)
        ensures
            r == self.per_connection(),
            r <==> *self == ErrorKind::ConnectionRefused || *self == ErrorKind::ConnectionAborted
                || *self == ErrorKind::ConnectionReset,
    {
        match self {
            ErrorKind::ConnectionRefused
            | ErrorKind::ConnectionAborted
            | ErrorKind::ConnectionReset => true,
            _ => false,
        }
    }
}

/// Tells whether an error of `accept()` is per-connection, which means that the next
/// connection might be ready to be accepted.
///
/// All other errors incur a timeout before the next `accept()` is performed. The timeout is
/// useful to handle resource exhaustion errors like ENFILE and EMFILE, which could otherwise
/// lead into a tight loop.
pub fn connection_error(e: &io::Error) -> (r: bool)
    ensures
        r == error_kind_of(*e).per_connection(),
        r <==> error_kind_of(*e) == ErrorKind::ConnectionRefused || error_kind_of(*e)
            == ErrorKind::ConnectionAborted || error_kind_of(*e) == ErrorKind::ConnectionReset,
{
    ErrorKind::of(e).is_connection_error()
}

} // verus!
