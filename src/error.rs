use vstd::prelude::*;

verus! {

/// The ways a request can fail.
#[derive(Debug, Clone, Copy, PartialEq, Eq, Structural)]
pub enum Error {
    /// Malformed RESP: the connection is closed.
    Protocol,
    /// The verb is not one this server knows.
    UnknownCommand,
    /// The command has a number of arguments it does not accept.
    BadArity,
    /// An argument has a value the command does not accept.
    BadArgument,
}

} // verus!
