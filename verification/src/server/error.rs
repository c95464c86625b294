//! The errors of the connection-handling layer.

use vstd::prelude::*;

verus! {

/// What can go wrong while serving one request.
#[derive(Debug, Clone, Copy, PartialEq, Eq, Structural)]
pub enum ServerError {
    /// The request bytes could not be read from the connection.
    FailedToReadStream,
    /// The frame payload could not be decoded into a command.
    UnableToDecodeBytes,
    /// The opcode names no command.
    CommandNotFound,
    /// A get had no value to return.
    GetFoundNone,
}

impl ServerError {
    /// One line describing the error.
    pub fn message(&self) -> (r: String)
        ensures
            *self is FailedToReadStream ==> r@ == "Failed to read from stream"@,
            *self is UnableToDecodeBytes ==> r@ == "Unable to decode bytes"@,
            *self is CommandNotFound ==> r@ == "Command is not found"@,
            *self is GetFoundNone ==> r@ == "Found None"@,
    {
        match self {
            ServerError::FailedToReadStream => "Failed to read from stream".to_owned(),
            ServerError::UnableToDecodeBytes => "Unable to decode bytes".to_owned(),
            ServerError::CommandNotFound => "Command is not found".to_owned(),
            ServerError::GetFoundNone => "Found None".to_owned(),
        }
    }
}

} // verus!
