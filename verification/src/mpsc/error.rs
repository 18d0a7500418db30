//! Outcomes of a send or receive that did not go through.

use vstd::prelude::*;

verus! {

/// The receiver is gone, so the value could not be sent.
///
/// The value comes back to the caller in the error's only field: a failed
/// send never drops it.
#[derive(PartialEq, Eq, Clone, Copy, Debug)]
pub struct SendError<T>(pub T);

/// Why a blocking receive gave up.
#[derive(PartialEq, Eq, Clone, Copy, Debug)]
pub enum RecvError {
    /// The channel is empty and every sender has been dropped.
    Disconnected,
}

/// Why a non-blocking receive returned no value.
#[derive(PartialEq, Eq, Clone, Copy, Debug)]
pub enum TryRecvError {
    /// The channel is empty for now, but a sender is still alive.
    Empty,
    /// The channel is empty and every sender has been dropped.
    Disconnected,
}

impl<T> SendError<T> {
    /// The text shown to a person for this error.
    pub fn message(&self) -> (text: &'static str)
        ensures
            text@ == "sending on a disconnected channel"@,
    {
        "sending on a disconnected channel"
    }
}

impl RecvError {
    /// The text shown to a person for this error.
    pub fn message(&self) -> (text: &'static str)
        ensures
            text@ == "receiving on an empty and disconnected channel"@,
    {
        "receiving on an empty and disconnected channel"
    }
}

impl TryRecvError {
    /// The text shown to a person for this error: one sentence for each kind.
    pub fn message(&self) -> (text: &'static str)
        ensures
            *self == TryRecvError::Empty ==> text@ == "receiving on an empty channel"@,
            *self == TryRecvError::Disconnected ==> text@
                == "receiving on an empty and disconnected channel"@,
    {
        match self {
            TryRecvError::Empty => "receiving on an empty channel",
            TryRecvError::Disconnected => "receiving on an empty and disconnected channel",
        }
    }
}

} // verus!
