//! The error values of the library and the failure taxonomy they carry:
//! transport and decode failures terminate a worker, channel failures mark
//! a dead peer, and protocol failures stop the dispatch loop.

use vstd::prelude::*;

use crate::connection::ConnectionId;
use crate::message::Message;

verus! {

/// The enum of all error values for this crate.
///
/// Transport failures and malformed input are detected by the unverified
/// shell around the library; it reports them through `IoError` and
/// `JsonError`.  The remaining variants are produced by the library itself.
#[derive(Debug)]
pub enum Error {
    /// A read or write on a stream failed.
    IoError,
    /// A line of input could not be decoded as a message.
    JsonError,
    /// A send failed because the receiving worker is gone.
    SenderDisconnected,
    /// A receive failed because every sender is gone.
    ReceiverDisconnected,
    /// Failed to hand a received message to the shared inbound queue.
    SendError,
    /// Failed to join a worker thread.
    ThreadJoinError,
    /// The given id names no live connection.
    InvalidConnectionId(ConnectionId),
    /// Failed to lock the registry.
    MutexLockError,
    /// The dispatch loop received a message it does not route.
    UnexpectedMessage(Message),
}

/// The description `describe` gives of each error.
pub open spec fn describe_error_spec(e: Error) -> Seq<char> {
    match e {
        Error::IoError => "i/o error"@,
        Error::JsonError => "failed to decode a message"@,
        Error::SenderDisconnected => "recv failed: sender disconnected"@,
        Error::ReceiverDisconnected => "recv failed: receiver disconnected"@,
        Error::SendError => "failed to send on a channel"@,
        Error::ThreadJoinError => "failed to join a thread"@,
        Error::InvalidConnectionId(_) => "invalid client id"@,
        Error::MutexLockError => "failed to lock mutex"@,
        Error::UnexpectedMessage(_) => "unexpected message"@,
    }
}

impl Error {
    /// A short description of the error, in place of `Display`.
    pub fn describe(&self) -> (r: &'static str)
        ensures
            r@ == describe_error_spec(*self),
    {
        match self {
            Error::IoError => "i/o error",
            Error::JsonError => "failed to decode a message",
            Error::SenderDisconnected => "recv failed: sender disconnected",
            Error::ReceiverDisconnected => "recv failed: receiver disconnected",
            Error::SendError => "failed to send on a channel",
            Error::ThreadJoinError => "failed to join a thread",
            Error::InvalidConnectionId(_) => "invalid client id",
            Error::MutexLockError => "failed to lock mutex",
            Error::UnexpectedMessage(_) => "unexpected message",
        }
    }
}

} // verus!
