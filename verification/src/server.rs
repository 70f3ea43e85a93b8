//! The router's dispatch rule: what one received (connection id, message)
//! pair does to the registry.  The accept and receive loops around it
//! live outside the library.

use vstd::prelude::*;

use crate::connection::{broadcast_spec, ConnectionId, ConnectionRegistry};
use crate::error::Error;
use crate::message::Message;
use crate::MpResult;

verus! {

/// One step of the router's dispatch activity: route one received
/// (connection id, message) pair against the registry.
///
/// Data-plane payloads (`Ping`, `Text`) are forwarded to every other live
/// connection; forwarding failures are dead peers to evict, never fatal to
/// the loop.  `Disconnect` removes and disconnects the producing
/// connection, and an unknown id there is a hard error.  Any other tag is
/// an unexpected-message hard error: the dispatch loop does not guess
/// intent for unknown tags, and its caller terminates on the error.
pub fn dispatch(registry: &mut ConnectionRegistry, id: ConnectionId, msg: Message) -> (r:
    MpResult<()>)
    requires
        old(registry)@.wf(),
    ensures
        final(registry)@.wf(),
        final(registry)@.next_id == old(registry)@.next_id,
        (msg@ is Ping || msg@ is Text) ==> r is Ok && final(registry)@.conns == broadcast_spec(
            old(registry)@.conns,
            msg@,
            id,
        ),
        msg@ is Disconnect && old(registry)@.has_id(id) ==> r is Ok && final(registry)@.conns
            == old(registry)@.conns.remove(old(registry)@.idx_of(id)),
        msg@ is Disconnect && !old(registry)@.has_id(id) ==> r == Err::<(), Error>(
            Error::InvalidConnectionId(id),
        ) && final(registry)@ == old(registry)@,
        (msg@ is InvalidMessage || msg@ is Error) ==> r == Err::<(), Error>(
            Error::UnexpectedMessage(msg),
        ) && final(registry)@ == old(registry)@,
{
    let data_plane = matches!(&msg, Message::Ping | Message::Text(_));
    let control_plane = matches!(&msg, Message::Disconnect);
    if data_plane {
        // distribute the message to the other clients; a failed forward is
        // handled inside the pass and is not fatal to the loop
        let _ = registry.forward_to_all(msg, id);
        Ok(())
    } else if control_plane {
        // disconnect the connection that produced the message
        registry.disconnect(id)
    } else {
        Err(Error::UnexpectedMessage(msg))
    }
}

} // verus!
