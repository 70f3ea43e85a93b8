//! Connection lifecycle and message fan-out: the per-connection control
//! state with its two worker state machines, and the registry that keys
//! live connections by a monotonically assigned id, broadcasts to peers
//! and reclaims dead connections.

use vstd::prelude::*;

use crate::error::Error;
use crate::message::{Message, MessageView};
use crate::MpResult;

verus! {

/// The unique ID of a [`Connection`].
pub type ConnectionId = usize;

/// The message type for communicating with worker threads.
#[derive(Debug)]
pub enum Action {
    /// Requests the worker to write the given message to its client stream.
    Forward(Message),
    /// Requests the worker to shut down gracefully.
    ///
    /// The client must be told of the disconnect (via a
    /// `Message::Disconnect`) before the worker is told to stop.
    Disconnect,
}

/// The control state of one accepted connection.
///
/// A live connection runs two workers over the same stream: a reader that
/// pulls messages off the stream, and a writer that drains the outbound
/// queue.  This type tracks what the workers have been told: whether their
/// handles are still held, whether the writer still accepts outbound
/// messages, and what has been queued for it.
pub struct Connection {
    id: ConnectionId,
    send_worker: bool,
    recv_worker: bool,
    writer_open: bool,
    outbound: Vec<Message>,
}

/// The mathematical value of a [`Connection`].
#[verifier::ext_equal]
pub struct ConnectionView {
    pub id: ConnectionId,
    pub send_worker: bool,
    pub recv_worker: bool,
    pub writer_open: bool,
    pub outbound: Seq<MessageView>,
}

impl View for Connection {
    type V = ConnectionView;

    closed spec fn view(&self) -> ConnectionView {
        ConnectionView {
            id: self.id,
            send_worker: self.send_worker,
            recv_worker: self.recv_worker,
            writer_open: self.writer_open,
            outbound: self.outbound@.map_values(|m: Message| m@),
        }
    }
}

impl ConnectionView {
    /// The two workers run or have been stopped together, and only a
    /// running send worker accepts outbound messages: a connection is
    /// never observably half-alive.
    pub open spec fn wf(self) -> bool {
        &&& self.send_worker == self.recv_worker
        &&& self.writer_open ==> self.send_worker
    }
}

/// What a successful `forward` does to a connection.
pub open spec fn forward_spec(c: ConnectionView, m: MessageView) -> ConnectionView {
    ConnectionView { outbound: c.outbound.push(m), ..c }
}

/// What `disconnect` does: a best-effort Disconnect note for the client,
/// then both workers are signalled to stop and the queue closes.
pub open spec fn disconnect_spec(c: ConnectionView) -> ConnectionView {
    ConnectionView {
        send_worker: false,
        recv_worker: false,
        writer_open: false,
        outbound: if c.writer_open {
            c.outbound.push(MessageView::Disconnect)
        } else {
            c.outbound
        },
        ..c
    }
}

impl Connection {
    /// Create a new connection with both workers running and nothing queued.
    pub fn new(id: ConnectionId) -> (c: Connection)
        ensures
            c@ == (ConnectionView {
                id,
                send_worker: true,
                recv_worker: true,
                writer_open: true,
                outbound: Seq::empty(),
            }),
            c@.wf(),
    {
        let c = Connection {
            id,
            send_worker: true,
            recv_worker: true,
            writer_open: true,
            outbound: Vec::new(),
        };
        proof {
            assert(c@.outbound =~= Seq::<MessageView>::empty());
        }
        c
    }

    /// Retrieve the connection's id.
    pub fn id(&self) -> (r: ConnectionId)
        ensures
            r == self@.id,
    {
        self.id
    }

    /// Send a message to the client through the sender worker.
    ///
    /// Fails with `SenderDisconnected` when the worker's queue is already
    /// closed: the signal the registry uses to detect a dead peer.
    pub fn forward(&mut self, msg: Message) -> (r: MpResult<()>)
        ensures
            old(self)@.writer_open ==> r is Ok
                && final(self)@ == forward_spec(old(self)@, msg@),
            !old(self)@.writer_open ==> r == Err::<(), Error>(Error::SenderDisconnected)
                && final(self)@ == old(self)@,
    {
        if self.writer_open {
            self.outbound.push(msg);
            proof {
                assert(self@ =~= forward_spec(old(self)@, msg@));
            }
            Ok(())
        } else {
            Err(Error::SenderDisconnected)
        }
    }

    /// Record that the peer side is gone: the writer worker has exited and
    /// its queue no longer accepts messages.  The next `forward` fails.
    pub fn peer_closed(&mut self)
        ensures
            final(self)@ == (ConnectionView { writer_open: false, ..old(self)@ }),
    {
        self.writer_open = false;
        proof {
            assert(self@ =~= (ConnectionView { writer_open: false, ..old(self)@ }));
        }
    }

    /// Disconnect the connection: tell the client (best-effort), then stop
    /// the send worker and the receive worker.  Idempotent: a second call
    /// queues no second Disconnect and changes nothing.
    pub fn disconnect(&mut self)
        ensures
            final(self)@ == disconnect_spec(old(self)@),
            final(self)@.wf(),
    {
        // tell the client we are disconnecting; log-and-continue on failure
        let _ = self.forward(Message::Disconnect);
        // stop the send worker and let it exit after draining
        if self.send_worker {
            self.send_worker = false;
        }
        self.writer_open = false;
        // stop the receive worker
        if self.recv_worker {
            self.recv_worker = false;
        }
        proof {
            assert(self@ =~= disconnect_spec(old(self)@));
        }
    }

    /// Hand out the queued messages, as the writer worker drains its queue.
    pub fn drain_outbound(&mut self) -> (r: Vec<Message>)
        ensures
            r@.map_values(|m: Message| m@) == old(self)@.outbound,
            final(self)@ == (ConnectionView { outbound: Seq::empty(), ..old(self)@ }),
    {
        let r = self.outbound.split_off(0);
        proof {
            assert(r@ =~= old(self).outbound@);
            assert(self@.outbound =~= Seq::<MessageView>::empty());
            assert(self@ =~= (ConnectionView { outbound: Seq::empty(), ..old(self)@ }));
        }
        r
    }

    /// The messages queued for the writer worker, oldest first.
    pub fn outbound(&self) -> (r: &Vec<Message>)
        ensures
            r@.map_values(|m: Message| m@) == self@.outbound,
    {
        &self.outbound
    }

    /// Whether the writer worker still accepts outbound messages.
    pub fn is_writer_open(&self) -> (r: bool)
        ensures
            r == self@.writer_open,
    {
        self.writer_open
    }
}

/// Disconnecting twice is the same as disconnecting once: the second call
/// queues no second Disconnect message and stops no further worker.
pub proof fn lemma_disconnect_idempotent(c: ConnectionView)
    ensures
        disconnect_spec(disconnect_spec(c)) == disconnect_spec(c),
{
    assert(disconnect_spec(disconnect_spec(c)) =~= disconnect_spec(c));
}

/// The views of a list of connections.
pub open spec fn views_of(s: Seq<Connection>) -> Seq<ConnectionView> {
    s.map_values(|c: Connection| c@)
}

/// A collection for allocating and managing many client connections.
///
/// The registry owns the map from id to live connection, keyed by a
/// monotonically assigned id that is never reused, and is the single
/// point of mutation for the connection lifecycle.
pub struct ConnectionRegistry {
    next_id: ConnectionId,
    connections: Vec<Connection>,
}

/// The mathematical value of a [`ConnectionRegistry`].
#[verifier::ext_equal]
pub struct RegistryView {
    pub next_id: ConnectionId,
    pub conns: Seq<ConnectionView>,
}

impl View for ConnectionRegistry {
    type V = RegistryView;

    closed spec fn view(&self) -> RegistryView {
        RegistryView { next_id: self.next_id, conns: views_of(self.connections@) }
    }
}

impl RegistryView {
    /// Every connection is well formed; ids were assigned in increasing
    /// order and never reused, so they are strictly ascending and below
    /// `next_id`.
    pub open spec fn wf(self) -> bool {
        &&& forall|i: int| 0 <= i < self.conns.len() ==> (#[trigger] self.conns[i]).wf()
        &&& forall|i: int|
            0 <= i < self.conns.len() ==> (#[trigger] self.conns[i]).id < self.next_id
        &&& forall|i: int, j: int|
            0 <= i < j < self.conns.len() ==> self.conns[i].id < self.conns[j].id
    }

    /// Whether some live connection has the given id.
    pub open spec fn has_id(self, id: ConnectionId) -> bool {
        exists|i: int| 0 <= i < self.conns.len() && (#[trigger] self.conns[i]).id == id
    }

    /// The index of the live connection with the given id.
    pub open spec fn idx_of(self, id: ConnectionId) -> int {
        choose|i: int| 0 <= i < self.conns.len() && (#[trigger] self.conns[i]).id == id
    }

    /// The live connection with the given id.
    pub open spec fn conn_of(self, id: ConnectionId) -> ConnectionView {
        self.conns[self.idx_of(id)]
    }
}

/// What one broadcast pass leaves of the connection list: the source is
/// skipped, every open peer gets the message queued, and every peer whose
/// queue is closed is dropped from the list.
pub open spec fn broadcast_spec(
    s: Seq<ConnectionView>,
    m: MessageView,
    src: ConnectionId,
) -> Seq<ConnectionView>
    decreases s.len(),
{
    if s.len() == 0 {
        Seq::empty()
    } else {
        let rest = broadcast_spec(s.drop_first(), m, src);
        if s[0].id == src {
            seq![s[0]] + rest
        } else if s[0].writer_open {
            seq![forward_spec(s[0], m)] + rest
        } else {
            rest
        }
    }
}

/// Whether some connection in `s` carries the same id as `c`.
pub open spec fn id_among(s: Seq<ConnectionView>, c: ConnectionView) -> bool {
    exists|i: int| 0 <= i < s.len() && (#[trigger] s[i]).id == c.id
}

/// A broadcast pass preserves well-formedness: every surviving connection
/// is well formed, keeps an id the list already had, and the ids stay
/// strictly ascending.
proof fn lemma_broadcast_spec_wf(s: Seq<ConnectionView>, m: MessageView, src: ConnectionId)
    requires
        forall|i: int| 0 <= i < s.len() ==> (#[trigger] s[i]).wf(),
        forall|i: int, j: int| 0 <= i < j < s.len() ==> s[i].id < s[j].id,
    ensures
        forall|j: int|
            0 <= j < broadcast_spec(s, m, src).len() ==> (#[trigger] broadcast_spec(
                s,
                m,
                src,
            )[j]).wf(),
        forall|j: int|
            0 <= j < broadcast_spec(s, m, src).len() ==> id_among(
                s,
                #[trigger] broadcast_spec(s, m, src)[j],
            ),
        forall|j1: int, j2: int|
            0 <= j1 < j2 < broadcast_spec(s, m, src).len() ==> broadcast_spec(s, m, src)[j1].id
                < broadcast_spec(s, m, src)[j2].id,
    decreases s.len(),
{
    lemma_broadcast_ids(s, m, src);
    if s.len() == 0 {
    } else {
        let b = broadcast_spec(s, m, src);
        let rest = broadcast_spec(s.drop_first(), m, src);
        lemma_broadcast_spec_wf(s.drop_first(), m, src);
        lemma_broadcast_ids(s.drop_first(), m, src);
        assert forall|j: int| 0 <= j < rest.len() implies s[0].id < rest[j].id by {
            assert(id_among(s.drop_first(), rest[j]));
            let i = choose|i: int|
                0 <= i < s.drop_first().len() && (#[trigger] s.drop_first()[i]).id == rest[j].id;
            assert(s.drop_first()[i] == s[i + 1]);
        }
        if s[0].id == src || s[0].writer_open {
            let head = if s[0].id == src {
                s[0]
            } else {
                forward_spec(s[0], m)
            };
            assert(b == seq![head] + rest);
            assert(b[0] == head);
            assert(head.id == s[0].id);
            assert forall|j: int| 0 <= j < b.len() implies (#[trigger] b[j]).wf() by {
                if j > 0 {
                    assert(b[j] == rest[j - 1]);
                }
            }
            assert forall|j1: int, j2: int| 0 <= j1 < j2 < b.len() implies b[j1].id < b[j2].id by {
                if j1 > 0 {
                    assert(b[j1] == rest[j1 - 1]);
                }
                assert(b[j2] == rest[j2 - 1]);
            }
        } else {
            assert(b == rest);
        }
    }
}

/// In a well-formed registry the id determines the index: `idx_of` is the
/// one position that carries it.
pub proof fn lemma_idx_of_unique(v: RegistryView, id: ConnectionId, i: int)
    requires
        v.wf(),
        0 <= i < v.conns.len(),
        v.conns[i].id == id,
    ensures
        v.has_id(id),
        v.idx_of(id) == i,
        v.conn_of(id) == v.conns[i],
{
    assert(v.has_id(id));
    let kk = v.idx_of(id);
    assert(0 <= kk < v.conns.len() && v.conns[kk].id == id);
    if kk < i {
        assert(v.conns[kk].id < v.conns[i].id);
    }
    if i < kk {
        assert(v.conns[i].id < v.conns[kk].id);
    }
}

/// Removing one connection keeps a registry well formed.
proof fn lemma_wf_remove(v: RegistryView, i: int)
    requires
        v.wf(),
        0 <= i < v.conns.len(),
    ensures
        (RegistryView { conns: v.conns.remove(i), ..v }).wf(),
{
    let c = v.conns.remove(i);
    assert forall|a: int|
        0 <= a < c.len() implies (#[trigger] c[a]).wf() && c[a].id < v.next_id by {
        if a < i {
            assert(c[a] == v.conns[a]);
        } else {
            assert(c[a] == v.conns[a + 1]);
        }
    }
    assert forall|a: int, b: int| 0 <= a < b < c.len() implies c[a].id < c[b].id by {
        if a < i {
            assert(c[a] == v.conns[a]);
        } else {
            assert(c[a] == v.conns[a + 1]);
        }
        if b < i {
            assert(c[b] == v.conns[b]);
        } else {
            assert(c[b] == v.conns[b + 1]);
        }
    }
}

/// Replacing one connection by a well-formed one with the same id keeps a
/// registry well formed.
proof fn lemma_wf_update(v: RegistryView, i: int, c: ConnectionView)
    requires
        v.wf(),
        0 <= i < v.conns.len(),
        c.wf(),
        c.id == v.conns[i].id,
    ensures
        (RegistryView { conns: v.conns.update(i, c), ..v }).wf(),
{
    let u = v.conns.update(i, c);
    assert forall|a: int|
        0 <= a < u.len() implies (#[trigger] u[a]).wf() && u[a].id < v.next_id by {
        if a != i {
            assert(u[a] == v.conns[a]);
        }
    }
    assert forall|a: int, b: int| 0 <= a < b < u.len() implies u[a].id < u[b].id by {
        if a != i {
            assert(u[a] == v.conns[a]);
        }
        if b != i {
            assert(u[b] == v.conns[b]);
        }
    }
}

impl ConnectionRegistry {
    /// Create an empty registry; the first connection gets id 0.
    pub fn new() -> (r: ConnectionRegistry)
        ensures
            r@ == (RegistryView { next_id: 0, conns: Seq::empty() }),
            r@.wf(),
    {
        let r = ConnectionRegistry { next_id: 0, connections: Vec::new() };
        proof {
            assert(r@.conns =~= Seq::<ConnectionView>::empty());
        }
        r
    }

    /// The number of live connections.
    pub fn len(&self) -> (r: usize)
        ensures
            r == self@.conns.len(),
    {
        self.connections.len()
    }

    /// The id the next accepted connection will get.
    pub fn next_id(&self) -> (r: ConnectionId)
        ensures
            r == self@.next_id,
    {
        self.next_id
    }

    /// The ids of the live connections, in registry order.
    pub fn ids(&self) -> (r: Vec<ConnectionId>)
        ensures
            r@.len() == self@.conns.len(),
            forall|i: int| 0 <= i < r@.len() ==> r@[i] == (#[trigger] self@.conns[i]).id,
    {
        let n = self.connections.len();
        let mut r: Vec<ConnectionId> = Vec::new();
        let mut i: usize = 0;
        while i < n
            invariant
                n == self@.conns.len(),
                i <= n,
                r@.len() == i,
                forall|j: int| 0 <= j < i ==> r@[j] == (#[trigger] self@.conns[j]).id,
            decreases n - i,
        {
            let cid = self.connections[i].id();
            r.push(cid);
            i += 1;
        }
        r
    }

    /// Allocate the next id and register a new connection under it.
    ///
    /// Ids are handed out in increasing order and never reused while the
    /// registry lives, so the new id collides with no live connection.
    pub fn add(&mut self) -> (id: ConnectionId)
        requires
            old(self)@.wf(),
            old(self)@.next_id < usize::MAX,
        ensures
            final(self)@.wf(),
            id == old(self)@.next_id,
            final(self)@.next_id == old(self)@.next_id + 1,
            final(self)@.conns == old(self)@.conns.push(
                ConnectionView {
                    id,
                    send_worker: true,
                    recv_worker: true,
                    writer_open: true,
                    outbound: Seq::empty(),
                },
            ),
            !old(self)@.has_id(id),
            final(self)@.has_id(id),
    {
        let id = self.next_id;
        self.next_id = self.next_id + 1;
        let conn = Connection::new(id);
        self.connections.push(conn);
        proof {
            let v = ConnectionView {
                id,
                send_worker: true,
                recv_worker: true,
                writer_open: true,
                outbound: Seq::empty(),
            };
            assert(self@.conns =~= old(self)@.conns.push(v));
            let n = old(self)@.conns.len() as int;
            assert(self@.conns[n].id == id);
        }
        id
    }

    /// Forward `msg` to every live connection but `source`.
    ///
    /// A connection whose `forward` fails is a dead peer: it is set aside
    /// during the pass and disconnected once the full pass is done, so the
    /// list is never mutated mid-scan.  This is at-most-once delivery per
    /// live peer, with dead-peer detection folded into the broadcast path.
    pub fn forward_to_all(&mut self, msg: Message, source: ConnectionId) -> (r: MpResult<()>)
        requires
            old(self)@.wf(),
        ensures
            final(self)@.wf(),
            r is Ok,
            final(self)@.next_id == old(self)@.next_id,
            final(self)@.conns == broadcast_spec(old(self)@.conns, msg@, source),
    {
        let ghost orig: Seq<ConnectionView> = self@.conns;
        let mut kept: Vec<Connection> = Vec::new();
        let mut dead: Vec<Connection> = Vec::new();
        let ghost mut k: int = 0;
        proof {
            assert(orig.skip(0) =~= orig);
            assert(views_of(kept@) =~= Seq::<ConnectionView>::empty());
            assert(views_of(kept@) + broadcast_spec(orig, msg@, source) =~= broadcast_spec(
                orig,
                msg@,
                source,
            ));
        }
        while self.connections.len() > 0
            invariant
                0 <= k <= orig.len(),
                self@.next_id == old(self)@.next_id,
                self@.conns == orig.skip(k),
                broadcast_spec(orig, msg@, source) == views_of(kept@) + broadcast_spec(
                    orig.skip(k),
                    msg@,
                    source,
                ),
            decreases orig.len() - k,
        {
            let ghost kept0: Seq<Connection> = kept@;
            proof {
                assert(orig.skip(k).len() > 0);
                assert(orig.skip(k)[0] == orig[k]);
                assert(orig.skip(k).drop_first() =~= orig.skip(k + 1));
            }
            let mut c = self.connections.remove(0);
            proof {
                assert(c@ == orig[k]);
                assert(self@.conns =~= orig.skip(k + 1));
            }
            if c.id() == source {
                kept.push(c);
                proof {
                    assert(views_of(kept@) =~= views_of(kept0).push(orig[k]));
                }
            } else {
                // try and send to the client, or set the peer aside as dead
                match c.forward(msg.clone()) {
                    Ok(_) => {
                        kept.push(c);
                        proof {
                            assert(views_of(kept@) =~= views_of(kept0).push(
                                forward_spec(orig[k], msg@),
                            ));
                        }
                    }
                    Err(_) => {
                        dead.push(c);
                    }
                }
            }
            proof {
                assert(views_of(kept@) + broadcast_spec(orig.skip(k + 1), msg@, source)
                    =~= broadcast_spec(orig, msg@, source));
                k = k + 1;
            }
        }
        proof {
            assert(orig.skip(k).len() == 0);
            assert(broadcast_spec(orig.skip(k), msg@, source) =~= Seq::<ConnectionView>::empty());
            assert(views_of(kept@) + Seq::<ConnectionView>::empty() =~= views_of(kept@));
        }
        self.connections = kept;
        proof {
            lemma_broadcast_spec_wf(orig, msg@, source);
            let b = broadcast_spec(orig, msg@, source);
            assert forall|j: int|
                0 <= j < b.len() implies (#[trigger] b[j]).id < old(self)@.next_id by {
                let i = choose|i: int| 0 <= i < orig.len() && (#[trigger] orig[i]).id == b[j].id;
            }
            assert(self@.wf());
        }
        // clean up the dead connections found during the pass
        while dead.len() > 0
            invariant
                self@.wf(),
                self@.next_id == old(self)@.next_id,
                self@.conns == broadcast_spec(old(self)@.conns, msg@, source),
            decreases dead@.len(),
        {
            let mut c = dead.pop().unwrap();
            c.disconnect();
        }
        Ok(())
    }

    /// Remove a connection from the registry; the caller takes it over.
    ///
    /// Fails with `InvalidConnectionId` if the id names no live connection.
    pub fn remove(&mut self, id: ConnectionId) -> (r: MpResult<Connection>)
        requires
            old(self)@.wf(),
        ensures
            final(self)@.wf(),
            final(self)@.next_id == old(self)@.next_id,
            old(self)@.has_id(id) ==> (r matches Ok(c) && c@ == old(self)@.conn_of(id)
                && final(self)@.conns == old(self)@.conns.remove(old(self)@.idx_of(id))),
            !old(self)@.has_id(id) ==> r == Err::<Connection, Error>(
                Error::InvalidConnectionId(id),
            ) && final(self)@ == old(self)@,
    {
        let n = self.connections.len();
        let mut i: usize = 0;
        while i < n
            invariant
                old(self)@.wf(),
                n == self@.conns.len(),
                i <= n,
                self@ == old(self)@,
                forall|j: int| 0 <= j < i ==> (#[trigger] self@.conns[j]).id != id,
            decreases n - i,
        {
            if self.connections[i].id() == id {
                proof {
                    assert(old(self)@.conns[i as int].id == id);
                    lemma_idx_of_unique(old(self)@, id, i as int);
                }
                let c = self.connections.remove(i);
                proof {
                    assert(self@.conns =~= old(self)@.conns.remove(i as int));
                    lemma_wf_remove(old(self)@, i as int);
                    assert(self@ =~= (RegistryView {
                        conns: old(self)@.conns.remove(i as int),
                        ..old(self)@
                    }));
                }
                return Ok(c);
            }
            i += 1;
        }
        proof {
            assert(!old(self)@.has_id(id));
        }
        Err(Error::InvalidConnectionId(id))
    }

    /// Remove a connection from the registry and disconnect it.
    ///
    /// Fails with `InvalidConnectionId` if the id names no live connection;
    /// otherwise the id is gone from the registry when the call returns and
    /// the removed connection has been fully shut down.
    pub fn disconnect(&mut self, id: ConnectionId) -> (r: MpResult<()>)
        requires
            old(self)@.wf(),
        ensures
            final(self)@.wf(),
            final(self)@.next_id == old(self)@.next_id,
            old(self)@.has_id(id) ==> r is Ok && final(self)@.conns == old(self)@.conns.remove(
                old(self)@.idx_of(id),
            ),
            !old(self)@.has_id(id) ==> r == Err::<(), Error>(Error::InvalidConnectionId(id))
                && final(self)@ == old(self)@,
    {
        match self.remove(id) {
            Ok(mut conn) => {
                conn.disconnect();
                Ok(())
            }
            Err(e) => Err(e),
        }
    }

    /// Disconnect every connection and drain the registry; used only at
    /// server shutdown, and always succeeds.
    pub fn disconnect_all(&mut self) -> (r: MpResult<()>)
        requires
            old(self)@.wf(),
        ensures
            final(self)@.wf(),
            r is Ok,
            final(self)@.next_id == old(self)@.next_id,
            final(self)@.conns == Seq::<ConnectionView>::empty(),
    {
        while self.connections.len() > 0
            invariant
                self@.next_id == old(self)@.next_id,
            decreases self@.conns.len(),
        {
            let mut c = self.connections.pop().unwrap();
            c.disconnect();
        }
        proof {
            assert(self@.conns =~= Seq::<ConnectionView>::empty());
        }
        Ok(())
    }

    /// Record that the peer of the connection with the given id is gone:
    /// its writer worker has exited.  Its next `forward` fails, and the
    /// next broadcast pass evicts it.
    ///
    /// Fails with `InvalidConnectionId` if the id names no live connection.
    pub fn peer_closed(&mut self, id: ConnectionId) -> (r: MpResult<()>)
        requires
            old(self)@.wf(),
        ensures
            final(self)@.wf(),
            final(self)@.next_id == old(self)@.next_id,
            old(self)@.has_id(id) ==> r is Ok && final(self)@.conns == old(self)@.conns.update(
                old(self)@.idx_of(id),
                ConnectionView { writer_open: false, ..old(self)@.conn_of(id) },
            ),
            !old(self)@.has_id(id) ==> r == Err::<(), Error>(Error::InvalidConnectionId(id))
                && final(self)@ == old(self)@,
    {
        let n = self.connections.len();
        let mut i: usize = 0;
        while i < n
            invariant
                old(self)@.wf(),
                n == self@.conns.len(),
                i <= n,
                self@ == old(self)@,
                forall|j: int| 0 <= j < i ==> (#[trigger] self@.conns[j]).id != id,
            decreases n - i,
        {
            if self.connections[i].id() == id {
                proof {
                    assert(old(self)@.conns[i as int].id == id);
                    lemma_idx_of_unique(old(self)@, id, i as int);
                }
                let mut c = self.connections.remove(i);
                c.peer_closed();
                self.connections.insert(i, c);
                proof {
                    assert(self@.conns =~= old(self)@.conns.update(
                        i as int,
                        ConnectionView { writer_open: false, ..old(self)@.conn_of(id) },
                    ));
                    lemma_wf_update(
                        old(self)@,
                        i as int,
                        ConnectionView { writer_open: false, ..old(self)@.conns[i as int] },
                    );
                    assert(self@ =~= (RegistryView {
                        conns: old(self)@.conns.update(
                            i as int,
                            ConnectionView { writer_open: false, ..old(self)@.conns[i as int] },
                        ),
                        ..old(self)@
                    }));
                }
                return Ok(());
            }
            i += 1;
        }
        proof {
            assert(!old(self)@.has_id(id));
        }
        Err(Error::InvalidConnectionId(id))
    }

    /// Drain the outbound queue of the connection with the given id, as its
    /// writer worker does before writing.
    ///
    /// Fails with `InvalidConnectionId` if the id names no live connection.
    pub fn drain_outbound(&mut self, id: ConnectionId) -> (r: MpResult<Vec<Message>>)
        requires
            old(self)@.wf(),
        ensures
            final(self)@.wf(),
            final(self)@.next_id == old(self)@.next_id,
            old(self)@.has_id(id) ==> (r matches Ok(v)
                && v@.map_values(|m: Message| m@) == old(self)@.conn_of(id).outbound
                && final(self)@.conns == old(self)@.conns.update(
                old(self)@.idx_of(id),
                ConnectionView { outbound: Seq::empty(), ..old(self)@.conn_of(id) },
            )),
            !old(self)@.has_id(id) ==> r == Err::<Vec<Message>, Error>(
                Error::InvalidConnectionId(id),
            ) && final(self)@ == old(self)@,
    {
        let n = self.connections.len();
        let mut i: usize = 0;
        while i < n
            invariant
                old(self)@.wf(),
                n == self@.conns.len(),
                i <= n,
                self@ == old(self)@,
                forall|j: int| 0 <= j < i ==> (#[trigger] self@.conns[j]).id != id,
            decreases n - i,
        {
            if self.connections[i].id() == id {
                proof {
                    assert(old(self)@.conns[i as int].id == id);
                    lemma_idx_of_unique(old(self)@, id, i as int);
                }
                let mut c = self.connections.remove(i);
                let drained = c.drain_outbound();
                self.connections.insert(i, c);
                proof {
                    assert(self@.conns =~= old(self)@.conns.update(
                        i as int,
                        ConnectionView { outbound: Seq::empty(), ..old(self)@.conn_of(id) },
                    ));
                    lemma_wf_update(
                        old(self)@,
                        i as int,
                        ConnectionView { outbound: Seq::empty(), ..old(self)@.conns[i as int] },
                    );
                    assert(self@ =~= (RegistryView {
                        conns: old(self)@.conns.update(
                            i as int,
                            ConnectionView { outbound: Seq::empty(), ..old(self)@.conns[i as int] },
                        ),
                        ..old(self)@
                    }));
                }
                return Ok(drained);
            }
            i += 1;
        }
        proof {
            assert(!old(self)@.has_id(id));
        }
        Err(Error::InvalidConnectionId(id))
    }
}

impl Default for ConnectionRegistry {
    fn default() -> (r: ConnectionRegistry)
        ensures
            r@ == (RegistryView { next_id: 0, conns: Seq::empty() }),
            r@.wf(),
    {
        ConnectionRegistry::new()
    }
}

/// Every connection a broadcast pass keeps carries an id the list had.
proof fn lemma_broadcast_ids(s: Seq<ConnectionView>, m: MessageView, src: ConnectionId)
    ensures
        forall|j: int|
            0 <= j < broadcast_spec(s, m, src).len() ==> id_among(
                s,
                #[trigger] broadcast_spec(s, m, src)[j],
            ),
    decreases s.len(),
{
    if s.len() == 0 {
    } else {
        let b = broadcast_spec(s, m, src);
        let rest = broadcast_spec(s.drop_first(), m, src);
        lemma_broadcast_ids(s.drop_first(), m, src);
        assert forall|j: int| 0 <= j < rest.len() implies id_among(s, #[trigger] rest[j]) by {
            let i = choose|i: int|
                0 <= i < s.drop_first().len() && (#[trigger] s.drop_first()[i]).id == rest[j].id;
            assert(s.drop_first()[i] == s[i + 1]);
            assert(s[i + 1].id == rest[j].id);
        }
        if s[0].id == src || s[0].writer_open {
            let head = if s[0].id == src {
                s[0]
            } else {
                forward_spec(s[0], m)
            };
            assert(b == seq![head] + rest);
            assert forall|j: int| 0 <= j < b.len() implies id_among(s, #[trigger] b[j]) by {
                if j == 0 {
                    assert(s[0].id == b[0].id);
                } else {
                    assert(b[j] == rest[j - 1]);
                }
            }
        } else {
            assert(b == rest);
        }
    }
}

/// In a broadcast pass the excluded source is carried through unchanged,
/// its outbound queue included: delivery is never invoked for it.
proof fn lemma_broadcast_source_kept(
    s: Seq<ConnectionView>,
    m: MessageView,
    src: ConnectionId,
    i: int,
)
    requires
        0 <= i < s.len(),
        s[i].id == src,
        forall|a: int, b: int| 0 <= a < b < s.len() ==> s[a].id < s[b].id,
    ensures
        broadcast_spec(s, m, src).contains(s[i]),
        forall|j: int|
            0 <= j < broadcast_spec(s, m, src).len() ==> ((#[trigger] broadcast_spec(
                s,
                m,
                src,
            )[j]).id == src ==> broadcast_spec(s, m, src)[j] == s[i]),
    decreases s.len(),
{
    let b = broadcast_spec(s, m, src);
    let rest = broadcast_spec(s.drop_first(), m, src);
    lemma_broadcast_ids(s.drop_first(), m, src);
    assert forall|j: int| 0 <= j < rest.len() implies s[0].id < rest[j].id by {
        let a = choose|a: int|
            0 <= a < s.drop_first().len() && (#[trigger] s.drop_first()[a]).id == rest[j].id;
        assert(s.drop_first()[a] == s[a + 1]);
    }
    if i == 0 {
        assert(b == seq![s[0]] + rest);
        assert(b[0] == s[i]);
        assert(b.contains(s[i]));
        assert forall|j: int|
            0 <= j < b.len() && (#[trigger] b[j]).id == src implies b[j] == s[i] by {
            if j > 0 {
                assert(b[j] == rest[j - 1]);
            }
        }
    } else {
        assert(s[0].id < s[i].id);
        assert forall|a: int, c: int|
            0 <= a < c < s.drop_first().len() implies s.drop_first()[a].id
                < s.drop_first()[c].id by {
            assert(s.drop_first()[a] == s[a + 1]);
            assert(s.drop_first()[c] == s[c + 1]);
        }
        assert(s.drop_first()[i - 1] == s[i]);
        lemma_broadcast_source_kept(s.drop_first(), m, src, i - 1);
        let k = choose|k: int| 0 <= k < rest.len() && rest[k] == s[i];
        if s[0].writer_open {
            let head = forward_spec(s[0], m);
            assert(b == seq![head] + rest);
            assert(b[k + 1] == s[i]);
            assert(b.contains(s[i]));
            assert forall|j: int|
                0 <= j < b.len() && (#[trigger] b[j]).id == src implies b[j] == s[i] by {
                if j > 0 {
                    assert(b[j] == rest[j - 1]);
                }
            }
        } else {
            assert(b == rest);
            assert(b.contains(s[i]));
        }
    }
}

/// A dead peer found during a broadcast pass is evicted: no connection in
/// the result carries its id.
proof fn lemma_broadcast_drops_dead(
    s: Seq<ConnectionView>,
    m: MessageView,
    src: ConnectionId,
    i: int,
)
    requires
        0 <= i < s.len(),
        s[i].id != src,
        !s[i].writer_open,
        forall|a: int, b: int| 0 <= a < b < s.len() ==> s[a].id < s[b].id,
    ensures
        forall|j: int|
            0 <= j < broadcast_spec(s, m, src).len() ==> (#[trigger] broadcast_spec(
                s,
                m,
                src,
            )[j]).id != s[i].id,
    decreases s.len(),
{
    let b = broadcast_spec(s, m, src);
    let rest = broadcast_spec(s.drop_first(), m, src);
    lemma_broadcast_ids(s.drop_first(), m, src);
    if i == 0 {
        assert(b == rest);
        assert forall|j: int| 0 <= j < b.len() implies (#[trigger] b[j]).id != s[i].id by {
            let a = choose|a: int|
                0 <= a < s.drop_first().len() && (#[trigger] s.drop_first()[a]).id == b[j].id;
            assert(s.drop_first()[a] == s[a + 1]);
            assert(s[a + 1].id > s[0].id);
        }
    } else {
        assert forall|a: int, c: int|
            0 <= a < c < s.drop_first().len() implies s.drop_first()[a].id
                < s.drop_first()[c].id by {
            assert(s.drop_first()[a] == s[a + 1]);
            assert(s.drop_first()[c] == s[c + 1]);
        }
        assert(s.drop_first()[i - 1] == s[i]);
        lemma_broadcast_drops_dead(s.drop_first(), m, src, i - 1);
        if s[0].id == src || s[0].writer_open {
            let head = if s[0].id == src {
                s[0]
            } else {
                forward_spec(s[0], m)
            };
            assert(b == seq![head] + rest);
            assert forall|j: int| 0 <= j < b.len() implies (#[trigger] b[j]).id != s[i].id by {
                if j == 0 {
                    assert(b[0].id == s[0].id);
                    assert(s[0].id < s[i].id);
                } else {
                    assert(b[j] == rest[j - 1]);
                }
            }
        } else {
            assert(b == rest);
        }
    }
}

/// In any registry state, ids are pairwise distinct and monotonically
/// increasing in the order the connections were accepted.  `add` assigns
/// `next_id` and raises it, which is what keeps this invariant.
pub proof fn lemma_ids_monotone(v: RegistryView)
    requires
        v.wf(),
    ensures
        forall|i: int, j: int| 0 <= i < j < v.conns.len() ==> v.conns[i].id < v.conns[j].id,
        forall|i: int, j: int|
            0 <= i < j < v.conns.len() ==> v.conns[i].id != v.conns[j].id,
{
}

/// A broadcast pass never delivers to the excluded source: in any
/// well-formed registry state containing it, the source's connection,
/// outbound queue included, comes through `forward_to_all` unchanged.
pub proof fn lemma_forward_to_all_excludes_source(
    v: RegistryView,
    m: MessageView,
    src: ConnectionId,
)
    requires
        v.wf(),
        v.has_id(src),
    ensures
        broadcast_spec(v.conns, m, src).contains(v.conn_of(src)),
        forall|j: int|
            0 <= j < broadcast_spec(v.conns, m, src).len() ==> ((#[trigger] broadcast_spec(
                v.conns,
                m,
                src,
            )[j]).id == src ==> broadcast_spec(v.conns, m, src)[j] == v.conn_of(src)),
{
    let i = v.idx_of(src);
    assert(0 <= i < v.conns.len() && v.conns[i].id == src);
    lemma_broadcast_source_kept(v.conns, m, src, i);
}

/// After a `forward` failure during a broadcast pass the failing
/// connection is absent from the registry on the next lookup.
pub proof fn lemma_forward_to_all_evicts_dead(
    v: RegistryView,
    m: MessageView,
    src: ConnectionId,
    id: ConnectionId,
)
    requires
        v.wf(),
        v.has_id(id),
        id != src,
        !v.conn_of(id).writer_open,
    ensures
        !(RegistryView { conns: broadcast_spec(v.conns, m, src), ..v }).has_id(id),
{
    let i = v.idx_of(id);
    assert(0 <= i < v.conns.len() && v.conns[i].id == id);
    lemma_broadcast_drops_dead(v.conns, m, src, i);
}

/// What the reader worker's non-blocking poll of its control channel saw.
pub enum ControlEvent {
    /// An action was pending.
    Pending(Action),
    /// Nothing was pending.
    Empty,
    /// The control channel is gone.
    Closed,
}

/// The reader worker's next move after one Polling-Control step.
pub enum ReaderStep {
    /// No stop was requested: perform one blocking read from the stream.
    Read,
    /// A stop was requested: exit cleanly.
    Stop,
    /// The control channel failed: exit with this error.
    Fail(Error),
    /// A Forward reached the reader, which never writes: a
    /// programming-contract violation, fatal if detected.
    Violation(Message),
}

/// One Polling-Control step of the reader worker's state machine.
pub fn reader_control_step(ev: ControlEvent) -> (r: ReaderStep)
    ensures
        ev == ControlEvent::Pending(Action::Disconnect) ==> r == ReaderStep::Stop,
        (ev matches ControlEvent::Pending(Action::Forward(m))
            ==> r == ReaderStep::Violation(m)),
        ev == ControlEvent::Empty ==> r == ReaderStep::Read,
        ev == ControlEvent::Closed ==> r == ReaderStep::Fail(Error::SenderDisconnected),
{
    match ev {
        ControlEvent::Pending(Action::Disconnect) => ReaderStep::Stop,
        ControlEvent::Pending(Action::Forward(m)) => ReaderStep::Violation(m),
        ControlEvent::Empty => ReaderStep::Read,
        ControlEvent::Closed => ReaderStep::Fail(Error::SenderDisconnected),
    }
}

/// What one blocking read from the stream produced.
pub enum ReadEvent {
    /// A whole message was read.
    Received(Message),
    /// The read failed, end of stream and peer reset included.
    Failed(Error),
}

/// The reader worker's move after its Reading step.
pub enum RelayStep {
    /// Hand the message, with the connection's id, to the inbound queue.
    Deliver(ConnectionId, Message),
    /// Exit the worker with this error.
    Exit(Error),
}

/// One Reading step of the reader worker's state machine: relay a received
/// message to the router, or terminate on a read error.
pub fn reader_read_step(id: ConnectionId, ev: ReadEvent) -> (r: RelayStep)
    ensures
        (ev matches ReadEvent::Received(m) ==> r == RelayStep::Deliver(id, m)),
        (ev matches ReadEvent::Failed(e) ==> r == RelayStep::Exit(e)),
{
    match ev {
        ReadEvent::Received(m) => RelayStep::Deliver(id, m),
        ReadEvent::Failed(e) => RelayStep::Exit(e),
    }
}

/// After a delivery attempt on the inbound queue: keep looping while the
/// queue stands, exit with `SendError` once it is closed.
pub fn reader_delivery_step(delivered: bool) -> (r: Option<Error>)
    ensures
        delivered ==> r is None,
        !delivered ==> r == Some(Error::SendError),
{
    if delivered {
        None
    } else {
        Some(Error::SendError)
    }
}

/// The writer worker's next move for one action from its queue.
pub enum WriterStep {
    /// Write the message to the client stream.
    Write(Message),
    /// Exit the loop cleanly: the only happy-path termination.
    Stop,
}

/// One step of the writer worker's state machine.
pub fn writer_step(a: Action) -> (r: WriterStep)
    ensures
        (a matches Action::Forward(m) ==> r == WriterStep::Write(m)),
        a == Action::Disconnect ==> r == WriterStep::Stop,
{
    match a {
        Action::Forward(m) => WriterStep::Write(m),
        Action::Disconnect => WriterStep::Stop,
    }
}

} // verus!
