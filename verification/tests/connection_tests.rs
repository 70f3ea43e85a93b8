use multiping::{
    reader_control_step, reader_delivery_step, reader_read_step, writer_step, Action, Connection,
    ControlEvent, Error, Message, ReadEvent, ReaderStep, RelayStep, WriterStep,
};

#[test]
fn new_connection_is_live_and_empty() {
    let c = Connection::new(7);
    assert_eq!(c.id(), 7);
    assert!(c.is_writer_open());
    assert!(c.outbound().is_empty());
}

#[test]
fn forward_queues_for_the_writer() {
    let mut c = Connection::new(0);
    c.forward(Message::Ping).unwrap();
    c.forward(Message::Text("hi".to_string())).unwrap();
    assert_eq!(
        c.outbound(),
        &vec![Message::Ping, Message::Text("hi".to_string())]
    );
}

#[test]
fn forward_fails_after_peer_closed() {
    let mut c = Connection::new(0);
    c.peer_closed();
    let r = c.forward(Message::Ping);
    assert!(matches!(r, Err(Error::SenderDisconnected)));
    assert!(c.outbound().is_empty());
}

#[test]
fn disconnect_notifies_client_then_stops_workers() {
    let mut c = Connection::new(0);
    c.forward(Message::Ping).unwrap();
    c.disconnect();
    assert!(!c.is_writer_open());
    assert_eq!(c.outbound(), &vec![Message::Ping, Message::Disconnect]);
}

#[test]
fn disconnect_twice_queues_single_disconnect() {
    let mut c = Connection::new(3);
    c.disconnect();
    let after_first = c.outbound().clone();
    c.disconnect();
    assert_eq!(c.outbound(), &after_first);
    assert_eq!(after_first, vec![Message::Disconnect]);
}

#[test]
fn disconnect_after_peer_closed_queues_nothing() {
    let mut c = Connection::new(3);
    c.peer_closed();
    c.disconnect();
    assert!(c.outbound().is_empty());
}

#[test]
fn drain_outbound_hands_out_the_queue() {
    let mut c = Connection::new(1);
    c.forward(Message::Ping).unwrap();
    let drained = c.drain_outbound();
    assert_eq!(drained, vec![Message::Ping]);
    assert!(c.outbound().is_empty());
}

#[test]
fn reader_poll_stops_on_disconnect() {
    let r = reader_control_step(ControlEvent::Pending(Action::Disconnect));
    assert!(matches!(r, ReaderStep::Stop));
}

#[test]
fn reader_poll_flags_forward_as_violation() {
    let r = reader_control_step(ControlEvent::Pending(Action::Forward(Message::Ping)));
    assert!(matches!(r, ReaderStep::Violation(Message::Ping)));
}

#[test]
fn reader_poll_reads_when_nothing_pending() {
    let r = reader_control_step(ControlEvent::Empty);
    assert!(matches!(r, ReaderStep::Read));
}

#[test]
fn reader_poll_fails_on_closed_control() {
    let r = reader_control_step(ControlEvent::Closed);
    assert!(matches!(r, ReaderStep::Fail(Error::SenderDisconnected)));
}

#[test]
fn reader_relays_received_message_with_its_id() {
    let r = reader_read_step(9, ReadEvent::Received(Message::Text("x".to_string())));
    assert!(matches!(r, RelayStep::Deliver(9, Message::Text(s)) if s == "x"));
}

#[test]
fn reader_exits_on_read_error() {
    let r = reader_read_step(9, ReadEvent::Failed(Error::IoError));
    assert!(matches!(r, RelayStep::Exit(Error::IoError)));
}

#[test]
fn reader_delivery_exit_policy() {
    assert!(reader_delivery_step(true).is_none());
    assert!(matches!(
        reader_delivery_step(false),
        Some(Error::SendError)
    ));
}

#[test]
fn writer_writes_forwarded_messages_and_stops_on_disconnect() {
    let r = writer_step(Action::Forward(Message::Ping));
    assert!(matches!(r, WriterStep::Write(Message::Ping)));
    let s = writer_step(Action::Disconnect);
    assert!(matches!(s, WriterStep::Stop));
}
