use multiping::{dispatch, Client, ConnectionRegistry, Error, Message};

#[test]
fn ids_are_monotone_and_distinct() {
    let mut reg = ConnectionRegistry::new();
    let a = reg.add();
    let b = reg.add();
    let c = reg.add();
    assert_eq!((a, b, c), (0, 1, 2));
    assert!(a < b && b < c);
}

#[test]
fn many_accepted_connections_get_increasing_ids() {
    let mut reg = ConnectionRegistry::new();
    let mut ids = Vec::new();
    for _ in 0..50 {
        ids.push(reg.add());
    }
    for w in ids.windows(2) {
        assert!(w[0] < w[1]);
    }
    assert_eq!(reg.ids(), ids);
}

#[test]
fn ids_are_never_reused() {
    let mut reg = ConnectionRegistry::new();
    let a = reg.add();
    let b = reg.add();
    reg.disconnect(b).unwrap();
    let d = reg.add();
    assert_eq!(d, 2);
    assert_eq!(reg.ids(), vec![a, d]);
}

#[test]
fn broadcast_excludes_the_source() {
    let mut reg = ConnectionRegistry::new();
    let sender = reg.add();
    let peer = reg.add();
    reg.forward_to_all(Message::Ping, sender).unwrap();
    assert_eq!(reg.drain_outbound(sender).unwrap(), Vec::<Message>::new());
    assert_eq!(reg.drain_outbound(peer).unwrap(), vec![Message::Ping]);
}

#[test]
fn broadcast_evicts_peers_whose_forward_fails() {
    let mut reg = ConnectionRegistry::new();
    let sender = reg.add();
    let alive = reg.add();
    let dead = reg.add();
    reg.peer_closed(dead).unwrap();
    reg.forward_to_all(Message::Ping, sender).unwrap();
    assert_eq!(reg.ids(), vec![sender, alive]);
    assert!(matches!(
        reg.drain_outbound(dead),
        Err(Error::InvalidConnectionId(_))
    ));
}

#[test]
fn ping_reaches_each_peer_exactly_once() {
    let mut reg = ConnectionRegistry::new();
    let sender = reg.add();
    let p1 = reg.add();
    let p2 = reg.add();
    dispatch(&mut reg, sender, Message::Ping).unwrap();
    assert_eq!(reg.drain_outbound(p1).unwrap(), vec![Message::Ping]);
    assert_eq!(reg.drain_outbound(p2).unwrap(), vec![Message::Ping]);
    assert_eq!(reg.drain_outbound(sender).unwrap(), Vec::<Message>::new());
}

#[test]
fn disconnect_message_removes_the_connection() {
    let mut reg = ConnectionRegistry::new();
    let a = reg.add();
    let b = reg.add();
    let c = reg.add();
    dispatch(&mut reg, b, Message::Disconnect).unwrap();
    assert_eq!(reg.len(), 2);
    assert_eq!(reg.ids(), vec![a, c]);
    // nothing is routed to the removed connection any more
    dispatch(&mut reg, a, Message::Text("hi".to_string())).unwrap();
    assert!(matches!(
        reg.drain_outbound(b),
        Err(Error::InvalidConnectionId(_))
    ));
    assert_eq!(
        reg.drain_outbound(c).unwrap(),
        vec![Message::Text("hi".to_string())]
    );
}

#[test]
fn disconnect_of_unknown_id_is_an_error() {
    let mut reg = ConnectionRegistry::new();
    let a = reg.add();
    let r = dispatch(&mut reg, a + 1, Message::Disconnect);
    assert!(matches!(r, Err(Error::InvalidConnectionId(id)) if id == a + 1));
}

#[test]
fn abruptly_closed_peer_is_evicted_within_one_pass() {
    let mut reg = ConnectionRegistry::new();
    let a = reg.add();
    let b = reg.add();
    let c = reg.add();
    // the peer of c drops its socket: the next forward to c fails
    reg.peer_closed(c).unwrap();
    dispatch(&mut reg, a, Message::Ping).unwrap();
    assert_eq!(reg.ids(), vec![a, b]);
    assert_eq!(reg.drain_outbound(b).unwrap(), vec![Message::Ping]);
}

#[test]
fn unexpected_tag_is_a_hard_error() {
    let mut reg = ConnectionRegistry::new();
    let a = reg.add();
    let _b = reg.add();
    let r = dispatch(&mut reg, a, Message::Error("boom".to_string()));
    assert!(matches!(
        r,
        Err(Error::UnexpectedMessage(Message::Error(s))) if s == "boom"
    ));
    // the registry is untouched by the failed dispatch
    assert_eq!(reg.len(), 2);
    let r2 = dispatch(&mut reg, a, Message::InvalidMessage);
    assert!(matches!(
        r2,
        Err(Error::UnexpectedMessage(Message::InvalidMessage))
    ));
}

#[test]
fn remove_returns_the_connection() {
    let mut reg = ConnectionRegistry::new();
    let a = reg.add();
    let b = reg.add();
    let conn = reg.remove(a).unwrap();
    assert_eq!(conn.id(), a);
    assert_eq!(reg.ids(), vec![b]);
    assert!(matches!(
        reg.remove(a),
        Err(Error::InvalidConnectionId(id)) if id == a
    ));
}

#[test]
fn disconnect_all_empties_the_registry() {
    let mut reg = ConnectionRegistry::new();
    reg.add();
    reg.add();
    reg.add();
    reg.disconnect_all().unwrap();
    assert_eq!(reg.len(), 0);
    // the id counter is not reset
    assert_eq!(reg.add(), 3);
}

#[test]
fn default_registry_is_empty() {
    let mut reg = ConnectionRegistry::default();
    assert_eq!(reg.len(), 0);
    assert_eq!(reg.add(), 0);
}

#[test]
fn client_remembers_its_address() {
    let client = Client::new("127.0.0.1:3000");
    assert_eq!(client.server_addr(), "127.0.0.1:3000");
}

#[test]
fn error_descriptions_name_the_failure() {
    assert_eq!(
        Error::SenderDisconnected.describe(),
        "recv failed: sender disconnected"
    );
    assert_eq!(Error::InvalidConnectionId(4).describe(), "invalid client id");
}
