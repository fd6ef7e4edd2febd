//! Table, adapter and protocol-scenario tests.

use peer_gossip::adapter::{Command, OutMessage, ServiceAdapter};
use peer_gossip::codec::{decode_envelope, MessageType};
use peer_gossip::protocol::{Event, GossipConfig, GossipProtocolHandler};
use peer_gossip::table::PeerAddressTable;

fn handler(announce: bool, local: &str) -> GossipProtocolHandler {
    GossipProtocolHandler::new(GossipConfig {
        announce_on_open: announce,
        local_addr: local.as_bytes().to_vec(),
    })
}

fn open_event() -> Event {
    Event::CustomProtocolOpen { peer: 0, protocol: 0, version: 1 }
}

fn message_event(payload: Vec<u8>) -> Event {
    Event::CustomMessage { peer: 0, protocol: 0, payload: Some(payload) }
}

fn sole_payload(cmds: &[Command]) -> Vec<u8> {
    assert_eq!(cmds.len(), 1);
    match &cmds[0] {
        Command::SendMessages(ms) => {
            assert_eq!(ms.len(), 1);
            assert!(ms[0].targets.is_empty());
            assert_eq!(ms[0].protocol, 0);
            ms[0].payload.clone()
        }
        _ => panic!("expected a SendMessages command"),
    }
}

#[test]
fn reinsert_keeps_counter() {
    let mut table = PeerAddressTable::seed(b"/ip4/127.0.0.1/tcp/1000".to_vec());
    assert!(table.insert_if_absent(b"/ip4/1.1.1.1/tcp/80".to_vec()));
    assert!(!table.insert_if_absent(b"/ip4/1.1.1.1/tcp/80".to_vec()));
    assert!(!table.insert_if_absent(b"/ip4/127.0.0.1/tcp/1000".to_vec()));
    assert_eq!(table.len(), 2);
    assert_eq!(table.counter_of(b"/ip4/1.1.1.1/tcp/80"), Some(0));
    assert_eq!(table.counter_of(b"/ip4/127.0.0.1/tcp/1000"), Some(1));
    assert_eq!(table.counter_of(b"/ip4/9.9.9.9/tcp/1"), None);
}

#[test]
fn drain_returns_messages_in_fifo_order() {
    let mut adapter = ServiceAdapter::new();
    adapter.handle_command(Command::SendMessages(vec![
        OutMessage { targets: Vec::new(), protocol: 0, payload: b"first".to_vec() },
        OutMessage { targets: Vec::new(), protocol: 0, payload: b"second".to_vec() },
    ]));
    adapter.handle_command(Command::SendMessages(vec![OutMessage {
        targets: Vec::new(),
        protocol: 0,
        payload: b"third".to_vec(),
    }]));
    let drained = adapter.drain_outgoing_messages();
    let payloads: Vec<&[u8]> = drained.iter().map(|m| m.payload.as_slice()).collect();
    assert_eq!(payloads, vec![&b"first"[..], &b"second"[..], &b"third"[..]]);
    assert!(adapter.drain_outgoing_messages().is_empty());
}

#[test]
fn dial_listen_disconnect_pop_most_recent_first() {
    let mut adapter = ServiceAdapter::new();
    adapter.handle_command(Command::Dial(b"/ip4/1.1.1.1/tcp/1".to_vec()));
    adapter.handle_command(Command::Dial(b"/ip4/2.2.2.2/tcp/2".to_vec()));
    adapter.handle_command(Command::Listen(b"/ip4/0.0.0.0/tcp/3".to_vec()));
    adapter.handle_command(Command::Disconnect(7));
    adapter.handle_command(Command::Disconnect(8));
    assert_eq!(adapter.next_dial(), Some(b"/ip4/2.2.2.2/tcp/2".to_vec()));
    assert_eq!(adapter.next_dial(), Some(b"/ip4/1.1.1.1/tcp/1".to_vec()));
    assert_eq!(adapter.next_dial(), None);
    assert_eq!(adapter.next_listen(), Some(b"/ip4/0.0.0.0/tcp/3".to_vec()));
    assert_eq!(adapter.next_listen(), None);
    assert_eq!(adapter.next_disconnect(), Some(8));
    assert_eq!(adapter.next_disconnect(), Some(7));
    assert_eq!(adapter.next_disconnect(), None);
}

#[test]
fn dial_and_share_addr_exchange() {
    // Node A dialed node B and announces on the resulting open.
    let a = handler(true, "/ip4/10.0.0.1/tcp/30333");
    let mut a_table = PeerAddressTable::seed(b"/ip4/10.0.0.1/tcp/30333".to_vec());
    let a_cmds = a.handle_event(&mut a_table, &open_event()).unwrap();
    let announce = sole_payload(&a_cmds);
    let env = decode_envelope(&announce).unwrap();
    assert_eq!(env.mtype, MessageType::ShareAddr);
    assert_eq!(env.data, b"/ip4/10.0.0.1/tcp/30333".to_vec());
    assert_eq!(env.timestamp, 0);
    assert_eq!(a_table.len(), 1);

    // Node B receives the announcement.
    let b = handler(false, "/ip4/10.0.0.2/tcp/30333");
    let mut b_table = PeerAddressTable::seed(b"/ip4/10.0.0.2/tcp/30333".to_vec());
    let b_cmds = b.handle_event(&mut b_table, &message_event(announce)).unwrap();
    assert_eq!(b_table.len(), 2);
    assert_eq!(b_table.counter_of(b"/ip4/10.0.0.1/tcp/30333"), Some(0));
    let reply = sole_payload(&b_cmds);
    let reply_env = decode_envelope(&reply).unwrap();
    assert_eq!(reply_env.mtype, MessageType::ReturnNodeAddrs);
    assert_eq!(reply_env.data, b_table.serialize());
    let reply_table = PeerAddressTable::deserialize(&reply_env.data).unwrap();
    assert_eq!(reply_table.counter_of(b"/ip4/10.0.0.1/tcp/30333"), Some(0));
    assert_eq!(reply_table.counter_of(b"/ip4/10.0.0.2/tcp/30333"), Some(1));
}

#[test]
fn inbound_open_does_not_announce() {
    let h = handler(false, "/ip4/10.0.0.2/tcp/30333");
    let mut table = PeerAddressTable::seed(b"/ip4/10.0.0.2/tcp/30333".to_vec());
    let cmds = h.handle_event(&mut table, &open_event()).unwrap();
    assert!(cmds.is_empty());
    assert_eq!(table.len(), 1);
}

#[test]
fn undecodable_payload_does_not_stop_dispatch() {
    let h = handler(false, "/ip4/10.0.0.2/tcp/30333");
    let mut table = PeerAddressTable::seed(b"/ip4/10.0.0.2/tcp/30333".to_vec());
    let a = handler(true, "/ip4/10.0.0.1/tcp/30333");
    let mut a_table = PeerAddressTable::seed(b"/ip4/10.0.0.1/tcp/30333".to_vec());
    let announce = sole_payload(&a.handle_event(&mut a_table, &open_event()).unwrap());

    let events = vec![
        message_event(b"\x00\x01garbage".to_vec()),
        message_event(announce),
    ];
    let (cmds, errors) = h.dispatch_events(&mut table, &events);
    assert_eq!(errors, 1);
    assert_eq!(cmds.len(), 1);
    assert_eq!(table.counter_of(b"/ip4/10.0.0.1/tcp/30333"), Some(0));
}

#[test]
fn repeated_share_addr_leaves_one_entry() {
    let b = handler(false, "/ip4/10.0.0.2/tcp/30333");
    let mut b_table = PeerAddressTable::seed(b"/ip4/10.0.0.2/tcp/30333".to_vec());
    let a = handler(true, "/ip4/10.0.0.1/tcp/30333");
    let mut a_table = PeerAddressTable::seed(b"/ip4/10.0.0.1/tcp/30333".to_vec());
    let announce = sole_payload(&a.handle_event(&mut a_table, &open_event()).unwrap());

    let first = b.handle_event(&mut b_table, &message_event(announce.clone())).unwrap();
    assert_eq!(first.len(), 1);
    let second = b.handle_event(&mut b_table, &message_event(announce)).unwrap();
    assert_eq!(second.len(), 1);
    assert_eq!(b_table.len(), 2);
    assert_eq!(b_table.counter_of(b"/ip4/10.0.0.1/tcp/30333"), Some(0));
}

#[test]
fn return_node_addrs_is_not_merged() {
    let h = handler(false, "/ip4/10.0.0.2/tcp/30333");
    let mut table = PeerAddressTable::seed(b"/ip4/10.0.0.2/tcp/30333".to_vec());
    let mut other = PeerAddressTable::seed(b"/ip4/10.0.0.9/tcp/1".to_vec());
    other.insert_if_absent(b"/ip4/10.0.0.8/tcp/2".to_vec());
    let env = peer_gossip::codec::Envelope {
        mtype: MessageType::ReturnNodeAddrs,
        data: other.serialize(),
        timestamp: 0,
    };
    let payload = peer_gossip::codec::encode_envelope(&env);
    let cmds = h.handle_event(&mut table, &message_event(payload)).unwrap();
    assert!(cmds.is_empty());
    assert_eq!(table.len(), 1);
    assert_eq!(table.counter_of(b"/ip4/10.0.0.9/tcp/1"), None);
}

#[test]
fn node_info_and_unknown_events_are_ignored() {
    let h = handler(true, "/ip4/10.0.0.1/tcp/30333");
    let mut table = PeerAddressTable::seed(b"/ip4/10.0.0.1/tcp/30333".to_vec());
    let info = Event::NodeInfo {
        peer: 3,
        endpoint: peer_gossip::protocol::EndpointKind::Listener,
        listen_address: b"/ip4/10.0.0.5/tcp/4".to_vec(),
    };
    let cmds = h.handle_event(&mut table, &info).unwrap();
    assert!(cmds.is_empty());
    let cmds = h.handle_event(&mut table, &Event::Unknown).unwrap();
    assert!(cmds.is_empty());
    let cmds = h
        .handle_event(&mut table, &Event::CustomMessage { peer: 0, protocol: 0, payload: None })
        .unwrap();
    assert!(cmds.is_empty());
    assert_eq!(table.len(), 1);
}
