//! Wire-format tests: envelopes and serialized tables.

use std::collections::HashMap;

use peer_gossip::codec::{decode_envelope, encode_envelope, DecodeError, Envelope, MessageType};
use peer_gossip::table::PeerAddressTable;

fn share_envelope(addr: &str, ts: u64) -> Envelope {
    Envelope { mtype: MessageType::ShareAddr, data: addr.as_bytes().to_vec(), timestamp: ts }
}

#[test]
fn envelope_encodes_exact_json() {
    let env = share_envelope("/ip4/127.0.0.1/tcp/30333", 0);
    let bytes = encode_envelope(&env);
    assert_eq!(
        String::from_utf8(bytes).unwrap(),
        "{\"mtype\":\"ShareAddr\",\"data\":\"/ip4/127.0.0.1/tcp/30333\",\"timestamp\":0}"
    );
}

#[test]
fn envelope_encoding_matches_serde_json_reading() {
    let env = share_envelope("/ip4/10.0.0.7/tcp/1337", 0);
    let bytes = encode_envelope(&env);
    let value: serde_json::Value = serde_json::from_slice(&bytes).unwrap();
    assert_eq!(value["mtype"], serde_json::Value::String("ShareAddr".to_string()));
    assert_eq!(value["data"], serde_json::Value::String("/ip4/10.0.0.7/tcp/1337".to_string()));
    assert_eq!(value["timestamp"], serde_json::Value::from(0u64));
}

#[test]
fn envelope_round_trips() {
    let env = share_envelope("/ip4/192.168.1.9/tcp/7000", 0);
    let bytes = encode_envelope(&env);
    let back = decode_envelope(&bytes).unwrap();
    assert_eq!(back.mtype, MessageType::ShareAddr);
    assert_eq!(back.data, b"/ip4/192.168.1.9/tcp/7000".to_vec());
    assert_eq!(back.timestamp, 0);
}

#[test]
fn envelope_round_trips_return_kind_and_timestamp() {
    let env = Envelope {
        mtype: MessageType::ReturnNodeAddrs,
        data: b"{\"x\":1}".to_vec(),
        timestamp: 1234567890,
    };
    let bytes = encode_envelope(&env);
    let back = decode_envelope(&bytes).unwrap();
    assert_eq!(back.mtype, MessageType::ReturnNodeAddrs);
    assert_eq!(back.data, b"{\"x\":1}".to_vec());
    assert_eq!(back.timestamp, 1234567890);
}

#[test]
fn envelope_escapes_quotes_and_backslashes() {
    let env = Envelope {
        mtype: MessageType::ShareAddr,
        data: b"a\"b\\c".to_vec(),
        timestamp: 0,
    };
    let bytes = encode_envelope(&env);
    assert_eq!(
        String::from_utf8(bytes.clone()).unwrap(),
        "{\"mtype\":\"ShareAddr\",\"data\":\"a\\\"b\\\\c\",\"timestamp\":0}"
    );
    let back = decode_envelope(&bytes).unwrap();
    assert_eq!(back.data, b"a\"b\\c".to_vec());
}

#[test]
fn envelope_decode_rejects_garbage() {
    assert!(matches!(decode_envelope(b"hello"), Err(DecodeError::Malformed)));
}

#[test]
fn envelope_decode_rejects_unknown_kind_and_trailing_bytes() {
    let bad_kind = b"{\"mtype\":\"Gossip\",\"data\":\"x\",\"timestamp\":0}";
    assert!(decode_envelope(bad_kind).is_err());
    let trailing = b"{\"mtype\":\"ShareAddr\",\"data\":\"x\",\"timestamp\":0} ";
    assert!(decode_envelope(trailing).is_err());
    let empty = b"";
    assert!(decode_envelope(empty).is_err());
}

#[test]
fn table_serializes_exact_json() {
    let mut table = PeerAddressTable::seed(b"/ip4/127.0.0.1/tcp/1000".to_vec());
    table.insert_if_absent(b"/ip4/127.0.0.1/tcp/2000".to_vec());
    let bytes = table.serialize();
    assert_eq!(
        String::from_utf8(bytes).unwrap(),
        "{\"/ip4/127.0.0.1/tcp/1000\":1,\"/ip4/127.0.0.1/tcp/2000\":0}"
    );
}

#[test]
fn table_serialization_matches_serde_json_reading() {
    let mut table = PeerAddressTable::seed(b"/ip4/127.0.0.1/tcp/1000".to_vec());
    table.insert_if_absent(b"/ip4/127.0.0.1/tcp/2000".to_vec());
    table.insert_if_absent(b"/ip4/127.0.0.1/tcp/3000".to_vec());
    let bytes = table.serialize();
    let parsed: HashMap<String, u64> = serde_json::from_slice(&bytes).unwrap();
    let mut expected = HashMap::new();
    expected.insert("/ip4/127.0.0.1/tcp/1000".to_string(), 1u64);
    expected.insert("/ip4/127.0.0.1/tcp/2000".to_string(), 0u64);
    expected.insert("/ip4/127.0.0.1/tcp/3000".to_string(), 0u64);
    assert_eq!(parsed, expected);
}

#[test]
fn table_round_trips() {
    let mut table = PeerAddressTable::seed(b"/ip4/127.0.0.1/tcp/1000".to_vec());
    table.insert_if_absent(b"/ip4/8.8.8.8/tcp/30333".to_vec());
    table.insert_if_absent(b"/dns4/node.example/tcp/443".to_vec());
    let bytes = table.serialize();
    let back = PeerAddressTable::deserialize(&bytes).unwrap();
    assert_eq!(back.len(), 3);
    assert_eq!(back.counter_of(b"/ip4/127.0.0.1/tcp/1000"), Some(1));
    assert_eq!(back.counter_of(b"/ip4/8.8.8.8/tcp/30333"), Some(0));
    assert_eq!(back.counter_of(b"/dns4/node.example/tcp/443"), Some(0));
    assert_eq!(back.serialize(), table.serialize());
}

#[test]
fn empty_table_round_trips() {
    let table = PeerAddressTable::new();
    let bytes = table.serialize();
    assert_eq!(String::from_utf8(bytes.clone()).unwrap(), "{}");
    let back = PeerAddressTable::deserialize(&bytes).unwrap();
    assert_eq!(back.len(), 0);
}

#[test]
fn table_deserialize_rejects_duplicates_and_garbage() {
    let dup = b"{\"/a\":1,\"/a\":0}";
    assert!(matches!(
        PeerAddressTable::deserialize(dup),
        Err(DecodeError::DuplicateAddr)
    ));
    assert!(matches!(
        PeerAddressTable::deserialize(b"not a table"),
        Err(DecodeError::Malformed)
    ));
    assert!(matches!(
        PeerAddressTable::deserialize(b"{\"/a\":}"),
        Err(DecodeError::Malformed)
    ));
    assert!(matches!(
        PeerAddressTable::deserialize(b""),
        Err(DecodeError::Malformed)
    ));
}
