use sodacore::endpoint::Endpoint;
use sodacore::error::Error;
use sodacore::message::{
    compile, compile_batch, parse, parse_batch_bytes, DiscoveryEntry, DiscoveryReq, DiscoveryRes,
    InitialHandshakeRes, Message, PingReq, PingRes, UserMessage,
};

fn endpoint_a() -> Endpoint {
    Endpoint::new(b"peer-a".to_vec(), 9000).unwrap()
}

fn sample_batch() -> Vec<Message> {
    let entry = DiscoveryEntry { peer_id: b"peer-id-1".to_vec(), endpoints: vec![endpoint_a()] };
    let empty_entry = DiscoveryEntry { peer_id: b"peer-id-2".to_vec(), endpoints: vec![] };
    vec![
        Message::DiscoveryReq(DiscoveryReq::new(vec![entry.clone()])),
        Message::DiscoveryRes(DiscoveryRes::new(vec![entry, empty_entry])),
        Message::PingReq(PingReq::new_at(17, b"node-1", vec![endpoint_a()])),
        Message::PingRes(PingRes::new_at(17, 23, b"node-2", vec![])),
        Message::UserMessage(UserMessage::new(b"payload".to_vec())),
        Message::HandshakeRes(InitialHandshakeRes {
            session_id: "sess-\u{00e9}42".to_string(),
            node_id: b"node-3".to_vec(),
            eph_pub: vec![1, 2, 3, 4],
        }),
    ]
}

#[test]
fn batch_round_trip_all_variants_in_order() {
    let batch = sample_batch();
    let bytes = compile_batch(&batch).unwrap();
    let back = parse_batch_bytes(&bytes).unwrap();
    assert_eq!(back, batch);
}

#[test]
fn single_message_round_trip() {
    for m in sample_batch() {
        let bytes = compile(&m).unwrap();
        let back = parse(&bytes).unwrap();
        assert_eq!(back, m);
    }
}

#[test]
fn user_message_exact_encoding() {
    let m = Message::UserMessage(UserMessage::new(b"hi".to_vec()));
    let bytes = compile(&m).unwrap();
    assert_eq!(bytes, vec![5u8, 0, 0, 0, 0, 0, 0, 0, 2, b'h', b'i']);
}

#[test]
fn ping_req_exact_encoding() {
    let m = Message::PingReq(PingReq::new_at(1, b"n", vec![]));
    let bytes = compile(&m).unwrap();
    let expected = vec![
        3u8, // tag
        0, 0, 0, 0, 0, 0, 0, 1, // sent_time
        0, 0, 0, 0, 0, 0, 0, 1, b'n', // node id
        0, 0, 0, 0, 0, 0, 0, 0, // no endpoints
    ];
    assert_eq!(bytes, expected);
}

#[test]
fn parse_rejects_unknown_tag() {
    assert_eq!(parse(&[9u8, 0, 0]).unwrap_err(), Error::MalformedMessage);
}

#[test]
fn parse_rejects_empty_buffer() {
    assert_eq!(parse(&[]).unwrap_err(), Error::MalformedMessage);
}

#[test]
fn parse_rejects_trailing_bytes() {
    let m = Message::UserMessage(UserMessage::new(b"hi".to_vec()));
    let mut bytes = compile(&m).unwrap();
    bytes.push(0);
    assert_eq!(parse(&bytes).unwrap_err(), Error::MalformedMessage);
}

#[test]
fn parse_rejects_truncated_payload() {
    let m = Message::UserMessage(UserMessage::new(b"hello".to_vec()));
    let bytes = compile(&m).unwrap();
    assert_eq!(parse(&bytes[..bytes.len() - 1]).unwrap_err(), Error::MalformedMessage);
}

#[test]
fn parse_rejects_invalid_utf8_session_id() {
    let good = compile(&Message::HandshakeRes(InitialHandshakeRes {
        session_id: "ab".to_string(),
        node_id: vec![],
        eph_pub: vec![],
    }))
    .unwrap();
    // session id bytes start right after the tag and the length prefix
    let mut bad = good.clone();
    bad[9] = 0xff;
    bad[10] = 0xfe;
    assert_eq!(parse(&bad).unwrap_err(), Error::MalformedMessage);
}

#[test]
fn ping_semantics() {
    let req = PingReq::new(b"node", vec![endpoint_a()]);
    let res = PingRes::new(req.sent_time, b"node", vec![endpoint_a()]);
    assert_eq!(res.origin_time, req.sent_time);
    assert!(res.response_time >= req.sent_time);
    assert!(req.sent_time > 0);
}

#[test]
fn constructors_store_fields() {
    let um = UserMessage::new(b"d".to_vec());
    assert_eq!(um.data, b"d".to_vec());
    let entry = DiscoveryEntry { peer_id: b"p".to_vec(), endpoints: vec![] };
    let dr = DiscoveryReq::new(vec![entry.clone()]);
    assert_eq!(dr.discover, vec![entry.clone()]);
    let ds = DiscoveryRes::new(vec![entry.clone()]);
    assert_eq!(ds.discover, vec![entry]);
    let pr = PingRes::new_at(5, 9, b"nid", vec![]);
    assert_eq!(pr.origin_time, 5);
    assert_eq!(pr.response_time, 9);
    assert_eq!(pr.node_id, b"nid".to_vec());
}

#[test]
fn empty_batch_exact_encoding() {
    let bytes = compile_batch(&[]).unwrap();
    assert_eq!(bytes, vec![0u8; 8]);
    assert!(parse_batch_bytes(&bytes).unwrap().is_empty());
}
