use sodacore::error::Error;
use sodacore::harness::{TestEndpoint, TestTransport};
use sodacore::transport::{Endpoint, PollEvent, PollEventState, Transport};

#[test]
fn it_runs() {
    let e = TestEndpoint::priv_new("test".to_string(), 12).unwrap();
    println!("endpoint: {}", String::from_utf8_lossy(e.display_bytes()));

    let mut t = TestTransport::new("").unwrap();
    t.connect(&e);

    let mut state: PollEventState = PollEventState::new();
    let events = t.process_once(&mut state);

    println!("state: {:?}, events: {:?}", state, events);
}

#[test]
fn connect_is_idempotent() {
    let e = TestEndpoint::priv_new("test".to_string(), 12).unwrap();
    let mut t = TestTransport::new("").unwrap();
    t.connect(&e);
    t.connect(&e);
    let conns = t.list_connections();
    assert_eq!(conns.len(), 1);
    assert_eq!(conns[0].display_bytes().as_slice(), b"test:12");
}

#[test]
fn connect_tracks_distinct_endpoints() {
    let a = TestEndpoint::priv_new("alpha".to_string(), 1).unwrap();
    let b = TestEndpoint::priv_new("beta".to_string(), 2).unwrap();
    let mut t = TestTransport::new("").unwrap();
    t.connect(&a);
    t.connect(&b);
    t.connect(&a);
    let conns = t.list_connections();
    assert_eq!(conns.len(), 2);
}

#[test]
fn poll_sets_did_something_when_events_come() {
    let mut t = TestTransport::new("").unwrap();
    let mut state = PollEventState::new();
    assert!(!state.did_something);
    let events = t.process_once(&mut state);
    assert!(events.len() > 0);
    assert!(state.did_something);
}

#[test]
fn endpoint_trait_round_trip() {
    let e = TestEndpoint::new(b"host:80").unwrap();
    assert_eq!(e.get().unwrap(), b"host:80");
}

#[test]
fn endpoint_trait_rejects_bad_bytes() {
    assert!(TestEndpoint::new(b"no-port-here").is_err());
    assert!(TestEndpoint::new(b"a:b:c").is_err());
    assert!(TestEndpoint::new(b"host:notanumber").is_err());
}

#[test]
fn poll_state_default_is_idle() {
    let state = PollEventState::new();
    assert!(!state.did_something);
    let state2: PollEventState = Default::default();
    assert!(!state2.did_something);
}

#[test]
fn error_kinds_have_stable_descriptions() {
    assert_eq!(Error::InvalidEndpoint.describe(), "invalid endpoint");
    assert_eq!(Error::FailedToDecrypt.describe(), "failed to decrypt");
    assert_eq!(Error::MessageTooLarge.describe(), "message too large");
    assert_eq!(Error::Other("x".to_string()).describe(), "transport error");
}
