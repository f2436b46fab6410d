use sodacore::endpoint::Endpoint;
use sodacore::envelope::{compile, parse};
use sodacore::error::Error;
use sodacore::message::{DiscoveryEntry, DiscoveryReq, Message, UserMessage};
use sodacore::sym;

fn sample_batch() -> Vec<Message> {
    let endpoint_a = Endpoint::new(b"peer-a".to_vec(), 9000).unwrap();
    vec![
        Message::DiscoveryReq(DiscoveryReq::new(vec![DiscoveryEntry {
            peer_id: b"peer-id".to_vec(),
            endpoints: vec![endpoint_a],
        }])),
        Message::UserMessage(UserMessage::new(b"hi".to_vec())),
    ]
}

#[test]
fn end_to_end_seal_then_open() {
    let psk = sym::gen_random_psk().unwrap();
    let batch = sample_batch();
    let carrier = compile("sess1", &batch, &psk).unwrap();
    assert_eq!(carrier.session_id, "sess1".to_string());
    let back = parse(&carrier.body, &psk).unwrap();
    assert_eq!(back, batch);
}

#[test]
fn open_with_wrong_key_is_an_authentication_error() {
    let psk = sym::gen_random_psk().unwrap();
    let other = sym::gen_random_psk().unwrap();
    let carrier = compile("sess1", &sample_batch(), &psk).unwrap();
    assert_eq!(parse(&carrier.body, &other).unwrap_err(), Error::FailedToDecrypt);
}

#[test]
fn empty_batch_round_trip() {
    let psk = sym::gen_random_psk().unwrap();
    let carrier = compile("s", &[], &psk).unwrap();
    let back = parse(&carrier.body, &psk).unwrap();
    assert!(back.is_empty());
}

#[test]
fn oversize_batch_is_rejected_loudly() {
    let psk = sym::gen_random_psk().unwrap();
    let batch = vec![Message::UserMessage(UserMessage::new(vec![0u8; 5000]))];
    assert_eq!(compile("s", &batch, &psk).unwrap_err(), Error::MessageTooLarge);
}

#[test]
fn seal_rejects_bad_key() {
    assert_eq!(compile("s", &sample_batch(), &[0u8; 3]).unwrap_err(), Error::InvalidPresharedKey);
}

#[test]
fn open_rejects_unframed_bytes() {
    let psk = sym::gen_random_psk().unwrap();
    assert_eq!(parse(b"junk", &psk).unwrap_err(), Error::MalformedEnvelope);
}

#[test]
fn open_rejects_trailing_bytes_after_frame() {
    let psk = sym::gen_random_psk().unwrap();
    let carrier = compile("s", &sample_batch(), &psk).unwrap();
    let mut body = carrier.body.clone();
    body.push(0);
    assert_eq!(parse(&body, &psk).unwrap_err(), Error::MalformedEnvelope);
}

#[test]
fn tampered_ciphertext_fails_authentication() {
    let psk = sym::gen_random_psk().unwrap();
    let carrier = compile("sess1", &sample_batch(), &psk).unwrap();
    let mut body = carrier.body.clone();
    let last = body.len() - 1;
    body[last] ^= 1;
    assert_eq!(parse(&body, &psk).unwrap_err(), Error::FailedToDecrypt);
}

fn frame(nonce: &[u8], cipher: &[u8]) -> Vec<u8> {
    let mut out = Vec::new();
    out.extend_from_slice(&(nonce.len() as u64).to_be_bytes());
    out.extend_from_slice(nonce);
    out.extend_from_slice(&(cipher.len() as u64).to_be_bytes());
    out.extend_from_slice(cipher);
    out
}

#[test]
fn decrypted_garbage_is_a_malformed_message_not_a_crypto_error() {
    let psk = sym::gen_random_psk().unwrap();
    // a genuine ciphertext whose plaintext is not a message batch
    let (nonce, cipher) = sym::enc(b"not a batch", &psk).unwrap();
    let body = frame(&nonce, &cipher);
    assert_eq!(parse(&body, &psk).unwrap_err(), Error::MalformedMessage);
}

#[test]
fn open_rejects_wrong_nonce_length_distinctly() {
    let psk = sym::gen_random_psk().unwrap();
    let (_nonce, cipher) = sym::enc(b"x", &psk).unwrap();
    let body = frame(&[0u8; 5], &cipher);
    assert_eq!(parse(&body, &psk).unwrap_err(), Error::InvalidNonce);
}

#[test]
fn open_rejects_truncated_frame() {
    let psk = sym::gen_random_psk().unwrap();
    let (nonce, cipher) = sym::enc(b"x", &psk).unwrap();
    let mut body = frame(&nonce, &cipher);
    body.pop();
    assert_eq!(parse(&body, &psk).unwrap_err(), Error::MalformedEnvelope);
}
