use vstd::prelude::*;

use crate::error::Error;
use crate::message::{
    batch_bounded, compile_batch, enc_batch, lemma_batch_round_trip, parse_batch,
    parse_batch_bytes, Message, MessageV,
};
use crate::sym;
use crate::sym::{sealed, MAX_PLAINTEXT, NONCE_BYTES, PSK_BYTES};
use crate::wire::{
    dec_bytes_at, emit_bytes, enc_bytes, lemma_bytes_at_concat, lemma_dec_bytes_at, read_bytes,
};
use vstd::string::StringExecFns;

verus! {

// The envelope: an ordered batch of messages is serialized, sealed
// under the preshared key, and framed as the pair (nonce, ciphertext);
// the framed payload travels inside an outer carrier tagged with a
// session identifier. The inverse operation recovers the batch, and
// classifies every failure: framing, decryption and deserialization
// errors stay distinct.

/// The framed wire form of a sealed envelope: the nonce, then the
/// ciphertext, each length-prefixed.
pub open spec fn enc_frame(nonce: Seq<u8>, cipher: Seq<u8>) -> Seq<u8> {
    enc_bytes(nonce) + enc_bytes(cipher)
}

/// The (nonce, ciphertext) pair a whole buffer denotes, if any.
pub open spec fn dec_frame(b: Seq<u8>) -> Option<(Seq<u8>, Seq<u8>)> {
    match dec_bytes_at(b, 0) {
        Some((nonce, j)) => match dec_bytes_at(b, j) {
            Some((cipher, k)) => if k == b.len() {
                Some((nonce, cipher))
            } else {
                None
            },
            None => None,
        },
        None => None,
    }
}

/// Frame round trip: a framed pair reads back as itself.
#[verifier::rlimit(100)]
#[verifier::spinoff_prover]
pub proof fn lemma_frame_round_trip(nonce: Seq<u8>, cipher: Seq<u8>)
    requires
        nonce.len() <= u64::MAX,
        cipher.len() <= u64::MAX,
    ensures
        dec_frame(enc_frame(nonce, cipher)) == Some((nonce, cipher)),
{
    let b = enc_frame(nonce, cipher);
    assert(b.len() == 8 + nonce.len() + 8 + cipher.len());
    assert(b.subrange(0, b.len() as int) =~= b);
    assert(crate::wire::bytes_at(b, 0, enc_bytes(nonce) + enc_bytes(cipher)));
    lemma_bytes_at_concat(b, 0, enc_bytes(nonce), enc_bytes(cipher));
    lemma_dec_bytes_at(b, 0, nonce);
    assert(dec_bytes_at(b, 0) == Some((nonce, 8 + nonce.len() as int)));
    lemma_dec_bytes_at(b, 8 + nonce.len() as int, cipher);
    assert(dec_bytes_at(b, 8 + nonce.len() as int) == Some(
        (cipher, 8 + nonce.len() + 8 + cipher.len() as int),
    ));
}

/// A buffer short enough to exist equal to a sealed frame decodes to
/// that frame's own fields.
proof fn lemma_hyp_frame(b: Seq<u8>, key: Seq<u8>, n2: Seq<u8>, s: Seq<MessageV>)
    requires
        b.len() <= usize::MAX,
        n2.len() <= u64::MAX,
        b == enc_frame(n2, sealed(enc_batch(s), n2, key)),
    ensures
        dec_frame(b) == Some((n2, sealed(enc_batch(s), n2, key))),
{
    let c2 = sealed(enc_batch(s), n2, key);
    assert(c2.len() <= b.len());
    lemma_frame_round_trip(n2, c2);
}

/// What reaches the outer carrier: the session identifier, untouched,
/// and the sealed payload bytes. The carrier's own framing and headers
/// belong to the excluded transport collaborator.
#[derive(Debug)]
pub struct Carrier {
    pub session_id: String,
    pub body: Vec<u8>,
}

/// Seal an ordered batch of messages for transit: serialize the batch,
/// encrypt it under a fresh nonce and `psk`, and frame nonce and
/// ciphertext as the carrier payload, tagged with `session_id`.
///
/// The serialized batch is subject to the fixed plaintext ceiling;
/// larger batches must be split by the caller. On success the payload
/// is exactly the framing of a fresh nonce with the sealing of the
/// encoded batch, and the session identifier reaches the carrier
/// intact.
pub fn compile(session_id: &str, sub_messages: &[Message], psk: &[u8]) -> (r: Result<
    Carrier,
    Error,
>)
    ensures
        batch_bounded(sub_messages.deep_view()),
        match r {
            Ok(c) => {
                &&& c.session_id@ == session_id@
                &&& psk@.len() == PSK_BYTES
                &&& enc_batch(sub_messages.deep_view()).len() <= MAX_PLAINTEXT
                &&& exists|nonce: Seq<u8>|
                    {
                        &&& nonce.len() == NONCE_BYTES
                        &&& c.body@ == enc_frame(
                            nonce,
                            sealed(enc_batch(sub_messages.deep_view()), nonce, psk@),
                        )
                    }
            },
            Err(e) => {
                ||| e == Error::CryptoInitFailed
                ||| (e == Error::MessageTooLarge && enc_batch(sub_messages.deep_view()).len()
                    > MAX_PLAINTEXT)
                ||| (e == Error::InvalidPresharedKey && enc_batch(sub_messages.deep_view()).len()
                    <= MAX_PLAINTEXT && psk@.len() != PSK_BYTES)
            },
        },
{
    let plain = match compile_batch(sub_messages) {
        Ok(p) => p,
        Err(e) => {
            return Err(e);
        },
    };
    let (nonce, cipher) = match sym::enc(plain.as_slice(), psk) {
        Ok(pair) => pair,
        Err(e) => {
            return Err(e);
        },
    };
    let mut body: Vec<u8> = Vec::new();
    emit_bytes(&mut body, nonce.as_slice());
    emit_bytes(&mut body, cipher.as_slice());
    proof {
        assert(body@ =~= enc_frame(nonce@, cipher@));
    }
    Ok(Carrier { session_id: String::from_str(session_id), body })
}

/// Open a sealed carrier payload: read the (nonce, ciphertext) frame,
/// decrypt under `psk`, and deserialize the plaintext as an ordered
/// batch of messages, whose order is preserved end to end.
///
/// Every failure keeps its kind: a payload that is not a frame is a
/// malformed envelope; a nonce or key of the wrong length, and a
/// ciphertext that does not authenticate, keep the crypto errors of
/// `sym::dec`; a plaintext that is not a batch is a malformed message.
/// A payload sealed by `compile` under the same key always opens to
/// the batch that was sealed.
pub fn parse(message: &[u8], psk: &[u8]) -> (r: Result<Vec<Message>, Error>)
    ensures
        match r {
            Ok(v) => exists|nonce: Seq<u8>, plain: Seq<u8>|
                {
                    &&& dec_frame(message@) == Some((nonce, sealed(plain, nonce, psk@)))
                    &&& nonce.len() == NONCE_BYTES
                    &&& psk@.len() == PSK_BYTES
                    &&& parse_batch(plain) == Some(v.deep_view())
                },
            Err(e) => match dec_frame(message@) {
                None => e == Error::MalformedEnvelope,
                Some((nonce, cipher)) => {
                    ||| e == Error::CryptoInitFailed
                    ||| (e == Error::InvalidNonce && nonce.len() != NONCE_BYTES)
                    ||| (e == Error::InvalidPresharedKey && nonce.len() == NONCE_BYTES && psk@.len()
                        != PSK_BYTES)
                    ||| (e == Error::FailedToDecrypt && nonce.len() == NONCE_BYTES && psk@.len()
                        == PSK_BYTES && !(exists|p: Seq<u8>| cipher == sealed(p, nonce, psk@)))
                    ||| (e == Error::MalformedMessage && (exists|p: Seq<u8>|
                        cipher == sealed(p, nonce, psk@) && parse_batch(p) is None))
                },
            },
        },
        forall|nonce: Seq<u8>, s: Seq<MessageV>|
            (nonce.len() == NONCE_BYTES && psk@.len() == PSK_BYTES && batch_bounded(s) && message@
                == enc_frame(nonce, sealed(enc_batch(s), nonce, psk@))) ==> ((r matches Ok(v)
                && v.deep_view() == s) || r == Err::<Vec<Message>, Error>(Error::CryptoInitFailed)),
{
    let _msg_len: usize = message.len();
    let frame = read_bytes(message, 0);
    let (nonce, cipher, end) = match frame {
        Some((nonce, j)) => match read_bytes(message, j) {
            Some((cipher, k)) => (nonce, cipher, k),
            None => {
                proof {
                    assert forall|n2: Seq<u8>, s: Seq<MessageV>|
                        !(n2.len() == NONCE_BYTES && psk@.len() == PSK_BYTES && batch_bounded(s)
                            && message@ == enc_frame(
                            n2,
                            sealed(enc_batch(s), n2, psk@),
                        )) by {
                        if n2.len() == NONCE_BYTES && message@ == enc_frame(
                            n2,
                            sealed(enc_batch(s), n2, psk@),
                        ) {
                            lemma_hyp_frame(message@, psk@, n2, s);
                        }
                    }
                }
                return Err(Error::MalformedEnvelope);
            },
        },
        None => {
            proof {
                assert forall|n2: Seq<u8>, s: Seq<MessageV>|
                    !(n2.len() == NONCE_BYTES && psk@.len() == PSK_BYTES && batch_bounded(s)
                        && message@ == enc_frame(n2, sealed(enc_batch(s), n2, psk@))) by {
                    if n2.len() == NONCE_BYTES && message@ == enc_frame(
                        n2,
                        sealed(enc_batch(s), n2, psk@),
                    ) {
                        lemma_hyp_frame(message@, psk@, n2, s);
                    }
                }
            }
            return Err(Error::MalformedEnvelope);
        },
    };
    if end != message.len() {
        proof {
            assert forall|n2: Seq<u8>, s: Seq<MessageV>|
                !(n2.len() == NONCE_BYTES && psk@.len() == PSK_BYTES && batch_bounded(s) && message@
                    == enc_frame(n2, sealed(enc_batch(s), n2, psk@))) by {
                if n2.len() == NONCE_BYTES && message@ == enc_frame(
                    n2,
                    sealed(enc_batch(s), n2, psk@),
                ) {
                    lemma_hyp_frame(message@, psk@, n2, s);
                }
            }
        }
        return Err(Error::MalformedEnvelope);
    }
    assert(dec_frame(message@) == Some((nonce@, cipher@)));
    assert forall|n2: Seq<u8>, s: Seq<MessageV>|
        (n2.len() == NONCE_BYTES && psk@.len() == PSK_BYTES && batch_bounded(s) && message@
            == enc_frame(n2, sealed(enc_batch(s), n2, psk@))) implies (n2 == nonce@ && cipher@
        == sealed(enc_batch(s), n2, psk@)) by {
        lemma_hyp_frame(message@, psk@, n2, s);
    }
    let rdec = sym::dec(cipher.as_slice(), nonce.as_slice(), psk);
    let plain = match rdec {
        Ok(p) => p,
        Err(e) => {
            return Err(e);
        },
    };
    let rbatch = parse_batch_bytes(plain.as_slice());
    match rbatch {
        Ok(v) => {
            proof {
                assert forall|n2: Seq<u8>, s: Seq<MessageV>|
                    (n2.len() == NONCE_BYTES && psk@.len() == PSK_BYTES && batch_bounded(s)
                        && message@ == enc_frame(
                        n2,
                        sealed(enc_batch(s), n2, psk@),
                    )) implies v.deep_view() == s by {
                    lemma_hyp_frame(message@, psk@, n2, s);
                    assert(cipher@ == sealed(enc_batch(s), nonce@, psk@));
                    assert(plain@ == enc_batch(s));
                    lemma_batch_round_trip(s);
                }
            }
            Ok(v)
        },
        Err(_) => {
            proof {
                assert forall|n2: Seq<u8>, s: Seq<MessageV>|
                    !(n2.len() == NONCE_BYTES && psk@.len() == PSK_BYTES && batch_bounded(s)
                        && message@ == enc_frame(n2, sealed(enc_batch(s), n2, psk@))) by {
                    if n2.len() == NONCE_BYTES && psk@.len() == PSK_BYTES && batch_bounded(s)
                        && message@ == enc_frame(n2, sealed(enc_batch(s), n2, psk@)) {
                        lemma_hyp_frame(message@, psk@, n2, s);
                        assert(plain@ == enc_batch(s));
                        lemma_batch_round_trip(s);
                    }
                }
            }
            Err(Error::MalformedMessage)
        },
    }
}

} // verus!
