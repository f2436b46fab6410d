use vstd::prelude::*;

use crate::endpoint::{Endpoint, EndpointV};
use crate::error::Error;
use crate::wire::{
    be_u16, be_u64, bytes_at, dec_bytes_at, dec_u16_at, dec_u64_at, emit_bytes, emit_u16, emit_u64,
    enc_bytes, lemma_bytes_at_concat, lemma_dec_bytes_at, lemma_dec_u16_at, lemma_dec_u64_at,
    read_bytes, read_u16, read_u64,
};
use vstd::utf8::{decode_utf8, encode_utf8, valid_utf8};

verus! {

// The message protocol: typed request/response payloads and a
// deterministic, order-preserving binary form. Every variant is
// self-describing on the wire: a one-byte tag, then the named fields
// in declaration order. Decoding validates the tag before it reads
// the payload, and a batch is a count followed by the messages in
// order.

// ---------- the types and their abstract values ----------

/// One advertisement of a discovery mapping: a peer identifier and the
/// ordered list of endpoints believed reachable for that peer. An empty
/// list is valid: the peer is known but has no reachable address yet.
#[derive(Clone, Debug, PartialEq)]
pub struct DiscoveryEntry {
    pub peer_id: Vec<u8>,
    pub endpoints: Vec<Endpoint>,
}

pub struct DiscoveryEntryV {
    pub peer_id: Seq<u8>,
    pub endpoints: Seq<EndpointV>,
}

impl DeepView for DiscoveryEntry {
    type V = DiscoveryEntryV;

    open spec fn deep_view(&self) -> DiscoveryEntryV {
        DiscoveryEntryV { peer_id: self.peer_id@, endpoints: self.endpoints.deep_view() }
    }
}

/// A request advertising known peer-to-endpoint mappings, in order.
#[derive(Clone, Debug, PartialEq)]
pub struct DiscoveryReq {
    pub discover: Vec<DiscoveryEntry>,
}

impl DiscoveryReq {
    pub fn new(discover: Vec<DiscoveryEntry>) -> (r: Self)
        ensures
            r.discover.deep_view() == discover.deep_view(),
    {
        DiscoveryReq { discover }
    }
}

/// The response form of a discovery advertisement; the same shape.
#[derive(Clone, Debug, PartialEq)]
pub struct DiscoveryRes {
    pub discover: Vec<DiscoveryEntry>,
}

impl DiscoveryRes {
    pub fn new(discover: Vec<DiscoveryEntry>) -> (r: Self)
        ensures
            r.discover.deep_view() == discover.deep_view(),
    {
        DiscoveryRes { discover }
    }
}

/// A liveness probe, stamped with the sender's wall clock.
#[derive(Clone, Debug, PartialEq)]
pub struct PingReq {
    pub sent_time: u64,
    pub node_id: Vec<u8>,
    pub discover: Vec<Endpoint>,
}

/// The answer to a probe: the probe's own stamp copied verbatim, and a
/// fresh stamp taken when the answer was built, so the probing side can
/// compute round-trip latency and skew diagnostics.
#[derive(Clone, Debug, PartialEq)]
pub struct PingRes {
    pub origin_time: u64,
    pub response_time: u64,
    pub node_id: Vec<u8>,
    pub discover: Vec<Endpoint>,
}

/// An opaque application payload.
#[derive(Clone, Debug, PartialEq)]
pub struct UserMessage {
    pub data: Vec<u8>,
}

impl UserMessage {
    pub fn new(data: Vec<u8>) -> (r: Self)
        ensures
            r.data@ == data@,
    {
        UserMessage { data }
    }
}

/// The data carried by a handshake answer: a session identifier, the
/// responder's node identifier and its ephemeral public key. No
/// handshake protocol executes here; this only carries its artifacts.
#[derive(Clone, Debug, PartialEq)]
pub struct InitialHandshakeRes {
    pub session_id: String,
    pub node_id: Vec<u8>,
    pub eph_pub: Vec<u8>,
}

pub struct PingReqV {
    pub sent_time: u64,
    pub node_id: Seq<u8>,
    pub discover: Seq<EndpointV>,
}

pub struct PingResV {
    pub origin_time: u64,
    pub response_time: u64,
    pub node_id: Seq<u8>,
    pub discover: Seq<EndpointV>,
}

pub struct HandshakeResV {
    pub session_id: Seq<char>,
    pub node_id: Seq<u8>,
    pub eph_pub: Seq<u8>,
}

impl DeepView for PingReq {
    type V = PingReqV;

    open spec fn deep_view(&self) -> PingReqV {
        PingReqV {
            sent_time: self.sent_time,
            node_id: self.node_id@,
            discover: self.discover.deep_view(),
        }
    }
}

impl DeepView for PingRes {
    type V = PingResV;

    open spec fn deep_view(&self) -> PingResV {
        PingResV {
            origin_time: self.origin_time,
            response_time: self.response_time,
            node_id: self.node_id@,
            discover: self.discover.deep_view(),
        }
    }
}

impl DeepView for InitialHandshakeRes {
    type V = HandshakeResV;

    open spec fn deep_view(&self) -> HandshakeResV {
        HandshakeResV {
            session_id: self.session_id@,
            node_id: self.node_id@,
            eph_pub: self.eph_pub@,
        }
    }
}

/// A protocol message: the tagged union that crosses the wire.
#[derive(Clone, Debug, PartialEq)]
pub enum Message {
    DiscoveryReq(DiscoveryReq),
    DiscoveryRes(DiscoveryRes),
    PingReq(PingReq),
    PingRes(PingRes),
    UserMessage(UserMessage),
    HandshakeRes(InitialHandshakeRes),
}

pub enum MessageV {
    DiscoveryReq(Seq<DiscoveryEntryV>),
    DiscoveryRes(Seq<DiscoveryEntryV>),
    PingReq(PingReqV),
    PingRes(PingResV),
    UserMessage(Seq<u8>),
    HandshakeRes(HandshakeResV),
}

impl DeepView for Message {
    type V = MessageV;

    open spec fn deep_view(&self) -> MessageV {
        match self {
            Message::DiscoveryReq(d) => MessageV::DiscoveryReq(d.discover.deep_view()),
            Message::DiscoveryRes(d) => MessageV::DiscoveryRes(d.discover.deep_view()),
            Message::PingReq(p) => MessageV::PingReq(p.deep_view()),
            Message::PingRes(p) => MessageV::PingRes(p.deep_view()),
            Message::UserMessage(u) => MessageV::UserMessage(u.data@),
            Message::HandshakeRes(h) => MessageV::HandshakeRes(h.deep_view()),
        }
    }
}

// ---------- bounds under which the wire form is faithful ----------

/// Lengths the eight-byte wire counters can carry. Every value built in
/// executable code satisfies these, since its lengths fit in `usize`.
pub open spec fn ep_bounded(e: EndpointV) -> bool {
    e.addr.len() <= u64::MAX
}

pub open spec fn eps_bounded(s: Seq<EndpointV>) -> bool {
    &&& s.len() <= u64::MAX
    &&& forall|k: int| 0 <= k < s.len() ==> ep_bounded(#[trigger] s[k])
}

pub open spec fn entry_bounded(en: DiscoveryEntryV) -> bool {
    &&& en.peer_id.len() <= u64::MAX
    &&& eps_bounded(en.endpoints)
}

pub open spec fn entries_bounded(s: Seq<DiscoveryEntryV>) -> bool {
    &&& s.len() <= u64::MAX
    &&& forall|k: int| 0 <= k < s.len() ==> entry_bounded(#[trigger] s[k])
}

pub open spec fn msg_bounded(m: MessageV) -> bool {
    match m {
        MessageV::DiscoveryReq(d) => entries_bounded(d),
        MessageV::DiscoveryRes(d) => entries_bounded(d),
        MessageV::PingReq(p) => p.node_id.len() <= u64::MAX && eps_bounded(p.discover),
        MessageV::PingRes(p) => p.node_id.len() <= u64::MAX && eps_bounded(p.discover),
        MessageV::UserMessage(d) => d.len() <= u64::MAX,
        MessageV::HandshakeRes(h) => encode_utf8(h.session_id).len() <= u64::MAX && h.node_id.len()
            <= u64::MAX && h.eph_pub.len() <= u64::MAX,
    }
}

pub open spec fn batch_bounded(s: Seq<MessageV>) -> bool {
    &&& s.len() <= u64::MAX
    &&& forall|k: int| 0 <= k < s.len() ==> msg_bounded(#[trigger] s[k])
}

// ---------- the wire form, as a specification ----------

pub const TAG_DISCOVERY_REQ: u8 = 1;

pub const TAG_DISCOVERY_RES: u8 = 2;

pub const TAG_PING_REQ: u8 = 3;

pub const TAG_PING_RES: u8 = 4;

pub const TAG_USER_MESSAGE: u8 = 5;

pub const TAG_HANDSHAKE_RES: u8 = 6;

/// An endpoint on the wire: length-prefixed host bytes, then the port.
pub open spec fn enc_ep(e: EndpointV) -> Seq<u8> {
    enc_bytes(e.addr) + be_u16(e.port)
}

pub open spec fn enc_ep_seq(s: Seq<EndpointV>) -> Seq<u8>
    decreases s.len(),
{
    if s.len() == 0 {
        Seq::empty()
    } else {
        enc_ep(s[0]) + enc_ep_seq(s.drop_first())
    }
}

/// An endpoint list on the wire: a count, then the endpoints in order.
pub open spec fn enc_eps(s: Seq<EndpointV>) -> Seq<u8> {
    be_u64(s.len() as u64) + enc_ep_seq(s)
}

/// A discovery entry on the wire: the peer identifier, then its endpoints.
pub open spec fn enc_entry(en: DiscoveryEntryV) -> Seq<u8> {
    enc_bytes(en.peer_id) + enc_eps(en.endpoints)
}

pub open spec fn enc_entry_seq(s: Seq<DiscoveryEntryV>) -> Seq<u8>
    decreases s.len(),
{
    if s.len() == 0 {
        Seq::empty()
    } else {
        enc_entry(s[0]) + enc_entry_seq(s.drop_first())
    }
}

pub open spec fn enc_entries(s: Seq<DiscoveryEntryV>) -> Seq<u8> {
    be_u64(s.len() as u64) + enc_entry_seq(s)
}

/// A message on the wire: its tag, then its fields in declaration order.
pub open spec fn enc_msg(m: MessageV) -> Seq<u8> {
    match m {
        MessageV::DiscoveryReq(d) => seq![TAG_DISCOVERY_REQ] + enc_entries(d),
        MessageV::DiscoveryRes(d) => seq![TAG_DISCOVERY_RES] + enc_entries(d),
        MessageV::PingReq(p) => seq![TAG_PING_REQ] + be_u64(p.sent_time) + enc_bytes(p.node_id)
            + enc_eps(p.discover),
        MessageV::PingRes(p) => seq![TAG_PING_RES] + be_u64(p.origin_time) + be_u64(
            p.response_time,
        ) + enc_bytes(p.node_id) + enc_eps(p.discover),
        MessageV::UserMessage(d) => seq![TAG_USER_MESSAGE] + enc_bytes(d),
        MessageV::HandshakeRes(h) => seq![TAG_HANDSHAKE_RES] + enc_bytes(
            encode_utf8(h.session_id),
        ) + enc_bytes(h.node_id) + enc_bytes(h.eph_pub),
    }
}

pub open spec fn enc_msg_seq(s: Seq<MessageV>) -> Seq<u8>
    decreases s.len(),
{
    if s.len() == 0 {
        Seq::empty()
    } else {
        enc_msg(s[0]) + enc_msg_seq(s.drop_first())
    }
}

/// A batch on the wire: a count, then the messages in their order.
pub open spec fn enc_batch(s: Seq<MessageV>) -> Seq<u8> {
    be_u64(s.len() as u64) + enc_msg_seq(s)
}

// ---------- decoding, as a specification ----------

pub open spec fn dec_ep_at(b: Seq<u8>, i: int) -> Option<(EndpointV, int)> {
    match dec_bytes_at(b, i) {
        Some((addr, j)) => match dec_u16_at(b, j) {
            Some((port, k)) => Some((EndpointV { addr, port }, k)),
            None => None,
        },
        None => None,
    }
}

pub open spec fn dec_ep_seq_at(b: Seq<u8>, i: int, count: nat) -> Option<(Seq<EndpointV>, int)>
    decreases count,
{
    if count == 0 {
        Some((Seq::empty(), i))
    } else {
        match dec_ep_at(b, i) {
            Some((e, j)) => match dec_ep_seq_at(b, j, (count - 1) as nat) {
                Some((s, k)) => Some((seq![e] + s, k)),
                None => None,
            },
            None => None,
        }
    }
}

pub open spec fn dec_eps_at(b: Seq<u8>, i: int) -> Option<(Seq<EndpointV>, int)> {
    match dec_u64_at(b, i) {
        Some((n, j)) => dec_ep_seq_at(b, j, n as nat),
        None => None,
    }
}

pub open spec fn dec_entry_at(b: Seq<u8>, i: int) -> Option<(DiscoveryEntryV, int)> {
    match dec_bytes_at(b, i) {
        Some((peer_id, j)) => match dec_eps_at(b, j) {
            Some((endpoints, k)) => Some((DiscoveryEntryV { peer_id, endpoints }, k)),
            None => None,
        },
        None => None,
    }
}

pub open spec fn dec_entry_seq_at(b: Seq<u8>, i: int, count: nat) -> Option<
    (Seq<DiscoveryEntryV>, int),
>
    decreases count,
{
    if count == 0 {
        Some((Seq::empty(), i))
    } else {
        match dec_entry_at(b, i) {
            Some((en, j)) => match dec_entry_seq_at(b, j, (count - 1) as nat) {
                Some((s, k)) => Some((seq![en] + s, k)),
                None => None,
            },
            None => None,
        }
    }
}

pub open spec fn dec_entries_at(b: Seq<u8>, i: int) -> Option<(Seq<DiscoveryEntryV>, int)> {
    match dec_u64_at(b, i) {
        Some((n, j)) => dec_entry_seq_at(b, j, n as nat),
        None => None,
    }
}

pub open spec fn dec_msg_at(b: Seq<u8>, i: int) -> Option<(MessageV, int)> {
    if 0 <= i < b.len() {
        let tag = b[i];
        if tag == TAG_DISCOVERY_REQ {
            match dec_entries_at(b, i + 1) {
                Some((d, j)) => Some((MessageV::DiscoveryReq(d), j)),
                None => None,
            }
        } else if tag == TAG_DISCOVERY_RES {
            match dec_entries_at(b, i + 1) {
                Some((d, j)) => Some((MessageV::DiscoveryRes(d), j)),
                None => None,
            }
        } else if tag == TAG_PING_REQ {
            match dec_u64_at(b, i + 1) {
                Some((sent_time, j)) => match dec_bytes_at(b, j) {
                    Some((node_id, k)) => match dec_eps_at(b, k) {
                        Some((discover, l)) => Some(
                            (MessageV::PingReq(PingReqV { sent_time, node_id, discover }), l),
                        ),
                        None => None,
                    },
                    None => None,
                },
                None => None,
            }
        } else if tag == TAG_PING_RES {
            match dec_u64_at(b, i + 1) {
                Some((origin_time, j0)) => match dec_u64_at(b, j0) {
                    Some((response_time, j)) => match dec_bytes_at(b, j) {
                        Some((node_id, k)) => match dec_eps_at(b, k) {
                            Some((discover, l)) => Some(
                                (
                                    MessageV::PingRes(
                                        PingResV { origin_time, response_time, node_id, discover },
                                    ),
                                    l,
                                ),
                            ),
                            None => None,
                        },
                        None => None,
                    },
                    None => None,
                },
                None => None,
            }
        } else if tag == TAG_USER_MESSAGE {
            match dec_bytes_at(b, i + 1) {
                Some((d, j)) => Some((MessageV::UserMessage(d), j)),
                None => None,
            }
        } else if tag == TAG_HANDSHAKE_RES {
            match dec_bytes_at(b, i + 1) {
                Some((sid, j)) => {
                    if valid_utf8(sid) {
                        match dec_bytes_at(b, j) {
                            Some((node_id, k)) => match dec_bytes_at(b, k) {
                                Some((eph_pub, l)) => Some(
                                    (
                                        MessageV::HandshakeRes(
                                            HandshakeResV {
                                                session_id: decode_utf8(sid),
                                                node_id,
                                                eph_pub,
                                            },
                                        ),
                                        l,
                                    ),
                                ),
                                None => None,
                            },
                            None => None,
                        }
                    } else {
                        None
                    }
                },
                None => None,
            }
        } else {
            None
        }
    } else {
        None
    }
}

pub open spec fn dec_msg_seq_at(b: Seq<u8>, i: int, count: nat) -> Option<(Seq<MessageV>, int)>
    decreases count,
{
    if count == 0 {
        Some((Seq::empty(), i))
    } else {
        match dec_msg_at(b, i) {
            Some((m, j)) => match dec_msg_seq_at(b, j, (count - 1) as nat) {
                Some((s, k)) => Some((seq![m] + s, k)),
                None => None,
            },
            None => None,
        }
    }
}

pub open spec fn dec_batch_at(b: Seq<u8>, i: int) -> Option<(Seq<MessageV>, int)> {
    match dec_u64_at(b, i) {
        Some((n, j)) => dec_msg_seq_at(b, j, n as nat),
        None => None,
    }
}

/// The message a whole buffer denotes: one message, nothing trailing.
pub open spec fn parse_msg(b: Seq<u8>) -> Option<MessageV> {
    match dec_msg_at(b, 0) {
        Some((m, j)) => if j == b.len() {
            Some(m)
        } else {
            None
        },
        None => None,
    }
}

/// The batch a whole buffer denotes: one batch, nothing trailing.
pub open spec fn parse_batch(b: Seq<u8>) -> Option<Seq<MessageV>> {
    match dec_batch_at(b, 0) {
        Some((s, j)) => if j == b.len() {
            Some(s)
        } else {
            None
        },
        None => None,
    }
}

// ---------- round trip: decoding inverts encoding ----------

pub proof fn lemma_dec_ep_at(b: Seq<u8>, i: int, e: EndpointV)
    requires
        bytes_at(b, i, enc_ep(e)),
        ep_bounded(e),
    ensures
        dec_ep_at(b, i) == Some((e, i + enc_ep(e).len())),
{
    lemma_bytes_at_concat(b, i, enc_bytes(e.addr), be_u16(e.port));
    lemma_dec_bytes_at(b, i, e.addr);
    lemma_dec_u16_at(b, i + enc_bytes(e.addr).len(), e.port);
}

pub proof fn lemma_dec_ep_seq_at(b: Seq<u8>, i: int, s: Seq<EndpointV>)
    requires
        bytes_at(b, i, enc_ep_seq(s)),
        eps_bounded(s),
    ensures
        dec_ep_seq_at(b, i, s.len()) == Some((s, i + enc_ep_seq(s).len())),
    decreases s.len(),
{
    if s.len() == 0 {
        assert(dec_ep_seq_at(b, i, 0) == Some((Seq::<EndpointV>::empty(), i)));
        assert(s =~= Seq::<EndpointV>::empty());
    } else {
        lemma_bytes_at_concat(b, i, enc_ep(s[0]), enc_ep_seq(s.drop_first()));
        lemma_dec_ep_at(b, i, s[0]);
        assert(eps_bounded(s.drop_first())) by {
            assert(forall|k: int|
                0 <= k < s.drop_first().len() ==> s.drop_first()[k] == s[k + 1]);
        }
        lemma_dec_ep_seq_at(b, i + enc_ep(s[0]).len(), s.drop_first());
        assert(seq![s[0]] + s.drop_first() =~= s);
    }
}

pub proof fn lemma_dec_eps_at(b: Seq<u8>, i: int, s: Seq<EndpointV>)
    requires
        bytes_at(b, i, enc_eps(s)),
        eps_bounded(s),
    ensures
        dec_eps_at(b, i) == Some((s, i + enc_eps(s).len())),
{
    lemma_bytes_at_concat(b, i, be_u64(s.len() as u64), enc_ep_seq(s));
    lemma_dec_u64_at(b, i, s.len() as u64);
    lemma_dec_ep_seq_at(b, i + 8, s);
}

pub proof fn lemma_dec_entry_at(b: Seq<u8>, i: int, en: DiscoveryEntryV)
    requires
        bytes_at(b, i, enc_entry(en)),
        entry_bounded(en),
    ensures
        dec_entry_at(b, i) == Some((en, i + enc_entry(en).len())),
{
    lemma_bytes_at_concat(b, i, enc_bytes(en.peer_id), enc_eps(en.endpoints));
    lemma_dec_bytes_at(b, i, en.peer_id);
    lemma_dec_eps_at(b, i + enc_bytes(en.peer_id).len(), en.endpoints);
}

pub proof fn lemma_dec_entry_seq_at(b: Seq<u8>, i: int, s: Seq<DiscoveryEntryV>)
    requires
        bytes_at(b, i, enc_entry_seq(s)),
        entries_bounded(s),
    ensures
        dec_entry_seq_at(b, i, s.len()) == Some((s, i + enc_entry_seq(s).len())),
    decreases s.len(),
{
    if s.len() == 0 {
        assert(s =~= Seq::<DiscoveryEntryV>::empty());
    } else {
        lemma_bytes_at_concat(b, i, enc_entry(s[0]), enc_entry_seq(s.drop_first()));
        lemma_dec_entry_at(b, i, s[0]);
        assert(entries_bounded(s.drop_first())) by {
            assert(forall|k: int|
                0 <= k < s.drop_first().len() ==> s.drop_first()[k] == s[k + 1]);
        }
        lemma_dec_entry_seq_at(b, i + enc_entry(s[0]).len(), s.drop_first());
        assert(seq![s[0]] + s.drop_first() =~= s);
    }
}

pub proof fn lemma_dec_entries_at(b: Seq<u8>, i: int, s: Seq<DiscoveryEntryV>)
    requires
        bytes_at(b, i, enc_entries(s)),
        entries_bounded(s),
    ensures
        dec_entries_at(b, i) == Some((s, i + enc_entries(s).len())),
{
    lemma_bytes_at_concat(b, i, be_u64(s.len() as u64), enc_entry_seq(s));
    lemma_dec_u64_at(b, i, s.len() as u64);
    lemma_dec_entry_seq_at(b, i + 8, s);
}

proof fn lemma_dec_msg_at_discovery_req(b: Seq<u8>, i: int, d: Seq<DiscoveryEntryV>)
    requires
        bytes_at(b, i, enc_msg(MessageV::DiscoveryReq(d))),
        entries_bounded(d),
    ensures
        dec_msg_at(b, i) == Some(
            (MessageV::DiscoveryReq(d), i + enc_msg(MessageV::DiscoveryReq(d)).len()),
        ),
{
    lemma_bytes_at_concat(b, i, seq![TAG_DISCOVERY_REQ], enc_entries(d));
    assert(b[i] == seq![TAG_DISCOVERY_REQ][0]);
    lemma_dec_entries_at(b, i + 1, d);
}

proof fn lemma_dec_msg_at_discovery_res(b: Seq<u8>, i: int, d: Seq<DiscoveryEntryV>)
    requires
        bytes_at(b, i, enc_msg(MessageV::DiscoveryRes(d))),
        entries_bounded(d),
    ensures
        dec_msg_at(b, i) == Some(
            (MessageV::DiscoveryRes(d), i + enc_msg(MessageV::DiscoveryRes(d)).len()),
        ),
{
    lemma_bytes_at_concat(b, i, seq![TAG_DISCOVERY_RES], enc_entries(d));
    assert(b[i] == seq![TAG_DISCOVERY_RES][0]);
    lemma_dec_entries_at(b, i + 1, d);
}

proof fn lemma_dec_msg_at_ping_req(b: Seq<u8>, i: int, p: PingReqV)
    requires
        bytes_at(b, i, enc_msg(MessageV::PingReq(p))),
        msg_bounded(MessageV::PingReq(p)),
    ensures
        dec_msg_at(b, i) == Some((MessageV::PingReq(p), i + enc_msg(MessageV::PingReq(p)).len())),
{
    let m = MessageV::PingReq(p);
    let rest = be_u64(p.sent_time) + enc_bytes(p.node_id) + enc_eps(p.discover);
    assert(enc_msg(m) =~= seq![TAG_PING_REQ] + rest);
    lemma_bytes_at_concat(b, i, seq![TAG_PING_REQ], rest);
    assert(b[i] == seq![TAG_PING_REQ][0]);
    assert(rest =~= be_u64(p.sent_time) + (enc_bytes(p.node_id) + enc_eps(p.discover)));
    lemma_bytes_at_concat(
        b,
        i + 1,
        be_u64(p.sent_time),
        enc_bytes(p.node_id) + enc_eps(p.discover),
    );
    lemma_dec_u64_at(b, i + 1, p.sent_time);
    lemma_bytes_at_concat(b, i + 9, enc_bytes(p.node_id), enc_eps(p.discover));
    lemma_dec_bytes_at(b, i + 9, p.node_id);
    lemma_dec_eps_at(b, i + 9 + enc_bytes(p.node_id).len(), p.discover);
}

proof fn lemma_dec_msg_at_ping_res(b: Seq<u8>, i: int, p: PingResV)
    requires
        bytes_at(b, i, enc_msg(MessageV::PingRes(p))),
        msg_bounded(MessageV::PingRes(p)),
    ensures
        dec_msg_at(b, i) == Some((MessageV::PingRes(p), i + enc_msg(MessageV::PingRes(p)).len())),
{
    let m = MessageV::PingRes(p);
    let rest = be_u64(p.origin_time) + be_u64(p.response_time) + enc_bytes(p.node_id) + enc_eps(
        p.discover,
    );
    assert(enc_msg(m) =~= seq![TAG_PING_RES] + rest);
    lemma_bytes_at_concat(b, i, seq![TAG_PING_RES], rest);
    assert(b[i] == seq![TAG_PING_RES][0]);
    assert(rest =~= be_u64(p.origin_time) + (be_u64(p.response_time) + enc_bytes(p.node_id)
        + enc_eps(p.discover)));
    lemma_bytes_at_concat(
        b,
        i + 1,
        be_u64(p.origin_time),
        be_u64(p.response_time) + enc_bytes(p.node_id) + enc_eps(p.discover),
    );
    lemma_dec_u64_at(b, i + 1, p.origin_time);
    assert(be_u64(p.response_time) + enc_bytes(p.node_id) + enc_eps(p.discover) =~= be_u64(
        p.response_time,
    ) + (enc_bytes(p.node_id) + enc_eps(p.discover)));
    lemma_bytes_at_concat(
        b,
        i + 9,
        be_u64(p.response_time),
        enc_bytes(p.node_id) + enc_eps(p.discover),
    );
    lemma_dec_u64_at(b, i + 9, p.response_time);
    lemma_bytes_at_concat(b, i + 17, enc_bytes(p.node_id), enc_eps(p.discover));
    lemma_dec_bytes_at(b, i + 17, p.node_id);
    lemma_dec_eps_at(b, i + 17 + enc_bytes(p.node_id).len(), p.discover);
}

proof fn lemma_dec_msg_at_user(b: Seq<u8>, i: int, d: Seq<u8>)
    requires
        bytes_at(b, i, enc_msg(MessageV::UserMessage(d))),
        d.len() <= u64::MAX,
    ensures
        dec_msg_at(b, i) == Some(
            (MessageV::UserMessage(d), i + enc_msg(MessageV::UserMessage(d)).len()),
        ),
{
    lemma_bytes_at_concat(b, i, seq![TAG_USER_MESSAGE], enc_bytes(d));
    assert(b[i] == seq![TAG_USER_MESSAGE][0]);
    lemma_dec_bytes_at(b, i + 1, d);
}

proof fn lemma_dec_msg_at_handshake(b: Seq<u8>, i: int, h: HandshakeResV)
    requires
        bytes_at(b, i, enc_msg(MessageV::HandshakeRes(h))),
        msg_bounded(MessageV::HandshakeRes(h)),
    ensures
        dec_msg_at(b, i) == Some(
            (MessageV::HandshakeRes(h), i + enc_msg(MessageV::HandshakeRes(h)).len()),
        ),
{
    broadcast use vstd::utf8::encode_utf8_valid_utf8;
    broadcast use vstd::utf8::encode_utf8_decode_utf8;

    let m = MessageV::HandshakeRes(h);
    let sid = encode_utf8(h.session_id);
    let rest = enc_bytes(sid) + enc_bytes(h.node_id) + enc_bytes(h.eph_pub);
    assert(enc_msg(m) =~= seq![TAG_HANDSHAKE_RES] + rest);
    lemma_bytes_at_concat(b, i, seq![TAG_HANDSHAKE_RES], rest);
    assert(b[i] == seq![TAG_HANDSHAKE_RES][0]);
    assert(rest =~= enc_bytes(sid) + (enc_bytes(h.node_id) + enc_bytes(h.eph_pub)));
    lemma_bytes_at_concat(b, i + 1, enc_bytes(sid), enc_bytes(h.node_id) + enc_bytes(h.eph_pub));
    lemma_dec_bytes_at(b, i + 1, sid);
    let j = i + 1 + enc_bytes(sid).len();
    lemma_bytes_at_concat(b, j, enc_bytes(h.node_id), enc_bytes(h.eph_pub));
    lemma_dec_bytes_at(b, j, h.node_id);
    lemma_dec_bytes_at(b, j + enc_bytes(h.node_id).len(), h.eph_pub);
    assert(valid_utf8(sid));
    assert(decode_utf8(sid) == h.session_id);
}

pub proof fn lemma_dec_msg_at(b: Seq<u8>, i: int, m: MessageV)
    requires
        bytes_at(b, i, enc_msg(m)),
        msg_bounded(m),
    ensures
        dec_msg_at(b, i) == Some((m, i + enc_msg(m).len())),
{
    match m {
        MessageV::DiscoveryReq(d) => lemma_dec_msg_at_discovery_req(b, i, d),
        MessageV::DiscoveryRes(d) => lemma_dec_msg_at_discovery_res(b, i, d),
        MessageV::PingReq(p) => lemma_dec_msg_at_ping_req(b, i, p),
        MessageV::PingRes(p) => lemma_dec_msg_at_ping_res(b, i, p),
        MessageV::UserMessage(d) => lemma_dec_msg_at_user(b, i, d),
        MessageV::HandshakeRes(h) => lemma_dec_msg_at_handshake(b, i, h),
    }
}

pub proof fn lemma_dec_msg_seq_at(b: Seq<u8>, i: int, s: Seq<MessageV>)
    requires
        bytes_at(b, i, enc_msg_seq(s)),
        batch_bounded(s),
    ensures
        dec_msg_seq_at(b, i, s.len()) == Some((s, i + enc_msg_seq(s).len())),
    decreases s.len(),
{
    if s.len() == 0 {
        assert(s =~= Seq::<MessageV>::empty());
    } else {
        lemma_bytes_at_concat(b, i, enc_msg(s[0]), enc_msg_seq(s.drop_first()));
        lemma_dec_msg_at(b, i, s[0]);
        assert(batch_bounded(s.drop_first())) by {
            assert(forall|k: int|
                0 <= k < s.drop_first().len() ==> s.drop_first()[k] == s[k + 1]);
        }
        lemma_dec_msg_seq_at(b, i + enc_msg(s[0]).len(), s.drop_first());
        assert(seq![s[0]] + s.drop_first() =~= s);
    }
}

pub proof fn lemma_dec_batch_at(b: Seq<u8>, i: int, s: Seq<MessageV>)
    requires
        bytes_at(b, i, enc_batch(s)),
        batch_bounded(s),
    ensures
        dec_batch_at(b, i) == Some((s, i + enc_batch(s).len())),
{
    lemma_bytes_at_concat(b, i, be_u64(s.len() as u64), enc_msg_seq(s));
    lemma_dec_u64_at(b, i, s.len() as u64);
    lemma_dec_msg_seq_at(b, i + 8, s);
}

/// Message round trip: a whole encoded message parses back to itself.
pub proof fn lemma_msg_round_trip(m: MessageV)
    requires
        msg_bounded(m),
    ensures
        parse_msg(enc_msg(m)) == Some(m),
{
    let b = enc_msg(m);
    assert(b.subrange(0, b.len() as int) =~= b);
    lemma_dec_msg_at(b, 0, m);
}

/// Batch round trip: a whole encoded batch parses back to the same
/// ordered sequence of messages.
pub proof fn lemma_batch_round_trip(s: Seq<MessageV>)
    requires
        batch_bounded(s),
    ensures
        parse_batch(enc_batch(s)) == Some(s),
{
    let b = enc_batch(s);
    assert(b.subrange(0, b.len() as int) =~= b);
    lemma_dec_batch_at(b, 0, s);
}

// ---------- executable encoding ----------

proof fn lemma_enc_ep_seq_push(s: Seq<EndpointV>, x: EndpointV)
    ensures
        enc_ep_seq(s.push(x)) == enc_ep_seq(s) + enc_ep(x),
    decreases s.len(),
{
    if s.len() == 0 {
        assert(s.push(x)[0] == x);
        assert(s.push(x).drop_first() =~= Seq::<EndpointV>::empty());
        assert(enc_ep_seq(Seq::<EndpointV>::empty()) == Seq::<u8>::empty());
        assert(enc_ep_seq(s.push(x)) =~= enc_ep_seq(s) + enc_ep(x));
    } else {
        assert(s.push(x)[0] == s[0]);
        assert(s.push(x).drop_first() =~= s.drop_first().push(x));
        lemma_enc_ep_seq_push(s.drop_first(), x);
        assert(enc_ep_seq(s.push(x)) =~= enc_ep_seq(s) + enc_ep(x));
    }
}

proof fn lemma_enc_entry_seq_push(s: Seq<DiscoveryEntryV>, x: DiscoveryEntryV)
    ensures
        enc_entry_seq(s.push(x)) == enc_entry_seq(s) + enc_entry(x),
    decreases s.len(),
{
    if s.len() == 0 {
        assert(s.push(x)[0] == x);
        assert(s.push(x).drop_first() =~= Seq::<DiscoveryEntryV>::empty());
        assert(enc_entry_seq(Seq::<DiscoveryEntryV>::empty()) == Seq::<u8>::empty());
        assert(enc_entry_seq(s.push(x)) =~= enc_entry_seq(s) + enc_entry(x));
    } else {
        assert(s.push(x)[0] == s[0]);
        assert(s.push(x).drop_first() =~= s.drop_first().push(x));
        lemma_enc_entry_seq_push(s.drop_first(), x);
        assert(enc_entry_seq(s.push(x)) =~= enc_entry_seq(s) + enc_entry(x));
    }
}

proof fn lemma_enc_msg_seq_push(s: Seq<MessageV>, x: MessageV)
    ensures
        enc_msg_seq(s.push(x)) == enc_msg_seq(s) + enc_msg(x),
    decreases s.len(),
{
    if s.len() == 0 {
        assert(s.push(x)[0] == x);
        assert(s.push(x).drop_first() =~= Seq::<MessageV>::empty());
        assert(enc_msg_seq(Seq::<MessageV>::empty()) == Seq::<u8>::empty());
        assert(enc_msg_seq(s.push(x)) =~= enc_msg_seq(s) + enc_msg(x));
    } else {
        assert(s.push(x)[0] == s[0]);
        assert(s.push(x).drop_first() =~= s.drop_first().push(x));
        lemma_enc_msg_seq_push(s.drop_first(), x);
        assert(enc_msg_seq(s.push(x)) =~= enc_msg_seq(s) + enc_msg(x));
    }
}

fn emit_ep(out: &mut Vec<u8>, e: &Endpoint)
    ensures
        final(out)@ == old(out)@ + enc_ep(e.deep_view()),
        ep_bounded(e.deep_view()),
{
    let _addr_len: usize = e.addr.len();
    emit_bytes(out, e.addr.as_slice());
    emit_u16(out, e.port);
    assert(out@ =~= old(out)@ + enc_ep(e.deep_view()));
}

fn emit_eps(out: &mut Vec<u8>, s: &Vec<Endpoint>)
    ensures
        final(out)@ == old(out)@ + enc_eps(s.deep_view()),
        eps_bounded(s.deep_view()),
{
    let n: u64 = s.len() as u64;
    emit_u64(out, n);
    let mut k: usize = 0;
    while k < s.len()
        invariant
            k <= s.len(),
            s.deep_view().len() == s@.len(),
            s@.len() <= u64::MAX,
            out@ == old(out)@ + be_u64(s@.len() as u64) + enc_ep_seq(s.deep_view().take(k as int)),
            forall|j: int| 0 <= j < k ==> ep_bounded(#[trigger] s.deep_view()[j]),
        decreases s.len() - k,
    {
        let ghost pre = s.deep_view().take(k as int);
        emit_ep(out, &s[k]);
        proof {
            assert(s.deep_view()[k as int] == s@[k as int].deep_view());
            assert(s.deep_view().take(k + 1) =~= pre.push(s.deep_view()[k as int]));
            lemma_enc_ep_seq_push(pre, s.deep_view()[k as int]);
        }
        k = k + 1;
    }
    proof {
        assert(s.deep_view().take(s@.len() as int) =~= s.deep_view());
        assert(out@ =~= old(out)@ + enc_eps(s.deep_view()));
    }
}

fn emit_entry(out: &mut Vec<u8>, en: &DiscoveryEntry)
    ensures
        final(out)@ == old(out)@ + enc_entry(en.deep_view()),
        entry_bounded(en.deep_view()),
{
    let _peer_len: usize = en.peer_id.len();
    emit_bytes(out, en.peer_id.as_slice());
    emit_eps(out, &en.endpoints);
    assert(out@ =~= old(out)@ + enc_entry(en.deep_view()));
}

fn emit_entries(out: &mut Vec<u8>, s: &Vec<DiscoveryEntry>)
    ensures
        final(out)@ == old(out)@ + enc_entries(s.deep_view()),
        entries_bounded(s.deep_view()),
{
    let n: u64 = s.len() as u64;
    emit_u64(out, n);
    let mut k: usize = 0;
    while k < s.len()
        invariant
            k <= s.len(),
            s.deep_view().len() == s@.len(),
            s@.len() <= u64::MAX,
            out@ == old(out)@ + be_u64(s@.len() as u64) + enc_entry_seq(
                s.deep_view().take(k as int),
            ),
            forall|j: int| 0 <= j < k ==> entry_bounded(#[trigger] s.deep_view()[j]),
        decreases s.len() - k,
    {
        let ghost pre = s.deep_view().take(k as int);
        emit_entry(out, &s[k]);
        proof {
            assert(s.deep_view()[k as int] == s@[k as int].deep_view());
            assert(s.deep_view().take(k + 1) =~= pre.push(s.deep_view()[k as int]));
            lemma_enc_entry_seq_push(pre, s.deep_view()[k as int]);
        }
        k = k + 1;
    }
    proof {
        assert(s.deep_view().take(s@.len() as int) =~= s.deep_view());
        assert(out@ =~= old(out)@ + enc_entries(s.deep_view()));
    }
}

#[verifier::rlimit(80)]
fn emit_msg(out: &mut Vec<u8>, m: &Message)
    ensures
        final(out)@ == old(out)@ + enc_msg(m.deep_view()),
        msg_bounded(m.deep_view()),
{
    match m {
        Message::DiscoveryReq(d) => {
            out.push(TAG_DISCOVERY_REQ);
            assert(out@ =~= old(out)@ + seq![TAG_DISCOVERY_REQ]);
            emit_entries(out, &d.discover);
            assert(out@ =~= old(out)@ + enc_msg(m.deep_view()));
        },
        Message::DiscoveryRes(d) => {
            out.push(TAG_DISCOVERY_RES);
            assert(out@ =~= old(out)@ + seq![TAG_DISCOVERY_RES]);
            emit_entries(out, &d.discover);
            assert(out@ =~= old(out)@ + enc_msg(m.deep_view()));
        },
        Message::PingReq(p) => {
            out.push(TAG_PING_REQ);
            let _nid_len: usize = p.node_id.len();
            emit_u64(out, p.sent_time);
            emit_bytes(out, p.node_id.as_slice());
            emit_eps(out, &p.discover);
            assert(out@ =~= old(out)@ + enc_msg(m.deep_view()));
        },
        Message::PingRes(p) => {
            out.push(TAG_PING_RES);
            let _nid_len: usize = p.node_id.len();
            emit_u64(out, p.origin_time);
            emit_u64(out, p.response_time);
            emit_bytes(out, p.node_id.as_slice());
            emit_eps(out, &p.discover);
            assert(out@ =~= old(out)@ + enc_msg(m.deep_view()));
        },
        Message::UserMessage(u) => {
            out.push(TAG_USER_MESSAGE);
            let _data_len: usize = u.data.len();
            emit_bytes(out, u.data.as_slice());
            assert(out@ =~= old(out)@ + enc_msg(m.deep_view()));
        },
        Message::HandshakeRes(h) => {
            out.push(TAG_HANDSHAKE_RES);
            let sid_bytes = h.session_id.as_str().as_bytes();
            let _sid_len: usize = sid_bytes.len();
            let _nid_len: usize = h.node_id.len();
            let _eph_len: usize = h.eph_pub.len();
            emit_bytes(out, sid_bytes);
            emit_bytes(out, h.node_id.as_slice());
            emit_bytes(out, h.eph_pub.as_slice());
            assert(out@ =~= old(out)@ + enc_msg(m.deep_view()));
        },
    }
}

/// Serialize one message into its deterministic binary form. Never
/// fails: every message has a wire form, and no field is dropped.
pub fn compile(message: &Message) -> (r: Result<Vec<u8>, Error>)
    ensures
        r matches Ok(v) && v@ == enc_msg(message.deep_view()),
{
    let mut out: Vec<u8> = Vec::new();
    emit_msg(&mut out, message);
    assert(out@ =~= enc_msg(message.deep_view()));
    Ok(out)
}

/// Serialize an ordered batch of messages, preserving their order.
/// Never fails; the batch's wire form is the count then each message.
pub fn compile_batch(messages: &[Message]) -> (r: Result<Vec<u8>, Error>)
    ensures
        r matches Ok(v) && v@ == enc_batch(messages.deep_view()),
        batch_bounded(messages.deep_view()),
{
    let mut out: Vec<u8> = Vec::new();
    let n: u64 = messages.len() as u64;
    emit_u64(&mut out, n);
    let mut k: usize = 0;
    while k < messages.len()
        invariant
            k <= messages@.len(),
            messages.deep_view().len() == messages@.len(),
            messages@.len() <= u64::MAX,
            out@ == be_u64(messages@.len() as u64) + enc_msg_seq(
                messages.deep_view().take(k as int),
            ),
            forall|j: int| 0 <= j < k ==> msg_bounded(#[trigger] messages.deep_view()[j]),
        decreases messages@.len() - k,
    {
        let ghost pre = messages.deep_view().take(k as int);
        emit_msg(&mut out, &messages[k]);
        proof {
            assert(messages.deep_view()[k as int] == messages@[k as int].deep_view());
            assert(messages.deep_view().take(k + 1) =~= pre.push(messages.deep_view()[k as int]));
            lemma_enc_msg_seq_push(pre, messages.deep_view()[k as int]);
        }
        k = k + 1;
    }
    proof {
        assert(messages.deep_view().take(messages@.len() as int) =~= messages.deep_view());
        assert(out@ =~= enc_batch(messages.deep_view()));
    }
    Ok(out)
}

// ---------- executable decoding ----------

/// Relies on `String::from_utf8`: it succeeds exactly on valid UTF-8,
/// and the returned string's characters are the decoding of the bytes.
#[verifier::external_body]
fn string_from_utf8(b: Vec<u8>) -> (r: Option<String>)
    ensures
        r matches Some(s) ==> valid_utf8(b@) && s@ == decode_utf8(b@),
        r is None ==> !valid_utf8(b@),
{
    match String::from_utf8(b) {
        Ok(s) => Some(s),
        Err(_) => None,
    }
}

fn read_ep(b: &[u8], i: usize) -> (r: Option<(Endpoint, usize)>)
    ensures
        match r {
            Some((e, j)) => dec_ep_at(b@, i as int) == Some((e.deep_view(), j as int)),
            None => dec_ep_at(b@, i as int) is None,
        },
{
    match read_bytes(b, i) {
        Some((addr, j)) => match read_u16(b, j) {
            Some((port, k)) => Some((Endpoint { addr, port }, k)),
            None => None,
        },
        None => None,
    }
}

fn read_ep_seq(b: &[u8], i: usize, n: u64, out: &mut Vec<Endpoint>) -> (r: Option<usize>)
    ensures
        match r {
            Some(j) => dec_ep_seq_at(b@, i as int, n as nat) matches Some((s, jj)) && jj == j as int
                && final(out).deep_view() == old(out).deep_view() + s,
            None => dec_ep_seq_at(b@, i as int, n as nat) is None,
        },
    decreases n,
{
    if n == 0 {
        assert(out.deep_view() =~= old(out).deep_view() + Seq::<EndpointV>::empty());
        Some(i)
    } else {
        match read_ep(b, i) {
            Some((e, j)) => {
                let ghost ev = e.deep_view();
                let ghost mid = out.deep_view();
                out.push(e);
                proof {
                    assert(out.deep_view() =~= mid.push(ev));
                }
                let r = read_ep_seq(b, j, n - 1, out);
                proof {
                    if r is Some {
                        let (s, jj) = dec_ep_seq_at(b@, j as int, (n - 1) as nat).unwrap();
                        assert(out.deep_view() =~= old(out).deep_view() + (seq![ev] + s)) by {
                            assert(mid.push(ev) =~= mid + seq![ev]);
                        }
                    }
                }
                r
            },
            None => None,
        }
    }
}

fn read_eps(b: &[u8], i: usize) -> (r: Option<(Vec<Endpoint>, usize)>)
    ensures
        match r {
            Some((v, j)) => dec_eps_at(b@, i as int) == Some((v.deep_view(), j as int)),
            None => dec_eps_at(b@, i as int) is None,
        },
{
    match read_u64(b, i) {
        Some((n, j)) => {
            let mut v: Vec<Endpoint> = Vec::new();
            assert(v.deep_view() =~= Seq::<EndpointV>::empty());
            match read_ep_seq(b, j, n, &mut v) {
                Some(k) => {
                    proof {
                        let (s, jj) = dec_ep_seq_at(b@, j as int, n as nat).unwrap();
                        assert(v.deep_view() =~= s);
                    }
                    Some((v, k))
                },
                None => None,
            }
        },
        None => None,
    }
}

fn read_entry(b: &[u8], i: usize) -> (r: Option<(DiscoveryEntry, usize)>)
    ensures
        match r {
            Some((en, j)) => dec_entry_at(b@, i as int) == Some((en.deep_view(), j as int)),
            None => dec_entry_at(b@, i as int) is None,
        },
{
    match read_bytes(b, i) {
        Some((peer_id, j)) => match read_eps(b, j) {
            Some((endpoints, k)) => Some((DiscoveryEntry { peer_id, endpoints }, k)),
            None => None,
        },
        None => None,
    }
}

fn read_entry_seq(b: &[u8], i: usize, n: u64, out: &mut Vec<DiscoveryEntry>) -> (r: Option<usize>)
    ensures
        match r {
            Some(j) => dec_entry_seq_at(b@, i as int, n as nat) matches Some((s, jj)) && jj
                == j as int && final(out).deep_view() == old(out).deep_view() + s,
            None => dec_entry_seq_at(b@, i as int, n as nat) is None,
        },
    decreases n,
{
    if n == 0 {
        assert(out.deep_view() =~= old(out).deep_view() + Seq::<DiscoveryEntryV>::empty());
        Some(i)
    } else {
        match read_entry(b, i) {
            Some((en, j)) => {
                let ghost env = en.deep_view();
                let ghost mid = out.deep_view();
                out.push(en);
                proof {
                    assert(out.deep_view() =~= mid.push(env));
                }
                let r = read_entry_seq(b, j, n - 1, out);
                proof {
                    if r is Some {
                        let (s, jj) = dec_entry_seq_at(b@, j as int, (n - 1) as nat).unwrap();
                        assert(out.deep_view() =~= old(out).deep_view() + (seq![env] + s)) by {
                            assert(mid.push(env) =~= mid + seq![env]);
                        }
                    }
                }
                r
            },
            None => None,
        }
    }
}

fn read_entries(b: &[u8], i: usize) -> (r: Option<(Vec<DiscoveryEntry>, usize)>)
    ensures
        match r {
            Some((v, j)) => dec_entries_at(b@, i as int) == Some((v.deep_view(), j as int)),
            None => dec_entries_at(b@, i as int) is None,
        },
{
    match read_u64(b, i) {
        Some((n, j)) => {
            let mut v: Vec<DiscoveryEntry> = Vec::new();
            assert(v.deep_view() =~= Seq::<DiscoveryEntryV>::empty());
            match read_entry_seq(b, j, n, &mut v) {
                Some(k) => {
                    proof {
                        let (s, jj) = dec_entry_seq_at(b@, j as int, n as nat).unwrap();
                        assert(v.deep_view() =~= s);
                    }
                    Some((v, k))
                },
                None => None,
            }
        },
        None => None,
    }
}

fn read_msg(b: &[u8], i: usize) -> (r: Option<(Message, usize)>)
    ensures
        match r {
            Some((m, j)) => dec_msg_at(b@, i as int) == Some((m.deep_view(), j as int)),
            None => dec_msg_at(b@, i as int) is None,
        },
{
    if i >= b.len() {
        return None;
    }
    let tag = b[i];
    if tag == TAG_DISCOVERY_REQ {
        match read_entries(b, i + 1) {
            Some((d, j)) => Some((Message::DiscoveryReq(DiscoveryReq { discover: d }), j)),
            None => None,
        }
    } else if tag == TAG_DISCOVERY_RES {
        match read_entries(b, i + 1) {
            Some((d, j)) => Some((Message::DiscoveryRes(DiscoveryRes { discover: d }), j)),
            None => None,
        }
    } else if tag == TAG_PING_REQ {
        match read_u64(b, i + 1) {
            Some((sent_time, j)) => match read_bytes(b, j) {
                Some((node_id, k)) => match read_eps(b, k) {
                    Some((discover, l)) => Some(
                        (Message::PingReq(PingReq { sent_time, node_id, discover }), l),
                    ),
                    None => None,
                },
                None => None,
            },
            None => None,
        }
    } else if tag == TAG_PING_RES {
        match read_u64(b, i + 1) {
            Some((origin_time, j0)) => match read_u64(b, j0) {
                Some((response_time, j)) => match read_bytes(b, j) {
                    Some((node_id, k)) => match read_eps(b, k) {
                        Some((discover, l)) => Some(
                            (
                                Message::PingRes(
                                    PingRes { origin_time, response_time, node_id, discover },
                                ),
                                l,
                            ),
                        ),
                        None => None,
                    },
                    None => None,
                },
                None => None,
            },
            None => None,
        }
    } else if tag == TAG_USER_MESSAGE {
        match read_bytes(b, i + 1) {
            Some((d, j)) => Some((Message::UserMessage(UserMessage { data: d }), j)),
            None => None,
        }
    } else if tag == TAG_HANDSHAKE_RES {
        match read_bytes(b, i + 1) {
            Some((sid, j)) => {
                let ghost sidv = sid@;
                match string_from_utf8(sid) {
                    Some(session_id) => match read_bytes(b, j) {
                        Some((node_id, k)) => match read_bytes(b, k) {
                            Some((eph_pub, l)) => Some(
                                (
                                    Message::HandshakeRes(
                                        InitialHandshakeRes { session_id, node_id, eph_pub },
                                    ),
                                    l,
                                ),
                            ),
                            None => None,
                        },
                        None => None,
                    },
                    None => None,
                }
            },
            None => None,
        }
    } else {
        None
    }
}

/// Recover one message from a whole buffer: the inverse of `compile`.
/// Fails with a malformed-message error exactly when the buffer is not
/// the full wire form of one message: an unrecognized tag, a payload
/// whose shape does not match the tag, or trailing bytes.
pub fn parse(message: &[u8]) -> (r: Result<Message, Error>)
    ensures
        match r {
            Ok(m) => parse_msg(message@) == Some(m.deep_view()),
            Err(e) => e == Error::MalformedMessage && parse_msg(message@) is None,
        },
{
    match read_msg(message, 0) {
        Some((m, j)) => {
            if j == message.len() {
                Ok(m)
            } else {
                Err(Error::MalformedMessage)
            }
        },
        None => Err(Error::MalformedMessage),
    }
}

/// Recover an ordered batch from a whole buffer: the inverse of
/// `compile_batch`. Order is preserved; failure is classified as for
/// `parse`.
pub fn parse_batch_bytes(message: &[u8]) -> (r: Result<Vec<Message>, Error>)
    ensures
        match r {
            Ok(v) => parse_batch(message@) == Some(v.deep_view()),
            Err(e) => e == Error::MalformedMessage && parse_batch(message@) is None,
        },
{
    match read_u64(message, 0) {
        Some((n, j)) => {
            let mut v: Vec<Message> = Vec::new();
            assert(v.deep_view() =~= Seq::<MessageV>::empty());
            match read_msg_seq(message, j, n, &mut v) {
                Some(k) => {
                    if k == message.len() {
                        proof {
                            let (s, jj) = dec_msg_seq_at(message@, j as int, n as nat).unwrap();
                            assert(v.deep_view() =~= s);
                        }
                        Ok(v)
                    } else {
                        Err(Error::MalformedMessage)
                    }
                },
                None => Err(Error::MalformedMessage),
            }
        },
        None => Err(Error::MalformedMessage),
    }
}

fn read_msg_seq(b: &[u8], i: usize, n: u64, out: &mut Vec<Message>) -> (r: Option<usize>)
    ensures
        match r {
            Some(j) => dec_msg_seq_at(b@, i as int, n as nat) matches Some((s, jj)) && jj
                == j as int && final(out).deep_view() == old(out).deep_view() + s,
            None => dec_msg_seq_at(b@, i as int, n as nat) is None,
        },
    decreases n,
{
    if n == 0 {
        assert(out.deep_view() =~= old(out).deep_view() + Seq::<MessageV>::empty());
        Some(i)
    } else {
        match read_msg(b, i) {
            Some((m, j)) => {
                let ghost mv = m.deep_view();
                let ghost mid = out.deep_view();
                out.push(m);
                proof {
                    assert(out.deep_view() =~= mid.push(mv));
                }
                let r = read_msg_seq(b, j, n - 1, out);
                proof {
                    if r is Some {
                        let (s, jj) = dec_msg_seq_at(b@, j as int, (n - 1) as nat).unwrap();
                        assert(out.deep_view() =~= old(out).deep_view() + (seq![mv] + s)) by {
                            assert(mid.push(mv) =~= mid + seq![mv]);
                        }
                    }
                }
                r
            },
            None => None,
        }
    }
}

// ---------- time-stamped constructors ----------

/// Relies on `std::time::SystemTime`: the wall clock, as whole seconds
/// since the Unix epoch and the nanoseconds within the current second,
/// which are always below one billion. The values depend on the
/// machine's clock at the moment of the call, so nothing more is
/// promised of them; a clock before the epoch reads as the epoch.
#[verifier::external_body]
fn clock_now() -> (r: (u64, u32))
    ensures
        r.1 < 1_000_000_000,
{
    let since_the_epoch = std::time::SystemTime::now()
        .duration_since(std::time::UNIX_EPOCH)
        .unwrap_or_default();
    (since_the_epoch.as_secs(), since_the_epoch.subsec_nanos())
}

/// Milliseconds since the Unix epoch, from the wall clock; saturates
/// on a clock beyond what a millisecond counter can carry.
pub fn get_millis() -> u64 {
    let (secs, nanos) = clock_now();
    let sub_ms: u64 = (nanos / 1_000_000) as u64;
    if secs <= (u64::MAX - 999) / 1000 {
        secs * 1000 + sub_ms
    } else {
        u64::MAX
    }
}

impl PingReq {
    /// Build a probe carrying the given stamp. The stamp is stored
    /// verbatim; `new` supplies the wall clock.
    pub fn new_at(sent_time: u64, node_id: &[u8], discover: Vec<Endpoint>) -> (r: Self)
        ensures
            r.sent_time == sent_time,
            r.node_id@ == node_id@,
            r.discover.deep_view() == discover.deep_view(),
    {
        PingReq { sent_time, node_id: vstd::slice::slice_to_vec(node_id), discover }
    }

    /// Build a probe stamped with the current wall-clock time.
    pub fn new(node_id: &[u8], discover: Vec<Endpoint>) -> (r: Self)
        ensures
            r.node_id@ == node_id@,
            r.discover.deep_view() == discover.deep_view(),
    {
        Self::new_at(get_millis(), node_id, discover)
    }
}

impl PingRes {
    /// Build an answer carrying both stamps. The probe's stamp is copied
    /// verbatim; `new` supplies the wall clock for the answer's own.
    pub fn new_at(
        origin_time: u64,
        response_time: u64,
        node_id: &[u8],
        discover: Vec<Endpoint>,
    ) -> (r: Self)
        ensures
            r.origin_time == origin_time,
            r.response_time == response_time,
            r.node_id@ == node_id@,
            r.discover.deep_view() == discover.deep_view(),
    {
        PingRes {
            origin_time,
            response_time,
            node_id: vstd::slice::slice_to_vec(node_id),
            discover,
        }
    }

    /// Build an answer to a probe: the probe's own stamp copied
    /// verbatim, and the answer stamped with the current wall clock.
    pub fn new(origin_time: u64, node_id: &[u8], discover: Vec<Endpoint>) -> (r: Self)
        ensures
            r.origin_time == origin_time,
            r.node_id@ == node_id@,
            r.discover.deep_view() == discover.deep_view(),
    {
        Self::new_at(origin_time, get_millis(), node_id, discover)
    }
}

} // verus!
