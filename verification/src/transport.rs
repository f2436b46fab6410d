use vstd::prelude::*;

use crate::error::Error;

verus! {

// The connection-lifecycle contract: establishing connections to
// endpoints, enumerating the tracked ones, and draining a bounded
// batch of transport events on each poll tick. Everything here is
// single-threaded, cooperative and non-blocking: a poll performs the
// work that is ready and returns at once.

/// Transient per-poll state: set when a poll performed any unit of
/// work, so a driving loop can pace itself — poll tightly while busy,
/// sleep when idle.
#[derive(Debug)]
pub struct PollEventState {
    pub did_something: bool,
}

impl Default for PollEventState {
    fn default() -> (r: Self)
        ensures
            !r.did_something,
    {
        Self { did_something: false }
    }
}

impl PollEventState {
    /// A fresh state with no work recorded.
    pub fn new() -> (r: Self)
        ensures
            !r.did_something,
    {
        PollEventState::default()
    }
}

/// A source of events drained one cooperative step at a time.
pub trait PollEvent {
    type PollEventType;

    /// One non-blocking step: perform whatever bounded work is ready
    /// and return the events it produced, in the order they were
    /// detected within this call. Each event is delivered at most
    /// once. A call that returns any event has done work, so it must
    /// leave `did_something` set.
    fn process_once(&mut self, event_state: &mut PollEventState) -> (r: Vec<Self::PollEventType>)
        ensures
            r.len() > 0 ==> final(event_state).did_something,
    ;
}

/// An address capability: each endpoint stands for a peer location and
/// has a byte form that identifies it.
pub trait Endpoint: Sized {
    /// The byte form standing for this endpoint's identity.
    spec fn key(&self) -> Seq<u8>;

    /// Read an endpoint from its byte form; fails on bytes that do not
    /// denote an address of the implementation's scheme.
    fn new(raw: &[u8]) -> (r: Result<Self, Error>);

    /// The byte form of this endpoint.
    fn get(&self) -> (r: Result<&[u8], Error>)
        ensures
            r matches Ok(b) ==> b@ == self.key(),
    ;
}

/// A transport-level failure surfaced as an event, not an exception:
/// either general, or attributed to one connection identifier.
#[derive(Debug)]
pub enum TransportEvent<U> {
    OnError(Error),
    OnConnectionError(U, Error),
}

/// The capability contract a concrete connection-oriented transport
/// satisfies: a connection table keyed by endpoint identity, mutated
/// only through `connect` and polling.
pub trait Transport<U>: Sized + PollEvent<PollEventType = TransportEvent<U>> {
    type EndpointImpl: Endpoint;

    /// The identities of the currently tracked connections.
    spec fn connections(&self) -> Set<Seq<u8>>;

    /// A transport with no tracked connections.
    fn new(config: &str) -> (r: Result<Self, Error>)
        ensures
            r matches Ok(t) ==> t.connections() == Set::<Seq<u8>>::empty(),
    ;

    /// Track a connection to `endpoint`. Idempotent: tracking an
    /// already-tracked endpoint neither duplicates the entry nor
    /// resets existing connection state.
    fn connect(&mut self, endpoint: &Self::EndpointImpl)
        ensures
            final(self).connections() == old(self).connections().insert(endpoint.key()),
    ;

    /// The tracked endpoints: every returned endpoint is tracked, every
    /// tracked identity appears, and no identity appears twice.
    fn list_connections(&self) -> (r: Vec<&Self::EndpointImpl>)
        ensures
            forall|i: int| 0 <= i < r@.len() ==> self.connections().contains((*r@[i]).key()),
            forall|x: Seq<u8>|
                self.connections().contains(x) ==> exists|i: int|
                    0 <= i < r@.len() && (*r@[i]).key() == x,
            forall|i: int, j: int| 0 <= i < j < r@.len() ==> (*r@[i]).key() != (*r@[j]).key(),
    ;
}

/// Connection idempotence: tracking the same identity twice leaves the
/// connection set exactly as tracking it once does, so with the
/// contract of `connect`, a repeated `connect` adds nothing.
pub proof fn lemma_connect_idempotent(s: Set<Seq<u8>>, k: Seq<u8>)
    ensures
        s.insert(k).insert(k) == s.insert(k),
{
    assert(s.insert(k).insert(k) =~= s.insert(k));
}

} // verus!
