use vstd::prelude::*;

use crate::endpoint::render_ep;
use crate::error::Error;
use crate::transport::{Endpoint, PollEvent, PollEventState, Transport, TransportEvent};
use vstd::string::StringExecFns;

verus! {

// In-memory implementations of the transport capability contracts:
// an endpoint in `host:port` text form and a transport whose
// connection table is a duplicate-free list. They discharge the trait
// contracts and stand in for a real network in tests; they are not a
// production transport.

/// An endpoint for tests: a parsed address and its rendered text form.
pub struct TestEndpoint {
    addr: crate::endpoint::Endpoint,
    disp: Vec<u8>,
}

impl TestEndpoint {
    /// The display form matches the address it was rendered from.
    pub closed spec fn wf(&self) -> bool {
        &&& self.addr@.wf()
        &&& self.disp@ == render_ep(self.addr@)
    }

    /// Build from host text and a port; the display form is
    /// `host:port`. Fails exactly when the host text itself holds the
    /// separator byte.
    pub fn priv_new(addr: String, port: u16) -> (r: Result<TestEndpoint, Error>)
        ensures
            r matches Ok(t) ==> t.wf(),
    {
        let bytes = vstd::slice::slice_to_vec(addr.as_str().as_bytes());
        let ep = match crate::endpoint::Endpoint::new(bytes, port) {
            Ok(ep) => ep,
            Err(e) => {
                return Err(e);
            },
        };
        let disp = ep.render();
        Ok(TestEndpoint { addr: ep, disp })
    }

    /// The display text of this endpoint.
    pub fn display_bytes(&self) -> (r: &Vec<u8>)
        ensures
            r@ == self.key(),
    {
        &self.disp
    }
}

impl Endpoint for TestEndpoint {
    closed spec fn key(&self) -> Seq<u8> {
        self.disp@
    }

    fn new(raw: &[u8]) -> (r: Result<Self, Error>) {
        let ep = match crate::endpoint::Endpoint::parse(raw) {
            Ok(ep) => ep,
            Err(e) => {
                return Err(e);
            },
        };
        let disp = ep.render();
        Ok(TestEndpoint { addr: ep, disp })
    }

    fn get(&self) -> (r: Result<&[u8], Error>) {
        Ok(self.disp.as_slice())
    }
}

/// Two byte strings hold the same bytes.
fn bytes_eq(a: &[u8], b: &[u8]) -> (r: bool)
    ensures
        r == (a@ == b@),
{
    if a.len() != b.len() {
        assert(a@ != b@);
        return false;
    }
    let mut k: usize = 0;
    while k < a.len()
        invariant
            k <= a.len(),
            a@.len() == b@.len(),
            forall|j: int| 0 <= j < k ==> a@[j] == b@[j],
        decreases a.len() - k,
    {
        if a[k] != b[k] {
            return false;
        }
        k = k + 1;
    }
    assert(a@ =~= b@);
    true
}

/// An owned copy of an endpoint with the same identity.
fn copy_endpoint(e: &TestEndpoint) -> (r: TestEndpoint)
    ensures
        r.key() == e.key(),
        r.wf() == e.wf(),
{
    TestEndpoint {
        addr: crate::endpoint::Endpoint {
            addr: vstd::slice::slice_to_vec(e.addr.addr.as_slice()),
            port: e.addr.port,
        },
        disp: vstd::slice::slice_to_vec(e.disp.as_slice()),
    }
}

/// A transport for tests: the connection table is a list of endpoints
/// without duplicate identities, and each poll reports one general
/// error event.
pub struct TestTransport {
    endpoints: Vec<TestEndpoint>,
}

impl TestTransport {
    #[verifier::type_invariant]
    spec fn inv(self) -> bool {
        forall|i: int, j: int|
            0 <= i < j < self.endpoints@.len() ==> self.endpoints@[i].key()
                != self.endpoints@[j].key()
    }
}

impl PollEvent for TestTransport {
    type PollEventType = TransportEvent<String>;

    fn process_once(&mut self, event_state: &mut PollEventState) -> (r: Vec<Self::PollEventType>) {
        event_state.did_something = true;
        let mut events: Vec<TransportEvent<String>> = Vec::new();
        events.push(TransportEvent::OnError(Error::Other(String::from_str("hello"))));
        events
    }
}

impl Transport<String> for TestTransport {
    type EndpointImpl = TestEndpoint;

    closed spec fn connections(&self) -> Set<Seq<u8>> {
        Set::new(
            |x: Seq<u8>|
                exists|i: int| 0 <= i < self.endpoints@.len() && self.endpoints@[i].key() == x,
        )
    }

    fn new(_config: &str) -> (r: Result<Self, Error>) {
        let t = TestTransport { endpoints: Vec::new() };
        proof {
            assert(t.connections() =~= Set::<Seq<u8>>::empty());
        }
        Ok(t)
    }

    fn connect(&mut self, endpoint: &Self::EndpointImpl) {
        proof {
            use_type_invariant(&*self);
        }
        let ghost pre = *self;
        let mut found = false;
        let mut k: usize = 0;
        while k < self.endpoints.len()
            invariant
                k <= self.endpoints@.len(),
                found <==> exists|i: int|
                    0 <= i < k && self.endpoints@[i].key() == endpoint.key(),
            decreases self.endpoints@.len() - k,
        {
            if bytes_eq(self.endpoints[k].disp.as_slice(), endpoint.disp.as_slice()) {
                found = true;
                assert(self.endpoints@[k as int].key() == endpoint.key());
            }
            k = k + 1;
        }
        if found {
            proof {
                assert(self.connections() =~= pre.connections().insert(endpoint.key()));
            }
        } else {
            let copy = copy_endpoint(endpoint);
            let mut eps: Vec<TestEndpoint> = Vec::new();
            core::mem::swap(&mut eps, &mut self.endpoints);
            eps.push(copy);
            proof {
                assert(forall|i: int, j: int|
                    0 <= i < j < eps@.len() ==> eps@[i].key() != eps@[j].key());
            }
            core::mem::swap(&mut eps, &mut self.endpoints);
            proof {
                assert(self.connections() =~= pre.connections().insert(endpoint.key())) by {
                    assert(forall|i: int|
                        0 <= i < pre.endpoints@.len() ==> self.endpoints@[i]
                            == pre.endpoints@[i]);
                    assert(self.endpoints@[pre.endpoints@.len() as int].key() == endpoint.key());
                }
            }
        }
    }

    fn list_connections(&self) -> (r: Vec<&Self::EndpointImpl>) {
        proof {
            use_type_invariant(self);
        }
        let mut r: Vec<&TestEndpoint> = Vec::new();
        let mut k: usize = 0;
        while k < self.endpoints.len()
            invariant
                k <= self.endpoints@.len(),
                r@.len() == k,
                forall|i: int| 0 <= i < k ==> (*r@[i]).key() == self.endpoints@[i].key(),
            decreases self.endpoints@.len() - k,
        {
            let e: &TestEndpoint = &self.endpoints[k];
            r.push(e);
            k = k + 1;
        }
        proof {
            assert forall|x: Seq<u8>| self.connections().contains(x) implies exists|i: int|
                0 <= i < r@.len() && (*r@[i]).key() == x by {
                let i = choose|i: int|
                    0 <= i < self.endpoints@.len() && self.endpoints@[i].key() == x;
                assert((*r@[i]).key() == x);
            }
        }
        r
    }
}

} // verus!
