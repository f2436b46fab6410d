use vstd::prelude::*;

use crate::error::Error;

verus! {

// A peer address: opaque host bytes and a port, with a lossless byte
// encoding `host ":" port` where the port is written in decimal.
// Parsing and rendering invert each other; the proofs are below.

/// The byte value of `:`, the separator of the textual form.
pub const COLON: u8 = 58;

/// The abstract value of an `Endpoint`.
pub struct EndpointV {
    pub addr: Seq<u8>,
    pub port: u16,
}

impl EndpointV {
    /// A well-formed address holds no separator byte, so that the
    /// textual form can be split back unambiguously.
    pub open spec fn wf(self) -> bool {
        forall|k: int| 0 <= k < self.addr.len() ==> self.addr[k] != COLON
    }
}

/// An address capability identifying a reachable peer location.
#[derive(Clone, Debug, PartialEq, Eq, Hash)]
pub struct Endpoint {
    pub addr: Vec<u8>,
    pub port: u16,
}

impl View for Endpoint {
    type V = EndpointV;

    open spec fn view(&self) -> EndpointV {
        EndpointV { addr: self.addr@, port: self.port }
    }
}

impl DeepView for Endpoint {
    type V = EndpointV;

    open spec fn deep_view(&self) -> EndpointV {
        self@
    }
}

// ---------- decimal digits ----------

/// `c` is an ASCII decimal digit.
pub open spec fn is_digit(c: u8) -> bool {
    48 <= c <= 57
}

/// The value of one digit byte.
pub open spec fn digit_val(c: u8) -> nat
    recommends
        is_digit(c),
{
    (c - 48) as nat
}

/// The canonical decimal digits of `n`, most significant first.
pub open spec fn dec_digits(n: nat) -> Seq<u8>
    decreases n,
{
    if n < 10 {
        seq![(48 + n) as u8]
    } else {
        dec_digits(n / 10).push((48 + n % 10) as u8)
    }
}

/// The number written by a digit string (most significant first).
pub open spec fn digits_val(ds: Seq<u8>) -> nat
    decreases ds.len(),
{
    if ds.len() == 0 {
        0
    } else {
        digits_val(ds.drop_last()) * 10 + digit_val(ds.last())
    }
}

/// Every byte of `ds` is a digit.
pub open spec fn all_digits(ds: Seq<u8>) -> bool {
    forall|k: int| 0 <= k < ds.len() ==> is_digit(ds[k])
}

/// A digit string that `dec_digits` itself would produce: nonempty,
/// and without a leading zero unless it is exactly "0".
pub open spec fn canonical_digits(ds: Seq<u8>) -> bool {
    &&& ds.len() > 0
    &&& all_digits(ds)
    &&& (ds.len() == 1 || ds[0] != 48)
}

pub proof fn lemma_dec_digits_shape(n: nat)
    ensures
        dec_digits(n).len() > 0,
        all_digits(dec_digits(n)),
        n >= 1 ==> dec_digits(n)[0] != 48,
        canonical_digits(dec_digits(n)),
    decreases n,
{
    if n < 10 {
    } else {
        lemma_dec_digits_shape(n / 10);
        let pre = dec_digits(n / 10);
        let ds = pre.push((48 + n % 10) as u8);
        assert forall|k: int| 0 <= k < ds.len() implies is_digit(ds[k]) by {
            if k < pre.len() {
                assert(is_digit(pre[k]));
            }
        }
        assert(ds[0] == pre[0]);
    }
}

/// Reading the canonical digits of `n` gives `n` back.
pub proof fn lemma_digits_val_dec_digits(n: nat)
    ensures
        digits_val(dec_digits(n)) == n,
    decreases n,
{
    if n < 10 {
        let d = (48 + n) as u8;
        assert(dec_digits(n) == seq![d]);
        assert(seq![d].drop_last() =~= Seq::<u8>::empty());
        assert(digits_val(Seq::<u8>::empty()) == 0);
        assert(seq![d].last() == d);
        assert(digit_val(d) == n);
    } else {
        lemma_digits_val_dec_digits(n / 10);
        let pre = dec_digits(n / 10);
        let d = (48 + n % 10) as u8;
        assert(dec_digits(n) == pre.push(d));
        assert(pre.push(d).drop_last() =~= pre);
        assert(pre.push(d).last() == d);
        assert(digit_val(d) == n % 10);
        assert(n / 10 * 10 + n % 10 == n) by {
            vstd::arithmetic::div_mod::lemma_fundamental_div_mod(n as int, 10);
        }
        assert(digits_val(pre.push(d)) == digits_val(pre) * 10 + digit_val(d));
    }
}

/// A digit string with a nonzero first digit writes a positive number.
pub proof fn lemma_digits_val_pos(ds: Seq<u8>)
    requires
        all_digits(ds),
        ds.len() >= 1,
        ds[0] != 48,
    ensures
        digits_val(ds) >= 1,
    decreases ds.len(),
{
    if ds.len() == 1 {
        assert(is_digit(ds[0]));
    } else {
        assert(all_digits(ds.drop_last())) by {
            assert(forall|k: int| 0 <= k < ds.drop_last().len() ==> ds.drop_last()[k] == ds[k]);
        }
        lemma_digits_val_pos(ds.drop_last());
    }
}

/// Writing the number a canonical digit string reads gives the string back.
pub proof fn lemma_dec_digits_digits_val(ds: Seq<u8>)
    requires
        canonical_digits(ds),
    ensures
        dec_digits(digits_val(ds)) == ds,
    decreases ds.len(),
{
    if ds.len() == 1 {
        assert(is_digit(ds[0]));
        assert(ds.drop_last() =~= Seq::<u8>::empty());
        assert(digits_val(Seq::<u8>::empty()) == 0);
        assert(ds.last() == ds[0]);
        assert(digits_val(ds) == digit_val(ds[0]));
        assert(dec_digits(digit_val(ds[0])) =~= ds);
    } else {
        let pre = ds.drop_last();
        let d = ds.last();
        assert(all_digits(pre)) by {
            assert(forall|k: int| 0 <= k < pre.len() ==> pre[k] == ds[k]);
        }
        assert(pre[0] == ds[0]);
        assert(canonical_digits(pre));
        lemma_dec_digits_digits_val(pre);
        lemma_digits_val_pos(pre);
        let v = digits_val(pre);
        let dv = digit_val(d);
        assert(digits_val(ds) == v * 10 + dv);
        assert(v * 10 + dv >= 10) by (nonlinear_arith)
            requires
                v >= 1,
                dv >= 0,
        ;
        assert((v * 10 + dv) / 10 == v && (v * 10 + dv) % 10 == dv) by (nonlinear_arith)
            requires
                0 <= dv < 10,
                v >= 0,
        ;
        assert(is_digit(d));
        assert((48 + dv) as u8 == d);
        assert(dec_digits(digits_val(ds)) =~= ds);
    }
}

/// A longer digit string never writes a smaller number.
pub proof fn lemma_digits_val_take_le(ds: Seq<u8>, m: int)
    requires
        0 <= m <= ds.len(),
    ensures
        digits_val(ds.take(m)) <= digits_val(ds),
    decreases ds.len() - m,
{
    if m == ds.len() {
        assert(ds.take(m) =~= ds);
    } else {
        lemma_digits_val_take_le(ds.drop_last(), m);
        assert(ds.drop_last().take(m) =~= ds.take(m));
        assert(digits_val(ds.drop_last()) * 10 >= digits_val(ds.drop_last()));
    }
}

// ---------- parsing and rendering, as specifications ----------

/// `b` holds exactly one separator byte.
pub open spec fn has_one_colon(b: Seq<u8>) -> bool {
    exists|i: int|
        0 <= i < b.len() && b[i] == COLON && (forall|j: int|
            0 <= j < b.len() && b[j] == COLON ==> j == i)
}

/// The position of the unique separator byte of `b`.
pub open spec fn colon_index(b: Seq<u8>) -> int
    recommends
        has_one_colon(b),
{
    choose|i: int|
        0 <= i < b.len() && b[i] == COLON && (forall|j: int|
            0 <= j < b.len() && b[j] == COLON ==> j == i)
}

/// The textual form of an endpoint: host bytes, `:`, decimal port.
pub open spec fn render_ep(e: EndpointV) -> Seq<u8> {
    e.addr + seq![COLON] + dec_digits(e.port as nat)
}

/// What endpoint, if any, a byte string denotes: exactly one separator,
/// and after it a nonempty digit string whose value fits a port.
pub open spec fn parse_ep(b: Seq<u8>) -> Option<EndpointV> {
    if has_one_colon(b) {
        let i = colon_index(b);
        let ds = b.subrange(i + 1, b.len() as int);
        if ds.len() > 0 && all_digits(ds) && digits_val(ds) <= u16::MAX {
            Some(EndpointV { addr: b.subrange(0, i), port: digits_val(ds) as u16 })
        } else {
            None
        }
    } else {
        None
    }
}

/// The byte strings on which parsing and rendering invert bit for bit:
/// the port digits are canonical.
pub open spec fn canonical_ep_bytes(b: Seq<u8>) -> bool {
    &&& has_one_colon(b)
    &&& canonical_digits(b.subrange(colon_index(b) + 1, b.len() as int))
    &&& digits_val(b.subrange(colon_index(b) + 1, b.len() as int)) <= u16::MAX
}

/// Round trip, value side: every well-formed endpoint survives
/// rendering and parsing unchanged.
pub proof fn lemma_parse_render(e: EndpointV)
    requires
        e.wf(),
    ensures
        parse_ep(render_ep(e)) == Some(e),
{
    let b = render_ep(e);
    let al = e.addr.len() as int;
    lemma_dec_digits_shape(e.port as nat);
    let ds = dec_digits(e.port as nat);
    assert(b[al] == COLON);
    assert forall|j: int| 0 <= j < b.len() && b[j] == COLON implies j == al by {
        if j < al {
            assert(b[j] == e.addr[j]);
        } else if j > al {
            assert(b[j] == ds[j - al - 1]);
            assert(is_digit(ds[j - al - 1]));
        }
    }
    assert(has_one_colon(b));
    let i = colon_index(b);
    assert(b[i] == COLON && forall|j: int| 0 <= j < b.len() && b[j] == COLON ==> j == i);
    assert(i == al);
    assert(b.subrange(i + 1, b.len() as int) =~= ds);
    assert(b.subrange(0, i) =~= e.addr);
    lemma_digits_val_dec_digits(e.port as nat);
    assert(parse_ep(b) == Some(e));
}

/// Round trip, byte side: every canonical byte form survives parsing
/// and rendering unchanged.
pub proof fn lemma_render_parse(b: Seq<u8>)
    requires
        canonical_ep_bytes(b),
    ensures
        parse_ep(b) is Some,
        render_ep(parse_ep(b).unwrap()) == b,
        parse_ep(b).unwrap().wf(),
{
    let i = colon_index(b);
    assert(0 <= i < b.len() && b[i] == COLON && (forall|j: int|
        0 <= j < b.len() && b[j] == COLON ==> j == i));
    let ds = b.subrange(i + 1, b.len() as int);
    let e = parse_ep(b).unwrap();
    lemma_dec_digits_digits_val(ds);
    assert(e.port as nat == digits_val(ds));
    assert(dec_digits(e.port as nat) == ds);
    assert forall|k: int| 0 <= k < e.addr.len() implies e.addr[k] != COLON by {
        assert(e.addr[k] == b[k]);
    }
    assert(render_ep(e) =~= b);
}

// ---------- executable form ----------

impl Endpoint {
    /// Build an endpoint from host bytes and a port. Fails exactly when
    /// the host bytes hold the separator byte, which the textual form
    /// could not carry.
    pub fn new(addr: Vec<u8>, port: u16) -> (r: Result<Endpoint, Error>)
        ensures
            match r {
                Ok(e) => e@ == (EndpointV { addr: addr@, port }) && e@.wf(),
                Err(err) => err == Error::InvalidEndpoint && !(EndpointV {
                    addr: addr@,
                    port,
                }).wf(),
            },
    {
        let mut k: usize = 0;
        while k < addr.len()
            invariant
                k <= addr.len(),
                forall|j: int| 0 <= j < k ==> addr@[j] != COLON,
            decreases addr.len() - k,
        {
            if addr[k] == COLON {
                proof {
                    let ev = EndpointV { addr: addr@, port };
                    assert(ev.addr[k as int] == COLON);
                    assert(!ev.wf());
                }
                return Err(Error::InvalidEndpoint);
            }
            k = k + 1;
        }
        Ok(Endpoint { addr, port })
    }

    /// Read an endpoint back from its textual form. Returns the address
    /// `parse_ep` gives, and an error exactly when `parse_ep` gives none.
    pub fn parse(raw: &[u8]) -> (r: Result<Endpoint, Error>)
        ensures
            match r {
                Ok(e) => parse_ep(raw@) == Some(e@) && e@.wf(),
                Err(err) => err == Error::InvalidEndpoint && parse_ep(raw@) is None,
            },
    {
        let mut ci: usize = 0;
        let mut count: usize = 0;
        let mut k: usize = 0;
        while k < raw.len()
            invariant
                k <= raw.len(),
                count <= k,
                count == 0 ==> forall|j: int| 0 <= j < k ==> raw@[j] != COLON,
                count == 1 ==> ci < k && raw@[ci as int] == COLON && (forall|j: int|
                    0 <= j < k && raw@[j] == COLON ==> j == ci),
                count >= 2 ==> exists|i1: int, i2: int|
                    0 <= i1 < i2 < k && raw@[i1] == COLON && raw@[i2] == COLON,
            decreases raw.len() - k,
        {
            if raw[k] == COLON {
                if count == 0 {
                    ci = k;
                } else if count == 1 {
                    assert(raw@[ci as int] == COLON && raw@[k as int] == COLON && ci < k);
                }
                count = count + 1;
            }
            k = k + 1;
        }
        if count == 0 {
            assert(!has_one_colon(raw@));
            return Err(Error::InvalidEndpoint);
        }
        if count >= 2 {
            assert(!has_one_colon(raw@)) by {
                let (i1, i2) = choose|i1: int, i2: int|
                    0 <= i1 < i2 < raw@.len() && raw@[i1] == COLON && raw@[i2] == COLON;
                if has_one_colon(raw@) {
                    let i = colon_index(raw@);
                    assert(raw@[i] == COLON && forall|j: int|
                        0 <= j < raw@.len() && raw@[j] == COLON ==> j == i);
                    assert(i1 == i && i2 == i);
                }
            }
            return Err(Error::InvalidEndpoint);
        }
        proof {
            assert(has_one_colon(raw@));
            let i = colon_index(raw@);
            assert(raw@[i] == COLON && forall|j: int|
                0 <= j < raw@.len() && raw@[j] == COLON ==> j == i);
            assert(i == ci as int);
        }
        let ghost ds = raw@.subrange(ci + 1, raw@.len() as int);
        if ci + 1 == raw.len() {
            assert(ds.len() == 0);
            return Err(Error::InvalidEndpoint);
        }
        let mut acc: u32 = 0;
        let mut m: usize = ci + 1;
        while m < raw.len()
            invariant
                ci + 1 <= m <= raw.len(),
                raw.len() <= usize::MAX,
                acc <= u16::MAX,
                has_one_colon(raw@),
                colon_index(raw@) == ci as int,
                ds == raw@.subrange(ci + 1, raw@.len() as int),
                acc as nat == digits_val(ds.take(m - ci - 1)),
                all_digits(ds.take(m - ci - 1)),
            decreases raw.len() - m,
        {
            let c = raw[m];
            if c < 48 || c > 57 {
                assert(ds[m - ci - 1] == raw@[m as int]);
                assert(!all_digits(ds));
                return Err(Error::InvalidEndpoint);
            }
            let dv: u32 = (c - 48) as u32;
            let next: u32 = acc * 10 + dv;
            proof {
                let pre = ds.take(m - ci - 1);
                let cur = ds.take(m - ci);
                assert(cur.drop_last() =~= pre);
                assert(cur.last() == ds[m - ci - 1]);
                assert(ds[m - ci - 1] == raw@[m as int]);
                assert(digits_val(cur) == digits_val(pre) * 10 + digit_val(c));
            }
            if next > 65535 {
                proof {
                    lemma_digits_val_take_le(ds, m - ci);
                    assert(digits_val(ds) >= digits_val(ds.take(m - ci)));
                    assert(digits_val(ds) > u16::MAX);
                }
                return Err(Error::InvalidEndpoint);
            }
            acc = next;
            m = m + 1;
        }
        proof {
            assert(ds.take(raw@.len() - ci - 1) =~= ds);
        }
        let port: u16 = acc as u16;
        let mut addr: Vec<u8> = Vec::new();
        let mut k2: usize = 0;
        while k2 < ci
            invariant
                k2 <= ci,
                ci < raw.len(),
                addr@ == raw@.subrange(0, k2 as int),
            decreases ci - k2,
        {
            addr.push(raw[k2]);
            assert(addr@ =~= raw@.subrange(0, k2 + 1));
            k2 = k2 + 1;
        }
        proof {
            assert(addr@ =~= raw@.subrange(0, ci as int));
            assert(parse_ep(raw@) == Some(EndpointV { addr: addr@, port }));
            assert forall|j: int| 0 <= j < addr@.len() implies addr@[j] != COLON by {
                assert(addr@[j] == raw@[j]);
                assert(has_one_colon(raw@) && colon_index(raw@) == ci as int);
            }
        }
        Ok(Endpoint { addr, port })
    }

    /// Write the textual form of this endpoint. Never fails for a
    /// well-formed endpoint, and always parses back to it.
    pub fn render(&self) -> (r: Vec<u8>)
        requires
            self@.wf(),
        ensures
            r@ == render_ep(self@),
            parse_ep(r@) == Some(self@),
    {
        let mut out: Vec<u8> = Vec::new();
        let mut k: usize = 0;
        while k < self.addr.len()
            invariant
                k <= self.addr.len(),
                out@ == self.addr@.subrange(0, k as int),
            decreases self.addr.len() - k,
        {
            out.push(self.addr[k]);
            assert(out@ =~= self.addr@.subrange(0, k + 1));
            k = k + 1;
        }
        assert(out@ =~= self.addr@);
        out.push(COLON);
        push_digits(&mut out, self.port);
        proof {
            assert(out@ =~= render_ep(self@));
            lemma_parse_render(self@);
        }
        out
    }
}

/// Append the canonical decimal digits of `n`.
fn push_digits(out: &mut Vec<u8>, n: u16)
    ensures
        final(out)@ == old(out)@ + dec_digits(n as nat),
    decreases n,
{
    if n < 10 {
        out.push((48 + n) as u8);
        assert(out@ =~= old(out)@ + dec_digits(n as nat));
    } else {
        push_digits(out, n / 10);
        out.push((48 + n % 10) as u8);
        assert(out@ =~= old(out)@ + dec_digits(n as nat));
    }
}

} // verus!
