use vstd::prelude::*;

verus! {

// Byte-level primitives of the wire format: big-endian integers and
// length-prefixed byte strings, with matching encoders and decoders.
//
// Every compound encoding of the crate is a concatenation of these
// pieces, so the round-trip proofs of the protocol reduce to the
// lemmas in this module.

/// Big-endian encoding of a `u16`, two bytes.
pub open spec fn be_u16(n: u16) -> Seq<u8> {
    seq![(n >> 8) as u8, n as u8]
}

/// Big-endian encoding of a `u64`, eight bytes.
pub open spec fn be_u64(n: u64) -> Seq<u8> {
    seq![
        (n >> 56) as u8,
        (n >> 48) as u8,
        (n >> 40) as u8,
        (n >> 32) as u8,
        (n >> 24) as u8,
        (n >> 16) as u8,
        (n >> 8) as u8,
        n as u8,
    ]
}

/// The `u16` read back from two big-endian bytes.
pub open spec fn u16_of_be(b0: u8, b1: u8) -> u16 {
    (((b0 as u16) << 8) | (b1 as u16)) as u16
}

/// The `u64` read back from eight big-endian bytes.
pub open spec fn u64_of_be(b: Seq<u8>) -> u64
    recommends
        b.len() == 8,
{
    (((b[0] as u64) << 56) | ((b[1] as u64) << 48) | ((b[2] as u64) << 40) | ((b[3] as u64) << 32)
        | ((b[4] as u64) << 24) | ((b[5] as u64) << 16) | ((b[6] as u64) << 8) | (b[7] as u64)) as u64
}

/// A byte string on the wire: an eight-byte big-endian length, then the bytes.
pub open spec fn enc_bytes(b: Seq<u8>) -> Seq<u8> {
    be_u64(b.len() as u64) + b
}

/// `s` stands byte-for-byte at position `i` of `b`.
pub open spec fn bytes_at(b: Seq<u8>, i: int, s: Seq<u8>) -> bool {
    &&& 0 <= i
    &&& i + s.len() <= b.len()
    &&& b.subrange(i, i + s.len() as int) == s
}

/// Decode a `u16` at position `i`.
pub open spec fn dec_u16_at(b: Seq<u8>, i: int) -> Option<(u16, int)> {
    if 0 <= i && i + 2 <= b.len() {
        Some((u16_of_be(b[i], b[i + 1]), i + 2))
    } else {
        None
    }
}

/// Decode a `u64` at position `i`.
pub open spec fn dec_u64_at(b: Seq<u8>, i: int) -> Option<(u64, int)> {
    if 0 <= i && i + 8 <= b.len() {
        Some((u64_of_be(b.subrange(i, i + 8)), i + 8))
    } else {
        None
    }
}

/// Decode a length-prefixed byte string at position `i`.
pub open spec fn dec_bytes_at(b: Seq<u8>, i: int) -> Option<(Seq<u8>, int)> {
    match dec_u64_at(b, i) {
        Some((n, j)) => {
            if j + n <= b.len() {
                Some((b.subrange(j, j + n), j + n))
            } else {
                None
            }
        },
        None => None,
    }
}

/// Splitting a concatenation that stands at `i`: each half stands at its place.
pub proof fn lemma_bytes_at_concat(b: Seq<u8>, i: int, s1: Seq<u8>, s2: Seq<u8>)
    requires
        bytes_at(b, i, s1 + s2),
    ensures
        bytes_at(b, i, s1),
        bytes_at(b, i + s1.len(), s2),
{
    assert(b.subrange(i, i + s1.len() as int) =~= (s1 + s2).subrange(0, s1.len() as int));
    assert((s1 + s2).subrange(0, s1.len() as int) =~= s1);
    assert(b.subrange(i + s1.len(), i + s1.len() + s2.len()) =~= (s1 + s2).subrange(
        s1.len() as int,
        (s1 + s2).len() as int,
    ));
    assert((s1 + s2).subrange(s1.len() as int, (s1 + s2).len() as int) =~= s2);
}

/// Reading back the two bytes of `be_u16` gives the number again.
pub proof fn lemma_u16_of_be(n: u16)
    ensures
        u16_of_be(be_u16(n)[0], be_u16(n)[1]) == n,
{
    assert((((((n >> 8) as u8) as u16) << 8) | ((n as u8) as u16)) as u16 == n) by (bit_vector);
}

/// Reading back the eight bytes of `be_u64` gives the number again.
pub proof fn lemma_u64_of_be(n: u64)
    ensures
        u64_of_be(be_u64(n)) == n,
{
    let b = be_u64(n);
    assert(((((n >> 56) as u8) as u64) << 56 | (((n >> 48) as u8) as u64) << 48
        | (((n >> 40) as u8) as u64) << 40 | (((n >> 32) as u8) as u64) << 32
        | (((n >> 24) as u8) as u64) << 24 | (((n >> 16) as u8) as u64) << 16
        | (((n >> 8) as u8) as u64) << 8 | ((n as u8) as u64)) as u64 == n) by (bit_vector);
}

/// A `u16` encoded at position `i` decodes there to itself.
pub proof fn lemma_dec_u16_at(b: Seq<u8>, i: int, n: u16)
    requires
        bytes_at(b, i, be_u16(n)),
    ensures
        dec_u16_at(b, i) == Some((n, i + 2)),
{
    assert(b[i] == b.subrange(i, i + 2)[0]);
    assert(b[i + 1] == b.subrange(i, i + 2)[1]);
    lemma_u16_of_be(n);
}

/// A `u64` encoded at position `i` decodes there to itself.
pub proof fn lemma_dec_u64_at(b: Seq<u8>, i: int, n: u64)
    requires
        bytes_at(b, i, be_u64(n)),
    ensures
        dec_u64_at(b, i) == Some((n, i + 8)),
{
    assert(b.subrange(i, i + 8) =~= be_u64(n));
    lemma_u64_of_be(n);
}

/// A length-prefixed byte string encoded at position `i` decodes there to itself.
pub proof fn lemma_dec_bytes_at(b: Seq<u8>, i: int, s: Seq<u8>)
    requires
        bytes_at(b, i, enc_bytes(s)),
        s.len() <= u64::MAX,
    ensures
        dec_bytes_at(b, i) == Some((s, i + 8 + s.len())),
{
    lemma_bytes_at_concat(b, i, be_u64(s.len() as u64), s);
    lemma_dec_u64_at(b, i, s.len() as u64);
    assert(b.subrange(i + 8, i + 8 + s.len()) =~= s);
}

/// Append the big-endian bytes of a `u16`.
pub fn emit_u16(out: &mut Vec<u8>, n: u16)
    ensures
        final(out)@ == old(out)@ + be_u16(n),
{
    out.push((n >> 8) as u8);
    out.push(n as u8);
    assert(out@ =~= old(out)@ + be_u16(n));
}

/// Append the big-endian bytes of a `u64`.
pub fn emit_u64(out: &mut Vec<u8>, n: u64)
    ensures
        final(out)@ == old(out)@ + be_u64(n),
{
    out.push((n >> 56) as u8);
    out.push((n >> 48) as u8);
    out.push((n >> 40) as u8);
    out.push((n >> 32) as u8);
    out.push((n >> 24) as u8);
    out.push((n >> 16) as u8);
    out.push((n >> 8) as u8);
    out.push(n as u8);
    assert(out@ =~= old(out)@ + be_u64(n));
}

/// Append a length-prefixed byte string.
pub fn emit_bytes(out: &mut Vec<u8>, b: &[u8])
    ensures
        final(out)@ == old(out)@ + enc_bytes(b@),
{
    emit_u64(out, b.len() as u64);
    let mut k: usize = 0;
    while k < b.len()
        invariant
            k <= b.len(),
            out@ == old(out)@ + be_u64(b@.len() as u64) + b@.subrange(0, k as int),
        decreases b.len() - k,
    {
        out.push(b[k]);
        assert(out@ =~= old(out)@ + be_u64(b@.len() as u64) + b@.subrange(0, k + 1));
        k = k + 1;
    }
    assert(b@.subrange(0, b@.len() as int) =~= b@);
    assert(out@ =~= old(out)@ + enc_bytes(b@));
}

/// Read a `u16` at position `i`, as `dec_u16_at` does.
pub fn read_u16(b: &[u8], i: usize) -> (r: Option<(u16, usize)>)
    ensures
        match r {
            Some((n, j)) => dec_u16_at(b@, i as int) == Some((n, j as int)),
            None => dec_u16_at(b@, i as int) is None,
        },
{
    if i < b.len() && 2 <= b.len() - i {
        let n: u16 = (((b[i] as u16) << 8) | (b[i + 1] as u16)) as u16;
        Some((n, i + 2))
    } else {
        None
    }
}

/// Read a `u64` at position `i`, as `dec_u64_at` does.
pub fn read_u64(b: &[u8], i: usize) -> (r: Option<(u64, usize)>)
    ensures
        match r {
            Some((n, j)) => dec_u64_at(b@, i as int) == Some((n, j as int)),
            None => dec_u64_at(b@, i as int) is None,
        },
{
    if i < b.len() && 8 <= b.len() - i {
        let n: u64 = (((b[i] as u64) << 56) | ((b[i + 1] as u64) << 48) | ((b[i + 2] as u64) << 40)
            | ((b[i + 3] as u64) << 32) | ((b[i + 4] as u64) << 24) | ((b[i + 5] as u64) << 16)
            | ((b[i + 6] as u64) << 8) | (b[i + 7] as u64)) as u64;
        proof {
            let s = b@.subrange(i as int, i + 8);
            assert(s[0] == b@[i as int]);
            assert(s[1] == b@[i + 1]);
            assert(s[2] == b@[i + 2]);
            assert(s[3] == b@[i + 3]);
            assert(s[4] == b@[i + 4]);
            assert(s[5] == b@[i + 5]);
            assert(s[6] == b@[i + 6]);
            assert(s[7] == b@[i + 7]);
        }
        Some((n, i + 8))
    } else {
        None
    }
}

/// Read a length-prefixed byte string at position `i`, as `dec_bytes_at` does.
pub fn read_bytes(b: &[u8], i: usize) -> (r: Option<(Vec<u8>, usize)>)
    ensures
        match r {
            Some((v, j)) => dec_bytes_at(b@, i as int) == Some((v@, j as int)),
            None => dec_bytes_at(b@, i as int) is None,
        },
{
    match read_u64(b, i) {
        Some((n, j)) => {
            if n <= (b.len() - j) as u64 {
                let end: usize = j + (n as usize);
                let mut v: Vec<u8> = Vec::new();
                let mut k: usize = j;
                while k < end
                    invariant
                        j <= k <= end <= b.len(),
                        v@ == b@.subrange(j as int, k as int),
                    decreases end - k,
                {
                    v.push(b[k]);
                    assert(v@ =~= b@.subrange(j as int, k + 1));
                    k = k + 1;
                }
                Some((v, end))
            } else {
                None
            }
        },
        None => None,
    }
}

} // verus!
