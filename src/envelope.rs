use vstd::prelude::*;

use crate::error::StoreError;

verus! {

/// The two sealing schemes that an envelope can name.
#[derive(Debug, Clone, Copy, PartialEq, Eq, Structural)]
pub enum Scheme {
    /// Passphrase-derived authenticated encryption.
    Passphrase,
    /// Encryption to a recipient key held by an external key agent.
    Recipient,
}

/// The tag byte that stands for a scheme.
pub open spec fn scheme_tag(s: Scheme) -> u8 {
    match s {
        Scheme::Passphrase => 1u8,
        Scheme::Recipient => 2u8,
    }
}

/// The four magic bytes "ENV1".
pub open spec fn magic() -> Seq<u8> {
    seq![0x45u8, 0x4eu8, 0x56u8, 0x31u8]
}

/// The complete file for a scheme and its body.
pub open spec fn frame(s: Scheme, body: Seq<u8>) -> Seq<u8> {
    magic() + seq![scheme_tag(s), 0u8, 0u8] + body
}

pub open spec fn has_magic(b: Seq<u8>) -> bool {
    b.len() >= 4 && b.subrange(0, 4) == magic()
}

/// What `identify` answers, from the first five bytes alone.
pub open spec fn identify_spec(b: Seq<u8>) -> Result<Scheme, StoreError> {
    if b.len() < 5 || !has_magic(b) {
        Err(StoreError::BadEnvelope)
    } else if b[4] == 1u8 {
        Ok(Scheme::Passphrase)
    } else if b[4] == 2u8 {
        Ok(Scheme::Recipient)
    } else {
        Err(StoreError::UnsupportedScheme)
    }
}

/// What `decode` answers: the scheme and everything after the header.
pub open spec fn decode_spec(b: Seq<u8>) -> Result<(Scheme, Seq<u8>), StoreError> {
    match identify_spec(b) {
        Err(e) => Err(e),
        Ok(s) => if b.len() < 7 || b[5] != 0u8 || b[6] != 0u8 {
            Err(StoreError::BadEnvelope)
        } else {
            Ok((s, b.subrange(7, b.len() as int)))
        },
    }
}

/// Frames a scheme body into a complete envelope.
pub fn encode(s: Scheme, body: &[u8]) -> (r: Vec<u8>)
    ensures
        r@ == frame(s, body@),
{
    let tag: u8 = match s {
        Scheme::Passphrase => 1,
        Scheme::Recipient => 2,
    };
    let mut r: Vec<u8> = vec![0x45u8, 0x4eu8, 0x56u8, 0x31u8, tag, 0u8, 0u8];
    let mut i: usize = 0;
    while i < body.len()
        invariant
            i <= body@.len(),
            r@ == magic() + seq![tag, 0u8, 0u8] + body@.subrange(0, i as int),
            tag == scheme_tag(s),
        decreases body@.len() - i,
    {
        r.push(body[i]);
        i = i + 1;
        assert(body@.subrange(0, i as int) == body@.subrange(0, i - 1) + seq![body@[i - 1]]);
    }
    assert(body@.subrange(0, body@.len() as int) == body@);
    r
}

/// Names the scheme of an envelope, reading only its first five bytes.
pub fn identify(b: &[u8]) -> (r: Result<Scheme, StoreError>)
    ensures
        r == identify_spec(b@),
{
    if b.len() < 5 {
        return Err(StoreError::BadEnvelope);
    }
    if !(b[0] == 0x45u8 && b[1] == 0x4eu8 && b[2] == 0x56u8 && b[3] == 0x31u8) {
        assert(!has_magic(b@)) by {
            if has_magic(b@) {
                assert(b@.subrange(0, 4)[0] == b@[0]);
                assert(b@.subrange(0, 4)[1] == b@[1]);
                assert(b@.subrange(0, 4)[2] == b@[2]);
                assert(b@.subrange(0, 4)[3] == b@[3]);
            }
        }
        return Err(StoreError::BadEnvelope);
    }
    assert(b@.subrange(0, 4) == magic());
    if b[4] == 1u8 {
        Ok(Scheme::Passphrase)
    } else if b[4] == 2u8 {
        Ok(Scheme::Recipient)
    } else {
        Err(StoreError::UnsupportedScheme)
    }
}

/// Splits an envelope into its scheme and its scheme body.
pub fn decode(b: &[u8]) -> (r: Result<(Scheme, Vec<u8>), StoreError>)
    ensures
        match (r, decode_spec(b@)) {
            (Ok((s, body)), Ok((t, tb))) => s == t && body@ == tb,
            (Err(e), Err(f)) => e == f,
            _ => false,
        },
{
    let s = match identify(b) {
        Err(e) => return Err(e),
        Ok(s) => s,
    };
    if b.len() < 7 || b[5] != 0u8 || b[6] != 0u8 {
        return Err(StoreError::BadEnvelope);
    }
    let mut body: Vec<u8> = Vec::new();
    let mut i: usize = 7;
    while i < b.len()
        invariant
            7 <= i <= b@.len(),
            body@ == b@.subrange(7, i as int),
        decreases b@.len() - i,
    {
        body.push(b[i]);
        i = i + 1;
        assert(b@.subrange(7, i as int) == b@.subrange(7, i - 1) + seq![b@[i - 1]]);
    }
    Ok((s, body))
}

/// Decoding an encoded envelope gives back its scheme and body, and
/// identification names the scheme it was encoded with.
pub proof fn lemma_envelope_round_trip(s: Scheme, body: Seq<u8>)
    ensures
        identify_spec(frame(s, body)) == Ok::<Scheme, StoreError>(s),
        decode_spec(frame(s, body)) == Ok::<(Scheme, Seq<u8>), StoreError>((s, body)),
{
    let f = frame(s, body);
    assert(f.subrange(0, 4) == magic());
    assert(f.subrange(7, f.len() as int) == body);
}

/// The four big-endian bytes of a length.
pub open spec fn be32_bytes(n: u32) -> Seq<u8> {
    seq![(n >> 24u32) as u8, (n >> 16u32) as u8, (n >> 8u32) as u8, n as u8]
}

/// The length that four big-endian bytes stand for.
pub open spec fn be32_value(a: u8, b: u8, c: u8, d: u8) -> u32 {
    ((a as u32) << 24u32) | ((b as u32) << 16u32) | ((c as u32) << 8u32) | (d as u32)
}

/// A block prefixed by its length in four big-endian bytes.
pub open spec fn block(b: Seq<u8>) -> Seq<u8> {
    be32_bytes(b.len() as u32) + b
}

/// Reads one length-prefixed block: the block and what follows it.
pub open spec fn read_block_spec(b: Seq<u8>) -> Option<(Seq<u8>, Seq<u8>)> {
    if b.len() < 4 {
        None
    } else {
        let n = be32_value(b[0], b[1], b[2], b[3]) as int;
        if b.len() - 4 < n {
            None
        } else {
            Some((b.subrange(4, 4 + n), b.subrange(4 + n, b.len() as int)))
        }
    }
}

proof fn lemma_be32(n: u32)
    ensures
        be32_value((n >> 24u32) as u8, (n >> 16u32) as u8, (n >> 8u32) as u8, n as u8) == n,
{
    assert(((((n >> 24u32) as u8) as u32) << 24u32) | ((((n >> 16u32) as u8) as u32) << 16u32)
        | ((((n >> 8u32) as u8) as u32) << 8u32) | ((n as u8) as u32) == n) by (bit_vector);
}

/// Four bytes are the big-endian bytes of the length they stand for.
pub proof fn lemma_be32_inverse(a: u8, b: u8, c: u8, d: u8)
    ensures
        be32_bytes(be32_value(a, b, c, d)) == seq![a, b, c, d],
{
    let n = be32_value(a, b, c, d);
    assert(((((a as u32) << 24u32) | ((b as u32) << 16u32) | ((c as u32) << 8u32) | (d as u32)) >> 24u32) as u8 == a)
        by (bit_vector);
    assert(((((a as u32) << 24u32) | ((b as u32) << 16u32) | ((c as u32) << 8u32) | (d as u32)) >> 16u32) as u8 == b)
        by (bit_vector);
    assert(((((a as u32) << 24u32) | ((b as u32) << 16u32) | ((c as u32) << 8u32) | (d as u32)) >> 8u32) as u8 == c)
        by (bit_vector);
    assert((((a as u32) << 24u32) | ((b as u32) << 16u32) | ((c as u32) << 8u32) | (d as u32)) as u8 == d)
        by (bit_vector);
    assert(be32_bytes(n) =~= seq![a, b, c, d]);
}

/// Appends `b` to `out` as a length-prefixed block.
pub fn push_block(out: &mut Vec<u8>, b: &[u8])
    requires
        b@.len() <= u32::MAX,
    ensures
        final(out)@ == old(out)@ + block(b@),
{
    let n = b.len() as u32;
    out.push((n >> 24u32) as u8);
    out.push((n >> 16u32) as u8);
    out.push((n >> 8u32) as u8);
    out.push(n as u8);
    let ghost start = out@;
    let mut i: usize = 0;
    while i < b.len()
        invariant
            i <= b@.len(),
            out@ == start + b@.subrange(0, i as int),
        decreases b@.len() - i,
    {
        out.push(b[i]);
        i = i + 1;
        assert(b@.subrange(0, i as int) == b@.subrange(0, i - 1) + seq![b@[i - 1]]);
    }
    assert(b@.subrange(0, b@.len() as int) == b@);
    assert(start == old(out)@ + be32_bytes(n));
}

/// Copies `b[from..to]` into a new vector.
fn copy_range(b: &[u8], from: usize, to: usize) -> (r: Vec<u8>)
    requires
        from <= to <= b@.len(),
    ensures
        r@ == b@.subrange(from as int, to as int),
{
    let mut r: Vec<u8> = Vec::new();
    let mut i: usize = from;
    while i < to
        invariant
            from <= i <= to <= b@.len(),
            r@ == b@.subrange(from as int, i as int),
        decreases to - i,
    {
        r.push(b[i]);
        i = i + 1;
        assert(b@.subrange(from as int, i as int) == b@.subrange(from as int, i - 1) + seq![b@[i - 1]]);
    }
    r
}

/// Reads one length-prefixed block off the front of `b`: the block and the rest.
pub fn read_block(b: &[u8]) -> (r: Option<(Vec<u8>, Vec<u8>)>)
    ensures
        match (r, read_block_spec(b@)) {
            (Some((x, y)), Some((sx, sy))) => x@ == sx && y@ == sy,
            (None, None) => true,
            _ => false,
        },
{
    if b.len() < 4 {
        return None;
    }
    let n: u32 = ((b[0] as u32) << 24u32) | ((b[1] as u32) << 16u32) | ((b[2] as u32) << 8u32) | (b[3] as u32);
    let n = n as usize;
    if b.len() - 4 < n {
        return None;
    }
    let x = copy_range(b, 4, 4 + n);
    let y = copy_range(b, 4 + n, b.len());
    Some((x, y))
}

/// Reading a block back from its framing gives the block and what followed it.
pub proof fn lemma_block_round_trip(b: Seq<u8>, rest: Seq<u8>)
    requires
        b.len() <= u32::MAX,
    ensures
        read_block_spec(block(b) + rest) == Some((b, rest)),
{
    let n = b.len() as u32;
    lemma_be32(n);
    let f = block(b) + rest;
    assert(f[0] == (n >> 24u32) as u8);
    assert(f[1] == (n >> 16u32) as u8);
    assert(f[2] == (n >> 8u32) as u8);
    assert(f[3] == n as u8);
    assert(f.subrange(4, 4 + b.len() as int) == b);
    assert(f.subrange(4 + b.len() as int, f.len() as int) == rest);
}

} // verus!
