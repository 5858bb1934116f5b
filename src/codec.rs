//! Encoding of the stored field types to byte blobs and back.
use vstd::bytes::*;
use vstd::prelude::*;

verus! {

/// The stored bytes do not decode to the expected type.
#[derive(Debug, Clone, PartialEq, Eq)]
pub struct CodingError {
    pub expected_len: usize,
    pub found_len: usize,
}

/// A wall-clock timestamp: whole seconds since the Unix epoch and the
/// nanoseconds within that second.
#[derive(Debug, Clone, Copy, PartialEq, Eq, Structural)]
pub struct DateTimeUtc {
    pub secs: u64,
    pub nanos: u32,
}

pub open spec fn spec_encode_u64(v: u64) -> Seq<u8> {
    spec_u64_to_le_bytes(v)
}

/// A blob is stored as its length (eight bytes, little endian) followed by its bytes.
pub open spec fn spec_encode_blob(b: Seq<u8>) -> Seq<u8> {
    spec_u64_to_le_bytes(b.len() as u64) + b
}

pub open spec fn spec_encode_time(t: DateTimeUtc) -> Seq<u8> {
    spec_u64_to_le_bytes(t.secs) + spec_u32_to_le_bytes(t.nanos)
}

/// Which byte sequences decode as a blob.
pub open spec fn is_blob_encoding(s: Seq<u8>) -> bool {
    s.len() >= 8 && spec_u64_from_le_bytes(s.subrange(0, 8)) as int == s.len() - 8
}

pub fn encode_u64(v: u64) -> (r: Vec<u8>)
    ensures
        r@ == spec_encode_u64(v),
{
    u64_to_le_bytes(v)
}

pub fn decode_u64(s: &[u8]) -> (r: Result<u64, CodingError>)
    ensures
        s@.len() == 8 <==> r is Ok,
        r matches Ok(v) ==> spec_encode_u64(v) == s@,
{
    if s.len() == 8 {
        proof {
            lemma_auto_spec_u64_to_from_le_bytes();
        }
        Ok(u64_from_le_bytes(s))
    } else {
        Err(CodingError { expected_len: 8, found_len: s.len() })
    }
}

pub fn encode_blob(b: &[u8]) -> (r: Vec<u8>)
    requires
        b@.len() <= u64::MAX,
    ensures
        r@ == spec_encode_blob(b@),
{
    let mut r = u64_to_le_bytes(b.len() as u64);
    let mut i: usize = 0;
    while i < b.len()
        invariant
            i <= b@.len(),
            r@ == spec_u64_to_le_bytes(b@.len() as u64) + b@.subrange(0, i as int),
        decreases b@.len() - i,
    {
        r.push(b[i]);
        assert(b@.subrange(0, i as int + 1) == b@.subrange(0, i as int).push(b@[i as int]));
        i = i + 1;
    }
    assert(b@.subrange(0, b@.len() as int) == b@);
    r
}

pub fn decode_blob(s: &[u8]) -> (r: Result<Vec<u8>, CodingError>)
    ensures
        is_blob_encoding(s@) <==> r is Ok,
        r matches Ok(v) ==> spec_encode_blob(v@) == s@ && v@.len() <= u64::MAX,
{
    if s.len() < 8 {
        return Err(CodingError { expected_len: 8, found_len: s.len() });
    }
    let mut head: Vec<u8> = Vec::new();
    let mut i: usize = 0;
    while i < 8
        invariant
            i <= 8 <= s@.len(),
            head@ == s@.subrange(0, i as int),
        decreases 8 - i,
    {
        head.push(s[i]);
        assert(s@.subrange(0, i as int + 1) == s@.subrange(0, i as int).push(s@[i as int]));
        i = i + 1;
    }
    let n = u64_from_le_bytes(head.as_slice());
    if n as usize as u64 != n || n as usize != s.len() - 8 {
        return Err(CodingError { expected_len: 8, found_len: s.len() });
    }
    let mut out: Vec<u8> = Vec::new();
    while i < s.len()
        invariant
            8 <= i <= s@.len(),
            out@ == s@.subrange(8, i as int),
        decreases s@.len() - i,
    {
        out.push(s[i]);
        assert(s@.subrange(8, i as int + 1) == s@.subrange(8, i as int).push(s@[i as int]));
        i = i + 1;
    }
    proof {
        lemma_auto_spec_u64_to_from_le_bytes();
        assert(s@.subrange(0, 8) + s@.subrange(8, s@.len() as int) == s@);
    }
    Ok(out)
}

pub fn encode_time(t: DateTimeUtc) -> (r: Vec<u8>)
    ensures
        r@ == spec_encode_time(t),
{
    let mut r = u64_to_le_bytes(t.secs);
    let tail = u32_to_le_bytes(t.nanos);
    let mut i: usize = 0;
    while i < tail.len()
        invariant
            i <= tail@.len(),
            tail@ == spec_u32_to_le_bytes(t.nanos),
            r@ == spec_u64_to_le_bytes(t.secs) + tail@.subrange(0, i as int),
        decreases tail@.len() - i,
    {
        r.push(tail[i]);
        assert(tail@.subrange(0, i as int + 1) == tail@.subrange(0, i as int).push(tail@[i as int]));
        i = i + 1;
    }
    assert(tail@.subrange(0, tail@.len() as int) == tail@);
    r
}

pub fn decode_time(s: &[u8]) -> (r: Result<DateTimeUtc, CodingError>)
    ensures
        s@.len() == 12 <==> r is Ok,
        r matches Ok(v) ==> spec_encode_time(v) == s@,
{
    if s.len() != 12 {
        return Err(CodingError { expected_len: 12, found_len: s.len() });
    }
    let mut a: Vec<u8> = Vec::new();
    let mut b: Vec<u8> = Vec::new();
    let mut i: usize = 0;
    while i < 12
        invariant
            i <= 12 == s@.len(),
            i <= 8 ==> a@ == s@.subrange(0, i as int) && b@.len() == 0,
            i > 8 ==> a@ == s@.subrange(0, 8) && b@ == s@.subrange(8, i as int),
        decreases 12 - i,
    {
        if i < 8 {
            a.push(s[i]);
            assert(s@.subrange(0, i as int + 1) == s@.subrange(0, i as int).push(s@[i as int]));
        } else {
            b.push(s[i]);
            assert(s@.subrange(8, i as int + 1) == s@.subrange(8, i as int).push(s@[i as int]));
        }
        i = i + 1;
    }
    proof {
        lemma_auto_spec_u64_to_from_le_bytes();
        lemma_auto_spec_u32_to_from_le_bytes();
        assert(s@.subrange(0, 8) + s@.subrange(8, 12) == s@);
    }
    Ok(DateTimeUtc { secs: u64_from_le_bytes(a.as_slice()), nanos: u32_from_le_bytes(b.as_slice()) })
}

/// Decoding the encoding of a `u64` (a height, an epoch) gives it back: the
/// encoding has the length that decoding accepts, and no other value has it.
pub proof fn lemma_u64_round_trip(v: u64, w: u64)
    ensures
        spec_encode_u64(v).len() == 8,
        spec_encode_u64(w) == spec_encode_u64(v) ==> w == v,
{
    lemma_auto_spec_u64_to_from_le_bytes();
}

/// Decoding the encoding of a blob gives it back: the encoding is one that
/// decoding accepts, and no other blob has it.
pub proof fn lemma_blob_round_trip(b: Seq<u8>, c: Seq<u8>)
    requires
        b.len() <= u64::MAX,
    ensures
        is_blob_encoding(spec_encode_blob(b)),
        spec_encode_blob(c) == spec_encode_blob(b) ==> c == b,
{
    lemma_auto_spec_u64_to_from_le_bytes();
    let e = spec_encode_blob(b);
    assert(e.subrange(0, 8) == spec_u64_to_le_bytes(b.len() as u64));
    if spec_encode_blob(c) == e {
        assert(spec_encode_blob(c).subrange(8, e.len() as int) == c);
        assert(e.subrange(8, e.len() as int) == b);
    }
}

/// Decoding the encoding of a timestamp gives it back: the encoding has the
/// length that decoding accepts, and no other timestamp has it.
pub proof fn lemma_time_round_trip(t: DateTimeUtc, u: DateTimeUtc)
    ensures
        spec_encode_time(t).len() == 12,
        spec_encode_time(u) == spec_encode_time(t) ==> u == t,
{
    lemma_auto_spec_u64_to_from_le_bytes();
    lemma_auto_spec_u32_to_from_le_bytes();
    let e = spec_encode_time(t);
    if spec_encode_time(u) == e {
        assert(e.subrange(0, 8) == spec_u64_to_le_bytes(t.secs));
        assert(spec_encode_time(u).subrange(0, 8) == spec_u64_to_le_bytes(u.secs));
        assert(e.subrange(8, 12) == spec_u32_to_le_bytes(t.nanos));
        assert(spec_encode_time(u).subrange(8, 12) == spec_u32_to_le_bytes(u.nanos));
    }
}

} // verus!
