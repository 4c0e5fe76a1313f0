//! Length-prefixed NBCH frames. A hard cap bounds what a peer can make us hold.

use vstd::prelude::*;

use crate::bytes::{append, get_u32, le_bytes, le_value, lemma_le_bytes_len,
    lemma_le_value_of_bytes, lemma_pow256_values, put_le};
use crate::p2p::error::NetworkError;

verus! {

/// `NBCH`.
pub const MAGIC: [u8; 4] = [0x4e, 0x42, 0x43, 0x48];

pub const PROTO_VERSION: u8 = 1;

/// Edge devices never accept a frame larger than this (256 KiB).
pub const MAX_FRAME: u32 = 262_144;

/// Bytes before the payload.
pub const HEADER_LEN: usize = 10;

pub const KIND_HELLO: u8 = 1;

pub const KIND_CHALLENGE: u8 = 2;

pub const KIND_AUTH: u8 = 3;

pub const KIND_ACK: u8 = 4;

pub const KIND_REJECT: u8 = 5;

pub const KIND_INV: u8 = 10;

pub const KIND_WANT: u8 = 11;

pub const KIND_PAYLOAD: u8 = 12;

pub const KIND_PING: u8 = 13;

pub const KIND_PONG: u8 = 14;

pub const KIND_FIND_NODE: u8 = 15;

pub const KIND_NEIGHBORS: u8 = 16;

/// A frame on the wire.
pub open spec fn framed(kind: u8, payload: Seq<u8>) -> Seq<u8> {
    MAGIC@ + seq![PROTO_VERSION, kind] + le_bytes(payload.len(), 4) + payload
}

/// The kind and payload length that a ten-byte header announces.
pub open spec fn header_of(h: Seq<u8>) -> Result<(u8, u32), NetworkError> {
    if h.take(4) != MAGIC@ || h[4] != PROTO_VERSION || le_value(h.subrange(6, 10)) > MAX_FRAME {
        Err(NetworkError::BadFrame)
    } else {
        Ok((h[5], le_value(h.subrange(6, 10)) as u32))
    }
}

/// The first frame of a byte stream.
pub open spec fn parsed_frame(b: Seq<u8>) -> Result<(u8, Seq<u8>), NetworkError> {
    if b.len() < HEADER_LEN {
        Err(NetworkError::Io)
    } else {
        match header_of(b.take(10)) {
            Err(e) => Err(e),
            Ok((kind, n)) => if b.len() < 10 + n {
                Err(NetworkError::Io)
            } else {
                Ok((kind, b.subrange(10, 10 + n as int)))
            },
        }
    }
}

/// Appends a frame to an output stream.
pub fn write_frame(stream: &mut Vec<u8>, kind: u8, payload: &[u8]) -> (r: Result<(), NetworkError>)
    ensures
        match r {
            Ok(()) => payload@.len() <= MAX_FRAME && final(stream)@ == old(stream)@ + framed(
                kind,
                payload@,
            ),
            Err(e) => e == NetworkError::BadFrame && payload@.len() > MAX_FRAME && final(stream)@
                == old(stream)@,
        },
{
    if payload.len() > MAX_FRAME as usize {
        return Err(NetworkError::BadFrame);
    }
    let ghost start = stream@;
    append(stream, MAGIC.as_slice());
    stream.push(PROTO_VERSION);
    stream.push(kind);
    put_le(stream, payload.len() as u64, 4);
    append(stream, payload);
    assert(stream@ =~= start + framed(kind, payload@));
    Ok(())
}

/// Reads a frame header.
pub fn read_header(hdr: &[u8]) -> (r: Result<(u8, u32), NetworkError>)
    requires
        hdr@.len() == HEADER_LEN,
    ensures
        r == header_of(hdr@),
{
    let magic_ok = hdr[0] == MAGIC[0] && hdr[1] == MAGIC[1] && hdr[2] == MAGIC[2] && hdr[3]
        == MAGIC[3];
    proof {
        if magic_ok {
            assert(hdr@.take(4) =~= MAGIC@);
        } else {
            assert(hdr@.take(4)[0] == hdr@[0] && hdr@.take(4)[1] == hdr@[1] && hdr@.take(4)[2]
                == hdr@[2] && hdr@.take(4)[3] == hdr@[3]);
        }
    }
    if !magic_ok || hdr[4] != PROTO_VERSION {
        return Err(NetworkError::BadFrame);
    }
    let len: u32 = get_u32(hdr, 6);
    if len > MAX_FRAME {
        return Err(NetworkError::BadFrame);
    }
    Ok((hdr[5], len))
}

/// Reads the frame at the start of a byte stream.
pub fn read_frame(stream: &[u8]) -> (r: Result<(u8, Vec<u8>), NetworkError>)
    ensures
        match r {
            Ok((kind, payload)) => parsed_frame(stream@) == Ok::<(u8, Seq<u8>), NetworkError>(
                (kind, payload@),
            ),
            Err(e) => parsed_frame(stream@) == Err::<(u8, Seq<u8>), NetworkError>(e),
        },
{
    if stream.len() < HEADER_LEN {
        return Err(NetworkError::Io);
    }
    let head = sub_bytes(stream, 0, HEADER_LEN);
    assert(head@ =~= stream@.take(10));
    match read_header(head.as_slice()) {
        Err(e) => Err(e),
        Ok((kind, len)) => {
            if stream.len() - HEADER_LEN < len as usize {
                return Err(NetworkError::Io);
            }
            Ok((kind, sub_bytes(stream, HEADER_LEN, len as usize)))
        },
    }
}

/// The `n` bytes of `s` from `off`.
pub fn sub_bytes(s: &[u8], off: usize, n: usize) -> (r: Vec<u8>)
    requires
        off + n <= s@.len(),
    ensures
        r@ == s@.subrange(off as int, off + n),
{
    let mut out: Vec<u8> = Vec::new();
    let mut i: usize = 0;
    while i < n
        invariant
            i <= n,
            off + n <= s.len(),
            out@ == s@.subrange(off as int, off + i),
        decreases n - i,
    {
        out.push(s[off + i]);
        i += 1;
        assert(out@ =~= s@.subrange(off as int, off + i));
    }
    out
}

/// A length-prefixed byte string.
pub open spec fn sized(data: Seq<u8>) -> Seq<u8> {
    le_bytes(data.len(), 4) + data
}

/// The length-prefixed byte string at `off`, with where it ends.
pub open spec fn sized_at(b: Seq<u8>, off: int) -> Option<(Seq<u8>, int)> {
    if b.len() < off + 4 {
        None
    } else {
        let n = le_value(b.subrange(off, off + 4)) as int;
        if b.len() < off + 4 + n {
            None
        } else {
            Some((b.subrange(off + 4, off + 4 + n), off + 4 + n))
        }
    }
}

/// Appends `data` with its length before it.
pub fn put_bytes(buf: &mut Vec<u8>, data: &[u8])
    ensures
        final(buf)@ == old(buf)@ + sized(data@),
{
    let ghost start = buf@;
    put_le(buf, data.len() as u64, 4);
    append(buf, data);
    assert(buf@ =~= start + sized(data@));
}

/// Takes a length-prefixed byte string off `data` at `off`, and moves `off`
/// behind it. Where the length is there but its bytes are not, `off` moves behind
/// the length.
pub fn take_bytes(data: &[u8], off: &mut usize) -> (r: Result<Vec<u8>, NetworkError>)
    ensures
        match r {
            Ok(v) => sized_at(data@, *old(off) as int) == Some((v@, *final(off) as int)),
            Err(e) => {
                &&& e == NetworkError::BadFrame
                &&& sized_at(data@, *old(off) as int) is None
                &&& *final(off) == (if data@.len() < *old(off) + 4 {
                    *old(off) as int
                } else {
                    *old(off) + 4
                })
            },
        },
{
    let start: usize = *off;
    if start > data.len() || data.len() - start < 4 {
        return Err(NetworkError::BadFrame);
    }
    let n: usize = get_u32(data, start) as usize;
    *off = start + 4;
    if data.len() - (start + 4) < n {
        return Err(NetworkError::BadFrame);
    }
    let v = sub_bytes(data, start + 4, n);
    *off = start + 4 + n;
    Ok(v)
}

/// Reading the frame that was written gives its kind and payload, whatever
/// follows it on the stream.
pub proof fn law_frame_round_trip(kind: u8, payload: Seq<u8>, rest: Seq<u8>)
    requires
        payload.len() <= MAX_FRAME,
    ensures
        parsed_frame(framed(kind, payload) + rest) == Ok::<(u8, Seq<u8>), NetworkError>(
            (kind, payload),
        ),
{
    lemma_le_bytes_len(payload.len(), 4);
    lemma_pow256_values();
    lemma_le_value_of_bytes(payload.len(), 4);
    let b = framed(kind, payload) + rest;
    let h = b.take(10);
    assert(h.take(4) =~= MAGIC@);
    assert(h.subrange(6, 10) =~= le_bytes(payload.len(), 4));
    assert(b.subrange(10, 10 + payload.len() as int) =~= payload);
}

/// A frame longer than the cap is refused, whatever it holds.
pub proof fn law_oversized_frame_is_refused(b: Seq<u8>)
    requires
        b.len() >= HEADER_LEN,
        le_value(b.take(10).subrange(6, 10)) > MAX_FRAME,
    ensures
        parsed_frame(b) == Err::<(u8, Seq<u8>), NetworkError>(NetworkError::BadFrame),
{
}

/// A sized byte string behind `head` reads back, whatever follows it.
pub proof fn lemma_sized_reads_back(head: Seq<u8>, data: Seq<u8>, rest: Seq<u8>)
    requires
        data.len() <= u32::MAX,
    ensures
        sized_at(head + sized(data) + rest, head.len() as int) == Some(
            (data, head.len() as int + sized(data).len()),
        ),
        sized(data).len() == 4 + data.len(),
{
    lemma_le_bytes_len(data.len(), 4);
    lemma_pow256_values();
    lemma_le_value_of_bytes(data.len(), 4);
    let b = head + sized(data) + rest;
    let off = head.len() as int;
    assert(b.subrange(off, off + 4) =~= le_bytes(data.len(), 4));
    assert(b.subrange(off + 4, off + 4 + data.len() as int) =~= data);
}

} // verus!
