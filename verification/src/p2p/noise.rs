//! Noise XX around the gossip frames, so that gossip is never plaintext. The shared
//! prologue is `kron-p2p-noise-xx-v1`; the ML-DSA identity is bound afterwards by
//! signing the handshake hash. The stream is the caller's part.

use vstd::prelude::*;
use vstd::utf8::encode_utf8;

use crate::bytes::{
    append, get_u32, le_bytes, le_value, lemma_le_bytes_len, lemma_le_value_of_bytes,
    lemma_pow256_values, put_le,
};
use crate::p2p::error::NetworkError;
use crate::p2p::frame::{
    framed, header_of, read_header, sized, sub_bytes, write_frame, HEADER_LEN, MAGIC, MAX_FRAME,
};
use crate::p2p::tunnel::{
    message_len, noise_box, Handshake, HandshakeView, Protocol, Transport, TransportView,
    HANDSHAKE_ROOM, PATTERN, TAG_LEN,
};

verus! {

/// What both sides mix into the handshake.
pub const PROLOGUE: &'static str = "kron-p2p-noise-xx-v1";

/// Most plaintext bytes of one Noise message. With the tag it stays under 65535 bytes.
pub const NOISE_PLAIN_CHUNK: usize = 65_000;

/// Most bytes of a message on the stream.
pub const MAX_RAW: usize = 70_000;

/// Most chunks of a frame.
pub const MAX_CHUNKS: usize = 16;

/// What a handshake waits for.
#[derive(Clone, Copy, Debug, PartialEq, Eq, Structural)]
pub enum NoiseStage {
    /// The initiator has nothing sent yet.
    Opening,
    /// The initiator waits for the responder's keys.
    Reply,
    /// The responder waits for the first message.
    First,
    /// The responder waits for the initiator's static key.
    Last,
    Done,
}

/// One side of a Noise XX handshake.
pub struct NoiseHandshake {
    inner: Handshake,
    stage: NoiseStage,
}

/// The error of a handshake step.
pub open spec fn refused(why: &'static str) -> NetworkError {
    NetworkError::Handshake(why)
}

/// Where a handshake stands after the messages that have passed.
pub open spec fn stands_at(h: HandshakeView, stage: NoiseStage) -> bool {
    &&& h.pattern == PATTERN@
    &&& match stage {
        NoiseStage::Opening => h.leads && h.said.len() == 0 && h.heard.len() == 0,
        NoiseStage::Reply => h.leads && h.said.len() == 1 && h.heard.len() == 0,
        NoiseStage::First => !h.leads && h.said.len() == 0 && h.heard.len() == 0,
        NoiseStage::Last => !h.leads && h.said.len() == 1 && h.heard.len() == 1,
        NoiseStage::Done => h.passed() == 3,
    }
}

impl NoiseHandshake {
    pub closed spec fn at(&self) -> NoiseStage {
        self.stage
    }

    /// What went through the state so far, with the hash that it has come to.
    pub closed spec fn log(&self) -> HandshakeView {
        self.inner@
    }

    /// The stage is that of the messages that have passed.
    pub open spec fn wf(&self) -> bool {
        stands_at(self.log(), self.at())
    }

    /// Begins in a role, with a static key drawn for it and the shared prologue.
    pub fn begin(initiator: bool) -> (r: Result<Self, NetworkError>)
        ensures
            r matches Ok(h) && {
                &&& h.wf()
                &&& h.at() == (if initiator {
                    NoiseStage::Opening
                } else {
                    NoiseStage::First
                })
                &&& h.log().is_fresh(PATTERN@, initiator, encode_utf8(PROLOGUE@), h.log().key)
                &&& h.log().key.len() == 32
            },
    {
        let protocol = match Protocol::parse(PATTERN) {
            Ok(p) => p,
            Err(_) => {
                return Err(NetworkError::Handshake("noise params"));
            },
        };
        let key = match protocol.draw_key() {
            Ok(k) => k,
            Err(_) => {
                return Err(NetworkError::Handshake("noise keygen"));
            },
        };
        let built = if initiator {
            Handshake::initiator(protocol, &key, PROLOGUE.as_bytes())
        } else {
            Handshake::responder(protocol, &key, PROLOGUE.as_bytes())
        };
        match built {
            Ok(inner) => Ok(
                NoiseHandshake {
                    inner,
                    stage: if initiator {
                        NoiseStage::Opening
                    } else {
                        NoiseStage::First
                    },
                },
            ),
            Err(_) => Err(NetworkError::Handshake("noise build")),
        }
    }

    /// Has the state write its next message.
    fn write(&mut self, why: &'static str) -> (r: Result<Vec<u8>, NetworkError>)
        ensures
            final(self).at() == old(self).at(),
            match r {
                Ok(m) => {
                    &&& old(self).log().may_write() ==> m@.len() == message_len(
                        old(self).log().passed(),
                    )
                    &&& final(self).log() == old(self).log().wrote(m@, final(self).log().hash)
                },
                Err(e) => {
                    &&& e == refused(why)
                    &&& !old(self).log().may_write()
                    &&& final(self).log() == old(self).log()
                },
            },
    {
        match self.inner.write(HANDSHAKE_ROOM) {
            Ok(m) => Ok(m),
            Err(_) => Err(NetworkError::Handshake(why)),
        }
    }

    /// Has the state read a message.
    fn read(&mut self, message: &[u8], why: &'static str) -> (r: Result<(), NetworkError>)
        ensures
            final(self).at() == old(self).at(),
            match r {
                Ok(()) => message@.len() <= 65535 && final(self).log() == old(self).log().took(
                    message@,
                    final(self).log().hash,
                ),
                Err(e) => e == refused(why) && final(self).log() == old(self).log(),
            },
            stands_at(old(self).log(), NoiseStage::First) ==> r is Ok == (32 <= message@.len() <= 32
                + HANDSHAKE_ROOM),
    {
        match self.inner.read(message, HANDSHAKE_ROOM) {
            Ok(_) => Ok(()),
            Err(_) => Err(NetworkError::Handshake(why)),
        }
    }

    /// The initiator's first message.
    pub fn open(&mut self) -> (r: Result<Vec<u8>, NetworkError>)
        requires
            old(self).wf(),
        ensures
            final(self).wf(),
            match r {
                Ok(m) => {
                    &&& old(self).at() == NoiseStage::Opening
                    &&& final(self).at() == NoiseStage::Reply
                    &&& m@.len() == message_len(0)
                    &&& final(self).log() == old(self).log().wrote(m@, final(self).log().hash)
                },
                Err(e) => {
                    &&& old(self).at() != NoiseStage::Opening
                    &&& e == NetworkError::BadFrame
                    &&& final(self).at() == old(self).at()
                    &&& final(self).log() == old(self).log()
                },
            },
    {
        if self.stage != NoiseStage::Opening {
            return Err(NetworkError::BadFrame);
        }
        match self.write("noise write e") {
            Ok(m) => {
                self.stage = NoiseStage::Reply;
                Ok(m)
            },
            Err(e) => Err(e),
        }
    }

    /// A handshake message arrived. Gives the message to send back, where there is one.
    /// The first message is taken for its length alone; whether a later one is rests on the
    /// keys of both sides. A message that is refused leaves the handshake as it was.
    pub fn on_message(&mut self, incoming: &[u8]) -> (r: Result<Option<Vec<u8>>, NetworkError>)
        requires
            old(self).wf(),
        ensures
            final(self).wf(),
            r is Err ==> final(self).at() == old(self).at() && final(self).log() == old(self).log(),
            match old(self).at() {
                NoiseStage::First => if 32 <= incoming@.len() <= 32 + HANDSHAKE_ROOM {
                    r matches Ok(Some(m)) && {
                        &&& final(self).at() == NoiseStage::Last
                        &&& m@.len() == message_len(1)
                        &&& answered(old(self).log(), incoming@, m@, final(self).log())
                    }
                } else {
                    r == Err::<Option<Vec<u8>>, NetworkError>(refused("noise read e"))
                },
                NoiseStage::Reply => match r {
                    Ok(reply) => reply matches Some(m) && {
                        &&& final(self).at() == NoiseStage::Done
                        &&& incoming@.len() <= 65535
                        &&& m@.len() == message_len(2)
                        &&& answered(old(self).log(), incoming@, m@, final(self).log())
                    },
                    Err(e) => e == refused("noise read ees"),
                },
                NoiseStage::Last => match r {
                    Ok(reply) => {
                        &&& reply is None
                        &&& final(self).at() == NoiseStage::Done
                        &&& incoming@.len() <= 65535
                        &&& final(self).log() == old(self).log().took(
                            incoming@,
                            final(self).log().hash,
                        )
                    },
                    Err(e) => e == refused("noise read s"),
                },
                _ => r == Err::<Option<Vec<u8>>, NetworkError>(NetworkError::BadFrame),
            },
    {
        match self.stage {
            NoiseStage::Reply => {
                if let Err(e) = self.read(incoming, "noise read ees") {
                    return Err(e);
                }
                match self.write("noise write s") {
                    Ok(m) => {
                        self.stage = NoiseStage::Done;
                        Ok(Some(m))
                    },
                    Err(e) => Err(e),
                }
            },
            NoiseStage::First => {
                if let Err(e) = self.read(incoming, "noise read e") {
                    return Err(e);
                }
                match self.write("noise write ees") {
                    Ok(m) => {
                        self.stage = NoiseStage::Last;
                        Ok(Some(m))
                    },
                    Err(e) => Err(e),
                }
            },
            NoiseStage::Last => {
                if let Err(e) = self.read(incoming, "noise read s") {
                    return Err(e);
                }
                self.stage = NoiseStage::Done;
                Ok(None)
            },
            _ => Err(NetworkError::BadFrame),
        }
    }

    /// The session of a finished handshake, bound to its hash.
    pub fn finish(self) -> (r: Result<NoiseSession, NetworkError>)
        requires
            self.wf(),
        ensures
            match r {
                Ok(s) => {
                    &&& self.at() == NoiseStage::Done
                    &&& s.bound_hash()@ == padded(self.log().hash)
                    &&& s.log() == (TransportView {
                        origin: self.log(),
                        out_key: s.log().out_key,
                        in_key: s.log().in_key,
                        sealed: Seq::empty(),
                        opened: Seq::empty(),
                    })
                },
                Err(e) => self.at() != NoiseStage::Done && e == refused("noise transport"),
            },
    {
        let digest = self.inner.digest();
        match self.inner.into_transport() {
            Ok(transport) => Ok(NoiseSession::session_of(transport, digest.as_slice())),
            Err(_) => Err(NetworkError::Handshake("noise transport")),
        }
    }
}

/// A message was read and then one was written.
pub open spec fn answered(
    before: HandshakeView,
    incoming: Seq<u8>,
    reply: Seq<u8>,
    after: HandshakeView,
) -> bool {
    after == (HandshakeView {
        heard: before.heard.push(incoming),
        said: before.said.push(reply),
        hash: after.hash,
        ..before
    })
}

/// The first 32 bytes of `d`, with zeros where it is shorter.
pub open spec fn padded(d: Seq<u8>) -> Seq<u8> {
    Seq::new(
        32,
        |i: int|
            if i < d.len() {
                d[i]
            } else {
                0
            },
    )
}

/// The first 32 bytes of a digest, with zeros where it is shorter.
pub fn padded32(digest: &[u8]) -> (r: [u8; 32])
    ensures
        r@ == padded(digest@),
{
    let mut out = [0u8; 32];
    let mut i: usize = 0;
    while i < 32 && i < digest.len()
        invariant
            i <= 32,
            i <= digest@.len(),
            forall|j: int| 0 <= j < i ==> #[trigger] out@[j] == digest@[j],
            forall|j: int| i <= j < 32 ==> #[trigger] out@[j] == 0,
        decreases 32 - i,
    {
        out[i] = digest[i];
        i += 1;
    }
    assert(out@ =~= padded(digest@));
    out
}

/// An encrypted session.
pub struct NoiseSession {
    transport: Transport,
    handshake_hash: [u8; 32],
}

/// How many chunks `n` bytes make.
pub open spec fn chunk_count(n: int) -> int {
    (n + NOISE_PLAIN_CHUNK - 1) / (NOISE_PLAIN_CHUNK as int)
}

/// How long chunk `i` of `n` bytes is.
pub open spec fn chunk_len(n: int, i: int) -> int {
    if n - NOISE_PLAIN_CHUNK * i < NOISE_PLAIN_CHUNK {
        n - NOISE_PLAIN_CHUNK * i
    } else {
        NOISE_PLAIN_CHUNK as int
    }
}

/// Chunk `i` of `b`.
pub open spec fn chunk_at(b: Seq<u8>, i: int) -> Seq<u8> {
    b.subrange(NOISE_PLAIN_CHUNK * i, NOISE_PLAIN_CHUNK * i + chunk_len(b.len() as int, i))
}

/// The chunks of `b` in order.
pub open spec fn chunks(b: Seq<u8>) -> Seq<Seq<u8>> {
    Seq::new(chunk_count(b.len() as int) as nat, |i: int| chunk_at(b, i))
}

/// Parts one after the other.
pub open spec fn joined(parts: Seq<Seq<u8>>) -> Seq<u8>
    decreases parts.len(),
{
    if parts.len() == 0 {
        Seq::empty()
    } else {
        joined(parts.drop_last()) + parts.last()
    }
}

/// The contents of a list of byte strings.
pub open spec fn byte_views(v: Seq<Vec<u8>>) -> Seq<Seq<u8>> {
    v.map_values(|b: Vec<u8>| b@)
}

/// Each element of `a` with the one of `b` at its place.
pub open spec fn paired(a: Seq<Seq<u8>>, b: Seq<Seq<u8>>) -> Seq<(Seq<u8>, Seq<u8>)> {
    Seq::new(a.len(), |i: int| (a[i], b[i]))
}

/// The plaintext chunks of a frame, none of them longer than a Noise message takes.
pub fn plain_chunks(kind: u8, payload: &[u8]) -> (r: Result<Vec<Vec<u8>>, NetworkError>)
    ensures
        match r {
            Ok(v) => {
                let whole = framed(kind, payload@);
                &&& payload@.len() <= MAX_FRAME
                &&& byte_views(v@) == chunks(whole)
                &&& joined(byte_views(v@)) == whole
                &&& v@.len() == chunk_count(whole.len() as int)
                &&& forall|i: int|
                    0 <= i < v@.len() ==> (#[trigger] v@[i])@.len() == chunk_len(
                        whole.len() as int,
                        i,
                    )
            },
            Err(e) => e == NetworkError::BadFrame && payload@.len() > MAX_FRAME,
        },
{
    let mut inner: Vec<u8> = Vec::new();
    if let Err(e) = write_frame(&mut inner, kind, payload) {
        return Err(e);
    }
    let ghost whole = framed(kind, payload@);
    proof {
        lemma_le_bytes_len(payload@.len(), 4);
        assert(inner@ =~= whole);
    }
    let n: usize = inner.len();
    let ghost len = n as int;
    assert(len == HEADER_LEN + payload@.len());
    let count: usize = (n + NOISE_PLAIN_CHUNK - 1) / NOISE_PLAIN_CHUNK;
    let mut out: Vec<Vec<u8>> = Vec::new();
    let mut i: usize = 0;
    while i < count
        invariant
            i <= count,
            n == inner@.len(),
            inner@ == whole,
            len == n,
            n <= MAX_FRAME + HEADER_LEN,
            count == chunk_count(len),
            out@.len() == i,
            forall|k: int| 0 <= k < i ==> (#[trigger] out@[k])@ == chunk_at(whole, k),
        decreases count - i,
    {
        let at: usize = NOISE_PLAIN_CHUNK * i;
        let left: usize = n - at;
        let m: usize = if left < NOISE_PLAIN_CHUNK {
            left
        } else {
            NOISE_PLAIN_CHUNK
        };
        let chunk = sub_bytes(inner.as_slice(), at, m);
        assert(chunk@ =~= chunk_at(whole, i as int));
        out.push(chunk);
        i += 1;
    }
    proof {
        assert(byte_views(out@) =~= chunks(whole));
        law_chunks_join(whole);
        assert forall|k: int| 0 <= k < out@.len() implies (#[trigger] out@[k])@.len() == chunk_len(
            len,
            k,
        ) by {
            law_chunks_are_accepted(len, k);
        }
    }
    Ok(out)
}

/// The frame that decrypted chunks make: too much of them is refused, and together they
/// are one frame and nothing else.
pub open spec fn chunk_frame(parts: Seq<Seq<u8>>) -> Result<(u8, Seq<u8>), NetworkError> {
    if joined(parts).len() > MAX_FRAME + HEADER_LEN {
        Err(NetworkError::BadFrame)
    } else {
        exact_frame(joined(parts))
    }
}

/// Reads the frame that decrypted chunks make.
pub fn frame_of_chunks(parts: &Vec<Vec<u8>>) -> (r: Result<(u8, Vec<u8>), NetworkError>)
    ensures
        match r {
            Ok((kind, payload)) => chunk_frame(byte_views(parts@)) == Ok::<
                (u8, Seq<u8>),
                NetworkError,
            >((kind, payload@)),
            Err(e) => chunk_frame(byte_views(parts@)) == Err::<(u8, Seq<u8>), NetworkError>(e),
        },
{
    let ghost views = byte_views(parts@);
    let mut plain: Vec<u8> = Vec::new();
    let mut i: usize = 0;
    assert(views.take(0) =~= Seq::<Seq<u8>>::empty());
    while i < parts.len()
        invariant
            views == byte_views(parts@),
            i <= parts@.len(),
            plain@ == joined(views.take(i as int)),
            plain@.len() <= MAX_FRAME + HEADER_LEN,
        decreases parts@.len() - i,
    {
        proof {
            assert(views.take(i + 1).drop_last() =~= views.take(i as int));
            assert(views.take(i + 1).last() == parts@[i as int]@);
            lemma_joined_grows(views, i + 1);
        }
        if parts[i].len() > MAX_FRAME as usize + HEADER_LEN - plain.len() {
            return Err(NetworkError::BadFrame);
        }
        append(&mut plain, parts[i].as_slice());
        i += 1;
    }
    assert(views.take(i as int) =~= views);
    parse_plain(plain.as_slice())
}

/// The first parts are no longer than all of them.
proof fn lemma_joined_grows(parts: Seq<Seq<u8>>, n: int)
    requires
        0 <= n <= parts.len(),
    ensures
        joined(parts.take(n)).len() <= joined(parts).len(),
    decreases parts.len(),
{
    if n < parts.len() {
        lemma_joined_grows(parts.drop_last(), n);
        assert(parts.drop_last().take(n) =~= parts.take(n));
    } else {
        assert(parts.take(n) =~= parts);
    }
}

proof fn lemma_chunks_prefix(b: Seq<u8>, n: int)
    requires
        0 <= n <= chunk_count(b.len() as int),
    ensures
        joined(chunks(b).take(n)) == b.take(
            if NOISE_PLAIN_CHUNK * n < b.len() {
                NOISE_PLAIN_CHUNK * n
            } else {
                b.len() as int
            },
        ),
    decreases n,
{
    let c = chunks(b);
    if n == 0 {
        assert(c.take(0) =~= Seq::<Seq<u8>>::empty());
        assert(b.take(0) =~= Seq::<u8>::empty());
    } else {
        lemma_chunks_prefix(b, n - 1);
        assert(c.take(n).drop_last() =~= c.take(n - 1));
        assert(c.take(n).last() == chunk_at(b, n - 1));
        assert(NOISE_PLAIN_CHUNK * (n - 1) < b.len());
        assert(joined(c.take(n)) =~= b.take(
            if NOISE_PLAIN_CHUNK * n < b.len() {
                NOISE_PLAIN_CHUNK * n
            } else {
                b.len() as int
            },
        ));
    }
}

/// The chunks of a message are the message.
pub proof fn law_chunks_join(b: Seq<u8>)
    ensures
        joined(chunks(b)) == b,
{
    let n = chunk_count(b.len() as int);
    lemma_chunks_prefix(b, n);
    assert(chunks(b).take(n) =~= chunks(b));
    assert(NOISE_PLAIN_CHUNK * n >= b.len());
    assert(b.take(b.len() as int) =~= b);
}

/// A frame and nothing else.
pub open spec fn exact_frame(b: Seq<u8>) -> Result<(u8, Seq<u8>), NetworkError> {
    if b.len() < HEADER_LEN {
        Err(NetworkError::BadFrame)
    } else {
        match header_of(b.take(10)) {
            Err(e) => Err(e),
            Ok((kind, n)) => if b.len() != 10 + n {
                Err(NetworkError::BadFrame)
            } else {
                Ok((kind, b.skip(10)))
            },
        }
    }
}

/// Reads the frame that a decrypted message holds.
pub fn parse_plain(inner: &[u8]) -> (r: Result<(u8, Vec<u8>), NetworkError>)
    ensures
        match r {
            Ok((kind, payload)) => exact_frame(inner@) == Ok::<(u8, Seq<u8>), NetworkError>(
                (kind, payload@),
            ),
            Err(e) => exact_frame(inner@) == Err::<(u8, Seq<u8>), NetworkError>(e),
        },
{
    if inner.len() < HEADER_LEN {
        return Err(NetworkError::BadFrame);
    }
    let head = sub_bytes(inner, 0, HEADER_LEN);
    assert(head@ =~= inner@.take(10));
    match read_header(head.as_slice()) {
        Err(e) => Err(e),
        Ok((kind, len)) => {
            if inner.len() - HEADER_LEN != len as usize {
                return Err(NetworkError::BadFrame);
            }
            let payload = sub_bytes(inner, HEADER_LEN, len as usize);
            assert(payload@ =~= inner@.skip(10));
            Ok((kind, payload))
        },
    }
}

/// How many chunks a session header announces.
pub fn read_chunk_count(hdr: &[u8]) -> (r: Result<usize, NetworkError>)
    ensures
        match r {
            Ok(n) => hdr@.len() == 4 && n == le_value(hdr@) && 1 <= n <= MAX_CHUNKS,
            Err(e) => e == NetworkError::BadFrame && (hdr@.len() != 4 || le_value(hdr@) == 0
                || le_value(hdr@) > MAX_CHUNKS),
        },
{
    if hdr.len() != 4 {
        return Err(NetworkError::BadFrame);
    }
    assert(hdr@.subrange(0, 4) =~= hdr@);
    let n: usize = get_u32(hdr, 0) as usize;
    if n == 0 || n > MAX_CHUNKS {
        return Err(NetworkError::BadFrame);
    }
    Ok(n)
}

/// Appends a message to the stream, with its length before it.
pub fn write_raw(stream: &mut Vec<u8>, data: &[u8]) -> (r: Result<(), NetworkError>)
    ensures
        match r {
            Ok(()) => data@.len() <= MAX_RAW && final(stream)@ == old(stream)@ + sized(data@),
            Err(e) => e == NetworkError::BadFrame && data@.len() > MAX_RAW && final(stream)@
                == old(stream)@,
        },
{
    if data.len() > MAX_RAW {
        return Err(NetworkError::BadFrame);
    }
    let ghost start = stream@;
    put_le(stream, data.len() as u64, 4);
    append(stream, data);
    assert(stream@ =~= start + sized(data@));
    Ok(())
}

/// The length of the message that four bytes on the stream announce.
pub fn read_raw_len(hdr: &[u8]) -> (r: Result<usize, NetworkError>)
    requires
        hdr@.len() == 4,
    ensures
        r == (if le_value(hdr@) > MAX_RAW {
            Err::<usize, NetworkError>(NetworkError::BadFrame)
        } else {
            Ok::<usize, NetworkError>(le_value(hdr@) as usize)
        }),
{
    assert(hdr@.subrange(0, 4) =~= hdr@);
    let n: u32 = get_u32(hdr, 0);
    if n > MAX_RAW as u32 {
        return Err(NetworkError::BadFrame);
    }
    Ok(n as usize)
}

impl NoiseSession {
    /// The hash of the handshake, to which the node's identity is bound.
    pub fn handshake_hash(&self) -> (r: [u8; 32])
        ensures
            r == self.bound_hash(),
    {
        self.handshake_hash
    }

    pub closed spec fn bound_hash(&self) -> [u8; 32] {
        self.handshake_hash
    }

    /// The handshake that the session comes from, and what was encrypted and decrypted.
    pub closed spec fn log(&self) -> TransportView {
        self.transport@
    }

    /// The session on a transport, bound to the hash of its handshake.
    pub fn session_of(transport: Transport, digest: &[u8]) -> (s: Self)
        ensures
            s.bound_hash()@ == padded(digest@),
            s.log() == transport@,
    {
        NoiseSession { transport, handshake_hash: padded32(digest) }
    }

    /// The messages that carry a frame: the number of chunks, then each chunk of
    /// [`plain_chunks`] encrypted. A payload above the cap is refused. Encryption fails only
    /// where the message numbers run out, with the chunks before it already encrypted.
    pub fn write_frame(&mut self, kind: u8, payload: &[u8]) -> (r: Result<
        Vec<Vec<u8>>,
        NetworkError,
    >)
        ensures
            final(self).bound_hash() == old(self).bound_hash(),
            final(self).log() == (TransportView {
                sealed: final(self).log().sealed,
                ..old(self).log()
            }),
            ({
                let parts = chunks(framed(kind, payload@));
                let before = old(self).log();
                match r {
                    Ok(v) => {
                        &&& payload@.len() <= MAX_FRAME
                        &&& v@.len() == 1 + parts.len()
                        &&& v@[0]@ == le_bytes(parts.len(), 4)
                        &&& final(self).log().sealed == before.sealed + paired(
                            parts,
                            byte_views(v@.skip(1)),
                        )
                        &&& are_boxes(
                            before.origin.pattern,
                            before.out_key,
                            before.sealed.len(),
                            byte_views(v@.skip(1)),
                            parts,
                        )
                    },
                    Err(e) => if payload@.len() > MAX_FRAME {
                        e == NetworkError::BadFrame && final(self).log() == before
                    } else {
                        &&& e == refused("noise encrypt")
                        &&& before.origin.pattern != PATTERN@ || before.sealed.len() + parts.len()
                            > u64::MAX
                        &&& sealed_some(before.sealed, parts, final(self).log().sealed)
                    },
                }
            }),
    {
        let plain = match plain_chunks(kind, payload) {
            Ok(v) => v,
            Err(e) => {
                return Err(e);
            },
        };
        let ghost whole = framed(kind, payload@);
        let ghost parts = chunks(whole);
        let ghost before = self.log();
        proof {
            lemma_le_bytes_len(payload@.len(), 4);
        }
        let count: usize = plain.len();
        let mut head: Vec<u8> = Vec::new();
        put_le(&mut head, count as u64, 4);
        assert(head@ =~= le_bytes(count as nat, 4));
        let mut out: Vec<Vec<u8>> = Vec::new();
        out.push(head);
        let mut i: usize = 0;
        assert(before.sealed + paired(parts.take(0), byte_views(out@.skip(1))) =~= before.sealed);
        while i < count
            invariant
                i <= count,
                count == plain@.len(),
                payload@.len() <= MAX_FRAME,
                whole == framed(kind, payload@),
                HEADER_LEN <= whole.len() <= MAX_FRAME + HEADER_LEN,
                parts == chunks(whole),
                parts == byte_views(plain@),
                before == old(self).log(),
                out@.len() == 1 + i,
                out@[0]@ == le_bytes(count as nat, 4),
                self.bound_hash() == old(self).bound_hash(),
                self.log() == (TransportView { sealed: self.log().sealed, ..before }),
                self.log().sealed == before.sealed + paired(
                    parts.take(i as int),
                    byte_views(out@.skip(1)),
                ),
                are_boxes(
                    before.origin.pattern,
                    before.out_key,
                    before.sealed.len(),
                    byte_views(out@.skip(1)),
                    parts.take(i as int),
                ),
            decreases count - i,
        {
            let ghost so_far = out@;
            proof {
                assert(parts.len() == chunk_count(whole.len() as int));
                law_chunks_are_accepted(whole.len() as int, i as int);
                assert(parts[i as int] == plain@[i as int]@);
                assert(parts[i as int] == chunk_at(whole, i as int));
            }
            match self.transport.seal(plain[i].as_slice()) {
                Ok(c) => {
                    out.push(c);
                    proof {
                        assert(byte_views(out@.skip(1)) =~= byte_views(so_far.skip(1)).push(c@));
                        assert(parts.take(i + 1) =~= parts.take(i as int).push(parts[i as int]));
                        assert(self.log().sealed =~= before.sealed + paired(
                            parts.take(i + 1),
                            byte_views(out@.skip(1)),
                        ));
                        assert forall|k: int| 0 <= k < i + 1 implies {
                            let c = byte_views(out@.skip(1))[k];
                            let p = #[trigger] parts.take(i + 1)[k];
                            &&& c.len() == p.len() + TAG_LEN
                            &&& c.len() <= 65535
                            &&& is_box(
                                before.origin.pattern,
                                before.out_key,
                                (before.sealed.len() + k) as nat,
                                c,
                                p,
                            )
                        } by {
                            if k < i {
                                assert(parts.take(i as int)[k] == parts.take(i + 1)[k]);
                            }
                        }
                    }
                },
                Err(_) => {
                    assert(sealed_some(before.sealed, parts, self.log().sealed));
                    return Err(NetworkError::Handshake("noise encrypt"));
                },
            }
            i += 1;
        }
        assert(parts.take(i as int) =~= parts);
        Ok(out)
    }

    /// The frame that encrypted messages carry. They are decrypted in order, until one
    /// is refused or they come to too much; what came out is read by
    /// [`frame_of_chunks`].
    pub fn read_frame(&mut self, ciphers: &Vec<Vec<u8>>) -> (r: Result<
        (u8, Vec<u8>),
        NetworkError,
    >)
        ensures
            final(self).bound_hash() == old(self).bound_hash(),
            final(self).log() == (TransportView {
                opened: final(self).log().opened,
                ..old(self).log()
            }),
            ({
                let before = old(self).log();
                let parts = parts_since(before.opened, final(self).log().opened);
                &&& opened_some(before, byte_views(ciphers@), final(self).log().opened)
                &&& match r {
                    Ok((kind, payload)) => {
                        &&& parts.len() == ciphers@.len()
                        &&& chunk_frame(parts) == Ok::<(u8, Seq<u8>), NetworkError>(
                            (kind, payload@),
                        )
                    },
                    Err(e) => {
                        ||| e == refused("noise decrypt") && parts.len() < ciphers@.len() && joined(
                            parts,
                        ).len() <= MAX_FRAME + HEADER_LEN
                        ||| chunk_frame(parts) == Err::<(u8, Seq<u8>), NetworkError>(e) && (
                        parts.len() == ciphers@.len() || joined(parts).len() > MAX_FRAME
                            + HEADER_LEN)
                    },
                }
            }),
            reads_boxes(old(self).log(), byte_views(ciphers@), frame_view(r)),
    {
        let mut plain: Vec<Vec<u8>> = Vec::new();
        let mut total: usize = 0;
        let mut i: usize = 0;
        let ghost before = self.log();
        let ghost all = byte_views(ciphers@);
        proof {
            assert(byte_views(plain@) =~= Seq::<Seq<u8>>::empty());
            assert(parts_since(before.opened, before.opened) =~= Seq::<Seq<u8>>::empty());
        }
        while i < ciphers.len()
            invariant
                all == byte_views(ciphers@),
                i <= ciphers@.len(),
                before == old(self).log(),
                plain@.len() == i,
                self.log() == (TransportView { opened: self.log().opened, ..before }),
                self.log().opened.len() == before.opened.len() + i,
                opened_some(before, all, self.log().opened),
                byte_views(plain@) == parts_since(before.opened, self.log().opened),
                total == joined(byte_views(plain@)).len(),
                total <= MAX_FRAME + HEADER_LEN,
                self.bound_hash() == old(self).bound_hash(),
                forall|plains: Seq<Seq<u8>>| #[trigger]
                    is_readable(before, all, plains) ==> byte_views(plain@) =~= plains.take(
                        i as int,
                    ),
            decreases ciphers@.len() - i,
        {
            let ghost log = self.log();
            let ghost so_far = plain@;
            assert(all[i as int] == ciphers@[i as int]@);
            assert forall|plains: Seq<Seq<u8>>| #[trigger]
                is_readable(before, all, plains) implies log.is_box_of(
                all[i as int],
                plains[i as int],
            ) && all[i as int].len() <= 65535 && log.opened.len() < u64::MAX
                && log.origin.pattern == PATTERN@ by {
                assert(all[i as int].len() == plains[i as int].len() + TAG_LEN);
            }
            let p = match self.transport.open(ciphers[i].as_slice()) {
                Ok(p) => p,
                Err(_) => {
                    proof {
                        assert forall|plains: Seq<Seq<u8>>| !(#[trigger] is_readable(
                            before,
                            all,
                            plains,
                        )) by {
                            if is_readable(before, all, plains) {
                                assert(log.is_box_of(ciphers@[i as int]@, plains[i as int]));
                            }
                        }
                    }
                    return Err(NetworkError::Handshake("noise decrypt"));
                },
            };
            let n: usize = p.len();
            plain.push(p);
            proof {
                assert(byte_views(plain@) =~= byte_views(so_far).push(p@));
                assert(byte_views(plain@).drop_last() =~= byte_views(so_far));
                assert(parts_since(before.opened, self.log().opened) =~= parts_since(
                    before.opened,
                    log.opened,
                ).push(p@));
                assert forall|plains: Seq<Seq<u8>>| #[trigger]
                    is_readable(before, all, plains) implies byte_views(plain@) =~= plains.take(
                    i + 1,
                ) by {
                    assert(log.is_box_of(ciphers@[i as int]@, plains[i as int]));
                    assert(plains.take(i + 1) =~= plains.take(i as int).push(plains[i as int]));
                }
            }
            if n > MAX_FRAME as usize + HEADER_LEN - total {
                proof {
                    assert forall|plains: Seq<Seq<u8>>| #[trigger]
                        is_readable(before, all, plains) implies chunk_frame(plains) == Err::<
                        (u8, Seq<u8>),
                        NetworkError,
                    >(NetworkError::BadFrame) by {
                        lemma_joined_grows(plains, i + 1);
                    }
                }
                return Err(NetworkError::BadFrame);
            }
            total = total + n;
            i += 1;
        }
        proof {
            assert forall|plains: Seq<Seq<u8>>| #[trigger]
                is_readable(before, all, plains) implies plains == byte_views(plain@) by {
                assert(plains.take(i as int) =~= plains);
            }
        }
        frame_of_chunks(&plain)
    }
}

/// Some of the chunks were encrypted, in order, and not all of them.
pub open spec fn sealed_some(
    before: Seq<(Seq<u8>, Seq<u8>)>,
    parts: Seq<Seq<u8>>,
    after: Seq<(Seq<u8>, Seq<u8>)>,
) -> bool {
    &&& before.len() <= after.len() < before.len() + parts.len()
    &&& after.take(before.len() as int) =~= before
    &&& forall|i: int|
        before.len() <= i < after.len() ==> (#[trigger] after[i]).0 == parts[i - before.len()]
}

/// The first of these ciphertexts were decrypted, in order, each into the plaintext that
/// it is the encryption of.
pub open spec fn opened_some(
    before: TransportView,
    ciphers: Seq<Seq<u8>>,
    after: Seq<(Seq<u8>, Seq<u8>)>,
) -> bool {
    let n = before.opened.len();
    &&& n <= after.len() <= n + ciphers.len()
    &&& after.take(n as int) =~= before.opened
    &&& forall|i: int|
        n <= i < after.len() ==> {
            &&& (#[trigger] after[i]).0 == ciphers[i - n]
            &&& after[i].1.len() + TAG_LEN == after[i].0.len()
            &&& is_box(before.origin.pattern, before.in_key, i as nat, after[i].0, after[i].1)
        }
}

/// Whether `cipher` is the encryption of `plain` under a key and a message number.
pub open spec fn is_box(
    pattern: Seq<char>,
    key: Seq<u8>,
    number: nat,
    cipher: Seq<u8>,
    plain: Seq<u8>,
) -> bool {
    cipher == noise_box(pattern, key, number, plain)
}

/// Each ciphertext is the encryption of the plaintext at its place, the first one under
/// the number `from`.
pub open spec fn are_boxes(
    pattern: Seq<char>,
    key: Seq<u8>,
    from: nat,
    ciphers: Seq<Seq<u8>>,
    plains: Seq<Seq<u8>>,
) -> bool {
    &&& ciphers.len() == plains.len()
    &&& forall|i: int|
        0 <= i < plains.len() ==> {
            &&& ciphers[i].len() == (#[trigger] plains[i]).len() + TAG_LEN
            &&& ciphers[i].len() <= 65535
            &&& is_box(pattern, key, (from + i) as nat, ciphers[i], plains[i])
        }
}

/// These ciphertexts are what the other side encrypts these plaintexts to next, and there
/// are numbers left for them.
pub open spec fn is_readable(
    before: TransportView,
    ciphers: Seq<Seq<u8>>,
    plains: Seq<Seq<u8>>,
) -> bool {
    &&& before.origin.pattern == PATTERN@
    &&& before.opened.len() + ciphers.len() <= u64::MAX
    &&& are_boxes(
        before.origin.pattern,
        before.in_key,
        before.opened.len(),
        ciphers,
        plains,
    )
}

/// The result of reading a frame.
pub open spec fn frame_view(r: Result<(u8, Vec<u8>), NetworkError>) -> Result<
    (u8, Seq<u8>),
    NetworkError,
> {
    match r {
        Ok((kind, payload)) => Ok((kind, payload@)),
        Err(e) => Err(e),
    }
}

/// What is read of ciphertexts that the other side has encrypted: the frame that its
/// chunks make.
pub open spec fn reads_boxes(
    before: TransportView,
    ciphers: Seq<Seq<u8>>,
    r: Result<(u8, Seq<u8>), NetworkError>,
) -> bool {
    forall|plains: Seq<Seq<u8>>| #[trigger]
        is_readable(before, ciphers, plains) ==> r == chunk_frame(plains)
}

/// The plaintexts that came out since.
pub open spec fn parts_since(
    before: Seq<(Seq<u8>, Seq<u8>)>,
    after: Seq<(Seq<u8>, Seq<u8>)>,
) -> Seq<Seq<u8>> {
    after.skip(before.len() as int).map_values(|x: (Seq<u8>, Seq<u8>)| x.1)
}

/// A frame that one end has written is read by the other end as it was written, where the
/// key that the one writes with is the key that the other reads with and the two have
/// kept step.
pub proof fn law_frame_crosses_the_tunnel(
    sender: TransportView,
    receiver: TransportView,
    kind: u8,
    payload: Seq<u8>,
    ciphers: Seq<Seq<u8>>,
    r: Result<(u8, Seq<u8>), NetworkError>,
)
    requires
        sender.origin.pattern == PATTERN@,
        receiver.origin.pattern == PATTERN@,
        sender.out_key == receiver.in_key,
        sender.sealed.len() == receiver.opened.len(),
        receiver.opened.len() + ciphers.len() <= u64::MAX,
        payload.len() <= MAX_FRAME,
        are_boxes(
            sender.origin.pattern,
            sender.out_key,
            sender.sealed.len(),
            ciphers,
            chunks(framed(kind, payload)),
        ),
        reads_boxes(receiver, ciphers, r),
    ensures
        r == Ok::<(u8, Seq<u8>), NetworkError>((kind, payload)),
{
    assert(is_readable(receiver, ciphers, chunks(framed(kind, payload))));
    law_chunks_round_trip(kind, payload);
}

/// A frame within the cap makes a number of chunks that the other side accepts, and
/// each of them fits in a Noise message and on the stream.
pub proof fn law_chunks_are_accepted(n: int, i: int)
    requires
        HEADER_LEN <= n <= MAX_FRAME + HEADER_LEN,
        0 <= i < chunk_count(n),
    ensures
        1 <= chunk_count(n) <= MAX_CHUNKS,
        0 < chunk_len(n, i),
        chunk_len(n, i) + TAG_LEN <= 65535,
        chunk_len(n, i) + TAG_LEN <= MAX_RAW,
{
}

/// Where decryption gives back what was encrypted, the frame is read as it was written.
pub proof fn law_plain_round_trip(kind: u8, payload: Seq<u8>)
    requires
        payload.len() <= MAX_FRAME,
    ensures
        exact_frame(framed(kind, payload)) == Ok::<(u8, Seq<u8>), NetworkError>((kind, payload)),
{
    lemma_le_bytes_len(payload.len(), 4);
    lemma_pow256_values();
    lemma_le_value_of_bytes(payload.len(), 4);
    let b = framed(kind, payload);
    let h = b.take(10);
    assert(h.take(4) =~= MAGIC@);
    assert(h.subrange(6, 10) =~= le_bytes(payload.len(), 4));
    assert(b.skip(10) =~= payload);
}

/// Where decryption gives back what was encrypted, chunk by chunk, the frame is read as
/// it was written.
pub proof fn law_chunks_round_trip(kind: u8, payload: Seq<u8>)
    requires
        payload.len() <= MAX_FRAME,
    ensures
        chunk_frame(chunks(framed(kind, payload))) == Ok::<(u8, Seq<u8>), NetworkError>(
            (kind, payload),
        ),
{
    lemma_le_bytes_len(payload.len(), 4);
    law_chunks_join(framed(kind, payload));
    law_plain_round_trip(kind, payload);
}

} // verus!
