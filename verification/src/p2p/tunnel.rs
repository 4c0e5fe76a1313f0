//! The Noise states, each with a record of what went through it.
//!
//! The records are private to this module and nothing here but the calls into snow makes
//! or moves them, so what a record says of a state is what the calls did.

use vstd::prelude::*;

use snow::params::NoiseParams;
use snow::{Builder, HandshakeState, TransportState};

verus! {

/// Protocol of the sessions.
pub const PATTERN: &'static str = "Noise_XX_25519_ChaChaPoly_BLAKE2s";

/// Bytes of an authentication tag.
pub const TAG_LEN: usize = 16;

/// Room for a handshake message.
pub const HANDSHAKE_ROOM: usize = 2_048;

/// `snow::Error`.
#[verifier::external_type_specification]
#[verifier::external_body]
pub struct ExNoiseError(snow::Error);

/// `snow::params::NoiseParams`, a parsed protocol name.
#[verifier::external_type_specification]
#[verifier::external_body]
pub struct ExNoiseParams(NoiseParams);

/// `snow::HandshakeState`.
#[verifier::external_type_specification]
#[verifier::external_body]
pub struct ExHandshakeState(HandshakeState);

/// `snow::TransportState`.
#[verifier::external_type_specification]
#[verifier::external_body]
pub struct ExTransportState(TransportState);

/// Whether a text is the name of a Noise protocol.
pub uninterp spec fn noise_name_ok(name: Seq<char>) -> bool;

/// What a transport of the protocol `pattern` makes of a plaintext under a key and a
/// message number: ciphertext and tag.
pub uninterp spec fn noise_box(
    pattern: Seq<char>,
    key: Seq<u8>,
    number: nat,
    plain: Seq<u8>,
) -> Seq<u8>;

/// A protocol whose name was parsed.
pub struct Protocol {
    params: NoiseParams,
    name: Ghost<Seq<char>>,
}

impl View for Protocol {
    type V = Seq<char>;

    closed spec fn view(&self) -> Seq<char> {
        self.name@
    }
}

impl Protocol {
    /// `NoiseParams::from_str`. Whether a name parses is a function of the name alone;
    /// of the names that do, only [`PATTERN`] is spelled out here.
    #[verifier::external_body]
    pub(crate) fn parse(name: &str) -> (r: Result<Protocol, snow::Error>)
        ensures
            r is Ok == noise_name_ok(name@),
            name@ == PATTERN@ ==> r is Ok,
            r matches Ok(p) ==> p@ == name@,
    {
        let params: NoiseParams = name.parse()?;
        Ok(Protocol { params, name: Ghost(arbitrary()) })
    }

    /// `snow::Builder::generate_keypair`: the private half of a new key pair, 32 bytes for
    /// every curve that the default resolver has, and of [`PATTERN`]'s curve always one.
    /// Nothing is known of the bytes.
    #[verifier::external_body]
    pub(crate) fn draw_key(&self) -> (r: Result<StaticKey, snow::Error>)
        ensures
            self@ == PATTERN@ ==> r is Ok,
            r matches Ok(k) ==> k@.len() == 32,
    {
        let pair = Builder::new(self.params.clone()).generate_keypair()?;
        Ok(StaticKey { private: pair.private })
    }
}

/// The private half of a key pair that was drawn.
pub struct StaticKey {
    private: Vec<u8>,
}

impl View for StaticKey {
    type V = Seq<u8>;

    closed spec fn view(&self) -> Seq<u8> {
        self.private@
    }
}

/// A handshake as mathematical data.
#[verifier::ext_equal]
pub struct HandshakeView {
    /// The name of the protocol.
    pub pattern: Seq<char>,
    /// Whether this side writes the first message.
    pub leads: bool,
    /// What was mixed in before the first message.
    pub mixed: Seq<u8>,
    /// The static private key.
    pub key: Seq<u8>,
    /// The messages that the state has written, and those that it has read.
    pub said: Seq<Seq<u8>>,
    pub heard: Seq<Seq<u8>>,
    /// The handshake hash as it stands.
    pub hash: Seq<u8>,
}

impl HandshakeView {
    /// The state of one role that nothing went through yet.
    pub open spec fn is_fresh(
        self,
        pattern: Seq<char>,
        leads: bool,
        mixed: Seq<u8>,
        key: Seq<u8>,
    ) -> bool {
        self == (HandshakeView {
            pattern,
            leads,
            mixed,
            key,
            said: Seq::empty(),
            heard: Seq::empty(),
            hash: self.hash,
        })
    }

    /// How many messages have passed.
    pub open spec fn passed(self) -> nat {
        self.said.len() + self.heard.len()
    }

    /// Whether this side is to write the next message of [`PATTERN`].
    pub open spec fn may_write(self) -> bool {
        self.pattern == PATTERN@ && self.passed() < 3 && self.leads == (self.passed() % 2 == 0)
    }

    /// The handshake after a message was written.
    pub open spec fn wrote(self, m: Seq<u8>, hash: Seq<u8>) -> HandshakeView {
        HandshakeView { said: self.said.push(m), hash, ..self }
    }

    /// The handshake after a message was read.
    pub open spec fn took(self, m: Seq<u8>, hash: Seq<u8>) -> HandshakeView {
        HandshakeView { heard: self.heard.push(m), hash, ..self }
    }
}

/// How long message `i` of [`PATTERN`] is without a payload: an ephemeral key; an ephemeral
/// key, a sealed static key and a tag; a sealed static key and a tag.
pub open spec fn message_len(i: nat) -> nat {
    if i == 0 {
        32
    } else if i == 1 {
        96
    } else {
        64
    }
}

/// A handshake under way.
pub struct Handshake {
    state: HandshakeState,
    record: Ghost<HandshakeView>,
}

impl View for Handshake {
    type V = HandshakeView;

    closed spec fn view(&self) -> HandshakeView {
        self.record@
    }
}

impl Handshake {
    /// `snow::Builder::build_initiator` with a static key and a prologue: a state that has
    /// just these, and the hash that they come to. For [`PATTERN`] it always comes back.
    /// A key longer than the curve's would panic.
    #[verifier::external_body]
    pub(crate) fn initiator(protocol: Protocol, key: &StaticKey, prologue: &[u8]) -> (r: Result<
        Handshake,
        snow::Error,
    >)
        requires
            key@.len() == 32,
        ensures
            protocol@ == PATTERN@ ==> r is Ok,
            r matches Ok(h) ==> h@.is_fresh(protocol@, true, prologue@, key@),
    {
        let builder = Builder::new(protocol.params).local_private_key(&key.private);
        let state = builder.prologue(prologue).build_initiator()?;
        Ok(Handshake { state, record: Ghost(arbitrary()) })
    }

    /// `snow::Builder::build_responder`, of which the same is said.
    #[verifier::external_body]
    pub(crate) fn responder(protocol: Protocol, key: &StaticKey, prologue: &[u8]) -> (r: Result<
        Handshake,
        snow::Error,
    >)
        requires
            key@.len() == 32,
        ensures
            protocol@ == PATTERN@ ==> r is Ok,
            r matches Ok(h) ==> h@.is_fresh(protocol@, false, prologue@, key@),
    {
        let builder = Builder::new(protocol.params).local_private_key(&key.private);
        let state = builder.prologue(prologue).build_responder()?;
        Ok(Handshake { state, record: Ghost(arbitrary()) })
    }

    /// `HandshakeState::write_message` with an empty payload, into a buffer of
    /// [`HANDSHAKE_ROOM`] bytes: the message that the state has written. In [`PATTERN`] the
    /// side whose turn it is can always write, and the length of its message is fixed. The
    /// bytes, and the hash that they come to, rest on the ephemeral key that is drawn. A
    /// refusal restores the hash. A buffer without room for a sealed key could panic.
    #[verifier::external_body]
    pub(crate) fn write(&mut self, room: usize) -> (r: Result<Vec<u8>, snow::Error>)
        requires
            room == HANDSHAKE_ROOM,
        ensures
            match r {
                Ok(m) => {
                    &&& m@.len() <= room
                    &&& old(self)@.may_write() ==> m@.len() == message_len(old(self)@.passed())
                    &&& final(self)@ == old(self)@.wrote(m@, final(self)@.hash)
                },
                Err(_) => !old(self)@.may_write() && final(self)@ == old(self)@,
            },
    {
        let mut buf = vec![0u8; room];
        let n = self.state.write_message(&[], &mut buf)?;
        buf.truncate(n);
        Ok(buf)
    }

    /// `HandshakeState::read_message` with a buffer of `room` bytes for the payload, which
    /// is not kept. The responder of [`PATTERN`] takes any first message that is long enough
    /// for a key and whose payload fits; whether a later message is taken rests on the keys.
    /// One above 65535 bytes never is. A refusal restores the hash.
    #[verifier::external_body]
    pub(crate) fn read(&mut self, message: &[u8], room: usize) -> (r: Result<usize, snow::Error>)
        requires
            room == HANDSHAKE_ROOM,
        ensures
            match r {
                Ok(n) => {
                    &&& n <= message@.len() <= 65535
                    &&& final(self)@ == old(self)@.took(message@, final(self)@.hash)
                },
                Err(_) => final(self)@ == old(self)@,
            },
            old(self)@.pattern == PATTERN@ && !old(self)@.leads && old(self)@.passed() == 0
                ==> r is Ok == (32 <= message@.len() <= 32 + room),
    {
        let mut buf = vec![0u8; room];
        self.state.read_message(message, &mut buf)
    }

    /// `HandshakeState::get_handshake_hash`: the hash as it stands, 32 or 64 bytes with
    /// every hash function that the default resolver has.
    #[verifier::external_body]
    pub(crate) fn digest(&self) -> (r: Vec<u8>)
        ensures
            r@ == self@.hash,
            r@.len() == 32 || r@.len() == 64,
    {
        self.state.get_handshake_hash().to_vec()
    }

    /// `HandshakeState::into_transport_mode`: the transport that the handshake has agreed
    /// on, which nothing went through yet. [`PATTERN`] gives one after its three messages
    /// and not before. Which keys it has is not said; they rest on the keys of both sides.
    #[verifier::external_body]
    pub(crate) fn into_transport(self) -> (r: Result<Transport, snow::Error>)
        ensures
            self@.pattern == PATTERN@ ==> r is Ok == (self@.passed() == 3),
            r matches Ok(t) ==> t@ == (TransportView {
                origin: self@,
                out_key: t@.out_key,
                in_key: t@.in_key,
                sealed: Seq::empty(),
                opened: Seq::empty(),
            }),
    {
        let state = self.state.into_transport_mode()?;
        Ok(Transport { state, record: Ghost(arbitrary()) })
    }
}

/// A transport as mathematical data.
#[verifier::ext_equal]
pub struct TransportView {
    /// The handshake that it comes from.
    pub origin: HandshakeView,
    /// The keys of the two directions.
    pub out_key: Seq<u8>,
    pub in_key: Seq<u8>,
    /// What was encrypted, each plaintext with its ciphertext.
    pub sealed: Seq<(Seq<u8>, Seq<u8>)>,
    /// What was decrypted, each ciphertext with its plaintext.
    pub opened: Seq<(Seq<u8>, Seq<u8>)>,
}

impl TransportView {
    /// Whether a ciphertext is what the next plaintext of the other side is encrypted to.
    pub open spec fn is_box_of(self, cipher: Seq<u8>, plain: Seq<u8>) -> bool {
        cipher == noise_box(self.origin.pattern, self.in_key, self.opened.len(), plain)
    }

    /// The transport after an encryption.
    pub open spec fn having_sealed(self, plain: Seq<u8>, cipher: Seq<u8>) -> TransportView {
        TransportView { sealed: self.sealed.push((plain, cipher)), ..self }
    }

    /// The transport after a decryption.
    pub open spec fn having_opened(self, cipher: Seq<u8>, plain: Seq<u8>) -> TransportView {
        TransportView { opened: self.opened.push((cipher, plain)), ..self }
    }
}

/// An encrypted transport.
pub struct Transport {
    state: TransportState,
    record: Ghost<TransportView>,
}

impl View for Transport {
    type V = TransportView;

    closed spec fn view(&self) -> TransportView {
        self.record@
    }
}

impl Transport {
    /// `TransportState::write_message`: the ciphertext of the plaintext under the key of
    /// this side and the number of messages before it, longer by the tag. With [`PATTERN`]
    /// it is refused only where the message would be above 65535 bytes or the numbers have
    /// run out; a refusal changes nothing.
    #[verifier::external_body]
    pub(crate) fn seal(&mut self, plain: &[u8]) -> (r: Result<Vec<u8>, snow::Error>)
        requires
            plain@.len() <= 65535,
        ensures
            match r {
                Ok(c) => {
                    &&& c@.len() == plain@.len() + TAG_LEN
                    &&& c@.len() <= 65535
                    &&& c@ == noise_box(
                        old(self)@.origin.pattern,
                        old(self)@.out_key,
                        old(self)@.sealed.len(),
                        plain@,
                    )
                    &&& final(self)@ == old(self)@.having_sealed(plain@, c@)
                },
                Err(_) => final(self)@ == old(self)@ && (old(self)@.origin.pattern != PATTERN@
                    || plain@.len() + TAG_LEN > 65535 || old(self)@.sealed.len() >= u64::MAX),
            },
    {
        let mut out = vec![0u8; plain.len() + TAG_LEN];
        let n = self.state.write_message(plain, &mut out)?;
        out.truncate(n);
        Ok(out)
    }

    /// `TransportState::read_message`: the plaintext, shorter by the tag, whose encryption
    /// under the key of the other side and the number of messages before it the ciphertext
    /// is. With [`PATTERN`] a ciphertext of at most 65535 bytes that is the encryption of
    /// some plaintext gives back that plaintext, until the numbers have run out. A refusal
    /// changes nothing.
    #[verifier::external_body]
    pub(crate) fn open(&mut self, cipher: &[u8]) -> (r: Result<Vec<u8>, snow::Error>)
        ensures
            match r {
                Ok(p) => {
                    &&& p@.len() + TAG_LEN == cipher@.len()
                    &&& cipher@.len() <= 65535
                    &&& old(self)@.is_box_of(cipher@, p@)
                    &&& final(self)@ == old(self)@.having_opened(cipher@, p@)
                },
                Err(_) => final(self)@ == old(self)@,
            },
            forall|q: Seq<u8>| #[trigger]
                old(self)@.is_box_of(cipher@, q) && old(self)@.origin.pattern == PATTERN@
                    && cipher@.len() <= 65535 && old(self)@.opened.len() < u64::MAX ==> (r matches Ok(
                    p,
                ) && p@ == q),
    {
        let mut out = vec![0u8; cipher.len()];
        let n = self.state.read_message(cipher, &mut out)?;
        out.truncate(n);
        Ok(out)
    }
}

} // verus!
