//! Post-quantum handshake: ML-DSA identity plus hardware attestation.
//!
//! The steps of both sides are functions of the frames that arrived. Reading
//! and writing the session is the caller's part.
//!
//! 1. A banned or datacenter socket is dropped ([`reject_socket`]).
//! 2. HELLO carries the public key and the hardware quote.
//! 3. The responder issues a random nonce; both sides sign the transcript of
//!    nonces, ids, and the Noise handshake hash.
//! 4. Mutual ACK.

use vstd::prelude::*;
use vstd::utf8::encode_utf8;

use crate::anti_bot::attestation::{honest_quote, in_datacenter, is_datacenter_ipv4,
    law_attestation_round_trip, parsed_attestation, residential_endpoint, residential_ipv4,
    verify_hardware_authenticity, AttestationView, DeviceAttestation, ScoreView};
use crate::anti_bot::profile::{DeviceClass, HardwareProfile};
use crate::bytes::{append, array32, same};
use crate::crypto::hash::{sha256, sha256_of};
use crate::crypto::lattice::{address_of, blob, blob_length, keys_match, law_envelope_round_trip,
    secret_usable, signature_accepted, CryptoError, LatticeKeyPair, LatticePublicKey,
    LatticeSignature, PK_LEN, SCHEME_MLDSA44, SIG_LEN};
use crate::kron::wallet::os_random_seed;
use crate::p2p::error::NetworkError;
use crate::p2p::frame::{lemma_sized_reads_back, put_bytes, sized, sized_at, take_bytes, KIND_ACK,
    KIND_AUTH, KIND_CHALLENGE, KIND_HELLO, KIND_REJECT};
use crate::p2p::overlay::{overlay_of, NodeOverlayId};
use crate::p2p::peer::{ipv4_octets, is_loopback, law_role_round_trip, ConnectionState, Peer,
    PeerAddr, PeerInfo, PeerRole, PeerView};
use crate::types::Address;

verus! {

/// Local identity presented during the handshake.
pub struct HandshakeConfig {
    pub keys: LatticeKeyPair,
    pub role: PeerRole,
    pub class: DeviceClass,
    pub attestation: DeviceAttestation,
    pub banned_ipv4: Vec<[u8; 4]>,
    pub min_authenticity: u16,
    pub initiator: bool,
}

impl Clone for HandshakeConfig {
    fn clone(&self) -> (r: Self)
        ensures
            r.keys.public@ == self.keys.public@,
            r.keys.secret@ == self.keys.secret@,
            r.role == self.role,
            r.class == self.class,
            r.attestation@ == self.attestation@,
            r.banned_ipv4@ == self.banned_ipv4@,
            r.min_authenticity == self.min_authenticity,
            r.initiator == self.initiator,
    {
        let mut banned: Vec<[u8; 4]> = Vec::new();
        let mut i: usize = 0;
        while i < self.banned_ipv4.len()
            invariant
                i <= self.banned_ipv4@.len(),
                banned@ == self.banned_ipv4@.take(i as int),
            decreases self.banned_ipv4@.len() - i,
        {
            banned.push(self.banned_ipv4[i]);
            i += 1;
            assert(banned@ =~= self.banned_ipv4@.take(i as int));
        }
        assert(banned@ =~= self.banned_ipv4@);
        HandshakeConfig {
            keys: self.keys.clone(),
            role: self.role,
            class: self.class,
            attestation: self.attestation.clone(),
            banned_ipv4: banned,
            min_authenticity: self.min_authenticity,
            initiator: self.initiator,
        }
    }
}

impl HandshakeConfig {
    pub fn peer_id(&self) -> (r: Address)
        ensures
            r == address_of(self.keys.public@),
    {
        self.keys.public.address()
    }

    pub fn overlay_id(&self) -> (r: NodeOverlayId)
        ensures
            r@ == overlay_of(address_of(self.keys.public@)),
    {
        NodeOverlayId::from_pubkey(&self.keys.public)
    }

    /// An identity with a class-consistent residential quote.
    pub fn honest(keys: LatticeKeyPair, role: PeerRole, class: DeviceClass, initiator: bool) -> (r:
        Self)
        ensures
            r.keys == keys,
            r.role == role,
            r.class == class,
            r.attestation@ == honest_quote(
                class,
                address_of(keys.public@),
                residential_endpoint(address_of(keys.public@)),
                80_000,
            ),
            r.banned_ipv4@ == Seq::<[u8; 4]>::empty(),
            r.min_authenticity == 400,
            r.initiator == initiator,
    {
        let id = keys.public.address();
        let profile = match class {
            DeviceClass::IotSensor => HardwareProfile::iot_sensor(),
            DeviceClass::LegacyMobile => HardwareProfile::legacy_mobile(),
            DeviceClass::PersonalComputer => HardwareProfile::personal_computer(),
        };
        let attestation = DeviceAttestation::simulate_honest(
            &profile,
            id,
            residential_ipv4(&id),
            80_000,
        );
        HandshakeConfig {
            keys,
            role,
            class,
            attestation,
            banned_ipv4: Vec::new(),
            min_authenticity: 400,
            initiator,
        }
    }
}

/// Why a socket is dropped before the first frame, if it is.
pub open spec fn socket_fault(addr: PeerAddr, banned: Seq<[u8; 4]>) -> Option<NetworkError> {
    match addr.v4() {
        None => None,
        Some(ip) => if banned.contains(ip) {
            Some(NetworkError::Handshake("banned ip"))
        } else if !addr.loopback() && in_datacenter(ip@[0]) {
            Some(NetworkError::Handshake("datacenter ip"))
        } else {
            None
        },
    }
}

fn is_banned(banned: &Vec<[u8; 4]>, ip: &[u8; 4]) -> (r: bool)
    ensures
        r == banned@.contains(*ip),
{
    let mut i: usize = 0;
    while i < banned.len()
        invariant
            i <= banned@.len(),
            forall|j: int| 0 <= j < i ==> banned@[j] != *ip,
        decreases banned@.len() - i,
    {
        if same(&banned[i], ip) {
            assert(banned@[i as int] == *ip);
            return true;
        }
        i += 1;
    }
    false
}

/// Drops banned sockets, and datacenter ones unless they are local.
pub fn reject_socket(remote_addr: PeerAddr, local: &HandshakeConfig) -> (r: Result<
    (),
    NetworkError,
>)
    ensures
        match r {
            Ok(()) => socket_fault(remote_addr, local.banned_ipv4@) is None,
            Err(e) => socket_fault(remote_addr, local.banned_ipv4@) == Some(e),
        },
{
    match ipv4_octets(remote_addr) {
        Some(ip) => {
            if is_banned(&local.banned_ipv4, &ip) {
                return Err(NetworkError::Handshake("banned ip"));
            }
            if !is_loopback(remote_addr) && is_datacenter_ipv4(ip) {
                return Err(NetworkError::Handshake("datacenter ip"));
            }
        },
        None => {},
    }
    Ok(())
}

/// Why a quote does not belong to a key or is too weak, if so.
pub open spec fn attestation_fault(att: AttestationView, pk: Seq<u8>, min: u16) -> Option<
    NetworkError,
> {
    if att.miner != address_of(pk) {
        Some(NetworkError::Handshake("attestation/key mismatch"))
    } else {
        match att.fault() {
            Some(e) => Some(NetworkError::AntiBot(e)),
            None => if att.score().authenticity < min {
                Some(NetworkError::Handshake("weak hardware score"))
            } else {
                None
            },
        }
    }
}

/// Checks that a quote belongs to a key and scores high enough.
pub fn verify_attestation(
    att: &DeviceAttestation,
    pk: &LatticePublicKey,
    min_authenticity: u16,
) -> (r: Result<(), NetworkError>)
    ensures
        match r {
            Ok(()) => attestation_fault(att@, pk@, min_authenticity) is None,
            Err(e) => attestation_fault(att@, pk@, min_authenticity) == Some(e),
        },
{
    if !same(&att.miner, &pk.address()) {
        return Err(NetworkError::Handshake("attestation/key mismatch"));
    }
    match verify_hardware_authenticity(att) {
        Err(e) => Err(NetworkError::AntiBot(e)),
        Ok(score) => {
            if score.authenticity < min_authenticity {
                return Err(NetworkError::Handshake("weak hardware score"));
            }
            Ok(())
        },
    }
}

/// What both sides sign.
pub open spec fn transcript_of(
    client_nonce: Seq<u8>,
    server_nonce: Seq<u8>,
    client_id: Address,
    server_id: Address,
    noise_hash: Seq<u8>,
) -> [u8; 32] {
    sha256_of(
        encode_utf8("p2p-hs-v2"@) + client_nonce + server_nonce + client_id@ + server_id@
            + noise_hash,
    )
}

pub fn handshake_transcript(
    client_nonce: &[u8; 32],
    server_nonce: &[u8; 32],
    client_id: &Address,
    server_id: &Address,
    noise_hash: &[u8; 32],
) -> (r: [u8; 32])
    ensures
        r == transcript_of(client_nonce@, server_nonce@, *client_id, *server_id, noise_hash@),
{
    let mut buf: Vec<u8> = Vec::new();
    append(&mut buf, "p2p-hs-v2".as_bytes());
    append(&mut buf, client_nonce.as_slice());
    append(&mut buf, server_nonce.as_slice());
    append(&mut buf, client_id.as_slice());
    append(&mut buf, server_id.as_slice());
    append(&mut buf, noise_hash.as_slice());
    assert(buf@ =~= encode_utf8("p2p-hs-v2"@) + client_nonce@ + server_nonce@ + client_id@
        + server_id@ + noise_hash@);
    sha256(buf.as_slice())
}

/// A decoded HELLO or CHALLENGE.
#[derive(Debug)]
pub struct HelloMsg {
    pub role: PeerRole,
    pub class: DeviceClass,
    pub pk: LatticePublicKey,
    pub attestation: DeviceAttestation,
    pub nonce: [u8; 32],
}

/// The message as mathematical data.
#[verifier::ext_equal]
pub struct HelloView {
    pub role: PeerRole,
    pub class: DeviceClass,
    pub pk: Seq<u8>,
    pub attestation: AttestationView,
    pub nonce: Seq<u8>,
}

impl View for HelloMsg {
    type V = HelloView;

    open spec fn view(&self) -> HelloView {
        HelloView {
            role: self.role,
            class: self.class,
            pk: self.pk@,
            attestation: self.attestation@,
            nonce: self.nonce@,
        }
    }
}

impl HelloView {
    /// The message on the wire.
    pub open spec fn wire(self) -> Seq<u8> {
        seq![self.role.code(), self.class.code()] + sized(blob(SCHEME_MLDSA44, self.pk)) + sized(
            self.attestation.canonical() + self.attestation.quote@,
        ) + self.nonce
    }
}

/// What `local` presents with a nonce.
pub open spec fn presented(local: HandshakeConfig, nonce: Seq<u8>) -> HelloView {
    HelloView {
        role: local.role,
        class: local.class,
        pk: local.keys.public@,
        attestation: local.attestation@,
        nonce,
    }
}

pub fn encode_hello(local: &HandshakeConfig, client_nonce: &[u8; 32]) -> (r: Vec<u8>)
    ensures
        r@ == presented(*local, client_nonce@).wire(),
{
    let mut out: Vec<u8> = Vec::new();
    out.push(local.role.to_u8());
    out.push(local.class.to_u8());
    put_bytes(&mut out, local.keys.public.to_bytes().as_slice());
    put_bytes(&mut out, local.attestation.to_bytes().as_slice());
    append(&mut out, client_nonce.as_slice());
    assert(out@ =~= presented(*local, client_nonce@).wire());
    out
}

/// The CHALLENGE has the shape of a HELLO with the server's nonce.
pub fn encode_challenge(local: &HandshakeConfig, server_nonce: &[u8; 32]) -> (r: Vec<u8>)
    ensures
        r@ == presented(*local, server_nonce@).wire(),
{
    encode_hello(local, server_nonce)
}

/// The HELLO that `b` spells.
pub open spec fn parsed_hello(b: Seq<u8>) -> Result<HelloView, NetworkError> {
    if b.len() < 2 {
        Err(NetworkError::BadFrame)
    } else {
        match (PeerRole::decoded(b[0]), DeviceClass::decoded(b[1])) {
            (Some(role), Some(class)) => match sized_at(b, 2) {
                None => Err(NetworkError::BadFrame),
                Some((pk, o1)) => match sized_at(b, o1) {
                    None => Err(NetworkError::BadFrame),
                    Some((att, o2)) => if b.len() < o2 + 32 {
                        Err(NetworkError::BadFrame)
                    } else {
                        match blob_length(pk, 0, PK_LEN as int) {
                            Err(e) => Err(NetworkError::Crypto(e)),
                            Ok(_) => match parsed_attestation(att) {
                                None => Err(NetworkError::BadFrame),
                                Some((a, _)) => Ok(
                                    HelloView {
                                        role,
                                        class,
                                        pk: pk.subrange(5, 5 + PK_LEN as int),
                                        attestation: a,
                                        nonce: b.subrange(o2, o2 + 32),
                                    },
                                ),
                            },
                        }
                    },
                },
            },
            _ => Err(NetworkError::BadFrame),
        }
    }
}

pub fn decode_hello(bytes: &[u8]) -> (r: Result<HelloMsg, NetworkError>)
    ensures
        match r {
            Ok(m) => parsed_hello(bytes@) == Ok::<HelloView, NetworkError>(m@),
            Err(e) => parsed_hello(bytes@) == Err::<HelloView, NetworkError>(e),
        },
{
    if bytes.len() < 2 {
        return Err(NetworkError::BadFrame);
    }
    let role = match PeerRole::from_u8(bytes[0]) {
        Some(r) => r,
        None => {
            return Err(NetworkError::BadFrame);
        },
    };
    let class = match DeviceClass::from_u8(bytes[1]) {
        Some(c) => c,
        None => {
            return Err(NetworkError::BadFrame);
        },
    };
    let mut off: usize = 2;
    let pk_bytes = match take_bytes(bytes, &mut off) {
        Ok(v) => v,
        Err(e) => {
            return Err(e);
        },
    };
    let att_bytes = match take_bytes(bytes, &mut off) {
        Ok(v) => v,
        Err(e) => {
            return Err(e);
        },
    };
    if bytes.len() - off < 32 {
        return Err(NetworkError::BadFrame);
    }
    let nonce = array32(bytes, off);
    let pk = match LatticePublicKey::from_bytes(pk_bytes.as_slice()) {
        Ok(k) => k,
        Err(e) => {
            return Err(NetworkError::Crypto(e));
        },
    };
    let attestation = match DeviceAttestation::from_bytes(att_bytes.as_slice()) {
        Ok((a, _n)) => a,
        Err(_) => {
            return Err(NetworkError::BadFrame);
        },
    };
    Ok(HelloMsg { role, class, pk, attestation, nonce })
}

pub fn decode_challenge(bytes: &[u8]) -> (r: Result<HelloMsg, NetworkError>)
    ensures
        match r {
            Ok(m) => parsed_hello(bytes@) == Ok::<HelloView, NetworkError>(m@),
            Err(e) => parsed_hello(bytes@) == Err::<HelloView, NetworkError>(e),
        },
{
    decode_hello(bytes)
}

/// Opens the handshake: the nonce and the HELLO payload to send.
pub fn initiator_start(local: &HandshakeConfig) -> (r: ([u8; 32], Vec<u8>))
    ensures
        r.1@ == presented(*local, r.0@).wire(),
{
    let nonce = os_random_seed();
    let hello = encode_hello(local, &nonce);
    (nonce, hello)
}

/// What an initiator keeps between the CHALLENGE and the ACK.
#[derive(Debug)]
pub struct PendingAck {
    pub challenge: HelloMsg,
    pub transcript: [u8; 32],
}

/// The transcript on the initiator's side.
pub open spec fn initiator_transcript(
    local: HandshakeConfig,
    client_nonce: Seq<u8>,
    ch: HelloView,
    noise_hash: Seq<u8>,
) -> [u8; 32] {
    transcript_of(
        client_nonce,
        ch.nonce,
        address_of(local.keys.public@),
        address_of(ch.pk),
        noise_hash,
    )
}

/// Why the answer to a HELLO ends the handshake, if it does.
pub open spec fn challenge_fault(kind: u8, payload: Seq<u8>, min: u16) -> Option<NetworkError> {
    if kind == KIND_REJECT {
        Some(NetworkError::Handshake("remote rejected hello"))
    } else if kind != KIND_CHALLENGE {
        Some(NetworkError::BadFrame)
    } else {
        match parsed_hello(payload) {
            Err(e) => Some(e),
            Ok(ch) => attestation_fault(ch.attestation, ch.pk, min),
        }
    }
}

/// What a failed signature is reported as.
pub open spec fn signing_fault(sk: Seq<u8>) -> NetworkError {
    NetworkError::Crypto(
        if secret_usable(sk) {
            CryptoError::SigningAborted(1)
        } else {
            CryptoError::InvalidEncoding
        },
    )
}

/// Initiator, on the answer to its HELLO: what to remember, and the AUTH payload.
pub fn initiator_on_challenge(
    local: &HandshakeConfig,
    client_nonce: &[u8; 32],
    noise_hash: &[u8; 32],
    kind: u8,
    payload: &[u8],
) -> (r: Result<(PendingAck, Vec<u8>), NetworkError>)
    ensures
        match r {
            Ok((pending, auth)) => {
                &&& challenge_fault(kind, payload@, local.min_authenticity) is None
                &&& parsed_hello(payload@) == Ok::<HelloView, NetworkError>(pending.challenge@)
                &&& pending.transcript == initiator_transcript(
                    *local,
                    client_nonce@,
                    pending.challenge@,
                    noise_hash@,
                )
                &&& exists|sig: Seq<u8>|
                    sig.len() == SIG_LEN && auth@ == #[trigger] blob(SCHEME_MLDSA44, sig) && (
                    keys_match(local.keys.public@, local.keys.secret@) ==> signature_accepted(
                        local.keys.public@,
                        pending.transcript@,
                        sig,
                    ))
            },
            Err(e) => match challenge_fault(kind, payload@, local.min_authenticity) {
                Some(f) => e == f,
                None => e == signing_fault(local.keys.secret@),
            },
        },
{
    if kind == KIND_REJECT {
        return Err(NetworkError::Handshake("remote rejected hello"));
    }
    if kind != KIND_CHALLENGE {
        return Err(NetworkError::BadFrame);
    }
    let ch = match decode_challenge(payload) {
        Ok(m) => m,
        Err(e) => {
            return Err(e);
        },
    };
    match verify_attestation(&ch.attestation, &ch.pk, local.min_authenticity) {
        Ok(()) => {},
        Err(e) => {
            return Err(e);
        },
    }
    let transcript = handshake_transcript(
        client_nonce,
        &ch.nonce,
        &local.keys.public.address(),
        &ch.pk.address(),
        noise_hash,
    );
    match local.keys.sign(transcript.as_slice()) {
        Ok(sig) => {
            let auth = sig.to_bytes();
            assert(auth@ == blob(SCHEME_MLDSA44, sig@));
            Ok((PendingAck { challenge: ch, transcript }, auth))
        },
        Err(e) => Err(NetworkError::Crypto(e)),
    }
}

/// The contact that a finished handshake stands for.
pub open spec fn contact_of(m: HelloView, addr: PeerAddr, now: u64) -> PeerView {
    PeerView {
        id: address_of(m.pk),
        overlay_id: overlay_of(address_of(m.pk)),
        public_key: m.pk,
        addr,
        role: m.role,
        class: m.class,
        reputation: m.attestation.score().authenticity as i32,
        state: ConnectionState::Live,
        last_seen: now,
    }
}

/// What a finished handshake gives.
pub open spec fn finished(m: HelloView, addr: PeerAddr, now: u64) -> Result<
    (PeerView, ScoreView),
    NetworkError,
> {
    match m.attestation.fault() {
        Some(e) => Err(NetworkError::AntiBot(e)),
        None => Ok((contact_of(m, addr, now), m.attestation.score())),
    }
}

fn info_from(m: HelloMsg, addr: PeerAddr, now: u64) -> (r: Result<PeerInfo, NetworkError>)
    ensures
        match r {
            Ok(info) => finished(m@, addr, now) == Ok::<(PeerView, ScoreView), NetworkError>(
                (info.peer@, info.score@),
            ),
            Err(e) => finished(m@, addr, now) == Err::<(PeerView, ScoreView), NetworkError>(e),
        },
{
    match verify_hardware_authenticity(&m.attestation) {
        Err(e) => Err(NetworkError::AntiBot(e)),
        Ok(score) => {
            let peer = Peer {
                id: m.pk.address(),
                overlay_id: NodeOverlayId::from_pubkey(&m.pk),
                public_key: m.pk,
                addr,
                role: m.role,
                class: m.class,
                reputation: score.authenticity as i32,
                state: ConnectionState::Live,
                last_seen: now,
            };
            assert(peer@ =~= contact_of(m@, addr, now));
            Ok(PeerInfo { peer, score })
        },
    }
}

/// Why the last frame of the responder ends the handshake, if it does.
pub open spec fn ack_fault(ch: HelloView, transcript: Seq<u8>, kind: u8, payload: Seq<u8>) -> Option<
    NetworkError,
> {
    if kind != KIND_ACK {
        Some(NetworkError::Handshake("missing ack"))
    } else {
        match blob_length(payload, 0, SIG_LEN as int) {
            Err(e) => Some(NetworkError::Crypto(e)),
            Ok(_) => if !signature_accepted(
                ch.pk,
                transcript,
                payload.subrange(5, 5 + SIG_LEN as int),
            ) {
                Some(NetworkError::Handshake("server Dilithium auth failed"))
            } else {
                None
            },
        }
    }
}

/// Initiator, on the ACK: the authenticated peer.
pub fn initiator_on_ack(pending: PendingAck, kind: u8, payload: &[u8], addr: PeerAddr, now: u64) -> (r:
    Result<PeerInfo, NetworkError>)
    ensures
        match r {
            Ok(info) => {
                &&& ack_fault(pending.challenge@, pending.transcript@, kind, payload@) is None
                &&& finished(pending.challenge@, addr, now) == Ok::<
                    (PeerView, ScoreView),
                    NetworkError,
                >((info.peer@, info.score@))
            },
            Err(e) => match ack_fault(pending.challenge@, pending.transcript@, kind, payload@) {
                Some(f) => e == f,
                None => finished(pending.challenge@, addr, now) == Err::<
                    (PeerView, ScoreView),
                    NetworkError,
                >(e),
            },
        },
{
    if kind != KIND_ACK {
        return Err(NetworkError::Handshake("missing ack"));
    }
    let ack_sig = match LatticeSignature::from_bytes(payload) {
        Ok(s) => s,
        Err(e) => {
            return Err(NetworkError::Crypto(e));
        },
    };
    if !pending.challenge.pk.verify(pending.transcript.as_slice(), &ack_sig) {
        return Err(NetworkError::Handshake("server Dilithium auth failed"));
    }
    info_from(pending.challenge, addr, now)
}

/// A refusal by the responder: the error, and the byte of the REJECT frame to send
/// before closing, where one is sent.
#[derive(Clone, Copy, Debug)]
pub struct Refusal {
    pub error: NetworkError,
    pub reject: Option<u8>,
}

/// Why the first frame of the initiator is refused, if it is.
pub open spec fn hello_refusal(kind: u8, payload: Seq<u8>, min: u16) -> Option<Refusal> {
    if kind != KIND_HELLO {
        Some(Refusal { error: NetworkError::Handshake("expected hello"), reject: Some(1) })
    } else {
        match parsed_hello(payload) {
            Err(e) => Some(Refusal { error: e, reject: None }),
            Ok(m) => match attestation_fault(m.attestation, m.pk, min) {
                Some(e) => Some(Refusal { error: e, reject: Some(2) }),
                None => None,
            },
        }
    }
}

/// Responder, on the first frame.
pub fn responder_on_hello(local: &HandshakeConfig, kind: u8, payload: &[u8]) -> (r: Result<
    HelloMsg,
    Refusal,
>)
    ensures
        match r {
            Ok(m) => {
                &&& hello_refusal(kind, payload@, local.min_authenticity) is None
                &&& parsed_hello(payload@) == Ok::<HelloView, NetworkError>(m@)
            },
            Err(f) => hello_refusal(kind, payload@, local.min_authenticity) == Some(f),
        },
{
    if kind != KIND_HELLO {
        return Err(
            Refusal { error: NetworkError::Handshake("expected hello"), reject: Some(1) },
        );
    }
    match decode_hello(payload) {
        Err(e) => Err(Refusal { error: e, reject: None }),
        Ok(hello) => match verify_attestation(
            &hello.attestation,
            &hello.pk,
            local.min_authenticity,
        ) {
            Err(e) => Err(Refusal { error: e, reject: Some(2) }),
            Ok(()) => Ok(hello),
        },
    }
}

/// Responder: the server's nonce and the CHALLENGE payload to send.
pub fn responder_challenge(local: &HandshakeConfig) -> (r: ([u8; 32], Vec<u8>))
    ensures
        r.1@ == presented(*local, r.0@).wire(),
{
    let nonce = os_random_seed();
    let payload = encode_challenge(local, &nonce);
    (nonce, payload)
}

/// The transcript on the responder's side.
pub open spec fn responder_transcript(
    local: HandshakeConfig,
    hello: HelloView,
    server_nonce: Seq<u8>,
    noise_hash: Seq<u8>,
) -> [u8; 32] {
    transcript_of(
        hello.nonce,
        server_nonce,
        address_of(hello.pk),
        address_of(local.keys.public@),
        noise_hash,
    )
}

/// Why the AUTH frame is refused, if it is.
pub open spec fn auth_refusal(hello: HelloView, transcript: Seq<u8>, kind: u8, payload: Seq<u8>) -> Option<
    Refusal,
> {
    if kind != KIND_AUTH {
        Some(Refusal { error: NetworkError::Handshake("expected auth"), reject: Some(3) })
    } else {
        match blob_length(payload, 0, SIG_LEN as int) {
            Err(e) => Some(Refusal { error: NetworkError::Crypto(e), reject: None }),
            Ok(_) => if !signature_accepted(
                hello.pk,
                transcript,
                payload.subrange(5, 5 + SIG_LEN as int),
            ) {
                Some(
                    Refusal {
                        error: NetworkError::Handshake("client Dilithium auth failed"),
                        reject: Some(4),
                    },
                )
            } else {
                None
            },
        }
    }
}

/// Responder, on the AUTH frame: the ACK payload to send.
pub fn responder_on_auth(
    local: &HandshakeConfig,
    hello: &HelloMsg,
    server_nonce: &[u8; 32],
    noise_hash: &[u8; 32],
    kind: u8,
    payload: &[u8],
) -> (r: Result<Vec<u8>, Refusal>)
    ensures
        ({
            let transcript = responder_transcript(*local, hello@, server_nonce@, noise_hash@)@;
            match r {
                Ok(ack) => {
                    &&& auth_refusal(hello@, transcript, kind, payload@) is None
                    &&& exists|sig: Seq<u8>|
                        sig.len() == SIG_LEN && ack@ == #[trigger] blob(SCHEME_MLDSA44, sig) && (
                        keys_match(local.keys.public@, local.keys.secret@) ==> signature_accepted(
                            local.keys.public@,
                            transcript,
                            sig,
                        ))
                },
                Err(f) => match auth_refusal(hello@, transcript, kind, payload@) {
                    Some(g) => f == g,
                    None => f == (Refusal {
                        error: signing_fault(local.keys.secret@),
                        reject: None,
                    }),
                },
            }
        }),
{
    if kind != KIND_AUTH {
        return Err(Refusal { error: NetworkError::Handshake("expected auth"), reject: Some(3) });
    }
    let sig = match LatticeSignature::from_bytes(payload) {
        Ok(s) => s,
        Err(e) => {
            return Err(Refusal { error: NetworkError::Crypto(e), reject: None });
        },
    };
    let transcript = handshake_transcript(
        &hello.nonce,
        server_nonce,
        &hello.pk.address(),
        &local.keys.public.address(),
        noise_hash,
    );
    if !hello.pk.verify(transcript.as_slice(), &sig) {
        return Err(
            Refusal {
                error: NetworkError::Handshake("client Dilithium auth failed"),
                reject: Some(4),
            },
        );
    }
    match local.keys.sign(transcript.as_slice()) {
        Ok(ack) => {
            let out = ack.to_bytes();
            assert(out@ == blob(SCHEME_MLDSA44, ack@));
            Ok(out)
        },
        Err(e) => Err(Refusal { error: NetworkError::Crypto(e), reject: None }),
    }
}

/// Responder, after its ACK: the authenticated peer.
pub fn responder_finish(hello: HelloMsg, addr: PeerAddr, now: u64) -> (r: Result<
    PeerInfo,
    NetworkError,
>)
    ensures
        match r {
            Ok(info) => finished(hello@, addr, now) == Ok::<(PeerView, ScoreView), NetworkError>(
                (info.peer@, info.score@),
            ),
            Err(e) => finished(hello@, addr, now) == Err::<(PeerView, ScoreView), NetworkError>(e),
        },
{
    info_from(hello, addr, now)
}

/// Decoding a HELLO gives back what was presented.
#[verifier::rlimit(60)]
#[verifier::spinoff_prover]
pub proof fn law_hello_round_trip(m: HelloView)
    requires
        sendable(m),
    ensures
        parsed_hello(m.wire()) == Ok::<HelloView, NetworkError>(m),
{
    let b = m.wire();
    let key = blob(SCHEME_MLDSA44, m.pk);
    let att = m.attestation.canonical() + m.attestation.quote@;
    law_envelope_round_trip(m.pk);
    law_attestation_round_trip(m.attestation);
    law_role_round_trip(m.role);
    crate::anti_bot::profile::law_device_class_round_trip(m.class);
    let head = seq![m.role.code(), m.class.code()];
    crate::bytes::lemma_le_bytes_len(m.pk.len(), 4);
    crate::anti_bot::attestation::lemma_quote_length(m.attestation);
    lemma_sized_reads_back(head, key, sized(att) + m.nonce);
    assert(b =~= head + sized(key) + (sized(att) + m.nonce));
    lemma_sized_reads_back(head + sized(key), att, m.nonce);
    assert(b =~= head + sized(key) + sized(att) + m.nonce);
    let o2 = (head + sized(key)).len() as int + sized(att).len();
    assert(b.subrange(o2, o2 + 32) =~= m.nonce);
}

/// The two sides of one exchange sign the same transcript.
pub proof fn law_transcripts_agree(
    client: HandshakeConfig,
    server: HandshakeConfig,
    client_nonce: Seq<u8>,
    server_nonce: Seq<u8>,
    noise_hash: Seq<u8>,
)
    ensures
        initiator_transcript(client, client_nonce, presented(server, server_nonce), noise_hash)
            == responder_transcript(
            server,
            presented(client, client_nonce),
            server_nonce,
            noise_hash,
        ),
{
}

/// A quote that belongs to another key never passes, on either side.
pub proof fn law_foreign_quote_is_refused(m: HelloView, min: u16, payload: Seq<u8>)
    requires
        parsed_hello(payload) == Ok::<HelloView, NetworkError>(m),
        m.attestation.miner != address_of(m.pk),
    ensures
        hello_refusal(KIND_HELLO, payload, min) is Some,
        challenge_fault(KIND_CHALLENGE, payload, min) is Some,
{
}

/// A presented message that the wire can carry: key and nonce have their lengths, and
/// every list of the quote fits its length byte.
pub open spec fn sendable(m: HelloView) -> bool {
    &&& m.pk.len() == PK_LEN
    &&& m.nonce.len() == 32
    &&& m.attestation.ipv4.len() == 4
    &&& m.attestation.lattice.len() <= 255
    &&& m.attestation.cache.len() <= 255
    &&& m.attestation.skew.len() <= 255
    &&& m.attestation.rtt.len() <= 255
}

/// Two devices whose quotes pass, and that sign with their own keys, finish the
/// handshake: no step refuses, and each side ends with the contact that the other one
/// presented.
pub proof fn law_handshake_completes(
    client: HandshakeConfig,
    server: HandshakeConfig,
    client_nonce: Seq<u8>,
    server_nonce: Seq<u8>,
    noise_hash: Seq<u8>,
    auth: Seq<u8>,
    ack: Seq<u8>,
    client_addr: PeerAddr,
    server_addr: PeerAddr,
    now: u64,
)
    requires
        sendable(presented(client, client_nonce)),
        sendable(presented(server, server_nonce)),
        attestation_fault(client.attestation@, client.keys.public@, server.min_authenticity)
            is None,
        attestation_fault(server.attestation@, server.keys.public@, client.min_authenticity)
            is None,
        auth.len() == SIG_LEN,
        ack.len() == SIG_LEN,
        ({
            let t = responder_transcript(
                server,
                presented(client, client_nonce),
                server_nonce,
                noise_hash,
            );
            signature_accepted(client.keys.public@, t@, auth) && signature_accepted(
                server.keys.public@,
                t@,
                ack,
            )
        }),
    ensures
        ({
            let hello = presented(client, client_nonce);
            let challenge = presented(server, server_nonce);
            let seen = initiator_transcript(client, client_nonce, challenge, noise_hash);
            let told = responder_transcript(server, hello, server_nonce, noise_hash);
            &&& hello_refusal(KIND_HELLO, hello.wire(), server.min_authenticity) is None
            &&& parsed_hello(hello.wire()) == Ok::<HelloView, NetworkError>(hello)
            &&& challenge_fault(KIND_CHALLENGE, challenge.wire(), client.min_authenticity) is None
            &&& parsed_hello(challenge.wire()) == Ok::<HelloView, NetworkError>(challenge)
            &&& auth_refusal(hello, told@, KIND_AUTH, blob(SCHEME_MLDSA44, auth)) is None
            &&& ack_fault(challenge, seen@, KIND_ACK, blob(SCHEME_MLDSA44, ack)) is None
            &&& finished(hello, client_addr, now) == Ok::<(PeerView, ScoreView), NetworkError>(
                (contact_of(hello, client_addr, now), client.attestation@.score()),
            )
            &&& finished(challenge, server_addr, now) == Ok::<(PeerView, ScoreView), NetworkError>(
                (contact_of(challenge, server_addr, now), server.attestation@.score()),
            )
        }),
{
    law_hello_round_trip(presented(client, client_nonce));
    law_hello_round_trip(presented(server, server_nonce));
    law_envelope_round_trip(auth);
    law_envelope_round_trip(ack);
    law_transcripts_agree(client, server, client_nonce, server_nonce, noise_hash);
}

/// A signature that does not verify ends the handshake on either side, whatever else
/// was right.
pub proof fn law_impostor_is_refused(m: HelloView, transcript: Seq<u8>, sig: Seq<u8>)
    requires
        sig.len() == SIG_LEN,
        !signature_accepted(m.pk, transcript, sig),
    ensures
        auth_refusal(m, transcript, KIND_AUTH, blob(SCHEME_MLDSA44, sig)) is Some,
        ack_fault(m, transcript, KIND_ACK, blob(SCHEME_MLDSA44, sig)) is Some,
{
    law_envelope_round_trip(sig);
}

} // verus!
