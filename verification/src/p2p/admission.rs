//! Who is let in: sockets, quotes, signatures, beacons and what a hub answers.

use vstd::prelude::*;
use vstd::utf8::encode_utf8;

use crate::anti_bot::attestation::AttestationView;
use crate::crypto::hash::sha256_of;
use crate::crypto::lattice::{address_of, blob, law_envelope_round_trip, signature_accepted, SIG_LEN,
    SCHEME_MLDSA44};
use crate::dag::model::DagView;
use crate::dag::sync::{meeting_transcript, peer_fault};
use crate::dag::tx::{relay_message, TxHash, TxView};
use crate::p2p::discovery::{discovered, BeaconView, DiscoveryView};
use crate::p2p::handshake::{ack_fault, attestation_fault, auth_refusal, challenge_fault, finished,
    hello_refusal, parsed_hello, socket_fault, transcript_of, HandshakeConfig, HelloView};
use crate::p2p::mesh::{MeshRole, WireView};
use crate::p2p::overlay::overlay_of;
use crate::p2p::peer::{ConnectionState, PeerAddr};
use crate::p2p::session::{ServerView, SessionView};
use crate::types::Address;

verus! {

/// Which sockets are let in: every one but those of a banned address and those of a datacenter
/// prefix. An address of the host itself is in no such prefix.
pub proof fn law_which_sockets_are_let_in(addr: PeerAddr, banned: Seq<[u8; 4]>)
    ensures
        addr matches PeerAddr::V6 { .. } ==> socket_fault(addr, banned) is None,
        addr matches PeerAddr::V4 { ip, port } ==> {
            let o = ip@[0];
            socket_fault(addr, banned) is None <==> !banned.contains(ip) && o != 3 && o != 13 && o
                != 18 && o != 34 && o != 35 && o != 52 && o != 54 && o != 104
        },
{
}

/// When a quote admits a key: exactly where it was made for the address of the key, has no
/// fault, and scores what is asked for.
pub proof fn law_when_a_quote_admits(att: AttestationView, pk: Seq<u8>, min: u16)
    ensures
        attestation_fault(att, pk, min) is None <==> att.miner == address_of(pk) && att.fault() is None
            && att.score().authenticity >= min,
{
}

/// When a phone is let onto the short-range link: exactly where its quote was made for its key,
/// its endpoint is in no datacenter prefix, the quote has no fault and scores what is asked for.
pub proof fn law_when_a_phone_may_meet(h: HandshakeConfig)
    ensures
        peer_fault(h) is None <==> {
            let a = h.attestation@;
            let o = a.ipv4[0];
            &&& a.miner == address_of(h.keys.public@)
            &&& o != 3 && o != 13 && o != 18 && o != 34 && o != 35 && o != 52 && o != 54 && o
                != 104
            &&& a.fault() is None
            &&& a.score().authenticity >= h.min_authenticity
        },
{
}

/// A HELLO is taken, and a CHALLENGE answered, exactly where it reads and its quote admits its
/// key.
pub proof fn law_when_a_greeting_is_taken(payload: Seq<u8>, min: u16)
    ensures
        hello_refusal(1, payload, min) is None <==> parsed_hello(payload) is Ok
            && attestation_fault(
            parsed_hello(payload)->Ok_0.attestation,
            parsed_hello(payload)->Ok_0.pk,
            min,
        ) is None,
        challenge_fault(2, payload, min) is None <==> parsed_hello(payload) is Ok
            && attestation_fault(
            parsed_hello(payload)->Ok_0.attestation,
            parsed_hello(payload)->Ok_0.pk,
            min,
        ) is None,
        forall|kind: u8| kind != 1 ==> #[trigger] hello_refusal(kind, payload, min) is Some,
        forall|kind: u8| kind != 2 ==> #[trigger] challenge_fault(kind, payload, min) is Some,
{
}

/// A signature lets its sender in exactly where the presented key accepts it on the transcript,
/// on either side.
pub proof fn law_signature_decides(m: HelloView, transcript: Seq<u8>, sig: Seq<u8>)
    requires
        sig.len() == SIG_LEN,
    ensures
        auth_refusal(m, transcript, 3, blob(SCHEME_MLDSA44, sig)) is None <==> signature_accepted(
            m.pk,
            transcript,
            sig,
        ),
        ack_fault(m, transcript, 4, blob(SCHEME_MLDSA44, sig)) is None <==> signature_accepted(
            m.pk,
            transcript,
            sig,
        ),
        forall|kind: u8, b: Seq<u8>|
            kind != 3 ==> #[trigger] auth_refusal(m, transcript, kind, b) is Some,
        forall|kind: u8, b: Seq<u8>|
            kind != 4 ==> #[trigger] ack_fault(m, transcript, kind, b) is Some,
{
    law_envelope_round_trip(sig);
    let b = blob(SCHEME_MLDSA44, sig);
    assert(b.subrange(5, 5 + SIG_LEN as int) =~= sig);
}

/// The contact that a handshake ends with is the one that signed: its id and overlay id come from
/// the presented key, its address is that of the socket, and it is live as of now.
pub proof fn law_contact_is_who_signed(m: HelloView, addr: PeerAddr, now: u64)
    requires
        m.attestation.fault() is None,
    ensures
        ({
            let r = finished(m, addr, now);
            &&& r is Ok
            &&& r->Ok_0.0.id == address_of(m.pk)
            &&& r->Ok_0.0.overlay_id == overlay_of(address_of(m.pk))
            &&& r->Ok_0.0.public_key == m.pk
            &&& r->Ok_0.0.addr == addr
            &&& r->Ok_0.0.role == m.role
            &&& r->Ok_0.0.class == m.class
            &&& r->Ok_0.0.state == ConnectionState::Live
            &&& r->Ok_0.0.last_seen == now
            &&& r->Ok_0.0.reputation == m.attestation.score().authenticity
            &&& r->Ok_0.1 == m.attestation.score()
        }),
{
}

/// What both sides of a handshake sign covers both nonces, both addresses and the hash of the
/// tunnel: it is the hash of bytes that hold all five.
pub proof fn law_transcript_covers_the_exchange(
    client_nonce: Seq<u8>,
    server_nonce: Seq<u8>,
    client: Address,
    server: Address,
    tunnel: Seq<u8>,
)
    requires
        client_nonce.len() == 32,
        server_nonce.len() == 32,
        tunnel.len() == 32,
    ensures
        exists|x: Seq<u8>|
            {
                let n = x.len() - 160;
                &&& transcript_of(client_nonce, server_nonce, client, server, tunnel)
                    == #[trigger] sha256_of(x)
                &&& n >= 0
                &&& x.subrange(n, n + 32) == client_nonce
                &&& x.subrange(n + 32, n + 64) == server_nonce
                &&& x.subrange(n + 64, n + 96) == client@
                &&& x.subrange(n + 96, n + 128) == server@
                &&& x.subrange(n + 128, n + 160) == tunnel
            },
{
    let head = encode_utf8("p2p-hs-v2"@);
    let x = head + client_nonce + server_nonce + client@ + server@ + tunnel;
    let n = head.len() as int;
    assert(x.len() - 160 == n);
    assert(x.subrange(n, n + 32) =~= client_nonce);
    assert(x.subrange(n + 32, n + 64) =~= server_nonce);
    assert(x.subrange(n + 64, n + 96) =~= client@);
    assert(x.subrange(n + 96, n + 128) =~= server@);
    assert(x.subrange(n + 128, n + 160) =~= tunnel);
    assert(transcript_of(client_nonce, server_nonce, client, server, tunnel) == sha256_of(x));
}

/// What two phones that meet sign covers both addresses and both quotes.
pub proof fn law_meeting_covers_both(a: HandshakeConfig, b: HandshakeConfig)
    ensures
        exists|x: Seq<u8>|
            {
                let n = x.len() - 128;
                &&& meeting_transcript(a, b) == #[trigger] sha256_of(x)
                &&& n >= 0
                &&& x.subrange(n, n + 32) == address_of(a.keys.public@)@
                &&& x.subrange(n + 32, n + 64) == address_of(b.keys.public@)@
                &&& x.subrange(n + 64, n + 96) == a.attestation@.quote@
                &&& x.subrange(n + 96, n + 128) == b.attestation@.quote@
            },
{
    let head = encode_utf8("kron-offline-mesh-hs-v1"@);
    let p = address_of(a.keys.public@)@;
    let q = address_of(b.keys.public@)@;
    let u = a.attestation@.quote@;
    let v = b.attestation@.quote@;
    let x = head + p + q + u + v;
    let n = head.len() as int;
    assert(x.subrange(n, n + 32) =~= p);
    assert(x.subrange(n + 32, n + 64) =~= q);
    assert(x.subrange(n + 64, n + 96) =~= u);
    assert(x.subrange(n + 96, n + 128) =~= v);
    assert(meeting_transcript(a, b) == sha256_of(x));
}

/// What a carrier signs covers the transfer and the carrier's key.
pub proof fn law_carrier_message_covers_the_transfer(id: TxHash, pk: Seq<u8>)
    ensures
        exists|x: Seq<u8>|
            {
                let n = x.len() - pk.len();
                &&& relay_message(id, pk) == #[trigger] sha256_of(x)
                &&& n >= 37
                &&& x.subrange(n, x.len() as int) == pk
                &&& x.subrange(n - 37, n - 5) == id@
            },
{
    crate::bytes::lemma_le_bytes_len(pk.len(), 4);
    let head = encode_utf8("kron-relay-v1"@);
    let x = head + id@ + blob(SCHEME_MLDSA44, pk);
    let n = x.len() - pk.len();
    assert(blob(SCHEME_MLDSA44, pk).len() == 5 + pk.len());
    assert(x.subrange(n, x.len() as int) =~= pk);
    assert(x.subrange(n - 37, n - 5) =~= id@);
    assert(relay_message(id, pk) == sha256_of(x));
}

/// Which beacons lead somewhere: those of other nodes that come from an IPv4 address other than
/// the unspecified one, a multicast one and the broadcast one. They lead to the sender's address
/// at the announced port.
pub proof fn law_which_beacons_lead_somewhere(b: BeaconView, from: PeerAddr, local: Seq<u8>)
    ensures
        b.overlay_id == local ==> discovered(b, from, local) is None,
        from matches PeerAddr::V6 { .. } ==> discovered(b, from, local) is None,
        from matches PeerAddr::V4 { ip, port } ==> {
            let bad = (ip@[0] == 0 && ip@[1] == 0 && ip@[2] == 0 && ip@[3] == 0) || 224 <= ip@[0]
                <= 239 || (ip@[0] == 255 && ip@[1] == 255 && ip@[2] == 255 && ip@[3] == 255);
            &&& bad ==> discovered(b, from, local) is None
            &&& !bad && b.overlay_id != local ==> discovered(b, from, local) == Some(
                PeerAddr::V4 { ip, port: b.p2p_port },
            )
        },
{
}

/// A stranger's beacon is answered with a dial exactly where it leads somewhere, was not heard
/// before, and the node is not connected to its sender already; a first beacon is remembered.
pub proof fn law_when_a_beacon_is_answered(
    d: DiscoveryView,
    b: BeaconView,
    from: PeerAddr,
    connected: bool,
)
    ensures
        ({
            let (n, dial) = d.heard(b, from, connected);
            let leads = discovered(b, from, d.overlay) is Some;
            &&& dial <==> leads && !d.seen.contains(b.overlay_id) && !connected
            &&& leads ==> n.seen.contains(b.overlay_id)
            &&& forall|x: Seq<u8>| #[trigger] d.seen.contains(x) ==> n.seen.contains(x)
            &&& n.overlay == d.overlay
        }),
{
    let n = d.heard(b, from, connected).0;
    if discovered(b, from, d.overlay) is Some && !d.seen.contains(b.overlay_id) {
        assert(n.seen[d.seen.len() as int] == b.overlay_id);
        assert forall|x: Seq<u8>| #[trigger] d.seen.contains(x) implies n.seen.contains(x) by {
            let i = choose|i: int| 0 <= i < d.seen.len() && d.seen[i] == x;
            assert(n.seen[i] == x);
        }
    }
}

/// What a hub answers to a wallet that submits a transfer: Done where the graph takes it or has
/// it, an error where it refuses it. Either way the session is over.
pub proof fn law_wallet_is_told_the_truth(d: DagView, t: TxView)
    ensures
        ({
            let (s, after, r) = ServerView::Wallet.next(d, WireView::Vertex(t));
            &&& s is Finished
            &&& after == d.accepted(t).0
            &&& r is Ok <==> d.accepted(t).1 is Ok
            &&& r is Ok ==> r->Ok_0 == seq![WireView::Done]
            &&& r is Ok ==> after.graph.vertices.contains_key(t.id)
        }),
{
}

/// How a hub greets: a peer that greets in the protocol `kron-mesh/1` is greeted as a hub, a
/// wallet may then submit, and any other role synchronises; another protocol, or anything but a
/// greeting, ends the session.
pub proof fn law_how_a_hub_greets(d: DagView, m: WireView)
    ensures
        ({
            let (s, after, r) = ServerView::Greeting.next(d, m);
            &&& after == d
            &&& r is Ok <==> (m matches WireView::Hello { protocol, role } && protocol
                == "kron-mesh/1"@)
            &&& r is Ok ==> r->Ok_0 == seq![
                WireView::Hello { protocol: "kron-mesh/1"@, role: MeshRole::Hub },
            ]
            &&& r is Ok && m->role == MeshRole::Wallet ==> s is Wallet
            &&& r is Ok && m->role != MeshRole::Wallet ==> s == ServerView::Sync(
                SessionView::start(false),
            )
            &&& r is Err ==> s is Finished
        }),
{
}

} // verus!
