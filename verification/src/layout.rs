//! Where each field stands on the wire and in the files.

use vstd::prelude::*;
use vstd::utf8::encode_utf8;

use crate::anti_bot::attestation::AttestationView;
use crate::anti_bot::profile::DeviceClass;
use crate::bytes::{le_bytes, lemma_le_bytes_len};
use crate::crypto::hash::sha256_of;
use crate::crypto::lattice::{address_of, blob, PK_LEN, SIG_LEN};
use crate::dag::tx::{TxHash, TxView};
use crate::p2p::discovery::{beacon_bytes, BeaconView};
use crate::p2p::frame::framed;
use crate::p2p::gossip::id_list;
use crate::p2p::handshake::HelloView;
use crate::p2p::mesh::{hash_list, inventory_bytes, mesh_framed, wire_bytes, wire_kind, InventoryView,
    MeshRole, WireView};
use crate::p2p::peer::PeerRole;
use crate::p2p::wire::mesh_bytes;
use crate::persist::{record_bytes, snapshot_bytes, SnapshotView, SNAP_MAGIC, WAL_MAGIC};
use crate::text::fitted;

verus! {

/// Numbers stand with their lowest byte first.
pub proof fn law_lowest_byte_first(x: u64)
    ensures
        le_bytes(x as nat, 8).len() == 8,
        le_bytes(x as nat, 8)[0] == x % 256,
        le_bytes(x as nat, 8)[1] == x / 256 % 256,
        le_bytes(x as nat, 8)[2] == x / 65_536 % 256,
        le_bytes(x as nat, 8)[3] == x / 16_777_216 % 256,
        le_bytes(x as nat, 8)[4] == x / 4_294_967_296 % 256,
        x < 4_294_967_296 ==> le_bytes(x as nat, 8).take(4) == le_bytes(x as nat, 4),
        x < 65_536 ==> le_bytes(x as nat, 8).take(2) == le_bytes(x as nat, 2),
{
    broadcast use lemma_le_bytes_len;

    reveal_with_fuel(le_bytes, 9);
    let n = x as nat;
    let b = le_bytes(n, 8);
    assert(n / 256 / 256 == n / 65_536);
    assert(n / 65_536 / 256 == n / 16_777_216);
    assert(n / 16_777_216 / 256 == n / 4_294_967_296);
    assert(b[0] == n % 256);
    assert(b[1] == le_bytes(n / 256, 7)[0]);
    assert(b[2] == le_bytes(n / 256, 7)[1] && b[2] == le_bytes(n / 65_536, 6)[0]);
    assert(b[3] == le_bytes(n / 256, 7)[2] && le_bytes(n / 256, 7)[2] == le_bytes(n / 65_536, 6)[1]
        && le_bytes(n / 65_536, 6)[1] == le_bytes(n / 16_777_216, 5)[0]);
    assert(b[4] == le_bytes(n / 256, 7)[3] && le_bytes(n / 256, 7)[3] == le_bytes(n / 65_536, 6)[2]
        && le_bytes(n / 65_536, 6)[2] == le_bytes(n / 16_777_216, 5)[1] && le_bytes(
        n / 16_777_216,
        5,
    )[1] == le_bytes(n / 4_294_967_296, 4)[0]);
    lemma_low_bytes(n, 8, 4);
    lemma_low_bytes(n, 8, 2);
}

proof fn lemma_low_bytes(x: nat, n: nat, k: nat)
    requires
        k <= n,
    ensures
        le_bytes(x, n).len() == n,
        le_bytes(x, n).take(k as int) == le_bytes(x, k),
    decreases k,
{
    broadcast use lemma_le_bytes_len;

    if k == 0 {
        assert(le_bytes(x, n).take(0) =~= le_bytes(x, 0));
    } else {
        lemma_low_bytes(x / 256, (n - 1) as nat, (k - 1) as nat);
        let t = le_bytes(x / 256, (n - 1) as nat);
        assert((seq![(x % 256) as u8] + t).take(k as int) =~= seq![(x % 256) as u8] + t.take(k - 1));
    }
}

/// A key and a signature stand behind the number of their scheme, which is two, and their length.
pub proof fn law_envelope_layout(raw: Seq<u8>)
    ensures
        ({
            let b = blob(crate::crypto::lattice::SCHEME_MLDSA44, raw);
            &&& b.len() == 5 + raw.len()
            &&& b[0] == 2
            &&& b.subrange(1, 5) == le_bytes(raw.len(), 4)
            &&& b.skip(5) == raw
        }),
{
    broadcast use lemma_le_bytes_len;

    let b = blob(crate::crypto::lattice::SCHEME_MLDSA44, raw);
    assert(b.subrange(1, 5) =~= le_bytes(raw.len(), 4));
    assert(b.skip(5) =~= raw);
}

/// What is signed of a transfer: the parents, sender and recipient in 32 bytes each, amount, fee
/// and nonce in eight bytes each, and the key.
pub proof fn law_signed_layout(t: TxView)
    ensures
        ({
            let b = t.unsigned();
            &&& b.len() == 157 + t.public_key.len()
            &&& b.subrange(0, 32) == t.parent_1@
            &&& b.subrange(32, 64) == t.parent_2@
            &&& b.subrange(64, 96) == t.sender@
            &&& b.subrange(96, 128) == t.recipient@
            &&& b.subrange(128, 136) == le_bytes(t.amount as nat, 8)
            &&& b.subrange(136, 144) == le_bytes(t.fee as nat, 8)
            &&& b.subrange(144, 152) == le_bytes(t.nonce as nat, 8)
            &&& b[152] == 2
            &&& b.subrange(153, 157) == le_bytes(t.public_key.len(), 4)
            &&& b.skip(157) == t.public_key
        }),
{
    broadcast use lemma_le_bytes_len;

    let b = t.unsigned();
    assert(b.subrange(0, 32) =~= t.parent_1@);
    assert(b.subrange(32, 64) =~= t.parent_2@);
    assert(b.subrange(64, 96) =~= t.sender@);
    assert(b.subrange(96, 128) =~= t.recipient@);
    assert(b.subrange(128, 136) =~= le_bytes(t.amount as nat, 8));
    assert(b.subrange(136, 144) =~= le_bytes(t.fee as nat, 8));
    assert(b.subrange(144, 152) =~= le_bytes(t.nonce as nat, 8));
    assert(b.subrange(153, 157) =~= le_bytes(t.public_key.len(), 4));
    assert(b.skip(157) =~= t.public_key);
}

/// A transfer that nobody carried yet, on the wire: what is signed, the length of the signature's
/// envelope, the envelope, and eight zero bytes for two empty lists.
pub proof fn law_transfer_layout(t: TxView)
    requires
        t.relay_nodes.len() == 0,
        t.relay_proofs.len() == 0,
        t.public_key.len() == PK_LEN,
        t.signature.len() == SIG_LEN,
    ensures
        ({
            let b = t.canonical();
            let n = t.unsigned().len() as int;
            &&& b.len() == n + 4 + 5 + 2_420 + 8
            &&& b.take(n) == t.unsigned()
            &&& b.subrange(n, n + 4) == le_bytes(2_425, 4)
            &&& b[n + 4] == 2
            &&& b.subrange(n + 5, n + 9) == le_bytes(2_420, 4)
            &&& b.subrange(n + 9, n + 9 + 2_420) == t.signature
            &&& b.skip(n + 9 + 2_420) == seq![0u8, 0, 0, 0, 0, 0, 0, 0]
        }),
{
    broadcast use lemma_le_bytes_len;

    let b = t.canonical();
    let n = t.unsigned().len() as int;
    reveal_with_fuel(le_bytes, 5);
    assert(le_bytes(0, 4) =~= seq![0u8, 0, 0, 0]);
    assert(crate::dag::tx::join_addresses(t.relay_nodes) =~= Seq::<u8>::empty());
    assert(crate::dag::tx::join_proofs(t.relay_proofs) =~= Seq::<u8>::empty());
    assert(b.take(n) =~= t.unsigned());
    assert(b.subrange(n, n + 4) =~= le_bytes(2_425, 4));
    assert(b.subrange(n + 5, n + 9) =~= le_bytes(2_420, 4));
    assert(b.subrange(n + 9, n + 9 + 2_420) =~= t.signature);
    assert(b.skip(n + 9 + 2_420) =~= seq![0u8, 0, 0, 0, 0, 0, 0, 0]);
}

/// An address is the digest of its key in its envelope, and an id the digest of what is signed.
pub proof fn law_what_addresses_and_ids_are(pk: Seq<u8>, t: TxView)
    ensures
        address_of(pk) == sha256_of(seq![2u8] + le_bytes(pk.len(), 4) + pk),
        t.proper_id() == sha256_of(t.unsigned()),
{
}

/// A record in a file: four letters, the version, the length of the body, the body, and its
/// digest. The letters are `KRDW` in the log and `KRDS` in a snapshot.
pub proof fn law_record_layout(magic: Seq<u8>, body: Seq<u8>)
    requires
        magic.len() == 4,
    ensures
        ({
            let b = record_bytes(magic, body);
            let n = body.len() as int;
            &&& b.len() == 9 + n + 32
            &&& b.take(4) == magic
            &&& b[4] == 1
            &&& b.subrange(5, 9) == le_bytes(body.len(), 4)
            &&& b.subrange(9, 9 + n) == body
            &&& b.skip(9 + n) == sha256_of(body)@
        }),
        WAL_MAGIC@ =~= seq![75u8, 82, 68, 87],
        SNAP_MAGIC@ =~= seq![75u8, 82, 68, 83],
{
    broadcast use lemma_le_bytes_len;

    let b = record_bytes(magic, body);
    let n = body.len() as int;
    assert(b.take(4) =~= magic);
    assert(b.subrange(5, 9) =~= le_bytes(body.len(), 4));
    assert(b.subrange(9, 9 + n) =~= body);
    assert(b.skip(9 + n) =~= sha256_of(body)@);
}

/// A snapshot begins with supply, transfers and vertices, in eight bytes each, and then counts
/// its accounts.
pub proof fn law_snapshot_layout(s: SnapshotView)
    ensures
        ({
            let b = snapshot_bytes(s);
            &&& b.len() >= 28
            &&& b.subrange(0, 8) == le_bytes(s.supply as nat, 8)
            &&& b.subrange(8, 16) == le_bytes(s.dag_tx_count as nat, 8)
            &&& b.subrange(16, 24) == le_bytes(s.vertex_count as nat, 8)
            &&& b.subrange(24, 28) == le_bytes(s.accounts.dom().len(), 4)
        }),
{
    broadcast use lemma_le_bytes_len;

    let b = snapshot_bytes(s);
    assert(b.subrange(0, 8) =~= le_bytes(s.supply as nat, 8));
    assert(b.subrange(8, 16) =~= le_bytes(s.dag_tx_count as nat, 8));
    assert(b.subrange(16, 24) =~= le_bytes(s.vertex_count as nat, 8));
    assert(b.subrange(24, 28) =~= le_bytes(s.accounts.dom().len(), 4));
}

/// A frame: the letters `NBCH` of a session or `KRMS` of the mesh, the version, the kind, the
/// length of the payload, and the payload.
pub proof fn law_frame_layout(kind: u8, payload: Seq<u8>)
    ensures
        ({
            let b = framed(kind, payload);
            let m = mesh_framed(kind, payload);
            &&& b.len() == 10 + payload.len() && m.len() == 10 + payload.len()
            &&& b.take(4) == seq![78u8, 66, 67, 72]
            &&& m.take(4) == seq![75u8, 82, 77, 83]
            &&& b[4] == 1 && m[4] == 1
            &&& b[5] == kind && m[5] == kind
            &&& b.subrange(6, 10) == le_bytes(payload.len(), 4)
            &&& m.subrange(6, 10) == le_bytes(payload.len(), 4)
            &&& b.skip(10) == payload
            &&& m.skip(10) == payload
        }),
{
    broadcast use lemma_le_bytes_len;

    let b = framed(kind, payload);
    let m = mesh_framed(kind, payload);
    assert(b.take(4) =~= seq![78u8, 66, 67, 72]);
    assert(m.take(4) =~= seq![75u8, 82, 77, 83]);
    assert(b.subrange(6, 10) =~= le_bytes(payload.len(), 4));
    assert(m.subrange(6, 10) =~= le_bytes(payload.len(), 4));
    assert(b.skip(10) =~= payload);
    assert(m.skip(10) =~= payload);
}

/// Lists of ids stand behind their count: in four bytes on the mesh and in two in a session. Id
/// `i` stands behind those before it.
pub proof fn law_list_layout(ids: Seq<TxHash>, i: int)
    requires
        0 <= i < ids.len(),
    ensures
        hash_list(ids).take(4) == le_bytes(ids.len(), 4),
        hash_list(ids).len() == 4 + 32 * ids.len(),
        hash_list(ids).subrange(4 + 32 * i, 36 + 32 * i) == ids[i]@,
        id_list(ids).take(2) == le_bytes(ids.len(), 2),
        id_list(ids).len() == 2 + 32 * ids.len(),
        id_list(ids).subrange(2 + 32 * i, 34 + 32 * i) == ids[i]@,
{
    broadcast use lemma_le_bytes_len;

    let j = crate::dag::tx::join_addresses(ids);
    lemma_joined(ids, i);
    assert(hash_list(ids).take(4) =~= le_bytes(ids.len(), 4));
    assert(id_list(ids).take(2) =~= le_bytes(ids.len(), 2));
    assert(hash_list(ids).subrange(4 + 32 * i, 36 + 32 * i) =~= j.subrange(32 * i, 32 * i + 32));
    assert(id_list(ids).subrange(2 + 32 * i, 34 + 32 * i) =~= j.subrange(32 * i, 32 * i + 32));
}

proof fn lemma_joined(ids: Seq<TxHash>, i: int)
    requires
        0 <= i < ids.len(),
    ensures
        crate::dag::tx::join_addresses(ids).len() == 32 * ids.len(),
        crate::dag::tx::join_addresses(ids).subrange(32 * i, 32 * i + 32) == ids[i]@,
    decreases ids.len(),
{
    let j = crate::dag::tx::join_addresses(ids);
    let h = crate::dag::tx::join_addresses(ids.drop_last());
    crate::dag::tx::lemma_joined_len(ids);
    crate::dag::tx::lemma_joined_len(ids.drop_last());
    assert(j == h + ids.last()@);
    if i < ids.len() - 1 {
        lemma_joined(ids.drop_last(), i);
        assert(ids.drop_last()[i] == ids[i]);
        assert(j.subrange(32 * i, 32 * i + 32) =~= h.subrange(32 * i, 32 * i + 32));
    } else {
        assert(j.subrange(32 * i, 32 * i + 32) =~= ids[i]@);
    }
}

/// The numbers of the mesh's messages, roles and classes.
pub proof fn law_numbers_on_the_wire(inv: InventoryView, ids: Seq<TxHash>, t: TxView, text: Seq<char>)
    ensures
        wire_kind(WireView::Hello { protocol: text, role: MeshRole::Hub }) == 1,
        wire_kind(WireView::Ping) == 2,
        wire_kind(WireView::Pong) == 3,
        wire_kind(WireView::Inventory(inv)) == 10,
        wire_kind(WireView::Have(ids)) == 11,
        wire_kind(WireView::Need(ids)) == 12,
        wire_kind(WireView::Vertex(t)) == 13,
        wire_kind(WireView::Done) == 14,
        MeshRole::Hub.code() == 0 && MeshRole::Wallet.code() == 1 && MeshRole::Test.code() == 2,
        PeerRole::CoreValidator.code() == 0 && PeerRole::EdgeMiner.code() == 1,
        DeviceClass::IotSensor.code() == 0 && DeviceClass::LegacyMobile.code() == 1
            && DeviceClass::PersonalComputer.code() == 2,
        wire_bytes(WireView::Vertex(t)) == t.canonical(),
        wire_bytes(WireView::Have(ids)) == hash_list(ids),
        wire_bytes(WireView::Need(ids)) == hash_list(ids),
        wire_bytes(WireView::Done).len() == 0,
        wire_bytes(WireView::Ping) == encode_utf8("kron-mesh/1"@),
        wire_bytes(WireView::Pong) == encode_utf8("kron-mesh/1"@),
        mesh_bytes(t) == seq![0u8] + le_bytes(t.canonical().len(), 4) + t.canonical(),
{
}

/// An inventory: the tips, the recent ids, whether a peer is named and which, and no credits.
pub proof fn law_inventory_layout(inv: InventoryView)
    ensures
        ({
            let b = inventory_bytes(inv);
            let n = hash_list(inv.tips).len() as int;
            let m = n + hash_list(inv.recent).len();
            &&& b.take(n) == hash_list(inv.tips)
            &&& b.subrange(n, m) == hash_list(inv.recent)
            &&& inv.peer_id matches Some(id) ==> b[m] == 1 && b.subrange(m + 1, m + 33) == id@
                && b.len() == m + 37
            &&& inv.peer_id is None ==> b[m] == 0 && b.len() == m + 5
            &&& b.skip(b.len() - 4) == seq![0u8, 0, 0, 0]
        }),
{
    broadcast use lemma_le_bytes_len;

    reveal_with_fuel(le_bytes, 5);
    assert(le_bytes(0, 4) =~= seq![0u8, 0, 0, 0]);
    let b = inventory_bytes(inv);
    let n = hash_list(inv.tips).len() as int;
    let m = n + hash_list(inv.recent).len();
    assert(b.take(n) =~= hash_list(inv.tips));
    assert(b.subrange(n, m) =~= hash_list(inv.recent));
    if inv.peer_id is Some {
        assert(b.subrange(m + 1, m + 33) =~= inv.peer_id->0@);
    }
    assert(b.skip(b.len() - 4) =~= seq![0u8, 0, 0, 0]);
}

/// A beacon: the letters `KRD1`, the version, the overlay id, the port, and the name behind its
/// length.
pub proof fn law_beacon_layout(b: BeaconView)
    requires
        b.overlay_id.len() == 16,
    ensures
        ({
            let w = beacon_bytes(b);
            let name = encode_utf8(
                fitted(b.kron1_prefix, crate::p2p::discovery::MAX_KRON1_PREFIX as int),
            );
            &&& w.len() == 24 + name.len()
            &&& w.take(4) == seq![75u8, 82, 68, 49]
            &&& w[4] == 1
            &&& w.subrange(5, 21) == b.overlay_id
            &&& w.subrange(21, 23) == le_bytes(b.p2p_port as nat, 2)
            &&& w[23] == name.len() as u8
            &&& w.skip(24) == name
        }),
{
    broadcast use lemma_le_bytes_len;

    let w = beacon_bytes(b);
    let name = encode_utf8(
        fitted(b.kron1_prefix, crate::p2p::discovery::MAX_KRON1_PREFIX as int),
    );
    assert(w.take(4) =~= seq![75u8, 82, 68, 49]);
    assert(w.subrange(5, 21) =~= b.overlay_id);
    assert(w.subrange(21, 23) =~= le_bytes(b.p2p_port as nat, 2));
    assert(w.skip(24) =~= name);
}

/// A greeting of a session: role, class, the key in its envelope and the quote, each behind its
/// length, and the nonce.
pub proof fn law_greeting_layout(m: HelloView)
    ensures
        ({
            let w = m.wire();
            let key = blob(crate::crypto::lattice::SCHEME_MLDSA44, m.pk);
            let quote = m.attestation.canonical() + m.attestation.quote@;
            let n = key.len() as int;
            let q = quote.len() as int;
            &&& w.len() == 10 + n + q + m.nonce.len()
            &&& w[0] == m.role.code()
            &&& w[1] == m.class.code()
            &&& w.subrange(2, 6) == le_bytes(key.len(), 4)
            &&& w.subrange(6, 6 + n) == key
            &&& w.subrange(6 + n, 10 + n) == le_bytes(quote.len(), 4)
            &&& w.subrange(10 + n, 10 + n + q) == quote
            &&& w.skip(10 + n + q) == m.nonce
        }),
{
    broadcast use lemma_le_bytes_len;

    let w = m.wire();
    let key = blob(crate::crypto::lattice::SCHEME_MLDSA44, m.pk);
    let quote = m.attestation.canonical() + m.attestation.quote@;
    let n = key.len() as int;
    let q = quote.len() as int;
    assert(w.subrange(2, 6) =~= le_bytes(key.len(), 4));
    assert(w.subrange(6, 6 + n) =~= key);
    assert(w.subrange(6 + n, 10 + n) =~= le_bytes(quote.len(), 4));
    assert(w.subrange(10 + n, 10 + n + q) =~= quote);
    assert(w.skip(10 + n + q) =~= m.nonce);
}

/// The measurements of a quote begin with the miner, the class, the cores and the clock, and end
/// with the duration. The seal is their digest under its domain.
pub proof fn law_quote_layout(a: AttestationView)
    ensures
        ({
            let b = a.canonical();
            &&& b.len() >= 47
            &&& b.take(32) == a.miner@
            &&& b[32] == a.class.code()
            &&& b.subrange(33, 35) == le_bytes(a.logical_cores as nat, 2)
            &&& b.subrange(35, 39) == le_bytes(a.advertised_mhz as nat, 4)
            &&& b.skip(b.len() - 8) == le_bytes(a.duration as nat, 8)
            &&& a.seal() == sha256_of(encode_utf8("tee-quote-v1"@) + b)
        }),
{
    broadcast use lemma_le_bytes_len;

    let b = a.canonical();
    assert(b.take(32) =~= a.miner@);
    assert(b.subrange(33, 35) =~= le_bytes(a.logical_cores as nat, 2));
    assert(b.subrange(35, 39) =~= le_bytes(a.advertised_mhz as nat, 4));
    assert(b.skip(b.len() - 8) =~= le_bytes(a.duration as nat, 8));
}

} // verus!
