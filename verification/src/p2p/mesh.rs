//! Versioned mesh wire protocol (`kron-mesh/1`).
//!
//! Length-prefixed frames (magic `KRMS`). Peers exchange inventories, Have/Need hashes
//! and vertex bodies; no graph is shared. Noise sessions use the same listen port: the
//! first four bytes tell the two apart.

use vstd::prelude::*;
use vstd::utf8::encode_utf8;

use crate::bytes::{
    append, array32, get_u16, get_u32, le_bytes, le_value, lemma_le_bytes_len,
    lemma_le_value_of_bytes, lemma_pow256_values, put_le,
};
use crate::dag::reconciliation::{SyncInventory, MAX_INVENTORY_HASHES};
use crate::dag::tx::{
    array_of, is_wire_ready, join_addresses, law_canonical_round_trip, lemma_array_of,
    lemma_joined_address, lemma_joined_len, parsed_tx, DagTransaction, TxHash, TxView,
};
use crate::kron::bootstrap::{parse_socket, parsed_socket, PeerTarget, TargetView};
use crate::p2p::error::NetworkError;
use crate::p2p::frame::{sub_bytes, MAX_FRAME};
use crate::text::{begins_with, chars_of, copy_chars, lemma_text_round_trip, starts_with, text_from,
    text_from_bytes, text_of, trim, trimmed};
use crate::types::Address;

verus! {

/// Protocol name in Hello and Ping.
pub const PROTOCOL_KRON_MESH: &'static str = "kron-mesh/1";

/// `KRMS`.
pub const MESH_MAGIC: [u8; 4] = [0x4b, 0x52, 0x4d, 0x53];

pub const MESH_VERSION: u8 = 1;

pub const MK_HELLO: u8 = 1;

pub const MK_PING: u8 = 2;

pub const MK_PONG: u8 = 3;

pub const MK_SYNC_INV: u8 = 10;

pub const MK_HAVE: u8 = 11;

pub const MK_NEED: u8 = 12;

pub const MK_DAG_TX: u8 = 13;

pub const MK_DONE: u8 = 14;

/// Role on the mesh wire: hub replica, wallet submit, or in-process test.
#[derive(Clone, Copy, Debug, PartialEq, Eq, Structural)]
pub enum MeshRole {
    Hub,
    Wallet,
    Test,
}

impl MeshRole {
    /// The role's number on the wire.
    pub open spec fn code(self) -> u8 {
        match self {
            MeshRole::Hub => 0,
            MeshRole::Wallet => 1,
            MeshRole::Test => 2,
        }
    }

    /// The role with this number.
    pub open spec fn decoded(v: u8) -> Option<MeshRole> {
        if v == 0 {
            Some(MeshRole::Hub)
        } else if v == 1 {
            Some(MeshRole::Wallet)
        } else if v == 2 {
            Some(MeshRole::Test)
        } else {
            None
        }
    }

    pub fn to_u8(self) -> (r: u8)
        ensures
            r == self.code(),
    {
        match self {
            MeshRole::Hub => 0,
            MeshRole::Wallet => 1,
            MeshRole::Test => 2,
        }
    }

    pub fn from_u8(v: u8) -> (r: Option<Self>)
        ensures
            r == MeshRole::decoded(v),
    {
        match v {
            0 => Some(MeshRole::Hub),
            1 => Some(MeshRole::Wallet),
            2 => Some(MeshRole::Test),
            _ => None,
        }
    }
}

/// Versioned messages.
#[derive(Debug)]
pub enum MeshWireMessage {
    Hello { protocol: String, role: MeshRole },
    Ping,
    Pong,
    SyncInventory(SyncInventory),
    Have { ids: Vec<TxHash> },
    Need { ids: Vec<TxHash> },
    DagTransaction(DagTransaction),
    Done,
}

/// An inventory as mathematical data.
#[verifier::ext_equal]
pub struct InventoryView {
    pub tips: Seq<TxHash>,
    pub recent: Seq<TxHash>,
    pub peer_id: Option<Address>,
}

/// A message as mathematical data.
#[verifier::ext_equal]
pub enum WireView {
    Hello { protocol: Seq<char>, role: MeshRole },
    Ping,
    Pong,
    Inventory(InventoryView),
    Have(Seq<TxHash>),
    Need(Seq<TxHash>),
    Vertex(TxView),
    Done,
}

pub open spec fn inventory_view(inv: SyncInventory) -> InventoryView {
    InventoryView { tips: inv.tips@, recent: inv.recent@, peer_id: inv.peer_id }
}

impl View for MeshWireMessage {
    type V = WireView;

    open spec fn view(&self) -> WireView {
        match self {
            MeshWireMessage::Hello { protocol, role } => WireView::Hello {
                protocol: protocol@,
                role: *role,
            },
            MeshWireMessage::Ping => WireView::Ping,
            MeshWireMessage::Pong => WireView::Pong,
            MeshWireMessage::SyncInventory(inv) => WireView::Inventory(inventory_view(*inv)),
            MeshWireMessage::Have { ids } => WireView::Have(ids@),
            MeshWireMessage::Need { ids } => WireView::Need(ids@),
            MeshWireMessage::DagTransaction(tx) => WireView::Vertex(tx@),
            MeshWireMessage::Done => WireView::Done,
        }
    }
}

/// A mesh frame on the wire.
pub open spec fn mesh_framed(kind: u8, payload: Seq<u8>) -> Seq<u8> {
    MESH_MAGIC@ + seq![MESH_VERSION, kind] + le_bytes(payload.len(), 4) + payload
}

/// The kind and payload length that a ten-byte header announces.
pub open spec fn mesh_header(h: Seq<u8>) -> Result<(u8, u32), NetworkError> {
    if h.take(4) != MESH_MAGIC@ || h[4] != MESH_VERSION || le_value(h.subrange(6, 10))
        > MAX_FRAME {
        Err(NetworkError::BadFrame)
    } else {
        Ok((h[5], le_value(h.subrange(6, 10)) as u32))
    }
}

/// The first mesh frame of a byte stream.
pub open spec fn parsed_mesh_frame(b: Seq<u8>) -> Result<(u8, Seq<u8>), NetworkError> {
    if b.len() < 10 {
        Err(NetworkError::Io)
    } else {
        match mesh_header(b.take(10)) {
            Err(e) => Err(e),
            Ok((kind, n)) => if b.len() < 10 + n {
                Err(NetworkError::Io)
            } else {
                Ok((kind, b.subrange(10, 10 + n as int)))
            },
        }
    }
}

/// Appends a mesh frame to an output stream.
pub fn write_mesh_frame(stream: &mut Vec<u8>, kind: u8, payload: &[u8]) -> (r: Result<
    (),
    NetworkError,
>)
    ensures
        match r {
            Ok(()) => payload@.len() <= MAX_FRAME && final(stream)@ == old(stream)@ + mesh_framed(
                kind,
                payload@,
            ),
            Err(e) => e == NetworkError::BadFrame && payload@.len() > MAX_FRAME && final(stream)@
                == old(stream)@,
        },
{
    if payload.len() > MAX_FRAME as usize {
        return Err(NetworkError::BadFrame);
    }
    let ghost start = stream@;
    append(stream, MESH_MAGIC.as_slice());
    stream.push(MESH_VERSION);
    stream.push(kind);
    put_le(stream, payload.len() as u64, 4);
    append(stream, payload);
    assert(stream@ =~= start + mesh_framed(kind, payload@));
    Ok(())
}

/// Whether four bytes are the mesh magic: the session that follows is no Noise one.
pub fn is_mesh_magic(first: &[u8; 4]) -> (r: bool)
    ensures
        r == (first@ == MESH_MAGIC@),
{
    let r = first[0] == MESH_MAGIC[0] && first[1] == MESH_MAGIC[1] && first[2] == MESH_MAGIC[2]
        && first[3] == MESH_MAGIC[3];
    proof {
        if r {
            assert(first@ =~= MESH_MAGIC@);
        }
    }
    r
}

/// Reads a mesh frame header.
pub fn read_mesh_header(hdr: &[u8]) -> (r: Result<(u8, u32), NetworkError>)
    requires
        hdr@.len() == 10,
    ensures
        r == mesh_header(hdr@),
{
    let first: [u8; 4] = [hdr[0], hdr[1], hdr[2], hdr[3]];
    assert(first@ =~= hdr@.take(4));
    if !is_mesh_magic(&first) || hdr[4] != MESH_VERSION {
        return Err(NetworkError::BadFrame);
    }
    let len: u32 = get_u32(hdr, 6);
    if len > MAX_FRAME {
        return Err(NetworkError::BadFrame);
    }
    Ok((hdr[5], len))
}

/// Reads the mesh frame at the start of a byte stream.
pub fn read_mesh_frame(stream: &[u8]) -> (r: Result<(u8, Vec<u8>), NetworkError>)
    ensures
        match r {
            Ok((kind, payload)) => parsed_mesh_frame(stream@) == Ok::<
                (u8, Seq<u8>),
                NetworkError,
            >((kind, payload@)),
            Err(e) => parsed_mesh_frame(stream@) == Err::<(u8, Seq<u8>), NetworkError>(e),
        },
{
    if stream.len() < 10 {
        return Err(NetworkError::Io);
    }
    let head = sub_bytes(stream, 0, 10);
    assert(head@ =~= stream@.take(10));
    match read_mesh_header(head.as_slice()) {
        Err(e) => Err(e),
        Ok((kind, len)) => {
            if stream.len() - 10 < len as usize {
                return Err(NetworkError::Io);
            }
            Ok((kind, sub_bytes(stream, 10, len as usize)))
        },
    }
}

/// A hash list on the wire: the count, then the hashes.
pub open spec fn hash_list(ids: Seq<TxHash>) -> Seq<u8> {
    le_bytes(ids.len(), 4) + join_addresses(ids)
}

/// The `n` hashes at `off`.
pub open spec fn hashes_at(b: Seq<u8>, off: int, n: nat) -> Seq<TxHash> {
    Seq::new(n, |i: int| array_of(b.subrange(off + 32 * i, off + 32 * i + 32)))
}

/// The hash list that bytes spell.
pub open spec fn parsed_hash_list(b: Seq<u8>) -> Result<Seq<TxHash>, NetworkError> {
    let n = le_value(b.take(4));
    if b.len() < 4 || b.len() != 4 + 32 * n {
        Err(NetworkError::BadFrame)
    } else {
        Ok(hashes_at(b, 4, n))
    }
}

/// An inventory on the wire: tips, recent hashes, the peer where it is named, and an
/// empty list of credits, which are local and never advertised.
pub open spec fn inventory_bytes(inv: InventoryView) -> Seq<u8> {
    hash_list(inv.tips) + hash_list(inv.recent) + (match inv.peer_id {
        Some(id) => seq![1u8] + id@,
        None => seq![0u8],
    }) + le_bytes(0, 4)
}

/// The inventory that bytes spell. Advertised credits are passed over, and more hashes
/// than the cap are refused.
pub open spec fn parsed_inventory(b: Seq<u8>) -> Result<InventoryView, NetworkError> {
    let nt = le_value(b.take(4));
    let r = 4 + 32 * nt as int;
    let nr = le_value(b.subrange(r, r + 4));
    let p = r + 4 + 32 * nr as int;
    let f = if b[p] == 1 {
        p + 33
    } else {
        p + 1
    };
    let nf = le_value(b.subrange(f, f + 4));
    if b.len() < 4 || b.len() < r + 4 || b.len() < p + 1 || nt + nr > MAX_INVENTORY_HASHES || b[p]
        > 1 || b.len() < f + 4 || b.len() < f + 4 + 40 * nf {
        Err(NetworkError::BadFrame)
    } else {
        Ok(
            InventoryView {
                tips: hashes_at(b, 4, nt),
                recent: hashes_at(b, r + 4, nr),
                peer_id: if b[p] == 1 {
                    Some(array_of(b.subrange(p + 1, p + 33)))
                } else {
                    None
                },
            },
        )
    }
}

/// The kind of a message.
pub open spec fn wire_kind(m: WireView) -> u8 {
    match m {
        WireView::Hello { .. } => MK_HELLO,
        WireView::Ping => MK_PING,
        WireView::Pong => MK_PONG,
        WireView::Inventory(_) => MK_SYNC_INV,
        WireView::Have(_) => MK_HAVE,
        WireView::Need(_) => MK_NEED,
        WireView::Vertex(_) => MK_DAG_TX,
        WireView::Done => MK_DONE,
    }
}

/// The payload of a message.
pub open spec fn wire_bytes(m: WireView) -> Seq<u8> {
    match m {
        WireView::Hello { protocol, role } => le_bytes(encode_utf8(protocol).len(), 2)
            + encode_utf8(protocol) + seq![role.code()],
        WireView::Ping => encode_utf8(PROTOCOL_KRON_MESH@),
        WireView::Pong => encode_utf8(PROTOCOL_KRON_MESH@),
        WireView::Inventory(inv) => inventory_bytes(inv),
        WireView::Have(ids) => hash_list(ids),
        WireView::Need(ids) => hash_list(ids),
        WireView::Vertex(t) => t.canonical(),
        WireView::Done => Seq::empty(),
    }
}

/// The greeting that bytes spell.
pub open spec fn parsed_greeting(b: Seq<u8>) -> Result<WireView, NetworkError> {
    let n = le_value(b.take(2)) as int;
    if b.len() < 3 || b.len() < 2 + n + 1 {
        Err(NetworkError::BadFrame)
    } else {
        match MeshRole::decoded(b[2 + n]) {
            Some(role) => Ok(
                WireView::Hello { protocol: text_from(b.subrange(2, 2 + n)), role },
            ),
            None => Err(NetworkError::BadFrame),
        }
    }
}

/// The message that a kind and a payload spell.
pub open spec fn parsed_wire(kind: u8, b: Seq<u8>) -> Result<WireView, NetworkError> {
    if kind == MK_HELLO {
        parsed_greeting(b)
    } else if kind == MK_PING {
        Ok(WireView::Ping)
    } else if kind == MK_PONG {
        Ok(WireView::Pong)
    } else if kind == MK_SYNC_INV {
        match parsed_inventory(b) {
            Ok(inv) => Ok(WireView::Inventory(inv)),
            Err(e) => Err(e),
        }
    } else if kind == MK_HAVE {
        match parsed_hash_list(b) {
            Ok(ids) => Ok(WireView::Have(ids)),
            Err(e) => Err(e),
        }
    } else if kind == MK_NEED {
        match parsed_hash_list(b) {
            Ok(ids) => Ok(WireView::Need(ids)),
            Err(e) => Err(e),
        }
    } else if kind == MK_DAG_TX {
        match parsed_tx(b) {
            Ok(t) => Ok(WireView::Vertex(t)),
            Err(_) => Err(NetworkError::BadFrame),
        }
    } else if kind == MK_DONE {
        Ok(WireView::Done)
    } else {
        Err(NetworkError::BadFrame)
    }
}

fn put_hashes(out: &mut Vec<u8>, ids: &Vec<TxHash>)
    ensures
        final(out)@ == old(out)@ + hash_list(ids@),
{
    let ghost start = out@;
    put_le(out, ids.len() as u64, 4);
    let ghost head = out@;
    let mut i: usize = 0;
    assert(out@ =~= head + join_addresses(ids@.take(0)));
    while i < ids.len()
        invariant
            i <= ids@.len(),
            out@ == head + join_addresses(ids@.take(i as int)),
        decreases ids@.len() - i,
    {
        append(out, ids[i].as_slice());
        proof {
            assert(ids@.take(i + 1).drop_last() =~= ids@.take(i as int));
            assert(out@ =~= head + join_addresses(ids@.take(i + 1)));
        }
        i += 1;
    }
    assert(ids@.take(i as int) =~= ids@);
    assert(out@ =~= start + hash_list(ids@));
}

fn read_hashes(bytes: &[u8], off: usize, n: usize) -> (r: Vec<TxHash>)
    requires
        off + 32 * n <= bytes@.len(),
    ensures
        r@ == hashes_at(bytes@, off as int, n as nat),
{
    let mut ids: Vec<TxHash> = Vec::new();
    let mut i: usize = 0;
    while i < n
        invariant
            i <= n,
            off + 32 * n <= bytes.len(),
            ids@.len() == i,
            forall|j: int|
                0 <= j < i ==> #[trigger] ids@[j] == array_of(
                    bytes@.subrange(off + 32 * j, off + 32 * j + 32),
                ),
        decreases n - i,
    {
        let h = array32(bytes, off + 32 * i);
        proof {
            lemma_array_of(h);
        }
        ids.push(h);
        i += 1;
    }
    assert(ids@ =~= hashes_at(bytes@, off as int, n as nat));
    ids
}

/// Whether `n` items of `size` bytes fit in `room` bytes.
fn fits(n: u32, size: u64, room: usize) -> (r: bool)
    requires
        size <= 40,
    ensures
        r == (n * size <= room),
{
    assert(n * size <= u32::MAX * 40) by (nonlinear_arith)
        requires
            n <= u32::MAX,
            size <= 40,
    ;
    n as u64 * size <= room as u64
}

fn encode_hash_list(ids: &Vec<TxHash>) -> (r: Vec<u8>)
    ensures
        r@ == hash_list(ids@),
{
    let mut out: Vec<u8> = Vec::new();
    put_hashes(&mut out, ids);
    assert(out@ =~= hash_list(ids@));
    out
}

fn decode_hash_list(bytes: &[u8]) -> (r: Result<Vec<TxHash>, NetworkError>)
    ensures
        match r {
            Ok(v) => parsed_hash_list(bytes@) == Ok::<Seq<TxHash>, NetworkError>(v@),
            Err(e) => parsed_hash_list(bytes@) == Err::<Seq<TxHash>, NetworkError>(e),
        },
{
    if bytes.len() < 4 {
        return Err(NetworkError::BadFrame);
    }
    assert(bytes@.subrange(0, 4) =~= bytes@.take(4));
    let n: u32 = get_u32(bytes, 0);
    if !fits(n, 32, bytes.len() - 4) || bytes.len() - 4 != n as usize * 32 {
        return Err(NetworkError::BadFrame);
    }
    Ok(read_hashes(bytes, 4, n as usize))
}

fn encode_sync_inventory(inv: &SyncInventory) -> (r: Vec<u8>)
    ensures
        r@ == inventory_bytes(inventory_view(*inv)),
{
    let mut out: Vec<u8> = Vec::new();
    put_hashes(&mut out, &inv.tips);
    put_hashes(&mut out, &inv.recent);
    match inv.peer_id {
        Some(id) => {
            out.push(1);
            append(&mut out, id.as_slice());
        },
        None => {
            out.push(0);
        },
    }
    put_le(&mut out, 0, 4);
    assert(out@ =~= inventory_bytes(inventory_view(*inv)));
    out
}

fn decode_sync_inventory(bytes: &[u8]) -> (r: Result<SyncInventory, NetworkError>)
    ensures
        match r {
            Ok(v) => parsed_inventory(bytes@) == Ok::<InventoryView, NetworkError>(
                inventory_view(v),
            ),
            Err(e) => parsed_inventory(bytes@) == Err::<InventoryView, NetworkError>(e),
        },
{
    if bytes.len() < 4 {
        return Err(NetworkError::BadFrame);
    }
    assert(bytes@.subrange(0, 4) =~= bytes@.take(4));
    let nt: u32 = get_u32(bytes, 0);
    if !fits(nt, 32, bytes.len() - 4) {
        return Err(NetworkError::BadFrame);
    }
    let at_recent: usize = 4 + 32 * nt as usize;
    if bytes.len() - at_recent < 4 {
        return Err(NetworkError::BadFrame);
    }
    let nr: u32 = get_u32(bytes, at_recent);
    if !fits(nr, 32, bytes.len() - at_recent - 4) {
        return Err(NetworkError::BadFrame);
    }
    let at_peer: usize = at_recent + 4 + 32 * nr as usize;
    if bytes.len() - at_peer < 1 || nt as u64 + nr as u64 > MAX_INVENTORY_HASHES as u64 {
        return Err(NetworkError::BadFrame);
    }
    let tips = read_hashes(bytes, 4, nt as usize);
    let recent = read_hashes(bytes, at_recent + 4, nr as usize);
    let mut peer_id: Option<Address> = None;
    let mut at_credits: usize = at_peer + 1;
    if bytes[at_peer] == 1 {
        if bytes.len() - at_credits < 32 {
            return Err(NetworkError::BadFrame);
        }
        let id = array32(bytes, at_credits);
        proof {
            lemma_array_of(id);
        }
        peer_id = Some(id);
        at_credits = at_credits + 32;
    } else if bytes[at_peer] != 0 {
        return Err(NetworkError::BadFrame);
    }
    if bytes.len() - at_credits < 4 {
        return Err(NetworkError::BadFrame);
    }
    let nf: u32 = get_u32(bytes, at_credits);
    if !fits(nf, 40, bytes.len() - at_credits - 4) {
        return Err(NetworkError::BadFrame);
    }
    Ok(SyncInventory { tips, recent, peer_id })
}

/// The kind and payload of a message.
pub fn encode_wire(msg: &MeshWireMessage) -> (r: (u8, Vec<u8>))
    ensures
        r.0 == wire_kind(msg@),
        r.1@ == wire_bytes(msg@),
{
    match msg {
        MeshWireMessage::Hello { protocol, role } => {
            let mut out: Vec<u8> = Vec::new();
            let p = protocol.as_str().as_bytes();
            put_le(&mut out, p.len() as u64, 2);
            append(&mut out, p);
            out.push(role.to_u8());
            assert(out@ =~= wire_bytes(msg@));
            (MK_HELLO, out)
        },
        MeshWireMessage::Ping => (MK_PING, protocol_bytes()),
        MeshWireMessage::Pong => (MK_PONG, protocol_bytes()),
        MeshWireMessage::SyncInventory(inv) => (MK_SYNC_INV, encode_sync_inventory(inv)),
        MeshWireMessage::Have { ids } => (MK_HAVE, encode_hash_list(ids)),
        MeshWireMessage::Need { ids } => (MK_NEED, encode_hash_list(ids)),
        MeshWireMessage::DagTransaction(tx) => (MK_DAG_TX, tx.canonical_bytes()),
        MeshWireMessage::Done => {
            let out: Vec<u8> = Vec::new();
            assert(out@ =~= wire_bytes(msg@));
            (MK_DONE, out)
        },
    }
}

fn protocol_bytes() -> (r: Vec<u8>)
    ensures
        r@ == encode_utf8(PROTOCOL_KRON_MESH@),
{
    crate::bytes::to_vec(PROTOCOL_KRON_MESH.as_bytes())
}

/// The message that a kind and a payload spell.
pub fn decode_wire(kind: u8, payload: &[u8]) -> (r: Result<MeshWireMessage, NetworkError>)
    ensures
        match r {
            Ok(m) => parsed_wire(kind, payload@) == Ok::<WireView, NetworkError>(m@),
            Err(e) => parsed_wire(kind, payload@) == Err::<WireView, NetworkError>(e),
        },
{
    if kind == MK_HELLO {
        decode_greeting(payload)
    } else if kind == MK_PING {
        Ok(MeshWireMessage::Ping)
    } else if kind == MK_PONG {
        Ok(MeshWireMessage::Pong)
    } else if kind == MK_SYNC_INV {
        match decode_sync_inventory(payload) {
            Ok(inv) => Ok(MeshWireMessage::SyncInventory(inv)),
            Err(e) => Err(e),
        }
    } else if kind == MK_HAVE {
        match decode_hash_list(payload) {
            Ok(ids) => Ok(MeshWireMessage::Have { ids }),
            Err(e) => Err(e),
        }
    } else if kind == MK_NEED {
        match decode_hash_list(payload) {
            Ok(ids) => Ok(MeshWireMessage::Need { ids }),
            Err(e) => Err(e),
        }
    } else if kind == MK_DAG_TX {
        match DagTransaction::from_canonical(payload) {
            Ok(tx) => Ok(MeshWireMessage::DagTransaction(tx)),
            Err(_) => Err(NetworkError::BadFrame),
        }
    } else if kind == MK_DONE {
        Ok(MeshWireMessage::Done)
    } else {
        Err(NetworkError::BadFrame)
    }
}

fn decode_greeting(payload: &[u8]) -> (r: Result<MeshWireMessage, NetworkError>)
    ensures
        match r {
            Ok(m) => parsed_greeting(payload@) == Ok::<WireView, NetworkError>(m@),
            Err(e) => parsed_greeting(payload@) == Err::<WireView, NetworkError>(e),
        },
{
    if payload.len() < 3 {
        return Err(NetworkError::BadFrame);
    }
    assert(payload@.subrange(0, 2) =~= payload@.take(2));
    let n: usize = get_u16(payload, 0) as usize;
    if payload.len() < 2 + n + 1 {
        return Err(NetworkError::BadFrame);
    }
    let protocol = text_from_bytes(vstd::slice::slice_subrange(payload, 2, 2 + n));
    match MeshRole::from_u8(payload[2 + n]) {
        Some(role) => Ok(MeshWireMessage::Hello { protocol, role }),
        None => Err(NetworkError::BadFrame),
    }
}

/// `s` without `prefix` at its start, as often as it stands there.
pub open spec fn unprefixed(s: Seq<char>, prefix: Seq<char>) -> Seq<char>
    decreases s.len(),
{
    if prefix.len() > 0 && begins_with(s, prefix) {
        unprefixed(s.skip(prefix.len() as int), prefix)
    } else {
        s
    }
}

/// `s` without slashes at its end.
pub open spec fn unslashed(s: Seq<char>) -> Seq<char>
    decreases s.len(),
{
    if s.len() > 0 && s.last() == '/' {
        unslashed(s.drop_last())
    } else {
        s
    }
}

/// The gateway that a setting names: an IPv4 socket address, or a bracketed text for
/// the system's parser. Without one of these it is port 8000 of this host.
pub open spec fn gateway(setting: Option<Seq<char>>) -> TargetView {
    let home = TargetView::V4 { ip: home_ip(), port: 8000 };
    match setting {
        None => home,
        Some(s) => {
            let t = unslashed(unprefixed(unprefixed(trimmed(s), "http://"@), "https://"@));
            match parsed_socket(t) {
                Some((ip, port)) => TargetView::V4 {
                    ip: crate::kron::bootstrap::four(ip),
                    port,
                },
                None => if t.len() > 0 && t[0] == '[' {
                    TargetView::Host(t)
                } else {
                    home
                },
            }
        },
    }
}

/// `127.0.0.1`.
pub open spec fn home_ip() -> [u8; 4] {
    crate::kron::bootstrap::four(seq![127, 0, 0, 1])
}

fn unprefix(s: Vec<char>, prefix: &[char]) -> (r: Vec<char>)
    ensures
        r@ == unprefixed(s@, prefix@),
{
    let mut at: usize = 0;
    assert(s@.skip(0) =~= s@);
    while prefix.len() > 0 && starts_with(
        vstd::slice::slice_subrange(s.as_slice(), at, s.len()),
        prefix,
    )
        invariant
            at <= s@.len(),
            unprefixed(s@, prefix@) == unprefixed(s@.skip(at as int), prefix@),
        decreases s@.len() - at,
    {
        proof {
            let t = s@.skip(at as int);
            assert(s@.subrange(at as int, s@.len() as int) =~= t);
            assert(t.skip(prefix@.len() as int) =~= s@.skip(at + prefix@.len()));
        }
        at = at + prefix.len();
    }
    assert(s@.subrange(at as int, s@.len() as int) =~= s@.skip(at as int));
    copy_chars(vstd::slice::slice_subrange(s.as_slice(), at, s.len()))
}

fn unslash(s: Vec<char>) -> (r: Vec<char>)
    ensures
        r@ == unslashed(s@),
{
    let mut out = s;
    while out.len() > 0 && out[out.len() - 1] == '/'
        invariant
            unslashed(s@) == unslashed(out@),
        decreases out@.len(),
    {
        let ghost before = out@;
        let _ = out.pop();
        assert(out@ =~= before.drop_last());
    }
    out
}

/// The gateway of wallets, from the `KRON_GATEWAY` setting.
pub fn default_gateway_addr(setting: Option<&str>) -> (r: PeerTarget)
    ensures
        r@ == gateway(
            match setting {
                Some(s) => Some(s@),
                None => None,
            },
        ),
{
    let home_addr: [u8; 4] = [127, 0, 0, 1];
    proof {
        assert(home_addr@ =~= seq![127, 0, 0, 1]);
        crate::kron::bootstrap::lemma_four(home_addr);
    }
    if let Some(s) = setting {
        let a = trim(chars_of(s).as_slice());
        let b = unprefix(a, chars_of("http://").as_slice());
        let c = unprefix(b, chars_of("https://").as_slice());
        let t = unslash(c);
        match parse_socket(t.as_slice()) {
            Some((ip, port)) => {
                proof {
                    crate::kron::bootstrap::lemma_four(ip);
                }
                return PeerTarget::V4 { ip, port };
            },
            None => {
                if t.len() > 0 && t[0] == '[' {
                    return PeerTarget::Host(text_of(t.as_slice()));
                }
            },
        }
    }
    PeerTarget::V4 { ip: home_addr, port: 8000 }
}

proof fn lemma_hashes_read_back(head: Seq<u8>, ids: Seq<TxHash>, rest: Seq<u8>)
    requires
        ids.len() <= u32::MAX,
    ensures
        ({
            let b = head + hash_list(ids) + rest;
            let at = head.len() as int;
            &&& le_value(b.subrange(at, at + 4)) == ids.len()
            &&& hashes_at(b, at + 4, ids.len()) == ids
            &&& hash_list(ids).len() == 4 + 32 * ids.len()
        }),
{
    let b = head + hash_list(ids) + rest;
    let at = head.len() as int;
    lemma_pow256_values();
    lemma_le_bytes_len(ids.len(), 4);
    lemma_le_value_of_bytes(ids.len(), 4);
    lemma_joined_len(ids);
    assert(b.subrange(at, at + 4) =~= le_bytes(ids.len(), 4));
    assert forall|i: int| 0 <= i < ids.len() implies array_of(
        #[trigger] b.subrange(at + 4 + 32 * i, at + 4 + 32 * i + 32),
    ) == ids[i] by {
        lemma_joined_address(ids, i);
        assert(b.subrange(at + 4 + 32 * i, at + 4 + 32 * i + 32) =~= join_addresses(ids).subrange(
            32 * i,
            32 * i + 32,
        ));
        lemma_array_of(ids[i]);
    }
    assert(hashes_at(b, at + 4, ids.len()) =~= ids);
}

/// What a message has to satisfy to be read as it was sent: a name of at most 65535
/// bytes, an inventory within the cap, and a transfer whose id and display texts are the
/// derived ones, with whatever carrier proofs.
pub open spec fn is_portable(m: WireView) -> bool {
    match m {
        WireView::Hello { protocol, .. } => encode_utf8(protocol).len() <= u16::MAX,
        WireView::Inventory(inv) => inv.tips.len() + inv.recent.len() <= MAX_INVENTORY_HASHES,
        WireView::Have(ids) => ids.len() <= u32::MAX,
        WireView::Need(ids) => ids.len() <= u32::MAX,
        WireView::Vertex(t) => is_wire_ready(t),
        _ => true,
    }
}

/// A message is read as it was sent.
#[verifier::spinoff_prover]
pub proof fn law_wire_round_trip(m: WireView)
    requires
        is_portable(m),
    ensures
        parsed_wire(wire_kind(m), wire_bytes(m)) == Ok::<WireView, NetworkError>(m),
{
    match m {
        WireView::Hello { protocol, role } => {
            let p = encode_utf8(protocol);
            let b = wire_bytes(m);
            lemma_pow256_values();
            lemma_le_bytes_len(p.len(), 2);
            lemma_le_value_of_bytes(p.len(), 2);
            lemma_text_round_trip(protocol);
            assert(b.take(2) =~= le_bytes(p.len(), 2));
            assert(b.subrange(2, 2 + p.len() as int) =~= p);
            assert(b[2 + p.len() as int] == role.code());
        },
        WireView::Inventory(inv) => {
            lemma_inventory_round_trip(inv);
        },
        WireView::Have(ids) => {
            lemma_hash_list_round_trip(ids);
        },
        WireView::Need(ids) => {
            lemma_hash_list_round_trip(ids);
        },
        WireView::Vertex(t) => {
            law_canonical_round_trip(t);
        },
        _ => {},
    }
}

proof fn lemma_hash_list_round_trip(ids: Seq<TxHash>)
    requires
        ids.len() <= u32::MAX,
    ensures
        parsed_hash_list(hash_list(ids)) == Ok::<Seq<TxHash>, NetworkError>(ids),
{
    let b = hash_list(ids);
    lemma_hashes_read_back(Seq::empty(), ids, Seq::empty());
    assert(Seq::<u8>::empty() + b + Seq::<u8>::empty() =~= b);
    assert(b.subrange(0, 4) =~= b.take(4));
}

#[verifier::spinoff_prover]
proof fn lemma_inventory_round_trip(inv: InventoryView)
    requires
        inv.tips.len() + inv.recent.len() <= MAX_INVENTORY_HASHES,
    ensures
        parsed_inventory(inventory_bytes(inv)) == Ok::<InventoryView, NetworkError>(inv),
{
    let b = inventory_bytes(inv);
    let tips = hash_list(inv.tips);
    let recent = hash_list(inv.recent);
    let peer = match inv.peer_id {
        Some(id) => seq![1u8] + id@,
        None => seq![0u8],
    };
    let none = le_bytes(0, 4);
    lemma_le_bytes_len(0, 4);
    lemma_pow256_values();
    lemma_le_value_of_bytes(0, 4);
    lemma_hashes_read_back(Seq::empty(), inv.tips, recent + peer + none);
    assert(Seq::<u8>::empty() + tips + (recent + peer + none) =~= b);
    assert(b.subrange(0, 4) =~= b.take(4));
    lemma_hashes_read_back(tips, inv.recent, peer + none);
    assert(tips + recent + (peer + none) =~= b);
    let p = tips.len() + recent.len() as int;
    assert(b[p] == peer[0]);
    match inv.peer_id {
        Some(id) => {
            assert(b.subrange(p + 1, p + 33) =~= id@);
            lemma_array_of(id);
            assert(b.subrange(p + 33, p + 37) =~= none);
        },
        None => {
            assert(b.subrange(p + 1, p + 5) =~= none);
        },
    }
}

/// The frame that was written is read, whatever follows it on the stream.
pub proof fn law_mesh_frame_round_trip(kind: u8, payload: Seq<u8>, rest: Seq<u8>)
    requires
        payload.len() <= MAX_FRAME,
    ensures
        parsed_mesh_frame(mesh_framed(kind, payload) + rest) == Ok::<(u8, Seq<u8>), NetworkError>(
            (kind, payload),
        ),
{
    lemma_le_bytes_len(payload.len(), 4);
    lemma_pow256_values();
    lemma_le_value_of_bytes(payload.len(), 4);
    let b = mesh_framed(kind, payload) + rest;
    let h = b.take(10);
    assert(h.take(4) =~= MESH_MAGIC@);
    assert(h.subrange(6, 10) =~= le_bytes(payload.len(), 4));
    assert(b.subrange(10, 10 + payload.len() as int) =~= payload);
}

} // verus!
