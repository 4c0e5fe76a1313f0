//! Encoding of mesh gossip messages (DAG vertices).

use vstd::prelude::*;

use crate::crypto::hash::{sha256, sha256_of};
use crate::dag::tx::{is_wire_ready, law_canonical_round_trip, parsed_tx, DagTransaction, TxView};
use crate::p2p::error::NetworkError;
use crate::p2p::frame::{lemma_sized_reads_back, put_bytes, sized, sized_at, take_bytes};
use crate::types::message::MeshMessage;

verus! {

pub const TAG_VERTEX: u8 = 0;

/// The transfer that a message carries.
pub open spec fn vertex_of(m: MeshMessage) -> TxView {
    match m {
        MeshMessage::Vertex(tx) => tx@,
    }
}

/// A message on the wire.
pub open spec fn mesh_bytes(t: TxView) -> Seq<u8> {
    seq![TAG_VERTEX] + sized(t.canonical())
}

/// The message that `b` spells.
pub open spec fn parsed_mesh(b: Seq<u8>) -> Result<TxView, NetworkError> {
    if b.len() == 0 || b[0] != TAG_VERTEX {
        Err(NetworkError::BadFrame)
    } else {
        match sized_at(b, 1) {
            None => Err(NetworkError::BadFrame),
            Some((raw, _)) => match parsed_tx(raw) {
                Ok(t) => Ok(t),
                Err(e) => Err(NetworkError::Dag(e)),
            },
        }
    }
}

pub fn encode_mesh(msg: &MeshMessage) -> (r: Vec<u8>)
    ensures
        r@ == mesh_bytes(vertex_of(*msg)),
{
    let mut out: Vec<u8> = Vec::new();
    match msg {
        MeshMessage::Vertex(tx) => {
            out.push(TAG_VERTEX);
            put_bytes(&mut out, tx.canonical_bytes().as_slice());
        },
    }
    assert(out@ =~= mesh_bytes(vertex_of(*msg)));
    out
}

pub fn decode_mesh(bytes: &[u8]) -> (r: Result<MeshMessage, NetworkError>)
    ensures
        match r {
            Ok(m) => parsed_mesh(bytes@) == Ok::<TxView, NetworkError>(vertex_of(m)),
            Err(e) => parsed_mesh(bytes@) == Err::<TxView, NetworkError>(e),
        },
{
    if bytes.len() == 0 || bytes[0] != TAG_VERTEX {
        return Err(NetworkError::BadFrame);
    }
    let mut off: usize = 1;
    match take_bytes(bytes, &mut off) {
        Err(e) => Err(e),
        Ok(raw) => match DagTransaction::from_canonical(raw.as_slice()) {
            Ok(tx) => Ok(MeshMessage::Vertex(tx)),
            Err(e) => Err(NetworkError::Dag(e)),
        },
    }
}

pub fn message_id(msg: &MeshMessage) -> (r: crate::types::Hash)
    ensures
        r == sha256_of(mesh_bytes(vertex_of(*msg))),
{
    sha256(encode_mesh(msg).as_slice())
}

pub fn message_id_bytes(encoded: &[u8]) -> (r: crate::types::Hash)
    ensures
        r == sha256_of(encoded@),
{
    sha256(encoded)
}

/// Decoding a message gives back the transfer, for every transfer that the wire can
/// carry and whose bytes fit their length.
pub proof fn law_mesh_round_trip(t: TxView)
    requires
        is_wire_ready(t),
        t.canonical().len() <= u32::MAX,
    ensures
        parsed_mesh(mesh_bytes(t)) == Ok::<TxView, NetworkError>(t),
{
    law_canonical_round_trip(t);
    let b = mesh_bytes(t);
    lemma_sized_reads_back(seq![TAG_VERTEX], t.canonical(), Seq::empty());
    assert(b =~= seq![TAG_VERTEX] + sized(t.canonical()) + Seq::<u8>::empty());
}

} // verus!
