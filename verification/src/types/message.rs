//! Mesh gossip payloads.

use vstd::prelude::*;

use crate::dag::tx::{DagTransaction, TxHash};

verus! {

/// Vertex gossiped between phones and the PC gateway.
#[derive(Debug)]
pub enum MeshMessage {
    Vertex(DagTransaction),
}

impl MeshMessage {
    pub fn vertex_id(&self) -> (r: TxHash)
        ensures
            self matches MeshMessage::Vertex(tx) && r == tx@.id,
    {
        match self {
            MeshMessage::Vertex(tx) => tx.id,
        }
    }
}

} // verus!
