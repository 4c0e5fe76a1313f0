//! Mesh anti-Sybil: hardware quotes, paced attach, proof of adjacency.

pub mod attestation;
pub mod cadence;
pub mod profile;
pub mod reputation;
pub mod verdicts;

pub use attestation::{
    miner_node_id, residential_ipv4, verify_hardware_authenticity, DeviceAttestation, DeviceScore,
    SecurityError,
};
pub use cadence::PacedVerifier;
pub use profile::{DeviceClass, HardwareProfile};
pub use reputation::{NodeReputation, ReputationLedger};

use vstd::prelude::*;

use crate::types::NodeId;

verus! {

/// Duration of a submission against the claimed device class.
pub fn validate_mining_cadence(paced: &mut PacedVerifier, node_id: NodeId, submission_ns: u64) -> (r:
    bool)
    requires
        old(paced).wf(),
    ensures
        final(paced).wf(),
        final(paced)@ == old(paced)@.after_validation(node_id, submission_ns),
        r == old(paced)@.cadence_holds(node_id, submission_ns),
{
    paced.validate_mining_cadence(node_id, submission_ns)
}

} // verus!
