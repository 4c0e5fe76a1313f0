//! Transaction-driven DAG minting: 80% miner phone, 20% relay phones of
//! `(subsidy + fee)`. There is no block subsidy.

use vstd::prelude::*;

use crate::crypto::mobile_only::{enforce_real_mobile, HostObservation};
use crate::dag::engine::{failure, KronDAG};
use crate::dag::error::DagError;
use crate::dag::model::DagView;
use crate::dag::tx::DagTransaction;
use crate::economics::EconomicError;
use crate::types::Address;

verus! {

/// Credits `(subsidy + fee)` after a confirmed vertex. The fee was already taken
/// from the sender. Genesis vertices must not come here.
pub fn apply_dag_minting_natively(
    dag: &mut KronDAG,
    tx: &DagTransaction,
    miner: Address,
    relay_nodes: &[Address],
) -> (r: Result<(), EconomicError>)
    requires
        old(dag).wf(),
    ensures
        final(dag).wf(),
        (final(dag)@.ledger, r is Ok) == old(dag)@.ledger.minted(tx@.fee, miner, relay_nodes@),
        final(dag)@ == (DagView { ledger: final(dag)@.ledger, ..old(dag)@ }),
{
    dag.mint_confirmed_tx(tx.fee, miner, relay_nodes)
}

/// The same with the sender as miner.
pub fn apply_dag_minting_from_sender(
    dag: &mut KronDAG,
    tx: &DagTransaction,
    relay_nodes: Vec<Address>,
) -> (r: Result<(), EconomicError>)
    requires
        old(dag).wf(),
    ensures
        final(dag).wf(),
        (final(dag)@.ledger, r is Ok) == old(dag)@.ledger.minted(
            tx@.fee,
            tx@.sender,
            relay_nodes@,
        ),
        final(dag)@ == (DagView { ledger: final(dag)@.ledger, ..old(dag)@ }),
{
    apply_dag_minting_natively(dag, tx, tx.sender, relay_nodes.as_slice())
}

/// Minting by this host acting as a miner phone. A PC is refused.
pub fn apply_dag_minting_as_miner(
    dag: &mut KronDAG,
    tx: &DagTransaction,
    miner: Address,
    relay_nodes: &[Address],
    host: &HostObservation,
) -> (r: Result<(), DagError>)
    requires
        old(dag).wf(),
    ensures
        final(dag).wf(),
        final(dag)@ == (DagView { ledger: final(dag)@.ledger, ..old(dag)@ }),
        match host.refusal() {
            Some(e) => failure(r) == Some(DagError::Shield(e)) && final(dag)@ == old(dag)@,
            None => {
                &&& (final(dag)@.ledger, r is Ok) == old(dag)@.ledger.minted(
                    tx@.fee,
                    miner,
                    relay_nodes@,
                )
                &&& r is Err ==> failure(r) == Some(DagError::Overflow)
            },
        },
{
    match enforce_real_mobile(host) {
        Ok(()) => {},
        Err(e) => {
            return Err(DagError::Shield(e));
        },
    }
    match apply_dag_minting_natively(dag, tx, miner, relay_nodes) {
        Ok(()) => Ok(()),
        Err(EconomicError::Overflow) => Err(DagError::Overflow),
    }
}

} // verus!
