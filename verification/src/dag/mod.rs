//! KRON mobile mesh DAG.
//!
//! Phones attach transactions that each approve two parents. The genesis vertex
//! has dummy parents and is not a transfer; every later vertex names two
//! parents that already stand in the DAG.

pub mod accounts;
pub mod engine;
pub mod error;
pub mod laws;
pub mod meaning;
pub mod minting;
pub mod model;
pub mod ordering;
pub mod reconciliation;
pub mod sync;
pub mod tx;
pub mod wallet_relay;
pub mod weights;

pub use crate::economics::{
    get_current_tx_subsidy, mesh_relay_split, relay_share_of, INITIAL_TX_SUBSIDY,
    RELAY_SHARE_PERCENT, TX_HALVING_INTERVAL,
};
pub use engine::{AttachingDevice, KronDAG};
pub use error::DagError;
pub use minting::{
    apply_dag_minting_as_miner, apply_dag_minting_from_sender, apply_dag_minting_natively,
};
pub use reconciliation::{compute_dag_diff, SyncInventory};
pub use sync::{
    exchange_and_merge, mesh_handshake, relay_share, MeshPhone, MeshSession, MeshSyncEngine, NodeId,
    OfflineLink, RelayLedger, SyncError, HANDSHAKE_RETRIES,
};
pub use tx::{
    relay_proof_message, DagTransaction, RelayNodeId, RelayProof, TxHash, GENESIS_SEED, NULL_PARENT,
};
pub use wallet_relay::{
    relay_intercept_and_sign, relay_wallet_id, start_wallet_relay_mode, wallet_relay_step,
    MeshInterface, RelayMempool, WalletRelaySession, RELAY_DUTY_SLEEP_SECS_DEFAULT,
    RELAY_DUTY_SLEEP_SECS_MAX, RELAY_DUTY_SLEEP_SECS_MIN, RELAY_MEMPOOL_CAP,
};
