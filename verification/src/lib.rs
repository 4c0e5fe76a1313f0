//! KRON Mesh: an asynchronous mobile DAG ledger with machine-checked contracts.
//!
//! Vertices are transfers with two parents, a fixed fee and an ML-DSA-44 signature.
//! Cumulative weight confirms them; minting pays the miner phone and the relays. Phones
//! are the network, and a PC is at most a read-only explorer or a gossip hub.

pub mod anti_bot;
pub mod bytes;
pub mod crypto;
pub mod dag;
pub mod economics;
pub mod explorer;
pub mod interleaved;
pub mod kron;
pub mod kron_wallet;
pub mod layout;
pub mod listen;
pub mod p2p;
pub mod persist;
pub mod rebuild;
pub mod restart;
pub mod shield;
pub mod table;
pub mod text;
pub mod types;

pub use anti_bot::{
    validate_mining_cadence, verify_hardware_authenticity, DeviceAttestation, DeviceClass,
    DeviceScore, HardwareProfile, SecurityError,
};
pub use crypto::lattice::{LatticeKeyPair, LatticeSignature};
pub use crypto::mobile_only::{
    enforce_device_attestation, enforce_observation, enforce_real_mobile, HostArch,
    HostObservation, ShieldError,
};
pub use dag::{
    apply_dag_minting_as_miner, apply_dag_minting_from_sender, apply_dag_minting_natively,
    relay_intercept_and_sign, start_wallet_relay_mode, AttachingDevice, DagTransaction, KronDAG,
    MeshInterface, RelayMempool, RelayProof, WalletRelaySession,
};
pub use economics::{
    dag_miner_share_of, dag_relay_total_of, get_current_tx_subsidy, mesh_relay_split,
    relay_share_of, txs_remaining_until_halving, DAG_MINER_SHARE_PERCENT, FIXED_TRANSACTION_FEE,
    HARD_CAP, INITIAL_TX_SUBSIDY, PREMINE, RELAY_SHARE_PERCENT, SATOSHI_KRON, TX_HALVING_INTERVAL,
    UNITS_PER_COIN,
};
pub use explorer::{
    get_kron_asset_metadata, ExplorerApi, ExplorerEngine, FeeSplit, IndexedTransaction,
    IndexedVertex, MeshState, NetworkStats, TxHash, WalletSnapshot,
};
pub use kron::{
    derive_kron_address, generate_kron_wallet, generate_kron_wallet_from_rng, get_kron_metadata,
    miner_tick, run_active_miner_loop, sign_transaction_natively, start_wallet_relay_service,
    verify_transaction_signature, AssetMetadata, KronAddress, KronKeypair, KronVisualSpec,
    KronWallet, MinerLoopOutcome, MinerTickOutcome, MinerTickStatus, NETWORK_NAME, TICKER,
};
pub use p2p::{
    default_gateway_addr, GossipInventory, HubState, IsolatedDag, MeshGraph, MeshRole,
    MeshWireMessage, NodeOverlayId, P2pNode, Peer, RoutingTable, PROTOCOL_KRON_MESH,
};
pub use persist::{DagSnapshot, DagStore, WalRecord};
