//! KRON brand, addresses, wallets, bootstrap peers, the command line, and the phone
//! miner.

pub mod bech32;
pub mod bootstrap;
pub mod cli;
pub mod command;
pub mod credit;
pub mod flags;
pub mod metadata;
pub mod mine_forms;
pub mod miner;
pub mod miner_cli;
pub mod phrase;
pub mod wallet;

pub use crate::dag::{
    relay_intercept_and_sign, start_wallet_relay_mode, wallet_relay_step, MeshInterface,
    RelayMempool, RelayProof, WalletRelaySession,
};
pub use crate::dag::wallet_relay::start_wallet_relay_service;
pub use bootstrap::{
    default_bootstrap_addr, default_public_ipv4, is_self_hub_target, parse_bootstrap_text,
    parse_peer_addr, resolve_bootstrap_sources, resolve_phone_bootstrap, BOOTSTRAP_FILE_NAME,
    DEFAULT_BOOTSTRAP, DEFAULT_EXPLORER_URL, KRON_BOOTSTRAP_ENV,
};
pub use metadata::{get_kron_metadata, AssetMetadata, KronVisualSpec, KRON_ICON_DESCRIPTOR};
pub use miner::{
    miner_tick, run_active_miner_loop, MinerLoopOutcome, MinerTickOutcome, MinerTickStatus,
};
pub use phrase::generate_recovery_wallet;
pub use wallet::{
    derive_kron_address, generate_kron_wallet, generate_kron_wallet_from_rng,
    sign_transaction_natively, verify_transaction_signature, KronAddress, KronKeypair, KronWallet,
    LatticePrivateKey,
};

use vstd::prelude::*;

verus! {

/// Official network name.
pub const NETWORK_NAME: &'static str = "KRON Network";

/// Official ticker.
pub const TICKER: &'static str = "KRON";

/// One Satoshi-KRON (micro-KRON) equals one minor unit.
pub const SATOSHI_KRON: u64 = crate::economics::SATOSHI_KRON;

} // verus!
