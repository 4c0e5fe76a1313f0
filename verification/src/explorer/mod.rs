//! In-memory explorer: an index of vertices, tips and supply, a query interface, and
//! the answers of its web server. There are no blocks.

pub mod answers;
pub mod api;
pub mod http;
pub mod indexer;
pub mod seed;

pub use crate::dag::tx::TxHash;
pub use api::{get_kron_asset_metadata, ExplorerApi};
pub use indexer::{
    index_vertex, parse_explorer_address, ExplorerEngine, FeeSplit, IndexedTransaction,
    IndexedVertex, MeshState, NetworkStats, WalletSnapshot,
};
pub use seed::seed_demo_if_empty;
