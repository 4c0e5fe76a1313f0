//! Query interface of the explorer.

use vstd::prelude::*;

use crate::dag::engine::KronDAG;
use crate::dag::tx::{DagTransaction, TxHash, NULL_PARENT};
use crate::explorer::indexer::{
    indexed, latest, row_from, row_views, rows_of, vertex_row, vertex_views, ExplorerEngine,
    IndexView, IndexedTransaction, IndexedVertex, NetworkStats, RowView, WalletSnapshot,
};
use crate::kron::metadata::{get_kron_metadata, AssetMetadata};
use crate::kron::{NETWORK_NAME, TICKER};

verus! {

/// Lookup by hash, wallet history, and network stats.
#[derive(Debug)]
pub struct ExplorerApi {
    engine: ExplorerEngine,
}

impl View for ExplorerApi {
    type V = IndexView;

    closed spec fn view(&self) -> IndexView {
        self.engine@
    }
}

impl Default for ExplorerApi {
    fn default() -> (r: Self)
        ensures
            r.wf(),
            r@ == IndexView::blank(),
    {
        ExplorerApi { engine: ExplorerEngine::new() }
    }
}

impl ExplorerApi {
    pub closed spec fn wf(&self) -> bool {
        self.engine.wf()
    }

    pub fn new() -> (r: Self)
        ensures
            r.wf(),
            r@ == IndexView::blank(),
    {
        ExplorerApi { engine: ExplorerEngine::new() }
    }

    pub fn engine(&self) -> (r: &ExplorerEngine)
        requires
            self.wf(),
        ensures
            r.wf(),
            r@ == self@,
    {
        &self.engine
    }

    pub fn engine_mut(&mut self) -> (r: &mut ExplorerEngine)
        requires
            old(self).wf(),
        ensures
            r.wf(),
            r@ == old(self)@,
            final(self).wf() == final(r).wf(),
            final(self)@ == final(r)@,
    {
        &mut self.engine
    }

    pub fn sync_from_dag(&mut self, dag: &KronDAG)
        requires
            dag.wf(),
        ensures
            final(self).wf(),
            final(self)@ == IndexView::of(dag@),
    {
        self.engine.sync_from_dag(dag);
    }

    pub fn index_new_vertex(&mut self, dag: &KronDAG, tx: &DagTransaction) -> (r:
        IndexedTransaction)
        requires
            dag.wf(),
        ensures
            final(self).wf(),
            final(self)@ == IndexView::of(dag@),
            r@ == (match row_from(rows_of(dag@), tx@.id, 0) {
                Some(row) => row,
                None => indexed(dag@, tx@, dag@.ledger.count),
            }),
    {
        self.engine.index_new_vertex(dag, tx)
    }

    pub fn get_transaction_by_hash(&self, hash: TxHash) -> (r: Option<IndexedTransaction>)
        ensures
            match r {
                Some(t) => row_from(self@.rows, hash, 0) == Some(t@),
                None => row_from(self@.rows, hash, 0) is None,
            },
    {
        self.engine.get_transaction_by_hash(hash)
    }

    pub fn get_wallet_history(&self, address: &str) -> (r: Vec<IndexedTransaction>)
        ensures
            row_views(r@) == self@.history(address@),
    {
        self.engine.get_wallet_history(address)
    }

    pub fn get_wallet_balance(&self, address: &str) -> (r: u64)
        requires
            self.wf(),
        ensures
            r == self@.balance(address@),
    {
        self.engine.get_wallet_balance(address)
    }

    pub fn get_wallet_snapshot(&self, address: &str) -> (r: WalletSnapshot)
        requires
            self.wf(),
        ensures
            r.address@ == self@.shown(address@),
            r.balance == self@.balance(address@),
            r.nonce == self@.nonce(address@),
            row_views(r.txs@) == self@.history(address@),
    {
        self.engine.get_wallet_snapshot(address)
    }

    pub fn compose_hint(&self, address: &str) -> (r: (u64, TxHash, TxHash, u64))
        requires
            self.wf(),
        ensures
            r == (
                self@.nonce(address@),
                self@.parents().0,
                self@.parents().1,
                self@.balance(address@),
            ),
    {
        self.engine.compose_hint(address)
    }

    /// The first tip, or the null hash where there is none.
    pub fn genesis(&self) -> (r: TxHash)
        ensures
            r == (if self@.tips.len() > 0 {
                self@.tips[0]
            } else {
                NULL_PARENT
            }),
    {
        let tips = self.engine.tips();
        if tips.len() > 0 {
            tips[0]
        } else {
            NULL_PARENT
        }
    }

    pub fn get_network_stats(&self) -> (r: NetworkStats)
        ensures
            r == self@.stats(),
    {
        self.engine.get_network_stats()
    }

    pub fn get_kron_asset_metadata(&self) -> (r: AssetMetadata)
        ensures
            r.name@ == NETWORK_NAME@,
            r.ticker@ == TICKER@,
            r.decimals == 6,
    {
        get_kron_asset_metadata()
    }

    pub fn tips(&self) -> (r: Vec<TxHash>)
        ensures
            r@ == self@.tips,
    {
        self.engine.tips()
    }

    pub fn recent_vertices(&self, limit: usize) -> (r: Vec<IndexedVertex>)
        ensures
            vertex_views(r@) == latest(self@.rows, limit as int).map_values(
                |t: RowView| vertex_row(t),
            ),
    {
        self.engine.recent_vertices(limit)
    }

    pub fn recent_transactions(&self, limit: usize) -> (r: Vec<IndexedTransaction>)
        ensures
            row_views(r@) == latest(self@.rows, limit as int),
    {
        self.engine.recent_transactions(limit)
    }

    /// Indexes a signed demo transfer, so that the first page is not empty.
    pub fn seed_demo_if_empty(&mut self) -> (r: bool)
        requires
            old(self).wf(),
        ensures
            final(self).wf(),
            !r ==> final(self)@ == old(self)@,
            r ==> crate::explorer::seed::is_demo(final(self)@) && crate::explorer::seed::is_empty(
                old(self)@,
            ),
    {
        crate::explorer::seed::seed_demo_if_empty(self)
    }
}

/// Brand record for the web page.
pub fn get_kron_asset_metadata() -> (r: AssetMetadata)
    ensures
        r.name@ == NETWORK_NAME@,
        r.ticker@ == TICKER@,
        r.decimals == 6,
{
    get_kron_metadata()
}

} // verus!
