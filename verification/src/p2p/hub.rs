//! The hub's graph: it takes vertices as a local graph, keeps the explorer's index in
//! step, and says what to write to its store. It does not mine.

use vstd::prelude::*;

use crate::dag::engine::KronDAG;
use crate::dag::model::DagView;
use crate::dag::reconciliation::SyncInventory;
use crate::dag::tx::{DagTransaction, TxHash, TxView};
use crate::explorer::api::ExplorerApi;
use crate::explorer::indexer::IndexView;
use crate::p2p::session::{diff_lists, MeshGraph, UNNAMED_PEER};
use crate::persist::{
    record_bytes, snapshot_bytes, DagSnapshot, DagStore, SnapshotView, SNAPSHOT_EVERY, SNAP_MAGIC,
    WAL_MAGIC,
};
use crate::table::KeySet;

verus! {

/// Bytes for the store's files.
#[derive(Debug)]
pub enum StoreWrite {
    /// Appended to the log.
    Log(Vec<u8>),
    /// Replaces the snapshot.
    Snapshot(Vec<u8>),
}

/// A write as mathematical data.
#[verifier::ext_equal]
pub enum WriteView {
    Log(Seq<u8>),
    Snapshot(Seq<u8>),
}

impl View for StoreWrite {
    type V = WriteView;

    open spec fn view(&self) -> WriteView {
        match self {
            StoreWrite::Log(b) => WriteView::Log(b@),
            StoreWrite::Snapshot(b) => WriteView::Snapshot(b@),
        }
    }
}

pub open spec fn write_views(v: Seq<StoreWrite>) -> Seq<WriteView> {
    v.map_values(|w: StoreWrite| w@)
}

/// Graph, explorer index, and the writes that the store is owed.
pub struct HubState {
    dag: KronDAG,
    store: Option<DagStore>,
    api: ExplorerApi,
    writes: Vec<StoreWrite>,
}

/// A hub as mathematical data.
#[verifier::ext_equal]
pub struct HubView {
    pub dag: DagView,
    pub stored: bool,
    pub index: IndexView,
    pub writes: Seq<WriteView>,
}

impl View for HubState {
    type V = HubView;

    closed spec fn view(&self) -> HubView {
        HubView {
            dag: self.dag@,
            stored: self.store is Some,
            index: self.api@,
            writes: write_views(self.writes@),
        }
    }
}

/// The snapshot write of a graph.
pub open spec fn snapshot_write(d: DagView) -> WriteView {
    WriteView::Snapshot(
        record_bytes(SNAP_MAGIC@, snapshot_bytes(SnapshotView::of(d, d.faucet))),
    )
}

/// What a vertex adds to the store: a log record unless it is genesis, a snapshot with
/// every eighth confirmation, and a snapshot of the present state.
pub open spec fn vertex_writes(d: DagView, t: TxView) -> Seq<WriteView> {
    let log = if t.is_genesis() {
        Seq::empty()
    } else {
        seq![WriteView::Log(record_bytes(WAL_MAGIC@, t.canonical()))]
    };
    let due = if !t.is_genesis() && d.ledger.count > 0 && d.ledger.count as nat
        % SNAPSHOT_EVERY as nat == 0 {
        seq![snapshot_write(d)]
    } else {
        Seq::empty()
    };
    (log + due).push(snapshot_write(d))
}

impl HubView {
    /// After a vertex went into the graph.
    pub open spec fn recorded(self, t: TxView) -> HubView {
        HubView {
            index: IndexView::of(self.dag),
            writes: if self.stored {
                self.writes + vertex_writes(self.dag, t)
            } else {
                self.writes
            },
            ..self
        }
    }

    /// After the present state was saved.
    pub open spec fn saved(self) -> HubView {
        HubView {
            writes: if self.stored {
                self.writes.push(snapshot_write(self.dag))
            } else {
                self.writes
            },
            ..self
        }
    }

    /// After a vertex came from the wire: only a new one is recorded.
    pub open spec fn ingested(self, t: TxView) -> HubView {
        let (d, r) = self.dag.accepted(t);
        let after = HubView { dag: d, ..self };
        if r == Ok::<bool, crate::dag::error::DagError>(true) {
            after.recorded(t)
        } else {
            after
        }
    }
}

impl HubState {
    pub closed spec fn wf(&self) -> bool {
        self.dag.wf() && self.api.wf()
    }

    pub closed spec fn graph(&self) -> KronDAG {
        self.dag
    }

    pub fn new(dag: KronDAG) -> (r: Self)
        requires
            dag.wf(),
        ensures
            r.wf(),
            r@ == (HubView {
                dag: dag@,
                stored: false,
                index: IndexView::blank(),
                writes: Seq::empty(),
            }),
    {
        let r = HubState { dag, store: None, api: ExplorerApi::new(), writes: Vec::new() };
        assert(write_views(r.writes@) =~= Seq::<WriteView>::empty());
        r
    }

    pub fn set_store(&mut self, store: DagStore)
        requires
            old(self).wf(),
        ensures
            final(self).wf(),
            final(self)@ == (HubView { stored: true, ..old(self)@ }),
    {
        self.store = Some(store);
    }

    pub fn explorer_api(&self) -> (r: &ExplorerApi)
        requires
            self.wf(),
        ensures
            r.wf(),
            r@ == self@.index,
    {
        &self.api
    }

    pub fn api(&self) -> (r: &ExplorerApi)
        requires
            self.wf(),
        ensures
            r.wf(),
            r@ == self@.index,
    {
        &self.api
    }

    /// The graph itself, for the miner in the same process.
    pub fn lock_dag(&mut self) -> (r: &mut KronDAG)
        requires
            old(self).wf(),
        ensures
            r.wf(),
            r@ == old(self)@.dag,
            final(self).wf() == final(r).wf(),
            final(self)@ == (HubView { dag: final(r)@, ..old(self)@ }),
    {
        &mut self.dag
    }

    /// Takes the writes that the store is owed, oldest first.
    pub fn take_writes(&mut self) -> (r: Vec<StoreWrite>)
        requires
            old(self).wf(),
        ensures
            final(self).wf(),
            write_views(r@) == old(self)@.writes,
            final(self)@ == (HubView { writes: Seq::empty(), ..old(self)@ }),
    {
        let mut out: Vec<StoreWrite> = Vec::new();
        std::mem::swap(&mut out, &mut self.writes);
        assert(write_views(self.writes@) =~= Seq::<WriteView>::empty());
        out
    }

    /// Records a vertex that the local miner attached already.
    pub fn record_attached(&mut self, tx: &DagTransaction)
        requires
            old(self).wf(),
        ensures
            final(self).wf(),
            final(self)@ == old(self)@.recorded(tx@),
    {
        self.persist_vertex(tx);
    }

    pub fn persist_snapshot(&mut self)
        requires
            old(self).wf(),
        ensures
            final(self).wf(),
            final(self)@ == old(self)@.saved(),
    {
        let ghost start = self@;
        if let Some(store) = &self.store {
            let bytes = store.write_snapshot(&DagSnapshot::from_dag(&self.dag));
            let w = StoreWrite::Snapshot(bytes);
            let ghost before = self.writes@;
            self.writes.push(w);
            assert(write_views(self.writes@) =~= write_views(before).push(w@));
        }
        assert(self@ =~= start.saved());
    }

    fn persist_vertex(&mut self, tx: &DagTransaction)
        requires
            old(self).wf(),
        ensures
            final(self).wf(),
            final(self)@ == old(self)@.recorded(tx@),
    {
        let ghost start = self@;
        let ghost d = self.dag@;
        if let Some(store) = &self.store {
            let ghost w0 = write_views(self.writes@);
            let mut more: Vec<StoreWrite> = Vec::new();
            match store.append_vertex(tx, &self.dag) {
                Some(plan) => {
                    more.push(StoreWrite::Log(plan.wal));
                    if let Some(b) = plan.snapshot {
                        more.push(StoreWrite::Snapshot(b));
                    }
                },
                None => {},
            }
            more.push(
                StoreWrite::Snapshot(store.write_snapshot(&DagSnapshot::from_dag(&self.dag))),
            );
            assert(write_views(more@) =~= vertex_writes(d, tx@));
            let ghost added = more@;
            let ghost before = self.writes@;
            self.writes.append(&mut more);
            assert(write_views(self.writes@) =~= w0 + vertex_writes(d, tx@)) by {
                assert(self.writes@ =~= before + added);
            }
        }
        self.api.sync_from_dag(&self.dag);
        assert(self@ =~= start.recorded(tx@));
    }
}

impl MeshGraph for HubState {
    open spec fn dag_view(&self) -> DagView {
        self@.dag
    }

    open spec fn ready(&self) -> bool {
        self.wf()
    }

    fn inventory(&self) -> (r: SyncInventory) {
        SyncInventory::from_dag(&self.dag, UNNAMED_PEER)
    }

    fn contains(&self, id: &TxHash) -> (r: bool) {
        self.dag.contains(id)
    }

    fn get(&self, id: &TxHash) -> (r: Option<DagTransaction>) {
        match self.dag.get(id) {
            Some(t) => Some(t.clone()),
            None => None,
        }
    }

    fn ingest(&mut self, tx: DagTransaction) -> (r: Result<bool, String>)
        ensures
            final(self)@ == old(self)@.ingested(tx@),
    {
        match self.dag.accept_wire_vertex(tx.clone()) {
            Ok(new) => {
                if new {
                    self.persist_vertex(&tx);
                }
                Ok(new)
            },
            Err(e) => Err(e.message()),
        }
    }

    fn bodies_in_order(&self, ids: &[TxHash]) -> (r: Vec<DagTransaction>) {
        self.dag.transactions_for_in_order(ids)
    }

    fn apply_inventory(&mut self, inv: &SyncInventory)
        ensures
            final(self)@ == (HubView {
                index: IndexView::of(old(self)@.dag),
                ..old(self)@.saved()
            }),
    {
        self.persist_snapshot();
        self.api.sync_from_dag(&self.dag);
    }

    fn need_and_have(&self, remote: &SyncInventory) -> (r: (Vec<TxHash>, Vec<TxHash>)) {
        diff_lists(&self.dag, remote)
    }

    fn vertex_set(&self) -> (r: KeySet<32>) {
        self.dag.vertex_set()
    }
}

/// A vertex that is stored already changes nothing and is not written again.
pub proof fn law_known_vertex_is_not_written(h: HubView, t: TxView)
    requires
        h.dag.graph.vertices.contains_key(t.id),
    ensures
        h.ingested(t) == h,
{
}

/// Whatever comes from the wire, no write that is owed is lost or changed.
pub proof fn law_writes_are_only_added(h: HubView, t: TxView)
    ensures
        h.writes.len() <= h.ingested(t).writes.len(),
        h.ingested(t).writes.take(h.writes.len() as int) == h.writes,
{
    assert(h.ingested(t).writes.take(h.writes.len() as int) =~= h.writes);
}

} // verus!
