//! The index: one row per vertex in attach order, balances and nonces by address.

use vstd::prelude::*;
use vstd::utf8::encode_utf8;

use crate::bytes::same;
use crate::dag::engine::{bodies, list_views, KronDAG};
use crate::dag::model::{amount_at, capped_add, DagView, GraphView};
use crate::dag::tx::{array_of, lemma_array_of, DagTransaction, TxHash, TxView, NULL_PARENT};
use crate::economics::{
    dag_miner_share_of, dag_relay_total_of, get_current_tx_subsidy, share, tx_subsidy,
    txs_remaining_until_halving, DAG_MINER_SHARE_PERCENT, HARD_CAP, TX_HALVING_INTERVAL,
};
use crate::kron::bech32::{decoded, kron_text, without_fillers};
use crate::kron::wallet::KronAddress;
use crate::kron_wallet::explorer::{parse_hex32, parsed_hash};
use crate::p2p::session::lemma_bodies_of_stored;
use crate::table::{copy_keys, lemma_ordered, ordered, Table};
use crate::text::{chars_of, owned, same_text, text_of, text_views, trim, trimmed};
use crate::types::Address;

verus! {

/// What the index reads of a ledger.
#[derive(Debug, PartialEq, Eq)]
pub struct MeshState {
    pub accounts: Table<32, u64>,
    pub nonces: Table<32, u64>,
    pub dag_tx_count: u64,
    pub circulating_supply: u64,
    pub tips: Vec<TxHash>,
    pub genesis: TxHash,
}

impl MeshState {
    pub fn from_dag(dag: &KronDAG) -> (r: Self)
        requires
            dag.wf(),
        ensures
            r.accounts.wf(),
            r.accounts@ == dag@.ledger.balances,
            r.nonces.wf(),
            r.nonces@ == dag@.ledger.nonces,
            r.dag_tx_count == dag@.ledger.count,
            r.circulating_supply == dag@.ledger.supply,
            r.tips@ == ordered(dag@.graph.tips),
            r.genesis == dag@.graph.genesis_id(),
    {
        let tips = dag.tip_list();
        proof {
            lemma_ordered(tips@);
        }
        MeshState {
            accounts: dag.account_snapshot(),
            nonces: dag.nonce_snapshot(),
            dag_tx_count: dag.global_tx_count(),
            circulating_supply: dag.supply(),
            tips,
            genesis: dag.genesis_id(),
        }
    }
}

/// How a vertex's pool is shared: 80% to the miner phone, 20% to the relays.
#[derive(Debug, PartialEq, Eq)]
pub struct FeeSplit {
    pub miner_amount: u64,
    pub relay_amount: u64,
    pub miner_address: String,
    pub relay_addresses: Vec<String>,
}

/// A row of the index.
#[derive(Debug, PartialEq, Eq)]
pub struct IndexedTransaction {
    pub hash: TxHash,
    pub from: String,
    pub to: String,
    pub amount: u64,
    pub fee: u64,
    pub parent_1: TxHash,
    pub parent_2: TxHash,
    pub weight: u64,
    pub is_tip: bool,
    pub dag_tx_index: u64,
    pub fee_split: FeeSplit,
    /// Whether the vertex lost a conflict and does not affect balances.
    pub conflicted: bool,
}

/// A row as mathematical data.
#[verifier::ext_equal]
pub struct RowView {
    pub hash: TxHash,
    pub from: Seq<char>,
    pub to: Seq<char>,
    pub amount: u64,
    pub fee: u64,
    pub parent_1: TxHash,
    pub parent_2: TxHash,
    pub weight: u64,
    pub is_tip: bool,
    pub dag_tx_index: u64,
    pub miner_amount: u64,
    pub relay_amount: u64,
    pub miner_address: Seq<char>,
    pub relay_addresses: Seq<Seq<char>>,
    pub conflicted: bool,
}

impl View for IndexedTransaction {
    type V = RowView;

    open spec fn view(&self) -> RowView {
        RowView {
            hash: self.hash,
            from: self.from@,
            to: self.to@,
            amount: self.amount,
            fee: self.fee,
            parent_1: self.parent_1,
            parent_2: self.parent_2,
            weight: self.weight,
            is_tip: self.is_tip,
            dag_tx_index: self.dag_tx_index,
            miner_amount: self.fee_split.miner_amount,
            relay_amount: self.fee_split.relay_amount,
            miner_address: self.fee_split.miner_address@,
            relay_addresses: text_views(self.fee_split.relay_addresses@),
            conflicted: self.conflicted,
        }
    }
}

fn copy_texts(v: &Vec<String>) -> (r: Vec<String>)
    ensures
        text_views(r@) == text_views(v@),
{
    let mut out: Vec<String> = Vec::new();
    let mut i: usize = 0;
    while i < v.len()
        invariant
            i <= v@.len(),
            out@.len() == i,
            forall|j: int| 0 <= j < i ==> (#[trigger] out@[j])@ == v@[j]@,
        decreases v@.len() - i,
    {
        out.push(owned(v[i].as_str()));
        i += 1;
    }
    assert(text_views(out@) =~= text_views(v@));
    out
}

impl Clone for IndexedTransaction {
    fn clone(&self) -> (r: Self)
        ensures
            r@ == self@,
    {
        IndexedTransaction {
            hash: self.hash,
            from: owned(self.from.as_str()),
            to: owned(self.to.as_str()),
            amount: self.amount,
            fee: self.fee,
            parent_1: self.parent_1,
            parent_2: self.parent_2,
            weight: self.weight,
            is_tip: self.is_tip,
            dag_tx_index: self.dag_tx_index,
            fee_split: FeeSplit {
                miner_amount: self.fee_split.miner_amount,
                relay_amount: self.fee_split.relay_amount,
                miner_address: owned(self.fee_split.miner_address.as_str()),
                relay_addresses: copy_texts(&self.fee_split.relay_addresses),
            },
            conflicted: self.conflicted,
        }
    }
}

pub open spec fn row_views(v: Seq<IndexedTransaction>) -> Seq<RowView> {
    v.map_values(|t: IndexedTransaction| t@)
}

/// A recent vertex with its share of the pool.
#[derive(Debug, PartialEq, Eq)]
pub struct IndexedVertex {
    pub hash: TxHash,
    pub tx_count: u64,
    pub subsidy: u64,
    pub total_fees: u64,
    pub miner_share: u64,
    pub relay_share: u64,
    pub miner: String,
    pub txs: Vec<IndexedTransaction>,
}

/// A recent vertex as mathematical data.
#[verifier::ext_equal]
pub struct VertexView {
    pub hash: TxHash,
    pub tx_count: u64,
    pub subsidy: u64,
    pub total_fees: u64,
    pub miner_share: u64,
    pub relay_share: u64,
    pub miner: Seq<char>,
    pub txs: Seq<RowView>,
}

impl View for IndexedVertex {
    type V = VertexView;

    open spec fn view(&self) -> VertexView {
        VertexView {
            hash: self.hash,
            tx_count: self.tx_count,
            subsidy: self.subsidy,
            total_fees: self.total_fees,
            miner_share: self.miner_share,
            relay_share: self.relay_share,
            miner: self.miner@,
            txs: row_views(self.txs@),
        }
    }
}

/// The vertex of a row.
pub open spec fn vertex_row(r: RowView) -> VertexView {
    let pool = capped_add(r.miner_amount, r.relay_amount);
    VertexView {
        hash: r.hash,
        tx_count: 1,
        subsidy: if pool < r.fee {
            0
        } else {
            (pool - r.fee) as u64
        },
        total_fees: r.fee,
        miner_share: r.miner_amount,
        relay_share: r.relay_amount,
        miner: r.from,
        txs: seq![r],
    }
}

/// What the index knows of a wallet.
#[derive(Debug, PartialEq, Eq)]
pub struct WalletSnapshot {
    pub address: String,
    pub balance: u64,
    pub nonce: u64,
    pub txs: Vec<IndexedTransaction>,
}

/// Circulating supply against the cap, and the way to the next halving.
#[derive(Clone, Copy, Debug, PartialEq, Eq)]
pub struct NetworkStats {
    pub vertex_count: u64,
    pub tip_count: u64,
    pub dag_tx_count: u64,
    pub circulating_supply: u64,
    pub hard_cap: u64,
    pub txs_remaining_until_halving: u64,
}

/// Stats of so many vertices and tips.
pub open spec fn stats_of(vertices: u64, tips: u64, count: u64, supply: u64) -> NetworkStats {
    NetworkStats {
        vertex_count: vertices,
        tip_count: tips,
        dag_tx_count: count,
        circulating_supply: supply,
        hard_cap: HARD_CAP,
        txs_remaining_until_halving: (TX_HALVING_INTERVAL - count % TX_HALVING_INTERVAL) as u64,
    }
}

impl Default for NetworkStats {
    fn default() -> (r: Self)
        ensures
            r == stats_of(0, 0, 0, 0),
    {
        NetworkStats {
            vertex_count: 0,
            tip_count: 0,
            dag_tx_count: 0,
            circulating_supply: 0,
            hard_cap: HARD_CAP,
            txs_remaining_until_halving: txs_remaining_until_halving(0),
        }
    }
}

fn encode_kron1(addr: Address) -> (r: String)
    ensures
        r@ == kron_text(addr@),
{
    KronAddress::from_hash(addr).into_string()
}

/// The address that a text names: a `kron1…` text, or 64 hexadecimal digits with or
/// without `0x`.
pub open spec fn named_address(input: Seq<char>) -> Option<Address> {
    let t = trimmed(input);
    if t.len() == 0 {
        None
    } else {
        match decoded(encode_utf8(without_fillers(t))) {
            Ok(b) => Some(array_of(b)),
            Err(_) => match parsed_hash(t) {
                Some(b) => Some(array_of(b)),
                None => None,
            },
        }
    }
}

/// Reads a `kron1…` text or a hexadecimal address.
pub fn parse_explorer_address(input: &str) -> (r: Option<Address>)
    ensures
        r == named_address(input@),
{
    let t = trim(chars_of(input).as_slice());
    if t.len() == 0 {
        return None;
    }
    let text = text_of(t.as_slice());
    match KronAddress::parse(text.as_str()) {
        Ok(parsed) => {
            proof {
                lemma_array_of(parsed@);
            }
            Some(*parsed.as_bytes())
        },
        Err(_) => match parse_hex32(text.as_str()) {
            Some(h) => {
                proof {
                    lemma_array_of(h);
                }
                Some(h)
            },
            None => None,
        },
    }
}

/// The pool of the `index`-th confirmed vertex: its subsidy and fee; nothing for genesis.
pub open spec fn pool_of(t: TxView, index: u64) -> u64 {
    if t.is_genesis() {
        0
    } else {
        capped_add(
            tx_subsidy(
                if index == 0 {
                    0
                } else {
                    (index - 1) as u64
                },
                0,
            ),
            t.fee,
        )
    }
}

/// The row of a vertex.
pub open spec fn indexed(d: DagView, t: TxView, index: u64) -> RowView {
    let pool = pool_of(t, index);
    RowView {
        hash: t.id,
        from: t.sender_kron1,
        to: t.recipient_kron1,
        amount: t.amount,
        fee: t.fee,
        parent_1: t.parent_1,
        parent_2: t.parent_2,
        weight: amount_at(d.graph.weights, t.id),
        is_tip: d.graph.tips.contains(t.id),
        dag_tx_index: index,
        miner_amount: share(pool, DAG_MINER_SHARE_PERCENT),
        relay_amount: (pool - share(pool, DAG_MINER_SHARE_PERCENT)) as u64,
        miner_address: t.sender_kron1,
        relay_addresses: t.relay_nodes.map_values(|a: Address| kron_text(a@)),
        conflicted: d.conflicts.contains_key(t.id),
    }
}

/// The row of a vertex that is the `dag_tx_index`-th confirmed one.
pub fn index_vertex(dag: &KronDAG, tx: &DagTransaction, dag_tx_index: u64) -> (r:
    IndexedTransaction)
    requires
        dag.wf(),
    ensures
        r@ == indexed(dag@, tx@, dag_tx_index),
{
    let pool: u64 = if tx.is_genesis() {
        0
    } else {
        get_current_tx_subsidy(dag_tx_index.saturating_sub(1), 0).saturating_add(tx.fee)
    };
    let mut relay_addresses: Vec<String> = Vec::new();
    let mut i: usize = 0;
    while i < tx.relay_nodes.len()
        invariant
            i <= tx.relay_nodes@.len(),
            relay_addresses@.len() == i,
            forall|j: int|
                0 <= j < i ==> (#[trigger] relay_addresses@[j])@ == kron_text(
                    tx.relay_nodes@[j]@,
                ),
        decreases tx.relay_nodes@.len() - i,
    {
        relay_addresses.push(encode_kron1(tx.relay_nodes[i]));
        i += 1;
    }
    let r = IndexedTransaction {
        hash: tx.id,
        from: owned(tx.sender_kron1.as_str()),
        to: owned(tx.recipient_kron1.as_str()),
        amount: tx.amount,
        fee: tx.fee,
        parent_1: tx.parent_1,
        parent_2: tx.parent_2,
        weight: dag.cumulative_weight(&tx.id),
        is_tip: dag.tips().contains(&tx.id),
        dag_tx_index,
        fee_split: FeeSplit {
            miner_amount: dag_miner_share_of(pool),
            relay_amount: dag_relay_total_of(pool),
            miner_address: owned(tx.sender_kron1.as_str()),
            relay_addresses,
        },
        conflicted: dag.is_conflict(&tx.id),
    };
    assert(r@ =~~= indexed(dag@, tx@, dag_tx_index));
    r
}

/// The index in memory.
#[derive(Debug)]
pub struct ExplorerEngine {
    rows: Vec<IndexedTransaction>,
    balances: Table<32, u64>,
    nonces: Table<32, u64>,
    genesis: TxHash,
    tips: Vec<TxHash>,
    circulating_supply: u64,
    dag_tx_count: u64,
    vertex_count: u64,
}

/// The index as mathematical data.
#[verifier::ext_equal]
pub struct IndexView {
    pub rows: Seq<RowView>,
    pub balances: Map<Address, u64>,
    pub nonces: Map<Address, u64>,
    pub genesis: TxHash,
    pub tips: Seq<TxHash>,
    pub circulating_supply: u64,
    pub dag_tx_count: u64,
    pub vertex_count: u64,
}

impl View for ExplorerEngine {
    type V = IndexView;

    closed spec fn view(&self) -> IndexView {
        IndexView {
            rows: row_views(self.rows@),
            balances: self.balances@,
            nonces: self.nonces@,
            genesis: self.genesis,
            tips: self.tips@,
            circulating_supply: self.circulating_supply,
            dag_tx_count: self.dag_tx_count,
            vertex_count: self.vertex_count,
        }
    }
}

/// The rows of a graph, in attach order. Genesis has number zero.
pub open spec fn rows_of(d: DagView) -> Seq<RowView> {
    Seq::new(
        d.graph.order.len(),
        |i: int| indexed(d, d.graph.vertices[d.graph.order[i]], i as u64),
    )
}

/// Whether a row belongs to the history of the wallet with this address text.
pub open spec fn concerns(r: RowView, kron1: Seq<char>) -> bool {
    ||| r.from == kron1 && named_address(r.from) is Some
    ||| r.to == kron1 && r.to != r.from
}

/// The row with this hash that comes first from `i` on.
pub open spec fn row_from(rows: Seq<RowView>, hash: TxHash, i: int) -> Option<RowView>
    decreases rows.len() - i,
{
    if !(0 <= i < rows.len()) {
        None
    } else if rows[i].hash == hash {
        Some(rows[i])
    } else {
        row_from(rows, hash, i + 1)
    }
}

/// At most the last `n` rows, newest first.
pub open spec fn latest(rows: Seq<RowView>, n: int) -> Seq<RowView> {
    Seq::new(
        if rows.len() <= n {
            rows.len()
        } else {
            n as nat
        },
        |i: int| rows[rows.len() - 1 - i],
    )
}

impl IndexView {
    pub open spec fn blank() -> IndexView {
        IndexView {
            rows: Seq::empty(),
            balances: Map::empty(),
            nonces: Map::empty(),
            genesis: NULL_PARENT,
            tips: Seq::empty(),
            circulating_supply: 0,
            dag_tx_count: 0,
            vertex_count: 0,
        }
    }

    /// The index of a graph.
    pub open spec fn of(d: DagView) -> IndexView {
        IndexView {
            rows: rows_of(d),
            balances: d.ledger.balances,
            nonces: d.ledger.nonces,
            genesis: d.graph.genesis_id(),
            tips: ordered(d.graph.tips),
            circulating_supply: d.ledger.supply,
            dag_tx_count: d.ledger.count,
            vertex_count: d.graph.vertices.dom().len() as u64,
        }
    }

    pub open spec fn balance(self, address: Seq<char>) -> u64 {
        match named_address(address) {
            Some(a) => amount_at(self.balances, a),
            None => 0,
        }
    }

    pub open spec fn nonce(self, address: Seq<char>) -> u64 {
        match named_address(address) {
            Some(a) => amount_at(self.nonces, a),
            None => 0,
        }
    }

    /// The rows of a wallet, in attach order.
    pub open spec fn history(self, address: Seq<char>) -> Seq<RowView> {
        match named_address(address) {
            Some(a) => self.rows.filter(|r: RowView| concerns(r, kron_text(a@))),
            None => Seq::empty(),
        }
    }

    /// The address text that is shown for an input.
    pub open spec fn shown(self, address: Seq<char>) -> Seq<char> {
        match named_address(address) {
            Some(a) => kron_text(a@),
            None => trimmed(address),
        }
    }

    /// The parents for a new vertex: the first two tips, with genesis for those that
    /// are missing.
    pub open spec fn parents(self) -> (TxHash, TxHash) {
        if self.tips.len() == 0 {
            (self.genesis, self.genesis)
        } else if self.tips.len() == 1 {
            (self.tips[0], self.genesis)
        } else {
            (self.tips[0], self.tips[1])
        }
    }

    pub open spec fn stats(self) -> NetworkStats {
        stats_of(
            self.vertex_count,
            self.tips.len() as u64,
            self.dag_tx_count,
            self.circulating_supply,
        )
    }
}

impl Default for ExplorerEngine {
    fn default() -> (r: Self)
        ensures
            r.wf(),
            r@ == IndexView::blank(),
    {
        let r = ExplorerEngine {
            rows: Vec::new(),
            balances: Table::new(),
            nonces: Table::new(),
            genesis: NULL_PARENT,
            tips: Vec::new(),
            circulating_supply: 0,
            dag_tx_count: 0,
            vertex_count: 0,
        };
        assert(r@ =~= IndexView::blank());
        r
    }
}

impl ExplorerEngine {
    pub closed spec fn wf(&self) -> bool {
        self.balances.wf() && self.nonces.wf()
    }

    pub fn new() -> (r: Self)
        ensures
            r.wf(),
            r@ == IndexView::blank(),
    {
        Self::default()
    }

    /// Builds the index of a graph anew.
    pub fn sync_from_dag(&mut self, dag: &KronDAG)
        requires
            dag.wf(),
        ensures
            final(self).wf(),
            final(self)@ == IndexView::of(dag@),
    {
        let state = MeshState::from_dag(dag);
        let txs = dag.transactions_in_order();
        let ghost g = dag@.graph;
        proof {
            lemma_order_bodies(g);
            assert(list_views(txs@).len() == txs@.len());
        }
        let mut rows: Vec<IndexedTransaction> = Vec::new();
        let mut user_index: u64 = 0;
        let mut i: usize = 0;
        while i < txs.len()
            invariant
                dag.wf(),
                g == dag@.graph,
                i <= txs@.len(),
                txs@.len() == g.order.len(),
                list_views(txs@) == bodies(g, g.order),
                bodies(g, g.order) == Seq::new(g.order.len(), |k: int| g.vertices[g.order[k]]),
                forall|k: int|
                    0 <= k < g.order.len() ==> (#[trigger] g.vertices[g.order[k]]).is_genesis() == (
                    k == 0),
                user_index == (if i == 0 {
                    0
                } else {
                    i - 1
                }),
                rows@.len() == i,
                forall|k: int| 0 <= k < i ==> (#[trigger] rows@[k])@ == rows_of(dag@)[k],
            decreases txs@.len() - i,
        {
            proof {
                assert(list_views(txs@)[i as int] == txs@[i as int]@);
                assert(txs@[i as int]@ == g.vertices[g.order[i as int]]);
            }
            if !txs[i].is_genesis() {
                user_index = user_index.saturating_add(1);
            }
            rows.push(index_vertex(dag, &txs[i], user_index));
            i += 1;
        }
        assert(row_views(rows@) =~= rows_of(dag@));
        self.rows = rows;
        self.balances = state.accounts;
        self.nonces = state.nonces;
        self.genesis = state.genesis;
        self.tips = state.tips;
        self.circulating_supply = state.circulating_supply;
        self.dag_tx_count = state.dag_tx_count;
        self.vertex_count = dag.vertex_count() as u64;
    }

    /// Builds the index anew after `tx` went in, and gives its row.
    pub fn index_new_vertex(&mut self, dag: &KronDAG, tx: &DagTransaction) -> (r:
        IndexedTransaction)
        requires
            dag.wf(),
        ensures
            final(self).wf(),
            final(self)@ == IndexView::of(dag@),
            r@ == (match row_from(rows_of(dag@), tx@.id, 0) {
                Some(row) => row,
                None => indexed(dag@, tx@, dag@.ledger.count),
            }),
    {
        self.sync_from_dag(dag);
        match self.get_transaction_by_hash(tx.id) {
            Some(row) => row,
            None => index_vertex(dag, tx, dag.global_tx_count()),
        }
    }

    pub fn get_wallet_balance(&self, address: &str) -> (r: u64)
        requires
            self.wf(),
        ensures
            r == self@.balance(address@),
    {
        match parse_explorer_address(address) {
            Some(a) => self.balances.get_or(&a, 0),
            None => 0,
        }
    }

    pub fn get_wallet_snapshot(&self, address: &str) -> (r: WalletSnapshot)
        requires
            self.wf(),
        ensures
            r.address@ == self@.shown(address@),
            r.balance == self@.balance(address@),
            r.nonce == self@.nonce(address@),
            row_views(r.txs@) == self@.history(address@),
    {
        match parse_explorer_address(address) {
            Some(a) => WalletSnapshot {
                address: encode_kron1(a),
                balance: self.balances.get_or(&a, 0),
                nonce: self.nonces.get_or(&a, 0),
                txs: self.rows_concerning(encode_kron1(a).as_str()),
            },
            None => {
                let txs: Vec<IndexedTransaction> = Vec::new();
                assert(row_views(txs@) =~= Seq::<RowView>::empty());
                WalletSnapshot {
                    address: text_of(trim(chars_of(address).as_slice()).as_slice()),
                    balance: 0,
                    nonce: 0,
                    txs,
                }
            },
        }
    }

    /// Nonce, two parents and balance: what a wallet needs to compose a transfer.
    pub fn compose_hint(&self, address: &str) -> (r: (u64, TxHash, TxHash, u64))
        requires
            self.wf(),
        ensures
            r == (
                self@.nonce(address@),
                self@.parents().0,
                self@.parents().1,
                self@.balance(address@),
            ),
    {
        let nonce: u64 = match parse_explorer_address(address) {
            Some(a) => self.nonces.get_or(&a, 0),
            None => 0,
        };
        let balance: u64 = self.get_wallet_balance(address);
        let (p1, p2) = if self.tips.len() == 0 {
            (self.genesis, self.genesis)
        } else if self.tips.len() == 1 {
            (self.tips[0], self.genesis)
        } else {
            (self.tips[0], self.tips[1])
        };
        (nonce, p1, p2, balance)
    }

    pub fn get_transaction_by_hash(&self, hash: TxHash) -> (r: Option<IndexedTransaction>)
        ensures
            match r {
                Some(t) => row_from(self@.rows, hash, 0) == Some(t@),
                None => row_from(self@.rows, hash, 0) is None,
            },
    {
        let ghost v = row_views(self.rows@);
        let mut i: usize = 0;
        while i < self.rows.len()
            invariant
                i <= self.rows@.len(),
                v == row_views(self.rows@),
                v == self@.rows,
                row_from(v, hash, 0) == row_from(v, hash, i as int),
            decreases self.rows@.len() - i,
        {
            assert(v[i as int] == self.rows@[i as int]@);
            if same(&self.rows[i].hash, &hash) {
                return Some(self.rows[i].clone());
            }
            i += 1;
        }
        None
    }

    fn rows_concerning(&self, kron1: &str) -> (r: Vec<IndexedTransaction>)
        ensures
            row_views(r@) == self@.rows.filter(|r: RowView| concerns(r, kron1@)),
    {
        let ghost v = row_views(self.rows@);
        let ghost f = |r: RowView| concerns(r, kron1@);
        let mut out: Vec<IndexedTransaction> = Vec::new();
        let mut i: usize = 0;
        assert(v.take(0).filter(f) =~= row_views(out@)) by {
            assert(v.take(0) =~= Seq::<RowView>::empty());
            reveal(Seq::filter);
        }
        while i < self.rows.len()
            invariant
                i <= self.rows@.len(),
                v == row_views(self.rows@),
                f == (|r: RowView| concerns(r, kron1@)),
                row_views(out@) == v.take(i as int).filter(f),
            decreases self.rows@.len() - i,
        {
            let ghost before = out@;
            proof {
                assert(v[i as int] == self.rows@[i as int]@);
                assert(v.take(i + 1) =~= v.take(i as int).push(v[i as int]));
                v.take(i as int).lemma_filter_push(v[i as int], f);
            }
            let row = &self.rows[i];
            let sent = same_text(row.from.as_str(), kron1) && parse_explorer_address(
                row.from.as_str(),
            ).is_some();
            let got = same_text(row.to.as_str(), kron1) && !same_text(
                row.to.as_str(),
                row.from.as_str(),
            );
            if sent || got {
                let c = row.clone();
                out.push(c);
                assert(row_views(out@) =~= row_views(before).push(c@));
            }
            i += 1;
        }
        assert(v.take(i as int) =~= v);
        out
    }

    pub fn get_wallet_history(&self, address: &str) -> (r: Vec<IndexedTransaction>)
        ensures
            row_views(r@) == self@.history(address@),
    {
        match parse_explorer_address(address) {
            Some(a) => self.rows_concerning(encode_kron1(a).as_str()),
            None => {
                let out: Vec<IndexedTransaction> = Vec::new();
                assert(row_views(out@) =~= Seq::<RowView>::empty());
                out
            },
        }
    }

    pub fn get_network_stats(&self) -> (r: NetworkStats)
        ensures
            r == self@.stats(),
    {
        NetworkStats {
            vertex_count: self.vertex_count,
            tip_count: self.tips.len() as u64,
            dag_tx_count: self.dag_tx_count,
            circulating_supply: self.circulating_supply,
            hard_cap: HARD_CAP,
            txs_remaining_until_halving: txs_remaining_until_halving(self.dag_tx_count),
        }
    }

    pub fn tips(&self) -> (r: Vec<TxHash>)
        ensures
            r@ == self@.tips,
    {
        copy_keys(&self.tips)
    }

    /// The newest vertices first, at most `limit`.
    pub fn recent_vertices(&self, limit: usize) -> (r: Vec<IndexedVertex>)
        ensures
            vertex_views(r@) == latest(self@.rows, limit as int).map_values(
                |t: RowView| vertex_row(t),
            ),
    {
        let rows = self.recent_transactions(limit);
        let ghost v = row_views(rows@);
        let mut out: Vec<IndexedVertex> = Vec::new();
        let mut i: usize = 0;
        while i < rows.len()
            invariant
                i <= rows@.len(),
                v == row_views(rows@),
                out@.len() == i,
                forall|k: int| 0 <= k < i ==> (#[trigger] out@[k])@ == vertex_row(v[k]),
            decreases rows@.len() - i,
        {
            assert(v[i as int] == rows@[i as int]@);
            let row = rows[i].clone();
            let ghost t = row@;
            let pool: u64 = row.fee_split.miner_amount.saturating_add(row.fee_split.relay_amount);
            let hash = row.hash;
            let fee: u64 = row.fee;
            let miner_share: u64 = row.fee_split.miner_amount;
            let relay_share: u64 = row.fee_split.relay_amount;
            let miner = owned(row.from.as_str());
            let mut txs: Vec<IndexedTransaction> = Vec::new();
            txs.push(row);
            assert(row_views(txs@) =~= seq![t]);
            out.push(
                IndexedVertex {
                    hash,
                    tx_count: 1,
                    subsidy: pool.saturating_sub(fee),
                    total_fees: fee,
                    miner_share,
                    relay_share,
                    miner,
                    txs,
                },
            );
            i += 1;
        }
        assert(vertex_views(out@) =~= v.map_values(|t: RowView| vertex_row(t)));
        out
    }

    /// The newest rows first, at most `limit`.
    pub fn recent_transactions(&self, limit: usize) -> (r: Vec<IndexedTransaction>)
        ensures
            row_views(r@) == latest(self@.rows, limit as int),
    {
        let n: usize = if self.rows.len() <= limit {
            self.rows.len()
        } else {
            limit
        };
        let mut out: Vec<IndexedTransaction> = Vec::new();
        let mut i: usize = 0;
        while i < n
            invariant
                i <= n <= self.rows@.len(),
                out@.len() == i,
                forall|k: int|
                    0 <= k < i ==> (#[trigger] out@[k])@ == self.rows@[self.rows@.len() - 1 - k]@,
            decreases n - i,
        {
            out.push(self.rows[self.rows.len() - 1 - i].clone());
            i += 1;
        }
        assert(row_views(out@) =~= latest(self@.rows, limit as int));
        out
    }
}

pub open spec fn vertex_views(v: Seq<IndexedVertex>) -> Seq<VertexView> {
    v.map_values(|x: IndexedVertex| x@)
}

/// The vertices in attach order, of which the first alone is genesis.
proof fn lemma_order_bodies(g: GraphView)
    requires
        g.sound(),
    ensures
        bodies(g, g.order) == Seq::new(g.order.len(), |k: int| g.vertices[g.order[k]]),
        forall|k: int|
            0 <= k < g.order.len() ==> (#[trigger] g.vertices[g.order[k]]).is_genesis() == (k == 0),
{
    assert forall|i: int| 0 <= i < g.order.len() implies g.vertices.contains_key(
        #[trigger] g.order[i],
    ) by {
        assert(g.order.contains(g.order[i]));
    }
    lemma_bodies_of_stored(g, g.order);
    assert forall|k: int| 0 <= k < g.order.len() implies (
    #[trigger] g.vertices[g.order[k]]).is_genesis() == (k == 0) by {
        assert(g.grounded(k));
    }
}

/// Every stored vertex has a row, found by its hash, with its place in the attach
/// order; and nothing else has one.
pub proof fn law_index_mirrors_the_graph(d: DagView, hash: TxHash)
    requires
        d.graph.sound(),
    ensures
        match row_from(rows_of(d), hash, 0) {
            Some(r) => {
                &&& d.graph.vertices.contains_key(hash)
                &&& r == indexed(d, d.graph.vertices[hash], r.dag_tx_index)
                &&& r.dag_tx_index < d.graph.order.len() || d.graph.order.len() > u64::MAX
                &&& d.graph.order.len() <= u64::MAX ==> d.graph.order[r.dag_tx_index as int]
                    == hash
            },
            None => !d.graph.vertices.contains_key(hash),
        },
{
    lemma_row_from(d, hash, 0);
    let g = d.graph;
    if g.vertices.contains_key(hash) {
        assert(g.order.contains(hash));
        let i = choose|i: int| 0 <= i < g.order.len() && g.order[i] == hash;
        assert(g.order[i] == hash);
    }
}

proof fn lemma_row_from(d: DagView, hash: TxHash, i: int)
    requires
        d.graph.sound(),
        0 <= i <= d.graph.order.len(),
    ensures
        match row_from(rows_of(d), hash, i) {
            Some(r) => {
                &&& d.graph.vertices.contains_key(hash)
                &&& r == indexed(d, d.graph.vertices[hash], r.dag_tx_index)
                &&& r.dag_tx_index < d.graph.order.len() || d.graph.order.len() > u64::MAX
                &&& d.graph.order.len() <= u64::MAX ==> d.graph.order[r.dag_tx_index as int]
                    == hash
            },
            None => forall|k: int|
                i <= k < d.graph.order.len() ==> #[trigger] d.graph.order[k] != hash,
        },
    decreases d.graph.order.len() - i,
{
    let g = d.graph;
    if i < g.order.len() {
        assert(g.order.contains(g.order[i]));
        assert(g.vertices.contains_key(g.order[i]));
        assert(rows_of(d)[i].hash == g.order[i]);
        if g.order[i] != hash {
            lemma_row_from(d, hash, i + 1);
        }
    }
}

/// A wallet's history holds what it sent and what it got, and nothing else.
pub proof fn law_history_concerns_the_wallet(x: IndexView, address: Seq<char>, r: RowView)
    requires
        named_address(address) is Some,
    ensures
        x.history(address).contains(r) <==> x.rows.contains(r) && concerns(
            r,
            kron_text(named_address(address).unwrap()@),
        ),
{
    let kron1 = kron_text(named_address(address).unwrap()@);
    let f = |t: RowView| concerns(t, kron1);
    let h = x.history(address);
    assert(h == x.rows.filter(f));
    if h.contains(r) {
        let i = choose|i: int| 0 <= i < h.len() && h[i] == r;
        x.rows.lemma_filter_pred(f, i);
        x.rows.lemma_filter_contains_rev(f, r);
    }
    if x.rows.contains(r) && concerns(r, kron1) {
        let i = choose|i: int| 0 <= i < x.rows.len() && x.rows[i] == r;
        x.rows.lemma_filter_contains(f, i);
    }
}

/// The text of an address names that address.
pub proof fn law_text_names_its_address(a: Address)
    ensures
        named_address(kron_text(a@)) == Some(a),
{
    let k = kron_text(a@);
    crate::kron::bech32::law_kron_round_trip(a@);
    lemma_array_of(a);
    crate::kron::bech32::lemma_kron_text_has_no_filler(a@);
    crate::kron::bech32::lemma_kron_text_is_plain(a@, crate::kron::bech32::KRON1_LEN - 1);
    assert(k.take(5)[0] == crate::kron::bech32::kron1_prefix()[0]);
    crate::text::lemma_nothing_to_trim(k);
}

/// The history of a wallet is the rows of what it sent and of what it received, each as
/// often as the index has it and in its order, and nothing else.
pub proof fn law_history_is_sent_and_received(x: IndexView, a: Address)
    ensures
        ({
            let k = kron_text(a@);
            x.history(k) == x.rows.filter(|r: RowView| r.from == k || r.to == k)
        }),
        forall|r: RowView| #[trigger]
            x.history(kron_text(a@)).contains(r) <==> x.rows.contains(r) && (r.from == kron_text(
                a@,
            ) || r.to == kron_text(a@)),
{
    let k = kron_text(a@);
    law_text_names_its_address(a);
    let f = |r: RowView| concerns(r, k);
    let g = |r: RowView| r.from == k || r.to == k;
    assert(f =~= g);
    assert forall|r: RowView| #[trigger] x.history(k).contains(r) <==> x.rows.contains(r) && (r.from
        == k || r.to == k) by {
        law_history_concerns_the_wallet(x, k, r);
    }
}

/// The row of a stored vertex tells the vertex: who sent how much to whom, at what fee, on
/// which parents, how heavy it is, whether it is a tip and whether it lost a conflict.
pub proof fn law_row_tells_the_vertex(d: DagView, i: int)
    requires
        0 <= i < d.graph.order.len() <= u64::MAX,
    ensures
        ({
            let r = IndexView::of(d).rows[i];
            let id = d.graph.order[i];
            let t = d.graph.vertices[id];
            &&& IndexView::of(d).rows.len() == d.graph.order.len()
            &&& r.hash == t.id
            &&& r.from == t.sender_kron1
            &&& r.to == t.recipient_kron1
            &&& r.amount == t.amount
            &&& r.fee == t.fee
            &&& r.parent_1 == t.parent_1
            &&& r.parent_2 == t.parent_2
            &&& r.dag_tx_index == i
            &&& d.graph.weights.contains_key(t.id) ==> r.weight == d.graph.weights[t.id]
            &&& r.is_tip == d.graph.tips.contains(t.id)
            &&& r.conflicted == d.conflicts.contains_key(t.id)
            &&& r.miner_address == t.sender_kron1
            &&& r.relay_addresses.len() == t.relay_nodes.len()
            &&& forall|j: int|
                0 <= j < t.relay_nodes.len() ==> #[trigger] r.relay_addresses[j] == kron_text(
                    t.relay_nodes[j]@,
                )
        }),
{
}

/// The shares that a row shows make up its pool: nothing for genesis, subsidy and fee for
/// every other vertex, of which the miner has 80%, rounded down.
pub proof fn law_row_shares_the_pool(d: DagView, t: TxView, index: u64)
    requires
        t.fee <= 1_000_000_000_000,
    ensures
        ({
            let r = indexed(d, t, index);
            let pool = r.miner_amount + r.relay_amount;
            &&& r.miner_amount == pool * 80 / 100
            &&& t.parent_1 == NULL_PARENT && t.parent_2 == NULL_PARENT ==> pool == 0
            &&& t.parent_1 != NULL_PARENT || t.parent_2 != NULL_PARENT ==> t.fee <= pool <= t.fee
                + 100_000
            &&& (t.parent_1 != NULL_PARENT || t.parent_2 != NULL_PARENT) && index
                <= 126_144_000 ==> pool == t.fee + 100_000
        }),
{
    let count = if index == 0 {
        0
    } else {
        (index - 1) as u64
    };
    crate::economics::law_subsidy_respects_cap(count, 0);
    if index <= 126_144_000 {
        crate::economics::law_first_era_mints_a_tenth(count, 0);
    }
}

/// A wallet is shown the balance and the nonce that the ledger has for it, and a transfer to
/// it is in its history with its sender, its recipient and its amount.
pub proof fn law_wallet_sees_its_ledger(d: DagView, a: Address, i: int)
    requires
        0 <= i < d.graph.order.len() <= u64::MAX,
        d.graph.vertices[d.graph.order[i]].sender_kron1 == kron_text(
            d.graph.vertices[d.graph.order[i]].sender@,
        ),
        d.graph.vertices[d.graph.order[i]].recipient_kron1 == kron_text(
            d.graph.vertices[d.graph.order[i]].recipient@,
        ),
    ensures
        ({
            let x = IndexView::of(d);
            let k = kron_text(a@);
            let t = d.graph.vertices[d.graph.order[i]];
            &&& d.ledger.balances.contains_key(a) ==> x.balance(k) == d.ledger.balances[a]
            &&& !d.ledger.balances.contains_key(a) ==> x.balance(k) == 0
            &&& d.ledger.nonces.contains_key(a) ==> x.nonce(k) == d.ledger.nonces[a]
            &&& !d.ledger.nonces.contains_key(a) ==> x.nonce(k) == 0
            &&& a == t.sender || a == t.recipient ==> exists|r: RowView|
                {
                    &&& #[trigger] x.history(k).contains(r)
                    &&& r.hash == t.id
                    &&& r.from == kron_text(t.sender@)
                    &&& r.to == kron_text(t.recipient@)
                    &&& r.amount == t.amount
                    &&& r.fee == t.fee
                }
        }),
{
    let x = IndexView::of(d);
    law_text_names_its_address(a);
    law_history_is_sent_and_received(x, a);
    law_row_tells_the_vertex(d, i);
    let r = x.rows[i];
    assert(x.rows.contains(r));
    if a == d.graph.vertices[d.graph.order[i]].sender || a
        == d.graph.vertices[d.graph.order[i]].recipient {
        assert(x.history(kron_text(a@)).contains(r));
    }
}

/// The newest rows come first: row `i` of the list is the `i`-th from the end of the index,
/// and the list is as long as asked for or holds them all.
pub proof fn law_newest_rows_come_first(x: IndexView, limit: int, i: int)
    requires
        0 <= limit,
    ensures
        latest(x.rows, limit).len() == (if limit < x.rows.len() {
            limit
        } else {
            x.rows.len() as int
        }),
        0 <= i < latest(x.rows, limit).len() ==> latest(x.rows, limit)[i] == x.rows.reverse()[i],
{
}

/// The parents that the index proposes are tips of the graph, two different ones where it
/// has two, and genesis where one is missing.
pub proof fn law_proposed_parents_are_tips(d: DagView)
    requires
        d.graph.tips.finite(),
    ensures
        ({
            let (p, q) = IndexView::of(d).parents();
            let g = d.graph;
            &&& g.tips.len() == 0 ==> p == g.genesis_id() && q == g.genesis_id()
            &&& g.tips.len() == 1 ==> g.tips.contains(p) && q == g.genesis_id()
            &&& g.tips.len() >= 2 ==> g.tips.contains(p) && g.tips.contains(q) && p != q
        }),
{
    let o = ordered(d.graph.tips);
    crate::table::lemma_ordered_set(d.graph.tips);
    crate::table::lemma_ascending_distinct(o);
    o.unique_seq_to_set();
    if o.len() > 0 {
        assert(o.to_set().contains(o[0]));
    }
    if o.len() > 1 {
        assert(o.to_set().contains(o[1]));
        assert(o[0] != o[1]);
    }
}

} // verus!
