//! Log of vertices and snapshot of the ledger.
//!
//! A restart credits the snapshot's faucet entries to a fresh graph and replays the
//! logged vertices, which restores the graph. Files are the caller's part.

use vstd::prelude::*;

use crate::bytes::{
    append, array32, get_u32, get_u64, le_bytes, le_value, lemma_le_bytes_len,
    lemma_le_value_of_bytes, lemma_pow256_values, put_le, put_u64, same, slices_equal,
};
use crate::crypto::hash::{sha256, sha256_of};
use crate::crypto::lattice::CryptoError;
use crate::dag::engine::{genesis_tx, KronDAG};
use crate::dag::error::DagError;
use crate::dag::model::{
    climb, parents_in, real_parents, DagView, GraphView, ANCESTOR_WALK_BOUND,
};
use crate::dag::tx::{
    array_of, is_wire_ready, join_addresses, law_canonical_round_trip, lemma_array_of,
    lemma_joined_address, lemma_joined_len, parsed_tx, DagTransaction, TxHash, TxView,
};
use crate::p2p::frame::sub_bytes;
use crate::table::{copy_keys, lemma_ordered, lemma_ordered_set, ordered, Table};
use crate::text::push_text;
use crate::types::Address;

verus! {

/// `KRDW`.
pub const WAL_MAGIC: [u8; 4] = [0x4b, 0x52, 0x44, 0x57];

/// `KRDS`.
pub const SNAP_MAGIC: [u8; 4] = [0x4b, 0x52, 0x44, 0x53];

pub const VERSION: u8 = 1;

/// Confirmed transfers between snapshots.
pub const SNAPSHOT_EVERY: u64 = 8;

#[derive(Debug, PartialEq, Eq)]
pub enum PersistError {
    Io(String),
    Corrupt(&'static str),
    Crypto(CryptoError),
    Dag(DagError),
}

impl PersistError {
    pub open spec fn spec_message(&self) -> Seq<char> {
        match self {
            PersistError::Io(e) => "persist i/o: "@ + e@,
            PersistError::Corrupt(e) => "persist corrupt: "@ + e@,
            PersistError::Crypto(e) => "persist crypto: "@ + e.spec_message(),
            PersistError::Dag(e) => "persist dag: "@ + e.spec_message(),
        }
    }

    /// The error as a line of text.
    pub fn message(&self) -> (r: String)
        ensures
            r@ == self.spec_message(),
    {
        let mut out = String::new();
        match self {
            PersistError::Io(e) => {
                push_text(&mut out, "persist i/o: ");
                push_text(&mut out, e.as_str());
            },
            PersistError::Corrupt(e) => {
                push_text(&mut out, "persist corrupt: ");
                push_text(&mut out, e);
            },
            PersistError::Crypto(e) => {
                push_text(&mut out, "persist crypto: ");
                push_text(&mut out, e.message().as_str());
            },
            PersistError::Dag(e) => {
                push_text(&mut out, "persist dag: ");
                push_text(&mut out, e.message().as_str());
            },
        }
        assert(out@ =~= self.spec_message());
        out
    }
}

/// Ledger checkpoint. The vertices themselves are in the log. `faucet` is bootstrap
/// credit (not minted supply), credited again before the log is replayed.
#[derive(Debug, PartialEq, Eq)]
pub struct DagSnapshot {
    pub supply: u64,
    pub dag_tx_count: u64,
    pub vertex_count: u64,
    pub accounts: Table<32, u64>,
    pub faucet: Table<32, u64>,
    pub tips: Vec<TxHash>,
}

/// A snapshot as mathematical data.
#[verifier::ext_equal]
pub struct SnapshotView {
    pub supply: u64,
    pub dag_tx_count: u64,
    pub vertex_count: u64,
    pub accounts: Map<Address, u64>,
    pub faucet: Map<Address, u64>,
    pub tips: Seq<TxHash>,
}

impl View for DagSnapshot {
    type V = SnapshotView;

    open spec fn view(&self) -> SnapshotView {
        SnapshotView {
            supply: self.supply,
            dag_tx_count: self.dag_tx_count,
            vertex_count: self.vertex_count,
            accounts: self.accounts@,
            faucet: self.faucet@,
            tips: self.tips@,
        }
    }
}

impl SnapshotView {
    /// Nothing confirmed and nobody credited.
    pub open spec fn blank() -> SnapshotView {
        SnapshotView {
            supply: 0,
            dag_tx_count: 0,
            vertex_count: 0,
            accounts: Map::empty(),
            faucet: Map::empty(),
            tips: Seq::empty(),
        }
    }

    /// The checkpoint of a graph, with the given credits.
    pub open spec fn of(d: DagView, faucet: Map<Address, u64>) -> SnapshotView {
        SnapshotView {
            supply: d.ledger.supply,
            dag_tx_count: d.ledger.count,
            vertex_count: d.graph.vertices.dom().len() as u64,
            accounts: d.ledger.balances,
            faucet,
            tips: ordered(d.graph.tips),
        }
    }
}

impl Default for DagSnapshot {
    fn default() -> (r: Self)
        ensures
            r.wf(),
            r@ == SnapshotView::blank(),
    {
        let r = DagSnapshot {
            supply: 0,
            dag_tx_count: 0,
            vertex_count: 0,
            accounts: Table::new(),
            faucet: Table::new(),
            tips: Vec::new(),
        };
        assert(r@ =~= SnapshotView::blank());
        r
    }
}

impl DagSnapshot {
    pub open spec fn wf(&self) -> bool {
        self.accounts.wf() && self.faucet.wf()
    }

    pub fn from_dag(dag: &KronDAG) -> (r: Self)
        requires
            dag.wf(),
        ensures
            r.wf(),
            r@ == SnapshotView::of(dag@, dag@.faucet),
    {
        Self::from_dag_with_faucet(dag, dag.faucet_snapshot())
    }

    pub fn from_dag_with_faucet(dag: &KronDAG, faucet: Table<32, u64>) -> (r: Self)
        requires
            dag.wf(),
            faucet.wf(),
        ensures
            r.wf(),
            r@ == SnapshotView::of(dag@, faucet@),
    {
        let tips = dag.tip_list();
        proof {
            lemma_ordered(tips@);
        }
        DagSnapshot {
            supply: dag.supply(),
            dag_tx_count: dag.global_tx_count(),
            vertex_count: dag.vertex_count() as u64,
            accounts: dag.account_snapshot(),
            faucet,
            tips,
        }
    }
}

impl Clone for DagSnapshot {
    fn clone(&self) -> (r: Self)
        ensures
            self.wf() ==> r.wf(),
            r@ == self@,
    {
        DagSnapshot {
            supply: self.supply,
            dag_tx_count: self.dag_tx_count,
            vertex_count: self.vertex_count,
            accounts: self.accounts.copy(),
            faucet: self.faucet.copy(),
            tips: copy_keys(&self.tips),
        }
    }
}

/// One logged vertex.
#[derive(Debug)]
pub struct WalRecord {
    pub tx: DagTransaction,
}

pub open spec fn record_views(v: Seq<WalRecord>) -> Seq<TxView> {
    v.map_values(|r: WalRecord| r.tx@)
}

/// A checksummed record: magic, version, length, body, and the body's digest.
pub open spec fn record_bytes(magic: Seq<u8>, body: Seq<u8>) -> Seq<u8> {
    magic + seq![VERSION] + le_bytes(body.len(), 4) + body + sha256_of(body)@
}

/// The record at `off`, with where it ends.
pub open spec fn record_at(b: Seq<u8>, off: int, magic: Seq<u8>) -> Result<
    (Seq<u8>, int),
    PersistError,
> {
    let n = le_value(b.subrange(off + 5, off + 9)) as int;
    if b.len() < off + 41 {
        Err(PersistError::Corrupt("short record"))
    } else if b.subrange(off, off + 4) != magic {
        Err(PersistError::Corrupt("bad magic"))
    } else if b[off + 4] != VERSION {
        Err(PersistError::Corrupt("unsupported version"))
    } else if b.len() < off + 9 + n + 32 {
        Err(PersistError::Corrupt("truncated body"))
    } else if b.subrange(off + 9 + n, off + 9 + n + 32) != sha256_of(
        b.subrange(off + 9, off + 9 + n),
    )@ {
        Err(PersistError::Corrupt("checksum mismatch"))
    } else {
        Ok((b.subrange(off + 9, off + 9 + n), off + 9 + n + 32))
    }
}

fn put_record(out: &mut Vec<u8>, magic: &[u8; 4], body: &[u8])
    ensures
        final(out)@ == old(out)@ + record_bytes(magic@, body@),
{
    let ghost start = out@;
    let sum = sha256(body);
    append(out, magic.as_slice());
    out.push(VERSION);
    put_le(out, body.len() as u64, 4);
    append(out, body);
    append(out, sum.as_slice());
    assert(out@ =~= start + record_bytes(magic@, body@));
}

fn read_record(bytes: &[u8], off: usize, magic: &[u8; 4]) -> (r: Result<
    (Vec<u8>, usize),
    PersistError,
>)
    requires
        off <= bytes@.len(),
    ensures
        match r {
            Ok((body, end)) => record_at(bytes@, off as int, magic@) == Ok::<
                (Seq<u8>, int),
                PersistError,
            >((body@, end as int)) && off < end <= bytes@.len(),
            Err(e) => record_at(bytes@, off as int, magic@) == Err::<(Seq<u8>, int), PersistError>(
                e,
            ),
        },
{
    if bytes.len() - off < 41 {
        return Err(PersistError::Corrupt("short record"));
    }
    if !slices_equal(vstd::slice::slice_subrange(bytes, off, off + 4), magic.as_slice()) {
        return Err(PersistError::Corrupt("bad magic"));
    }
    if bytes[off + 4] != VERSION {
        return Err(PersistError::Corrupt("unsupported version"));
    }
    let n: usize = get_u32(bytes, off + 5) as usize;
    if bytes.len() - off - 41 < n {
        return Err(PersistError::Corrupt("truncated body"));
    }
    let body = sub_bytes(bytes, off + 9, n);
    let sum = array32(bytes, off + 9 + n);
    let want = sha256(body.as_slice());
    if !same(&sum, &want) {
        proof {
            if sum@ == want@ {
                crate::bytes::lemma_array_view_eq(sum, want);
            }
        }
        return Err(PersistError::Corrupt("checksum mismatch"));
    }
    Ok((body, off + 9 + n + 32))
}

/// The vertices that a log holds from `off` on, up to the first record that is torn,
/// damaged or no vertex.
pub open spec fn logged(b: Seq<u8>, off: int) -> Seq<TxView>
    decreases b.len() - off,
{
    if off >= b.len() {
        Seq::empty()
    } else {
        match record_at(b, off, WAL_MAGIC@) {
            Ok((body, end)) => match parsed_tx(body) {
                Ok(t) => if off < end {
                    seq![t] + logged(b, end)
                } else {
                    Seq::empty()
                },
                Err(_) => Seq::empty(),
            },
            Err(_) => Seq::empty(),
        }
    }
}

/// Reads a log. A torn or damaged tail is left out.
pub fn read_wal(bytes: &[u8]) -> (r: Vec<WalRecord>)
    ensures
        record_views(r@) == logged(bytes@, 0),
{
    let mut out: Vec<WalRecord> = Vec::new();
    let mut off: usize = 0;
    let mut more = true;
    assert(record_views(out@) + logged(bytes@, 0) =~= logged(bytes@, 0));
    while more && off < bytes.len()
        invariant
            off <= bytes@.len(),
            more ==> record_views(out@) + logged(bytes@, off as int) == logged(bytes@, 0),
            !more ==> record_views(out@) == logged(bytes@, 0),
        decreases
                (if more {
                    1 + bytes@.len() - off
                } else {
                    0
                }),
    {
        let ghost before = record_views(out@);
        match read_record(bytes, off, &WAL_MAGIC) {
            Ok((body, end)) => match DagTransaction::from_canonical(body.as_slice()) {
                Ok(tx) => {
                    let ghost t = tx@;
                    out.push(WalRecord { tx });
                    proof {
                        assert(record_views(out@) =~= before.push(t));
                        assert(before + (seq![t] + logged(bytes@, end as int)) =~= record_views(
                            out@,
                        ) + logged(bytes@, end as int));
                    }
                    off = end;
                },
                Err(_) => {
                    assert(before + Seq::<TxView>::empty() =~= before);
                    more = false;
                },
            },
            Err(_) => {
                assert(before + Seq::<TxView>::empty() =~= before);
                more = false;
            },
        }
    }
    assert(record_views(out@) + Seq::<TxView>::empty() =~= record_views(out@));
    out
}

/// The entries of a map, key by key.
pub open spec fn entries(m: Map<Address, u64>, keys: Seq<Address>) -> Seq<u8>
    decreases keys.len(),
{
    if keys.len() == 0 {
        Seq::empty()
    } else {
        entries(m, keys.drop_last()) + keys.last()@ + le_bytes(m[keys.last()] as nat, 8)
    }
}

/// A map on the wire: the count, then the entries in ascending order of the keys.
pub open spec fn map_bytes(m: Map<Address, u64>) -> Seq<u8> {
    le_bytes(m.dom().len(), 4) + entries(m, ordered(m.dom()))
}

/// The map that `n` entries at `off` spell. Of two entries with one key the later wins.
pub open spec fn entries_at(b: Seq<u8>, off: int, n: nat) -> Result<
    Map<Address, u64>,
    PersistError,
>
    decreases n,
{
    if n == 0 {
        Ok(Map::empty())
    } else {
        match entries_at(b, off, (n - 1) as nat) {
            Err(e) => Err(e),
            Ok(m) => {
                let o = off + 40 * (n - 1);
                if b.len() < o + 32 {
                    Err(PersistError::Corrupt("hash"))
                } else if b.len() < o + 40 {
                    Err(PersistError::Corrupt("u64"))
                } else {
                    Ok(
                        m.insert(
                            array_of(b.subrange(o, o + 32)),
                            le_value(b.subrange(o + 32, o + 40)) as u64,
                        ),
                    )
                }
            },
        }
    }
}

/// The map at `off`, with where it ends.
pub open spec fn map_at(b: Seq<u8>, off: int) -> Result<(Map<Address, u64>, int), PersistError> {
    if b.len() < off + 4 {
        Err(PersistError::Corrupt("u32"))
    } else {
        let n = le_value(b.subrange(off, off + 4));
        match entries_at(b, off + 4, n) {
            Ok(m) => Ok((m, off + 4 + 40 * n as int)),
            Err(e) => Err(e),
        }
    }
}

/// A snapshot's body.
pub open spec fn snapshot_bytes(s: SnapshotView) -> Seq<u8> {
    le_bytes(s.supply as nat, 8) + le_bytes(s.dag_tx_count as nat, 8) + le_bytes(
        s.vertex_count as nat,
        8,
    ) + map_bytes(s.accounts) + map_bytes(s.faucet) + le_bytes(s.tips.len(), 4) + join_addresses(
        s.tips,
    )
}

/// The tips at `off`.
pub open spec fn tips_at(b: Seq<u8>, off: int) -> Result<Seq<TxHash>, PersistError> {
    if b.len() < off + 4 {
        Err(PersistError::Corrupt("u32"))
    } else {
        let n = le_value(b.subrange(off, off + 4));
        if b.len() < off + 4 + 32 * n {
            Err(PersistError::Corrupt("hash"))
        } else {
            Ok(
                Seq::new(
                    n,
                    |i: int| array_of(b.subrange(off + 4 + 32 * i, off + 4 + 32 * i + 32)),
                ),
            )
        }
    }
}

/// The snapshot that a body spells.
pub open spec fn parsed_snapshot(b: Seq<u8>) -> Result<SnapshotView, PersistError> {
    if b.len() < 24 {
        Err(PersistError::Corrupt("u64"))
    } else {
        match map_at(b, 24) {
            Err(e) => Err(e),
            Ok((accounts, f)) => match map_at(b, f) {
                Err(e) => Err(e),
                Ok((faucet, t)) => match tips_at(b, t) {
                    Err(e) => Err(e),
                    Ok(tips) => Ok(
                        SnapshotView {
                            supply: le_value(b.subrange(0, 8)) as u64,
                            dag_tx_count: le_value(b.subrange(8, 16)) as u64,
                            vertex_count: le_value(b.subrange(16, 24)) as u64,
                            accounts,
                            faucet,
                            tips,
                        },
                    ),
                },
            },
        }
    }
}

fn put_map(out: &mut Vec<u8>, table: &Table<32, u64>)
    requires
        table.wf(),
    ensures
        final(out)@ == old(out)@ + map_bytes(table@),
{
    let ghost start = out@;
    let n: usize = table.len();
    let ghost keys = table.listing();
    proof {
        table.lemma_listing();
        lemma_ordered(keys);
    }
    put_le(out, n as u64, 4);
    let ghost head = out@;
    let mut i: usize = 0;
    assert(head + entries(table@, keys.take(0)) =~= head);
    while i < n
        invariant
            table.wf(),
            keys == table.listing(),
            n == keys.len(),
            i <= n,
            out@ == head + entries(table@, keys.take(i as int)),
        decreases n - i,
    {
        let k = table.key_at(i);
        append(out, k.as_slice());
        put_u64(out, *table.value_at(i));
        proof {
            let q = keys.take(i + 1);
            assert(q.drop_last() =~= keys.take(i as int));
            assert(q.last() == k);
            assert(out@ =~= head + entries(table@, q));
        }
        i += 1;
    }
    assert(keys.take(i as int) =~= keys);
    assert(out@ =~= start + map_bytes(table@));
}

fn read_entries(bytes: &[u8], off: usize, n: u32) -> (r: Result<(Table<32, u64>, usize), PersistError>)
    requires
        off <= bytes@.len(),
    ensures
        match r {
            Ok((t, end)) => {
                &&& t.wf()
                &&& entries_at(bytes@, off as int, n as nat) == Ok::<Map<Address, u64>, PersistError>(
                    t@,
                )
                &&& end == off + 40 * n
                &&& end <= bytes@.len()
            },
            Err(e) => entries_at(bytes@, off as int, n as nat) == Err::<
                Map<Address, u64>,
                PersistError,
            >(e),
        },
{
    let mut t: Table<32, u64> = Table::new();
    let mut at: usize = off;
    let mut i: u32 = 0;
    while i < n
        invariant
            i <= n,
            off <= at <= bytes.len(),
            at == off + 40 * i,
            t.wf(),
            entries_at(bytes@, off as int, i as nat) == Ok::<Map<Address, u64>, PersistError>(t@),
        decreases n - i,
    {
        if bytes.len() - at < 32 {
            proof {
                lemma_entries_stop(bytes@, off as int, (i + 1) as nat, n as nat);
            }
            return Err(PersistError::Corrupt("hash"));
        }
        if bytes.len() - at < 40 {
            proof {
                lemma_entries_stop(bytes@, off as int, (i + 1) as nat, n as nat);
            }
            return Err(PersistError::Corrupt("u64"));
        }
        let k = array32(bytes, at);
        let v: u64 = get_u64(bytes, at + 32);
        proof {
            lemma_array_of(k);
        }
        t.insert(k, v);
        at = at + 40;
        i += 1;
    }
    Ok((t, at))
}

/// An entry that cannot be read stops the rest.
proof fn lemma_entries_stop(b: Seq<u8>, off: int, m: nat, n: nat)
    requires
        m <= n,
        entries_at(b, off, m) is Err,
    ensures
        entries_at(b, off, n) == entries_at(b, off, m),
    decreases n,
{
    if m < n {
        lemma_entries_stop(b, off, m, (n - 1) as nat);
    }
}

fn read_map(bytes: &[u8], off: usize) -> (r: Result<(Table<32, u64>, usize), PersistError>)
    requires
        off <= bytes@.len(),
    ensures
        match r {
            Ok((t, end)) => {
                &&& t.wf()
                &&& map_at(bytes@, off as int) == Ok::<(Map<Address, u64>, int), PersistError>(
                    (t@, end as int),
                )
                &&& end <= bytes@.len()
            },
            Err(e) => map_at(bytes@, off as int) == Err::<(Map<Address, u64>, int), PersistError>(e),
        },
{
    if bytes.len() - off < 4 {
        return Err(PersistError::Corrupt("u32"));
    }
    let n: u32 = get_u32(bytes, off);
    read_entries(bytes, off + 4, n)
}

fn read_tips(bytes: &[u8], off: usize) -> (r: Result<Vec<TxHash>, PersistError>)
    requires
        off <= bytes@.len(),
    ensures
        match r {
            Ok(v) => tips_at(bytes@, off as int) == Ok::<Seq<TxHash>, PersistError>(v@),
            Err(e) => tips_at(bytes@, off as int) == Err::<Seq<TxHash>, PersistError>(e),
        },
{
    if bytes.len() - off < 4 {
        return Err(PersistError::Corrupt("u32"));
    }
    let n: u32 = get_u32(bytes, off);
    let room: u64 = (bytes.len() - off - 4) as u64;
    if n as u64 * 32 > room {
        return Err(PersistError::Corrupt("hash"));
    }
    let mut tips: Vec<TxHash> = Vec::new();
    let mut i: usize = 0;
    while i < n as usize
        invariant
            i <= n,
            off + 4 + 32 * n <= bytes.len(),
            tips@.len() == i,
            forall|j: int|
                0 <= j < i ==> #[trigger] tips@[j] == array_of(
                    bytes@.subrange(off + 4 + 32 * j, off + 4 + 32 * j + 32),
                ),
        decreases n - i,
    {
        let h = array32(bytes, off + 4 + 32 * i);
        proof {
            lemma_array_of(h);
        }
        tips.push(h);
        i += 1;
    }
    assert(tips@ =~= tips_at(bytes@, off as int)->Ok_0);
    Ok(tips)
}

fn encode_snapshot(snap: &DagSnapshot) -> (r: Vec<u8>)
    requires
        snap.wf(),
    ensures
        r@ == snapshot_bytes(snap@),
{
    let mut buf: Vec<u8> = Vec::new();
    put_u64(&mut buf, snap.supply);
    put_u64(&mut buf, snap.dag_tx_count);
    put_u64(&mut buf, snap.vertex_count);
    put_map(&mut buf, &snap.accounts);
    put_map(&mut buf, &snap.faucet);
    put_le(&mut buf, snap.tips.len() as u64, 4);
    let ghost head = buf@;
    let mut i: usize = 0;
    assert(head + join_addresses(snap.tips@.take(0)) =~= head);
    while i < snap.tips.len()
        invariant
            i <= snap.tips@.len(),
            buf@ == head + join_addresses(snap.tips@.take(i as int)),
        decreases snap.tips@.len() - i,
    {
        append(&mut buf, snap.tips[i].as_slice());
        proof {
            assert(snap.tips@.take(i + 1).drop_last() =~= snap.tips@.take(i as int));
            assert(buf@ =~= head + join_addresses(snap.tips@.take(i + 1)));
        }
        i += 1;
    }
    assert(snap.tips@.take(i as int) =~= snap.tips@);
    assert(buf@ =~= snapshot_bytes(snap@));
    buf
}

fn decode_snapshot(bytes: &[u8]) -> (r: Result<DagSnapshot, PersistError>)
    ensures
        match r {
            Ok(s) => s.wf() && parsed_snapshot(bytes@) == Ok::<SnapshotView, PersistError>(s@),
            Err(e) => parsed_snapshot(bytes@) == Err::<SnapshotView, PersistError>(e),
        },
{
    if bytes.len() < 24 {
        return Err(PersistError::Corrupt("u64"));
    }
    let supply: u64 = get_u64(bytes, 0);
    let dag_tx_count: u64 = get_u64(bytes, 8);
    let vertex_count: u64 = get_u64(bytes, 16);
    let (accounts, f) = match read_map(bytes, 24) {
        Ok(x) => x,
        Err(e) => {
            return Err(e);
        },
    };
    let (faucet, t) = match read_map(bytes, f) {
        Ok(x) => x,
        Err(e) => {
            return Err(e);
        },
    };
    match read_tips(bytes, t) {
        Ok(tips) => Ok(
            DagSnapshot { supply, dag_tx_count, vertex_count, accounts, faucet, tips },
        ),
        Err(e) => Err(e),
    }
}

/// The snapshot that a file holds.
pub open spec fn filed_snapshot(b: Seq<u8>) -> Result<SnapshotView, PersistError> {
    match record_at(b, 0, SNAP_MAGIC@) {
        Ok((body, _)) => parsed_snapshot(body),
        Err(e) => Err(e),
    }
}

/// Reads a snapshot file.
pub fn read_snapshot(bytes: &[u8]) -> (r: Result<DagSnapshot, PersistError>)
    ensures
        match r {
            Ok(s) => s.wf() && filed_snapshot(bytes@) == Ok::<SnapshotView, PersistError>(s@),
            Err(e) => filed_snapshot(bytes@) == Err::<SnapshotView, PersistError>(e),
        },
{
    match read_record(bytes, 0, &SNAP_MAGIC) {
        Ok((body, _)) => decode_snapshot(body.as_slice()),
        Err(e) => Err(e),
    }
}

/// `d` with the credits of these keys.
pub open spec fn credited(d: DagView, m: Map<Address, u64>, keys: Seq<Address>) -> DagView
    decreases keys.len(),
{
    if keys.len() == 0 {
        d
    } else {
        credited(d, m, keys.drop_last()).funded(keys.last(), m[keys.last()])
    }
}

/// `d` after logged vertices were taken in order; the error where one was refused.
pub open spec fn replay(d: DagView, txs: Seq<TxView>) -> (DagView, Option<DagError>)
    decreases txs.len(),
{
    if txs.len() == 0 {
        (d, None)
    } else {
        let (after, r) = d.accepted(txs[0]);
        match r {
            Ok(_) => replay(after, txs.drop_first()),
            Err(e) => (after, Some(e)),
        }
    }
}

/// Credits and replays onto a graph.
pub fn restore(dag: KronDAG, faucet: &Table<32, u64>, records: Vec<WalRecord>) -> (r: Result<
    KronDAG,
    PersistError,
>)
    requires
        dag.wf(),
        faucet.wf(),
    ensures
        ({
            let funded = credited(dag@, faucet@, ordered(faucet@.dom()));
            let (d, fault) = replay(funded, record_views(records@));
            match r {
                Ok(out) => out.wf() && out@ == d && fault is None,
                Err(e) => fault matches Some(f) && e == PersistError::Dag(f),
            }
        }),
{
    let mut work = dag;
    let ghost start = dag@;
    let ghost goal = replay(
        credited(dag@, faucet@, ordered(faucet@.dom())),
        record_views(records@),
    );
    let ghost keys = faucet.listing();
    proof {
        faucet.lemma_listing();
        lemma_ordered(keys);
    }
    let n: usize = faucet.len();
    let mut k: usize = 0;
    assert(credited(start, faucet@, keys.take(0)) == start);
    while k < n
        invariant
            faucet.wf(),
            keys == faucet.listing(),
            n == keys.len(),
            k <= n,
            work.wf(),
            work@ == credited(start, faucet@, keys.take(k as int)),
        decreases n - k,
    {
        proof {
            let q = keys.take(k + 1);
            assert(q.drop_last() =~= keys.take(k as int));
            assert(q.last() == keys[k as int]);
        }
        work.credit_account(faucet.key_at(k), *faucet.value_at(k));
        k += 1;
    }
    assert(keys.take(k as int) =~= keys);
    let ghost txs = record_views(records@);
    let mut i: usize = 0;
    assert(txs.skip(0) =~= txs);
    while i < records.len()
        invariant
            i <= records@.len(),
            txs == record_views(records@),
            work.wf(),
            goal == replay(credited(dag@, faucet@, ordered(faucet@.dom())), txs),
            goal == replay(work@, txs.skip(i as int)),
        decreases records@.len() - i,
    {
        proof {
            let rest = txs.skip(i as int);
            assert(rest[0] == records@[i as int].tx@);
            assert(rest.drop_first() =~= txs.skip(i + 1));
        }
        match work.accept_wire_vertex(records[i].tx.clone()) {
            Ok(_) => {},
            Err(e) => {
                return Err(PersistError::Dag(e));
            },
        }
        i += 1;
    }
    Ok(work)
}

/// Where a graph is kept: a directory with a log and a snapshot.
#[derive(Debug)]
pub struct DagStore {
    dir: String,
}

/// A file in a directory.
pub open spec fn path_in(dir: Seq<char>, name: Seq<char>) -> Seq<char> {
    if dir.len() == 0 || dir.last() == '/' {
        dir + name
    } else {
        dir + "/"@ + name
    }
}

/// What a vertex adds to the store's files.
#[derive(Debug)]
pub struct AppendPlan {
    /// Bytes for the end of the log.
    pub wal: Vec<u8>,
    /// A new snapshot file.
    pub snapshot: Option<Vec<u8>>,
}

/// The state that holds nothing but a signed genesis.
pub open spec fn genesis_state(sig: Seq<u8>) -> DagView {
    DagView::blank().attached(genesis_tx(sig), true, Seq::empty()).0
}

/// What a restart makes of the files: the snapshot's credits on a fresh genesis, then
/// the log. Only the genesis signature is not determined by them.
pub open spec fn reloaded(snap: SnapshotView, wal: Seq<u8>, sig: Seq<u8>) -> (
    DagView,
    Option<DagError>,
) {
    replay(
        credited(genesis_state(sig), snap.faucet, ordered(snap.faucet.dom())),
        logged(wal, 0),
    )
}

/// Whether a restart gives `d`.
pub open spec fn loads_as(snap: SnapshotView, wal: Seq<u8>, d: DagView) -> bool {
    exists|sig: Seq<u8>|
        genesis_state(sig).graph.order.len() > 0 && (d, None::<DagError>) == #[trigger] reloaded(
            snap,
            wal,
            sig,
        )
}

/// Whether a restart stops at a vertex that is refused for `e`.
pub open spec fn refuses_as(snap: SnapshotView, wal: Seq<u8>, e: DagError) -> bool {
    exists|sig: Seq<u8>|
        genesis_state(sig).graph.order.len() > 0 && (#[trigger] reloaded(snap, wal, sig)).1 == Some(
            e,
        )
}

/// The snapshot file's bytes, where there is one.
pub open spec fn file_view(file: Option<Vec<u8>>) -> Option<Seq<u8>> {
    match file {
        Some(b) => Some(b@),
        None => None,
    }
}

/// The snapshot in effect: the file's, or the blank one where there is no file.
pub open spec fn effective_snapshot(file: Option<Seq<u8>>) -> Result<SnapshotView, PersistError> {
    match file {
        Some(b) => filed_snapshot(b),
        None => Ok(SnapshotView::blank()),
    }
}

impl DagStore {
    pub closed spec fn directory(&self) -> Seq<char> {
        self.dir@
    }

    /// The store in `dir`. The caller creates the directory.
    pub fn open(dir: String) -> (r: Self)
        ensures
            r.directory() == dir@,
    {
        DagStore { dir }
    }

    fn file(&self, name: &str) -> (r: String)
        ensures
            r@ == path_in(self.directory(), name@),
    {
        let chars = crate::text::chars_of(self.dir.as_str());
        let mut out = String::new();
        push_text(&mut out, self.dir.as_str());
        if chars.len() > 0 && chars[chars.len() - 1] != '/' {
            push_text(&mut out, "/");
        }
        push_text(&mut out, name);
        assert(out@ =~= path_in(self.directory(), name@));
        out
    }

    pub fn wal_path(&self) -> (r: String)
        ensures
            r@ == path_in(self.directory(), "wal.log"@),
    {
        self.file("wal.log")
    }

    pub fn snapshot_path(&self) -> (r: String)
        ensures
            r@ == path_in(self.directory(), "snapshot.bin"@),
    {
        self.file("snapshot.bin")
    }

    /// Genesis, faucet credits and the logged vertices: restores the graph from what
    /// the two files hold. Fails where the snapshot is damaged, where signing genesis
    /// fails, or where a logged vertex is refused.
    pub fn load(&self, snapshot: Option<Vec<u8>>, wal: &[u8]) -> (r: Result<
        (KronDAG, DagSnapshot),
        PersistError,
    >)
        ensures
            match r {
                Ok((dag, s)) => {
                    &&& dag.wf()
                    &&& s.wf()
                    &&& effective_snapshot(file_view(snapshot)) == Ok::<SnapshotView, PersistError>(
                        s@,
                    )
                    &&& loads_as(s@, wal@, dag@)
                },
                Err(e) => match effective_snapshot(file_view(snapshot)) {
                    Err(f) => e == f,
                    Ok(s) => e matches PersistError::Dag(f) && (f == DagError::Sign(
                        CryptoError::SigningAborted(1),
                    ) || refuses_as(s, wal@, f)),
                },
            },
    {
        let snap = match &snapshot {
            Some(b) => match read_snapshot(b.as_slice()) {
                Ok(s) => s,
                Err(e) => {
                    return Err(e);
                },
            },
            None => DagSnapshot::default(),
        };
        let dag = match KronDAG::with_genesis() {
            Ok(d) => d,
            Err(e) => {
                return Err(PersistError::Dag(e));
            },
        };
        let ghost start = dag@;
        assert(exists|sig: Seq<u8>| start == #[trigger] genesis_state(sig)) by {
            let sig = choose|sig: Seq<u8>|
                start == #[trigger] DagView::blank().attached(
                    genesis_tx(sig),
                    true,
                    Seq::empty(),
                ).0;
            assert(start == genesis_state(sig));
        }
        let ghost sig = choose|sig: Seq<u8>| start == #[trigger] genesis_state(sig);
        match restore(dag, &snap.faucet, read_wal(wal)) {
            Ok(d) => {
                assert((d@, None::<DagError>) == reloaded(snap@, wal@, sig));
                Ok((d, snap))
            },
            Err(e) => {
                assert(reloaded(snap@, wal@, sig).1 is Some);
                Err(e)
            },
        }
    }

    /// What to write for a vertex that `dag` has taken: a log record, and every eighth
    /// confirmation a snapshot. Genesis is never logged.
    pub fn append_vertex(&self, tx: &DagTransaction, dag: &KronDAG) -> (r: Option<AppendPlan>)
        requires
            dag.wf(),
        ensures
            match r {
                None => tx@.is_genesis(),
                Some(plan) => {
                    &&& !tx@.is_genesis()
                    &&& plan.wal@ == record_bytes(WAL_MAGIC@, tx@.canonical())
                    &&& match plan.snapshot {
                        Some(b) => {
                            &&& dag@.ledger.count > 0
                            &&& dag@.ledger.count as nat % SNAPSHOT_EVERY as nat == 0
                            &&& b@ == record_bytes(
                                SNAP_MAGIC@,
                                snapshot_bytes(SnapshotView::of(dag@, dag@.faucet)),
                            )
                        },
                        None => dag@.ledger.count == 0 || dag@.ledger.count as nat
                            % SNAPSHOT_EVERY as nat != 0,
                    }
                },
            },
    {
        if tx.is_genesis() {
            return None;
        }
        let mut wal: Vec<u8> = Vec::new();
        put_record(&mut wal, &WAL_MAGIC, tx.canonical_bytes().as_slice());
        assert(wal@ =~= record_bytes(WAL_MAGIC@, tx@.canonical()));
        let count: u64 = dag.global_tx_count();
        let snapshot = if count > 0 && count % SNAPSHOT_EVERY == 0 {
            Some(self.write_snapshot(&DagSnapshot::from_dag(dag)))
        } else {
            None
        };
        Some(AppendPlan { wal, snapshot })
    }

    /// The snapshot file for `snap`.
    pub fn write_snapshot(&self, snap: &DagSnapshot) -> (r: Vec<u8>)
        requires
            snap.wf(),
        ensures
            r@ == record_bytes(SNAP_MAGIC@, snapshot_bytes(snap@)),
    {
        let mut out: Vec<u8> = Vec::new();
        put_record(&mut out, &SNAP_MAGIC, encode_snapshot(snap).as_slice());
        assert(out@ =~= record_bytes(SNAP_MAGIC@, snapshot_bytes(snap@)));
        out
    }
}

/// A record is read as it was written, wherever it stands.
pub proof fn law_record_round_trip(head: Seq<u8>, magic: Seq<u8>, body: Seq<u8>, rest: Seq<u8>)
    requires
        magic.len() == 4,
        body.len() <= u32::MAX,
    ensures
        record_at(head + record_bytes(magic, body) + rest, head.len() as int, magic) == Ok::<
            (Seq<u8>, int),
            PersistError,
        >((body, head.len() as int + record_bytes(magic, body).len())),
        record_bytes(magic, body).len() == 41 + body.len(),
{
    let b = head + record_bytes(magic, body) + rest;
    let off = head.len() as int;
    let n = body.len() as int;
    lemma_le_bytes_len(body.len(), 4);
    lemma_pow256_values();
    lemma_le_value_of_bytes(body.len(), 4);
    assert(b.subrange(off, off + 4) =~= magic);
    assert(b.subrange(off + 5, off + 9) =~= le_bytes(body.len(), 4));
    assert(b.subrange(off + 9, off + 9 + n) =~= body);
    assert(b.subrange(off + 9 + n, off + 9 + n + 32) =~= sha256_of(body)@);
}

/// What a crash in the middle of a write leaves: the beginning of a record, or nothing.
pub open spec fn is_torn(tail: Seq<u8>) -> bool {
    exists|body: Seq<u8>| #[trigger] is_torn_from(tail, body)
}

/// The beginning of the record of `body`.
pub open spec fn is_torn_from(tail: Seq<u8>, body: Seq<u8>) -> bool {
    &&& body.len() <= u32::MAX
    &&& tail.len() < record_bytes(WAL_MAGIC@, body).len()
    &&& tail == record_bytes(WAL_MAGIC@, body).take(tail.len() as int)
}

/// The log of these vertices.
pub open spec fn log_bytes(txs: Seq<TxView>) -> Seq<u8>
    decreases txs.len(),
{
    if txs.len() == 0 {
        Seq::empty()
    } else {
        record_bytes(WAL_MAGIC@, txs[0].canonical()) + log_bytes(txs.drop_first())
    }
}

/// A vertex that is read as it was logged.
pub open spec fn is_loggable(t: TxView) -> bool {
    is_wire_ready(t) && t.canonical().len() <= u32::MAX
}

proof fn lemma_torn(head: Seq<u8>, tail: Seq<u8>)
    requires
        is_torn(tail),
    ensures
        record_at(head + tail, head.len() as int, WAL_MAGIC@) is Err,
{
    let body = choose|body: Seq<u8>| #[trigger] is_torn_from(tail, body);
    let b = head + tail;
    let off = head.len() as int;
    let whole = record_bytes(WAL_MAGIC@, body);
    lemma_le_bytes_len(body.len(), 4);
    lemma_pow256_values();
    lemma_le_value_of_bytes(body.len(), 4);
    assert(whole.len() == 41 + body.len());
    if b.len() >= off + 41 {
        assert(b.subrange(off + 5, off + 9) =~= le_bytes(body.len(), 4)) by {
            assert forall|i: int| 0 <= i < 4 implies b.subrange(off + 5, off + 9)[i] == le_bytes(
                body.len(),
                4,
            )[i] by {
                assert(b[off + 5 + i] == tail[5 + i]);
                assert(tail[5 + i] == whole[5 + i]);
            }
        }
    }
}

/// A log is read as it was written. A record that a crash cut short is left out, and
/// nothing before it is lost.
pub proof fn law_log_round_trip(txs: Seq<TxView>, tail: Seq<u8>)
    requires
        forall|i: int| 0 <= i < txs.len() ==> is_loggable(#[trigger] txs[i]),
        is_torn(tail),
    ensures
        logged(log_bytes(txs) + tail, 0) == txs,
{
    assert forall|i: int| 0 <= i < txs.len() implies is_readable(#[trigger] txs[i]) by {
        reveal(is_readable);
        assert(is_loggable(txs[i]));
        law_canonical_round_trip(txs[i]);
    }
    lemma_log_round_trip(Seq::empty(), txs, tail);
    assert(Seq::<u8>::empty() + log_bytes(txs) + tail =~= log_bytes(txs) + tail);
}

/// A vertex that is read from its own bytes, which fit a record.
#[verifier::opaque]
spec fn is_readable(t: TxView) -> bool {
    parsed_tx(t.canonical()) == Ok::<TxView, DagError>(t) && t.canonical().len() <= u32::MAX
}

/// Reading goes on behind a record that holds a vertex.
proof fn lemma_logged_step(head: Seq<u8>, t: TxView, rest: Seq<u8>)
    requires
        is_readable(t),
    ensures
        ({
            let next = head + record_bytes(WAL_MAGIC@, t.canonical());
            logged(next + rest, head.len() as int) == seq![t] + logged(
                next + rest,
                next.len() as int,
            )
        }),
{
    reveal(is_readable);
    law_record_round_trip(head, WAL_MAGIC@, t.canonical(), rest);
}

#[verifier::spinoff_prover]
proof fn lemma_log_round_trip(head: Seq<u8>, txs: Seq<TxView>, tail: Seq<u8>)
    requires
        forall|i: int| 0 <= i < txs.len() ==> is_readable(#[trigger] txs[i]),
        is_torn(tail),
    ensures
        logged(head + log_bytes(txs) + tail, head.len() as int) == txs,
    decreases txs.len(),
{
    let b = head + log_bytes(txs) + tail;
    let off = head.len() as int;
    if txs.len() == 0 {
        assert(b =~= head + tail);
        lemma_torn(head, tail);
        assert(logged(b, off) =~= txs);
    } else {
        let t = txs[0];
        let rest = txs.drop_first();
        let body = t.canonical();
        assert(is_readable(txs[0]));
        let more = log_bytes(rest) + tail;
        let next = head + record_bytes(WAL_MAGIC@, body);
        lemma_logged_step(head, t, more);
        assert(log_bytes(txs) == record_bytes(WAL_MAGIC@, body) + log_bytes(rest));
        assert(next + more =~= b);
        assert(next + log_bytes(rest) + tail =~= next + more);
        assert forall|i: int| 0 <= i < rest.len() implies is_readable(#[trigger] rest[i]) by {
            assert(rest[i] == txs[i + 1]);
        }
        lemma_log_round_trip(next, rest, tail);
        assert(seq![t] + rest =~= txs);
    }
}

proof fn lemma_entries_len(m: Map<Address, u64>, keys: Seq<Address>)
    ensures
        entries(m, keys).len() == 40 * keys.len(),
    decreases keys.len(),
{
    if keys.len() > 0 {
        lemma_entries_len(m, keys.drop_last());
        lemma_le_bytes_len(m[keys.last()] as nat, 8);
    }
}

proof fn lemma_entries_read_back(
    head: Seq<u8>,
    m: Map<Address, u64>,
    keys: Seq<Address>,
    rest: Seq<u8>,
)
    requires
        forall|i: int| 0 <= i < keys.len() ==> m.contains_key(#[trigger] keys[i]),
    ensures
        entries_at(head + entries(m, keys) + rest, head.len() as int, keys.len()) == Ok::<
            Map<Address, u64>,
            PersistError,
        >(m.restrict(keys.to_set())),
    decreases keys.len(),
{
    if keys.len() == 0 {
        assert(m.restrict(keys.to_set()) =~= Map::<Address, u64>::empty());
    } else {
        let q = keys.drop_last();
        let k = keys.last();
        let e = k@ + le_bytes(m[k] as nat, 8);
        let b = head + entries(m, keys) + rest;
        assert forall|i: int| 0 <= i < q.len() implies m.contains_key(#[trigger] q[i]) by {
            assert(q[i] == keys[i]);
        }
        lemma_entries_read_back(head, m, q, e + rest);
        assert(head + entries(m, q) + (e + rest) =~= b);
        lemma_entries_len(m, q);
        lemma_le_bytes_len(m[k] as nat, 8);
        lemma_pow256_values();
        lemma_le_value_of_bytes(m[k] as nat, 8);
        let o = head.len() + 40 * q.len() as int;
        assert(b.subrange(o, o + 32) =~= k@);
        assert(b.subrange(o + 32, o + 40) =~= le_bytes(m[k] as nat, 8));
        lemma_array_of(k);
        assert(m.contains_key(keys[keys.len() - 1]));
        assert(keys =~= q.push(k));
        q.lemma_push_to_set_commute(k);
        assert(m.restrict(q.to_set()).insert(k, m[k]) =~= m.restrict(keys.to_set()));
    }
}

proof fn lemma_map_reads_back(head: Seq<u8>, m: Map<Address, u64>, rest: Seq<u8>)
    requires
        m.dom().finite(),
        m.dom().len() <= u32::MAX,
    ensures
        map_at(head + map_bytes(m) + rest, head.len() as int) == Ok::<
            (Map<Address, u64>, int),
            PersistError,
        >((m, head.len() as int + map_bytes(m).len())),
{
    let keys = ordered(m.dom());
    lemma_ordered_set(m.dom());
    crate::table::lemma_ascending_distinct(keys);
    keys.unique_seq_to_set();
    lemma_le_bytes_len(keys.len(), 4);
    lemma_pow256_values();
    lemma_le_value_of_bytes(keys.len(), 4);
    lemma_entries_len(m, keys);
    let b = head + map_bytes(m) + rest;
    let at = head.len() as int;
    assert(b.subrange(at, at + 4) =~= le_bytes(keys.len(), 4));
    let head2 = head + le_bytes(keys.len(), 4);
    assert(head2 + entries(m, keys) + rest =~= b);
    assert forall|i: int| 0 <= i < keys.len() implies m.contains_key(#[trigger] keys[i]) by {
        assert(keys.to_set().contains(keys[i]));
    }
    lemma_entries_read_back(head2, m, keys, rest);
    assert(m.restrict(keys.to_set()) =~= m);
}

/// A snapshot is read as it was written.
#[verifier::spinoff_prover]
pub proof fn law_snapshot_round_trip(s: SnapshotView)
    requires
        s.accounts.dom().finite(),
        s.faucet.dom().finite(),
        s.accounts.dom().len() <= u32::MAX,
        s.faucet.dom().len() <= u32::MAX,
        s.tips.len() <= u32::MAX,
    ensures
        parsed_snapshot(snapshot_bytes(s)) == Ok::<SnapshotView, PersistError>(s),
{
    let b = snapshot_bytes(s);
    let head = le_bytes(s.supply as nat, 8) + le_bytes(s.dag_tx_count as nat, 8) + le_bytes(
        s.vertex_count as nat,
        8,
    );
    let accounts = map_bytes(s.accounts);
    let faucet = map_bytes(s.faucet);
    let tips = le_bytes(s.tips.len(), 4) + join_addresses(s.tips);
    lemma_pow256_values();
    lemma_le_bytes_len(s.supply as nat, 8);
    lemma_le_bytes_len(s.dag_tx_count as nat, 8);
    lemma_le_bytes_len(s.vertex_count as nat, 8);
    lemma_le_bytes_len(s.tips.len(), 4);
    lemma_le_value_of_bytes(s.supply as nat, 8);
    lemma_le_value_of_bytes(s.dag_tx_count as nat, 8);
    lemma_le_value_of_bytes(s.vertex_count as nat, 8);
    lemma_le_value_of_bytes(s.tips.len(), 4);
    assert(b.subrange(0, 8) =~= le_bytes(s.supply as nat, 8));
    assert(b.subrange(8, 16) =~= le_bytes(s.dag_tx_count as nat, 8));
    assert(b.subrange(16, 24) =~= le_bytes(s.vertex_count as nat, 8));
    lemma_map_reads_back(head, s.accounts, faucet + tips);
    assert(head + accounts + (faucet + tips) =~= b);
    lemma_map_reads_back(head + accounts, s.faucet, tips);
    assert(head + accounts + faucet + tips =~= b);
    let t = (head + accounts + faucet).len() as int;
    assert(b.subrange(t, t + 4) =~= le_bytes(s.tips.len(), 4));
    lemma_joined_len(s.tips);
    assert forall|i: int| 0 <= i < s.tips.len() implies array_of(
        #[trigger] b.subrange(t + 4 + 32 * i, t + 4 + 32 * i + 32),
    ) == s.tips[i] by {
        lemma_joined_address(s.tips, i);
        assert(b.subrange(t + 4 + 32 * i, t + 4 + 32 * i + 32) =~= join_addresses(s.tips).subrange(
            32 * i,
            32 * i + 32,
        ));
        lemma_array_of(s.tips[i]);
    }
    assert(tips_at(b, t)->Ok_0 =~= s.tips);
}

/// A snapshot file is read as it was written.
pub proof fn law_snapshot_file_round_trip(s: SnapshotView)
    requires
        s.accounts.dom().finite(),
        s.faucet.dom().finite(),
        s.accounts.dom().len() <= u32::MAX,
        s.faucet.dom().len() <= u32::MAX,
        s.tips.len() <= u32::MAX,
        snapshot_bytes(s).len() <= u32::MAX,
    ensures
        filed_snapshot(record_bytes(SNAP_MAGIC@, snapshot_bytes(s))) == Ok::<
            SnapshotView,
            PersistError,
        >(s),
{
    law_snapshot_round_trip(s);
    let file = record_bytes(SNAP_MAGIC@, snapshot_bytes(s));
    law_record_round_trip(Seq::empty(), SNAP_MAGIC@, snapshot_bytes(s), Seq::empty());
    assert(Seq::<u8>::empty() + file + Seq::<u8>::empty() =~= file);
}

/// Two graphs that differ in the signature of genesis at most.
pub open spec fn alike(g: GraphView, h: GraphView) -> bool {
    &&& g.order == h.order
    &&& g.genesis == h.genesis
    &&& g.tips == h.tips
    &&& g.children == h.children
    &&& g.weights == h.weights
    &&& g.vertices.dom() == h.vertices.dom()
    &&& forall|k: TxHash| #[trigger]
        g.vertices.contains_key(k) ==> {
            &&& g.vertices[k].parent_1 == h.vertices[k].parent_1
            &&& g.vertices[k].parent_2 == h.vertices[k].parent_2
            &&& k != g.genesis_id() ==> g.vertices[k] == h.vertices[k]
        }
}

proof fn lemma_same_climb(
    v: Map<TxHash, TxView>,
    w: Map<TxHash, TxView>,
    stack: Seq<TxHash>,
    visited: Set<TxHash>,
    steps: nat,
)
    requires
        forall|h: TxHash| #[trigger] parents_in(v, h) == parents_in(w, h),
    ensures
        climb(v, stack, visited, steps) == climb(w, stack, visited, steps),
    decreases ANCESTOR_WALK_BOUND - steps, stack.len(),
{
    if stack.len() > 0 {
        let h = stack.last();
        let rest = stack.drop_last();
        if visited.contains(h) {
            lemma_same_climb(v, w, rest, visited, steps);
        } else if steps < ANCESTOR_WALK_BOUND {
            assert(parents_in(v, h) == parents_in(w, h));
            lemma_same_climb(v, w, rest + parents_in(v, h), visited.insert(h), steps + 1);
        }
    }
}

/// A vertex that goes into two graphs alike leaves them alike.
pub proof fn lemma_with_alike(g: GraphView, h: GraphView, t: TxView)
    requires
        alike(g, h),
        !t.is_genesis(),
        !g.vertices.contains_key(t.id),
    ensures
        alike(g.with(t), h.with(t)),
{
    let v = g.vertices.insert(t.id, t);
    let w = h.vertices.insert(t.id, t);
    assert forall|k: TxHash| #[trigger] parents_in(v, k) == parents_in(w, k) by {
        if k != t.id {
            assert(g.vertices.contains_key(k) == h.vertices.contains_key(k)) by {
                assert(g.vertices.dom().contains(k) == h.vertices.dom().contains(k));
            }
            if g.vertices.contains_key(k) {
                assert(g.vertices[k].parent_1 == h.vertices[k].parent_1);
            }
        }
    }
    lemma_same_climb(v, w, real_parents(t.parent_1, t.parent_2), Set::empty(), 0);
    let a = g.with(t);
    let b = h.with(t);
    assert(a.vertices.dom() =~= b.vertices.dom());
    assert forall|k: TxHash| #[trigger] a.vertices.contains_key(k) implies {
        &&& a.vertices[k].parent_1 == b.vertices[k].parent_1
        &&& a.vertices[k].parent_2 == b.vertices[k].parent_2
        &&& k != a.genesis_id() ==> a.vertices[k] == b.vertices[k]
    } by {
        if k != t.id {
            assert(g.vertices.contains_key(k));
        }
    }
}

/// A restart restores the graph: vertices that a graph took one after the other, taken
/// again by a graph that began alike, give a graph that is alike, whatever the two
/// ledgers began with.
pub proof fn law_restart_restores_the_graph(d: DagView, again: DagView, txs: Seq<TxView>)
    requires
        alike(d.graph, again.graph),
        d.graph.vertices.dom().finite(),
        d.graph.vertices.dom().len() > 0,
        replay(d, txs).1 is None,
        replay(again, txs).1 is None,
    ensures
        alike(replay(d, txs).0.graph, replay(again, txs).0.graph),
    decreases txs.len(),
{
    if txs.len() > 0 {
        let t = txs[0];
        lemma_accepted_step(d, t);
        lemma_accepted_step(again, t);
        assert(d.graph.vertices.contains_key(t.id) == again.graph.vertices.contains_key(t.id)) by {
            assert(d.graph.vertices.dom().contains(t.id) == again.graph.vertices.dom().contains(
                t.id,
            ));
        }
        if !d.graph.vertices.contains_key(t.id) {
            lemma_with_alike(d.graph, again.graph, t);
            assert(d.graph.with(t).vertices.dom() =~= d.graph.vertices.dom().insert(t.id));
        }
        law_restart_restores_the_graph(d.accepted(t).0, again.accepted(t).0, txs.drop_first());
    }
}

/// A vertex that is taken goes into the graph, unless it is there. A second genesis is
/// never taken.
pub proof fn lemma_accepted_step(d: DagView, t: TxView)
    requires
        d.accepted(t).1 is Ok,
        d.graph.vertices.dom().len() > 0,
    ensures
        d.accepted(t).0.graph == (if d.graph.vertices.contains_key(t.id) {
            d.graph
        } else {
            d.graph.with(t)
        }),
        d.graph.vertices.contains_key(t.id) || !t.is_genesis(),
{
}

proof fn lemma_credited_graph(d: DagView, m: Map<Address, u64>, keys: Seq<Address>)
    ensures
        credited(d, m, keys).graph == d.graph,
    decreases keys.len(),
{
    if keys.len() > 0 {
        lemma_credited_graph(d, m, keys.drop_last());
    }
}

/// Two restarts from one log give the same graph up to the signature of genesis, even
/// where the snapshots differ.
pub proof fn law_restarts_agree(
    wal: Seq<u8>,
    snap: SnapshotView,
    sig: Seq<u8>,
    other: SnapshotView,
    other_sig: Seq<u8>,
)
    requires
        genesis_state(sig).graph.order.len() > 0,
        genesis_state(other_sig).graph.order.len() > 0,
        reloaded(snap, wal, sig).1 is None,
        reloaded(other, wal, other_sig).1 is None,
    ensures
        alike(reloaded(snap, wal, sig).0.graph, reloaded(other, wal, other_sig).0.graph),
{
    let a = genesis_state(sig);
    let b = genesis_state(other_sig);
    lemma_credited_graph(a, snap.faucet, ordered(snap.faucet.dom()));
    lemma_credited_graph(b, other.faucet, ordered(other.faucet.dom()));
    let t = genesis_tx(sig);
    let u = genesis_tx(other_sig);
    assert(a.graph == DagView::blank().graph.with(t));
    assert(b.graph == DagView::blank().graph.with(u));
    assert(t.unsigned() == u.unsigned());
    assert(t.id == u.id);
    assert(a.graph.vertices.dom() =~= set![t.id]);
    assert(b.graph.vertices.dom() =~= set![t.id]);
    law_restart_restores_the_graph(
        credited(a, snap.faucet, ordered(snap.faucet.dom())),
        credited(b, other.faucet, ordered(other.faucet.dom())),
        logged(wal, 0),
    );
}

/// A file lies in its directory: the path is the directory, one slash, and the name.
pub proof fn law_file_lies_in_its_directory(dir: Seq<char>, name: Seq<char>)
    requires
        dir.len() > 0,
    ensures
        dir.last() != '/' ==> path_in(dir, name) == dir + seq!['/'] + name,
        dir.last() == '/' ==> path_in(dir, name) == dir + name,
{
    reveal_strlit("/");
    assert("/"@ =~= seq!['/']);
}

/// Without a snapshot file nothing is known: no supply, no vertex, no account, and no credit.
pub proof fn law_no_snapshot_is_a_blank_one()
    ensures
        effective_snapshot(None) is Ok,
        ({
            let s = effective_snapshot(None)->Ok_0;
            &&& s.supply == 0
            &&& s.dag_tx_count == 0
            &&& s.vertex_count == 0
            &&& s.accounts =~= Map::empty()
            &&& s.faucet =~= Map::empty()
            &&& s.tips.len() == 0
        }),
{
}

/// A checkpoint shows the state: supply, transfers, vertices, every balance, the credits that it
/// was given, and every tip.
pub proof fn law_checkpoint_shows_the_state(d: DagView, faucet: Map<Address, u64>, h: TxHash)
    requires
        d.graph.vertices.dom().len() <= u64::MAX,
        d.graph.tips.finite(),
    ensures
        ({
            let s = SnapshotView::of(d, faucet);
            &&& s.supply == d.ledger.supply
            &&& s.dag_tx_count == d.ledger.count
            &&& s.vertex_count == d.graph.vertices.dom().len()
            &&& s.accounts == d.ledger.balances
            &&& s.faucet == faucet
            &&& s.tips.contains(h) <==> d.graph.tips.contains(h)
        }),
{
    crate::table::lemma_ordered_set(d.graph.tips);
    let q = ordered(d.graph.tips);
    assert(q.contains(h) <==> q.to_set().contains(h));
}

} // verus!
