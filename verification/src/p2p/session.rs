//! Mesh sessions: the lockstep Have/Need exchange of two graphs, and the wallet's
//! submit. A session takes one message at a time and gives the messages to send back;
//! the stream is the caller's part.

use vstd::prelude::*;

use crate::crypto::lattice::address_of;
use crate::dag::engine::{bodies, in_order, list_views, KronDAG};
use crate::dag::model::{is_lost_spend, DagView, GraphView};
use crate::dag::reconciliation::{
    advertised_recent, advertised_tips, compute_dag_diff, have_closed, is_have, needed,
    SyncInventory,
};
use crate::dag::tx::{DagTransaction, TxHash, TxView, NULL_PARENT};
use crate::p2p::error::NetworkError;
use crate::p2p::mesh::{
    inventory_view, InventoryView, MeshRole, MeshWireMessage, WireView, PROTOCOL_KRON_MESH,
};
use crate::table::{lemma_ordered, lemma_ordered_set, ordered, KeySet};
use crate::text::{owned, same_text};
use crate::types::Address;

verus! {

/// The peer id of an inventory that names nobody.
pub const UNNAMED_PEER: Address = NULL_PARENT;

impl InventoryView {
    /// Everything that is advertised.
    pub open spec fn listed(self) -> Set<TxHash> {
        self.tips.to_set().union(self.recent.to_set())
    }
}

/// What a graph advertises on the wire.
pub open spec fn advertised(g: GraphView) -> InventoryView {
    InventoryView {
        tips: advertised_tips(g),
        recent: advertised_recent(g),
        peer_id: Some(UNNAMED_PEER),
    }
}

/// What a graph asks for, given an advertisement.
pub open spec fn need_list(g: GraphView, listed: Set<TxHash>) -> Seq<TxHash> {
    ordered(needed(g, listed))
}

/// What a graph has to offer, given an advertisement.
pub open spec fn have_list(g: GraphView, listed: Set<TxHash>) -> Seq<TxHash> {
    ordered(choose|s: Set<TxHash>| is_have(g, listed, s))
}

/// The stored bodies of `ids`, parents before children.
pub open spec fn bodies_of(g: GraphView, ids: Seq<TxHash>) -> Seq<TxView> {
    bodies(g, in_order(g.order, ids.to_set()))
}

/// The ids that a graph does not store.
pub open spec fn unstored(g: GraphView, ids: Seq<TxHash>) -> Seq<TxHash> {
    ids.filter(|h: TxHash| !g.vertices.contains_key(h))
}

/// A graph that takes part in mesh sessions.
pub trait MeshGraph: Sized {
    spec fn dag_view(&self) -> DagView;

    spec fn ready(&self) -> bool;

    fn inventory(&self) -> (r: SyncInventory)
        requires
            self.ready(),
        ensures
            inventory_view(r) == advertised(self.dag_view().graph),
    ;

    fn contains(&self, id: &TxHash) -> (r: bool)
        requires
            self.ready(),
        ensures
            r == self.dag_view().graph.vertices.contains_key(*id),
    ;

    fn get(&self, id: &TxHash) -> (r: Option<DagTransaction>)
        requires
            self.ready(),
        ensures
            r is Some == self.dag_view().graph.vertices.contains_key(*id),
            r matches Some(t) ==> t@ == self.dag_view().graph.vertices[*id],
    ;

    /// Takes a vertex from the wire. `false` where it is stored already.
    fn ingest(&mut self, tx: DagTransaction) -> (r: Result<bool, String>)
        requires
            old(self).ready(),
        ensures
            final(self).ready(),
            final(self).dag_view() == old(self).dag_view().accepted(tx@).0,
            match old(self).dag_view().accepted(tx@).1 {
                Ok(new) => r == Ok::<bool, String>(new),
                Err(e) => r matches Err(s) && s@ == e.spec_message(),
            },
    ;

    fn bodies_in_order(&self, ids: &[TxHash]) -> (r: Vec<DagTransaction>)
        requires
            self.ready(),
        ensures
            list_views(r@) == bodies_of(self.dag_view().graph, ids@),
    ;

    /// Notes an inventory. It holds no credits, so the ledger stays as it is.
    fn apply_inventory(&mut self, inv: &SyncInventory)
        requires
            old(self).ready(),
        ensures
            final(self).ready(),
            final(self).dag_view() == old(self).dag_view(),
    ;

    fn need_and_have(&self, remote: &SyncInventory) -> (r: (Vec<TxHash>, Vec<TxHash>))
        requires
            self.ready(),
        ensures
            r.0@ == need_list(self.dag_view().graph, inventory_view(*remote).listed()),
            r.1@ == have_list(self.dag_view().graph, inventory_view(*remote).listed()),
    ;

    fn vertex_set(&self) -> (r: KeySet<32>)
        requires
            self.ready(),
        ensures
            r.wf(),
            r@ == self.dag_view().graph.vertices.dom(),
    ;
}

/// Two sets that a graph has to offer are one.
proof fn lemma_have_unique(g: GraphView, listed: Set<TxHash>, a: Set<TxHash>, b: Set<TxHash>)
    requires
        is_have(g, listed, a),
        is_have(g, listed, b),
    ensures
        a == b,
{
    assert(have_closed(g, listed, a));
    assert(have_closed(g, listed, b));
    assert(a =~= b);
}

/// Need and Have of a graph against an advertisement.
pub fn diff_lists(dag: &KronDAG, remote: &SyncInventory) -> (r: (Vec<TxHash>, Vec<TxHash>))
    requires
        dag.wf(),
    ensures
        r.0@ == need_list(dag@.graph, inventory_view(*remote).listed()),
        r.1@ == have_list(dag@.graph, inventory_view(*remote).listed()),
{
    let (need, have) = compute_dag_diff(dag, remote);
    proof {
        let listed = remote.listed();
        let g = dag@.graph;
        assert(inventory_view(*remote).listed() == listed);
        lemma_ordered(need@);
        lemma_ordered(have@);
        let s = choose|s: Set<TxHash>| is_have(g, listed, s);
        assert(is_have(g, listed, have@.to_set()));
        lemma_have_unique(g, listed, s, have@.to_set());
    }
    (need, have)
}

/// One process-local graph.
pub struct IsolatedDag {
    dag: KronDAG,
}

impl IsolatedDag {
    pub closed spec fn inner(&self) -> KronDAG {
        self.dag
    }

    pub fn new(dag: KronDAG) -> (r: Self)
        ensures
            r.inner() == dag,
    {
        IsolatedDag { dag }
    }

    pub fn into_inner(self) -> (r: KronDAG)
        ensures
            r == self.inner(),
    {
        self.dag
    }

    /// The graph itself.
    pub fn lock_dag(&mut self) -> (r: &mut KronDAG)
        ensures
            *r == old(self).inner(),
            final(self).inner() == *final(r),
    {
        &mut self.dag
    }
}

impl MeshGraph for IsolatedDag {
    open spec fn dag_view(&self) -> DagView {
        self.inner()@
    }

    open spec fn ready(&self) -> bool {
        self.inner().wf()
    }

    fn inventory(&self) -> (r: SyncInventory) {
        SyncInventory::from_dag(&self.dag, UNNAMED_PEER)
    }

    fn contains(&self, id: &TxHash) -> (r: bool) {
        self.dag.contains(id)
    }

    fn get(&self, id: &TxHash) -> (r: Option<DagTransaction>) {
        match self.dag.get(id) {
            Some(t) => Some(t.clone()),
            None => None,
        }
    }

    fn ingest(&mut self, tx: DagTransaction) -> (r: Result<bool, String>) {
        match self.dag.accept_wire_vertex(tx) {
            Ok(new) => Ok(new),
            Err(e) => Err(e.message()),
        }
    }

    fn bodies_in_order(&self, ids: &[TxHash]) -> (r: Vec<DagTransaction>) {
        self.dag.transactions_for_in_order(ids)
    }

    fn apply_inventory(&mut self, inv: &SyncInventory) {
    }

    fn need_and_have(&self, remote: &SyncInventory) -> (r: (Vec<TxHash>, Vec<TxHash>)) {
        diff_lists(&self.dag, remote)
    }

    fn vertex_set(&self) -> (r: KeySet<32>) {
        self.dag.vertex_set()
    }
}

/// What a synchronisation waits for.
#[derive(Clone, Copy, Debug, PartialEq, Eq, Structural)]
pub enum SyncStage {
    /// The first message of the connecting peer.
    First,
    Pong,
    Inventory,
    Need,
    Have,
    /// Vertex bodies, until the peer is done.
    Bodies,
    Finished,
}

/// One side of a synchronisation.
#[derive(Debug)]
pub struct SyncSession {
    initiator: bool,
    stage: SyncStage,
    remote: SyncInventory,
    wanted: Vec<TxHash>,
}

/// A session as mathematical data.
#[verifier::ext_equal]
pub struct SessionView {
    pub initiator: bool,
    pub stage: SyncStage,
    /// What the peer advertised.
    pub remote: InventoryView,
    /// What the peer asked for.
    pub wanted: Seq<TxHash>,
}

impl View for SyncSession {
    type V = SessionView;

    closed spec fn view(&self) -> SessionView {
        SessionView {
            initiator: self.initiator,
            stage: self.stage,
            remote: inventory_view(self.remote),
            wanted: self.wanted@,
        }
    }
}

/// The messages that carry these vertices.
pub open spec fn vertex_messages(txs: Seq<TxView>) -> Seq<WireView> {
    txs.map_values(|t: TxView| WireView::Vertex(t))
}

pub open spec fn message_views(v: Seq<MeshWireMessage>) -> Seq<WireView> {
    v.map_values(|m: MeshWireMessage| m@)
}

impl SessionView {
    pub open spec fn start(initiator: bool) -> SessionView {
        SessionView {
            initiator,
            stage: if initiator {
                SyncStage::Pong
            } else {
                SyncStage::First
            },
            remote: InventoryView { tips: Seq::empty(), recent: Seq::empty(), peer_id: None },
            wanted: Seq::empty(),
        }
    }

    pub open spec fn at(self, stage: SyncStage) -> SessionView {
        SessionView { stage, ..self }
    }

    pub open spec fn failed(self, d: DagView, e: NetworkError) -> (
        SessionView,
        DagView,
        Result<Seq<WireView>, NetworkError>,
    ) {
        (self.at(SyncStage::Finished), d, Err(e))
    }

    /// While bodies are exchanged: vertices are taken whatever becomes of them, a
    /// Need is answered with bodies, a Have with a Need for what is missing.
    pub open spec fn next_body(self, d: DagView, m: WireView) -> (
        SessionView,
        DagView,
        Result<Seq<WireView>, NetworkError>,
    ) {
        match m {
            WireView::Vertex(t) => (self, d.accepted(t).0, Ok(Seq::empty())),
            WireView::Need(ids) => (self, d, Ok(vertex_messages(bodies_of(d.graph, ids)))),
            WireView::Have(ids) => {
                let missing = unstored(d.graph, ids);
                (
                    self,
                    d,
                    Ok(
                        if missing.len() == 0 {
                            Seq::empty()
                        } else {
                            seq![WireView::Need(missing)]
                        },
                    ),
                )
            },
            WireView::Done => (self.at(SyncStage::Finished), d, Ok(Seq::empty())),
            WireView::Ping => (self, d, Ok(seq![WireView::Pong])),
            WireView::Pong => (self, d, Ok(Seq::empty())),
            _ => self.failed(d, NetworkError::BadFrame),
        }
    }

    /// A message arrives: the session and the graph after it, and what is sent back.
    pub open spec fn next(self, d: DagView, m: WireView) -> (
        SessionView,
        DagView,
        Result<Seq<WireView>, NetworkError>,
    ) {
        let g = d.graph;
        match self.stage {
            SyncStage::First => match m {
                WireView::Ping => (self.at(SyncStage::Inventory), d, Ok(seq![WireView::Pong])),
                WireView::Inventory(inv) => (
                    SessionView { remote: inv, ..self }.at(SyncStage::Bodies),
                    d,
                    Ok(
                        seq![
                            WireView::Inventory(advertised(g)),
                            WireView::Need(need_list(g, inv.listed())),
                        ],
                    ),
                ),
                _ => self.failed(d, NetworkError::BadFrame),
            },
            SyncStage::Pong => match m {
                WireView::Pong | WireView::Ping => (
                    self.at(SyncStage::Inventory),
                    d,
                    Ok(seq![WireView::Inventory(advertised(g))]),
                ),
                _ => self.failed(d, NetworkError::Handshake("expected mesh pong")),
            },
            SyncStage::Inventory => match m {
                WireView::Inventory(inv) => (
                    SessionView { remote: inv, ..self }.at(SyncStage::Need),
                    d,
                    Ok(
                        if self.initiator {
                            seq![
                                WireView::Need(need_list(g, inv.listed())),
                                WireView::Have(have_list(g, inv.listed())),
                            ]
                        } else {
                            seq![WireView::Inventory(advertised(g))]
                        },
                    ),
                ),
                _ => self.failed(d, NetworkError::BadFrame),
            },
            SyncStage::Need => match m {
                WireView::Need(ids) => if self.initiator {
                    (
                        SessionView { wanted: ids, ..self }.at(SyncStage::Bodies),
                        d,
                        Ok(vertex_messages(bodies_of(g, ids)).push(WireView::Done)),
                    )
                } else {
                    (
                        SessionView { wanted: ids, ..self }.at(SyncStage::Have),
                        d,
                        Ok(Seq::empty()),
                    )
                },
                _ => self.failed(d, NetworkError::BadFrame),
            },
            SyncStage::Have => match m {
                WireView::Have(_) => (
                    self.at(SyncStage::Bodies),
                    d,
                    Ok(
                        (seq![WireView::Need(need_list(g, self.remote.listed()))]
                            + vertex_messages(bodies_of(g, self.wanted))).push(WireView::Done),
                    ),
                ),
                _ => self.failed(d, NetworkError::BadFrame),
            },
            SyncStage::Bodies => self.next_body(d, m),
            SyncStage::Finished => self.failed(d, NetworkError::BadFrame),
        }
    }
}

fn push_bodies(out: &mut Vec<MeshWireMessage>, txs: Vec<DagTransaction>)
    ensures
        message_views(final(out)@) == message_views(old(out)@) + vertex_messages(
            list_views(txs@),
        ),
{
    let ghost start = message_views(out@);
    let ghost v = list_views(txs@);
    let mut i: usize = 0;
    assert(start + vertex_messages(v.take(0)) =~= start);
    while i < txs.len()
        invariant
            i <= txs@.len(),
            v == list_views(txs@),
            message_views(out@) == start + vertex_messages(v.take(i as int)),
        decreases txs@.len() - i,
    {
        let ghost before = out@;
        let t = txs[i].clone();
        let m = MeshWireMessage::DagTransaction(t);
        proof {
            assert(v[i as int] == txs@[i as int]@);
        }
        out.push(m);
        proof {
            assert(message_views(out@) =~= message_views(before).push(m@));
            assert(vertex_messages(v.take(i + 1)) =~= vertex_messages(v.take(i as int)).push(
                WireView::Vertex(v[i as int]),
            ));
            assert(message_views(out@) =~= start + vertex_messages(v.take(i + 1)));
        }
        i += 1;
    }
    assert(v.take(i as int) =~= v);
}

fn one(m: MeshWireMessage) -> (r: Vec<MeshWireMessage>)
    ensures
        message_views(r@) == seq![m@],
{
    let mut out: Vec<MeshWireMessage> = Vec::new();
    out.push(m);
    assert(message_views(out@) =~= seq![m@]);
    out
}

fn two(a: MeshWireMessage, b: MeshWireMessage) -> (r: Vec<MeshWireMessage>)
    ensures
        message_views(r@) == seq![a@, b@],
{
    let mut out: Vec<MeshWireMessage> = Vec::new();
    out.push(a);
    out.push(b);
    assert(message_views(out@) =~= seq![a@, b@]);
    out
}

fn nothing() -> (r: Vec<MeshWireMessage>)
    ensures
        message_views(r@) == Seq::<WireView>::empty(),
{
    let out: Vec<MeshWireMessage> = Vec::new();
    assert(message_views(out@) =~= Seq::<WireView>::empty());
    out
}

/// The ids that the graph does not store.
fn missing_ids<G: MeshGraph>(graph: &G, ids: &Vec<TxHash>) -> (r: Vec<TxHash>)
    requires
        graph.ready(),
    ensures
        r@ == unstored(graph.dag_view().graph, ids@),
{
    let ghost f = |h: TxHash| !graph.dag_view().graph.vertices.contains_key(h);
    let mut out: Vec<TxHash> = Vec::new();
    let mut i: usize = 0;
    assert(out@ =~= ids@.take(0).filter(f)) by {
        assert(ids@.take(0) =~= Seq::<TxHash>::empty());
        reveal(Seq::filter);
    }
    while i < ids.len()
        invariant
            i <= ids@.len(),
            graph.ready(),
            f == (|h: TxHash| !graph.dag_view().graph.vertices.contains_key(h)),
            out@ == ids@.take(i as int).filter(f),
        decreases ids@.len() - i,
    {
        proof {
            assert(ids@.take(i + 1) =~= ids@.take(i as int).push(ids@[i as int]));
            ids@.take(i as int).lemma_filter_push(ids@[i as int], f);
        }
        if !graph.contains(&ids[i]) {
            out.push(ids[i]);
        }
        i += 1;
    }
    assert(ids@.take(i as int) =~= ids@);
    out
}

impl SyncSession {
    /// A new session. The connecting peer begins with a Ping.
    pub fn start(initiator: bool) -> (r: (Self, Vec<MeshWireMessage>))
        ensures
            r.0@ == SessionView::start(initiator),
            message_views(r.1@) == (if initiator {
                seq![WireView::Ping]
            } else {
                Seq::empty()
            }),
    {
        let s = SyncSession {
            initiator,
            stage: if initiator {
                SyncStage::Pong
            } else {
                SyncStage::First
            },
            remote: SyncInventory { tips: Vec::new(), recent: Vec::new(), peer_id: None },
            wanted: Vec::new(),
        };
        assert(s@ =~= SessionView::start(initiator));
        if initiator {
            (s, one(MeshWireMessage::Ping))
        } else {
            (s, nothing())
        }
    }

    /// Whether the exchange is over.
    pub fn is_finished(&self) -> (r: bool)
        ensures
            r == (self@.stage == SyncStage::Finished),
    {
        self.stage == SyncStage::Finished
    }

    /// The peer went silent. While bodies are exchanged that ends the session as the
    /// peer's Done does; before, it is a failure of the stream.
    pub fn on_timeout(&mut self) -> (r: Result<(), NetworkError>)
        ensures
            final(self)@ == old(self)@.at(SyncStage::Finished),
            r == (if old(self)@.stage == SyncStage::Bodies {
                Ok::<(), NetworkError>(())
            } else {
                Err::<(), NetworkError>(NetworkError::Io)
            }),
    {
        let r = if self.stage == SyncStage::Bodies {
            Ok(())
        } else {
            Err(NetworkError::Io)
        };
        self.stage = SyncStage::Finished;
        r
    }

    fn on_body<G: MeshGraph>(&mut self, graph: &mut G, msg: MeshWireMessage) -> (r: Result<
        Vec<MeshWireMessage>,
        NetworkError,
    >)
        requires
            old(graph).ready(),
        ensures
            final(graph).ready(),
            ({
                let (s, d, out) = old(self)@.next_body(old(graph).dag_view(), msg@);
                &&& final(self)@ == s
                &&& final(graph).dag_view() == d
                &&& match r {
                    Ok(v) => out == Ok::<Seq<WireView>, NetworkError>(message_views(v@)),
                    Err(e) => out == Err::<Seq<WireView>, NetworkError>(e),
                }
            }),
    {
        match msg {
            MeshWireMessage::DagTransaction(tx) => {
                let _ = graph.ingest(tx);
                Ok(nothing())
            },
            MeshWireMessage::Need { ids } => {
                let mut out: Vec<MeshWireMessage> = Vec::new();
                push_bodies(&mut out, graph.bodies_in_order(ids.as_slice()));
                proof {
                    let v = vertex_messages(bodies_of(graph.dag_view().graph, ids@));
                    assert(message_views(out@) =~= v);
                }
                Ok(out)
            },
            MeshWireMessage::Have { ids } => {
                let missing = missing_ids(graph, &ids);
                if missing.len() == 0 {
                    Ok(nothing())
                } else {
                    Ok(one(MeshWireMessage::Need { ids: missing }))
                }
            },
            MeshWireMessage::Done => {
                self.stage = SyncStage::Finished;
                Ok(nothing())
            },
            MeshWireMessage::Ping => Ok(one(MeshWireMessage::Pong)),
            MeshWireMessage::Pong => Ok(nothing()),
            _ => {
                self.stage = SyncStage::Finished;
                Err(NetworkError::BadFrame)
            },
        }
    }

    /// A message arrived. Gives the messages to send back.
    pub fn on_message<G: MeshGraph>(&mut self, graph: &mut G, msg: MeshWireMessage) -> (r: Result<
        Vec<MeshWireMessage>,
        NetworkError,
    >)
        requires
            old(graph).ready(),
        ensures
            final(graph).ready(),
            ({
                let (s, d, out) = old(self)@.next(old(graph).dag_view(), msg@);
                &&& final(self)@ == s
                &&& final(graph).dag_view() == d
                &&& match r {
                    Ok(v) => out == Ok::<Seq<WireView>, NetworkError>(message_views(v@)),
                    Err(e) => out == Err::<Seq<WireView>, NetworkError>(e),
                }
            }),
    {
        match self.stage {
            SyncStage::First => match msg {
                MeshWireMessage::Ping => {
                    self.stage = SyncStage::Inventory;
                    Ok(one(MeshWireMessage::Pong))
                },
                MeshWireMessage::SyncInventory(inv) => {
                    graph.apply_inventory(&inv);
                    let (need, _) = graph.need_and_have(&inv);
                    self.remote = inv;
                    self.stage = SyncStage::Bodies;
                    Ok(
                        two(
                            MeshWireMessage::SyncInventory(graph.inventory()),
                            MeshWireMessage::Need { ids: need },
                        ),
                    )
                },
                _ => {
                    self.stage = SyncStage::Finished;
                    Err(NetworkError::BadFrame)
                },
            },
            SyncStage::Pong => match msg {
                MeshWireMessage::Pong | MeshWireMessage::Ping => {
                    self.stage = SyncStage::Inventory;
                    Ok(one(MeshWireMessage::SyncInventory(graph.inventory())))
                },
                _ => {
                    self.stage = SyncStage::Finished;
                    Err(NetworkError::Handshake("expected mesh pong"))
                },
            },
            SyncStage::Inventory => match msg {
                MeshWireMessage::SyncInventory(inv) => {
                    graph.apply_inventory(&inv);
                    let out = if self.initiator {
                        let (need, have) = graph.need_and_have(&inv);
                        two(
                            MeshWireMessage::Need { ids: need },
                            MeshWireMessage::Have { ids: have },
                        )
                    } else {
                        one(MeshWireMessage::SyncInventory(graph.inventory()))
                    };
                    self.remote = inv;
                    self.stage = SyncStage::Need;
                    Ok(out)
                },
                _ => {
                    self.stage = SyncStage::Finished;
                    Err(NetworkError::BadFrame)
                },
            },
            SyncStage::Need => match msg {
                MeshWireMessage::Need { ids } => {
                    if self.initiator {
                        let mut out: Vec<MeshWireMessage> = Vec::new();
                        push_bodies(&mut out, graph.bodies_in_order(ids.as_slice()));
                        let ghost sent = message_views(out@);
                        out.push(MeshWireMessage::Done);
                        proof {
                            let v = vertex_messages(bodies_of(graph.dag_view().graph, ids@));
                            assert(sent =~= v);
                            assert(message_views(out@) =~= v.push(WireView::Done));
                        }
                        self.wanted = ids;
                        self.stage = SyncStage::Bodies;
                        Ok(out)
                    } else {
                        self.wanted = ids;
                        self.stage = SyncStage::Have;
                        Ok(nothing())
                    }
                },
                _ => {
                    self.stage = SyncStage::Finished;
                    Err(NetworkError::BadFrame)
                },
            },
            SyncStage::Have => match msg {
                MeshWireMessage::Have { .. } => {
                    let (need, _) = graph.need_and_have(&self.remote);
                    let ghost listed = self@.remote.listed();
                    let ghost wanted = self@.wanted;
                    let mut out = one(MeshWireMessage::Need { ids: need });
                    let ghost head = message_views(out@);
                    push_bodies(&mut out, graph.bodies_in_order(self.wanted.as_slice()));
                    let ghost sent = message_views(out@);
                    out.push(MeshWireMessage::Done);
                    proof {
                        assert(message_views(out@) =~= sent.push(WireView::Done));
                    }
                    self.stage = SyncStage::Bodies;
                    Ok(out)
                },
                _ => {
                    self.stage = SyncStage::Finished;
                    Err(NetworkError::BadFrame)
                },
            },
            SyncStage::Bodies => self.on_body(graph, msg),
            SyncStage::Finished => Err(NetworkError::BadFrame),
        }
    }
}

/// The role of a peer that greets in the right protocol.
pub open spec fn greeting(m: WireView) -> Result<MeshRole, NetworkError> {
    match m {
        WireView::Hello { protocol, role } => if protocol == PROTOCOL_KRON_MESH@ {
            Ok(role)
        } else {
            Err(NetworkError::Handshake("wrong mesh protocol"))
        },
        _ => Err(NetworkError::Handshake("expected mesh hello")),
    }
}

/// Reads the peer's greeting.
pub fn expect_hello(msg: &MeshWireMessage) -> (r: Result<MeshRole, NetworkError>)
    ensures
        r == greeting(msg@),
{
    match msg {
        MeshWireMessage::Hello { protocol, role } => {
            if same_text(protocol.as_str(), PROTOCOL_KRON_MESH) {
                Ok(*role)
            } else {
                Err(NetworkError::Handshake("wrong mesh protocol"))
            }
        },
        _ => Err(NetworkError::Handshake("expected mesh hello")),
    }
}

/// The greeting of this protocol.
pub fn hello(role: MeshRole) -> (r: MeshWireMessage)
    ensures
        r@ == (WireView::Hello { protocol: PROTOCOL_KRON_MESH@, role }),
{
    MeshWireMessage::Hello { protocol: owned(PROTOCOL_KRON_MESH), role }
}

/// Reads the answer to a wallet's vertex.
pub fn expect_done(msg: &MeshWireMessage) -> (r: Result<(), NetworkError>)
    ensures
        r == (if msg@ is Done {
            Ok::<(), NetworkError>(())
        } else {
            Err::<(), NetworkError>(NetworkError::BadFrame)
        }),
{
    match msg {
        MeshWireMessage::Done => Ok(()),
        _ => Err(NetworkError::BadFrame),
    }
}

/// The serving side of an inbound session.
#[derive(Debug)]
pub enum MeshServer {
    /// Waits for the greeting.
    Greeting,
    /// A wallet submits a vertex.
    Wallet,
    /// A peer synchronises.
    Sync(SyncSession),
    Finished,
}

/// The serving side as mathematical data.
#[verifier::ext_equal]
pub enum ServerView {
    Greeting,
    Wallet,
    Sync(SessionView),
    Finished,
}

impl View for MeshServer {
    type V = ServerView;

    open spec fn view(&self) -> ServerView {
        match self {
            MeshServer::Greeting => ServerView::Greeting,
            MeshServer::Wallet => ServerView::Wallet,
            MeshServer::Sync(s) => ServerView::Sync(s@),
            MeshServer::Finished => ServerView::Finished,
        }
    }
}

impl ServerView {
    /// A wallet's message: a Ping is answered, the first vertex ends the session, with
    /// Done where the graph took it.
    pub open spec fn next_submit(d: DagView, m: WireView) -> (
        ServerView,
        DagView,
        Result<Seq<WireView>, NetworkError>,
    ) {
        match m {
            WireView::Ping => (ServerView::Wallet, d, Ok(seq![WireView::Pong])),
            WireView::Vertex(t) => {
                let (after, r) = d.accepted(t);
                (
                    ServerView::Finished,
                    after,
                    match r {
                        Ok(_) => Ok(seq![WireView::Done]),
                        Err(_) => Err(NetworkError::BadFrame),
                    },
                )
            },
            WireView::Done => (ServerView::Finished, d, Ok(Seq::empty())),
            _ => (ServerView::Finished, d, Err(NetworkError::BadFrame)),
        }
    }

    /// A message arrives: the server and the graph after it, and what is sent back.
    pub open spec fn next(self, d: DagView, m: WireView) -> (
        ServerView,
        DagView,
        Result<Seq<WireView>, NetworkError>,
    ) {
        match self {
            ServerView::Greeting => match greeting(m) {
                Ok(role) => (
                    match role {
                        MeshRole::Wallet => ServerView::Wallet,
                        _ => ServerView::Sync(SessionView::start(false)),
                    },
                    d,
                    Ok(
                        seq![WireView::Hello { protocol: PROTOCOL_KRON_MESH@, role: MeshRole::Hub }],
                    ),
                ),
                Err(e) => (ServerView::Finished, d, Err(e)),
            },
            ServerView::Wallet => ServerView::next_submit(d, m),
            ServerView::Sync(s) => {
                let (after, graph, out) = s.next(d, m);
                (ServerView::Sync(after), graph, out)
            },
            ServerView::Finished => (self, d, Err(NetworkError::BadFrame)),
        }
    }
}

fn serve_wallet_submit<G: MeshGraph>(graph: &mut G, msg: MeshWireMessage) -> (r: (
    MeshServer,
    Result<Vec<MeshWireMessage>, NetworkError>,
))
    requires
        old(graph).ready(),
    ensures
        final(graph).ready(),
        ({
            let (s, d, out) = ServerView::next_submit(old(graph).dag_view(), msg@);
            &&& r.0@ == s
            &&& final(graph).dag_view() == d
            &&& match r.1 {
                Ok(v) => out == Ok::<Seq<WireView>, NetworkError>(message_views(v@)),
                Err(e) => out == Err::<Seq<WireView>, NetworkError>(e),
            }
        }),
{
    match msg {
        MeshWireMessage::Ping => (MeshServer::Wallet, Ok(one(MeshWireMessage::Pong))),
        MeshWireMessage::DagTransaction(tx) => match graph.ingest(tx) {
            Ok(_) => (MeshServer::Finished, Ok(one(MeshWireMessage::Done))),
            Err(_) => (MeshServer::Finished, Err(NetworkError::BadFrame)),
        },
        MeshWireMessage::Done => (MeshServer::Finished, Ok(nothing())),
        _ => (MeshServer::Finished, Err(NetworkError::BadFrame)),
    }
}

/// Serves one message of an inbound session. Gives the server after it and the
/// messages to send back.
pub fn serve_mesh_session<G: MeshGraph>(server: MeshServer, graph: &mut G, msg: MeshWireMessage) -> (r:
    (MeshServer, Result<Vec<MeshWireMessage>, NetworkError>))
    requires
        old(graph).ready(),
    ensures
        final(graph).ready(),
        ({
            let (s, d, out) = server@.next(old(graph).dag_view(), msg@);
            &&& r.0@ == s
            &&& final(graph).dag_view() == d
            &&& match r.1 {
                Ok(v) => out == Ok::<Seq<WireView>, NetworkError>(message_views(v@)),
                Err(e) => out == Err::<Seq<WireView>, NetworkError>(e),
            }
        }),
{
    match server {
        MeshServer::Greeting => match expect_hello(&msg) {
            Ok(role) => {
                let reply = one(hello(MeshRole::Hub));
                match role {
                    MeshRole::Wallet => (MeshServer::Wallet, Ok(reply)),
                    _ => {
                        let (s, _) = SyncSession::start(false);
                        (MeshServer::Sync(s), Ok(reply))
                    },
                }
            },
            Err(e) => (MeshServer::Finished, Err(e)),
        },
        MeshServer::Wallet => serve_wallet_submit(graph, msg),
        MeshServer::Sync(s) => {
            let mut s = s;
            let out = s.on_message(graph, msg);
            (MeshServer::Sync(s), out)
        },
        MeshServer::Finished => (MeshServer::Finished, Err(NetworkError::BadFrame)),
    }
}

/// A graph after vertices came in, one after the other.
pub open spec fn ingested(d: DagView, txs: Seq<TxView>) -> DagView
    decreases txs.len(),
{
    if txs.len() == 0 {
        d
    } else {
        ingested(d.accepted(txs[0]).0, txs.drop_first())
    }
}

/// No transfer runs over the largest amount while the vertices come in.
pub open spec fn never_overflows(d: DagView, txs: Seq<TxView>) -> bool
    decreases txs.len(),
{
    txs.len() == 0 || {
        &&& !(d.ledger.transfer_fault(txs[0]) matches Some(e) && !is_lost_spend(e))
        &&& never_overflows(d.accepted(txs[0]).0, txs.drop_first())
    }
}

/// What a vertex satisfies that was checked when it went into a graph: fee, address,
/// signature and carrier proofs.
pub open spec fn is_checked(t: TxView) -> bool {
    &&& t.fee == (if t.is_genesis() {
        0
    } else {
        crate::economics::FIXED_TRANSACTION_FEE
    })
    &&& address_of(t.public_key) == t.sender
    &&& t.signature_holds()
    &&& t.relays_proven()
}

/// Every stored vertex was checked.
pub open spec fn all_checked(g: GraphView) -> bool {
    forall|h: TxHash| #[trigger] g.vertices.contains_key(h) ==> is_checked(g.vertices[h])
}

/// Attaching a vertex keeps every stored vertex checked.
pub proof fn law_attach_keeps_checked(g: GraphView, t: TxView)
    requires
        all_checked(g),
        g.vertex_fault(t) is None,
    ensures
        all_checked(g.with(t)),
{
}

/// What a vertex from the wire does to the graph.
proof fn lemma_accepted_graph(d: DagView, t: TxView)
    ensures
        d.graph.vertices.contains_key(t.id) || d.graph.vertex_fault(t) is Some ==> d.accepted(
            t,
        ).0.graph == d.graph,
        d.graph.vertex_fault(t) is None && !(d.ledger.transfer_fault(t) matches Some(e)
            && !is_lost_spend(e)) ==> d.accepted(t).0.graph == d.graph.with(t),
{
}

/// Vertices whose parents are stored or come before them are all stored.
proof fn lemma_delivered(a: GraphView, d: DagView, ids: Seq<TxHash>)
    requires
        ids.no_duplicates(),
        forall|i: int| 0 <= i < ids.len() ==> #[trigger] deliverable(a, d.graph, ids, i),
        never_overflows(d, Seq::new(ids.len(), |i: int| a.vertices[ids[i]])),
    ensures
        ingested(d, Seq::new(ids.len(), |i: int| a.vertices[ids[i]])).graph.vertices.dom()
            == d.graph.vertices.dom().union(ids.to_set()),
    decreases ids.len(),
{
    let txs = Seq::new(ids.len(), |i: int| a.vertices[ids[i]]);
    if ids.len() == 0 {
        assert(ids.to_set() =~= Set::<TxHash>::empty());
        assert(d.graph.vertices.dom().union(ids.to_set()) =~= d.graph.vertices.dom());
    } else {
        let t = txs[0];
        let e = d.accepted(t).0;
        let rest = ids.drop_first();
        assert(deliverable(a, d.graph, ids, 0));
        assert(ids.take(0) =~= Seq::<TxHash>::empty());
        assert(t.id == ids[0]);
        assert(d.graph.vertex_fault(t) is None);
        lemma_accepted_graph(d, t);
        assert(e.graph == d.graph.with(t));
        assert(e.graph.vertices.dom() =~= d.graph.vertices.dom().insert(ids[0]));
        assert forall|i: int| 0 <= i < rest.len() implies #[trigger] deliverable(
            a,
            e.graph,
            rest,
            i,
        ) by {
            assert(deliverable(a, d.graph, ids, i + 1));
            assert(rest[i] == ids[i + 1]);
            assert(rest[i] != ids[0]);
            let before = ids.take(i + 1);
            let u = a.vertices[rest[i]];
            assert forall|p: TxHash| before.contains(p) implies p == ids[0] || rest.take(
                i,
            ).contains(p) by {
                let k = choose|k: int| 0 <= k < before.len() && before[k] == p;
                if k > 0 {
                    assert(rest.take(i)[k - 1] == p);
                }
            }
        }
        assert(txs.drop_first() =~= Seq::new(rest.len(), |i: int| a.vertices[rest[i]]));
        lemma_delivered(a, e, rest);
        assert(ids.to_set() =~= rest.to_set().insert(ids[0])) by {
            assert forall|h: TxHash| ids.contains(h) <==> #[trigger] rest.contains(h) || h
                == ids[0] by {
                if ids.contains(h) {
                    let k = choose|k: int| 0 <= k < ids.len() && ids[k] == h;
                    if k > 0 {
                        assert(rest[k - 1] == h);
                    }
                }
                if rest.contains(h) {
                    let k = choose|k: int| 0 <= k < rest.len() && rest[k] == h;
                    assert(ids[k + 1] == h);
                }
            }
        }
        assert(d.graph.vertices.dom().union(ids.to_set()) =~= e.graph.vertices.dom().union(
            rest.to_set(),
        ));
    }
}

/// Whether vertex `i` of a list can be stored once those before it are.
spec fn deliverable(a: GraphView, g: GraphView, ids: Seq<TxHash>, i: int) -> bool {
    let t = a.vertices[ids[i]];
    &&& t.id == ids[i]
    &&& !g.vertices.contains_key(ids[i])
    &&& is_checked(t)
    &&& !t.is_genesis()
    &&& t.parent_1 != NULL_PARENT
    &&& t.parent_2 != NULL_PARENT
    &&& g.vertices.contains_key(t.parent_1) || ids.take(i).contains(t.parent_1)
    &&& g.vertices.contains_key(t.parent_2) || ids.take(i).contains(t.parent_2)
}

/// What stands in a list that keeps an order.
proof fn lemma_in_order(order: Seq<TxHash>, wanted: Set<TxHash>)
    requires
        order.no_duplicates(),
    ensures
        in_order(order, wanted).no_duplicates(),
        forall|h: TxHash|
            in_order(order, wanted).contains(h) <==> #[trigger] order.contains(h)
                && wanted.contains(h),
    decreases order.len(),
{
    if order.len() > 0 {
        let o = order.drop_last();
        let x = order.last();
        assert(o.no_duplicates());
        lemma_in_order(o, wanted);
        let h = in_order(o, wanted);
        let r = in_order(order, wanted);
        assert forall|e: TxHash| order.contains(e) <==> #[trigger] o.contains(e) || e == x by {
            if order.contains(e) {
                let k = choose|k: int| 0 <= k < order.len() && order[k] == e;
                if k < o.len() {
                    assert(o[k] == e);
                }
            }
            if o.contains(e) {
                let k = choose|k: int| 0 <= k < o.len() && o[k] == e;
                assert(order[k] == e);
            }
            assert(order[order.len() - 1] == x);
        }
        assert(!o.contains(x)) by {
            if o.contains(x) {
                let k = choose|k: int| 0 <= k < o.len() && o[k] == x;
                assert(order[k] == order[order.len() - 1]);
            }
        }
        if wanted.contains(x) {
            assert(!h.contains(x));
            assert forall|e: TxHash| r.contains(e) <==> #[trigger] h.contains(e) || e == x by {
                if r.contains(e) {
                    let k = choose|k: int| 0 <= k < r.len() && r[k] == e;
                    if k < h.len() {
                        assert(h[k] == e);
                    }
                }
                if h.contains(e) {
                    let k = choose|k: int| 0 <= k < h.len() && h[k] == e;
                    assert(r[k] == e);
                }
                assert(r[h.len() as int] == x);
            }
        }
        assert forall|e: TxHash| r.contains(e) <==> #[trigger] order.contains(e)
            && wanted.contains(e) by {
            assert(h.contains(e) <==> o.contains(e) && wanted.contains(e));
            assert(order.contains(e) <==> o.contains(e) || e == x);
            if wanted.contains(x) {
                assert(r.contains(e) <==> h.contains(e) || e == x);
            } else {
                assert(r == h);
            }
        }
    } else {
        assert forall|h: TxHash|
            in_order(order, wanted).contains(h) <==> #[trigger] order.contains(h)
                && wanted.contains(h) by {}
    }
}

/// What stood earlier in the order stands earlier in the list.
proof fn lemma_in_order_before(order: Seq<TxHash>, wanted: Set<TxHash>, i: int, j: int, p: TxHash)
    requires
        order.no_duplicates(),
        0 <= i < in_order(order, wanted).len(),
        0 <= j < order.len(),
        in_order(order, wanted)[i] == order[j],
        order.take(j).contains(p),
        wanted.contains(p),
    ensures
        in_order(order, wanted).take(i).contains(p),
    decreases order.len(),
{
    let o = order.drop_last();
    let x = order.last();
    let h = in_order(o, wanted);
    let r = in_order(order, wanted);
    assert(o.no_duplicates());
    lemma_in_order(o, wanted);
    lemma_in_order(order, wanted);
    let m = choose|m: int| 0 <= m < j && order.take(j)[m] == p;
    assert(order[m] == p);
    if j < o.len() {
        assert(order[j] == o[j]);
        assert(i < h.len()) by {
            if i >= h.len() {
                assert(r[i] == x);
                assert(order[j] == order[order.len() - 1]);
            }
        }
        assert(o.take(j)[m] == p);
        lemma_in_order_before(o, wanted, i, j, p);
        assert(r.take(i) =~= h.take(i));
    } else {
        assert(order[j] == x);
        assert(i == h.len()) by {
            if i < h.len() {
                assert(h[i] == r[i]);
                assert(h.contains(x));
                assert(o.contains(x));
                let k = choose|k: int| 0 <= k < o.len() && o[k] == x;
                assert(order[k] == order[order.len() - 1]);
            }
        }
        assert(o[m] == p);
        assert(o.contains(p));
        assert(h.contains(p));
        assert(r.take(i) =~= h);
    }
}

/// The bodies of stored ids are what is stored.
pub proof fn lemma_bodies_of_stored(g: GraphView, ids: Seq<TxHash>)
    requires
        forall|i: int| 0 <= i < ids.len() ==> g.vertices.contains_key(#[trigger] ids[i]),
    ensures
        bodies(g, ids) == Seq::new(ids.len(), |i: int| g.vertices[ids[i]]),
    decreases ids.len(),
{
    if ids.len() > 0 {
        let h = ids.drop_last();
        assert forall|i: int| 0 <= i < h.len() implies g.vertices.contains_key(
            #[trigger] h[i],
        ) by {
            assert(h[i] == ids[i]);
        }
        lemma_bodies_of_stored(g, h);
        assert(g.vertices.contains_key(ids[ids.len() - 1]));
    }
    assert(bodies(g, ids) =~= Seq::new(ids.len(), |i: int| g.vertices[ids[i]]));
}

/// A graph that takes what another one advertises stores every vertex of both, where
/// the two share genesis, the advertisement together with what is stored covers the
/// other graph, and no transfer overflows.
#[verifier::spinoff_prover]
pub proof fn law_sync_delivers(a: GraphView, d: DagView, inv: InventoryView)
    requires
        a.sound(),
        all_checked(a),
        a.order.len() > 0,
        !a.vertices.contains_key(NULL_PARENT),
        d.graph.sound(),
        d.graph.vertices.contains_key(a.genesis_id()),
        forall|h: TxHash| #[trigger]
            a.vertices.contains_key(h) ==> inv.listed().contains(h)
                || d.graph.vertices.contains_key(h),
        never_overflows(d, bodies_of(a, need_list(d.graph, inv.listed()))),
    ensures
        ingested(d, bodies_of(a, need_list(d.graph, inv.listed()))).graph.vertices.dom()
            == d.graph.vertices.dom().union(a.vertices.dom()),
{
    let need = needed(d.graph, inv.listed());
    vstd::seq_lib::seq_to_set_is_finite(inv.tips);
    vstd::seq_lib::seq_to_set_is_finite(inv.recent);
    assert(need.subset_of(inv.listed()));
    vstd::set_lib::lemma_set_subset_finite(inv.listed(), need);
    lemma_ordered_set(need);
    let wanted = need_list(d.graph, inv.listed()).to_set();
    assert(wanted == need);
    let ids = in_order(a.order, wanted);
    lemma_in_order(a.order, wanted);
    assert forall|i: int| 0 <= i < ids.len() implies #[trigger] a.vertices.contains_key(ids[i]) by {
        assert(ids.contains(ids[i]));
        assert(a.order.contains(ids[i]));
    }
    lemma_bodies_of_stored(a, ids);
    assert forall|i: int| 0 <= i < ids.len() implies #[trigger] deliverable(a, d.graph, ids, i) by {
        let h = ids[i];
        assert(ids.contains(h));
        assert(a.order.contains(h));
        assert(a.vertices.contains_key(h));
        assert(wanted.contains(h));
        let j = choose|j: int| 0 <= j < a.order.len() && a.order[j] == h;
        let t = a.vertices[h];
        assert(a.grounded(j));
        assert(j > 0) by {
            if j == 0 {
                assert(h == a.genesis_id());
            }
        }
        lemma_parent_delivered(a, d.graph, wanted, i, j, t.parent_1);
        lemma_parent_delivered(a, d.graph, wanted, i, j, t.parent_2);
    }
    lemma_delivered(a, d, ids);
    assert(d.graph.vertices.dom().union(ids.to_set()) =~= d.graph.vertices.dom().union(
        a.vertices.dom(),
    )) by {
        assert forall|h: TxHash| a.vertices.dom().contains(h) implies d.graph.vertices.dom().contains(
            h,
        ) || ids.contains(h) by {
            assert(a.vertices.contains_key(h));
            assert(a.order.contains(h));
        }
        assert forall|h: TxHash| ids.contains(h) implies a.vertices.dom().contains(h) by {
            assert(a.order.contains(h));
            assert(a.vertices.contains_key(h));
        }
    }
}

proof fn lemma_parent_delivered(
    a: GraphView,
    g: GraphView,
    wanted: Set<TxHash>,
    i: int,
    j: int,
    p: TxHash,
)
    requires
        a.sound(),
        0 <= i < in_order(a.order, wanted).len(),
        0 <= j < a.order.len(),
        in_order(a.order, wanted)[i] == a.order[j],
        a.order.take(j).contains(p),
        forall|h: TxHash| #[trigger]
            a.vertices.contains_key(h) && !g.vertices.contains_key(h) ==> wanted.contains(h),
    ensures
        g.vertices.contains_key(p) || in_order(a.order, wanted).take(i).contains(p),
        p != NULL_PARENT || a.vertices.contains_key(NULL_PARENT),
        !a.vertices[a.order[j]].is_genesis() || a.vertices[a.order[j]].parent_1 != p,
{
    let m = choose|m: int| 0 <= m < j && a.order.take(j)[m] == p;
    assert(a.order[m] == p);
    assert(a.order.contains(p));
    assert(a.vertices.contains_key(p));
    if !g.vertices.contains_key(p) {
        lemma_in_order_before(a.order, wanted, i, j, p);
    }
    assert(a.grounded(j));
}

/// A session that is fed with messages: the session and the graph after them, and
/// everything that was sent back. A message that is refused ends it.
pub open spec fn run(s: SessionView, d: DagView, msgs: Seq<WireView>) -> (
    SessionView,
    DagView,
    Seq<WireView>,
)
    decreases msgs.len(),
{
    if msgs.len() == 0 {
        (s, d, Seq::empty())
    } else {
        let (after, graph, r) = s.next(d, msgs[0]);
        match r {
            Err(_) => (after, graph, Seq::empty()),
            Ok(out) => {
                let (end, last, more) = run(after, graph, msgs.drop_first());
                (end, last, out + more)
            },
        }
    }
}

/// What the connecting graph says to another one.
pub open spec fn initiator_says(a: GraphView, b: GraphView) -> Seq<WireView> {
    seq![
        WireView::Ping,
        WireView::Inventory(advertised(a)),
        WireView::Need(need_list(a, advertised(b).listed())),
        WireView::Have(have_list(a, advertised(b).listed())),
    ] + vertex_messages(bodies_of(a, need_list(b, advertised(a).listed()))).push(WireView::Done)
}

/// What the other graph answers.
pub open spec fn responder_says(a: GraphView, b: GraphView) -> Seq<WireView> {
    seq![
        WireView::Pong,
        WireView::Inventory(advertised(b)),
        WireView::Need(need_list(b, advertised(a).listed())),
    ] + vertex_messages(bodies_of(b, need_list(a, advertised(b).listed()))).push(WireView::Done)
}

proof fn lemma_run_first(s: SessionView, d: DagView, m: WireView, rest: Seq<WireView>)
    ensures
        run(s, d, seq![m] + rest) == (match s.next(d, m).2 {
            Err(_) => (s.next(d, m).0, s.next(d, m).1, Seq::empty()),
            Ok(out) => {
                let (end, last, more) = run(s.next(d, m).0, s.next(d, m).1, rest);
                (end, last, out + more)
            },
        }),
{
    assert((seq![m] + rest).drop_first() =~= rest);
}

proof fn lemma_run_bodies(s: SessionView, d: DagView, txs: Seq<TxView>)
    requires
        s.stage == SyncStage::Bodies,
    ensures
        run(s, d, vertex_messages(txs).push(WireView::Done)) == (
            s.at(SyncStage::Finished),
            ingested(d, txs),
            Seq::<WireView>::empty(),
        ),
    decreases txs.len(),
{
    let msgs = vertex_messages(txs).push(WireView::Done);
    if txs.len() == 0 {
        assert(msgs =~= seq![WireView::Done] + Seq::<WireView>::empty());
        lemma_run_first(s, d, WireView::Done, Seq::empty());
        assert(Seq::<WireView>::empty() + Seq::<WireView>::empty() =~= Seq::<WireView>::empty());
    } else {
        let t = txs.drop_first();
        let rest = vertex_messages(t).push(WireView::Done);
        assert(msgs =~= seq![WireView::Vertex(txs[0])] + rest);
        lemma_run_first(s, d, WireView::Vertex(txs[0]), rest);
        lemma_run_bodies(s, d.accepted(txs[0]).0, t);
        assert(Seq::<WireView>::empty() + Seq::<WireView>::empty() =~= Seq::<WireView>::empty());
    }
}

/// Two graphs that are connected say exactly what each expects of the other, and both
/// sessions end with each graph having taken the bodies that it asked for.
#[verifier::spinoff_prover]
pub proof fn law_session_runs_to_the_end(a: DagView, b: DagView)
    ensures
        ({
            let (s, d, said) = run(
                SessionView::start(true),
                a,
                responder_says(a.graph, b.graph),
            );
            &&& s.stage == SyncStage::Finished
            &&& d == ingested(
                a,
                bodies_of(b.graph, need_list(a.graph, advertised(b.graph).listed())),
            )
            &&& seq![WireView::Ping] + said == initiator_says(a.graph, b.graph)
        }),
        ({
            let (s, d, said) = run(
                SessionView::start(false),
                b,
                initiator_says(a.graph, b.graph),
            );
            &&& s.stage == SyncStage::Finished
            &&& d == ingested(
                b,
                bodies_of(a.graph, need_list(b.graph, advertised(a.graph).listed())),
            )
            &&& said == responder_says(a.graph, b.graph)
        }),
{
    let ga = a.graph;
    let gb = b.graph;
    let ia = advertised(ga);
    let ib = advertised(gb);
    let na = need_list(ga, ib.listed());
    let nb = need_list(gb, ia.listed());
    let ha = have_list(ga, ib.listed());
    let from_a = vertex_messages(bodies_of(ga, nb)).push(WireView::Done);
    let from_b = vertex_messages(bodies_of(gb, na)).push(WireView::Done);
    // The connecting side.
    let s0 = SessionView::start(true);
    let m3 = seq![WireView::Need(nb)] + from_b;
    let m2 = seq![WireView::Inventory(ib)] + m3;
    let m1 = seq![WireView::Pong] + m2;
    assert(m1 =~= responder_says(ga, gb));
    let s1 = s0.at(SyncStage::Inventory);
    let s2 = SessionView { remote: ib, ..s1 }.at(SyncStage::Need);
    let s3 = SessionView { wanted: nb, ..s2 }.at(SyncStage::Bodies);
    lemma_run_first(s0, a, WireView::Pong, m2);
    lemma_run_first(s1, a, WireView::Inventory(ib), m3);
    lemma_run_first(s2, a, WireView::Need(nb), from_b);
    lemma_run_bodies(s3, a, bodies_of(gb, na));
    assert(from_a + Seq::<WireView>::empty() =~= from_a);
    assert(seq![WireView::Ping] + (seq![WireView::Inventory(ia)] + (seq![
        WireView::Need(na),
        WireView::Have(ha),
    ] + from_a)) =~= initiator_says(ga, gb));
    // The other side.
    let t0 = SessionView::start(false);
    let w4 = seq![WireView::Have(ha)] + from_a;
    let w3 = seq![WireView::Need(na)] + w4;
    let w2 = seq![WireView::Inventory(ia)] + w3;
    let w1 = seq![WireView::Ping] + w2;
    assert(w1 =~= initiator_says(ga, gb));
    let t1 = t0.at(SyncStage::Inventory);
    let t2 = SessionView { remote: ia, ..t1 }.at(SyncStage::Need);
    let t3 = SessionView { wanted: na, ..t2 }.at(SyncStage::Have);
    let t4 = t3.at(SyncStage::Bodies);
    lemma_run_first(t0, b, WireView::Ping, w2);
    lemma_run_first(t1, b, WireView::Inventory(ia), w3);
    lemma_run_first(t2, b, WireView::Need(na), w4);
    lemma_run_first(t3, b, WireView::Have(ha), from_a);
    lemma_run_bodies(t4, b, bodies_of(ga, nb));
    let reply = (seq![WireView::Need(nb)] + vertex_messages(bodies_of(gb, na))).push(
        WireView::Done,
    );
    assert(reply + Seq::<WireView>::empty() =~= reply);
    assert(Seq::<WireView>::empty() + reply =~= reply);
    assert(seq![WireView::Pong] + (seq![WireView::Inventory(ib)] + reply) =~= responder_says(
        ga,
        gb,
    ));
}

/// After a session both graphs store the same vertices: those that either of them
/// stored before.
pub proof fn law_session_converges(a: DagView, b: DagView)
    requires
        a.graph.sound(),
        b.graph.sound(),
        all_checked(a.graph),
        all_checked(b.graph),
        a.graph.order.len() > 0,
        b.graph.order.len() > 0,
        !a.graph.vertices.contains_key(NULL_PARENT),
        !b.graph.vertices.contains_key(NULL_PARENT),
        a.graph.genesis_id() == b.graph.genesis_id(),
        forall|h: TxHash| #[trigger]
            a.graph.vertices.contains_key(h) ==> advertised(a.graph).listed().contains(h)
                || b.graph.vertices.contains_key(h),
        forall|h: TxHash| #[trigger]
            b.graph.vertices.contains_key(h) ==> advertised(b.graph).listed().contains(h)
                || a.graph.vertices.contains_key(h),
        never_overflows(
            a,
            bodies_of(b.graph, need_list(a.graph, advertised(b.graph).listed())),
        ),
        never_overflows(
            b,
            bodies_of(a.graph, need_list(b.graph, advertised(a.graph).listed())),
        ),
    ensures
        ({
            let a2 = run(SessionView::start(true), a, responder_says(a.graph, b.graph)).1;
            let b2 = run(SessionView::start(false), b, initiator_says(a.graph, b.graph)).1;
            &&& a2.graph.vertices.dom() == b2.graph.vertices.dom()
            &&& a2.graph.vertices.dom() == a.graph.vertices.dom().union(b.graph.vertices.dom())
        }),
{
    law_session_runs_to_the_end(a, b);
    assert(a.graph.order.contains(a.graph.order[0]));
    assert(b.graph.order.contains(b.graph.order[0]));
    assert(a.graph.vertices.contains_key(a.graph.order[0]));
    assert(b.graph.vertices.contains_key(b.graph.order[0]));
    law_sync_delivers(a.graph, b, advertised(a.graph));
    law_sync_delivers(b.graph, a, advertised(b.graph));
    assert(a.graph.vertices.dom().union(b.graph.vertices.dom())
        =~= b.graph.vertices.dom().union(a.graph.vertices.dom()));
}

/// While bodies are exchanged, what is offered and not stored is asked for, in the order in
/// which it was offered, and nothing is asked for where all of it is stored.
pub proof fn law_offer_is_asked_for(s: SessionView, d: DagView, ids: Seq<TxHash>, h: TxHash)
    ensures
        ({
            let (after, graph, r) = s.next_body(d, WireView::Have(ids));
            let lacking = ids.contains(h) && !d.graph.vertices.contains_key(h);
            &&& after == s
            &&& graph == d
            &&& r matches Ok(out) && out.len() <= 1
            &&& lacking ==> r->Ok_0.len() == 1
            &&& r->Ok_0.len() == 1 ==> (r->Ok_0[0] matches WireView::Need(list) && (list.contains(h)
                <==> lacking))
        }),
{
    let f = |x: TxHash| !d.graph.vertices.contains_key(x);
    let m = unstored(d.graph, ids);
    assert(m == ids.filter(f));
    if m.contains(h) {
        ids.lemma_filter_contains_rev(f, h);
        let i = choose|i: int| 0 <= i < m.len() && m[i] == h;
        ids.lemma_filter_pred(f, i);
    }
    if ids.contains(h) && f(h) {
        let i = choose|i: int| 0 <= i < ids.len() && ids[i] == h;
        ids.lemma_filter_contains(f, i);
    }
    assert(m.contains(h) <==> ids.contains(h) && !d.graph.vertices.contains_key(h));
}

/// What else is said while bodies are exchanged: a vertex goes into the graph as one from the
/// wire does and is not answered, a Ping is answered, and Done ends the session.
pub proof fn law_bodies_are_taken(s: SessionView, d: DagView, t: TxView)
    ensures
        s.next_body(d, WireView::Vertex(t)).1 == d.accepted(t).0,
        s.next_body(d, WireView::Vertex(t)).2 == Ok::<Seq<WireView>, NetworkError>(Seq::empty()),
        s.next_body(d, WireView::Vertex(t)).0 == s,
        s.next_body(d, WireView::Ping).2 == Ok::<Seq<WireView>, NetworkError>(seq![WireView::Pong]),
        s.next_body(d, WireView::Done).0.stage == SyncStage::Finished,
        s.next_body(d, WireView::Done).1 == d,
{
}

} // verus!
