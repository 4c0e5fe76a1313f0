//! A P2P node between its sockets: contacts, Have/Need gossip, and what arrived. Each
//! event gives the frames to write; sockets, channels and clocks are the caller's part.

use vstd::prelude::*;

use crate::crypto::lattice::address_of;
use crate::crypto::hash::sha256_of;
use crate::dag::tx::{is_wire_ready, TxView};
use crate::p2p::error::NetworkError;
use crate::p2p::frame::{sized, KIND_INV, KIND_PAYLOAD, KIND_PING, KIND_PONG, KIND_WANT};
use crate::p2p::gossip::{
    id_list, parsed_ids, parsed_payload, EngineView, GossipEngine, GossipInventory, GossipPayload,
    GossipWant, PayloadView,
};
use crate::p2p::handshake::HandshakeConfig;
use crate::p2p::overlay::NodeOverlayId;
use crate::p2p::peer::{Peer, PeerRole, PeerView};
use crate::p2p::routing::{first_where, peer_views, with_overlay, RoutingTable, TableView};
use crate::p2p::wire::{mesh_bytes, vertex_of};
use crate::table::{lemma_ordered, ordered, KeySet};
use crate::types::message::MeshMessage;
use crate::types::Address;

verus! {

/// A node's contacts, message store, live sessions, and deliveries.
pub struct P2pNode {
    role: PeerRole,
    table: RoutingTable,
    gossip: GossipEngine,
    sessions: KeySet<32>,
    delivered: Vec<(Address, MeshMessage)>,
}

/// A node as mathematical data.
#[verifier::ext_equal]
pub struct NodeView {
    pub role: PeerRole,
    pub table: TableView,
    pub gossip: EngineView,
    pub sessions: Set<Address>,
    pub delivered: Seq<(Address, TxView)>,
}

pub open spec fn delivery_views(v: Seq<(Address, MeshMessage)>) -> Seq<(Address, TxView)> {
    v.map_values(|x: (Address, MeshMessage)| (x.0, vertex_of(x.1)))
}

impl View for P2pNode {
    type V = NodeView;

    closed spec fn view(&self) -> NodeView {
        NodeView {
            role: self.role,
            table: self.table@,
            gossip: self.gossip@,
            sessions: self.sessions@,
            delivered: delivery_views(self.delivered@),
        }
    }
}

/// Frames for one session, and an inventory for others.
#[derive(Debug)]
pub struct FrameReply {
    /// Kind and payload of each frame to write back.
    pub frames: Vec<(u8, Vec<u8>)>,
    /// The sessions that get the inventory of a new message.
    pub fanout: Vec<Address>,
    pub inventory: Option<GossipInventory>,
}

pub open spec fn frame_views(v: Seq<(u8, Vec<u8>)>) -> Seq<(u8, Seq<u8>)> {
    v.map_values(|f: (u8, Vec<u8>)| (f.0, f.1@))
}

/// A reply as mathematical data.
#[verifier::ext_equal]
pub struct ReplyView {
    pub frames: Seq<(u8, Seq<u8>)>,
    pub fanout: Seq<Address>,
    pub inventory: Option<Seq<[u8; 32]>>,
}

impl View for FrameReply {
    type V = ReplyView;

    open spec fn view(&self) -> ReplyView {
        ReplyView {
            frames: frame_views(self.frames@),
            fanout: self.fanout@,
            inventory: match self.inventory {
                Some(inv) => Some(inv.ids@),
                None => None,
            },
        }
    }
}

impl ReplyView {
    pub open spec fn silent() -> ReplyView {
        ReplyView { frames: Seq::empty(), fanout: Seq::empty(), inventory: None }
    }

    pub open spec fn with_frames(frames: Seq<(u8, Seq<u8>)>) -> ReplyView {
        ReplyView { frames, ..ReplyView::silent() }
    }
}

/// The payload frames of bodies.
pub open spec fn payload_frames(v: Seq<PayloadView>) -> Seq<(u8, Seq<u8>)> {
    v.map_values(|p: PayloadView| (KIND_PAYLOAD, p.id@ + sized(p.body)))
}

/// The contacts of `list` that have a session.
pub open spec fn reachable(list: Seq<PeerView>, sessions: Set<Address>) -> Seq<Address>
    decreases list.len(),
{
    if list.len() == 0 {
        Seq::empty()
    } else {
        let head = reachable(list.drop_last(), sessions);
        if sessions.contains(list.last().id) {
            head.push(list.last().id)
        } else {
            head
        }
    }
}

impl NodeView {
    /// A frame arrives from a peer: the node after it, and what is written. Frames that
    /// cannot be read, and those of other kinds, are passed over.
    pub open spec fn framed(self, peer: Address, kind: u8, b: Seq<u8>) -> (NodeView, ReplyView) {
        if kind == KIND_INV {
            match parsed_ids(b) {
                Ok(ids) => {
                    let want = self.gossip.wanted(ids);
                    (
                        self,
                        if want.len() == 0 {
                            ReplyView::silent()
                        } else {
                            ReplyView::with_frames(seq![(KIND_WANT, id_list(want))])
                        },
                    )
                },
                Err(_) => (self, ReplyView::silent()),
            }
        } else if kind == KIND_WANT {
            match parsed_ids(b) {
                Ok(ids) => (self, ReplyView::with_frames(payload_frames(self.gossip.bodies(ids)))),
                Err(_) => (self, ReplyView::silent()),
            }
        } else if kind == KIND_PAYLOAD {
            match parsed_payload(b) {
                Ok(p) => {
                    let (g, r) = self.gossip.received(p);
                    match r {
                        Ok(Some(t)) => (
                            NodeView {
                                gossip: g,
                                delivered: self.delivered.push((peer, t)),
                                ..self
                            },
                            ReplyView {
                                frames: Seq::empty(),
                                fanout: ordered(self.sessions.remove(peer)),
                                inventory: Some(seq![p.id]),
                            },
                        ),
                        _ => (NodeView { gossip: g, ..self }, ReplyView::silent()),
                    }
                },
                Err(_) => (self, ReplyView::silent()),
            }
        } else if kind == KIND_PING {
            (self, ReplyView::with_frames(seq![(KIND_PONG, Seq::<u8>::empty())]))
        } else {
            (self, ReplyView::silent())
        }
    }

    /// A peer has passed the handshake. Where the table refuses it, a connection that
    /// this node opened is given up; one that the peer opened is kept without a contact.
    pub open spec fn joined(self, p: PeerView, now: u64, outbound: bool) -> (NodeView, bool) {
        let (t, taken) = self.table.seen(p, now);
        if outbound && !taken {
            (NodeView { table: t, ..self }, false)
        } else {
            (NodeView { table: t, sessions: self.sessions.insert(p.id), ..self }, true)
        }
    }
}

impl P2pNode {
    pub closed spec fn wf(&self) -> bool {
        self.table.wf() && self.gossip.wf() && self.sessions.wf()
    }

    pub fn new(hs: &HandshakeConfig) -> (r: Self)
        ensures
            r.wf(),
            r@ == (NodeView {
                role: hs.role,
                table: TableView::fresh(address_of(hs.keys.public@), hs.role),
                gossip: EngineView::fresh(hs.role),
                sessions: Set::empty(),
                delivered: Seq::empty(),
            }),
    {
        let r = P2pNode {
            role: hs.role,
            table: RoutingTable::new(hs.peer_id(), hs.role),
            gossip: GossipEngine::for_role(hs.role),
            sessions: KeySet::new(),
            delivered: Vec::new(),
        };
        assert(delivery_views(r.delivered@) =~= Seq::<(Address, TxView)>::empty());
        r
    }

    pub fn local_id(&self) -> (r: Address)
        ensures
            r == self@.table.local_id,
    {
        self.table.local_id()
    }

    pub fn overlay_id(&self) -> (r: NodeOverlayId)
        ensures
            r@ == self@.table.local_overlay,
    {
        self.table.local_overlay()
    }

    pub fn role(&self) -> (r: PeerRole)
        ensures
            r == self@.role,
    {
        self.role
    }

    /// A peer passed the handshake on a connection that this node opened (`outbound`)
    /// or that it opened.
    pub fn connect(&mut self, peer: Peer, now: u64, outbound: bool) -> (r: Result<
        (),
        NetworkError,
    >)
        requires
            old(self).wf(),
        ensures
            final(self).wf(),
            final(self)@ == old(self)@.joined(peer@, now, outbound).0,
            r == (if old(self)@.joined(peer@, now, outbound).1 {
                Ok::<(), NetworkError>(())
            } else {
                Err::<(), NetworkError>(NetworkError::RoutingDenied)
            }),
    {
        let id = peer.id;
        let taken = self.table.insert(peer, now);
        if outbound {
            if let Err(e) = taken {
                return Err(e);
            }
        }
        let _ = self.sessions.insert(id);
        Ok(())
    }

    /// The session with a peer ended.
    pub fn disconnect(&mut self, peer: &Address)
        requires
            old(self).wf(),
        ensures
            final(self).wf(),
            final(self)@ == (NodeView { sessions: old(self)@.sessions.remove(*peer), ..old(self)@ }),
    {
        let _ = self.sessions.remove(peer);
    }

    /// Announces a message: its id, the inventory, and the sessions that get it.
    pub fn broadcast(&mut self, msg: &MeshMessage) -> (r: (
        crate::types::Hash,
        GossipInventory,
        Vec<Address>,
    ))
        requires
            old(self).wf(),
        ensures
            final(self).wf(),
            ({
                let body = mesh_bytes(vertex_of(*msg));
                let id = sha256_of(body);
                &&& final(self)@ == (NodeView {
                    gossip: old(self)@.gossip.with(id, body),
                    ..old(self)@
                })
                &&& r.0 == id
                &&& r.1.ids@ == seq![id]
                &&& r.2@ == reachable(
                    old(self)@.table.targets(old(self)@.role),
                    old(self)@.sessions,
                )
            }),
    {
        let inv = self.gossip.announce(msg);
        let id = inv.ids[0];
        let targets = self.table.gossip_targets(self.role);
        let ghost v = peer_views(targets@);
        let mut to: Vec<Address> = Vec::new();
        let mut i: usize = 0;
        assert(v.take(0) =~= Seq::<PeerView>::empty());
        while i < targets.len()
            invariant
                i <= targets@.len(),
                v == peer_views(targets@),
                self.sessions.wf(),
                to@ == reachable(v.take(i as int), self.sessions@),
            decreases targets@.len() - i,
        {
            proof {
                assert(v[i as int] == targets@[i as int]@);
                assert(v.take(i + 1).drop_last() =~= v.take(i as int));
            }
            if self.sessions.contains(&targets[i].id) {
                to.push(targets[i].id);
            }
            i += 1;
        }
        assert(v.take(i as int) =~= v);
        (id, inv, to)
    }

    /// A frame arrived from a peer.
    pub fn on_frame(&mut self, peer: &Address, kind: u8, payload: &[u8]) -> (r: FrameReply)
        requires
            old(self).wf(),
        ensures
            final(self).wf(),
            final(self)@ == old(self)@.framed(*peer, kind, payload@).0,
            r@ == old(self)@.framed(*peer, kind, payload@).1,
    {
        if kind == KIND_INV {
            if let Ok(inv) = GossipInventory::decode(payload) {
                let want = self.gossip.on_inventory(&inv);
                if want.ids.len() > 0 {
                    return one_frame(KIND_WANT, want.encode());
                }
            }
            silence()
        } else if kind == KIND_WANT {
            match GossipWant::decode(payload) {
                Ok(want) => {
                    let replies = self.gossip.on_want(&want);
                    frames_of(replies)
                },
                Err(_) => silence(),
            }
        } else if kind == KIND_PAYLOAD {
            match GossipPayload::decode(payload) {
                Ok(p) => {
                    let id = p.id;
                    match self.gossip.on_payload(p) {
                        Ok(Some(msg)) => {
                            let ghost before = self.delivered@;
                            let ghost t = vertex_of(msg);
                            self.delivered.push((*peer, msg));
                            assert(delivery_views(self.delivered@) =~= delivery_views(before).push(
                                (*peer, t),
                            ));
                            let mut others = self.sessions.clone();
                            let _ = others.remove(peer);
                            let fanout = others.to_vec();
                            proof {
                                lemma_ordered(fanout@);
                            }
                            let ids: Vec<[u8; 32]> = vec![id];
                            assert(ids@ =~= seq![id]);
                            let r = FrameReply {
                                frames: Vec::new(),
                                fanout,
                                inventory: Some(GossipInventory { ids }),
                            };
                            assert(frame_views(r.frames@) =~= Seq::<(u8, Seq<u8>)>::empty());
                            r
                        },
                        _ => silence(),
                    }
                },
                Err(_) => silence(),
            }
        } else if kind == KIND_PING {
            let none: Vec<u8> = Vec::new();
            assert(none@ =~= Seq::<u8>::empty());
            one_frame(KIND_PONG, none)
        } else {
            silence()
        }
    }

    pub fn has(&self, id: &[u8; 32]) -> (r: bool)
        requires
            self.wf(),
        ensures
            r == self@.gossip.store.contains_key(*id),
    {
        self.gossip.contains(id)
    }

    /// What arrived since the last call, with the peers it came from.
    pub fn take_delivered_from(&mut self) -> (r: Vec<(Address, MeshMessage)>)
        requires
            old(self).wf(),
        ensures
            final(self).wf(),
            delivery_views(r@) == old(self)@.delivered,
            final(self)@ == (NodeView { delivered: Seq::empty(), ..old(self)@ }),
    {
        let mut out: Vec<(Address, MeshMessage)> = Vec::new();
        std::mem::swap(&mut out, &mut self.delivered);
        assert(delivery_views(self.delivered@) =~= Seq::<(Address, TxView)>::empty());
        out
    }

    /// What arrived since the last call.
    pub fn take_delivered(&mut self) -> (r: Vec<MeshMessage>)
        requires
            old(self).wf(),
        ensures
            final(self).wf(),
            r@.len() == old(self)@.delivered.len(),
            forall|i: int|
                0 <= i < r@.len() ==> vertex_of(#[trigger] r@[i]) == old(self)@.delivered[i].1,
            final(self)@ == (NodeView { delivered: Seq::empty(), ..old(self)@ }),
    {
        let mut all = self.take_delivered_from();
        let ghost v = delivery_views(all@);
        let ghost n = all@.len();
        let mut out: Vec<MeshMessage> = Vec::new();
        assert(v.len() == all@.len());
        assert forall|k: int| 0 <= k < n implies (#[trigger] v[k]).1 == vertex_of(all@[k].1) by {}
        while all.len() > 0
            invariant
                n == v.len(),
                out@.len() + all@.len() == n,
                forall|k: int| 0 <= k < out@.len() ==> vertex_of(#[trigger] out@[k]) == v[k].1,
                forall|k: int|
                    0 <= k < all@.len() ==> vertex_of((#[trigger] all@[k]).1) == v[out@.len()
                        + k].1,
            decreases all@.len(),
        {
            let ghost before = all@;
            let (_, msg) = all.remove(0);
            assert(all@ =~= before.remove(0));
            out.push(msg);
        }
        out
    }

    pub fn live_peers(&self) -> (r: Vec<Peer>)
        ensures
            peer_views(r@) == self@.table.live(),
    {
        self.table.live_peers()
    }

    pub fn peer_count(&self) -> (r: usize)
        ensures
            r == self@.table.live().len(),
    {
        let peers = self.table.live_peers();
        assert(peer_views(peers@).len() == peers@.len());
        peers.len()
    }

    pub fn has_overlay(&self, id: &NodeOverlayId) -> (r: bool)
        ensures
            r == (id@ == self@.table.local_overlay || first_where(
                self@.table.live(),
                with_overlay(id@),
                0,
            ) < self@.table.live().len()),
    {
        self.table.contains_overlay(id)
    }
}

fn silence() -> (r: FrameReply)
    ensures
        r@ == ReplyView::silent(),
{
    let r = FrameReply { frames: Vec::new(), fanout: Vec::new(), inventory: None };
    assert(r@ =~= ReplyView::silent());
    r
}

fn one_frame(kind: u8, payload: Vec<u8>) -> (r: FrameReply)
    ensures
        r@ == ReplyView::with_frames(seq![(kind, payload@)]),
{
    let mut frames: Vec<(u8, Vec<u8>)> = Vec::new();
    let ghost b = payload@;
    frames.push((kind, payload));
    let r = FrameReply { frames, fanout: Vec::new(), inventory: None };
    assert(r@ =~= ReplyView::with_frames(seq![(kind, b)]));
    r
}

fn frames_of(replies: Vec<GossipPayload>) -> (r: FrameReply)
    ensures
        r@ == ReplyView::with_frames(
            payload_frames(crate::p2p::gossip::payload_views(replies@)),
        ),
{
    let ghost v = crate::p2p::gossip::payload_views(replies@);
    let mut frames: Vec<(u8, Vec<u8>)> = Vec::new();
    let mut i: usize = 0;
    while i < replies.len()
        invariant
            i <= replies@.len(),
            v == crate::p2p::gossip::payload_views(replies@),
            frames@.len() == i,
            forall|k: int|
                0 <= k < i ==> (#[trigger] frames@[k]).0 == KIND_PAYLOAD && frames@[k].1@
                    == v[k].id@ + sized(v[k].body),
        decreases replies@.len() - i,
    {
        assert(v[i as int] == replies@[i as int]@);
        frames.push((KIND_PAYLOAD, replies[i].encode()));
        i += 1;
    }
    let r = FrameReply { frames, fanout: Vec::new(), inventory: None };
    assert(frame_views(r.frames@) =~= payload_frames(v));
    assert(r@ =~= ReplyView::with_frames(payload_frames(v)));
    r
}

/// Gossip reaches a neighbour in one exchange: what a node announces, another node that
/// does not have it asks for, gets, delivers, and passes on to its other sessions.
pub proof fn law_have_need_delivers(
    a: NodeView,
    b: NodeView,
    from: Address,
    to: Address,
    t: TxView,
)
    requires
        is_gossiped(t),
        a.gossip.store.contains_key(sha256_of(mesh_bytes(t))),
        a.gossip.store[sha256_of(mesh_bytes(t))] == mesh_bytes(t),
        !b.gossip.store.contains_key(sha256_of(mesh_bytes(t))),
        b.gossip.max_want > 0,
    ensures
        ({
            let id = sha256_of(mesh_bytes(t));
            let inv = id_list(seq![id]);
            let asked = b.framed(from, KIND_INV, inv).1.frames;
            let sent = a.framed(to, KIND_WANT, inv).1.frames;
            &&& asked == seq![(KIND_WANT, inv)]
            &&& sent.len() == 1
            &&& sent[0].0 == KIND_PAYLOAD
            &&& b.framed(from, KIND_PAYLOAD, sent[0].1).0.delivered == b.delivered.push((from, t))
            &&& b.framed(from, KIND_PAYLOAD, sent[0].1).0.gossip.store.contains_key(id)
            &&& b.framed(from, KIND_PAYLOAD, sent[0].1).1.inventory == Some(seq![id])
        }),
{
    let body = mesh_bytes(t);
    let id = sha256_of(body);
    let ids = seq![id];
    crate::p2p::gossip::law_inventory_round_trip(ids);
    let f = |x: [u8; 32]| !b.gossip.store.contains_key(x);
    assert(ids.filter(f) =~= ids) by {
        assert(ids =~= Seq::<[u8; 32]>::empty().push(id));
        Seq::<[u8; 32]>::empty().lemma_filter_push(id, f);
        assert(Seq::<[u8; 32]>::empty().filter(f) =~= Seq::<[u8; 32]>::empty()) by {
            reveal(Seq::filter);
        }
    }
    assert(b.gossip.missing(ids) == ids);
    assert(b.gossip.wanted(ids) == ids);
    assert(ids.drop_last() =~= Seq::<[u8; 32]>::empty());
    let p = PayloadView { id, body };
    assert(a.gossip.bodies(ids) =~= seq![p]) by {
        assert(a.gossip.bodies(ids.drop_last()) =~= Seq::<PayloadView>::empty());
    }
    let sent = payload_frames(a.gossip.bodies(ids));
    assert(sent =~= seq![(KIND_PAYLOAD, p.id@ + sized(p.body))]);
    crate::p2p::wire::law_mesh_round_trip(t);
    crate::bytes::lemma_le_bytes_len(t.canonical().len(), 4);
    assert(body.len() <= u32::MAX);
    crate::p2p::gossip::law_payload_round_trip(p);
}

/// A transfer that travels: the wire can carry it, and its message fits a length.
pub open spec fn is_gossiped(t: TxView) -> bool {
    is_wire_ready(t) && mesh_bytes(t).len() <= u32::MAX
}

} // verus!
