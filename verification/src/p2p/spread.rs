//! How messages spread: what the store keeps, what is asked for and answered, whom a node
//! tells, and what a hub writes down.

use vstd::prelude::*;

use crate::crypto::hash::sha256_of;
use crate::dag::error::DagError;
use crate::dag::tx::TxView;
use crate::explorer::indexer::IndexView;
use crate::p2p::error::NetworkError;
use crate::p2p::frame::sized;
use crate::p2p::gossip::{id_list, law_inventory_round_trip, law_payload_round_trip,
    EngineView, PayloadView};
use crate::p2p::hub::{snapshot_write, HubView, WriteView};
use crate::p2p::node::{reachable, NodeView};
use crate::p2p::peer::{PeerRole, PeerView};
use crate::p2p::wire::{mesh_bytes, parsed_mesh};
use crate::persist::{record_bytes, WAL_MAGIC};
use crate::types::Address;

verus! {

/// Storing a message keeps it under its id, and keeps every other message but the oldest, which
/// goes where the store is full. A message that is stored already stays as it is.
pub proof fn law_store_drops_only_the_oldest(
    e: EngineView,
    id: [u8; 32],
    body: Seq<u8>,
    other: [u8; 32],
)
    requires
        e.sound(),
    ensures
        ({
            let n = e.with(id, body);
            &&& n.store.contains_key(id)
            &&& n.store[id] == (if e.store.contains_key(id) {
                e.store[id]
            } else {
                body
            })
            &&& other != id ==> (n.store.contains_key(other) <==> e.store.contains_key(other) && (
            e.store.contains_key(id) || e.order.len() < e.max_store || other != e.order[0]))
            &&& other != id && n.store.contains_key(other) ==> n.store[other] == e.store[other]
            &&& !e.store.contains_key(id) ==> n.order.last() == id
        }),
{
    if e.order.len() > 0 {
        assert(e.order.to_set().contains(e.order[0]));
    }
    assert(e.order.to_set().contains(id) == e.store.contains_key(id));
}

/// A new store is empty; a phone's keeps 64 messages and asks for two at a time, a core node's
/// keeps 4,096 and asks for thirty-two.
pub proof fn law_store_sizes(role: PeerRole, id: [u8; 32])
    ensures
        ({
            let e = EngineView::fresh(role);
            &&& e.sound()
            &&& !e.store.contains_key(id)
            &&& role == PeerRole::EdgeMiner ==> e.max_store == 64 && e.max_want == 2
            &&& role == PeerRole::CoreValidator ==> e.max_store == 4_096 && e.max_want == 32
        }),
{
    assert(Seq::<[u8; 32]>::empty().to_set() =~= Map::<[u8; 32], Seq<u8>>::empty().dom());
}

/// Of an inventory a node asks for what it has not got, the first of them first, as many as it
/// asks for at a time or as there are.
pub proof fn law_what_is_missing_is_asked_for(e: EngineView, ids: Seq<[u8; 32]>)
    ensures
        ({
            let gone = ids.filter(|id: [u8; 32]| !e.store.contains_key(id));
            &&& e.wanted(ids).is_prefix_of(gone)
            &&& e.wanted(ids).len() == (if gone.len() < e.max_want {
                gone.len()
            } else {
                e.max_want
            })
        }),
{
}

/// A request is answered with the bodies that are stored, each under its id, in the order asked
/// for, and with nothing else.
pub proof fn law_request_is_answered(e: EngineView, ids: Seq<[u8; 32]>)
    ensures
        e.bodies(ids) == ids.filter(|id: [u8; 32]| e.store.contains_key(id)).map_values(
            |id: [u8; 32]| PayloadView { id, body: e.store[id] },
        ),
    decreases ids.len(),
{
    let f = |id: [u8; 32]| e.store.contains_key(id);
    let m = |id: [u8; 32]| PayloadView { id, body: e.store[id] };
    reveal(Seq::filter);
    if ids.len() > 0 {
        law_request_is_answered(e, ids.drop_last());
    }
    assert(e.bodies(ids) =~= ids.filter(f).map_values(m));
}

/// What becomes of a payload: one that does not hash to its id, or does not read as a message,
/// is refused and not stored; one that is stored already is passed over; every other one is
/// stored and handed on.
pub proof fn law_payload_is_taken_in(e: EngineView, p: PayloadView)
    requires
        e.sound(),
    ensures
        ({
            let (n, r) = e.received(p);
            &&& r is Ok && r->Ok_0 is Some <==> sha256_of(p.body) == p.id
                && !e.store.contains_key(p.id) && parsed_mesh(p.body) is Ok
            &&& r is Ok && r->Ok_0 is Some ==> {
                &&& n.store.contains_key(p.id)
                &&& n.store[p.id] == p.body
                &&& parsed_mesh(p.body) == Ok::<TxView, NetworkError>(r->Ok_0.unwrap())
            }
            &&& !(r is Ok && r->Ok_0 is Some) ==> n == e
            &&& r is Ok && r->Ok_0 is None <==> sha256_of(p.body) == p.id && e.store.contains_key(
                p.id,
            )
        }),
{
    if sha256_of(p.body) == p.id && !e.store.contains_key(p.id) && parsed_mesh(p.body) is Ok {
        law_store_drops_only_the_oldest(e, p.id, p.body, p.id);
    }
}

/// A node tells those of the chosen contacts that it has a session with, in their order.
pub proof fn law_told_are_those_in_session(list: Seq<PeerView>, sessions: Set<Address>)
    ensures
        reachable(list, sessions) == list.filter(
            |p: PeerView| sessions.contains(p.id),
        ).map_values(|p: PeerView| p.id),
    decreases list.len(),
{
    let f = |p: PeerView| sessions.contains(p.id);
    let m = |p: PeerView| p.id;
    reveal(Seq::filter);
    if list.len() > 0 {
        law_told_are_those_in_session(list.drop_last(), sessions);
    }
    assert(reachable(list, sessions) =~= list.filter(f).map_values(m));
}

/// An inventory is answered with a request for what is missing, and with silence where nothing
/// is; the node stays as it was.
pub proof fn law_inventory_is_answered(n: NodeView, peer: Address, ids: Seq<[u8; 32]>)
    requires
        ids.len() <= u16::MAX,
    ensures
        ({
            let (after, reply) = n.framed(peer, 10, id_list(ids));
            let gone = ids.filter(|id: [u8; 32]| !n.gossip.store.contains_key(id));
            &&& after == n
            &&& reply.inventory is None
            &&& reply.fanout.len() == 0
            &&& gone.len() == 0 || n.gossip.max_want == 0 ==> reply.frames.len() == 0
            &&& gone.len() > 0 && n.gossip.max_want > 0 ==> {
                &&& reply.frames.len() == 1
                &&& reply.frames[0].0 == 11
                &&& exists|want: Seq<[u8; 32]>|
                    {
                        &&& #[trigger] want.is_prefix_of(gone)
                        &&& want.len() == (if gone.len() < n.gossip.max_want {
                            gone.len()
                        } else {
                            n.gossip.max_want
                        })
                        &&& reply.frames[0].1 == id_list(want)
                    }
            }
        }),
{
    law_inventory_round_trip(ids);
    law_what_is_missing_is_asked_for(n.gossip, ids);
    let gone = ids.filter(|id: [u8; 32]| !n.gossip.store.contains_key(id));
    let want = n.gossip.wanted(ids);
    assert(want.is_prefix_of(gone));
}

/// A request is answered with one payload frame for each stored message that it asks for; the
/// node stays as it was.
pub proof fn law_request_frames(n: NodeView, peer: Address, ids: Seq<[u8; 32]>)
    requires
        ids.len() <= u16::MAX,
    ensures
        ({
            let (after, reply) = n.framed(peer, 11, id_list(ids));
            let got = ids.filter(|id: [u8; 32]| n.gossip.store.contains_key(id));
            &&& after == n
            &&& reply.inventory is None
            &&& reply.frames.len() == got.len()
            &&& forall|i: int|
                0 <= i < got.len() ==> #[trigger] reply.frames[i] == (
                    12u8,
                    got[i]@ + sized(n.gossip.store[got[i]]),
                )
        }),
{
    law_inventory_round_trip(ids);
    law_request_is_answered(n.gossip, ids);
}

/// A message that arrives for the first time is delivered with the peer that sent it, stored,
/// and announced to every other session; a message that is known changes nothing and is not
/// passed on again.
pub proof fn law_new_message_is_passed_on(n: NodeView, peer: Address, t: TxView)
    requires
        crate::p2p::node::is_gossiped(t),
        n.gossip.sound(),
        n.sessions.finite(),
    ensures
        ({
            let body = mesh_bytes(t);
            let id = sha256_of(body);
            let (after, reply) = n.framed(peer, 12, id@ + sized(body));
            &&& n.gossip.store.contains_key(id) ==> after == n && reply.frames.len() == 0
                && reply.fanout.len() == 0 && reply.inventory is None
            &&& !n.gossip.store.contains_key(id) ==> {
                &&& after.delivered == n.delivered.push((peer, t))
                &&& after.gossip.store.contains_key(id)
                &&& after.gossip.store[id] == body
                &&& after.sessions == n.sessions
                &&& after.table == n.table
                &&& reply.frames.len() == 0
                &&& reply.inventory == Some(seq![id])
                &&& reply.fanout.no_duplicates()
                &&& forall|a: Address| #[trigger]
                    reply.fanout.contains(a) <==> n.sessions.contains(a) && a != peer
            }
        }),
{
    let body = mesh_bytes(t);
    let id = sha256_of(body);
    let p = PayloadView { id, body };
    crate::p2p::wire::law_mesh_round_trip(t);
    law_payload_round_trip(p);
    law_payload_is_taken_in(n.gossip, p);
    let rest = n.sessions.remove(peer);
    crate::table::lemma_ordered_set(rest);
    crate::table::lemma_ascending_distinct(crate::table::ordered(rest));
    let o = crate::table::ordered(rest);
    assert forall|a: Address| #[trigger] o.contains(a) <==> n.sessions.contains(a) && a != peer by {
        assert(o.to_set().contains(a) == rest.contains(a));
    }
}

/// A ping is answered with a pong and changes nothing.
pub proof fn law_ping_is_answered(n: NodeView, peer: Address, b: Seq<u8>)
    ensures
        n.framed(peer, 13, b).0 == n,
        n.framed(peer, 13, b).1.frames == seq![(14u8, Seq::<u8>::empty())],
{
}

/// A peer that passed the handshake gets a session, unless this node dialled it and the table
/// has no place for it.
pub proof fn law_peer_gets_a_session(n: NodeView, p: PeerView, now: u64, outbound: bool, a: Address)
    ensures
        ({
            let (after, ok) = n.joined(p, now, outbound);
            let taken = n.table.seen(p, now).1;
            &&& ok <==> !outbound || taken
            &&& after.sessions.contains(a) <==> n.sessions.contains(a) || (ok && a == p.id)
            &&& after.table == n.table.seen(p, now).0
            &&& after.gossip == n.gossip
            &&& after.delivered == n.delivered
        }),
{
}

/// A hub with a store writes every new transfer down: behind what it already owed comes the
/// transfer's log record, then, at every eighth confirmation, a snapshot, and at the end a
/// snapshot of the graph as it is now. Its index is that of the new graph. A transfer that is
/// known, or refused, adds no write.
pub proof fn law_hub_writes_new_transfers(h: HubView, t: TxView)
    requires
        h.stored,
        t.parent_1 != crate::dag::tx::NULL_PARENT || t.parent_2 != crate::dag::tx::NULL_PARENT,
    ensures
        ({
            let n = h.ingested(t);
            let (d, r) = h.dag.accepted(t);
            let k = h.writes.len() as int;
            &&& n.dag == d
            &&& r != Ok::<bool, DagError>(true) ==> n.writes == h.writes && n.index == h.index
            &&& r == Ok::<bool, DagError>(true) ==> {
                &&& h.writes.is_prefix_of(n.writes)
                &&& n.writes[k] == WriteView::Log(record_bytes(WAL_MAGIC@, t.canonical()))
                &&& n.writes.last() == snapshot_write(d)
                &&& n.writes.len() == k + (if d.ledger.count > 0 && d.ledger.count as int % 8 == 0 {
                    3int
                } else {
                    2int
                })
                &&& n.index == IndexView::of(d)
            }
        }),
{
    let n = h.ingested(t);
    assert(!t.is_genesis());
}

} // verus!
