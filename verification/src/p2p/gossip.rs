//! Gossip about gossip (Have/Need). Edge devices flood 32-byte ids, not bodies.

use std::collections::VecDeque;
use vstd::prelude::*;

use crate::bytes::{append, array32, get_u16, le_bytes, le_value, lemma_le_bytes_len,
    lemma_le_value_of_bytes, lemma_pow256_values, put_le, same, to_vec};
use crate::crypto::hash::sha256_of;
use crate::dag::tx::{array_of, join_addresses, lemma_joined_address, lemma_array_of, TxView};
use crate::p2p::error::NetworkError;
use crate::p2p::frame::{lemma_sized_reads_back, put_bytes, sized, sized_at, take_bytes};
use crate::p2p::peer::PeerRole;
use crate::p2p::wire::{decode_mesh, encode_mesh, mesh_bytes, message_id_bytes, parsed_mesh,
    vertex_of};
use crate::table::Table;
use crate::types::message::MeshMessage;

verus! {

/// Compact inventory: message identifiers only.
#[derive(Debug)]
pub struct GossipInventory {
    pub ids: Vec<[u8; 32]>,
}

/// An id list on the wire: the count (modulo 2^16), then the ids.
pub open spec fn id_list(ids: Seq<[u8; 32]>) -> Seq<u8> {
    le_bytes(ids.len(), 2) + join_addresses(ids)
}

/// The id list that `b` spells.
pub open spec fn parsed_ids(b: Seq<u8>) -> Result<Seq<[u8; 32]>, NetworkError> {
    let n = le_value(b.take(2));
    if b.len() < 2 || b.len() != 2 + 32 * n {
        Err(NetworkError::BadFrame)
    } else {
        Ok(Seq::new(n, |i: int| array_of(b.subrange(2 + 32 * i, 2 + 32 * i + 32))))
    }
}

fn encode_ids(ids: &Vec<[u8; 32]>) -> (r: Vec<u8>)
    ensures
        r@ == id_list(ids@),
{
    let mut out: Vec<u8> = Vec::new();
    put_le(&mut out, ids.len() as u64, 2);
    let ghost head = out@;
    let mut i: usize = 0;
    assert(out@ =~= head + join_addresses(ids@.take(0)));
    while i < ids.len()
        invariant
            i <= ids@.len(),
            out@ == head + join_addresses(ids@.take(i as int)),
        decreases ids@.len() - i,
    {
        append(&mut out, ids[i].as_slice());
        proof {
            assert(ids@.take(i + 1).drop_last() =~= ids@.take(i as int));
            assert(out@ =~= head + join_addresses(ids@.take(i + 1)));
        }
        i += 1;
    }
    assert(ids@.take(i as int) =~= ids@);
    assert(out@ =~= id_list(ids@));
    out
}

fn decode_ids(bytes: &[u8]) -> (r: Result<Vec<[u8; 32]>, NetworkError>)
    ensures
        match r {
            Ok(v) => parsed_ids(bytes@) == Ok::<Seq<[u8; 32]>, NetworkError>(v@),
            Err(e) => parsed_ids(bytes@) == Err::<Seq<[u8; 32]>, NetworkError>(e),
        },
{
    if bytes.len() < 2 {
        return Err(NetworkError::BadFrame);
    }
    let n: usize = get_u16(bytes, 0) as usize;
    assert(bytes@.subrange(0, 2) =~= bytes@.take(2));
    if bytes.len() != 2 + n * 32 {
        return Err(NetworkError::BadFrame);
    }
    let mut ids: Vec<[u8; 32]> = Vec::new();
    let mut i: usize = 0;
    while i < n
        invariant
            i <= n,
            bytes.len() == 2 + n * 32,
            ids@.len() == i,
            forall|j: int|
                0 <= j < i ==> #[trigger] ids@[j] == array_of(
                    bytes@.subrange(2 + 32 * j, 2 + 32 * j + 32),
                ),
        decreases n - i,
    {
        let h = array32(bytes, 2 + 32 * i);
        proof {
            lemma_array_of(h);
        }
        ids.push(h);
        i += 1;
    }
    assert(ids@ =~= parsed_ids(bytes@)->Ok_0);
    Ok(ids)
}

impl GossipInventory {
    pub fn encode(&self) -> (r: Vec<u8>)
        ensures
            r@ == id_list(self.ids@),
    {
        encode_ids(&self.ids)
    }

    pub fn decode(bytes: &[u8]) -> (r: Result<Self, NetworkError>)
        ensures
            match r {
                Ok(v) => parsed_ids(bytes@) == Ok::<Seq<[u8; 32]>, NetworkError>(v.ids@),
                Err(e) => parsed_ids(bytes@) == Err::<Seq<[u8; 32]>, NetworkError>(e),
            },
    {
        match decode_ids(bytes) {
            Ok(ids) => Ok(GossipInventory { ids }),
            Err(e) => Err(e),
        }
    }

    /// Bytes on the wire.
    pub fn byte_len(&self) -> (r: usize)
        requires
            2 + 32 * self.ids@.len() <= usize::MAX,
        ensures
            r == id_list(self.ids@).len(),
    {
        proof {
            lemma_le_bytes_len(self.ids@.len(), 2);
            crate::dag::tx::lemma_joined_len(self.ids@);
        }
        2 + self.ids.len() * 32
    }
}

/// Ids that are asked for.
#[derive(Debug)]
pub struct GossipWant {
    pub ids: Vec<[u8; 32]>,
}

impl GossipWant {
    pub fn encode(&self) -> (r: Vec<u8>)
        ensures
            r@ == id_list(self.ids@),
    {
        encode_ids(&self.ids)
    }

    pub fn decode(bytes: &[u8]) -> (r: Result<Self, NetworkError>)
        ensures
            match r {
                Ok(v) => parsed_ids(bytes@) == Ok::<Seq<[u8; 32]>, NetworkError>(v.ids@),
                Err(e) => parsed_ids(bytes@) == Err::<Seq<[u8; 32]>, NetworkError>(e),
            },
    {
        match decode_ids(bytes) {
            Ok(ids) => Ok(GossipWant { ids }),
            Err(e) => Err(e),
        }
    }
}

/// A body with the id that it was asked for by.
#[derive(Debug)]
pub struct GossipPayload {
    pub id: [u8; 32],
    pub body: Vec<u8>,
}

/// A payload as mathematical data.
#[verifier::ext_equal]
pub struct PayloadView {
    pub id: [u8; 32],
    pub body: Seq<u8>,
}

impl View for GossipPayload {
    type V = PayloadView;

    open spec fn view(&self) -> PayloadView {
        PayloadView { id: self.id, body: self.body@ }
    }
}

/// The payload that `b` spells.
pub open spec fn parsed_payload(b: Seq<u8>) -> Result<PayloadView, NetworkError> {
    if b.len() < 32 {
        Err(NetworkError::BadFrame)
    } else {
        match sized_at(b, 32) {
            None => Err(NetworkError::BadFrame),
            Some((body, _)) => Ok(PayloadView { id: array_of(b.take(32)), body }),
        }
    }
}

impl GossipPayload {
    pub fn encode(&self) -> (r: Vec<u8>)
        ensures
            r@ == self@.id@ + sized(self@.body),
    {
        let mut out = to_vec(self.id.as_slice());
        put_bytes(&mut out, self.body.as_slice());
        out
    }

    pub fn decode(bytes: &[u8]) -> (r: Result<Self, NetworkError>)
        ensures
            match r {
                Ok(p) => parsed_payload(bytes@) == Ok::<PayloadView, NetworkError>(p@),
                Err(e) => parsed_payload(bytes@) == Err::<PayloadView, NetworkError>(e),
            },
    {
        if bytes.len() < 32 {
            return Err(NetworkError::BadFrame);
        }
        let id = array32(bytes, 0);
        proof {
            lemma_array_of(id);
            assert(bytes@.subrange(0, 32) =~= bytes@.take(32));
        }
        let mut off: usize = 32;
        match take_bytes(bytes, &mut off) {
            Ok(body) => Ok(GossipPayload { id, body }),
            Err(e) => Err(e),
        }
    }
}

/// In-memory Have/Need engine. Its store is tiny on phones.
pub struct GossipEngine {
    store: Table<32, Vec<u8>>,
    order: VecDeque<[u8; 32]>,
    max_store: usize,
    max_inv: usize,
    max_want: usize,
}

/// The engine as mathematical data.
#[verifier::ext_equal]
pub struct EngineView {
    pub store: Map<[u8; 32], Seq<u8>>,
    /// Oldest first.
    pub order: Seq<[u8; 32]>,
    pub max_store: nat,
    pub max_want: nat,
}

pub open spec fn body_views(m: Map<[u8; 32], Vec<u8>>) -> Map<[u8; 32], Seq<u8>> {
    m.map_values(|b: Vec<u8>| b@)
}

impl View for GossipEngine {
    type V = EngineView;

    closed spec fn view(&self) -> EngineView {
        EngineView {
            store: body_views(self.store@),
            order: self.order@,
            max_store: self.max_store as nat,
            max_want: self.max_want as nat,
        }
    }
}

impl EngineView {
    /// The store of a role.
    pub open spec fn fresh(role: PeerRole) -> EngineView {
        EngineView {
            store: Map::empty(),
            order: Seq::empty(),
            max_store: match role {
                PeerRole::EdgeMiner => 64,
                PeerRole::CoreValidator => 4096,
            },
            max_want: match role {
                PeerRole::EdgeMiner => 2,
                PeerRole::CoreValidator => 32,
            },
        }
    }

    /// The order lists what is stored, each once, and no more than the store holds.
    pub open spec fn sound(self) -> bool {
        &&& self.order.no_duplicates()
        &&& self.order.to_set() == self.store.dom()
        &&& self.order.len() <= self.max_store
        &&& self.max_store > 0
    }

    /// A body stored under an id. What is stored stays; a full store drops its
    /// oldest.
    pub open spec fn with(self, id: [u8; 32], body: Seq<u8>) -> EngineView {
        if self.store.contains_key(id) {
            self
        } else if self.order.len() >= self.max_store && self.order.len() > 0 {
            EngineView {
                store: self.store.remove(self.order[0]).insert(id, body),
                order: self.order.drop_first().push(id),
                ..self
            }
        } else {
            EngineView {
                store: self.store.insert(id, body),
                order: self.order.push(id),
                ..self
            }
        }
    }

    /// The ids of `ids` that are not stored.
    pub open spec fn missing(self, ids: Seq<[u8; 32]>) -> Seq<[u8; 32]> {
        ids.filter(|id: [u8; 32]| !self.store.contains_key(id))
    }

    /// What is asked for on an inventory: the first missing ids, as many as the role
    /// allows.
    pub open spec fn wanted(self, ids: Seq<[u8; 32]>) -> Seq<[u8; 32]> {
        let m = self.missing(ids);
        if m.len() <= self.max_want {
            m
        } else {
            m.take(self.max_want as int)
        }
    }

    /// The stored bodies of `ids`.
    pub open spec fn bodies(self, ids: Seq<[u8; 32]>) -> Seq<PayloadView>
        decreases ids.len(),
    {
        if ids.len() == 0 {
            Seq::empty()
        } else {
            let head = self.bodies(ids.drop_last());
            if self.store.contains_key(ids.last()) {
                head.push(PayloadView { id: ids.last(), body: self.store[ids.last()] })
            } else {
                head
            }
        }
    }

    /// A payload that came in: the engine after it, and what is made of it.
    pub open spec fn received(self, p: PayloadView) -> (
        EngineView,
        Result<Option<TxView>, NetworkError>,
    ) {
        if sha256_of(p.body) != p.id {
            (self, Err(NetworkError::HashMismatch))
        } else if self.store.contains_key(p.id) {
            (self, Ok(None))
        } else {
            match parsed_mesh(p.body) {
                Err(e) => (self, Err(e)),
                Ok(t) => (self.with(p.id, p.body), Ok(Some(t))),
            }
        }
    }
}

/// The views of a list of payloads.
pub open spec fn payload_views(v: Seq<GossipPayload>) -> Seq<PayloadView> {
    v.map_values(|p: GossipPayload| p@)
}

impl GossipEngine {
    pub closed spec fn wf(&self) -> bool {
        &&& self.store.wf()
        &&& self.max_inv > 0
        &&& self.max_want > 0
        &&& self@.sound()
    }

    pub fn for_role(role: PeerRole) -> (r: Self)
        ensures
            r.wf(),
            r@ == EngineView::fresh(role),
    {
        let r = match role {
            PeerRole::EdgeMiner => GossipEngine {
                store: Table::new(),
                order: VecDeque::new(),
                max_store: 64,
                max_inv: 8,
                max_want: 2,
            },
            PeerRole::CoreValidator => GossipEngine {
                store: Table::new(),
                order: VecDeque::new(),
                max_store: 4096,
                max_inv: 64,
                max_want: 32,
            },
        };
        assert(r@ =~= EngineView::fresh(role));
        assert(r@.order.to_set() =~= r@.store.dom());
        r
    }

    pub fn contains(&self, id: &[u8; 32]) -> (r: bool)
        requires
            self.wf(),
        ensures
            r == self@.store.contains_key(*id),
    {
        self.store.contains_key(id)
    }

    /// The stored message under an id.
    pub fn get(&self, id: &[u8; 32]) -> (r: Option<MeshMessage>)
        requires
            self.wf(),
        ensures
            match r {
                Some(m) => self@.store.contains_key(*id) && parsed_mesh(self@.store[*id]) == Ok::<
                    TxView,
                    NetworkError,
                >(vertex_of(m)),
                None => !self@.store.contains_key(*id) || parsed_mesh(self@.store[*id]) is Err,
            },
    {
        match self.store.get(id) {
            Some(body) => match decode_mesh(body.as_slice()) {
                Ok(m) => Some(m),
                Err(_) => None,
            },
            None => None,
        }
    }

    /// Stores a local message and returns the inventory to flood.
    pub fn announce(&mut self, msg: &MeshMessage) -> (r: GossipInventory)
        requires
            old(self).wf(),
        ensures
            final(self).wf(),
            ({
                let body = mesh_bytes(vertex_of(*msg));
                &&& final(self)@ == old(self)@.with(sha256_of(body), body)
                &&& r.ids@ == seq![sha256_of(body)]
            }),
    {
        let body = encode_mesh(msg);
        let id = message_id_bytes(body.as_slice());
        self.insert(id, body);
        let ids: Vec<[u8; 32]> = vec![id];
        assert(ids@ =~= seq![id]);
        GossipInventory { ids }
    }

    pub fn on_inventory(&self, inv: &GossipInventory) -> (r: GossipWant)
        requires
            self.wf(),
        ensures
            r.ids@ == self@.wanted(inv.ids@),
    {
        let mut ids: Vec<[u8; 32]> = Vec::new();
        let mut i: usize = 0;
        let ghost all = inv.ids@;
        assert(all.take(0).filter(|id: [u8; 32]| !self@.store.contains_key(id)) =~= Seq::empty())
            by {
            assert(all.take(0) =~= Seq::empty());
            reveal(Seq::filter);
        }
        while i < inv.ids.len() && ids.len() < self.max_want
            invariant
                self.wf(),
                all == inv.ids@,
                i <= all.len(),
                ids@.len() <= self.max_want,
                ids@ == self@.missing(all.take(i as int)),
            decreases all.len() - i,
        {
            let id = inv.ids[i];
            proof {
                assert(all.take(i + 1) =~= all.take(i as int).push(id));
                all.take(i as int).lemma_filter_push(
                    id,
                    |id: [u8; 32]| !self@.store.contains_key(id),
                );
            }
            if !self.store.contains_key(&id) {
                ids.push(id);
            }
            i += 1;
        }
        proof {
            lemma_missing_prefix(self@, all, i as int);
            if i < all.len() {
                assert(self@.missing(all).take(self@.max_want as int) =~= ids@);
                assert(self@.missing(all).len() >= self@.max_want);
                assert(self@.wanted(all) =~= ids@);
            } else {
                assert(all.take(i as int) =~= all);
            }
        }
        GossipWant { ids }
    }

    pub fn on_want(&self, want: &GossipWant) -> (r: Vec<GossipPayload>)
        requires
            self.wf(),
        ensures
            payload_views(r@) == self@.bodies(want.ids@),
    {
        let mut out: Vec<GossipPayload> = Vec::new();
        let mut i: usize = 0;
        assert(payload_views(out@) =~= self@.bodies(want.ids@.take(0)));
        while i < want.ids.len()
            invariant
                self.wf(),
                i <= want.ids@.len(),
                payload_views(out@) == self@.bodies(want.ids@.take(i as int)),
            decreases want.ids@.len() - i,
        {
            let id = want.ids[i];
            let ghost before = out@;
            proof {
                assert(want.ids@.take(i + 1).drop_last() =~= want.ids@.take(i as int));
            }
            if let Some(body) = self.store.get(&id) {
                let p = GossipPayload { id, body: to_vec(body.as_slice()) };
                out.push(p);
                assert(payload_views(out@) =~= payload_views(before).push(p@));
            }
            i += 1;
        }
        assert(want.ids@.take(i as int) =~= want.ids@);
        out
    }

    /// Takes a payload in. A body that does not hash to its id is refused.
    pub fn on_payload(&mut self, payload: GossipPayload) -> (r: Result<
        Option<MeshMessage>,
        NetworkError,
    >)
        requires
            old(self).wf(),
        ensures
            final(self).wf(),
            final(self)@ == old(self)@.received(payload@).0,
            match r {
                Ok(Some(m)) => old(self)@.received(payload@).1 == Ok::<
                    Option<TxView>,
                    NetworkError,
                >(Some(vertex_of(m))),
                Ok(None) => old(self)@.received(payload@).1 == Ok::<Option<TxView>, NetworkError>(
                    None,
                ),
                Err(e) => old(self)@.received(payload@).1 == Err::<Option<TxView>, NetworkError>(
                    e,
                ),
            },
    {
        let id = message_id_bytes(payload.body.as_slice());
        if !same(&id, &payload.id) {
            return Err(NetworkError::HashMismatch);
        }
        if self.store.contains_key(&payload.id) {
            return Ok(None);
        }
        match decode_mesh(payload.body.as_slice()) {
            Err(e) => Err(e),
            Ok(msg) => {
                self.insert(payload.id, payload.body);
                Ok(Some(msg))
            },
        }
    }

    fn insert(&mut self, id: [u8; 32], body: Vec<u8>)
        requires
            old(self).wf(),
        ensures
            final(self).wf(),
            final(self)@ == old(self)@.with(id, body@),
    {
        if self.store.contains_key(&id) {
            return;
        }
        let ghost before = self@;
        proof {
            law_store_keeps_sound(before, id, body@);
        }
        if self.order.len() >= self.max_store {
            if let Some(gone) = self.order.pop_front() {
                let _ = self.store.remove(&gone);
                assert(self.order@ =~= before.order.drop_first());
            }
        }
        self.order.push_back(id);
        self.store.insert(id, body);
        assert(self@ =~= before.with(id, body@));
    }
}

proof fn lemma_missing_prefix(e: EngineView, ids: Seq<[u8; 32]>, i: int)
    requires
        0 <= i <= ids.len(),
    ensures
        e.missing(ids.take(i)).len() <= e.missing(ids).len(),
        e.missing(ids).take(e.missing(ids.take(i)).len() as int) == e.missing(ids.take(i)),
    decreases ids.len() - i,
{
    let f = |id: [u8; 32]| !e.store.contains_key(id);
    if i < ids.len() {
        lemma_missing_prefix(e, ids, i + 1);
        assert(ids.take(i + 1) =~= ids.take(i).push(ids[i]));
        ids.take(i).lemma_filter_push(ids[i], f);
        let a = e.missing(ids.take(i));
        let b = e.missing(ids.take(i + 1));
        let c = e.missing(ids);
        assert(b.take(a.len() as int) =~= a);
        assert(c.take(a.len() as int) =~= c.take(b.len() as int).take(a.len() as int));
    } else {
        assert(ids.take(i) =~= ids);
        assert(e.missing(ids).take(e.missing(ids).len() as int) =~= e.missing(ids));
    }
}

/// UDP inventory is accepted only from a peer that completed the handshake.
pub fn accept_udp_inventory(known_peer: bool, datagram: &[u8]) -> (r: Result<
    GossipInventory,
    NetworkError,
>)
    ensures
        !known_peer ==> r == Err::<GossipInventory, NetworkError>(
            NetworkError::UnauthenticatedDatagram,
        ),
        known_peer ==> match r {
            Ok(v) => parsed_ids(datagram@) == Ok::<Seq<[u8; 32]>, NetworkError>(v.ids@),
            Err(e) => parsed_ids(datagram@) == Err::<Seq<[u8; 32]>, NetworkError>(e),
        },
{
    if !known_peer {
        return Err(NetworkError::UnauthenticatedDatagram);
    }
    GossipInventory::decode(datagram)
}

/// Storing keeps the store within its limit, and keeps the new body.
pub proof fn law_store_keeps_sound(e: EngineView, id: [u8; 32], body: Seq<u8>)
    requires
        e.sound(),
    ensures
        e.with(id, body).sound(),
        e.with(id, body).store.dom().len() <= e.max_store,
        e.with(id, body).store.contains_key(id),
{
    let w = e.with(id, body);
    e.order.unique_seq_to_set();
    if !e.store.contains_key(id) {
        assert(!e.order.contains(id)) by {
            if e.order.contains(id) {
                assert(e.order.to_set().contains(id));
            }
        }
        if e.order.len() >= e.max_store {
            let first = e.order[0];
            let rest = e.order.drop_first();
            assert forall|x: [u8; 32]| rest.contains(x) == (e.order.contains(x) && x != first) by {
                if rest.contains(x) {
                    let i = choose|i: int| 0 <= i < rest.len() && rest[i] == x;
                    assert(e.order[i + 1] == x);
                }
                if e.order.contains(x) && x != first {
                    let i = choose|i: int| 0 <= i < e.order.len() && e.order[i] == x;
                    assert(rest[i - 1] == x);
                }
            }
            rest.lemma_push_to_set_commute(id);
            assert(w.order.to_set() =~= w.store.dom()) by {
                assert forall|x: [u8; 32]| w.order.to_set().contains(x) == w.store.dom().contains(
                    x,
                ) by {
                    assert(rest.to_set().contains(x) == rest.contains(x));
                    assert(e.order.to_set().contains(x) == e.order.contains(x));
                    assert(e.order.to_set().contains(x) == e.store.dom().contains(x));
                }
            }
            assert(!rest.contains(id));
        } else {
            e.order.lemma_push_to_set_commute(id);
            assert(w.order.to_set() =~= w.store.dom());
        }
    }
    w.order.unique_seq_to_set();
}

/// Decoding an inventory gives back its ids.
pub proof fn law_inventory_round_trip(ids: Seq<[u8; 32]>)
    requires
        ids.len() <= u16::MAX,
    ensures
        parsed_ids(id_list(ids)) == Ok::<Seq<[u8; 32]>, NetworkError>(ids),
{
    let b = id_list(ids);
    lemma_pow256_values();
    lemma_le_bytes_len(ids.len(), 2);
    lemma_le_value_of_bytes(ids.len(), 2);
    crate::dag::tx::lemma_joined_len(ids);
    assert(b.take(2) =~= le_bytes(ids.len(), 2));
    assert forall|i: int| 0 <= i < ids.len() implies array_of(
        #[trigger] b.subrange(2 + 32 * i, 2 + 32 * i + 32),
    ) == ids[i] by {
        lemma_joined_address(ids, i);
        assert(b.subrange(2 + 32 * i, 2 + 32 * i + 32) =~= join_addresses(ids).subrange(
            32 * i,
            32 * i + 32,
        ));
        lemma_array_of(ids[i]);
    }
    assert(parsed_ids(b)->Ok_0 =~= ids);
}

/// Decoding a payload gives back its id and body.
pub proof fn law_payload_round_trip(p: PayloadView)
    requires
        p.body.len() <= u32::MAX,
    ensures
        parsed_payload(p.id@ + sized(p.body)) == Ok::<PayloadView, NetworkError>(p),
{
    let b = p.id@ + sized(p.body);
    lemma_sized_reads_back(p.id@, p.body, Seq::empty());
    assert(b =~= p.id@ + sized(p.body) + Seq::<u8>::empty());
    assert(b.take(32) =~= p.id@);
    lemma_array_of(p.id);
}

/// A body under a foreign id is never stored.
pub proof fn law_forged_payload_is_refused(e: EngineView, p: PayloadView)
    requires
        sha256_of(p.body) != p.id,
    ensures
        e.received(p) == (e, Err::<Option<TxView>, NetworkError>(NetworkError::HashMismatch)),
{
}

} // verus!
