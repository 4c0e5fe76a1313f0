//! Dual Kademlia table: core validators and edge miners.
//!
//! Eclipse defence: at most two contacts per IPv4 /24 in a bucket, and edge contacts
//! never push core contacts out.

use vstd::prelude::*;

use crate::anti_bot::reputation::subnet_of;
use crate::bytes::{be_value, less, lemma_array_view_eq, same};
use crate::p2p::error::NetworkError;
use crate::p2p::overlay::{overlay_of, NodeOverlayId};
use crate::p2p::peer::{ipv4_octets, slash24, ConnectionState, Peer, PeerAddr, PeerRole, PeerView};
use crate::types::Address;

verus! {

pub const BUCKETS: usize = 16;

/// Most contacts of a bucket.
pub const K: usize = 8;

/// Most contacts of one /24 in a bucket.
pub const MAX_PER_SLASH24: usize = 2;

/// Core contacts that an edge node wants before it trades edge contacts.
pub const MIN_CORE_ANCHORS: usize = 4;

pub struct RoutingTable {
    local_id: Address,
    local_overlay: NodeOverlayId,
    local_role: PeerRole,
    core: Vec<Vec<Peer>>,
    edge: Vec<Vec<Peer>>,
}

/// The table as mathematical data.
#[verifier::ext_equal]
pub struct TableView {
    pub local_id: Address,
    pub local_overlay: Seq<u8>,
    pub local_role: PeerRole,
    pub core: Seq<Seq<PeerView>>,
    pub edge: Seq<Seq<PeerView>>,
}

pub open spec fn peer_views(b: Seq<Peer>) -> Seq<PeerView> {
    b.map_values(|p: Peer| p@)
}

pub open spec fn bucket_views(t: Seq<Vec<Peer>>) -> Seq<Seq<PeerView>> {
    t.map_values(|b: Vec<Peer>| peer_views(b@))
}

impl View for RoutingTable {
    type V = TableView;

    closed spec fn view(&self) -> TableView {
        TableView {
            local_id: self.local_id,
            local_overlay: self.local_overlay@,
            local_role: self.local_role,
            core: bucket_views(self.core@),
            edge: bucket_views(self.edge@),
        }
    }
}

/// The first place from `i` on where `f` holds; the length where it holds nowhere.
pub open spec fn first_where(b: Seq<PeerView>, f: spec_fn(PeerView) -> bool, i: int) -> int
    decreases b.len() - i,
{
    if 0 <= i < b.len() && !f(b[i]) {
        first_where(b, f, i + 1)
    } else {
        i
    }
}

/// How many contacts satisfy `f`.
pub open spec fn count_where(b: Seq<PeerView>, f: spec_fn(PeerView) -> bool) -> nat
    decreases b.len(),
{
    if b.len() == 0 {
        0
    } else {
        count_where(b.drop_last(), f) + (if f(b.last()) {
            1nat
        } else {
            0nat
        })
    }
}

/// A contact with this id.
pub open spec fn with_id(id: Address) -> spec_fn(PeerView) -> bool {
    |p: PeerView| p.id == id
}

/// A contact with this overlay id.
pub open spec fn with_overlay(id: Seq<u8>) -> spec_fn(PeerView) -> bool {
    |p: PeerView| p.overlay_id == id
}

/// A contact that may go: dead or quarantined.
pub open spec fn is_stale() -> spec_fn(PeerView) -> bool {
    |p: PeerView| p.state == ConnectionState::Dead || p.state == ConnectionState::Quarantined
}

/// An edge contact.
pub open spec fn is_edge() -> spec_fn(PeerView) -> bool {
    |p: PeerView| p.role == PeerRole::EdgeMiner
}

/// A contact in this /24.
pub open spec fn in_subnet(net: u32) -> spec_fn(PeerView) -> bool {
    |p: PeerView|
        match p.addr.v4() {
            Some(ip) => subnet_of(ip) == net,
            None => false,
        }
}

/// A live contact.
pub open spec fn is_live() -> spec_fn(PeerView) -> bool {
    |p: PeerView| p.state == ConnectionState::Live
}

/// The contacts of all buckets.
pub open spec fn total(t: Seq<Seq<PeerView>>) -> nat
    decreases t.len(),
{
    if t.len() == 0 {
        0
    } else {
        total(t.drop_last()) + t.last().len()
    }
}

/// How many contacts of all buckets satisfy `f`.
pub open spec fn total_where(t: Seq<Seq<PeerView>>, f: spec_fn(PeerView) -> bool) -> nat
    decreases t.len(),
{
    if t.len() == 0 {
        0
    } else {
        total_where(t.drop_last(), f) + count_where(t.last(), f)
    }
}

/// The first place from `i` on where the two addresses differ.
pub open spec fn first_difference(a: Address, b: Address, i: int) -> int
    decreases 32 - i,
{
    if 0 <= i < 32 && a@[i] == b@[i] {
        first_difference(a, b, i + 1)
    } else {
        i
    }
}

/// The bucket of a contact: by the sixteen-bit group of the distance that is not zero
/// first.
pub open spec fn bucket_of(local: Address, remote: Address) -> int {
    let d = first_difference(local, remote, 0);
    if d >= 32 {
        0
    } else {
        (31 - d) / 2
    }
}

/// The first bucket from `i` on with a contact of this overlay id.
pub open spec fn overlay_bucket(t: Seq<Seq<PeerView>>, id: Seq<u8>, i: int) -> int
    decreases t.len() - i,
{
    if 0 <= i < t.len() && first_where(t[i], with_overlay(id), 0) >= t[i].len() {
        overlay_bucket(t, id, i + 1)
    } else {
        i
    }
}

/// The buckets without the first contact of this overlay id.
pub open spec fn dropped(t: Seq<Seq<PeerView>>, id: Seq<u8>) -> Seq<Seq<PeerView>> {
    let b = overlay_bucket(t, id, 0);
    if b < t.len() {
        t.update(b, t[b].remove(first_where(t[b], with_overlay(id), 0)))
    } else {
        t
    }
}

/// A full bucket that `p` would join: the bucket after it, or nothing where `p` is
/// refused.
pub open spec fn bucket_after(
    b: Seq<PeerView>,
    p: PeerView,
    local_role: PeerRole,
    core_count: nat,
) -> Option<Seq<PeerView>> {
    let known = first_where(b, with_id(p.id), 0);
    let stale = first_where(b, is_stale(), 0);
    let edge = first_where(b, is_edge(), 0);
    if known < b.len() {
        Some(b.remove(known).push(p))
    } else if p.addr.v4() is Some && count_where(b, in_subnet(subnet_of(p.addr.v4().unwrap())))
        >= MAX_PER_SLASH24 {
        None
    } else if b.len() < K {
        Some(b.push(p))
    } else if stale < b.len() {
        Some(b.remove(stale).push(p))
    } else if local_role == PeerRole::EdgeMiner && p.role == PeerRole::EdgeMiner && core_count
        < MIN_CORE_ANCHORS {
        None
    } else if p.role == PeerRole::CoreValidator && edge < b.len() {
        Some(b.remove(edge).push(p))
    } else {
        None
    }
}

/// The live contacts of a table, bucket by bucket.
pub open spec fn live_in(t: Seq<Seq<PeerView>>) -> Seq<PeerView>
    decreases t.len(),
{
    if t.len() == 0 {
        Seq::empty()
    } else {
        live_in(t.drop_last()) + t.last().filter(is_live())
    }
}

/// The Kademlia distance of two addresses.
pub open spec fn distance_of(a: Address, b: Address) -> nat {
    be_value(Seq::new(32, |i: int| a@[i] ^ b@[i]))
}

/// `p` at its place in a list ordered by distance; behind those at the same distance.
pub open spec fn slotted(q: Seq<PeerView>, p: PeerView, target: Address) -> Seq<PeerView>
    decreases q.len(),
{
    if q.len() == 0 || distance_of(q.last().id, target) <= distance_of(p.id, target) {
        q.push(p)
    } else {
        slotted(q.drop_last(), p, target).push(q.last())
    }
}

/// The contacts ordered by distance.
pub open spec fn by_distance(s: Seq<PeerView>, target: Address) -> Seq<PeerView>
    decreases s.len(),
{
    if s.len() == 0 {
        Seq::empty()
    } else {
        slotted(by_distance(s.drop_last(), target), s.last(), target)
    }
}

/// At most the first `n` contacts.
pub open spec fn at_most(s: Seq<PeerView>, n: int) -> Seq<PeerView> {
    if s.len() <= n {
        s
    } else {
        s.take(n)
    }
}

/// `list` with the contacts of `more` whose ids it does not have.
pub open spec fn with_new_ids(list: Seq<PeerView>, more: Seq<PeerView>) -> Seq<PeerView>
    decreases more.len(),
{
    if more.len() == 0 {
        list
    } else {
        let head = with_new_ids(list, more.drop_last());
        if first_where(head, with_id(more.last().id), 0) < head.len() {
            head
        } else {
            head.push(more.last())
        }
    }
}

impl TableView {
    pub open spec fn fresh(local_id: Address, local_role: PeerRole) -> TableView {
        TableView {
            local_id,
            local_overlay: overlay_of(local_id),
            local_role,
            core: Seq::new(BUCKETS as nat, |i: int| Seq::empty()),
            edge: Seq::new(BUCKETS as nat, |i: int| Seq::empty()),
        }
    }

    /// The table without the first contact of this overlay id, core contacts first.
    pub open spec fn without(self, id: Seq<u8>) -> TableView {
        if overlay_bucket(self.core, id, 0) < self.core.len() {
            TableView { core: dropped(self.core, id), ..self }
        } else {
            TableView { edge: dropped(self.edge, id), ..self }
        }
    }

    /// The buckets of a role.
    pub open spec fn buckets(self, role: PeerRole) -> Seq<Seq<PeerView>> {
        match role {
            PeerRole::CoreValidator => self.core,
            PeerRole::EdgeMiner => self.edge,
        }
    }

    pub open spec fn with_buckets(self, role: PeerRole, t: Seq<Seq<PeerView>>) -> TableView {
        match role {
            PeerRole::CoreValidator => TableView { core: t, ..self },
            PeerRole::EdgeMiner => TableView { edge: t, ..self },
        }
    }

    /// A contact seen at `now`: the table after it, and whether it was taken. The
    /// node itself is refused before anything else; every other contact first gives
    /// up the place it had.
    pub open spec fn seen(self, contact: PeerView, now: u64) -> (TableView, bool) {
        if contact.id == self.local_id || contact.overlay_id == self.local_overlay {
            (self, false)
        } else {
            let t = self.without(contact.overlay_id);
            let p = PeerView { last_seen: now, state: ConnectionState::Live, ..contact };
            let i = bucket_of(self.local_id, p.id);
            let b = t.buckets(p.role)[i];
            match bucket_after(b, p, self.local_role, total(t.core)) {
                Some(nb) => (t.with_buckets(p.role, t.buckets(p.role).update(i, nb)), true),
                None => (t, false),
            }
        }
    }

    pub open spec fn live(self) -> Seq<PeerView> {
        live_in(self.core) + live_in(self.edge)
    }

    /// The `k` closest live contacts. An edge node gets its closest core contacts
    /// first.
    pub open spec fn closest_to(self, target: Address, k: int) -> Seq<PeerView> {
        let all = by_distance(self.live(), target);
        if self.local_role == PeerRole::EdgeMiner {
            let anchors = at_most(by_distance(live_in(self.core), target), MIN_CORE_ANCHORS as int);
            at_most(with_new_ids(anchors, all), k)
        } else {
            at_most(all, k)
        }
    }

    /// Whom a role gossips with.
    pub open spec fn targets(self, role: PeerRole) -> Seq<PeerView> {
        match role {
            PeerRole::EdgeMiner => at_most(live_in(self.core), 3) + at_most(live_in(self.edge), 2),
            PeerRole::CoreValidator => at_most(self.live(), 8),
        }
    }

    /// How many contacts of the table have this overlay id.
    pub open spec fn holders(self, id: Seq<u8>) -> nat {
        total_where(self.core, with_overlay(id)) + total_where(self.edge, with_overlay(id))
    }

    /// A bucket within its limits.
    pub open spec fn bucket_ok(self, b: Seq<PeerView>, role: PeerRole) -> bool {
        &&& b.len() <= K
        &&& forall|i: int|
            #![trigger b[i]]
            0 <= i < b.len() ==> {
                &&& b[i].role == role
                &&& b[i].id != self.local_id
                &&& b[i].overlay_id == overlay_of(b[i].id)
            }
        &&& forall|net: u32| #[trigger] count_where(b, in_subnet(net)) <= MAX_PER_SLASH24
    }

    /// Every bucket is within its limits, and no overlay id is in the table twice.
    pub open spec fn guarded(self) -> bool {
        &&& self.shaped()
        &&& forall|id: Seq<u8>| #[trigger] self.holders(id) <= 1
        &&& forall|i: int|
            0 <= i < self.core.len() ==> self.bucket_ok(
                #[trigger] self.core[i],
                PeerRole::CoreValidator,
            )
        &&& forall|i: int|
            0 <= i < self.edge.len() ==> self.bucket_ok(
                #[trigger] self.edge[i],
                PeerRole::EdgeMiner,
            )
    }

    /// Sixteen buckets for each role, none above its size.
    pub open spec fn shaped(self) -> bool {
        &&& self.core.len() == BUCKETS
        &&& self.edge.len() == BUCKETS
        &&& forall|i: int| 0 <= i < BUCKETS ==> (#[trigger] self.core[i]).len() <= K
        &&& forall|i: int| 0 <= i < BUCKETS ==> (#[trigger] self.edge[i]).len() <= K
    }
}

fn xor_distance(a: &Address, b: &Address) -> (r: [u8; 32])
    ensures
        r@ == Seq::new(32, |i: int| a@[i] ^ b@[i]),
{
    let mut out = [0u8; 32];
    let mut i: usize = 0;
    while i < 32
        invariant
            i <= 32,
            forall|j: int| 0 <= j < i ==> out@[j] == a@[j] ^ b@[j],
        decreases 32 - i,
    {
        out[i] = a[i] ^ b[i];
        i += 1;
    }
    assert(out@ =~= Seq::new(32, |i: int| a@[i] ^ b@[i]));
    out
}

fn bucket_index(local: &Address, remote: &Address) -> (r: usize)
    ensures
        r == bucket_of(*local, *remote),
        r < BUCKETS,
{
    let mut i: usize = 0;
    while i < 32 && local[i] == remote[i]
        invariant
            i <= 32,
            first_difference(*local, *remote, 0) == first_difference(*local, *remote, i as int),
        decreases 32 - i,
    {
        i += 1;
    }
    if i >= 32 {
        return 0;
    }
    (31 - i) / 2
}

fn find_id(b: &Vec<Peer>, id: &Address) -> (r: usize)
    ensures
        r == first_where(peer_views(b@), with_id(*id), 0),
        r <= b@.len(),
{
    let ghost v = peer_views(b@);
    let mut i: usize = 0;
    while i < b.len() && !same(&b[i].id, id)
        invariant
            i <= b@.len(),
            v == peer_views(b@),
            first_where(v, with_id(*id), 0) == first_where(v, with_id(*id), i as int),
        decreases b@.len() - i,
    {
        assert(v[i as int] == b@[i as int]@);
        i += 1;
    }
    proof {
        if i < b@.len() {
            assert(v[i as int] == b@[i as int]@);
        }
    }
    i
}

fn find_overlay(b: &Vec<Peer>, id: &NodeOverlayId) -> (r: usize)
    ensures
        r == first_where(peer_views(b@), with_overlay(id@), 0),
        r <= b@.len(),
{
    let ghost v = peer_views(b@);
    let mut i: usize = 0;
    while i < b.len() && !same_overlay(&b[i].overlay_id, id)
        invariant
            i <= b@.len(),
            v == peer_views(b@),
            first_where(v, with_overlay(id@), 0) == first_where(v, with_overlay(id@), i as int),
        decreases b@.len() - i,
    {
        assert(v[i as int] == b@[i as int]@);
        i += 1;
    }
    proof {
        if i < b@.len() {
            assert(v[i as int] == b@[i as int]@);
        }
    }
    i
}

pub fn same_overlay(a: &NodeOverlayId, b: &NodeOverlayId) -> (r: bool)
    ensures
        r == (a@ == b@),
{
    let x = a.as_bytes();
    let y = b.as_bytes();
    proof {
        if x@ == y@ {
            lemma_array_view_eq(*x, *y);
        }
    }
    same(x, y)
}

fn stale(p: &Peer) -> (r: bool)
    ensures
        r == is_stale()(p@),
{
    match p.state {
        ConnectionState::Dead | ConnectionState::Quarantined => true,
        _ => false,
    }
}

fn find_stale(b: &Vec<Peer>) -> (r: usize)
    ensures
        r == first_where(peer_views(b@), is_stale(), 0),
        r <= b@.len(),
{
    let ghost v = peer_views(b@);
    let mut i: usize = 0;
    while i < b.len() && !stale(&b[i])
        invariant
            i <= b@.len(),
            v == peer_views(b@),
            first_where(v, is_stale(), 0) == first_where(v, is_stale(), i as int),
        decreases b@.len() - i,
    {
        assert(v[i as int] == b@[i as int]@);
        i += 1;
    }
    proof {
        if i < b@.len() {
            assert(v[i as int] == b@[i as int]@);
        }
    }
    i
}

fn find_edge(b: &Vec<Peer>) -> (r: usize)
    ensures
        r == first_where(peer_views(b@), is_edge(), 0),
        r <= b@.len(),
{
    let ghost v = peer_views(b@);
    let mut i: usize = 0;
    while i < b.len() && b[i].role != PeerRole::EdgeMiner
        invariant
            i <= b@.len(),
            v == peer_views(b@),
            first_where(v, is_edge(), 0) == first_where(v, is_edge(), i as int),
        decreases b@.len() - i,
    {
        assert(v[i as int] == b@[i as int]@);
        i += 1;
    }
    proof {
        if i < b@.len() {
            assert(v[i as int] == b@[i as int]@);
        }
    }
    i
}

fn shares_subnet(p: &Peer, net: u32) -> (r: bool)
    ensures
        r == in_subnet(net)(p@),
{
    match ipv4_octets(p.addr) {
        Some(ip) => slash24(ip) == net,
        None => false,
    }
}

fn count_subnet(b: &Vec<Peer>, net: u32) -> (r: usize)
    ensures
        r == count_where(peer_views(b@), in_subnet(net)),
{
    let ghost v = peer_views(b@);
    let mut n: usize = 0;
    let mut i: usize = 0;
    while i < b.len()
        invariant
            i <= b@.len(),
            v == peer_views(b@),
            n == count_where(v.take(i as int), in_subnet(net)),
            n <= i,
        decreases b@.len() - i,
    {
        proof {
            assert(v.take(i + 1).drop_last() =~= v.take(i as int));
            assert(v[i as int] == b@[i as int]@);
        }
        if shares_subnet(&b[i], net) {
            n += 1;
        }
        i += 1;
    }
    assert(v.take(i as int) =~= v);
    n
}

/// Takes `p` into a bucket, or refuses it.
fn join_bucket(b: &mut Vec<Peer>, p: Peer, local_role: PeerRole, few_cores: bool) -> (r: bool)
    ensures
        ({
            let old_b = peer_views(old(b)@);
            let cores: nat = if few_cores {
                0
            } else {
                MIN_CORE_ANCHORS as nat
            };
            match bucket_after(old_b, p@, local_role, cores) {
                Some(nb) => r && peer_views(final(b)@) == nb,
                None => !r && final(b)@ == old(b)@,
            }
        }),
{
    let ghost v = peer_views(b@);
    let known: usize = find_id(b, &p.id);
    if known < b.len() {
        replace(b, known, p);
        return true;
    }
    if let Some(ip) = ipv4_octets(p.addr) {
        if count_subnet(b, slash24(ip)) >= MAX_PER_SLASH24 {
            return false;
        }
    }
    if b.len() < K {
        b.push(p);
        assert(peer_views(b@) =~= v.push(p@));
        return true;
    }
    let gone: usize = find_stale(b);
    if gone < b.len() {
        replace(b, gone, p);
        return true;
    }
    if local_role == PeerRole::EdgeMiner && p.role == PeerRole::EdgeMiner && few_cores {
        return false;
    }
    if p.role == PeerRole::CoreValidator {
        let edge: usize = find_edge(b);
        if edge < b.len() {
            replace(b, edge, p);
            return true;
        }
    }
    false
}

fn replace(b: &mut Vec<Peer>, at: usize, p: Peer)
    requires
        at < old(b)@.len(),
    ensures
        peer_views(final(b)@) == peer_views(old(b)@).remove(at as int).push(p@),
{
    let ghost v = peer_views(b@);
    let _ = b.remove(at);
    b.push(p);
    assert(peer_views(b@) =~= v.remove(at as int).push(p@));
}

/// Drops the first contact of this overlay id; `false` where there is none.
fn drop_overlay(t: &mut Vec<Vec<Peer>>, id: &NodeOverlayId) -> (r: bool)
    ensures
        bucket_views(final(t)@) == dropped(bucket_views(old(t)@), id@),
        r == (overlay_bucket(bucket_views(old(t)@), id@, 0) < old(t)@.len()),
        !r ==> final(t)@ == old(t)@,
{
    let ghost v = bucket_views(t@);
    let mut i: usize = 0;
    while i < t.len()
        invariant
            i <= t@.len(),
            v == bucket_views(t@),
            t@ == old(t)@,
            overlay_bucket(v, id@, 0) == overlay_bucket(v, id@, i as int),
        decreases t@.len() - i,
    {
        assert(v[i as int] == peer_views(t@[i as int]@));
        let pos: usize = find_overlay(&t[i], id);
        if pos < t[i].len() {
            let ghost before = t@[i as int]@;
            let _ = t[i].remove(pos);
            proof {
                assert(peer_views(t@[i as int]@) =~= peer_views(before).remove(pos as int));
                assert(bucket_views(t@) =~= v.update(
                    i as int,
                    v[i as int].remove(pos as int),
                ));
            }
            return true;
        }
        i += 1;
    }
    false
}

fn count_all(t: &Vec<Vec<Peer>>) -> (r: usize)
    requires
        total(bucket_views(t@)) <= usize::MAX,
    ensures
        r == total(bucket_views(t@)),
{
    let ghost v = bucket_views(t@);
    let mut n: usize = 0;
    let mut i: usize = 0;
    while i < t.len()
        invariant
            i <= t@.len(),
            v == bucket_views(t@),
            total(v) <= usize::MAX,
            n == total(v.take(i as int)),
        decreases t@.len() - i,
    {
        proof {
            assert(v.take(i + 1).drop_last() =~= v.take(i as int));
            assert(v[i as int].len() == t@[i as int]@.len());
            lemma_total_monotone(v, i + 1);
        }
        n = n + t[i].len();
        i += 1;
    }
    assert(v.take(i as int) =~= v);
    n
}

proof fn lemma_total_monotone(v: Seq<Seq<PeerView>>, i: int)
    requires
        0 <= i <= v.len(),
    ensures
        total(v.take(i)) <= total(v),
    decreases v.len() - i,
{
    if i < v.len() {
        lemma_total_monotone(v, i + 1);
        assert(v.take(i + 1).drop_last() =~= v.take(i));
    } else {
        assert(v.take(i) =~= v);
    }
}

/// Whether the buckets hold fewer than `n` contacts.
fn fewer_than(t: &Vec<Vec<Peer>>, n: usize) -> (r: bool)
    ensures
        r == (total(bucket_views(t@)) < n),
{
    let ghost v = bucket_views(t@);
    let mut seen: usize = 0;
    let mut i: usize = 0;
    while i < t.len()
        invariant
            i <= t@.len(),
            v == bucket_views(t@),
            seen == total(v.take(i as int)),
            seen < n || i == 0,
        decreases t@.len() - i,
    {
        proof {
            assert(v.take(i + 1).drop_last() =~= v.take(i as int));
            assert(v[i as int].len() == t@[i as int]@.len());
            lemma_total_monotone(v, i + 1);
        }
        if seen >= n || t[i].len() >= n - seen {
            return false;
        }
        seen = seen + t[i].len();
        i += 1;
    }
    assert(v.take(i as int) =~= v);
    seen < n
}

/// The live contacts of a table.
fn live_of(t: &Vec<Vec<Peer>>) -> (r: Vec<Peer>)
    ensures
        peer_views(r@) == live_in(bucket_views(t@)),
{
    let ghost v = bucket_views(t@);
    let mut out: Vec<Peer> = Vec::new();
    let mut i: usize = 0;
    assert(peer_views(out@) =~= live_in(v.take(0)));
    while i < t.len()
        invariant
            i <= t@.len(),
            v == bucket_views(t@),
            peer_views(out@) == live_in(v.take(i as int)),
        decreases t@.len() - i,
    {
        proof {
            assert(v.take(i + 1).drop_last() =~= v.take(i as int));
            assert(v[i as int] == peer_views(t@[i as int]@));
        }
        push_live(&mut out, &t[i]);
        i += 1;
    }
    assert(v.take(i as int) =~= v);
    out
}

fn push_live(out: &mut Vec<Peer>, b: &Vec<Peer>)
    ensures
        peer_views(final(out)@) == peer_views(old(out)@) + peer_views(b@).filter(is_live()),
{
    let ghost start = peer_views(out@);
    let ghost v = peer_views(b@);
    let mut i: usize = 0;
    assert(v.take(0).filter(is_live()) =~= Seq::<PeerView>::empty()) by {
        assert(v.take(0) =~= Seq::<PeerView>::empty());
        reveal(Seq::filter);
    }
    assert(start + Seq::<PeerView>::empty() =~= start);
    while i < b.len()
        invariant
            i <= b@.len(),
            v == peer_views(b@),
            peer_views(out@) == start + v.take(i as int).filter(is_live()),
        decreases b@.len() - i,
    {
        let ghost before = out@;
        proof {
            assert(v.take(i + 1) =~= v.take(i as int).push(v[i as int]));
            v.take(i as int).lemma_filter_push(v[i as int], is_live());
            assert(v[i as int] == b@[i as int]@);
        }
        if b[i].state == ConnectionState::Live {
            let c = b[i].clone();
            out.push(c);
            assert(peer_views(out@) =~= peer_views(before).push(c@));
            assert(start + v.take(i as int).filter(is_live()).push(c@) =~= (start + v.take(
                i as int,
            ).filter(is_live())).push(c@));
        }
        i += 1;
    }
    assert(v.take(i as int) =~= v);
}

/// Orders contacts by distance; those at one distance keep their order.
fn sort_by_distance(list: Vec<Peer>, target: &Address) -> (r: Vec<Peer>)
    ensures
        peer_views(r@) == by_distance(peer_views(list@), *target),
{
    let ghost v = peer_views(list@);
    let mut out: Vec<Peer> = Vec::new();
    let mut i: usize = 0;
    assert(peer_views(out@) =~= by_distance(v.take(0), *target));
    while i < list.len()
        invariant
            i <= list@.len(),
            v == peer_views(list@),
            peer_views(out@) == by_distance(v.take(i as int), *target),
        decreases list@.len() - i,
    {
        proof {
            assert(v.take(i + 1).drop_last() =~= v.take(i as int));
            assert(v[i as int] == list@[i as int]@);
        }
        let p = list[i].clone();
        let d = xor_distance(&p.id, target);
        let ghost q = peer_views(out@);
        let ghost t = *target;
        let mut at: usize = out.len();
        assert(q.take(at as int) =~= q);
        assert(q.skip(at as int) =~= Seq::<PeerView>::empty());
        assert(slotted(q, p@, t) =~= slotted(q.take(at as int), p@, t) + q.skip(at as int));
        while at > 0 && less(&d, &xor_distance(&out[at - 1].id, target))
            invariant
                at <= out@.len(),
                q == peer_views(out@),
                t == *target,
                d@ == Seq::new(32, |i: int| p@.id@[i] ^ t@[i]),
                slotted(q, p@, t) == slotted(q.take(at as int), p@, t) + q.skip(at as int),
            decreases at,
        {
            proof {
                let h = q.take(at as int);
                assert(h.last() == q[at - 1]);
                assert(q[at - 1] == out@[at - 1]@);
                assert(h.drop_last() =~= q.take(at - 1));
                assert(slotted(h, p@, t) == slotted(q.take(at - 1), p@, t).push(q[at - 1]));
                assert(slotted(q.take(at - 1), p@, t).push(q[at - 1]) + q.skip(at as int)
                    =~= slotted(q.take(at - 1), p@, t) + q.skip(at - 1));
            }
            at -= 1;
        }
        proof {
            let h = q.take(at as int);
            if at > 0 {
                assert(h.last() == q[at - 1]);
                assert(q[at - 1] == out@[at - 1]@);
            }
            assert(slotted(h, p@, t) == h.push(p@));
            assert(h.push(p@) + q.skip(at as int) =~= q.insert(at as int, p@));
        }
        out.insert(at, p);
        assert(peer_views(out@) =~= q.insert(at as int, p@));
        i += 1;
    }
    assert(v.take(i as int) =~= v);
    out
}

fn keep_first(list: Vec<Peer>, n: usize) -> (r: Vec<Peer>)
    ensures
        peer_views(r@) == at_most(peer_views(list@), n as int),
{
    let mut out = list;
    if out.len() > n {
        out.truncate(n);
    }
    assert(peer_views(out@) =~= at_most(peer_views(list@), n as int));
    out
}

fn join_lists(a: Vec<Peer>, b: Vec<Peer>) -> (r: Vec<Peer>)
    ensures
        peer_views(r@) == peer_views(a@) + peer_views(b@),
{
    let mut out = a;
    let mut more = b;
    out.append(&mut more);
    assert(peer_views(out@) =~= peer_views(a@) + peer_views(b@));
    out
}

fn add_new_ids(list: Vec<Peer>, more: &Vec<Peer>) -> (r: Vec<Peer>)
    ensures
        peer_views(r@) == with_new_ids(peer_views(list@), peer_views(more@)),
{
    let ghost start = peer_views(list@);
    let ghost m = peer_views(more@);
    let mut out = list;
    let mut i: usize = 0;
    assert(m.take(0) =~= Seq::<PeerView>::empty());
    while i < more.len()
        invariant
            i <= more@.len(),
            m == peer_views(more@),
            peer_views(out@) == with_new_ids(start, m.take(i as int)),
        decreases more@.len() - i,
    {
        let ghost before = out@;
        proof {
            assert(m.take(i + 1).drop_last() =~= m.take(i as int));
            assert(m[i as int] == more@[i as int]@);
        }
        if find_id(&out, &more[i].id) >= out.len() {
            let c = more[i].clone();
            out.push(c);
            assert(peer_views(out@) =~= peer_views(before).push(c@));
        }
        i += 1;
    }
    assert(m.take(i as int) =~= m);
    out
}

fn empty_buckets() -> (r: Vec<Vec<Peer>>)
    ensures
        bucket_views(r@) == Seq::new(BUCKETS as nat, |i: int| Seq::<PeerView>::empty()),
{
    let mut out: Vec<Vec<Peer>> = Vec::new();
    let mut i: usize = 0;
    while i < BUCKETS
        invariant
            i <= BUCKETS,
            out@.len() == i,
            forall|j: int| 0 <= j < i ==> (#[trigger] out@[j])@.len() == 0,
        decreases BUCKETS - i,
    {
        out.push(Vec::new());
        i += 1;
    }
    assert(bucket_views(out@) =~= Seq::new(BUCKETS as nat, |i: int| Seq::<PeerView>::empty())) by {
        assert forall|j: int| 0 <= j < BUCKETS implies bucket_views(out@)[j] =~= Seq::<
            PeerView,
        >::empty() by {
            assert(out@[j]@.len() == 0);
        }
    }
    out
}

impl RoutingTable {
    pub closed spec fn wf(&self) -> bool {
        self@.shaped()
    }

    pub fn new(local_id: Address, local_role: PeerRole) -> (r: Self)
        ensures
            r.wf(),
            r@ == TableView::fresh(local_id, local_role),
    {
        let r = RoutingTable {
            local_id,
            local_overlay: NodeOverlayId::from_address(&local_id),
            local_role,
            core: empty_buckets(),
            edge: empty_buckets(),
        };
        proof {
            assert(r@ =~= TableView::fresh(local_id, local_role));
        }
        r
    }

    pub fn local_id(&self) -> (r: Address)
        ensures
            r == self@.local_id,
    {
        self.local_id
    }

    pub fn local_overlay(&self) -> (r: NodeOverlayId)
        ensures
            r@ == self@.local_overlay,
    {
        self.local_overlay
    }

    /// Takes a contact in, seen at `now`.
    pub fn insert(&mut self, peer: Peer, now: u64) -> (r: Result<(), NetworkError>)
        requires
            old(self).wf(),
        ensures
            final(self).wf(),
            final(self)@ == old(self)@.seen(peer@, now).0,
            r == (if old(self)@.seen(peer@, now).1 {
                Ok::<(), NetworkError>(())
            } else {
                Err::<(), NetworkError>(NetworkError::RoutingDenied)
            }),
    {
        if same(&peer.id, &self.local_id) || same_overlay(&peer.overlay_id, &self.local_overlay) {
            return Err(NetworkError::RoutingDenied);
        }
        let ghost start = self@;
        let ghost contact = peer@;
        let mut peer = peer;
        if !drop_overlay(&mut self.core, &peer.overlay_id) {
            let _ = drop_overlay(&mut self.edge, &peer.overlay_id);
        }
        let ghost t = self@;
        proof {
            assert(t =~= start.without(peer@.overlay_id));
            lemma_without_shaped(start, peer@.overlay_id);
        }
        peer.last_seen = now;
        peer.state = ConnectionState::Live;
        let ghost p = peer@;
        let idx: usize = bucket_index(&self.local_id, &peer.id);
        let few: bool = fewer_than(&self.core, MIN_CORE_ANCHORS);
        let taken = match peer.role {
            PeerRole::CoreValidator => {
                let ghost before = self.core@;
                assert(bucket_views(before)[idx as int] == peer_views(before[idx as int]@));
                let taken = join_bucket(&mut self.core[idx], peer, self.local_role, few);
                proof {
                    let nb = peer_views(self.core@[idx as int]@);
                    assert(bucket_views(self.core@) =~= t.core.update(idx as int, nb));
                    lemma_bucket_size(t.core[idx as int], p, t.local_role, total(t.core));
                    if !taken {
                        assert(bucket_views(self.core@) =~= t.core);
                    }
                }
                taken
            },
            PeerRole::EdgeMiner => {
                let ghost before = self.edge@;
                assert(bucket_views(before)[idx as int] == peer_views(before[idx as int]@));
                let taken = join_bucket(&mut self.edge[idx], peer, self.local_role, few);
                proof {
                    let nb = peer_views(self.edge@[idx as int]@);
                    assert(bucket_views(self.edge@) =~= t.edge.update(idx as int, nb));
                    lemma_bucket_size(t.edge[idx as int], p, t.local_role, total(t.core));
                    if !taken {
                        assert(bucket_views(self.edge@) =~= t.edge);
                    }
                }
                taken
            },
        };
        proof {
            assert(self@ =~= start.seen(contact, now).0);
        }
        if taken {
            Ok(())
        } else {
            Err(NetworkError::RoutingDenied)
        }
    }

    pub fn core_count(&self) -> (r: usize)
        requires
            self.wf(),
        ensures
            r == total(self@.core),
    {
        proof {
            lemma_total_bound(self@.core);
        }
        count_all(&self.core)
    }

    pub fn edge_count(&self) -> (r: usize)
        requires
            self.wf(),
        ensures
            r == total(self@.edge),
    {
        proof {
            lemma_total_bound(self@.edge);
        }
        count_all(&self.edge)
    }

    pub fn live_peers(&self) -> (r: Vec<Peer>)
        ensures
            peer_views(r@) == self@.live(),
    {
        join_lists(live_of(&self.core), live_of(&self.edge))
    }

    /// The `k` closest contacts. An edge node always gets core anchors first, so that
    /// it cannot be trapped among edge nodes.
    pub fn closest(&self, target: &Address, k: usize) -> (r: Vec<Peer>)
        ensures
            peer_views(r@) == self@.closest_to(*target, k as int),
    {
        let all = sort_by_distance(self.live_peers(), target);
        if self.local_role == PeerRole::EdgeMiner {
            let anchors = keep_first(
                sort_by_distance(live_of(&self.core), target),
                MIN_CORE_ANCHORS,
            );
            keep_first(add_new_ids(anchors, &all), k)
        } else {
            keep_first(all, k)
        }
    }

    /// Fan-out set for gossip: phones talk to a few cores and one or two edge
    /// neighbours.
    pub fn gossip_targets(&self, local_role: PeerRole) -> (r: Vec<Peer>)
        ensures
            peer_views(r@) == self@.targets(local_role),
    {
        match local_role {
            PeerRole::EdgeMiner => {
                let cores = keep_first(live_of(&self.core), 3);
                let edges = keep_first(live_of(&self.edge), 2);
                join_lists(cores, edges)
            },
            PeerRole::CoreValidator => keep_first(self.live_peers(), 8),
        }
    }

    pub fn contains(&self, id: &Address) -> (r: bool)
        ensures
            r == (first_where(self@.live(), with_id(*id), 0) < self@.live().len()),
    {
        let all = self.live_peers();
        find_id(&all, id) < all.len()
    }

    pub fn contains_overlay(&self, id: &NodeOverlayId) -> (r: bool)
        ensures
            r == (id@ == self@.local_overlay || first_where(self@.live(), with_overlay(id@), 0)
                < self@.live().len()),
    {
        if same_overlay(id, &self.local_overlay) {
            return true;
        }
        let all = self.live_peers();
        find_overlay(&all, id) < all.len()
    }

    pub fn lookup_addr(&self, id: &Address) -> (r: Option<PeerAddr>)
        ensures
            ({
                let i = first_where(self@.live(), with_id(*id), 0);
                r == (if i < self@.live().len() {
                    Some(self@.live()[i].addr)
                } else {
                    None
                })
            }),
    {
        let all = self.live_peers();
        let i: usize = find_id(&all, id);
        if i < all.len() {
            assert(peer_views(all@)[i as int] == all@[i as int]@);
            Some(all[i].addr)
        } else {
            None
        }
    }

    /// The socket is transport only; identity is the Mesh ID.
    pub fn lookup_overlay(&self, id: &NodeOverlayId) -> (r: Option<PeerAddr>)
        ensures
            ({
                let i = first_where(self@.live(), with_overlay(id@), 0);
                r == (if i < self@.live().len() {
                    Some(self@.live()[i].addr)
                } else {
                    None
                })
            }),
    {
        let all = self.live_peers();
        let i: usize = find_overlay(&all, id);
        if i < all.len() {
            assert(peer_views(all@)[i as int] == all@[i as int]@);
            Some(all[i].addr)
        } else {
            None
        }
    }
}

proof fn lemma_total_bound(t: Seq<Seq<PeerView>>)
    requires
        forall|i: int| 0 <= i < t.len() ==> (#[trigger] t[i]).len() <= K,
    ensures
        total(t) <= K * t.len(),
    decreases t.len(),
{
    if t.len() > 0 {
        lemma_total_bound(t.drop_last());
        assert(t.last() == t[t.len() - 1]);
    }
}

proof fn lemma_first_where(b: Seq<PeerView>, f: spec_fn(PeerView) -> bool, i: int)
    requires
        0 <= i <= b.len(),
    ensures
        i <= first_where(b, f, i) <= b.len(),
        first_where(b, f, i) < b.len() ==> f(b[first_where(b, f, i)]),
        forall|j: int| i <= j < first_where(b, f, i) ==> !f(#[trigger] b[j]),
    decreases b.len() - i,
{
    if i < b.len() && !f(b[i]) {
        lemma_first_where(b, f, i + 1);
    }
}

proof fn lemma_overlay_bucket(t: Seq<Seq<PeerView>>, id: Seq<u8>, i: int)
    requires
        0 <= i <= t.len(),
    ensures
        i <= overlay_bucket(t, id, i) <= t.len(),
        overlay_bucket(t, id, i) < t.len() ==> first_where(
            t[overlay_bucket(t, id, i)],
            with_overlay(id),
            0,
        ) < t[overlay_bucket(t, id, i)].len(),
        forall|j: int|
            i <= j < overlay_bucket(t, id, i) ==> first_where(
                #[trigger] t[j],
                with_overlay(id),
                0,
            ) >= t[j].len(),
    decreases t.len() - i,
{
    if i < t.len() && first_where(t[i], with_overlay(id), 0) >= t[i].len() {
        lemma_overlay_bucket(t, id, i + 1);
    }
}

proof fn lemma_without_shaped(t: TableView, id: Seq<u8>)
    requires
        t.shaped(),
    ensures
        t.without(id).shaped(),
{
    lemma_overlay_bucket(t.core, id, 0);
    lemma_overlay_bucket(t.edge, id, 0);
    let c = overlay_bucket(t.core, id, 0);
    let e = overlay_bucket(t.edge, id, 0);
    if c < t.core.len() {
        lemma_first_where(t.core[c], with_overlay(id), 0);
    } else if e < t.edge.len() {
        lemma_first_where(t.edge[e], with_overlay(id), 0);
    }
}

proof fn lemma_bucket_size(b: Seq<PeerView>, p: PeerView, local_role: PeerRole, cores: nat)
    requires
        b.len() <= K,
    ensures
        bucket_after(b, p, local_role, cores) matches Some(nb) ==> nb.len() <= K,
{
    lemma_first_where(b, with_id(p.id), 0);
    lemma_first_where(b, is_stale(), 0);
    lemma_first_where(b, is_edge(), 0);
}

proof fn lemma_count_push(b: Seq<PeerView>, p: PeerView, f: spec_fn(PeerView) -> bool)
    ensures
        count_where(b.push(p), f) == count_where(b, f) + (if f(p) {
            1nat
        } else {
            0nat
        }),
{
    assert(b.push(p).drop_last() =~= b);
}

proof fn lemma_count_remove(b: Seq<PeerView>, i: int, f: spec_fn(PeerView) -> bool)
    requires
        0 <= i < b.len(),
    ensures
        count_where(b.remove(i), f) + (if f(b[i]) {
            1nat
        } else {
            0nat
        }) == count_where(b, f),
    decreases b.len(),
{
    if i == b.len() - 1 {
        assert(b.remove(i) =~= b.drop_last());
    } else {
        lemma_count_remove(b.drop_last(), i, f);
        assert(b.remove(i).drop_last() =~= b.drop_last().remove(i));
        assert(b.remove(i).last() == b.last());
    }
}

proof fn lemma_total_update(
    t: Seq<Seq<PeerView>>,
    i: int,
    b: Seq<PeerView>,
    f: spec_fn(PeerView) -> bool,
)
    requires
        0 <= i < t.len(),
    ensures
        total_where(t.update(i, b), f) + count_where(t[i], f) == total_where(t, f) + count_where(
            b,
            f,
        ),
        count_where(t[i], f) <= total_where(t, f),
    decreases t.len(),
{
    let u = t.update(i, b);
    if i == t.len() - 1 {
        assert(u.drop_last() =~= t.drop_last());
    } else {
        lemma_total_update(t.drop_last(), i, b, f);
        assert(u.drop_last() =~= t.drop_last().update(i, b));
    }
}

/// Without the first contact of an overlay id, a table keeps its limits, and where no
/// id was in it twice nobody has that id any more.
#[verifier::spinoff_prover]
proof fn lemma_without_guarded(t: TableView, id: Seq<u8>)
    requires
        t.guarded(),
    ensures
        t.without(id).guarded(),
        t.without(id).holders(id) == 0,
{
    lemma_without_shaped(t, id);
    lemma_overlay_bucket(t.core, id, 0);
    lemma_overlay_bucket(t.edge, id, 0);
    let c = overlay_bucket(t.core, id, 0);
    let e = overlay_bucket(t.edge, id, 0);
    let w = t.without(id);
    assert(t.holders(id) <= 1);
    if c < t.core.len() {
        let at = first_where(t.core[c], with_overlay(id), 0);
        lemma_first_where(t.core[c], with_overlay(id), 0);
        let nb = t.core[c].remove(at);
        lemma_bucket_shrinks(t, t.core[c], PeerRole::CoreValidator, at);
        assert forall|o: Seq<u8>| #[trigger] w.holders(o) <= 1 && (o == id ==> w.holders(o) == 0) by {
            lemma_total_update(t.core, c, nb, with_overlay(o));
            lemma_count_remove(t.core[c], at, with_overlay(o));
            assert(t.holders(o) <= 1);
        }
        assert(w.holders(id) == 0);
        assert(w.bucket_ok(nb, PeerRole::CoreValidator));
        assert forall|i: int| 0 <= i < w.core.len() implies w.bucket_ok(
            #[trigger] w.core[i],
            PeerRole::CoreValidator,
        ) by {
            assert(t.bucket_ok(t.core[i], PeerRole::CoreValidator));
        }
        assert forall|i: int| 0 <= i < w.edge.len() implies w.bucket_ok(
            #[trigger] w.edge[i],
            PeerRole::EdgeMiner,
        ) by {
            assert(t.bucket_ok(t.edge[i], PeerRole::EdgeMiner));
        }
    } else {
        lemma_nobody(t.core, id);
        if e < t.edge.len() {
            let at = first_where(t.edge[e], with_overlay(id), 0);
            lemma_first_where(t.edge[e], with_overlay(id), 0);
            let nb = t.edge[e].remove(at);
            lemma_bucket_shrinks(t, t.edge[e], PeerRole::EdgeMiner, at);
            assert forall|o: Seq<u8>| #[trigger] w.holders(o) <= 1 && (o == id ==> w.holders(o)
                == 0) by {
                lemma_total_update(t.edge, e, nb, with_overlay(o));
                lemma_count_remove(t.edge[e], at, with_overlay(o));
                assert(t.holders(o) <= 1);
            }
            assert(w.holders(id) == 0);
            assert(w.bucket_ok(nb, PeerRole::EdgeMiner));
            assert forall|i: int| 0 <= i < w.core.len() implies w.bucket_ok(
                #[trigger] w.core[i],
                PeerRole::CoreValidator,
            ) by {
                assert(t.bucket_ok(t.core[i], PeerRole::CoreValidator));
            }
            assert forall|i: int| 0 <= i < w.edge.len() implies w.bucket_ok(
                #[trigger] w.edge[i],
                PeerRole::EdgeMiner,
            ) by {
                assert(t.bucket_ok(t.edge[i], PeerRole::EdgeMiner));
            }
        } else {
            lemma_nobody(t.edge, id);
            assert(w == t);
        }
    }
}

/// A table in whose buckets an overlay id is not found has nobody with it.
proof fn lemma_nobody(t: Seq<Seq<PeerView>>, id: Seq<u8>)
    requires
        overlay_bucket(t, id, 0) >= t.len(),
    ensures
        total_where(t, with_overlay(id)) == 0,
{
    lemma_overlay_bucket(t, id, 0);
    assert forall|i: int| 0 <= i < t.len() implies count_where(
        #[trigger] t[i],
        with_overlay(id),
    ) == 0 by {
        lemma_first_where(t[i], with_overlay(id), 0);
        lemma_count_none(t[i], with_overlay(id));
    }
    lemma_total_none(t, with_overlay(id));
}

proof fn lemma_count_none(b: Seq<PeerView>, f: spec_fn(PeerView) -> bool)
    requires
        forall|i: int| 0 <= i < b.len() ==> !f(#[trigger] b[i]),
    ensures
        count_where(b, f) == 0,
    decreases b.len(),
{
    if b.len() > 0 {
        assert(!f(b[b.len() - 1]));
        assert forall|i: int| 0 <= i < b.drop_last().len() implies !f(
            #[trigger] b.drop_last()[i],
        ) by {
            assert(b.drop_last()[i] == b[i]);
        }
        lemma_count_none(b.drop_last(), f);
    }
}

proof fn lemma_total_none(t: Seq<Seq<PeerView>>, f: spec_fn(PeerView) -> bool)
    requires
        forall|i: int| 0 <= i < t.len() ==> count_where(#[trigger] t[i], f) == 0,
    ensures
        total_where(t, f) == 0,
    decreases t.len(),
{
    if t.len() > 0 {
        assert(count_where(t[t.len() - 1], f) == 0);
        assert forall|i: int| 0 <= i < t.drop_last().len() implies count_where(
            #[trigger] t.drop_last()[i],
            f,
        ) == 0 by {
            assert(t.drop_last()[i] == t[i]);
        }
        lemma_total_none(t.drop_last(), f);
    }
}

proof fn lemma_count_some(b: Seq<PeerView>, i: int, f: spec_fn(PeerView) -> bool)
    requires
        0 <= i < b.len(),
        f(b[i]),
    ensures
        count_where(b, f) >= 1,
{
    lemma_count_remove(b, i, f);
}

proof fn lemma_bucket_shrinks(t: TableView, b: Seq<PeerView>, role: PeerRole, i: int)
    requires
        t.bucket_ok(b, role),
        0 <= i < b.len(),
    ensures
        t.bucket_ok(b.remove(i), role),
{
    let c = b.remove(i);
    assert forall|j: int|
        #![trigger c[j]]
        0 <= j < c.len() implies c[j].role == role && c[j].id != t.local_id && c[j].overlay_id
        == overlay_of(c[j].id) by {
        let k = if j < i {
            j
        } else {
            j + 1
        };
        assert(c[j] == b[k]);
    }
    assert forall|net: u32| #[trigger] count_where(c, in_subnet(net)) <= MAX_PER_SLASH24 by {
        lemma_count_remove(b, i, in_subnet(net));
        assert(count_where(b, in_subnet(net)) <= MAX_PER_SLASH24);
    }
}

proof fn lemma_bucket_grows(t: TableView, b: Seq<PeerView>, p: PeerView, role: PeerRole)
    requires
        t.bucket_ok(b, role),
        b.len() < K,
        p.role == role,
        p.id != t.local_id,
        p.overlay_id == overlay_of(p.id),
        p.addr.v4() is Some ==> count_where(b, in_subnet(subnet_of(p.addr.v4().unwrap())))
            < MAX_PER_SLASH24,
    ensures
        t.bucket_ok(b.push(p), role),
{
    let c = b.push(p);
    assert forall|j: int|
        #![trigger c[j]]
        0 <= j < c.len() implies c[j].role == role && c[j].id != t.local_id && c[j].overlay_id
        == overlay_of(c[j].id) by {
        if j < b.len() {
            assert(c[j] == b[j]);
        }
    }
    assert forall|net: u32| #[trigger] count_where(c, in_subnet(net)) <= MAX_PER_SLASH24 by {
        lemma_count_push(b, p, in_subnet(net));
        assert(count_where(b, in_subnet(net)) <= MAX_PER_SLASH24);
    }
}

proof fn lemma_first_difference(local: Address, remote: Address, i: int)
    requires
        0 <= i <= 32,
    ensures
        i <= first_difference(local, remote, i) <= 32,
    decreases 32 - i,
{
    if i < 32 && local@[i] == remote@[i] {
        lemma_first_difference(local, remote, i + 1);
    }
}

proof fn lemma_bucket_of(local: Address, remote: Address)
    ensures
        0 <= bucket_of(local, remote) < BUCKETS,
{
    lemma_first_difference(local, remote, 0);
}

/// What a bucket becomes when a contact that nobody in it has the id of joins it: some
/// contact may leave, and the newcomer is the last.
proof fn lemma_bucket_joined(t: TableView, b: Seq<PeerView>, p: PeerView, cores: nat)
    requires
        t.bucket_ok(b, p.role),
        p.id != t.local_id,
        p.overlay_id == overlay_of(p.id),
        count_where(b, with_overlay(p.overlay_id)) == 0,
    ensures
        bucket_after(b, p, t.local_role, cores) matches Some(nb) ==> {
            &&& t.bucket_ok(nb, p.role)
            &&& nb.len() > 0
            &&& nb.last() == p
            &&& forall|o: Seq<u8>|
                #[trigger] count_where(nb, with_overlay(o)) <= count_where(b, with_overlay(o)) + (
                if o == p.overlay_id {
                    1nat
                } else {
                    0nat
                })
        },
{
    lemma_first_where(b, with_id(p.id), 0);
    lemma_first_where(b, is_stale(), 0);
    lemma_first_where(b, is_edge(), 0);
    let known = first_where(b, with_id(p.id), 0);
    if known < b.len() {
        assert(b[known].id == p.id);
        assert(with_overlay(p.overlay_id)(b[known]));
        lemma_count_some(b, known, with_overlay(p.overlay_id));
    }
    if let Some(nb) = bucket_after(b, p, t.local_role, cores) {
        if b.len() < K {
            lemma_bucket_grows(t, b, p, p.role);
            assert forall|o: Seq<u8>|
                #[trigger] count_where(nb, with_overlay(o)) <= count_where(b, with_overlay(o)) + (
                if o == p.overlay_id {
                    1nat
                } else {
                    0nat
                }) by {
                lemma_count_push(b, p, with_overlay(o));
            }
        } else {
            let k = if first_where(b, is_stale(), 0) < b.len() {
                first_where(b, is_stale(), 0)
            } else {
                first_where(b, is_edge(), 0)
            };
            let rest = b.remove(k);
            lemma_bucket_shrinks(t, b, p.role, k);
            if p.addr.v4() is Some {
                lemma_count_remove(b, k, in_subnet(subnet_of(p.addr.v4().unwrap())));
            }
            lemma_bucket_grows(t, rest, p, p.role);
            assert forall|o: Seq<u8>|
                #[trigger] count_where(nb, with_overlay(o)) <= count_where(b, with_overlay(o)) + (
                if o == p.overlay_id {
                    1nat
                } else {
                    0nat
                }) by {
                lemma_count_push(rest, p, with_overlay(o));
                lemma_count_remove(b, k, with_overlay(o));
            }
        }
    }
}

/// Whatever contact with a derived overlay id is seen, the table keeps its limits: no
/// bucket holds more than its share, the node itself, a contact of the other role, or
/// more than two contacts of one /24, and no overlay id is in the table twice.
#[verifier::spinoff_prover]
#[verifier::rlimit(40)]
pub proof fn law_table_stays_guarded(t: TableView, p: PeerView, now: u64)
    requires
        t.guarded(),
        p.overlay_id == overlay_of(p.id),
    ensures
        t.seen(p, now).0.guarded(),
{
    let id = p.overlay_id;
    if !(p.id == t.local_id || id == t.local_overlay) {
        let w = t.without(id);
        lemma_without_guarded(t, id);
        let q = PeerView { last_seen: now, state: ConnectionState::Live, ..p };
        let i = bucket_of(t.local_id, q.id);
        lemma_bucket_of(t.local_id, q.id);
        let side = w.buckets(q.role);
        let b = side[i];
        assert(w.bucket_ok(b, q.role)) by {
            match q.role {
                PeerRole::CoreValidator => {
                    assert(w.bucket_ok(w.core[i], PeerRole::CoreValidator));
                },
                PeerRole::EdgeMiner => {
                    assert(w.bucket_ok(w.edge[i], PeerRole::EdgeMiner));
                },
            }
        }
        lemma_total_update(side, i, b, with_overlay(id));
        assert(w.holders(id) == 0);
        lemma_bucket_joined(w, b, q, total(w.core));
        if let Some(nb) = bucket_after(b, q, t.local_role, total(w.core)) {
            let r = t.seen(p, now).0;
            assert(r == w.with_buckets(q.role, side.update(i, nb)));
            assert forall|o: Seq<u8>| #[trigger] r.holders(o) <= 1 by {
                assert(w.holders(o) <= 1);
                lemma_total_update(side, i, nb, with_overlay(o));
                assert(count_where(nb, with_overlay(o)) <= count_where(b, with_overlay(o)) + (
                if o == id {
                    1nat
                } else {
                    0nat
                }));
            }
            assert(r.bucket_ok(nb, q.role));
            assert forall|j: int| 0 <= j < r.core.len() implies r.bucket_ok(
                #[trigger] r.core[j],
                PeerRole::CoreValidator,
            ) by {
                if !(q.role == PeerRole::CoreValidator && j == i) {
                    assert(r.core[j] == w.core[j]);
                    assert(w.bucket_ok(w.core[j], PeerRole::CoreValidator));
                }
            }
            assert forall|j: int| 0 <= j < r.edge.len() implies r.bucket_ok(
                #[trigger] r.edge[j],
                PeerRole::EdgeMiner,
            ) by {
                if !(q.role == PeerRole::EdgeMiner && j == i) {
                    assert(r.edge[j] == w.edge[j]);
                    assert(w.bucket_ok(w.edge[j], PeerRole::EdgeMiner));
                }
            }
        }
    }
}

/// A new table keeps the limits.
pub proof fn law_new_table_is_guarded(local_id: Address, local_role: PeerRole)
    ensures
        TableView::fresh(local_id, local_role).guarded(),
{
    let t = TableView::fresh(local_id, local_role);
    assert forall|id: Seq<u8>| #[trigger] t.holders(id) <= 1 by {
        lemma_total_none(t.core, with_overlay(id));
        lemma_total_none(t.edge, with_overlay(id));
    }
}

/// An edge contact leaves the core contacts alone, unless it was one of them.
pub proof fn law_edge_contacts_leave_core_alone(t: TableView, p: PeerView, now: u64)
    requires
        p.role == PeerRole::EdgeMiner,
        total_where(t.core, with_overlay(p.overlay_id)) == 0,
    ensures
        t.seen(p, now).0.core == t.core,
{
    lemma_overlay_bucket(t.core, p.overlay_id, 0);
    let c = overlay_bucket(t.core, p.overlay_id, 0);
    if c < t.core.len() {
        lemma_first_where(t.core[c], with_overlay(p.overlay_id), 0);
        lemma_count_some(
            t.core[c],
            first_where(t.core[c], with_overlay(p.overlay_id), 0),
            with_overlay(p.overlay_id),
        );
        lemma_total_update(t.core, c, t.core[c], with_overlay(p.overlay_id));
    }
}

proof fn lemma_by_distance(s: Seq<PeerView>, target: Address)
    ensures
        by_distance(s, target).len() == s.len(),
        forall|i: int| 0 <= i < s.len() ==> s.contains(#[trigger] by_distance(s, target)[i]),
    decreases s.len(),
{
    if s.len() > 0 {
        let h = s.drop_last();
        lemma_by_distance(h, target);
        lemma_slotted(by_distance(h, target), s.last(), target);
        let r = by_distance(s, target);
        assert forall|i: int| 0 <= i < s.len() implies s.contains(#[trigger] r[i]) by {
            if r[i] != s.last() {
                let k = choose|k: int| 0 <= k < h.len() && by_distance(h, target)[k] == r[i];
                assert(h.contains(by_distance(h, target)[k]));
                let m = choose|m: int| 0 <= m < h.len() && h[m] == r[i];
                assert(s[m] == r[i]);
            } else {
                assert(s[s.len() - 1] == r[i]);
            }
        }
    }
}

proof fn lemma_slotted(q: Seq<PeerView>, p: PeerView, target: Address)
    ensures
        slotted(q, p, target).len() == q.len() + 1,
        forall|i: int|
            0 <= i <= q.len() ==> (#[trigger] slotted(q, p, target)[i] == p || q.contains(
                slotted(q, p, target)[i],
            )),
    decreases q.len(),
{
    let r = slotted(q, p, target);
    if q.len() == 0 || distance_of(q.last().id, target) <= distance_of(p.id, target) {
        assert forall|i: int| 0 <= i <= q.len() implies (#[trigger] r[i] == p || q.contains(r[i])) by {
            if i < q.len() {
                assert(q[i] == r[i]);
            }
        }
    } else {
        let h = q.drop_last();
        lemma_slotted(h, p, target);
        assert forall|i: int| 0 <= i <= q.len() implies (#[trigger] r[i] == p || q.contains(r[i])) by {
            if i < q.len() {
                let x = slotted(h, p, target)[i];
                assert(r[i] == x);
                if x != p {
                    let k = choose|k: int| 0 <= k < h.len() && h[k] == x;
                    assert(q[k] == x);
                }
            } else {
                assert(q[q.len() - 1] == r[i]);
            }
        }
    }
}

proof fn lemma_with_new_ids(list: Seq<PeerView>, more: Seq<PeerView>)
    ensures
        with_new_ids(list, more).len() >= list.len(),
        forall|i: int| 0 <= i < list.len() ==> #[trigger] with_new_ids(list, more)[i] == list[i],
    decreases more.len(),
{
    if more.len() > 0 {
        lemma_with_new_ids(list, more.drop_last());
    }
}

/// An edge node that knows a live core contact gets one first, whatever it looks for:
/// edge contacts alone cannot answer it.
pub proof fn law_anchors_come_first(t: TableView, target: Address, k: int)
    requires
        t.local_role == PeerRole::EdgeMiner,
        live_in(t.core).len() > 0,
        k > 0,
    ensures
        0 < t.closest_to(target, k).len() <= k,
        live_in(t.core).contains(t.closest_to(target, k)[0]),
{
    let cores = live_in(t.core);
    let sorted = by_distance(cores, target);
    let anchors = at_most(sorted, MIN_CORE_ANCHORS as int);
    let all = by_distance(t.live(), target);
    lemma_by_distance(cores, target);
    lemma_with_new_ids(anchors, all);
    assert(anchors[0] == sorted[0]);
    assert(with_new_ids(anchors, all)[0] == anchors[0]);
}

proof fn lemma_live_counts(t: Seq<Seq<PeerView>>, f: spec_fn(PeerView) -> bool)
    ensures
        count_where(live_in(t), f) <= total_where(t, f),
    decreases t.len(),
{
    if t.len() > 0 {
        lemma_live_counts(t.drop_last(), f);
        lemma_filter_counts(t.last(), f);
        lemma_count_concat(live_in(t.drop_last()), t.last().filter(is_live()), f);
    }
}

proof fn lemma_filter_counts(b: Seq<PeerView>, f: spec_fn(PeerView) -> bool)
    ensures
        count_where(b.filter(is_live()), f) <= count_where(b, f),
    decreases b.len(),
{
    reveal(Seq::filter);
    if b.len() > 0 {
        lemma_filter_counts(b.drop_last(), f);
        if is_live()(b.last()) {
            lemma_count_push(b.drop_last().filter(is_live()), b.last(), f);
        }
    }
}

proof fn lemma_count_concat(a: Seq<PeerView>, b: Seq<PeerView>, f: spec_fn(PeerView) -> bool)
    ensures
        count_where(a + b, f) == count_where(a, f) + count_where(b, f),
    decreases b.len(),
{
    if b.len() == 0 {
        assert(a + b =~= a);
    } else {
        lemma_count_concat(a, b.drop_last(), f);
        assert((a + b).drop_last() =~= a + b.drop_last());
    }
}

proof fn lemma_live_contains(t: Seq<Seq<PeerView>>, i: int, p: PeerView)
    requires
        0 <= i < t.len(),
        t[i].contains(p),
        p.state == ConnectionState::Live,
    ensures
        live_in(t).contains(p),
    decreases t.len(),
{
    let head = live_in(t.drop_last());
    let tail = t.last().filter(is_live());
    if i == t.len() - 1 {
        let m = choose|m: int| 0 <= m < t.last().len() && t.last()[m] == p;
        t.last().lemma_filter_contains(is_live(), m);
        let k = choose|k: int| 0 <= k < tail.len() && tail[k] == p;
        assert(live_in(t)[head.len() + k] == p);
    } else {
        lemma_live_contains(t.drop_last(), i, p);
        let k = choose|k: int| 0 <= k < head.len() && head[k] == p;
        assert(live_in(t)[k] == p);
    }
}

/// A contact is found by its overlay id at the address it was last taken in with,
/// whatever address it had before.
#[verifier::spinoff_prover]
pub proof fn law_latest_address_is_found(t: TableView, p: PeerView, now: u64)
    requires
        t.guarded(),
        p.overlay_id == overlay_of(p.id),
        t.seen(p, now).1,
    ensures
        ({
            let live = t.seen(p, now).0.live();
            let i = first_where(live, with_overlay(p.overlay_id), 0);
            i < live.len() && live[i].addr == p.addr
        }),
{
    let id = p.overlay_id;
    let r = t.seen(p, now).0;
    let live = r.live();
    let f = with_overlay(id);
    let q = PeerView { last_seen: now, state: ConnectionState::Live, ..p };
    law_table_stays_guarded(t, p, now);
    let w = t.without(id);
    lemma_without_guarded(t, id);
    let i = bucket_of(t.local_id, q.id);
    lemma_bucket_of(t.local_id, q.id);
    let side = w.buckets(q.role);
    assert(w.bucket_ok(side[i], q.role)) by {
        match q.role {
            PeerRole::CoreValidator => {
                assert(w.bucket_ok(w.core[i], PeerRole::CoreValidator));
            },
            PeerRole::EdgeMiner => {
                assert(w.bucket_ok(w.edge[i], PeerRole::EdgeMiner));
            },
        }
    }
    lemma_total_update(side, i, side[i], f);
    assert(w.holders(id) == 0);
    lemma_bucket_joined(w, side[i], q, total(w.core));
    let nb = bucket_after(side[i], q, t.local_role, total(w.core)).unwrap();
    assert(nb[nb.len() - 1] == q);
    assert(r.buckets(q.role)[i] == nb);
    lemma_live_contains(r.buckets(q.role), i, q);
    let cl = live_in(r.core);
    let el = live_in(r.edge);
    assert(live.contains(q)) by {
        if q.role == PeerRole::CoreValidator {
            let k = choose|k: int| 0 <= k < cl.len() && cl[k] == q;
            assert(live[k] == q);
        } else {
            let k = choose|k: int| 0 <= k < el.len() && el[k] == q;
            assert(live[cl.len() + k] == q);
        }
    }
    lemma_live_counts(r.core, f);
    lemma_live_counts(r.edge, f);
    lemma_count_concat(cl, el, f);
    assert(r.holders(id) <= 1);
    let k = choose|k: int| 0 <= k < live.len() && live[k] == q;
    assert(f(live[k]));
    lemma_first_where(live, f, 0);
    let j = first_where(live, f, 0);
    assert(j <= k);
    if j < k {
        lemma_count_remove(live, j, f);
        assert(live.remove(j)[k - 1] == q);
        lemma_count_some(live.remove(j), k - 1, f);
    }
}

proof fn lemma_live_is_filtered(t: Seq<Seq<PeerView>>)
    ensures
        live_in(t) == t.flatten().filter(|p: PeerView| p.state == ConnectionState::Live),
    decreases t.len(),
{
    let live = |p: PeerView| p.state == ConnectionState::Live;
    assert(is_live() =~= live);
    reveal(Seq::filter);
    t.lemma_flatten_and_flatten_alt_are_equivalent();
    if t.len() > 0 {
        let head = t.drop_last();
        lemma_live_is_filtered(head);
        head.lemma_flatten_and_flatten_alt_are_equivalent();
        assert(t.flatten_alt() == head.flatten_alt() + t.last());
        Seq::filter_distributes_over_add(head.flatten(), t.last(), live);
    }
}

/// Whom a node announces to, counted on the contacts of its table. A phone picks three live
/// core contacts and two live edge contacts, or as many as there are; a core node picks eight
/// live contacts, or as many as there are. They are different places of the table, and as
/// soon as one live contact is known there is somebody to tell.
pub proof fn law_gossip_reaches_live_contacts(t: TableView)
    ensures
        ({
            let live = |p: PeerView| p.state == ConnectionState::Live;
            let cores = t.core.flatten().filter(live);
            let edges = t.edge.flatten().filter(live);
            let phone = t.targets(PeerRole::EdgeMiner);
            let node = t.targets(PeerRole::CoreValidator);
            let c = if cores.len() < 3 {
                cores.len() as int
            } else {
                3
            };
            let e = if edges.len() < 2 {
                edges.len() as int
            } else {
                2
            };
            let n = if cores.len() + edges.len() < 8 {
                cores.len() + edges.len() as int
            } else {
                8
            };
            &&& phone.len() == c + e
            &&& phone.take(c).is_prefix_of(cores)
            &&& phone.skip(c).is_prefix_of(edges)
            &&& node.len() == n
            &&& node.is_prefix_of(cores + edges)
            &&& cores.len() + edges.len() > 0 ==> phone.len() > 0 && node.len() > 0
        }),
{
    lemma_live_is_filtered(t.core);
    lemma_live_is_filtered(t.edge);
}

/// A node announces to live contacts of its table alone.
pub proof fn law_gossip_stays_in_the_table(t: TableView, role: PeerRole, i: int)
    requires
        0 <= i < t.targets(role).len(),
    ensures
        t.targets(role)[i].state == ConnectionState::Live,
        t.core.flatten().contains(t.targets(role)[i]) || t.edge.flatten().contains(
            t.targets(role)[i],
        ),
{
    let live = |p: PeerView| p.state == ConnectionState::Live;
    let cores = t.core.flatten().filter(live);
    let edges = t.edge.flatten().filter(live);
    lemma_live_is_filtered(t.core);
    lemma_live_is_filtered(t.edge);
    let p = t.targets(role)[i];
    assert(cores.contains(p) || edges.contains(p)) by {
        match role {
            PeerRole::EdgeMiner => {
                let c = at_most(cores, 3);
                if i < c.len() {
                    assert(cores[i] == p);
                } else {
                    assert(edges[i - c.len()] == p);
                }
            },
            PeerRole::CoreValidator => {
                assert((cores + edges)[i] == p);
                if i < cores.len() {
                    assert(cores[i] == p);
                } else {
                    assert(edges[i - cores.len()] == p);
                }
            },
        }
    }
    if cores.contains(p) {
        let k = choose|k: int| 0 <= k < cores.len() && cores[k] == p;
        t.core.flatten().lemma_filter_pred(live, k);
        t.core.flatten().lemma_filter_contains_rev(live, p);
    } else {
        let k = choose|k: int| 0 <= k < edges.len() && edges[k] == p;
        t.edge.flatten().lemma_filter_pred(live, k);
        t.edge.flatten().lemma_filter_contains_rev(live, p);
    }
}

/// A list in ascending order of distance.
spec fn nearest_first(s: Seq<PeerView>, target: Address) -> bool {
    forall|i: int, j: int|
        0 <= i <= j < s.len() ==> distance_of(#[trigger] s[i].id, target) <= distance_of(
            #[trigger] s[j].id,
            target,
        )
}

proof fn lemma_slotted_sorted(q: Seq<PeerView>, p: PeerView, target: Address)
    requires
        nearest_first(q, target),
    ensures
        nearest_first(slotted(q, p, target), target),
        slotted(q, p, target).contains(p),
        forall|x: PeerView| #[trigger] q.contains(x) ==> slotted(q, p, target).contains(x),
        q.len() > 0 ==> distance_of(slotted(q, p, target).last().id, target) == (if distance_of(
            q.last().id,
            target,
        ) <= distance_of(p.id, target) {
            distance_of(p.id, target)
        } else {
            distance_of(q.last().id, target)
        }),
    decreases q.len(),
{
    let r = slotted(q, p, target);
    lemma_slotted(q, p, target);
    if q.len() == 0 || distance_of(q.last().id, target) <= distance_of(p.id, target) {
        assert(r[q.len() as int] == p);
        assert forall|x: PeerView| #[trigger] q.contains(x) implies r.contains(x) by {
            let k = choose|k: int| 0 <= k < q.len() && q[k] == x;
            assert(r[k] == x);
        }
        assert forall|i: int, j: int| 0 <= i <= j < r.len() implies distance_of(
            #[trigger] r[i].id,
            target,
        ) <= distance_of(#[trigger] r[j].id, target) by {
            if j == q.len() && i < q.len() {
                assert(distance_of(q[i].id, target) <= distance_of(q[q.len() - 1].id, target));
            }
        }
    } else {
        let h = q.drop_last();
        assert(nearest_first(h, target)) by {
            assert forall|i: int, j: int| 0 <= i <= j < h.len() implies distance_of(
                #[trigger] h[i].id,
                target,
            ) <= distance_of(#[trigger] h[j].id, target) by {
                assert(distance_of(q[i].id, target) <= distance_of(q[j].id, target));
            }
        }
        lemma_slotted_sorted(h, p, target);
        lemma_slotted(h, p, target);
        let m = slotted(h, p, target);
        assert(r == m.push(q.last()));
        let k = choose|k: int| 0 <= k < m.len() && m[k] == p;
        assert(r[k] == p);
        assert forall|x: PeerView| #[trigger] q.contains(x) implies r.contains(x) by {
            let k = choose|k: int| 0 <= k < q.len() && q[k] == x;
            if k < h.len() {
                assert(h[k] == x);
                assert(h.contains(x));
                let e = choose|e: int| 0 <= e < m.len() && m[e] == x;
                assert(r[e] == x);
            } else {
                assert(r[m.len() as int] == x);
            }
        }
        assert forall|i: int, j: int| 0 <= i <= j < r.len() implies distance_of(
            #[trigger] r[i].id,
            target,
        ) <= distance_of(#[trigger] r[j].id, target) by {
            if j == m.len() && i < m.len() {
                assert(distance_of(m[i].id, target) <= distance_of(m[m.len() - 1].id, target));
                if h.len() > 0 {
                    assert(distance_of(q[h.len() - 1].id, target) <= distance_of(
                        q[q.len() - 1].id,
                        target,
                    ));
                } else {
                    assert(m =~= seq![p]);
                }
            } else if j < m.len() {
                assert(distance_of(m[i].id, target) <= distance_of(m[j].id, target));
            }
        }
    }
}

proof fn lemma_by_distance_sorted(s: Seq<PeerView>, target: Address)
    ensures
        nearest_first(by_distance(s, target), target),
        by_distance(s, target).len() == s.len(),
        forall|x: PeerView| #[trigger] by_distance(s, target).contains(x) <==> s.contains(x),
    decreases s.len(),
{
    if s.len() > 0 {
        let h = s.drop_last();
        let q = by_distance(h, target);
        lemma_by_distance_sorted(h, target);
        lemma_slotted_sorted(q, s.last(), target);
        lemma_slotted(q, s.last(), target);
        let r = by_distance(s, target);
        assert forall|x: PeerView| #[trigger] r.contains(x) <==> s.contains(x) by {
            if s.contains(x) {
                let k = choose|k: int| 0 <= k < s.len() && s[k] == x;
                if k < h.len() {
                    assert(h[k] == x);
                    assert(h.contains(x));
                    assert(q.contains(x));
                }
            }
            if r.contains(x) {
                let k = choose|k: int| 0 <= k < r.len() && r[k] == x;
                if r[k] != s.last() {
                    assert(q.contains(x));
                    assert(h.contains(x));
                    let m = choose|m: int| 0 <= m < h.len() && h[m] == x;
                    assert(s[m] == x);
                } else {
                    assert(s[s.len() - 1] == x);
                }
            }
        }
    }
}

/// The live contacts of the table.
proof fn lemma_live_members(t: TableView, p: PeerView)
    ensures
        t.live().contains(p) <==> p.state == ConnectionState::Live && (t.core.flatten().contains(p)
            || t.edge.flatten().contains(p)),
{
    let live = |p: PeerView| p.state == ConnectionState::Live;
    lemma_live_is_filtered(t.core);
    lemma_live_is_filtered(t.edge);
    let a = t.core.flatten();
    let b = t.edge.flatten();
    if t.live().contains(p) {
        let k = choose|k: int| 0 <= k < t.live().len() && t.live()[k] == p;
        if k < a.filter(live).len() {
            assert(a.filter(live)[k] == p);
            a.lemma_filter_pred(live, k);
            a.lemma_filter_contains_rev(live, p);
        } else {
            let m = k - a.filter(live).len();
            assert(b.filter(live)[m] == p);
            b.lemma_filter_pred(live, m);
            b.lemma_filter_contains_rev(live, p);
        }
    }
    if p.state == ConnectionState::Live && a.contains(p) {
        let k = choose|k: int| 0 <= k < a.len() && a[k] == p;
        a.lemma_filter_contains(live, k);
        let m = choose|m: int| 0 <= m < a.filter(live).len() && a.filter(live)[m] == p;
        assert(t.live()[m] == p);
    }
    if p.state == ConnectionState::Live && b.contains(p) {
        let k = choose|k: int| 0 <= k < b.len() && b[k] == p;
        b.lemma_filter_contains(live, k);
        let m = choose|m: int| 0 <= m < b.filter(live).len() && b.filter(live)[m] == p;
        assert(t.live()[a.filter(live).len() + m] == p);
    }
}

/// A core node finds the closest contacts: as many as it asks for or as there are, all of them
/// live and of the table, the nearer ones first, and no live contact that it leaves out is
/// nearer than one that it gives.
pub proof fn law_core_node_finds_the_closest(t: TableView, target: Address, k: int, p: PeerView)
    requires
        t.local_role == PeerRole::CoreValidator,
        k >= 0,
    ensures
        ({
            let r = t.closest_to(target, k);
            let n = t.live().len();
            &&& r.len() == (if n < k {
                n as int
            } else {
                k
            })
            &&& forall|i: int, j: int|
                0 <= i <= j < r.len() ==> distance_of(#[trigger] r[i].id, target) <= distance_of(
                    #[trigger] r[j].id,
                    target,
                )
            &&& r.contains(p) ==> p.state == ConnectionState::Live && (t.core.flatten().contains(p)
                || t.edge.flatten().contains(p))
            &&& p.state == ConnectionState::Live && (t.core.flatten().contains(p)
                || t.edge.flatten().contains(p)) && !r.contains(p) ==> forall|i: int|
                0 <= i < r.len() ==> distance_of(#[trigger] r[i].id, target) <= distance_of(
                    p.id,
                    target,
                )
        }),
{
    let all = by_distance(t.live(), target);
    let r = t.closest_to(target, k);
    lemma_by_distance_sorted(t.live(), target);
    lemma_live_members(t, p);
    assert forall|i: int, j: int| 0 <= i <= j < r.len() implies distance_of(
        #[trigger] r[i].id,
        target,
    ) <= distance_of(#[trigger] r[j].id, target) by {
        assert(distance_of(all[i].id, target) <= distance_of(all[j].id, target));
    }
    if r.contains(p) {
        let m = choose|m: int| 0 <= m < r.len() && r[m] == p;
        assert(all[m] == p);
        assert(all.contains(p));
    }
    if t.live().contains(p) && !r.contains(p) {
        assert(all.contains(p));
        let m = choose|m: int| 0 <= m < all.len() && all[m] == p;
        assert(m >= r.len()) by {
            if m < r.len() {
                assert(r[m] == p);
            }
        }
        assert forall|i: int| 0 <= i < r.len() implies distance_of(#[trigger] r[i].id, target)
            <= distance_of(p.id, target) by {
            assert(distance_of(all[i].id, target) <= distance_of(all[m].id, target));
        }
    }
}

proof fn lemma_new_ids_hold(list: Seq<PeerView>, more: Seq<PeerView>)
    ensures
        forall|x: PeerView| #[trigger] with_new_ids(list, more).contains(x) ==> list.contains(x)
            || more.contains(x),
        forall|x: PeerView| #[trigger]
            more.contains(x) ==> exists|i: int|
                0 <= i < with_new_ids(list, more).len() && (#[trigger] with_new_ids(
                    list,
                    more,
                )[i]).id == x.id,
    decreases more.len(),
{
    let r = with_new_ids(list, more);
    if more.len() > 0 {
        let m = more.drop_last();
        let head = with_new_ids(list, m);
        lemma_new_ids_hold(list, m);
        lemma_first_where(head, with_id(more.last().id), 0);
        assert forall|x: PeerView| #[trigger] r.contains(x) implies list.contains(x)
            || more.contains(x) by {
            let k = choose|k: int| 0 <= k < r.len() && r[k] == x;
            if k < head.len() {
                assert(head[k] == x);
                assert(head.contains(x));
                if m.contains(x) {
                    let e = choose|e: int| 0 <= e < m.len() && m[e] == x;
                    assert(more[e] == x);
                }
            } else {
                assert(more[more.len() - 1] == x);
            }
        }
        assert forall|x: PeerView| #[trigger] more.contains(x) implies exists|i: int|
            0 <= i < r.len() && (#[trigger] r[i]).id == x.id by {
            let k = choose|k: int| 0 <= k < more.len() && more[k] == x;
            if k < m.len() {
                assert(m[k] == x);
                assert(m.contains(x));
                let e = choose|e: int| 0 <= e < head.len() && (#[trigger] head[e]).id == x.id;
                assert(r[e].id == x.id);
            } else {
                let f = first_where(head, with_id(x.id), 0);
                if f < head.len() {
                    assert(r[f].id == x.id);
                } else {
                    assert(r[head.len() as int].id == x.id);
                }
            }
        }
    }
}

/// A phone finds its way through core contacts: the first four that it is given, or as many as
/// there are or as it asks for, are its closest live core contacts, the nearest first. All that
/// it is given are live contacts of the table, no more than it asks for, and where it is given
/// fewer, every live contact is among them by its id.
pub proof fn law_phone_finds_cores_first(t: TableView, target: Address, k: int, p: PeerView)
    requires
        t.local_role == PeerRole::EdgeMiner,
        k >= 0,
    ensures
        ({
            let r = t.closest_to(target, k);
            let cores = t.core.flatten().filter(|p: PeerView| p.state == ConnectionState::Live);
            let n = if cores.len() < 4 {
                cores.len() as int
            } else {
                4
            };
            let m = if n < k {
                n
            } else {
                k
            };
            &&& m <= r.len() <= k
            &&& forall|i: int|
                0 <= i < m ==> cores.contains(#[trigger] r[i]) && forall|c: PeerView|
                    #[trigger] cores.contains(c) && !r.take(m).contains(c) ==> distance_of(
                        r[i].id,
                        target,
                    ) <= distance_of(c.id, target)
            &&& r.contains(p) ==> p.state == ConnectionState::Live && (t.core.flatten().contains(p)
                || t.edge.flatten().contains(p))
            &&& r.len() < k && p.state == ConnectionState::Live && (t.core.flatten().contains(p)
                || t.edge.flatten().contains(p)) ==> exists|i: int|
                0 <= i < r.len() && (#[trigger] r[i]).id == p.id
        }),
{
    let r = t.closest_to(target, k);
    let cores = live_in(t.core);
    let sorted = by_distance(cores, target);
    let anchors = at_most(sorted, 4);
    let all = by_distance(t.live(), target);
    let joined = with_new_ids(anchors, all);
    assert(r == at_most(joined, k));
    lemma_by_distance_sorted(cores, target);
    lemma_by_distance_sorted(t.live(), target);
    lemma_with_new_ids(anchors, all);
    lemma_new_ids_hold(anchors, all);
    lemma_live_members(t, p);
    let n = anchors.len() as int;
    let m = if n < k {
        n
    } else {
        k
    };
    lemma_live_is_filtered(t.core);
    assert forall|i: int| 0 <= i < m implies cores.contains(#[trigger] r[i]) && forall|c: PeerView|
        #[trigger] cores.contains(c) && !r.take(m).contains(c) ==> distance_of(r[i].id, target)
            <= distance_of(c.id, target) by {
        assert(r[i] == joined[i]);
        assert(joined[i] == anchors[i]);
        assert(anchors[i] == sorted[i]);
        assert(sorted.contains(sorted[i]));
        assert forall|c: PeerView| #[trigger] cores.contains(c) && !r.take(m).contains(c) implies
            distance_of(r[i].id, target) <= distance_of(c.id, target) by {
            assert(sorted.contains(c));
            let e = choose|e: int| 0 <= e < sorted.len() && sorted[e] == c;
            if e < m {
                assert(joined[e] == anchors[e]);
                assert(r.take(m)[e] == c);
            }
            assert(distance_of(sorted[i].id, target) <= distance_of(sorted[e].id, target));
        }
    }
    if r.contains(p) {
        let e = choose|e: int| 0 <= e < r.len() && r[e] == p;
        assert(joined[e] == p);
        assert(joined.contains(p));
        if anchors.contains(p) {
            let f = choose|f: int| 0 <= f < anchors.len() && anchors[f] == p;
            assert(sorted[f] == p);
            assert(sorted.contains(p));
            assert(cores.contains(p));
            let g = choose|g: int| 0 <= g < cores.len() && cores[g] == p;
            assert(t.live()[g] == p);
            assert(t.live().contains(p));
        } else {
            assert(all.contains(p));
        }
    }
    if r.len() < k && t.live().contains(p) {
        assert(all.contains(p));
        assert(r == joined);
    }
}

/// A contact that is taken in is live in the table under the buckets of its role, with the time
/// it was seen; the node itself never is.
pub proof fn law_taken_contact_is_live(t: TableView, p: PeerView, now: u64)
    requires
        t.shaped(),
    ensures
        p.id == t.local_id || p.overlay_id == t.local_overlay ==> t.seen(p, now) == (t, false),
        t.seen(p, now).1 ==> {
            let q = PeerView { last_seen: now, state: ConnectionState::Live, ..p };
            let r = t.seen(p, now).0;
            &&& p.role == PeerRole::CoreValidator ==> exists|i: int|
                0 <= i < r.core.len() && (#[trigger] r.core[i]).contains(q)
            &&& p.role == PeerRole::EdgeMiner ==> exists|i: int|
                0 <= i < r.edge.len() && (#[trigger] r.edge[i]).contains(q)
        },
{
    if t.seen(p, now).1 {
        let q = PeerView { last_seen: now, state: ConnectionState::Live, ..p };
        let w = t.without(p.overlay_id);
        lemma_without_shaped(t, p.overlay_id);
        let i = bucket_of(t.local_id, q.id);
        lemma_bucket_of(t.local_id, q.id);
        let nb = bucket_after(w.buckets(q.role)[i], q, t.local_role, total(w.core)).unwrap();
        assert(nb[nb.len() - 1] == q);
        let r = t.seen(p, now).0;
        match p.role {
            PeerRole::CoreValidator => {
                assert(r.core[i] == nb);
                assert(r.core[i].contains(q));
            },
            PeerRole::EdgeMiner => {
                assert(r.edge[i] == nb);
                assert(r.edge[i].contains(q));
            },
        }
    }
}

/// A stranger is taken in where its bucket has room and its /24 has not its share yet: fewer
/// than eight contacts in the bucket, and fewer than two of them of its /24.
pub proof fn law_stranger_with_room_is_taken(t: TableView, p: PeerView, now: u64)
    requires
        t.shaped(),
        p.id != t.local_id,
        p.overlay_id != t.local_overlay,
        ({
            let b = t.without(p.overlay_id).buckets(p.role)[bucket_of(t.local_id, p.id)];
            &&& b.len() < 8
            &&& p.addr.v4() matches Some(ip) ==> b.filter(
                |x: PeerView| x.addr.v4() is Some && subnet_of(x.addr.v4().unwrap()) == subnet_of(ip),
            ).len() < 2
        }),
    ensures
        t.seen(p, now).1,
{
    let w = t.without(p.overlay_id);
    let q = PeerView { last_seen: now, state: ConnectionState::Live, ..p };
    let b = w.buckets(p.role)[bucket_of(t.local_id, p.id)];
    if let Some(ip) = p.addr.v4() {
        let f = |x: PeerView| x.addr.v4() is Some && subnet_of(x.addr.v4().unwrap()) == subnet_of(
            ip,
        );
        assert(in_subnet(subnet_of(ip)) =~= f);
        lemma_count_is_filter(b, f);
    }
}

proof fn lemma_count_is_filter(b: Seq<PeerView>, f: spec_fn(PeerView) -> bool)
    ensures
        count_where(b, f) == b.filter(f).len(),
    decreases b.len(),
{
    reveal(Seq::filter);
    if b.len() > 0 {
        lemma_count_is_filter(b.drop_last(), f);
    }
}

/// A live contact keeps its place whoever comes: in a table within its limits, a live contact
/// with another id and overlay id than the newcomer's is still there afterwards.
pub proof fn law_live_contact_stays(t: TableView, p: PeerView, now: u64, role: PeerRole, i: int, c:
    PeerView)
    requires
        t.guarded(),
        p.overlay_id == overlay_of(p.id),
        0 <= i < t.buckets(role).len(),
        t.buckets(role)[i].contains(c),
        c.state == ConnectionState::Live,
        c.id != p.id,
        c.overlay_id != p.overlay_id,
    ensures
        t.seen(p, now).0.buckets(role)[i].contains(c),
{
    if !(p.id == t.local_id || p.overlay_id == t.local_overlay) {
        let id = p.overlay_id;
        let w = t.without(id);
        lemma_without_guarded(t, id);
        lemma_overlay_bucket(t.core, id, 0);
        lemma_overlay_bucket(t.edge, id, 0);
        let side = t.buckets(role);
        let m = choose|m: int| 0 <= m < side[i].len() && side[i][m] == c;
        let ob = overlay_bucket(side, id, 0);
        assert(w.buckets(role)[i].contains(c)) by {
            if w.buckets(role) != side {
                lemma_overlay_bucket(side, id, 0);
                if i == ob {
                    let at = first_where(side[i], with_overlay(id), 0);
                    lemma_first_where(side[i], with_overlay(id), 0);
                    assert(m != at);
                    if m < at {
                        assert(w.buckets(role)[i][m] == c);
                    } else {
                        assert(w.buckets(role)[i][m - 1] == c);
                    }
                } else {
                    assert(w.buckets(role)[i] == side[i]);
                }
            }
        }
        let q = PeerView { last_seen: now, state: ConnectionState::Live, ..p };
        let at = bucket_of(t.local_id, q.id);
        lemma_bucket_of(t.local_id, q.id);
        let b = w.buckets(q.role)[at];
        assert(w.bucket_ok(b, q.role)) by {
            match q.role {
                PeerRole::CoreValidator => {
                    assert(w.bucket_ok(w.core[at], PeerRole::CoreValidator));
                },
                PeerRole::EdgeMiner => {
                    assert(w.bucket_ok(w.edge[at], PeerRole::EdgeMiner));
                },
            }
        }
        if role == q.role && i == at {
            lemma_live_survives(b, q, t.local_role, total(w.core), c);
        }
    }
}

/// Joining a bucket of one role drops no live contact with another id.
proof fn lemma_live_survives(b: Seq<PeerView>, q: PeerView, local: PeerRole, cores: nat, c: PeerView)
    requires
        b.contains(c),
        c.state == ConnectionState::Live,
        c.id != q.id,
        forall|i: int| #![trigger b[i]] 0 <= i < b.len() ==> b[i].role == q.role,
    ensures
        bucket_after(b, q, local, cores) matches Some(nb) ==> nb.contains(c),
{
    lemma_first_where(b, with_id(q.id), 0);
    lemma_first_where(b, is_stale(), 0);
    lemma_first_where(b, is_edge(), 0);
    let m = choose|m: int| 0 <= m < b.len() && b[m] == c;
    if let Some(nb) = bucket_after(b, q, local, cores) {
        if nb == b.push(q) {
            assert(nb[m] == c);
        } else {
            let known = first_where(b, with_id(q.id), 0);
            let stale = first_where(b, is_stale(), 0);
            let edge = first_where(b, is_edge(), 0);
            let at = if known < b.len() {
                known
            } else if stale < b.len() {
                stale
            } else {
                edge
            };
            assert(nb == b.remove(at).push(q));
            assert(at != m);
            if m < at {
                assert(nb[m] == c);
            } else {
                assert(nb[m - 1] == c);
            }
        }
    }
}

/// A full bucket of eight takes a stranger in the place of its first dead or quarantined contact,
/// within the share of the stranger's /24, and the stranger stands last.
pub proof fn law_full_bucket_drops_a_stale_contact(
    b: Seq<PeerView>,
    p: PeerView,
    local: PeerRole,
    cores: nat,
    i: int,
)
    requires
        b.len() >= 8,
        0 <= i < b.len(),
        b[i].state == ConnectionState::Dead || b[i].state == ConnectionState::Quarantined,
        forall|j: int|
            0 <= j < i ==> (#[trigger] b[j]).state != ConnectionState::Dead && b[j].state
                != ConnectionState::Quarantined,
        forall|j: int| 0 <= j < b.len() ==> (#[trigger] b[j]).id != p.id,
        p.addr.v4() matches Some(ip) ==> b.filter(
            |x: PeerView| x.addr.v4() is Some && subnet_of(x.addr.v4().unwrap()) == subnet_of(ip),
        ).len() < 2,
    ensures
        bucket_after(b, p, local, cores) == Some(b.remove(i).push(p)),
{
    lemma_first_where(b, with_id(p.id), 0);
    lemma_first_where(b, is_stale(), 0);
    let known = first_where(b, with_id(p.id), 0);
    let stale = first_where(b, is_stale(), 0);
    assert(known >= b.len()) by {
        if known < b.len() {
            assert(b[known].id == p.id);
        }
    }
    assert(stale == i) by {
        assert(is_stale()(b[i]));
        if stale < i {
            assert(is_stale()(b[stale]));
        }
    }
    if let Some(ip) = p.addr.v4() {
        let f = |x: PeerView| x.addr.v4() is Some && subnet_of(x.addr.v4().unwrap()) == subnet_of(
            ip,
        );
        assert(in_subnet(subnet_of(ip)) =~= f);
        lemma_count_is_filter(b, f);
    }
}

/// A contact that comes again stands last in its bucket, once.
pub proof fn law_known_contact_moves_to_the_end(
    b: Seq<PeerView>,
    p: PeerView,
    local: PeerRole,
    cores: nat,
    i: int,
)
    requires
        0 <= i < b.len(),
        b[i].id == p.id,
        forall|j: int| 0 <= j < i ==> (#[trigger] b[j]).id != p.id,
    ensures
        bucket_after(b, p, local, cores) == Some(b.remove(i).push(p)),
{
    lemma_first_where(b, with_id(p.id), 0);
    let known = first_where(b, with_id(p.id), 0);
    assert(known == i) by {
        assert(with_id(p.id)(b[i]));
        if known < i {
            assert(b[known].id == p.id);
        }
    }
}

} // verus!
