//! Low-power mesh relay of the phone wallet.
//!
//! Each duty cycle polls inbound vertices, signs a carrier proof for each, keeps
//! them in a small pool, and hands the pool over when the global link is up.
//! Nothing here mines. Parking between cycles is the caller's part.

use std::collections::VecDeque;
use vstd::prelude::*;

use crate::crypto::lattice::{address_of, keys_match, secret_usable, signature_accepted, PK_LEN,
    SIG_LEN};
use crate::crypto::mobile_only::{enforce_real_mobile, HostObservation};
use crate::dag::engine::{list_views, signing_error};
use crate::dag::error::DagError;
use crate::dag::tx::{holds_address, is_full_proof, is_wire_ready, law_canonical_round_trip,
    parsed_tx, relay_message, relay_proof_message, DagTransaction, ProofView, RelayProof, TxHash,
    TxView};
use crate::kron::wallet::KronKeypair;
use crate::types::Address;

verus! {

/// Shortest background sleep, in seconds.
pub const RELAY_DUTY_SLEEP_SECS_MIN: u64 = 5;

/// Longest background sleep, in seconds.
pub const RELAY_DUTY_SLEEP_SECS_MAX: u64 = 15;

/// The sleep in use, mid-window.
pub const RELAY_DUTY_SLEEP_SECS_DEFAULT: u64 = 10;

/// Most vertices that the relay pool keeps.
pub const RELAY_MEMPOOL_CAP: usize = 32;

/// The newest `n` entries of `s`.
pub open spec fn newest<T>(s: Seq<T>, n: int) -> Seq<T> {
    if s.len() <= n {
        s
    } else {
        s.skip(s.len() - n)
    }
}

/// In-process short-range link of a wallet.
pub struct MeshInterface {
    inbound: VecDeque<DagTransaction>,
    global_link_up: bool,
    stop: bool,
    /// How long a duty cycle may park, in milliseconds. Zero does not park.
    pub park_timeout_ms: u64,
    /// Vertices to be merged since the link came up.
    pub flush_ready: Vec<DagTransaction>,
}

/// The link as mathematical data.
#[verifier::ext_equal]
pub struct LinkView {
    pub inbound: Seq<TxView>,
    pub global_link_up: bool,
    pub stop: bool,
    pub park_timeout_ms: u64,
    pub flush_ready: Seq<TxView>,
}

impl View for MeshInterface {
    type V = LinkView;

    closed spec fn view(&self) -> LinkView {
        LinkView {
            inbound: list_views(self.inbound@),
            global_link_up: self.global_link_up,
            stop: self.stop,
            park_timeout_ms: self.park_timeout_ms,
            flush_ready: list_views(self.flush_ready@),
        }
    }
}

impl LinkView {
    pub open spec fn fresh() -> LinkView {
        LinkView {
            inbound: Seq::empty(),
            global_link_up: false,
            stop: false,
            park_timeout_ms: (1_000 * RELAY_DUTY_SLEEP_SECS_DEFAULT) as u64,
            flush_ready: Seq::empty(),
        }
    }
}

impl Default for MeshInterface {
    fn default() -> (r: Self)
        ensures
            r@ == LinkView::fresh(),
    {
        Self::new()
    }
}

impl MeshInterface {
    pub fn new() -> (r: Self)
        ensures
            r@ == LinkView::fresh(),
    {
        let r = MeshInterface {
            inbound: VecDeque::new(),
            global_link_up: false,
            stop: false,
            park_timeout_ms: 1_000 * RELAY_DUTY_SLEEP_SECS_DEFAULT,
            flush_ready: Vec::new(),
        };
        assert(r@ =~= LinkView::fresh());
        r
    }

    /// A link that never parks.
    pub fn for_tests() -> (r: Self)
        ensures
            r@ == (LinkView { park_timeout_ms: 0, ..LinkView::fresh() }),
    {
        let mut m = Self::new();
        m.park_timeout_ms = 0;
        m
    }

    pub fn push_inbound(&mut self, tx: DagTransaction)
        ensures
            final(self)@ == (LinkView { inbound: old(self)@.inbound.push(tx@), ..old(self)@ }),
    {
        self.inbound.push_back(tx);
        assert(self@.inbound =~= old(self)@.inbound.push(tx@));
    }

    /// Takes the oldest inbound vertex.
    pub fn poll_inbound(&mut self) -> (r: Option<DagTransaction>)
        ensures
            match r {
                Some(tx) => {
                    &&& old(self)@.inbound.len() > 0
                    &&& tx@ == old(self)@.inbound[0]
                    &&& final(self)@ == (LinkView {
                        inbound: old(self)@.inbound.drop_first(),
                        ..old(self)@
                    })
                },
                None => old(self)@.inbound.len() == 0 && final(self)@ == old(self)@,
            },
    {
        let r = self.inbound.pop_front();
        proof {
            if r is Some {
                assert(self@.inbound =~= old(self)@.inbound.drop_first());
            } else {
                assert(self@.inbound =~= old(self)@.inbound);
            }
        }
        r
    }

    pub fn global_link_up(&self) -> (r: bool)
        ensures
            r == self@.global_link_up,
    {
        self.global_link_up
    }

    pub fn set_global_link_up(&mut self, up: bool)
        ensures
            final(self)@ == (LinkView { global_link_up: up, ..old(self)@ }),
    {
        self.global_link_up = up;
    }

    pub fn request_stop(&mut self)
        ensures
            final(self)@ == (LinkView { stop: true, ..old(self)@ }),
    {
        self.stop = true;
    }

    pub fn is_stopped(&self) -> (r: bool)
        ensures
            r == self@.stop,
    {
        self.stop
    }

    /// Takes what is ready to be merged.
    pub fn take_flush(&mut self) -> (r: Vec<DagTransaction>)
        ensures
            list_views(r@) == old(self)@.flush_ready,
            final(self)@ == (LinkView { flush_ready: Seq::empty(), ..old(self)@ }),
    {
        let mut out: Vec<DagTransaction> = Vec::new();
        out.append(&mut self.flush_ready);
        proof {
            assert(list_views(out@) =~= old(self)@.flush_ready);
            assert(self@.flush_ready =~= Seq::<TxView>::empty());
        }
        out
    }

    pub fn stage_for_global_dag(&mut self, txs: Vec<DagTransaction>)
        ensures
            final(self)@ == (LinkView {
                flush_ready: old(self)@.flush_ready + list_views(txs@),
                ..old(self)@
            }),
    {
        let mut more = txs;
        self.flush_ready.append(&mut more);
        assert(self@.flush_ready =~= old(self)@.flush_ready + list_views(txs@));
    }

    /// How long a duty cycle may park, in milliseconds; nothing where it does not
    /// park.
    pub fn park_duty_cycle(&self) -> (r: Option<u64>)
        ensures
            r == (if self@.park_timeout_ms == 0 {
                None
            } else {
                Some(self@.park_timeout_ms)
            }),
    {
        if self.park_timeout_ms == 0 {
            None
        } else {
            Some(self.park_timeout_ms)
        }
    }
}

/// Bounded first-in first-out pool of carried vertices.
#[derive(Debug)]
pub struct RelayMempool {
    txs: VecDeque<DagTransaction>,
}

impl View for RelayMempool {
    type V = Seq<TxView>;

    closed spec fn view(&self) -> Seq<TxView> {
        list_views(self.txs@)
    }
}

impl RelayMempool {
    /// No more than the cap is kept.
    pub open spec fn wf(&self) -> bool {
        self@.len() <= RELAY_MEMPOOL_CAP
    }

    pub fn new() -> (r: Self)
        ensures
            r.wf(),
            r@ == Seq::<TxView>::empty(),
    {
        let r = RelayMempool { txs: VecDeque::with_capacity(RELAY_MEMPOOL_CAP) };
        assert(r@ =~= Seq::<TxView>::empty());
        r
    }

    /// Adds a vertex; a full pool drops its oldest.
    pub fn push(&mut self, tx: DagTransaction)
        requires
            old(self).wf(),
        ensures
            final(self).wf(),
            final(self)@ == newest(old(self)@.push(tx@), RELAY_MEMPOOL_CAP as int),
    {
        if self.txs.len() >= RELAY_MEMPOOL_CAP {
            let _ = self.txs.pop_front();
        }
        self.txs.push_back(tx);
        assert(self@ =~= newest(old(self)@.push(tx@), RELAY_MEMPOOL_CAP as int));
    }

    pub fn len(&self) -> (r: usize)
        ensures
            r == self@.len(),
    {
        self.txs.len()
    }

    pub fn is_empty(&self) -> (r: bool)
        ensures
            r == (self@.len() == 0),
    {
        self.txs.len() == 0
    }

    /// The vertices, oldest first.
    pub fn iter(&self) -> (r: Vec<&DagTransaction>)
        ensures
            r@.len() == self@.len(),
            forall|i: int| 0 <= i < r@.len() ==> (#[trigger] r@[i])@ == self@[i],
    {
        let mut out: Vec<&DagTransaction> = Vec::new();
        let mut i: usize = 0;
        while i < self.txs.len()
            invariant
                i <= self.txs@.len(),
                out@.len() == i,
                forall|j: int| 0 <= j < i ==> (#[trigger] out@[j])@ == self.txs@[j]@,
            decreases self.txs@.len() - i,
        {
            out.push(&self.txs[i]);
            i += 1;
        }
        out
    }

    /// Takes everything, oldest first.
    pub fn drain(&mut self) -> (r: Vec<DagTransaction>)
        ensures
            list_views(r@) == old(self)@,
            final(self)@ == Seq::<TxView>::empty(),
    {
        let mut out: Vec<DagTransaction> = Vec::new();
        let ghost all = self.txs@;
        while self.txs.len() > 0
            invariant
                self.txs@.len() <= all.len(),
                out@ + self.txs@ == all,
            decreases self.txs@.len(),
        {
            if let Some(tx) = self.txs.pop_front() {
                out.push(tx);
                assert(out@ + self.txs@ =~= all);
            }
        }
        proof {
            assert(out@ =~= all);
            assert(self@ =~= Seq::<TxView>::empty());
        }
        out
    }
}

/// Outcome of [`start_wallet_relay_mode`].
#[derive(Debug)]
pub struct WalletRelaySession {
    pub mempool: RelayMempool,
    /// Always false: the relay never mines.
    pub mining_ran: bool,
}

/// `before` with a carrier proof added. The signed body and the sender's signature
/// are the same.
pub open spec fn carried_form(before: TxView, pk: Seq<u8>, sig: Seq<u8>) -> TxView {
    let node = address_of(pk);
    TxView {
        relay_nodes: if before.relay_nodes.contains(node) {
            before.relay_nodes
        } else {
            before.relay_nodes.push(node)
        },
        relay_proofs: before.relay_proofs.push(ProofView { node, public_key: pk, sig }),
        ..before
    }
}

/// Whether `sig` is a signature that the carrier's keys can give.
pub open spec fn carrier_signature(id: TxHash, pk: Seq<u8>, sk: Seq<u8>, sig: Seq<u8>) -> bool {
    &&& sig.len() == SIG_LEN
    &&& keys_match(pk, sk) ==> signature_accepted(pk, relay_message(id, pk)@, sig)
}

/// `after` is `before` carried by the wallet with the given keys.
pub open spec fn is_carried(before: TxView, after: TxView, pk: Seq<u8>, sk: Seq<u8>) -> bool {
    exists|sig: Seq<u8>| #[trigger]
        carrier_signature(before.id, pk, sk, sig) && after == carried_form(before, pk, sig)
}

/// Lists this wallet as a carrier and signs a carrier proof. The sender's
/// signature is kept. With a usable key only the random source can fail.
pub fn relay_intercept_and_sign(tx: DagTransaction, relay_keys: &KronKeypair) -> (r: Result<
    DagTransaction,
    DagError,
>)
    ensures
        match r {
            Ok(t) => secret_usable(relay_keys.secret_bytes()) && is_carried(
                tx@,
                t@,
                relay_keys.public_bytes(),
                relay_keys.secret_bytes(),
            ),
            Err(e) => e == signing_error(relay_keys.secret_bytes()),
        },
{
    let mut tx = tx;
    let ghost before = tx@;
    let node = relay_keys.public_key().address();
    let msg = relay_proof_message(&tx.id, relay_keys.public_key());
    let sig = match relay_keys.lattice().sign(msg.as_slice()) {
        Ok(s) => s,
        Err(e) => {
            return Err(DagError::Sign(e));
        },
    };
    if !holds_address(&tx.relay_nodes, &node) {
        tx.relay_nodes.push(node);
    }
    let ghost old_proofs = tx.relay_proofs@;
    let proof_of_carriage = RelayProof {
        node,
        public_key: relay_keys.public_key().clone(),
        sig,
    };
    tx.relay_proofs.push(proof_of_carriage);
    proof {
        let pk = relay_keys.public_bytes();
        let sk = relay_keys.secret_bytes();
        assert(tx@.relay_proofs =~= before.relay_proofs.push(
            ProofView { node, public_key: pk, sig: sig@ },
        ));
        assert(carrier_signature(before.id, pk, sk, sig@));
        assert(tx@ =~= carried_form(before, pk, sig@));
    }
    Ok(tx)
}

/// Each of `after` is the carried form of the entry of `before` at its place.
pub open spec fn all_carried(before: Seq<TxView>, after: Seq<TxView>, pk: Seq<u8>, sk: Seq<u8>) -> bool {
    &&& before.len() == after.len()
    &&& forall|i: int|
        #![trigger after[i]]
        0 <= i < after.len() ==> is_carried(before[i], after[i], pk, sk)
}

/// What a duty cycle over the carried vertices `signed` leaves.
pub open spec fn cycle_result(
    link: LinkView,
    pool: Seq<TxView>,
    signed: Seq<TxView>,
    link_after: LinkView,
    pool_after: Seq<TxView>,
) -> bool {
    let full = newest(pool + signed, RELAY_MEMPOOL_CAP as int);
    if link.global_link_up {
        &&& pool_after == Seq::<TxView>::empty()
        &&& link_after == (LinkView {
            inbound: Seq::empty(),
            flush_ready: link.flush_ready + full,
            ..link
        })
    } else {
        &&& pool_after == full
        &&& link_after == (LinkView { inbound: Seq::empty(), ..link })
    }
}

/// A duty cycle that a failed signature has ended behind the carried vertices `signed`:
/// they are pooled, the vertex that could not be signed is gone, and what follows it is
/// still in the queue. Nothing was handed over.
pub open spec fn cycle_ended_early(
    link: LinkView,
    pool: Seq<TxView>,
    signed: Seq<TxView>,
    link_after: LinkView,
    pool_after: Seq<TxView>,
) -> bool {
    &&& signed.len() < link.inbound.len()
    &&& pool_after == newest(pool + signed, RELAY_MEMPOOL_CAP as int)
    &&& link_after == (LinkView { inbound: link.inbound.skip(signed.len() as int + 1), ..link })
}

/// What a failed duty cycle leaves: some of the queue from its front on was carried.
pub open spec fn cycle_failed(
    link: LinkView,
    pool: Seq<TxView>,
    pk: Seq<u8>,
    sk: Seq<u8>,
    link_after: LinkView,
    pool_after: Seq<TxView>,
) -> bool {
    exists|signed: Seq<TxView>|
        all_carried(
            link.inbound.take(signed.len() as int),
            signed,
            pk,
            sk,
        ) && #[trigger] cycle_ended_early(link, pool, signed, link_after, pool_after)
}

/// One duty cycle: every inbound vertex is signed and pooled, and the pool is
/// handed over where the link is up. A failed signature ends the cycle.
pub fn wallet_relay_step(
    wallet_keys: &KronKeypair,
    mesh_interface: &mut MeshInterface,
    session: &mut WalletRelaySession,
) -> (r: Result<(), DagError>)
    requires
        old(session).mempool.wf(),
    ensures
        final(session).mempool.wf(),
        !final(session).mining_ran,
        match r {
            Ok(()) => exists|signed: Seq<TxView>|
                all_carried(
                    old(mesh_interface)@.inbound,
                    signed,
                    wallet_keys.public_bytes(),
                    wallet_keys.secret_bytes(),
                ) && #[trigger] cycle_result(
                    old(mesh_interface)@,
                    old(session).mempool@,
                    signed,
                    final(mesh_interface)@,
                    final(session).mempool@,
                ),
            Err(e) => {
                &&& e == signing_error(wallet_keys.secret_bytes())
                &&& cycle_failed(
                    old(mesh_interface)@,
                    old(session).mempool@,
                    wallet_keys.public_bytes(),
                    wallet_keys.secret_bytes(),
                    final(mesh_interface)@,
                    final(session).mempool@,
                )
            },
        },
{
    session.mining_ran = false;
    let ghost link = mesh_interface@;
    let ghost pool = session.mempool@;
    let ghost pk = wallet_keys.public_bytes();
    let ghost sk = wallet_keys.secret_bytes();
    let ghost mut signed: Seq<TxView> = Seq::empty();
    assert(newest(pool + signed, RELAY_MEMPOOL_CAP as int) =~= pool);
    loop
        invariant_except_break
            mesh_interface@ == (LinkView { inbound: link.inbound.skip(signed.len() as int), ..link }),
        invariant
            pool.len() <= RELAY_MEMPOOL_CAP,
            signed.len() <= link.inbound.len(),
            pk == wallet_keys.public_bytes(),
            sk == wallet_keys.secret_bytes(),
            all_carried(link.inbound.take(signed.len() as int), signed, pk, sk),
            session.mempool.wf(),
            !session.mining_ran,
            session.mempool@ == newest(pool + signed, RELAY_MEMPOOL_CAP as int),
            link == old(mesh_interface)@,
            pool == old(session).mempool@,
        ensures
            signed.len() == link.inbound.len(),
            mesh_interface@ == (LinkView { inbound: Seq::empty(), ..link }),
        decreases link.inbound.len() - signed.len(),
    {
        match mesh_interface.poll_inbound() {
            None => {
                assert(link.inbound.skip(signed.len() as int) =~= Seq::<TxView>::empty());
                break;
            },
            Some(tx) => {
                assert(tx@ == link.inbound[signed.len() as int]);
                match relay_intercept_and_sign(tx, wallet_keys) {
                    Err(e) => {
                        proof {
                            let n = signed.len() as int;
                            assert(link.inbound.skip(n).drop_first() =~= link.inbound.skip(n + 1));
                            assert(cycle_ended_early(
                                link,
                                pool,
                                signed,
                                mesh_interface@,
                                session.mempool@,
                            ));
                        }
                        return Err(e);
                    },
                    Ok(t) => {
                        session.mempool.push(t);
                        proof {
                            let more = signed.push(t@);
                            let n = signed.len() as int;
                            assert(link.inbound.skip(n).drop_first() =~= link.inbound.skip(n + 1));
                            assert forall|i: int| 0 <= i < more.len() implies is_carried(
                                link.inbound.take(n + 1)[i],
                                #[trigger] more[i],
                                pk,
                                sk,
                            ) by {
                                if i < n {
                                    assert(signed[i] == more[i]);
                                    assert(link.inbound.take(n)[i] == link.inbound.take(n + 1)[i]);
                                }
                            }
                            assert(newest(
                                newest(pool + signed, RELAY_MEMPOOL_CAP as int).push(t@),
                                RELAY_MEMPOOL_CAP as int,
                            ) =~= newest(pool + more, RELAY_MEMPOOL_CAP as int));
                            signed = more;
                        }
                    },
                }
            },
        }
    }
    assert(link.inbound.take(signed.len() as int) =~= link.inbound);
    if mesh_interface.global_link_up() && !session.mempool.is_empty() {
        let all = session.mempool.drain();
        mesh_interface.stage_for_global_dag(all);
    }
    proof {
        assert(session.mempool@.len() == 0 ==> session.mempool@ =~= Seq::<TxView>::empty());
        assert(link.flush_ready + Seq::<TxView>::empty() =~= link.flush_ready);
        assert(cycle_result(link, pool, signed, mesh_interface@, session.mempool@));
    }
    Ok(())
}

/// Passive relay mode on a link that was asked to stop: one last duty cycle. A
/// link that is still running is driven by the caller, cycle by cycle, with
/// [`wallet_relay_step`].
pub fn start_wallet_relay_mode(wallet_keys: &KronKeypair, mesh_interface: &mut MeshInterface) -> (r:
    Result<WalletRelaySession, DagError>)
    requires
        old(mesh_interface)@.stop,
    ensures
        match r {
            Ok(session) => {
                &&& session.mempool.wf()
                &&& !session.mining_ran
                &&& exists|signed: Seq<TxView>|
                    all_carried(
                        old(mesh_interface)@.inbound,
                        signed,
                        wallet_keys.public_bytes(),
                        wallet_keys.secret_bytes(),
                    ) && #[trigger] cycle_result(
                        old(mesh_interface)@,
                        Seq::empty(),
                        signed,
                        final(mesh_interface)@,
                        session.mempool@,
                    )
            },
            Err(e) => {
                &&& e == signing_error(wallet_keys.secret_bytes())
                &&& exists|pool: Seq<TxView>| #[trigger]
                    cycle_failed(
                        old(mesh_interface)@,
                        Seq::empty(),
                        wallet_keys.public_bytes(),
                        wallet_keys.secret_bytes(),
                        final(mesh_interface)@,
                        pool,
                    )
            },
        },
{
    let mut session = WalletRelaySession { mempool: RelayMempool::new(), mining_ran: false };
    match wallet_relay_step(wallet_keys, mesh_interface, &mut session) {
        Ok(()) => Ok(session),
        Err(e) => Err(e),
    }
}

/// [`start_wallet_relay_mode`] on this host. A host that is no phone is refused.
pub fn start_wallet_relay_service(
    wallet_keys: &KronKeypair,
    mesh_interface: &mut MeshInterface,
    host: &HostObservation,
) -> (r: Result<WalletRelaySession, DagError>)
    requires
        host.refusal() is None ==> old(mesh_interface)@.stop,
    ensures
        match host.refusal() {
            Some(e) => {
                &&& r == Err::<WalletRelaySession, DagError>(DagError::Shield(e))
                &&& final(mesh_interface)@ == old(mesh_interface)@
            },
            None => match r {
                Ok(session) => {
                    &&& session.mempool.wf()
                    &&& !session.mining_ran
                    &&& exists|signed: Seq<TxView>|
                        all_carried(
                            old(mesh_interface)@.inbound,
                            signed,
                            wallet_keys.public_bytes(),
                            wallet_keys.secret_bytes(),
                        ) && #[trigger] cycle_result(
                            old(mesh_interface)@,
                            Seq::empty(),
                            signed,
                            final(mesh_interface)@,
                            session.mempool@,
                        )
                },
                Err(e) => {
                    &&& e == signing_error(wallet_keys.secret_bytes())
                    &&& exists|pool: Seq<TxView>| #[trigger]
                        cycle_failed(
                            old(mesh_interface)@,
                            Seq::empty(),
                            wallet_keys.public_bytes(),
                            wallet_keys.secret_bytes(),
                            final(mesh_interface)@,
                            pool,
                        )
                },
            },
        },
{
    match enforce_real_mobile(host) {
        Ok(()) => start_wallet_relay_mode(wallet_keys, mesh_interface),
        Err(e) => Err(DagError::Shield(e)),
    }
}

/// Address of the relay wallet.
pub fn relay_wallet_id(wallet_keys: &KronKeypair) -> (r: Address)
    ensures
        r == wallet_keys.ledger_address(),
{
    wallet_keys.public_key().address()
}

/// Carrying a vertex keeps its id and the validity of the sender's signature, and
/// the carrier proofs stay complete and valid.
pub proof fn law_carrying_keeps_the_signature(
    before: TxView,
    after: TxView,
    pk: Seq<u8>,
    sk: Seq<u8>,
)
    requires
        is_carried(before, after, pk, sk),
    ensures
        after.id == before.id,
        after.signature == before.signature,
        after.signature_holds() == before.signature_holds(),
        before.relays_proven() && keys_match(pk, sk) ==> after.relays_proven(),
{
    assert(after.unsigned() == before.unsigned());
    let node = address_of(pk);
    if before.relays_proven() && keys_match(pk, sk) {
        let n = before.relay_proofs.len() as int;
        assert(after.relay_proofs[n].node == node);
        assert(after.relay_nodes.contains(node)) by {
            if !before.relay_nodes.contains(node) {
                assert(after.relay_nodes[before.relay_nodes.len() as int] == node);
            }
        }
        assert forall|i: int| 0 <= i < after.relay_nodes.len() implies after.has_proof(
            #[trigger] after.relay_nodes[i],
        ) by {
            if i < before.relay_nodes.len() {
                assert(after.relay_nodes[i] == before.relay_nodes[i]);
                assert(before.has_proof(before.relay_nodes[i]));
                let j = choose|j: int|
                    0 <= j < before.relay_proofs.len() && (#[trigger] before.relay_proofs[j]).node
                        == before.relay_nodes[i];
                assert(after.relay_proofs[j] == before.relay_proofs[j]);
            } else {
                assert(after.relay_proofs[n].node == after.relay_nodes[i]);
            }
        }
        assert forall|j: int| 0 <= j < after.relay_proofs.len() implies #[trigger]
            after.proof_holds(j) by {
            if j < n {
                assert(after.relay_proofs[j] == before.relay_proofs[j]);
                assert(before.proof_holds(j));
                let p = before.relay_proofs[j];
                assert(before.relay_nodes.contains(p.node));
                let m = choose|m: int|
                    0 <= m < before.relay_nodes.len() && before.relay_nodes[m] == p.node;
                assert(after.relay_nodes[m] == p.node);
            }
        }
    }
}

/// The pool never holds more than its cap, and what it drops is the oldest.
pub proof fn law_pool_keeps_the_newest(pool: Seq<TxView>, t: TxView)
    requires
        pool.len() <= RELAY_MEMPOOL_CAP,
    ensures
        newest(pool.push(t), RELAY_MEMPOOL_CAP as int).len() <= RELAY_MEMPOOL_CAP,
        newest(pool.push(t), RELAY_MEMPOOL_CAP as int).last() == t,
        pool.len() == RELAY_MEMPOOL_CAP ==> newest(pool.push(t), RELAY_MEMPOOL_CAP as int)
            == pool.drop_first().push(t),
{
    if pool.len() == RELAY_MEMPOOL_CAP {
        assert(newest(pool.push(t), RELAY_MEMPOOL_CAP as int) =~= pool.drop_first().push(t));
    }
}

/// Carried vertices travel: what the wire can carry it still carries with one more
/// proof, and reads back unchanged.
pub proof fn law_carried_vertex_travels(before: TxView, after: TxView, pk: Seq<u8>, sk: Seq<u8>)
    requires
        is_wire_ready(before),
        is_carried(before, after, pk, sk),
        pk.len() == PK_LEN,
        before.relay_nodes.len() < u32::MAX,
        before.relay_proofs.len() < u32::MAX,
    ensures
        is_wire_ready(after),
        parsed_tx(after.canonical()) == Ok::<TxView, DagError>(after),
{
    assert(after.unsigned() == before.unsigned());
    assert forall|j: int| 0 <= j < after.relay_proofs.len() implies is_full_proof(
        #[trigger] after.relay_proofs[j],
    ) by {
        if j < before.relay_proofs.len() {
            assert(after.relay_proofs[j] == before.relay_proofs[j]);
        }
    }
    law_canonical_round_trip(after);
}

} // verus!
