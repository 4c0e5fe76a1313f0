//! Offline mesh sync: two phones meet, check each other, and merge their DAG
//! islands.
//!
//! The phone that carried the other's vertices is marked as the relay of each of
//! them. The mark is a local sidecar; it is no part of what the sender signed.

use vstd::prelude::*;
use vstd::utf8::encode_utf8;

use crate::anti_bot::attestation::{bot_quote, datacenter_endpoint, datacenter_ipv4, honest_quote,
    in_datacenter, is_datacenter_ipv4, residential_endpoint, verify_hardware_authenticity,
    DeviceAttestation, DeviceScore, SecurityError};
use crate::anti_bot::profile::DeviceClass;
use crate::bytes::{append, same};
use crate::crypto::hash::{sha256, sha256_of};
use crate::crypto::lattice::{address_of, secret_usable, signature_accepted, LatticeKeyPair,
    LatticePublicKey, LatticeSignature};
use crate::crypto::mobile_only::{enforce_real_mobile, HostObservation, ShieldError};
use crate::dag::engine::{bodies, closure_of, list_views, KronDAG};
use crate::dag::error::{byte_list, push_byte_list, DagError};
use crate::dag::laws::{law_tips_reach_everything, law_walk_stays_stored};
use crate::dag::model::{amount_at, capped_add, DagView, GraphView, LedgerView,
    ANCESTOR_WALK_BOUND};
use crate::dag::ordering::{absent, all_known, batch_bodies, batch_of, depends, incoming_order,
    lacks, lemma_order_complete, lemma_order_length, topo_order_incoming, OrderFault};
use crate::dag::reconciliation::{
    advertised_recent, advertised_tips, compute_dag_diff, leading, needed, recent_of,
    SyncInventory, MAX_INVENTORY_HASHES,
};
use crate::dag::tx::{DagTransaction, TxHash, TxView, NULL_PARENT};
use crate::economics::{relay_share_of, share, RELAY_SHARE_PERCENT};
use crate::kron::wallet::KronKeypair;
use crate::p2p::handshake::HandshakeConfig;
use crate::p2p::peer::PeerRole;
use crate::table::{lemma_ascending_distinct, lemma_ordered, lemma_ordered_set, ordered, Table};
use crate::text::push_text;
use crate::types::Address;

verus! {

/// Mesh phone identity: the 32-byte ledger address.
pub type NodeId = Address;

/// Handshake attempts on a flaky short-range link.
pub const HANDSHAKE_RETRIES: u32 = 3;

/// The relay's share of a pool.
pub fn relay_share(total: u64) -> (r: u64)
    ensures
        r == share(total, RELAY_SHARE_PERCENT),
{
    relay_share_of(total)
}

#[derive(Clone, Copy, Debug, PartialEq, Eq)]
pub enum SyncError {
    Handshake(&'static str),
    AntiBot,
    MissingParent(TxHash),
    CyclicBatch,
    Attach(DagError),
    UnstableLink,
    BadIdentity,
    Shield(ShieldError),
}

impl SyncError {
    pub open spec fn spec_message(&self) -> Seq<char> {
        match self {
            SyncError::Handshake(why) => "mesh handshake rejected: "@ + why@,
            SyncError::AntiBot => "anti-bot / attestation failed"@,
            SyncError::MissingParent(h) => "missing parent "@ + byte_list(h@)
                + " not in local DAG or incoming batch"@,
            SyncError::CyclicBatch => "incoming batch has a cycle"@,
            SyncError::Attach(e) => "attach failed: "@ + e.spec_message(),
            SyncError::UnstableLink => "short-range link dropped after retries"@,
            SyncError::BadIdentity => "lattice identity signature failed"@,
            SyncError::Shield(e) => "phone-only shield: "@ + e.spec_message(),
        }
    }

    /// The error as a line of text.
    pub fn message(&self) -> (r: String)
        ensures
            r@ == self.spec_message(),
    {
        let mut out = String::new();
        match self {
            SyncError::Handshake(why) => {
                push_text(&mut out, "mesh handshake rejected: ");
                push_text(&mut out, why);
            },
            SyncError::AntiBot => {
                push_text(&mut out, "anti-bot / attestation failed");
            },
            SyncError::MissingParent(h) => {
                push_text(&mut out, "missing parent ");
                push_byte_list(&mut out, h.as_slice());
                push_text(&mut out, " not in local DAG or incoming batch");
            },
            SyncError::CyclicBatch => {
                push_text(&mut out, "incoming batch has a cycle");
            },
            SyncError::Attach(e) => {
                push_text(&mut out, "attach failed: ");
                push_text(&mut out, e.message().as_str());
            },
            SyncError::UnstableLink => {
                push_text(&mut out, "short-range link dropped after retries");
            },
            SyncError::BadIdentity => {
                push_text(&mut out, "lattice identity signature failed");
            },
            SyncError::Shield(e) => {
                push_text(&mut out, "phone-only shield: ");
                push_text(&mut out, e.message());
            },
        }
        assert(out@ =~= self.spec_message());
        out
    }
}

/// A phone on the short-range link.
pub struct MeshPhone {
    pub handshake: HandshakeConfig,
}

impl Clone for MeshPhone {
    fn clone(&self) -> (r: Self)
        ensures
            r.handshake.keys.public@ == self.handshake.keys.public@,
            r.handshake.keys.secret@ == self.handshake.keys.secret@,
            r.handshake.attestation@ == self.handshake.attestation@,
            r.handshake.min_authenticity == self.handshake.min_authenticity,
    {
        MeshPhone { handshake: self.handshake.clone() }
    }
}

impl MeshPhone {
    pub fn id(&self) -> (r: NodeId)
        ensures
            r == address_of(self.handshake.keys.public@),
    {
        self.handshake.peer_id()
    }

    /// A phone with an honest quote: residential prefix, noisy probes.
    pub fn honest_mobile(keys: LatticeKeyPair) -> (r: Self)
        ensures
            r.handshake.keys == keys,
            r.handshake.role == PeerRole::EdgeMiner,
            r.handshake.class == DeviceClass::LegacyMobile,
            r.handshake.attestation@ == honest_quote(
                DeviceClass::LegacyMobile,
                address_of(keys.public@),
                residential_endpoint(address_of(keys.public@)),
                80_000,
            ),
            r.handshake.min_authenticity == 400,
    {
        MeshPhone {
            handshake: HandshakeConfig::honest(
                keys,
                PeerRole::EdgeMiner,
                DeviceClass::LegacyMobile,
                true,
            ),
        }
    }

    pub fn from_wallet(wallet: &KronKeypair) -> (r: Self)
        ensures
            r.handshake.keys.public@ == wallet.public_bytes(),
            r.handshake.keys.secret@ == wallet.secret_bytes(),
            r.handshake.attestation@ == honest_quote(
                DeviceClass::LegacyMobile,
                wallet.ledger_address(),
                residential_endpoint(wallet.ledger_address()),
                80_000,
            ),
            r.handshake.min_authenticity == 400,
    {
        Self::honest_mobile(wallet.lattice().clone())
    }

    /// A datacenter emulator.
    pub fn datacenter_emulator(keys: LatticeKeyPair) -> (r: Self)
        ensures
            r.handshake.keys == keys,
            r.handshake.attestation@ == bot_quote(
                address_of(keys.public@),
                DeviceClass::LegacyMobile,
                datacenter_endpoint(address_of(keys.public@)),
            ),
            r.handshake.min_authenticity == 400,
    {
        let id = keys.public.address();
        let mut handshake = HandshakeConfig::honest(
            keys,
            PeerRole::EdgeMiner,
            DeviceClass::LegacyMobile,
            true,
        );
        handshake.attestation = DeviceAttestation::datacenter_bot(
            id,
            DeviceClass::LegacyMobile,
            datacenter_ipv4(&id),
        );
        MeshPhone { handshake }
    }
}

/// Result of a mutual mesh handshake.
#[derive(Debug, PartialEq, Eq)]
pub struct MeshSession {
    pub phone_a: NodeId,
    pub phone_b: NodeId,
    pub score_a: DeviceScore,
    pub score_b: DeviceScore,
}

/// Why a phone is not admitted to the link, if it is not.
pub open spec fn peer_fault(h: HandshakeConfig) -> Option<SyncError> {
    let att = h.attestation@;
    if att.miner != address_of(h.keys.public@) {
        Some(SyncError::Handshake("attestation/key mismatch"))
    } else if in_datacenter(att.ipv4[0]) {
        Some(SyncError::Handshake("datacenter ip"))
    } else {
        match att.fault() {
            Some(SecurityError::DatacenterCluster) => Some(SyncError::Handshake("datacenter ip")),
            Some(_) => Some(SyncError::AntiBot),
            None => if att.score().authenticity < h.min_authenticity {
                Some(SyncError::Handshake("weak hardware score"))
            } else {
                None
            },
        }
    }
}

fn verify_mesh_peer(phone: &MeshPhone) -> (r: Result<DeviceScore, SyncError>)
    ensures
        match r {
            Ok(score) => peer_fault(phone.handshake) is None && score@
                == phone.handshake.attestation@.score(),
            Err(e) => peer_fault(phone.handshake) == Some(e),
        },
{
    let att = &phone.handshake.attestation;
    let id = phone.handshake.keys.public.address();
    if !same(&att.miner, &id) {
        return Err(SyncError::Handshake("attestation/key mismatch"));
    }
    if is_datacenter_ipv4(att.ipv4) {
        return Err(SyncError::Handshake("datacenter ip"));
    }
    match verify_hardware_authenticity(att) {
        Err(SecurityError::DatacenterCluster) => Err(SyncError::Handshake("datacenter ip")),
        Err(_) => Err(SyncError::AntiBot),
        Ok(score) => {
            if score.authenticity < phone.handshake.min_authenticity {
                return Err(SyncError::Handshake("weak hardware score"));
            }
            Ok(score)
        },
    }
}

/// What the two phones sign.
pub open spec fn meeting_transcript(a: HandshakeConfig, b: HandshakeConfig) -> [u8; 32] {
    sha256_of(
        encode_utf8("kron-offline-mesh-hs-v1"@) + address_of(a.keys.public@)@ + address_of(
            b.keys.public@,
        )@ + a.attestation@.quote@ + b.attestation@.quote@,
    )
}

/// Whether both phones signed the transcript.
pub fn identities_proven(
    key_a: &LatticePublicKey,
    key_b: &LatticePublicKey,
    transcript: &[u8; 32],
    sig_a: &LatticeSignature,
    sig_b: &LatticeSignature,
) -> (r: Result<(), SyncError>)
    ensures
        r == (if signature_accepted(key_a@, transcript@, sig_a@) && signature_accepted(
            key_b@,
            transcript@,
            sig_b@,
        ) {
            Ok::<(), SyncError>(())
        } else {
            Err(SyncError::BadIdentity)
        }),
{
    if key_a.verify(transcript.as_slice(), sig_a) && key_b.verify(transcript.as_slice(), sig_b) {
        Ok(())
    } else {
        Err(SyncError::BadIdentity)
    }
}

/// Whether some signature of a phone on the transcript of the meeting is accepted.
pub open spec fn identity_shown(h: HandshakeConfig, transcript: [u8; 32]) -> bool {
    exists|sig: Seq<u8>| #[trigger] signature_accepted(h.keys.public@, transcript@, sig)
}

/// What a meeting of two phones may end in. Only the random source of signing
/// stands between two admitted phones with usable keys and a session.
pub open spec fn meeting_outcome(
    a: HandshakeConfig,
    b: HandshakeConfig,
    r: Result<MeshSession, SyncError>,
) -> bool {
    match r {
        Ok(s) => {
            &&& peer_fault(a) is None
            &&& peer_fault(b) is None
            &&& secret_usable(a.keys.secret@)
            &&& secret_usable(b.keys.secret@)
            &&& identity_shown(a, meeting_transcript(a, b))
            &&& identity_shown(b, meeting_transcript(a, b))
            &&& s.phone_a == address_of(a.keys.public@)
            &&& s.phone_b == address_of(b.keys.public@)
            &&& s.score_a@ == a.attestation@.score()
            &&& s.score_b@ == b.attestation@.score()
        },
        Err(e) => match (peer_fault(a), peer_fault(b)) {
            (Some(f), _) => e == f,
            (None, Some(f)) => e == f,
            (None, None) => e == SyncError::BadIdentity,
        },
    }
}

/// Mutual identity check and attestation. Datacenter endpoints and emulator
/// fingerprints are refused.
pub fn mesh_handshake(phone_a: &MeshPhone, phone_b: &MeshPhone) -> (r: Result<
    MeshSession,
    SyncError,
>)
    ensures
        meeting_outcome(phone_a.handshake, phone_b.handshake, r),
{
    let score_a = match verify_mesh_peer(phone_a) {
        Ok(s) => s,
        Err(e) => {
            return Err(e);
        },
    };
    let score_b = match verify_mesh_peer(phone_b) {
        Ok(s) => s,
        Err(e) => {
            return Err(e);
        },
    };
    let transcript = mutual_transcript(phone_a, phone_b);
    let sig_a = match phone_a.handshake.keys.sign(transcript.as_slice()) {
        Ok(sig) => sig,
        Err(_) => {
            return Err(SyncError::BadIdentity);
        },
    };
    let sig_b = match phone_b.handshake.keys.sign(transcript.as_slice()) {
        Ok(sig) => sig,
        Err(_) => {
            return Err(SyncError::BadIdentity);
        },
    };
    match identities_proven(
        &phone_a.handshake.keys.public,
        &phone_b.handshake.keys.public,
        &transcript,
        &sig_a,
        &sig_b,
    ) {
        Ok(()) => {},
        Err(e) => {
            return Err(e);
        },
    }
    Ok(MeshSession { phone_a: phone_a.id(), phone_b: phone_b.id(), score_a, score_b })
}

fn mutual_transcript(a: &MeshPhone, b: &MeshPhone) -> (r: [u8; 32])
    ensures
        r == meeting_transcript(a.handshake, b.handshake),
{
    let mut buf: Vec<u8> = Vec::new();
    append(&mut buf, "kron-offline-mesh-hs-v1".as_bytes());
    append(&mut buf, a.id().as_slice());
    append(&mut buf, b.id().as_slice());
    append(&mut buf, a.handshake.attestation.quote.as_slice());
    append(&mut buf, b.handshake.attestation.quote.as_slice());
    assert(buf@ =~= encode_utf8("kron-offline-mesh-hs-v1"@) + address_of(
        a.handshake.keys.public@,
    )@ + address_of(b.handshake.keys.public@)@ + a.handshake.attestation@.quote@
        + b.handshake.attestation@.quote@);
    sha256(buf.as_slice())
}

/// A short-range hop with retries.
#[derive(Clone, Copy, Debug)]
pub struct OfflineLink {
    pub retries: u32,
}

impl Default for OfflineLink {
    fn default() -> (r: Self)
        ensures
            r.retries == HANDSHAKE_RETRIES,
    {
        OfflineLink { retries: HANDSHAKE_RETRIES }
    }
}

impl OfflineLink {
    pub fn new() -> (r: Self)
        ensures
            r.retries == HANDSHAKE_RETRIES,
    {
        OfflineLink { retries: HANDSHAKE_RETRIES }
    }

    /// The handshake, tried again on failure. At least one attempt is made.
    pub fn mesh_handshake(&self, phone_a: &MeshPhone, phone_b: &MeshPhone) -> (r: Result<
        MeshSession,
        SyncError,
    >)
        ensures
            meeting_outcome(phone_a.handshake, phone_b.handshake, r),
    {
        let mut left: u32 = self.retries;
        loop
            decreases left,
        {
            match mesh_handshake(phone_a, phone_b) {
                Ok(session) => {
                    return Ok(session);
                },
                Err(e) => {
                    if left <= 1 {
                        return Err(e);
                    }
                },
            }
            left -= 1;
        }
    }
}

/// Local DAG with this phone's mesh identity.
pub struct MeshSyncEngine {
    pub dag: KronDAG,
    pub phone: MeshPhone,
}

impl MeshSyncEngine {
    pub fn new(dag: KronDAG, phone: MeshPhone) -> (r: Self)
        ensures
            r.dag == dag,
            r.phone == phone,
    {
        MeshSyncEngine { dag, phone }
    }

    pub fn inventory(&self) -> (r: SyncInventory)
        requires
            self.dag.wf(),
        ensures
            r.tips@ == advertised_tips(self.dag@.graph),
            r.recent@ == advertised_recent(self.dag@.graph),
            r.peer_id == Some(address_of(self.phone.handshake.keys.public@)),
    {
        SyncInventory::from_dag(&self.dag, self.phone.id())
    }

    pub fn merge_offline_graphs(
        &mut self,
        incoming_txs: Vec<DagTransaction>,
        relay_node_id: NodeId,
    ) -> (r: Result<u32, SyncError>)
        requires
            old(self).dag.wf(),
        ensures
            final(self).dag.wf(),
            final(self).phone == old(self).phone,
            old(self).dag@.merge_outcome(
                list_views(incoming_txs@),
                relay_node_id,
                final(self).dag@,
                r,
            ),
    {
        self.dag.merge_offline_graphs(incoming_txs, relay_node_id)
    }
}

/// Accrued relay shares.
#[derive(Debug, PartialEq, Eq)]
pub struct RelayLedger {
    pub relay_of: Table<32, NodeId>,
    pub credits: Table<32, u64>,
}

impl RelayLedger {
    pub open spec fn wf(&self) -> bool {
        self.relay_of.wf() && self.credits.wf()
    }

    pub fn new() -> (r: Self)
        ensures
            r.wf(),
            r.relay_of@ == Map::<TxHash, NodeId>::empty(),
            r.credits@ == Map::<NodeId, u64>::empty(),
    {
        RelayLedger { relay_of: Table::new(), credits: Table::new() }
    }

    /// Marks the carrier of a vertex and adds its share of the fee.
    pub fn record(&mut self, tx_id: TxHash, relay: NodeId, fee: u64)
        requires
            old(self).wf(),
        ensures
            final(self).wf(),
            final(self).relay_of@ == old(self).relay_of@.insert(tx_id, relay),
            final(self).credits@ == old(self).credits@.insert(
                relay,
                capped_add(amount_at(old(self).credits@, relay), share(fee, RELAY_SHARE_PERCENT)),
            ),
    {
        self.relay_of.insert(tx_id, relay);
        let cut: u64 = relay_share_of(fee);
        let have: u64 = self.credits.get_or(&relay, 0);
        self.credits.insert(relay, have.saturating_add(cut));
    }
}

/// A merge under way.
#[verifier::ext_equal]
pub struct MergeView {
    pub dag: DagView,
    pub inserted: u32,
    pub error: Option<SyncError>,
}

impl GraphView {
    /// The first parent of `t` that is not stored, if there is one.
    pub open spec fn unstored_parent(self, t: TxView) -> Option<TxHash> {
        if t.is_genesis() {
            None
        } else if t.parent_1 == NULL_PARENT || !self.vertices.contains_key(t.parent_1) {
            Some(t.parent_1)
        } else if t.parent_2 == NULL_PARENT || !self.vertices.contains_key(t.parent_2) {
            Some(t.parent_2)
        } else {
            None
        }
    }
}

impl DagView {
    /// The first `n` transfers stored one after the other, each marked with the
    /// phone that carried it. What is already stored is passed over; the first
    /// fault ends the merge with what it has stored.
    pub open spec fn merge_steps(self, txs: Seq<TxView>, relay: Address, n: nat) -> MergeView
        decreases n,
    {
        if n == 0 {
            MergeView { dag: self, inserted: 0, error: None }
        } else {
            let before = self.merge_steps(txs, relay, (n - 1) as nat);
            let t = txs[n - 1];
            if before.error is Some || before.dag.graph.vertices.contains_key(t.id) {
                before
            } else if before.dag.graph.unstored_parent(t) is Some {
                MergeView {
                    error: Some(
                        SyncError::MissingParent(before.dag.graph.unstored_parent(t).unwrap()),
                    ),
                    ..before
                }
            } else {
                let (d, e) = before.dag.stored(t);
                match e {
                    Some(e) => MergeView { error: Some(SyncError::Attach(e)), ..before },
                    None => MergeView {
                        dag: if t.is_genesis() {
                            d
                        } else {
                            DagView { relay_of: d.relay_of.insert(t.id, relay), ..d }
                        },
                        inserted: if before.inserted == u32::MAX {
                            before.inserted
                        } else {
                            (before.inserted + 1) as u32
                        },
                        error: None,
                    },
                }
            }
        }
    }

    /// A merge of transfers that stand parents first. Where anything was stored the
    /// ledger is rebuilt.
    pub open spec fn merged(self, txs: Seq<TxView>, relay: Address) -> (
        DagView,
        Result<u32, SyncError>,
    ) {
        let run = self.merge_steps(txs, relay, txs.len());
        match run.error {
            Some(e) => (run.dag, Err(e)),
            None => if run.inserted == 0 {
                (run.dag, Ok(0))
            } else {
                let (d, e) = run.dag.resolved();
                (
                    d,
                    match e {
                        Some(e) => Err(SyncError::Attach(e)),
                        None => Ok(run.inserted),
                    },
                )
            },
        }
    }

    /// What merging a batch leaves and returns. A batch with a parent that is
    /// nowhere, or with a cycle, is refused whole.
    pub open spec fn merge_outcome(
        self,
        txs: Seq<TxView>,
        relay: Address,
        after: DagView,
        r: Result<u32, SyncError>,
    ) -> bool {
        let b = batch_of(txs, txs.len());
        let l = self.graph.vertices.dom();
        if !all_known(b, l) {
            &&& after == self
            &&& r matches Err(SyncError::MissingParent(p))
            &&& lacks(b, l, p)
        } else if incoming_order(b, l).len() < b.dom().len() {
            after == self && r == Err::<u32, SyncError>(SyncError::CyclicBatch)
        } else {
            (after, r) == self.merged(batch_bodies(b, incoming_order(b, l)), relay)
        }
    }

    /// Every accrued relay share paid out as a local credit.
    pub open spec fn relays_funded(self) -> DagView {
        DagView {
            ledger: LedgerView {
                balances: topped_up(self.ledger.balances, self.ledger.relay_credits),
                ..self.ledger
            },
            faucet: topped_up(self.faucet, self.ledger.relay_credits),
            ..self
        }
    }
}

/// `m` with the positive amounts of `extra` added.
pub open spec fn topped_up(m: Map<Address, u64>, extra: Map<Address, u64>) -> Map<Address, u64> {
    Map::new(
        |a: Address| m.contains_key(a) || amount_at(extra, a) > 0,
        |a: Address|
            if amount_at(extra, a) > 0 {
                capped_add(amount_at(m, a), amount_at(extra, a))
            } else {
                m[a]
            },
    )
}

impl KronDAG {
    /// [`Self::merge_offline_graphs`] with this host as the relay. A host that is
    /// no phone stores nothing.
    pub fn merge_offline_graphs_as_relay(
        &mut self,
        incoming_txs: Vec<DagTransaction>,
        relay_node_id: NodeId,
        host: &HostObservation,
    ) -> (r: Result<u32, SyncError>)
        requires
            old(self).wf(),
        ensures
            final(self).wf(),
            match host.refusal() {
                Some(e) => final(self)@ == old(self)@ && r == Err::<u32, SyncError>(
                    SyncError::Shield(e),
                ),
                None => old(self)@.merge_outcome(
                    list_views(incoming_txs@),
                    relay_node_id,
                    final(self)@,
                    r,
                ),
            },
    {
        match enforce_real_mobile(host) {
            Ok(()) => self.merge_offline_graphs(incoming_txs, relay_node_id),
            Err(e) => Err(SyncError::Shield(e)),
        }
    }

    /// Stores a batch parents first and marks the carrier of each new vertex.
    /// Duplicates are ignored.
    pub fn merge_offline_graphs(
        &mut self,
        incoming_txs: Vec<DagTransaction>,
        relay_node_id: NodeId,
    ) -> (r: Result<u32, SyncError>)
        requires
            old(self).wf(),
        ensures
            final(self).wf(),
            old(self)@.merge_outcome(list_views(incoming_txs@), relay_node_id, final(self)@, r),
    {
        let ghost start = self@;
        let line = match topo_order_incoming(self, &incoming_txs) {
            Ok(v) => v,
            Err(OrderFault::MissingParent(p)) => {
                return Err(SyncError::MissingParent(p));
            },
            Err(OrderFault::Cycle) => {
                return Err(SyncError::CyclicBatch);
            },
        };
        let ghost txs = list_views(line@);
        let (inserted, fault) = self.store_line(&line, relay_node_id);
        if let Some(e) = fault {
            return Err(e);
        }
        if inserted > 0 {
            match self.resolve_conflicts_and_rebuild_ledger() {
                Ok(()) => {},
                Err(e) => {
                    return Err(SyncError::Attach(e));
                },
            }
        }
        Ok(inserted)
    }

    fn store_line(&mut self, line: &Vec<DagTransaction>, relay: NodeId) -> (r: (
        u32,
        Option<SyncError>,
    ))
        requires
            old(self).wf(),
        ensures
            final(self).wf(),
            (MergeView { dag: final(self)@, inserted: r.0, error: r.1 }) == old(self)@.merge_steps(
                list_views(line@),
                relay,
                line@.len(),
            ),
    {
        let ghost start = self@;
        let ghost txs = list_views(line@);
        let mut inserted: u32 = 0;
        let mut error: Option<SyncError> = None;
        let mut i: usize = 0;
        while i < line.len()
            invariant
                self.wf(),
                i <= line@.len(),
                txs == list_views(line@),
                (MergeView { dag: self@, inserted, error }) == start.merge_steps(
                    txs,
                    relay,
                    i as nat,
                ),
            decreases line@.len() - i,
        {
            assert(txs[i as int] == line@[i as int]@);
            if error.is_none() && !self.contains(&line[i].id) {
                match self.store_one(&line[i], relay) {
                    Some(e) => {
                        error = Some(e);
                    },
                    None => {
                        inserted = inserted.saturating_add(1);
                    },
                }
            }
            i += 1;
        }
        (inserted, error)
    }

    /// Stores one vertex that is not stored yet.
    fn store_one(&mut self, tx: &DagTransaction, relay: NodeId) -> (r: Option<SyncError>)
        requires
            old(self).wf(),
            !old(self)@.graph.vertices.contains_key(tx@.id),
        ensures
            final(self).wf(),
            match old(self)@.graph.unstored_parent(tx@) {
                Some(p) => final(self)@ == old(self)@ && r == Some(SyncError::MissingParent(p)),
                None => match old(self)@.stored(tx@) {
                    (d, Some(e)) => final(self)@ == old(self)@ && r == Some(SyncError::Attach(e)),
                    (d, None) => r is None && final(self)@ == (if tx@.is_genesis() {
                        d
                    } else {
                        DagView { relay_of: d.relay_of.insert(tx@.id, relay), ..d }
                    }),
                },
            },
    {
        let genesis = tx.is_genesis();
        if !genesis {
            if same(&tx.parent_1, &NULL_PARENT) || !self.contains(&tx.parent_1) {
                return Some(SyncError::MissingParent(tx.parent_1));
            }
            if same(&tx.parent_2, &NULL_PARENT) || !self.contains(&tx.parent_2) {
                return Some(SyncError::MissingParent(tx.parent_2));
            }
        }
        match self.insert_graph_only(tx.clone()) {
            Ok(()) => {
                if !genesis {
                    self.stamp_relay(tx.id, relay);
                }
                None
            },
            Err(e) => Some(SyncError::Attach(e)),
        }
    }

    /// Pays every accrued relay share out as a local credit.
    pub fn apply_relay_credits_from_fee_pool(&mut self)
        requires
            old(self).wf(),
        ensures
            final(self).wf(),
            final(self)@ == old(self)@.relays_funded(),
    {
        let credits = self.relay_credit_snapshot();
        let ghost start = self@;
        let ghost pay = credits@;
        proof {
            credits.lemma_listing();
            assert(self@ =~= funded_prefix(start, credits.listing(), 0));
        }
        let n: usize = credits.len();
        let mut i: usize = 0;
        while i < n
            invariant
                self.wf(),
                credits.wf(),
                credits@ == start.ledger.relay_credits,
                n == credits.listing().len(),
                i <= n,
                self@ == funded_prefix(start, credits.listing(), i as int),
            decreases n - i,
        {
            let addr = credits.key_at(i);
            let amount: u64 = *credits.value_at(i);
            let ghost before = self@;
            self.credit_account(addr, amount);
            proof {
                credits.lemma_listing();
                lemma_fund_next(start, credits.listing(), i as int);
            }
            i += 1;
        }
        proof {
            credits.lemma_listing();
            let keys = credits.listing();
            assert(keys.take(i as int) =~= keys);
            assert forall|a: Address| pay_among(start, keys, a) == amount_at(
                start.ledger.relay_credits,
                a,
            ) by {
                assert(keys.contains(a) == keys.to_set().contains(a));
            }
            assert(self@ =~= start.relays_funded());
        }
    }
}

/// What `a` is owed, where it is among `keys`.
spec fn pay_among(d: DagView, keys: Seq<Address>, a: Address) -> u64 {
    if keys.contains(a) {
        amount_at(d.ledger.relay_credits, a)
    } else {
        0
    }
}

spec fn topped_among(m: Map<Address, u64>, d: DagView, keys: Seq<Address>) -> Map<Address, u64> {
    Map::new(
        |a: Address| m.contains_key(a) || pay_among(d, keys, a) > 0,
        |a: Address|
            if pay_among(d, keys, a) > 0 {
                capped_add(amount_at(m, a), pay_among(d, keys, a))
            } else {
                m[a]
            },
    )
}

/// The state with the first `n` of `keys` paid.
spec fn funded_prefix(d: DagView, keys: Seq<Address>, n: int) -> DagView {
    DagView {
        ledger: LedgerView {
            balances: topped_among(d.ledger.balances, d, keys.take(n)),
            ..d.ledger
        },
        faucet: topped_among(d.faucet, d, keys.take(n)),
        ..d
    }
}

proof fn lemma_fund_next(d: DagView, keys: Seq<Address>, n: int)
    requires
        keys.no_duplicates(),
        0 <= n < keys.len(),
        d.ledger.relay_credits.contains_key(keys[n]),
    ensures
        funded_prefix(d, keys, n).funded(keys[n], d.ledger.relay_credits[keys[n]])
            == funded_prefix(d, keys, n + 1),
{
    let k = keys[n];
    let h = keys.take(n);
    let t = keys.take(n + 1);
    assert(t =~= h.push(k));
    assert forall|a: Address| t.contains(a) == (h.contains(a) || a == k) by {
        if h.contains(a) {
            let m = choose|m: int| 0 <= m < h.len() && h[m] == a;
            assert(t[m] == a);
        }
        if a == k {
            assert(t[n] == a);
        }
    }
    assert(!h.contains(k)) by {
        if h.contains(k) {
            let m = choose|m: int| 0 <= m < h.len() && h[m] == k;
            assert(keys[m] == keys[n]);
        }
    }
    assert forall|a: Address| #[trigger]
        pay_among(d, t, a) == (if a == k {
            d.ledger.relay_credits[k]
        } else {
            pay_among(d, h, a)
        }) by {
        assert(t.contains(a) == (h.contains(a) || a == k));
    }
    assert(pay_among(d, h, k) == 0);
    assert(funded_prefix(d, keys, n).funded(k, d.ledger.relay_credits[k]) =~= funded_prefix(
        d,
        keys,
        n + 1,
    ));
}

/// One round of Have/Need: the bodies that `remote` has and `local` needs, merged
/// with `carrier` as their relay.
pub fn exchange_and_merge(
    local: &mut KronDAG,
    remote: &KronDAG,
    remote_inventory: &SyncInventory,
    carrier: NodeId,
) -> (r: Result<u32, SyncError>)
    requires
        old(local).wf(),
        remote.wf(),
    ensures
        final(local).wf(),
        old(local)@.merge_outcome(
            bodies(
                remote@.graph,
                ordered(needed(old(local)@.graph, remote_inventory.listed())),
            ),
            carrier,
            final(local)@,
            r,
        ),
{
    let (need, _have) = compute_dag_diff(local, remote_inventory);
    proof {
        lemma_ordered(need@);
    }
    let found = remote.transactions_for(need.as_slice());
    local.merge_offline_graphs(found, carrier)
}

/// A datacenter emulator never gets a session, whomever it meets.
pub proof fn law_emulator_gets_no_session(
    bot: HandshakeConfig,
    other: HandshakeConfig,
    r: Result<MeshSession, SyncError>,
)
    requires
        bot.attestation@ == bot_quote(
            address_of(bot.keys.public@),
            DeviceClass::LegacyMobile,
            datacenter_endpoint(address_of(bot.keys.public@)),
        ),
        meeting_outcome(bot, other, r) || meeting_outcome(other, bot, r),
    ensures
        r is Err,
        peer_fault(bot) == Some(SyncError::Handshake("datacenter ip")),
{
}

proof fn lemma_merge_keeps(d: DagView, txs: Seq<TxView>, relay: Address, n: nat, id: TxHash)
    requires
        n <= txs.len(),
    ensures
        d.graph.vertices.contains_key(id) ==> d.merge_steps(
            txs,
            relay,
            n,
        ).dag.graph.vertices.contains_key(id),
    decreases n,
{
    if n > 0 {
        lemma_merge_keeps(d, txs, relay, (n - 1) as nat, id);
    }
}

proof fn lemma_merge_stores(d: DagView, txs: Seq<TxView>, relay: Address, n: nat, i: int)
    requires
        0 <= i < n <= txs.len(),
        d.merge_steps(txs, relay, n).error is None,
    ensures
        d.merge_steps(txs, relay, n).dag.graph.vertices.contains_key(txs[i].id),
    decreases n,
{
    if i < n - 1 {
        lemma_merge_stores(d, txs, relay, (n - 1) as nat, i);
    }
}

proof fn lemma_merge_passes_over(d: DagView, txs: Seq<TxView>, relay: Address, n: nat)
    requires
        n <= txs.len(),
        forall|i: int|
            0 <= i < txs.len() ==> d.graph.vertices.contains_key((#[trigger] txs[i]).id),
    ensures
        d.merge_steps(txs, relay, n) == (MergeView { dag: d, inserted: 0, error: None }),
    decreases n,
{
    if n > 0 {
        lemma_merge_passes_over(d, txs, relay, (n - 1) as nat);
        assert(d.graph.vertices.contains_key(txs[n - 1].id));
    }
}

/// A merge that succeeds has stored the whole batch.
pub proof fn law_merge_stores_batch(
    d: DagView,
    txs: Seq<TxView>,
    relay: Address,
    after: DagView,
    n: u32,
    id: TxHash,
)
    requires
        d.merge_outcome(txs, relay, after, Ok(n)),
        batch_of(txs, txs.len()).contains_key(id),
    ensures
        after.graph.vertices.contains_key(id),
{
    let b = batch_of(txs, txs.len());
    let l = d.graph.vertices.dom();
    let o = incoming_order(b, l);
    let line = batch_bodies(b, o);
    lemma_batch_ids(txs, txs.len());
    lemma_order_complete(b, l);
    assert(o.contains(id));
    let i = choose|i: int| 0 <= i < o.len() && o[i] == id;
    assert(line[i] == b[o[i]]);
    lemma_merge_stores(d, line, relay, line.len(), i);
}

proof fn lemma_batch_ids(txs: Seq<TxView>, n: nat)
    requires
        n <= txs.len(),
    ensures
        batch_of(txs, n).dom().finite(),
        forall|k: TxHash| #[trigger]
            batch_of(txs, n).contains_key(k) ==> batch_of(txs, n)[k].id == k,
    decreases n,
{
    if n > 0 {
        lemma_batch_ids(txs, (n - 1) as nat);
    }
}

/// What the first `n` transfers of a merge have done to the vertex `id`: one that was
/// stored keeps its body and its mark; a new one is a transfer of the line, marked with the
/// carrier unless it is genesis.
spec fn carried(d: DagView, txs: Seq<TxView>, relay: Address, n: nat, id: TxHash) -> bool {
    let now = d.merge_steps(txs, relay, n).dag;
    if d.graph.vertices.contains_key(id) {
        &&& now.graph.vertices.contains_key(id)
        &&& now.graph.vertices[id] == d.graph.vertices[id]
        &&& now.relay_of.contains_key(id) == d.relay_of.contains_key(id)
        &&& now.relay_of[id] == d.relay_of[id]
    } else {
        now.graph.vertices.contains_key(id) ==> exists|i: int|
            {
                &&& 0 <= i < n
                &&& (#[trigger] txs[i]).id == id
                &&& now.graph.vertices[id] == txs[i]
                &&& !txs[i].is_genesis() ==> now.relay_of.contains_key(id) && now.relay_of[id]
                    == relay
            }
    }
}

proof fn lemma_merge_carries(d: DagView, txs: Seq<TxView>, relay: Address, n: nat, id: TxHash)
    requires
        n <= txs.len(),
    ensures
        carried(d, txs, relay, n, id),
    decreases n,
{
    if n > 0 {
        lemma_merge_carries(d, txs, relay, (n - 1) as nat, id);
        let before = d.merge_steps(txs, relay, (n - 1) as nat).dag;
        let now = d.merge_steps(txs, relay, n).dag;
        let t = txs[n - 1];
        if !d.graph.vertices.contains_key(id) && now.graph.vertices.contains_key(id) {
            if before.graph.vertices.contains_key(id) {
                let i = choose|i: int|
                    {
                        &&& 0 <= i < n - 1
                        &&& (#[trigger] txs[i]).id == id
                        &&& before.graph.vertices[id] == txs[i]
                        &&& !txs[i].is_genesis() ==> before.relay_of.contains_key(id)
                            && before.relay_of[id] == relay
                    };
                assert(txs[i].id == id);
                assert(now.graph.vertices[id] == txs[i]);
            } else {
                assert(txs[n - 1].id == id);
            }
        }
    }
}

proof fn lemma_merge_grows(d: DagView, txs: Seq<TxView>, relay: Address, n: nat)
    requires
        n <= txs.len(),
        d.graph.vertices.dom().finite(),
        d.merge_steps(txs, relay, n).inserted < u32::MAX,
    ensures
        ({
            let run = d.merge_steps(txs, relay, n);
            &&& run.dag.graph.vertices.dom().finite()
            &&& run.dag.graph.vertices.dom().len() == d.graph.vertices.dom().len() + run.inserted
        }),
    decreases n,
{
    if n > 0 {
        lemma_merge_grows(d, txs, relay, (n - 1) as nat);
        let before = d.merge_steps(txs, relay, (n - 1) as nat).dag;
        let now = d.merge_steps(txs, relay, n).dag;
        let t = txs[n - 1];
        if now.graph.vertices != before.graph.vertices {
            assert(now.graph.vertices.dom() =~= before.graph.vertices.dom().insert(t.id));
        }
    }
}

/// The number that a merge returns is the number of vertices that the graph grew by,
/// short of the largest number.
pub proof fn law_merge_counts_growth(
    d: DagView,
    txs: Seq<TxView>,
    relay: Address,
    after: DagView,
    n: u32,
)
    requires
        d.graph.sound(),
        d.merge_outcome(txs, relay, after, Ok(n)),
        n < u32::MAX,
    ensures
        after.graph.vertices.dom().len() == d.graph.vertices.dom().len() + n,
{
    let b = batch_of(txs, txs.len());
    let line = batch_bodies(b, incoming_order(b, d.graph.vertices.dom()));
    lemma_merge_grows(d, line, relay, line.len());
}

/// A merge leaves every stored vertex and its mark alone. Each vertex that it adds comes
/// from the batch, and is marked with the carrier unless it is genesis.
pub proof fn law_merge_marks_the_carrier(
    d: DagView,
    txs: Seq<TxView>,
    relay: Address,
    after: DagView,
    n: u32,
    id: TxHash,
)
    requires
        d.merge_outcome(txs, relay, after, Ok(n)),
    ensures
        d.graph.vertices.contains_key(id) ==> {
            &&& after.graph.vertices.contains_key(id)
            &&& after.graph.vertices[id] == d.graph.vertices[id]
            &&& after.relay_of.contains_key(id) == d.relay_of.contains_key(id)
            &&& after.relay_of[id] == d.relay_of[id]
        },
        after.graph.vertices.contains_key(id) && !d.graph.vertices.contains_key(id) ==> {
            &&& batch_of(txs, txs.len()).contains_key(id)
            &&& after.graph.vertices[id] == batch_of(txs, txs.len())[id]
            &&& !after.graph.vertices[id].is_genesis() ==> after.relay_of.contains_key(id)
                && after.relay_of[id] == relay
        },
{
    let b = batch_of(txs, txs.len());
    let l = d.graph.vertices.dom();
    let o = incoming_order(b, l);
    let line = batch_bodies(b, o);
    lemma_batch_ids(txs, txs.len());
    lemma_merge_carries(d, line, relay, line.len(), id);
    if after.graph.vertices.contains_key(id) && !d.graph.vertices.contains_key(id) {
        let i = choose|i: int|
            {
                &&& 0 <= i < line.len()
                &&& (#[trigger] line[i]).id == id
                &&& after.graph.vertices[id] == line[i]
                &&& !line[i].is_genesis() ==> after.relay_of.contains_key(id)
                    && after.relay_of[id] == relay
            };
        assert(line[i].id == id);
        crate::dag::ordering::law_parents_come_first(b, l, i, NULL_PARENT);
        assert(line[i] == b[o[i]]);
    }
}

/// Merging the same batch again, with whatever carrier, stores nothing and changes
/// nothing: no ledger entry, no vertex, no mark.
pub proof fn law_merge_is_idempotent(
    d: DagView,
    txs: Seq<TxView>,
    relay: Address,
    after: DagView,
    n: u32,
    other: Address,
    again: DagView,
    r: Result<u32, SyncError>,
)
    requires
        d.merge_outcome(txs, relay, after, Ok(n)),
        after.merge_outcome(txs, other, again, r),
    ensures
        again == after,
        r == Ok::<u32, SyncError>(0),
{
    let b = batch_of(txs, txs.len());
    let l = d.graph.vertices.dom();
    let m = after.graph.vertices.dom();
    lemma_batch_ids(txs, txs.len());
    assert forall|k: TxHash| b.contains_key(k) implies m.contains(k) by {
        law_merge_stores_batch(d, txs, relay, after, n, k);
    }
    assert forall|k: TxHash| l.contains(k) implies m.contains(k) by {
        let line = batch_bodies(b, incoming_order(b, l));
        lemma_merge_keeps(d, line, relay, line.len(), k);
    }
    assert(all_known(b, m)) by {
        assert forall|k: TxHash, p: TxHash| !(#[trigger] absent(b, m, k, p)) by {
            if absent(b, m, k, p) {
                assert(absent(b, l, k, p));
            }
        }
    }
    assert forall|k: TxHash, p: TxHash| !(#[trigger] depends(b, m, k, p)) by {}
    crate::dag::ordering::lemma_order_of_stored(b, m);
    let line = batch_bodies(b, incoming_order(b, m));
    assert forall|i: int| 0 <= i < line.len() implies m.contains((#[trigger] line[i]).id) by {
        crate::dag::ordering::law_parents_come_first(b, m, i, NULL_PARENT);
        assert(line[i] == b[incoming_order(b, m)[i]]);
    }
    lemma_merge_passes_over(after, line, other, line.len());
}

proof fn lemma_bodies_of_stored(g: GraphView, ids: Seq<TxHash>)
    requires
        forall|i: int| 0 <= i < ids.len() ==> g.vertices.contains_key(#[trigger] ids[i]),
    ensures
        bodies(g, ids) == ids.map_values(|id: TxHash| g.vertices[id]),
    decreases ids.len(),
{
    if ids.len() > 0 {
        let head = ids.drop_last();
        assert forall|i: int| 0 <= i < head.len() implies g.vertices.contains_key(
            #[trigger] head[i],
        ) by {
            assert(g.vertices.contains_key(ids[i]));
        }
        lemma_bodies_of_stored(g, head);
        assert(g.vertices.contains_key(ids[ids.len() - 1]));
    }
    assert(bodies(g, ids) =~= ids.map_values(|id: TxHash| g.vertices[id]));
}

proof fn lemma_batch_members(txs: Seq<TxView>, n: nat, id: TxHash)
    requires
        n <= txs.len(),
    ensures
        batch_of(txs, n).contains_key(id) <==> exists|i: int|
            0 <= i < n && (#[trigger] txs[i]).id == id,
    decreases n,
{
    if n > 0 {
        lemma_batch_members(txs, (n - 1) as nat, id);
        if txs[n - 1].id != id && batch_of(txs, n).contains_key(id) {
            let i = choose|i: int| 0 <= i < n - 1 && (#[trigger] txs[i]).id == id;
            assert(txs[i].id == id);
        }
    }
}

/// A finite set within a bound is advertised whole.
proof fn lemma_leading_whole(s: Set<TxHash>, n: int)
    requires
        s.finite(),
        s.len() <= n,
    ensures
        leading(ordered(s), n) == ordered(s),
        ordered(s).to_set() == s,
        ordered(s).len() == s.len(),
{
    lemma_ordered_set(s);
    lemma_ascending_distinct(ordered(s));
    ordered(s).unique_seq_to_set();
}

/// What the recent hashes of a graph within the walk bound are among.
proof fn lemma_recent_is_stored(g: GraphView)
    requires
        g.sound(),
        g.vertices.dom().len() <= ANCESTOR_WALK_BOUND,
    ensures
        g.tips.subset_of(g.vertices.dom()),
        recent_of(g).subset_of(g.vertices.dom()),
{
    assert forall|x: TxHash| recent_of(g).contains(x) implies g.vertices.dom().contains(x) by {
        let t = choose|t: TxHash| g.tips.contains(t) && #[trigger] closure_of(g, t).contains(x);
        law_walk_stays_stored(g, t);
    }
}

proof fn lemma_listed_is_stored(g: GraphView, h: TxHash)
    requires
        g.sound(),
        g.vertices.dom().len() <= ANCESTOR_WALK_BOUND,
        advertised_tips(g).to_set().union(advertised_recent(g).to_set()).contains(h),
    ensures
        g.vertices.contains_key(h),
{
    lemma_recent_is_stored(g);
    vstd::set_lib::lemma_len_subset(g.tips, g.vertices.dom());
    vstd::set_lib::lemma_len_subset(recent_of(g), g.vertices.dom());
    lemma_leading_whole(g.tips, MAX_INVENTORY_HASHES as int);
    lemma_leading_whole(recent_of(g), MAX_INVENTORY_HASHES - advertised_tips(g).len());
}

proof fn lemma_batch_bodies(txs: Seq<TxView>, n: nat, id: TxHash)
    requires
        n <= txs.len(),
        batch_of(txs, n).contains_key(id),
    ensures
        exists|i: int| 0 <= i < n && (#[trigger] txs[i]).id == id && txs[i] == batch_of(txs, n)[id],
    decreases n,
{
    if n > 0 {
        let before = batch_of(txs, (n - 1) as nat);
        if before.contains_key(id) {
            lemma_batch_bodies(txs, (n - 1) as nat, id);
            let i = choose|i: int| 0 <= i < n - 1 && (#[trigger] txs[i]).id == id && txs[i] == before[id];
            assert(txs[i].id == id && txs[i] == batch_of(txs, n)[id]);
        } else {
            assert(txs[n - 1].id == id);
        }
    }
}

proof fn lemma_inserted_bound(d: DagView, txs: Seq<TxView>, relay: Address, n: nat)
    ensures
        d.merge_steps(txs, relay, n).inserted <= n,
    decreases n,
{
    if n > 0 {
        lemma_inserted_bound(d, txs, relay, (n - 1) as nat);
    }
}

/// The inventory of a graph within the walk bound lists every vertex but genesis.
pub proof fn law_small_inventory_is_complete(g: GraphView, h: TxHash)
    requires
        g.sound(),
        g.vertices.dom().len() <= ANCESTOR_WALK_BOUND,
        g.vertices.contains_key(h),
        h != g.genesis_id(),
        h != NULL_PARENT,
    ensures
        advertised_tips(g).to_set().union(advertised_recent(g).to_set()).contains(h),
{
    let all = g.vertices.dom();
    let recent = recent_of(g);
    lemma_recent_is_stored(g);
    vstd::set_lib::lemma_len_subset(g.tips, all);
    vstd::set_lib::lemma_len_subset(recent, all);
    lemma_leading_whole(g.tips, MAX_INVENTORY_HASHES as int);
    lemma_leading_whole(recent, MAX_INVENTORY_HASHES - advertised_tips(g).len());
    let t = law_tips_reach_everything(g, h);
    assert(recent.contains(h));
    assert(ordered(recent).to_set().contains(h));
}

/// One round of Have/Need with a remote within the walk bound, on the same genesis: where
/// it succeeds, nothing is dropped. The vertices are those of both sides, each with the
/// body that its side had, and the number returned is that of the remote's vertices which
/// were not stored.
pub proof fn law_exchange_gives_the_union(
    local: DagView,
    remote: DagView,
    listed: Set<TxHash>,
    carrier: Address,
    after: DagView,
    n: u32,
)
    requires
        local.graph.sound(),
        remote.graph.sound(),
        local.graph.order.len() > 0,
        local.graph.genesis_id() == remote.graph.genesis_id(),
        remote.graph.vertices.dom().len() <= ANCESTOR_WALK_BOUND,
        !remote.graph.vertices.contains_key(NULL_PARENT),
        listed == advertised_tips(remote.graph).to_set().union(
            advertised_recent(remote.graph).to_set(),
        ),
        local.merge_outcome(
            bodies(remote.graph, ordered(needed(local.graph, listed))),
            carrier,
            after,
            Ok(n),
        ),
    ensures
        after.graph.vertices.dom() == local.graph.vertices.dom().union(
            remote.graph.vertices.dom(),
        ),
        forall|id: TxHash| #[trigger]
            after.graph.vertices.contains_key(id) ==> after.graph.vertices[id] == (
            if local.graph.vertices.contains_key(id) {
                local.graph.vertices[id]
            } else {
                remote.graph.vertices[id]
            }),
        n == remote.graph.vertices.dom().difference(local.graph.vertices.dom()).len(),
{
    let g = remote.graph;
    let l = local.graph.vertices.dom();
    let news = g.vertices.dom().difference(l);
    let need = needed(local.graph, listed);
    assert(local.graph.vertices.contains_key(local.graph.genesis_id())) by {
        assert(local.graph.order.contains(local.graph.order[0]));
    }
    assert(need =~= news) by {
        assert forall|h: TxHash| need.contains(h) == news.contains(h) by {
            if news.contains(h) {
                law_small_inventory_is_complete(g, h);
            }
            if need.contains(h) {
                lemma_listed_is_stored(g, h);
            }
        }
    }
    vstd::set_lib::lemma_len_subset(news, g.vertices.dom());
    lemma_ordered_set(need);
    lemma_ascending_distinct(ordered(need));
    let ids = ordered(need);
    assert forall|i: int| 0 <= i < ids.len() implies g.vertices.contains_key(#[trigger] ids[i]) by {
        assert(ids.to_set().contains(ids[i]));
    }
    lemma_bodies_of_stored(g, ids);
    let txs = bodies(g, ids);
    let b = batch_of(txs, txs.len());
    lemma_batch_ids(txs, txs.len());
    assert forall|id: TxHash| b.contains_key(id) == news.contains(id) by {
        lemma_batch_members(txs, txs.len(), id);
        if b.contains_key(id) {
            let i = choose|i: int| 0 <= i < txs.len() && (#[trigger] txs[i]).id == id;
            assert(txs[i] == g.vertices[ids[i]]);
            assert(g.vertices.contains_key(ids[i]));
            assert(ids.to_set().contains(ids[i]));
        }
        if news.contains(id) {
            assert(ids.to_set().contains(id));
            let i = choose|i: int| 0 <= i < ids.len() && ids[i] == id;
            assert(txs[i] == g.vertices[ids[i]]);
            assert(txs[i].id == id);
        }
    }
    assert forall|id: TxHash| b.contains_key(id) implies b[id] == g.vertices[id] by {
        lemma_batch_bodies(txs, txs.len(), id);
        let i = choose|i: int| 0 <= i < txs.len() && (#[trigger] txs[i]).id == id && txs[i] == b[id];
        assert(txs[i] == g.vertices[ids[i]]);
        assert(g.vertices.contains_key(ids[i]));
    }
    assert forall|id: TxHash| #[trigger]
        after.graph.vertices.contains_key(id) == l.union(g.vertices.dom()).contains(id) by {
        law_merge_marks_the_carrier(local, txs, carrier, after, n, id);
        if news.contains(id) {
            law_merge_stores_batch(local, txs, carrier, after, n, id);
        }
    }
    assert(after.graph.vertices.dom() =~= l.union(g.vertices.dom()));
    assert forall|id: TxHash| #[trigger] after.graph.vertices.contains_key(id) implies after.graph.vertices[id]
        == (if local.graph.vertices.contains_key(id) {
        local.graph.vertices[id]
    } else {
        remote.graph.vertices[id]
    }) by {
        law_merge_marks_the_carrier(local, txs, carrier, after, n, id);
    }
    let o = incoming_order(b, l);
    let line = batch_bodies(b, o);
    assert(b.dom() =~= news);
    lemma_inserted_bound(local, line, carrier, line.len());
    lemma_order_length(b, l);
    law_merge_counts_growth(local, txs, carrier, after, n);
    vstd::set_lib::lemma_set_disjoint_lens(l, news);
    assert(l + news =~= l.union(g.vertices.dom()));
}

} // verus!
