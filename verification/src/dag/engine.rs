//! In-memory KRON mesh DAG: tips, cumulative weights, and a local ledger.

use rand::rngs::StdRng;
use rand::{Rng, SeedableRng};
use vstd::prelude::*;

use crate::bytes::{append, be_value, le_bytes, lemma_array_view_eq, lemma_le_bytes_len, less, put_u64,
    same};
use crate::crypto::lattice::{address_of, mldsa_keypair, secret_usable, CryptoError, LatticeKeyPair};
use crate::crypto::mobile_only::{enforce_real_mobile, HostObservation};
use crate::dag::error::DagError;
use crate::dag::model::{amount_at, bumped, capped_add, climb, kids_at, law_attach_keeps_sound,
    lemma_spend_key_injective, lemma_winner_unique, parents_in, real_parents, relay_payout,
    spend_key_of, with_child, with_tip, DagView, GraphView, LedgerView, ReplayView,
    ANCESTOR_WALK_BOUND};
use crate::dag::tx::{assembled, distinct, holds_address, DagTransaction, TxHash, TxView,
    GENESIS_SEED, NULL_PARENT};
use crate::dag::weights::{law_weight_counts_approvers, lemma_blank_is_weighed};
use crate::economics::{dag_miner_share_of, get_current_tx_subsidy, EconomicError,
    FIXED_TRANSACTION_FEE, HARD_CAP};
use crate::kron::wallet::KronKeypair;
use crate::table::{ascending, KeySet, Table};
use crate::types::Address;

verus! {

/// Local mesh DAG. Phones attach signed vertices; there are no blocks.
pub struct KronDAG {
    vertices: Table<32, DagTransaction>,
    children: Table<32, KeySet<32>>,
    tips: KeySet<32>,
    /// Own weight 1 plus one per future approver.
    weights: Table<32, u64>,
    balances: Table<32, u64>,
    next_nonce: Table<32, u64>,
    genesis_id: Option<TxHash>,
    /// The phone that carried each merged vertex.
    relay_of: Table<32, Address>,
    /// Accrued relay share per carrier.
    relay_credits: Table<32, u64>,
    /// Minted supply (subsidy only; faucet credits do not count).
    pub current_supply: u64,
    /// Confirmed user vertices on this graph.
    pub dag_tx_count: u64,
    /// Attach order (genesis first).
    attach_order: Vec<TxHash>,
    /// Bootstrap credits, the baseline of a ledger rebuild.
    faucet: Table<32, u64>,
    /// Stored vertices without ledger effect, each with its winner.
    conflicts: Table<32, TxHash>,
}

/// The transfers of a vertex table as mathematical data.
pub open spec fn tx_views(m: Map<TxHash, DagTransaction>) -> Map<TxHash, TxView> {
    m.map_values(|t: DagTransaction| t@)
}

/// The child sets of a table as mathematical data.
pub open spec fn set_views(m: Map<TxHash, KeySet<32>>) -> Map<TxHash, Set<TxHash>> {
    m.map_values(|s: KeySet<32>| s@)
}

impl View for KronDAG {
    type V = DagView;

    closed spec fn view(&self) -> DagView {
        DagView {
            graph: GraphView {
                vertices: tx_views(self.vertices@),
                children: set_views(self.children@),
                tips: self.tips@,
                weights: self.weights@,
                genesis: self.genesis_id,
                order: self.attach_order@,
            },
            ledger: LedgerView {
                balances: self.balances@,
                nonces: self.next_nonce@,
                relay_credits: self.relay_credits@,
                supply: self.current_supply,
                count: self.dag_tx_count,
            },
            relay_of: self.relay_of@,
            faucet: self.faucet@,
            conflicts: self.conflicts@,
        }
    }
}

impl KronDAG {
    /// The representation is in order.
    pub closed spec fn tables_wf(&self) -> bool {
        &&& self.vertices.wf()
        &&& self.children.wf()
        &&& forall|h: TxHash| #[trigger]
            self.children@.contains_key(h) ==> self.children@[h].wf()
        &&& self.tips.wf()
        &&& self.weights.wf()
        &&& self.balances.wf()
        &&& self.next_nonce.wf()
        &&& self.relay_of.wf()
        &&& self.relay_credits.wf()
        &&& self.faucet.wf()
        &&& self.conflicts.wf()
    }

    /// The representation is in order and the graph is sound.
    pub open spec fn wf(&self) -> bool {
        self.tables_wf() && self@.graph.sound()
    }

    pub fn new() -> (r: Self)
        ensures
            r.wf(),
            r@ == DagView::blank(),
    {
        let r = KronDAG {
            vertices: Table::new(),
            children: Table::new(),
            tips: KeySet::new(),
            weights: Table::new(),
            balances: Table::new(),
            next_nonce: Table::new(),
            genesis_id: None,
            relay_of: Table::new(),
            relay_credits: Table::new(),
            current_supply: 0,
            dag_tx_count: 0,
            attach_order: Vec::new(),
            faucet: Table::new(),
            conflicts: Table::new(),
        };
        assert(tx_views(r.vertices@) =~= Map::<TxHash, TxView>::empty());
        assert(set_views(r.children@) =~= Map::<TxHash, Set<TxHash>>::empty());
        proof {
            lemma_blank_is_weighed(r@.graph);
        }
        r
    }

    pub fn genesis_id(&self) -> (r: TxHash)
        ensures
            r == self@.graph.genesis_id(),
    {
        match self.genesis_id {
            Some(g) => g,
            None => NULL_PARENT,
        }
    }

    pub fn vertex_count(&self) -> (r: usize)
        requires
            self.wf(),
        ensures
            r == self@.graph.vertices.dom().len(),
    {
        assert(tx_views(self.vertices@).dom() =~= self.vertices@.dom());
        self.vertices.len()
    }

    pub fn tips(&self) -> (r: &KeySet<32>)
        requires
            self.wf(),
        ensures
            r@ == self@.graph.tips,
            r.wf(),
    {
        &self.tips
    }

    pub fn get(&self, id: &TxHash) -> (r: Option<&DagTransaction>)
        requires
            self.wf(),
        ensures
            match r {
                Some(tx) => self@.graph.vertices.contains_key(*id) && tx@
                    == self@.graph.vertices[*id],
                None => !self@.graph.vertices.contains_key(*id),
            },
    {
        self.vertices.get(id)
    }

    pub fn contains(&self, id: &TxHash) -> (r: bool)
        requires
            self.wf(),
        ensures
            r == self@.graph.vertices.contains_key(*id),
    {
        self.vertices.contains_key(id)
    }

    /// All vertex ids, genesis among them.
    pub fn vertex_set(&self) -> (r: KeySet<32>)
        requires
            self.wf(),
        ensures
            r.wf(),
            r@ == self@.graph.vertices.dom(),
    {
        let r = self.vertices.key_set();
        assert(tx_views(self.vertices@).dom() =~= self.vertices@.dom());
        r
    }

    /// The phone that carried an imported vertex, if any.
    pub fn relay_node(&self, id: &TxHash) -> (r: Option<Address>)
        requires
            self.wf(),
        ensures
            r == (if self@.relay_of.contains_key(*id) {
                Some(self@.relay_of[*id])
            } else {
                None
            }),
    {
        match self.relay_of.get(id) {
            Some(a) => Some(*a),
            None => None,
        }
    }

    /// Accrued relay share of a carrier.
    pub fn relay_credit(&self, relay: &Address) -> (r: u64)
        requires
            self.wf(),
        ensures
            r == amount_at(self@.ledger.relay_credits, *relay),
    {
        self.relay_credits.get_or(relay, 0)
    }

    /// Confirmed user vertices on this graph.
    pub fn global_tx_count(&self) -> (r: u64)
        ensures
            r == self@.ledger.count,
    {
        self.dag_tx_count
    }

    /// Minted supply on this graph.
    pub fn supply(&self) -> (r: u64)
        ensures
            r == self@.ledger.supply,
    {
        self.current_supply
    }

    /// One, and one more per approver, until the graph outgrows the walk bound; nothing
    /// for a vertex that is not stored.
    pub fn cumulative_weight(&self, id: &TxHash) -> (r: u64)
        requires
            self.wf(),
        ensures
            r == amount_at(self@.graph.weights, *id),
            !self@.graph.vertices.contains_key(*id) ==> r == 0,
            self@.graph.vertices.contains_key(*id) && self@.graph.order.len() <= ANCESTOR_WALK_BOUND
                + 1 ==> r == 1 + self@.graph.approvers(*id).len(),
    {
        proof {
            if self@.graph.vertices.contains_key(*id) && self@.graph.order.len()
                <= ANCESTOR_WALK_BOUND + 1 {
                law_weight_counts_approvers(self@.graph, *id);
            }
            assert(self@.graph.weights.contains_key(*id) <==> self@.graph.vertices.contains_key(*id));
        }
        self.weights.get_or(id, 0)
    }

    pub fn balance(&self, address: &Address) -> (r: u64)
        requires
            self.wf(),
        ensures
            r == self@.ledger.balance(*address),
    {
        self.balances.get_or(address, 0)
    }

    pub fn next_nonce(&self, address: &Address) -> (r: u64)
        requires
            self.wf(),
        ensures
            r == self@.ledger.nonce(*address),
    {
        self.next_nonce.get_or(address, 0)
    }

    /// The approvers of a vertex, in ascending order.
    pub fn children_of(&self, id: &TxHash) -> (r: Vec<TxHash>)
        requires
            self.wf(),
        ensures
            r@.to_set() == kids_at(self@.graph.children, *id),
            crate::table::ascending(r@),
    {
        match self.children.get(id) {
            Some(kids) => kids.to_vec(),
            None => {
                let none: Vec<TxHash> = Vec::new();
                assert(none@.to_set() =~= Set::<TxHash>::empty());
                none
            },
        }
    }

    pub fn has_children(&self, id: &TxHash) -> (r: bool)
        requires
            self.wf(),
        ensures
            r == (kids_at(self@.graph.children, *id) != Set::<TxHash>::empty()),
    {
        match self.children.get(id) {
            Some(kids) => !kids.is_empty(),
            None => false,
        }
    }

    /// Stored and excluded from the ledger.
    pub fn is_conflict(&self, id: &TxHash) -> (r: bool)
        requires
            self.wf(),
        ensures
            r == self@.conflicts.contains_key(*id),
    {
        self.conflicts.contains_key(id)
    }

    /// The winner over a stored loser, if the vertex lost.
    pub fn conflict_winner(&self, loser: &TxHash) -> (r: Option<TxHash>)
        requires
            self.wf(),
        ensures
            r == (if self@.conflicts.contains_key(*loser) {
                Some(self@.conflicts[*loser])
            } else {
                None
            }),
    {
        match self.conflicts.get(loser) {
            Some(w) => Some(*w),
            None => None,
        }
    }

    /// Upward walk from `start`, bounded: the visited vertices, and the first
    /// one that the bound kept out.
    fn climb_from(&self, start: Vec<TxHash>) -> (r: (KeySet<32>, Option<TxHash>))
        requires
            self.tables_wf(),
        ensures
            r.0.wf(),
            (r.0@, r.1) == climb(self@.graph.vertices, start@, Set::empty(), 0),
    {
        let ghost first = start@;
        let mut stack = start;
        let mut seen: KeySet<32> = KeySet::new();
        let mut steps: usize = 0;
        let ghost v = self@.graph.vertices;
        let ghost goal = climb(v, first, Set::empty(), 0);
        loop
            invariant
                self.tables_wf(),
                v == self@.graph.vertices,
                seen.wf(),
                steps <= ANCESTOR_WALK_BOUND,
                first == start@,
                goal == climb(v, first, Set::empty(), 0),
                climb(v, stack@, seen@, steps as nat) == goal,
            decreases ANCESTOR_WALK_BOUND - steps, stack@.len(),
        {
            let h = match stack.pop() {
                Some(h) => h,
                None => {
                    return (seen, None);
                },
            };
            if seen.contains(&h) {
                continue;
            }
            if steps >= ANCESTOR_WALK_BOUND {
                return (seen, Some(h));
            }
            steps += 1;
            seen.insert(h);
            let ghost rest = stack@;
            if let Some(tx) = self.vertices.get(&h) {
                assert(v[h] == tx@);
                if !same(&tx.parent_1, &NULL_PARENT) {
                    stack.push(tx.parent_1);
                }
                if !same(&tx.parent_2, &NULL_PARENT) && !same(&tx.parent_2, &tx.parent_1) {
                    stack.push(tx.parent_2);
                }
            }
            assert(stack@ =~= rest + parents_in(v, h));
        }
    }

    /// All vertices reachable by walking parents from `id`, `id` included.
    pub fn parent_closure(&self, id: TxHash) -> (r: KeySet<32>)
        requires
            self.wf(),
        ensures
            r.wf(),
            r@ == closure_of(self@.graph, id),
    {
        let mut start: Vec<TxHash> = Vec::new();
        start.push(id);
        assert(start@ =~= seq![id]);
        let (mut seen, over) = self.climb_from(start);
        if let Some(h) = over {
            seen.insert(h);
        }
        seen
    }

    fn bump_weights(&mut self, s: &KeySet<32>)
        requires
            old(self).tables_wf(),
            s.wf(),
        ensures
            final(self).tables_wf(),
            final(self)@ == (DagView {
                graph: GraphView {
                    weights: bumped(old(self)@.graph.weights, s@),
                    ..old(self)@.graph
                },
                ..old(self)@
            }),
    {
        let ghost w0 = self.weights@;
        let ghost list = s.listing();
        proof {
            s.lemma_listing();
        }
        let n: usize = s.len();
        let mut i: usize = 0;
        assert(bumped(w0, list.take(0).to_set()) =~= w0);
        while i < n
            invariant
                n == list.len(),
                i <= n,
                list == s.listing(),
                list.no_duplicates(),
                self.tables_wf(),
                self@ == (DagView {
                    graph: GraphView { weights: self.weights@, ..old(self)@.graph },
                    ..old(self)@
                }),
                w0 == old(self)@.graph.weights,
                self.weights@ == bumped(w0, list.take(i as int).to_set()),
            decreases n - i,
        {
            let h = s.at(i);
            let ghost before = list.take(i as int).to_set();
            proof {
                assert(list.take(i + 1) =~= list.take(i as int).push(h));
                list.take(i as int).lemma_push_to_set_commute(h);
                assert(!before.contains(h)) by {
                    if before.contains(h) {
                        let k = choose|k: int| 0 <= k < i && list.take(i as int)[k] == h;
                        assert(list[k] == list[i as int]);
                    }
                }
            }
            if let Some(w) = self.weights.get(&h) {
                let up: u64 = w.saturating_add(1);
                self.weights.insert(h, up);
            }
            i += 1;
            assert(self.weights@ =~= bumped(w0, list.take(i as int).to_set()));
        }
        assert(list.take(i as int) =~= list);
    }

    fn note_child(&mut self, parent: TxHash, child: TxHash)
        requires
            old(self).tables_wf(),
            parent != NULL_PARENT,
        ensures
            final(self).tables_wf(),
            final(self)@ == (DagView {
                graph: GraphView {
                    children: old(self)@.graph.children.insert(
                        parent,
                        kids_at(old(self)@.graph.children, parent).insert(child),
                    ),
                    tips: old(self)@.graph.tips.remove(parent),
                    ..old(self)@.graph
                },
                ..old(self)@
            }),
    {
        let ghost ch0 = self.children@;
        let mut kids: KeySet<32> = match self.children.remove(&parent) {
            Some(k) => k,
            None => KeySet::new(),
        };
        assert(kids@ == kids_at(set_views(ch0), parent));
        kids.insert(child);
        self.children.insert(parent, kids);
        self.tips.remove(&parent);
        proof {
            assert(set_views(self.children@) =~= set_views(ch0).insert(
                parent,
                kids_at(set_views(ch0), parent).insert(child),
            ));
        }
    }

    /// Puts a vertex into the graph; the ledger is not touched.
    fn insert_vertex(&mut self, tx: DagTransaction)
        requires
            old(self).tables_wf(),
        ensures
            final(self).tables_wf(),
            final(self)@ == (DagView { graph: old(self)@.graph.with(tx@), ..old(self)@ }),
    {
        let id = tx.id;
        let p1 = tx.parent_1;
        let p2 = tx.parent_2;
        let is_genesis = tx.is_genesis();
        let ghost t = tx@;
        let ghost g0 = self@.graph;
        let ghost v0 = self.vertices@;
        let ghost ch0 = self.children@;
        self.vertices.insert(id, tx);
        self.attach_order.push(id);
        self.weights.insert(id, 1);
        let empty: KeySet<32> = KeySet::new();
        self.children.insert(id, empty);
        self.tips.insert(id);
        proof {
            assert(tx_views(self.vertices@) =~= g0.vertices.insert(id, t));
            assert(set_views(self.children@) =~= g0.children.insert(id, Set::empty()));
        }
        if !same(&p1, &NULL_PARENT) {
            self.note_child(p1, id);
        }
        if !same(&p2, &NULL_PARENT) && !same(&p2, &p1) {
            self.note_child(p2, id);
        }
        proof {
            assert(self@.graph.tips =~= with_tip(g0.tips, id, p1, p2));
            assert(self@.graph.children =~= with_child(g0.children, id, p1, p2));
        }
        if is_genesis {
            self.genesis_id = Some(id);
        } else {
            let mut start: Vec<TxHash> = Vec::new();
            if !same(&p1, &NULL_PARENT) {
                start.push(p1);
            }
            if !same(&p2, &NULL_PARENT) && !same(&p2, &p1) {
                start.push(p2);
            }
            assert(start@ =~= real_parents(p1, p2));
            let (seen, _over) = self.climb_from(start);
            self.bump_weights(&seen);
        }
        assert(self@.graph =~= g0.with(t));
    }
}

/// The error of a result, if it holds one.
pub open spec fn failure<T>(r: Result<T, DagError>) -> Option<DagError> {
    match r {
        Ok(_) => None,
        Err(e) => Some(e),
    }
}

/// The carriers, each once, in order of first appearance.
fn unique_relays(nodes: &[Address]) -> (r: Vec<Address>)
    ensures
        r@ == distinct(nodes@),
{
    let mut out: Vec<Address> = Vec::new();
    let mut i: usize = 0;
    while i < nodes.len()
        invariant
            i <= nodes@.len(),
            out@ == distinct(nodes@.take(i as int)),
        decreases nodes@.len() - i,
    {
        let n = nodes[i];
        proof {
            assert(nodes@.take(i + 1).drop_last() =~= nodes@.take(i as int));
        }
        if !holds_address(&out, &n) {
            out.push(n);
        }
        i += 1;
    }
    assert(nodes@.take(i as int) =~= nodes@);
    out
}

impl KronDAG {
    /// Checked credit used by minting. A zero credit leaves no trace.
    pub fn credit_checked(&mut self, address: Address, amount: u64) -> (r: Result<
        (),
        EconomicError,
    >)
        requires
            old(self).tables_wf(),
        ensures
            final(self).tables_wf(),
            r is Ok <==> old(self)@.ledger.can_credit(address, amount),
            final(self)@ == (if r is Ok {
                DagView { ledger: old(self)@.ledger.credited(address, amount), ..old(self)@ }
            } else {
                old(self)@
            }),
    {
        if amount == 0 {
            return Ok(());
        }
        let have: u64 = self.balances.get_or(&address, 0);
        match have.checked_add(amount) {
            Some(sum) => {
                self.balances.insert(address, sum);
                Ok(())
            },
            None => Err(EconomicError::Overflow),
        }
    }

    fn pay_relays(&mut self, relays: &Vec<Address>, total: u64) -> (r: Result<(), EconomicError>)
        requires
            old(self).tables_wf(),
        ensures
            final(self).tables_wf(),
            (final(self)@.ledger, r is Ok) == old(self)@.ledger.relays_paid(relays@, 0, total),
            final(self)@ == (DagView { ledger: final(self)@.ledger, ..old(self)@ }),
    {
        let n: u64 = relays.len() as u64;
        let ghost goal = self@.ledger.relays_paid(relays@, 0, total);
        let mut i: usize = 0;
        while i < relays.len()
            invariant
                i <= relays@.len(),
                n == relays@.len(),
                self.tables_wf(),
                self@ == (DagView { ledger: self@.ledger, ..old(self)@ }),
                goal == old(self)@.ledger.relays_paid(relays@, 0, total),
                self@.ledger.relays_paid(relays@, i as nat, total) == goal,
            decreases relays@.len() - i,
        {
            let each: u64 = total / n;
            let dust: u64 = total % n;
            proof {
                assert(each + dust <= total) by (nonlinear_arith)
                    requires
                        n >= 1,
                        each == total / n,
                        dust == total % n,
                ;
            }
            let amount: u64 = if i == 0 { each + dust } else { each };
            assert(amount == relay_payout(relays@.len(), i as nat, total));
            let a = relays[i];
            match self.credit_checked(a, amount) {
                Ok(()) => {},
                Err(e) => {
                    return Err(e);
                },
            }
            let accrued: u64 = self.relay_credits.get_or(&a, 0);
            match accrued.checked_add(amount) {
                Some(sum) => {
                    self.relay_credits.insert(a, sum);
                },
                None => {
                    self.relay_credits.insert(a, accrued);
                    return Err(EconomicError::Overflow);
                },
            }
            i += 1;
        }
        Ok(())
    }

    /// Credits `(subsidy + fee)` for a confirmed vertex: 80% to the miner, the
    /// rest to the relays, all of it to the miner without relays.
    pub fn mint_confirmed_tx(&mut self, fee: u64, miner: Address, relay_nodes: &[Address]) -> (r:
        Result<(), EconomicError>)
        requires
            old(self).tables_wf(),
        ensures
            final(self).tables_wf(),
            (final(self)@.ledger, r is Ok) == old(self)@.ledger.minted(fee, miner, relay_nodes@),
            final(self)@ == (DagView { ledger: final(self)@.ledger, ..old(self)@ }),
    {
        let subsidy: u64 = get_current_tx_subsidy(self.dag_tx_count, self.current_supply);
        let pool: u64 = match subsidy.checked_add(fee) {
            Some(p) => p,
            None => {
                return Err(EconomicError::Overflow);
            },
        };
        let miner_share: u64 = dag_miner_share_of(pool);
        let relay_total: u64 = pool - miner_share;
        let relays = unique_relays(relay_nodes);
        let miner_paid: u64 = if relays.len() == 0 { pool } else { miner_share };
        match self.credit_checked(miner, miner_paid) {
            Ok(()) => {},
            Err(e) => {
                return Err(e);
            },
        }
        let ghost mid = self@.ledger;
        match self.pay_relays(&relays, relay_total) {
            Ok(()) => {},
            Err(e) => {
                return Err(e);
            },
        }
        proof {
            lemma_relays_keep_counters(mid, relays@, 0, relay_total);
            if old(self)@.ledger.supply < HARD_CAP {
                crate::economics::law_subsidy_respects_cap(
                    old(self)@.ledger.count,
                    old(self)@.ledger.supply,
                );
            }
        }
        self.current_supply = self.current_supply + subsidy;
        match self.dag_tx_count.checked_add(1) {
            Some(c) => {
                self.dag_tx_count = c;
                Ok(())
            },
            None => Err(EconomicError::Overflow),
        }
    }

    fn check_parents(&self, tx: &DagTransaction) -> (r: Result<(), DagError>)
        requires
            self.tables_wf(),
        ensures
            failure(r) == self@.graph.parent_fault(tx@),
    {
        assert(tx_views(self.vertices@).dom() =~= self.vertices@.dom());
        if tx.is_genesis() {
            if self.vertices.len() > 0 {
                return Err(DagError::InvalidGenesis);
            }
            return Ok(());
        }
        if same(&tx.parent_1, &NULL_PARENT) || !self.vertices.contains_key(&tx.parent_1) {
            return Err(DagError::UnknownParent(tx.parent_1));
        }
        if same(&tx.parent_2, &NULL_PARENT) || !self.vertices.contains_key(&tx.parent_2) {
            return Err(DagError::UnknownParent(tx.parent_2));
        }
        Ok(())
    }

    /// Everything that is checked of a vertex before the ledger is asked.
    fn check_vertex(&self, tx: &DagTransaction) -> (r: Result<(), DagError>)
        requires
            self.tables_wf(),
        ensures
            failure(r) == self@.graph.vertex_fault(tx@),
    {
        if self.vertices.contains_key(&tx.id) {
            return Err(DagError::DuplicateTx(tx.id));
        }
        match self.check_parents(tx) {
            Ok(()) => {},
            Err(e) => {
                return Err(e);
            },
        }
        let due: u64 = if tx.is_genesis() { 0 } else { FIXED_TRANSACTION_FEE };
        if tx.fee != due {
            return Err(DagError::InvalidFee);
        }
        if !same(&tx.public_key.address(), &tx.sender) {
            return Err(DagError::AddressMismatch);
        }
        if !tx.verify_signature() {
            return Err(DagError::InvalidSignature);
        }
        if !tx.verify_relay_proofs() {
            return Err(DagError::InvalidRelayProof);
        }
        Ok(())
    }

    /// The balances of sender and recipient after the transfer, or why it does
    /// not apply.
    fn check_transfer(&self, tx: &DagTransaction) -> (r: Result<(u64, u64), DagError>)
        requires
            self.tables_wf(),
        ensures
            failure(r) == self@.ledger.transfer_fault(tx@),
            match r {
                Ok((from, to)) => if tx.sender == tx.recipient {
                    from == self@.ledger.balance(tx.sender) - tx.fee
                } else {
                    from == self@.ledger.balance(tx.sender) - tx.amount - tx.fee && to
                        == self@.ledger.balance(tx.recipient) + tx.amount
                },
                Err(_) => true,
            },
    {
        let expected: u64 = self.next_nonce.get_or(&tx.sender, 0);
        if tx.nonce != expected {
            return Err(DagError::DoubleSpend { nonce: tx.nonce });
        }
        let cost: u64 = match tx.amount.checked_add(tx.fee) {
            Some(c) => c,
            None => {
                return Err(DagError::Overflow);
            },
        };
        let from_bal: u64 = self.balances.get_or(&tx.sender, 0);
        if from_bal < cost {
            return Err(DagError::InsufficientBalance);
        }
        if same(&tx.sender, &tx.recipient) {
            let after_fee: u64 = from_bal - tx.fee;
            return Ok((after_fee, after_fee));
        }
        match self.balances.get_or(&tx.recipient, 0).checked_add(tx.amount) {
            Some(to) => Ok((from_bal - cost, to)),
            None => Err(DagError::Overflow),
        }
    }

    fn move_funds(&mut self, sender: Address, recipient: Address, from: u64, to: u64)
        requires
            old(self).tables_wf(),
        ensures
            final(self).tables_wf(),
            final(self)@ == (DagView {
                ledger: LedgerView {
                    balances: if sender == recipient {
                        old(self)@.ledger.balances.insert(sender, from)
                    } else {
                        old(self)@.ledger.balances.insert(sender, from).insert(recipient, to)
                    },
                    nonces: old(self)@.ledger.nonces.insert(
                        sender,
                        crate::dag::model::next_up(old(self)@.ledger.nonce(sender)),
                    ),
                    ..old(self)@.ledger
                },
                ..old(self)@
            }),
    {
        self.balances.insert(sender, from);
        if !same(&sender, &recipient) {
            self.balances.insert(recipient, to);
        }
        let expected: u64 = self.next_nonce.get_or(&sender, 0);
        self.next_nonce.insert(sender, expected.saturating_add(1));
    }

    /// Verifies and attaches a vertex, and mints for it where asked.
    fn attach_vertex_and_maybe_mint(
        &mut self,
        tx: DagTransaction,
        mint: bool,
        mint_relays: &[Address],
    ) -> (r: Result<(), DagError>)
        requires
            old(self).wf(),
        ensures
            final(self).wf(),
            (final(self)@, failure(r)) == old(self)@.attached(tx@, mint, mint_relays@),
    {
        match self.check_vertex(&tx) {
            Ok(()) => {},
            Err(e) => {
                return Err(e);
            },
        }
        let (from, to) = match self.check_transfer(&tx) {
            Ok(pair) => pair,
            Err(e) => {
                return Err(e);
            },
        };
        proof {
            law_attach_keeps_sound(self@.graph, tx@);
        }
        let ghost d0 = self@;
        let ghost t = tx@;
        let sender = tx.sender;
        let recipient = tx.recipient;
        let fee: u64 = tx.fee;
        let is_genesis = tx.is_genesis();
        self.insert_vertex(tx);
        self.move_funds(sender, recipient, from, to);
        assert(self@.ledger =~= d0.ledger.transferred(t));
        if mint && !is_genesis {
            match self.mint_confirmed_tx(fee, sender, mint_relays) {
                Ok(()) => {},
                Err(EconomicError::Overflow) => {
                    return Err(DagError::Overflow);
                },
            }
        }
        Ok(())
    }

    /// Inserts a signed vertex without touching the ledger.
    pub fn insert_graph_only(&mut self, tx: DagTransaction) -> (r: Result<(), DagError>)
        requires
            old(self).wf(),
        ensures
            final(self).wf(),
            (final(self)@, failure(r)) == old(self)@.stored(tx@),
    {
        match self.check_vertex(&tx) {
            Ok(()) => {},
            Err(e) => {
                return Err(e);
            },
        }
        proof {
            law_attach_keeps_sound(self@.graph, tx@);
        }
        self.insert_vertex(tx);
        Ok(())
    }

    /// Applies the ledger effects of a vertex: transfer, then mint.
    fn apply_ledger_effects(&mut self, tx: &DagTransaction, relays: &[Address]) -> (r: Result<
        (),
        DagError,
    >)
        requires
            old(self).tables_wf(),
        ensures
            final(self).tables_wf(),
            (final(self)@.ledger, failure(r)) == old(self)@.ledger.applied(tx@, relays@),
            final(self)@ == (DagView { ledger: final(self)@.ledger, ..old(self)@ }),
    {
        let (from, to) = match self.check_transfer(tx) {
            Ok(pair) => pair,
            Err(e) => {
                return Err(e);
            },
        };
        let ghost d0 = self@;
        self.move_funds(tx.sender, tx.recipient, from, to);
        assert(self@.ledger =~= d0.ledger.transferred(tx@));
        match self.mint_confirmed_tx(tx.fee, tx.sender, relays) {
            Ok(()) => Ok(()),
            Err(EconomicError::Overflow) => Err(DagError::Overflow),
        }
    }
}

/// The key of a sender's nonce slot.
fn spend_key(sender: &Address, nonce: u64) -> (r: [u8; 40])
    ensures
        r == spend_key_of(*sender, nonce),
        r@ == sender@ + le_bytes(nonce as nat, 8),
{
    broadcast use lemma_le_bytes_len;

    let mut buf: Vec<u8> = Vec::new();
    append(&mut buf, sender.as_slice());
    put_u64(&mut buf, nonce);
    assert(buf@ =~= sender@ + le_bytes(nonce as nat, 8));
    let mut out = [0u8; 40];
    let mut i: usize = 0;
    while i < 40
        invariant
            i <= 40,
            buf@.len() == 40,
            forall|j: int| 0 <= j < i ==> out@[j] == buf@[j],
        decreases 40 - i,
    {
        out[i] = buf[i];
        i += 1;
    }
    assert(out@ =~= buf@);
    proof {
        let c = spend_key_of(*sender, nonce);
        assert(c@ == out@);
        lemma_array_view_eq(c, out);
    }
    out
}

/// The slot key of a stored spend.
pub open spec fn slot(g: GraphView, id: TxHash) -> [u8; 40] {
    spend_key_of(g.vertices[id].sender, g.vertices[id].nonce)
}

/// Every slot that a spend of `ids` uses holds the best of them.
spec fn best_so_far(g: GraphView, best: Map<[u8; 40], TxHash>, ids: Seq<TxHash>) -> bool {
    &&& forall|i: int|
        0 <= i < ids.len() && g.spends(#[trigger] ids[i]) ==> {
            let k = slot(g, ids[i]);
            &&& k@ == g.vertices[ids[i]].sender@ + le_bytes(g.vertices[ids[i]].nonce as nat, 8)
            &&& best.contains_key(k)
            &&& best[k] == ids[i] || g.outranks(best[k], ids[i])
        }
    &&& forall|k: [u8; 40]| #[trigger]
        best.contains_key(k) ==> ids.contains(best[k]) && g.spends(best[k]) && slot(g, best[k]) == k
}

/// Every nonce slot in use holds its winner.
spec fn winners_known(g: GraphView, best: Map<[u8; 40], TxHash>) -> bool {
    forall|id: TxHash| #[trigger]
        g.spends(id) ==> best.contains_key(slot(g, id)) && g.wins_over(best[slot(g, id)], id)
}

/// Once all vertices are in, the table holds every winner.
proof fn lemma_best_is_winner(g: GraphView, best: Map<[u8; 40], TxHash>, ids: Seq<TxHash>, id: TxHash)
    requires
        best_so_far(g, best, ids),
        forall|h: TxHash| #[trigger] g.vertices.contains_key(h) ==> ids.contains(h),
        g.spends(id),
    ensures
        best.contains_key(slot(g, id)),
        g.winner(id) == best[slot(g, id)],
        g.wins_over(best[slot(g, id)], id),
{
    let i = choose|i: int| 0 <= i < ids.len() && ids[i] == id;
    assert(ids.contains(id));
    assert(g.spends(ids[i]));
    let k = slot(g, id);
    let w = best[k];
    assert(best.contains_key(k));
    let iw = choose|iw: int| 0 <= iw < ids.len() && ids[iw] == w;
    assert(g.spends(ids[iw]));
    assert(slot(g, w)@ == g.vertices[w].sender@ + le_bytes(g.vertices[w].nonce as nat, 8));
    lemma_spend_key_injective(
        g.vertices[w].sender,
        g.vertices[w].nonce,
        g.vertices[id].sender,
        g.vertices[id].nonce,
    );
    assert(g.rivals(w, id));
    assert forall|o: TxHash| #[trigger] g.rivals(o, id) && o != w implies g.outranks(w, o) by {
        assert(ids.contains(o));
        let io = choose|io: int| 0 <= io < ids.len() && ids[io] == o;
        assert(g.spends(ids[io]));
        assert(slot(g, o) == k);
    }
    lemma_winner_unique(g, id, w);
}

impl KronDAG {
    /// Whether spend `a` beats spend `b`: higher weight, then greater id.
    fn outranks(&self, a: &TxHash, b: &TxHash) -> (r: bool)
        requires
            self.tables_wf(),
        ensures
            r == self@.graph.outranks(*a, *b),
    {
        let wa: u64 = self.weights.get_or(a, 0);
        let wb: u64 = self.weights.get_or(b, 0);
        wa > wb || (wa == wb && less(b, a))
    }

    fn is_spend(&self, id: &TxHash, tx: &DagTransaction) -> (r: bool)
        requires
            self@.graph.vertices.contains_key(*id),
            self@.graph.vertices[*id] == tx@,
        ensures
            r == self@.graph.spends(*id),
    {
        !same(id, &self.genesis_id()) && !tx.is_genesis()
    }

    /// The winner of every nonce slot.
    fn slot_winners(&self) -> (r: Table<40, TxHash>)
        requires
            self.wf(),
        ensures
            r.wf(),
            winners_known(self@.graph, r@),
    {
        let ghost g = self@.graph;
        let ghost ids = self.vertices.listing();
        proof {
            self.vertices.lemma_listing();
        }
        let mut best: Table<40, TxHash> = Table::new();
        let n: usize = self.vertices.len();
        let mut i: usize = 0;
        while i < n
            invariant
                self.wf(),
                g == self@.graph,
                ids == self.vertices.listing(),
                n == ids.len(),
                i <= n,
                best.wf(),
                forall|j: int| 0 <= j < n ==> self.vertices@.contains_key(#[trigger] ids[j]),
                best_so_far(g, best@, ids.take(i as int)),
            decreases n - i,
        {
            let id = self.vertices.key_at(i);
            let tx = self.vertices.value_at(i);
            assert(ids[i as int] == id);
            assert(g.vertices[id] == tx@);
            let ghost old_best = best@;
            let ghost before = ids.take(i as int);
            let ghost after = ids.take(i + 1);
            assert(after =~= before.push(id));
            if self.is_spend(&id, tx) {
                let key = spend_key(&tx.sender, tx.nonce);
                assert(key == slot(g, id));
                let better = match best.get(&key) {
                    None => true,
                    Some(b) => self.outranks(&id, b),
                };
                if better {
                    best.insert(key, id);
                }
                proof {
                    if old_best.contains_key(key) {
                        lemma_rank_total(g, id, old_best[key]);
                    }
                    assert forall|j: int| 0 <= j < after.len() && g.spends(#[trigger] after[j]) implies {
                        let k = slot(g, after[j]);
                        &&& k@ == g.vertices[after[j]].sender@ + le_bytes(
                            g.vertices[after[j]].nonce as nat,
                            8,
                        )
                        &&& best@.contains_key(k)
                        &&& best@[k] == after[j] || g.outranks(best@[k], after[j])
                    } by {
                        if j < i {
                            assert(after[j] == before[j]);
                            assert(g.spends(before[j]));
                        }
                    }
                    assert forall|k: [u8; 40]| #[trigger] best@.contains_key(k) implies after.contains(
                        best@[k],
                    ) && g.spends(best@[k]) && slot(g, best@[k]) == k by {
                        if better && k == key {
                            assert(after[i as int] == id);
                        } else {
                            assert(old_best.contains_key(k));
                            let j = choose|j: int| 0 <= j < before.len() && before[j] == old_best[k];
                            assert(after[j] == best@[k]);
                        }
                    }
                }
            } else {
                proof {
                    assert forall|j: int| 0 <= j < after.len() && g.spends(#[trigger] after[j]) implies {
                        let k = slot(g, after[j]);
                        &&& k@ == g.vertices[after[j]].sender@ + le_bytes(
                            g.vertices[after[j]].nonce as nat,
                            8,
                        )
                        &&& best@.contains_key(k)
                        &&& best@[k] == after[j] || g.outranks(best@[k], after[j])
                    } by {
                        assert(after[j] == before[j]);
                        assert(g.spends(before[j]));
                    }
                    assert forall|k: [u8; 40]| #[trigger] best@.contains_key(k) implies after.contains(
                        best@[k],
                    ) by {
                        let j = choose|j: int| 0 <= j < before.len() && before[j] == best@[k];
                        assert(after[j] == best@[k]);
                    }
                }
            }
            i += 1;
        }
        proof {
            assert(ids.take(i as int) =~= ids);
            assert forall|h: TxHash| #[trigger] g.vertices.contains_key(h) implies ids.contains(h) by {
                assert(self.vertices@.dom().contains(h));
                self.vertices.lemma_listing();
            }
            assert forall|id: TxHash| #[trigger] g.spends(id) implies best@.contains_key(slot(g, id))
                && g.wins_over(best@[slot(g, id)], id) by {
                lemma_best_is_winner(g, best@, ids, id);
            }
        }
        best
    }
}

impl KronDAG {
    /// Whether `id` loses its nonce, by the table of winners.
    fn loses_slot(&self, best: &Table<40, TxHash>, id: &TxHash, tx: &DagTransaction) -> (r: bool)
        requires
            self.wf(),
            best.wf(),
            winners_known(self@.graph, best@),
            self@.graph.vertices.contains_key(*id),
            self@.graph.vertices[*id] == tx@,
        ensures
            r == self@.graph.loses(*id),
    {
        if !self.is_spend(id, tx) {
            return false;
        }
        proof {
            lemma_winner_unique(self@.graph, *id, best@[slot(self@.graph, *id)]);
        }
        let key = spend_key(&tx.sender, tx.nonce);
        match best.get(&key) {
            Some(w) => !same(w, id),
            None => false,
        }
    }

    fn payout_list(&self, id: &TxHash, tx: &DagTransaction) -> (r: Vec<Address>)
        requires
            self.tables_wf(),
            self@.graph.vertices.contains_key(*id),
            self@.graph.vertices[*id] == tx@,
        ensures
            r@ == self@.payout_relays(*id),
    {
        if tx.relay_nodes.len() > 0 {
            return crate::table::copy_keys(&tx.relay_nodes);
        }
        let mut out: Vec<Address> = Vec::new();
        if let Some(a) = self.relay_of.get(id) {
            out.push(*a);
        }
        assert(out@ =~= self@.payout_relays(*id));
        out
    }

    /// Replays the ledger from the faucet baseline over the winners.
    fn replay_ledger(&mut self, best: &Table<40, TxHash>) -> (r: (Vec<TxHash>, Option<DagError>))
        requires
            old(self).wf(),
            best.wf(),
            winners_known(old(self)@.graph, best@),
        ensures
            final(self).wf(),
            final(self)@ == (DagView { ledger: final(self)@.ledger, ..old(self)@ }),
            (ReplayView { ledger: final(self)@.ledger, failed: r.0@, error: r.1 })
                == old(self)@.replayed(old(self)@.graph.order.len()),
    {
        let ghost d = self@;
        self.balances = self.faucet.copy();
        self.next_nonce = Table::new();
        self.relay_credits = Table::new();
        self.current_supply = 0;
        self.dag_tx_count = 0;
        assert(self@.ledger =~= d.baseline());
        let mut failed: Vec<TxHash> = Vec::new();
        let n: usize = self.attach_order.len();
        let mut i: usize = 0;
        while i < n
            invariant
                self.wf(),
                d == old(self)@,
                n == d.graph.order.len(),
                i <= n,
                best.wf(),
                winners_known(d.graph, best@),
                self@ == (DagView { ledger: self@.ledger, ..d }),
                (ReplayView { ledger: self@.ledger, failed: failed@, error: None }) == d.replayed(
                    i as nat,
                ),
            decreases n - i,
        {
            let id = self.attach_order[i];
            assert(id == d.graph.order[i as int]);
            assert(d.graph.order.contains(id));
            assert(d.graph.vertices.contains_key(id));
            let tx = match self.vertices.get(&id) {
                Some(t) => t.clone(),
                None => {
                    i += 1;
                    continue;
                },
            };
            let skip = self.loses_slot(best, &id, &tx) || tx.is_genesis();
            if !skip {
                let relays = self.payout_list(&id, &tx);
                assert(self@.payout_relays(id) == d.payout_relays(id));
                match self.apply_ledger_effects(&tx, relays.as_slice()) {
                    Ok(()) => {},
                    Err(e) => {
                        match e {
                            DagError::DoubleSpend { nonce: _ } | DagError::InsufficientBalance => {
                                failed.push(id);
                            },
                            _ => {
                                proof {
                                    lemma_replay_stops(d, (i + 1) as nat, n as nat);
                                }
                                return (failed, Some(e));
                            },
                        }
                    },
                }
            }
            i += 1;
        }
        (failed, None)
    }

    /// The conflict table: losers with their winners, failed spends with none.
    fn conflict_table(&self, best: &Table<40, TxHash>, failed: &Vec<TxHash>) -> (r: Table<
        32,
        TxHash,
    >)
        requires
            self.wf(),
            best.wf(),
            winners_known(self@.graph, best@),
        ensures
            r.wf(),
            r@ == Map::new(
                |id: TxHash| self@.graph.loses(id) || failed@.contains(id),
                |id: TxHash|
                    if self@.graph.loses(id) {
                        self@.graph.winner(id)
                    } else {
                        NULL_PARENT
                    },
            ),
    {
        let ghost g = self@.graph;
        let ghost ids = self.vertices.listing();
        let mut out: Table<32, TxHash> = Table::new();
        let mut j: usize = 0;
        while j < failed.len()
            invariant
                j <= failed@.len(),
                out.wf(),
                forall|h: TxHash| #[trigger]
                    out@.contains_key(h) <==> failed@.take(j as int).contains(h),
                forall|h: TxHash| #[trigger] out@.contains_key(h) ==> out@[h] == NULL_PARENT,
            decreases failed@.len() - j,
        {
            let ghost before = failed@.take(j as int);
            out.insert(failed[j], NULL_PARENT);
            proof {
                let after = failed@.take(j + 1);
                assert(after =~= before.push(failed@[j as int]));
                assert forall|h: TxHash| #[trigger] out@.contains_key(h) <==> after.contains(h) by {
                    if before.contains(h) {
                        let k = choose|k: int| 0 <= k < before.len() && before[k] == h;
                        assert(after[k] == h);
                    }
                    assert(after[j as int] == failed@[j as int]);
                    if after.contains(h) && h != failed@[j as int] {
                        let k = choose|k: int| 0 <= k < after.len() && after[k] == h;
                        assert(before[k] == h);
                    }
                }
            }
            j += 1;
        }
        assert(failed@.take(j as int) =~= failed@);
        proof {
            self.vertices.lemma_listing();
        }
        let n: usize = self.vertices.len();
        let mut i: usize = 0;
        while i < n
            invariant
                self.wf(),
                g == self@.graph,
                ids == self.vertices.listing(),
                n == ids.len(),
                i <= n,
                best.wf(),
                winners_known(g, best@),
                forall|a: int| 0 <= a < n ==> self.vertices@.contains_key(#[trigger] ids[a]),
                out.wf(),
                forall|h: TxHash| #[trigger]
                    out@.contains_key(h) <==> failed@.contains(h) || (g.loses(h) && ids.take(
                        i as int,
                    ).contains(h)),
                forall|h: TxHash| #[trigger]
                    out@.contains_key(h) ==> out@[h] == (if g.loses(h) && ids.take(
                        i as int,
                    ).contains(h) {
                        g.winner(h)
                    } else {
                        NULL_PARENT
                    }),
            decreases n - i,
        {
            let id = self.vertices.key_at(i);
            let tx = self.vertices.value_at(i);
            assert(ids[i as int] == id);
            let ghost before = ids.take(i as int);
            let ghost after = ids.take(i + 1);
            proof {
                assert(after =~= before.push(id));
                assert forall|h: TxHash| after.contains(h) <==> (before.contains(h) || h == id) by {
                    if before.contains(h) {
                        let k = choose|k: int| 0 <= k < before.len() && before[k] == h;
                        assert(after[k] == h);
                    }
                    assert(after[i as int] == id);
                    if after.contains(h) && h != id {
                        let k = choose|k: int| 0 <= k < after.len() && after[k] == h;
                        assert(before[k] == h);
                    }
                }
            }
            if self.loses_slot(best, &id, tx) {
                let key = spend_key(&tx.sender, tx.nonce);
                proof {
                    lemma_winner_unique(g, id, best@[slot(g, id)]);
                }
                if let Some(w) = best.get(&key) {
                    out.insert(id, *w);
                }
            }
            i += 1;
        }
        proof {
            assert(ids.take(i as int) =~= ids);
            assert forall|h: TxHash| g.loses(h) implies ids.contains(h) by {
                assert(self.vertices@.dom().contains(h));
                self.vertices.lemma_listing();
            }
        }
        assert(out@ =~= Map::new(
            |id: TxHash| self@.graph.loses(id) || failed@.contains(id),
            |id: TxHash|
                if self@.graph.loses(id) {
                    self@.graph.winner(id)
                } else {
                    NULL_PARENT
                },
        ));
        out
    }

    /// The conflict rule: of the spends of one nonce the one with the highest
    /// cumulative weight wins, ties go to the greater id. The ledger is rebuilt
    /// from the winners in attach order.
    pub fn resolve_conflicts_and_rebuild_ledger(&mut self) -> (r: Result<(), DagError>)
        requires
            old(self).wf(),
        ensures
            final(self).wf(),
            (final(self)@, failure(r)) == old(self)@.resolved(),
    {
        let best = self.slot_winners();
        let (failed, error) = self.replay_ledger(&best);
        if let Some(e) = error {
            return Err(e);
        }
        let table = self.conflict_table(&best, &failed);
        self.conflicts = table;
        Ok(())
    }

    /// Attaches a vertex from the wire, or stores a conflicting spend and lets
    /// the conflict rule decide. `false` for a vertex that is already stored.
    pub fn accept_wire_vertex(&mut self, tx: DagTransaction) -> (r: Result<bool, DagError>)
        requires
            old(self).wf(),
        ensures
            final(self).wf(),
            (final(self)@, r) == old(self)@.accepted(tx@),
    {
        if self.vertices.contains_key(&tx.id) {
            return Ok(false);
        }
        match self.attach_and_verify_tx(tx.clone()) {
            Ok(()) => Ok(true),
            Err(e) => match e {
                DagError::DoubleSpend { nonce: _ } | DagError::InsufficientBalance => {
                    match self.insert_graph_only(tx) {
                        Ok(()) => {},
                        Err(f) => {
                            return Err(f);
                        },
                    }
                    match self.resolve_conflicts_and_rebuild_ledger() {
                        Ok(()) => Ok(true),
                        Err(f) => Err(f),
                    }
                },
                _ => Err(e),
            },
        }
    }

    /// Verifies and attaches a vertex, minting for it.
    pub fn attach_and_verify_tx(&mut self, tx: DagTransaction) -> (r: Result<(), DagError>)
        requires
            old(self).wf(),
        ensures
            final(self).wf(),
            (final(self)@, failure(r)) == old(self)@.attached(tx@, true, tx@.relay_nodes),
    {
        let relays = crate::table::copy_keys(&tx.relay_nodes);
        self.attach_vertex_and_maybe_mint(tx, true, relays.as_slice())
    }

    /// Attaches a vertex without minting for it.
    pub fn attach_vertex_unminted(&mut self, tx: DagTransaction) -> (r: Result<(), DagError>)
        requires
            old(self).wf(),
        ensures
            final(self).wf(),
            (final(self)@, failure(r)) == old(self)@.attached(tx@, false, Seq::empty()),
    {
        let none: Vec<Address> = Vec::new();
        self.attach_vertex_and_maybe_mint(tx, false, none.as_slice())
    }
}

/// A replay that has stopped on an error stays where it stopped.
proof fn lemma_replay_stops(d: DagView, i: nat, n: nat)
    requires
        i <= n,
        d.replayed(i).error is Some,
    ensures
        d.replayed(n) == d.replayed(i),
    decreases n - i,
{
    if i < n {
        lemma_replay_stops(d, i, (n - 1) as nat);
    }
}

/// Of two different ids one outranks the other; outranking is transitive.
proof fn lemma_rank_total(g: GraphView, a: TxHash, b: TxHash)
    ensures
        a == b || g.outranks(a, b) || g.outranks(b, a),
        forall|c: TxHash| g.outranks(a, b) && #[trigger] g.outranks(b, c) ==> g.outranks(a, c),
{
    if be_value(a@) == be_value(b@) {
        crate::bytes::lemma_key_injective(a, b);
    }
}

/// Paying relays touches neither the supply nor the counter.
proof fn lemma_relays_keep_counters(l: LedgerView, relays: Seq<Address>, i: nat, total: u64)
    ensures
        l.relays_paid(relays, i, total).0.supply == l.supply,
        l.relays_paid(relays, i, total).0.count == l.count,
    decreases relays.len() - i,
{
    if i < relays.len() {
        let amount = relay_payout(relays.len(), i, total);
        let a = relays[i as int];
        if l.can_credit(a, amount) {
            let paid = l.credited(a, amount);
            let accrued = amount_at(paid.relay_credits, a);
            if accrued + amount <= u64::MAX {
                lemma_relays_keep_counters(
                    LedgerView {
                        relay_credits: paid.relay_credits.insert(a, (accrued + amount) as u64),
                        ..paid
                    },
                    relays,
                    i + 1,
                    total,
                );
            }
        }
    }
}

/// What the bounded upward walk from `id` touches.
pub open spec fn closure_of(g: GraphView, id: TxHash) -> Set<TxHash> {
    let (seen, over) = climb(g.vertices, seq![id], Set::empty(), 0);
    match over {
        Some(h) => seen.insert(h),
        None => seen,
    }
}


/// The stored bodies of `ids`, unknown ids left out.
pub open spec fn bodies(g: GraphView, ids: Seq<TxHash>) -> Seq<TxView>
    decreases ids.len(),
{
    if ids.len() == 0 {
        Seq::empty()
    } else {
        let head = bodies(g, ids.drop_last());
        if g.vertices.contains_key(ids.last()) {
            head.push(g.vertices[ids.last()])
        } else {
            head
        }
    }
}

/// The views of a list of transfers.
pub open spec fn list_views(s: Seq<DagTransaction>) -> Seq<TxView> {
    s.map_values(|t: DagTransaction| t@)
}

/// The elements of `order` that are in `wanted`.
pub open spec fn in_order(order: Seq<TxHash>, wanted: Set<TxHash>) -> Seq<TxHash>
    decreases order.len(),
{
    if order.len() == 0 {
        Seq::empty()
    } else {
        let head = in_order(order.drop_last(), wanted);
        if wanted.contains(order.last()) {
            head.push(order.last())
        } else {
            head
        }
    }
}

impl KronDAG {
    /// Bodies for `ids` that are stored; unknown ids are skipped.
    pub fn transactions_for(&self, ids: &[TxHash]) -> (r: Vec<DagTransaction>)
        requires
            self.wf(),
        ensures
            list_views(r@) == bodies(self@.graph, ids@),
    {
        let mut out: Vec<DagTransaction> = Vec::new();
        let mut i: usize = 0;
        assert(list_views(out@) =~= bodies(self@.graph, ids@.take(0)));
        while i < ids.len()
            invariant
                self.wf(),
                i <= ids@.len(),
                list_views(out@) == bodies(self@.graph, ids@.take(i as int)),
            decreases ids@.len() - i,
        {
            let ghost before = out@;
            proof {
                assert(ids@.take(i + 1).drop_last() =~= ids@.take(i as int));
            }
            if let Some(tx) = self.vertices.get(&ids[i]) {
                let c = tx.clone();
                out.push(c);
                assert(list_views(out@) =~= list_views(before).push(c@));
            }
            i += 1;
        }
        assert(ids@.take(i as int) =~= ids@);
        out
    }

    /// Requested bodies in attach order, parents before children.
    pub fn transactions_for_in_order(&self, ids: &[TxHash]) -> (r: Vec<DagTransaction>)
        requires
            self.wf(),
        ensures
            list_views(r@) == bodies(self@.graph, in_order(self@.graph.order, ids@.to_set())),
    {
        let mut want: KeySet<32> = KeySet::new();
        let mut k: usize = 0;
        assert(ids@.take(0).to_set() =~= Set::<TxHash>::empty());
        while k < ids.len()
            invariant
                k <= ids@.len(),
                want.wf(),
                want@ == ids@.take(k as int).to_set(),
            decreases ids@.len() - k,
        {
            want.insert(ids[k]);
            proof {
                assert(ids@.take(k + 1) =~= ids@.take(k as int).push(ids@[k as int]));
                ids@.take(k as int).lemma_push_to_set_commute(ids@[k as int]);
            }
            k += 1;
        }
        assert(ids@.take(k as int) =~= ids@);
        let mut list: Vec<TxHash> = Vec::new();
        let ghost order = self.attach_order@;
        let mut i: usize = 0;
        while i < self.attach_order.len()
            invariant
                order == self.attach_order@,
                i <= order.len(),
                want.wf(),
                list@ == in_order(order.take(i as int), want@),
            decreases order.len() - i,
        {
            proof {
                assert(order.take(i + 1).drop_last() =~= order.take(i as int));
            }
            let id = self.attach_order[i];
            if want.contains(&id) {
                list.push(id);
            }
            i += 1;
        }
        assert(order.take(i as int) =~= order);
        self.transactions_for(list.as_slice())
    }

    /// Every vertex in attach order, genesis first.
    pub fn transactions_in_order(&self) -> (r: Vec<DagTransaction>)
        requires
            self.wf(),
        ensures
            list_views(r@) == bodies(self@.graph, self@.graph.order),
    {
        self.transactions_for(self.attach_order.as_slice())
    }

    pub fn account_snapshot(&self) -> (r: Table<32, u64>)
        requires
            self.wf(),
        ensures
            r.wf(),
            r@ == self@.ledger.balances,
    {
        self.balances.copy()
    }

    pub fn nonce_snapshot(&self) -> (r: Table<32, u64>)
        requires
            self.wf(),
        ensures
            r.wf(),
            r@ == self@.ledger.nonces,
    {
        self.next_nonce.copy()
    }

    /// Faucet credits (not minted supply).
    pub fn faucet_snapshot(&self) -> (r: Table<32, u64>)
        requires
            self.wf(),
        ensures
            r.wf(),
            r@ == self@.faucet,
    {
        self.faucet.copy()
    }

    /// The tips in ascending order.
    pub fn tip_list(&self) -> (r: Vec<TxHash>)
        requires
            self.wf(),
        ensures
            r@.to_set() == self@.graph.tips,
            crate::table::ascending(r@),
    {
        self.tips.to_vec()
    }

    /// Credits the local ledger only. Not a vertex, and not minted supply.
    pub fn credit_account(&mut self, address: Address, amount: u64)
        requires
            old(self).wf(),
        ensures
            final(self).wf(),
            final(self)@ == old(self)@.funded(address, amount),
    {
        if amount == 0 {
            return;
        }
        let have: u64 = self.balances.get_or(&address, 0);
        self.balances.insert(address, have.saturating_add(amount));
        let given: u64 = self.faucet.get_or(&address, 0);
        self.faucet.insert(address, given.saturating_add(amount));
    }

    /// Raises the faucet credit of `address` to at least `amount`.
    pub fn apply_faucet_hint(&mut self, address: Address, amount: u64)
        requires
            old(self).wf(),
        ensures
            final(self).wf(),
            final(self)@ == (if amount > amount_at(old(self)@.faucet, address) {
                old(self)@.funded(
                    address,
                    (amount - amount_at(old(self)@.faucet, address)) as u64,
                )
            } else {
                old(self)@
            }),
    {
        let have: u64 = self.faucet.get_or(&address, 0);
        if amount > have {
            self.credit_account(address, amount - have);
        }
    }

    /// Marks the phone that carried a vertex.
    pub fn stamp_relay(&mut self, tx_id: TxHash, relay: Address)
        requires
            old(self).wf(),
        ensures
            final(self).wf(),
            final(self)@ == (DagView {
                relay_of: old(self)@.relay_of.insert(tx_id, relay),
                ..old(self)@
            }),
    {
        self.relay_of.insert(tx_id, relay);
    }

    /// The accrued relay shares.
    pub fn relay_credit_snapshot(&self) -> (r: Table<32, u64>)
        requires
            self.wf(),
        ensures
            r.wf(),
            r@ == self@.ledger.relay_credits,
    {
        self.relay_credits.copy()
    }

    /// No tip has children, and every vertex without children is a tip.
    pub fn tips_are_consistent(&self) -> (r: bool)
        requires
            self.tables_wf(),
        ensures
            r == tips_mirror_children(self@.graph),
            self@.graph.sound() ==> r,
    {
        let ghost g = self@.graph;
        proof {
            self.tips.lemma_listing();
            self.vertices.lemma_listing();
            self.children.lemma_listing();
        }
        let mut i: usize = 0;
        let n: usize = self.tips.len();
        while i < n
            invariant
                self.tables_wf(),
                g == self@.graph,
                n == self.tips.listing().len(),
                i <= n,
                forall|a: int|
                    0 <= a < n ==> g.tips.contains(#[trigger] self.tips.listing()[a]),
                forall|a: int|
                    0 <= a < i ==> kids_at(g.children, #[trigger] self.tips.listing()[a]) == Set::<
                        TxHash,
                    >::empty(),
            decreases n - i,
        {
            let tip = self.tips.at(i);
            assert(g.tips.contains(tip));
            let busy = match self.children.get(&tip) {
                Some(kids) => !kids.is_empty(),
                None => false,
            };
            if busy {
                assert(!tips_mirror_children(g));
                return false;
            }
            i += 1;
        }
        assert forall|h: TxHash| #[trigger] g.tips.contains(h) implies kids_at(g.children, h) == Set::<
            TxHash,
        >::empty() by {
            let a = choose|a: int| 0 <= a < n && self.tips.listing()[a] == h;
            assert(self.tips.listing().contains(h));
            assert(self.tips.listing()[a] == h);
        }
        let m: usize = self.vertices.len();
        let mut j: usize = 0;
        while j < m
            invariant
                self.tables_wf(),
                g == self@.graph,
                m == self.vertices.listing().len(),
                j <= m,
                forall|a: int|
                    0 <= a < m ==> g.vertices.contains_key(#[trigger] self.vertices.listing()[a]),
                forall|a: int|
                    0 <= a < j ==> kids_at(g.children, #[trigger] self.vertices.listing()[a]) != Set::<
                        TxHash,
                    >::empty() || g.tips.contains(self.vertices.listing()[a]),
            decreases m - j,
        {
            let id = self.vertices.key_at(j);
            assert(g.vertices.contains_key(id));
            let busy = match self.children.get(&id) {
                Some(kids) => !kids.is_empty(),
                None => false,
            };
            if !busy && !self.tips.contains(&id) {
                assert(!tips_mirror_children(g));
                return false;
            }
            j += 1;
        }
        assert forall|h: TxHash| #[trigger] g.vertices.contains_key(h) implies kids_at(g.children, h)
            != Set::<TxHash>::empty() || g.tips.contains(h) by {
            assert(self.vertices@.dom().contains(h));
            let a = choose|a: int| 0 <= a < m && self.vertices.listing()[a] == h;
            assert(self.vertices.listing().contains(h));
            assert(self.vertices.listing()[a] == h);
        }
        true
    }
}

/// No tip has children, and every vertex without children is a tip.
pub open spec fn tips_mirror_children(g: GraphView) -> bool {
    &&& forall|h: TxHash| #[trigger]
        g.tips.contains(h) ==> kids_at(g.children, h) == Set::<TxHash>::empty()
    &&& forall|h: TxHash| #[trigger]
        g.vertices.contains_key(h) ==> kids_at(g.children, h) != Set::<TxHash>::empty()
            || g.tips.contains(h)
}

impl DagView {
    /// A bootstrap credit: balance and faucet both grow, stopped at the largest
    /// amount.
    pub open spec fn funded(self, a: Address, amount: u64) -> DagView {
        if amount == 0 {
            self
        } else {
            DagView {
                ledger: LedgerView {
                    balances: self.ledger.balances.insert(
                        a,
                        capped_add(self.ledger.balance(a), amount),
                    ),
                    ..self.ledger
                },
                faucet: self.faucet.insert(a, capped_add(amount_at(self.faucet, a), amount)),
                ..self
            }
        }
    }
}

impl Clone for KronDAG {
    fn clone(&self) -> (r: Self)
        ensures
            self.wf() ==> r.wf() && r@ == self@,
    {
        let r = KronDAG {
            vertices: self.vertices.clone(),
            children: self.children.clone(),
            tips: self.tips.clone(),
            weights: self.weights.copy(),
            balances: self.balances.copy(),
            next_nonce: self.next_nonce.copy(),
            genesis_id: self.genesis_id,
            relay_of: self.relay_of.copy(),
            relay_credits: self.relay_credits.copy(),
            current_supply: self.current_supply,
            dag_tx_count: self.dag_tx_count,
            attach_order: crate::table::copy_keys(&self.attach_order),
            faucet: self.faucet.copy(),
            conflicts: self.conflicts.copy(),
        };
        proof {
            if self.wf() {
                assert(tx_views(r.vertices@) =~= tx_views(self.vertices@));
                assert(set_views(r.children@) =~= set_views(self.children@));
            }
        }
        r
    }
}


/// Most steps of a walk toward a tip.
pub const TIP_WALK_BOUND: usize = 256;

/// `Rng::gen_range` over `0..n` on a `StdRng`: some number below `n`.
#[verifier::external_body]
pub(crate) fn random_below(rng: &mut StdRng, n: u64) -> (r: u64)
    requires
        n > 0,
    ensures
        r < n,
{
    rng.gen_range(0..n)
}

/// `StdRng::from_entropy`: a generator seeded by the system. Nothing is known
/// of its state.
#[verifier::external_body]
pub(crate) fn fresh_rng() -> StdRng {
    StdRng::from_entropy()
}

/// The weight that a child is drawn by: at least one.
pub open spec fn draw_weight(w: Map<TxHash, u64>, h: TxHash) -> u64 {
    if w.contains_key(h) && w[h] > 1 {
        w[h]
    } else {
        1
    }
}

/// The sum of the draw weights of the first `n` children, stopped at the
/// largest `u64`.
pub open spec fn draw_total(w: Map<TxHash, u64>, kids: Seq<TxHash>, n: nat) -> u64
    decreases n,
{
    if n == 0 {
        0
    } else {
        capped_add(draw_total(w, kids, (n - 1) as nat), draw_weight(w, kids[n - 1]))
    }
}

/// The child that a ticket draws: children stand side by side in ascending
/// order, each as wide as its weight. A ticket past the end draws the first.
pub open spec fn drawn(w: Map<TxHash, u64>, kids: Seq<TxHash>, i: nat, ticket: u64) -> TxHash
    decreases kids.len() - i,
{
    if i >= kids.len() {
        kids[0]
    } else if ticket < draw_weight(w, kids[i as int]) {
        kids[i as int]
    } else {
        drawn(w, kids, i + 1, (ticket - draw_weight(w, kids[i as int])) as u64)
    }
}

proof fn lemma_drawn_member(w: Map<TxHash, u64>, kids: Seq<TxHash>, i: nat, ticket: u64)
    requires
        kids.len() > 0,
    ensures
        kids.contains(drawn(w, kids, i, ticket)),
    decreases kids.len() - i,
{
    if i >= kids.len() {
        assert(kids.contains(kids[0]));
    } else if ticket < draw_weight(w, kids[i as int]) {
        assert(kids.contains(kids[i as int]));
    } else {
        lemma_drawn_member(w, kids, i + 1, (ticket - draw_weight(w, kids[i as int])) as u64);
    }
}

impl KronDAG {
    fn child_weight(&self, h: &TxHash) -> (r: u64)
        requires
            self.wf(),
        ensures
            r == draw_weight(self@.graph.weights, *h),
    {
        let w: u64 = self.weights.get_or(h, 1);
        if w > 1 {
            w
        } else {
            1
        }
    }

    fn children_total(&self, kids: &[TxHash]) -> (r: u64)
        requires
            self.wf(),
        ensures
            r == draw_total(self@.graph.weights, kids@, kids@.len()),
            kids@.len() > 0 ==> r > 0,
    {
        let mut total: u64 = 0;
        let mut i: usize = 0;
        while i < kids.len()
            invariant
                self.wf(),
                i <= kids@.len(),
                total == draw_total(self@.graph.weights, kids@, i as nat),
                i > 0 ==> total > 0,
            decreases kids@.len() - i,
        {
            total = total.saturating_add(self.child_weight(&kids[i]));
            i += 1;
        }
        total
    }

    /// The child of `parent` that `ticket` draws, if it has children.
    pub fn child_for_ticket(&self, parent: &TxHash, ticket: u64) -> (r: Option<TxHash>)
        requires
            self.wf(),
        ensures
            match r {
                Some(c) => exists|kids: Seq<TxHash>| #[trigger]
                    ascending(kids) && kids.to_set() == kids_at(self@.graph.children, *parent)
                        && kids.len() > 0 && c == drawn(self@.graph.weights, kids, 0, ticket),
                None => kids_at(self@.graph.children, *parent) == Set::<TxHash>::empty(),
            },
            r is Some ==> kids_at(self@.graph.children, *parent).contains(r->0),
    {
        let kids = self.children_of(parent);
        if kids.len() == 0 {
            assert(kids@.to_set() =~= Set::<TxHash>::empty());
            return None;
        }
        let ghost w = self@.graph.weights;
        let ghost goal = drawn(w, kids@, 0, ticket);
        proof {
            lemma_drawn_member(w, kids@, 0, ticket);
        }
        let mut left: u64 = ticket;
        let mut i: usize = 0;
        while i < kids.len()
            invariant
                self.wf(),
                w == self@.graph.weights,
                i <= kids@.len(),
                kids@.len() > 0,
                goal == drawn(w, kids@, 0, ticket),
                drawn(w, kids@, i as nat, left) == goal,
                ascending(kids@),
                kids@.to_set() == kids_at(self@.graph.children, *parent),
                kids@.contains(goal),
            decreases kids@.len() - i,
        {
            let d: u64 = self.child_weight(&kids[i]);
            if left < d {
                return Some(kids[i]);
            }
            left = left - d;
            i += 1;
        }
        Some(kids[0])
    }

    fn random_tip(&self, rng: &mut StdRng) -> (r: TxHash)
        requires
            self.wf(),
            self@.graph.tips != Set::<TxHash>::empty(),
        ensures
            self@.graph.tips.contains(r),
    {
        proof {
            self.tips.lemma_listing();
            if self.tips.listing().len() == 0 {
                assert(self.tips@ =~= Set::<TxHash>::empty());
            }
        }
        let n: usize = self.tips.len();
        let i: u64 = random_below(rng, n as u64);
        let t = self.tips.at(i as usize);
        assert(self.tips@.contains(self.tips.listing()[i as int]));
        t
    }

    /// Weighted random walk from genesis along child edges to a tip.
    fn walk_to_tip(&self, rng: &mut StdRng) -> (r: TxHash)
        requires
            self.wf(),
            self@.graph.tips != Set::<TxHash>::empty(),
        ensures
            self@.graph.tips.contains(r),
    {
        let genesis = self.genesis_id();
        if !self.contains(&genesis) {
            return self.random_tip(rng);
        }
        let ghost g = self@.graph;
        let mut current = genesis;
        let mut step: usize = 0;
        while step < TIP_WALK_BOUND
            invariant
                self.wf(),
                g == self@.graph,
                g.tips != Set::<TxHash>::empty(),
                g.vertices.contains_key(current),
            decreases TIP_WALK_BOUND - step,
        {
            assert(g.children.contains_key(current));
            let kids = self.children_of(&current);
            if kids.len() == 0 {
                assert(kids@.to_set() =~= Set::<TxHash>::empty());
                assert(g.tips.contains(current));
                return current;
            }
            let total: u64 = self.children_total(kids.as_slice());
            let ticket: u64 = random_below(rng, total);
            match self.child_for_ticket(&current, ticket) {
                Some(next) => {
                    assert(g.children[current].contains(next));
                    assert(g.names_parent(next, current));
                    current = next;
                },
                None => {
                    assert(kids@.to_set().contains(kids@[0]));
                    return current;
                },
            }
            step += 1;
        }
        self.random_tip(rng)
    }

    /// Parent pick with a generator of its own.
    pub fn select_parents(&self) -> (r: (TxHash, TxHash))
        requires
            self.wf(),
        ensures
            parents_admissible(self@.graph, r.0, r.1),
    {
        let mut rng = fresh_rng();
        self.select_parents_with_rng(&mut rng)
    }

    /// Weighted random walk toward the current tips.
    ///
    /// One tip: that tip and genesis, or the tip twice while it is genesis. Two
    /// or more: two independent walks; where they meet, the second parent is
    /// replaced by another tip.
    pub fn select_parents_with_rng(&self, rng: &mut StdRng) -> (r: (TxHash, TxHash))
        requires
            self.wf(),
        ensures
            parents_admissible(self@.graph, r.0, r.1),
    {
        proof {
            self.tips.lemma_listing();
        }
        let n: usize = self.tips.len();
        if n == 0 {
            assert(self.tips@ =~= Set::<TxHash>::empty());
            return (NULL_PARENT, NULL_PARENT);
        }
        let genesis = self.genesis_id();
        let first = self.tips.at(0);
        assert(self.tips@.contains(self.tips.listing()[0]));
        if n == 1 {
            proof {
                assert forall|x: TxHash| self.tips@.contains(x) implies x == first by {
                    let k = choose|k: int| 0 <= k < 1 && self.tips.listing()[k] == x;
                    assert(self.tips.listing().contains(x));
                }
            }
            if same(&first, &genesis) {
                return (first, first);
            }
            return (first, genesis);
        }
        let second = self.tips.at(1);
        assert(self.tips@.contains(self.tips.listing()[1]));
        assert(first != second);
        let p1 = self.walk_to_tip(rng);
        let p2 = self.walk_to_tip(rng);
        if same(&p1, &p2) {
            if !same(&first, &p1) {
                return (p1, first);
            }
            return (p1, second);
        }
        (p1, p2)
    }

    /// Selects parents, signs with the wallet's key, and returns a vertex that
    /// is ready to attach.
    pub fn compose_and_sign(&self, wallet: &KronKeypair, recipient: Address, amount: u64) -> (r:
        Result<DagTransaction, DagError>)
        requires
            self.wf(),
        ensures
            composed(self@, wallet, recipient, amount, r),
    {
        let (p1, p2) = self.select_parents();
        self.compose_and_sign_with_parents(wallet, recipient, amount, p1, p2)
    }

    pub fn compose_and_sign_with_rng(
        &self,
        wallet: &KronKeypair,
        recipient: Address,
        amount: u64,
        rng: &mut StdRng,
    ) -> (r: Result<DagTransaction, DagError>)
        requires
            self.wf(),
        ensures
            composed(self@, wallet, recipient, amount, r),
    {
        let (p1, p2) = self.select_parents_with_rng(rng);
        self.compose_and_sign_with_parents(wallet, recipient, amount, p1, p2)
    }

    /// Signs a transfer below the given parents with the sender's next nonce.
    pub fn compose_and_sign_with_parents(
        &self,
        wallet: &KronKeypair,
        recipient: Address,
        amount: u64,
        parent_1: TxHash,
        parent_2: TxHash,
    ) -> (r: Result<DagTransaction, DagError>)
        requires
            self.wf(),
        ensures
            match r {
                Ok(tx) => {
                    &&& tx@ == assembled(
                        parent_1,
                        parent_2,
                        wallet.public_bytes(),
                        recipient,
                        amount,
                        FIXED_TRANSACTION_FEE,
                        self@.ledger.nonce(wallet.ledger_address()),
                        tx@.signature,
                    )
                    &&& wallet.matched() ==> tx@.signature_holds()
                },
                Err(e) => e == signing_error(wallet.secret_bytes()),
            },
    {
        let sender = wallet.public_key().address();
        let nonce: u64 = self.next_nonce(&sender);
        DagTransaction::user_transfer(parent_1, parent_2, wallet, recipient, amount, nonce)
    }
}

/// Why signing with a secret key failed: the random source, or the key itself.
pub open spec fn signing_error(sk: Seq<u8>) -> DagError {
    DagError::Sign(
        if secret_usable(sk) {
            CryptoError::SigningAborted(1)
        } else {
            CryptoError::InvalidEncoding
        },
    )
}

/// A pair of parents that selection may return.
pub open spec fn parents_admissible(g: GraphView, a: TxHash, b: TxHash) -> bool {
    if g.tips == Set::<TxHash>::empty() {
        a == NULL_PARENT && b == NULL_PARENT
    } else if forall|x: TxHash, y: TxHash| g.tips.contains(x) && g.tips.contains(y) ==> x == y {
        &&& g.tips.contains(a)
        &&& b == (if a == g.genesis_id() {
            a
        } else {
            g.genesis_id()
        })
    } else {
        g.tips.contains(a) && g.tips.contains(b) && a != b
    }
}

/// What composing a transfer gives: a signed vertex below admissible parents.
pub open spec fn composed(
    d: DagView,
    wallet: &KronKeypair,
    recipient: Address,
    amount: u64,
    r: Result<DagTransaction, DagError>,
) -> bool {
    match r {
        Ok(tx) => {
            &&& parents_admissible(d.graph, tx@.parent_1, tx@.parent_2)
            &&& tx@ == assembled(
                tx@.parent_1,
                tx@.parent_2,
                wallet.public_bytes(),
                recipient,
                amount,
                FIXED_TRANSACTION_FEE,
                d.ledger.nonce(wallet.ledger_address()),
                tx@.signature,
            )
            &&& wallet.matched() ==> tx@.signature_holds()
        },
        Err(e) => e == signing_error(wallet.secret_bytes()),
    }
}

/// Who is attaching a vertex. Miner and relay admission asks the host policy;
/// [`AttachingDevice::LocalGraph`] is ledger replay.
#[derive(Clone, Copy, Debug, PartialEq, Eq, Structural)]
pub enum AttachingDevice {
    /// In-process graph. Does not admit this host as a miner.
    LocalGraph,
    /// This host is the attaching miner phone.
    Miner,
    /// This host is the attaching mesh relay.
    Relay,
}

impl AttachingDevice {
    /// Why `host` may not act as this device, if it may not.
    pub open spec fn host_fault(self, host: &HostObservation) -> Option<DagError> {
        match self {
            AttachingDevice::LocalGraph => None,
            _ => match host.refusal() {
                Some(e) => Some(DagError::Shield(e)),
                None => None,
            },
        }
    }

    /// Runtime gate for the attaching device. Replay is always admitted.
    pub fn admit_host(self, host: &HostObservation) -> (r: Result<(), DagError>)
        ensures
            failure(r) == self.host_fault(host),
    {
        match self {
            AttachingDevice::LocalGraph => Ok(()),
            AttachingDevice::Miner | AttachingDevice::Relay => match enforce_real_mobile(host) {
                Ok(()) => Ok(()),
                Err(e) => Err(DagError::Shield(e)),
            },
        }
    }
}

impl DagView {
    /// Attaching as a device on a host: a refused host changes nothing.
    pub open spec fn attached_as(self, t: TxView, device: AttachingDevice, host: &HostObservation) -> (
        DagView,
        Option<DagError>,
    ) {
        match device.host_fault(host) {
            Some(e) => (self, Some(e)),
            None => self.attached(t, true, t.relay_nodes),
        }
    }
}

impl KronDAG {
    /// Verifies and attaches. Miner and relay roles ask the host policy first.
    pub fn attach_and_verify_for(
        &mut self,
        tx: DagTransaction,
        device: AttachingDevice,
        host: &HostObservation,
    ) -> (r: Result<(), DagError>)
        requires
            old(self).wf(),
        ensures
            final(self).wf(),
            (final(self)@, failure(r)) == old(self)@.attached_as(tx@, device, host),
    {
        match device.admit_host(host) {
            Ok(()) => self.attach_and_verify_tx(tx),
            Err(e) => Err(e),
        }
    }

    /// Attaches as the local miner phone.
    pub fn attach_and_verify_tx_as_miner(
        &mut self,
        tx: DagTransaction,
        host: &HostObservation,
    ) -> (r: Result<(), DagError>)
        requires
            old(self).wf(),
        ensures
            final(self).wf(),
            (final(self)@, failure(r)) == old(self)@.attached_as(tx@, AttachingDevice::Miner, host),
    {
        self.attach_and_verify_for(tx, AttachingDevice::Miner, host)
    }

    /// Attaches as the local mesh relay phone.
    pub fn attach_and_verify_tx_as_relay(
        &mut self,
        tx: DagTransaction,
        host: &HostObservation,
    ) -> (r: Result<(), DagError>)
        requires
            old(self).wf(),
        ensures
            final(self).wf(),
            (final(self)@, failure(r)) == old(self)@.attached_as(tx@, AttachingDevice::Relay, host),
    {
        self.attach_and_verify_for(tx, AttachingDevice::Relay, host)
    }
}

/// The raw public key of the protocol genesis.
pub open spec fn genesis_key() -> Seq<u8> {
    mldsa_keypair(GENESIS_SEED@).0
}

/// The protocol genesis vertex with some signature.
pub open spec fn genesis_tx(sig: Seq<u8>) -> TxView {
    assembled(NULL_PARENT, NULL_PARENT, genesis_key(), address_of(genesis_key()), 0, 0, 0, sig)
}

/// The genesis id, whatever the signature.
pub open spec fn genesis_hash() -> TxHash {
    genesis_tx(Seq::empty()).id
}

/// Signs the protocol genesis vertex.
pub fn signed_genesis_tx() -> (r: Result<DagTransaction, DagError>)
    ensures
        match r {
            Ok(tx) => tx@ == genesis_tx(tx@.signature) && tx@.signature_holds(),
            Err(e) => e == DagError::Sign(CryptoError::SigningAborted(1)),
        },
{
    let wallet = KronKeypair::from_lattice(LatticeKeyPair::from_seed(GENESIS_SEED));
    let own = wallet.public_key().address();
    DagTransaction::assemble(NULL_PARENT, NULL_PARENT, &wallet, own, 0, 0, 0)
}

/// Why genesis is kept off an empty graph: signing failed, or its nonce is spent.
pub open spec fn genesis_refused(d: DagView, e: DagError) -> bool {
    &&& d.graph.order.len() == 0
    &&& {
        ||| e == DagError::Sign(CryptoError::SigningAborted(1))
        ||| e == DagError::DoubleSpend { nonce: 0 } && d.ledger.nonce(
            address_of(genesis_key()),
        ) != 0
    }
}

/// Genesis lies on what was an empty graph; supply, counter, and every balance are as
/// before, and so is the baseline of rebuilds.
pub open spec fn genesis_laid(before: DagView, after: DagView) -> bool {
    &&& after.graph.order == seq![genesis_hash()]
    &&& after.graph.vertices.dom() == set![genesis_hash()]
    &&& after.graph.genesis_id() == genesis_hash()
    &&& after.graph.tips == set![genesis_hash()]
    &&& after.graph.weights == map![genesis_hash() => 1u64]
    &&& after.ledger.supply == before.ledger.supply
    &&& after.ledger.count == before.ledger.count
    &&& after.ledger.relay_credits == before.ledger.relay_credits
    &&& forall|a: Address| #[trigger] after.ledger.balance(a) == before.ledger.balance(a)
    &&& after.relay_of == before.relay_of
    &&& after.faucet == before.faucet
    &&& after.conflicts == before.conflicts
}

impl KronDAG {
    /// A DAG that holds the genesis vertex. Fails only where signing fails.
    pub fn with_genesis() -> (r: Result<Self, DagError>)
        ensures
            match r {
                Ok(d) => {
                    &&& d.wf()
                    &&& d@.graph.order == seq![genesis_hash()]
                    &&& d@.graph.genesis_id() == genesis_hash()
                    &&& d@.graph.tips == set![genesis_hash()]
                    &&& d@.graph.weights == map![genesis_hash() => 1u64]
                    &&& d@.ledger.supply == 0
                    &&& d@.ledger.count == 0
                    &&& exists|sig: Seq<u8>| d@ == #[trigger] DagView::blank().attached(
                        genesis_tx(sig),
                        true,
                        Seq::empty(),
                    ).0
                },
                Err(e) => e == DagError::Sign(CryptoError::SigningAborted(1)),
            },
    {
        let mut dag = Self::new();
        match dag.ensure_genesis() {
            Ok(_) => {
                let ghost sig = choose|sig: Seq<u8>|
                    (dag@, None::<DagError>) == #[trigger] DagView::blank().attached(
                        genesis_tx(sig),
                        true,
                        Seq::empty(),
                    );
                assert(dag@ == DagView::blank().attached(genesis_tx(sig), true, Seq::empty()).0);
                Ok(dag)
            },
            Err(e) => Err(e),
        }
    }

    /// Attaches the protocol genesis when the graph is empty; `true` when it was
    /// created.
    pub fn ensure_genesis(&mut self) -> (r: Result<bool, DagError>)
        requires
            old(self).wf(),
        ensures
            final(self).wf(),
            match r {
                Ok(made) => {
                    &&& made == (old(self)@.graph.order.len() == 0)
                    &&& if made {
                        &&& old(self)@.ledger.nonce(address_of(genesis_key())) == 0
                        &&& genesis_laid(old(self)@, final(self)@)
                        &&& exists|sig: Seq<u8>|
                            (final(self)@, None::<DagError>) == #[trigger] old(self)@.attached(
                                genesis_tx(sig),
                                true,
                                Seq::empty(),
                            )
                    } else {
                        final(self)@ == old(self)@
                    }
                },
                Err(e) => genesis_refused(old(self)@, e) && final(self)@ == old(self)@,
            },
    {
        proof {
            self.vertices.lemma_listing();
            assert(tx_views(self.vertices@).dom() =~= self.vertices@.dom());
            if self@.graph.order.len() == 0 {
                assert forall|h: TxHash| !(#[trigger] self.vertices@.dom().contains(h)) by {
                    assert(!self@.graph.order.contains(h));
                    assert(!self@.graph.vertices.contains_key(h));
                }
                assert(self.vertices@.dom() =~= Set::<TxHash>::empty());
            } else {
                assert(self@.graph.order.contains(self@.graph.order[0]));
                assert(self@.graph.vertices.contains_key(self@.graph.order[0]));
                assert(self.vertices@.dom().contains(self@.graph.order[0]));
            }
        }
        if self.vertices.len() > 0 {
            return Ok(false);
        }
        let genesis = match signed_genesis_tx() {
            Ok(tx) => tx,
            Err(e) => {
                return Err(e);
            },
        };
        let ghost t = genesis@;
        proof {
            assert(t.id == genesis_hash()) by {
                assert(t.unsigned() == genesis_tx(Seq::empty()).unsigned());
            }
            assert(t.relay_nodes =~= Seq::<Address>::empty());
        }
        match self.attach_and_verify_tx(genesis) {
            Ok(()) => {
                proof {
                    assert((self@, None::<DagError>) == old(self)@.attached(
                        genesis_tx(t.signature),
                        true,
                        Seq::empty(),
                    ));
                    assert(old(self)@.graph.vertices =~= Map::<TxHash, TxView>::empty()) by {
                        assert forall|h: TxHash| !(#[trigger] old(
                            self,
                        )@.graph.vertices.contains_key(h)) by {
                            assert(!old(self)@.graph.order.contains(h));
                        }
                    }
                    assert(self@.graph.order =~= seq![genesis_hash()]);
                    assert(self@.graph.tips =~= set![genesis_hash()]);
                    assert(self@.graph.weights =~= map![genesis_hash() => 1u64]);
                    assert(self@.graph.vertices =~= map![genesis_hash() => t]);
                    assert(self@.graph.vertices.dom() =~= set![genesis_hash()]);
                    assert(genesis_laid(old(self)@, self@));
                }
                Ok(true)
            },
            Err(e) => {
                assert(old(self)@.graph.vertex_fault(t) is None);
                Err(e)
            },
        }
    }
}

} // verus!
