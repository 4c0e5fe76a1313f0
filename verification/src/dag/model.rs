//! The DAG and its ledger as mathematical data.

use vstd::prelude::*;

use crate::bytes::{be_value, le_bytes, lemma_array_view_eq, lemma_le_bytes_len,
    lemma_le_value_of_bytes, lemma_pow256_values};
use crate::crypto::lattice::address_of;
use crate::dag::error::DagError;
use crate::dag::tx::{distinct, TxHash, TxView, NULL_PARENT};
use crate::economics::{share, tx_subsidy, DAG_MINER_SHARE_PERCENT, FIXED_TRANSACTION_FEE};
use crate::types::Address;

verus! {

/// Most vertices that an upward walk visits.
pub const ANCESTOR_WALK_BOUND: usize = 1_024;

/// `x + 1`, stopped at the largest `u64`.
pub open spec fn next_up(x: u64) -> u64 {
    if x == u64::MAX {
        x
    } else {
        (x + 1) as u64
    }
}

/// `a + b`, stopped at the largest `u64`.
pub open spec fn capped_add(a: u64, b: u64) -> u64 {
    if a + b > u64::MAX {
        u64::MAX
    } else {
        (a + b) as u64
    }
}

/// What `m` holds under `k`, or zero.
pub open spec fn amount_at(m: Map<Address, u64>, k: Address) -> u64 {
    if m.contains_key(k) {
        m[k]
    } else {
        0
    }
}

/// Vertices, edges, tips, weights, and attach order.
#[verifier::ext_equal]
pub struct GraphView {
    pub vertices: Map<TxHash, TxView>,
    pub children: Map<TxHash, Set<TxHash>>,
    pub tips: Set<TxHash>,
    pub weights: Map<TxHash, u64>,
    pub genesis: Option<TxHash>,
    pub order: Seq<TxHash>,
}

/// Balances, nonces, relay accruals, supply, and the confirmed-vertex counter.
#[verifier::ext_equal]
pub struct LedgerView {
    pub balances: Map<Address, u64>,
    pub nonces: Map<Address, u64>,
    pub relay_credits: Map<Address, u64>,
    pub supply: u64,
    pub count: u64,
}

/// The whole local state.
#[verifier::ext_equal]
pub struct DagView {
    pub graph: GraphView,
    pub ledger: LedgerView,
    /// The carrier that brought each merged vertex.
    pub relay_of: Map<TxHash, Address>,
    /// Bootstrap credits, the baseline of every rebuild.
    pub faucet: Map<Address, u64>,
    /// Stored vertices without ledger effect, each with its winner.
    pub conflicts: Map<TxHash, TxHash>,
}

/// The non-null parents, `parent_2` last; an equal pair counts once.
pub open spec fn real_parents(p1: TxHash, p2: TxHash) -> Seq<TxHash> {
    let first = if p1 != NULL_PARENT {
        seq![p1]
    } else {
        Seq::empty()
    };
    if p2 != NULL_PARENT && p2 != p1 {
        first.push(p2)
    } else {
        first
    }
}

/// The parents of a stored vertex that a walk goes on to.
pub open spec fn parents_in(v: Map<TxHash, TxView>, h: TxHash) -> Seq<TxHash> {
    if v.contains_key(h) {
        real_parents(v[h].parent_1, v[h].parent_2)
    } else {
        Seq::empty()
    }
}

/// Depth-first upward walk from `stack` with `visited` behind it.
///
/// Gives the visited set, and the first vertex that the bound kept out.
pub open spec fn climb(
    v: Map<TxHash, TxView>,
    stack: Seq<TxHash>,
    visited: Set<TxHash>,
    steps: nat,
) -> (Set<TxHash>, Option<TxHash>)
    decreases ANCESTOR_WALK_BOUND - steps, stack.len(),
{
    if stack.len() == 0 {
        (visited, None)
    } else {
        let h = stack.last();
        let rest = stack.drop_last();
        if visited.contains(h) {
            climb(v, rest, visited, steps)
        } else if steps >= ANCESTOR_WALK_BOUND {
            (visited, Some(h))
        } else {
            climb(v, rest + parents_in(v, h), visited.insert(h), steps + 1)
        }
    }
}

/// One more weight for every member of `s`.
pub open spec fn bumped(w: Map<TxHash, u64>, s: Set<TxHash>) -> Map<TxHash, u64> {
    Map::new(
        |h: TxHash| w.contains_key(h),
        |h: TxHash|
            if s.contains(h) {
                next_up(w[h])
            } else {
                w[h]
            },
    )
}

/// The child sets after `c` names `p1` and `p2` as parents.
pub open spec fn with_child(
    children: Map<TxHash, Set<TxHash>>,
    c: TxHash,
    p1: TxHash,
    p2: TxHash,
) -> Map<TxHash, Set<TxHash>> {
    let base = children.insert(c, Set::empty());
    let one = if p1 == NULL_PARENT {
        base
    } else {
        base.insert(p1, kids_at(base, p1).insert(c))
    };
    if p2 == NULL_PARENT || p2 == p1 {
        one
    } else {
        one.insert(p2, kids_at(one, p2).insert(c))
    }
}

pub open spec fn kids_at(children: Map<TxHash, Set<TxHash>>, p: TxHash) -> Set<TxHash> {
    if children.contains_key(p) {
        children[p]
    } else {
        Set::empty()
    }
}

/// The tips after `c` was attached below `p1` and `p2`.
pub open spec fn with_tip(tips: Set<TxHash>, c: TxHash, p1: TxHash, p2: TxHash) -> Set<TxHash> {
    let a = tips.insert(c);
    let b = if p1 == NULL_PARENT {
        a
    } else {
        a.remove(p1)
    };
    if p2 == NULL_PARENT {
        b
    } else {
        b.remove(p2)
    }
}

impl GraphView {
    pub open spec fn genesis_id(self) -> TxHash {
        match self.genesis {
            Some(g) => g,
            None => NULL_PARENT,
        }
    }

    /// The graph with `t` attached.
    pub open spec fn with(self, t: TxView) -> GraphView {
        let vertices = self.vertices.insert(t.id, t);
        let fresh = self.weights.insert(t.id, 1);
        GraphView {
            vertices,
            children: with_child(self.children, t.id, t.parent_1, t.parent_2),
            tips: with_tip(self.tips, t.id, t.parent_1, t.parent_2),
            weights: if t.is_genesis() {
                fresh
            } else {
                bumped(
                    fresh,
                    climb(vertices, real_parents(t.parent_1, t.parent_2), Set::empty(), 0).0,
                )
            },
            genesis: if t.is_genesis() {
                Some(t.id)
            } else {
                self.genesis
            },
            order: self.order.push(t.id),
        }
    }

    /// What keeps the parents of `t` from being approved, if anything.
    pub open spec fn parent_fault(self, t: TxView) -> Option<DagError> {
        if t.is_genesis() {
            if self.vertices.dom().len() > 0 {
                Some(DagError::InvalidGenesis)
            } else {
                None
            }
        } else if t.parent_1 == NULL_PARENT || !self.vertices.contains_key(t.parent_1) {
            Some(DagError::UnknownParent(t.parent_1))
        } else if t.parent_2 == NULL_PARENT || !self.vertices.contains_key(t.parent_2) {
            Some(DagError::UnknownParent(t.parent_2))
        } else {
            None
        }
    }

    /// What keeps `t` out of the graph, if anything.
    pub open spec fn vertex_fault(self, t: TxView) -> Option<DagError> {
        if self.vertices.contains_key(t.id) {
            Some(DagError::DuplicateTx(t.id))
        } else if self.parent_fault(t) is Some {
            self.parent_fault(t)
        } else if t.fee != (if t.is_genesis() {
            0
        } else {
            FIXED_TRANSACTION_FEE
        }) {
            Some(DagError::InvalidFee)
        } else if address_of(t.public_key) != t.sender {
            Some(DagError::AddressMismatch)
        } else if !t.signature_holds() {
            Some(DagError::InvalidSignature)
        } else if !t.relays_proven() {
            Some(DagError::InvalidRelayProof)
        } else {
            None
        }
    }

    /// Whether `c` names `p` as a parent.
    pub open spec fn names_parent(self, c: TxHash, p: TxHash) -> bool {
        &&& p != NULL_PARENT
        &&& self.vertices.contains_key(c)
        &&& (self.vertices[c].parent_1 == p || self.vertices[c].parent_2 == p)
    }

    /// Vertex `i` of the attach order approves only earlier vertices.
    pub open spec fn grounded(self, i: int) -> bool {
        let t = self.vertices[self.order[i]];
        if i == 0 {
            t.is_genesis()
        } else {
            &&& t.parent_1 != NULL_PARENT
            &&& t.parent_2 != NULL_PARENT
            &&& self.order.take(i).contains(t.parent_1)
            &&& self.order.take(i).contains(t.parent_2)
        }
    }

    /// What every reachable graph satisfies.
    pub open spec fn sound(self) -> bool {
        &&& self.order.no_duplicates()
        &&& forall|h: TxHash| self.order.contains(h) <==> #[trigger] self.vertices.contains_key(h)
        &&& self.vertices.dom().finite()
        &&& forall|h: TxHash| #[trigger]
            self.vertices.contains_key(h) ==> self.vertices[h].id == h
        &&& forall|h: TxHash| #[trigger]
            self.children.contains_key(h) <==> self.vertices.contains_key(h)
        &&& forall|h: TxHash| #[trigger]
            self.weights.contains_key(h) <==> self.vertices.contains_key(h)
        &&& forall|h: TxHash| #[trigger] self.weights.contains_key(h) ==> self.weights[h] >= 1
        &&& forall|p: TxHash, c: TxHash|
            self.vertices.contains_key(p) ==> (#[trigger] self.children[p].contains(c)
                <==> self.names_parent(c, p))
        &&& forall|h: TxHash| #[trigger]
            self.tips.contains(h) <==> self.vertices.contains_key(h) && self.children[h]
                =~= Set::<TxHash>::empty()
        &&& forall|i: int| 0 <= i < self.order.len() ==> #[trigger] self.grounded(i)
        &&& self.genesis == (if self.order.len() == 0 {
            None::<TxHash>
        } else {
            Some(self.order[0])
        })
        &&& self.weighed()
    }
}

impl LedgerView {
    pub open spec fn balance(self, a: Address) -> u64 {
        amount_at(self.balances, a)
    }

    pub open spec fn nonce(self, a: Address) -> u64 {
        amount_at(self.nonces, a)
    }

    /// Whether `amount` more fits the balance of `a`.
    pub open spec fn can_credit(self, a: Address, amount: u64) -> bool {
        self.balance(a) + amount <= u64::MAX
    }

    /// The ledger with `amount` more on `a`. A zero credit leaves no trace.
    pub open spec fn credited(self, a: Address, amount: u64) -> LedgerView {
        if amount == 0 {
            self
        } else {
            LedgerView {
                balances: self.balances.insert(a, (self.balance(a) + amount) as u64),
                ..self
            }
        }
    }

    /// Pays relay number `i` and those after it; `false` where a sum overflows,
    /// with everything before that already paid.
    pub open spec fn relays_paid(self, relays: Seq<Address>, i: nat, total: u64) -> (
        LedgerView,
        bool,
    )
        decreases relays.len() - i,
    {
        if i >= relays.len() {
            (self, true)
        } else {
            let amount = relay_payout(relays.len(), i, total);
            let a = relays[i as int];
            if !self.can_credit(a, amount) {
                (self, false)
            } else {
                let paid = self.credited(a, amount);
                let accrued = amount_at(paid.relay_credits, a);
                if accrued + amount > u64::MAX {
                    (
                        LedgerView {
                            relay_credits: paid.relay_credits.insert(a, accrued),
                            ..paid
                        },
                        false,
                    )
                } else {
                    (LedgerView {
                        relay_credits: paid.relay_credits.insert(a, (accrued + amount) as u64),
                        ..paid
                    }).relays_paid(relays, i + 1, total)
                }
            }
        }
    }

    /// Mints for a confirmed vertex: the pool of subsidy and fee goes 80% to the
    /// miner and the rest to the relays, or all to the miner without relays. The
    /// supply grows by the subsidy and the counter by one. `false` where a sum
    /// overflows, with everything before that already done.
    pub open spec fn minted(self, fee: u64, miner: Address, relay_nodes: Seq<Address>) -> (
        LedgerView,
        bool,
    ) {
        let subsidy = tx_subsidy(self.count, self.supply);
        let relays = distinct(relay_nodes);
        if subsidy + fee > u64::MAX {
            (self, false)
        } else {
            let pool = (subsidy + fee) as u64;
            let cut = share(pool, DAG_MINER_SHARE_PERCENT);
            let miner_paid = if relays.len() == 0 {
                pool
            } else {
                cut
            };
            if !self.can_credit(miner, miner_paid) {
                (self, false)
            } else {
                let (paid, ok) = self.credited(miner, miner_paid).relays_paid(
                    relays,
                    0,
                    (pool - cut) as u64,
                );
                let grown = LedgerView { supply: (paid.supply + subsidy) as u64, ..paid };
                if !ok {
                    (paid, false)
                } else if grown.count == u64::MAX {
                    (grown, false)
                } else {
                    (LedgerView { count: (grown.count + 1) as u64, ..grown }, true)
                }
            }
        }
    }

    /// What keeps the transfer `t` from applying, if anything.
    pub open spec fn transfer_fault(self, t: TxView) -> Option<DagError> {
        if t.nonce != self.nonce(t.sender) {
            Some(DagError::DoubleSpend { nonce: t.nonce })
        } else if t.amount + t.fee > u64::MAX {
            Some(DagError::Overflow)
        } else if self.balance(t.sender) < t.amount + t.fee {
            Some(DagError::InsufficientBalance)
        } else if t.sender != t.recipient && self.balance(t.recipient) + t.amount > u64::MAX {
            Some(DagError::Overflow)
        } else {
            None
        }
    }

    /// The ledger after the transfer `t`: amount and fee leave the sender, the
    /// amount reaches the recipient, and the sender's nonce moves on.
    pub open spec fn transferred(self, t: TxView) -> LedgerView {
        let balances = if t.sender == t.recipient {
            self.balances.insert(t.sender, (self.balance(t.sender) - t.fee) as u64)
        } else {
            self.balances.insert(
                t.sender,
                (self.balance(t.sender) - t.amount - t.fee) as u64,
            ).insert(t.recipient, (self.balance(t.recipient) + t.amount) as u64)
        };
        LedgerView {
            balances,
            nonces: self.nonces.insert(t.sender, next_up(self.nonce(t.sender))),
            ..self
        }
    }

    /// Transfer and mint; the error where one of them fails.
    pub open spec fn applied(self, t: TxView, relays: Seq<Address>) -> (
        LedgerView,
        Option<DagError>,
    ) {
        match self.transfer_fault(t) {
            Some(e) => (self, Some(e)),
            None => {
                let (l, ok) = self.transferred(t).minted(t.fee, t.sender, relays);
                (
                    l,
                    if ok {
                        None
                    } else {
                        Some(DagError::Overflow)
                    },
                )
            },
        }
    }
}

/// What relay number `i` of `n` gets of `total`: an equal share, and the rest of
/// the division to the first.
pub open spec fn relay_payout(n: nat, i: nat, total: u64) -> u64 {
    let each = total as nat / n;
    if i == 0 {
        (each + total as nat % n) as u64
    } else {
        each as u64
    }
}

/// Whether an error marks a spend that lost against another one.
pub open spec fn is_lost_spend(e: DagError) -> bool {
    e is DoubleSpend || e is InsufficientBalance
}

impl DagView {
    /// The empty state.
    pub open spec fn blank() -> DagView {
        DagView {
            graph: GraphView {
                vertices: Map::empty(),
                children: Map::empty(),
                tips: Set::empty(),
                weights: Map::empty(),
                genesis: None,
                order: Seq::empty(),
            },
            ledger: LedgerView {
                balances: Map::empty(),
                nonces: Map::empty(),
                relay_credits: Map::empty(),
                supply: 0,
                count: 0,
            },
            relay_of: Map::empty(),
            faucet: Map::empty(),
            conflicts: Map::empty(),
        }
    }

    /// Attaching `t`: the state after it, and the error if it failed.
    ///
    /// Every fault of the vertex or of the transfer leaves the state alone. Only
    /// an overflow while minting strikes after the vertex went in.
    pub open spec fn attached(self, t: TxView, mint: bool, relays: Seq<Address>) -> (
        DagView,
        Option<DagError>,
    ) {
        let fault = self.graph.vertex_fault(t);
        let spend = self.ledger.transfer_fault(t);
        if fault is Some {
            (self, fault)
        } else if spend is Some {
            (self, spend)
        } else {
            let moved = self.ledger.transferred(t);
            let graph = self.graph.with(t);
            if mint && !t.is_genesis() {
                let (ledger, ok) = moved.minted(t.fee, t.sender, relays);
                (
                    DagView { graph, ledger, ..self },
                    if ok {
                        None
                    } else {
                        Some(DagError::Overflow)
                    },
                )
            } else {
                (DagView { graph, ledger: moved, ..self }, None)
            }
        }
    }

    /// Storing `t` without ledger effect.
    pub open spec fn stored(self, t: TxView) -> (DagView, Option<DagError>) {
        match self.graph.vertex_fault(t) {
            Some(e) => (self, Some(e)),
            None => (DagView { graph: self.graph.with(t), ..self }, None),
        }
    }

    /// Who is paid for carrying a stored vertex: the proven carriers on it, or
    /// the phone that brought it in a merge.
    pub open spec fn payout_relays(self, id: TxHash) -> Seq<Address> {
        let nodes = self.graph.vertices[id].relay_nodes;
        if nodes.len() > 0 {
            nodes
        } else if self.relay_of.contains_key(id) {
            seq![self.relay_of[id]]
        } else {
            Seq::empty()
        }
    }
}

impl GraphView {
    /// A stored vertex that spends, as opposed to genesis.
    pub open spec fn spends(self, id: TxHash) -> bool {
        &&& self.vertices.contains_key(id)
        &&& id != self.genesis_id()
        &&& !self.vertices[id].is_genesis()
    }

    /// Two vertices that spend the same nonce of the same sender.
    pub open spec fn rivals(self, a: TxHash, b: TxHash) -> bool {
        &&& self.spends(a)
        &&& self.spends(b)
        &&& self.vertices[a].sender == self.vertices[b].sender
        &&& self.vertices[a].nonce == self.vertices[b].nonce
    }

    /// Higher cumulative weight wins; ties go to the greater id.
    pub open spec fn outranks(self, a: TxHash, b: TxHash) -> bool {
        ||| amount_at(self.weights, a) > amount_at(self.weights, b)
        ||| amount_at(self.weights, a) == amount_at(self.weights, b) && be_value(a@) > be_value(b@)
    }

    /// `w` is the best of the spends that compete with `id`.
    pub open spec fn wins_over(self, w: TxHash, id: TxHash) -> bool {
        &&& self.rivals(w, id)
        &&& forall|o: TxHash| #[trigger] self.rivals(o, id) && o != w ==> self.outranks(w, o)
    }

    /// The spend that wins the nonce of `id`.
    pub open spec fn winner(self, id: TxHash) -> TxHash {
        choose|w: TxHash| #[trigger] self.wins_over(w, id)
    }

    /// A spend that loses its nonce to another one.
    pub open spec fn loses(self, id: TxHash) -> bool {
        self.spends(id) && self.winner(id) != id
    }
}

/// A replay of the ledger: where it stands, which spends failed on the way, and
/// the error that stopped it, if one did.
#[verifier::ext_equal]
pub struct ReplayView {
    pub ledger: LedgerView,
    pub failed: Seq<TxHash>,
    pub error: Option<DagError>,
}

impl DagView {
    /// The ledger before any vertex: the faucet credits alone.
    pub open spec fn baseline(self) -> LedgerView {
        LedgerView {
            balances: self.faucet,
            nonces: Map::empty(),
            relay_credits: Map::empty(),
            supply: 0,
            count: 0,
        }
    }

    /// Replay of the first `n` vertices of the attach order.
    pub open spec fn replayed(self, n: nat) -> ReplayView
        decreases n,
    {
        if n == 0 {
            ReplayView { ledger: self.baseline(), failed: Seq::empty(), error: None }
        } else {
            let before = self.replayed((n - 1) as nat);
            let id = self.graph.order[n - 1];
            let t = self.graph.vertices[id];
            if before.error is Some || self.graph.loses(id) || t.is_genesis() {
                before
            } else {
                let (ledger, e) = before.ledger.applied(t, self.payout_relays(id));
                match e {
                    None => ReplayView { ledger, ..before },
                    Some(e) => if is_lost_spend(e) {
                        ReplayView { failed: before.failed.push(id), ..before }
                    } else {
                        ReplayView { ledger, error: Some(e), ..before }
                    },
                }
            }
        }
    }

    /// The state after the conflict rule decided every nonce and the ledger was
    /// rebuilt from the winners. An overflow stops the rebuild half-way and
    /// leaves the old conflict table.
    pub open spec fn resolved(self) -> (DagView, Option<DagError>) {
        let run = self.replayed(self.graph.order.len());
        match run.error {
            Some(e) => (DagView { ledger: run.ledger, ..self }, Some(e)),
            None => (
                DagView {
                    ledger: run.ledger,
                    conflicts: Map::new(
                        |id: TxHash| self.graph.loses(id) || run.failed.contains(id),
                        |id: TxHash|
                            if self.graph.loses(id) {
                                self.graph.winner(id)
                            } else {
                                NULL_PARENT
                            },
                    ),
                    ..self
                },
                None,
            ),
        }
    }

    /// Accepting a vertex from the wire: what is already stored is left alone, a
    /// spend that loses is stored and the conflict rule decides.
    pub open spec fn accepted(self, t: TxView) -> (DagView, Result<bool, DagError>) {
        if self.graph.vertices.contains_key(t.id) {
            (self, Ok(false))
        } else {
            let (d, e) = self.attached(t, true, t.relay_nodes);
            match e {
                None => (d, Ok(true)),
                Some(e) => if !is_lost_spend(e) {
                    (d, Err(e))
                } else {
                    let (s, fault) = d.stored(t);
                    match fault {
                        Some(f) => (s, Err(f)),
                        None => {
                            let (z, bad) = s.resolved();
                            (
                                z,
                                match bad {
                                    Some(b) => Err(b),
                                    None => Ok(true),
                                },
                            )
                        },
                    }
                },
            }
        }
    }
}

/// In a sound graph the parents of a stored vertex are stored, unless it is
/// genesis.
pub proof fn lemma_parents_stored(g: GraphView, h: TxHash)
    requires
        g.sound(),
        g.vertices.contains_key(h),
    ensures
        g.vertices[h].is_genesis() || (g.vertices[h].parent_1 != NULL_PARENT
            && g.vertices[h].parent_2 != NULL_PARENT && g.vertices.contains_key(
            g.vertices[h].parent_1,
        ) && g.vertices.contains_key(g.vertices[h].parent_2)),
        g.vertices[h].is_genesis() ==> h == g.order[0],
        g.order.len() > 0,
{
    assert(g.order.contains(h));
    let i = choose|i: int| 0 <= i < g.order.len() && g.order[i] == h;
    assert(g.grounded(i));
    if i > 0 {
        let t = g.vertices[h];
        let a = choose|a: int| 0 <= a < i && g.order.take(i)[a] == t.parent_1;
        let b = choose|b: int| 0 <= b < i && g.order.take(i)[b] == t.parent_2;
        assert(g.order[a] == t.parent_1);
        assert(g.order[b] == t.parent_2);
        assert(g.order.contains(t.parent_1));
        assert(g.order.contains(t.parent_2));
    }
}

/// Attaching an acceptable vertex keeps the graph sound: tips are exactly the
/// vertices without children, child sets mirror the parent links, parents come
/// before children in the attach order, and weights count approvers.
pub proof fn law_attach_keeps_sound(g: GraphView, t: TxView)
    requires
        g.sound(),
        g.vertex_fault(t) is None,
    ensures
        g.with(t).sound(),
{
    let n = g.with(t);
    let id = t.id;
    let p1 = t.parent_1;
    let p2 = t.parent_2;
    crate::dag::weights::lemma_attach_keeps_weighed(g, t);
    assert(!g.vertices.contains_key(id));
    assert(!g.order.contains(id));
    if t.is_genesis() {
        assert(g.order.len() == 0) by {
            if g.order.len() > 0 {
                assert(g.order.contains(g.order[0]));
                assert(g.vertices.contains_key(g.order[0]));
                assert(g.vertices.dom().contains(g.order[0]));
                assert(g.vertices.dom().len() > 0);
            }
        }
    } else {
        assert(g.vertices.contains_key(p1) && g.vertices.contains_key(p2));
        assert(g.order.contains(p1) && g.order.contains(p2));
        assert(p1 != id && p2 != id);
        assert(g.order.len() > 0);
    }
    assert forall|h: TxHash| n.order.contains(h) <==> #[trigger] n.vertices.contains_key(h) by {
        if n.order.contains(h) {
            let i = choose|i: int| 0 <= i < n.order.len() && n.order[i] == h;
            if i < g.order.len() {
                assert(g.order[i] == h);
                assert(g.order.contains(h));
                assert(g.vertices.contains_key(h));
            }
        }
        if g.vertices.contains_key(h) {
            assert(g.order.contains(h));
            let i = choose|i: int| 0 <= i < g.order.len() && g.order[i] == h;
            assert(n.order[i] == h);
        }
        assert(n.order[g.order.len() as int] == id);
    }
    assert(n.order.no_duplicates()) by {
        assert forall|i: int, j: int|
            0 <= i < n.order.len() && 0 <= j < n.order.len() && i != j implies n.order[i]
            != n.order[j] by {
            if i < g.order.len() && j < g.order.len() {
            } else if i < g.order.len() {
                assert(g.order.contains(g.order[i]));
            } else {
                assert(g.order.contains(g.order[j]));
            }
        }
    }
    // Nobody named the new vertex as a parent before it existed.
    assert forall|c: TxHash| !(#[trigger] n.names_parent(c, id)) by {
        if g.vertices.contains_key(c) {
            lemma_parents_stored(g, c);
        }
    }
    assert forall|p: TxHash, c: TxHash| n.vertices.contains_key(p) implies (
        #[trigger] n.children[p].contains(c) <==> n.names_parent(c, p)) by {
        if p == id {
            assert(n.children[p] =~= Set::<TxHash>::empty());
        } else {
            assert(g.vertices.contains_key(p));
            assert(g.children.contains_key(p));
            assert(g.children[p].contains(c) <==> g.names_parent(c, p));
            if c != id {
                assert(g.names_parent(c, p) == n.names_parent(c, p));
            }
        }
    }
    assert forall|h: TxHash| #[trigger]
        n.tips.contains(h) <==> n.vertices.contains_key(h) && n.children[h] =~= Set::<
            TxHash,
        >::empty() by {
        if h == id {
            assert(n.children[h] =~= Set::<TxHash>::empty());
        } else if g.vertices.contains_key(h) {
            if n.names_parent(id, h) {
                assert(n.children[h].contains(id));
            } else {
                assert(n.children[h] =~= g.children[h]);
            }
        }
    }
    assert forall|i: int| 0 <= i < n.order.len() implies #[trigger] n.grounded(i) by {
        if i < g.order.len() {
            assert(g.grounded(i));
            assert(n.order.take(i) =~= g.order.take(i));
            assert(n.order[i] == g.order[i]);
            assert(g.order.contains(g.order[i]));
            assert(g.vertices.contains_key(g.order[i]));
        } else {
            assert(n.order.take(i) =~= g.order);
        }
    }
}

/// The nonce slot of a sender as one key: address, then nonce.
pub open spec fn spend_key_of(sender: Address, nonce: u64) -> [u8; 40] {
    choose|a: [u8; 40]| a@ == sender@ + le_bytes(nonce as nat, 8)
}

/// A slot key identifies sender and nonce.
pub proof fn lemma_spend_key_injective(a: Address, m: u64, b: Address, n: u64)
    requires
        exists|k: [u8; 40]| k@ == a@ + le_bytes(m as nat, 8),
        exists|k: [u8; 40]| k@ == b@ + le_bytes(n as nat, 8),
        spend_key_of(a, m) == spend_key_of(b, n),
    ensures
        a == b,
        m == n,
{
    broadcast use lemma_le_bytes_len;

    let x = a@ + le_bytes(m as nat, 8);
    let y = b@ + le_bytes(n as nat, 8);
    assert(spend_key_of(a, m)@ == x);
    assert(spend_key_of(b, n)@ == y);
    assert(x.subrange(0, 32) =~= a@);
    assert(y.subrange(0, 32) =~= b@);
    assert(x.subrange(32, 40) =~= le_bytes(m as nat, 8));
    assert(y.subrange(32, 40) =~= le_bytes(n as nat, 8));
    lemma_array_view_eq(a, b);
    lemma_pow256_values();
    lemma_le_value_of_bytes(m as nat, 8);
    lemma_le_value_of_bytes(n as nat, 8);
}

/// At most one spend wins a nonce.
pub proof fn lemma_winner_unique(g: GraphView, id: TxHash, w: TxHash)
    requires
        g.wins_over(w, id),
    ensures
        g.winner(id) == w,
{
    let c = g.winner(id);
    assert(g.wins_over(c, id));
    if c != w {
        assert(g.rivals(w, id));
        assert(g.rivals(c, id));
        assert(g.outranks(c, w));
        assert(g.outranks(w, c));
    }
}

} // verus!
