//! What holds of the DAG and its ledger as a whole.

use vstd::prelude::*;

use crate::bytes::be_value;
use crate::crypto::mobile_only::{HostArch, HostObservation, ShieldError};
use crate::dag::engine::{closure_of, composed, AttachingDevice};
use crate::dag::error::DagError;
use crate::dag::model::{amount_at, climb, lemma_parents_stored, lemma_winner_unique, next_up, parents_in, relay_payout,
    DagView, GraphView, LedgerView, ANCESTOR_WALK_BOUND};
use crate::dag::tx::{distinct, DagTransaction, TxHash, TxView, NULL_PARENT};
use crate::economics::{law_subsidy_respects_cap, share, tx_subsidy, DAG_MINER_SHARE_PERCENT,
    FIXED_TRANSACTION_FEE, HARD_CAP};
use crate::kron::wallet::KronKeypair;
use crate::types::Address;

verus! {

/// The sum of all amounts in a finite table.
pub open spec fn total(m: Map<Address, u64>) -> nat
    decreases m.dom().len(),
    when m.dom().finite()
{
    if m.dom().len() == 0 {
        0
    } else {
        let k = m.dom().choose();
        m[k] as nat + total(m.remove(k))
    }
}

proof fn lemma_total_remove(m: Map<Address, u64>, k: Address)
    requires
        m.dom().finite(),
        m.contains_key(k),
    ensures
        total(m) == m[k] + total(m.remove(k)),
    decreases m.dom().len(),
{
    assert(m.dom().contains(k));
    assert(m.dom().len() > 0);
    let c = m.dom().choose();
    assert(m.dom().contains(c));
    if c != k {
        lemma_total_remove(m.remove(c), k);
        lemma_total_remove(m.remove(k), c);
        assert(m.remove(c).remove(k) =~= m.remove(k).remove(c));
    }
}

/// Writing one entry moves the sum by the difference.
pub proof fn lemma_total_insert(m: Map<Address, u64>, k: Address, v: u64)
    requires
        m.dom().finite(),
    ensures
        m.insert(k, v).dom().finite(),
        total(m.insert(k, v)) == total(m) - amount_at(m, k) + v,
        amount_at(m, k) <= total(m),
{
    let n = m.insert(k, v);
    assert(n.dom() =~= m.dom().insert(k));
    lemma_total_remove(n, k);
    if m.contains_key(k) {
        lemma_total_remove(m, k);
        assert(n.remove(k) =~= m.remove(k));
    } else {
        assert(n.remove(k) =~= m);
    }
}

/// A transfer moves the amount and takes the fee out of circulation; minting
/// pays it out again.
pub proof fn law_transfer_takes_fee(l: LedgerView, t: TxView)
    requires
        l.balances.dom().finite(),
        l.transfer_fault(t) is None,
    ensures
        l.transferred(t).balances.dom().finite(),
        total(l.transferred(t).balances) == total(l.balances) - t.fee,
{
    if t.sender == t.recipient {
        lemma_total_insert(l.balances, t.sender, (l.balance(t.sender) - t.fee) as u64);
    } else {
        let from = (l.balance(t.sender) - t.amount - t.fee) as u64;
        lemma_total_insert(l.balances, t.sender, from);
        lemma_total_insert(
            l.balances.insert(t.sender, from),
            t.recipient,
            (l.balance(t.recipient) + t.amount) as u64,
        );
    }
}

proof fn lemma_credit_total(l: LedgerView, a: Address, amount: u64)
    requires
        l.balances.dom().finite(),
        l.can_credit(a, amount),
    ensures
        l.credited(a, amount).balances.dom().finite(),
        total(l.credited(a, amount).balances) == total(l.balances) + amount,
{
    if amount > 0 {
        lemma_total_insert(l.balances, a, (l.balance(a) + amount) as u64);
    }
}

/// What relays number `i` and on get together.
pub open spec fn payouts_from(n: nat, i: nat, amount: u64) -> nat
    decreases n - i,
{
    if i >= n {
        0
    } else {
        relay_payout(n, i, amount) as nat + payouts_from(n, i + 1, amount)
    }
}

proof fn lemma_payouts_tail(n: nat, i: nat, amount: u64)
    requires
        1 <= i <= n,
    ensures
        payouts_from(n, i, amount) == (n - i) * (amount as nat / n),
    decreases n - i,
{
    let each = amount as nat / n;
    if i < n {
        lemma_payouts_tail(n, i + 1, amount);
        assert(each <= amount) by (nonlinear_arith)
            requires
                each == amount as nat / n,
                n >= 1,
        ;
        assert((n - i) * each == each + (n - i - 1) * each) by (nonlinear_arith);
    } else {
        assert((n - i) * each == 0) by (nonlinear_arith)
            requires
                n - i == 0,
        ;
    }
}

/// The relays' payouts add up to exactly the relay total, whatever their number.
pub proof fn law_relay_payouts_conserve(n: nat, amount: u64)
    requires
        n >= 1,
    ensures
        payouts_from(n, 0, amount) == amount,
{
    let each = amount as nat / n;
    let dust = amount as nat % n;
    lemma_payouts_tail(n, 1, amount);
    vstd::arithmetic::div_mod::lemma_fundamental_div_mod(amount as int, n as int);
    assert(each + dust <= amount) by (nonlinear_arith)
        requires
            amount == n * each + dust,
            n >= 1,
            each >= 0,
    ;
    assert(each + dust + (n - 1) * each == amount) by (nonlinear_arith)
        requires
            amount == n * each + dust,
    ;
}

proof fn lemma_relays_paid_total(l: LedgerView, relays: Seq<Address>, i: nat, amount: u64)
    requires
        l.balances.dom().finite(),
        l.relays_paid(relays, i, amount).1,
    ensures
        l.relays_paid(relays, i, amount).0.balances.dom().finite(),
        total(l.relays_paid(relays, i, amount).0.balances) == total(l.balances) + payouts_from(
            relays.len(),
            i,
            amount,
        ),
        l.relays_paid(relays, i, amount).0.supply == l.supply,
        l.relays_paid(relays, i, amount).0.count == l.count,
    decreases relays.len() - i,
{
    if i < relays.len() {
        let pay = relay_payout(relays.len(), i, amount);
        let a = relays[i as int];
        lemma_credit_total(l, a, pay);
        let paid = l.credited(a, pay);
        let accrued = amount_at(paid.relay_credits, a);
        lemma_relays_paid_total(
            LedgerView {
                relay_credits: paid.relay_credits.insert(a, (accrued + pay) as u64),
                ..paid
            },
            relays,
            i + 1,
            amount,
        );
    }
}

/// A mint puts exactly subsidy and fee into circulation, grows the supply by the
/// subsidy, and counts one vertex.
pub proof fn law_mint_pays_pool(l: LedgerView, fee: u64, miner: Address, relays: Seq<Address>)
    requires
        l.balances.dom().finite(),
        l.minted(fee, miner, relays).1,
    ensures
        ({
            let n = l.minted(fee, miner, relays).0;
            let subsidy = tx_subsidy(l.count, l.supply);
            &&& n.balances.dom().finite()
            &&& total(n.balances) == total(l.balances) + subsidy + fee
            &&& n.supply == l.supply + subsidy
            &&& n.count == l.count + 1
            &&& n.nonces == l.nonces
        }),
{
    let subsidy = tx_subsidy(l.count, l.supply);
    let pool = (subsidy + fee) as u64;
    let cut = share(pool, DAG_MINER_SHARE_PERCENT);
    let rs = distinct(relays);
    let pay = if rs.len() == 0 {
        pool
    } else {
        cut
    };
    lemma_credit_total(l, miner, pay);
    let mid = l.credited(miner, pay);
    lemma_relays_paid_total(mid, rs, 0, (pool - cut) as u64);
    lemma_relays_keep_nonces(mid, rs, 0, (pool - cut) as u64);
    if rs.len() > 0 {
        law_relay_payouts_conserve(rs.len(), (pool - cut) as u64);
    }
    if l.supply < HARD_CAP {
        law_subsidy_respects_cap(l.count, l.supply);
    }
}

proof fn lemma_relays_keep_nonces(l: LedgerView, relays: Seq<Address>, i: nat, amount: u64)
    ensures
        l.relays_paid(relays, i, amount).0.nonces == l.nonces,
    decreases relays.len() - i,
{
    if i < relays.len() {
        let pay = relay_payout(relays.len(), i, amount);
        let a = relays[i as int];
        if l.can_credit(a, pay) {
            let paid = l.credited(a, pay);
            let accrued = amount_at(paid.relay_credits, a);
            if accrued + pay <= u64::MAX {
                lemma_relays_keep_nonces(
                    LedgerView {
                        relay_credits: paid.relay_credits.insert(a, (accrued + pay) as u64),
                        ..paid
                    },
                    relays,
                    i + 1,
                    amount,
                );
            }
        }
    }
}

/// A confirmed vertex changes the sum of all balances by what it mints and by
/// nothing else: balances minus supply stay the same.
pub proof fn law_confirmation_conserves(l: LedgerView, t: TxView, relays: Seq<Address>)
    requires
        l.balances.dom().finite(),
        l.applied(t, relays).1 is None,
    ensures
        l.applied(t, relays).0.balances.dom().finite(),
        total(l.applied(t, relays).0.balances) - l.applied(t, relays).0.supply == total(l.balances)
            - l.supply,
        l.applied(t, relays).0.supply >= l.supply,
        l.applied(t, relays).0.count == l.count + 1,
{
    law_transfer_takes_fee(l, t);
    law_mint_pays_pool(l.transferred(t), t.fee, t.sender, relays);
}

/// The supply never passes the cap, however a mint ends.
pub proof fn law_supply_stays_capped(l: LedgerView, fee: u64, miner: Address, relays: Seq<Address>)
    requires
        l.supply <= HARD_CAP,
    ensures
        l.minted(fee, miner, relays).0.supply <= HARD_CAP,
{
    let subsidy = tx_subsidy(l.count, l.supply);
    law_subsidy_respects_cap(l.count, l.supply);
    if subsidy + fee <= u64::MAX {
        let pool = (subsidy + fee) as u64;
        let cut = share(pool, DAG_MINER_SHARE_PERCENT);
        let rs = distinct(relays);
        let pay = if rs.len() == 0 {
            pool
        } else {
            cut
        };
        if l.can_credit(miner, pay) {
            lemma_relays_keep_supply(l.credited(miner, pay), rs, 0, (pool - cut) as u64);
        }
    }
}

proof fn lemma_relays_keep_supply(l: LedgerView, relays: Seq<Address>, i: nat, amount: u64)
    ensures
        l.relays_paid(relays, i, amount).0.supply == l.supply,
    decreases relays.len() - i,
{
    if i < relays.len() {
        let pay = relay_payout(relays.len(), i, amount);
        let a = relays[i as int];
        if l.can_credit(a, pay) {
            let paid = l.credited(a, pay);
            let accrued = amount_at(paid.relay_credits, a);
            if accrued + pay <= u64::MAX {
                lemma_relays_keep_supply(
                    LedgerView {
                        relay_credits: paid.relay_credits.insert(a, (accrued + pay) as u64),
                        ..paid
                    },
                    relays,
                    i + 1,
                    amount,
                );
            }
        }
    }
}

/// Attaching keeps the supply under the cap.
pub proof fn law_attach_respects_cap(d: DagView, t: TxView, mint: bool, relays: Seq<Address>)
    requires
        d.ledger.supply <= HARD_CAP,
    ensures
        d.attached(t, mint, relays).0.ledger.supply <= HARD_CAP,
{
    law_supply_stays_capped(d.ledger.transferred(t), t.fee, t.sender, relays);
}

/// Attaching a user vertex changes the sum of all balances by the subsidy alone.
pub proof fn law_attach_conserves(d: DagView, t: TxView, relays: Seq<Address>)
    requires
        d.ledger.balances.dom().finite(),
        !t.is_genesis(),
        d.attached(t, true, relays).1 is None,
    ensures
        ({
            let n = d.attached(t, true, relays).0.ledger;
            total(n.balances) - n.supply == total(d.ledger.balances) - d.ledger.supply
        }),
{
    law_confirmation_conserves(d.ledger, t, relays);
}

/// A replay accounts for every unit: balances are the faucet credits plus what
/// was minted, and the supply is under the cap.
pub proof fn law_replay_accounts_for_every_unit(d: DagView, n: nat)
    requires
        d.faucet.dom().finite(),
        d.replayed(n).error is None,
    ensures
        d.replayed(n).ledger.balances.dom().finite(),
        total(d.replayed(n).ledger.balances) == total(d.faucet) + d.replayed(n).ledger.supply,
        d.replayed(n).ledger.supply <= HARD_CAP,
    decreases n,
{
    if n > 0 {
        let before = d.replayed((n - 1) as nat);
        let id = d.graph.order[n - 1];
        let t = d.graph.vertices[id];
        assert(before.error is None);
        law_replay_accounts_for_every_unit(d, (n - 1) as nat);
        if !(d.graph.loses(id) || t.is_genesis()) {
            let relays = d.payout_relays(id);
            if before.ledger.applied(t, relays).1 is None {
                law_confirmation_conserves(before.ledger, t, relays);
                law_supply_stays_capped(
                    before.ledger.transferred(t),
                    t.fee,
                    t.sender,
                    relays,
                );
            }
        }
    }
}

/// After the conflict rule ran, every balance is backed by the faucet or by
/// minted supply.
pub proof fn law_rebuild_accounts_for_every_unit(d: DagView)
    requires
        d.faucet.dom().finite(),
        d.resolved().1 is None,
    ensures
        total(d.resolved().0.ledger.balances) == total(d.faucet) + d.resolved().0.ledger.supply,
        d.resolved().0.ledger.supply <= HARD_CAP,
{
    law_replay_accounts_for_every_unit(d, d.graph.order.len());
}

/// Rebuilding again changes nothing: the rule depends on graph, carriers, and
/// faucet alone.
pub proof fn law_rebuild_is_idempotent(d: DagView)
    requires
        d.resolved().1 is None,
    ensures
        d.resolved().0.resolved() == d.resolved(),
{
    let e = d.resolved().0;
    lemma_replay_same(d, e, d.graph.order.len());
    assert(e.resolved().0 =~= d.resolved().0);
}

proof fn lemma_replay_same(d: DagView, e: DagView, n: nat)
    requires
        d.graph == e.graph,
        d.relay_of == e.relay_of,
        d.faucet == e.faucet,
    ensures
        d.replayed(n) == e.replayed(n),
    decreases n,
{
    if n > 0 {
        lemma_replay_same(d, e, (n - 1) as nat);
        let id = d.graph.order[n - 1];
        assert(d.payout_relays(id) == e.payout_relays(id));
    }
}

/// A spend that was attached uses its nonce up: a second vertex with the same
/// sender and nonce is refused as a double spend.
pub proof fn law_nonce_is_spent_once(l: LedgerView, t: TxView, relays: Seq<Address>, other: TxView)
    requires
        l.applied(t, relays).1 is None,
        t.nonce < u64::MAX,
        other.sender == t.sender,
        other.nonce == t.nonce,
    ensures
        l.applied(t, relays).0.transfer_fault(other) == Some(
            DagError::DoubleSpend { nonce: other.nonce },
        ),
{
    let m = l.transferred(t);
    lemma_mint_keeps_nonces(m, t.fee, t.sender, relays);
    assert(m.nonce(t.sender) == next_up(t.nonce));
}

/// A mint leaves the nonces alone.
pub proof fn lemma_mint_keeps_nonces(l: LedgerView, fee: u64, miner: Address, relays: Seq<Address>)
    ensures
        l.minted(fee, miner, relays).0.nonces == l.nonces,
{
    let subsidy = tx_subsidy(l.count, l.supply);
    if subsidy + fee <= u64::MAX {
        let pool = (subsidy + fee) as u64;
        let cut = share(pool, DAG_MINER_SHARE_PERCENT);
        let rs = distinct(relays);
        let pay = if rs.len() == 0 {
            pool
        } else {
            cut
        };
        if l.can_credit(miner, pay) {
            lemma_relays_keep_nonces(l.credited(miner, pay), rs, 0, (pool - cut) as u64);
        }
    }
}

/// A vertex that is already stored is ignored, whatever its sidecar says.
pub proof fn law_known_vertex_is_ignored(d: DagView, t: TxView)
    requires
        d.graph.vertices.contains_key(t.id),
    ensures
        d.accepted(t) == (d, Ok::<bool, DagError>(false)),
{
}

/// A refused vertex leaves graph and ledger as they were, unless a mint
/// overflowed.
pub proof fn law_refusal_changes_nothing(d: DagView, t: TxView, mint: bool, relays: Seq<Address>)
    requires
        d.attached(t, mint, relays).1 is Some,
        d.graph.vertex_fault(t) is Some || d.ledger.transfer_fault(t) is Some,
    ensures
        d.attached(t, mint, relays).0 == d,
{
}

/// `w` competes with `id` and outranks its rivals among the first `n` vertices.
spec fn best_of(g: GraphView, id: TxHash, n: nat, w: TxHash) -> bool {
    &&& g.rivals(w, id)
    &&& forall|j: int|
        #![trigger g.order[j]]
        0 <= j < n && g.rivals(g.order[j], id) && g.order[j] != w ==> g.outranks(w, g.order[j])
}

proof fn lemma_best_in_prefix(g: GraphView, id: TxHash, n: nat) -> (r: Option<TxHash>)
    requires
        n <= g.order.len(),
    ensures
        match r {
            Some(w) => best_of(g, id, n, w),
            None => forall|j: int| #![trigger g.order[j]] 0 <= j < n ==> !g.rivals(g.order[j], id),
        },
    decreases n,
{
    if n == 0 {
        None
    } else {
        let last = g.order[n - 1];
        let before = lemma_best_in_prefix(g, id, (n - 1) as nat);
        if !g.rivals(last, id) {
            before
        } else {
            match before {
                None => Some(last),
                Some(w) => {
                    if last == w || g.outranks(w, last) {
                        Some(w)
                    } else {
                        lemma_ranks_total(w, last);
                        Some(last)
                    }
                },
            }
        }
    }
}

proof fn lemma_ranks_total(a: TxHash, b: TxHash)
    requires
        a != b,
    ensures
        crate::bytes::be_value(a@) != crate::bytes::be_value(b@),
{
    if crate::bytes::be_value(a@) == crate::bytes::be_value(b@) {
        crate::bytes::lemma_key_injective(a, b);
    }
}

/// Of the spends of one nonce exactly one wins: there is a winner, it is one of
/// them, and every other one loses to it.
pub proof fn law_one_winner_per_nonce(g: GraphView, id: TxHash)
    requires
        g.sound(),
        g.spends(id),
    ensures
        g.wins_over(g.winner(id), id),
        !g.loses(g.winner(id)),
        forall|o: TxHash| #[trigger]
            g.rivals(o, id) && o != g.winner(id) ==> g.loses(o) && g.winner(o) == g.winner(id),
{
    assert(g.vertices.contains_key(id));
    assert(g.order.contains(id));
    let i = choose|i: int| 0 <= i < g.order.len() && g.order[i] == id;
    assert(g.rivals(g.order[i], id));
    let w = match lemma_best_in_prefix(g, id, g.order.len()) {
        Some(w) => w,
        None => id,
    };
    assert(best_of(g, id, g.order.len(), w));
    assert forall|o: TxHash| #[trigger] g.rivals(o, id) && o != w implies g.outranks(w, o) by {
        assert(g.vertices.contains_key(o));
        assert(g.order.contains(o));
        let j = choose|j: int| 0 <= j < g.order.len() && g.order[j] == o;
        assert(g.rivals(g.order[j], id));
    }
    assert(g.wins_over(w, id));
    lemma_winner_unique(g, id, w);
    assert forall|o: TxHash| #[trigger] g.rivals(o, id) implies g.winner(o) == w by {
        assert forall|x: TxHash| #[trigger] g.rivals(x, o) && x != w implies g.outranks(w, x) by {
            assert(g.rivals(x, id));
        }
        assert(g.rivals(w, o));
        assert(g.wins_over(w, o));
        lemma_winner_unique(g, o, w);
    }
}

/// The conflict rule: of two spends of one nonce the winner has the higher cumulative
/// weight, or the same weight and the greater id.
pub proof fn law_heavier_spend_wins(g: GraphView, id: TxHash, other: TxHash)
    requires
        g.sound(),
        g.rivals(other, id),
        other != g.winner(id),
    ensures
        ({
            let won = amount_at(g.weights, g.winner(id));
            let lost = amount_at(g.weights, other);
            won > lost || (won == lost && be_value(g.winner(id)@) > be_value(other@))
        }),
{
    law_one_winner_per_nonce(g, id);
}

/// A spend that lost its nonce stays in the graph and changes no balance, no nonce and
/// no supply.
pub proof fn law_lost_spend_moves_nothing(d: DagView, n: nat)
    requires
        n < d.graph.order.len(),
        d.graph.loses(d.graph.order[n as int]),
    ensures
        d.replayed(n + 1).ledger == d.replayed(n).ledger,
        d.resolved().0.graph == d.graph,
{
}

/// The last attached vertex is a tip.
pub proof fn lemma_last_is_tip(g: GraphView)
    requires
        g.sound(),
        g.order.len() > 0,
    ensures
        g.tips.contains(g.order.last()),
{
    let h = g.order.last();
    let last = g.order.len() - 1;
    assert(g.order[last] == h);
    assert(g.order.contains(h));
    assert(g.vertices.contains_key(h));
    assert(g.children[h] =~= Set::<TxHash>::empty()) by {
        assert forall|c: TxHash| !g.children[h].contains(c) by {
            if g.children[h].contains(c) {
                assert(g.names_parent(c, h));
                assert(g.order.contains(c));
                let j = choose|j: int| 0 <= j < g.order.len() && g.order[j] == c;
                assert(g.grounded(j));
                if j > 0 {
                    assert(g.order.take(j).contains(h));
                    let before = g.order.take(j);
                    let k = choose|k: int| 0 <= k < before.len() && before[k] == h;
                    assert(g.order[k] == h);
                }
            }
        }
    }
}

/// What a wallet composes, its graph accepts: with a balance that covers amount and
/// fee, a composed transfer is stored and moves the money. Only an overflow while
/// minting can still be reported.
pub proof fn law_composed_transfer_attaches(
    d: DagView,
    wallet: &KronKeypair,
    recipient: Address,
    amount: u64,
    tx: DagTransaction,
)
    requires
        d.graph.sound(),
        d.graph.order.len() > 0,
        !d.graph.vertices.contains_key(NULL_PARENT),
        composed(d, wallet, recipient, amount, Ok(tx)),
        wallet.matched(),
        !d.graph.vertices.contains_key(tx@.id),
        amount + FIXED_TRANSACTION_FEE <= d.ledger.balance(wallet.ledger_address()),
        recipient != wallet.ledger_address() ==> d.ledger.can_credit(recipient, amount),
    ensures
        d.graph.vertex_fault(tx@) is None,
        d.ledger.transfer_fault(tx@) is None,
        d.attached(tx@, true, tx@.relay_nodes).0.graph == d.graph.with(tx@),
        d.attached(tx@, true, tx@.relay_nodes).1 matches Some(e) ==> e == DagError::Overflow,
{
    let g = d.graph;
    lemma_last_is_tip(g);
    let tip = g.order.last();
    assert(g.tips.contains(tip));
    assert(g.tips != Set::<TxHash>::empty());
    assert(g.order.contains(g.order[0]));
    assert(g.vertices.contains_key(g.genesis_id()));
    assert(g.vertices.contains_key(tx@.parent_1) && g.vertices.contains_key(tx@.parent_2)) by {
        assert(g.tips.contains(tx@.parent_1));
    }
    assert(tx@.parent_1 != NULL_PARENT && tx@.parent_2 != NULL_PARENT);
    assert(tx@.relays_proven());
}

/// A PC neither mines nor carries: on such a host nothing is attached for a miner or a
/// relay, and nothing changes.
pub proof fn law_pc_attaches_nothing(
    d: DagView,
    t: TxView,
    device: AttachingDevice,
    host: &HostObservation,
)
    requires
        host.arch != HostArch::Aarch64,
        device != AttachingDevice::LocalGraph,
    ensures
        d.attached_as(t, device, host).0 == d,
        d.attached_as(t, device, host).1 == Some(
            DagError::Shield(
                if host.cloud {
                    ShieldError::CloudEnvironment
                } else {
                    ShieldError::PcArchitecture
                },
            ),
        ),
{
}

/// `s` contains `starts` and, with a vertex, its parents.
pub open spec fn upward_closed(v: Map<TxHash, TxView>, s: Set<TxHash>) -> bool {
    forall|h: TxHash, p: TxHash| #[trigger]
        s.contains(h) && #[trigger] parents_in(v, h).contains(p) ==> s.contains(p)
}

/// A walk stays within what holds its starts and is closed under parents.
pub proof fn lemma_climb_within(
    v: Map<TxHash, TxView>,
    stack: Seq<TxHash>,
    visited: Set<TxHash>,
    steps: nat,
    s: Set<TxHash>,
)
    requires
        upward_closed(v, s),
        visited.subset_of(s),
        forall|i: int| 0 <= i < stack.len() ==> s.contains(#[trigger] stack[i]),
    ensures
        climb(v, stack, visited, steps).0.subset_of(s),
        visited.subset_of(climb(v, stack, visited, steps).0),
    decreases ANCESTOR_WALK_BOUND - steps, stack.len(),
{
    if stack.len() > 0 {
        let h = stack.last();
        let rest = stack.drop_last();
        if visited.contains(h) {
            lemma_climb_within(v, rest, visited, steps, s);
        } else if steps < ANCESTOR_WALK_BOUND {
            let next = rest + parents_in(v, h);
            assert(s.contains(stack[stack.len() - 1]));
            assert forall|i: int| 0 <= i < next.len() implies s.contains(#[trigger] next[i]) by {
                if i < rest.len() {
                    assert(next[i] == stack[i]);
                } else {
                    let p = next[i];
                    assert(parents_in(v, h)[i - rest.len()] == p);
                    assert(parents_in(v, h).contains(p));
                }
            }
            lemma_climb_within(v, next, visited.insert(h), steps + 1, s);
        }
    }
}

/// What the walk has left open: a visited vertex whose parent is neither visited
/// nor on the stack.
spec fn walk_covers(v: Map<TxHash, TxView>, stack: Seq<TxHash>, visited: Set<TxHash>) -> bool {
    forall|h: TxHash, p: TxHash| #[trigger]
        visited.contains(h) && #[trigger] parents_in(v, h).contains(p) ==> visited.contains(p)
            || stack.contains(p)
}

proof fn lemma_climb_closes(
    v: Map<TxHash, TxView>,
    stack: Seq<TxHash>,
    visited: Set<TxHash>,
    steps: nat,
)
    requires
        walk_covers(v, stack, visited),
        climb(v, stack, visited, steps).1 is None,
    ensures
        upward_closed(v, climb(v, stack, visited, steps).0),
        forall|i: int|
            0 <= i < stack.len() ==> climb(v, stack, visited, steps).0.contains(
                #[trigger] stack[i],
            ),
        visited.subset_of(climb(v, stack, visited, steps).0),
    decreases ANCESTOR_WALK_BOUND - steps, stack.len(),
{
    let out = climb(v, stack, visited, steps).0;
    if stack.len() > 0 {
        let h = stack.last();
        let rest = stack.drop_last();
        if visited.contains(h) {
            assert forall|a: TxHash, p: TxHash| #[trigger]
                visited.contains(a) && #[trigger] parents_in(v, a).contains(p) implies visited.contains(
                p,
            ) || rest.contains(p) by {
                if stack.contains(p) && !visited.contains(p) {
                    let k = choose|k: int| 0 <= k < stack.len() && stack[k] == p;
                    assert(rest[k] == p);
                }
            }
            lemma_climb_closes(v, rest, visited, steps);
            assert forall|i: int| 0 <= i < stack.len() implies out.contains(#[trigger] stack[i]) by {
                if i < rest.len() {
                    assert(rest[i] == stack[i]);
                }
            }
        } else if steps < ANCESTOR_WALK_BOUND {
            let ps = parents_in(v, h);
            let next = rest + ps;
            let seen = visited.insert(h);
            assert forall|a: TxHash, p: TxHash| #[trigger]
                seen.contains(a) && #[trigger] parents_in(v, a).contains(p) implies seen.contains(p)
                || next.contains(p) by {
                if a == h {
                    let k = choose|k: int| 0 <= k < ps.len() && ps[k] == p;
                    assert(next[rest.len() + k] == p);
                } else if stack.contains(p) && !seen.contains(p) {
                    let k = choose|k: int| 0 <= k < stack.len() && stack[k] == p;
                    assert(next[k] == p);
                }
            }
            lemma_climb_closes(v, next, seen, steps + 1);
            assert forall|i: int| 0 <= i < stack.len() implies out.contains(#[trigger] stack[i]) by {
                if i < rest.len() {
                    assert(next[i] == stack[i]);
                } else {
                    assert(seen.contains(h));
                }
            }
        }
    }
}

/// A walk that the bound did not cut short visits exactly the ancestors: it
/// holds the starting vertices and the parents of whatever it holds, and it lies
/// within every set that does.
pub proof fn law_unbounded_walk_is_the_ancestry(v: Map<TxHash, TxView>, starts: Seq<TxHash>)
    requires
        climb(v, starts, Set::empty(), 0).1 is None,
    ensures
        ({
            let seen = climb(v, starts, Set::empty(), 0).0;
            &&& forall|i: int| 0 <= i < starts.len() ==> seen.contains(#[trigger] starts[i])
            &&& upward_closed(v, seen)
            &&& forall|s: Set<TxHash>|
                upward_closed(v, s) && (forall|i: int|
                    0 <= i < starts.len() ==> s.contains(#[trigger] starts[i]))
                    ==> #[trigger] seen.subset_of(s)
        }),
{
    lemma_climb_closes(v, starts, Set::empty(), 0);
    assert forall|s: Set<TxHash>|
        upward_closed(v, s) && (forall|i: int|
            0 <= i < starts.len() ==> s.contains(
                #[trigger] starts[i],
            )) implies #[trigger] climb(v, starts, Set::empty(), 0).0.subset_of(s) by {
        lemma_climb_within(v, starts, Set::empty(), 0, s);
    }
}

proof fn lemma_climb_not_cut(
    g: GraphView,
    stack: Seq<TxHash>,
    visited: Set<TxHash>,
    steps: nat,
)
    requires
        g.sound(),
        g.vertices.dom().len() <= ANCESTOR_WALK_BOUND,
        forall|i: int| 0 <= i < stack.len() ==> g.vertices.contains_key(#[trigger] stack[i]),
        visited.subset_of(g.vertices.dom()),
        steps == visited.len(),
    ensures
        climb(g.vertices, stack, visited, steps).1 is None,
    decreases ANCESTOR_WALK_BOUND - steps, stack.len(),
{
    let v = g.vertices;
    vstd::set_lib::lemma_len_subset(visited, v.dom());
    if stack.len() > 0 {
        let h = stack.last();
        let rest = stack.drop_last();
        assert(v.contains_key(stack[stack.len() - 1]));
        assert forall|i: int| 0 <= i < rest.len() implies v.contains_key(#[trigger] rest[i]) by {
            assert(v.contains_key(stack[i]));
        }
        if visited.contains(h) {
            lemma_climb_not_cut(g, rest, visited, steps);
        } else {
            let seen = visited.insert(h);
            assert(seen.subset_of(v.dom()));
            vstd::set_lib::lemma_len_subset(seen, v.dom());
            lemma_parents_stored(g, h);
            let next = rest + parents_in(v, h);
            assert forall|i: int| 0 <= i < next.len() implies v.contains_key(#[trigger] next[i]) by {
                if i < rest.len() {
                    assert(v.contains_key(rest[i]));
                }
            }
            lemma_climb_not_cut(g, next, seen, steps + 1);
        }
    }
}

/// The walk from a stored vertex of a graph within the walk bound meets stored vertices
/// only.
pub proof fn law_walk_stays_stored(g: GraphView, t: TxHash)
    requires
        g.sound(),
        g.vertices.dom().len() <= ANCESTOR_WALK_BOUND,
        g.vertices.contains_key(t),
    ensures
        closure_of(g, t).subset_of(g.vertices.dom()),
{
    let v = g.vertices;
    let all = v.dom();
    assert(upward_closed(v, all)) by {
        assert forall|h: TxHash, p: TxHash| #[trigger]
            all.contains(h) && #[trigger] parents_in(v, h).contains(p) implies all.contains(p) by {
            lemma_parents_stored(g, h);
        }
    }
    lemma_climb_not_cut(g, seq![t], Set::empty(), 0);
    lemma_climb_within(v, seq![t], Set::empty(), 0, all);
}

/// Every vertex of a graph within the walk bound is met on the walk from some tip.
pub proof fn law_tips_reach_everything(g: GraphView, h: TxHash) -> (t: TxHash)
    requires
        g.sound(),
        g.vertices.dom().len() <= ANCESTOR_WALK_BOUND,
        g.vertices.contains_key(h),
    ensures
        g.tips.contains(t),
        closure_of(g, t).contains(h),
{
    assert(g.order.contains(h));
    let i = choose|i: int| 0 <= i < g.order.len() && g.order[i] == h;
    lemma_tip_above(g, i)
}

proof fn lemma_tip_above(g: GraphView, i: int) -> (t: TxHash)
    requires
        g.sound(),
        g.vertices.dom().len() <= ANCESTOR_WALK_BOUND,
        0 <= i < g.order.len(),
    ensures
        g.tips.contains(t),
        closure_of(g, t).contains(g.order[i]),
    decreases g.order.len() - i,
{
    let h = g.order[i];
    let v = g.vertices;
    assert(g.order.contains(h));
    assert(v.contains_key(h));
    if g.tips.contains(h) {
        lemma_climb_not_cut(g, seq![h], Set::empty(), 0);
        law_unbounded_walk_is_the_ancestry(v, seq![h]);
        assert(seq![h][0] == h);
        h
    } else {
        let c = choose|c: TxHash| g.children[h].contains(c);
        assert(g.children[h] != Set::<TxHash>::empty());
        assert(exists|c: TxHash| g.children[h].contains(c)) by {
            if forall|c: TxHash| !g.children[h].contains(c) {
                assert(g.children[h] =~= Set::<TxHash>::empty());
            }
        }
        assert(g.children[h].contains(c));
        assert(g.names_parent(c, h));
        assert(g.order.contains(c));
        let j = choose|j: int| 0 <= j < g.order.len() && g.order[j] == c;
        assert(g.grounded(j));
        if j == 0 {
            assert(false);
        }
        let before = g.order.take(j);
        assert(before.contains(h));
        let k = choose|k: int| 0 <= k < before.len() && before[k] == h;
        assert(g.order[k] == h);
        assert(k == i);
        let t = lemma_tip_above(g, j);
        assert(v.contains_key(t));
        assert forall|a: int| 0 <= a < seq![t].len() implies v.contains_key(#[trigger] seq![t][a]) by {}
        lemma_climb_not_cut(g, seq![t], Set::empty(), 0);
        law_unbounded_walk_is_the_ancestry(v, seq![t]);
        let ps = parents_in(v, c);
        assert(ps.contains(h)) by {
            if v[c].parent_1 == h {
                assert(ps[0] == h);
            } else {
                assert(ps[ps.len() - 1] == h);
            }
        }
        t
    }
}

} // verus!
