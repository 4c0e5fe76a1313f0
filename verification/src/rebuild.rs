//! What a rebuild of the ledger gives back, and what merges and conflicts mean for it.

use vstd::prelude::*;

use crate::crypto::lattice::address_of;
use crate::dag::accounts::{law_confirmation_pays_each_account, law_relay_is_paid_once,
    law_repeated_relays_count_once};
use crate::dag::engine::{genesis_key, genesis_tx};
use crate::dag::error::DagError;
use crate::dag::laws::law_one_winner_per_nonce;
use crate::dag::model::{amount_at, is_lost_spend, law_attach_keeps_sound, DagView, GraphView,
    LedgerView};
use crate::dag::sync::{MergeView, SyncError};
use crate::dag::tx::{distinct, TxHash, TxView, NULL_PARENT};
use crate::economics::tx_subsidy;
use crate::interleaved::{due, run, Step};
use crate::persist::genesis_state;
use crate::types::Address;

verus! {

/// No two stored transfers spend the same nonce of the same sender.
pub open spec fn uncontested(g: GraphView) -> bool {
    forall|a: TxHash, b: TxHash|
        #![trigger g.vertices.contains_key(a), g.vertices.contains_key(b)]
        g.vertices.contains_key(a) && g.vertices.contains_key(b) && !g.vertices[a].is_genesis()
            && !g.vertices[b].is_genesis() && g.vertices[a].sender == g.vertices[b].sender
            && g.vertices[a].nonce == g.vertices[b].nonce ==> a == b
}

/// Where nothing competes nothing loses.
proof fn lemma_nobody_loses(g: GraphView, id: TxHash)
    requires
        g.sound(),
        uncontested(g),
    ensures
        !g.loses(id),
{
    if g.spends(id) {
        law_one_winner_per_nonce(g, id);
        let w = g.winner(id);
        assert(g.rivals(w, id));
        assert(g.vertices.contains_key(w) && g.vertices.contains_key(id));
    }
}

/// A rebuild goes over the vertices that two states share in the same way, where nothing
/// competes in either.
proof fn lemma_replay_shared(d: DagView, e: DagView, n: nat)
    requires
        d.graph.sound(),
        e.graph.sound(),
        uncontested(d.graph),
        uncontested(e.graph),
        d.faucet == e.faucet,
        n <= d.graph.order.len(),
        n <= e.graph.order.len(),
        forall|i: int|
            0 <= i < n ==> {
                &&& (#[trigger] d.graph.order[i]) == e.graph.order[i]
                &&& d.graph.vertices[d.graph.order[i]] == e.graph.vertices[d.graph.order[i]]
                &&& d.payout_relays(d.graph.order[i]) == e.payout_relays(d.graph.order[i])
            },
    ensures
        d.replayed(n) == e.replayed(n),
    decreases n,
{
    if n > 0 {
        lemma_replay_shared(d, e, (n - 1) as nat);
        let id = d.graph.order[n - 1];
        assert(id == e.graph.order[n - 1]);
        lemma_nobody_loses(d.graph, id);
        lemma_nobody_loses(e.graph, id);
    }
}

/// A winning transfer pays in a rebuild what it pays when it is attached: the sender pays
/// amount and fee, the recipient gets the amount, and what was minted and the fee go to the
/// sender and to the carriers. The carriers are those that the vertex names, or else the
/// phone that brought it.
pub proof fn law_rebuild_pays_the_carriers(d: DagView, n: nat, a: Address)
    requires
        n < d.graph.order.len(),
        !d.graph.loses(d.graph.order[n as int]),
        d.graph.vertices[d.graph.order[n as int]].parent_1 != NULL_PARENT
            || d.graph.vertices[d.graph.order[n as int]].parent_2 != NULL_PARENT,
        d.graph.vertices[d.graph.order[n as int]].relay_nodes.no_duplicates(),
        d.graph.vertices[d.graph.order[n as int]].fee == 1_000,
        d.replayed(n + 1).error is None,
        !d.replayed(n + 1).failed.contains(d.graph.order[n as int]),
    ensures
        ({
            let old = d.replayed(n).ledger;
            let new = d.replayed(n + 1).ledger;
            let id = d.graph.order[n as int];
            let t = d.graph.vertices[id];
            let carriers = if t.relay_nodes.len() > 0 {
                t.relay_nodes
            } else if d.relay_of.contains_key(id) {
                seq![d.relay_of[id]]
            } else {
                Seq::empty()
            };
            let pool = new.supply - old.supply + 1_000;
            let pot = if carriers.len() == 0 {
                0
            } else {
                pool - pool * 80 / 100
            };
            let carried = if carriers.contains(a) {
                pot / carriers.len() as int + (if a == carriers[0] {
                    pot % carriers.len() as int
                } else {
                    0
                })
            } else {
                0
            };
            let sent = if a == t.sender {
                t.amount + 1_000
            } else {
                0
            };
            let received = if a == t.recipient {
                t.amount as int
            } else {
                0
            };
            let mined = if a == t.sender {
                pool - pot
            } else {
                0
            };
            &&& amount_at(new.balances, a) == amount_at(old.balances, a) - sent + received + mined
                + carried
            &&& amount_at(new.relay_credits, a) == amount_at(old.relay_credits, a) + carried
            &&& new.count == old.count + 1
        }),
{
    let id = d.graph.order[n as int];
    let t = d.graph.vertices[id];
    let before = d.replayed(n);
    let relays = d.payout_relays(id);
    assert(before.error is None);
    assert(!t.is_genesis());
    if before.ledger.applied(t, relays).1 is Some {
        let f = d.replayed(n + 1).failed;
        assert(f[f.len() - 1] == id);
        assert(f.contains(id));
    }
    assert(relays.no_duplicates());
    law_confirmation_pays_each_account(before.ledger, t, relays, a);
}

/// `m` has for every account what `l` has, and the credits that are still due. The nonce of
/// `g` is left aside.
spec fn level(l: LedgerView, m: LedgerView, steps: Seq<Step>, g: Address) -> bool {
    &&& l.supply == m.supply
    &&& l.count == m.count
    &&& forall|a: Address| #[trigger]
        amount_at(m.balances, a) == amount_at(l.balances, a) + due(steps, a)
    &&& forall|a: Address| #[trigger]
        amount_at(m.relay_credits, a) == amount_at(l.relay_credits, a)
    &&& forall|a: Address| a != g ==> #[trigger] amount_at(m.nonces, a) == amount_at(l.nonces, a)
}

/// Ledgers that are level stay so when a transfer is applied to both. The richer one can only
/// fail where a sum overflows.
proof fn lemma_level_applied(
    l: LedgerView,
    m: LedgerView,
    steps: Seq<Step>,
    g: Address,
    t: TxView,
    relays: Seq<Address>,
)
    requires
        level(l, m, steps, g),
        l.applied(t, relays).1 is None,
        t.sender != g,
        t.fee == 1_000,
    ensures
        m.applied(t, relays).1 is Some ==> m.applied(t, relays).1 == Some(DagError::Overflow),
        m.applied(t, relays).1 is None ==> level(
            l.applied(t, relays).0,
            m.applied(t, relays).0,
            steps,
            g,
        ),
{
    assert(amount_at(m.nonces, t.sender) == amount_at(l.nonces, t.sender));
    assert(amount_at(m.balances, t.sender) == amount_at(l.balances, t.sender) + due(
        steps,
        t.sender,
    ));
    if m.applied(t, relays).1 is None {
        let rs = distinct(relays);
        law_repeated_relays_count_once(relays);
        law_relay_is_paid_once(l.transferred(t), t.fee, t.sender, relays);
        law_relay_is_paid_once(m.transferred(t), t.fee, t.sender, relays);
        assert(l.applied(t, rs) == l.applied(t, relays));
        assert(m.applied(t, rs) == m.applied(t, relays));
        let x = l.applied(t, rs).0;
        let y = m.applied(t, rs).0;
        lemma_applied_supply(l, t, rs);
        lemma_applied_supply(m, t, rs);
        law_confirmation_pays_each_account(l, t, rs, t.sender);
        law_confirmation_pays_each_account(m, t, rs, t.sender);
        assert forall|a: Address| #[trigger]
            amount_at(y.balances, a) == amount_at(x.balances, a) + due(steps, a) by {
            law_confirmation_pays_each_account(l, t, rs, a);
            law_confirmation_pays_each_account(m, t, rs, a);
            assert(amount_at(m.balances, a) == amount_at(l.balances, a) + due(steps, a));
        }
        assert forall|a: Address| #[trigger]
            amount_at(y.relay_credits, a) == amount_at(x.relay_credits, a) by {
            law_confirmation_pays_each_account(l, t, rs, a);
            law_confirmation_pays_each_account(m, t, rs, a);
            assert(amount_at(m.relay_credits, a) == amount_at(l.relay_credits, a));
        }
        assert forall|a: Address| a != g implies #[trigger] amount_at(y.nonces, a) == amount_at(
            x.nonces,
            a,
        ) by {
            lemma_applied_nonces(l, t, rs);
            lemma_applied_nonces(m, t, rs);
            assert(amount_at(m.nonces, a) == amount_at(l.nonces, a));
        }
    }
}

proof fn lemma_applied_nonces(l: LedgerView, t: TxView, relays: Seq<Address>)
    requires
        l.applied(t, relays).1 is None,
    ensures
        l.applied(t, relays).0.nonces == l.transferred(t).nonces,
{
    crate::dag::laws::lemma_mint_keeps_nonces(l.transferred(t), t.fee, t.sender, relays);
}

proof fn lemma_applied_supply(l: LedgerView, t: TxView, relays: Seq<Address>)
    requires
        l.applied(t, relays).1 is None,
    ensures
        l.applied(t, relays).0.supply - l.supply == tx_subsidy(l.count, l.supply),
{
    crate::dag::accounts::lemma_minted_supply(l.transferred(t), t.fee, t.sender, relays);
}

/// A history of credits and of transfers that were all attached: every credit fits, and every
/// transfer is new, has no fault, and is not the genesis key's own.
pub open spec fn attaches_all(d: DagView, steps: Seq<Step>) -> bool
    decreases steps.len(),
{
    steps.len() > 0 ==> match steps[0] {
        Step::Credit(a, amount) => {
            &&& amount_at(d.ledger.balances, a) + amount <= u64::MAX
            &&& amount_at(d.faucet, a) + amount <= u64::MAX
            &&& attaches_all(d.funded(a, amount), steps.drop_first())
        },
        Step::Take(t) => {
            &&& d.attached(t, true, t.relay_nodes).1 is None
            &&& t.nonce < u64::MAX
            &&& t.sender != address_of(genesis_key())
            &&& attaches_all(d.attached(t, true, t.relay_nodes).0, steps.drop_first())
        },
    }
}

/// Every nonce that a stored transfer used lies behind its sender.
spec fn spent(d: DagView) -> bool {
    forall|id: TxHash| #[trigger]
        d.graph.vertices.contains_key(id) && !d.graph.vertices[id].is_genesis()
            ==> d.graph.vertices[id].nonce < amount_at(
            d.ledger.nonces,
            d.graph.vertices[id].sender,
        )
}

proof fn lemma_attach_step(d: DagView, t: TxView)
    requires
        d.graph.sound(),
        d.graph.order.len() > 0,
        uncontested(d.graph),
        spent(d),
        d.attached(t, true, t.relay_nodes).1 is None,
        t.nonce < u64::MAX,
    ensures
        ({
            let e = d.attached(t, true, t.relay_nodes).0;
            &&& !t.is_genesis()
            &&& t.fee == 1_000
            &&& e.graph == d.graph.with(t)
            &&& e.ledger == d.ledger.applied(t, t.relay_nodes).0
            &&& d.ledger.applied(t, t.relay_nodes).1 is None
            &&& e.graph.sound()
            &&& e.graph.order.len() > 0
            &&& uncontested(e.graph)
            &&& spent(e)
            &&& d.accepted(t) == (e, Ok::<bool, DagError>(true))
        }),
{
    let e = d.attached(t, true, t.relay_nodes).0;
    crate::restart::lemma_stored_first(d.graph);
    assert(d.graph.vertex_fault(t) is None);
    assert(!t.is_genesis());
    law_attach_keeps_sound(d.graph, t);
    lemma_applied_nonces(d.ledger, t, t.relay_nodes);
    assert(t.nonce == amount_at(d.ledger.nonces, t.sender));
    assert forall|id: TxHash| #[trigger]
        e.graph.vertices.contains_key(id) && !e.graph.vertices[id].is_genesis() implies
        e.graph.vertices[id].nonce < amount_at(e.ledger.nonces, e.graph.vertices[id].sender) by {
        if id != t.id {
            assert(d.graph.vertices.contains_key(id));
        }
    }
    assert forall|a: TxHash, b: TxHash|
        #![trigger e.graph.vertices.contains_key(a), e.graph.vertices.contains_key(b)]
        e.graph.vertices.contains_key(a) && e.graph.vertices.contains_key(b)
            && !e.graph.vertices[a].is_genesis() && !e.graph.vertices[b].is_genesis()
            && e.graph.vertices[a].sender == e.graph.vertices[b].sender
            && e.graph.vertices[a].nonce == e.graph.vertices[b].nonce implies a == b by {
        if a != t.id {
            assert(d.graph.vertices.contains_key(a));
        }
        if b != t.id {
            assert(d.graph.vertices.contains_key(b));
        }
    }
}

proof fn lemma_history_end(d: DagView, steps: Seq<Step>)
    requires
        d.graph.sound(),
        d.graph.order.len() > 0,
        uncontested(d.graph),
        spent(d),
        attaches_all(d, steps),
    ensures
        ({
            let f = run(d, steps).0;
            &&& run(d, steps).1 is None
            &&& f.graph.sound()
            &&& uncontested(f.graph)
            &&& f.relay_of == d.relay_of
            &&& f.conflicts == d.conflicts
        }),
    decreases steps.len(),
{
    if steps.len() > 0 {
        match steps[0] {
            Step::Credit(a, amount) => {
                lemma_history_end(d.funded(a, amount), steps.drop_first());
            },
            Step::Take(t) => {
                lemma_attach_step(d, t);
                lemma_history_end(d.attached(t, true, t.relay_nodes).0, steps.drop_first());
            },
        }
    }
}

/// The rebuild of `f` has come to where the history stands at `d`, unless a sum overflowed.
spec fn keeps_up(d: DagView, f: DagView, steps: Seq<Step>, g: Address) -> bool {
    let r = f.replayed(d.graph.order.len());
    r.error == Some(DagError::Overflow) || {
        &&& r.error is None
        &&& r.failed == Seq::<TxHash>::empty()
        &&& level(d.ledger, r.ledger, steps, g)
    }
}

proof fn lemma_level_funded(d: DagView, m: LedgerView, steps: Seq<Step>, g: Address)
    requires
        steps.len() > 0,
        steps[0] is Credit,
        amount_at(d.ledger.balances, steps[0]->Credit_0) + steps[0]->Credit_1 <= u64::MAX,
        level(d.ledger, m, steps, g),
    ensures
        level(
            d.funded(steps[0]->Credit_0, steps[0]->Credit_1).ledger,
            m,
            steps.drop_first(),
            g,
        ),
{
    let a = steps[0]->Credit_0;
    let amount = steps[0]->Credit_1;
    let rest = steps.drop_first();
    let e = d.funded(a, amount);
    assert forall|b: Address| #[trigger]
        amount_at(m.balances, b) == amount_at(e.ledger.balances, b) + due(rest, b) by {
        assert(amount_at(m.balances, b) == amount_at(d.ledger.balances, b) + due(steps, b));
    }
}

proof fn lemma_history_replays(d: DagView, f: DagView, steps: Seq<Step>)
    requires
        d.graph.sound(),
        d.graph.order.len() > 0,
        uncontested(d.graph),
        spent(d),
        attaches_all(d, steps),
        f == run(d, steps).0,
        f.relay_of == Map::<TxHash, Address>::empty(),
        keeps_up(d, f, steps, address_of(genesis_key())),
    ensures
        keeps_up(f, f, Seq::empty(), address_of(genesis_key())),
    decreases steps.len(),
{
    let g = address_of(genesis_key());
    lemma_history_end(d, steps);
    if steps.len() == 0 {
        assert(steps =~= Seq::<Step>::empty());
    } else {
        let rest = steps.drop_first();
        let n = d.graph.order.len();
        match steps[0] {
            Step::Credit(a, amount) => {
                let e = d.funded(a, amount);
                if f.replayed(n).error is None {
                    lemma_level_funded(d, f.replayed(n).ledger, steps, g);
                }
                lemma_history_replays(e, f, rest);
            },
            Step::Take(t) => {
                lemma_attach_step(d, t);
                let e = d.attached(t, true, t.relay_nodes).0;
                lemma_history_end(e, rest);
                crate::interleaved::lemma_run_extends(e, rest);
                assert(f.graph.order.take(n as int + 1)[n as int] == t.id);
                assert(f.graph.order[n as int] == t.id);
                assert(e.graph.vertices.contains_key(t.id));
                assert(f.graph.vertices[t.id] == t);
                lemma_nobody_loses(f.graph, t.id);
                let before = f.replayed(n);
                assert(f.payout_relays(t.id) == t.relay_nodes) by {
                    if t.relay_nodes.len() == 0 {
                        assert(t.relay_nodes =~= Seq::<Address>::empty());
                    }
                }
                if before.error is None {
                    assert forall|b: Address| #[trigger] due(steps, b) == due(rest, b) by {}
                    assert(level(d.ledger, before.ledger, rest, g)) by {
                        assert forall|b: Address| #[trigger]
                            amount_at(before.ledger.balances, b) == amount_at(d.ledger.balances, b)
                                + due(rest, b) by {
                            assert(due(steps, b) == due(rest, b));
                        }
                    }
                    lemma_level_applied(d.ledger, before.ledger, rest, g, t, t.relay_nodes);
                }
                assert(keeps_up(e, f, rest, g));
                lemma_history_replays(e, f, rest);
            },
        }
    }
}

/// A rebuild gives back the ledger. After any history of credits and of transfers that were
/// all attached, carried ones among them, the conflict rule finds nothing to decide, and the
/// ledger that it rebuilds has for every account the balance and the accrued relay credit that
/// the attaching gave it, the same nonces but for that of the genesis key, the same supply and
/// the same count. It can only stop where a sum overflows, which it may where credits came
/// between the transfers, since the rebuild pays them all first.
pub proof fn law_rebuild_gives_back_the_ledger(sig: Seq<u8>, steps: Seq<Step>, a: Address)
    requires
        genesis_state(sig).graph.order.len() > 0,
        attaches_all(genesis_state(sig), steps),
        forall|b: Address| #[trigger] due(steps, b) <= u64::MAX,
    ensures
        ({
            let d = run(genesis_state(sig), steps).0;
            let (e, fault) = d.resolved();
            match fault {
                Some(x) => x == DagError::Overflow,
                None => {
                    &&& e.graph == d.graph
                    &&& e.faucet == d.faucet
                    &&& e.conflicts == Map::<TxHash, TxHash>::empty()
                    &&& amount_at(e.ledger.balances, a) == amount_at(d.ledger.balances, a)
                    &&& amount_at(e.ledger.relay_credits, a) == amount_at(d.ledger.relay_credits, a)
                    &&& a != address_of(genesis_key()) ==> amount_at(e.ledger.nonces, a)
                        == amount_at(d.ledger.nonces, a)
                    &&& e.ledger.supply == d.ledger.supply
                    &&& e.ledger.count == d.ledger.count
                },
            }
        }),
{
    let base = genesis_state(sig);
    let g = address_of(genesis_key());
    let f = run(base, steps).0;
    crate::restart::lemma_genesis_twins(sig, sig);
    let t = genesis_tx(sig);
    assert(base.graph == DagView::blank().graph.with(t));
    assert(uncontested(base.graph));
    assert(spent(base));
    lemma_history_end(base, steps);
    crate::interleaved::lemma_run_extends(base, steps);
    assert(f.graph.order.take(1)[0] == base.graph.order[0]);
    assert(base.graph.order[0] == t.id);
    assert(base.graph.vertices.contains_key(t.id));
    assert(f.graph.vertices[f.graph.order[0]] == t);
    assert(keeps_up(base, f, steps, g)) by {
        assert(f.replayed(0).ledger == f.baseline());
        assert(f.replayed(1) == f.replayed(0));
        assert forall|b: Address| #[trigger]
            amount_at(f.faucet, b) == amount_at(base.ledger.balances, b) + due(steps, b) by {
            assert(due(steps, b) <= u64::MAX);
            crate::interleaved::lemma_run_faucet(base, steps, b);
            assert(base.ledger.balances.contains_key(b) ==> base.ledger.balances[b] == 0);
        }
    }
    lemma_history_replays(base, f, steps);
    let r = f.replayed(f.graph.order.len());
    if r.error is None {
        assert forall|id: TxHash| !f.graph.loses(id) by {
            lemma_nobody_loses(f.graph, id);
        }
        assert(f.resolved().0.conflicts =~= Map::<TxHash, TxHash>::empty());
        assert(amount_at(r.ledger.balances, a) == amount_at(f.ledger.balances, a) + due(
            Seq::empty(),
            a,
        ));
        assert(amount_at(r.ledger.relay_credits, a) == amount_at(f.ledger.relay_credits, a));
        if a != g {
            assert(amount_at(r.ledger.nonces, a) == amount_at(f.ledger.nonces, a));
        }
    }
}

proof fn lemma_credits_grow_little(l: LedgerView, t: TxView, relays: Seq<Address>, a: Address)
    requires
        l.applied(t, relays).1 is None,
        t.fee == 1_000,
    ensures
        amount_at(l.applied(t, relays).0.relay_credits, a) <= amount_at(l.relay_credits, a)
            + 101_000,
        l.applied(t, relays).0.count == l.count + 1,
{
    let rs = distinct(relays);
    law_repeated_relays_count_once(relays);
    law_relay_is_paid_once(l.transferred(t), t.fee, t.sender, relays);
    assert(l.applied(t, rs) == l.applied(t, relays));
    law_confirmation_pays_each_account(l, t, rs, a);
    let n = l.applied(t, rs).0;
    let pool = n.supply - l.supply + 1_000;
    let pot = pool - pool * 80 / 100;
    if rs.contains(a) {
        let k = rs.len() as int;
        vstd::arithmetic::div_mod::lemma_fundamental_div_mod(pot, k);
        assert(0 <= pot / k <= pot && 0 <= pot / k + pot % k <= pot) by (nonlinear_arith)
            requires
                k >= 1,
                pot >= 0,
                pot == k * (pot / k) + pot % k,
                0 <= pot % k < k,
        ;
    }
}

/// A rebuild goes through. Where the credits leave room for the whole supply, the vertices are
/// not astronomically many, and every stored transfer has the fixed fee and an amount that
/// can be added to it, no sum of the rebuild overflows.
pub proof fn law_rebuild_goes_through(d: DagView, n: nat)
    requires
        n <= d.graph.order.len(),
        d.faucet.dom().finite(),
        crate::dag::laws::total(d.faucet) + 24_000_000_100_000 <= u64::MAX,
        (d.graph.order.len() + 1) * 101_000 <= u64::MAX,
        forall|i: int|
            0 <= i < d.graph.order.len() && !d.graph.vertices[#[trigger] d.graph.order[i]].is_genesis()
                ==> d.graph.vertices[d.graph.order[i]].fee == 1_000
                && d.graph.vertices[d.graph.order[i]].amount + 1_000 <= u64::MAX,
    ensures
        d.replayed(n).error is None,
        d.replayed(n).ledger.count <= n,
        forall|a: Address| #[trigger]
            amount_at(d.replayed(n).ledger.relay_credits, a) <= n * 101_000,
    decreases n,
{
    if n > 0 {
        let k = (n - 1) as nat;
        law_rebuild_goes_through(d, k);
        crate::dag::laws::law_replay_accounts_for_every_unit(d, k);
        let before = d.replayed(k);
        let l = before.ledger;
        let id = d.graph.order[n - 1];
        let t = d.graph.vertices[id];
        if !(d.graph.loses(id) || t.is_genesis()) {
            let relays = d.payout_relays(id);
            assert(t.fee == 1_000);
            if t.nonce == amount_at(l.nonces, t.sender) && t.amount + 1_000 <= amount_at(
                l.balances,
                t.sender,
            ) {
                assert forall|a: Address| #[trigger] amount_at(l.relay_credits, a) + 101_000
                    <= u64::MAX by {
                    assert(amount_at(l.relay_credits, a) <= k * 101_000);
                }
                crate::dag::accounts::law_affordable_transfer_applies(l, t, relays);
                assert forall|a: Address| #[trigger]
                    amount_at(d.replayed(n).ledger.relay_credits, a) <= n * 101_000 by {
                    lemma_credits_grow_little(l, t, relays, a);
                    assert(amount_at(l.relay_credits, a) <= k * 101_000);
                }
                lemma_credits_grow_little(l, t, relays, t.sender);
            } else {
                assert(l.applied(t, relays).1 is Some);
                assert(is_lost_spend(l.applied(t, relays).1.unwrap()));
            }
        }
        assert forall|a: Address| #[trigger]
            amount_at(d.replayed(n).ledger.relay_credits, a) <= n * 101_000 by {
            if d.replayed(n).ledger == l {
                assert(amount_at(l.relay_credits, a) <= k * 101_000);
            }
        }
    }
}

/// What a merge does with a transfer that competes with nothing. The vertex is stored and
/// marked with the phone that brought it. If the rebuilt ledger can pay for it, the transfer
/// moves its amount and pays its carriers: those that it names, or else the phone that brought
/// it. If not, it moves nothing and is in the conflict table. Every account is otherwise where
/// a rebuild without the transfer had it.
pub proof fn law_merge_pays_the_carriers(d: DagView, t: TxView, relay: Address, a: Address)
    requires
        d.graph.sound(),
        d.graph.order.len() > 0,
        !d.graph.vertices.contains_key(t.id),
        !d.relay_of.contains_key(t.id),
        d.resolved().1 is None,
        uncontested(d.graph.with(t)),
        d.merged(seq![t], relay).1 == Ok::<u32, SyncError>(1),
        t.relay_nodes.no_duplicates(),
    ensures
        ({
            let e = d.merged(seq![t], relay).0;
            let old = d.resolved().0.ledger;
            let new = e.ledger;
            let carriers = if t.relay_nodes.len() > 0 {
                t.relay_nodes
            } else {
                seq![relay]
            };
            let pool = new.supply - old.supply + 1_000;
            let pot = pool - pool * 80 / 100;
            let carried = if carriers.contains(a) {
                pot / carriers.len() as int + (if a == carriers[0] {
                    pot % carriers.len() as int
                } else {
                    0
                })
            } else {
                0
            };
            let sent = if a == t.sender {
                t.amount + 1_000
            } else {
                0
            };
            let received = if a == t.recipient {
                t.amount as int
            } else {
                0
            };
            let mined = if a == t.sender {
                pool - pot
            } else {
                0
            };
            &&& e.graph.vertices == d.graph.vertices.insert(t.id, t)
            &&& e.relay_of == d.relay_of.insert(t.id, relay)
            &&& e.faucet == d.faucet
            &&& e.conflicts.contains_key(t.id) <==> t.nonce != amount_at(old.nonces, t.sender)
                || amount_at(old.balances, t.sender) < t.amount + 1_000
            &&& e.conflicts.contains_key(t.id) ==> new == old
            &&& !e.conflicts.contains_key(t.id) ==> {
                &&& amount_at(new.balances, a) == amount_at(old.balances, a) - sent + received
                    + mined + carried
                &&& amount_at(new.relay_credits, a) == amount_at(old.relay_credits, a) + carried
                &&& new.count == old.count + 1
            }
        }),
{
    let txs = seq![t];
    let n = d.graph.order.len();
    assert(d.merge_steps(txs, relay, 0) == (MergeView { dag: d, inserted: 0, error: None }));
    let one = d.merge_steps(txs, relay, 1);
    assert(d.merge_steps(txs, relay, 1) == d.merge_steps(txs, relay, txs.len()));
    crate::restart::lemma_stored_first(d.graph);
    assert(d.graph.vertex_fault(t) is None);
    assert(!t.is_genesis());
    law_attach_keeps_sound(d.graph, t);
    let s = one.dag;
    assert(s == (DagView {
        graph: d.graph.with(t),
        relay_of: d.relay_of.insert(t.id, relay),
        ..d
    }));
    assert(uncontested(d.graph)) by {
        assert forall|x: TxHash, y: TxHash|
            #![trigger d.graph.vertices.contains_key(x), d.graph.vertices.contains_key(y)]
            d.graph.vertices.contains_key(x) && d.graph.vertices.contains_key(y)
                && !d.graph.vertices[x].is_genesis() && !d.graph.vertices[y].is_genesis()
                && d.graph.vertices[x].sender == d.graph.vertices[y].sender
                && d.graph.vertices[x].nonce == d.graph.vertices[y].nonce implies x == y by {
            assert(s.graph.vertices.contains_key(x) && s.graph.vertices.contains_key(y));
        }
    }
    assert forall|i: int| 0 <= i < n implies {
        &&& (#[trigger] d.graph.order[i]) == s.graph.order[i]
        &&& d.graph.vertices[d.graph.order[i]] == s.graph.vertices[d.graph.order[i]]
        &&& d.payout_relays(d.graph.order[i]) == s.payout_relays(d.graph.order[i])
    } by {
        assert(d.graph.order.contains(d.graph.order[i]));
        assert(d.graph.vertices.contains_key(d.graph.order[i]));
    }
    lemma_replay_shared(d, s, n);
    let before = s.replayed(n);
    assert(before.error is None);
    assert(before.ledger == d.resolved().0.ledger);
    assert(s.graph.order[n as int] == t.id);
    lemma_nobody_loses(s.graph, t.id);
    let carriers = s.payout_relays(t.id);
    assert(t.fee == 1_000);
    assert(!before.failed.contains(t.id)) by {
        lemma_failed_are_stored(s, n);
        if before.failed.contains(t.id) {
            let i = choose|i: int| 0 <= i < n && s.graph.order[i] == t.id;
            assert(d.graph.order[i] == t.id);
            assert(d.graph.order.contains(t.id));
        }
    }
    let after = s.replayed(n + 1);
    let x = before.ledger.applied(t, carriers);
    assert(after.error is None);
    if x.1 is None {
        assert(after.failed == before.failed);
        assert(carriers.no_duplicates());
        law_confirmation_pays_each_account(before.ledger, t, carriers, a);
        law_confirmation_pays_each_account(before.ledger, t, carriers, t.sender);
    } else {
        assert(after.failed[after.failed.len() - 1] == t.id);
        assert(after.failed.contains(t.id));
    }
}

/// What failed in a rebuild stands in the part of the attach order that it went over.
proof fn lemma_failed_are_stored(d: DagView, n: nat)
    ensures
        forall|id: TxHash| #[trigger]
            d.replayed(n).failed.contains(id) ==> exists|i: int|
                0 <= i < n && d.graph.order[i] == id,
    decreases n,
{
    if n > 0 {
        lemma_failed_are_stored(d, (n - 1) as nat);
        let before = d.replayed((n - 1) as nat).failed;
        let now = d.replayed(n).failed;
        assert forall|id: TxHash| #[trigger] now.contains(id) implies exists|i: int|
            0 <= i < n && d.graph.order[i] == id by {
            let k = choose|k: int| 0 <= k < now.len() && now[k] == id;
            if k < before.len() {
                assert(before[k] == id);
                assert(before.contains(id));
                let i = choose|i: int| 0 <= i < n - 1 && d.graph.order[i] == id;
                assert(d.graph.order[i] == id);
            } else {
                assert(d.graph.order[n - 1] == id);
            }
        }
    }
}

/// Of two stored transfers that spend the same nonce of the same sender, the lighter one loses;
/// of two that weigh the same, the one with the smaller id. After a rebuild it is in the
/// conflict table, with a winner that spends the same nonce and is at least as heavy, and the
/// rebuild passes over it: no balance, nonce or supply is changed by it.
pub proof fn law_lighter_spend_is_passed_over(d: DagView, n: int, rival: TxHash)
    requires
        d.graph.sound(),
        d.resolved().1 is None,
        0 <= n < d.graph.order.len(),
        d.graph.vertices.contains_key(rival),
        !d.graph.vertices[d.graph.order[n]].is_genesis(),
        !d.graph.vertices[rival].is_genesis(),
        d.graph.vertices[rival].sender == d.graph.vertices[d.graph.order[n]].sender,
        d.graph.vertices[rival].nonce == d.graph.vertices[d.graph.order[n]].nonce,
        d.graph.weights[rival] > d.graph.weights[d.graph.order[n]] || (d.graph.weights[rival]
            == d.graph.weights[d.graph.order[n]] && crate::bytes::be_value(rival@)
            > crate::bytes::be_value(d.graph.order[n]@)),
    ensures
        ({
            let e = d.resolved().0;
            let id = d.graph.order[n];
            let w = e.conflicts[id];
            &&& e.conflicts.contains_key(id)
            &&& d.graph.vertices.contains_key(w)
            &&& d.graph.vertices[w].sender == d.graph.vertices[id].sender
            &&& d.graph.vertices[w].nonce == d.graph.vertices[id].nonce
            &&& d.graph.weights[w] >= d.graph.weights[rival]
            &&& d.replayed((n + 1) as nat).ledger == d.replayed(n as nat).ledger
        }),
{
    let g = d.graph;
    let id = g.order[n];
    assert(g.order.contains(id));
    assert(g.vertices.contains_key(id));
    crate::dag::model::lemma_parents_stored(g, id);
    crate::dag::model::lemma_parents_stored(g, rival);
    assert(g.grounded(0));
    assert(g.spends(id) && g.spends(rival));
    law_one_winner_per_nonce(g, id);
    let w = g.winner(id);
    assert(g.weights.contains_key(id) && g.weights.contains_key(rival));
    assert(g.rivals(rival, id));
    assert(g.rivals(id, id));
    assert(g.rivals(w, id));
    assert(g.weights.contains_key(w));
    if w == id {
        assert(g.outranks(id, rival));
    } else {
        if w != rival {
            assert(g.outranks(w, rival));
        }
    }
    assert(g.loses(id));
}

/// What accepting a transfer from the wire reports: `false` exactly where it is stored already,
/// and then nothing changes; `true` only where it is stored now, as it came. A transfer that
/// can be attached is attached, with the carriers that it names.
pub proof fn law_wire_vertex_is_stored_or_refused(d: DagView, t: TxView)
    ensures
        ({
            let (e, r) = d.accepted(t);
            &&& r == Ok::<bool, DagError>(true) ==> !d.graph.vertices.contains_key(t.id)
                && e.graph.vertices == d.graph.vertices.insert(t.id, t)
            &&& r == Ok::<bool, DagError>(false) <==> d.graph.vertices.contains_key(t.id)
            &&& r == Ok::<bool, DagError>(false) ==> e == d
            &&& r is Ok && d.attached(t, true, t.relay_nodes).1 is None ==> e == d.attached(
                t,
                true,
                t.relay_nodes,
            ).0
            &&& d.attached(t, true, t.relay_nodes).1 is None ==> r == Ok::<bool, DagError>(true)
            &&& e.faucet == d.faucet
            &&& e.relay_of == d.relay_of
        }),
{
}

} // verus!
